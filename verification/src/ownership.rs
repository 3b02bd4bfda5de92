use vstd::prelude::*;
use vstd::string::StringExecFns;

use crate::storage::{
    data_paths_with_file_renames, error_text, is_reserved_name, root_path, segments_view,
    spec_layouts_with_renames, valid_segment, Error,
};
use crate::torrent::TorrentMeta;

verus! {

/// What a claim owns: one file, or a directory and all below it.
#[derive(Clone, Copy, Debug, PartialEq, Eq, Structural)]
pub enum ClaimKind {
    File,
    Tree,
}

/// A component of a path as the file system splits it.
#[derive(Clone, Debug)]
pub enum PathPart {
    Root,
    CurDir,
    ParentDir,
    Normal(Vec<u8>),
}

/// A path that one torrent owns exclusively, as the names below the file
/// system root.
#[derive(Clone, Debug)]
pub struct StorageClaim {
    path: Vec<Vec<u8>>,
    kind: ClaimKind,
}

/// A claim as a value: its path and kind.
pub type ClaimModel = (Seq<Seq<u8>>, ClaimKind);

impl View for StorageClaim {
    type V = ClaimModel;

    closed spec fn view(&self) -> ClaimModel {
        (segments_view(self.path@), self.kind)
    }
}

/// A path component as a value.
pub enum PartModel {
    Root,
    CurDir,
    ParentDir,
    Normal(Seq<u8>),
}

pub open spec fn part_model(p: PathPart) -> PartModel {
    match p {
        PathPart::Root => PartModel::Root,
        PathPart::CurDir => PartModel::CurDir,
        PathPart::ParentDir => PartModel::ParentDir,
        PathPart::Normal(v) => PartModel::Normal(v@),
    }
}

pub open spec fn parts_view(ps: Seq<PathPart>) -> Seq<PartModel> {
    ps.map_values(|p: PathPart| part_model(p))
}

/// The message of a path that climbs above the root.
pub open spec fn escapes_root_text() -> Seq<char> {
    "storage ownership path escapes the filesystem root"@
}

/// The message of a root or prefix in the middle of a path.
pub open spec fn invalid_absolute_text() -> Seq<char> {
    "invalid absolute storage ownership path"@
}

/// The remaining components of a path applied to a resolved absolute
/// prefix: names are appended, `.` is skipped, `..` drops the last name
/// (an error at the root), and a root is an error.
pub open spec fn spec_resolve(prefix: Seq<Seq<u8>>, tail: Seq<PartModel>) -> Result<Seq<Seq<u8>>, Seq<char>>
    decreases tail.len(),
{
    if tail.len() == 0 {
        Ok(prefix)
    } else {
        match spec_resolve(prefix, tail.drop_last()) {
            Err(e) => Err(e),
            Ok(p) => match tail.last() {
                PartModel::Normal(n) => Ok(p.push(n)),
                PartModel::CurDir => Ok(p),
                PartModel::ParentDir => if p.len() == 0 {
                    Err(escapes_root_text())
                } else {
                    Ok(p.drop_last())
                },
                PartModel::Root => Err(invalid_absolute_text()),
            },
        }
    }
}

impl StorageClaim {
    /// A claim on the path made of an already resolved absolute prefix
    /// (the names below the root of its deepest existing ancestor, as the
    /// file system resolved it) and the components that follow it.
    pub fn new(resolved: Vec<Vec<u8>>, tail: &[PathPart], kind: ClaimKind) -> (r: Result<Self, String>)
        ensures
            match spec_resolve(segments_view(resolved@), parts_view(tail@)) {
                Ok(p) => r matches Ok(c) && c@ == (p, kind),
                Err(e) => r matches Err(s) && s@ == e,
            },
    {
        let ghost start = segments_view(resolved@);
        let mut path = resolved;
        let mut k: usize = 0;
        while k < tail.len()
            invariant
                k <= tail@.len(),
                start == segments_view(resolved@),
                spec_resolve(start, parts_view(tail@.subrange(0, k as int))) == Ok::<Seq<Seq<u8>>, Seq<char>>(
                    segments_view(path@),
                ),
            decreases tail@.len() - k,
        {
            let ghost sub = parts_view(tail@.subrange(0, k as int + 1));
            assert(sub.drop_last() =~= parts_view(tail@.subrange(0, k as int)));
            assert(sub.last() == part_model(tail@[k as int]));
            let ghost before = segments_view(path@);
            match &tail[k] {
                PathPart::Normal(n) => {
                    path.push(n.clone());
                    assert(segments_view(path@) =~= before.push(n@));
                },
                PathPart::CurDir => {},
                PathPart::ParentDir => {
                    if path.len() == 0 {
                        proof {
                            assert(parts_view(tail@).subrange(0, k as int + 1) =~= sub);
                            assert(spec_resolve(start, sub) == Err::<Seq<Seq<u8>>, Seq<char>>(escapes_root_text()));
                            lemma_resolve_err_sticks(start, parts_view(tail@), k as int + 1, escapes_root_text());
                        }
                        return Err("storage ownership path escapes the filesystem root".to_string());
                    }
                    path.pop();
                    assert(segments_view(path@) =~= before.drop_last());
                },
                PathPart::Root => {
                    proof {
                        assert(parts_view(tail@).subrange(0, k as int + 1) =~= sub);
                        assert(spec_resolve(start, sub) == Err::<Seq<Seq<u8>>, Seq<char>>(invalid_absolute_text()));
                        lemma_resolve_err_sticks(start, parts_view(tail@), k as int + 1, invalid_absolute_text());
                    }
                    return Err("invalid absolute storage ownership path".to_string());
                },
            }
            k = k + 1;
        }
        assert(tail@.subrange(0, k as int) =~= tail@);
        Ok(StorageClaim { path, kind })
    }

    /// The claimed path, as the names below the root.
    pub fn path(&self) -> (r: &Vec<Vec<u8>>)
        ensures
            segments_view(r@) == self@.0,
    {
        &self.path
    }

    /// The kind of the claim.
    pub fn kind(&self) -> (r: ClaimKind)
        ensures
            r == self@.1,
    {
        self.kind
    }
}

proof fn lemma_resolve_err_sticks(prefix: Seq<Seq<u8>>, tail: Seq<PartModel>, k: int, e: Seq<char>)
    requires
        0 <= k <= tail.len(),
        spec_resolve(prefix, tail.subrange(0, k)) == Err::<Seq<Seq<u8>>, Seq<char>>(e),
    ensures
        spec_resolve(prefix, tail) == Err::<Seq<Seq<u8>>, Seq<char>>(e),
    decreases tail.len() - k,
{
    if k < tail.len() {
        assert(tail.drop_last().subrange(0, k) =~= tail.subrange(0, k));
        lemma_resolve_err_sticks(prefix, tail.drop_last(), k, e);
    } else {
        assert(tail.subrange(0, k) =~= tail);
    }
}

// ---------------------------------------------------------------------
// Conflicts
// ---------------------------------------------------------------------

/// `a` begins with the components of `b`.
pub open spec fn has_prefix(a: Seq<Seq<u8>>, b: Seq<Seq<u8>>) -> bool {
    b.len() <= a.len() && a.subrange(0, b.len() as int) == b
}

/// Two claims overlap: two file claims on one path, or a tree claim that
/// contains the other path or is contained by it.
pub open spec fn spec_conflict(left: ClaimModel, right: ClaimModel) -> bool {
    if left.1 == ClaimKind::File && right.1 == ClaimKind::File {
        left.0 == right.0
    } else {
        has_prefix(left.0, right.0) || has_prefix(right.0, left.0)
    }
}

fn components_equal(a: &Vec<Vec<u8>>, b: &Vec<Vec<u8>>, n: usize) -> (r: bool)
    requires
        n <= a@.len(),
        n <= b@.len(),
    ensures
        r == (segments_view(a@).subrange(0, n as int) == segments_view(b@).subrange(0, n as int)),
{
    let mut i: usize = 0;
    while i < n
        invariant
            i <= n,
            n <= a@.len(),
            n <= b@.len(),
            forall|j: int| 0 <= j < i ==> a@[j]@ == b@[j]@,
        decreases n - i,
    {
        if !crate::http::bytes_equal(a[i].as_slice(), b[i].as_slice()) {
            assert(segments_view(a@).subrange(0, n as int)[i as int] != segments_view(b@).subrange(0, n as int)[i as int]);
            return false;
        }
        i = i + 1;
    }
    assert(segments_view(a@).subrange(0, n as int) =~= segments_view(b@).subrange(0, n as int));
    true
}

fn path_has_prefix(a: &Vec<Vec<u8>>, b: &Vec<Vec<u8>>) -> (r: bool)
    ensures
        r == has_prefix(segments_view(a@), segments_view(b@)),
{
    if b.len() > a.len() {
        return false;
    }
    let r = components_equal(a, b, b.len());
    assert(segments_view(b@).subrange(0, b@.len() as int) =~= segments_view(b@));
    r
}

fn same_path(a: &Vec<Vec<u8>>, b: &Vec<Vec<u8>>) -> (r: bool)
    ensures
        r == (segments_view(a@) == segments_view(b@)),
{
    if a.len() != b.len() {
        return false;
    }
    let r = components_equal(a, b, a.len());
    assert(segments_view(a@).subrange(0, a@.len() as int) =~= segments_view(a@));
    assert(segments_view(b@).subrange(0, b@.len() as int) =~= segments_view(b@));
    r
}

/// Whether two claims overlap (see `spec_conflict`).
pub fn claims_conflict(left: &StorageClaim, right: &StorageClaim) -> (r: bool)
    ensures
        r == spec_conflict(left@, right@),
{
    match (left.kind, right.kind) {
        (ClaimKind::File, ClaimKind::File) => same_path(&left.path, &right.path),
        _ => path_has_prefix(&left.path, &right.path) || path_has_prefix(&right.path, &left.path),
    }
}

// ---------------------------------------------------------------------
// The claims of a torrent
// ---------------------------------------------------------------------

/// The claims with `c` added unless an equal one is there.
pub open spec fn add_claim(cs: Seq<ClaimModel>, c: ClaimModel) -> Seq<ClaimModel> {
    if cs.contains(c) {
        cs
    } else {
        cs.push(c)
    }
}

fn push_claim(claims: &mut Vec<StorageClaim>, claim: StorageClaim)
    ensures
        final(claims)@.map_values(|c: StorageClaim| c@) == add_claim(old(claims)@.map_values(|c: StorageClaim| c@), claim@),
{
    let ghost cs = claims@.map_values(|c: StorageClaim| c@);
    let mut i: usize = 0;
    while i < claims.len()
        invariant
            i <= claims@.len(),
            cs == claims@.map_values(|c: StorageClaim| c@),
            forall|j: int| 0 <= j < i ==> cs[j] != claim@,
        decreases claims@.len() - i,
    {
        if claims[i].kind == claim.kind && same_path(&claims[i].path, &claim.path) {
            assert(cs[i as int] == claim@);
            assert(cs.contains(claim@));
            return;
        }
        i = i + 1;
    }
    assert(!cs.contains(claim@));
    claims.push(claim);
    assert(claims@.map_values(|c: StorageClaim| c@) =~= cs.push(claim@));
}

/// The first rename of file `idx`.
pub open spec fn find_rename(rs: Seq<(usize, String)>, idx: usize, k: int) -> Option<int>
    decreases rs.len() - k,
{
    if k < 0 || k >= rs.len() {
        None
    } else if rs[k].0 == idx {
        Some(k)
    } else {
        find_rename(rs, idx, k + 1)
    }
}

/// `x` placed before the first entry whose file index is larger.
pub open spec fn insert_by_index(sorted: Seq<(usize, String)>, x: (usize, String), k: int) -> Seq<(usize, String)>
    decreases sorted.len() - k,
{
    if k < 0 || k >= sorted.len() {
        sorted.push(x)
    } else if sorted[k].0 > x.0 {
        sorted.insert(k, x)
    } else {
        insert_by_index(sorted, x, k + 1)
    }
}

/// The renames ordered by file index, equal indices kept in order.
pub open spec fn sort_by_index(rs: Seq<(usize, String)>) -> Seq<(usize, String)>
    decreases rs.len(),
{
    if rs.len() == 0 {
        rs
    } else {
        insert_by_index(sort_by_index(rs.drop_last()), rs.last(), 0)
    }
}

/// The renames as they will be once a pending rename is done: the
/// pending name replaces that file's rename, or is added and the list
/// ordered by file index.
pub open spec fn prospective_renames(rs: Seq<(usize, String)>, idx: usize, target: String) -> Seq<(usize, String)> {
    match find_rename(rs, idx, 0) {
        Some(k) => rs.update(k, (rs[k].0, target)),
        None => sort_by_index(rs.push((idx, target))),
    }
}

fn insert_sorted(sorted: &mut Vec<(usize, String)>, x: (usize, String))
    ensures
        final(sorted)@ == insert_by_index(old(sorted)@, x, 0),
{
    let mut k: usize = 0;
    while k < sorted.len()
        invariant
            k <= sorted@.len(),
            sorted@ == old(sorted)@,
            insert_by_index(sorted@, x, 0) == insert_by_index(sorted@, x, k as int),
        decreases sorted@.len() - k,
    {
        if sorted[k].0 > x.0 {
            sorted.insert(k, x);
            return;
        }
        k = k + 1;
    }
    sorted.push(x);
}

fn clone_renames(rs: &[(usize, String)]) -> (r: Vec<(usize, String)>)
    ensures
        r@ == rs@,
{
    let mut out: Vec<(usize, String)> = Vec::new();
    let mut k: usize = 0;
    while k < rs.len()
        invariant
            k <= rs@.len(),
            out@ == rs@.subrange(0, k as int),
        decreases rs@.len() - k,
    {
        let e = (rs[k].0, rs[k].1.clone());
        out.push(e);
        assert(out@ =~= rs@.subrange(0, k as int + 1));
        k = k + 1;
    }
    assert(rs@.subrange(0, k as int) =~= rs@);
    out
}

fn prospective(rs: &[(usize, String)], idx: usize, target: &String) -> (r: Vec<(usize, String)>)
    ensures
        r@ == prospective_renames(rs@, idx, *target),
{
    let mut k: usize = 0;
    while k < rs.len()
        invariant
            k <= rs@.len(),
            find_rename(rs@, idx, 0) == find_rename(rs@, idx, k as int),
        decreases rs@.len() - k,
    {
        if rs[k].0 == idx {
            let mut out = clone_renames(rs);
            let entry = (rs[k].0, target.clone());
            out.set(k, entry);
            return out;
        }
        k = k + 1;
    }
    let mut all = clone_renames(rs);
    all.push((idx, target.clone()));
    let ghost full = all@;
    let mut sorted: Vec<(usize, String)> = Vec::new();
    let mut j: usize = 0;
    while j < all.len()
        invariant
            j <= all@.len(),
            all@ == full,
            sorted@ == sort_by_index(full.subrange(0, j as int)),
        decreases all@.len() - j,
    {
        let ghost sub = full.subrange(0, j as int + 1);
        assert(sub.drop_last() =~= full.subrange(0, j as int));
        let e = (all[j].0, all[j].1.clone());
        insert_sorted(&mut sorted, e);
        j = j + 1;
    }
    assert(full.subrange(0, j as int) =~= full);
    sorted
}

/// The claims of one rename variant of a single-file torrent: its file,
/// and the file of the same name in the completion directory when a move
/// is pending.
pub open spec fn single_claims(
    cs: Seq<ClaimModel>,
    meta: TorrentMeta,
    dir: Seq<Seq<u8>>,
    renames: Seq<(usize, String)>,
    completion: Option<Seq<Seq<u8>>>,
) -> Result<Seq<ClaimModel>, Seq<char>> {
    match spec_layouts_with_renames(meta, renames) {
        Err(e) => Err("storage ownership path: "@ + error_text(e)),
        Ok(ls) => if ls.len() == 0 {
            Err("single-file torrent has no storage path"@)
        } else {
            let source = dir + ls[0].0;
            let cs1 = add_claim(cs, (source, ClaimKind::File));
            match completion {
                None => Ok(cs1),
                Some(d) => Ok(add_claim(cs1, (d.push(source.last()), ClaimKind::File))),
            }
        },
    }
}

/// Whether a torrent's name can be its root directory.
pub open spec fn root_ok(meta: TorrentMeta) -> bool {
    !is_reserved_name(meta.info.name@) && valid_segment(meta.info.name@)
}

/// The claims of a multi-file torrent: its root, and the root in the
/// completion directory when a move is pending; the renames, and the
/// pending one, must also give valid paths.
pub open spec fn tree_claims(
    meta: TorrentMeta,
    dir: Seq<Seq<u8>>,
    renames: Seq<(usize, String)>,
    pending: Option<(usize, String)>,
    completion: Option<Seq<Seq<u8>>>,
) -> Result<Seq<ClaimModel>, Seq<char>> {
    if !root_ok(meta) {
        Err("storage ownership root: "@ + error_text(Error::InvalidName))
    } else {
        let name = meta.info.name@;
        let cs0 = seq![(dir.push(name), ClaimKind::Tree)];
        let cs = match completion {
            None => cs0,
            Some(d) => add_claim(cs0, (d.push(name), ClaimKind::Tree)),
        };
        match spec_layouts_with_renames(meta, renames) {
            Err(e) => Err("storage ownership paths: "@ + error_text(e)),
            Ok(_) => match pending {
                None => Ok(cs),
                Some((i, t)) => match spec_layouts_with_renames(meta, prospective_renames(renames, i, t)) {
                    Err(e) => Err("pending rename ownership paths: "@ + error_text(e)),
                    Ok(_) => Ok(cs),
                },
            },
        }
    }
}

/// Every path a torrent must own exclusively: for a single-file torrent
/// its file under the current renames and, when a rename is pending,
/// under the renames it will leave; for a multi-file torrent its root.
/// A pending completion move adds the same claims in the destination.
pub open spec fn spec_claims_for_torrent(
    meta: TorrentMeta,
    dir: Seq<Seq<u8>>,
    renames: Seq<(usize, String)>,
    pending: Option<(usize, String)>,
    completion: Option<Seq<Seq<u8>>>,
) -> Result<Seq<ClaimModel>, Seq<char>> {
    if meta.info.length is Some {
        match single_claims(Seq::empty(), meta, dir, renames, completion) {
            Err(e) => Err(e),
            Ok(cs) => match pending {
                None => Ok(cs),
                Some((i, t)) => single_claims(cs, meta, dir, prospective_renames(renames, i, t), completion),
            },
        }
    } else {
        tree_claims(meta, dir, renames, pending, completion)
    }
}

fn prefixed(prefix: &str, e: &Error) -> (r: String)
    ensures
        !(e is Io) ==> r@ == prefix@ + error_text(*e),
{
    let mut s = prefix.to_string();
    s.append(e.message().as_str());
    s
}

fn joined(dir: &[Vec<u8>], segs: &Vec<Vec<u8>>) -> (r: Vec<Vec<u8>>)
    ensures
        segments_view(r@) == segments_view(dir@) + segments_view(segs@),
{
    let mut out: Vec<Vec<u8>> = Vec::new();
    let mut k: usize = 0;
    while k < dir.len()
        invariant
            k <= dir@.len(),
            segments_view(out@) == segments_view(dir@.subrange(0, k as int)),
        decreases dir@.len() - k,
    {
        let v = crate::text::bytes_to_vec(dir[k].as_slice());
        let ghost prev = out@;
        out.push(v);
        assert(segments_view(out@) =~= segments_view(prev).push(dir@[k as int]@));
        assert(dir@.subrange(0, k as int + 1) =~= dir@.subrange(0, k as int).push(dir@[k as int]));
        assert(segments_view(dir@.subrange(0, k as int + 1)) =~= segments_view(dir@.subrange(0, k as int)).push(
            dir@[k as int]@,
        ));
        k = k + 1;
    }
    let mut j: usize = 0;
    while j < segs.len()
        invariant
            j <= segs@.len(),
            k == dir@.len(),
            segments_view(out@) == segments_view(dir@.subrange(0, k as int)) + segments_view(segs@.subrange(0, j as int)),
        decreases segs@.len() - j,
    {
        let v = crate::text::bytes_to_vec(segs[j].as_slice());
        let ghost prev = out@;
        out.push(v);
        assert(segments_view(out@) =~= segments_view(prev).push(segs@[j as int]@));
        assert(segs@.subrange(0, j as int + 1) =~= segs@.subrange(0, j as int).push(segs@[j as int]));
        assert(segments_view(segs@.subrange(0, j as int + 1)) =~= segments_view(segs@.subrange(0, j as int)).push(
            segs@[j as int]@,
        ));
        j = j + 1;
    }
    assert(dir@.subrange(0, k as int) =~= dir@);
    assert(segs@.subrange(0, j as int) =~= segs@);
    out
}

fn push_single_claims(
    claims: &mut Vec<StorageClaim>,
    meta: &TorrentMeta,
    dir: &[Vec<u8>],
    renames: &[(usize, String)],
    completion: Option<&[Vec<u8>]>,
) -> (r: Result<(), String>)
    requires
        meta.info.length is Some,
    ensures
        match single_claims(
            old(claims)@.map_values(|c: StorageClaim| c@),
            *meta,
            segments_view(dir@),
            renames@,
            match completion { Some(d) => Some(segments_view(d@)), None => None },
        ) {
            Ok(cs) => r is Ok && final(claims)@.map_values(|c: StorageClaim| c@) == cs,
            Err(e) => r matches Err(s) && s@ == e,
        },
{
    let paths = match data_paths_with_file_renames(meta, renames) {
        Ok(p) => p,
        Err(e) => {
            proof {
                crate::storage::lemma_layout_errors_not_io(*meta, renames@);
            }
            return Err(prefixed("storage ownership path: ", &e));
        },
    };
    if paths.len() == 0 {
        return Err("single-file torrent has no storage path".to_string());
    }
    let source = joined(dir, &paths[0]);
    let ghost src = segments_view(source@);
    assert(src.len() > 0) by {
        if meta.info.length is Some {
            crate::storage::lemma_layouts_nonempty(*meta, renames@);
        }
    }
    let name = crate::text::bytes_to_vec(source[source.len() - 1].as_slice());
    push_claim(claims, StorageClaim { path: source, kind: ClaimKind::File });
    match completion {
        None => {},
        Some(d) => {
            let mut dest = joined(d, &Vec::new());
            dest.push(name);
            assert(segments_view(dest@) =~= segments_view(d@).push(src.last()));
            push_claim(claims, StorageClaim { path: dest, kind: ClaimKind::File });
        },
    }
    Ok(())
}

/// Builds every claim of a torrent (see `spec_claims_for_torrent`). The
/// directories are given resolved, as names below the root.
pub fn claims_for_torrent(
    meta: &TorrentMeta,
    download_dir: &[Vec<u8>],
    file_renames: &[(usize, String)],
    pending_file_rename: Option<(usize, String)>,
    pending_completion_dir: Option<&[Vec<u8>]>,
) -> (r: Result<Vec<StorageClaim>, String>)
    ensures
        match spec_claims_for_torrent(
            *meta,
            segments_view(download_dir@),
            file_renames@,
            pending_file_rename,
            match pending_completion_dir { Some(d) => Some(segments_view(d@)), None => None },
        ) {
            Ok(cs) => r matches Ok(v) && v@.map_values(|c: StorageClaim| c@) == cs,
            Err(e) => r matches Err(s) && s@ == e,
        },
{
    let mut claims: Vec<StorageClaim> = Vec::new();
    assert(claims@.map_values(|c: StorageClaim| c@) =~= Seq::<ClaimModel>::empty());
    if meta.info.length.is_some() {
        push_single_claims(&mut claims, meta, download_dir, file_renames, pending_completion_dir)?;
        match &pending_file_rename {
            None => {},
            Some((index, target)) => {
                let p = prospective(file_renames, *index, target);
                push_single_claims(&mut claims, meta, download_dir, p.as_slice(), pending_completion_dir)?;
            },
        }
        Ok(claims)
    } else {
        let name = match root_path(meta) {
            Ok(n) => n,
            Err(e) => {
                assert(e == Error::InvalidName);
                return Err(prefixed("storage ownership root: ", &e));
            },
        };
        let mut root = joined(download_dir, &Vec::new());
        root.push(name.clone());
        assert(segments_view(root@) =~= segments_view(download_dir@).push(meta.info.name@));
        push_claim(&mut claims, StorageClaim { path: root, kind: ClaimKind::Tree });
        match pending_completion_dir {
            None => {},
            Some(d) => {
                let mut dest = joined(d, &Vec::new());
                dest.push(name);
                assert(segments_view(dest@) =~= segments_view(d@).push(meta.info.name@));
                push_claim(&mut claims, StorageClaim { path: dest, kind: ClaimKind::Tree });
            },
        }
        match data_paths_with_file_renames(meta, file_renames) {
            Ok(_) => {},
            Err(e) => {
                proof {
                    crate::storage::lemma_layout_errors_not_io(*meta, file_renames@);
                }
                return Err(prefixed("storage ownership paths: ", &e));
            },
        }
        match &pending_file_rename {
            None => {},
            Some((index, target)) => {
                let p = prospective(file_renames, *index, target);
                match data_paths_with_file_renames(meta, p.as_slice()) {
                    Ok(_) => {},
                    Err(e) => {
                        proof {
                            crate::storage::lemma_layout_errors_not_io(*meta, p@);
                        }
                        return Err(prefixed("pending rename ownership paths: ", &e));
                    },
                }
            },
        }
        Ok(claims)
    }
}

/// Whether two claims overlap does not depend on the order they are
/// compared in.
pub proof fn lemma_conflict_symmetric(a: ClaimModel, b: ClaimModel)
    ensures
        spec_conflict(a, b) == spec_conflict(b, a),
{
}

/// Every claim overlaps itself: no two torrents can hold the same claim.
pub proof fn lemma_conflict_reflexive(a: ClaimModel)
    ensures
        spec_conflict(a, a),
{
    assert(a.0.subrange(0, a.0.len() as int) =~= a.0);
}

/// A tree claim overlaps every claim on a path inside the tree.
pub proof fn lemma_tree_contains(tree: ClaimModel, inner: ClaimModel)
    requires
        tree.1 == ClaimKind::Tree,
        has_prefix(inner.0, tree.0),
    ensures
        spec_conflict(tree, inner),
{
}

} // verus!
