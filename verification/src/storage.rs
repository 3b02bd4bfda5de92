use vstd::prelude::*;

use crate::text::{bytes_to_vec, str_bytes};
use vstd::utf8::encode_utf8;
use crate::torrent::{spec_file_offsets, spec_total_length, FileInfo, FileTreeEntry, TorrentMeta};

verus! {

/// Why storage for a torrent could not be laid out, opened or used.
#[derive(Debug)]
pub enum Error {
    Io(std::io::Error),
    InvalidName,
    InvalidPathSegment,
    InvalidFiles,
    InvalidLength,
    OutOfBounds,
    SymlinkNotAllowed,
    InsufficientDiskSpace,
    PayloadInUse,
}

/// The text of a storage error other than an I/O failure.
pub open spec fn error_text(e: Error) -> Seq<char> {
    match e {
        Error::Io(_) => "io error"@,
        Error::InvalidName => "invalid torrent name"@,
        Error::InvalidPathSegment => "invalid path segment"@,
        Error::InvalidFiles => "invalid file list"@,
        Error::InvalidLength => "invalid length"@,
        Error::OutOfBounds => "read/write out of bounds"@,
        Error::SymlinkNotAllowed => "symlinks are not allowed in torrent paths"@,
        Error::InsufficientDiskSpace => "insufficient disk space"@,
        Error::PayloadInUse => "torrent payload is already in use"@,
    }
}

/// `io error: ` and the I/O error's own text, as `Display` writes it.
#[verifier::external_body]
fn io_error_text(e: &std::io::Error) -> (r: String) {
    format!("io error: {e}")
}

impl Error {
    /// The error's text (see `error_text`); an I/O failure carries the
    /// operating system's words.
    pub fn message(&self) -> (r: String)
        ensures
            !(self is Io) ==> r@ == error_text(*self),
    {
        match self {
            Error::Io(e) => io_error_text(e),
            Error::InvalidName => "invalid torrent name".to_string(),
            Error::InvalidPathSegment => "invalid path segment".to_string(),
            Error::InvalidFiles => "invalid file list".to_string(),
            Error::InvalidLength => "invalid length".to_string(),
            Error::OutOfBounds => "read/write out of bounds".to_string(),
            Error::SymlinkNotAllowed => "symlinks are not allowed in torrent paths".to_string(),
            Error::InsufficientDiskSpace => "insufficient disk space".to_string(),
            Error::PayloadInUse => "torrent payload is already in use".to_string(),
        }
    }
}

/// Counters of storage reads and writes.
#[derive(Debug, Clone, Copy)]
pub struct StorageMetrics {
    pub read_ops: u64,
    pub read_ns: u64,
    pub write_ops: u64,
    pub write_ns: u64,
}

/// How storage files are created and written.
#[derive(Debug, Clone, Copy)]
pub struct StorageOptions {
    pub preallocate: bool,
    pub write_cache_bytes: usize,
}

impl StorageOptions {
    /// No preallocation and no write cache.
    pub fn new() -> (r: Self)
        ensures
            !r.preallocate,
            r.write_cache_bytes == 0,
    {
        StorageOptions { preallocate: false, write_cache_bytes: 0 }
    }
}

/// Where one file of a torrent lies: its path below the download
/// directory as segments (the torrent's name first), and its byte range in
/// the torrent's content.
#[derive(Debug, Clone)]
pub struct FileLayout {
    pub segments: Vec<Vec<u8>>,
    pub offset: u64,
    pub length: u64,
}

/// A laid-out file: its path segments, offset and length.
pub type LayoutModel = (Seq<Seq<u8>>, u64, u64);

pub open spec fn segments_view(v: Seq<Vec<u8>>) -> Seq<Seq<u8>> {
    v.map_values(|s: Vec<u8>| s@)
}

impl View for FileLayout {
    type V = LayoutModel;

    open spec fn view(&self) -> LayoutModel {
        (segments_view(self.segments@), self.offset, self.length)
    }
}

pub open spec fn layouts_view(v: Seq<FileLayout>) -> Seq<LayoutModel> {
    v.map_values(|l: FileLayout| l@)
}

// ---------------------------------------------------------------------
// Names
// ---------------------------------------------------------------------

/// ASCII lower case.
pub open spec fn ascii_lower(c: u8) -> u8 {
    if 65 <= c <= 90 {
        (c + 32) as u8
    } else {
        c
    }
}

/// `eq_ignore_ascii_case`.
pub open spec fn eq_ignore_case(a: Seq<u8>, b: Seq<u8>) -> bool {
    a.len() == b.len() && forall|i: int| 0 <= i < a.len() ==> ascii_lower(#[trigger] a[i]) == ascii_lower(b[i])
}

/// `.rustorrent`
pub open spec fn state_dir_name() -> Seq<u8> {
    seq![46u8, 114, 117, 115, 116, 111, 114, 114, 101, 110, 116]
}

/// `.rustorrent.lock`
pub open spec fn state_lock_name() -> Seq<u8> {
    state_dir_name() + seq![46u8, 108, 111, 99, 107]
}

/// Names the application keeps its own state under, in any case.
pub open spec fn is_reserved_name(b: Seq<u8>) -> bool {
    eq_ignore_case(b, state_dir_name()) || eq_ignore_case(b, state_lock_name())
}

/// A path segment that names one entry inside its directory: not empty,
/// not `.` or `..`, and without NUL, `/`, `\` or control bytes.
pub open spec fn valid_segment(b: Seq<u8>) -> bool {
    &&& b.len() > 0
    &&& b != seq![46u8]
    &&& b != seq![46u8, 46]
    &&& forall|i: int| 0 <= i < b.len() ==> #[trigger] b[i] != 47 && b[i] != 92 && b[i] >= 32
}

pub fn eq_ignore_ascii_case(a: &[u8], b: &[u8]) -> (r: bool)
    ensures
        r == eq_ignore_case(a@, b@),
{
    if a.len() != b.len() {
        return false;
    }
    let mut i: usize = 0;
    while i < a.len()
        invariant
            i <= a@.len(),
            a@.len() == b@.len(),
            forall|j: int| 0 <= j < i ==> ascii_lower(#[trigger] a@[j]) == ascii_lower(b@[j]),
        decreases a@.len() - i,
    {
        let x = a[i];
        let y = b[i];
        let lx = if 65 <= x && x <= 90 {
            x + 32
        } else {
            x
        };
        let ly = if 65 <= y && y <= 90 {
            y + 32
        } else {
            y
        };
        if lx != ly {
            return false;
        }
        i = i + 1;
    }
    true
}

/// Whether a name is reserved for the application's own state.
pub fn is_reserved_app_name_bytes(bytes: &[u8]) -> (r: bool)
    ensures
        r == is_reserved_name(bytes@),
{
    let dir: [u8; 11] = [46, 114, 117, 115, 116, 111, 114, 114, 101, 110, 116];
    let lock: [u8; 16] = [46, 114, 117, 115, 116, 111, 114, 114, 101, 110, 116, 46, 108, 111, 99, 107];
    assert(dir@ =~= state_dir_name());
    assert(lock@ =~= state_lock_name());
    eq_ignore_ascii_case(bytes, dir.as_slice()) || eq_ignore_ascii_case(bytes, lock.as_slice())
}

/// Checks one path segment of a torrent (see `valid_segment`).
pub fn clean_segment(bytes: &[u8]) -> (r: Result<Vec<u8>, Error>)
    ensures
        valid_segment(bytes@) ==> (r matches Ok(v) && v@ == bytes@),
        !valid_segment(bytes@) ==> r matches Err(Error::InvalidPathSegment),
{
    if bytes.len() == 0 {
        return Err(Error::InvalidPathSegment);
    }
    if bytes.len() == 1 && bytes[0] == 46 {
        assert(bytes@ =~= seq![46u8]);
        return Err(Error::InvalidPathSegment);
    }
    if bytes.len() == 2 && bytes[0] == 46 && bytes[1] == 46 {
        assert(bytes@ =~= seq![46u8, 46]);
        return Err(Error::InvalidPathSegment);
    }
    let mut i: usize = 0;
    while i < bytes.len()
        invariant
            i <= bytes@.len(),
            forall|j: int| 0 <= j < i ==> #[trigger] bytes@[j] != 47 && bytes@[j] != 92 && bytes@[j] >= 32,
        decreases bytes@.len() - i,
    {
        let b = bytes[i];
        if b == 0 || b == 47 || b == 92 || b < 32 {
            return Err(Error::InvalidPathSegment);
        }
        i = i + 1;
    }
    proof {
        if bytes@ == seq![46u8] {
            assert(bytes@.len() == 1 && bytes@[0] == 46);
        }
        if bytes@ == seq![46u8, 46] {
            assert(bytes@.len() == 2 && bytes@[0] == 46 && bytes@[1] == 46);
        }
    }
    Ok(bytes_to_vec(bytes))
}

/// The torrent's name as the root entry of its storage: refused when
/// reserved or not a valid segment.
pub fn clean_name(bytes: &[u8]) -> (r: Result<Vec<u8>, Error>)
    ensures
        !is_reserved_name(bytes@) && valid_segment(bytes@) ==> (r matches Ok(v) && v@ == bytes@),
        is_reserved_name(bytes@) || !valid_segment(bytes@) ==> r matches Err(Error::InvalidName),
{
    if is_reserved_app_name_bytes(bytes) {
        return Err(Error::InvalidName);
    }
    match clean_segment(bytes) {
        Ok(v) => Ok(v),
        Err(_) => Err(Error::InvalidName),
    }
}

} // verus!

verus! {

// ---------------------------------------------------------------------
// Layout
// ---------------------------------------------------------------------

/// Whether path `a` is `b` or one of its ancestors, segment by segment.
pub open spec fn seg_prefix(a: Seq<Seq<u8>>, b: Seq<Seq<u8>>) -> bool {
    a.len() <= b.len() && b.subrange(0, a.len() as int) == a
}

/// No two files share a path, and no file lies inside another.
pub open spec fn paths_distinct(ls: Seq<LayoutModel>) -> bool {
    forall|i: int, j: int|
        0 <= i < ls.len() && 0 <= j < ls.len() && i != j ==> !seg_prefix(
            #[trigger] ls[i].0,
            #[trigger] ls[j].0,
        )
}

/// A file path of a torrent: at least one segment, all valid.
pub open spec fn path_ok(path: Seq<Vec<u8>>) -> bool {
    path.len() > 0 && forall|k: int| 0 <= k < path.len() ==> valid_segment(#[trigger] path[k]@)
}

/// The files a multi-file torrent lays out: the v1 list when present,
/// else the v2 file tree.
pub open spec fn layout_file_count(meta: TorrentMeta) -> int {
    if meta.info.files@.len() > 0 {
        meta.info.files@.len() as int
    } else {
        meta.info.file_tree@.len() as int
    }
}

pub open spec fn layout_file_path(meta: TorrentMeta, i: int) -> Seq<Vec<u8>> {
    if meta.info.files@.len() > 0 {
        meta.info.files@[i].path@
    } else {
        meta.info.file_tree@[i].path@
    }
}

pub open spec fn layout_file_length(meta: TorrentMeta, i: int) -> u64 {
    if meta.info.files@.len() > 0 {
        meta.info.files@[i].length
    } else {
        meta.info.file_tree@[i].length
    }
}

/// The files of a torrent below the download directory, or why they cannot
/// be laid out. The name must be a valid, unreserved segment and the
/// content length positive; a multi-file torrent needs files, each with a
/// valid path, and no path may equal or contain another.
pub open spec fn spec_build_layout(meta: TorrentMeta) -> Result<Seq<LayoutModel>, Error> {
    let name = meta.info.name@;
    let total = spec_total_length(meta.info);
    if is_reserved_name(name) || !valid_segment(name) {
        Err(Error::InvalidName)
    } else if total > u64::MAX || total == 0 {
        Err(Error::InvalidLength)
    } else if meta.info.length is Some {
        Ok(seq![(seq![name], 0u64, meta.info.length.unwrap())])
    } else if meta.info.files@.len() == 0 && meta.info.file_tree@.len() == 0 {
        Err(Error::InvalidFiles)
    } else {
        match spec_file_offsets(meta) {
            None => Err(Error::InvalidLength),
            Some(offsets) => {
                let n = layout_file_count(meta);
                if exists|i: int| 0 <= i < n && !path_ok(#[trigger] layout_file_path(meta, i)) {
                    Err(Error::InvalidPathSegment)
                } else {
                    let ls = Seq::new(
                        n as nat,
                        |i: int|
                            (
                                seq![name] + segments_view(layout_file_path(meta, i)),
                                offsets[i],
                                layout_file_length(meta, i),
                            ),
                    );
                    if paths_distinct(ls) {
                        Ok(ls)
                    } else {
                        Err(Error::InvalidFiles)
                    }
                }
            },
        }
    }
}

fn bytes_eq(a: &[u8], b: &[u8]) -> (r: bool)
    ensures
        r == (a@ == b@),
{
    if a.len() != b.len() {
        return false;
    }
    let mut i: usize = 0;
    while i < a.len()
        invariant
            i <= a@.len(),
            a@.len() == b@.len(),
            forall|j: int| 0 <= j < i ==> a@[j] == b@[j],
        decreases a@.len() - i,
    {
        if a[i] != b[i] {
            return false;
        }
        i = i + 1;
    }
    assert(a@ =~= b@);
    true
}

fn is_seg_prefix(a: &Vec<Vec<u8>>, b: &Vec<Vec<u8>>) -> (r: bool)
    ensures
        r == seg_prefix(segments_view(a@), segments_view(b@)),
{
    if a.len() > b.len() {
        return false;
    }
    let mut k: usize = 0;
    while k < a.len()
        invariant
            k <= a@.len(),
            a@.len() <= b@.len(),
            forall|x: int| 0 <= x < k ==> a@[x]@ == b@[x]@,
        decreases a@.len() - k,
    {
        if !bytes_eq(a[k].as_slice(), b[k].as_slice()) {
            assert(segments_view(b@).subrange(0, a@.len() as int)[k as int] != segments_view(a@)[k as int]);
            return false;
        }
        k = k + 1;
    }
    assert(segments_view(b@).subrange(0, a@.len() as int) =~= segments_view(a@));
    true
}

/// Refuses layouts where a path equals or contains another.
pub fn validate_layout_paths(layouts: &[FileLayout]) -> (r: Result<(), Error>)
    ensures
        paths_distinct(layouts_view(layouts@)) ==> r is Ok,
        !paths_distinct(layouts_view(layouts@)) ==> r matches Err(Error::InvalidFiles),
{
    let n = layouts.len();
    let mut i: usize = 0;
    while i < n
        invariant
            i <= n,
            n == layouts@.len(),
            forall|x: int, y: int|
                0 <= x < i && 0 <= y < n && x != y ==> !seg_prefix(
                    #[trigger] layouts_view(layouts@)[x].0,
                    #[trigger] layouts_view(layouts@)[y].0,
                ),
        decreases n - i,
    {
        let mut j: usize = 0;
        while j < n
            invariant
                i < n,
                j <= n,
                n == layouts@.len(),
                forall|x: int, y: int|
                    0 <= x < i && 0 <= y < n && x != y ==> !seg_prefix(
                        #[trigger] layouts_view(layouts@)[x].0,
                        #[trigger] layouts_view(layouts@)[y].0,
                    ),
                forall|y: int|
                    0 <= y < j && i != y ==> !seg_prefix(
                        layouts_view(layouts@)[i as int].0,
                        #[trigger] layouts_view(layouts@)[y].0,
                    ),
            decreases n - j,
        {
            if i != j && is_seg_prefix(&layouts[i].segments, &layouts[j].segments) {
                proof {
                    let lv = layouts_view(layouts@);
                    assert(lv[i as int].0 == segments_view(layouts@[i as int].segments@));
                    assert(lv[j as int].0 == segments_view(layouts@[j as int].segments@));
                    assert(seg_prefix(lv[i as int].0, lv[j as int].0));
                }
                return Err(Error::InvalidFiles);
            }
            j = j + 1;
        }
        i = i + 1;
    }
    Ok(())
}

proof fn lemma_segments_push(s: Seq<Vec<u8>>, v: Vec<u8>)
    ensures
        segments_view(s.push(v)) == segments_view(s).push(v@),
{
    assert(segments_view(s.push(v)) =~= segments_view(s).push(v@));
}

/// The segments of one file: the torrent's name, then the file's path.
fn file_segments(name: &[u8], path: &Vec<Vec<u8>>) -> (r: Result<Vec<Vec<u8>>, Error>)
    ensures
        path_ok(path@) ==> (r matches Ok(v) && segments_view(v@) == seq![name@] + segments_view(path@)),
        !path_ok(path@) ==> r matches Err(Error::InvalidPathSegment),
{
    if path.len() == 0 {
        return Err(Error::InvalidPathSegment);
    }
    let mut segs: Vec<Vec<u8>> = Vec::new();
    let first = bytes_to_vec(name);
    proof {
        lemma_segments_push(segs@, first);
        assert(segments_view(segs@) =~= Seq::<Seq<u8>>::empty());
        assert(segments_view(path@).subrange(0, 0) =~= Seq::<Seq<u8>>::empty());
    }
    segs.push(first);
    let mut k: usize = 0;
    while k < path.len()
        invariant
            k <= path@.len(),
            segments_view(segs@) == seq![name@] + segments_view(path@).subrange(0, k as int),
            forall|x: int| 0 <= x < k ==> valid_segment(#[trigger] path@[x]@),
        decreases path@.len() - k,
    {
        let seg = clean_segment(path[k].as_slice())?;
        let ghost before = segs@;
        segs.push(seg);
        proof {
            lemma_segments_push(before, seg);
            assert(seq![name@] + segments_view(path@).subrange(0, k + 1) =~= (seq![name@]
                + segments_view(path@).subrange(0, k as int)).push(path@[k as int]@));
        }
        k = k + 1;
    }
    assert(segments_view(path@).subrange(0, k as int) =~= segments_view(path@));
    Ok(segs)
}

/// Lays out the files of a torrent (see `spec_build_layout`).
#[verifier::loop_isolation(false)]
pub fn build_layout(meta: &TorrentMeta) -> (r: Result<Vec<FileLayout>, Error>)
    ensures
        match spec_build_layout(*meta) {
            Ok(ls) => r matches Ok(v) && layouts_view(v@) == ls,
            Err(e) => r matches Err(e2) && e2 == e,
        },
        r matches Ok(v) ==> forall|i: int| 0 <= i < v@.len() ==> (#[trigger] v@[i]).segments@.len() > 0,
{
    let name = clean_name(meta.info.name.as_slice())?;
    let total_length = match meta.info.checked_total_length() {
        Some(t) => t,
        None => {
            return Err(Error::InvalidLength);
        },
    };
    if total_length == 0 {
        return Err(Error::InvalidLength);
    }
    if let Some(length) = meta.info.length {
        let mut segs: Vec<Vec<u8>> = Vec::new();
        segs.push(name);
        let mut out: Vec<FileLayout> = Vec::new();
        proof {
            assert(segments_view(segs@) =~= seq![meta.info.name@]);
        }
        out.push(FileLayout { segments: segs, offset: 0, length });
        assert(layouts_view(out@) =~= seq![(seq![meta.info.name@], 0u64, length)]);
        return Ok(out);
    }
    let files = &meta.info.files;
    let tree = &meta.info.file_tree;
    if files.len() == 0 && tree.len() == 0 {
        return Err(Error::InvalidFiles);
    }
    let offsets = match meta.file_offsets() {
        Some(o) => o,
        None => {
            return Err(Error::InvalidLength);
        },
    };
    let use_files = files.len() > 0;
    let n = if use_files {
        files.len()
    } else {
        tree.len()
    };
    assert(offsets@.len() == n);
    let ghost name_seq = meta.info.name@;
    let mut layouts: Vec<FileLayout> = Vec::new();
    let mut i: usize = 0;
    while i < n
        invariant
            i <= n,
            n == layout_file_count(*meta),
            use_files == (meta.info.files@.len() > 0),
            offsets@ == spec_file_offsets(*meta).unwrap(),
            offsets@.len() == n,
            name@ == name_seq,
            name_seq == meta.info.name@,
            layouts@.len() == i,
            forall|x: int| 0 <= x < i ==> path_ok(#[trigger] layout_file_path(*meta, x)),
            forall|x: int|
                0 <= x < i ==> #[trigger] layouts@[x]@ == (
                    seq![name_seq] + segments_view(layout_file_path(*meta, x)),
                    offsets@[x],
                    layout_file_length(*meta, x),
                ),
        decreases n - i,
    {
        let (path, length) = if use_files {
            (&files[i].path, files[i].length)
        } else {
            (&tree[i].path, tree[i].length)
        };
        let segments = match file_segments(name.as_slice(), path) {
            Ok(s) => s,
            Err(e) => {
                assert(!path_ok(layout_file_path(*meta, i as int)));
                return Err(e);
            },
        };
        layouts.push(FileLayout { segments, offset: offsets[i], length });
        i = i + 1;
    }
    let ghost expected = Seq::new(
        n as nat,
        |x: int|
            (
                seq![name_seq] + segments_view(layout_file_path(*meta, x)),
                offsets@[x],
                layout_file_length(*meta, x),
            ),
    );
    assert(layouts_view(layouts@) =~= expected);
    assert forall|x: int| 0 <= x < layouts@.len() implies (#[trigger] layouts@[x]).segments@.len() > 0 by {
        assert(layouts@[x]@.0.len() == segments_view(layouts@[x].segments@).len());
    }
    validate_layout_paths(layouts.as_slice())?;
    Ok(layouts)
}

// ---------------------------------------------------------------------
// Saved renames
// ---------------------------------------------------------------------

/// Why the rename at position `k` cannot be applied to `n` files, if it
/// cannot: an index renamed twice, an index past the files, a reserved name,
/// or a name that is not a valid segment.
pub open spec fn rename_entry_error(n: int, renames: Seq<(usize, String)>, k: int) -> Option<Error> {
    let idx = renames[k].0;
    let name = encode_utf8(renames[k].1@);
    if exists|j: int| 0 <= j < k && (#[trigger] renames[j]).0 == idx {
        Some(Error::InvalidFiles)
    } else if idx >= n {
        Some(Error::OutOfBounds)
    } else if is_reserved_name(name) {
        Some(Error::InvalidName)
    } else if !valid_segment(name) {
        Some(Error::InvalidPathSegment)
    } else {
        None
    }
}

/// The first rename error from position `k` on.
pub open spec fn first_rename_error(n: int, renames: Seq<(usize, String)>, k: int) -> Option<Error>
    decreases renames.len() - k,
{
    if 0 <= k < renames.len() {
        match rename_entry_error(n, renames, k) {
            Some(e) => Some(e),
            None => first_rename_error(n, renames, k + 1),
        }
    } else {
        None
    }
}

/// The layouts after each rename, in order, has replaced the last segment of
/// its file's path.
pub open spec fn apply_renames(ls: Seq<LayoutModel>, renames: Seq<(usize, String)>) -> Seq<LayoutModel>
    decreases renames.len(),
{
    if renames.len() == 0 {
        ls
    } else {
        let prev = apply_renames(ls, renames.drop_last());
        let idx = renames.last().0 as int;
        if idx < prev.len() {
            let l = prev[idx];
            prev.update(idx, (l.0.update(l.0.len() - 1, encode_utf8(renames.last().1@)), l.1, l.2))
        } else {
            prev
        }
    }
}

proof fn lemma_apply_renames_len(ls: Seq<LayoutModel>, renames: Seq<(usize, String)>)
    requires
        forall|i: int| 0 <= i < ls.len() ==> (#[trigger] ls[i]).0.len() > 0,
    ensures
        apply_renames(ls, renames).len() == ls.len(),
        forall|i: int| 0 <= i < ls.len() ==> (#[trigger] apply_renames(ls, renames)[i]).0.len() == ls[i].0.len(),
    decreases renames.len(),
{
    if renames.len() > 0 {
        lemma_apply_renames_len(ls, renames.drop_last());
        let prev = apply_renames(ls, renames.drop_last());
        assert forall|i: int| 0 <= i < ls.len() implies (#[trigger] apply_renames(ls, renames)[i]).0.len()
            == ls[i].0.len() by {
            let idx = renames.last().0 as int;
            assert(prev[i].0.len() == ls[i].0.len());
            if idx < prev.len() && i == idx {
                let l = prev[idx];
                assert(apply_renames(ls, renames)[i] == (
                    l.0.update(l.0.len() - 1, encode_utf8(renames.last().1@)),
                    l.1,
                    l.2,
                ));
            } else {
                assert(apply_renames(ls, renames)[i] == prev[i]);
            }
        }
    }
}

proof fn lemma_first_rename_error_skip(n: int, renames: Seq<(usize, String)>, k: int)
    requires
        0 <= k <= renames.len(),
        forall|j: int| 0 <= j < k ==> rename_entry_error(n, renames, j) is None,
    ensures
        first_rename_error(n, renames, 0) == first_rename_error(n, renames, k),
    decreases k,
{
    if k > 0 {
        lemma_first_rename_error_skip(n, renames, k - 1);
    }
}

/// A copy of `l` whose last path segment is `seg`.
fn with_last_segment(l: &FileLayout, seg: Vec<u8>) -> (r: FileLayout)
    requires
        l.segments@.len() > 0,
    ensures
        r@ == (l@.0.update(l@.0.len() - 1, seg@), l@.1, l@.2),
        r.segments@.len() == l.segments@.len(),
{
    let last = l.segments.len() - 1;
    let mut segs: Vec<Vec<u8>> = Vec::new();
    let mut x: usize = 0;
    while x < last
        invariant
            x <= last,
            last + 1 == l.segments@.len(),
            segs@.len() == x,
            forall|y: int| 0 <= y < x ==> (#[trigger] segs@[y])@ == l.segments@[y]@,
        decreases last - x,
    {
        segs.push(bytes_to_vec(l.segments[x].as_slice()));
        x = x + 1;
    }
    segs.push(seg);
    assert(segments_view(segs@) =~= l@.0.update(l@.0.len() - 1, seg@));
    FileLayout { segments: segs, offset: l.offset, length: l.length }
}

/// Applies saved renames to laid-out files (see `apply_renames`), refusing
/// them as `first_rename_error` says, and then paths that collide.
fn apply_saved_file_renames(layouts: &mut Vec<FileLayout>, file_renames: &[(usize, String)]) -> (r: Result<(), Error>)
    requires
        forall|i: int| 0 <= i < old(layouts)@.len() ==> (#[trigger] old(layouts)@[i]).segments@.len() > 0,
    ensures
        match first_rename_error(old(layouts)@.len() as int, file_renames@, 0) {
            Some(e) => r matches Err(e2) && e2 == e,
            None => {
                let ls = apply_renames(layouts_view(old(layouts)@), file_renames@);
                if paths_distinct(ls) {
                    r is Ok && layouts_view(final(layouts)@) == ls
                } else {
                    r matches Err(Error::InvalidFiles)
                }
            },
        },
{
    let n = layouts.len();
    let ghost initial = layouts_view(layouts@);
    assert forall|i: int| 0 <= i < initial.len() implies (#[trigger] initial[i]).0.len() > 0 by {
        assert(initial[i].0.len() == layouts@[i].segments@.len());
    }
    let mut seen: Vec<bool> = Vec::new();
    while seen.len() < n
        invariant
            seen@.len() <= n,
            forall|i: int| 0 <= i < seen@.len() ==> !(#[trigger] seen@[i]),
        decreases n - seen@.len(),
    {
        seen.push(false);
    }
    let mut k: usize = 0;
    while k < file_renames.len()
        invariant
            k <= file_renames@.len(),
            n == layouts@.len(),
            n == old(layouts)@.len(),
            initial == layouts_view(old(layouts)@),
            seen@.len() == n,
            layouts_view(layouts@) == apply_renames(initial, file_renames@.subrange(0, k as int)),
            initial.len() == n,
            forall|i: int| 0 <= i < initial.len() ==> (#[trigger] initial[i]).0.len() > 0,
            forall|i: int| 0 <= i < n ==> (#[trigger] layouts@[i]).segments@.len() > 0,
            forall|j: int| 0 <= j < k ==> rename_entry_error(n as int, file_renames@, j) is None,
            forall|j: int| 0 <= j < k ==> (#[trigger] file_renames@[j]).0 < n && seen@[file_renames@[j].0 as int],
            forall|i: int| 0 <= i < n && #[trigger] seen@[i] ==> exists|j: int| 0 <= j < k && (#[trigger] file_renames@[j]).0 == i,
            first_rename_error(n as int, file_renames@, 0) == first_rename_error(n as int, file_renames@, k as int),
        decreases file_renames@.len() - k,
    {
        let index = file_renames[k].0;
        let ghost entry = file_renames@[k as int];
        if index < n && seen[index] {
            assert(rename_entry_error(n as int, file_renames@, k as int) == Some(Error::InvalidFiles));
            return Err(Error::InvalidFiles);
        }
        if index >= n {
            assert(!exists|j: int| 0 <= j < k && (#[trigger] file_renames@[j]).0 == index);
            return Err(Error::OutOfBounds);
        }
        assert(!exists|j: int| 0 <= j < k && (#[trigger] file_renames@[j]).0 == index);
        let name = str_bytes(file_renames[k].1.as_str());
        if is_reserved_app_name_bytes(name) {
            return Err(Error::InvalidName);
        }
        let seg = match clean_segment(name) {
            Ok(v) => v,
            Err(e) => {
                return Err(e);
            },
        };
        assert(rename_entry_error(n as int, file_renames@, k as int) is None);
        let ghost before = layouts@;
        let renamed = with_last_segment(&layouts[index], seg);
        layouts.set(index, renamed);
        seen.set(index, true);
        proof {
            let prefix = file_renames@.subrange(0, k + 1);
            assert(prefix.drop_last() =~= file_renames@.subrange(0, k as int));
            assert(prefix.last() == entry);
            lemma_apply_renames_len(initial, file_renames@.subrange(0, k as int));
            assert(layouts_view(layouts@) =~= layouts_view(before).update(
                index as int,
                (
                    layouts_view(before)[index as int].0.update(
                        layouts_view(before)[index as int].0.len() - 1,
                        encode_utf8(entry.1@),
                    ),
                    layouts_view(before)[index as int].1,
                    layouts_view(before)[index as int].2,
                ),
            ));
            assert forall|i: int| 0 <= i < n && #[trigger] seen@[i] implies exists|j: int|
                0 <= j < k + 1 && (#[trigger] file_renames@[j]).0 == i by {
                if i == index {
                    assert(file_renames@[k as int].0 == i);
                } else {
                    let j = choose|j: int| 0 <= j < k && (#[trigger] file_renames@[j]).0 == i;
                    assert(file_renames@[j].0 == i);
                }
            }
            lemma_first_rename_error_skip(n as int, file_renames@, k + 1);
        }
        k = k + 1;
    }
    assert(file_renames@.subrange(0, k as int) =~= file_renames@);
    validate_layout_paths(layouts.as_slice())
}

} // verus!

verus! {

// ---------------------------------------------------------------------
// Paths with renames
// ---------------------------------------------------------------------

/// Some file lies directly below the download directory under a name that
/// is reserved for the application's state.
pub open spec fn has_reserved_root_file(ls: Seq<LayoutModel>) -> bool {
    exists|i: int| 0 <= i < ls.len() && (#[trigger] ls[i]).0.len() == 1 && is_reserved_name(ls[i].0[0])
}

/// The files of a torrent after saved renames, or why they cannot be laid
/// out.
pub open spec fn spec_layouts_with_renames(meta: TorrentMeta, renames: Seq<(usize, String)>) -> Result<
    Seq<LayoutModel>,
    Error,
> {
    match spec_build_layout(meta) {
        Err(e) => Err(e),
        Ok(ls) => match first_rename_error(ls.len() as int, renames, 0) {
            Some(e) => Err(e),
            None => {
                let renamed = apply_renames(ls, renames);
                if !paths_distinct(renamed) {
                    Err(Error::InvalidFiles)
                } else if has_reserved_root_file(renamed) {
                    Err(Error::InvalidName)
                } else {
                    Ok(renamed)
                }
            },
        },
    }
}

proof fn lemma_rename_error_not_io(n: int, renames: Seq<(usize, String)>, k: int)
    ensures
        first_rename_error(n, renames, k) matches Some(e) ==> !(e is Io),
    decreases renames.len() - k,
{
    if 0 <= k < renames.len() {
        lemma_rename_error_not_io(n, renames, k + 1);
    }
}

/// The layout of a torrent never fails with an I/O error.
pub proof fn lemma_layout_errors_not_io(meta: TorrentMeta, renames: Seq<(usize, String)>)
    ensures
        spec_layouts_with_renames(meta, renames) matches Err(e) ==> !(e is Io),
{
    if let Ok(ls) = spec_build_layout(meta) {
        lemma_rename_error_not_io(ls.len() as int, renames, 0);
    }
}

/// For a single-file torrent every accepted rename set leaves one file
/// whose path is one name.
pub proof fn lemma_layouts_nonempty(meta: TorrentMeta, renames: Seq<(usize, String)>)
    requires
        meta.info.length is Some,
        spec_layouts_with_renames(meta, renames) is Ok,
    ensures
        spec_layouts_with_renames(meta, renames)->Ok_0.len() == 1,
        spec_layouts_with_renames(meta, renames)->Ok_0[0].0.len() == 1,
{
    let ls = spec_build_layout(meta)->Ok_0;
    lemma_apply_renames_len(ls, renames);
}

fn validate_no_reserved_state_paths(layouts: &[FileLayout]) -> (r: Result<(), Error>)
    ensures
        !has_reserved_root_file(layouts_view(layouts@)) ==> r is Ok,
        has_reserved_root_file(layouts_view(layouts@)) ==> r matches Err(Error::InvalidName),
{
    let mut i: usize = 0;
    while i < layouts.len()
        invariant
            i <= layouts@.len(),
            forall|x: int|
                0 <= x < i ==> !((#[trigger] layouts_view(layouts@)[x]).0.len() == 1 && is_reserved_name(
                    layouts_view(layouts@)[x].0[0],
                )),
        decreases layouts@.len() - i,
    {
        let l = &layouts[i];
        proof {
            assert(layouts_view(layouts@)[i as int].0 == segments_view(l.segments@));
        }
        if l.segments.len() == 1 && is_reserved_app_name_bytes(l.segments[0].as_slice()) {
            return Err(Error::InvalidName);
        }
        i = i + 1;
    }
    Ok(())
}

/// Lays out the files of a torrent and applies saved renames (see
/// `spec_layouts_with_renames`).
pub fn layouts_with_renames(meta: &TorrentMeta, file_renames: &[(usize, String)]) -> (r: Result<
    Vec<FileLayout>,
    Error,
>)
    ensures
        match spec_layouts_with_renames(*meta, file_renames@) {
            Ok(ls) => r matches Ok(v) && layouts_view(v@) == ls,
            Err(e) => r matches Err(e2) && e2 == e,
        },
{
    let mut layouts = build_layout(meta)?;
    proof {
        assert(layouts_view(layouts@).len() == layouts@.len());
    }
    apply_saved_file_renames(&mut layouts, file_renames)?;
    validate_no_reserved_state_paths(layouts.as_slice())?;
    Ok(layouts)
}

/// The name of the torrent's root entry below the download directory.
pub fn root_path(meta: &TorrentMeta) -> (r: Result<Vec<u8>, Error>)
    ensures
        !is_reserved_name(meta.info.name@) && valid_segment(meta.info.name@) ==> (r matches Ok(v) && v@
            == meta.info.name@),
        is_reserved_name(meta.info.name@) || !valid_segment(meta.info.name@) ==> r matches Err(
            Error::InvalidName,
        ),
{
    clean_name(meta.info.name.as_slice())
}

fn layout_paths(layouts: &Vec<FileLayout>) -> (r: Vec<Vec<Vec<u8>>>)
    ensures
        r@.len() == layouts@.len(),
        forall|i: int| 0 <= i < r@.len() ==> segments_view((#[trigger] r@[i])@) == layouts@[i]@.0,
{
    let mut out: Vec<Vec<Vec<u8>>> = Vec::new();
    let mut i: usize = 0;
    while i < layouts.len()
        invariant
            i <= layouts@.len(),
            out@.len() == i,
            forall|x: int| 0 <= x < i ==> segments_view((#[trigger] out@[x])@) == layouts@[x]@.0,
        decreases layouts@.len() - i,
    {
        let segs = &layouts[i].segments;
        let mut copy: Vec<Vec<u8>> = Vec::new();
        let mut k: usize = 0;
        while k < segs.len()
            invariant
                k <= segs@.len(),
                copy@.len() == k,
                forall|y: int| 0 <= y < k ==> (#[trigger] copy@[y])@ == segs@[y]@,
            decreases segs@.len() - k,
        {
            copy.push(bytes_to_vec(segs[k].as_slice()));
            k = k + 1;
        }
        assert(segments_view(copy@) =~= layouts@[i as int]@.0);
        out.push(copy);
        i = i + 1;
    }
    out
}

/// The paths of a torrent's files below the download directory, as
/// segments, after saved renames; nothing is opened or created.
pub fn data_paths_with_file_renames(meta: &TorrentMeta, file_renames: &[(usize, String)]) -> (r: Result<
    Vec<Vec<Vec<u8>>>,
    Error,
>)
    ensures
        match spec_layouts_with_renames(*meta, file_renames@) {
            Ok(ls) => r matches Ok(v) && v@.len() == ls.len() && forall|i: int|
                0 <= i < ls.len() ==> segments_view((#[trigger] v@[i])@) == ls[i].0,
            Err(e) => r matches Err(e2) && e2 == e,
        },
{
    let layouts = layouts_with_renames(meta, file_renames)?;
    Ok(layout_paths(&layouts))
}

/// The paths of a torrent's files below the download directory, as
/// segments; nothing is opened or created.
pub fn data_paths(meta: &TorrentMeta) -> (r: Result<Vec<Vec<Vec<u8>>>, Error>)
    ensures
        match spec_build_layout(*meta) {
            Ok(ls) => r matches Ok(v) && v@.len() == ls.len() && forall|i: int|
                0 <= i < ls.len() ==> segments_view((#[trigger] v@[i])@) == ls[i].0,
            Err(e) => r matches Err(e2) && e2 == e,
        },
{
    let none: Vec<(usize, String)> = Vec::new();
    proof {
        assert(none@ =~= Seq::<(usize, String)>::empty());
        if let Ok(ls) = spec_build_layout(*meta) {
            assert(apply_renames(ls, none@) == ls);
            assert(first_rename_error(ls.len() as int, none@, 0) is None);
            assert(!has_reserved_root_file(ls)) by {
                if has_reserved_root_file(ls) {
                    let i = choose|i: int| 0 <= i < ls.len() && (#[trigger] ls[i]).0.len() == 1 && is_reserved_name(ls[i].0[0]);
                    assert(ls[i].0[0] == meta.info.name@);
                }
            }
        }
    }
    data_paths_with_file_renames(meta, none.as_slice())
}

} // verus!

verus! {

// ---------------------------------------------------------------------
// Reads and writes across files
// ---------------------------------------------------------------------

/// The end of the content the files cover: the largest end of a file, or
/// nothing when some file's end does not fit in a `u64`.
pub open spec fn layouts_end(ls: Seq<LayoutModel>) -> Option<u64>
    decreases ls.len(),
{
    if ls.len() == 0 {
        Some(0u64)
    } else {
        match layouts_end(ls.drop_last()) {
            None => None,
            Some(prev) => {
                let end = ls.last().1 + ls.last().2;
                if end > u64::MAX {
                    None
                } else if end > prev {
                    Some(end as u64)
                } else {
                    Some(prev)
                }
            },
        }
    }
}

/// The total length of the content laid out in `layouts` (see `layouts_end`).
pub fn layouts_total_length(layouts: &[FileLayout]) -> (r: Option<u64>)
    ensures
        r == layouts_end(layouts_view(layouts@)),
{
    let mut end: u64 = 0;
    let mut i: usize = 0;
    while i < layouts.len()
        invariant
            i <= layouts@.len(),
            layouts_end(layouts_view(layouts@).subrange(0, i as int)) == Some(end),
        decreases layouts@.len() - i,
    {
        let l = &layouts[i];
        proof {
            assert(layouts_view(layouts@).subrange(0, i + 1).drop_last() =~= layouts_view(layouts@).subrange(
                0,
                i as int,
            ));
        }
        match l.offset.checked_add(l.length) {
            None => {
                proof {
                    lemma_layouts_end_none_extends(layouts_view(layouts@), i as int + 1);
                }
                return None;
            },
            Some(e) => {
                if e > end {
                    end = e;
                }
            },
        }
        i = i + 1;
    }
    assert(layouts_view(layouts@).subrange(0, i as int) =~= layouts_view(layouts@));
    Some(end)
}

proof fn lemma_layouts_end_none_extends(ls: Seq<LayoutModel>, k: int)
    requires
        0 <= k <= ls.len(),
        layouts_end(ls.subrange(0, k)) is None,
    ensures
        layouts_end(ls) is None,
    decreases ls.len() - k,
{
    if k < ls.len() {
        assert(ls.subrange(0, k + 1).drop_last() =~= ls.subrange(0, k));
        lemma_layouts_end_none_extends(ls, k + 1);
    } else {
        assert(ls.subrange(0, k) =~= ls);
    }
}

/// The part of a read or write that falls in one file: the file's index,
/// where in the file it starts, where in the buffer it starts, and its
/// length.
#[derive(Debug, Clone, Copy)]
pub struct IoChunk {
    pub file_index: usize,
    pub file_offset: u64,
    pub buf_start: usize,
    pub len: usize,
}

impl View for IoChunk {
    type V = (int, int, int, int);

    open spec fn view(&self) -> (int, int, int, int) {
        (self.file_index as int, self.file_offset as int, self.buf_start as int, self.len as int)
    }
}

pub open spec fn chunks_view(v: Seq<IoChunk>) -> Seq<(int, int, int, int)> {
    v.map_values(|c: IoChunk| c@)
}

/// The chunks a transfer of `remaining` bytes at content position `cursor`
/// and buffer position `pos` takes, visiting files from `k` on in order,
/// and whether the files covered it all. A file that starts past the
/// cursor ends the transfer unfinished.
pub open spec fn plan_chunks(ls: Seq<LayoutModel>, k: int, cursor: int, remaining: int, pos: int) -> (Seq<
    (int, int, int, int),
>, bool)
    decreases ls.len() - k,
{
    if remaining <= 0 {
        (Seq::empty(), true)
    } else if k < 0 || k >= ls.len() {
        (Seq::empty(), false)
    } else {
        let start = ls[k].1 as int;
        let end = start + ls[k].2;
        if cursor < start {
            (Seq::empty(), false)
        } else if cursor >= end {
            plan_chunks(ls, k + 1, cursor, remaining, pos)
        } else {
            let c = if remaining < end - cursor {
                remaining
            } else {
                end - cursor
            };
            let rest = plan_chunks(ls, k + 1, cursor + c, remaining - c, pos + c);
            (seq![(k, cursor - start, pos, c)] + rest.0, rest.1)
        }
    }
}

/// The chunks of a transfer tile its buffer in order: the first starts at
/// the buffer position `pos`, each next one where the one before ends, and
/// every chunk lies as far into the buffer as its content position lies
/// past the transfer's start `cursor`; every chunk is non-empty, and a
/// complete transfer's chunks end exactly `remaining` bytes into the
/// buffer.
pub proof fn lemma_plan_chunks_tile_buffer(ls: Seq<LayoutModel>, k: int, cursor: int, remaining: int, pos: int)
    ensures
        ({
            let (cs, complete) = plan_chunks(ls, k, cursor, remaining, pos);
            &&& cs.len() > 0 ==> cs[0].2 == pos
            &&& forall|j: int| 0 <= j < cs.len() - 1 ==> #[trigger] cs[j + 1].2 == cs[j].2 + cs[j].3
            &&& forall|j: int|
                0 <= j < cs.len() ==> 0 <= (#[trigger] cs[j]).0 < ls.len() && cs[j].3 > 0 && cs[j].2 - pos
                    == ls[cs[j].0].1 + cs[j].1 - cursor
            &&& (complete && remaining > 0) ==> cs.len() > 0 && cs.last().2 + cs.last().3 == pos + remaining
        }),
    decreases ls.len() - k,
{
    if remaining <= 0 || k < 0 || k >= ls.len() {
    } else {
        let start = ls[k].1 as int;
        let end = start + ls[k].2;
        if cursor < start {
        } else if cursor >= end {
            lemma_plan_chunks_tile_buffer(ls, k + 1, cursor, remaining, pos);
        } else {
            let c = if remaining < end - cursor {
                remaining
            } else {
                end - cursor
            };
            lemma_plan_chunks_tile_buffer(ls, k + 1, cursor + c, remaining - c, pos + c);
            let rest = plan_chunks(ls, k + 1, cursor + c, remaining - c, pos + c);
            let cs = plan_chunks(ls, k, cursor, remaining, pos).0;
            assert(cs == seq![(k, cursor - start, pos, c)] + rest.0);
            assert forall|j: int| 0 <= j < cs.len() - 1 implies #[trigger] cs[j + 1].2 == cs[j].2 + cs[j].3 by {
                if j > 0 {
                    assert(cs[j] == rest.0[j - 1]);
                    assert(cs[j + 1] == rest.0[j]);
                    assert(rest.0[(j - 1) + 1].2 == rest.0[j - 1].2 + rest.0[j - 1].3);
                } else {
                    assert(cs[1] == rest.0[0]);
                }
            }
            assert forall|j: int| 0 <= j < cs.len() implies 0 <= (#[trigger] cs[j]).0 < ls.len() && cs[j].3 > 0
                && cs[j].2 - pos == ls[cs[j].0].1 + cs[j].1 - cursor by {
                if j > 0 {
                    assert(cs[j] == rest.0[j - 1]);
                }
            }
            if remaining - c > 0 && rest.1 {
                assert(cs.last() == rest.0.last());
            }
        }
    }
}

/// How a read or write of `len` bytes at `offset` is carried out across the
/// files: the chunks, in order, and whether they cover the whole transfer.
/// A transfer that ends past `total_length` is refused before any chunk.
pub fn plan_io(layouts: &[FileLayout], total_length: u64, offset: u64, len: usize) -> (r: Result<
    (Vec<IoChunk>, bool),
    Error,
>)
    requires
        forall|i: int| 0 <= i < layouts@.len() ==> (#[trigger] layouts@[i]).offset + layouts@[i].length <= u64::MAX,
    ensures
        offset + len > total_length ==> r matches Err(Error::OutOfBounds),
        offset + len <= total_length ==> (r matches Ok(p) && (chunks_view(p.0@), p.1) == plan_chunks(
            layouts_view(layouts@),
            0,
            offset as int,
            len as int,
            0,
        )),
{
    let end = match offset.checked_add(len as u64) {
        Some(e) => e,
        None => {
            return Err(Error::OutOfBounds);
        },
    };
    if end > total_length {
        return Err(Error::OutOfBounds);
    }
    let ghost ls = layouts_view(layouts@);
    let mut chunks: Vec<IoChunk> = Vec::new();
    let mut cursor: u64 = offset;
    let mut remaining: usize = len;
    let mut pos: usize = 0;
    let mut k: usize = 0;
    while k < layouts.len()
        invariant
            k <= layouts@.len(),
            ls == layouts_view(layouts@),
            forall|i: int| 0 <= i < layouts@.len() ==> (#[trigger] layouts@[i]).offset + layouts@[i].length <= u64::MAX,
            pos + remaining == len,
            cursor + remaining == end,
            end == offset + len,
            end <= total_length,
            plan_chunks(ls, 0, offset as int, len as int, 0) == (
                chunks_view(chunks@) + plan_chunks(ls, k as int, cursor as int, remaining as int, pos as int).0,
                plan_chunks(ls, k as int, cursor as int, remaining as int, pos as int).1,
            ),
        ensures
            k <= layouts@.len(),
            remaining == 0 || k == layouts@.len(),
            plan_chunks(ls, 0, offset as int, len as int, 0) == (
                chunks_view(chunks@) + plan_chunks(ls, k as int, cursor as int, remaining as int, pos as int).0,
                plan_chunks(ls, k as int, cursor as int, remaining as int, pos as int).1,
            ),
        decreases layouts@.len() - k,
    {
        if remaining == 0 {
            break;
        }
        let l = &layouts[k];
        let entry_end = l.offset + l.length;
        if cursor < l.offset {
            proof {
                assert(chunks_view(chunks@) + Seq::<(int, int, int, int)>::empty() =~= chunks_view(chunks@));
            }
            return Ok((chunks, false));
        }
        if cursor < entry_end {
            let room = entry_end - cursor;
            let c: usize = if (remaining as u64) < room {
                remaining
            } else {
                room as usize
            };
            let chunk = IoChunk { file_index: k, file_offset: cursor - l.offset, buf_start: pos, len: c };
            let ghost before = chunks@;
            chunks.push(chunk);
            proof {
                assert(chunks_view(chunks@) =~= chunks_view(before).push(chunk@));
                let rest = plan_chunks(ls, k + 1, cursor + c, remaining - c, pos + c);
                assert(chunks_view(chunks@) + rest.0 =~= chunks_view(before) + (seq![chunk@] + rest.0));
            }
            cursor = cursor + c as u64;
            remaining = remaining - c;
            pos = pos + c;
        }
        k = k + 1;
    }
    proof {
        assert(chunks_view(chunks@) + Seq::<(int, int, int, int)>::empty() =~= chunks_view(chunks@));
    }
    Ok((chunks, remaining == 0))
}

/// What a write of `len` bytes does with a write cache of `limit` bytes
/// (0: no cache): nothing for an empty write, a direct write without a
/// cache or for a write as large as the cache (after flushing it), else
/// queueing it.
#[derive(Debug, Clone, Copy, PartialEq, Eq)]
pub enum WriteStep {
    Nothing,
    Direct,
    FlushThenDirect,
    Queue,
}

/// The step a write takes (see `WriteStep`); a write that ends past
/// `total_length` is refused.
pub fn write_step(total_length: u64, limit: usize, offset: u64, len: usize) -> (r: Result<WriteStep, Error>)
    ensures
        offset + len > total_length ==> r matches Err(Error::OutOfBounds),
        offset + len <= total_length ==> r == Ok::<WriteStep, Error>(
            if len == 0 {
                WriteStep::Nothing
            } else if limit == 0 {
                WriteStep::Direct
            } else if len >= limit {
                WriteStep::FlushThenDirect
            } else {
                WriteStep::Queue
            },
        ),
{
    let end = match offset.checked_add(len as u64) {
        Some(e) => e,
        None => {
            return Err(Error::OutOfBounds);
        },
    };
    if end > total_length {
        return Err(Error::OutOfBounds);
    }
    if len == 0 {
        Ok(WriteStep::Nothing)
    } else if limit == 0 {
        Ok(WriteStep::Direct)
    } else if len >= limit {
        Ok(WriteStep::FlushThenDirect)
    } else {
        Ok(WriteStep::Queue)
    }
}

/// The cached bytes after queueing `len` more, saturating, and whether the
/// cache must then be flushed.
pub fn queue_bytes(cached: usize, len: usize, limit: usize) -> (r: (usize, bool))
    ensures
        r.0 == (if cached + len > usize::MAX {
            usize::MAX as int
        } else {
            cached + len
        }),
        r.1 == (r.0 >= limit),
{
    let total = cached.saturating_add(len);
    (total, total >= limit)
}

/// `[a, a + alen)` and `[b, b + blen)` overlap, their ends saturating at
/// `u64::MAX`.
pub open spec fn ranges_overlap(a: u64, alen: int, b: u64, blen: int) -> bool {
    let a_end = if a + alen > u64::MAX {
        u64::MAX as int
    } else {
        a + alen
    };
    let b_end = if b + blen > u64::MAX {
        u64::MAX as int
    } else {
        b + blen
    };
    a < b_end && a_end > b
}

/// Whether a read of `len` bytes at `offset` overlaps a queued write, each
/// queued write given as its offset and length.
pub fn read_overlaps_cache(cache: &[(u64, usize)], offset: u64, len: usize) -> (r: bool)
    ensures
        r == exists|i: int| 0 <= i < cache@.len() && ranges_overlap(
            (#[trigger] cache@[i]).0,
            cache@[i].1 as int,
            offset,
            len as int,
        ),
{
    let read_end = offset.saturating_add(len as u64);
    let mut i: usize = 0;
    while i < cache.len()
        invariant
            i <= cache@.len(),
            read_end == (if offset + len > u64::MAX {
                u64::MAX as int
            } else {
                offset + len
            }),
            forall|x: int| 0 <= x < i ==> !ranges_overlap((#[trigger] cache@[x]).0, cache@[x].1 as int, offset, len as int),
        decreases cache@.len() - i,
    {
        let (o, l) = cache[i];
        let entry_end = o.saturating_add(l as u64);
        if o < read_end && entry_end > offset {
            return true;
        }
        i = i + 1;
    }
    false
}

/// The indices of the files a write of `len` bytes at `offset` touches, in
/// order: those it overlaps.
pub fn files_touched(layouts: &[FileLayout], offset: u64, len: usize) -> (r: Vec<usize>)
    requires
        forall|i: int| 0 <= i < layouts@.len() ==> (#[trigger] layouts@[i]).offset + layouts@[i].length <= u64::MAX,
    ensures
        forall|x: int| 0 <= x < r@.len() ==> (#[trigger] r@[x]) < layouts@.len(),
        forall|i: int|
            0 <= i < layouts@.len() ==> (r@.contains(i as usize) <==> ranges_overlap(
                offset,
                len as int,
                layouts@[i].offset,
                layouts@[i].length as int,
            )),
{
    let write_end = offset.saturating_add(len as u64);
    let mut out: Vec<usize> = Vec::new();
    let mut i: usize = 0;
    while i < layouts.len()
        invariant
            i <= layouts@.len(),
            forall|x: int| 0 <= x < layouts@.len() ==> (#[trigger] layouts@[x]).offset + layouts@[x].length <= u64::MAX,
            write_end == (if offset + len > u64::MAX {
                u64::MAX as int
            } else {
                offset + len
            }),
            forall|x: int| 0 <= x < out@.len() ==> (#[trigger] out@[x]) < i,
            forall|x: int|
                0 <= x < i ==> (out@.contains(x as usize) <==> ranges_overlap(
                    offset,
                    len as int,
                    (#[trigger] layouts@[x]).offset,
                    layouts@[x].length as int,
                )),
        decreases layouts@.len() - i,
    {
        let l = &layouts[i];
        let file_end = l.offset + l.length;
        let ghost before = out@;
        if offset < file_end && write_end > l.offset {
            out.push(i);
        }
        proof {
            assert forall|x: int|
                0 <= x < i + 1 implies (out@.contains(x as usize) <==> ranges_overlap(
                offset,
                len as int,
                (#[trigger] layouts@[x]).offset,
                layouts@[x].length as int,
            )) by {
                if x < i {
                    if out@.contains(x as usize) {
                        let y = choose|y: int| 0 <= y < out@.len() && out@[y] == x as usize;
                        if y == before.len() {
                            assert(out@[y] == i);
                        } else {
                            assert(before[y] == x as usize);
                        }
                    }
                    if before.contains(x as usize) {
                        let y = choose|y: int| 0 <= y < before.len() && before[y] == x as usize;
                        assert(out@[y] == x as usize);
                    }
                } else {
                    if out@.contains(x as usize) {
                        let y = choose|y: int| 0 <= y < out@.len() && out@[y] == x as usize;
                        if y < before.len() {
                            assert(before[y] < i);
                        }
                    }
                    if out@.len() > before.len() {
                        assert(out@[before.len() as int] == i);
                    }
                }
            }
        }
        i = i + 1;
    }
    out
}

} // verus!
