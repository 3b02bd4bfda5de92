use vstd::prelude::*;

verus! {

/// Largest piece length a torrent may declare.
pub const MAX_PIECE_LENGTH: u64 = 67108864;

/// One file of a v1 multi-file torrent.
#[derive(Debug, Clone)]
pub struct FileInfo {
    pub length: u64,
    pub path: Vec<Vec<u8>>,
    pub attr: Vec<u8>,
}

/// One file of a v2 file tree, with the root of its piece layer.
#[derive(Debug, Clone)]
pub struct FileTreeEntry {
    pub path: Vec<Vec<u8>>,
    pub length: u64,
    pub pieces_root: Option<[u8; 32]>,
}

/// The info dictionary of a torrent.
#[derive(Debug, Clone)]
pub struct InfoDict {
    pub name: Vec<u8>,
    pub piece_length: u64,
    pub pieces: Vec<[u8; 20]>,
    pub length: Option<u64>,
    pub files: Vec<FileInfo>,
    pub private: bool,
    pub file_tree: Vec<FileTreeEntry>,
}

/// A decoded metainfo file. `meta_version` is 1 for v1, 2 for v2 and 3 for
/// hybrid torrents.
#[derive(Debug, Clone)]
pub struct TorrentMeta {
    pub announce: Option<String>,
    pub announce_list: Vec<Vec<String>>,
    pub url_list: Vec<String>,
    pub httpseeds: Vec<String>,
    pub info_hash: [u8; 20],
    pub info_hash_v2: Option<[u8; 32]>,
    pub piece_layers: Vec<([u8; 32], Vec<[u8; 32]>)>,
    pub meta_version: u8,
    pub info: InfoDict,
}

/// The sum of the lengths of v1 files.
pub open spec fn files_total(files: Seq<FileInfo>) -> nat
    decreases files.len(),
{
    if files.len() == 0 {
        0
    } else {
        files_total(files.drop_last()) + files.last().length as nat
    }
}

/// The sum of the lengths of v2 files.
pub open spec fn tree_total(tree: Seq<FileTreeEntry>) -> nat
    decreases tree.len(),
{
    if tree.len() == 0 {
        0
    } else {
        tree_total(tree.drop_last()) + tree.last().length as nat
    }
}

/// `len` rounded up to a multiple of `piece_length`.
pub open spec fn aligned_len(len: int, piece_length: int) -> int {
    ((len + piece_length - 1) / piece_length) * piece_length
}

/// The space v2 files take when each starts on a piece boundary.
pub open spec fn tree_aligned_total(tree: Seq<FileTreeEntry>, piece_length: int) -> int
    decreases tree.len(),
{
    if tree.len() == 0 {
        0
    } else {
        tree_aligned_total(tree.drop_last(), piece_length) + aligned_len(
            tree.last().length as int,
            piece_length,
        )
    }
}

/// The content length an info dictionary declares: the single-file length,
/// else the sum of the v1 file list, else the sum of the v2 file tree.
pub open spec fn spec_total_length(info: InfoDict) -> nat {
    match info.length {
        Some(l) => l as nat,
        None => if info.files@.len() > 0 {
            files_total(info.files@)
        } else {
            tree_total(info.file_tree@)
        },
    }
}

/// Where each file of the torrent starts in the content: v1 files follow
/// one another, v2 files start on piece boundaries.
pub open spec fn spec_file_offsets(meta: TorrentMeta) -> Option<Seq<u64>> {
    if meta.info.files@.len() > 0 {
        if files_total(meta.info.files@) > u64::MAX {
            None
        } else {
            Some(Seq::new(meta.info.files@.len(), |i: int| files_total(meta.info.files@.take(i)) as u64))
        }
    } else if meta.info.file_tree@.len() > 0 {
        if meta.info.piece_length == 0 || tree_aligned_total(
            meta.info.file_tree@,
            meta.info.piece_length as int,
        ) > u64::MAX {
            None
        } else {
            Some(
                Seq::new(
                    meta.info.file_tree@.len(),
                    |i: int|
                        tree_aligned_total(
                            meta.info.file_tree@.take(i),
                            meta.info.piece_length as int,
                        ) as u64,
                ),
            )
        }
    } else if meta.info.length is Some {
        Some(seq![0u64])
    } else {
        Some(Seq::empty())
    }
}

proof fn lemma_aligned_len_bounds(len: int, piece_length: int)
    requires
        len >= 0,
        piece_length > 0,
    ensures
        aligned_len(len, piece_length) >= len,
        aligned_len(len, piece_length) < len + piece_length,
        aligned_len(len, piece_length) % piece_length == 0,
{
    let q = (len + piece_length - 1) / piece_length;
    assert(q * piece_length >= len && q * piece_length < len + piece_length && (q
        * piece_length) % piece_length == 0) by (nonlinear_arith)
        requires
            len >= 0,
            piece_length > 0,
            q == (len + piece_length - 1) / piece_length,
    ;
}

/// `len` rounded up to a multiple of `piece_length`, if that fits.
fn checked_aligned_len(len: u64, piece_length: u64) -> (r: Option<u64>)
    requires
        piece_length > 0,
    ensures
        aligned_len(len as int, piece_length as int) <= u64::MAX ==> r == Some(
            aligned_len(len as int, piece_length as int) as u64,
        ),
        aligned_len(len as int, piece_length as int) > u64::MAX ==> r is None,
{
    proof {
        lemma_aligned_len_bounds(len as int, piece_length as int);
    }
    let q = len / piece_length;
    let rem = len % piece_length;
    assert(rem != 0 ==> q < u64::MAX) by (nonlinear_arith)
        requires
            piece_length > 0,
            q == len / piece_length,
            rem == len % piece_length,
            len <= u64::MAX,
    ;
    let pieces = if rem == 0 {
        q
    } else {
        q + 1
    };
    assert(pieces as int == (len as int + piece_length as int - 1) / (piece_length as int)) by (nonlinear_arith)
        requires
            piece_length > 0,
            q == len / piece_length,
            rem == len % piece_length,
            rem == 0 ==> pieces == q,
            rem != 0 ==> pieces == q + 1,
    ;
    pieces.checked_mul(piece_length)
}

impl InfoDict {
    /// The declared content length, or `None` when the file lengths do not
    /// sum within `u64`.
    #[verifier::loop_isolation(false)]
    pub fn checked_total_length(&self) -> (r: Option<u64>)
        ensures
            spec_total_length(*self) <= u64::MAX ==> r == Some(spec_total_length(*self) as u64),
            spec_total_length(*self) > u64::MAX ==> r is None,
    {
        if let Some(length) = self.length {
            return Some(length);
        }
        if self.files.len() > 0 {
            let mut total: u64 = 0;
            let mut i: usize = 0;
            while i < self.files.len()
                invariant
                    i <= self.files@.len(),
                    total == files_total(self.files@.take(i as int)),
                decreases self.files@.len() - i,
            {
                assert(self.files@.take(i + 1).drop_last() =~= self.files@.take(i as int));
                match total.checked_add(self.files[i].length) {
                    Some(t) => {
                        total = t;
                    },
                    None => {
                        proof {
                            lemma_files_total_monotone(self.files@, i + 1);
                            assert(files_total(self.files@.take(i + 1)) == total
                                + self.files@[i as int].length);
                        }
                        return None;
                    },
                }
                i = i + 1;
            }
            assert(self.files@.take(i as int) =~= self.files@);
            Some(total)
        } else {
            let mut total: u64 = 0;
            let mut i: usize = 0;
            while i < self.file_tree.len()
                invariant
                    i <= self.file_tree@.len(),
                    total == tree_total(self.file_tree@.take(i as int)),
                decreases self.file_tree@.len() - i,
            {
                assert(self.file_tree@.take(i + 1).drop_last() =~= self.file_tree@.take(i as int));
                match total.checked_add(self.file_tree[i].length) {
                    Some(t) => {
                        total = t;
                    },
                    None => {
                        proof {
                            lemma_tree_total_monotone(self.file_tree@, i + 1);
                            assert(tree_total(self.file_tree@.take(i + 1)) == total
                                + self.file_tree@[i as int].length);
                        }
                        return None;
                    },
                }
                i = i + 1;
            }
            assert(self.file_tree@.take(i as int) =~= self.file_tree@);
            Some(total)
        }
    }
}

proof fn lemma_files_total_monotone(files: Seq<FileInfo>, k: int)
    requires
        0 <= k <= files.len(),
    ensures
        files_total(files.take(k)) <= files_total(files),
    decreases files.len() - k,
{
    if k < files.len() {
        lemma_files_total_monotone(files, k + 1);
        assert(files.take(k + 1).drop_last() =~= files.take(k));
    } else {
        assert(files.take(k) =~= files);
    }
}

proof fn lemma_tree_total_monotone(tree: Seq<FileTreeEntry>, k: int)
    requires
        0 <= k <= tree.len(),
    ensures
        tree_total(tree.take(k)) <= tree_total(tree),
    decreases tree.len() - k,
{
    if k < tree.len() {
        lemma_tree_total_monotone(tree, k + 1);
        assert(tree.take(k + 1).drop_last() =~= tree.take(k));
    } else {
        assert(tree.take(k) =~= tree);
    }
}

proof fn lemma_tree_aligned_monotone(tree: Seq<FileTreeEntry>, piece_length: int, k: int)
    requires
        0 <= k <= tree.len(),
        piece_length > 0,
    ensures
        tree_aligned_total(tree.take(k), piece_length) <= tree_aligned_total(tree, piece_length),
    decreases tree.len() - k,
{
    if k < tree.len() {
        lemma_tree_aligned_monotone(tree, piece_length, k + 1);
        assert(tree.take(k + 1).drop_last() =~= tree.take(k));
        lemma_aligned_len_bounds(tree[k].length as int, piece_length);
    } else {
        assert(tree.take(k) =~= tree);
    }
}

impl TorrentMeta {
    /// Where each file starts in the torrent's content, or `None` when an
    /// offset does not fit in `u64` (or a v2 tree has no piece length).
    #[verifier::loop_isolation(false)]
    pub fn file_offsets(&self) -> (r: Option<Vec<u64>>)
        ensures
            match spec_file_offsets(*self) {
                Some(s) => r matches Some(v) && v@ == s,
                None => r is None,
            },
    {
        let files = &self.info.files;
        let tree = &self.info.file_tree;
        let mut offsets: Vec<u64> = Vec::new();
        if files.len() > 0 {
            let mut total: u64 = 0;
            let mut i: usize = 0;
            while i < files.len()
                invariant
                    files == &self.info.files,
                    i <= files@.len(),
                    total == files_total(files@.take(i as int)),
                    offsets@.len() == i,
                    forall|j: int|
                        0 <= j < i ==> #[trigger] offsets@[j] == files_total(files@.take(j)) as u64,
                decreases files@.len() - i,
            {
                assert(files@.take(i + 1).drop_last() =~= files@.take(i as int));
                offsets.push(total);
                match total.checked_add(files[i].length) {
                    Some(t) => {
                        total = t;
                    },
                    None => {
                        proof {
                            lemma_files_total_monotone(files@, i + 1);
                            assert(files_total(files@.take(i + 1)) == total + files@[i as int].length);
                        }
                        return None;
                    },
                }
                i = i + 1;
            }
            assert(files@.take(i as int) =~= files@);
            assert(offsets@ =~= spec_file_offsets(*self).unwrap());
            Some(offsets)
        } else if tree.len() > 0 {
            let piece_length = self.info.piece_length;
            if piece_length == 0 {
                return None;
            }
            let mut total: u64 = 0;
            let mut i: usize = 0;
            while i < tree.len()
                invariant
                    tree == &self.info.file_tree,
                    piece_length == self.info.piece_length,
                    piece_length > 0,
                    i <= tree@.len(),
                    total == tree_aligned_total(tree@.take(i as int), piece_length as int),
                    offsets@.len() == i,
                    forall|j: int|
                        0 <= j < i ==> #[trigger] offsets@[j] == tree_aligned_total(
                            tree@.take(j),
                            piece_length as int,
                        ) as u64,
                decreases tree@.len() - i,
            {
                assert(tree@.take(i + 1).drop_last() =~= tree@.take(i as int));
                offsets.push(total);
                proof {
                    lemma_tree_aligned_monotone(tree@, piece_length as int, i + 1);
                    lemma_aligned_len_bounds(tree@[i as int].length as int, piece_length as int);
                    assert(tree_aligned_total(tree@.take(i + 1), piece_length as int) == total
                        + aligned_len(tree@[i as int].length as int, piece_length as int));
                }
                let step = match checked_aligned_len(tree[i].length, piece_length) {
                    Some(s) => s,
                    None => {
                        return None;
                    },
                };
                match total.checked_add(step) {
                    Some(t) => {
                        total = t;
                    },
                    None => {
                        return None;
                    },
                }
                i = i + 1;
            }
            assert(tree@.take(i as int) =~= tree@);
            assert(offsets@ =~= spec_file_offsets(*self).unwrap());
            Some(offsets)
        } else if self.info.length.is_some() {
            offsets.push(0);
            assert(offsets@ =~= seq![0u64]);
            Some(offsets)
        } else {
            assert(offsets@ =~= Seq::<u64>::empty());
            Some(offsets)
        }
    }
}

} // verus!
