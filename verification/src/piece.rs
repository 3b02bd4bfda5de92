use std::time::{Duration, Instant};
use vstd::prelude::*;

pub use crate::budget::{PieceBufferBudget, PieceBufferBudgets, PieceBufferReservation};
use crate::peer::{is_pow2, is_power_of_two};
use crate::sha1::{sha1, sha1_digest};
use crate::sha256::{merkle_piece_root, spec_merkle_piece_root};
use crate::torrent::{
    aligned_len, spec_total_length, FileTreeEntry, TorrentMeta, MAX_PIECE_LENGTH,
};

verus! {

/// Size of a requested block.
pub const BLOCK_LEN: u32 = 16384;

/// Priority of a piece that is not downloaded.
pub const PRIORITY_SKIP: u8 = 0;

pub const PRIORITY_LOW: u8 = 1;

pub const PRIORITY_NORMAL: u8 = 2;

pub const PRIORITY_HIGH: u8 = 3;

#[verifier::external_type_specification]
#[verifier::external_body]
pub struct ExInstant(Instant);

/// How a piece is verified: by its v1 SHA-1, by the root of its v2 merkle
/// tree, or (in a hybrid torrent) by both.
#[derive(Debug, Clone, Copy)]
pub enum PieceHash {
    Sha1([u8; 20]),
    Sha256 { root: [u8; 32], merkle_length: u32, data_length: u32 },
    Hybrid { sha1: [u8; 20], sha256: [u8; 32], merkle_length: u32, v2_data_length: u32 },
}

/// The download state of one block of a piece.
#[derive(Debug, Clone, Copy, PartialEq, Eq, Structural)]
pub enum BlockState {
    Missing,
    Requested,
    Complete,
}

/// One piece of a torrent and the state of its blocks.
#[derive(Debug, Clone)]
pub struct Piece {
    pub index: u32,
    pub hash: PieceHash,
    pub offset: u64,
    pub length: u32,
    blocks: Vec<BlockState>,
    priority: u8,
    wanted: bool,
    verified: bool,
}

/// Tracks which pieces and blocks are wanted, requested, received and
/// verified, how many peers have each piece, and which peer has reserved it.
#[derive(Debug)]
pub struct PieceManager {
    pieces: Vec<Piece>,
    availability: Vec<u32>,
    reserved_by: Vec<Option<u64>>,
    reservation_time: Vec<Option<Instant>>,
    sequential: bool,
}

/// A block to request from a peer.
#[derive(Debug, Clone, Copy)]
pub struct BlockRequest {
    pub index: u32,
    pub begin: u32,
    pub length: u32,
}

/// Why a piece operation was refused.
#[derive(Debug, Clone, Copy, PartialEq, Eq, Structural)]
pub enum Error {
    InvalidPieceLength,
    InvalidPieces,
    InvalidBitfield,
    InvalidPiece,
    InvalidBlock,
    InvalidPriority,
}

// ---------------------------------------------------------------------
// Hash verification
// ---------------------------------------------------------------------

/// Whether `data` is the piece `h` describes.
pub open spec fn spec_verify(h: PieceHash, data: Seq<u8>) -> bool {
    match h {
        PieceHash::Sha1(expected) => sha1_digest(data) == expected@,
        PieceHash::Sha256 { root, merkle_length, data_length } => data.len() == data_length
            && spec_merkle_piece_root(data, merkle_length) == Some(root@),
        PieceHash::Hybrid { sha1, sha256, merkle_length, v2_data_length } => sha1_digest(data)
            == sha1@ && v2_data_length <= data.len() && spec_merkle_piece_root(
            data.subrange(0, v2_data_length as int),
            merkle_length,
        ) == Some(sha256@),
    }
}

fn eq20(a: &[u8; 20], b: &[u8; 20]) -> (r: bool)
    ensures
        r == (a@ == b@),
{
    let mut i: usize = 0;
    while i < 20
        invariant
            i <= 20,
            forall|j: int| 0 <= j < i ==> a@[j] == b@[j],
        decreases 20 - i,
    {
        if a[i] != b[i] {
            return false;
        }
        i = i + 1;
    }
    assert(a@ =~= b@);
    true
}

fn eq32(a: &[u8; 32], b: &[u8; 32]) -> (r: bool)
    ensures
        r == (a@ == b@),
{
    let mut i: usize = 0;
    while i < 32
        invariant
            i <= 32,
            forall|j: int| 0 <= j < i ==> a@[j] == b@[j],
        decreases 32 - i,
    {
        if a[i] != b[i] {
            return false;
        }
        i = i + 1;
    }
    assert(a@ =~= b@);
    true
}

fn root_matches(computed: Option<[u8; 32]>, expected: &[u8; 32]) -> (r: bool)
    ensures
        r == (computed matches Some(c) && c@ == expected@),
{
    match computed {
        Some(c) => eq32(&c, expected),
        None => false,
    }
}

impl PieceHash {
    /// Whether `data` hashes to this piece's expected digests.
    pub fn verify(&self, data: &[u8]) -> (r: bool)
        ensures
            r == spec_verify(*self, data@),
    {
        match self {
            PieceHash::Sha1(expected) => {
                let digest = sha1(data);
                eq20(&digest, expected)
            },
            PieceHash::Sha256 { root, merkle_length, data_length } => {
                if data.len() as u64 != *data_length as u64 {
                    return false;
                }
                let computed = merkle_piece_root(data, *merkle_length);
                let r = root_matches(computed, root);
                proof {
                    if r {
                        assert(spec_merkle_piece_root(data@, *merkle_length) == Some(root@));
                    }
                }
                r
            },
            PieceHash::Hybrid { sha1: expected_sha1, sha256: expected_sha256, merkle_length, v2_data_length } => {
                let digest = sha1(data);
                if !eq20(&digest, expected_sha1) {
                    return false;
                }
                if (*v2_data_length as u64) > data.len() as u64 {
                    return false;
                }
                let v2_data = &data[0..*v2_data_length as usize];
                let computed = merkle_piece_root(v2_data, *merkle_length);
                let r = root_matches(computed, expected_sha256);
                proof {
                    if r {
                        assert(spec_merkle_piece_root(v2_data@, *merkle_length) == Some(
                            expected_sha256@,
                        ));
                    }
                }
                r
            },
        }
    }
}

// ---------------------------------------------------------------------
// Blocks and bitfields
// ---------------------------------------------------------------------

/// The number of blocks of a piece of `length` bytes.
pub open spec fn spec_block_count(length: int) -> int {
    (length + BLOCK_LEN - 1) / (BLOCK_LEN as int)
}

/// The length of block `b` of a piece of `length` bytes.
pub open spec fn spec_block_length(length: int, b: int) -> int {
    if length - b * BLOCK_LEN <= 0 {
        0
    } else if length - b * BLOCK_LEN < BLOCK_LEN {
        length - b * BLOCK_LEN
    } else {
        BLOCK_LEN as int
    }
}

fn block_count(length: u32) -> (r: usize)
    ensures
        r == spec_block_count(length as int),
        r <= 262144,
{
    let q = length / BLOCK_LEN;
    let r = if length % BLOCK_LEN == 0 {
        q
    } else {
        q + 1
    };
    assert(r == (length + 16384 - 1) / 16384 && r <= 262144) by (nonlinear_arith)
        requires
            q == length / 16384,
            length % 16384 == 0 ==> r == q,
            length % 16384 != 0 ==> r == q + 1,
    ;
    r as usize
}

fn block_length_of(length: u32, block_index: usize) -> (r: u32)
    requires
        block_index < spec_block_count(length as int),
    ensures
        r == spec_block_length(length as int, block_index as int),
        block_index * BLOCK_LEN < length,
{
    assert(block_index * 16384 < length) by (nonlinear_arith)
        requires
            block_index < (length + 16384 - 1) / 16384,
    ;
    let begin = block_index as u32 * BLOCK_LEN;
    let remaining = length - begin;
    if remaining < BLOCK_LEN {
        remaining
    } else {
        BLOCK_LEN
    }
}

/// Whether bit `i` (most significant bit first) of the bitfield is set.
pub open spec fn bit_set(bitfield: Seq<u8>, i: int) -> bool {
    bitfield[i / 8] & (0x80u8 >> ((i % 8) as u8)) != 0
}

fn bitfield_has(bitfield: &[u8], index: usize) -> (r: bool)
    requires
        index / 8 < bitfield@.len(),
    ensures
        r == bit_set(bitfield@, index as int),
{
    let byte = bitfield[index / 8];
    let offset = (index % 8) as u8;
    let mask = 0x80u8 >> offset;
    (byte & mask) != 0
}

// ---------------------------------------------------------------------
// Pieces
// ---------------------------------------------------------------------

impl Piece {
    pub closed spec fn index_view(&self) -> u32 {
        self.index
    }

    pub closed spec fn hash_view(&self) -> PieceHash {
        self.hash
    }

    pub closed spec fn offset_view(&self) -> u64 {
        self.offset
    }

    pub closed spec fn length_view(&self) -> u32 {
        self.length
    }

    pub closed spec fn blocks_view(&self) -> Seq<BlockState> {
        self.blocks@
    }

    pub closed spec fn priority_view(&self) -> u8 {
        self.priority
    }

    pub closed spec fn wanted_view(&self) -> bool {
        self.wanted
    }

    pub closed spec fn verified_view(&self) -> bool {
        self.verified
    }

    /// A piece has at least one byte and one state per block.
    pub closed spec fn wf(&self) -> bool {
        &&& self.length > 0
        &&& self.blocks@.len() == spec_block_count(self.length as int)
    }

    /// Whether some block still has to be requested.
    pub open spec fn spec_has_missing(&self) -> bool {
        exists|b: int| 0 <= b < self.blocks_view().len() && self.blocks_view()[b] == BlockState::Missing
    }

    fn has_missing(&self) -> (r: bool)
        ensures
            r == self.spec_has_missing(),
    {
        let mut i: usize = 0;
        while i < self.blocks.len()
            invariant
                i <= self.blocks@.len(),
                forall|b: int| 0 <= b < i ==> self.blocks@[b] != BlockState::Missing,
            decreases self.blocks@.len() - i,
        {
            if self.blocks[i] == BlockState::Missing {
                return true;
            }
            i = i + 1;
        }
        false
    }

    fn first_block_in(&self, state: BlockState) -> (r: Option<usize>)
        ensures
            r matches Some(i) ==> i < self.blocks_view().len() && self.blocks_view()[i as int] == state,
            match first_index_of(self.blocks_view(), state) {
                Some(b) => r matches Some(i) && i as int == b,
                None => r is None,
            },
    {
        let mut i: usize = 0;
        while i < self.blocks.len()
            invariant
                i <= self.blocks@.len(),
                forall|b: int| 0 <= b < i ==> self.blocks@[b] != state,
            decreases self.blocks@.len() - i,
        {
            if self.blocks[i] == state {
                proof {
                    lemma_first_index_of(self.blocks@, state, i as int);
                }
                return Some(i);
            }
            i = i + 1;
        }
        proof {
            lemma_first_index_none(self.blocks@, state);
        }
        None
    }

    /// Puts every block in `state`.
    fn set_all_blocks(&mut self, state: BlockState)
        ensures
            final(self).blocks_view() == Seq::new(old(self).blocks_view().len(), |b: int| state),
            final(self).index == old(self).index,
            final(self).hash == old(self).hash,
            final(self).offset == old(self).offset,
            final(self).length == old(self).length,
            final(self).priority == old(self).priority,
            final(self).wanted == old(self).wanted,
            final(self).verified == old(self).verified,
    {
        let nb = self.blocks.len();
        let mut b: usize = 0;
        while b < nb
            invariant
                nb == self.blocks@.len(),
                nb == old(self).blocks@.len(),
                b <= nb,
                forall|k: int| 0 <= k < b ==> self.blocks@[k] == state,
                self.index == old(self).index,
                self.hash == old(self).hash,
                self.offset == old(self).offset,
                self.length == old(self).length,
                self.priority == old(self).priority,
                self.wanted == old(self).wanted,
                self.verified == old(self).verified,
            decreases nb - b,
        {
            self.blocks.set(b, state);
            b = b + 1;
        }
        assert(self.blocks@ =~= Seq::new(nb as nat, |b: int| state));
    }

    fn remaining_blocks(&self) -> (r: usize)
        ensures
            r == count_not_complete(self.blocks_view()),
    {
        let mut n: usize = 0;
        let mut i: usize = 0;
        while i < self.blocks.len()
            invariant
                i <= self.blocks@.len(),
                n == count_not_complete(self.blocks@.take(i as int)),
                n <= i,
            decreases self.blocks@.len() - i,
        {
            assert(self.blocks@.take(i + 1).drop_last() =~= self.blocks@.take(i as int));
            if self.blocks[i] != BlockState::Complete {
                n = n + 1;
            }
            i = i + 1;
        }
        assert(self.blocks@.take(i as int) =~= self.blocks@);
        n
    }
}

/// The first position holding `x`.
pub open spec fn first_index_of<T>(s: Seq<T>, x: T) -> Option<int>
    decreases s.len(),
{
    if s.len() == 0 {
        None
    } else {
        match first_index_of(s.drop_last(), x) {
            Some(i) => Some(i),
            None => if s.last() == x {
                Some(s.len() - 1)
            } else {
                None
            },
        }
    }
}

proof fn lemma_first_index_of<T>(s: Seq<T>, x: T, k: int)
    requires
        0 <= k < s.len(),
        s[k] == x,
        forall|j: int| 0 <= j < k ==> s[j] != x,
    ensures
        first_index_of(s, x) == Some(k),
    decreases s.len(),
{
    if k == s.len() - 1 {
        lemma_first_index_none(s.drop_last(), x);
    } else {
        lemma_first_index_of(s.drop_last(), x, k);
    }
}

proof fn lemma_first_index_none<T>(s: Seq<T>, x: T)
    requires
        forall|j: int| 0 <= j < s.len() ==> s[j] != x,
    ensures
        first_index_of(s, x) is None,
    decreases s.len(),
{
    if s.len() > 0 {
        lemma_first_index_none(s.drop_last(), x);
    }
}

/// What `first_index_of` finds is the first occurrence.
pub proof fn lemma_first_index_props<T>(s: Seq<T>, x: T)
    ensures
        first_index_of(s, x) matches Some(k) ==> 0 <= k < s.len() && s[k] == x && forall|j: int|
            0 <= j < k ==> s[j] != x,
        first_index_of(s, x) is None ==> forall|j: int| 0 <= j < s.len() ==> s[j] != x,
    decreases s.len(),
{
    if s.len() > 0 {
        let init = s.drop_last();
        lemma_first_index_props(init, x);
        assert forall|j: int| 0 <= j < init.len() implies init[j] == s[j] by {}
        if first_index_of(init, x) is None {
            assert forall|j: int| 0 <= j < s.len() - 1 implies s[j] != x by {
                assert(init[j] == s[j]);
            }
        }
    }
}

/// How many blocks are not yet complete.
pub open spec fn count_not_complete(s: Seq<BlockState>) -> nat
    decreases s.len(),
{
    if s.len() == 0 {
        0
    } else {
        count_not_complete(s.drop_last()) + if s.last() != BlockState::Complete {
            1nat
        } else {
            0nat
        }
    }
}

} // verus!

verus! {

// ---------------------------------------------------------------------
// Sums and counts over pieces
// ---------------------------------------------------------------------

/// The pieces for which `f` holds.
pub open spec fn count_where(ps: Seq<Piece>, f: spec_fn(Piece) -> bool) -> nat
    decreases ps.len(),
{
    if ps.len() == 0 {
        0
    } else {
        count_where(ps.drop_last(), f) + if f(ps.last()) {
            1nat
        } else {
            0nat
        }
    }
}

/// The sum of `g` over the pieces for which `f` holds.
pub open spec fn sum_where(ps: Seq<Piece>, f: spec_fn(Piece) -> bool, g: spec_fn(Piece) -> nat) -> nat
    decreases ps.len(),
{
    if ps.len() == 0 {
        0
    } else {
        sum_where(ps.drop_last(), f, g) + if f(ps.last()) {
            g(ps.last())
        } else {
            0nat
        }
    }
}

/// Wanted pieces whose hash was verified.
pub open spec fn is_done() -> spec_fn(Piece) -> bool {
    |p: Piece| p.wanted_view() && p.verified_view()
}

pub open spec fn is_wanted() -> spec_fn(Piece) -> bool {
    |p: Piece| p.wanted_view()
}

pub open spec fn any_piece() -> spec_fn(Piece) -> bool {
    |p: Piece| true
}

pub open spec fn length_of() -> spec_fn(Piece) -> nat {
    |p: Piece| p.length_view() as nat
}

pub open spec fn remaining_of() -> spec_fn(Piece) -> nat {
    |p: Piece| count_not_complete(p.blocks_view())
}

pub open spec fn blocks_of() -> spec_fn(Piece) -> nat {
    |p: Piece| p.blocks_view().len()
}

/// A piece still to be downloaded: wanted, unverified, with a block not yet
/// requested.
pub open spec fn needs_download(p: Piece) -> bool {
    p.wanted_view() && !p.verified_view() && p.spec_has_missing()
}

proof fn lemma_count_not_complete_le(s: Seq<BlockState>)
    ensures
        count_not_complete(s) <= s.len(),
    decreases s.len(),
{
    if s.len() > 0 {
        lemma_count_not_complete_le(s.drop_last());
    }
}

proof fn lemma_sum_where_le(ps: Seq<Piece>, f: spec_fn(Piece) -> bool, g: spec_fn(Piece) -> nat, h: spec_fn(Piece) -> nat)
    requires
        forall|i: int| 0 <= i < ps.len() ==> g(#[trigger] ps[i]) <= h(ps[i]),
    ensures
        sum_where(ps, f, g) <= sum_where(ps, any_piece(), h),
    decreases ps.len(),
{
    if ps.len() > 0 {
        lemma_sum_where_le(ps.drop_last(), f, g, h);
        assert(g(ps[ps.len() - 1]) <= h(ps[ps.len() - 1]));
    }
}

proof fn lemma_sum_where_prefix(ps: Seq<Piece>, f: spec_fn(Piece) -> bool, g: spec_fn(Piece) -> nat, k: int)
    requires
        0 <= k <= ps.len(),
    ensures
        sum_where(ps.take(k), f, g) <= sum_where(ps, f, g),
    decreases ps.len() - k,
{
    if k < ps.len() {
        lemma_sum_where_prefix(ps, f, g, k + 1);
        assert(ps.take(k + 1).drop_last() =~= ps.take(k));
    } else {
        assert(ps.take(k) =~= ps);
    }
}

proof fn lemma_sum_lengths_bound(ps: Seq<Piece>, f: spec_fn(Piece) -> bool)
    ensures
        sum_where(ps, f, length_of()) <= ps.len() * 0xffff_ffff,
    decreases ps.len(),
{
    if ps.len() > 0 {
        lemma_sum_lengths_bound(ps.drop_last(), f);
        assert((ps.len() - 1) * 0xffff_ffff + 0xffff_ffff == ps.len() * 0xffff_ffff) by (nonlinear_arith);
    }
}

proof fn lemma_count_le(ps: Seq<Piece>, f: spec_fn(Piece) -> bool)
    ensures
        count_where(ps, f) <= ps.len(),
    decreases ps.len(),
{
    if ps.len() > 0 {
        lemma_count_le(ps.drop_last(), f);
    }
}

// ---------------------------------------------------------------------
// The piece manager's model
// ---------------------------------------------------------------------

/// Whether `a` ranks before `b`: higher priority, then fewer peers having it.
pub open spec fn ranks_before(ps: Seq<Piece>, av: Seq<u32>, a: int, b: int) -> bool {
    ps[a].priority_view() > ps[b].priority_view() || (ps[a].priority_view()
        == ps[b].priority_view() && av[a] < av[b])
}

/// `x` is the first of the best-ranked pieces among those `cand` admits.
pub open spec fn first_best(ps: Seq<Piece>, av: Seq<u32>, cand: spec_fn(int) -> bool, x: int) -> bool {
    &&& 0 <= x < ps.len()
    &&& cand(x)
    &&& forall|j: int|
        0 <= j < ps.len() && #[trigger] cand(j) ==> !ranks_before(ps, av, j, x) && (j < x
            ==> ranks_before(ps, av, x, j))
}

/// `x` is the lowest-index piece `cand` admits.
pub open spec fn first_admitted(n: int, cand: spec_fn(int) -> bool, x: int) -> bool {
    &&& 0 <= x < n
    &&& cand(x)
    &&& forall|j: int| 0 <= j < x ==> !#[trigger] cand(j)
}

/// `q` is `p` with its block states, priority and flags replaced.
pub open spec fn piece_with(
    p: Piece,
    q: Piece,
    blocks: Seq<BlockState>,
    priority: u8,
    wanted: bool,
    verified: bool,
) -> bool {
    &&& q.index_view() == p.index_view()
    &&& q.hash_view() == p.hash_view()
    &&& q.offset_view() == p.offset_view()
    &&& q.length_view() == p.length_view()
    &&& q.blocks_view() == blocks
    &&& q.priority_view() == priority
    &&& q.wanted_view() == wanted
    &&& q.verified_view() == verified
}

/// `after` is `before` with piece `i` set to `blocks` and `verified`, its
/// priority and wanted flag kept, and its reservation dropped.
pub open spec fn piece_set(before: PieceManager, after: PieceManager, i: int, fill: BlockState, verified: bool) -> bool {
    let p = before.pieces_view()[i];
    &&& after.availability_view() == before.availability_view()
    &&& after.sequential_view() == before.sequential_view()
    &&& after.reserved_view() == before.reserved_view().update(i, None)
    &&& after.timed_view() == before.timed_view().update(i, false)
    &&& pieces_updated(
        before.pieces_view(),
        after.pieces_view(),
        i,
        Seq::new(p.blocks_view().len(), |b: int| fill),
        p.priority_view(),
        p.wanted_view(),
        verified,
    )
}

/// What `mark_piece_complete(i)` does: every block of piece `i` complete,
/// the piece verified and no longer reserved.
pub open spec fn piece_set_complete(before: PieceManager, after: PieceManager, i: int) -> bool {
    piece_set(before, after, i, BlockState::Complete, true)
}

/// What `reset_piece(i)` does: every block of piece `i` missing, the piece
/// not verified and no longer reserved.
pub open spec fn piece_set_missing(before: PieceManager, after: PieceManager, i: int) -> bool {
    piece_set(before, after, i, BlockState::Missing, false)
}

/// Resetting a piece undoes its completion: after `mark_piece_complete(i)`
/// and then `reset_piece(i)`, the manager is what `reset_piece(i)` alone
/// would have made of the first: piece `i` unverified with every block
/// missing and unreserved, its priority, wanted flag and the availability
/// as before, every other piece untouched.
pub proof fn lemma_reset_undoes_completion(m0: PieceManager, m1: PieceManager, m2: PieceManager, i: int)
    requires
        m0.wf(),
        0 <= i < m0.pieces_view().len(),
        piece_set_complete(m0, m1, i),
        piece_set_missing(m1, m2, i),
    ensures
        piece_set_missing(m0, m2, i),
        !m2.pieces_view()[i].verified_view(),
        forall|b: int| 0 <= b < m2.pieces_view()[i].blocks_view().len() ==> m2.pieces_view()[i].blocks_view()[b] == BlockState::Missing,
        m2.reserved_view()[i] is None,
        m2.pieces_view()[i].priority_view() == m0.pieces_view()[i].priority_view(),
        m2.pieces_view()[i].wanted_view() == m0.pieces_view()[i].wanted_view(),
        m2.availability_view() == m0.availability_view(),
{
    m0.lemma_shape();
    let p0 = m0.pieces_view()[i];
    let p1 = m1.pieces_view()[i];
    assert(p1.blocks_view().len() == p0.blocks_view().len());
    assert(Seq::new(p1.blocks_view().len(), |b: int| BlockState::Missing) =~= Seq::new(
        p0.blocks_view().len(),
        |b: int| BlockState::Missing,
    ));
    assert(m2.reserved_view() =~= m0.reserved_view().update(i, None));
    assert(m2.timed_view() =~= m0.timed_view().update(i, false));
    assert forall|j: int| 0 <= j < m0.pieces_view().len() && j != i implies #[trigger] m2.pieces_view()[j]
        == m0.pieces_view()[j] by {
        assert(m1.pieces_view()[j] == m0.pieces_view()[j]);
    }
}

impl PieceManager {
    pub closed spec fn pieces_view(&self) -> Seq<Piece> {
        self.pieces@
    }

    pub closed spec fn availability_view(&self) -> Seq<u32> {
        self.availability@
    }

    /// Which peer, if any, has reserved each piece.
    pub closed spec fn reserved_view(&self) -> Seq<Option<u64>> {
        self.reserved_by@
    }

    /// Whether each piece has a reservation time.
    pub closed spec fn timed_view(&self) -> Seq<bool> {
        self.reservation_time@.map_values(|t: Option<Instant>| t is Some)
    }

    pub closed spec fn sequential_view(&self) -> bool {
        self.sequential
    }

    /// The piece count fits in `u32`, the per-piece tables have one entry
    /// per piece, each piece knows its index, a piece is wanted exactly when
    /// its priority is not zero, and all block states together can be
    /// counted in `usize`.
    pub closed spec fn wf(&self) -> bool {
        let n = self.pieces@.len();
        &&& 0 < n <= u32::MAX
        &&& self.availability@.len() == n
        &&& self.reserved_by@.len() == n
        &&& self.reservation_time@.len() == n
        &&& forall|i: int| 0 <= i < n ==> (#[trigger] self.pieces@[i]).wf() && self.pieces@[i].index == i
        &&& forall|i: int| 0 <= i < n ==> (#[trigger] self.pieces@[i]).wanted == (self.pieces@[i].priority != 0)
        &&& sum_where(self.pieces@, any_piece(), blocks_of()) <= usize::MAX
    }

    /// What a well-formed manager holds: between 1 and `u32::MAX` pieces,
    /// one availability count, reservation and time flag per piece, and
    /// each piece knows its position and has one state per block.
    pub proof fn lemma_shape(&self)
        requires
            self.wf(),
        ensures
            0 < self.pieces_view().len() <= u32::MAX,
            self.availability_view().len() == self.pieces_view().len(),
            self.reserved_view().len() == self.pieces_view().len(),
            self.timed_view().len() == self.pieces_view().len(),
            forall|i: int|
                0 <= i < self.pieces_view().len() ==> (#[trigger] self.pieces_view()[i]).index_view() == i
                    && self.pieces_view()[i].length_view() > 0 && self.pieces_view()[i].blocks_view().len()
                    == spec_block_count(self.pieces_view()[i].length_view() as int)
                    && self.pieces_view()[i].wanted_view() == (self.pieces_view()[i].priority_view() != 0),
    {
    }

    /// A piece `reserve_piece_for_peer` may hand to a peer.
    pub open spec fn reservable(&self, i: int, bitfield: Seq<u8>, allow_reserved: bool) -> bool {
        &&& 0 <= i < self.pieces_view().len()
        &&& needs_download(self.pieces_view()[i])
        &&& bit_set(bitfield, i)
        &&& (allow_reserved || self.reserved_view()[i] is None)
    }

    /// The pieces `reserve_piece_for_peer` may hand out.
    pub open spec fn reservable_fn(&self, bitfield: Seq<u8>, allow_reserved: bool) -> spec_fn(int) -> bool {
        |i: int| self.reservable(i, bitfield, allow_reserved)
    }

    /// The pieces `select_stale_piece` may hand out.
    pub open spec fn stealable_fn(&self, peer: u64, bitfield: Seq<u8>, stale: Seq<bool>) -> spec_fn(int) -> bool {
        |i: int| self.stealable(i, peer, bitfield, stale)
    }

    /// A piece `peer` may take over from another peer's stale reservation.
    pub open spec fn stealable(&self, i: int, peer: u64, bitfield: Seq<u8>, stale: Seq<bool>) -> bool {
        &&& 0 <= i < self.pieces_view().len()
        &&& needs_download(self.pieces_view()[i])
        &&& bit_set(bitfield, i)
        &&& self.reserved_view()[i] matches Some(owner) && owner != peer
        &&& self.timed_view()[i]
        &&& stale[i]
    }

    /// The number of bytes of a bitfield covering every piece.
    pub open spec fn spec_bitfield_len(&self) -> int {
        (self.pieces_view().len() + 7) as int / 8
    }

    /// The tables other than the reservations are unchanged.
    pub open spec fn same_pieces(&self, other: &PieceManager) -> bool {
        &&& self.pieces_view() == other.pieces_view()
        &&& self.availability_view() == other.availability_view()
        &&& self.sequential_view() == other.sequential_view()
    }

    /// The outcome of stealing with staleness flags `stale`.
    pub open spec fn steal_outcome(
        &self,
        after: &PieceManager,
        peer: u64,
        bitfield: Seq<u8>,
        stale: Seq<bool>,
        r: Option<u32>,
    ) -> bool {
        &&& after.same_pieces(self)
        &&& after.wf()
        &&& match r {
            None => {
                &&& !exists|i: int| self.stealable(i, peer, bitfield, stale)
                &&& after.reserved_view() == self.reserved_view()
                &&& after.timed_view() == self.timed_view()
            },
            Some(x) => {
                &&& first_best(
                    self.pieces_view(),
                    self.availability_view(),
                    self.stealable_fn(peer, bitfield, stale),
                    x as int,
                )
                &&& after.reserved_view() == self.reserved_view().update(x as int, Some(peer))
                &&& after.timed_view() == self.timed_view().update(x as int, true)
            },
        }
    }

    /// The number of pieces.
    pub fn piece_count(&self) -> (r: usize)
        ensures
            r == self.pieces_view().len(),
    {
        self.pieces.len()
    }

    /// The number of wanted pieces whose hash was verified.
    pub fn completed_pieces(&self) -> (r: usize)
        ensures
            r == count_where(self.pieces_view(), is_done()),
    {
        let mut n: usize = 0;
        let mut i: usize = 0;
        while i < self.pieces.len()
            invariant
                i <= self.pieces@.len(),
                n == count_where(self.pieces@.take(i as int), is_done()),
                n <= i,
            decreases self.pieces@.len() - i,
        {
            assert(self.pieces@.take(i + 1).drop_last() =~= self.pieces@.take(i as int));
            if self.pieces[i].wanted && self.pieces[i].verified {
                n = n + 1;
            }
            i = i + 1;
        }
        assert(self.pieces@.take(i as int) =~= self.pieces@);
        n
    }

    /// The bytes of the wanted pieces whose hash was verified.
    pub fn completed_bytes(&self) -> (r: u64)
        requires
            self.wf(),
        ensures
            r == sum_where(self.pieces_view(), is_done(), length_of()),
    {
        let mut total: u64 = 0;
        let mut i: usize = 0;
        while i < self.pieces.len()
            invariant
                i <= self.pieces@.len(),
                self.pieces@.len() <= u32::MAX,
                total == sum_where(self.pieces@.take(i as int), is_done(), length_of()),
            decreases self.pieces@.len() - i,
        {
            assert(self.pieces@.take(i + 1).drop_last() =~= self.pieces@.take(i as int));
            proof {
                lemma_sum_lengths_bound(self.pieces@.take(i + 1), is_done());
                assert((i + 1) * 0xffff_ffff <= 0xffff_ffff * 0xffff_ffff) by (nonlinear_arith)
                    requires
                        i + 1 <= 0xffff_ffff,
                ;
            }
            if self.pieces[i].wanted && self.pieces[i].verified {
                total = total + self.pieces[i].length as u64;
            }
            i = i + 1;
        }
        assert(self.pieces@.take(i as int) =~= self.pieces@);
        total
    }

    /// The blocks of wanted pieces that are not yet complete.
    pub fn remaining_blocks(&self) -> (r: usize)
        requires
            self.wf(),
        ensures
            r == sum_where(self.pieces_view(), is_wanted(), remaining_of()),
    {
        proof {
            assert forall|i: int| 0 <= i < self.pieces@.len() implies count_not_complete(
                (#[trigger] self.pieces@[i]).blocks@,
            ) <= self.pieces@[i].blocks@.len() by {
                lemma_count_not_complete_le(self.pieces@[i].blocks@);
            }
        }
        let mut total: usize = 0;
        let mut i: usize = 0;
        while i < self.pieces.len()
            invariant
                self.wf(),
                i <= self.pieces@.len(),
                total == sum_where(self.pieces@.take(i as int), is_wanted(), remaining_of()),
                forall|i: int| 0 <= i < self.pieces@.len() ==> count_not_complete(
                    (#[trigger] self.pieces@[i]).blocks@,
                ) <= self.pieces@[i].blocks@.len(),
            decreases self.pieces@.len() - i,
        {
            assert(self.pieces@.take(i + 1).drop_last() =~= self.pieces@.take(i as int));
            proof {
                let t = self.pieces@.take(i + 1);
                assert forall|k: int| 0 <= k < t.len() implies remaining_of()(#[trigger] t[k])
                    <= blocks_of()(t[k]) by {
                    assert(t[k] == self.pieces@[k]);
                }
                lemma_sum_where_le(t, is_wanted(), remaining_of(), blocks_of());
                lemma_sum_where_prefix(self.pieces@, any_piece(), blocks_of(), i + 1);
            }
            if self.pieces[i].wanted {
                let rem = self.pieces[i].remaining_blocks();
                total = total + rem;
            }
            i = i + 1;
        }
        assert(self.pieces@.take(i as int) =~= self.pieces@);
        total
    }

    /// Whether every wanted piece has been verified.
    pub fn is_complete(&self) -> (r: bool)
        ensures
            r == forall|i: int|
                0 <= i < self.pieces_view().len() ==> !(#[trigger] self.pieces_view()[i]).wanted_view()
                    || self.pieces_view()[i].verified_view(),
    {
        let mut i: usize = 0;
        while i < self.pieces.len()
            invariant
                i <= self.pieces@.len(),
                forall|j: int| 0 <= j < i ==> !(#[trigger] self.pieces@[j]).wanted || self.pieces@[j].verified,
            decreases self.pieces@.len() - i,
        {
            if self.pieces[i].wanted && !self.pieces[i].verified {
                assert(self.pieces_view()[i as int] == self.pieces@[i as int]);
                return false;
            }
            i = i + 1;
        }
        true
    }

    /// Forgets every verification and received block, and every reservation.
    pub fn reset_verified(&mut self)
        requires
            old(self).wf(),
        ensures
            final(self).wf(),
            final(self).availability_view() == old(self).availability_view(),
            final(self).sequential_view() == old(self).sequential_view(),
            final(self).pieces_view().len() == old(self).pieces_view().len(),
            forall|i: int|
                0 <= i < old(self).pieces_view().len() ==> piece_with(
                    old(self).pieces_view()[i],
                    #[trigger] final(self).pieces_view()[i],
                    Seq::new(old(self).pieces_view()[i].blocks_view().len(), |b: int| BlockState::Missing),
                    old(self).pieces_view()[i].priority_view(),
                    old(self).pieces_view()[i].wanted_view(),
                    false,
                ),
            forall|i: int| 0 <= i < old(self).pieces_view().len() ==> #[trigger] final(self).reserved_view()[i] is None,
            forall|i: int| 0 <= i < old(self).pieces_view().len() ==> !#[trigger] final(self).timed_view()[i],
            final(self).reserved_view().len() == old(self).reserved_view().len(),
    {
        let ghost old_pieces = self.pieces@;
        let n = self.pieces.len();
        let mut i: usize = 0;
        while i < n
            invariant
                n == self.pieces@.len(),
                n == old_pieces.len(),
                old_pieces == old(self).pieces@,
                self.availability@ == old(self).availability@,
                self.sequential == old(self).sequential,
                self.reserved_by@.len() == n,
                self.reservation_time@.len() == n,
                i <= n,
                forall|j: int| #![trigger self.pieces@[j]] i <= j < n ==> self.pieces@[j] == old_pieces[j],
                forall|j: int|
                    #![trigger self.pieces@[j]]
                    0 <= j < i ==> piece_with(
                        old_pieces[j],
                        self.pieces@[j],
                        Seq::new(old_pieces[j].blocks@.len(), |b: int| BlockState::Missing),
                        old_pieces[j].priority,
                        old_pieces[j].wanted,
                        false,
                    ),
                forall|j: int| 0 <= j < i ==> #[trigger] self.reserved_by@[j] is None,
                forall|j: int| 0 <= j < i ==> #[trigger] self.reservation_time@[j] is None,
            decreases n - i,
        {
            self.pieces[i].verified = false;
            self.pieces[i].set_all_blocks(BlockState::Missing);
            self.reserved_by.set(i, None);
            self.reservation_time.set(i, None);
            i = i + 1;
        }
        proof {
            assert forall|j: int| 0 <= j < n implies (#[trigger] self.pieces@[j]).wf()
                && self.pieces@[j].index == j by {
                assert(old_pieces[j].wf());
            }
            assert forall|j: int| 0 <= j < n implies !#[trigger] self.timed_view()[j] by {
                assert(self.reservation_time@[j] is None);
            }
            lemma_sum_blocks_same(old_pieces, self.pieces@);
        }
    }
}

proof fn lemma_sum_blocks_same(a: Seq<Piece>, b: Seq<Piece>)
    requires
        a.len() == b.len(),
        forall|i: int| 0 <= i < a.len() ==> (#[trigger] a[i]).blocks_view().len() == b[i].blocks_view().len(),
    ensures
        sum_where(a, any_piece(), blocks_of()) == sum_where(b, any_piece(), blocks_of()),
    decreases a.len(),
{
    if a.len() > 0 {
        lemma_sum_blocks_same(a.drop_last(), b.drop_last());
        assert(a[a.len() - 1].blocks_view().len() == b[b.len() - 1].blocks_view().len());
    }
}

} // verus!

verus! {

/// The current time, read with `Instant::now`.
#[verifier::external_body]
pub(crate) fn now() -> (r: Instant) {
    Instant::now()
}

/// The nanoseconds from `since` to `now`, read with
/// `Instant::duration_since` (zero when `since` is later) and
/// `Duration::as_nanos`. It depends on clock readings; nothing is stated.
#[verifier::external_body]
pub(crate) fn elapsed_nanos(since: &Instant, now: &Instant) -> (r: u128) {
    now.duration_since(*since).as_nanos()
}

/// The whole nanoseconds of a duration (`Duration::as_nanos`), a function
/// of the duration alone.
pub uninterp spec fn duration_as_nanos(d: Duration) -> u128;

/// A duration in nanoseconds, read with `Duration::as_nanos`; the contract
/// names the result.
#[verifier::external_body]
fn duration_nanos(d: &Duration) -> (r: u128)
    ensures
        r == duration_as_nanos(*d),
{
    d.as_nanos()
}

/// Which reservations are stale: those with a time older than
/// `threshold`.
pub open spec fn stale_flags(elapsed: Seq<Option<u128>>, threshold: u128) -> Seq<bool> {
    Seq::new(elapsed.len(), |i: int| elapsed[i] matches Some(e) && e > threshold)
}

proof fn lemma_wf_same_shape(a: &PieceManager, b: &PieceManager)
    requires
        a.wf(),
        a.pieces@.len() == b.pieces@.len(),
        b.availability@.len() == a.availability@.len(),
        b.reserved_by@.len() == a.reserved_by@.len(),
        b.reservation_time@.len() == a.reservation_time@.len(),
        forall|i: int|
            0 <= i < a.pieces@.len() ==> (#[trigger] b.pieces@[i]).index == a.pieces@[i].index
                && b.pieces@[i].length == a.pieces@[i].length && b.pieces@[i].blocks@.len()
                == a.pieces@[i].blocks@.len() && (b.pieces@[i].wanted == a.pieces@[i].wanted
                && b.pieces@[i].priority == a.pieces@[i].priority || b.pieces@[i].wanted == (
                b.pieces@[i].priority != 0)),
    ensures
        b.wf(),
{
    assert forall|i: int| 0 <= i < b.pieces@.len() implies (#[trigger] b.pieces@[i]).wf()
        && b.pieces@[i].index == i by {
        assert(a.pieces@[i].wf());
    }
    lemma_sum_blocks_same(a.pieces@, b.pieces@);
}

impl PieceManager {
    /// The wanted, unfinished piece of highest priority (the first such on
    /// ties); pieces of priority zero are never chosen.
    pub fn next_missing_piece(&self) -> (r: Option<u32>)
        requires
            self.wf(),
        ensures
            r is None <==> !exists|i: int|
                0 <= i < self.pieces_view().len() && needs_download(
                    #[trigger] self.pieces_view()[i],
                ) && self.pieces_view()[i].priority_view() > 0,
            r matches Some(x) ==> {
                &&& x < self.pieces_view().len()
                &&& needs_download(self.pieces_view()[x as int])
                &&& self.pieces_view()[x as int].priority_view() > 0
                &&& forall|j: int|
                    0 <= j < self.pieces_view().len() && needs_download(
                        #[trigger] self.pieces_view()[j],
                    ) ==> self.pieces_view()[j].priority_view() <= self.pieces_view()[x as int].priority_view()
                        && (j < x ==> self.pieces_view()[j].priority_view()
                        < self.pieces_view()[x as int].priority_view())
            },
    {
        let mut best: Option<u32> = None;
        let mut best_priority: u8 = 0;
        let mut idx: usize = 0;
        while idx < self.pieces.len()
            invariant
                self.wf(),
                idx <= self.pieces@.len(),
                best is None ==> best_priority == 0,
                forall|j: int|
                    0 <= j < idx && needs_download(#[trigger] self.pieces@[j]) ==> self.pieces@[j].priority
                        <= best_priority,
                best matches Some(x) ==> {
                    &&& x < idx
                    &&& needs_download(self.pieces@[x as int])
                    &&& self.pieces@[x as int].priority == best_priority
                    &&& best_priority > 0
                    &&& forall|j: int|
                        0 <= j < x && needs_download(#[trigger] self.pieces@[j]) ==> self.pieces@[j].priority
                            < best_priority
                },
            decreases self.pieces@.len() - idx,
        {
            let piece = &self.pieces[idx];
            if piece.wanted && !piece.verified && piece.has_missing() {
                if piece.priority > best_priority {
                    best_priority = piece.priority;
                    best = Some(idx as u32);
                }
            }
            idx = idx + 1;
        }
        proof {
            if let Some(x) = best {
                assert(self.pieces_view()[x as int] == self.pieces@[x as int]);
                assert forall|j: int|
                    0 <= j < self.pieces_view().len() && needs_download(
                        #[trigger] self.pieces_view()[j],
                    ) implies self.pieces_view()[j].priority_view() <= self.pieces_view()[x as int].priority_view()
                        && (j < x ==> self.pieces_view()[j].priority_view()
                        < self.pieces_view()[x as int].priority_view()) by {
                    assert(self.pieces_view()[j] == self.pieces@[j]);
                }
            }
            if best is None {
                assert forall|i: int|
                    0 <= i < self.pieces_view().len() && needs_download(
                        #[trigger] self.pieces_view()[i],
                    ) implies !(self.pieces_view()[i].priority_view() > 0) by {
                    assert(self.pieces_view()[i] == self.pieces@[i]);
                }
            }
        }
        best
    }

    /// The length of piece `index`.
    pub fn piece_length(&self, index: u32) -> (r: Option<u32>)
        ensures
            index < self.pieces_view().len() ==> r == Some(self.pieces_view()[index as int].length_view()),
            index >= self.pieces_view().len() ==> r is None,
    {
        if (index as usize) < self.pieces.len() {
            Some(self.pieces[index as usize].length)
        } else {
            None
        }
    }

    /// Where piece `index` starts in the torrent's content.
    pub fn piece_offset(&self, index: u32) -> (r: Option<u64>)
        ensures
            index < self.pieces_view().len() ==> r == Some(self.pieces_view()[index as int].offset_view()),
            index >= self.pieces_view().len() ==> r is None,
    {
        if (index as usize) < self.pieces.len() {
            Some(self.pieces[index as usize].offset)
        } else {
            None
        }
    }

    /// How piece `index` is verified.
    pub fn piece_hash(&self, index: u32) -> (r: Option<&PieceHash>)
        ensures
            index < self.pieces_view().len() ==> r == Some(&self.pieces_view()[index as int].hash_view()),
            index >= self.pieces_view().len() ==> r is None,
    {
        if (index as usize) < self.pieces.len() {
            Some(&self.pieces[index as usize].hash)
        } else {
            None
        }
    }

    /// Whether piece `index` exists and was verified.
    pub fn is_piece_complete(&self, index: u32) -> (r: bool)
        ensures
            r == (index < self.pieces_view().len() && self.pieces_view()[index as int].verified_view()),
    {
        if (index as usize) < self.pieces.len() {
            self.pieces[index as usize].verified
        } else {
            false
        }
    }

    /// Whether piece `index` exists and is wanted.
    pub fn is_piece_wanted(&self, index: u32) -> (r: bool)
        ensures
            r == (index < self.pieces_view().len() && self.pieces_view()[index as int].wanted_view()),
    {
        if (index as usize) < self.pieces.len() {
            self.pieces[index as usize].wanted
        } else {
            false
        }
    }

    /// The priority of piece `index`.
    pub fn piece_priority(&self, index: u32) -> (r: Option<u8>)
        ensures
            index < self.pieces_view().len() ==> r == Some(
                self.pieces_view()[index as int].priority_view(),
            ),
            index >= self.pieces_view().len() ==> r is None,
    {
        if (index as usize) < self.pieces.len() {
            Some(self.pieces[index as usize].priority)
        } else {
            None
        }
    }

    /// The bytes of the wanted pieces.
    pub fn wanted_bytes(&self) -> (r: u64)
        requires
            self.wf(),
        ensures
            r == sum_where(self.pieces_view(), is_wanted(), length_of()),
    {
        let mut total: u64 = 0;
        let mut i: usize = 0;
        while i < self.pieces.len()
            invariant
                i <= self.pieces@.len(),
                self.pieces@.len() <= u32::MAX,
                total == sum_where(self.pieces@.take(i as int), is_wanted(), length_of()),
            decreases self.pieces@.len() - i,
        {
            assert(self.pieces@.take(i + 1).drop_last() =~= self.pieces@.take(i as int));
            proof {
                lemma_sum_lengths_bound(self.pieces@.take(i + 1), is_wanted());
                assert((i + 1) * 0xffff_ffff <= 0xffff_ffff * 0xffff_ffff) by (nonlinear_arith)
                    requires
                        i + 1 <= 0xffff_ffff,
                ;
            }
            if self.pieces[i].wanted {
                total = total + self.pieces[i].length as u64;
            }
            i = i + 1;
        }
        assert(self.pieces@.take(i as int) =~= self.pieces@);
        total
    }

    /// The number of wanted pieces.
    pub fn wanted_pieces(&self) -> (r: usize)
        ensures
            r == count_where(self.pieces_view(), is_wanted()),
    {
        let mut n: usize = 0;
        let mut i: usize = 0;
        while i < self.pieces.len()
            invariant
                i <= self.pieces@.len(),
                n == count_where(self.pieces@.take(i as int), is_wanted()),
                n <= i,
            decreases self.pieces@.len() - i,
        {
            assert(self.pieces@.take(i + 1).drop_last() =~= self.pieces@.take(i as int));
            if self.pieces[i].wanted {
                n = n + 1;
            }
            i = i + 1;
        }
        assert(self.pieces@.take(i as int) =~= self.pieces@);
        n
    }

    /// Chooses between rarest-first and in-order piece selection.
    pub fn set_sequential(&mut self, sequential: bool)
        requires
            old(self).wf(),
        ensures
            final(self).wf(),
            final(self).sequential_view() == sequential,
            final(self).pieces_view() == old(self).pieces_view(),
            final(self).availability_view() == old(self).availability_view(),
            final(self).reserved_view() == old(self).reserved_view(),
            final(self).timed_view() == old(self).timed_view(),
    {
        self.sequential = sequential;
    }

    /// Sets every piece's priority at once; a piece of priority zero is no
    /// longer wanted and loses its reservation. Nothing changes when the
    /// list has the wrong length or holds a priority above high.
    #[verifier::loop_isolation(false)]
    pub fn set_piece_priorities(&mut self, priorities: &[u8]) -> (r: Result<(), Error>)
        requires
            old(self).wf(),
        ensures
            final(self).wf(),
            priorities@.len() != old(self).pieces_view().len() ==> r == Err::<(), Error>(
                Error::InvalidPieces,
            ),
            priorities@.len() == old(self).pieces_view().len() && (exists|i: int|
                0 <= i < priorities@.len() && #[trigger] priorities@[i] > PRIORITY_HIGH) ==> r == Err::<
                (),
                Error,
            >(Error::InvalidPriority),
            priorities@.len() == old(self).pieces_view().len() && (forall|i: int|
                0 <= i < priorities@.len() ==> #[trigger] priorities@[i] <= PRIORITY_HIGH) ==> r is Ok,
            r is Err ==> *final(self) == *old(self),
            r is Ok ==> {
                &&& priorities@.len() == old(self).pieces_view().len()
                &&& final(self).availability_view() == old(self).availability_view()
                &&& final(self).sequential_view() == old(self).sequential_view()
                &&& final(self).pieces_view().len() == old(self).pieces_view().len()
                &&& forall|i: int|
                    0 <= i < priorities@.len() ==> priorities@[i] <= PRIORITY_HIGH && piece_with(
                        old(self).pieces_view()[i],
                        #[trigger] final(self).pieces_view()[i],
                        old(self).pieces_view()[i].blocks_view(),
                        priorities@[i],
                        priorities@[i] != PRIORITY_SKIP,
                        old(self).pieces_view()[i].verified_view(),
                    )
                &&& final(self).reserved_view().len() == old(self).reserved_view().len()
                &&& forall|i: int|
                    0 <= i < priorities@.len() ==> #[trigger] final(self).reserved_view()[i] == if priorities@[i]
                        == PRIORITY_SKIP {
                        None
                    } else {
                        old(self).reserved_view()[i]
                    }
                &&& forall|i: int|
                    0 <= i < priorities@.len() ==> #[trigger] final(self).timed_view()[i] == (
                    priorities@[i] != PRIORITY_SKIP && old(self).timed_view()[i])
            },
    {
        if priorities.len() != self.pieces.len() {
            return Err(Error::InvalidPieces);
        }
        let mut k: usize = 0;
        while k < priorities.len()
            invariant
                k <= priorities@.len(),
                forall|j: int| 0 <= j < k ==> priorities@[j] <= PRIORITY_HIGH,
            decreases priorities@.len() - k,
        {
            if priorities[k] > PRIORITY_HIGH {
                return Err(Error::InvalidPriority);
            }
            k = k + 1;
        }
        let ghost before = *self;
        let n = self.pieces.len();
        let mut idx: usize = 0;
        while idx < n
            invariant
                before.wf(),
                n == priorities@.len(),
                n == self.pieces@.len(),
                n == before.pieces@.len(),
                idx <= n,
                forall|j: int| 0 <= j < n ==> priorities@[j] <= PRIORITY_HIGH,
                self.availability@ == before.availability@,
                self.sequential == before.sequential,
                self.reserved_by@.len() == n,
                self.reservation_time@.len() == n,
                forall|j: int| #![trigger self.pieces@[j]] idx <= j < n ==> self.pieces@[j] == before.pieces@[j],
                forall|j: int| #![trigger self.reserved_by@[j]] idx <= j < n ==> self.reserved_by@[j] == before.reserved_by@[j],
                forall|j: int| #![trigger self.reservation_time@[j]] idx <= j < n ==> self.reservation_time@[j] == before.reservation_time@[j],
                forall|j: int|
                    #![trigger self.pieces@[j]]
                    0 <= j < idx ==> piece_with(
                        before.pieces@[j],
                        self.pieces@[j],
                        before.pieces@[j].blocks@,
                        priorities@[j],
                        priorities@[j] != PRIORITY_SKIP,
                        before.pieces@[j].verified,
                    ),
                forall|j: int|
                    #![trigger self.reserved_by@[j]]
                    0 <= j < idx ==> self.reserved_by@[j] == if priorities@[j] == PRIORITY_SKIP {
                        None
                    } else {
                        before.reserved_by@[j]
                    },
                forall|j: int|
                    #![trigger self.reservation_time@[j]]
                    0 <= j < idx ==> (self.reservation_time@[j] is Some) == (priorities@[j]
                        != PRIORITY_SKIP && before.reservation_time@[j] is Some),
            decreases n - idx,
        {
            let priority = priorities[idx];
            self.pieces[idx].priority = priority;
            self.pieces[idx].wanted = priority != PRIORITY_SKIP;
            if priority == PRIORITY_SKIP {
                self.reserved_by.set(idx, None);
                self.reservation_time.set(idx, None);
            }
            idx = idx + 1;
        }
        proof {
            lemma_wf_same_shape(&before, self);
            assert forall|i: int| 0 <= i < n implies #[trigger] self.timed_view()[i] == (
            priorities@[i] != PRIORITY_SKIP && before.timed_view()[i]) by {
                assert(self.reservation_time@[i] is Some == (priorities@[i] != PRIORITY_SKIP
                    && before.reservation_time@[i] is Some));
            }
        }
        Ok(())
    }

    /// The number of bytes of a bitfield covering every piece.
    pub fn bitfield_len(&self) -> (r: usize)
        ensures
            r == self.spec_bitfield_len(),
    {
        let n = self.pieces.len();
        n / 8 + if n % 8 == 0 {
            0
        } else {
            1
        }
    }
}

} // verus!

verus! {

/// `after` is `before` with piece `i` changed as `piece_with` describes.
pub open spec fn pieces_updated(
    before: Seq<Piece>,
    after: Seq<Piece>,
    i: int,
    blocks: Seq<BlockState>,
    priority: u8,
    wanted: bool,
    verified: bool,
) -> bool {
    &&& after.len() == before.len()
    &&& 0 <= i < before.len()
    &&& forall|j: int| 0 <= j < before.len() && j != i ==> #[trigger] after[j] == before[j]
    &&& piece_with(before[i], after[i], blocks, priority, wanted, verified)
}

/// The block `next_request_for_piece` hands out: the first missing one,
/// else (when duplicates are allowed) the first requested one.
pub open spec fn next_block(p: Piece, allow_duplicate: bool) -> Option<int> {
    match first_index_of(p.blocks_view(), BlockState::Missing) {
        Some(b) => Some(b),
        None => if allow_duplicate {
            first_index_of(p.blocks_view(), BlockState::Requested)
        } else {
            None
        },
    }
}

/// A piece `select_next_request` may pick: unverified, with a missing
/// block, in the bitfield, and not counted as held by every possible peer.
pub open spec fn request_candidate(ps: Seq<Piece>, av: Seq<u32>, bitfield: Seq<u8>, i: int) -> bool {
    &&& 0 <= i < ps.len()
    &&& !ps[i].verified_view()
    &&& ps[i].spec_has_missing()
    &&& bit_set(bitfield, i)
    &&& av[i] < u32::MAX
}

/// One more peer has the piece, saturating.
pub open spec fn count_up(x: u32) -> u32 {
    if x < u32::MAX {
        (x + 1) as u32
    } else {
        x
    }
}

/// One peer fewer has the piece, saturating.
pub open spec fn count_down(x: u32) -> u32 {
    if x > 0 {
        (x - 1) as u32
    } else {
        x
    }
}

/// The request for block `b` of piece `p`.
pub open spec fn block_request(p: Piece, b: int) -> BlockRequest {
    BlockRequest {
        index: p.index_view(),
        begin: (b * BLOCK_LEN) as u32,
        length: spec_block_length(p.length_view() as int, b) as u32,
    }
}

impl PieceManager {
    /// Counts a peer's bitfield in the availability of each piece it has.
    /// A bitfield of the wrong length, or with a bit set past the last
    /// piece, is refused.
    #[verifier::loop_isolation(false)]
    pub fn apply_peer_bitfield(&mut self, bitfield: &[u8]) -> (r: Result<(), Error>)
        requires
            old(self).wf(),
        ensures
            final(self).wf(),
            bitfield@.len() != old(self).spec_bitfield_len() ==> r == Err::<(), Error>(
                Error::InvalidBitfield,
            ),
            bitfield@.len() == old(self).spec_bitfield_len() && (exists|i: int|
                old(self).pieces_view().len() <= i < 8 * bitfield@.len() && #[trigger] bit_set(
                    bitfield@,
                    i,
                )) ==> r == Err::<(), Error>(Error::InvalidBitfield),
            bitfield@.len() == old(self).spec_bitfield_len() && (forall|i: int|
                old(self).pieces_view().len() <= i < 8 * bitfield@.len() ==> !#[trigger] bit_set(bitfield@, i))
                ==> r is Ok,
            r is Err ==> *final(self) == *old(self),
            r is Ok ==> final(self).same_pieces_but_availability(old(self)) && final(self).availability_view() == Seq::new(
                old(self).availability_view().len(),
                |i: int|
                    if bit_set(bitfield@, i) {
                        count_up(old(self).availability_view()[i])
                    } else {
                        old(self).availability_view()[i]
                    },
            ),
    {
        if bitfield.len() != self.bitfield_len() {
            return Err(Error::InvalidBitfield);
        }
        let n = self.pieces.len();
        let used_bits = n % 8;
        if used_bits != 0 {
            let last = bitfield.len() - 1;
            proof {
                assert(8 * last + used_bits == n && 8 * bitfield@.len() == n + 8 - used_bits)
                    by (nonlinear_arith)
                    requires
                        bitfield@.len() == (n + 7) / 8,
                        last == bitfield@.len() - 1,
                        used_bits == n % 8,
                        used_bits != 0,
                ;
            }
            let mut j: usize = used_bits;
            while j < 8
                invariant
                    used_bits <= j <= 8,
                    8 * last + used_bits == n,
                    8 * bitfield@.len() == n + 8 - used_bits,
                    last == bitfield@.len() - 1,
                    forall|i: int| n <= i < 8 * last + j ==> !#[trigger] bit_set(bitfield@, i),
                decreases 8 - j,
            {
                let mask = 0x80u8 >> (j as u8);
                proof {
                    let i = 8 * last + j;
                    assert(i / 8 == last && i % 8 == j) by (nonlinear_arith)
                        requires
                            i == 8 * last + j,
                            j < 8,
                    ;
                }
                if bitfield[last] & mask != 0 {
                    assert(bit_set(bitfield@, 8 * last + j));
                    return Err(Error::InvalidBitfield);
                }
                j = j + 1;
            }
        } else {
            proof {
                assert(8 * bitfield@.len() == n) by (nonlinear_arith)
                    requires
                        bitfield@.len() == (n + 7) / 8,
                        n % 8 == 0,
                ;
            }
        }
        let ghost before = *self;
        let mut idx: usize = 0;
        while idx < n
            invariant
                before.wf(),
                n == before.pieces@.len(),
                bitfield@.len() == (n + 7) / 8,
                idx <= n,
                self.pieces@ == before.pieces@,
                self.reserved_by@ == before.reserved_by@,
                self.reservation_time@ == before.reservation_time@,
                self.sequential == before.sequential,
                self.availability@.len() == n,
                forall|j: int| #![trigger self.availability@[j]] idx <= j < n ==> self.availability@[j] == before.availability@[j],
                forall|j: int|
                    #![trigger self.availability@[j]]
                    0 <= j < idx ==> self.availability@[j] == if bit_set(bitfield@, j) {
                        count_up(before.availability@[j])
                    } else {
                        before.availability@[j]
                    },
            decreases n - idx,
        {
            if bitfield_has(bitfield, idx) {
                let a = self.availability[idx];
                if a < u32::MAX {
                    self.availability.set(idx, a + 1);
                }
            }
            idx = idx + 1;
        }
        proof {
            lemma_wf_same_shape(&before, self);
            assert(self.availability@ =~= Seq::new(
                before.availability@.len(),
                |i: int|
                    if bit_set(bitfield@, i) {
                        count_up(before.availability@[i])
                    } else {
                        before.availability@[i]
                    },
            ));
        }
        Ok(())
    }

    /// Everything but the availability counts is unchanged.
    pub open spec fn same_pieces_but_availability(&self, other: &PieceManager) -> bool {
        &&& self.pieces_view() == other.pieces_view()
        &&& self.reserved_view() == other.reserved_view()
        &&& self.timed_view() == other.timed_view()
        &&& self.sequential_view() == other.sequential_view()
    }

    /// Counts one more peer having piece `index`.
    pub fn apply_have(&mut self, index: u32) -> (r: Result<(), Error>)
        requires
            old(self).wf(),
        ensures
            final(self).wf(),
            index >= old(self).pieces_view().len() ==> r == Err::<(), Error>(Error::InvalidPiece)
                && *final(self) == *old(self),
            index < old(self).pieces_view().len() ==> r is Ok && final(self).same_pieces_but_availability(old(self)) && final(self).availability_view() == old(self).availability_view().update(
                index as int,
                count_up(old(self).availability_view()[index as int]),
            ),
    {
        let idx = index as usize;
        if idx >= self.pieces.len() {
            return Err(Error::InvalidPiece);
        }
        let a = self.availability[idx];
        if a < u32::MAX {
            self.availability.set(idx, a + 1);
        }
        proof {
            assert(self.availability@ =~= old(self).availability@.update(
                index as int,
                count_up(old(self).availability@[index as int]),
            ));
        }
        Ok(())
    }

    /// Counts one peer fewer having each piece its bitfield has.
    pub fn remove_peer_bitfield(&mut self, bitfield: &[u8]) -> (r: Result<(), Error>)
        requires
            old(self).wf(),
        ensures
            final(self).wf(),
            bitfield@.len() != old(self).spec_bitfield_len() ==> r == Err::<(), Error>(
                Error::InvalidBitfield,
            ) && *final(self) == *old(self),
            bitfield@.len() == old(self).spec_bitfield_len() ==> r is Ok && final(self).same_pieces_but_availability(old(self)) && final(self).availability_view() == Seq::new(
                old(self).availability_view().len(),
                |i: int|
                    if bit_set(bitfield@, i) {
                        count_down(old(self).availability_view()[i])
                    } else {
                        old(self).availability_view()[i]
                    },
            ),
    {
        if bitfield.len() != self.bitfield_len() {
            return Err(Error::InvalidBitfield);
        }
        let n = self.pieces.len();
        let ghost before = *self;
        let mut idx: usize = 0;
        while idx < n
            invariant
                before.wf(),
                n == before.pieces@.len(),
                bitfield@.len() == (n + 7) / 8,
                idx <= n,
                self.pieces@ == before.pieces@,
                self.reserved_by@ == before.reserved_by@,
                self.reservation_time@ == before.reservation_time@,
                self.sequential == before.sequential,
                self.availability@.len() == n,
                forall|j: int| #![trigger self.availability@[j]] idx <= j < n ==> self.availability@[j] == before.availability@[j],
                forall|j: int|
                    #![trigger self.availability@[j]]
                    0 <= j < idx ==> self.availability@[j] == if bit_set(bitfield@, j) {
                        count_down(before.availability@[j])
                    } else {
                        before.availability@[j]
                    },
            decreases n - idx,
        {
            if bitfield_has(bitfield, idx) {
                let a = self.availability[idx];
                if a > 0 {
                    self.availability.set(idx, a - 1);
                }
            }
            idx = idx + 1;
        }
        proof {
            lemma_wf_same_shape(&before, self);
            assert(self.availability@ =~= Seq::new(
                before.availability@.len(),
                |i: int|
                    if bit_set(bitfield@, i) {
                        count_down(before.availability@[i])
                    } else {
                        before.availability@[i]
                    },
            ));
        }
        Ok(())
    }

    /// Whether the peer whose bitfield this is has a piece we still need.
    pub fn has_needed_piece(&self, bitfield: &[u8]) -> (r: bool)
        requires
            self.wf(),
        ensures
            r == (bitfield@.len() == self.spec_bitfield_len() && exists|i: int|
                0 <= i < self.pieces_view().len() && needs_download(#[trigger] self.pieces_view()[i])
                    && bit_set(bitfield@, i)),
    {
        if bitfield.len() != self.bitfield_len() {
            return false;
        }
        let mut idx: usize = 0;
        while idx < self.pieces.len()
            invariant
                self.wf(),
                bitfield@.len() == (self.pieces@.len() + 7) / 8,
                idx <= self.pieces@.len(),
                forall|j: int|
                    0 <= j < idx ==> !(needs_download(#[trigger] self.pieces@[j]) && bit_set(bitfield@, j)),
            decreases self.pieces@.len() - idx,
        {
            let piece = &self.pieces[idx];
            if piece.wanted && !piece.verified && piece.has_missing() && bitfield_has(bitfield, idx) {
                assert(self.pieces_view()[idx as int] == self.pieces@[idx as int]);
                return true;
            }
            idx = idx + 1;
        }
        proof {
            assert forall|i: int| 0 <= i < self.pieces_view().len() && needs_download(
                #[trigger] self.pieces_view()[i],
            ) implies !bit_set(bitfield@, i) by {
                assert(self.pieces_view()[i] == self.pieces@[i]);
            }
        }
        false
    }

    /// Drops `peer_id`'s reservation of piece `index`, if it holds one.
    pub fn release_piece(&mut self, peer_id: u64, index: u32)
        requires
            old(self).wf(),
        ensures
            final(self).wf(),
            final(self).same_pieces(old(self)),
            index < old(self).pieces_view().len() && old(self).reserved_view()[index as int] == Some(
                peer_id,
            ) ==> final(self).reserved_view() == old(self).reserved_view().update(index as int, None)
                && final(self).timed_view() == old(self).timed_view().update(index as int, false),
            !(index < old(self).pieces_view().len() && old(self).reserved_view()[index as int]
                == Some(peer_id)) ==> *final(self) == *old(self),
    {
        let idx = index as usize;
        if idx >= self.reserved_by.len() {
            return;
        }
        let owned = match self.reserved_by[idx] {
            Some(owner) => owner == peer_id,
            None => false,
        };
        if owned {
            self.reserved_by.set(idx, None);
            self.reservation_time.set(idx, None);
            proof {
                assert(self.timed_view() =~= old(self).timed_view().update(index as int, false));
            }
        }
    }

    /// Drops any reservation of piece `index`.
    pub fn clear_reservation(&mut self, index: u32)
        requires
            old(self).wf(),
        ensures
            final(self).wf(),
            final(self).same_pieces(old(self)),
            index < old(self).pieces_view().len() ==> final(self).reserved_view() == old(self).reserved_view().update(index as int, None) && final(self).timed_view() == old(self).timed_view().update(index as int, false),
            index >= old(self).pieces_view().len() ==> *final(self) == *old(self),
    {
        let idx = index as usize;
        if idx < self.reserved_by.len() {
            self.reserved_by.set(idx, None);
            self.reservation_time.set(idx, None);
            proof {
                assert(self.timed_view() =~= old(self).timed_view().update(index as int, false));
            }
        }
    }

    /// Marks the block at `begin` of piece `index` as received. Reports
    /// whether it was newly received; a block that does not start on a block
    /// boundary, lies outside the piece or has the wrong length is refused.
    pub fn mark_block_complete(&mut self, index: u32, begin: u32, length: u32) -> (r: Result<
        bool,
        Error,
    >)
        requires
            old(self).wf(),
        ensures
            final(self).wf(),
            ({
                let ps = old(self).pieces_view();
                let b = begin / BLOCK_LEN;
                if index >= ps.len() {
                    r == Err::<bool, Error>(Error::InvalidPiece) && *final(self) == *old(self)
                } else if begin % BLOCK_LEN != 0 || b >= ps[index as int].blocks_view().len()
                    || spec_block_length(ps[index as int].length_view() as int, b as int) != length {
                    r == Err::<bool, Error>(Error::InvalidBlock) && *final(self) == *old(self)
                } else if ps[index as int].blocks_view()[b as int] == BlockState::Complete {
                    r == Ok::<bool, Error>(false) && *final(self) == *old(self)
                } else {
                    &&& r == Ok::<bool, Error>(true)
                    &&& final(self).availability_view() == old(self).availability_view()
                    &&& final(self).reserved_view() == old(self).reserved_view()
                    &&& final(self).timed_view() == old(self).timed_view()
                    &&& final(self).sequential_view() == old(self).sequential_view()
                    &&& pieces_updated(
                        ps,
                        final(self).pieces_view(),
                        index as int,
                        ps[index as int].blocks_view().update(b as int, BlockState::Complete),
                        ps[index as int].priority_view(),
                        ps[index as int].wanted_view(),
                        ps[index as int].verified_view(),
                    )
                }
            }),
    {
        let idx = index as usize;
        if idx >= self.pieces.len() {
            return Err(Error::InvalidPiece);
        }
        if begin % BLOCK_LEN != 0 {
            return Err(Error::InvalidBlock);
        }
        let block_index = (begin / BLOCK_LEN) as usize;
        if block_index >= self.pieces[idx].blocks.len() {
            return Err(Error::InvalidBlock);
        }
        proof {
            assert(self.pieces@[idx as int].wf());
        }
        if block_length_of(self.pieces[idx].length, block_index) != length {
            return Err(Error::InvalidBlock);
        }
        if self.pieces[idx].blocks[block_index] == BlockState::Complete {
            return Ok(false);
        }
        let ghost before = *self;
        self.pieces[idx].blocks.set(block_index, BlockState::Complete);
        proof {
            lemma_wf_same_shape(&before, self);
        }
        Ok(true)
    }

    /// Marks the block at `begin` of piece `index` as missing again, unless
    /// it was already received.
    pub fn mark_block_missing(&mut self, index: u32, begin: u32) -> (r: Result<(), Error>)
        requires
            old(self).wf(),
        ensures
            final(self).wf(),
            ({
                let ps = old(self).pieces_view();
                let b = begin / BLOCK_LEN;
                if index >= ps.len() {
                    r == Err::<(), Error>(Error::InvalidPiece) && *final(self) == *old(self)
                } else if begin % BLOCK_LEN != 0 || b >= ps[index as int].blocks_view().len() {
                    r == Err::<(), Error>(Error::InvalidBlock) && *final(self) == *old(self)
                } else if ps[index as int].blocks_view()[b as int] == BlockState::Complete {
                    r == Ok::<(), Error>(()) && *final(self) == *old(self)
                } else {
                    &&& r == Ok::<(), Error>(())
                    &&& final(self).availability_view() == old(self).availability_view()
                    &&& final(self).reserved_view() == old(self).reserved_view()
                    &&& final(self).timed_view() == old(self).timed_view()
                    &&& final(self).sequential_view() == old(self).sequential_view()
                    &&& pieces_updated(
                        ps,
                        final(self).pieces_view(),
                        index as int,
                        ps[index as int].blocks_view().update(b as int, BlockState::Missing),
                        ps[index as int].priority_view(),
                        ps[index as int].wanted_view(),
                        ps[index as int].verified_view(),
                    )
                }
            }),
    {
        let idx = index as usize;
        if idx >= self.pieces.len() {
            return Err(Error::InvalidPiece);
        }
        if begin % BLOCK_LEN != 0 {
            return Err(Error::InvalidBlock);
        }
        let block_index = (begin / BLOCK_LEN) as usize;
        if block_index >= self.pieces[idx].blocks.len() {
            return Err(Error::InvalidBlock);
        }
        if self.pieces[idx].blocks[block_index] == BlockState::Complete {
            return Ok(());
        }
        let ghost before = *self;
        self.pieces[idx].blocks.set(block_index, BlockState::Missing);
        proof {
            lemma_wf_same_shape(&before, self);
        }
        Ok(())
    }

    /// Records that piece `index` passed its hash check: every block is
    /// complete and its reservation is dropped. Reports whether it was
    /// newly verified.
    pub fn mark_piece_complete(&mut self, index: u32) -> (r: Result<bool, Error>)
        requires
            old(self).wf(),
        ensures
            final(self).wf(),
            index >= old(self).pieces_view().len() ==> r == Err::<bool, Error>(Error::InvalidPiece)
                && *final(self) == *old(self),
            index < old(self).pieces_view().len() ==> {
                &&& r == Ok::<bool, Error>(!old(self).pieces_view()[index as int].verified_view())
                &&& piece_set_complete(*old(self), *final(self), index as int)
            },
    {
        let idx = index as usize;
        if idx >= self.pieces.len() {
            return Err(Error::InvalidPiece);
        }
        let ghost before = *self;
        let was_new = !self.pieces[idx].verified;
        self.pieces[idx].verified = true;
        self.pieces[idx].set_all_blocks(BlockState::Complete);
        self.reserved_by.set(idx, None);
        self.reservation_time.set(idx, None);
        proof {
            lemma_wf_same_shape(&before, self);
            assert(self.timed_view() =~= before.timed_view().update(index as int, false));
        }
        Ok(was_new)
    }

    /// Forgets piece `index`'s verification and received blocks, and its
    /// reservation (after a failed hash check).
    pub fn reset_piece(&mut self, index: u32) -> (r: Result<(), Error>)
        requires
            old(self).wf(),
        ensures
            final(self).wf(),
            index >= old(self).pieces_view().len() ==> r == Err::<(), Error>(Error::InvalidPiece)
                && *final(self) == *old(self),
            index < old(self).pieces_view().len() ==> r is Ok && piece_set_missing(*old(self), *final(self), index as int),
    {
        let idx = index as usize;
        if idx >= self.pieces.len() {
            return Err(Error::InvalidPiece);
        }
        let ghost before = *self;
        self.pieces[idx].verified = false;
        self.pieces[idx].set_all_blocks(BlockState::Missing);
        self.reserved_by.set(idx, None);
        self.reservation_time.set(idx, None);
        proof {
            lemma_wf_same_shape(&before, self);
            assert(self.timed_view() =~= before.timed_view().update(index as int, false));
        }
        Ok(())
    }
}

} // verus!

verus! {

impl PieceManager {
    /// Picks a piece for `peer_id` among those its bitfield has and we still
    /// need: in sequential mode the lowest-index one, otherwise the first of
    /// highest priority and then fewest peers having it. Pieces another
    /// peer reserved are skipped unless `allow_reserved`; when not allowed,
    /// the chosen piece is reserved for `peer_id`.
    pub fn reserve_piece_for_peer(&mut self, peer_id: u64, bitfield: &[u8], allow_reserved: bool) -> (r:
        Option<u32>)
        requires
            old(self).wf(),
        ensures
            final(self).wf(),
            final(self).same_pieces(old(self)),
            bitfield@.len() != old(self).spec_bitfield_len() ==> r is None,
            bitfield@.len() == old(self).spec_bitfield_len() ==> {
                let cand = old(self).reservable_fn(bitfield@, allow_reserved);
                &&& (r is None <==> !exists|i: int| #[trigger] old(self).reservable(i, bitfield@, allow_reserved))
                &&& r matches Some(x) ==> if old(self).sequential_view() {
                    first_admitted(old(self).pieces_view().len() as int, cand, x as int)
                } else {
                    first_best(old(self).pieces_view(), old(self).availability_view(), cand, x as int)
                }
            },
            r matches Some(x) ==> (!allow_reserved ==> final(self).reserved_view() == old(self).reserved_view().update(
                x as int,
                Some(peer_id),
            ) && final(self).timed_view() == old(self).timed_view().update(x as int, true)),
            r is None || allow_reserved ==> *final(self) == *old(self),
    {
        if bitfield.len() != self.bitfield_len() {
            return None;
        }
        let n = self.pieces.len();
        let ghost cand = self.reservable_fn(bitfield@, allow_reserved);
        if self.sequential {
            let mut idx: usize = 0;
            while idx < n
                invariant
                    self.wf(),
                    *self == *old(self),
                    self.sequential,
                    n == self.pieces@.len(),
                    bitfield@.len() == (n + 7) / 8,
                    cand == old(self).reservable_fn(bitfield@, allow_reserved),
                    idx <= n,
                    forall|j: int| 0 <= j < idx ==> !#[trigger] self.reservable(j, bitfield@, allow_reserved),
                decreases n - idx,
            {
                let piece = &self.pieces[idx];
                if !piece.verified && piece.has_missing() && piece.wanted && bitfield_has(bitfield, idx)
                    && (allow_reserved || self.reserved_by[idx].is_none()) {
                    assert(self.reservable(idx as int, bitfield@, allow_reserved));
                    assert(first_admitted(n as int, cand, idx as int));
                    if !allow_reserved {
                        let ghost before = *self;
                        self.reserved_by.set(idx, Some(peer_id));
                        self.reservation_time.set(idx, Some(now()));
                        proof {
                            lemma_wf_same_shape(&before, self);
                            assert(self.timed_view() =~= before.timed_view().update(idx as int, true));
                        }
                    }
                    return Some(idx as u32);
                }
                idx = idx + 1;
            }
            return None;
        }
        let mut best: Option<usize> = None;
        let mut best_priority: u8 = 0;
        let mut best_rarity: u32 = u32::MAX;
        let mut idx: usize = 0;
        while idx < n
            invariant
                self.wf(),
                *self == *old(self),
                n == self.pieces@.len(),
                bitfield@.len() == (n + 7) / 8,
                cand == old(self).reservable_fn(bitfield@, allow_reserved),
                idx <= n,
                best is None ==> forall|j: int| 0 <= j < idx ==> !#[trigger] self.reservable(j, bitfield@, allow_reserved),
                best matches Some(b) ==> {
                    &&& b < idx
                    &&& self.reservable(b as int, bitfield@, allow_reserved)
                    &&& best_priority == self.pieces@[b as int].priority
                    &&& best_rarity == self.availability@[b as int]
                    &&& forall|j: int|
                        0 <= j < idx && #[trigger] self.reservable(j, bitfield@, allow_reserved) ==> !ranks_before(
                            self.pieces_view(),
                            self.availability_view(),
                            j,
                            b as int,
                        ) && (j < b ==> ranks_before(self.pieces_view(), self.availability_view(), b as int, j))
                },
            decreases n - idx,
        {
            let piece = &self.pieces[idx];
            if !piece.verified && piece.has_missing() && piece.wanted && bitfield_has(bitfield, idx)
                && (allow_reserved || self.reserved_by[idx].is_none()) {
                let rarity = self.availability[idx];
                let priority = piece.priority;
                if best.is_none() || priority > best_priority || (priority == best_priority && rarity
                    < best_rarity) {
                    best_priority = priority;
                    best_rarity = rarity;
                    best = Some(idx);
                }
            }
            idx = idx + 1;
        }
        match best {
            None => None,
            Some(b) => {
                assert(first_best(self.pieces_view(), self.availability_view(), cand, b as int));
                if !allow_reserved {
                    let ghost before = *self;
                    self.reserved_by.set(b, Some(peer_id));
                    self.reservation_time.set(b, Some(now()));
                    proof {
                        lemma_wf_same_shape(&before, self);
                        assert(self.timed_view() =~= before.timed_view().update(b as int, true));
                    }
                }
                Some(b as u32)
            },
        }
    }

    /// Hands `peer_id` the best piece among those whose reservation by
    /// another peer `stale` marks as stale (same ranking as
    /// `reserve_piece_for_peer`), reserving it for `peer_id` at `now`.
    fn take_stale_piece(&mut self, peer_id: u64, bitfield: &[u8], stale: &[bool], now: Instant) -> (r:
        Option<u32>)
        requires
            old(self).wf(),
            bitfield@.len() == old(self).spec_bitfield_len(),
            stale@.len() == old(self).pieces_view().len(),
        ensures
            old(self).steal_outcome(final(self), peer_id, bitfield@, stale@, r),
    {
        let n = self.pieces.len();
        let ghost cand = self.stealable_fn(peer_id, bitfield@, stale@);
        let mut best: Option<usize> = None;
        let mut best_priority: u8 = 0;
        let mut best_rarity: u32 = u32::MAX;
        let mut idx: usize = 0;
        while idx < n
            invariant
                self.wf(),
                n == self.pieces@.len(),
                n == stale@.len(),
                bitfield@.len() == (n + 7) / 8,
                cand == old(self).stealable_fn(peer_id, bitfield@, stale@),
                *self == *old(self),
                idx <= n,
                best is None ==> forall|j: int| 0 <= j < idx ==> !#[trigger] self.stealable(j, peer_id, bitfield@, stale@),
                best matches Some(b) ==> {
                    &&& b < idx
                    &&& self.stealable(b as int, peer_id, bitfield@, stale@)
                    &&& best_priority == self.pieces@[b as int].priority
                    &&& best_rarity == self.availability@[b as int]
                    &&& forall|j: int|
                        0 <= j < idx && #[trigger] self.stealable(j, peer_id, bitfield@, stale@) ==> !ranks_before(
                            self.pieces_view(),
                            self.availability_view(),
                            j,
                            b as int,
                        ) && (j < b ==> ranks_before(self.pieces_view(), self.availability_view(), b as int, j))
                },
            decreases n - idx,
        {
            let piece = &self.pieces[idx];
            let other_owner = match self.reserved_by[idx] {
                Some(owner) => owner != peer_id,
                None => false,
            };
            let timed = self.reservation_time[idx].is_some();
            proof {
                assert(self.timed_view()[idx as int] == self.reservation_time@[idx as int] is Some);
            }
            if !piece.verified && piece.has_missing() && piece.wanted && bitfield_has(bitfield, idx)
                && other_owner && timed && stale[idx] {
                let rarity = self.availability[idx];
                let priority = piece.priority;
                if best.is_none() || priority > best_priority || (priority == best_priority && rarity
                    < best_rarity) {
                    best_priority = priority;
                    best_rarity = rarity;
                    best = Some(idx);
                }
            }
            idx = idx + 1;
        }
        match best {
            None => None,
            Some(b) => {
                assert(first_best(self.pieces_view(), self.availability_view(), cand, b as int));
                let ghost before = *self;
                self.reserved_by.set(b, Some(peer_id));
                self.reservation_time.set(b, Some(now));
                proof {
                    lemma_wf_same_shape(&before, self);
                    assert(self.timed_view() =~= before.timed_view().update(b as int, true));
                }
                Some(b as u32)
            },
        }
    }

    /// Hands `peer_id` the best piece among those reserved by another peer
    /// whose reservation is older than `threshold` nanoseconds, given
    /// how old each timed reservation is (`elapsed`); it is reserved for
    /// `peer_id` at `now`.
    pub fn select_stale_piece(
        &mut self,
        peer_id: u64,
        bitfield: &[u8],
        elapsed: &[Option<u128>],
        threshold: u128,
        now: Instant,
    ) -> (r: Option<u32>)
        requires
            old(self).wf(),
            bitfield@.len() == old(self).spec_bitfield_len(),
            elapsed@.len() == old(self).pieces_view().len(),
        ensures
            old(self).steal_outcome(final(self), peer_id, bitfield@, stale_flags(elapsed@, threshold), r),
    {
        let mut stale: Vec<bool> = Vec::new();
        let mut idx: usize = 0;
        while idx < elapsed.len()
            invariant
                idx <= elapsed@.len(),
                stale@ == stale_flags(elapsed@.subrange(0, idx as int), threshold),
            decreases elapsed@.len() - idx,
        {
            let flag = match elapsed[idx] {
                Some(e) => e > threshold,
                None => false,
            };
            stale.push(flag);
            idx = idx + 1;
            assert(stale@ =~= stale_flags(elapsed@.subrange(0, idx as int), threshold));
        }
        assert(elapsed@.subrange(0, idx as int) =~= elapsed@);
        self.take_stale_piece(peer_id, bitfield, stale.as_slice(), now)
    }

    /// Steal a piece that has been reserved by another peer for longer than
    /// `stale_threshold`. Returns the piece index if a stale reservation was
    /// found and reassigned to `peer_id`. The outcome is that of
    /// `select_stale_piece` with the age of exactly the timed reservations,
    /// read from the clock, and the threshold in nanoseconds.
    pub fn steal_stale_piece(&mut self, peer_id: u64, bitfield: &[u8], stale_threshold: Duration) -> (r:
        Option<u32>)
        requires
            old(self).wf(),
        ensures
            final(self).wf(),
            bitfield@.len() != old(self).spec_bitfield_len() ==> r is None && *final(self) == *old(self),
            bitfield@.len() == old(self).spec_bitfield_len() ==> exists|elapsed: Seq<Option<u128>>, t: u128|
                elapsed.len() == old(self).pieces_view().len() && t == duration_as_nanos(stale_threshold) && (forall|i: int|
                    0 <= i < elapsed.len() ==> (#[trigger] elapsed[i] is Some) == old(self).timed_view()[i])
                    && #[trigger] old(self).steal_outcome(
                    final(self),
                    peer_id,
                    bitfield@,
                    stale_flags(elapsed, t),
                    r,
                ),
    {
        if bitfield.len() != self.bitfield_len() {
            return None;
        }
        let now = now();
        let threshold = duration_nanos(&stale_threshold);
        let n = self.pieces.len();
        let mut elapsed: Vec<Option<u128>> = Vec::new();
        let mut idx: usize = 0;
        while idx < n
            invariant
                self.wf(),
                n == self.reservation_time@.len(),
                idx <= n,
                elapsed@.len() == idx,
                forall|i: int| 0 <= i < idx ==> (#[trigger] elapsed@[i] is Some) == self.timed_view()[i],
            decreases n - idx,
        {
            let e = match &self.reservation_time[idx] {
                Some(since) => Some(elapsed_nanos(since, &now)),
                None => None,
            };
            proof {
                assert(self.timed_view()[idx as int] == self.reservation_time@[idx as int] is Some);
            }
            elapsed.push(e);
            idx = idx + 1;
        }
        let ghost before = *self;
        let r = self.select_stale_piece(peer_id, bitfield, elapsed.as_slice(), threshold, now);
        assert(before.steal_outcome(self, peer_id, bitfield@, stale_flags(elapsed@, threshold), r));
        r
    }

    /// The next block to request from piece `index` (see `next_block`); a
    /// missing block becomes requested.
    #[verifier::spinoff_prover]
    pub fn next_request_for_piece(&mut self, index: u32, allow_duplicate: bool) -> (r: Option<BlockRequest>)
        requires
            old(self).wf(),
        ensures
            final(self).wf(),
            index >= old(self).pieces_view().len() ==> r is None && *final(self) == *old(self),
            index < old(self).pieces_view().len() ==> {
                let p = old(self).pieces_view()[index as int];
                match next_block(p, allow_duplicate) {
                    Some(b) if p.wanted_view() => {
                        &&& r == Some(block_request(p, b))
                        &&& final(self).availability_view() == old(self).availability_view()
                        &&& final(self).reserved_view() == old(self).reserved_view()
                        &&& final(self).timed_view() == old(self).timed_view()
                        &&& final(self).sequential_view() == old(self).sequential_view()
                        &&& pieces_updated(
                            old(self).pieces_view(),
                            final(self).pieces_view(),
                            index as int,
                            p.blocks_view().update(b, BlockState::Requested),
                            p.priority_view(),
                            p.wanted_view(),
                            p.verified_view(),
                        )
                    },
                    _ => r is None && *final(self) == *old(self),
                }
            },
    {
        let idx = index as usize;
        if idx >= self.pieces.len() {
            return None;
        }
        if !self.pieces[idx].wanted {
            return None;
        }
        let ghost p = self.pieces@[idx as int];
        let block_index = match self.pieces[idx].first_block_in(BlockState::Missing) {
            Some(b) => b,
            None => {
                if !allow_duplicate {
                    return None;
                }
                match self.pieces[idx].first_block_in(BlockState::Requested) {
                    Some(b) => b,
                    None => {
                        return None;
                    },
                }
            },
        };
        assert(next_block(p, allow_duplicate) == Some(block_index as int));
        proof {
            assert(p.wf());
        }
        let length = block_length_of(self.pieces[idx].length, block_index);
        let begin = block_index as u32 * BLOCK_LEN;
        let piece_index = self.pieces[idx].index;
        let ghost before = *self;
        if self.pieces[idx].blocks[block_index] == BlockState::Missing {
            self.pieces[idx].blocks.set(block_index, BlockState::Requested);
        }
        proof {
            lemma_wf_same_shape(&before, self);
            assert(self.pieces@[idx as int].blocks@ =~= p.blocks@.update(
                block_index as int,
                BlockState::Requested,
            ));
            assert(pieces_updated(
                before.pieces@,
                self.pieces@,
                idx as int,
                p.blocks@.update(block_index as int, BlockState::Requested),
                p.priority,
                p.wanted,
                p.verified,
            ));
        }
        let r = BlockRequest { index: piece_index, begin, length };
        assert(r == block_request(p, block_index as int));
        Some(r)
    }

    /// The rarest piece the bitfield has that still has a block to request
    /// (the first on ties, and never one every peer counter saturated), and
    /// its first missing block, which becomes requested.
    #[verifier::rlimit(40)]
    pub fn select_next_request(&mut self, bitfield: &[u8]) -> (r: Option<BlockRequest>)
        requires
            old(self).wf(),
        ensures
            final(self).wf(),
            ({
                let ps = old(self).pieces_view();
                let av = old(self).availability_view();
                if bitfield@.len() != old(self).spec_bitfield_len() || !exists|i: int| #[trigger] request_candidate(ps, av, bitfield@, i) {
                    r is None && *final(self) == *old(self)
                } else {
                    exists|x: int|
                        {
                            &&& #[trigger] request_candidate(ps, av, bitfield@, x)
                            &&& forall|j: int| #[trigger] request_candidate(ps, av, bitfield@, j) ==> av[x] <= av[j] && (j < x ==> av[x] < av[j])
                            &&& first_index_of(ps[x].blocks_view(), BlockState::Missing) matches Some(b) && {
                                &&& r == Some(block_request(ps[x], b))
                                &&& final(self).availability_view() == av
                                &&& final(self).reserved_view() == old(self).reserved_view()
                                &&& final(self).timed_view() == old(self).timed_view()
                                &&& final(self).sequential_view() == old(self).sequential_view()
                                &&& pieces_updated(
                                    ps,
                                    final(self).pieces_view(),
                                    x,
                                    ps[x].blocks_view().update(b, BlockState::Requested),
                                    ps[x].priority_view(),
                                    ps[x].wanted_view(),
                                    ps[x].verified_view(),
                                )
                            }
                        }
                }
            }),
    {
        let ghost ps = self.pieces_view();
        let ghost av = self.availability_view();
        if bitfield.len() != self.bitfield_len() {
            return None;
        }
        let n = self.pieces.len();
        let mut best: Option<usize> = None;
        let mut best_rarity: u32 = u32::MAX;
        let mut idx: usize = 0;
        while idx < n
            invariant
                self.wf(),
                ps == self.pieces_view(),
                av == self.availability_view(),
                n == self.pieces@.len(),
                bitfield@.len() == (n + 7) / 8,
                idx <= n,
                best is None ==> best_rarity == u32::MAX && forall|j: int| 0 <= j < idx ==> !#[trigger] request_candidate(ps, av, bitfield@, j),
                best matches Some(b) ==> {
                    &&& b < idx
                    &&& request_candidate(ps, av, bitfield@, b as int)
                    &&& best_rarity == av[b as int]
                    &&& forall|j: int| 0 <= j < idx && #[trigger] request_candidate(ps, av, bitfield@, j) ==> av[b as int] <= av[j] && (j
                        < b ==> av[b as int] < av[j])
                },
            decreases n - idx,
        {
            let piece = &self.pieces[idx];
            assert(ps[idx as int] == self.pieces@[idx as int]);

            if !piece.verified && piece.has_missing() && bitfield_has(bitfield, idx) {
                let rarity = self.availability[idx];
                if rarity < best_rarity {
                    best_rarity = rarity;
                    best = Some(idx);
                }
            }
            idx = idx + 1;
        }
        let b_idx = match best {
            None => {
                return None;
            },
            Some(b) => b,
        };
        proof {
            lemma_first_index_props(self.pieces@[b_idx as int].blocks@, BlockState::Missing);
        }
        let block_index = match self.pieces[b_idx].first_block_in(BlockState::Missing) {
            Some(b) => b,
            None => {
                return None;
            },
        };
        proof {
            assert(self.pieces@[b_idx as int].wf());
        }
        let length = block_length_of(self.pieces[b_idx].length, block_index);
        let begin = block_index as u32 * BLOCK_LEN;
        let piece_index = self.pieces[b_idx].index;
        let ghost before = *self;
        self.pieces[b_idx].blocks.set(block_index, BlockState::Requested);
        proof {
            lemma_wf_same_shape(&before, self);
            assert(request_candidate(ps, av, bitfield@, b_idx as int));
        }
        Some(BlockRequest { index: piece_index, begin, length })
    }
}

} // verus!

verus! {

// ---------------------------------------------------------------------
// Building the piece table
// ---------------------------------------------------------------------

/// Where a piece lies in the content and how it is verified.
pub type PieceShape = (u64, u32, PieceHash);

/// The smallest power of two at least `n`, found by doubling from `p`.
pub open spec fn pow2_at_least_from(p: nat, n: nat) -> nat
    decreases (if n > p {
        n - p
    } else {
        0int
    }),
{
    if p == 0 || p >= n {
        p
    } else {
        pow2_at_least_from(2 * p, n)
    }
}

/// The size of the merkle tree over a file of `data_length` bytes that
/// fits in one piece: a power-of-two number of blocks, none if it exceeds
/// `u32`.
pub open spec fn spec_v2_tree_length(data_length: u32) -> Option<u32> {
    let blocks = spec_block_count(data_length as int);
    let leaves = pow2_at_least_from(1, blocks as nat);
    if leaves * 16384 > u32::MAX {
        None
    } else {
        Some((leaves * 16384) as u32)
    }
}

fn v2_tree_length(data_length: u32) -> (r: Option<u32>)
    ensures
        r == spec_v2_tree_length(data_length),
{
    let blocks = block_count(data_length);
    let mut p: usize = 1;
    while p < blocks
        invariant
            1 <= p <= 2 * 262144,
            blocks <= 262144,
            pow2_at_least_from(p as nat, blocks as nat) == pow2_at_least_from(1, blocks as nat),
        decreases 2 * 262144 - p,
    {
        p = p * 2;
    }
    if p > 262144 {
        return None;
    }
    (p as u32).checked_mul(BLOCK_LEN)
}

/// The hashes the piece layers list for `root`, from its first entry.
pub open spec fn first_layer(layers: Seq<([u8; 32], Vec<[u8; 32]>)>, root: [u8; 32]) -> Option<
    Seq<[u8; 32]>,
>
    decreases layers.len(),
{
    if layers.len() == 0 {
        None
    } else if layers[0].0@ == root@ {
        Some(layers[0].1@)
    } else {
        first_layer(layers.drop_first(), root)
    }
}

/// `ceil(len / piece_length)`.
pub open spec fn pieces_for(len: int, piece_length: int) -> int {
    (len + piece_length - 1) / piece_length
}

/// The piece roots of one file of a v2 tree: its own root when it fits in
/// one piece, else its layer from the piece layers.
pub open spec fn entry_roots(
    e: FileTreeEntry,
    layers: Seq<([u8; 32], Vec<[u8; 32]>)>,
    piece_length: u64,
) -> Option<Seq<[u8; 32]>> {
    match e.pieces_root {
        None => None,
        Some(root) => if e.length <= piece_length {
            Some(seq![root])
        } else {
            match first_layer(layers, root) {
                None => None,
                Some(hs) => if hs.len() != pieces_for(e.length as int, piece_length as int) {
                    None
                } else {
                    Some(hs)
                },
            }
        },
    }
}

/// The length of piece `j` of a file of `len` bytes.
pub open spec fn file_piece_len(len: int, piece_length: int, j: int) -> int {
    if len - j * piece_length < piece_length {
        len - j * piece_length
    } else {
        piece_length
    }
}

/// Piece `j` of one file of a v2 tree whose first piece starts at content
/// offset `off`.
pub open spec fn entry_piece(
    e: FileTreeEntry,
    roots: Seq<[u8; 32]>,
    piece_length: u64,
    off: int,
    j: int,
) -> PieceShape {
    let len = file_piece_len(e.length as int, piece_length as int, j) as u32;
    (
        (off + j * piece_length) as u64,
        len,
        PieceHash::Sha256 {
            root: roots[j],
            merkle_length: if e.length <= piece_length {
                spec_v2_tree_length(e.length as u32).unwrap()
            } else {
                piece_length as u32
            },
            data_length: len,
        },
    )
}

/// The pieces of one file of a v2 tree starting at content offset `off`,
/// after `base` earlier pieces.
pub open spec fn entry_shapes(
    e: FileTreeEntry,
    roots: Seq<[u8; 32]>,
    piece_length: u64,
    off: int,
    base: int,
) -> Option<Seq<PieceShape>> {
    let k = roots.len() as int;
    if base + k - 1 > u32::MAX || off + (k - 1) * piece_length > u64::MAX {
        None
    } else if e.length <= piece_length && spec_v2_tree_length(e.length as u32) is None {
        None
    } else {
        Some(Seq::new(k as nat, |j: int| entry_piece(e, roots, piece_length, off, j)))
    }
}

/// The pieces of a v2 file tree and the content offset after its last
/// file: each file with content starts on a piece boundary; empty files
/// take no pieces.
pub open spec fn spec_v2_shapes(
    tree: Seq<FileTreeEntry>,
    layers: Seq<([u8; 32], Vec<[u8; 32]>)>,
    piece_length: u64,
) -> Option<(Seq<PieceShape>, int)>
    decreases tree.len(),
{
    if tree.len() == 0 {
        Some((seq![], 0))
    } else {
        match spec_v2_shapes(tree.drop_last(), layers, piece_length) {
            None => None,
            Some((prev, off)) => {
                let e = tree.last();
                if e.length == 0 {
                    Some((prev, off))
                } else {
                    match entry_roots(e, layers, piece_length) {
                        None => None,
                        Some(roots) => match entry_shapes(
                            e,
                            roots,
                            piece_length,
                            off,
                            prev.len() as int,
                        ) {
                            None => None,
                            Some(shapes) => if off + aligned_len(e.length as int, piece_length as int)
                                > u64::MAX {
                                None
                            } else {
                                Some(
                                    (
                                        prev + shapes,
                                        off + aligned_len(e.length as int, piece_length as int),
                                    ),
                                )
                            },
                        },
                    }
                }
            },
        }
    }
}

/// The v1 pieces: one per SHA-1 hash, all of the piece length but the
/// last, which holds the rest of the content. In a hybrid torrent each is
/// paired with the v2 piece at the same offset.
pub open spec fn spec_v1_shapes(meta: TorrentMeta, piece_length: u32, v2: Option<Seq<PieceShape>>) -> Option<
    Seq<PieceShape>,
> {
    let n = meta.info.pieces@.len() as int;
    let total = spec_total_length(meta.info);
    let min_total = (n - 1) * piece_length;
    let last = total - min_total;
    if n == 0 || total > u64::MAX || total == 0 || min_total > u64::MAX || total < min_total
        || last == 0 || last > piece_length {
        None
    } else {
        match v2 {
            None => Some(
                Seq::new(
                    n as nat,
                    |i: int|
                        (
                            (i * piece_length) as u64,
                            if i == n - 1 {
                                last as u32
                            } else {
                                piece_length
                            },
                            PieceHash::Sha1(meta.info.pieces@[i]),
                        ),
                ),
            ),
            Some(v) => if v.len() != n || exists|i: int|
                0 <= i < n && ((#[trigger] v[i]).0 != i * piece_length || !(v[i].2 is Sha256)) {
                None
            } else {
                Some(
                    Seq::new(
                        n as nat,
                        |i: int|
                            (
                                (i * piece_length) as u64,
                                if i == n - 1 {
                                    last as u32
                                } else {
                                    piece_length
                                },
                                PieceHash::Hybrid {
                                    sha1: meta.info.pieces@[i],
                                    sha256: v[i].2->root,
                                    merkle_length: v[i].2->Sha256_merkle_length,
                                    v2_data_length: v[i].2->data_length,
                                },
                            ),
                    ),
                )
            },
        }
    }
}

/// The number of blocks of all the pieces.
pub open spec fn shapes_blocks(shapes: Seq<PieceShape>) -> int
    decreases shapes.len(),
{
    if shapes.len() == 0 {
        0
    } else {
        shapes_blocks(shapes.drop_last()) + spec_block_count(shapes.last().1 as int)
    }
}

/// The lengths of some pieces, added up.
pub open spec fn shape_lengths(s: Seq<PieceShape>) -> int
    decreases s.len(),
{
    if s.len() == 0 {
        0
    } else {
        shape_lengths(s.drop_last()) + s.last().1
    }
}

proof fn lemma_full_prefix(s: Seq<PieceShape>, pl: int, k: int)
    requires
        0 <= k <= s.len(),
        forall|i: int| 0 <= i < k ==> (#[trigger] s[i]).1 == pl,
    ensures
        shape_lengths(s.take(k)) == k * pl,
    decreases k,
{
    if k > 0 {
        lemma_full_prefix(s, pl, k - 1);
        assert(s.take(k).drop_last() =~= s.take(k - 1));
        assert(s.take(k).last() == s[k - 1]);
        assert(s[k - 1].1 == pl);
        assert((k - 1) * pl + pl == k * pl) by (nonlinear_arith);
    } else {
        assert(s.take(0).len() == 0);
        assert(0 * pl == 0);
    }
}

/// A v1 piece table covers the payload exactly: piece `i` starts at
/// `i * piece_length`, every piece but the last is `piece_length` long,
/// and the lengths add up to the total length of the files.
pub proof fn lemma_v1_table_covers_payload(meta: TorrentMeta, piece_length: u32)
    requires
        spec_v1_shapes(meta, piece_length, None) is Some,
    ensures
        ({
            let s = spec_v1_shapes(meta, piece_length, None).unwrap();
            &&& s.len() == meta.info.pieces@.len()
            &&& forall|i: int| 0 <= i < s.len() ==> (#[trigger] s[i]).0 == i * piece_length
            &&& forall|i: int| 0 <= i < s.len() - 1 ==> (#[trigger] s[i]).1 == piece_length
            &&& shape_lengths(s) == spec_total_length(meta.info)
        }),
{
    let s = spec_v1_shapes(meta, piece_length, None).unwrap();
    let n = meta.info.pieces@.len() as int;
    let pl = piece_length as int;
    let total = spec_total_length(meta.info);
    assert forall|i: int| 0 <= i < s.len() implies (#[trigger] s[i]).0 == i * piece_length by {
        assert(0 <= i * pl <= (n - 1) * pl) by (nonlinear_arith)
            requires
                0 <= i <= n - 1,
                pl >= 0,
        ;
    }
    lemma_full_prefix(s, pl, n - 1);
    assert(s.drop_last() =~= s.take(n - 1));
}

/// The piece table of a torrent, or why it cannot be built. The piece
/// length must be positive, at most `MAX_PIECE_LENGTH` and, for v2, a
/// power of two of at least 16 KiB; the table must have between one and
/// `u32::MAX` pieces, and their blocks must be countable in `usize`.
pub open spec fn spec_piece_table(meta: TorrentMeta) -> Result<Seq<PieceShape>, Error> {
    let pl = meta.info.piece_length;
    if pl == 0 || pl > MAX_PIECE_LENGTH {
        Err(Error::InvalidPieceLength)
    } else {
        let v2_ok = pl >= 16384 && is_pow2(pl as nat);
        let built: Result<Seq<PieceShape>, Error> = if meta.meta_version == 1 {
            match spec_v1_shapes(meta, pl as u32, None) {
                Some(s) => Ok(s),
                None => Err(Error::InvalidPieces),
            }
        } else if meta.meta_version == 2 || meta.meta_version == 3 {
            if !v2_ok {
                Err(Error::InvalidPieceLength)
            } else {
                match spec_v2_shapes(meta.info.file_tree@, meta.piece_layers@, pl) {
                    None => Err(Error::InvalidPieces),
                    Some((v2, _)) => if meta.meta_version == 2 {
                        Ok(v2)
                    } else {
                        match spec_v1_shapes(meta, pl as u32, Some(v2)) {
                            Some(s) => Ok(s),
                            None => Err(Error::InvalidPieces),
                        }
                    },
                }
            }
        } else {
            Err(Error::InvalidPieces)
        };
        match built {
            Err(e) => Err(e),
            Ok(s) => if s.len() == 0 || s.len() > u32::MAX || shapes_blocks(s) > usize::MAX {
                Err(Error::InvalidPieces)
            } else {
                Ok(s)
            },
        }
    }
}

/// The shape of a built piece.
pub open spec fn shape_of(p: Piece) -> PieceShape {
    (p.offset_view(), p.length_view(), p.hash_view())
}

/// A piece just built: at position `i`, nothing received, normal
/// priority, wanted, unverified.
pub open spec fn fresh_piece(p: Piece, i: int) -> bool {
    &&& p.index_view() == i as u32
    &&& p.blocks_view() == Seq::new(spec_block_count(p.length_view() as int) as nat, |b: int| BlockState::Missing)
    &&& p.priority_view() == PRIORITY_NORMAL
    &&& p.wanted_view()
    &&& !p.verified_view()
}

proof fn lemma_pow2_at_least(p: nat, n: nat)
    requires
        p >= 1,
    ensures
        pow2_at_least_from(p, n) >= p,
        pow2_at_least_from(p, n) >= n,
    decreases (if n > p {
        n - p
    } else {
        0int
    }),
{
    if p < n {
        lemma_pow2_at_least(2 * p, n);
    }
}

fn new_piece(index: usize, hash: PieceHash, offset: u64, length: u32) -> (r: Piece)
    requires
        length > 0,
    ensures
        r.wf(),
        fresh_piece(r, index as int),
        shape_of(r) == (offset, length, hash),
{
    let nb = block_count(length);
    let mut blocks: Vec<BlockState> = Vec::new();
    let mut b: usize = 0;
    while b < nb
        invariant
            b <= nb,
            blocks@ == Seq::new(b as nat, |k: int| BlockState::Missing),
        decreases nb - b,
    {
        blocks.push(BlockState::Missing);
        b = b + 1;
        assert(blocks@ =~= Seq::new(b as nat, |k: int| BlockState::Missing));
    }
    #[verifier::truncate]
    let index32 = index as u32;
    Piece {
        index: index32,
        hash,
        offset,
        length,
        blocks,
        priority: PRIORITY_NORMAL,
        wanted: true,
        verified: false,
    }
}

} // verus!

verus! {

/// The shapes of built pieces.
pub open spec fn shapes_of(ps: Seq<Piece>) -> Seq<PieceShape> {
    ps.map_values(|p: Piece| shape_of(p))
}

/// Built pieces match `shapes` and are fresh.
pub open spec fn built_as(ps: Seq<Piece>, shapes: Seq<PieceShape>) -> bool {
    &&& ps.len() == shapes.len()
    &&& forall|i: int|
        0 <= i < ps.len() ==> shape_of(#[trigger] ps[i]) == shapes[i] && fresh_piece(ps[i], i)
            && ps[i].wf()
}

fn is_sha256(h: &PieceHash) -> (r: bool)
    ensures
        r == (*h is Sha256),
{
    match h {
        PieceHash::Sha256 { .. } => true,
        _ => false,
    }
}

impl PieceManager {
    #[verifier::loop_isolation(false)]
    fn build_v1_pieces(meta: &TorrentMeta, piece_length: u32, v2_pieces: Option<&[Piece]>) -> (r: Result<
        Vec<Piece>,
        Error,
    >)
        requires
            piece_length > 0,
        ensures
            match spec_v1_shapes(
                *meta,
                piece_length,
                match v2_pieces {
                    Some(v) => Some(shapes_of(v@)),
                    None => None,
                },
            ) {
                None => r == Err::<Vec<Piece>, Error>(Error::InvalidPieces),
                Some(s) => r matches Ok(ps) && built_as(ps@, s),
            },
    {
        let ghost v2 = match v2_pieces {
            Some(v) => Some(shapes_of(v@)),
            None => None,
        };
        let piece_count = meta.info.pieces.len();
        if piece_count == 0 {
            return Err(Error::InvalidPieces);
        }
        let total_length = match meta.info.checked_total_length() {
            Some(t) => t,
            None => {
                return Err(Error::InvalidPieces);
            },
        };
        assert(total_length == spec_total_length(meta.info));
        if total_length == 0 {
            return Err(Error::InvalidPieces);
        }
        let min_total = match ((piece_count - 1) as u64).checked_mul(piece_length as u64) {
            Some(m) => m,
            None => {
                return Err(Error::InvalidPieces);
            },
        };
        if total_length < min_total {
            return Err(Error::InvalidPieces);
        }
        let last_len = total_length - min_total;
        if last_len == 0 || last_len > piece_length as u64 {
            return Err(Error::InvalidPieces);
        }
        if let Some(v) = v2_pieces {
            if v.len() != piece_count {
                return Err(Error::InvalidPieces);
            }
        }
        let ghost n = piece_count as int;
        let mut pieces: Vec<Piece> = Vec::new();
        let mut index: usize = 0;
        while index < piece_count
            invariant
                index <= piece_count,
                piece_count == meta.info.pieces@.len(),
                pieces@.len() == index,
                forall|j: int|
                    0 <= j < index ==> shape_of(#[trigger] pieces@[j]) == (
                        (j * piece_length) as u64,
                        if j == n - 1 {
                            last_len as u32
                        } else {
                            piece_length
                        },
                        match v2 {
                            None => PieceHash::Sha1(meta.info.pieces@[j]),
                            Some(v) => PieceHash::Hybrid {
                                sha1: meta.info.pieces@[j],
                                sha256: v[j].2->root,
                                merkle_length: v[j].2->Sha256_merkle_length,
                                v2_data_length: v[j].2->data_length,
                            },
                        },
                    ) && fresh_piece(pieces@[j], j) && pieces@[j].wf(),
                v2 matches Some(v) ==> forall|j: int|
                    0 <= j < index ==> (#[trigger] v[j]).0 == j * piece_length && v[j].2 is Sha256,
            decreases piece_count - index,
        {
            let length = if index + 1 == piece_count {
                last_len as u32
            } else {
                piece_length
            };
            assert(index * piece_length <= min_total) by (nonlinear_arith)
                requires
                    index < piece_count,
                    min_total == (piece_count - 1) * piece_length,
            ;
            let offset = index as u64 * piece_length as u64;
            let hash = match v2_pieces {
                None => PieceHash::Sha1(meta.info.pieces[index]),
                Some(v) => {
                    if v[index].offset != offset {
                        assert(shapes_of(v@)[index as int].0 != index * piece_length);
                        return Err(Error::InvalidPieces);
                    }
                    match v[index].hash {
                        PieceHash::Sha256 { root, merkle_length, data_length } => PieceHash::Hybrid {
                            sha1: meta.info.pieces[index],
                            sha256: root,
                            merkle_length,
                            v2_data_length: data_length,
                        },
                        _ => {
                            assert(!(shapes_of(v@)[index as int].2 is Sha256));
                            return Err(Error::InvalidPieces);
                        },
                    }
                },
            };
            let piece = new_piece(index, hash, offset, length);
            pieces.push(piece);
            index = index + 1;
        }
        proof {
            let total = spec_total_length(meta.info);
            assert(total == total_length);
            assert(min_total == (n - 1) * piece_length);
            if let Some(v) = v2 {
                assert(v.len() == n);
                assert(!exists|i: int|
                    0 <= i < n && ((#[trigger] v[i]).0 != i * piece_length || !(v[i].2 is Sha256)));
            }
            assert(spec_v1_shapes(*meta, piece_length, v2) is Some);
            let s = spec_v1_shapes(*meta, piece_length, v2).unwrap();
            assert forall|i: int| 0 <= i < pieces@.len() implies shape_of(#[trigger] pieces@[i])
                == s[i] && fresh_piece(pieces@[i], i) && pieces@[i].wf() by {}
        }
        Ok(pieces)
    }
}

} // verus!

verus! {

proof fn lemma_first_layer_skip(s: Seq<([u8; 32], Vec<[u8; 32]>)>, root: [u8; 32], i: int)
    requires
        0 <= i <= s.len(),
        forall|j: int| 0 <= j < i ==> (#[trigger] s[j]).0@ != root@,
    ensures
        first_layer(s, root) == first_layer(s.skip(i), root),
    decreases i,
{
    if i == 0 {
        assert(s.skip(0) =~= s);
    } else {
        lemma_first_layer_skip(s, root, i - 1);
        assert(s.skip(i - 1)[0] == s[i - 1]);
        assert(s.skip(i - 1).drop_first() =~= s.skip(i));
    }
}

proof fn lemma_v2_none_extends(
    tree: Seq<FileTreeEntry>,
    layers: Seq<([u8; 32], Vec<[u8; 32]>)>,
    pl: u64,
    t: int,
)
    requires
        0 <= t <= tree.len(),
        spec_v2_shapes(tree.take(t), layers, pl) is None,
    ensures
        spec_v2_shapes(tree, layers, pl) is None,
    decreases tree.len() - t,
{
    if t < tree.len() {
        assert(tree.take(t + 1).drop_last() =~= tree.take(t));
        lemma_v2_none_extends(tree, layers, pl, t + 1);
    } else {
        assert(tree.take(t) =~= tree);
    }
}

fn find_layer(layers: &Vec<([u8; 32], Vec<[u8; 32]>)>, root: &[u8; 32]) -> (r: Option<usize>)
    ensures
        match first_layer(layers@, *root) {
            Some(hs) => r matches Some(k) && k < layers@.len() && layers@[k as int].1@ == hs,
            None => r is None,
        },
{
    let mut i: usize = 0;
    while i < layers.len()
        invariant
            i <= layers@.len(),
            forall|j: int| 0 <= j < i ==> (#[trigger] layers@[j]).0@ != root@,
        decreases layers@.len() - i,
    {
        if eq32(&layers[i].0, root) {
            proof {
                lemma_first_layer_skip(layers@, *root, i as int);
                assert(layers@.skip(i as int)[0] == layers@[i as int]);
            }
            return Some(i);
        }
        i = i + 1;
    }
    proof {
        lemma_first_layer_skip(layers@, *root, i as int);
    }
    None
}

fn ceil_div(len: u64, piece_length: u64) -> (r: u64)
    requires
        piece_length > 0,
    ensures
        r == pieces_for(len as int, piece_length as int),
        r * piece_length == aligned_len(len as int, piece_length as int),
{
    let q = len / piece_length;
    let rem = len % piece_length;
    assert(rem != 0 ==> q < u64::MAX) by (nonlinear_arith)
        requires
            piece_length > 0,
            q == len / piece_length,
            rem == len % piece_length,
    ;
    let r = if rem == 0 {
        q
    } else {
        q + 1
    };
    assert(r as int == (len as int + piece_length as int - 1) / (piece_length as int)) by (nonlinear_arith)
        requires
            piece_length > 0,
            q == len / piece_length,
            rem == len % piece_length,
            rem == 0 ==> r == q,
            rem != 0 ==> r == q + 1,
    ;
    r
}

proof fn lemma_piece_within_file(len: int, pl: int, j: int, k: int)
    requires
        pl > 0,
        len > 0,
        0 <= j < k,
        k == if len <= pl {
            1
        } else {
            pieces_for(len, pl)
        },
    ensures
        j * pl < len,
        0 < file_piece_len(len, pl, j) <= pl,
        j * pl <= (k - 1) * pl,
{
    if len <= pl {
        assert(j == 0);
    } else {
        assert(j * pl < len && j * pl <= (k - 1) * pl) by (nonlinear_arith)
            requires
                pl > 0,
                0 <= j < k,
                k == (len + pl - 1) / pl,
        ;
    }
}

impl PieceManager {
    #[verifier::loop_isolation(false)]
    #[verifier::rlimit(80)]
    #[verifier::spinoff_prover]
    fn build_v2_pieces(meta: &TorrentMeta, piece_length: u32) -> (r: Result<Vec<Piece>, Error>)
        ensures
            piece_length < 16384 || !is_pow2(piece_length as nat) ==> r == Err::<Vec<Piece>, Error>(
                Error::InvalidPieceLength,
            ),
            piece_length >= 16384 && is_pow2(piece_length as nat) ==> match spec_v2_shapes(
                meta.info.file_tree@,
                meta.piece_layers@,
                piece_length as u64,
            ) {
                None => r == Err::<Vec<Piece>, Error>(Error::InvalidPieces),
                Some((s, _)) => r matches Ok(ps) && built_as(ps@, s),
            },
    {
        if piece_length < 16384 || !is_power_of_two(piece_length) {
            return Err(Error::InvalidPieceLength);
        }
        let pl = piece_length as u64;
        let tree = &meta.info.file_tree;
        let layers = &meta.piece_layers;
        let mut pieces: Vec<Piece> = Vec::new();
        let mut file_offset: u64 = 0;
        let mut t: usize = 0;
        while t < tree.len()
            invariant
                t <= tree@.len(),
                pl == piece_length,
                pl >= 16384,
                spec_v2_shapes(tree@.take(t as int), layers@, pl) == Some(
                    (shapes_of(pieces@), file_offset as int),
                ),
                built_as(pieces@, shapes_of(pieces@)),
            decreases tree@.len() - t,
        {
            let ghost before = pieces@;
            let entry = &tree[t];
            proof {
                assert(tree@.take(t + 1).drop_last() =~= tree@.take(t as int));
                assert(tree@.take(t + 1).last() == tree@[t as int]);
            }
            if entry.length == 0 {
                t = t + 1;
                continue;
            }
            let root = match entry.pieces_root {
                Some(r) => r,
                None => {
                    proof {
                        lemma_v2_none_extends(tree@, layers@, pl, t + 1);
                    }
                    return Err(Error::InvalidPieces);
                },
            };
            let mut roots: Vec<[u8; 32]> = Vec::new();
            if entry.length <= pl {
                roots.push(root);
                assert(roots@ =~= seq![root]);
            } else {
                let k = match find_layer(layers, &root) {
                    Some(k) => k,
                    None => {
                        proof {
                            lemma_v2_none_extends(tree@, layers@, pl, t + 1);
                        }
                        return Err(Error::InvalidPieces);
                    },
                };
                let hashes = &layers[k].1;
                if hashes.len() as u64 != ceil_div(entry.length, pl) {
                    proof {
                        lemma_v2_none_extends(tree@, layers@, pl, t + 1);
                    }
                    return Err(Error::InvalidPieces);
                }
                let mut x: usize = 0;
                while x < hashes.len()
                    invariant
                        x <= hashes@.len(),
                        roots@ == hashes@.subrange(0, x as int),
                    decreases hashes@.len() - x,
                {
                    roots.push(hashes[x]);
                    x = x + 1;
                    assert(roots@ =~= hashes@.subrange(0, x as int));
                }
                assert(roots@ =~= hashes@);
            }
            let ghost e = tree@[t as int];
            assert(entry_roots(e, layers@, pl) == Some(roots@));
            let k = roots.len();
            proof {
                if e.length > pl {
                    assert(pieces_for(e.length as int, pl as int) >= 1) by (nonlinear_arith)
                        requires
                            e.length > pl,
                            pl > 0,
                    ;
                }
            }
            assert(k >= 1);
            let ghost base = pieces@.len() as int;
            let ghost off = file_offset as int;
            let mut j: usize = 0;
            while j < k
                invariant
                    j <= k,
                    k == roots@.len(),
                    e == tree@[t as int],
                    e.length > 0,
                    k == if e.length <= pl {
                        1
                    } else {
                        pieces_for(e.length as int, pl as int)
                    },
                    off == file_offset,
                    pieces@.len() == base + j,
                    base == before.len(),
                    forall|i: int| 0 <= i < base ==> #[trigger] pieces@[i] == before[i],
                    forall|i: int|
                        0 <= i < j ==> shape_of(#[trigger] pieces@[base + i]) == entry_piece(
                            e,
                            roots@,
                            pl,
                            off,
                            i,
                        ) && fresh_piece(pieces@[base + i], base + i) && pieces@[base + i].wf(),
                    j > 0 ==> base + j - 1 <= u32::MAX && off + (j - 1) * pl <= u64::MAX,
                    j > 0 && e.length <= pl ==> spec_v2_tree_length(e.length as u32) is Some,
                decreases k - j,
            {
                proof {
                    lemma_piece_within_file(e.length as int, pl as int, j as int, k as int);
                }
                if pieces.len() > u32::MAX as usize {
                    proof {
                        lemma_v2_none_extends(tree@, layers@, pl, t + 1);
                    }
                    return Err(Error::InvalidPieces);
                }
                let within = j as u64 * pl;
                let remaining = entry.length - within;
                let length: u32 = if remaining < pl {
                    remaining as u32
                } else {
                    piece_length
                };
                let merkle_length = if entry.length <= pl {
                    assert(j == 0);
                    assert(within == 0) by (nonlinear_arith)
                        requires
                            within == j * pl,
                            j == 0,
                    ;
                    assert(remaining == entry.length);
                    assert(length as int == e.length);
                    match v2_tree_length(length) {
                        Some(m) => m,
                        None => {
                            proof {
                                lemma_v2_none_extends(tree@, layers@, pl, t + 1);
                            }
                            return Err(Error::InvalidPieces);
                        },
                    }
                } else {
                    piece_length
                };
                let offset = match file_offset.checked_add(within) {
                    Some(o) => o,
                    None => {
                        assert(off + (k - 1) * pl > u64::MAX);
                        proof {
                            lemma_v2_none_extends(tree@, layers@, pl, t + 1);
                        }
                        return Err(Error::InvalidPieces);
                    },
                };
                let piece = new_piece(
                    pieces.len(),
                    PieceHash::Sha256 { root: roots[j], merkle_length, data_length: length },
                    offset,
                    length,
                );
                pieces.push(piece);
                j = j + 1;
            }
            proof {
                assert(entry_shapes(e, roots@, pl, off, base) is Some);
            }
            let count = ceil_div(entry.length, pl);
            let step = match count.checked_mul(pl) {
                Some(s) => s,
                None => {
                    proof {
                        lemma_v2_none_extends(tree@, layers@, pl, t + 1);
                    }
                    return Err(Error::InvalidPieces);
                },
            };
            file_offset = match file_offset.checked_add(step) {
                Some(o) => o,
                None => {
                    proof {
                        lemma_v2_none_extends(tree@, layers@, pl, t + 1);
                    }
                    return Err(Error::InvalidPieces);
                },
            };
            proof {
                let shapes = entry_shapes(e, roots@, pl, off, base).unwrap();
                assert forall|i: int| 0 <= i < pieces@.len() implies #[trigger] shapes_of(pieces@)[i]
                    == (shapes_of(before) + shapes)[i] by {
                    if i >= base {
                        assert(pieces@[base + (i - base)] == pieces@[i]);
                    }
                }
                assert(shapes_of(pieces@) =~= shapes_of(before) + shapes);
                assert forall|i: int| 0 <= i < pieces@.len() implies shape_of(#[trigger] pieces@[i])
                    == shapes_of(pieces@)[i] && fresh_piece(pieces@[i], i) && pieces@[i].wf() by {
                    if i >= base {
                        assert(pieces@[base + (i - base)] == pieces@[i]);
                    }
                }
            }
            t = t + 1;
        }
        assert(tree@.take(t as int) =~= tree@);
        Ok(pieces)
    }
}

} // verus!

verus! {

/// A manager just built over the piece table `s`: no peer has any piece,
/// nothing is reserved, and selection is rarest-first.
pub open spec fn fresh_manager(m: PieceManager, s: Seq<PieceShape>) -> bool {
    &&& m.wf()
    &&& built_as(m.pieces_view(), s)
    &&& m.availability_view() == Seq::new(s.len(), |i: int| 0u32)
    &&& m.reserved_view() == Seq::new(s.len(), |i: int| None::<u64>)
    &&& m.timed_view() == Seq::new(s.len(), |i: int| false)
    &&& !m.sequential_view()
}

proof fn lemma_built_blocks(ps: Seq<Piece>, s: Seq<PieceShape>)
    requires
        built_as(ps, s),
    ensures
        sum_where(ps, any_piece(), blocks_of()) == shapes_blocks(s),
        shapes_of(ps) == s,
    decreases ps.len(),
{
    if ps.len() > 0 {
        let ps0 = ps.drop_last();
        let s0 = s.drop_last();
        assert forall|i: int| 0 <= i < ps0.len() implies shape_of(#[trigger] ps0[i]) == s0[i]
            && fresh_piece(ps0[i], i) && ps0[i].wf() by {
            assert(ps0[i] == ps[i]);
        }
        lemma_built_blocks(ps0, s0);
        let last = ps[ps.len() - 1];
        assert(shape_of(last) == s.last());
        assert(last.wf());
    }
    assert(shapes_of(ps) =~= s);
}

impl PieceManager {
    /// The piece manager of a torrent (see `spec_piece_table`).
    #[verifier::loop_isolation(false)]
    pub fn new(meta: &TorrentMeta) -> (r: Result<Self, Error>)
        ensures
            match spec_piece_table(*meta) {
                Err(e) => r == Err::<PieceManager, Error>(e),
                Ok(s) => r matches Ok(m) && fresh_manager(m, s),
            },
    {
        let piece_length = meta.info.piece_length;
        if piece_length == 0 || piece_length > MAX_PIECE_LENGTH {
            return Err(Error::InvalidPieceLength);
        }
        let piece_length = piece_length as u32;
        let pieces = if meta.meta_version == 1 {
            Self::build_v1_pieces(meta, piece_length, None)?
        } else if meta.meta_version == 2 {
            Self::build_v2_pieces(meta, piece_length)?
        } else if meta.meta_version == 3 {
            let v2_pieces = Self::build_v2_pieces(meta, piece_length)?;
            proof {
                let s2 = spec_v2_shapes(meta.info.file_tree@, meta.piece_layers@, piece_length as u64).unwrap().0;
                lemma_built_blocks(v2_pieces@, s2);
            }
            Self::build_v1_pieces(meta, piece_length, Some(v2_pieces.as_slice()))?
        } else {
            return Err(Error::InvalidPieces);
        };
        let ghost shapes: Seq<PieceShape> = if meta.meta_version == 1 {
            spec_v1_shapes(*meta, piece_length, None).unwrap()
        } else if meta.meta_version == 2 {
            spec_v2_shapes(meta.info.file_tree@, meta.piece_layers@, piece_length as u64).unwrap().0
        } else {
            spec_v1_shapes(
                *meta,
                piece_length,
                Some(spec_v2_shapes(meta.info.file_tree@, meta.piece_layers@, piece_length as u64).unwrap().0),
            ).unwrap()
        };
        assert(built_as(pieces@, shapes));
        proof {
            lemma_built_blocks(pieces@, shapes);
        }
        let piece_count = pieces.len();
        if piece_count == 0 || piece_count > u32::MAX as usize {
            return Err(Error::InvalidPieces);
        }
        let mut total_blocks: usize = 0;
        let mut i: usize = 0;
        while i < piece_count
            invariant
                piece_count == pieces@.len(),
                i <= piece_count,
                total_blocks == sum_where(pieces@.take(i as int), any_piece(), blocks_of()),
            decreases piece_count - i,
        {
            assert(pieces@.take(i + 1).drop_last() =~= pieces@.take(i as int));
            total_blocks = match total_blocks.checked_add(pieces[i].blocks.len()) {
                Some(t) => t,
                None => {
                    proof {
                        lemma_sum_where_prefix(pieces@, any_piece(), blocks_of(), i + 1);
                        lemma_built_blocks(pieces@, shapes);
                    }
                    return Err(Error::InvalidPieces);
                },
            };
            i = i + 1;
        }
        let mut availability: Vec<u32> = Vec::new();
        let mut reserved_by: Vec<Option<u64>> = Vec::new();
        let mut reservation_time: Vec<Option<Instant>> = Vec::new();
        let mut k: usize = 0;
        while k < piece_count
            invariant
                k <= piece_count,
                availability@ == Seq::new(k as nat, |i: int| 0u32),
                reserved_by@ == Seq::new(k as nat, |i: int| None::<u64>),
                reservation_time@.len() == k,
                forall|j: int| 0 <= j < k ==> #[trigger] reservation_time@[j] is None,
            decreases piece_count - k,
        {
            availability.push(0);
            reserved_by.push(None);
            reservation_time.push(None);
            k = k + 1;
            assert(availability@ =~= Seq::new(k as nat, |i: int| 0u32));
            assert(reserved_by@ =~= Seq::new(k as nat, |i: int| None::<u64>));
        }
        let m = PieceManager { pieces, availability, reserved_by, reservation_time, sequential: false };
        proof {
            assert(pieces@.take(piece_count as int) =~= pieces@);
            lemma_built_blocks(m.pieces@, shapes);
            assert forall|j: int| 0 <= j < piece_count implies (#[trigger] m.pieces@[j]).wf()
                && m.pieces@[j].index == j by {
                assert(fresh_piece(m.pieces@[j], j));
            }
            assert(m.timed_view() =~= Seq::new(piece_count as nat, |i: int| false));
        }
        Ok(m)
    }
}

} // verus!

verus! {

/// Collects the blocks of one piece as they arrive.
#[derive(Debug)]
pub struct PieceBuffer {
    index: u32,
    length: u32,
    data: Vec<u8>,
    blocks: Vec<u8>,
    complete: usize,
    _budget_reservation: Option<PieceBufferReservation>,
}

/// Reserves room for exactly `additional` more bytes with
/// `Vec::try_reserve_exact`, reporting whether the allocation succeeded;
/// the contents are unchanged either way.
#[verifier::external_body]
fn try_reserve_exact_bytes(v: &mut Vec<u8>, additional: usize) -> (r: bool)
    ensures
        final(v)@ == old(v)@,
{
    v.try_reserve_exact(additional).is_ok()
}

/// The number of blocks marked received.
pub open spec fn count_received(s: Seq<u8>) -> nat
    decreases s.len(),
{
    if s.len() == 0 {
        0
    } else {
        count_received(s.drop_last()) + if s.last() != 0 {
            1nat
        } else {
            0nat
        }
    }
}

proof fn lemma_count_received(s: Seq<u8>)
    ensures
        count_received(s) <= s.len(),
        count_received(s) == s.len() <==> forall|i: int| 0 <= i < s.len() ==> s[i] != 0,
    decreases s.len(),
{
    if s.len() > 0 {
        let init = s.drop_last();
        lemma_count_received(init);
        assert forall|i: int| 0 <= i < init.len() implies init[i] == s[i] by {}
        if count_received(s) == s.len() {
            assert forall|i: int| 0 <= i < s.len() implies s[i] != 0 by {
                if i < s.len() - 1 {
                    assert(init[i] == s[i]);
                }
            }
        }
    }
}

proof fn lemma_count_received_set(s: Seq<u8>, b: int)
    requires
        0 <= b < s.len(),
        s[b] == 0,
    ensures
        count_received(s.update(b, 1)) == count_received(s) + 1,
    decreases s.len(),
{
    let t = s.update(b, 1);
    if b == s.len() - 1 {
        assert(t.drop_last() =~= s.drop_last());
    } else {
        lemma_count_received_set(s.drop_last(), b);
        assert(t.drop_last() =~= s.drop_last().update(b, 1));
    }
}

impl PieceBuffer {
    pub closed spec fn index_view(&self) -> u32 {
        self.index
    }

    pub closed spec fn length_view(&self) -> u32 {
        self.length
    }

    pub closed spec fn data_view(&self) -> Seq<u8> {
        self.data@
    }

    /// Whether each block has arrived.
    pub closed spec fn received_view(&self) -> Seq<bool> {
        self.blocks@.map_values(|b: u8| b != 0)
    }

    /// The buffer holds one byte per piece byte and one flag per block, and
    /// counts the flags that are set.
    pub closed spec fn wf(&self) -> bool {
        &&& 0 < self.length <= MAX_PIECE_LENGTH
        &&& self.data@.len() == self.length
        &&& self.blocks@.len() == spec_block_count(self.length as int)
        &&& self.complete == count_received(self.blocks@)
    }

    /// What a well-formed buffer holds: one byte per piece byte and one
    /// flag per block, for a length from 1 to `MAX_PIECE_LENGTH`.
    pub proof fn lemma_shape(&self)
        requires
            self.wf(),
        ensures
            0 < self.length_view() <= MAX_PIECE_LENGTH,
            self.data_view().len() == self.length_view(),
            self.received_view().len() == spec_block_count(self.length_view() as int),
    {
    }

    /// A buffer with nothing received yet.
    pub open spec fn fresh(&self, index: u32, length: u32) -> bool {
        &&& self.wf()
        &&& self.index_view() == index
        &&& self.length_view() == length
        &&& self.data_view() == Seq::new(length as nat, |i: int| 0u8)
        &&& self.received_view() == Seq::new(spec_block_count(length as int) as nat, |i: int| false)
    }

    /// A buffer for piece `index` of `length` bytes whose allocation is
    /// charged to `budgets`; `Ok(None)` when the budgets have no room. A
    /// length of zero or above the maximum piece length is refused, as is
    /// an allocation that fails.
    pub fn try_new(index: u32, length: u32, budgets: &PieceBufferBudgets) -> (r: Result<Option<Self>, Error>)
        ensures
            length == 0 || length > MAX_PIECE_LENGTH ==> r == Err::<Option<PieceBuffer>, Error>(
                Error::InvalidPieceLength,
            ),
            r matches Err(e) ==> e == Error::InvalidPieceLength,
            r matches Ok(Some(b)) ==> b.fresh(index, length),
    {
        if length == 0 || length as u64 > MAX_PIECE_LENGTH {
            return Err(Error::InvalidPieceLength);
        }
        let blocks = block_count(length);
        let allocation_bytes = match (length as usize).checked_add(blocks) {
            Some(a) => a,
            None => {
                return Err(Error::InvalidPieceLength);
            },
        };
        let reservation = match budgets.try_reserve(allocation_bytes) {
            Some(r) => r,
            None => {
                return Ok(None);
            },
        };
        match Self::allocate(index, length, Some(reservation)) {
            Ok(b) => Ok(Some(b)),
            Err(e) => Err(e),
        }
    }

    /// A buffer charged to no budget.
    pub fn new(index: u32, length: u32) -> (r: Result<Self, Error>)
        ensures
            length == 0 || length > MAX_PIECE_LENGTH ==> r == Err::<PieceBuffer, Error>(
                Error::InvalidPieceLength,
            ),
            r matches Err(e) ==> e == Error::InvalidPieceLength,
            r matches Ok(b) ==> b.fresh(index, length),
    {
        Self::allocate(index, length, None)
    }

    fn allocate(index: u32, length: u32, budget_reservation: Option<PieceBufferReservation>) -> (r:
        Result<Self, Error>)
        ensures
            length == 0 || length > MAX_PIECE_LENGTH ==> r == Err::<PieceBuffer, Error>(
                Error::InvalidPieceLength,
            ),
            r matches Err(e) ==> e == Error::InvalidPieceLength,
            r matches Ok(b) ==> b.fresh(index, length),
    {
        if length == 0 || length as u64 > MAX_PIECE_LENGTH {
            return Err(Error::InvalidPieceLength);
        }
        let blocks = block_count(length);
        let mut data: Vec<u8> = Vec::new();
        if !try_reserve_exact_bytes(&mut data, length as usize) {
            return Err(Error::InvalidPieceLength);
        }
        let mut i: usize = 0;
        while i < length as usize
            invariant
                i <= length,
                data@ == Seq::new(i as nat, |k: int| 0u8),
            decreases length - i,
        {
            data.push(0);
            i = i + 1;
            assert(data@ =~= Seq::new(i as nat, |k: int| 0u8));
        }
        let mut block_map: Vec<u8> = Vec::new();
        if !try_reserve_exact_bytes(&mut block_map, blocks) {
            return Err(Error::InvalidPieceLength);
        }
        let mut j: usize = 0;
        while j < blocks
            invariant
                j <= blocks,
                block_map@ == Seq::new(j as nat, |k: int| 0u8),
                count_received(block_map@) == 0,
            decreases blocks - j,
        {
            block_map.push(0);
            j = j + 1;
            assert(block_map@ =~= Seq::new(j as nat, |k: int| 0u8));
            assert(block_map@.drop_last() =~= Seq::new((j - 1) as nat, |k: int| 0u8));
        }
        let b = PieceBuffer {
            index,
            length,
            data,
            blocks: block_map,
            complete: 0,
            _budget_reservation: budget_reservation,
        };
        assert(b.received_view() =~= Seq::new(spec_block_count(length as int) as nat, |i: int| false));
        Ok(b)
    }

    /// The piece index.
    pub fn index(&self) -> (r: u32)
        ensures
            r == self.index_view(),
    {
        self.index
    }

    /// The piece length.
    pub fn length(&self) -> (r: u32)
        ensures
            r == self.length_view(),
    {
        self.length
    }

    /// The piece's bytes as received so far.
    pub fn data(&self) -> (r: &[u8])
        ensures
            r@ == self.data_view(),
    {
        self.data.as_slice()
    }

    /// Whether every block has arrived.
    pub fn is_complete(&self) -> (r: bool)
        requires
            self.wf(),
        ensures
            r == forall|i: int| 0 <= i < self.received_view().len() ==> #[trigger] self.received_view()[i],
    {
        let r = self.complete == self.blocks.len();
        proof {
            lemma_count_received(self.blocks@);
            assert forall|i: int| 0 <= i < self.blocks@.len() implies #[trigger] self.received_view()[i]
                == (self.blocks@[i] != 0) by {}
            if !r {
                let j = choose|j: int| 0 <= j < self.blocks@.len() && self.blocks@[j] == 0;
                assert(!self.received_view()[j]);
            }
        }
        r
    }

    /// Stores the block starting at `begin`, unless it already arrived, and
    /// reports whether the piece is complete. A block that does not start
    /// on a block boundary, lies outside the piece or has the wrong length
    /// is refused.
    #[verifier::loop_isolation(false)]
    pub fn add_block(&mut self, begin: u32, block: &[u8]) -> (r: Result<bool, Error>)
        requires
            old(self).wf(),
        ensures
            final(self).wf(),
            ({
                let b = begin / BLOCK_LEN;
                let start = begin as int;
                if begin % BLOCK_LEN != 0 || b >= old(self).received_view().len() || block@.len()
                    != spec_block_length(old(self).length_view() as int, b as int) {
                    r == Err::<bool, Error>(Error::InvalidBlock) && *final(self) == *old(self)
                } else {
                    &&& final(self).index_view() == old(self).index_view()
                    &&& final(self).length_view() == old(self).length_view()
                    &&& final(self).received_view() == old(self).received_view().update(b as int, true)
                    &&& final(self).data_view() == if old(self).received_view()[b as int] {
                        old(self).data_view()
                    } else {
                        old(self).data_view().subrange(0, start) + block@ + old(self).data_view().subrange(start + block@.len(), old(self).data_view().len() as int)
                    }
                    &&& r == Ok::<bool, Error>(
                        forall|i: int|
                            0 <= i < final(self).received_view().len() ==> #[trigger] final(self).received_view()[i],
                    )
                }
            }),
    {
        if begin % BLOCK_LEN != 0 {
            return Err(Error::InvalidBlock);
        }
        let block_index = (begin / BLOCK_LEN) as usize;
        if block_index >= self.blocks.len() {
            return Err(Error::InvalidBlock);
        }
        let expected_len = block_length_of(self.length, block_index);
        if block.len() != expected_len as usize {
            return Err(Error::InvalidBlock);
        }
        let start = begin as usize;
        let end = start + block.len();
        if end > self.data.len() {
            return Err(Error::InvalidBlock);
        }
        let ghost before = self.data@;
        if self.blocks[block_index] == 0 {
            let mut k: usize = 0;
            while k < block.len()
                invariant
                    k <= block@.len(),
                    self.blocks@ == old(self).blocks@,
                    self.complete == old(self).complete,
                    self.length == old(self).length,
                    self.index == old(self).index,
                    block_index < self.blocks@.len(),
                    self.blocks@[block_index as int] == 0,
                    end == start + block@.len(),
                    end <= before.len(),
                    self.data@.len() == before.len(),
                    forall|x: int| 0 <= x < start ==> self.data@[x] == before[x],
                    forall|x: int| end <= x < before.len() ==> self.data@[x] == before[x],
                    forall|x: int| 0 <= x < k ==> self.data@[start + x] == block@[x],
                    forall|x: int| start + k <= x < end ==> self.data@[x] == before[x],
                decreases block@.len() - k,
            {
                self.data.set(start + k, block[k]);
                k = k + 1;
            }
            assert(self.data@ =~= before.subrange(0, start as int) + block@ + before.subrange(
                end as int,
                before.len() as int,
            ));
            proof {
                lemma_count_received_set(self.blocks@, block_index as int);
                lemma_count_received(self.blocks@);
            }
            self.blocks.set(block_index, 1);
            self.complete = self.complete + 1;
        }
        let r = self.complete == self.blocks.len();
        proof {
            assert(self.received_view() =~= old(self).received_view().update(block_index as int, true));
            lemma_count_received(self.blocks@);
            assert forall|i: int| 0 <= i < self.blocks@.len() implies #[trigger] self.received_view()[i]
                == (self.blocks@[i] != 0) by {}
            if !r {
                let j = choose|j: int| 0 <= j < self.blocks@.len() && self.blocks@[j] == 0;
                assert(!self.received_view()[j]);
            }
        }
        Ok(r)
    }
}

} // verus!
