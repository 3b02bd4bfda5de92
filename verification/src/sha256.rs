use sha2::Digest;
use vstd::prelude::*;

use crate::peer::{is_pow2, is_power_of_two};

verus! {

/// The SHA-256 digest of a byte string, as the `sha2` crate computes it.
pub uninterp spec fn sha256_digest(data: Seq<u8>) -> Seq<u8>;

/// SHA-256 of `data`, computed by `sha2::Sha256::digest`. The contract only
/// names the digest: it is a function of the input bytes alone.
#[verifier::external_body]
pub fn sha256(data: &[u8]) -> (r: [u8; 32])
    ensures
        r@ == sha256_digest(data@),
{
    let digest = ::sha2::Sha256::digest(data);
    let mut out = [0u8; 32];
    out.copy_from_slice(&digest);
    out
}

/// Size of a leaf block of a BEP 52 merkle tree.
pub const MERKLE_BLOCK_LEN: u32 = 16384;

/// The hash standing for a leaf past the end of the data.
pub open spec fn zero_hash() -> Seq<u8> {
    Seq::new(32, |i: int| 0u8)
}

/// The leaf hashes of a tree with `leaves` leaves over `data`: the SHA-256
/// of each 16 KiB block (the last one may be shorter), then zero hashes.
pub open spec fn leaf_hashes(data: Seq<u8>, leaves: nat) -> Seq<Seq<u8>> {
    Seq::new(
        leaves,
        |i: int|
            if 16384 * i < data.len() {
                sha256_digest(
                    data.subrange(
                        16384 * i,
                        if 16384 * i + 16384 <= data.len() {
                            16384 * i + 16384
                        } else {
                            data.len() as int
                        },
                    ),
                )
            } else {
                zero_hash()
            },
    )
}

/// The layer above `layer`: the SHA-256 of each pair of adjacent hashes.
pub open spec fn parent_layer(layer: Seq<Seq<u8>>) -> Seq<Seq<u8>> {
    Seq::new(layer.len() / 2, |i: int| sha256_digest(layer[2 * i] + layer[2 * i + 1]))
}

/// The root of the tree whose bottom layer is `layer`.
pub open spec fn merkle_reduce(layer: Seq<Seq<u8>>) -> Seq<u8>
    decreases layer.len(),
{
    if layer.len() <= 1 {
        if layer.len() == 1 {
            layer[0]
        } else {
            zero_hash()
        }
    } else {
        merkle_reduce(parent_layer(layer))
    }
}

/// The root of the piece-layer tree of `merkle_length` bytes over `data`:
/// none when the tree size is not a power-of-two number of 16 KiB blocks or
/// the data does not fit in it.
pub open spec fn spec_merkle_piece_root(data: Seq<u8>, merkle_length: u32) -> Option<Seq<u8>> {
    if merkle_length == 0 || merkle_length % 16384 != 0 || !is_pow2((merkle_length / 16384) as nat)
        || data.len() > merkle_length {
        None
    } else {
        Some(merkle_reduce(leaf_hashes(data, (merkle_length / 16384) as nat)))
    }
}

fn hash_pair(left: &[u8; 32], right: &[u8; 32]) -> (r: [u8; 32])
    ensures
        r@ == sha256_digest(left@ + right@),
{
    let mut buf: Vec<u8> = Vec::new();
    let mut i: usize = 0;
    while i < 32
        invariant
            i <= 32,
            buf@ == left@.subrange(0, i as int),
        decreases 32 - i,
    {
        buf.push(left[i]);
        i = i + 1;
        assert(buf@ =~= left@.subrange(0, i as int));
    }
    let mut j: usize = 0;
    while j < 32
        invariant
            j <= 32,
            buf@ == left@ + right@.subrange(0, j as int),
        decreases 32 - j,
    {
        buf.push(right[j]);
        j = j + 1;
        assert(buf@ =~= left@ + right@.subrange(0, j as int));
    }
    assert(buf@ =~= left@ + right@);
    sha256(buf.as_slice())
}

pub open spec fn hashes_view(v: Seq<[u8; 32]>) -> Seq<Seq<u8>> {
    v.map_values(|h: [u8; 32]| h@)
}

/// The root of a BEP 52 piece-layer merkle tree of `merkle_length` bytes
/// over `data`.
pub fn merkle_piece_root(data: &[u8], merkle_length: u32) -> (r: Option<[u8; 32]>)
    ensures
        match spec_merkle_piece_root(data@, merkle_length) {
            Some(root) => r matches Some(h) && h@ == root,
            None => r is None,
        },
{
    if merkle_length == 0 || merkle_length % MERKLE_BLOCK_LEN != 0 {
        return None;
    }
    let leaves_u32 = merkle_length / MERKLE_BLOCK_LEN;
    if !is_power_of_two(leaves_u32) || data.len() as u64 > merkle_length as u64 {
        return None;
    }
    let leaves = leaves_u32 as usize;
    let ghost target = leaf_hashes(data@, leaves as nat);
    let mut layer: Vec<[u8; 32]> = Vec::new();
    let mut i: usize = 0;
    while i < leaves
        invariant
            i <= leaves,
            leaves as int == merkle_length / 16384,
            data@.len() <= merkle_length,
            target == leaf_hashes(data@, leaves as nat),
            layer@.len() == i,
            forall|j: int| 0 <= j < i ==> (#[trigger] layer@[j])@ == target[j],
        decreases leaves - i,
    {
        assert(16384 * i < 16384 * leaves) by (nonlinear_arith)
            requires
                i < leaves,
        ;
        assert(16384 * leaves <= merkle_length) by (nonlinear_arith)
            requires
                leaves as int == merkle_length / 16384,
        ;
        let start: usize = 16384 * i;
        if start < data.len() {
            let end: usize = if data.len() - start >= 16384 {
                start + 16384
            } else {
                data.len()
            };
            let h = sha256(&data[start..end]);
            layer.push(h);
        } else {
            layer.push([0u8; 32]);
            assert(layer@[i as int]@ =~= zero_hash());
        }
        i = i + 1;
    }
    assert(hashes_view(layer@) =~= target);
    while layer.len() > 1
        invariant
            layer@.len() >= 1,
            merkle_reduce(hashes_view(layer@)) == merkle_reduce(target),
        decreases layer@.len(),
    {
        let ghost before = hashes_view(layer@);
        let half = layer.len() / 2;
        let mut next: Vec<[u8; 32]> = Vec::new();
        let mut k: usize = 0;
        while k < half
            invariant
                k <= half,
                half == layer@.len() / 2,
                2 * half <= layer.len(),
                before == hashes_view(layer@),
                next@.len() == k,
                forall|j: int| 0 <= j < k ==> (#[trigger] next@[j])@ == parent_layer(before)[j],
            decreases half - k,
        {
            let h = hash_pair(&layer[2 * k], &layer[2 * k + 1]);
            next.push(h);
            k = k + 1;
        }
        assert(hashes_view(next@) =~= parent_layer(before));
        layer = next;
    }
    let root = layer[0];
    assert(merkle_reduce(hashes_view(layer@)) == hashes_view(layer@)[0]);
    Some(root)
}

} // verus!
