use sha1::Digest;
use vstd::prelude::*;

verus! {

/// The SHA-1 digest of a byte string, as the `sha1` crate computes it.
pub uninterp spec fn sha1_digest(data: Seq<u8>) -> Seq<u8>;

/// SHA-1 of `data`, computed by `sha1::Sha1::digest`. The contract only
/// names the digest: it is a function of the input bytes alone.
#[verifier::external_body]
pub fn sha1(data: &[u8]) -> (r: [u8; 20])
    ensures
        r@ == sha1_digest(data@),
{
    let digest = ::sha1::Sha1::digest(data);
    let mut out = [0u8; 20];
    out.copy_from_slice(&digest);
    out
}

} // verus!
