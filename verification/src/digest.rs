//! The canonical byte encoding of an event's fields and its Blake2b-512 digest.

use blake2::Blake2b512;
use blake2::Digest;
use vstd::bytes::*;
use vstd::prelude::*;

verus! {

/// The Blake2b-512 digest of `data`: 64 bytes that depend on `data` alone.
pub uninterp spec fn blake2b512(data: Seq<u8>) -> Seq<u8>;

/// Calls `blake2::Blake2b512` (`new`, `update`, `finalize`) on `data` and
/// returns the 64 output bytes. Nothing is proved of the digest: the contract
/// only names it.
#[verifier::external_body]
pub(crate) fn blake2b512_digest(data: &[u8]) -> (digest: [u8; 64])
    ensures
        digest@ == blake2b512(data@),
{
    let mut hasher = Blake2b512::new();
    hasher.update(data);
    let output = hasher.finalize();
    let mut digest = [0u8; 64];
    digest.copy_from_slice(&output[..]);
    digest
}

/// Appends the bytes of `tail` to `out`.
pub fn extend_bytes(out: &mut Vec<u8>, tail: &[u8])
    ensures
        final(out)@ == old(out)@ + tail@,
{
    let mut i: usize = 0;
    while i < tail.len()
        invariant
            i <= tail.len(),
            out@ == old(out)@ + tail@.subrange(0, i as int),
        decreases tail.len() - i,
    {
        out.push(tail[i]);
        i = i + 1;
    }
    proof {
        assert(tail@.subrange(0, i as int) == tail@);
    }
}

} // verus!
