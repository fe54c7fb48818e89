use vstd::prelude::*;

verus! {

/// The 64-bit FxHash of a byte string hashed as a slice (its length, then its bytes),
/// as `fxhash::hash64` computes it.
pub uninterp spec fn fx_hash64(bytes: Seq<u8>) -> u64;

/// Calls `fxhash::hash64` on a byte slice.
///
/// Trusted: the result is `fx_hash64` of the bytes. `fxhash::hash64` starts from a fixed
/// zero state with no per-process seed, so equal slices hash equally; the words of the
/// slice are read in the target's byte order, which one build fixes.
#[verifier::external_body]
pub(crate) fn hash_bytes(bytes: &[u8]) -> (h: u64)
    ensures
        h == fx_hash64(bytes@),
{
    fxhash::hash64(bytes)
}

} // verus!
