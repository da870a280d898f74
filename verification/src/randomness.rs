use vstd::prelude::*;
use rand::Rng;

verus! {

/// Draws a number from `lo..hi` by calling `rand::Rng::gen_range` on the
/// thread-local generator that `rand::thread_rng` returns. Which number
/// comes out is left to chance; the claim is only that it lies in the
/// range. `gen_range` panics on an empty range, hence `lo < hi`.
#[verifier::external_body]
pub(crate) fn random_in_range(lo: u32, hi: u32) -> (r: u32)
    requires
        lo < hi,
    ensures
        lo <= r < hi,
{
    rand::thread_rng().gen_range(lo..hi)
}

} // verus!
