use vstd::prelude::*;
use rand::Rng;

verus! {

/// A coin flip through `rand::Rng::gen_ratio` on the thread-local generator:
/// true with probability `numerator / denominator`. The contract claims only
/// that it is always true when the two are equal and always false when the
/// numerator is 0; any other outcome is left to chance. The call panics when
/// the denominator is 0 or below the numerator, which `requires` rules out.
#[verifier::external_body]
pub(crate) fn chance(numerator: u32, denominator: u32) -> (r: bool)
    requires
        0 < denominator,
        numerator <= denominator,
    ensures
        numerator == 0 ==> !r,
        numerator == denominator ==> r,
{
    rand::thread_rng().gen_ratio(numerator, denominator)
}

} // verus!
