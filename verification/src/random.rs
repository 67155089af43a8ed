use rand::Rng;
use vstd::prelude::*;

verus! {

/// Draws a number below `bound` from the thread's random number generator.
///
/// This calls `rand::Rng::gen_range` on `rand::thread_rng()` with the range
/// `0..bound`. Nothing is proved of it: the contract takes from the
/// documentation of `gen_range` that the call panics on an empty range,
/// which `requires` leaves out, and that the value drawn lies in the range.
/// Which value comes back is left open.
#[verifier::external_body]
pub(crate) fn random_below(bound: usize) -> (r: usize)
    requires
        bound > 0,
    ensures
        r < bound,
{
    rand::thread_rng().gen_range(0..bound)
}

} // verus!
