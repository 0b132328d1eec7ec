//! Random draws, taken from the `rand` crate.

use rand::Rng;
use vstd::prelude::*;

verus! {

/// Draws an index below `bound` with `rand::Rng::gen_range` on
/// `rand::thread_rng()`, over the range `0..bound`. The call panics on an
/// empty range, so the bound must be positive; the draw then lies in the
/// range. Which index comes out is left open.
#[verifier::external_body]
pub(crate) fn random_below(bound: usize) -> (index: usize)
    requires
        bound > 0,
    ensures
        index < bound,
{
    rand::thread_rng().gen_range(0..bound)
}

/// Draws a boolean with `rand::random`. Nothing is claimed of the draw.
#[verifier::external_body]
pub(crate) fn random_bool() -> bool {
    rand::random::<bool>()
}

} // verus!
