//! The source of randomness for random replacement.

use vstd::prelude::*;

verus! {

/// Draws an index below `bound` with `fastrand::usize`, which returns a
/// value inside the range it is given. Nothing is claimed about which value
/// comes back, only that it lies below `bound`.
#[verifier::external_body]
pub(crate) fn random_below(bound: usize) -> (pick: usize)
    requires
        bound > 0,
    ensures
        pick < bound,
{
    fastrand::usize(0..bound)
}

} // verus!
