//! The library's only source of randomness: a draw from the process-wide
//! random number generator.

use vstd::prelude::*;

verus! {

/// Relies on rand::RngExt::random_range over the range `0..bound`: it
/// returns a value of that range, uniformly distributed, and panics only
/// when the range is empty, which the precondition rules out.
#[verifier::external_body]
pub(crate) fn rand_below(bound: usize) -> (r: usize)
    requires
        bound > 0,
    ensures
        r < bound,
{
    rand::RngExt::random_range(&mut rand::rng(), 0..bound)
}

} // verus!
