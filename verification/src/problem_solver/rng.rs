//! The one randomness primitive the solvers draw from.

use vstd::prelude::*;

verus! {

/// Relies on rand::random: a value drawn from the process-wide generator.
/// Nothing can be promised of it.
pub assume_specification<T>[ rand::random::<T> ]() -> (r: T)
    where
        rand::distributions::Standard: rand::distributions::Distribution<T>,
;

/// A pseudorandom index below `bound`, drawn from the process-wide
/// generator.
pub(crate) fn random_below(bound: usize) -> (r: usize)
    requires
        bound >= 1,
    ensures
        r < bound,
{
    let x = rand::random::<usize>();
    x % bound
}

} // verus!
