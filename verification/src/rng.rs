//! The one place the library touches randomness.

use vstd::prelude::*;

verus! {

/// Relies on rand::random: it draws a value of the type from the thread's
/// generator. Nothing can be promised of a random draw, so no clause says
/// more; every caller must cope with every value.
pub assume_specification<T>[ rand::random::<T> ]() -> (r: T)
    where
        rand::distributions::Standard: rand::distributions::Distribution<T>,
;

} // verus!
