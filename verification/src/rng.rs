//! The one tie to the random number generator: fresh grids draw each tile's
//! kind from the thread-local generator.

use vstd::prelude::*;

verus! {

/// Relies on rand::random: a value of the asked type drawn from the
/// thread-local generator. Nothing is assumed of the value returned.
pub assume_specification<T>[ rand::random::<T> ]() -> (r: T)
    where
        rand::distributions::Standard: rand::distributions::Distribution<T>,
;

/// A random tile kind below `difficulty`. Whatever the generator hands
/// back, the result stays in range.
pub fn random_kind(difficulty: u16) -> (k: u8)
    requires
        1 <= difficulty <= 6,
    ensures
        k < difficulty,
{
    let r: u16 = rand::random();
    (r % difficulty) as u8
}

} // verus!
