//! Draws from the process-wide random source.
use vstd::prelude::*;

verus! {

/// Relies on rand::random: a value drawn from the thread-local generator.
/// Nothing is known of the value drawn.
pub assume_specification<T>[ rand::random::<T> ]() -> (r: T)
    where
        rand::distributions::Standard: rand::distributions::Distribution<T>,
;

/// The position in `0 .. len` that a drawn number stands for.
pub fn index_of_draw(draw: usize, len: usize) -> (r: usize)
    requires
        len > 0,
    ensures
        r == draw % len,
        r < len,
{
    draw % len
}

/// A position drawn in `0 .. len`, used to break ties among equally good
/// actions.
pub fn random_index(len: usize) -> (r: usize)
    requires
        len > 0,
    ensures
        r < len,
{
    index_of_draw(rand::random::<usize>(), len)
}

} // verus!
