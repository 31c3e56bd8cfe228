//! Random test cases for the stress harness.
use vstd::prelude::*;

verus! {

/// Draws four random bytes and orders each pair, so that the two
/// intervals handed back are well-formed whatever was drawn.
pub fn generate_case() -> (r: (u8, u8, u8, u8))
    ensures
        r.0 <= r.1,
        r.2 <= r.3,
{
    let a: u8 = rand::random();
    let b: u8 = rand::random();
    let c: u8 = rand::random();
    let d: u8 = rand::random();
    let (a, b) = if a > b { (b, a) } else { (a, b) };
    let (c, d) = if c > d { (d, c) } else { (c, d) };
    (a, b, c, d)
}

/// Relies on rand::random: nothing is assumed of the value drawn.
pub assume_specification<T>[ rand::random::<T> ]() -> (r: T)
    where
        rand::distributions::Standard: rand::distributions::Distribution<T>,
;

} // verus!
