//! A deliberately incomplete interval-intersection check, kept as the
//! counterpart the stress harness compares against the exhaustive one:
//! it only looks at the second interval's endpoints.
use vstd::prelude::*;

verus! {

/// Whether either endpoint of the second interval lies inside the first.
/// This misses overlaps where the first interval sits strictly inside the
/// second, which is what the stress harness is meant to expose.
pub fn solve(l1: i32, r1: i32, l2: i32, r2: i32) -> (r: bool)
    ensures
        r == ((l1 <= l2 && l2 <= r1) || (l1 <= r2 && r2 <= r1)),
{
    (l1 <= l2 && l2 <= r1) || (l1 <= r2 && r2 <= r1)
}

} // verus!
