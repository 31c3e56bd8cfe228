//! The exhaustive interval-intersection check the stress harness trusts.
use vstd::prelude::*;

verus! {

/// Whether the two closed intervals share a point.
pub fn solve(l1: i32, r1: i32, l2: i32, r2: i32) -> (r: bool)
    ensures
        r == ((if l1 >= l2 { l1 } else { l2 }) <= (if r1 <= r2 { r1 } else { r2 })),
{
    let lo = if l1 >= l2 { l1 } else { l2 };
    let hi = if r1 <= r2 { r1 } else { r2 };
    lo <= hi
}

} // verus!
