//! The empty starting point a new solution is copied from.
use vstd::prelude::*;

verus! {

/// Does nothing yet: a fresh solution starts here.
pub fn solve() -> (r: Result<(), ()>)
    ensures
        r is Ok,
{
    Ok(())
}

} // verus!
