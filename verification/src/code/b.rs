//! Convex-hull solution: read the points, emit their hull.
use crate::library::geometry::convex_hull::{clockwise_but_at, convex_hull};
use crate::library::geometry::point::{coord_ok, lex_le, Point};
use vstd::prelude::*;

verus! {

/// The hull of the input points; printing it is the caller's part.
pub fn solve(points: Vec<Point>) -> (h: Vec<Point>)
    requires
        forall|i: int| 0 <= i < points@.len() ==> coord_ok(#[trigger] points@[i]),
        2 * points@.len() + 2 <= usize::MAX,
    ensures
        points@.len() <= 1 ==> h@ == points@,
        forall|i: int| 0 <= i < h@.len() ==> points@.contains(#[trigger] h@[i]),
        points@.len() >= 1 ==> h@.len() >= 1,
        points@.len() >= 1 ==> forall|x: Point| points@.contains(x) ==> lex_le(h@[0], x),
        points@.len() >= 2 ==> exists|m: int| 0 <= m < h@.len() && #[trigger] clockwise_but_at(
            h@,
            m,
        ),
{
    convex_hull(points)
}

} // verus!
