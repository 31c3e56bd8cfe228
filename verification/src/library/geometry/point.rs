//! Planar points with integer coordinates and the orientation test the
//! hull construction builds on.
use vstd::prelude::*;

verus! {

/// A point of the plane. Coordinates are kept small enough by callers
/// that the products the predicates take stay in range.
#[derive(Clone, Copy, Debug, PartialEq, Eq, Structural)]
pub struct Point {
    pub x: i64,
    pub y: i64,
}

/// The turn three points describe.
#[derive(Clone, Copy, Debug, PartialEq, Eq, Structural)]
pub enum Orientation {
    Clockwise,
    CounterClockwise,
    Collinear,
}

/// Coordinates small enough that cross products and distances stay in
/// range.
pub open spec fn coord_ok(p: Point) -> bool {
    -1000000000 <= p.x <= 1000000000 && -1000000000 <= p.y <= 1000000000
}

/// The signed area spanned by `p`, `a` and `b`, positive for a clockwise
/// turn under screen coordinates.
pub open spec fn spec_signed_area(p: Point, a: Point, b: Point) -> int {
    (a.x - p.x) * (b.y - p.y) - (a.y - p.y) * (b.x - p.x)
}

/// Bounded factors give a bounded product.
proof fn lemma_mul_bound(a: int, b: int, m: int)
    requires
        0 <= m,
        -m <= a <= m,
        -m <= b <= m,
    ensures
        -m * m <= a * b <= m * m,
{
    assert(-m * m <= a * b <= m * m) by (nonlinear_arith)
        requires
            0 <= m,
            -m <= a <= m,
            -m <= b <= m,
    ;
}

impl Point {
    pub fn new(x: i64, y: i64) -> (r: Point)
        ensures
            r == (Point { x, y }),
    {
        Point { x, y }
    }

    /// Both coordinates passed through `f`.
    pub fn map<F: Fn(i64) -> i64>(&self, f: F) -> (r: Point)
        requires
            forall|v: i64| #[trigger] f.requires((v,)),
        ensures
            f.ensures((self.x,), r.x),
            f.ensures((self.y,), r.y),
    {
        Point { x: f(self.x), y: f(self.y) }
    }

    /// The Manhattan distance to `other`.
    pub fn manhattan(&self, other: &Point) -> (r: i64)
        requires
            coord_ok(*self),
            coord_ok(*other),
        ensures
            r == (if self.x >= other.x {
                self.x - other.x
            } else {
                other.x - self.x
            }) + (if self.y >= other.y {
                self.y - other.y
            } else {
                other.y - self.y
            }),
    {
        let dx = if self.x >= other.x {
            self.x - other.x
        } else {
            other.x - self.x
        };
        let dy = if self.y >= other.y {
            self.y - other.y
        } else {
            other.y - self.y
        };
        dx + dy
    }

    /// A quarter turn, clockwise under screen coordinates.
    pub fn rotate_90(&self) -> (r: Point)
        requires
            coord_ok(*self),
        ensures
            r.x == self.y && r.y == -self.x,
    {
        Point { x: self.y, y: -self.x }
    }

    /// The cross product of the vectors to `self` and `other`.
    pub fn cross(&self, other: &Point) -> (r: i64)
        requires
            coord_ok(*self),
            coord_ok(*other),
        ensures
            r == self.x * other.y - self.y * other.x,
    {
        proof {
            lemma_mul_bound(self.x as int, other.y as int, 1000000000);
            lemma_mul_bound(self.y as int, other.x as int, 1000000000);
        }
        self.x * other.y - self.y * other.x
    }

    /// The dot product of the vectors to `self` and `other`.
    pub fn dot(&self, other: &Point) -> (r: i64)
        requires
            coord_ok(*self),
            coord_ok(*other),
        ensures
            r == self.x * other.x + self.y * other.y,
    {
        proof {
            lemma_mul_bound(self.x as int, other.x as int, 1000000000);
            lemma_mul_bound(self.y as int, other.y as int, 1000000000);
        }
        self.x * other.x + self.y * other.y
    }

    /// The signed area spanned by `self`, `a` and `b`.
    pub fn signed_area(&self, a: &Point, b: &Point) -> (r: i64)
        requires
            coord_ok(*self),
            coord_ok(*a),
            coord_ok(*b),
        ensures
            r == spec_signed_area(*self, *a, *b),
    {
        let ux = a.x - self.x;
        let uy = a.y - self.y;
        let vx = b.x - self.x;
        let vy = b.y - self.y;
        proof {
            lemma_mul_bound(ux as int, vy as int, 2000000000);
            lemma_mul_bound(uy as int, vx as int, 2000000000);
        }
        ux * vy - uy * vx
    }

    /// The squared distance to `other`.
    pub fn dist2(&self, other: &Point) -> (r: i64)
        requires
            coord_ok(*self),
            coord_ok(*other),
        ensures
            r == (self.x - other.x) * (self.x - other.x) + (self.y - other.y) * (self.y
                - other.y),
    {
        let dx = self.x - other.x;
        let dy = self.y - other.y;
        proof {
            lemma_mul_bound(dx as int, dx as int, 2000000000);
            lemma_mul_bound(dy as int, dy as int, 2000000000);
        }
        dx * dx + dy * dy
    }

    /// Which way `a` and `b` turn as seen from `self`.
    pub fn orientation(&self, a: &Point, b: &Point) -> (r: Orientation)
        requires
            coord_ok(*self),
            coord_ok(*a),
            coord_ok(*b),
        ensures
            r == Orientation::Clockwise <==> spec_signed_area(*self, *a, *b) > 0,
            r == Orientation::CounterClockwise <==> spec_signed_area(*self, *a, *b) < 0,
            r == Orientation::Collinear <==> spec_signed_area(*self, *a, *b) == 0,
    {
        let area = self.signed_area(a, b);
        if area > 0 {
            Orientation::Clockwise
        } else if area < 0 {
            Orientation::CounterClockwise
        } else {
            Orientation::Collinear
        }
    }
}

/// Points ordered by `x`, ties broken by `y`.
pub open spec fn lex_le(a: Point, b: Point) -> bool {
    a.x < b.x || (a.x == b.x && a.y <= b.y)
}

/// The lexicographic comparison of two points.
pub fn partial_cmp(a: &Point, b: &Point) -> (r: core::cmp::Ordering)
    ensures
        r == core::cmp::Ordering::Less <==> (lex_le(*a, *b) && *a != *b),
        r == core::cmp::Ordering::Equal <==> *a == *b,
        r == core::cmp::Ordering::Greater <==> (lex_le(*b, *a) && *a != *b),
{
    if a.x < b.x {
        core::cmp::Ordering::Less
    } else if a.x > b.x {
        core::cmp::Ordering::Greater
    } else if a.y < b.y {
        core::cmp::Ordering::Less
    } else if a.y > b.y {
        core::cmp::Ordering::Greater
    } else {
        proof {
            assert(*a == *b);
        }
        core::cmp::Ordering::Equal
    }
}

} // verus!
