//! The convex hull of a point set, by the monotone-chain construction:
//! sort the points, then build the lower and the upper chain with a
//! pop-while-not-strictly-clockwise scan each.
use crate::library::geometry::point::{coord_ok, lex_le, spec_signed_area, Orientation, Point};
use vstd::prelude::*;

verus! {

/// Sorts points into lexicographic order. The elements afterwards are
/// exactly the elements before.
fn sort_points(v: &mut Vec<Point>)
    ensures
        final(v)@.len() == old(v)@.len(),
        forall|a: int, b: int|
            0 <= a <= b < final(v)@.len() ==> lex_le(
                #[trigger] final(v)@[a],
                #[trigger] final(v)@[b],
            ),
        forall|x: Point| final(v)@.contains(x) <==> old(v)@.contains(x),
{
    let n = v.len();
    let mut i: usize = 0;
    while i < n
        invariant
            i <= n == v@.len() == old(v)@.len(),
            forall|a: int, b: int|
                0 <= a <= b < i ==> lex_le(#[trigger] v@[a], #[trigger] v@[b]),
            forall|a: int, b: int|
                0 <= a < i && i <= b < n ==> lex_le(#[trigger] v@[a], #[trigger] v@[b]),
            forall|x: Point| v@.contains(x) <==> old(v)@.contains(x),
        decreases n - i,
    {
        // position of the least remaining point
        let mut mi: usize = i;
        let mut j: usize = i + 1;
        while j < n
            invariant
                i <= mi < j <= n == v@.len(),
                forall|k: int| i <= k < j ==> lex_le(v@[mi as int], #[trigger] v@[k]),
            decreases n - j,
        {
            let better = v[j].x < v[mi].x || (v[j].x == v[mi].x && v[j].y < v[mi].y);
            if better {
                mi = j;
            }
            j = j + 1;
        }
        let ghost before = v@;
        let a = v[i];
        let b = v[mi];
        let slot_i = &mut v[i];
        *slot_i = b;
        let slot_m = &mut v[mi];
        *slot_m = a;
        proof {
            assert(v@ =~= before.update(i as int, before[mi as int]).update(
                mi as int,
                before[i as int],
            ));
            assert forall|x: Point| v@.contains(x) implies before.contains(x) by {
                let k = choose|k: int| 0 <= k < v@.len() && v@[k] == x;
                if k == i as int {
                    assert(before[mi as int] == x);
                } else if k == mi as int {
                    assert(before[i as int] == x);
                } else {
                    assert(before[k] == x);
                }
            }
            assert forall|x: Point| before.contains(x) implies v@.contains(x) by {
                let k = choose|k: int| 0 <= k < before.len() && before[k] == x;
                if k == i as int {
                    assert(v@[mi as int] == x);
                } else if k == mi as int {
                    assert(v@[i as int] == x);
                } else {
                    assert(v@[k] == x);
                }
            }
        }
        i = i + 1;
    }
}

/// Every consecutive triple of `h` turns strictly clockwise, except the
/// one centred at position `m` (the junction of the two chains).
pub open spec fn clockwise_but_at(h: Seq<Point>, m: int) -> bool {
    forall|t: int|
        2 <= t < h.len() && t - 1 != m ==> spec_signed_area(#[trigger] h[t - 2], h[t - 1], h[t])
            > 0
}

/// The convex hull of `poly`: a subset of the points, starting at the
/// lexicographically least one, walked clockwise; every consecutive
/// triple but the one at the chains' junction turns strictly clockwise.
pub fn convex_hull(poly: Vec<Point>) -> (h: Vec<Point>)
    requires
        forall|i: int| 0 <= i < poly@.len() ==> coord_ok(#[trigger] poly@[i]),
        2 * poly@.len() + 2 <= usize::MAX,
    ensures
        poly@.len() <= 1 ==> h@ == poly@,
        forall|i: int| 0 <= i < h@.len() ==> poly@.contains(#[trigger] h@[i]),
        poly@.len() >= 1 ==> h@.len() >= 1,
        poly@.len() >= 1 ==> forall|x: Point| poly@.contains(x) ==> lex_le(h@[0], x),
        poly@.len() >= 2 ==> exists|m: int| 0 <= m < h@.len() && #[trigger] clockwise_but_at(
            h@,
            m,
        ),
{
    if poly.len() <= 1 {
        return poly;
    }
    let ghost orig = poly@;
    let mut poly = poly;
    sort_points(&mut poly);
    proof {
        assert forall|k: int| 0 <= k < poly@.len() implies coord_ok(#[trigger] poly@[k]) by {
            assert(poly@.contains(poly@[k]));
            let j = choose|j: int| 0 <= j < orig.len() && orig[j] == poly@[k];
        }
    }
    let n = poly.len();
    let mut h: Vec<Point> = vec![Point { x: 0, y: 0 }; 2 * n + 2];
    let mut len: usize = 0;
    let mut ed: usize = 0;
    // first pass: the lower chain, left to right
    let mut i: usize = 0;
    while i < n
        invariant
            i <= n == poly@.len(),
            forall|k: int| 0 <= k < n ==> coord_ok(#[trigger] poly@[k]),
            forall|x: Point| poly@.contains(x) <==> orig.contains(x),
            h@.len() == 2 * n + 2,
            2 * n + 2 <= usize::MAX,
            ed == 0,
            len <= i,
            i >= 1 ==> len >= 1,
            i >= 2 ==> len >= 2,
            forall|k: int| 0 <= k < len ==> poly@.contains(#[trigger] h@[k]),
            forall|k: int| 0 <= k < len ==> coord_ok(#[trigger] h@[k]),
            len >= 1 ==> h@[0] == poly@[0],
            i >= 1 ==> len >= 1 && h@[len - 1] == poly@[i - 1],
            forall|t: int|
                2 <= t < len ==> spec_signed_area(#[trigger] h@[t - 2], h@[t - 1], h@[t]) > 0,
        decreases n - i,
    {
        let p = poly[i];
        loop
            invariant
                ed == 0,
                len <= i < n == poly@.len(),
                i >= 1 ==> len >= 1,
                p == poly@[i as int],
                coord_ok(p),
                forall|k: int| 0 <= k < n ==> coord_ok(#[trigger] poly@[k]),
                h@.len() == 2 * n + 2,
                2 * n + 2 <= usize::MAX,
                forall|k: int| 0 <= k < len ==> poly@.contains(#[trigger] h@[k]),
                forall|k: int| 0 <= k < len ==> coord_ok(#[trigger] h@[k]),
                len >= 1 ==> h@[0] == poly@[0],
                forall|t: int|
                    2 <= t < len ==> spec_signed_area(#[trigger] h@[t - 2], h@[t - 1], h@[t]) > 0,
            ensures
                len < ed + 2 || spec_signed_area(h@[len - 2], h@[len - 1], p) > 0,
            decreases len,
        {
            if len < ed + 2 {
                break;
            }
            let o = h[len - 2].orientation(&h[len - 1], &p);
            if !matches!(o, Orientation::CounterClockwise | Orientation::Collinear) {
                break;
            }
            len = len - 1;
        }
        let ghost hpre = h@;
        let slot = &mut h[len];
        *slot = p;
        proof {
            assert(h@ =~= hpre.update(len as int, p));
        }
        len = len + 1;
        i = i + 1;
    }
    len = len - 1;
    ed = len;
    // second pass: the upper chain, right to left
    let mut i: usize = n;
    while i > 0
        invariant
            i <= n == poly@.len(),
            forall|k: int| 0 <= k < n ==> coord_ok(#[trigger] poly@[k]),
            forall|x: Point| poly@.contains(x) <==> orig.contains(x),
            h@.len() == 2 * n + 2,
            2 * n + 2 <= usize::MAX,
            1 <= ed <= n,
            ed <= len,
            len <= ed + (n - i),
            n >= 2,
            len >= 1,
            i < n ==> len >= ed + 1,
            i == 0 ==> len >= ed + 2,
            i == n ==> len == ed && h@[ed as int] == poly@[n - 1],
            i == n && ed >= 2 ==> spec_signed_area(h@[ed - 2], h@[ed - 1], h@[ed as int]) > 0,
            forall|k: int| 0 <= k < len ==> poly@.contains(#[trigger] h@[k]),
            forall|k: int| 0 <= k < len ==> coord_ok(#[trigger] h@[k]),
            h@[0] == poly@[0],
            forall|t: int|
                2 <= t < len && t != ed + 1 ==> spec_signed_area(
                    #[trigger] h@[t - 2],
                    h@[t - 1],
                    h@[t],
                ) > 0,
        decreases i,
    {
        let p = poly[i - 1];
        loop
            invariant
                1 <= ed <= n,
                ed <= len,
                0 < i <= n == poly@.len(),
                len <= ed + (n - i),
                i < n ==> len >= ed + 1,
                p == poly@[i - 1],
                coord_ok(p),
                forall|k: int| 0 <= k < n ==> coord_ok(#[trigger] poly@[k]),
                h@.len() == 2 * n + 2,
                2 * n + 2 <= usize::MAX,
                forall|k: int| 0 <= k < len ==> poly@.contains(#[trigger] h@[k]),
                forall|k: int| 0 <= k < len ==> coord_ok(#[trigger] h@[k]),
                h@[0] == poly@[0],
                i == n ==> len == ed && h@[ed as int] == poly@[n - 1],
                i == n && ed >= 2 ==> spec_signed_area(h@[ed - 2], h@[ed - 1], h@[ed as int]) > 0,
                forall|t: int|
                    2 <= t < len && t != ed + 1 ==> spec_signed_area(
                        #[trigger] h@[t - 2],
                        h@[t - 1],
                        h@[t],
                    ) > 0,
            ensures
                len < ed + 2 || spec_signed_area(h@[len - 2], h@[len - 1], p) > 0,
            decreases len,
        {
            if len < ed + 2 {
                break;
            }
            let o = h[len - 2].orientation(&h[len - 1], &p);
            if !matches!(o, Orientation::CounterClockwise | Orientation::Collinear) {
                break;
            }
            len = len - 1;
        }
        let ghost hpre = h@;
        let slot = &mut h[len];
        *slot = p;
        proof {
            assert(h@ =~= hpre.update(len as int, p));
        }
        len = len + 1;
        i = i - 1;
    }
    len = len - 1;
    // a two-point "hull" of one repeated point collapses to that point
    let cut = if len == 2 && h[0] == h[1] {
        1
    } else {
        len
    };
    h.truncate(cut);
    proof {
        assert(h@ =~= h@.subrange(0, cut as int));
        assert forall|x: Point| orig.contains(x) implies lex_le(h@[0], x) by {
            let k = choose|k: int| 0 <= k < poly@.len() && poly@[k] == x;
        }
        if orig.len() >= 2 {
            if cut == 1 {
                assert(clockwise_but_at(h@, 0));
            } else {
                assert forall|t: int|
                    2 <= t < h@.len() && t - 1 != ed implies spec_signed_area(
                    #[trigger] h@[t - 2],
                    h@[t - 1],
                    h@[t],
                ) > 0 by {
                    assert(t != ed + 1);
                }
                assert(clockwise_but_at(h@, ed as int));
                assert(ed < h@.len());
            }
        }
    }
    h
}

} // verus!
