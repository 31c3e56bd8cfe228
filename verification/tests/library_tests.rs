use komodo::code;
use komodo::library::geometry::convex_hull::convex_hull;
use komodo::library::geometry::point::{partial_cmp, Orientation, Point};
use komodo::library::io::Scanner;
use komodo::library::structures::sparse_table::SparseTable;

#[test]
fn orientation_of_a_right_turn() {
    let o = Point::new(0, 0);
    let a = Point::new(1, 0);
    let b = Point::new(1, 1);
    assert!(matches!(o.orientation(&a, &b), Orientation::Clockwise));
    assert!(matches!(o.orientation(&b, &a), Orientation::CounterClockwise));
    assert!(matches!(
        Point::new(0, 0).orientation(&Point::new(1, 1), &Point::new(2, 2)),
        Orientation::Collinear
    ));
}

#[test]
fn point_arithmetic() {
    let p = Point::new(3, 4);
    let q = Point::new(-1, 2);
    assert_eq!(p.manhattan(&q), 6);
    assert_eq!(p.cross(&q), 10);
    assert_eq!(p.dot(&q), 5);
    assert_eq!(p.dist2(&q), 20);
    assert_eq!(p.rotate_90(), Point::new(4, -3));
    assert_eq!(p.map(|v| v * 2), Point::new(6, 8));
    assert_eq!(partial_cmp(&p, &q), std::cmp::Ordering::Greater);
    assert_eq!(partial_cmp(&q, &p), std::cmp::Ordering::Less);
    assert_eq!(partial_cmp(&p, &p), std::cmp::Ordering::Equal);
}

#[test]
fn interval_checks_disagree_on_containment() {
    // the quick check misses a first interval strictly inside the second
    assert!(code::stress::brute_force::solve(2, 3, 1, 10));
    assert!(!code::c::solve(2, 3, 1, 10));
    // and they agree on a plain overlap
    assert!(code::stress::brute_force::solve(1, 5, 4, 8));
    assert!(code::c::solve(1, 5, 4, 8));
    assert!(!code::stress::brute_force::solve(1, 2, 3, 4));
    assert!(!code::c::solve(1, 2, 3, 4));
}

#[test]
fn generated_cases_are_ordered() {
    for _ in 0..100 {
        let (a, b, c, d) = code::stress::generator::generate_case();
        assert!(a <= b);
        assert!(c <= d);
    }
}

#[test]
fn scanner_splits_tokens() {
    let mut s = Scanner::new("  12 abc\n x ");
    assert_eq!(s.token(), Some(vec!['1', '2']));
    assert_eq!(s.token(), Some(vec!['a', 'b', 'c']));
    assert_eq!(s.token(), Some(vec!['x']));
    assert_eq!(s.token(), None);
}

#[test]
fn template_does_nothing() {
    assert!(code::template::solve().is_ok());
}

#[test]
fn test_convex_hull() {
    let points = vec![
        Point::new(0, 0),
        Point::new(3, 3),
        Point::new(0, 3),
        Point::new(3, 0),
        Point::new(1, 1),
        Point::new(2, 1),
        Point::new(1, 2),
        Point::new(2, 2),
    ];
    let hull = convex_hull(points);
    assert_eq!(hull.len(), 4);
    assert_eq!(hull[0], Point::new(0, 0));
    assert_eq!(hull[1], Point::new(3, 0));
    assert_eq!(hull[2], Point::new(3, 3));
    assert_eq!(hull[3], Point::new(0, 3));
}

#[test]
fn simple_array_check_all_subarrays() {
    let arr = vec![5, 5, 4, 4, 3, 3, 2, 3, 2, 4, 5, 5];

    let st = SparseTable::new(arr.clone());

    for i in 0..arr.len() {
        let mut min_el = arr[i];
        for j in i..arr.len() {
            min_el = min_el.min(arr[j]);
            assert_eq!(min_el, st.query(i, j));
        }
    }
}

#[test]
fn hull_of_single_and_duplicate_points() {
    assert_eq!(convex_hull(vec![Point::new(2, 5)]), vec![Point::new(2, 5)]);
    assert_eq!(
        convex_hull(vec![Point::new(1, 1), Point::new(1, 1), Point::new(1, 1)]),
        vec![Point::new(1, 1)]
    );
}

#[test]
fn sparse_table_single_element() {
    let st = SparseTable::new(vec![7]);
    assert_eq!(st.query(0, 0), 7);
}

#[test]
fn hull_solution_matches_hull() {
    let pts = vec![
        Point::new(0, 0),
        Point::new(4, 0),
        Point::new(2, 1),
        Point::new(2, 5),
    ];
    let hull = komodo::code::b::solve(pts.clone());
    assert_eq!(hull, convex_hull(pts));
    assert_eq!(hull.len(), 3);
}
