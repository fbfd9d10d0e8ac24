//! Edge cases and exactness checks: empty trees, zero and negative radii,
//! duplicate points, agreement of the two range-query forms, and the
//! squared-distance arithmetic.

use krakel::point::{dist_sq_between, COORD_BOUND};
use krakel::{KDPoint, KDTree, KrakelError, Point2, PointTrait};
use rand::rngs::StdRng;
use rand::{Rng, SeedableRng};

#[test]
fn test_empty_tree() {
    let kdtree = KDTree::<Point2>::default();
    assert!(kdtree.nearest(&Point2::new(3, 4)).is_none());
    assert!(kdtree.range_query(&Point2::new(3, 4), 1_000).is_empty());
    let mut calls: u64 = 0;
    kdtree.closure_range_query(&Point2::new(3, 4), 1_000, |_site: &Point2| {
        calls += 1;
    });
    assert_eq!(calls, 0);
}

#[test]
fn test_negative_radius_yields_nothing() {
    let mut kdtree = KDTree::<Point2>::default();
    kdtree.insert(Point2::new(1, 1)).unwrap();
    kdtree.insert(Point2::new(2, 2)).unwrap();
    let results = kdtree.range_query(&Point2::new(1, 1), -1);
    assert!(results.is_empty());
    let mut calls: u64 = 0;
    kdtree.closure_range_query(&Point2::new(1, 1), -5, |_site: &Point2| {
        calls += 1;
    });
    assert_eq!(calls, 0);
}

#[test]
fn test_zero_radius_self_match() {
    let mut kdtree = KDTree::<Point2>::default();
    let points = vec![
        Point2::new(2, 3),
        Point2::new(5, 4),
        Point2::new(9, 6),
        Point2::new(4, 7),
        Point2::new(8, 1),
        Point2::new(7, 2),
    ];
    for point in &points {
        kdtree.insert(*point).unwrap();
    }
    for point in &points {
        let results = kdtree.range_query(point, 0);
        assert_eq!(results, vec![*point]);
    }
}

#[test]
fn test_duplicate_points() {
    let mut kdtree = KDTree::<Point2>::default();
    let p = Point2::new(4, 4);
    kdtree.insert(p).unwrap();
    kdtree.insert(p).unwrap();
    kdtree.insert(Point2::new(9, 9)).unwrap();
    let results = kdtree.range_query(&p, 0);
    assert_eq!(results.len(), 2);
    assert!(results.iter().all(|found| *found == p));
    assert_eq!(kdtree.nearest(&p), Some(p));
}

#[test]
fn test_range_query_exact_set() {
    // The scenario point set, scaled by a million; the search circle of
    // radius 2.93 around (7.5, 3.5) holds exactly four of the six points.
    let mut kdtree = KDTree::<Point2>::default();
    let points = vec![
        Point2::new(2_000_000, 3_000_000),
        Point2::new(5_000_000, 4_000_000),
        Point2::new(9_000_000, 6_000_000),
        Point2::new(4_000_000, 7_000_000),
        Point2::new(8_000_000, 1_000_000),
        Point2::new(7_000_000, 2_000_000),
    ];
    for point in &points {
        kdtree.insert(*point).unwrap();
    }
    let search_point = Point2::new(7_500_000, 3_500_000);
    let radius: i64 = 2_930_000;

    let mut expected: Vec<Point2> = points
        .iter()
        .copied()
        .filter(|p| PointTrait::dist_sq(&search_point, p) <= radius * radius)
        .collect();
    let mut results = kdtree.range_query(&search_point, radius);
    expected.sort();
    results.sort();
    assert_eq!(results, expected);
    assert_eq!(
        expected,
        vec![
            Point2::new(5_000_000, 4_000_000),
            Point2::new(7_000_000, 2_000_000),
            Point2::new(8_000_000, 1_000_000),
            Point2::new(9_000_000, 6_000_000),
        ]
    );
}

#[test]
fn test_closure_matches_range_query() {
    // The streaming query visits the same point set that the collecting
    // query returns, for every queried point.
    let mut kdtree = KDTree::<Point2>::default();
    let mut rng: StdRng = SeedableRng::seed_from_u64(7);
    let mut points: Vec<Point2> = Vec::new();
    for _ in 0..500 {
        let x: i64 = rng.gen_range(0..1_000);
        let y: i64 = rng.gen_range(0..1_000);
        points.push(Point2::new(x, y));
    }
    for point in &points {
        kdtree.insert(*point).unwrap();
    }
    for search_point in points.iter().take(50) {
        let collected = kdtree.range_query(search_point, 120);
        let mut streamed: Vec<Point2> = Vec::new();
        kdtree.closure_range_query(search_point, 120, |site: &Point2| {
            streamed.push(*site);
        });
        assert_eq!(collected, streamed);
    }
}

#[test]
fn test_query_results_insertion_order_independent() {
    // The same multiset of points gives the same query answers whatever
    // the insertion order.
    let points = vec![
        Point2::new(2, 3),
        Point2::new(5, 4),
        Point2::new(9, 6),
        Point2::new(4, 7),
        Point2::new(8, 1),
        Point2::new(7, 2),
    ];
    let mut forward = KDTree::<Point2>::default();
    for point in &points {
        forward.insert(*point).unwrap();
    }
    let mut backward = KDTree::<Point2>::default();
    for point in points.iter().rev() {
        backward.insert(*point).unwrap();
    }
    for search_point in &points {
        for radius in [0_i64, 2, 5, 100] {
            let mut a = forward.range_query(search_point, radius);
            let mut b = backward.range_query(search_point, radius);
            a.sort();
            b.sort();
            assert_eq!(a, b);
        }
        let na = forward.nearest(search_point);
        let nb = backward.nearest(search_point);
        assert_eq!(na, nb);
    }
}

#[test]
fn test_nearest_large_coordinates() {
    let mut kdtree = KDTree::<Point2>::default();
    kdtree.insert(Point2::new(-COORD_BOUND, -COORD_BOUND)).unwrap();
    kdtree.insert(Point2::new(COORD_BOUND, COORD_BOUND)).unwrap();
    let nearest = kdtree.nearest(&Point2::new(COORD_BOUND - 1, COORD_BOUND));
    assert_eq!(nearest, Some(Point2::new(COORD_BOUND, COORD_BOUND)));
}

#[test]
fn test_dist_sq_exact_value() {
    let a = Point2::new(2, 3);
    let b = Point2::new(5, 7);
    // (2-5)^2 + (3-7)^2 = 9 + 16 = 25
    assert_eq!(PointTrait::dist_sq(&a, &b), 25);
    assert_eq!(PointTrait::dist_sq(&b, &a), 25);
    assert_eq!(dist_sq_between(&a, &b), 25);
    assert_eq!(PointTrait::dist_sq(&a, &a), 0);
}

#[test]
fn test_point_accessors() {
    let mut p = Point2::new(11, 22);
    assert_eq!(p.x(), 11);
    assert_eq!(p.y(), 22);
    assert_eq!(p.at(0), 11);
    assert_eq!(p.at(1), 22);
    assert_eq!(p.get_coordinate(0), 11);
    assert_eq!(p.get_coordinate(1), 22);
    p.set_coordinate(0, 33);
    p.set_coordinate(1, 44);
    assert_eq!(p.get_coordinate(0), 33);
    assert_eq!(p.get_coordinate(1), 44);
    let q = p.clone_point();
    assert_eq!(q, p);
}

#[test]
fn test_error_variant() {
    // No operation currently produces the error; the variant itself is
    // still constructible and carries its message.
    let e = KrakelError::InternalError(String::from("reserved"));
    assert!(matches!(e, KrakelError::InternalError(_)));
}
