//! Query behaviour of the kd-tree on scenario point sets and on large
//! seeded-random point sets. Coordinates are fixed-point: one unit is a
//! millionth, so the point (2.0, 3.0) is written (2_000_000, 3_000_000).

use std::cmp::Reverse;

use krakel::point::dist_sq_between;
use krakel::{KDTree, Point2, PointTrait};
use rand::rngs::StdRng;
use rand::{Rng, SeedableRng};

const SCALE: f64 = 1_000_000.0;

fn fx(v: f64) -> i64 {
    (v * SCALE) as i64
}

fn pt(x: f64, y: f64) -> Point2 {
    Point2::new(fx(x), fx(y))
}

#[derive(Default)]
pub struct MaximumTracker<T> {
    current_max: Option<T>,
}

impl<T: PartialOrd + Copy> MaximumTracker<T> {
    fn insert(&mut self, value: T) {
        match self.current_max {
            Some(max_value) if value > max_value => self.current_max = Some(value),
            None => self.current_max = Some(value),
            _ => (),
        }
    }

    pub fn get_max(&self) -> Option<T> {
        self.current_max
    }
}

#[test]
fn test_nearest_query() {
    let mut kdtree = KDTree::<Point2>::default();

    let points = vec![
        pt(2.0, 3.0),
        pt(5.0, 4.0),
        pt(9.0, 6.0),
        pt(4.0, 7.0),
        pt(8.0, 1.0),
        pt(7.0, 2.0),
    ];

    for point in &points {
        println!("inserting {:?}", point);
        kdtree.insert(point.clone()).unwrap();
    }

    let search_point = pt(7.5, 3.5);
    println!("before nearest");
    let nearest = kdtree.nearest(&search_point);
    println!("after nearest");

    match nearest {
        Some(found) => {
            println!(
                "The nearest point to {:?} is {:?} dist={}.",
                search_point,
                found,
                PointTrait::dist_sq(&search_point, &found)
            );
            let mut m = MaximumTracker::<Reverse<i64>>::default();
            for p in &points {
                m.insert(Reverse(PointTrait::dist_sq(&search_point, p)));
                println!(
                    "testing {:?} dist = {}",
                    p,
                    PointTrait::dist_sq(&search_point, p)
                );
            }
            println!(
                "Actual closest point is distance {:?}",
                m.get_max().unwrap().0
            );
            assert_eq!(
                m.get_max().unwrap().0,
                PointTrait::dist_sq(&search_point, &found)
            );
            // (7.0, 2.0) is strictly closer than (8.0, 1.0).
            assert_eq!(found, pt(7.0, 2.0));
        }
        None => panic!("No point found in the KDTree!"),
    }
}

#[test]
fn test_nearest_query_2() {
    let mut kdtree = KDTree::<Point2>::default();
    // Initialize a deterministic RNG with a fixed seed
    let mut rng: StdRng = SeedableRng::seed_from_u64(42);

    let mut points = vec![pt(2.0, 3.0)];
    // Add 3000 random points in [0, 10) x [0, 10)
    for _ in 0..3000 {
        let x: f64 = rng.gen_range(0.0..10.0);
        let y: f64 = rng.gen_range(0.0..10.0);
        points.push(pt(x, y));
    }

    for point in &points {
        kdtree.insert(point.clone()).unwrap();
    }

    let search_point = pt(7.5, 3.5);
    let nearest = kdtree.nearest(&search_point);

    match nearest {
        Some(found) => {
            let mut m = MaximumTracker::<Reverse<i64>>::default();
            for p in &points {
                m.insert(Reverse(PointTrait::dist_sq(&search_point, p)));
            }
            assert_eq!(
                m.get_max().unwrap().0,
                PointTrait::dist_sq(&search_point, &found)
            );
        }
        None => panic!("No point found in the KDTree!"),
    }

    for search_point in &points {
        let results = kdtree.nearest(search_point);
        assert_eq!(results.unwrap(), *search_point);
    }
}

#[test]
fn test_range_query() {
    let mut kdtree = KDTree::<Point2>::default();

    let points = vec![
        pt(2.0, 3.0),
        pt(5.0, 4.0),
        pt(9.0, 6.0),
        pt(4.0, 7.0),
        pt(8.0, 1.0),
        pt(7.0, 2.0),
    ];

    for point in &points {
        kdtree.insert(point.clone()).unwrap();
    }

    let search_point = pt(7.5, 3.5);
    let radius = fx(2.93);

    let results = kdtree.range_query(&search_point, radius);

    // Every result lies within the given range.
    for found in &results {
        let dist_sq = PointTrait::dist_sq(&search_point, found);
        assert!(
            dist_sq <= radius * radius,
            "found distance :{:?}, expected to be less than {:?}",
            dist_sq,
            radius * radius
        );
    }
    println!(
        "found points {:?} should all be less than distance:{}",
        results, radius
    );

    // Based on the provided points and the search_point, we can expect the
    // following points to be in the result: (8.0, 1.0) and (7.0, 2.0)
    let expected_points = vec![pt(8.0, 1.0), pt(7.0, 2.0)];

    for expected in &expected_points {
        assert!(results.contains(expected));
    }

    for search_point in &points {
        let results = kdtree.range_query(search_point, fx(0.0001));
        assert!(results.contains(search_point));
    }
}

#[test]
fn test_range_query_2() {
    let mut kdtree = KDTree::<Point2>::default();
    // Initialize a deterministic RNG with a fixed seed
    let mut rng: StdRng = SeedableRng::seed_from_u64(42);

    let mut points = vec![pt(2.0, 3.0), pt(8.0, 1.0), pt(7.0, 2.0)];
    // Add 300 random single-precision points in [0, 10) x [0, 10)
    for _ in 0..300 {
        let x: f32 = rng.gen_range(0.0..10.0);
        let y: f32 = rng.gen_range(0.0..10.0);
        points.push(pt(x as f64, y as f64));
    }

    for point in &points {
        kdtree.insert(point.clone()).unwrap();
    }

    let search_radius = fx(0.01);
    for search_point in &points {
        let results = kdtree.range_query(search_point, search_radius);
        assert!(results.contains(search_point));
        for found in &results {
            let dist_sq = PointTrait::dist_sq(search_point, found);
            assert!(
                dist_sq <= search_radius * search_radius,
                "found distance :{:?}, expected to be less than {:?}",
                dist_sq,
                search_radius * search_radius
            );
        }
    }
}

#[test]
fn test_range_query_3() {
    let mut kdtree = KDTree::<Point2>::default();
    // Initialize a deterministic RNG with a fixed seed
    let mut rng: StdRng = SeedableRng::seed_from_u64(42);

    let mut points = vec![pt(2.0, 3.0), pt(8.0, 1.0), pt(7.0, 2.0)];
    for _ in 0..300 {
        let x: f64 = rng.gen_range(0.0..10.0);
        let y: f64 = rng.gen_range(0.0..10.0);
        points.push(pt(x, y));
    }

    for point in &points {
        kdtree.insert(point.clone()).unwrap();
    }

    let search_radius = fx(0.01);
    let radius_sq = search_radius * search_radius;

    for search_point in &points {
        let mut mmax = MaximumTracker::<i64>::default();
        kdtree.closure_range_query(search_point, search_radius, |site: &Point2| {
            let dist_sq = PointTrait::dist_sq(search_point, site);
            mmax.insert(dist_sq);
            assert!(
                dist_sq <= radius_sq,
                "found distance :{:?}, expected to be less than {:?}",
                dist_sq,
                radius_sq
            );
        });
        let mmax = mmax.get_max().unwrap();
        assert!(
            mmax <= radius_sq,
            "found distance :{:?}, expected to be less than {:?}",
            mmax,
            radius_sq
        );
    }
}

#[test]
fn test_range_query_4_dvec2() {
    let mut kdtree = KDTree::<Point2>::default();
    // Initialize a deterministic RNG with a fixed seed
    let mut rng: StdRng = SeedableRng::seed_from_u64(42);

    let mut points = vec![pt(2.0, 3.0), pt(8.0, 1.0), pt(7.0, 2.0)];
    for _ in 0..3000 {
        let x: f64 = rng.gen_range(0.0..10.0);
        let y: f64 = rng.gen_range(0.0..10.0);
        points.push(pt(x, y));
    }

    for point in &points {
        kdtree.insert(point.clone()).unwrap();
    }

    let search_radius = 0.01_f64;
    let radius = fx(search_radius);
    let radius_sq = radius * radius;
    // offset = normalize((1,1)) * search_radius * 0.99995, per component
    let offset_component = (1.0_f64 / 2.0_f64.sqrt()) * search_radius * 0.99995;
    let offset = pt(offset_component, offset_component);

    for search_point in &points {
        let mut mmax = MaximumTracker::<i64>::default();
        let offset_search_position =
            Point2::new(search_point.x + offset.x, search_point.y + offset.y);

        kdtree.closure_range_query(&offset_search_position, radius, |site: &Point2| {
            if search_point == site {
                let dist_sq = PointTrait::dist_sq(search_point, site);
                mmax.insert(dist_sq);
                assert!(
                    dist_sq <= radius_sq,
                    "found distance :{:?}, expected to be less than {:?}",
                    dist_sq,
                    radius_sq
                );
            } else {
                let real_dist_sq = PointTrait::dist_sq(&offset_search_position, site);
                assert!(
                    real_dist_sq <= radius_sq,
                    "Found a match outside the search radius. dist:{} search_radius:{}",
                    real_dist_sq,
                    radius_sq
                );
            }
        });
        assert!(
            mmax.get_max().is_some(),
            "The expected sample was not found"
        );
        let mmax = mmax.get_max().unwrap();
        assert!(
            mmax <= radius_sq,
            "found distance :{:?}, expected to be less than {:?}",
            mmax,
            radius_sq
        );
    }
}

#[test]
fn test_range_query_4_vec2() {
    let mut a_point = pt(1.0, 2.0);
    a_point.set_x(fx(4.0));
    a_point.set_x(fx(8.0));

    let mut kdtree = KDTree::<Point2>::default();
    let mut rng: StdRng = SeedableRng::seed_from_u64(42);

    let mut points = vec![pt(2.0, 3.0), pt(8.0, 1.0), pt(7.0, 2.0)];
    for _ in 0..3000 {
        let x: f32 = rng.gen_range(0.0..10.0);
        let y: f32 = rng.gen_range(0.0..10.0);
        points.push(pt(x as f64, y as f64));
    }

    for point in &points {
        kdtree.insert(point.clone()).unwrap();
    }

    let search_radius = 0.01_f32;
    let radius = fx(search_radius as f64);
    let radius_sq = radius * radius;
    let offset_component = ((1.0_f32 / 2.0_f32.sqrt()) * search_radius * 0.99995) as f64;
    let offset = pt(offset_component, offset_component);

    for search_point in &points {
        let mut mmax = MaximumTracker::<i64>::default();
        let offset_search_position =
            Point2::new(search_point.x + offset.x, search_point.y + offset.y);

        kdtree.closure_range_query(&offset_search_position, radius, |site: &Point2| {
            if search_point == site {
                let dist_sq = PointTrait::dist_sq(search_point, site);
                mmax.insert(dist_sq);
                assert!(
                    dist_sq <= radius_sq,
                    "found distance :{:?}, expected to be less than {:?}",
                    dist_sq,
                    radius_sq
                );
            } else {
                let real_dist_sq = PointTrait::dist_sq(&offset_search_position, site);
                assert!(
                    real_dist_sq <= radius_sq,
                    "Found a match outside the search radius. dist:{} search_radius:{}",
                    real_dist_sq,
                    radius_sq
                );
            }
        });
        assert!(
            mmax.get_max().is_some(),
            "The expected sample was not found"
        );
        let mmax = mmax.get_max().unwrap();
        assert!(
            mmax <= radius_sq,
            "found distance :{:?}, expected to be less than {:?}",
            mmax,
            radius_sq
        );
    }
}

#[test]
fn test_range_query_4_cgmath_f32() {
    let mut a_point = pt(1.0, 2.0);
    a_point.set_x(fx(4.0));
    a_point.set_x(fx(8.0));

    let mut kdtree = KDTree::<Point2>::default();
    let mut rng: StdRng = SeedableRng::seed_from_u64(42);

    let mut points = vec![pt(2.0, 3.0), pt(8.0, 1.0), pt(7.0, 2.0)];
    for _ in 0..3000 {
        let x: f32 = rng.gen_range(0.0..10.0);
        let y: f32 = rng.gen_range(0.0..10.0);
        points.push(pt(x as f64, y as f64));
    }

    for point in &points {
        kdtree.insert(point.clone()).unwrap();
    }

    let search_radius = 0.01_f32;
    let radius = fx(search_radius as f64);
    let radius_sq = radius * radius;
    let offset_component = ((1.0_f32 / 2.0_f32.sqrt()) * search_radius * 0.99995) as f64;
    let offset = pt(offset_component, offset_component);

    for search_point in &points {
        let mut mmax = MaximumTracker::<i64>::default();
        let offset_search_position =
            Point2::new(search_point.x + offset.x, search_point.y + offset.y);

        kdtree.closure_range_query(&offset_search_position, radius, |site: &Point2| {
            if search_point == site {
                let dist_sq = PointTrait::dist_sq(search_point, site);
                mmax.insert(dist_sq);
                assert!(
                    dist_sq <= radius_sq,
                    "found distance :{:?}, expected to be less than {:?}",
                    dist_sq,
                    radius_sq
                );
            } else {
                let real_dist_sq = PointTrait::dist_sq(&offset_search_position, site);
                assert!(
                    real_dist_sq <= radius_sq,
                    "Found a match outside the search radius. dist:{} search_radius:{}",
                    real_dist_sq,
                    radius_sq
                );
            }
        });
        assert!(
            mmax.get_max().is_some(),
            "The expected sample was not found"
        );
        let mmax = mmax.get_max().unwrap();
        assert!(
            mmax <= radius_sq,
            "found distance :{:?}, expected to be less than {:?}",
            mmax,
            radius_sq
        );
    }
}

#[test]
fn test_range_query_4_cgmath_f64() {
    let mut a_point = pt(1.0, 2.0);
    a_point.set_x(fx(4.0));
    a_point.set_x(fx(8.0));

    let mut kdtree = KDTree::<Point2>::default();
    let mut rng: StdRng = SeedableRng::seed_from_u64(42);

    let mut points = vec![pt(2.0, 3.0), pt(8.0, 1.0), pt(7.0, 2.0)];
    for _ in 0..3000 {
        let x: f64 = rng.gen_range(0.0..10.0);
        let y: f64 = rng.gen_range(0.0..10.0);
        points.push(pt(x, y));
    }

    for point in &points {
        kdtree.insert(point.clone()).unwrap();
    }

    let search_radius = 0.01_f64;
    let radius = fx(search_radius);
    let radius_sq = radius * radius;
    let offset_component = (1.0_f64 / 2.0_f64.sqrt()) * search_radius * 0.99995;
    let offset = pt(offset_component, offset_component);

    for search_point in &points {
        let mut mmax = MaximumTracker::<i64>::default();
        let offset_search_position =
            Point2::new(search_point.x + offset.x, search_point.y + offset.y);

        kdtree.closure_range_query(&offset_search_position, radius, |site: &Point2| {
            if search_point == site {
                let dist_sq = PointTrait::dist_sq(search_point, site);
                mmax.insert(dist_sq);
                assert!(
                    dist_sq <= radius_sq,
                    "found distance :{:?}, expected to be less than {:?}",
                    dist_sq,
                    radius_sq
                );
            } else {
                let real_dist_sq = PointTrait::dist_sq(&offset_search_position, site);
                assert!(
                    real_dist_sq <= radius_sq,
                    "Found a match outside the search radius. dist:{} search_radius:{}",
                    real_dist_sq,
                    radius_sq
                );
            }
        });
        assert!(
            mmax.get_max().is_some(),
            "The expected sample was not found"
        );
        let mmax = mmax.get_max().unwrap();
        assert!(
            mmax <= radius_sq,
            "found distance :{:?}, expected to be less than {:?}",
            mmax,
            radius_sq
        );
    }
}

#[test]
fn test_set_x_set_y() {
    // test the set_x() and set_y() of the point capability
    let mut a_point = pt(1.0, 2.0);
    a_point.set_x(fx(4.0));
    a_point.set_y(fx(8.0));
    assert_eq!(a_point.x(), fx(4.0));
    assert_eq!(a_point.y(), fx(8.0));

    let mut a_point = Point2::new(1, 2);
    a_point.set_x(4);
    a_point.set_y(8);
    assert_eq!(a_point.x(), 4);
    assert_eq!(a_point.y(), 8);

    let mut a_point = Point2::new(-1, -2);
    a_point.set_x(-4);
    a_point.set_y(-8);
    assert_eq!(a_point.x(), -4);
    assert_eq!(a_point.y(), -8);

    let mut a_point = Point2::new(0, 0);
    a_point.set_at(0, 4);
    a_point.set_at(1, 8);
    assert_eq!(a_point.at(0), 4);
    assert_eq!(a_point.at(1), 8);

    let a = pt(1.5, 2.5);
    let b = pt(4.5, 6.5);
    assert_eq!(dist_sq_between(&a, &b), PointTrait::dist_sq(&a, &b));
}
