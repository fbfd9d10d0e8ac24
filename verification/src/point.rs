//! The point capability: per-axis coordinate access for 2-dimensional
//! points, and the squared-distance arithmetic the tree is built on.

use vstd::prelude::*;

verus! {

/// Every coordinate handled by the tree must lie in
/// `[-COORD_BOUND, COORD_BOUND]`, so that squared distances between any
/// two points fit in an `i64` without overflow.
pub const COORD_BOUND: i64 = 1_000_000_000;

/// Largest radius accepted by the range queries: `RADIUS_BOUND` squared
/// still fits in an `i64`, and any two in-bounds points are closer than
/// this, so the bound excludes no meaningful query.
pub const RADIUS_BOUND: i64 = 3_000_000_000;

/// The mathematical value of a point: its two coordinates.
pub open spec fn pt2<P: PointTrait>(p: P) -> (int, int) {
    (p.coord(0), p.coord(1))
}

/// Both coordinates of the pair lie in `[-COORD_BOUND, COORD_BOUND]`.
pub open spec fn in_bounds(p: (int, int)) -> bool {
    &&& -(COORD_BOUND as int) <= p.0 <= COORD_BOUND as int
    &&& -(COORD_BOUND as int) <= p.1 <= COORD_BOUND as int
}

/// The point's coordinates lie in `[-COORD_BOUND, COORD_BOUND]`.
pub open spec fn pt_bounded<P: PointTrait>(p: P) -> bool {
    in_bounds(pt2(p))
}

/// Coordinate of a pair along axis `d`: axis 0 is the first component,
/// any other axis the second.
pub open spec fn sel(p: (int, int), d: int) -> int {
    if d == 0 {
        p.0
    } else {
        p.1
    }
}

/// Squared Euclidean distance between two coordinate pairs.
pub open spec fn dist_sq_spec(a: (int, int), b: (int, int)) -> int {
    (a.0 - b.0) * (a.0 - b.0) + (a.1 - b.1) * (a.1 - b.1)
}

/// Squaring is bounded: `|x| <= m` gives `0 <= x * x <= m * m`.
pub proof fn lemma_square_bound(x: int, m: int)
    requires
        -m <= x <= m,
        0 <= m,
    ensures
        0 <= x * x <= m * m,
{
    assert(0 <= x * x <= m * m) by (nonlinear_arith)
        requires
            -m <= x <= m,
            0 <= m,
    ;
}

/// Squaring is monotone on non-negative values.
pub proof fn lemma_square_mono(a: int, b: int)
    requires
        0 <= a <= b,
    ensures
        a * a <= b * b,
{
    assert(a * a <= b * b) by (nonlinear_arith)
        requires
            0 <= a <= b,
    ;
}

/// Squared distance is symmetric in its two arguments.
pub proof fn lemma_dist_sq_sym(a: (int, int), b: (int, int))
    ensures
        dist_sq_spec(a, b) == dist_sq_spec(b, a),
{
    assert((a.0 - b.0) * (a.0 - b.0) == (b.0 - a.0) * (b.0 - a.0)) by (nonlinear_arith);
    assert((a.1 - b.1) * (a.1 - b.1) == (b.1 - a.1) * (b.1 - a.1)) by (nonlinear_arith);
}

/// The capability contract every point type stored in the tree satisfies:
/// read and write access to the two coordinates, singly and by axis index,
/// plus squared-distance computation between points that may differ in
/// representation.
pub trait PointTrait: Sized {
    /// The mathematical coordinate of the point along `index`
    /// (axis 0 or axis 1).
    spec fn coord(&self, index: int) -> int;

    /// The coordinate on axis 0.
    fn x(&self) -> (r: i64)
        ensures
            r as int == self.coord(0),
    ;

    /// The coordinate on axis 1.
    fn y(&self) -> (r: i64)
        ensures
            r as int == self.coord(1),
    ;

    /// Replaces the coordinate on axis 0.
    fn set_x(&mut self, x: i64)
        ensures
            final(self).coord(0) == x as int,
            final(self).coord(1) == old(self).coord(1),
    ;

    /// Replaces the coordinate on axis 1.
    fn set_y(&mut self, y: i64)
        ensures
            final(self).coord(0) == old(self).coord(0),
            final(self).coord(1) == y as int,
    ;

    /// Indexed coordinate access. An axis index outside `[0, 2)` is a
    /// precondition violation, never a recoverable error: every internal
    /// call site derives the index from the fixed dimension.
    fn at(&self, index: u8) -> (r: i64)
        requires
            index < 2,
        ensures
            r as int == self.coord(index as int),
    ;

    /// Indexed coordinate replacement; the other axis is untouched.
    fn set_at(&mut self, index: u8, value: i64)
        requires
            index < 2,
        ensures
            final(self).coord(index as int) == value as int,
            final(self).coord(1 - index as int) == old(self).coord(1 - index as int),
    ;

    /// A copy of the point with the same coordinates.
    fn clone_point(&self) -> (r: Self)
        ensures
            r.coord(0) == self.coord(0),
            r.coord(1) == self.coord(1),
    ;

    /// Squared Euclidean distance between this point and another of the
    /// same representation. [`dist_sq_between`] computes the same value
    /// across two different point representations.
    fn dist_sq(a: &Self, b: &Self) -> (r: i64)
        requires
            in_bounds((a.coord(0), a.coord(1))),
            in_bounds((b.coord(0), b.coord(1))),
        ensures
            r as int == dist_sq_spec((a.coord(0), a.coord(1)), (b.coord(0), b.coord(1))),
    ;
}

/// Squared Euclidean distance between two points of any representations;
/// the body every implementation of [`PointTrait::dist_sq`] delegates to.
pub fn dist_sq_between<P: PointTrait, Q: PointTrait>(a: &P, b: &Q) -> (r: i64)
    requires
        pt_bounded(*a),
        pt_bounded(*b),
    ensures
        r as int == dist_sq_spec(pt2(*a), pt2(*b)),
{
    let dx: i64 = a.x() - b.x();
    let dy: i64 = a.y() - b.y();
    proof {
        lemma_square_bound(dx as int, 2 * COORD_BOUND as int);
        lemma_square_bound(dy as int, 2 * COORD_BOUND as int);
    }
    dx * dx + dy * dy
}

/// Coordinate access keyed by a `usize` axis index, for callers that
/// address axes positionally.
pub trait KDPoint<P: PointTrait> {
    /// The mathematical coordinate along `index` (axis 0 or axis 1).
    spec fn coordinate(&self, index: int) -> int;

    /// Reads the coordinate along `index`.
    fn get_coordinate(&self, index: usize) -> (r: i64)
        requires
            index < 2,
        ensures
            r as int == self.coordinate(index as int),
    ;

    /// Replaces the coordinate along `index`; the other axis is untouched.
    fn set_coordinate(&mut self, index: usize, value: i64)
        requires
            index < 2,
        ensures
            final(self).coordinate(index as int) == value as int,
            final(self).coordinate(1 - index as int) == old(self).coordinate(1 - index as int),
    ;
}

/// A plain two-coordinate point; the library's own implementation of the
/// point capability.
#[derive(Clone, Copy, PartialEq, Eq, Structural, PartialOrd, Ord, Hash, Debug)]
pub struct Point2 {
    pub x: i64,
    pub y: i64,
}

impl Point2 {
    /// Builds the point `(x, y)`.
    pub fn new(x: i64, y: i64) -> (r: Self)
        ensures
            r.coord(0) == x as int,
            r.coord(1) == y as int,
    {
        Point2 { x, y }
    }
}

impl PointTrait for Point2 {
    open spec fn coord(&self, index: int) -> int {
        if index == 0 {
            self.x as int
        } else {
            self.y as int
        }
    }

    fn x(&self) -> i64 {
        self.x
    }

    fn y(&self) -> i64 {
        self.y
    }

    fn set_x(&mut self, x: i64) {
        self.x = x;
    }

    fn set_y(&mut self, y: i64) {
        self.y = y;
    }

    fn at(&self, index: u8) -> i64 {
        if index == 0 {
            self.x
        } else {
            self.y
        }
    }

    fn set_at(&mut self, index: u8, value: i64) {
        if index == 0 {
            self.x = value;
        } else {
            self.y = value;
        }
    }

    fn clone_point(&self) -> Point2 {
        Point2 { x: self.x, y: self.y }
    }

    fn dist_sq(a: &Self, b: &Self) -> i64 {
        let dx: i64 = a.x - b.x;
        let dy: i64 = a.y - b.y;
        proof {
            lemma_square_bound(dx as int, 2 * COORD_BOUND as int);
            lemma_square_bound(dy as int, 2 * COORD_BOUND as int);
        }
        dx * dx + dy * dy
    }
}

impl KDPoint<Point2> for Point2 {
    open spec fn coordinate(&self, index: int) -> int {
        self.coord(index)
    }

    fn get_coordinate(&self, index: usize) -> i64 {
        if index == 0 {
            self.x
        } else {
            self.y
        }
    }

    fn set_coordinate(&mut self, index: usize, value: i64) {
        if index == 0 {
            self.x = value;
        } else {
            self.y = value;
        }
    }
}

} // verus!
