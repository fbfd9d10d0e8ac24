//! Axis-aligned bounding rectangles, and the squared distance from a
//! point to a rectangle that underlies every pruning decision of the
//! tree's searches.

use vstd::prelude::*;

use crate::point::{in_bounds, pt2, sel, dist_sq_spec, lemma_square_mono, PointTrait, COORD_BOUND};

verus! {

/// An axis-aligned bounding box, given by its minimum and maximum corner
/// points.
pub(crate) struct HyperRectangle<P: PointTrait> {
    pub(crate) min: P,
    pub(crate) max: P,
}

/// The mathematical value of a rectangle: its two corner coordinate pairs.
pub(crate) open spec fn rect_view<P: PointTrait>(r: HyperRectangle<P>) -> ((int, int), (int, int)) {
    (pt2(r.min), pt2(r.max))
}

/// Both corners lie within the coordinate bound.
pub open spec fn rect_bounded(rv: ((int, int), (int, int))) -> bool {
    in_bounds(rv.0) && in_bounds(rv.1)
}

/// The pair `p` lies inside the rectangle or on its boundary.
pub open spec fn in_rect(rv: ((int, int), (int, int)), p: (int, int)) -> bool {
    &&& rv.0.0 <= p.0 <= rv.1.0
    &&& rv.0.1 <= p.1 <= rv.1.1
}

/// Distance from coordinate `q` to the interval `[lo, hi]` along one
/// axis: 0 if `q` lies inside it.
pub open spec fn axis_gap(lo: int, hi: int, q: int) -> int {
    if q < lo {
        lo - q
    } else if q > hi {
        q - hi
    } else {
        0
    }
}

/// Squared distance from the pair `q` to the rectangle: the sum over the
/// axes of the squared gap between `q`'s coordinate and the rectangle's
/// interval on that axis. 0 exactly when `q` lies inside or on the
/// boundary of the rectangle.
pub open spec fn box_dist_sq_spec(rv: ((int, int), (int, int)), q: (int, int)) -> int {
    axis_gap(rv.0.0, rv.1.0, q.0) * axis_gap(rv.0.0, rv.1.0, q.0) + axis_gap(
        rv.0.1,
        rv.1.1,
        q.1,
    ) * axis_gap(rv.0.1, rv.1.1, q.1)
}

/// Squaring ignores sign: `(-x)^2 == x^2`.
pub(crate) proof fn lemma_square_neg(x: int)
    ensures
        x * x == (-x) * (-x),
{
    assert(x * x == (-x) * (-x)) by (nonlinear_arith);
}

/// One axis of the pruning bound: the squared gap to the interval is at
/// most the squared difference to any coordinate inside the interval.
proof fn lemma_axis_gap_le(lo: int, hi: int, q: int, p: int)
    requires
        lo <= p <= hi,
    ensures
        axis_gap(lo, hi, q) * axis_gap(lo, hi, q) <= (q - p) * (q - p),
{
    let g = axis_gap(lo, hi, q);
    if q < lo {
        lemma_square_mono(g, p - q);
        lemma_square_neg(q - p);
    } else if q > hi {
        lemma_square_mono(g, q - p);
    } else {
        lemma_square_mono(0, if q - p >= 0 {
            q - p
        } else {
            p - q
        });
        lemma_square_neg(q - p);
    }
}

/// Soundness of pruning: the squared distance from `q` to the rectangle
/// is a lower bound on the squared distance from `q` to every pair lying
/// within the rectangle.
pub proof fn lemma_box_dist_le_dist(rv: ((int, int), (int, int)), q: (int, int), p: (int, int))
    requires
        in_rect(rv, p),
    ensures
        box_dist_sq_spec(rv, q) <= dist_sq_spec(q, p),
{
    lemma_axis_gap_le(rv.0.0, rv.1.0, q.0, p.0);
    lemma_axis_gap_le(rv.0.1, rv.1.1, q.1, p.1);
}

impl<P: PointTrait> HyperRectangle<P> {
    /// A copy of the rectangle with the same corner coordinates.
    pub(crate) fn clone_rect(&self) -> (r: Self)
        ensures
            rect_view(r) == rect_view(*self),
    {
        HyperRectangle { min: self.min.clone_point(), max: self.max.clone_point() }
    }

    /// Replaces the maximum corner's coordinate on axis `dir` by `v` and
    /// hands back the previous value, so a caller can narrow the
    /// rectangle for a descent and restore it exactly afterwards.
    pub(crate) fn replace_max(&mut self, dir: u8, v: i64) -> (saved: i64)
        requires
            dir < 2,
        ensures
            saved as int == sel(rect_view(*old(self)).1, dir as int),
            rect_view(*final(self)).0 == rect_view(*old(self)).0,
            sel(rect_view(*final(self)).1, dir as int) == v as int,
            sel(rect_view(*final(self)).1, 1 - dir as int) == sel(
                rect_view(*old(self)).1,
                1 - dir as int,
            ),
    {
        let saved = self.max.at(dir);
        self.max.set_at(dir, v);
        saved
    }

    /// Replaces the minimum corner's coordinate on axis `dir` by `v` and
    /// hands back the previous value.
    pub(crate) fn replace_min(&mut self, dir: u8, v: i64) -> (saved: i64)
        requires
            dir < 2,
        ensures
            saved as int == sel(rect_view(*old(self)).0, dir as int),
            rect_view(*final(self)).1 == rect_view(*old(self)).1,
            sel(rect_view(*final(self)).0, dir as int) == v as int,
            sel(rect_view(*final(self)).0, 1 - dir as int) == sel(
                rect_view(*old(self)).0,
                1 - dir as int,
            ),
    {
        let saved = self.min.at(dir);
        self.min.set_at(dir, v);
        saved
    }
}

/// A pair is in bounds when its coordinate on axis `d` and on the other
/// axis both are.
pub(crate) proof fn lemma_in_bounds_by_sel(a: (int, int), d: int)
    requires
        0 <= d < 2,
        -(COORD_BOUND as int) <= sel(a, d) <= COORD_BOUND as int,
        -(COORD_BOUND as int) <= sel(a, 1 - d) <= COORD_BOUND as int,
    ensures
        in_bounds(a),
{
    if d == 0 {
    } else {
    }
}

/// Two pairs agreeing on axis `d` and on the other axis are equal.
pub(crate) proof fn lemma_pair_eq_by_sel(a: (int, int), b: (int, int), d: int)
    requires
        0 <= d < 2,
        sel(a, d) == sel(b, d),
        sel(a, 1 - d) == sel(b, 1 - d),
    ensures
        a == b,
{
    if d == 0 {
    } else {
    }
}

/// A pair inside a rectangle stays inside when the maximum bound on axis
/// `d` moves to any value still above the pair's coordinate.
pub(crate) proof fn lemma_in_rect_set_max(
    rv: ((int, int), (int, int)),
    rv2: ((int, int), (int, int)),
    d: int,
    v: int,
    q: (int, int),
)
    requires
        0 <= d < 2,
        in_rect(rv, q),
        sel(q, d) <= v,
        rv2.0 == rv.0,
        sel(rv2.1, d) == v,
        sel(rv2.1, 1 - d) == sel(rv.1, 1 - d),
    ensures
        in_rect(rv2, q),
{
    if d == 0 {
    } else {
    }
}

/// A pair inside a rectangle stays inside when the minimum bound on axis
/// `d` moves to any value still below the pair's coordinate.
pub(crate) proof fn lemma_in_rect_set_min(
    rv: ((int, int), (int, int)),
    rv2: ((int, int), (int, int)),
    d: int,
    v: int,
    q: (int, int),
)
    requires
        0 <= d < 2,
        in_rect(rv, q),
        sel(q, d) >= v,
        rv2.1 == rv.1,
        sel(rv2.0, d) == v,
        sel(rv2.0, 1 - d) == sel(rv.0, 1 - d),
    ensures
        in_rect(rv2, q),
{
    if d == 0 {
    } else {
    }
}

} // verus!
