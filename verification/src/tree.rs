//! The kd-tree engine: recursive insertion, nearest-neighbour search and
//! radius-bounded range queries over two-dimensional points.

use vstd::prelude::*;

use crate::KrakelError;
use crate::point::{
    pt2, pt_bounded, sel, dist_sq_spec, dist_sq_between, lemma_square_bound, lemma_dist_sq_sym,
    PointTrait, RADIUS_BOUND,
};
use crate::rect::{
    box_dist_sq_spec, in_rect, rect_bounded, rect_view, axis_gap, lemma_box_dist_le_dist,
    lemma_in_bounds_by_sel, lemma_in_rect_set_max, lemma_in_rect_set_min, lemma_pair_eq_by_sel,
    lemma_square_neg, HyperRectangle,
};

verus! {

/// A binary tree node holding one point, the axis it splits on, and two
/// exclusively-owned optional children.
pub struct KDNode<P: PointTrait> {
    pos: P,
    dir: u8,
    left: Option<Box<KDNode<P>>>,
    right: Option<Box<KDNode<P>>>,
}

/// The kd-tree: an optional root node together with an incrementally
/// maintained bounding rectangle that covers every inserted point.
pub struct KDTree<P: PointTrait> {
    root: Option<Box<KDNode<P>>>,
    rect: Option<HyperRectangle<P>>,
}

impl<P: PointTrait> KDNode<P> {
    /// The points of an optional subtree, in left-to-right order.
    pub closed spec fn opt_pts(node: Option<Box<KDNode<P>>>) -> Seq<(int, int)>
        decreases node,
    {
        match node {
            None => Seq::empty(),
            Some(n) => n.pts(),
        }
    }

    /// The points of the subtree rooted here, in left-to-right order.
    pub closed spec fn pts(self) -> Seq<(int, int)>
        decreases self,
    {
        Self::opt_pts(self.left) + seq![pt2(self.pos)] + Self::opt_pts(self.right)
    }

    /// Well-formedness of an optional subtree expected to split on `dir`.
    pub closed spec fn opt_wf(node: Option<Box<KDNode<P>>>, dir: int) -> bool
        decreases node,
    {
        match node {
            None => true,
            Some(n) => n.dir as int == dir && n.wf(),
        }
    }

    /// Well-formedness of the subtree rooted here: the splitting axis is
    /// 0 or 1 and alternates between levels, the stored point is in
    /// bounds, every point in the left subtree lies strictly below this
    /// node's coordinate on the splitting axis, and every point in the
    /// right subtree lies on or above it (ties go right).
    pub closed spec fn wf(self) -> bool
        decreases self,
    {
        &&& self.dir < 2
        &&& pt_bounded(self.pos)
        &&& Self::opt_wf(self.left, (self.dir as int + 1) % 2)
        &&& Self::opt_wf(self.right, (self.dir as int + 1) % 2)
        &&& (forall|q: (int, int)|
            Self::opt_pts(self.left).contains(q) ==> sel(q, self.dir as int) < sel(
                pt2(self.pos),
                self.dir as int,
            ))
        &&& (forall|q: (int, int)|
            Self::opt_pts(self.right).contains(q) ==> sel(q, self.dir as int) >= sel(
                pt2(self.pos),
                self.dir as int,
            ))
    }
}

impl<P: PointTrait> KDNode<P> {
    /// The in-range points of an optional subtree, in the order the range
    /// queries visit them.
    pub closed spec fn opt_range_order(
        node: Option<Box<KDNode<P>>>,
        q: (int, int),
        rsq: int,
    ) -> Seq<(int, int)>
        decreases node,
    {
        match node {
            None => Seq::empty(),
            Some(n) => n.range_order(q, rsq),
        }
    }

    /// The points of this subtree within squared distance `rsq` of `q`,
    /// in the order the range queries visit them: the child on `q`'s side
    /// of the splitting plane first (ties to the left), then the node's
    /// own point if it qualifies, then the farther child.
    pub closed spec fn range_order(self, q: (int, int), rsq: int) -> Seq<(int, int)>
        decreases self,
    {
        let d = self.dir as int;
        let mid = pt2(self.pos);
        let own = if dist_sq_spec(mid, q) <= rsq {
            seq![mid]
        } else {
            Seq::<(int, int)>::empty()
        };
        if sel(q, d) <= sel(mid, d) {
            Self::opt_range_order(self.left, q, rsq) + own + Self::opt_range_order(
                self.right,
                q,
                rsq,
            )
        } else {
            Self::opt_range_order(self.right, q, rsq) + own + Self::opt_range_order(
                self.left,
                q,
                rsq,
            )
        }
    }
}

impl<P: PointTrait> KDTree<P> {
    /// The listing of every stored point, in left-to-right tree order.
    pub closed spec fn points(self) -> Seq<(int, int)> {
        KDNode::opt_pts(self.root)
    }

    /// The stored points within squared distance `rsq` of `q`, in the
    /// order the range queries visit them.
    pub closed spec fn range_order(self, q: (int, int), rsq: int) -> Seq<(int, int)> {
        KDNode::opt_range_order(self.root, q, rsq)
    }

    /// The bounding rectangle's corner pairs, or `None` for an empty tree.
    pub closed spec fn rect_vw(self) -> Option<((int, int), (int, int))> {
        match self.rect {
            None => None,
            Some(r) => Some(rect_view(r)),
        }
    }

    /// Well-formedness of the whole tree: a well-formed node structure
    /// whose root splits on axis 0, and a bounding rectangle that exists
    /// exactly when the tree is non-empty, contains every point, and is
    /// tight: each of its four bounds is attained by some point.
    pub closed spec fn wf(self) -> bool {
        &&& KDNode::opt_wf(self.root, 0)
        &&& (self.root is None <==> self.rect is None)
        &&& match self.rect {
            None => true,
            Some(r) => {
                &&& rect_bounded(rect_view(r))
                &&& (forall|q: (int, int)| self.points().contains(q) ==> in_rect(rect_view(r), q))
                &&& (exists|q: (int, int)| self.points().contains(q) && q.0 == rect_view(r).0.0)
                &&& (exists|q: (int, int)| self.points().contains(q) && q.1 == rect_view(r).0.1)
                &&& (exists|q: (int, int)| self.points().contains(q) && q.0 == rect_view(r).1.0)
                &&& (exists|q: (int, int)| self.points().contains(q) && q.1 == rect_view(r).1.1)
            },
        }
    }
}

/// Membership in a concatenation is membership in either part.
proof fn lemma_contains_concat<A>(a: Seq<A>, b: Seq<A>)
    ensures
        forall|x: A| #[trigger] (a + b).contains(x) <==> a.contains(x) || b.contains(x),
{
    assert forall|x: A| #[trigger] (a + b).contains(x) implies a.contains(x) || b.contains(x) by {
        let i = choose|i: int| 0 <= i < (a + b).len() && (a + b)[i] == x;
        if i < a.len() {
            assert(a[i] == x);
        } else {
            assert(b[i - a.len()] == x);
        }
    }
    assert forall|x: A| a.contains(x) || b.contains(x) implies #[trigger] (a + b).contains(x) by {
        if a.contains(x) {
            let i = choose|i: int| 0 <= i < a.len() && a[i] == x;
            assert((a + b)[i] == x);
        } else {
            let i = choose|i: int| 0 <= i < b.len() && b[i] == x;
            assert((a + b)[a.len() + i] == x);
        }
    }
}

/// Membership in a node's point listing, split into the three parts it
/// is assembled from.
proof fn lemma_node_pts_parts<P: PointTrait>(n: KDNode<P>)
    ensures
        forall|q: (int, int)|
            n.pts().contains(q) <==> (KDNode::opt_pts(n.left).contains(q) || q == pt2(n.pos)
                || KDNode::opt_pts(n.right).contains(q)),
        n.pts().contains(pt2(n.pos)),
{
    let l = KDNode::opt_pts(n.left);
    let m = seq![pt2(n.pos)];
    let r = KDNode::opt_pts(n.right);
    lemma_contains_concat(l + m, r);
    lemma_contains_concat(l, m);
    assert(m[0] == pt2(n.pos));
    assert(m.contains(pt2(n.pos)));
    assert forall|q: (int, int)| m.contains(q) implies q == pt2(n.pos) by {
        let i = choose|i: int| 0 <= i < m.len() && m[i] == q;
    }
    assert(n.pts() == (l + m) + r);
}

/// What adding one element to a sequence, stated on multisets, says about
/// membership: the new sequence holds the new element, everything it holds
/// was already there or is the new element, and nothing is lost.
proof fn lemma_multiset_insert_transfer<A>(s1: Seq<A>, s2: Seq<A>, x: A)
    requires
        s2.to_multiset() == s1.to_multiset().insert(x),
    ensures
        s2.contains(x),
        forall|y: A| s2.contains(y) ==> s1.contains(y) || y == x,
        forall|y: A| s1.contains(y) ==> s2.contains(y),
{
    broadcast use vstd::seq_lib::group_to_multiset_ensures;
    broadcast use vstd::multiset::group_multiset_axioms;

    assert(s2.to_multiset().count(x) == s1.to_multiset().count(x) + 1);
    assert(s2.contains(x));
    assert forall|y: A| s2.contains(y) implies s1.contains(y) || y == x by {
        if y != x {
            assert(s2.to_multiset().count(y) == s1.to_multiset().count(y));
        }
    }
    assert forall|y: A| s1.contains(y) implies s2.contains(y) by {
        if y != x {
            assert(s2.to_multiset().count(y) == s1.to_multiset().count(y));
        }
    }
}

impl<P: PointTrait> KDNode<P> {
    /// Places `pos` at the first empty slot reached by descending the
    /// subtree: strictly smaller coordinates on a node's splitting axis
    /// go left, all others (ties included) go right.
    fn recursive_insert(
        node: &mut Option<Box<KDNode<P>>>,
        pos: P,
        dir: u8,
        dim: u8,
    ) -> (r: Result<(), KrakelError>)
        requires
            dim == 2,
            dir < 2,
            KDNode::opt_wf(*old(node), dir as int),
            pt_bounded(pos),
        ensures
            r is Ok,
            KDNode::opt_wf(*final(node), dir as int),
            KDNode::opt_pts(*final(node)).to_multiset() == KDNode::opt_pts(*old(node)).to_multiset().insert(
                pt2(pos),
            ),
        decreases *old(node),
    {
        let ghost pv = pt2(pos);
        match node.take() {
            None => {
                *node = Some(
                    Box::new(KDNode { pos, dir, left: None, right: None }),
                );
                proof {
                    broadcast use vstd::seq_lib::group_to_multiset_ensures;
                    broadcast use vstd::multiset::group_multiset_axioms;

                    let n = node.unwrap();
                    assert(KDNode::opt_pts(n.left) == Seq::<(int, int)>::empty());
                    assert(n.pts() =~= seq![pv]);
                    assert(seq![pv] == Seq::<(int, int)>::empty().push(pv));
                    assert(Seq::<(int, int)>::empty().push(pv).to_multiset() =~= Seq::<
                        (int, int),
                    >::empty().to_multiset().insert(pv));
                    assert forall|q: (int, int)|
                        KDNode::opt_pts(n.left).contains(q) implies false by {}
                    assert(n.wf());
                }
                Ok(())
            },
            Some(mut current) => {
                let ghost old_node = *current;
                let new_dir = (current.dir + 1) % dim;
                if pos.at(current.dir) < current.pos.at(current.dir) {
                    let r = Self::recursive_insert(&mut current.left, pos, new_dir, dim);
                    proof {
                        let d = old_node.dir as int;
                        lemma_multiset_insert_transfer(
                            KDNode::opt_pts(old_node.left),
                            KDNode::opt_pts(current.left),
                            pv,
                        );
                        assert(sel(pv, d) < sel(pt2(old_node.pos), d));
                        assert forall|q: (int, int)|
                            KDNode::opt_pts(current.left).contains(q) implies sel(q, d) < sel(
                            pt2(old_node.pos),
                            d,
                        ) by {
                            if q != pv {
                                assert(KDNode::opt_pts(old_node.left).contains(q));
                            }
                        }
                        lemma_concat_multiset_insert(
                            KDNode::opt_pts(old_node.left),
                            KDNode::opt_pts(current.left),
                            pt2(current.pos),
                            KDNode::opt_pts(current.right),
                            pv,
                        );
                        assert(current.wf());
                    }
                    *node = Some(current);
                    r
                } else {
                    let r = Self::recursive_insert(&mut current.right, pos, new_dir, dim);
                    proof {
                        let d = old_node.dir as int;
                        lemma_multiset_insert_transfer(
                            KDNode::opt_pts(old_node.right),
                            KDNode::opt_pts(current.right),
                            pv,
                        );
                        assert(sel(pv, d) >= sel(pt2(old_node.pos), d));
                        assert forall|q: (int, int)|
                            KDNode::opt_pts(current.right).contains(q) implies sel(q, d) >= sel(
                            pt2(old_node.pos),
                            d,
                        ) by {
                            if q != pv {
                                assert(KDNode::opt_pts(old_node.right).contains(q));
                            }
                        }
                        lemma_concat_multiset_insert_right(
                            KDNode::opt_pts(current.left),
                            pt2(current.pos),
                            KDNode::opt_pts(old_node.right),
                            KDNode::opt_pts(current.right),
                            pv,
                        );
                        assert(current.wf());
                    }
                    *node = Some(current);
                    r
                }
            },
        }
    }
}

/// The points of `pts` lying within squared distance `rsq` of `q`, in
/// their order in `pts`.
pub open spec fn in_range_pts(pts: Seq<(int, int)>, q: (int, int), rsq: int) -> Seq<(int, int)>
    decreases pts.len(),
{
    if pts.len() == 0 {
        Seq::empty()
    } else {
        let rest = in_range_pts(pts.drop_last(), q, rsq);
        if dist_sq_spec(pts.last(), q) <= rsq {
            rest.push(pts.last())
        } else {
            rest
        }
    }
}

/// The effective squared radius of a range query: the square of a
/// non-negative radius; a negative radius admits no point at all.
pub open spec fn radius_sq_spec(radius: int) -> int {
    if radius >= 0 {
        radius * radius
    } else {
        -1
    }
}

/// The coordinate pairs of a sequence of points.
pub open spec fn pts_of<P: PointTrait>(s: Seq<P>) -> Seq<(int, int)> {
    s.map_values(|p: P| pt2(p))
}

/// Selecting the in-range points distributes over concatenation.
proof fn lemma_in_range_concat(a: Seq<(int, int)>, b: Seq<(int, int)>, q: (int, int), rsq: int)
    ensures
        in_range_pts(a + b, q, rsq) == in_range_pts(a, q, rsq) + in_range_pts(b, q, rsq),
    decreases b.len(),
{
    if b.len() == 0 {
        assert(a + b =~= a);
        assert(in_range_pts(b, q, rsq) =~= Seq::<(int, int)>::empty());
        assert(in_range_pts(a, q, rsq) + Seq::<(int, int)>::empty() =~= in_range_pts(a, q, rsq));
    } else {
        lemma_in_range_concat(a, b.drop_last(), q, rsq);
        assert((a + b).drop_last() =~= a + b.drop_last());
        assert((a + b).last() == b.last());
        if dist_sq_spec(b.last(), q) <= rsq {
            assert(in_range_pts(a, q, rsq) + in_range_pts(b.drop_last(), q, rsq).push(b.last())
                =~= (in_range_pts(a, q, rsq) + in_range_pts(b.drop_last(), q, rsq)).push(
                b.last(),
            ));
        }
    }
}

/// A listing none of whose points is in range yields no in-range points.
proof fn lemma_in_range_empty(pts: Seq<(int, int)>, q: (int, int), rsq: int)
    requires
        forall|i: int| 0 <= i < pts.len() ==> dist_sq_spec(#[trigger] pts[i], q) > rsq,
    ensures
        in_range_pts(pts, q, rsq) == Seq::<(int, int)>::empty(),
    decreases pts.len(),
{
    if pts.len() > 0 {
        assert(dist_sq_spec(pts[pts.len() - 1], q) > rsq);
        assert(forall|i: int|
            0 <= i < pts.drop_last().len() ==> pts.drop_last()[i] == #[trigger] pts[i]);
        lemma_in_range_empty(pts.drop_last(), q, rsq);
    }
}

/// The in-range points of a one-point listing.
proof fn lemma_in_range_singleton(x: (int, int), q: (int, int), rsq: int)
    ensures
        in_range_pts(seq![x], q, rsq) == (if dist_sq_spec(x, q) <= rsq {
            seq![x]
        } else {
            Seq::<(int, int)>::empty()
        }),
{
    let s = seq![x];
    assert(s.last() == x);
    assert(s.drop_last() =~= Seq::<(int, int)>::empty());
    assert(in_range_pts(Seq::<(int, int)>::empty(), q, rsq) == Seq::<(int, int)>::empty());
    if dist_sq_spec(x, q) <= rsq {
        assert(Seq::<(int, int)>::empty().push(x) =~= seq![x]);
    }
}

/// Taking coordinate pairs commutes with appending a point.
proof fn lemma_pts_of_push<P: PointTrait>(s: Seq<P>, p: P)
    ensures
        pts_of(s.push(p)) == pts_of(s).push(pt2(p)),
{
    assert(pts_of(s.push(p)) =~= pts_of(s).push(pt2(p)));
}

/// Taking coordinate pairs commutes with concatenation.
proof fn lemma_pts_of_concat<P: PointTrait>(a: Seq<P>, b: Seq<P>)
    ensures
        pts_of(a + b) == pts_of(a) + pts_of(b),
{
    assert(pts_of(a + b) =~= pts_of(a) + pts_of(b));
}

impl<P: PointTrait> Default for KDTree<P> {
    /// An empty tree: no root and no bounding rectangle.
    fn default() -> (result: Self)
        ensures
            result.wf(),
            result.points() == Seq::<(int, int)>::empty(),
    {
        KDTree { root: None, rect: None }
    }
}

impl<P: PointTrait> KDTree<P> {
    /// Widens the rectangle's interval on axis `i` just enough to cover
    /// `pos`; the other axis is untouched.
    fn grow_axis(rect: &mut HyperRectangle<P>, pos: &P, i: u8)
        requires
            i < 2,
            sel(pt2(old(rect).min), i as int) <= sel(pt2(old(rect).max), i as int),
        ensures
            sel(pt2(final(rect).min), i as int) == (if sel(pt2(*pos), i as int) < sel(
                pt2(old(rect).min),
                i as int,
            ) {
                sel(pt2(*pos), i as int)
            } else {
                sel(pt2(old(rect).min), i as int)
            }),
            sel(pt2(final(rect).max), i as int) == (if sel(pt2(*pos), i as int) > sel(
                pt2(old(rect).max),
                i as int,
            ) {
                sel(pt2(*pos), i as int)
            } else {
                sel(pt2(old(rect).max), i as int)
            }),
            sel(pt2(final(rect).min), 1 - i as int) == sel(pt2(old(rect).min), 1 - i as int),
            sel(pt2(final(rect).max), 1 - i as int) == sel(pt2(old(rect).max), 1 - i as int),
    {
        let pos_val = pos.at(i);
        if pos_val < rect.min.at(i) {
            rect.min.set_at(i, pos_val);
        } else if pos_val > rect.max.at(i) {
            rect.max.set_at(i, pos_val);
        }
    }

    /// Inserts a point. Insertion always succeeds: the tree's listing
    /// gains exactly `pos`, and the bounding rectangle grows just enough
    /// to cover it.
    pub fn insert(&mut self, pos: P) -> (r: Result<(), KrakelError>)
        requires
            old(self).wf(),
            pt_bounded(pos),
        ensures
            r is Ok,
            final(self).wf(),
            final(self).points().to_multiset() == old(self).points().to_multiset().insert(
                pt2(pos),
            ),
    {
        let ghost pv = pt2(pos);
        let ghost old_pts = old(self).points();
        let pos2 = pos.clone_point();
        match KDNode::recursive_insert(&mut self.root, pos2, 0, 2) {
            Ok(()) => {},
            Err(e) => {
                return Err(e);
            },
        }
        proof {
            lemma_multiset_insert_transfer(old_pts, self.points(), pv);
        }
        let prev = self.rect.take();
        match prev {
            None => {
                self.rect = Some(
                    HyperRectangle { min: pos.clone_point(), max: pos.clone_point() },
                );
                proof {
                    let rv = rect_view(self.rect.unwrap());
                    assert(rv.0 == pv && rv.1 == pv);
                    assert(old_pts == Seq::<(int, int)>::empty());
                    assert forall|q: (int, int)| self.points().contains(q) implies in_rect(
                        rv,
                        q,
                    ) by {
                        assert(!old_pts.contains(q));
                    }
                    assert(self.points().contains(pv));
                }
            },
            Some(mut rc) => {
                let ghost rv0 = rect_view(rc);
                proof {
                    let w0 = choose|q: (int, int)| old_pts.contains(q) && q.0 == rv0.0.0;
                    assert(in_rect(rv0, w0));
                    let w1 = choose|q: (int, int)| old_pts.contains(q) && q.1 == rv0.0.1;
                    assert(in_rect(rv0, w1));
                }
                Self::grow_axis(&mut rc, &pos, 0);
                Self::grow_axis(&mut rc, &pos, 1);
                self.rect = Some(rc);
                proof {
                    let rv = rect_view(self.rect.unwrap());
                    assert(rv.0.0 <= rv0.0.0 && rv.0.1 <= rv0.0.1 && rv.1.0 >= rv0.1.0 && rv.1.1
                        >= rv0.1.1);
                    assert(in_rect(rv, pv));
                    assert forall|q: (int, int)| self.points().contains(q) implies in_rect(
                        rv,
                        q,
                    ) by {
                        if q != pv {
                            assert(old_pts.contains(q));
                            assert(in_rect(rv0, q));
                        }
                    }
                    assert(self.points().contains(pv));
                    let orv = rect_view(old(self).rect.unwrap());
                    assert(orv == rv0);
                    if pv.0 < rv0.0.0 {
                        assert(rv.0.0 == pv.0);
                    } else {
                        let q0 = choose|q: (int, int)| old_pts.contains(q) && q.0 == rv0.0.0;
                        assert(self.points().contains(q0));
                    }
                    if pv.1 < rv0.0.1 {
                        assert(rv.0.1 == pv.1);
                    } else {
                        let q0 = choose|q: (int, int)| old_pts.contains(q) && q.1 == rv0.0.1;
                        assert(self.points().contains(q0));
                    }
                    if pv.0 > rv0.1.0 {
                        assert(rv.1.0 == pv.0);
                    } else {
                        let q0 = choose|q: (int, int)| old_pts.contains(q) && q.0 == rv0.1.0;
                        assert(self.points().contains(q0));
                    }
                    if pv.1 > rv0.1.1 {
                        assert(rv.1.1 == pv.1);
                    } else {
                        let q0 = choose|q: (int, int)| old_pts.contains(q) && q.1 == rv0.1.1;
                        assert(self.points().contains(q0));
                    }
                }
            },
        }
        Ok(())
    }
}

impl<P: PointTrait> KDNode<P> {
    /// Collects into `results`, in traversal order, every point of this
    /// subtree within squared distance `radius_sq` of `pos`. The working
    /// rectangle is narrowed for each descent and restored exactly;
    /// subtrees whose narrowed rectangle already lies beyond `radius_sq`
    /// are pruned.
    fn recursive_range_query<Q: PointTrait>(
        &self,
        pos: &Q,
        radius_sq: i64,
        results: &mut Vec<P>,
        rect: &mut HyperRectangle<P>,
    )
        requires
            self.wf(),
            pt_bounded(*pos),
            rect_bounded(rect_view(*old(rect))),
            forall|q: (int, int)| self.pts().contains(q) ==> in_rect(rect_view(*old(rect)), q),
        ensures
            rect_view(*final(rect)) == rect_view(*old(rect)),
            pts_of(final(results)@) == pts_of(old(results)@) + self.range_order(
                pt2(*pos),
                radius_sq as int,
            ),
        decreases *self,
    {
        let ghost rv_in = rect_view(*rect);
        let ghost qv = pt2(*pos);
        let ghost rsq = radius_sq as int;
        let ghost lpts = KDNode::opt_pts(self.left);
        let ghost rpts = KDNode::opt_pts(self.right);
        let ghost mid = pt2(self.pos);
        let ghost d = self.dir as int;
        let ghost s0 = pts_of(results@);

        proof {
            lemma_node_pts_parts(*self);
        }

        let dir = self.dir;
        let q_val = pos.at(dir);
        let p_val = self.pos.at(dir);
        let ghost near_side = if q_val <= p_val {
            self.left
        } else {
            self.right
        };
        let ghost far_side = if q_val <= p_val {
            self.right
        } else {
            self.left
        };

        if q_val <= p_val {
            let saved = rect.replace_max(dir, p_val);
            proof {
                assert forall|q: (int, int)| lpts.contains(q) implies in_rect(
                    rect_view(*rect),
                    q,
                ) by {
                    assert(self.pts().contains(q));
                    lemma_in_rect_set_max(rv_in, rect_view(*rect), d, p_val as int, q);
                }
                lemma_in_bounds_by_sel(rect_view(*rect).1, d);
            }
            if let Some(nearer) = &self.left {
                nearer.recursive_range_query(pos, radius_sq, results, rect);
                proof {
                    assert(KDNode::opt_range_order(near_side, qv, rsq) == nearer.range_order(
                        qv,
                        rsq,
                    ));
                }
            }
            let _ = rect.replace_max(dir, saved);
            proof {
                lemma_pair_eq_by_sel(rect_view(*rect).1, rv_in.1, d);
            }
        } else {
            let saved = rect.replace_min(dir, p_val);
            proof {
                assert forall|q: (int, int)| rpts.contains(q) implies in_rect(
                    rect_view(*rect),
                    q,
                ) by {
                    assert(self.pts().contains(q));
                    lemma_in_rect_set_min(rv_in, rect_view(*rect), d, p_val as int, q);
                }
                lemma_in_bounds_by_sel(rect_view(*rect).0, d);
            }
            if let Some(nearer) = &self.right {
                nearer.recursive_range_query(pos, radius_sq, results, rect);
                proof {
                    assert(KDNode::opt_range_order(near_side, qv, rsq) == nearer.range_order(
                        qv,
                        rsq,
                    ));
                }
            }
            let _ = rect.replace_min(dir, saved);
            proof {
                lemma_pair_eq_by_sel(rect_view(*rect).0, rv_in.0, d);
            }
        }

        let ghost s1 = pts_of(results@);
        proof {
            assert(rect_view(*rect) == rv_in);
            if near_side is None {
                assert(s1 =~= s0 + KDNode::opt_range_order(near_side, qv, rsq));
            }
            assert(s1 == s0 + KDNode::opt_range_order(near_side, qv, rsq));
        }

        let ghost s_before = results@;
        let dist = dist_sq_between(&self.pos, pos);
        if dist <= radius_sq {
            let cp = self.pos.clone_point();
            proof {
                assert(pt2(cp) == mid);
            }
            results.push(cp);
            proof {
                lemma_pts_of_push(s_before, cp);
                assert(pts_of(results@) =~= s1 + seq![mid]);
            }
        } else {
            proof {
                assert(pts_of(results@) =~= s1 + Seq::<(int, int)>::empty());
            }
        }
        let ghost own = if dist_sq_spec(mid, qv) <= rsq {
            seq![mid]
        } else {
            Seq::<(int, int)>::empty()
        };
        let ghost s2 = pts_of(results@);
        proof {
            assert(s2 == s1 + own);
        }

        if q_val <= p_val {
            if let Some(farther) = &self.right {
                let saved = rect.replace_min(dir, p_val);
                proof {
                    assert forall|q: (int, int)| rpts.contains(q) implies in_rect(
                        rect_view(*rect),
                        q,
                    ) by {
                        assert(self.pts().contains(q));
                        lemma_in_rect_set_min(rv_in, rect_view(*rect), d, p_val as int, q);
                    }
                    lemma_in_bounds_by_sel(rect_view(*rect).0, d);
                }
                let bd = KDTree::<P>::hyper_rect_dist_sq(rect, pos);
                if bd <= radius_sq {
                    farther.recursive_range_query(pos, radius_sq, results, rect);
                    proof {
                        assert(KDNode::opt_range_order(far_side, qv, rsq) == farther.range_order(
                            qv,
                            rsq,
                        ));
                    }
                } else {
                    proof {
                        assert forall|i: int|
                            0 <= i < rpts.len() implies dist_sq_spec(
                            #[trigger] rpts[i],
                            qv,
                        ) > rsq by {
                            assert(rpts.contains(rpts[i]));
                            assert(in_rect(rect_view(*rect), rpts[i]));
                            lemma_box_dist_le_dist(rect_view(*rect), qv, rpts[i]);
                            lemma_dist_sq_sym(qv, rpts[i]);
                        }
                        lemma_range_order_out_of_range(far_side, qv, rsq);
                    }
                }
                let _ = rect.replace_min(dir, saved);
                proof {
                    lemma_pair_eq_by_sel(rect_view(*rect).0, rv_in.0, d);
                }
            }
        } else {
            if let Some(farther) = &self.left {
                let saved = rect.replace_max(dir, p_val);
                proof {
                    assert forall|q: (int, int)| lpts.contains(q) implies in_rect(
                        rect_view(*rect),
                        q,
                    ) by {
                        assert(self.pts().contains(q));
                        lemma_in_rect_set_max(rv_in, rect_view(*rect), d, p_val as int, q);
                    }
                    lemma_in_bounds_by_sel(rect_view(*rect).1, d);
                }
                let bd = KDTree::<P>::hyper_rect_dist_sq(rect, pos);
                if bd <= radius_sq {
                    farther.recursive_range_query(pos, radius_sq, results, rect);
                    proof {
                        assert(KDNode::opt_range_order(far_side, qv, rsq) == farther.range_order(
                            qv,
                            rsq,
                        ));
                    }
                } else {
                    proof {
                        assert forall|i: int|
                            0 <= i < lpts.len() implies dist_sq_spec(
                            #[trigger] lpts[i],
                            qv,
                        ) > rsq by {
                            assert(lpts.contains(lpts[i]));
                            assert(in_rect(rect_view(*rect), lpts[i]));
                            lemma_box_dist_le_dist(rect_view(*rect), qv, lpts[i]);
                            lemma_dist_sq_sym(qv, lpts[i]);
                        }
                        lemma_range_order_out_of_range(far_side, qv, rsq);
                    }
                }
                let _ = rect.replace_max(dir, saved);
                proof {
                    lemma_pair_eq_by_sel(rect_view(*rect).1, rv_in.1, d);
                }
            }
        }

        proof {
            assert(rect_view(*rect) == rv_in);
            if far_side is None {
                assert(pts_of(results@) =~= s2 + KDNode::opt_range_order(far_side, qv, rsq));
            }
            assert(pts_of(results@) == s2 + KDNode::opt_range_order(far_side, qv, rsq));
            assert(self.range_order(qv, rsq) == (KDNode::opt_range_order(near_side, qv, rsq)
                + own) + KDNode::opt_range_order(far_side, qv, rsq));
            assert(pts_of(results@) =~= s0 + self.range_order(qv, rsq));
        }
    }
}

/// A subtree none of whose points lies within the squared radius
/// contributes nothing to the traversal-ordered listing.
proof fn lemma_range_order_out_of_range<P: PointTrait>(
    node: Option<Box<KDNode<P>>>,
    q: (int, int),
    rsq: int,
)
    requires
        forall|i: int|
            0 <= i < KDNode::opt_pts(node).len() ==> dist_sq_spec(
                #[trigger] KDNode::opt_pts(node)[i],
                q,
            ) > rsq,
    ensures
        KDNode::opt_range_order(node, q, rsq) == Seq::<(int, int)>::empty(),
{
    broadcast use vstd::seq_lib::group_to_multiset_ensures;
    broadcast use vstd::multiset::group_multiset_axioms;
    broadcast use vstd::multiset::lemma_multiset_empty_len;

    lemma_opt_range_order_multiset(node, q, rsq);
    lemma_in_range_empty(KDNode::opt_pts(node), q, rsq);
    assert(Seq::<(int, int)>::empty().to_multiset().len() == 0);
    assert(KDNode::opt_range_order(node, q, rsq).to_multiset().len() == 0);
    assert(KDNode::opt_range_order(node, q, rsq).len() == 0);
    assert(KDNode::opt_range_order(node, q, rsq) =~= Seq::<(int, int)>::empty());
}

/// The traversal-ordered listing of an optional subtree holds, as a
/// multiset, exactly the in-range points of the subtree's listing.
pub proof fn lemma_opt_range_order_multiset<P: PointTrait>(
    node: Option<Box<KDNode<P>>>,
    q: (int, int),
    rsq: int,
)
    ensures
        KDNode::opt_range_order(node, q, rsq).to_multiset() == in_range_pts(
            KDNode::opt_pts(node),
            q,
            rsq,
        ).to_multiset(),
    decreases node,
{
    match node {
        None => {
            assert(KDNode::<P>::opt_pts(None) == Seq::<(int, int)>::empty());
            assert(in_range_pts(Seq::<(int, int)>::empty(), q, rsq) == Seq::<
                (int, int),
            >::empty());
        },
        Some(n) => {
            lemma_range_order_multiset(*n, q, rsq);
        },
    }
}

/// The traversal-ordered listing of a subtree holds, as a multiset,
/// exactly the in-range points of the subtree's listing: the collecting
/// range query's output differs from a brute-force filter only in order.
pub proof fn lemma_range_order_multiset<P: PointTrait>(n: KDNode<P>, q: (int, int), rsq: int)
    ensures
        n.range_order(q, rsq).to_multiset() == in_range_pts(n.pts(), q, rsq).to_multiset(),
    decreases n,
{
    broadcast use vstd::seq_lib::group_to_multiset_ensures;
    broadcast use vstd::multiset::group_multiset_axioms;

    let lpts = KDNode::opt_pts(n.left);
    let rpts = KDNode::opt_pts(n.right);
    let mid = pt2(n.pos);
    let d = n.dir as int;
    lemma_opt_range_order_multiset(n.left, q, rsq);
    lemma_opt_range_order_multiset(n.right, q, rsq);
    lemma_in_range_concat(lpts + seq![mid], rpts, q, rsq);
    lemma_in_range_concat(lpts, seq![mid], q, rsq);
    lemma_in_range_singleton(mid, q, rsq);
    assert(n.pts() == (lpts + seq![mid]) + rpts);
    let ir_l = in_range_pts(lpts, q, rsq);
    let ir_m = in_range_pts(seq![mid], q, rsq);
    let ir_r = in_range_pts(rpts, q, rsq);
    vstd::seq_lib::lemma_multiset_commutative(ir_l + ir_m, ir_r);
    vstd::seq_lib::lemma_multiset_commutative(ir_l, ir_m);
    let ov_l = KDNode::opt_range_order(n.left, q, rsq);
    let ov_r = KDNode::opt_range_order(n.right, q, rsq);
    let own = if dist_sq_spec(mid, q) <= rsq {
        seq![mid]
    } else {
        Seq::<(int, int)>::empty()
    };
    assert(own.to_multiset() == ir_m.to_multiset());
    if sel(q, d) <= sel(mid, d) {
        vstd::seq_lib::lemma_multiset_commutative(ov_l + own, ov_r);
        vstd::seq_lib::lemma_multiset_commutative(ov_l, own);
    } else {
        vstd::seq_lib::lemma_multiset_commutative(ov_r + own, ov_l);
        vstd::seq_lib::lemma_multiset_commutative(ov_r, own);
    }
    assert(n.range_order(q, rsq).to_multiset() =~= in_range_pts(n.pts(), q, rsq).to_multiset());
}

impl<P: PointTrait> KDNode<P> {
    /// Updates `best` and `best_dist_sq` with the closest point to `pos`
    /// in this subtree, if one improves on the running best. The working
    /// rectangle is narrowed for each descent and restored exactly; the
    /// farther child is visited only when its narrowed rectangle could
    /// still hold a strictly closer point.
    fn recursive_nearest(
        &self,
        pos: &P,
        best: &mut P,
        best_dist_sq: &mut i64,
        rect: &mut HyperRectangle<P>,
    )
        requires
            self.wf(),
            pt_bounded(*pos),
            rect_bounded(rect_view(*old(rect))),
            forall|q: (int, int)| self.pts().contains(q) ==> in_rect(rect_view(*old(rect)), q),
            *old(best_dist_sq) as int == dist_sq_spec(pt2(*old(best)), pt2(*pos)),
        ensures
            rect_view(*final(rect)) == rect_view(*old(rect)),
            *final(best_dist_sq) as int == dist_sq_spec(pt2(*final(best)), pt2(*pos)),
            *final(best_dist_sq) <= *old(best_dist_sq),
            pt2(*final(best)) == pt2(*old(best)) || self.pts().contains(pt2(*final(best))),
            forall|q: (int, int)|
                #[trigger] self.pts().contains(q) ==> dist_sq_spec(q, pt2(*pos))
                    >= *final(best_dist_sq) as int,
        decreases *self,
    {
        let ghost rv_in = rect_view(*rect);
        let ghost qv = pt2(*pos);
        let ghost lpts = KDNode::opt_pts(self.left);
        let ghost rpts = KDNode::opt_pts(self.right);
        let ghost mid = pt2(self.pos);
        let ghost d = self.dir as int;
        let ghost b0 = pt2(*best);
        let ghost bd0 = *best_dist_sq as int;

        proof {
            lemma_node_pts_parts(*self);
        }

        let dir = self.dir;
        let q_val = pos.at(dir);
        let p_val = self.pos.at(dir);

        if q_val <= p_val {
            let saved = rect.replace_max(dir, p_val);
            proof {
                assert forall|q: (int, int)| lpts.contains(q) implies in_rect(
                    rect_view(*rect),
                    q,
                ) by {
                    assert(self.pts().contains(q));
                    lemma_in_rect_set_max(rv_in, rect_view(*rect), d, p_val as int, q);
                }
                lemma_in_bounds_by_sel(rect_view(*rect).1, d);
            }
            if let Some(nearer) = &self.left {
                nearer.recursive_nearest(pos, best, best_dist_sq, rect);
                proof {
                    assert(lpts == nearer.pts());
                    assert(forall|q: (int, int)|
                        #[trigger] nearer.pts().contains(q) ==> dist_sq_spec(q, qv)
                            >= *best_dist_sq as int);
                    assert(forall|q: (int, int)|
                        #[trigger] lpts.contains(q) ==> dist_sq_spec(q, qv)
                            >= *best_dist_sq as int);
                }
            }
            let _ = rect.replace_max(dir, saved);
            proof {
                lemma_pair_eq_by_sel(rect_view(*rect).1, rv_in.1, d);
            }
        } else {
            let saved = rect.replace_min(dir, p_val);
            proof {
                assert forall|q: (int, int)| rpts.contains(q) implies in_rect(
                    rect_view(*rect),
                    q,
                ) by {
                    assert(self.pts().contains(q));
                    lemma_in_rect_set_min(rv_in, rect_view(*rect), d, p_val as int, q);
                }
                lemma_in_bounds_by_sel(rect_view(*rect).0, d);
            }
            if let Some(nearer) = &self.right {
                nearer.recursive_nearest(pos, best, best_dist_sq, rect);
                proof {
                    assert(rpts == nearer.pts());
                    assert(forall|q: (int, int)|
                        #[trigger] rpts.contains(q) ==> dist_sq_spec(q, qv)
                            >= *best_dist_sq as int);
                }
            }
            let _ = rect.replace_min(dir, saved);
            proof {
                lemma_pair_eq_by_sel(rect_view(*rect).0, rv_in.0, d);
            }
        }

        let ghost near_pts = if q_val <= p_val {
            lpts
        } else {
            rpts
        };
        let ghost far_pts = if q_val <= p_val {
            rpts
        } else {
            lpts
        };
        let ghost b1 = pt2(*best);
        let ghost bd1 = *best_dist_sq as int;
        proof {
            assert(rect_view(*rect) == rv_in);
            assert(bd1 <= bd0);
            assert(b1 == b0 || near_pts.contains(b1));
            assert(forall|q: (int, int)|
                #[trigger] near_pts.contains(q) ==> dist_sq_spec(q, qv) >= bd1);
        }

        let dist = P::dist_sq(&self.pos, pos);
        if dist < *best_dist_sq {
            *best_dist_sq = dist;
            *best = self.pos.clone_point();
        }
        let ghost b2 = pt2(*best);
        let ghost bd2 = *best_dist_sq as int;
        proof {
            assert(bd2 <= bd1);
            assert(bd2 <= dist_sq_spec(mid, qv));
            assert(b2 == b1 || b2 == mid);
            assert(bd2 as int == dist_sq_spec(b2, qv));
        }

        if q_val <= p_val {
            if let Some(farther) = &self.right {
                let saved = rect.replace_min(dir, p_val);
                proof {
                    assert forall|q: (int, int)| rpts.contains(q) implies in_rect(
                        rect_view(*rect),
                        q,
                    ) by {
                        assert(self.pts().contains(q));
                        lemma_in_rect_set_min(rv_in, rect_view(*rect), d, p_val as int, q);
                    }
                    lemma_in_bounds_by_sel(rect_view(*rect).0, d);
                }
                let bd = KDTree::<P>::hyper_rect_dist_sq(rect, pos);
                if bd < *best_dist_sq {
                    farther.recursive_nearest(pos, best, best_dist_sq, rect);
                    proof {
                        assert(rpts == farther.pts());
                        assert(forall|q: (int, int)|
                            #[trigger] rpts.contains(q) ==> dist_sq_spec(q, qv)
                                >= *best_dist_sq as int);
                    }
                } else {
                    proof {
                        assert forall|q: (int, int)| rpts.contains(q) implies dist_sq_spec(
                            q,
                            qv,
                        ) >= bd2 by {
                            assert(in_rect(rect_view(*rect), q));
                            lemma_box_dist_le_dist(rect_view(*rect), qv, q);
                            lemma_dist_sq_sym(qv, q);
                        }
                    }
                }
                let _ = rect.replace_min(dir, saved);
                proof {
                    lemma_pair_eq_by_sel(rect_view(*rect).0, rv_in.0, d);
                }
            }
        } else {
            if let Some(farther) = &self.left {
                let saved = rect.replace_max(dir, p_val);
                proof {
                    assert forall|q: (int, int)| lpts.contains(q) implies in_rect(
                        rect_view(*rect),
                        q,
                    ) by {
                        assert(self.pts().contains(q));
                        lemma_in_rect_set_max(rv_in, rect_view(*rect), d, p_val as int, q);
                    }
                    lemma_in_bounds_by_sel(rect_view(*rect).1, d);
                }
                let bd = KDTree::<P>::hyper_rect_dist_sq(rect, pos);
                if bd < *best_dist_sq {
                    farther.recursive_nearest(pos, best, best_dist_sq, rect);
                    proof {
                        assert(lpts == farther.pts());
                        assert(forall|q: (int, int)|
                            #[trigger] lpts.contains(q) ==> dist_sq_spec(q, qv)
                                >= *best_dist_sq as int);
                    }
                } else {
                    proof {
                        assert forall|q: (int, int)| lpts.contains(q) implies dist_sq_spec(
                            q,
                            qv,
                        ) >= bd2 by {
                            assert(in_rect(rect_view(*rect), q));
                            lemma_box_dist_le_dist(rect_view(*rect), qv, q);
                            lemma_dist_sq_sym(qv, q);
                        }
                    }
                }
                let _ = rect.replace_max(dir, saved);
                proof {
                    lemma_pair_eq_by_sel(rect_view(*rect).1, rv_in.1, d);
                }
            }
        }

        proof {
            let b3 = pt2(*best);
            let bd3 = *best_dist_sq as int;
            assert(rect_view(*rect) == rv_in);
            assert(bd3 <= bd2);
            assert(b3 == b2 || far_pts.contains(b3));
            assert(forall|q: (int, int)|
                #[trigger] far_pts.contains(q) ==> dist_sq_spec(q, qv) >= bd3);
            assert forall|q: (int, int)| self.pts().contains(q) implies dist_sq_spec(q, qv)
                >= bd3 by {
                if near_pts.contains(q) {
                } else if q == mid {
                } else {
                    assert(far_pts.contains(q));
                }
            }
            assert(b3 == b0 || self.pts().contains(b3));
        }
    }
}

impl<P: PointTrait> KDTree<P> {
    /// The closest stored point to `pos`: `None` exactly when the tree
    /// is empty, otherwise a stored point whose squared distance to
    /// `pos` is the minimum over every stored point.
    pub fn nearest(&self, pos: &P) -> (r: Option<P>)
        requires
            self.wf(),
            pt_bounded(*pos),
        ensures
            match r {
                Some(p) => {
                    &&& self.points().len() > 0
                    &&& self.points().contains(pt2(p))
                    &&& (forall|q: (int, int)|
                        self.points().contains(q) ==> dist_sq_spec(pt2(p), pt2(*pos))
                            <= dist_sq_spec(q, pt2(*pos)))
                },
                None => self.points().len() == 0,
            },
    {
        if let Some(root_node) = &self.root {
            if let Some(rc) = &self.rect {
                let mut rect = rc.clone_rect();
                let mut result = root_node.pos.clone_point();
                let mut result_dist_sq = P::dist_sq(&result, pos);
                proof {
                    lemma_node_pts_parts(**root_node);
                    assert(self.points().contains(pt2(root_node.pos)));
                }
                root_node.recursive_nearest(pos, &mut result, &mut result_dist_sq, &mut rect);
                proof {
                    assert(self.points().contains(pt2(result)));
                    assert(self.points().len() > 0);
                }
                Some(result)
            } else {
                proof {
                    assert(false);
                }
                None
            }
        } else {
            None
        }
    }

    /// `i * i`, for magnitudes up to `RADIUS_BOUND`, whose square still
    /// fits in an `i64`.
    fn sq(i: i64) -> (r: i64)
        requires
            -RADIUS_BOUND <= i <= RADIUS_BOUND,
        ensures
            r as int == i as int * i as int,
    {
        proof {
            lemma_square_bound(i as int, RADIUS_BOUND as int);
            assert((RADIUS_BOUND as int) * (RADIUS_BOUND as int)
                == 9_000_000_000_000_000_000) by (nonlinear_arith);
        }
        i * i
    }

    /// Squared distance from `pos` to `rect`: for each axis, the squared
    /// gap below or above the rectangle's interval, and 0 for an axis on
    /// which `pos` lies inside it.
    fn hyper_rect_dist_sq<Q: PointTrait>(rect: &HyperRectangle<P>, pos: &Q) -> (r: i64)
        requires
            rect_bounded(rect_view(*rect)),
            pt_bounded(*pos),
        ensures
            r as int == box_dist_sq_spec(rect_view(*rect), pt2(*pos)),
    {
        let ghost rv = rect_view(*rect);
        let ghost qv = pt2(*pos);
        let mut result: i64 = 0;

        let pos_val = pos.at(0);
        if pos_val < rect.min.at(0) {
            result = result + Self::sq(rect.min.at(0) - pos_val);
        } else if pos_val > rect.max.at(0) {
            proof {
                lemma_square_neg(rv.1.0 - qv.0);
            }
            result = result + Self::sq(rect.max.at(0) - pos_val);
        }
        proof {
            assert(result as int == axis_gap(rv.0.0, rv.1.0, qv.0) * axis_gap(
                rv.0.0,
                rv.1.0,
                qv.0,
            ));
            lemma_square_bound(axis_gap(rv.0.0, rv.1.0, qv.0), 2_000_000_000);
            lemma_square_bound(axis_gap(rv.0.1, rv.1.1, qv.1), 2_000_000_000);
            assert(2_000_000_000int * 2_000_000_000int == 4_000_000_000_000_000_000)
                by (nonlinear_arith);
        }
        let pos_val = pos.at(1);
        if pos_val < rect.min.at(1) {
            result = result + Self::sq(rect.min.at(1) - pos_val);
        } else if pos_val > rect.max.at(1) {
            proof {
                lemma_square_neg(rv.1.1 - qv.1);
            }
            result = result + Self::sq(rect.max.at(1) - pos_val);
        }
        result
    }

    /// Collects every stored point whose distance to `pos` is at most
    /// `radius`, in traversal order: an empty sequence for an empty tree
    /// or a negative radius, and exactly the in-range points otherwise.
    pub fn range_query<Q: PointTrait>(&self, pos: &Q, radius: i64) -> (r: Vec<P>)
        requires
            self.wf(),
            pt_bounded(*pos),
            -RADIUS_BOUND <= radius <= RADIUS_BOUND,
        ensures
            pts_of(r@) == self.range_order(pt2(*pos), radius_sq_spec(radius as int)),
            pts_of(r@).to_multiset() == in_range_pts(
                self.points(),
                pt2(*pos),
                radius_sq_spec(radius as int),
            ).to_multiset(),
    {
        broadcast use vstd::seq_lib::group_to_multiset_ensures;
        broadcast use vstd::multiset::group_multiset_axioms;
        broadcast use vstd::multiset::lemma_multiset_empty_len;

        let ghost qv = pt2(*pos);
        if let Some(root_node) = &self.root {
            if let Some(rc) = &self.rect {
                let mut cloned_rect = rc.clone_rect();
                let mut results: Vec<P> = Vec::new();
                let ghost empty_results = results@;
                let radius_sq: i64 = if radius >= 0 {
                    proof {
                        lemma_square_bound(radius as int, RADIUS_BOUND as int);
                        assert((RADIUS_BOUND as int) * (RADIUS_BOUND as int)
                            == 9_000_000_000_000_000_000) by (nonlinear_arith);
                    }
                    radius * radius
                } else {
                    -1
                };
                proof {
                    assert(radius_sq as int == radius_sq_spec(radius as int));
                }
                root_node.recursive_range_query(pos, radius_sq, &mut results, &mut cloned_rect);
                proof {
                    assert(pts_of(empty_results) =~= Seq::<(int, int)>::empty());
                    assert(Seq::<(int, int)>::empty() + root_node.range_order(qv, radius_sq as int)
                        =~= root_node.range_order(qv, radius_sq as int));
                    assert(self.range_order(qv, radius_sq as int) == root_node.range_order(
                        qv,
                        radius_sq as int,
                    ));
                    lemma_opt_range_order_multiset(self.root, qv, radius_sq as int);
                }
                results
            } else {
                proof {
                    assert(false);
                }
                Vec::new()
            }
        } else {
            let results: Vec<P> = Vec::new();
            proof {
                let e = Seq::<(int, int)>::empty();
                assert(self.points() == e);
                assert(in_range_pts(e, qv, radius_sq_spec(radius as int)) == e);
                assert(self.range_order(qv, radius_sq_spec(radius as int)) == e);
                assert(pts_of(results@) =~= e);
                assert(pts_of(results@).to_multiset() =~= e.to_multiset());
            }
            results
        }
    }
}

/// Replacing the left part of `l + [m] + r` by one whose multiset gained
/// `x` makes the whole listing's multiset gain `x`.
proof fn lemma_concat_multiset_insert(
    l1: Seq<(int, int)>,
    l2: Seq<(int, int)>,
    m: (int, int),
    r: Seq<(int, int)>,
    x: (int, int),
)
    requires
        l2.to_multiset() == l1.to_multiset().insert(x),
    ensures
        ((l2 + seq![m]) + r).to_multiset() == ((l1 + seq![m]) + r).to_multiset().insert(x),
{
    broadcast use vstd::seq_lib::group_to_multiset_ensures;
    broadcast use vstd::multiset::group_multiset_axioms;

    vstd::seq_lib::lemma_multiset_commutative(l1 + seq![m], r);
    vstd::seq_lib::lemma_multiset_commutative(l2 + seq![m], r);
    vstd::seq_lib::lemma_multiset_commutative(l1, seq![m]);
    vstd::seq_lib::lemma_multiset_commutative(l2, seq![m]);
    assert(((l2 + seq![m]) + r).to_multiset() =~= ((l1 + seq![m]) + r).to_multiset().insert(x));
}

/// Replacing the right part of `l + [m] + r` by one whose multiset gained
/// `x` makes the whole listing's multiset gain `x`.
proof fn lemma_concat_multiset_insert_right(
    l: Seq<(int, int)>,
    m: (int, int),
    r1: Seq<(int, int)>,
    r2: Seq<(int, int)>,
    x: (int, int),
)
    requires
        r2.to_multiset() == r1.to_multiset().insert(x),
    ensures
        ((l + seq![m]) + r2).to_multiset() == ((l + seq![m]) + r1).to_multiset().insert(x),
{
    broadcast use vstd::seq_lib::group_to_multiset_ensures;
    broadcast use vstd::multiset::group_multiset_axioms;

    vstd::seq_lib::lemma_multiset_commutative(l + seq![m], r1);
    vstd::seq_lib::lemma_multiset_commutative(l + seq![m], r2);
    assert(((l + seq![m]) + r2).to_multiset() =~= ((l + seq![m]) + r1).to_multiset().insert(x));
}

impl<P: PointTrait> KDNode<P> {
    /// Streaming form of the range query: invokes `process` once, in
    /// traversal order, on each point of this subtree within squared
    /// distance `radius_sq` of `pos`, with the same narrowing, restoring
    /// and pruning of the working rectangle as the collecting form.
    fn recursive_closure_range_query<Q: PointTrait, F: FnMut(&P)>(
        &self,
        pos: &Q,
        radius_sq: i64,
        rect: &mut HyperRectangle<P>,
        process: &mut F,
    )
        requires
            self.wf(),
            pt_bounded(*pos),
            rect_bounded(rect_view(*old(rect))),
            forall|q: (int, int)| self.pts().contains(q) ==> in_rect(rect_view(*old(rect)), q),
            forall|p: &P|
                self.pts().contains(pt2(*p)) && dist_sq_spec(pt2(*p), pt2(*pos))
                    <= radius_sq as int ==> call_requires(*old(process), (p,)),
        ensures
            rect_view(*final(rect)) == rect_view(*old(rect)),
            *final(process) == *old(process),
            exists|ps: Seq<P>|
                pts_of(ps) == self.range_order(pt2(*pos), radius_sq as int) && (forall|i: int|
                    0 <= i < ps.len() ==> call_ensures(*old(process), (&ps[i],), ())),
        decreases *self,
    {
        let ghost rv_in = rect_view(*rect);
        let ghost qv = pt2(*pos);
        let ghost rsq = radius_sq as int;
        let ghost lpts = KDNode::opt_pts(self.left);
        let ghost rpts = KDNode::opt_pts(self.right);
        let ghost mid = pt2(self.pos);
        let ghost d = self.dir as int;
        let ghost f0 = *process;

        proof {
            lemma_node_pts_parts(*self);
        }

        let dir = self.dir;
        let q_val = pos.at(dir);
        let p_val = self.pos.at(dir);
        let ghost near_side = if q_val <= p_val {
            self.left
        } else {
            self.right
        };
        let ghost far_side = if q_val <= p_val {
            self.right
        } else {
            self.left
        };

        if q_val <= p_val {
            let saved = rect.replace_max(dir, p_val);
            proof {
                assert forall|q: (int, int)| lpts.contains(q) implies in_rect(
                    rect_view(*rect),
                    q,
                ) by {
                    assert(self.pts().contains(q));
                    lemma_in_rect_set_max(rv_in, rect_view(*rect), d, p_val as int, q);
                }
                lemma_in_bounds_by_sel(rect_view(*rect).1, d);
            }
            if let Some(nearer) = &self.left {
                proof {
                    assert forall|p: &P|
                        nearer.pts().contains(pt2(*p)) && dist_sq_spec(pt2(*p), qv)
                            <= rsq implies call_requires(*process, (p,)) by {
                        assert(self.pts().contains(pt2(*p)));
                    }
                }
                nearer.recursive_closure_range_query(pos, radius_sq, rect, process);
                proof {
                    assert(KDNode::opt_range_order(near_side, qv, rsq) == nearer.range_order(
                        qv,
                        rsq,
                    ));
                }
            }
            let _ = rect.replace_max(dir, saved);
            proof {
                lemma_pair_eq_by_sel(rect_view(*rect).1, rv_in.1, d);
            }
        } else {
            let saved = rect.replace_min(dir, p_val);
            proof {
                assert forall|q: (int, int)| rpts.contains(q) implies in_rect(
                    rect_view(*rect),
                    q,
                ) by {
                    assert(self.pts().contains(q));
                    lemma_in_rect_set_min(rv_in, rect_view(*rect), d, p_val as int, q);
                }
                lemma_in_bounds_by_sel(rect_view(*rect).0, d);
            }
            if let Some(nearer) = &self.right {
                proof {
                    assert forall|p: &P|
                        nearer.pts().contains(pt2(*p)) && dist_sq_spec(pt2(*p), qv)
                            <= rsq implies call_requires(*process, (p,)) by {
                        assert(self.pts().contains(pt2(*p)));
                    }
                }
                nearer.recursive_closure_range_query(pos, radius_sq, rect, process);
                proof {
                    assert(KDNode::opt_range_order(near_side, qv, rsq) == nearer.range_order(
                        qv,
                        rsq,
                    ));
                }
            }
            let _ = rect.replace_min(dir, saved);
            proof {
                lemma_pair_eq_by_sel(rect_view(*rect).0, rv_in.0, d);
            }
        }

        let ghost ps_near: Seq<P> = if near_side is Some {
            choose|ps: Seq<P>|
                pts_of(ps) == KDNode::opt_range_order(near_side, qv, rsq) && (forall|i: int|
                    0 <= i < ps.len() ==> call_ensures(f0, (&ps[i],), ()))
        } else {
            Seq::empty()
        };
        proof {
            assert(rect_view(*rect) == rv_in);
            assert(*process == f0);
            if near_side is None {
                assert(pts_of(Seq::<P>::empty()) =~= KDNode::opt_range_order(near_side, qv, rsq));
            }
            assert(pts_of(ps_near) == KDNode::opt_range_order(near_side, qv, rsq) && (forall|
                i: int,
            |
                0 <= i < ps_near.len() ==> call_ensures(f0, (&ps_near[i],), ())));
        }

        let dist = dist_sq_between(&self.pos, pos);
        let ghost within_mid = dist_sq_spec(mid, qv) <= rsq;
        if dist <= radius_sq {
            proof {
                assert(self.pts().contains(mid));
            }
            process(&self.pos);
        }
        let ghost own = if within_mid {
            seq![mid]
        } else {
            Seq::<(int, int)>::empty()
        };
        let ghost ps_mid: Seq<P> = if within_mid {
            seq![self.pos]
        } else {
            Seq::empty()
        };
        proof {
            assert(*process == f0);
            if within_mid {
                assert(pts_of(ps_mid) =~= own);
                assert(ps_mid[0] == self.pos);
            } else {
                assert(pts_of(ps_mid) =~= own);
            }
            assert(pts_of(ps_mid) == own && (forall|i: int|
                0 <= i < ps_mid.len() ==> call_ensures(f0, (&ps_mid[i],), ())));
        }

        if q_val <= p_val {
            if let Some(farther) = &self.right {
                let saved = rect.replace_min(dir, p_val);
                proof {
                    assert forall|q: (int, int)| rpts.contains(q) implies in_rect(
                        rect_view(*rect),
                        q,
                    ) by {
                        assert(self.pts().contains(q));
                        lemma_in_rect_set_min(rv_in, rect_view(*rect), d, p_val as int, q);
                    }
                    lemma_in_bounds_by_sel(rect_view(*rect).0, d);
                }
                let bd = KDTree::<P>::hyper_rect_dist_sq(rect, pos);
                if bd <= radius_sq {
                    proof {
                        assert forall|p: &P|
                            farther.pts().contains(pt2(*p)) && dist_sq_spec(pt2(*p), qv)
                                <= rsq implies call_requires(*process, (p,)) by {
                            assert(self.pts().contains(pt2(*p)));
                        }
                    }
                    farther.recursive_closure_range_query(pos, radius_sq, rect, process);
                    proof {
                        assert(KDNode::opt_range_order(far_side, qv, rsq) == farther.range_order(
                            qv,
                            rsq,
                        ));
                    }
                } else {
                    proof {
                        assert forall|i: int|
                            0 <= i < rpts.len() implies dist_sq_spec(
                            #[trigger] rpts[i],
                            qv,
                        ) > rsq by {
                            assert(rpts.contains(rpts[i]));
                            assert(in_rect(rect_view(*rect), rpts[i]));
                            lemma_box_dist_le_dist(rect_view(*rect), qv, rpts[i]);
                            lemma_dist_sq_sym(qv, rpts[i]);
                        }
                        lemma_range_order_out_of_range(far_side, qv, rsq);
                    }
                }
                let _ = rect.replace_min(dir, saved);
                proof {
                    lemma_pair_eq_by_sel(rect_view(*rect).0, rv_in.0, d);
                }
            }
        } else {
            if let Some(farther) = &self.left {
                let saved = rect.replace_max(dir, p_val);
                proof {
                    assert forall|q: (int, int)| lpts.contains(q) implies in_rect(
                        rect_view(*rect),
                        q,
                    ) by {
                        assert(self.pts().contains(q));
                        lemma_in_rect_set_max(rv_in, rect_view(*rect), d, p_val as int, q);
                    }
                    lemma_in_bounds_by_sel(rect_view(*rect).1, d);
                }
                let bd = KDTree::<P>::hyper_rect_dist_sq(rect, pos);
                if bd <= radius_sq {
                    proof {
                        assert forall|p: &P|
                            farther.pts().contains(pt2(*p)) && dist_sq_spec(pt2(*p), qv)
                                <= rsq implies call_requires(*process, (p,)) by {
                            assert(self.pts().contains(pt2(*p)));
                        }
                    }
                    farther.recursive_closure_range_query(pos, radius_sq, rect, process);
                    proof {
                        assert(KDNode::opt_range_order(far_side, qv, rsq) == farther.range_order(
                            qv,
                            rsq,
                        ));
                    }
                } else {
                    proof {
                        assert forall|i: int|
                            0 <= i < lpts.len() implies dist_sq_spec(
                            #[trigger] lpts[i],
                            qv,
                        ) > rsq by {
                            assert(lpts.contains(lpts[i]));
                            assert(in_rect(rect_view(*rect), lpts[i]));
                            lemma_box_dist_le_dist(rect_view(*rect), qv, lpts[i]);
                            lemma_dist_sq_sym(qv, lpts[i]);
                        }
                        lemma_range_order_out_of_range(far_side, qv, rsq);
                    }
                }
                let _ = rect.replace_max(dir, saved);
                proof {
                    lemma_pair_eq_by_sel(rect_view(*rect).1, rv_in.1, d);
                }
            }
        }

        let ghost visited_far = exists|ps: Seq<P>|
            pts_of(ps) == KDNode::opt_range_order(far_side, qv, rsq) && (forall|i: int|
                0 <= i < ps.len() ==> call_ensures(f0, (&ps[i],), ()));
        let ghost ps_far: Seq<P> = if visited_far {
            choose|ps: Seq<P>|
                pts_of(ps) == KDNode::opt_range_order(far_side, qv, rsq) && (forall|i: int|
                    0 <= i < ps.len() ==> call_ensures(f0, (&ps[i],), ()))
        } else {
            Seq::empty()
        };
        proof {
            assert(rect_view(*rect) == rv_in);
            assert(*process == f0);
            if !visited_far {
                assert(KDNode::opt_range_order(far_side, qv, rsq) == Seq::<(int, int)>::empty());
                assert(pts_of(Seq::<P>::empty()) =~= KDNode::opt_range_order(far_side, qv, rsq));
            }
            assert(pts_of(ps_far) == KDNode::opt_range_order(far_side, qv, rsq) && (forall|i: int|
                0 <= i < ps_far.len() ==> call_ensures(f0, (&ps_far[i],), ())));
        }

        proof {
            let ps_total = (ps_near + ps_mid) + ps_far;
            lemma_pts_of_concat(ps_near + ps_mid, ps_far);
            lemma_pts_of_concat(ps_near, ps_mid);
            assert(self.range_order(qv, rsq) == (KDNode::opt_range_order(near_side, qv, rsq)
                + own) + KDNode::opt_range_order(far_side, qv, rsq));
            assert(pts_of(ps_total) =~= self.range_order(qv, rsq));
            assert forall|i: int| 0 <= i < ps_total.len() implies call_ensures(
                f0,
                (&ps_total[i],),
                (),
            ) by {
                if i < ps_near.len() {
                    assert(ps_total[i] == ps_near[i]);
                } else if i < ps_near.len() + ps_mid.len() {
                    assert(ps_total[i] == ps_mid[i - ps_near.len()]);
                } else {
                    assert(ps_total[i] == ps_far[i - ps_near.len() - ps_mid.len()]);
                }
            }
        }
    }
}

impl<P: PointTrait> KDTree<P> {
    /// Streaming form of `range_query`: invokes `process` once, in
    /// traversal order, on each stored point whose distance to `pos` is
    /// at most `radius`, instead of materialising a result sequence. The
    /// points handed to the callback are exactly the sequence that
    /// `range_query` returns, in the same order.
    pub fn closure_range_query<Q: PointTrait, F: FnMut(&P)>(
        &self,
        pos: &Q,
        radius: i64,
        mut process: F,
    )
        requires
            self.wf(),
            pt_bounded(*pos),
            -RADIUS_BOUND <= radius <= RADIUS_BOUND,
            forall|p: &P|
                self.points().contains(pt2(*p)) && dist_sq_spec(pt2(*p), pt2(*pos))
                    <= radius_sq_spec(radius as int) ==> call_requires(process, (p,)),
        ensures
            exists|ps: Seq<P>|
                pts_of(ps) == self.range_order(pt2(*pos), radius_sq_spec(radius as int)) && (
                forall|i: int| 0 <= i < ps.len() ==> call_ensures(process, (&ps[i],), ())),
    {
        let ghost qv = pt2(*pos);
        if let Some(root_node) = &self.root {
            if let Some(rc) = &self.rect {
                let mut cloned_rect = rc.clone_rect();
                let radius_sq: i64 = if radius >= 0 {
                    proof {
                        lemma_square_bound(radius as int, RADIUS_BOUND as int);
                        assert((RADIUS_BOUND as int) * (RADIUS_BOUND as int)
                            == 9_000_000_000_000_000_000) by (nonlinear_arith);
                    }
                    radius * radius
                } else {
                    -1
                };
                proof {
                    assert(radius_sq as int == radius_sq_spec(radius as int));
                }
                root_node.recursive_closure_range_query(
                    pos,
                    radius_sq,
                    &mut cloned_rect,
                    &mut process,
                );
                proof {
                    assert(self.range_order(qv, radius_sq as int) == root_node.range_order(
                        qv,
                        radius_sq as int,
                    ));
                }
            } else {
                proof {
                    assert(false);
                }
            }
        } else {
            proof {
                let w = Seq::<P>::empty();
                assert(self.range_order(qv, radius_sq_spec(radius as int)) == Seq::<
                    (int, int),
                >::empty());
                assert(pts_of(w) =~= Seq::<(int, int)>::empty());
                assert(pts_of(w) == self.range_order(qv, radius_sq_spec(radius as int)) && (
                forall|i: int| 0 <= i < w.len() ==> call_ensures(process, (&w[i],), ())));
            }
        }
    }
}

/// The traversal-ordered listing a tree's range queries produce holds,
/// as a multiset, exactly the tree's points within the squared radius:
/// what the collecting query returns and what the streaming query hands
/// to its callback differ from a brute-force filter only in order.
pub proof fn lemma_tree_range_order_multiset<P: PointTrait>(
    t: KDTree<P>,
    q: (int, int),
    rsq: int,
)
    ensures
        t.range_order(q, rsq).to_multiset() == in_range_pts(t.points(), q, rsq).to_multiset(),
{
    lemma_opt_range_order_multiset(t.root, q, rsq);
}

/// The tree's rectangle exists exactly when the tree holds a point, and
/// is then the tightest axis-aligned box over the stored points: it
/// contains every point, and each of its four bounds is attained by one.
pub proof fn lemma_rect_is_bounding_box<P: PointTrait>(t: KDTree<P>)
    requires
        t.wf(),
    ensures
        t.points().len() == 0 <==> t.rect_vw() is None,
        match t.rect_vw() {
            Some(rv) => {
                &&& (forall|q: (int, int)| t.points().contains(q) ==> in_rect(rv, q))
                &&& (exists|q: (int, int)| t.points().contains(q) && q.0 == rv.0.0)
                &&& (exists|q: (int, int)| t.points().contains(q) && q.1 == rv.0.1)
                &&& (exists|q: (int, int)| t.points().contains(q) && q.0 == rv.1.0)
                &&& (exists|q: (int, int)| t.points().contains(q) && q.1 == rv.1.1)
            },
            None => t.points().len() == 0,
        },
{
    if t.root is Some {
        lemma_node_pts_parts(*t.root.unwrap());
        assert(t.points().contains(pt2(t.root.unwrap().pos)));
    } else {
        assert(t.points() =~= Seq::<(int, int)>::empty());
    }
}

/// The bounding rectangle is a function of the stored multiset of points
/// alone: two well-formed trees holding the same points, in whatever
/// order they were inserted, have the same rectangle — each bound is the
/// componentwise minimum or maximum over all points.
pub proof fn lemma_rect_order_independent<P: PointTrait>(t1: KDTree<P>, t2: KDTree<P>)
    requires
        t1.wf(),
        t2.wf(),
        t1.points().to_multiset() == t2.points().to_multiset(),
    ensures
        t1.rect_vw() == t2.rect_vw(),
{
    broadcast use vstd::seq_lib::group_to_multiset_ensures;
    broadcast use vstd::multiset::group_multiset_axioms;

    assert forall|x: (int, int)| t1.points().contains(x) implies #[trigger] t2.points().contains(
        x,
    ) by {
        assert(t1.points().to_multiset().count(x) > 0);
    }
    assert forall|x: (int, int)| t2.points().contains(x) implies #[trigger] t1.points().contains(
        x,
    ) by {
        assert(t2.points().to_multiset().count(x) > 0);
    }
    assert(t1.points().to_multiset().len() == t1.points().len());
    assert(t2.points().to_multiset().len() == t2.points().len());
    assert(t1.points().len() == t2.points().len());
    if t1.points().len() == 0 {
        if t1.root is Some {
            lemma_node_pts_parts(*t1.root.unwrap());
            assert(t1.points().contains(pt2(t1.root.unwrap().pos)));
        }
        if t2.root is Some {
            lemma_node_pts_parts(*t2.root.unwrap());
            assert(t2.points().contains(pt2(t2.root.unwrap().pos)));
        }
        assert(t1.rect is None && t2.rect is None);
    } else {
        assert(t1.points().contains(t1.points()[0]));
        if t1.root is None {
            assert(t1.points() =~= Seq::<(int, int)>::empty());
        }
        if t2.root is None {
            assert(t2.points() =~= Seq::<(int, int)>::empty());
        }
        let r1 = rect_view(t1.rect.unwrap());
        let r2 = rect_view(t2.rect.unwrap());
        let a1 = choose|q: (int, int)| t1.points().contains(q) && q.0 == r1.0.0;
        assert(in_rect(r2, a1));
        let a2 = choose|q: (int, int)| t2.points().contains(q) && q.0 == r2.0.0;
        assert(in_rect(r1, a2));
        assert(r1.0.0 == r2.0.0);
        let b1 = choose|q: (int, int)| t1.points().contains(q) && q.1 == r1.0.1;
        assert(in_rect(r2, b1));
        let b2 = choose|q: (int, int)| t2.points().contains(q) && q.1 == r2.0.1;
        assert(in_rect(r1, b2));
        assert(r1.0.1 == r2.0.1);
        let c1 = choose|q: (int, int)| t1.points().contains(q) && q.0 == r1.1.0;
        assert(in_rect(r2, c1));
        let c2 = choose|q: (int, int)| t2.points().contains(q) && q.0 == r2.1.0;
        assert(in_rect(r1, c2));
        assert(r1.1.0 == r2.1.0);
        let e1 = choose|q: (int, int)| t1.points().contains(q) && q.1 == r1.1.1;
        assert(in_rect(r2, e1));
        let e2 = choose|q: (int, int)| t2.points().contains(q) && q.1 == r2.1.1;
        assert(in_rect(r1, e2));
        assert(r1.1.1 == r2.1.1);
        assert(r1 == r2);
    }
}

} // verus!
