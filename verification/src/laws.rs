//! Properties of the range-query semantics, stated and proved over the
//! same spec functions the tree's contracts use.

use vstd::prelude::*;

use crate::point::{dist_sq_spec, lemma_square_bound};
use crate::tree::{in_range_pts, radius_sq_spec};

verus! {

/// Exactness of the range-query listing: a pair is listed if and only if
/// it is a point of the listing and lies within the squared radius — no
/// false positives and no false negatives, matching a brute-force filter.
pub proof fn lemma_in_range_pts_membership(pts: Seq<(int, int)>, q: (int, int), rsq: int)
    ensures
        forall|x: (int, int)|
            #[trigger] in_range_pts(pts, q, rsq).contains(x) <==> pts.contains(x)
                && dist_sq_spec(x, q) <= rsq,
    decreases pts.len(),
{
    if pts.len() == 0 {
        assert forall|x: (int, int)| #[trigger]
            in_range_pts(pts, q, rsq).contains(x) implies pts.contains(x) && dist_sq_spec(x, q)
            <= rsq by {
            let i = choose|i: int|
                0 <= i < in_range_pts(pts, q, rsq).len() && in_range_pts(pts, q, rsq)[i] == x;
        }
    } else {
        let prefix = pts.drop_last();
        let last = pts.last();
        lemma_in_range_pts_membership(prefix, q, rsq);
        assert(pts =~= prefix.push(last));
        assert forall|x: (int, int)| #[trigger] pts.contains(x) implies prefix.contains(x) || x
            == last by {
            let i = choose|i: int| 0 <= i < pts.len() && pts[i] == x;
            if i < prefix.len() {
                assert(prefix[i] == x);
            }
        }
        assert forall|x: (int, int)| prefix.contains(x) implies pts.contains(x) by {
            let i = choose|i: int| 0 <= i < prefix.len() && prefix[i] == x;
            assert(pts[i] == x);
        }
        let rest = in_range_pts(prefix, q, rsq);
        if dist_sq_spec(last, q) <= rsq {
            let whole = rest.push(last);
            assert(in_range_pts(pts, q, rsq) == whole);
            assert forall|x: (int, int)| #[trigger] whole.contains(x) implies rest.contains(x)
                || x == last by {
                let i = choose|i: int| 0 <= i < whole.len() && whole[i] == x;
                if i < rest.len() {
                    assert(rest[i] == x);
                }
            }
            assert forall|x: (int, int)| rest.contains(x) implies whole.contains(x) by {
                let i = choose|i: int| 0 <= i < rest.len() && rest[i] == x;
                assert(whole[i] == x);
            }
            assert(whole[whole.len() - 1] == last);
            assert(whole.contains(last));
        } else {
            assert(in_range_pts(pts, q, rsq) == rest);
        }
    }
}

/// Self-match: a listed point is always found by a range query centred
/// on it, for every non-negative radius — its distance to itself is 0.
pub proof fn lemma_range_query_self_match(pts: Seq<(int, int)>, p: (int, int), radius: int)
    requires
        pts.contains(p),
        radius >= 0,
    ensures
        in_range_pts(pts, p, radius_sq_spec(radius)).contains(p),
        in_range_pts(pts, p, radius_sq_spec(radius)).to_multiset().count(p) > 0,
{
    broadcast use vstd::seq_lib::group_to_multiset_ensures;

    lemma_square_bound(radius, radius);
    assert(dist_sq_spec(p, p) == 0);
    lemma_in_range_pts_membership(pts, p, radius_sq_spec(radius));
}

/// An empty listing admits no match: a range query on an empty tree
/// lists nothing, whatever the centre and the radius.
pub proof fn lemma_empty_range_query(pts: Seq<(int, int)>, q: (int, int), radius: int)
    requires
        pts.len() == 0,
    ensures
        in_range_pts(pts, q, radius_sq_spec(radius)) == Seq::<(int, int)>::empty(),
{
    assert(pts =~= Seq::<(int, int)>::empty());
}

} // verus!
