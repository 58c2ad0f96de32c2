use vstd::prelude::*;

use crate::query::{matching, point_hits, rect_hits};
use crate::tree::{lemma_items_unfold, lemma_node_items_count, KdTree};
use crate::value::{
    contains_point, eq_is_identity, far, lemma_le_trans, lemma_not_gt_le, near, overlaps_rect,
    pos_le, total_order, KdValue,
};

verus! {

broadcast use {vstd::seq_lib::group_to_multiset_ensures, vstd::multiset::group_multiset_axioms};

/// The values of `s` that satisfy `pred` are each counted as often as `s`
/// holds them.
pub proof fn lemma_matching_count<V>(s: Seq<V>, pred: spec_fn(V) -> bool, v: V)
    ensures
        matching(s, pred).count(v) == if pred(v) {
            s.to_multiset().count(v)
        } else {
            0
        },
    decreases s.len(),
{
    if s.len() > 0 {
        lemma_matching_count(s.drop_last(), pred, v);
        assert(s.drop_last().push(s.last()) =~= s);
    }
}

/// Containment correctness: in a well-formed tree over a totally ordered
/// position type, a point query yields each stored value whose box contains
/// the point exactly as often as it is stored, and no other value.
pub proof fn lemma_point_query_exact<V: KdValue, const N: usize>(
    t: KdTree<V, N>,
    x: V::Position,
    y: V::Position,
    v: V,
)
    requires
        t.wf(),
        total_order::<V::Position>(),
    ensures
        point_hits(t, x, y).count(v) == if contains_point(v, x, y) {
            t.items().count(v)
        } else {
            0
        },
    decreases t,
{
    lemma_items_unfold(t);
    match t {
        KdTree::Leaf(vals) => {
            lemma_matching_count(vals@, |w: V| contains_point(w, x, y), v);
        },
        KdTree::Node(node) => {
            lemma_point_query_exact(node.left, x, y, v);
            lemma_point_query_exact(node.right, x, y, v);
            lemma_node_items_count(*node);
            let c = if node.vertical {
                y
            } else {
                x
            };
            if contains_point(v, x, y) {
                if node.left.items().count(v) > 0 {
                    lemma_le_trans(c, far(v, node.vertical), node.left_max);
                }
                if node.right.items().count(v) > 0 {
                    lemma_le_trans(node.median, near(v, node.vertical), c);
                }
            }
        },
    }
}

/// Overlap correctness: in a well-formed tree over a totally ordered
/// position type, a rectangle query yields each stored value whose box is not
/// fully disjoint from the rectangle exactly as often as it is stored, and no
/// other value.
pub proof fn lemma_rect_query_exact<V: KdValue, const N: usize>(
    t: KdTree<V, N>,
    min_x: V::Position,
    max_x: V::Position,
    min_y: V::Position,
    max_y: V::Position,
    v: V,
)
    requires
        t.wf(),
        total_order::<V::Position>(),
    ensures
        rect_hits(t, min_x, max_x, min_y, max_y).count(v) == if overlaps_rect(
            v,
            min_x,
            max_x,
            min_y,
            max_y,
        ) {
            t.items().count(v)
        } else {
            0
        },
    decreases t,
{
    lemma_items_unfold(t);
    match t {
        KdTree::Leaf(vals) => {
            lemma_matching_count(vals@, |w: V| overlaps_rect(w, min_x, max_x, min_y, max_y), v);
        },
        KdTree::Node(node) => {
            lemma_rect_query_exact(node.left, min_x, max_x, min_y, max_y, v);
            lemma_rect_query_exact(node.right, min_x, max_x, min_y, max_y, v);
            lemma_node_items_count(*node);
            let lo = if node.vertical {
                min_y
            } else {
                min_x
            };
            let hi = if node.vertical {
                max_y
            } else {
                max_x
            };
            if overlaps_rect(v, min_x, max_x, min_y, max_y) {
                if node.left.items().count(v) > 0 {
                    lemma_not_gt_le(lo, far(v, node.vertical));
                    lemma_le_trans(lo, far(v, node.vertical), node.left_max);
                }
                if node.right.items().count(v) > 0 {
                    lemma_not_gt_le(near(v, node.vertical), hi);
                    lemma_le_trans(node.median, near(v, node.vertical), hi);
                }
            }
        },
    }
}

/// Query results depend on the stored values alone: two well-formed trees
/// over a totally ordered position type that hold the same values (whatever
/// the order of insertion that built them) answer every point query and every
/// rectangle query alike.
pub proof fn lemma_queries_depend_on_items<V: KdValue, const N: usize>(
    t1: KdTree<V, N>,
    t2: KdTree<V, N>,
)
    requires
        t1.wf(),
        t2.wf(),
        total_order::<V::Position>(),
        t1.items() == t2.items(),
    ensures
        forall|x: V::Position, y: V::Position| #[trigger]
            point_hits(t1, x, y) == point_hits(t2, x, y),
        forall|x0: V::Position, x1: V::Position, y0: V::Position, y1: V::Position| #[trigger]
            rect_hits(t1, x0, x1, y0, y1) == rect_hits(t2, x0, x1, y0, y1),
{
    assert forall|x: V::Position, y: V::Position| #[trigger]
        point_hits(t1, x, y) == point_hits(t2, x, y) by {
        assert forall|v: V| point_hits(t1, x, y).count(v) == point_hits(t2, x, y).count(v) by {
            lemma_point_query_exact(t1, x, y, v);
            lemma_point_query_exact(t2, x, y, v);
        }
        assert(point_hits(t1, x, y) =~= point_hits(t2, x, y));
    }
    assert forall|x0: V::Position, x1: V::Position, y0: V::Position, y1: V::Position| #[trigger]
        rect_hits(t1, x0, x1, y0, y1) == rect_hits(t2, x0, x1, y0, y1) by {
        assert forall|v: V|
            rect_hits(t1, x0, x1, y0, y1).count(v) == rect_hits(t2, x0, x1, y0, y1).count(v) by {
            lemma_rect_query_exact(t1, x0, x1, y0, y1, v);
            lemma_rect_query_exact(t2, x0, x1, y0, y1, v);
        }
        assert(rect_hits(t1, x0, x1, y0, y1) =~= rect_hits(t2, x0, x1, y0, y1));
    }
}

/// Removal precision: let `after` and `r` be what `remove_one(v)` made of
/// `before`. If `v` is stored, `r` is true and every point query that finds
/// `v` finds it once less; if `v` is not stored, `r` is false and the tree is
/// unchanged.
pub proof fn lemma_remove_one_precise<V: KdValue, const N: usize>(
    before: KdTree<V, N>,
    after: KdTree<V, N>,
    v: V,
    r: bool,
)
    requires
        before.wf(),
        after.wf(),
        total_order::<V::Position>(),
        eq_is_identity::<V>(),
        r == (before.items().count(v) > 0),
        r ==> after.items() =~= before.items().remove(v),
        !r ==> after == before,
    ensures
        before.items().count(v) > 0 ==> {
            &&& r
            &&& after.items().count(v) == before.items().count(v) - 1
            &&& forall|x: V::Position, y: V::Position|
                contains_point(v, x, y) ==> #[trigger] point_hits(after, x, y).count(v)
                    == point_hits(before, x, y).count(v) - 1
        },
        before.items().count(v) == 0 ==> !r && after == before,
{
    if before.items().count(v) > 0 {
        assert forall|x: V::Position, y: V::Position| contains_point(v, x, y) implies #[trigger]
            point_hits(after, x, y).count(v) == point_hits(before, x, y).count(v) - 1 by {
            lemma_point_query_exact(before, x, y, v);
            lemma_point_query_exact(after, x, y, v);
        }
    }
}

/// Remove-all completeness: let `after` be what `remove_all(v)` made of
/// `before`. Then no point or rectangle query on `after` yields `v`.
pub proof fn lemma_remove_all_complete<V: KdValue, const N: usize>(
    before: KdTree<V, N>,
    after: KdTree<V, N>,
    v: V,
)
    requires
        before.wf(),
        after.wf(),
        total_order::<V::Position>(),
        eq_is_identity::<V>(),
        after.items().count(v) == 0,
        forall|w: V| w != v ==> #[trigger] after.items().count(w) == before.items().count(w),
    ensures
        forall|x: V::Position, y: V::Position| #[trigger] point_hits(after, x, y).count(v) == 0,
        forall|x0: V::Position, x1: V::Position, y0: V::Position, y1: V::Position| #[trigger]
            rect_hits(after, x0, x1, y0, y1).count(v) == 0,
{
    assert forall|x: V::Position, y: V::Position| #[trigger]
        point_hits(after, x, y).count(v) == 0 by {
        lemma_point_query_exact(after, x, y, v);
    }
    assert forall|x0: V::Position, x1: V::Position, y0: V::Position, y1: V::Position| #[trigger]
        rect_hits(after, x0, x1, y0, y1).count(v) == 0 by {
        lemma_rect_query_exact(after, x0, x1, y0, y1, v);
    }
}

} // verus!
