//! A spatial index over two-dimensional axis-aligned boxes: a k-d tree whose
//! left subtrees carry a running bound on their far edges, so that boxes that
//! straddle a split are still found by point and rectangle queries.

mod laws;
mod query;
mod tree;
mod value;

pub use laws::{
    lemma_matching_count, lemma_point_query_exact, lemma_queries_depend_on_items,
    lemma_rect_query_exact, lemma_remove_all_complete, lemma_remove_one_precise,
};
pub use query::{point_hits, rect_hits, PointQuery, RectQuery};
pub use tree::{lemma_inserted_extends_frame, sorted_by_near, KdNode, KdTree};
pub use value::{
    contains_point, eq_is_identity, far, lemma_i32_total_order, lemma_i64_total_order,
    lemma_u32_total_order, lemma_u64_total_order, lemma_usize_total_order, near, order_laws,
    overlaps_rect, pos_gt, pos_le, pos_lt, total_order, KdValue,
};
