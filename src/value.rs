use vstd::prelude::*;

use core::cmp::Ordering;
use vstd::std_specs::cmp::{PartialEqSpec, PartialOrdSpec};

verus! {

/// A record that the index can hold: an axis-aligned box whose four edges are
/// positions of an ordered type.
///
/// Each edge is given twice: as a spec function, which contracts speak of, and
/// as an executable accessor that must return exactly that edge. Compiled
/// outside verification, the spec functions are plain methods, and an
/// implementation writes each of them to return the same edge as its
/// accessor.
pub trait KdValue: Sized + PartialEq {
    type Position: PartialOrd;

    spec fn spec_min_x(&self) -> Self::Position;

    spec fn spec_max_x(&self) -> Self::Position;

    spec fn spec_min_y(&self) -> Self::Position;

    spec fn spec_max_y(&self) -> Self::Position;

    fn min_x(&self) -> (r: Self::Position)
        ensures
            r == self.spec_min_x(),
    ;

    fn min_y(&self) -> (r: Self::Position)
        ensures
            r == self.spec_min_y(),
    ;

    fn max_x(&self) -> (r: Self::Position)
        ensures
            r == self.spec_max_x(),
    ;

    fn max_y(&self) -> (r: Self::Position)
        ensures
            r == self.spec_max_y(),
    ;
}

/// `a <= b` as the position type's `PartialOrd` answers it.
pub open spec fn pos_le<P: PartialOrd>(a: P, b: P) -> bool {
    a.partial_cmp_spec(&b) matches Some(Ordering::Less | Ordering::Equal)
}

/// `a < b` as the position type's `PartialOrd` answers it.
pub open spec fn pos_lt<P: PartialOrd>(a: P, b: P) -> bool {
    a.partial_cmp_spec(&b) == Some(Ordering::Less)
}

/// `a > b` as the position type's `PartialOrd` answers it.
pub open spec fn pos_gt<P: PartialOrd>(a: P, b: P) -> bool {
    a.partial_cmp_spec(&b) == Some(Ordering::Greater)
}

/// The position type's comparison is the one its `PartialOrd` spec describes,
/// and that order is total: every two positions compare, `<` and `>` mirror
/// each other, and `<=` is transitive.
///
/// Integers satisfy this; floating-point numbers do so as long as no NaN
/// takes part.
pub open spec fn total_order<P: PartialOrd>() -> bool {
    P::obeys_partial_cmp_spec() && order_laws::<P>()
}

/// The laws of a total order over the `PartialOrd` spec of `P`.
#[verifier::opaque]
pub open spec fn order_laws<P: PartialOrd>() -> bool {
    &&& forall|a: P, b: P| #[trigger] a.partial_cmp_spec(&b) is Some
    &&& forall|a: P, b: P|
        (a.partial_cmp_spec(&b) == Some(Ordering::Less)) == (#[trigger] b.partial_cmp_spec(&a)
            == Some(Ordering::Greater))
    &&& forall|a: P, b: P, c: P| #[trigger]
        pos_le(a, b) && #[trigger] pos_le(b, c) ==> pos_le(a, c)
}

/// The value type's `==` is the one its `PartialEq` spec describes, and it
/// coincides with identity of values.
pub open spec fn eq_is_identity<V: PartialEq>() -> bool {
    &&& V::obeys_eq_spec()
    &&& forall|a: V, b: V| #[trigger] a.eq_spec(&b) <==> a == b
}

/// The edge that a split along this axis sorts and routes by.
pub open spec fn near<V: KdValue>(v: V, vertical: bool) -> V::Position {
    if vertical {
        v.spec_min_y()
    } else {
        v.spec_min_x()
    }
}

/// The edge that bounds a left subtree along this axis.
pub open spec fn far<V: KdValue>(v: V, vertical: bool) -> V::Position {
    if vertical {
        v.spec_max_y()
    } else {
        v.spec_max_x()
    }
}

/// The box of `v` contains the point `(x, y)`, edges included.
pub open spec fn contains_point<V: KdValue>(v: V, x: V::Position, y: V::Position) -> bool {
    &&& pos_le(v.spec_min_x(), x)
    &&& pos_le(x, v.spec_max_x())
    &&& pos_le(v.spec_min_y(), y)
    &&& pos_le(y, v.spec_max_y())
}

/// The box of `v` is not fully disjoint from the query rectangle: it lies
/// entirely to one side of it on neither axis.
pub open spec fn overlaps_rect<V: KdValue>(
    v: V,
    min_x: V::Position,
    max_x: V::Position,
    min_y: V::Position,
    max_y: V::Position,
) -> bool {
    !(pos_gt(v.spec_min_x(), max_x) || pos_gt(min_x, v.spec_max_x()) || pos_gt(
        v.spec_min_y(),
        max_y,
    ) || pos_gt(min_y, v.spec_max_y()))
}

/// `i64` positions are totally ordered.
pub proof fn lemma_i64_total_order()
    ensures
        total_order::<i64>(),
{
    reveal(order_laws);
}

/// `i32` positions are totally ordered.
pub proof fn lemma_i32_total_order()
    ensures
        total_order::<i32>(),
{
    reveal(order_laws);
}

/// `u64` positions are totally ordered.
pub proof fn lemma_u64_total_order()
    ensures
        total_order::<u64>(),
{
    reveal(order_laws);
}

/// `u32` positions are totally ordered.
pub proof fn lemma_u32_total_order()
    ensures
        total_order::<u32>(),
{
    reveal(order_laws);
}

/// `usize` positions are totally ordered.
pub proof fn lemma_usize_total_order()
    ensures
        total_order::<usize>(),
{
    reveal(order_laws);
}

pub(crate) proof fn lemma_le_refl<P: PartialOrd>(a: P)
    requires
        total_order::<P>(),
    ensures
        pos_le(a, a),
{
    reveal(order_laws);
    assert(a.partial_cmp_spec(&a) is Some);
    assert((a.partial_cmp_spec(&a) == Some(Ordering::Less)) == (a.partial_cmp_spec(&a) == Some(
        Ordering::Greater,
    )));
}

pub(crate) proof fn lemma_le_trans<P: PartialOrd>(a: P, b: P, c: P)
    requires
        total_order::<P>(),
        pos_le(a, b),
        pos_le(b, c),
    ensures
        pos_le(a, c),
{
    reveal(order_laws);
}

/// Under a total order, `!(a > b)` is `a <= b`.
pub(crate) proof fn lemma_not_gt_le<P: PartialOrd>(a: P, b: P)
    requires
        total_order::<P>(),
    ensures
        !pos_gt(a, b) <==> pos_le(a, b),
{
    reveal(order_laws);
    assert(a.partial_cmp_spec(&b) is Some);
}

/// Under a total order, `!(a < b)` is `b <= a`.
pub(crate) proof fn lemma_not_lt_le<P: PartialOrd>(a: P, b: P)
    requires
        total_order::<P>(),
    ensures
        !pos_lt(a, b) <==> pos_le(b, a),
{
    reveal(order_laws);
    assert(a.partial_cmp_spec(&b) is Some);
    assert(b.partial_cmp_spec(&a) is Some);
    assert((a.partial_cmp_spec(&b) == Some(Ordering::Less)) == (b.partial_cmp_spec(&a) == Some(
        Ordering::Greater,
    )));
    assert((b.partial_cmp_spec(&a) == Some(Ordering::Less)) == (a.partial_cmp_spec(&b) == Some(
        Ordering::Greater,
    )));
}

/// Under a total order, `a > b` gives `b <= a`.
pub(crate) proof fn lemma_gt_le<P: PartialOrd>(a: P, b: P)
    requires
        total_order::<P>(),
        pos_gt(a, b),
    ensures
        pos_le(b, a),
{
    reveal(order_laws);
    assert((b.partial_cmp_spec(&a) == Some(Ordering::Less)) == (a.partial_cmp_spec(&b) == Some(
        Ordering::Greater,
    )));
}

/// The near edge of `v` along the axis.
pub(crate) fn near_edge<V: KdValue>(v: &V, vertical: bool) -> (r: V::Position)
    ensures
        r == near(*v, vertical),
{
    if vertical {
        v.min_y()
    } else {
        v.min_x()
    }
}

/// The far edge of `v` along the axis.
pub(crate) fn far_edge<V: KdValue>(v: &V, vertical: bool) -> (r: V::Position)
    ensures
        r == far(*v, vertical),
{
    if vertical {
        v.max_y()
    } else {
        v.max_x()
    }
}

} // verus!
