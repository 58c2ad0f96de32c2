use vstd::prelude::*;

use crate::value::{
    eq_is_identity,
    far, far_edge, lemma_gt_le, lemma_le_refl, lemma_le_trans, lemma_not_gt_le, lemma_not_lt_le,
    near, near_edge, pos_gt, pos_le, pos_lt, total_order, KdValue,
};
use vstd::multiset::Multiset;
use vstd::std_specs::cmp::{PartialEqSpec, PartialOrdSpec};

verus! {

broadcast use {vstd::seq_lib::group_to_multiset_ensures, vstd::seq_lib::lemma_multiset_commutative};

/// The index: a leaf bucket of at most `ISLAND_SIZE - 1` values, or a split
/// node that owns two subtrees.
pub enum KdTree<Value: KdValue, const ISLAND_SIZE: usize> {
    Leaf(Vec<Value>),
    Node(Box<KdNode<Value, ISLAND_SIZE>>),
}

/// A split: values whose near edge along the axis is below `median` went to
/// `left`, the others to `right`; `left_max` bounds the far edges in `left`.
pub struct KdNode<Value: KdValue, const ISLAND_SIZE: usize> {
    pub vertical: bool,
    pub median: Value::Position,
    pub left_max: Value::Position,
    pub left: KdTree<Value, ISLAND_SIZE>,
    pub right: KdTree<Value, ISLAND_SIZE>,
}

impl<Value: KdValue, const ISLAND_SIZE: usize> KdTree<Value, ISLAND_SIZE> {
    /// The values stored in the tree, with their multiplicities.
    pub open spec fn items(self) -> Multiset<Value>
        decreases self,
    {
        match self {
            KdTree::Leaf(vals) => vals@.to_multiset(),
            KdTree::Node(node) => node.items(),
        }
    }

    /// Every leaf is below capacity, and where the position order is total,
    /// every split node bounds its subtrees (see `KdNode::bounds_hold`).
    pub open spec fn wf(self) -> bool
        decreases self,
    {
        match self {
            KdTree::Leaf(vals) => vals.len() < ISLAND_SIZE,
            KdTree::Node(node) => node.wf(),
        }
    }

    /// `self` has the split nodes of `other`, each with the same axis,
    /// median and `left_max`, and leaves where `other` has leaves: only the
    /// contents of leaves may differ.
    pub open spec fn keeps_frame(self, other: Self) -> bool
        decreases self,
    {
        match self {
            KdTree::Leaf(_) => other is Leaf,
            KdTree::Node(node) => match other {
                KdTree::Node(o) => node.keeps_frame(*o),
                KdTree::Leaf(_) => false,
            },
        }
    }

    /// `self` has a split node wherever `other` has one, with the same axis
    /// and median and a `left_max` at least as large (where the order is
    /// total); a leaf of `other` may have become anything.
    pub open spec fn extends_frame(self, other: Self) -> bool
        decreases other,
    {
        match other {
            KdTree::Leaf(_) => true,
            KdTree::Node(o) => match self {
                KdTree::Node(node) => {
                    &&& node.vertical == o.vertical
                    &&& node.median == o.median
                    &&& total_order::<Value::Position>() ==> pos_le(o.left_max, node.left_max)
                    &&& node.left.extends_frame(o.left)
                    &&& node.right.extends_frame(o.right)
                },
                KdTree::Leaf(_) => false,
            },
        }
    }

    /// `after` is what inserting `v` into `self`, with axis flag `vertical`,
    /// makes of it: a leaf below capacity gets `v` appended; a leaf that
    /// reaches capacity becomes a split along `vertical` of its values and
    /// `v`; a split node routes `v` (see `KdNode::inserted`).
    pub open spec fn inserted(self, after: Self, v: Value, vertical: bool) -> bool
        decreases self,
    {
        match self {
            KdTree::Leaf(vals) => if vals.len() + 1 < ISLAND_SIZE {
                match after {
                    KdTree::Leaf(nv) => nv@ == vals@.push(v),
                    KdTree::Node(_) => false,
                }
            } else {
                match after {
                    KdTree::Node(m) => m.split_of(vals@.push(v), vertical),
                    KdTree::Leaf(_) => false,
                }
            },
            KdTree::Node(node) => match after {
                KdTree::Node(m) => node.inserted(*m, v),
                KdTree::Leaf(_) => false,
            },
        }
    }
}

/// The values of `s` are in ascending order of near edge along the axis.
pub open spec fn sorted_by_near<V: KdValue>(s: Seq<V>, vertical: bool) -> bool {
    forall|i: int, j: int| 0 <= i <= j < s.len() ==> pos_le(near(s[i], vertical), near(s[j], vertical))
}

impl<Value: KdValue, const ISLAND_SIZE: usize> KdNode<Value, ISLAND_SIZE> {
    /// The values stored under this node, with their multiplicities.
    pub open spec fn items(self) -> Multiset<Value>
        decreases self,
    {
        self.left.items().add(self.right.items())
    }

    /// Both subtrees are well formed, and where the position order is total,
    /// the node bounds them.
    pub open spec fn wf(self) -> bool
        decreases self,
    {
        &&& self.left.wf()
        &&& self.right.wf()
        &&& total_order::<Value::Position>() ==> self.bounds_hold()
    }

    /// Axis, median and `left_max` are those of `other`, and both subtrees
    /// keep the frames of the subtrees of `other`.
    pub open spec fn keeps_frame(self, other: Self) -> bool
        decreases self,
    {
        &&& self.vertical == other.vertical
        &&& self.median == other.median
        &&& self.left_max == other.left_max
        &&& self.left.keeps_frame(other.left)
        &&& self.right.keeps_frame(other.right)
    }

    /// `after` is what inserting `v` makes of this node: axis and median stay;
    /// a value whose near edge is below the median goes into `left`, with the
    /// other axis, and `left_max` rises to its far edge if that is greater;
    /// any other value goes into `right`, with the other axis, and `left_max`
    /// stays.
    pub open spec fn inserted(self, after: Self, v: Value) -> bool
        decreases self,
    {
        &&& after.vertical == self.vertical
        &&& after.median == self.median
        &&& if self.routes_left(v) {
            &&& after.left_max == (if pos_gt(far(v, self.vertical), self.left_max) {
                far(v, self.vertical)
            } else {
                self.left_max
            })
            &&& after.right == self.right
            &&& self.left.inserted(after.left, v, !self.vertical)
        } else {
            &&& after.left_max == self.left_max
            &&& after.left == self.left
            &&& self.right.inserted(after.right, v, !self.vertical)
        }
    }

    /// This node is the split of the full bucket `s` along `vertical`: with
    /// `s` sorted by near edge (where the order is total), `left` is a leaf of
    /// its first half (`s.len() / 2` values), `right` a leaf of the rest,
    /// `median` the near edge of the first value of `right`, and `left_max`
    /// the largest far edge in `left`.
    pub open spec fn split_of(self, s: Seq<Value>, vertical: bool) -> bool {
        match self.left {
            KdTree::Leaf(l) => match self.right {
                KdTree::Leaf(r) => {
                    &&& self.vertical == vertical
                    &&& l.len() == s.len() / 2
                    &&& r.len() > 0
                    &&& (l@ + r@).to_multiset() =~= s.to_multiset()
                    &&& total_order::<Value::Position>() ==> sorted_by_near(l@ + r@, vertical)
                    &&& self.median == near(r@[0], vertical)
                    &&& exists|k: int| 0 <= k < l.len() && self.left_max == far(l@[k], vertical)
                    &&& total_order::<Value::Position>() ==> forall|k: int|
                        0 <= k < l.len() ==> pos_le(far(l@[k], vertical), self.left_max)
                },
                KdTree::Node(_) => false,
            },
            KdTree::Node(_) => false,
        }
    }

    /// Far edges in `left` are at most `left_max`, near edges in `left` at
    /// most `median`, and near edges in `right` at least `median`.
    pub open spec fn bounds_hold(self) -> bool {
        &&& forall|v: Value| #[trigger]
            self.left.items().count(v) > 0 ==> pos_le(far(v, self.vertical), self.left_max)
                && pos_le(near(v, self.vertical), self.median)
        &&& forall|v: Value| #[trigger]
            self.right.items().count(v) > 0 ==> pos_le(self.median, near(v, self.vertical))
    }

    /// Routing sends `v` left when its near edge is below the median.
    pub open spec fn routes_left(self, v: Value) -> bool {
        pos_lt(near(v, self.vertical), self.median)
    }
}

impl<Value: KdValue, const ISLAND_SIZE: usize> Default for KdTree<Value, ISLAND_SIZE> {
    fn default() -> (r: Self)
        ensures
            (match r {
                KdTree::Leaf(vals) => vals@.len() == 0,
                KdTree::Node(_) => false,
            }),
            r.items() =~= Multiset::<Value>::empty(),
            ISLAND_SIZE > 0 ==> r.wf(),
    {
        KdTree::Leaf(Vec::with_capacity(ISLAND_SIZE))
    }
}

/// Moves the values of `vals` into a new vector sorted by near edge along the
/// axis (where the position order is total), by repeatedly taking a smallest.
fn sort_by_near<Value: KdValue>(vals: Vec<Value>, vertical: bool) -> (r: Vec<Value>)
    ensures
        r@.to_multiset() =~= vals@.to_multiset(),
        r.len() == vals.len(),
        total_order::<Value::Position>() ==> forall|i: int, j: int|
            0 <= i <= j < r.len() ==> pos_le(near(r[i], vertical), near(r[j], vertical)),
{
    let mut rest = vals;
    let mut sorted: Vec<Value> = Vec::new();
    while rest.len() > 0
        invariant
            sorted@.to_multiset().add(rest@.to_multiset()) =~= vals@.to_multiset(),
            sorted.len() + rest.len() == vals.len(),
            total_order::<Value::Position>() ==> forall|i: int, j: int|
                0 <= i <= j < sorted.len() ==> pos_le(
                    near(sorted[i], vertical),
                    near(sorted[j], vertical),
                ),
            total_order::<Value::Position>() ==> forall|i: int, k: int|
                0 <= i < sorted.len() && 0 <= k < rest.len() ==> pos_le(
                    near(sorted[i], vertical),
                    near(rest[k], vertical),
                ),
        decreases rest.len(),
    {
        let mut m: usize = 0;
        let mut j: usize = 1;
        let mut best = near_edge(&rest[0], vertical);
        proof {
            if total_order::<Value::Position>() {
                lemma_le_refl(best);
            }
        }
        while j < rest.len()
            invariant
                0 <= m < j <= rest.len(),
                best == near(rest[m as int], vertical),
                total_order::<Value::Position>() ==> forall|k: int|
                    0 <= k < j ==> pos_le(best, near(rest[k], vertical)),
            decreases rest.len() - j,
        {
            let cand = near_edge(&rest[j], vertical);
            if cand < best {
                proof {
                    if total_order::<Value::Position>() {
                        assert forall|k: int| 0 <= k < j + 1 implies pos_le(
                            cand,
                            near(rest[k], vertical),
                        ) by {
                            if k < j {
                                lemma_le_trans(cand, best, near(rest[k], vertical));
                            } else {
                                lemma_le_refl(cand);
                            }
                        }
                    }
                }
                m = j;
                best = cand;
            } else {
                proof {
                    if total_order::<Value::Position>() {
                        lemma_not_lt_le(cand, best);
                    }
                }
            }
            j = j + 1;
        }
        proof {
            if total_order::<Value::Position>() {
                lemma_le_refl(best);
            }
        }
        let ghost old_rest = rest@;
        let ghost old_sorted = sorted@;
        let v = rest.remove(m);
        sorted.push(v);
        proof {
            assert(old_rest.remove(m as int).to_multiset() =~= old_rest.to_multiset().remove(
                old_rest[m as int],
            ));
            assert(sorted@ =~= old_sorted.push(v));
            if total_order::<Value::Position>() {
                assert forall|i: int, k: int|
                    0 <= i < sorted.len() && 0 <= k < rest.len() implies pos_le(
                    near(sorted[i], vertical),
                    near(rest[k], vertical),
                ) by {
                    let kk = if k < m { k } else { k + 1 };
                    assert(rest[k] == old_rest[kk]);
                }
            }
        }
    }
    sorted
}


pub(crate) proof fn lemma_items_unfold<Value: KdValue, const ISLAND_SIZE: usize>(
    t: KdTree<Value, ISLAND_SIZE>,
)
    ensures
        match t {
            KdTree::Leaf(vals) => t.items() == vals@.to_multiset(),
            KdTree::Node(node) => t.items() == node.items(),
        },
{
}

pub(crate) proof fn lemma_node_items_count<Value: KdValue, const ISLAND_SIZE: usize>(
    n: KdNode<Value, ISLAND_SIZE>,
)
    ensures
        forall|w: Value| #[trigger]
            n.items().count(w) == n.left.items().count(w) + n.right.items().count(w),
{
}

/// Every tree extends its own frame.
pub(crate) proof fn lemma_extends_frame_refl<Value: KdValue, const ISLAND_SIZE: usize>(
    t: KdTree<Value, ISLAND_SIZE>,
)
    ensures
        t.extends_frame(t),
    decreases t,
{
    match t {
        KdTree::Leaf(_) => {},
        KdTree::Node(node) => {
            lemma_extends_frame_refl(node.left);
            lemma_extends_frame_refl(node.right);
            if total_order::<Value::Position>() {
                lemma_le_refl(node.left_max);
            }
        },
    }
}

/// An insertion keeps every split node, with its axis and median, and never
/// lowers a `left_max`.
pub proof fn lemma_inserted_extends_frame<Value: KdValue, const ISLAND_SIZE: usize>(
    before: KdTree<Value, ISLAND_SIZE>,
    after: KdTree<Value, ISLAND_SIZE>,
    v: Value,
    vertical: bool,
)
    requires
        before.inserted(after, v, vertical),
    ensures
        after.extends_frame(before),
    decreases before,
{
    match before {
        KdTree::Leaf(_) => {},
        KdTree::Node(o) => match after {
            KdTree::Node(node) => {
                if o.routes_left(v) {
                    lemma_inserted_extends_frame(o.left, node.left, v, !o.vertical);
                    lemma_extends_frame_refl(o.right);
                    if total_order::<Value::Position>() {
                        if pos_gt(far(v, o.vertical), o.left_max) {
                            lemma_gt_le(far(v, o.vertical), o.left_max);
                        } else {
                            lemma_le_refl(o.left_max);
                        }
                    }
                } else {
                    lemma_inserted_extends_frame(o.right, node.right, v, !o.vertical);
                    lemma_extends_frame_refl(o.left);
                    if total_order::<Value::Position>() {
                        lemma_le_refl(o.left_max);
                    }
                }
            },
            KdTree::Leaf(_) => {},
        },
    }
}

/// Every tree keeps its own frame.
pub(crate) proof fn lemma_keeps_frame_refl<Value: KdValue, const ISLAND_SIZE: usize>(
    t: KdTree<Value, ISLAND_SIZE>,
)
    ensures
        t.keeps_frame(t),
    decreases t,
{
    match t {
        KdTree::Leaf(_) => {},
        KdTree::Node(node) => {
            lemma_keeps_frame_refl(node.left);
            lemma_keeps_frame_refl(node.right);
        },
    }
}

/// What `swap_remove(i)` leaves holds the values of `s` but one copy of `s[i]`.
proof fn lemma_swap_remove_multiset<A>(s: Seq<A>, i: int)
    requires
        0 <= i < s.len(),
    ensures
        s.update(i, s.last()).drop_last().to_multiset() =~= s.to_multiset().remove(s[i]),
{
    let n = s.len();
    let t = s.update(i, s.last()).drop_last();
    if i == n - 1 {
        assert(t =~= s.remove(i));
    } else {
        let a = s.subrange(0, i);
        let b = s.subrange(i + 1, n - 1);
        let l = seq![s[n - 1]];
        assert(t =~= a + l + b);
        assert(s.remove(i) =~= a + b + l);
        assert((a + l + b).to_multiset() =~= a.to_multiset().add(l.to_multiset()).add(
            b.to_multiset(),
        ));
        assert((a + b + l).to_multiset() =~= a.to_multiset().add(b.to_multiset()).add(
            l.to_multiset(),
        ));
    }
}

/// Removes the first value equal to `value` from a leaf bucket by swapping
/// the last value into its place.
fn leaf_remove_one<Value: KdValue>(leaf: &mut Vec<Value>, value: &Value) -> (r: bool)
    ensures
        final(leaf).len() <= old(leaf).len(),
        forall|w: Value| #[trigger] final(leaf)@.to_multiset().count(w) <= old(leaf)@.to_multiset().count(w),
        !r ==> *final(leaf) == *old(leaf),
        eq_is_identity::<Value>() ==> (r == old(leaf)@.contains(*value)),
        eq_is_identity::<Value>() && r ==> final(leaf)@.to_multiset() =~= old(
            leaf,
        )@.to_multiset().remove(*value),
{
    let mut i: usize = 0;
    while i < leaf.len()
        invariant
            i <= leaf.len(),
            *leaf == *old(leaf),
            eq_is_identity::<Value>() ==> forall|k: int| 0 <= k < i ==> leaf[k] != *value,
        decreases leaf.len() - i,
    {
        if leaf[i] == *value {
            let ghost s = leaf@;
            leaf.swap_remove(i);
            proof {
                lemma_swap_remove_multiset(s, i as int);
                assert(s.contains(s[i as int]));
            }
            return true;
        }
        i = i + 1;
    }
    false
}

/// Removes every value equal to `value` from a leaf bucket, swapping the last
/// value into each freed place.
fn leaf_remove_all<Value: KdValue>(leaf: &mut Vec<Value>, value: &Value)
    ensures
        final(leaf).len() <= old(leaf).len(),
        forall|w: Value| #[trigger] final(leaf)@.to_multiset().count(w) <= old(leaf)@.to_multiset().count(w),
        eq_is_identity::<Value>() ==> final(leaf)@.to_multiset().count(*value) == 0,
        eq_is_identity::<Value>() ==> forall|w: Value|
            w != *value ==> #[trigger] final(leaf)@.to_multiset().count(w) == old(
                leaf,
            )@.to_multiset().count(w),
{
    let mut i: usize = 0;
    while i < leaf.len()
        invariant
            i <= leaf.len() <= old(leaf).len(),
            forall|w: Value| #[trigger] leaf@.to_multiset().count(w) <= old(leaf)@.to_multiset().count(w),
            eq_is_identity::<Value>() ==> forall|w: Value|
                w != *value ==> #[trigger] leaf@.to_multiset().count(w) == old(
                    leaf,
                )@.to_multiset().count(w),
            eq_is_identity::<Value>() ==> forall|k: int| 0 <= k < i ==> leaf[k] != *value,
        decreases leaf.len() - i,
    {
        if leaf[i] == *value {
            let ghost s = leaf@;
            leaf.swap_remove(i);
            proof {
                lemma_swap_remove_multiset(s, i as int);
            }
        } else {
            i = i + 1;
        }
    }
    proof {
        if eq_is_identity::<Value>() {
            assert(!leaf@.contains(*value));
        }
    }
}

impl<Value: KdValue, const ISLAND_SIZE: usize> KdTree<Value, ISLAND_SIZE> {
    /// Builds the split node that replaces a full leaf.
    fn split_leaf(vals: Vec<Value>, vertical: bool) -> (r: Self)
        requires
            vals.len() == ISLAND_SIZE,
            2 <= ISLAND_SIZE,
        ensures
            r.wf(),
            r.items() =~= vals@.to_multiset(),
            (match r {
                KdTree::Node(node) => node.split_of(vals@, vertical),
                KdTree::Leaf(_) => false,
            }),
    {
        let ghost input = vals@;
        let mut left = sort_by_near(vals, vertical);
        let mid: usize = ISLAND_SIZE / 2;
        let median = near_edge(&left[mid], vertical);
        let ghost sorted = left@;
        let right = left.split_off(mid);
        assert(sorted =~= left@ + right@);
        let mut left_max = far_edge(&left[0], vertical);
        let mut i: usize = 1;
        let ghost mut at: int = 0;
        proof {
            if total_order::<Value::Position>() {
                lemma_le_refl(left_max);
            }
        }
        while i < left.len()
            invariant
                1 <= i <= left.len(),
                left.len() == mid,
                0 <= at < i,
                left_max == far(left[at], vertical),
                total_order::<Value::Position>() ==> forall|k: int|
                    0 <= k < i ==> pos_le(far(left[k], vertical), left_max),
            decreases left.len() - i,
        {
            let f = far_edge(&left[i], vertical);
            if f > left_max {
                proof {
                    if total_order::<Value::Position>() {
                        lemma_gt_le(f, left_max);
                        assert forall|k: int| 0 <= k < i + 1 implies pos_le(
                            far(left[k], vertical),
                            f,
                        ) by {
                            if k < i {
                                lemma_le_trans(far(left[k], vertical), left_max, f);
                            } else {
                                lemma_le_refl(f);
                            }
                        }
                    }
                }
                left_max = f;
                proof {
                    at = i as int;
                }
            } else {
                proof {
                    if total_order::<Value::Position>() {
                        lemma_not_gt_le(f, left_max);
                    }
                }
            }
            i = i + 1;
        }
        let ghost lv = left@;
        let ghost rv = right@;
        let node = KdNode {
            vertical,
            median,
            left_max,
            left: KdTree::Leaf(left),
            right: KdTree::Leaf(right),
        };
        proof {
            assert(node.left.items() == lv.to_multiset());
            assert(node.right.items() == rv.to_multiset());
            assert(sorted.to_multiset() =~= lv.to_multiset().add(rv.to_multiset()));
            assert(node.left.wf() && node.right.wf());
            if total_order::<Value::Position>() {
                assert forall|v: Value| #[trigger] node.left.items().count(v) > 0 implies pos_le(
                    far(v, vertical),
                    left_max,
                ) && pos_le(near(v, vertical), median) by {
                    assert(lv.contains(v));
                    let k = choose|k: int| 0 <= k < lv.len() && lv[k] == v;
                    assert(sorted[k] == v);
                }
                assert forall|v: Value| #[trigger] node.right.items().count(v) > 0 implies pos_le(
                    median,
                    near(v, vertical),
                ) by {
                    assert(rv.contains(v));
                    let k = choose|k: int| 0 <= k < rv.len() && rv[k] == v;
                    assert(sorted[mid + k] == v);
                }
            }
            assert(lv + rv =~= sorted);
            assert(rv[0] == sorted[mid as int]);
            assert(node.split_of(input, vertical));
        }
        KdTree::Node(Box::new(node))
    }

    fn insert_internal(&mut self, value: Value, vertical: bool)
        requires
            old(self).wf(),
            2 <= ISLAND_SIZE,
        ensures
            final(self).wf(),
            final(self).items() =~= old(self).items().insert(value),
            Value::Position::obeys_partial_cmp_spec() ==> old(self).inserted(
                *final(self),
                value,
                vertical,
            ),
        decreases *old(self),
    {
        let change = match self {
            KdTree::Leaf(leaf) => {
                leaf.push(value);
                if leaf.len() < ISLAND_SIZE {
                    None
                } else {
                    let mut vals: Vec<Value> = Vec::new();
                    std::mem::swap(leaf, &mut vals);
                    Some(Self::split_leaf(vals, vertical))
                }
            },
            KdTree::Node(node) => {
                node.insert(value);
                None
            },
        };
        if let Some(new_tree) = change {
            *self = new_tree;
        }
    }

    /// Removes one stored value equal to `value`; says whether there was one.
    pub fn remove_one(&mut self, value: Value) -> (r: bool)
        requires
            old(self).wf(),
        ensures
            final(self).wf(),
            final(self).keeps_frame(*old(self)),
            forall|w: Value| #[trigger] final(self).items().count(w) <= old(self).items().count(w),
            !r ==> *final(self) == *old(self),
            total_order::<Value::Position>() && eq_is_identity::<Value>() ==> {
                &&& r == (old(self).items().count(value) > 0)
                &&& r ==> final(self).items() =~= old(self).items().remove(value)
            },
    {
        self.remove_one_in(&value)
    }

    /// Removes every stored value equal to `value`.
    pub fn remove_all(&mut self, value: Value)
        requires
            old(self).wf(),
        ensures
            final(self).wf(),
            final(self).keeps_frame(*old(self)),
            forall|w: Value| #[trigger] final(self).items().count(w) <= old(self).items().count(w),
            total_order::<Value::Position>() && eq_is_identity::<Value>() ==> {
                &&& final(self).items().count(value) == 0
                &&& forall|w: Value|
                    w != value ==> #[trigger] final(self).items().count(w) == old(
                        self,
                    ).items().count(w)
            },
    {
        self.remove_all_in(&value)
    }

    fn remove_one_in(&mut self, value: &Value) -> (r: bool)
        requires
            old(self).wf(),
        ensures
            final(self).wf(),
            final(self).keeps_frame(*old(self)),
            forall|w: Value| #[trigger] final(self).items().count(w) <= old(self).items().count(w),
            !r ==> *final(self) == *old(self),
            total_order::<Value::Position>() && eq_is_identity::<Value>() ==> {
                &&& r == (old(self).items().count(*value) > 0)
                &&& r ==> final(self).items() =~= old(self).items().remove(*value)
            },
        decreases *old(self),
    {
        let r = match self {
            KdTree::Leaf(leaf) => leaf_remove_one(leaf, value),
            KdTree::Node(node) => node.remove_one(value),
        };
        proof {
            lemma_items_unfold(*old(self));
            lemma_items_unfold(*self);
            if !r {
                lemma_keeps_frame_refl(*self);
            }
        }
        r
    }

    fn remove_all_in(&mut self, value: &Value)
        requires
            old(self).wf(),
        ensures
            final(self).wf(),
            final(self).keeps_frame(*old(self)),
            forall|w: Value| #[trigger] final(self).items().count(w) <= old(self).items().count(w),
            total_order::<Value::Position>() && eq_is_identity::<Value>() ==> {
                &&& final(self).items().count(*value) == 0
                &&& forall|w: Value|
                    w != *value ==> #[trigger] final(self).items().count(w) == old(
                        self,
                    ).items().count(w)
            },
        decreases *old(self),
    {
        match self {
            KdTree::Leaf(leaf) => {
                leaf_remove_all(leaf, value);
            },
            KdTree::Node(node) => node.remove_all(value),
        }
        proof {
            lemma_items_unfold(*old(self));
            lemma_items_unfold(*self);
        }
    }

    /// Adds `value` to the index.
    pub fn insert(&mut self, value: Value)
        requires
            old(self).wf(),
            2 <= ISLAND_SIZE,
        ensures
            final(self).wf(),
            final(self).items() =~= old(self).items().insert(value),
            Value::Position::obeys_partial_cmp_spec() ==> old(self).inserted(
                *final(self),
                value,
                false,
            ),
            Value::Position::obeys_partial_cmp_spec() ==> final(self).extends_frame(*old(self)),
    {
        self.insert_internal(value, false);
        proof {
            if Value::Position::obeys_partial_cmp_spec() {
                lemma_inserted_extends_frame(*old(self), *self, value, false);
            }
        }
    }
}

impl<Value: KdValue, const ISLAND_SIZE: usize> KdNode<Value, ISLAND_SIZE> {
    /// Routes `value` by its near edge and inserts it into that subtree with
    /// the other axis.
    fn insert(&mut self, value: Value)
        requires
            old(self).wf(),
            2 <= ISLAND_SIZE,
        ensures
            final(self).wf(),
            final(self).items() =~= old(self).items().insert(value),
            Value::Position::obeys_partial_cmp_spec() ==> old(self).inserted(*final(self), value),
        decreases *old(self),
    {
        let vertical = self.vertical;
        let ghost n = near(value, vertical);
        let ghost f = far(value, vertical);
        let ghost old_max = self.left_max;
        self.choose_tree(&value).insert_internal(value, !vertical);
        proof {
            lemma_node_items_count(*old(self));
            lemma_node_items_count(*self);
            if total_order::<Value::Position>() {
                let o = *old(self);
                if o.routes_left(value) {
                    if pos_gt(f, old_max) {
                        lemma_gt_le(f, old_max);
                        lemma_le_refl(f);
                        assert forall|v: Value| #[trigger] o.left.items().count(v) > 0 implies pos_le(
                            far(v, vertical),
                            f,
                        ) by {
                            lemma_le_trans(far(v, vertical), old_max, f);
                        }
                    } else {
                        lemma_not_gt_le(f, old_max);
                    }
                } else {
                    lemma_not_lt_le(n, o.median);
                }
                assert(self.bounds_hold());
            }
        }
    }

    /// The subtree that routing by near edge leads `value` to; when that is
    /// `left`, `left_max` is first raised to the far edge of `value` if that
    /// is greater.
    fn choose_tree(&mut self, value: &Value) -> (r: &mut KdTree<Value, ISLAND_SIZE>)
        ensures
            final(self).vertical == old(self).vertical,
            final(self).median == old(self).median,
            ({
                &&& *r == old(self).left
                &&& final(self).left == *final(r)
                &&& final(self).right == old(self).right
                &&& (final(self).left_max == old(self).left_max || final(self).left_max == far(
                    *value,
                    old(self).vertical,
                ))
            }) || ({
                &&& *r == old(self).right
                &&& final(self).right == *final(r)
                &&& final(self).left == old(self).left
                &&& final(self).left_max == old(self).left_max
            }),
            Value::Position::obeys_partial_cmp_spec() && old(self).routes_left(*value) ==> {
                &&& *r == old(self).left
                &&& final(self).left == *final(r)
                &&& final(self).right == old(self).right
                &&& final(self).left_max == (if pos_gt(
                    far(*value, old(self).vertical),
                    old(self).left_max,
                ) {
                    far(*value, old(self).vertical)
                } else {
                    old(self).left_max
                })
            },
            Value::Position::obeys_partial_cmp_spec() && !old(self).routes_left(*value) ==> {
                &&& *r == old(self).right
                &&& final(self).right == *final(r)
                &&& final(self).left == old(self).left
                &&& final(self).left_max == old(self).left_max
            },
    {
        let n = near_edge(value, self.vertical);
        if n < self.median {
            let f = far_edge(value, self.vertical);
            if f > self.left_max {
                self.left_max = f;
            }
            &mut self.left
        } else {
            &mut self.right
        }
    }

    /// Removes one value equal to `value`: from `left` if its near edge is
    /// at most the median and a copy is there, else from `right` if its near
    /// edge is at least the median. Where a split put values whose near edge
    /// equals the median on both sides, both are searched.
    fn remove_one(&mut self, value: &Value) -> (r: bool)
        requires
            old(self).wf(),
        ensures
            final(self).wf(),
            final(self).keeps_frame(*old(self)),
            forall|w: Value| #[trigger] final(self).items().count(w) <= old(self).items().count(w),
            !r ==> *final(self) == *old(self),
            total_order::<Value::Position>() && eq_is_identity::<Value>() ==> {
                &&& r == (old(self).items().count(*value) > 0)
                &&& r ==> final(self).items() =~= old(self).items().remove(*value)
            },
        decreases *old(self),
    {
        let n = near_edge(value, self.vertical);
        let mut r = false;
        if n <= self.median {
            r = self.left.remove_one_in(value);
        }
        if !r && self.median <= n {
            r = self.right.remove_one_in(value);
        }
        proof {
            lemma_node_items_count(*old(self));
            lemma_node_items_count(*self);
            lemma_keeps_frame_refl(old(self).left);
            lemma_keeps_frame_refl(old(self).right);
            if total_order::<Value::Position>() && eq_is_identity::<Value>() {
                let o = *old(self);
                let c = near(*value, o.vertical);
                if o.left.items().count(*value) > 0 {
                    assert(pos_le(c, o.median));
                }
                if o.right.items().count(*value) > 0 {
                    assert(pos_le(o.median, c));
                }
                if !pos_le(c, o.median) {
                    lemma_not_gt_le(c, o.median);
                    lemma_gt_le(c, o.median);
                }
                if r {
                    assert(self.items() =~= o.items().remove(*value));
                }
            }
        }
        r
    }

    /// Removes every value equal to `value` from `left` if its near edge is
    /// at most the median, and from `right` if its near edge is at least the
    /// median.
    fn remove_all(&mut self, value: &Value)
        requires
            old(self).wf(),
        ensures
            final(self).wf(),
            final(self).keeps_frame(*old(self)),
            forall|w: Value| #[trigger] final(self).items().count(w) <= old(self).items().count(w),
            total_order::<Value::Position>() && eq_is_identity::<Value>() ==> {
                &&& final(self).items().count(*value) == 0
                &&& forall|w: Value|
                    w != *value ==> #[trigger] final(self).items().count(w) == old(
                        self,
                    ).items().count(w)
            },
        decreases *old(self),
    {
        let n = near_edge(value, self.vertical);
        if n <= self.median {
            self.left.remove_all_in(value);
        }
        if self.median <= n {
            self.right.remove_all_in(value);
        }
        proof {
            lemma_node_items_count(*old(self));
            lemma_node_items_count(*self);
            lemma_keeps_frame_refl(old(self).left);
            lemma_keeps_frame_refl(old(self).right);
            if total_order::<Value::Position>() && eq_is_identity::<Value>() {
                let o = *old(self);
                let c = near(*value, o.vertical);
                if o.left.items().count(*value) > 0 {
                    assert(pos_le(c, o.median));
                }
                if o.right.items().count(*value) > 0 {
                    assert(pos_le(o.median, c));
                }
            }
        }
    }
}

} // verus!
