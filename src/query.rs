use vstd::prelude::*;

use crate::laws::{lemma_point_query_exact, lemma_rect_query_exact};
use crate::tree::KdTree;
use crate::value::{contains_point, overlaps_rect, pos_gt, pos_le, total_order, KdValue};
use vstd::multiset::Multiset;
use vstd::std_specs::cmp::PartialOrdSpec;

verus! {

/// The values of `s` that satisfy `pred`, with their multiplicities.
pub open spec fn matching<V>(s: Seq<V>, pred: spec_fn(V) -> bool) -> Multiset<V>
    decreases s.len(),
{
    if s.len() == 0 {
        Multiset::empty()
    } else {
        let rest = matching(s.drop_last(), pred);
        if pred(s.last()) {
            rest.insert(s.last())
        } else {
            rest
        }
    }
}

/// What a point query on `t` yields: the values that contain `(x, y)` in
/// the leaves that the descent reaches, where a split node is entered on the
/// left when the coordinate along its axis is at most `left_max`, and on the
/// right when it is at least `median`.
pub open spec fn point_hits<V: KdValue, const N: usize>(
    t: KdTree<V, N>,
    x: V::Position,
    y: V::Position,
) -> Multiset<V>
    decreases t,
{
    match t {
        KdTree::Leaf(vals) => matching(vals@, |v: V| contains_point(v, x, y)),
        KdTree::Node(node) => {
            let c = if node.vertical {
                y
            } else {
                x
            };
            let l = if pos_le(c, node.left_max) {
                point_hits(node.left, x, y)
            } else {
                Multiset::empty()
            };
            let r = if pos_le(node.median, c) {
                point_hits(node.right, x, y)
            } else {
                Multiset::empty()
            };
            l.add(r)
        },
    }
}

/// What a rectangle query on `t` yields: the values that overlap the
/// rectangle in the leaves that the descent reaches, where a split node is
/// entered on the left when the rectangle's near edge along its axis is at
/// most `left_max`, and on the right when its far edge is at least `median`.
pub open spec fn rect_hits<V: KdValue, const N: usize>(
    t: KdTree<V, N>,
    min_x: V::Position,
    max_x: V::Position,
    min_y: V::Position,
    max_y: V::Position,
) -> Multiset<V>
    decreases t,
{
    match t {
        KdTree::Leaf(vals) => matching(
            vals@,
            |v: V| overlaps_rect(v, min_x, max_x, min_y, max_y),
        ),
        KdTree::Node(node) => {
            let lo = if node.vertical {
                min_y
            } else {
                min_x
            };
            let hi = if node.vertical {
                max_y
            } else {
                max_x
            };
            let l = if pos_le(lo, node.left_max) {
                rect_hits(node.left, min_x, max_x, min_y, max_y)
            } else {
                Multiset::empty()
            };
            let r = if pos_le(node.median, hi) {
                rect_hits(node.right, min_x, max_x, min_y, max_y)
            } else {
                Multiset::empty()
            };
            l.add(r)
        },
    }
}

/// Nodes plus stored values of a tree: a bound on the work a query has left.
pub open spec fn tree_size<V: KdValue, const N: usize>(t: KdTree<V, N>) -> nat
    decreases t,
{
    match t {
        KdTree::Leaf(vals) => (1 + vals.len()) as nat,
        KdTree::Node(node) => 1 + tree_size(node.left) + tree_size(node.right),
    }
}

pub open spec fn queue_size<V: KdValue, const N: usize>(q: Seq<&KdTree<V, N>>) -> nat
    decreases q.len(),
{
    if q.len() == 0 {
        0
    } else {
        queue_size(q.drop_last()) + tree_size(*q.last())
    }
}

/// The values behind a sequence of references, with their multiplicities.
pub open spec fn staged<V>(s: Seq<&V>) -> Multiset<V>
    decreases s.len(),
{
    if s.len() == 0 {
        Multiset::empty()
    } else {
        staged(s.drop_last()).insert(*s.last())
    }
}

pub open spec fn queue_point_hits<V: KdValue, const N: usize>(
    q: Seq<&KdTree<V, N>>,
    x: V::Position,
    y: V::Position,
) -> Multiset<V>
    decreases q.len(),
{
    if q.len() == 0 {
        Multiset::empty()
    } else {
        queue_point_hits(q.drop_last(), x, y).add(point_hits(*q.last(), x, y))
    }
}

pub open spec fn queue_rect_hits<V: KdValue, const N: usize>(
    q: Seq<&KdTree<V, N>>,
    min_x: V::Position,
    max_x: V::Position,
    min_y: V::Position,
    max_y: V::Position,
) -> Multiset<V>
    decreases q.len(),
{
    if q.len() == 0 {
        Multiset::empty()
    } else {
        queue_rect_hits(q.drop_last(), min_x, max_x, min_y, max_y).add(
            rect_hits(*q.last(), min_x, max_x, min_y, max_y),
        )
    }
}

/// A lazy point query: it walks the tree with an explicit stack of subtrees
/// and hands out one matching value per call of `next`.
pub struct PointQuery<'a, Value: KdValue, const ISLAND_SIZE: usize> {
    x: Value::Position,
    y: Value::Position,
    queue: Vec<&'a KdTree<Value, ISLAND_SIZE>>,
    items_to_yield: Vec<&'a Value>,
}

impl<'a, Value: KdValue, const ISLAND_SIZE: usize> PointQuery<'a, Value, ISLAND_SIZE> {
    /// The values that the query has still to yield, with their multiplicities.
    pub closed spec fn remaining(&self) -> Multiset<Value> {
        staged(self.items_to_yield@).add(queue_point_hits(self.queue@, self.x, self.y))
    }

    /// A bound on the calls of `next` that can still return a value.
    pub closed spec fn work_left(&self) -> nat {
        (self.items_to_yield.len() + queue_size(self.queue@)) as nat
    }

    pub fn new(tree: &'a KdTree<Value, ISLAND_SIZE>, x: Value::Position, y: Value::Position) -> (r:
        Self)
        ensures
            r.remaining() == point_hits(*tree, x, y),
    {
        let r = PointQuery { queue: vec![tree], items_to_yield: Vec::new(), x, y };
        proof {
            assert(r.queue@.drop_last() =~= Seq::<&KdTree<Value, ISLAND_SIZE>>::empty());
            assert(queue_point_hits(r.queue@.drop_last(), x, y) == Multiset::<Value>::empty());
            assert(staged(r.items_to_yield@) == Multiset::<Value>::empty());
            assert(r.remaining() =~= point_hits(*tree, x, y));
        }
        r
    }

    /// Yields the next value whose box contains the point, or `None` once
    /// all have been yielded.
    pub fn next(&mut self) -> (r: Option<&'a Value>)
        ensures
            r is Some ==> final(self).work_left() < old(self).work_left(),
            r is None ==> final(self).work_left() == 0,
            Value::Position::obeys_partial_cmp_spec() ==> match r {
                Some(v) => {
                    &&& old(self).remaining().count(*v) > 0
                    &&& final(self).remaining() =~= old(self).remaining().remove(*v)
                },
                None => {
                    &&& old(self).remaining() =~= Multiset::empty()
                    &&& final(self).remaining() =~= Multiset::empty()
                },
            },
    {
        let ghost s0 = self.items_to_yield@;
        match self.items_to_yield.pop() {
            Some(item) => {
                proof {
                    lemma_staged_pop(s0);
                }
                return Some(item);
            },
            None => {},
        }
        loop
            invariant
                self.items_to_yield@.len() == 0,
                self.x == old(self).x,
                self.y == old(self).y,
                self.work_left() <= old(self).work_left(),
                Value::Position::obeys_partial_cmp_spec() ==> self.remaining() =~= old(
                    self,
                ).remaining(),
            decreases queue_size(self.queue@),
        {
            let ghost q0 = self.queue@;
            let tree = match self.queue.pop() {
                None => {
                    return None;
                },
                Some(tree) => tree,
            };
            proof {
                assert(self.queue@ == q0.drop_last());
                assert(queue_size(q0) == queue_size(q0.drop_last()) + tree_size(*tree));
                lemma_tree_size_pos(*tree);
            }
            match tree {
                KdTree::Leaf(leaves) => {
                    let mut i: usize = 0;
                    while i < leaves.len()
                        invariant
                            i <= leaves.len(),
                            self.queue@ == q0.drop_last(),
                            self.x == old(self).x,
                            self.y == old(self).y,
                            self.items_to_yield@.len() <= i,
                            Value::Position::obeys_partial_cmp_spec() ==> staged(
                                self.items_to_yield@,
                            ) =~= matching(
                                leaves@.subrange(0, i as int),
                                |v: Value| contains_point(v, self.x, self.y),
                            ),
                        decreases leaves.len() - i,
                    {
                        let leaf = &leaves[i];
                        let ghost s1 = self.items_to_yield@;
                        proof {
                            assert(leaves@.subrange(0, i + 1).drop_last() =~= leaves@.subrange(
                                0,
                                i as int,
                            ));
                        }
                        if leaf.min_x() <= self.x && self.x <= leaf.max_x() && leaf.min_y()
                            <= self.y && self.y <= leaf.max_y() {
                            self.items_to_yield.push(leaf);
                            proof {
                                assert(self.items_to_yield@.drop_last() == s1);
                            }
                        }
                        i = i + 1;
                    }
                    proof {
                        assert(leaves@.subrange(0, leaves.len() as int) =~= leaves@);
                    }
                    let ghost s2 = self.items_to_yield@;
                    match self.items_to_yield.pop() {
                        Some(item) => {
                            proof {
                                lemma_staged_pop(s2);
                            }
                            return Some(item);
                        },
                        None => {},
                    }
                },
                KdTree::Node(node) => {
                    let c = if node.vertical {
                        &self.y
                    } else {
                        &self.x
                    };
                    let go_left = *c <= node.left_max;
                    if go_left {
                        self.queue.push(&node.left);
                    }
                    let go_right = node.median <= *c;
                    if go_right {
                        self.queue.push(&node.right);
                    }
                    proof {
                        let q1 = q0.drop_last();
                        lemma_queue_push(q1, &node.left);
                        lemma_queue_push(q1, &node.right);
                        lemma_queue_push(q1.push(&node.left), &node.right);
                        let x = self.x;
                        let y = self.y;
                        assert(queue_point_hits(q0, x, y) == queue_point_hits(q1, x, y).add(
                            point_hits(*tree, x, y),
                        ));
                        if Value::Position::obeys_partial_cmp_spec() {
                            let l = if go_left {
                                point_hits(node.left, x, y)
                            } else {
                                Multiset::empty()
                            };
                            let r = if go_right {
                                point_hits(node.right, x, y)
                            } else {
                                Multiset::empty()
                            };
                            assert(point_hits(*tree, x, y) == l.add(r));
                            assert(queue_point_hits(q1.push(&node.left), x, y) == queue_point_hits(
                                q1,
                                x,
                                y,
                            ).add(point_hits(node.left, x, y)));
                            assert(queue_point_hits(q1.push(&node.right), x, y)
                                == queue_point_hits(q1, x, y).add(point_hits(node.right, x, y)));
                            assert(queue_point_hits(q1.push(&node.left).push(&node.right), x, y)
                                == queue_point_hits(q1.push(&node.left), x, y).add(
                                point_hits(node.right, x, y),
                            ));
                            assert(staged(self.items_to_yield@) == Multiset::<Value>::empty());
                            assert(queue_point_hits(self.queue@, x, y) =~= queue_point_hits(
                                q1,
                                x,
                                y,
                            ).add(l).add(r));
                        }
                        assert(tree_size(*tree) == 1 + tree_size(node.left) + tree_size(
                            node.right,
                        ));
                        assert(queue_size(q1.push(&node.left)) == queue_size(q1) + tree_size(
                            node.left,
                        ));
                        assert(queue_size(q1.push(&node.right)) == queue_size(q1) + tree_size(
                            node.right,
                        ));
                        assert(queue_size(q1.push(&node.left).push(&node.right)) == queue_size(
                            q1.push(&node.left),
                        ) + tree_size(node.right));
                    }
                },
            }
        }
    }

    /// Pulls every remaining value and says how many there were (at most
    /// `usize::MAX`).
    pub fn count(self) -> (r: usize)
        ensures
            Value::Position::obeys_partial_cmp_spec() && self.remaining().len() <= usize::MAX ==> r
                == self.remaining().len(),
    {
        let mut q = self;
        let mut n: usize = 0;
        loop
            invariant
                Value::Position::obeys_partial_cmp_spec() && self.remaining().len() <= usize::MAX
                    ==> n + q.remaining().len() == self.remaining().len(),
            decreases q.work_left(),
        {
            let ghost before = q.remaining();
            match q.next() {
                Some(v) => {
                    proof {
                        if Value::Position::obeys_partial_cmp_spec() {
                            lemma_remove_len(before, *v);
                        }
                    }
                    if n < usize::MAX {
                        n = n + 1;
                    }
                },
                None => {
                    return n;
                },
            }
        }
    }
}

/// A lazy rectangle query: it walks the tree with an explicit stack of subtrees
/// and hands out one matching value per call of `next`.
pub struct RectQuery<'a, Value: KdValue, const ISLAND_SIZE: usize> {
    max_x: Value::Position,
    min_x: Value::Position,
    max_y: Value::Position,
    min_y: Value::Position,
    queue: Vec<&'a KdTree<Value, ISLAND_SIZE>>,
    items_to_yield: Vec<&'a Value>,
}

impl<'a, Value: KdValue, const ISLAND_SIZE: usize> RectQuery<'a, Value, ISLAND_SIZE> {
    /// The values that the query has still to yield, with their multiplicities.
    pub closed spec fn remaining(&self) -> Multiset<Value> {
        staged(self.items_to_yield@).add(queue_rect_hits(self.queue@, self.min_x, self.max_x, self.min_y, self.max_y))
    }

    /// A bound on the calls of `next` that can still return a value.
    pub closed spec fn work_left(&self) -> nat {
        (self.items_to_yield.len() + queue_size(self.queue@)) as nat
    }

    pub fn new(
        tree: &'a KdTree<Value, ISLAND_SIZE>,
        min_x: Value::Position,
        max_x: Value::Position,
        min_y: Value::Position,
        max_y: Value::Position,
    ) -> (r: Self)
        ensures
            r.remaining() == rect_hits(*tree, min_x, max_x, min_y, max_y),
    {
        let r = RectQuery { queue: vec![tree], items_to_yield: Vec::new(), min_x, max_x, min_y, max_y };
        proof {
            assert(r.queue@.drop_last() =~= Seq::<&KdTree<Value, ISLAND_SIZE>>::empty());
            assert(queue_rect_hits(r.queue@.drop_last(), min_x, max_x, min_y, max_y)
                == Multiset::<Value>::empty());
            assert(staged(r.items_to_yield@) == Multiset::<Value>::empty());
            assert(r.remaining() =~= rect_hits(*tree, min_x, max_x, min_y, max_y));
        }
        r
    }

    /// Yields the next value whose box overlaps the rectangle, or `None` once
    /// all have been yielded.
    pub fn next(&mut self) -> (r: Option<&'a Value>)
        ensures
            r is Some ==> final(self).work_left() < old(self).work_left(),
            r is None ==> final(self).work_left() == 0,
            Value::Position::obeys_partial_cmp_spec() ==> match r {
                Some(v) => {
                    &&& old(self).remaining().count(*v) > 0
                    &&& final(self).remaining() =~= old(self).remaining().remove(*v)
                },
                None => {
                    &&& old(self).remaining() =~= Multiset::empty()
                    &&& final(self).remaining() =~= Multiset::empty()
                },
            },
    {
        let ghost s0 = self.items_to_yield@;
        match self.items_to_yield.pop() {
            Some(item) => {
                proof {
                    lemma_staged_pop(s0);
                }
                return Some(item);
            },
            None => {},
        }
        loop
            invariant
                self.items_to_yield@.len() == 0,
                self.min_x == old(self).min_x,
                self.max_x == old(self).max_x,
                self.min_y == old(self).min_y,
                self.max_y == old(self).max_y,
                self.work_left() <= old(self).work_left(),
                Value::Position::obeys_partial_cmp_spec() ==> self.remaining() =~= old(
                    self,
                ).remaining(),
            decreases queue_size(self.queue@),
        {
            let ghost q0 = self.queue@;
            let tree = match self.queue.pop() {
                None => {
                    return None;
                },
                Some(tree) => tree,
            };
            proof {
                assert(self.queue@ == q0.drop_last());
                assert(queue_size(q0) == queue_size(q0.drop_last()) + tree_size(*tree));
                lemma_tree_size_pos(*tree);
            }
            match tree {
                KdTree::Leaf(leaves) => {
                    let mut i: usize = 0;
                    while i < leaves.len()
                        invariant
                            i <= leaves.len(),
                            self.queue@ == q0.drop_last(),
                            self.min_x == old(self).min_x,
                            self.max_x == old(self).max_x,
                            self.min_y == old(self).min_y,
                            self.max_y == old(self).max_y,
                            self.items_to_yield@.len() <= i,
                            Value::Position::obeys_partial_cmp_spec() ==> staged(
                                self.items_to_yield@,
                            ) =~= matching(
                                leaves@.subrange(0, i as int),
                                |v: Value|
                                    overlaps_rect(v, self.min_x, self.max_x, self.min_y, self.max_y),
                            ),
                        decreases leaves.len() - i,
                    {
                        let leaf = &leaves[i];
                        let ghost s1 = self.items_to_yield@;
                        proof {
                            assert(leaves@.subrange(0, i + 1).drop_last() =~= leaves@.subrange(
                                0,
                                i as int,
                            ));
                        }
                        if !(leaf.min_x() > self.max_x || self.min_x > leaf.max_x() || leaf.min_y()
                            > self.max_y || self.min_y > leaf.max_y()) {
                            self.items_to_yield.push(leaf);
                            proof {
                                assert(self.items_to_yield@.drop_last() == s1);
                            }
                        }
                        i = i + 1;
                    }
                    proof {
                        assert(leaves@.subrange(0, leaves.len() as int) =~= leaves@);
                    }
                    let ghost s2 = self.items_to_yield@;
                    match self.items_to_yield.pop() {
                        Some(item) => {
                            proof {
                                lemma_staged_pop(s2);
                            }
                            return Some(item);
                        },
                        None => {},
                    }
                },
                KdTree::Node(node) => {
                    let (lo, hi) = if node.vertical {
                        (&self.min_y, &self.max_y)
                    } else {
                        (&self.min_x, &self.max_x)
                    };
                    let go_left = *lo <= node.left_max;
                    if go_left {
                        self.queue.push(&node.left);
                    }
                    let go_right = node.median <= *hi;
                    if go_right {
                        self.queue.push(&node.right);
                    }
                    proof {
                        let q1 = q0.drop_last();
                        lemma_queue_push(q1, &node.left);
                        lemma_queue_push(q1, &node.right);
                        lemma_queue_push(q1.push(&node.left), &node.right);
                        let (x0, x1, y0, y1) = (self.min_x, self.max_x, self.min_y, self.max_y);
                        assert(queue_rect_hits(q0, x0, x1, y0, y1) == queue_rect_hits(
                            q1,
                            x0,
                            x1,
                            y0,
                            y1,
                        ).add(rect_hits(*tree, x0, x1, y0, y1)));
                        if Value::Position::obeys_partial_cmp_spec() {
                            let l = if go_left {
                                rect_hits(node.left, x0, x1, y0, y1)
                            } else {
                                Multiset::empty()
                            };
                            let r = if go_right {
                                rect_hits(node.right, x0, x1, y0, y1)
                            } else {
                                Multiset::empty()
                            };
                            assert(rect_hits(*tree, x0, x1, y0, y1) == l.add(r));
                            assert(queue_rect_hits(q1.push(&node.left), x0, x1, y0, y1)
                                == queue_rect_hits(q1, x0, x1, y0, y1).add(
                                rect_hits(node.left, x0, x1, y0, y1),
                            ));
                            assert(queue_rect_hits(q1.push(&node.right), x0, x1, y0, y1)
                                == queue_rect_hits(q1, x0, x1, y0, y1).add(rect_hits(node.right, x0, x1, y0, y1)));
                            assert(queue_rect_hits(q1.push(&node.left).push(&node.right), x0, x1, y0, y1)
                                == queue_rect_hits(q1.push(&node.left), x0, x1, y0, y1).add(
                                rect_hits(node.right, x0, x1, y0, y1),
                            ));
                            assert(staged(self.items_to_yield@) == Multiset::<Value>::empty());
                            assert(queue_rect_hits(self.queue@, x0, x1, y0, y1)
                                =~= queue_rect_hits(q1, x0, x1, y0, y1).add(l).add(r));
                        }
                        assert(tree_size(*tree) == 1 + tree_size(node.left) + tree_size(
                            node.right,
                        ));
                        assert(queue_size(q1.push(&node.left)) == queue_size(q1) + tree_size(
                            node.left,
                        ));
                        assert(queue_size(q1.push(&node.right)) == queue_size(q1) + tree_size(
                            node.right,
                        ));
                        assert(queue_size(q1.push(&node.left).push(&node.right)) == queue_size(
                            q1.push(&node.left),
                        ) + tree_size(node.right));
                    }
                },
            }
        }
    }

    /// Pulls every remaining value and says how many there were (at most
    /// `usize::MAX`).
    pub fn count(self) -> (r: usize)
        ensures
            Value::Position::obeys_partial_cmp_spec() && self.remaining().len() <= usize::MAX ==> r
                == self.remaining().len(),
    {
        let mut q = self;
        let mut n: usize = 0;
        loop
            invariant
                Value::Position::obeys_partial_cmp_spec() && self.remaining().len() <= usize::MAX
                    ==> n + q.remaining().len() == self.remaining().len(),
            decreases q.work_left(),
        {
            let ghost before = q.remaining();
            match q.next() {
                Some(v) => {
                    proof {
                        if Value::Position::obeys_partial_cmp_spec() {
                            lemma_remove_len(before, *v);
                        }
                    }
                    if n < usize::MAX {
                        n = n + 1;
                    }
                },
                None => {
                    return n;
                },
            }
        }
    }
}

proof fn lemma_remove_len<V>(m: Multiset<V>, v: V)
    requires
        m.count(v) > 0,
    ensures
        m.remove(v).len() + 1 == m.len(),
{
    assert(Multiset::singleton(v).subset_of(m));
}

proof fn lemma_staged_pop<V>(s: Seq<&V>)
    requires
        s.len() > 0,
    ensures
        staged(s).count(*s.last()) > 0,
        staged(s.drop_last()) =~= staged(s).remove(*s.last()),
{
}

proof fn lemma_tree_size_pos<V: KdValue, const N: usize>(t: KdTree<V, N>)
    ensures
        tree_size(t) >= 1,
        t matches KdTree::Leaf(vals) ==> tree_size(t) == 1 + vals.len(),
{
}

proof fn lemma_queue_push<V: KdValue, const N: usize>(q: Seq<&KdTree<V, N>>, t: &KdTree<V, N>)
    ensures
        q.push(t).drop_last() == q,
        q.push(t).last() == t,
{
    assert(q.push(t).drop_last() =~= q);
}

impl<Value: KdValue, const ISLAND_SIZE: usize> KdTree<Value, ISLAND_SIZE> {
    /// A lazy query for the stored values whose box contains `(x, y)`.
    pub fn query_point<'a>(&'a self, x: Value::Position, y: Value::Position) -> (r: PointQuery<
        'a,
        Value,
        ISLAND_SIZE,
    >)
        ensures
            r.remaining() == point_hits(*self, x, y),
            self.wf() && total_order::<Value::Position>() ==> forall|v: Value| #[trigger]
                r.remaining().count(v) == if contains_point(v, x, y) {
                    self.items().count(v)
                } else {
                    0
                },
    {
        let r = PointQuery::new(self, x, y);
        proof {
            if self.wf() && total_order::<Value::Position>() {
                assert forall|v: Value| #[trigger]
                    r.remaining().count(v) == if contains_point(v, x, y) {
                        self.items().count(v)
                    } else {
                        0
                    } by {
                    lemma_point_query_exact(*self, x, y, v);
                }
            }
        }
        r
    }

    /// A lazy query for the stored values whose box overlaps the rectangle.
    pub fn query_rect<'a>(
        &'a self,
        min_x: Value::Position,
        max_x: Value::Position,
        min_y: Value::Position,
        max_y: Value::Position,
    ) -> (r: RectQuery<'a, Value, ISLAND_SIZE>)
        ensures
            r.remaining() == rect_hits(*self, min_x, max_x, min_y, max_y),
            self.wf() && total_order::<Value::Position>() ==> forall|v: Value| #[trigger]
                r.remaining().count(v) == if overlaps_rect(v, min_x, max_x, min_y, max_y) {
                    self.items().count(v)
                } else {
                    0
                },
    {
        let r = RectQuery::new(self, min_x, max_x, min_y, max_y);
        proof {
            if self.wf() && total_order::<Value::Position>() {
                assert forall|v: Value| #[trigger]
                    r.remaining().count(v) == if overlaps_rect(v, min_x, max_x, min_y, max_y) {
                        self.items().count(v)
                    } else {
                        0
                    } by {
                    lemma_rect_query_exact(*self, min_x, max_x, min_y, max_y, v);
                }
            }
        }
        r
    }
}

} // verus!
