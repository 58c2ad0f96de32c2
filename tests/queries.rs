use kdtree::{KdTree, KdValue};

#[derive(Debug, Default, Clone, PartialEq)]
struct TestValue {
    min_x: f32,
    max_x: f32,
    min_y: f32,
    max_y: f32,
}

impl TestValue {
    fn new(min_x: f32, max_x: f32, min_y: f32, max_y: f32) -> Self {
        Self {
            min_x,
            max_x,
            min_y,
            max_y,
        }
    }
}

impl KdValue for TestValue {
    type Position = f32;

    fn spec_min_x(&self) -> f32 {
        self.min_x
    }

    fn spec_max_x(&self) -> f32 {
        self.max_x
    }

    fn spec_min_y(&self) -> f32 {
        self.min_y
    }

    fn spec_max_y(&self) -> f32 {
        self.max_y
    }

    fn min_x(&self) -> Self::Position {
        self.min_x
    }

    fn min_y(&self) -> Self::Position {
        self.min_y
    }

    fn max_x(&self) -> Self::Position {
        self.max_x
    }

    fn max_y(&self) -> Self::Position {
        self.max_y
    }
}

#[derive(Debug, Default, Clone, Copy, PartialEq)]
struct IntBox {
    min_x: i64,
    max_x: i64,
    min_y: i64,
    max_y: i64,
}

impl IntBox {
    fn new(min_x: i64, max_x: i64, min_y: i64, max_y: i64) -> Self {
        Self {
            min_x,
            max_x,
            min_y,
            max_y,
        }
    }
}

impl KdValue for IntBox {
    type Position = i64;

    fn spec_min_x(&self) -> i64 {
        self.min_x
    }

    fn spec_max_x(&self) -> i64 {
        self.max_x
    }

    fn spec_min_y(&self) -> i64 {
        self.min_y
    }

    fn spec_max_y(&self) -> i64 {
        self.max_y
    }

    fn min_x(&self) -> i64 {
        self.min_x
    }

    fn min_y(&self) -> i64 {
        self.min_y
    }

    fn max_x(&self) -> i64 {
        self.max_x
    }

    fn max_y(&self) -> i64 {
        self.max_y
    }
}

fn five_boxes() -> Vec<TestValue> {
    vec![
        TestValue::new(3., 5., 4., 6.),
        TestValue::new(4., 6., 7., 9.),
        TestValue::new(6., 10., 3., 7.),
        TestValue::new(7., 8., 4., 5.),
        TestValue::new(6., 8., 1., 3.),
    ]
}

fn int_boxes() -> Vec<IntBox> {
    let mut boxes = Vec::new();
    for i in 0..40i64 {
        let x = (i * 7) % 23;
        let y = (i * 11) % 19;
        boxes.push(IntBox::new(x, x + (i % 5), y, y + (i % 4)));
    }
    boxes
}

fn point_count<const N: usize>(tree: &KdTree<IntBox, N>, x: i64, y: i64) -> usize {
    tree.query_point(x, y).count()
}

fn brute_point(boxes: &[IntBox], x: i64, y: i64) -> usize {
    boxes
        .iter()
        .filter(|b| b.min_x <= x && x <= b.max_x && b.min_y <= y && y <= b.max_y)
        .count()
}

fn brute_rect(boxes: &[IntBox], x0: i64, x1: i64, y0: i64, y1: i64) -> usize {
    boxes
        .iter()
        .filter(|b| !(b.min_x > x1 || x0 > b.max_x || b.min_y > y1 || y0 > b.max_y))
        .count()
}

#[test]
fn rect() {
    let mut tree = KdTree::<TestValue, 3>::default();
    tree.insert(TestValue::new(3., 5., 4., 6.));
    tree.insert(TestValue::new(4., 6., 7., 9.));
    tree.insert(TestValue::new(6., 10., 3., 7.));
    tree.insert(TestValue::new(7., 8., 4., 5.));
    tree.insert(TestValue::new(6., 8., 1., 3.));
    tree.insert(TestValue::new(3., 5., 4., 6.));
    tree.insert(TestValue::new(4., 6., 7., 9.));
    tree.insert(TestValue::new(6., 10., 3., 7.));
    tree.insert(TestValue::new(7., 8., 4., 5.));
    tree.insert(TestValue::new(6., 8., 1., 3.));
    tree.insert(TestValue::new(3., 5., 4., 6.));
    tree.insert(TestValue::new(4., 6., 7., 9.));
    tree.insert(TestValue::new(6., 10., 3., 7.));
    tree.insert(TestValue::new(7., 8., 4., 5.));
    tree.insert(TestValue::new(6., 8., 1., 3.));
    assert_eq!(tree.query_rect(5.5, 7.5, 3.5, 7.5).count(), 9);
}

#[test]
fn point() {
    let mut tree = KdTree::<TestValue, 4>::default();
    tree.insert(TestValue::new(3., 5., 4., 6.));
    tree.insert(TestValue::new(4., 6., 7., 9.));
    tree.insert(TestValue::new(6., 10., 3., 7.));
    tree.insert(TestValue::new(7., 8., 4., 5.));
    tree.insert(TestValue::new(6., 8., 1., 3.));
    tree.insert(TestValue::new(3., 5., 4., 6.));
    tree.insert(TestValue::new(4., 6., 7., 9.));
    tree.insert(TestValue::new(6., 10., 3., 7.));
    tree.insert(TestValue::new(7., 8., 4., 5.));
    tree.insert(TestValue::new(6., 8., 1., 3.));
    tree.insert(TestValue::new(3., 5., 4., 6.));
    tree.insert(TestValue::new(4., 6., 7., 9.));
    tree.insert(TestValue::new(6., 10., 3., 7.));
    tree.insert(TestValue::new(7., 8., 4., 5.));
    tree.insert(TestValue::new(6., 8., 1., 3.));
    assert_eq!(tree.query_point(7.5, 4.5).count(), 6);
}

#[test]
fn point_query_yields_the_matching_values() {
    let mut tree = KdTree::<TestValue, 4>::default();
    for _ in 0..3 {
        for b in five_boxes() {
            tree.insert(b);
        }
    }
    let mut q = tree.query_point(7.5, 4.5);
    let mut got = Vec::new();
    while let Some(v) = q.next() {
        got.push(v.clone());
    }
    assert_eq!(got.len(), 6);
    let a = TestValue::new(6., 10., 3., 7.);
    let b = TestValue::new(7., 8., 4., 5.);
    assert_eq!(got.iter().filter(|v| **v == a).count(), 3);
    assert_eq!(got.iter().filter(|v| **v == b).count(), 3);
    assert!(q.next().is_none());
}

#[test]
fn empty_tree_yields_nothing() {
    let tree = KdTree::<TestValue, 3>::default();
    assert_eq!(tree.query_point(0., 0.).count(), 0);
    assert_eq!(tree.query_rect(-10., 10., -10., 10.).count(), 0);
    let mut q = tree.query_point(1., 1.);
    assert!(q.next().is_none());
}

#[test]
fn edges_count_as_contained() {
    let mut tree = KdTree::<IntBox, 2>::default();
    tree.insert(IntBox::new(0, 2, 0, 2));
    assert_eq!(tree.query_point(2, 2).count(), 1);
    assert_eq!(tree.query_point(0, 0).count(), 1);
    assert_eq!(tree.query_point(3, 2).count(), 0);
    assert_eq!(tree.query_rect(2, 5, 2, 5).count(), 1);
    assert_eq!(tree.query_rect(3, 5, 0, 5).count(), 0);
}

#[test]
fn point_queries_match_a_scan() {
    let boxes = int_boxes();
    let mut tree = KdTree::<IntBox, 3>::default();
    for b in &boxes {
        tree.insert(*b);
    }
    for x in -1..30 {
        for y in -1..25 {
            assert_eq!(point_count(&tree, x, y), brute_point(&boxes, x, y));
        }
    }
}

#[test]
fn rect_queries_match_a_scan() {
    let boxes = int_boxes();
    let mut tree = KdTree::<IntBox, 5>::default();
    for b in &boxes {
        tree.insert(*b);
    }
    for x0 in (-2..28).step_by(3) {
        for y0 in (-2..22).step_by(3) {
            let (x1, y1) = (x0 + 4, y0 + 2);
            assert_eq!(
                tree.query_rect(x0, x1, y0, y1).count(),
                brute_rect(&boxes, x0, x1, y0, y1)
            );
        }
    }
}

#[test]
fn results_do_not_depend_on_insertion_order() {
    let boxes = int_boxes();
    let mut forward = KdTree::<IntBox, 4>::default();
    let mut backward = KdTree::<IntBox, 4>::default();
    for b in &boxes {
        forward.insert(*b);
    }
    for b in boxes.iter().rev() {
        backward.insert(*b);
    }
    for x in 0..25 {
        for y in 0..20 {
            assert_eq!(point_count(&forward, x, y), point_count(&backward, x, y));
        }
    }
}

#[test]
fn repeated_queries_agree() {
    let mut tree = KdTree::<TestValue, 3>::default();
    for _ in 0..3 {
        for b in five_boxes() {
            tree.insert(b);
        }
    }
    let first = tree.query_rect(5.5, 7.5, 3.5, 7.5).count();
    let second = tree.query_rect(5.5, 7.5, 3.5, 7.5).count();
    assert_eq!(first, 9);
    assert_eq!(first, second);
    assert_eq!(tree.query_point(7.5, 4.5).count(), tree.query_point(7.5, 4.5).count());
}

#[test]
fn remove_one_takes_one_copy() {
    let mut tree = KdTree::<IntBox, 8>::default();
    let v = IntBox::new(5, 6, 5, 6);
    tree.insert(IntBox::new(0, 1, 0, 1));
    tree.insert(v);
    tree.insert(v);
    tree.insert(IntBox::new(8, 9, 8, 9));
    assert_eq!(tree.query_point(5, 5).count(), 2);
    assert!(tree.remove_one(v));
    assert_eq!(tree.query_point(5, 5).count(), 1);
    assert!(tree.remove_one(v));
    assert_eq!(tree.query_point(5, 5).count(), 0);
    assert!(!tree.remove_one(v));
    assert_eq!(tree.query_point(0, 0).count(), 1);
    assert_eq!(tree.query_point(9, 9).count(), 1);
}

#[test]
fn remove_one_after_splits() {
    let mut tree = KdTree::<IntBox, 3>::default();
    for i in 0..12i64 {
        tree.insert(IntBox::new(i * 3, i * 3 + 1, 20 - i, 21 - i));
    }
    let v = IntBox::new(15, 16, 15, 16);
    assert_eq!(tree.query_point(15, 15).count(), 1);
    assert!(tree.remove_one(v));
    assert_eq!(tree.query_point(15, 15).count(), 0);
    assert!(!tree.remove_one(v));
    assert_eq!(tree.query_rect(-100, 100, -100, 100).count(), 11);
}

#[test]
fn remove_one_finds_copies_left_of_an_equal_median() {
    // The first split sorts (0), (5), (5) by min_x and takes 5 as median;
    // a later split of the right leaf by min_y leaves one copy of v to the
    // left of an equal median. Removal searches both sides of such a median.
    let mut tree = KdTree::<IntBox, 3>::default();
    let v = IntBox::new(5, 6, 5, 6);
    tree.insert(IntBox::new(0, 1, 0, 1));
    tree.insert(v);
    tree.insert(v);
    tree.insert(IntBox::new(8, 9, 8, 9));
    assert!(tree.remove_one(v));
    assert_eq!(tree.query_point(5, 5).count(), 1);
    assert!(tree.remove_one(v));
    assert_eq!(tree.query_point(5, 5).count(), 0);
    assert!(!tree.remove_one(v));
    assert_eq!(tree.query_rect(-10, 20, -10, 20).count(), 2);
}

#[test]
fn remove_all_finds_copies_on_both_sides_of_a_median() {
    let mut tree = KdTree::<IntBox, 3>::default();
    let v = IntBox::new(5, 6, 5, 6);
    tree.insert(IntBox::new(0, 1, 0, 1));
    tree.insert(v);
    tree.insert(v);
    tree.insert(IntBox::new(8, 9, 8, 9));
    tree.insert(v);
    assert_eq!(tree.query_point(5, 5).count(), 3);
    tree.remove_all(v);
    assert_eq!(tree.query_point(5, 5).count(), 0);
    assert_eq!(tree.query_rect(-10, 20, -10, 20).count(), 2);
    tree.remove_all(v);
    assert_eq!(tree.query_rect(-10, 20, -10, 20).count(), 2);
}

#[test]
fn insert_then_remove_one_restores_the_values() {
    let mut tree = KdTree::<IntBox, 3>::default();
    for b in int_boxes() {
        tree.insert(b);
    }
    for b in int_boxes() {
        tree.insert(b);
        assert!(tree.remove_one(b));
    }
    for b in int_boxes() {
        assert!(tree.remove_one(b));
    }
    assert_eq!(tree.query_rect(-100, 200, -100, 200).count(), 0);
}

#[test]
fn remove_one_of_an_absent_value_is_false() {
    let mut tree = KdTree::<IntBox, 3>::default();
    for b in int_boxes() {
        tree.insert(b);
    }
    assert!(!tree.remove_one(IntBox::new(100, 101, 100, 101)));
    assert_eq!(tree.query_rect(-100, 200, -100, 200).count(), 40);
}

#[test]
fn remove_all_takes_every_copy() {
    let mut tree = KdTree::<IntBox, 6>::default();
    let v = IntBox::new(5, 6, 5, 6);
    tree.insert(IntBox::new(0, 1, 0, 1));
    tree.insert(v);
    tree.insert(v);
    tree.insert(v);
    tree.insert(IntBox::new(8, 9, 8, 9));
    assert_eq!(tree.query_point(5, 6).count(), 3);
    tree.remove_all(v);
    assert_eq!(tree.query_point(5, 6).count(), 0);
    assert_eq!(tree.query_rect(-100, 200, -100, 200).count(), 2);
}

#[test]
fn remove_all_in_one_leaf() {
    let mut tree = KdTree::<IntBox, 8>::default();
    let v = IntBox::new(1, 2, 1, 2);
    tree.insert(v);
    tree.insert(IntBox::new(3, 4, 3, 4));
    tree.insert(v);
    tree.remove_all(v);
    assert_eq!(tree.query_rect(0, 10, 0, 10).count(), 1);
    assert!(!tree.remove_one(v));
}

#[test]
fn straddling_boxes_are_found() {
    let mut tree = KdTree::<IntBox, 2>::default();
    tree.insert(IntBox::new(0, 100, 0, 1));
    tree.insert(IntBox::new(50, 51, 0, 1));
    tree.insert(IntBox::new(60, 61, 0, 1));
    assert_eq!(tree.query_point(90, 0).count(), 1);
    assert_eq!(tree.query_point(60, 1).count(), 2);
    assert_eq!(tree.query_rect(95, 99, 0, 0).count(), 1);
}

#[test]
fn incomparable_positions_do_not_panic() {
    let mut tree = KdTree::<TestValue, 3>::default();
    for i in 0..10 {
        let x = if i % 3 == 0 { f32::NAN } else { i as f32 };
        tree.insert(TestValue::new(x, x + 1., 0., 1.));
    }
    tree.insert(TestValue::new(4., 5., 0., 1.));
    // With NaN edges the order is not total: queries stay finite and safe,
    // though they may miss boxes.
    assert!(tree.query_rect(4.5, 4.5, 0., 1.).count() <= 11);
    assert!(tree.query_point(f32::NAN, 0.5).count() <= 11);
    tree.remove_all(TestValue::new(4., 5., 0., 1.));
}

#[test]
fn remove_all_of_an_absent_value_changes_nothing() {
    let mut tree = KdTree::<IntBox, 3>::default();
    for b in int_boxes() {
        tree.insert(b);
    }
    tree.remove_all(IntBox::new(100, 101, 100, 101));
    assert_eq!(tree.query_rect(-100, 200, -100, 200).count(), 40);
}
