use bst::{Bst, BstIterator, Node};

fn collect<T>(mut it: BstIterator<'_, T>) -> Vec<T>
where
    T: Copy + PartialEq + PartialOrd + Eq,
{
    let mut out = Vec::new();
    while let Some(v) = it.next() {
        out.push(v);
    }
    out
}

fn build(first: i32, rest: &[i32]) -> Bst<i32> {
    let mut bst = Bst::new(first);
    for v in rest {
        bst.insert(*v);
    }
    bst
}

#[test]
fn first() {
    let bst = Bst::new(10);
    assert_eq!(bst.head().unwrap(), 10);
}

#[test]
fn second() {
    let mut bst = Bst::new(10);
    bst.insert(5);
    bst.insert(15);
    bst.insert(20);
    bst.insert(13);
    let mut iterator = bst.iter();
    assert_eq!(Some(5), iterator.next());
    assert_eq!(Some(10), iterator.next());
    assert_eq!(Some(13), iterator.next());
    assert_eq!(Some(15), iterator.next());
    assert_eq!(Some(20), iterator.next());
    assert_eq!(None, iterator.next());
}

#[test]
fn left_skewed_tree() {
    let mut bst = Bst::new(20);
    bst.insert(15);
    bst.insert(10);
    bst.insert(5);
    bst.insert(0);
    bst.insert(-1);
    let mut iterator = bst.iter();
    assert_eq!(Some(-1), iterator.next());
    assert_eq!(Some(0), iterator.next());
    assert_eq!(Some(5), iterator.next());
    assert_eq!(Some(10), iterator.next());
    assert_eq!(Some(15), iterator.next());
    assert_eq!(Some(20), iterator.next());
    assert_eq!(None, iterator.next());
}

#[test]
fn single_value_tree() {
    let bst = Bst::new(10);
    assert_eq!(bst.head(), Some(10));
    assert_eq!(collect(bst.iter()), vec![10]);
}

#[test]
fn right_skewed_tree() {
    let bst = build(1, &[2, 3, 4]);
    assert_eq!(collect(bst.iter()), vec![1, 2, 3, 4]);
}

#[test]
fn equal_values_go_left() {
    let bst = build(10, &[10, 5]);
    assert_eq!(collect(bst.iter()), vec![5, 10, 10]);
    assert_eq!(bst.head(), Some(10));
}

#[test]
fn traversal_is_ascending() {
    let bst = build(7, &[3, 9, 1, 8, 3, 7, -4, 12, 0, 9]);
    let out = collect(bst.iter());
    for pair in out.windows(2) {
        assert!(pair[0] <= pair[1]);
    }
}

#[test]
fn traversal_holds_what_was_inserted() {
    let values = [3, 9, 1, 8, 3, 7, -4, 12, 0, 9];
    let bst = build(7, &values);
    let out = collect(bst.iter());
    let mut expected = vec![7];
    expected.extend_from_slice(&values);
    expected.sort();
    assert_eq!(out, expected);
    assert_eq!(out, vec![-4, 0, 1, 3, 3, 7, 7, 8, 9, 9, 12]);
}

#[test]
fn head_stays_the_first_value() {
    let mut bst = Bst::new(42);
    for v in [7, 100, -3, 42, 41, 43] {
        bst.insert(v);
        assert_eq!(bst.head(), Some(42));
    }
}

#[test]
fn exhausted_traversal_stays_exhausted() {
    let bst = build(2, &[1, 3]);
    let mut it = bst.iter();
    assert_eq!(it.next(), Some(1));
    assert_eq!(it.next(), Some(2));
    assert_eq!(it.next(), Some(3));
    for _ in 0..5 {
        assert_eq!(it.next(), None);
    }
}

#[test]
fn same_insertions_give_same_traversal() {
    let values = [5, 15, 20, 13, 5, -2];
    let a = build(10, &values);
    let b = build(10, &values);
    assert_eq!(collect(a.iter()), collect(b.iter()));
    assert_eq!(a.head(), b.head());
}

#[test]
fn each_pass_needs_a_fresh_traversal() {
    let bst = build(10, &[5, 15]);
    assert_eq!(collect(bst.iter()), vec![5, 10, 15]);
    assert_eq!(collect(bst.iter()), vec![5, 10, 15]);
}

#[test]
fn empty_tree_has_no_head_and_no_values() {
    let bst: Bst<i32> = Bst::empty();
    assert_eq!(bst.head(), None);
    let mut it = bst.iter();
    assert_eq!(it.next(), None);
    assert_eq!(it.next(), None);
}

#[test]
fn insert_into_empty_tree_makes_the_root() {
    let mut bst: Bst<i32> = Bst::empty();
    bst.insert(4);
    assert_eq!(bst.head(), Some(4));
    bst.insert(2);
    bst.insert(6);
    assert_eq!(bst.head(), Some(4));
    assert_eq!(collect(bst.iter()), vec![2, 4, 6]);
}

#[test]
fn zigzag_tree() {
    let bst = build(50, &[10, 40, 20, 30, 25]);
    assert_eq!(collect(bst.iter()), vec![10, 20, 25, 30, 40, 50]);
}

#[test]
fn full_tree() {
    let bst = build(4, &[2, 6, 1, 3, 5, 7]);
    assert_eq!(collect(bst.iter()), vec![1, 2, 3, 4, 5, 6, 7]);
}

#[test]
fn other_element_types() {
    let mut chars = Bst::new('m');
    for c in ['c', 'x', 'a', 'm', 'z'] {
        chars.insert(c);
    }
    assert_eq!(collect(chars.iter()), vec!['a', 'c', 'm', 'm', 'x', 'z']);
    let mut pairs = Bst::new((1u8, 2u8));
    pairs.insert((1, 1));
    pairs.insert((0, 9));
    assert_eq!(collect(pairs.iter()), vec![(0, 9), (1, 1), (1, 2)]);
}

#[test]
fn new_node_holds_its_value() {
    let node = Node::new(3);
    assert_eq!(node.val, 3);
}

#[test]
fn long_chain_is_walked_without_recursion() {
    let mut bst = Bst::new(0u32);
    for v in 1..2000u32 {
        bst.insert(v);
    }
    let out = collect(bst.iter());
    assert_eq!(out.len(), 2000);
    assert_eq!(out[0], 0);
    assert_eq!(out[1999], 1999);
    for pair in out.windows(2) {
        assert!(pair[0] < pair[1]);
    }
}
