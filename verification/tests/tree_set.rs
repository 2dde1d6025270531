use avl_tree_set::equality::trees_equal;
use avl_tree_set::tree::{AvlNode, AvlTree, AvlTreeSet};

fn leaf(value: i32) -> AvlTree<i32> {
    Some(Box::new(AvlNode { value, left: None, right: None }))
}

fn node(value: i32, left: AvlTree<i32>, right: AvlTree<i32>) -> AvlTree<i32> {
    Some(Box::new(AvlNode { value, left, right }))
}

fn collect(set: &AvlTreeSet<i32>) -> Vec<i32> {
    let mut walk = set.iter();
    let mut out = Vec::new();
    while let Some(value) = walk.next() {
        out.push(*value);
    }
    out
}

#[test]
fn new_set_is_empty() {
    let set: AvlTreeSet<i32> = AvlTreeSet::new();
    assert_eq!(set.root, None);
    assert_eq!(collect(&set), Vec::<i32>::new());
}

#[test]
fn insert_same_value_twice() {
    let mut set = AvlTreeSet::new();
    assert!(set.insert(1));
    assert_eq!(set.root, leaf(1));
    assert!(!set.insert(1));
    assert_eq!(set.root, leaf(1));
}

#[test]
fn insert_one_then_two() {
    let mut set = AvlTreeSet::new();
    assert!(set.insert(1));
    assert!(!set.insert(1));
    assert!(set.insert(2));
    assert_eq!(
        set.root,
        Some(Box::new(AvlNode {
            value: 1,
            left: None,
            right: Some(Box::new(AvlNode { value: 2, left: None, right: None })),
        }))
    );
}

#[test]
fn insert_two_one_five_three_four_shape() {
    let mut set = AvlTreeSet::new();
    for value in [2, 1, 5, 3, 4] {
        assert!(set.insert(value));
    }
    let expected = node(2, leaf(1), node(5, node(3, None, leaf(4)), None));
    assert_eq!(set.root, expected);
    assert_eq!(collect(&set), vec![1, 2, 3, 4, 5]);
}

#[test]
fn smaller_values_go_left_larger_go_right() {
    let mut set = AvlTreeSet::new();
    assert!(set.insert(10));
    assert!(set.insert(5));
    assert!(set.insert(15));
    assert_eq!(set.root, node(10, leaf(5), leaf(15)));
}

#[test]
fn ascending_insertions_make_a_right_spine() {
    let mut set = AvlTreeSet::new();
    for value in [1, 2, 3] {
        assert!(set.insert(value));
    }
    assert_eq!(set.root, node(1, None, node(2, None, leaf(3))));
}

#[test]
fn duplicate_leaves_shape_unchanged() {
    let mut set = AvlTreeSet::new();
    for value in [2, 1, 5, 3, 4] {
        set.insert(value);
    }
    let before = node(2, leaf(1), node(5, node(3, None, leaf(4)), None));
    for value in [4, 2, 5, 1, 3] {
        assert!(!set.insert(value));
        assert_eq!(set.root, before);
    }
}

#[test]
fn insert_reports_whether_value_was_absent() {
    let mut set = AvlTreeSet::new();
    let values = [7, 3, 9, 3, 7, 1, 9, 8, 1];
    let mut seen: Vec<i32> = Vec::new();
    for value in values {
        let fresh = !seen.contains(&value);
        assert_eq!(set.insert(value), fresh);
        if fresh {
            seen.push(value);
        }
    }
    assert_eq!(collect(&set), vec![1, 3, 7, 8, 9]);
}

#[test]
fn distinct_values_are_all_counted() {
    let mut set = AvlTreeSet::new();
    let values = [50, 20, 80, 10, 30, 70, 90, 60, 40, 0];
    for value in values {
        assert!(set.insert(value));
    }
    assert_eq!(collect(&set).len(), values.len());
}

#[test]
fn traversal_is_strictly_ascending() {
    let mut set = AvlTreeSet::new();
    for value in [13, -4, 8, 8, 21, 0, -4, 5, 34, 1] {
        set.insert(value);
    }
    let out = collect(&set);
    assert_eq!(out, vec![-4, 0, 1, 5, 8, 13, 21, 34]);
    for pair in out.windows(2) {
        assert!(pair[0] < pair[1]);
    }
}

#[test]
fn sets_with_same_values_but_other_shape_differ() {
    let mut a = AvlTreeSet::new();
    let mut b = AvlTreeSet::new();
    for value in [1, 2] {
        a.insert(value);
    }
    for value in [2, 1] {
        b.insert(value);
    }
    assert_eq!(collect(&a), collect(&b));
    assert_ne!(a, b);
    let mut c = AvlTreeSet::new();
    c.insert(1);
    c.insert(2);
    assert_eq!(a, c);
}

#[test]
fn set_of_strings() {
    let mut set: AvlTreeSet<String> = AvlTreeSet::new();
    assert!(set.insert(String::from("pear")));
    assert!(set.insert(String::from("apple")));
    assert!(!set.insert(String::from("pear")));
    assert!(set.insert(String::from("quince")));
    let mut walk = set.iter();
    assert_eq!(walk.next().map(|s| s.as_str()), Some("apple"));
    assert_eq!(walk.next().map(|s| s.as_str()), Some("pear"));
    assert_eq!(walk.next().map(|s| s.as_str()), Some("quince"));
    assert_eq!(walk.next(), None);
}

#[test]
fn trees_equal_compares_shape_and_values() {
    let a = node(2, leaf(1), leaf(3));
    let b = node(2, leaf(1), leaf(3));
    let other_shape = node(1, None, node(2, None, leaf(3)));
    let other_value = node(2, leaf(1), leaf(4));
    let none: AvlTree<i32> = None;
    assert!(trees_equal(&a, &b));
    assert!(!trees_equal(&a, &other_shape));
    assert!(!trees_equal(&a, &other_value));
    assert!(!trees_equal(&a, &none));
    assert!(!trees_equal(&none, &a));
    assert!(trees_equal(&none, &none));
    assert!(a == b);
    assert!(a != other_value);
}

#[test]
fn clone_keeps_shape_and_values() {
    let mut set = AvlTreeSet::new();
    for value in [2, 1, 5, 3, 4] {
        set.insert(value);
    }
    let mut copy = set.clone();
    assert_eq!(copy, set);
    assert_eq!(copy.root, node(2, leaf(1), node(5, node(3, None, leaf(4)), None)));
    assert!(copy.insert(6));
    assert_ne!(copy, set);
    assert_eq!(collect(&set), vec![1, 2, 3, 4, 5]);
    assert_eq!(collect(&copy), vec![1, 2, 3, 4, 5, 6]);
}
