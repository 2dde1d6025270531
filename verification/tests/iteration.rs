use avl_tree_set::tree::{AvlNode, AvlTreeSet};

#[test]
fn iterate_three_two_one() {
    let mut set = AvlTreeSet::new();
    for i in (1..4_usize).rev() {
        set.insert(i);
    }
    let mut iter = set.iter();
    assert_eq!(iter.next(), Some(&1));
    assert_eq!(iter.next(), Some(&2));
    assert_eq!(iter.next(), Some(&3));
    assert_eq!(iter.next(), None);
}

#[test]
fn iterate_empty_set() {
    let set: AvlTreeSet<u8> = AvlTreeSet::new();
    let mut iter = set.iter();
    assert_eq!(iter.next(), None);
    assert_eq!(iter.next(), None);
}

#[test]
fn finished_walk_stays_finished() {
    let mut set = AvlTreeSet::new();
    set.insert(4);
    let mut iter = set.iter();
    assert_eq!(iter.next(), Some(&4));
    assert_eq!(iter.next(), None);
    assert_eq!(iter.next(), None);
}

#[test]
fn two_walks_are_independent() {
    let mut set = AvlTreeSet::new();
    for value in [2, 1, 3] {
        set.insert(value);
    }
    let mut first = set.iter();
    let mut second = set.iter();
    assert_eq!(first.next(), Some(&1));
    assert_eq!(first.next(), Some(&2));
    assert_eq!(second.next(), Some(&1));
    assert_eq!(first.next(), Some(&3));
    assert_eq!(second.next(), Some(&2));
    assert_eq!(second.next(), Some(&3));
    assert_eq!(first.next(), None);
    assert_eq!(second.next(), None);
}

#[test]
fn fresh_walk_starts_over() {
    let mut set = AvlTreeSet::new();
    for value in [5, 6] {
        set.insert(value);
    }
    let mut walk = set.iter();
    assert_eq!(walk.next(), Some(&5));
    let mut again = set.iter();
    assert_eq!(again.next(), Some(&5));
    assert_eq!(again.next(), Some(&6));
    assert_eq!(again.next(), None);
}

#[test]
fn walk_follows_left_spine_and_right_subtrees() {
    let mut set = AvlTreeSet::new();
    for value in [8, 4, 12, 2, 6, 10, 14, 1, 3, 5, 7, 9, 11, 13, 15] {
        set.insert(value);
    }
    let mut walk = set.iter();
    for expected in 1..=15 {
        assert_eq!(walk.next(), Some(&expected));
    }
    assert_eq!(walk.next(), None);
}

#[test]
fn walk_over_hand_built_tree() {
    let set = AvlTreeSet {
        root: Some(Box::new(AvlNode {
            value: 2,
            left: Some(Box::new(AvlNode { value: 1, left: None, right: None })),
            right: Some(Box::new(AvlNode {
                value: 5,
                left: Some(Box::new(AvlNode {
                    value: 3,
                    left: None,
                    right: Some(Box::new(AvlNode { value: 4, left: None, right: None })),
                })),
                right: None,
            })),
        })),
    };
    let mut walk = set.iter();
    let mut out = Vec::new();
    while let Some(value) = walk.next() {
        out.push(*value);
    }
    assert_eq!(out, vec![1, 2, 3, 4, 5]);
}
