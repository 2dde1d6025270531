//! Structural equality: two sets are equal when their trees have the same
//! shape and equal values at each place, not merely the same values.

use crate::tree::{AvlNode, AvlTree, AvlTreeSet};
use vstd::prelude::*;
use vstd::std_specs::cmp::PartialEqSpec;

verus! {

/// Two trees have the same shape and, place by place, equal values.
pub open spec fn same_tree<T: Ord>(a: AvlTree<T>, b: AvlTree<T>) -> bool
    decreases a,
{
    match (a, b) {
        (None, None) => true,
        (Some(x), Some(y)) => x.value.eq_spec(&y.value) && same_tree(x.left, y.left) && same_tree(
            x.right,
            y.right,
        ),
        _ => false,
    }
}

/// Compares two trees place by place.
pub fn trees_equal<T: Ord>(a: &AvlTree<T>, b: &AvlTree<T>) -> (same: bool)
    ensures
        T::obeys_eq_spec() ==> same == same_tree(*a, *b),
    decreases *a,
{
    match (a, b) {
        (None, None) => true,
        (Some(x), Some(y)) => x.value == y.value && trees_equal(&x.left, &y.left) && trees_equal(
            &x.right,
            &y.right,
        ),
        _ => false,
    }
}

impl<T: Ord> PartialEq for AvlNode<T> {
    fn eq(&self, other: &Self) -> (same: bool) {
        self.value == other.value && trees_equal(&self.left, &other.left) && trees_equal(
            &self.right,
            &other.right,
        )
    }
}

impl<T: Ord> vstd::std_specs::cmp::PartialEqSpecImpl for AvlNode<T> {
    open spec fn obeys_eq_spec() -> bool {
        T::obeys_eq_spec()
    }

    open spec fn eq_spec(&self, other: &Self) -> bool {
        self.value.eq_spec(&other.value) && same_tree(self.left, other.left) && same_tree(
            self.right,
            other.right,
        )
    }
}

impl<T: Ord> PartialEq for AvlTreeSet<T> {
    fn eq(&self, other: &Self) -> (same: bool) {
        trees_equal(&self.root, &other.root)
    }
}

impl<T: Ord> vstd::std_specs::cmp::PartialEqSpecImpl for AvlTreeSet<T> {
    open spec fn obeys_eq_spec() -> bool {
        T::obeys_eq_spec()
    }

    open spec fn eq_spec(&self, other: &Self) -> bool {
        same_tree(self.root, other.root)
    }
}

/// Where `==` on the values is plain equality, two trees are structurally
/// equal exactly when they are the same tree.
pub proof fn lemma_same_tree_is_identity<T: Ord>(a: AvlTree<T>, b: AvlTree<T>)
    requires
        forall|x: T, y: T| #[trigger] x.eq_spec(&y) <==> x == y,
    ensures
        same_tree(a, b) <==> a == b,
    decreases a,
{
    match (a, b) {
        (Some(x), Some(y)) => {
            lemma_same_tree_is_identity(x.left, y.left);
            lemma_same_tree_is_identity(x.right, y.right);
        },
        _ => {},
    }
}

} // verus!
