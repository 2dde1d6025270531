//! Copies of trees and sets: the same shape, with a clone of each value in
//! the place of the value it was made from.

use crate::tree::{AvlNode, AvlTree, AvlTreeSet};
use vstd::pervasive::cloned;
use vstd::prelude::*;

verus! {

/// `copy` has the shape of `tree`, and each of its values is a clone of the
/// value that `tree` has at the same place.
pub open spec fn tree_cloned<T: Ord + Clone>(tree: AvlTree<T>, copy: AvlTree<T>) -> bool
    decreases tree,
{
    match (tree, copy) {
        (None, None) => true,
        (Some(a), Some(b)) => cloned::<T>(a.value, b.value) && tree_cloned(a.left, b.left)
            && tree_cloned(a.right, b.right),
        _ => false,
    }
}

/// Copies a tree node by node.
pub fn clone_tree<T: Ord + Clone>(tree: &AvlTree<T>) -> (copy: AvlTree<T>)
    ensures
        tree_cloned(*tree, copy),
    decreases *tree,
{
    match tree {
        None => None,
        Some(node) => Some(
            Box::new(
                AvlNode {
                    value: node.value.clone(),
                    left: clone_tree(&node.left),
                    right: clone_tree(&node.right),
                },
            ),
        ),
    }
}

impl<T: Ord + Clone> Clone for AvlNode<T> {
    fn clone(&self) -> (copy: Self)
        ensures
            cloned::<T>(self.value, copy.value),
            tree_cloned(self.left, copy.left),
            tree_cloned(self.right, copy.right),
    {
        AvlNode {
            value: self.value.clone(),
            left: clone_tree(&self.left),
            right: clone_tree(&self.right),
        }
    }
}

impl<T: Ord + Clone> Clone for AvlTreeSet<T> {
    fn clone(&self) -> (copy: Self)
        ensures
            tree_cloned(self.root, copy.root),
    {
        AvlTreeSet { root: clone_tree(&self.root) }
    }
}

/// Where a clone of a value is that value, a copy of a tree is that tree.
pub proof fn lemma_exact_clones_keep_tree<T: Ord + Clone>(tree: AvlTree<T>, copy: AvlTree<T>)
    requires
        tree_cloned(tree, copy),
        forall|a: T, b: T| #[trigger] cloned::<T>(a, b) ==> a == b,
    ensures
        copy == tree,
    decreases tree,
{
    match (tree, copy) {
        (Some(a), Some(b)) => {
            lemma_exact_clones_keep_tree(a.left, b.left);
            lemma_exact_clones_keep_tree(a.right, b.right);
        },
        _ => {},
    }
}

} // verus!
