//! The ordered set: nodes, the search-tree invariant, and insertion.

use crate::laws::{
    lemma_descent_finds_what_is_held, lemma_insert_in_order, lemma_insert_keeps_search_tree,
    lemma_search_tree_ascending,
};
use crate::order::{equivalent, lemma_cmp_is_specified, precedes};
use std::cmp::Ordering;
use vstd::laws_cmp::obeys_cmp;
use vstd::prelude::*;
use vstd::std_specs::cmp::OrdSpec;

verus! {

/// One value and its two child slots.
#[derive(Debug)]
pub struct AvlNode<T: Ord> {
    pub value: T,
    pub left: AvlTree<T>,
    pub right: AvlTree<T>,
}

/// A child slot: absent, or an owned subtree.
pub type AvlTree<T> = Option<Box<AvlNode<T>>>;

/// A set of values of a totally ordered type.
#[derive(Debug)]
pub struct AvlTreeSet<T: Ord> {
    pub root: AvlTree<T>,
}

/// The values of a tree, left subtree first, then the node, then the right subtree.
pub open spec fn in_order<T: Ord>(tree: AvlTree<T>) -> Seq<T>
    decreases tree,
{
    match tree {
        None => Seq::empty(),
        Some(node) => in_order(node.left).push(node.value) + in_order(node.right),
    }
}

/// How many values the tree holds.
pub open spec fn size<T: Ord>(tree: AvlTree<T>) -> int {
    in_order(tree).len() as int
}

/// Some value of the sequence is equivalent to `value`.
pub open spec fn seq_holds<T: Ord>(values: Seq<T>, value: T) -> bool {
    exists|i: int| 0 <= i < values.len() && equivalent(#[trigger] values[i], value)
}

/// Every value of the sequence comes strictly before each one behind it.
pub open spec fn strictly_ascending<T: Ord>(values: Seq<T>) -> bool {
    forall|i: int, j: int|
        0 <= i < j < values.len() ==> precedes(#[trigger] values[i], #[trigger] values[j])
}

/// The search-tree invariant: at every node, what is reachable through `left`
/// comes strictly before the node's value and what is reachable through
/// `right` comes strictly after it.
pub open spec fn is_search_tree<T: Ord>(tree: AvlTree<T>) -> bool
    decreases tree,
{
    match tree {
        None => true,
        Some(node) => {
            &&& is_search_tree(node.left)
            &&& is_search_tree(node.right)
            &&& forall|i: int|
                0 <= i < in_order(node.left).len() ==> precedes(
                    #[trigger] in_order(node.left)[i],
                    node.value,
                )
            &&& forall|i: int|
                0 <= i < in_order(node.right).len() ==> precedes(
                    node.value,
                    #[trigger] in_order(node.right)[i],
                )
        },
    }
}

/// A tree of one node.
pub open spec fn leaf<T: Ord>(value: T) -> AvlTree<T> {
    Some(Box::new(AvlNode { value, left: None, right: None }))
}

/// The tree after the descent for `value`: the node's value is compared with
/// `value`; a smaller node sends the descent right, a larger one left, an
/// equal one ends it with the tree as it was; the first absent slot on the
/// way becomes a leaf.
pub open spec fn tree_insert<T: Ord>(tree: AvlTree<T>, value: T) -> AvlTree<T>
    decreases tree,
{
    match tree {
        None => leaf(value),
        Some(node) => match node.value.cmp_spec(&value) {
            Ordering::Less => Some(
                Box::new(
                    AvlNode {
                        value: node.value,
                        left: node.left,
                        right: tree_insert(node.right, value),
                    },
                ),
            ),
            Ordering::Equal => tree,
            Ordering::Greater => Some(
                Box::new(
                    AvlNode {
                        value: node.value,
                        left: tree_insert(node.left, value),
                        right: node.right,
                    },
                ),
            ),
        },
    }
}

/// Whether the descent for `value` meets a node equal to it.
pub open spec fn descent_finds<T: Ord>(tree: AvlTree<T>, value: T) -> bool
    decreases tree,
{
    match tree {
        None => false,
        Some(node) => match node.value.cmp_spec(&value) {
            Ordering::Less => descent_finds(node.right, value),
            Ordering::Equal => true,
            Ordering::Greater => descent_finds(node.left, value),
        },
    }
}

/// The place in the in-order sequence where the descent for `value` ends:
/// that of the equal node it meets, or that of the absent slot it reaches.
pub open spec fn insertion_index<T: Ord>(tree: AvlTree<T>, value: T) -> int
    decreases tree,
{
    match tree {
        None => 0,
        Some(node) => match node.value.cmp_spec(&value) {
            Ordering::Less => size(node.left) + 1 + insertion_index(node.right, value),
            Ordering::Equal => size(node.left),
            Ordering::Greater => insertion_index(node.left, value),
        },
    }
}

impl<T: Ord> View for AvlTreeSet<T> {
    type V = Seq<T>;

    /// The set's values in ascending order.
    open spec fn view(&self) -> Seq<T> {
        in_order(self.root)
    }
}

impl<T: Ord> AvlTreeSet<T> {
    /// The set's tree is a search tree.
    pub open spec fn wf(&self) -> bool {
        is_search_tree(self.root)
    }

    /// The set holds a value equivalent to `value`.
    pub open spec fn contains(&self, value: T) -> bool {
        seq_holds(self@, value)
    }

    /// The empty set.
    pub fn new() -> (set: Self)
        ensures
            set.root is None,
            set@ == Seq::<T>::empty(),
            set.wf(),
    {
        Self { root: None }
    }

    /// Adds `value` unless the set holds an equal one, and says whether it did.
    ///
    /// The descent compares each node's value with `value`: from a smaller
    /// node it goes right, from a larger one left, and at an equal one it
    /// stops and leaves the tree untouched. The first absent slot on the way
    /// takes a new leaf. Nothing is rebalanced.
    pub fn insert(&mut self, value: T) -> (inserted: bool)
        requires
            obeys_cmp::<T>(),
            old(self).wf(),
        ensures
            final(self).wf(),
            inserted == !old(self).contains(value),
            final(self).root == tree_insert(old(self).root, value),
            !inserted ==> final(self).root == old(self).root,
            inserted ==> final(self)@ == old(self)@.insert(
                insertion_index(old(self).root, value),
                value,
            ),
            strictly_ascending(final(self)@),
    {
        let ghost start = self.root;
        proof {
            lemma_cmp_is_specified::<T>();
            lemma_insert_in_order(start, value);
            lemma_descent_finds_what_is_held(start, value);
            lemma_insert_keeps_search_tree(start, value);
            lemma_search_tree_ascending(tree_insert(start, value));
        }
        let mut current_tree = &mut self.root;
        loop
            invariant
                T::obeys_cmp_spec(),
                start == old(self).root,
                is_search_tree(tree_insert(start, value)),
                strictly_ascending(in_order(tree_insert(start, value))),
                descent_finds(start, value) == seq_holds(in_order(start), value),
                descent_finds(start, value) ==> tree_insert(start, value) == start,
                !descent_finds(start, value) ==> in_order(tree_insert(start, value)) == in_order(
                    start,
                ).insert(insertion_index(start, value), value),
                descent_finds(*current_tree, value) == descent_finds(start, value),
                tree_insert(*current_tree, value) == *final(current_tree) ==> after_borrow(
                    self.root,
                ) == tree_insert(start, value),
            ensures
                *current_tree is None,
            decreases *current_tree,
        {
            match current_tree {
                None => {
                    break ;
                },
                Some(current_node) => {
                    match current_node.value.cmp(&value) {
                        Ordering::Less => {
                            current_tree = &mut current_node.right;
                        },
                        Ordering::Equal => {
                            return false;
                        },
                        Ordering::Greater => {
                            current_tree = &mut current_node.left;
                        },
                    }
                },
            }
        }
        *current_tree = Some(Box::new(AvlNode { value, left: None, right: None }));
        true
    }
}

} // verus!
