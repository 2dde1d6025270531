//! What holds of every search tree and of every insertion.

use crate::order::{
    equivalent, lemma_equivalent_reflexive, lemma_precedes_flips, lemma_precedes_transitive,
    precedes,
};
use crate::tree::{
    descent_finds, in_order, insertion_index, is_search_tree, leaf, seq_holds, size,
    strictly_ascending, tree_insert, AvlTree,
};
use std::cmp::Ordering;
use vstd::laws_cmp::obeys_cmp;
use vstd::prelude::*;
use vstd::std_specs::cmp::OrdSpec;

verus! {

/// Where the values of a node's tree stand in its in-order sequence: the left
/// subtree's first, then the node's own, then the right subtree's.
pub proof fn lemma_in_order_positions<T: Ord>(tree: AvlTree<T>)
    requires
        tree is Some,
    ensures
        in_order(tree).len() == in_order(tree->0.left).len() + 1 + in_order(tree->0.right).len(),
        forall|i: int|
            0 <= i < in_order(tree->0.left).len() ==> in_order(tree)[i] == in_order(
                tree->0.left,
            )[i],
        in_order(tree)[size(tree->0.left)] == tree->0.value,
        forall|i: int|
            0 <= i < in_order(tree->0.right).len() ==> in_order(tree)[in_order(
                tree->0.left,
            ).len() + 1 + i] == in_order(tree->0.right)[i],
{
}

/// An insertion whose descent meets an equal value leaves the tree as it
/// was; any other puts the value into the in-order sequence at its
/// insertion index and moves nothing else.
pub proof fn lemma_insert_in_order<T: Ord>(tree: AvlTree<T>, value: T)
    ensures
        descent_finds(tree, value) ==> tree_insert(tree, value) == tree,
        0 <= insertion_index(tree, value) <= in_order(tree).len(),
        !descent_finds(tree, value) ==> in_order(tree_insert(tree, value)) == in_order(
            tree,
        ).insert(insertion_index(tree, value), value),
    decreases tree,
{
    match tree {
        None => {
            assert(in_order(leaf(value)) =~= Seq::<T>::empty().insert(0, value));
        },
        Some(node) => {
            lemma_insert_in_order(node.left, value);
            lemma_insert_in_order(node.right, value);
            if !descent_finds(tree, value) {
                assert(in_order(tree_insert(tree, value)) =~= in_order(tree).insert(
                    insertion_index(tree, value),
                    value,
                ));
            }
        },
    }
}

/// In a search tree the descent for a value meets an equal node exactly when
/// the tree holds one.
pub proof fn lemma_descent_finds_what_is_held<T: Ord>(tree: AvlTree<T>, value: T)
    requires
        obeys_cmp::<T>(),
        is_search_tree(tree),
    ensures
        descent_finds(tree, value) == seq_holds(in_order(tree), value),
    decreases tree,
{
    match tree {
        None => {},
        Some(node) => {
            lemma_descent_finds_what_is_held(node.left, value);
            lemma_descent_finds_what_is_held(node.right, value);
            lemma_in_order_positions(tree);
            let all = in_order(tree);
            let before = in_order(node.left);
            let after = in_order(node.right);
            let mid = size(node.left);
            match node.value.cmp_spec(&value) {
                Ordering::Less => {
                    if seq_holds(after, value) {
                        let i = choose|i: int| 0 <= i < after.len() && equivalent(after[i], value);
                        assert(equivalent(all[mid + 1 + i], value));
                    }
                    if seq_holds(all, value) {
                        let i = choose|i: int| 0 <= i < all.len() && equivalent(all[i], value);
                        if i < mid {
                            lemma_precedes_transitive(before[i], node.value, value);
                        } else if i > mid {
                            assert(equivalent(after[i - mid - 1], value));
                        }
                    }
                },
                Ordering::Equal => {
                    assert(equivalent(all[mid], value));
                },
                Ordering::Greater => {
                    lemma_precedes_flips(value, node.value);
                    if seq_holds(before, value) {
                        let i = choose|i: int|
                            0 <= i < before.len() && equivalent(before[i], value);
                        assert(equivalent(all[i], value));
                    }
                    if seq_holds(all, value) {
                        let i = choose|i: int| 0 <= i < all.len() && equivalent(all[i], value);
                        if i > mid {
                            let e = after[i - mid - 1];
                            assert(all[i] == e);
                            lemma_precedes_transitive(value, node.value, e);
                            lemma_precedes_flips(value, e);
                        } else if i < mid {
                            assert(equivalent(before[i], value));
                        }
                    }
                },
            }
        },
    }
}

/// Insertion keeps the search-tree invariant.
pub proof fn lemma_insert_keeps_search_tree<T: Ord>(tree: AvlTree<T>, value: T)
    requires
        obeys_cmp::<T>(),
        is_search_tree(tree),
    ensures
        is_search_tree(tree_insert(tree, value)),
    decreases tree,
{
    match tree {
        None => {},
        Some(node) => {
            lemma_insert_keeps_search_tree(node.left, value);
            lemma_insert_keeps_search_tree(node.right, value);
            lemma_insert_in_order(node.left, value);
            lemma_insert_in_order(node.right, value);
            lemma_precedes_flips(value, node.value);
        },
    }
}

/// The in-order sequence of a search tree is strictly ascending, so no value
/// stands in it twice.
pub proof fn lemma_search_tree_ascending<T: Ord>(tree: AvlTree<T>)
    requires
        obeys_cmp::<T>(),
        is_search_tree(tree),
    ensures
        strictly_ascending(in_order(tree)),
    decreases tree,
{
    match tree {
        None => {},
        Some(node) => {
            lemma_search_tree_ascending(node.left);
            lemma_search_tree_ascending(node.right);
            lemma_in_order_positions(tree);
            let all = in_order(tree);
            let before = in_order(node.left);
            let after = in_order(node.right);
            let mid = size(node.left);
            assert forall|i: int, j: int| 0 <= i < j < all.len() implies precedes(
                all[i],
                all[j],
            ) by {
                if i < mid && j > mid {
                    assert(all[i] == before[i]);
                    assert(all[j] == after[j - mid - 1]);
                    lemma_precedes_transitive(all[i], node.value, all[j]);
                } else if i < mid && j < mid {
                    assert(precedes(before[i], before[j]));
                } else if i < mid {
                    assert(all[i] == before[i]);
                } else if i == mid {
                    assert(all[j] == after[j - mid - 1]);
                } else {
                    assert(precedes(after[i - mid - 1], after[j - mid - 1]));
                }
            }
        },
    }
}

/// After an insertion the descent for the same value finds it, and a second
/// insertion of it changes nothing.
pub proof fn lemma_insert_idempotent<T: Ord>(tree: AvlTree<T>, value: T)
    requires
        obeys_cmp::<T>(),
    ensures
        descent_finds(tree_insert(tree, value), value),
        tree_insert(tree_insert(tree, value), value) == tree_insert(tree, value),
    decreases tree,
{
    match tree {
        None => {
            lemma_equivalent_reflexive(value);
        },
        Some(node) => {
            lemma_insert_idempotent(node.left, value);
            lemma_insert_idempotent(node.right, value);
        },
    }
}

/// Inserting a value that a search tree holds leaves the tree as it was.
pub proof fn lemma_insert_of_held_value<T: Ord>(tree: AvlTree<T>, value: T)
    requires
        obeys_cmp::<T>(),
        is_search_tree(tree),
        seq_holds(in_order(tree), value),
    ensures
        tree_insert(tree, value) == tree,
{
    lemma_descent_finds_what_is_held(tree, value);
    lemma_insert_in_order(tree, value);
}

/// The tree after inserting the values one after another, first to last.
pub open spec fn insert_all<T: Ord>(tree: AvlTree<T>, values: Seq<T>) -> AvlTree<T>
    decreases values.len(),
{
    if values.len() == 0 {
        tree
    } else {
        tree_insert(insert_all(tree, values.drop_last()), values.last())
    }
}

/// No two values of the sequence are equivalent.
pub open spec fn pairwise_distinct<T: Ord>(values: Seq<T>) -> bool {
    forall|i: int, j: int|
        0 <= i < j < values.len() ==> !equivalent(#[trigger] values[i], #[trigger] values[j])
}

/// Every value of `part` stands somewhere in `whole`.
pub open spec fn drawn_from<T: Ord>(part: Seq<T>, whole: Seq<T>) -> bool {
    forall|k: int| 0 <= k < part.len() ==> whole.contains(#[trigger] part[k])
}

/// A strictly ascending sequence holds no value twice.
pub proof fn lemma_ascending_is_distinct<T: Ord>(values: Seq<T>)
    requires
        strictly_ascending(values),
    ensures
        pairwise_distinct(values),
{
}

/// Whatever values are inserted into a search tree, in whatever order, the
/// result is a search tree, and its in-order sequence is strictly ascending.
pub proof fn lemma_insertions_ascending<T: Ord>(tree: AvlTree<T>, values: Seq<T>)
    requires
        obeys_cmp::<T>(),
        is_search_tree(tree),
    ensures
        is_search_tree(insert_all(tree, values)),
        strictly_ascending(in_order(insert_all(tree, values))),
        pairwise_distinct(in_order(insert_all(tree, values))),
    decreases values.len(),
{
    if values.len() > 0 {
        lemma_insertions_ascending(tree, values.drop_last());
        lemma_insert_keeps_search_tree(insert_all(tree, values.drop_last()), values.last());
    }
    lemma_search_tree_ascending(insert_all(tree, values));
}

/// A set built from nothing holds only values that were inserted.
pub proof fn lemma_insertions_drawn_from_values<T: Ord>(values: Seq<T>)
    ensures
        drawn_from(in_order(insert_all(None, values)), values),
    decreases values.len(),
{
    if values.len() > 0 {
        let front = values.drop_last();
        let built = insert_all(None, front);
        lemma_insertions_drawn_from_values(front);
        lemma_insert_in_order(built, values.last());
        let grown = in_order(insert_all(None, values));
        let at = insertion_index(built, values.last());
        assert forall|k: int| 0 <= k < grown.len() implies values.contains(
            #[trigger] grown[k],
        ) by {
            if descent_finds(built, values.last()) || k != at {
                let e = grown[k];
                assert(exists|m: int| 0 <= m < in_order(built).len() && in_order(built)[m] == e) by {
                    if descent_finds(built, values.last()) {
                        assert(in_order(built)[k] == e);
                    } else if k < at {
                        assert(in_order(built)[k] == e);
                    } else {
                        assert(in_order(built)[k - 1] == e);
                    }
                }
                let m = choose|m: int| 0 <= m < in_order(built).len() && in_order(built)[m] == e;
                assert(front.contains(in_order(built)[m]));
                let i = choose|i: int| 0 <= i < front.len() && front[i] == e;
                assert(values[i] == e);
            } else {
                assert(values[values.len() - 1] == grown[k]);
            }
        }
    }
}

/// After inserting `n` pairwise distinct values into the empty set, the
/// in-order sequence holds exactly `n` values.
pub proof fn lemma_distinct_insertions_counted<T: Ord>(values: Seq<T>)
    requires
        obeys_cmp::<T>(),
        pairwise_distinct(values),
    ensures
        in_order(insert_all(None, values)).len() == values.len(),
    decreases values.len(),
{
    if values.len() > 0 {
        let front = values.drop_last();
        let built = insert_all(None, front);
        let last = values.last();
        lemma_distinct_insertions_counted(front);
        lemma_insertions_drawn_from_values(front);
        lemma_insertions_ascending(None, front);
        lemma_descent_finds_what_is_held(built, last);
        lemma_insert_in_order(built, last);
        if seq_holds(in_order(built), last) {
            let k = choose|k: int|
                0 <= k < in_order(built).len() && equivalent(in_order(built)[k], last);
            assert(front.contains(in_order(built)[k]));
            let i = choose|i: int| 0 <= i < front.len() && front[i] == in_order(built)[k];
            assert(equivalent(values[i], values[values.len() - 1]));
        }
    }
}

} // verus!
