//! The lazy in-order walker over a set.

use crate::laws::lemma_search_tree_ascending;
use crate::tree::{in_order, strictly_ascending, AvlNode, AvlTree, AvlTreeSet};
use vstd::laws_cmp::obeys_cmp;
use vstd::prelude::*;

verus! {

/// A walk over a borrowed set, smallest value first.
///
/// It keeps the ancestors whose value is still to come, the nearest one
/// last, and a cursor on the subtree to look at next. The walk borrows the
/// set for as long as it lives, so nothing can be inserted meanwhile; it
/// cannot be started over, but any number of walks may go on side by side.
#[derive(Debug)]
pub struct AvlTreeSetIter<'a, T: Ord> {
    pub prev_nodes: Vec<&'a AvlNode<T>>,
    pub current_tree: &'a AvlTree<T>,
}

/// One step of the walk, from the waiting ancestors and the cursor to the
/// ancestors and the cursor after it and the value it gives.
///
/// With no subtree under the cursor, the nearest waiting ancestor is taken
/// off, its value is given, and the cursor goes to its right subtree; with
/// no ancestor waiting either, the walk is over and nothing changes. With a
/// subtree under the cursor, every node that has a left child is put among
/// the waiting ancestors and the cursor goes left; the first node without a
/// left child gives its value, and the cursor goes to its right subtree.
pub open spec fn after_step<T: Ord>(stack: Seq<&AvlNode<T>>, cursor: AvlTree<T>) -> (
    Seq<&AvlNode<T>>,
    AvlTree<T>,
    Option<T>,
)
    decreases cursor,
{
    match cursor {
        None => if stack.len() == 0 {
            (stack, None, None)
        } else {
            (stack.drop_last(), stack.last().right, Some(stack.last().value))
        },
        Some(node) => if node.left is Some {
            after_step(stack.push(&*node), node.left)
        } else {
            (stack, node.right, Some(node.value))
        },
    }
}

/// The value behind what a step handed out, if it handed out any.
pub open spec fn given<T>(item: Option<&T>) -> Option<T> {
    match item {
        Some(value) => Some(*value),
        None => None,
    }
}

/// What a stack of waiting ancestors still has to give: for each, nearest
/// first, its own value and then its right subtree.
pub open spec fn pending<T: Ord>(stack: Seq<&AvlNode<T>>) -> Seq<T>
    decreases stack.len(),
{
    if stack.len() == 0 {
        Seq::empty()
    } else {
        seq![stack.last().value] + in_order(stack.last().right) + pending(stack.drop_last())
    }
}

/// What a walk in the given state still has to give: the subtree under the
/// cursor, then what the waiting ancestors hold.
pub open spec fn to_come<T: Ord>(stack: Seq<&AvlNode<T>>, cursor: AvlTree<T>) -> Seq<T> {
    in_order(cursor) + pending(stack)
}

/// A step gives the first of the values still to come and leaves the rest;
/// it gives nothing exactly when nothing is left, and then changes nothing.
pub proof fn lemma_step_gives_next_in_order<T: Ord>(stack: Seq<&AvlNode<T>>, cursor: AvlTree<T>)
    ensures
        ({
            let (rest, under, item) = after_step(stack, cursor);
            match item {
                None => to_come(stack, cursor).len() == 0 && rest == stack && under == cursor,
                Some(value) => to_come(stack, cursor) == seq![value] + to_come(rest, under),
            }
        }),
    decreases cursor,
{
    match cursor {
        None => {
            if stack.len() > 0 {
                assert(to_come(stack, cursor) =~= seq![stack.last().value] + to_come(
                    stack.drop_last(),
                    stack.last().right,
                ));
            }
        },
        Some(node) => {
            if node.left is Some {
                let deeper = stack.push(&*node);
                lemma_step_gives_next_in_order(deeper, node.left);
                assert(deeper.drop_last() == stack);
                assert(to_come(deeper, node.left) =~= to_come(stack, cursor));
            } else {
                assert(in_order(node.left) =~= Seq::<T>::empty());
                assert(to_come(stack, cursor) =~= seq![node.value] + to_come(stack, node.right));
            }
        },
    }
}

impl<'a, T: Ord> AvlTreeSetIter<'a, T> {
    /// The values that the walk has not given yet, in the order in which
    /// it will give them.
    pub open spec fn remaining(&self) -> Seq<T> {
        to_come(self.prev_nodes@, *self.current_tree)
    }

    /// Gives the next value, or `None` once every value was given.
    pub fn next(&mut self) -> (item: Option<&'a T>)
        ensures
            (final(self).prev_nodes@, *final(self).current_tree, given(item))
                == after_step(old(self).prev_nodes@, *old(self).current_tree),
            match item {
                None => old(self).remaining().len() == 0 && final(self).remaining() == old(
                    self,
                ).remaining(),
                Some(value) => old(self).remaining().len() > 0 && *value == old(
                    self,
                ).remaining()[0] && final(self).remaining() == old(self).remaining().drop_first(),
            },
    {
        loop
            invariant
                self.remaining() == old(self).remaining(),
                after_step(self.prev_nodes@, *self.current_tree) == after_step(
                    old(self).prev_nodes@,
                    *old(self).current_tree,
                ),
            decreases *self.current_tree,
        {
            let cursor: &'a AvlTree<T> = self.current_tree;
            match cursor {
                None => {
                    let ghost stack = self.prev_nodes@;
                    match self.prev_nodes.pop() {
                        None => {
                            return None;
                        },
                        Some(prev_node) => {
                            self.current_tree = &prev_node.right;
                            proof {
                                assert(stack.drop_last() == self.prev_nodes@);
                                assert(self.remaining() =~= old(self).remaining().drop_first());
                            }
                            return Some(&prev_node.value);
                        },
                    }
                },
                Some(current_node) => {
                    if current_node.left.is_some() {
                        let ghost before = self.prev_nodes@;
                        self.prev_nodes.push(&**current_node);
                        self.current_tree = &current_node.left;
                        proof {
                            assert(self.prev_nodes@.drop_last() == before);
                            assert(self.remaining() =~= old(self).remaining());
                        }
                    } else {
                        self.current_tree = &current_node.right;
                        proof {
                            assert(in_order(current_node.left) =~= Seq::<T>::empty());
                            assert(self.remaining() =~= old(self).remaining().drop_first());
                        }
                        return Some(&current_node.value);
                    }
                },
            }
        }
    }
}

impl<T: Ord> AvlTreeSet<T> {
    /// Starts a walk over the set. It gives the set's values in ascending
    /// order, each once.
    pub fn iter(&self) -> (walk: AvlTreeSetIter<'_, T>)
        ensures
            walk.prev_nodes@ == Seq::<&AvlNode<T>>::empty(),
            *walk.current_tree == self.root,
            walk.remaining() == self@,
            obeys_cmp::<T>() && self.wf() ==> strictly_ascending(walk.remaining()),
    {
        proof {
            if obeys_cmp::<T>() && self.wf() {
                lemma_search_tree_ascending(self.root);
            }
        }
        AvlTreeSetIter { prev_nodes: Vec::new(), current_tree: &self.root }
    }
}

} // verus!
