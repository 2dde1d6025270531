//! An ordered set kept as a plain binary search tree, with a lazy in-order
//! walker, and a handful of small string exercises.

pub mod order;
pub mod tree;
pub mod iter;
pub mod equality;
pub mod cloning;
pub mod laws;
pub mod exercises;
