//! An ordered set of strings kept in an unbalanced binary search tree.
//!
//! The tree stores unique values, supports insertion, deletion, membership
//! testing and a size query, and offers a lazy in-order iterator driven by an
//! explicit stack. Values are ordered lexicographically by their characters.

pub mod order;
pub mod tree;
