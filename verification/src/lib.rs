//! An ordered key-value map backed by a red-black binary search tree.
pub mod bst;
