//! The map interface and its red-black tree implementation.
pub mod delete;
pub mod insert;
pub mod key_order;
pub mod laws;
pub mod map;
pub mod node;
pub mod search;
pub mod tree_map;
