//! An ordered, mutable binary search tree.
//!
//! Nodes live in an arena owned by the tree handle; child and parent links are
//! arena indices, so a parent back-reference can never dangle. Keys route left
//! when strictly smaller and right otherwise, so duplicate keys accumulate in
//! the right subtree of an equal key.

pub mod laws;
pub mod model;
pub mod render;
pub mod tree;
