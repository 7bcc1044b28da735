//! An ordered map kept as a left-leaning red-black tree, with subtree sizes
//! for rank and select queries.
//!
//! [`RedBlackTree`] is the map. Its contracts speak of the entries in
//! ascending key order, which `model` describes; `laws` states what follows
//! for every well-formed map. The other modules hold the work on subtrees:
//! `shape` the rotations and the fix-up, `insert` and `delete` the two
//! descents that change the tree, `query` the searches, and `check` the
//! integrity checks.

pub mod check;
pub mod delete;
pub mod insert;
pub mod laws;
pub mod model;
pub mod node;
pub mod order;
pub mod query;
pub mod shape;
pub mod tree;

pub use crate::node::{Color, Node};
pub use crate::tree::RedBlackTree;
