//! Isolation trees: the node arena, its construction and its traversals.

pub mod ancestor;
pub mod builder;
pub mod ciso_tree;
pub mod node;
pub mod transform;
pub mod tree;
