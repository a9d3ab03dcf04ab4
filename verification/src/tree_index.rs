//! The ordered index: a tree of internal nodes over leaf nodes of sorted entries.

pub mod key;
pub mod leaf;
pub mod leaf_node;
pub mod node;
