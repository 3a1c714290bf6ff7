//! Bookkeeping for a binary-buddy allocator: a complete binary tree, stored
//! in one flat array, whose nodes record the largest free order below them.

pub mod flat_tree;
pub mod nested_tree;
pub mod block;
pub mod tree;

pub use nested_tree::blocks_in_tree;
