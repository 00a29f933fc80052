//! An unbalanced binary search tree whose nodes live in an arena and refer to
//! one another by index, with parent back-references for upward navigation.
pub mod bst;

pub use bst::{BstNode, BstTree};
