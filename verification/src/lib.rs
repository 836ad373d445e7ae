//! Ordered in-memory collections and algorithms: an unbalanced binary search
//! tree, comparison-based sorting routines, and a rolling-hash substring
//! search.

pub mod binary_tree;
pub mod sorts;
pub mod substr;
