//! A node-based binary search tree with parent back-links, stored in an
//! arena so that every link is an index and upward navigation is total.

pub mod bst;
pub mod model;
