//! A k-dimensional space-partitioning index (a k-d tree).
//!
//! Points are coordinates of `i32` components; each stored point carries a
//! caller-supplied value. The tree is kept in a flat, capacity-bounded store
//! of optional node slots addressed by implicit binary-tree index (the root
//! at slot 0, the children of slot `i` at `2i + 1` and `2i + 2`). The public
//! operations are specified against the abstract view of the tree as a
//! finite map from coordinates to values.

pub mod kd_tree;
pub mod laws;
