//! Counting maximum-independent-set-like selections in rooted trees.
//!
//! A `Tree` is built from adjacency rows and queried through read-only
//! traversal primitives; the counting engine folds a two-state recurrence
//! over the post-order sequence using arbitrary-precision integers.

pub mod bigint;
pub mod codec;
pub mod count;
pub mod paths;
pub mod tree;
