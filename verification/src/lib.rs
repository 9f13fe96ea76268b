//! Weighted binary trees and the greedy construction of prefix-code trees.
//!
//! [`node`] holds the tree that programs work with, [`tree`] the value that it
//! stands for in contracts. [`greedy`] says which tree the construction ends
//! with, [`optimal`] proves that no tree over the same leaves is better, and
//! [`builder`] builds it, on the heap of [`heap`].

pub mod builder;
pub mod greedy;
pub mod heap;
pub mod node;
pub mod optimal;
pub mod tree;
