//! A lock-step model of the parallel binary-tree folding engine and the
//! witness preparation of the radix-sort shuffle, with their contracts.

pub mod ccs;
pub mod folding;
pub mod parallel_tree;
pub mod shuffling;
mod text;
