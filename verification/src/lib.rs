//! A Merkle (binary hash) tree: commits to an ordered sequence of values
//! with a single root digest.

pub mod arith;
pub mod merkle_tree;

pub use crate::merkle_tree::{MerkleError, MerkleTree, Node};
