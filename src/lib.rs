//! A Merkle-tree accumulator: commits a set of byte strings to one 32-byte
//! root and proves membership of an item with the sibling hashes on the path
//! from its leaf to that root.

pub mod hashing;
pub mod merkle;
pub mod laws;
