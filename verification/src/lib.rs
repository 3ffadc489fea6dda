//! An authenticated key-value store over a Merkle radix trie, and proofs of what
//! queries find in Merkle search trees.

pub mod bits;
pub mod error;
pub mod hash;
pub mod mrt;
pub mod ops;
pub mod proofs;
pub mod test_utils;
pub mod text;
pub mod tracer;
