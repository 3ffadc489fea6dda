//! Queries, and proofs of what they find.

pub mod check;
pub mod completeness;
pub mod op;
pub mod proof_tree;
pub mod query;
pub mod search_tree;
pub mod soundness;
