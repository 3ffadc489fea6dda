//! The errors that operations report.

use vstd::prelude::*;

use crate::hash::NodeHash;

verus! {

/// Why an operation failed.
#[derive(Debug)]
pub enum Error {
    /// A key, prefix or range bound is not acceptable.
    Key(String),
    /// A batch of operations is not well formed.
    BatchKey(String),
    /// The tree has a shape that the operation cannot handle.
    Tree(String),
    /// The operation reached a pruned part of the tree.
    PrunedNode(String),
    /// A proof or trace is malformed.
    Proof(String),
    /// A root hash differs from the expected one: the expected hash, then the actual one.
    HashMismatch(NodeHash, NodeHash),
    /// The handle was used after a write through it had failed.
    Poisoned(String),
    /// A query bound is not acceptable.
    Bound(String),
    /// A proof lacks data that the query asks for.
    MissingData,
    /// A byte string is not a valid encoding.
    Ed(String),
}

/// The kinds of [`Error`], without what they carry.
pub enum Fault {
    Key,
    BatchKey,
    Tree,
    Pruned,
    Proof,
    HashMismatch,
    Poisoned,
    Bound,
    MissingData,
    Ed,
}

impl Error {
    /// The kind of this error.
    pub open spec fn fault(self) -> Fault {
        match self {
            Error::Key(_) => Fault::Key,
            Error::BatchKey(_) => Fault::BatchKey,
            Error::Tree(_) => Fault::Tree,
            Error::PrunedNode(_) => Fault::Pruned,
            Error::Proof(_) => Fault::Proof,
            Error::HashMismatch(_, _) => Fault::HashMismatch,
            Error::Poisoned(_) => Fault::Poisoned,
            Error::Bound(_) => Fault::Bound,
            Error::MissingData => Fault::MissingData,
            Error::Ed(_) => Fault::Ed,
        }
    }

    /// The text of this error; none where it carries hashes or nothing.
    pub open spec fn text(self) -> Seq<char> {
        match self {
            Error::Key(text) => text@,
            Error::BatchKey(text) => text@,
            Error::Tree(text) => text@,
            Error::PrunedNode(text) => text@,
            Error::Proof(text) => text@,
            Error::HashMismatch(_, _) => Seq::empty(),
            Error::Poisoned(text) => text@,
            Error::Bound(text) => text@,
            Error::MissingData => Seq::empty(),
            Error::Ed(text) => text@,
        }
    }

    /// The text of this error; none where it carries hashes or nothing.
    pub fn into_text(self) -> (r: String)
        ensures
            r@ == self.text(),
    {
        match self {
            Error::Key(text) => text,
            Error::BatchKey(text) => text,
            Error::Tree(text) => text,
            Error::PrunedNode(text) => text,
            Error::Proof(text) => text,
            Error::HashMismatch(_, _) => String::new(),
            Error::Poisoned(text) => text,
            Error::Bound(text) => text,
            Error::MissingData => String::new(),
            Error::Ed(text) => text,
        }
    }
}

} // verus!
