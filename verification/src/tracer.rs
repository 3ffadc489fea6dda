//! Reads and writes as values, and the bounds of a prefix.

use vstd::prelude::*;

use crate::bits::{key_copy, key_lt};
use crate::error::Error;
use crate::mrt::cursor::{read_prefix, read_range};
use crate::mrt::model::Trie;
use crate::mrt::session::{applied, listed, told};
use crate::mrt::tree::find_root;
use crate::ops::{write_changes, Change};

verus! {

/// A read.
#[derive(Debug, PartialEq, Eq)]
pub enum ReadOp {
    /// The value under a key.
    Key(Vec<u8>),
    /// The entries from `start` up to but not including `end`.
    Range { start: Vec<u8>, end: Vec<u8> },
    /// The entries whose keys begin with a prefix.
    Prefix(Vec<u8>),
}

/// A write.
#[derive(Debug, PartialEq, Eq)]
pub enum WriteOp {
    /// Stores `value` under `key`.
    Put { key: Vec<u8>, value: Vec<u8> },
    /// Removes `key`.
    Delete { key: Vec<u8> },
    /// Removes the keys from `start` up to but not including `end`.
    DeleteRange { start: Vec<u8>, end: Vec<u8> },
    /// Removes the keys that begin with `prefix`.
    DeletePrefix { prefix: Vec<u8> },
    /// Renames every key that begins with `from` to begin with `to`.
    MovePrefix { from: Vec<u8>, to: Vec<u8> },
}

/// A write of a sorted batch.
#[derive(Debug, PartialEq, Eq)]
pub enum BatchOp {
    /// Stores `value` under `key`.
    Put { key: Vec<u8>, value: Vec<u8> },
    /// Removes `key`.
    Delete { key: Vec<u8> },
    /// Removes the keys from `start` up to but not including `end`.
    DeleteRange { start: Vec<u8>, end: Vec<u8> },
}

impl Clone for ReadOp {
    fn clone(&self) -> (r: Self)
        ensures
            r@ == self@,
    {
        match self {
            ReadOp::Key(key) => ReadOp::Key(key_copy(key.as_slice())),
            ReadOp::Range { start, end } => ReadOp::Range {
                start: key_copy(start.as_slice()),
                end: key_copy(end.as_slice()),
            },
            ReadOp::Prefix(prefix) => ReadOp::Prefix(key_copy(prefix.as_slice())),
        }
    }
}

impl Clone for WriteOp {
    fn clone(&self) -> (r: Self)
        ensures
            r@ == self@,
    {
        match self {
            WriteOp::Put { key, value } => WriteOp::Put {
                key: key_copy(key.as_slice()),
                value: key_copy(value.as_slice()),
            },
            WriteOp::Delete { key } => WriteOp::Delete { key: key_copy(key.as_slice()) },
            WriteOp::DeleteRange { start, end } => WriteOp::DeleteRange {
                start: key_copy(start.as_slice()),
                end: key_copy(end.as_slice()),
            },
            WriteOp::DeletePrefix { prefix } => WriteOp::DeletePrefix { prefix: key_copy(prefix.as_slice()) },
            WriteOp::MovePrefix { from, to } => WriteOp::MovePrefix {
                from: key_copy(from.as_slice()),
                to: key_copy(to.as_slice()),
            },
        }
    }
}

impl Clone for BatchOp {
    fn clone(&self) -> (r: Self)
        ensures
            r@ == self@,
    {
        match self {
            BatchOp::Put { key, value } => BatchOp::Put {
                key: key_copy(key.as_slice()),
                value: key_copy(value.as_slice()),
            },
            BatchOp::Delete { key } => BatchOp::Delete { key: key_copy(key.as_slice()) },
            BatchOp::DeleteRange { start, end } => BatchOp::DeleteRange {
                start: key_copy(start.as_slice()),
                end: key_copy(end.as_slice()),
            },
        }
    }
}

impl BatchOp {
    /// The key by which batches are sorted, as a value.
    pub open spec fn sort_key(self) -> Seq<u8> {
        match self {
            BatchOp::Put { key, value } => key@,
            BatchOp::Delete { key } => key@,
            BatchOp::DeleteRange { start, end } => start@,
        }
    }

    /// The key by which batches are sorted.
    pub fn key(&self) -> (key: &[u8])
        ensures
            key@ == self.sort_key(),
    {
        match self {
            BatchOp::Put { key, value } => key.as_slice(),
            BatchOp::Delete { key } => key.as_slice(),
            BatchOp::DeleteRange { start, end } => start.as_slice(),
        }
    }
}

impl WriteOp {
    /// This write as one of a sorted batch, if it can be one.
    pub fn as_batch_op(&self) -> (r: Option<BatchOp>)
        ensures
            match r {
                Some(op) => op@ == self@,
                None => self@ is DeletePrefix || self@ is MovePrefix,
            },
    {
        match self {
            WriteOp::Put { key, value } => Some(
                BatchOp::Put { key: key_copy(key.as_slice()), value: key_copy(value.as_slice()) },
            ),
            WriteOp::Delete { key } => Some(BatchOp::Delete { key: key_copy(key.as_slice()) }),
            WriteOp::DeleteRange { start, end } => Some(
                BatchOp::DeleteRange { start: key_copy(start.as_slice()), end: key_copy(end.as_slice()) },
            ),
            _ => None,
        }
    }
}

/// The least key after all keys that begin with `p`, if there is one.
pub open spec fn successor(p: Seq<u8>) -> Option<Seq<u8>>
    decreases p.len(),
{
    if p.len() == 0 {
        None
    } else {
        match successor(p.skip(1)) {
            Some(t) => Some(seq![p[0]] + t),
            None => if p[0] == 255 {
                None
            } else {
                Some(seq![(p[0] + 1) as u8])
            },
        }
    }
}

/// A key begins with `p` just if it lies from `p` on and before its successor.
pub proof fn lemma_prefix_range(p: Seq<u8>, k: Seq<u8>)
    ensures
        p.is_prefix_of(k) <==> !key_lt(k, p) && (successor(p) matches Some(s) ==> key_lt(k, s)),
    decreases p.len(),
{
    if p.len() > 0 && k.len() > 0 {
        let p1 = p.skip(1);
        let k1 = k.skip(1);
        lemma_prefix_range(p1, k1);
        if p.is_prefix_of(k) {
            assert(p[0] == k.subrange(0, p.len() as int)[0]);
            assert(p1 =~= k1.subrange(0, p1.len() as int));
        }
        if p[0] == k[0] && p1.is_prefix_of(k1) {
            assert(p =~= k.subrange(0, p.len() as int)) by {
                assert forall|i: int| 0 <= i < p.len() implies p[i] == k[i] by {
                    if i > 0 {
                        assert(p[i] == p1[i - 1] && k[i] == k1[i - 1]);
                        assert(p1[i - 1] == k1.subrange(0, p1.len() as int)[i - 1]);
                    }
                }
            }
        }
        match successor(p1) {
            Some(t) => {
                let s = seq![p[0]] + t;
                assert(s.skip(1) =~= t);
            },
            None => {
                if p[0] < 255 {
                    let s = seq![(p[0] + 1) as u8];
                    assert(s.skip(1) =~= Seq::empty());
                    assert(!key_lt(k1, s.skip(1)));
                }
            },
        }
    } else if p.len() == 0 {
        assert(p =~= k.subrange(0, 0));
    }
}

/// The successor, by the last byte that can grow.
proof fn lemma_successor_at(p: Seq<u8>, i: int)
    requires
        -1 <= i < p.len(),
        forall|j: int| i < j < p.len() ==> p[j] == 255,
        i >= 0 ==> p[i] < 255,
    ensures
        successor(p) == (if i >= 0 {
            Some(p.take(i).push((p[i] + 1) as u8))
        } else {
            None
        }),
    decreases p.len(),
{
    if p.len() > 0 {
        let p1 = p.skip(1);
        let j = if i >= 1 {
            i - 1
        } else {
            -1
        };
        assert forall|m: int| j < m < p1.len() implies p1[m] == 255 by {
            assert(p1[m] == p[m + 1]);
        }
        lemma_successor_at(p1, j);
        if i >= 1 {
            assert(seq![p[0]] + p1.take(i - 1).push((p[i] + 1) as u8) =~= p.take(i).push((p[i] + 1) as u8));
        } else if i == 0 {
            assert(seq![(p[0] + 1) as u8] =~= p.take(0).push((p[0] + 1) as u8));
        }
    }
}

/// The least key after all keys that begin with `prefix`; `None` if there is
/// none, as `prefix` is empty or holds no byte but `0xff`.
pub fn prefix_successor(prefix: &[u8]) -> (r: Option<Vec<u8>>)
    ensures
        match r {
            Some(s) => successor(prefix@) == Some(s@) && s@.len() <= prefix@.len(),
            None => successor(prefix@) is None,
        },
{
    let mut n: usize = prefix.len();
    while n > 0 && prefix[n - 1] == 255
        invariant
            n <= prefix@.len(),
            forall|j: int| n <= j < prefix@.len() ==> prefix@[j] == 255,
        decreases n,
    {
        n = n - 1;
    }
    proof {
        lemma_successor_at(prefix@, n - 1);
    }
    if n == 0 {
        return None;
    }
    let mut s: Vec<u8> = Vec::new();
    let mut i: usize = 0;
    while i < n - 1
        invariant
            i <= n - 1,
            1 <= n <= prefix@.len(),
            s@ == prefix@.take(i as int),
        decreases n - i,
    {
        s.push(prefix[i]);
        proof {
            assert(prefix@.take(i + 1) =~= prefix@.take(i as int).push(prefix@[i as int]));
        }
        i = i + 1;
    }
    s.push(prefix[n - 1] + 1);
    Some(s)
}

/// Reads through a handle. Once a write through it has failed, it refuses all
/// further use.
pub trait TraceReader {
    /// Whether no write has failed.
    spec fn live(&self) -> bool;

    /// The trie as the writes so far have left it.
    spec fn current(&self) -> Option<Trie>;

    /// The value under `key`.
    fn get(&mut self, key: &[u8]) -> (r: Result<Option<Vec<u8>>, Error>)
        ensures
            final(self).live() == old(self).live(),
            final(self).current() == old(self).current(),
            told(old(self).live(), r, find_root(old(self).current(), key@)),
    ;

    /// The entries from `start` up to but not including `end`.
    fn get_range(&mut self, start: &[u8], end: &[u8]) -> (r: Result<Vec<(Vec<u8>, Vec<u8>)>, Error>)
        ensures
            final(self).live() == old(self).live(),
            final(self).current() == old(self).current(),
            listed(old(self).live(), r, read_range(old(self).current(), start@, Some(end@))),
    ;

    /// The entries whose keys begin with `prefix`.
    fn get_prefix(&mut self, prefix: &[u8]) -> (r: Result<Vec<(Vec<u8>, Vec<u8>)>, Error>)
        ensures
            final(self).live() == old(self).live(),
            final(self).current() == old(self).current(),
            listed(old(self).live(), r, read_prefix(old(self).current(), prefix@)),
    ;
}

/// Reads and writes through a handle.
pub trait TraceInterface: TraceReader {
    /// Does writes one after the other, in the order given. The first that
    /// fails ends it, and leaves the handle dead.
    fn apply(&mut self, ops: &[WriteOp]) -> (r: Result<(), Error>)
        ensures
            applied(
                r,
                old(self).live(),
                old(self).current(),
                final(self).live(),
                final(self).current(),
                write_changes(ops@),
            ),
    ;

    /// A single write.
    fn apply_one(&mut self, op: WriteOp) -> (r: Result<(), Error>)
        ensures
            applied(r, old(self).live(), old(self).current(), final(self).live(), final(self).current(), seq![op@]),
    {
        let mut ops: Vec<WriteOp> = Vec::new();
        ops.push(op);
        assert(write_changes(ops@) =~= seq![op@]);
        self.apply(ops.as_slice())
    }

    /// Stores `value` under `key`.
    fn put(&mut self, key: &[u8], value: &[u8]) -> (r: Result<(), Error>)
        ensures
            applied(
                r,
                old(self).live(),
                old(self).current(),
                final(self).live(),
                final(self).current(),
                seq![Change::Put { key: key@, value: value@ }],
            ),
    {
        self.apply_one(WriteOp::Put { key: key_copy(key), value: key_copy(value) })
    }

    /// Removes `key`; it need not be stored.
    fn delete(&mut self, key: &[u8]) -> (r: Result<(), Error>)
        ensures
            applied(
                r,
                old(self).live(),
                old(self).current(),
                final(self).live(),
                final(self).current(),
                seq![Change::Delete { key: key@ }],
            ),
    {
        self.apply_one(WriteOp::Delete { key: key_copy(key) })
    }

    /// Removes the keys from `start` up to but not including `end`.
    fn delete_range(&mut self, start: &[u8], end: &[u8]) -> (r: Result<(), Error>)
        ensures
            applied(
                r,
                old(self).live(),
                old(self).current(),
                final(self).live(),
                final(self).current(),
                seq![Change::DeleteRange { start: start@, end: end@ }],
            ),
    {
        self.apply_one(WriteOp::DeleteRange { start: key_copy(start), end: key_copy(end) })
    }

    /// Removes the keys that begin with `prefix`.
    fn delete_prefix(&mut self, prefix: &[u8]) -> (r: Result<(), Error>)
        ensures
            applied(
                r,
                old(self).live(),
                old(self).current(),
                final(self).live(),
                final(self).current(),
                seq![Change::DeletePrefix { prefix: prefix@ }],
            ),
    {
        self.apply_one(WriteOp::DeletePrefix { prefix: key_copy(prefix) })
    }

    /// Renames every key that begins with `from` to begin with `to`.
    fn move_prefix(&mut self, from: &[u8], to: &[u8]) -> (r: Result<(), Error>)
        ensures
            applied(
                r,
                old(self).live(),
                old(self).current(),
                final(self).live(),
                final(self).current(),
                seq![Change::MovePrefix { from: from@, to: to@ }],
            ),
    {
        self.apply_one(WriteOp::MovePrefix { from: key_copy(from), to: key_copy(to) })
    }
}

} // verus!
