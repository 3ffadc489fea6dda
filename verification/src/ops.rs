//! Writes of sorted batches, and writes as mathematical values.

use vstd::prelude::*;

use crate::bits::{key_copy, key_lt};
use crate::mrt::order::lemma_key_lt_trans;
use crate::text::{shown, told, told_bytes, write_text};
use crate::tracer::{BatchOp, ReadOp, WriteOp};

verus! {

/// What a batch does at a key.
#[derive(PartialEq, Eq)]
pub enum Op {
    /// Stores a value under the key.
    Put(Vec<u8>),
    /// Removes the key.
    Delete,
    /// Removes the keys from the entry's key up to but not including this end.
    DeleteRange(Vec<u8>),
}

impl Clone for Op {
    fn clone(&self) -> (r: Self)
        ensures
            forall|key: Vec<u8>| #[trigger] entry_change((key, r)) == entry_change((key, *self)),
    {
        match self {
            Op::Put(value) => Op::Put(key_copy(value.as_slice())),
            Op::Delete => Op::Delete,
            Op::DeleteRange(end) => Op::DeleteRange(key_copy(end.as_slice())),
        }
    }
}

impl Op {
    /// What is printed for debugging: a line of its own.
    pub open spec fn debug_line(self) -> Seq<char> {
        match self {
            Op::Put(value) => "Put("@ + shown(value@) + ")\n"@,
            Op::Delete => "Delete\n"@,
            Op::DeleteRange(end) => "DeleteRange("@ + shown(end@) + ")\n"@,
        }
    }

    /// What is printed for debugging: a line of its own.
    pub fn debug_text(&self) -> (r: String)
        ensures
            r@ == self.debug_line(),
    {
        match self {
            Op::Put(value) => told_bytes("Put(", value.as_slice(), ")\n"),
            Op::Delete => told("Delete\n"),
            Op::DeleteRange(end) => told_bytes("DeleteRange(", end.as_slice(), ")\n"),
        }
    }
}

/// What is printed of a write names it, shows its bytes, and ends the line.
pub proof fn law_debug_line_shows_the_write(op: Op)
    ensures
        op.debug_line().last() == '\n',
        op matches Op::Put(value) ==> op.debug_line().take(4) == seq!['P', 'u', 't', '('] && op.debug_line().subrange(
            4,
            op.debug_line().len() - 2,
        ) == shown(value@) && op.debug_line()[op.debug_line().len() - 2] == ')',
        op matches Op::DeleteRange(end) ==> op.debug_line().take(12) == seq![
            'D', 'e', 'l', 'e', 't', 'e', 'R', 'a', 'n', 'g', 'e', '(',
        ] && op.debug_line().subrange(12, op.debug_line().len() - 2) == shown(end@) && op.debug_line()[op.debug_line().len()
            - 2] == ')',
        op is Delete ==> op.debug_line() == seq!['D', 'e', 'l', 'e', 't', 'e', '\n'],
{
    reveal_strlit("Put(");
    reveal_strlit("DeleteRange(");
    reveal_strlit("Delete\n");
    reveal_strlit(")\n");
    let line = op.debug_line();
    match op {
        Op::Put(value) => {
            assert(line.take(4) =~= seq!['P', 'u', 't', '(']);
            assert(line.subrange(4, line.len() - 2) =~= shown(value@));
        },
        Op::DeleteRange(end) => {
            assert(line.take(12) =~= seq!['D', 'e', 'l', 'e', 't', 'e', 'R', 'a', 'n', 'g', 'e', '(']);
            assert(line.subrange(12, line.len() - 2) =~= shown(end@));
        },
        Op::Delete => {
            assert(line =~= seq!['D', 'e', 'l', 'e', 't', 'e', '\n']);
        },
    }
}

impl std::fmt::Debug for Op {
    fn fmt(&self, f: &mut std::fmt::Formatter<'_>) -> (r: Result<(), std::fmt::Error>) {
        let line = self.debug_text();
        write_text(f, line.as_str())
    }
}

/// A key, and what is done there.
pub type BatchEntry = (Vec<u8>, Op);

/// A batch. Its keys must be sorted, and unique but for a single entry after a
/// range removal that starts at the same key.
pub type Batch = [BatchEntry];

/// A write, as a value.
pub enum Change {
    Put { key: Seq<u8>, value: Seq<u8> },
    Delete { key: Seq<u8> },
    DeleteRange { start: Seq<u8>, end: Seq<u8> },
    DeletePrefix { prefix: Seq<u8> },
    MovePrefix { from: Seq<u8>, to: Seq<u8> },
}

/// A read, as a value.
pub enum Lookup {
    Key(Seq<u8>),
    Range { start: Seq<u8>, end: Seq<u8> },
    RangeInclusive { start: Seq<u8>, end: Seq<u8> },
    Prefix(Seq<u8>),
}

impl View for WriteOp {
    type V = Change;

    open spec fn view(&self) -> Change {
        match *self {
            WriteOp::Put { key, value } => Change::Put { key: key@, value: value@ },
            WriteOp::Delete { key } => Change::Delete { key: key@ },
            WriteOp::DeleteRange { start, end } => Change::DeleteRange { start: start@, end: end@ },
            WriteOp::DeletePrefix { prefix } => Change::DeletePrefix { prefix: prefix@ },
            WriteOp::MovePrefix { from, to } => Change::MovePrefix { from: from@, to: to@ },
        }
    }
}

impl View for BatchOp {
    type V = Change;

    open spec fn view(&self) -> Change {
        match *self {
            BatchOp::Put { key, value } => Change::Put { key: key@, value: value@ },
            BatchOp::Delete { key } => Change::Delete { key: key@ },
            BatchOp::DeleteRange { start, end } => Change::DeleteRange { start: start@, end: end@ },
        }
    }
}

impl View for ReadOp {
    type V = Lookup;

    open spec fn view(&self) -> Lookup {
        match *self {
            ReadOp::Key(key) => Lookup::Key(key@),
            ReadOp::Range { start, end } => Lookup::Range { start: start@, end: end@ },
            ReadOp::Prefix(prefix) => Lookup::Prefix(prefix@),
        }
    }
}

/// The write that a batch entry stands for.
pub open spec fn entry_change(e: BatchEntry) -> Change {
    match e.1 {
        Op::Put(value) => Change::Put { key: e.0@, value: value@ },
        Op::Delete => Change::Delete { key: e.0@ },
        Op::DeleteRange(end) => Change::DeleteRange { start: e.0@, end: end@ },
    }
}

/// The writes of a batch.
pub open spec fn batch_changes(batch: Seq<BatchEntry>) -> Seq<Change> {
    batch.map_values(|e: BatchEntry| entry_change(e))
}

/// The writes of a list of operations.
pub open spec fn write_changes(ops: Seq<WriteOp>) -> Seq<Change> {
    ops.map_values(|op: WriteOp| op@)
}

/// The writes of a list of batch operations.
pub open spec fn batch_op_changes(ops: Seq<BatchOp>) -> Seq<Change> {
    ops.map_values(|op: BatchOp| op@)
}

impl Change {
    /// The key by which batches are sorted.
    pub open spec fn sort_key(self) -> Seq<u8> {
        match self {
            Change::Put { key, value } => key,
            Change::Delete { key } => key,
            Change::DeleteRange { start, end } => start,
            Change::DeletePrefix { prefix } => prefix,
            Change::MovePrefix { from, to } => from,
        }
    }

    /// Whether the keys of a batch entry are acceptable.
    pub open spec fn fits_batch(self, max_len: nat) -> bool {
        &&& self.sort_key().len() <= max_len
        &&& self matches Change::DeleteRange { start, end } ==> end.len() <= max_len && key_lt(start, end)
    }

    /// Whether `next` may come right after this entry.
    pub open spec fn precedes(self, next: Change) -> bool {
        ||| key_lt(self.sort_key(), next.sort_key())
        ||| self.sort_key() == next.sort_key() && self is DeleteRange && !(next is DeleteRange)
    }
}

/// Whether a batch is well formed.
pub open spec fn batch_ordered(changes: Seq<Change>, max_len: nat) -> bool {
    &&& forall|i: int| 0 <= i < changes.len() ==> (#[trigger] changes[i]).fits_batch(max_len)
    &&& forall|i: int, j: int|
        #![trigger changes[i], changes[j]]
        0 <= i && j == i + 1 && j < changes.len() ==> changes[i].precedes(changes[j])
}

/// A batch that is cut in two makes two batches, and two batches make one if the last
/// entry of the first may come before the first entry of the second.
pub proof fn law_batch_parts(a: Seq<Change>, b: Seq<Change>, max_len: nat)
    ensures
        batch_ordered(a + b, max_len) <==> batch_ordered(a, max_len) && batch_ordered(b, max_len) && (a.len() > 0 && b.len()
            > 0 ==> a.last().precedes(b[0])),
{
    let c = a + b;
    let n = a.len() as int;
    if batch_ordered(c, max_len) {
        assert forall|i: int| 0 <= i < a.len() implies (#[trigger] a[i]).fits_batch(max_len) by {
            assert(c[i] == a[i]);
        }
        assert forall|i: int| 0 <= i < b.len() implies (#[trigger] b[i]).fits_batch(max_len) by {
            assert(c[n + i] == b[i]);
        }
        assert forall|i: int, j: int|
            #![trigger a[i], a[j]]
            0 <= i && j == i + 1 && j < a.len() implies a[i].precedes(a[j]) by {
            assert(c[i] == a[i] && c[j] == a[j]);
        }
        assert forall|i: int, j: int|
            #![trigger b[i], b[j]]
            0 <= i && j == i + 1 && j < b.len() implies b[i].precedes(b[j]) by {
            assert(c[n + i] == b[i] && c[n + j] == b[j]);
        }
        if a.len() > 0 && b.len() > 0 {
            assert(c[n - 1] == a.last() && c[n] == b[0]);
        }
    }
    if batch_ordered(a, max_len) && batch_ordered(b, max_len) && (a.len() > 0 && b.len() > 0 ==> a.last().precedes(b[0])) {
        assert forall|i: int| 0 <= i < c.len() implies (#[trigger] c[i]).fits_batch(max_len) by {
            assert(c[i] == if i < n {
                a[i]
            } else {
                b[i - n]
            });
        }
        assert forall|i: int, j: int|
            #![trigger c[i], c[j]]
            0 <= i && j == i + 1 && j < c.len() implies c[i].precedes(c[j]) by {
            if j < n {
                assert(c[i] == a[i] && c[j] == a[j]);
            } else if i >= n {
                assert(c[i] == b[i - n] && c[j] == b[j - n]);
            } else {
                assert(c[i] == a.last() && c[j] == b[0]);
            }
        }
    }
}

/// An entry alone is a batch if its keys are not too long and, if it removes a range,
/// the range has a key at all.
pub proof fn law_batch_of_one(c: Change, max_len: nat)
    ensures
        batch_ordered(seq![c], max_len) <==> (match c {
            Change::Put { key, value } => key.len() <= max_len,
            Change::Delete { key } => key.len() <= max_len,
            Change::DeleteRange { start, end } => start.len() <= max_len && end.len() <= max_len && key_lt(start, end),
            Change::DeletePrefix { prefix } => prefix.len() <= max_len,
            Change::MovePrefix { from, to } => from.len() <= max_len,
        }),
        batch_ordered(Seq::empty(), max_len),
{
    assert(seq![c][0] == c);
}

/// Of two entries of a batch the later one does not have the lesser key. They have
/// the same key only if the first removes a range and the second, right behind it,
/// does not.
pub proof fn law_batch_keys_rise(changes: Seq<Change>, max_len: nat, i: int, j: int)
    requires
        batch_ordered(changes, max_len),
        0 <= i < j < changes.len(),
    ensures
        key_lt(changes[i].sort_key(), changes[j].sort_key()) || (changes[i].sort_key() == changes[j].sort_key() && j == i + 1
            && changes[i] is DeleteRange && !(changes[j] is DeleteRange)),
    decreases j - i,
{
    assert(changes[j - 1].precedes(changes[j]));
    if i < j - 1 {
        law_batch_keys_rise(changes, max_len, i, j - 1);
        let (a, b, c) = (changes[i].sort_key(), changes[j - 1].sort_key(), changes[j].sort_key());
        if key_lt(a, b) && key_lt(b, c) {
            lemma_key_lt_trans(a, b, c);
        }
    }
}

/// Puts and removals of keys that rise and are not too long are a batch.
pub proof fn law_rising_keys_are_a_batch(changes: Seq<Change>, max_len: nat)
    requires
        forall|i: int| 0 <= i < changes.len() ==> (#[trigger] changes[i]) is Put || changes[i] is Delete,
        forall|i: int| 0 <= i < changes.len() ==> (#[trigger] changes[i]).sort_key().len() <= max_len,
        forall|i: int, j: int|
            0 <= i < j < changes.len() ==> key_lt((#[trigger] changes[i]).sort_key(), (#[trigger] changes[j]).sort_key()),
    ensures
        batch_ordered(changes, max_len),
{
}

/// The writes of lists that are put together are those of the first and then those of
/// the second; each entry stands for the write that it names.
pub proof fn law_changes_of_parts(
    a: Seq<BatchEntry>,
    b: Seq<BatchEntry>,
    c: Seq<WriteOp>,
    d: Seq<WriteOp>,
    e: Seq<BatchOp>,
    f: Seq<BatchOp>,
)
    ensures
        batch_changes(a + b) == batch_changes(a) + batch_changes(b),
        a.len() == 1 ==> batch_changes(a) == seq![entry_change(a[0])],
        write_changes(c + d) == write_changes(c) + write_changes(d),
        c.len() == 1 ==> write_changes(c) == seq![c[0]@],
        batch_op_changes(e + f) == batch_op_changes(e) + batch_op_changes(f),
        e.len() == 1 ==> batch_op_changes(e) == seq![e[0]@],
{
    assert(batch_changes(a + b) =~= batch_changes(a) + batch_changes(b));
    assert(write_changes(c + d) =~= write_changes(c) + write_changes(d));
    assert(batch_op_changes(e + f) =~= batch_op_changes(e) + batch_op_changes(f));
    assert(a.len() == 1 ==> batch_changes(a) =~= seq![entry_change(a[0])]);
    assert(c.len() == 1 ==> write_changes(c) =~= seq![c[0]@]);
    assert(e.len() == 1 ==> batch_op_changes(e) =~= seq![e[0]@]);
}

} // verus!
