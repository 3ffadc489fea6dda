//! A store over a trie, its checkpoints, and the writes it takes.

use std::sync::Arc;

use vstd::prelude::*;

use crate::bits::{key_copy, key_less, key_lt, key_same};
use crate::error::{Error, Fault};
use crate::hash::{NodeHash, NULL_HASH};
use crate::mrt::cursor;
use crate::mrt::iter::{Iter, ReverseIter};
use crate::mrt::keys::{contents, cut_prefix_root, key_between, keys_clash, lemma_cut_contents, lemma_cut_prefix_contents,
    lemma_find_contents, lemma_insert_contents, lemma_key_len, lemma_move_contents, lemma_remove_contents, move_allowed,
    moved, sound};
use crate::mrt::model::Trie;
use crate::mrt::node::{root_trie, share, MrtNodeInner};
use crate::mrt::order::{law_prefix_lists_store, law_range_lists_store, lemma_key_lt_total, lists, part};
use crate::mrt::prefix::{move_prefix, move_root, move_text, Voice};
use crate::mrt::query_proof::{may_ask, normalized, prove_from_snapshot, proved};
use crate::mrt::route::{long_key_text, prefix_free_text, validate_key_len, MAX_KEY_LEN};
use crate::mrt::scan::rows_view;
use crate::mrt::tree::{cut_root, delete, delete_prefix, delete_range, find_root, get, insert, insert_root, insert_text,
    point_text, range_text, remove_root, root_ref};
use crate::ops::{batch_changes, batch_op_changes, batch_ordered, entry_change, law_batch_parts, write_changes, Batch,
    BatchEntry, Change, Op};
use crate::proofs::query::{parts, QueryItem};
use crate::text::{decimal, told, told_numbers, told_with};
use crate::tracer::{BatchOp, WriteOp};

verus! {

/// What looking up a key gave.
#[derive(Debug, PartialEq, Eq)]
pub enum GetResult {
    /// The value under the key.
    Found(Vec<u8>),
    /// The key is not stored.
    NotFound,
}

impl Clone for GetResult {
    fn clone(&self) -> (r: Self)
        ensures
            match (*self, r) {
                (GetResult::Found(a), GetResult::Found(b)) => b@ == a@,
                (GetResult::NotFound, GetResult::NotFound) => true,
                _ => false,
            },
    {
        match self {
            GetResult::Found(value) => GetResult::Found(key_copy(value.as_slice())),
            GetResult::NotFound => GetResult::NotFound,
        }
    }
}

/// What a write makes of a trie that may be empty.
pub open spec fn apply_change(root: Option<Trie>, c: Change, strict: bool) -> Result<Option<Trie>, Fault> {
    match c {
        Change::Put { key, value } => match insert_root(root, key, value) {
            Ok(t) => Ok(Some(t)),
            Err(f) => Err(f),
        },
        Change::Delete { key } => match remove_root(root, key) {
            Ok(Some(t)) => Ok(t),
            Ok(None) => Ok(root),
            Err(f) => Err(f),
        },
        Change::DeleteRange { start, end } => cut_root(root, start, end),
        Change::DeletePrefix { prefix } => cut_prefix_root(root, prefix),
        Change::MovePrefix { from, to } => match move_root(root, from, to, strict) {
            Ok(t) => Ok(Some(t)),
            Err(f) => Err(f),
        },
    }
}

/// What a list of writes, done one after the other, makes of a trie that may be empty.
pub open spec fn apply_changes(root: Option<Trie>, cs: Seq<Change>, strict: bool) -> Result<Option<Trie>, Fault>
    decreases cs.len(),
{
    if cs.len() == 0 {
        Ok(root)
    } else {
        match apply_changes(root, cs.drop_last(), strict) {
            Ok(t) => apply_change(t, cs.last(), strict),
            Err(f) => Err(f),
        }
    }
}

/// What a write makes of what is stored; `None` if it is refused.
pub open spec fn store_change(m: Map<Seq<u8>, Seq<u8>>, c: Change) -> Option<Map<Seq<u8>, Seq<u8>>> {
    match c {
        Change::Put { key, value } => if key.len() <= MAX_KEY_LEN && forall|k: Seq<u8>| #[trigger]
            m.dom().contains(k) ==> !keys_clash(k, key) {
            Some(m.insert(key, value))
        } else {
            None
        },
        Change::Delete { key } => if key.len() <= MAX_KEY_LEN {
            Some(m.remove(key))
        } else {
            None
        },
        Change::DeleteRange { start, end } => if start.len() <= MAX_KEY_LEN && end.len() <= MAX_KEY_LEN && key_lt(
            start,
            end,
        ) {
            Some(m.remove_keys(Set::new(|k: Seq<u8>| !key_lt(k, start) && key_lt(k, end))))
        } else {
            None
        },
        Change::DeletePrefix { prefix } => if prefix.len() <= MAX_KEY_LEN {
            Some(m.remove_keys(Set::new(|k: Seq<u8>| prefix.is_prefix_of(k))))
        } else {
            None
        },
        Change::MovePrefix { from, to } => if move_allowed(m, from, to) {
            Some(moved(m, from, to))
        } else {
            None
        },
    }
}

/// What a list of writes makes of what is stored; `None` if one of them is refused.
pub open spec fn store_changes(m: Map<Seq<u8>, Seq<u8>>, cs: Seq<Change>) -> Option<Map<Seq<u8>, Seq<u8>>>
    decreases cs.len(),
{
    if cs.len() == 0 {
        Some(m)
    } else {
        match store_changes(m, cs.drop_last()) {
            Some(m2) => store_change(m2, cs.last()),
            None => None,
        }
    }
}

/// A write does to what a trie stores what it does to the store; a refused one is refused by both.
pub proof fn law_change_acts_on_contents(root: Option<Trie>, c: Change, strict: bool)
    requires
        sound(root),
    ensures
        match apply_change(root, c, strict) {
            Ok(t) => sound(t) && store_change(contents(root), c) == Some(contents(t)),
            Err(f) => f == Fault::Key && store_change(contents(root), c) is None,
        },
{
    match c {
        Change::Put { key, value } => {
            lemma_insert_contents(root, key, value);
        },
        Change::Delete { key } => {
            lemma_remove_contents(root, key);
            assert(!contents(root).dom().contains(key) ==> contents(root) =~= contents(root).remove(key));
        },
        Change::DeleteRange { start, end } => {
            lemma_cut_contents(root, start, end);
        },
        Change::DeletePrefix { prefix } => {
            lemma_cut_prefix_contents(root, prefix);
        },
        Change::MovePrefix { from, to } => {
            lemma_move_contents(root, from, to, strict);
        },
    }
}

/// As [`law_change_acts_on_contents`], for a list of writes.
pub proof fn law_changes_act_on_contents(root: Option<Trie>, cs: Seq<Change>, strict: bool)
    requires
        sound(root),
    ensures
        match apply_changes(root, cs, strict) {
            Ok(t) => sound(t) && store_changes(contents(root), cs) == Some(contents(t)),
            Err(f) => f == Fault::Key && store_changes(contents(root), cs) is None,
        },
    decreases cs.len(),
{
    if cs.len() > 0 {
        law_changes_act_on_contents(root, cs.drop_last(), strict);
        if let Ok(t) = apply_changes(root, cs.drop_last(), strict) {
            law_change_acts_on_contents(t, cs.last(), strict);
        }
    }
}

/// Writes in two parts: what the second part makes of what the first part made.
/// So it makes no difference in how many batches writes are done, as long as none
/// of them is refused.
pub proof fn law_changes_split(root: Option<Trie>, a: Seq<Change>, b: Seq<Change>, strict: bool)
    ensures
        apply_changes(root, a + b, strict) == (match apply_changes(root, a, strict) {
            Ok(t) => apply_changes(t, b, strict),
            Err(f) => Err(f),
        }),
        b.len() == 0 ==> apply_changes(root, b, strict) == Ok::<Option<Trie>, Fault>(root),
        b.len() == 1 ==> apply_changes(root, b, strict) == apply_change(root, b[0], strict),
    decreases b.len(),
{
    if b.len() == 0 {
        assert(a + b =~= a);
    } else {
        assert((a + b).drop_last() =~= a + b.drop_last());
        assert((a + b).last() == b.last());
        law_changes_split(root, a, b.drop_last(), strict);
        if b.len() == 1 {
            assert(apply_changes(root, b.drop_last(), strict) == Ok::<Option<Trie>, Fault>(root));
        }
    }
}

/// As [`law_changes_split`], for what is stored.
pub proof fn law_store_changes_split(m: Map<Seq<u8>, Seq<u8>>, a: Seq<Change>, b: Seq<Change>)
    ensures
        store_changes(m, a + b) == (match store_changes(m, a) {
            Some(m2) => store_changes(m2, b),
            None => None,
        }),
        b.len() == 0 ==> store_changes(m, b) == Some(m),
        b.len() == 1 ==> store_changes(m, b) == store_change(m, b[0]),
    decreases b.len(),
{
    if b.len() == 0 {
        assert(a + b =~= a);
    } else {
        assert((a + b).drop_last() =~= a + b.drop_last());
        assert((a + b).last() == b.last());
        law_store_changes_split(m, a, b.drop_last());
        if b.len() == 1 {
            assert(store_changes(m, b.drop_last()) == Some(m));
        }
    }
}

/// A value is stored unless the key is too long, or it is a part of a stored key or
/// a stored key a part of it, from the beginning on. Then the key has the value, and
/// every other key has what it had.
pub proof fn law_put_stores(root: Option<Trie>, key: Seq<u8>, value: Seq<u8>, strict: bool)
    requires
        sound(root),
    ensures
        apply_change(root, Change::Put { key, value }, strict) is Ok <==> key.len() <= MAX_KEY_LEN && forall|k: Seq<u8>|
            #[trigger] contents(root).dom().contains(k) && k != key ==> !k.is_prefix_of(key) && !key.is_prefix_of(k),
        apply_change(root, Change::Put { key, value }, strict) matches Ok(t) ==> sound(t) && forall|k: Seq<u8>|
            #[trigger] entry_of(contents(t), k) == (if k == key {
                Some(value)
            } else {
                entry_of(contents(root), k)
            }),
{
    law_change_acts_on_contents(root, Change::Put { key, value }, strict);
}

/// A key that is not too long can be removed. Then it has no value, and every other
/// key has what it had.
pub proof fn law_delete_removes(root: Option<Trie>, key: Seq<u8>, strict: bool)
    requires
        sound(root),
    ensures
        apply_change(root, Change::Delete { key }, strict) is Ok <==> key.len() <= MAX_KEY_LEN,
        apply_change(root, Change::Delete { key }, strict) matches Ok(t) ==> sound(t) && forall|k: Seq<u8>|
            #[trigger] entry_of(contents(t), k) == (if k == key {
                None
            } else {
                entry_of(contents(root), k)
            }),
{
    law_change_acts_on_contents(root, Change::Delete { key }, strict);
}

/// A range can be removed if it has a key at all and its bounds are not too long.
/// Then the keys from `start` up to but not including `end` have no value, and every
/// other key has what it had.
pub proof fn law_delete_range_removes(root: Option<Trie>, start: Seq<u8>, end: Seq<u8>, strict: bool)
    requires
        sound(root),
    ensures
        apply_change(root, Change::DeleteRange { start, end }, strict) is Ok <==> start.len() <= MAX_KEY_LEN && end.len()
            <= MAX_KEY_LEN && key_lt(start, end),
        apply_change(root, Change::DeleteRange { start, end }, strict) matches Ok(t) ==> sound(t) && forall|k: Seq<u8>|
            #[trigger] entry_of(contents(t), k) == (if (key_lt(start, k) || k == start) && key_lt(k, end) {
                None
            } else {
                entry_of(contents(root), k)
            }),
{
    law_change_acts_on_contents(root, Change::DeleteRange { start, end }, strict);
    assert forall|k: Seq<u8>| #[trigger] key_lt(k, start) <==> !(key_lt(start, k) || k == start) by {
        lemma_key_lt_total(k, start);
    }
}

/// The keys that begin with a prefix can be removed if it is not too long. Then these
/// keys have no value, and every other key has what it had.
pub proof fn law_delete_prefix_removes(root: Option<Trie>, prefix: Seq<u8>, strict: bool)
    requires
        sound(root),
    ensures
        apply_change(root, Change::DeletePrefix { prefix }, strict) is Ok <==> prefix.len() <= MAX_KEY_LEN,
        apply_change(root, Change::DeletePrefix { prefix }, strict) matches Ok(t) ==> sound(t) && forall|k: Seq<u8>|
            #[trigger] entry_of(contents(t), k) == (if prefix.is_prefix_of(k) {
                None
            } else {
                entry_of(contents(root), k)
            }),
{
    law_change_acts_on_contents(root, Change::DeletePrefix { prefix }, strict);
}

/// A move that goes through gives each key under the new prefix what the key with the
/// same rest had under the old one. No other key under either prefix has a value, and
/// every key under neither has what it had.
pub proof fn law_move_renames(root: Option<Trie>, from: Seq<u8>, to: Seq<u8>, strict: bool, rest: Seq<u8>, k: Seq<u8>)
    requires
        sound(root),
        apply_change(root, Change::MovePrefix { from, to }, strict) is Ok,
    ensures
        ({
            let t = apply_change(root, Change::MovePrefix { from, to }, strict)->Ok_0;
            &&& sound(t)
            &&& entry_of(contents(t), to + rest) == entry_of(contents(root), from + rest)
            &&& from.is_prefix_of(k) && !to.is_prefix_of(k) ==> entry_of(contents(t), k) is None
            &&& !from.is_prefix_of(k) && !to.is_prefix_of(k) ==> entry_of(contents(t), k) == entry_of(contents(root), k)
        }),
{
    law_change_acts_on_contents(root, Change::MovePrefix { from, to }, strict);
    let l = to + rest;
    assert(l.subrange(0, to.len() as int) =~= to);
    assert(l.skip(to.len() as int) =~= rest);
}

/// When a move goes through: the prefixes differ and are not too long, some stored
/// key begins with the old prefix, each such key stays short enough, and the new
/// prefix does not lie behind a stored key that stays.
pub proof fn law_move_is_accepted(root: Option<Trie>, from: Seq<u8>, to: Seq<u8>, strict: bool)
    requires
        sound(root),
    ensures
        apply_change(root, Change::MovePrefix { from, to }, strict) is Ok <==> {
            &&& from.len() <= MAX_KEY_LEN && to.len() <= MAX_KEY_LEN && from != to
            &&& exists|rest: Seq<u8>| entry_of(contents(root), #[trigger] (from + rest)) is Some
            &&& forall|rest: Seq<u8>| entry_of(contents(root), #[trigger] (from + rest)) is Some ==> (to + rest).len()
                <= MAX_KEY_LEN
            &&& forall|k: Seq<u8>| (#[trigger] entry_of(contents(root), k)) is Some && k.is_prefix_of(to) ==> k == to
                || from.is_prefix_of(k)
        },
{
    law_change_acts_on_contents(root, Change::MovePrefix { from, to }, strict);
    let m = contents(root);
    assert forall|k: Seq<u8>| from.is_prefix_of(k) implies from + (#[trigger] k.skip(from.len() as int)) == k by {
        assert(from + k.skip(from.len() as int) =~= k);
    }
    assert forall|rest: Seq<u8>| from.is_prefix_of(#[trigger] (from + rest)) by {
        assert((from + rest).subrange(0, from.len() as int) =~= from);
    }
    if move_allowed(m, from, to) {
        let k = choose|k: Seq<u8>| #[trigger] m.dom().contains(k) && from.is_prefix_of(k);
        assert(entry_of(m, from + k.skip(from.len() as int)) is Some);
        assert forall|rest: Seq<u8>| entry_of(m, #[trigger] (from + rest)) is Some implies (to + rest).len()
            <= MAX_KEY_LEN by {
            assert(m.dom().contains(from + rest));
        }
    } else if exists|rest: Seq<u8>| entry_of(m, #[trigger] (from + rest)) is Some {
        let rest = choose|rest: Seq<u8>| entry_of(m, #[trigger] (from + rest)) is Some;
        assert(m.dom().contains(from + rest));
        if forall|k: Seq<u8>| (#[trigger] entry_of(m, k)) is Some && k.is_prefix_of(to) ==> k == to || from.is_prefix_of(k) {
            assert forall|k: Seq<u8>| #[trigger]
                m.dom().contains(k) && !from.is_prefix_of(k) && k.is_prefix_of(to) implies k == to by {
                assert(entry_of(m, k) is Some);
            }
            if forall|rest: Seq<u8>| entry_of(m, #[trigger] (from + rest)) is Some ==> (to + rest).len() <= MAX_KEY_LEN {
                assert forall|k: Seq<u8>| #[trigger] m.dom().contains(k) && from.is_prefix_of(k) implies to.len() + k.len()
                    - from.len() <= MAX_KEY_LEN by {
                    let r = k.skip(from.len() as int);
                    assert(entry_of(m, from + r) is Some);
                }
            }
        }
    }
}

/// A read gives what the last write of the key stored.
pub proof fn law_read_gives_what_was_written(m: Map<Seq<u8>, Seq<u8>>, key: Seq<u8>, value: Seq<u8>, other: Seq<u8>)
    ensures
        entry_of(m.insert(key, value), key) == Some(value),
        entry_of(m.remove(key), key) is None,
        other != key ==> entry_of(m.insert(key, value), other) == entry_of(m, other),
        other != key ==> entry_of(m.remove(key), other) == entry_of(m, other),
        entry_of(Map::empty(), key) is None,
{
}

/// Whether an outcome on roots is the one that the model gives.
pub open spec fn same_root(r: Result<Option<Arc<MrtNodeInner>>, Error>, m: Result<Option<Trie>, Fault>) -> bool {
    match (r, m) {
        (Ok(root), Ok(t)) => root_trie(root) == t,
        (Err(e), Err(f)) => e.fault() == f,
        _ => false,
    }
}

/// Another handle to a root.
pub fn share_root(root: &Option<Arc<MrtNodeInner>>) -> (r: Option<Arc<MrtNodeInner>>)
    ensures
        r == *root,
{
    match root {
        Some(node) => Some(share(node)),
        None => None,
    }
}

/// A row of a batch, borrowed: its key, and the end of the range if it removes one.
pub type BatchRow<'a> = (&'a [u8], Option<&'a [u8]>);

/// Whether a row stands for a change.
pub open spec fn row_of(row: BatchRow<'_>, c: Change) -> bool {
    &&& row.0@ == c.sort_key()
    &&& match row.1 {
        Some(end) => c == (Change::DeleteRange { start: row.0@, end: end@ }),
        None => !(c is DeleteRange),
    }
}

/// What is said of the last entry of a batch, which does not fit behind the others.
pub open spec fn entry_text(cs: Seq<Change>) -> Seq<char> {
    let c = cs.last();
    if c.sort_key().len() > MAX_KEY_LEN {
        "key length "@ + decimal(c.sort_key().len()) + " exceeds maximum "@ + decimal(MAX_KEY_LEN as nat)
    } else if c is DeleteRange && c->DeleteRange_end.len() > MAX_KEY_LEN {
        "DeleteRange end key length "@ + decimal(c->DeleteRange_end.len()) + " exceeds maximum "@ + decimal(
            MAX_KEY_LEN as nat,
        )
    } else if !c.fits_batch(MAX_KEY_LEN as nat) {
        "DeleteRange start must be less than end"@
    } else if cs[cs.len() - 2].sort_key() != c.sort_key() {
        "Batch keys must be sorted"@
    } else {
        "Batch keys must be unique except after DeleteRange"@
    }
}

/// What is said of a batch that is not well formed: what its first entry that
/// does not fit gives rise to.
pub open spec fn batch_text(cs: Seq<Change>) -> Seq<char>
    decreases cs.len(),
{
    if cs.len() == 0 || batch_ordered(cs.drop_last(), MAX_KEY_LEN as nat) {
        entry_text(cs)
    } else {
        batch_text(cs.drop_last())
    }
}

/// What is said of a batch is what is said of its beginning, once that is not well formed.
proof fn lemma_batch_text(cs: Seq<Change>, n: int)
    requires
        0 < n <= cs.len(),
        batch_ordered(cs.take(n - 1), MAX_KEY_LEN as nat),
        !batch_ordered(cs.take(n), MAX_KEY_LEN as nat),
    ensures
        batch_text(cs) == entry_text(cs.take(n)),
        !batch_ordered(cs, MAX_KEY_LEN as nat),
    decreases cs.len(),
{
    if n == cs.len() {
        assert(cs.take(n) =~= cs);
        assert(cs.drop_last() =~= cs.take(n - 1));
    } else {
        let rest = cs.drop_last();
        assert(rest.take(n) =~= cs.take(n));
        assert(rest.take(n - 1) =~= cs.take(n - 1));
        lemma_batch_text(rest, n);
        if batch_ordered(cs, MAX_KEY_LEN as nat) {
            assert forall|i: int| 0 <= i < rest.len() implies (#[trigger] rest[i]).fits_batch(MAX_KEY_LEN as nat) by {
                assert(rest[i] == cs[i]);
            }
            assert forall|i: int, j: int|
                #![trigger rest[i], rest[j]]
                0 <= i && j == i + 1 && j < rest.len() implies rest[i].precedes(rest[j]) by {
                assert(rest[i] == cs[i] && rest[j] == cs[j]);
            }
        }
    }
}

/// Where a batch stops to be well formed, and what is said then.
proof fn lemma_entry_text(cs: Seq<Change>, i: int)
    requires
        0 <= i < cs.len(),
        forall|j: int| 0 <= j < i ==> (#[trigger] cs[j]).fits_batch(MAX_KEY_LEN as nat),
        forall|a: int, b: int|
            #![trigger cs[a], cs[b]]
            0 <= a && b == a + 1 && b < i ==> cs[a].precedes(cs[b]),
        !cs[i].fits_batch(MAX_KEY_LEN as nat) || (i > 0 && !cs[i - 1].precedes(cs[i])),
    ensures
        batch_text(cs) == entry_text(cs.take(i + 1)),
        !batch_ordered(cs, MAX_KEY_LEN as nat),
{
    let a = cs.take(i);
    let b = cs.take(i + 1);
    assert forall|j: int| 0 <= j < a.len() implies (#[trigger] a[j]).fits_batch(MAX_KEY_LEN as nat) by {
        assert(a[j] == cs[j]);
    }
    assert forall|x: int, y: int|
        #![trigger a[x], a[y]]
        0 <= x && y == x + 1 && y < a.len() implies a[x].precedes(a[y]) by {
        assert(a[x] == cs[x] && a[y] == cs[y]);
    }
    assert(b[i] == cs[i]);
    if i > 0 {
        assert(b[i - 1] == cs[i - 1]);
    }
    lemma_batch_text(cs, i + 1);
}

/// Refuses batches with keys that are too long or not in order.
pub fn validate_batch_entries(entries: &Vec<BatchRow<'_>>, Ghost(changes): Ghost<Seq<Change>>) -> (r: Result<(), Error>)
    requires
        entries@.len() == changes.len(),
        forall|i: int| 0 <= i < changes.len() ==> row_of(entries@[i], #[trigger] changes[i]),
    ensures
        r is Ok <==> batch_ordered(changes, MAX_KEY_LEN as nat),
        r matches Err(e) ==> e.fault() == Fault::BatchKey && e.text() == batch_text(changes),
{
    let mut i: usize = 0;
    while i < entries.len()
        invariant
            i <= entries@.len(),
            entries@.len() == changes.len(),
            forall|j: int| 0 <= j < changes.len() ==> row_of(entries@[j], #[trigger] changes[j]),
            forall|j: int| 0 <= j < i ==> (#[trigger] changes[j]).fits_batch(MAX_KEY_LEN as nat),
            forall|a: int, b: int|
                #![trigger changes[a], changes[b]]
                0 <= a && b == a + 1 && b < i ==> changes[a].precedes(changes[b]),
        decreases entries@.len() - i,
    {
        let (key, end) = entries[i];
        let ghost c = changes[i as int];
        assert(row_of(entries@[i as int], c));
        if key.len() > MAX_KEY_LEN {
            proof {
                lemma_entry_text(changes, i as int);
            }
            return Err(Error::BatchKey(told_numbers("key length ", key.len() as u64, " exceeds maximum ", MAX_KEY_LEN as u64)));
        }
        if let Some(end) = end {
            if end.len() > MAX_KEY_LEN {
                proof {
                    lemma_entry_text(changes, i as int);
                }
                return Err(
                    Error::BatchKey(
                        told_numbers("DeleteRange end key length ", end.len() as u64, " exceeds maximum ", MAX_KEY_LEN as u64),
                    ),
                );
            }
            if !key_less(key, end) {
                proof {
                    lemma_entry_text(changes, i as int);
                }
                return Err(Error::BatchKey(told("DeleteRange start must be less than end")));
            }
        }
        if i > 0 {
            let (prev_key, prev_end) = entries[i - 1];
            assert(row_of(entries@[i - 1], changes[i - 1]));
            if !key_less(prev_key, key) {
                if !key_same(prev_key, key) {
                    proof {
                        lemma_entry_text(changes, i as int);
                    }
                    return Err(Error::BatchKey(told("Batch keys must be sorted")));
                }
                if prev_end.is_none() || end.is_some() {
                    proof {
                        lemma_entry_text(changes, i as int);
                    }
                    return Err(Error::BatchKey(told("Batch keys must be unique except after DeleteRange")));
                }
            }
        }
        i = i + 1;
    }
    Ok(())
}

/// Refuses batches with keys that are too long or not in order.
pub fn validate_mrt_apply_batch(batch: &Batch) -> (r: Result<(), Error>)
    ensures
        r is Ok <==> batch_ordered(batch_changes(batch@), MAX_KEY_LEN as nat),
        r matches Err(e) ==> e.fault() == Fault::BatchKey && e.text() == batch_text(batch_changes(batch@)),
{
    let mut rows: Vec<BatchRow<'_>> = Vec::new();
    let mut i: usize = 0;
    while i < batch.len()
        invariant
            i <= batch@.len(),
            rows@.len() == i,
            forall|j: int| 0 <= j < i ==> row_of(rows@[j], entry_change(#[trigger] batch@[j])),
        decreases batch@.len() - i,
    {
        let entry = &batch[i];
        let end: Option<&[u8]> = match &entry.1 {
            Op::DeleteRange(end) => Some(end.as_slice()),
            _ => None,
        };
        rows.push((entry.0.as_slice(), end));
        i = i + 1;
    }
    let ghost changes = batch_changes(batch@);
    assert forall|j: int| 0 <= j < changes.len() implies row_of(rows@[j], #[trigger] changes[j]) by {
        assert(changes[j] == entry_change(batch@[j]));
    }
    validate_batch_entries(&rows, Ghost(changes))
}

/// As [`validate_mrt_apply_batch`], for batch operations.
pub fn validate_batch_ops(ops: &[BatchOp]) -> (r: Result<(), Error>)
    ensures
        r is Ok <==> batch_ordered(batch_op_changes(ops@), MAX_KEY_LEN as nat),
        r matches Err(e) ==> e.fault() == Fault::BatchKey && e.text() == batch_text(batch_op_changes(ops@)),
{
    let mut rows: Vec<BatchRow<'_>> = Vec::new();
    let mut i: usize = 0;
    while i < ops.len()
        invariant
            i <= ops@.len(),
            rows@.len() == i,
            forall|j: int| 0 <= j < i ==> row_of(rows@[j], (#[trigger] ops@[j])@),
        decreases ops@.len() - i,
    {
        let op = &ops[i];
        let end: Option<&[u8]> = match op {
            BatchOp::DeleteRange { start, end } => Some(end.as_slice()),
            _ => None,
        };
        rows.push((op.key(), end));
        i = i + 1;
    }
    let ghost changes = batch_op_changes(ops@);
    assert forall|j: int| 0 <= j < changes.len() implies row_of(rows@[j], #[trigger] changes[j]) by {
        assert(changes[j] == ops@[j]@);
    }
    validate_batch_entries(&rows, Ghost(changes))
}

/// What is said when a write is refused.
pub open spec fn change_text(root: Option<Trie>, c: Change) -> Seq<char> {
    match c {
        Change::Put { key, value } => insert_text(Fault::Key, key),
        Change::Delete { key } => point_text("delete"@, key),
        Change::DeleteRange { start, end } => range_text(start, end, Voice::Store),
        Change::DeletePrefix { prefix } => long_key_text("delete_prefix"@, prefix.len()),
        Change::MovePrefix { from, to } => move_text(root, from, to),
    }
}

/// What is said when one of a list of writes is refused.
pub open spec fn changes_text(root: Option<Trie>, cs: Seq<Change>) -> Seq<char>
    decreases cs.len(),
{
    match apply_changes(root, cs.drop_last(), false) {
        Ok(t) => change_text(t, cs.last()),
        Err(f) => if cs.len() == 0 {
            Seq::empty()
        } else {
            changes_text(root, cs.drop_last())
        },
    }
}

/// What is said of writes of which one is refused is what is said of the first that is.
pub proof fn law_first_refusal_is_told(root: Option<Trie>, a: Seq<Change>, b: Seq<Change>)
    ensures
        apply_changes(root, a, false) is Err ==> changes_text(root, a + b) == changes_text(root, a),
        apply_changes(root, a, false) matches Ok(t) ==> (b.len() > 0 ==> changes_text(root, a + b) == changes_text(t, b)),
        a.len() == 1 ==> changes_text(root, a) == change_text(root, a[0]),
    decreases b.len(),
{
    let none = Seq::<Change>::empty();
    if a.len() == 1 {
        assert(a.drop_last() =~= none);
    }
    if b.len() == 0 {
        assert(a + b =~= a);
    } else {
        let c = b.drop_last();
        assert((a + b).drop_last() =~= a + c);
        assert((a + b).last() == b.last());
        law_first_refusal_is_told(root, a, c);
        law_changes_split(root, a, c, false);
    }
}

/// What is said of a batch that is not well formed is what is said of its first part,
/// if that is not well formed either.
pub proof fn law_first_misfit_is_told(a: Seq<Change>, b: Seq<Change>)
    requires
        !batch_ordered(a, MAX_KEY_LEN as nat),
    ensures
        batch_text(a + b) == batch_text(a),
    decreases b.len(),
{
    if b.len() == 0 {
        assert(a + b =~= a);
    } else {
        let c = a + b.drop_last();
        assert((a + b).drop_last() =~= c);
        law_first_misfit_is_told(a, b.drop_last());
        law_batch_parts(a, b.drop_last(), MAX_KEY_LEN as nat);
    }
}

/// Once a write has been refused, nothing more is said.
proof fn lemma_refused_prefix(root: Option<Trie>, cs: Seq<Change>, n: int)
    requires
        0 < n <= cs.len(),
        apply_changes(root, cs.take(n), false) is Err,
    ensures
        changes_text(root, cs) == changes_text(root, cs.take(n)),
    decreases cs.len(),
{
    if n == cs.len() {
        assert(cs.take(n) =~= cs);
    } else {
        let rest = cs.drop_last();
        assert(rest.take(n) =~= cs.take(n));
        lemma_failed_prefix(root, rest, n, false);
        lemma_refused_prefix(root, rest, n);
    }
}

/// Does the writes of a batch one after the other.
pub fn apply_batch_to_root(root: Option<Arc<MrtNodeInner>>, batch: &Batch) -> (r: Result<Option<Arc<MrtNodeInner>>, Error>)
    ensures
        same_root(r, apply_changes(root_trie(root), batch_changes(batch@), false)),
        r matches Err(e) ==> e.fault() == Fault::Key ==> e.text() == changes_text(root_trie(root), batch_changes(batch@)),
{
    let ghost start = root_trie(root);
    let ghost cs = batch_changes(batch@);
    let mut candidate = root;
    let mut i: usize = 0;
    assert(cs.take(0) =~= Seq::empty());
    while i < batch.len()
        invariant
            i <= batch@.len(),
            cs == batch_changes(batch@),
            start == root_trie(root),
            apply_changes(start, cs.take(i as int), false) == Ok::<Option<Trie>, Fault>(root_trie(candidate)),
        decreases batch@.len() - i,
    {
        let entry = &batch[i];
        proof {
            assert(cs.take(i + 1).drop_last() =~= cs.take(i as int));
            assert(cs.take(i + 1).last() == entry_change(batch@[i as int]));
        }
        let step = match &entry.1 {
            Op::Put(value) => match insert(candidate, key_copy(entry.0.as_slice()), key_copy(value.as_slice())) {
                Ok(node) => Ok(Some(node)),
                Err(e) => Err(e),
            },
            Op::Delete => match delete(candidate, entry.0.as_slice()) {
                Ok((next, _)) => Ok(next),
                Err(e) => Err(e),
            },
            Op::DeleteRange(end) => delete_range(candidate, entry.0.as_slice(), end.as_slice()),
        };
        match step {
            Ok(next) => {
                candidate = next;
            },
            Err(e) => {
                proof {
                    lemma_failed_prefix(start, cs, i + 1, false);
                    lemma_refused_prefix(start, cs, i + 1);
                }
                return Err(e);
            },
        }
        i = i + 1;
    }
    assert(cs.take(cs.len() as int) =~= cs);
    Ok(candidate)
}

/// Once a write has failed, the whole list has, with the same error.
pub proof fn lemma_failed_prefix(root: Option<Trie>, cs: Seq<Change>, n: int, strict: bool)
    requires
        0 <= n <= cs.len(),
        apply_changes(root, cs.take(n), strict) is Err,
    ensures
        apply_changes(root, cs, strict) == apply_changes(root, cs.take(n), strict),
    decreases cs.len() - n,
{
    if n == cs.len() {
        assert(cs.take(n) =~= cs);
    } else {
        assert(cs.take(n + 1).drop_last() =~= cs.take(n));
        lemma_failed_prefix(root, cs, n + 1, strict);
    }
}

/// Does a list of writes one after the other.
pub fn apply_writes_to_root(root: Option<Arc<MrtNodeInner>>, ops: &[WriteOp]) -> (r: Result<
    Option<Arc<MrtNodeInner>>,
    Error,
>)
    ensures
        same_root(r, apply_changes(root_trie(root), write_changes(ops@), false)),
        r matches Err(e) ==> e.fault() == Fault::Key ==> e.text() == changes_text(root_trie(root), write_changes(ops@)),
{
    let ghost start = root_trie(root);
    let ghost cs = write_changes(ops@);
    let mut candidate = root;
    let mut i: usize = 0;
    assert(cs.take(0) =~= Seq::empty());
    while i < ops.len()
        invariant
            i <= ops@.len(),
            cs == write_changes(ops@),
            start == root_trie(root),
            apply_changes(start, cs.take(i as int), false) == Ok::<Option<Trie>, Fault>(root_trie(candidate)),
        decreases ops@.len() - i,
    {
        proof {
            assert(cs.take(i + 1).drop_last() =~= cs.take(i as int));
            assert(cs.take(i + 1).last() == ops@[i as int]@);
        }
        let step = match &ops[i] {
            WriteOp::Put { key, value } => match insert(candidate, key_copy(key.as_slice()), key_copy(value.as_slice())) {
                Ok(node) => Ok(Some(node)),
                Err(e) => Err(e),
            },
            WriteOp::Delete { key } => match delete(candidate, key.as_slice()) {
                Ok((next, _)) => Ok(next),
                Err(e) => Err(e),
            },
            WriteOp::DeleteRange { start, end } => delete_range(candidate, start.as_slice(), end.as_slice()),
            WriteOp::DeletePrefix { prefix } => delete_prefix(candidate, prefix.as_slice()),
            WriteOp::MovePrefix { from, to } => match move_prefix(candidate, from.as_slice(), to.as_slice()) {
                Ok(node) => Ok(Some(node)),
                Err(e) => Err(e),
            },
        };
        match step {
            Ok(next) => {
                candidate = next;
            },
            Err(e) => {
                proof {
                    lemma_failed_prefix(start, cs, i + 1, false);
                    lemma_refused_prefix(start, cs, i + 1);
                }
                return Err(e);
            },
        }
        i = i + 1;
    }
    assert(cs.take(cs.len() as int) =~= cs);
    Ok(candidate)
}

/// The hash of a trie that may be empty.
pub open spec fn hash_of(root: Option<Trie>) -> NodeHash {
    match root {
        Some(t) => t.hash(),
        None => NULL_HASH,
    }
}

fn root_hash_impl(root: Option<&Arc<MrtNodeInner>>) -> (hash: NodeHash)
    ensures
        hash == hash_of(root_ref(root)),
{
    match root {
        Some(node) => node.hash(),
        None => NULL_HASH,
    }
}

/// The value stored under a key, in a map.
pub open spec fn entry_of(m: Map<Seq<u8>, Seq<u8>>, key: Seq<u8>) -> Option<Seq<u8>> {
    if m.dom().contains(key) {
        Some(m[key])
    } else {
        None
    }
}

/// Whether an optional byte string is the given value.
pub open spec fn same_bytes(r: Option<Vec<u8>>, v: Option<Seq<u8>>) -> bool {
    match (r, v) {
        (Some(a), Some(b)) => a@ == b,
        (None, None) => true,
        _ => false,
    }
}

/// A read that gave what a store has for a key gave a value just if the key is stored,
/// and then its value.
pub proof fn law_read_is_exact(r: Option<Vec<u8>>, m: Map<Seq<u8>, Seq<u8>>, key: Seq<u8>)
    requires
        same_bytes(r, entry_of(m, key)),
    ensures
        r is Some <==> m.dom().contains(key),
        r matches Some(v) ==> v@ == m[key],
{
}

fn get_complete(root: Option<&Arc<MrtNodeInner>>, key: &[u8]) -> (r: Option<Vec<u8>>)
    requires
        sound(root_ref(root)),
    ensures
        same_bytes(r, entry_of(contents(root_ref(root)), key@)),
{
    proof {
        lemma_find_contents(root_ref(root), key@);
        if contents(root_ref(root)).dom().contains(key@) {
            lemma_key_len(root_ref(root), key@);
        }
    }
    match get(root, key) {
        Ok(Some(value)) => Some(key_copy(value)),
        _ => None,
    }
}

fn get_result_impl(root: Option<&Arc<MrtNodeInner>>, key: &[u8]) -> (r: Result<GetResult, Error>)
    ensures
        match (r, find_root(root_ref(root), key@)) {
            (Ok(GetResult::Found(value)), Ok(Some(v))) => value@ == v,
            (Ok(GetResult::NotFound), Ok(None)) => true,
            (Err(e), Err(f)) => e.fault() == f,
            _ => false,
        },
        r matches Err(e) ==> key@.len() > MAX_KEY_LEN ==> e.text() == long_key_text("snapshot get_result"@, key@.len()),
{
    match validate_key_len(key, "snapshot get_result") {
        Ok(_) => {},
        Err(e) => {
            return Err(e);
        },
    }
    match get(root, key) {
        Ok(Some(value)) => Ok(GetResult::Found(key_copy(value))),
        Ok(None) => Ok(GetResult::NotFound),
        Err(Error::PrunedNode(_)) => Err(
            Error::PrunedNode(told_with("MRT snapshot get_result descended into pruned node for key ", key)),
        ),
        Err(e) => Err(e),
    }
}

/// A store. Writes either take effect as a whole or not at all.
pub struct Tree {
    root: Option<Arc<MrtNodeInner>>,
}

/// What a store held at some moment.
#[derive(Debug)]
pub struct Checkpoint {
    root: Option<Arc<MrtNodeInner>>,
}

impl View for Tree {
    type V = Map<Seq<u8>, Seq<u8>>;

    open spec fn view(&self) -> Map<Seq<u8>, Seq<u8>> {
        contents(self.trie())
    }
}

impl View for Checkpoint {
    type V = Map<Seq<u8>, Seq<u8>>;

    open spec fn view(&self) -> Map<Seq<u8>, Seq<u8>> {
        contents(self.trie())
    }
}

impl Tree {
    /// The trie, unless it is empty.
    pub closed spec fn trie(&self) -> Option<Trie> {
        root_trie(self.root)
    }

    #[verifier::type_invariant]
    spec fn inv(self) -> bool {
        sound(root_trie(self.root))
    }

    /// An empty store.
    pub fn new() -> (r: Self)
        ensures
            r@ == Map::<Seq<u8>, Seq<u8>>::empty(),
            r.trie() is None,
    {
        let r = Tree { root: None };
        assert(r@ =~= Map::<Seq<u8>, Seq<u8>>::empty());
        r
    }

    /// The value stored under `key`.
    pub fn get(&self, key: &[u8]) -> (r: Option<Vec<u8>>)
        ensures
            same_bytes(r, entry_of(self@, key@)),
    {
        proof {
            use_type_invariant(self);
        }
        get_complete(self.root.as_ref(), key)
    }

    /// What the store holds now. Later writes do not change it.
    pub fn checkpoint(&self) -> (r: Checkpoint)
        ensures
            r@ == self@,
            r.trie() == self.trie(),
    {
        proof {
            use_type_invariant(self);
        }
        Checkpoint { root: share_root(&self.root) }
    }

    /// Puts the store back to what a checkpoint holds, or to nothing.
    pub fn restore(&mut self, checkpoint: Option<Checkpoint>)
        ensures
            match checkpoint {
                Some(c) => final(self)@ == c@ && final(self).trie() == c.trie(),
                None => final(self)@ == Map::<Seq<u8>, Seq<u8>>::empty() && final(self).trie() is None,
            },
    {
        match checkpoint {
            Some(c) => {
                proof {
                    use_type_invariant(&c);
                }
                self.root = c.root;
            },
            None => {
                self.root = None;
                assert(self@ =~= Map::<Seq<u8>, Seq<u8>>::empty());
            },
        }
    }

    /// The root hash: that of the trie, or all zeros if the store is empty.
    pub fn root_hash(&self) -> (hash: NodeHash)
        ensures
            hash == hash_of(self.trie()),
    {
        root_hash_impl(self.root.as_ref())
    }

    /// Stores `value` under `key`. Refused if the key is too long, or if some
    /// stored key begins with it or the other way round.
    pub fn put(&mut self, key: Vec<u8>, value: Vec<u8>) -> (r: Result<(), Error>)
        ensures
            match r {
                Ok(_) => store_change(old(self)@, Change::Put { key: key@, value: value@ }) == Some(final(self)@),
                Err(e) => {
                    &&& *final(self) == *old(self)
                    &&& store_change(old(self)@, Change::Put { key: key@, value: value@ }) is None
                    &&& e.fault() == (if key@.len() > MAX_KEY_LEN { Fault::BatchKey } else { Fault::Key })
                    &&& e.text() == (if key@.len() > MAX_KEY_LEN {
                        "key length "@ + decimal(key@.len()) + " exceeds maximum "@ + decimal(MAX_KEY_LEN as nat)
                    } else {
                        prefix_free_text(key@)
                    })
                },
            },
    {
        let ghost c = Change::Put { key: key@, value: value@ };
        self.apply_one((key, Op::Put(value)), Ghost(c))
    }

    /// Removes `key`; it need not be stored. Refused if the key is too long.
    pub fn delete(&mut self, key: Vec<u8>) -> (r: Result<(), Error>)
        ensures
            match r {
                Ok(_) => key@.len() <= MAX_KEY_LEN && final(self)@ == old(self)@.remove(key@),
                Err(e) => {
                    &&& key@.len() > MAX_KEY_LEN
                    &&& *final(self) == *old(self)
                    &&& e.fault() == Fault::BatchKey
                    &&& e.text() == "key length "@ + decimal(key@.len()) + " exceeds maximum "@ + decimal(MAX_KEY_LEN as nat)
                },
            },
    {
        self.apply_one((key, Op::Delete), Ghost(Change::Delete { key: key@ }))
    }

    /// Removes the keys from `start` up to but not including `end`. Refused if
    /// the bounds are too long or not in order.
    pub fn delete_range(&mut self, start: Vec<u8>, end: Vec<u8>) -> (r: Result<(), Error>)
        ensures
            match r {
                Ok(_) => store_change(old(self)@, Change::DeleteRange { start: start@, end: end@ }) == Some(final(self)@),
                Err(e) => {
                    &&& *final(self) == *old(self)
                    &&& store_change(old(self)@, Change::DeleteRange { start: start@, end: end@ }) is None
                    &&& e.fault() == Fault::BatchKey
                    &&& e.text() == entry_text(seq![Change::DeleteRange { start: start@, end: end@ }])
                },
            },
    {
        let ghost c = Change::DeleteRange { start: start@, end: end@ };
        self.apply_one((start, Op::DeleteRange(end)), Ghost(c))
    }

    fn apply_one(&mut self, entry: BatchEntry, Ghost(c): Ghost<Change>) -> (r: Result<(), Error>)
        requires
            c == entry_change(entry),
        ensures
            match r {
                Ok(_) => store_change(old(self)@, c) == Some(final(self)@),
                Err(e) => {
                    &&& *final(self) == *old(self)
                    &&& store_change(old(self)@, c) is None
                    &&& e.fault() == (if c.fits_batch(MAX_KEY_LEN as nat) { Fault::Key } else { Fault::BatchKey })
                    &&& e.text() == (if c.fits_batch(MAX_KEY_LEN as nat) {
                        change_text(old(self).trie(), c)
                    } else {
                        entry_text(seq![c])
                    })
                },
            },
    {
        let mut batch: Vec<BatchEntry> = Vec::new();
        batch.push(entry);
        let r = self.apply_sorted_batch_ops_owned(batch);
        proof {
            let cs = batch_changes(batch@);
            assert(cs =~= seq![c]);
            assert(cs[0] == c);
            assert(cs.drop_last() =~= Seq::empty());
            assert(store_changes(old(self)@, cs.drop_last()) == Some(old(self)@));
            assert(store_changes(old(self)@, cs) == store_change(old(self)@, c));
            assert(batch_ordered(cs, MAX_KEY_LEN as nat) == c.fits_batch(MAX_KEY_LEN as nat));
        }
        r
    }

    /// Renames every key `from ++ s` to `to ++ s`. What else began with `to`
    /// is dropped. See [`move_allowed`] for when this is refused.
    pub fn move_prefix(&mut self, from: Vec<u8>, to: Vec<u8>) -> (r: Result<(), Error>)
        ensures
            match r {
                Ok(_) => move_allowed(old(self)@, from@, to@) && final(self)@ == moved(old(self)@, from@, to@),
                Err(e) => {
                    &&& !move_allowed(old(self)@, from@, to@)
                    &&& *final(self) == *old(self)
                    &&& e.fault() == Fault::Key
                    &&& e.text() == move_text(old(self).trie(), from@, to@)
                },
            },
    {
        proof {
            use_type_invariant(&*self);
            lemma_move_contents(self.trie(), from@, to@, false);
        }
        match move_prefix(share_root(&self.root), from.as_slice(), to.as_slice()) {
            Ok(node) => {
                self.root = Some(node);
                Ok(())
            },
            Err(e) => Err(e),
        }
    }

    /// Does a sorted batch of writes, all or none.
    pub fn apply_sorted_batch_ops(&mut self, batch: &Batch) -> (r: Result<(), Error>)
        ensures
            match r {
                Ok(_) => batch_ordered(batch_changes(batch@), MAX_KEY_LEN as nat) && store_changes(
                    old(self)@,
                    batch_changes(batch@),
                ) == Some(final(self)@),
                Err(e) => {
                    &&& *final(self) == *old(self)
                    &&& if batch_ordered(batch_changes(batch@), MAX_KEY_LEN as nat) {
                        &&& e.fault() == Fault::Key
                        &&& store_changes(old(self)@, batch_changes(batch@)) is None
                        &&& e.text() == changes_text(old(self).trie(), batch_changes(batch@))
                    } else {
                        e.fault() == Fault::BatchKey && e.text() == batch_text(batch_changes(batch@))
                    }
                },
            },
    {
        match validate_mrt_apply_batch(batch) {
            Ok(_) => {},
            Err(e) => {
                return Err(e);
            },
        }
        proof {
            use_type_invariant(&*self);
            law_changes_act_on_contents(self.trie(), batch_changes(batch@), false);
        }
        match apply_batch_to_root(share_root(&self.root), batch) {
            Ok(root) => {
                self.root = root;
                Ok(())
            },
            Err(e) => Err(e),
        }
    }

    /// As [`Tree::apply_sorted_batch_ops`], for a batch that is no longer needed.
    pub fn apply_sorted_batch_ops_owned(&mut self, batch: Vec<BatchEntry>) -> (r: Result<(), Error>)
        ensures
            match r {
                Ok(_) => batch_ordered(batch_changes(batch@), MAX_KEY_LEN as nat) && store_changes(
                    old(self)@,
                    batch_changes(batch@),
                ) == Some(final(self)@),
                Err(e) => {
                    &&& *final(self) == *old(self)
                    &&& if batch_ordered(batch_changes(batch@), MAX_KEY_LEN as nat) {
                        &&& e.fault() == Fault::Key
                        &&& store_changes(old(self)@, batch_changes(batch@)) is None
                        &&& e.text() == changes_text(old(self).trie(), batch_changes(batch@))
                    } else {
                        e.fault() == Fault::BatchKey && e.text() == batch_text(batch_changes(batch@))
                    }
                },
            },
    {
        self.apply_sorted_batch_ops(batch.as_slice())
    }

    /// Does writes one after the other, in the order given; all or none.
    pub fn apply_write_ops(&mut self, ops: &[WriteOp]) -> (r: Result<(), Error>)
        ensures
            match r {
                Ok(_) => store_changes(old(self)@, write_changes(ops@)) == Some(final(self)@),
                Err(e) => {
                    &&& *final(self) == *old(self)
                    &&& store_changes(old(self)@, write_changes(ops@)) is None
                    &&& e.fault() == Fault::Key
                    &&& e.text() == changes_text(old(self).trie(), write_changes(ops@))
                },
            },
    {
        proof {
            use_type_invariant(&*self);
            law_changes_act_on_contents(self.trie(), write_changes(ops@), false);
        }
        match apply_writes_to_root(share_root(&self.root), ops) {
            Ok(root) => {
                self.root = root;
                Ok(())
            },
            Err(e) => Err(e),
        }
    }
}

impl Tree {
    /// Proves what a query finds. See [`Checkpoint::prove`].
    pub fn prove(&self, query: Vec<QueryItem>) -> (r: Result<Vec<u8>, Error>)
        requires
            may_ask(self.trie(), query@),
        ensures
            proved(r, self.trie(), normalized(parts(query@))),
    {
        self.checkpoint().prove(query)
    }
}

impl Default for Tree {
    fn default() -> (r: Self)
        ensures
            r@ == Map::<Seq<u8>, Seq<u8>>::empty(),
            r.trie() is None,
    {
        Tree::new()
    }
}

impl Clone for Checkpoint {
    fn clone(&self) -> (r: Self)
        ensures
            r@ == self@,
            r.trie() == self.trie(),
    {
        proof {
            use_type_invariant(self);
        }
        Checkpoint { root: share_root(&self.root) }
    }
}

impl Checkpoint {
    /// The trie, unless it is empty.
    pub closed spec fn trie(&self) -> Option<Trie> {
        root_trie(self.root)
    }

    #[verifier::type_invariant]
    spec fn inv(self) -> bool {
        sound(root_trie(self.root))
    }

    /// The root of the trie.
    pub fn root(&self) -> (r: Option<&Arc<MrtNodeInner>>)
        ensures
            root_ref(r) == self.trie(),
            sound(self.trie()),
    {
        proof {
            use_type_invariant(self);
        }
        self.root.as_ref()
    }

    /// The value stored under `key`.
    pub fn get(&self, key: &[u8]) -> (r: Option<Vec<u8>>)
        ensures
            same_bytes(r, entry_of(self@, key@)),
    {
        proof {
            use_type_invariant(self);
        }
        get_complete(self.root.as_ref(), key)
    }

    /// As [`Checkpoint::get`], but a key that is too long is an error.
    pub fn get_result(&self, key: &[u8]) -> (r: Result<GetResult, Error>)
        ensures
            match r {
                Ok(GetResult::Found(value)) => entry_of(self@, key@) == Some(value@),
                Ok(GetResult::NotFound) => key@.len() <= MAX_KEY_LEN && entry_of(self@, key@) is None,
                Err(e) => key@.len() > MAX_KEY_LEN && e.fault() == Fault::Key && e.text() == long_key_text(
                    "snapshot get_result"@,
                    key@.len(),
                ),
            },
    {
        proof {
            use_type_invariant(self);
            lemma_find_contents(self.trie(), key@);
        }
        get_result_impl(self.root.as_ref(), key)
    }

    /// The root hash: that of the trie, or all zeros if nothing is stored.
    pub fn root_hash(&self) -> (hash: NodeHash)
        ensures
            hash == hash_of(self.trie()),
    {
        root_hash_impl(self.root.as_ref())
    }

    /// Whether nothing is stored.
    pub fn is_empty(&self) -> (r: bool)
        ensures
            r == (self.trie() is None),
            r == (self@ == Map::<Seq<u8>, Seq<u8>>::empty()),
    {
        proof {
            use_type_invariant(self);
            crate::mrt::keys::lemma_empty(self.trie());
        }
        self.root.is_none()
    }

    /// The entries, first to last.
    pub fn iter(&self) -> (r: Iter<'_>)
        ensures
            lists(r.rows(), self@),
    {
        Iter::new(self.root())
    }

    /// The entries from `start_key` on; none if it is too long for a key.
    pub fn iter_from(&self, start_key: &[u8]) -> (r: Iter<'_>)
        ensures
            if start_key@.len() <= MAX_KEY_LEN {
                lists(r.rows(), part(self@, |k: Seq<u8>| !key_lt(k, start_key@)))
            } else {
                r.rows().len() == 0
            },
    {
        Iter::from_key(self.root(), start_key)
    }

    /// The entries, last to first.
    pub fn reverse_iter(&self) -> (r: ReverseIter<'_>)
        ensures
            lists(r.rows().reverse(), self@),
    {
        ReverseIter::new(self.root())
    }

    /// The entries from `end_key` back, last to first; none if it is too long for a key.
    pub fn reverse_iter_from(&self, end_key: &[u8]) -> (r: ReverseIter<'_>)
        ensures
            if end_key@.len() <= MAX_KEY_LEN {
                lists(r.rows().reverse(), part(self@, |k: Seq<u8>| !key_lt(end_key@, k)))
            } else {
                r.rows().len() == 0
            },
    {
        ReverseIter::from_key_inclusive(self.root(), end_key)
    }

    /// The entries from `start` up to but not including `end`, or to the last
    /// one; refused if a bound is too long for a key.
    pub fn collect_range(&self, start: &[u8], end: Option<&[u8]>) -> (r: Result<Vec<(Vec<u8>, Vec<u8>)>, Error>)
        ensures
            match r {
                Ok(rows) => {
                    &&& start@.len() <= MAX_KEY_LEN
                    &&& end matches Some(e) ==> e@.len() <= MAX_KEY_LEN
                    &&& lists(
                        rows_view(rows@),
                        part(self@, |k: Seq<u8>| key_between(k, Some(start@), cursor::end_view(end))),
                    )
                },
                Err(e) => {
                    &&& e.fault() == Fault::Key
                    &&& start@.len() > MAX_KEY_LEN || (end matches Some(e) && e@.len() > MAX_KEY_LEN)
                    &&& e.text() == cursor::long_bound_text(start@, cursor::end_view(end))
                },
            },
    {
        let root = self.root();
        if let Some(node) = root {
            let _n: u16 = node.depth_below();
        }
        proof {
            law_range_lists_store(self.trie(), start@, cursor::end_view(end));
        }
        cursor::collect_range(root, start, end)
    }

    /// The entries whose keys begin with `prefix`; refused if it is too long for a key.
    pub fn collect_prefix(&self, prefix: &[u8]) -> (r: Result<Vec<(Vec<u8>, Vec<u8>)>, Error>)
        ensures
            match r {
                Ok(rows) => prefix@.len() <= MAX_KEY_LEN && lists(
                    rows_view(rows@),
                    part(self@, |k: Seq<u8>| prefix@.is_prefix_of(k)),
                ),
                Err(e) => e.fault() == Fault::Key && prefix@.len() > MAX_KEY_LEN && e.text() == long_key_text(
                    "mrt prefix"@,
                    prefix@.len(),
                ),
            },
    {
        let root = self.root();
        if let Some(node) = root {
            let _n: u16 = node.depth_below();
        }
        proof {
            law_prefix_lists_store(self.trie(), prefix@);
        }
        cursor::collect_prefix(root, prefix)
    }

    /// Proves what a query finds: which of the keys that it asks for are
    /// stored, and their values. Refused if a bound is too long for a key, or if
    /// a value is too long for a trace.
    pub fn prove(&self, query: Vec<QueryItem>) -> (r: Result<Vec<u8>, Error>)
        requires
            may_ask(self.trie(), query@),
        ensures
            proved(r, self.trie(), normalized(parts(query@))),
    {
        prove_from_snapshot(self, query)
    }
}

} // verus!
