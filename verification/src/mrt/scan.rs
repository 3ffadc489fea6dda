//! The entries of a trie in order, as values.

use vstd::prelude::*;

use crate::bits::{key_has_prefix, key_less, key_lt, pack, route_lt};
use crate::error::Fault;
use crate::mrt::model::{place, BoundPosition, Trie};
use crate::mrt::route::route;

verus! {

/// What a scan meets.
pub enum Item {
    /// A leaf: its route, and its value.
    Entry { route: Seq<bool>, value: Seq<u8> },
    /// A pruned node.
    Hole,
}

/// What there is below a trie, in order; the way to its root is `prefix`.
pub open spec fn flat(t: Trie, prefix: Seq<bool>) -> Seq<Item>
    decreases t,
{
    match t {
        Trie::Leaf { skip, value } => seq![Item::Entry { route: prefix + skip, value }],
        Trie::Branch { skip, left, right } => flat(*left, prefix + skip + seq![false]) + flat(
            *right,
            prefix + skip + seq![true],
        ),
        Trie::Pruned { hash, depth } => seq![Item::Hole],
    }
}

/// There is something below every trie.
pub proof fn lemma_flat_some(t: Trie, prefix: Seq<bool>)
    ensures
        flat(t, prefix).len() > 0,
    decreases t,
{
    if let Trie::Branch { skip, left, right } = t {
        lemma_flat_some(*left, prefix + skip + seq![false]);
    }
}

/// What there is below a trie from the route `k` on.
pub open spec fn from_bound(t: Trie, prefix: Seq<bool>, k: Seq<bool>) -> Result<Seq<Item>, Fault>
    decreases t,
{
    match t {
        Trie::Leaf { skip, value } => if (prefix.len() + skip.len()) % 8 != 0 {
            Err(Fault::Tree)
        } else if route_lt(prefix + skip, k) {
            Ok(Seq::empty())
        } else {
            Ok(flat(t, prefix))
        },
        Trie::Branch { skip, left, right } => match place(skip, k, prefix.len() as int) {
            BoundPosition::Before => Ok(flat(t, prefix)),
            BoundPosition::After => Ok(Seq::empty()),
            BoundPosition::InLeft => match from_bound(*left, prefix + skip + seq![false], k) {
                Ok(a) => Ok(a + flat(*right, prefix + skip + seq![true])),
                Err(f) => Err(f),
            },
            BoundPosition::InRight => from_bound(*right, prefix + skip + seq![true], k),
        },
        Trie::Pruned { hash, depth } => Err(Fault::Pruned),
    }
}

/// What there is below a trie up to the route `k`, last first; with `strict`, without `k` itself.
pub open spec fn up_to_bound(t: Trie, prefix: Seq<bool>, k: Seq<bool>, strict: bool) -> Result<Seq<Item>, Fault>
    decreases t,
{
    match t {
        Trie::Leaf { skip, value } => if (prefix.len() + skip.len()) % 8 != 0 {
            Err(Fault::Tree)
        } else if route_lt(prefix + skip, k) || (!strict && prefix + skip == k) {
            Ok(flat(t, prefix))
        } else {
            Ok(Seq::empty())
        },
        Trie::Branch { skip, left, right } => match place(skip, k, prefix.len() as int) {
            BoundPosition::After => Ok(flat(t, prefix).reverse()),
            BoundPosition::Before => Ok(Seq::empty()),
            BoundPosition::InRight => match up_to_bound(*right, prefix + skip + seq![true], k, strict) {
                Ok(a) => Ok(a + flat(*left, prefix + skip + seq![false]).reverse()),
                Err(f) => Err(f),
            },
            BoundPosition::InLeft => up_to_bound(*left, prefix + skip + seq![false], k, strict),
        },
        Trie::Pruned { hash, depth } => Err(Fault::Pruned),
    }
}

/// The entry that an item stands for.
pub open spec fn entry(i: Item) -> Result<(Seq<u8>, Seq<u8>), Fault> {
    match i {
        Item::Entry { route, value } => if route.len() % 8 == 0 {
            Ok((pack(route), value))
        } else {
            Err(Fault::Tree)
        },
        Item::Hole => Err(Fault::Pruned),
    }
}

/// At which key a scan stops.
#[derive(Clone, Copy, Debug)]
pub enum Stop<'a> {
    /// At none.
    Never,
    /// At this key and those after it.
    From(&'a [u8]),
    /// At the keys after this one.
    After(&'a [u8]),
    /// At a key without this prefix.
    Outside(&'a [u8]),
}

/// [`Stop`] as a value.
pub enum Until {
    Never,
    From(Seq<u8>),
    After(Seq<u8>),
    Outside(Seq<u8>),
}

impl Until {
    /// Whether a scan stops at `key`.
    pub open spec fn fires(self, key: Seq<u8>) -> bool {
        match self {
            Until::Never => false,
            Until::From(end) => !key_lt(key, end),
            Until::After(end) => key_lt(end, key),
            Until::Outside(prefix) => !prefix.is_prefix_of(key),
        }
    }
}

impl<'a> View for Stop<'a> {
    type V = Until;

    open spec fn view(&self) -> Until {
        match *self {
            Stop::Never => Until::Never,
            Stop::From(end) => Until::From(end@),
            Stop::After(end) => Until::After(end@),
            Stop::Outside(prefix) => Until::Outside(prefix@),
        }
    }
}

impl<'a> Stop<'a> {
    /// Whether a scan stops at `key`.
    pub fn fires(&self, key: &[u8]) -> (r: bool)
        ensures
            r == self@.fires(key@),
    {
        match self {
            Stop::Never => false,
            Stop::From(end) => !key_less(key, end),
            Stop::After(end) => key_less(end, key),
            Stop::Outside(prefix) => !key_has_prefix(key, prefix),
        }
    }
}

/// How a scan ended.
pub enum End {
    /// There was nothing left.
    Exhausted,
    /// At a key that it stops at.
    Stopped,
    /// At an item that stands for no entry.
    Failed(Fault),
}

/// What a scan gave.
pub struct Drained {
    pub rows: Seq<(Seq<u8>, Seq<u8>)>,
    pub end: End,
}

/// A scan over items.
pub open spec fn drain(items: Seq<Item>, until: Until) -> Drained
    decreases items.len(),
{
    if items.len() == 0 {
        Drained { rows: Seq::empty(), end: End::Exhausted }
    } else {
        match entry(items[0]) {
            Err(f) => Drained { rows: Seq::empty(), end: End::Failed(f) },
            Ok(e) => if until.fires(e.0) {
                Drained { rows: Seq::empty(), end: End::Stopped }
            } else {
                let d = drain(items.skip(1), until);
                Drained { rows: seq![e] + d.rows, end: d.end }
            },
        }
    }
}

/// A scan over items in two parts.
pub proof fn lemma_drain_add(a: Seq<Item>, b: Seq<Item>, until: Until)
    ensures
        drain(a + b, until) == (if drain(a, until).end is Exhausted {
            Drained { rows: drain(a, until).rows + drain(b, until).rows, end: drain(b, until).end }
        } else {
            drain(a, until)
        }),
    decreases a.len(),
{
    if a.len() == 0 {
        assert(a + b =~= b);
        assert(drain(a, until).rows + drain(b, until).rows =~= drain(b, until).rows);
    } else {
        assert((a + b)[0] == a[0]);
        assert((a + b).skip(1) =~= a.skip(1) + b);
        lemma_drain_add(a.skip(1), b, until);
        if let Ok(e) = entry(a[0]) {
            if !until.fires(e.0) {
                let x = drain(a.skip(1), until);
                let y = drain(b, until);
                assert(seq![e] + (x.rows + y.rows) =~= (seq![e] + x.rows) + y.rows);
            }
        }
    }
}

/// The rows of a scan that did not fail.
pub open spec fn rows_of(d: Drained) -> Result<Seq<(Seq<u8>, Seq<u8>)>, Fault> {
    match d.end {
        End::Failed(f) => Err(f),
        _ => Ok(d.rows),
    }
}

/// The entries from the route `k` on, up to where the scan stops.
pub open spec fn scan(t: Trie, k: Seq<bool>, until: Until) -> Result<Seq<(Seq<u8>, Seq<u8>)>, Fault> {
    match from_bound(t, Seq::empty(), k) {
        Ok(items) => rows_of(drain(items, until)),
        Err(f) => Err(f),
    }
}

/// As [`scan`], for a trie that may be empty.
pub open spec fn scan_root(root: Option<Trie>, k: Seq<bool>, until: Until) -> Result<Seq<(Seq<u8>, Seq<u8>)>, Fault> {
    match root {
        Some(t) => scan(t, k, until),
        None => Ok(Seq::empty()),
    }
}

/// Rows as values.
pub open spec fn rows_view(rows: Seq<(Vec<u8>, Vec<u8>)>) -> Seq<(Seq<u8>, Seq<u8>)> {
    rows.map_values(|r: (Vec<u8>, Vec<u8>)| (r.0@, r.1@))
}

/// Entries as values are just as many, and each has the key and the value of its entry.
pub proof fn law_rows_are_told_in_full(a: Seq<(Vec<u8>, Vec<u8>)>, b: Seq<(Vec<u8>, Vec<u8>)>)
    ensures
        rows_view(a + b) == rows_view(a) + rows_view(b),
        a.len() == 1 ==> rows_view(a) == seq![(a[0].0@, a[0].1@)],
        a.len() == 0 ==> rows_view(a) == Seq::<(Seq<u8>, Seq<u8>)>::empty(),
{
    assert(rows_view(a + b) =~= rows_view(a) + rows_view(b));
    assert(a.len() == 1 ==> rows_view(a) =~= seq![(a[0].0@, a[0].1@)]);
    assert(a.len() == 0 ==> rows_view(a) =~= Seq::<(Seq<u8>, Seq<u8>)>::empty());
}

/// Whether a read gave the rows that the model gives.
pub open spec fn gives(
    r: Result<Vec<(Vec<u8>, Vec<u8>)>, crate::error::Error>,
    m: Result<Seq<(Seq<u8>, Seq<u8>)>, Fault>,
) -> bool {
    match (r, m) {
        (Ok(rows), Ok(want)) => rows_view(rows@) == want,
        (Err(e), Err(f)) => e.fault() == f,
        _ => false,
    }
}

} // verus!
