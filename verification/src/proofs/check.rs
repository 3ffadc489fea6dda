//! Proofs of what a query finds in a Merkle search tree: making and checking them.

use vstd::prelude::*;

use crate::bits::{key_copy, key_less, key_lt, key_same};
use crate::error::{Error, Fault};
use crate::hash::{same_hash, NodeHash};
use crate::mrt::order::lemma_key_lt_total;
use crate::mrt::scan::rows_view;
use crate::proofs::op::{encode_into, encoded_steps, steps, Node, Shown, Step};
use crate::proofs::proof_tree::{built, execute, Visitor};
use crate::proofs::query::{parts, Query, QueryItem, QueryPart, Relation};
use crate::proofs::search_tree::{child_proof, items_left, items_right, proof_of, Bst, RefWalker, TreeNode};
use crate::text::told;

verus! {

/// How far the check of a query has come.
pub struct Checking {
    /// The number of items that are done.
    pub done: nat,
    /// Whether the last key belongs to a range that goes on.
    pub in_range: bool,
    /// Whether the last node showed its entry; `None` before the first node.
    pub last_shown: Option<bool>,
    /// The entries found.
    pub rows: Seq<(Seq<u8>, Seq<u8>)>,
}

/// Before the first node.
pub open spec fn checking_start() -> Checking {
    Checking { done: 0, in_range: false, last_shown: None, rows: Seq::empty() }
}

/// Holds an entry against the items that are not done. An item that begins
/// before the entry needs what lies between to be shown.
pub open spec fn check_entry(items: Seq<QueryPart>, c: Checking, key: Seq<u8>, value: Seq<u8>) -> Result<Checking, Fault>
    decreases items.len() - c.done,
{
    if c.done >= items.len() || items[c.done as int].relation(QueryPart::Key(key)) is After {
        Ok(c)
    } else {
        let item = items[c.done as int];
        if !c.in_range && key != item.lower() && c.last_shown == Some(false) {
            Err(Fault::Bound)
        } else {
            let passed = !key_lt(key, item.upper());
            let c2 = Checking {
                done: if passed {
                    c.done + 1
                } else {
                    c.done
                },
                in_range: !passed,
                ..c
            };
            if item.covers(key) {
                Ok(Checking { rows: c2.rows.push((key, value)), ..c2 })
            } else if passed {
                check_entry(items, c2, key, value)
            } else {
                Ok(c2)
            }
        }
    }
}

/// Holds a node against the items that are not done.
pub open spec fn check_node(items: Seq<QueryPart>, c: Checking, node: Shown) -> Result<Checking, Fault> {
    match node {
        Shown::KV(key, value) => match check_entry(items, c, key, value) {
            Ok(c2) => Ok(Checking { last_shown: Some(true), ..c2 }),
            Err(f) => Err(f),
        },
        _ => if c.in_range {
            Err(Fault::MissingData)
        } else {
            Ok(Checking { last_shown: Some(false), ..c })
        },
    }
}

/// [`check_node`] for given items.
pub open spec fn check_rule(items: Seq<QueryPart>) -> spec_fn(Checking, Shown) -> Result<Checking, Fault> {
    |c: Checking, node: Shown| check_node(items, c, node)
}

/// Checks the nodes of a proof against a query.
#[derive(Debug)]
pub struct QueryVisitor<'a> {
    items: &'a [QueryItem],
    done: usize,
    in_range: bool,
    last_shown: Option<bool>,
    rows: Vec<(Vec<u8>, Vec<u8>)>,
}

impl<'a> QueryVisitor<'a> {
    /// The items.
    pub closed spec fn items(self) -> Seq<QueryPart> {
        parts(self.items@)
    }

    /// Before the first node.
    pub fn new(items: &'a [QueryItem]) -> (r: Self)
        ensures
            r.items() == parts(items@),
            r.state() == checking_start(),
    {
        let r = QueryVisitor { items, done: 0, in_range: false, last_shown: None, rows: Vec::new() };
        assert(rows_view(r.rows@) =~= Seq::empty());
        r
    }

    fn entry(&mut self, key: &Vec<u8>, value: &Vec<u8>) -> (r: Result<(), Error>)
        ensures
            final(self).items() == old(self).items(),
            match check_entry(old(self).items(), old(self).state(), key@, value@) {
                Ok(c) => r is Ok && final(self).state() == c,
                Err(f) => r matches Err(e) && e.fault() == f,
            },
    {
        let ghost items = self.items();
        let node_key = QueryItem::Key(key_copy(key.as_slice()));
        while self.done < self.items.len()
            invariant
                self.items() == items,
                items == old(self).items(),
                node_key@ == QueryPart::Key(key@),
                check_entry(items, old(self).state(), key@, value@) == check_entry(items, self.state(), key@, value@),
            decreases items.len() - self.done,
        {
            let item: &QueryItem = &self.items[self.done];
            assert(item@ == items[self.done as int]);
            if item.relation(&node_key) == Relation::After {
                return Ok(());
            }
            if !self.in_range && !key_same(key.as_slice(), item.lower_bound()) {
                if let Some(false) = self.last_shown {
                    return Err(Error::Bound(told("Cannot verify lower bound of queried range")));
                }
            }
            let passed: bool = !key_less(key.as_slice(), item.upper_bound().0);
            let found: bool = item.contains(key.as_slice());
            proof {
                lemma_key_lt_total(key@, item@.lower());
                lemma_key_lt_total(item@.lower(), key@);
                lemma_key_lt_total(item@.upper(), key@);
            }
            if passed {
                self.done = self.done + 1;
            }
            self.in_range = !passed;
            if found {
                let ghost before = self.rows@;
                self.rows.push((key_copy(key.as_slice()), key_copy(value.as_slice())));
                proof {
                    assert(rows_view(self.rows@) =~= rows_view(before).push((key@, value@)));
                }
                return Ok(());
            }
            if !passed {
                return Ok(());
            }
        }
        Ok(())
    }
}

impl<'a> Visitor for QueryVisitor<'a> {
    type State = Checking;

    closed spec fn state(&self) -> Checking {
        Checking {
            done: self.done as nat,
            in_range: self.in_range,
            last_shown: self.last_shown,
            rows: rows_view(self.rows@),
        }
    }

    open spec fn rule(&self) -> spec_fn(Checking, Shown) -> Result<Checking, Fault> {
        check_rule(self.items())
    }

    fn visit(&mut self, node: &Node) -> (r: Result<(), Error>)
        ensures
            final(self).items() == old(self).items(),
    {
        match node {
            Node::KV(key, value) => {
                match self.entry(key, value) {
                    Ok(_) => {},
                    Err(e) => {
                        return Err(e);
                    },
                }
                self.last_shown = Some(true);
                Ok(())
            },
            _ => {
                if self.in_range {
                    return Err(Error::MissingData);
                }
                self.last_shown = Some(false);
                Ok(())
            },
        }
    }
}

/// What checking a proof against a query and a root hash gives.
pub open spec fn query_checked(
    r: Result<Vec<(Vec<u8>, Vec<u8>)>, Error>,
    bytes: Seq<u8>,
    items: Seq<QueryPart>,
    expected_hash: NodeHash,
) -> bool {
    match built(check_rule(items), bytes, checking_start()) {
        Err(f) => r matches Err(e) && e.fault() == f,
        Ok((t, c)) => if c.done < items.len() && c.last_shown != Some(true) {
            r matches Err(e) && e.fault() == Fault::MissingData
        } else if t.hash() != expected_hash {
            r matches Err(e) && e == Error::HashMismatch(expected_hash, t.hash())
        } else {
            r matches Ok(rows) && rows_view(rows@) == c.rows
        },
    }
}

/// Checks a proof against a query and a root hash, and gives the entries that
/// the query asks for. Keys that are shown to be absent are left out. It is an
/// error if the proof does not show enough.
pub fn verify_query(bytes: &[u8], query: &Query, expected_hash: NodeHash) -> (r: Result<Vec<(Vec<u8>, Vec<u8>)>, Error>)
    ensures
        query_checked(r, bytes@, query@, expected_hash),
{
    let items: &[QueryItem] = query.iter();
    let mut visitor = QueryVisitor::new(items);
    let hash: NodeHash = match execute(bytes, &mut visitor) {
        Ok(hash) => hash,
        Err(e) => {
            return Err(e);
        },
    };
    if visitor.done < items.len() {
        match visitor.last_shown {
            Some(true) => {},
            _ => {
                return Err(Error::MissingData);
            },
        }
    }
    if !same_hash(&hash, &expected_hash) {
        return Err(Error::HashMismatch(expected_hash, hash));
    }
    Ok(visitor.rows)
}

/// The entries that a proof shows.
pub struct Gathered {
    /// The entries, and whether the node before each is one of them or there is none.
    pub rows: Seq<(Seq<u8>, Seq<u8>, bool)>,
    /// Whether the last node is one of them.
    pub right_edge: bool,
}

/// Before the first node.
pub open spec fn gathered_start() -> Gathered {
    Gathered { rows: Seq::empty(), right_edge: true }
}

/// One more node.
pub open spec fn gather(g: Gathered, node: Shown) -> Result<Gathered, Fault> {
    match node {
        Shown::KV(key, value) => if g.rows.len() > 0 && !key_lt(g.rows.last().0, key) {
            Err(Fault::Proof)
        } else {
            Ok(Gathered { rows: g.rows.push((key, value, g.right_edge)), right_edge: true })
        },
        _ => Ok(Gathered { rows: g.rows, right_edge: false }),
    }
}

/// [`gather`] as a rule.
pub open spec fn gather_rule() -> spec_fn(Gathered, Shown) -> Result<Gathered, Fault> {
    |g: Gathered, node: Shown| gather(g, node)
}

/// The place of the first entry whose key is not before `key`.
pub open spec fn place_from(g: Gathered, key: Seq<u8>, i: int) -> int
    decreases g.rows.len() - i,
{
    if 0 <= i < g.rows.len() && key_lt(g.rows[i].0, key) {
        place_from(g, key, i + 1)
    } else {
        i
    }
}

/// What is known of `key`: its value, that it is absent, or nothing.
pub open spec fn known_value(g: Gathered, key: Seq<u8>) -> Result<Option<Seq<u8>>, Fault> {
    let i = place_from(g, key, 0);
    if i < g.rows.len() && g.rows[i].0 == key {
        Ok(Some(g.rows[i].1))
    } else if i < g.rows.len() && g.rows[i].2 {
        Ok(None)
    } else if i >= g.rows.len() && g.right_edge {
        Ok(None)
    } else {
        Err(Fault::MissingData)
    }
}

/// What is known of the entries of an item from the place `i` on; `first` if
/// none of them came before.
pub open spec fn known_rows(g: Gathered, item: QueryPart, i: int, first: bool) -> Result<Seq<(Seq<u8>, Seq<u8>)>, Fault>
    decreases g.rows.len() - i,
{
    if i < 0 || i >= g.rows.len() {
        if g.right_edge {
            Ok(Seq::empty())
        } else {
            Err(Fault::MissingData)
        }
    } else {
        let (key, value, next_to) = g.rows[i];
        if !next_to && !(first && key == item.lower()) {
            Err(Fault::MissingData)
        } else if !item.covers(key) {
            Ok(Seq::empty())
        } else if key == item.upper() {
            Ok(seq![(key, value)])
        } else {
            match known_rows(g, item, i + 1, false) {
                Ok(rows) => Ok(seq![(key, value)] + rows),
                Err(f) => Err(f),
            }
        }
    }
}

/// Entries with their flags, as values.
pub open spec fn flagged_view(rows: Seq<(Vec<u8>, Vec<u8>, bool)>) -> Seq<(Seq<u8>, Seq<u8>, bool)> {
    rows.map_values(|r: (Vec<u8>, Vec<u8>, bool)| (r.0@, r.1@, r.2))
}

/// Gathers the entries that a proof shows.
#[derive(Debug)]
pub struct EntryMapBuilder {
    rows: Vec<(Vec<u8>, Vec<u8>, bool)>,
    right_edge: bool,
}

impl EntryMapBuilder {
    /// Before the first node.
    pub fn new() -> (r: Self)
        ensures
            r.state() == gathered_start(),
    {
        let r = EntryMapBuilder { rows: Vec::new(), right_edge: true };
        assert(flagged_view(r.rows@) =~= Seq::empty());
        r
    }

    /// Adds what a node shows.
    pub fn insert(&mut self, node: &Node) -> (r: Result<(), Error>)
        ensures
            match gather(old(self).state(), node@) {
                Ok(g) => r is Ok && final(self).state() == g,
                Err(f) => r matches Err(e) && e.fault() == f,
            },
    {
        match node {
            Node::KV(key, value) => {
                let n: usize = self.rows.len();
                let ghost before = self.rows@;
                if n > 0 {
                    assert(flagged_view(before).last() == (before.last().0@, before.last().1@, before.last().2));
                    if !key_less(self.rows[n - 1].0.as_slice(), key.as_slice()) {
                        return Err(Error::Proof(told("Expected nodes to be in increasing key order")));
                    }
                }
                let flag: bool = self.right_edge;
                self.rows.push((key_copy(key.as_slice()), key_copy(value.as_slice()), flag));
                self.right_edge = true;
                assert(flagged_view(self.rows@) =~= flagged_view(before).push((key@, value@, flag)));
            },
            _ => {
                self.right_edge = false;
            },
        }
        Ok(())
    }

    /// What was gathered.
    pub fn build(self) -> (r: EntryMap)
        ensures
            r@ == self.state(),
    {
        EntryMap { rows: self.rows, right_edge: self.right_edge }
    }
}

impl Visitor for EntryMapBuilder {
    type State = Gathered;

    closed spec fn state(&self) -> Gathered {
        Gathered { rows: flagged_view(self.rows@), right_edge: self.right_edge }
    }

    open spec fn rule(&self) -> spec_fn(Gathered, Shown) -> Result<Gathered, Fault> {
        gather_rule()
    }

    fn visit(&mut self, node: &Node) -> (r: Result<(), Error>) {
        self.insert(node)
    }
}

/// The entries that a checked proof shows.
#[derive(Debug)]
pub struct EntryMap {
    rows: Vec<(Vec<u8>, Vec<u8>, bool)>,
    right_edge: bool,
}

impl View for EntryMap {
    type V = Gathered;

    closed spec fn view(&self) -> Gathered {
        Gathered { rows: flagged_view(self.rows@), right_edge: self.right_edge }
    }
}

/// What a lookup of a key gives.
pub open spec fn looked_up(r: Result<Option<&[u8]>, Error>, g: Gathered, key: Seq<u8>) -> bool {
    match known_value(g, key) {
        Ok(Some(value)) => r matches Ok(Some(v)) && v@ == value,
        Ok(None) => r matches Ok(None),
        Err(f) => r matches Err(e) && e.fault() == f,
    }
}

/// What a lookup of an item gives.
pub open spec fn ranged(r: Result<Vec<(Vec<u8>, Vec<u8>)>, Error>, g: Gathered, item: QueryPart) -> bool {
    match known_rows(g, item, place_from(g, item.lower(), 0), true) {
        Ok(rows) => r matches Ok(v) && rows_view(v@) == rows,
        Err(f) => r matches Err(e) && e.fault() == f,
    }
}

impl EntryMap {
    /// The place of the first entry whose key is not before `key`.
    fn place(&self, key: &[u8]) -> (i: usize)
        ensures
            i == place_from(self@, key@, 0),
            i <= self.rows@.len(),
    {
        let mut i: usize = 0;
        while i < self.rows.len() && key_less(self.rows[i].0.as_slice(), key)
            invariant
                i <= self.rows@.len(),
                place_from(self@, key@, 0) == place_from(self@, key@, i as int),
            decreases self.rows@.len() - i,
        {
            assert(self@.rows[i as int] == (self.rows@[i as int].0@, self.rows@[i as int].1@, self.rows@[i as int].2));
            i = i + 1;
        }
        proof {
            if i < self.rows@.len() {
                assert(self@.rows[i as int].0 == self.rows@[i as int].0@);
            }
        }
        i
    }

    /// The value under `key`, or `None` if the proof shows that there is none.
    /// It is an error if the proof shows neither.
    pub fn get(&self, key: &[u8]) -> (r: Result<Option<&[u8]>, Error>)
        ensures
            looked_up(r, self@, key@),
    {
        let i: usize = self.place(key);
        if i < self.rows.len() {
            assert(self@.rows[i as int] == (self.rows@[i as int].0@, self.rows@[i as int].1@, self.rows@[i as int].2));
            if key_same(self.rows[i].0.as_slice(), key) {
                return Ok(Some(self.rows[i].1.as_slice()));
            }
            if self.rows[i].2 {
                return Ok(None);
            }
        } else if self.right_edge {
            return Ok(None);
        }
        Err(Error::MissingData)
    }

    /// The entries that an item asks for. It is an error if the proof does not
    /// show all of them, or not that these are all.
    pub fn range(&self, item: &QueryItem) -> (r: Result<Vec<(Vec<u8>, Vec<u8>)>, Error>)
        ensures
            ranged(r, self@, item@),
    {
        let mut out: Vec<(Vec<u8>, Vec<u8>)> = Vec::new();
        let mut i: usize = self.place(item.lower_bound());
        let mut first: bool = true;
        let ghost all = known_rows(self@, item@, i as int, true);
        assert(rows_view(out@) =~= Seq::empty());
        while i < self.rows.len()
            invariant
                i <= self.rows@.len(),
                all == known_rows(self@, item@, place_from(self@, item@.lower(), 0), true),
                match known_rows(self@, item@, i as int, first) {
                    Ok(rows) => all == Ok::<Seq<(Seq<u8>, Seq<u8>)>, Fault>(rows_view(out@) + rows),
                    Err(f) => all == Err::<Seq<(Seq<u8>, Seq<u8>)>, Fault>(f),
                },
            decreases self.rows@.len() - i,
        {
            let row = &self.rows[i];
            assert(self@.rows[i as int] == (row.0@, row.1@, row.2));
            if !row.2 && !(first && key_same(row.0.as_slice(), item.lower_bound())) {
                return Err(Error::MissingData);
            }
            if !item.contains(row.0.as_slice()) {
                assert(rows_view(out@) + Seq::<(Seq<u8>, Seq<u8>)>::empty() =~= rows_view(out@));
                return Ok(out);
            }
            let ghost before = out@;
            out.push((key_copy(row.0.as_slice()), key_copy(row.1.as_slice())));
            proof {
                assert(rows_view(out@) =~= rows_view(before) + seq![(row.0@, row.1@)]);
                if let Ok(rows) = known_rows(self@, item@, i + 1, false) {
                    assert(rows_view(before) + (seq![(row.0@, row.1@)] + rows) =~= rows_view(out@) + rows);
                }
            }
            if key_same(row.0.as_slice(), item.upper_bound().0) {
                return Ok(out);
            }
            first = false;
            i = i + 1;
        }
        assert(rows_view(out@) + Seq::<(Seq<u8>, Seq<u8>)>::empty() =~= rows_view(out@));
        if self.right_edge {
            Ok(out)
        } else {
            Err(Error::MissingData)
        }
    }
}

/// What checking a proof against a root hash gives.
pub open spec fn map_checked(r: Result<EntryMap, Error>, bytes: Seq<u8>, expected_hash: NodeHash) -> bool {
    match built(gather_rule(), bytes, gathered_start()) {
        Err(f) => r matches Err(e) && e.fault() == f,
        Ok((t, g)) => if t.hash() != expected_hash {
            r matches Err(e) && e == Error::HashMismatch(expected_hash, t.hash())
        } else {
            r matches Ok(map) && map@ == g
        },
    }
}

/// Checks a proof against a root hash, and gives what it shows. What the
/// result says of keys that the proof does not show is an error.
pub fn verify(bytes: &[u8], expected_hash: NodeHash) -> (r: Result<EntryMap, Error>)
    ensures
        map_checked(r, bytes@, expected_hash),
{
    let mut builder = EntryMapBuilder::new();
    let hash: NodeHash = match execute(bytes, &mut builder) {
        Ok(hash) => hash,
        Err(e) => {
            return Err(e);
        },
    };
    if !same_hash(&hash, &expected_hash) {
        return Err(Error::HashMismatch(expected_hash, hash));
    }
    Ok(builder.build())
}

/// Whether all steps have a byte form.
pub open spec fn all_fit(ops: Seq<Step>) -> bool {
    forall|i: int| 0 <= i < ops.len() ==> (#[trigger] ops[i]).fits()
}

/// The steps of proofs of a tree with a byte form have one.
pub proof fn lemma_proofs_fit(t: Bst, items: Seq<QueryPart>)
    requires
        t.fits(),
    ensures
        all_fit(proof_of(t, items).ops),
        all_fit(child_proof(t, items).ops),
    decreases t,
{
    if let Bst::Node { key, value, left, right } = t {
        lemma_proofs_fit(*left, items_left(items, key));
        lemma_proofs_fit(*right, items_right(items, key));
        let l = child_proof(*left, items_left(items, key)).ops;
        let r = child_proof(*right, items_right(items, key)).ops;
        let ops = proof_of(t, items).ops;
        assert forall|i: int| 0 <= i < ops.len() implies (#[trigger] ops[i]).fits() by {
            if i < l.len() {
                assert(ops[i] == l[i]);
            } else {
                let n = if l.len() > 0 {
                    l.len() + 2
                } else {
                    1
                };
                if n <= i < n + r.len() {
                    assert(ops[i] == r[i - n]);
                }
            }
        }
    }
}

/// The byte form of a proof of what items find in a tree. There is none for an empty tree.
pub fn prove_resident(maybe_tree: Option<&TreeNode>, query: Vec<QueryItem>) -> (r: Result<Vec<u8>, Error>)
    ensures
        match maybe_tree {
            Some(tree) => r matches Ok(bytes) && bytes@ == encoded_steps(proof_of(tree.bst(), parts(query@)).ops),
            None => r matches Err(e) && e.fault() == Fault::Proof,
        },
{
    let tree: &TreeNode = match maybe_tree {
        Some(tree) => tree,
        None => {
            return Err(Error::Proof(told("Cannot create proof for empty tree")));
        },
    };
    let (ops, _) = match RefWalker::new(tree).create_proof(query.as_slice()) {
        Ok(p) => p,
        Err(e) => {
            return Err(e);
        },
    };
    let mut bytes: Vec<u8> = Vec::new();
    proof {
        lemma_proofs_fit(tree.bst(), parts(query@));
        assert forall|i: int| 0 <= i < ops@.len() implies (#[trigger] ops@[i])@.fits() by {
            assert(steps(ops@)[i] == ops@[i]@);
        }
    }
    encode_into(ops.as_slice(), &mut bytes);
    assert(bytes@ =~= encoded_steps(proof_of(tree.bst(), parts(query@)).ops));
    Ok(bytes)
}

} // verus!
