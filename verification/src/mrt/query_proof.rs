//! Proofs of what a query finds.

use vstd::prelude::*;

use crate::bits::{key_copy, key_lt};
use crate::error::{Error, Fault};
use crate::hash::NodeHash;
use crate::mrt::cursor::{got, read_range, read_range_inclusive};
use crate::mrt::keys::{contents, key_between, lemma_find_contents, sound};
use crate::mrt::model::Trie;
use crate::mrt::order::{law_inclusive_range_lists_store, law_range_lists_store, lemma_key_lt_total,
    lemma_key_lt_trans, lists, part};
use crate::mrt::route::MAX_KEY_LEN;
use crate::mrt::scan::{gives, rows_view};
use crate::mrt::session::{answer, run, Answer, Event};
use crate::mrt::soundness::clear_run;
use crate::mrt::store::{hash_of, Checkpoint};
use crate::mrt::trace::Trace;
use crate::mrt::tracer::{prune_root, MrtTracer};
use crate::mrt::tree::find_root;
use crate::mrt::wire::{decodable_root, encoded_root, law_decode_undoes_encode, law_short_keys_are_accepted,
    law_short_values_have_a_form, lemma_prune_fits, parse_root, values_fit};
use crate::ops::Lookup;
use crate::proofs::query::{any_covers, apart, law_relation, law_with_part, lemma_sought, meets_one, parts, seek,
    with_part, Query, QueryItem, QueryPart};

verus! {

/// The read that an item stands for.
pub open spec fn lookup_of(p: QueryPart) -> Lookup {
    match p {
        QueryPart::Key(key) => Lookup::Key(key),
        QueryPart::Range { start, end } => Lookup::Range { start, end },
        QueryPart::RangeInclusive { start, end } => Lookup::RangeInclusive { start, end },
    }
}

/// The entries that an answer to an item holds.
pub open spec fn rows_in(p: QueryPart, a: Answer) -> Seq<(Seq<u8>, Seq<u8>)> {
    match a {
        Answer::Value(Some(value)) => seq![(p.lower(), value)],
        Answer::Value(None) => Seq::empty(),
        Answer::Rows(rows) => rows,
    }
}

/// The entries of a trie that an item asks for.
pub open spec fn item_rows(root: Option<Trie>, p: QueryPart) -> Result<Seq<(Seq<u8>, Seq<u8>)>, Fault> {
    match answer(root, lookup_of(p)) {
        Ok(a) => Ok(rows_in(p, a)),
        Err(f) => Err(f),
    }
}

/// The entries of a trie that a list of items asks for.
pub open spec fn query_rows(root: Option<Trie>, items: Seq<QueryPart>) -> Result<Seq<(Seq<u8>, Seq<u8>)>, Fault>
    decreases items.len(),
{
    if items.len() == 0 {
        Ok(Seq::empty())
    } else {
        match query_rows(root, items.drop_last()) {
            Ok(rows) => match item_rows(root, items.last()) {
                Ok(more) => Ok(rows + more),
                Err(f) => Err(f),
            },
            Err(f) => Err(f),
        }
    }
}

/// Items as the query that they make up.
pub open spec fn normalized(items: Seq<QueryPart>) -> Seq<QueryPart>
    decreases items.len(),
{
    if items.len() == 0 {
        Seq::empty()
    } else {
        with_part(normalized(items.drop_last()), items.last())
    }
}

/// Whether a bound of an item is too long for a key.
pub open spec fn overlong(p: QueryPart) -> bool {
    p.lower().len() > MAX_KEY_LEN || p.upper().len() > MAX_KEY_LEN
}

/// Whether the bounds of an item are not the wrong way round.
pub open spec fn upright(p: QueryPart) -> bool {
    p is Key || !key_lt(p.upper(), p.lower())
}

/// Whether every item that is reached can be read: its bounds are the right way
/// round, unless one is too long for a key and the item is refused. An item is
/// reached if all items before it find their entries. With `all` unset, half-open
/// items may be the wrong way round.
pub open spec fn answerable(root: Option<Trie>, items: Seq<QueryPart>, all: bool) -> bool {
    forall|i: int|
        0 <= i < items.len() && query_rows(root, #[trigger] items.take(i)) is Ok && !overlong(items[i]) ==> tidy(
            items[i],
            all,
        )
}

/// Whether a query may be asked: the bounds of all its items are the right way
/// round, or at least those of the items that it comes down to and that are
/// reached.
pub open spec fn may_ask(root: Option<Trie>, query: Seq<QueryItem>) -> bool {
    ||| forall|i: int| 0 <= i < query.len() ==> upright((#[trigger] query[i])@)
    ||| answerable(root, normalized(parts(query)), true)
}

/// Whether items can be read in a trace, if it comes to that: if the bytes are a
/// trace with the expected root hash.
pub open spec fn checkable(bytes: Seq<u8>, items: Seq<QueryPart>, expected_hash: NodeHash) -> bool {
    match parse_root(bytes) {
        Ok(t) => hash_of(t) == expected_hash ==> answerable(t, items, false),
        Err(_) => true,
    }
}

/// Whether a query may be checked against a trace: the bounds of its inclusive
/// items are the right way round, or at least those of the items that it comes
/// down to and that are reached.
pub open spec fn may_check(bytes: Seq<u8>, query: Seq<QueryItem>, expected_hash: NodeHash) -> bool {
    ||| forall|i: int| 0 <= i < query.len() ==> ((#[trigger] query[i])@ is RangeInclusive ==> upright(query[i]@))
    ||| checkable(bytes, normalized(parts(query)), expected_hash)
}

/// As [`may_check`], for items in order.
pub open spec fn may_check_parts(bytes: Seq<u8>, items: Seq<QueryPart>, expected_hash: NodeHash) -> bool {
    ||| forall|i: int| 0 <= i < items.len() ==> ((#[trigger] items[i]) is RangeInclusive ==> upright(items[i]))
    ||| checkable(bytes, items, expected_hash)
}

/// Whether an item is the right way round; with `all` unset, this is asked only
/// of items that hold their upper bound.
pub open spec fn tidy(p: QueryPart, all: bool) -> bool {
    all || p is RangeInclusive ==> upright(p)
}

/// Of two items, one of them the right way round, the merged one is so too.
proof fn lemma_merged_upright(a: QueryPart, b: QueryPart)
    ensures
        forall|all: bool| tidy(a, all) && tidy(b, all) ==> #[trigger] tidy(a.merged(b), all),
{
    let c = a.merged(b);
    lemma_key_lt_total(b.lower(), b.lower());
    lemma_key_lt_total(a.lower(), b.lower());
    lemma_key_lt_total(a.upper(), b.upper());
    lemma_key_lt_total(a.upper(), a.lower());
    lemma_key_lt_total(b.upper(), b.lower());
    if key_lt(c.upper(), c.lower()) {
        if upright(a) {
            lemma_le_lt(a.lower(), a.upper(), c.upper(), c.lower());
        }
        if upright(b) {
            lemma_le_lt(b.lower(), b.upper(), c.upper(), c.lower());
        }
    }
}

/// A chain of keys.
proof fn lemma_le_lt(a: Seq<u8>, b: Seq<u8>, c: Seq<u8>, d: Seq<u8>)
    requires
        !key_lt(b, a),
        !key_lt(c, b),
        key_lt(c, d),
    ensures
        key_lt(a, d),
{
    lemma_key_lt_total(a, b);
    lemma_key_lt_total(b, c);
    if b != c {
        lemma_key_lt_trans(b, c, d);
    }
    if a != b {
        lemma_key_lt_trans(a, b, d);
    }
}

/// One more item that is the right way round.
proof fn lemma_with_upright(items: Seq<QueryPart>, part: QueryPart, all: bool)
    requires
        forall|i: int| 0 <= i < items.len() ==> tidy(#[trigger] items[i], all),
        tidy(part, all),
    ensures
        forall|i: int|
            0 <= i < with_part(items, part).len() ==> tidy(#[trigger] with_part(items, part)[i], all),
    decreases items.len(),
{
    let i = seek(items, part);
    lemma_sought(items, part);
    if meets_one(items, part) {
        lemma_merged_upright(part, items[i]);
        let rest = items.remove(i);
        assert forall|j: int| 0 <= j < rest.len() implies tidy(#[trigger] rest[j], all) by {
            assert(rest[j] == items[if j < i {
                j
            } else {
                j + 1
            }]);
        }
        assert(tidy(part.merged(items[i]), all));
        lemma_with_upright(rest, part.merged(items[i]), all);
        assert(with_part(items, part) == with_part(rest, part.merged(items[i])));
    } else {
        let out = items.insert(i, part);
        assert forall|j: int| 0 <= j < out.len() implies tidy(#[trigger] out[j], all) by {
            if j < i {
                assert(out[j] == items[j]);
            } else if j > i {
                assert(out[j] == items[j - 1]);
            }
        }
        assert(with_part(items, part) == out);
    }
}

/// Items that are the right way round make up a query whose items are.
proof fn lemma_normalized_upright(items: Seq<QueryPart>, all: bool)
    requires
        forall|i: int| 0 <= i < items.len() ==> tidy(#[trigger] items[i], all),
    ensures
        forall|i: int|
            0 <= i < normalized(items).len() ==> tidy(#[trigger] normalized(items)[i], all),
    decreases items.len(),
{
    if items.len() > 0 {
        let init = items.drop_last();
        assert forall|i: int| 0 <= i < init.len() implies tidy(#[trigger] init[i], all) by {
            assert(init[i] == items[i]);
        }
        lemma_normalized_upright(init, all);
        assert(items.last() == items[items.len() - 1]);
        lemma_with_upright(normalized(init), items.last(), all);
    }
}

/// What may be asked can be.
proof fn lemma_may_ask(root: Option<Trie>, query: Seq<QueryItem>)
    requires
        may_ask(root, query),
    ensures
        answerable(root, normalized(parts(query)), true),
{
    if !answerable(root, normalized(parts(query)), true) {
        let items = parts(query);
        assert forall|i: int| 0 <= i < items.len() implies tidy(#[trigger] items[i], true) by {
            assert(items[i] == query[i]@);
        }
        lemma_normalized_upright(items, true);
    }
}

/// What may be checked can be.
proof fn lemma_may_check(bytes: Seq<u8>, query: Seq<QueryItem>, expected_hash: NodeHash)
    requires
        may_check(bytes, query, expected_hash),
    ensures
        checkable(bytes, normalized(parts(query)), expected_hash),
{
    if !checkable(bytes, normalized(parts(query)), expected_hash) {
        let items = parts(query);
        assert forall|i: int| 0 <= i < items.len() implies tidy(#[trigger] items[i], false) by {
            assert(items[i] == query[i]@);
        }
        lemma_normalized_upright(items, false);
    }
}

/// The reads of a list of items, as events.
pub open spec fn item_events(items: Seq<QueryPart>) -> Seq<Event> {
    items.map_values(|p: QueryPart| Event::Read(lookup_of(p)))
}

/// Two tries that answer the reads of a list of items alike give the same entries.
pub proof fn lemma_rows_by_run(a: Option<Trie>, b: Option<Trie>, items: Seq<QueryPart>)
    requires
        run(a, item_events(items)) is Ok,
        run(b, item_events(items)) is Ok,
        run(a, item_events(items))->Ok_0.answers == run(b, item_events(items))->Ok_0.answers,
    ensures
        query_rows(a, items) is Ok,
        query_rows(a, items) == query_rows(b, items),
        run(a, item_events(items))->Ok_0.root == a,
        run(b, item_events(items))->Ok_0.root == b,
    decreases items.len(),
{
    let events = item_events(items);
    if items.len() > 0 {
        assert(events.drop_last() =~= item_events(items.drop_last()));
        let x = run(a, events.drop_last())->Ok_0;
        let y = run(b, events.drop_last())->Ok_0;
        let p = items.last();
        assert(events.last() == Event::Read(lookup_of(p)));
        let ax = answer(x.root, lookup_of(p))->Ok_0;
        let ay = answer(y.root, lookup_of(p))->Ok_0;
        assert(x.answers.push(ax).drop_last() =~= x.answers);
        assert(y.answers.push(ay).drop_last() =~= y.answers);
        assert(x.answers.push(ax).last() == ax);
        assert(y.answers.push(ay).last() == ay);
        lemma_rows_by_run(a, b, items.drop_last());
    }
}

/// Something that answers the reads of a query.
pub trait MrtQuerySurface {
    /// The trie that is read.
    spec fn root(&self) -> Option<Trie>;

    /// What was read so far.
    spec fn log(&self) -> Seq<Event>;

    /// Whether it can be read.
    spec fn usable(&self) -> bool;

    /// The value under `key`.
    fn surface_get(&mut self, key: &[u8]) -> (r: Result<Option<Vec<u8>>, Error>)
        requires
            old(self).usable(),
        ensures
            final(self).usable(),
            final(self).root() == old(self).root(),
            got(r, find_root(old(self).root(), key@)),
            r is Ok ==> final(self).log() == old(self).log().push(Event::Read(Lookup::Key(key@))),
    ;

    /// The entries from `start` up to but not including `end`.
    fn surface_range(&mut self, start: &[u8], end: &[u8]) -> (r: Result<Vec<(Vec<u8>, Vec<u8>)>, Error>)
        requires
            old(self).usable(),
        ensures
            final(self).usable(),
            final(self).root() == old(self).root(),
            gives(r, read_range(old(self).root(), start@, Some(end@))),
            r is Ok ==> final(self).log() == old(self).log().push(Event::Read(Lookup::Range { start: start@, end: end@ })),
    ;

    /// The entries from `start` up to and including `end`.
    fn surface_range_inclusive(&mut self, start: &[u8], end: &[u8]) -> (r: Result<Vec<(Vec<u8>, Vec<u8>)>, Error>)
        requires
            old(self).usable(),
            start@.len() <= MAX_KEY_LEN && end@.len() <= MAX_KEY_LEN ==> !key_lt(end@, start@),
        ensures
            final(self).usable(),
            final(self).root() == old(self).root(),
            gives(r, read_range_inclusive(old(self).root(), start@, end@)),
            r is Ok ==> final(self).log() == old(self).log().push(
                Event::Read(Lookup::RangeInclusive { start: start@, end: end@ }),
            ),
    ;
}

/// Reads a store and notes what was visited.
impl MrtQuerySurface for MrtTracer {
    open spec fn root(&self) -> Option<Trie> {
        self.now()
    }

    open spec fn log(&self) -> Seq<Event> {
        self.events()
    }

    open spec fn usable(&self) -> bool {
        self.ok()
    }

    fn surface_get(&mut self, key: &[u8]) -> (r: Result<Option<Vec<u8>>, Error>)
        ensures
            final(self).start() == old(self).start(),
    {
        self.get(key)
    }

    fn surface_range(&mut self, start: &[u8], end: &[u8]) -> (r: Result<Vec<(Vec<u8>, Vec<u8>)>, Error>)
        ensures
            final(self).start() == old(self).start(),
    {
        self.range(start, end)
    }

    fn surface_range_inclusive(&mut self, start: &[u8], end: &[u8]) -> (r: Result<Vec<(Vec<u8>, Vec<u8>)>, Error>)
        ensures
            final(self).start() == old(self).start(),
    {
        self.range_inclusive(start, end)
    }
}

/// Reads a trace.
pub struct TraceSurface<'a> {
    trace: &'a Trace,
    events: Ghost<Seq<Event>>,
}

impl<'a> TraceSurface<'a> {
    /// Over a trace, of which nothing was read yet.
    pub fn new(trace: &'a Trace) -> (r: Self)
        ensures
            r.root() == trace.trie(),
            r.log() == Seq::<Event>::empty(),
            r.usable(),
    {
        TraceSurface { trace, events: Ghost(Seq::empty()) }
    }
}

impl<'a> MrtQuerySurface for TraceSurface<'a> {
    closed spec fn root(&self) -> Option<Trie> {
        self.trace.trie()
    }

    closed spec fn log(&self) -> Seq<Event> {
        self.events@
    }

    open spec fn usable(&self) -> bool {
        true
    }

    fn surface_get(&mut self, key: &[u8]) -> (r: Result<Option<Vec<u8>>, Error>) {
        proof {
            self.events@ = self.events@.push(Event::Read(Lookup::Key(key@)));
        }
        self.trace.get(key)
    }

    fn surface_range(&mut self, start: &[u8], end: &[u8]) -> (r: Result<Vec<(Vec<u8>, Vec<u8>)>, Error>) {
        proof {
            self.events@ = self.events@.push(Event::Read(Lookup::Range { start: start@, end: end@ }));
        }
        self.trace.collect_range(start, Some(end))
    }

    fn surface_range_inclusive(&mut self, start: &[u8], end: &[u8]) -> (r: Result<Vec<(Vec<u8>, Vec<u8>)>, Error>) {
        proof {
            self.events@ = self.events@.push(Event::Read(Lookup::RangeInclusive { start: start@, end: end@ }));
        }
        self.trace.collect_range_inclusive(start, end)
    }
}

/// The entries that an item asks for.
fn collect_item<S: MrtQuerySurface>(surface: &mut S, item: &QueryItem) -> (r: Result<Vec<(Vec<u8>, Vec<u8>)>, Error>)
    requires
        old(surface).usable(),
        overlong(item@) || (item@ is RangeInclusive ==> upright(item@)),
    ensures
        final(surface).usable(),
        final(surface).root() == old(surface).root(),
        gives(r, item_rows(old(surface).root(), item@)),
        r is Ok ==> final(surface).log() == old(surface).log().push(Event::Read(lookup_of(item@))),
{
    match item {
        QueryItem::Key(key) => match surface.surface_get(key.as_slice()) {
            Ok(value) => {
                let mut out: Vec<(Vec<u8>, Vec<u8>)> = Vec::new();
                if let Some(value) = value {
                    out.push((key_copy(key.as_slice()), value));
                }
                assert(rows_view(out@) =~= item_rows(old(surface).root(), item@)->Ok_0);
                Ok(out)
            },
            Err(e) => Err(e),
        },
        QueryItem::Range(range) => surface.surface_range(range.start.as_slice(), range.end.as_slice()),
        QueryItem::RangeInclusive(range) => surface.surface_range_inclusive(item.lower_bound(), item.upper_bound().0),
    }
}

/// The query that items make up.
fn normalize_query(items: Vec<QueryItem>) -> (r: Vec<QueryItem>)
    ensures
        parts(r@) == normalized(parts(items@)),
{
    let mut query = Query::new();
    let ghost all = parts(items@);
    let mut i: usize = 0;
    assert(all.take(0) =~= Seq::empty());
    while i < items.len()
        invariant
            i <= items@.len(),
            all == parts(items@),
            query@ == normalized(all.take(i as int)),
        decreases items@.len() - i,
    {
        proof {
            assert(all.take(i + 1).drop_last() =~= all.take(i as int));
            assert(all.take(i + 1).last() == items@[i as int]@);
        }
        query.insert_item(items[i].clone());
        i = i + 1;
    }
    assert(all.take(all.len() as int) =~= all);
    query.into_items()
}

/// Once an item has failed, the whole list has, with the same error.
proof fn lemma_failed_item(root: Option<Trie>, items: Seq<QueryPart>, n: int)
    requires
        0 <= n <= items.len(),
        query_rows(root, items.take(n)) is Err,
    ensures
        query_rows(root, items) == query_rows(root, items.take(n)),
    decreases items.len() - n,
{
    if n == items.len() {
        assert(items.take(n) =~= items);
    } else {
        assert(items.take(n + 1).drop_last() =~= items.take(n));
        lemma_failed_item(root, items, n + 1);
    }
}

/// The entries that a list of items asks for.
fn collect_normalized_query<S: MrtQuerySurface>(surface: &mut S, items: &[QueryItem]) -> (r: Result<
    Vec<(Vec<u8>, Vec<u8>)>,
    Error,
>)
    requires
        old(surface).usable(),
        old(surface).log() == Seq::<Event>::empty(),
        answerable(old(surface).root(), parts(items@), false),
    ensures
        final(surface).usable(),
        final(surface).root() == old(surface).root(),
        gives(r, query_rows(old(surface).root(), parts(items@))),
        r is Ok ==> final(surface).log() == item_events(parts(items@)),
{
    let ghost root = surface.root();
    let ghost all = parts(items@);
    let mut out: Vec<(Vec<u8>, Vec<u8>)> = Vec::new();
    let mut i: usize = 0;
    assert(all.take(0) =~= Seq::empty());
    assert(rows_view(out@) =~= Seq::empty());
    assert(item_events(all.take(0)) =~= Seq::empty());
    while i < items.len()
        invariant
            i <= items@.len(),
            all == parts(items@),
            root == old(surface).root(),
            surface.usable(),
            surface.root() == root,
            answerable(root, all, false),
            query_rows(root, all.take(i as int)) == Ok::<Seq<(Seq<u8>, Seq<u8>)>, Fault>(rows_view(out@)),
            surface.log() == item_events(all.take(i as int)),
        decreases items@.len() - i,
    {
        proof {
            assert(all.take(i + 1).drop_last() =~= all.take(i as int));
            assert(all[i as int] == items@[i as int]@);
            assert(all.take(i + 1).last() == items@[i as int]@);
            assert(item_events(all.take(i + 1)) =~= item_events(all.take(i as int)).push(
                Event::Read(lookup_of(items@[i as int]@)),
            ));
            assert(query_rows(root, all.take(i as int)) is Ok);
        }
        match collect_item(surface, &items[i]) {
            Ok(rows) => {
                append_rows(&mut out, rows);
            },
            Err(e) => {
                proof {
                    lemma_failed_item(root, all, i + 1);
                }
                return Err(e);
            },
        }
        i = i + 1;
    }
    assert(all.take(all.len() as int) =~= all);
    Ok(out)
}

/// Appends rows to others.
fn append_rows(out: &mut Vec<(Vec<u8>, Vec<u8>)>, rows: Vec<(Vec<u8>, Vec<u8>)>)
    ensures
        rows_view(final(out)@) == rows_view(old(out)@) + rows_view(rows@),
{
    let mut more = rows;
    out.append(&mut more);
    assert(rows_view(out@) =~= rows_view(old(out)@) + rows_view(rows@));
}

/// Whether the places `keep` are just what has to be shown of a trie to tell
/// what a list of items finds in it: the root, and where the search for the
/// items leads.
pub open spec fn suffices(root: Option<Trie>, items: Seq<QueryPart>, keep: Set<Seq<bool>>) -> bool {
    &&& root is Some ==> keep.contains(Seq::empty())
    &&& query_rows(prune_root(root, keep), items) is Ok
    &&& forall|other: Set<Seq<bool>>|
        #![trigger prune_root(root, other)]
        (root is Some ==> other.contains(Seq::empty())) && query_rows(prune_root(root, other), items) is Ok
            ==> keep.subset_of(other)
}

/// Whether a trie that may be empty has values that all fit the byte form.
pub open spec fn root_fits(root: Option<Trie>) -> bool {
    root matches Some(t) ==> values_fit(t)
}

/// Whether bytes are the form of the least trace that tells what a list of
/// items finds in a trie. It has the root hash of the trie, and gives the same
/// entries for the items. `keep` are the places that it shows.
pub open spec fn proves_with(bytes: Seq<u8>, keep: Set<Seq<bool>>, root: Option<Trie>, items: Seq<QueryPart>) -> bool {
    &&& suffices(root, items, keep)
    &&& root_fits(prune_root(root, keep))
    &&& encoded_root(prune_root(root, keep)) == bytes
    &&& hash_of(prune_root(root, keep)) == hash_of(root)
    &&& query_rows(prune_root(root, keep), items) == query_rows(root, items)
}

/// Whether bytes prove what a list of items finds in a trie.
pub open spec fn proves(bytes: Seq<u8>, root: Option<Trie>, items: Seq<QueryPart>) -> bool {
    exists|keep: Set<Seq<bool>>| #[trigger] proves_with(bytes, keep, root, items)
}

/// Whether what a list of items finds in a trie has no proof, because a value
/// that it has to show is too long for the byte form.
pub open spec fn unprovable(root: Option<Trie>, items: Seq<QueryPart>) -> bool {
    exists|keep: Set<Seq<bool>>| #[trigger] suffices(root, items, keep) && !root_fits(prune_root(root, keep))
}

/// There is one proof at most of what a list of items finds in a trie, and none
/// where a value is too long for it.
pub proof fn law_one_proof(a: Seq<u8>, b: Seq<u8>, root: Option<Trie>, items: Seq<QueryPart>)
    requires
        proves(a, root, items),
    ensures
        proves(b, root, items) ==> a == b,
        !unprovable(root, items),
{
    let k = choose|keep: Set<Seq<bool>>| #[trigger] proves_with(a, keep, root, items);
    if proves(b, root, items) {
        let l = choose|keep: Set<Seq<bool>>| #[trigger] proves_with(b, keep, root, items);
        assert(k.subset_of(l) && l.subset_of(k));
        assert(k =~= l);
    }
    if unprovable(root, items) {
        let l = choose|keep: Set<Seq<bool>>| #[trigger] suffices(root, items, keep) && !root_fits(prune_root(root, keep));
        assert(k.subset_of(l) && l.subset_of(k));
        assert(k =~= l);
    }
}

/// The reads of a list of items go through where the items find their entries,
/// and write nothing.
proof fn lemma_run_items(root: Option<Trie>, items: Seq<QueryPart>)
    requires
        query_rows(root, items) is Ok,
    ensures
        run(root, item_events(items)) matches Ok(o) && o.root == root,
        clear_run(root, item_events(items)),
    decreases items.len(),
{
    let events = item_events(items);
    if items.len() > 0 {
        lemma_run_items(root, items.drop_last());
        assert(events.drop_last() =~= item_events(items.drop_last()));
        assert(events.last() == Event::Read(lookup_of(items.last())));
    }
}

/// Proves what a query finds in what a store held. Refused if a bound is too
/// long for a key, or if a value that the proof has to show is too long for it.
pub fn prove_from_snapshot(snapshot: &Checkpoint, query: Vec<QueryItem>) -> (r: Result<Vec<u8>, Error>)
    requires
        may_ask(snapshot.trie(), query@),
    ensures
        proved(r, snapshot.trie(), normalized(parts(query@))),
{
    proof {
        lemma_may_ask(snapshot.trie(), query@);
    }
    let items = normalize_query(query);
    let ghost want = parts(items@);
    let mut tracer = MrtTracer::new(snapshot.clone());
    assert(answerable(tracer.root(), want, false));
    match collect_normalized_query(&mut tracer, items.as_slice()) {
        Ok(_) => {},
        Err(e) => {
            return Err(e);
        },
    }
    let ghost seen = tracer.seen();
    let trace = tracer.into_trace();
    proof {
        let root = snapshot.trie();
        lemma_rows_by_run(tracer.start(), trace.trie(), want);
        assert forall|other: Set<Seq<bool>>|
            #![trigger prune_root(root, other)]
            (root is Some ==> other.contains(Seq::empty())) && query_rows(prune_root(root, other), want) is Ok implies seen.subset_of(
            other,
        ) by {
            lemma_run_items(prune_root(root, other), want);
        }
        assert(suffices(root, want, seen));
        if root_fits(trace.trie()) {
            assert(proves_with(encoded_root(trace.trie()), seen, root, want));
        }
    }
    trace.encode()
}

/// What proving gives: the proof, if there is one.
pub open spec fn proved(r: Result<Vec<u8>, Error>, root: Option<Trie>, items: Seq<QueryPart>) -> bool {
    match r {
        Ok(bytes) => proves(bytes@, root, items),
        Err(e) => {
            ||| query_rows(root, items) == Err::<Seq<(Seq<u8>, Seq<u8>)>, Fault>(e.fault())
            ||| e.fault() == Fault::Ed && unprovable(root, items)
        },
    }
}

/// What checking a proof gives: the entries, if the bytes are a trace with the
/// expected root hash that shows them all.
pub open spec fn verified(
    r: Result<Vec<(Vec<u8>, Vec<u8>)>, Error>,
    bytes: Seq<u8>,
    items: Seq<QueryPart>,
    expected_hash: NodeHash,
) -> bool {
    match parse_root(bytes) {
        Err(_) => r matches Err(e) && e.fault() == Fault::Ed,
        Ok(t) => if hash_of(t) != expected_hash {
            r matches Err(e) && e == Error::HashMismatch(expected_hash, hash_of(t))
        } else {
            gives(r, query_rows(t, items))
        },
    }
}

/// Checks a proof, and gives the entries that the items ask for, one item after
/// the other.
pub fn verify_items(bytes: &[u8], items: &[QueryItem], expected_hash: NodeHash) -> (r: Result<
    Vec<(Vec<u8>, Vec<u8>)>,
    Error,
>)
    requires
        may_check_parts(bytes@, parts(items@), expected_hash),
    ensures
        verified(r, bytes@, parts(items@), expected_hash),
{
    let trace = match Trace::decode_exact(bytes) {
        Ok(trace) => trace,
        Err(e) => {
            return Err(e);
        },
    };
    match trace.verify_root(expected_hash) {
        Ok(_) => {},
        Err(e) => {
            return Err(e);
        },
    }
    collect_normalized_query(&mut TraceSurface::new(&trace), items)
}

/// Checks a proof, and gives the entries that the items ask for.
pub fn verify(bytes: &[u8], query: Vec<QueryItem>, expected_hash: NodeHash) -> (r: Result<Vec<(Vec<u8>, Vec<u8>)>, Error>)
    requires
        may_check(bytes@, query@, expected_hash),
    ensures
        verified(r, bytes@, normalized(parts(query@)), expected_hash),
{
    proof {
        lemma_may_check(bytes@, query@, expected_hash);
    }
    let items = normalize_query(query);
    verify_items(bytes, items.as_slice(), expected_hash)
}

/// Checks a proof, and gives the entries that the query asks for.
pub fn verify_query(bytes: &[u8], query: &Query, expected_hash: NodeHash) -> (r: Result<
    Vec<(Vec<u8>, Vec<u8>)>,
    Error,
>)
    requires
        may_check_parts(bytes@, query@, expected_hash),
    ensures
        verified(r, bytes@, query@, expected_hash),
{
    verify_items(bytes, query.iter(), expected_hash)
}

/// A proof of what a query finds, checked against the root hash, gives what the
/// query finds. The trace must not have more levels than decoders accept.
pub proof fn law_proof_verifies(
    bytes: Seq<u8>,
    keep: Set<Seq<bool>>,
    root: Option<Trie>,
    items: Seq<QueryPart>,
    r: Result<Vec<(Vec<u8>, Vec<u8>)>, Error>,
)
    requires
        proves_with(bytes, keep, root, items),
        decodable_root(prune_root(root, keep)),
        verified(r, bytes, items, hash_of(root)),
    ensures
        r is Ok,
        gives(r, query_rows(root, items)),
{
    law_decode_undoes_encode(prune_root(root, keep));
}

/// A query of proper items may be asked of every store, and checked against all bytes.
pub proof fn law_proper_queries_may_be_asked(
    root: Option<Trie>,
    query: Seq<QueryItem>,
    bytes: Seq<u8>,
    expected_hash: NodeHash,
)
    requires
        forall|i: int| 0 <= i < query.len() ==> (#[trigger] query[i])@.proper(),
    ensures
        may_ask(root, query),
        may_check(bytes, query, expected_hash),
        may_check_parts(bytes, parts(query), expected_hash),
{
    assert forall|i: int| 0 <= i < query.len() implies upright((#[trigger] query[i])@) by {
        let p = query[i]@;
        lemma_key_lt_total(p.lower(), p.upper());
    }
    assert forall|i: int| 0 <= i < parts(query).len() implies upright(#[trigger] parts(query)[i]) by {
        assert(parts(query)[i] == query[i]@);
    }
}

/// Proper items make up a query whose items are apart, and that asks for a key
/// just if one of the items does.
pub proof fn law_query_asks_for_its_items(items: Seq<QueryPart>)
    requires
        forall|i: int| 0 <= i < items.len() ==> (#[trigger] items[i]).proper(),
    ensures
        apart(normalized(items)),
        forall|k: Seq<u8>| #[trigger] any_covers(normalized(items), k) <==> any_covers(items, k),
    decreases items.len(),
{
    if items.len() > 0 {
        let init = items.drop_last();
        assert forall|i: int| 0 <= i < init.len() implies (#[trigger] init[i]).proper() by {
            assert(init[i] == items[i]);
        }
        assert(items.last() == items[items.len() - 1]);
        law_query_asks_for_its_items(init);
        law_with_part(normalized(init), items.last());
        assert forall|k: Seq<u8>| #[trigger] any_covers(normalized(items), k) <==> any_covers(items, k) by {
            assert(any_covers(normalized(init), k) <==> any_covers(init, k));
            if any_covers(items, k) {
                let i = choose|i: int| 0 <= i < items.len() && (#[trigger] items[i]).covers(k);
                if i < init.len() {
                    assert(init[i].covers(k));
                }
            }
            if any_covers(init, k) {
                let i = choose|i: int| 0 <= i < init.len() && (#[trigger] init[i]).covers(k);
                assert(items[i].covers(k));
            }
            if items.last().covers(k) {
                assert(items[items.len() - 1].covers(k));
            }
        }
    }
}

/// Merging items makes no bound longer.
proof fn lemma_with_short(items: Seq<QueryPart>, part: QueryPart)
    requires
        forall|i: int| 0 <= i < items.len() ==> !overlong(#[trigger] items[i]),
        !overlong(part),
    ensures
        forall|i: int| 0 <= i < with_part(items, part).len() ==> !overlong(#[trigger] with_part(items, part)[i]),
    decreases items.len(),
{
    let i = seek(items, part);
    lemma_sought(items, part);
    if meets_one(items, part) {
        let rest = items.remove(i);
        assert forall|j: int| 0 <= j < rest.len() implies !overlong(#[trigger] rest[j]) by {
            assert(rest[j] == items[if j < i {
                j
            } else {
                j + 1
            }]);
        }
        lemma_with_short(rest, part.merged(items[i]));
        assert(with_part(items, part) == with_part(rest, part.merged(items[i])));
    } else {
        let out = items.insert(i, part);
        assert forall|j: int| 0 <= j < out.len() implies !overlong(#[trigger] out[j]) by {
            if j < i {
                assert(out[j] == items[j]);
            } else if j > i {
                assert(out[j] == items[j - 1]);
            }
        }
        assert(with_part(items, part) == out);
    }
}

/// Items with bounds that are not too long make up a query with such bounds.
proof fn lemma_normalized_short(items: Seq<QueryPart>)
    requires
        forall|i: int| 0 <= i < items.len() ==> !overlong(#[trigger] items[i]),
    ensures
        forall|i: int| 0 <= i < normalized(items).len() ==> !overlong(#[trigger] normalized(items)[i]),
    decreases items.len(),
{
    if items.len() > 0 {
        let init = items.drop_last();
        assert forall|i: int| 0 <= i < init.len() implies !overlong(#[trigger] init[i]) by {
            assert(init[i] == items[i]);
        }
        assert(items.last() == items[items.len() - 1]);
        lemma_normalized_short(init);
        lemma_with_short(normalized(init), items.last());
    }
}

/// Whether items have keys, and no bound is too long for a key.
pub open spec fn plain(items: Seq<QueryPart>) -> bool {
    forall|i: int| 0 <= i < items.len() ==> (#[trigger] items[i]).proper() && !overlong(items[i])
}

/// A list of items finds in a store just the entries whose keys one of them asks
/// for, in order.
pub proof fn law_items_find_their_entries(root: Option<Trie>, items: Seq<QueryPart>)
    requires
        sound(root),
        plain(items),
    ensures
        query_rows(root, normalized(items)) matches Ok(rows) && lists(rows, asked_of(contents(root), items)),
{
    law_query_asks_for_its_items(items);
    lemma_normalized_short(items);
    law_query_lists_store(root, normalized(items));
    let m = contents(root);
    assert(part(m, |k: Seq<u8>| any_covers(normalized(items), k)) =~= asked_of(m, items));
}

/// The entries of a store whose keys one of the items asks for.
pub open spec fn asked_of(m: Map<Seq<u8>, Seq<u8>>, items: Seq<QueryPart>) -> Map<Seq<u8>, Seq<u8>> {
    part(m, |k: Seq<u8>| any_covers(items, k))
}

/// What items find in a store can be proved, unless a value of the store is too
/// long for the byte form.
pub proof fn law_store_is_provable(r: Result<Vec<u8>, Error>, root: Option<Trie>, items: Seq<QueryPart>)
    requires
        sound(root),
        plain(items),
        forall|k: Seq<u8>| #[trigger] contents(root).dom().contains(k) ==> contents(root)[k].len() <= u32::MAX,
        proved(r, root, normalized(items)),
    ensures
        r matches Ok(bytes) && proves(bytes@, root, normalized(items)),
{
    law_items_find_their_entries(root, items);
    law_short_values_have_a_form(root);
    if let Some(t) = root {
        assert forall|keep: Set<Seq<bool>>| root_fits(#[trigger] prune_root(root, keep)) by {
            lemma_prune_fits(t, Seq::empty(), keep);
        }
    }
}

/// Who is given items, a proof of what they find in a store, and the root hash
/// of the store, learns just the entries of the store that the items ask for, in
/// order. The trace must not have more levels than decoders accept.
pub proof fn law_proof_tells_the_entries(
    bytes: Seq<u8>,
    keep: Set<Seq<bool>>,
    root: Option<Trie>,
    items: Seq<QueryPart>,
    r: Result<Vec<(Vec<u8>, Vec<u8>)>, Error>,
)
    requires
        sound(root),
        plain(items),
        proves_with(bytes, keep, root, normalized(items)),
        decodable_root(prune_root(root, keep)),
        verified(r, bytes, normalized(items), hash_of(root)),
    ensures
        r matches Ok(rows) && lists(rows_view(rows@), asked_of(contents(root), items)),
{
    law_proof_verifies(bytes, keep, root, normalized(items), r);
    law_items_find_their_entries(root, items);
}

/// What proving and checking come to, for stores with keys of at most 128 bytes:
/// there is a proof, and checking it against the root hash gives just the entries
/// of the store that the items ask for, in order.
pub proof fn law_prove_then_verify(
    p: Result<Vec<u8>, Error>,
    r: Result<Vec<(Vec<u8>, Vec<u8>)>, Error>,
    root: Option<Trie>,
    items: Seq<QueryPart>,
)
    requires
        sound(root),
        plain(items),
        forall|k: Seq<u8>| #[trigger] contents(root).dom().contains(k) ==> k.len() <= 128 && contents(root)[k].len()
            <= u32::MAX,
        proved(p, root, normalized(items)),
        p matches Ok(bytes) ==> verified(r, bytes@, normalized(items), hash_of(root)),
    ensures
        p is Ok,
        r matches Ok(rows) && lists(rows_view(rows@), asked_of(contents(root), items)),
{
    law_store_is_provable(p, root, items);
    let bytes = p->Ok_0@;
    let keep = choose|keep: Set<Seq<bool>>| #[trigger] proves_with(bytes, keep, root, normalized(items));
    if let Some(t) = root {
        law_short_keys_are_accepted(t, keep);
    }
    law_proof_tells_the_entries(bytes, keep, root, items, r);
}

/// A query finds in a store exactly the entries with the keys that it asks for,
/// in order.
pub proof fn law_query_lists_store(root: Option<Trie>, items: Seq<QueryPart>)
    requires
        sound(root),
        apart(items),
        forall|i: int| 0 <= i < items.len() ==> !overlong(#[trigger] items[i]),
    ensures
        query_rows(root, items) matches Ok(rows) && lists(
            rows,
            part(contents(root), |k: Seq<u8>| any_covers(items, k)),
        ),
    decreases items.len(),
{
    let m = contents(root);
    if items.len() == 0 {
        assert(part(m, |k: Seq<u8>| any_covers(items, k)).dom() =~= Set::empty());
    } else {
        let init = items.drop_last();
        let p = items.last();
        assert forall|i: int| 0 <= i < init.len() implies !overlong(#[trigger] init[i]) && init[i].proper() by {
            assert(init[i] == items[i]);
        }
        assert(apart(init)) by {
            assert forall|i: int, j: int| 0 <= i < j < init.len() implies (#[trigger] init[i]).relation(
                #[trigger] init[j],
            ) is Before by {
                assert(init[i] == items[i] && init[j] == items[j]);
            }
        }
        law_query_lists_store(root, init);
        assert(p == items[items.len() - 1]);
        lemma_item_lists(root, p);
        let a = query_rows(root, init)->Ok_0;
        let b = item_rows(root, p)->Ok_0;
        let ma = part(m, |k: Seq<u8>| any_covers(init, k));
        let mb = part(m, |k: Seq<u8>| p.covers(k));
        assert forall|k: Seq<u8>, l: Seq<u8>| #[trigger] ma.dom().contains(k) && #[trigger] mb.dom().contains(l) implies key_lt(
            k,
            l,
        ) by {
            let i = choose|i: int| 0 <= i < init.len() && (#[trigger] init[i]).covers(k);
            assert(init[i] == items[i]);
            law_relation(items[i], p);
            assert(items[i].covers(k) && p.covers(l));
        }
        let mc = part(m, |k: Seq<u8>| any_covers(items, k));
        assert forall|k: Seq<u8>| any_covers(items, k) <==> any_covers(init, k) || p.covers(k) by {
            if any_covers(items, k) {
                let i = choose|i: int| 0 <= i < items.len() && (#[trigger] items[i]).covers(k);
                if i < init.len() {
                    assert(init[i].covers(k));
                }
            }
            if any_covers(init, k) {
                let i = choose|i: int| 0 <= i < init.len() && (#[trigger] init[i]).covers(k);
                assert(items[i].covers(k));
            }
        }
        lemma_lists_append(a, ma, b, mb, mc);
    }
}

/// Rows that list two parts of a store, one before the other.
proof fn lemma_lists_append(
    a: Seq<(Seq<u8>, Seq<u8>)>,
    ma: Map<Seq<u8>, Seq<u8>>,
    b: Seq<(Seq<u8>, Seq<u8>)>,
    mb: Map<Seq<u8>, Seq<u8>>,
    m: Map<Seq<u8>, Seq<u8>>,
)
    requires
        lists(a, ma),
        lists(b, mb),
        forall|k: Seq<u8>, l: Seq<u8>| #[trigger] ma.dom().contains(k) && #[trigger] mb.dom().contains(l) ==> key_lt(k, l),
        forall|k: Seq<u8>| #[trigger] m.dom().contains(k) <==> ma.dom().contains(k) || mb.dom().contains(k),
        forall|k: Seq<u8>| #[trigger] ma.dom().contains(k) ==> m[k] == ma[k],
        forall|k: Seq<u8>| #[trigger] mb.dom().contains(k) ==> m[k] == mb[k],
    ensures
        lists(a + b, m),
{
    let rows = a + b;
    assert forall|i: int| 0 <= i < rows.len() implies m.dom().contains((#[trigger] rows[i]).0) && m[rows[i].0] == rows[i].1 by {
        if i < a.len() {
            assert(rows[i] == a[i]);
        } else {
            assert(rows[i] == b[i - a.len()]);
        }
    }
    assert forall|i: int, j: int| 0 <= i < j < rows.len() implies key_lt((#[trigger] rows[i]).0, (#[trigger] rows[j]).0) by {
        if j < a.len() {
            assert(rows[i] == a[i] && rows[j] == a[j]);
        } else if i >= a.len() {
            assert(rows[i] == b[i - a.len()] && rows[j] == b[j - a.len()]);
        } else {
            assert(rows[i] == a[i] && rows[j] == b[j - a.len()]);
        }
    }
    assert forall|k: Seq<u8>| #[trigger] m.dom().contains(k) implies exists|i: int|
        0 <= i < rows.len() && (#[trigger] rows[i]).0 == k by {
        if ma.dom().contains(k) {
            let i = choose|i: int| 0 <= i < a.len() && (#[trigger] a[i]).0 == k;
            assert(rows[i] == a[i]);
        } else {
            let i = choose|i: int| 0 <= i < b.len() && (#[trigger] b[i]).0 == k;
            assert(rows[a.len() + i] == b[i]);
        }
    }
}

/// What a single item finds in a store.
proof fn lemma_item_lists(root: Option<Trie>, p: QueryPart)
    requires
        sound(root),
        p.proper(),
        !overlong(p),
    ensures
        item_rows(root, p) matches Ok(rows) && lists(rows, part(contents(root), |k: Seq<u8>| p.covers(k))),
{
    let m = contents(root);
    let mp = part(m, |k: Seq<u8>| p.covers(k));
    match p {
        QueryPart::Key(key) => {
            lemma_find_contents(root, key);
            assert forall|k: Seq<u8>| p.covers(k) <==> k == key by {
                lemma_key_lt_total(k, key);
            }
            let rows = item_rows(root, p)->Ok_0;
            if m.dom().contains(key) {
                assert(rows[0].0 == key);
            }
        },
        QueryPart::Range { start, end } => {
            law_range_lists_store(root, start, Some(end));
            assert(part(m, |k: Seq<u8>| key_between(k, Some(start), Some(end))) =~= mp);
        },
        QueryPart::RangeInclusive { start, end } => {
            law_inclusive_range_lists_store(root, start, end);
            assert(part(m, |k: Seq<u8>| !key_lt(k, start) && !key_lt(end, k)) =~= mp) by {
                assert forall|k: Seq<u8>| (!key_lt(k, start) && !key_lt(end, k)) == p.covers(k) by {
                    lemma_key_lt_total(k, end);
                }
            }
        },
    }
}

} // verus!
