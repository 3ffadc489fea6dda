//! Sequences of reads and writes on a trie, as values.

use vstd::prelude::*;

use crate::bits::key_lt;
use crate::error::{Error, Fault};
use crate::mrt::cursor::{got, read_prefix, read_range, read_range_inclusive};
use crate::mrt::keys::{contents, key_between, lemma_find_contents, sound};
use crate::mrt::model::Trie;
use crate::mrt::order::{law_inclusive_range_lists_store, law_prefix_lists_store, law_range_lists_store, lists, part};
use crate::mrt::route::MAX_KEY_LEN;
use crate::mrt::scan::{gives, rows_view};
use crate::mrt::store::{apply_change, law_change_acts_on_contents, store_change};
use crate::mrt::tree::find_root;
use crate::ops::{Change, Lookup};

verus! {

/// What a read gave.
pub enum Answer {
    /// The value under a key.
    Value(Option<Seq<u8>>),
    /// Entries.
    Rows(Seq<(Seq<u8>, Seq<u8>)>),
}

/// What a read of a trie that may be empty gives.
pub open spec fn answer(root: Option<Trie>, l: Lookup) -> Result<Answer, Fault> {
    match l {
        Lookup::Key(key) => match find_root(root, key) {
            Ok(v) => Ok(Answer::Value(v)),
            Err(f) => Err(f),
        },
        Lookup::Range { start, end } => match read_range(root, start, Some(end)) {
            Ok(rows) => Ok(Answer::Rows(rows)),
            Err(f) => Err(f),
        },
        Lookup::RangeInclusive { start, end } => match read_range_inclusive(root, start, end) {
            Ok(rows) => Ok(Answer::Rows(rows)),
            Err(f) => Err(f),
        },
        Lookup::Prefix(prefix) => match read_prefix(root, prefix) {
            Ok(rows) => Ok(Answer::Rows(rows)),
            Err(f) => Err(f),
        },
    }
}

/// What a single write of a session makes of a trie that may be empty. Writes
/// that a sorted batch can hold are checked like one.
pub open spec fn step_change(root: Option<Trie>, c: Change) -> Result<Option<Trie>, Fault> {
    if (c is Put || c is Delete || c is DeleteRange) && !c.fits_batch(MAX_KEY_LEN as nat) {
        Err(Fault::BatchKey)
    } else {
        apply_change(root, c, true)
    }
}

/// What a list of writes makes of a trie that may be empty.
pub open spec fn step_changes(root: Option<Trie>, cs: Seq<Change>) -> Result<Option<Trie>, Fault>
    decreases cs.len(),
{
    if cs.len() == 0 {
        Ok(root)
    } else {
        match step_changes(root, cs.drop_last()) {
            Ok(t) => step_change(t, cs.last()),
            Err(f) => Err(f),
        }
    }
}

/// Once a write has failed, the whole list has, with the same error.
pub proof fn lemma_failed_steps(root: Option<Trie>, cs: Seq<Change>, n: int)
    requires
        0 <= n <= cs.len(),
        step_changes(root, cs.take(n)) is Err,
    ensures
        step_changes(root, cs) == step_changes(root, cs.take(n)),
    decreases cs.len() - n,
{
    if n == cs.len() {
        assert(cs.take(n) =~= cs);
    } else {
        assert(cs.take(n + 1).drop_last() =~= cs.take(n));
        lemma_failed_steps(root, cs, n + 1);
    }
}

/// A read or a write that went through.
pub enum Event {
    Read(Lookup),
    Write(Change),
}

/// What a session has led to: the trie, and the answers so far.
pub struct Outcome {
    pub root: Option<Trie>,
    pub answers: Seq<Answer>,
}

/// One more event.
pub open spec fn then_event(o: Outcome, e: Event) -> Result<Outcome, Fault> {
    match e {
        Event::Read(l) => match answer(o.root, l) {
            Ok(a) => Ok(Outcome { root: o.root, answers: o.answers.push(a) }),
            Err(f) => Err(f),
        },
        Event::Write(c) => match step_change(o.root, c) {
            Ok(t) => Ok(Outcome { root: t, answers: o.answers }),
            Err(f) => Err(f),
        },
    }
}

/// A session from its beginning.
pub open spec fn run(root: Option<Trie>, events: Seq<Event>) -> Result<Outcome, Fault>
    decreases events.len(),
{
    if events.len() == 0 {
        Ok(Outcome { root, answers: Seq::empty() })
    } else {
        match run(root, events.drop_last()) {
            Ok(o) => then_event(o, events.last()),
            Err(f) => Err(f),
        }
    }
}

/// A session and one more event.
pub proof fn lemma_run_push(root: Option<Trie>, events: Seq<Event>, e: Event)
    ensures
        run(root, events.push(e)) == (match run(root, events) {
            Ok(o) => then_event(o, e),
            Err(f) => Err(f),
        }),
{
    assert(events.push(e).drop_last() =~= events);
}

/// The reads of a session.
pub open spec fn reads_of(events: Seq<Event>) -> Seq<Lookup>
    decreases events.len(),
{
    if events.len() == 0 {
        Seq::empty()
    } else {
        match events.last() {
            Event::Read(l) => reads_of(events.drop_last()).push(l),
            Event::Write(c) => reads_of(events.drop_last()),
        }
    }
}

/// The reads of a session are those of its first part and then those of its second
/// part; a write is none.
pub proof fn law_reads_split(a: Seq<Event>, b: Seq<Event>)
    ensures
        reads_of(a + b) == reads_of(a) + reads_of(b),
        a.len() == 1 ==> reads_of(a) == (match a[0] {
            Event::Read(l) => seq![l],
            Event::Write(c) => Seq::empty(),
        }),
    decreases b.len(),
{
    if a.len() == 1 {
        reveal_with_fuel(reads_of, 2);
        assert(reads_of(a.drop_last()) =~= Seq::empty());
    }
    if b.len() == 0 {
        assert(a + b =~= a);
        assert(reads_of(a) + reads_of(b) =~= reads_of(a));
    } else {
        assert((a + b).drop_last() =~= a + b.drop_last());
        assert((a + b).last() == b.last());
        law_reads_split(a, b.drop_last());
        assert(reads_of(a + b) =~= reads_of(a) + reads_of(b));
    }
}

/// A read through a handle: what the trie gives, or a refusal if the handle is
/// not live.
pub open spec fn told(live: bool, r: Result<Option<Vec<u8>>, Error>, m: Result<Option<Seq<u8>>, Fault>) -> bool {
    if live {
        got(r, m)
    } else {
        r matches Err(e) && e.fault() == Fault::Poisoned
    }
}

/// As [`told`], for entries.
pub open spec fn listed(
    live: bool,
    r: Result<Vec<(Vec<u8>, Vec<u8>)>, Error>,
    m: Result<Seq<(Seq<u8>, Seq<u8>)>, Fault>,
) -> bool {
    if live {
        gives(r, m)
    } else {
        r matches Err(e) && e.fault() == Fault::Poisoned
    }
}

/// Writes through a handle, by whether it is live and the trie before and
/// after. One that fails leaves the handle dead.
pub open spec fn applied(
    r: Result<(), Error>,
    live_before: bool,
    before: Option<Trie>,
    live_after: bool,
    after: Option<Trie>,
    cs: Seq<Change>,
) -> bool {
    if !live_before {
        !live_after && after == before && (r matches Err(e) && e.fault() == Fault::Poisoned)
    } else {
        match step_changes(before, cs) {
            Ok(t) => r is Ok && live_after && after == t,
            Err(f) => !live_after && (r matches Err(e) && e.fault() == f),
        }
    }
}

/// Once a write has failed, a handle tells nothing and does nothing.
pub proof fn law_dead_handle_refuses(
    a: Result<Option<Vec<u8>>, Error>,
    value: Result<Option<Seq<u8>>, Fault>,
    b: Result<Vec<(Vec<u8>, Vec<u8>)>, Error>,
    rows: Result<Seq<(Seq<u8>, Seq<u8>)>, Fault>,
    c: Result<(), Error>,
    before: Option<Trie>,
    live_after: bool,
    after: Option<Trie>,
    cs: Seq<Change>,
)
    requires
        told(false, a, value),
        listed(false, b, rows),
        applied(c, false, before, live_after, after, cs),
    ensures
        a matches Err(e) && e.fault() == Fault::Poisoned,
        b matches Err(e) && e.fault() == Fault::Poisoned,
        c matches Err(e) && e.fault() == Fault::Poisoned,
        !live_after,
        after == before,
{
}

/// Each write of a session does to what a complete trie stores what it does to
/// the store.
pub proof fn law_step_acts_on_contents(root: Option<Trie>, c: Change)
    requires
        sound(root),
    ensures
        match step_change(root, c) {
            Ok(t) => sound(t) && store_change(contents(root), c) == Some(contents(t)),
            Err(f) => (f == Fault::Key || f == Fault::BatchKey) && store_change(contents(root), c) is None,
        },
{
    law_change_acts_on_contents(root, c, true);
}

/// Writes in two parts: what the second part makes of what the first part made.
/// So it makes no difference in how many calls writes are done.
pub proof fn law_writes_split(root: Option<Trie>, a: Seq<Change>, b: Seq<Change>)
    ensures
        step_changes(root, a + b) == (match step_changes(root, a) {
            Ok(t) => step_changes(t, b),
            Err(f) => Err(f),
        }),
    decreases b.len(),
{
    if b.len() == 0 {
        assert(a + b =~= a);
    } else {
        assert((a + b).drop_last() =~= a + b.drop_last());
        assert((a + b).last() == b.last());
        law_writes_split(root, a, b.drop_last());
    }
}

/// Whether stores follow on each other by writes: each write is accepted by the
/// store that the writes before it left, and leaves the next one.
pub open spec fn follow(ms: Seq<Map<Seq<u8>, Seq<u8>>>, cs: Seq<Change>) -> bool {
    &&& ms.len() == cs.len() + 1
    &&& forall|i: int| 0 <= i < cs.len() ==> store_change(ms[i], #[trigger] cs[i]) == Some(ms[i + 1])
}

/// Writes on a store are done just if each one is accepted in its turn, and then
/// do to the store what they do one after the other.
pub proof fn law_writes_act_in_turn(root: Option<Trie>, cs: Seq<Change>)
    requires
        sound(root),
    ensures
        match step_changes(root, cs) {
            Ok(t) => sound(t) && exists|ms: Seq<Map<Seq<u8>, Seq<u8>>>| #[trigger]
                follow(ms, cs) && ms[0] == contents(root) && ms.last() == contents(t),
            Err(f) => (f == Fault::Key || f == Fault::BatchKey) && forall|ms: Seq<Map<Seq<u8>, Seq<u8>>>| #[trigger]
                follow(ms, cs) ==> ms[0] != contents(root),
        },
    decreases cs.len(),
{
    if cs.len() == 0 {
        let ms = seq![contents(root)];
        assert(follow(ms, cs) && ms[0] == contents(root) && ms.last() == contents(root));
    } else {
        let init = cs.drop_last();
        let c = cs.last();
        law_writes_act_in_turn(root, init);
        match step_changes(root, init) {
            Ok(t) => {
                law_step_acts_on_contents(t, c);
                let ms = choose|ms: Seq<Map<Seq<u8>, Seq<u8>>>| #[trigger]
                    follow(ms, init) && ms[0] == contents(root) && ms.last() == contents(t);
                match step_change(t, c) {
                    Ok(t2) => {
                        let more = ms.push(contents(t2));
                        assert(follow(more, cs)) by {
                            assert forall|i: int| 0 <= i < cs.len() implies store_change(more[i], #[trigger] cs[i]) == Some(
                                more[i + 1],
                            ) by {
                                if i < init.len() {
                                    assert(init[i] == cs[i]);
                                }
                            }
                        }
                        assert(more[0] == contents(root) && more.last() == contents(t2));
                    },
                    Err(f) => {
                        assert forall|other: Seq<Map<Seq<u8>, Seq<u8>>>| #[trigger] follow(other, cs) implies other[0]
                            != contents(root) by {
                            if other[0] == contents(root) {
                                lemma_follow_init(other, cs);
                                lemma_follow_same(ms, other.drop_last(), init, init.len() as int);
                                assert(store_change(other[init.len() as int], cs[init.len() as int]) is Some);
                            }
                        }
                    },
                }
            },
            Err(f) => {
                assert forall|other: Seq<Map<Seq<u8>, Seq<u8>>>| #[trigger] follow(other, cs) implies other[0] != contents(
                    root,
                ) by {
                    lemma_follow_init(other, cs);
                    assert(other.drop_last()[0] == other[0]);
                }
            },
        }
    }
}

/// Stores that follow on each other, without the last one.
proof fn lemma_follow_init(ms: Seq<Map<Seq<u8>, Seq<u8>>>, cs: Seq<Change>)
    requires
        follow(ms, cs),
        cs.len() > 0,
    ensures
        follow(ms.drop_last(), cs.drop_last()),
{
    let (a, b) = (ms.drop_last(), cs.drop_last());
    assert forall|i: int| 0 <= i < b.len() implies store_change(a[i], #[trigger] b[i]) == Some(a[i + 1]) by {
        assert(b[i] == cs[i]);
    }
}

/// There is one way at most in which stores follow on each other.
proof fn lemma_follow_same(a: Seq<Map<Seq<u8>, Seq<u8>>>, b: Seq<Map<Seq<u8>, Seq<u8>>>, cs: Seq<Change>, n: int)
    requires
        follow(a, cs),
        follow(b, cs),
        a[0] == b[0],
        0 <= n <= cs.len(),
    ensures
        a[n] == b[n],
    decreases n,
{
    if n > 0 {
        lemma_follow_same(a, b, cs, n - 1);
        assert(store_change(a[n - 1], cs[n - 1]) == Some(a[n]));
        assert(store_change(b[n - 1], cs[n - 1]) == Some(b[n]));
    }
}

/// Writes through a live handle to a store go through just if each one is
/// accepted in its turn; the handle stays live then, and the store is what they
/// make of it one after the other.
pub proof fn law_handle_writes_in_turn(
    r: Result<(), Error>,
    before: Option<Trie>,
    live_after: bool,
    after: Option<Trie>,
    cs: Seq<Change>,
)
    requires
        sound(before),
        applied(r, true, before, live_after, after, cs),
    ensures
        live_after == (r is Ok),
        r is Ok <==> exists|ms: Seq<Map<Seq<u8>, Seq<u8>>>| #[trigger] follow(ms, cs) && ms[0] == contents(before),
        r is Ok ==> sound(after) && forall|ms: Seq<Map<Seq<u8>, Seq<u8>>>| #[trigger]
            follow(ms, cs) && ms[0] == contents(before) ==> ms.last() == contents(after),
{
    law_writes_act_in_turn(before, cs);
    if let Ok(t) = step_changes(before, cs) {
        let ms = choose|ms: Seq<Map<Seq<u8>, Seq<u8>>>| #[trigger]
            follow(ms, cs) && ms[0] == contents(before) && ms.last() == contents(t);
        assert forall|other: Seq<Map<Seq<u8>, Seq<u8>>>| #[trigger] follow(other, cs) && other[0] == contents(
            before,
        ) implies other.last() == contents(after) by {
            lemma_follow_same(ms, other, cs, cs.len() as int);
        }
    }
}

/// One more event, if all went through so far.
#[verifier::opaque]
pub open spec fn went_on(r: Result<Outcome, Fault>, e: Event) -> Result<Outcome, Fault> {
    match r {
        Ok(o) => then_event(o, e),
        Err(f) => Err(f),
    }
}

/// Whether a session with answers from before, and one without, came to the same.
pub open spec fn same_end(x: Result<Outcome, Fault>, y: Result<Outcome, Fault>, before: Seq<Answer>) -> bool {
    match (x, y) {
        (Ok(a), Ok(b)) => a.root == b.root && a.answers == before + b.answers,
        (Err(f), Err(g)) => f == g,
        _ => false,
    }
}

/// A session that is not empty.
proof fn lemma_went_on(root: Option<Trie>, events: Seq<Event>)
    requires
        events.len() > 0,
    ensures
        run(root, events) == went_on(run(root, events.drop_last()), events.last()),
{
    reveal(went_on);
}

/// One more event, with and without answers from before.
proof fn lemma_event_behind(x: Result<Outcome, Fault>, y: Result<Outcome, Fault>, before: Seq<Answer>, e: Event)
    requires
        same_end(x, y, before),
    ensures
        same_end(went_on(x, e), went_on(y, e), before),
{
    reveal(went_on);
    if let (Ok(a), Event::Read(l)) = (x, e) {
        if let Ok(ans) = answer(a.root, l) {
            assert((before + y->Ok_0.answers).push(ans) =~= before + y->Ok_0.answers.push(ans));
        }
    }
}

/// Nothing goes on behind an error.
proof fn lemma_stopped(f: Fault, e: Event)
    ensures
        went_on(Err(f), e) == Err::<Outcome, Fault>(f),
{
    reveal(went_on);
}

/// A session in two parts: the second goes on from what the first led to, and its
/// answers come behind those of the first.
pub proof fn law_session_splits(root: Option<Trie>, a: Seq<Event>, b: Seq<Event>)
    ensures
        match run(root, a) {
            Ok(o) => same_end(run(root, a + b), run(o.root, b), o.answers),
            Err(f) => run(root, a + b) == Err::<Outcome, Fault>(f),
        },
    decreases b.len(),
{
    if b.len() == 0 {
        assert(a + b =~= a);
        if let Ok(o) = run(root, a) {
            assert(o.answers + Seq::<Answer>::empty() =~= o.answers);
        }
    } else {
        let c = b.drop_last();
        assert((a + b).drop_last() =~= a + c);
        assert((a + b).last() == b.last());
        law_session_splits(root, a, c);
        lemma_went_on(root, a + b);
        match run(root, a) {
            Ok(o) => {
                lemma_went_on(o.root, b);
                lemma_event_behind(run(root, a + c), run(o.root, c), o.answers, b.last());
            },
            Err(f) => {
                lemma_stopped(f, b.last());
            },
        }
    }
}

/// Reads through a live handle to a store tell what is stored. They are refused
/// just if a key is too long.
pub proof fn law_handle_reads_the_store(
    root: Option<Trie>,
    l: Lookup,
    v: Result<Option<Vec<u8>>, Error>,
    rows: Result<Vec<(Vec<u8>, Vec<u8>)>, Error>,
)
    requires
        sound(root),
        l matches Lookup::Key(key) ==> told(true, v, find_root(root, key)),
        l matches Lookup::Range { start, end } ==> listed(true, rows, read_range(root, start, Some(end))),
        l matches Lookup::Prefix(prefix) ==> listed(true, rows, read_prefix(root, prefix)),
    ensures
        l matches Lookup::Key(key) ==> match v {
            Ok(Some(value)) => contents(root).dom().contains(key) && contents(root)[key] == value@,
            Ok(None) => key.len() <= MAX_KEY_LEN && !contents(root).dom().contains(key),
            Err(e) => key.len() > MAX_KEY_LEN,
        },
        l matches Lookup::Range { start, end } ==> match rows {
            Ok(rows) => start.len() <= MAX_KEY_LEN && end.len() <= MAX_KEY_LEN && lists(
                rows_view(rows@),
                part(contents(root), |k: Seq<u8>| !key_lt(k, start) && key_lt(k, end)),
            ),
            Err(e) => start.len() > MAX_KEY_LEN || end.len() > MAX_KEY_LEN,
        },
        l matches Lookup::Prefix(prefix) ==> match rows {
            Ok(rows) => prefix.len() <= MAX_KEY_LEN && lists(
                rows_view(rows@),
                part(contents(root), |k: Seq<u8>| prefix.is_prefix_of(k)),
            ),
            Err(e) => prefix.len() > MAX_KEY_LEN,
        },
{
    let m = contents(root);
    match l {
        Lookup::Key(key) => {
            lemma_find_contents(root, key);
        },
        Lookup::Range { start, end } => {
            law_range_lists_store(root, start, Some(end));
            assert(part(m, |k: Seq<u8>| key_between(k, Some(start), Some(end))) =~= part(
                m,
                |k: Seq<u8>| !key_lt(k, start) && key_lt(k, end),
            ));
        },
        Lookup::Prefix(prefix) => {
            law_prefix_lists_store(root, prefix);
            assert(part(m, |k: Seq<u8>| prefix.is_prefix_of(k)) =~= part(m, |k: Seq<u8>| prefix.is_prefix_of(k)));
        },
        _ => {},
    }
}

/// The keys that a read asks for.
pub open spec fn asks_for(l: Lookup, k: Seq<u8>) -> bool {
    match l {
        Lookup::Key(key) => k == key,
        Lookup::Range { start, end } => !key_lt(k, start) && key_lt(k, end),
        Lookup::RangeInclusive { start, end } => !key_lt(k, start) && !key_lt(end, k),
        Lookup::Prefix(prefix) => prefix.is_prefix_of(k),
    }
}

/// The entries that a read gave.
pub open spec fn told_entries(l: Lookup, a: Answer) -> Seq<(Seq<u8>, Seq<u8>)> {
    match (l, a) {
        (Lookup::Key(key), Answer::Value(Some(value))) => seq![(key, value)],
        (_, Answer::Rows(rows)) => rows,
        _ => Seq::empty(),
    }
}

/// A read of a store gives just the entries that it asks for, in order. It is refused
/// just if a key is too long. A read of a key gives a value, and every other read gives
/// entries.
pub proof fn law_answer_tells_the_store(root: Option<Trie>, l: Lookup)
    requires
        sound(root),
    ensures
        answer(root, l) is Ok <==> (match l {
            Lookup::Key(key) => key.len() <= MAX_KEY_LEN,
            Lookup::Range { start, end } => start.len() <= MAX_KEY_LEN && end.len() <= MAX_KEY_LEN,
            Lookup::RangeInclusive { start, end } => start.len() <= MAX_KEY_LEN && end.len() <= MAX_KEY_LEN,
            Lookup::Prefix(prefix) => prefix.len() <= MAX_KEY_LEN,
        }),
        answer(root, l) matches Ok(a) ==> lists(told_entries(l, a), part(contents(root), |k: Seq<u8>| asks_for(l, k))) && (
        a is Value <==> l is Key),
{
    let m = contents(root);
    let want = part(m, |k: Seq<u8>| asks_for(l, k));
    match l {
        Lookup::Key(key) => {
            lemma_find_contents(root, key);
            if let Ok(a) = answer(root, l) {
                let rows = told_entries(l, a);
                if m.dom().contains(key) {
                    assert(rows[0].0 == key);
                }
            }
        },
        Lookup::Range { start, end } => {
            law_range_lists_store(root, start, Some(end));
            assert(part(m, |k: Seq<u8>| key_between(k, Some(start), Some(end))) =~= want);
        },
        Lookup::RangeInclusive { start, end } => {
            law_inclusive_range_lists_store(root, start, end);
            assert(part(m, |k: Seq<u8>| !key_lt(k, start) && !key_lt(end, k)) =~= want);
        },
        Lookup::Prefix(prefix) => {
            law_prefix_lists_store(root, prefix);
            assert(part(m, |k: Seq<u8>| prefix.is_prefix_of(k)) =~= want);
        },
    }
}

/// The list of changes of a single write.
pub proof fn lemma_single_step(root: Option<Trie>, c: Change)
    ensures
        step_changes(root, seq![c]) == step_change(root, c),
{
    reveal_with_fuel(step_changes, 2);
    assert(seq![c].drop_last() =~= Seq::empty());
}

} // verus!
