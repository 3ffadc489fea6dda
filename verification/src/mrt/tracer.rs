//! The prover's side: a session that notes what it visits.

use vstd::prelude::*;

use crate::bits::{key_copy, key_less};
use crate::error::{Error, Fault};
use crate::mrt::cursor::{got, read_prefix, read_range, read_range_inclusive};
use crate::mrt::keys::{lemma_complete_bare, lemma_find_contents, sound};
use crate::mrt::model::Trie;
use crate::mrt::node::share;
use crate::mrt::order::{law_inclusive_range_lists_store, law_prefix_lists_store, law_range_lists_store};
use crate::mrt::prefix::Voice;
use crate::mrt::prune::{law_pruning_keeps_hash, lemma_prune_nothing, prune, MrtPartialBuilder};
use crate::mrt::route::{route, validate_key_len, MAX_KEY_LEN};
use crate::mrt::scan::{gives, rows_view, scan_root, Stop};
use crate::mrt::session::{answer, lemma_failed_steps, lemma_run_push, reads_of, run, step_change, step_changes, Answer,
    Event, Outcome};
use crate::mrt::soundness::{clear_run, lemma_clear_push};
use crate::mrt::store::{apply_change, hash_of, law_change_acts_on_contents, validate_batch_ops, Checkpoint, Tree};
use crate::mrt::trace::Trace;
use crate::mrt::tree::find_root;
use crate::mrt::verify_node::{lemma_shown, lemma_shown_full, needed, MrtVerifyNode};
use crate::mrt::wire::{decodable_root, encoded_root, law_decode_undoes_encode, parse_root, values_fit};
use crate::mrt::working::{delete, delete_prefix, delete_range, did_root, get_visiting, insert, looked, move_prefix,
    root_bare, root_shown, root_wf, root_whole, scan_visiting, wrote};
use crate::ops::{batch_op_changes, batch_ordered, write_changes, Change, Lookup};
use crate::text::told_after;
use crate::tracer::{BatchOp, ReadOp, TraceInterface, TraceReader, WriteOp};

verus! {

/// As [`prune`], for a trie that may be empty.
pub open spec fn prune_root(root: Option<Trie>, keep: Set<Seq<bool>>) -> Option<Trie> {
    match root {
        Some(t) => Some(prune(t, Seq::empty(), keep)),
        None => None,
    }
}

/// Whether a session needs to see all of the places `seen` of the trie that it
/// starts with: where it goes through with only the root and the places `keep`
/// shown, and never leaves a hidden subtrie as the only child of a branch,
/// `keep` holds them all.
pub open spec fn needs(start: Option<Trie>, events: Seq<Event>, seen: Set<Seq<bool>>) -> bool {
    forall|keep: Set<Seq<bool>>|
        #![trigger prune_root(start, keep)]
        (start is Some ==> keep.contains(Seq::empty())) && run(prune_root(start, keep), events) is Ok && clear_run(
            prune_root(start, keep),
            events,
        ) ==> seen.subset_of(keep)
}

/// Whether the places `seen` are just what has to be shown of a trie for a
/// session to go through on it as on the whole.
pub open spec fn least_trace(start: Option<Trie>, events: Seq<Event>, seen: Set<Seq<bool>>) -> bool {
    &&& start is Some ==> seen.contains(Seq::empty())
    &&& run(prune_root(start, seen), events) is Ok
    &&& clear_run(prune_root(start, seen), events)
    &&& needs(start, events, seen)
}

/// A session on a trie has one least trace at most.
pub proof fn law_one_trace(start: Option<Trie>, events: Seq<Event>, a: Set<Seq<bool>>, b: Set<Seq<bool>>)
    requires
        least_trace(start, events, a),
        least_trace(start, events, b),
    ensures
        a == b,
        prune_root(start, a) == prune_root(start, b),
{
    let x = prune_root(start, a);
    let y = prune_root(start, b);
    assert(a.subset_of(b) && b.subset_of(a));
    assert(a =~= b);
}

/// A session on a working copy of a trie, and the places of the trie that it
/// has visited.
pub struct MrtTracer {
    snapshot: Checkpoint,
    current: Option<Box<MrtVerifyNode>>,
    builder: MrtPartialBuilder,
    events: Ghost<Seq<Event>>,
    answers: Ghost<Seq<Answer>>,
}

impl MrtTracer {
    /// The trie that the session started with.
    pub closed spec fn start(&self) -> Option<Trie> {
        self.snapshot.trie()
    }

    /// The trie as the session has left it.
    pub closed spec fn now(&self) -> Option<Trie> {
        root_whole(self.current)
    }

    /// The places that were visited.
    pub closed spec fn seen(&self) -> Set<Seq<bool>> {
        self.builder.seen()
    }

    /// What was done so far.
    pub closed spec fn events(&self) -> Seq<Event> {
        self.events@
    }

    /// What the reads gave.
    pub closed spec fn answers(&self) -> Seq<Answer> {
        self.answers@
    }

    /// The session so far goes the same way if only the visited places are
    /// shown, or these and any others; with fewer it does not.
    pub closed spec fn ok(&self) -> bool {
        &&& sound(self.snapshot.trie())
        &&& sound(root_whole(self.current))
        &&& needs(self.snapshot.trie(), self.events@, self.builder.seen())
        &&& root_wf(self.current)
        &&& self.snapshot.trie() is Some ==> self.builder.seen().contains(Seq::empty())
        &&& forall|keep: Set<Seq<bool>>|
            #![trigger prune_root(self.snapshot.trie(), keep)]
            self.builder.seen().subset_of(keep) ==> clear_run(prune_root(self.snapshot.trie(), keep), self.events@) && run(
                prune_root(self.snapshot.trie(), keep),
                self.events@,
            ) == Ok::<Outcome, Fault>(Outcome { root: root_shown(self.current, keep), answers: self.answers@ })
    }

    /// A session at its beginning, with the root visited.
    pub fn new(snapshot: Checkpoint) -> (r: Self)
        ensures
            r.ok(),
            r.start() == snapshot.trie(),
            r.now() == snapshot.trie(),
            r.events() == Seq::<Event>::empty(),
            r.answers() == Seq::<Answer>::empty(),
    {
        let mut builder = MrtPartialBuilder::new();
        let mut current: Option<Box<MrtVerifyNode>> = match snapshot.root() {
            Some(root) => {
                let _n: u16 = root.depth_below();
                let place: Vec<bool> = Vec::new();
                builder.install(place.as_slice());
                assert(place@ =~= Seq::empty());
                Some(Box::new(MrtVerifyNode::Unvisited { node: share(root), place }))
            },
            None => None,
        };
        let r = MrtTracer { snapshot, current, builder, events: Ghost(Seq::empty()), answers: Ghost(Seq::empty()) };
        proof {
            assert forall|keep: Set<Seq<bool>>|
                #![trigger prune_root(r.snapshot.trie(), keep)]
                r.builder.seen().subset_of(keep) implies clear_run(prune_root(r.snapshot.trie(), keep), r.events@) && run(prune_root(r.snapshot.trie(), keep), r.events@) == Ok::<
                Outcome,
                Fault,
            >(Outcome { root: root_shown(r.current, keep), answers: r.answers@ }) by {}
        }
        r
    }

    /// The value under `key`.
    pub fn get(&mut self, key: &[u8]) -> (r: Result<Option<Vec<u8>>, Error>)
        requires
            old(self).ok(),
        ensures
            final(self).ok(),
            final(self).start() == old(self).start(),
            final(self).now() == old(self).now(),
            got(r, find_root(old(self).now(), key@)),
            noted(r is Ok, *old(self), *final(self), Lookup::Key(key@)),
    {
        let ghost before = *self;
        let r = get_visiting(&mut self.current, &mut self.builder, key);
        proof {
            let a = answer(before.now(), Lookup::Key(key@));
            if r is Ok {
                self.events@ = before.events@.push(Event::Read(Lookup::Key(key@)));
                self.answers@ = before.answers@.push(a->Ok_0);
            }
            assert forall|keep: Set<Seq<bool>>|
                #![trigger root_shown(before.current, keep)]
                self.builder.seen().subset_of(keep) implies answer(root_shown(before.current, keep), Lookup::Key(key@))
                == a by {
                lemma_full(before.current);
                assert(self.builder.seen().subset_of(Set::full()));
                let x = root_shown(before.current, Set::full());
            }
            lemma_full(before.current);
            assert(self.builder.seen().subset_of(Set::full()));
            assert(got(r, find_root(root_shown(before.current, Set::full()), key@)));
            lemma_find_contents(before.now(), key@);
            lemma_read_noted(before, *self, Lookup::Key(key@), r is Ok);
        }
        r
    }

    /// Scans from `start` on until the scan stops.
    fn scan(&mut self, start: &[u8], stop: Stop<'_>, Ghost(l): Ghost<Lookup>) -> (r: Result<Vec<(Vec<u8>, Vec<u8>)>, Error>)
        requires
            old(self).ok(),
            start@.len() <= MAX_KEY_LEN,
            forall|root: Option<Trie>|
                #![trigger answer(root, l)]
                answer(root, l) == (match scan_root(root, route(start@), stop@) {
                    Ok(rows) => Ok(Answer::Rows(rows)),
                    Err(f) => Err(f),
                }),
            answer(old(self).now(), l) is Ok,
        ensures
            final(self).ok(),
            final(self).start() == old(self).start(),
            final(self).now() == old(self).now(),
            gives(r, scan_root(old(self).now(), route(start@), stop@)),
            noted(r is Ok, *old(self), *final(self), l),
    {
        let ghost before = *self;
        let r = scan_visiting(&mut self.current, &mut self.builder, start, stop);
        proof {
            let a = answer(before.now(), l);
            if r is Ok {
                self.events@ = before.events@.push(Event::Read(l));
                self.answers@ = before.answers@.push(a->Ok_0);
            }
            lemma_full(before.current);
            assert(self.builder.seen().subset_of(Set::full()));
            assert(gives(r, scan_root(root_shown(before.current, Set::full()), route(start@), stop@)));
            assert forall|keep: Set<Seq<bool>>|
                #![trigger root_shown(before.current, keep)]
                self.builder.seen().subset_of(keep) implies answer(root_shown(before.current, keep), l) == a by {}
            lemma_read_noted(before, *self, l, r is Ok);
        }
        r
    }

    /// A read that needs no look at the trie.
    fn empty_scan(&mut self, Ghost(l): Ghost<Lookup>) -> (r: Vec<(Vec<u8>, Vec<u8>)>)
        requires
            old(self).ok(),
            forall|root: Option<Trie>|
                #![trigger answer(root, l)]
                answer(root, l) == Ok::<Answer, Fault>(Answer::Rows(Seq::empty())),
        ensures
            final(self).ok(),
            final(self).start() == old(self).start(),
            final(self).now() == old(self).now(),
            rows_view(r@) == Seq::<(Seq<u8>, Seq<u8>)>::empty(),
            noted(true, *old(self), *final(self), l),
    {
        let ghost before = *self;
        let out: Vec<(Vec<u8>, Vec<u8>)> = Vec::new();
        assert(rows_view(out@) =~= Seq::empty());
        proof {
            self.events@ = before.events@.push(Event::Read(l));
            self.answers@ = before.answers@.push(Answer::Rows(Seq::empty()));
            assert forall|keep: Set<Seq<bool>>|
                #![trigger root_shown(before.current, keep)]
                self.builder.seen().subset_of(keep) implies answer(root_shown(before.current, keep), l) == answer(
                before.now(),
                l,
            ) by {}
            lemma_read_noted(before, *self, l, true);
        }
        out
    }

    /// The entries from `start` up to but not including `end`.
    pub fn range(&mut self, start: &[u8], end: &[u8]) -> (r: Result<Vec<(Vec<u8>, Vec<u8>)>, Error>)
        requires
            old(self).ok(),
        ensures
            final(self).ok(),
            final(self).start() == old(self).start(),
            final(self).now() == old(self).now(),
            gives(r, read_range(old(self).now(), start@, Some(end@))),
            noted(r is Ok, *old(self), *final(self), Lookup::Range { start: start@, end: end@ }),
    {
        match validate_key_len(start, "trace range start") {
            Ok(_) => {},
            Err(e) => {
                return Err(e);
            },
        }
        match validate_key_len(end, "trace range end") {
            Ok(_) => {},
            Err(e) => {
                return Err(e);
            },
        }
        let l: Ghost<Lookup> = Ghost(Lookup::Range { start: start@, end: end@ });
        if !key_less(start, end) {
            return Ok(self.empty_scan(l));
        }
        proof {
            law_range_lists_store(self.now(), start@, Some(end@));
        }
        self.scan(start, Stop::From(end), l)
    }

    /// The entries from `start` up to and including `end`.
    pub fn range_inclusive(&mut self, start: &[u8], end: &[u8]) -> (r: Result<Vec<(Vec<u8>, Vec<u8>)>, Error>)
        requires
            old(self).ok(),
        ensures
            final(self).ok(),
            final(self).start() == old(self).start(),
            final(self).now() == old(self).now(),
            gives(r, read_range_inclusive(old(self).now(), start@, end@)),
            noted(r is Ok, *old(self), *final(self), Lookup::RangeInclusive { start: start@, end: end@ }),
    {
        match validate_key_len(start, "trace inclusive range start") {
            Ok(_) => {},
            Err(e) => {
                return Err(e);
            },
        }
        match validate_key_len(end, "trace inclusive range end") {
            Ok(_) => {},
            Err(e) => {
                return Err(e);
            },
        }
        proof {
            law_inclusive_range_lists_store(self.now(), start@, end@);
        }
        self.scan(start, Stop::After(end), Ghost(Lookup::RangeInclusive { start: start@, end: end@ }))
    }

    /// The entries whose keys begin with `prefix`.
    pub fn prefix(&mut self, prefix: &[u8]) -> (r: Result<Vec<(Vec<u8>, Vec<u8>)>, Error>)
        requires
            old(self).ok(),
        ensures
            final(self).ok(),
            final(self).start() == old(self).start(),
            final(self).now() == old(self).now(),
            gives(r, read_prefix(old(self).now(), prefix@)),
            noted(r is Ok, *old(self), *final(self), Lookup::Prefix(prefix@)),
    {
        match validate_key_len(prefix, "trace prefix") {
            Ok(_) => {},
            Err(e) => {
                return Err(e);
            },
        }
        proof {
            law_prefix_lists_store(self.now(), prefix@);
        }
        self.scan(prefix, Stop::Outside(prefix), Ghost(Lookup::Prefix(prefix@)))
    }

    /// Does a write. One that fails leaves the session without a working copy.
    fn write(&mut self, op: &WriteOp) -> (r: Result<(), Error>)
        requires
            old(self).ok(),
            op@ is Put || op@ is Delete || op@ is DeleteRange ==> op@.fits_batch(MAX_KEY_LEN as nat),
        ensures
            final(self).start() == old(self).start(),
            changed(r, *old(self), *final(self), op@),
    {
        let ghost before = *self;
        let r: Result<(), Error> = match op {
            WriteOp::Put { key, value } => insert(
                &mut self.current,
                &mut self.builder,
                key.as_slice(),
                key_copy(value.as_slice()),
                Voice::Store,
            ),
            WriteOp::Delete { key } => match delete(&mut self.current, &mut self.builder, key.as_slice(), Voice::Store) {
                Ok(_) => Ok(()),
                Err(e) => Err(e),
            },
            WriteOp::DeleteRange { start, end } => delete_range(
                &mut self.current,
                &mut self.builder,
                start.as_slice(),
                end.as_slice(),
                Voice::Store,
            ),
            WriteOp::DeletePrefix { prefix } => delete_prefix(
                &mut self.current,
                &mut self.builder,
                prefix.as_slice(),
                Voice::Store,
            ),
            WriteOp::MovePrefix { from, to } => move_prefix(
                &mut self.current,
                &mut self.builder,
                from.as_slice(),
                to.as_slice(),
                Voice::Store,
            ),
        };
        proof {
            if r is Ok {
                self.events@ = before.events@.push(Event::Write(op@));
            }
            lemma_written(before, *self, r, op@);
        }
        r
    }

    /// Does a write. One that a sorted batch can hold is checked like one.
    pub fn apply_step(&mut self, op: &WriteOp) -> (r: Result<(), Error>)
        requires
            old(self).ok(),
        ensures
            final(self).start() == old(self).start(),
            changed(r, *old(self), *final(self), op@),
    {
        if let Some(entry) = op.as_batch_op() {
            let mut batch: Vec<BatchOp> = Vec::new();
            batch.push(entry);
            proof {
                let cs = batch_op_changes(batch@);
                assert(cs =~= seq![op@]);
                assert(cs[0] == op@);
                assert(batch_ordered(cs, MAX_KEY_LEN as nat) == op@.fits_batch(MAX_KEY_LEN as nat));
            }
            match validate_batch_ops(batch.as_slice()) {
                Ok(_) => {},
                Err(e) => {
                    return Err(e);
                },
            }
        }
        self.write(op)
    }

    /// What was visited of the trie that the session started with.
    pub fn into_trace(self) -> (r: Trace)
        requires
            self.ok(),
        ensures
            r.trie() == prune_root(self.start(), self.seen()),
            least_trace(self.start(), self.events(), self.seen()),
            hash_of(r.trie()) == hash_of(self.start()),
            r.trie() matches Some(t) ==> !(t is Pruned),
            run(self.start(), self.events()) == Ok::<Outcome, Fault>(
                Outcome { root: self.now(), answers: self.answers() },
            ),
            run(r.trie(), self.events()) matches Ok(o) && o.answers == self.answers() && hash_of(o.root) == hash_of(
                self.now(),
            ),
    {
        proof {
            let full = Set::<Seq<bool>>::full();
            let seen = self.builder.seen();
            assert(seen.subset_of(full));
            assert(seen.subset_of(seen));
            let a = prune_root(self.snapshot.trie(), full);
            let b = prune_root(self.snapshot.trie(), seen);
            lemma_full(self.current);
            if let Some(t) = self.snapshot.trie() {
                lemma_prune_nothing(t, Seq::empty());
                law_pruning_keeps_hash(t, Seq::empty(), seen);
            }
            if self.current is Some {
                lemma_shown(*self.current->0, seen);
            }
        }
        match self.snapshot.root() {
            Some(root) => Trace(Some(self.builder.assemble(root))),
            None => Trace(None),
        }
    }
}

/// With all places kept, everything is shown.
proof fn lemma_full(root: Option<Box<MrtVerifyNode>>)
    ensures
        root_shown(root, Set::full()) == root_whole(root),
{
    if let Some(n) = root {
        lemma_shown_full(*n);
    }
}

/// What a session notes of a read: all of it if it went through, else nothing.
pub open spec fn noted(ok: bool, before: MrtTracer, after: MrtTracer, l: Lookup) -> bool {
    if ok {
        &&& after.events() == before.events().push(Event::Read(l))
        &&& answer(before.now(), l) is Ok
        &&& after.answers() == before.answers().push(answer(before.now(), l)->Ok_0)
    } else {
        after.events() == before.events() && after.answers() == before.answers()
    }
}

/// What a write does to a session.
pub open spec fn changed(r: Result<(), Error>, before: MrtTracer, after: MrtTracer, c: Change) -> bool {
    &&& after.answers() == before.answers()
    &&& match (r, step_change(before.now(), c)) {
        (Ok(_), Ok(t)) => after.ok() && after.now() == t && after.events() == before.events().push(Event::Write(c)),
        (Err(e), Err(f)) => e.fault() == f && after.events() == before.events(),
        _ => false,
    }
}

/// What a session that is in order has come to where only the places `keep` are
/// shown, among them all that were visited.
proof fn lemma_kept(t: MrtTracer, keep: Set<Seq<bool>>)
    requires
        t.ok(),
        t.builder.seen().subset_of(keep),
    ensures
        clear_run(prune_root(t.snapshot.trie(), keep), t.events@),
        run(prune_root(t.snapshot.trie(), keep), t.events@) == Ok::<Outcome, Fault>(
            Outcome { root: root_shown(t.current, keep), answers: t.answers@ },
        ),
{
    let start = prune_root(t.snapshot.trie(), keep);
}

/// A session that goes through where only the places `keep` are shown has
/// visited none but these.
proof fn lemma_needs(t: MrtTracer, keep: Set<Seq<bool>>)
    requires
        t.ok(),
        t.snapshot.trie() is Some ==> keep.contains(Seq::empty()),
        run(prune_root(t.snapshot.trie(), keep), t.events@) is Ok,
        clear_run(prune_root(t.snapshot.trie(), keep), t.events@),
    ensures
        t.builder.seen().subset_of(keep),
{
    let start = prune_root(t.snapshot.trie(), keep);
}

/// A read that is noted keeps a session in order.
#[verifier::spinoff_prover]
#[verifier::rlimit(40)]
proof fn lemma_read_noted(before: MrtTracer, after: MrtTracer, l: Lookup, ok: bool)
    requires
        before.ok(),
        after.snapshot == before.snapshot,
        looked(before.current, after.current, before.builder.seen(), after.builder.seen()),
        forall|keep: Set<Seq<bool>>|
            #![trigger root_shown(before.current, keep)]
            after.builder.seen().subset_of(keep) ==> answer(root_shown(before.current, keep), l) == answer(before.now(), l),
        ok ==> answer(before.now(), l) is Ok && after.events@ == before.events@.push(Event::Read(l)) && after.answers@
            == before.answers@.push(answer(before.now(), l)->Ok_0),
        forall|keep: Set<Seq<bool>>|
            #![trigger root_shown(before.current, keep)]
            needed(
                before.builder.seen(),
                after.builder.seen(),
                keep,
                answer(root_shown(before.current, keep), l) is Ok,
            ),
        !ok ==> after.events@ == before.events@ && after.answers@ == before.answers@ && after.builder.seen()
            == before.builder.seen(),
    ensures
        after.ok(),
{
    assert forall|keep: Set<Seq<bool>>|
        #![trigger prune_root(after.snapshot.trie(), keep)]
        (after.snapshot.trie() is Some ==> keep.contains(Seq::empty())) && run(
            prune_root(after.snapshot.trie(), keep),
            after.events@,
        ) is Ok && clear_run(prune_root(after.snapshot.trie(), keep), after.events@) implies after.builder.seen().subset_of(
        keep,
    ) by {
        let start = prune_root(before.snapshot.trie(), keep);
        if ok {
            lemma_run_push(start, before.events@, Event::Read(l));
            lemma_clear_push(start, before.events@, Event::Read(l));
            lemma_needs(before, keep);
            lemma_kept(before, keep);
            let x = root_shown(before.current, keep);
        } else {
            lemma_needs(before, keep);
        }
    }
    assert forall|keep: Set<Seq<bool>>|
        #![trigger prune_root(after.snapshot.trie(), keep)]
        after.builder.seen().subset_of(keep) implies clear_run(prune_root(after.snapshot.trie(), keep), after.events@) && run(
        prune_root(after.snapshot.trie(), keep),
        after.events@,
    ) == Ok::<Outcome, Fault>(Outcome { root: root_shown(after.current, keep), answers: after.answers@ }) by {
        assert(before.builder.seen().subset_of(keep));
        let start = prune_root(before.snapshot.trie(), keep);
        let x = root_shown(before.current, keep);
        assert(root_shown(after.current, keep) == x);
        lemma_kept(before, keep);
        if ok {
            lemma_run_push(start, before.events@, Event::Read(l));
            lemma_clear_push(start, before.events@, Event::Read(l));
        }
    }
}

/// A write that is noted keeps a session in order.
#[verifier::spinoff_prover]
#[verifier::rlimit(40)]
proof fn lemma_written(before: MrtTracer, after: MrtTracer, r: Result<(), Error>, c: Change)
    requires
        before.ok(),
        after.snapshot == before.snapshot,
        c is Put || c is Delete || c is DeleteRange ==> c.fits_batch(MAX_KEY_LEN as nat),
        wrote(r, c, before.current, after.current, before.builder.seen(), after.builder.seen()),
        after.answers@ == before.answers@,
        after.events@ == (if r is Ok {
            before.events@.push(Event::Write(c))
        } else {
            before.events@
        }),
    ensures
        changed(r, before, after, c),
{
    let full = Set::<Seq<bool>>::full();
    lemma_full(before.current);
    lemma_full(after.current);
    assert(after.builder.seen().subset_of(full));
    assert(did_root(r, apply_change(root_shown(before.current, full), c, true), root_shown(after.current, full)));
    if r is Ok {
        law_change_acts_on_contents(before.now(), c, true);
        if let Some(n) = before.current {
            lemma_complete_bare(n.whole(), 0);
        }
        assert(root_bare(before.current));
        assert forall|keep: Set<Seq<bool>>|
            #![trigger prune_root(after.snapshot.trie(), keep)]
            (after.snapshot.trie() is Some ==> keep.contains(Seq::empty())) && run(
                prune_root(after.snapshot.trie(), keep),
                after.events@,
            ) is Ok && clear_run(prune_root(after.snapshot.trie(), keep), after.events@) implies after.builder.seen().subset_of(
            keep,
        ) by {
            let start = prune_root(before.snapshot.trie(), keep);
            lemma_run_push(start, before.events@, Event::Write(c));
            lemma_clear_push(start, before.events@, Event::Write(c));
            lemma_needs(before, keep);
            lemma_kept(before, keep);
            let x = root_shown(before.current, keep);
        }
        assert forall|keep: Set<Seq<bool>>|
            #![trigger prune_root(after.snapshot.trie(), keep)]
            after.builder.seen().subset_of(keep) implies clear_run(prune_root(after.snapshot.trie(), keep), after.events@) && run(
            prune_root(after.snapshot.trie(), keep),
            after.events@,
        ) == Ok::<Outcome, Fault>(Outcome { root: root_shown(after.current, keep), answers: after.answers@ }) by {
            assert(before.builder.seen().subset_of(keep));
            let start = prune_root(before.snapshot.trie(), keep);
            let x = root_shown(before.current, keep);
            lemma_kept(before, keep);
            lemma_run_push(start, before.events@, Event::Write(c));
            lemma_clear_push(start, before.events@, Event::Write(c));
        }
    }
}

/// The lookups of a list of reads.
pub open spec fn lookups(reads: Seq<ReadOp>) -> Seq<Lookup> {
    reads.map_values(|op: ReadOp| op@)
}

/// Records a session on what a store held at some moment. Once a write has
/// failed, the handle refuses all further use but [`TraceRecorder::reads`].
pub struct TraceRecorder {
    tracer: MrtTracer,
    reads: Vec<ReadOp>,
    poisoned: bool,
}

impl TraceRecorder {
    #[verifier::type_invariant]
    spec fn inv(self) -> bool {
        &&& !self.poisoned ==> self.tracer.ok()
        &&& lookups(self.reads@) == reads_of(self.tracer.events())
    }

    /// The trie that the session started with.
    pub closed spec fn start(&self) -> Option<Trie> {
        self.tracer.start()
    }

    /// What was done so far.
    pub closed spec fn events(&self) -> Seq<Event> {
        self.tracer.events()
    }

    /// What the reads gave.
    pub closed spec fn answers(&self) -> Seq<Answer> {
        self.tracer.answers()
    }

    /// The places that were visited of the trie that the session started with.
    pub closed spec fn seen(&self) -> Set<Seq<bool>> {
        self.tracer.seen()
    }

    /// What was visited of the trie that the session started with.
    pub open spec fn trace(&self) -> Option<Trie> {
        prune_root(self.start(), self.seen())
    }

    /// A session at its beginning.
    pub fn new(snapshot: &Checkpoint) -> (r: Self)
        ensures
            r.live(),
            r.start() == snapshot.trie(),
            r.current() == snapshot.trie(),
            r.events() == Seq::<Event>::empty(),
            r.answers() == Seq::<Answer>::empty(),
    {
        let tracer = MrtTracer::new(snapshot.clone());
        let reads: Vec<ReadOp> = Vec::new();
        assert(lookups(reads@) =~= Seq::empty());
        TraceRecorder { tracer, reads, poisoned: false }
    }

    /// The reads so far that went through, in order.
    pub fn reads(&self) -> (r: &[ReadOp])
        ensures
            lookups(r@) == reads_of(self.events()),
    {
        proof {
            use_type_invariant(self);
        }
        self.reads.as_slice()
    }

    /// Refuses use after a write has failed.
    fn reject_if_poisoned(&self, op: &str) -> (r: Result<(), Error>)
        ensures
            r is Ok <==> self.live(),
            r matches Err(e) ==> e.fault() == Fault::Poisoned && e.text() == op@
                + " on a poisoned MRT recorder (an earlier apply failed)"@,
    {
        if self.poisoned {
            return Err(Error::Poisoned(told_after(op, " on a poisoned MRT recorder (an earlier apply failed)")));
        }
        Ok(())
    }

    /// The byte form of the trace. It has the root hash of the trie that the
    /// session started with, and shows no more of it than the session needs.
    /// The session, done again on it, gives the same answers and the same root
    /// hash. An error if a value is too long for the byte form.
    pub fn finalize_trace(self) -> (r: Result<Vec<u8>, Error>)
        ensures
            self.live() ==> least_trace(self.start(), self.events(), self.seen()),
            match r {
                Ok(bytes) => {
                    &&& self.live()
                    &&& self.trace() matches Some(t) ==> values_fit(t)
                    &&& bytes@ == encoded_root(self.trace())
                    &&& decodable_root(self.trace()) ==> parse_root(bytes@) == Ok::<Option<Trie>, Fault>(self.trace())
                    &&& hash_of(self.trace()) == hash_of(self.start())
                    &&& run(self.start(), self.events()) == Ok::<Outcome, Fault>(
                        Outcome { root: self.current(), answers: self.answers() },
                    )
                    &&& run(self.trace(), self.events()) matches Ok(o) && o.answers == self.answers() && hash_of(o.root)
                        == hash_of(self.current())
                },
                Err(e) => if self.live() {
                    e.fault() == Fault::Ed && self.trace() is Some && !values_fit(self.trace()->0)
                } else {
                    e.fault() == Fault::Poisoned
                },
            },
    {
        proof {
            use_type_invariant(&self);
            if decodable_root(self.trace()) {
                law_decode_undoes_encode(self.trace());
            }
        }
        match self.reject_if_poisoned("finalize_trace") {
            Ok(_) => {},
            Err(e) => {
                return Err(e);
            },
        }
        let TraceRecorder { tracer, reads, poisoned } = self;
        tracer.into_trace().encode()
    }
}

/// A read more in the log.
proof fn lemma_read_logged(reads: Seq<ReadOp>, op: ReadOp, events: Seq<Event>)
    requires
        lookups(reads) == reads_of(events),
    ensures
        lookups(reads.push(op)) == reads_of(events.push(Event::Read(op@))),
{
    assert(events.push(Event::Read(op@)).drop_last() =~= events);
    assert(lookups(reads.push(op)) =~= lookups(reads).push(op@));
}

/// What a recorder notes of a read.
pub open spec fn kept(ok: bool, before: TraceRecorder, after: TraceRecorder, l: Lookup) -> bool {
    &&& after.start() == before.start()
    &&& if ok {
        &&& after.events() == before.events().push(Event::Read(l))
        &&& answer(before.current(), l) is Ok
        &&& after.answers() == before.answers().push(answer(before.current(), l)->Ok_0)
    } else {
        after.events() == before.events() && after.answers() == before.answers()
    }
}

/// A recorder logs each read that goes through, behind those before it, and no other.
pub proof fn law_reads_are_logged(ok: bool, before: TraceRecorder, after: TraceRecorder, l: Lookup)
    requires
        kept(ok, before, after, l),
    ensures
        reads_of(after.events()) == (if ok {
            reads_of(before.events()).push(l)
        } else {
            reads_of(before.events())
        }),
        after.answers().len() == before.answers().len() + (if ok {
            1int
        } else {
            0int
        }),
        before.answers().is_prefix_of(after.answers()),
        after.start() == before.start(),
{
    if ok {
        assert(before.events().push(Event::Read(l)).drop_last() =~= before.events());
        assert(before.answers() =~= after.answers().subrange(0, before.answers().len() as int));
    } else {
        assert(before.answers() =~= after.answers().subrange(0, before.answers().len() as int));
    }
}

/// Takes a recorder out of its slot.
fn take_recorder(slot: &mut TraceRecorder) -> (r: TraceRecorder)
    ensures
        r == *old(slot),
        !r.poisoned ==> r.tracer.ok(),
        lookups(r.reads@) == reads_of(r.tracer.events()),
{
    let mut taken = TraceRecorder::new(&Tree::new().checkpoint());
    std::mem::swap(slot, &mut taken);
    proof {
        use_type_invariant(&taken);
    }
    taken
}

/// Writes as events.
pub open spec fn write_events(cs: Seq<Change>) -> Seq<Event> {
    cs.map_values(|c: Change| Event::Write(c))
}

/// Reads and writes that are put together stand for those of the first list and then
/// those of the second, each by itself.
pub proof fn law_logs_of_parts(a: Seq<ReadOp>, b: Seq<ReadOp>, c: Seq<Change>, d: Seq<Change>)
    ensures
        lookups(a + b) == lookups(a) + lookups(b),
        a.len() == 1 ==> lookups(a) == seq![a[0]@],
        write_events(c + d) == write_events(c) + write_events(d),
        c.len() == 1 ==> write_events(c) == seq![Event::Write(c[0])],
{
    assert(lookups(a + b) =~= lookups(a) + lookups(b));
    assert(write_events(c + d) =~= write_events(c) + write_events(d));
    assert(a.len() == 1 ==> lookups(a) =~= seq![a[0]@]);
    assert(c.len() == 1 ==> write_events(c) =~= seq![Event::Write(c[0])]);
}

/// Writes are no reads.
proof fn lemma_reads_of_writes(events: Seq<Event>, cs: Seq<Change>)
    ensures
        reads_of(events + write_events(cs)) == reads_of(events),
    decreases cs.len(),
{
    if cs.len() == 0 {
        assert(events + write_events(cs) =~= events);
    } else {
        let whole = events + write_events(cs);
        assert(whole.drop_last() =~= events + write_events(cs.drop_last()));
        lemma_reads_of_writes(events, cs.drop_last());
    }
}

impl TraceReader for TraceRecorder {
    closed spec fn live(&self) -> bool {
        !self.poisoned
    }

    closed spec fn current(&self) -> Option<Trie> {
        self.tracer.now()
    }

    fn get(&mut self, key: &[u8]) -> (r: Result<Option<Vec<u8>>, Error>)
        ensures
            kept(r is Ok, *old(self), *final(self), Lookup::Key(key@)),
    {
        let ghost before = *self;
        match self.reject_if_poisoned("get") {
            Ok(_) => {},
            Err(e) => {
                return Err(e);
            },
        }
        let TraceRecorder { mut tracer, mut reads, poisoned } = take_recorder(self);
        let r = tracer.get(key);
        if r.is_ok() {
            let op = ReadOp::Key(key_copy(key));
            proof {
                lemma_read_logged(reads@, op, before.events());
            }
            reads.push(op);
        }
        *self = TraceRecorder { tracer, reads, poisoned };
        r
    }

    fn get_range(&mut self, start: &[u8], end: &[u8]) -> (r: Result<Vec<(Vec<u8>, Vec<u8>)>, Error>)
        ensures
            kept(r is Ok, *old(self), *final(self), Lookup::Range { start: start@, end: end@ }),
    {
        let ghost before = *self;
        match self.reject_if_poisoned("get_range") {
            Ok(_) => {},
            Err(e) => {
                return Err(e);
            },
        }
        let TraceRecorder { mut tracer, mut reads, poisoned } = take_recorder(self);
        let r = tracer.range(start, end);
        if r.is_ok() {
            let op = ReadOp::Range { start: key_copy(start), end: key_copy(end) };
            proof {
                lemma_read_logged(reads@, op, before.events());
            }
            reads.push(op);
        }
        *self = TraceRecorder { tracer, reads, poisoned };
        r
    }

    fn get_prefix(&mut self, prefix: &[u8]) -> (r: Result<Vec<(Vec<u8>, Vec<u8>)>, Error>)
        ensures
            kept(r is Ok, *old(self), *final(self), Lookup::Prefix(prefix@)),
    {
        let ghost before = *self;
        match self.reject_if_poisoned("get_prefix") {
            Ok(_) => {},
            Err(e) => {
                return Err(e);
            },
        }
        let TraceRecorder { mut tracer, mut reads, poisoned } = take_recorder(self);
        let r = tracer.prefix(prefix);
        if r.is_ok() {
            let op = ReadOp::Prefix(key_copy(prefix));
            proof {
                lemma_read_logged(reads@, op, before.events());
            }
            reads.push(op);
        }
        *self = TraceRecorder { tracer, reads, poisoned };
        r
    }
}

impl TraceInterface for TraceRecorder {
    fn apply(&mut self, ops: &[WriteOp]) -> (r: Result<(), Error>)
        ensures
            final(self).start() == old(self).start(),
            final(self).answers() == old(self).answers(),
            reads_of(final(self).events()) == reads_of(old(self).events()),
            r is Ok ==> final(self).events() == old(self).events() + write_events(write_changes(ops@)),
    {
        let ghost before = *self;
        match self.reject_if_poisoned("apply") {
            Ok(_) => {},
            Err(e) => {
                return Err(e);
            },
        }
        let TraceRecorder { mut tracer, reads, poisoned } = take_recorder(self);
        let ghost first = tracer;
        let ghost cs = write_changes(ops@);
        let mut i: usize = 0;
        assert(cs.take(0) =~= Seq::empty());
        assert(tracer.events() =~= tracer.events() + write_events(cs.take(0)));
        while i < ops.len()
            invariant
                i <= ops@.len(),
                cs == write_changes(ops@),
                before == *old(self),
                before.live(),
                first == before.tracer,
                reads == before.reads,
                tracer.ok(),
                tracer.start() == first.start(),
                tracer.answers() == first.answers(),
                tracer.events() == first.events() + write_events(cs.take(i as int)),
                step_changes(first.now(), cs.take(i as int)) == Ok::<Option<Trie>, Fault>(tracer.now()),
                lookups(reads@) == reads_of(first.events()),
            decreases ops@.len() - i,
        {
            proof {
                assert(cs.take(i + 1).drop_last() =~= cs.take(i as int));
                assert(cs.take(i + 1).last() == ops@[i as int]@);
            }
            match tracer.apply_step(&ops[i]) {
                Ok(_) => {},
                Err(e) => {
                    proof {
                        lemma_failed_steps(first.now(), cs, i + 1);
                        lemma_reads_of_writes(first.events(), cs.take(i as int));
                    }
                    *self = TraceRecorder { tracer, reads, poisoned: true };
                    return Err(e);
                },
            }
            proof {
                assert(write_events(cs.take(i + 1)) =~= write_events(cs.take(i as int)).push(Event::Write(ops@[i as int]@)));
                assert((first.events() + write_events(cs.take(i as int))).push(Event::Write(ops@[i as int]@))
                    =~= first.events() + write_events(cs.take(i + 1)));
            }
            i = i + 1;
        }
        proof {
            assert(cs.take(cs.len() as int) =~= cs);
            lemma_reads_of_writes(first.events(), cs);
        }
        *self = TraceRecorder { tracer, reads, poisoned };
        Ok(())
    }
}

} // verus!
