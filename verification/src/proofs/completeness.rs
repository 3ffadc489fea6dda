//! Proofs that were made for a query check out, and give what the query finds.

use vstd::prelude::*;

use crate::bits::key_lt;
use crate::error::{Error, Fault};
use crate::mrt::order::lemma_key_lt_total;
use crate::mrt::scan::rows_view;
use crate::proofs::check::{
    all_fit, check_entry, check_node, check_rule, checking_start, gather, gather_rule, gathered_start, known_rows,
    known_value, lemma_proofs_fit, looked_up, map_checked, place_from, query_checked, ranged, Checking, EntryMap, Gathered,
};
use crate::proofs::op::{encoded_step, encoded_steps, law_parse_encoded_step, Shown, Step};
use crate::proofs::proof_tree::{built, executed, machine_start, Machine, Partial};
use crate::proofs::query::{any_covers, apart, lemma_le_trans, lemma_order_before, lemma_place_found, place_of, QueryPart};
use crate::proofs::search_tree::{around, ascending, child_proof, items_left, items_right, meets_at, proof_of,
    shown_root, Bst};
use crate::proofs::soundness::{folded, gathered_from, hits, holds, law_hits_are_what_is_asked_for,
    lemma_ascending_parts, lemma_check_end, lemma_folded_add, lemma_gather_part, lemma_hidden, lemma_known_rows,
    lemma_place_from, lemma_same_value, lemma_shown_entry, on_track, part_of, sane, value_in};

verus! {

/// What a single step leads to.
pub open spec fn stepped<S>(rule: spec_fn(S, Shown) -> Result<S, Fault>, op: Step, m: Machine, s: S) -> Result<
    (Machine, S),
    Fault,
> {
    match op {
        Step::Push(node) => if !m.in_order(node) {
            Err(Fault::Proof)
        } else {
            match rule(s, node) {
                Ok(s2) => Ok((m.push(node), s2)),
                Err(f) => Err(f),
            }
        },
        Step::Parent => match m.parent() {
            Some(m2) => Ok((m2, s)),
            None => Err(Fault::Proof),
        },
        Step::Child => match m.child() {
            Some(m2) => Ok((m2, s)),
            None => Err(Fault::Proof),
        },
    }
}

/// What steps lead to.
pub open spec fn run_steps<S>(rule: spec_fn(S, Shown) -> Result<S, Fault>, ops: Seq<Step>, m: Machine, s: S) -> Result<
    (Machine, S),
    Fault,
>
    decreases ops.len(),
{
    if ops.len() == 0 {
        Ok((m, s))
    } else {
        match run_steps(rule, ops.drop_last(), m, s) {
            Ok((m2, s2)) => stepped(rule, ops.last(), m2, s2),
            Err(f) => Err(f),
        }
    }
}

/// Steps in two parts.
proof fn lemma_run_add<S>(rule: spec_fn(S, Shown) -> Result<S, Fault>, a: Seq<Step>, b: Seq<Step>, m: Machine, s: S)
    ensures
        run_steps(rule, a + b, m, s) == (match run_steps(rule, a, m, s) {
            Ok((m2, s2)) => run_steps(rule, b, m2, s2),
            Err(f) => Err(f),
        }),
    decreases b.len(),
{
    if b.len() == 0 {
        assert(a + b =~= a);
    } else {
        assert((a + b).drop_last() =~= a + b.drop_last());
        lemma_run_add(rule, a, b.drop_last(), m, s);
    }
}

/// The byte form of steps leads to what the steps lead to.
proof fn lemma_executed_steps<S>(
    rule: spec_fn(S, Shown) -> Result<S, Fault>,
    ops: Seq<Step>,
    r: Seq<u8>,
    m: Machine,
    s: S,
)
    requires
        all_fit(ops),
    ensures
        executed(rule, encoded_steps(ops) + r, m, s) == (match run_steps(rule, ops, m, s) {
            Ok((m2, s2)) => executed(rule, r, m2, s2),
            Err(f) => Err(f),
        }),
    decreases ops.len(),
{
    if ops.len() == 0 {
        assert(encoded_steps(ops) + r =~= r);
    } else {
        let init = ops.drop_last();
        let op = ops.last();
        assert(op == ops[ops.len() - 1]);
        assert forall|i: int| 0 <= i < init.len() implies (#[trigger] init[i]).fits() by {
            assert(init[i] == ops[i]);
        }
        let tail = encoded_step(op) + r;
        assert(encoded_steps(ops) + r =~= encoded_steps(init) + tail);
        lemma_executed_steps(rule, init, tail, m, s);
        law_parse_encoded_step(op, r);
        assert(tail.len() > 0);
    }
}

/// What a proof shows of a tree.
pub open spec fn shown_tree(t: Bst, items: Seq<QueryPart>) -> Partial
    decreases t, 0int,
{
    match t {
        Bst::Empty => Partial::Missing,
        Bst::Node { key, value, left, right } => {
            let l = child_proof(*left, items_left(items, key));
            let r = child_proof(*right, items_right(items, key));
            Partial::Node {
                node: shown_root(items, key, value, l, r),
                left: Box::new(shown_child(*left, items_left(items, key))),
                right: Box::new(shown_child(*right, items_right(items, key))),
            }
        },
    }
}

/// What a proof shows of a subtree.
pub open spec fn shown_child(t: Bst, items: Seq<QueryPart>) -> Partial
    decreases t, 1int,
{
    if items.len() > 0 || t is Empty {
        shown_tree(t, items)
    } else {
        Partial::Node {
            node: Shown::NodeHash(t.hash()),
            left: Box::new(Partial::Missing),
            right: Box::new(Partial::Missing),
        }
    }
}

/// What a proof shows is a part of the tree.
proof fn lemma_shown_is_part(t: Bst, items: Seq<QueryPart>)
    ensures
        part_of(shown_tree(t, items), t),
        part_of(shown_child(t, items), t),
        sane(shown_tree(t, items)),
        sane(shown_child(t, items)),
    decreases t,
{
    reveal_with_fuel(sane, 2);
    if let Bst::Node { key, value, left, right } = t {
        lemma_shown_is_part(*left, items_left(items, key));
        lemma_shown_is_part(*right, items_right(items, key));
    }
}

/// A part has the hash of the tree.
proof fn lemma_part_hash(p: Partial, t: Bst)
    requires
        part_of(p, t),
    ensures
        p.hash() == t.hash(),
    decreases p,
{
    if let Partial::Node { node, left, right } = p {
        if let Bst::Node { key, value, left: l, right: r } = t {
            if !(node is NodeHash) {
                lemma_part_hash(*left, *l);
                lemma_part_hash(*right, *r);
            }
        }
    }
}

/// Whether the last key that was shown comes before all rows.
spec fn key_before(last: Option<Seq<u8>>, rows: Seq<(Seq<u8>, Seq<u8>)>) -> bool {
    last matches Some(l) ==> forall|i: int| 0 <= i < rows.len() ==> key_lt(l, (#[trigger] rows[i]).0)
}

/// Whether a key is one of those of the rows.
spec fn key_among(last: Option<Seq<u8>>, rows: Seq<(Seq<u8>, Seq<u8>)>) -> bool {
    last matches Some(l) && exists|i: int| 0 <= i < rows.len() && (#[trigger] rows[i]).0 == l
}

/// The steps that show a tree leave what they show on the stack.
#[verifier::spinoff_prover]
proof fn lemma_run_tree<S>(rule: spec_fn(S, Shown) -> Result<S, Fault>, t: Bst, items: Seq<QueryPart>, m: Machine, s: S)
    requires
        t is Node,
        ascending(t.entries()),
        key_before(m.last_key, t.entries()),
        folded(rule, s, shown_tree(t, items).walk()) is Ok,
    ensures
        run_steps(rule, proof_of(t, items).ops, m, s) matches Ok((m2, s2)) && m2.stack == m.stack.push(shown_tree(t, items))
            && s2 == folded(rule, s, shown_tree(t, items).walk())->Ok_0 && (m2.last_key == m.last_key || key_among(
            m2.last_key,
            t.entries(),
        )),
    decreases t, 0int,
{
    if let Bst::Node { key, value, left, right } = t {
        let (il, ir) = (items_left(items, key), items_right(items, key));
        let l = child_proof(*left, il);
        let r = child_proof(*right, ir);
        let node = shown_root(items, key, value, l, r);
        let (pl, pr) = (shown_child(*left, il), shown_child(*right, ir));
        let (el, er) = (left.entries(), right.entries());
        let mid = seq![(key, value)];
        assert(t.entries() == el + mid + er);
        lemma_split_ascending(el, mid, er);
        lemma_folded_add(rule, s, pl.walk() + seq![node], pr.walk());
        lemma_folded_add(rule, s, pl.walk(), seq![node]);
        assert forall|i: int| 0 <= i < el.len() implies (#[trigger] t.entries()[i]) == el[i] by {}
        assert(t.entries()[el.len() as int] == (key, value));
        assert forall|i: int| 0 <= i < er.len() implies (#[trigger] t.entries()[el.len() + 1 + i]) == er[i] by {}
        assert(key_before(m.last_key, el)) by {
            if let Some(k) = m.last_key {
                assert forall|i: int| 0 <= i < el.len() implies key_lt(k, (#[trigger] el[i]).0) by {
                    assert(t.entries()[i] == el[i]);
                }
            }
        }
        let n: int = m.stack.len() as int;
        lemma_run_child(rule, *left, il, m, s);
        let (m1, s1) = run_steps(rule, l.ops, m, s)->Ok_0;
        // The node itself.
        assert(seq![node].drop_last() =~= Seq::empty());
        reveal_with_fuel(folded, 2);
        let s2 = rule(s1, node)->Ok_0;
        assert(m1.in_order(node)) by {
            if let Some(k) = m1.last_key {
                if m1.last_key == m.last_key {
                    assert(key_lt(k, t.entries()[el.len() as int].0));
                } else {
                    let i = choose|i: int| 0 <= i < el.len() && (#[trigger] el[i]).0 == k;
                    assert(key_lt(t.entries()[i].0, t.entries()[el.len() as int].0));
                }
            }
        }
        let leaf = Partial::Node { node, left: Box::new(Partial::Missing), right: Box::new(Partial::Missing) };
        let m2 = m1.push(node);
        let with_left = Partial::Node { node, left: Box::new(pl), right: Box::new(Partial::Missing) };
        let head = if l.ops.len() > 0 {
            l.ops.push(Step::Push(node)).push(Step::Parent)
        } else {
            l.ops.push(Step::Push(node))
        };
        let m3 = Machine { stack: m.stack.push(with_left), last_key: m2.last_key };
        assert(run_steps(rule, head, m, s) == Ok::<(Machine, S), Fault>((m3, s2))) by {
            let up_to = l.ops.push(Step::Push(node));
            assert(up_to.drop_last() =~= l.ops);
            assert(up_to.last() == Step::Push(node));
            assert(run_steps(rule, up_to, m, s) == Ok::<(Machine, S), Fault>((m2, s2)));
            if l.ops.len() > 0 {
                assert(head.drop_last() =~= up_to);
                assert(head.last() == Step::Parent);
                assert(m2.stack[n] == pl);
                assert(m2.stack[n + 1] == leaf);
                assert(m2.stack.take(n) =~= m.stack);
            } else {
                assert(m2.stack =~= m.stack.push(with_left));
            }
        }
        assert(key_before(m3.last_key, er)) by {
            if let Some(k) = m3.last_key {
                assert forall|i: int| 0 <= i < er.len() implies key_lt(k, (#[trigger] er[i]).0) by {
                    assert(t.entries()[el.len() + 1 + i] == er[i]);
                    if node is KV {
                        assert(key_lt(t.entries()[el.len() as int].0, t.entries()[el.len() + 1 + i].0));
                    } else if m1.last_key == m.last_key {
                        assert(key_lt(k, t.entries()[el.len() + 1 + i].0));
                    } else {
                        let j = choose|j: int| 0 <= j < el.len() && (#[trigger] el[j]).0 == k;
                        assert(key_lt(t.entries()[j].0, t.entries()[el.len() + 1 + i].0));
                    }
                }
            }
        }
        assert(m3.last_key == m.last_key || key_among(m3.last_key, t.entries())) by {
            if node is KV {
                assert(t.entries()[el.len() as int].0 == key);
            } else if m1.last_key != m.last_key {
                let k = m1.last_key->0;
                let i = choose|i: int| 0 <= i < el.len() && (#[trigger] el[i]).0 == k;
                assert(t.entries()[i].0 == k);
            }
        }
        lemma_run_child(rule, *right, ir, m3, s2);
        let (m4, s4) = run_steps(rule, r.ops, m3, s2)->Ok_0;
        assert(m4.last_key == m.last_key || key_among(m4.last_key, t.entries())) by {
            if m4.last_key != m3.last_key {
                let k = m4.last_key->0;
                let i = choose|i: int| 0 <= i < er.len() && (#[trigger] er[i]).0 == k;
                assert(t.entries()[el.len() + 1 + i].0 == k);
            }
        }
        let ops = proof_of(t, items).ops;
        if r.ops.len() > 0 {
            lemma_run_add(rule, head, r.ops, m, s);
            assert(ops =~= (head + r.ops).push(Step::Child));
            assert(ops.drop_last() =~= head + r.ops);
            assert(ops.last() == Step::Child);
            assert(m4.stack[n] == with_left);
            assert(m4.stack[n + 1] == pr);
            assert(m4.stack.take(n) =~= m.stack);
        } else {
            assert(ops =~= head);
        }
    }
}

/// As [`lemma_run_tree`], for a subtree.
proof fn lemma_run_child<S>(rule: spec_fn(S, Shown) -> Result<S, Fault>, t: Bst, items: Seq<QueryPart>, m: Machine, s: S)
    requires
        ascending(t.entries()),
        key_before(m.last_key, t.entries()),
        folded(rule, s, shown_child(t, items).walk()) is Ok,
    ensures
        run_steps(rule, child_proof(t, items).ops, m, s) matches Ok((m2, s2)) && m2.stack == (if t is Empty {
            m.stack
        } else {
            m.stack.push(shown_child(t, items))
        }) && s2 == folded(rule, s, shown_child(t, items).walk())->Ok_0 && (m2.last_key == m.last_key || key_among(
            m2.last_key,
            t.entries(),
        )),
        child_proof(t, items).ops.len() > 0 <==> !(t is Empty),
        shown_child(t, items) is Missing <==> t is Empty,
    decreases t, 1int,
{
    if t is Empty {
    } else if items.len() > 0 {
        lemma_run_tree(rule, t, items, m, s);
    } else {
        let node = Shown::NodeHash(t.hash());
        let p = shown_child(t, items);
        assert(p.walk() =~= seq![node]) by {
            reveal_with_fuel(Partial::walk, 2);
        }
        assert(seq![node].drop_last() =~= Seq::empty());
        reveal_with_fuel(folded, 2);
        let ops = child_proof(t, items).ops;
        assert(ops.drop_last() =~= Seq::empty());
        assert(ops.last() == Step::Push(node));
        reveal_with_fuel(run_steps, 2);
    }
}

/// The parts of ascending rows ascend.
proof fn lemma_split_ascending(a: Seq<(Seq<u8>, Seq<u8>)>, b: Seq<(Seq<u8>, Seq<u8>)>, c: Seq<(Seq<u8>, Seq<u8>)>)
    requires
        ascending(a + b + c),
    ensures
        ascending(a),
        ascending(c),
{
    let all = a + b + c;
    lemma_ascending_parts(a + b, c);
    lemma_ascending_parts(a, b);
    assert forall|i: int, j: int| 0 <= i < j < c.len() implies key_lt((#[trigger] c[i]).0, (#[trigger] c[j]).0) by {
        assert(all[a.len() + b.len() + i] == c[i]);
        assert(all[a.len() + b.len() + j] == c[j]);
    }
}

/// Whether a key comes after the bound `lo`, if there is one.
pub open spec fn after(lo: Option<Seq<u8>>, key: Seq<u8>) -> bool {
    lo matches Some(l) ==> key_lt(l, key)
}

/// Whether a key comes before the bound `hi`, if there is one.
pub open spec fn before(key: Seq<u8>, hi: Option<Seq<u8>>) -> bool {
    hi matches Some(h) ==> key_lt(key, h)
}

/// Whether an item may ask for a key between two bounds.
pub open spec fn concerns(item: QueryPart, lo: Option<Seq<u8>>, hi: Option<Seq<u8>>) -> bool {
    after(lo, item.upper()) && before(item.lower(), hi)
}

/// Whether any item may.
pub open spec fn touches(items: Seq<QueryPart>, lo: Option<Seq<u8>>, hi: Option<Seq<u8>>) -> bool {
    exists|i: int| 0 <= i < items.len() && concerns(#[trigger] items[i], lo, hi)
}

/// Whether the items from `a` up to `b` are those that may ask for a key between two bounds.
pub open spec fn slice_of(items: Seq<QueryPart>, a: int, b: int, lo: Option<Seq<u8>>, hi: Option<Seq<u8>>) -> bool {
    &&& 0 <= a <= b <= items.len()
    &&& forall|j: int| 0 <= j < items.len() ==> (j < a <==> !after(lo, (#[trigger] items[j]).upper()))
    &&& forall|j: int| 0 <= j < items.len() ==> (j < b <==> before((#[trigger] items[j]).lower(), hi))
}

/// How a proper item lies to a key.
proof fn lemma_item_key(item: QueryPart, x: Seq<u8>)
    requires
        item.proper(),
    ensures
        item.relation(QueryPart::Key(x)) is Before <==> key_lt(item.upper(), x) || (item.upper() == x && !item.closed()),
        item.relation(QueryPart::Key(x)) is After <==> key_lt(x, item.lower()),
        item.relation(QueryPart::Key(x)) is Before ==> key_lt(item.lower(), x) && !key_lt(x, item.upper()),
        item.relation(QueryPart::Key(x)) is After ==> !key_lt(item.lower(), x) && key_lt(x, item.upper()),
        item.relation(QueryPart::Key(x)) is Meets <==> item.covers(x),
{
    let key = QueryPart::Key(x);
    lemma_order_before(item, key);
    lemma_order_before(key, item);
    lemma_key_lt_total(item.lower(), item.upper());
    lemma_key_lt_total(item.lower(), x);
    lemma_key_lt_total(x, item.upper());
    lemma_le_trans(item.lower(), item.upper(), x);
    lemma_le_trans(x, item.lower(), item.upper());
}

/// Of items that are apart, bounds ascend.
proof fn lemma_bounds_ascend(items: Seq<QueryPart>, i: int, j: int)
    requires
        apart(items),
        0 <= i < j < items.len(),
    ensures
        key_lt(items[i].upper(), items[j].lower()) || (items[i].upper() == items[j].lower() && !items[i].closed()),
        !key_lt(items[j].lower(), items[i].upper()),
        key_lt(items[i].lower(), items[j].lower()),
        !key_lt(items[j].upper(), items[i].upper()),
{
    let (a, b) = (items[i], items[j]);
    assert(a.proper() && b.proper());
    assert(a.relation(b) is Before);
    lemma_order_before(a, b);
    lemma_key_lt_total(a.upper(), b.lower());
    lemma_key_lt_total(a.lower(), a.upper());
    lemma_key_lt_total(b.lower(), b.upper());
    lemma_le_trans(a.lower(), a.upper(), b.lower());
    lemma_le_trans(a.upper(), b.lower(), b.upper());
    lemma_key_lt_total(a.upper(), b.upper());
}

/// Items before and behind the place of a key.
proof fn lemma_place_splits(items: Seq<QueryPart>, a: int, b: int, x: Seq<u8>)
    requires
        apart(items),
        0 <= a <= b <= items.len(),
    ensures
        ({
            let sub = items.subrange(a, b);
            let i = place_of(sub, QueryPart::Key(x));
            &&& 0 <= i <= sub.len()
            &&& forall|j: int| a <= j < a + i ==> (#[trigger] items[j]).relation(QueryPart::Key(x)) is Before
            &&& i < sub.len() ==> sub[i] == items[a + i] && !(items[a + i].relation(QueryPart::Key(x)) is Before)
        }),
{
    let sub = items.subrange(a, b);
    lemma_place_found(sub, QueryPart::Key(x));
    let i = place_of(sub, QueryPart::Key(x));
    assert forall|j: int| a <= j < a + i implies (#[trigger] items[j]).relation(QueryPart::Key(x)) is Before by {
        assert(sub[j - a] == items[j]);
    }
}

/// The items for the subtree left of a key.
#[verifier::spinoff_prover]
proof fn lemma_slice_left(
    items: Seq<QueryPart>,
    a: int,
    b: int,
    lo: Option<Seq<u8>>,
    hi: Option<Seq<u8>>,
    x: Seq<u8>,
) -> (c: int)
    requires
        apart(items),
        slice_of(items, a, b, lo, hi),
        after(lo, x),
        before(x, hi),
    ensures
        slice_of(items, a, c, lo, Some(x)),
        items_left(items.subrange(a, b), x) == items.subrange(a, c),
{
    let sub = items.subrange(a, b);
    lemma_place_splits(items, a, b, x);
    let i = place_of(sub, QueryPart::Key(x));
    let c = if meets_at(sub, x) && key_lt(sub[i].lower(), x) {
        a + i + 1
    } else {
        a + i
    };
    assert(items_left(sub, x) =~= items.subrange(a, c));
    assert forall|j: int| 0 <= j < items.len() implies (j < c <==> before((#[trigger] items[j]).lower(), Some(x))) by {
        let item = items[j];
        assert(item.proper());
        lemma_item_key(item, x);
        if j < a {
            let l = lo->0;
            lemma_key_lt_total(l, item.upper());
            lemma_key_lt_total(item.lower(), item.upper());
            lemma_le_trans(item.lower(), item.upper(), l);
            lemma_le_trans(item.lower(), l, x);
            lemma_le_trans(item.upper(), l, x);
            lemma_le_trans(item.lower(), item.upper(), x);
        } else if j >= b {
            let h = hi->0;
            lemma_le_trans(x, h, item.lower());
            lemma_key_lt_total(h, item.lower());
            lemma_key_lt_total(x, item.lower());
        } else if j > a + i {
            let at = items[a + i];
            assert(at.proper());
            lemma_item_key(at, x);
            lemma_bounds_ascend(items, a + i, j);
            lemma_key_lt_total(x, at.upper());
            lemma_key_lt_total(x, item.lower());
            lemma_le_trans(x, at.upper(), item.lower());
            lemma_le_trans(x, at.lower(), item.lower());
        }
    }
    c
}

/// The items for the subtree right of a key.
#[verifier::spinoff_prover]
proof fn lemma_slice_right(
    items: Seq<QueryPart>,
    a: int,
    b: int,
    lo: Option<Seq<u8>>,
    hi: Option<Seq<u8>>,
    x: Seq<u8>,
) -> (c: int)
    requires
        apart(items),
        slice_of(items, a, b, lo, hi),
        after(lo, x),
        before(x, hi),
    ensures
        slice_of(items, c, b, Some(x), hi),
        items_right(items.subrange(a, b), x) == items.subrange(c, b),
{
    let sub = items.subrange(a, b);
    lemma_place_splits(items, a, b, x);
    let i = place_of(sub, QueryPart::Key(x));
    let c = if meets_at(sub, x) && !key_lt(x, sub[i].upper()) {
        a + i + 1
    } else {
        a + i
    };
    assert(items_right(sub, x) =~= items.subrange(c, b));
    assert forall|j: int| 0 <= j < items.len() implies (j < c <==> !after(Some(x), (#[trigger] items[j]).upper())) by {
        let item = items[j];
        assert(item.proper());
        lemma_item_key(item, x);
        lemma_key_lt_total(item.lower(), item.upper());
        if j < a {
            let l = lo->0;
            lemma_key_lt_total(l, item.upper());
            lemma_le_trans(item.upper(), l, x);
            lemma_key_lt_total(x, item.upper());
        } else if j >= b {
            let h = hi->0;
            lemma_le_trans(x, h, item.lower());
            lemma_key_lt_total(h, item.lower());
            lemma_le_trans(x, item.lower(), item.upper());
        } else if j > a + i {
            let at = items[a + i];
            assert(at.proper());
            lemma_item_key(at, x);
            lemma_bounds_ascend(items, a + i, j);
            lemma_key_lt_total(x, at.upper());
            lemma_key_lt_total(at.upper(), item.upper());
            lemma_le_trans(x, at.upper(), item.upper());
            lemma_le_trans(x, item.lower(), item.upper());
        }
    }
    c
}

/// The key of the first row, or a bound if there is none.
pub open spec fn first_key(rows: Seq<(Seq<u8>, Seq<u8>)>, hi: Option<Seq<u8>>) -> Option<Seq<u8>> {
    if rows.len() > 0 {
        Some(rows[0].0)
    } else {
        hi
    }
}

/// The key of the last row, or a bound if there is none.
pub open spec fn last_key(rows: Seq<(Seq<u8>, Seq<u8>)>, lo: Option<Seq<u8>>) -> Option<Seq<u8>> {
    if rows.len() > 0 {
        Some(rows.last().0)
    } else {
        lo
    }
}

/// Whether rows lie between two bounds.
pub open spec fn within(rows: Seq<(Seq<u8>, Seq<u8>)>, lo: Option<Seq<u8>>, hi: Option<Seq<u8>>) -> bool {
    forall|i: int| 0 <= i < rows.len() ==> after(lo, (#[trigger] rows[i]).0) && before(rows[i].0, hi)
}

/// If no items are for what lies between two bounds, none is for a part of it.
proof fn lemma_touches_none(items: Seq<QueryPart>, a: int, b: int, lo: Option<Seq<u8>>, hi: Option<Seq<u8>>)
    requires
        slice_of(items, a, b, lo, hi),
    ensures
        touches(items, lo, hi) <==> a < b,
{
    if touches(items, lo, hi) {
        let j = choose|j: int| 0 <= j < items.len() && concerns(#[trigger] items[j], lo, hi);
        assert(a <= j < b);
    }
    if a < b {
        assert(concerns(items[a], lo, hi));
    }
}

/// What lies between narrower bounds lies between wider ones.
proof fn lemma_touches_wider(
    items: Seq<QueryPart>,
    lo: Option<Seq<u8>>,
    hi: Option<Seq<u8>>,
    lo2: Option<Seq<u8>>,
    hi2: Option<Seq<u8>>,
)
    requires
        touches(items, lo2, hi2),
        lo == lo2 || (lo2 matches Some(l) && after(lo, l)),
        hi == hi2 || (hi2 matches Some(h) && before(h, hi)),
    ensures
        touches(items, lo, hi),
{
    let j = choose|j: int| 0 <= j < items.len() && concerns(#[trigger] items[j], lo2, hi2);
    if lo != lo2 {
        if let Some(l) = lo {
            lemma_le_trans(l, lo2->0, items[j].upper());
        }
    }
    if hi != hi2 {
        if let Some(h) = hi {
            lemma_le_trans(items[j].lower(), hi2->0, h);
        }
    }
    assert(concerns(items[j], lo, hi));
}

/// The flags of a proof say whether a key that is asked for may lie before the
/// first or after the last entry.
proof fn lemma_edges(items: Seq<QueryPart>, t: Bst, a: int, b: int, lo: Option<Seq<u8>>, hi: Option<Seq<u8>>)
    requires
        apart(items),
        slice_of(items, a, b, lo, hi),
        ascending(t.entries()),
        within(t.entries(), lo, hi),
    ensures
        child_proof(t, items.subrange(a, b)).left_edge == touches(items, lo, first_key(t.entries(), hi)),
        child_proof(t, items.subrange(a, b)).right_edge == touches(items, last_key(t.entries(), lo), hi),
    decreases t,
{
    let rows = t.entries();
    let sub = items.subrange(a, b);
    lemma_touches_none(items, a, b, lo, hi);
    match t {
        Bst::Empty => {},
        Bst::Node { key, value, left, right } => {
            let (el, er) = (left.entries(), right.entries());
            let n = el.len() as int;
            lemma_split_ascending(el, seq![(key, value)], er);
            assert(rows[n] == (key, value));
            assert(after(lo, key) && before(key, hi));
            if a == b {
                if touches(items, lo, first_key(rows, hi)) {
                    lemma_touches_wider(items, lo, hi, lo, first_key(rows, hi));
                }
                if touches(items, last_key(rows, lo), hi) {
                    lemma_touches_wider(items, lo, hi, last_key(rows, lo), hi);
                }
            } else {
                lemma_within_left(t, lo, hi);
                let c = lemma_slice_left(items, a, b, lo, hi, key);
                let d = lemma_slice_right(items, a, b, lo, hi, key);
                lemma_edges(items, *left, a, c, lo, Some(key));
                lemma_edges(items, *right, d, b, Some(key), hi);
                if el.len() > 0 {
                    assert(rows[0] == el[0]);
                }
                if er.len() > 0 {
                    assert(rows.last() == er.last());
                }
            }
        },
    }
}

/// The entries of the subtrees lie between the bounds and the key.
proof fn lemma_within_left(t: Bst, lo: Option<Seq<u8>>, hi: Option<Seq<u8>>)
    requires
        t is Node,
        ascending(t.entries()),
        within(t.entries(), lo, hi),
    ensures
        within(t->left.entries(), lo, Some(t->key)),
        within(t->right.entries(), Some(t->key), hi),
{
    let rows = t.entries();
    let (el, er) = (t->left.entries(), t->right.entries());
    let n = el.len() as int;
    assert(rows[n] == (t->key, t->value));
    assert forall|i: int| 0 <= i < el.len() implies after(lo, (#[trigger] el[i]).0) && before(el[i].0, Some(t->key)) by {
        assert(rows[i] == el[i]);
        assert(key_lt(rows[i].0, rows[n].0));
    }
    assert forall|i: int| 0 <= i < er.len() implies after(Some(t->key), (#[trigger] er[i]).0) && before(er[i].0, hi) by {
        assert(rows[n + 1 + i] == er[i]);
        assert(key_lt(rows[n].0, rows[n + 1 + i].0));
    }
}

/// Whether the check has come as far as the rows so far allow.
pub open spec fn exact(items: Seq<QueryPart>, c: Checking, rows: Seq<(Seq<u8>, Seq<u8>)>) -> bool {
    c.done < items.len() && rows.len() > 0 ==> {
        &&& key_lt(rows.last().0, items[c.done as int].upper())
        &&& !c.in_range ==> key_lt(rows.last().0, items[c.done as int].lower())
    }
}

/// A subtree of which nothing is asked for may be hidden.
proof fn lemma_hide_subtree(
    items: Seq<QueryPart>,
    c: Checking,
    rows: Seq<(Seq<u8>, Seq<u8>)>,
    more: Seq<(Seq<u8>, Seq<u8>)>,
    hi: Option<Seq<u8>>,
)
    requires
        apart(items),
        on_track(items, c, rows),
        exact(items, c, rows),
        more.len() > 0,
        within(more, last_key(rows, None), hi),
        !touches(items, last_key(rows, None), hi),
    ensures
        !c.in_range,
        exact(items, Checking { last_shown: Some(false), ..c }, rows + more),
{
    let lo = last_key(rows, None);
    if c.done < items.len() {
        let item = items[c.done as int];
        assert(item.proper());
        lemma_key_lt_total(item.lower(), item.upper());
        assert(!concerns(item, lo, hi));
        let m = more.last().0;
        assert(before(more[more.len() - 1].0, hi));
        assert((rows + more).last() == more.last());
        if c.in_range {
            lemma_key_lt_total(item.lower(), rows.last().0);
            if let Some(h) = hi {
                assert(after(lo, more[0].0) && before(more[0].0, hi));
                lemma_le_trans(rows.last().0, more[0].0, h);
                lemma_le_trans(item.lower(), rows.last().0, h);
            }
        } else {
            if rows.len() > 0 {
                assert(after(lo, item.upper()));
            }
            let h = hi->0;
            lemma_key_lt_total(item.lower(), h);
            lemma_le_trans(m, h, item.lower());
            lemma_le_trans(m, item.lower(), item.upper());
        }
    }
}

/// An entry that is not asked for, with nothing asked for before it, may be hidden.
proof fn lemma_hide_entry(items: Seq<QueryPart>, c: Checking, rows: Seq<(Seq<u8>, Seq<u8>)>, x: Seq<u8>, v: Seq<u8>)
    requires
        apart(items),
        on_track(items, c, rows),
        exact(items, c, rows),
        after(last_key(rows, None), x),
        !touches(items, last_key(rows, None), Some(x)),
        forall|i: int| 0 <= i < items.len() ==> !(#[trigger] items[i]).covers(x),
    ensures
        !c.in_range,
        exact(items, Checking { last_shown: Some(false), ..c }, rows + seq![(x, v)]),
{
    let lo = last_key(rows, None);
    if c.done < items.len() {
        let item = items[c.done as int];
        assert(item.proper());
        lemma_key_lt_total(item.lower(), item.upper());
        lemma_key_lt_total(item.lower(), x);
        lemma_key_lt_total(x, item.upper());
        assert(!concerns(item, lo, Some(x)));
        assert((rows + seq![(x, v)]).last() == (x, v));
        if c.in_range {
            lemma_key_lt_total(item.lower(), rows.last().0);
            lemma_le_trans(item.lower(), rows.last().0, x);
        } else {
            if rows.len() > 0 {
                assert(after(lo, item.upper()));
            }
            assert(!item.covers(x));
            lemma_le_trans(x, item.lower(), item.upper());
        }
    }
}

/// An entry that is shown is accepted, unless something may be asked for before it that is hidden.
#[verifier::spinoff_prover]
proof fn lemma_show_entry(items: Seq<QueryPart>, c: Checking, rows: Seq<(Seq<u8>, Seq<u8>)>, x: Seq<u8>, v: Seq<u8>)
    requires
        apart(items),
        c.done <= items.len(),
        after(last_key(rows, None), x),
        c.done < items.len() && !c.in_range && rows.len() > 0 ==> key_lt(rows.last().0, items[c.done as int].lower()),
        touches(items, last_key(rows, None), Some(x)) && !c.in_range ==> c.last_shown != Some(false),
        c.in_range ==> c.last_shown == Some(true),
        c.in_range ==> c.done < items.len() && rows.len() > 0 && key_lt(rows.last().0, items[c.done as int].upper()),
        c.in_range ==> !key_lt(rows.last().0, items[c.done as int].lower()),
    ensures
        check_entry(items, c, x, v) is Ok,
        exact(items, Checking { last_shown: Some(true), ..check_entry(items, c, x, v)->Ok_0 }, rows.push((x, v))),
    decreases items.len() - c.done,
{
    let lo = last_key(rows, None);
    if c.done < items.len() {
        let n = c.done as int;
        let item = items[n];
        assert(item.proper());
        lemma_item_key(item, x);
        lemma_key_lt_total(item.lower(), item.upper());
        lemma_key_lt_total(item.lower(), x);
        lemma_key_lt_total(x, item.upper());
        if item.relation(QueryPart::Key(x)) is After {
            if c.in_range {
                lemma_key_lt_total(item.lower(), rows.last().0);
                lemma_le_trans(item.lower(), rows.last().0, x);
            }
        } else {
            if !c.in_range && x != item.lower() {
                if rows.len() > 0 {
                    lemma_le_trans(rows.last().0, item.lower(), item.upper());
                }
                assert(concerns(item, lo, Some(x)));
                assert(touches(items, lo, Some(x)));
            }
            let passed = !key_lt(x, item.upper());
            let c2 = Checking {
                done: if passed {
                    c.done + 1
                } else {
                    c.done
                },
                in_range: !passed,
                ..c
            };
            if item.covers(x) {
                if passed && n + 1 < items.len() {
                    lemma_bounds_ascend(items, n, n + 1);
                    assert(items[n + 1].proper());
                    lemma_key_lt_total(items[n + 1].lower(), items[n + 1].upper());
                    lemma_le_trans(x, items[n + 1].lower(), items[n + 1].upper());
                }
            } else {
                assert(passed);
                if n + 1 < items.len() {
                    lemma_bounds_ascend(items, n, n + 1);
                    if rows.len() > 0 {
                        lemma_le_trans(rows.last().0, item.lower(), items[n + 1].lower());
                        lemma_le_trans(rows.last().0, item.upper(), items[n + 1].lower());
                        lemma_key_lt_total(item.upper(), items[n + 1].lower());
                    }
                }
                lemma_show_entry(items, c2, rows, x, v);
            }
        }
    }
}

/// A key that no item for what lies around it asks for is not asked for at all.
proof fn lemma_not_met(items: Seq<QueryPart>, a: int, b: int, lo: Option<Seq<u8>>, hi: Option<Seq<u8>>, x: Seq<u8>)
    requires
        apart(items),
        slice_of(items, a, b, lo, hi),
        after(lo, x),
        before(x, hi),
        !meets_at(items.subrange(a, b), x),
    ensures
        forall|i: int| 0 <= i < items.len() ==> !(#[trigger] items[i]).covers(x),
{
    let sub = items.subrange(a, b);
    lemma_place_splits(items, a, b, x);
    let i = place_of(sub, QueryPart::Key(x));
    assert forall|j: int| 0 <= j < items.len() implies !(#[trigger] items[j]).covers(x) by {
        let item = items[j];
        assert(item.proper());
        lemma_item_key(item, x);
        if j < a {
            let l = lo->0;
            lemma_key_lt_total(l, item.upper());
            lemma_le_trans(item.upper(), l, x);
            lemma_key_lt_total(x, item.upper());
        } else if j >= b {
            let h = hi->0;
            lemma_key_lt_total(h, item.lower());
            lemma_le_trans(x, h, item.lower());
        } else if j > a + i {
            let at = items[a + i];
            assert(at.proper());
            lemma_item_key(at, x);
            lemma_bounds_ascend(items, a + i, j);
            lemma_le_trans(x, at.lower(), item.lower());
        }
    }
}

/// Whether the check accepts what is shown after the rows so far, and ends with
/// an entry if something may be asked for behind it.
spec fn accepted(
    items: Seq<QueryPart>,
    c: Checking,
    rows: Seq<(Seq<u8>, Seq<u8>)>,
    p: Partial,
    more: Seq<(Seq<u8>, Seq<u8>)>,
    hi: Option<Seq<u8>>,
) -> bool {
    folded(check_rule(items), c, p.walk()) matches Ok(c2) && on_track(items, c2, rows + more) && exact(items, c2, rows + more)
        && (more.len() > 0 && touches(items, last_key(more, None), hi) ==> c2.last_shown == Some(true)) && (more.len() == 0
        ==> c2 == c)
}

/// The check accepts what a proof shows of a subtree.
proof fn lemma_accept_child(
    items: Seq<QueryPart>,
    t: Bst,
    a: int,
    b: int,
    hi: Option<Seq<u8>>,
    c: Checking,
    rows: Seq<(Seq<u8>, Seq<u8>)>,
)
    requires
        apart(items),
        slice_of(items, a, b, last_key(rows, None), hi),
        ascending(rows + t.entries()),
        ascending(t.entries()),
        within(t.entries(), last_key(rows, None), hi),
        on_track(items, c, rows),
        exact(items, c, rows),
        touches(items, last_key(rows, None), first_key(t.entries(), hi)) ==> c.last_shown != Some(false),
    ensures
        accepted(items, c, rows, shown_child(t, items.subrange(a, b)), t.entries(), hi),
    decreases t, 1int,
{
    let sub = items.subrange(a, b);
    let lo = last_key(rows, None);
    let p = shown_child(t, sub);
    if t is Empty {
        assert(rows + t.entries() =~= rows);
        assert(p.walk() =~= Seq::empty());
    } else if sub.len() > 0 {
        lemma_accept_tree(items, t, a, b, hi, c, rows);
    } else {
        let more = t.entries();
        assert(more.len() > 0) by {
            if let Bst::Node { key, value, left, right } = t {
                assert(more[left.entries().len() as int] == (key, value));
            }
        }
        lemma_touches_none(items, a, b, lo, hi);
        lemma_hide_subtree(items, c, rows, more, hi);
        lemma_hidden(items, c, rows, more);
        let node = Shown::NodeHash(t.hash());
        assert(p.walk() =~= seq![node]) by {
            reveal_with_fuel(Partial::walk, 2);
        }
        assert(seq![node].drop_last() =~= Seq::empty());
        reveal_with_fuel(folded, 2);
        if touches(items, last_key(more, None), hi) {
            assert(after(lo, more[more.len() - 1].0));
            lemma_touches_wider(items, lo, hi, last_key(more, None), hi);
        }
    }
}

/// The check accepts what a proof shows of a tree.
#[verifier::spinoff_prover]
#[verifier::rlimit(40)]
proof fn lemma_accept_tree(
    items: Seq<QueryPart>,
    t: Bst,
    a: int,
    b: int,
    hi: Option<Seq<u8>>,
    c: Checking,
    rows: Seq<(Seq<u8>, Seq<u8>)>,
)
    requires
        t is Node,
        apart(items),
        slice_of(items, a, b, last_key(rows, None), hi),
        ascending(rows + t.entries()),
        ascending(t.entries()),
        within(t.entries(), last_key(rows, None), hi),
        on_track(items, c, rows),
        exact(items, c, rows),
        touches(items, last_key(rows, None), first_key(t.entries(), hi)) ==> c.last_shown != Some(false),
    ensures
        accepted(items, c, rows, shown_tree(t, items.subrange(a, b)), t.entries(), hi),
    decreases t, 0int,
{
    if let Bst::Node { key, value, left, right } = t {
        let rule = check_rule(items);
        let sub = items.subrange(a, b);
        let lo = last_key(rows, None);
        let more = t.entries();
        let (el, er) = (left.entries(), right.entries());
        let mid = seq![(key, value)];
        let n = el.len() as int;
        assert(more[n] == (key, value));
        assert(after(lo, key) && before(key, hi));
        lemma_split_ascending(el, mid, er);
        lemma_within_left(t, lo, hi);
        let x1 = lemma_slice_left(items, a, b, lo, hi, key);
        let x2 = lemma_slice_right(items, a, b, lo, hi, key);
        let l = child_proof(*left, items_left(sub, key));
        let r = child_proof(*right, items_right(sub, key));
        lemma_edges(items, *left, a, x1, lo, Some(key));
        lemma_edges(items, *right, x2, b, Some(key), hi);
        let node = shown_root(sub, key, value, l, r);
        let (pl, pr) = (shown_child(*left, items_left(sub, key)), shown_child(*right, items_right(sub, key)));
        let p = shown_tree(t, sub);
        assert(rows + more =~= rows + el + mid + er);
        lemma_ascending_parts(rows + el + mid, er);
        lemma_ascending_parts(rows + el, mid);
        if el.len() > 0 {
            assert(more[0] == el[0]);
        }
        // What is left of the root.
        lemma_accept_child(items, *left, a, x1, Some(key), c, rows);
        let c1 = folded(rule, c, pl.walk())->Ok_0;
        let rows1 = rows + el;
        assert(last_key(rows1, None) == last_key(el, lo)) by {
            if el.len() > 0 {
                assert(rows1.last() == el.last());
            } else {
                assert(rows1 =~= rows);
            }
        }
        assert(touches(items, last_key(rows1, None), Some(key)) ==> c1.last_shown != Some(false));
        assert(after(last_key(rows1, None), key)) by {
            if el.len() > 0 {
                assert(more[n - 1] == el[n - 1]);
                assert(key_lt(more[n - 1].0, more[n].0));
            }
        }
        // The root.
        let c2 = Checking { last_shown: Some(node is KV), ..(if node is KV {
            check_entry(items, c1, key, value)->Ok_0
        } else {
            c1
        }) };
        let rows2 = rows + el + mid;
        assert(rows1.push((key, value)) =~= rows2);
        assert(check_node(items, c1, node) == Ok::<Checking, Fault>(c2) && exact(items, c2, rows2) && on_track(
            items,
            c2,
            rows2,
        )) by {
            if node is KV {
                if c1.in_range {
                    lemma_key_lt_total(rows1.last().0, items[c1.done as int].lower());
                }
                lemma_show_entry(items, c1, rows1, key, value);
                lemma_shown_entry(items, c1, rows1, key, value);
            } else {
                lemma_not_met(items, a, b, lo, hi, key);
                lemma_hide_entry(items, c1, rows1, key, value);
                lemma_hidden(items, c1, rows1, mid);
            }
        }
        assert(last_key(rows2, None) == Some(key)) by {
            assert(rows2.last() == (key, value));
        }
        // What is right of the root.
        lemma_accept_child(items, *right, x2, b, hi, c2, rows2);
        let c3 = folded(rule, c2, pr.walk())->Ok_0;
        lemma_folded_add(rule, c, pl.walk() + seq![node], pr.walk());
        lemma_folded_add(rule, c, pl.walk(), seq![node]);
        assert(seq![node].drop_last() =~= Seq::empty());
        reveal_with_fuel(folded, 2);
        assert(folded(rule, c1, seq![node]) == Ok::<Checking, Fault>(c2));
        assert(folded(rule, c, p.walk()) == Ok::<Checking, Fault>(c3));
        if touches(items, last_key(more, None), hi) {
            if er.len() > 0 {
                assert(more.last() == er.last());
            } else {
                assert(more.last() == (key, value));
            }
        }
    }
}

/// The steps of a proof that was made for a query show the tree, and the check
/// of the query accepts them.
proof fn lemma_proof_accepted(t: Bst, items: Seq<QueryPart>) -> (c: Checking)
    requires
        t is Node,
        apart(items),
        t.fits(),
        ascending(t.entries()),
    ensures
        built(check_rule(items), encoded_steps(proof_of(t, items).ops), checking_start()) == Ok::<(Partial, Checking), Fault>(
            (shown_tree(t, items), c),
        ),
        c.done < items.len() ==> c.last_shown == Some(true),
        c.rows == hits(t.entries(), items),
{
    let rule = check_rule(items);
    let none = Seq::<(Seq<u8>, Seq<u8>)>::empty();
    let start = checking_start();
    let n = items.len() as int;
    let rows = t.entries();
    assert(items.subrange(0, n) =~= items);
    assert(none + rows =~= rows);
    assert(on_track(items, start, none));
    lemma_accept_tree(items, t, 0, n, None, start, none);
    let p = shown_tree(t, items);
    let c = folded(rule, start, p.walk())->Ok_0;
    assert(rows.len() > 0) by {
        if let Bst::Node { key, value, left, right } = t {
            assert(rows[left.entries().len() as int] == (key, value));
        }
    }
    if c.done < items.len() {
        assert(concerns(items[c.done as int], last_key(rows, None), None));
        assert(touches(items, last_key(rows, None), None));
    }
    lemma_check_end(items, c, rows);
    lemma_run_tree(rule, t, items, machine_start(), start);
    lemma_proofs_fit(t, items);
    let ops = proof_of(t, items).ops;
    lemma_executed_steps(rule, ops, Seq::empty(), machine_start(), start);
    assert(encoded_steps(ops) + Seq::<u8>::empty() =~= encoded_steps(ops));
    c
}

/// A proof that was made for a query of a tree, checked against the hash of the
/// tree, gives the entries of the tree that the query asks for, in order.
pub proof fn law_proof_checks(r: Result<Vec<(Vec<u8>, Vec<u8>)>, Error>, t: Bst, items: Seq<QueryPart>)
    requires
        t is Node,
        t.fits(),
        ascending(t.entries()),
        apart(items),
        query_checked(r, encoded_steps(proof_of(t, items).ops), items, t.hash()),
    ensures
        r is Ok,
        rows_view(r->Ok_0@) == hits(t.entries(), items),
{
    let c = lemma_proof_accepted(t, items);
    lemma_shown_is_part(t, items);
    lemma_part_hash(shown_tree(t, items), t);
}

/// A proof that was made for a query of a tree, checked against the hash of the
/// tree, gives an entry just if it is one of the tree and an item covers its key.
pub proof fn law_proof_tells_what_is_asked_for(r: Result<Vec<(Vec<u8>, Vec<u8>)>, Error>, t: Bst, items: Seq<QueryPart>)
    requires
        t is Node,
        t.fits(),
        ascending(t.entries()),
        apart(items),
        query_checked(r, encoded_steps(proof_of(t, items).ops), items, t.hash()),
    ensures
        r matches Ok(rows) && ascending(rows_view(rows@)) && forall|k: Seq<u8>, v: Seq<u8>| #[trigger]
            holds(rows_view(rows@), k, v) <==> holds(t.entries(), k, v) && any_covers(items, k),
{
    law_proof_checks(r, t, items);
    law_hits_are_what_is_asked_for(t.entries(), items);
}

/// Whether a key is among what was gathered; with `flag`, as one next to the
/// entry before it.
pub open spec fn shown_at(g: Gathered, key: Seq<u8>, flag: bool) -> bool {
    exists|i: int| 0 <= i < g.rows.len() && (#[trigger] g.rows[i]).0 == key && (flag ==> g.rows[i].2)
}

/// The key before that of a row, if there is one.
pub open spec fn prev_key(rows: Seq<(Seq<u8>, Seq<u8>)>, j: int) -> Option<Seq<u8>> {
    if j > 0 {
        Some(rows[j - 1].0)
    } else {
        None
    }
}

/// Whether enough was gathered of the rows so far: what is asked for is there,
/// and so is a row before which something may be asked for, next to the one
/// before it.
pub open spec fn kept(items: Seq<QueryPart>, g: Gathered, rows: Seq<(Seq<u8>, Seq<u8>)>) -> bool {
    &&& g.rows.len() > 0 ==> rows.len() > 0 && !key_lt(rows.last().0, g.rows.last().0)
    &&& forall|j: int|
        0 <= j < rows.len() && touches(items, prev_key(rows, j), Some((#[trigger] rows[j]).0)) ==> shown_at(
            g,
            rows[j].0,
            true,
        )
    &&& forall|j: int| 0 <= j < rows.len() && any_covers(items, (#[trigger] rows[j]).0) ==> shown_at(g, rows[j].0, false)
}

/// A row that is shown.
proof fn lemma_keep_entry(items: Seq<QueryPart>, g: Gathered, rows: Seq<(Seq<u8>, Seq<u8>)>, x: Seq<u8>, v: Seq<u8>)
    requires
        kept(items, g, rows),
        after(last_key(rows, None), x),
        touches(items, last_key(rows, None), Some(x)) ==> g.right_edge,
    ensures
        gather(g, Shown::KV(x, v)) matches Ok(g2) && g2.right_edge && kept(items, g2, rows.push((x, v))),
{
    if g.rows.len() > 0 {
        lemma_key_lt_total(rows.last().0, g.rows.last().0);
        lemma_le_trans(g.rows.last().0, rows.last().0, x);
    }
    let g2 = gather(g, Shown::KV(x, v))->Ok_0;
    let all = rows.push((x, v));
    let n = g.rows.len() as int;
    lemma_key_lt_total(x, x);
    assert(g2.rows[n] == (x, v, g.right_edge));
    assert forall|k: Seq<u8>, flag: bool| #[trigger] shown_at(g, k, flag) implies shown_at(g2, k, flag) by {
        let i = choose|i: int| 0 <= i < g.rows.len() && (#[trigger] g.rows[i]).0 == k && (flag ==> g.rows[i].2);
        assert(g2.rows[i] == g.rows[i]);
    }
    assert forall|j: int| 0 <= j < all.len() && touches(items, prev_key(all, j), Some((#[trigger] all[j]).0)) implies shown_at(
        g2,
        all[j].0,
        true,
    ) by {
        if j < rows.len() {
            assert(all[j] == rows[j]);
            assert(prev_key(all, j) == prev_key(rows, j));
        } else {
            assert(prev_key(all, j) == last_key(rows, None));
            assert(g2.rows[n].0 == x);
        }
    }
    assert forall|j: int| 0 <= j < all.len() && any_covers(items, (#[trigger] all[j]).0) implies shown_at(
        g2,
        all[j].0,
        false,
    ) by {
        if j < rows.len() {
            assert(all[j] == rows[j]);
        } else {
            assert(g2.rows[n].0 == x);
        }
    }
}

/// Rows that are hidden.
proof fn lemma_keep_hidden(
    items: Seq<QueryPart>,
    g: Gathered,
    rows: Seq<(Seq<u8>, Seq<u8>)>,
    more: Seq<(Seq<u8>, Seq<u8>)>,
)
    requires
        kept(items, g, rows),
        ascending(rows + more),
        forall|j: int| rows.len() <= j < rows.len() + more.len() ==> !touches(
            items,
            prev_key(rows + more, j),
            Some((#[trigger] (rows + more)[j]).0),
        ) && !any_covers(items, (rows + more)[j].0),
    ensures
        kept(items, Gathered { rows: g.rows, right_edge: false }, rows + more),
{
    let all = rows + more;
    let g2 = Gathered { rows: g.rows, right_edge: false };
    assert forall|k: Seq<u8>, flag: bool| #[trigger] shown_at(g, k, flag) implies shown_at(g2, k, flag) by {
        let i = choose|i: int| 0 <= i < g.rows.len() && (#[trigger] g.rows[i]).0 == k && (flag ==> g.rows[i].2);
        assert(g2.rows[i] == g.rows[i]);
    }
    if g.rows.len() > 0 && more.len() > 0 {
        assert(all[rows.len() - 1] == rows.last());
        assert(all.last() == all[all.len() - 1]);
        assert(key_lt(all[rows.len() - 1].0, all[all.len() - 1].0));
        lemma_key_lt_total(rows.last().0, g.rows.last().0);
        lemma_le_trans(g.rows.last().0, rows.last().0, all.last().0);
        lemma_key_lt_total(all.last().0, g.rows.last().0);
    } else if more.len() == 0 {
        assert(all =~= rows);
    }
    assert forall|j: int| 0 <= j < all.len() && touches(items, prev_key(all, j), Some((#[trigger] all[j]).0)) implies shown_at(
        g2,
        all[j].0,
        true,
    ) by {
        if j < rows.len() {
            assert(all[j] == rows[j]);
            assert(prev_key(all, j) == prev_key(rows, j));
        }
    }
    assert forall|j: int| 0 <= j < all.len() && any_covers(items, (#[trigger] all[j]).0) implies shown_at(
        g2,
        all[j].0,
        false,
    ) by {
        if j < rows.len() {
            assert(all[j] == rows[j]);
        }
    }
}

/// Rows of a subtree of which nothing is asked for may be hidden.
proof fn lemma_keep_subtree(
    items: Seq<QueryPart>,
    g: Gathered,
    rows: Seq<(Seq<u8>, Seq<u8>)>,
    more: Seq<(Seq<u8>, Seq<u8>)>,
    hi: Option<Seq<u8>>,
)
    requires
        apart(items),
        kept(items, g, rows),
        ascending(rows + more),
        within(more, last_key(rows, None), hi),
        !touches(items, last_key(rows, None), hi),
    ensures
        kept(items, Gathered { rows: g.rows, right_edge: false }, rows + more),
{
    let all = rows + more;
    let lo = last_key(rows, None);
    let n = rows.len() as int;
    assert forall|j: int| rows.len() <= j < rows.len() + more.len() implies !touches(
        items,
        prev_key(all, j),
        Some((#[trigger] all[j]).0),
    ) && !any_covers(items, all[j].0) by {
        assert(all[j] == more[j - n]);
        let x = all[j].0;
        assert(after(lo, more[j - n].0) && before(more[j - n].0, hi));
        if touches(items, prev_key(all, j), Some(x)) {
            if j > n {
                assert(all[j - 1] == more[j - 1 - n]);
                assert(after(lo, more[j - 1 - n].0));
            } else if n > 0 {
                assert(all[n - 1] == rows.last());
            }
            lemma_touches_wider(items, lo, hi, prev_key(all, j), Some(x));
        }
        if any_covers(items, x) {
            let i = choose|i: int| 0 <= i < items.len() && (#[trigger] items[i]).covers(x);
            lemma_covered_concerns(items[i], lo, hi, x);
            assert(touches(items, lo, hi));
        }
    }
    lemma_keep_hidden(items, g, rows, more);
}

/// An item that asks for a key between two bounds may ask for one.
proof fn lemma_covered_concerns(item: QueryPart, lo: Option<Seq<u8>>, hi: Option<Seq<u8>>, x: Seq<u8>)
    requires
        item.covers(x),
        after(lo, x),
        before(x, hi),
    ensures
        concerns(item, lo, hi),
{
    lemma_key_lt_total(x, item.upper());
    lemma_key_lt_total(x, item.lower());
    if let Some(l) = lo {
        lemma_le_trans(l, x, item.upper());
    }
    if let Some(h) = hi {
        lemma_le_trans(item.lower(), x, h);
    }
}

/// Whether enough is gathered of what is shown after the rows so far, and ends
/// with an entry if something may be asked for behind it.
spec fn gathers(
    items: Seq<QueryPart>,
    g: Gathered,
    rows: Seq<(Seq<u8>, Seq<u8>)>,
    p: Partial,
    more: Seq<(Seq<u8>, Seq<u8>)>,
    hi: Option<Seq<u8>>,
) -> bool {
    folded(gather_rule(), g, p.walk()) matches Ok(g2) && kept(items, g2, rows + more) && (more.len() > 0 && touches(
        items,
        last_key(more, None),
        hi,
    ) ==> g2.right_edge) && (more.len() == 0 ==> g2 == g)
}

/// Enough is gathered of what a proof shows of a subtree.
proof fn lemma_gather_child(
    items: Seq<QueryPart>,
    t: Bst,
    a: int,
    b: int,
    hi: Option<Seq<u8>>,
    g: Gathered,
    rows: Seq<(Seq<u8>, Seq<u8>)>,
)
    requires
        apart(items),
        slice_of(items, a, b, last_key(rows, None), hi),
        ascending(rows + t.entries()),
        ascending(t.entries()),
        within(t.entries(), last_key(rows, None), hi),
        kept(items, g, rows),
        touches(items, last_key(rows, None), first_key(t.entries(), hi)) ==> g.right_edge,
    ensures
        gathers(items, g, rows, shown_child(t, items.subrange(a, b)), t.entries(), hi),
    decreases t, 1int,
{
    let sub = items.subrange(a, b);
    let lo = last_key(rows, None);
    let p = shown_child(t, sub);
    if t is Empty {
        assert(rows + t.entries() =~= rows);
        assert(p.walk() =~= Seq::empty());
    } else if sub.len() > 0 {
        lemma_gather_tree(items, t, a, b, hi, g, rows);
    } else {
        let more = t.entries();
        assert(more.len() > 0) by {
            if let Bst::Node { key, value, left, right } = t {
                assert(more[left.entries().len() as int] == (key, value));
            }
        }
        lemma_touches_none(items, a, b, lo, hi);
        lemma_keep_subtree(items, g, rows, more, hi);
        let node = Shown::NodeHash(t.hash());
        assert(p.walk() =~= seq![node]) by {
            reveal_with_fuel(Partial::walk, 2);
        }
        assert(seq![node].drop_last() =~= Seq::empty());
        reveal_with_fuel(folded, 2);
        if touches(items, last_key(more, None), hi) {
            assert(after(lo, more[more.len() - 1].0));
            lemma_touches_wider(items, lo, hi, last_key(more, None), hi);
        }
    }
}

/// Enough is gathered of what a proof shows of a tree.
#[verifier::spinoff_prover]
#[verifier::rlimit(40)]
proof fn lemma_gather_tree(
    items: Seq<QueryPart>,
    t: Bst,
    a: int,
    b: int,
    hi: Option<Seq<u8>>,
    g: Gathered,
    rows: Seq<(Seq<u8>, Seq<u8>)>,
)
    requires
        t is Node,
        apart(items),
        slice_of(items, a, b, last_key(rows, None), hi),
        ascending(rows + t.entries()),
        ascending(t.entries()),
        within(t.entries(), last_key(rows, None), hi),
        kept(items, g, rows),
        touches(items, last_key(rows, None), first_key(t.entries(), hi)) ==> g.right_edge,
    ensures
        gathers(items, g, rows, shown_tree(t, items.subrange(a, b)), t.entries(), hi),
    decreases t, 0int,
{
    if let Bst::Node { key, value, left, right } = t {
        let rule = gather_rule();
        let sub = items.subrange(a, b);
        let lo = last_key(rows, None);
        let more = t.entries();
        let (el, er) = (left.entries(), right.entries());
        let mid = seq![(key, value)];
        let n = el.len() as int;
        assert(more[n] == (key, value));
        assert(after(lo, key) && before(key, hi));
        lemma_split_ascending(el, mid, er);
        lemma_within_left(t, lo, hi);
        let x1 = lemma_slice_left(items, a, b, lo, hi, key);
        let x2 = lemma_slice_right(items, a, b, lo, hi, key);
        let l = child_proof(*left, items_left(sub, key));
        let r = child_proof(*right, items_right(sub, key));
        lemma_edges(items, *left, a, x1, lo, Some(key));
        lemma_edges(items, *right, x2, b, Some(key), hi);
        let node = shown_root(sub, key, value, l, r);
        let (pl, pr) = (shown_child(*left, items_left(sub, key)), shown_child(*right, items_right(sub, key)));
        let p = shown_tree(t, sub);
        assert(rows + more =~= rows + el + mid + er);
        lemma_ascending_parts(rows + el + mid, er);
        lemma_ascending_parts(rows + el, mid);
        if el.len() > 0 {
            assert(more[0] == el[0]);
        }
        // What is left of the root.
        lemma_gather_child(items, *left, a, x1, Some(key), g, rows);
        let g1 = folded(rule, g, pl.walk())->Ok_0;
        let rows1 = rows + el;
        assert(last_key(rows1, None) == last_key(el, lo)) by {
            if el.len() > 0 {
                assert(rows1.last() == el.last());
            } else {
                assert(rows1 =~= rows);
            }
        }
        assert(after(last_key(rows1, None), key)) by {
            if el.len() > 0 {
                assert(more[n - 1] == el[n - 1]);
                assert(key_lt(more[n - 1].0, more[n].0));
            }
        }
        // The root.
        let rows2 = rows + el + mid;
        assert(rows1.push((key, value)) =~= rows2);
        assert(gather(g1, node) matches Ok(g2) && kept(items, g2, rows2) && g2.right_edge == (node is KV)) by {
            if node is KV {
                lemma_keep_entry(items, g1, rows1, key, value);
            } else {
                lemma_not_met(items, a, b, lo, hi, key);
                assert(rows1 + mid =~= rows2);
                assert forall|j: int| rows1.len() <= j < rows1.len() + mid.len() implies !touches(
                    items,
                    prev_key(rows1 + mid, j),
                    Some((#[trigger] (rows1 + mid)[j]).0),
                ) && !any_covers(items, (rows1 + mid)[j].0) by {
                    assert((rows1 + mid)[j] == (key, value));
                    assert(prev_key(rows1 + mid, j) == last_key(rows1, None));
                }
                lemma_keep_hidden(items, g1, rows1, mid);
            }
        }
        let g2 = gather(g1, node)->Ok_0;
        assert(last_key(rows2, None) == Some(key)) by {
            assert(rows2.last() == (key, value));
        }
        // What is right of the root.
        lemma_gather_child(items, *right, x2, b, hi, g2, rows2);
        let g3 = folded(rule, g2, pr.walk())->Ok_0;
        lemma_folded_add(rule, g, pl.walk() + seq![node], pr.walk());
        lemma_folded_add(rule, g, pl.walk(), seq![node]);
        assert(seq![node].drop_last() =~= Seq::empty());
        reveal_with_fuel(folded, 2);
        assert(folded(rule, g1, seq![node]) == Ok::<Gathered, Fault>(g2));
        assert(folded(rule, g, p.walk()) == Ok::<Gathered, Fault>(g3));
        if touches(items, last_key(more, None), hi) {
            if er.len() > 0 {
                assert(more.last() == er.last());
            } else {
                assert(more.last() == (key, value));
            }
        }
    }
}

/// What is gathered from a proof that was made for a query: enough of the tree,
/// and nothing that is not true of it.
proof fn lemma_proof_gathered(t: Bst, items: Seq<QueryPart>) -> (g: Gathered)
    requires
        t is Node,
        apart(items),
        t.fits(),
        ascending(t.entries()),
    ensures
        built(gather_rule(), encoded_steps(proof_of(t, items).ops), gathered_start()) == Ok::<(Partial, Gathered), Fault>(
            (shown_tree(t, items), g),
        ),
        shown_tree(t, items).hash() == t.hash(),
        kept(items, g, t.entries()),
        gathered_from(g, t.entries()),
        touches(items, last_key(t.entries(), None), None) ==> g.right_edge,
{
    let rule = gather_rule();
    let none = Seq::<(Seq<u8>, Seq<u8>)>::empty();
    let start = gathered_start();
    let n = items.len() as int;
    let rows = t.entries();
    assert(items.subrange(0, n) =~= items);
    assert(none + rows =~= rows);
    lemma_gather_tree(items, t, 0, n, None, start, none);
    let p = shown_tree(t, items);
    let g = folded(rule, start, p.walk())->Ok_0;
    assert(rows.len() > 0) by {
        if let Bst::Node { key, value, left, right } = t {
            assert(rows[left.entries().len() as int] == (key, value));
        }
    }
    lemma_run_tree(rule, t, items, machine_start(), start);
    lemma_proofs_fit(t, items);
    let ops = proof_of(t, items).ops;
    lemma_executed_steps(rule, ops, Seq::empty(), machine_start(), start);
    assert(encoded_steps(ops) + Seq::<u8>::empty() =~= encoded_steps(ops));
    lemma_shown_is_part(t, items);
    lemma_part_hash(p, t);
    lemma_gather_part(p, t, start, none);
    g
}

/// The first row from `i` on whose key does not come before `key`.
proof fn lemma_first_row(rows: Seq<(Seq<u8>, Seq<u8>)>, key: Seq<u8>, i: int) -> (j: int)
    requires
        0 <= i <= rows.len(),
        forall|m: int| 0 <= m < i ==> key_lt((#[trigger] rows[m]).0, key),
    ensures
        i <= j <= rows.len(),
        forall|m: int| 0 <= m < j ==> key_lt((#[trigger] rows[m]).0, key),
        j < rows.len() ==> !key_lt(rows[j].0, key),
    decreases rows.len() - i,
{
    if i < rows.len() && key_lt(rows[i].0, key) {
        lemma_first_row(rows, key, i + 1)
    } else {
        i
    }
}

/// A row that was gathered is at the place behind all that come before it.
proof fn lemma_at_place(g: Gathered, x: Seq<u8>, i: int, flag: bool)
    requires
        shown_at(g, x, flag),
        0 <= i <= g.rows.len(),
        forall|m: int, n: int| 0 <= m < n < g.rows.len() ==> key_lt((#[trigger] g.rows[m]).0, (#[trigger] g.rows[n]).0),
        forall|m: int| 0 <= m < i ==> key_lt((#[trigger] g.rows[m]).0, x),
        i < g.rows.len() ==> !key_lt(g.rows[i].0, x),
    ensures
        i < g.rows.len(),
        g.rows[i].0 == x,
        flag ==> g.rows[i].2,
{
    let n = choose|n: int| 0 <= n < g.rows.len() && (#[trigger] g.rows[n]).0 == x && (flag ==> g.rows[n].2);
    lemma_key_lt_total(x, x);
    if n > i {
        assert(key_lt(g.rows[i].0, g.rows[n].0));
    }
}

/// Enough is known of an item of the query, from a place on.
#[verifier::spinoff_prover]
#[verifier::rlimit(40)]
proof fn lemma_item_known(items: Seq<QueryPart>, g: Gathered, rows: Seq<(Seq<u8>, Seq<u8>)>, q: int, i: int, first: bool)
    requires
        apart(items),
        0 <= q < items.len(),
        kept(items, g, rows),
        gathered_from(g, rows),
        ascending(rows),
        touches(items, last_key(rows, None), None) ==> g.right_edge,
        0 <= i <= g.rows.len(),
        first ==> forall|m: int| 0 <= m < i ==> key_lt((#[trigger] g.rows[m]).0, items[q].lower()),
        first && i < g.rows.len() ==> !key_lt(g.rows[i].0, items[q].lower()),
        !first ==> i > 0 && items[q].covers(g.rows[i - 1].0) && g.rows[i - 1].0 != items[q].upper(),
    ensures
        known_rows(g, items[q], i, first) is Ok,
    decreases g.rows.len() - i,
{
    let item = items[q];
    assert(item.proper());
    let j: int = if first {
        lemma_first_row(rows, item.lower(), 0)
    } else {
        let (k, v) = (g.rows[i - 1].0, g.rows[i - 1].1);
        assert(holds(rows, k, v));
        1 + choose|m: int| 0 <= m < rows.len() && #[trigger] rows[m] == (k, v)
    };
    let prev = prev_key(rows, j);
    // No row at the place or behind it comes before the row `j`.
    assert(i < g.rows.len() ==> exists|m: int| j <= m < rows.len() && #[trigger] rows[m].0 == g.rows[i].0) by {
        if i < g.rows.len() {
            let (k, v) = (g.rows[i].0, g.rows[i].1);
            assert(holds(rows, k, v));
            let m = choose|m: int| 0 <= m < rows.len() && #[trigger] rows[m] == (k, v);
            lemma_key_lt_total(k, k);
            if m < j {
                if first {
                    assert(key_lt(rows[m].0, item.lower()));
                } else {
                    assert(key_lt(g.rows[i - 1].0, g.rows[i].0));
                    lemma_key_lt_total(rows[m].0, rows[j - 1].0);
                    if m < j - 1 {
                        assert(key_lt(rows[m].0, rows[j - 1].0));
                    }
                }
            }
            assert(rows[m].0 == g.rows[i].0);
        }
    }
    assert(after(prev, item.upper())) by {
        if j > 0 {
            assert(rows[j - 1] == rows[j - 1]);
            lemma_le_trans(rows[j - 1].0, item.lower(), item.upper());
        }
    }
    if j < rows.len() {
        let x = rows[j].0;
        lemma_key_lt_total(item.lower(), x);
        if !first {
            assert(key_lt(rows[j - 1].0, rows[j].0));
            lemma_key_lt_total(item.lower(), rows[j - 1].0);
            lemma_le_trans(item.lower(), rows[j - 1].0, x);
        }
        let flag = key_lt(item.lower(), x);
        if flag {
            assert(concerns(items[q], prev, Some(x)));
            assert(touches(items, prev, Some(rows[j].0)));
        } else {
            assert(items[q].covers(x));
            assert(any_covers(items, rows[j].0));
        }
        assert(shown_at(g, x, flag));
        assert forall|m: int| 0 <= m < i implies key_lt((#[trigger] g.rows[m]).0, x) by {
            if first {
                lemma_le_trans(g.rows[m].0, item.lower(), x);
            } else {
                if m < i - 1 {
                    assert(key_lt(g.rows[m].0, g.rows[i - 1].0));
                }
                lemma_le_trans(g.rows[m].0, g.rows[i - 1].0, x);
            }
        }
        if i < g.rows.len() {
            let m = choose|m: int| j <= m < rows.len() && #[trigger] rows[m].0 == g.rows[i].0;
            lemma_key_lt_total(x, rows[m].0);
            if m > j {
                assert(key_lt(rows[j].0, rows[m].0));
            }
        }
        lemma_at_place(g, x, i, flag);
        if item.covers(x) && x != item.upper() {
            lemma_item_known(items, g, rows, q, i + 1, false);
        }
    } else {
        assert(prev == last_key(rows, None));
        assert(concerns(items[q], last_key(rows, None), None));
    }
}

/// Enough is known of a key that the query asks for.
#[verifier::spinoff_prover]
#[verifier::rlimit(40)]
proof fn lemma_key_known(items: Seq<QueryPart>, g: Gathered, rows: Seq<(Seq<u8>, Seq<u8>)>, key: Seq<u8>)
    requires
        apart(items),
        any_covers(items, key),
        kept(items, g, rows),
        gathered_from(g, rows),
        ascending(rows),
        touches(items, last_key(rows, None), None) ==> g.right_edge,
    ensures
        known_value(g, key) == Ok::<Option<Seq<u8>>, Fault>(value_in(rows, key)),
{
    let q = choose|q: int| 0 <= q < items.len() && (#[trigger] items[q]).covers(key);
    let i = place_from(g, key, 0);
    let j = lemma_first_row(rows, key, 0);
    let prev = prev_key(rows, j);
    lemma_place_from(g, key, 0);
    lemma_key_lt_total(key, key);
    if i < g.rows.len() {
        let (k, v) = (g.rows[i].0, g.rows[i].1);
        assert(holds(rows, k, v));
        let m = choose|m: int| 0 <= m < rows.len() && #[trigger] rows[m] == (k, v);
        if m < j {
            assert(key_lt(rows[m].0, key));
        }
        lemma_key_lt_total(rows[j].0, k);
        if m > j {
            assert(key_lt(rows[j].0, rows[m].0));
        }
    }
    if j < rows.len() {
        let x = rows[j].0;
        lemma_key_lt_total(key, x);
        let flag = x != key;
        if flag {
            lemma_covered_concerns(items[q], prev, Some(x), key);
            assert(touches(items, prev, Some(rows[j].0)));
        } else {
            assert(any_covers(items, rows[j].0));
        }
        assert(shown_at(g, x, flag));
        assert forall|m: int| 0 <= m < i implies key_lt((#[trigger] g.rows[m]).0, x) by {
            lemma_le_trans(g.rows[m].0, key, x);
        }
        lemma_at_place(g, x, i, flag);
        if !flag {
            let v = g.rows[i].1;
            assert(holds(rows, key, v));
            lemma_same_value(rows, key, v, choose|value: Seq<u8>| holds(rows, key, value));
        }
    } else {
        lemma_covered_concerns(items[q], prev, None, key);
        assert(prev == last_key(rows, None));
        assert(touches(items, last_key(rows, None), None));
    }
    if !(j < rows.len() && rows[j].0 == key) {
        assert forall|v: Seq<u8>| holds(rows, key, v) implies false by {
            let m = choose|m: int| 0 <= m < rows.len() && #[trigger] rows[m] == (key, v);
            if m > j {
                assert(key_lt(rows[j].0, rows[m].0));
            }
        }
    }
}

/// The key before that of a row, or a bound if there is none.
pub open spec fn left_key(rows: Seq<(Seq<u8>, Seq<u8>)>, lo: Option<Seq<u8>>, j: int) -> Option<Seq<u8>> {
    if j > 0 {
        Some(rows[j - 1].0)
    } else {
        lo
    }
}

/// The key behind that of a row, or a bound if there is none.
pub open spec fn right_key(rows: Seq<(Seq<u8>, Seq<u8>)>, hi: Option<Seq<u8>>, j: int) -> Option<Seq<u8>> {
    if j + 1 < rows.len() {
        Some(rows[j + 1].0)
    } else {
        hi
    }
}

/// Whether a row of those between two bounds has to be shown: it is asked for, or a
/// key next to it may be.
pub open spec fn wanted(
    items: Seq<QueryPart>,
    rows: Seq<(Seq<u8>, Seq<u8>)>,
    lo: Option<Seq<u8>>,
    hi: Option<Seq<u8>>,
    j: int,
) -> bool {
    ||| any_covers(items, rows[j].0)
    ||| touches(items, left_key(rows, lo, j), Some(rows[j].0))
    ||| touches(items, Some(rows[j].0), right_key(rows, hi, j))
}

/// Whether an entry is among the rows that have to be shown.
pub open spec fn wanted_entry(
    items: Seq<QueryPart>,
    rows: Seq<(Seq<u8>, Seq<u8>)>,
    lo: Option<Seq<u8>>,
    hi: Option<Seq<u8>>,
    entry: (Seq<u8>, Seq<u8>),
) -> bool {
    exists|j: int| 0 <= j < rows.len() && #[trigger] rows[j] == entry && wanted(items, rows, lo, hi, j)
}

/// Nothing has to be shown of rows of which nothing is asked for.
proof fn lemma_unwanted(
    items: Seq<QueryPart>,
    rows: Seq<(Seq<u8>, Seq<u8>)>,
    lo: Option<Seq<u8>>,
    hi: Option<Seq<u8>>,
    j: int,
)
    requires
        0 <= j < rows.len(),
        within(rows, lo, hi),
        !touches(items, lo, hi),
    ensures
        !wanted(items, rows, lo, hi, j),
{
    let x = rows[j].0;
    assert(after(lo, rows[j].0) && before(rows[j].0, hi));
    if j > 0 {
        assert(after(lo, rows[j - 1].0));
    }
    if j + 1 < rows.len() {
        assert(before(rows[j + 1].0, hi));
    }
    if any_covers(items, x) {
        let i = choose|i: int| 0 <= i < items.len() && (#[trigger] items[i]).covers(x);
        lemma_covered_concerns(items[i], lo, hi, x);
    } else if touches(items, left_key(rows, lo, j), Some(x)) {
        lemma_touches_wider(items, lo, hi, left_key(rows, lo, j), Some(x));
    } else if touches(items, Some(x), right_key(rows, hi, j)) {
        lemma_touches_wider(items, lo, hi, Some(x), right_key(rows, hi, j));
    }
}

/// What is shown of a node and its children.
proof fn lemma_around_shows(left: Seq<Step>, node: Shown, right: Seq<Step>, shown: Shown)
    ensures
        around(left, node, right).contains(Step::Push(shown)) <==> left.contains(Step::Push(shown)) || node == shown
            || right.contains(Step::Push(shown)),
{
    let x = Step::Push(shown);
    let all = around(left, node, right);
    let n = left.len() as int;
    assert(all[n] == Step::Push(node));
    assert forall|i: int| 0 <= i < n implies #[trigger] left[i] == all[i] by {}
    let m: int = if left.len() > 0 {
        n + 2
    } else {
        n + 1
    };
    assert forall|i: int| 0 <= i < right.len() implies #[trigger] right[i] == all[m + i] by {}
    if left.contains(x) {
        let i = choose|i: int| 0 <= i < left.len() && left[i] == x;
        assert(all[i] == x);
    }
    if right.contains(x) {
        let i = choose|i: int| 0 <= i < right.len() && right[i] == x;
        assert(all[m + i] == x);
    }
    if all.contains(x) {
        let i = choose|i: int| 0 <= i < all.len() && all[i] == x;
        if i < n {
            assert(left[i] == x);
        } else if i >= m && i < m + right.len() {
            assert(right[i - m] == x);
        }
    }
}

/// The entries that a proof shows of a subtree.
proof fn lemma_child_shows(
    items: Seq<QueryPart>,
    t: Bst,
    a: int,
    b: int,
    lo: Option<Seq<u8>>,
    hi: Option<Seq<u8>>,
    entry: (Seq<u8>, Seq<u8>),
)
    requires
        apart(items),
        slice_of(items, a, b, lo, hi),
        ascending(t.entries()),
        within(t.entries(), lo, hi),
    ensures
        child_proof(t, items.subrange(a, b)).ops.contains(Step::Push(Shown::KV(entry.0, entry.1))) <==> wanted_entry(
            items,
            t.entries(),
            lo,
            hi,
            entry,
        ),
    decreases t, 1int,
{
    if t is Node && a < b {
        lemma_tree_shows(items, t, a, b, lo, hi, entry);
    } else if t is Node {
        lemma_touches_none(items, a, b, lo, hi);
        if wanted_entry(items, t.entries(), lo, hi, entry) {
            let j = choose|j: int|
                0 <= j < t.entries().len() && #[trigger] t.entries()[j] == entry && wanted(items, t.entries(), lo, hi, j);
            lemma_unwanted(items, t.entries(), lo, hi, j);
        }
    }
}

/// The entries that a proof shows of a tree.
#[verifier::spinoff_prover]
#[verifier::rlimit(40)]
proof fn lemma_tree_shows(
    items: Seq<QueryPart>,
    t: Bst,
    a: int,
    b: int,
    lo: Option<Seq<u8>>,
    hi: Option<Seq<u8>>,
    entry: (Seq<u8>, Seq<u8>),
)
    requires
        t is Node,
        apart(items),
        slice_of(items, a, b, lo, hi),
        ascending(t.entries()),
        within(t.entries(), lo, hi),
    ensures
        proof_of(t, items.subrange(a, b)).ops.contains(Step::Push(Shown::KV(entry.0, entry.1))) <==> wanted_entry(
            items,
            t.entries(),
            lo,
            hi,
            entry,
        ),
    decreases t, 0int,
{
    if let Bst::Node { key, value, left, right } = t {
        let sub = items.subrange(a, b);
        let rows = t.entries();
        let (el, er) = (left.entries(), right.entries());
        let n = el.len() as int;
        assert(rows[n] == (key, value));
        assert(after(lo, rows[n].0) && before(rows[n].0, hi));
        lemma_split_ascending(el, seq![(key, value)], er);
        lemma_within_left(t, lo, hi);
        let x1 = lemma_slice_left(items, a, b, lo, hi, key);
        let x2 = lemma_slice_right(items, a, b, lo, hi, key);
        let l = child_proof(*left, items_left(sub, key));
        let r = child_proof(*right, items_right(sub, key));
        lemma_edges(items, *left, a, x1, lo, Some(key));
        lemma_edges(items, *right, x2, b, Some(key), hi);
        let node = shown_root(sub, key, value, l, r);
        lemma_child_shows(items, *left, a, x1, lo, Some(key), entry);
        lemma_child_shows(items, *right, x2, b, Some(key), hi, entry);
        lemma_around_shows(l.ops, node, r.ops, Shown::KV(entry.0, entry.1));
        assert forall|j: int| 0 <= j < n implies (#[trigger] el[j]) == rows[j] && wanted(items, el, lo, Some(key), j)
            == wanted(items, rows, lo, hi, j) by {
            assert(left_key(el, lo, j) == left_key(rows, lo, j));
            assert(right_key(el, Some(key), j) == right_key(rows, hi, j));
        }
        assert forall|j: int| 0 <= j < er.len() implies (#[trigger] er[j]) == rows[n + 1 + j] && wanted(
            items,
            er,
            Some(key),
            hi,
            j,
        ) == wanted(items, rows, lo, hi, n + 1 + j) by {
            assert(left_key(er, Some(key), j) == left_key(rows, lo, n + 1 + j));
            assert(right_key(er, hi, j) == right_key(rows, hi, n + 1 + j));
        }
        assert(left_key(rows, lo, n) == last_key(el, lo));
        assert(right_key(rows, hi, n) == first_key(er, hi));
        assert(meets_at(sub, key) == any_covers(items, key)) by {
            if meets_at(sub, key) {
                let i = place_of(sub, QueryPart::Key(key));
                assert(sub[i] == items[a + i]);
                assert(items[a + i].proper());
                lemma_item_key(items[a + i], key);
                assert(items[a + i].covers(key));
            } else {
                lemma_not_met(items, a, b, lo, hi, key);
            }
        }
        assert((node is KV) == wanted(items, rows, lo, hi, n));
        if wanted_entry(items, rows, lo, hi, entry) {
            let j = choose|j: int| 0 <= j < rows.len() && #[trigger] rows[j] == entry && wanted(items, rows, lo, hi, j);
            if j < n {
                assert(el[j] == entry);
            } else if j > n {
                assert(er[j - n - 1] == entry);
            }
        }
        if wanted_entry(items, el, lo, Some(key), entry) {
            let j = choose|j: int| 0 <= j < el.len() && #[trigger] el[j] == entry && wanted(items, el, lo, Some(key), j);
            assert(rows[j] == entry);
        }
        if wanted_entry(items, er, Some(key), hi, entry) {
            let j = choose|j: int| 0 <= j < er.len() && #[trigger] er[j] == entry && wanted(items, er, Some(key), hi, j);
            assert(rows[n + 1 + j] == entry);
        }
    }
}

/// A proof shows just the entries that are asked for and those next to keys that are
/// asked for and not there; of all others it shows no more than hashes.
pub proof fn law_proof_shows_what_is_wanted(t: Bst, items: Seq<QueryPart>, key: Seq<u8>, value: Seq<u8>)
    requires
        t is Node,
        apart(items),
        ascending(t.entries()),
    ensures
        proof_of(t, items).ops.contains(Step::Push(Shown::KV(key, value))) <==> wanted_entry(
            items,
            t.entries(),
            None,
            None,
            (key, value),
        ),
{
    let n = items.len() as int;
    assert(items.subrange(0, n) =~= items);
    lemma_tree_shows(items, t, 0, n, None, None, (key, value));
}

/// A proof made for a query answers each of its items: it is accepted against the
/// hash of the tree, and what it shows gives for an item of the query just
/// the entries of the tree that the item covers.
pub proof fn law_map_answers_its_items(
    t: Bst,
    items: Seq<QueryPart>,
    q: int,
    checked: Result<EntryMap, Error>,
    answer: Result<Vec<(Vec<u8>, Vec<u8>)>, Error>,
)
    requires
        t is Node,
        apart(items),
        t.fits(),
        ascending(t.entries()),
        0 <= q < items.len(),
        map_checked(checked, encoded_steps(proof_of(t, items).ops), t.hash()),
        checked matches Ok(map) ==> ranged(answer, map@, items[q]),
    ensures
        checked is Ok,
        answer matches Ok(v) && ascending(rows_view(v@)) && forall|k: Seq<u8>, value: Seq<u8>| #[trigger]
            holds(rows_view(v@), k, value) <==> holds(t.entries(), k, value) && items[q].covers(k),
{
    let g = lemma_proof_gathered(t, items);
    let item = items[q];
    let i = place_from(g, item.lower(), 0);
    lemma_place_from(g, item.lower(), 0);
    lemma_item_known(items, g, t.entries(), q, i, true);
    lemma_known_rows(g, t.entries(), item, i, true);
}

/// A proof made for a query answers each key that the query asks for, with its
/// value in the tree or that it is absent.
pub proof fn law_map_answers_its_keys(
    t: Bst,
    items: Seq<QueryPart>,
    key: Seq<u8>,
    checked: Result<EntryMap, Error>,
    answer: Result<Option<&[u8]>, Error>,
)
    requires
        t is Node,
        apart(items),
        t.fits(),
        ascending(t.entries()),
        any_covers(items, key),
        map_checked(checked, encoded_steps(proof_of(t, items).ops), t.hash()),
        checked matches Ok(map) ==> looked_up(answer, map@, key),
    ensures
        checked is Ok,
        forall|value: Seq<u8>| #[trigger]
            holds(t.entries(), key, value) <==> (answer matches Ok(Some(v)) && v@ == value),
        (answer matches Ok(None)) <==> !exists|value: Seq<u8>| holds(t.entries(), key, value),
{
    let rows = t.entries();
    let g = lemma_proof_gathered(t, items);
    lemma_key_known(items, g, rows, key);
    assert forall|value: Seq<u8>| #[trigger] holds(rows, key, value) implies answer matches Ok(Some(v)) && v@ == value by {
        lemma_same_value(rows, key, value, choose|v: Seq<u8>| holds(rows, key, v));
    }
}

} // verus!
