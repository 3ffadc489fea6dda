//! What a checked proof of a search tree says is true of the tree, unless
//! SHA-256 collides on the byte strings that the two are hashed from.

use vstd::prelude::*;

use crate::bits::key_lt;
use crate::error::{Error, Fault};
use crate::hash::{sha256_of, NodeHash};
use crate::mrt::order::{lemma_key_lt_total, lemma_key_lt_trans};
use crate::mrt::scan::rows_view;
use crate::mrt::soundness::{apart_digests, nonzero_digests};
use crate::mrt::wire::lemma_as_hash;
use crate::proofs::check::{
    check_entry, check_node, check_rule, checking_start, gather, gather_rule, gathered_start, known_rows, known_value, place_from,
    query_checked,
    Checking, Gathered,
};
use crate::proofs::op::{lemma_parse_step_shrinks, parse_step, Shown, Step, MAX_ITEM_LEN};
use crate::proofs::proof_tree::{built, executed, machine_start, Machine, Partial};
use crate::proofs::query::{any_covers, apart, lemma_le_trans, lemma_order_before, QueryPart};
use crate::proofs::search_tree::{ascending, kv_preimage, le32, node_preimage, Bst};

verus! {

/// What a rule makes of a list of nodes.
pub open spec fn folded<S>(rule: spec_fn(S, Shown) -> Result<S, Fault>, s: S, nodes: Seq<Shown>) -> Result<S, Fault>
    decreases nodes.len(),
{
    if nodes.len() == 0 {
        Ok(s)
    } else {
        match folded(rule, s, nodes.drop_last()) {
            Ok(s2) => rule(s2, nodes.last()),
            Err(f) => Err(f),
        }
    }
}

/// A list of nodes in two parts.
pub proof fn lemma_folded_add<S>(rule: spec_fn(S, Shown) -> Result<S, Fault>, s: S, a: Seq<Shown>, b: Seq<Shown>)
    ensures
        folded(rule, s, a + b) == (match folded(rule, s, a) {
            Ok(s2) => folded(rule, s2, b),
            Err(f) => Err(f),
        }),
    decreases b.len(),
{
    if b.len() == 0 {
        assert(a + b =~= a);
    } else {
        assert((a + b).drop_last() =~= a + b.drop_last());
        lemma_folded_add(rule, s, a, b.drop_last());
    }
}

/// The nodes that the parts on a stack show.
pub open spec fn stack_walk(stack: Seq<Partial>) -> Seq<Shown>
    decreases stack.len(),
{
    if stack.len() == 0 {
        Seq::empty()
    } else {
        stack_walk(stack.drop_last()) + stack.last().walk()
    }
}

/// A stack with two parts more.
proof fn lemma_stack_walk_two(stack: Seq<Partial>)
    requires
        stack.len() >= 2,
    ensures
        stack_walk(stack) == stack_walk(stack.take(stack.len() - 2)) + (stack[stack.len() - 2].walk() + stack[stack.len()
            - 1].walk()),
{
    reveal_with_fuel(stack_walk, 3);
    let n = stack.len();
    assert(stack.drop_last().drop_last() =~= stack.take(n - 2));
    assert(stack.drop_last().last() == stack[n - 2]);
    let a = stack_walk(stack.take(n - 2));
    let b = stack[n - 2].walk();
    let c = stack[n - 1].walk();
    assert(stack_walk(stack) == a + b + c);
    assert(a + b + c =~= a + (b + c));
}

/// A stack with one part more.
proof fn lemma_stack_walk_push(stack: Seq<Partial>, t: Partial)
    ensures
        stack_walk(stack.push(t)) == stack_walk(stack) + t.walk(),
{
    assert(stack.push(t).drop_last() =~= stack);
}

/// Whether a hash that stands for a subtree has no children.
pub open spec fn sane(p: Partial) -> bool
    decreases p,
{
    match p {
        Partial::Missing => true,
        Partial::Node { node, left, right } => sane(*left) && sane(*right) && (node is NodeHash ==> *left is Missing
            && *right is Missing),
    }
}

/// Whether all parts of a stack are sane.
pub open spec fn sane_stack(stack: Seq<Partial>) -> bool {
    forall|i: int| 0 <= i < stack.len() ==> sane(#[trigger] stack[i])
}

/// What was gathered is what the rule makes of the nodes that the stack shows, in order.
proof fn lemma_executed_walk<S>(rule: spec_fn(S, Shown) -> Result<S, Fault>, start: S, b: Seq<u8>, m: Machine, s: S)
    requires
        executed(rule, b, m, s) is Ok,
        folded(rule, start, stack_walk(m.stack)) == Ok::<S, Fault>(s),
        sane_stack(m.stack),
    ensures
        ({
            let (m2, s2) = executed(rule, b, m, s)->Ok_0;
            folded(rule, start, stack_walk(m2.stack)) == Ok::<S, Fault>(s2) && sane_stack(m2.stack)
        }),
    decreases b.len(),
{
    if b.len() > 0 {
        lemma_parse_step_shrinks(b);
        let (op, r) = parse_step(b)->0;
        let n = m.stack.len();
        match op {
            Step::Push(node) => {
                let s2 = rule(s, node)->Ok_0;
                let t = Partial::Node { node, left: Box::new(Partial::Missing), right: Box::new(Partial::Missing) };
                lemma_stack_walk_push(m.stack, t);
                reveal_with_fuel(Partial::walk, 2);
                reveal_with_fuel(sane, 2);
                assert(t.walk() =~= seq![node]);
                let w = stack_walk(m.stack);
                assert((w + seq![node]).drop_last() =~= w);
                assert((w + seq![node]).last() == node);
                lemma_executed_walk(rule, start, r, m.push(node), s2);
            },
            Step::Parent => {
                let m2 = m.parent()->0;
                lemma_stack_walk_two(m.stack);
                let t = m.stack[n - 1].attached_left(m.stack[n - 2])->0;
                lemma_stack_walk_push(m.stack.take(n - 2), t);
                lemma_attached_left(m.stack[n - 1], m.stack[n - 2]);
                assert(sane(m.stack[n - 1]) && sane(m.stack[n - 2]));
                lemma_executed_walk(rule, start, r, m2, s);
            },
            Step::Child => {
                let m2 = m.child()->0;
                lemma_stack_walk_two(m.stack);
                let t = m.stack[n - 2].attached_right(m.stack[n - 1])->0;
                lemma_stack_walk_push(m.stack.take(n - 2), t);
                lemma_attached_right(m.stack[n - 2], m.stack[n - 1]);
                assert(sane(m.stack[n - 1]) && sane(m.stack[n - 2]));
                lemma_executed_walk(rule, start, r, m2, s);
            },
        }
    }
}

/// A left child is shown before its parent.
proof fn lemma_attached_left(p: Partial, c: Partial)
    requires
        p.attached_left(c) is Some,
    ensures
        p.attached_left(c)->0.walk() == c.walk() + p.walk(),
        sane(p) && sane(c) ==> sane(p.attached_left(c)->0),
{
    if let Partial::Node { node, left, right } = p {
        assert(left.walk() =~= Seq::empty());
        assert(c.walk() + seq![node] + right.walk() =~= c.walk() + (left.walk() + seq![node] + right.walk()));
    }
}

/// A right child is shown after its parent.
proof fn lemma_attached_right(p: Partial, c: Partial)
    requires
        p.attached_right(c) is Some,
    ensures
        p.attached_right(c)->0.walk() == p.walk() + c.walk(),
        sane(p) && sane(c) ==> sane(p.attached_right(c)->0),
{
    if let Partial::Node { node, left, right } = p {
        assert(right.walk() =~= Seq::empty());
        assert(left.walk() + seq![node] + c.walk() =~= (left.walk() + seq![node] + right.walk()) + c.walk());
    }
}

/// The byte strings that a tree is hashed from.
pub open spec fn tree_preimages(t: Bst) -> Set<Seq<u8>>
    decreases t,
{
    match t {
        Bst::Empty => Set::empty(),
        Bst::Node { key, value, left, right } => tree_preimages(*left).union(tree_preimages(*right)).insert(
            kv_preimage(key, value),
        ).insert(node_preimage(left.hash(), sha256_of(kv_preimage(key, value)), right.hash())),
    }
}

/// The byte strings that a part of a tree is hashed from.
pub open spec fn part_preimages(p: Partial) -> Set<Seq<u8>>
    decreases p,
{
    match p {
        Partial::Missing => Set::empty(),
        Partial::Node { node, left, right } => {
            let below = part_preimages(*left).union(part_preimages(*right));
            match node {
                Shown::NodeHash(h) => below,
                Shown::KVHash(h) => below.insert(node_preimage(left.hash(), h, right.hash())),
                Shown::KV(key, value) => below.insert(kv_preimage(key, value)).insert(
                    node_preimage(left.hash(), sha256_of(kv_preimage(key, value)), right.hash()),
                ),
            }
        },
    }
}

/// SHA-256 keeps apart what a part and a tree are hashed from, and gives none of it the hash of an empty tree.
pub open spec fn no_tree_collision(p: Partial, t: Bst) -> bool {
    &&& apart_digests(part_preimages(p), tree_preimages(t))
    &&& nonzero_digests(part_preimages(p))
    &&& nonzero_digests(tree_preimages(t))
}

/// Whether a part is one of the given tree.
pub open spec fn part_of(p: Partial, t: Bst) -> bool
    decreases p,
{
    match p {
        Partial::Missing => t is Empty,
        Partial::Node { node, left, right } => match node {
            Shown::NodeHash(h) => h == t.hash(),
            Shown::KVHash(h) => match t {
                Bst::Node { key, value, left: l, right: r } => h == sha256_of(kv_preimage(key, value)) && part_of(*left, *l)
                    && part_of(*right, *r),
                Bst::Empty => false,
            },
            Shown::KV(k, v) => match t {
                Bst::Node { key, value, left: l, right: r } => k == key && v == value && part_of(*left, *l) && part_of(
                    *right,
                    *r,
                ),
                Bst::Empty => false,
            },
        },
    }
}

/// Whether entries that are shown have a byte form.
pub open spec fn part_fits(p: Partial) -> bool
    decreases p,
{
    match p {
        Partial::Missing => true,
        Partial::Node { node, left, right } => Step::Push(node).fits() && part_fits(*left) && part_fits(*right),
    }
}

/// Four bytes tell the number.
proof fn lemma_le32(a: nat, b: nat)
    requires
        a <= u32::MAX,
        b <= u32::MAX,
        le32(a) == le32(b),
    ensures
        a == b,
{
    reveal(le32);
    assert(le32(a)[0] == le32(b)[0] && le32(a)[1] == le32(b)[1] && le32(a)[2] == le32(b)[2] && le32(a)[3] == le32(b)[3]);
    let (a1, a2, a3) = (a / 256, a / 65536, a / 16777216);
    let (b1, b2, b3) = (b / 256, b / 65536, b / 16777216);
    assert(a2 == a1 / 256 && a3 == a2 / 256 && a3 < 256);
    assert(b2 == b1 / 256 && b3 == b2 / 256 && b3 < 256);
}

/// What an entry is hashed from tells its key and its value.
proof fn lemma_kv_preimage(k: Seq<u8>, v: Seq<u8>, k2: Seq<u8>, v2: Seq<u8>)
    requires
        k.len() <= MAX_ITEM_LEN,
        v.len() <= MAX_ITEM_LEN,
        k2.len() <= MAX_ITEM_LEN,
        v2.len() <= MAX_ITEM_LEN,
        kv_preimage(k, v) == kv_preimage(k2, v2),
    ensures
        k == k2,
        v == v2,
{
    reveal(le32);
    let p = kv_preimage(k, v);
    assert(p.subrange(1, 5) =~= le32(k.len()));
    assert(p.subrange(1, 5) =~= le32(k2.len()));
    lemma_le32(k.len(), k2.len());
    let n = k.len() as int;
    assert(p.subrange(5, 5 + n) =~= k);
    assert(p.subrange(5, 5 + n) =~= k2);
    assert(p.skip(9 + n) =~= v);
    assert(p.skip(9 + n) =~= v2);
}

/// What a node is hashed from tells the three hashes.
proof fn lemma_node_preimage(l: NodeHash, k: NodeHash, r: NodeHash, l2: NodeHash, k2: NodeHash, r2: NodeHash)
    requires
        node_preimage(l, k, r) == node_preimage(l2, k2, r2),
    ensures
        l == l2,
        k == k2,
        r == r2,
{
    let p = node_preimage(l, k, r);
    assert(p.subrange(1, 33) =~= l@);
    assert(p.subrange(1, 33) =~= l2@);
    assert(p.subrange(33, 65) =~= k@);
    assert(p.subrange(33, 65) =~= k2@);
    assert(p.subrange(65, 97) =~= r@);
    assert(p.subrange(65, 97) =~= r2@);
    lemma_as_hash(l);
    lemma_as_hash(l2);
    lemma_as_hash(k);
    lemma_as_hash(k2);
    lemma_as_hash(r);
    lemma_as_hash(r2);
}

/// A part with the hash of a tree is a part of it, unless SHA-256 collides on what the two are hashed from.
pub proof fn law_same_hash_is_part(p: Partial, t: Bst)
    requires
        p.hash() == t.hash(),
        part_fits(p),
        t.fits(),
        no_tree_collision(p, t),
    ensures
        part_of(p, t),
    decreases p,
{
    if let Partial::Node { node, left, right } = p {
        if !(node is NodeHash) {
            let kv = match node {
                Shown::KVHash(h) => h,
                Shown::KV(k, v) => sha256_of(kv_preimage(k, v)),
                Shown::NodeHash(h) => h,
            };
            let x = node_preimage(left.hash(), kv, right.hash());
            assert(part_preimages(p).contains(x));
            if let Bst::Node { key, value, left: l, right: r } = t {
                let y = node_preimage(l.hash(), sha256_of(kv_preimage(key, value)), r.hash());
                assert(tree_preimages(t).contains(y));
                assert(x == y);
                lemma_node_preimage(left.hash(), kv, right.hash(), l.hash(), sha256_of(kv_preimage(key, value)), r.hash());
                if let Shown::KV(k, v) = node {
                    assert(part_preimages(p).contains(kv_preimage(k, v)));
                    assert(tree_preimages(t).contains(kv_preimage(key, value)));
                    lemma_kv_preimage(k, v, key, value);
                }
                lemma_below_apart(p, t);
                law_same_hash_is_part(*left, *l);
                law_same_hash_is_part(*right, *r);
            }
        }
    } else if let Bst::Node { key, value, left: l, right: r } = t {
        assert(tree_preimages(t).contains(node_preimage(l.hash(), sha256_of(kv_preimage(key, value)), r.hash())));
    }
}

/// What holds of the byte strings of a part and a tree holds of those of their children.
proof fn lemma_below_apart(p: Partial, t: Bst)
    requires
        no_tree_collision(p, t),
        p is Node,
        t is Node,
    ensures
        no_tree_collision(*p->left, *t->left),
        no_tree_collision(*p->right, *t->right),
{
    let (a, b) = (part_preimages(p), tree_preimages(t));
    assert forall|x: Seq<u8>| #[trigger] part_preimages(*p->left).contains(x) implies a.contains(x) by {}
    assert forall|x: Seq<u8>| #[trigger] part_preimages(*p->right).contains(x) implies a.contains(x) by {}
    assert forall|x: Seq<u8>| #[trigger] tree_preimages(*t->left).contains(x) implies b.contains(x) by {}
    assert forall|x: Seq<u8>| #[trigger] tree_preimages(*t->right).contains(x) implies b.contains(x) by {}
}

/// The rows whose keys are asked for.
pub open spec fn hits(rows: Seq<(Seq<u8>, Seq<u8>)>, items: Seq<QueryPart>) -> Seq<(Seq<u8>, Seq<u8>)>
    decreases rows.len(),
{
    if rows.len() == 0 {
        Seq::empty()
    } else if any_covers(items, rows.last().0) {
        hits(rows.drop_last(), items).push(rows.last())
    } else {
        hits(rows.drop_last(), items)
    }
}

/// One more row.
proof fn lemma_hits_push(rows: Seq<(Seq<u8>, Seq<u8>)>, row: (Seq<u8>, Seq<u8>), items: Seq<QueryPart>)
    ensures
        hits(rows.push(row), items) == (if any_covers(items, row.0) {
            hits(rows, items).push(row)
        } else {
            hits(rows, items)
        }),
{
    assert(rows.push(row).drop_last() =~= rows);
}

/// Rows of which none is asked for.
proof fn lemma_hits_more(rows: Seq<(Seq<u8>, Seq<u8>)>, more: Seq<(Seq<u8>, Seq<u8>)>, items: Seq<QueryPart>)
    requires
        forall|i: int| 0 <= i < more.len() ==> !any_covers(items, (#[trigger] more[i]).0),
    ensures
        hits(rows + more, items) == hits(rows, items),
    decreases more.len(),
{
    if more.len() == 0 {
        assert(rows + more =~= rows);
    } else {
        let init = more.drop_last();
        assert forall|i: int| 0 <= i < init.len() implies !any_covers(items, (#[trigger] init[i]).0) by {
            assert(init[i] == more[i]);
        }
        assert((rows + more).drop_last() =~= rows + init);
        assert(!any_covers(items, more[more.len() - 1].0));
        lemma_hits_more(rows, init, items);
    }
}

/// Items that ask for the same of the rows.
proof fn lemma_hits_same(rows: Seq<(Seq<u8>, Seq<u8>)>, a: Seq<QueryPart>, b: Seq<QueryPart>)
    requires
        forall|i: int| 0 <= i < rows.len() ==> any_covers(a, (#[trigger] rows[i]).0) == any_covers(b, rows[i].0),
    ensures
        hits(rows, a) == hits(rows, b),
    decreases rows.len(),
{
    if rows.len() > 0 {
        let init = rows.drop_last();
        assert forall|i: int| 0 <= i < init.len() implies any_covers(a, (#[trigger] init[i]).0) == any_covers(
            b,
            init[i].0,
        ) by {
            assert(init[i] == rows[i]);
        }
        lemma_hits_same(init, a, b);
        assert(any_covers(a, rows[rows.len() - 1].0) == any_covers(b, rows[rows.len() - 1].0));
    }
}

/// One more item, which none of the rows answers.
proof fn lemma_hits_next(rows: Seq<(Seq<u8>, Seq<u8>)>, items: Seq<QueryPart>, n: int)
    requires
        0 <= n < items.len(),
        forall|i: int| 0 <= i < rows.len() ==> !items[n].covers((#[trigger] rows[i]).0),
    ensures
        hits(rows, items.take(n + 1)) == hits(rows, items.take(n)),
{
    assert forall|i: int| 0 <= i < rows.len() implies any_covers(items.take(n + 1), (#[trigger] rows[i]).0) == any_covers(
        items.take(n),
        rows[i].0,
    ) by {
        lemma_any_covers_next(items, n, rows[i].0);
    }
    lemma_hits_same(rows, items.take(n + 1), items.take(n));
}

/// One more item, for a single key.
proof fn lemma_any_covers_next(items: Seq<QueryPart>, n: int, k: Seq<u8>)
    requires
        0 <= n < items.len(),
    ensures
        any_covers(items.take(n + 1), k) <==> any_covers(items.take(n), k) || items[n].covers(k),
{
    let (a, b) = (items.take(n + 1), items.take(n));
    if any_covers(a, k) {
        let i = choose|i: int| 0 <= i < a.len() && (#[trigger] a[i]).covers(k);
        if i < n {
            assert(b[i].covers(k));
        }
    }
    if any_covers(b, k) {
        let i = choose|i: int| 0 <= i < b.len() && (#[trigger] b[i]).covers(k);
        assert(a[i].covers(k));
    }
    if items[n].covers(k) {
        assert(a[n].covers(k));
    }
}

/// The number of items that were begun.
pub open spec fn begun(c: Checking) -> int {
    if c.in_range {
        c.done as int + 1
    } else {
        c.done as int
    }
}

/// Whether the check of a query has found what the items that were begun ask
/// for among the rows so far, and has lost nothing that later items ask for.
pub open spec fn on_track(items: Seq<QueryPart>, c: Checking, rows: Seq<(Seq<u8>, Seq<u8>)>) -> bool {
    &&& begun(c) <= items.len()
    &&& c.rows == hits(rows, items.take(begun(c)))
    &&& c.done > 0 ==> rows.len() > 0
    &&& forall|i: int| 0 <= i < c.done ==> !key_lt(rows.last().0, (#[trigger] items[i]).upper())
    &&& c.last_shown is None ==> rows.len() == 0
    &&& c.in_range ==> c.last_shown == Some(true) && rows.len() > 0 && items[c.done as int].covers(rows.last().0) && key_lt(
        rows.last().0,
        items[c.done as int].upper(),
    )
    &&& c.last_shown == Some(true) && !c.in_range && c.done < items.len() ==> rows.len() > 0 && key_lt(
        rows.last().0,
        items[c.done as int].lower(),
    )
}

/// A key that is not before the upper bound of an item, and more than that, is not asked for by it.
proof fn lemma_beyond(item: QueryPart, k: Seq<u8>, l: Seq<u8>)
    requires
        !key_lt(k, item.upper()),
        key_lt(k, l),
    ensures
        !item.covers(l),
        key_lt(item.upper(), l),
        !key_lt(l, item.upper()),
{
    lemma_key_lt_total(k, item.upper());
    lemma_key_lt_total(l, item.upper());
    lemma_le_trans(item.upper(), k, l);
}

/// Hidden rows.
pub proof fn lemma_hidden(items: Seq<QueryPart>, c: Checking, rows: Seq<(Seq<u8>, Seq<u8>)>, more: Seq<(Seq<u8>, Seq<u8>)>)
    requires
        on_track(items, c, rows),
        ascending(rows + more),
        !c.in_range,
    ensures
        on_track(items, Checking { last_shown: Some(false), ..c }, rows + more),
{
    let all = rows + more;
    let begun_items = items.take(c.done as int);
    assert forall|i: int| 0 <= i < more.len() implies !any_covers(begun_items, (#[trigger] more[i]).0) by {
        if any_covers(begun_items, more[i].0) {
            let j = choose|j: int| 0 <= j < begun_items.len() && (#[trigger] begun_items[j]).covers(more[i].0);
            assert(items[j].covers(more[i].0));
            assert(all[rows.len() - 1] == rows.last());
            assert(all[rows.len() + i] == more[i]);
            lemma_beyond(items[j], rows.last().0, more[i].0);
        }
    }
    lemma_hits_more(rows, more, begun_items);
    assert forall|i: int| 0 <= i < c.done implies !key_lt(all.last().0, (#[trigger] items[i]).upper()) by {
        if more.len() > 0 {
            assert(all[rows.len() - 1] == rows.last());
            lemma_beyond(items[i], rows.last().0, all.last().0);
        } else {
            assert(all =~= rows);
        }
    }
}

/// What holds within the check of an entry with the key `k`, after the rows so far.
spec fn halfway(items: Seq<QueryPart>, c: Checking, rows: Seq<(Seq<u8>, Seq<u8>)>, k: Seq<u8>) -> bool {
    &&& begun(c) <= items.len()
    &&& c.rows == hits(rows, items.take(begun(c)))
    &&& forall|i: int| 0 <= i < c.done ==> !key_lt(k, (#[trigger] items[i]).upper()) && !items[i].covers(k)
    &&& c.last_shown is None ==> rows.len() == 0
    &&& c.in_range ==> rows.len() > 0 && items[c.done as int].covers(rows.last().0) && key_lt(
        rows.last().0,
        items[c.done as int].upper(),
    )
    &&& c.last_shown == Some(true) && !c.in_range && c.done < items.len() ==> rows.len() > 0 && key_lt(
        rows.last().0,
        items[c.done as int].lower(),
    )
}

/// None of the rows so far is asked for by the next item, if the entry with the key `k` may be held against it.
proof fn lemma_none_before(items: Seq<QueryPart>, c: Checking, rows: Seq<(Seq<u8>, Seq<u8>)>, k: Seq<u8>)
    requires
        halfway(items, c, rows, k),
        c.done < items.len(),
        !c.in_range,
        k == items[c.done as int].lower() || c.last_shown != Some(false),
        forall|i: int| 0 <= i < rows.len() ==> key_lt((#[trigger] rows[i]).0, k),
        ascending(rows),
    ensures
        hits(rows, items.take(c.done as int + 1)) == hits(rows, items.take(c.done as int)),
{
    let item = items[c.done as int];
    assert forall|i: int| 0 <= i < rows.len() implies !item.covers((#[trigger] rows[i]).0) by {
        if k == item.lower() {
            assert(key_lt(rows[i].0, k));
        } else {
            assert(c.last_shown == Some(true));
            assert(key_lt(rows.last().0, item.lower()));
            if i < rows.len() - 1 {
                assert(key_lt(rows[i].0, rows[rows.len() - 1].0));
            } else {
                assert(rows[i] == rows.last());
            }
            lemma_le_trans(rows[i].0, rows.last().0, item.lower());
            assert(key_lt(rows[i].0, item.lower()));
        }
    }
    lemma_hits_next(rows, items, c.done as int);
}

/// Holding an entry against the items.
#[verifier::spinoff_prover]
proof fn lemma_entry(items: Seq<QueryPart>, c: Checking, rows: Seq<(Seq<u8>, Seq<u8>)>, k: Seq<u8>, v: Seq<u8>)
    requires
        apart(items),
        halfway(items, c, rows, k),
        check_entry(items, c, k, v) is Ok,
        ascending(rows),
        forall|i: int| 0 <= i < rows.len() ==> key_lt((#[trigger] rows[i]).0, k),
    ensures
        on_track(items, Checking { last_shown: Some(true), ..check_entry(items, c, k, v)->Ok_0 }, rows.push((k, v))),
    decreases items.len() - c.done,
{
    let all = rows.push((k, v));
    if c.done >= items.len() {
        lemma_not_covered(items, c.done as int, k);
        lemma_hits_push(rows, (k, v), items.take(c.done as int));
    } else {
        let n = c.done as int;
        let item = items[n];
        assert(item.proper());
        lemma_order_before(QueryPart::Key(k), item);
        lemma_key_lt_total(k, item.lower());
        lemma_key_lt_total(item.lower(), k);
        lemma_key_lt_total(item.upper(), k);
        lemma_key_lt_total(item.lower(), item.upper());
        if item.relation(QueryPart::Key(k)) is After {
            assert(key_lt(k, item.lower()));
            if c.in_range {
                lemma_le_trans(item.lower(), rows.last().0, k);
                assert(key_lt(rows[rows.len() - 1].0, k));
                lemma_key_lt_total(item.lower(), rows.last().0);
            }
            assert(!c.in_range);
            lemma_not_covered(items, n, k);
            lemma_hits_push(rows, (k, v), items.take(n));
        } else {
            if !c.in_range {
                lemma_none_before(items, c, rows, k);
            }
            let passed = !key_lt(k, item.upper());
            let c2 = Checking {
                done: if passed {
                    c.done + 1
                } else {
                    c.done
                },
                in_range: !passed,
                ..c
            };
            assert(c2.rows == hits(rows, items.take(n + 1)));
            lemma_hits_push(rows, (k, v), items.take(n + 1));
            lemma_any_covers_next(items, n, k);
            if item.covers(k) {
                if passed && n + 1 < items.len() {
                    assert(items[n].relation(items[n + 1]) is Before);
                    lemma_order_before(item, items[n + 1]);
                }
            } else {
                assert(passed);
                if n + 1 < items.len() && c.last_shown == Some(true) {
                    let next = items[n + 1];
                    assert(items[n].relation(items[n + 1]) is Before);
                    lemma_order_before(item, next);
                    lemma_le_trans(rows.last().0, item.lower(), item.upper());
                    lemma_le_trans(rows.last().0, item.upper(), next.lower());
                }
                lemma_entry(items, c2, rows, k, v);
            }
        }
    }
}

/// A key that none of the first `n` items asks for.
proof fn lemma_not_covered(items: Seq<QueryPart>, n: int, k: Seq<u8>)
    requires
        0 <= n <= items.len(),
        forall|i: int| 0 <= i < n ==> !(#[trigger] items[i]).covers(k),
    ensures
        !any_covers(items.take(n), k),
{
    if any_covers(items.take(n), k) {
        let i = choose|i: int| 0 <= i < n && (#[trigger] items.take(n)[i]).covers(k);
        assert(items[i].covers(k));
    }
}

/// Checking what is shown of a tree.
pub proof fn lemma_check_part(items: Seq<QueryPart>, p: Partial, t: Bst, c: Checking, rows: Seq<(Seq<u8>, Seq<u8>)>)
    requires
        apart(items),
        sane(p),
        part_of(p, t),
        on_track(items, c, rows),
        ascending(rows + t.entries()),
        folded(check_rule(items), c, p.walk()) is Ok,
    ensures
        on_track(items, folded(check_rule(items), c, p.walk())->Ok_0, rows + t.entries()),
    decreases p,
{
    let rule = check_rule(items);
    match p {
        Partial::Missing => {
            assert(rows + t.entries() =~= rows);
        },
        Partial::Node { node, left, right } => {
            if let Shown::NodeHash(h) = node {
                assert(p.walk() =~= seq![node]);
                assert(seq![node].drop_last() =~= Seq::empty());
                reveal_with_fuel(folded, 2);
                lemma_hidden(items, c, rows, t.entries());
            } else if let Bst::Node { key, value, left: l, right: r } = t {
                let a = l.entries();
                let b = seq![(key, value)];
                let d = r.entries();
                assert(rows + t.entries() =~= rows + a + b + d);
                lemma_ascending_parts(rows + a + b, d);
                lemma_ascending_parts(rows + a, b);
                lemma_folded_add(rule, c, left.walk() + seq![node], right.walk());
                lemma_folded_add(rule, c, left.walk(), seq![node]);
                lemma_check_part(items, *left, *l, c, rows);
                let c1 = folded(rule, c, left.walk())->Ok_0;
                assert(seq![node].drop_last() =~= Seq::empty());
                reveal_with_fuel(folded, 2);
                let c2 = folded(rule, c1, seq![node])->Ok_0;
                assert(Ok::<Checking, Fault>(c2) == check_node(items, c1, node));
                match node {
                    Shown::KV(k, v) => {
                        lemma_shown_entry(items, c1, rows + a, k, v);
                        assert((rows + a).push((k, v)) =~= rows + a + b);
                    },
                    _ => {
                        lemma_hidden(items, c1, rows + a, b);
                    },
                }
                lemma_check_part(items, *right, *r, c2, rows + a + b);
            }
        },
    }
}

/// The first rows of ascending ones.
pub proof fn lemma_ascending_parts(a: Seq<(Seq<u8>, Seq<u8>)>, b: Seq<(Seq<u8>, Seq<u8>)>)
    requires
        ascending(a + b),
    ensures
        ascending(a),
{
    assert forall|i: int, j: int| 0 <= i < j < a.len() implies key_lt((#[trigger] a[i]).0, (#[trigger] a[j]).0) by {
        assert((a + b)[i] == a[i] && (a + b)[j] == a[j]);
    }
}

/// An entry that is shown.
pub proof fn lemma_shown_entry(items: Seq<QueryPart>, c: Checking, rows: Seq<(Seq<u8>, Seq<u8>)>, k: Seq<u8>, v: Seq<u8>)
    requires
        apart(items),
        on_track(items, c, rows),
        ascending(rows + seq![(k, v)]),
        check_entry(items, c, k, v) is Ok,
    ensures
        on_track(items, Checking { last_shown: Some(true), ..check_entry(items, c, k, v)->Ok_0 }, rows.push((k, v))),
{
    let all = rows + seq![(k, v)];
    lemma_ascending_parts(rows, seq![(k, v)]);
    assert forall|i: int| 0 <= i < rows.len() implies key_lt((#[trigger] rows[i]).0, k) by {
        assert(all[i] == rows[i]);
        assert(all[rows.len() as int] == (k, v));
    }
    assert forall|i: int| 0 <= i < c.done implies !key_lt(k, (#[trigger] items[i]).upper()) && !items[i].covers(k) by {
        assert(key_lt(rows[rows.len() - 1].0, k));
        lemma_beyond(items[i], rows.last().0, k);
    }
    lemma_entry(items, c, rows, k, v);
}

/// At the end of the tree nothing is left open.
pub proof fn lemma_check_end(items: Seq<QueryPart>, c: Checking, rows: Seq<(Seq<u8>, Seq<u8>)>)
    requires
        apart(items),
        on_track(items, c, rows),
        ascending(rows),
        c.done >= items.len() || c.last_shown == Some(true),
    ensures
        c.rows == hits(rows, items),
{
    let m = begun(c);
    assert forall|i: int| 0 <= i < rows.len() implies any_covers(items.take(m), (#[trigger] rows[i]).0) == any_covers(
        items,
        rows[i].0,
    ) by {
        let k = rows[i].0;
        if i < rows.len() - 1 {
            assert(key_lt(rows[i].0, rows[rows.len() - 1].0));
        }
        if any_covers(items.take(m), k) {
            let j = choose|j: int| 0 <= j < m && (#[trigger] items.take(m)[j]).covers(k);
            assert(items[j].covers(k));
        }
        if any_covers(items, k) {
            let j = choose|j: int| 0 <= j < items.len() && (#[trigger] items[j]).covers(k);
            if j < m {
                assert(items.take(m)[j].covers(k));
            } else {
                lemma_key_lt_total(k, items[j].lower());
                if c.in_range {
                    let item = items[c.done as int];
                    assert(item.relation(items[j]) is Before);
                    lemma_order_before(item, items[j]);
                    lemma_le_trans(k, rows.last().0, item.upper());
                    lemma_le_trans(k, item.upper(), items[j].lower());
                } else {
                    let item = items[c.done as int];
                    assert(item.proper());
                    lemma_le_trans(k, rows.last().0, item.lower());
                    if j > c.done {
                        assert(item.relation(items[j]) is Before);
                        lemma_order_before(item, items[j]);
                        lemma_le_trans(k, item.lower(), item.upper());
                        lemma_le_trans(k, item.upper(), items[j].lower());
                    }
                }
            }
        }
    }
    lemma_hits_same(rows, items.take(m), items);
}

/// The entries that come out of the check of a proof against the hash of a tree
/// are the entries of the tree that the query asks for, in order, unless
/// SHA-256 collides on what the proof and the tree are hashed from.
pub proof fn law_checked_entries_are_true(
    r: Result<Vec<(Vec<u8>, Vec<u8>)>, Error>,
    bytes: Seq<u8>,
    items: Seq<QueryPart>,
    t: Bst,
)
    requires
        query_checked(r, bytes, items, t.hash()),
        r is Ok,
        apart(items),
        t.fits(),
        ascending(t.entries()),
        built(check_rule(items), bytes, checking_start()) matches Ok((p, c)) ==> no_tree_collision(p, t),
    ensures
        rows_view(r->Ok_0@) == hits(t.entries(), items),
{
    let rule = check_rule(items);
    let start = checking_start();
    let (p, c) = built(rule, bytes, start)->Ok_0;
    assert(stack_walk(machine_start().stack) =~= Seq::empty());
    lemma_executed_walk(rule, start, bytes, machine_start(), start);
    lemma_executed_fits(rule, bytes, machine_start(), start);
    let (m, s) = executed(rule, bytes, machine_start(), start)->Ok_0;
    lemma_stack_walk_push(Seq::empty(), p);
    assert(m.stack =~= Seq::<Partial>::empty().push(p));
    assert(stack_walk(Seq::<Partial>::empty()) =~= Seq::empty());
    assert(Seq::<Shown>::empty() + p.walk() =~= p.walk());
    assert(sane(m.stack[0]));
    assert(part_fits(m.stack[0]));
    law_same_hash_is_part(p, t);
    let none = Seq::<(Seq<u8>, Seq<u8>)>::empty();
    assert(none + t.entries() =~= t.entries());
    assert(on_track(items, start, none));
    lemma_check_part(items, p, t, start, none);
    lemma_check_end(items, c, t.entries());
}

/// What a proof in its byte form shows has a byte form.
proof fn lemma_executed_fits<S>(rule: spec_fn(S, Shown) -> Result<S, Fault>, b: Seq<u8>, m: Machine, s: S)
    requires
        executed(rule, b, m, s) is Ok,
        forall|i: int| 0 <= i < m.stack.len() ==> part_fits(#[trigger] m.stack[i]),
    ensures
        forall|i: int| 0 <= i < executed(rule, b, m, s)->Ok_0.0.stack.len() ==> part_fits(
            #[trigger] executed(rule, b, m, s)->Ok_0.0.stack[i],
        ),
    decreases b.len(),
{
    reveal_with_fuel(part_fits, 2);
    if b.len() > 0 {
        lemma_parse_step_shrinks(b);
        let (op, r) = parse_step(b)->0;
        let n = m.stack.len();
        match op {
            Step::Push(node) => {
                lemma_executed_fits(rule, r, m.push(node), rule(s, node)->Ok_0);
            },
            Step::Parent => {
                assert(part_fits(m.stack[n - 1]) && part_fits(m.stack[n - 2]));
                lemma_executed_fits(rule, r, m.parent()->0, s);
            },
            Step::Child => {
                assert(part_fits(m.stack[n - 1]) && part_fits(m.stack[n - 2]));
                lemma_executed_fits(rule, r, m.child()->0, s);
            },
        }
    }
}

/// Whether rows hold an entry.
pub open spec fn holds(rows: Seq<(Seq<u8>, Seq<u8>)>, key: Seq<u8>, value: Seq<u8>) -> bool {
    exists|i: int| 0 <= i < rows.len() && #[trigger] rows[i] == (key, value)
}

/// The rows that are asked for are just those of the given rows whose keys an item
/// covers, in the order in which they were given.
pub proof fn law_hits_are_what_is_asked_for(rows: Seq<(Seq<u8>, Seq<u8>)>, items: Seq<QueryPart>)
    ensures
        forall|k: Seq<u8>, v: Seq<u8>| #[trigger]
            holds(hits(rows, items), k, v) <==> holds(rows, k, v) && any_covers(items, k),
        ascending(rows) ==> ascending(hits(rows, items)),
    decreases rows.len(),
{
    let out = hits(rows, items);
    if rows.len() > 0 {
        let init = rows.drop_last();
        let (last_key, last_value) = rows.last();
        let before = hits(init, items);
        law_hits_are_what_is_asked_for(init, items);
        assert forall|k: Seq<u8>, v: Seq<u8>| #[trigger] holds(rows, k, v) <==> holds(init, k, v) || (k, v) == rows.last() by {
            if holds(rows, k, v) {
                let i = choose|i: int| 0 <= i < rows.len() && #[trigger] rows[i] == (k, v);
                if i < rows.len() - 1 {
                    assert(init[i] == (k, v));
                }
            }
            if holds(init, k, v) {
                let i = choose|i: int| 0 <= i < init.len() && #[trigger] init[i] == (k, v);
                assert(rows[i] == (k, v));
            }
            assert(rows[rows.len() - 1] == rows.last());
        }
        if any_covers(items, last_key) {
            assert forall|k: Seq<u8>, v: Seq<u8>| #[trigger] holds(out, k, v) <==> holds(before, k, v) || (k, v)
                == rows.last() by {
                if holds(out, k, v) {
                    let i = choose|i: int| 0 <= i < out.len() && #[trigger] out[i] == (k, v);
                    if i < out.len() - 1 {
                        assert(before[i] == (k, v));
                    }
                }
                if holds(before, k, v) {
                    let i = choose|i: int| 0 <= i < before.len() && #[trigger] before[i] == (k, v);
                    assert(out[i] == (k, v));
                }
                assert(out[out.len() - 1] == rows.last());
            }
            if ascending(rows) {
                assert(ascending(init)) by {
                    assert forall|i: int, j: int| 0 <= i < j < init.len() implies key_lt(
                        (#[trigger] init[i]).0,
                        (#[trigger] init[j]).0,
                    ) by {
                        assert(init[i] == rows[i] && init[j] == rows[j]);
                    }
                }
                assert forall|i: int, j: int| 0 <= i < j < out.len() implies key_lt(
                    (#[trigger] out[i]).0,
                    (#[trigger] out[j]).0,
                ) by {
                    assert(out[i] == before[i]);
                    if j < out.len() - 1 {
                        assert(out[j] == before[j]);
                    } else {
                        assert(holds(before, before[i].0, before[i].1));
                        assert(holds(init, before[i].0, before[i].1));
                        let m = choose|m: int| 0 <= m < init.len() && #[trigger] init[m] == (before[i].0, before[i].1);
                        assert(rows[m] == init[m]);
                        assert(key_lt(rows[m].0, rows[rows.len() - 1].0));
                    }
                }
            }
        } else if ascending(rows) {
            assert(ascending(init)) by {
                assert forall|i: int, j: int| 0 <= i < j < init.len() implies key_lt(
                    (#[trigger] init[i]).0,
                    (#[trigger] init[j]).0,
                ) by {
                    assert(init[i] == rows[i] && init[j] == rows[j]);
                }
            }
        }
    }
}

/// The value under a key among rows.
pub open spec fn value_in(rows: Seq<(Seq<u8>, Seq<u8>)>, key: Seq<u8>) -> Option<Seq<u8>> {
    if exists|value: Seq<u8>| holds(rows, key, value) {
        Some(choose|value: Seq<u8>| holds(rows, key, value))
    } else {
        None
    }
}

/// Whether what was gathered is true of the rows so far: the entries are among
/// them, and there is none between two that are next to each other.
pub open spec fn gathered_from(g: Gathered, rows: Seq<(Seq<u8>, Seq<u8>)>) -> bool {
    &&& forall|i: int| 0 <= i < g.rows.len() ==> holds(rows, (#[trigger] g.rows[i]).0, g.rows[i].1)
    &&& forall|i: int, j: int| 0 <= i < j < g.rows.len() ==> key_lt((#[trigger] g.rows[i]).0, (#[trigger] g.rows[j]).0)
    &&& forall|i: int, j: int|
        0 <= i < g.rows.len() && g.rows[i].2 && 0 <= j < rows.len() && key_lt((#[trigger] rows[j]).0, (#[trigger] g.rows[i]).0)
            ==> i > 0 && !key_lt(g.rows[i - 1].0, rows[j].0)
    &&& g.right_edge ==> forall|j: int|
        0 <= j < rows.len() ==> g.rows.len() > 0 && !key_lt(g.rows.last().0, (#[trigger] rows[j]).0)
}

/// Hidden rows.
proof fn lemma_gather_hidden(g: Gathered, rows: Seq<(Seq<u8>, Seq<u8>)>, more: Seq<(Seq<u8>, Seq<u8>)>)
    requires
        gathered_from(g, rows),
        ascending(rows + more),
    ensures
        gathered_from(Gathered { rows: g.rows, right_edge: false }, rows + more),
{
    let all = rows + more;
    assert forall|i: int| 0 <= i < g.rows.len() implies holds(all, (#[trigger] g.rows[i]).0, g.rows[i].1) by {
        let j = choose|j: int| 0 <= j < rows.len() && #[trigger] rows[j] == (g.rows[i].0, g.rows[i].1);
        assert(all[j] == rows[j]);
    }
    assert forall|i: int, j: int|
        0 <= i < g.rows.len() && g.rows[i].2 && 0 <= j < all.len() && key_lt(
            (#[trigger] all[j]).0,
            (#[trigger] g.rows[i]).0,
        ) implies i > 0 && !key_lt(g.rows[i - 1].0, all[j].0) by {
        let h = choose|h: int| 0 <= h < rows.len() && #[trigger] rows[h] == (g.rows[i].0, g.rows[i].1);
        assert(all[h] == rows[h]);
        if j < rows.len() {
            assert(all[j] == rows[j]);
        } else {
            assert(key_lt(all[h].0, all[j].0));
            lemma_key_lt_total(all[h].0, all[j].0);
        }
    }
}

/// An entry that is shown.
proof fn lemma_gather_entry(g: Gathered, rows: Seq<(Seq<u8>, Seq<u8>)>, k: Seq<u8>, v: Seq<u8>)
    requires
        gathered_from(g, rows),
        ascending(rows.push((k, v))),
        gather(g, Shown::KV(k, v)) is Ok,
    ensures
        gathered_from(gather(g, Shown::KV(k, v))->Ok_0, rows.push((k, v))),
{
    let all = rows.push((k, v));
    let g2 = gather(g, Shown::KV(k, v))->Ok_0;
    let n = g.rows.len() as int;
    lemma_key_lt_total(k, k);
    assert forall|i: int| 0 <= i < g2.rows.len() implies holds(all, (#[trigger] g2.rows[i]).0, g2.rows[i].1) by {
        if i < n {
            assert(g2.rows[i] == g.rows[i]);
            let j = choose|j: int| 0 <= j < rows.len() && #[trigger] rows[j] == (g.rows[i].0, g.rows[i].1);
            assert(all[j] == rows[j]);
        } else {
            assert(all[rows.len() as int] == (k, v));
        }
    }
    assert forall|i: int, j: int| 0 <= i < j < g2.rows.len() implies key_lt(
        (#[trigger] g2.rows[i]).0,
        (#[trigger] g2.rows[j]).0,
    ) by {
        assert(g2.rows[i] == g.rows[i]);
        if j < n {
            assert(g2.rows[j] == g.rows[j]);
        } else if i < n - 1 {
            assert(key_lt(g.rows[i].0, g.rows[n - 1].0));
            lemma_key_lt_trans(g.rows[i].0, g.rows[n - 1].0, k);
        }
    }
    assert forall|i: int, j: int|
        0 <= i < g2.rows.len() && g2.rows[i].2 && 0 <= j < all.len() && key_lt(
            (#[trigger] all[j]).0,
            (#[trigger] g2.rows[i]).0,
        ) implies i > 0 && !key_lt(g2.rows[i - 1].0, all[j].0) by {
        if j == rows.len() {
            if i < n {
                let h = choose|h: int| 0 <= h < rows.len() && #[trigger] rows[h] == (g.rows[i].0, g.rows[i].1);
                assert(all[h] == rows[h]);
                assert(key_lt(all[h].0, all[j].0));
                lemma_key_lt_total(all[h].0, k);
            }
        } else {
            assert(all[j] == rows[j]);
            if i < n {
                assert(g2.rows[i] == g.rows[i]);
            }
        }
    }
    assert forall|j: int| 0 <= j < all.len() implies g2.rows.len() > 0 && !key_lt(g2.rows.last().0, (#[trigger] all[j]).0) by {
        if j < rows.len() {
            assert(key_lt(all[j].0, all[rows.len() as int].0));
            lemma_key_lt_total(all[j].0, k);
        }
    }
}

/// Gathering what is shown of a tree.
pub proof fn lemma_gather_part(p: Partial, t: Bst, g: Gathered, rows: Seq<(Seq<u8>, Seq<u8>)>)
    requires
        sane(p),
        part_of(p, t),
        gathered_from(g, rows),
        ascending(rows + t.entries()),
        folded(gather_rule(), g, p.walk()) is Ok,
    ensures
        gathered_from(folded(gather_rule(), g, p.walk())->Ok_0, rows + t.entries()),
    decreases p,
{
    let rule = gather_rule();
    match p {
        Partial::Missing => {
            assert(rows + t.entries() =~= rows);
        },
        Partial::Node { node, left, right } => {
            if let Shown::NodeHash(h) = node {
                assert(p.walk() =~= seq![node]);
                assert(seq![node].drop_last() =~= Seq::empty());
                reveal_with_fuel(folded, 2);
                lemma_gather_hidden(g, rows, t.entries());
            } else if let Bst::Node { key, value, left: l, right: r } = t {
                let a = l.entries();
                let b = seq![(key, value)];
                let d = r.entries();
                assert(rows + t.entries() =~= rows + a + b + d);
                lemma_ascending_parts(rows + a + b, d);
                lemma_ascending_parts(rows + a, b);
                lemma_folded_add(rule, g, left.walk() + seq![node], right.walk());
                lemma_folded_add(rule, g, left.walk(), seq![node]);
                lemma_gather_part(*left, *l, g, rows);
                let g1 = folded(rule, g, left.walk())->Ok_0;
                assert(seq![node].drop_last() =~= Seq::empty());
                reveal_with_fuel(folded, 2);
                let g2 = folded(rule, g1, seq![node])->Ok_0;
                assert(Ok::<Gathered, Fault>(g2) == gather(g1, node));
                match node {
                    Shown::KV(k, v) => {
                        assert((rows + a).push((k, v)) =~= rows + a + b);
                        lemma_gather_entry(g1, rows + a, k, v);
                    },
                    _ => {
                        lemma_gather_hidden(g1, rows + a, b);
                    },
                }
                lemma_gather_part(*right, *r, g2, rows + a + b);
            }
        },
    }
}

/// The entries before the place of a key come before it.
pub proof fn lemma_place_from(g: Gathered, key: Seq<u8>, i: int)
    requires
        0 <= i <= g.rows.len(),
        forall|j: int| 0 <= j < i ==> key_lt((#[trigger] g.rows[j]).0, key),
    ensures
        i <= place_from(g, key, i) <= g.rows.len(),
        forall|j: int| 0 <= j < place_from(g, key, i) ==> key_lt((#[trigger] g.rows[j]).0, key),
        place_from(g, key, i) < g.rows.len() ==> !key_lt(g.rows[place_from(g, key, i)].0, key),
    decreases g.rows.len() - i,
{
    if i < g.rows.len() && key_lt(g.rows[i].0, key) {
        lemma_place_from(g, key, i + 1);
    }
}

/// What a proof that was checked against the hash of a tree shows is true of the tree.
proof fn lemma_gathered(p: Partial, g: Gathered, bytes: Seq<u8>, t: Bst)
    requires
        built(gather_rule(), bytes, gathered_start()) == Ok::<(Partial, Gathered), Fault>((p, g)),
        p.hash() == t.hash(),
        t.fits(),
        ascending(t.entries()),
        no_tree_collision(p, t),
    ensures
        gathered_from(g, t.entries()),
{
    let rule = gather_rule();
    let start = gathered_start();
    assert(stack_walk(machine_start().stack) =~= Seq::empty());
    lemma_executed_walk(rule, start, bytes, machine_start(), start);
    lemma_executed_fits(rule, bytes, machine_start(), start);
    let (m, s) = executed(rule, bytes, machine_start(), start)->Ok_0;
    lemma_stack_walk_push(Seq::empty(), p);
    assert(m.stack =~= Seq::<Partial>::empty().push(p));
    assert(stack_walk(Seq::<Partial>::empty()) =~= Seq::empty());
    assert(Seq::<Shown>::empty() + p.walk() =~= p.walk());
    assert(sane(m.stack[0]));
    assert(part_fits(m.stack[0]));
    law_same_hash_is_part(p, t);
    let none = Seq::<(Seq<u8>, Seq<u8>)>::empty();
    let rows = t.entries();
    assert(none + rows =~= rows);
    lemma_gather_part(p, t, start, none);
}

/// What is known of a key from a proof that was checked against the hash of a
/// tree is true of the tree, unless SHA-256 collides on what the proof and the
/// tree are hashed from.
pub proof fn law_known_values_are_true(p: Partial, g: Gathered, bytes: Seq<u8>, t: Bst, key: Seq<u8>)
    requires
        built(gather_rule(), bytes, gathered_start()) == Ok::<(Partial, Gathered), Fault>((p, g)),
        p.hash() == t.hash(),
        t.fits(),
        ascending(t.entries()),
        no_tree_collision(p, t),
        known_value(g, key) is Ok,
    ensures
        known_value(g, key) == Ok::<Option<Seq<u8>>, Fault>(value_in(t.entries(), key)),
{
    let rows = t.entries();
    lemma_gathered(p, g, bytes, t);
    lemma_place_from(g, key, 0);
    let i = place_from(g, key, 0);
    if i < g.rows.len() && g.rows[i].0 == key {
        assert(holds(rows, key, g.rows[i].1));
        let v = choose|value: Seq<u8>| holds(rows, key, value);
        let a = choose|a: int| 0 <= a < rows.len() && #[trigger] rows[a] == (key, g.rows[i].1);
        let b = choose|b: int| 0 <= b < rows.len() && #[trigger] rows[b] == (key, v);
        lemma_key_lt_total(key, key);
        if a < b {
            assert(key_lt(rows[a].0, rows[b].0));
        } else if b < a {
            assert(key_lt(rows[b].0, rows[a].0));
        }
    } else if exists|value: Seq<u8>| holds(rows, key, value) {
        let v = choose|value: Seq<u8>| holds(rows, key, value);
        let j = choose|j: int| 0 <= j < rows.len() && #[trigger] rows[j] == (key, v);
        if i < g.rows.len() {
            lemma_key_lt_total(key, g.rows[i].0);
            assert(key_lt(rows[j].0, g.rows[i].0));
            assert(key_lt(g.rows[i - 1].0, key));
        } else {
            assert(!key_lt(g.rows.last().0, rows[j].0));
            assert(key_lt(g.rows[i - 1].0, key));
        }
    }
}

/// Whether the rows are those of `all` that an item asks for, from the place
/// `i` of what was gathered on; `first` if none came before.
pub open spec fn rows_from_place(
    rows: Seq<(Seq<u8>, Seq<u8>)>,
    all: Seq<(Seq<u8>, Seq<u8>)>,
    g: Gathered,
    item: QueryPart,
    i: int,
    first: bool,
) -> bool {
    &&& ascending(rows)
    &&& forall|k: Seq<u8>, v: Seq<u8>| #[trigger]
        holds(rows, k, v) <==> holds(all, k, v) && item.covers(k) && (first || key_lt(g.rows[i - 1].0, k))
}

/// What is known of the entries of an item from a place on.
#[verifier::spinoff_prover]
#[verifier::rlimit(40)]
pub proof fn lemma_known_rows(g: Gathered, all: Seq<(Seq<u8>, Seq<u8>)>, item: QueryPart, i: int, first: bool)
    requires
        gathered_from(g, all),
        ascending(all),
        known_rows(g, item, i, first) is Ok,
        0 <= i <= g.rows.len(),
        first ==> forall|j: int| 0 <= j < i ==> key_lt((#[trigger] g.rows[j]).0, item.lower()),
        first && i < g.rows.len() ==> !key_lt(g.rows[i].0, item.lower()),
        !first ==> i > 0 && item.covers(g.rows[i - 1].0),
    ensures
        rows_from_place(known_rows(g, item, i, first)->Ok_0, all, g, item, i, first),
    decreases g.rows.len() - i,
{
    let rows = known_rows(g, item, i, first)->Ok_0;
    if i >= g.rows.len() {
        assert forall|k: Seq<u8>, v: Seq<u8>| holds(all, k, v) && item.covers(k) implies !first && !key_lt(
            g.rows[i - 1].0,
            k,
        ) by {
            let j = choose|j: int| 0 <= j < all.len() && #[trigger] all[j] == (k, v);
            assert(!key_lt(g.rows.last().0, all[j].0));
            if first {
                assert(key_lt(g.rows[i - 1].0, item.lower()));
                lemma_key_lt_total(k, g.rows[i - 1].0);
                if k != g.rows[i - 1].0 {
                    lemma_key_lt_trans(k, g.rows[i - 1].0, item.lower());
                }
            }
        }
        assert(rows =~= Seq::empty());
    } else {
        let (key, value, next_to) = g.rows[i];
        assert(holds(all, key, value));
        lemma_key_lt_total(key, item.lower());
        if !first {
            assert(key_lt(g.rows[i - 1].0, key));
            lemma_key_lt_total(item.lower(), g.rows[i - 1].0);
            if key_lt(key, item.lower()) {
                lemma_key_lt_trans(g.rows[i - 1].0, key, item.lower());
            }
        }
        // Nothing that is asked for lies between the last place and this one.
        assert forall|k: Seq<u8>, v: Seq<u8>|
            holds(all, k, v) && item.covers(k) && (first || key_lt(g.rows[i - 1].0, k)) implies !key_lt(k, key) by {
            let j = choose|j: int| 0 <= j < all.len() && #[trigger] all[j] == (k, v);
            if key_lt(k, key) {
                if next_to {
                    assert(i > 0 && !key_lt(g.rows[i - 1].0, all[j].0));
                    assert(first);
                    assert(key_lt(g.rows[i - 1].0, item.lower()));
                    lemma_key_lt_total(k, g.rows[i - 1].0);
                    if k != g.rows[i - 1].0 {
                        lemma_key_lt_trans(k, g.rows[i - 1].0, item.lower());
                    }
                }
            }
        }
        if !item.covers(key) {
            assert forall|k: Seq<u8>, v: Seq<u8>|
                holds(all, k, v) && item.covers(k) && (first || key_lt(g.rows[i - 1].0, k)) implies false by {
                lemma_key_lt_total(k, key);
                lemma_key_lt_total(key, item.upper());
                lemma_key_lt_total(k, item.upper());
                if key_lt(key, k) {
                    if k != item.upper() {
                        lemma_key_lt_trans(key, k, item.upper());
                    }
                }
            }
            assert(rows =~= Seq::empty());
        } else if key == item.upper() {
            let one = seq![(key, value)];
            assert(rows =~= one);
            assert forall|k: Seq<u8>, v: Seq<u8>| #[trigger]
                holds(rows, k, v) <==> holds(all, k, v) && item.covers(k) && (first || key_lt(g.rows[i - 1].0, k)) by {
                if holds(all, k, v) && item.covers(k) && (first || key_lt(g.rows[i - 1].0, k)) {
                    lemma_key_lt_total(k, key);
                    lemma_same_value(all, key, value, v);
                    assert(rows[0] == (k, v));
                }
                if holds(rows, k, v) {
                    assert(rows[0] == (k, v));
                }
            }
        } else {
            lemma_known_rows(g, all, item, i + 1, false);
            let rest = known_rows(g, item, i + 1, false)->Ok_0;
            assert(rows =~= seq![(key, value)] + rest);
            assert forall|a: int, b: int| 0 <= a < b < rows.len() implies key_lt(
                (#[trigger] rows[a]).0,
                (#[trigger] rows[b]).0,
            ) by {
                assert(rows[b] == rest[b - 1]);
                assert(holds(rest, rest[b - 1].0, rest[b - 1].1));
                if a > 0 {
                    assert(rows[a] == rest[a - 1]);
                }
            }
            assert forall|k: Seq<u8>, v: Seq<u8>| #[trigger]
                holds(rows, k, v) <==> holds(all, k, v) && item.covers(k) && (first || key_lt(g.rows[i - 1].0, k)) by {
                if holds(all, k, v) && item.covers(k) && (first || key_lt(g.rows[i - 1].0, k)) {
                    lemma_key_lt_total(k, key);
                    if k == key {
                        lemma_same_value(all, key, value, v);
                        assert(rows[0] == (k, v));
                    } else {
                        assert(holds(rest, k, v));
                        let j = choose|j: int| 0 <= j < rest.len() && #[trigger] rest[j] == (k, v);
                        assert(rows[j + 1] == (k, v));
                    }
                }
                if holds(rows, k, v) {
                    let j = choose|j: int| 0 <= j < rows.len() && #[trigger] rows[j] == (k, v);
                    if j > 0 {
                        assert(rest[j - 1] == (k, v));
                        assert(holds(rest, k, v));
                        if !first {
                            lemma_key_lt_trans(g.rows[i - 1].0, key, k);
                        }
                    }
                }
            }
        }
    }
}

/// Rows that ascend hold one value at most under a key.
pub proof fn lemma_same_value(rows: Seq<(Seq<u8>, Seq<u8>)>, key: Seq<u8>, a: Seq<u8>, b: Seq<u8>)
    requires
        ascending(rows),
        holds(rows, key, a),
    ensures
        holds(rows, key, b) ==> a == b,
{
    if holds(rows, key, b) {
        let i = choose|i: int| 0 <= i < rows.len() && #[trigger] rows[i] == (key, a);
        let j = choose|j: int| 0 <= j < rows.len() && #[trigger] rows[j] == (key, b);
        lemma_key_lt_total(key, key);
        if i < j {
            assert(key_lt(rows[i].0, rows[j].0));
        } else if j < i {
            assert(key_lt(rows[j].0, rows[i].0));
        }
    }
}

/// What is known of the entries of an item from a proof that was checked
/// against the hash of a tree are just the entries of the tree that the item
/// asks for, in order, unless SHA-256 collides on what the proof and the tree
/// are hashed from.
pub proof fn law_known_rows_are_true(p: Partial, g: Gathered, bytes: Seq<u8>, t: Bst, item: QueryPart)
    requires
        built(gather_rule(), bytes, gathered_start()) == Ok::<(Partial, Gathered), Fault>((p, g)),
        p.hash() == t.hash(),
        t.fits(),
        ascending(t.entries()),
        no_tree_collision(p, t),
        known_rows(g, item, place_from(g, item.lower(), 0), true) is Ok,
    ensures
        ({
            let rows = known_rows(g, item, place_from(g, item.lower(), 0), true)->Ok_0;
            &&& ascending(rows)
            &&& forall|k: Seq<u8>, v: Seq<u8>| #[trigger]
                holds(rows, k, v) <==> holds(t.entries(), k, v) && item.covers(k)
        }),
{
    lemma_gathered(p, g, bytes, t);
    lemma_place_from(g, item.lower(), 0);
    lemma_known_rows(g, t.entries(), item, place_from(g, item.lower(), 0), true);
}

} // verus!
