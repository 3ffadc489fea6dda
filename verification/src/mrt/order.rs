//! Scans of complete tries: in order, and nothing left out.

use vstd::prelude::*;

use crate::bits::{key_lt, lemma_key_ext, lemma_key_order, lemma_lcp, lemma_lcp_is, lemma_route_lt, padded, route_lt};
use crate::error::Fault;
use crate::mrt::contents::{begins, lemma_lookup_below, lemma_place, lemma_split};
use crate::mrt::cursor::{read_prefix, read_range, read_range_inclusive};
use crate::mrt::keys::{contents, key_between, lemma_route_of_pack, sound};
use crate::mrt::model::{place, window, BoundPosition, Trie};
use crate::mrt::route::{agrees, route, MAX_KEY_LEN};
use crate::mrt::scan::{drain, entry, flat, from_bound, scan_root, up_to_bound, Item, Until};
use crate::mrt::tree::lemma_relative_order;
use crate::tracer::{lemma_prefix_range, successor};

verus! {

/// The dictionary order is transitive.
pub proof fn lemma_route_lt_trans(a: Seq<bool>, b: Seq<bool>, c: Seq<bool>)
    requires
        route_lt(a, b),
        route_lt(b, c),
    ensures
        route_lt(a, c),
    decreases a.len(),
{
    if a.len() > 0 && a[0] == b[0] && b[0] == c[0] {
        lemma_route_lt_trans(a.skip(1), b.skip(1), c.skip(1));
    }
}

/// Of two different bit strings one comes first; none comes before itself.
pub proof fn lemma_route_lt_total(a: Seq<bool>, b: Seq<bool>)
    ensures
        a == b || route_lt(a, b) || route_lt(b, a),
        !(route_lt(a, b) && route_lt(b, a)),
        !route_lt(a, a),
    decreases a.len(),
{
    if a.len() > 0 {
        lemma_route_lt_total(a.skip(1), a.skip(1));
    }
    if a.len() > 0 && b.len() > 0 && a[0] == b[0] {
        lemma_route_lt_total(a.skip(1), b.skip(1));
        if a.skip(1) == b.skip(1) {
            assert(a =~= seq![a[0]] + a.skip(1));
            assert(b =~= seq![b[0]] + b.skip(1));
        }
    }
    if a.len() == 0 && b.len() == 0 {
        assert(a =~= b);
    }
}

/// The order of keys is transitive.
pub proof fn lemma_key_lt_trans(a: Seq<u8>, b: Seq<u8>, c: Seq<u8>)
    requires
        key_lt(a, b),
        key_lt(b, c),
    ensures
        key_lt(a, c),
{
    lemma_key_order(a, b);
    lemma_key_order(b, c);
    lemma_key_order(a, c);
    lemma_route_lt_trans(route(a), route(b), route(c));
}

/// Of two different keys one comes first; none comes before itself.
pub proof fn lemma_key_lt_total(a: Seq<u8>, b: Seq<u8>)
    ensures
        a == b || key_lt(a, b) || key_lt(b, a),
        !(key_lt(a, b) && key_lt(b, a)),
        !key_lt(a, a),
{
    lemma_key_order(a, b);
    lemma_key_order(b, a);
    lemma_key_order(a, a);
    lemma_route_lt_total(route(a), route(b));
    if route(a) == route(b) {
        lemma_key_ext(a, b);
    }
}

/// The route of an item.
pub open spec fn item_route(i: Item) -> Seq<bool> {
    match i {
        Item::Entry { route, value } => route,
        Item::Hole => Seq::empty(),
    }
}

/// Whether an item is an entry of a trie.
pub open spec fn is_entry(i: Item, t: Trie, prefix: Seq<bool>) -> bool {
    i matches Item::Entry { route, value } && {
        &&& begins(route, prefix)
        &&& route.len() % 8 == 0
        &&& t.lookup(route.skip(prefix.len() as int)) == Some(value)
    }
}

/// What a complete trie is made of are entries of it.
pub proof fn lemma_flat_entries(t: Trie, prefix: Seq<bool>)
    requires
        t.complete(prefix.len() as int),
    ensures
        forall|i: int| 0 <= i < flat(t, prefix).len() ==> is_entry(#[trigger] flat(t, prefix)[i], t, prefix),
    decreases t,
{
    let f = flat(t, prefix);
    match t {
        Trie::Leaf { skip, value } => {
            assert((prefix + skip).take(prefix.len() as int) =~= prefix);
            assert((prefix + skip).skip(prefix.len() as int) =~= skip);
        },
        Trie::Branch { skip, left, right } => {
            let pl = prefix + skip + seq![false];
            let pr = prefix + skip + seq![true];
            let a = flat(*left, pl);
            let b = flat(*right, pr);
            assert(pl.len() == prefix.len() + skip.len() + 1);
            lemma_flat_entries(*left, pl);
            lemma_flat_entries(*right, pr);
            assert forall|i: int| 0 <= i < f.len() implies is_entry(#[trigger] f[i], t, prefix) by {
                if i < a.len() {
                    assert(f[i] == a[i]);
                    lemma_child_entry(f[i], t, prefix, skip, *left, *right, false);
                } else {
                    assert(f[i] == b[i - a.len()]);
                    lemma_child_entry(f[i], t, prefix, skip, *left, *right, true);
                }
            }
        },
        Trie::Pruned { hash, depth } => {},
    }
}

proof fn lemma_child_entry(i: Item, t: Trie, prefix: Seq<bool>, skip: Seq<bool>, left: Trie, right: Trie, side: bool)
    requires
        t == (Trie::Branch { skip, left: Box::new(left), right: Box::new(right) }),
        is_entry(
            i,
            if side {
                right
            } else {
                left
            },
            prefix + skip + seq![side],
        ),
    ensures
        is_entry(i, t, prefix),
{
    let r = item_route(i);
    let p = prefix + skip + seq![side];
    let n = prefix.len() as int;
    assert(r.take(n) =~= prefix) by {
        assert forall|j: int| 0 <= j < n implies r[j] == prefix[j] by {
            assert(r.take(p.len() as int)[j] == p[j]);
        }
    }
    let q = r.skip(n);
    let q2 = r.skip(p.len() as int);
    assert(q =~= skip + seq![side] + q2) by {
        assert forall|j: int| 0 <= j < skip.len() + 1 implies q[j] == (skip + seq![side])[j] by {
            assert(r.take(p.len() as int)[n + j] == p[n + j]);
        }
    }
    lemma_lookup_below(skip, left, right, side, q2);
}

/// Every stored route is among what a trie is made of.
pub proof fn lemma_flat_has(t: Trie, prefix: Seq<bool>, q: Seq<bool>) -> (i: int)
    requires
        t.lookup(q) is Some,
    ensures
        0 <= i < flat(t, prefix).len(),
        flat(t, prefix)[i] == (Item::Entry { route: prefix + q, value: t.lookup(q)->0 }),
    decreases t,
{
    match t {
        Trie::Leaf { skip, value } => 0,
        Trie::Branch { skip, left, right } => {
            let n = skip.len() as int;
            let a = flat(*left, prefix + skip + seq![false]);
            lemma_split(skip, q);
            if q[n] {
                let j = lemma_flat_has(*right, prefix + skip + seq![true], q.skip(n + 1));
                assert(prefix + skip + seq![true] + q.skip(n + 1) =~= prefix + q);
                a.len() + j
            } else {
                let j = lemma_flat_has(*left, prefix + skip + seq![false], q.skip(n + 1));
                assert(prefix + skip + seq![false] + q.skip(n + 1) =~= prefix + q);
                j
            }
        },
        Trie::Pruned { hash, depth } => 0,
    }
}

/// Whether items are sorted by their routes.
pub open spec fn sorted(items: Seq<Item>) -> bool {
    forall|i: int, j: int|
        0 <= i < j < items.len() ==> route_lt(item_route(#[trigger] items[i]), item_route(#[trigger] items[j]))
}

/// Bit strings that part at a bit are ordered by it.
proof fn lemma_parted_order(p: Seq<bool>, a: Seq<bool>, b: Seq<bool>)
    requires
        begins(a, p + seq![false]),
        begins(b, p + seq![true]),
    ensures
        route_lt(a, b),
{
    let n = p.len();
    assert forall|i: int| 0 <= i < n implies a[i] == b[i] by {
        assert(a.take(n as int + 1)[i] == (p + seq![false])[i]);
        assert(b.take(n as int + 1)[i] == (p + seq![true])[i]);
    }
    assert(a.take(n as int + 1)[n as int] == false);
    assert(b.take(n as int + 1)[n as int] == true);
    lemma_lcp_is(a, b, n);
    lemma_route_lt(a, b);
}

/// What a complete trie is made of is sorted.
pub proof fn lemma_flat_sorted(t: Trie, prefix: Seq<bool>)
    requires
        t.complete(prefix.len() as int),
    ensures
        sorted(flat(t, prefix)),
    decreases t,
{
    if let Trie::Branch { skip, left, right } = t {
        let pl = prefix + skip + seq![false];
        let pr = prefix + skip + seq![true];
        assert(pl.len() == prefix.len() + skip.len() + 1);
        lemma_flat_sorted(*left, pl);
        lemma_flat_sorted(*right, pr);
        lemma_flat_entries(*left, pl);
        lemma_flat_entries(*right, pr);
        let a = flat(*left, pl);
        let b = flat(*right, pr);
        let f = flat(t, prefix);
        assert forall|i: int, j: int| 0 <= i < j < f.len() implies route_lt(
            item_route(#[trigger] f[i]),
            item_route(#[trigger] f[j]),
        ) by {
            if j < a.len() {
                assert(f[i] == a[i] && f[j] == a[j]);
            } else if i >= a.len() {
                assert(f[i] == b[i - a.len()] && f[j] == b[j - a.len()]);
            } else {
                assert(f[i] == a[i] && f[j] == b[j - a.len()]);
                lemma_parted_order(prefix + skip, item_route(a[i]), item_route(b[j - a.len()]));
            }
        }
    }
}

/// Items that split at a bound: `n` come before it, the others do not.
pub open spec fn splits(items: Seq<Item>, k: Seq<bool>, n: int) -> bool {
    &&& 0 <= n <= items.len()
    &&& forall|i: int| 0 <= i < n ==> route_lt(item_route(#[trigger] items[i]), k)
    &&& forall|i: int| n <= i < items.len() ==> !route_lt(item_route(#[trigger] items[i]), k)
}

/// How an entry below a branch compares with a bound, by where the bound lies.
proof fn lemma_item_place(i: Item, skip: Seq<bool>, side: bool, child: Trie, prefix: Seq<bool>, k: Seq<bool>)
    requires
        agrees(prefix, k, 0),
        is_entry(i, child, prefix + skip + seq![side]),
    ensures
        match place(skip, k, prefix.len() as int) {
            BoundPosition::Before => !route_lt(item_route(i), k),
            BoundPosition::After => route_lt(item_route(i), k),
            BoundPosition::InLeft => side ==> !route_lt(item_route(i), k),
            BoundPosition::InRight => !side ==> route_lt(item_route(i), k),
        },
        match place(skip, k, prefix.len() as int) {
            BoundPosition::Before => item_route(i) != k,
            BoundPosition::After => item_route(i) != k,
            BoundPosition::InLeft => side ==> item_route(i) != k,
            BoundPosition::InRight => !side ==> item_route(i) != k,
        },
{
    let r = item_route(i);
    let p = prefix + skip + seq![side];
    let n = prefix.len() as int;
    let q = r.skip(n);
    assert(r =~= prefix + q) by {
        assert forall|j: int| 0 <= j < n implies r[j] == prefix[j] by {
            assert(r.take(p.len() as int)[j] == p[j]);
        }
    }
    assert forall|j: int| 0 <= j < skip.len() + 1 implies q[j] == (skip + seq![side])[j] by {
        assert(r.take(p.len() as int)[n + j] == p[n + j]);
    }
    assert(q.take(skip.len() as int) =~= skip);
    lemma_relative_order(prefix, q, k);
    lemma_place(skip, k, n, q);
    lemma_route_lt_total(r, k);
    if r == k {
        // A bound that is the entry itself lies on its own side.
        let w = window(k, n, skip.len());
        assert forall|j: int| 0 <= j < skip.len() implies skip[j] == w[j] by {
            assert(k[n + j] == q[j]);
        }
        lemma_lcp_is(skip, w, skip.len());
        assert(padded(k, n + skip.len()) == side) by {
            assert(k[n + skip.len()] == q[skip.len() as int]);
        }
    }
}

/// The path to a child that a bound lies in agrees with the bound.
proof fn lemma_agrees_below(prefix: Seq<bool>, skip: Seq<bool>, side: bool, k: Seq<bool>)
    requires
        agrees(prefix, k, 0),
        place(skip, k, prefix.len() as int) == (if side {
            BoundPosition::InRight
        } else {
            BoundPosition::InLeft
        }),
    ensures
        agrees(prefix + skip + seq![side], k, 0),
{
    let d = prefix.len() as int;
    let w = window(k, d, skip.len());
    let whole = prefix + skip + seq![side];
    lemma_lcp(skip, w);
    assert forall|i: int| 0 <= i < whole.len() implies #[trigger] whole[i] == padded(k, 0 + i) by {
        if i < d {
            assert(prefix[i] == padded(k, 0 + i));
        } else if i < d + skip.len() {
            assert(skip[i - d] == w[i - d]);
            assert(w[i - d] == padded(k, d + (i - d)));
        }
    }
}

/// A scan from a bound on begins where the items split.
pub proof fn lemma_from_bound(t: Trie, prefix: Seq<bool>, k: Seq<bool>) -> (n: int)
    requires
        t.complete(prefix.len() as int),
        agrees(prefix, k, 0),
    ensures
        splits(flat(t, prefix), k, n),
        from_bound(t, prefix, k) == Ok::<Seq<Item>, Fault>(flat(t, prefix).skip(n)),
    decreases t,
{
    let f = flat(t, prefix);
    match t {
        Trie::Leaf { skip, value } => {
            if route_lt(prefix + skip, k) {
                assert(f.skip(1) =~= Seq::empty());
                1
            } else {
                assert(f.skip(0) =~= f);
                0
            }
        },
        Trie::Branch { skip, left, right } => {
            let pl = prefix + skip + seq![false];
            let pr = prefix + skip + seq![true];
            assert(pl.len() == prefix.len() + skip.len() + 1);
            let a = flat(*left, pl);
            let b = flat(*right, pr);
            lemma_flat_entries(*left, pl);
            lemma_flat_entries(*right, pr);
            assert forall|i: int| 0 <= i < a.len() implies (match place(skip, k, prefix.len() as int) {
                BoundPosition::Before => !route_lt(item_route(#[trigger] a[i]), k),
                BoundPosition::After => route_lt(item_route(a[i]), k),
                BoundPosition::InLeft => true,
                BoundPosition::InRight => route_lt(item_route(a[i]), k),
            }) by {
                lemma_item_place(a[i], skip, false, *left, prefix, k);
            }
            assert forall|i: int| 0 <= i < b.len() implies (match place(skip, k, prefix.len() as int) {
                BoundPosition::Before => !route_lt(item_route(#[trigger] b[i]), k),
                BoundPosition::After => route_lt(item_route(b[i]), k),
                BoundPosition::InLeft => !route_lt(item_route(b[i]), k),
                BoundPosition::InRight => true,
            }) by {
                lemma_item_place(b[i], skip, true, *right, prefix, k);
            }
            assert forall|i: int| a.len() <= i < f.len() implies #[trigger] f[i] == b[i - a.len()] by {}
            match place(skip, k, prefix.len() as int) {
                BoundPosition::Before => {
                    assert(f.skip(0) =~= f);
                    0
                },
                BoundPosition::After => {
                    assert(f.skip(f.len() as int) =~= Seq::empty());
                    f.len() as int
                },
                BoundPosition::InLeft => {
                    lemma_agrees_below(prefix, skip, false, k);
                    let n = lemma_from_bound(*left, pl, k);
                    assert(f.skip(n) =~= a.skip(n) + b);
                    n
                },
                BoundPosition::InRight => {
                    lemma_agrees_below(prefix, skip, true, k);
                    let n = lemma_from_bound(*right, pr, k);
                    assert(f.skip(a.len() + n) =~= b.skip(n));
                    a.len() + n
                },
            }
        },
        Trie::Pruned { hash, depth } => 0,
    }
}

/// Items that split at an upper bound: `n` do not lie past it, the others do.
pub open spec fn splits_up(items: Seq<Item>, k: Seq<bool>, strict: bool, n: int) -> bool {
    &&& 0 <= n <= items.len()
    &&& forall|i: int|
        0 <= i < n ==> route_lt(item_route(#[trigger] items[i]), k) || (!strict && item_route(items[i]) == k)
    &&& forall|i: int|
        n <= i < items.len() ==> !(route_lt(item_route(#[trigger] items[i]), k) || (!strict && item_route(items[i]) == k))
}

/// A scan backwards from a bound begins where the items split.
pub proof fn lemma_up_to_bound(t: Trie, prefix: Seq<bool>, k: Seq<bool>, strict: bool) -> (n: int)
    requires
        t.complete(prefix.len() as int),
        agrees(prefix, k, 0),
    ensures
        splits_up(flat(t, prefix), k, strict, n),
        up_to_bound(t, prefix, k, strict) == Ok::<Seq<Item>, Fault>(flat(t, prefix).take(n).reverse()),
    decreases t,
{
    let f = flat(t, prefix);
    match t {
        Trie::Leaf { skip, value } => {
            if route_lt(prefix + skip, k) || (!strict && prefix + skip == k) {
                assert(f.take(1).reverse() =~= f);
                1
            } else {
                assert(f.take(0).reverse() =~= Seq::empty());
                0
            }
        },
        Trie::Branch { skip, left, right } => {
            let pl = prefix + skip + seq![false];
            let pr = prefix + skip + seq![true];
            assert(pl.len() == prefix.len() + skip.len() + 1);
            let a = flat(*left, pl);
            let b = flat(*right, pr);
            lemma_flat_entries(*left, pl);
            lemma_flat_entries(*right, pr);
            assert forall|i: int| 0 <= i < a.len() implies (match place(skip, k, prefix.len() as int) {
                BoundPosition::Before => !route_lt(item_route(#[trigger] a[i]), k) && item_route(a[i]) != k,
                BoundPosition::After => route_lt(item_route(a[i]), k),
                BoundPosition::InLeft => true,
                BoundPosition::InRight => route_lt(item_route(a[i]), k),
            }) by {
                lemma_item_place(a[i], skip, false, *left, prefix, k);
            }
            assert forall|i: int| 0 <= i < b.len() implies (match place(skip, k, prefix.len() as int) {
                BoundPosition::Before => !route_lt(item_route(#[trigger] b[i]), k) && item_route(b[i]) != k,
                BoundPosition::After => route_lt(item_route(b[i]), k),
                BoundPosition::InLeft => !route_lt(item_route(b[i]), k) && item_route(b[i]) != k,
                BoundPosition::InRight => true,
            }) by {
                lemma_item_place(b[i], skip, true, *right, prefix, k);
            }
            assert forall|i: int| a.len() <= i < f.len() implies #[trigger] f[i] == b[i - a.len()] by {}
            match place(skip, k, prefix.len() as int) {
                BoundPosition::After => {
                    assert(f.take(f.len() as int) =~= f);
                    f.len() as int
                },
                BoundPosition::Before => {
                    assert(f.take(0).reverse() =~= Seq::empty());
                    0
                },
                BoundPosition::InRight => {
                    lemma_agrees_below(prefix, skip, true, k);
                    let n = lemma_up_to_bound(*right, pr, k, strict);
                    assert(f.take(a.len() + n) =~= a + b.take(n));
                    crate::mrt::cursor::lemma_reverse_add(a, b.take(n));
                    a.len() + n
                },
                BoundPosition::InLeft => {
                    lemma_agrees_below(prefix, skip, false, k);
                    let n = lemma_up_to_bound(*left, pl, k, strict);
                    assert(f.take(n) =~= a.take(n));
                    n
                },
            }
        },
        Trie::Pruned { hash, depth } => 0,
    }
}

/// Entries as rows.
pub open spec fn rows_from(items: Seq<Item>) -> Seq<(Seq<u8>, Seq<u8>)> {
    items.map_values(|i: Item| entry(i)->Ok_0)
}

/// A scan over entries gives those before the first that it stops at.
pub proof fn lemma_drain_rows(items: Seq<Item>, until: Until) -> (n: int)
    requires
        forall|i: int| 0 <= i < items.len() ==> entry(#[trigger] items[i]) is Ok,
    ensures
        0 <= n <= items.len(),
        drain(items, until).rows == rows_from(items.take(n)),
        !(drain(items, until).end is Failed),
        forall|i: int| 0 <= i < n ==> !until.fires(entry(#[trigger] items[i])->Ok_0.0),
        n < items.len() ==> until.fires(entry(items[n])->Ok_0.0),
        n == items.len() <==> drain(items, until).end is Exhausted,
    decreases items.len(),
{
    if items.len() == 0 {
        assert(rows_from(items.take(0)) =~= Seq::empty());
        0
    } else {
        let e = entry(items[0])->Ok_0;
        if until.fires(e.0) {
            assert(rows_from(items.take(0)) =~= Seq::empty());
            0
        } else {
            let tail = items.skip(1);
            assert forall|i: int| 0 <= i < tail.len() implies entry(#[trigger] tail[i]) is Ok by {
                assert(tail[i] == items[i + 1]);
            }
            let n = lemma_drain_rows(tail, until);
            assert(rows_from(items.take(n + 1)) =~= seq![e] + rows_from(tail.take(n)));
            assert forall|i: int| 0 <= i < n + 1 implies !until.fires(entry(#[trigger] items[i])->Ok_0.0) by {
                if i > 0 {
                    assert(items[i] == tail[i - 1]);
                }
            }
            if n + 1 < items.len() {
                assert(items[n + 1] == tail[n]);
            }
            n + 1
        }
    }
}

/// Rows that list a store: sorted by key, and exactly what is stored.
pub open spec fn lists(rows: Seq<(Seq<u8>, Seq<u8>)>, m: Map<Seq<u8>, Seq<u8>>) -> bool {
    &&& forall|i: int, j: int| 0 <= i < j < rows.len() ==> key_lt((#[trigger] rows[i]).0, (#[trigger] rows[j]).0)
    &&& forall|i: int| 0 <= i < rows.len() ==> m.dom().contains((#[trigger] rows[i]).0) && m[rows[i].0] == rows[i].1
    &&& forall|k: Seq<u8>| #[trigger] m.dom().contains(k) ==> exists|i: int| 0 <= i < rows.len() && (#[trigger] rows[i]).0 == k
}

/// The part of a store whose keys satisfy a condition.
pub open spec fn part(m: Map<Seq<u8>, Seq<u8>>, p: spec_fn(Seq<u8>) -> bool) -> Map<Seq<u8>, Seq<u8>> {
    m.restrict(Set::new(|k: Seq<u8>| p(k)))
}

/// Rows that list the part of a store that satisfies a condition hold the entries of
/// the store that do, each once, and no others.
pub proof fn law_listing_is_exact(
    rows: Seq<(Seq<u8>, Seq<u8>)>,
    m: Map<Seq<u8>, Seq<u8>>,
    p: spec_fn(Seq<u8>) -> bool,
    k: Seq<u8>,
    v: Seq<u8>,
)
    requires
        lists(rows, part(m, p)),
    ensures
        rows.contains((k, v)) <==> m.dom().contains(k) && m[k] == v && p(k),
        forall|i: int, j: int| 0 <= i < j < rows.len() ==> key_lt((#[trigger] rows[i]).0, (#[trigger] rows[j]).0),
{
    let n = part(m, p);
    if m.dom().contains(k) && p(k) {
        assert(n.dom().contains(k));
        let i = choose|i: int| 0 <= i < rows.len() && (#[trigger] rows[i]).0 == k;
        assert(n[k] == m[k]);
        assert(rows[i] == (k, m[k]));
    }
}

/// What a complete trie is made of, as rows, lists what it stores.
pub proof fn lemma_flat_lists(t: Trie)
    requires
        sound(Some(t)),
    ensures
        lists(rows_from(flat(t, Seq::empty())), contents(Some(t))),
        forall|i: int| 0 <= i < flat(t, Seq::empty()).len() ==> {
            let it = #[trigger] flat(t, Seq::empty())[i];
            entry(it) is Ok && item_route(it) == route(entry(it)->Ok_0.0)
        },
{
    let f = flat(t, Seq::empty());
    let rows = rows_from(f);
    let m = contents(Some(t));
    lemma_flat_entries(t, Seq::empty());
    lemma_flat_sorted(t, Seq::empty());
    assert forall|i: int| 0 <= i < f.len() implies {
        let it = #[trigger] f[i];
        &&& entry(it) is Ok
        &&& item_route(it) == route(entry(it)->Ok_0.0)
        &&& m.dom().contains(entry(it)->Ok_0.0)
        &&& m[entry(it)->Ok_0.0] == entry(it)->Ok_0.1
    } by {
        assert(is_entry(f[i], t, Seq::empty()));
        let r = item_route(f[i]);
        lemma_route_of_pack(r);
        assert(r.skip(0) =~= r);
    }
    assert forall|i: int, j: int| 0 <= i < j < rows.len() implies key_lt((#[trigger] rows[i]).0, (#[trigger] rows[j]).0) by {
        assert(rows[i] == entry(f[i])->Ok_0 && rows[j] == entry(f[j])->Ok_0);
        lemma_key_order(rows[i].0, rows[j].0);
    }
    assert forall|i: int| 0 <= i < rows.len() implies m.dom().contains((#[trigger] rows[i]).0) && m[rows[i].0] == rows[i].1 by {
        assert(rows[i] == entry(f[i])->Ok_0);
    }
    assert forall|k: Seq<u8>| #[trigger] m.dom().contains(k) implies exists|i: int|
        0 <= i < rows.len() && (#[trigger] rows[i]).0 == k by {
        let i = lemma_flat_has(t, Seq::empty(), route(k));
        assert(Seq::<bool>::empty() + route(k) =~= route(k));
        assert(rows[i] == entry(f[i])->Ok_0);
        lemma_key_ext(rows[i].0, k);
    }
}

/// Whether a scan that stops at a key stops at all later ones.
#[verifier::opaque]
pub open spec fn steady(until: Until, start: Seq<u8>) -> bool {
    forall|a: Seq<u8>, b: Seq<u8>|
        !key_lt(a, start) && #[trigger] key_lt(a, b) && #[trigger] until.fires(a) ==> until.fires(b)
}

/// A steady scan that stops at a key stops at a later one.
proof fn lemma_steady_at(until: Until, start: Seq<u8>, a: Seq<u8>, b: Seq<u8>)
    requires
        steady(until, start),
        !key_lt(a, start),
        key_lt(a, b),
        until.fires(a),
    ensures
        until.fires(b),
{
    reveal(steady);
}

/// Consecutive rows list the part of the store whose keys they hold.
pub proof fn lemma_sub_lists(
    all: Seq<(Seq<u8>, Seq<u8>)>,
    m: Map<Seq<u8>, Seq<u8>>,
    p: spec_fn(Seq<u8>) -> bool,
    a: int,
    b: int,
)
    requires
        lists(all, m),
        0 <= a <= b <= all.len(),
        forall|i: int| 0 <= i < all.len() ==> p((#[trigger] all[i]).0) == (a <= i < b),
    ensures
        lists(all.subrange(a, b), part(m, p)),
{
    let rows = all.subrange(a, b);
    assert forall|i: int| 0 <= i < rows.len() implies #[trigger] rows[i] == all[a + i] by {}
    assert forall|k: Seq<u8>| #[trigger] part(m, p).dom().contains(k) implies exists|i: int|
        0 <= i < rows.len() && (#[trigger] rows[i]).0 == k by {
        assert(m.dom().contains(k));
        let i = choose|i: int| 0 <= i < all.len() && (#[trigger] all[i]).0 == k;
        assert(a <= i < b);
        assert(rows[i - a] == all[a + (i - a)]);
    }
}

/// The rows of a trie that lie from a key on.
pub proof fn lemma_rows_from(t: Trie, start: Seq<u8>) -> (n: int)
    requires
        sound(Some(t)),
    ensures
        0 <= n <= flat(t, Seq::empty()).len(),
        from_bound(t, Seq::empty(), route(start)) == Ok::<Seq<Item>, Fault>(flat(t, Seq::empty()).skip(n)),
        forall|i: int|
            0 <= i < flat(t, Seq::empty()).len() ==> key_lt((#[trigger] rows_from(flat(t, Seq::empty()))[i]).0, start) == (i
                < n),
{
    let f = flat(t, Seq::empty());
    lemma_flat_lists(t);
    let n = lemma_from_bound(t, Seq::empty(), route(start));
    assert forall|i: int| 0 <= i < f.len() implies key_lt((#[trigger] rows_from(f)[i]).0, start) == (i < n) by {
        lemma_key_order(rows_from(f)[i].0, start);
        assert(item_route(f[i]) == route(entry(f[i])->Ok_0.0));
    }
    n
}

/// A scan from a key on lists what is stored from there on, up to where it stops.
#[verifier::spinoff_prover]
#[verifier::rlimit(40)]
pub proof fn lemma_scan_lists(root: Option<Trie>, start: Seq<u8>, until: Until)
    requires
        sound(root),
        steady(until, start),
    ensures
        scan_root(root, route(start), until) matches Ok(rows) && lists(
            rows,
            part(contents(root), |k: Seq<u8>| !key_lt(k, start) && !until.fires(k)),
        ),
{
    let p = |k: Seq<u8>| !key_lt(k, start) && !until.fires(k);
    match root {
        None => {},
        Some(t) => {
            let f = flat(t, Seq::empty());
            let all = rows_from(f);
            lemma_flat_lists(t);
            let n = lemma_rows_from(t, start);
            let items = f.skip(n);
            assert forall|i: int| 0 <= i < items.len() implies entry(#[trigger] items[i]) is Ok by {
                assert(items[i] == f[n + i]);
            }
            let c = lemma_drain_rows(items, until);
            assert(rows_from(items.take(c)) =~= all.subrange(n, n + c));
            assert forall|i: int| 0 <= i < all.len() implies p((#[trigger] all[i]).0) == (n <= i < n + c) by {
                if n <= i < n + c {
                    assert(items[i - n] == f[i]);
                } else if i >= n + c {
                    assert(items[c] == f[n + c]);
                    assert(until.fires(all[n + c].0));
                    if i > n + c {
                        assert(key_lt(all[n + c].0, all[i].0));
                        lemma_steady_at(until, start, all[n + c].0, all[i].0);
                    }
                }
            }
            lemma_sub_lists(all, contents(root), p, n, n + c);
        },
    }
}

/// A walk from a key on lists what is stored from there on.
pub proof fn lemma_items_from(t: Trie, start: Seq<u8>)
    requires
        sound(Some(t)),
    ensures
        from_bound(t, Seq::empty(), route(start)) matches Ok(items) && {
            &&& forall|i: int| 0 <= i < items.len() ==> entry(#[trigger] items[i]) is Ok
            &&& lists(rows_from(items), part(contents(Some(t)), |k: Seq<u8>| !key_lt(k, start)))
        },
{
    let f = flat(t, Seq::empty());
    let all = rows_from(f);
    lemma_flat_lists(t);
    let n = lemma_rows_from(t, start);
    let items = f.skip(n);
    assert forall|i: int| 0 <= i < items.len() implies entry(#[trigger] items[i]) is Ok by {
        assert(items[i] == f[n + i]);
    }
    assert(rows_from(items) =~= all.subrange(n, all.len() as int));
    lemma_sub_lists(all, contents(Some(t)), |k: Seq<u8>| !key_lt(k, start), n, all.len() as int);
}

/// A walk backwards lists what is stored, last first.
pub proof fn lemma_items_back(t: Trie)
    requires
        sound(Some(t)),
    ensures
        forall|i: int|
            0 <= i < flat(t, Seq::empty()).reverse().len() ==> entry(#[trigger] flat(t, Seq::empty()).reverse()[i]) is Ok,
        lists(rows_from(flat(t, Seq::empty()).reverse()).reverse(), contents(Some(t))),
{
    let f = flat(t, Seq::empty());
    let items = f.reverse();
    lemma_flat_lists(t);
    assert forall|i: int| 0 <= i < items.len() implies entry(#[trigger] items[i]) is Ok by {
        assert(items[i] == f[f.len() - 1 - i]);
    }
    assert(rows_from(items).reverse() =~= rows_from(f)) by {
        assert forall|i: int| 0 <= i < f.len() implies rows_from(items).reverse()[i] == rows_from(f)[i] by {
            assert(items[f.len() - 1 - i] == f[i]);
        }
    }
}

/// A walk backwards from a key lists what is stored up to it, last first.
pub proof fn lemma_items_up_to(t: Trie, end: Seq<u8>)
    requires
        sound(Some(t)),
    ensures
        up_to_bound(t, Seq::empty(), route(end), false) matches Ok(items) && {
            &&& forall|i: int| 0 <= i < items.len() ==> entry(#[trigger] items[i]) is Ok
            &&& lists(rows_from(items).reverse(), part(contents(Some(t)), |k: Seq<u8>| !key_lt(end, k)))
        },
{
    let f = flat(t, Seq::empty());
    let all = rows_from(f);
    lemma_flat_lists(t);
    let n = lemma_up_to_bound(t, Seq::empty(), route(end), false);
    let items = f.take(n).reverse();
    assert forall|i: int| 0 <= i < items.len() implies entry(#[trigger] items[i]) is Ok by {
        assert(items[i] == f[n - 1 - i]);
    }
    assert(rows_from(items).reverse() =~= all.subrange(0, n)) by {
        assert forall|i: int| 0 <= i < n implies rows_from(items).reverse()[i] == all[i] by {
            assert(items[n - 1 - i] == f[i]);
        }
    }
    let p = |k: Seq<u8>| !key_lt(end, k);
    assert forall|i: int| 0 <= i < all.len() implies p((#[trigger] all[i]).0) == (0 <= i < n) by {
        let k = all[i].0;
        lemma_key_order(k, end);
        lemma_key_order(end, k);
        lemma_route_lt_total(route(k), route(end));
        assert(item_route(f[i]) == route(entry(f[i])->Ok_0.0));
    }
    lemma_sub_lists(all, contents(Some(t)), p, 0, n);
}

/// Rows that list something are there just if it is.
proof fn lemma_lists_some(rows: Seq<(Seq<u8>, Seq<u8>)>, m: Map<Seq<u8>, Seq<u8>>)
    requires
        lists(rows, m),
    ensures
        rows.len() > 0 <==> exists|k: Seq<u8>| #[trigger] m.dom().contains(k),
{
    if rows.len() > 0 {
        assert(m.dom().contains(rows[0].0));
    }
    if exists|k: Seq<u8>| #[trigger] m.dom().contains(k) {
        let k = choose|k: Seq<u8>| #[trigger] m.dom().contains(k);
        let i = choose|i: int| 0 <= i < rows.len() && (#[trigger] rows[i]).0 == k;
    }
}

/// Whether a walk lists the entries of a store from a key on, first to last.
pub open spec fn walks_from(items: Seq<Item>, m: Map<Seq<u8>, Seq<u8>>, start: Seq<u8>) -> bool {
    &&& forall|i: int| 0 <= i < items.len() ==> entry(#[trigger] items[i]) is Ok
    &&& lists(rows_from(items), part(m, |k: Seq<u8>| !key_lt(k, start)))
}

/// A walk from a key on meets just the entries that are stored from there on,
/// first to last; it meets any just if there are some.
pub proof fn law_walk_lists_store(t: Trie, start: Seq<u8>)
    requires
        sound(Some(t)),
    ensures
        from_bound(t, Seq::empty(), route(start)) matches Ok(items) && {
            &&& walks_from(items, contents(Some(t)), start)
            &&& items.len() > 0 <==> exists|k: Seq<u8>| #[trigger]
                contents(Some(t)).dom().contains(k) && !key_lt(k, start)
        },
{
    lemma_items_from(t, start);
    let items = from_bound(t, Seq::empty(), route(start))->Ok_0;
    let m = part(contents(Some(t)), |k: Seq<u8>| !key_lt(k, start));
    lemma_lists_some(rows_from(items), m);
    assert forall|k: Seq<u8>| #[trigger] contents(Some(t)).dom().contains(k) && !key_lt(k, start) implies m.dom().contains(
        k,
    ) by {}
}

/// Whether a walk backwards from a key comes by another: up to the key, or with
/// `strict` only before it.
pub open spec fn walked_back(end: Seq<u8>, strict: bool) -> spec_fn(Seq<u8>) -> bool {
    |k: Seq<u8>|
        if strict {
            key_lt(k, end)
        } else {
            !key_lt(end, k)
        }
}

/// Whether a walk lists the entries of a store from a key back, last to first.
pub open spec fn walks_back(items: Seq<Item>, m: Map<Seq<u8>, Seq<u8>>, end: Seq<u8>, strict: bool) -> bool {
    &&& forall|i: int| 0 <= i < items.len() ==> entry(#[trigger] items[i]) is Ok
    &&& lists(rows_from(items).reverse(), part(m, walked_back(end, strict)))
}

/// A walk backwards from a key meets just the entries that are stored up to it,
/// or with `strict` before it, last to first; it meets any just if there are
/// some.
pub proof fn law_walk_back_lists_store(t: Trie, end: Seq<u8>, strict: bool)
    requires
        sound(Some(t)),
    ensures
        up_to_bound(t, Seq::empty(), route(end), strict) matches Ok(items) && {
            &&& walks_back(items, contents(Some(t)), end, strict)
            &&& items.len() > 0 <==> exists|k: Seq<u8>| #[trigger]
                contents(Some(t)).dom().contains(k) && walked_back(end, strict)(k)
        },
{
    let f = flat(t, Seq::empty());
    let all = rows_from(f);
    lemma_flat_lists(t);
    let n = lemma_up_to_bound(t, Seq::empty(), route(end), strict);
    let items = f.take(n).reverse();
    assert forall|i: int| 0 <= i < items.len() implies entry(#[trigger] items[i]) is Ok by {
        assert(items[i] == f[n - 1 - i]);
    }
    assert(rows_from(items).reverse() =~= all.subrange(0, n)) by {
        assert forall|i: int| 0 <= i < n implies rows_from(items).reverse()[i] == all[i] by {
            assert(items[n - 1 - i] == f[i]);
        }
    }
    let p = walked_back(end, strict);
    assert forall|i: int| 0 <= i < all.len() implies p((#[trigger] all[i]).0) == (0 <= i < n) by {
        let k = all[i].0;
        lemma_key_order(k, end);
        lemma_key_order(end, k);
        lemma_route_lt_total(route(k), route(end));
        assert(item_route(f[i]) == route(entry(f[i])->Ok_0.0));
    }
    lemma_sub_lists(all, contents(Some(t)), p, 0, n);
    let m = part(contents(Some(t)), p);
    lemma_lists_some(rows_from(items).reverse(), m);
    assert forall|k: Seq<u8>| #[trigger] contents(Some(t)).dom().contains(k) && p(k) implies m.dom().contains(k) by {}
}

/// Reading a range lists the part of the store that lies in it; it is refused if a bound is too long.
pub proof fn law_range_lists_store(root: Option<Trie>, start: Seq<u8>, end: Option<Seq<u8>>)
    requires
        sound(root),
    ensures
        match read_range(root, start, end) {
            Ok(rows) => start.len() <= MAX_KEY_LEN && (end matches Some(e) ==> e.len() <= MAX_KEY_LEN) && lists(
                rows,
                part(contents(root), |k: Seq<u8>| key_between(k, Some(start), end)),
            ),
            Err(f) => f == Fault::Key && (start.len() > MAX_KEY_LEN || (end matches Some(e) && e.len() > MAX_KEY_LEN)),
        },
{
    let m = part(contents(root), |k: Seq<u8>| key_between(k, Some(start), end));
    match end {
        None => {
            assert(steady(Until::Never, start)) by {
                reveal(steady);
            }
            lemma_scan_lists(root, start, Until::Never);
            assert(part(contents(root), |k: Seq<u8>| !key_lt(k, start) && !Until::Never.fires(k)) =~= m);
        },
        Some(e) => {
            if key_lt(start, e) {
                assert(steady(Until::From(e), start)) by {
                    reveal(steady);
                    assert forall|a: Seq<u8>, b: Seq<u8>|
                        !key_lt(a, start) && #[trigger] key_lt(a, b) && #[trigger] Until::From(e).fires(
                            a,
                        ) implies Until::From(e).fires(b) by {
                        if key_lt(b, e) {
                            lemma_key_lt_trans(a, b, e);
                        }
                    }
                }
                lemma_scan_lists(root, start, Until::From(e));
                assert(part(contents(root), |k: Seq<u8>| !key_lt(k, start) && !Until::From(e).fires(k)) =~= m);
            } else {
                assert forall|k: Seq<u8>| !(!key_lt(k, start) && key_lt(k, e)) by {
                    if !key_lt(k, start) && key_lt(k, e) {
                        lemma_key_lt_total(k, start);
                        if key_lt(start, k) {
                            lemma_key_lt_trans(start, k, e);
                        }
                    }
                }
                assert(m.dom() =~= Set::empty());
            }
        },
    }
}

/// Reading a prefix lists the part of the store whose keys begin with it; it is refused if it is too long.
pub proof fn law_prefix_lists_store(root: Option<Trie>, prefix: Seq<u8>)
    requires
        sound(root),
    ensures
        match read_prefix(root, prefix) {
            Ok(rows) => prefix.len() <= MAX_KEY_LEN && lists(
                rows,
                part(contents(root), |k: Seq<u8>| prefix.is_prefix_of(k)),
            ),
            Err(f) => f == Fault::Key && prefix.len() > MAX_KEY_LEN,
        },
{
    let until = Until::Outside(prefix);
    assert(steady(until, prefix)) by {
        reveal(steady);
        assert forall|a: Seq<u8>, b: Seq<u8>|
            !key_lt(a, prefix) && #[trigger] key_lt(a, b) && #[trigger] until.fires(a) implies until.fires(b) by {
            lemma_prefix_range(prefix, a);
            lemma_prefix_range(prefix, b);
            if let Some(s) = successor(prefix) {
                if key_lt(b, s) {
                    lemma_key_lt_trans(a, b, s);
                }
            }
        }
    }
    lemma_scan_lists(root, prefix, until);
    assert(part(contents(root), |k: Seq<u8>| !key_lt(k, prefix) && !until.fires(k)) =~= part(
        contents(root),
        |k: Seq<u8>| prefix.is_prefix_of(k),
    )) by {
        assert forall|k: Seq<u8>| (!key_lt(k, prefix) && !until.fires(k)) == prefix.is_prefix_of(k) by {
            lemma_prefix_range(prefix, k);
        }
    }
}

/// Reading a range with its end lists the part of the store that lies in it.
pub proof fn law_inclusive_range_lists_store(root: Option<Trie>, start: Seq<u8>, end: Seq<u8>)
    requires
        sound(root),
    ensures
        match read_range_inclusive(root, start, end) {
            Ok(rows) => start.len() <= MAX_KEY_LEN && end.len() <= MAX_KEY_LEN && lists(
                rows,
                part(contents(root), |k: Seq<u8>| !key_lt(k, start) && !key_lt(end, k)),
            ),
            Err(f) => f == Fault::Key && (start.len() > MAX_KEY_LEN || end.len() > MAX_KEY_LEN),
        },
{
    let until = Until::After(end);
    assert(steady(until, start)) by {
        reveal(steady);
        assert forall|a: Seq<u8>, b: Seq<u8>|
            !key_lt(a, start) && #[trigger] key_lt(a, b) && #[trigger] until.fires(a) implies until.fires(b) by {
            lemma_key_lt_trans(end, a, b);
        }
    }
    lemma_scan_lists(root, start, until);
    assert(part(contents(root), |k: Seq<u8>| !key_lt(k, start) && !until.fires(k)) =~= part(
        contents(root),
        |k: Seq<u8>| !key_lt(k, start) && !key_lt(end, k),
    ));
}

/// A range without an end lists all that is stored from its start on.
pub proof fn law_open_range_lists_the_rest(root: Option<Trie>, start: Seq<u8>)
    requires
        sound(root),
        start.len() <= MAX_KEY_LEN,
    ensures
        read_range(root, start, None) matches Ok(rows) && lists(rows, part(contents(root), |k: Seq<u8>| !key_lt(k, start))),
{
    law_range_lists_store(root, start, None);
    assert(part(contents(root), |k: Seq<u8>| key_between(k, Some(start), None)) =~= part(
        contents(root),
        |k: Seq<u8>| !key_lt(k, start),
    ));
}

} // verus!
