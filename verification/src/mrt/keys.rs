//! What a trie stores, by keys.

use vstd::prelude::*;

use crate::bits::{byte_bit, key_lt, lcp, lemma_byte_ext, lemma_key_ext, lemma_key_order, lemma_lcp, lemma_pack_byte,
    pack};
use crate::error::Fault;
use crate::mrt::contents::{begins, between, clashes, lemma_begins, lemma_canonical, lemma_cut, lemma_detach_leaves,
    lemma_detach_takes, lemma_find, lemma_insert_complete, lemma_insert_lookup, lemma_insert_refused,
    lemma_lookup_below, lemma_reskin, lemma_remove, lemma_sample, lemma_splice, lemma_stored, lookup_root};
use crate::mrt::model::{child_span, max, Span, Trie};
use crate::mrt::prefix::{move_fits, move_root};
use crate::mrt::route::{rest, route, MAX_KEY_LEN, MAX_ROUTE_BITS};
use crate::mrt::store::hash_of;
use crate::mrt::tree::{cut_root, find_root, insert_root, remove_root};
use crate::tracer::{lemma_prefix_range, successor};

verus! {

/// What a trie that may be empty stores: values by keys.
pub open spec fn contents(root: Option<Trie>) -> Map<Seq<u8>, Seq<u8>> {
    Map::new(|k: Seq<u8>| lookup_root(root, route(k)) is Some, |k: Seq<u8>| lookup_root(root, route(k))->0)
}

/// A trie that may be empty, with nothing pruned and no key longer than [`MAX_KEY_LEN`].
pub open spec fn sound(root: Option<Trie>) -> bool {
    root matches Some(t) ==> t.complete(0) && t.depth() <= MAX_ROUTE_BITS
}

/// Whether a trie holds just the entries `m`, and has the hash of every trie that does.
pub open spec fn holds(root: Option<Trie>, m: Map<Seq<u8>, Seq<u8>>) -> bool {
    &&& sound(root)
    &&& contents(root) == m
    &&& root is None <==> m == Map::<Seq<u8>, Seq<u8>>::empty()
    &&& forall|u: Option<Trie>| sound(u) && #[trigger] contents(u) == m ==> hash_of(u) == hash_of(root)
}

/// A trie holds what it stores.
pub proof fn lemma_holds(root: Option<Trie>)
    requires
        sound(root),
    ensures
        holds(root, contents(root)),
{
    lemma_empty(root);
    assert forall|u: Option<Trie>| sound(u) && #[trigger] contents(u) == contents(root) implies hash_of(u) == hash_of(
        root,
    ) by {
        law_root_is_determined_by_contents(u, root);
    }
}

/// Nothing of a complete trie is pruned.
pub proof fn lemma_complete_bare(t: Trie, d: int)
    requires
        t.complete(d),
    ensures
        t.bare(),
    decreases t,
{
    if let Trie::Branch { skip, left, right } = t {
        lemma_complete_bare(*left, d + skip.len() + 1);
        lemma_complete_bare(*right, d + skip.len() + 1);
    }
}

/// Whether one of two different keys begins with the other.
pub open spec fn keys_clash(a: Seq<u8>, b: Seq<u8>) -> bool {
    a != b && (a.is_prefix_of(b) || b.is_prefix_of(a))
}

/// A bit string of whole bytes is the route of its packed form.
pub proof fn lemma_route_of_pack(q: Seq<bool>)
    requires
        q.len() % 8 == 0,
    ensures
        route(pack(q)) == q,
        8 * pack(q).len() == q.len(),
{
    let k = pack(q);
    assert forall|i: int| 0 <= i < q.len() implies route(k)[i] == q[i] by {
        lemma_pack_byte(q, i / 8, i % 8);
        assert(8 * (i / 8) + i % 8 == i);
    }
    assert(route(k) =~= q);
}

/// Keys begin with each other just if their routes do.
pub proof fn lemma_route_begins(k: Seq<u8>, p: Seq<u8>)
    ensures
        begins(route(k), route(p)) <==> p.is_prefix_of(k),
        p.is_prefix_of(k) ==> route(k).skip(8 * p.len() as int) == route(k.skip(p.len() as int)),
        p.is_prefix_of(k) ==> k == p + k.skip(p.len() as int),
{
    let rk = route(k);
    let rp = route(p);
    if p.is_prefix_of(k) {
        assert forall|i: int| 0 <= i < rp.len() implies rk[i] == rp[i] by {
            assert(p[i / 8] == k.subrange(0, p.len() as int)[i / 8]);
        }
        assert(rk.take(rp.len() as int) =~= rp);
        let n = p.len() as int;
        assert(rk.skip(8 * n) =~= route(k.skip(n))) by {
            assert forall|i: int| 0 <= i < rk.len() - 8 * n implies rk.skip(8 * n)[i] == route(k.skip(n))[i] by {
                assert((8 * n + i) / 8 == n + i / 8 && (8 * n + i) % 8 == i % 8);
                assert(k.skip(n)[i / 8] == k[n + i / 8]);
            }
        }
        assert(k =~= p + k.skip(n)) by {
            assert forall|i: int| 0 <= i < n implies k[i] == p[i] by {
                assert(k.subrange(0, n)[i] == p[i]);
            }
        }
    }
    if begins(rk, rp) {
        assert forall|i: int| 0 <= i < p.len() implies p[i] == k[i] by {
            assert forall|b: int| 0 <= b < 8 implies byte_bit(p[i], b) == byte_bit(k[i], b) by {
                let j = 8 * i + b;
                assert(j / 8 == i && j % 8 == b);
                assert(rk.take(rp.len() as int)[j] == rp[j]);
            }
            lemma_byte_ext(p[i], k[i]);
        }
        assert(p =~= k.subrange(0, p.len() as int));
    }
}

/// The route of keys put together.
pub proof fn lemma_route_concat(a: Seq<u8>, b: Seq<u8>)
    ensures
        route(a + b) == route(a) + route(b),
{
    let k = a + b;
    assert(a =~= k.subrange(0, a.len() as int));
    assert(a.is_prefix_of(k));
    lemma_route_begins(k, a);
    assert(k.skip(a.len() as int) =~= b);
    assert(route(k) =~= route(k).take(8 * a.len() as int) + route(k).skip(8 * a.len() as int));
}

/// Every stored key has an acceptable length, and every stored route is that of a key.
pub proof fn lemma_stored_key(root: Option<Trie>, q: Seq<bool>)
    requires
        sound(root),
        lookup_root(root, q) is Some,
    ensures
        q == route(pack(q)),
        contents(root).dom().contains(pack(q)),
        pack(q).len() <= MAX_KEY_LEN,
{
    let t = root->0;
    lemma_stored(t, 0, q);
    lemma_route_of_pack(q);
}

/// No stored key is longer than [`MAX_KEY_LEN`].
pub proof fn lemma_key_len(root: Option<Trie>, k: Seq<u8>)
    requires
        sound(root),
        contents(root).dom().contains(k),
    ensures
        k.len() <= MAX_KEY_LEN,
{
    lemma_stored(root->0, 0, route(k));
}

/// What a search finds is what is stored.
pub proof fn lemma_find_contents(root: Option<Trie>, k: Seq<u8>)
    requires
        sound(root),
    ensures
        find_root(root, k) == (if k.len() > MAX_KEY_LEN {
            Err::<Option<Seq<u8>>, Fault>(Fault::Key)
        } else if contents(root).dom().contains(k) {
            Ok(Some(contents(root)[k]))
        } else {
            Ok(None)
        }),
{
    if let Some(t) = root {
        lemma_find(t, route(k), 0);
        assert(route(k).skip(0) =~= route(k));
    }
}

/// The depth of what an insertion makes is bounded by the old depth and the new route.
proof fn lemma_insert_depth(t: Trie, r: Seq<bool>, v: Seq<u8>)
    ensures
        t.insert(r, v) matches Ok(t2) ==> t2.depth() <= max(t.depth(), r.len()),
    decreases t,
{
    let s = t.skip();
    let k = lcp(s, r) as int;
    lemma_lcp(s, r);
    reveal_with_fuel(Trie::depth, 3);
    match t {
        Trie::Leaf { skip, value } => {},
        Trie::Branch { skip, left, right } => {
            if k == skip.len() && k < r.len() {
                lemma_insert_depth(*left, r.skip(k + 1), v);
                lemma_insert_depth(*right, r.skip(k + 1), v);
            }
        },
        Trie::Pruned { hash, depth } => {},
    }
}

/// What storing a value does, and when it is refused: the key is too long, or
/// some stored key begins with it or the other way round.
pub proof fn lemma_insert_contents(root: Option<Trie>, key: Seq<u8>, value: Seq<u8>)
    requires
        sound(root),
    ensures
        match insert_root(root, key, value) {
            Ok(t) => sound(Some(t)) && contents(Some(t)) == contents(root).insert(key, value),
            Err(f) => f == Fault::Key,
        },
        insert_root(root, key, value) is Ok <==> key.len() <= MAX_KEY_LEN && forall|k: Seq<u8>| #[trigger]
            contents(root).dom().contains(k) ==> !keys_clash(k, key),
{
    let r = route(key);
    let m = contents(root);
    if key.len() <= MAX_KEY_LEN {
        match root {
            None => {
                let t = Trie::Leaf { skip: r, value };
                assert(m =~= Map::empty());
                assert forall|k: Seq<u8>| contents(Some(t)).dom().contains(k) <==> k == key by {
                    if route(k) == r {
                        lemma_key_ext(k, key);
                    }
                }
                assert(contents(Some(t)) =~= m.insert(key, value));
            },
            Some(t) => {
                lemma_insert_complete(t, 0, r, value);
                lemma_insert_refused(t, 0, r, value);
                lemma_insert_depth(t, r, value);
                if let Ok(t2) = t.insert(r, value) {
                    assert forall|k: Seq<u8>| #[trigger] t2.lookup(route(k)) == (if k == key {
                        Some(value)
                    } else {
                        t.lookup(route(k))
                    }) by {
                        lemma_insert_lookup(t, r, value, route(k));
                        if route(k) == r {
                            lemma_key_ext(k, key);
                        }
                    }
                    assert(contents(Some(t2)) =~= m.insert(key, value));
                    assert forall|k: Seq<u8>| #[trigger] m.dom().contains(k) implies !keys_clash(k, key) by {
                        lemma_clash(k, key);
                        assert(t.lookup(route(k)) is Some);
                    }
                } else {
                    let q = choose|q: Seq<bool>| (#[trigger] t.lookup(q)) is Some && clashes(q, r);
                    lemma_stored_key(root, q);
                    lemma_clash(pack(q), key);
                    assert(m.dom().contains(pack(q)) && keys_clash(pack(q), key));
                }
            },
        }
    }
}

/// Keys clash just if their routes do.
pub proof fn lemma_clash(a: Seq<u8>, b: Seq<u8>)
    ensures
        keys_clash(a, b) <==> clashes(route(a), route(b)),
{
    lemma_route_begins(a, b);
    lemma_route_begins(b, a);
    lemma_begins(route(a), route(b));
    lemma_begins(route(b), route(a));
    if route(a) == route(b) {
        lemma_key_ext(a, b);
    }
}

proof fn lemma_remove_depth(t: Trie, k: Seq<bool>, d: int)
    ensures
        t.remove(k, d) matches Ok(Some(Some(t2))) ==> t2.depth() <= t.depth(),
    decreases t,
{
    match t {
        Trie::Leaf { skip, value } => {},
        Trie::Branch { skip, left, right } => {
            lemma_remove_depth(*left, k, d + skip.len() + 1);
            lemma_remove_depth(*right, k, d + skip.len() + 1);
            lemma_lift_depth(skip, true, *right);
            lemma_lift_depth(skip, false, *left);
        },
        Trie::Pruned { hash, depth } => {},
    }
}

/// A child that takes its parent's place gets no deeper than the parent.
pub proof fn lemma_lift_depth(skip: Seq<bool>, side: bool, t: Trie)
    ensures
        crate::mrt::model::lift(skip, side, t).depth() <= skip.len() + 1 + t.depth(),
{
    assert((skip + seq![side] + t.skip()).len() == skip.len() + 1 + t.skip().len());
}

/// What removing a key does.
pub proof fn lemma_remove_contents(root: Option<Trie>, key: Seq<u8>)
    requires
        sound(root),
    ensures
        key.len() > MAX_KEY_LEN ==> remove_root(root, key) == Err::<Option<Option<Trie>>, Fault>(Fault::Key),
        key.len() <= MAX_KEY_LEN ==> (remove_root(root, key) matches Ok(after) && {
            &&& after is Some <==> contents(root).dom().contains(key)
            &&& after matches Some(t) ==> sound(t) && contents(t) == contents(root).remove(key)
        }),
{
    if key.len() <= MAX_KEY_LEN {
        if let Some(t) = root {
            let r = route(key);
            assert(r.skip(0) =~= r);
            lemma_remove(t, r, 0, r);
            lemma_remove_depth(t, r, 0);
            if let Ok(Some(t2)) = t.remove(r, 0) {
                assert forall|k: Seq<u8>| #[trigger] lookup_root(t2, route(k)) == (if k == key {
                    None
                } else {
                    t.lookup(route(k))
                }) by {
                    lemma_remove(t, r, 0, route(k));
                    if route(k) == r {
                        lemma_key_ext(k, key);
                    }
                }
                assert(contents(t2) =~= contents(root).remove(key));
            }
        }
    }
}

/// What is put together from the rest of two children is no deeper than with the children whole.
proof fn lemma_join_depth(skip: Seq<bool>, l: Option<Trie>, r: Option<Trie>, bound: nat)
    requires
        l matches Some(t) ==> t.depth() <= bound,
        r matches Some(t) ==> t.depth() <= bound,
    ensures
        crate::mrt::model::join(skip, l, r) matches Some(t) ==> t.depth() <= skip.len() + 1 + bound,
{
    match (l, r) {
        (Some(a), None) => {
            lemma_lift_depth(skip, false, a);
        },
        (None, Some(b)) => {
            lemma_lift_depth(skip, true, b);
        },
        _ => {},
    }
}

proof fn lemma_cut_depth(t: Trie, d: int, lo: Option<Seq<bool>>, hi: Option<Seq<bool>>)
    ensures
        t.cut(d, lo, hi) matches Ok(Some(t2)) ==> t2.depth() <= t.depth(),
    decreases t,
{
    if let Trie::Branch { skip, left, right } = t {
        let e = d + skip.len() + 1;
        let l2 = match child_span(skip, d, lo, hi, false) {
            Span::Outside => Ok(Some(*left)),
            Span::Within { lo: a, hi: b } => {
                lemma_cut_depth(*left, e, a, b);
                left.cut(e, a, b)
            },
        };
        let r2 = match child_span(skip, d, lo, hi, true) {
            Span::Outside => Ok(Some(*right)),
            Span::Within { lo: a, hi: b } => {
                lemma_cut_depth(*right, e, a, b);
                right.cut(e, a, b)
            },
        };
        if l2 is Ok && r2 is Ok {
            lemma_join_depth(skip, l2->Ok_0, r2->Ok_0, max(left.depth(), right.depth()));
        }
    }
}

/// Whether a key lies from `lo` on and before `hi`; a missing bound does not limit.
pub open spec fn key_between(k: Seq<u8>, lo: Option<Seq<u8>>, hi: Option<Seq<u8>>) -> bool {
    &&& lo matches Some(lo) ==> !key_lt(k, lo)
    &&& hi matches Some(hi) ==> key_lt(k, hi)
}

/// The route of a bound that may be missing.
pub open spec fn bound_route(b: Option<Seq<u8>>) -> Option<Seq<bool>> {
    match b {
        Some(k) => Some(route(k)),
        None => None,
    }
}

/// What removing all keys between two bounds does.
pub proof fn lemma_cut_between(t: Trie, lo: Option<Seq<u8>>, hi: Option<Seq<u8>>)
    requires
        sound(Some(t)),
    ensures
        t.cut(0, bound_route(lo), bound_route(hi)) matches Ok(t2) && sound(t2) && contents(t2) == contents(
            Some(t),
        ).remove_keys(Set::new(|k: Seq<u8>| key_between(k, lo, hi))),
{
    let a = bound_route(lo);
    let b = bound_route(hi);
    lemma_cut(t, 0, a, b, Seq::empty());
    lemma_cut_depth(t, 0, a, b);
    let t2 = t.cut(0, a, b)->Ok_0;
    assert forall|k: Seq<u8>| #[trigger] lookup_root(t2, route(k)) == (if key_between(k, lo, hi) {
        None
    } else {
        t.lookup(route(k))
    }) by {
        lemma_cut(t, 0, a, b, route(k));
        if let Some(x) = lo {
            lemma_key_order(k, x);
            assert(rest(route(x), 0) =~= route(x));
        }
        if let Some(x) = hi {
            lemma_key_order(k, x);
            assert(rest(route(x), 0) =~= route(x));
        }
    }
    assert(contents(t2) =~= contents(Some(t)).remove_keys(Set::new(|k: Seq<u8>| key_between(k, lo, hi))));
}

/// What removing a range of keys does.
pub proof fn lemma_cut_contents(root: Option<Trie>, start: Seq<u8>, end: Seq<u8>)
    requires
        sound(root),
    ensures
        cut_root(root, start, end) is Err <==> start.len() > MAX_KEY_LEN || end.len() > MAX_KEY_LEN || !key_lt(start, end),
        match cut_root(root, start, end) {
            Ok(t) => sound(t) && contents(t) == contents(root).remove_keys(
                Set::new(|k: Seq<u8>| !key_lt(k, start) && key_lt(k, end)),
            ),
            Err(f) => f == Fault::Key,
        },
{
    let gone = Set::new(|k: Seq<u8>| !key_lt(k, start) && key_lt(k, end));
    match root {
        Some(t) => {
            lemma_cut_between(t, Some(start), Some(end));
            assert(gone =~= Set::new(|k: Seq<u8>| key_between(k, Some(start), Some(end))));
        },
        None => {
            assert(contents(root) =~= contents(root).remove_keys(gone));
        },
    }
}

/// What removing the keys that begin with `prefix` makes of a trie that may be empty.
pub open spec fn cut_prefix_root(root: Option<Trie>, prefix: Seq<u8>) -> Result<Option<Trie>, Fault> {
    if prefix.len() > MAX_KEY_LEN {
        Err(Fault::Key)
    } else {
        match root {
            None => Ok(None),
            Some(t) => t.cut(0, Some(route(prefix)), bound_route(successor(prefix))),
        }
    }
}

/// What removing all keys with a prefix does.
pub proof fn lemma_cut_prefix_contents(root: Option<Trie>, prefix: Seq<u8>)
    requires
        sound(root),
    ensures
        cut_prefix_root(root, prefix) is Err <==> prefix.len() > MAX_KEY_LEN,
        match cut_prefix_root(root, prefix) {
            Ok(t) => sound(t) && contents(t) == contents(root).remove_keys(
                Set::new(|k: Seq<u8>| prefix.is_prefix_of(k)),
            ),
            Err(f) => f == Fault::Key,
        },
{
    let gone = Set::new(|k: Seq<u8>| prefix.is_prefix_of(k));
    match root {
        Some(t) => {
            lemma_cut_between(t, Some(prefix), successor(prefix));
            assert(gone =~= Set::new(|k: Seq<u8>| key_between(k, Some(prefix), successor(prefix)))) by {
                assert forall|k: Seq<u8>| prefix.is_prefix_of(k) <==> key_between(k, Some(prefix), successor(prefix)) by {
                    lemma_prefix_range(prefix, k);
                }
            }
        },
        None => {
            assert(contents(root) =~= contents(root).remove_keys(gone));
        },
    }
}

/// A complete trie stores a route as long as it is deep.
pub proof fn lemma_deepest(t: Trie, d: int) -> (q: Seq<bool>)
    requires
        t.complete(d),
    ensures
        t.lookup(q) is Some,
        q.len() == t.depth(),
    decreases t,
{
    match t {
        Trie::Leaf { skip, value } => skip,
        Trie::Branch { skip, left, right } => {
            let side = right.depth() > left.depth();
            let r = if side {
                lemma_deepest(*right, d + skip.len() + 1)
            } else {
                lemma_deepest(*left, d + skip.len() + 1)
            };
            lemma_lookup_below(skip, *left, *right, side, r);
            skip + seq![side] + r
        },
        Trie::Pruned { hash, depth } => Seq::empty(),
    }
}

/// What a store holds after every key `from ++ s` was renamed to `to ++ s`.
pub open spec fn moved(m: Map<Seq<u8>, Seq<u8>>, from: Seq<u8>, to: Seq<u8>) -> Map<Seq<u8>, Seq<u8>> {
    Map::new(
        |k: Seq<u8>|
            if to.is_prefix_of(k) {
                m.dom().contains(from + k.skip(to.len() as int))
            } else {
                m.dom().contains(k) && !from.is_prefix_of(k)
            },
        |k: Seq<u8>|
            if to.is_prefix_of(k) {
                m[from + k.skip(to.len() as int)]
            } else {
                m[k]
            },
    )
}

/// When a move is accepted: the prefixes differ and are not too long, some key
/// moves, no moved key gets too long, and no key that stays is a strict prefix
/// of the new prefix.
pub open spec fn move_allowed(m: Map<Seq<u8>, Seq<u8>>, from: Seq<u8>, to: Seq<u8>) -> bool {
    &&& from.len() <= MAX_KEY_LEN
    &&& to.len() <= MAX_KEY_LEN
    &&& from != to
    &&& exists|k: Seq<u8>| #[trigger] m.dom().contains(k) && from.is_prefix_of(k)
    &&& forall|k: Seq<u8>| #[trigger] m.dom().contains(k) && from.is_prefix_of(k) ==> to.len() + k.len() - from.len() <= MAX_KEY_LEN
    &&& forall|k: Seq<u8>| #[trigger] m.dom().contains(k) && !from.is_prefix_of(k) && k.is_prefix_of(to) ==> k == to
}

/// The depth of what a splice makes is bounded by the old depth and the moved routes.
pub proof fn lemma_splice_depth(t: Trie, p: Seq<bool>, s: Trie, n: nat, bound: nat)
    requires
        n <= s.skip().len(),
        p.len() + s.depth() - n <= bound,
        t.depth() <= bound,
    ensures
        t.splice(p, s, n) matches Ok(t2) ==> t2.depth() <= bound,
    decreases t,
{
    let k = lcp(t.skip(), p) as int;
    lemma_lcp(t.skip(), p);
    reveal_with_fuel(Trie::depth, 3);
    match t {
        Trie::Leaf { skip, value } => {},
        Trie::Branch { skip, left, right } => {
            if k == skip.len() && k < p.len() {
                let b = (bound - skip.len() - 1) as nat;
                lemma_splice_depth(*left, p.skip(k + 1), s, n, b);
                lemma_splice_depth(*right, p.skip(k + 1), s, n, b);
            }
        },
        Trie::Pruned { hash, depth } => {},
    }
}

proof fn lemma_detach_depth(t: Trie, p: Seq<bool>, strict: bool)
    ensures
        t.detach(p, strict) matches Ok((Some(t2), s, n)) ==> t2.depth() <= t.depth(),
    decreases t,
{
    match t {
        Trie::Leaf { skip, value } => {},
        Trie::Branch { skip, left, right } => {
            let k = lcp(skip, p) as int;
            lemma_detach_depth(*left, p.skip(k + 1), strict);
            lemma_detach_depth(*right, p.skip(k + 1), strict);
            lemma_lift_depth(skip, true, *right);
            lemma_lift_depth(skip, false, *left);
        },
        Trie::Pruned { hash, depth } => {},
    }
}

/// A subtrie without the first `n` bits of its root is that much shallower.
pub proof fn lemma_drop_depth(s: Trie, n: nat)
    requires
        !(s is Pruned),
        n <= s.skip().len(),
    ensures
        s.with_skip(s.skip().skip(n as int)).depth() == s.depth() - n,
{
}

/// What moving all keys with a prefix does, and when it is refused.
pub proof fn lemma_move_contents(root: Option<Trie>, from: Seq<u8>, to: Seq<u8>, strict: bool)
    requires
        sound(root),
    ensures
        move_root(root, from, to, strict) is Ok <==> move_allowed(contents(root), from, to),
        match move_root(root, from, to, strict) {
            Ok(t) => sound(Some(t)) && contents(Some(t)) == moved(contents(root), from, to),
            Err(f) => f == Fault::Key,
        },
{
    let m = contents(root);
    let rf = route(from);
    let rt = route(to);
    if from.len() <= MAX_KEY_LEN && to.len() <= MAX_KEY_LEN && from != to {
        if let Some(t) = root {
            lemma_detach_leaves(t, 0, rf, strict, Seq::empty());
            lemma_detach_takes(t, 0, rf, strict, Seq::empty());
            lemma_detach_depth(t, rf, strict);
            match t.detach(rf, strict) {
                Err(f) => {
                    assert forall|k: Seq<u8>| #[trigger] m.dom().contains(k) implies !from.is_prefix_of(k) by {
                        if from.is_prefix_of(k) {
                            lemma_route_begins(k, from);
                            lemma_route_concat(from, k.skip(from.len() as int));
                            lemma_detach_takes(t, 0, rf, strict, route(k.skip(from.len() as int)));
                        }
                    }
                },
                Ok((t2, s, n)) => {
                    lemma_move_step(t, from, to, strict, t2, s, n);
                },
            }
        }
    }
}

/// What taking out the keys with a prefix gave: what stays and, less the
/// prefix, what moves.
pub open spec fn parted(t: Trie, from: Seq<u8>, stay: Option<Trie>, core: Trie) -> bool {
    &&& forall|k: Seq<u8>| #[trigger]
        lookup_root(stay, route(k)) == (if from.is_prefix_of(k) {
            None
        } else {
            t.lookup(route(k))
        })
    &&& forall|x: Seq<u8>| #[trigger] core.lookup(route(x)) == t.lookup(route(from + x))
}

/// Taking out the keys with a prefix parts a trie.
pub proof fn lemma_parted(t: Trie, from: Seq<u8>, strict: bool, t2: Option<Trie>, s: Trie, n: nat)
    requires
        sound(Some(t)),
        t.detach(route(from), strict) == Ok::<(Option<Trie>, Trie, nat), Fault>((t2, s, n)),
    ensures
        parted(t, from, t2, s.with_skip(s.skip().skip(n as int))),
        sound(t2),
        !(s is Pruned),
        n <= s.skip().len() <= s.depth(),
        s.complete(8 * from.len() - n),
        s.with_skip(s.skip().skip(n as int)).complete(8 * from.len() as int),
        s.with_skip(s.skip().skip(n as int)).depth() == s.depth() - n,
{
    let rf = route(from);
    lemma_detach_leaves(t, 0, rf, strict, Seq::empty());
    lemma_detach_takes(t, 0, rf, strict, Seq::empty());
    lemma_detach_depth(t, rf, strict);
    lemma_drop_depth(s, n);
    match s {
        Trie::Leaf { skip, value } => {},
        Trie::Branch { skip, left, right } => {
            assert(rf.len() - n + skip.len() + 1 == rf.len() + (skip.len() - n) + 1);
        },
        Trie::Pruned { hash, depth } => {},
    }
    assert forall|k: Seq<u8>| #[trigger] lookup_root(t2, route(k)) == (if from.is_prefix_of(k) {
        None
    } else {
        t.lookup(route(k))
    }) by {
        lemma_detach_leaves(t, 0, rf, strict, route(k));
        lemma_route_begins(k, from);
    }
    let core = s.with_skip(s.skip().skip(n as int));
    assert forall|x: Seq<u8>| #[trigger] core.lookup(route(x)) == t.lookup(route(from + x)) by {
        lemma_detach_takes(t, 0, rf, strict, route(x));
        lemma_route_concat(from, x);
    }
}

/// Some key moves, and the longest that does decides whether all fit.
proof fn lemma_move_fits(t: Trie, from: Seq<u8>, to_len: nat, strict: bool, t2: Option<Trie>, s: Trie, n: nat)
    requires
        sound(Some(t)),
        t.detach(route(from), strict) == Ok::<(Option<Trie>, Trie, nat), Fault>((t2, s, n)),
    ensures
        exists|k: Seq<u8>| #[trigger] contents(Some(t)).dom().contains(k) && from.is_prefix_of(k),
        move_fits(to_len, s.depth(), n) != Err::<(), Fault>(Fault::Tree),
        move_fits(to_len, s.depth(), n) is Ok <==> forall|k: Seq<u8>| #[trigger]
            contents(Some(t)).dom().contains(k) && from.is_prefix_of(k) ==> to_len + k.len() - from.len() <= MAX_KEY_LEN,
{
    let m = contents(Some(t));
    let rf = route(from);
    let core = s.with_skip(s.skip().skip(n as int));
    lemma_parted(t, from, strict, t2, s, n);
    let deep = lemma_deepest(core, rf.len() as int);
    lemma_detach_takes(t, 0, rf, strict, deep);
    lemma_stored_key(Some(t), rf + deep);
    let kd = pack(rf + deep);
    lemma_route_begins(kd, from);
    assert((rf + deep).take(rf.len() as int) =~= rf);
    assert(m.dom().contains(kd) && from.is_prefix_of(kd));
    assert(8 * kd.len() == rf.len() + deep.len()) by {
        assert(route(kd).len() == 8 * kd.len());
    }
    assert forall|k: Seq<u8>| #[trigger] m.dom().contains(k) && from.is_prefix_of(k) implies 8 * (k.len() - from.len())
        <= s.depth() - n by {
        let x = k.skip(from.len() as int);
        lemma_route_begins(k, from);
        assert(core.lookup(route(x)) is Some);
        lemma_stored(core, rf.len() as int, route(x));
    }
    if move_fits(to_len, s.depth(), n) is Err {
        assert(to_len + kd.len() - from.len() > MAX_KEY_LEN);
    }
}

/// A move that leaves nothing behind.
proof fn lemma_move_all(t: Trie, from: Seq<u8>, to: Seq<u8>, s: Trie, n: nat)
    requires
        parted(t, from, None, s.with_skip(s.skip().skip(n as int))),
        !(s is Pruned),
        n <= s.skip().len() <= s.depth(),
        s.complete(8 * from.len() - n),
        8 * to.len() + s.depth() - n <= MAX_ROUTE_BITS,
    ensures
        s.reskin(n, route(to)) matches Ok(x) && sound(Some(x)) && contents(Some(x)) == moved(
            contents(Some(t)),
            from,
            to,
        ),
        forall|k: Seq<u8>| #[trigger] contents(Some(t)).dom().contains(k) ==> from.is_prefix_of(k),
{
    let m = contents(Some(t));
    let rt = route(to);
    let core = s.with_skip(s.skip().skip(n as int));
    let x = s.reskin(n, rt)->Ok_0;
    assert forall|k: Seq<u8>| #[trigger] x.lookup(route(k)) == (if to.is_prefix_of(k) {
        core.lookup(route(k.skip(to.len() as int)))
    } else {
        None
    }) by {
        lemma_reskin(s, n, rt, route(k));
        lemma_route_begins(k, to);
    }
    assert((rt + s.skip().skip(n as int)).len() == rt.len() + s.skip().len() - n);
    lemma_complete_mod(s, 8 * from.len() - n, rt.len() - n);
    match s {
        Trie::Leaf { skip, value } => {},
        Trie::Branch { skip, left, right } => {
            assert(rt.len() - n + skip.len() + 1 == rt.len() + skip.len() - n + 1);
        },
        Trie::Pruned { hash, depth } => {},
    }
    assert forall|k: Seq<u8>| #[trigger] m.dom().contains(k) implies from.is_prefix_of(k) by {
        assert(lookup_root(None, route(k)) == (if from.is_prefix_of(k) {
            None
        } else {
            t.lookup(route(k))
        }));
    }
    assert(contents(Some(x)) =~= moved(m, from, to)) by {
        assert forall|k: Seq<u8>| contents(Some(x)).dom().contains(k) == moved(m, from, to).dom().contains(k) by {
            assert(x.lookup(route(k)) == (if to.is_prefix_of(k) {
                core.lookup(route(k.skip(to.len() as int)))
            } else {
                None
            }));
        }
    }
}

/// A move that leaves something behind.
proof fn lemma_move_some(t: Trie, from: Seq<u8>, to: Seq<u8>, u: Trie, s: Trie, n: nat)
    requires
        parted(t, from, Some(u), s.with_skip(s.skip().skip(n as int))),
        sound(Some(u)),
        !(s is Pruned),
        n <= s.skip().len() <= s.depth(),
        s.complete(8 * from.len() - n),
        8 * to.len() + s.depth() - n <= MAX_ROUTE_BITS,
    ensures
        match u.splice(route(to), s, n) {
            Ok(x) => {
                &&& sound(Some(x))
                &&& contents(Some(x)) == moved(contents(Some(t)), from, to)
                &&& forall|k: Seq<u8>| #[trigger]
                    contents(Some(t)).dom().contains(k) && !from.is_prefix_of(k) && k.is_prefix_of(to) ==> k == to
            },
            Err(f) => {
                &&& f == Fault::Key
                &&& exists|k: Seq<u8>| #[trigger]
                    contents(Some(t)).dom().contains(k) && !from.is_prefix_of(k) && k.is_prefix_of(to) && k != to
            },
        },
{
    let m = contents(Some(t));
    let rt = route(to);
    let core = s.with_skip(s.skip().skip(n as int));
    lemma_complete_mod(s, 8 * from.len() - n, 0 + rt.len() - n);
    lemma_splice(u, 0, rt, s, n, Seq::empty());
    lemma_splice_depth(u, rt, s, n, MAX_ROUTE_BITS as nat);
    match u.splice(rt, s, n) {
        Ok(x) => {
            assert forall|k: Seq<u8>| #[trigger] x.lookup(route(k)) == (if to.is_prefix_of(k) {
                core.lookup(route(k.skip(to.len() as int)))
            } else {
                u.lookup(route(k))
            }) by {
                lemma_splice(u, 0, rt, s, n, route(k));
                lemma_route_begins(k, to);
            }
            assert forall|k: Seq<u8>| u.lookup(route(k)) == (if from.is_prefix_of(k) {
                None
            } else {
                t.lookup(route(k))
            }) by {
                assert(lookup_root(Some(u), route(k)) == u.lookup(route(k)));
            }
            assert(contents(Some(x)) =~= moved(m, from, to));
            assert forall|k: Seq<u8>| #[trigger] m.dom().contains(k) && !from.is_prefix_of(k) && k.is_prefix_of(to) implies k
                == to by {
                lemma_splice(u, 0, rt, s, n, route(k));
                lemma_route_begins(to, k);
                lemma_key_ext(k, to);
            }
        },
        Err(f) => {
            let q = choose|q: Seq<bool>| (#[trigger] u.lookup(q)) is Some && begins(rt, q) && q != rt;
            lemma_stored_key(Some(u), q);
            let k = pack(q);
            lemma_route_begins(to, k);
            assert(lookup_root(Some(u), route(k)) is Some);
            assert(m.dom().contains(k) && !from.is_prefix_of(k) && k.is_prefix_of(to) && k != to);
        },
    }
}

/// The case of [`lemma_move_contents`] where some key moves.
proof fn lemma_move_step(t: Trie, from: Seq<u8>, to: Seq<u8>, strict: bool, t2: Option<Trie>, s: Trie, n: nat)
    requires
        sound(Some(t)),
        from.len() <= MAX_KEY_LEN,
        to.len() <= MAX_KEY_LEN,
        from != to,
        t.detach(route(from), strict) == Ok::<(Option<Trie>, Trie, nat), Fault>((t2, s, n)),
    ensures
        move_root(Some(t), from, to, strict) is Ok <==> move_allowed(contents(Some(t)), from, to),
        match move_root(Some(t), from, to, strict) {
            Ok(x) => sound(Some(x)) && contents(Some(x)) == moved(contents(Some(t)), from, to),
            Err(f) => f == Fault::Key,
        },
{
    lemma_parted(t, from, strict, t2, s, n);
    lemma_move_fits(t, from, to.len(), strict, t2, s, n);
    if move_fits(to.len(), s.depth(), n) is Ok {
        match t2 {
            None => {
                lemma_move_all(t, from, to, s, n);
            },
            Some(u) => {
                lemma_move_some(t, from, to, u, s, n);
            },
        }
    }
}

/// Completeness depends on the position in a byte only.
pub proof fn lemma_complete_mod(t: Trie, a: int, b: int)
    requires
        t.complete(a),
        (a - b) % 8 == 0,
    ensures
        t.complete(b),
    decreases t,
{
    match t {
        Trie::Leaf { skip, value } => {},
        Trie::Branch { skip, left, right } => {
            lemma_complete_mod(*left, a + skip.len() + 1, b + skip.len() + 1);
            lemma_complete_mod(*right, a + skip.len() + 1, b + skip.len() + 1);
        },
        Trie::Pruned { hash, depth } => {},
    }
}

/// Tries that store the same are the same: the root hash depends on what is
/// stored, and not on how it came to be stored.
pub proof fn law_root_is_determined_by_contents(a: Option<Trie>, b: Option<Trie>)
    requires
        sound(a),
        sound(b),
        contents(a) == contents(b),
    ensures
        a == b,
{
    assert forall|q: Seq<bool>| lookup_root(a, q) == lookup_root(b, q) by {
        if lookup_root(a, q) is Some {
            lemma_stored_key(a, q);
            assert(contents(b).dom().contains(pack(q)));
            assert(contents(a)[pack(q)] == contents(b)[pack(q)]);
        } else if lookup_root(b, q) is Some {
            lemma_stored_key(b, q);
            assert(contents(a).dom().contains(pack(q)));
        }
    }
    match (a, b) {
        (Some(x), Some(y)) => {
            assert forall|q: Seq<bool>| #[trigger] x.lookup(q) == y.lookup(q) by {
                assert(lookup_root(a, q) == lookup_root(b, q));
            }
            lemma_canonical(x, y, 0, 0);
        },
        (Some(x), None) => {
            lemma_sample(x, 0);
            assert(lookup_root(a, x.sample()) == lookup_root(b, x.sample()));
        },
        (None, Some(y)) => {
            lemma_sample(y, 0);
            assert(lookup_root(a, y.sample()) == lookup_root(b, y.sample()));
        },
        (None, None) => {},
    }
}

/// Nothing is stored just if there is no trie.
pub proof fn lemma_empty(root: Option<Trie>)
    requires
        sound(root),
    ensures
        root is None <==> contents(root) == Map::<Seq<u8>, Seq<u8>>::empty(),
{
    match root {
        Some(t) => {
            lemma_sample(t, 0);
            lemma_stored_key(root, t.sample());
        },
        None => {
            assert(contents(root) =~= Map::<Seq<u8>, Seq<u8>>::empty());
        },
    }
}

} // verus!
