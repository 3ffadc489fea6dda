//! Taking a subtrie out of a trie and putting it back, by keys.

use vstd::prelude::*;

use crate::bits::{lcp, lemma_key_ext, pack};
use crate::error::Fault;
use crate::mrt::contents::{begins, lemma_detach_leaves, lemma_detach_takes, lemma_reskin, lemma_splice, lookup_root};
use crate::mrt::keys::{contents, cut_prefix_root, law_root_is_determined_by_contents, lemma_complete_mod,
    lemma_cut_prefix_contents, lemma_deepest, lemma_drop_depth, lemma_empty, lemma_key_len, lemma_parted,
    lemma_route_begins, lemma_route_concat, lemma_splice_depth, lemma_stored_key, sound};
use crate::mrt::model::Trie;
use crate::mrt::prefix::{detach_root, splice_root};
use crate::mrt::route::{route, MAX_KEY_LEN, MAX_ROUTE_BITS};
use crate::mrt::store::hash_of;

verus! {

/// The entries of a store whose keys begin with `p`, by what follows `p`.
pub open spec fn under(m: Map<Seq<u8>, Seq<u8>>, p: Seq<u8>) -> Map<Seq<u8>, Seq<u8>> {
    Map::new(|x: Seq<u8>| m.dom().contains(p + x), |x: Seq<u8>| m[p + x])
}

/// The entries of a store whose keys do not begin with `p`.
pub open spec fn beside(m: Map<Seq<u8>, Seq<u8>>, p: Seq<u8>) -> Map<Seq<u8>, Seq<u8>> {
    m.remove_keys(Set::new(|k: Seq<u8>| p.is_prefix_of(k)))
}

/// What a captured subtrie holds: values by what follows the prefix in the
/// keys. The first `n` bits of the root belong to the prefix.
pub open spec fn captured(s: Trie, n: nat) -> Map<Seq<u8>, Seq<u8>> {
    contents(Some(s.with_skip(s.skip().skip(n as int))))
}

/// Whether a subtrie, of whose root the first `n` bits belong to a prefix, can
/// be a captured one.
pub open spec fn capture_ok(s: Trie, n: nat) -> bool {
    n <= s.skip().len() && s.complete(-(n as int)) && s.depth() - n <= MAX_ROUTE_BITS
}

/// Whether a store has a key that `q` begins with, other than `q`.
pub open spec fn blocks(m: Map<Seq<u8>, Seq<u8>>, q: Seq<u8>) -> bool {
    exists|k: Seq<u8>| #[trigger] m.dom().contains(k) && k.is_prefix_of(q) && k != q
}

/// What a store holds after all keys that begin with `q` gave way to those of
/// `c`, put under `q`.
pub open spec fn replaced(m: Map<Seq<u8>, Seq<u8>>, q: Seq<u8>, c: Map<Seq<u8>, Seq<u8>>) -> Map<Seq<u8>, Seq<u8>> {
    Map::new(
        |k: Seq<u8>|
            if q.is_prefix_of(k) {
                c.dom().contains(k.skip(q.len() as int))
            } else {
                m.dom().contains(k)
            },
        |k: Seq<u8>|
            if q.is_prefix_of(k) {
                c[k.skip(q.len() as int)]
            } else {
                m[k]
            },
    )
}

/// Taking out the keys that begin with `p` parts a store in two. It is refused
/// just if there are none. Else what is left holds the entries beside `p`, and
/// is the trie, with the hash, that removing the prefix leaves; and what is
/// captured holds the entries under `p`.
pub proof fn law_detach_parts_store(root: Option<Trie>, p: Seq<u8>, strict: bool)
    requires
        sound(root),
    ensures
        match detach_root(root, p, strict) {
            Err(f) => {
                &&& f == Fault::Key
                &&& forall|k: Seq<u8>| #[trigger] contents(root).dom().contains(k) ==> !p.is_prefix_of(k)
            },
            Ok((rest, s, n)) => {
                &&& exists|k: Seq<u8>| #[trigger] contents(root).dom().contains(k) && p.is_prefix_of(k)
                &&& sound(rest)
                &&& contents(rest) == beside(contents(root), p)
                &&& rest is None <==> beside(contents(root), p) == Map::<Seq<u8>, Seq<u8>>::empty()
                &&& cut_prefix_root(root, p) == Ok::<Option<Trie>, Fault>(rest)
                &&& capture_ok(s, n)
                &&& captured(s, n) == under(contents(root), p)
            },
        },
{
    let m = contents(root);
    if let Some(t) = root {
        let rp = route(p);
        lemma_detach_leaves(t, 0, rp, strict, Seq::empty());
        match t.detach(rp, strict) {
            Err(f) => {
                assert forall|k: Seq<u8>| #[trigger] m.dom().contains(k) implies !p.is_prefix_of(k) by {
                    if p.is_prefix_of(k) {
                        let x = k.skip(p.len() as int);
                        assert(p + x =~= k);
                        lemma_route_concat(p, x);
                        lemma_detach_takes(t, 0, rp, strict, route(x));
                    }
                }
            },
            Ok((rest, s, n)) => {
                lemma_parted(t, p, strict, rest, s, n);
                lemma_detach_takes(t, 0, rp, strict, Seq::empty());
                let core = s.with_skip(s.skip().skip(n as int));
                lemma_complete_mod(s, 8 * p.len() - n, -(n as int));
                assert(contents(rest) =~= beside(m, p)) by {
                    assert forall|k: Seq<u8>| #[trigger] contents(rest).dom().contains(k) <==> beside(
                        m,
                        p,
                    ).dom().contains(k) by {
                        assert(lookup_root(rest, route(k)) == (if p.is_prefix_of(k) {
                            None
                        } else {
                            t.lookup(route(k))
                        }));
                    }
                }
                assert(captured(s, n) =~= under(m, p)) by {
                    assert forall|x: Seq<u8>| #[trigger] captured(s, n).dom().contains(x) <==> under(
                        m,
                        p,
                    ).dom().contains(x) by {
                        assert(core.lookup(route(x)) == t.lookup(route(p + x)));
                    }
                }
                let x = lemma_captured_some(s, n);
                assert(under(m, p).dom().contains(x));
                let k = p + x;
                assert(p.is_prefix_of(k)) by {
                    assert(k.subrange(0, p.len() as int) =~= p);
                }
                assert(m.dom().contains(k) && p.is_prefix_of(k));
                lemma_key_len(root, k);
                lemma_cut_prefix_contents(root, p);
                law_root_is_determined_by_contents(cut_prefix_root(root, p)->Ok_0, rest);
                lemma_empty(rest);
            },
        }
    }
}

/// A captured subtrie holds something, and as much as it is deep.
proof fn lemma_captured_some(s: Trie, n: nat) -> (x: Seq<u8>)
    requires
        capture_ok(s, n),
    ensures
        captured(s, n).dom().contains(x),
        8 * x.len() == s.depth() - n,
{
    let core = s.with_skip(s.skip().skip(n as int));
    lemma_core(s, n);
    let q = lemma_deepest(core, 0);
    lemma_stored_key(Some(core), q);
    assert(route(pack(q)).len() == 8 * pack(q).len());
    pack(q)
}

/// A captured subtrie without the bits of the prefix is a trie of its own.
proof fn lemma_core(s: Trie, n: nat)
    requires
        capture_ok(s, n),
    ensures
        !(s is Pruned),
        s.with_skip(s.skip().skip(n as int)).complete(0),
        s.with_skip(s.skip().skip(n as int)).depth() == s.depth() - n,
{
    lemma_drop_depth(s, n);
    match s {
        Trie::Leaf { skip, value } => {},
        Trie::Branch { skip, left, right } => {
            assert(-n + skip.len() + 1 == 0 + (skip.len() - n) + 1);
        },
        Trie::Pruned { hash, depth } => {},
    }
}

/// Where the keys that begin with `p` lie is where they are taken out.
pub proof fn law_located_is_what_is_detached(t: Trie, p: Seq<bool>)
    ensures
        match (t.locate(p), t.detach(p, false)) {
            (Ok((s, n)), Ok((rest, taken, m))) => s == taken && n == m,
            (Err(f), Err(g)) => f == g,
            _ => false,
        },
    decreases t,
{
    let k = lcp(t.skip(), p) as int;
    if let Trie::Branch { skip, left, right } = t {
        if k != p.len() && k == skip.len() {
            if p[k] {
                law_located_is_what_is_detached(*right, p.skip(k + 1));
            } else {
                law_located_is_what_is_detached(*left, p.skip(k + 1));
            }
        }
    }
}

/// The keys of a store that begin with `p` can be located just if there are some, and
/// what is located holds the entries under `p`.
pub proof fn law_prefix_is_located(t: Trie, p: Seq<u8>)
    requires
        sound(Some(t)),
    ensures
        match t.locate(route(p)) {
            Ok((s, n)) => {
                &&& exists|k: Seq<u8>| #[trigger] contents(Some(t)).dom().contains(k) && p.is_prefix_of(k)
                &&& capture_ok(s, n)
                &&& captured(s, n) == under(contents(Some(t)), p)
            },
            Err(f) => f == Fault::Key && forall|k: Seq<u8>| #[trigger]
                contents(Some(t)).dom().contains(k) ==> !p.is_prefix_of(k),
        },
{
    law_located_is_what_is_detached(t, route(p));
    law_detach_parts_store(Some(t), p, false);
}

/// Putting a captured subtrie under `q` replaces what was there. It is refused
/// just if the store has a key that `q` begins with, other than `q`. Else the
/// store holds what was beside `q` and, under `q`, what was captured, and has
/// the hash of every trie that holds this.
pub proof fn law_splice_replaces(root: Option<Trie>, q: Seq<u8>, s: Trie, n: nat)
    requires
        sound(root),
        capture_ok(s, n),
        forall|x: Seq<u8>| #[trigger] captured(s, n).dom().contains(x) ==> q.len() + x.len() <= MAX_KEY_LEN,
    ensures
        match splice_root(root, q, s, n) {
            Err(f) => f == Fault::Key && blocks(contents(root), q),
            Ok(t) => {
                &&& !blocks(contents(root), q)
                &&& sound(Some(t))
                &&& contents(Some(t)) == replaced(contents(root), q, captured(s, n))
                &&& forall|u: Option<Trie>|
                    sound(u) && #[trigger] contents(u) == replaced(contents(root), q, captured(s, n)) ==> hash_of(u)
                        == hash_of(Some(t))
            },
        },
{
    let m = contents(root);
    let c = captured(s, n);
    let rq = route(q);
    let core = s.with_skip(s.skip().skip(n as int));
    let longest = lemma_captured_some(s, n);
    lemma_core(s, n);
    assert(q.len() + longest.len() <= MAX_KEY_LEN);
    assert(rq.len() == 8 * q.len());
    lemma_complete_mod(s, -(n as int), rq.len() - n);
    match root {
        None => {
            let t = s.reskin(n, rq)->Ok_0;
            assert forall|k: Seq<u8>| #[trigger] t.lookup(route(k)) == (if q.is_prefix_of(k) {
                core.lookup(route(k.skip(q.len() as int)))
            } else {
                None
            }) by {
                lemma_reskin(s, n, rq, route(k));
                lemma_route_begins(k, q);
            }
            match s {
                Trie::Leaf { skip, value } => {
                    assert((rq + skip.skip(n as int)).len() == rq.len() - n + skip.len());
                },
                Trie::Branch { skip, left, right } => {
                    assert((rq + skip.skip(n as int)).len() == rq.len() - n + skip.len());
                    assert(rq.len() - n + skip.len() + 1 == 0 + (rq.len() - n + skip.len()) + 1);
                },
                Trie::Pruned { hash, depth } => {},
            }
            assert(contents(Some(t)) =~= replaced(m, q, c));
            lemma_same_hash(t);
        },
        Some(u) => {
            lemma_splice(u, 0, rq, s, n, Seq::empty());
            lemma_splice_depth(u, rq, s, n, MAX_ROUTE_BITS as nat);
            match u.splice(rq, s, n) {
                Ok(t) => {
                    assert forall|k: Seq<u8>| #[trigger] t.lookup(route(k)) == (if q.is_prefix_of(k) {
                        core.lookup(route(k.skip(q.len() as int)))
                    } else {
                        u.lookup(route(k))
                    }) by {
                        lemma_splice(u, 0, rq, s, n, route(k));
                        lemma_route_begins(k, q);
                    }
                    assert(contents(Some(t)) =~= replaced(m, q, c));
                    assert forall|k: Seq<u8>| #[trigger] m.dom().contains(k) && k.is_prefix_of(q) implies k == q by {
                        lemma_splice(u, 0, rq, s, n, route(k));
                        lemma_route_begins(q, k);
                        lemma_key_ext(k, q);
                    }
                    lemma_same_hash(t);
                },
                Err(f) => {
                    let r = choose|r: Seq<bool>| (#[trigger] u.lookup(r)) is Some && begins(rq, r) && r != rq;
                    lemma_stored_key(Some(u), r);
                    let k = pack(r);
                    lemma_route_begins(q, k);
                    assert(m.dom().contains(k) && k.is_prefix_of(q) && k != q);
                },
            }
        },
    }
}

/// Tries that store the same have the same hash.
proof fn lemma_same_hash(t: Trie)
    requires
        sound(Some(t)),
    ensures
        forall|u: Option<Trie>|
            sound(u) && #[trigger] contents(u) == contents(Some(t)) ==> hash_of(u) == hash_of(Some(t)),
{
    assert forall|u: Option<Trie>| sound(u) && #[trigger] contents(u) == contents(Some(t)) implies hash_of(u) == hash_of(
        Some(t),
    ) by {
        law_root_is_determined_by_contents(u, Some(t));
    }
}

} // verus!
