//! What a root hash commits to: a trace with the root hash of a store shows a
//! part of that store, and what is read from it or done to it is true of the
//! store, unless SHA-256 collides on the byte strings that the two are hashed
//! from.

use vstd::prelude::*;

use crate::bits::{key_lt, lcp, lemma_lcp, padded};
use crate::error::{Error, Fault};
use crate::hash::{sha256_of, NodeHash, NULL_HASH};
use crate::mrt::keys::{bound_route, contents, sound};
use crate::mrt::model::{
    be32, branch_preimage, child_span, framed, hi_place, join, leaf_preimage, lo_place, place, BoundPosition, Span, Trie,
};
use crate::mrt::prune::{law_pruning_keeps_hash, prune};
use crate::mrt::query_proof::{lookup_of, query_rows, verified};
use crate::mrt::route::{agrees, route, MAX_ROUTE_BITS};
use crate::mrt::scan::{drain, entry, flat, from_bound, gives, lemma_drain_add, End, Item, Until};
use crate::mrt::session::{answer, law_answer_tells_the_store, run, step_change, Event};
use crate::mrt::store::hash_of;
use crate::mrt::tracer::{least_trace, prune_root};
use crate::mrt::wire::{decodable_root, encoded_root, law_decode_undoes_encode, lemma_as_hash, lemma_be32,
    lemma_parse_framed, lemma_parse_sound, parse_root};
use crate::ops::{Change, Lookup};
use crate::proofs::query::QueryPart;
use crate::tracer::successor;

verus! {

/// The byte strings that a trie is hashed from: that of its root, and those of what is below.
pub open spec fn preimages(t: Trie) -> Set<Seq<u8>>
    decreases t,
{
    match t {
        Trie::Leaf { skip, value } => set![leaf_preimage(skip, value)],
        Trie::Branch { skip, left, right } => preimages(*left).union(preimages(*right)).insert(
            branch_preimage(left.hash(), right.hash(), left.depth(), right.depth(), skip),
        ),
        Trie::Pruned { hash, depth } => Set::empty(),
    }
}

/// As [`preimages`], for a trie that may be empty.
pub open spec fn root_preimages(root: Option<Trie>) -> Set<Seq<u8>> {
    match root {
        Some(t) => preimages(t),
        None => Set::empty(),
    }
}

/// Byte strings of the two sets that are not the same have different digests.
pub open spec fn apart_digests(a: Set<Seq<u8>>, b: Set<Seq<u8>>) -> bool {
    forall|x: Seq<u8>, y: Seq<u8>| #[trigger]
        a.contains(x) && #[trigger] b.contains(y) && sha256_of(x) == sha256_of(y) ==> x == y
}

/// No byte string of the set has the digest that stands for an empty trie.
pub open spec fn nonzero_digests(a: Set<Seq<u8>>) -> bool {
    forall|x: Seq<u8>| #[trigger] a.contains(x) ==> sha256_of(x) != NULL_HASH
}

/// SHA-256 keeps apart what two tries are hashed from, and gives none of it the hash of an empty trie.
pub open spec fn no_collision(a: Option<Trie>, b: Option<Trie>) -> bool {
    &&& apart_digests(root_preimages(a), root_preimages(b))
    &&& nonzero_digests(root_preimages(a))
    &&& nonzero_digests(root_preimages(b))
}

/// Whether a trie is a part of another: the same, but for subtries of which only the hash and the depth are left.
pub open spec fn shows(t: Trie, s: Trie) -> bool
    decreases t,
{
    match t {
        Trie::Leaf { skip, value } => s == t,
        Trie::Branch { skip, left, right } => match s {
            Trie::Branch { skip: skip2, left: left2, right: right2 } => skip == skip2 && shows(*left, *left2) && shows(
                *right,
                *right2,
            ),
            _ => false,
        },
        Trie::Pruned { hash, depth } => s.hash() == hash && s.depth() == depth,
    }
}

/// As [`shows`], for tries that may be empty.
pub open spec fn shows_root(a: Option<Trie>, b: Option<Trie>) -> bool {
    match (a, b) {
        (Some(t), Some(s)) => shows(t, s),
        (None, None) => true,
        _ => false,
    }
}

/// A part has the hash and the depth of the whole.
pub proof fn lemma_shows_hash(t: Trie, s: Trie)
    requires
        shows(t, s),
    ensures
        t.hash() == s.hash(),
        t.depth() == s.depth(),
    decreases t,
{
    if let Trie::Branch { skip, left, right } = t {
        if let Trie::Branch { skip: skip2, left: left2, right: right2 } = s {
            lemma_shows_hash(*left, *left2);
            lemma_shows_hash(*right, *right2);
        }
    }
}

/// What a leaf is hashed from tells its bits and its value.
proof fn lemma_leaf_preimage(skip: Seq<bool>, value: Seq<u8>, skip2: Seq<bool>, value2: Seq<u8>)
    requires
        skip.len() <= MAX_ROUTE_BITS,
        skip2.len() <= MAX_ROUTE_BITS,
        leaf_preimage(skip, value) == leaf_preimage(skip2, value2),
    ensures
        skip == skip2,
        value == value2,
{
    let x = value + seq![1u8];
    let y = value2 + seq![1u8];
    assert(leaf_preimage(skip, value) =~= framed(skip) + x);
    assert(leaf_preimage(skip2, value2) =~= framed(skip2) + y);
    lemma_parse_framed(skip, x);
    lemma_parse_framed(skip2, y);
    assert(x.drop_last() =~= value);
    assert(y.drop_last() =~= value2);
}

/// What a branch is hashed from tells its children's hashes and depths, and its bits.
proof fn lemma_branch_preimage(
    l: NodeHash,
    r: NodeHash,
    dl: nat,
    dr: nat,
    skip: Seq<bool>,
    l2: NodeHash,
    r2: NodeHash,
    dl2: nat,
    dr2: nat,
    skip2: Seq<bool>,
)
    requires
        dl <= MAX_ROUTE_BITS,
        dr <= MAX_ROUTE_BITS,
        skip.len() <= MAX_ROUTE_BITS,
        dl2 <= MAX_ROUTE_BITS,
        dr2 <= MAX_ROUTE_BITS,
        skip2.len() <= MAX_ROUTE_BITS,
        branch_preimage(l, r, dl, dr, skip) == branch_preimage(l2, r2, dl2, dr2, skip2),
    ensures
        l == l2,
        r == r2,
        dl == dl2,
        dr == dr2,
        skip == skip2,
{
    let p = branch_preimage(l, r, dl, dr, skip);
    let e = Seq::<u8>::empty();
    lemma_be32(dl, e);
    lemma_be32(dr, e);
    lemma_be32(dl2, e);
    lemma_be32(dr2, e);
    assert(be32(dl) + e =~= be32(dl));
    assert(be32(dr) + e =~= be32(dr));
    assert(be32(dl2) + e =~= be32(dl2));
    assert(be32(dr2) + e =~= be32(dr2));
    assert(p.subrange(0, 32) =~= l@);
    assert(p.subrange(0, 32) =~= l2@);
    assert(p.subrange(32, 64) =~= r@);
    assert(p.subrange(32, 64) =~= r2@);
    assert(p.subrange(64, 68) =~= be32(dl));
    assert(p.subrange(64, 68) =~= be32(dl2));
    assert(p.subrange(68, 72) =~= be32(dr));
    assert(p.subrange(68, 72) =~= be32(dr2));
    lemma_as_hash(l);
    lemma_as_hash(l2);
    lemma_as_hash(r);
    lemma_as_hash(r2);
    lemma_parse_framed(skip, seq![0u8]);
    lemma_parse_framed(skip2, seq![0u8]);
    assert(p.skip(72) =~= framed(skip) + seq![0u8]);
    assert(p.skip(72) =~= framed(skip2) + seq![0u8]);
}

/// What a leaf is hashed from is not what a branch is hashed from.
proof fn lemma_kinds_apart(skip: Seq<bool>, value: Seq<u8>, l: NodeHash, r: NodeHash, dl: nat, dr: nat, skip2: Seq<bool>)
    ensures
        leaf_preimage(skip, value) != branch_preimage(l, r, dl, dr, skip2),
{
    assert(leaf_preimage(skip, value).last() == 1);
    assert(branch_preimage(l, r, dl, dr, skip2).last() == 0);
}

/// A trie with the hash of a complete one is a part of it.
pub proof fn lemma_same_hash_shows(t: Trie, s: Trie, d: int)
    requires
        t.hash() == s.hash(),
        t is Pruned ==> t.depth() == s.depth(),
        t.depth() <= MAX_ROUTE_BITS,
        s.depth() <= MAX_ROUTE_BITS,
        s.complete(d),
        apart_digests(preimages(t), preimages(s)),
    ensures
        shows(t, s),
    decreases t,
{
    match (t, s) {
        (Trie::Pruned { .. }, _) => {},
        (Trie::Leaf { skip, value }, Trie::Leaf { skip: skip2, value: value2 }) => {
            assert(preimages(t).contains(leaf_preimage(skip, value)));
            assert(preimages(s).contains(leaf_preimage(skip2, value2)));
            lemma_leaf_preimage(skip, value, skip2, value2);
        },
        (Trie::Branch { skip, left, right }, Trie::Branch { skip: skip2, left: left2, right: right2 }) => {
            let x = branch_preimage(left.hash(), right.hash(), left.depth(), right.depth(), skip);
            let y = branch_preimage(left2.hash(), right2.hash(), left2.depth(), right2.depth(), skip2);
            assert(preimages(t).contains(x));
            assert(preimages(s).contains(y));
            assert(x == y);
            lemma_branch_preimage(
                left.hash(),
                right.hash(),
                left.depth(),
                right.depth(),
                skip,
                left2.hash(),
                right2.hash(),
                left2.depth(),
                right2.depth(),
                skip2,
            );
            assert forall|a: Seq<u8>, b: Seq<u8>| #[trigger]
                preimages(*left).contains(a) && #[trigger] preimages(*left2).contains(b) && sha256_of(a) == sha256_of(b) implies a == b by {
                assert(preimages(t).contains(a));
                assert(preimages(s).contains(b));
            }
            assert forall|a: Seq<u8>, b: Seq<u8>| #[trigger]
                preimages(*right).contains(a) && #[trigger] preimages(*right2).contains(b) && sha256_of(a) == sha256_of(b) implies a == b by {
                assert(preimages(t).contains(a));
                assert(preimages(s).contains(b));
            }
            lemma_same_hash_shows(*left, *left2, d + skip2.len() + 1);
            lemma_same_hash_shows(*right, *right2, d + skip2.len() + 1);
        },
        (Trie::Leaf { skip, value }, Trie::Branch { skip: skip2, left: left2, right: right2 }) => {
            let y = branch_preimage(left2.hash(), right2.hash(), left2.depth(), right2.depth(), skip2);
            assert(preimages(t).contains(leaf_preimage(skip, value)));
            assert(preimages(s).contains(y));
            lemma_kinds_apart(skip, value, left2.hash(), right2.hash(), left2.depth(), right2.depth(), skip2);
        },
        (Trie::Branch { skip, left, right }, Trie::Leaf { skip: skip2, value }) => {
            let x = branch_preimage(left.hash(), right.hash(), left.depth(), right.depth(), skip);
            assert(preimages(t).contains(x));
            assert(preimages(s).contains(leaf_preimage(skip2, value)));
            lemma_kinds_apart(skip2, value, left.hash(), right.hash(), left.depth(), right.depth(), skip);
        },
        _ => {},
    }
}

/// What may come out of a trace: its root is not pruned, and no route is too long.
pub open spec fn trace_like(root: Option<Trie>) -> bool {
    root matches Some(t) ==> !(t is Pruned) && t.depth() <= MAX_ROUTE_BITS
}

/// A trace with the root hash of a store shows a part of that store, unless SHA-256 collides on what the two are
/// hashed from.
pub proof fn law_same_root_hash_shows_store(trace: Option<Trie>, store: Option<Trie>)
    requires
        trace_like(trace),
        sound(store),
        hash_of(trace) == hash_of(store),
        no_collision(trace, store),
    ensures
        shows_root(trace, store),
{
    match (trace, store) {
        (Some(t), Some(s)) => {
            lemma_same_hash_shows(t, s, 0);
        },
        (Some(t), None) => {
            lemma_own_preimage(t);
        },
        (None, Some(s)) => {
            lemma_own_preimage(s);
        },
        (None, None) => {},
    }
}

/// The hash of a trie that is not pruned is the digest of one of the byte strings.
proof fn lemma_own_preimage(t: Trie)
    requires
        !(t is Pruned),
        nonzero_digests(preimages(t)),
    ensures
        t.hash() != NULL_HASH,
{
    match t {
        Trie::Leaf { skip, value } => {
            assert(preimages(t).contains(leaf_preimage(skip, value)));
        },
        Trie::Branch { skip, left, right } => {
            assert(preimages(t).contains(branch_preimage(left.hash(), right.hash(), left.depth(), right.depth(), skip)));
        },
        _ => {},
    }
}

/// A part that hides nothing is the whole.
proof fn lemma_shows_all(t: Trie, s: Trie, d: int)
    requires
        shows(t, s),
        t.complete(d),
    ensures
        t == s,
    decreases t,
{
    if let Trie::Branch { skip, left, right } = t {
        if let Trie::Branch { skip: skip2, left: left2, right: right2 } = s {
            lemma_shows_all(*left, *left2, d + skip.len() + 1);
            lemma_shows_all(*right, *right2, d + skip.len() + 1);
        }
    }
}

/// Stores with the same root hash hold the same, unless SHA-256 collides on what they are hashed from.
pub proof fn law_root_hash_determines_contents(a: Option<Trie>, b: Option<Trie>)
    requires
        sound(a),
        sound(b),
        hash_of(a) == hash_of(b),
        no_collision(a, b),
    ensures
        a == b,
        contents(a) == contents(b),
{
    law_same_root_hash_shows_store(a, b);
    if let Some(t) = a {
        lemma_shows_all(t, b->0, 0);
    }
}

/// What a search in a part finds is what a search in the whole finds.
proof fn lemma_shows_find(t: Trie, s: Trie, k: Seq<bool>, d: int)
    requires
        shows(t, s),
        t.find(k, d) is Ok,
    ensures
        s.find(k, d) == t.find(k, d),
    decreases t,
{
    if let Trie::Branch { skip, left, right } = t {
        if let Trie::Branch { skip: skip2, left: left2, right: right2 } = s {
            if agrees(skip, k, d) {
                if padded(k, d + skip.len()) {
                    lemma_shows_find(*right, *right2, k, d + skip.len() + 1);
                } else {
                    lemma_shows_find(*left, *left2, k, d + skip.len() + 1);
                }
            }
        }
    }
}

/// A scan over all of a part that meets no hole gives what the scan over the whole gives.
proof fn lemma_shows_flat(t: Trie, s: Trie, prefix: Seq<bool>, until: Until)
    requires
        shows(t, s),
        !(drain(flat(t, prefix), until).end is Failed),
    ensures
        drain(flat(s, prefix), until) == drain(flat(t, prefix), until),
    decreases t,
{
    match t {
        Trie::Branch { skip, left, right } => {
            if let Trie::Branch { skip: skip2, left: left2, right: right2 } = s {
                let pl = prefix + skip + seq![false];
                let pr = prefix + skip + seq![true];
                lemma_drain_add(flat(*left, pl), flat(*right, pr), until);
                lemma_drain_add(flat(*left2, pl), flat(*right2, pr), until);
                lemma_shows_flat(*left, *left2, pl, until);
                if drain(flat(*left, pl), until).end is Exhausted {
                    lemma_shows_flat(*right, *right2, pr, until);
                }
            }
        },
        Trie::Leaf { skip, value } => {},
        Trie::Pruned { hash, depth } => {
            assert(flat(t, prefix)[0] is Hole);
        },
    }
}

/// As [`lemma_shows_flat`], for a scan from a bound on.
proof fn lemma_shows_scan(t: Trie, s: Trie, prefix: Seq<bool>, k: Seq<bool>, until: Until)
    requires
        shows(t, s),
        from_bound(t, prefix, k) is Ok,
        !(drain(from_bound(t, prefix, k)->Ok_0, until).end is Failed),
    ensures
        from_bound(s, prefix, k) is Ok,
        drain(from_bound(s, prefix, k)->Ok_0, until) == drain(from_bound(t, prefix, k)->Ok_0, until),
    decreases t,
{
    if let Trie::Branch { skip, left, right } = t {
        if let Trie::Branch { skip: skip2, left: left2, right: right2 } = s {
            let pl = prefix + skip + seq![false];
            let pr = prefix + skip + seq![true];
            match place(skip, k, prefix.len() as int) {
                BoundPosition::Before => {
                    lemma_shows_flat(t, s, prefix, until);
                },
                BoundPosition::After => {},
                BoundPosition::InLeft => {
                    let a = from_bound(*left, pl, k)->Ok_0;
                    lemma_drain_add(a, flat(*right, pr), until);
                    lemma_shows_scan(*left, *left2, pl, k, until);
                    let b = from_bound(*left2, pl, k)->Ok_0;
                    lemma_drain_add(b, flat(*right2, pr), until);
                    if drain(a, until).end is Exhausted {
                        lemma_shows_flat(*right, *right2, pr, until);
                    }
                },
                BoundPosition::InRight => {
                    lemma_shows_scan(*right, *right2, pr, k, until);
                },
            }
        }
    }
}

/// What can be read from a part is what is read from the whole.
pub proof fn law_shown_reads_are_true(a: Option<Trie>, b: Option<Trie>, l: Lookup)
    requires
        shows_root(a, b),
        answer(a, l) is Ok,
    ensures
        answer(b, l) == answer(a, l),
{
    if let Some(t) = a {
        let s = b->0;
        match l {
            Lookup::Key(key) => {
                lemma_shows_find(t, s, route(key), 0);
            },
            Lookup::Range { start, end } => {
                if key_lt(start, end) {
                    lemma_shows_scan(t, s, Seq::empty(), route(start), Until::From(end));
                }
            },
            Lookup::RangeInclusive { start, end } => {
                lemma_shows_scan(t, s, Seq::empty(), route(start), Until::After(end));
            },
            Lookup::Prefix(prefix) => {
                lemma_shows_scan(t, s, Seq::empty(), route(prefix), Until::Outside(prefix));
            },
        }
    }
}

/// Whether an item stands for an entry, or is a hole.
spec fn entry_or_hole(i: Item) -> bool {
    entry(i) matches Err(f) ==> f == Fault::Pruned
}

/// Whether items stand for entries, but for holes.
spec fn only_holes(items: Seq<Item>) -> bool {
    forall|i: int| 0 <= i < items.len() ==> entry_or_hole(#[trigger] items[i])
}

/// A part of a complete trie is made of entries and holes.
proof fn lemma_part_flat(t: Trie, s: Trie, prefix: Seq<bool>)
    requires
        shows(t, s),
        s.complete(prefix.len() as int),
    ensures
        only_holes(flat(t, prefix)),
    decreases t,
{
    if let Trie::Branch { skip, left, right } = t {
        if let Trie::Branch { skip: skip2, left: left2, right: right2 } = s {
            lemma_part_flat(*left, *left2, prefix + skip + seq![false]);
            lemma_part_flat(*right, *right2, prefix + skip + seq![true]);
        }
    }
}

/// As [`lemma_part_flat`], from a route on.
proof fn lemma_part_from(t: Trie, s: Trie, prefix: Seq<bool>, k: Seq<bool>)
    requires
        shows(t, s),
        s.complete(prefix.len() as int),
    ensures
        match from_bound(t, prefix, k) {
            Ok(items) => only_holes(items),
            Err(f) => f == Fault::Pruned,
        },
    decreases t,
{
    lemma_part_flat(t, s, prefix);
    if let Trie::Branch { skip, left, right } = t {
        if let Trie::Branch { skip: skip2, left: left2, right: right2 } = s {
            lemma_part_from(*left, *left2, prefix + skip + seq![false], k);
            lemma_part_from(*right, *right2, prefix + skip + seq![true], k);
            lemma_part_flat(*right, *right2, prefix + skip + seq![true]);
        }
    }
}

/// A scan over entries and holes fails at a hole alone.
proof fn lemma_holes_drain(items: Seq<Item>, until: Until)
    requires
        only_holes(items),
    ensures
        drain(items, until).end matches End::Failed(f) ==> f == Fault::Pruned,
    decreases items.len(),
{
    if items.len() > 0 {
        assert(entry_or_hole(items[0]));
        assert forall|i: int| 0 <= i < items.skip(1).len() implies entry_or_hole(#[trigger] items.skip(1)[i]) by {
            assert(items.skip(1)[i] == items[i + 1]);
        }
        lemma_holes_drain(items.skip(1), until);
    }
}

/// A search fails at a hole alone.
proof fn lemma_find_fails(t: Trie, k: Seq<bool>, d: int)
    ensures
        t.find(k, d) matches Err(f) ==> f == Fault::Pruned,
    decreases t,
{
    if let Trie::Branch { skip, left, right } = t {
        lemma_find_fails(*left, k, d + skip.len() + 1);
        lemma_find_fails(*right, k, d + skip.len() + 1);
    }
}

/// Where a read of a part of a store fails and a read of the store does not, it fails
/// because of what is hidden, and says so.
pub proof fn law_failed_reads_tell_of_what_is_hidden(a: Option<Trie>, b: Option<Trie>, l: Lookup)
    requires
        shows_root(a, b),
        sound(b),
        answer(b, l) is Ok,
    ensures
        answer(a, l) matches Err(f) ==> f == Fault::Pruned,
{
    law_answer_tells_the_store(b, l);
    if let Some(t) = a {
        let s = b->0;
        let none = Seq::<bool>::empty();
        match l {
            Lookup::Key(key) => {
                lemma_find_fails(t, route(key), 0);
            },
            Lookup::Range { start, end } => {
                lemma_part_from(t, s, none, route(start));
                if let Ok(items) = from_bound(t, none, route(start)) {
                    lemma_holes_drain(items, Until::From(end));
                }
            },
            Lookup::RangeInclusive { start, end } => {
                lemma_part_from(t, s, none, route(start));
                if let Ok(items) = from_bound(t, none, route(start)) {
                    lemma_holes_drain(items, Until::After(end));
                }
            },
            Lookup::Prefix(prefix) => {
                lemma_part_from(t, s, none, route(prefix));
                if let Ok(items) = from_bound(t, none, route(prefix)) {
                    lemma_holes_drain(items, Until::Outside(prefix));
                }
            },
        }
    }
}

/// Storing in a part.
proof fn lemma_shows_insert(t: Trie, s: Trie, r: Seq<bool>, v: Seq<u8>)
    requires
        shows(t, s),
        t.insert(r, v) is Ok,
    ensures
        s.insert(r, v) is Ok,
        shows(t.insert(r, v)->Ok_0, s.insert(r, v)->Ok_0),
    decreases t,
{
    reveal_with_fuel(shows, 3);
    let k = lcp(t.skip(), r) as int;
    if let Trie::Branch { skip, left, right } = t {
        if let Trie::Branch { skip: skip2, left: left2, right: right2 } = s {
            lemma_lcp(skip, r);
            if k == skip.len() && k < r.len() {
                if r[k] {
                    lemma_shows_insert(*right, *right2, r.skip(k + 1), v);
                } else {
                    lemma_shows_insert(*left, *left2, r.skip(k + 1), v);
                }
            }
        }
    }
}

/// The parts that a join of parts shows.
proof fn lemma_shows_join(skip: Seq<bool>, l: Option<Trie>, r: Option<Trie>, l2: Option<Trie>, r2: Option<Trie>)
    requires
        shows_root(l, l2),
        shows_root(r, r2),
        l is None ==> !(r matches Some(t) && t is Pruned),
        r is None ==> !(l matches Some(t) && t is Pruned),
    ensures
        shows_root(join(skip, l, r), join(skip, l2, r2)),
{
}

/// Whether removing the route `k` leaves no hidden subtrie as the only child of a branch.
pub open spec fn clear_remove(t: Trie, k: Seq<bool>, d: int) -> bool
    decreases t,
{
    match t {
        Trie::Branch { skip, left, right } => if !agrees(skip, k, d) {
            true
        } else if padded(k, d + skip.len()) {
            clear_remove(*right, k, d + skip.len() + 1) && (right.remove(k, d + skip.len() + 1) == Ok::<
                Option<Option<Trie>>,
                Fault,
            >(Some(None)) ==> !(*left is Pruned))
        } else {
            clear_remove(*left, k, d + skip.len() + 1) && (left.remove(k, d + skip.len() + 1) == Ok::<
                Option<Option<Trie>>,
                Fault,
            >(Some(None)) ==> !(*right is Pruned))
        },
        _ => true,
    }
}

/// Removing from a part.
proof fn lemma_shows_remove(t: Trie, s: Trie, k: Seq<bool>, d: int)
    requires
        shows(t, s),
        t.remove(k, d) is Ok,
        clear_remove(t, k, d),
    ensures
        s.remove(k, d) is Ok,
        match (t.remove(k, d)->Ok_0, s.remove(k, d)->Ok_0) {
            (None, None) => true,
            (Some(x), Some(y)) => shows_root(x, y),
            _ => false,
        },
    decreases t,
{
    if let Trie::Branch { skip, left, right } = t {
        if let Trie::Branch { skip: skip2, left: left2, right: right2 } = s {
            if agrees(skip, k, d) {
                let e = d + skip.len() + 1;
                if padded(k, d + skip.len()) {
                    lemma_shows_remove(*right, *right2, k, e);
                    if let Some(x) = right.remove(k, e)->Ok_0 {
                        let y = right2.remove(k, e)->Ok_0->0;
                        lemma_shows_join(skip, Some(*left), x, Some(*left2), y);
                    }
                } else {
                    lemma_shows_remove(*left, *left2, k, e);
                    if let Some(x) = left.remove(k, e)->Ok_0 {
                        let y = left2.remove(k, e)->Ok_0->0;
                        lemma_shows_join(skip, x, Some(*right), y, Some(*right2));
                    }
                }
            }
        }
    }
}

/// What a cut makes of the child on `side`.
pub open spec fn cut_child(
    skip: Seq<bool>,
    left: Trie,
    right: Trie,
    d: int,
    lo: Option<Seq<bool>>,
    hi: Option<Seq<bool>>,
    side: bool,
) -> Result<Option<Trie>, Fault> {
    let child = if side {
        right
    } else {
        left
    };
    match child_span(skip, d, lo, hi, side) {
        Span::Outside => Ok(Some(child)),
        Span::Within { lo, hi } => child.cut(d + skip.len() + 1, lo, hi),
    }
}

/// Whether a child that is left is shown.
pub open spec fn hidden(t: Result<Option<Trie>, Fault>) -> bool {
    t matches Ok(Some(Trie::Pruned { hash, depth }))
}

/// Whether cutting from `lo` up to `hi` leaves no hidden subtrie as the only child of a branch.
pub open spec fn clear_cut(t: Trie, d: int, lo: Option<Seq<bool>>, hi: Option<Seq<bool>>) -> bool
    decreases t,
{
    match t {
        Trie::Branch { skip, left, right } => if lo is None && hi is None {
            true
        } else {
            let e = d + skip.len() + 1;
            let l = cut_child(skip, *left, *right, d, lo, hi, false);
            let r = cut_child(skip, *left, *right, d, lo, hi, true);
            &&& child_span(skip, d, lo, hi, false) matches Span::Within { lo, hi } ==> clear_cut(*left, e, lo, hi)
            &&& child_span(skip, d, lo, hi, true) matches Span::Within { lo, hi } ==> clear_cut(*right, e, lo, hi)
            &&& r == Ok::<Option<Trie>, Fault>(None) ==> !hidden(l)
            &&& l == Ok::<Option<Trie>, Fault>(None) ==> !hidden(r)
        },
        _ => true,
    }
}

/// Cutting a part.
proof fn lemma_shows_cut(t: Trie, s: Trie, d: int, lo: Option<Seq<bool>>, hi: Option<Seq<bool>>)
    requires
        shows(t, s),
        t.cut(d, lo, hi) is Ok,
        clear_cut(t, d, lo, hi),
    ensures
        s.cut(d, lo, hi) is Ok,
        shows_root(t.cut(d, lo, hi)->Ok_0, s.cut(d, lo, hi)->Ok_0),
    decreases t,
{
    if lo is None && hi is None {
    } else if let Trie::Branch { skip, left, right } = t {
        if let Trie::Branch { skip: skip2, left: left2, right: right2 } = s {
            if lo_place(skip, d, lo) == Some(BoundPosition::After)
                || hi_place(skip, d, hi) == Some(BoundPosition::Before) {
            } else {
                let e = d + skip.len() + 1;
                if let Span::Within { lo: lo1, hi: hi1 } = child_span(skip, d, lo, hi, false) {
                    lemma_shows_cut(*left, *left2, e, lo1, hi1);
                }
                if let Span::Within { lo: lo1, hi: hi1 } = child_span(skip, d, lo, hi, true) {
                    lemma_shows_cut(*right, *right2, e, lo1, hi1);
                }
                let l = cut_child(skip, *left, *right, d, lo, hi, false);
                let r = cut_child(skip, *left, *right, d, lo, hi, true);
                let l2 = cut_child(skip, *left2, *right2, d, lo, hi, false);
                let r2 = cut_child(skip, *left2, *right2, d, lo, hi, true);
                assert(l is Ok && r is Ok);
                lemma_shows_join(skip, l->Ok_0, r->Ok_0, l2->Ok_0, r2->Ok_0);
            }
        }
    }
}

/// Taking a subtrie out of a part.
proof fn lemma_shows_detach(t: Trie, s: Trie, p: Seq<bool>)
    requires
        shows(t, s),
        t.detach(p, true) is Ok,
    ensures
        s.detach(p, true) is Ok,
        shows_root(t.detach(p, true)->Ok_0.0, s.detach(p, true)->Ok_0.0),
        shows(t.detach(p, true)->Ok_0.1, s.detach(p, true)->Ok_0.1),
        !(t.detach(p, true)->Ok_0.1 is Pruned),
        t.detach(p, true)->Ok_0.2 == s.detach(p, true)->Ok_0.2,
    decreases t,
{
    let k = lcp(t.skip(), p) as int;
    if let Trie::Branch { skip, left, right } = t {
        if let Trie::Branch { skip: skip2, left: left2, right: right2 } = s {
            lemma_lcp(skip, p);
            if k != p.len() && k == skip.len() {
                let side = p[k];
                if side {
                    lemma_shows_detach(*right, *right2, p.skip(k + 1));
                    let x = right.detach(p.skip(k + 1), true)->Ok_0.0;
                    let y = right2.detach(p.skip(k + 1), true)->Ok_0.0;
                    lemma_shows_join(skip, Some(*left), x, Some(*left2), y);
                } else {
                    lemma_shows_detach(*left, *left2, p.skip(k + 1));
                    let x = left.detach(p.skip(k + 1), true)->Ok_0.0;
                    let y = left2.detach(p.skip(k + 1), true)->Ok_0.0;
                    lemma_shows_join(skip, x, Some(*right), y, Some(*right2));
                }
            }
        }
    }
}

/// Putting a part of a subtrie into a part.
proof fn lemma_shows_splice(t: Trie, s: Trie, q: Seq<bool>, m: Trie, m2: Trie, strip: nat)
    requires
        shows(t, s),
        shows(m, m2),
        t.splice(q, m, strip) is Ok,
    ensures
        s.splice(q, m2, strip) is Ok,
        shows(t.splice(q, m, strip)->Ok_0, s.splice(q, m2, strip)->Ok_0),
    decreases t,
{
    reveal_with_fuel(shows, 3);
    let k = lcp(t.skip(), q) as int;
    if let Trie::Branch { skip, left, right } = t {
        if let Trie::Branch { skip: skip2, left: left2, right: right2 } = s {
            lemma_lcp(skip, q);
            if k == q.len() || k < skip.len() {
            } else if q[k] {
                lemma_shows_splice(*right, *right2, q.skip(k + 1), m, m2, strip);
            } else {
                lemma_shows_splice(*left, *left2, q.skip(k + 1), m, m2, strip);
            }
        }
    }
}

/// Whether a write leaves no hidden subtrie as the only child of a branch. (A
/// move that would is refused.)
pub open spec fn clear_change(root: Option<Trie>, c: Change) -> bool {
    root matches Some(t) ==> match c {
        Change::Delete { key } => clear_remove(t, route(key), 0),
        Change::DeleteRange { start, end } => clear_cut(t, 0, Some(route(start)), Some(route(end))),
        Change::DeletePrefix { prefix } => clear_cut(t, 0, Some(route(prefix)), bound_route(successor(prefix))),
        _ => true,
    }
}

/// A write that a part allows is allowed by the whole, and of the outcome the
/// part again shows a part, unless a hidden subtrie is left as the only child
/// of a branch.
pub proof fn law_shown_writes_are_true(a: Option<Trie>, b: Option<Trie>, c: Change)
    requires
        shows_root(a, b),
        step_change(a, c) is Ok,
        clear_change(a, c),
    ensures
        step_change(b, c) is Ok,
        shows_root(step_change(a, c)->Ok_0, step_change(b, c)->Ok_0),
        hash_of(step_change(b, c)->Ok_0) == hash_of(step_change(a, c)->Ok_0),
{
    if let Some(t) = a {
        let s = b->0;
        match c {
            Change::Put { key, value } => {
                lemma_shows_insert(t, s, route(key), value);
            },
            Change::Delete { key } => {
                lemma_shows_remove(t, s, route(key), 0);
            },
            Change::DeleteRange { start, end } => {
                lemma_shows_cut(t, s, 0, Some(route(start)), Some(route(end)));
            },
            Change::DeletePrefix { prefix } => {
                lemma_shows_cut(t, s, 0, Some(route(prefix)), bound_route(successor(prefix)));
            },
            Change::MovePrefix { from, to } => {
                lemma_shows_detach(t, s, route(from));
                let (rest, m, n) = t.detach(route(from), true)->Ok_0;
                let (rest2, m2, n2) = s.detach(route(from), true)->Ok_0;
                lemma_shows_hash(m, m2);
                if let Some(x) = rest {
                    lemma_shows_splice(x, rest2->0, route(to), m, m2, n);
                }
            },
        }
    }
    let x = step_change(a, c)->Ok_0;
    let y = step_change(b, c)->Ok_0;
    if let Some(t) = x {
        lemma_shows_hash(t, y->0);
    }
}

/// Whether no write of a session leaves a hidden subtrie as the only child of a branch.
pub open spec fn clear_run(root: Option<Trie>, events: Seq<Event>) -> bool
    decreases events.len(),
{
    events.len() == 0 || (clear_run(root, events.drop_last()) && (run(root, events.drop_last()) matches Ok(o) ==> (
    events.last() matches Event::Write(c) ==> clear_change(o.root, c))))
}

/// One more event.
pub proof fn lemma_clear_push(root: Option<Trie>, events: Seq<Event>, e: Event)
    ensures
        clear_run(root, events.push(e)) == (clear_run(root, events) && (run(root, events) matches Ok(o) ==> (
        e matches Event::Write(c) ==> clear_change(o.root, c)))),
{
    assert(events.push(e).drop_last() =~= events);
}

/// A session that runs on a part runs on the whole: with the same answers, and
/// with the same root hash at the end, unless a hidden subtrie is left as the
/// only child of a branch.
pub proof fn law_shown_session_is_true(a: Option<Trie>, b: Option<Trie>, events: Seq<Event>)
    requires
        shows_root(a, b),
        run(a, events) is Ok,
        clear_run(a, events),
    ensures
        run(b, events) is Ok,
        run(b, events)->Ok_0.answers == run(a, events)->Ok_0.answers,
        shows_root(run(a, events)->Ok_0.root, run(b, events)->Ok_0.root),
        hash_of(run(b, events)->Ok_0.root) == hash_of(run(a, events)->Ok_0.root),
    decreases events.len(),
{
    if events.len() > 0 {
        law_shown_session_is_true(a, b, events.drop_last());
        let x = run(a, events.drop_last())->Ok_0;
        let y = run(b, events.drop_last())->Ok_0;
        match events.last() {
            Event::Read(l) => {
                law_shown_reads_are_true(x.root, y.root, l);
            },
            Event::Write(c) => {
                law_shown_writes_are_true(x.root, y.root, c);
            },
        }
    } else if let Some(t) = a {
        lemma_shows_hash(t, b->0);
    }
}

/// What pruning leaves of a trie is a part of it.
proof fn lemma_pruned_shows(t: Trie, at: Seq<bool>, keep: Set<Seq<bool>>)
    ensures
        shows(prune(t, at, keep), t),
    decreases t,
{
    if keep.contains(at) {
        if let Trie::Branch { skip, left, right } = t {
            lemma_pruned_shows(*left, at.push(false), keep);
            lemma_pruned_shows(*right, at.push(true), keep);
        }
    }
}

/// The trace of a session, sent in its byte form, is read back and has the root
/// hash of the trie that the session started with. The session, done again on
/// it, goes through, with the same answers and the same root hash at the end.
/// The trace must not have more levels than decoders accept.
pub proof fn law_trace_replays(start: Option<Trie>, events: Seq<Event>, seen: Set<Seq<bool>>)
    requires
        least_trace(start, events, seen),
        decodable_root(prune_root(start, seen)),
    ensures
        parse_root(encoded_root(prune_root(start, seen))) == Ok::<Option<Trie>, Fault>(prune_root(start, seen)),
        hash_of(prune_root(start, seen)) == hash_of(start),
        run(start, events) is Ok,
        run(prune_root(start, seen), events) is Ok,
        run(prune_root(start, seen), events)->Ok_0.answers == run(start, events)->Ok_0.answers,
        hash_of(run(prune_root(start, seen), events)->Ok_0.root) == hash_of(run(start, events)->Ok_0.root),
{
    law_decode_undoes_encode(prune_root(start, seen));
    if let Some(t) = start {
        lemma_pruned_shows(t, Seq::empty(), seen);
        law_pruning_keeps_hash(t, Seq::empty(), seen);
    }
    law_shown_session_is_true(prune_root(start, seen), start, events);
}

/// The entries that a query finds in a part are those that it finds in the whole.
proof fn lemma_shows_query(a: Option<Trie>, b: Option<Trie>, items: Seq<QueryPart>)
    requires
        shows_root(a, b),
        query_rows(a, items) is Ok,
    ensures
        query_rows(b, items) == query_rows(a, items),
    decreases items.len(),
{
    if items.len() > 0 {
        lemma_shows_query(a, b, items.drop_last());
        law_shown_reads_are_true(a, b, lookup_of(items.last()));
    }
}

/// Entries that were checked against the root hash of a store are the entries
/// that the query finds in the store, unless SHA-256 collides on what the trace
/// and the store are hashed from.
pub proof fn law_verified_entries_are_true(
    r: Result<Vec<(Vec<u8>, Vec<u8>)>, Error>,
    bytes: Seq<u8>,
    items: Seq<QueryPart>,
    store: Option<Trie>,
)
    requires
        verified(r, bytes, items, hash_of(store)),
        r is Ok,
        sound(store),
        parse_root(bytes) matches Ok(t) ==> no_collision(t, store),
    ensures
        gives(r, query_rows(store, items)),
{
    let t = parse_root(bytes)->Ok_0;
    lemma_parse_sound(bytes, 0);
    law_same_root_hash_shows_store(t, store);
    lemma_shows_query(t, store, items);
}

} // verus!
