//! What a trie stores, and what the operations do to it.

use vstd::prelude::*;

use crate::bits::{lcp, lemma_lcp, lemma_lcp_is, lemma_route_lt, padded, route_lt};
use crate::error::Fault;
use crate::mrt::model::{below, below_end, child_span, fork, hi_place, join, lift, lo_place, place, window, BoundPosition,
    Span, Trie};
use crate::mrt::route::{agrees, rest, route};

verus! {

/// Whether one of two different bit strings begins with the other.
pub open spec fn clashes(a: Seq<bool>, b: Seq<bool>) -> bool {
    a != b && (lcp(a, b) == a.len() || lcp(a, b) == b.len())
}

/// Whether `q` begins with `p`.
pub open spec fn begins(q: Seq<bool>, p: Seq<bool>) -> bool {
    p.len() <= q.len() && q.take(p.len() as int) == p
}

impl Trie {
    /// The value stored at the end of the route `r`, if there is one.
    pub open spec fn lookup(self, r: Seq<bool>) -> Option<Seq<u8>>
        decreases self,
    {
        match self {
            Trie::Leaf { skip, value } => if skip == r {
                Some(value)
            } else {
                None
            },
            Trie::Branch { skip, left, right } => if skip.len() < r.len() && begins(r, skip) {
                if r[skip.len() as int] {
                    right.lookup(r.skip(skip.len() as int + 1))
                } else {
                    left.lookup(r.skip(skip.len() as int + 1))
                }
            } else {
                None
            },
            Trie::Pruned { hash, depth } => None,
        }
    }

    /// One of the routes that the trie stores.
    pub open spec fn sample(self) -> Seq<bool>
        decreases self,
    {
        match self {
            Trie::Leaf { skip, value } => skip,
            Trie::Branch { skip, left, right } => skip + seq![false] + left.sample(),
            Trie::Pruned { hash, depth } => Seq::empty(),
        }
    }
}

/// What a trie that may be empty stores at the end of the route `r`.
pub open spec fn lookup_root(root: Option<Trie>, r: Seq<bool>) -> Option<Seq<u8>> {
    match root {
        Some(t) => t.lookup(r),
        None => None,
    }
}

/// Whether a trie that may be empty is complete.
pub open spec fn complete_root(root: Option<Trie>, d: int) -> bool {
    root matches Some(t) ==> t.complete(d)
}

/// A branch stores what its children store, behind its skip and their bit.
pub proof fn lemma_lookup_below(skip: Seq<bool>, left: Trie, right: Trie, side: bool, r: Seq<bool>)
    ensures
        (Trie::Branch { skip, left: Box::new(left), right: Box::new(right) }).lookup(skip + seq![side] + r) == (if side {
            right.lookup(r)
        } else {
            left.lookup(r)
        }),
{
    let q = skip + seq![side] + r;
    assert(q.take(skip.len() as int) =~= skip);
    assert(q.skip(skip.len() as int + 1) =~= r);
    assert(q[skip.len() as int] == side);
}

/// `q` splits into what a branch consumes and the rest.
pub proof fn lemma_split(skip: Seq<bool>, q: Seq<bool>)
    requires
        skip.len() < q.len(),
        begins(q, skip),
    ensures
        q == skip + seq![q[skip.len() as int]] + q.skip(skip.len() as int + 1),
{
    assert(q =~= skip + seq![q[skip.len() as int]] + q.skip(skip.len() as int + 1));
}

/// [`begins`] by common prefixes.
pub proof fn lemma_begins(q: Seq<bool>, p: Seq<bool>)
    ensures
        begins(q, p) <==> lcp(p, q) == p.len(),
        begins(q, p) <==> lcp(q, p) == p.len(),
        lcp(p, q) == lcp(q, p),
{
    lemma_lcp(p, q);
    lemma_lcp(q, p);
    lemma_lcp_is(q, p, lcp(p, q));
    if begins(q, p) {
        assert forall|i: int| 0 <= i < p.len() implies p[i] == q[i] by {
            assert(q.take(p.len() as int)[i] == q[i]);
        }
        lemma_lcp_is(p, q, p.len());
    }
    if lcp(p, q) == p.len() {
        assert(q.take(p.len() as int) =~= p);
    }
}

/// A trie with nothing pruned stores at least one route.
pub proof fn lemma_sample(t: Trie, d: int)
    requires
        t.complete(d),
    ensures
        t.lookup(t.sample()) is Some,
        (d + t.sample().len()) % 8 == 0,
        begins(t.sample(), t.skip()),
    decreases t,
{
    match t {
        Trie::Leaf { skip, value } => {
            assert(skip.take(skip.len() as int) =~= skip);
        },
        Trie::Branch { skip, left, right } => {
            lemma_sample(*left, d + skip.len() + 1);
            lemma_lookup_below(skip, *left, *right, false, left.sample());
            assert(t.sample().take(skip.len() as int) =~= skip);
        },
        Trie::Pruned { hash, depth } => {},
    }
}

/// Every stored route begins with the bits at the root, and makes up whole bytes.
pub proof fn lemma_stored(t: Trie, d: int, q: Seq<bool>)
    requires
        t.lookup(q) is Some,
    ensures
        begins(q, t.skip()),
        q.len() <= t.depth(),
        t.complete(d) ==> (d + q.len()) % 8 == 0,
    decreases t,
{
    match t {
        Trie::Leaf { skip, value } => {
            assert(skip.take(skip.len() as int) =~= skip);
        },
        Trie::Branch { skip, left, right } => {
            let r = q.skip(skip.len() as int + 1);
            if q[skip.len() as int] {
                lemma_stored(*right, d + skip.len() + 1, r);
            } else {
                lemma_stored(*left, d + skip.len() + 1, r);
            }
        },
        Trie::Pruned { hash, depth } => {},
    }
}

/// No stored route is a strict prefix of another.
pub proof fn lemma_prefix_free(t: Trie, a: Seq<bool>, b: Seq<bool>)
    requires
        t.lookup(a) is Some,
        t.lookup(b) is Some,
        begins(b, a),
    ensures
        a == b,
    decreases t,
{
    match t {
        Trie::Leaf { skip, value } => {},
        Trie::Branch { skip, left, right } => {
            let n = skip.len() as int;
            lemma_split(skip, a);
            lemma_split(skip, b);
            assert(a[n] == b.take(a.len() as int)[n]);
            let ra = a.skip(n + 1);
            let rb = b.skip(n + 1);
            assert(rb.take(ra.len() as int) =~= ra) by {
                assert forall|i: int| 0 <= i < ra.len() implies rb[i] == ra[i] by {
                    assert(b.take(a.len() as int)[n + 1 + i] == a[n + 1 + i]);
                }
            }
            if a[n] {
                lemma_prefix_free(*right, ra, rb);
            } else {
                lemma_prefix_free(*left, ra, rb);
            }
        },
        Trie::Pruned { hash, depth } => {},
    }
}

/// What a search finds in a trie with nothing pruned is what is stored.
pub proof fn lemma_find(t: Trie, k: Seq<bool>, d: int)
    requires
        t.complete(d),
        0 <= d,
    ensures
        t.find(k, d) == Ok::<_, Fault>(if d <= k.len() { t.lookup(k.skip(d)) } else { None }),
    decreases t,
{
    match t {
        Trie::Leaf { skip, value } => {},
        Trie::Branch { skip, left, right } => {
            let n = skip.len() as int;
            let e = d + n + 1;
            lemma_find(*left, k, e);
            lemma_find(*right, k, e);
            if d <= k.len() {
                let r = k.skip(d);
                if agrees(skip, k, d) {
                    if e <= k.len() {
                        assert(r.take(n) =~= skip) by {
                            assert forall|i: int| 0 <= i < n implies r[i] == skip[i] by {
                                assert(skip[i] == padded(k, d + i));
                            }
                        }
                        assert(r[n] == k[d + n]);
                        assert(r.skip(n + 1) =~= k.skip(e));
                    }
                } else if n < r.len() && begins(r, skip) {
                    assert forall|i: int| 0 <= i < skip.len() implies #[trigger] skip[i] == padded(k, d + i) by {
                        assert(r.take(n)[i] == r[i]);
                    }
                }
            }
        },
        Trie::Pruned { hash, depth } => {},
    }
}

/// What a fork stores.
proof fn lemma_fork(skip: Seq<bool>, side: bool, on: Trie, off: Trie, q: Seq<bool>)
    ensures
        fork(skip, side, on, off).lookup(q) == (if skip.len() < q.len() && begins(q, skip) {
            if q[skip.len() as int] == side {
                on.lookup(q.skip(skip.len() as int + 1))
            } else {
                off.lookup(q.skip(skip.len() as int + 1))
            }
        } else {
            None
        }),
{
}

/// A trie whose root holds more bits stores longer routes.
pub proof fn lemma_prepend(t: Trie, p: Seq<bool>, q: Seq<bool>)
    requires
        !(t is Pruned),
    ensures
        t.with_skip(p + t.skip()).lookup(q) == (if begins(q, p) {
            t.lookup(q.skip(p.len() as int))
        } else {
            None
        }),
{
    let whole = p + t.skip();
    let n = p.len() as int;
    let m = t.skip().len() as int;
    if begins(q, p) {
        let r = q.skip(n);
        assert(q =~= p + r);
        match t {
            Trie::Leaf { skip, value } => {
                if whole == q {
                    assert(skip =~= r);
                }
                if skip == r {
                    assert(whole =~= q);
                }
            },
            Trie::Branch { skip, left, right } => {
                assert(begins(q, whole) == begins(r, skip)) by {
                    if q.len() >= n + m {
                        assert(q.take(n + m) =~= p + r.take(m));
                        if q.take(n + m) == whole {
                            assert(r.take(m) =~= skip) by {
                                assert forall|i: int| 0 <= i < m implies r[i] == skip[i] by {
                                    assert(q.take(n + m)[n + i] == whole[n + i]);
                                }
                            }
                        }
                    }
                }
                if m < r.len() {
                    assert(q[n + m] == r[m]);
                    assert(q.skip(n + m + 1) =~= r.skip(m + 1));
                }
            },
            Trie::Pruned { hash, depth } => {},
        }
    } else {
        if q.len() >= n + m && q.take(n + m) == whole {
            assert(q.take(n) =~= p) by {
                assert forall|i: int| 0 <= i < n implies q[i] == p[i] by {
                    assert(q.take(n + m)[i] == whole[i]);
                }
            }
        }
        if q == whole {
            assert(q.take(n) =~= p);
        }
    }
}

/// Dropping the first `n` bits at the root.
pub proof fn lemma_drop_front(t: Trie, n: int, q: Seq<bool>)
    requires
        !(t is Pruned),
        0 <= n <= t.skip().len(),
    ensures
        t.with_skip(t.skip().skip(n)).lookup(q) == t.lookup(t.skip().take(n) + q),
{
    let t2 = t.with_skip(t.skip().skip(n));
    let p = t.skip().take(n);
    lemma_prepend(t2, p, p + q);
    assert(p + t2.skip() =~= t.skip());
    assert((p + q).take(n) =~= p);
    assert((p + q).skip(n) =~= q);
    assert(t2.with_skip(t.skip()) == t);
}

/// A trie is told apart from its copy with a split skip by where the bits are.
proof fn lemma_split_lookup(t: Trie, k: int, q: Seq<bool>)
    requires
        !(t is Pruned),
        0 <= k < t.skip().len(),
    ensures
        t.lookup(q) == (if k < q.len() && begins(q, t.skip().take(k)) && q[k] == t.skip()[k] {
            t.with_skip(t.skip().skip(k + 1)).lookup(q.skip(k + 1))
        } else {
            None
        }),
{
    let s = t.skip();
    let p = s.take(k + 1);
    lemma_drop_front(t, k + 1, q.skip(k + 1));
    if k < q.len() && begins(q, s.take(k)) && q[k] == s[k] {
        assert(q =~= p + q.skip(k + 1)) by {
            assert forall|i: int| 0 <= i < k implies q[i] == s[i] by {
                assert(q.take(k)[i] == s.take(k)[i]);
            }
        }
    } else if t.lookup(q) is Some {
        lemma_stored(t, 0, q);
        assert forall|i: int| 0 <= i < s.len() implies q[i] == s[i] by {
            assert(q.take(s.len() as int)[i] == s[i]);
        }
        assert(q.take(k) =~= s.take(k));
    }
}

/// What an insertion stores: the new value, and everything else as before.
pub proof fn lemma_insert_lookup(t: Trie, r: Seq<bool>, v: Seq<u8>, q: Seq<bool>)
    requires
        t.insert(r, v) is Ok,
    ensures
        t.insert(r, v)->Ok_0.lookup(q) == (if q == r {
            Some(v)
        } else {
            t.lookup(q)
        }),
    decreases t,
{
    let s = t.skip();
    let k = lcp(s, r) as int;
    lemma_lcp(s, r);
    let t2 = t.insert(r, v)->Ok_0;
    if k < s.len() && k < r.len() {
        let leaf = Trie::Leaf { skip: r.skip(k + 1), value: v };
        let old_part = t.with_skip(s.skip(k + 1));
        assert(t2 == fork(s.take(k), r[k], leaf, old_part));
        lemma_fork(s.take(k), r[k], leaf, old_part, q);
        lemma_split_lookup(t, k, q);
        assert(r.take(k) =~= s.take(k));
        if k < q.len() && begins(q, s.take(k)) {
            if q[k] == r[k] {
                if q.skip(k + 1) == r.skip(k + 1) {
                    lemma_split(s.take(k), q);
                    lemma_split(s.take(k), r);
                }
            }
        }
        if q == r {
            assert(begins(q, s.take(k)));
        }
    } else {
        match t {
            Trie::Leaf { skip, value } => {},
            Trie::Branch { skip, left, right } => {
                assert(r.take(k) =~= skip);
                lemma_split(skip, r);
                if k < q.len() && begins(q, skip) {
                    lemma_split(skip, q);
                    if r[k] {
                        lemma_insert_lookup(*right, r.skip(k + 1), v, q.skip(k + 1));
                    } else {
                        lemma_insert_lookup(*left, r.skip(k + 1), v, q.skip(k + 1));
                    }
                }
            },
            Trie::Pruned { hash, depth } => {},
        }
    }
}

/// An insertion keeps a complete trie complete, if the route makes up whole bytes.
pub proof fn lemma_insert_complete(t: Trie, d: int, r: Seq<bool>, v: Seq<u8>)
    requires
        t.complete(d),
        (d + r.len()) % 8 == 0,
    ensures
        t.insert(r, v) matches Ok(t2) ==> t2.complete(d),
        t.insert(r, v) matches Err(f) ==> f == Fault::Key,
    decreases t,
{
    let s = t.skip();
    let k = lcp(s, r) as int;
    lemma_lcp(s, r);
    reveal_with_fuel(Trie::complete, 3);
    match t {
        Trie::Leaf { skip, value } => {},
        Trie::Branch { skip, left, right } => {
            if k == skip.len() && k < r.len() {
                lemma_insert_complete(*left, d + skip.len() + 1, r.skip(k + 1), v);
                lemma_insert_complete(*right, d + skip.len() + 1, r.skip(k + 1), v);
            }
        },
        Trie::Pruned { hash, depth } => {},
    }
}

/// Clashing behind a common part is clashing.
proof fn lemma_clash_below(p: Seq<bool>, a: Seq<bool>, b: Seq<bool>)
    ensures
        clashes(p + a, p + b) == clashes(a, b),
        lcp(p + a, p + b) == p.len() + lcp(a, b),
{
    lemma_lcp(a, b);
    let n = lcp(a, b);
    assert forall|i: int| 0 <= i < p.len() + n implies (p + a)[i] == (p + b)[i] by {
        if i >= p.len() {
            assert(a[i - p.len()] == b[i - p.len()]);
        }
    }
    lemma_lcp_is(p + a, p + b, p.len() + n);
    if a != b && p + a == p + b {
        assert(a =~= (p + a).skip(p.len() as int));
        assert(b =~= (p + b).skip(p.len() as int));
    }
}

/// An insertion into a complete trie fails just if a stored route clashes with the new one.
pub proof fn lemma_insert_refused(t: Trie, d: int, r: Seq<bool>, v: Seq<u8>)
    requires
        t.complete(d),
        (d + r.len()) % 8 == 0,
    ensures
        t.insert(r, v) is Err <==> exists|q: Seq<bool>| (#[trigger] t.lookup(q)) is Some && clashes(q, r),
    decreases t,
{
    let s = t.skip();
    let k = lcp(s, r) as int;
    lemma_lcp(s, r);
    if t.insert(r, v) is Err {
        let q = lemma_insert_witness(t, d, r, v);
        assert(t.lookup(q) is Some && clashes(q, r));
    } else if exists|q: Seq<bool>| (#[trigger] t.lookup(q)) is Some && clashes(q, r) {
        let q = choose|q: Seq<bool>| (#[trigger] t.lookup(q)) is Some && clashes(q, r);
        lemma_insert_lookup(t, r, v, q);
        lemma_insert_lookup(t, r, v, r);
        let t2 = t.insert(r, v)->Ok_0;
        lemma_begins(q, r);
        lemma_begins(r, q);
        if begins(q, r) {
            lemma_prefix_free(t2, r, q);
        } else {
            lemma_prefix_free(t2, q, r);
        }
    }
}

/// A stored route that clashes with one whose insertion failed.
proof fn lemma_insert_witness(t: Trie, d: int, r: Seq<bool>, v: Seq<u8>) -> (q: Seq<bool>)
    requires
        t.complete(d),
        t.insert(r, v) is Err,
    ensures
        t.lookup(q) is Some,
        clashes(q, r),
    decreases t,
{
    let s = t.skip();
    let k = lcp(s, r) as int;
    lemma_lcp(s, r);
    match t {
        Trie::Leaf { skip, value } => skip,
        Trie::Branch { skip, left, right } => {
            if k == skip.len() && k < r.len() {
                assert(r.take(k) =~= skip);
                lemma_split(skip, r);
                let p = skip + seq![r[k]];
                let q1 = if r[k] {
                    lemma_insert_witness(*right, d + skip.len() + 1, r.skip(k + 1), v)
                } else {
                    lemma_insert_witness(*left, d + skip.len() + 1, r.skip(k + 1), v)
                };
                lemma_lookup_below(skip, *left, *right, r[k], q1);
                lemma_clash_below(p, q1, r.skip(k + 1));
                p + q1
            } else {
                let q = t.sample();
                lemma_sample(t, d);
                assert forall|i: int| 0 <= i < r.len() implies q[i] == r[i] by {
                    assert(q.take(s.len() as int)[i] == s[i]);
                }
                lemma_lcp_is(q, r, r.len());
                if q == r {
                    assert(q.len() > s.len());
                }
                q
            }
        },
        Trie::Pruned { hash, depth } => Seq::empty(),
    }
}

/// What is stored where a branch was put together from what was left of its children.
proof fn lemma_join(skip: Seq<bool>, left: Option<Trie>, right: Option<Trie>, d: int, q: Seq<bool>)
    requires
        complete_root(left, d + skip.len() + 1),
        complete_root(right, d + skip.len() + 1),
    ensures
        complete_root(join(skip, left, right), d),
        lookup_root(join(skip, left, right), q) == (if skip.len() < q.len() && begins(q, skip) {
            if q[skip.len() as int] {
                lookup_root(right, q.skip(skip.len() as int + 1))
            } else {
                lookup_root(left, q.skip(skip.len() as int + 1))
            }
        } else {
            None
        }),
{
    let n = skip.len() as int;
    match (left, right) {
        (Some(l), Some(r)) => {},
        (Some(l), None) => {
            lemma_lift(skip, false, l, d, q);
        },
        (None, Some(r)) => {
            lemma_lift(skip, true, r, d, q);
        },
        (None, None) => {},
    }
}

/// What a child stores that took its parent's place.
proof fn lemma_lift(skip: Seq<bool>, side: bool, t: Trie, d: int, q: Seq<bool>)
    requires
        t.complete(d + skip.len() + 1),
    ensures
        lift(skip, side, t).complete(d),
        lift(skip, side, t).lookup(q) == (if skip.len() < q.len() && begins(q, skip) && q[skip.len() as int] == side {
            t.lookup(q.skip(skip.len() as int + 1))
        } else {
            None
        }),
{
    let n = skip.len() as int;
    let p = skip + seq![side];
    lemma_prepend(t, p, q);
    assert(begins(q, p) == (n < q.len() && begins(q, skip) && q[n] == side)) by {
        if n < q.len() {
            assert(q.take(n + 1) =~= q.take(n) + seq![q[n]]);
            if q.take(n + 1) == p {
                assert(q.take(n) =~= p.take(n));
                assert(p.take(n) =~= skip);
                assert(q.take(n + 1)[n] == p[n]);
            }
        }
    }
    match t {
        Trie::Leaf { skip: s, value } => {
            assert((skip + seq![side] + s).len() == n + 1 + s.len());
        },
        Trie::Branch { skip: s, left, right } => {
            assert((skip + seq![side] + s).len() == n + 1 + s.len());
            assert(d + n + 1 + s.len() + 1 == d + (n + 1 + s.len()) + 1);
        },
        Trie::Pruned { hash, depth } => {},
    }
}

/// What a removal from a complete trie leaves.
pub proof fn lemma_remove(t: Trie, k: Seq<bool>, d: int, q: Seq<bool>)
    requires
        t.complete(d),
        0 <= d <= k.len(),
    ensures
        t.remove(k, d) matches Ok(after) && {
            &&& after is None <==> t.lookup(k.skip(d)) is None
            &&& after matches Some(t2) ==> complete_root(t2, d) && lookup_root(t2, q) == (if q == k.skip(d) {
                None
            } else {
                t.lookup(q)
            })
        },
    decreases t,
{
    match t {
        Trie::Leaf { skip, value } => {},
        Trie::Branch { skip, left, right } => {
            let n = skip.len() as int;
            let e = d + n + 1;
            let r = k.skip(d);
            if agrees(skip, k, d) {
                if e <= k.len() {
                    assert(r.take(n) =~= skip) by {
                        assert forall|i: int| 0 <= i < n implies r[i] == skip[i] by {
                            assert(skip[i] == padded(k, d + i));
                        }
                    }
                    assert(r[n] == k[d + n]);
                    assert(r.skip(n + 1) =~= k.skip(e));
                    let rq = q.skip(n + 1);
                    if n < q.len() && begins(q, skip) {
                        lemma_split(skip, q);
                        lemma_split(skip, r);
                    }
                    if k[d + n] {
                        lemma_remove(*right, k, e, rq);
                        if let Ok(Some(t2)) = right.remove(k, e) {
                            lemma_join(skip, Some(*left), t2, d, q);
                        }
                    } else {
                        lemma_remove(*left, k, e, rq);
                        if let Ok(Some(t2)) = left.remove(k, e) {
                            lemma_join(skip, t2, Some(*right), d, q);
                        }
                    }
                    if q == r {
                        assert(n < q.len() && begins(q, skip));
                    }
                } else {
                    lemma_remove_beyond(*left, k, e);
                    lemma_remove_beyond(*right, k, e);
                }
            } else if n < r.len() && begins(r, skip) {
                assert forall|i: int| 0 <= i < skip.len() implies #[trigger] skip[i] == padded(k, d + i) by {
                    assert(r.take(n)[i] == r[i]);
                }
            }
        },
        Trie::Pruned { hash, depth } => {},
    }
}

/// A route that ends above a trie is not in it.
proof fn lemma_remove_beyond(t: Trie, k: Seq<bool>, d: int)
    requires
        t.complete(d),
        d > k.len(),
    ensures
        t.remove(k, d) == Ok::<Option<Option<Trie>>, Fault>(None),
    decreases t,
{
    match t {
        Trie::Leaf { skip, value } => {},
        Trie::Branch { skip, left, right } => {
            lemma_remove_beyond(*left, k, d + skip.len() + 1);
            lemma_remove_beyond(*right, k, d + skip.len() + 1);
        },
        Trie::Pruned { hash, depth } => {},
    }
}

/// Whether the route `q`, of which `d` bits came before, lies between two bounds.
pub open spec fn between(q: Seq<bool>, d: int, lo: Option<Seq<bool>>, hi: Option<Seq<bool>>) -> bool {
    !below(q, d, lo) && below_end(q, d, hi)
}

/// How a route below a branch compares with a bound, by where the bound lies.
pub proof fn lemma_place(skip: Seq<bool>, k: Seq<bool>, d: int, q: Seq<bool>)
    requires
        skip.len() < q.len(),
        begins(q, skip),
        0 <= d,
    ensures
        route_lt(q, rest(k, d)) == match place(skip, k, d) {
            BoundPosition::Before => false,
            BoundPosition::After => true,
            BoundPosition::InLeft => !q[skip.len() as int] && route_lt(
                q.skip(skip.len() as int + 1),
                rest(k, d + skip.len() + 1),
            ),
            BoundPosition::InRight => !q[skip.len() as int] || route_lt(
                q.skip(skip.len() as int + 1),
                rest(k, d + skip.len() + 1),
            ),
        },
{
    let m = skip.len() as int;
    let w = window(k, d, skip.len());
    let n = lcp(skip, w) as int;
    let r = rest(k, d);
    lemma_lcp(skip, w);
    lemma_route_lt(q, r);
    lemma_lcp(q, r);
    assert forall|i: int| 0 <= i < m implies q[i] == skip[i] by {
        assert(q.take(m)[i] == q[i]);
    }
    assert forall|i: int| 0 <= i < n implies q[i] == padded(r, i) by {
        assert(skip[i] == w[i]);
        assert(w[i] == padded(k, d + i));
    }
    if r.len() <= n {
        assert forall|i: int| 0 <= i < r.len() implies q[i] == r[i] by {
            assert(q[i] == padded(r, i));
        }
        lemma_lcp_is(q, r, r.len());
        assert(!padded(k, d + n));
        let e = d + m + 1;
        assert(rest(k, e) =~= Seq::empty());
        assert(!padded(k, d + m));
    } else {
        assert forall|i: int| 0 <= i < n implies q[i] == r[i] by {
            assert(q[i] == padded(r, i));
        }
        assert(r[n] == k[d + n]);
        if n < m {
            assert(w[n] == padded(k, d + n));
            lemma_lcp_is(q, r, n as nat);
        } else {
            let q2 = q.skip(m + 1);
            let r2 = rest(k, d + m + 1);
            assert(r2 =~= r.skip(m + 1));
            if q[m] != r[m] {
                lemma_lcp_is(q, r, m as nat);
            } else {
                lemma_route_lt(q2, r2);
                lemma_lcp(q2, r2);
                let c = lcp(q2, r2) as int;
                assert forall|i: int| 0 <= i < m + 1 + c implies q[i] == r[i] by {
                    if i > m {
                        assert(q2[i - m - 1] == r2[i - m - 1]);
                    }
                }
                if c < q2.len() && c < r2.len() {
                    assert(q2[c] == q[m + 1 + c] && r2[c] == r[m + 1 + c]);
                }
                lemma_lcp_is(q, r, (m + 1 + c) as nat);
                if c < r2.len() {
                    assert(r2[c] == r[m + 1 + c]);
                }
            }
        }
    }
}

/// What removing a range from a complete trie leaves.
pub proof fn lemma_cut(t: Trie, d: int, lo: Option<Seq<bool>>, hi: Option<Seq<bool>>, q: Seq<bool>)
    requires
        t.complete(d),
        0 <= d,
    ensures
        t.cut(d, lo, hi) matches Ok(t2) && complete_root(t2, d) && lookup_root(t2, q) == (if between(q, d, lo, hi) {
            None
        } else {
            t.lookup(q)
        }),
    decreases t,
{
    if !(lo is None && hi is None) {
        match t {
            Trie::Leaf { skip, value } => {},
            Trie::Branch { skip, left, right } => {
                let n = skip.len() as int;
                let e = d + n + 1;
                let q2 = q.skip(n + 1);
                let inside = n < q.len() && begins(q, skip);
                if inside {
                    if let Some(k) = lo {
                        lemma_place(skip, k, d, q);
                    }
                    if let Some(k) = hi {
                        lemma_place(skip, k, d, q);
                    }
                }
                if lo_place(skip, d, lo) == Some(BoundPosition::After) || hi_place(skip, d, hi) == Some(
                    BoundPosition::Before,
                ) {
                } else {
                    let sl = child_span(skip, d, lo, hi, false);
                    let sr = child_span(skip, d, lo, hi, true);
                    let l2 = match sl {
                        Span::Outside => Some(*left),
                        Span::Within { lo: a, hi: b } => {
                            lemma_cut(*left, e, a, b, q2);
                            left.cut(e, a, b)->Ok_0
                        },
                    };
                    let r2 = match sr {
                        Span::Outside => Some(*right),
                        Span::Within { lo: a, hi: b } => {
                            lemma_cut(*right, e, a, b, q2);
                            right.cut(e, a, b)->Ok_0
                        },
                    };
                    lemma_join(skip, l2, r2, d, q);
                }
            },
            Trie::Pruned { hash, depth } => {},
        }
    }
}

/// [`begins`] behind a common part.
proof fn lemma_begins_below(skip: Seq<bool>, side: bool, q: Seq<bool>, p: Seq<bool>)
    requires
        skip.len() < p.len(),
        begins(p, skip),
        p[skip.len() as int] == side,
    ensures
        begins(q, p) == (skip.len() < q.len() && begins(q, skip) && q[skip.len() as int] == side && begins(
            q.skip(skip.len() as int + 1),
            p.skip(skip.len() as int + 1),
        )),
{
    let n = skip.len() as int;
    lemma_split(skip, p);
    let p2 = p.skip(n + 1);
    let q2 = q.skip(n + 1);
    if begins(q, p) {
        assert forall|i: int| 0 <= i < p.len() implies q[i] == p[i] by {
            assert(q.take(p.len() as int)[i] == q[i]);
        }
        assert(q.take(n) =~= skip);
        assert(q2.take(p2.len() as int) =~= p2);
    }
    if n < q.len() && begins(q, skip) && q[n] == side && begins(q2, p2) {
        assert(q.take(p.len() as int) =~= p) by {
            assert forall|i: int| 0 <= i < p.len() implies q[i] == p[i] by {
                if i < n {
                    assert(q.take(n)[i] == q[i]);
                } else if i > n {
                    assert(q2.take(p2.len() as int)[i - n - 1] == p2[i - n - 1]);
                }
            }
        }
    }
}

/// What taking out all routes that begin with `p` leaves.
pub proof fn lemma_detach_leaves(t: Trie, d: int, p: Seq<bool>, strict: bool, q: Seq<bool>)
    requires
        t.complete(d),
    ensures
        match t.detach(p, strict) {
            Ok((t2, s, n)) => complete_root(t2, d) && lookup_root(t2, q) == (if begins(q, p) {
                None
            } else {
                t.lookup(q)
            }),
            Err(f) => f == Fault::Key,
        },
    decreases t,
{
    let sk = t.skip();
    let k = lcp(sk, p) as int;
    lemma_lcp(sk, p);
    if k == p.len() {
        if t.lookup(q) is Some {
            lemma_stored(t, d, q);
            assert(q.take(p.len() as int) =~= p) by {
                assert forall|i: int| 0 <= i < p.len() implies q[i] == p[i] by {
                    assert(q.take(sk.len() as int)[i] == sk[i]);
                }
            }
        }
    } else {
        match t {
            Trie::Leaf { skip, value } => {},
            Trie::Branch { skip, left, right } => {
                let m = skip.len() as int;
                if k == m {
                    assert(p.take(k) =~= skip);
                    let p2 = p.skip(k + 1);
                    lemma_begins_below(skip, p[k], q, p);
                    if p[k] {
                        lemma_detach_leaves(*right, d + m + 1, p2, strict, q.skip(m + 1));
                        if let Ok((t2, s, n)) = right.detach(p2, strict) {
                            lemma_join(skip, Some(*left), t2, d, q);
                        }
                    } else {
                        lemma_detach_leaves(*left, d + m + 1, p2, strict, q.skip(m + 1));
                        if let Ok((t2, s, n)) = left.detach(p2, strict) {
                            lemma_join(skip, t2, Some(*right), d, q);
                        }
                    }
                }
            },
            Trie::Pruned { hash, depth } => {},
        }
    }
}

/// What taking out all routes that begin with `p` takes out; it fails just if there are none.
pub proof fn lemma_detach_takes(t: Trie, d: int, p: Seq<bool>, strict: bool, q: Seq<bool>)
    requires
        t.complete(d),
    ensures
        match t.detach(p, strict) {
            Ok((t2, s, n)) => {
                &&& !(s is Pruned)
                &&& n <= s.skip().len()
                &&& n <= p.len()
                &&& s.complete(d + p.len() - n)
                &&& s.with_skip(s.skip().skip(n as int)).lookup(q) == t.lookup(p + q)
                &&& s.depth() + p.len() - n <= t.depth()
            },
            Err(f) => t.lookup(p + q) is None,
        },
    decreases t,
{
    let sk = t.skip();
    let k = lcp(sk, p) as int;
    lemma_lcp(sk, p);
    if k == p.len() {
        assert(sk.take(p.len() as int) =~= p);
        lemma_drop_front(t, p.len() as int, q);
    } else {
        match t {
            Trie::Leaf { skip, value } => {
                if t.lookup(p + q) is Some {
                    assert(skip == p + q);
                    assert(skip[k] == p[k]);
                }
            },
            Trie::Branch { skip, left, right } => {
                let m = skip.len() as int;
                if k == m {
                    assert(p.take(k) =~= skip);
                    let side = p[k];
                    let p2 = p.skip(k + 1);
                    lemma_split(skip, p);
                    assert(p + q =~= skip + seq![side] + (p2 + q));
                    lemma_lookup_below(skip, *left, *right, side, p2 + q);
                    assert(d + m + 1 + p2.len() == d + p.len());
                    assert(!(*left is Pruned) && !(*right is Pruned)) by {
                        assert(left.complete(d + m + 1) && right.complete(d + m + 1));
                    }
                    if side {
                        lemma_detach_takes(*right, d + m + 1, p2, strict, q);
                    } else {
                        lemma_detach_takes(*left, d + m + 1, p2, strict, q);
                    }
                } else {
                    if t.lookup(p + q) is Some {
                        lemma_stored(t, d, p + q);
                        assert((p + q).take(m)[k] == (p + q)[k]);
                    }
                }
            },
            Trie::Pruned { hash, depth } => {},
        }
    }
}

/// What putting the first bits of a root in the place of others stores.
pub proof fn lemma_reskin(s: Trie, n: nat, tail: Seq<bool>, q: Seq<bool>)
    requires
        s.reskin(n, tail) is Ok,
    ensures
        s.reskin(n, tail)->Ok_0.lookup(q) == (if begins(q, tail) {
            s.with_skip(s.skip().skip(n as int)).lookup(q.skip(tail.len() as int))
        } else {
            None
        }),
{
    let s2 = s.with_skip(s.skip().skip(n as int));
    lemma_prepend(s2, tail, q);
    assert(s2.with_skip(tail + s2.skip()) == s.reskin(n, tail)->Ok_0);
}

/// What putting a subtrie under `p` stores.
pub proof fn lemma_splice(t: Trie, d: int, p: Seq<bool>, s: Trie, n: nat, q: Seq<bool>)
    requires
        t.complete(d),
        !(s is Pruned),
        n <= s.skip().len(),
        s.complete(d + p.len() - n),
        p.len() + s.skip().len() - n <= crate::mrt::route::MAX_ROUTE_BITS,
    ensures
        match t.splice(p, s, n) {
            Ok(t2) => {
                &&& t2.complete(d)
                &&& t2.lookup(q) == (if begins(q, p) {
                    s.with_skip(s.skip().skip(n as int)).lookup(q.skip(p.len() as int))
                } else {
                    t.lookup(q)
                })
                &&& t.lookup(q) is Some && begins(p, q) ==> q == p
            },
            Err(f) => f == Fault::Key && exists|x: Seq<bool>| (#[trigger] t.lookup(x)) is Some && begins(p, x) && x != p,
        },
    decreases t,
{
    let sk = t.skip();
    let k = lcp(sk, p) as int;
    lemma_lcp(sk, p);
    reveal_with_fuel(Trie::complete, 3);
    if t.lookup(q) is Some {
        lemma_stored(t, d, q);
        assert forall|i: int| 0 <= i < sk.len() implies q[i] == sk[i] by {
            assert(q.take(sk.len() as int)[i] == q[i]);
        }
    }
    if k == p.len() {
        let whole = s.with_skip(p + s.skip().skip(n as int));
        lemma_reskin(s, n, p, q);
        if t.lookup(q) is Some {
            assert(q.take(p.len() as int) =~= p);
            if begins(p, q) {
                assert(q =~= p);
            }
        }
        assert((p + s.skip().skip(n as int)).len() == p.len() + s.skip().len() - n);
        assert(whole.complete(d)) by {
            match s {
                Trie::Leaf { skip, value } => {},
                Trie::Branch { skip, left, right } => {
                    assert(d + p.len() - n + skip.len() + 1 == d + (p.len() + skip.len() - n) + 1);
                },
                Trie::Pruned { hash, depth } => {},
            }
        }
    } else if k < sk.len() {
        let p2 = p.skip(k + 1);
        let moved = s.with_skip(p2 + s.skip().skip(n as int));
        let old_part = t.with_skip(sk.skip(k + 1));
        let t2 = fork(sk.take(k), p[k], moved, old_part);
        assert(p.take(k) =~= sk.take(k));
        lemma_reskin(s, n, p2, q.skip(k + 1));
        assert(s.reskin(n, p2) == Ok::<Trie, Fault>(moved));
        assert(t.splice(p, s, n) == Ok::<Trie, Fault>(t2));
        lemma_fork(sk.take(k), p[k], moved, old_part, q);
        lemma_split_lookup(t, k, q);
        lemma_begins_below(sk.take(k), p[k], q, p);
        if begins(q, p) {
            assert(q.skip(k + 1).skip(p2.len() as int) =~= q.skip(p.len() as int));
        }
        if t.lookup(q) is Some && begins(p, q) {
            assert(p.take(q.len() as int)[k] == p[k]);
        }
        assert((p2 + s.skip().skip(n as int)).len() == p2.len() + s.skip().len() - n);
        assert(moved.complete(d + k + 1)) by {
            match s {
                Trie::Leaf { skip, value } => {},
                Trie::Branch { skip, left, right } => {
                    assert(d + p.len() - n + skip.len() + 1 == d + k + 1 + (p2.len() + skip.len() - n) + 1);
                },
                Trie::Pruned { hash, depth } => {},
            }
        }
        assert(old_part.complete(d + k + 1)) by {
            match t {
                Trie::Leaf { skip, value } => {},
                Trie::Branch { skip, left, right } => {
                    assert(d + skip.len() + 1 == d + k + 1 + (skip.len() - k - 1) + 1);
                },
                Trie::Pruned { hash, depth } => {},
            }
        }
        assert(t2.complete(d));
    } else {
        match t {
            Trie::Leaf { skip, value } => {
                assert(p.take(k) =~= skip);
                assert(t.lookup(skip) is Some && begins(p, skip) && skip != p);
            },
            Trie::Branch { skip, left, right } => {
                assert(p.take(k) =~= skip);
                let side = p[k];
                let (on, off) = if side {
                    (*right, *left)
                } else {
                    (*left, *right)
                };
                let p2 = p.skip(k + 1);
                lemma_split(skip, p);
                assert(d + k + 1 + p2.len() - n == d + p.len() - n);
                lemma_splice(on, d + k + 1, p2, s, n, q.skip(k + 1));
                match on.splice(p2, s, n) {
                    Ok(t2) => {
                        lemma_fork(skip, side, t2, off, q);
                        lemma_begins_below(skip, side, q, p);
                        if begins(q, p) {
                            assert(q.skip(k + 1).skip(p2.len() as int) =~= q.skip(p.len() as int));
                        }
                        if t.lookup(q) is Some && begins(p, q) {
                            assert(p.take(q.len() as int)[k] == p[k]);
                            lemma_split(skip, q);
                            lemma_begins_below(skip, side, p, q);
                        }
                    },
                    Err(f) => {
                        let x = choose|x: Seq<bool>| (#[trigger] on.lookup(x)) is Some && begins(p2, x) && x != p2;
                        let y = skip + seq![side] + x;
                        lemma_lookup_below(skip, *left, *right, side, x);
                        assert(y.skip(k + 1) =~= x);
                        assert(y.take(k) =~= skip);
                        lemma_begins_below(skip, side, p, y);
                        assert(t.lookup(y) is Some && begins(p, y) && y != p);
                    },
                }
            },
            Trie::Pruned { hash, depth } => {},
        }
    }
}

/// Tries with nothing pruned that store the same are the same: the shape, and
/// so the root hash, does not depend on how the trie came about.
pub proof fn lemma_canonical(a: Trie, b: Trie, da: int, db: int)
    requires
        a.complete(da),
        b.complete(db),
        forall|q: Seq<bool>| #[trigger] a.lookup(q) == b.lookup(q),
    ensures
        a == b,
    decreases a,
{
    lemma_skip_le(a, b, da, db);
    lemma_skip_le(b, a, db, da);
    match a {
        Trie::Leaf { skip, value } => {
            assert(a.lookup(skip) == b.lookup(skip));
            match b {
                Trie::Leaf { skip: s2, value: v2 } => {},
                Trie::Branch { skip: s2, left, right } => {
                    lemma_sample(*left, db + s2.len() + 1);
                    lemma_sample(*right, db + s2.len() + 1);
                    lemma_lookup_below(s2, *left, *right, false, left.sample());
                    lemma_lookup_below(s2, *left, *right, true, right.sample());
                    let x = s2 + seq![false] + left.sample();
                    let y = s2 + seq![true] + right.sample();
                    assert(a.lookup(x) == b.lookup(x) && a.lookup(y) == b.lookup(y));
                    assert(x[s2.len() as int] != y[s2.len() as int]);
                },
                Trie::Pruned { hash, depth } => {},
            }
        },
        Trie::Branch { skip, left, right } => {
            match b {
                Trie::Leaf { skip: s2, value: v2 } => {
                    lemma_sample(*left, da + skip.len() + 1);
                    lemma_sample(*right, da + skip.len() + 1);
                    lemma_lookup_below(skip, *left, *right, false, left.sample());
                    lemma_lookup_below(skip, *left, *right, true, right.sample());
                    let x = skip + seq![false] + left.sample();
                    let y = skip + seq![true] + right.sample();
                    assert(a.lookup(x) == b.lookup(x) && a.lookup(y) == b.lookup(y));
                    assert(x[skip.len() as int] != y[skip.len() as int]);
                },
                Trie::Branch { skip: s2, left: l2, right: r2 } => {
                    assert(skip =~= s2);
                    assert forall|q: Seq<bool>| #[trigger] left.lookup(q) == l2.lookup(q) by {
                        lemma_lookup_below(skip, *left, *right, false, q);
                        lemma_lookup_below(skip, *l2, *r2, false, q);
                        assert(a.lookup(skip + seq![false] + q) == b.lookup(skip + seq![false] + q));
                    }
                    assert forall|q: Seq<bool>| #[trigger] right.lookup(q) == r2.lookup(q) by {
                        lemma_lookup_below(skip, *left, *right, true, q);
                        lemma_lookup_below(skip, *l2, *r2, true, q);
                        assert(a.lookup(skip + seq![true] + q) == b.lookup(skip + seq![true] + q));
                    }
                    lemma_canonical(*left, *l2, da + skip.len() + 1, db + s2.len() + 1);
                    lemma_canonical(*right, *r2, da + skip.len() + 1, db + s2.len() + 1);
                },
                Trie::Pruned { hash, depth } => {},
            }
        },
        Trie::Pruned { hash, depth } => {},
    }
}

/// The bits at the root of a trie are those that all its routes share.
proof fn lemma_skip_le(a: Trie, b: Trie, da: int, db: int)
    requires
        a.complete(da),
        b.complete(db),
        forall|q: Seq<bool>| #[trigger] a.lookup(q) == b.lookup(q),
    ensures
        a is Branch ==> b.skip().len() <= a.skip().len() && b.skip() == a.skip().take(b.skip().len() as int),
{
    if let Trie::Branch { skip, left, right } = a {
        lemma_sample(*left, da + skip.len() + 1);
        lemma_sample(*right, da + skip.len() + 1);
        lemma_lookup_below(skip, *left, *right, false, left.sample());
        lemma_lookup_below(skip, *left, *right, true, right.sample());
        let x = skip + seq![false] + left.sample();
        let y = skip + seq![true] + right.sample();
        assert(a.lookup(x) == b.lookup(x) && a.lookup(y) == b.lookup(y));
        lemma_stored(b, db, x);
        lemma_stored(b, db, y);
        let m = b.skip().len() as int;
        let n = skip.len() as int;
        if m > n {
            assert(x.take(m)[n] == x[n]);
            assert(y.take(m)[n] == y[n]);
        }
        assert(skip.take(m) =~= x.take(m));
    }
}

} // verus!
