//! The trie as a value: what nodes stand for, what they hash to, and what the
//! operations make of them.

use vstd::prelude::*;

use crate::bits::{lcp, pack, padded, route_lt};
use crate::error::Fault;
use crate::hash::{sha256_of, NodeHash};
use crate::mrt::route::{agrees, completes, rest, MAX_ROUTE_BITS};

verus! {

/// A trie. A leaf holds the end of its key's route; a branch holds the bits
/// that all routes below it share, and parts them by the bit after those; a
/// pruned node stands for a subtrie of which only the hash and the depth are
/// known.
#[verifier::ext_equal]
pub enum Trie {
    Leaf { skip: Seq<bool>, value: Seq<u8> },
    Branch { skip: Seq<bool>, left: Box<Trie>, right: Box<Trie> },
    Pruned { hash: NodeHash, depth: nat },
}

pub open spec fn max(a: nat, b: nat) -> nat {
    if a >= b {
        a
    } else {
        b
    }
}

impl Trie {
    /// The number of bits down to the end of the longest route.
    pub open spec fn depth(self) -> nat
        decreases self,
    {
        match self {
            Trie::Leaf { skip, value } => skip.len(),
            Trie::Branch { skip, left, right } => skip.len() + 1 + max(left.depth(), right.depth()),
            Trie::Pruned { hash, depth } => depth,
        }
    }

    /// The hash. A branch commits to the hashes and depths of its children.
    pub open spec fn hash(self) -> NodeHash
        decreases self,
    {
        match self {
            Trie::Leaf { skip, value } => sha256_of(leaf_preimage(skip, value)),
            Trie::Branch { skip, left, right } => sha256_of(
                branch_preimage(left.hash(), right.hash(), left.depth(), right.depth(), skip),
            ),
            Trie::Pruned { hash, depth } => hash,
        }
    }

    /// The bits that the root holds; none if it is pruned.
    pub open spec fn skip(self) -> Seq<bool> {
        match self {
            Trie::Leaf { skip, value } => skip,
            Trie::Branch { skip, left, right } => skip,
            Trie::Pruned { hash, depth } => Seq::empty(),
        }
    }

    /// The same trie, but with other bits at the root; a pruned one stays as it is.
    pub open spec fn with_skip(self, s: Seq<bool>) -> Trie {
        match self {
            Trie::Leaf { skip, value } => Trie::Leaf { skip: s, value },
            Trie::Branch { skip, left, right } => Trie::Branch { skip: s, left, right },
            Trie::Pruned { hash, depth } => self,
        }
    }

    /// Nothing is pruned, and every route that starts `d` bits above the root is a whole number of bytes.
    pub open spec fn complete(self, d: int) -> bool
        decreases self,
    {
        match self {
            Trie::Leaf { skip, value } => (d + skip.len()) % 8 == 0,
            Trie::Branch { skip, left, right } => left.complete(d + skip.len() + 1) && right.complete(
                d + skip.len() + 1,
            ),
            Trie::Pruned { hash, depth } => false,
        }
    }

    /// Nothing is pruned.
    pub open spec fn bare(self) -> bool
        decreases self,
    {
        match self {
            Trie::Leaf { skip, value } => true,
            Trie::Branch { skip, left, right } => left.bare() && right.bare(),
            Trie::Pruned { hash, depth } => false,
        }
    }

    /// What a search for the route `k` finds, once `d` of its bits have led here.
    pub open spec fn find(self, k: Seq<bool>, d: int) -> Result<Option<Seq<u8>>, Fault>
        decreases self,
    {
        match self {
            Trie::Leaf { skip, value } => Ok(
                if completes(skip, k, d) {
                    Some(value)
                } else {
                    None
                },
            ),
            Trie::Branch { skip, left, right } => if !agrees(skip, k, d) {
                Ok(None)
            } else if padded(k, d + skip.len()) {
                right.find(k, d + skip.len() + 1)
            } else {
                left.find(k, d + skip.len() + 1)
            },
            Trie::Pruned { hash, depth } => Err(Fault::Pruned),
        }
    }

    /// The trie with `value` stored at the end of the route `r`.
    pub open spec fn insert(self, r: Seq<bool>, v: Seq<u8>) -> Result<Trie, Fault>
        decreases self,
    {
        let k = lcp(self.skip(), r) as int;
        let leaf = Trie::Leaf { skip: r.skip(k + 1), value: v };
        match self {
            Trie::Leaf { skip, value } => if skip == r {
                Ok(Trie::Leaf { skip, value: v })
            } else if k < skip.len() && k < r.len() {
                Ok(fork(skip.take(k), r[k], leaf, Trie::Leaf { skip: skip.skip(k + 1), value }))
            } else {
                Err(Fault::Key)
            },
            Trie::Branch { skip, left, right } => if k < skip.len() && k < r.len() {
                Ok(fork(skip.take(k), r[k], leaf, Trie::Branch { skip: skip.skip(k + 1), left, right }))
            } else if k == skip.len() && k < r.len() {
                if r[k] {
                    match right.insert(r.skip(k + 1), v) {
                        Ok(t) => Ok(fork(skip, true, t, *left)),
                        Err(f) => Err(f),
                    }
                } else {
                    match left.insert(r.skip(k + 1), v) {
                        Ok(t) => Ok(fork(skip, false, t, *right)),
                        Err(f) => Err(f),
                    }
                }
            } else {
                Err(Fault::Key)
            },
            Trie::Pruned { hash, depth } => Err(Fault::Pruned),
        }
    }

    /// The trie without the route `k`, of which `d` bits have led here: `None`
    /// if the route is not there, else what is left.
    pub open spec fn remove(self, k: Seq<bool>, d: int) -> Result<Option<Option<Trie>>, Fault>
        decreases self,
    {
        match self {
            Trie::Leaf { skip, value } => Ok(
                if completes(skip, k, d) {
                    Some(None)
                } else {
                    None
                },
            ),
            Trie::Branch { skip, left, right } => if !agrees(skip, k, d) {
                Ok(None)
            } else if padded(k, d + skip.len()) {
                match right.remove(k, d + skip.len() + 1) {
                    Ok(Some(t)) => Ok(Some(join(skip, Some(*left), t))),
                    Ok(None) => Ok(None),
                    Err(f) => Err(f),
                }
            } else {
                match left.remove(k, d + skip.len() + 1) {
                    Ok(Some(t)) => Ok(Some(join(skip, t, Some(*right)))),
                    Ok(None) => Ok(None),
                    Err(f) => Err(f),
                }
            },
            Trie::Pruned { hash, depth } => Err(Fault::Pruned),
        }
    }

    /// The trie without the routes from `lo` (if given) up to but not
    /// including `hi` (if given); `d` bits of both have led here.
    pub open spec fn cut(self, d: int, lo: Option<Seq<bool>>, hi: Option<Seq<bool>>) -> Result<Option<Trie>, Fault>
        decreases self,
    {
        if lo is None && hi is None {
            Ok(None)
        } else {
            match self {
                Trie::Leaf { skip, value } => if (d + skip.len()) % 8 != 0 {
                    Err(Fault::Tree)
                } else if below(skip, d, lo) || !below_end(skip, d, hi) {
                    Ok(Some(self))
                } else {
                    Ok(None)
                },
                Trie::Branch { skip, left, right } => {
                    if lo_place(skip, d, lo) == Some(BoundPosition::After) || hi_place(skip, d, hi) == Some(BoundPosition::Before) {
                        Ok(Some(self))
                    } else {
                        let e = d + skip.len() + 1;
                        let new_left = match child_span(skip, d, lo, hi, false) {
                            Span::Outside => Ok(Some(*left)),
                            Span::Within { lo, hi } => left.cut(e, lo, hi),
                        };
                        match new_left {
                            Err(f) => Err(f),
                            Ok(l) => {
                                let new_right = match child_span(skip, d, lo, hi, true) {
                                    Span::Outside => Ok(Some(*right)),
                                    Span::Within { lo, hi } => right.cut(e, lo, hi),
                                };
                                match new_right {
                                    Err(f) => Err(f),
                                    Ok(r) => Ok(join(skip, l, r)),
                                }
                            },
                        }
                    }
                },
                Trie::Pruned { hash, depth } => Err(Fault::Pruned),
            }
        }
    }

    /// Takes out the subtrie of all routes that begin with `p`: what is left,
    /// the subtrie, and how many bits of its root belong to `p`. With `strict`,
    /// a pruned sibling that would have to take its parent's place is an error.
    pub open spec fn detach(self, p: Seq<bool>, strict: bool) -> Result<(Option<Trie>, Trie, nat), Fault>
        decreases self,
    {
        let k = lcp(self.skip(), p) as int;
        match self {
            Trie::Leaf { skip, value } => if k == p.len() {
                Ok((None, self, p.len()))
            } else {
                Err(Fault::Key)
            },
            Trie::Branch { skip, left, right } => if k == p.len() {
                Ok((None, self, p.len()))
            } else if k == skip.len() {
                let side = p[k];
                let (on, off) = if side {
                    (*right, *left)
                } else {
                    (*left, *right)
                };
                match on.detach(p.skip(k + 1), strict) {
                    Err(f) => Err(f),
                    Ok((t, s, n)) => if t is None && strict && off is Pruned {
                        Err(Fault::Pruned)
                    } else if side {
                        Ok((join(skip, Some(off), t), s, n))
                    } else {
                        Ok((join(skip, t, Some(off)), s, n))
                    },
                }
            } else {
                Err(Fault::Key)
            },
            Trie::Pruned { hash, depth } => Err(Fault::Pruned),
        }
    }

    /// The trie with `moved` put in the place of all routes that begin with
    /// `q`; `moved` is given with the first `strip` bits of its root cut off.
    pub open spec fn splice(self, q: Seq<bool>, moved: Trie, strip: nat) -> Result<Trie, Fault>
        decreases self,
    {
        let k = lcp(self.skip(), q) as int;
        match self {
            Trie::Leaf { skip, value } => if k == q.len() {
                moved.reskin(strip, q)
            } else if k < skip.len() {
                match moved.reskin(strip, q.skip(k + 1)) {
                    Ok(t) => Ok(fork(skip.take(k), q[k], t, self.with_skip(skip.skip(k + 1)))),
                    Err(f) => Err(f),
                }
            } else {
                Err(Fault::Key)
            },
            Trie::Branch { skip, left, right } => if k == q.len() {
                moved.reskin(strip, q)
            } else if k < skip.len() {
                match moved.reskin(strip, q.skip(k + 1)) {
                    Ok(t) => Ok(fork(skip.take(k), q[k], t, self.with_skip(skip.skip(k + 1)))),
                    Err(f) => Err(f),
                }
            } else if q[k] {
                match right.splice(q.skip(k + 1), moved, strip) {
                    Ok(t) => Ok(fork(skip, true, t, *left)),
                    Err(f) => Err(f),
                }
            } else {
                match left.splice(q.skip(k + 1), moved, strip) {
                    Ok(t) => Ok(fork(skip, false, t, *right)),
                    Err(f) => Err(f),
                }
            },
            Trie::Pruned { hash, depth } => Err(Fault::Pruned),
        }
    }

    /// The trie with the first `strip` bits of its root replaced by `tail`.
    pub open spec fn reskin(self, strip: nat, tail: Seq<bool>) -> Result<Trie, Fault> {
        if self is Pruned {
            Err(Fault::Pruned)
        } else if strip > self.skip().len() {
            Err(Fault::Tree)
        } else if tail.len() + self.skip().len() - strip > MAX_ROUTE_BITS {
            Err(Fault::Tree)
        } else {
            Ok(self.with_skip(tail + self.skip().skip(strip as int)))
        }
    }
}

/// A branch with `on` at the child that `side` picks, and `off` at the other.
pub open spec fn fork(skip: Seq<bool>, side: bool, on: Trie, off: Trie) -> Trie {
    if side {
        Trie::Branch { skip, left: Box::new(off), right: Box::new(on) }
    } else {
        Trie::Branch { skip, left: Box::new(on), right: Box::new(off) }
    }
}

/// A branch whose children may be gone: with one child left, that child takes
/// over the branch's bits; with none, nothing remains.
pub open spec fn join(skip: Seq<bool>, left: Option<Trie>, right: Option<Trie>) -> Option<Trie> {
    match (left, right) {
        (Some(l), Some(r)) => Some(Trie::Branch { skip, left: Box::new(l), right: Box::new(r) }),
        (Some(l), None) => Some(lift(skip, false, l)),
        (None, Some(r)) => Some(lift(skip, true, r)),
        (None, None) => None,
    }
}

/// A child that takes its parent's place.
pub open spec fn lift(skip: Seq<bool>, side: bool, t: Trie) -> Trie {
    t.with_skip(skip + seq![side] + t.skip())
}

/// Where a bound lies relative to a branch.
#[derive(Clone, Copy, Debug, PartialEq, Eq)]
pub enum BoundPosition {
    /// Before every route below the branch.
    Before,
    /// After every route below the branch.
    After,
    /// Among the routes of the left child.
    InLeft,
    /// Among the routes of the right child.
    InRight,
}

/// The part of a child that lies between two bounds.
pub enum Span {
    /// None of it.
    Outside,
    /// What lies between these bounds.
    Within { lo: Option<Seq<bool>>, hi: Option<Seq<bool>> },
}

/// The bits of a route that a skip at position `d` is compared with.
pub open spec fn window(k: Seq<bool>, d: int, n: nat) -> Seq<bool> {
    Seq::new(n, |i: int| padded(k, d + i))
}

/// Where the route `k` lies relative to a branch with `skip` at position `d`.
pub open spec fn place(skip: Seq<bool>, k: Seq<bool>, d: int) -> BoundPosition {
    let n = lcp(skip, window(k, d, skip.len()));
    if n < skip.len() {
        if padded(k, d + n) {
            BoundPosition::After
        } else {
            BoundPosition::Before
        }
    } else if padded(k, d + skip.len()) {
        BoundPosition::InRight
    } else {
        BoundPosition::InLeft
    }
}

pub open spec fn lo_place(skip: Seq<bool>, d: int, lo: Option<Seq<bool>>) -> Option<BoundPosition> {
    match lo {
        Some(k) => Some(place(skip, k, d)),
        None => None,
    }
}

pub open spec fn hi_place(skip: Seq<bool>, d: int, hi: Option<Seq<bool>>) -> Option<BoundPosition> {
    match hi {
        Some(k) => Some(place(skip, k, d)),
        None => None,
    }
}

/// Whether a leaf with `skip` at position `d` comes before the bound `lo`.
pub open spec fn below(skip: Seq<bool>, d: int, lo: Option<Seq<bool>>) -> bool {
    match lo {
        Some(k) => route_lt(skip, rest(k, d)),
        None => false,
    }
}

/// Whether a leaf with `skip` at position `d` comes before the end `hi`.
pub open spec fn below_end(skip: Seq<bool>, d: int, hi: Option<Seq<bool>>) -> bool {
    match hi {
        Some(k) => route_lt(skip, rest(k, d)),
        None => true,
    }
}

/// The part of the child on `side` that lies between `lo` and `hi`.
pub open spec fn child_span(
    skip: Seq<bool>,
    d: int,
    lo: Option<Seq<bool>>,
    hi: Option<Seq<bool>>,
    side: bool,
) -> Span {
    let here = if side {
        BoundPosition::InRight
    } else {
        BoundPosition::InLeft
    };
    if lo_place(skip, d, lo) == Some(BoundPosition::After) || (lo_place(skip, d, lo) == Some(BoundPosition::InRight) && !side) {
        Span::Outside
    } else if hi_place(skip, d, hi) == Some(BoundPosition::Before) || (hi_place(skip, d, hi) == Some(BoundPosition::InLeft) && side) {
        Span::Outside
    } else {
        Span::Within {
            lo: if lo_place(skip, d, lo) == Some(here) {
                lo
            } else {
                None
            },
            hi: if hi_place(skip, d, hi) == Some(here) {
                hi
            } else {
                None
            },
        }
    }
}

/// A number as four bytes, most significant first.
#[verifier::opaque]
pub open spec fn be32(n: nat) -> Seq<u8> {
    seq![(n / 16777216 % 256) as u8, (n / 65536 % 256) as u8, (n / 256 % 256) as u8, (n % 256) as u8]
}

/// A bit count, then the bits packed.
pub open spec fn framed(skip: Seq<bool>) -> Seq<u8> {
    be32(skip.len()) + pack(skip)
}

/// What the hash of a leaf covers.
pub open spec fn leaf_preimage(skip: Seq<bool>, value: Seq<u8>) -> Seq<u8> {
    framed(skip) + value + seq![1u8]
}

/// What the hash of a branch covers.
pub open spec fn branch_preimage(
    left: NodeHash,
    right: NodeHash,
    left_depth: nat,
    right_depth: nat,
    skip: Seq<bool>,
) -> Seq<u8> {
    left@ + right@ + be32(left_depth) + be32(right_depth) + framed(skip) + seq![0u8]
}

} // verus!
