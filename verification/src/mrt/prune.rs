//! Hiding the parts of a trie that were not visited.

use std::sync::Arc;

use vstd::prelude::*;

use crate::mrt::model::Trie;
use crate::mrt::node::{share, MrtNode, MrtNodeInner};

verus! {

/// A trie of which only the nodes at the places `keep` are shown; the rest is
/// pruned. A place is the way to a node: the child taken at each branch. The
/// root of `t` is at the place `at`.
pub open spec fn prune(t: Trie, at: Seq<bool>, keep: Set<Seq<bool>>) -> Trie
    decreases t,
{
    if !keep.contains(at) {
        Trie::Pruned { hash: t.hash(), depth: t.depth() }
    } else {
        match t {
            Trie::Branch { skip, left, right } => Trie::Branch {
                skip,
                left: Box::new(prune(*left, at.push(false), keep)),
                right: Box::new(prune(*right, at.push(true), keep)),
            },
            _ => t,
        }
    }
}

/// Pruning changes neither the hash nor the depth.
pub proof fn law_pruning_keeps_hash(t: Trie, at: Seq<bool>, keep: Set<Seq<bool>>)
    ensures
        prune(t, at, keep).hash() == t.hash(),
        prune(t, at, keep).depth() == t.depth(),
    decreases t,
{
    if keep.contains(at) {
        if let Trie::Branch { skip, left, right } = t {
            law_pruning_keeps_hash(*left, at.push(false), keep);
            law_pruning_keeps_hash(*right, at.push(true), keep);
        }
    }
}

/// Where a place is not kept, nothing is shown but hash and depth: what is below it
/// makes no other difference.
pub proof fn law_pruning_hides(t: Trie, u: Trie, at: Seq<bool>, keep: Set<Seq<bool>>)
    requires
        !keep.contains(at),
        t.hash() == u.hash(),
        t.depth() == u.depth(),
    ensures
        prune(t, at, keep) == prune(u, at, keep),
{
}

/// With all places kept, nothing is pruned.
pub proof fn lemma_prune_nothing(t: Trie, at: Seq<bool>)
    ensures
        prune(t, at, Set::full()) == t,
    decreases t,
{
    if let Trie::Branch { skip, left, right } = t {
        lemma_prune_nothing(*left, at.push(false));
        lemma_prune_nothing(*right, at.push(true));
    }
}

/// Places that were marked, as a tree.
#[derive(Debug)]
pub struct Marks {
    seen: bool,
    left: Option<Box<Marks>>,
    right: Option<Box<Marks>>,
}

impl Marks {
    /// Whether the place `p`, counted from here, is marked.
    pub closed spec fn has(self, p: Seq<bool>) -> bool
        decreases p.len(),
    {
        if p.len() == 0 {
            self.seen
        } else if p[0] {
            match self.right {
                Some(m) => m.has(p.skip(1)),
                None => false,
            }
        } else {
            match self.left {
                Some(m) => m.has(p.skip(1)),
                None => false,
            }
        }
    }

    /// No marks.
    fn none() -> (r: Self)
        ensures
            forall|p: Seq<bool>| !r.has(p),
    {
        Marks { seen: false, left: None, right: None }
    }

    /// Marks the place `place[i ..]`.
    fn mark(&mut self, place: &[bool], i: usize)
        requires
            i <= place@.len(),
        ensures
            forall|p: Seq<bool>| #[trigger]
                final(self).has(p) == (old(self).has(p) || p == place@.skip(i as int)),
        decreases place@.len() - i,
    {
        let ghost whole = place@.skip(i as int);
        if i == place.len() {
            self.seen = true;
            assert forall|p: Seq<bool>| #[trigger] self.has(p) == (old(self).has(p) || p == whole) by {
                if p.len() == 0 {
                    assert(p =~= whole);
                }
            }
            return;
        }
        let side: bool = place[i];
        let slot = if side {
            self.right.take()
        } else {
            self.left.take()
        };
        let mut child: Box<Marks> = match slot {
            Some(c) => c,
            None => Box::new(Marks::none()),
        };
        let ghost before = *child;
        (&mut *child).mark(place, i + 1);
        let ghost after = *child;
        if side {
            self.right = Some(child);
        } else {
            self.left = Some(child);
        }
        proof {
            let tail = place@.skip(i + 1);
            assert(whole =~= seq![side] + tail);
            assert forall|p: Seq<bool>| #[trigger] self.has(p) == (old(self).has(p) || p == whole) by {
                if p.len() > 0 {
                    if p[0] == side {
                        assert(after.has(p.skip(1)) == (before.has(p.skip(1)) || p.skip(1) == tail));
                        assert(p =~= seq![side] + p.skip(1));
                        if p == whole {
                            assert(p.skip(1) =~= tail);
                        }
                    } else {
                        assert(whole[0] == side);
                    }
                }
            }
        }
    }
}

/// Collects the places that were visited.
#[derive(Debug)]
pub struct MrtPartialBuilder {
    marks: Marks,
}

impl MrtPartialBuilder {
    /// The visited places.
    pub closed spec fn seen(&self) -> Set<Seq<bool>> {
        Set::new(|p: Seq<bool>| self.marks.has(p))
    }

    /// Nothing was visited.
    pub fn new() -> (r: Self)
        ensures
            r.seen() == Set::<Seq<bool>>::empty(),
    {
        let r = MrtPartialBuilder { marks: Marks::none() };
        assert(r.seen() =~= Set::<Seq<bool>>::empty());
        r
    }

    /// Notes a visit.
    pub fn install(&mut self, place: &[bool])
        ensures
            final(self).seen() == old(self).seen().insert(place@),
    {
        self.marks.mark(place, 0);
        assert(place@.skip(0) =~= place@);
        assert(self.seen() =~= old(self).seen().insert(place@));
    }

    /// Whether a place was visited.
    pub fn contains(&self, place: &[bool]) -> (r: bool)
        ensures
            r == self.seen().contains(place@),
    {
        let mut cur: &Marks = &self.marks;
        let mut i: usize = 0;
        assert(place@.skip(0) =~= place@);
        while i < place.len()
            invariant
                i <= place@.len(),
                self.marks.has(place@) == cur.has(place@.skip(i as int)),
            decreases place@.len() - i,
        {
            assert(place@.skip(i as int).skip(1) =~= place@.skip(i + 1));
            let next = if place[i] {
                &cur.right
            } else {
                &cur.left
            };
            match next {
                Some(m) => {
                    cur = &**m;
                },
                None => {
                    return false;
                },
            }
            i = i + 1;
        }
        cur.seen
    }

    /// What was visited of the trie below `root`, whose root counts as visited.
    pub fn assemble(&self, root: &Arc<MrtNodeInner>) -> (r: Arc<MrtNodeInner>)
        requires
            self.seen().contains(Seq::empty()),
        ensures
            r.trie() == prune(root.trie(), Seq::empty(), self.seen()),
    {
        assert forall|p: Seq<bool>| self.seen().contains(Seq::<bool>::empty() + p) == #[trigger] self.marks.has(p) by {
            assert(Seq::<bool>::empty() + p =~= p);
        }
        walk_keep_visited(root, &self.marks, Ghost(Seq::empty()), Ghost(self.seen()))
    }
}

/// Prunes the children that were not visited, all the way down.
fn walk_keep_visited(
    node: &Arc<MrtNodeInner>,
    marks: &Marks,
    Ghost(at): Ghost<Seq<bool>>,
    Ghost(keep): Ghost<Set<Seq<bool>>>,
) -> (r: Arc<MrtNodeInner>)
    requires
        keep.contains(at),
        forall|p: Seq<bool>| keep.contains(at + p) == #[trigger] marks.has(p),
    ensures
        r.trie() == prune(node.trie(), at, keep),
    decreases node.trie(), 0int,
{
    match node.node() {
        MrtNode::Leaf { skip, value } => share(node),
        MrtNode::PrunedHash => share(node),
        MrtNode::Branch { skip, left, right } => {
            let new_left = keep_child(left, &marks.left, Ghost(*marks), Ghost(false), Ghost(at), Ghost(keep));
            let new_right = keep_child(right, &marks.right, Ghost(*marks), Ghost(true), Ghost(at), Ghost(keep));
            proof {
                law_pruning_keeps_hash(left.trie(), at.push(false), keep);
                law_pruning_keeps_hash(right.trie(), at.push(true), keep);
            }
            MrtNodeInner::branch(skip.clone(), new_left, new_right)
        },
    }
}

/// The child on `side`, or a stub for it if it was not visited.
fn keep_child(
    child: &Arc<MrtNodeInner>,
    marks: &Option<Box<Marks>>,
    Ghost(parent): Ghost<Marks>,
    Ghost(side): Ghost<bool>,
    Ghost(at): Ghost<Seq<bool>>,
    Ghost(keep): Ghost<Set<Seq<bool>>>,
) -> (r: Arc<MrtNodeInner>)
    requires
        forall|p: Seq<bool>| keep.contains(at + p) == #[trigger] parent.has(p),
        *marks == (if side { parent.right } else { parent.left }),
    ensures
        r.trie() == prune(child.trie(), at.push(side), keep),
    decreases child.trie(), 1int,
{
    let ghost here = at.push(side);
    proof {
        reveal_with_fuel(Marks::has, 2);
        assert(here =~= at + seq![side]);
        assert(keep.contains(here) == parent.has(seq![side]));
        assert(seq![side].skip(1) =~= Seq::empty());
    }
    match marks {
        Some(m) => {
            if m.seen {
                proof {
                    assert forall|p: Seq<bool>| keep.contains(here + p) == #[trigger] m.has(p) by {
                        let q = seq![side] + p;
                        assert(here + p =~= at + q);
                        assert(keep.contains(at + q) == parent.has(q));
                        assert(q.skip(1) =~= p);
                    }
                }
                walk_keep_visited(child, m, Ghost(here), Ghost(keep))
            } else {
                MrtNodeInner::pruned(child.hash(), child.depth_below())
            }
        },
        None => MrtNodeInner::pruned(child.hash(), child.depth_below()),
    }
}

} // verus!
