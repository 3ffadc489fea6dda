//! Nodes of a trie that is changed in place.

use std::sync::Arc;

use vstd::prelude::*;

use crate::bits::key_copy;
use crate::hash::NodeHash;
use crate::mrt::model::{max, Trie};
use crate::mrt::node::{branch_depth_below, compute_branch_hash, compute_leaf_hash, share, MrtNode, MrtNodeInner};
use crate::mrt::prune::{law_pruning_keeps_hash, lemma_prune_nothing, prune, MrtPartialBuilder};
use crate::mrt::route::{route, RouteBits, MAX_ROUTE_BITS};

verus! {

/// A node that is changed in place.
#[derive(Debug)]
pub enum MrtVerifyNode {
    /// The end of a key's route, and the value.
    Leaf { skip: RouteBits, value: Vec<u8>, hash_cache: Option<NodeHash> },
    /// The bits that all routes below share, and the children.
    Branch {
        skip: RouteBits,
        left: Box<MrtVerifyNode>,
        right: Box<MrtVerifyNode>,
        hash_cache: Option<NodeHash>,
        depth_below: u16,
    },
    /// A stub: the hash and the depth of what it stands for.
    PrunedHash(NodeHash, u16),
    /// A node of a recorded trie that was not visited yet, and its place there.
    Unvisited { node: Arc<MrtNodeInner>, place: Vec<bool> },
}

impl MrtVerifyNode {
    /// The trie below this node.
    pub open spec fn whole(self) -> Trie
        decreases self,
    {
        match self {
            MrtVerifyNode::Leaf { skip, value, hash_cache } => Trie::Leaf { skip: skip@, value: value@ },
            MrtVerifyNode::Branch { skip, left, right, hash_cache, depth_below } => Trie::Branch {
                skip: skip@,
                left: Box::new(left.whole()),
                right: Box::new(right.whole()),
            },
            MrtVerifyNode::PrunedHash(hash, depth) => Trie::Pruned { hash, depth: depth as nat },
            MrtVerifyNode::Unvisited { node, place } => node.trie(),
        }
    }

    /// The trie below this node, where of the unvisited nodes only those at
    /// the places `keep` are shown.
    pub open spec fn shown(self, keep: Set<Seq<bool>>) -> Trie
        decreases self,
    {
        match self {
            MrtVerifyNode::Leaf { skip, value, hash_cache } => Trie::Leaf { skip: skip@, value: value@ },
            MrtVerifyNode::Branch { skip, left, right, hash_cache, depth_below } => Trie::Branch {
                skip: skip@,
                left: Box::new(left.shown(keep)),
                right: Box::new(right.shown(keep)),
            },
            MrtVerifyNode::PrunedHash(hash, depth) => Trie::Pruned { hash, depth: depth as nat },
            MrtVerifyNode::Unvisited { node, place } => prune(node.trie(), place@, keep),
        }
    }

    /// What is cached is right, and nothing is deeper than a key can be long.
    pub open spec fn wf(self) -> bool
        decreases self,
    {
        &&& self.whole().depth() <= MAX_ROUTE_BITS
        &&& match self {
            MrtVerifyNode::Leaf { skip, value, hash_cache } => hash_cache matches Some(h) ==> h == self.whole().hash(),
            MrtVerifyNode::Branch { skip, left, right, hash_cache, depth_below } => {
                &&& left.wf()
                &&& right.wf()
                &&& depth_below == self.whole().depth()
                &&& hash_cache matches Some(h) ==> h == self.whole().hash()
            },
            MrtVerifyNode::PrunedHash(hash, depth) => true,
            MrtVerifyNode::Unvisited { node, place } => true,
        }
    }

    /// Nothing below waits to be visited.
    pub open spec fn settled(self) -> bool
        decreases self,
    {
        match self {
            MrtVerifyNode::Branch { skip, left, right, hash_cache, depth_below } => left.settled() && right.settled(),
            MrtVerifyNode::Unvisited { node, place } => false,
            _ => true,
        }
    }
}

/// What is shown of a node has its hash and depth.
pub proof fn lemma_shown(n: MrtVerifyNode, keep: Set<Seq<bool>>)
    ensures
        n.shown(keep).hash() == n.whole().hash(),
        n.shown(keep).depth() == n.whole().depth(),
    decreases n,
{
    match n {
        MrtVerifyNode::Branch { skip, left, right, hash_cache, depth_below } => {
            lemma_shown(*left, keep);
            lemma_shown(*right, keep);
        },
        MrtVerifyNode::Unvisited { node, place } => {
            law_pruning_keeps_hash(node.trie(), place@, keep);
        },
        _ => {},
    }
}

/// With all places kept, everything is shown.
pub proof fn lemma_shown_full(n: MrtVerifyNode)
    ensures
        n.shown(Set::full()) == n.whole(),
    decreases n,
{
    match n {
        MrtVerifyNode::Branch { skip, left, right, hash_cache, depth_below } => {
            lemma_shown_full(*left);
            lemma_shown_full(*right);
        },
        MrtVerifyNode::Unvisited { node, place } => {
            lemma_prune_nothing(node.trie(), place@);
        },
        _ => {},
    }
}

/// Where nothing waits to be visited, everything is shown in any case.
pub proof fn lemma_settled(n: MrtVerifyNode, keep: Set<Seq<bool>>)
    requires
        n.settled(),
    ensures
        n.shown(keep) == n.whole(),
    decreases n,
{
    match n {
        MrtVerifyNode::Branch { skip, left, right, hash_cache, depth_below } => {
            lemma_settled(*left, keep);
            lemma_settled(*right, keep);
        },
        _ => {},
    }
}

/// Whether what was visited had to be: an operation that goes through where
/// only the places `keep` are shown has visited none but these. `fine` tells
/// whether it goes through there.
pub open spec fn needed(
    seen_before: Set<Seq<bool>>,
    seen_after: Set<Seq<bool>>,
    keep: Set<Seq<bool>>,
    fine: bool,
) -> bool {
    seen_before.subset_of(keep) && fine ==> seen_after.subset_of(keep)
}

/// A leaf.
pub fn new_leaf(skip: RouteBits, value: Vec<u8>) -> (r: Box<MrtVerifyNode>)
    ensures
        r.wf(),
        r.settled(),
        r.whole() == (Trie::Leaf { skip: skip@, value: value@ }),
        forall|keep: Set<Seq<bool>>| #[trigger] r.shown(keep) == (Trie::Leaf { skip: skip@, value: value@ }),
{
    let _n: u16 = skip.bit_len();
    Box::new(MrtVerifyNode::Leaf { skip, value, hash_cache: None })
}

/// A branch, no deeper than a key can be long.
pub fn new_branch(skip: RouteBits, left: Box<MrtVerifyNode>, right: Box<MrtVerifyNode>) -> (r: Box<MrtVerifyNode>)
    requires
        left.wf(),
        right.wf(),
        skip@.len() + 1 + max(left.whole().depth(), right.whole().depth()) <= MAX_ROUTE_BITS,
    ensures
        r.wf(),
        left.settled() && right.settled() ==> r.settled(),
        r.whole() == (Trie::Branch { skip: skip@, left: Box::new(left.whole()), right: Box::new(right.whole()) }),
        forall|keep: Set<Seq<bool>>| #[trigger]
            r.shown(keep) == (Trie::Branch {
                skip: skip@,
                left: Box::new(left.shown(keep)),
                right: Box::new(right.shown(keep)),
            }),
{
    let depth_below: u16 = branch_depth_below(skip.bit_len(), left.depth_below(), right.depth_below());
    Box::new(MrtVerifyNode::Branch { skip, left, right, hash_cache: None, depth_below })
}

/// The place of a child.
fn child_place(place: &Vec<bool>, side: bool) -> (r: Vec<bool>)
    ensures
        r@ == place@.push(side),
{
    let mut r: Vec<bool> = Vec::new();
    let mut i: usize = 0;
    while i < place.len()
        invariant
            i <= place@.len(),
            r@ == place@.take(i as int),
        decreases place@.len() - i,
    {
        r.push(place[i]);
        assert(place@.take(i + 1) =~= place@.take(i as int).push(place@[i as int]));
        i = i + 1;
    }
    assert(place@.take(place@.len() as int) =~= place@);
    r.push(side);
    r
}

impl MrtVerifyNode {
    /// The number of bits down to the deepest leaf.
    pub fn depth_below(&self) -> (n: u16)
        requires
            self.wf(),
        ensures
            n == self.whole().depth(),
    {
        match self {
            MrtVerifyNode::Leaf { skip, value, hash_cache } => skip.bit_len(),
            MrtVerifyNode::Branch { skip, left, right, hash_cache, depth_below } => *depth_below,
            MrtVerifyNode::PrunedHash(hash, depth_below) => *depth_below,
            MrtVerifyNode::Unvisited { node, place } => node.depth_below(),
        }
    }

    /// Computes the hash, and caches it on the way.
    pub fn rehash(&mut self) -> (hash: NodeHash)
        requires
            old(self).wf(),
        ensures
            final(self).wf(),
            old(self).settled() ==> final(self).settled(),
            final(self).whole() == old(self).whole(),
            forall|keep: Set<Seq<bool>>|
                #![trigger old(self).shown(keep)]
                #![trigger final(self).shown(keep)]
                final(self).shown(keep) == old(self).shown(keep),
            hash == old(self).whole().hash(),
        decreases *old(self),
    {
        let ghost before = *self;
        let hash: NodeHash = match self {
            MrtVerifyNode::Leaf { skip, value, hash_cache } => {
                match *hash_cache {
                    Some(hash) => hash,
                    None => {
                        let hash: NodeHash = compute_leaf_hash(skip, value.as_slice());
                        *hash_cache = Some(hash);
                        hash
                    },
                }
            },
            MrtVerifyNode::Branch { skip, left, right, hash_cache, depth_below } => {
                match *hash_cache {
                    Some(hash) => hash,
                    None => {
                        let left_hash: NodeHash = left.rehash();
                        let right_hash: NodeHash = right.rehash();
                        let hash: NodeHash = compute_branch_hash(
                            &left_hash,
                            &right_hash,
                            left.depth_below(),
                            right.depth_below(),
                            skip,
                        );
                        *hash_cache = Some(hash);
                        hash
                    },
                }
            },
            MrtVerifyNode::PrunedHash(hash, depth_below) => *hash,
            MrtVerifyNode::Unvisited { node, place } => node.hash(),
        };
        proof {
            assert forall|keep: Set<Seq<bool>>|
                #![trigger before.shown(keep)]
                #![trigger self.shown(keep)]
                self.shown(keep) == before.shown(keep) by {
                if *self is Branch {
                    assert(self->left.shown(keep) == before->left.shown(keep));
                    assert(self->right.shown(keep) == before->right.shown(keep));
                }
            }
        }
        hash
    }

    /// Visits the node if it was not visited yet.
    pub fn visit(&mut self, builder: &mut MrtPartialBuilder)
        requires
            old(self).wf(),
        ensures
            final(self).wf(),
            !(*final(self) is Unvisited),
            final(self).whole() == old(self).whole(),
            old(self).settled() ==> final(self).settled() && final(builder).seen() == old(builder).seen(),
            old(builder).seen().subset_of(final(builder).seen()),
            forall|keep: Set<Seq<bool>>|
                #![trigger old(self).shown(keep)]
                #![trigger final(self).shown(keep)]
                final(builder).seen().subset_of(keep) ==> final(self).shown(keep) == old(self).shown(keep),
            forall|keep: Set<Seq<bool>>|
                #![trigger old(self).shown(keep)]
                needed(old(builder).seen(), final(builder).seen(), keep, !(old(self).shown(keep) is Pruned)),
    {
        let ghost before = *self;
        let opened: Option<MrtVerifyNode> = match &*self {
            MrtVerifyNode::Unvisited { node, place } => {
                builder.install(place.as_slice());
                let _n: u16 = node.depth_below();
                Some(
                    match node.node() {
                        MrtNode::Leaf { skip, value } => MrtVerifyNode::Leaf {
                            skip: skip.clone(),
                            value: key_copy(value.as_slice()),
                            hash_cache: Some(node.hash()),
                        },
                        MrtNode::Branch { skip, left, right } => MrtVerifyNode::Branch {
                            skip: skip.clone(),
                            left: Box::new(
                                MrtVerifyNode::Unvisited { node: share(left), place: child_place(place, false) },
                            ),
                            right: Box::new(
                                MrtVerifyNode::Unvisited { node: share(right), place: child_place(place, true) },
                            ),
                            hash_cache: Some(node.hash()),
                            depth_below: node.depth_below(),
                        },
                        MrtNode::PrunedHash => MrtVerifyNode::PrunedHash(node.hash(), node.depth_below()),
                    },
                )
            },
            _ => None,
        };
        match opened {
            Some(n) => {
                *self = n;
                proof {
                    assert forall|keep: Set<Seq<bool>>|
                        #![trigger before.shown(keep)]
                        #![trigger self.shown(keep)]
                        builder.seen().subset_of(keep) implies self.shown(keep) == before.shown(keep) by {
                        if let MrtVerifyNode::Unvisited { node, place } = before {
                            assert(builder.seen().contains(place@));
                            assert(keep.contains(place@));
                            reveal_with_fuel(MrtVerifyNode::shown, 3);
                            reveal_with_fuel(prune, 2);
                        }
                    }
                    reveal_with_fuel(MrtVerifyNode::whole, 3);
                    reveal_with_fuel(MrtVerifyNode::wf, 3);
                }
            },
            None => {},
        }
    }
}

} // verus!
