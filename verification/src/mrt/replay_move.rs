//! Moving a subtrie of a trie that is changed in place.

use vstd::prelude::*;

use crate::bits::{lcp, lemma_lcp};
use crate::error::{Error, Fault};
use crate::mrt::model::{fork, join, lift, Trie};
use crate::mrt::prefix::{classify_prefix_skip, prefix_absent, reskin_root, tail_of, PrefixStep, Voice};
use crate::mrt::prune::MrtPartialBuilder;
use crate::mrt::replay_ops::{collapse_survivor, did, other_child, refresh_branch_after_write, take_node};
use crate::mrt::route::{classify_key_vs_skip, prefix_free_violation, route, route_bit_at, RouteBits, SkipRelation,
    MAX_KEY_LEN, MAX_ROUTE_BITS};
use crate::mrt::verify_node::{needed, new_branch, new_leaf, MrtVerifyNode};
use crate::text::{told, told_with};

verus! {

/// A subtrie that was taken out.
#[derive(Debug)]
pub struct VerifyCaptured {
    /// Its root.
    pub s_root: Box<MrtVerifyNode>,
    /// How many bits of the root belong to the prefix.
    pub strip_prefix_bits: u16,
}

impl VerifyCaptured {
    /// The root was visited, and holds the bits that belong to the prefix.
    pub open spec fn wf(self) -> bool {
        &&& self.s_root.wf()
        &&& *self.s_root is Leaf || *self.s_root is Branch
        &&& self.strip_prefix_bits <= self.s_root.whole().skip().len()
    }
}

/// What taking out a subtrie did to a node.
pub enum DetachStep {
    /// The node is the root of the subtrie.
    IsS { strip_prefix_bits: u16 },
    /// The subtrie was below the node.
    Changed(VerifyCaptured),
}

/// Whether taking out a subtrie gave what the model gives.
pub open spec fn detached(
    r: Result<DetachStep, Error>,
    m: Result<(Option<Trie>, Trie, nat), Fault>,
    before: Trie,
    after: Trie,
    keep: Set<Seq<bool>>,
) -> bool {
    match (r, m) {
        (Ok(DetachStep::IsS { strip_prefix_bits }), Ok((None, s, n))) => s == before && after == before
            && strip_prefix_bits == n,
        (Ok(DetachStep::Changed(c)), Ok((Some(t), s, n))) => after == t && c.s_root.shown(keep) == s
            && c.strip_prefix_bits == n,
        (Err(e), Err(f)) => e.fault() == f,
        _ => false,
    }
}

/// What a finished step leaves behind.
pub open spec fn detach_keeps(r: Result<DetachStep, Error>, before: MrtVerifyNode, after: MrtVerifyNode, depth: int) -> bool {
    match r {
        Ok(DetachStep::IsS { strip_prefix_bits }) => {
            &&& after.wf()
            &&& after.whole() == before.whole()
            &&& after is Leaf || after is Branch
            &&& strip_prefix_bits <= after.whole().skip().len()
            &&& before.settled() ==> after.settled()
        },
        Ok(DetachStep::Changed(c)) => {
            &&& after.wf()
            &&& c.wf()
            &&& depth + after.whole().depth() <= MAX_ROUTE_BITS
            &&& before.settled() ==> after.settled() && c.s_root.settled()
        },
        Err(e) => true,
    }
}

/// Takes out the subtrie of all keys that begin with `p`, of which `depth` bits have led to `node`.
pub fn detach_at_in_place(
    node: &mut MrtVerifyNode,
    builder: &mut MrtPartialBuilder,
    depth: u16,
    p: &[u8],
    voice: Voice,
) -> (r: Result<DetachStep, Error>)
    requires
        old(node).wf(),
        p@.len() <= MAX_KEY_LEN,
        depth <= 8 * p@.len(),
        depth + old(node).whole().depth() <= MAX_ROUTE_BITS,
    ensures
        old(builder).seen().subset_of(final(builder).seen()),
        old(node).settled() ==> final(builder).seen() == old(builder).seen(),
        detach_keeps(r, *old(node), *final(node), depth as int),
        forall|keep: Set<Seq<bool>>|
            #![trigger old(node).shown(keep)]
            final(builder).seen().subset_of(keep) ==> detached(
                r,
                old(node).shown(keep).detach(route(p@).skip(depth as int), true),
                old(node).shown(keep),
                final(node).shown(keep),
                keep,
            ),
        forall|keep: Set<Seq<bool>>|
            #![trigger old(node).shown(keep)]
            needed(
                old(builder).seen(),
                final(builder).seen(),
                keep,
                old(node).shown(keep).detach(route(p@).skip(depth as int), true) is Ok,
            ),
    decreases old(node).whole(), 1int,
{
    node.visit(builder);
    let ghost k = route(p@).skip(depth as int);
    let step = match &*node {
        MrtVerifyNode::Leaf { skip, value, hash_cache } => {
            proof {
                lemma_lcp(skip@, k);
            }
            classify_prefix_skip(skip, true, depth, p, voice)
        },
        MrtVerifyNode::Branch { skip, left, right, hash_cache, depth_below } => {
            proof {
                lemma_lcp(skip@, k);
            }
            classify_prefix_skip(skip, false, depth, p, voice)
        },
        _ => {
            return Err(Error::PrunedNode(told_with("MRT verify replay move_prefix detach descent at prefix ", p)));
        },
    };
    match step {
        Err(e) => Err(e),
        Ok(PrefixStep::Stop { strip_prefix_bits }) => Ok(DetachStep::IsS { strip_prefix_bits }),
        Ok(PrefixStep::Descend { side, child_depth }) => detach_below(
            node,
            builder,
            depth,
            p,
            side,
            child_depth,
            voice,
        ),
    }
}

/// Takes out a subtrie below a branch.
fn detach_below(
    node: &mut MrtVerifyNode,
    builder: &mut MrtPartialBuilder,
    depth: u16,
    p: &[u8],
    side: bool,
    child_depth: u16,
    voice: Voice,
) -> (r: Result<DetachStep, Error>)
    requires
        *old(node) is Branch,
        old(node).wf(),
        p@.len() <= MAX_KEY_LEN,
        depth + old(node)->Branch_skip@.len() + 1 == child_depth,
        child_depth <= 8 * p@.len(),
        lcp(old(node)->Branch_skip@, route(p@).skip(depth as int)) == old(node)->Branch_skip@.len(),
        side == route(p@).skip(depth as int)[old(node)->Branch_skip@.len() as int],
        depth + old(node).whole().depth() <= MAX_ROUTE_BITS,
    ensures
        old(builder).seen().subset_of(final(builder).seen()),
        old(node).settled() ==> final(builder).seen() == old(builder).seen(),
        detach_keeps(r, *old(node), *final(node), depth as int),
        forall|keep: Set<Seq<bool>>|
            #![trigger old(node).shown(keep)]
            final(builder).seen().subset_of(keep) ==> detached(
                r,
                old(node).shown(keep).detach(route(p@).skip(depth as int), true),
                old(node).shown(keep),
                final(node).shown(keep),
                keep,
            ),
        forall|keep: Set<Seq<bool>>|
            #![trigger old(node).shown(keep)]
            needed(
                old(builder).seen(),
                final(builder).seen(),
                keep,
                old(node).shown(keep).detach(route(p@).skip(depth as int), true) is Ok,
            ),
    decreases old(node).whole(), 0int,
{
    let ghost before = *node;
    let ghost k = route(p@).skip(depth as int);
    let ghost k2 = route(p@).skip(child_depth as int);
    let ghost sk = before->Branch_skip@;
    proof {
        assert(k2 =~= k.skip(child_depth - depth));
    }
    let step = match node {
        MrtVerifyNode::Branch { skip, left, right, hash_cache, depth_below } => if !side {
            detach_at_in_place(&mut **left, builder, child_depth, p, voice)
        } else {
            detach_at_in_place(&mut **right, builder, child_depth, p, voice)
        },
        _ => Err(prefix_absent(p, voice)),
    };
    let ghost mid = *node;
    let ghost mid_seen = builder.seen();
    proof {
        assert forall|keep: Set<Seq<bool>>|
            #![trigger before.shown(keep)]
            mid_seen.subset_of(keep) implies ({
            let l = before->left.shown(keep);
            let r = before->right.shown(keep);
            let on = if side {
                r
            } else {
                l
            };
            let off = if side {
                l
            } else {
                r
            };
            let on2 = if side {
                mid->right.shown(keep)
            } else {
                mid->left.shown(keep)
            };
            &&& before.shown(keep) == (Trie::Branch { skip: sk, left: Box::new(l), right: Box::new(r) })
            &&& mid.shown(keep) == (Trie::Branch {
                skip: sk,
                left: Box::new(mid->left.shown(keep)),
                right: Box::new(mid->right.shown(keep)),
            })
            &&& detached(step, on.detach(k2, true), on, on2, keep)
            &&& other_child(mid, side) == other_child(before, side)
            &&& before.shown(keep).detach(k, true) == (match on.detach(k2, true) {
                Err(f) => Err(f),
                Ok((t, s, n)) => if t is None && off is Pruned {
                    Err(Fault::Pruned)
                } else if side {
                    Ok((join(sk, Some(off), t), s, n))
                } else {
                    Ok((join(sk, t, Some(off)), s, n))
                },
            })
        }) by {
            let l = before->left.shown(keep);
            let r = before->right.shown(keep);
        }
    }
    match step {
        Err(e) => Err(e),
        Ok(DetachStep::Changed(c)) => {
            refresh_branch_after_write(node);
            proof {
                assert forall|keep: Set<Seq<bool>>|
                    #![trigger before.shown(keep)]
                    mid_seen.subset_of(keep) implies node.shown(keep) == mid.shown(keep) by {
                    assert(node->left.shown(keep) == mid->left.shown(keep));
                    assert(node->right.shown(keep) == mid->right.shown(keep));
                }
            }
            Ok(DetachStep::Changed(c))
        },
        Ok(DetachStep::IsS { strip_prefix_bits }) => {
            let r = capture_child(node, builder, depth, side, strip_prefix_bits);
            proof {
                assert forall|keep: Set<Seq<bool>>|
                    #![trigger before.shown(keep)]
                    builder.seen().subset_of(keep) implies detached(
                    r,
                    before.shown(keep).detach(k, true),
                    before.shown(keep),
                    node.shown(keep),
                    keep,
                ) by {
                    let x = mid.shown(keep);
                    let a = mid->left.shown(keep);
                    let b = mid->right.shown(keep);
                }
            }
            r
        },
    }
}

/// Takes out the child on `side`; the other one takes the place of the branch,
/// and must not be pruned.
fn capture_child(
    node: &mut MrtVerifyNode,
    builder: &mut MrtPartialBuilder,
    depth: u16,
    side: bool,
    strip_prefix_bits: u16,
) -> (r: Result<DetachStep, Error>)
    requires
        *old(node) is Branch,
        old(node)->left.wf(),
        old(node)->right.wf(),
        other_child(*old(node), !side) is Leaf || other_child(*old(node), !side) is Branch,
        strip_prefix_bits <= other_child(*old(node), !side).whole().skip().len(),
        depth + old(node)->Branch_skip@.len() + 1 + other_child(*old(node), side).whole().depth() <= MAX_ROUTE_BITS,
    ensures
        old(builder).seen().subset_of(final(builder).seen()),
        other_child(*old(node), side).settled() ==> final(builder).seen() == old(builder).seen(),
        match r {
            Ok(DetachStep::Changed(c)) => {
                &&& c.wf()
                &&& c.strip_prefix_bits == strip_prefix_bits
                &&& *c.s_root == other_child(*old(node), !side)
                &&& final(node).wf()
                &&& depth + final(node).whole().depth() <= MAX_ROUTE_BITS
                &&& other_child(*old(node), side).settled() ==> final(node).settled()
            },
            Ok(DetachStep::IsS { strip_prefix_bits }) => false,
            Err(e) => e.fault() == Fault::Pruned,
        },
        forall|keep: Set<Seq<bool>>|
            #![trigger other_child(*old(node), side).shown(keep)]
            final(builder).seen().subset_of(keep) ==> {
                let off = other_child(*old(node), side).shown(keep);
                &&& r is Err <==> off is Pruned
                &&& r is Ok ==> final(node).shown(keep) == lift(old(node)->Branch_skip@, !side, off)
            },
        forall|keep: Set<Seq<bool>>|
            #![trigger other_child(*old(node), side).shown(keep)]
            needed(
                old(builder).seen(),
                final(builder).seen(),
                keep,
                !(other_child(*old(node), side).shown(keep) is Pruned),
            ),
{
    let ghost before = *node;
    let old_node = take_node(node);
    match old_node {
        MrtVerifyNode::Branch { skip, left, right, hash_cache, depth_below } => {
            let (s_root, mut survivor) = if side {
                (right, *left)
            } else {
                (left, *right)
            };
            let ghost sv = survivor;
            survivor.visit(builder);
            let ghost sv2 = survivor;
            proof {
                assert forall|keep: Set<Seq<bool>>|
                    #![trigger sv.shown(keep)]
                    builder.seen().subset_of(keep) implies sv.shown(keep) == sv2.shown(keep) by {}
            }
            if let MrtVerifyNode::PrunedHash(_, _) = &survivor {
                return Err(Error::PrunedNode(told("MRT verify replay move_prefix source-collapse survivor is pruned")));
            }
            match collapse_survivor(&skip, !side, survivor) {
                Ok(n) => {
                    *node = *n;
                    proof {
                        assert forall|keep: Set<Seq<bool>>|
                            #![trigger sv.shown(keep)]
                            builder.seen().subset_of(keep) implies !(sv.shown(keep) is Pruned) && node.shown(keep) == lift(
                            before->Branch_skip@,
                            !side,
                            sv.shown(keep),
                        ) by {
                            assert(sv2.shown(keep) == sv.shown(keep));
                        }
                    }
                    Ok(DetachStep::Changed(VerifyCaptured { s_root, strip_prefix_bits }))
                },
                Err(e) => Err(e),
            }
        },
        _ => Err(Error::PrunedNode(told("MRT verify replay move_prefix source-collapse survivor is pruned"))),
    }
}

/// Puts a captured subtrie under other leading bits.
pub fn reskin_captured_root_verify(captured: VerifyCaptured, prepend_q_tail_bits: &RouteBits) -> (r: Result<
    Box<MrtVerifyNode>,
    Error,
>)
    requires
        captured.wf(),
        prepend_q_tail_bits@.len() + captured.s_root.whole().depth() - captured.strip_prefix_bits <= MAX_ROUTE_BITS,
    ensures
        r matches Ok(n) && {
            &&& n.wf()
            &&& n.whole().depth() == prepend_q_tail_bits@.len() + captured.s_root.whole().depth()
                - captured.strip_prefix_bits
            &&& captured.s_root.settled() ==> n.settled()
            &&& forall|keep: Set<Seq<bool>>|
                #![trigger captured.s_root.shown(keep)]
                captured.s_root.shown(keep).reskin(captured.strip_prefix_bits as nat, prepend_q_tail_bits@) == Ok::<
                    Trie,
                    Fault,
                >(n.shown(keep))
        },
{
    let ghost root = *captured.s_root;
    let strip: u16 = captured.strip_prefix_bits;
    match *captured.s_root {
        MrtVerifyNode::Leaf { skip, value, hash_cache } => match reskin_root(&skip, strip, prepend_q_tail_bits) {
            Ok(s) => Ok(new_leaf(s, value)),
            Err(e) => Err(e),
        },
        MrtVerifyNode::Branch { skip, left, right, hash_cache, depth_below } => {
            match reskin_root(&skip, strip, prepend_q_tail_bits) {
                Ok(s) => {
                    let n = new_branch(s, left, right);
                    proof {
                        assert forall|keep: Set<Seq<bool>>|
                            #![trigger root.shown(keep)]
                            root.shown(keep).reskin(strip as nat, prepend_q_tail_bits@) == Ok::<Trie, Fault>(n.shown(keep)) by {
                            let l = left.shown(keep);
                            let r = right.shown(keep);
                        }
                    }
                    Ok(n)
                },
                Err(e) => Err(e),
            }
        },
        _ => Err(Error::PrunedNode(told("MRT verify replay move_prefix re-skin of a pruned captured root"))),
    }
}

/// What a splice does, for any shown part.
pub open spec fn spliced(
    r: Result<(), Error>,
    before: MrtVerifyNode,
    after: MrtVerifyNode,
    q: Seq<bool>,
    captured: VerifyCaptured,
    keep: Set<Seq<bool>>,
) -> bool {
    did(
        r,
        before.shown(keep).splice(q, captured.s_root.shown(keep), captured.strip_prefix_bits as nat),
        after.shown(keep),
    )
}

/// Puts a captured subtrie under the prefix `q`, of which `depth` bits have led to `node`.
pub fn splice_at_in_place(
    node: &mut MrtVerifyNode,
    builder: &mut MrtPartialBuilder,
    depth: u16,
    q: &[u8],
    captured: VerifyCaptured,
) -> (r: Result<(), Error>)
    requires
        old(node).wf(),
        captured.wf(),
        q@.len() <= MAX_KEY_LEN,
        depth <= 8 * q@.len(),
        depth + old(node).whole().depth() <= MAX_ROUTE_BITS,
        8 * q@.len() + captured.s_root.whole().depth() - captured.strip_prefix_bits <= MAX_ROUTE_BITS,
    ensures
        old(builder).seen().subset_of(final(builder).seen()),
        old(node).settled() ==> final(builder).seen() == old(builder).seen(),
        r is Ok ==> final(node).wf() && depth + final(node).whole().depth() <= MAX_ROUTE_BITS && (old(node).settled()
            && captured.s_root.settled() ==> final(node).settled()),
        forall|keep: Set<Seq<bool>>|
            #![trigger old(node).shown(keep)]
            final(builder).seen().subset_of(keep) ==> spliced(
                r,
                *old(node),
                *final(node),
                route(q@).skip(depth as int),
                captured,
                keep,
            ),
        forall|keep: Set<Seq<bool>>|
            #![trigger old(node).shown(keep)]
            needed(
                old(builder).seen(),
                final(builder).seen(),
                keep,
                old(node).shown(keep).splice(
                    route(q@).skip(depth as int),
                    captured.s_root.shown(keep),
                    captured.strip_prefix_bits as nat,
                ) is Ok,
            ),
    decreases old(node).whole(), 1int,
{
    let ghost start = *node;
    node.visit(builder);
    let ghost before = *node;
    let ghost k = route(q@).skip(depth as int);
    let (is_leaf, relation) = match &*node {
        MrtVerifyNode::Leaf { skip, value, hash_cache } => {
            proof {
                lemma_lcp(skip@, k);
            }
            (true, classify_key_vs_skip(skip, q, depth))
        },
        MrtVerifyNode::Branch { skip, left, right, hash_cache, depth_below } => {
            proof {
                lemma_lcp(skip@, k);
            }
            (false, classify_key_vs_skip(skip, q, depth))
        },
        _ => {
            return Err(Error::PrunedNode(told_with("MRT verify replay move_prefix splice descent at prefix ", q)));
        },
    };
    match relation {
        SkipRelation::Equal | SkipRelation::KeyIsPrefix => {
            match reskin_captured_root_verify(captured, &tail_of(q, depth)) {
                Ok(n) => {
                    *node = *n;
                    proof {
                        assert forall|keep: Set<Seq<bool>>|
                            #![trigger start.shown(keep)]
                            builder.seen().subset_of(keep) implies spliced(Ok(()), start, *node, k, captured, keep) by {
                            let s = captured.s_root.shown(keep);
                            let b = before.shown(keep);
                        }
                    }
                    Ok(())
                },
                Err(e) => Err(e),
            }
        },
        SkipRelation::SkipIsPrefix => if is_leaf {
            Err(prefix_free_violation(q))
        } else {
            splice_below(node, builder, depth, q, captured)
        },
        SkipRelation::Diverge { offset } => {
            build_splice_connector_in_place(node, offset, depth, q, captured)
        },
    }
}

/// Puts a captured subtrie below a branch whose skip the route of `q` goes through.
#[verifier::spinoff_prover]
#[verifier::rlimit(40)]
fn splice_below(
    node: &mut MrtVerifyNode,
    builder: &mut MrtPartialBuilder,
    depth: u16,
    q: &[u8],
    captured: VerifyCaptured,
) -> (r: Result<(), Error>)
    requires
        *old(node) is Branch,
        old(node).wf(),
        captured.wf(),
        q@.len() <= MAX_KEY_LEN,
        depth + old(node)->Branch_skip@.len() < 8 * q@.len(),
        lcp(old(node)->Branch_skip@, route(q@).skip(depth as int)) == old(node)->Branch_skip@.len(),
        depth + old(node).whole().depth() <= MAX_ROUTE_BITS,
        8 * q@.len() + captured.s_root.whole().depth() - captured.strip_prefix_bits <= MAX_ROUTE_BITS,
    ensures
        old(builder).seen().subset_of(final(builder).seen()),
        old(node).settled() ==> final(builder).seen() == old(builder).seen(),
        r is Ok ==> final(node).wf() && depth + final(node).whole().depth() <= MAX_ROUTE_BITS && (old(node).settled()
            && captured.s_root.settled() ==> final(node).settled()),
        forall|keep: Set<Seq<bool>>|
            #![trigger old(node).shown(keep)]
            final(builder).seen().subset_of(keep) ==> spliced(
                r,
                *old(node),
                *final(node),
                route(q@).skip(depth as int),
                captured,
                keep,
            ),
        forall|keep: Set<Seq<bool>>|
            #![trigger old(node).shown(keep)]
            needed(
                old(builder).seen(),
                final(builder).seen(),
                keep,
                old(node).shown(keep).splice(
                    route(q@).skip(depth as int),
                    captured.s_root.shown(keep),
                    captured.strip_prefix_bits as nat,
                ) is Ok,
            ),
    decreases old(node).whole(), 0int,
{
    let ghost before = *node;
    let ghost k = route(q@).skip(depth as int);
    let step: Result<(), Error> = match node {
        MrtVerifyNode::Branch { skip, left, right, hash_cache, depth_below } => {
            let branch_depth: u16 = depth + skip.bit_len();
            let side: bool = route_bit_at(q, branch_depth);
            let child_depth: u16 = branch_depth + 1;
            proof {
                assert(route(q@).skip(child_depth as int) =~= k.skip(child_depth - depth));
            }
            if !side {
                splice_at_in_place(&mut **left, builder, child_depth, q, captured)
            } else {
                splice_at_in_place(&mut **right, builder, child_depth, q, captured)
            }
        },
        _ => Ok(()),
    };
    let ok: bool = step.is_ok();
    if ok {
        refresh_branch_after_write(node);
    }
    proof {
        assert forall|keep: Set<Seq<bool>>|
            #![trigger before.shown(keep)]
            needed(
                old(builder).seen(),
                builder.seen(),
                keep,
                before.shown(keep).splice(k, captured.s_root.shown(keep), captured.strip_prefix_bits as nat) is Ok,
            ) by {
            let l = before->left.shown(keep);
            let r = before->right.shown(keep);
            assert(before.shown(keep) == (Trie::Branch {
                skip: before->Branch_skip@,
                left: Box::new(l),
                right: Box::new(r),
            }));
        }
        assert forall|keep: Set<Seq<bool>>|
            #![trigger before.shown(keep)]
            builder.seen().subset_of(keep) implies spliced(step, before, *node, k, captured, keep) by {
            let l = before->left.shown(keep);
            let r = before->right.shown(keep);
            assert(before.shown(keep) == (Trie::Branch {
                skip: before->Branch_skip@,
                left: Box::new(l),
                right: Box::new(r),
            }));
            if ok {
                assert(node.shown(keep) == (Trie::Branch {
                    skip: before->Branch_skip@,
                    left: Box::new(node->left.shown(keep)),
                    right: Box::new(node->right.shown(keep)),
                }));
            }
        }
    }
    step
}

/// Puts a branch over a node and a captured subtrie, which part at `offset`.
fn build_splice_connector_in_place(
    node: &mut MrtVerifyNode,
    offset: u16,
    depth: u16,
    q: &[u8],
    captured: VerifyCaptured,
) -> (r: Result<(), Error>)
    requires
        *old(node) is Leaf || *old(node) is Branch,
        old(node).wf(),
        captured.wf(),
        q@.len() <= MAX_KEY_LEN,
        offset < old(node).whole().skip().len(),
        depth + offset < 8 * q@.len(),
        offset == lcp(old(node).whole().skip(), route(q@).skip(depth as int)),
        depth + old(node).whole().depth() <= MAX_ROUTE_BITS,
        8 * q@.len() + captured.s_root.whole().depth() - captured.strip_prefix_bits <= MAX_ROUTE_BITS,
    ensures
        r is Ok,
        final(node).wf(),
        depth + final(node).whole().depth() <= MAX_ROUTE_BITS,
        old(node).settled() && captured.s_root.settled() ==> final(node).settled(),
        forall|keep: Set<Seq<bool>>|
            #![trigger old(node).shown(keep)]
            spliced(r, *old(node), *final(node), route(q@).skip(depth as int), captured, keep),
{
    let ghost before = *node;
    let ghost k = route(q@).skip(depth as int);
    let ghost sk = before.whole().skip();
    let q_div: u16 = depth + offset;
    let q_tail = tail_of(q, q_div + 1);
    proof {
        lemma_lcp(sk, k);
        assert(route(q@).skip(q_div + 1) =~= k.skip(offset + 1));
    }
    let moved = match reskin_captured_root_verify(captured, &q_tail) {
        Ok(n) => n,
        Err(e) => {
            return Err(e);
        },
    };
    let ghost mv = *moved;
    let q_side: bool = route_bit_at(q, q_div);
    let old_node = take_node(node);
    let (connector_skip, existing) = match old_node {
        MrtVerifyNode::Leaf { skip, value, hash_cache } => {
            let connector_skip = skip.slice(0, offset);
            assert(skip@.subrange(0, offset as int) =~= skip@.take(offset as int));
            (connector_skip, new_leaf(skip.into_suffix(offset + 1), value))
        },
        MrtVerifyNode::Branch { skip, left, right, hash_cache, depth_below } => {
            let connector_skip = skip.slice(0, offset);
            assert(skip@.subrange(0, offset as int) =~= skip@.take(offset as int));
            let n = new_branch(skip.into_suffix(offset + 1), left, right);
            proof {
                assert forall|keep: Set<Seq<bool>>|
                    #![trigger before.shown(keep)]
                    n.shown(keep) == before.shown(keep).with_skip(sk.skip(offset + 1)) by {
                    let l = before->left.shown(keep);
                    let r = before->right.shown(keep);
                }
            }
            (connector_skip, n)
        },
        _ => {
            return Err(Error::PrunedNode(told_with("MRT verify replay move_prefix splice descent at prefix ", q)));
        },
    };
    let ghost ex = *existing;
    *node = if !q_side {
        *new_branch(connector_skip, moved, existing)
    } else {
        *new_branch(connector_skip, existing, moved)
    };
    proof {
        assert forall|keep: Set<Seq<bool>>|
            #![trigger before.shown(keep)]
            spliced(Ok(()), before, *node, k, captured, keep) by {
            let s = captured.s_root.shown(keep);
            let m = mv.shown(keep);
            let e = ex.shown(keep);
            assert(before.shown(keep).skip() == sk);
            assert(e == before.shown(keep).with_skip(sk.skip(offset + 1)));
            assert(node.shown(keep) == fork(sk.take(offset as int), k[offset as int], m, e));
        }
    }
    Ok(())
}

} // verus!
