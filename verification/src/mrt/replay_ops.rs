//! Writes on a trie that is changed in place.

use vstd::prelude::*;

use crate::bits::{lcp, lemma_lcp};
use crate::error::{Error, Fault};
use crate::hash::NULL_HASH;
use crate::mrt::model::{child_span, fork, hi_place, join, lift, lo_place, max, BoundPosition, Span, Trie};
use crate::mrt::node::branch_depth_below;
use crate::mrt::prune::MrtPartialBuilder;
use crate::mrt::route::{agrees, classify_key_vs_skip, leaf_matches, leaf_skip_from_key, prefix_free_violation, route,
    route_bit_at, skip_matches, RouteBits, RoutePrefix, SkipRelation, MAX_KEY_LEN, MAX_ROUTE_BITS};
use crate::mrt::soundness::{clear_cut, clear_remove, cut_child};
use crate::mrt::tree::{bound, child_range, classify_optional_bound, hi_is_before, leaf_in_range, lemma_on_way,
    lo_is_after, on_way, ChildRange};
use crate::mrt::verify_node::{needed, new_branch, new_leaf, MrtVerifyNode};
use crate::text::{told, told_with};

verus! {

/// Whether a write on a node gave what the model gives.
pub open spec fn did(r: Result<(), Error>, m: Result<Trie, Fault>, after: Trie) -> bool {
    match (r, m) {
        (Ok(_), Ok(t)) => after == t,
        (Err(e), Err(f)) => e.fault() == f,
        _ => false,
    }
}

/// Takes a node out of its slot. What stands there meanwhile is a stub.
pub(crate) fn take_node(node: &mut MrtVerifyNode) -> (r: MrtVerifyNode)
    ensures
        r == *old(node),
        *final(node) is PrunedHash,
{
    let mut taken = MrtVerifyNode::PrunedHash(NULL_HASH, 0);
    std::mem::swap(node, &mut taken);
    taken
}

/// Brings the cached depth of a branch up to date and drops its cached hash.
pub(crate) fn refresh_branch_after_write(node: &mut MrtVerifyNode)
    requires
        *old(node) is Branch,
        old(node)->left.wf(),
        old(node)->right.wf(),
        old(node)->Branch_skip@.len() + 1 + max(old(node)->left.whole().depth(), old(node)->right.whole().depth())
            <= MAX_ROUTE_BITS,
    ensures
        *final(node) is Branch,
        final(node).wf(),
        final(node)->Branch_skip == old(node)->Branch_skip,
        final(node)->left == old(node)->left,
        final(node)->right == old(node)->right,
{
    if let MrtVerifyNode::Branch { skip, left, right, hash_cache, depth_below } = node {
        *hash_cache = None;
        *depth_below = branch_depth_below(skip.bit_len(), left.depth_below(), right.depth_below());
    }
}

/// Stores `value` under `key`, of which `depth` bits have led to `node`.
pub fn insert_at(node: &mut MrtVerifyNode, builder: &mut MrtPartialBuilder, depth: u16, key: &[u8], value: Vec<u8>) -> (r:
    Result<(), Error>)
    requires
        old(node).wf(),
        key@.len() <= MAX_KEY_LEN,
        depth <= 8 * key@.len(),
        depth + old(node).whole().depth() <= MAX_ROUTE_BITS,
    ensures
        old(builder).seen().subset_of(final(builder).seen()),
        old(node).settled() ==> final(builder).seen() == old(builder).seen(),
        r is Ok ==> final(node).wf() && depth + final(node).whole().depth() <= MAX_ROUTE_BITS && (old(node).settled()
            ==> final(node).settled()),
        forall|keep: Set<Seq<bool>>|
            #![trigger old(node).shown(keep)]
            final(builder).seen().subset_of(keep) ==> did(
                r,
                old(node).shown(keep).insert(route(key@).skip(depth as int), value@),
                final(node).shown(keep),
            ),
        forall|keep: Set<Seq<bool>>|
            #![trigger old(node).shown(keep)]
            needed(
                old(builder).seen(),
                final(builder).seen(),
                keep,
                old(node).shown(keep).insert(route(key@).skip(depth as int), value@) is Ok,
            ),
    decreases old(node).whole(), 1int,
{
    node.visit(builder);
    let (is_leaf, relation) = match &*node {
        MrtVerifyNode::Leaf { skip, value, hash_cache } => (true, classify_key_vs_skip(skip, key, depth)),
        MrtVerifyNode::Branch { skip, left, right, hash_cache, depth_below } => (
            false,
            classify_key_vs_skip(skip, key, depth),
        ),
        _ => {
            return Err(Error::PrunedNode(told_with("MRT verify replay insert descent at K=", key)));
        },
    };
    match relation {
        SkipRelation::KeyIsPrefix => Err(prefix_free_violation(key)),
        SkipRelation::Equal => if is_leaf {
            if let MrtVerifyNode::Leaf { skip, value: slot, hash_cache } = node {
                *slot = value;
                *hash_cache = None;
            }
            Ok(())
        } else {
            Err(prefix_free_violation(key))
        },
        SkipRelation::SkipIsPrefix => if is_leaf {
            Err(prefix_free_violation(key))
        } else {
            insert_below(node, builder, depth, key, value)
        },
        SkipRelation::Diverge { offset } => {
            if is_leaf {
                split_leaf(node, depth, offset, key, value);
            } else {
                split_branch(node, depth, offset, key, value);
            }
            Ok(())
        },
    }
}

/// Stores `value` below a branch whose skip the route of `key` goes through.
fn insert_below(node: &mut MrtVerifyNode, builder: &mut MrtPartialBuilder, depth: u16, key: &[u8], value: Vec<u8>) -> (r:
    Result<(), Error>)
    requires
        *old(node) is Branch,
        old(node).wf(),
        key@.len() <= MAX_KEY_LEN,
        depth + old(node)->Branch_skip@.len() < 8 * key@.len(),
        lcp(old(node)->Branch_skip@, route(key@).skip(depth as int)) == old(node)->Branch_skip@.len(),
        depth + old(node).whole().depth() <= MAX_ROUTE_BITS,
    ensures
        old(builder).seen().subset_of(final(builder).seen()),
        old(node).settled() ==> final(builder).seen() == old(builder).seen(),
        r is Ok ==> final(node).wf() && depth + final(node).whole().depth() <= MAX_ROUTE_BITS && (old(node).settled()
            ==> final(node).settled()),
        forall|keep: Set<Seq<bool>>|
            #![trigger old(node).shown(keep)]
            final(builder).seen().subset_of(keep) ==> did(
                r,
                old(node).shown(keep).insert(route(key@).skip(depth as int), value@),
                final(node).shown(keep),
            ),
        forall|keep: Set<Seq<bool>>|
            #![trigger old(node).shown(keep)]
            needed(
                old(builder).seen(),
                final(builder).seen(),
                keep,
                old(node).shown(keep).insert(route(key@).skip(depth as int), value@) is Ok,
            ),
    decreases old(node).whole(), 0int,
{
    let ghost before = *node;
    let ghost k = route(key@).skip(depth as int);
    let step: Result<(), Error> = match node {
        MrtVerifyNode::Branch { skip, left, right, hash_cache, depth_below } => {
            let branch_depth: u16 = depth + skip.bit_len();
            let side: bool = route_bit_at(key, branch_depth);
            let child_depth: u16 = branch_depth + 1;
            proof {
                assert(route(key@).skip(child_depth as int) =~= k.skip(child_depth - depth));
            }
            if !side {
                insert_at(&mut **left, builder, child_depth, key, value)
            } else {
                insert_at(&mut **right, builder, child_depth, key, value)
            }
        },
        _ => Ok(()),
    };
    let ok: bool = step.is_ok();
    if ok {
        refresh_branch_after_write(node);
    }
    proof {
        assert forall|keep: Set<Seq<bool>>|
            #![trigger before.shown(keep)]
            needed(old(builder).seen(), builder.seen(), keep, before.shown(keep).insert(k, value@) is Ok) by {
            let l = before->left.shown(keep);
            let r = before->right.shown(keep);
            assert(before.shown(keep) == (Trie::Branch {
                skip: before->Branch_skip@,
                left: Box::new(l),
                right: Box::new(r),
            }));
        }
        assert forall|keep: Set<Seq<bool>>|
            #![trigger before.shown(keep)]
            builder.seen().subset_of(keep) implies did(step, before.shown(keep).insert(k, value@), node.shown(keep)) by {
            let l = before->left.shown(keep);
            let r = before->right.shown(keep);
            assert(before.shown(keep) == (Trie::Branch {
                skip: before->Branch_skip@,
                left: Box::new(l),
                right: Box::new(r),
            }));
            if ok {
                assert(node.shown(keep) == (Trie::Branch {
                    skip: before->Branch_skip@,
                    left: Box::new(node->left.shown(keep)),
                    right: Box::new(node->right.shown(keep)),
                }));
            }
        }
    }
    step
}

/// Parts a leaf and a new key at `offset`.
fn split_leaf(node: &mut MrtVerifyNode, depth: u16, offset: u16, key: &[u8], value: Vec<u8>)
    requires
        *old(node) is Leaf,
        old(node).wf(),
        key@.len() <= MAX_KEY_LEN,
        depth + old(node).whole().depth() <= MAX_ROUTE_BITS,
        offset < old(node)->Leaf_skip@.len(),
        depth + offset < 8 * key@.len(),
        offset == lcp(old(node)->Leaf_skip@, route(key@).skip(depth as int)),
    ensures
        final(node).wf(),
        final(node).settled(),
        depth + final(node).whole().depth() <= MAX_ROUTE_BITS,
        forall|keep: Set<Seq<bool>>| #![trigger final(node).shown(keep)] #![trigger old(node).shown(keep)]
            old(node).shown(keep).insert(route(key@).skip(depth as int), value@) == Ok::<Trie, Fault>(
                final(node).shown(keep),
            ),
{
    let ghost before = *node;
    let ghost k = route(key@).skip(depth as int);
    let p: u16 = depth + offset;
    let key_bit: bool = route_bit_at(key, p);
    let key_leaf = new_leaf(leaf_skip_from_key(key, p + 1), value);
    let old_node = take_node(node);
    if let MrtVerifyNode::Leaf { skip, value: old_value, hash_cache } = old_node {
        proof {
            lemma_lcp(skip@, k);
            assert(route(key@).skip(p + 1) =~= k.skip(offset + 1));
            assert(skip@.subrange(0, offset as int) =~= skip@.take(offset as int));
        }
        let branch_skip = skip.slice(0, offset);
        let existing = new_leaf(skip.into_suffix(offset + 1), old_value);
        let (left, right) = if !key_bit {
            (key_leaf, existing)
        } else {
            (existing, key_leaf)
        };
        *node = *new_branch(branch_skip, left, right);
    }
}

/// Parts a branch and a new key at `offset`.
fn split_branch(node: &mut MrtVerifyNode, depth: u16, offset: u16, key: &[u8], value: Vec<u8>)
    requires
        *old(node) is Branch,
        old(node).wf(),
        key@.len() <= MAX_KEY_LEN,
        depth + old(node).whole().depth() <= MAX_ROUTE_BITS,
        offset < old(node)->Branch_skip@.len(),
        depth + offset < 8 * key@.len(),
        offset == lcp(old(node)->Branch_skip@, route(key@).skip(depth as int)),
    ensures
        final(node).wf(),
        old(node).settled() ==> final(node).settled(),
        depth + final(node).whole().depth() <= MAX_ROUTE_BITS,
        forall|keep: Set<Seq<bool>>| #![trigger final(node).shown(keep)] #![trigger old(node).shown(keep)]
            old(node).shown(keep).insert(route(key@).skip(depth as int), value@) == Ok::<Trie, Fault>(
                final(node).shown(keep),
            ),
{
    let ghost before = *node;
    let ghost k = route(key@).skip(depth as int);
    let p: u16 = depth + offset;
    let key_bit: bool = route_bit_at(key, p);
    let key_leaf = new_leaf(leaf_skip_from_key(key, p + 1), value);
    let old_node = take_node(node);
    if let MrtVerifyNode::Branch { skip, left, right, hash_cache, depth_below } = old_node {
        proof {
            lemma_lcp(skip@, k);
            assert(route(key@).skip(p + 1) =~= k.skip(offset + 1));
        }
        let ghost whole_skip = skip@;
        let (prefix, _existing_bit, existing_suffix) = skip.split_at_into(offset);
        let existing = new_branch(existing_suffix, left, right);
        let ghost old_part = *existing;
        let ghost leaf_part = *key_leaf;
        let (left, right) = if !key_bit {
            (key_leaf, existing)
        } else {
            (existing, key_leaf)
        };
        *node = *new_branch(prefix, left, right);
        proof {
            assert forall|keep: Set<Seq<bool>>| #![trigger node.shown(keep)] #![trigger before.shown(keep)]
                before.shown(keep).insert(k, value@) == Ok::<Trie, Fault>(node.shown(keep)) by {
                let o = old_part.shown(keep);
                let l = leaf_part.shown(keep);
                let bl = before->left.shown(keep);
                let br = before->right.shown(keep);
                assert(before.shown(keep) == (Trie::Branch { skip: whole_skip, left: Box::new(bl), right: Box::new(br) }));
                assert(node.shown(keep) == fork(whole_skip.take(offset as int), k[offset as int], l, o));
            }
        }
    }
}

/// What removing a key did to a node.
#[derive(Clone, Copy, Debug, PartialEq, Eq)]
pub enum DelOutcome {
    /// The key is not there.
    NotFound,
    /// The key is gone.
    Deleted,
    /// The node is gone: it was the leaf of the key.
    Emptied,
}

/// Whether a removal on a node gave what the model gives.
pub open spec fn deleted(
    r: Result<DelOutcome, Error>,
    m: Result<Option<Option<Trie>>, Fault>,
    before: Trie,
    after: Trie,
) -> bool {
    match (r, m) {
        (Ok(DelOutcome::NotFound), Ok(None)) => after == before,
        (Ok(DelOutcome::Deleted), Ok(Some(Some(t)))) => after == t,
        (Ok(DelOutcome::Emptied), Ok(Some(None))) => true,
        (Err(e), Err(f)) => e.fault() == f,
        _ => false,
    }
}

/// Removes `key`, of which `depth` bits have led to `node`.
pub fn delete_at(node: &mut MrtVerifyNode, builder: &mut MrtPartialBuilder, depth: u16, key: &[u8]) -> (r: Result<
    DelOutcome,
    Error,
>)
    requires
        old(node).wf(),
        key@.len() <= MAX_KEY_LEN,
        depth + old(node).whole().depth() <= MAX_ROUTE_BITS,
    ensures
        old(builder).seen().subset_of(final(builder).seen()),
        old(node).settled() ==> final(builder).seen() == old(builder).seen(),
        r is Ok && r != Ok::<DelOutcome, Error>(DelOutcome::Emptied) ==> final(node).wf() && depth + final(node).whole().depth() <= MAX_ROUTE_BITS && (old(node).settled() ==> final(node).settled()),
        r == Ok::<DelOutcome, Error>(DelOutcome::NotFound) ==> final(node).whole() == old(node).whole(),
        forall|keep: Set<Seq<bool>>|
            #![trigger old(node).shown(keep)]
            final(builder).seen().subset_of(keep) ==> deleted(
                r,
                old(node).shown(keep).remove(route(key@), depth as int),
                old(node).shown(keep),
                final(node).shown(keep),
            ),
        forall|keep: Set<Seq<bool>>|
            #![trigger old(node).shown(keep)]
            needed(
                old(builder).seen(),
                final(builder).seen(),
                keep,
                old(node).shown(keep).remove(route(key@), depth as int) is Ok && clear_remove(
                    old(node).shown(keep),
                    route(key@),
                    depth as int,
                ),
            ),
        forall|keep: Set<Seq<bool>>|
            #![trigger old(node).shown(keep)]
            final(builder).seen().subset_of(keep) && old(node).whole().bare() ==> clear_remove(
                old(node).shown(keep),
                route(key@),
                depth as int,
            ),
    decreases old(node).whole(), 1int,
{
    node.visit(builder);
    let on_path: bool = match &*node {
        MrtVerifyNode::Leaf { skip, value, hash_cache } => {
            return Ok(
                if leaf_matches(skip, key, depth) {
                    DelOutcome::Emptied
                } else {
                    DelOutcome::NotFound
                },
            );
        },
        MrtVerifyNode::Branch { skip, left, right, hash_cache, depth_below } => skip_matches(skip, key, depth),
        _ => {
            return Err(Error::PrunedNode(told_with("MRT verify replay delete descent at K=", key)));
        },
    };
    if !on_path {
        return Ok(DelOutcome::NotFound);
    }
    delete_below(node, builder, depth, key)
}

/// Removes `key` below a branch whose skip it agrees with.
fn delete_below(node: &mut MrtVerifyNode, builder: &mut MrtPartialBuilder, depth: u16, key: &[u8]) -> (r: Result<
    DelOutcome,
    Error,
>)
    requires
        *old(node) is Branch,
        old(node).wf(),
        key@.len() <= MAX_KEY_LEN,
        depth + old(node).whole().depth() <= MAX_ROUTE_BITS,
        agrees(old(node)->Branch_skip@, route(key@), depth as int),
    ensures
        old(builder).seen().subset_of(final(builder).seen()),
        old(node).settled() ==> final(builder).seen() == old(builder).seen(),
        r is Ok && r != Ok::<DelOutcome, Error>(DelOutcome::Emptied) ==> final(node).wf() && depth + final(node).whole().depth() <= MAX_ROUTE_BITS && (old(node).settled() ==> final(node).settled()),
        r == Ok::<DelOutcome, Error>(DelOutcome::NotFound) ==> final(node).whole() == old(node).whole(),
        forall|keep: Set<Seq<bool>>|
            #![trigger old(node).shown(keep)]
            final(builder).seen().subset_of(keep) ==> deleted(
                r,
                old(node).shown(keep).remove(route(key@), depth as int),
                old(node).shown(keep),
                final(node).shown(keep),
            ),
        forall|keep: Set<Seq<bool>>|
            #![trigger old(node).shown(keep)]
            needed(
                old(builder).seen(),
                final(builder).seen(),
                keep,
                old(node).shown(keep).remove(route(key@), depth as int) is Ok && clear_remove(
                    old(node).shown(keep),
                    route(key@),
                    depth as int,
                ),
            ),
        forall|keep: Set<Seq<bool>>|
            #![trigger old(node).shown(keep)]
            final(builder).seen().subset_of(keep) && old(node).whole().bare() ==> clear_remove(
                old(node).shown(keep),
                route(key@),
                depth as int,
            ),
    decreases old(node).whole(), 0int,
{
    let ghost before = *node;
    let ghost n = before->Branch_skip@.len();
    let ghost e = depth + n + 1;
    let ghost on_right = crate::bits::padded(route(key@), depth + n);
    let (side, step) = match node {
        MrtVerifyNode::Branch { skip, left, right, hash_cache, depth_below } => {
            let branch_depth: u16 = depth + skip.bit_len();
            let side: bool = route_bit_at(key, branch_depth);
            let child_depth: u16 = branch_depth + 1;
            let step: Result<DelOutcome, Error> = if !side {
                delete_at(&mut **left, builder, child_depth, key)
            } else {
                delete_at(&mut **right, builder, child_depth, key)
            };
            (side, step)
        },
        _ => (false, Err(Error::PrunedNode(told_with("MRT verify replay delete descent at K=", key)))),
    };
    let ghost mid = *node;
    let ghost mid_seen = builder.seen();
    proof {
        assert forall|keep: Set<Seq<bool>>|
            #![trigger before.shown(keep)]
            mid_seen.subset_of(keep) implies ({
            let l = before->left.shown(keep);
            let r = before->right.shown(keep);
            &&& before.shown(keep) == (Trie::Branch { skip: before->Branch_skip@, left: Box::new(l), right: Box::new(r) })
            &&& mid.shown(keep) == (Trie::Branch {
                skip: before->Branch_skip@,
                left: Box::new(mid->left.shown(keep)),
                right: Box::new(mid->right.shown(keep)),
            })
            &&& !side ==> deleted(step, l.remove(route(key@), e), l, mid->left.shown(keep)) && mid->right == before->right
            &&& side ==> deleted(step, r.remove(route(key@), e), r, mid->right.shown(keep)) && mid->left == before->left
        }) by {
            let l = before->left.shown(keep);
            let r = before->right.shown(keep);
        }
    }
    match step {
        Err(e) => Err(e),
        Ok(DelOutcome::NotFound) => Ok(DelOutcome::NotFound),
        Ok(DelOutcome::Deleted) => {
            refresh_branch_after_write(node);
            proof {
                assert forall|keep: Set<Seq<bool>>|
                    #![trigger before.shown(keep)]
                    mid_seen.subset_of(keep) implies node.shown(keep) == mid.shown(keep) by {
                    assert(node->left.shown(keep) == mid->left.shown(keep));
                    assert(node->right.shown(keep) == mid->right.shown(keep));
                }
            }
            Ok(DelOutcome::Deleted)
        },
        Ok(DelOutcome::Emptied) => {
            match collapse_in_place(node, builder, side, depth) {
                Ok(_) => {
                    proof {
                        assert forall|keep: Set<Seq<bool>>|
                            #![trigger before.shown(keep)]
                            builder.seen().subset_of(keep) implies node.shown(keep) == lift(
                            before->Branch_skip@,
                            !side,
                            if side {
                                before->left.shown(keep)
                            } else {
                                before->right.shown(keep)
                            },
                        ) by {
                            if side {
                                let x = mid->left.shown(keep);
                            } else {
                                let x = mid->right.shown(keep);
                            }
                        }
                    }
                    Ok(DelOutcome::Deleted)
                },
                Err(e) => Err(e),
            }
        },
    }
}

/// The child on the other side than `side`.
pub open spec fn other_child(node: MrtVerifyNode, side: bool) -> MrtVerifyNode {
    if side {
        *node->left
    } else {
        *node->right
    }
}

/// Puts the child that is not on `deleted_side` in the place of its parent.
fn collapse_in_place(node: &mut MrtVerifyNode, builder: &mut MrtPartialBuilder, deleted_side: bool, depth: u16) -> (r: Result<
    (),
    Error,
>)
    requires
        *old(node) is Branch,
        other_child(*old(node), deleted_side).wf(),
        depth + old(node)->Branch_skip@.len() + 1 + other_child(*old(node), deleted_side).whole().depth() <= MAX_ROUTE_BITS,
    ensures
        r is Ok,
        final(node).wf(),
        other_child(*old(node), deleted_side).settled() ==> final(node).settled() && final(builder).seen() == old(builder).seen(),
        depth + final(node).whole().depth() <= MAX_ROUTE_BITS,
        old(builder).seen().subset_of(final(builder).seen()),
        forall|keep: Set<Seq<bool>>|
            #![trigger other_child(*old(node), deleted_side).shown(keep)]
            final(builder).seen().subset_of(keep) ==> final(node).shown(keep) == lift(
                old(node)->Branch_skip@,
                !deleted_side,
                other_child(*old(node), deleted_side).shown(keep),
            ),
        forall|keep: Set<Seq<bool>>|
            #![trigger other_child(*old(node), deleted_side).shown(keep)]
            needed(
                old(builder).seen(),
                final(builder).seen(),
                keep,
                !(other_child(*old(node), deleted_side).shown(keep) is Pruned),
            ),
        other_child(*old(node), deleted_side).whole().bare() ==> final(node).whole().bare(),
        forall|keep: Set<Seq<bool>>|
            #![trigger other_child(*old(node), deleted_side).shown(keep)]
            final(builder).seen().subset_of(keep) && other_child(*old(node), deleted_side).whole().bare()
                ==> !(other_child(*old(node), deleted_side).shown(keep) is Pruned),
        final(node).whole() == lift(
            old(node)->Branch_skip@,
            !deleted_side,
            other_child(*old(node), deleted_side).whole(),
        ),
{
    let ghost before = *node;
    let old_node = take_node(node);
    match old_node {
        MrtVerifyNode::Branch { skip, left, right, hash_cache, depth_below } => {
            let mut survivor: MrtVerifyNode = if deleted_side {
                *left
            } else {
                *right
            };
            let ghost sv = survivor;
            survivor.visit(builder);
            let ghost sv2 = survivor;
            match collapse_survivor(&skip, !deleted_side, survivor) {
                Ok(n) => {
                    *node = *n;
                    proof {
                        assert forall|keep: Set<Seq<bool>>|
                            #![trigger sv.shown(keep)]
                            builder.seen().subset_of(keep) implies node.shown(keep) == lift(
                            before->Branch_skip@,
                            !deleted_side,
                            sv.shown(keep),
                        ) by {
                            assert(sv2.shown(keep) == sv.shown(keep));
                        }
                    }
                    Ok(())
                },
                Err(e) => Err(e),
            }
        },
        _ => Ok(()),
    }
}

/// A child that takes its parent's place: it takes over the parent's bits. A
/// stub hides its own bits and stays as it is.
pub(crate) fn collapse_survivor(parent_skip: &RouteBits, survivor_side: bool, survivor: MrtVerifyNode) -> (r: Result<
    Box<MrtVerifyNode>,
    Error,
>)
    requires
        survivor.wf(),
        !(survivor is Unvisited),
        parent_skip@.len() + 1 + survivor.whole().depth() <= MAX_ROUTE_BITS,
    ensures
        r matches Ok(n) && {
            &&& n.wf()
            &&& survivor.settled() ==> n.settled()
            &&& n.whole() == lift(parent_skip@, survivor_side, survivor.whole())
            &&& n.whole().depth() <= parent_skip@.len() + 1 + survivor.whole().depth()
            &&& forall|keep: Set<Seq<bool>>|
                #![trigger survivor.shown(keep)]
                #![trigger n.shown(keep)]
                n.shown(keep) == lift(parent_skip@, survivor_side, survivor.shown(keep))
        },
{
    let ghost before = survivor;
    match survivor {
        MrtVerifyNode::Branch { skip, left, right, hash_cache, depth_below } => {
            match parent_skip.concat_bit_and_skip(survivor_side, &skip) {
                Ok(merged) => {
                    let n = new_branch(merged, left, right);
                    proof {
                        assert forall|keep: Set<Seq<bool>>|
                            #![trigger before.shown(keep)]
                            #![trigger n.shown(keep)]
                            n.shown(keep) == lift(parent_skip@, survivor_side, before.shown(keep)) by {
                            let l = left.shown(keep);
                            let r = right.shown(keep);
                        }
                    }
                    Ok(n)
                },
                Err(e) => Err(e),
            }
        },
        MrtVerifyNode::Leaf { skip, value, hash_cache } => {
            match parent_skip.concat_bit_and_skip(survivor_side, &skip) {
                Ok(merged) => Ok(new_leaf(merged, value)),
                Err(e) => Err(e),
            }
        },
        other => Ok(Box::new(other)),
    }
}

/// What removing a range did to a node.
#[derive(Clone, Copy, Debug, PartialEq, Eq)]
pub enum RangeOutcome {
    /// The node is still there, perhaps with less below it.
    Kept,
    /// The node is gone, with all below it.
    Emptied,
}

/// Whether removing a range from a node gave what the model gives.
pub open spec fn ranged(r: Result<RangeOutcome, Error>, m: Result<Option<Trie>, Fault>, after: Trie) -> bool {
    match (r, m) {
        (Ok(RangeOutcome::Kept), Ok(Some(t))) => after == t,
        (Ok(RangeOutcome::Emptied), Ok(None)) => true,
        (Err(e), Err(f)) => e.fault() == f,
        _ => false,
    }
}

/// Removes the keys from `lo` up to but not including `hi`; `depth` bits of
/// both have led to `node`, over `prefix`.
pub fn delete_range_at(
    node: &mut MrtVerifyNode,
    builder: &mut MrtPartialBuilder,
    depth: u16,
    prefix: &RoutePrefix,
    lo: Option<&[u8]>,
    hi: Option<&[u8]>,
) -> (r: Result<RangeOutcome, Error>)
    requires
        old(node).wf(),
        depth + old(node).whole().depth() <= MAX_ROUTE_BITS,
        prefix@.len() == depth,
        on_way(prefix@, lo),
        on_way(prefix@, hi),
    ensures
        old(builder).seen().subset_of(final(builder).seen()),
        old(node).settled() ==> final(builder).seen() == old(builder).seen(),
        r == Ok::<RangeOutcome, Error>(RangeOutcome::Kept) ==> final(node).wf() && depth + final(node).whole().depth()
            <= MAX_ROUTE_BITS && (old(node).settled() ==> final(node).settled()),
        forall|keep: Set<Seq<bool>>|
            #![trigger old(node).shown(keep)]
            final(builder).seen().subset_of(keep) ==> ranged(
                r,
                old(node).shown(keep).cut(depth as int, bound(lo), bound(hi)),
                final(node).shown(keep),
            ),
        forall|keep: Set<Seq<bool>>|
            #![trigger old(node).shown(keep)]
            needed(
                old(builder).seen(),
                final(builder).seen(),
                keep,
                old(node).shown(keep).cut(depth as int, bound(lo), bound(hi)) is Ok && clear_cut(
                    old(node).shown(keep),
                    depth as int,
                    bound(lo),
                    bound(hi),
                ),
            ),
        r == Ok::<RangeOutcome, Error>(RangeOutcome::Kept) && old(node).whole().bare() ==> final(node).whole().bare(),
        forall|keep: Set<Seq<bool>>|
            #![trigger old(node).shown(keep)]
            final(builder).seen().subset_of(keep) && r is Ok && old(node).whole().bare() ==> clear_cut(
                old(node).shown(keep),
                depth as int,
                bound(lo),
                bound(hi),
            ),
    decreases old(node).whole(), 2int,
{
    if lo.is_none() && hi.is_none() {
        return Ok(RangeOutcome::Emptied);
    }
    node.visit(builder);
    let (lo_pos, hi_pos) = match &*node {
        MrtVerifyNode::Leaf { skip, value, hash_cache } => {
            return match leaf_in_range(prefix, skip, lo, hi) {
                Ok(inside) => Ok(
                    if inside {
                        RangeOutcome::Emptied
                    } else {
                        RangeOutcome::Kept
                    },
                ),
                Err(e) => Err(e),
            };
        },
        MrtVerifyNode::Branch { skip, left, right, hash_cache, depth_below } => (
            classify_optional_bound(lo, depth, skip),
            classify_optional_bound(hi, depth, skip),
        ),
        _ => {
            return Err(Error::PrunedNode(told("MRT verify replay delete_range descent")));
        },
    };
    if lo_is_after(lo_pos) || hi_is_before(hi_pos) {
        return Ok(RangeOutcome::Kept);
    }
    delete_range_below(node, builder, depth, prefix, lo, lo_pos, hi, hi_pos)
}

/// What a span leaves of a child.
pub open spec fn span_cut(t: Trie, e: int, s: Span) -> Result<Option<Trie>, Fault> {
    match s {
        Span::Outside => Ok(Some(t)),
        Span::Within { lo, hi } => t.cut(e, lo, hi),
    }
}

/// Removes a range below a branch that overlaps with it.
fn delete_range_below(
    node: &mut MrtVerifyNode,
    builder: &mut MrtPartialBuilder,
    depth: u16,
    prefix: &RoutePrefix,
    lo: Option<&[u8]>,
    lo_pos: Option<BoundPosition>,
    hi: Option<&[u8]>,
    hi_pos: Option<BoundPosition>,
) -> (r: Result<RangeOutcome, Error>)
    requires
        *old(node) is Branch,
        old(node).wf(),
        depth + old(node).whole().depth() <= MAX_ROUTE_BITS,
        prefix@.len() == depth,
        on_way(prefix@, lo),
        on_way(prefix@, hi),
        lo is Some || hi is Some,
        lo_pos == lo_place(old(node)->Branch_skip@, depth as int, bound(lo)),
        hi_pos == hi_place(old(node)->Branch_skip@, depth as int, bound(hi)),
        lo_pos != Some(BoundPosition::After),
        hi_pos != Some(BoundPosition::Before),
    ensures
        old(builder).seen().subset_of(final(builder).seen()),
        old(node).settled() ==> final(builder).seen() == old(builder).seen(),
        r == Ok::<RangeOutcome, Error>(RangeOutcome::Kept) ==> final(node).wf() && depth + final(node).whole().depth()
            <= MAX_ROUTE_BITS && (old(node).settled() ==> final(node).settled()),
        forall|keep: Set<Seq<bool>>|
            #![trigger old(node).shown(keep)]
            final(builder).seen().subset_of(keep) ==> ranged(
                r,
                old(node).shown(keep).cut(depth as int, bound(lo), bound(hi)),
                final(node).shown(keep),
            ),
        forall|keep: Set<Seq<bool>>|
            #![trigger old(node).shown(keep)]
            needed(
                old(builder).seen(),
                final(builder).seen(),
                keep,
                old(node).shown(keep).cut(depth as int, bound(lo), bound(hi)) is Ok && clear_cut(
                    old(node).shown(keep),
                    depth as int,
                    bound(lo),
                    bound(hi),
                ),
            ),
        r == Ok::<RangeOutcome, Error>(RangeOutcome::Kept) && old(node).whole().bare() ==> final(node).whole().bare(),
        forall|keep: Set<Seq<bool>>|
            #![trigger old(node).shown(keep)]
            final(builder).seen().subset_of(keep) && r is Ok && old(node).whole().bare() ==> clear_cut(
                old(node).shown(keep),
                depth as int,
                bound(lo),
                bound(hi),
            ),
    decreases old(node).whole(), 1int,
{
    let ghost before = *node;
    let ghost sk = before->Branch_skip@;
    let ghost e = depth + sk.len() + 1;
    let ghost sl = child_span(sk, depth as int, bound(lo), bound(hi), false);
    let ghost sr = child_span(sk, depth as int, bound(lo), bound(hi), true);
    let left_range = child_range(lo, lo_pos, hi, hi_pos, false);
    let right_range = child_range(lo, lo_pos, hi, hi_pos, true);
    let (left_step, right_step, Ghost(seen1)) = match node {
        MrtVerifyNode::Branch { skip, left, right, hash_cache, depth_below } => {
            let child_depth: u16 = depth + skip.bit_len() + 1;
            let left_prefix = match prefix.descend(skip, false) {
                Ok(p) => p,
                Err(e) => {
                    return Err(e);
                },
            };
            let right_prefix = match prefix.descend(skip, true) {
                Ok(p) => p,
                Err(e) => {
                    return Err(e);
                },
            };
            proof {
                if let ChildRange::Overlap { lo: a, hi: b } = left_range {
                    lemma_on_way(prefix@, skip@, false, a);
                    lemma_on_way(prefix@, skip@, false, b);
                }
                if let ChildRange::Overlap { lo: a, hi: b } = right_range {
                    lemma_on_way(prefix@, skip@, true, a);
                    lemma_on_way(prefix@, skip@, true, b);
                }
            }
            let left_step = apply_child_range(&mut **left, builder, child_depth, &left_prefix, left_range);
            let ghost seen1 = builder.seen();
            if left_step.is_err() {
                (left_step, Ok(RangeOutcome::Kept), Ghost(seen1))
            } else {
                let right_step = apply_child_range(&mut **right, builder, child_depth, &right_prefix, right_range);
                (left_step, right_step, Ghost(seen1))
            }
        },
        _ => (Ok(RangeOutcome::Kept), Ok(RangeOutcome::Kept), Ghost(builder.seen())),
    };
    let ghost mid = *node;
    let ghost mid_seen = builder.seen();
    proof {
        assert forall|keep: Set<Seq<bool>>|
            #![trigger before.shown(keep)]
            mid_seen.subset_of(keep) implies ({
            let l = before->left.shown(keep);
            let r = before->right.shown(keep);
            &&& before.shown(keep) == (Trie::Branch { skip: sk, left: Box::new(l), right: Box::new(r) })
            &&& mid.shown(keep) == (Trie::Branch {
                skip: sk,
                left: Box::new(mid->left.shown(keep)),
                right: Box::new(mid->right.shown(keep)),
            })
            &&& ranged(left_step, span_cut(l, e, sl), mid->left.shown(keep))
            &&& left_step is Ok ==> ranged(right_step, span_cut(r, e, sr), mid->right.shown(keep))
            &&& before.shown(keep).cut(depth as int, bound(lo), bound(hi)) == (match span_cut(l, e, sl) {
                Err(f) => Err(f),
                Ok(a) => match span_cut(r, e, sr) {
                    Err(f) => Err(f),
                    Ok(b) => Ok(join(sk, a, b)),
                },
            })
        }) by {
            let l = before->left.shown(keep);
            let r = before->right.shown(keep);
        }
    }
    let r = finish_range(node, builder, depth, left_step, right_step, Ghost(before), Ghost(bound(lo)), Ghost(bound(hi)));
    proof {
        assert forall|keep: Set<Seq<bool>>|
            #![trigger before.shown(keep)]
            needed(
                old(builder).seen(),
                builder.seen(),
                keep,
                before.shown(keep).cut(depth as int, bound(lo), bound(hi)) is Ok && clear_cut(
                    before.shown(keep),
                    depth as int,
                    bound(lo),
                    bound(hi),
                ),
            ) by {
            let x = before.shown(keep);
            let l = before->left.shown(keep);
            let r = before->right.shown(keep);
            assert(x == (Trie::Branch { skip: sk, left: Box::new(l), right: Box::new(r) }));
            if old(builder).seen().subset_of(keep) && x.cut(depth as int, bound(lo), bound(hi)) is Ok && clear_cut(
                x,
                depth as int,
                bound(lo),
                bound(hi),
            ) {
                assert(seen1.subset_of(keep));
                assert(mid_seen.subset_of(keep));
                assert(cut_child(sk, l, r, depth as int, bound(lo), bound(hi), false) == span_cut(l, e, sl));
                assert(cut_child(sk, l, r, depth as int, bound(lo), bound(hi), true) == span_cut(r, e, sr));
            }
        }
    }
    r
}

/// Puts a branch together after a range was removed from its children.
fn finish_range(
    node: &mut MrtVerifyNode,
    builder: &mut MrtPartialBuilder,
    depth: u16,
    left_step: Result<RangeOutcome, Error>,
    right_step: Result<RangeOutcome, Error>,
    Ghost(before): Ghost<MrtVerifyNode>,
    Ghost(lo): Ghost<Option<Seq<bool>>>,
    Ghost(hi): Ghost<Option<Seq<bool>>>,
) -> (r: Result<RangeOutcome, Error>)
    requires
        *old(node) is Branch,
        before is Branch,
        left_step is Err ==> right_step is Ok,
        left_step is Ok && right_step is Ok ==> {
            &&& left_step->Ok_0 is Kept ==> old(node)->left.wf() && depth + old(node)->Branch_skip@.len() + 1 + old(node)->left.whole().depth() <= MAX_ROUTE_BITS
            &&& right_step->Ok_0 is Kept ==> old(node)->right.wf() && depth + old(node)->Branch_skip@.len() + 1 + old(node)->right.whole().depth() <= MAX_ROUTE_BITS
        },
        forall|keep: Set<Seq<bool>>|
            #![trigger before.shown(keep)]
            old(builder).seen().subset_of(keep) ==> {
                match (left_step, right_step) {
                    (Err(e), _) => before.shown(keep).cut(depth as int, lo, hi) == Err::<Option<Trie>, Fault>(e.fault()),
                    (_, Err(e)) => before.shown(keep).cut(depth as int, lo, hi) == Err::<Option<Trie>, Fault>(e.fault()),
                    (Ok(a), Ok(b)) => before.shown(keep).cut(depth as int, lo, hi) == Ok::<Option<Trie>, Fault>(
                        join(
                            old(node)->Branch_skip@,
                            if a is Kept {
                                Some(old(node)->left.shown(keep))
                            } else {
                                None
                            },
                            if b is Kept {
                                Some(old(node)->right.shown(keep))
                            } else {
                                None
                            },
                        ),
                    ),
                }
            },
    ensures
        old(builder).seen().subset_of(final(builder).seen()),
        r == Ok::<RangeOutcome, Error>(RangeOutcome::Kept) ==> final(node).wf() && depth + final(node).whole().depth()
            <= MAX_ROUTE_BITS,
        left_step is Ok && right_step is Ok && (left_step->Ok_0 is Kept ==> old(node)->left.settled()) && (
        right_step->Ok_0 is Kept ==> old(node)->right.settled()) ==> final(builder).seen() == old(builder).seen() && (
        r == Ok::<RangeOutcome, Error>(RangeOutcome::Kept) ==> final(node).settled()),
        left_step is Err || right_step is Err ==> r is Err && final(builder).seen() == old(builder).seen(),
        forall|keep: Set<Seq<bool>>|
            #![trigger before.shown(keep)]
            final(builder).seen().subset_of(keep) ==> ranged(
                r,
                before.shown(keep).cut(depth as int, lo, hi),
                final(node).shown(keep),
            ),
        forall|keep: Set<Seq<bool>>|
            #![trigger before.shown(keep)]
            needed(
                old(builder).seen(),
                final(builder).seen(),
                keep,
                left_step is Ok && right_step is Ok && {
                    &&& right_step->Ok_0 is Emptied && left_step->Ok_0 is Kept ==> !(old(node)->left.shown(keep) is Pruned)
                    &&& left_step->Ok_0 is Emptied && right_step->Ok_0 is Kept ==> !(old(node)->right.shown(keep) is Pruned)
                },
            ),
        left_step is Ok && right_step is Ok ==> {
            let bare = (left_step->Ok_0 is Kept ==> old(node)->left.whole().bare()) && (right_step->Ok_0 is Kept
                ==> old(node)->right.whole().bare());
            &&& bare && r == Ok::<RangeOutcome, Error>(RangeOutcome::Kept) ==> final(node).whole().bare()
            &&& forall|keep: Set<Seq<bool>>|
                #![trigger before.shown(keep)]
                final(builder).seen().subset_of(keep) && bare ==> {
                    &&& right_step->Ok_0 is Emptied && left_step->Ok_0 is Kept ==> !(old(node)->left.shown(keep) is Pruned)
                    &&& left_step->Ok_0 is Emptied && right_step->Ok_0 is Kept ==> !(old(node)->right.shown(keep) is Pruned)
                }
        },
{
    let ghost mid = *node;
    match (left_step, right_step) {
        (Err(e), _) => Err(e),
        (_, Err(e)) => Err(e),
        (Ok(RangeOutcome::Kept), Ok(RangeOutcome::Kept)) => {
            refresh_branch_after_write(node);
            proof {
                assert forall|keep: Set<Seq<bool>>|
                    #![trigger before.shown(keep)]
                    builder.seen().subset_of(keep) implies ranged(
                    Ok(RangeOutcome::Kept),
                    before.shown(keep).cut(depth as int, lo, hi),
                    node.shown(keep),
                ) by {
                    let l = mid->left.shown(keep);
                    let r = mid->right.shown(keep);
                    assert(node.shown(keep) == (Trie::Branch {
                        skip: mid->Branch_skip@,
                        left: Box::new(node->left.shown(keep)),
                        right: Box::new(node->right.shown(keep)),
                    }));
                }
            }
            Ok(RangeOutcome::Kept)
        },
        (Ok(RangeOutcome::Kept), Ok(RangeOutcome::Emptied)) => match collapse_in_place(node, builder, true, depth) {
            Ok(_) => {
                proof {
                    assert forall|keep: Set<Seq<bool>>|
                        #![trigger before.shown(keep)]
                        builder.seen().subset_of(keep) implies ranged(
                        Ok(RangeOutcome::Kept),
                        before.shown(keep).cut(depth as int, lo, hi),
                        node.shown(keep),
                    ) by {
                        let l = other_child(mid, true).shown(keep);
                    }
                }
                Ok(RangeOutcome::Kept)
            },
            Err(e) => Err(e),
        },
        (Ok(RangeOutcome::Emptied), Ok(RangeOutcome::Kept)) => match collapse_in_place(node, builder, false, depth) {
            Ok(_) => {
                proof {
                    assert forall|keep: Set<Seq<bool>>|
                        #![trigger before.shown(keep)]
                        builder.seen().subset_of(keep) implies ranged(
                        Ok(RangeOutcome::Kept),
                        before.shown(keep).cut(depth as int, lo, hi),
                        node.shown(keep),
                    ) by {
                        let l = other_child(mid, false).shown(keep);
                    }
                }
                Ok(RangeOutcome::Kept)
            },
            Err(e) => Err(e),
        },
        (Ok(RangeOutcome::Emptied), Ok(RangeOutcome::Emptied)) => Ok(RangeOutcome::Emptied),
    }
}

/// Removes from a child what a range covers of it.
fn apply_child_range(
    child: &mut MrtVerifyNode,
    builder: &mut MrtPartialBuilder,
    child_depth: u16,
    child_prefix: &RoutePrefix,
    range: ChildRange<'_>,
) -> (r: Result<RangeOutcome, Error>)
    requires
        old(child).wf(),
        child_depth + old(child).whole().depth() <= MAX_ROUTE_BITS,
        child_prefix@.len() == child_depth,
        range matches ChildRange::Overlap { lo, hi } ==> on_way(child_prefix@, lo) && on_way(child_prefix@, hi),
    ensures
        old(builder).seen().subset_of(final(builder).seen()),
        old(child).settled() ==> final(builder).seen() == old(builder).seen(),
        r == Ok::<RangeOutcome, Error>(RangeOutcome::Kept) ==> final(child).wf() && child_depth + final(child).whole().depth() <= MAX_ROUTE_BITS && (old(child).settled() ==> final(child).settled()),
        forall|keep: Set<Seq<bool>>|
            #![trigger old(child).shown(keep)]
            final(builder).seen().subset_of(keep) ==> ranged(
                r,
                match range {
                    ChildRange::NoOverlap => Ok(Some(old(child).shown(keep))),
                    ChildRange::Overlap { lo, hi } => old(child).shown(keep).cut(child_depth as int, bound(lo), bound(hi)),
                },
                final(child).shown(keep),
            ),
        forall|keep: Set<Seq<bool>>|
            #![trigger old(child).shown(keep)]
            needed(
                old(builder).seen(),
                final(builder).seen(),
                keep,
                match range {
                    ChildRange::NoOverlap => true,
                    ChildRange::Overlap { lo, hi } => old(child).shown(keep).cut(
                        child_depth as int,
                        bound(lo),
                        bound(hi),
                    ) is Ok && clear_cut(old(child).shown(keep), child_depth as int, bound(lo), bound(hi)),
                },
            ),
        r == Ok::<RangeOutcome, Error>(RangeOutcome::Kept) && old(child).whole().bare() ==> final(child).whole().bare(),
        forall|keep: Set<Seq<bool>>|
            #![trigger old(child).shown(keep)]
            final(builder).seen().subset_of(keep) && r is Ok && old(child).whole().bare() ==> (
            range matches ChildRange::Overlap { lo, hi } ==> clear_cut(
                old(child).shown(keep),
                child_depth as int,
                bound(lo),
                bound(hi),
            )),
    decreases old(child).whole(), 3int,
{
    match range {
        ChildRange::NoOverlap => Ok(RangeOutcome::Kept),
        ChildRange::Overlap { lo, hi } => delete_range_at(child, builder, child_depth, child_prefix, lo, hi),
    }
}

} // verus!
