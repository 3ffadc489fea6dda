//! Whole tries that are changed in place, and reads that note what they visit.

use vstd::prelude::*;

use crate::bits::{key_copy, key_less, lemma_key_order};
use crate::error::{Error, Fault};
use crate::hash::{NodeHash, NULL_HASH};
use crate::mrt::cursor::{got, lemma_leaf_key};
use crate::mrt::model::{place, BoundPosition, Trie};
use crate::mrt::prefix::{prefix_absent, validate_move_prefix_args, validate_move_prefix_result_depth, Voice};
use crate::mrt::prune::MrtPartialBuilder;
use crate::mrt::replay_move::{detach_at_in_place, reskin_captured_root_verify, splice_at_in_place, DetachStep,
    VerifyCaptured};
use crate::mrt::replay_ops::{delete_at, delete_range_at, insert_at, DelOutcome, RangeOutcome};
use crate::mrt::route::{agrees, leaf_matches, route, route_bit_at, route_bits_of, route_len, skip_matches,
    validate_key_len, RouteBits, RoutePrefix, MAX_KEY_LEN, MAX_ROUTE_BITS};
use crate::mrt::scan::{drain, flat, from_bound, gives, lemma_drain_add, rows_view, scan_root, Drained, End, Item, Stop,
    Until};
use crate::mrt::soundness::{clear_change, clear_cut};
use crate::mrt::store::{apply_change, hash_of};
use crate::mrt::tree::{classify_optional_bound, find_root, validate_delete_range_bounds};
use crate::mrt::verify_node::{lemma_shown, needed, new_leaf, MrtVerifyNode};
use crate::ops::Change;
use crate::text::{told, told_with};
use crate::tracer::prefix_successor;

verus! {

/// What is shown of a trie that may be empty.
pub open spec fn root_shown(root: Option<Box<MrtVerifyNode>>, keep: Set<Seq<bool>>) -> Option<Trie> {
    match root {
        Some(n) => Some(n.shown(keep)),
        None => None,
    }
}

/// The whole of a trie that may be empty.
pub open spec fn root_whole(root: Option<Box<MrtVerifyNode>>) -> Option<Trie> {
    match root {
        Some(n) => Some(n.whole()),
        None => None,
    }
}

/// As [`MrtVerifyNode::wf`], for a trie that may be empty.
pub open spec fn root_wf(root: Option<Box<MrtVerifyNode>>) -> bool {
    root matches Some(n) ==> n.wf()
}

/// As [`MrtVerifyNode::settled`], for a trie that may be empty.
pub open spec fn root_settled(root: Option<Box<MrtVerifyNode>>) -> bool {
    root matches Some(n) ==> n.settled()
}

/// As [`Trie::bare`], for a trie that may be empty.
pub open spec fn root_bare(root: Option<Box<MrtVerifyNode>>) -> bool {
    root matches Some(n) ==> n.whole().bare()
}

/// Whether a write gave what the model gives.
pub open spec fn did_root(r: Result<(), Error>, m: Result<Option<Trie>, Fault>, after: Option<Trie>) -> bool {
    match (r, m) {
        (Ok(_), Ok(t)) => after == t,
        (Err(e), Err(f)) => e.fault() == f,
        _ => false,
    }
}

/// What a write does: it visits what it needs and no more, and what it then
/// does is the same whatever else is shown.
pub open spec fn wrote(
    r: Result<(), Error>,
    c: Change,
    before: Option<Box<MrtVerifyNode>>,
    after: Option<Box<MrtVerifyNode>>,
    seen_before: Set<Seq<bool>>,
    seen_after: Set<Seq<bool>>,
) -> bool {
    &&& seen_before.subset_of(seen_after)
    &&& root_settled(before) ==> seen_after == seen_before
    &&& r is Ok ==> root_wf(after) && (root_settled(before) ==> root_settled(after))
    &&& forall|keep: Set<Seq<bool>>|
        #![trigger root_shown(before, keep)]
        seen_after.subset_of(keep) ==> did_root(
            r,
            apply_change(root_shown(before, keep), c, true),
            root_shown(after, keep),
        )
    &&& forall|keep: Set<Seq<bool>>|
        #![trigger root_shown(before, keep)]
        needed(
            seen_before,
            seen_after,
            keep,
            apply_change(root_shown(before, keep), c, true) is Ok && clear_change(root_shown(before, keep), c),
        )
    &&& forall|keep: Set<Seq<bool>>|
        #![trigger root_shown(before, keep)]
        seen_after.subset_of(keep) && r is Ok && root_bare(before) ==> clear_change(root_shown(before, keep), c)
}

/// Stores `value` under `key`.
pub fn insert(
    root: &mut Option<Box<MrtVerifyNode>>,
    builder: &mut MrtPartialBuilder,
    key: &[u8],
    value: Vec<u8>,
    voice: Voice,
) -> (r: Result<(), Error>)
    requires
        root_wf(*old(root)),
    ensures
        wrote(
            r,
            Change::Put { key: key@, value: value@ },
            *old(root),
            *final(root),
            old(builder).seen(),
            final(builder).seen(),
        ),
{
    let ghost before = *root;
    let context = match voice {
        Voice::Store => "insert",
        Voice::Replay => "verify replay insert",
    };
    match validate_key_len(key, context) {
        Ok(_) => {},
        Err(e) => {
            return Err(e);
        },
    }
    let r = match root {
        Some(node) => {
            assert(route(key@).skip(0) =~= route(key@));
            insert_at(&mut **node, builder, 0, key, value)
        },
        None => {
            *root = Some(new_leaf(route_bits_of(key), value));
            Ok(())
        },
    };
    proof {
        assert forall|keep: Set<Seq<bool>>|
            #![trigger root_shown(before, keep)]
            builder.seen().subset_of(keep) implies did_root(
            r,
            apply_change(root_shown(before, keep), Change::Put { key: key@, value: value@ }, true),
            root_shown(*root, keep),
        ) by {
            if before is Some {
                let x = before->0.shown(keep);
            }
        }
    }
    r
}

/// Removes `key`; tells whether it was stored.
pub fn delete(
    root: &mut Option<Box<MrtVerifyNode>>,
    builder: &mut MrtPartialBuilder,
    key: &[u8],
    voice: Voice,
) -> (r: Result<bool, Error>)
    requires
        root_wf(*old(root)),
    ensures
        wrote(
            match r {
                Ok(_) => Ok(()),
                Err(e) => Err(e),
            },
            Change::Delete { key: key@ },
            *old(root),
            *final(root),
            old(builder).seen(),
            final(builder).seen(),
        ),
        forall|keep: Set<Seq<bool>>|
            #![trigger root_shown(*old(root), keep)]
            final(builder).seen().subset_of(keep) && r is Ok ==> (r->Ok_0 <==> crate::mrt::tree::remove_root(
                root_shown(*old(root), keep),
                key@,
            )->Ok_0 is Some),
{
    let ghost before = *root;
    let context = match voice {
        Voice::Store => "delete",
        Voice::Replay => "verify replay delete",
    };
    match validate_key_len(key, context) {
        Ok(_) => {},
        Err(e) => {
            return Err(e);
        },
    }
    let step = match root {
        Some(node) => delete_at(&mut **node, builder, 0, key),
        None => {
            return Ok(false);
        },
    };
    let r = match step {
        Ok(DelOutcome::NotFound) => Ok(false),
        Ok(DelOutcome::Deleted) => Ok(true),
        Ok(DelOutcome::Emptied) => {
            *root = None;
            Ok(true)
        },
        Err(e) => Err(e),
    };
    proof {
        assert forall|keep: Set<Seq<bool>>|
            #![trigger root_shown(before, keep)]
            builder.seen().subset_of(keep) implies ({
            &&& did_root(
                match r {
                    Ok(_) => Ok(()),
                    Err(e) => Err(e),
                },
                apply_change(root_shown(before, keep), Change::Delete { key: key@ }, true),
                root_shown(*root, keep),
            )
            &&& r is Ok ==> (r->Ok_0 <==> crate::mrt::tree::remove_root(root_shown(before, keep), key@)->Ok_0 is Some)
        }) by {
            let x = before->0.shown(keep);
        }
    }
    r
}

/// Removes the keys from `start` up to but not including `end`.
pub fn delete_range(
    root: &mut Option<Box<MrtVerifyNode>>,
    builder: &mut MrtPartialBuilder,
    start: &[u8],
    end: &[u8],
    voice: Voice,
) -> (r: Result<(), Error>)
    requires
        root_wf(*old(root)),
    ensures
        wrote(
            r,
            Change::DeleteRange { start: start@, end: end@ },
            *old(root),
            *final(root),
            old(builder).seen(),
            final(builder).seen(),
        ),
{
    match validate_delete_range_bounds(start, end, voice) {
        Ok(_) => {},
        Err(e) => {
            return Err(e);
        },
    }
    cut(root, builder, start, Some(end), Ghost(Change::DeleteRange { start: start@, end: end@ }))
}

/// Removes the keys that begin with `prefix`.
pub fn delete_prefix(
    root: &mut Option<Box<MrtVerifyNode>>,
    builder: &mut MrtPartialBuilder,
    prefix: &[u8],
    voice: Voice,
) -> (r: Result<(), Error>)
    requires
        root_wf(*old(root)),
    ensures
        wrote(
            r,
            Change::DeletePrefix { prefix: prefix@ },
            *old(root),
            *final(root),
            old(builder).seen(),
            final(builder).seen(),
        ),
{
    let context = match voice {
        Voice::Store => "delete_prefix",
        Voice::Replay => "verify replay delete_prefix",
    };
    match validate_key_len(prefix, context) {
        Ok(_) => {},
        Err(e) => {
            return Err(e);
        },
    }
    let c: Ghost<Change> = Ghost(Change::DeletePrefix { prefix: prefix@ });
    match prefix_successor(prefix) {
        Some(end) => cut(root, builder, prefix, Some(end.as_slice()), c),
        None => cut(root, builder, prefix, None, c),
    }
}

/// Removes the keys from `start` on, up to but not including `end` if there is one.
fn cut(
    root: &mut Option<Box<MrtVerifyNode>>,
    builder: &mut MrtPartialBuilder,
    start: &[u8],
    end: Option<&[u8]>,
    Ghost(c): Ghost<Change>,
) -> (r: Result<(), Error>)
    requires
        root_wf(*old(root)),
        start@.len() <= MAX_KEY_LEN,
        end matches Some(e) ==> e@.len() <= MAX_KEY_LEN,
        forall|t: Trie|
            #![trigger apply_change(Some(t), c, true)]
            apply_change(Some(t), c, true) == t.cut(0, Some(route(start@)), crate::mrt::tree::bound(end)),
        forall|t: Trie|
            #![trigger clear_change(Some(t), c)]
            clear_change(Some(t), c) == clear_cut(t, 0, Some(route(start@)), crate::mrt::tree::bound(end)),
        apply_change(None, c, true) == Ok::<Option<Trie>, Fault>(None),
    ensures
        wrote(r, c, *old(root), *final(root), old(builder).seen(), final(builder).seen()),
{
    let ghost before = *root;
    let prefix = RoutePrefix::root();
    assert(agrees(prefix@, route(start@), 0));
    assert(end matches Some(e) ==> agrees(prefix@, route(e@), 0));
    let step = match root {
        Some(node) => delete_range_at(&mut **node, builder, 0, &prefix, Some(start), end),
        None => {
            return Ok(());
        },
    };
    let r = match step {
        Ok(RangeOutcome::Kept) => Ok(()),
        Ok(RangeOutcome::Emptied) => {
            *root = None;
            Ok(())
        },
        Err(e) => Err(e),
    };
    proof {
        assert forall|keep: Set<Seq<bool>>|
            #![trigger root_shown(before, keep)]
            builder.seen().subset_of(keep) implies did_root(
            r,
            apply_change(root_shown(before, keep), c, true),
            root_shown(*root, keep),
        ) by {
            let x = before->0.shown(keep);
        }
    }
    r
}

/// Takes out the subtrie of all keys that begin with `p`.
fn detach_in_place(
    root: &mut Option<Box<MrtVerifyNode>>,
    builder: &mut MrtPartialBuilder,
    p: &[u8],
    voice: Voice,
) -> (r: Result<VerifyCaptured, Error>)
    requires
        root_wf(*old(root)),
        p@.len() <= MAX_KEY_LEN,
    ensures
        old(builder).seen().subset_of(final(builder).seen()),
        root_settled(*old(root)) ==> final(builder).seen() == old(builder).seen(),
        r matches Ok(c) ==> root_wf(*final(root)) && c.wf() && (root_settled(*old(root)) ==> root_settled(*final(root))
            && c.s_root.settled()),
        forall|keep: Set<Seq<bool>>|
            #![trigger root_shown(*old(root), keep)]
            final(builder).seen().subset_of(keep) ==> match (
                r,
                crate::mrt::prefix::detach_root(root_shown(*old(root), keep), p@, true),
            ) {
                (Ok(c), Ok((t, s, n))) => root_shown(*final(root), keep) == t && c.s_root.shown(keep) == s
                    && c.strip_prefix_bits == n,
                (Err(e), Err(f)) => e.fault() == f,
                _ => false,
            },
        forall|keep: Set<Seq<bool>>|
            #![trigger root_shown(*old(root), keep)]
            needed(
                old(builder).seen(),
                final(builder).seen(),
                keep,
                crate::mrt::prefix::detach_root(root_shown(*old(root), keep), p@, true) is Ok,
            ),
{
    let ghost before = *root;
    assert(route(p@).skip(0) =~= route(p@));
    let step = match root {
        Some(node) => detach_at_in_place(&mut **node, builder, 0, p, voice),
        None => {
            return Err(prefix_absent(p, voice));
        },
    };
    proof {
        assert forall|keep: Set<Seq<bool>>|
            #![trigger root_shown(before, keep)]
            builder.seen().subset_of(keep) implies crate::mrt::replay_move::detached(
            step,
            before->0.shown(keep).detach(route(p@), true),
            before->0.shown(keep),
            (*root)->0.shown(keep),
            keep,
        ) by {
            let x = before->0.shown(keep);
        }
    }
    match step {
        Ok(DetachStep::IsS { strip_prefix_bits }) => match root.take() {
            Some(s_root) => Ok(VerifyCaptured { s_root, strip_prefix_bits }),
            None => Err(prefix_absent(p, voice)),
        },
        Ok(DetachStep::Changed(captured)) => Ok(captured),
        Err(e) => Err(e),
    }
}

/// Puts a captured subtrie under the prefix `q`.
fn splice_in_place(
    root: &mut Option<Box<MrtVerifyNode>>,
    builder: &mut MrtPartialBuilder,
    q: &[u8],
    captured: VerifyCaptured,
) -> (r: Result<(), Error>)
    requires
        root_wf(*old(root)),
        captured.wf(),
        q@.len() <= MAX_KEY_LEN,
        8 * q@.len() + captured.s_root.whole().depth() - captured.strip_prefix_bits <= MAX_ROUTE_BITS,
    ensures
        old(builder).seen().subset_of(final(builder).seen()),
        root_settled(*old(root)) ==> final(builder).seen() == old(builder).seen(),
        r is Ok ==> root_wf(*final(root)) && (root_settled(*old(root)) && captured.s_root.settled() ==> root_settled(
            *final(root),
        )),
        forall|keep: Set<Seq<bool>>|
            #![trigger root_shown(*old(root), keep)]
            final(builder).seen().subset_of(keep) ==> match (
                r,
                crate::mrt::prefix::splice_root(
                    root_shown(*old(root), keep),
                    q@,
                    captured.s_root.shown(keep),
                    captured.strip_prefix_bits as nat,
                ),
            ) {
                (Ok(_), Ok(t)) => root_shown(*final(root), keep) == Some(t),
                (Err(e), Err(f)) => e.fault() == f,
                _ => false,
            },
        forall|keep: Set<Seq<bool>>|
            #![trigger root_shown(*old(root), keep)]
            needed(
                old(builder).seen(),
                final(builder).seen(),
                keep,
                crate::mrt::prefix::splice_root(
                    root_shown(*old(root), keep),
                    q@,
                    captured.s_root.shown(keep),
                    captured.strip_prefix_bits as nat,
                ) is Ok,
            ),
{
    let ghost before = *root;
    let ghost moved = captured;
    let empty: bool = root.is_none();
    if empty {
        let q_tail = RouteBits::from_key_range(q, 0, route_len(q));
        assert(q_tail@ =~= route(q@));
        return match reskin_captured_root_verify(captured, &q_tail) {
            Ok(n) => {
                *root = Some(n);
                proof {
                    assert forall|keep: Set<Seq<bool>>|
                        #![trigger root_shown(before, keep)]
                        builder.seen().subset_of(keep) implies crate::mrt::prefix::splice_root(
                        root_shown(before, keep),
                        q@,
                        moved.s_root.shown(keep),
                        moved.strip_prefix_bits as nat,
                    ) == Ok::<Trie, Fault>(root_shown(*root, keep)->0) by {
                        let s = moved.s_root.shown(keep);
                    }
                }
                Ok(())
            },
            Err(e) => Err(e),
        };
    }
    assert(route(q@).skip(0) =~= route(q@));
    let r = match root {
        Some(node) => splice_at_in_place(&mut **node, builder, 0, q, captured),
        None => Ok(()),
    };
    proof {
        assert forall|keep: Set<Seq<bool>>|
            #![trigger root_shown(before, keep)]
            builder.seen().subset_of(keep) implies crate::mrt::replay_move::spliced(
            r,
            *before->0,
            *(*root)->0,
            route(q@),
            moved,
            keep,
        ) by {
            let x = before->0.shown(keep);
        }
    }
    r
}

/// Renames every key that begins with `from` to begin with `to`.
pub fn move_prefix(
    root: &mut Option<Box<MrtVerifyNode>>,
    builder: &mut MrtPartialBuilder,
    from: &[u8],
    to: &[u8],
    voice: Voice,
) -> (r: Result<(), Error>)
    requires
        root_wf(*old(root)),
    ensures
        wrote(
            r,
            Change::MovePrefix { from: from@, to: to@ },
            *old(root),
            *final(root),
            old(builder).seen(),
            final(builder).seen(),
        ),
{
    let ghost before = *root;
    let ghost c = Change::MovePrefix { from: from@, to: to@ };
    match validate_move_prefix_args(from, to) {
        Ok(_) => {},
        Err(e) => {
            return Err(e);
        },
    }
    let captured = match detach_in_place(root, builder, from, voice) {
        Ok(c) => c,
        Err(e) => {
            return Err(e);
        },
    };
    let ghost mid = *root;
    let ghost mid_seen = builder.seen();
    let ghost moved = captured;
    proof {
        assert forall|keep: Set<Seq<bool>>|
            #![trigger root_shown(before, keep)]
            mid_seen.subset_of(keep) implies ({
            &&& crate::mrt::prefix::detach_root(root_shown(before, keep), from@, true) == Ok::<
                (Option<Trie>, Trie, nat),
                Fault,
            >((root_shown(mid, keep), moved.s_root.shown(keep), moved.strip_prefix_bits as nat))
            &&& moved.s_root.shown(keep).depth() == moved.s_root.whole().depth()
        }) by {
            lemma_shown(*moved.s_root, keep);
        }
    }
    match validate_move_prefix_result_depth(to, captured.s_root.depth_below(), captured.strip_prefix_bits) {
        Ok(_) => {},
        Err(e) => {
            return Err(e);
        },
    }
    let r = splice_in_place(root, builder, to, captured);
    proof {
        assert forall|keep: Set<Seq<bool>>|
            #![trigger root_shown(before, keep)]
            builder.seen().subset_of(keep) implies did_root(
            r,
            apply_change(root_shown(before, keep), c, true),
            root_shown(*root, keep),
        ) by {
            assert(mid_seen.subset_of(keep));
            let y = root_shown(mid, keep);
        }
    }
    r
}

/// The root hash, brought up to date.
pub fn rehash_root(root: &mut Option<Box<MrtVerifyNode>>) -> (hash: NodeHash)
    requires
        root_wf(*old(root)),
    ensures
        root_wf(*final(root)),
        root_settled(*old(root)) ==> root_settled(*final(root)),
        root_whole(*final(root)) == root_whole(*old(root)),
        forall|keep: Set<Seq<bool>>| #[trigger] root_shown(*final(root), keep) == root_shown(*old(root), keep),
        hash == hash_of(root_whole(*old(root))),
{
    match root {
        Some(node) => (&mut **node).rehash(),
        None => NULL_HASH,
    }
}

/// Looks for `key`, of which `depth` bits have led to `node`.
pub fn get_at(node: &mut MrtVerifyNode, builder: &mut MrtPartialBuilder, depth: u16, key: &[u8]) -> (r: Result<
    Option<Vec<u8>>,
    Error,
>)
    requires
        old(node).wf(),
        key@.len() <= MAX_KEY_LEN,
        depth + old(node).whole().depth() <= MAX_ROUTE_BITS,
    ensures
        final(node).wf(),
        final(node).whole() == old(node).whole(),
        old(builder).seen().subset_of(final(builder).seen()),
        forall|keep: Set<Seq<bool>>|
            #![trigger old(node).shown(keep)]
            #![trigger final(node).shown(keep)]
            final(builder).seen().subset_of(keep) ==> final(node).shown(keep) == old(node).shown(keep) && got(
                r,
                old(node).shown(keep).find(route(key@), depth as int),
            ),
        forall|keep: Set<Seq<bool>>|
            #![trigger old(node).shown(keep)]
            needed(
                old(builder).seen(),
                final(builder).seen(),
                keep,
                old(node).shown(keep).find(route(key@), depth as int) is Ok,
            ),
    decreases old(node).whole(),
{
    let ghost start = *node;
    node.visit(builder);
    let ghost before = *node;
    let ghost seen1 = builder.seen();
    let r = match node {
        MrtVerifyNode::Leaf { skip, value, hash_cache } => Ok(
            if leaf_matches(skip, key, depth) {
                Some(key_copy(value.as_slice()))
            } else {
                None
            },
        ),
        MrtVerifyNode::Branch { skip, left, right, hash_cache, depth_below } => {
            if !skip_matches(skip, key, depth) {
                Ok(None)
            } else {
                let branch_depth: u16 = depth + skip.bit_len();
                if !route_bit_at(key, branch_depth) {
                    get_at(&mut **left, builder, branch_depth + 1, key)
                } else {
                    get_at(&mut **right, builder, branch_depth + 1, key)
                }
            }
        },
        _ => Err(Error::PrunedNode(told_with("MRT get descent at key ", key))),
    };
    proof {
        assert forall|keep: Set<Seq<bool>>|
            #![trigger start.shown(keep)]
            needed(
                old(builder).seen(),
                builder.seen(),
                keep,
                start.shown(keep).find(route(key@), depth as int) is Ok,
            ) by {
            if old(builder).seen().subset_of(keep) && start.shown(keep).find(route(key@), depth as int) is Ok {
                assert(seen1.subset_of(keep));
                assert(before.shown(keep) == start.shown(keep));
                if before is Branch {
                    let l = before->left.shown(keep);
                    let rr = before->right.shown(keep);
                }
            }
        }
        assert forall|keep: Set<Seq<bool>>|
            #![trigger start.shown(keep)]
            #![trigger node.shown(keep)]
            builder.seen().subset_of(keep) implies node.shown(keep) == start.shown(keep) && got(
            r,
            start.shown(keep).find(route(key@), depth as int),
        ) by {
            assert(seen1.subset_of(keep));
            assert(before.shown(keep) == start.shown(keep));
            if before is Branch {
                let l = before->left.shown(keep);
                let rr = before->right.shown(keep);
                assert(node->left.shown(keep) == l);
                assert(node->right.shown(keep) == rr);
            }
        }
    }
    r
}

/// What a scan of a node runs over: all below it, or what lies from `from` on.
pub open spec fn part_items(t: Trie, prefix: Seq<bool>, from: Option<Seq<bool>>) -> Result<Seq<Item>, Fault> {
    match from {
        Some(k) => from_bound(t, prefix, k),
        None => Ok(flat(t, prefix)),
    }
}

/// Whether a scan gave what the model gives: new rows behind the old ones, and
/// whether it stopped.
pub open spec fn scanned(
    r: Result<bool, Error>,
    m: Result<Seq<Item>, Fault>,
    until: Until,
    before: Seq<(Seq<u8>, Seq<u8>)>,
    after: Seq<(Seq<u8>, Seq<u8>)>,
) -> bool {
    match m {
        Err(f) => r matches Err(e) && e.fault() == f,
        Ok(items) => match (r, drain(items, until).end) {
            (Ok(false), End::Exhausted) => after == before + drain(items, until).rows,
            (Ok(true), End::Stopped) => after == before + drain(items, until).rows,
            (Err(e), End::Failed(f)) => e.fault() == f,
            _ => false,
        },
    }
}

/// What a scan of the children of a branch runs over; `at` leads to them.
pub open spec fn below_items(
    left: Trie,
    right: Trie,
    at: Seq<bool>,
    from_left: Option<Seq<bool>>,
    from_right: Option<Seq<bool>>,
    skip_left: bool,
) -> Result<Seq<Item>, Fault> {
    if skip_left {
        part_items(right, at + seq![true], from_right)
    } else {
        match part_items(left, at + seq![false], from_left) {
            Ok(a) => Ok(a + flat(right, at + seq![true])),
            Err(f) => Err(f),
        }
    }
}

/// Whether a scan of items goes through.
pub open spec fn scan_fine(m: Result<Seq<Item>, Fault>, until: Until) -> bool {
    m matches Ok(items) && !(drain(items, until).end is Failed)
}

/// Scans a node that `prefix` leads to, from `from` on, until the scan stops.
pub fn scan_at(
    node: &mut MrtVerifyNode,
    builder: &mut MrtPartialBuilder,
    prefix: &RoutePrefix,
    from: Option<&[u8]>,
    stop: Stop<'_>,
    out: &mut Vec<(Vec<u8>, Vec<u8>)>,
) -> (r: Result<bool, Error>)
    requires
        old(node).wf(),
        prefix@.len() + old(node).whole().depth() <= MAX_ROUTE_BITS,
    ensures
        final(node).wf(),
        final(node).whole() == old(node).whole(),
        old(builder).seen().subset_of(final(builder).seen()),
        forall|keep: Set<Seq<bool>>|
            #![trigger old(node).shown(keep)]
            #![trigger final(node).shown(keep)]
            final(builder).seen().subset_of(keep) ==> final(node).shown(keep) == old(node).shown(keep) && scanned(
                r,
                part_items(old(node).shown(keep), prefix@, crate::mrt::tree::bound(from)),
                stop@,
                rows_view(old(out)@),
                rows_view(final(out)@),
            ),
        forall|keep: Set<Seq<bool>>|
            #![trigger old(node).shown(keep)]
            needed(
                old(builder).seen(),
                final(builder).seen(),
                keep,
                scan_fine(part_items(old(node).shown(keep), prefix@, crate::mrt::tree::bound(from)), stop@),
            ),
    decreases old(node).whole(), 1int,
{
    let ghost start = *node;
    let ghost before = rows_view(out@);
    let ghost none = Seq::<(Seq<u8>, Seq<u8>)>::empty();
    node.visit(builder);
    match &*node {
        MrtVerifyNode::Leaf { skip, value, hash_cache } => match prefix.key_with_suffix(skip) {
            Err(e) => {
                assert(drain(flat(node.whole(), prefix@), stop@).end == End::Failed(Fault::Tree));
                Err(e)
            },
            Ok(key) => {
                let ghost t = node.whole();
                proof {
                    lemma_leaf_key(key@, prefix@ + skip@);
                    assert(flat(t, prefix@).skip(1) =~= Seq::empty());
                    reveal_with_fuel(drain, 2);
                    assert(before + none =~= before);
                    assert(seq![(key@, value@)] + none =~= seq![(key@, value@)]);
                    if let Some(k) = from {
                        lemma_key_order(key@, k@);
                    }
                }
                if let Some(k) = from {
                    if key_less(key.as_slice(), k) {
                        return Ok(false);
                    }
                }
                if stop.fires(key.as_slice()) {
                    return Ok(true);
                }
                let ghost old_out = out@;
                let row = (key, key_copy(value.as_slice()));
                out.push(row);
                assert(rows_view(out@) =~= rows_view(old_out) + seq![(row.0@, row.1@)]);
                Ok(false)
            },
        },
        MrtVerifyNode::Branch { skip, left, right, hash_cache, depth_below } => {
            let depth: u16 = prefix.bit_len();
            let pos = classify_optional_bound(from, depth, skip);
            match pos {
                Some(BoundPosition::After) => {
                    proof {
                        assert(before + none =~= before);
                        assert(drain(Seq::empty(), stop@) == (Drained { rows: none, end: End::Exhausted }));
                    }
                    Ok(false)
                },
                Some(BoundPosition::InRight) => scan_below(node, builder, prefix, None, from, true, stop, out),
                Some(BoundPosition::InLeft) => scan_below(node, builder, prefix, from, None, false, stop, out),
                _ => scan_below(node, builder, prefix, None, None, false, stop, out),
            }
        },
        _ => match from {
            Some(start) => Err(Error::PrunedNode(told_with("cursor lower-bound descent at ", start))),
            None => Err(Error::PrunedNode(told("cursor next descent"))),
        },
    }
}

/// Scans the children of a branch: from the bounds given on, and the left one
/// only if `skip_left` is not set.
fn scan_below(
    node: &mut MrtVerifyNode,
    builder: &mut MrtPartialBuilder,
    prefix: &RoutePrefix,
    from_left: Option<&[u8]>,
    from_right: Option<&[u8]>,
    skip_left: bool,
    stop: Stop<'_>,
    out: &mut Vec<(Vec<u8>, Vec<u8>)>,
) -> (r: Result<bool, Error>)
    requires
        *old(node) is Branch,
        old(node).wf(),
        prefix@.len() + old(node).whole().depth() <= MAX_ROUTE_BITS,
        from_left is Some ==> !skip_left && from_right is None,
        from_right is Some ==> skip_left,
    ensures
        final(node).wf(),
        final(node).whole() == old(node).whole(),
        old(builder).seen().subset_of(final(builder).seen()),
        forall|keep: Set<Seq<bool>>|
            #![trigger old(node).shown(keep)]
            #![trigger final(node).shown(keep)]
            final(builder).seen().subset_of(keep) ==> {
                &&& final(node).shown(keep) == old(node).shown(keep)
                &&& scanned(
                    r,
                    below_items(
                        old(node)->left.shown(keep),
                        old(node)->right.shown(keep),
                        prefix@ + old(node)->Branch_skip@,
                        crate::mrt::tree::bound(from_left),
                        crate::mrt::tree::bound(from_right),
                        skip_left,
                    ),
                    stop@,
                    rows_view(old(out)@),
                    rows_view(final(out)@),
                )
            },
        forall|keep: Set<Seq<bool>>|
            #![trigger old(node).shown(keep)]
            needed(
                old(builder).seen(),
                final(builder).seen(),
                keep,
                scan_fine(
                    below_items(
                        old(node)->left.shown(keep),
                        old(node)->right.shown(keep),
                        prefix@ + old(node)->Branch_skip@,
                        crate::mrt::tree::bound(from_left),
                        crate::mrt::tree::bound(from_right),
                        skip_left,
                    ),
                    stop@,
                ),
            ),
    decreases old(node).whole(), 0int,
{
    let ghost before = *node;
    let ghost rows0 = rows_view(out@);
    let ghost sk = before->Branch_skip@;
    let ghost pl = prefix@ + sk + seq![false];
    let ghost pr = prefix@ + sk + seq![true];
    let (Ghost(left_step), right_step, Ghost(rows1), Ghost(seen1)) = match node {
        MrtVerifyNode::Branch { skip, left, right, hash_cache, depth_below } => {
            let left_prefix = match prefix.descend(skip, false) {
                Ok(p) => p,
                Err(e) => {
                    return Err(e);
                },
            };
            let right_prefix = match prefix.descend(skip, true) {
                Ok(p) => p,
                Err(e) => {
                    return Err(e);
                },
            };
            let left_step: Result<bool, Error> = if skip_left {
                Ok(false)
            } else {
                scan_at(&mut **left, builder, &left_prefix, from_left, stop, out)
            };
            let ghost first_step = left_step;
            let ghost rows1 = rows_view(out@);
            let ghost seen1 = builder.seen();
            let right_step: Result<bool, Error> = match left_step {
                Ok(false) => scan_at(&mut **right, builder, &right_prefix, from_right, stop, out),
                Ok(true) => Ok(true),
                Err(e) => Err(e),
            };
            (Ghost(first_step), right_step, Ghost(rows1), Ghost(seen1))
        },
        _ => {
            return Err(Error::PrunedNode(told("cursor next descent")));
        },
    };
    proof {
        assert forall|keep: Set<Seq<bool>>|
            #![trigger before.shown(keep)]
            #![trigger before->left.shown(keep)]
            needed(
                old(builder).seen(),
                builder.seen(),
                keep,
                scan_fine(
                    below_items(
                        before->left.shown(keep),
                        before->right.shown(keep),
                        prefix@ + sk,
                        crate::mrt::tree::bound(from_left),
                        crate::mrt::tree::bound(from_right),
                        skip_left,
                    ),
                    stop@,
                ),
            ) by {
            let l = before->left.shown(keep);
            let rr = before->right.shown(keep);
            if !skip_left {
                if let Ok(a) = part_items(l, pl, crate::mrt::tree::bound(from_left)) {
                    lemma_drain_add(a, flat(rr, pr), stop@);
                }
            }
        }
        assert forall|keep: Set<Seq<bool>>|
            #![trigger before.shown(keep)]
            #![trigger node.shown(keep)]
            builder.seen().subset_of(keep) implies ({
            &&& node.shown(keep) == before.shown(keep)
            &&& scanned(
                right_step,
                below_items(
                    before->left.shown(keep),
                    before->right.shown(keep),
                    prefix@ + sk,
                    crate::mrt::tree::bound(from_left),
                    crate::mrt::tree::bound(from_right),
                    skip_left,
                ),
                stop@,
                rows0,
                rows_view(out@),
            )
        }) by {
            assert(seen1.subset_of(keep));
            let l = before->left.shown(keep);
            let rr = before->right.shown(keep);
            assert(node->left.shown(keep) == l);
            assert(node->right.shown(keep) == rr);
            if !skip_left {
                if let Ok(a) = part_items(l, pl, crate::mrt::tree::bound(from_left)) {
                    lemma_drain_add(a, flat(rr, pr), stop@);
                    let x = drain(a, stop@);
                    let y = drain(flat(rr, pr), stop@);
                    assert(rows0 + x.rows + y.rows =~= rows0 + (x.rows + y.rows));
                }
            }
        }
    }
    right_step
}

/// What a read does: it visits what it needs, and changes nothing that is shown.
pub open spec fn looked(
    before: Option<Box<MrtVerifyNode>>,
    after: Option<Box<MrtVerifyNode>>,
    seen_before: Set<Seq<bool>>,
    seen_after: Set<Seq<bool>>,
) -> bool {
    &&& seen_before.subset_of(seen_after)
    &&& root_wf(after)
    &&& root_whole(after) == root_whole(before)
    &&& forall|keep: Set<Seq<bool>>|
        #![trigger root_shown(before, keep)]
        #![trigger root_shown(after, keep)]
        seen_after.subset_of(keep) ==> root_shown(after, keep) == root_shown(before, keep)
}

/// The value under `key`.
pub fn get_visiting(root: &mut Option<Box<MrtVerifyNode>>, builder: &mut MrtPartialBuilder, key: &[u8]) -> (r: Result<
    Option<Vec<u8>>,
    Error,
>)
    requires
        root_wf(*old(root)),
    ensures
        looked(*old(root), *final(root), old(builder).seen(), final(builder).seen()),
        forall|keep: Set<Seq<bool>>|
            #![trigger root_shown(*old(root), keep)]
            final(builder).seen().subset_of(keep) ==> got(r, find_root(root_shown(*old(root), keep), key@)),
        forall|keep: Set<Seq<bool>>|
            #![trigger root_shown(*old(root), keep)]
            needed(
                old(builder).seen(),
                final(builder).seen(),
                keep,
                find_root(root_shown(*old(root), keep), key@) is Ok,
            ),
        key@.len() > MAX_KEY_LEN ==> final(builder).seen() == old(builder).seen(),
{
    let ghost before = *root;
    match validate_key_len(key, "trace get") {
        Ok(_) => {},
        Err(e) => {
            return Err(e);
        },
    }
    let r = match root {
        Some(node) => get_at(&mut **node, builder, 0, key),
        None => Ok(None),
    };
    proof {
        assert forall|keep: Set<Seq<bool>>|
            #![trigger root_shown(before, keep)]
            #![trigger root_shown(*root, keep)]
            builder.seen().subset_of(keep) implies root_shown(*root, keep) == root_shown(before, keep) && got(
            r,
            find_root(root_shown(before, keep), key@),
        ) by {
            if before is Some {
                let x = before->0.shown(keep);
            }
        }
    }
    r
}

/// Scans from `start` on until the scan stops.
pub fn scan_visiting(
    root: &mut Option<Box<MrtVerifyNode>>,
    builder: &mut MrtPartialBuilder,
    start: &[u8],
    stop: Stop<'_>,
) -> (r: Result<Vec<(Vec<u8>, Vec<u8>)>, Error>)
    requires
        root_wf(*old(root)),
        start@.len() <= MAX_KEY_LEN,
    ensures
        looked(*old(root), *final(root), old(builder).seen(), final(builder).seen()),
        forall|keep: Set<Seq<bool>>|
            #![trigger root_shown(*old(root), keep)]
            final(builder).seen().subset_of(keep) ==> gives(
                r,
                scan_root(root_shown(*old(root), keep), route(start@), stop@),
            ),
        forall|keep: Set<Seq<bool>>|
            #![trigger root_shown(*old(root), keep)]
            needed(
                old(builder).seen(),
                final(builder).seen(),
                keep,
                scan_root(root_shown(*old(root), keep), route(start@), stop@) is Ok,
            ),
{
    let ghost before = *root;
    let mut out: Vec<(Vec<u8>, Vec<u8>)> = Vec::new();
    assert(rows_view(out@) =~= Seq::empty());
    let prefix = RoutePrefix::root();
    let step: Result<bool, Error> = match root {
        Some(node) => scan_at(&mut **node, builder, &prefix, Some(start), stop, &mut out),
        None => Ok(false),
    };
    let r = match step {
        Ok(_) => Ok(out),
        Err(e) => Err(e),
    };
    proof {
        assert forall|keep: Set<Seq<bool>>|
            #![trigger root_shown(before, keep)]
            #![trigger root_shown(*root, keep)]
            builder.seen().subset_of(keep) implies root_shown(*root, keep) == root_shown(before, keep) && gives(
            r,
            scan_root(root_shown(before, keep), route(start@), stop@),
        ) by {
            if before is Some {
                let x = before->0.shown(keep);
                if let Ok(items) = from_bound(x, Seq::empty(), route(start@)) {
                    let d = drain(items, stop@).rows;
                    assert(Seq::<(Seq<u8>, Seq<u8>)>::empty() + d =~= d);
                }
            }
        }
    }
    r
}

} // verus!
