//! The verifier's side: a trace, read and replayed.

use std::sync::Arc;

use vstd::prelude::*;

use crate::bits::key_copy;
use crate::error::{Error, Fault};
use crate::hash::{same_hash, NodeHash};
use crate::mrt::cursor::{self, end_view, got, read_prefix, read_range};
use crate::mrt::model::Trie;
use crate::mrt::node::{checked_branch_depth_below, compute_branch_hash, compute_leaf_hash, share, MrtNode, MrtNodeInner};
use crate::mrt::prefix::{validate_move_prefix_args, Voice};
use crate::mrt::prune::MrtPartialBuilder;
use crate::mrt::route::MAX_KEY_LEN;
use crate::mrt::scan::gives;
use crate::mrt::session::{lemma_failed_steps, step_change, step_changes};
use crate::mrt::store::{apply_change, apply_changes, hash_of, lemma_failed_prefix, validate_batch_ops,
    validate_mrt_apply_batch};
use crate::mrt::trace::{lemma_pruned_tail, Trace};
use crate::mrt::tree::find_root;
use crate::mrt::verify_node::{lemma_settled, MrtVerifyNode};
use crate::mrt::wire::{lemma_as_hash, parse, parse_root, TraceReader as WireReader, MAX_MRT_TRACE_DECODE_DEPTH};
use crate::mrt::working::{delete, delete_prefix, delete_range, did_root, insert, move_prefix, rehash_root, root_settled,
    root_shown, root_wf, root_whole, wrote};
use crate::ops::{batch_changes, batch_op_changes, batch_ordered, entry_change, write_changes, Batch, Change, Op};
use crate::text::{told, told_after, told_count, told_number, told_numbers};
use crate::tracer::{BatchOp, TraceInterface, TraceReader, WriteOp};

verus! {

/// A copy of a node with all below it.
fn copy_node(node: &MrtVerifyNode) -> (r: Box<MrtVerifyNode>)
    requires
        node.wf(),
    ensures
        r.wf(),
        r.whole() == node.whole(),
        node.settled() ==> r.settled(),
    decreases node,
{
    Box::new(
        match node {
            MrtVerifyNode::Leaf { skip, value, hash_cache } => MrtVerifyNode::Leaf {
                skip: skip.clone(),
                value: key_copy(value.as_slice()),
                hash_cache: *hash_cache,
            },
            MrtVerifyNode::Branch { skip, left, right, hash_cache, depth_below } => MrtVerifyNode::Branch {
                skip: skip.clone(),
                left: copy_node(&**left),
                right: copy_node(&**right),
                hash_cache: *hash_cache,
                depth_below: *depth_below,
            },
            MrtVerifyNode::PrunedHash(hash, depth_below) => MrtVerifyNode::PrunedHash(*hash, *depth_below),
            MrtVerifyNode::Unvisited { node, place } => MrtVerifyNode::Unvisited {
                node: share(node),
                place: copy_place(place),
            },
        },
    )
}

fn copy_place(place: &Vec<bool>) -> (r: Vec<bool>)
    ensures
        r@ == place@,
{
    let mut r: Vec<bool> = Vec::new();
    let mut i: usize = 0;
    while i < place.len()
        invariant
            i <= place@.len(),
            r@ == place@.take(i as int),
        decreases place@.len() - i,
    {
        r.push(place[i]);
        assert(place@.take(i + 1) =~= place@.take(i as int).push(place@[i as int]));
        i = i + 1;
    }
    assert(place@.take(place@.len() as int) =~= place@);
    r
}

/// A node of a trace, with all below it, in a form that can be changed.
fn node_from_arc(node: &Arc<MrtNodeInner>) -> (r: Box<MrtVerifyNode>)
    ensures
        r.wf(),
        r.settled(),
        r.whole() == node.trie(),
    decreases node.trie(),
{
    let hash_cache: Option<NodeHash> = Some(node.hash());
    let depth_below: u16 = node.depth_below();
    Box::new(
        match node.node() {
            MrtNode::Leaf { skip, value } => MrtVerifyNode::Leaf {
                skip: skip.clone(),
                value: key_copy(value.as_slice()),
                hash_cache,
            },
            MrtNode::Branch { skip, left, right } => MrtVerifyNode::Branch {
                skip: skip.clone(),
                left: node_from_arc(left),
                right: node_from_arc(right),
                hash_cache,
                depth_below,
            },
            MrtNode::PrunedHash => MrtVerifyNode::PrunedHash(node.hash(), depth_below),
        },
    )
}

/// The hash of a node whose hash is cached.
fn verify_node_hash(node: &MrtVerifyNode) -> (hash: NodeHash)
    requires
        node.wf(),
        hash_known(*node),
    ensures
        hash == node.whole().hash(),
{
    match node {
        MrtVerifyNode::Leaf { skip, value, hash_cache } => match hash_cache {
            Some(hash) => *hash,
            None => compute_leaf_hash(skip, value.as_slice()),
        },
        MrtVerifyNode::Branch { skip, left, right, hash_cache, depth_below } => match hash_cache {
            Some(hash) => *hash,
            None => crate::hash::NULL_HASH,
        },
        MrtVerifyNode::PrunedHash(hash, _) => *hash,
        MrtVerifyNode::Unvisited { node, place } => node.hash(),
    }
}

/// Whether the hash of a node is at hand.
pub open spec fn hash_known(node: MrtVerifyNode) -> bool {
    match node {
        MrtVerifyNode::Leaf { skip, value, hash_cache } => hash_cache is Some,
        MrtVerifyNode::Branch { skip, left, right, hash_cache, depth_below } => hash_cache is Some,
        _ => true,
    }
}

/// Whether reading a node gave what the model gives.
pub open spec fn reads_node(r: Result<Box<MrtVerifyNode>, Error>, m: Result<(Trie, Seq<u8>), Fault>, rest: Seq<u8>) -> bool {
    match (r, m) {
        (Ok(node), Ok((t, after))) => node.wf() && node.settled() && hash_known(*node) && node.whole() == t && rest
            == after,
        (Err(e), Err(f)) => e.fault() == f,
        _ => false,
    }
}

/// Reads a node whose tag was read already.
fn decode_trace_node(tag: u8, reader: &mut WireReader<'_>, depth: usize) -> (r: Result<Box<MrtVerifyNode>, Error>)
    requires
        depth <= MAX_MRT_TRACE_DECODE_DEPTH + 1,
    ensures
        reads_node(r, parse(seq![tag] + old(reader).rest(), depth as nat), final(reader).rest()),
    decreases MAX_MRT_TRACE_DECODE_DEPTH + 1 - depth, 0int,
{
    let ghost b = reader.rest();
    let ghost whole = seq![tag] + b;
    assert(whole.skip(1) =~= b);
    if depth > MAX_MRT_TRACE_DECODE_DEPTH {
        return Err(Error::Proof(told_numbers("MRT trace depth ", depth as u64, " exceeds limit ", MAX_MRT_TRACE_DECODE_DEPTH as u64)));
    }
    if tag == 1 {
        let skip = match reader.read_skip() {
            Ok(skip) => skip,
            Err(e) => {
                return Err(e);
            },
        };
        let ghost r1 = reader.rest();
        let value_len: usize = match reader.read_u32() {
            Ok(n) => n as usize,
            Err(e) => {
                return Err(e);
            },
        };
        let value: Vec<u8> = match reader.read_bytes(value_len) {
            Ok(v) => key_copy(v),
            Err(e) => {
                return Err(e);
            },
        };
        proof {
            let n = value_len as int;
            assert(r1.skip(4).take(n) =~= r1.subrange(4, 4 + n));
            assert(r1.skip(4).skip(n) =~= r1.skip(4 + n));
        }
        let hash: NodeHash = compute_leaf_hash(&skip, value.as_slice());
        let _n: u16 = skip.bit_len();
        Ok(Box::new(MrtVerifyNode::Leaf { skip, value, hash_cache: Some(hash) }))
    } else if tag == 2 {
        let skip = match reader.read_skip() {
            Ok(skip) => skip,
            Err(e) => {
                return Err(e);
            },
        };
        let left = match read_trace_node(reader, depth + 1) {
            Ok(node) => node,
            Err(e) => {
                return Err(e);
            },
        };
        let right = match read_trace_node(reader, depth + 1) {
            Ok(node) => node,
            Err(e) => {
                return Err(e);
            },
        };
        let l_depth: u16 = left.depth_below();
        let r_depth: u16 = right.depth_below();
        let hash: NodeHash = compute_branch_hash(
            &verify_node_hash(&left),
            &verify_node_hash(&right),
            l_depth,
            r_depth,
            &skip,
        );
        match checked_branch_depth_below(skip.bit_len(), l_depth, r_depth) {
            Ok(depth_below) => Ok(
                Box::new(MrtVerifyNode::Branch { skip, left, right, hash_cache: Some(hash), depth_below }),
            ),
            Err(e) => Err(e),
        }
    } else if tag == 3 {
        let hash: NodeHash = match reader.read_hash() {
            Ok(hash) => hash,
            Err(e) => {
                return Err(e);
            },
        };
        let depth_below: u16 = match reader.read_depth() {
            Ok(n) => n,
            Err(e) => {
                proof {
                    lemma_pruned_tail(whole, b);
                }
                return Err(e);
            },
        };
        proof {
            lemma_pruned_tail(whole, b);
            assert(whole.subrange(1, 33) =~= b.take(32));
            lemma_as_hash(hash);
            assert(whole.skip(37) =~= b.skip(32).skip(4));
        }
        Ok(Box::new(MrtVerifyNode::PrunedHash(hash, depth_below)))
    } else {
        Err(Error::Proof(told_count("MRT trace invalid node tag ", tag as u64)))
    }
}

/// Reads a node.
fn read_trace_node(reader: &mut WireReader<'_>, depth: usize) -> (r: Result<Box<MrtVerifyNode>, Error>)
    requires
        depth <= MAX_MRT_TRACE_DECODE_DEPTH + 1,
    ensures
        reads_node(r, parse(old(reader).rest(), depth as nat), final(reader).rest()),
    decreases MAX_MRT_TRACE_DECODE_DEPTH + 1 - depth, 1int,
{
    let ghost b = reader.rest();
    match reader.read_u8() {
        Ok(tag) => {
            assert(b =~= seq![tag] + reader.rest());
            decode_trace_node(tag, reader, depth)
        },
        Err(e) => Err(e),
    }
}

/// A trie that is read and changed in place.
#[derive(Debug)]
pub struct MrtVerifyTree {
    root: Option<Box<MrtVerifyNode>>,
}

impl MrtVerifyTree {
    #[verifier::type_invariant]
    spec fn inv(self) -> bool {
        root_wf(self.root) && root_settled(self.root)
    }

    /// The trie, unless it is empty.
    pub closed spec fn trie(&self) -> Option<Trie> {
        root_whole(self.root)
    }

    /// The trie of a trace.
    pub fn from_trace(trace: &Trace) -> (r: Self)
        ensures
            r.trie() == trace.trie(),
    {
        match &trace.0 {
            Some(node) => MrtVerifyTree { root: Some(node_from_arc(node)) },
            None => MrtVerifyTree { root: None },
        }
    }

    /// Reads a trace from its byte form, which must fill `bytes`.
    pub fn decode_trace(bytes: &[u8]) -> (r: Result<Self, Error>)
        ensures
            match (r, parse_root(bytes@)) {
                (Ok(tree), Ok(t)) => tree.trie() == t,
                (Err(e), Err(f)) => e.fault() == f,
                _ => false,
            },
    {
        let mut reader = WireReader::new(bytes);
        let tag: u8 = match reader.read_u8() {
            Ok(tag) => tag,
            Err(e) => {
                return Err(e);
            },
        };
        assert(bytes@ =~= seq![tag] + reader.rest());
        let root: Option<Box<MrtVerifyNode>> = if tag == 0 {
            None
        } else if tag == 3 {
            return Err(Error::Proof(told("MRT trace root must be a materialized node or empty, not a pruned stub")));
        } else {
            match decode_trace_node(tag, &mut reader, 0) {
                Ok(node) => Some(node),
                Err(e) => {
                    return Err(e);
                },
            }
        };
        if reader.remaining() != 0 {
            return Err(Error::Proof(told_number("MRT trace has ", reader.remaining() as u64, " trailing byte(s)")));
        }
        Ok(MrtVerifyTree { root })
    }

    /// Takes the root out, which leaves the tree empty.
    fn take_root(&mut self) -> (r: Option<Box<MrtVerifyNode>>)
        ensures
            root_whole(r) == old(self).trie(),
            root_wf(r),
            root_settled(r),
            final(self).trie() is None,
    {
        let mut taken = MrtVerifyTree { root: None };
        std::mem::swap(self, &mut taken);
        proof {
            use_type_invariant(&taken);
        }
        taken.root
    }

    /// The root hash: that of the trie, or all zeros if it is empty.
    pub fn root_hash(&mut self) -> (hash: NodeHash)
        ensures
            hash == hash_of(old(self).trie()),
            final(self).trie() == old(self).trie(),
    {
        let mut root = self.take_root();
        let hash: NodeHash = rehash_root(&mut root);
        *self = MrtVerifyTree { root };
        hash
    }

    /// Refuses a root hash other than `expected`.
    pub fn verify_root(&mut self, expected: NodeHash) -> (r: Result<(), Error>)
        ensures
            final(self).trie() == old(self).trie(),
            match r {
                Ok(_) => hash_of(old(self).trie()) == expected,
                Err(e) => hash_of(old(self).trie()) != expected && e == Error::HashMismatch(
                    expected,
                    hash_of(old(self).trie()),
                ),
            },
    {
        let actual: NodeHash = self.root_hash();
        if same_hash(&actual, &expected) {
            Ok(())
        } else {
            Err(Error::HashMismatch(expected, actual))
        }
    }

    /// The root node, unless the trie is empty.
    pub fn root(&self) -> (r: Option<&MrtVerifyNode>)
        ensures
            match r {
                Some(node) => node.wf() && node.settled() && self.trie() == Some(node.whole()),
                None => self.trie() is None,
            },
    {
        proof {
            use_type_invariant(self);
        }
        match &self.root {
            Some(node) => Some(&**node),
            None => None,
        }
    }

    /// A handle to the root for walks.
    fn nav(&self) -> (r: Option<&MrtVerifyNode>)
        ensures
            cursor::nav_root(r) == self.trie(),
            cursor::shallow(self.trie()),
    {
        proof {
            use_type_invariant(self);
            if self.root is Some {
                lemma_settled(*self.root->0, Set::empty());
            }
        }
        match &self.root {
            Some(node) => Some(&**node),
            None => None,
        }
    }

    /// The value under `key`.
    pub fn get(&self, key: &[u8]) -> (r: Result<Option<Vec<u8>>, Error>)
        ensures
            got(r, find_root(self.trie(), key@)),
    {
        cursor::point_get(self.nav(), key)
    }

    /// The entries from `start` up to but not including `end`.
    pub fn collect_range(&self, start: &[u8], end: Option<&[u8]>) -> (r: Result<Vec<(Vec<u8>, Vec<u8>)>, Error>)
        ensures
            gives(r, read_range(self.trie(), start@, end_view(end))),
    {
        cursor::collect_range(self.nav(), start, end)
    }

    /// The entries whose keys begin with `prefix`.
    pub fn collect_prefix(&self, prefix: &[u8]) -> (r: Result<Vec<(Vec<u8>, Vec<u8>)>, Error>)
        ensures
            gives(r, read_prefix(self.trie(), prefix@)),
    {
        cursor::collect_prefix(self.nav(), prefix)
    }

    /// Does the writes of a sorted batch. A batch that is not well formed
    /// changes nothing; a write that fails leaves the tree empty.
    pub fn replay(&mut self, batch: &Batch) -> (r: Result<(), Error>)
        ensures
            match r {
                Ok(_) => batch_ordered(batch_changes(batch@), MAX_KEY_LEN as nat) && apply_changes(
                    old(self).trie(),
                    batch_changes(batch@),
                    true,
                ) == Ok::<Option<Trie>, Fault>(final(self).trie()),
                Err(e) => if batch_ordered(batch_changes(batch@), MAX_KEY_LEN as nat) {
                    &&& apply_changes(old(self).trie(), batch_changes(batch@), true) == Err::<Option<Trie>, Fault>(e.fault())
                    &&& final(self).trie() is None
                } else {
                    e.fault() == Fault::BatchKey && final(self).trie() == old(self).trie()
                },
            },
    {
        match validate_mrt_apply_batch(batch) {
            Ok(_) => {},
            Err(e) => {
                return Err(e);
            },
        }
        let root = self.take_root();
        match replay_root(root, batch) {
            Ok(root) => {
                *self = MrtVerifyTree { root };
                Ok(())
            },
            Err(e) => Err(e),
        }
    }

    /// Does the writes of a batch that was found to be well formed. A write
    /// that fails leaves the tree empty.
    fn replay_batch_ops_unchecked(&mut self, ops: &[BatchOp]) -> (r: Result<(), Error>)
        ensures
            match r {
                Ok(_) => apply_changes(old(self).trie(), batch_op_changes(ops@), true) == Ok::<Option<Trie>, Fault>(
                    final(self).trie(),
                ),
                Err(e) => apply_changes(old(self).trie(), batch_op_changes(ops@), true) == Err::<Option<Trie>, Fault>(
                    e.fault(),
                ) && final(self).trie() is None,
            },
    {
        let mut root = self.take_root();
        match replay_batch_ops_in_root(&mut root, ops) {
            Ok(_) => {
                *self = MrtVerifyTree { root };
                Ok(())
            },
            Err(e) => Err(e),
        }
    }

    /// Renames every key that begins with `from` to begin with `to`. On an
    /// error the tree is left empty.
    pub fn move_prefix(&mut self, from: &[u8], to: &[u8]) -> (r: Result<(), Error>)
        ensures
            match r {
                Ok(_) => apply_change(old(self).trie(), Change::MovePrefix { from: from@, to: to@ }, true) == Ok::<
                    Option<Trie>,
                    Fault,
                >(final(self).trie()),
                Err(e) => apply_change(old(self).trie(), Change::MovePrefix { from: from@, to: to@ }, true) == Err::<
                    Option<Trie>,
                    Fault,
                >(e.fault()) && final(self).trie() is None,
            },
    {
        let mut root = self.take_root();
        let ghost before = root;
        let mut builder = MrtPartialBuilder::new();
        let r = move_prefix(&mut root, &mut builder, from, to, Voice::Replay);
        proof {
            lemma_wrote_settled(r, Change::MovePrefix { from: from@, to: to@ }, before, root, builder.seen());
        }
        match r {
            Ok(_) => {
                *self = MrtVerifyTree { root };
                Ok(())
            },
            Err(e) => Err(e),
        }
    }

    /// Removes the keys that begin with `prefix`. On an error the tree is left
    /// empty.
    pub fn delete_prefix(&mut self, prefix: &[u8]) -> (r: Result<(), Error>)
        ensures
            match r {
                Ok(_) => apply_change(old(self).trie(), Change::DeletePrefix { prefix: prefix@ }, true) == Ok::<
                    Option<Trie>,
                    Fault,
                >(final(self).trie()),
                Err(e) => apply_change(old(self).trie(), Change::DeletePrefix { prefix: prefix@ }, true) == Err::<
                    Option<Trie>,
                    Fault,
                >(e.fault()) && final(self).trie() is None,
            },
    {
        let mut root = self.take_root();
        let ghost before = root;
        let mut builder = MrtPartialBuilder::new();
        let r = delete_prefix(&mut root, &mut builder, prefix, Voice::Replay);
        proof {
            lemma_wrote_settled(r, Change::DeletePrefix { prefix: prefix@ }, before, root, builder.seen());
        }
        match r {
            Ok(_) => {
                *self = MrtVerifyTree { root };
                Ok(())
            },
            Err(e) => Err(e),
        }
    }
}

/// What a write does where nothing waits to be visited.
proof fn lemma_wrote_settled(
    r: Result<(), Error>,
    c: Change,
    before: Option<Box<MrtVerifyNode>>,
    after: Option<Box<MrtVerifyNode>>,
    seen: Set<Seq<bool>>,
)
    requires
        root_settled(before),
        wrote(r, c, before, after, Set::empty(), seen),
    ensures
        did_root(r, apply_change(root_whole(before), c, true), root_whole(after)),
{
    let keep = Set::<Seq<bool>>::full();
    assert(seen.subset_of(keep));
    assert(did_root(r, apply_change(root_shown(before, keep), c, true), root_shown(after, keep)));
    if let Some(n) = before {
        lemma_settled(*n, keep);
    }
    if let Some(n) = after {
        crate::mrt::verify_node::lemma_shown_full(*n);
    }
}

/// Does the writes of a batch one after the other.
fn replay_root(root: Option<Box<MrtVerifyNode>>, batch: &Batch) -> (r: Result<Option<Box<MrtVerifyNode>>, Error>)
    requires
        root_wf(root),
        root_settled(root),
    ensures
        match r {
            Ok(after) => root_wf(after) && root_settled(after) && apply_changes(
                root_whole(root),
                batch_changes(batch@),
                true,
            ) == Ok::<Option<Trie>, Fault>(root_whole(after)),
            Err(e) => apply_changes(root_whole(root), batch_changes(batch@), true) == Err::<Option<Trie>, Fault>(
                e.fault(),
            ),
        },
{
    let ghost start = root_whole(root);
    let ghost cs = batch_changes(batch@);
    let mut candidate = root;
    let mut i: usize = 0;
    assert(cs.take(0) =~= Seq::empty());
    while i < batch.len()
        invariant
            i <= batch@.len(),
            cs == batch_changes(batch@),
            start == root_whole(root),
            root_wf(candidate),
            root_settled(candidate),
            apply_changes(start, cs.take(i as int), true) == Ok::<Option<Trie>, Fault>(root_whole(candidate)),
        decreases batch@.len() - i,
    {
        let entry = &batch[i];
        let ghost before = candidate;
        let ghost c = cs[i as int];
        proof {
            assert(cs.take(i + 1).drop_last() =~= cs.take(i as int));
            assert(c == entry_change(batch@[i as int]));
        }
        let mut builder = MrtPartialBuilder::new();
        let step: Result<(), Error> = match &entry.1 {
            Op::Put(value) => insert(
                &mut candidate,
                &mut builder,
                entry.0.as_slice(),
                key_copy(value.as_slice()),
                Voice::Replay,
            ),
            Op::Delete => match delete(&mut candidate, &mut builder, entry.0.as_slice(), Voice::Replay) {
                Ok(_) => Ok(()),
                Err(e) => Err(e),
            },
            Op::DeleteRange(end) => delete_range(
                &mut candidate,
                &mut builder,
                entry.0.as_slice(),
                end.as_slice(),
                Voice::Replay,
            ),
        };
        proof {
            lemma_wrote_settled(step, c, before, candidate, builder.seen());
        }
        match step {
            Ok(_) => {},
            Err(e) => {
                proof {
                    lemma_failed_prefix(start, cs, i + 1, true);
                }
                return Err(e);
            },
        }
        i = i + 1;
    }
    assert(cs.take(cs.len() as int) =~= cs);
    Ok(candidate)
}

/// Does the writes of a batch one after the other, in place.
fn replay_batch_ops_in_root(root: &mut Option<Box<MrtVerifyNode>>, ops: &[BatchOp]) -> (r: Result<(), Error>)
    requires
        root_wf(*old(root)),
        root_settled(*old(root)),
    ensures
        match r {
            Ok(_) => root_wf(*final(root)) && root_settled(*final(root)) && apply_changes(
                root_whole(*old(root)),
                batch_op_changes(ops@),
                true,
            ) == Ok::<Option<Trie>, Fault>(root_whole(*final(root))),
            Err(e) => apply_changes(root_whole(*old(root)), batch_op_changes(ops@), true) == Err::<Option<Trie>, Fault>(
                e.fault(),
            ),
        },
{
    let ghost start = root_whole(*root);
    let ghost cs = batch_op_changes(ops@);
    let mut i: usize = 0;
    assert(cs.take(0) =~= Seq::empty());
    while i < ops.len()
        invariant
            i <= ops@.len(),
            cs == batch_op_changes(ops@),
            start == root_whole(*old(root)),
            root_wf(*root),
            root_settled(*root),
            apply_changes(start, cs.take(i as int), true) == Ok::<Option<Trie>, Fault>(root_whole(*root)),
        decreases ops@.len() - i,
    {
        let ghost before = *root;
        let ghost c = cs[i as int];
        proof {
            assert(cs.take(i + 1).drop_last() =~= cs.take(i as int));
            assert(c == ops@[i as int]@);
        }
        let mut builder = MrtPartialBuilder::new();
        let step: Result<(), Error> = match &ops[i] {
            BatchOp::Put { key, value } => insert(
                root,
                &mut builder,
                key.as_slice(),
                key_copy(value.as_slice()),
                Voice::Replay,
            ),
            BatchOp::Delete { key } => match delete(root, &mut builder, key.as_slice(), Voice::Replay) {
                Ok(_) => Ok(()),
                Err(e) => Err(e),
            },
            BatchOp::DeleteRange { start, end } => delete_range(
                root,
                &mut builder,
                start.as_slice(),
                end.as_slice(),
                Voice::Replay,
            ),
        };
        proof {
            lemma_wrote_settled(step, c, before, *root, builder.seen());
        }
        match step {
            Ok(_) => {},
            Err(e) => {
                proof {
                    lemma_failed_prefix(start, cs, i + 1, true);
                }
                return Err(e);
            },
        }
        i = i + 1;
    }
    assert(cs.take(cs.len() as int) =~= cs);
    Ok(())
}

impl Clone for MrtVerifyTree {
    fn clone(&self) -> (r: Self)
        ensures
            r.trie() == self.trie(),
    {
        proof {
            use_type_invariant(self);
        }
        match &self.root {
            Some(node) => MrtVerifyTree { root: Some(copy_node(&**node)) },
            None => MrtVerifyTree { root: None },
        }
    }
}

impl Default for MrtVerifyTree {
    fn default() -> (r: Self)
        ensures
            r.trie() is None,
    {
        MrtVerifyTree { root: None }
    }
}

/// Reads a trace, and replays writes on it.
#[derive(Debug)]
pub struct TraceVerifier {
    inner: MrtVerifyTree,
}

impl TraceVerifier {
    /// The trie as the writes so far have left it, unless it is empty.
    pub closed spec fn trie(&self) -> Option<Trie> {
        self.inner.trie()
    }

    /// Over a trace.
    pub fn from_trace(trace: &Trace) -> (r: Self)
        ensures
            r.trie() == trace.trie(),
    {
        TraceVerifier { inner: MrtVerifyTree::from_trace(trace) }
    }

    /// Over a trace in its byte form, which must fill `bytes`.
    pub fn decode_trace(bytes: &[u8]) -> (r: Result<Self, Error>)
        ensures
            match (r, parse_root(bytes@)) {
                (Ok(verifier), Ok(t)) => verifier.trie() == t,
                (Err(e), Err(f)) => e.fault() == f,
                _ => false,
            },
    {
        match MrtVerifyTree::decode_trace(bytes) {
            Ok(inner) => Ok(TraceVerifier { inner }),
            Err(e) => Err(e),
        }
    }

    /// Refuses a root hash other than `expected`.
    pub fn verify_root(&mut self, expected: NodeHash) -> (r: Result<(), Error>)
        ensures
            final(self).trie() == old(self).trie(),
            match r {
                Ok(_) => hash_of(old(self).trie()) == expected,
                Err(e) => hash_of(old(self).trie()) != expected && e == Error::HashMismatch(
                    expected,
                    hash_of(old(self).trie()),
                ),
            },
    {
        self.inner.verify_root(expected)
    }

    /// The root hash as the writes so far have left it.
    pub fn root_hash(&mut self) -> (r: Result<NodeHash, Error>)
        ensures
            final(self).trie() == old(self).trie(),
            r == Ok::<NodeHash, Error>(hash_of(old(self).trie())),
    {
        Ok(self.inner.root_hash())
    }

    /// The value under `key`.
    pub fn get(&self, key: &[u8]) -> (r: Result<Option<Vec<u8>>, Error>)
        ensures
            got(r, find_root(self.trie(), key@)),
    {
        self.inner.get(key)
    }

    /// The entries from `start` up to but not including `end`.
    pub fn collect_range(&self, start: &[u8], end: Option<&[u8]>) -> (r: Result<Vec<(Vec<u8>, Vec<u8>)>, Error>)
        ensures
            gives(r, read_range(self.trie(), start@, end_view(end))),
    {
        self.inner.collect_range(start, end)
    }

    /// The entries whose keys begin with `prefix`.
    pub fn collect_prefix(&self, prefix: &[u8]) -> (r: Result<Vec<(Vec<u8>, Vec<u8>)>, Error>)
        ensures
            gives(r, read_prefix(self.trie(), prefix@)),
    {
        self.inner.collect_prefix(prefix)
    }

    /// Does a sorted batch of writes, all or none.
    pub fn replay_batch_ops(&mut self, ops: &[BatchOp]) -> (r: Result<(), Error>)
        ensures
            match r {
                Ok(_) => batch_ordered(batch_op_changes(ops@), MAX_KEY_LEN as nat) && apply_changes(
                    old(self).trie(),
                    batch_op_changes(ops@),
                    true,
                ) == Ok::<Option<Trie>, Fault>(final(self).trie()),
                Err(e) => {
                    &&& final(self).trie() == old(self).trie()
                    &&& if batch_ordered(batch_op_changes(ops@), MAX_KEY_LEN as nat) {
                        apply_changes(old(self).trie(), batch_op_changes(ops@), true) == Err::<Option<Trie>, Fault>(
                            e.fault(),
                        )
                    } else {
                        e.fault() == Fault::BatchKey
                    }
                },
            },
    {
        match validate_batch_ops(ops) {
            Ok(_) => {},
            Err(e) => {
                return Err(e);
            },
        }
        let mut candidate = self.inner.clone();
        match candidate.replay_batch_ops_unchecked(ops) {
            Ok(_) => {
                self.inner = candidate;
                Ok(())
            },
            Err(e) => Err(e),
        }
    }

    /// As [`TraceVerifier::replay_batch_ops`], but without a copy: a write that
    /// fails leaves nothing to go on with.
    pub fn replay_batch_ops_in_place(&mut self, ops: &[BatchOp]) -> (r: Result<(), Error>)
        ensures
            match r {
                Ok(_) => batch_ordered(batch_op_changes(ops@), MAX_KEY_LEN as nat) && apply_changes(
                    old(self).trie(),
                    batch_op_changes(ops@),
                    true,
                ) == Ok::<Option<Trie>, Fault>(final(self).trie()),
                Err(e) => if batch_ordered(batch_op_changes(ops@), MAX_KEY_LEN as nat) {
                    &&& apply_changes(old(self).trie(), batch_op_changes(ops@), true) == Err::<Option<Trie>, Fault>(
                        e.fault(),
                    )
                    &&& final(self).trie() is None
                } else {
                    e.fault() == Fault::BatchKey && final(self).trie() == old(self).trie()
                },
            },
    {
        match validate_batch_ops(ops) {
            Ok(_) => {},
            Err(e) => {
                return Err(e);
            },
        }
        self.inner.replay_batch_ops_unchecked(ops)
    }

    /// Renames every key that begins with `from` to begin with `to`; on an
    /// error nothing changes.
    pub fn move_prefix(&mut self, from: &[u8], to: &[u8]) -> (r: Result<(), Error>)
        ensures
            match r {
                Ok(_) => apply_change(old(self).trie(), Change::MovePrefix { from: from@, to: to@ }, true) == Ok::<
                    Option<Trie>,
                    Fault,
                >(final(self).trie()),
                Err(e) => apply_change(old(self).trie(), Change::MovePrefix { from: from@, to: to@ }, true) == Err::<
                    Option<Trie>,
                    Fault,
                >(e.fault()) && final(self).trie() == old(self).trie(),
            },
    {
        match validate_move_prefix_args(from, to) {
            Ok(_) => {},
            Err(e) => {
                return Err(e);
            },
        }
        let mut candidate = self.inner.clone();
        match candidate.move_prefix(from, to) {
            Ok(_) => {
                self.inner = candidate;
                Ok(())
            },
            Err(e) => Err(e),
        }
    }

    /// As [`TraceVerifier::move_prefix`], but without a copy: an error leaves
    /// nothing to go on with.
    pub fn move_prefix_in_place(&mut self, from: &[u8], to: &[u8]) -> (r: Result<(), Error>)
        ensures
            match r {
                Ok(_) => apply_change(old(self).trie(), Change::MovePrefix { from: from@, to: to@ }, true) == Ok::<
                    Option<Trie>,
                    Fault,
                >(final(self).trie()),
                Err(e) => apply_change(old(self).trie(), Change::MovePrefix { from: from@, to: to@ }, true) == Err::<
                    Option<Trie>,
                    Fault,
                >(e.fault()) && final(self).trie() is None,
            },
    {
        self.inner.move_prefix(from, to)
    }

    /// Removes the keys that begin with `prefix`; an error leaves nothing to go
    /// on with.
    fn delete_prefix_in_place(&mut self, prefix: &[u8]) -> (r: Result<(), Error>)
        ensures
            match r {
                Ok(_) => apply_change(old(self).trie(), Change::DeletePrefix { prefix: prefix@ }, true) == Ok::<
                    Option<Trie>,
                    Fault,
                >(final(self).trie()),
                Err(e) => apply_change(old(self).trie(), Change::DeletePrefix { prefix: prefix@ }, true) == Err::<
                    Option<Trie>,
                    Fault,
                >(e.fault()) && final(self).trie() is None,
            },
    {
        self.inner.delete_prefix(prefix)
    }

    /// Does a write of a batch on its own.
    fn replay_one(&mut self, op: BatchOp) -> (r: Result<(), Error>)
        requires
            op@ is Put || op@ is Delete || op@ is DeleteRange,
        ensures
            match (r, step_change(old(self).trie(), op@)) {
                (Ok(_), Ok(t)) => final(self).trie() == t,
                (Err(e), Err(f)) => e.fault() == f,
                _ => false,
            },
    {
        let mut ops: Vec<BatchOp> = Vec::new();
        ops.push(op);
        proof {
            let cs = batch_op_changes(ops@);
            assert(cs =~= seq![op@]);
            assert(cs[0] == op@);
            assert(cs.drop_last() =~= Seq::empty());
            assert(apply_changes(self.trie(), cs.drop_last(), true) == Ok::<Option<Trie>, Fault>(self.trie()));
            assert(apply_changes(self.trie(), cs, true) == apply_change(self.trie(), op@, true));
            assert(batch_ordered(cs, MAX_KEY_LEN as nat) == op@.fits_batch(MAX_KEY_LEN as nat));
        }
        self.replay_batch_ops_in_place(ops.as_slice())
    }

    /// Does a single write of a session.
    fn replay_step(&mut self, op: &WriteOp) -> (r: Result<(), Error>)
        ensures
            match (r, step_change(old(self).trie(), op@)) {
                (Ok(_), Ok(t)) => final(self).trie() == t,
                (Err(e), Err(f)) => e.fault() == f,
                _ => false,
            },
    {
        if let Some(entry) = op.as_batch_op() {
            return self.replay_one(entry);
        }
        match op {
            WriteOp::DeletePrefix { prefix } => self.delete_prefix_in_place(prefix.as_slice()),
            WriteOp::MovePrefix { from, to } => self.move_prefix_in_place(from.as_slice(), to.as_slice()),
            _ => Ok(()),
        }
    }
}

impl Clone for TraceVerifier {
    fn clone(&self) -> (r: Self)
        ensures
            r.trie() == self.trie(),
    {
        TraceVerifier { inner: self.inner.clone() }
    }
}

impl Default for TraceVerifier {
    fn default() -> (r: Self)
        ensures
            r.trie() is None,
    {
        TraceVerifier { inner: MrtVerifyTree::default() }
    }
}

/// Replays a session on a trace, which is bound to a root hash at the start.
/// Once a write has failed, the handle refuses all further use.
#[derive(Debug)]
pub struct TraceReplayer {
    verifier: TraceVerifier,
    poisoned: bool,
}

impl TraceReplayer {
    /// Over a trace in its byte form, which must have the root hash
    /// `expected_start_root`.
    pub fn new_verified(trace_bytes: &[u8], expected_start_root: NodeHash) -> (r: Result<Self, Error>)
        ensures
            match (r, parse_root(trace_bytes@)) {
                (Ok(replayer), Ok(t)) => hash_of(t) == expected_start_root && replayer.live() && replayer.current() == t,
                (Err(e), Ok(t)) => hash_of(t) != expected_start_root && e == Error::HashMismatch(
                    expected_start_root,
                    hash_of(t),
                ),
                (Err(e), Err(f)) => e.fault() == f,
                _ => false,
            },
    {
        let mut verifier = match TraceVerifier::decode_trace(trace_bytes) {
            Ok(verifier) => verifier,
            Err(e) => {
                return Err(e);
            },
        };
        match verifier.verify_root(expected_start_root) {
            Ok(_) => Ok(TraceReplayer { verifier, poisoned: false }),
            Err(e) => Err(e),
        }
    }

    /// Over a trace in its byte form, whatever its root hash is.
    pub fn new_unverified(trace_bytes: &[u8]) -> (r: Result<Self, Error>)
        ensures
            match (r, parse_root(trace_bytes@)) {
                (Ok(replayer), Ok(t)) => replayer.live() && replayer.current() == t,
                (Err(e), Err(f)) => e.fault() == f,
                _ => false,
            },
    {
        match TraceVerifier::decode_trace(trace_bytes) {
            Ok(verifier) => Ok(TraceReplayer { verifier, poisoned: false }),
            Err(e) => Err(e),
        }
    }

    /// Refuses use after a write has failed.
    fn reject_if_poisoned(&self, op: &str) -> (r: Result<(), Error>)
        ensures
            r is Ok <==> self.live(),
            r matches Err(e) ==> e.fault() == Fault::Poisoned && e.text() == op@
                + " on a poisoned MRT replayer (an earlier apply failed)"@,
    {
        if self.poisoned {
            return Err(Error::Poisoned(told_after(op, " on a poisoned MRT replayer (an earlier apply failed)")));
        }
        Ok(())
    }

    /// The root hash as the writes so far have left it.
    pub fn root_hash(&mut self) -> (r: Result<NodeHash, Error>)
        ensures
            final(self).live() == old(self).live(),
            final(self).current() == old(self).current(),
            match r {
                Ok(hash) => old(self).live() && hash == hash_of(old(self).current()),
                Err(e) => !old(self).live() && e.fault() == Fault::Poisoned,
            },
    {
        match self.reject_if_poisoned("root_hash") {
            Ok(_) => self.verifier.root_hash(),
            Err(e) => Err(e),
        }
    }
}

impl TraceReader for TraceReplayer {
    closed spec fn live(&self) -> bool {
        !self.poisoned
    }

    closed spec fn current(&self) -> Option<Trie> {
        self.verifier.trie()
    }

    fn get(&mut self, key: &[u8]) -> (r: Result<Option<Vec<u8>>, Error>) {
        match self.reject_if_poisoned("get") {
            Ok(_) => self.verifier.get(key),
            Err(e) => Err(e),
        }
    }

    fn get_range(&mut self, start: &[u8], end: &[u8]) -> (r: Result<Vec<(Vec<u8>, Vec<u8>)>, Error>) {
        match self.reject_if_poisoned("get_range") {
            Ok(_) => self.verifier.collect_range(start, Some(end)),
            Err(e) => Err(e),
        }
    }

    fn get_prefix(&mut self, prefix: &[u8]) -> (r: Result<Vec<(Vec<u8>, Vec<u8>)>, Error>) {
        match self.reject_if_poisoned("get_prefix") {
            Ok(_) => self.verifier.collect_prefix(prefix),
            Err(e) => Err(e),
        }
    }
}

impl TraceInterface for TraceReplayer {
    fn apply(&mut self, ops: &[WriteOp]) -> (r: Result<(), Error>) {
        match self.reject_if_poisoned("apply") {
            Ok(_) => {},
            Err(e) => {
                return Err(e);
            },
        }
        let ghost start = self.current();
        let ghost cs = write_changes(ops@);
        let mut i: usize = 0;
        assert(cs.take(0) =~= Seq::empty());
        while i < ops.len()
            invariant
                i <= ops@.len(),
                cs == write_changes(ops@),
                start == old(self).current(),
                old(self).live(),
                self.live(),
                step_changes(start, cs.take(i as int)) == Ok::<Option<Trie>, Fault>(self.current()),
            decreases ops@.len() - i,
        {
            proof {
                assert(cs.take(i + 1).drop_last() =~= cs.take(i as int));
                assert(cs.take(i + 1).last() == ops@[i as int]@);
            }
            match self.verifier.replay_step(&ops[i]) {
                Ok(_) => {},
                Err(e) => {
                    self.poisoned = true;
                    proof {
                        lemma_failed_steps(start, cs, i + 1);
                    }
                    return Err(e);
                },
            }
            i = i + 1;
        }
        assert(cs.take(cs.len() as int) =~= cs);
        Ok(())
    }
}

impl Clone for TraceReplayer {
    fn clone(&self) -> (r: Self)
        ensures
            r.live() == self.live(),
            r.current() == self.current(),
    {
        TraceReplayer { verifier: self.verifier.clone(), poisoned: self.poisoned }
    }
}

impl Default for TraceReplayer {
    fn default() -> (r: Self)
        ensures
            r.live(),
            r.current() is None,
    {
        TraceReplayer { verifier: TraceVerifier::default(), poisoned: false }
    }
}

} // verus!
