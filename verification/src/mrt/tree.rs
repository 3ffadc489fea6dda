//! Operations on shared tries. None changes the trie it is given: the result
//! shares what did not change.

use std::sync::Arc;

use vstd::prelude::*;

use crate::bits::{bit_of, key_copy, key_less, lcp, lemma_key_order, lemma_lcp, lemma_lcp_is, lemma_route_lt, padded,
    route_lt};
use crate::error::{Error, Fault};
use crate::mrt::cursor::end_view;
use crate::mrt::keys::{contents, holds, key_between, keys_clash, lemma_cut_between, lemma_holds, lemma_insert_contents,
    lemma_remove_contents, sound};
use crate::mrt::model::{below, below_end, child_span, hi_place, join, lift, lo_place, place, window, BoundPosition,
    Span, Trie};
use crate::mrt::node::{root_trie, share, MrtNode, MrtNodeInner};
use crate::mrt::prefix::Voice;
use crate::mrt::route::{agrees, classify_key_vs_skip, leaf_matches, leaf_skip_from_key, long_key_text,
    prefix_free_text, prefix_free_violation, rest, route, route_bit_at, route_bits_of, skip_matches, validate_key_len,
    MatchResult, RouteBits, RoutePrefix, SkipRelation, MAX_KEY_LEN, MAX_ROUTE_BITS};
use crate::text::{push_bytes, shown, told, told_after, told_two, told_with};
use crate::tracer::prefix_successor;

verus! {

/// The routes of a bound that may be missing.
pub open spec fn bound(b: Option<&[u8]>) -> Option<Seq<bool>> {
    match b {
        Some(key) => Some(route(key@)),
        None => None,
    }
}

/// Whether an outcome is the one that the model gives, and fits below `depth`.
pub open spec fn yields(r: Result<Arc<MrtNodeInner>, Error>, t: Result<Trie, Fault>, depth: int) -> bool {
    match (r, t) {
        (Ok(node), Ok(t)) => node.trie() == t && depth + t.depth() <= MAX_ROUTE_BITS,
        (Err(e), Err(f)) => e.fault() == f,
        _ => false,
    }
}

/// An outcome as the model gives it.
pub open spec fn outcome(r: Result<Arc<MrtNodeInner>, Error>) -> Result<Trie, Fault> {
    match r {
        Ok(node) => Ok(node.trie()),
        Err(e) => Err(e.fault()),
    }
}

/// As [`outcome`], for outcomes that may leave nothing.
pub open spec fn outcome_root(r: Result<Option<Arc<MrtNodeInner>>, Error>) -> Result<Option<Trie>, Fault> {
    match r {
        Ok(root) => Ok(root_trie(root)),
        Err(e) => Err(e.fault()),
    }
}

/// As [`yields`], for outcomes that may leave nothing.
pub open spec fn yields_root(
    r: Result<Option<Arc<MrtNodeInner>>, Error>,
    t: Result<Option<Trie>, Fault>,
    depth: int,
) -> bool {
    match (r, t) {
        (Ok(root), Ok(t)) => root_trie(root) == t && (t matches Some(t) ==> depth + t.depth() <= MAX_ROUTE_BITS),
        (Err(e), Err(f)) => e.fault() == f,
        _ => false,
    }
}

/// Stores `value` under `key`. The key must not be longer than
/// [`MAX_KEY_LEN`], and none may be a prefix of another.
pub fn insert(root: Option<Arc<MrtNodeInner>>, key: Vec<u8>, value: Vec<u8>) -> (r: Result<Arc<MrtNodeInner>, Error>)
    ensures
        yields(r, insert_root(root_trie(root), key@, value@), 0),
        r matches Err(e) ==> e.text() == insert_text(e.fault(), key@),
{
    match validate_key_len(key.as_slice(), "insert") {
        Ok(_) => {},
        Err(e) => {
            return Err(e);
        },
    }
    match root {
        None => Ok(MrtNodeInner::leaf(route_bits_of(key.as_slice()), value)),
        Some(root) => {
            let ghost t = root.trie();
            let depth: u16 = root.depth_below();
            proof {
                assert(route(key@).skip(0) =~= route(key@));
            }
            insert_at(&root, 0, key.as_slice(), value)
        },
    }
}

/// What [`insert`] says when it fails.
pub open spec fn insert_text(fault: Fault, key: Seq<u8>) -> Seq<char> {
    if key.len() > MAX_KEY_LEN {
        long_key_text("insert"@, key.len())
    } else if fault == Fault::Key {
        prefix_free_text(key)
    } else {
        "insert descent at K="@ + shown(key)
    }
}

/// What [`insert`] makes of a trie.
pub open spec fn insert_root(root: Option<Trie>, key: Seq<u8>, value: Seq<u8>) -> Result<Trie, Fault> {
    if key.len() > MAX_KEY_LEN {
        Err(Fault::Key)
    } else {
        match root {
            None => Ok(Trie::Leaf { skip: route(key), value }),
            Some(t) => t.insert(route(key), value),
        }
    }
}

/// Whether storing a value did to a store that holds `m` what it should: it is
/// refused just if a key would begin with another.
pub open spec fn put_into(
    r: Result<Trie, Fault>,
    m: Map<Seq<u8>, Seq<u8>>,
    key: Seq<u8>,
    value: Seq<u8>,
) -> bool {
    match r {
        Ok(t) => {
            &&& forall|k: Seq<u8>| #[trigger] m.dom().contains(k) ==> !keys_clash(k, key)
            &&& holds(Some(t), m.insert(key, value))
        },
        Err(f) => {
            &&& f == Fault::Key
            &&& exists|k: Seq<u8>| #[trigger] m.dom().contains(k) && keys_clash(k, key)
        },
    }
}

/// What the model gives at the root of a store is what it should be.
proof fn lemma_put_into(t: Trie, key: Seq<u8>, value: Seq<u8>)
    requires
        sound(Some(t)),
        key.len() <= MAX_KEY_LEN,
    ensures
        put_into(t.insert(route(key), value), contents(Some(t)), key, value),
{
    lemma_insert_contents(Some(t), key, value);
    if let Ok(after) = t.insert(route(key), value) {
        lemma_holds(Some(after));
    }
}

/// Stores `value` under `key` below a node at `depth`. At the root of a store,
/// it does so to what the store holds.
#[verifier::spinoff_prover]
#[verifier::rlimit(40)]
pub fn insert_at(cur: &Arc<MrtNodeInner>, depth: u16, key: &[u8], value: Vec<u8>) -> (r: Result<Arc<MrtNodeInner>, Error>)
    requires
        key@.len() <= MAX_KEY_LEN,
        depth <= 8 * key@.len(),
        depth + cur.trie().depth() <= MAX_ROUTE_BITS,
    ensures
        yields(r, cur.trie().insert(route(key@).skip(depth as int), value@), depth as int),
        r matches Err(e) ==> e.text() == insert_text(e.fault(), key@),
        depth == 0 && sound(Some(cur.trie())) ==> put_into(outcome(r), contents(Some(cur.trie())), key@, value@),
    decreases cur.trie(),
{
    let ghost t = cur.trie();
    let ghost k = route(key@).skip(depth as int);
    proof {
        if depth == 0 && sound(Some(t)) {
            assert(k =~= route(key@));
            lemma_put_into(t, key@, value@);
        }
    }
    match cur.node() {
        MrtNode::Leaf { skip, value: old_value } => match classify_key_vs_skip(skip, key, depth) {
            SkipRelation::Equal => Ok(MrtNodeInner::leaf(leaf_skip_from_key(key, depth), value)),
            SkipRelation::Diverge { offset } => {
                let p: u16 = depth + offset;
                let branch_skip = skip.slice(0, offset);
                let k_bit: bool = route_bit_at(key, p);
                let existing = MrtNodeInner::leaf(skip.slice(offset + 1, skip.bit_len()), key_copy(old_value.as_slice()));
                let k_leaf = MrtNodeInner::leaf(leaf_skip_from_key(key, p + 1), value);
                proof {
                    lemma_lcp(skip@, k);
                    assert(route(key@).skip(p + 1) =~= k.skip(offset + 1));
                    assert(skip@.subrange(0, offset as int) =~= skip@.take(offset as int));
                    assert(skip@.subrange(offset + 1, skip@.len() as int) =~= skip@.skip(offset + 1));
                }
                if !k_bit {
                    Ok(MrtNodeInner::branch(branch_skip, k_leaf, existing))
                } else {
                    Ok(MrtNodeInner::branch(branch_skip, existing, k_leaf))
                }
            },
            SkipRelation::KeyIsPrefix | SkipRelation::SkipIsPrefix => Err(prefix_free_violation(key)),
        },
        MrtNode::Branch { skip, left, right } => match classify_key_vs_skip(skip, key, depth) {
            SkipRelation::Diverge { offset } => {
                let (prefix, _existing_bit, existing_suffix) = skip.split_at(offset);
                let p: u16 = depth + offset;
                let k_bit: bool = route_bit_at(key, p);
                let existing = MrtNodeInner::branch(existing_suffix, share(left), share(right));
                let k_leaf = MrtNodeInner::leaf(leaf_skip_from_key(key, p + 1), value);
                proof {
                    lemma_lcp(skip@, k);
                    assert(route(key@).skip(p + 1) =~= k.skip(offset + 1));
                }
                if !k_bit {
                    Ok(MrtNodeInner::branch(prefix, k_leaf, existing))
                } else {
                    Ok(MrtNodeInner::branch(prefix, existing, k_leaf))
                }
            },
            SkipRelation::SkipIsPrefix => {
                let branch_depth: u16 = depth + skip.bit_len();
                let side: bool = route_bit_at(key, branch_depth);
                let child_depth: u16 = branch_depth + 1;
                proof {
                    assert(route(key@).skip(child_depth as int) =~= k.skip(skip@.len() as int + 1));
                }
                if !side {
                    match insert_at(left, child_depth, key, value) {
                        Ok(new_left) => Ok(MrtNodeInner::branch(skip.clone(), new_left, share(right))),
                        Err(e) => Err(e),
                    }
                } else {
                    match insert_at(right, child_depth, key, value) {
                        Ok(new_right) => Ok(MrtNodeInner::branch(skip.clone(), share(left), new_right)),
                        Err(e) => Err(e),
                    }
                }
            },
            SkipRelation::Equal | SkipRelation::KeyIsPrefix => Err(prefix_free_violation(key)),
        },
        MrtNode::PrunedHash => Err(Error::PrunedNode(told_with("insert descent at K=", key))),
    }
}

/// The value stored under `key`, if there is one.
pub fn get<'a>(root: Option<&'a Arc<MrtNodeInner>>, key: &[u8]) -> (r: Result<Option<&'a [u8]>, Error>)
    ensures
        finds(r, find_root(root_ref(root), key@)),
        r matches Err(e) ==> e.text() == point_text("get"@, key@),
{
    match validate_key_len(key, "get") {
        Ok(_) => {},
        Err(e) => {
            return Err(e);
        },
    }
    match root {
        None => Ok(None),
        Some(root) => get_from(root, key),
    }
}

/// The value stored under `key` below `root`, if there is one.
fn get_from<'a>(root: &'a Arc<MrtNodeInner>, key: &[u8]) -> (r: Result<Option<&'a [u8]>, Error>)
    requires
        key@.len() <= MAX_KEY_LEN,
    ensures
        finds(r, root.trie().find(route(key@), 0)),
        r matches Err(e) ==> e.text() == point_text("get"@, key@),
{
    let mut cur: &'a Arc<MrtNodeInner> = root;
    let mut depth: u16 = 0;
    let _span: u16 = root.depth_below();
    loop
        invariant
            key@.len() <= MAX_KEY_LEN,
            depth + cur.trie().depth() <= MAX_ROUTE_BITS,
            root.trie().find(route(key@), 0) == cur.trie().find(route(key@), depth as int),
        decreases cur.trie(),
    {
        match cur.node() {
            MrtNode::Leaf { skip, value } => {
                if leaf_matches(skip, key, depth) {
                    return Ok(Some(value.as_slice()));
                }
                return Ok(None);
            },
            MrtNode::Branch { skip, left, right } => {
                if !skip_matches(skip, key, depth) {
                    return Ok(None);
                }
                let branch_depth: u16 = depth + skip.bit_len();
                let side: bool = route_bit_at(key, branch_depth);
                depth = branch_depth + 1;
                cur = if !side { left } else { right };
            },
            MrtNode::PrunedHash => {
                return Err(Error::PrunedNode(descent_text("get", key)));
            },
        }
    }
}

/// What is said of a search for `key` that came to a pruned node.
fn descent_text(op: &str, key: &[u8]) -> (r: String)
    ensures
        r@ == op@ + " descent at K="@ + shown(key@),
{
    let mut text = told_after(op, " descent at K=");
    push_bytes(&mut text, key);
    text
}

/// What [`get`] and [`delete`] say when they fail.
pub open spec fn point_text(op: Seq<char>, key: Seq<u8>) -> Seq<char> {
    if key.len() > MAX_KEY_LEN {
        long_key_text(op, key.len())
    } else {
        op + " descent at K="@ + shown(key)
    }
}

/// What a search for `key` finds in a trie that may be empty.
pub open spec fn find_root(root: Option<Trie>, key: Seq<u8>) -> Result<Option<Seq<u8>>, Fault> {
    if key.len() > MAX_KEY_LEN {
        Err(Fault::Key)
    } else {
        match root {
            None => Ok(None),
            Some(t) => t.find(route(key), 0),
        }
    }
}

/// The trie below a borrowed root that may be missing.
pub open spec fn root_ref(root: Option<&Arc<MrtNodeInner>>) -> Option<Trie> {
    match root {
        Some(node) => Some(node.trie()),
        None => None,
    }
}

/// Whether a search gave what the model gives.
pub open spec fn finds(r: Result<Option<&[u8]>, Error>, f: Result<Option<Seq<u8>>, Fault>) -> bool {
    match (r, f) {
        (Ok(Some(value)), Ok(Some(v))) => value@ == v,
        (Ok(None), Ok(None)) => true,
        (Err(e), Err(f)) => e.fault() == f,
        _ => false,
    }
}

/// Removes `key`. The flag tells whether it was there.
pub fn delete(root: Option<Arc<MrtNodeInner>>, key: &[u8]) -> (r: Result<(Option<Arc<MrtNodeInner>>, bool), Error>)
    ensures
        removes(r, root_trie(root), remove_root(root_trie(root), key@), 0),
        r matches Err(e) ==> e.text() == point_text("delete"@, key@),
{
    match validate_key_len(key, "delete") {
        Ok(_) => {},
        Err(e) => {
            return Err(e);
        },
    }
    match root {
        None => Ok((None, false)),
        Some(root) => {
            let span: u16 = root.depth_below();
            delete_at(&root, 0, key)
        },
    }
}

/// What removing `key` makes of a trie that may be empty.
pub open spec fn remove_root(root: Option<Trie>, key: Seq<u8>) -> Result<Option<Option<Trie>>, Fault> {
    if key.len() > MAX_KEY_LEN {
        Err(Fault::Key)
    } else {
        match root {
            None => Ok(None),
            Some(t) => t.remove(route(key), 0),
        }
    }
}

/// Whether a removal gave what the model gives, and fits below `depth`.
pub open spec fn removes(
    r: Result<(Option<Arc<MrtNodeInner>>, bool), Error>,
    before: Option<Trie>,
    t: Result<Option<Option<Trie>>, Fault>,
    depth: int,
) -> bool {
    match (r, t) {
        (Ok((root, deleted)), Ok(after)) => match after {
            Some(t) => deleted && root_trie(root) == t && (t matches Some(t) ==> depth + t.depth() <= MAX_ROUTE_BITS),
            None => !deleted && root_trie(root) == before,
        },
        (Err(e), Err(f)) => e.fault() == f,
        _ => false,
    }
}

/// Whether removing a key did to a store that holds `m` what it should.
pub open spec fn deleted_from(after: Option<Trie>, deleted: bool, m: Map<Seq<u8>, Seq<u8>>, key: Seq<u8>) -> bool {
    deleted == m.dom().contains(key) && holds(after, m.remove(key))
}

/// What the model gives at the root of a store is what it should be.
proof fn lemma_deleted_from(t: Trie, key: Seq<u8>)
    requires
        sound(Some(t)),
        key.len() <= MAX_KEY_LEN,
    ensures
        match t.remove(route(key), 0) {
            Ok(Some(after)) => deleted_from(after, true, contents(Some(t)), key),
            Ok(None) => deleted_from(Some(t), false, contents(Some(t)), key),
            Err(_) => false,
        },
{
    let m = contents(Some(t));
    lemma_remove_contents(Some(t), key);
    lemma_holds(Some(t));
    assert(!m.dom().contains(key) ==> m =~= m.remove(key));
    if let Ok(Some(after)) = t.remove(route(key), 0) {
        lemma_holds(after);
    }
}

/// Removes `key` below a node at `depth`, and tells whether it was there. At the
/// root of a store, it does so to what the store holds.
#[verifier::spinoff_prover]
#[verifier::rlimit(40)]
pub fn delete_at(cur: &Arc<MrtNodeInner>, depth: u16, key: &[u8]) -> (r: Result<(Option<Arc<MrtNodeInner>>, bool), Error>)
    requires
        key@.len() <= MAX_KEY_LEN,
        depth + cur.trie().depth() <= MAX_ROUTE_BITS,
    ensures
        removes(r, Some(cur.trie()), cur.trie().remove(route(key@), depth as int), depth as int),
        r matches Err(e) ==> e.text() == point_text("delete"@, key@),
        depth == 0 && sound(Some(cur.trie())) ==> (r matches Ok((after, deleted)) && deleted_from(
            root_trie(after),
            deleted,
            contents(Some(cur.trie())),
            key@,
        )),
    decreases cur.trie(),
{
    proof {
        if depth == 0 && sound(Some(cur.trie())) {
            lemma_deleted_from(cur.trie(), key@);
        }
    }
    match cur.node() {
        MrtNode::Leaf { skip, value } => {
            if leaf_matches(skip, key, depth) {
                Ok((None, true))
            } else {
                Ok((Some(share(cur)), false))
            }
        },
        MrtNode::Branch { skip, left, right } => {
            if !skip_matches(skip, key, depth) {
                return Ok((Some(share(cur)), false));
            }
            let branch_depth: u16 = depth + skip.bit_len();
            let side: bool = route_bit_at(key, branch_depth);
            let child_depth: u16 = branch_depth + 1;
            let child = if !side { left } else { right };
            match delete_at(child, child_depth, key) {
                Err(e) => Err(e),
                Ok((new_child, deleted)) => {
                    if !deleted {
                        return Ok((Some(share(cur)), false));
                    }
                    let (new_left, new_right) = if !side {
                        (new_child, Some(share(right)))
                    } else {
                        (Some(share(left)), new_child)
                    };
                    match join_children(skip, new_left, new_right, depth) {
                        Ok(root) => Ok((root, true)),
                        Err(e) => Err(e),
                    }
                },
            }
        },
        MrtNode::PrunedHash => Err(Error::PrunedNode(descent_text("delete", key))),
    }
}

/// Puts a branch together from what is left of its children. With one child
/// left, that child takes the branch's place.
fn join_children(
    skip: &RouteBits,
    left: Option<Arc<MrtNodeInner>>,
    right: Option<Arc<MrtNodeInner>>,
    depth: u16,
) -> (r: Result<Option<Arc<MrtNodeInner>>, Error>)
    requires
        left matches Some(l) ==> depth + skip@.len() + 1 + l.trie().depth() <= MAX_ROUTE_BITS,
        right matches Some(l) ==> depth + skip@.len() + 1 + l.trie().depth() <= MAX_ROUTE_BITS,
    ensures
        yields_root(r, Ok(join(skip@, root_trie(left), root_trie(right))), depth as int),
{
    match (left, right) {
        (Some(l), Some(r)) => Ok(Some(MrtNodeInner::branch(skip.clone(), l, r))),
        (Some(l), None) => match collapse_survivor(skip, false, l) {
            Ok(node) => Ok(Some(node)),
            Err(e) => Err(e),
        },
        (None, Some(r)) => match collapse_survivor(skip, true, r) {
            Ok(node) => Ok(Some(node)),
            Err(e) => Err(e),
        },
        (None, None) => Ok(None),
    }
}

/// Puts `survivor`, the child of a branch on `survivor_side`, in the branch's
/// place: it takes over the branch's bits. A pruned survivor hides its bits and
/// stays as it is; what hangs above it then hashes to something else.
pub fn collapse_survivor(parent_skip: &RouteBits, survivor_side: bool, survivor: Arc<MrtNodeInner>) -> (r: Result<
    Arc<MrtNodeInner>,
    Error,
>)
    requires
        parent_skip@.len() + 1 + survivor.trie().depth() <= MAX_ROUTE_BITS,
    ensures
        r matches Ok(node) && node.trie() == lift(parent_skip@, survivor_side, survivor.trie()) && node.trie().depth()
            <= parent_skip@.len() + 1 + survivor.trie().depth(),
{
    match survivor.node() {
        MrtNode::Branch { skip, left, right } => match parent_skip.concat_bit_and_skip(survivor_side, skip) {
            Ok(merged) => Ok(MrtNodeInner::branch(merged, share(left), share(right))),
            Err(e) => Err(e),
        },
        MrtNode::Leaf { skip, value } => match parent_skip.concat_bit_and_skip(survivor_side, skip) {
            Ok(merged) => Ok(MrtNodeInner::leaf(merged, key_copy(value.as_slice()))),
            Err(e) => Err(e),
        },
        MrtNode::PrunedHash => Ok(share(&survivor)),
    }
}

/// What is said of range bounds that are too long or not in order.
pub open spec fn range_text(start: Seq<u8>, end: Seq<u8>, voice: Voice) -> Seq<char> {
    let (a, b, c) = match voice {
        Voice::Store => ("delete_range start"@, "delete_range end"@, "MRT delete_range start key "@),
        Voice::Replay => (
            "verify replay delete_range start"@,
            "verify replay delete_range end"@,
            "MRT verify replay delete_range start key "@,
        ),
    };
    if start.len() > MAX_KEY_LEN {
        long_key_text(a, start.len())
    } else if end.len() > MAX_KEY_LEN {
        long_key_text(b, end.len())
    } else {
        c + shown(start) + " must be less than end key "@ + shown(end)
    }
}

/// Refuses range bounds that are too long or not in order.
pub fn validate_delete_range_bounds(start: &[u8], end: &[u8], voice: Voice) -> (r: Result<(), Error>)
    ensures
        r is Ok <==> start@.len() <= MAX_KEY_LEN && end@.len() <= MAX_KEY_LEN && crate::bits::key_lt(start@, end@),
        r matches Err(e) ==> e.fault() == Fault::Key && e.text() == range_text(start@, end@, voice),
{
    let (start_context, end_context, before) = match voice {
        Voice::Store => ("delete_range start", "delete_range end", "MRT delete_range start key "),
        Voice::Replay => (
            "verify replay delete_range start",
            "verify replay delete_range end",
            "MRT verify replay delete_range start key ",
        ),
    };
    match validate_key_len(start, start_context) {
        Ok(_) => {},
        Err(e) => {
            return Err(e);
        },
    }
    match validate_key_len(end, end_context) {
        Ok(_) => {},
        Err(e) => {
            return Err(e);
        },
    }
    if !key_less(start, end) {
        return Err(Error::Key(told_two(before, start, " must be less than end key ", end)));
    }
    Ok(())
}

/// Removes the keys from `start` up to but not including `end`.
pub fn delete_range(root: Option<Arc<MrtNodeInner>>, start: &[u8], end: &[u8]) -> (r: Result<
    Option<Arc<MrtNodeInner>>,
    Error,
>)
    ensures
        yields_root(r, cut_root(root_trie(root), start@, end@), 0),
        r matches Err(e) ==> (e.fault() == Fault::Key ==> e.text() == range_text(start@, end@, Voice::Store)) && (
        e.fault() == Fault::Pruned ==> e.text() == "delete_range descent"@),
{
    match validate_delete_range_bounds(start, end, Voice::Store) {
        Ok(_) => {},
        Err(e) => {
            return Err(e);
        },
    }
    match root {
        None => Ok(None),
        Some(root) => {
            let span: u16 = root.depth_below();
            delete_range_at(&root, 0, &RoutePrefix::root(), Some(start), Some(end))
        },
    }
}

/// What removing the keys from `start` up to `end` makes of a trie that may be empty.
pub open spec fn cut_root(root: Option<Trie>, start: Seq<u8>, end: Seq<u8>) -> Result<Option<Trie>, Fault> {
    if start.len() > MAX_KEY_LEN || end.len() > MAX_KEY_LEN || !crate::bits::key_lt(start, end) {
        Err(Fault::Key)
    } else {
        match root {
            None => Ok(None),
            Some(t) => t.cut(0, Some(route(start)), Some(route(end))),
        }
    }
}

/// A bound that a descent carries agrees with the way down so far.
pub open spec fn on_way(prefix: Seq<bool>, b: Option<&[u8]>) -> bool {
    b matches Some(key) ==> agrees(prefix, route(key@), 0) && key@.len() <= MAX_KEY_LEN
}

/// Whether removing the keys between two bounds did to a store that holds `m`
/// what it should.
pub open spec fn range_deleted_from(
    r: Result<Option<Trie>, Fault>,
    m: Map<Seq<u8>, Seq<u8>>,
    lo: Option<Seq<u8>>,
    hi: Option<Seq<u8>>,
) -> bool {
    r matches Ok(after) && holds(after, m.remove_keys(Set::new(|k: Seq<u8>| key_between(k, lo, hi))))
}

/// What the model gives at the root of a store is what it should be.
proof fn lemma_range_deleted_from(t: Trie, lo: Option<&[u8]>, hi: Option<&[u8]>)
    requires
        sound(Some(t)),
    ensures
        range_deleted_from(t.cut(0, bound(lo), bound(hi)), contents(Some(t)), end_view(lo), end_view(hi)),
{
    lemma_cut_between(t, end_view(lo), end_view(hi));
    lemma_holds(t.cut(0, bound(lo), bound(hi))->Ok_0);
}

/// Removes the keys from `lo` up to but not including `hi` below a node at
/// `depth`. At the root of a store, it does so to what the store holds.
#[verifier::spinoff_prover]
#[verifier::rlimit(40)]
pub fn delete_range_at(
    cur: &Arc<MrtNodeInner>,
    depth: u16,
    prefix: &RoutePrefix,
    lo: Option<&[u8]>,
    hi: Option<&[u8]>,
) -> (r: Result<Option<Arc<MrtNodeInner>>, Error>)
    requires
        depth + cur.trie().depth() <= MAX_ROUTE_BITS,
        prefix@.len() == depth,
        on_way(prefix@, lo),
        on_way(prefix@, hi),
    ensures
        yields_root(r, cur.trie().cut(depth as int, bound(lo), bound(hi)), depth as int),
        r matches Err(e) ==> e.fault() != Fault::Key && (e.fault() == Fault::Pruned ==> e.text()
            == "delete_range descent"@),
        depth == 0 && sound(Some(cur.trie())) ==> range_deleted_from(
            outcome_root(r),
            contents(Some(cur.trie())),
            end_view(lo),
            end_view(hi),
        ),
    decreases cur.trie(),
{
    proof {
        if depth == 0 && sound(Some(cur.trie())) {
            lemma_range_deleted_from(cur.trie(), lo, hi);
        }
    }
    if lo.is_none() && hi.is_none() {
        return Ok(None);
    }
    match cur.node() {
        MrtNode::Leaf { skip, value } => match leaf_in_range(prefix, skip, lo, hi) {
            Ok(inside) => if inside {
                Ok(None)
            } else {
                Ok(Some(share(cur)))
            },
            Err(e) => Err(e),
        },
        MrtNode::Branch { skip, left, right } => {
            let lo_pos: Option<BoundPosition> = classify_optional_bound(lo, depth, skip);
            let hi_pos: Option<BoundPosition> = classify_optional_bound(hi, depth, skip);
            if lo_is_after(lo_pos) || hi_is_before(hi_pos) {
                return Ok(Some(share(cur)));
            }
            let child_depth: u16 = depth + skip.bit_len() + 1;
            let left_prefix = match prefix.descend(skip, false) {
                Ok(p) => p,
                Err(e) => {
                    return Err(e);
                },
            };
            let right_prefix = match prefix.descend(skip, true) {
                Ok(p) => p,
                Err(e) => {
                    return Err(e);
                },
            };
            let new_left = match child_range(lo, lo_pos, hi, hi_pos, false) {
                ChildRange::NoOverlap => Some(share(left)),
                ChildRange::Overlap { lo: l, hi: h } => {
                    proof {
                        lemma_on_way(prefix@, skip@, false, l);
                        lemma_on_way(prefix@, skip@, false, h);
                    }
                    match delete_range_at(left, child_depth, &left_prefix, l, h) {
                        Ok(n) => n,
                        Err(e) => {
                            return Err(e);
                        },
                    }
                },
            };
            let new_right = match child_range(lo, lo_pos, hi, hi_pos, true) {
                ChildRange::NoOverlap => Some(share(right)),
                ChildRange::Overlap { lo: l, hi: h } => {
                    proof {
                        lemma_on_way(prefix@, skip@, true, l);
                        lemma_on_way(prefix@, skip@, true, h);
                    }
                    match delete_range_at(right, child_depth, &right_prefix, l, h) {
                        Ok(n) => n,
                        Err(e) => {
                            return Err(e);
                        },
                    }
                },
            };
            join_children(skip, new_left, new_right, depth)
        },
        MrtNode::PrunedHash => Err(Error::PrunedNode(told("delete_range descent"))),
    }
}

/// A bound on a branch that lies among one child's routes agrees with the way to that child.
pub proof fn lemma_on_way(prefix: Seq<bool>, skip: Seq<bool>, side: bool, b: Option<&[u8]>)
    requires
        on_way(prefix, b),
        b matches Some(key) ==> place(skip, route(key@), prefix.len() as int) == (if side {
            BoundPosition::InRight
        } else {
            BoundPosition::InLeft
        }),
    ensures
        on_way(prefix + skip + seq![side], b),
{
    if let Some(key) = b {
        let k = route(key@);
        let d = prefix.len() as int;
        let w = window(k, d, skip.len());
        let whole = prefix + skip + seq![side];
        lemma_lcp(skip, w);
        assert forall|i: int| 0 <= i < whole.len() implies #[trigger] whole[i] == padded(k, 0 + i) by {
            if i < d {
                assert(prefix[i] == padded(k, 0 + i));
            } else if i < d + skip.len() {
                assert(skip[i - d] == w[i - d]);
                assert(w[i - d] == padded(k, d + (i - d)));
            }
        }
    }
}

/// Comparing with a bound that agrees with the way down is comparing what is left of both.
pub proof fn lemma_relative_order(prefix: Seq<bool>, s: Seq<bool>, k: Seq<bool>)
    requires
        agrees(prefix, k, 0),
    ensures
        route_lt(prefix + s, k) == route_lt(s, rest(k, prefix.len() as int)),
        route_lt(k, prefix + s) == (prefix + s != k && !route_lt(prefix + s, k)),
{
    let whole = prefix + s;
    let d = prefix.len();
    lemma_route_lt(whole, k);
    lemma_route_lt(k, whole);
    lemma_lcp(whole, k);
    lemma_lcp(k, whole);
    lemma_lcp_is(k, whole, lcp(whole, k));
    if prefix + s != k && lcp(whole, k) == k.len() && lcp(whole, k) == whole.len() {
        assert(whole =~= k);
    }
    if k.len() >= d {
        let r = k.skip(d as int);
        lemma_route_lt(s, r);
        lemma_lcp(s, r);
        let n = lcp(s, r);
        assert forall|i: int| 0 <= i < d + n implies whole[i] == k[i] by {
            if i < d {
                assert(prefix[i] == padded(k, 0 + i));
            } else {
                assert(s[i - d] == r[i - d]);
            }
        }
        lemma_lcp_is(whole, k, d + n);
        if n < r.len() {
            assert(k[d as int + n as int] == r[n as int]);
        }
    } else {
        assert forall|i: int| 0 <= i < k.len() implies whole[i] == k[i] by {
            assert(prefix[i] == padded(k, 0 + i));
        }
        lemma_lcp_is(whole, k, k.len());
    }
}

/// Whether a leaf with `skip`, reached over `prefix`, lies between the bounds.
pub fn leaf_in_range(prefix: &RoutePrefix, skip: &RouteBits, lo: Option<&[u8]>, hi: Option<&[u8]>) -> (r: Result<
    bool,
    Error,
>)
    requires
        prefix@.len() + skip@.len() <= MAX_ROUTE_BITS,
        on_way(prefix@, lo),
        on_way(prefix@, hi),
    ensures
        r is Ok <==> (prefix@.len() + skip@.len()) % 8 == 0,
        r matches Ok(inside) ==> inside == (!below(skip@, prefix@.len() as int, bound(lo)) && below_end(
            skip@,
            prefix@.len() as int,
            bound(hi),
        )),
        r matches Err(e) ==> e.fault() == Fault::Tree,
{
    match prefix.key_with_suffix(skip) {
        Err(e) => Err(e),
        Ok(key) => {
            if let Some(lo) = lo {
                proof {
                    lemma_relative_order(prefix@, skip@, route(lo@));
                    lemma_key_order(key@, lo@);
                }
                if key_less(key.as_slice(), lo) {
                    return Ok(false);
                }
            }
            if let Some(hi) = hi {
                proof {
                    lemma_relative_order(prefix@, skip@, route(hi@));
                    lemma_key_order(key@, hi@);
                }
                if !key_less(key.as_slice(), hi) {
                    return Ok(false);
                }
            }
            Ok(true)
        },
    }
}

/// Where `key` lies relative to a branch with `skip` at `depth`.
pub fn classify_bound(key: &[u8], depth: u16, skip: &RouteBits) -> (r: BoundPosition)
    requires
        depth + skip@.len() < MAX_ROUTE_BITS,
    ensures
        r == place(skip@, route(key@), depth as int),
{
    let ghost k = route(key@);
    let ghost w = window(k, depth as int, skip@.len());
    match skip.matches_key_at(key, depth) {
        MatchResult::Mismatch { offset } => {
            proof {
                assert forall|i: int| 0 <= i < offset implies skip@[i] == w[i] by {
                    assert(skip@[i] == bit_of(key@, depth + i));
                }
                assert(w[offset as int] == bit_of(key@, depth + offset));
                lemma_lcp_is(skip@, w, offset as nat);
            }
            if route_bit_at(key, depth + offset) {
                BoundPosition::After
            } else {
                BoundPosition::Before
            }
        },
        MatchResult::FullMatch => {
            proof {
                assert forall|i: int| 0 <= i < skip@.len() implies skip@[i] == w[i] by {
                    assert(skip@[i] == bit_of(key@, depth + i));
                }
                lemma_lcp_is(skip@, w, skip@.len());
            }
            if route_bit_at(key, depth + skip.bit_len()) {
                BoundPosition::InRight
            } else {
                BoundPosition::InLeft
            }
        },
    }
}

/// As [`classify_bound`], for a bound that may be missing.
pub fn classify_optional_bound(b: Option<&[u8]>, depth: u16, skip: &RouteBits) -> (r: Option<BoundPosition>)
    requires
        depth + skip@.len() < MAX_ROUTE_BITS,
    ensures
        r == lo_place(skip@, depth as int, bound(b)),
        r == hi_place(skip@, depth as int, bound(b)),
{
    match b {
        Some(key) => Some(classify_bound(key, depth, skip)),
        None => None,
    }
}

/// Whether a lower bound lies after everything below a branch.
pub fn lo_is_after(pos: Option<BoundPosition>) -> (r: bool)
    ensures
        r == (pos == Some(BoundPosition::After)),
{
    match pos {
        Some(BoundPosition::After) => true,
        _ => false,
    }
}

/// Whether an upper bound lies before everything below a branch.
pub fn hi_is_before(pos: Option<BoundPosition>) -> (r: bool)
    ensures
        r == (pos == Some(BoundPosition::Before)),
{
    match pos {
        Some(BoundPosition::Before) => true,
        _ => false,
    }
}

/// What a range means for one child of a branch.
#[derive(Clone, Copy, Debug)]
pub enum ChildRange<'a> {
    /// The child lies outside of the range.
    NoOverlap,
    /// The child lies within the range as far as these bounds go.
    Overlap { lo: Option<&'a [u8]>, hi: Option<&'a [u8]> },
}

/// What a bound means for one child of a branch.
#[derive(Clone, Copy, Debug)]
pub enum BoundEffect<'a> {
    /// The bound does not limit the child.
    Open,
    /// The bound lies among the child's routes.
    Bound(&'a [u8]),
    /// The bound leaves nothing of the child.
    NoOverlap,
}

/// What the lower bound `lo`, which lies at `pos`, means for a child.
fn lower_effect<'a>(lo: Option<&'a [u8]>, pos: Option<BoundPosition>, right_child: bool) -> (r: BoundEffect<'a>)
    requires
        lo is Some <==> pos is Some,
    ensures
        match r {
            BoundEffect::Open => pos is None || pos == Some(BoundPosition::Before) || (pos == Some(
                BoundPosition::InLeft,
            ) && right_child),
            BoundEffect::Bound(key) => lo == Some(key) && pos == Some(
                if right_child { BoundPosition::InRight } else { BoundPosition::InLeft },
            ),
            BoundEffect::NoOverlap => pos == Some(BoundPosition::After) || (pos == Some(BoundPosition::InRight)
                && !right_child),
        },
{
    match (lo, pos) {
        (Some(key), Some(p)) => match p {
            BoundPosition::Before => BoundEffect::Open,
            BoundPosition::After => BoundEffect::NoOverlap,
            BoundPosition::InLeft => if right_child {
                BoundEffect::Open
            } else {
                BoundEffect::Bound(key)
            },
            BoundPosition::InRight => if right_child {
                BoundEffect::Bound(key)
            } else {
                BoundEffect::NoOverlap
            },
        },
        _ => BoundEffect::Open,
    }
}

/// What the upper bound `hi`, which lies at `pos`, means for a child.
fn upper_effect<'a>(hi: Option<&'a [u8]>, pos: Option<BoundPosition>, right_child: bool) -> (r: BoundEffect<'a>)
    requires
        hi is Some <==> pos is Some,
    ensures
        match r {
            BoundEffect::Open => pos is None || pos == Some(BoundPosition::After) || (pos == Some(
                BoundPosition::InRight,
            ) && !right_child),
            BoundEffect::Bound(key) => hi == Some(key) && pos == Some(
                if right_child { BoundPosition::InRight } else { BoundPosition::InLeft },
            ),
            BoundEffect::NoOverlap => pos == Some(BoundPosition::Before) || (pos == Some(BoundPosition::InLeft)
                && right_child),
        },
{
    match (hi, pos) {
        (Some(key), Some(p)) => match p {
            BoundPosition::Before => BoundEffect::NoOverlap,
            BoundPosition::After => BoundEffect::Open,
            BoundPosition::InLeft => if right_child {
                BoundEffect::NoOverlap
            } else {
                BoundEffect::Bound(key)
            },
            BoundPosition::InRight => if right_child {
                BoundEffect::Bound(key)
            } else {
                BoundEffect::Open
            },
        },
        _ => BoundEffect::Open,
    }
}

/// Whether a [`ChildRange`] is the span that the model gives.
pub open spec fn is_span(r: ChildRange<'_>, s: Span) -> bool {
    match r {
        ChildRange::NoOverlap => s is Outside,
        ChildRange::Overlap { lo, hi } => s == (Span::Within { lo: bound(lo), hi: bound(hi) }),
    }
}

/// What the range from `lo` to `hi`, which lie at `lo_pos` and `hi_pos`, means for a child.
pub fn child_range<'a>(
    lo: Option<&'a [u8]>,
    lo_pos: Option<BoundPosition>,
    hi: Option<&'a [u8]>,
    hi_pos: Option<BoundPosition>,
    right_child: bool,
) -> (r: ChildRange<'a>)
    requires
        lo is Some <==> lo_pos is Some,
        hi is Some <==> hi_pos is Some,
    ensures
        forall|skip: Seq<bool>, d: int|
            lo_pos == #[trigger] lo_place(skip, d, bound(lo)) && hi_pos == #[trigger] hi_place(skip, d, bound(hi)) ==> is_span(
                r,
                child_span(skip, d, bound(lo), bound(hi), right_child),
            ),
        r matches ChildRange::Overlap { lo: l, hi: h } ==> {
            &&& l is Some ==> l == lo && lo_pos == Some(
                if right_child { BoundPosition::InRight } else { BoundPosition::InLeft },
            )
            &&& h is Some ==> h == hi && hi_pos == Some(
                if right_child { BoundPosition::InRight } else { BoundPosition::InLeft },
            )
        },
{
    match (lower_effect(lo, lo_pos, right_child), upper_effect(hi, hi_pos, right_child)) {
        (BoundEffect::NoOverlap, _) => ChildRange::NoOverlap,
        (_, BoundEffect::NoOverlap) => ChildRange::NoOverlap,
        (BoundEffect::Open, BoundEffect::Open) => ChildRange::Overlap { lo: None, hi: None },
        (BoundEffect::Bound(l), BoundEffect::Open) => ChildRange::Overlap { lo: Some(l), hi: None },
        (BoundEffect::Open, BoundEffect::Bound(h)) => ChildRange::Overlap { lo: None, hi: Some(h) },
        (BoundEffect::Bound(l), BoundEffect::Bound(h)) => ChildRange::Overlap { lo: Some(l), hi: Some(h) },
    }
}

/// Removes the keys that begin with `prefix`.
pub fn delete_prefix(root: Option<Arc<MrtNodeInner>>, prefix: &[u8]) -> (r: Result<Option<Arc<MrtNodeInner>>, Error>)
    ensures
        yields_root(r, crate::mrt::keys::cut_prefix_root(root_trie(root), prefix@), 0),
        r matches Err(e) ==> (e.fault() == Fault::Key ==> e.text() == long_key_text("delete_prefix"@, prefix@.len())) && (
        e.fault() == Fault::Pruned ==> e.text() == "delete_range descent"@),
{
    match validate_key_len(prefix, "delete_prefix") {
        Ok(_) => {},
        Err(e) => {
            return Err(e);
        },
    }
    match root {
        None => Ok(None),
        Some(root) => {
            let _span: u16 = root.depth_below();
            let hi: Option<Vec<u8>> = prefix_successor(prefix);
            let end: Option<&[u8]> = match &hi {
                Some(s) => Some(s.as_slice()),
                None => None,
            };
            delete_range_at(&root, 0, &RoutePrefix::root(), Some(prefix), end)
        },
    }
}

} // verus!
