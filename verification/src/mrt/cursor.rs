//! Walking the entries of a trie in order.

use std::sync::Arc;

use vstd::prelude::*;

use crate::bits::{key_copy, key_less, key_lt, key_same, lemma_key_ext, lemma_key_order, pack};
use crate::error::{Error, Fault};
use crate::mrt::keys::{contents, lemma_route_of_pack, sound};
use crate::mrt::model::{BoundPosition, Trie};
use crate::mrt::node::{MrtNode, MrtNodeInner};
use crate::mrt::order::{law_walk_back_lists_store, law_walk_lists_store, walked_back, walks_back, walks_from};
use crate::mrt::route::{leaf_matches, long_key_text, route, route_bit_at, skip_matches, validate_key_len, RouteBits,
    RoutePrefix, MAX_KEY_LEN, MAX_ROUTE_BITS};
use crate::mrt::scan::{drain, entry, flat, from_bound, gives, lemma_flat_some, rows_of, rows_view, scan_root,
    up_to_bound, Item, Stop, Until};
use crate::mrt::store::same_bytes;
use crate::mrt::tree::{classify_bound, find_root};
use crate::mrt::verify_node::MrtVerifyNode;
use crate::text::{shown, told, told_with};

verus! {

/// What a walker finds at a node.
pub enum NavStep<'a, H> {
    /// A leaf.
    Leaf { skip: &'a RouteBits, value: &'a [u8] },
    /// A branch.
    Branch { skip: &'a RouteBits, left: H, right: H },
    /// Nothing to see.
    Pruned,
}

/// A handle to a node that can be walked.
pub trait TreeNav<'a>: Copy {
    /// What can be seen from here.
    spec fn seen_trie(self) -> Trie;

    /// Looks at the node.
    fn step(self) -> (r: NavStep<'a, Self>)
        ensures
            match r {
                NavStep::Leaf { skip, value } => self.seen_trie() == (Trie::Leaf { skip: skip@, value: value@ }),
                NavStep::Branch { skip, left, right } => self.seen_trie() == (Trie::Branch {
                    skip: skip@,
                    left: Box::new(left.seen_trie()),
                    right: Box::new(right.seen_trie()),
                }),
                NavStep::Pruned => self.seen_trie() is Pruned,
            },
    ;
}

impl<'a> TreeNav<'a> for &'a Arc<MrtNodeInner> {
    open spec fn seen_trie(self) -> Trie {
        self.trie()
    }

    fn step(self) -> (r: NavStep<'a, Self>) {
        match self.node() {
            MrtNode::Leaf { skip, value } => NavStep::Leaf { skip, value: value.as_slice() },
            MrtNode::Branch { skip, left, right } => NavStep::Branch { skip, left, right },
            MrtNode::PrunedHash => NavStep::Pruned,
        }
    }
}

impl<'a> TreeNav<'a> for &'a MrtVerifyNode {
    open spec fn seen_trie(self) -> Trie {
        self.shown(Set::empty())
    }

    fn step(self) -> (r: NavStep<'a, Self>) {
        match self {
            MrtVerifyNode::Leaf { skip, value, hash_cache } => NavStep::Leaf { skip, value: value.as_slice() },
            MrtVerifyNode::Branch { skip, left, right, hash_cache, depth_below } => {
                let l: &'a MrtVerifyNode = &**left;
                let r: &'a MrtVerifyNode = &**right;
                NavStep::Branch { skip, left: l, right: r }
            },
            _ => NavStep::Pruned,
        }
    }
}

/// A node that is still to be walked. The way to it is the first `mark` bits
/// of the cursor's path, then the bits of `ext`.
pub struct Frame<'a, H> {
    pub mark: u16,
    pub ext: Option<(&'a RouteBits, bool)>,
    pub node: H,
}

/// The bits of an extension.
pub open spec fn ext_bits(ext: Option<(&RouteBits, bool)>) -> Seq<bool> {
    match ext {
        Some((skip, bit)) => skip@ + seq![bit],
        None => Seq::empty(),
    }
}

/// The way to the node of a frame.
pub open spec fn frame_prefix<'a, H>(path: Seq<bool>, f: Frame<'a, H>) -> Seq<bool> {
    path.take(f.mark as int) + ext_bits(f.ext)
}

/// The number of nodes of a trie.
pub open spec fn weight(t: Trie) -> nat
    decreases t,
{
    match t {
        Trie::Branch { skip, left, right } => 1 + weight(*left) + weight(*right),
        _ => 1,
    }
}

/// What is left to walk, first things first.
pub open spec fn pending<'a, H: TreeNav<'a>>(stack: Seq<Frame<'a, H>>, path: Seq<bool>, forward: bool) -> Seq<Item>
    decreases stack.len(),
{
    if stack.len() == 0 {
        Seq::empty()
    } else {
        let f = stack.last();
        let items = flat(f.node.seen_trie(), frame_prefix(path, f));
        (if forward {
            items
        } else {
            items.reverse()
        }) + pending(stack.drop_last(), path, forward)
    }
}

/// The number of nodes that are left to walk.
pub open spec fn total_weight<'a, H: TreeNav<'a>>(stack: Seq<Frame<'a, H>>) -> nat
    decreases stack.len(),
{
    if stack.len() == 0 {
        0
    } else {
        weight(stack.last().node.seen_trie()) + total_weight(stack.drop_last())
    }
}

/// Frames lie along the path, and none is too deep.
pub open spec fn stack_ok<'a, H: TreeNav<'a>>(stack: Seq<Frame<'a, H>>, path: Seq<bool>) -> bool {
    &&& forall|i: int|
        0 <= i < stack.len() ==> (#[trigger] stack[i]).mark <= path.len() && stack[i].mark + ext_bits(stack[i].ext).len()
            + stack[i].node.seen_trie().depth() <= MAX_ROUTE_BITS
    &&& forall|i: int, j: int| 0 <= i < j < stack.len() ==> (#[trigger] stack[i]).mark <= (#[trigger] stack[j]).mark
}

/// Only the part of the path up to the last mark matters.
pub proof fn lemma_pending_path<'a, H: TreeNav<'a>>(stack: Seq<Frame<'a, H>>, a: Seq<bool>, b: Seq<bool>, n: int, forward: bool)
    requires
        forall|i: int| 0 <= i < stack.len() ==> (#[trigger] stack[i]).mark <= n,
        0 <= n <= a.len(),
        n <= b.len(),
        a.take(n) == b.take(n),
    ensures
        pending(stack, a, forward) == pending(stack, b, forward),
    decreases stack.len(),
{
    if stack.len() > 0 {
        let f = stack.last();
        assert(f == stack[stack.len() - 1]);
        assert forall|i: int| 0 <= i < stack.drop_last().len() implies (#[trigger] stack.drop_last()[i]).mark <= n by {
            assert(stack.drop_last()[i] == stack[i]);
        }
        lemma_pending_path(stack.drop_last(), a, b, n, forward);
        assert(a.take(f.mark as int) =~= a.take(n).take(f.mark as int));
        assert(b.take(f.mark as int) =~= b.take(n).take(f.mark as int));
    }
}

/// A trie is never without anything to walk.
pub proof fn lemma_flat_nonempty(t: Trie, prefix: Seq<bool>)
    ensures
        flat(t, prefix).len() > 0,
    decreases t,
{
    if let Trie::Branch { skip, left, right } = t {
        lemma_flat_nonempty(*left, prefix + skip + seq![false]);
    }
}

/// Walks the entries of a trie in order, or in reverse order.
pub struct Cursor<'a, H: TreeNav<'a>> {
    path: RoutePrefix,
    stack: Vec<Frame<'a, H>>,
    forward: bool,
}

impl<'a, H: TreeNav<'a>> Cursor<'a, H> {
    #[verifier::type_invariant]
    spec fn inv(self) -> bool {
        stack_ok(self.stack@, self.path@)
    }

    /// What is left to walk.
    pub closed spec fn items(&self) -> Seq<Item> {
        pending(self.stack@, self.path@, self.forward)
    }

    /// Whether the cursor walks from first to last.
    pub closed spec fn goes_forward(&self) -> bool {
        self.forward
    }

    /// With nothing to walk.
    pub fn empty() -> (r: Self)
        ensures
            r.items() == Seq::<Item>::empty(),
            r.goes_forward(),
    {
        Cursor { path: RoutePrefix::root(), stack: Vec::new(), forward: true }
    }

    /// A cursor with just the root on its stack.
    fn at_root(root: H, forward: bool) -> (r: Self)
        requires
            root.seen_trie().depth() <= MAX_ROUTE_BITS,
        ensures
            r.goes_forward() == forward,
            r.items() == (if forward {
                flat(root.seen_trie(), Seq::empty())
            } else {
                flat(root.seen_trie(), Seq::empty()).reverse()
            }),
    {
        let mut stack: Vec<Frame<'a, H>> = Vec::new();
        stack.push(Frame { mark: 0, ext: None, node: root });
        let r = Cursor { path: RoutePrefix::root(), stack, forward };
        proof {
            let s = r.stack@;
            assert(s.drop_last() =~= Seq::empty());
            assert(frame_prefix(r.path@, s.last()) =~= Seq::empty());
            let x = flat(root.seen_trie(), Seq::empty());
            assert(pending(s.drop_last(), r.path@, forward) =~= Seq::empty());
            assert(x + Seq::<Item>::empty() =~= x);
            assert(x.reverse() + Seq::<Item>::empty() =~= x.reverse());
        }
        r
    }

    /// At the first entry.
    pub fn first(root: H) -> (r: Self)
        requires
            root.seen_trie().depth() <= MAX_ROUTE_BITS,
        ensures
            r.goes_forward(),
            r.items() == flat(root.seen_trie(), Seq::empty()),
    {
        Cursor::at_root(root, true)
    }

    /// At the last entry, going backwards.
    pub fn last(root: H) -> (r: Self)
        requires
            root.seen_trie().depth() <= MAX_ROUTE_BITS,
        ensures
            !r.goes_forward(),
            r.items() == flat(root.seen_trie(), Seq::empty()).reverse(),
    {
        Cursor::at_root(root, false)
    }

    /// At the first entry that does not come before `start`.
    pub fn seek_ge(root: H, start: &[u8]) -> (r: Result<Self, Error>)
        requires
            root.seen_trie().depth() <= MAX_ROUTE_BITS,
        ensures
            match r {
                Ok(c) => c.goes_forward() && start@.len() <= MAX_KEY_LEN && from_bound(
                    root.seen_trie(),
                    Seq::empty(),
                    route(start@),
                ) == Ok::<Seq<Item>, Fault>(c.items()),
                Err(e) => if start@.len() > MAX_KEY_LEN {
                    e.fault() == Fault::Key && e.text() == long_key_text("cursor seek_ge"@, start@.len())
                } else {
                    from_bound(root.seen_trie(), Seq::empty(), route(start@)) == Err::<Seq<Item>, Fault>(e.fault()) && (
                    e.fault() == Fault::Pruned ==> e.text() == "cursor lower-bound descent at "@ + shown(start@))
                },
            },
    {
        match validate_key_len(start, "cursor seek_ge") {
            Ok(_) => {},
            Err(e) => {
                return Err(e);
            },
        }
        let mut path = RoutePrefix::root();
        let mut stack: Vec<Frame<'a, H>> = Vec::new();
        assert(path@.take(0) + ext_bits(None) =~= path@);
        match push_lower_bound_forward(&mut path, &mut stack, root, Frame { mark: 0, ext: None, node: () }, start) {
            Ok(_) => {
                let c = Cursor { path, stack, forward: true };
                assert(c.items() + Seq::<Item>::empty() =~= c.items());
                proof {
                    let got = from_bound(root.seen_trie(), Seq::empty(), route(start@));
                    assert(got->Ok_0 + Seq::<Item>::empty() =~= got->Ok_0);
                }
                Ok(c)
            },
            Err(e) => Err(e),
        }
    }

    fn seek_back(root: H, end: &[u8], strict: bool) -> (r: Result<Self, Error>)
        requires
            root.seen_trie().depth() <= MAX_ROUTE_BITS,
        ensures
            match r {
                Ok(c) => !c.goes_forward() && end@.len() <= MAX_KEY_LEN && up_to_bound(
                    root.seen_trie(),
                    Seq::empty(),
                    route(end@),
                    strict,
                ) == Ok::<Seq<Item>, Fault>(c.items()),
                Err(e) => if end@.len() > MAX_KEY_LEN {
                    e.fault() == Fault::Key && e.text() == long_key_text(
                        if strict {
                            "cursor seek_lt"@
                        } else {
                            "cursor seek_le"@
                        },
                        end@.len(),
                    )
                } else {
                    up_to_bound(root.seen_trie(), Seq::empty(), route(end@), strict) == Err::<Seq<Item>, Fault>(e.fault())
                        && (e.fault() == Fault::Pruned ==> e.text() == "cursor upper-bound descent at "@ + shown(end@))
                },
            },
    {
        match validate_key_len(
            end,
            if strict {
                "cursor seek_lt"
            } else {
                "cursor seek_le"
            },
        ) {
            Ok(_) => {},
            Err(e) => {
                return Err(e);
            },
        }
        let mut path = RoutePrefix::root();
        let mut stack: Vec<Frame<'a, H>> = Vec::new();
        assert(path@.take(0) + ext_bits(None) =~= path@);
        match push_upper_bound_reverse(&mut path, &mut stack, root, Frame { mark: 0, ext: None, node: () }, end, strict) {
            Ok(_) => {
                let c = Cursor { path, stack, forward: false };
                proof {
                    let got = up_to_bound(root.seen_trie(), Seq::empty(), route(end@), strict);
                    assert(got->Ok_0 + Seq::<Item>::empty() =~= got->Ok_0);
                }
                Ok(c)
            },
            Err(e) => Err(e),
        }
    }

    /// At the last entry that does not come after `start`, going backwards.
    pub fn seek_le(root: H, start: &[u8]) -> (r: Result<Self, Error>)
        requires
            root.seen_trie().depth() <= MAX_ROUTE_BITS,
        ensures
            match r {
                Ok(c) => !c.goes_forward() && start@.len() <= MAX_KEY_LEN && up_to_bound(
                    root.seen_trie(),
                    Seq::empty(),
                    route(start@),
                    false,
                ) == Ok::<Seq<Item>, Fault>(c.items()),
                Err(e) => if start@.len() > MAX_KEY_LEN {
                    e.fault() == Fault::Key && e.text() == long_key_text("cursor seek_le"@, start@.len())
                } else {
                    up_to_bound(root.seen_trie(), Seq::empty(), route(start@), false) == Err::<Seq<Item>, Fault>(e.fault())
                        && (e.fault() == Fault::Pruned ==> e.text() == "cursor upper-bound descent at "@ + shown(start@))
                },
            },
    {
        Cursor::seek_back(root, start, false)
    }

    /// At the last entry that comes before `end`, going backwards.
    pub fn seek_lt(root: H, end: &[u8]) -> (r: Result<Self, Error>)
        requires
            root.seen_trie().depth() <= MAX_ROUTE_BITS,
        ensures
            match r {
                Ok(c) => !c.goes_forward() && end@.len() <= MAX_KEY_LEN && up_to_bound(
                    root.seen_trie(),
                    Seq::empty(),
                    route(end@),
                    true,
                ) == Ok::<Seq<Item>, Fault>(c.items()),
                Err(e) => if end@.len() > MAX_KEY_LEN {
                    e.fault() == Fault::Key && e.text() == long_key_text("cursor seek_lt"@, end@.len())
                } else {
                    up_to_bound(root.seen_trie(), Seq::empty(), route(end@), true) == Err::<Seq<Item>, Fault>(e.fault())
                        && (e.fault() == Fault::Pruned ==> e.text() == "cursor upper-bound descent at "@ + shown(end@))
                },
            },
    {
        Cursor::seek_back(root, end, true)
    }
}

/// Rebuilds the path to the node of a frame that was on top of the stack.
fn restore_path(path: &mut RoutePrefix, mark: u16, ext: Option<(&RouteBits, bool)>) -> (r: Result<(), Error>)
    requires
        mark <= old(path)@.len(),
        mark + ext_bits(ext).len() <= MAX_ROUTE_BITS,
    ensures
        r is Ok,
        final(path)@ == old(path)@.take(mark as int) + ext_bits(ext),
{
    path.truncate_to(mark);
    match ext {
        Some((skip, bit)) => {
            proof {
                assert(path@ + skip@ + seq![bit] =~= path@ + (skip@ + seq![bit]));
            }
            path.descend_in_place(skip, bit)
        },
        None => {
            assert(path@ + Seq::<bool>::empty() =~= path@);
            Ok(())
        },
    }
}

/// Pushes what lies from `key` on, of a node that `path` leads to, and tells
/// whether there is anything. `restore` tells how a frame for that node gets
/// back to it.
#[verifier::spinoff_prover]
#[verifier::rlimit(60)]
pub fn push_lower_bound_forward<'a, H: TreeNav<'a>>(
    path: &mut RoutePrefix,
    stack: &mut Vec<Frame<'a, H>>,
    node: H,
    restore: Frame<'a, ()>,
    key: &[u8],
) -> (r: Result<bool, Error>)
    requires
        key@.len() <= MAX_KEY_LEN,
        stack_ok(old(stack)@, old(path)@),
        restore.mark <= old(path)@.len(),
        old(path)@.take(restore.mark as int) + ext_bits(restore.ext) == old(path)@,
        forall|i: int| 0 <= i < old(stack)@.len() ==> (#[trigger] old(stack)@[i]).mark <= restore.mark,
        old(path)@.len() + node.seen_trie().depth() <= MAX_ROUTE_BITS,
    ensures
        match (r, from_bound(node.seen_trie(), old(path)@, route(key@))) {
            (Ok(any), Ok(items)) => {
                &&& any == (items.len() > 0)
                &&& stack_ok(final(stack)@, final(path)@)
                &&& pending(final(stack)@, final(path)@, true) == items + pending(old(stack)@, old(path)@, true)
                &&& old(path)@.len() <= final(path)@.len()
                &&& final(path)@.take(old(path)@.len() as int) == old(path)@
            },
            (Err(e), Err(f)) => e.fault() == f && (f == Fault::Pruned ==> e.text() == "cursor lower-bound descent at "@
                + shown(key@)),
            _ => false,
        },
        old(path)@.len() == 0 && old(stack)@.len() == 0 && sound(Some(node.seen_trie())) ==> {
            let m = contents(Some(node.seen_trie()));
            r matches Ok(any) && {
                &&& any <==> exists|k: Seq<u8>| #[trigger] m.dom().contains(k) && !key_lt(k, key@)
                &&& walks_from(pending(final(stack)@, final(path)@, true), m, key@)
            }
        },
    decreases node.seen_trie(),
{
    let ghost p0 = path@;
    let ghost s0 = stack@;
    proof {
        if p0.len() == 0 && s0.len() == 0 && sound(Some(node.seen_trie())) {
            law_walk_lists_store(node.seen_trie(), key@);
            assert(p0 =~= Seq::empty());
            let items = from_bound(node.seen_trie(), p0, route(key@))->Ok_0;
            assert(items + pending(s0, p0, true) =~= items);
        }
        lemma_flat_some(node.seen_trie(), p0);
    }
    let Frame { mark, ext, node: _ } = restore;
    match node.step() {
        NavStep::Leaf { skip, value } => match path.key_with_suffix_scratch(skip) {
            Ok(leaf_key) => {
                proof {
                    lemma_key_order(leaf_key@, key@);
                }
                if !key_less(leaf_key.as_slice(), key) {
                    stack.push(Frame { mark, ext, node });
                    proof {
                        assert(stack@.drop_last() =~= s0);
                        assert(p0.take(p0.len() as int) =~= p0);
                    }
                    Ok(true)
                } else {
                    proof {
                        assert(p0.take(p0.len() as int) =~= p0);
                        assert(Seq::<Item>::empty() + pending(s0, p0, true) =~= pending(s0, p0, true));
                    }
                    Ok(false)
                }
            },
            Err(e) => Err(e),
        },
        NavStep::Branch { skip, left, right } => {
            let depth: u16 = path.bit_len();
            match classify_bound(key, depth, skip) {
                BoundPosition::Before => {
                    stack.push(Frame { mark, ext, node });
                    proof {
                        assert(stack@.drop_last() =~= s0);
                        assert(p0.take(p0.len() as int) =~= p0);
                    }
                    Ok(true)
                },
                BoundPosition::After => {
                    proof {
                        assert(p0.take(p0.len() as int) =~= p0);
                        assert(Seq::<Item>::empty() + pending(s0, p0, true) =~= pending(s0, p0, true));
                    }
                    Ok(false)
                },
                BoundPosition::InLeft => {
                    stack.push(Frame { mark: depth, ext: Some((skip, true)), node: right });
                    let ghost s1 = stack@;
                    match path.descend_in_place(skip, false) {
                        Ok(_) => {},
                        Err(e) => {
                            return Err(e);
                        },
                    }
                    let ghost p1 = path@;
                    proof {
                        assert(p1.take(depth as int) =~= p0);
                        assert(s1.drop_last() =~= s0);
                        assert(p1.take(depth as int) + ext_bits(Some((skip, true))) =~= p0 + skip@ + seq![true]);
                        assert(p1.take(depth as int) + ext_bits(Some((skip, false))) =~= p1);
                        assert(p0.take(depth as int) =~= p0);
                        lemma_pending_path(s0, p0, p1, depth as int, true);
                        assert(pending(s1, p1, true) == flat(right.seen_trie(), p0 + skip@ + seq![true]) + pending(
                            s0,
                            p0,
                            true,
                        ));
                    }
                    match push_lower_bound_forward(
                        path,
                        stack,
                        left,
                        Frame { mark: depth, ext: Some((skip, false)), node: () },
                        key,
                    ) {
                        Ok(_) => {
                            proof {
                                let items = from_bound(left.seen_trie(), p1, route(key@))->Ok_0;
                                let fr = flat(right.seen_trie(), p0 + skip@ + seq![true]);
                                lemma_flat_some(right.seen_trie(), p0 + skip@ + seq![true]);
                                assert(items + (fr + pending(s0, p0, true)) =~= (items + fr) + pending(s0, p0, true));
                                assert(path@.take(depth as int) =~= path@.take(p1.len() as int).take(depth as int));
                            }
                            Ok(true)
                        },
                        Err(e) => Err(e),
                    }
                },
                BoundPosition::InRight => {
                    match path.descend_in_place(skip, true) {
                        Ok(_) => {},
                        Err(e) => {
                            return Err(e);
                        },
                    }
                    let ghost p1 = path@;
                    proof {
                        assert(p1.take(depth as int) =~= p0);
                        assert(p0.take(depth as int) =~= p0);
                        assert(p1.take(depth as int) + ext_bits(Some((skip, true))) =~= p1);
                        lemma_pending_path(s0, p0, p1, depth as int, true);
                    }
                    let r = push_lower_bound_forward(
                        path,
                        stack,
                        right,
                        Frame { mark: depth, ext: Some((skip, true)), node: () },
                        key,
                    );
                    proof {
                        if r is Ok {
                            assert(path@.take(depth as int) =~= path@.take(p1.len() as int).take(depth as int));
                        }
                    }
                    r
                },
            }
        },
        NavStep::Pruned => Err(Error::PrunedNode(told_with("cursor lower-bound descent at ", key))),
    }
}

/// Pushes what lies up to `key`, of a node that `path` leads to, for a walk
/// backwards, and tells whether there is anything; with `strict`, without `key`
/// itself.
#[verifier::spinoff_prover]
#[verifier::rlimit(60)]
pub fn push_upper_bound_reverse<'a, H: TreeNav<'a>>(
    path: &mut RoutePrefix,
    stack: &mut Vec<Frame<'a, H>>,
    node: H,
    restore: Frame<'a, ()>,
    key: &[u8],
    strict: bool,
) -> (r: Result<bool, Error>)
    requires
        key@.len() <= MAX_KEY_LEN,
        stack_ok(old(stack)@, old(path)@),
        restore.mark <= old(path)@.len(),
        old(path)@.take(restore.mark as int) + ext_bits(restore.ext) == old(path)@,
        forall|i: int| 0 <= i < old(stack)@.len() ==> (#[trigger] old(stack)@[i]).mark <= restore.mark,
        old(path)@.len() + node.seen_trie().depth() <= MAX_ROUTE_BITS,
    ensures
        match (r, up_to_bound(node.seen_trie(), old(path)@, route(key@), strict)) {
            (Ok(any), Ok(items)) => {
                &&& any == (items.len() > 0)
                &&& stack_ok(final(stack)@, final(path)@)
                &&& pending(final(stack)@, final(path)@, false) == items + pending(old(stack)@, old(path)@, false)
                &&& old(path)@.len() <= final(path)@.len()
                &&& final(path)@.take(old(path)@.len() as int) == old(path)@
            },
            (Err(e), Err(f)) => e.fault() == f && (f == Fault::Pruned ==> e.text() == "cursor upper-bound descent at "@
                + shown(key@)),
            _ => false,
        },
        old(path)@.len() == 0 && old(stack)@.len() == 0 && sound(Some(node.seen_trie())) ==> {
            let m = contents(Some(node.seen_trie()));
            r matches Ok(any) && {
                &&& any <==> exists|k: Seq<u8>| #[trigger] m.dom().contains(k) && walked_back(key@, strict)(k)
                &&& walks_back(pending(final(stack)@, final(path)@, false), m, key@, strict)
            }
        },
    decreases node.seen_trie(),
{
    let ghost p0 = path@;
    let ghost s0 = stack@;
    proof {
        if p0.len() == 0 && s0.len() == 0 && sound(Some(node.seen_trie())) {
            law_walk_back_lists_store(node.seen_trie(), key@, strict);
            assert(p0 =~= Seq::empty());
            let items = up_to_bound(node.seen_trie(), p0, route(key@), strict)->Ok_0;
            assert(items + pending(s0, p0, false) =~= items);
        }
        lemma_flat_some(node.seen_trie(), p0);
    }
    let Frame { mark, ext, node: _ } = restore;
    match node.step() {
        NavStep::Leaf { skip, value } => match path.key_with_suffix_scratch(skip) {
            Ok(leaf_key) => {
                proof {
                    lemma_key_order(leaf_key@, key@);
                    if route(leaf_key@) == route(key@) {
                        lemma_key_ext(leaf_key@, key@);
                    }
                }
                if key_less(leaf_key.as_slice(), key) || (!strict && key_same(leaf_key.as_slice(), key)) {
                    stack.push(Frame { mark, ext, node });
                    proof {
                        assert(stack@.drop_last() =~= s0);
                        assert(p0.take(p0.len() as int) =~= p0);
                        let f = flat(node.seen_trie(), p0);
                        assert(f.reverse() =~= f);
                    }
                    Ok(true)
                } else {
                    proof {
                        assert(p0.take(p0.len() as int) =~= p0);
                        assert(Seq::<Item>::empty() + pending(s0, p0, false) =~= pending(s0, p0, false));
                    }
                    Ok(false)
                }
            },
            Err(e) => Err(e),
        },
        NavStep::Branch { skip, left, right } => {
            let depth: u16 = path.bit_len();
            match classify_bound(key, depth, skip) {
                BoundPosition::After => {
                    stack.push(Frame { mark, ext, node });
                    proof {
                        assert(stack@.drop_last() =~= s0);
                        assert(p0.take(p0.len() as int) =~= p0);
                    }
                    Ok(true)
                },
                BoundPosition::Before => {
                    proof {
                        assert(p0.take(p0.len() as int) =~= p0);
                        assert(Seq::<Item>::empty() + pending(s0, p0, false) =~= pending(s0, p0, false));
                    }
                    Ok(false)
                },
                BoundPosition::InRight => {
                    stack.push(Frame { mark: depth, ext: Some((skip, false)), node: left });
                    let ghost s1 = stack@;
                    match path.descend_in_place(skip, true) {
                        Ok(_) => {},
                        Err(e) => {
                            return Err(e);
                        },
                    }
                    let ghost p1 = path@;
                    proof {
                        assert(p1.take(depth as int) =~= p0);
                        assert(s1.drop_last() =~= s0);
                        assert(p1.take(depth as int) + ext_bits(Some((skip, false))) =~= p0 + skip@ + seq![false]);
                        assert(p1.take(depth as int) + ext_bits(Some((skip, true))) =~= p1);
                        assert(p0.take(depth as int) =~= p0);
                        lemma_pending_path(s0, p0, p1, depth as int, false);
                        assert(pending(s1, p1, false) == flat(left.seen_trie(), p0 + skip@ + seq![false]).reverse()
                            + pending(s0, p0, false));
                    }
                    match push_upper_bound_reverse(
                        path,
                        stack,
                        right,
                        Frame { mark: depth, ext: Some((skip, true)), node: () },
                        key,
                        strict,
                    ) {
                        Ok(_) => {
                            proof {
                                let items = up_to_bound(right.seen_trie(), p1, route(key@), strict)->Ok_0;
                                let fl = flat(left.seen_trie(), p0 + skip@ + seq![false]).reverse();
                                lemma_flat_some(left.seen_trie(), p0 + skip@ + seq![false]);
                                assert(items + (fl + pending(s0, p0, false)) =~= (items + fl) + pending(s0, p0, false));
                                assert(path@.take(depth as int) =~= path@.take(p1.len() as int).take(depth as int));
                            }
                            Ok(true)
                        },
                        Err(e) => Err(e),
                    }
                },
                BoundPosition::InLeft => {
                    match path.descend_in_place(skip, false) {
                        Ok(_) => {},
                        Err(e) => {
                            return Err(e);
                        },
                    }
                    let ghost p1 = path@;
                    proof {
                        assert(p1.take(depth as int) =~= p0);
                        assert(p0.take(depth as int) =~= p0);
                        assert(p1.take(depth as int) + ext_bits(Some((skip, false))) =~= p1);
                        lemma_pending_path(s0, p0, p1, depth as int, false);
                    }
                    let r = push_upper_bound_reverse(
                        path,
                        stack,
                        left,
                        Frame { mark: depth, ext: Some((skip, false)), node: () },
                        key,
                        strict,
                    );
                    proof {
                        if r is Ok {
                            assert(path@.take(depth as int) =~= path@.take(p1.len() as int).take(depth as int));
                        }
                    }
                    r
                },
            }
        },
        NavStep::Pruned => Err(Error::PrunedNode(told_with("cursor upper-bound descent at ", key))),
    }
}

/// Reversing two parts swaps them.
pub proof fn lemma_reverse_add(a: Seq<Item>, b: Seq<Item>)
    ensures
        (a + b).reverse() == b.reverse() + a.reverse(),
{
    assert((a + b).reverse() =~= b.reverse() + a.reverse());
}

/// The key of a leaf is the packed form of its route.
pub proof fn lemma_leaf_key(key: Seq<u8>, r: Seq<bool>)
    requires
        route(key) == r,
    ensures
        key == pack(r),
        r.len() % 8 == 0,
{
    lemma_route_of_pack(r);
    lemma_key_ext(key, pack(r));
}

/// What a step of a walk gave: the entry of the first item, or the error that
/// it stands for, if there was one left.
pub open spec fn walked(r: Result<Option<(Vec<u8>, &[u8])>, Error>, before: Seq<Item>, after: Seq<Item>) -> bool {
    match r {
        Ok(None) => before.len() == 0 && after.len() == 0,
        Ok(Some((key, value))) => before.len() > 0 && entry(before[0]) == Ok::<(Seq<u8>, Seq<u8>), Fault>((key@, value@))
            && after == before.skip(1),
        Err(e) => before.len() > 0 && entry(before[0]) == Err::<(Seq<u8>, Seq<u8>), Fault>(e.fault()) && after
            == before.skip(1),
    }
}

/// A walk goes on one item at a time, gives the entry of each, and loses none; it ends
/// just if no item is left.
pub proof fn law_walk_goes_on_in_turn(r: Result<Option<(Vec<u8>, &[u8])>, Error>, before: Seq<Item>, after: Seq<Item>)
    requires
        walked(r, before, after),
    ensures
        r matches Ok(None) <==> before.len() == 0,
        before.len() > 0 ==> before == seq![before[0]] + after,
        r matches Ok(Some((key, value))) ==> entry(before[0]) == Ok::<(Seq<u8>, Seq<u8>), Fault>((key@, value@)),
        r is Err ==> entry(before[0]) is Err,
{
    if before.len() > 0 {
        assert(before =~= seq![before[0]] + after);
    }
}

/// What is said of a walk that came to a pruned node.
pub open spec fn walk_text(forward: bool) -> Seq<char> {
    if forward {
        "cursor next descent"@
    } else {
        "cursor prev descent"@
    }
}

/// Walks on to the next entry.
fn advance<'a, H: TreeNav<'a>>(path: &mut RoutePrefix, stack: &mut Vec<Frame<'a, H>>, forward: bool) -> (r: Result<
    Option<(Vec<u8>, &'a [u8])>,
    Error,
>)
    requires
        stack_ok(old(stack)@, old(path)@),
    ensures
        stack_ok(final(stack)@, final(path)@),
        walked(r, pending(old(stack)@, old(path)@, forward), pending(final(stack)@, final(path)@, forward)),
        r matches Err(e) ==> e.fault() == Fault::Pruned ==> e.text() == walk_text(forward),
{
    let ghost before = pending(stack@, path@, forward);
    loop
        invariant
            stack_ok(stack@, path@),
            pending(stack@, path@, forward) == before,
            before == pending(old(stack)@, old(path)@, forward),
        decreases total_weight(stack@),
    {
        let ghost s0 = stack@;
        let ghost p0 = path@;
        let frame = match stack.pop() {
            Some(f) => f,
            None => {
                return Ok(None);
            },
        };
        let ghost s1 = stack@;
        proof {
            assert(frame == s0[s0.len() - 1]);
            assert(s1 =~= s0.drop_last());
            assert forall|i: int| 0 <= i < s1.len() implies (#[trigger] s1[i]).mark <= frame.mark by {
                assert(s1[i] == s0[i]);
            }
        }
        match restore_path(path, frame.mark, frame.ext) {
            Ok(_) => {},
            Err(e) => {
                return Err(e);
            },
        }
        let ghost p1 = path@;
        let ghost t = frame.node.seen_trie();
        proof {
            assert(p1.take(frame.mark as int) =~= p0.take(frame.mark as int));
            lemma_pending_path(s1, p0, p1, frame.mark as int, forward);
            lemma_flat_nonempty(t, p1);
        }
        match frame.node.step() {
            NavStep::Leaf { skip, value } => {
                proof {
                    let f = flat(t, p1);
                    assert(f.reverse() =~= f);
                    assert(before.skip(1) =~= pending(s1, p1, forward));
                }
                return match path.key_with_suffix_scratch(skip) {
                    Ok(key) => {
                        proof {
                            lemma_leaf_key(key@, p1 + skip@);
                        }
                        Ok(Some((key, value)))
                    },
                    Err(e) => Err(e),
                };
            },
            NavStep::Branch { skip, left, right } => {
                let mark: u16 = path.bit_len();
                if forward {
                    stack.push(Frame { mark, ext: Some((skip, true)), node: right });
                    let ghost s2 = stack@;
                    stack.push(Frame { mark, ext: Some((skip, false)), node: left });
                    proof {
                        assert(s2.drop_last() =~= s1);
                        assert(stack@.drop_last() =~= s2);
                        lemma_two_pushed(s1, s2, stack@, p1, forward);
                        let a = flat(left.seen_trie(), p1 + skip@ + seq![false]);
                        let b = flat(right.seen_trie(), p1 + skip@ + seq![true]);
                        assert(p1.take(mark as int) =~= p1);
                        assert(p1 + (skip@ + seq![false]) =~= p1 + skip@ + seq![false]);
                        assert(p1 + (skip@ + seq![true]) =~= p1 + skip@ + seq![true]);
                        assert((a + b) + pending(s1, p1, forward) =~= a + (b + pending(s1, p1, forward)));
                    }
                } else {
                    stack.push(Frame { mark, ext: Some((skip, false)), node: left });
                    let ghost s2 = stack@;
                    stack.push(Frame { mark, ext: Some((skip, true)), node: right });
                    proof {
                        assert(s2.drop_last() =~= s1);
                        assert(stack@.drop_last() =~= s2);
                        lemma_two_pushed(s1, s2, stack@, p1, forward);
                        let a = flat(left.seen_trie(), p1 + skip@ + seq![false]);
                        let b = flat(right.seen_trie(), p1 + skip@ + seq![true]);
                        lemma_reverse_add(a, b);
                        assert(p1.take(mark as int) =~= p1);
                        assert(p1 + (skip@ + seq![false]) =~= p1 + skip@ + seq![false]);
                        assert(p1 + (skip@ + seq![true]) =~= p1 + skip@ + seq![true]);
                        assert((b.reverse() + a.reverse()) + pending(s1, p1, forward) =~= b.reverse() + (a.reverse()
                            + pending(s1, p1, forward)));
                    }
                }
            },
            NavStep::Pruned => {
                proof {
                    let f = flat(t, p1);
                    assert(f.reverse() =~= f);
                    assert(before.skip(1) =~= pending(s1, p1, forward));
                }
                return Err(
                    Error::PrunedNode(
                        told(
                            if forward {
                                "cursor next descent"
                            } else {
                                "cursor prev descent"
                            },
                        ),
                    ),
                );
            },
        }
    }
}

/// What is pending, and how much, after two pushes.
proof fn lemma_two_pushed<'a, H: TreeNav<'a>>(
    s1: Seq<Frame<'a, H>>,
    s2: Seq<Frame<'a, H>>,
    s3: Seq<Frame<'a, H>>,
    path: Seq<bool>,
    forward: bool,
)
    requires
        s2.len() == s1.len() + 1,
        s3.len() == s2.len() + 1,
        s2.drop_last() == s1,
        s3.drop_last() == s2,
    ensures
        total_weight(s3) == weight(s3.last().node.seen_trie()) + weight(s2.last().node.seen_trie()) + total_weight(s1),
        pending(s3, path, true) == flat(s3.last().node.seen_trie(), frame_prefix(path, s3.last())) + (flat(
            s2.last().node.seen_trie(),
            frame_prefix(path, s2.last()),
        ) + pending(s1, path, true)),
        pending(s3, path, false) == flat(s3.last().node.seen_trie(), frame_prefix(path, s3.last())).reverse() + (flat(
            s2.last().node.seen_trie(),
            frame_prefix(path, s2.last()),
        ).reverse() + pending(s1, path, false)),
{
    reveal_with_fuel(pending, 3);
    reveal_with_fuel(total_weight, 3);
}

impl<'a, H: TreeNav<'a>> Cursor<'a, H> {
    fn walk(&mut self) -> (r: Result<Option<(Vec<u8>, &'a [u8])>, Error>)
        ensures
            final(self).goes_forward() == old(self).goes_forward(),
            walked(r, old(self).items(), final(self).items()),
            r matches Err(e) ==> e.fault() == Fault::Pruned ==> e.text() == walk_text(old(self).goes_forward()),
    {
        let mut taken: Cursor<'a, H> = Cursor::empty();
        std::mem::swap(self, &mut taken);
        proof {
            use_type_invariant(&taken);
        }
        let Cursor { mut path, mut stack, forward } = taken;
        let r = advance(&mut path, &mut stack, forward);
        *self = Cursor { path, stack, forward };
        r
    }

    /// The next entry of a walk forward.
    pub fn next_leaf(&mut self) -> (r: Result<Option<(Vec<u8>, &'a [u8])>, Error>)
        requires
            old(self).goes_forward(),
        ensures
            final(self).goes_forward(),
            walked(r, old(self).items(), final(self).items()),
            r matches Err(e) ==> e.fault() == Fault::Pruned ==> e.text() == walk_text(true),
    {
        self.walk()
    }

    /// As [`Cursor::next_leaf`].
    pub fn next(&mut self) -> (r: Result<Option<(Vec<u8>, &'a [u8])>, Error>)
        requires
            old(self).goes_forward(),
        ensures
            final(self).goes_forward(),
            walked(r, old(self).items(), final(self).items()),
            r matches Err(e) ==> e.fault() == Fault::Pruned ==> e.text() == walk_text(true),
    {
        self.next_leaf()
    }

    /// The next entry of a walk backwards.
    pub fn prev_leaf(&mut self) -> (r: Result<Option<(Vec<u8>, &'a [u8])>, Error>)
        requires
            !old(self).goes_forward(),
        ensures
            !final(self).goes_forward(),
            walked(r, old(self).items(), final(self).items()),
            r matches Err(e) ==> e.fault() == Fault::Pruned ==> e.text() == walk_text(false),
    {
        self.walk()
    }

    /// As [`Cursor::prev_leaf`].
    pub fn prev(&mut self) -> (r: Result<Option<(Vec<u8>, &'a [u8])>, Error>)
        requires
            !old(self).goes_forward(),
        ensures
            !final(self).goes_forward(),
            walked(r, old(self).items(), final(self).items()),
            r matches Err(e) ==> e.fault() == Fault::Pruned ==> e.text() == walk_text(false),
    {
        self.prev_leaf()
    }
}

/// Looks for `key` along its own route, which does not touch its neighbours.
pub fn get_descent<'a, H: TreeNav<'a>>(root: H, key: &[u8]) -> (r: Result<Option<&'a [u8]>, Error>)
    requires
        root.seen_trie().depth() <= MAX_ROUTE_BITS,
    ensures
        crate::mrt::tree::finds(r, find_root(Some(root.seen_trie()), key@)),
        r matches Err(e) ==> e.text() == (if key@.len() > MAX_KEY_LEN {
            long_key_text("get descent"@, key@.len())
        } else {
            "MRT get descent at key "@ + shown(key@)
        }),
{
    match validate_key_len(key, "get descent") {
        Ok(_) => {},
        Err(e) => {
            return Err(e);
        },
    }
    let mut cur: H = root;
    let mut depth: u16 = 0;
    loop
        invariant
            key@.len() <= MAX_KEY_LEN,
            depth + cur.seen_trie().depth() <= MAX_ROUTE_BITS,
            root.seen_trie().find(route(key@), 0) == cur.seen_trie().find(route(key@), depth as int),
        decreases cur.seen_trie(),
    {
        match cur.step() {
            NavStep::Leaf { skip, value } => {
                if leaf_matches(skip, key, depth) {
                    return Ok(Some(value));
                }
                return Ok(None);
            },
            NavStep::Branch { skip, left, right } => {
                if !skip_matches(skip, key, depth) {
                    return Ok(None);
                }
                let branch_depth: u16 = depth + skip.bit_len();
                let side: bool = route_bit_at(key, branch_depth);
                depth = branch_depth + 1;
                cur = if !side {
                    left
                } else {
                    right
                };
            },
            NavStep::Pruned => {
                return Err(Error::PrunedNode(told_with("MRT get descent at key ", key)));
            },
        }
    }
}

/// The trie that can be seen from a handle that may be missing.
pub open spec fn nav_root<'a, H: TreeNav<'a>>(root: Option<H>) -> Option<Trie> {
    match root {
        Some(h) => Some(h.seen_trie()),
        None => None,
    }
}

/// No route is longer than a key can be.
pub open spec fn shallow(root: Option<Trie>) -> bool {
    root matches Some(t) ==> t.depth() <= MAX_ROUTE_BITS
}

/// Whether a lookup gave what the model gives.
pub open spec fn got(r: Result<Option<Vec<u8>>, Error>, m: Result<Option<Seq<u8>>, Fault>) -> bool {
    match (r, m) {
        (Ok(a), Ok(b)) => same_bytes(a, b),
        (Err(e), Err(f)) => e.fault() == f,
        _ => false,
    }
}

/// The value under `key`.
pub fn point_get<'a, H: TreeNav<'a>>(root: Option<H>, key: &[u8]) -> (r: Result<Option<Vec<u8>>, Error>)
    requires
        shallow(nav_root(root)),
    ensures
        got(r, find_root(nav_root(root), key@)),
        r matches Err(e) ==> e.text() == (if key@.len() > MAX_KEY_LEN {
            long_key_text("mrt get"@, key@.len())
        } else {
            "MRT get descent at key "@ + shown(key@)
        }),
{
    match validate_key_len(key, "mrt get") {
        Ok(_) => {},
        Err(e) => {
            return Err(e);
        },
    }
    match root {
        None => Ok(None),
        Some(root) => match get_descent(root, key) {
            Ok(Some(value)) => Ok(Some(key_copy(value))),
            Ok(None) => Ok(None),
            Err(e) => Err(e),
        },
    }
}

/// Collects entries until the walk stops or there are no more.
fn collect_forward_until<'a, H: TreeNav<'a>>(source: Cursor<'a, H>, stop: Stop<'_>) -> (r: Result<
    Vec<(Vec<u8>, Vec<u8>)>,
    Error,
>)
    requires
        source.goes_forward(),
    ensures
        gives(r, rows_of(drain(source.items(), stop@))),
{
    let mut cursor = source;
    let ghost start = cursor.items();
    let mut out: Vec<(Vec<u8>, Vec<u8>)> = Vec::new();
    assert(rows_view(out@) + drain(start, stop@).rows =~= drain(start, stop@).rows);
    loop
        invariant
            cursor.goes_forward(),
            start == source.items(),
            drain(start, stop@).end == drain(cursor.items(), stop@).end,
            drain(start, stop@).rows == rows_view(out@) + drain(cursor.items(), stop@).rows,
        decreases cursor.items().len(),
    {
        let ghost items = cursor.items();
        match cursor.next_leaf() {
            Err(e) => {
                return Err(e);
            },
            Ok(None) => {
                assert(rows_view(out@) + Seq::<(Seq<u8>, Seq<u8>)>::empty() =~= rows_view(out@));
                return Ok(out);
            },
            Ok(Some((key, value))) => {
                if stop.fires(key.as_slice()) {
                    assert(rows_view(out@) + Seq::<(Seq<u8>, Seq<u8>)>::empty() =~= rows_view(out@));
                    return Ok(out);
                }
                let ghost before = out@;
                let row = (key, key_copy(value));
                out.push(row);
                proof {
                    let d = drain(items.skip(1), stop@);
                    assert(rows_view(out@) =~= rows_view(before) + seq![(row.0@, row.1@)]);
                    assert(rows_view(before) + (seq![(row.0@, row.1@)] + d.rows) =~= rows_view(out@) + d.rows);
                }
            },
        }
    }
}

/// All entries.
pub fn collect_all<'a, H: TreeNav<'a>>(root: Option<H>) -> (r: Result<Vec<(Vec<u8>, Vec<u8>)>, Error>)
    requires
        shallow(nav_root(root)),
    ensures
        gives(
            r,
            match nav_root(root) {
                Some(t) => rows_of(drain(flat(t, Seq::empty()), Until::Never)),
                None => Ok(Seq::empty()),
            },
        ),
{
    match root {
        None => {
            let out: Vec<(Vec<u8>, Vec<u8>)> = Vec::new();
            assert(rows_view(out@) =~= Seq::empty());
            Ok(out)
        },
        Some(root) => collect_forward_until(Cursor::first(root), Stop::Never),
    }
}

/// Scans from `start` on until the walk stops.
fn scan_forward<'a, H: TreeNav<'a>>(root: Option<H>, start: &[u8], stop: Stop<'_>) -> (r: Result<
    Vec<(Vec<u8>, Vec<u8>)>,
    Error,
>)
    requires
        shallow(nav_root(root)),
        start@.len() <= MAX_KEY_LEN,
    ensures
        gives(r, scan_root(nav_root(root), route(start@), stop@)),
{
    match root {
        None => {
            let out: Vec<(Vec<u8>, Vec<u8>)> = Vec::new();
            assert(rows_view(out@) =~= Seq::empty());
            Ok(out)
        },
        Some(root) => match Cursor::seek_ge(root, start) {
            Ok(cursor) => collect_forward_until(cursor, stop),
            Err(e) => Err(e),
        },
    }
}

/// What reading the entries from `start` up to but not including `end` gives;
/// with no `end`, all from `start` on.
pub open spec fn read_range(root: Option<Trie>, start: Seq<u8>, end: Option<Seq<u8>>) -> Result<
    Seq<(Seq<u8>, Seq<u8>)>,
    Fault,
> {
    if start.len() > MAX_KEY_LEN || (end matches Some(e) && e.len() > MAX_KEY_LEN) {
        Err(Fault::Key)
    } else {
        match end {
            None => scan_root(root, route(start), Until::Never),
            Some(e) => if !key_lt(start, e) {
                Ok(Seq::empty())
            } else {
                scan_root(root, route(start), Until::From(e))
            },
        }
    }
}

/// What reading the entries whose keys begin with `prefix` gives.
pub open spec fn read_prefix(root: Option<Trie>, prefix: Seq<u8>) -> Result<Seq<(Seq<u8>, Seq<u8>)>, Fault> {
    if prefix.len() > MAX_KEY_LEN {
        Err(Fault::Key)
    } else {
        scan_root(root, route(prefix), Until::Outside(prefix))
    }
}

/// What reading the entries from `start` up to and including `end` gives.
pub open spec fn read_range_inclusive(root: Option<Trie>, start: Seq<u8>, end: Seq<u8>) -> Result<
    Seq<(Seq<u8>, Seq<u8>)>,
    Fault,
> {
    if start.len() > MAX_KEY_LEN || end.len() > MAX_KEY_LEN {
        Err(Fault::Key)
    } else {
        scan_root(root, route(start), Until::After(end))
    }
}

/// The view of an optional bound.
pub open spec fn end_view(end: Option<&[u8]>) -> Option<Seq<u8>> {
    match end {
        Some(e) => Some(e@),
        None => None,
    }
}

/// What is said of a range with a bound that is too long.
pub open spec fn long_bound_text(start: Seq<u8>, end: Option<Seq<u8>>) -> Seq<char> {
    if start.len() > MAX_KEY_LEN {
        long_key_text("mrt range start"@, start.len())
    } else {
        long_key_text("mrt range end"@, end->0.len())
    }
}

/// The entries from `start` up to but not including `end`.
pub fn collect_range<'a, H: TreeNav<'a>>(root: Option<H>, start: &[u8], end: Option<&[u8]>) -> (r: Result<
    Vec<(Vec<u8>, Vec<u8>)>,
    Error,
>)
    requires
        shallow(nav_root(root)),
    ensures
        gives(r, read_range(nav_root(root), start@, end_view(end))),
        r matches Err(e) ==> start@.len() > MAX_KEY_LEN || (end matches Some(e) && e@.len() > MAX_KEY_LEN) ==> e.text()
            == long_bound_text(start@, end_view(end)),
{
    match validate_key_len(start, "mrt range start") {
        Ok(_) => {},
        Err(e) => {
            return Err(e);
        },
    }
    match end {
        Some(end) => {
            match validate_key_len(end, "mrt range end") {
                Ok(_) => {},
                Err(e) => {
                    return Err(e);
                },
            }
            if !key_less(start, end) {
                let out: Vec<(Vec<u8>, Vec<u8>)> = Vec::new();
                assert(rows_view(out@) =~= Seq::empty());
                return Ok(out);
            }
            scan_forward(root, start, Stop::From(end))
        },
        None => scan_forward(root, start, Stop::Never),
    }
}

/// The entries whose keys begin with `prefix`.
pub fn collect_prefix<'a, H: TreeNav<'a>>(root: Option<H>, prefix: &[u8]) -> (r: Result<Vec<(Vec<u8>, Vec<u8>)>, Error>)
    requires
        shallow(nav_root(root)),
    ensures
        gives(r, read_prefix(nav_root(root), prefix@)),
        r matches Err(e) ==> prefix@.len() > MAX_KEY_LEN ==> e.text() == long_key_text("mrt prefix"@, prefix@.len()),
{
    match validate_key_len(prefix, "mrt prefix") {
        Ok(_) => {},
        Err(e) => {
            return Err(e);
        },
    }
    scan_forward(root, prefix, Stop::Outside(prefix))
}

/// The entries from `start` up to and including `end`.
pub fn collect_range_inclusive<'a, H: TreeNav<'a>>(root: Option<H>, start: &[u8], end: &[u8]) -> (r: Result<
    Vec<(Vec<u8>, Vec<u8>)>,
    Error,
>)
    requires
        shallow(nav_root(root)),
        start@.len() <= MAX_KEY_LEN && end@.len() <= MAX_KEY_LEN ==> !key_lt(end@, start@),
    ensures
        gives(r, read_range_inclusive(nav_root(root), start@, end@)),
        r matches Err(e) ==> start@.len() > MAX_KEY_LEN ==> e.text() == long_key_text(
            "mrt inclusive range start"@,
            start@.len(),
        ),
        r matches Err(e) ==> start@.len() <= MAX_KEY_LEN && end@.len() > MAX_KEY_LEN ==> e.text() == long_key_text(
            "mrt inclusive range end"@,
            end@.len(),
        ),
{
    match validate_key_len(start, "mrt inclusive range start") {
        Ok(_) => {},
        Err(e) => {
            return Err(e);
        },
    }
    match validate_key_len(end, "mrt inclusive range end") {
        Ok(_) => {},
        Err(e) => {
            return Err(e);
        },
    }
    scan_forward(root, start, Stop::After(end))
}

} // verus!
