//! Moving and removing all keys with a common prefix.

use std::sync::Arc;

use vstd::prelude::*;

use crate::bits::{key_copy, key_same, lcp, lemma_lcp};
use crate::error::{Error, Fault};
use crate::mrt::keys::{contents, holds, lemma_holds, sound};
use crate::mrt::model::{fork, Trie};
use crate::mrt::node::{root_trie, share, MrtNode, MrtNodeInner};
use crate::mrt::parts::{self, beside, blocks, capture_ok, law_detach_parts_store, law_splice_replaces, replaced, under};
use crate::mrt::route::{classify_key_vs_skip, long_key_text, prefix_free_text, prefix_free_violation, route,
    route_bit_at, route_len, validate_key_len, RouteBits, SkipRelation, MAX_KEY_LEN, MAX_ROUTE_BITS};
use crate::mrt::tree::{collapse_survivor, outcome, yields};
use crate::text::{decimal, shown, told, told_bytes, told_numbers, told_with};

verus! {

/// The subtrie of all keys with some prefix, taken out of its trie.
#[derive(Debug)]
pub struct Captured {
    /// The root of the subtrie.
    pub s_root: Arc<MrtNodeInner>,
    /// How many bits of the root belong to the prefix.
    pub strip_prefix_bits: u16,
}

/// Where the keys with some prefix hang.
#[derive(Debug)]
pub struct Locus<'a> {
    /// The root of the subtrie that holds exactly these keys.
    pub s_root: &'a Arc<MrtNodeInner>,
    /// The depth of that root.
    pub entry_depth: u16,
    /// How many bits of the root belong to the prefix.
    pub strip_prefix_bits: u16,
}

/// One step of the descent along a prefix.
#[derive(Clone, Copy, Debug)]
pub enum PrefixStep {
    /// The prefix ends within this node.
    Stop { strip_prefix_bits: u16 },
    /// The prefix goes on below the child on `side`.
    Descend { side: bool, child_depth: u16 },
}

/// Who reports an error: the store, or the replay of a trace.
#[derive(Clone, Copy, Debug, PartialEq, Eq, Structural)]
pub enum Voice {
    Store,
    Replay,
}

/// What is said of a prefix that no key has.
pub open spec fn absent_text(p: Seq<u8>, voice: Voice) -> Seq<char> {
    match voice {
        Voice::Store => "MRT prefix "@ + shown(p) + " is absent: no stored key has it as a byte-prefix"@,
        Voice::Replay => "MRT verify replay move_prefix source prefix "@ + shown(p) + " is absent"@,
    }
}

/// The error of a prefix that no key has.
pub fn prefix_absent(p: &[u8], voice: Voice) -> (e: Error)
    ensures
        e.fault() == Fault::Key,
        e.text() == absent_text(p@, voice),
{
    match voice {
        Voice::Store => Error::Key(
            told_bytes("MRT prefix ", p, " is absent: no stored key has it as a byte-prefix"),
        ),
        Voice::Replay => Error::Key(told_bytes("MRT verify replay move_prefix source prefix ", p, " is absent")),
    }
}

/// What the descent along the prefix `r` meets at a node that holds `skip`.
pub open spec fn step_outcome(skip: Seq<bool>, is_leaf: bool, r: Seq<bool>, depth: u16) -> Result<PrefixStep, Fault> {
    let k = lcp(skip, r);
    if k == r.len() {
        Ok(PrefixStep::Stop { strip_prefix_bits: r.len() as u16 })
    } else if k == skip.len() && !is_leaf {
        Ok(PrefixStep::Descend { side: r[k as int], child_depth: (depth + skip.len() + 1) as u16 })
    } else {
        Err(Fault::Key)
    }
}

/// Whether a step of a descent is what the model gives.
pub open spec fn steps_as(r: Result<PrefixStep, Error>, m: Result<PrefixStep, Fault>) -> bool {
    match (r, m) {
        (Ok(a), Ok(b)) => a == b,
        (Err(e), Err(f)) => e.fault() == f,
        _ => false,
    }
}

/// Decides the descent along the prefix `p` at a node that holds `skip`.
pub fn classify_prefix_skip(skip: &RouteBits, is_leaf: bool, depth: u16, p: &[u8], voice: Voice) -> (r: Result<
    PrefixStep,
    Error,
>)
    requires
        p@.len() <= MAX_KEY_LEN,
        depth <= 8 * p@.len(),
    ensures
        steps_as(r, step_outcome(skip@, is_leaf, route(p@).skip(depth as int), depth)),
        r matches Ok(PrefixStep::Descend { side, child_depth }) ==> !is_leaf && depth + skip@.len() + 1 == child_depth
            && child_depth <= 8 * p@.len(),
        r matches Err(e) ==> e.text() == absent_text(p@, voice),
{
    let p_bits: u16 = route_len(p);
    proof {
        lemma_lcp(skip@, route(p@).skip(depth as int));
    }
    match classify_key_vs_skip(skip, p, depth) {
        SkipRelation::Equal | SkipRelation::KeyIsPrefix => Ok(PrefixStep::Stop { strip_prefix_bits: p_bits - depth }),
        SkipRelation::SkipIsPrefix => {
            if is_leaf {
                return Err(prefix_absent(p, voice));
            }
            let branch_depth: u16 = depth + skip.bit_len();
            let side: bool = route_bit_at(p, branch_depth);
            Ok(PrefixStep::Descend { side, child_depth: branch_depth + 1 })
        },
        SkipRelation::Diverge { offset } => Err(prefix_absent(p, voice)),
    }
}

/// What is said when the search for the keys that begin with `p` fails.
pub open spec fn locus_text(fault: Fault, p: Seq<u8>) -> Seq<char> {
    if fault == Fault::Pruned {
        "prefix-locus descent at prefix "@ + shown(p)
    } else {
        absent_text(p, Voice::Store)
    }
}

/// As [`classify_prefix_skip`], for a node that may be pruned.
pub fn classify_prefix_step(node: &MrtNode, depth: u16, p: &[u8]) -> (r: Result<PrefixStep, Error>)
    requires
        p@.len() <= MAX_KEY_LEN,
        depth <= 8 * p@.len(),
    ensures
        match *node {
            MrtNode::Leaf { skip, value } => steps_as(
                r,
                step_outcome(skip@, true, route(p@).skip(depth as int), depth),
            ),
            MrtNode::Branch { skip, left, right } => steps_as(
                r,
                step_outcome(skip@, false, route(p@).skip(depth as int), depth),
            ),
            MrtNode::PrunedHash => steps_as(r, Err(Fault::Pruned)),
        },
        r matches Ok(PrefixStep::Descend { side, child_depth }) ==> (node matches MrtNode::Branch { skip, left, right }
            && depth + skip@.len() + 1 == child_depth && child_depth <= 8 * p@.len()),
        r matches Err(e) ==> e.text() == locus_text(e.fault(), p@),
{
    match node {
        MrtNode::Leaf { skip, value } => classify_prefix_skip(skip, true, depth, p, Voice::Store),
        MrtNode::Branch { skip, left, right } => classify_prefix_skip(skip, false, depth, p, Voice::Store),
        MrtNode::PrunedHash => Err(Error::PrunedNode(told_with("prefix-locus descent at prefix ", p))),
    }
}

impl Trie {
    /// The subtrie of all routes that begin with `p`, and how many bits of its
    /// root belong to `p`.
    pub open spec fn locate(self, p: Seq<bool>) -> Result<(Trie, nat), Fault>
        decreases self,
    {
        let k = lcp(self.skip(), p) as int;
        match self {
            Trie::Leaf { skip, value } => if k == p.len() {
                Ok((self, p.len()))
            } else {
                Err(Fault::Key)
            },
            Trie::Branch { skip, left, right } => if k == p.len() {
                Ok((self, p.len()))
            } else if k == skip.len() {
                if p[k] {
                    right.locate(p.skip(k + 1))
                } else {
                    left.locate(p.skip(k + 1))
                }
            } else {
                Err(Fault::Key)
            },
            Trie::Pruned { hash, depth } => Err(Fault::Pruned),
        }
    }
}

/// Finds the subtrie of all keys that begin with `p`.
pub fn locate_prefix_subtree<'a>(root: &'a Arc<MrtNodeInner>, p: &[u8]) -> (r: Result<Locus<'a>, Error>)
    requires
        p@.len() <= MAX_KEY_LEN,
    ensures
        match (r, root.trie().locate(route(p@))) {
            (Ok(locus), Ok((t, n))) => locus.s_root.trie() == t && locus.strip_prefix_bits == n && locus.entry_depth
                + n == 8 * p@.len(),
            (Err(e), Err(f)) => e.fault() == f && e.text() == locus_text(f, p@),
            _ => false,
        },
{
    let mut cur: &'a Arc<MrtNodeInner> = root;
    let mut depth: u16 = 0;
    assert(route(p@).skip(0) =~= route(p@));
    loop
        invariant
            p@.len() <= MAX_KEY_LEN,
            depth <= 8 * p@.len(),
            root.trie().locate(route(p@)) == cur.trie().locate(route(p@).skip(depth as int)),
        decreases cur.trie(),
    {
        let node = cur.node();
        match classify_prefix_step(node, depth, p) {
            Err(e) => {
                return Err(e);
            },
            Ok(PrefixStep::Stop { strip_prefix_bits }) => {
                return Ok(Locus { s_root: cur, entry_depth: depth, strip_prefix_bits });
            },
            Ok(PrefixStep::Descend { side, child_depth }) => {
                proof {
                    let k = route(p@).skip(depth as int);
                    assert(route(p@).skip(child_depth as int) =~= k.skip(child_depth - depth));
                }
                if let MrtNode::Branch { skip, left, right } = node {
                    cur = if !side { left } else { right };
                    depth = child_depth;
                }
            },
        }
    }
}

/// Whether taking out a subtrie gave what the model gives, below `depth`.
pub open spec fn detaches(
    r: Result<(Option<Arc<MrtNodeInner>>, Captured), Error>,
    m: Result<(Option<Trie>, Trie, nat), Fault>,
    depth: int,
) -> bool {
    match (r, m) {
        (Ok((left, captured)), Ok((t, s, n))) => {
            &&& root_trie(left) == t
            &&& t matches Some(t) ==> depth + t.depth() <= MAX_ROUTE_BITS
            &&& captured.s_root.trie() == s
            &&& captured.strip_prefix_bits == n
            &&& !(s is Pruned)
            &&& n <= s.skip().len()
            &&& s.depth() <= MAX_ROUTE_BITS
        },
        (Err(e), Err(f)) => e.fault() == f,
        _ => false,
    }
}

/// Takes the subtrie of all keys that begin with `p` out of a trie.
pub fn detach_prefix_subtree(root: Option<Arc<MrtNodeInner>>, p: &[u8]) -> (r: Result<
    (Option<Arc<MrtNodeInner>>, Captured),
    Error,
>)
    requires
        p@.len() <= MAX_KEY_LEN,
    ensures
        detaches(r, detach_root(root_trie(root), p@, false), 0),
        r matches Err(e) ==> e.text() == locus_text(e.fault(), p@),
{
    match root {
        None => Err(prefix_absent(p, Voice::Store)),
        Some(root) => {
            let _span: u16 = root.depth_below();
            assert(route(p@).skip(0) =~= route(p@));
            detach_at(&root, 0, p)
        },
    }
}

/// What taking out the keys that begin with `p` makes of a trie that may be empty.
pub open spec fn detach_root(root: Option<Trie>, p: Seq<u8>, strict: bool) -> Result<(Option<Trie>, Trie, nat), Fault> {
    match root {
        None => Err(Fault::Key),
        Some(t) => t.detach(route(p), strict),
    }
}

/// What taking out keys gave, as the model gives it.
pub open spec fn detach_outcome(r: Result<(Option<Arc<MrtNodeInner>>, Captured), Error>) -> Result<
    (Option<Trie>, Trie, nat),
    Fault,
> {
    match r {
        Ok((rest, c)) => Ok((root_trie(rest), c.s_root.trie(), c.strip_prefix_bits as nat)),
        Err(e) => Err(e.fault()),
    }
}

/// Whether taking out the keys that begin with `p` did to a store that holds `m`
/// what it should: it is refused just if there are none.
pub open spec fn detached_from(
    r: Result<(Option<Trie>, Trie, nat), Fault>,
    m: Map<Seq<u8>, Seq<u8>>,
    p: Seq<u8>,
) -> bool {
    match r {
        Ok((rest, s, n)) => {
            &&& exists|k: Seq<u8>| #[trigger] m.dom().contains(k) && p.is_prefix_of(k)
            &&& holds(rest, beside(m, p))
            &&& capture_ok(s, n)
            &&& parts::captured(s, n) == under(m, p)
        },
        Err(f) => {
            &&& f == Fault::Key
            &&& forall|k: Seq<u8>| #[trigger] m.dom().contains(k) ==> !p.is_prefix_of(k)
        },
    }
}

/// What the model gives at the root of a store is what it should be.
proof fn lemma_detached_from(t: Trie, p: Seq<u8>)
    requires
        sound(Some(t)),
    ensures
        detached_from(t.detach(route(p), false), contents(Some(t)), p),
{
    law_detach_parts_store(Some(t), p, false);
    if let Ok((rest, s, n)) = t.detach(route(p), false) {
        lemma_holds(rest);
    }
}

/// Takes the keys that begin with `p` out of what hangs at `depth`. At the root
/// of a store, it does so to what the store holds.
#[verifier::spinoff_prover]
#[verifier::rlimit(40)]
pub fn detach_at(cur: &Arc<MrtNodeInner>, depth: u16, p: &[u8]) -> (r: Result<
    (Option<Arc<MrtNodeInner>>, Captured),
    Error,
>)
    requires
        p@.len() <= MAX_KEY_LEN,
        depth <= 8 * p@.len(),
        depth + cur.trie().depth() <= MAX_ROUTE_BITS,
    ensures
        detaches(r, cur.trie().detach(route(p@).skip(depth as int), false), depth as int),
        r matches Err(e) ==> e.text() == locus_text(e.fault(), p@),
        depth == 0 && sound(Some(cur.trie())) ==> detached_from(detach_outcome(r), contents(Some(cur.trie())), p@),
    decreases cur.trie(),
{
    proof {
        if depth == 0 && sound(Some(cur.trie())) {
            assert(route(p@).skip(0) =~= route(p@));
            lemma_detached_from(cur.trie(), p@);
        }
    }
    let ghost k = route(p@).skip(depth as int);
    proof {
        lemma_lcp(cur.trie().skip(), k);
    }
    let node = cur.node();
    match classify_prefix_step(node, depth, p) {
        Err(e) => Err(e),
        Ok(PrefixStep::Stop { strip_prefix_bits }) => Ok((None, Captured { s_root: share(cur), strip_prefix_bits })),
        Ok(PrefixStep::Descend { side, child_depth }) => {
            proof {
                assert(route(p@).skip(child_depth as int) =~= k.skip(child_depth - depth));
            }
            match node {
                MrtNode::Branch { skip, left, right } => if !side {
                    match detach_at(left, child_depth, p) {
                        Err(e) => Err(e),
                        Ok((new_left, captured)) => match new_left {
                            Some(new_left) => Ok(
                                (Some(MrtNodeInner::branch(skip.clone(), new_left, share(right))), captured),
                            ),
                            None => match collapse_survivor(skip, true, share(right)) {
                                Ok(rebuilt) => Ok((Some(rebuilt), captured)),
                                Err(e) => Err(e),
                            },
                        },
                    }
                } else {
                    match detach_at(right, child_depth, p) {
                        Err(e) => Err(e),
                        Ok((new_right, captured)) => match new_right {
                            Some(new_right) => Ok(
                                (Some(MrtNodeInner::branch(skip.clone(), share(left), new_right)), captured),
                            ),
                            None => match collapse_survivor(skip, false, share(left)) {
                                Ok(rebuilt) => Ok((Some(rebuilt), captured)),
                                Err(e) => Err(e),
                            },
                        },
                    }
                },
                _ => Err(prefix_absent(p, Voice::Store)),
            }
        },
    }
}

/// `skip` with its first `strip_prefix_bits` bits replaced by `prepend_q_tail_bits`.
pub fn reskin_root(skip: &RouteBits, strip_prefix_bits: u16, prepend_q_tail_bits: &RouteBits) -> (r: Result<
    RouteBits,
    Error,
>)
    ensures
        r is Ok <==> strip_prefix_bits <= skip@.len() && prepend_q_tail_bits@.len() + skip@.len() - strip_prefix_bits
            <= MAX_ROUTE_BITS,
        r matches Ok(s) ==> s@ == prepend_q_tail_bits@ + skip@.skip(strip_prefix_bits as int),
        r matches Err(e) ==> e.fault() == Fault::Tree,
{
    if strip_prefix_bits > skip.bit_len() {
        return Err(
            Error::Tree(
                told_numbers(
                    "MRT reskin strip length ",
                    strip_prefix_bits as u64,
                    " exceeds root skip length ",
                    skip.bit_len() as u64,
                ),
            ),
        );
    }
    let shared_suffix = skip.slice(strip_prefix_bits, skip.bit_len());
    assert(shared_suffix@ =~= skip@.skip(strip_prefix_bits as int));
    prepend_q_tail_bits.concat(&shared_suffix)
}

/// Puts a captured subtrie under other leading bits.
fn reskin_captured_root(captured: &Captured, prepend_q_tail_bits: &RouteBits) -> (r: Result<Arc<MrtNodeInner>, Error>)
    requires
        captured.strip_prefix_bits <= captured.s_root.trie().skip().len(),
        prepend_q_tail_bits@.len() + captured.s_root.trie().depth() - captured.strip_prefix_bits <= MAX_ROUTE_BITS,
    ensures
        yields(
            r,
            captured.s_root.trie().reskin(captured.strip_prefix_bits as nat, prepend_q_tail_bits@),
            captured.strip_prefix_bits - prepend_q_tail_bits@.len() + MAX_ROUTE_BITS - captured.s_root.trie().depth(),
        ),
{
    let strip: u16 = captured.strip_prefix_bits;
    match captured.s_root.node() {
        MrtNode::Leaf { skip, value } => match reskin_root(skip, strip, prepend_q_tail_bits) {
            Ok(s) => Ok(MrtNodeInner::leaf(s, key_copy(value.as_slice()))),
            Err(e) => Err(e),
        },
        MrtNode::Branch { skip, left, right } => match reskin_root(skip, strip, prepend_q_tail_bits) {
            Ok(s) => Ok(MrtNodeInner::branch(s, share(left), share(right))),
            Err(e) => Err(e),
        },
        MrtNode::PrunedHash => Err(Error::PrunedNode(told("reskin captured subtree root"))),
    }
}

/// What putting the subtrie `s` (less `n` bits) under the prefix `q` makes of a trie that may be empty.
pub open spec fn splice_root(root: Option<Trie>, q: Seq<u8>, s: Trie, n: nat) -> Result<Trie, Fault> {
    match root {
        None => s.reskin(n, route(q)),
        Some(t) => t.splice(route(q), s, n),
    }
}

/// Puts a captured subtrie under the prefix `q`, in place of whatever keys
/// begin with `q`. No key may be a strict prefix of `q`, and no moved key may
/// get longer than [`MAX_KEY_LEN`].
pub fn splice_subtree_at(root: Option<Arc<MrtNodeInner>>, q: &[u8], captured: Captured) -> (r: Result<
    Arc<MrtNodeInner>,
    Error,
>)
    requires
        q@.len() <= MAX_KEY_LEN,
        captured.strip_prefix_bits <= captured.s_root.trie().skip().len(),
        8 * q@.len() + captured.s_root.trie().depth() - captured.strip_prefix_bits <= MAX_ROUTE_BITS,
    ensures
        yields(
            r,
            splice_root(root_trie(root), q@, captured.s_root.trie(), captured.strip_prefix_bits as nat),
            0,
        ),
        r matches Err(e) ==> e.fault() == Fault::Key ==> e.text() == prefix_free_text(q@),
{
    match root {
        None => {
            let q_tail = RouteBits::from_key_range(q, 0, route_len(q));
            assert(q_tail@ =~= route(q@));
            reskin_captured_root(&captured, &q_tail)
        },
        Some(root) => {
            let _span: u16 = root.depth_below();
            assert(route(q@).skip(0) =~= route(q@));
            splice_at(&root, 0, q, &captured)
        },
    }
}

/// The bits of `q` from `depth` on.
pub fn tail_of(q: &[u8], depth: u16) -> (r: RouteBits)
    requires
        q@.len() <= MAX_KEY_LEN,
        depth <= 8 * q@.len(),
    ensures
        r@ == route(q@).skip(depth as int),
{
    let r = RouteBits::from_key_range(q, depth, route_len(q));
    assert(r@ =~= route(q@).skip(depth as int));
    r
}

/// Whether putting a captured subtrie under `q` did to a store that holds `m`
/// what it should: it is refused just if `q` begins with a key of the store.
pub open spec fn spliced_into(
    r: Result<Trie, Fault>,
    m: Map<Seq<u8>, Seq<u8>>,
    q: Seq<u8>,
    c: Map<Seq<u8>, Seq<u8>>,
) -> bool {
    match r {
        Ok(t) => !blocks(m, q) && holds(Some(t), replaced(m, q, c)),
        Err(f) => f == Fault::Key && blocks(m, q),
    }
}

/// Whether every captured key fits under `q`.
pub open spec fn fits_under(c: Map<Seq<u8>, Seq<u8>>, q: Seq<u8>) -> bool {
    forall|x: Seq<u8>| #[trigger] c.dom().contains(x) ==> q.len() + x.len() <= MAX_KEY_LEN
}

/// What the model gives at the root of a store is what it should be.
proof fn lemma_spliced_into(t: Trie, q: Seq<u8>, s: Trie, n: nat)
    requires
        sound(Some(t)),
        capture_ok(s, n),
        fits_under(parts::captured(s, n), q),
    ensures
        spliced_into(t.splice(route(q), s, n), contents(Some(t)), q, parts::captured(s, n)),
{
    law_splice_replaces(Some(t), q, s, n);
    if let Ok(after) = t.splice(route(q), s, n) {
        lemma_holds(Some(after));
    }
}

/// Puts a captured subtrie under the prefix `q` into what hangs at `depth`. At
/// the root of a store, it does so to what the store holds.
#[verifier::spinoff_prover]
#[verifier::rlimit(40)]
pub fn splice_at(cur: &Arc<MrtNodeInner>, depth: u16, q: &[u8], captured: &Captured) -> (r: Result<Arc<MrtNodeInner>, Error>)
    requires
        q@.len() <= MAX_KEY_LEN,
        depth <= 8 * q@.len(),
        depth + cur.trie().depth() <= MAX_ROUTE_BITS,
        captured.strip_prefix_bits <= captured.s_root.trie().skip().len(),
        8 * q@.len() + captured.s_root.trie().depth() - captured.strip_prefix_bits <= MAX_ROUTE_BITS,
    ensures
        yields(
            r,
            cur.trie().splice(route(q@).skip(depth as int), captured.s_root.trie(), captured.strip_prefix_bits as nat),
            depth as int,
        ),
        r matches Err(e) ==> e.fault() == Fault::Key ==> e.text() == prefix_free_text(q@),
        ({
            let s = captured.s_root.trie();
            let n = captured.strip_prefix_bits as nat;
            let c = parts::captured(s, n);
            depth == 0 && sound(Some(cur.trie())) && capture_ok(s, n) && fits_under(c, q@) ==> spliced_into(
                outcome(r),
                contents(Some(cur.trie())),
                q@,
                c,
            )
        }),
    decreases cur.trie(),
{
    let ghost k = route(q@).skip(depth as int);
    proof {
        let s = captured.s_root.trie();
        let n = captured.strip_prefix_bits as nat;
        let c = parts::captured(s, n);
        if depth == 0 && sound(Some(cur.trie())) && capture_ok(s, n) && fits_under(c, q@) {
            assert(k =~= route(q@));
            lemma_spliced_into(cur.trie(), q@, s, n);
        }
        lemma_lcp(cur.trie().skip(), k);
    }
    match cur.node() {
        MrtNode::Leaf { skip, value } => match classify_key_vs_skip(skip, q, depth) {
            SkipRelation::Diverge { offset } => {
                let existing = MrtNodeInner::leaf(skip.slice(offset + 1, skip.bit_len()), key_copy(value.as_slice()));
                assert(skip@.subrange(offset + 1, skip@.len() as int) =~= skip@.skip(offset + 1));
                build_splice_connector(skip, offset, depth, q, existing, captured)
            },
            SkipRelation::Equal | SkipRelation::KeyIsPrefix => reskin_captured_root(captured, &tail_of(q, depth)),
            SkipRelation::SkipIsPrefix => Err(prefix_free_violation(q)),
        },
        MrtNode::Branch { skip, left, right } => match classify_key_vs_skip(skip, q, depth) {
            SkipRelation::Diverge { offset } => {
                let existing = MrtNodeInner::branch(
                    skip.slice(offset + 1, skip.bit_len()),
                    share(left),
                    share(right),
                );
                assert(skip@.subrange(offset + 1, skip@.len() as int) =~= skip@.skip(offset + 1));
                build_splice_connector(skip, offset, depth, q, existing, captured)
            },
            SkipRelation::SkipIsPrefix => {
                let branch_depth: u16 = depth + skip.bit_len();
                let side: bool = route_bit_at(q, branch_depth);
                let child_depth: u16 = branch_depth + 1;
                proof {
                    assert(route(q@).skip(child_depth as int) =~= k.skip(child_depth - depth));
                }
                if !side {
                    match splice_at(left, child_depth, q, captured) {
                        Ok(new_left) => Ok(MrtNodeInner::branch(skip.clone(), new_left, share(right))),
                        Err(e) => Err(e),
                    }
                } else {
                    match splice_at(right, child_depth, q, captured) {
                        Ok(new_right) => Ok(MrtNodeInner::branch(skip.clone(), share(left), new_right)),
                        Err(e) => Err(e),
                    }
                }
            },
            SkipRelation::Equal | SkipRelation::KeyIsPrefix => reskin_captured_root(captured, &tail_of(q, depth)),
        },
        MrtNode::PrunedHash => Err(Error::PrunedNode(told_with("splice_subtree_at descent at prefix ", q))),
    }
}

/// A branch over what was there and the moved subtrie, which part at `offset`.
fn build_splice_connector(
    existing_skip: &RouteBits,
    offset: u16,
    depth: u16,
    q: &[u8],
    existing: Arc<MrtNodeInner>,
    captured: &Captured,
) -> (r: Result<Arc<MrtNodeInner>, Error>)
    requires
        q@.len() <= MAX_KEY_LEN,
        offset < existing_skip@.len(),
        depth + offset < 8 * q@.len(),
        depth + offset + 1 + existing.trie().depth() <= MAX_ROUTE_BITS,
        captured.strip_prefix_bits <= captured.s_root.trie().skip().len(),
        8 * q@.len() + captured.s_root.trie().depth() - captured.strip_prefix_bits <= MAX_ROUTE_BITS,
    ensures
        ({
            let k = route(q@).skip(depth as int);
            yields(
                r,
                match captured.s_root.trie().reskin(captured.strip_prefix_bits as nat, k.skip(offset + 1)) {
                    Ok(t) => Ok(fork(existing_skip@.take(offset as int), k[offset as int], t, existing.trie())),
                    Err(f) => Err(f),
                },
                depth as int,
            )
        }),
{
    let q_div: u16 = depth + offset;
    let q_tail = tail_of(q, q_div + 1);
    proof {
        let k = route(q@).skip(depth as int);
        assert(route(q@).skip(q_div + 1) =~= k.skip(offset + 1));
    }
    match reskin_captured_root(captured, &q_tail) {
        Err(e) => Err(e),
        Ok(moved) => {
            let q_side: bool = route_bit_at(q, q_div);
            let connector_skip = existing_skip.slice(0, offset);
            assert(existing_skip@.subrange(0, offset as int) =~= existing_skip@.take(offset as int));
            if !q_side {
                Ok(MrtNodeInner::branch(connector_skip, moved, existing))
            } else {
                Ok(MrtNodeInner::branch(connector_skip, existing, moved))
            }
        },
    }
}

/// What is said of prefixes that are too long or the same.
pub open spec fn move_args_text(from: Seq<u8>, to: Seq<u8>) -> Seq<char> {
    if from.len() > MAX_KEY_LEN {
        long_key_text("move_prefix source prefix"@, from.len())
    } else if to.len() > MAX_KEY_LEN {
        long_key_text("move_prefix destination prefix"@, to.len())
    } else {
        "MRT move_prefix source and destination prefixes must differ"@
    }
}

/// Refuses prefixes that are too long or the same.
pub fn validate_move_prefix_args(from: &[u8], to: &[u8]) -> (r: Result<(), Error>)
    ensures
        r is Ok <==> from@.len() <= MAX_KEY_LEN && to@.len() <= MAX_KEY_LEN && from@ != to@,
        r matches Err(e) ==> e.fault() == Fault::Key && e.text() == move_args_text(from@, to@),
{
    match validate_key_len(from, "move_prefix source prefix") {
        Ok(_) => {},
        Err(e) => {
            return Err(e);
        },
    }
    match validate_key_len(to, "move_prefix destination prefix") {
        Ok(_) => {},
        Err(e) => {
            return Err(e);
        },
    }
    if key_same(from, to) {
        return Err(Error::Key(told("MRT move_prefix source and destination prefixes must differ")));
    }
    Ok(())
}

/// What the length check of a move says of a captured subtrie of depth
/// `s_depth`, of which `strip` bits belong to the old prefix.
pub open spec fn move_fits(to_len: nat, s_depth: nat, strip: nat) -> Result<(), Fault> {
    if s_depth < strip {
        Err(Fault::Tree)
    } else if 8 * to_len + s_depth - strip > MAX_ROUTE_BITS {
        Err(Fault::Key)
    } else {
        Ok(())
    }
}

/// What the length check of a move says when it fails.
pub open spec fn move_fits_text(to_len: nat, s_depth: nat, strip: nat) -> Seq<char> {
    if s_depth < strip {
        "MRT move_prefix captured depth_below "@ + decimal(s_depth) + " is smaller than stripped prefix bits "@
            + decimal(strip)
    } else {
        "MRT move_prefix deepest moved key would be "@ + decimal((8 * to_len + s_depth - strip) as nat)
            + " bits, exceeding maximum "@ + decimal(MAX_ROUTE_BITS as nat)
    }
}

/// Refuses a move that would make a key longer than [`MAX_KEY_LEN`].
pub fn validate_move_prefix_result_depth(to: &[u8], s_depth: u16, strip_prefix_bits: u16) -> (r: Result<(), Error>)
    requires
        to@.len() <= MAX_KEY_LEN,
    ensures
        match (r, move_fits(to@.len(), s_depth as nat, strip_prefix_bits as nat)) {
            (Ok(_), Ok(_)) => true,
            (Err(e), Err(f)) => e.fault() == f && e.text() == move_fits_text(
                to@.len(),
                s_depth as nat,
                strip_prefix_bits as nat,
            ),
            _ => false,
        },
{
    if s_depth < strip_prefix_bits {
        return Err(
            Error::Tree(
                told_numbers(
                    "MRT move_prefix captured depth_below ",
                    s_depth as u64,
                    " is smaller than stripped prefix bits ",
                    strip_prefix_bits as u64,
                ),
            ),
        );
    }
    let new_deep: u32 = 8 * (to.len() as u32) + (s_depth - strip_prefix_bits) as u32;
    if new_deep > MAX_ROUTE_BITS as u32 {
        return Err(
            Error::Key(
                told_numbers(
                    "MRT move_prefix deepest moved key would be ",
                    new_deep as u64,
                    " bits, exceeding maximum ",
                    MAX_ROUTE_BITS as u64,
                ),
            ),
        );
    }
    Ok(())
}

/// What moving the keys that begin with `from` to `to` makes of a trie that may be empty.
pub open spec fn move_root(root: Option<Trie>, from: Seq<u8>, to: Seq<u8>, strict: bool) -> Result<Trie, Fault> {
    if from.len() > MAX_KEY_LEN || to.len() > MAX_KEY_LEN || from == to {
        Err(Fault::Key)
    } else {
        match detach_root(root, from, strict) {
            Err(f) => Err(f),
            Ok((t, s, n)) => match move_fits(to.len(), s.depth(), n) {
                Err(f) => Err(f),
                Ok(_) => splice_root(t, to, s, n),
            },
        }
    }
}

/// What a move says when it is refused.
pub open spec fn move_text(root: Option<Trie>, from: Seq<u8>, to: Seq<u8>) -> Seq<char> {
    if from.len() > MAX_KEY_LEN || to.len() > MAX_KEY_LEN || from == to {
        move_args_text(from, to)
    } else {
        match detach_root(root, from, false) {
            Err(f) => locus_text(f, from),
            Ok((t, s, n)) => if move_fits(to.len(), s.depth(), n) is Err {
                move_fits_text(to.len(), s.depth(), n)
            } else {
                prefix_free_text(to)
            },
        }
    }
}

/// Renames every key `from ++ s` to `to ++ s`. Keys that begin with `to` and do
/// not move are dropped; none that stays may be a strict prefix of `to`.
pub fn move_prefix(root: Option<Arc<MrtNodeInner>>, from: &[u8], to: &[u8]) -> (r: Result<Arc<MrtNodeInner>, Error>)
    ensures
        yields(r, move_root(root_trie(root), from@, to@, false), 0),
        r matches Err(e) ==> e.fault() == Fault::Key ==> e.text() == move_text(root_trie(root), from@, to@),
{
    match validate_move_prefix_args(from, to) {
        Ok(_) => {},
        Err(e) => {
            return Err(e);
        },
    }
    match detach_prefix_subtree(root, from) {
        Err(e) => Err(e),
        Ok((left, captured)) => {
            match validate_move_prefix_result_depth(to, captured.s_root.depth_below(), captured.strip_prefix_bits) {
                Err(e) => Err(e),
                Ok(_) => splice_subtree_at(left, to, captured),
            }
        },
    }
}

} // verus!
