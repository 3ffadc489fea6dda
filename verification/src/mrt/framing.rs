//! How far a trace reaches in a stream of bytes.

use vstd::prelude::*;

use crate::bits::{bytes_for, pack};
use crate::mrt::model::{be32, framed, Trie};
use crate::mrt::route::MAX_ROUTE_BITS;
use crate::mrt::wire::{decodable, decodable_root, encoded, encoded_root, from_be32, law_parse_encoded,
    law_what_is_read_was_written, lemma_be32, parse_start, MAX_MRT_TRACE_DECODE_DEPTH};

verus! {

/// What the front of a byte string shows of the node that it begins with,
/// without the nodes below it.
#[derive(Debug, Clone, Copy, PartialEq, Eq)]
pub enum NodeHead {
    /// No node begins like this.
    Broken,
    /// At least so many bytes are missing.
    Short(usize),
    /// The node takes so many bytes, and it is a branch or not.
    Whole(usize, bool),
}

/// Where the bit string of a node ends.
pub open spec fn skip_end(b: Seq<u8>) -> int {
    5 + bytes_for(from_be32(b.skip(1)) as int)
}

/// Where a leaf ends.
pub open spec fn leaf_end(b: Seq<u8>) -> int {
    skip_end(b) + 4 + from_be32(b.skip(skip_end(b)))
}

/// How long the node at the front of `b` is, without the nodes below it, as far
/// as `b` tells.
pub open spec fn head_len(b: Seq<u8>) -> int {
    if b.len() == 0 {
        1
    } else if b[0] == 3 {
        37
    } else if b.len() < 5 {
        5
    } else if b[0] == 2 || b.len() < skip_end(b) {
        skip_end(b)
    } else if b.len() < skip_end(b) + 4 {
        skip_end(b) + 4
    } else {
        leaf_end(b)
    }
}

/// Whether `b` begins like no node.
pub open spec fn head_broken(b: Seq<u8>) -> bool {
    &&& b.len() > 0
    &&& b[0] != 3
    &&& (b[0] != 1 && b[0] != 2 || b.len() >= 5 && from_be32(b.skip(1)) > MAX_ROUTE_BITS)
}

/// The levels of the nodes to come once the node at the front of `b` has been
/// read, the next one last.
pub open spec fn pending_behind(b: Seq<u8>, pending: Seq<usize>) -> Seq<usize> {
    if b[0] == 2 {
        let below = (pending.last() + 1) as usize;
        pending.drop_last().push(below).push(below)
    } else {
        pending.drop_last()
    }
}

/// How many bytes more it takes at least until the pending nodes are complete,
/// of which `b` is the beginning. It is zero if they are complete, and if `b` is
/// the beginning of none that a decoder accepts.
pub open spec fn short(b: Seq<u8>, pending: Seq<usize>) -> nat
    decreases b.len(),
{
    if pending.len() == 0 || pending.last() > MAX_MRT_TRACE_DECODE_DEPTH || head_broken(b) {
        0
    } else if b.len() < head_len(b) {
        (head_len(b) - b.len()) as nat
    } else {
        short(b.skip(head_len(b)), pending_behind(b, pending))
    }
}

/// How many bytes more it takes at least until a trace is complete of which `b`
/// is the beginning. It is zero if the trace is complete, and if `b` is the
/// beginning of none.
pub open spec fn shortfall(b: Seq<u8>) -> nat {
    if b.len() > 0 && (b[0] == 0 || b[0] == 3) {
        0
    } else {
        short(b, seq![0usize])
    }
}

/// A trace that is read piece by piece from a stream: its bytes so far, how far its
/// nodes are complete, and the levels of the nodes to come, the next one last.
#[derive(Debug)]
pub struct TraceBuffer {
    bytes: Vec<u8>,
    at: usize,
    pending: Vec<usize>,
}

impl View for TraceBuffer {
    type V = Seq<u8>;

    closed spec fn view(&self) -> Seq<u8> {
        self.bytes@
    }
}

impl TraceBuffer {
    /// Whether the place is one that a reader of all bytes would come to,
    /// whatever is still to follow.
    pub closed spec fn wf(self) -> bool {
        &&& self.at <= self.bytes@.len()
        &&& self.at == 0 ==> self.pending@ == seq![0usize]
        &&& self.at > 0 ==> forall|e: Seq<u8>|
            shortfall(#[trigger] (self.bytes@ + e)) == short((self.bytes@ + e).skip(self.at as int), self.pending@)
    }

    /// A trace of which nothing has been read.
    pub fn new() -> (r: TraceBuffer)
        ensures
            r.wf(),
            r@ == Seq::<u8>::empty(),
    {
        let mut pending: Vec<usize> = Vec::new();
        pending.push(0);
        assert(pending@ =~= seq![0usize]);
        TraceBuffer { bytes: Vec::new(), at: 0, pending }
    }

    /// Takes the next bytes of the stream.
    pub fn push(&mut self, more: &[u8])
        requires
            old(self).wf(),
        ensures
            final(self).wf(),
            final(self)@ == old(self)@ + more@,
    {
        let ghost b = self.bytes@;
        self.bytes.extend_from_slice(more);
        proof {
            assert(self.bytes@ =~= b + more@);
            assert forall|e: Seq<u8>| self.at > 0 implies shortfall(#[trigger] (self.bytes@ + e)) == short(
                (self.bytes@ + e).skip(self.at as int),
                self.pending@,
            ) by {
                assert(self.bytes@ + e =~= b + (more@ + e));
            }
        }
    }

    /// Tells how many bytes more it takes at least until the trace is complete;
    /// zero if it is, or if the bytes are the beginning of none.
    pub fn missing(&mut self) -> (n: usize)
        requires
            old(self).wf(),
        ensures
            final(self).wf(),
            final(self)@ == old(self)@,
            n == shortfall(final(self)@),
    {
        let ghost b = self.bytes@;
        assert(b + Seq::<u8>::empty() =~= b);
        assert(b.skip(0) =~= b);
        if self.bytes.len() > 0 && (self.bytes[0] == 0 || self.bytes[0] == 3) {
            return 0;
        }
        let size: usize = self.bytes.len();
        loop
            invariant
                self.wf(),
                self.bytes@ == b,
                old(self).bytes@ == b,
                size == b.len(),
                b + Seq::<u8>::empty() == b,
                b.skip(0) == b,
                !(b.len() > 0 && (b[0] == 0 || b[0] == 3)),
            decreases b.len() - self.at,
        {
            let ghost here = b.skip(self.at as int);
            let ghost at = self.at as int;
            let ghost pending = self.pending@;
            assert(shortfall(b) == short(here, pending));
            if self.pending.len() == 0 {
                return 0;
            }
            let level: usize = self.pending[self.pending.len() - 1];
            if level > MAX_MRT_TRACE_DECODE_DEPTH {
                return 0;
            }
            match node_head(self.bytes.as_slice(), self.at) {
                NodeHead::Broken => {
                    return 0;
                },
                NodeHead::Short(n) => {
                    return n;
                },
                NodeHead::Whole(len, branch) => {
                    self.at = self.at + len;
                    let _ = self.pending.pop();
                    if branch {
                        self.pending.push(level + 1);
                        self.pending.push(level + 1);
                    }
                    proof {
                        assert(self.pending@ =~= pending_behind(here, pending));
                        assert forall|e: Seq<u8>| shortfall(#[trigger] (b + e)) == short(
                            (b + e).skip(self.at as int),
                            self.pending@,
                        ) by {
                            assert((b + e).skip(at) =~= here + e);
                            lemma_head_extends(here, e);
                            assert((here + e).skip(len as int) =~= (b + e).skip(self.at as int));
                            if at == 0 {
                                assert(here + e =~= b + e);
                                assert((b + e)[0] == b[0]);
                            }
                        }
                    }
                },
            }
        }
    }

    /// Gives the bytes out.
    pub fn into_bytes(self) -> (r: Vec<u8>)
        ensures
            r@ == self@,
    {
        self.bytes
    }
}

/// Reads the front of the node at a place.
pub fn node_head(bytes: &[u8], at: usize) -> (r: NodeHead)
    requires
        at <= bytes@.len(),
    ensures
        head_broken(bytes@.skip(at as int)) == (r is Broken),
        match r {
            NodeHead::Broken => true,
            NodeHead::Short(n) => n > 0 && bytes@.len() - at + n == head_len(bytes@.skip(at as int)),
            NodeHead::Whole(len, branch) => len == head_len(bytes@.skip(at as int)) && 0 < len <= bytes@.len() - at
                && branch == (bytes@[at as int] == 2),
        },
{
    let ghost b = bytes@.skip(at as int);
    let left: usize = bytes.len() - at;
    if left == 0 {
        return NodeHead::Short(1);
    }
    let tag: u8 = bytes[at];
    assert(tag == b[0]);
    if tag == 3 {
        if left < 37 {
            return NodeHead::Short(37 - left);
        }
        return NodeHead::Whole(37, false);
    }
    if tag != 1 && tag != 2 {
        return NodeHead::Broken;
    }
    if left < 5 {
        return NodeHead::Short(5 - left);
    }
    let bits: usize = number_at(bytes, at + 1);
    assert(b.skip(1) =~= bytes@.skip(at + 1));
    if bits > MAX_ROUTE_BITS as usize {
        return NodeHead::Broken;
    }
    let skip: usize = 5 + (bits + 7) / 8;
    assert(skip == skip_end(b));
    if left < skip {
        return NodeHead::Short(skip - left);
    }
    if tag == 2 {
        return NodeHead::Whole(skip, true);
    }
    if left - skip < 4 {
        return NodeHead::Short(4 - (left - skip));
    }
    let value: usize = number_at(bytes, at + skip);
    assert(b.skip(skip as int) =~= bytes@.skip(at + skip));
    let behind: usize = left - skip - 4;
    if behind < value {
        return NodeHead::Short(value - behind);
    }
    NodeHead::Whole(skip + 4 + value, false)
}

/// A node whose front is whole stays as it is, whatever follows.
proof fn lemma_head_extends(b: Seq<u8>, e: Seq<u8>)
    requires
        !head_broken(b),
        head_len(b) <= b.len(),
    ensures
        !head_broken(b + e),
        head_len(b + e) == head_len(b),
        (b + e)[0] == b[0],
{
    let w = b + e;
    assert(w[0] == b[0]);
    if b[0] != 3 {
        assert(w.take(b.len() as int) =~= b);
        assert(b.len() >= 5);
        lemma_number(w, b.len() as int, 1);
        if b[0] == 1 {
            lemma_number(w, b.len() as int, skip_end(b));
        }
    }
}

/// The number that the four bytes at a place stand for.
fn number_at(bytes: &[u8], at: usize) -> (n: usize)
    requires
        at + 4 <= bytes@.len(),
    ensures
        n == from_be32(bytes@.skip(at as int)),
{
    proof {
        reveal(from_be32);
    }
    let a: usize = bytes[at] as usize;
    let b: usize = bytes[at + 1] as usize;
    let c: usize = bytes[at + 2] as usize;
    let d: usize = bytes[at + 3] as usize;
    a * 16777216 + b * 65536 + c * 256 + d
}

/// The byte forms of tries, one after the other, the last one first.
pub open spec fn forest(ts: Seq<Trie>) -> Seq<u8>
    decreases ts.len(),
{
    if ts.len() == 0 {
        Seq::empty()
    } else {
        encoded(ts.last()) + forest(ts.drop_last())
    }
}

/// Whether `n` bytes are a step towards the end of a byte form of length
/// `total`, of which `l` bytes are there.
pub open spec fn step_ok(n: nat, l: nat, total: nat) -> bool {
    if l < total {
        0 < n <= total - l
    } else {
        n == 0
    }
}

/// Two tries in front of others.
proof fn lemma_forest_two(a: Trie, b: Trie, ts: Seq<Trie>)
    ensures
        forest(ts.push(b).push(a)) == encoded(a) + (encoded(b) + forest(ts)),
{
    assert(ts.push(b).push(a).drop_last() =~= ts.push(b));
    assert(ts.push(b).drop_last() =~= ts);
    assert(forest(ts.push(b)) == encoded(b) + forest(ts));
}

/// The beginning of tries, one after the other and with anything behind them.
#[verifier::spinoff_prover]
#[verifier::rlimit(60)]
proof fn lemma_short(ts: Seq<Trie>, pending: Seq<usize>, r: Seq<u8>, l: nat)
    requires
        ts.len() == pending.len(),
        forall|i: int| 0 <= i < ts.len() ==> decodable(#[trigger] ts[i], pending[i] as nat),
        l <= (forest(ts) + r).len(),
    ensures
        step_ok(short((forest(ts) + r).take(l as int), pending), l, forest(ts).len()),
    decreases forest(ts).len(),
{
    let whole = forest(ts) + r;
    let b = whole.take(l as int);
    if ts.len() > 0 {
        let t = ts.last();
        let level = pending.last();
        let rest = ts.drop_last();
        let total = forest(ts).len();
        assert(decodable(ts[ts.len() - 1], pending[ts.len() - 1] as nat));
        assert forall|i: int| 0 <= i < rest.len() implies decodable(#[trigger] rest[i], pending.drop_last()[i] as nat) by {
            assert(rest[i] == ts[i]);
        }
        match t {
            Trie::Leaf { skip, value } => {
                let m = pack(skip).len() as int;
                let head = seq![1u8] + framed(skip);
                let tail = be32(value.len()) + value + forest(rest) + r;
                lemma_be32(skip.len(), pack(skip) + tail);
                lemma_be32(value.len(), value + forest(rest) + r);
                assert(encoded(t).len() == 9 + m + value.len());
                assert(whole =~= seq![1u8] + (be32(skip.len()) + (pack(skip) + tail)));
                assert(whole =~= head + (be32(value.len()) + (value + forest(rest) + r)));
                if l >= 5 {
                    lemma_number(whole, l as int, 1);
                    assert(whole.skip(1) =~= be32(skip.len()) + (pack(skip) + tail));
                    if l >= 9 + m {
                        lemma_number(whole, l as int, 5 + m);
                        assert(whole.skip(5 + m) =~= be32(value.len()) + (value + forest(rest) + r));
                        let end = 9 + m + value.len();
                        if l >= end {
                            assert(whole.skip(end as int) =~= forest(rest) + r);
                            assert(b.skip(end as int) =~= (forest(rest) + r).take(l - end));
                            lemma_short(rest, pending.drop_last(), r, (l - end) as nat);
                        }
                    }
                }
            },
            Trie::Branch { skip, left, right } => {
                let m = pack(skip).len() as int;
                let next = rest.push(*right).push(*left);
                lemma_forest_two(*left, *right, rest);
                let tail = forest(next) + r;
                lemma_be32(skip.len(), pack(skip) + tail);
                assert(encoded(t).len() == 5 + m + encoded(*left).len() + encoded(*right).len());
                assert(whole =~= seq![2u8] + (be32(skip.len()) + (pack(skip) + tail)));
                if l >= 5 {
                    lemma_number(whole, l as int, 1);
                    assert(whole.skip(1) =~= be32(skip.len()) + (pack(skip) + tail));
                    let end = 5 + m;
                    if l >= end {
                        assert(whole.skip(end) =~= tail);
                        assert(b.skip(end) =~= tail.take(l - end));
                        let behind = pending_behind(b, pending);
                        assert forall|i: int| 0 <= i < next.len() implies decodable(#[trigger] next[i], behind[i] as nat) by {
                            if i < rest.len() {
                                assert(next[i] == rest[i]);
                            }
                        }
                        lemma_short(next, behind, r, (l - end) as nat);
                    }
                }
            },
            Trie::Pruned { hash, depth } => {
                assert(be32(depth).len() == 4) by {
                    reveal(be32);
                }
                assert(encoded(t).len() == 37);
                if l >= 37 {
                    assert(whole.skip(37) =~= forest(rest) + r);
                    assert(b.skip(37) =~= (forest(rest) + r).take(l - 37));
                    lemma_short(rest, pending.drop_last(), r, (l - 37) as nat);
                }
            },
        }
    }
}

/// A number in the beginning of a byte string.
proof fn lemma_number(whole: Seq<u8>, l: int, at: int)
    requires
        0 <= at,
        at + 4 <= l <= whole.len(),
    ensures
        from_be32(whole.take(l).skip(at)) == from_be32(whole.skip(at)),
{
    reveal(from_be32);
    let a = whole.take(l).skip(at);
    let b = whole.skip(at);
    assert(a[0] == b[0] && a[1] == b[1] && a[2] == b[2] && a[3] == b[3]);
}

/// Whoever reads a trace from a stream, and each time as many bytes as are
/// missing, comes to the end of the trace and not past it.
pub proof fn law_missing_bytes_lead_to_the_end(root: Option<Trie>, r: Seq<u8>, l: nat)
    requires
        decodable_root(root),
        l <= (encoded_root(root) + r).len(),
    ensures
        step_ok(shortfall((encoded_root(root) + r).take(l as int)), l, encoded_root(root).len()),
{
    let whole = encoded_root(root) + r;
    let b = whole.take(l as int);
    if let Some(t) = root {
        let ts = seq![t];
        assert(ts.drop_last() =~= Seq::empty());
        assert(forest(ts) =~= encoded(t)) by {
            reveal_with_fuel(forest, 2);
        }
        lemma_short(ts, seq![0usize], r, l);
        assert(encoded(t).len() > 0);
        if l > 0 {
            assert(b[0] == encoded(t)[0]);
        }
    }
}

/// As long as bytes are missing, no trace can be read, and it takes as many more at
/// least. Once none is missing, either a trace can be read, or none can whatever
/// follows.
pub proof fn law_missing_bytes_are_needed(b: Seq<u8>, e: Seq<u8>)
    ensures
        shortfall(b) > 0 ==> parse_start(b) is Err,
        parse_start(b + e) is Ok ==> e.len() >= shortfall(b),
        parse_start(b + e) is Ok && shortfall(b) == 0 ==> parse_start(b) is Ok,
{
    if let Ok((root, r)) = parse_start(b) {
        law_what_is_read_was_written(b);
        assert(b.take(b.len() as int) =~= b);
        law_missing_bytes_lead_to_the_end(root, r, b.len());
    }
    if let Ok((root, r)) = parse_start(b + e) {
        let whole = b + e;
        law_what_is_read_was_written(whole);
        assert(whole.take(b.len() as int) =~= b);
        law_missing_bytes_lead_to_the_end(root, r, b.len());
        let n = encoded_root(root).len() as int;
        if shortfall(b) == 0 {
            assert(b =~= encoded_root(root) + b.skip(n)) by {
                assert(whole.take(n) =~= encoded_root(root));
            }
            if let Some(t) = root {
                law_parse_encoded(t, 0, b.skip(n));
                assert(b[0] == encoded(t)[0]);
            }
        }
    }
}

} // verus!
