//! The steps that a proof of a Merkle search tree is made of, and their byte form.

use vstd::prelude::*;

use crate::bits::key_copy;
use crate::error::{Error, Fault};
use crate::hash::NodeHash;
use crate::mrt::node::append_bytes;
use crate::mrt::wire::{as_hash, lemma_hash_bytes, TraceReader as WireReader};
use crate::text::told;

verus! {

/// What a proof shows of a node of the tree.
#[derive(Debug, PartialEq, Eq)]
pub enum Node {
    /// The hash of the node, and so of all that is below it.
    NodeHash(NodeHash),
    /// The hash of its entry.
    KVHash(NodeHash),
    /// Its entry.
    KV(Vec<u8>, Vec<u8>),
}

/// A step of a proof.
#[derive(Debug, PartialEq, Eq)]
pub enum Op {
    /// Puts a node on the stack.
    Push(Node),
    /// Takes the top node off the stack, and makes the one below it its left child.
    Parent,
    /// Takes the top node off the stack, and makes it the right child of the one below it.
    Child,
}

/// [`Node`] as a value.
pub enum Shown {
    NodeHash(NodeHash),
    KVHash(NodeHash),
    KV(Seq<u8>, Seq<u8>),
}

/// [`Op`] as a value.
pub enum Step {
    Push(Shown),
    Parent,
    Child,
}

impl View for Node {
    type V = Shown;

    open spec fn view(&self) -> Shown {
        match *self {
            Node::NodeHash(h) => Shown::NodeHash(h),
            Node::KVHash(h) => Shown::KVHash(h),
            Node::KV(key, value) => Shown::KV(key@, value@),
        }
    }
}

impl View for Op {
    type V = Step;

    open spec fn view(&self) -> Step {
        match *self {
            Op::Push(node) => Step::Push(node@),
            Op::Parent => Step::Parent,
            Op::Child => Step::Child,
        }
    }
}

impl Clone for Node {
    fn clone(&self) -> (r: Self)
        ensures
            r@ == self@,
    {
        match self {
            Node::NodeHash(h) => Node::NodeHash(*h),
            Node::KVHash(h) => Node::KVHash(*h),
            Node::KV(key, value) => Node::KV(key_copy(key.as_slice()), key_copy(value.as_slice())),
        }
    }
}

impl Clone for Op {
    fn clone(&self) -> (r: Self)
        ensures
            r@ == self@,
    {
        match self {
            Op::Push(node) => Op::Push(node.clone()),
            Op::Parent => Op::Parent,
            Op::Child => Op::Child,
        }
    }
}

/// The longest key or value that the byte form has room for.
pub const MAX_ITEM_LEN: usize = 65535;

impl Step {
    /// Whether keys and values are not too long for the byte form.
    pub open spec fn fits(self) -> bool {
        self matches Step::Push(Shown::KV(key, value)) ==> key.len() <= MAX_ITEM_LEN && value.len() <= MAX_ITEM_LEN
    }
}

/// Steps as values.
pub open spec fn steps(ops: Seq<Op>) -> Seq<Step> {
    ops.map_values(|op: Op| op@)
}

/// A number as two bytes, most significant first.
pub open spec fn be16(n: nat) -> Seq<u8> {
    seq![(n / 256) as u8, (n % 256) as u8]
}

/// The number that the first two bytes stand for.
pub open spec fn from_be16(b: Seq<u8>) -> nat {
    (b[0] * 256 + b[1]) as nat
}

/// The byte form of a step.
pub open spec fn encoded_step(op: Step) -> Seq<u8> {
    match op {
        Step::Push(Shown::NodeHash(h)) => seq![1u8] + h@,
        Step::Push(Shown::KVHash(h)) => seq![2u8] + h@,
        Step::Push(Shown::KV(key, value)) => seq![3u8] + be16(key.len()) + key + be16(value.len()) + value,
        Step::Parent => seq![16u8],
        Step::Child => seq![17u8],
    }
}

/// The byte form of steps.
pub open spec fn encoded_steps(ops: Seq<Step>) -> Seq<u8>
    decreases ops.len(),
{
    if ops.len() == 0 {
        Seq::empty()
    } else {
        encoded_steps(ops.drop_last()) + encoded_step(ops.last())
    }
}

/// Reads a byte string with its length before it: the string, and what follows.
pub open spec fn parse_item(b: Seq<u8>) -> Option<(Seq<u8>, Seq<u8>)> {
    if b.len() < 2 || b.len() < 2 + from_be16(b) {
        None
    } else {
        let n = from_be16(b) as int;
        Some((b.subrange(2, 2 + n), b.skip(2 + n)))
    }
}

/// Reads a step: the step, and what follows.
pub open spec fn parse_step(b: Seq<u8>) -> Option<(Step, Seq<u8>)> {
    if b.len() == 0 {
        None
    } else if b[0] == 1 {
        if b.len() < 33 {
            None
        } else {
            Some((Step::Push(Shown::NodeHash(as_hash(b.subrange(1, 33)))), b.skip(33)))
        }
    } else if b[0] == 2 {
        if b.len() < 33 {
            None
        } else {
            Some((Step::Push(Shown::KVHash(as_hash(b.subrange(1, 33)))), b.skip(33)))
        }
    } else if b[0] == 3 {
        match parse_item(b.skip(1)) {
            None => None,
            Some((key, r)) => match parse_item(r) {
                None => None,
                Some((value, r2)) => Some((Step::Push(Shown::KV(key, value)), r2)),
            },
        }
    } else if b[0] == 16 {
        Some((Step::Parent, b.skip(1)))
    } else if b[0] == 17 {
        Some((Step::Child, b.skip(1)))
    } else {
        None
    }
}

/// A step that was read takes up bytes.
pub proof fn lemma_parse_step_shrinks(b: Seq<u8>)
    ensures
        parse_step(b) matches Some((op, r)) ==> r.len() < b.len(),
{
}

/// Reading a byte string with its length gives it back.
proof fn lemma_parse_item(s: Seq<u8>, r: Seq<u8>)
    requires
        s.len() <= MAX_ITEM_LEN,
    ensures
        parse_item(be16(s.len()) + s + r) == Some((s, r)),
{
    let b = be16(s.len()) + s + r;
    assert(b[0] == be16(s.len())[0] && b[1] == be16(s.len())[1]);
    let n = s.len() as int;
    assert(from_be16(b) == n);
    assert(b.subrange(2, 2 + n) =~= s);
    assert(b.skip(2 + n) =~= r);
}

/// Reading the byte form of a step gives it back.
pub proof fn law_parse_encoded_step(op: Step, r: Seq<u8>)
    requires
        op.fits(),
    ensures
        parse_step(encoded_step(op) + r) == Some((op, r)),
{
    let b = encoded_step(op) + r;
    match op {
        Step::Push(Shown::NodeHash(h)) => {
            crate::mrt::wire::lemma_as_hash(h);
            assert(b.subrange(1, 33) =~= h@);
            assert(b.skip(33) =~= r);
        },
        Step::Push(Shown::KVHash(h)) => {
            crate::mrt::wire::lemma_as_hash(h);
            assert(b.subrange(1, 33) =~= h@);
            assert(b.skip(33) =~= r);
        },
        Step::Push(Shown::KV(key, value)) => {
            let tail = be16(value.len()) + value + r;
            assert(b.skip(1) =~= be16(key.len()) + key + tail);
            lemma_parse_item(key, tail);
            lemma_parse_item(value, r);
        },
        Step::Parent => {
            assert(b.skip(1) =~= r);
        },
        Step::Child => {
            assert(b.skip(1) =~= r);
        },
    }
}

/// A byte string that was read with its length is what the input begins with.
proof fn lemma_item_parsed(b: Seq<u8>)
    ensures
        parse_item(b) matches Some((s, r)) ==> s.len() <= MAX_ITEM_LEN && b == be16(s.len()) + s + r,
{
    if let Some((s, r)) = parse_item(b) {
        let n = from_be16(b);
        assert(n / 256 == b[0] && n % 256 == b[1]);
        assert(b =~= be16(s.len()) + s + r);
    }
}

/// A step that is read is what the input begins with, and could have been written
/// so: a step is read from its own byte form alone.
pub proof fn law_step_read_was_written(b: Seq<u8>)
    ensures
        parse_step(b) matches Some((op, r)) ==> b == encoded_step(op) + r && op.fits(),
{
    if let Some((op, r)) = parse_step(b) {
        if b[0] == 1 || b[0] == 2 {
            lemma_hash_bytes(b.subrange(1, 33));
        } else if b[0] == 3 {
            lemma_item_parsed(b.skip(1));
            let (key, behind) = parse_item(b.skip(1))->0;
            lemma_item_parsed(behind);
        }
        assert(b =~= encoded_step(op) + r);
    }
}

/// Steps are written one after the other.
pub proof fn law_steps_are_written_in_turn(a: Seq<Step>, b: Seq<Step>)
    ensures
        encoded_steps(a + b) == encoded_steps(a) + encoded_steps(b),
        a.len() == 1 ==> encoded_steps(a) == encoded_step(a[0]),
    decreases b.len(),
{
    if a.len() == 1 {
        reveal_with_fuel(encoded_steps, 2);
        assert(encoded_steps(a) =~= encoded_step(a[0]));
    }
    if b.len() == 0 {
        assert(a + b =~= a);
        assert(encoded_steps(a) + encoded_steps(b) =~= encoded_steps(a));
    } else {
        assert((a + b).drop_last() =~= a + b.drop_last());
        law_steps_are_written_in_turn(a, b.drop_last());
        assert(encoded_steps(a + b) =~= encoded_steps(a) + encoded_steps(b));
    }
}

/// Steps that are put together are those of the first list and then those of the
/// second, each by itself.
pub proof fn law_steps_in_parts(a: Seq<Op>, b: Seq<Op>)
    ensures
        steps(a + b) == steps(a) + steps(b),
        a.len() == 1 ==> steps(a) == seq![a[0]@],
        a.len() == 0 ==> steps(a) == Seq::<Step>::empty(),
{
    assert(steps(a + b) =~= steps(a) + steps(b));
    assert(a.len() == 1 ==> steps(a) =~= seq![a[0]@]);
    assert(a.len() == 0 ==> steps(a) =~= Seq::<Step>::empty());
}

/// Appends a byte string with its length before it.
fn append_item(out: &mut Vec<u8>, item: &[u8])
    requires
        item@.len() <= MAX_ITEM_LEN,
    ensures
        final(out)@ == old(out)@ + (be16(item@.len()) + item@),
{
    let ghost before = out@;
    let n: usize = item.len();
    out.push((n / 256) as u8);
    out.push((n % 256) as u8);
    append_bytes(out, item);
    assert(out@ =~= before + (be16(item@.len()) + item@));
}

impl Op {
    /// Appends the byte form of this step.
    pub fn encode_into(&self, out: &mut Vec<u8>)
        requires
            self@.fits(),
        ensures
            final(out)@ == old(out)@ + encoded_step(self@),
    {
        let ghost before = out@;
        match self {
            Op::Push(Node::NodeHash(h)) => {
                out.push(1);
                append_bytes(out, h.as_slice());
            },
            Op::Push(Node::KVHash(h)) => {
                out.push(2);
                append_bytes(out, h.as_slice());
            },
            Op::Push(Node::KV(key, value)) => {
                out.push(3);
                append_item(out, key.as_slice());
                append_item(out, value.as_slice());
            },
            Op::Parent => {
                out.push(16);
            },
            Op::Child => {
                out.push(17);
            },
        }
        assert(out@ =~= before + encoded_step(self@));
    }
}

/// Appends the byte form of steps.
pub fn encode_into(ops: &[Op], out: &mut Vec<u8>)
    requires
        forall|i: int| 0 <= i < ops@.len() ==> (#[trigger] ops@[i])@.fits(),
    ensures
        final(out)@ == old(out)@ + encoded_steps(steps(ops@)),
{
    let ghost before = out@;
    let ghost all = steps(ops@);
    let mut i: usize = 0;
    assert(all.take(0) =~= Seq::empty());
    assert(before + Seq::<u8>::empty() =~= before);
    while i < ops.len()
        invariant
            i <= ops@.len(),
            all == steps(ops@),
            forall|j: int| 0 <= j < ops@.len() ==> (#[trigger] ops@[j])@.fits(),
            out@ == before + encoded_steps(all.take(i as int)),
        decreases ops@.len() - i,
    {
        ops[i].encode_into(out);
        proof {
            let next = all.take(i + 1);
            assert(next.drop_last() =~= all.take(i as int));
            assert(next.last() == ops@[i as int]@);
            assert(before + encoded_steps(all.take(i as int)) + encoded_step(next.last()) =~= before + encoded_steps(next));
        }
        i = i + 1;
    }
    assert(all.take(all.len() as int) =~= all);
}

/// Reads steps from their byte form, one after the other.
#[derive(Debug)]
pub struct Decoder<'a> {
    reader: WireReader<'a>,
}

impl<'a> Decoder<'a> {
    /// What is left to read.
    pub closed spec fn rest(&self) -> Seq<u8> {
        self.reader.rest()
    }

    /// At the start of `bytes`.
    pub fn new(bytes: &'a [u8]) -> (r: Self)
        ensures
            r.rest() == bytes@,
    {
        Decoder { reader: WireReader::new(bytes) }
    }

    fn read_item(&mut self) -> (r: Option<Vec<u8>>)
        ensures
            match r {
                Some(item) => parse_item(old(self).rest()) == Some((item@, final(self).rest())),
                None => parse_item(old(self).rest()) is None,
            },
    {
        let ghost b = self.rest();
        let head: &[u8] = match self.reader.read_bytes(2) {
            Ok(head) => head,
            Err(_) => {
                return None;
            },
        };
        let n: usize = head[0] as usize * 256 + head[1] as usize;
        assert(n == from_be16(b));
        match self.reader.read_bytes(n) {
            Ok(item) => {
                proof {
                    assert(b.skip(2).take(n as int) =~= b.subrange(2, 2 + n));
                    assert(b.skip(2).skip(n as int) =~= b.skip(2 + n));
                }
                Some(key_copy(item))
            },
            Err(_) => None,
        }
    }

    /// The next step; `None` at the end.
    pub fn next(&mut self) -> (r: Result<Option<Op>, Error>)
        ensures
            match r {
                Ok(Some(op)) => parse_step(old(self).rest()) == Some((op@, final(self).rest())),
                Ok(None) => old(self).rest().len() == 0,
                Err(e) => old(self).rest().len() > 0 && parse_step(old(self).rest()) is None && e.fault() == Fault::Ed,
            },
    {
        let ghost b = self.rest();
        let tag: u8 = match self.reader.read_u8() {
            Ok(tag) => tag,
            Err(_) => {
                return Ok(None);
            },
        };
        if tag == 1 || tag == 2 {
            match self.reader.read_hash() {
                Ok(h) => {
                    proof {
                        crate::mrt::wire::lemma_as_hash(h);
                        assert(b.skip(1).take(32) =~= b.subrange(1, 33));
                        assert(b.skip(1).skip(32) =~= b.skip(33));
                    }
                    if tag == 1 {
                        Ok(Some(Op::Push(Node::NodeHash(h))))
                    } else {
                        Ok(Some(Op::Push(Node::KVHash(h))))
                    }
                },
                Err(_) => Err(Error::Ed(told("Proof ends within a hash"))),
            }
        } else if tag == 3 {
            let key: Vec<u8> = match self.read_item() {
                Some(key) => key,
                None => {
                    return Err(Error::Ed(told("Proof ends within a key")));
                },
            };
            match self.read_item() {
                Some(value) => Ok(Some(Op::Push(Node::KV(key, value)))),
                None => Err(Error::Ed(told("Proof ends within a value"))),
            }
        } else if tag == 16 {
            Ok(Some(Op::Parent))
        } else if tag == 17 {
            Ok(Some(Op::Child))
        } else {
            Err(Error::Ed(told("Unexpected byte in a proof")))
        }
    }
}

} // verus!
