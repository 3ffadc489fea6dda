//! Tries as traces: what a prover hands to a verifier.

use std::sync::Arc;

use vstd::prelude::*;

use crate::bits::{bits_of, bytes_for, bit_of, key_copy, key_lt, lemma_pack_unique, pack};
use crate::error::{Error, Fault};
use crate::hash::{same_hash, NodeHash, HASH_LENGTH, NULL_HASH};
use crate::mrt::cursor;
use crate::mrt::model::{max, Trie};
use crate::mrt::node::{append_be32, append_bytes, append_framed, decode_branch, decode_pruned, root_trie, MrtNode,
    MrtNodeInner};
use crate::mrt::route::{RouteBits, MAX_KEY_LEN, MAX_ROUTE_BITS};
use crate::mrt::scan::{drain, flat, gives, rows_of, Until};
use crate::mrt::store::{apply_batch_to_root, apply_changes, hash_of, share_root, validate_mrt_apply_batch};
use crate::mrt::tree::find_root;
use crate::mrt::wire::{decodable, decodable_root, encoded, encoded_root, from_be32, law_decode_undoes_encode,
    lemma_be32, lemma_bits_of_pack, lemma_parse_sound, parse, parse_root, parse_start, values_fit, TraceReader,
    MAX_MRT_TRACE_DECODE_DEPTH};
use crate::ops::{batch_changes, batch_ordered, Batch};
use crate::text::{told, told_after, told_count, told_number, told_numbers};

verus! {

/// A trie in which parts may be pruned, or none.
#[derive(Debug, PartialEq, Eq)]
pub struct Trace(pub Option<Arc<MrtNodeInner>>);

impl Trace {
    /// The trie, unless there is none.
    pub open spec fn trie(&self) -> Option<Trie> {
        root_trie(self.0)
    }

    /// The root hash: that of the trie, or all zeros if there is none.
    pub fn root_hash(&self) -> (hash: NodeHash)
        ensures
            hash == hash_of(self.trie()),
    {
        match &self.0 {
            Some(node) => node.hash(),
            None => NULL_HASH,
        }
    }

    /// Whether there is no trie.
    pub fn is_empty(&self) -> (r: bool)
        ensures
            r == (self.trie() is None),
    {
        self.0.is_none()
    }

    /// Refuses a root hash other than `expected`.
    pub fn verify_root(&self, expected: NodeHash) -> (r: Result<(), Error>)
        ensures
            match r {
                Ok(_) => hash_of(self.trie()) == expected,
                Err(e) => hash_of(self.trie()) != expected && e == Error::HashMismatch(expected, hash_of(self.trie())),
            },
    {
        let actual: NodeHash = self.root_hash();
        if same_hash(&actual, &expected) {
            Ok(())
        } else {
            Err(Error::HashMismatch(expected, actual))
        }
    }

    /// The value under `key`.
    pub fn get(&self, key: &[u8]) -> (r: Result<Option<Vec<u8>>, Error>)
        ensures
            cursor::got(r, find_root(self.trie(), key@)),
    {
        cursor::point_get(self.nav(), key)
    }

    /// The entries from `start` up to but not including `end`.
    pub fn collect_range(&self, start: &[u8], end: Option<&[u8]>) -> (r: Result<Vec<(Vec<u8>, Vec<u8>)>, Error>)
        ensures
            gives(r, cursor::read_range(self.trie(), start@, cursor::end_view(end))),
    {
        cursor::collect_range(self.nav(), start, end)
    }

    /// The entries from `start` up to and including `end`.
    pub fn collect_range_inclusive(&self, start: &[u8], end: &[u8]) -> (r: Result<Vec<(Vec<u8>, Vec<u8>)>, Error>)
        requires
            start@.len() <= MAX_KEY_LEN && end@.len() <= MAX_KEY_LEN ==> !key_lt(end@, start@),
        ensures
            gives(r, cursor::read_range_inclusive(self.trie(), start@, end@)),
    {
        cursor::collect_range_inclusive(self.nav(), start, end)
    }

    /// The entries whose keys begin with `prefix`.
    pub fn collect_prefix(&self, prefix: &[u8]) -> (r: Result<Vec<(Vec<u8>, Vec<u8>)>, Error>)
        ensures
            gives(r, cursor::read_prefix(self.trie(), prefix@)),
    {
        cursor::collect_prefix(self.nav(), prefix)
    }

    /// All entries.
    pub fn collect_all(&self) -> (r: Result<Vec<(Vec<u8>, Vec<u8>)>, Error>)
        ensures
            gives(
                r,
                match self.trie() {
                    Some(t) => rows_of(drain(flat(t, Seq::empty()), Until::Never)),
                    None => Ok(Seq::empty()),
                },
            ),
    {
        cursor::collect_all(self.nav())
    }

    /// A handle to the root for walks.
    fn nav(&self) -> (r: Option<&Arc<MrtNodeInner>>)
        ensures
            cursor::nav_root(r) == self.trie(),
            cursor::shallow(self.trie()),
    {
        match &self.0 {
            Some(node) => {
                let _n: u16 = node.depth_below();
                Some(node)
            },
            None => None,
        }
    }

    /// Reads a trace from its byte form, which must fill `bytes`. Undoes [`Trace::encode`].
    pub fn decode_exact(bytes: &[u8]) -> (r: Result<Self, Error>)
        ensures
            match r {
                Ok(trace) => encoded_root(trace.trie()) == bytes@ && decodable_root(trace.trie()) && parse_root(bytes@)
                    == Ok::<Option<Trie>, Fault>(trace.trie()),
                Err(e) => {
                    &&& e.fault() == Fault::Ed
                    &&& parse_root(bytes@) is Err
                    &&& forall|t: Option<Trie>| decodable_root(t) ==> #[trigger] encoded_root(t) != bytes@
                },
            },
    {
        proof {
            lemma_root_form(bytes@);
        }
        match Trace::decode(bytes) {
            Ok((trace, len)) => if len == bytes.len() {
                Ok(trace)
            } else {
                Err(Error::Ed(told("MRT trace decode_exact: trailing bytes after value")))
            },
            Err(e) => Err(e),
        }
    }

    /// Reads a trace from its byte form at the front of `bytes`: the trace, and
    /// the length of that form.
    pub fn decode(bytes: &[u8]) -> (r: Result<(Self, usize), Error>)
        ensures
            match (r, parse_start(bytes@)) {
                (Ok((trace, len)), Ok((t, rest))) => {
                    &&& trace.trie() == t
                    &&& decodable_root(t)
                    &&& len <= bytes@.len()
                    &&& encoded_root(t) == bytes@.take(len as int)
                    &&& rest == bytes@.skip(len as int)
                },
                (Err(e), Err(_)) => e.fault() == Fault::Ed,
                _ => false,
            },
    {
        let mut reader = TraceReader::over_stream(bytes);
        match decode_root(&mut reader) {
            Ok(root) => {
                proof {
                    lemma_start_form(bytes@);
                    let t = root_trie(root);
                    let rest = reader.rest();
                    assert(encoded_root(t) + rest == bytes@);
                    let n = encoded_root(t).len() as int;
                    assert(bytes@.take(n) =~= encoded_root(t));
                    assert(bytes@.skip(n) =~= rest);
                }
                Ok((Trace(root), bytes.len() - reader.remaining()))
            },
            Err(e) => Err(Error::Ed(e.into_text())),
        }
    }

    /// The byte form. An error if a value is too long for it.
    pub fn encode(&self) -> (r: Result<Vec<u8>, Error>)
        ensures
            r is Ok <==> (self.trie() matches Some(t) ==> values_fit(t)),
            r matches Ok(bytes) ==> bytes@ == encoded_root(self.trie()),
            r matches Err(e) ==> e.fault() == Fault::Ed,
    {
        let mut bytes: Vec<u8> = Vec::new();
        match &self.0 {
            None => {
                bytes.push(0);
                assert(bytes@ =~= seq![0u8]);
                Ok(bytes)
            },
            Some(node) => match encode_node(node, &mut bytes) {
                Ok(_) => {
                    assert(bytes@ =~= encoded(node.trie()));
                    Ok(bytes)
                },
                Err(e) => Err(e),
            },
        }
    }

    /// The length of the byte form.
    pub fn encoding_length(&self) -> (r: Result<usize, Error>)
        requires
            encoded_root(self.trie()).len() <= usize::MAX,
        ensures
            r is Ok <==> (self.trie() matches Some(t) ==> values_fit(t)),
            r matches Ok(n) ==> n == encoded_root(self.trie()).len(),
            r matches Err(e) ==> e.fault() == Fault::Ed,
    {
        match &self.0 {
            None => Ok(1),
            Some(node) => node_encoding_length(node),
        }
    }
}

impl Clone for Trace {
    fn clone(&self) -> (r: Self)
        ensures
            r == *self,
    {
        Trace(share_root(&self.0))
    }
}

impl Default for Trace {
    fn default() -> (r: Self)
        ensures
            r.trie() is None,
    {
        Trace(None)
    }
}

/// What [`parse_root`] reads is what the bytes are the form of.
pub proof fn lemma_root_form(b: Seq<u8>)
    ensures
        match parse_root(b) {
            Ok(t) => encoded_root(t) == b && decodable_root(t),
            Err(f) => forall|t: Option<Trie>| decodable_root(t) ==> #[trigger] encoded_root(t) != b,
        },
{
    lemma_parse_sound(b, 0);
    match parse_root(b) {
        Ok(t) => {
            match t {
                Some(x) => {
                    let r = parse(b, 0)->Ok_0.1;
                    assert(encoded(x) + r =~= encoded(x));
                },
                None => {
                    assert(b =~= seq![0u8]);
                },
            }
        },
        Err(f) => {
            assert forall|t: Option<Trie>| decodable_root(t) implies #[trigger] encoded_root(t) != b by {
                law_decode_undoes_encode(t);
            }
        },
    }
}

/// What [`parse_start`] reads is what the front of the bytes is the form of.
proof fn lemma_start_form(b: Seq<u8>)
    ensures
        parse_start(b) matches Ok((t, rest)) ==> decodable_root(t) && encoded_root(t) + rest == b,
{
    lemma_parse_sound(b, 0);
    if let Ok((t, rest)) = parse_start(b) {
        assert(encoded_root(t) + rest =~= b);
    }
}

fn decode_root(reader: &mut TraceReader<'_>) -> (r: Result<Option<Arc<MrtNodeInner>>, Error>)
    ensures
        match (r, parse_start(old(reader).rest())) {
            (Ok(root), Ok((t, rest))) => root_trie(root) == t && final(reader).rest() == rest,
            (Err(e), Err(f)) => e.fault() == f,
            _ => false,
        },
{
    let ghost b = reader.rest();
    let tag: u8 = match reader.read_u8() {
        Ok(tag) => tag,
        Err(e) => {
            return Err(e);
        },
    };
    if tag == 0 {
        return Ok(None);
    }
    if tag == 3 {
        return Err(Error::Proof(told("MRT trace root must be a materialized node or empty, not a pruned stub")));
    }
    assert(b =~= seq![tag] + reader.rest());
    match decode_node_with_tag(tag, reader, 0) {
        Ok(node) => Ok(Some(node)),
        Err(e) => Err(e),
    }
}

/// Whether reading a node gave what the model gives.
pub open spec fn reads(r: Result<Arc<MrtNodeInner>, Error>, m: Result<(Trie, Seq<u8>), Fault>, rest: Seq<u8>) -> bool {
    match (r, m) {
        (Ok(node), Ok((t, after))) => node.trie() == t && rest == after,
        (Err(e), Err(f)) => e.fault() == f,
        _ => false,
    }
}

fn decode_node(reader: &mut TraceReader<'_>, depth: usize) -> (r: Result<Arc<MrtNodeInner>, Error>)
    requires
        depth <= MAX_MRT_TRACE_DECODE_DEPTH + 1,
    ensures
        reads(r, parse(old(reader).rest(), depth as nat), final(reader).rest()),
    decreases MAX_MRT_TRACE_DECODE_DEPTH + 1 - depth, 1int,
{
    let ghost b = reader.rest();
    match reader.read_u8() {
        Ok(tag) => {
            assert(b =~= seq![tag] + reader.rest());
            decode_node_with_tag(tag, reader, depth)
        },
        Err(e) => Err(e),
    }
}

fn decode_node_with_tag(tag: u8, reader: &mut TraceReader<'_>, depth: usize) -> (r: Result<Arc<MrtNodeInner>, Error>)
    requires
        depth <= MAX_MRT_TRACE_DECODE_DEPTH + 1,
    ensures
        reads(r, parse(seq![tag] + old(reader).rest(), depth as nat), final(reader).rest()),
    decreases MAX_MRT_TRACE_DECODE_DEPTH + 1 - depth, 0int,
{
    let ghost b = reader.rest();
    let ghost whole = seq![tag] + b;
    assert(whole.skip(1) =~= b);
    if depth > MAX_MRT_TRACE_DECODE_DEPTH {
        return Err(Error::Proof(told_numbers("MRT trace decode depth ", depth as u64, " exceeds limit ", MAX_MRT_TRACE_DECODE_DEPTH as u64)));
    }
    if tag == 1 {
        let skip = match reader.read_skip() {
            Ok(skip) => skip,
            Err(e) => {
                return Err(e);
            },
        };
        let ghost r1 = reader.rest();
        let value_len: usize = match reader.read_u32() {
            Ok(n) => n as usize,
            Err(e) => {
                return Err(e);
            },
        };
        let value: Vec<u8> = match reader.read_bytes(value_len) {
            Ok(v) => key_copy(v),
            Err(e) => {
                return Err(e);
            },
        };
        proof {
            let n = value_len as int;
            assert(r1.skip(4).take(n) =~= r1.subrange(4, 4 + n));
            assert(r1.skip(4).skip(n) =~= r1.skip(4 + n));
        }
        Ok(MrtNodeInner::leaf(skip, value))
    } else if tag == 2 {
        let skip = match reader.read_skip() {
            Ok(skip) => skip,
            Err(e) => {
                return Err(e);
            },
        };
        let left = match decode_node(reader, depth + 1) {
            Ok(node) => node,
            Err(e) => {
                return Err(e);
            },
        };
        let right = match decode_node(reader, depth + 1) {
            Ok(node) => node,
            Err(e) => {
                return Err(e);
            },
        };
        decode_branch(skip, left, right)
    } else if tag == 3 {
        let hash: NodeHash = match reader.read_hash() {
            Ok(hash) => hash,
            Err(e) => {
                return Err(e);
            },
        };
        let depth_below: u16 = match reader.read_depth() {
            Ok(n) => n,
            Err(e) => {
                proof {
                    lemma_pruned_tail(whole, b);
                }
                return Err(e);
            },
        };
        proof {
            lemma_pruned_tail(whole, b);
            assert(whole.subrange(1, 33) =~= b.take(32));
            crate::mrt::wire::lemma_as_hash(hash);
            assert(whole.skip(37) =~= b.skip(32).skip(4));
        }
        decode_pruned(hash, depth_below)
    } else {
        Err(Error::Proof(told_count("Unexpected byte: ", tag as u64)))
    }
}

/// The depth of a pruned node, in the bytes after its tag.
pub proof fn lemma_pruned_tail(whole: Seq<u8>, b: Seq<u8>)
    requires
        whole.len() == b.len() + 1,
        whole.skip(1) == b,
        b.len() >= 32,
    ensures
        b.len() >= 36 ==> from_be32(whole.subrange(33, 37)) == from_be32(b.skip(32)),
{
    if b.len() >= 36 {
        reveal(from_be32);
        let x = whole.subrange(33, 37);
        let y = b.skip(32);
        assert(x[0] == y[0] && x[1] == y[1] && x[2] == y[2] && x[3] == y[3]) by {
            assert(whole.skip(1)[32] == whole[33]);
            assert(whole.skip(1)[33] == whole[34]);
            assert(whole.skip(1)[34] == whole[35]);
            assert(whole.skip(1)[35] == whole[36]);
        }
    }
}

/// Appends the byte form of a node to `dest`.
fn encode_node(node: &Arc<MrtNodeInner>, dest: &mut Vec<u8>) -> (r: Result<(), Error>)
    ensures
        r is Ok <==> values_fit(node.trie()),
        r is Ok ==> final(dest)@ == old(dest)@ + encoded(node.trie()),
        r matches Err(e) ==> e.fault() == Fault::Ed,
    decreases node.trie(),
{
    let ghost before = dest@;
    match node.node() {
        MrtNode::Leaf { skip, value } => {
            if value.len() > 0xffff_ffff {
                return Err(Error::Ed(told_number("MRT trace value length ", value.len() as u64, " exceeds u32::MAX")));
            }
            dest.push(1);
            append_framed(dest, skip);
            append_be32(dest, value.len() as u32);
            append_bytes(dest, value.as_slice());
            assert(dest@ =~= before + encoded(node.trie()));
            Ok(())
        },
        MrtNode::Branch { skip, left, right } => {
            dest.push(2);
            append_framed(dest, skip);
            match encode_node(left, dest) {
                Ok(_) => {},
                Err(e) => {
                    return Err(e);
                },
            }
            match encode_node(right, dest) {
                Ok(_) => {},
                Err(e) => {
                    return Err(e);
                },
            }
            assert(dest@ =~= before + encoded(node.trie()));
            Ok(())
        },
        MrtNode::PrunedHash => {
            let hash: NodeHash = node.hash();
            dest.push(3);
            append_bytes(dest, hash.as_slice());
            append_be32(dest, node.depth_below() as u32);
            assert(dest@ =~= before + encoded(node.trie()));
            Ok(())
        },
    }
}

fn node_encoding_length(node: &Arc<MrtNodeInner>) -> (r: Result<usize, Error>)
    requires
        encoded(node.trie()).len() <= usize::MAX,
    ensures
        r is Ok <==> values_fit(node.trie()),
        r matches Ok(n) ==> n == encoded(node.trie()).len(),
        r matches Err(e) ==> e.fault() == Fault::Ed,
    decreases node.trie(),
{
    match node.node() {
        MrtNode::Leaf { skip, value } => {
            if value.len() > 0xffff_ffff {
                return Err(Error::Ed(told_number("MRT trace value length ", value.len() as u64, " exceeds u32::MAX")));
            }
            proof {
                lemma_be32(skip@.len(), Seq::empty());
                lemma_be32(value@.len(), Seq::empty());
            }
            Ok(1 + skip.encoded_len() + 4 + value.len())
        },
        MrtNode::Branch { skip, left, right } => {
            proof {
                lemma_be32(skip@.len(), Seq::empty());
            }
            let a: usize = match node_encoding_length(left) {
                Ok(n) => n,
                Err(e) => {
                    return Err(e);
                },
            };
            let b: usize = match node_encoding_length(right) {
                Ok(n) => n,
                Err(e) => {
                    return Err(e);
                },
            };
            Ok(1 + skip.encoded_len() + a + b)
        },
        MrtNode::PrunedHash => {
            proof {
                lemma_be32(node.trie().depth(), Seq::empty());
            }
            let _span: u16 = node.depth_below();
            Ok(1 + HASH_LENGTH + 4)
        },
    }
}

/// Does the writes of a batch on a trace.
pub fn replay(trace: Trace, batch: &Batch) -> (r: Result<Trace, Error>)
    ensures
        match r {
            Ok(t) => batch_ordered(batch_changes(batch@), MAX_KEY_LEN as nat) && apply_changes(
                trace.trie(),
                batch_changes(batch@),
                false,
            ) == Ok::<Option<Trie>, Fault>(t.trie()),
            Err(e) => if batch_ordered(batch_changes(batch@), MAX_KEY_LEN as nat) {
                apply_changes(trace.trie(), batch_changes(batch@), false) == Err::<Option<Trie>, Fault>(e.fault())
            } else {
                e.fault() == Fault::BatchKey
            },
        },
{
    match validate_mrt_apply_batch(batch) {
        Ok(_) => {},
        Err(e) => {
            return Err(e);
        },
    }
    match apply_batch_to_root(trace.0, batch) {
        Ok(root) => Ok(Trace(root)),
        Err(e) => Err(e),
    }
}

/// A trace as plain data, for carriers with a format of their own.
#[derive(Debug)]
pub enum MrtTraceWire {
    /// No trie. Only the whole trace can be this.
    Empty,
    /// A leaf.
    Leaf { skip: RouteBitsWire, value: Vec<u8> },
    /// A branch.
    Branch { skip: RouteBitsWire, left: Box<MrtTraceWire>, right: Box<MrtTraceWire> },
    /// A stub.
    Pruned { hash: NodeHash, depth_below: u32 },
}

/// A bit string as plain data.
#[derive(Debug)]
pub struct RouteBitsWire {
    /// The number of bits.
    pub bit_len: u32,
    /// The bits, packed.
    pub bytes: Vec<u8>,
}

impl RouteBitsWire {
    /// The bits, if the data are those of a bit string.
    pub open spec fn bits(self) -> Option<Seq<bool>> {
        if self.bit_len <= MAX_ROUTE_BITS && self.bytes@.len() == bytes_for(self.bit_len as int) && forall|i: int|
            self.bit_len <= i < 8 * self.bytes@.len() ==> !bit_of(self.bytes@, i) {
            Some(bits_of(self.bytes@, self.bit_len as nat))
        } else {
            None
        }
    }

    /// A bit string as plain data.
    pub fn from_route(route: &RouteBits) -> (r: Self)
        ensures
            r.bit_len == route@.len(),
            r.bytes@ == pack(route@),
            r.bits() == Some(route@),
    {
        proof {
            crate::mrt::wire::lemma_bits_of_pack(route@);
        }
        RouteBitsWire { bit_len: route.bit_len() as u32, bytes: key_copy(route.packed_bytes()) }
    }

    /// The bit string, if the data are those of one.
    pub fn into_route(self) -> (r: Result<RouteBits, Error>)
        ensures
            match r {
                Ok(route) => self.bits() == Some(route@),
                Err(e) => self.bits() is None && e.fault() == Fault::Tree,
            },
    {
        if self.bit_len > 65535 {
            return Err(Error::Tree(told_number("MRT trace route bit length ", self.bit_len as u64, " exceeds u16")));
        }
        match RouteBits::from_packed(self.bit_len as u16, self.bytes.as_slice()) {
            Ok(route) => Ok(route),
            Err(text) => Err(Error::Tree(told_after("MRT trace route bits invalid: ", text.as_str()))),
        }
    }
}

impl MrtTraceWire {
    /// The trie that plain data below the root stand for, `level` levels down.
    pub open spec fn node_trie(self, level: nat) -> Result<Trie, Fault>
        decreases self,
    {
        if level > MAX_MRT_TRACE_DECODE_DEPTH {
            Err(Fault::Tree)
        } else {
            match self {
                MrtTraceWire::Empty => Err(Fault::Tree),
                MrtTraceWire::Leaf { skip, value } => match skip.bits() {
                    Some(s) => Ok(Trie::Leaf { skip: s, value: value@ }),
                    None => Err(Fault::Tree),
                },
                MrtTraceWire::Branch { skip, left, right } => match (
                    left.node_trie(level + 1),
                    right.node_trie(level + 1),
                    skip.bits(),
                ) {
                    (Ok(l), Ok(r), Some(s)) => if s.len() + 1 + max(l.depth(), r.depth()) <= MAX_ROUTE_BITS {
                        Ok(Trie::Branch { skip: s, left: Box::new(l), right: Box::new(r) })
                    } else {
                        Err(Fault::Tree)
                    },
                    _ => Err(Fault::Tree),
                },
                MrtTraceWire::Pruned { hash, depth_below } => if depth_below <= MAX_ROUTE_BITS {
                    Ok(Trie::Pruned { hash, depth: depth_below as nat })
                } else {
                    Err(Fault::Tree)
                },
            }
        }
    }

    /// The trie that plain data stand for, if there is one.
    pub open spec fn root_trie(self) -> Result<Option<Trie>, Fault> {
        match self {
            MrtTraceWire::Empty => Ok(None),
            MrtTraceWire::Pruned { hash, depth_below } => Err(Fault::Tree),
            _ => match self.node_trie(0) {
                Ok(t) => Ok(Some(t)),
                Err(f) => Err(f),
            },
        }
    }

    /// A trace as plain data.
    pub fn from_trace(trace: &Trace) -> (r: Self)
        ensures
            trace.trie() matches Some(t) ==> shown_as(t, r),
            trace.trie() is None ==> r is Empty,
    {
        match &trace.0 {
            Some(node) => MrtTraceWire::from_node(node),
            None => MrtTraceWire::Empty,
        }
    }

    fn from_node(node: &Arc<MrtNodeInner>) -> (r: Self)
        ensures
            shown_as(node.trie(), r),
        decreases node.trie(),
    {
        match node.node() {
            MrtNode::Leaf { skip, value } => MrtTraceWire::Leaf {
                skip: RouteBitsWire::from_route(skip),
                value: key_copy(value.as_slice()),
            },
            MrtNode::Branch { skip, left, right } => MrtTraceWire::Branch {
                skip: RouteBitsWire::from_route(skip),
                left: Box::new(MrtTraceWire::from_node(left)),
                right: Box::new(MrtTraceWire::from_node(right)),
            },
            MrtNode::PrunedHash => MrtTraceWire::Pruned {
                hash: node.hash(),
                depth_below: node.depth_below() as u32,
            },
        }
    }
}

/// Whether plain data show a trie, node by node.
pub open spec fn shown_as(t: Trie, w: MrtTraceWire) -> bool
    decreases t,
{
    match (t, w) {
        (Trie::Leaf { skip, value }, MrtTraceWire::Leaf { skip: s, value: v }) => s.bits() == Some(skip) && v@ == value,
        (Trie::Branch { skip, left, right }, MrtTraceWire::Branch { skip: s, left: l, right: r }) => s.bits() == Some(
            skip,
        ) && shown_as(*left, *l) && shown_as(*right, *r),
        (Trie::Pruned { hash, depth }, MrtTraceWire::Pruned { hash: h, depth_below }) => h == hash && depth_below
            == depth,
        _ => false,
    }
}

/// Plain data that show a trie stand for it.
pub proof fn law_wire_stands_for_trace(t: Trie, w: MrtTraceWire, level: nat)
    requires
        shown_as(t, w),
        decodable(t, level),
    ensures
        w.node_trie(level) == Ok::<Trie, Fault>(t),
    decreases t,
{
    match (t, w) {
        (Trie::Branch { skip, left, right }, MrtTraceWire::Branch { skip: s, left: l, right: r }) => {
            law_wire_stands_for_trace(*left, *l, level + 1);
            law_wire_stands_for_trace(*right, *r, level + 1);
        },
        _ => {},
    }
}

/// Plain data stand for no trie but the one that they show.
pub proof fn law_wire_shows_its_trie(w: MrtTraceWire, level: nat)
    ensures
        w.node_trie(level) matches Ok(t) ==> shown_as(t, w) && t.depth() <= MAX_ROUTE_BITS,
    decreases w,
{
    if let MrtTraceWire::Branch { skip, left, right } = w {
        law_wire_shows_its_trie(*left, level + 1);
        law_wire_shows_its_trie(*right, level + 1);
    }
}

/// A trace as plain data, and back, is the same trace. It must not have more levels
/// than decoders accept.
pub proof fn law_wire_gives_the_trace_back(root: Option<Trie>, w: MrtTraceWire)
    requires
        decodable_root(root),
        root matches Some(t) ==> shown_as(t, w),
        root is None ==> w is Empty,
    ensures
        w.root_trie() == Ok::<Option<Trie>, Fault>(root),
{
    if let Some(t) = root {
        law_wire_stands_for_trace(t, w, 0);
    }
}

/// Plain data are those of a bit string just if they are its length and its bits,
/// packed, and the bit string is not too long.
pub proof fn law_wire_bits_are_packed(w: RouteBitsWire, s: Seq<bool>)
    ensures
        w.bits() == Some(s) <==> s.len() <= MAX_ROUTE_BITS && w.bit_len == s.len() && w.bytes@ == pack(s),
{
    if w.bits() == Some(s) {
        lemma_pack_unique(w.bytes@, w.bit_len as nat);
    }
    if s.len() <= MAX_ROUTE_BITS && w.bit_len == s.len() && w.bytes@ == pack(s) {
        lemma_bits_of_pack(s);
    }
}

/// The trace that plain data stand for.
pub fn trace_from_wire(wire: MrtTraceWire) -> (r: Result<Trace, Error>)
    ensures
        match (r, wire.root_trie()) {
            (Ok(trace), Ok(t)) => trace.trie() == t,
            (Err(e), Err(f)) => e.fault() == f,
            _ => false,
        },
{
    match wire {
        MrtTraceWire::Empty => Ok(Trace(None)),
        MrtTraceWire::Pruned { hash, depth_below } => Err(
            Error::Tree(told("MRT trace root must be a materialized node or empty, not a pruned stub")),
        ),
        other => match node_from_wire(other, 0) {
            Ok(node) => Ok(Trace(Some(node))),
            Err(e) => Err(e),
        },
    }
}

fn node_from_wire(wire: MrtTraceWire, depth: usize) -> (r: Result<Arc<MrtNodeInner>, Error>)
    requires
        depth <= MAX_MRT_TRACE_DECODE_DEPTH + 1,
    ensures
        match (r, wire.node_trie(depth as nat)) {
            (Ok(node), Ok(t)) => node.trie() == t,
            (Err(e), Err(f)) => e.fault() == f,
            _ => false,
        },
    decreases wire,
{
    if depth > MAX_MRT_TRACE_DECODE_DEPTH {
        return Err(
            Error::Tree(
                told_numbers("MRT trace serde decode depth ", depth as u64, " exceeds limit ", MAX_MRT_TRACE_DECODE_DEPTH as u64),
            ),
        );
    }
    match wire {
        MrtTraceWire::Empty => Err(Error::Tree(told("MRT trace empty marker cannot appear below the root"))),
        MrtTraceWire::Leaf { skip, value } => match skip.into_route() {
            Ok(route) => Ok(MrtNodeInner::leaf(route, value)),
            Err(e) => Err(e),
        },
        MrtTraceWire::Branch { skip, left, right } => {
            let left = match node_from_wire(*left, depth + 1) {
                Ok(node) => node,
                Err(e) => {
                    return Err(e);
                },
            };
            let right = match node_from_wire(*right, depth + 1) {
                Ok(node) => node,
                Err(e) => {
                    return Err(e);
                },
            };
            match skip.into_route() {
                Ok(route) => decode_branch(route, left, right),
                Err(e) => Err(e),
            }
        },
        MrtTraceWire::Pruned { hash, depth_below } => {
            if depth_below > 65535 {
                return Err(Error::Tree(told_number("MRT trace pruned depth_below ", depth_below as u64, " exceeds u16")));
            }
            decode_pruned(hash, depth_below as u16)
        },
    }
}

} // verus!
