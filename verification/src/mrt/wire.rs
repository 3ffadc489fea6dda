//! The byte form of tries.

use vstd::prelude::*;

use crate::bits::{bit_of, bits_of, bytes_for, lemma_pack_byte, lemma_pack_unique, pack, padded};
use crate::error::{Error, Fault};
use crate::hash::{NodeHash, NULL_HASH};
use crate::mrt::keys::{contents, lemma_deepest, lemma_stored_key, sound};
use crate::mrt::model::{be32, framed, max, Trie};
use crate::mrt::node::validate_depth_below;
use crate::mrt::prune::{law_pruning_keeps_hash, prune};
use crate::mrt::route::{RouteBits, MAX_ROUTE_BITS};
use crate::text::{told, told_after, told_number, told_numbers};

verus! {

/// The most levels below the root that a decoder accepts.
pub const MAX_MRT_TRACE_DECODE_DEPTH: usize = 1024;

/// The byte form of a trie.
pub open spec fn encoded(t: Trie) -> Seq<u8>
    decreases t,
{
    match t {
        Trie::Leaf { skip, value } => seq![1u8] + framed(skip) + be32(value.len()) + value,
        Trie::Branch { skip, left, right } => seq![2u8] + framed(skip) + encoded(*left) + encoded(*right),
        Trie::Pruned { hash, depth } => seq![3u8] + hash@ + be32(depth),
    }
}

/// The byte form of a trie that may be empty.
pub open spec fn encoded_root(root: Option<Trie>) -> Seq<u8> {
    match root {
        Some(t) => encoded(t),
        None => seq![0u8],
    }
}

/// Whether every value has a length that fits the byte form.
pub open spec fn values_fit(t: Trie) -> bool
    decreases t,
{
    match t {
        Trie::Leaf { skip, value } => value.len() <= u32::MAX,
        Trie::Branch { skip, left, right } => values_fit(*left) && values_fit(*right),
        Trie::Pruned { hash, depth } => true,
    }
}

/// A trie has a byte form if each value that a route leads to is short enough.
pub proof fn lemma_lookup_fits(t: Trie)
    requires
        forall|q: Seq<bool>| (#[trigger] t.lookup(q)) matches Some(v) ==> v.len() <= u32::MAX,
    ensures
        values_fit(t),
    decreases t,
{
    match t {
        Trie::Leaf { skip, value } => {
            assert(t.lookup(skip) == Some(value));
        },
        Trie::Branch { skip, left, right } => {
            assert forall|q: Seq<bool>| (#[trigger] left.lookup(q)) matches Some(v) ==> v.len() <= u32::MAX by {
                let whole = skip + seq![false] + q;
                assert(whole.take(skip.len() as int) =~= skip);
                assert(whole.skip(skip.len() as int + 1) =~= q);
                assert(t.lookup(whole) == left.lookup(q));
            }
            assert forall|q: Seq<bool>| (#[trigger] right.lookup(q)) matches Some(v) ==> v.len() <= u32::MAX by {
                let whole = skip + seq![true] + q;
                assert(whole.take(skip.len() as int) =~= skip);
                assert(whole.skip(skip.len() as int + 1) =~= q);
                assert(t.lookup(whole) == right.lookup(q));
            }
            lemma_lookup_fits(*left);
            lemma_lookup_fits(*right);
        },
        Trie::Pruned { hash, depth } => {},
    }
}

/// What stores values that are not longer than four bytes can count has a byte
/// form.
pub proof fn law_short_values_have_a_form(root: Option<Trie>)
    requires
        sound(root),
        forall|k: Seq<u8>| #[trigger] contents(root).dom().contains(k) ==> contents(root)[k].len() <= u32::MAX,
    ensures
        root matches Some(t) ==> values_fit(t),
{
    if let Some(t) = root {
        assert forall|q: Seq<bool>| (#[trigger] t.lookup(q)) matches Some(v) ==> v.len() <= u32::MAX by {
            if t.lookup(q) is Some {
                lemma_stored_key(root, q);
                assert(contents(root).dom().contains(pack(q)));
            }
        }
        lemma_lookup_fits(t);
    }
}

/// Decoders accept whatever part is shown, from the root on, of what stores keys
/// of at most 128 bytes and values that are not longer than four bytes can count.
pub proof fn law_short_keys_are_accepted(t: Trie, keep: Set<Seq<bool>>)
    requires
        sound(Some(t)),
        keep.contains(Seq::empty()),
        forall|k: Seq<u8>| #[trigger] contents(Some(t)).dom().contains(k) ==> k.len() <= 128 && contents(Some(t))[k].len()
            <= u32::MAX,
    ensures
        decodable_root(Some(prune(t, Seq::empty(), keep))),
{
    law_short_values_have_a_form(Some(t));
    lemma_prune_fits(t, Seq::empty(), keep);
    law_pruning_keeps_hash(t, Seq::empty(), keep);
    let q = lemma_deepest(t, 0);
    lemma_stored_key(Some(t), q);
    lemma_shallow_decodes(prune(t, Seq::empty(), keep), 0);
}

/// Whatever part is shown of what stores values that are not longer than four
/// bytes can count has a byte form.
pub proof fn law_parts_have_a_form(t: Trie, keep: Set<Seq<bool>>)
    requires
        sound(Some(t)),
        forall|k: Seq<u8>| #[trigger] contents(Some(t)).dom().contains(k) ==> contents(Some(t))[k].len() <= u32::MAX,
    ensures
        values_fit(prune(t, Seq::empty(), keep)),
{
    law_short_values_have_a_form(Some(t));
    lemma_prune_fits(t, Seq::empty(), keep);
}

/// What decoders accept can be encoded.
pub proof fn law_decodable_has_a_form(t: Trie, level: nat)
    requires
        decodable(t, level),
    ensures
        values_fit(t),
    decreases t,
{
    if let Trie::Branch { skip, left, right } = t {
        law_decodable_has_a_form(*left, level + 1);
        law_decodable_has_a_form(*right, level + 1);
    }
}

/// Whether a trie whose root is `level` levels down has a byte form that decoders accept.
pub open spec fn decodable(t: Trie, level: nat) -> bool
    decreases t,
{
    &&& level <= MAX_MRT_TRACE_DECODE_DEPTH
    &&& t.depth() <= MAX_ROUTE_BITS
    &&& match t {
        Trie::Leaf { skip, value } => value.len() <= u32::MAX,
        Trie::Branch { skip, left, right } => decodable(*left, level + 1) && decodable(*right, level + 1),
        Trie::Pruned { hash, depth } => true,
    }
}

/// What is left of a trie with a byte form has one.
pub proof fn lemma_prune_fits(t: Trie, at: Seq<bool>, keep: Set<Seq<bool>>)
    requires
        values_fit(t),
    ensures
        values_fit(prune(t, at, keep)),
    decreases t,
{
    if let Trie::Branch { skip, left, right } = t {
        lemma_prune_fits(*left, at.push(false), keep);
        lemma_prune_fits(*right, at.push(true), keep);
    }
}

/// A trie with a byte form that is not too deep is accepted by decoders.
proof fn lemma_shallow_decodes(t: Trie, level: nat)
    requires
        values_fit(t),
        level + t.depth() <= MAX_MRT_TRACE_DECODE_DEPTH || level <= MAX_MRT_TRACE_DECODE_DEPTH && t is Pruned
            && t.depth() <= MAX_ROUTE_BITS,
    ensures
        decodable(t, level),
    decreases t,
{
    if let Trie::Branch { skip, left, right } = t {
        lemma_shallow_decodes(*left, level + 1);
        lemma_shallow_decodes(*right, level + 1);
    }
}

/// As [`decodable`], for a trie that may be empty; a root must not be pruned.
pub open spec fn decodable_root(root: Option<Trie>) -> bool {
    root matches Some(t) ==> !(t is Pruned) && decodable(t, 0)
}

/// The number that four bytes stand for, most significant first.
#[verifier::opaque]
pub open spec fn from_be32(b: Seq<u8>) -> nat {
    (b[0] * 16777216 + b[1] * 65536 + b[2] * 256 + b[3]) as nat
}

/// Reads a framed bit string: the bits, and what follows.
#[verifier::opaque]
pub open spec fn parse_skip(b: Seq<u8>) -> Option<(Seq<bool>, Seq<u8>)> {
    let n = from_be32(b);
    let m = bytes_for(n as int);
    if b.len() < 4 || n > MAX_ROUTE_BITS || b.len() < 4 + m {
        None
    } else {
        let packed = b.subrange(4, 4 + m);
        if forall|i: int| n <= i < 8 * m ==> !bit_of(packed, i) {
            Some((bits_of(packed, n), b.skip(4 + m)))
        } else {
            None
        }
    }
}

/// Reads a trie: the trie, and what follows.
pub open spec fn parse(b: Seq<u8>, level: nat) -> Result<(Trie, Seq<u8>), Fault>
    decreases MAX_MRT_TRACE_DECODE_DEPTH + 1 - level,
{
    if b.len() == 0 || level > MAX_MRT_TRACE_DECODE_DEPTH {
        Err(Fault::Proof)
    } else if b[0] == 1 {
        match parse_skip(b.skip(1)) {
            None => Err(Fault::Proof),
            Some((skip, r)) => if r.len() < 4 || r.len() < 4 + from_be32(r) {
                Err(Fault::Proof)
            } else {
                let n = from_be32(r) as int;
                Ok((Trie::Leaf { skip, value: r.subrange(4, 4 + n) }, r.skip(4 + n)))
            },
        }
    } else if b[0] == 2 {
        match parse_skip(b.skip(1)) {
            None => Err(Fault::Proof),
            Some((skip, r)) => match parse(r, level + 1) {
                Err(f) => Err(f),
                Ok((left, r2)) => match parse(r2, level + 1) {
                    Err(f) => Err(f),
                    Ok((right, r3)) => if skip.len() + 1 + max(left.depth(), right.depth()) > MAX_ROUTE_BITS {
                        Err(Fault::Tree)
                    } else {
                        Ok((Trie::Branch { skip, left: Box::new(left), right: Box::new(right) }, r3))
                    },
                },
            },
        }
    } else if b[0] == 3 {
        if b.len() < 37 || from_be32(b.subrange(33, 37)) > MAX_ROUTE_BITS {
            Err(Fault::Proof)
        } else {
            Ok((Trie::Pruned { hash: as_hash(b.subrange(1, 33)), depth: from_be32(b.subrange(33, 37)) }, b.skip(37)))
        }
    } else {
        Err(Fault::Proof)
    }
}

/// The digest with the given bytes.
pub open spec fn as_hash(b: Seq<u8>) -> NodeHash {
    choose|h: NodeHash| h@ == b
}

/// Reads a trie that may be empty: the trie, and what follows. A root must not be pruned.
pub open spec fn parse_start(b: Seq<u8>) -> Result<(Option<Trie>, Seq<u8>), Fault> {
    if b.len() == 0 {
        Err(Fault::Proof)
    } else if b[0] == 0 {
        Ok((None, b.skip(1)))
    } else if b[0] == 3 {
        Err(Fault::Proof)
    } else {
        match parse(b, 0) {
            Err(f) => Err(f),
            Ok((t, r)) => Ok((Some(t), r)),
        }
    }
}

/// Reads a trie that may be empty and fills the whole input.
pub open spec fn parse_root(b: Seq<u8>) -> Result<Option<Trie>, Fault> {
    match parse_start(b) {
        Err(f) => Err(f),
        Ok((t, r)) => if r.len() == 0 {
            Ok(t)
        } else {
            Err(Fault::Proof)
        },
    }
}

/// Four bytes give back the number they were made of.
pub proof fn lemma_be32(n: nat, r: Seq<u8>)
    requires
        n <= u32::MAX,
    ensures
        from_be32(be32(n) + r) == n,
        be32(n).len() == 4,
{
    reveal(be32);
    reveal(from_be32);
    let b = be32(n) + r;
    assert(b[0] == be32(n)[0] && b[1] == be32(n)[1] && b[2] == be32(n)[2] && b[3] == be32(n)[3]);
    let q3: int = (n / 16777216) as int;
    let q2: int = (n / 65536) as int;
    let q1: int = (n / 256) as int;
    assert(q3 == q2 / 256);
    assert(q2 == q1 / 256);
    assert(q3 < 256);
}

/// A number from four bytes has these as its byte form.
pub proof fn lemma_from_be32(b: Seq<u8>)
    requires
        b.len() >= 4,
    ensures
        be32(from_be32(b)) == b.take(4),
        from_be32(b) <= u32::MAX,
{
    reveal(be32);
    reveal(from_be32);
    let n = from_be32(b);
    assert(n % 256 == b[3]);
    assert(n / 256 == b[0] * 65536 + b[1] * 256 + b[2]);
    assert(n / 256 % 256 == b[2]);
    assert(n / 65536 == b[0] * 256 + b[1]);
    assert(n / 65536 % 256 == b[1]);
    assert(n / 16777216 == b[0]);
    assert(be32(n) =~= b.take(4));
}

/// The bits of a packed bit string.
pub proof fn lemma_bits_of_pack(s: Seq<bool>)
    ensures
        bits_of(pack(s), s.len()) == s,
        forall|i: int| s.len() <= i < 8 * pack(s).len() ==> !bit_of(pack(s), i),
{
    let p = pack(s);
    assert forall|i: int| 0 <= i < 8 * p.len() implies bit_of(p, i) == padded(s, i) by {
        lemma_pack_byte(s, i / 8, i % 8);
        assert(8 * (i / 8) + i % 8 == i);
    }
    assert(bits_of(p, s.len()) =~= s);
}

/// Reading a framed bit string gives it back.
pub proof fn lemma_parse_framed(s: Seq<bool>, r: Seq<u8>)
    requires
        s.len() <= MAX_ROUTE_BITS,
    ensures
        parse_skip(framed(s) + r) == Some((s, r)),
{
    reveal(parse_skip);
    let b = framed(s) + r;
    lemma_be32(s.len(), pack(s) + r);
    assert(b =~= be32(s.len()) + (pack(s) + r));
    let m = bytes_for(s.len() as int);
    assert(b.subrange(4, 4 + m) =~= pack(s));
    lemma_bits_of_pack(s);
    assert(b.skip(4 + m) =~= r);
}

/// A framed bit string that was read is what the input begins with.
#[verifier::spinoff_prover]
#[verifier::rlimit(60)]
pub proof fn lemma_framed_parsed(b: Seq<u8>)
    ensures
        parse_skip(b) matches Some((s, r)) ==> b == framed(s) + r && s.len() <= MAX_ROUTE_BITS,
{
    reveal(parse_skip);
    if let Some((s, r)) = parse_skip(b) {
        let n = from_be32(b);
        let m = bytes_for(n as int);
        let packed = b.subrange(4, 4 + m);
        lemma_from_be32(b);
        lemma_pack_unique(packed, n);
        assert(b =~= b.take(4) + packed + b.skip(4 + m));
        assert(b =~= framed(s) + r);
    }
}

/// The bytes of a digest determine it.
pub proof fn lemma_as_hash(h: NodeHash)
    ensures
        as_hash(h@) == h,
{
    let g = as_hash(h@);
    assert(g@ == h@);
    assert(g =~= h);
}

/// Reading the byte form of a trie gives it back.
pub proof fn law_parse_encoded(t: Trie, level: nat, r: Seq<u8>)
    requires
        decodable(t, level),
    ensures
        parse(encoded(t) + r, level) == Ok::<(Trie, Seq<u8>), Fault>((t, r)),
    decreases t,
{
    let b = encoded(t) + r;
    match t {
        Trie::Leaf { skip, value } => {
            lemma_be32(skip.len(), pack(skip));
            let tail = be32(value.len()) + value + r;
            assert(b.skip(1) =~= framed(skip) + tail);
            lemma_parse_framed(skip, tail);
            lemma_be32(value.len(), value + r);
            assert(tail =~= be32(value.len()) + (value + r));
            let n = value.len() as int;
            assert(tail.subrange(4, 4 + n) =~= value);
            assert(tail.skip(4 + n) =~= r);
        },
        Trie::Branch { skip, left, right } => {
            lemma_be32(skip.len(), pack(skip));
            let tail = encoded(*left) + (encoded(*right) + r);
            assert(b.skip(1) =~= framed(skip) + tail);
            lemma_parse_framed(skip, tail);
            law_parse_encoded(*left, level + 1, encoded(*right) + r);
            law_parse_encoded(*right, level + 1, r);
        },
        Trie::Pruned { hash, depth } => {
            lemma_as_hash(hash);
            assert(b.subrange(1, 33) =~= hash@);
            lemma_be32(depth, Seq::empty());
            assert(b.subrange(33, 37) =~= be32(depth));
            assert(be32(depth) + Seq::<u8>::empty() =~= be32(depth));
            assert(b.skip(37) =~= r);
        },
    }
}

/// A digest that holds the first `n` of the given bytes.
proof fn lemma_hash_with(b: Seq<u8>, n: nat) -> (h: NodeHash)
    requires
        b.len() == 32,
        n <= 32,
    ensures
        forall|i: int| 0 <= i < n ==> h@[i] == b[i],
    decreases n,
{
    if n == 0 {
        NULL_HASH
    } else {
        let g = lemma_hash_with(b, (n - 1) as nat);
        let h = vstd::array::spec_array_update(g, n - 1, b[n - 1]);
        assert(h@ == g@.update(n - 1, b[n - 1]));
        h
    }
}

/// A digest can hold any 32 bytes.
pub proof fn lemma_hash_bytes(b: Seq<u8>)
    requires
        b.len() == 32,
    ensures
        as_hash(b)@ == b,
{
    let h = lemma_hash_with(b, 32);
    assert(h@ =~= b);
}

/// A trie that was read is what the input begins with: no trie has two byte forms.
pub proof fn lemma_parse_sound(b: Seq<u8>, level: nat)
    ensures
        parse(b, level) matches Ok((t, r)) ==> b == encoded(t) + r && decodable(t, level),
    decreases MAX_MRT_TRACE_DECODE_DEPTH + 1 - level,
{
    if let Ok((t, r)) = parse(b, level) {
        if b[0] == 1 {
            lemma_framed_parsed(b.skip(1));
            let (skip, r1) = parse_skip(b.skip(1))->0;
            lemma_from_be32(r1);
            let n = from_be32(r1) as int;
            assert(r1 =~= r1.take(4) + r1.subrange(4, 4 + n) + r1.skip(4 + n));
            assert(b =~= seq![1u8] + b.skip(1));
            assert(b =~= encoded(t) + r);
        } else if b[0] == 2 {
            lemma_framed_parsed(b.skip(1));
            let (skip, r1) = parse_skip(b.skip(1))->0;
            lemma_parse_sound(r1, level + 1);
            let (left, r2) = parse(r1, level + 1)->Ok_0;
            lemma_parse_sound(r2, level + 1);
            assert(b =~= seq![2u8] + b.skip(1));
            assert(b =~= encoded(t) + r);
        } else {
            lemma_hash_bytes(b.subrange(1, 33));
            lemma_from_be32(b.subrange(33, 37));
            assert(b.subrange(33, 37).take(4) =~= b.subrange(33, 37));
            assert(b =~= seq![3u8] + b.subrange(1, 33) + b.subrange(33, 37) + b.skip(37));
            assert(b =~= encoded(t) + r);
        }
    }
}

/// Reading the byte form of a whole trie gives it back.
pub proof fn law_decode_undoes_encode(root: Option<Trie>)
    requires
        decodable_root(root),
    ensures
        parse_root(encoded_root(root)) == Ok::<Option<Trie>, Fault>(root),
{
    if let Some(t) = root {
        law_parse_encoded(t, 0, Seq::empty());
        assert(encoded(t) + Seq::<u8>::empty() =~= encoded(t));
    }
}

/// Different tries have different byte forms.
pub proof fn law_encoding_is_injective(a: Option<Trie>, b: Option<Trie>)
    requires
        decodable_root(a),
        decodable_root(b),
        encoded_root(a) == encoded_root(b),
    ensures
        a == b,
{
    law_decode_undoes_encode(a);
    law_decode_undoes_encode(b);
}

/// What is read is what the input begins with, and could have been written so: a
/// trie is read from its own byte form alone.
pub proof fn law_what_is_read_was_written(b: Seq<u8>)
    ensures
        parse_start(b) matches Ok((root, r)) ==> b == encoded_root(root) + r && decodable_root(root),
        parse_root(b) matches Ok(root) ==> b == encoded_root(root) && decodable_root(root),
{
    if let Ok((root, r)) = parse_start(b) {
        if b[0] == 0 {
            assert(b =~= seq![0u8] + r);
        } else {
            lemma_parse_sound(b, 0);
            assert(encoded(root->0)[0] == b[0]);
        }
        assert(r.len() == 0 ==> b =~= encoded_root(root));
    }
}

/// A place in a byte string that is being read. The byte string may stand for a
/// stream, of which less is said when it ends too early.
#[derive(Debug)]
pub struct TraceReader<'a> {
    bytes: &'a [u8],
    pos: usize,
    stream: bool,
}

impl<'a> TraceReader<'a> {
    #[verifier::type_invariant]
    spec fn inv(self) -> bool {
        self.pos <= self.bytes@.len()
    }

    /// What is left to read.
    pub closed spec fn rest(&self) -> Seq<u8> {
        self.bytes@.skip(self.pos as int)
    }

    /// At the start of `bytes`.
    pub fn new(bytes: &'a [u8]) -> (r: Self)
        ensures
            r.rest() == bytes@,
    {
        let r = TraceReader { bytes, pos: 0, stream: false };
        assert(r.rest() =~= bytes@);
        r
    }

    /// At the start of a stream with the bytes `bytes`.
    pub fn over_stream(bytes: &'a [u8]) -> (r: Self)
        ensures
            r.rest() == bytes@,
    {
        let r = TraceReader { bytes, pos: 0, stream: true };
        assert(r.rest() =~= bytes@);
        r
    }

    /// How many bytes are left.
    pub fn remaining(&self) -> (n: usize)
        ensures
            n == self.rest().len(),
    {
        proof {
            use_type_invariant(self);
        }
        self.bytes.len() - self.pos
    }

    /// Reads `len` bytes; an error, which reads nothing, if there are fewer.
    pub fn read_bytes(&mut self, len: usize) -> (r: Result<&'a [u8], Error>)
        ensures
            match r {
                Ok(out) => len <= old(self).rest().len() && out@ == old(self).rest().take(len as int) && final(self).rest()
                    == old(self).rest().skip(len as int),
                Err(e) => len > old(self).rest().len() && e.fault() == Fault::Proof && final(self).rest() == old(self).rest(),
            },
    {
        proof {
            use_type_invariant(&*self);
        }
        let total: usize = self.bytes.len();
        if len > total - self.pos {
            if self.stream {
                return Err(Error::Proof(told("failed to fill whole buffer")));
            }
            let mut text = told_numbers(
                "MRT trace truncated: need ",
                len as u64,
                " more byte(s), ",
                (total - self.pos) as u64,
            );
            text.append(" remaining");
            return Err(Error::Proof(text));
        }
        let end: usize = self.pos + len;
        let out = vstd::slice::slice_subrange(self.bytes, self.pos, end);
        assert(out@ =~= self.rest().take(len as int));
        assert(self.bytes@.skip(end as int) =~= self.rest().skip(len as int));
        self.pos = end;
        Ok(out)
    }

    /// Reads one byte.
    pub fn read_u8(&mut self) -> (r: Result<u8, Error>)
        ensures
            match r {
                Ok(b) => old(self).rest().len() >= 1 && b == old(self).rest()[0] && final(self).rest() == old(self).rest().skip(1),
                Err(e) => old(self).rest().len() == 0 && e.fault() == Fault::Proof,
            },
    {
        match self.read_bytes(1) {
            Ok(b) => Ok(b[0]),
            Err(e) => Err(e),
        }
    }

    /// Reads a number of four bytes, most significant first.
    pub fn read_u32(&mut self) -> (r: Result<u32, Error>)
        ensures
            match r {
                Ok(n) => old(self).rest().len() >= 4 && n == from_be32(old(self).rest()) && final(self).rest() == old(self).rest().skip(4),
                Err(e) => old(self).rest().len() < 4 && e.fault() == Fault::Proof,
            },
    {
        proof {
            reveal(from_be32);
        }
        match self.read_bytes(4) {
            Ok(b) => {
                let n: u32 = b[0] as u32 * 16777216 + b[1] as u32 * 65536 + b[2] as u32 * 256 + b[3] as u32;
                Ok(n)
            },
            Err(e) => Err(e),
        }
    }

    /// Reads a digest.
    pub fn read_hash(&mut self) -> (r: Result<NodeHash, Error>)
        ensures
            match r {
                Ok(h) => old(self).rest().len() >= 32 && h@ == old(self).rest().take(32) && final(self).rest() == old(self).rest().skip(32),
                Err(e) => old(self).rest().len() < 32 && e.fault() == Fault::Proof,
            },
    {
        match self.read_bytes(32) {
            Ok(b) => Ok(hash_from_bytes(b)),
            Err(e) => Err(e),
        }
    }

    /// Reads a framed bit string.
    pub fn read_skip(&mut self) -> (r: Result<RouteBits, Error>)
        ensures
            match r {
                Ok(skip) => parse_skip(old(self).rest()) == Some((skip@, final(self).rest())),
                Err(e) => parse_skip(old(self).rest()) is None && e.fault() == Fault::Proof,
            },
    {
        let ghost b = self.rest();
        proof {
            reveal(parse_skip);
        }
        let bit_len_u32: u32 = match self.read_u32() {
            Ok(n) => n,
            Err(e) => {
                return Err(e);
            },
        };
        if bit_len_u32 > 65535 {
            return Err(Error::Proof(told_number("MRT trace route bit length ", bit_len_u32 as u64, " exceeds u16")));
        }
        let bit_len: u16 = bit_len_u32 as u16;
        let packed_len: usize = (bit_len as usize + 7) / 8;
        let packed: &[u8] = match self.read_bytes(packed_len) {
            Ok(p) => p,
            Err(e) => {
                return Err(e);
            },
        };
        proof {
            let m = bytes_for(bit_len as int);
            assert(b.skip(4).take(m) =~= b.subrange(4, 4 + m));
            assert(b.skip(4).skip(m) =~= b.skip(4 + m));
        }
        match RouteBits::from_packed(bit_len, packed) {
            Ok(skip) => Ok(skip),
            Err(msg) => Err(Error::Proof(told_after("MRT trace route bits invalid: ", msg.as_str()))),
        }
    }

    /// Reads the depth of a pruned node.
    pub fn read_depth(&mut self) -> (r: Result<u16, Error>)
        ensures
            match r {
                Ok(n) => old(self).rest().len() >= 4 && n == from_be32(old(self).rest()) && n <= MAX_ROUTE_BITS && final(self).rest() == old(self).rest().skip(4),
                Err(e) => (old(self).rest().len() < 4 || from_be32(old(self).rest()) > MAX_ROUTE_BITS) && e.fault()
                    == Fault::Proof,
            },
    {
        let n: u32 = match self.read_u32() {
            Ok(n) => n,
            Err(e) => {
                return Err(e);
            },
        };
        if n > 65535 {
            let what = if self.stream {
                "MRT trace pruned depth_below "
            } else {
                "MRT trace depth_below "
            };
            return Err(Error::Proof(told_number(what, n as u64, " exceeds u16")));
        }
        match validate_depth_below(n as u16) {
            Ok(depth) => Ok(depth),
            Err(e) => {
                let text = e.into_text();
                if self.stream {
                    return Err(Error::Proof(text));
                }
                Err(Error::Proof(told_after("MRT trace depth_below invalid: ", text.as_str())))
            },
        }
    }
}

/// The digest with the given bytes.
pub fn hash_from_bytes(b: &[u8]) -> (h: NodeHash)
    requires
        b@.len() == 32,
    ensures
        h@ == b@,
        h == as_hash(b@),
{
    let mut h: NodeHash = NULL_HASH;
    let mut i: usize = 0;
    while i < 32
        invariant
            i <= 32,
            b@.len() == 32,
            forall|j: int| 0 <= j < i ==> h[j] == b@[j],
        decreases 32 - i,
    {
        h[i] = b[i];
        i = i + 1;
    }
    assert(h@ =~= b@);
    proof {
        lemma_as_hash(h);
    }
    h
}

} // verus!
