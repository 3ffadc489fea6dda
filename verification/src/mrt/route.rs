//! Routes: the bits of keys that steer a descent, packed into bytes.

use vstd::prelude::*;

use crate::bits::{bit_of, bits_of, byte_bit, bytes_for, lemma_byte_ext, lemma_drop_bits, lemma_keep_bits,
    lcp, lemma_lcp_is, lemma_overlay_bits, lemma_pack_unique, lemma_window_bits, lemma_zero_byte, pack, padded};
use crate::error::{Error, Fault};
use crate::text::{decimal, push_number, shown, told, told_after, told_bytes, told_number, told_numbers};

verus! {

/// The longest key, in bytes.
pub const MAX_KEY_LEN: usize = 4096;

/// The longest route, in bits. A key's route is its raw bits, eight per byte,
/// most significant first, with no terminator: routes are prefix-free only if
/// the keys are.
pub const MAX_ROUTE_BITS: u16 = 32768;

/// The route of a key: its bits.
pub open spec fn route(key: Seq<u8>) -> Seq<bool> {
    bits_of(key, 8 * key.len())
}

/// The longest keys have the longest routes, and every shorter key a shorter one.
pub proof fn law_longest_keys_have_the_longest_routes(key: Seq<u8>)
    ensures
        key.len() <= MAX_KEY_LEN <==> route(key).len() <= MAX_ROUTE_BITS,
        key.len() == MAX_KEY_LEN <==> route(key).len() == MAX_ROUTE_BITS,
{
}

/// What is left of a route after its first `n` bits; nothing if it is shorter.
pub open spec fn rest(r: Seq<bool>, n: int) -> Seq<bool> {
    if 0 <= n <= r.len() {
        r.skip(n)
    } else {
        Seq::empty()
    }
}

/// A string of at most [`MAX_ROUTE_BITS`] bits, packed most significant bit
/// first; the unused bits of the last byte are zero.
#[derive(Debug, PartialEq, Eq)]
pub struct RouteBits {
    bit_len: u16,
    bytes: Vec<u8>,
}

/// What comparing a route piece with a key gives.
#[derive(Clone, Copy, Debug, PartialEq, Eq)]
pub enum MatchResult {
    /// Every bit agrees.
    FullMatch,
    /// The bits before `offset` agree, and the one there does not.
    Mismatch { offset: u16 },
}

impl View for RouteBits {
    type V = Seq<bool>;

    closed spec fn view(&self) -> Seq<bool> {
        bits_of(self.bytes@, self.bit_len as nat)
    }
}

/// The length of a packed form of `bit_len` bits.
fn packed_len(bit_len: u16) -> (n: usize)
    ensures
        n == bytes_for(bit_len as int),
{
    (bit_len as usize + 7) / 8
}

/// Bit `offset` of packed bytes.
fn packed_bit(bytes: &[u8], offset: u16) -> (bit: bool)
    requires
        offset < 8 * bytes@.len(),
    ensures
        bit == bit_of(bytes@, offset as int),
{
    let k: u8 = (offset % 8) as u8;
    (bytes[(offset / 8) as usize] >> (7 - k)) & 1u8 == 1u8
}

/// The eight bits of `bytes` that start at bit `offset`; bits past the end read as zero.
fn packed_field(bytes: &[u8], offset: usize) -> (field: u8)
    ensures
        forall|k: int| 0 <= k < 8 ==> byte_bit(field, k) == #[trigger] bit_of(bytes@, offset + k),
{
    let idx: usize = offset / 8;
    let s: u8 = (offset % 8) as u8;
    let a: u8 = if idx < bytes.len() { bytes[idx] } else { 0 };
    let c: u8 = if idx < bytes.len() && idx + 1 < bytes.len() { bytes[idx + 1] } else { 0 };
    proof {
        assert forall|k: int| 0 <= k < 8 implies !byte_bit(0u8, k) by {
            lemma_zero_byte(k as u8);
        }
    }
    if s == 0 {
        proof {
            assert forall|k: int| 0 <= k < 8 implies byte_bit(a, k) == #[trigger] bit_of(bytes@, offset + k) by {
                assert((offset + k) / 8 == idx && (offset + k) % 8 == k);
            }
        }
        a
    } else {
        let w: u8 = (a << s) | (c >> (8 - s));
        proof {
            assert forall|k: int| 0 <= k < 8 implies byte_bit(w, k) == #[trigger] bit_of(bytes@, offset + k) by {
                lemma_window_bits(a, c, s, k as u8);
                if k + s < 8 {
                    assert((offset + k) / 8 == idx && (offset + k) % 8 == k + s);
                } else {
                    assert((offset + k) / 8 == idx + 1 && (offset + k) % 8 == k + s - 8);
                }
            }
        }
        w
    }
}

/// `byte` with all but its first `used` bits cleared.
fn keep_bits(byte: u8, used: u16) -> (r: u8)
    requires
        1 <= used < 8,
    ensures
        forall|k: int| 0 <= k < 8 ==> #[trigger] byte_bit(r, k) == (k < used && byte_bit(byte, k)),
{
    let u: u8 = used as u8;
    let r: u8 = byte & !(0xffu8 >> u);
    proof {
        assert forall|k: int| 0 <= k < 8 implies #[trigger] byte_bit(r, k) == (k < used && byte_bit(byte, k)) by {
            lemma_keep_bits(byte, u, k as u8);
        }
    }
    r
}

/// The bits `[start, start + bit_len)` of `src`, packed; bits past its end read as zero.
fn pack_window(src: &[u8], start: usize, bit_len: u16) -> (bytes: Vec<u8>)
    requires
        start <= 65536,
    ensures
        bytes@.len() == bytes_for(bit_len as int),
        forall|i: int|
            0 <= i < 8 * bytes@.len() ==> #[trigger] bit_of(bytes@, i) == (i < bit_len && bit_of(src@, start + i)),
{
    let n: usize = packed_len(bit_len);
    let mut bytes: Vec<u8> = Vec::new();
    let mut k: usize = 0;
    while k < n
        invariant
            k <= n,
            n == bytes_for(bit_len as int),
            start <= 65536,
            bytes@.len() == k,
            forall|i: int|
                0 <= i < 8 * k ==> #[trigger] bit_of(bytes@, i) == (i < bit_len && bit_of(src@, start + i)),
        decreases n - k,
    {
        let field: u8 = packed_field(src, start + 8 * k);
        let tail: bool = k + 1 == n && bit_len % 8 != 0;
        let byte: u8 = if tail { keep_bits(field, bit_len % 8) } else { field };
        let ghost before = bytes@;
        bytes.push(byte);
        proof {
            assert forall|i: int| 0 <= i < 8 * (k + 1) implies #[trigger] bit_of(bytes@, i) == (i < bit_len && bit_of(
                src@,
                start + i,
            )) by {
                if i < 8 * k {
                    assert(bit_of(bytes@, i) == bit_of(before, i));
                } else {
                    let j = i - 8 * k;
                    assert(i / 8 == k && i % 8 == j);
                    assert(bit_of(bytes@, i) == byte_bit(byte, j));
                    assert(bit_of(src@, (start + 8 * k) + j) == byte_bit(field, j));
                    assert((start + 8 * k) + j == start + i);
                }
            }
        }
        k = k + 1;
    }
    bytes
}

/// Whether the bits of `packed` past the first `bit_len` are zero.
fn tail_is_zero(packed: &[u8], bit_len: u16) -> (r: bool)
    requires
        packed@.len() == bytes_for(bit_len as int),
    ensures
        r == (forall|i: int| bit_len <= i < 8 * packed@.len() ==> !bit_of(packed@, i)),
{
    let used: u16 = bit_len % 8;
    if used == 0 {
        return true;
    }
    let last: u8 = packed[packed.len() - 1];
    let tail: u8 = last & (0xffu8 >> (used as u8));
    proof {
        assert forall|k: int| 0 <= k < 8 implies #[trigger] byte_bit(tail, k) == (k >= used && byte_bit(last, k)) by {
            lemma_drop_bits(last, used as u8, k as u8);
        }
        assert forall|i: int| bit_len <= i < 8 * packed@.len() implies bit_of(packed@, i) == byte_bit(tail, i % 8) by {
            assert(i / 8 == packed@.len() - 1);
            assert(i % 8 >= used);
        }
        assert forall|k: int| 0 <= k < 8 implies !#[trigger] byte_bit(0u8, k) by {
            lemma_zero_byte(k as u8);
        }
        if forall|i: int| bit_len <= i < 8 * packed@.len() ==> !bit_of(packed@, i) {
            assert forall|k: int| 0 <= k < 8 implies byte_bit(tail, k) == byte_bit(0u8, k) by {
                if k >= used {
                    let i = 8 * (packed@.len() - 1) + k;
                    assert(i % 8 == k);
                    assert(!bit_of(packed@, i));
                }
            }
            lemma_byte_ext(tail, 0u8);
        }
    }
    tail == 0
}

impl Clone for RouteBits {
    fn clone(&self) -> (r: Self)
        ensures
            r@ == self@,
    {
        proof {
            use_type_invariant(self);
        }
        let bytes: Vec<u8> = pack_window(self.bytes.as_slice(), 0, self.bit_len);
        let r = RouteBits { bit_len: self.bit_len, bytes };
        assert(r@ =~= self@) by {
            assert forall|i: int| 0 <= i < self.bit_len implies r@[i] == self@[i] by {
                assert(bit_of(bytes@, i) == bit_of(self.bytes@, 0 + i));
            }
        }
        r
    }
}

impl RouteBits {
    #[verifier::type_invariant]
    spec fn inv(self) -> bool {
        &&& self.bit_len <= MAX_ROUTE_BITS
        &&& self.bytes@.len() == bytes_for(self.bit_len as int)
        &&& forall|i: int| self.bit_len <= i < 8 * self.bytes@.len() ==> !bit_of(self.bytes@, i)
    }

    /// No bits.
    pub fn empty() -> (r: Self)
        ensures
            r@ == Seq::<bool>::empty(),
    {
        let r = RouteBits { bit_len: 0, bytes: Vec::new() };
        assert(r@ =~= Seq::<bool>::empty());
        r
    }

    /// The single bit `bit`.
    fn single(bit: bool) -> (r: Self)
        ensures
            r@ == seq![bit],
    {
        let mut bytes: Vec<u8> = Vec::new();
        let byte: u8 = if bit { 0x80 } else { 0 };
        bytes.push(byte);
        proof {
            assert forall|k: int| 0 <= k < 8 implies #[trigger] byte_bit(byte, k) == (k == 0 && bit) by {
                lemma_zero_byte(k as u8);
                let m = k as u8;
                assert(((0x80u8 >> ((7 - m) as u8)) & 1u8 == 1u8) == (m == 0)) by (bit_vector)
                    requires
                        m < 8,
                ;
            }
            assert forall|i: int| 0 <= i < 8 implies #[trigger] bit_of(bytes@, i) == (i == 0 && bit) by {
                assert(bit_of(bytes@, i) == byte_bit(byte, i));
            }
        }
        let r = RouteBits { bit_len: 1, bytes };
        assert(r@ =~= seq![bit]);
        r
    }

    /// The number of bits.
    pub fn bit_len(&self) -> (n: u16)
        ensures
            n == self@.len(),
            n <= MAX_ROUTE_BITS,
    {
        proof {
            use_type_invariant(self);
        }
        self.bit_len
    }

    /// The packed form.
    pub fn packed_bytes(&self) -> (bytes: &[u8])
        ensures
            bytes@ == pack(self@),
            bytes@.len() == bytes_for(self@.len() as int),
    {
        proof {
            use_type_invariant(self);
            lemma_pack_unique(self.bytes@, self.bit_len as nat);
        }
        self.bytes.as_slice()
    }

    /// The length of the framed form: a bit count of four bytes, then the packed form.
    pub fn encoded_len(&self) -> (n: usize)
        ensures
            n == 4 + bytes_for(self@.len() as int),
    {
        proof {
            use_type_invariant(self);
        }
        4 + self.bytes.len()
    }

    /// Reads `bit_len` bits from their packed form, which must be exactly as
    /// long as needed and hold zeros past the last bit.
    pub fn from_packed(bit_len: u16, packed: &[u8]) -> (r: Result<Self, String>)
        ensures
            r is Ok <==> (bit_len <= MAX_ROUTE_BITS && packed@.len() == bytes_for(bit_len as int) && forall|i: int|
                bit_len <= i < 8 * packed@.len() ==> !bit_of(packed@, i)),
            r matches Ok(route) ==> route@ == bits_of(packed@, bit_len as nat) && pack(route@) == packed@,
            r matches Err(text) ==> text@ == unpacked_text(bit_len as nat, packed@.len()),
    {
        if bit_len > MAX_ROUTE_BITS {
            return Err(told_numbers("route bit length ", bit_len as u64, " exceeds maximum ", MAX_ROUTE_BITS as u64));
        }
        let expected: usize = packed_len(bit_len);
        if packed.len() != expected {
            let mut text = told_numbers("route bit length ", bit_len as u64, " requires ", expected as u64);
            text.append(" packed bytes, got ");
            push_number(&mut text, packed.len() as u64);
            return Err(text);
        }
        if !tail_is_zero(packed, bit_len) {
            return Err(told("route bits have nonzero unused final-byte bits"));
        }
        let bytes: Vec<u8> = pack_window(packed, 0, bit_len);
        let r = RouteBits { bit_len, bytes };
        proof {
            assert forall|i: int| 0 <= i < bit_len implies r@[i] == bit_of(packed@, i) by {
                assert(bit_of(bytes@, i) == bit_of(packed@, 0 + i));
            }
            assert(r@ =~= bits_of(packed@, bit_len as nat));
            lemma_pack_unique(packed@, bit_len as nat);
        }
        Ok(r)
    }

    /// The bits `[start, end)` of the route of `key`; bits past its end read as zero.
    pub fn from_key_range(key: &[u8], start: u16, end: u16) -> (r: Self)
        requires
            start <= end <= MAX_ROUTE_BITS,
        ensures
            r@ == Seq::new((end - start) as nat, |i: int| bit_of(key@, start + i)),
    {
        let bit_len: u16 = end - start;
        let bytes: Vec<u8> = pack_window(key, start as usize, bit_len);
        let r = RouteBits { bit_len, bytes };
        assert(r@ =~= Seq::new((end - start) as nat, |i: int| bit_of(key@, start + i)));
        r
    }

    /// Bit `offset`.
    pub fn bit_at(&self, offset: u16) -> (bit: bool)
        requires
            offset < self@.len(),
        ensures
            bit == self@[offset as int],
    {
        proof {
            use_type_invariant(self);
        }
        packed_bit(self.bytes.as_slice(), offset)
    }

    /// Compares these bits with those of `key` from position `depth` on. Bits
    /// past the end of the key read as zero; positions past `u16::MAX` agree
    /// with nothing.
    pub fn matches_key_at(&self, key: &[u8], depth: u16) -> (r: MatchResult)
        ensures
            match r {
                MatchResult::FullMatch => depth + self@.len() <= 65536 && forall|i: int|
                    0 <= i < self@.len() ==> #[trigger] self@[i] == bit_of(key@, depth + i),
                MatchResult::Mismatch { offset } => {
                    &&& offset < self@.len()
                    &&& depth + offset <= 65536
                    &&& forall|i: int| 0 <= i < offset ==> #[trigger] self@[i] == bit_of(key@, depth + i)
                    &&& depth + offset == 65536 || self@[offset as int] != bit_of(key@, depth + offset)
                },
            },
    {
        proof {
            use_type_invariant(self);
        }
        let base: usize = depth as usize;
        let bit_len: usize = self.bit_len as usize;
        let valid: usize = 65536 - base;
        let scan: usize = if bit_len < valid { bit_len } else { valid };
        let mut o: usize = 0;
        while o < scan
            invariant
                o % 8 == 0,
                base == depth,
                self.inv(),
                bit_len == self.bit_len,
                scan <= bit_len,
                base + scan <= 65536,
                forall|i: int| 0 <= i < o && i < scan ==> #[trigger] self@[i] == bit_of(key@, depth + i),
            decreases scan + 8 - o,
        {
            let expected: u8 = packed_field(key, base + o);
            let actual: u8 = self.bytes[o / 8];
            if expected != actual {
                let mut j: usize = 0;
                while j < 8 && o + j < scan
                    invariant
                        j <= 8,
                        o % 8 == 0,
                        o < scan,
                        base == depth,
                        self.inv(),
                        bit_len == self.bit_len,
                        scan <= bit_len,
                        base + scan <= 65536,
                        forall|i: int| 0 <= i < o + j && i < scan ==> #[trigger] self@[i] == bit_of(key@, depth + i),
                    decreases 8 - j,
                {
                    let at: u16 = (o + j) as u16;
                    if self.bit_at(at) != bit_at_position(key, base + o + j) {
                        return MatchResult::Mismatch { offset: at };
                    }
                    j = j + 1;
                }
            } else {
                proof {
                    assert forall|i: int| o <= i < o + 8 && i < scan implies #[trigger] self@[i] == bit_of(key@, depth + i) by {
                        let k = i - o;
                        assert(i / 8 == o / 8 && i % 8 == k);
                        assert(byte_bit(expected, k) == bit_of(key@, (base + o) + k));
                        assert((base + o) + k == depth + i);
                    }
                }
            }
            o = o + 8;
        }
        if scan < bit_len {
            return MatchResult::Mismatch { offset: scan as u16 };
        }
        MatchResult::FullMatch
    }

    /// The bits `[start, end)`.
    pub fn slice(&self, start: u16, end: u16) -> (r: Self)
        requires
            start <= end <= self@.len(),
        ensures
            r@ == self@.subrange(start as int, end as int),
    {
        proof {
            use_type_invariant(self);
        }
        let bit_len: u16 = end - start;
        let bytes: Vec<u8> = pack_window(self.bytes.as_slice(), start as usize, bit_len);
        let r = RouteBits { bit_len, bytes };
        assert(r@ =~= self@.subrange(start as int, end as int)) by {
            assert forall|i: int| 0 <= i < bit_len implies r@[i] == self@[start + i] by {
                assert(bit_of(bytes@, i) == bit_of(self.bytes@, start + i));
            }
        }
        r
    }

    /// The bits before `bit_offset`, the bit there, and the bits after it.
    pub fn split_at(&self, bit_offset: u16) -> (r: (Self, bool, Self))
        requires
            bit_offset < self@.len(),
        ensures
            r.0@ == self@.take(bit_offset as int),
            r.1 == self@[bit_offset as int],
            r.2@ == self@.skip(bit_offset + 1),
    {
        proof {
            use_type_invariant(self);
        }
        (self.slice(0, bit_offset), self.bit_at(bit_offset), self.slice(bit_offset + 1, self.bit_len))
    }

    /// As [`RouteBits::split_at`], reusing the buffer for the bits before `bit_offset`.
    pub fn split_at_into(self, bit_offset: u16) -> (r: (Self, bool, Self))
        requires
            bit_offset < self@.len(),
        ensures
            r.0@ == self@.take(bit_offset as int),
            r.1 == self@[bit_offset as int],
            r.2@ == self@.skip(bit_offset + 1),
    {
        proof {
            use_type_invariant(&self);
        }
        let bit: bool = self.bit_at(bit_offset);
        let suffix = self.slice(bit_offset + 1, self.bit_len);
        let ghost whole = self@;
        let prefix = self.into_prefix(bit_offset);
        (prefix, bit, suffix)
    }

    /// The first `len` bits, in the same buffer.
    fn into_prefix(self, len: u16) -> (r: Self)
        requires
            len <= self@.len(),
        ensures
            r@ == self@.take(len as int),
    {
        proof {
            use_type_invariant(&self);
        }
        let ghost whole = self@;
        let ghost old_bytes = self.bytes@;
        let mut bytes: Vec<u8> = self.bytes;
        let n: usize = packed_len(len);
        bytes.truncate(n);
        if len % 8 != 0 {
            let byte: u8 = keep_bits(bytes[n - 1], len % 8);
            bytes.set(n - 1, byte);
        }
        proof {
            assert forall|i: int| 0 <= i < 8 * bytes@.len() implies #[trigger] bit_of(bytes@, i) == (i < len && bit_of(old_bytes, i)) by {
                if i / 8 == n - 1 && len % 8 != 0 {
                    assert(bit_of(bytes@, i) == byte_bit(bytes@[n - 1], i % 8));
                }
            }
        }
        let r = RouteBits { bit_len: len, bytes };
        assert(r@ =~= whole.take(len as int));
        r
    }

    /// The bits from `start` on.
    pub fn into_suffix(self, start: u16) -> (r: Self)
        requires
            start <= self@.len(),
        ensures
            r@ == self@.skip(start as int),
    {
        proof {
            use_type_invariant(&self);
        }
        let ghost whole = self@;
        let ghost src = self.bytes@;
        let bit_len: u16 = self.bit_len - start;
        let n: usize = packed_len(bit_len);
        let first: usize = start as usize;
        let mut bytes: Vec<u8> = self.bytes;
        let mut k: usize = 0;
        while k < n
            invariant
                k <= n,
                n == bytes_for(bit_len as int),
                first == start,
                start + bit_len <= MAX_ROUTE_BITS,
                bytes@.len() == src.len(),
                8 * src.len() >= start + bit_len,
                forall|i: int| start + bit_len <= i < 8 * src.len() ==> !bit_of(src, i),
                forall|m: int| k <= m < src.len() ==> bytes@[m] == src[m],
                forall|i: int| 0 <= i < 8 * k ==> #[trigger] bit_of(bytes@, i) == bit_of(src, start + i),
            decreases n - k,
        {
            let field: u8 = packed_field(bytes.as_slice(), first + 8 * k);
            let ghost before = bytes@;
            bytes.set(k, field);
            proof {
                assert forall|i: int| 0 <= i < 8 * (k + 1) implies #[trigger] bit_of(bytes@, i) == bit_of(src, start + i) by {
                    if i < 8 * k {
                        assert(bit_of(bytes@, i) == bit_of(before, i));
                    } else {
                        let j = i - 8 * k;
                        assert(i / 8 == k && i % 8 == j);
                        assert(bit_of(before, (first + 8 * k) + j) == byte_bit(field, j));
                        assert((first + 8 * k) + j == start + i);
                        assert((start + i) / 8 >= k);
                        assert(bit_of(before, start + i) == bit_of(src, start + i));
                    }
                }
            }
            k = k + 1;
        }
        let ghost shifted = bytes@;
        bytes.truncate(n);
        proof {
            assert forall|i: int| 0 <= i < 8 * n implies #[trigger] bit_of(bytes@, i) == bit_of(src, start + i) by {
                assert(bit_of(bytes@, i) == bit_of(shifted, i));
            }
            assert forall|i: int| bit_len <= i < 8 * n implies !bit_of(bytes@, i) by {
                assert(bit_of(bytes@, i) == bit_of(src, start + i));
            }
        }
        let r = RouteBits { bit_len, bytes };
        assert(r@ =~= whole.skip(start as int));
        r
    }

    /// These bits followed by `suffix`, unless that is longer than [`MAX_ROUTE_BITS`].
    pub fn concat(&self, suffix: &RouteBits) -> (r: Result<Self, Error>)
        ensures
            r is Ok <==> self@.len() + suffix@.len() <= MAX_ROUTE_BITS,
            r matches Ok(whole) ==> whole@ == self@ + suffix@,
            r matches Err(e) ==> e.fault() == Fault::Tree && e.text() == long_skip_text(self@.len() + suffix@.len()),
    {
        proof {
            use_type_invariant(self);
            use_type_invariant(suffix);
        }
        if self.bit_len as u32 + suffix.bit_len as u32 > MAX_ROUTE_BITS as u32 {
            return Err(skip_too_long(self.bit_len as u64 + suffix.bit_len as u64));
        }
        let total: u16 = self.bit_len + suffix.bit_len;
        let n: usize = packed_len(total);
        let len: usize = self.bit_len as usize;
        let mut bytes: Vec<u8> = Vec::new();
        let mut k: usize = 0;
        while k < n
            invariant
                k <= n,
                n == bytes_for(total as int),
                total == self.bit_len + suffix.bit_len,
                total <= MAX_ROUTE_BITS,
                len == self.bit_len,
                self.inv(),
                suffix.inv(),
                bytes@.len() == k,
                forall|i: int| 0 <= i < 8 * k ==> #[trigger] bit_of(bytes@, i) == padded(self@ + suffix@, i),
            decreases n - k,
        {
            let pos: usize = 8 * k;
            let byte: u8 = if pos >= len {
                packed_field(suffix.bytes.as_slice(), pos - len)
            } else if pos + 8 > len && suffix.bytes.len() > 0 {
                let s: u8 = (len - pos) as u8;
                self.bytes[k] | (suffix.bytes[0] >> s)
            } else {
                self.bytes[k]
            };
            let ghost before = bytes@;
            bytes.push(byte);
            proof {
                let whole = self@ + suffix@;
                assert forall|i: int| 0 <= i < 8 * (k + 1) implies #[trigger] bit_of(bytes@, i) == padded(whole, i) by {
                    if i < 8 * k {
                        assert(bit_of(bytes@, i) == bit_of(before, i));
                    } else {
                        let j = i - 8 * k;
                        assert(i / 8 == k && i % 8 == j);
                        assert(bit_of(bytes@, i) == byte_bit(byte, j));
                        if pos >= len {
                            assert(bit_of(suffix.bytes@, (pos - len) + j) == byte_bit(byte, j));
                            assert((pos - len) + j == i - len);
                            assert(padded(whole, i) == padded(suffix@, i - len));
                        } else if pos + 8 > len && suffix.bytes@.len() > 0 {
                            let s: u8 = (len - pos) as u8;
                            lemma_overlay_bits(self.bytes@[k as int], suffix.bytes@[0], s, j as u8);
                            assert(bit_of(self.bytes@, i) == byte_bit(self.bytes@[k as int], j));
                            if j >= s {
                                assert((j - s) / 8 == 0 && (j - s) % 8 == j - s);
                                assert(bit_of(suffix.bytes@, j - s) == byte_bit(suffix.bytes@[0], j - s));
                                assert(i - len == j - s);
                            }
                        } else {
                            assert(bit_of(self.bytes@, i) == byte_bit(self.bytes@[k as int], j));
                        }
                    }
                }
            }
            k = k + 1;
        }
        let r = RouteBits { bit_len: total, bytes };
        assert(r@ =~= self@ + suffix@) by {
            assert forall|i: int| 0 <= i < total implies r@[i] == (self@ + suffix@)[i] by {
                assert(bit_of(bytes@, i) == padded(self@ + suffix@, i));
            }
        }
        Ok(r)
    }

    /// These bits, then `bit`, then `suffix`, unless that is longer than [`MAX_ROUTE_BITS`].
    pub fn concat_bit_and_skip(&self, bit: bool, suffix: &RouteBits) -> (r: Result<Self, Error>)
        ensures
            r is Ok <==> self@.len() + 1 + suffix@.len() <= MAX_ROUTE_BITS,
            r matches Ok(whole) ==> whole@ == self@ + seq![bit] + suffix@,
            r matches Err(e) ==> e.fault() == Fault::Tree && e.text() == long_skip_text(self@.len() + 1 + suffix@.len()),
    {
        proof {
            use_type_invariant(self);
            use_type_invariant(suffix);
        }
        if self.bit_len as u32 + 1 + suffix.bit_len as u32 > MAX_ROUTE_BITS as u32 {
            return Err(skip_too_long(self.bit_len as u64 + 1 + suffix.bit_len as u64));
        }
        match self.concat(&RouteBits::single(bit)) {
            Ok(head) => head.concat(suffix),
            Err(e) => Err(e),
        }
    }

    /// These bits, then `suffix`, then `bit`, unless that is longer than [`MAX_ROUTE_BITS`].
    pub fn concat_skip_then_bit(&self, suffix: &RouteBits, bit: bool) -> (r: Result<Self, Error>)
        ensures
            r is Ok <==> self@.len() + suffix@.len() + 1 <= MAX_ROUTE_BITS,
            r matches Ok(whole) ==> whole@ == self@ + suffix@ + seq![bit],
            r matches Err(e) ==> e.fault() == Fault::Tree && e.text() == long_skip_text(self@.len() + suffix@.len() + 1),
    {
        proof {
            use_type_invariant(self);
            use_type_invariant(suffix);
        }
        if self.bit_len as u32 + suffix.bit_len as u32 + 1 > MAX_ROUTE_BITS as u32 {
            return Err(skip_too_long(self.bit_len as u64 + suffix.bit_len as u64 + 1));
        }
        match self.concat(suffix) {
            Ok(head) => head.concat(&RouteBits::single(bit)),
            Err(e) => Err(e),
        }
    }
}

/// Bit `position` of the route of `key`; positions past its end read as `false`.
fn bit_at_position(key: &[u8], position: usize) -> (bit: bool)
    ensures
        bit == bit_of(key@, position as int),
{
    let symbol: usize = position / 8;
    if symbol >= key.len() {
        return false;
    }
    let k: u8 = (position % 8) as u8;
    (key[symbol] >> (7 - k)) & 1u8 == 1u8
}

/// Bit `position` of the route of `key`; positions past its end read as
/// `false`, which keeps the order of routes that of keys.
pub fn route_bit_at(key: &[u8], position: u16) -> (bit: bool)
    ensures
        bit == bit_of(key@, position as int),
        bit == padded(route(key@), position as int),
{
    bit_at_position(key, position as usize)
}

/// The length of the route of `key`.
pub fn route_len(key: &[u8]) -> (n: u16)
    requires
        key@.len() <= MAX_KEY_LEN,
    ensures
        n == route(key@).len(),
        n == 8 * key@.len(),
        n <= MAX_ROUTE_BITS,
{
    (8 * key.len()) as u16
}

/// What is said of a key of `len` bytes, which is too long.
pub open spec fn long_key_text(context: Seq<char>, len: nat) -> Seq<char> {
    "MRT "@ + context + " key length "@ + decimal(len) + " exceeds maximum "@ + decimal(MAX_KEY_LEN as nat)
}

/// Refuses keys longer than [`MAX_KEY_LEN`]. The context says what the key is for.
pub fn validate_key_len(key: &[u8], context: &str) -> (r: Result<(), Error>)
    ensures
        r is Ok <==> key@.len() <= MAX_KEY_LEN,
        r matches Err(e) ==> e.fault() == Fault::Key && e.text() == long_key_text(context@, key@.len()),
{
    if key.len() > MAX_KEY_LEN {
        let mut text = told_after("MRT ", context);
        text.append(" key length ");
        push_number(&mut text, key.len() as u64);
        text.append(" exceeds maximum ");
        push_number(&mut text, MAX_KEY_LEN as u64);
        return Err(Error::Key(text));
    }
    Ok(())
}

/// The length of the route of a prefix, unless the prefix is longer than any key.
pub fn prefix_route_bits(prefix: &[u8]) -> (r: Result<u16, Error>)
    ensures
        r is Ok <==> prefix@.len() <= MAX_KEY_LEN,
        r matches Ok(n) ==> n == 8 * prefix@.len(),
        r matches Err(e) ==> e.fault() == Fault::Key,
{
    match validate_key_len(prefix, "prefix") {
        Ok(_) => Ok((8 * prefix.len()) as u16),
        Err(e) => Err(e),
    }
}

/// The route of `key`. [`key_from_route_bits`] undoes it.
pub fn route_bits_of(key: &[u8]) -> (r: RouteBits)
    requires
        key@.len() <= MAX_KEY_LEN,
    ensures
        r@ == route(key@),
{
    let r = RouteBits::from_key_range(key, 0, route_len(key));
    assert(r@ =~= route(key@));
    r
}

/// The part of the route of `key` below `depth`: what a leaf reached there holds.
pub fn leaf_skip_from_key(key: &[u8], depth: u16) -> (r: RouteBits)
    requires
        key@.len() <= MAX_KEY_LEN,
        depth <= 8 * key@.len(),
    ensures
        r@ == route(key@).skip(depth as int),
{
    let r = RouteBits::from_key_range(key, depth, route_len(key));
    assert(r@ =~= route(key@).skip(depth as int));
    r
}

/// Whether `skip` agrees with the route `k` from position `d` on; positions
/// past the end of `k` read as zero.
pub open spec fn agrees(skip: Seq<bool>, k: Seq<bool>, d: int) -> bool {
    forall|i: int| 0 <= i < skip.len() ==> #[trigger] skip[i] == padded(k, d + i)
}

/// Whether `skip` is exactly what is left of the route `k` at position `d`.
pub open spec fn completes(skip: Seq<bool>, k: Seq<bool>, d: int) -> bool {
    d + skip.len() == k.len() && skip == k.skip(d)
}

/// Whether the bits of `skip` are those of `key` from `depth` on.
pub fn skip_matches(skip: &RouteBits, key: &[u8], depth: u16) -> (r: bool)
    requires
        depth + skip@.len() <= 65536,
    ensures
        r == agrees(skip@, route(key@), depth as int),
{
    match skip.matches_key_at(key, depth) {
        MatchResult::FullMatch => true,
        MatchResult::Mismatch { offset } => {
            assert(skip@[offset as int] != padded(route(key@), depth + offset));
            false
        },
    }
}

/// Whether a leaf with `skip`, reached at `depth`, is that of `key`: all bits
/// agree and the route ends where the leaf does.
pub fn leaf_matches(skip: &RouteBits, key: &[u8], depth: u16) -> (r: bool)
    requires
        key@.len() <= MAX_KEY_LEN,
        depth + skip@.len() <= MAX_ROUTE_BITS,
    ensures
        r == completes(skip@, route(key@), depth as int),
{
    let whole: bool = depth + skip.bit_len() == route_len(key);
    if !whole {
        return false;
    }
    let r: bool = skip_matches(skip, key, depth);
    proof {
        let k = route(key@);
        if r {
            assert(skip@ =~= k.skip(depth as int));
        } else if skip@ == k.skip(depth as int) {
            assert forall|i: int| 0 <= i < skip@.len() implies #[trigger] skip@[i] == padded(k, depth + i) by {
            }
        }
    }
    r
}

/// How what is left of a route relates to a node's skip.
#[derive(Clone, Copy, Debug, PartialEq, Eq)]
pub enum SkipRelation {
    /// They first differ at `offset`, which lies within both.
    Diverge { offset: u16 },
    /// They are the same.
    Equal,
    /// The rest of the route is a strict prefix of the skip.
    KeyIsPrefix,
    /// The skip is a strict prefix of the rest of the route.
    SkipIsPrefix,
}

/// Compares `skip` with what is left of the route of `key` at `depth`.
pub fn classify_key_vs_skip(skip: &RouteBits, key: &[u8], depth: u16) -> (rel: SkipRelation)
    requires
        key@.len() <= MAX_KEY_LEN,
    ensures
        ({
            let r = rest(route(key@), depth as int);
            let s = skip@;
            match rel {
                SkipRelation::Diverge { offset } => offset == lcp(s, r) && offset < s.len() && offset < r.len(),
                SkipRelation::Equal => s == r && lcp(s, r) == s.len(),
                SkipRelation::KeyIsPrefix => r.len() < s.len() && lcp(s, r) == r.len(),
                SkipRelation::SkipIsPrefix => s.len() < r.len() && lcp(s, r) == s.len(),
            }
        }),
{
    let skip_len: u16 = skip.bit_len();
    let total: u16 = route_len(key);
    let key_rem: u16 = if total >= depth { total - depth } else { 0 };
    let ghost r = rest(route(key@), depth as int);
    let ghost s = skip@;
    proof {
        assert(r.len() == key_rem);
        assert forall|i: int| 0 <= i implies padded(r, i) == #[trigger] bit_of(key@, depth + i) by {
            if i < r.len() {
                assert(r[i] == route(key@)[depth + i]);
            }
        }
    }
    match skip.matches_key_at(key, depth) {
        MatchResult::Mismatch { offset } => {
            proof {
                assert forall|i: int| 0 <= i < offset implies #[trigger] s[i] == padded(r, i) by {
                    assert(padded(r, i) == bit_of(key@, depth + i));
                }
            }
            if offset < key_rem {
                proof {
                    assert(padded(r, offset as int) == bit_of(key@, depth + offset));
                    assert forall|i: int| 0 <= i < offset implies s[i] == r[i] by {
                        assert(s[i] == padded(r, i));
                    }
                    lemma_lcp_is(s, r, offset as nat);
                }
                SkipRelation::Diverge { offset }
            } else {
                proof {
                    assert forall|i: int| 0 <= i < r.len() implies s[i] == r[i] by {
                        assert(s[i] == padded(r, i));
                    }
                    lemma_lcp_is(s, r, r.len());
                }
                SkipRelation::KeyIsPrefix
            }
        },
        MatchResult::FullMatch => {
            proof {
                assert forall|i: int| 0 <= i < s.len() implies #[trigger] s[i] == padded(r, i) by {
                    assert(padded(r, i) == bit_of(key@, depth + i));
                }
                let m: nat = if s.len() < r.len() { s.len() } else { r.len() };
                assert forall|i: int| 0 <= i < m implies s[i] == r[i] by {
                    assert(s[i] == padded(r, i));
                }
                lemma_lcp_is(s, r, m);
            }
            if key_rem > skip_len {
                SkipRelation::SkipIsPrefix
            } else if key_rem == skip_len {
                assert(s =~= r);
                SkipRelation::Equal
            } else {
                SkipRelation::KeyIsPrefix
            }
        },
    }
}

/// What is said of a key that would be a prefix of another, or the other way round.
pub open spec fn prefix_free_text(key: Seq<u8>) -> Seq<char> {
    "MRT keys must be prefix-free; key "@ + shown(key) + " is a prefix of, or extends, an existing key"@
}

/// The error of an insertion that would make one key a prefix of another.
pub fn prefix_free_violation(key: &[u8]) -> (e: Error)
    ensures
        e.fault() == Fault::Key,
        e.text() == prefix_free_text(key@),
{
    Error::Key(
        told_bytes("MRT keys must be prefix-free; key ", key, " is a prefix of, or extends, an existing key"),
    )
}

/// What is said of bits that are no packed form of a bit string: there are too
/// many, the bytes are too many or too few, or a bit past the last one is set.
pub open spec fn unpacked_text(bit_len: nat, bytes: nat) -> Seq<char> {
    if bit_len > MAX_ROUTE_BITS {
        "route bit length "@ + decimal(bit_len) + " exceeds maximum "@ + decimal(MAX_ROUTE_BITS as nat)
    } else if bytes != bytes_for(bit_len as int) {
        "route bit length "@ + decimal(bit_len) + " requires "@ + decimal(bytes_for(bit_len as int) as nat)
            + " packed bytes, got "@ + decimal(bytes)
    } else {
        "route bits have nonzero unused final-byte bits"@
    }
}

/// What is said of a bit string of `total` bits, which is too long.
pub open spec fn long_skip_text(total: nat) -> Seq<char> {
    if total > u16::MAX {
        "MRT route skip length overflow"@
    } else {
        "MRT route skip length "@ + decimal(total) + " exceeds maximum "@ + decimal(MAX_ROUTE_BITS as nat)
    }
}

/// The error of a bit string that is too long.
fn skip_too_long(total: u64) -> (e: Error)
    ensures
        e.fault() == Fault::Tree,
        e.text() == long_skip_text(total as nat),
{
    if total > 65535 {
        return Error::Tree(told("MRT route skip length overflow"));
    }
    Error::Tree(told_numbers("MRT route skip length ", total, " exceeds maximum ", MAX_ROUTE_BITS as u64))
}

/// The key whose route is `bits`, if they make up whole bytes. Undoes [`route_bits_of`].
pub fn key_from_route_bits(bits: RouteBits) -> (r: Result<Vec<u8>, Error>)
    ensures
        r is Ok <==> bits@.len() % 8 == 0,
        r matches Ok(key) ==> route(key@) == bits@ && key@.len() <= MAX_KEY_LEN,
        r matches Err(e) ==> e.fault() == Fault::Tree,
{
    proof {
        use_type_invariant(&bits);
    }
    if bits.bit_len % 8 != 0 {
        return Err(
            Error::Tree(
                told_number("MRT route length ", bits.bit_len as u64, " is not a whole number of bytes (expected a multiple of 8)"),
            ),
        );
    }
    let ghost whole = bits@;
    let key: Vec<u8> = bits.bytes;
    assert(route(key@) =~= whole);
    Ok(key)
}

/// The route bits consumed on the way down from the root.
#[derive(Debug)]
pub struct RoutePrefix {
    bits: RouteBits,
}

impl View for RoutePrefix {
    type V = Seq<bool>;

    closed spec fn view(&self) -> Seq<bool> {
        self.bits@
    }
}

impl RoutePrefix {
    /// At the root: no bits.
    pub fn root() -> (r: Self)
        ensures
            r@ == Seq::<bool>::empty(),
    {
        RoutePrefix { bits: RouteBits::empty() }
    }

    /// The bits so far.
    pub fn bits(&self) -> (r: &RouteBits)
        ensures
            r@ == self@,
    {
        &self.bits
    }

    /// The number of bits so far.
    pub fn bit_len(&self) -> (n: u16)
        ensures
            n == self@.len(),
            n <= MAX_ROUTE_BITS,
    {
        self.bits.bit_len()
    }

    /// One step down: past a branch's skip into its child on `side`.
    pub fn descend(&self, branch_skip: &RouteBits, side: bool) -> (r: Result<Self, Error>)
        ensures
            r is Ok <==> self@.len() + branch_skip@.len() + 1 <= MAX_ROUTE_BITS,
            r matches Ok(p) ==> p@ == self@ + branch_skip@ + seq![side],
            r matches Err(e) ==> e.fault() == Fault::Tree,
    {
        match self.bits.concat_skip_then_bit(branch_skip, side) {
            Ok(bits) => Ok(RoutePrefix { bits }),
            Err(e) => Err(e),
        }
    }

    /// The key of a leaf with `leaf_skip` that was reached here.
    pub fn key_with_suffix(&self, leaf_skip: &RouteBits) -> (r: Result<Vec<u8>, Error>)
        ensures
            r is Ok <==> self@.len() + leaf_skip@.len() <= MAX_ROUTE_BITS && (self@.len() + leaf_skip@.len()) % 8 == 0,
            r matches Ok(key) ==> route(key@) == self@ + leaf_skip@ && key@.len() <= MAX_KEY_LEN,
            r matches Err(e) ==> e.fault() == Fault::Tree,
    {
        match self.bits.concat(leaf_skip) {
            Ok(bits) => key_from_route_bits(bits),
            Err(e) => Err(e),
        }
    }

    /// Back to the root.
    pub fn clear(&mut self)
        ensures
            final(self)@ == Seq::<bool>::empty(),
    {
        self.bits = RouteBits::empty();
    }

    /// As [`RoutePrefix::descend`], in place; on an error nothing changes.
    pub fn descend_in_place(&mut self, branch_skip: &RouteBits, side: bool) -> (r: Result<(), Error>)
        ensures
            r is Ok <==> old(self)@.len() + branch_skip@.len() + 1 <= MAX_ROUTE_BITS,
            r is Ok ==> final(self)@ == old(self)@ + branch_skip@ + seq![side],
            r matches Err(e) ==> e.fault() == Fault::Tree && *final(self) == *old(self),
    {
        match self.bits.concat_skip_then_bit(branch_skip, side) {
            Ok(bits) => {
                self.bits = bits;
                Ok(())
            },
            Err(e) => Err(e),
        }
    }

    /// Back up to the first `bit_len` bits.
    pub fn truncate_to(&mut self, bit_len: u16)
        requires
            bit_len <= old(self)@.len(),
        ensures
            final(self)@ == old(self)@.take(bit_len as int),
    {
        let mut bits = RouteBits::empty();
        std::mem::swap(&mut bits, &mut self.bits);
        self.bits = bits.into_prefix(bit_len);
    }

    /// As [`RoutePrefix::key_with_suffix`].
    pub fn key_with_suffix_scratch(&mut self, leaf_skip: &RouteBits) -> (r: Result<Vec<u8>, Error>)
        ensures
            *final(self) == *old(self),
            r is Ok <==> old(self)@.len() + leaf_skip@.len() <= MAX_ROUTE_BITS && (old(self)@.len() + leaf_skip@.len()) % 8
                == 0,
            r matches Ok(key) ==> route(key@) == old(self)@ + leaf_skip@ && key@.len() <= MAX_KEY_LEN,
            r matches Err(e) ==> e.fault() == Fault::Tree,
    {
        self.key_with_suffix(leaf_skip)
    }
}

impl Clone for RoutePrefix {
    fn clone(&self) -> (r: Self)
        ensures
            r@ == self@,
    {
        RoutePrefix { bits: self.bits.clone() }
    }
}

} // verus!
