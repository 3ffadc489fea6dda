//! Bits of bytes, read most significant first, and the order of bit and byte strings.

use vstd::prelude::*;

verus! {

/// Bit `k` of a byte, counted from the most significant one.
pub open spec fn byte_bit(b: u8, k: int) -> bool {
    (b >> ((7 - k) as u8)) & 1u8 == 1u8
}

/// Bit `i` of a byte string; positions past its end read as `false`.
pub open spec fn bit_of(bytes: Seq<u8>, i: int) -> bool {
    0 <= i && i / 8 < bytes.len() && byte_bit(bytes[i / 8], i % 8)
}

/// The first `n` bits of a byte string.
pub open spec fn bits_of(bytes: Seq<u8>, n: nat) -> Seq<bool> {
    Seq::new(n, |i: int| bit_of(bytes, i))
}

/// Bit `i` of a bit string; positions past its end read as `false`.
pub open spec fn padded(bits: Seq<bool>, i: int) -> bool {
    0 <= i < bits.len() && bits[i]
}

/// The number of bytes that hold `n` bits.
pub open spec fn bytes_for(n: int) -> int {
    (n + 7) / 8
}

/// The byte whose bits are `bits[8i .. 8i + 8)`, padded with zeros.
pub open spec fn pack_byte(bits: Seq<bool>, i: int) -> u8 {
    (if padded(bits, 8 * i) { 128u8 } else { 0u8 })
    | (if padded(bits, 8 * i + 1) { 64u8 } else { 0u8 })
    | (if padded(bits, 8 * i + 2) { 32u8 } else { 0u8 })
    | (if padded(bits, 8 * i + 3) { 16u8 } else { 0u8 })
    | (if padded(bits, 8 * i + 4) { 8u8 } else { 0u8 })
    | (if padded(bits, 8 * i + 5) { 4u8 } else { 0u8 })
    | (if padded(bits, 8 * i + 6) { 2u8 } else { 0u8 })
    | (if padded(bits, 8 * i + 7) { 1u8 } else { 0u8 })
}

/// A bit string packed into bytes, most significant bit first, padded with zeros.
pub open spec fn pack(bits: Seq<bool>) -> Seq<u8> {
    Seq::new(bytes_for(bits.len() as int) as nat, |i: int| pack_byte(bits, i))
}

/// `a` comes before `b` in the dictionary order of byte strings.
pub open spec fn key_lt(a: Seq<u8>, b: Seq<u8>) -> bool
    decreases a.len(),
{
    if b.len() == 0 {
        false
    } else if a.len() == 0 {
        true
    } else if a[0] != b[0] {
        a[0] < b[0]
    } else {
        key_lt(a.skip(1), b.skip(1))
    }
}

/// `a` comes before `b` in the dictionary order of bit strings.
pub open spec fn route_lt(a: Seq<bool>, b: Seq<bool>) -> bool
    decreases a.len(),
{
    if b.len() == 0 {
        false
    } else if a.len() == 0 {
        true
    } else if a[0] != b[0] {
        b[0]
    } else {
        route_lt(a.skip(1), b.skip(1))
    }
}

/// The length of the longest common prefix of two bit strings.
pub open spec fn lcp(a: Seq<bool>, b: Seq<bool>) -> nat
    decreases a.len(),
{
    if a.len() > 0 && b.len() > 0 && a[0] == b[0] {
        1 + lcp(a.skip(1), b.skip(1))
    } else {
        0
    }
}

/// What [`lcp`] means: the strings agree up to there, and no further.
pub proof fn lemma_lcp(a: Seq<bool>, b: Seq<bool>)
    ensures
        lcp(a, b) <= a.len(),
        lcp(a, b) <= b.len(),
        forall|i: int| 0 <= i < lcp(a, b) ==> a[i] == b[i],
        lcp(a, b) < a.len() && lcp(a, b) < b.len() ==> a[lcp(a, b) as int] != b[lcp(a, b) as int],
    decreases a.len(),
{
    if a.len() > 0 && b.len() > 0 && a[0] == b[0] {
        lemma_lcp(a.skip(1), b.skip(1));
        let n = lcp(a.skip(1), b.skip(1));
        assert forall|i: int| 0 <= i < lcp(a, b) implies a[i] == b[i] by {
            if i > 0 {
                assert(a[i] == a.skip(1)[i - 1] && b[i] == b.skip(1)[i - 1]);
            }
        }
        if n + 1 < a.len() && n + 1 < b.len() {
            assert(a[n as int + 1] == a.skip(1)[n as int] && b[n as int + 1] == b.skip(1)[n as int]);
        }
    }
}

/// A length up to which two strings agree, and no further, is their [`lcp`].
pub proof fn lemma_lcp_is(a: Seq<bool>, b: Seq<bool>, k: nat)
    requires
        k <= a.len(),
        k <= b.len(),
        forall|i: int| 0 <= i < k ==> a[i] == b[i],
        k == a.len() || k == b.len() || a[k as int] != b[k as int],
    ensures
        lcp(a, b) == k,
{
    lemma_lcp(a, b);
    let n = lcp(a, b);
    if n < k {
        assert(a[n as int] == b[n as int]);
    } else if k < n {
        assert(a[k as int] == b[k as int]);
    }
}

/// A byte is determined by its eight bits.
pub proof fn lemma_byte_ext(a: u8, b: u8)
    requires
        forall|k: int| 0 <= k < 8 ==> byte_bit(a, k) == byte_bit(b, k),
    ensures
        a == b,
{
    assert(byte_bit(a, 0) == byte_bit(b, 0));
    assert(byte_bit(a, 1) == byte_bit(b, 1));
    assert(byte_bit(a, 2) == byte_bit(b, 2));
    assert(byte_bit(a, 3) == byte_bit(b, 3));
    assert(byte_bit(a, 4) == byte_bit(b, 4));
    assert(byte_bit(a, 5) == byte_bit(b, 5));
    assert(byte_bit(a, 6) == byte_bit(b, 6));
    assert(byte_bit(a, 7) == byte_bit(b, 7));
    assert(a == b) by (bit_vector)
        requires
            ((a >> 7u8) & 1u8 == 1u8) == ((b >> 7u8) & 1u8 == 1u8),
            ((a >> 6u8) & 1u8 == 1u8) == ((b >> 6u8) & 1u8 == 1u8),
            ((a >> 5u8) & 1u8 == 1u8) == ((b >> 5u8) & 1u8 == 1u8),
            ((a >> 4u8) & 1u8 == 1u8) == ((b >> 4u8) & 1u8 == 1u8),
            ((a >> 3u8) & 1u8 == 1u8) == ((b >> 3u8) & 1u8 == 1u8),
            ((a >> 2u8) & 1u8 == 1u8) == ((b >> 2u8) & 1u8 == 1u8),
            ((a >> 1u8) & 1u8 == 1u8) == ((b >> 1u8) & 1u8 == 1u8),
            ((a >> 0u8) & 1u8 == 1u8) == ((b >> 0u8) & 1u8 == 1u8),
    ;
}

/// The bits of `a << s | c >> (8 - s)`: those of `a` from `s` on, then those of `c`.
pub proof fn lemma_window_bits(a: u8, c: u8, s: u8, k: u8)
    requires
        1 <= s < 8,
        k < 8,
    ensures
        byte_bit((a << s) | (c >> ((8 - s) as u8)), k as int) == (if k + s < 8 {
            byte_bit(a, k + s)
        } else {
            byte_bit(c, k + s - 8)
        }),
{
    let w = (a << s) | (c >> ((8 - s) as u8));
    if k + s < 8 {
        let m = (k + s) as u8;
        assert(((w >> ((7 - k) as u8)) & 1u8 == 1u8) == ((a >> ((7 - m) as u8)) & 1u8 == 1u8)) by (bit_vector)
            requires
                1 <= s < 8,
                k < 8,
                k + s < 8,
                m == (k + s) as u8,
                w == (a << s) | (c >> ((8 - s) as u8)),
        ;
        assert(7 - m == 7 - (k + s));
    } else {
        let m = (k + s - 8) as u8;
        assert(((w >> ((7 - k) as u8)) & 1u8 == 1u8) == ((c >> ((7 - m) as u8)) & 1u8 == 1u8)) by (bit_vector)
            requires
                1 <= s < 8,
                k < 8,
                k + s >= 8,
                m == (k + s - 8) as u8,
                w == (a << s) | (c >> ((8 - s) as u8)),
        ;
        assert(7 - m == 7 - (k + s - 8));
    }
}

/// The bits of `a | c >> s`: those of `a`, with the bits of `c` laid over from `s` on.
pub proof fn lemma_overlay_bits(a: u8, c: u8, s: u8, k: u8)
    requires
        s < 8,
        k < 8,
    ensures
        byte_bit(a | (c >> s), k as int) == (byte_bit(a, k as int) || (k >= s && byte_bit(c, k - s))),
{
    let w = a | (c >> s);
    if k >= s {
        let m = (k - s) as u8;
        assert(((w >> ((7 - k) as u8)) & 1u8 == 1u8) == (((a >> ((7 - k) as u8)) & 1u8 == 1u8) || ((c >> ((7 - m) as u8)) & 1u8 == 1u8))) by (bit_vector)
            requires
                s < 8,
                k < 8,
                k >= s,
                m == (k - s) as u8,
                w == a | (c >> s),
        ;
        assert(7 - m == 7 - (k - s));
    } else {
        assert(((w >> ((7 - k) as u8)) & 1u8 == 1u8) == ((a >> ((7 - k) as u8)) & 1u8 == 1u8)) by (bit_vector)
            requires
                s < 8,
                k < 8,
                k < s,
                w == a | (c >> s),
        ;
    }
}

/// The bits of `a & !(0xff >> u)`: the first `u` bits of `a`, then zeros.
pub proof fn lemma_keep_bits(a: u8, u: u8, k: u8)
    requires
        u < 8,
        k < 8,
    ensures
        byte_bit(a & !(0xffu8 >> u), k as int) == (k < u && byte_bit(a, k as int)),
{
    assert((((a & !(0xffu8 >> u)) >> ((7 - k) as u8)) & 1u8 == 1u8) == (k < u && ((a >> ((7 - k) as u8)) & 1u8 == 1u8))) by (bit_vector)
        requires
            u < 8,
            k < 8,
    ;
}

/// The bits of `a & (0xff >> u)`: zeros, then the bits of `a` from `u` on.
pub proof fn lemma_drop_bits(a: u8, u: u8, k: u8)
    requires
        u < 8,
        k < 8,
    ensures
        byte_bit(a & (0xffu8 >> u), k as int) == (k >= u && byte_bit(a, k as int)),
{
    assert((((a & (0xffu8 >> u)) >> ((7 - k) as u8)) & 1u8 == 1u8) == (k >= u && ((a >> ((7 - k) as u8)) & 1u8 == 1u8))) by (bit_vector)
        requires
            u < 8,
            k < 8,
    ;
}

/// A byte with no bit set is zero, and zero has no bit set.
pub proof fn lemma_zero_byte(k: u8)
    requires
        k < 8,
    ensures
        !byte_bit(0u8, k as int),
{
    assert((0u8 >> ((7 - k) as u8)) & 1u8 == 0u8) by (bit_vector)
        requires
            k < 8,
    ;
}

/// Bit `k` of a packed byte is the bit that was packed there.
pub proof fn lemma_pack_byte(bits: Seq<bool>, i: int, k: int)
    requires
        0 <= k < 8,
        0 <= i,
    ensures
        byte_bit(pack_byte(bits, i), k) == padded(bits, 8 * i + k),
{
    let b0 = padded(bits, 8 * i);
    let b1 = padded(bits, 8 * i + 1);
    let b2 = padded(bits, 8 * i + 2);
    let b3 = padded(bits, 8 * i + 3);
    let b4 = padded(bits, 8 * i + 4);
    let b5 = padded(bits, 8 * i + 5);
    let b6 = padded(bits, 8 * i + 6);
    let b7 = padded(bits, 8 * i + 7);
    let p = pack_byte(bits, i);
    let m: u8 = (7 - k) as u8;
    let want = padded(bits, 8 * i + k);
    assert(((p >> m) & 1u8 == 1u8) == want) by (bit_vector)
        requires
            m <= 7,
            p == (if b0 { 128u8 } else { 0u8 }) | (if b1 { 64u8 } else { 0u8 }) | (if b2 { 32u8 } else { 0u8 })
                | (if b3 { 16u8 } else { 0u8 }) | (if b4 { 8u8 } else { 0u8 }) | (if b5 { 4u8 } else { 0u8 })
                | (if b6 { 2u8 } else { 0u8 }) | (if b7 { 1u8 } else { 0u8 }),
            want == (if m == 7 { b0 } else if m == 6 { b1 } else if m == 5 { b2 } else if m == 4 { b3 } else if m == 3 { b4 } else if m == 2 { b5 } else if m == 1 { b6 } else { b7 }),
    ;
}

/// Two bytes compare as their bits do.
pub proof fn lemma_byte_order(a: u8, b: u8)
    ensures
        a < b <==> (exists|k: int| #![trigger byte_bit(a, k)]
            0 <= k < 8 && !byte_bit(a, k) && byte_bit(b, k) && forall|j: int|
                0 <= j < k ==> byte_bit(a, j) == byte_bit(b, j)),
{
    let a0 = byte_bit(a, 0);
    let a1 = byte_bit(a, 1);
    let a2 = byte_bit(a, 2);
    let a3 = byte_bit(a, 3);
    let a4 = byte_bit(a, 4);
    let a5 = byte_bit(a, 5);
    let a6 = byte_bit(a, 6);
    let a7 = byte_bit(a, 7);
    let b0 = byte_bit(b, 0);
    let b1 = byte_bit(b, 1);
    let b2 = byte_bit(b, 2);
    let b3 = byte_bit(b, 3);
    let b4 = byte_bit(b, 4);
    let b5 = byte_bit(b, 5);
    let b6 = byte_bit(b, 6);
    let b7 = byte_bit(b, 7);
    assert((a < b) == ((!a0 && b0) || (a0 == b0 && ((!a1 && b1) || (a1 == b1 && ((!a2 && b2) || (a2 == b2 && (
    (!a3 && b3) || (a3 == b3 && ((!a4 && b4) || (a4 == b4 && ((!a5 && b5) || (a5 == b5 && ((!a6 && b6) || (a6 == b6 && (!a7
        && b7)))))))))))))))) by (bit_vector)
        requires
            a0 == ((a >> 7u8) & 1u8 == 1u8),
            a1 == ((a >> 6u8) & 1u8 == 1u8),
            a2 == ((a >> 5u8) & 1u8 == 1u8),
            a3 == ((a >> 4u8) & 1u8 == 1u8),
            a4 == ((a >> 3u8) & 1u8 == 1u8),
            a5 == ((a >> 2u8) & 1u8 == 1u8),
            a6 == ((a >> 1u8) & 1u8 == 1u8),
            a7 == ((a >> 0u8) & 1u8 == 1u8),
            b0 == ((b >> 7u8) & 1u8 == 1u8),
            b1 == ((b >> 6u8) & 1u8 == 1u8),
            b2 == ((b >> 5u8) & 1u8 == 1u8),
            b3 == ((b >> 4u8) & 1u8 == 1u8),
            b4 == ((b >> 3u8) & 1u8 == 1u8),
            b5 == ((b >> 2u8) & 1u8 == 1u8),
            b6 == ((b >> 1u8) & 1u8 == 1u8),
            b7 == ((b >> 0u8) & 1u8 == 1u8),
    ;
}

/// Bytes whose unused tail bits are zero are the packed form of their bits.
pub proof fn lemma_pack_unique(bytes: Seq<u8>, n: nat)
    requires
        bytes.len() == bytes_for(n as int),
        forall|i: int| n <= i < 8 * bytes.len() ==> !bit_of(bytes, i),
    ensures
        bytes == pack(bits_of(bytes, n)),
{
    let bits = bits_of(bytes, n);
    assert forall|i: int| 0 <= i < bytes.len() implies bytes[i] == pack(bits)[i] by {
        assert forall|k: int| 0 <= k < 8 implies byte_bit(bytes[i], k) == byte_bit(pack_byte(bits, i), k) by {
            lemma_pack_byte(bits, i, k);
            assert((8 * i + k) / 8 == i && (8 * i + k) % 8 == k);
            assert(bit_of(bytes, 8 * i + k) == byte_bit(bytes[i], k));
        }
        lemma_byte_ext(bytes[i], pack_byte(bits, i));
    }
    assert(bytes =~= pack(bits));
}

/// What [`route_lt`] means: at the first difference `b` has the one bit, or `a` ends.
pub proof fn lemma_route_lt(a: Seq<bool>, b: Seq<bool>)
    ensures
        route_lt(a, b) == (lcp(a, b) < b.len() && (lcp(a, b) == a.len() || b[lcp(a, b) as int])),
    decreases a.len(),
{
    if a.len() > 0 && b.len() > 0 && a[0] == b[0] {
        lemma_route_lt(a.skip(1), b.skip(1));
        let n = lcp(a.skip(1), b.skip(1));
        lemma_lcp(a.skip(1), b.skip(1));
        if n + 1 < b.len() {
            assert(b[n as int + 1] == b.skip(1)[n as int]);
        }
    }
}

/// The bits of a byte string without its first byte.
proof fn lemma_bits_skip_byte(s: Seq<u8>, i: int)
    requires
        s.len() > 0,
        0 <= i,
    ensures
        bit_of(s.skip(1), i) == bit_of(s, i + 8),
{
    assert((i + 8) / 8 == i / 8 + 1);
    assert((i + 8) % 8 == i % 8);
    if i / 8 < s.len() - 1 {
        assert(s.skip(1)[i / 8] == s[i / 8 + 1]);
    }
}

/// The dictionary order of byte strings is that of their bits.
pub proof fn lemma_key_order(a: Seq<u8>, b: Seq<u8>)
    ensures
        key_lt(a, b) == route_lt(bits_of(a, 8 * a.len()), bits_of(b, 8 * b.len())),
    decreases a.len(),
{
    let ra = bits_of(a, 8 * a.len());
    let rb = bits_of(b, 8 * b.len());
    lemma_route_lt(ra, rb);
    lemma_lcp(ra, rb);
    if b.len() == 0 || a.len() == 0 {
    } else if a[0] != b[0] {
        lemma_byte_order(a[0], b[0]);
        lemma_byte_order(b[0], a[0]);
        if a[0] < b[0] {
            let k = choose|k: int| #![trigger byte_bit(a[0], k)]
                0 <= k < 8 && !byte_bit(a[0], k) && byte_bit(b[0], k) && forall|j: int|
                    0 <= j < k ==> byte_bit(a[0], j) == byte_bit(b[0], j);
            assert(byte_bit(a[0], k) != byte_bit(b[0], k));
            assert forall|i: int| 0 <= i < k implies ra[i] == rb[i] by {
                assert(byte_bit(a[0], i) == byte_bit(b[0], i));
            }
            lemma_lcp_is(ra, rb, k as nat);
        } else {
            let k = choose|k: int| #![trigger byte_bit(b[0], k)]
                0 <= k < 8 && !byte_bit(b[0], k) && byte_bit(a[0], k) && forall|j: int|
                    0 <= j < k ==> byte_bit(b[0], j) == byte_bit(a[0], j);
            assert(byte_bit(a[0], k) != byte_bit(b[0], k));
            assert forall|i: int| 0 <= i < k implies ra[i] == rb[i] by {
                assert(byte_bit(b[0], i) == byte_bit(a[0], i));
            }
            lemma_lcp_is(ra, rb, k as nat);
        }
    } else {
        let a1 = a.skip(1);
        let b1 = b.skip(1);
        let ra1 = bits_of(a1, 8 * a1.len());
        let rb1 = bits_of(b1, 8 * b1.len());
        lemma_key_order(a1, b1);
        lemma_route_lt(ra1, rb1);
        lemma_lcp(ra1, rb1);
        let n = lcp(ra1, rb1);
        assert forall|i: int| 0 <= i < n + 8 implies ra[i] == rb[i] by {
            if i < 8 {
                assert(i / 8 == 0 && i % 8 == i);
            } else {
                lemma_bits_skip_byte(a, i - 8);
                lemma_bits_skip_byte(b, i - 8);
                assert(ra1[i - 8] == rb1[i - 8]);
            }
        }
        if n < ra1.len() && n < rb1.len() {
            lemma_bits_skip_byte(a, n as int);
            lemma_bits_skip_byte(b, n as int);
        }
        lemma_lcp_is(ra, rb, n + 8);
        if n < rb1.len() {
            lemma_bits_skip_byte(b, n as int);
            assert(rb[n as int + 8] == rb1[n as int]);
        }
    }
}

/// A byte string is determined by its bits.
pub proof fn lemma_key_ext(a: Seq<u8>, b: Seq<u8>)
    requires
        bits_of(a, 8 * a.len()) == bits_of(b, 8 * b.len()),
    ensures
        a == b,
{
    let ra = bits_of(a, 8 * a.len());
    let rb = bits_of(b, 8 * b.len());
    assert(ra.len() == rb.len());
    assert forall|i: int| 0 <= i < a.len() implies a[i] == b[i] by {
        assert forall|k: int| 0 <= k < 8 implies byte_bit(a[i], k) == byte_bit(b[i], k) by {
            let j = 8 * i + k;
            assert(j / 8 == i && j % 8 == k);
            assert(ra[j] == rb[j]);
        }
        lemma_byte_ext(a[i], b[i]);
    }
    assert(a =~= b);
}

/// `a` comes before `b` in the dictionary order of byte strings.
pub fn key_less(a: &[u8], b: &[u8]) -> (r: bool)
    ensures
        r == key_lt(a@, b@),
{
    let mut i: usize = 0;
    assert(a@.skip(0) =~= a@ && b@.skip(0) =~= b@);
    while i < a.len() && i < b.len() && a[i] == b[i]
        invariant
            i <= a@.len(),
            i <= b@.len(),
            key_lt(a@, b@) == key_lt(a@.skip(i as int), b@.skip(i as int)),
        decreases a@.len() - i,
    {
        proof {
            assert(a@.skip(i as int).skip(1) =~= a@.skip(i + 1));
            assert(b@.skip(i as int).skip(1) =~= b@.skip(i + 1));
        }
        i = i + 1;
    }
    if i >= b.len() {
        return false;
    }
    if i >= a.len() {
        return true;
    }
    a[i] < b[i]
}

/// Whether two byte strings are the same.
pub fn key_same(a: &[u8], b: &[u8]) -> (r: bool)
    ensures
        r == (a@ == b@),
{
    if a.len() != b.len() {
        return false;
    }
    let mut i: usize = 0;
    while i < a.len()
        invariant
            i <= a@.len(),
            a@.len() == b@.len(),
            forall|j: int| 0 <= j < i ==> a@[j] == b@[j],
        decreases a@.len() - i,
    {
        if a[i] != b[i] {
            return false;
        }
        i = i + 1;
    }
    assert(a@ =~= b@);
    true
}

/// Whether `key` begins with `prefix`.
pub fn key_has_prefix(key: &[u8], prefix: &[u8]) -> (r: bool)
    ensures
        r == prefix@.is_prefix_of(key@),
{
    if key.len() < prefix.len() {
        return false;
    }
    let mut i: usize = 0;
    while i < prefix.len()
        invariant
            i <= prefix@.len() <= key@.len(),
            forall|j: int| 0 <= j < i ==> prefix@[j] == key@[j],
        decreases prefix@.len() - i,
    {
        if key[i] != prefix[i] {
            return false;
        }
        i = i + 1;
    }
    assert(prefix@ =~= key@.subrange(0, prefix@.len() as int));
    true
}

/// A copy of a byte string.
pub fn key_copy(key: &[u8]) -> (r: Vec<u8>)
    ensures
        r@ == key@,
{
    let mut r: Vec<u8> = Vec::new();
    let mut i: usize = 0;
    while i < key.len()
        invariant
            i <= key@.len(),
            r@ == key@.take(i as int),
        decreases key@.len() - i,
    {
        r.push(key[i]);
        proof {
            assert(key@.take(i + 1) =~= key@.take(i as int).push(key@[i as int]));
        }
        i = i + 1;
    }
    assert(key@.take(key@.len() as int) =~= key@);
    r
}

} // verus!
