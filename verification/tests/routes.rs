//! Routes of bits, and the hashes over them.

use merk::hash::NodeHash;
use merk::mrt::node::{compute_branch_hash, compute_leaf_hash};
use merk::mrt::route::{
    key_from_route_bits, route_bit_at, route_bits_of, route_len, MatchResult, RouteBits, RoutePrefix,
};
use rand::rngs::SmallRng;
use rand::{Rng, RngCore, SeedableRng};
use sha2::{Digest, Sha256};

fn sha256_ref(preimage: &[u8]) -> NodeHash {
    let mut h = Sha256::new();
    h.update(preimage);
    h.finalize().into()
}

fn leaf_hash_v2_ref(skip: &RouteBits, value: &[u8]) -> NodeHash {
    let mut preimage = Vec::new();
    preimage.extend_from_slice(&(skip.bit_len() as u32).to_be_bytes());
    preimage.extend_from_slice(skip.packed_bytes());
    preimage.extend_from_slice(value);
    preimage.push(0x01);
    sha256_ref(&preimage)
}

fn branch_hash_v2_ref(
    left_hash: NodeHash,
    right_hash: NodeHash,
    left_depth: u16,
    right_depth: u16,
    skip: &RouteBits,
) -> NodeHash {
    let mut preimage = Vec::new();
    preimage.extend_from_slice(&left_hash);
    preimage.extend_from_slice(&right_hash);
    preimage.extend_from_slice(&(left_depth as u32).to_be_bytes());
    preimage.extend_from_slice(&(right_depth as u32).to_be_bytes());
    preimage.extend_from_slice(&(skip.bit_len() as u32).to_be_bytes());
    preimage.extend_from_slice(skip.packed_bytes());
    preimage.push(0x00);
    sha256_ref(&preimage)
}

#[test]
fn hash_vectors_v2_leaf_matches_reference() {
    for (skip, value) in [
        (RouteBits::empty(), b"".as_slice()),
        (
            RouteBits::from_key_range(b"leaf-key", 0, 37),
            b"known-value",
        ),
        (
            RouteBits::from_key_range(b"\x00\xff\x10", 3, 24),
            b"value with length not framed in the hash",
        ),
        (
            RouteBits::from_key_range(b"byte-boundary", 0, 16),
            b"exact multiple of eight skip bits",
        ),
    ] {
        assert_eq!(
            compute_leaf_hash(&skip, value),
            leaf_hash_v2_ref(&skip, value)
        );
    }
}

#[test]
fn hash_vectors_v2_branch_matches_reference() {
    for (skip, left_hash, right_hash, left_depth, right_depth) in [
        (RouteBits::empty(), [0x11; 32], [0x22; 32], 0u16, 0u16),
        (
            RouteBits::from_key_range(b"branch-key", 0, 37),
            [0x33; 32],
            [0x44; 32],
            1,
            65535,
        ),
        (
            RouteBits::from_key_range(b"\x80\x00\x7f", 5, 20),
            [0xa5; 32],
            [0x5a; 32],
            12345,
            256,
        ),
        (
            RouteBits::from_key_range(b"byte-boundary", 0, 16),
            [0xc3; 32],
            [0x3c; 32],
            8,
            32768,
        ),
    ] {
        assert_eq!(
            compute_branch_hash(&left_hash, &right_hash, left_depth, right_depth, &skip),
            branch_hash_v2_ref(left_hash, right_hash, left_depth, right_depth, &skip)
        );
    }
}

fn sha256_padded_buf(buf: &[u8], data_len: usize) -> NodeHash {
    let padded = (data_len + 9).div_ceil(64) * 64;
    assert!(buf.len() >= padded);
    assert_eq!(buf[data_len], 0x80);
    for (i, &b) in buf[data_len + 1..padded - 8].iter().enumerate() {
        assert_eq!(b, 0, "non-zero padding at byte {}", data_len + 1 + i);
    }
    let expected_bits = (data_len as u64 * 8).to_be_bytes();
    assert_eq!(&buf[padded - 8..padded], &expected_bits);
    sha256_ref(&buf[..data_len])
}

fn leaf_hash_v2_zkvm_sim(skip: &RouteBits, value: &[u8]) -> NodeHash {
    let bit_len_be = (skip.bit_len() as u32).to_be_bytes();
    let packed = skip.packed_bytes();
    let value_start = 4 + packed.len();
    let tag_pos = value_start + value.len();
    let data_len = tag_pos + 1;
    if data_len <= 119 {
        let padded = (data_len + 9).div_ceil(64) * 64;
        let mut buf = [0xFFu8; 128];
        buf[..4].copy_from_slice(&bit_len_be);
        buf[4..value_start].copy_from_slice(packed);
        buf[value_start..tag_pos].copy_from_slice(value);
        buf[tag_pos] = 0x01;
        buf[data_len] = 0x80;
        buf[data_len + 1..padded - 8].fill(0);
        buf[padded - 8..padded].copy_from_slice(&((data_len as u64 * 8).to_be_bytes()));
        sha256_padded_buf(&buf, data_len)
    } else {
        let mut tmp = vec![0u8; data_len];
        tmp[..4].copy_from_slice(&bit_len_be);
        tmp[4..value_start].copy_from_slice(packed);
        tmp[value_start..tag_pos].copy_from_slice(value);
        tmp[tag_pos] = 0x01;
        sha256_ref(&tmp)
    }
}

fn branch_hash_v2_zkvm_sim(
    left_hash: NodeHash,
    right_hash: NodeHash,
    left_depth: u16,
    right_depth: u16,
    skip: &RouteBits,
) -> NodeHash {
    let left_depth_be = (left_depth as u32).to_be_bytes();
    let right_depth_be = (right_depth as u32).to_be_bytes();
    let bit_len_be = (skip.bit_len() as u32).to_be_bytes();
    let packed = skip.packed_bytes();
    let skip_start = 76;
    let tag_pos = skip_start + packed.len();
    let data_len = tag_pos + 1;
    if data_len <= 119 {
        let padded = (data_len + 9).div_ceil(64) * 64;
        let mut buf = [0xFFu8; 128];
        buf[..32].copy_from_slice(&left_hash);
        buf[32..64].copy_from_slice(&right_hash);
        buf[64..68].copy_from_slice(&left_depth_be);
        buf[68..72].copy_from_slice(&right_depth_be);
        buf[72..skip_start].copy_from_slice(&bit_len_be);
        buf[skip_start..tag_pos].copy_from_slice(packed);
        buf[tag_pos] = 0x00;
        buf[data_len] = 0x80;
        buf[data_len + 1..padded - 8].fill(0);
        buf[padded - 8..padded].copy_from_slice(&((data_len as u64 * 8).to_be_bytes()));
        sha256_padded_buf(&buf, data_len)
    } else {
        let mut tmp = vec![0u8; data_len];
        tmp[..32].copy_from_slice(&left_hash);
        tmp[32..64].copy_from_slice(&right_hash);
        tmp[64..68].copy_from_slice(&left_depth_be);
        tmp[68..72].copy_from_slice(&right_depth_be);
        tmp[72..skip_start].copy_from_slice(&bit_len_be);
        tmp[skip_start..tag_pos].copy_from_slice(packed);
        tmp[tag_pos] = 0x00;
        sha256_ref(&tmp)
    }
}

#[test]
fn zkvm_leaf_hash_assembly_sweep() {
    let key = vec![0x5au8; 256];
    for &bits in &[0u16, 1, 7, 8, 9, 15, 33, 100, 289, 512] {
        let skip = RouteBits::from_key_range(&key, 0, bits);
        for &val_size in &[0usize, 1, 50, 113, 114, 115, 200] {
            let value = vec![(val_size & 0xFF) as u8; val_size];
            assert_eq!(
                leaf_hash_v2_zkvm_sim(&skip, &value),
                leaf_hash_v2_ref(&skip, &value),
                "leaf zkvm assembly mismatch at bits={}, val_size={}",
                bits,
                val_size
            );
        }
    }
}

#[test]
fn zkvm_branch_hash_assembly_sweep() {
    let key = vec![0xa5u8; 256];
    for &bits in &[0u16, 1, 8, 9, 100, 328, 336, 337, 344, 512] {
        let skip = RouteBits::from_key_range(&key, 0, bits);
        let left = [(bits & 0xFF) as u8; 32];
        let right = [((bits >> 1) & 0xFF) as u8; 32];
        let left_depth = bits.wrapping_mul(3);
        let right_depth = 65535u16.wrapping_sub(bits);
        assert_eq!(
            branch_hash_v2_zkvm_sim(left, right, left_depth, right_depth, &skip),
            branch_hash_v2_ref(left, right, left_depth, right_depth, &skip),
            "branch zkvm assembly mismatch at bits={}",
            bits
        );
    }
}

#[test]
fn branch_preimage_path_matches_compute_branch_hash() {
    let key = vec![0xa5u8; 256];
    for &bits in &[0u16, 1, 8, 9, 100, 392, 393, 400, 401, 512, 1024] {
        let skip = RouteBits::from_key_range(&key, 0, bits);
        let left = [(bits & 0xFF) as u8; 32];
        let right = [((bits >> 1) & 0xFF) as u8; 32];
        let left_depth = bits.wrapping_mul(3);
        let right_depth = 65535u16.wrapping_sub(bits);

        let mut pre = vec![0u8; 76 + skip.packed_bytes().len() + 1];
        pre[72..76].copy_from_slice(&(skip.bit_len() as u32).to_be_bytes());
        let tag = pre.len() - 1;
        pre[76..tag].copy_from_slice(skip.packed_bytes());
        pre[..32].copy_from_slice(&left);
        pre[32..64].copy_from_slice(&right);
        pre[64..68].copy_from_slice(&(left_depth as u32).to_be_bytes());
        pre[68..72].copy_from_slice(&(right_depth as u32).to_be_bytes());

        assert_eq!(
            sha256_ref(&pre),
            compute_branch_hash(&left, &right, left_depth, right_depth, &skip),
            "preimage path mismatch at bits={bits}"
        );
    }
}

fn random_key<R: RngCore>(rng: &mut R) -> Vec<u8> {
    let len = rng.gen_range(0..=18);
    let mut key = vec![0u8; len];
    rng.fill_bytes(&mut key);
    key
}

#[test]
fn route_bits_of_has_canonical_length_and_inverts() {
    for key in [
        b"".as_slice(),
        b"a",
        b"ab",
        b"\x00",
        b"\x00\x00",
        b"\xff",
        b"\xff\x00\xff",
        b"key",
    ] {
        let bits = route_bits_of(key);
        assert_eq!(bits.bit_len(), (8 * key.len()) as u16);
        assert_eq!(key_from_route_bits(bits).unwrap(), key);
    }
}

#[test]
fn route_bits_round_trip_random_keys() {
    let mut rng = SmallRng::seed_from_u64(0x5EED_5EED);
    for _ in 0..5000 {
        let key = random_key(&mut rng);
        let bits = route_bits_of(&key);
        assert_eq!(key_from_route_bits(bits).unwrap(), key);
    }
}

#[test]
fn route_bits_distinguishes_prefix_pairs() {
    let a = route_bits_of(b"ab");
    let ab = route_bits_of(b"abc");
    assert_ne!(a, ab);
    assert_eq!(key_from_route_bits(a).unwrap(), b"ab");
    assert_eq!(key_from_route_bits(ab).unwrap(), b"abc");
}

#[test]
fn key_from_route_bits_rejects_non_canonical_length() {
    assert!(key_from_route_bits(RouteBits::from_packed(2, &[0x00]).unwrap()).is_err());
    assert!(key_from_route_bits(RouteBits::from_packed(9, &[0x80, 0x00]).unwrap()).is_err());
}

#[test]
fn key_from_route_bits_rejects_non_byte_aligned_length() {
    let trailing = RouteBits::from_packed(10, &[b'a', 0x00]).unwrap();
    assert_eq!(trailing.bit_len(), 10);
    assert!(key_from_route_bits(trailing).is_err());
}

#[test]
fn route_prefix_reconstructs_absolute_key_single_branch() {
    let full = route_bits_of(b"hi");
    let p = 5u16;
    let branch_skip = full.slice(0, p);
    let side = full.bit_at(p);
    let leaf_skip = full.slice(p + 1, full.bit_len());

    let prefix = RoutePrefix::root().descend(&branch_skip, side).unwrap();
    assert_eq!(prefix.bits().bit_len(), p + 1);
    assert_eq!(prefix.key_with_suffix(&leaf_skip).unwrap(), b"hi");
}

#[test]
fn route_prefix_reconstructs_absolute_key_multi_branch() {
    let full = route_bits_of(b"hi");
    let (p1, p2) = (3u16, 10u16);
    let b1 = full.slice(0, p1);
    let s1 = full.bit_at(p1);
    let b2 = full.slice(p1 + 1, p2);
    let s2 = full.bit_at(p2);
    let leaf = full.slice(p2 + 1, full.bit_len());

    let key = RoutePrefix::root()
        .descend(&b1, s1)
        .unwrap()
        .descend(&b2, s2)
        .unwrap()
        .key_with_suffix(&leaf)
        .unwrap();
    assert_eq!(key, b"hi");
}

#[test]
fn route_prefix_leaf_at_root() {
    let key = RoutePrefix::root()
        .key_with_suffix(&route_bits_of(b"x"))
        .unwrap();
    assert_eq!(key, b"x");
}

fn packed_len(bit_len: u16) -> usize {
    (bit_len as usize).div_ceil(8)
}

fn set_packed_bit(bytes: &mut [u8], offset: u16, bit: bool) {
    if bit {
        bytes[(offset / 8) as usize] |= 0x80 >> (offset % 8);
    }
}

fn from_key_range_ref(key: &[u8], start: u16, end: u16) -> RouteBits {
    let bit_len = end - start;
    let mut bytes = vec![0u8; packed_len(bit_len)];
    for offset in 0..bit_len {
        if route_bit_at(key, start + offset) {
            set_packed_bit(&mut bytes, offset, true);
        }
    }
    RouteBits::from_packed(bit_len, &bytes).unwrap()
}

fn matches_key_at_ref(skip: &RouteBits, key: &[u8], depth: u16) -> MatchResult {
    for offset in 0..skip.bit_len() {
        let Some(position) = depth.checked_add(offset) else {
            return MatchResult::Mismatch { offset };
        };
        if skip.bit_at(offset) != route_bit_at(key, position) {
            return MatchResult::Mismatch { offset };
        }
    }
    MatchResult::FullMatch
}

#[test]
fn from_key_range_per_symbol_matches_per_bit_reference() {
    let key: Vec<u8> = (0..20u8).collect();
    let total = route_len(&key);
    for start in 0..=total {
        for end in start..=total {
            assert_eq!(
                RouteBits::from_key_range(&key, start, end),
                from_key_range_ref(&key, start, end),
                "from_key_range start={start} end={end}"
            );
        }
    }
    let mut rng = SmallRng::seed_from_u64(0xF00D_CAFE);
    for _ in 0..3000 {
        let key = random_key(&mut rng);
        let total = route_len(&key);
        let start = rng.gen_range(0..=total);
        let end = rng.gen_range(start..=total);
        assert_eq!(
            RouteBits::from_key_range(&key, start, end),
            from_key_range_ref(&key, start, end),
            "from_key_range key={key:?} start={start} end={end}"
        );
    }
}

#[test]
fn matches_key_at_per_symbol_matches_per_bit_reference() {
    let mut rng = SmallRng::seed_from_u64(0xBEEF_F00D);
    for _ in 0..20000 {
        let src = random_key(&mut rng);
        let src_total = route_len(&src);
        let start = rng.gen_range(0..=src_total);
        let end = rng.gen_range(start..=src_total);
        let skip = from_key_range_ref(&src, start, end);
        let query = if rng.gen_bool(0.5) {
            src.clone()
        } else {
            random_key(&mut rng)
        };
        let depth = if rng.gen_bool(0.7) {
            start
        } else {
            rng.gen_range(0..=src_total)
        };
        assert_eq!(
            skip.matches_key_at(&query, depth),
            matches_key_at_ref(&skip, &query, depth),
            "matches src={src:?} start={start} end={end} query={query:?} depth={depth}"
        );
    }
}

#[test]
fn matches_key_at_overflow_guard_matches_reference() {
    let zero = RouteBits::from_packed(10_000, &vec![0u8; packed_len(10_000)]).unwrap();
    let src = vec![0x9Cu8; 1000];
    let keyed = from_key_range_ref(&src, 0, route_len(&src));
    let query = vec![0x9Cu8; 1000];
    for skip in [&zero, &keyed] {
        for depth in [
            u16::MAX,
            u16::MAX - 1,
            u16::MAX - 7,
            u16::MAX - 8,
            65000,
            60000,
            56536,
            56535,
        ] {
            assert_eq!(
                skip.matches_key_at(&query, depth),
                matches_key_at_ref(skip, &query, depth),
                "overflow skip_len={} depth={depth}",
                skip.bit_len()
            );
        }
    }
}

fn slice_ref(src: &RouteBits, start: u16, end: u16) -> RouteBits {
    let bit_len = end - start;
    let mut bytes = vec![0u8; packed_len(bit_len)];
    for offset in 0..bit_len {
        if src.bit_at(start + offset) {
            set_packed_bit(&mut bytes, offset, true);
        }
    }
    RouteBits::from_packed(bit_len, &bytes).unwrap()
}

#[test]
fn slice_chunked_matches_per_bit_reference() {
    let key: Vec<u8> = (0..24u8).collect();
    let src = RouteBits::from_key_range(&key, 0, route_len(&key));
    let total = src.bit_len();
    for start in 0..=total {
        for end in start..=total {
            assert_eq!(
                src.slice(start, end),
                slice_ref(&src, start, end),
                "slice start={start} end={end}"
            );
        }
    }
    let mut rng = SmallRng::seed_from_u64(0x5111_CE5E);
    for _ in 0..3000 {
        let key = random_key(&mut rng);
        let src = RouteBits::from_key_range(&key, 0, route_len(&key));
        let total = src.bit_len();
        let start = rng.gen_range(0..=total);
        let end = rng.gen_range(start..=total);
        assert_eq!(
            src.slice(start, end),
            slice_ref(&src, start, end),
            "slice key={key:?} start={start} end={end}"
        );
    }
}

fn blit_bits_ref(dst: &mut [u8], dst_off: u16, src: &RouteBits) {
    for offset in 0..src.bit_len() {
        if src.bit_at(offset) {
            set_packed_bit(dst, dst_off + offset, true);
        }
    }
}

fn blit_case(dst_off: u16, src: &RouteBits) -> (Vec<u8>, Vec<u8>) {
    let len = packed_len(dst_off + src.bit_len());
    let mut prefilled = vec![0u8; len];
    for o in 0..dst_off {
        set_packed_bit(&mut prefilled, o, true);
    }
    let ones = RouteBits::from_packed(dst_off, &prefilled[..packed_len(dst_off)]).unwrap();
    let a = ones.concat(src).unwrap().packed_bytes().to_vec();
    let mut b = prefilled;
    blit_bits_ref(&mut b, dst_off, src);
    (a, b)
}

#[test]
fn blit_bits_chunked_matches_per_bit_reference() {
    let key: Vec<u8> = (0..24u8).collect();
    let full = RouteBits::from_key_range(&key, 0, route_len(&key));
    for dst_off in 0u16..24 {
        for src_bits in 0u16..=full.bit_len() {
            let src = full.slice(0, src_bits);
            let (a, b) = blit_case(dst_off, &src);
            assert_eq!(a, b, "blit_bits dst_off={dst_off} src_bits={src_bits}");
        }
    }
    let mut rng = SmallRng::seed_from_u64(0xB117_5EED);
    for _ in 0..5000 {
        let key = random_key(&mut rng);
        let route = RouteBits::from_key_range(&key, 0, route_len(&key));
        let src_bits = rng.gen_range(0..=route.bit_len());
        let src = route.slice(0, src_bits);
        let dst_off = rng.gen_range(0u16..24);
        let (a, b) = blit_case(dst_off, &src);
        assert_eq!(
            a, b,
            "blit_bits key={key:?} dst_off={dst_off} src_bits={src_bits}"
        );
    }
}

#[test]
fn split_at_into_matches_split_at() {
    let mut rng = SmallRng::seed_from_u64(0x5917_A7A7);
    for _ in 0..5000 {
        let key = random_key(&mut rng);
        let src = RouteBits::from_key_range(&key, 0, route_len(&key));
        let total = src.bit_len();
        if total == 0 {
            continue;
        }
        let off = rng.gen_range(0..total);
        let (p_ref, b_ref, s_ref) = src.split_at(off);
        let (p_into, b_into, s_into) = src.clone().split_at_into(off);
        assert_eq!(p_ref, p_into, "prefix key={key:?} off={off}");
        assert_eq!(b_ref, b_into, "bit key={key:?} off={off}");
        assert_eq!(s_ref, s_into, "suffix key={key:?} off={off}");
    }
}

#[test]
fn into_suffix_matches_slice() {
    let mut rng = SmallRng::seed_from_u64(0x050F_F5E7);
    for _ in 0..6000 {
        let key = random_key(&mut rng);
        let src = RouteBits::from_key_range(&key, 0, route_len(&key));
        let total = src.bit_len();
        let start = rng.gen_range(0..=total);
        assert_eq!(
            src.slice(start, total),
            src.clone().into_suffix(start),
            "key={key:?} start={start}"
        );
    }
}
