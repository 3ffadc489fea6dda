//! Batches to try a store with.

use rand::rngs::SmallRng;
use rand::{Rng, SeedableRng};
use std::ops::Range;
use vstd::prelude::*;
use vstd::relations::sorted_by;
use vstd::seq_lib::{lemma_sorted_unique, to_multiset_build, to_multiset_insert, to_multiset_len};

use crate::bits::key_lt;
use crate::mrt::order::lemma_key_lt_total;
use crate::ops::{batch_changes, entry_change, BatchEntry, Change, Op};

verus! {

/// The eight bytes of a number, most significant first.
pub open spec fn be64(n: u64) -> Seq<u8> {
    seq![
        (n / 72057594037927936) as u8,
        (n / 281474976710656 % 256) as u8,
        (n / 1099511627776 % 256) as u8,
        (n / 4294967296 % 256) as u8,
        (n / 16777216 % 256) as u8,
        (n / 65536 % 256) as u8,
        (n / 256 % 256) as u8,
        (n % 256) as u8,
    ]
}

/// The value that every write of these batches stores.
pub open spec fn filler() -> Seq<u8> {
    Seq::new(60, |i: int| 123u8)
}

/// The write of a number.
pub open spec fn put_change(n: u64) -> Change {
    Change::Put { key: be64(n), value: filler() }
}

/// The removal of a number.
pub open spec fn del_change(n: u64) -> Change {
    Change::Delete { key: be64(n) }
}

/// The writes of numbers.
pub open spec fn put_changes(ns: Seq<u64>) -> Seq<Change> {
    ns.map_values(|n: u64| put_change(n))
}

/// The removals of numbers.
pub open spec fn del_changes(ns: Seq<u64>) -> Seq<Change> {
    ns.map_values(|n: u64| del_change(n))
}

/// The numbers from `start` up to but not including `end`.
pub open spec fn counted(start: u64, end: u64) -> Seq<u64> {
    Seq::new((end - start) as nat, |i: int| (start + i) as u64)
}

/// The numbers of a range are those from its start up to but not including its end,
/// each once and in order.
pub proof fn law_counted_has_its_numbers(start: u64, end: u64)
    requires
        start <= end,
    ensures
        forall|n: u64| #[trigger] counted(start, end).contains(n) <==> start <= n < end,
        forall|i: int, j: int| 0 <= i < j < counted(start, end).len() ==> counted(start, end)[i] < counted(start, end)[j],
{
    let s = counted(start, end);
    assert forall|n: u64| start <= n < end implies #[trigger] s.contains(n) by {
        assert(s[n - start] == n);
    }
}

/// The writes and the removals of numbers that are put together are those of the first
/// list and then those of the second.
pub proof fn law_numbers_in_parts(a: Seq<u64>, b: Seq<u64>)
    ensures
        put_changes(a + b) == put_changes(a) + put_changes(b),
        a.len() == 1 ==> put_changes(a) == seq![put_change(a[0])],
        del_changes(a + b) == del_changes(a) + del_changes(b),
        a.len() == 1 ==> del_changes(a) == seq![del_change(a[0])],
{
    assert(put_changes(a + b) =~= put_changes(a) + put_changes(b));
    assert(del_changes(a + b) =~= del_changes(a) + del_changes(b));
    assert(a.len() == 1 ==> put_changes(a) =~= seq![put_change(a[0])]);
    assert(a.len() == 1 ==> del_changes(a) =~= seq![del_change(a[0])]);
}

/// Whether numbers never fall.
pub open spec fn rising(ns: Seq<u64>) -> bool {
    forall|i: int, j: int| 0 <= i <= j < ns.len() ==> ns[i] <= ns[j]
}

/// Whether a batch is sorted by its keys, which may repeat.
pub open spec fn sorted(batch: Seq<BatchEntry>) -> bool {
    forall|i: int, j: int|
        #![trigger batch[i], batch[j]]
        0 <= i <= j < batch.len() ==> !key_lt(batch[j].0@, batch[i].0@)
}

/// The key of a number.
pub fn seq_key(n: u64) -> (r: Vec<u8>)
    ensures
        r@ == be64(n),
{
    vec![
        (n / 72057594037927936) as u8,
        (n / 281474976710656 % 256) as u8,
        (n / 1099511627776 % 256) as u8,
        (n / 4294967296 % 256) as u8,
        (n / 16777216 % 256) as u8,
        (n / 65536 % 256) as u8,
        (n / 256 % 256) as u8,
        (n % 256) as u8,
    ]
}

/// The value that every write of these batches stores.
pub fn put_entry_value() -> (r: Vec<u8>)
    ensures
        r@ == filler(),
{
    let mut out: Vec<u8> = Vec::with_capacity(60);
    while out.len() < 60
        invariant
            out.len() <= 60,
            forall|i: int| 0 <= i < out.len() ==> out@[i] == 123,
        decreases 60 - out.len(),
    {
        out.push(123);
    }
    out
}

/// The entry that writes a number.
pub fn put_entry(n: u64) -> (r: BatchEntry)
    ensures
        entry_change(r) == put_change(n),
{
    (seq_key(n), Op::Put(put_entry_value()))
}

/// The entry that removes a number.
pub fn del_entry(n: u64) -> (r: BatchEntry)
    ensures
        entry_change(r) == del_change(n),
{
    (seq_key(n), Op::Delete)
}

/// The entries that write the numbers, in the order given.
fn puts(ns: &Vec<u64>) -> (r: Vec<BatchEntry>)
    ensures
        batch_changes(r@) == put_changes(ns@),
{
    let mut out: Vec<BatchEntry> = Vec::with_capacity(ns.len());
    let mut i: usize = 0;
    while i < ns.len()
        invariant
            i <= ns.len(),
            out.len() == i,
            forall|j: int| 0 <= j < i ==> entry_change(#[trigger] out@[j]) == put_change(ns@[j]),
        decreases ns.len() - i,
    {
        out.push(put_entry(ns[i]));
        i = i + 1;
    }
    assert(batch_changes(out@) =~= put_changes(ns@));
    out
}

/// The entries that remove the numbers, in the order given.
fn dels(ns: &Vec<u64>) -> (r: Vec<BatchEntry>)
    ensures
        batch_changes(r@) == del_changes(ns@),
{
    let mut out: Vec<BatchEntry> = Vec::with_capacity(ns.len());
    let mut i: usize = 0;
    while i < ns.len()
        invariant
            i <= ns.len(),
            out.len() == i,
            forall|j: int| 0 <= j < i ==> entry_change(#[trigger] out@[j]) == del_change(ns@[j]),
        decreases ns.len() - i,
    {
        out.push(del_entry(ns[i]));
        i = i + 1;
    }
    assert(batch_changes(out@) =~= del_changes(ns@));
    out
}

/// The numbers of a range, in order.
fn count(range: Range<u64>) -> (r: Vec<u64>)
    requires
        range.start <= range.end,
        range.end - range.start <= usize::MAX,
    ensures
        r@ == counted(range.start, range.end),
{
    let mut out: Vec<u64> = Vec::with_capacity((range.end - range.start) as usize);
    let mut n: u64 = range.start;
    while n < range.end
        invariant
            range.start <= n <= range.end,
            out@ == counted(range.start, n),
        decreases range.end - n,
    {
        out.push(n);
        n = n + 1;
        assert(out@ =~= counted(range.start, n));
    }
    out
}

/// The batch that writes the numbers of a range.
pub fn make_batch_seq(range: Range<u64>) -> (r: Vec<BatchEntry>)
    requires
        range.start <= range.end,
        range.end - range.start <= usize::MAX,
    ensures
        batch_changes(r@) == put_changes(counted(range.start, range.end)),
{
    puts(&count(range))
}

/// The batch that removes the numbers of a range.
pub fn make_del_batch_seq(range: Range<u64>) -> (r: Vec<BatchEntry>)
    requires
        range.start <= range.end,
        range.end - range.start <= usize::MAX,
    ensures
        batch_changes(r@) == del_changes(counted(range.start, range.end)),
{
    dels(&count(range))
}

/// Whether `a` may stand before `b`.
pub open spec fn at_most() -> spec_fn(u64, u64) -> bool {
    |a: u64, b: u64| a <= b
}

/// The numbers, smallest first.
pub open spec fn in_order(ns: Seq<u64>) -> Seq<u64> {
    ns.sort_by(at_most())
}

/// Numbers in order never fall, and are the same numbers.
pub proof fn law_in_order(ns: Seq<u64>)
    ensures
        rising(in_order(ns)),
        in_order(ns).to_multiset() == ns.to_multiset(),
{
    ns.lemma_sort_by_ensures(at_most());
    let s = in_order(ns);
    assert forall|i: int, j: int| 0 <= i <= j < s.len() implies s[i] <= s[j] by {
        if i < j {
            assert(at_most()(s[i], s[j]));
        }
    }
}

/// Only one list of the numbers never falls.
proof fn lemma_in_order(ns: Seq<u64>, s: Seq<u64>)
    requires
        rising(s),
        s.to_multiset() == ns.to_multiset(),
    ensures
        s == in_order(ns),
{
    ns.lemma_sort_by_ensures(at_most());
    assert(sorted_by(s, at_most()));
    lemma_sorted_unique(s, in_order(ns), at_most());
}

/// Two byte strings are ordered by the first byte in which they differ.
proof fn lemma_first_difference(a: Seq<u8>, b: Seq<u8>, k: int)
    requires
        0 <= k < a.len(),
        k < b.len(),
        forall|i: int| 0 <= i < k ==> a[i] == b[i],
        a[k] < b[k],
    ensures
        key_lt(a, b),
    decreases k,
{
    if k > 0 {
        assert(a[0] == b[0]);
        assert forall|i: int| 0 <= i < k - 1 implies a.skip(1)[i] == b.skip(1)[i] by {
            assert(a[i + 1] == b[i + 1]);
        }
        lemma_first_difference(a.skip(1), b.skip(1), k - 1);
    }
}

/// The keys of numbers are ordered as the numbers are.
pub proof fn law_keys_follow_numbers(a: u64, b: u64)
    ensures
        key_lt(be64(a), be64(b)) <==> a < b,
{
    if a < b {
        lemma_keys_rise(a, b);
    } else {
        if b < a {
            lemma_keys_rise(b, a);
        }
        lemma_key_lt_total(be64(a), be64(b));
    }
}

/// Two numbers that differ only in their last byte are ordered by it.
proof fn lemma_digit(a: int, b: int, above_a: int, above_b: int)
    requires
        above_a == a / 256,
        above_b == b / 256,
        above_a == above_b,
        a < b,
    ensures
        a % 256 < b % 256,
{
}

/// The key of a smaller number comes first.
#[verifier::spinoff_prover]
#[verifier::rlimit(40)]
proof fn lemma_keys_rise(a: u64, b: u64)
    requires
        a < b,
    ensures
        key_lt(be64(a), be64(b)),
{
    let x = be64(a);
    let y = be64(b);
    let a0: int = a as int / 72057594037927936;
    let a1: int = a as int / 281474976710656;
    let a2: int = a as int / 1099511627776;
    let a3: int = a as int / 4294967296;
    let a4: int = a as int / 16777216;
    let a5: int = a as int / 65536;
    let a6: int = a as int / 256;
    let a7: int = a as int;
    let b0: int = b as int / 72057594037927936;
    let b1: int = b as int / 281474976710656;
    let b2: int = b as int / 1099511627776;
    let b3: int = b as int / 4294967296;
    let b4: int = b as int / 16777216;
    let b5: int = b as int / 65536;
    let b6: int = b as int / 256;
    let b7: int = b as int;
    assert(a0 == a1 / 256);
    assert(a1 == a2 / 256);
    assert(a2 == a3 / 256);
    assert(a3 == a4 / 256);
    assert(a4 == a5 / 256);
    assert(a5 == a6 / 256);
    assert(a6 == a7 / 256);
    assert(b0 == b1 / 256);
    assert(b1 == b2 / 256);
    assert(b2 == b3 / 256);
    assert(b3 == b4 / 256);
    assert(b4 == b5 / 256);
    assert(b5 == b6 / 256);
    assert(b6 == b7 / 256);
    if a0 != b0 {
        lemma_first_difference(x, y, 0);
    } else if a1 != b1 {
        lemma_digit(a1, b1, a0, b0);
        lemma_first_difference(x, y, 1);
    } else if a2 != b2 {
        lemma_digit(a2, b2, a1, b1);
        lemma_first_difference(x, y, 2);
    } else if a3 != b3 {
        lemma_digit(a3, b3, a2, b2);
        lemma_first_difference(x, y, 3);
    } else if a4 != b4 {
        lemma_digit(a4, b4, a3, b3);
        lemma_first_difference(x, y, 4);
    } else if a5 != b5 {
        lemma_digit(a5, b5, a4, b4);
        lemma_first_difference(x, y, 5);
    } else if a6 != b6 {
        lemma_digit(a6, b6, a5, b5);
        lemma_first_difference(x, y, 6);
    } else {
        lemma_digit(a7, b7, a6, b6);
        lemma_first_difference(x, y, 7);
    }
}

/// Entries made of numbers that never fall are sorted.
proof fn lemma_sorted(batch: Seq<BatchEntry>, ns: Seq<u64>)
    requires
        rising(ns),
        batch.len() == ns.len(),
        forall|i: int| 0 <= i < ns.len() ==> (#[trigger] batch[i]).0@ == be64(ns[i]),
    ensures
        sorted(batch),
{
    assert forall|i: int, j: int|
        #![trigger batch[i], batch[j]]
        0 <= i <= j < batch.len() implies !key_lt(batch[j].0@, batch[i].0@) by {
        law_keys_follow_numbers(ns[j], ns[i]);
    }
}

/// The numbers, smallest first.
pub fn ascending(ns: Vec<u64>) -> (r: Vec<u64>)
    ensures
        r@ == in_order(ns@),
{
    let mut out: Vec<u64> = Vec::with_capacity(ns.len());
    let mut i: usize = 0;
    assert(ns@.take(0) =~= out@);
    while i < ns.len()
        invariant
            i <= ns.len(),
            rising(out@),
            out@.to_multiset() == ns@.take(i as int).to_multiset(),
        decreases ns.len() - i,
    {
        let n: u64 = ns[i];
        let mut at: usize = out.len();
        while at > 0 && out[at - 1] > n
            invariant
                at <= out.len(),
                rising(out@),
                forall|j: int| at <= j < out.len() ==> out@[j] > n,
            decreases at,
        {
            at = at - 1;
        }
        let ghost before = out@;
        out.insert(at, n);
        proof {
            to_multiset_insert(before, at as int, n);
            to_multiset_build(ns@.take(i as int), n);
            assert(ns@.take(i + 1) =~= ns@.take(i as int).push(n));
        }
        i = i + 1;
    }
    proof {
        assert(ns@.take(i as int) =~= ns@);
        lemma_in_order(ns@, out@);
    }
    out
}

/// The batch that writes the given numbers, sorted by its keys.
pub fn put_batch(ns: Vec<u64>) -> (r: Vec<BatchEntry>)
    ensures
        batch_changes(r@) == put_changes(in_order(ns@)),
        sorted(r@),
{
    let ordered = ascending(ns);
    let batch = puts(&ordered);
    proof {
        law_in_order(ns@);
        assert(batch_changes(batch@).len() == ordered@.len());
        assert forall|i: int| 0 <= i < ordered@.len() implies (#[trigger] batch@[i]).0@ == be64(ordered@[i]) by {
            assert(batch_changes(batch@)[i] == entry_change(batch@[i]));
            assert(put_changes(ordered@)[i] == put_change(ordered@[i]));
        }
        lemma_sorted(batch@, ordered@);
    }
    batch
}

/// The batch that removes the given numbers, sorted by its keys.
pub fn del_batch(ns: Vec<u64>) -> (r: Vec<BatchEntry>)
    ensures
        batch_changes(r@) == del_changes(in_order(ns@)),
        sorted(r@),
{
    let ordered = ascending(ns);
    let batch = dels(&ordered);
    proof {
        law_in_order(ns@);
        assert(batch_changes(batch@).len() == ordered@.len());
        assert forall|i: int| 0 <= i < ordered@.len() implies (#[trigger] batch@[i]).0@ == be64(ordered@[i]) by {
            assert(batch_changes(batch@)[i] == entry_change(batch@[i]));
            assert(del_changes(ordered@)[i] == del_change(ordered@[i]));
        }
        lemma_sorted(batch@, ordered@);
    }
    batch
}

/// The small generator of the `rand` crate.
#[verifier::external_type_specification]
#[verifier::external_body]
pub struct ExSmallRng(SmallRng);

/// Calls `SmallRng::seed_from_u64` of the `rand` crate. Nothing is claimed of
/// the generator that it gives: which one a seed stands for depends on the
/// machine's pointer width.
#[verifier::external_body]
fn seeded(seed: u64) -> (r: SmallRng) {
    SmallRng::seed_from_u64(seed)
}

/// Calls `Rng::gen` of the `rand` crate for a `u64`. Nothing is claimed of the
/// number.
#[verifier::external_body]
fn draw(rng: &mut SmallRng) -> (r: u64) {
    rng.gen::<u64>()
}

/// Numbers drawn from a generator with the given seed.
fn drawn(size: u64, seed: u64) -> (r: Vec<u64>)
    requires
        size <= usize::MAX,
    ensures
        r@.len() == size,
{
    let mut rng = seeded(seed);
    let mut out: Vec<u64> = Vec::with_capacity(size as usize);
    let mut i: u64 = 0;
    while i < size
        invariant
            i <= size,
            out.len() == i,
        decreases size - i,
    {
        let n: u64 = draw(&mut rng);
        out.push(n);
        i = i + 1;
    }
    out
}

/// A sorted batch that writes `size` numbers drawn from a generator with the
/// given seed. Which numbers these are is the generator's affair.
pub fn make_batch_rand(size: u64, seed: u64) -> (r: Vec<BatchEntry>)
    requires
        size <= usize::MAX,
    ensures
        r@.len() == size,
        sorted(r@),
        exists|ns: Seq<u64>| ns.len() == size && batch_changes(r@) == put_changes(#[trigger] in_order(ns)),
{
    let ns = drawn(size, seed);
    let ghost numbers = ns@;
    let batch = put_batch(ns);
    proof {
        lemma_batch_len(numbers);
        assert(batch_changes(batch@) == put_changes(in_order(numbers)));
        assert(batch@.len() == batch_changes(batch@).len());
    }
    batch
}

/// A sorted batch that removes `size` numbers drawn from a generator with the
/// given seed. Which numbers these are is the generator's affair.
pub fn make_del_batch_rand(size: u64, seed: u64) -> (r: Vec<BatchEntry>)
    requires
        size <= usize::MAX,
    ensures
        r@.len() == size,
        sorted(r@),
        exists|ns: Seq<u64>| ns.len() == size && batch_changes(r@) == del_changes(#[trigger] in_order(ns)),
{
    let ns = drawn(size, seed);
    let ghost numbers = ns@;
    let batch = del_batch(ns);
    proof {
        lemma_batch_len(numbers);
        assert(batch_changes(batch@) == del_changes(in_order(numbers)));
        assert(batch@.len() == batch_changes(batch@).len());
    }
    batch
}

/// Putting numbers in order keeps their count.
proof fn lemma_batch_len(ns: Seq<u64>)
    ensures
        in_order(ns).len() == ns.len(),
{
    law_in_order(ns);
    to_multiset_len(ns);
    to_multiset_len(in_order(ns));
}

} // verus!
