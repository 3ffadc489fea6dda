//! Which keys a query asks for.

use std::cmp::Ordering;
use std::ops::{Range, RangeInclusive};

use vstd::prelude::*;
use vstd::std_specs::cmp::{PartialEqSpec, PartialOrdSpec};

use crate::bits::{key_copy, key_less, key_lt, key_same};
use crate::mrt::order::{lemma_key_lt_total, lemma_key_lt_trans};

pub use crate::proofs::check::{prove_resident, verify, verify_query};

verus! {

/// The lower bound of an inclusive range of keys, by `RangeInclusive::start`.
/// The contract claims that it is the bound that the range was made with: only
/// iterating a range changes it, and ranges of byte strings cannot be iterated.
#[verifier::external_body]
fn inclusive_start(range: &RangeInclusive<Vec<u8>>) -> (start: &Vec<u8>)
    ensures
        *start == range@.start,
{
    range.start()
}

/// The upper bound of an inclusive range of keys, by `RangeInclusive::end`.
/// The contract claims that it is the bound that the range was made with: only
/// iterating a range changes it, and ranges of byte strings cannot be iterated.
#[verifier::external_body]
fn inclusive_end(range: &RangeInclusive<Vec<u8>>) -> (end: &Vec<u8>)
    ensures
        *end == range@.end,
{
    range.end()
}

/// A key, or a range of keys.
#[derive(Debug)]
pub enum QueryItem {
    /// A single key.
    Key(Vec<u8>),
    /// The keys from the start up to but not including the end.
    Range(Range<Vec<u8>>),
    /// The keys from the start up to and including the end.
    RangeInclusive(RangeInclusive<Vec<u8>>),
}

/// [`QueryItem`] as a value.
pub enum QueryPart {
    Key(Seq<u8>),
    Range { start: Seq<u8>, end: Seq<u8> },
    RangeInclusive { start: Seq<u8>, end: Seq<u8> },
}

/// How two items lie to each other.
#[derive(Clone, Copy, Debug, PartialEq, Eq, Structural)]
pub enum Relation {
    /// The first comes before the second.
    Before,
    /// They have keys in common.
    Meets,
    /// The first comes after the second.
    After,
}

/// How two keys compare.
pub open spec fn key_relation(a: Seq<u8>, b: Seq<u8>) -> Relation {
    if key_lt(a, b) {
        Relation::Before
    } else if a == b {
        Relation::Meets
    } else {
        Relation::After
    }
}

impl QueryPart {
    /// The first key.
    pub open spec fn lower(self) -> Seq<u8> {
        match self {
            QueryPart::Key(key) => key,
            QueryPart::Range { start, end } => start,
            QueryPart::RangeInclusive { start, end } => start,
        }
    }

    /// The last key, or the one after it.
    pub open spec fn upper(self) -> Seq<u8> {
        match self {
            QueryPart::Key(key) => key,
            QueryPart::Range { start, end } => end,
            QueryPart::RangeInclusive { start, end } => end,
        }
    }

    /// Whether the upper bound belongs to the item.
    pub open spec fn closed(self) -> bool {
        !(self is Range)
    }

    /// Whether the item has a key at all.
    pub open spec fn proper(self) -> bool {
        key_lt(self.lower(), self.upper()) || (self.closed() && self.lower() == self.upper())
    }

    /// Whether a key belongs to the item.
    pub open spec fn covers(self, key: Seq<u8>) -> bool {
        !key_lt(key, self.lower()) && (key_lt(key, self.upper()) || (self.closed() && key == self.upper()))
    }

    /// How this item lies to another one.
    pub open spec fn relation(self, other: QueryPart) -> Relation {
        match key_relation(self.lower(), other.upper()) {
            Relation::Before => match key_relation(self.upper(), other.lower()) {
                Relation::Before => Relation::Before,
                Relation::Meets => if self.closed() {
                    Relation::Meets
                } else {
                    Relation::Before
                },
                Relation::After => Relation::Meets,
            },
            Relation::Meets => if other.closed() {
                Relation::Meets
            } else {
                Relation::After
            },
            Relation::After => Relation::After,
        }
    }

    /// The item that reaches from the lower of the two lower bounds to the
    /// higher of the two upper bounds.
    pub open spec fn merged(self, other: QueryPart) -> QueryPart {
        let start = if key_lt(other.lower(), self.lower()) {
            other.lower()
        } else {
            self.lower()
        };
        let (end, closed) = match key_relation(self.upper(), other.upper()) {
            Relation::Before => (other.upper(), other.closed()),
            Relation::Meets => (self.upper(), self.closed() || other.closed()),
            Relation::After => (self.upper(), self.closed()),
        };
        if closed {
            QueryPart::RangeInclusive { start, end }
        } else {
            QueryPart::Range { start, end }
        }
    }
}

/// Two proper items meet just if they have a key in common; else one comes
/// wholly before the other.
pub proof fn law_relation(a: QueryPart, b: QueryPart)
    requires
        a.proper(),
        b.proper(),
    ensures
        a.relation(b) is Meets <==> exists|k: Seq<u8>| #[trigger] a.covers(k) && b.covers(k),
        a.relation(b) is Before <==> b.relation(a) is After,
        a.relation(b) is Before ==> forall|k: Seq<u8>, l: Seq<u8>| #[trigger]
            a.covers(k) && #[trigger] b.covers(l) ==> key_lt(k, l),
{
    lemma_key_lt_total(a.lower(), b.upper());
    lemma_key_lt_total(a.upper(), b.lower());
    lemma_key_lt_total(a.lower(), b.lower());
    lemma_key_lt_total(a.lower(), a.upper());
    lemma_key_lt_total(b.lower(), b.upper());
    lemma_order_before(a, b);
    lemma_order_before(b, a);
    if a.relation(b) is Meets {
        let k = if key_lt(a.lower(), b.lower()) {
            b.lower()
        } else {
            a.lower()
        };
        lemma_key_lt_total(k, k);
        assert(a.covers(k) && b.covers(k)) by {
            if key_lt(a.lower(), b.lower()) {
                lemma_key_lt_total(b.lower(), a.lower());
                lemma_key_lt_total(b.lower(), a.upper());
            } else {
                lemma_key_lt_total(a.lower(), b.upper());
            }
        }
    }
    assert forall|k: Seq<u8>, l: Seq<u8>|
        a.relation(b) is Before && #[trigger] a.covers(k) && #[trigger] b.covers(l) implies key_lt(k, l) by {
        lemma_before_keys(a, b, k, l);
    }
    if exists|k: Seq<u8>| #[trigger] a.covers(k) && b.covers(k) {
        let k = choose|k: Seq<u8>| #[trigger] a.covers(k) && b.covers(k);
        lemma_key_lt_total(k, k);
        if a.relation(b) is Before {
            lemma_before_keys(a, b, k, k);
        }
        if a.relation(b) is After {
            lemma_before_keys(b, a, k, k);
        }
    }
}

/// When a proper item comes before another, by their bounds.
pub proof fn lemma_order_before(a: QueryPart, b: QueryPart)
    requires
        a.proper(),
        b.proper(),
    ensures
        a.relation(b) is Before <==> key_lt(a.upper(), b.lower()) || (a.upper() == b.lower() && !a.closed()),
        b.relation(a) is After <==> key_lt(a.upper(), b.lower()) || (a.upper() == b.lower() && !a.closed()),
{
    lemma_key_lt_total(a.lower(), b.upper());
    lemma_key_lt_total(a.upper(), b.lower());
    lemma_key_lt_total(b.lower(), a.upper());
    lemma_key_lt_total(b.upper(), a.lower());
    lemma_key_lt_total(a.lower(), a.upper());
    lemma_key_lt_total(b.lower(), b.upper());
    if key_lt(a.upper(), b.lower()) {
        if key_lt(a.lower(), a.upper()) {
            lemma_key_lt_trans(a.lower(), a.upper(), b.lower());
        }
        if key_lt(b.lower(), b.upper()) {
            lemma_key_lt_trans(a.lower(), b.lower(), b.upper());
        }
    }
    if a.upper() == b.lower() && !a.closed() {
        if key_lt(b.lower(), b.upper()) {
            lemma_key_lt_trans(a.lower(), b.lower(), b.upper());
        }
    }
}

/// Keys of an item that comes before another come before its keys.
pub proof fn lemma_before_keys(a: QueryPart, b: QueryPart, k: Seq<u8>, l: Seq<u8>)
    requires
        a.proper(),
        b.proper(),
        a.relation(b) is Before,
        a.covers(k),
        b.covers(l),
    ensures
        key_lt(k, l),
{
    lemma_order_before(a, b);
    lemma_key_lt_total(l, b.lower());
    lemma_key_lt_total(k, a.upper());
    // k <= upper of a <= lower of b <= l, one of them strictly.
    if key_lt(a.upper(), b.lower()) {
        if key_lt(k, a.upper()) {
            lemma_key_lt_trans(k, a.upper(), b.lower());
        }
        if key_lt(b.lower(), l) {
            lemma_key_lt_trans(k, b.lower(), l);
        }
    } else {
        if key_lt(b.lower(), l) {
            lemma_key_lt_trans(k, b.lower(), l);
        }
    }
}

/// Coming before is transitive.
pub proof fn lemma_before_trans(a: QueryPart, b: QueryPart, c: QueryPart)
    requires
        a.proper(),
        b.proper(),
        c.proper(),
        a.relation(b) is Before,
        b.relation(c) is Before,
    ensures
        a.relation(c) is Before,
{
    lemma_order_before(a, b);
    lemma_order_before(b, c);
    lemma_order_before(a, c);
    // upper of a <= lower of b <= upper of b <= lower of c, and not all are equal.
    if key_lt(a.upper(), b.lower()) {
        if key_lt(b.lower(), b.upper()) {
            lemma_key_lt_trans(a.upper(), b.lower(), b.upper());
        }
        if key_lt(b.upper(), c.lower()) {
            lemma_key_lt_trans(a.upper(), b.upper(), c.lower());
        }
    } else {
        if key_lt(b.lower(), b.upper()) && key_lt(b.upper(), c.lower()) {
            lemma_key_lt_trans(b.lower(), b.upper(), c.lower());
        }
    }
}

/// Merging two proper items that meet gives the item with the keys of both.
pub proof fn law_merged_covers_both(a: QueryPart, b: QueryPart)
    requires
        a.proper(),
        b.proper(),
        a.relation(b) is Meets,
    ensures
        a.merged(b).proper(),
        forall|k: Seq<u8>| #[trigger] a.merged(b).covers(k) <==> a.covers(k) || b.covers(k),
{
    lemma_order_before(a, b);
    lemma_order_before(b, a);
    law_relation(a, b);
    let m = a.merged(b);
    lemma_key_lt_total(a.lower(), b.lower());
    lemma_key_lt_total(a.upper(), b.upper());
    lemma_key_lt_total(a.upper(), b.lower());
    lemma_key_lt_total(b.upper(), a.lower());
    lemma_key_lt_total(a.lower(), a.upper());
    lemma_key_lt_total(b.lower(), b.upper());
    assert forall|k: Seq<u8>| #[trigger] m.covers(k) <==> a.covers(k) || b.covers(k) by {
        lemma_key_lt_total(k, a.lower());
        lemma_key_lt_total(k, b.lower());
        lemma_key_lt_total(k, a.upper());
        lemma_key_lt_total(k, b.upper());
        lemma_le_trans(k, a.lower(), b.lower());
        lemma_le_trans(k, b.lower(), a.lower());
        lemma_le_trans(k, a.upper(), b.upper());
        lemma_le_trans(k, b.upper(), a.upper());
        lemma_le_trans(k, a.upper(), b.lower());
        lemma_le_trans(k, b.upper(), a.lower());
    }
    let k = choose|k: Seq<u8>| #[trigger] a.covers(k) && b.covers(k);
    assert(m.covers(k));
    lemma_le_trans(m.lower(), k, m.upper());
    lemma_key_lt_total(m.lower(), k);
    lemma_key_lt_total(m.lower(), m.upper());
}

/// The order of keys is transitive, with and without equality.
pub proof fn lemma_le_trans(a: Seq<u8>, b: Seq<u8>, c: Seq<u8>)
    ensures
        (key_lt(a, b) || a == b) && key_lt(b, c) ==> key_lt(a, c),
        key_lt(a, b) && (key_lt(b, c) || b == c) ==> key_lt(a, c),
        (key_lt(c, b) || c == b) && key_lt(b, a) ==> key_lt(c, a),
        key_lt(c, b) && (key_lt(b, a) || b == a) ==> key_lt(c, a),
{
    if key_lt(a, b) && key_lt(b, c) {
        lemma_key_lt_trans(a, b, c);
    }
    if key_lt(c, b) && key_lt(b, a) {
        lemma_key_lt_trans(c, b, a);
    }
}

/// How two keys compare.
fn compare_keys(a: &[u8], b: &[u8]) -> (r: Relation)
    ensures
        r == key_relation(a@, b@),
{
    if key_less(a, b) {
        Relation::Before
    } else if key_same(a, b) {
        Relation::Meets
    } else {
        Relation::After
    }
}

impl View for QueryItem {
    type V = QueryPart;

    open spec fn view(&self) -> QueryPart {
        match *self {
            QueryItem::Key(key) => QueryPart::Key(key@),
            QueryItem::Range(range) => QueryPart::Range { start: range.start@, end: range.end@ },
            QueryItem::RangeInclusive(range) => QueryPart::RangeInclusive { start: range@.start@, end: range@.end@ },
        }
    }
}

impl QueryItem {
    /// The first key.
    pub fn lower_bound(&self) -> (key: &[u8])
        ensures
            key@ == self@.lower(),
    {
        match self {
            QueryItem::Key(key) => key.as_slice(),
            QueryItem::Range(range) => range.start.as_slice(),
            QueryItem::RangeInclusive(range) => inclusive_start(range).as_slice(),
        }
    }

    /// The upper bound, and whether it belongs to the item.
    pub fn upper_bound(&self) -> (bound: (&[u8], bool))
        ensures
            bound.0@ == self@.upper(),
            bound.1 == self@.closed(),
    {
        match self {
            QueryItem::Key(key) => (key.as_slice(), true),
            QueryItem::Range(range) => (range.end.as_slice(), false),
            QueryItem::RangeInclusive(range) => (inclusive_end(range).as_slice(), true),
        }
    }

    /// Whether a key belongs to the item.
    pub fn contains(&self, key: &[u8]) -> (r: bool)
        ensures
            r == self@.covers(key@),
    {
        let (bound, inclusive) = self.upper_bound();
        !key_less(key, self.lower_bound()) && (key_less(key, bound) || (inclusive && key_same(key, bound)))
    }

    /// How this item lies to another one.
    pub fn relation(&self, other: &QueryItem) -> (r: Relation)
        ensures
            r == self@.relation(other@),
    {
        let (upper, self_inclusive) = self.upper_bound();
        let (other_upper, other_inclusive) = other.upper_bound();
        match compare_keys(self.lower_bound(), other_upper) {
            Relation::Before => match compare_keys(upper, other.lower_bound()) {
                Relation::Before => Relation::Before,
                Relation::Meets => if self_inclusive {
                    Relation::Meets
                } else {
                    Relation::Before
                },
                Relation::After => Relation::Meets,
            },
            Relation::Meets => if other_inclusive {
                Relation::Meets
            } else {
                Relation::After
            },
            Relation::After => Relation::After,
        }
    }

    /// The item that reaches over both.
    pub fn merge(self, other: QueryItem) -> (r: QueryItem)
        ensures
            r@ == self@.merged(other@),
    {
        let start: Vec<u8> = if key_less(other.lower_bound(), self.lower_bound()) {
            key_copy(other.lower_bound())
        } else {
            key_copy(self.lower_bound())
        };
        let (self_upper, self_inclusive) = self.upper_bound();
        let (other_upper, other_inclusive) = other.upper_bound();
        let (end, inclusive) = match compare_keys(self_upper, other_upper) {
            Relation::Before => (key_copy(other_upper), other_inclusive),
            Relation::Meets => (key_copy(self_upper), self_inclusive || other_inclusive),
            Relation::After => (key_copy(self_upper), self_inclusive),
        };
        if inclusive {
            QueryItem::RangeInclusive(RangeInclusive::new(start, end))
        } else {
            QueryItem::Range(Range { start, end })
        }
    }
}

impl Clone for QueryItem {
    fn clone(&self) -> (r: Self)
        ensures
            r@ == self@,
    {
        match self {
            QueryItem::Key(key) => QueryItem::Key(key_copy(key.as_slice())),
            QueryItem::Range(range) => QueryItem::Range(
                Range { start: key_copy(range.start.as_slice()), end: key_copy(range.end.as_slice()) },
            ),
            QueryItem::RangeInclusive(range) => QueryItem::RangeInclusive(
                RangeInclusive::new(
                    key_copy(inclusive_start(range).as_slice()),
                    key_copy(inclusive_end(range).as_slice()),
                ),
            ),
        }
    }
}

/// Items are equal if they meet.
impl PartialEq for QueryItem {
    fn eq(&self, other: &QueryItem) -> (r: bool) {
        match self.relation(other) {
            Relation::Meets => true,
            _ => false,
        }
    }
}

impl vstd::std_specs::cmp::PartialEqSpecImpl for QueryItem {
    open spec fn obeys_eq_spec() -> bool {
        true
    }

    open spec fn eq_spec(&self, other: &QueryItem) -> bool {
        self@.relation(other@) is Meets
    }
}

impl Eq for QueryItem {}

impl PartialOrd for QueryItem {
    fn partial_cmp(&self, other: &QueryItem) -> (r: Option<Ordering>) {
        Some(
            match self.relation(other) {
                Relation::Before => Ordering::Less,
                Relation::Meets => Ordering::Equal,
                Relation::After => Ordering::Greater,
            },
        )
    }
}

impl vstd::std_specs::cmp::PartialOrdSpecImpl for QueryItem {
    open spec fn obeys_partial_cmp_spec() -> bool {
        true
    }

    open spec fn partial_cmp_spec(&self, other: &QueryItem) -> Option<Ordering> {
        Some(
            match self@.relation(other@) {
                Relation::Before => Ordering::Less,
                Relation::Meets => Ordering::Equal,
                Relation::After => Ordering::Greater,
            },
        )
    }
}

/// An item equals a key that belongs to it.
impl PartialEq<&[u8]> for QueryItem {
    fn eq(&self, other: &&[u8]) -> (r: bool) {
        match self.relation(&QueryItem::Key(key_copy(*other))) {
            Relation::Meets => true,
            _ => false,
        }
    }
}

impl vstd::std_specs::cmp::PartialEqSpecImpl<&[u8]> for QueryItem {
    open spec fn obeys_eq_spec() -> bool {
        true
    }

    open spec fn eq_spec(&self, other: &&[u8]) -> bool {
        self@.relation(QueryPart::Key(other@)) is Meets
    }
}

impl PartialOrd<&[u8]> for QueryItem {
    fn partial_cmp(&self, other: &&[u8]) -> (r: Option<Ordering>) {
        Some(
            match self.relation(&QueryItem::Key(key_copy(*other))) {
                Relation::Before => Ordering::Less,
                Relation::Meets => Ordering::Equal,
                Relation::After => Ordering::Greater,
            },
        )
    }
}

impl vstd::std_specs::cmp::PartialOrdSpecImpl<&[u8]> for QueryItem {
    open spec fn obeys_partial_cmp_spec() -> bool {
        true
    }

    open spec fn partial_cmp_spec(&self, other: &&[u8]) -> Option<Ordering> {
        Some(
            match self@.relation(QueryPart::Key(other@)) {
                Relation::Before => Ordering::Less,
                Relation::Meets => Ordering::Equal,
                Relation::After => Ordering::Greater,
            },
        )
    }
}

/// Proper items are equal just if they have a key in common, and one comes before
/// another just if all its keys do. A key equals an item that it belongs to.
pub proof fn law_items_compare_by_their_keys(a: QueryItem, b: QueryItem, key: &[u8])
    requires
        a@.proper(),
        b@.proper(),
    ensures
        a.eq_spec(&b) <==> exists|k: Seq<u8>| #[trigger] a@.covers(k) && b@.covers(k),
        a.partial_cmp_spec(&b) == Some(Ordering::Equal) <==> a.eq_spec(&b),
        a.partial_cmp_spec(&b) == Some(Ordering::Less) <==> b.partial_cmp_spec(&a) == Some(Ordering::Greater),
        a.partial_cmp_spec(&b) == Some(Ordering::Less) ==> forall|k: Seq<u8>, l: Seq<u8>| #[trigger]
            a@.covers(k) && #[trigger] b@.covers(l) ==> key_lt(k, l),
        a.partial_cmp_spec(&b) is Some,
        a.eq_spec(&key) <==> a@.covers(key@),
        a.partial_cmp_spec(&key) == Some(Ordering::Equal) <==> a@.covers(key@),
        a.partial_cmp_spec(&key) == Some(Ordering::Less) ==> forall|k: Seq<u8>| #[trigger]
            a@.covers(k) ==> key_lt(k, key@),
        a.partial_cmp_spec(&key) == Some(Ordering::Greater) ==> forall|k: Seq<u8>| #[trigger]
            a@.covers(k) ==> key_lt(key@, k),
        a.partial_cmp_spec(&key) is Some,
{
    let part = QueryPart::Key(key@);
    lemma_key_lt_total(key@, key@);
    law_relation(a@, b@);
    law_relation(b@, a@);
    law_relation(a@, part);
    law_relation(part, a@);
    assert(forall|k: Seq<u8>| #[trigger] part.covers(k) <==> k == key@) by {
        assert forall|k: Seq<u8>| part.covers(k) implies k == key@ by {
            lemma_key_lt_total(k, key@);
        }
    }
}

impl From<Vec<u8>> for QueryItem {
    fn from(key: Vec<u8>) -> (r: Self) {
        QueryItem::Key(key)
    }
}

impl vstd::std_specs::convert::FromSpecImpl<Vec<u8>> for QueryItem {
    open spec fn obeys_from_spec() -> bool {
        true
    }

    open spec fn from_spec(key: Vec<u8>) -> Self {
        QueryItem::Key(key)
    }
}

/// Items as values.
pub open spec fn parts(items: Seq<QueryItem>) -> Seq<QueryPart> {
    items.map_values(|i: QueryItem| i@)
}

/// Whether a key belongs to one of the items.
pub open spec fn any_covers(items: Seq<QueryPart>, key: Seq<u8>) -> bool {
    exists|i: int| 0 <= i < items.len() && (#[trigger] items[i]).covers(key)
}

/// Items in order, none of which meets another.
pub open spec fn apart(items: Seq<QueryPart>) -> bool {
    &&& forall|i: int| 0 <= i < items.len() ==> (#[trigger] items[i]).proper()
    &&& forall|i: int, j: int|
        0 <= i < j < items.len() ==> (#[trigger] items[i]).relation(#[trigger] items[j]) is Before
}

/// How many items at the front `part` comes after.
pub open spec fn seek(items: Seq<QueryPart>, part: QueryPart) -> int
    decreases items.len(),
{
    if items.len() == 0 || !(part.relation(items[0]) is After) {
        0
    } else {
        1 + seek(items.skip(1), part)
    }
}

/// Whether `part` meets the first item that it does not come after.
pub open spec fn meets_one(items: Seq<QueryPart>, part: QueryPart) -> bool {
    seek(items, part) < items.len() && part.relation(items[seek(items, part)]) is Meets
}

/// How many items at the front come before `part`.
pub open spec fn place_of(items: Seq<QueryPart>, part: QueryPart) -> int
    decreases items.len(),
{
    if items.len() == 0 || !(items[0].relation(part) is Before) {
        0
    } else {
        1 + place_of(items.skip(1), part)
    }
}

proof fn lemma_seek(items: Seq<QueryPart>, part: QueryPart, n: int)
    requires
        0 <= n <= items.len(),
        forall|i: int| 0 <= i < n ==> part.relation(#[trigger] items[i]) is After,
        n < items.len() ==> !(part.relation(items[n]) is After),
    ensures
        seek(items, part) == n,
    decreases n,
{
    if n > 0 {
        assert forall|i: int| 0 <= i < n - 1 implies part.relation(#[trigger] items.skip(1)[i]) is After by {
            assert(items.skip(1)[i] == items[i + 1]);
        }
        assert(part.relation(items[0]) is After);
        lemma_seek(items.skip(1), part, n - 1);
    }
}

pub proof fn lemma_place_of(items: Seq<QueryPart>, part: QueryPart, n: int)
    requires
        0 <= n <= items.len(),
        forall|i: int| 0 <= i < n ==> (#[trigger] items[i]).relation(part) is Before,
        n < items.len() ==> !(items[n].relation(part) is Before),
    ensures
        place_of(items, part) == n,
    decreases n,
{
    if n > 0 {
        assert forall|i: int| 0 <= i < n - 1 implies (#[trigger] items.skip(1)[i]).relation(part) is Before by {
            assert(items.skip(1)[i] == items[i + 1]);
        }
        assert(items[0].relation(part) is Before);
        lemma_place_of(items.skip(1), part, n - 1);
    }
}

/// What the search for the place of `part` says.
pub proof fn lemma_sought(items: Seq<QueryPart>, part: QueryPart)
    ensures
        0 <= seek(items, part) <= items.len(),
        forall|j: int| 0 <= j < seek(items, part) ==> part.relation(#[trigger] items[j]) is After,
        seek(items, part) < items.len() ==> !(part.relation(items[seek(items, part)]) is After),
    decreases items.len(),
{
    if items.len() > 0 && part.relation(items[0]) is After {
        lemma_sought(items.skip(1), part);
        let n = seek(items.skip(1), part);
        assert forall|j: int| 0 <= j < n + 1 implies part.relation(#[trigger] items[j]) is After by {
            if j > 0 {
                assert(items[j] == items.skip(1)[j - 1]);
            }
        }
    }
}

/// Items with one more: all items that it meets are merged with it first, and
/// then those that the outcome meets, until it meets none.
pub open spec fn with_part(items: Seq<QueryPart>, part: QueryPart) -> Seq<QueryPart>
    decreases items.len(),
{
    let i = seek(items, part);
    if 0 <= i && meets_one(items, part) {
        with_part(items.remove(i), part.merged(items[i]))
    } else {
        items.insert(i, part)
    }
}

/// Whether an item ends just before `key`, and is not the wrong way round.
pub open spec fn ends_at(part: QueryPart, key: Seq<u8>) -> bool {
    part is Range && part.upper() == key && !key_lt(key, part.lower())
}

/// The first item that ends just before `key`, or the number of items.
pub open spec fn first_ending_at(items: Seq<QueryPart>, key: Seq<u8>) -> int
    decreases items.len(),
{
    if items.len() == 0 || ends_at(items[0], key) {
        0
    } else {
        1 + first_ending_at(items.skip(1), key)
    }
}

/// Items with one more key. A key that an item has already changes nothing; an
/// item that ends just before the key, and is not the wrong way round, takes it in.
pub open spec fn with_key(items: Seq<QueryPart>, key: Seq<u8>) -> Seq<QueryPart> {
    let i = first_ending_at(items, key);
    if any_covers(items, key) {
        items
    } else if 0 <= i < items.len() {
        items.update(i, QueryPart::RangeInclusive { start: items[i].lower(), end: key })
    } else {
        items.insert(seek(items, QueryPart::Key(key)), QueryPart::Key(key))
    }
}

/// With one more item, items are apart, and have the keys of the item too.
pub open spec fn part_added(items: Seq<QueryPart>, part: QueryPart) -> bool {
    &&& apart(with_part(items, part))
    &&& forall|k: Seq<u8>| #[trigger] any_covers(with_part(items, part), k) <==> any_covers(items, k) || part.covers(k)
}

/// With one more key, items are apart, and have the key too.
pub open spec fn key_added(items: Seq<QueryPart>, key: Seq<u8>) -> bool {
    &&& apart(with_key(items, key))
    &&& forall|k: Seq<u8>| #[trigger] any_covers(with_key(items, key), k) <==> any_covers(items, k) || k == key
}

proof fn lemma_first_ending_at(items: Seq<QueryPart>, key: Seq<u8>, n: int)
    requires
        0 <= n <= items.len(),
        forall|i: int| 0 <= i < n ==> !ends_at(#[trigger] items[i], key),
        n < items.len() ==> ends_at(items[n], key),
    ensures
        first_ending_at(items, key) == n,
    decreases n,
{
    if n > 0 {
        assert forall|i: int| 0 <= i < n - 1 implies !ends_at(#[trigger] items.skip(1)[i], key) by {
            assert(items.skip(1)[i] == items[i + 1]);
        }
        assert(!ends_at(items[0], key));
        lemma_first_ending_at(items.skip(1), key, n - 1);
    }
}

/// Adding a proper item to items that are apart keeps them apart, and adds just
/// the keys of the item.
pub proof fn law_with_part(items: Seq<QueryPart>, part: QueryPart)
    requires
        apart(items),
        part.proper(),
    ensures
        part_added(items, part),
    decreases items.len(),
{
    let i = seek(items, part);
    lemma_sought(items, part);
    if meets_one(items, part) {
        let rest = items.remove(i);
        let m = part.merged(items[i]);
        law_relation(items[i], part);
        law_relation(part, items[i]);
        law_merged_covers_both(part, items[i]);
        assert(apart(rest)) by {
            assert forall|a: int, b: int| 0 <= a < b < rest.len() implies (#[trigger] rest[a]).relation(
                #[trigger] rest[b],
            ) is Before by {
                let x = if a < i {
                    a
                } else {
                    a + 1
                };
                let y = if b < i {
                    b
                } else {
                    b + 1
                };
                assert(rest[a] == items[x] && rest[b] == items[y]);
            }
            assert forall|a: int| 0 <= a < rest.len() implies (#[trigger] rest[a]).proper() by {
                let x = if a < i {
                    a
                } else {
                    a + 1
                };
                assert(rest[a] == items[x]);
            }
        }
        law_with_part(rest, m);
        assert forall|k: Seq<u8>| #[trigger] any_covers(with_part(items, part), k) <==> any_covers(items, k)
            || part.covers(k) by {
            assert(m.covers(k) <==> part.covers(k) || items[i].covers(k));
            lemma_covers_removed(items, i, k);
        }
    } else {
        lemma_insert_apart(items, part);
    }
}

/// What the count of the items before `part` says.
pub proof fn lemma_place_found(items: Seq<QueryPart>, part: QueryPart)
    ensures
        0 <= place_of(items, part) <= items.len(),
        forall|j: int| 0 <= j < place_of(items, part) ==> (#[trigger] items[j]).relation(part) is Before,
        place_of(items, part) < items.len() ==> !(items[place_of(items, part)].relation(part) is Before),
    decreases items.len(),
{
    if items.len() > 0 && items[0].relation(part) is Before {
        lemma_place_found(items.skip(1), part);
        let n = place_of(items.skip(1), part);
        assert forall|j: int| 0 <= j < n + 1 implies (#[trigger] items[j]).relation(part) is Before by {
            if j > 0 {
                assert(items[j] == items.skip(1)[j - 1]);
            }
        }
    }
}

/// What is covered with and without one of the items.
proof fn lemma_covers_removed(items: Seq<QueryPart>, i: int, k: Seq<u8>)
    requires
        0 <= i < items.len(),
    ensures
        any_covers(items, k) <==> any_covers(items.remove(i), k) || items[i].covers(k),
{
    let rest = items.remove(i);
    if any_covers(items, k) {
        let j = choose|j: int| 0 <= j < items.len() && (#[trigger] items[j]).covers(k);
        if j < i {
            assert(rest[j] == items[j]);
        } else if j > i {
            assert(rest[j - 1] == items[j]);
        }
    }
    if any_covers(rest, k) {
        let j = choose|j: int| 0 <= j < rest.len() && (#[trigger] rest[j]).covers(k);
        if j < i {
            assert(items[j] == rest[j]);
        } else {
            assert(items[j + 1] == rest[j]);
        }
    }
}

/// An item that meets none goes between those before and those after it.
proof fn lemma_insert_apart(items: Seq<QueryPart>, part: QueryPart)
    requires
        apart(items),
        part.proper(),
        !meets_one(items, part),
    ensures
        0 <= seek(items, part) <= items.len(),
        apart(items.insert(seek(items, part), part)),
        forall|k: Seq<u8>| #[trigger]
            any_covers(items.insert(seek(items, part), part), k) <==> any_covers(items, k) || part.covers(k),
{
    lemma_sought(items, part);
    let n = seek(items, part);
    let all = items.insert(n, part);
    assert forall|j: int| n <= j < items.len() implies part.relation(#[trigger] items[j]) is Before by {
        if j > n {
            assert(items[n].relation(items[j]) is Before);
            lemma_before_trans(part, items[n], items[j]);
        }
    }
    assert forall|j: int| 0 <= j < n implies (#[trigger] items[j]).relation(part) is Before by {
        law_relation(items[j], part);
    }
    assert forall|a: int, b: int| 0 <= a < b < all.len() implies (#[trigger] all[a]).relation(#[trigger] all[b]) is Before by {
        if b < n {
            assert(all[a] == items[a] && all[b] == items[b]);
        } else if b == n {
            assert(all[a] == items[a] && all[b] == part);
        } else if a < n {
            assert(all[a] == items[a] && all[b] == items[b - 1]);
        } else if a == n {
            assert(all[a] == part && all[b] == items[b - 1]);
        } else {
            assert(all[a] == items[a - 1] && all[b] == items[b - 1]);
        }
    }
    assert forall|a: int| 0 <= a < all.len() implies (#[trigger] all[a]).proper() by {
        if a < n {
            assert(all[a] == items[a]);
        } else if a > n {
            assert(all[a] == items[a - 1]);
        }
    }
    assert(all.remove(n) =~= items);
    assert forall|k: Seq<u8>| #[trigger] any_covers(all, k) <==> any_covers(items, k) || part.covers(k) by {
        lemma_covers_removed(all, n, k);
    }
}

/// Adding a key to items that are apart keeps them apart, and adds just the key.
pub proof fn law_with_key(items: Seq<QueryPart>, key: Seq<u8>)
    requires
        apart(items),
    ensures
        key_added(items, key),
{
    let part = QueryPart::Key(key);
    lemma_key_lt_total(key, key);
    assert forall|k: Seq<u8>| #[trigger] part.covers(k) <==> k == key by {
        lemma_key_lt_total(k, key);
    }
    if !any_covers(items, key) {
        lemma_sought(items, part);
        if meets_one(items, part) {
            let j = seek(items, part);
            law_relation(part, items[j]);
            let k = choose|k: Seq<u8>| #[trigger] part.covers(k) && items[j].covers(k);
            assert(items[j].covers(key));
        }
        let i = first_ending_at(items, key);
        lemma_ending_found(items, key);
        if i < items.len() {
            lemma_extend_apart(items, key, i);
        } else {
            lemma_insert_apart(items, part);
        }
    }
}

/// Whatever the items, with one more key they have the key.
pub proof fn law_key_is_asked_for(items: Seq<QueryPart>, key: Seq<u8>)
    ensures
        any_covers(with_key(items, key), key),
{
    let part = QueryPart::Key(key);
    let all = with_key(items, key);
    let i = first_ending_at(items, key);
    lemma_key_lt_total(key, key);
    if !any_covers(items, key) {
        lemma_ending_found(items, key);
        if i < items.len() {
            lemma_key_lt_total(items[i].lower(), key);
            assert(all[i].covers(key));
        } else {
            lemma_sought(items, part);
            assert(all[seek(items, part)].covers(key));
        }
    }
}

/// What the search for an item that ends just before `key` says.
proof fn lemma_ending_found(items: Seq<QueryPart>, key: Seq<u8>)
    ensures
        0 <= first_ending_at(items, key) <= items.len(),
        first_ending_at(items, key) < items.len() ==> ends_at(items[first_ending_at(items, key)], key),
    decreases items.len(),
{
    if items.len() > 0 && !ends_at(items[0], key) {
        lemma_ending_found(items.skip(1), key);
    }
}

/// An item that ends just before a key that none has can take it in.
proof fn lemma_extend_apart(items: Seq<QueryPart>, key: Seq<u8>, i: int)
    requires
        apart(items),
        0 <= i < items.len(),
        items[i] is Range,
        items[i].upper() == key,
        !any_covers(items, key),
    ensures
        apart(items.update(i, QueryPart::RangeInclusive { start: items[i].lower(), end: key })),
        forall|k: Seq<u8>| #[trigger]
            any_covers(items.update(i, QueryPart::RangeInclusive { start: items[i].lower(), end: key }), k)
                <==> any_covers(items, k) || k == key,
{
    let grown = QueryPart::RangeInclusive { start: items[i].lower(), end: key };
    let all = items.update(i, grown);
    assert(items[i].proper());
    assert forall|a: int, b: int| 0 <= a < b < all.len() implies (#[trigger] all[a]).relation(#[trigger] all[b]) is Before by {
        assert(items[a].relation(items[b]) is Before);
        lemma_order_before(items[a], items[b]);
        if b == i {
            lemma_order_before(items[a], grown);
        }
        if a == i {
            lemma_order_before(grown, items[b]);
            assert(!items[b].covers(key));
            lemma_key_lt_total(key, items[b].lower());
            lemma_key_lt_total(items[b].lower(), items[b].upper());
        }
    }
    assert forall|k: Seq<u8>| #[trigger] any_covers(all, k) <==> any_covers(items, k) || k == key by {
        lemma_covers_removed(all, i, k);
        lemma_covers_removed(items, i, k);
        assert(all.remove(i) =~= items.remove(i));
        lemma_key_lt_total(key, items[i].lower());
        lemma_key_lt_total(items[i].lower(), key);
    }
}

/// Keys and ranges of keys.
#[derive(Debug)]
pub struct Query {
    items: Vec<QueryItem>,
}

impl View for Query {
    type V = Seq<QueryPart>;

    closed spec fn view(&self) -> Seq<QueryPart> {
        parts(self.items@)
    }
}

impl Default for Query {
    fn default() -> (r: Self)
        ensures
            r@ == Seq::<QueryPart>::empty(),
    {
        Query::new()
    }
}

/// Where an item goes: behind those at the front that come before it.
pub fn position(items: &[QueryItem], item: &QueryItem) -> (n: usize)
    ensures
        n == place_of(parts(items@), item@),
        n <= items@.len(),
{
    let mut n: usize = 0;
    let ghost all = parts(items@);
    while n < items.len() && items[n].relation(item) == Relation::Before
        invariant
            n <= items@.len(),
            all == parts(items@),
            forall|i: int| 0 <= i < n ==> (#[trigger] all[i]).relation(item@) is Before,
        decreases items@.len() - n,
    {
        assert(all[n as int] == items@[n as int]@);
        n = n + 1;
    }
    proof {
        if n < items@.len() {
            assert(all[n as int] == items@[n as int]@);
        }
        lemma_place_of(all, item@, n as int);
    }
    n
}

/// Looks for the first item that the given one does not come after, and tells
/// whether the two meet.
fn seek_item(items: &[QueryItem], item: &QueryItem) -> (r: (usize, bool))
    ensures
        r.0 == seek(parts(items@), item@),
        r.0 <= items@.len(),
        r.1 == meets_one(parts(items@), item@),
{
    let mut n: usize = 0;
    let ghost all = parts(items@);
    while n < items.len()
        invariant
            n <= items@.len(),
            all == parts(items@),
            forall|i: int| 0 <= i < n ==> item@.relation(#[trigger] all[i]) is After,
        decreases items@.len() - n,
    {
        assert(all[n as int] == items@[n as int]@);
        let relation = item.relation(&items[n]);
        if relation != Relation::After {
            proof {
                lemma_seek(all, item@, n as int);
            }
            return (n, relation == Relation::Meets);
        }
        n = n + 1;
    }
    proof {
        lemma_seek(all, item@, n as int);
    }
    (n, false)
}

impl Query {
    /// Asks for nothing.
    pub fn new() -> (r: Self)
        ensures
            r@ == Seq::<QueryPart>::empty(),
    {
        let r = Query { items: Vec::new() };
        assert(r@ =~= Seq::<QueryPart>::empty());
        r
    }

    /// Adds a key. If it or a range with it is there already, nothing changes.
    /// A range that ends just before the key is made to include it, unless it is
    /// the wrong way round.
    pub fn insert_key(&mut self, key: Vec<u8>)
        ensures
            final(self)@ == with_key(old(self)@, key@),
            any_covers(final(self)@, key@),
            apart(old(self)@) ==> key_added(old(self)@, key@),
    {
        let ghost before = self@;
        proof {
            law_key_is_asked_for(before, key@);
            if apart(before) {
                law_with_key(before, key@);
            }
        }
        let mut n: usize = 0;
        while n < self.items.len()
            invariant
                n <= self.items@.len(),
                before == old(self)@,
                self@ == before,
                any_covers(with_key(before, key@), key@),
                apart(before) ==> key_added(before, key@),
                forall|i: int| 0 <= i < n ==> !(#[trigger] before[i]).covers(key@),
            decreases self.items@.len() - n,
        {
            assert(before[n as int] == self.items@[n as int]@);
            if self.items[n].contains(key.as_slice()) {
                assert(any_covers(before, key@));
                return;
            }
            n = n + 1;
        }
        assert(!any_covers(before, key@));
        let mut i: usize = 0;
        while i < self.items.len()
            invariant
                i <= self.items@.len(),
                before == old(self)@,
                self@ == before,
                any_covers(with_key(before, key@), key@),
                apart(before) ==> key_added(before, key@),
                !any_covers(before, key@),
                forall|j: int| 0 <= j < i ==> !ends_at(#[trigger] before[j], key@),
            decreases self.items@.len() - i,
        {
            assert(before[i as int] == self.items@[i as int]@);
            let start: Option<Vec<u8>> = match &self.items[i] {
                QueryItem::Range(range) => if key_same(range.end.as_slice(), key.as_slice()) && !key_less(
                    key.as_slice(),
                    range.start.as_slice(),
                ) {
                    Some(key_copy(range.start.as_slice()))
                } else {
                    None
                },
                _ => None,
            };
            if let Some(start) = start {
                proof {
                    lemma_first_ending_at(before, key@, i as int);
                }
                let ghost old_items = self.items@;
                let grown = QueryItem::RangeInclusive(RangeInclusive::new(start, key));
                let ghost g = grown@;
                self.items.set(i, grown);
                proof {
                    assert(g == (QueryPart::RangeInclusive { start: before[i as int].lower(), end: key@ }));
                    assert(parts(self.items@) =~= parts(old_items).update(i as int, g));
                }
                return;
            }
            i = i + 1;
        }
        proof {
            lemma_first_ending_at(before, key@, i as int);
        }
        let item = QueryItem::Key(key);
        let at: usize = seek_item(self.items.as_slice(), &item).0;
        self.items.insert(at, item);
        assert(self@ =~= with_key(before, key@));
    }

    /// Adds a range.
    pub fn insert_range(&mut self, range: Range<Vec<u8>>)
        ensures
            final(self)@ == with_part(old(self)@, QueryPart::Range { start: range.start@, end: range.end@ }),
    {
        self.insert_item(QueryItem::Range(range));
    }

    /// Adds an inclusive range.
    pub fn insert_range_inclusive(&mut self, range: RangeInclusive<Vec<u8>>)
        ensures
            final(self)@ == with_part(
                old(self)@,
                QueryPart::RangeInclusive { start: range@.start@, end: range@.end@ },
            ),
    {
        self.insert_item(QueryItem::RangeInclusive(range));
    }

    /// Adds an item. It is merged with all items that it meets.
    pub fn insert_item(&mut self, item: QueryItem)
        ensures
            final(self)@ == with_part(old(self)@, item@),
            apart(old(self)@) && item@.proper() ==> part_added(old(self)@, item@),
    {
        let ghost target = with_part(self@, item@);
        proof {
            if apart(self@) && item@.proper() {
                law_with_part(self@, item@);
            }
        }
        let mut current = item;
        loop
            invariant
                target == with_part(old(self)@, item@),
                apart(old(self)@) && item@.proper() ==> part_added(old(self)@, item@),
                with_part(self@, current@) == target,
            decreases self.items@.len(),
        {
            let ghost before = self.items@;
            let (at, meets) = seek_item(self.items.as_slice(), &current);
            if !meets {
                self.items.insert(at, current);
                assert(self@ =~= parts(before).insert(at as int, current@));
                return;
            }
            let existing = self.items.remove(at);
            assert(parts(self.items@) =~= parts(before).remove(at as int));
            current = current.merge(existing);
        }
    }

    /// The items, in order.
    pub fn iter(&self) -> (items: &[QueryItem])
        ensures
            parts(items@) == self@,
    {
        self.items.as_slice()
    }

    /// The items, in order.
    pub fn into_items(self) -> (items: Vec<QueryItem>)
        ensures
            parts(items@) == self@,
    {
        self.items
    }

    /// A query with the given items. Of items that meet, the later one stays.
    pub fn from_items(items: Vec<QueryItem>) -> (r: Self)
        ensures
            r@ == arranged(parts(items@)),
    {
        let mut query = Query::new();
        let ghost all = parts(items@);
        let mut i: usize = 0;
        assert(all.take(0) =~= Seq::empty());
        while i < items.len()
            invariant
                i <= items@.len(),
                all == parts(items@),
                query@ == arranged(all.take(i as int)),
            decreases items@.len() - i,
        {
            proof {
                assert(all.take(i + 1).drop_last() =~= all.take(i as int));
                assert(all.take(i + 1).last() == items@[i as int]@);
            }
            query.replace_item(items[i].clone());
            i = i + 1;
        }
        assert(all.take(all.len() as int) =~= all);
        query
    }

    /// Puts an item in the place of all that it meets.
    fn replace_item(&mut self, item: QueryItem)
        ensures
            final(self)@ == with_part_replacing(old(self)@, item@),
    {
        let ghost target = with_part_replacing(self@, item@);
        loop
            invariant
                target == with_part_replacing(old(self)@, item@),
                with_part_replacing(self@, item@) == target,
            decreases self.items@.len(),
        {
            let ghost before = self.items@;
            let (at, meets) = seek_item(self.items.as_slice(), &item);
            if !meets {
                self.items.insert(at, item);
                assert(self@ =~= parts(before).insert(at as int, item@));
                return;
            }
            self.items.remove(at);
            assert(parts(self.items@) =~= parts(before).remove(at as int));
        }
    }
}

/// Items with one more, in the place of all that it meets.
pub open spec fn with_part_replacing(items: Seq<QueryPart>, part: QueryPart) -> Seq<QueryPart>
    decreases items.len(),
{
    let i = seek(items, part);
    if 0 <= i && meets_one(items, part) {
        with_part_replacing(items.remove(i), part)
    } else {
        items.insert(i, part)
    }
}

/// Items in order. Of items that meet, the later one stays.
pub open spec fn arranged(items: Seq<QueryPart>) -> Seq<QueryPart>
    decreases items.len(),
{
    if items.len() == 0 {
        Seq::empty()
    } else {
        with_part_replacing(arranged(items.drop_last()), items.last())
    }
}

/// Whether an item has all keys of another.
pub open spec fn takes_in(whole: QueryPart, part: QueryPart) -> bool {
    forall|k: Seq<u8>| #[trigger] part.covers(k) ==> whole.covers(k)
}

/// Two items of those that are apart have no key in common.
proof fn lemma_apart_pair(items: Seq<QueryPart>, a: int, b: int, k: Seq<u8>)
    requires
        apart(items),
        0 <= a < items.len(),
        0 <= b < items.len(),
        a != b,
    ensures
        !(items[a].covers(k) && items[b].covers(k)),
{
    if a < b {
        law_relation(items[a], items[b]);
        assert(items[a].relation(items[b]) is Before);
    } else {
        law_relation(items[b], items[a]);
        assert(items[b].relation(items[a]) is Before);
    }
}

/// An item that is added becomes one with those that it meets, and every item that it
/// does not meet stays as it is.
pub proof fn law_added_item_takes_in_what_it_meets(items: Seq<QueryPart>, part: QueryPart, x: QueryPart)
    requires
        apart(items),
        part.proper(),
    ensures
        exists|j: int|
            0 <= j < with_part(items, part).len() && takes_in(#[trigger] with_part(items, part)[j], part) && (items.contains(x)
                && x.relation(part) is Meets ==> takes_in(with_part(items, part)[j], x)),
        items.contains(x) && !(x.relation(part) is Meets) ==> with_part(items, part).contains(x),
    decreases items.len(),
{
    let i = seek(items, part);
    let all = with_part(items, part);
    lemma_sought(items, part);
    if items.contains(x) {
        let a = choose|a: int| 0 <= a < items.len() && items[a] == x;
        assert(items[a].proper());
        law_relation(x, part);
    }
    if meets_one(items, part) {
        let other = items[i];
        let rest = items.remove(i);
        let m = part.merged(other);
        assert(other.proper());
        law_relation(part, other);
        law_merged_covers_both(part, other);
        lemma_remove_apart(items, i);
        law_added_item_takes_in_what_it_meets(rest, m, x);
        let j = choose|j: int|
            0 <= j < all.len() && takes_in(#[trigger] all[j], m) && (rest.contains(x) && x.relation(m) is Meets ==> takes_in(
                all[j],
                x,
            ));
        assert(takes_in(all[j], part)) by {
            assert forall|k: Seq<u8>| #[trigger] part.covers(k) implies all[j].covers(k) by {
                assert(m.covers(k));
            }
        }
        if items.contains(x) {
            let a = choose|a: int| 0 <= a < items.len() && items[a] == x;
            if x == other {
                law_relation(other, part);
                assert(takes_in(all[j], x)) by {
                    assert forall|k: Seq<u8>| #[trigger] x.covers(k) implies all[j].covers(k) by {
                        assert(m.covers(k));
                    }
                }
                let k = choose|k: Seq<u8>| #[trigger] part.covers(k) && other.covers(k);
                assert(x.covers(k) && part.covers(k));
            } else {
                assert(rest.contains(x));
                law_relation(x, m);
                if x.relation(part) is Meets {
                    let k = choose|k: Seq<u8>| #[trigger] x.covers(k) && part.covers(k);
                    assert(m.covers(k));
                    assert(x.covers(k) && m.covers(k));
                } else if x.relation(m) is Meets {
                    let k = choose|k: Seq<u8>| #[trigger] x.covers(k) && m.covers(k);
                    lemma_apart_pair(items, a, i, k);
                    assert(x.covers(k) && part.covers(k));
                }
            }
        }
    } else {
        law_with_part(items, part);
        assert(all == items.insert(i, part));
        assert(all[i] == part);
        assert(takes_in(all[i], part));
        if items.contains(x) {
            let a = choose|a: int| 0 <= a < items.len() && items[a] == x;
            let b: int = if a < i {
                a
            } else {
                a + 1
            };
            assert(all[b] == x);
            if x.relation(part) is Meets {
                let k = choose|k: Seq<u8>| #[trigger] x.covers(k) && part.covers(k);
                lemma_apart_pair(all, b, i, k);
            }
        }
    }
}

/// A key that is added is not left next to an item that ends just before it: the item
/// takes the key in. Every other item stays as it is.
pub proof fn law_added_key_is_taken_in(items: Seq<QueryPart>, key: Seq<u8>)
    requires
        apart(items),
        !any_covers(items, key),
    ensures
        forall|j: int| 0 <= j < with_key(items, key).len() ==> !ends_at(#[trigger] with_key(items, key)[j], key),
        forall|j: int| 0 <= j < items.len() && !ends_at(#[trigger] items[j], key) ==> with_key(items, key).contains(items[j]),
        forall|j: int| 0 <= j < items.len() && ends_at(#[trigger] items[j], key) ==> with_key(items, key).contains(
            QueryPart::RangeInclusive { start: items[j].lower(), end: key },
        ),
{
    let all = with_key(items, key);
    let i = first_ending_at(items, key);
    lemma_ending_found(items, key);
    assert forall|a: int, b: int| 0 <= a < b < items.len() implies !(ends_at(#[trigger] items[a], key) && ends_at(
        #[trigger] items[b],
        key,
    )) by {
        if ends_at(items[a], key) && ends_at(items[b], key) {
            assert(items[a].proper() && items[b].proper());
            assert(items[a].relation(items[b]) is Before);
            lemma_order_before(items[a], items[b]);
            lemma_key_lt_total(key, items[b].lower());
        }
    }
    if i < items.len() {
        assert(all[i] == (QueryPart::RangeInclusive { start: items[i].lower(), end: key }));
        assert forall|j: int| 0 <= j < all.len() implies !ends_at(#[trigger] all[j], key) by {
            if j < i {
                assert(all[j] == items[j]);
                assert(ends_at(items[i], key));
            } else if j > i {
                assert(all[j] == items[j]);
                assert(ends_at(items[i], key));
            }
        }
        assert forall|j: int| 0 <= j < items.len() && !ends_at(#[trigger] items[j], key) implies all.contains(items[j]) by {
            assert(all[j] == items[j]);
        }
        assert forall|j: int| 0 <= j < items.len() && ends_at(#[trigger] items[j], key) implies all.contains(
            QueryPart::RangeInclusive { start: items[j].lower(), end: key },
        ) by {
            assert(j == i) by {
                assert(ends_at(items[i], key));
            }
        }
    } else {
        let n = seek(items, QueryPart::Key(key));
        lemma_sought(items, QueryPart::Key(key));
        lemma_none_ends(items, key);
        assert forall|j: int| 0 <= j < all.len() implies !ends_at(#[trigger] all[j], key) by {
            if j < n {
                assert(all[j] == items[j]);
            } else if j > n {
                assert(all[j] == items[j - 1]);
            }
        }
        assert forall|j: int| 0 <= j < items.len() implies all.contains(#[trigger] items[j]) by {
            let b: int = if j < n {
                j
            } else {
                j + 1
            };
            assert(all[b] == items[j]);
        }
    }
}

/// Where the search finds no item that ends just before `key`, none does.
proof fn lemma_none_ends(items: Seq<QueryPart>, key: Seq<u8>)
    requires
        first_ending_at(items, key) >= items.len(),
    ensures
        forall|j: int| 0 <= j < items.len() ==> !ends_at(#[trigger] items[j], key),
    decreases items.len(),
{
    if items.len() > 0 {
        lemma_none_ends(items.skip(1), key);
        assert forall|j: int| 0 <= j < items.len() implies !ends_at(#[trigger] items[j], key) by {
            if j > 0 {
                assert(items.skip(1)[j - 1] == items[j]);
            }
        }
    }
}

/// Items that are put together are those of the first list and then those of the
/// second, each by itself.
pub proof fn law_items_in_parts(a: Seq<QueryItem>, b: Seq<QueryItem>)
    ensures
        parts(a + b) == parts(a) + parts(b),
        a.len() == 1 ==> parts(a) == seq![a[0]@],
        a.len() == 0 ==> parts(a) == Seq::<QueryPart>::empty(),
{
    assert(parts(a + b) =~= parts(a) + parts(b));
    assert(a.len() == 1 ==> parts(a) =~= seq![a[0]@]);
    assert(a.len() == 0 ==> parts(a) =~= Seq::<QueryPart>::empty());
}

/// Items that are apart stay apart without one of them.
proof fn lemma_remove_apart(items: Seq<QueryPart>, i: int)
    requires
        apart(items),
        0 <= i < items.len(),
    ensures
        apart(items.remove(i)),
        forall|x: QueryPart| #[trigger] items.remove(i).contains(x) ==> items.contains(x),
        forall|x: QueryPart| #[trigger] items.contains(x) && x != items[i] ==> items.remove(i).contains(x),
{
    let rest = items.remove(i);
    assert forall|a: int| 0 <= a < rest.len() implies (#[trigger] rest[a]).proper() by {
        assert(rest[a] == items[if a < i {
            a
        } else {
            a + 1
        }]);
    }
    assert forall|a: int, b: int| 0 <= a < b < rest.len() implies (#[trigger] rest[a]).relation(#[trigger] rest[b]) is Before by {
        let x = if a < i {
            a
        } else {
            a + 1
        };
        let y = if b < i {
            b
        } else {
            b + 1
        };
        assert(rest[a] == items[x] && rest[b] == items[y]);
    }
    assert forall|x: QueryPart| #[trigger] rest.contains(x) implies items.contains(x) by {
        let a = choose|a: int| 0 <= a < rest.len() && rest[a] == x;
        assert(items[if a < i {
            a
        } else {
            a + 1
        }] == x);
    }
    assert forall|x: QueryPart| #[trigger] items.contains(x) && x != items[i] implies rest.contains(x) by {
        let a = choose|a: int| 0 <= a < items.len() && items[a] == x;
        assert(rest[if a < i {
            a
        } else {
            a - 1
        }] == x);
    }
}

/// An item that is put in the place of all that it meets is there then, beside
/// just those that it does not meet.
pub proof fn law_item_replaces_what_it_meets(items: Seq<QueryPart>, part: QueryPart)
    requires
        apart(items),
        part.proper(),
    ensures
        apart(with_part_replacing(items, part)),
        forall|x: QueryPart| #[trigger]
            with_part_replacing(items, part).contains(x) <==> x == part || items.contains(x) && !(x.relation(part) is Meets),
    decreases items.len(),
{
    let i = seek(items, part);
    let all = with_part_replacing(items, part);
    lemma_sought(items, part);
    law_relation(part, part);
    assert(part.relation(part) is Meets) by {
        lemma_key_lt_total(part.lower(), part.upper());
        lemma_key_lt_total(part.lower(), part.lower());
        assert(part.covers(part.lower()));
    }
    if meets_one(items, part) {
        let rest = items.remove(i);
        lemma_remove_apart(items, i);
        law_item_replaces_what_it_meets(rest, part);
        law_relation(items[i], part);
        law_relation(part, items[i]);
        assert forall|x: QueryPart| #[trigger] all.contains(x) <==> x == part || items.contains(x) && !(x.relation(part) is Meets) by {
            assert(with_part_replacing(rest, part).contains(x) <==> x == part || rest.contains(x) && !(x.relation(part) is Meets));
        }
    } else {
        lemma_insert_apart(items, part);
        assert forall|j: int| 0 <= j < items.len() implies !((#[trigger] items[j]).relation(part) is Meets) by {
            law_relation(items[j], part);
            law_relation(part, items[j]);
            if j > i {
                assert(items[i].relation(items[j]) is Before);
                lemma_before_trans(part, items[i], items[j]);
            }
        }
        assert forall|x: QueryPart| #[trigger] all.contains(x) <==> x == part || items.contains(x) && !(x.relation(part) is Meets) by {
            if all.contains(x) {
                let a = choose|a: int| 0 <= a < all.len() && all[a] == x;
                if a < i {
                    assert(items[a] == x);
                } else if a > i {
                    assert(items[a - 1] == x);
                }
            }
            if x == part {
                assert(all[i] == x);
            }
            if items.contains(x) {
                let a = choose|a: int| 0 <= a < items.len() && items[a] == x;
                assert(all[if a < i {
                    a
                } else {
                    a + 1
                }] == x);
            }
        }
    }
}

/// Whether an item of a list has none behind it that it meets.
pub open spec fn unmet_behind(items: Seq<QueryPart>, i: int) -> bool {
    forall|j: int| i < j < items.len() ==> !(items[i].relation(#[trigger] items[j]) is Meets)
}

/// A query that is made of a list of proper items has them in order, none of
/// which meets another. It has just the items of the list that no later one
/// meets.
#[verifier::spinoff_prover]
#[verifier::rlimit(60)]
pub proof fn law_query_has_its_items(items: Seq<QueryPart>)
    requires
        forall|i: int| 0 <= i < items.len() ==> (#[trigger] items[i]).proper(),
    ensures
        apart(arranged(items)),
        forall|x: QueryPart| #[trigger] arranged(items).contains(x) ==> items.contains(x),
        forall|i: int| 0 <= i < items.len() && unmet_behind(items, i) ==> arranged(items).contains(#[trigger] items[i]),
        forall|x: QueryPart| #[trigger] arranged(items).contains(x) ==> exists|i: int| #[trigger]
            at_place(items, i, x) && unmet_behind(items, i),
    decreases items.len(),
{
    let all = arranged(items);
    if items.len() > 0 {
        let init = items.drop_last();
        let last = items.last();
        let n = items.len() - 1;
        assert forall|i: int| 0 <= i < init.len() implies (#[trigger] init[i]).proper() by {
            assert(init[i] == items[i]);
        }
        assert(last == items[n]);
        law_query_has_its_items(init);
        law_item_replaces_what_it_meets(arranged(init), last);
        assert forall|i: int| 0 <= i < items.len() && unmet_behind(items, i) implies all.contains(#[trigger] items[i]) by {
            if i < n {
                assert(unmet_behind(init, i)) by {
                    assert forall|j: int| i < j < init.len() implies !(init[i].relation(#[trigger] init[j]) is Meets) by {
                        assert(init[i] == items[i] && init[j] == items[j]);
                    }
                }
                assert(arranged(init).contains(init[i]));
                assert(!(items[i].relation(items[n]) is Meets));
            }
        }
        assert forall|x: QueryPart| #[trigger] all.contains(x) implies items.contains(x) && exists|i: int| #[trigger]
            at_place(items, i, x) && unmet_behind(items, i) by {
            if x == last {
                assert(at_place(items, n, x) && unmet_behind(items, n));
            } else {
                let i = choose|i: int| #[trigger] at_place(init, i, x) && unmet_behind(init, i);
                assert(items[i] == init[i]);
                assert(unmet_behind(items, i)) by {
                    assert forall|j: int| i < j < items.len() implies !(items[i].relation(#[trigger] items[j]) is Meets) by {
                        if j < n {
                            assert(init[j] == items[j]);
                        }
                    }
                }
                assert(at_place(items, i, x));
            }
        }
    }
}

/// A query that is made of proper items, no two of which meet, has just the keys
/// of these items.
pub proof fn law_query_has_its_keys(items: Seq<QueryPart>, k: Seq<u8>)
    requires
        forall|i: int| 0 <= i < items.len() ==> (#[trigger] items[i]).proper(),
        forall|i: int| 0 <= i < items.len() ==> #[trigger] unmet_behind(items, i),
    ensures
        any_covers(arranged(items), k) <==> any_covers(items, k),
{
    let all = arranged(items);
    law_query_has_its_items(items);
    if any_covers(all, k) {
        let i = choose|i: int| 0 <= i < all.len() && (#[trigger] all[i]).covers(k);
        assert(all.contains(all[i]));
        let j = choose|j: int| 0 <= j < items.len() && items[j] == all[i];
        assert(items[j].covers(k));
    }
    if any_covers(items, k) {
        let i = choose|i: int| 0 <= i < items.len() && (#[trigger] items[i]).covers(k);
        assert(unmet_behind(items, i));
        assert(all.contains(items[i]));
        let j = choose|j: int| 0 <= j < all.len() && all[j] == items[i];
        assert(all[j].covers(k));
    }
}

/// Whether an item stands at a place of a list.
pub open spec fn at_place(items: Seq<QueryPart>, i: int, x: QueryPart) -> bool {
    0 <= i < items.len() && items[i] == x
}

impl From<Vec<QueryItem>> for Query {
    fn from(items: Vec<QueryItem>) -> (r: Self)
        ensures
            r@ == arranged(parts(items@)),
    {
        Query::from_items(items)
    }
}

impl vstd::std_specs::convert::FromSpecImpl<Vec<QueryItem>> for Query {
    open spec fn obeys_from_spec() -> bool {
        false
    }

    open spec fn from_spec(items: Vec<QueryItem>) -> Self {
        arbitrary()
    }
}

impl From<Query> for Vec<QueryItem> {
    fn from(query: Query) -> (r: Self)
        ensures
            parts(r@) == query@,
    {
        query.into_items()
    }
}

impl vstd::std_specs::convert::FromSpecImpl<Query> for Vec<QueryItem> {
    open spec fn obeys_from_spec() -> bool {
        false
    }

    open spec fn from_spec(query: Query) -> Self {
        arbitrary()
    }
}

} // verus!
