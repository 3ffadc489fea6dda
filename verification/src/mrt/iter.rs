//! Walking what a store held, entry by entry.

use std::sync::Arc;

use vstd::prelude::*;

use crate::bits::{key_copy, key_lt};
use crate::mrt::cursor::Cursor;
use crate::mrt::keys::{contents, sound};
use crate::mrt::node::MrtNodeInner;
use crate::mrt::order::{lemma_flat_lists, lemma_items_back, lemma_items_from, lemma_items_up_to, lists, part, rows_from};
use crate::mrt::route::MAX_KEY_LEN;
use crate::mrt::scan::{entry, rows_view};
use crate::mrt::tree::root_ref;

verus! {

/// The entries that a cursor is still to walk.
pub open spec fn rows_ahead<'a>(cursor: Option<Cursor<'a, &'a Arc<MrtNodeInner>>>) -> Seq<(Seq<u8>, Seq<u8>)> {
    match cursor {
        Some(c) => rows_from(c.items()),
        None => Seq::empty(),
    }
}

/// A cursor that walks the given way, and meets nothing but entries.
pub open spec fn all_entries<'a>(cursor: Option<Cursor<'a, &'a Arc<MrtNodeInner>>>, forward: bool) -> bool {
    cursor matches Some(c) ==> c.goes_forward() == forward && forall|i: int|
        0 <= i < c.items().len() ==> entry(#[trigger] c.items()[i]) is Ok
}

/// An entry as a value.
pub open spec fn row_view(row: (Vec<u8>, Vec<u8>)) -> (Seq<u8>, Seq<u8>) {
    (row.0@, row.1@)
}

/// What taking the next entry does to the entries ahead.
pub open spec fn took(
    r: Option<(Vec<u8>, Vec<u8>)>,
    before: Seq<(Seq<u8>, Seq<u8>)>,
    after: Seq<(Seq<u8>, Seq<u8>)>,
) -> bool {
    match r {
        Some(row) => before.len() > 0 && row_view(row) == before[0] && after == before.skip(1),
        None => before.len() == 0 && after.len() == 0,
    }
}

/// Entries are taken one by one, the first one ahead first, and none is lost; there is
/// no next entry just if none is ahead.
pub proof fn law_entries_are_taken_in_turn(
    r: Option<(Vec<u8>, Vec<u8>)>,
    before: Seq<(Seq<u8>, Seq<u8>)>,
    after: Seq<(Seq<u8>, Seq<u8>)>,
)
    requires
        took(r, before, after),
    ensures
        r is None <==> before.len() == 0,
        r matches Some((key, value)) ==> before == seq![(key@, value@)] + after,
        r is None ==> after.len() == 0,
{
    if let Some((key, value)) = r {
        assert(before =~= seq![(key@, value@)] + after);
    }
}

/// Takes the next entry.
fn step<'a>(cursor: Option<Cursor<'a, &'a Arc<MrtNodeInner>>>, forward: bool) -> (r: (
    Option<(Vec<u8>, Vec<u8>)>,
    Option<Cursor<'a, &'a Arc<MrtNodeInner>>>,
))
    requires
        all_entries(cursor, forward),
    ensures
        all_entries(r.1, forward),
        took(r.0, rows_ahead(cursor), rows_ahead(r.1)),
{
    let mut c = match cursor {
        Some(c) => c,
        None => {
            return (None, None);
        },
    };
    let ghost before = c.items();
    let walked = if forward {
        c.next()
    } else {
        c.prev()
    };
    match walked {
        Ok(Some((key, value))) => {
            proof {
                let after = c.items();
                assert forall|i: int| 0 <= i < after.len() implies entry(#[trigger] after[i]) is Ok by {
                    assert(after[i] == before[i + 1]);
                }
                assert(rows_from(after) =~= rows_from(before).skip(1));
            }
            (Some((key, key_copy(value))), Some(c))
        },
        _ => (None, None),
    }
}

/// The entries of a store, first to last.
pub struct Iter<'a> {
    cursor: Option<Cursor<'a, &'a Arc<MrtNodeInner>>>,
}

impl<'a> Iter<'a> {
    #[verifier::type_invariant]
    spec fn inv(self) -> bool {
        all_entries(self.cursor, true)
    }

    /// The entries ahead.
    pub closed spec fn rows(&self) -> Seq<(Seq<u8>, Seq<u8>)> {
        rows_ahead(self.cursor)
    }

    /// All entries.
    pub fn new(root: Option<&'a Arc<MrtNodeInner>>) -> (r: Self)
        requires
            sound(root_ref(root)),
        ensures
            lists(r.rows(), contents(root_ref(root))),
    {
        match root {
            Some(root) => {
                let _n: u16 = root.depth_below();
                proof {
                    lemma_flat_lists(root.trie());
                }
                Iter { cursor: Some(Cursor::first(root)) }
            },
            None => Iter { cursor: None },
        }
    }

    /// The entries from `start_key` on; none if it is too long for a key.
    pub fn from_key(root: Option<&'a Arc<MrtNodeInner>>, start_key: &[u8]) -> (r: Self)
        requires
            sound(root_ref(root)),
        ensures
            if start_key@.len() <= MAX_KEY_LEN {
                lists(r.rows(), part(contents(root_ref(root)), |k: Seq<u8>| !key_lt(k, start_key@)))
            } else {
                r.rows().len() == 0
            },
    {
        match root {
            Some(root) => {
                let _n: u16 = root.depth_below();
                proof {
                    lemma_items_from(root.trie(), start_key@);
                }
                match Cursor::seek_ge(root, start_key) {
                    Ok(c) => Iter { cursor: Some(c) },
                    Err(_) => Iter { cursor: None },
                }
            },
            None => Iter { cursor: None },
        }
    }

    /// Takes the next entry.
    pub fn next(&mut self) -> (r: Option<(Vec<u8>, Vec<u8>)>)
        ensures
            took(r, old(self).rows(), final(self).rows()),
    {
        let mut taken = Iter { cursor: None };
        std::mem::swap(self, &mut taken);
        proof {
            use_type_invariant(&taken);
        }
        let (r, cursor) = step(taken.cursor, true);
        *self = Iter { cursor };
        r
    }

    /// Takes all entries ahead.
    pub fn collect(self) -> (r: Vec<(Vec<u8>, Vec<u8>)>)
        ensures
            rows_view(r@) == self.rows(),
    {
        let mut it = self;
        let mut out: Vec<(Vec<u8>, Vec<u8>)> = Vec::new();
        assert(rows_view(out@) + it.rows() =~= self.rows());
        loop
            invariant
                rows_view(out@) + it.rows() == self.rows(),
            decreases it.rows().len(),
        {
            let ghost before = it.rows();
            match it.next() {
                Some(row) => {
                    let ghost old_out = out@;
                    out.push(row);
                    proof {
                        assert(rows_view(out@) =~= rows_view(old_out).push(row_view(row)));
                        assert(rows_view(old_out) + before =~= rows_view(out@) + before.skip(1));
                    }
                },
                None => {
                    assert(rows_view(out@) =~= self.rows());
                    return out;
                },
            }
        }
    }
}

/// The entries of a store, last to first.
pub struct ReverseIter<'a> {
    cursor: Option<Cursor<'a, &'a Arc<MrtNodeInner>>>,
}

impl<'a> ReverseIter<'a> {
    #[verifier::type_invariant]
    spec fn inv(self) -> bool {
        all_entries(self.cursor, false)
    }

    /// The entries ahead.
    pub closed spec fn rows(&self) -> Seq<(Seq<u8>, Seq<u8>)> {
        rows_ahead(self.cursor)
    }

    /// All entries.
    pub fn new(root: Option<&'a Arc<MrtNodeInner>>) -> (r: Self)
        requires
            sound(root_ref(root)),
        ensures
            lists(r.rows().reverse(), contents(root_ref(root))),
    {
        match root {
            Some(root) => {
                let _n: u16 = root.depth_below();
                proof {
                    lemma_items_back(root.trie());
                }
                let cursor = Cursor::last(root);
                ReverseIter { cursor: Some(cursor) }
            },
            None => {
                let r = ReverseIter { cursor: None };
                assert(r.rows().reverse() =~= Seq::empty());
                r
            },
        }
    }

    /// The entries up to and including `end_key`; none if it is too long for a key.
    pub fn from_key_inclusive(root: Option<&'a Arc<MrtNodeInner>>, end_key: &[u8]) -> (r: Self)
        requires
            sound(root_ref(root)),
        ensures
            if end_key@.len() <= MAX_KEY_LEN {
                lists(r.rows().reverse(), part(contents(root_ref(root)), |k: Seq<u8>| !key_lt(end_key@, k)))
            } else {
                r.rows().len() == 0
            },
    {
        match root {
            Some(root) => {
                let _n: u16 = root.depth_below();
                proof {
                    lemma_items_up_to(root.trie(), end_key@);
                }
                match Cursor::seek_le(root, end_key) {
                    Ok(c) => ReverseIter { cursor: Some(c) },
                    Err(_) => ReverseIter { cursor: None },
                }
            },
            None => {
                let r = ReverseIter { cursor: None };
                assert(r.rows().reverse() =~= Seq::empty());
                r
            },
        }
    }

    /// Takes the next entry.
    pub fn next(&mut self) -> (r: Option<(Vec<u8>, Vec<u8>)>)
        ensures
            took(r, old(self).rows(), final(self).rows()),
    {
        let mut taken = ReverseIter { cursor: None };
        std::mem::swap(self, &mut taken);
        proof {
            use_type_invariant(&taken);
        }
        let (r, cursor) = step(taken.cursor, false);
        *self = ReverseIter { cursor };
        r
    }

    /// Takes all entries ahead.
    pub fn collect(self) -> (r: Vec<(Vec<u8>, Vec<u8>)>)
        ensures
            rows_view(r@) == self.rows(),
    {
        let mut it = self;
        let mut out: Vec<(Vec<u8>, Vec<u8>)> = Vec::new();
        assert(rows_view(out@) + it.rows() =~= self.rows());
        loop
            invariant
                rows_view(out@) + it.rows() == self.rows(),
            decreases it.rows().len(),
        {
            let ghost before = it.rows();
            match it.next() {
                Some(row) => {
                    let ghost old_out = out@;
                    out.push(row);
                    proof {
                        assert(rows_view(out@) =~= rows_view(old_out).push(row_view(row)));
                        assert(rows_view(old_out) + before =~= rows_view(out@) + before.skip(1));
                    }
                },
                None => {
                    assert(rows_view(out@) =~= self.rows());
                    return out;
                },
            }
        }
    }
}

} // verus!
