//! Candidate entries and the order in which they are ranked.

use std::cmp::Ordering;
use vstd::prelude::*;

verus! {

/// One reference proposed as a match for one query.
///
/// `coverage` is the number of bigrams the reference shares with the query and
/// `length` the absolute difference of their lengths.
#[derive(Clone, Copy, Debug, PartialEq, Eq, Structural)]
pub struct Entry {
    pub ref_index: usize,
    pub coverage: usize,
    pub length: usize,
}

/// `a` ranks strictly before `b`: it has the higher coverage, or the same
/// coverage and the smaller length difference. The reference index has no
/// part in the rank.
pub open spec fn rank_before(a: Entry, b: Entry) -> bool {
    ||| a.coverage > b.coverage
    ||| (a.coverage == b.coverage && a.length < b.length)
}

/// `a` and `b` are tied in rank: neither ranks before the other.
pub open spec fn rank_tied(a: Entry, b: Entry) -> bool {
    a.coverage == b.coverage && a.length == b.length
}

/// `a` outlasts `b` on a shortlist, that is `b` is the first of the two to
/// leave: `a` ranks before `b`, or they are tied in rank and `a` has the
/// smaller reference index.
pub open spec fn outlasts(a: Entry, b: Entry) -> bool {
    rank_before(a, b) || (rank_tied(a, b) && a.ref_index < b.ref_index)
}

/// `a` outlasts `b` or is the same entry.
pub open spec fn outlasts_or_same(a: Entry, b: Entry) -> bool {
    a == b || outlasts(a, b)
}

impl Entry {
    /// Tells whether this entry ranks strictly before `other`.
    pub fn ranks_before(&self, other: &Entry) -> (b: bool)
        ensures
            b == rank_before(*self, *other),
    {
        if self.coverage != other.coverage {
            self.coverage > other.coverage
        } else {
            self.length < other.length
        }
    }

    /// Tells whether this entry outlasts `other` on a shortlist.
    pub fn outlasts(&self, other: &Entry) -> (b: bool)
        ensures
            b == outlasts(*self, *other),
    {
        if self.coverage != other.coverage {
            self.coverage > other.coverage
        } else if self.length != other.length {
            self.length < other.length
        } else {
            self.ref_index < other.ref_index
        }
    }
}

impl PartialOrd for Entry {
    /// Orders entries by rank: `Less` means "ranks before", and entries tied
    /// in rank are `Equal` whatever their reference indices.
    fn partial_cmp(&self, other: &Entry) -> (r: Option<Ordering>) {
        if self.ranks_before(other) {
            Some(Ordering::Less)
        } else if other.ranks_before(self) {
            Some(Ordering::Greater)
        } else {
            Some(Ordering::Equal)
        }
    }
}

impl vstd::std_specs::cmp::PartialOrdSpecImpl for Entry {
    open spec fn obeys_partial_cmp_spec() -> bool {
        true
    }

    open spec fn partial_cmp_spec(&self, other: &Entry) -> Option<Ordering> {
        if rank_before(*self, *other) {
            Some(Ordering::Less)
        } else if rank_before(*other, *self) {
            Some(Ordering::Greater)
        } else {
            Some(Ordering::Equal)
        }
    }
}

/// Builds the entry for reference `ref_index` with the given coverage and
/// length difference.
pub fn transform(ref_index: usize, coverage: usize, length: usize) -> (entry: Entry)
    ensures
        entry == (Entry { ref_index, coverage, length }),
{
    Entry { ref_index, coverage, length }
}

/// Reads an entry back as `(ref_index, coverage, length)`.
pub fn reverse_transform(entry: &Entry) -> (parts: (usize, usize, usize))
    ensures
        parts == (entry.ref_index, entry.coverage, entry.length),
{
    (entry.ref_index, entry.coverage, entry.length)
}

} // verus!
