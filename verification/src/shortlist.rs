//! The bounded shortlist of one query: the best-ranked entries offered so
//! far, held in a binary heap whose root is the first of them to leave.

use crate::entry::{outlasts_or_same, rank_before, Entry};
use crate::topk::{
    is_worst, lemma_worst_ranks_last, lemma_worst_unique, offer, ranks_last, worst_of,
};
use vstd::multiset::Multiset;
use vstd::prelude::*;

verus! {

/// The capacity of a shortlist made by [`Shortlist::new`].
pub const SHORTLIST_CAPACITY: usize = 20;

/// The entry at `i` outlasts its parent in the heap, or is the same.
pub open spec fn ordered_at(s: Seq<Entry>, i: int) -> bool {
    outlasts_or_same(s[i], s[(i - 1) / 2])
}

/// Every entry but the root outlasts its parent, or is the same.
pub open spec fn heap_ordered(s: Seq<Entry>) -> bool {
    forall|i: int| 1 <= i < s.len() ==> #[trigger] ordered_at(s, i)
}

/// The heap order holds everywhere but between `hole` and its parent, and
/// the children of `hole` are in order with that parent.
spec fn ordered_but_above(s: Seq<Entry>, hole: int) -> bool {
    &&& forall|i: int| 1 <= i < s.len() && i != hole ==> #[trigger] ordered_at(s, i)
    &&& forall|i: int|
        1 <= i < s.len() && 1 <= hole && (i - 1) / 2 == hole ==> outlasts_or_same(
            #[trigger] s[i],
            s[(hole - 1) / 2],
        )
}

/// The heap order holds everywhere but between `hole` and its children,
/// and those children are in order with the parent of `hole`.
spec fn ordered_but_below(s: Seq<Entry>, hole: int) -> bool {
    &&& forall|i: int| 1 <= i < s.len() && (i - 1) / 2 != hole ==> #[trigger] ordered_at(s, i)
    &&& forall|i: int|
        1 <= i < s.len() && 1 <= hole && (i - 1) / 2 == hole ==> outlasts_or_same(
            #[trigger] s[i],
            s[(hole - 1) / 2],
        )
}

/// Writing one position of a sequence takes out what stood there and puts
/// in what was written.
proof fn lemma_update_multiset(s: Seq<Entry>, i: int, x: Entry)
    requires
        0 <= i < s.len(),
    ensures
        s.update(i, x).to_multiset() == s.to_multiset().remove(s[i]).insert(x),
        s.to_multiset().count(s[i]) > 0,
{
    broadcast use vstd::seq_lib::group_to_multiset_ensures;

    assert(s.update(i, x) =~= s.remove(i).insert(i, x));
    vstd::seq_lib::to_multiset_remove(s, i);
    vstd::seq_lib::to_multiset_insert(s.remove(i), i, x);
    assert(s.contains(s[i]));
}

/// Exchanging two positions of a sequence keeps its entries.
proof fn lemma_swap_multiset(s: Seq<Entry>, a: int, b: int)
    requires
        0 <= a < s.len(),
        0 <= b < s.len(),
    ensures
        s.update(a, s[b]).update(b, s[a]).to_multiset() == s.to_multiset(),
{
    lemma_update_multiset(s, a, s[b]);
    lemma_update_multiset(s, b, s[a]);
    lemma_update_multiset(s.update(a, s[b]), b, s[a]);
    let m = s.to_multiset();
    if a == b {
        assert(s.update(a, s[b]).update(b, s[a]) =~= s);
    } else {
        assert(s.update(a, s[b])[b] == s[b]);
        assert(m.remove(s[a]).insert(s[b]).remove(s[b]).insert(s[a]) =~= m);
    }
}

/// In a heap the root outlasts no other entry.
proof fn lemma_root_bounds(s: Seq<Entry>, i: int)
    requires
        heap_ordered(s),
        0 <= i < s.len(),
    ensures
        outlasts_or_same(s[i], s[0]),
    decreases i,
{
    if i > 0 {
        assert(ordered_at(s, i));
        lemma_root_bounds(s, (i - 1) / 2);
    }
}

/// The root of a non-empty heap is the first of its entries to leave.
proof fn lemma_root_is_worst(s: Seq<Entry>)
    requires
        heap_ordered(s),
        s.len() > 0,
    ensures
        is_worst(s.to_multiset(), s[0]),
        worst_of(s.to_multiset()) == s[0],
{
    broadcast use vstd::seq_lib::group_to_multiset_ensures;

    let m = s.to_multiset();
    assert(s.contains(s[0]));
    assert forall|x: Entry| #[trigger] m.contains(x) implies outlasts_or_same(x, s[0]) by {
        assert(s.contains(x));
        let i = choose|i: int| 0 <= i < s.len() && s[i] == x;
        lemma_root_bounds(s, i);
    }
    lemma_worst_unique(m, s[0], worst_of(m));
}

/// Exchanges two entries of a vector.
fn swap_entries(v: &mut Vec<Entry>, a: usize, b: usize)
    requires
        a < old(v).len(),
        b < old(v).len(),
    ensures
        final(v)@ == old(v)@.update(a as int, old(v)@[b as int]).update(b as int, old(v)@[a as int]),
        final(v)@.to_multiset() == old(v)@.to_multiset(),
{
    let first: Entry = v[a];
    let second: Entry = v[b];
    v[a] = second;
    v[b] = first;
    proof {
        lemma_swap_multiset(old(v)@, a as int, b as int);
    }
}

/// Restores the heap order by moving the entry at `start` towards the root.
fn sift_up(v: &mut Vec<Entry>, start: usize)
    requires
        start < old(v).len(),
        ordered_but_above(old(v)@, start as int),
    ensures
        final(v)@.to_multiset() == old(v)@.to_multiset(),
        final(v)@.len() == old(v)@.len(),
        heap_ordered(final(v)@),
{
    let mut i: usize = start;
    let mut settled: bool = false;
    while i > 0 && !settled
        invariant
            i < v.len(),
            v@.len() == old(v)@.len(),
            v@.to_multiset() == old(v)@.to_multiset(),
            settled ==> heap_ordered(v@),
            !settled ==> ordered_but_above(v@, i as int),
        decreases i + if settled { 0int } else { 1int },
    {
        let up: usize = (i - 1) / 2;
        if v[up].outlasts(&v[i]) {
            let ghost before = v@;
            swap_entries(v, i, up);
            proof {
                let after = v@;
                assert forall|j: int| 1 <= j < after.len() && j != up implies #[trigger] ordered_at(
                    after,
                    j,
                ) by {
                    if j == i {
                    } else if (j - 1) / 2 == i as int {
                        assert(outlasts_or_same(before[j], before[(i - 1) / 2]));
                    } else if (j - 1) / 2 == up as int {
                        assert(ordered_at(before, j));
                    } else {
                        assert(ordered_at(before, j));
                    }
                }
                assert forall|j: int|
                    1 <= j < after.len() && 1 <= up && (j - 1) / 2 == up as int implies outlasts_or_same(
                    #[trigger] after[j],
                    after[(up - 1) / 2],
                ) by {
                    assert(ordered_at(before, up as int));
                    if j != i {
                        assert(ordered_at(before, j));
                    }
                }
            }
            i = up;
        } else {
            proof {
                assert forall|j: int| 1 <= j < v@.len() implies #[trigger] ordered_at(v@, j) by {
                    if j != i {
                        assert(ordered_at(v@, j));
                    }
                }
            }
            settled = true;
        }
    }
    proof {
        if !settled {
            assert forall|j: int| 1 <= j < v@.len() implies #[trigger] ordered_at(v@, j) by {
                assert(j != i);
            }
        }
    }
}

/// Restores the heap order by moving the entry at `start` towards the
/// leaves.
fn sift_down(v: &mut Vec<Entry>, start: usize)
    requires
        start < old(v).len(),
        ordered_but_below(old(v)@, start as int),
    ensures
        final(v)@.to_multiset() == old(v)@.to_multiset(),
        final(v)@.len() == old(v)@.len(),
        heap_ordered(final(v)@),
{
    let n: usize = v.len();
    let mut i: usize = start;
    let mut settled: bool = false;
    while i < n / 2 && !settled
        invariant
            n == v.len(),
            i < n,
            v@.len() == old(v)@.len(),
            v@.to_multiset() == old(v)@.to_multiset(),
            settled ==> heap_ordered(v@),
            !settled ==> ordered_but_below(v@, i as int),
        decreases n - i + if settled { 0int } else { 1int },
    {
        let left: usize = 2 * i + 1;
        let right: usize = left + 1;
        let mut child: usize = left;
        if right < n && v[left].outlasts(&v[right]) {
            child = right;
        }
        if v[i].outlasts(&v[child]) {
            let ghost before = v@;
            swap_entries(v, i, child);
            proof {
                let after = v@;
                assert forall|j: int|
                    1 <= j < after.len() && (j - 1) / 2 != child as int implies #[trigger] ordered_at(
                    after,
                    j,
                ) by {
                    if j == child {
                    } else if (j - 1) / 2 == i as int {
                        assert(j == left || j == right);
                    } else if j == i {
                        assert(outlasts_or_same(before[child as int], before[(i - 1) / 2]));
                    } else {
                        assert(ordered_at(before, j));
                    }
                }
                assert forall|j: int|
                    1 <= j < after.len() && 1 <= child && (j - 1) / 2 == child as int implies outlasts_or_same(
                    #[trigger] after[j],
                    after[(child - 1) / 2],
                ) by {
                    assert(ordered_at(before, j));
                }
            }
            i = child;
        } else {
            proof {
                assert forall|j: int| 1 <= j < v@.len() implies #[trigger] ordered_at(v@, j) by {
                    if (j - 1) / 2 == i as int {
                        assert(j == left || j == right);
                    } else {
                        assert(ordered_at(v@, j));
                    }
                }
            }
            settled = true;
        }
    }
    proof {
        if !settled {
            assert forall|j: int| 1 <= j < v@.len() implies #[trigger] ordered_at(v@, j) by {
                assert((j - 1) / 2 != i as int);
            }
        }
    }
}

/// The best-ranked entries offered so far, at most `capacity()` of them.
pub struct Shortlist {
    heap: Vec<Entry>,
    limit: usize,
}

impl Shortlist {
    /// The entries on the shortlist.
    pub closed spec fn entries(&self) -> Multiset<Entry> {
        self.heap@.to_multiset()
    }

    /// The number of entries the shortlist can hold.
    pub closed spec fn capacity(&self) -> nat {
        self.limit as nat
    }

    /// The shortlist is within its capacity and its heap is in order.
    pub closed spec fn wf(&self) -> bool {
        &&& self.heap@.len() <= self.limit
        &&& heap_ordered(self.heap@)
    }

    /// A well-formed shortlist holds no more entries than its capacity.
    pub proof fn lemma_within_capacity(&self)
        requires
            self.wf(),
        ensures
            self.entries().len() <= self.capacity(),
    {
        broadcast use vstd::seq_lib::group_to_multiset_ensures;

    }

    /// An empty shortlist of the usual capacity.
    pub fn new() -> (shortlist: Shortlist)
        ensures
            shortlist.wf(),
            shortlist.capacity() == SHORTLIST_CAPACITY,
            shortlist.entries() == Multiset::<Entry>::empty(),
    {
        Shortlist::with_capacity(SHORTLIST_CAPACITY)
    }

    /// An empty shortlist that can hold `limit` entries.
    pub fn with_capacity(limit: usize) -> (shortlist: Shortlist)
        ensures
            shortlist.wf(),
            shortlist.capacity() == limit,
            shortlist.entries() == Multiset::<Entry>::empty(),
    {
        let heap: Vec<Entry> = Vec::new();
        proof {
            broadcast use vstd::seq_lib::group_to_multiset_ensures;

            assert(heap@.to_multiset().len() == 0);
            vstd::multiset::lemma_multiset_empty_len(heap@.to_multiset());
            assert(heap@.to_multiset() =~= Multiset::<Entry>::empty());
        }
        Shortlist { heap, limit }
    }

    /// The number of entries on the shortlist.
    pub fn len(&self) -> (n: usize)
        ensures
            n == self.entries().len(),
    {
        proof {
            broadcast use vstd::seq_lib::group_to_multiset_ensures;

        }
        self.heap.len()
    }

    /// The number of entries the shortlist can hold.
    pub fn limit(&self) -> (n: usize)
        ensures
            n == self.capacity(),
    {
        self.limit
    }

    /// The worst entry on the shortlist, if it has any: a worst-ranked one,
    /// and of those the one with the largest reference index.
    pub fn peek(&self) -> (worst: Option<Entry>)
        requires
            self.wf(),
        ensures
            match worst {
                Some(w) => is_worst(self.entries(), w) && ranks_last(self.entries(), w),
                None => self.entries().len() == 0,
            },
    {
        proof {
            broadcast use vstd::seq_lib::group_to_multiset_ensures;

        }
        if self.heap.len() == 0 {
            None
        } else {
            proof {
                lemma_root_is_worst(self.heap@);
                lemma_worst_ranks_last(self.entries());
            }
            Some(self.heap[0])
        }
    }

    /// Takes the worst entry off the shortlist, if it has any: a worst-ranked
    /// one, and of those the one with the largest reference index.
    pub fn pop(&mut self) -> (worst: Option<Entry>)
        requires
            old(self).wf(),
        ensures
            final(self).wf(),
            final(self).capacity() == old(self).capacity(),
            match worst {
                Some(w) => is_worst(old(self).entries(), w) && ranks_last(old(self).entries(), w)
                    && final(self).entries() == old(self).entries().remove(w),
                None => old(self).entries().len() == 0 && final(self).entries() == old(
                    self,
                ).entries(),
            },
    {
        proof {
            broadcast use vstd::seq_lib::group_to_multiset_ensures;

        }
        let n: usize = self.heap.len();
        if n == 0 {
            return None;
        }
        let ghost before = self.heap@;
        proof {
            lemma_root_is_worst(before);
            lemma_worst_ranks_last(before.to_multiset());
        }
        let worst: Entry = self.heap[0];
        let last: Entry = self.heap[n - 1];
        self.heap[0] = last;
        let ghost moved = self.heap@;
        let _ = self.heap.pop();
        proof {
            lemma_update_multiset(before, 0, last);
            assert(self.heap@ =~= moved.remove(n - 1));
            vstd::seq_lib::to_multiset_remove(moved, n - 1);
            assert(moved[n - 1] == last);
            assert(self.heap@.to_multiset() =~= before.to_multiset().remove(worst));
        }
        if n > 1 {
            proof {
                let s = self.heap@;
                assert forall|j: int| 1 <= j < s.len() && (j - 1) / 2 != 0 implies #[trigger] ordered_at(
                    s,
                    j,
                ) by {
                    assert(ordered_at(before, j));
                }
            }
            sift_down(&mut self.heap, 0);
        }
        Some(worst)
    }

    /// Offers an entry to the shortlist. While there is room it is taken.
    /// Once the shortlist is full it is taken only if it ranks strictly
    /// before the worst entry, which then leaves; of several entries tied
    /// for worst the one with the largest reference index leaves.
    pub fn insert_if_better(&mut self, entry: Entry)
        requires
            old(self).wf(),
        ensures
            final(self).wf(),
            final(self).capacity() == old(self).capacity(),
            final(self).entries() == offer(old(self).entries(), entry, old(self).capacity()),
    {
        proof {
            broadcast use vstd::seq_lib::group_to_multiset_ensures;

        }
        let n: usize = self.heap.len();
        let ghost before = self.heap@;
        let ghost m = before.to_multiset();
        if n < self.limit {
            self.heap.push(entry);
            proof {
                let s = self.heap@;
                assert(s.to_multiset() =~= m.insert(entry));
                assert forall|j: int| 1 <= j < s.len() && j != n implies #[trigger] ordered_at(
                    s,
                    j,
                ) by {
                    assert(ordered_at(before, j));
                }
            }
            sift_up(&mut self.heap, n);
        } else if n > 0 {
            proof {
                lemma_root_is_worst(before);
            }
            if entry.ranks_before(&self.heap[0]) {
                proof {
                    lemma_update_multiset(before, 0, entry);
                }
                self.heap[0] = entry;
                proof {
                    let s = self.heap@;
                    assert forall|j: int|
                        1 <= j < s.len() && (j - 1) / 2 != 0 implies #[trigger] ordered_at(s, j) by {
                        assert(ordered_at(before, j));
                    }
                }
                sift_down(&mut self.heap, 0);
            }
        }
    }

    /// The entries on the shortlist, in no particular order.
    pub fn to_vec(&self) -> (listed: Vec<Entry>)
        ensures
            listed@.to_multiset() == self.entries(),
    {
        self.heap.clone()
    }
}

/// Offers an entry to a shortlist. While there is room it is taken. Once
/// the shortlist is full it is taken only if it ranks strictly before the
/// worst-ranked entries, and then exactly one of those leaves: the one with
/// the largest reference index. Otherwise the shortlist stays as it is.
pub fn update_heap(heap: &mut Shortlist, entry: Entry)
    requires
        old(heap).wf(),
    ensures
        final(heap).wf(),
        final(heap).capacity() == old(heap).capacity(),
        final(heap).entries() == offer(old(heap).entries(), entry, old(heap).capacity()),
        old(heap).entries().len() < old(heap).capacity() ==> final(heap).entries() == old(
            heap,
        ).entries().insert(entry),
        forall|w: Entry|
            old(heap).entries().len() == old(heap).capacity() && #[trigger] ranks_last(
                old(heap).entries(),
                w,
            ) && rank_before(entry, w) ==> ranks_last(
                old(heap).entries(),
                worst_of(old(heap).entries()),
            ) && final(heap).entries() == old(heap).entries().remove(
                worst_of(old(heap).entries()),
            ).insert(entry),
        forall|w: Entry|
            old(heap).entries().len() == old(heap).capacity() && #[trigger] ranks_last(
                old(heap).entries(),
                w,
            ) && !rank_before(entry, w) ==> final(heap).entries() == old(heap).entries(),
        old(heap).capacity() == 0 ==> final(heap).entries() == old(heap).entries(),
{
    proof {
        heap.lemma_within_capacity();
        if heap.entries().len() > 0 {
            lemma_worst_ranks_last(heap.entries());
        }
    }
    heap.insert_if_better(entry);
}

} // verus!
