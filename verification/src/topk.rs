//! Keeping the best-ranked entries of a growing collection, stated on
//! multisets of entries.

use crate::entry::{outlasts_or_same, rank_before, rank_tied, Entry};
use vstd::multiset::Multiset;
use vstd::prelude::*;

verus! {

/// `w` is the entry of `m` that is first to leave: it ranks last, and of
/// the entries tied with it in rank it has the largest reference index.
pub open spec fn is_worst(m: Multiset<Entry>, w: Entry) -> bool {
    &&& m.contains(w)
    &&& forall|x: Entry| #[trigger] m.contains(x) ==> outlasts_or_same(x, w)
}

/// The entry of a non-empty multiset that is first to leave.
pub open spec fn worst_of(m: Multiset<Entry>) -> Entry {
    choose|w: Entry| is_worst(m, w)
}

/// `w` is a worst-ranked entry of `m`: it is in `m` and it ranks before
/// none of the entries of `m`. Several entries can be, all tied in rank.
pub open spec fn ranks_last(m: Multiset<Entry>, w: Entry) -> bool {
    &&& m.contains(w)
    &&& forall|x: Entry| #[trigger] m.contains(x) ==> !rank_before(w, x)
}

/// What a selection of capacity `k` holds after `e` was offered to it.
/// While there is room `e` joins. Once it is full, `e` joins only if it
/// ranks strictly before the worst entry, and then that one leaves.
/// Otherwise nothing changes.
pub open spec fn offer(m: Multiset<Entry>, e: Entry, k: nat) -> Multiset<Entry> {
    if m.len() < k {
        m.insert(e)
    } else if m.len() > 0 && rank_before(e, worst_of(m)) {
        m.remove(worst_of(m)).insert(e)
    } else {
        m
    }
}

/// What a selection of capacity `k` holds after a sequence of entries was
/// offered to it one by one.
pub open spec fn offer_all(m: Multiset<Entry>, offered: Seq<Entry>, k: nat) -> Multiset<Entry>
    decreases offered.len(),
{
    if offered.len() == 0 {
        m
    } else {
        offer(offer_all(m, offered.drop_last(), k), offered.last(), k)
    }
}

/// `s` is a selection of the `k` best entries of `m`: it is taken from `m`,
/// it holds `k` entries or all of `m` if that is fewer, and nothing that was
/// left out ranks strictly before anything that was taken.
pub open spec fn is_top(s: Multiset<Entry>, m: Multiset<Entry>, k: nat) -> bool {
    &&& s.subset_of(m)
    &&& s.len() == if m.len() <= k {
        m.len()
    } else {
        k
    }
    &&& forall|x: Entry, y: Entry|
        #![trigger s.count(x), m.count(y)]
        s.count(x) > 0 && m.count(y) > s.count(y) ==> !rank_before(y, x)
}

/// `s` is the selection of the `k` best entries of `m` in which, of entries
/// tied in rank, those with the smaller reference index are taken first:
/// what sorting `m` by rank, without reordering ties that stand by rising
/// index, and cutting after `k` entries would leave.
pub open spec fn is_stable_top(s: Multiset<Entry>, m: Multiset<Entry>, k: nat) -> bool {
    &&& s.subset_of(m)
    &&& s.len() == if m.len() <= k {
        m.len()
    } else {
        k
    }
    &&& forall|x: Entry, y: Entry|
        #![trigger s.count(x), m.count(y)]
        s.count(x) > 0 && m.count(y) > s.count(y) ==> outlasts_or_same(x, y)
}

/// The entries of a sequence stand by strictly rising reference index.
pub open spec fn rising(offered: Seq<Entry>) -> bool {
    forall|i: int, j: int|
        0 <= i < j < offered.len() ==> (#[trigger] offered[i]).ref_index < (
        #[trigger] offered[j]).ref_index
}

/// A multiset inside another of the same size is that other.
pub proof fn lemma_subset_same_len(a: Multiset<Entry>, b: Multiset<Entry>)
    requires
        a.subset_of(b),
        a.len() == b.len(),
    ensures
        a == b,
{
    let d = b.sub(a);
    vstd::multiset::axiom_len_sub(b, a);
    vstd::multiset::lemma_multiset_empty_len(d);
    assert forall|v: Entry| a.count(v) == b.count(v) by {
        assert(d.count(v) == 0);
        assert(a.count(v) <= b.count(v));
    }
    assert(a =~= b);
}

/// Taking one entry out of a multiset that holds it leaves one fewer.
pub proof fn lemma_remove_len(m: Multiset<Entry>, a: Entry)
    requires
        m.contains(a),
    ensures
        m.remove(a).len() == m.len() - 1,
{
    assert(Multiset::singleton(a).subset_of(m)) by {
        assert forall|v: Entry| Multiset::singleton(a).count(v) <= m.count(v) by {
            if v != a {
                vstd::multiset::axiom_multiset_singleton_different(a, v);
            }
        }
    }
    vstd::multiset::axiom_len_sub(m, Multiset::singleton(a));
}

/// Every non-empty multiset has an entry that is first to leave.
pub proof fn lemma_worst_exists(m: Multiset<Entry>)
    requires
        m.len() > 0,
    ensures
        is_worst(m, worst_of(m)),
    decreases m.len(),
{
    let a = m.choose();
    assert(m.count(a) > 0);
    let rest = m.remove(a);
    lemma_remove_len(m, a);
    if rest.len() == 0 {
        vstd::multiset::lemma_multiset_empty_len(rest);
        assert forall|x: Entry| #[trigger] m.contains(x) implies outlasts_or_same(x, a) by {
            if x != a {
                assert(rest.count(x) == m.count(x));
            }
        }
        assert(is_worst(m, a));
    } else {
        lemma_worst_exists(rest);
        let w0 = worst_of(rest);
        let w = if outlasts_or_same(w0, a) {
            a
        } else {
            w0
        };
        assert(rest.contains(w0));
        assert(m.contains(w0));
        assert forall|x: Entry| #[trigger] m.contains(x) implies outlasts_or_same(x, w) by {
            if x != a {
                assert(rest.count(x) == m.count(x));
                assert(rest.contains(x));
                assert(outlasts_or_same(x, w0));
            }
        }
        assert(is_worst(m, w));
    }
}

/// Only one entry of a multiset is first to leave.
pub proof fn lemma_worst_unique(m: Multiset<Entry>, a: Entry, b: Entry)
    requires
        is_worst(m, a),
        is_worst(m, b),
    ensures
        a == b,
{
    assert(m.contains(a));
    assert(m.contains(b));
}

/// The entry that is first to leave is a worst-ranked entry, and every
/// worst-ranked entry is tied with it in rank.
pub proof fn lemma_worst_ranks_last(m: Multiset<Entry>)
    requires
        m.len() > 0,
    ensures
        ranks_last(m, worst_of(m)),
        forall|w: Entry| #[trigger] ranks_last(m, w) ==> rank_tied(w, worst_of(m)),
{
    lemma_worst_exists(m);
    let r = worst_of(m);
    assert forall|x: Entry| #[trigger] m.contains(x) implies !rank_before(r, x) by {
        assert(outlasts_or_same(x, r));
    }
    assert forall|w: Entry| #[trigger] ranks_last(m, w) implies rank_tied(w, r) by {
        assert(m.contains(w));
        assert(outlasts_or_same(w, r));
        assert(m.contains(r));
        assert(!rank_before(w, r));
    }
}

/// Offering one more entry to a selection of the `k` best of `m` gives a
/// selection of the `k` best of `m` with that entry.
pub proof fn lemma_offer_keeps_top(s: Multiset<Entry>, m: Multiset<Entry>, e: Entry, k: nat)
    requires
        is_top(s, m, k),
    ensures
        is_top(offer(s, e, k), m.insert(e), k),
{
    let m1 = m.insert(e);
    assert(m1.len() == m.len() + 1);
    if s.len() < k {
        lemma_subset_same_len(s, m);
    } else if s.len() > 0 {
        lemma_worst_exists(s);
        let w = worst_of(s);
        assert(s.contains(w));
        if rank_before(e, w) {
            let s2 = s.remove(w).insert(e);
            lemma_remove_len(s, w);
            assert(s2.len() == k);
            assert(s2.subset_of(m1)) by {
                assert forall|v: Entry| s2.count(v) <= m1.count(v) by {
                    assert(s.count(v) <= m.count(v));
                }
            }
            assert forall|x: Entry, y: Entry|
                #![trigger s2.count(x), m1.count(y)]
                s2.count(x) > 0 && m1.count(y) > s2.count(y) implies !rank_before(y, x) by {
                if x != e {
                    assert(s.contains(x));
                    assert(outlasts_or_same(x, w));
                }
                if y != w {
                    assert(m.count(y) > s.count(y));
                    assert(s.count(w) > 0 && m.count(y) > s.count(y));
                    assert(!rank_before(y, w));
                    if x != e {
                        assert(s.count(x) > 0 && m.count(y) > s.count(y));
                    }
                }
            }
        } else {
            assert(s.subset_of(m1)) by {
                assert forall|v: Entry| s.count(v) <= m1.count(v) by {
                    assert(s.count(v) <= m.count(v));
                }
            }
            assert forall|x: Entry, y: Entry|
                #![trigger s.count(x), m1.count(y)]
                s.count(x) > 0 && m1.count(y) > s.count(y) implies !rank_before(y, x) by {
                assert(s.contains(x));
                assert(outlasts_or_same(x, w));
                if m.count(y) > s.count(y) {
                    assert(s.count(x) > 0 && m.count(y) > s.count(y));
                } else {
                    assert(y == e);
                }
            }
        }
    } else {
        assert(s.subset_of(m1)) by {
            assert forall|v: Entry| s.count(v) <= m1.count(v) by {
                assert(s.count(v) <= m.count(v));
            }
        }
    }
}

/// After a sequence of entries was offered to a selection that started
/// within its capacity, it holds `k` best of what it held and what was
/// offered.
pub proof fn lemma_offer_all_is_top(start: Multiset<Entry>, offered: Seq<Entry>, k: nat)
    requires
        start.len() <= k,
    ensures
        is_top(offer_all(start, offered, k), start.add(offered.to_multiset()), k),
    decreases offered.len(),
{
    broadcast use vstd::seq_lib::group_to_multiset_ensures;

    if offered.len() == 0 {
        assert(offered.to_multiset().len() == 0);
        vstd::multiset::lemma_multiset_empty_len(offered.to_multiset());
        assert(start.add(offered.to_multiset()) =~= start);
    } else {
        let init = offered.drop_last();
        lemma_offer_all_is_top(start, init, k);
        lemma_offer_keeps_top(
            offer_all(start, init, k),
            start.add(init.to_multiset()),
            offered.last(),
            k,
        );
        assert(offered =~= init.push(offered.last()));
        assert(offered.to_multiset() =~= init.to_multiset().insert(offered.last()));
        assert(start.add(init.to_multiset()).insert(offered.last()) =~= start.add(
            offered.to_multiset(),
        ));
    }
}

/// Two selections of the `k` best of one multiset differ only in ties:
/// where one holds more of an entry than the other, the other holds more of
/// an entry tied with it in rank.
pub proof fn lemma_tops_differ_in_ties(
    a: Multiset<Entry>,
    b: Multiset<Entry>,
    m: Multiset<Entry>,
    k: nat,
    v: Entry,
)
    requires
        is_top(a, m, k),
        is_top(b, m, k),
        a.count(v) > b.count(v),
    ensures
        a.len() == b.len(),
        exists|u: Entry| #[trigger] b.count(u) > a.count(u) && rank_tied(u, v),
{
    if b.subset_of(a) {
        lemma_subset_same_len(b, a);
    } else {
        let u = choose|u: Entry| b.count(u) > a.count(u);
        assert(b.count(u) <= m.count(u));
        assert(a.count(v) <= m.count(v));
        assert(a.count(v) > 0 && m.count(u) > a.count(u));
        assert(!rank_before(u, v));
        assert(b.count(u) > 0 && m.count(v) > b.count(v));
        assert(!rank_before(v, u));
        assert(b.count(u) > a.count(u) && rank_tied(u, v));
    }
}

/// The order in which entries are offered matters only for ties: two
/// sequences with the same entries leave selections of the same size that
/// are both the `k` best, and where one holds more of an entry than the
/// other, the other holds more of an entry tied with it in rank.
pub proof fn lemma_offer_order_moves_only_ties(
    start: Multiset<Entry>,
    first: Seq<Entry>,
    second: Seq<Entry>,
    k: nat,
    v: Entry,
)
    requires
        start.len() <= k,
        first.to_multiset() == second.to_multiset(),
    ensures
        is_top(offer_all(start, first, k), start.add(first.to_multiset()), k),
        is_top(offer_all(start, second, k), start.add(first.to_multiset()), k),
        offer_all(start, first, k).len() == offer_all(start, second, k).len(),
        offer_all(start, first, k).count(v) > offer_all(start, second, k).count(v) ==> exists|
            u: Entry,
        | #[trigger]
            offer_all(start, second, k).count(u) > offer_all(start, first, k).count(u)
                && rank_tied(u, v),
{
    lemma_offer_all_is_top(start, first, k);
    lemma_offer_all_is_top(start, second, k);
    let a = offer_all(start, first, k);
    let b = offer_all(start, second, k);
    if a.count(v) > b.count(v) {
        lemma_tops_differ_in_ties(a, b, start.add(first.to_multiset()), k, v);
    }
}

/// A stable selection of the `k` best is a selection of the `k` best.
pub proof fn lemma_stable_top_is_top(s: Multiset<Entry>, m: Multiset<Entry>, k: nat)
    requires
        is_stable_top(s, m, k),
    ensures
        is_top(s, m, k),
{
    assert forall|x: Entry, y: Entry|
        #![trigger s.count(x), m.count(y)]
        s.count(x) > 0 && m.count(y) > s.count(y) implies !rank_before(y, x) by {
        assert(outlasts_or_same(x, y));
    }
}

/// For one capacity a multiset has only one stable selection of its best
/// entries.
pub proof fn lemma_stable_top_unique(
    a: Multiset<Entry>,
    b: Multiset<Entry>,
    m: Multiset<Entry>,
    k: nat,
)
    requires
        is_stable_top(a, m, k),
        is_stable_top(b, m, k),
    ensures
        a == b,
{
    assert forall|v: Entry| a.count(v) == b.count(v) by {
        lemma_stable_top_no_excess(a, b, m, k, v);
        lemma_stable_top_no_excess(b, a, m, k, v);
    }
    assert(a =~= b);
}

/// Of two stable selections of the best entries of one multiset, neither
/// holds more copies of an entry than the other.
proof fn lemma_stable_top_no_excess(
    a: Multiset<Entry>,
    b: Multiset<Entry>,
    m: Multiset<Entry>,
    k: nat,
    v: Entry,
)
    requires
        is_stable_top(a, m, k),
        is_stable_top(b, m, k),
    ensures
        a.count(v) <= b.count(v),
{
    if a.count(v) > b.count(v) {
        if b.subset_of(a) {
            lemma_subset_same_len(b, a);
        } else {
            let u = choose|u: Entry| b.count(u) > a.count(u);
            assert(b.count(u) <= m.count(u));
            assert(a.count(v) <= m.count(v));
            assert(a.count(v) > 0 && m.count(u) > a.count(u));
            assert(outlasts_or_same(v, u));
            assert(b.count(u) > 0 && m.count(v) > b.count(v));
            assert(outlasts_or_same(u, v));
        }
    }
}

/// Offering an entry whose reference index is above all that came before
/// to the stable selection of the `k` best of `m` gives the stable
/// selection of the `k` best of `m` with that entry.
pub proof fn lemma_offer_keeps_stable_top(
    s: Multiset<Entry>,
    m: Multiset<Entry>,
    e: Entry,
    k: nat,
)
    requires
        is_stable_top(s, m, k),
        forall|x: Entry| #[trigger] m.contains(x) ==> x.ref_index < e.ref_index,
    ensures
        is_stable_top(offer(s, e, k), m.insert(e), k),
{
    let m1 = m.insert(e);
    assert(m1.len() == m.len() + 1);
    if s.len() < k {
        lemma_subset_same_len(s, m);
    } else if s.len() > 0 {
        lemma_worst_exists(s);
        let w = worst_of(s);
        assert(s.contains(w));
        assert(m.contains(w));
        if rank_before(e, w) {
            let s2 = s.remove(w).insert(e);
            lemma_remove_len(s, w);
            assert(s2.len() == k);
            assert(s2.subset_of(m1)) by {
                assert forall|v: Entry| s2.count(v) <= m1.count(v) by {
                    assert(s.count(v) <= m.count(v));
                }
            }
            assert forall|x: Entry, y: Entry|
                #![trigger s2.count(x), m1.count(y)]
                s2.count(x) > 0 && m1.count(y) > s2.count(y) implies outlasts_or_same(x, y) by {
                if x != e {
                    assert(s.contains(x));
                    assert(outlasts_or_same(x, w));
                }
                if y != w {
                    assert(m.count(y) > s.count(y));
                    assert(s.count(w) > 0 && m.count(y) > s.count(y));
                    assert(outlasts_or_same(w, y));
                    if x != e {
                        assert(s.count(x) > 0 && m.count(y) > s.count(y));
                    }
                }
            }
        } else {
            assert(s.subset_of(m1)) by {
                assert forall|v: Entry| s.count(v) <= m1.count(v) by {
                    assert(s.count(v) <= m.count(v));
                }
            }
            assert forall|x: Entry, y: Entry|
                #![trigger s.count(x), m1.count(y)]
                s.count(x) > 0 && m1.count(y) > s.count(y) implies outlasts_or_same(x, y) by {
                assert(s.contains(x));
                assert(m.contains(x));
                assert(outlasts_or_same(x, w));
                if m.count(y) > s.count(y) {
                    assert(s.count(x) > 0 && m.count(y) > s.count(y));
                } else {
                    assert(y == e);
                }
            }
        }
    } else {
        assert(s.subset_of(m1)) by {
            assert forall|v: Entry| s.count(v) <= m1.count(v) by {
                assert(s.count(v) <= m.count(v));
            }
        }
    }
}

/// After entries were offered by rising reference index to an empty
/// selection, it holds the stable selection of the `k` best of them: the
/// entries a stable sort by rank would put first.
pub proof fn lemma_offer_all_is_stable_top(offered: Seq<Entry>, k: nat)
    requires
        rising(offered),
    ensures
        is_stable_top(
            offer_all(Multiset::empty(), offered, k),
            offered.to_multiset(),
            k,
        ),
    decreases offered.len(),
{
    broadcast use vstd::seq_lib::group_to_multiset_ensures;

    if offered.len() == 0 {
        assert(offered.to_multiset().len() == 0);
        vstd::multiset::lemma_multiset_empty_len(offered.to_multiset());
        assert(offered.to_multiset() =~= Multiset::<Entry>::empty());
    } else {
        let init = offered.drop_last();
        let last = offered.last();
        assert(rising(init)) by {
            assert forall|i: int, j: int| 0 <= i < j < init.len() implies (
            #[trigger] init[i]).ref_index < (#[trigger] init[j]).ref_index by {
                assert(init[i] == offered[i]);
                assert(init[j] == offered[j]);
            }
        }
        lemma_offer_all_is_stable_top(init, k);
        assert forall|x: Entry| #[trigger] init.to_multiset().contains(x) implies x.ref_index
            < last.ref_index by {
            assert(init.contains(x));
            let i = choose|i: int| 0 <= i < init.len() && init[i] == x;
            assert(offered[i] == x);
            assert(offered[offered.len() - 1] == last);
        }
        lemma_offer_keeps_stable_top(
            offer_all(Multiset::empty(), init, k),
            init.to_multiset(),
            last,
            k,
        );
        assert(offered =~= init.push(last));
        assert(offered.to_multiset() =~= init.to_multiset().insert(last));
    }
}

} // verus!
