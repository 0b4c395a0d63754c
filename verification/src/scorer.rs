//! The heuristic scorer: the coverage of every query by a reference, read
//! off the inverted index, and the shortlists that the scores fill.

use crate::bigram::{
    bigrams_of, coverage, coverage_below, create_frequency_map, counts_bigrams, frequency,
    generate_bigrams, lemma_coverage_bounded, lemma_short_line_has_no_coverage, shared, smaller,
    BIGRAM_CODES,
};
use crate::entry::{transform, Entry};
use crate::index::{is_index_of, lemma_posting_is_frequency, posting};
use crate::shortlist::{update_heap, Shortlist};
use crate::topk::{
    is_stable_top, is_top, lemma_offer_all_is_stable_top, lemma_offer_all_is_top, offer_all, rising,
};
use std::collections::HashMap;
use vstd::multiset::Multiset;
use vstd::prelude::*;

verus! {

broadcast use vstd::std_specs::hash::group_hash_axioms;

/// The absolute difference of two lengths.
pub open spec fn length_gap(a: int, b: int) -> int {
    if a >= b {
        a - b
    } else {
        b - a
    }
}

/// Computes the absolute difference of two lengths.
pub fn length_difference(a: usize, b: usize) -> (d: usize)
    ensures
        d == length_gap(a as int, b as int),
{
    if a >= b {
        a - b
    } else {
        b - a
    }
}

/// The coverage restricted to the bigram codes below `bound` that are in
/// `seen`.
pub open spec fn coverage_within(
    query: Seq<u8>,
    reference: Seq<u8>,
    seen: Set<u16>,
    bound: nat,
) -> nat
    decreases bound,
{
    if bound == 0 {
        0
    } else {
        coverage_within(query, reference, seen, (bound - 1) as nat) + if seen.contains(
            (bound - 1) as u16,
        ) {
            shared(query, reference, (bound - 1) as u16)
        } else {
            0
        }
    }
}

/// Before any bigram was seen the restricted coverage is zero.
proof fn lemma_within_nothing(query: Seq<u8>, reference: Seq<u8>, bound: nat)
    ensures
        coverage_within(query, reference, Set::empty(), bound) == 0,
    decreases bound,
{
    if bound > 0 {
        lemma_within_nothing(query, reference, (bound - 1) as nat);
    }
}

/// Seeing one more bigram adds its share to the restricted coverage.
proof fn lemma_within_one_more(
    query: Seq<u8>,
    reference: Seq<u8>,
    seen: Set<u16>,
    code: u16,
    bound: nat,
)
    requires
        !seen.contains(code),
        bound <= BIGRAM_CODES,
    ensures
        coverage_within(query, reference, seen.insert(code), bound) == coverage_within(
            query,
            reference,
            seen,
            bound,
        ) + if code < bound {
            shared(query, reference, code)
        } else {
            0
        },
    decreases bound,
{
    if bound > 0 {
        lemma_within_one_more(query, reference, seen, code, (bound - 1) as nat);
    }
}

/// The restricted coverage is never more than the coverage.
proof fn lemma_within_at_most(query: Seq<u8>, reference: Seq<u8>, seen: Set<u16>, bound: nat)
    ensures
        coverage_within(query, reference, seen, bound) <= coverage_below(query, reference, bound),
    decreases bound,
{
    if bound > 0 {
        lemma_within_at_most(query, reference, seen, (bound - 1) as nat);
    }
}

/// Once every bigram of the reference was seen, the restricted coverage is
/// the coverage.
proof fn lemma_within_everything(query: Seq<u8>, reference: Seq<u8>, seen: Set<u16>, bound: nat)
    requires
        forall|code: u16| frequency(reference, code) > 0 ==> seen.contains(code),
    ensures
        coverage_within(query, reference, seen, bound) == coverage_below(query, reference, bound),
    decreases bound,
{
    if bound > 0 {
        lemma_within_everything(query, reference, seen, (bound - 1) as nat);
    }
}

/// The keys that a walk over a map has passed before its position `n`.
pub open spec fn keys_before<K, V>(walk: Seq<(&K, &V)>, n: int) -> Set<K> {
    Set::new(|key: K| exists|i: int| 0 <= i < n && *(#[trigger] walk[i]).0 == key)
}

/// A walk over a map: every step is an entry of the map, no entry comes
/// twice, and every key of the map is met.
pub open spec fn walks<K, V>(walk: Seq<(&K, &V)>, map: Map<K, V>) -> bool {
    &&& walk.no_duplicates()
    &&& forall|i: int|
        0 <= i < walk.len() ==> map.contains_key(*(#[trigger] walk[i]).0) && map[*walk[i].0]
            == *walk[i].1
    &&& forall|key: K| #[trigger] map.contains_key(key) ==> walk.contains((&key, &map[key]))
}

/// The step of a walk at position `n` meets a key that was not passed yet.
proof fn lemma_walk_advances<K, V>(walk: Seq<(&K, &V)>, map: Map<K, V>, n: int)
    requires
        walks(walk, map),
        0 <= n < walk.len(),
    ensures
        !keys_before(walk, n).contains(*walk[n].0),
        keys_before(walk, n + 1) == keys_before(walk, n).insert(*walk[n].0),
{
    if keys_before(walk, n).contains(*walk[n].0) {
        let i = choose|i: int| 0 <= i < n && *(#[trigger] walk[i]).0 == *walk[n].0;
        assert(map[*walk[i].0] == *walk[i].1);
        assert(map[*walk[n].0] == *walk[n].1);
        assert(walk[i] == walk[n]);
    }
    assert(keys_before(walk, n + 1) =~= keys_before(walk, n).insert(*walk[n].0));
}

/// A finished walk has passed every key of its map, and no other.
proof fn lemma_walk_finished<K, V>(walk: Seq<(&K, &V)>, map: Map<K, V>)
    requires
        walks(walk, map),
    ensures
        keys_before(walk, walk.len() as int) == map.dom(),
{
    assert forall|key: K| map.contains_key(key) implies keys_before(
        walk,
        walk.len() as int,
    ).contains(key) by {
        let step = (&key, &map[key]);
        assert(walk.contains(step));
        let i = choose|i: int| 0 <= i < walk.len() && walk[i] == step;
        assert(*walk[i].0 == key);
    }
    assert(keys_before(walk, walk.len() as int) =~= map.dom());
}

/// Every finished walk over a map has passed exactly the keys of the map.
proof fn lemma_walks_finish<K, V>(map: Map<K, V>)
    ensures
        forall|walk: Seq<(&K, &V)>| #[trigger]
            walks(walk, map) ==> keys_before(walk, walk.len() as int) == map.dom(),
{
    assert forall|walk: Seq<(&K, &V)>| #[trigger] walks(walk, map) implies keys_before(
        walk,
        walk.len() as int,
    ) == map.dom() by {
        lemma_walk_finished(walk, map);
    }
}

/// Sets every coverage to zero, one for each query.
fn reset_coverage(cov_vector: &mut Vec<usize>, count: usize)
    ensures
        final(cov_vector)@.len() == count,
        forall|q: int| 0 <= q < count ==> final(cov_vector)@[q] == 0,
{
    cov_vector.clear();
    let mut q: usize = 0;
    while q < count
        invariant
            q <= count,
            cov_vector@.len() == q,
            forall|p: int| 0 <= p < q ==> cov_vector@[p] == 0,
        decreases count - q,
    {
        cov_vector.push(0);
        q += 1;
    }
}

/// Adds to the coverage of every query what one bigram of the reference
/// shares with it.
fn add_shared(
    postings: &HashMap<usize, usize>,
    ref_count: usize,
    cov_vector: &mut Vec<usize>,
)
    requires
        forall|q: usize| #[trigger] postings@.contains_key(q) ==> q < old(cov_vector)@.len(),
        forall|q: usize| #[trigger]
            postings@.contains_key(q) ==> old(cov_vector)@[q as int] + smaller(
                postings@[q] as nat,
                ref_count as nat,
            ) <= usize::MAX,
    ensures
        final(cov_vector)@.len() == old(cov_vector)@.len(),
        forall|q: usize|
            q < old(cov_vector)@.len() ==> #[trigger] final(cov_vector)@[q as int] == old(
                cov_vector,
            )@[q as int] + if postings@.contains_key(q) {
                smaller(postings@[q] as nat, ref_count as nat)
            } else {
                0
            },
{
    let ghost base = cov_vector@;
    let ghost mut done: Set<usize> = Set::empty();
    for step in walk: postings.iter()
        invariant
            walks(walk.seq(), postings@),
            done == keys_before(walk.seq(), walk.index()),
            cov_vector@.len() == base.len(),
            forall|q: usize| #[trigger] postings@.contains_key(q) ==> q < base.len(),
            forall|q: usize| #[trigger]
                postings@.contains_key(q) ==> base[q as int] + smaller(
                    postings@[q] as nat,
                    ref_count as nat,
                ) <= usize::MAX,
            forall|q: usize|
                q < base.len() ==> #[trigger] cov_vector@[q as int] == base[q as int]
                    + if done.contains(q) {
                    smaller(postings@[q] as nat, ref_count as nat)
                } else {
                    0
                },
    {
        let (query_id, query_count) = step;
        let ghost position = walk.index();
        proof {
            lemma_walk_advances(walk.seq(), postings@, position);
            assert(postings@.contains_key(*query_id));
        }
        let share: usize = if *query_count <= ref_count {
            *query_count
        } else {
            ref_count
        };
        let current: usize = cov_vector[*query_id];
        cov_vector[*query_id] = current + share;
        proof {
            done = done.insert(*query_id);
        }
    }
    proof {
        lemma_walks_finish::<usize, usize>(postings@);
        assert(done == postings@.dom());
    }
}

/// Computes the coverage of every query by one reference.
///
/// The coverages are written to `cov_vector`, one for each query, replacing
/// what it held.
pub fn score_reference(
    index: &HashMap<u16, HashMap<usize, usize>>,
    queries: &[Vec<u8>],
    reference: &[u8],
    cov_vector: &mut Vec<usize>,
)
    requires
        is_index_of(index@, queries@),
    ensures
        final(cov_vector)@.len() == queries@.len(),
        forall|q: int|
            0 <= q < queries@.len() ==> #[trigger] final(cov_vector)@[q] == coverage(
                queries@[q]@,
                reference@,
            ),
{
    let count: usize = queries.len();
    reset_coverage(cov_vector, count);
    if reference.len() > 1 {
        let bigrams: Vec<(u8, u8)> = generate_bigrams(reference);
        let r_bigram_map: HashMap<u16, usize> = create_frequency_map(&bigrams);
        proof {
            assert forall|q: int| 0 <= q < queries@.len() implies cov_vector@[q] == coverage_within(
                queries@[q]@,
                reference@,
                Set::<u16>::empty(),
                BIGRAM_CODES as nat,
            ) by {
                lemma_within_nothing(queries@[q]@, reference@, BIGRAM_CODES as nat);
            }
        }
        let ghost mut seen: Set<u16> = Set::empty();
        for step in walk: r_bigram_map.iter()
            invariant
                walks(walk.seq(), r_bigram_map@),
                seen == keys_before(walk.seq(), walk.index()),
                counts_bigrams(r_bigram_map@, bigrams_of(reference@)),
                is_index_of(index@, queries@),
                count == queries@.len(),
                cov_vector@.len() == queries@.len(),
                forall|q: int|
                    0 <= q < queries@.len() ==> #[trigger] cov_vector@[q] == coverage_within(
                        queries@[q]@,
                        reference@,
                        seen,
                        BIGRAM_CODES as nat,
                    ),
        {
            let (bigram, ref_count) = step;
            let ghost position = walk.index();
            let ghost code = *bigram;
            let ghost base = cov_vector@;
            proof {
                lemma_walk_advances(walk.seq(), r_bigram_map@, position);
                assert(r_bigram_map@.contains_key(code));
                assert(*ref_count == frequency(reference@, code));
                assert forall|q: int| 0 <= q < queries@.len() implies base[q] + shared(
                    queries@[q]@,
                    reference@,
                    code,
                ) == coverage_within(
                    queries@[q]@,
                    reference@,
                    seen.insert(code),
                    BIGRAM_CODES as nat,
                ) && base[q] + shared(queries@[q]@, reference@, code) <= usize::MAX by {
                    assert(base[q] == cov_vector@[q]);
                    assert(queries@[q]@.len() == queries@[q].len());
                    lemma_within_one_more(
                        queries@[q]@,
                        reference@,
                        seen,
                        code,
                        BIGRAM_CODES as nat,
                    );
                    lemma_within_at_most(
                        queries@[q]@,
                        reference@,
                        seen.insert(code),
                        BIGRAM_CODES as nat,
                    );
                    lemma_coverage_bounded(queries@[q]@, reference@);
                }
                assert forall|q: usize| q < queries@.len() implies posting(index@, code, q)
                    == frequency(queries@[q as int]@, code) by {
                    lemma_posting_is_frequency(index@, queries@, code, q);
                }
            }
            match index.get(bigram) {
                Some(postings) => {
                    proof {
                        assert forall|q: usize| #[trigger]
                            postings@.contains_key(q) implies q < queries@.len() by {
                            assert(index@[code]@.contains_key(q));
                        }
                        assert forall|q: usize| #[trigger]
                            postings@.contains_key(q) implies base[q as int] + smaller(
                            postings@[q] as nat,
                            *ref_count as nat,
                        ) <= usize::MAX by {
                            assert(index@[code]@.contains_key(q));
                            assert(posting(index@, code, q) == postings@[q]);
                        }
                    }
                    add_shared(postings, *ref_count, cov_vector);
                    proof {
                        assert forall|q: usize| q < queries@.len() implies cov_vector@[q as int]
                            == base[q as int] + shared(queries@[q as int]@, reference@, code) by {
                            assert(posting(index@, code, q) == frequency(
                                queries@[q as int]@,
                                code,
                            ));
                        }
                    }
                },
                None => {
                    proof {
                        assert forall|q: usize| q < queries@.len() implies cov_vector@[q as int]
                            == base[q as int] + shared(queries@[q as int]@, reference@, code) by {
                            assert(posting(index@, code, q) == 0);
                        }
                    }
                },
            }
            proof {
                assert forall|q: int| 0 <= q < queries@.len() implies #[trigger] cov_vector@[q]
                    == coverage_within(
                    queries@[q]@,
                    reference@,
                    seen.insert(code),
                    BIGRAM_CODES as nat,
                ) by {
                    let at: usize = q as usize;
                    assert(cov_vector@[at as int] == base[at as int] + shared(
                        queries@[at as int]@,
                        reference@,
                        code,
                    ));
                }
                seen = seen.insert(code);
            }
        }
        proof {
            lemma_walks_finish::<u16, usize>(r_bigram_map@);
            assert(seen == r_bigram_map@.dom());
            assert forall|q: int| 0 <= q < queries@.len() implies #[trigger] cov_vector@[q]
                == coverage(queries@[q]@, reference@) by {
                assert forall|code: u16| frequency(reference@, code) > 0 implies seen.contains(
                    code,
                ) by {
                    assert(r_bigram_map@.contains_key(code));
                }
                lemma_within_everything(queries@[q]@, reference@, seen, BIGRAM_CODES as nat);
            }
        }
    } else {
        proof {
            assert forall|q: int| 0 <= q < queries@.len() implies #[trigger] cov_vector@[q]
                == coverage(queries@[q]@, reference@) by {
                lemma_short_line_has_no_coverage(queries@[q]@, reference@);
            }
        }
    }
}

/// The entry that reference `j` earns on the shortlist of a query: its
/// index, the coverage of the query by it, and the difference of the two
/// lengths.
pub open spec fn candidate(query: Seq<u8>, refs: Seq<Vec<u8>>, j: int) -> Entry {
    Entry {
        ref_index: j as usize,
        coverage: coverage(query, refs[j]@) as usize,
        length: length_gap(refs[j]@.len() as int, query.len() as int) as usize,
    }
}

/// The candidates for the shortlist of a query among the first `n`
/// references, in order: one for every reference of two bytes or more.
pub open spec fn candidates(query: Seq<u8>, refs: Seq<Vec<u8>>, n: int) -> Seq<Entry>
    decreases n,
{
    if n <= 0 {
        Seq::empty()
    } else if refs[n - 1]@.len() >= 2 {
        candidates(query, refs, n - 1).push(candidate(query, refs, n - 1))
    } else {
        candidates(query, refs, n - 1)
    }
}

/// The candidates stand by rising reference index, each below `n`, and
/// each is the entry of a reference of two bytes or more.
pub proof fn lemma_candidates_rising(query: Seq<u8>, refs: Seq<Vec<u8>>, n: int)
    requires
        0 <= n <= refs.len(),
        refs.len() <= usize::MAX,
    ensures
        rising(candidates(query, refs, n)),
        forall|i: int|
            0 <= i < candidates(query, refs, n).len() ==> {
                let e = #[trigger] candidates(query, refs, n)[i];
                &&& e.ref_index < n
                &&& refs[e.ref_index as int]@.len() >= 2
                &&& e == candidate(query, refs, e.ref_index as int)
            },
    decreases n,
{
    if n > 0 {
        lemma_candidates_rising(query, refs, n - 1);
        let earlier = candidates(query, refs, n - 1);
        let now = candidates(query, refs, n);
        assert forall|i: int| 0 <= i < now.len() implies {
            let e = #[trigger] now[i];
            &&& e.ref_index < n
            &&& refs[e.ref_index as int]@.len() >= 2
            &&& e == candidate(query, refs, e.ref_index as int)
        } by {
            if i < earlier.len() {
                assert(now[i] == earlier[i]);
            }
        }
        assert forall|i: int, j: int| 0 <= i < j < now.len() implies (#[trigger] now[i]).ref_index
            < (#[trigger] now[j]).ref_index by {
            assert(now[i] == earlier[i]);
            if j < earlier.len() {
                assert(now[j] == earlier[j]);
            }
        }
    }
}

/// What the shortlist of a query holds once the first `n` references were
/// scored: a query of two bytes or more was offered every candidate, a
/// shorter one nothing.
pub open spec fn shortlisted(
    start: Multiset<Entry>,
    query: Seq<u8>,
    refs: Seq<Vec<u8>>,
    n: int,
    k: nat,
) -> Multiset<Entry> {
    if query.len() >= 2 {
        offer_all(start, candidates(query, refs, n), k)
    } else {
        start
    }
}

/// Scores every reference against every query and offers the scores to
/// the shortlists of the queries.
///
/// A reference shorter than two bytes is passed over, and so is a query
/// shorter than two bytes: it is offered nothing. `cov_vector` is working
/// space; it is left with the coverages by the last reference.
pub fn heuristic_filter(
    index: &HashMap<u16, HashMap<usize, usize>>,
    refs: &[Vec<u8>],
    queries: &[Vec<u8>],
    cov_vector: &mut Vec<usize>,
    heaps: &mut Vec<Shortlist>,
)
    requires
        is_index_of(index@, queries@),
        old(heaps)@.len() == queries@.len(),
        forall|q: int| 0 <= q < queries@.len() ==> (#[trigger] old(heaps)@[q]).wf(),
    ensures
        final(heaps)@.len() == queries@.len(),
        forall|q: int|
            #![trigger final(heaps)@[q]]
            0 <= q < queries@.len() ==> {
                &&& final(heaps)@[q].wf()
                &&& final(heaps)@[q].capacity() == old(heaps)@[q].capacity()
                &&& final(heaps)@[q].entries() == shortlisted(
                    old(heaps)@[q].entries(),
                    queries@[q]@,
                    refs@,
                    refs@.len() as int,
                    old(heaps)@[q].capacity(),
                )
                &&& queries@[q]@.len() >= 2 ==> is_top(
                    final(heaps)@[q].entries(),
                    old(heaps)@[q].entries().add(
                        candidates(queries@[q]@, refs@, refs@.len() as int).to_multiset(),
                    ),
                    old(heaps)@[q].capacity(),
                )
                &&& queries@[q]@.len() >= 2 && old(heaps)@[q].entries() == Multiset::<
                    Entry,
                >::empty() ==> is_stable_top(
                    final(heaps)@[q].entries(),
                    candidates(queries@[q]@, refs@, refs@.len() as int).to_multiset(),
                    old(heaps)@[q].capacity(),
                )
            },
        refs@.len() == 0 ==> final(cov_vector)@ == old(cov_vector)@,
        refs@.len() > 0 ==> final(cov_vector)@.len() == queries@.len() && forall|q: int|
            0 <= q < queries@.len() ==> #[trigger] final(cov_vector)@[q] == coverage(
                queries@[q]@,
                refs@.last()@,
            ),
{
    let ghost start = heaps@;
    let count: usize = queries.len();
    let ref_count: usize = refs.len();
    assert(refs@.len() == ref_count);
    let mut j: usize = 0;
    while j < refs.len()
        invariant
            j <= refs.len(),
            count == queries@.len(),
            is_index_of(index@, queries@),
            heaps@.len() == count,
            start.len() == count,
            forall|q: int|
                #![trigger heaps@[q]]
                0 <= q < count ==> {
                    &&& heaps@[q].wf()
                    &&& heaps@[q].capacity() == start[q].capacity()
                    &&& heaps@[q].entries() == shortlisted(
                        start[q].entries(),
                        queries@[q]@,
                        refs@,
                        j as int,
                        start[q].capacity(),
                    )
                },
            j == 0 ==> cov_vector@ == old(cov_vector)@,
            j > 0 ==> cov_vector@.len() == count && forall|q: int|
                0 <= q < count ==> #[trigger] cov_vector@[q] == coverage(
                    queries@[q]@,
                    refs@[j - 1]@,
                ),
        decreases refs.len() - j,
    {
        score_reference(index, queries, refs[j].as_slice(), cov_vector);
        let ref_len: usize = refs[j].len();
        if ref_len > 1 {
            let mut q: usize = 0;
            while q < count
                invariant
                    q <= count,
                    j < refs.len(),
                    ref_len == refs@[j as int]@.len(),
                    ref_len > 1,
                    count == queries@.len(),
                    heaps@.len() == count,
                    start.len() == count,
                    cov_vector@.len() == count,
                    forall|p: int|
                        0 <= p < count ==> #[trigger] cov_vector@[p] == coverage(
                            queries@[p]@,
                            refs@[j as int]@,
                        ),
                    forall|p: int|
                        #![trigger heaps@[p]]
                        0 <= p < count ==> {
                            &&& heaps@[p].wf()
                            &&& heaps@[p].capacity() == start[p].capacity()
                            &&& heaps@[p].entries() == shortlisted(
                                start[p].entries(),
                                queries@[p]@,
                                refs@,
                                if p < q {
                                    j + 1
                                } else {
                                    j as int
                                },
                                start[p].capacity(),
                            )
                        },
                decreases count - q,
            {
                let query_len: usize = queries[q].len();
                if query_len > 1 {
                    let gap: usize = length_difference(ref_len, query_len);
                    let entry: Entry = transform(j, cov_vector[q], gap);
                    let ghost before = heaps@;
                    assert(entry == candidate(queries@[q as int]@, refs@, j as int));
                    update_heap(&mut heaps[q], entry);
                    assert(heaps@ == before.update(q as int, heaps@[q as int]));
                    assert forall|p: int|
                        #![trigger heaps@[p]]
                        0 <= p < count implies {
                        &&& heaps@[p].wf()
                        &&& heaps@[p].capacity() == start[p].capacity()
                        &&& heaps@[p].entries() == shortlisted(
                            start[p].entries(),
                            queries@[p]@,
                            refs@,
                            if p < q + 1 {
                                j + 1
                            } else {
                                j as int
                            },
                            start[p].capacity(),
                        )
                    } by {
                        if p != q {
                            assert(heaps@[p] == before[p]);
                        } else {
                            assert(candidates(queries@[p]@, refs@, j + 1).drop_last() =~= candidates(
                                queries@[p]@,
                                refs@,
                                j as int,
                            ));
                        }
                    }
                }
                q += 1;
            }
        }
        j += 1;
    }
    proof {
        assert forall|q: int|
            #![trigger heaps@[q]]
            0 <= q < queries@.len() && queries@[q]@.len() >= 2 implies is_top(
            heaps@[q].entries(),
            start[q].entries().add(candidates(queries@[q]@, refs@, refs@.len() as int).to_multiset()),
            start[q].capacity(),
        ) by {
            start[q].lemma_within_capacity();
            lemma_offer_all_is_top(
                start[q].entries(),
                candidates(queries@[q]@, refs@, refs@.len() as int),
                start[q].capacity(),
            );
        }
        assert forall|q: int|
            #![trigger heaps@[q]]
            0 <= q < queries@.len() && queries@[q]@.len() >= 2 && start[q].entries()
                == Multiset::<Entry>::empty() implies is_stable_top(
            heaps@[q].entries(),
            candidates(queries@[q]@, refs@, refs@.len() as int).to_multiset(),
            start[q].capacity(),
        ) by {
            lemma_candidates_rising(queries@[q]@, refs@, refs@.len() as int);
            lemma_offer_all_is_stable_top(
                candidates(queries@[q]@, refs@, refs@.len() as int),
                start[q].capacity(),
            );
        }
    }
}

} // verus!
