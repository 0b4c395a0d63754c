//! The inverted index: for every bigram, the queries it occurs in and how
//! often.

use crate::bigram::{
    bigrams_of, code_of, frequency, generate_bigrams, lemma_occurrences_bounded,
    lemma_occurrences_step, occurrences,
};
use std::collections::HashMap;
use vstd::prelude::*;

verus! {

broadcast use vstd::std_specs::hash::group_hash_axioms;

/// How often the bigram with the given code was counted for query `q` once
/// the queries before `done` were indexed in full and, of query `done`, the
/// bigrams in `partial`.
pub open spec fn counted(
    queries: Seq<Vec<u8>>,
    done: int,
    partial: Seq<(u8, u8)>,
    code: u16,
    q: usize,
) -> nat {
    if q < done && q < queries.len() {
        frequency(queries[q as int]@, code)
    } else if q == done {
        occurrences(partial, code)
    } else {
        0
    }
}

/// The index holds exactly the positive counts of [`counted`]: a bigram is a
/// key where some query has a count for it, and its postings hold each such
/// query with that count.
pub open spec fn indexes(
    index: Map<u16, HashMap<usize, usize>>,
    queries: Seq<Vec<u8>>,
    done: int,
    partial: Seq<(u8, u8)>,
) -> bool {
    &&& forall|code: u16, q: usize|
        #![trigger index[code]@.contains_key(q)]
        #![trigger counted(queries, done, partial, code, q)]
        (index.contains_key(code) && index[code]@.contains_key(q)) <==> counted(
            queries,
            done,
            partial,
            code,
            q,
        ) > 0
    &&& forall|code: u16, q: usize|
        #![trigger index[code]@[q]]
        index.contains_key(code) && index[code]@.contains_key(q) ==> index[code]@[q] == counted(
            queries,
            done,
            partial,
            code,
            q,
        )
    &&& forall|code: u16| #[trigger]
        index.contains_key(code) ==> exists|q: usize| #[trigger] index[code]@.contains_key(q)
}

/// The index is the inverted index of the queries: its keys are the bigrams
/// that occur in some query, and the postings of a bigram map each query
/// that has it to the number of times it occurs there.
pub open spec fn is_index_of(index: Map<u16, HashMap<usize, usize>>, queries: Seq<Vec<u8>>) -> bool {
    indexes(index, queries, queries.len() as int, Seq::empty())
}

/// How often the index says the bigram occurs in query `q`.
pub open spec fn posting(index: Map<u16, HashMap<usize, usize>>, code: u16, q: usize) -> nat {
    if index.contains_key(code) && index[code]@.contains_key(q) {
        index[code]@[q] as nat
    } else {
        0
    }
}

/// The postings of an index of the queries are the frequencies of the
/// bigrams in the queries.
pub proof fn lemma_posting_is_frequency(
    index: Map<u16, HashMap<usize, usize>>,
    queries: Seq<Vec<u8>>,
    code: u16,
    q: usize,
)
    requires
        is_index_of(index, queries),
        q < queries.len(),
    ensures
        posting(index, code, q) == frequency(queries[q as int]@, code),
{
    let n = queries.len() as int;
    assert(counted(queries, n, Seq::empty(), code, q) == frequency(queries[q as int]@, code));
    if index.contains_key(code) && index[code]@.contains_key(q) {
        assert(index[code]@[q] == counted(queries, n, Seq::empty(), code, q));
    }
}

/// Builds the inverted index of the queries.
pub fn index_queries(queries: &[Vec<u8>]) -> (index: HashMap<u16, HashMap<usize, usize>>)
    ensures
        is_index_of(index@, queries@),
{
    let mut index: HashMap<u16, HashMap<usize, usize>> = HashMap::new();
    let mut i: usize = 0;
    while i < queries.len()
        invariant
            i <= queries.len(),
            indexes(index@, queries@, i as int, Seq::empty()),
        decreases queries.len() - i,
    {
        let bigrams: Vec<(u8, u8)> = generate_bigrams(queries[i].as_slice());
        let mut j: usize = 0;
        assert(bigrams@.take(0) =~= Seq::<(u8, u8)>::empty());
        while j < bigrams.len()
            invariant
                i < queries.len(),
                j <= bigrams.len(),
                bigrams@ == bigrams_of(queries@[i as int]@),
                indexes(index@, queries@, i as int, bigrams@.take(j as int)),
            decreases bigrams.len() - j,
        {
            let code: u16 = code_of(bigrams[j]);
            let ghost before = index@;
            let ghost part = bigrams@.take(j as int);
            let ghost next = bigrams@.take(j + 1);
            let mut postings: HashMap<usize, usize> = match index.remove(&code) {
                Some(found) => found,
                None => HashMap::new(),
            };
            let ghost old_postings = postings@;
            let seen: usize = match postings.get(&i) {
                Some(count) => *count,
                None => 0,
            };
            proof {
                lemma_occurrences_bounded(part, code);
                assert(counted(queries@, i as int, part, code, i) == occurrences(part, code));
                if before.contains_key(code) && before[code]@.contains_key(i) {
                    assert(before[code]@[i] == counted(queries@, i as int, part, code, i));
                }
                assert(seen == occurrences(part, code));
            }
            postings.insert(i, seen + 1);
            let ghost new_postings = postings@;
            index.insert(code, postings);
            proof {
                let after = index@;
                assert(after[code]@ == new_postings);
                assert(new_postings == old_postings.insert(i, (seen + 1) as usize));
                assert forall|c: u16, q: usize|
                    counted(queries@, i as int, next, c, q) == counted(queries@, i as int, part, c, q)
                        + if c == code && q == i {
                        1nat
                    } else {
                        0nat
                    } by {
                    lemma_occurrences_step(bigrams@, j as int, c);
                }
                assert forall|c: u16, q: usize|
                    #![trigger after[c]@.contains_key(q)]
                    #![trigger counted(queries@, i as int, next, c, q)]
                    (after.contains_key(c) && after[c]@.contains_key(q)) <==> counted(
                        queries@,
                        i as int,
                        next,
                        c,
                        q,
                    ) > 0 by {
                    if c == code {
                        if q != i {
                            if before.contains_key(code) {
                                assert(old_postings.contains_key(q) == before[code]@.contains_key(q));
                            }
                            assert((before.contains_key(c) && before[c]@.contains_key(q)) <==> counted(
                                queries@,
                                i as int,
                                part,
                                c,
                                q,
                            ) > 0);
                        }
                    } else {
                        assert(after.contains_key(c) == before.contains_key(c));
                        assert((before.contains_key(c) && before[c]@.contains_key(q)) <==> counted(
                            queries@,
                            i as int,
                            part,
                            c,
                            q,
                        ) > 0);
                    }
                }
                assert forall|c: u16, q: usize|
                    #![trigger after[c]@[q]]
                    after.contains_key(c) && after[c]@.contains_key(q) implies after[c]@[q] == counted(
                        queries@,
                        i as int,
                        next,
                        c,
                        q,
                    ) by {
                    if c == code {
                        if q != i {
                            assert(before.contains_key(code));
                            assert(before[c]@[q] == counted(queries@, i as int, part, c, q));
                        }
                    } else {
                        assert(before[c]@[q] == counted(queries@, i as int, part, c, q));
                    }
                }
                assert forall|c: u16| #[trigger] after.contains_key(c) implies exists|q: usize| #[trigger]
                    after[c]@.contains_key(q) by {
                    if c == code {
                        assert(after[c]@.contains_key(i));
                    } else {
                        assert(before.contains_key(c));
                        let w = choose|q: usize| #[trigger] before[c]@.contains_key(q);
                        assert(after[c]@.contains_key(w));
                    }
                }
            }
            j += 1;
        }
        proof {
            assert(bigrams@.take(bigrams.len() as int) =~= bigrams@);
            let full = bigrams@;
            let none = Seq::<(u8, u8)>::empty();
            assert forall|c: u16, q: usize|
                counted(queries@, i as int, full, c, q) == counted(queries@, i + 1, none, c, q) by {}
            assert(indexes(index@, queries@, i + 1, none)) by {
                assert forall|c: u16, q: usize|
                    #![trigger index@[c]@.contains_key(q)]
                    #![trigger counted(queries@, i + 1, none, c, q)]
                    (index@.contains_key(c) && index@[c]@.contains_key(q)) <==> counted(
                        queries@,
                        i + 1,
                        none,
                        c,
                        q,
                    ) > 0 by {
                    assert((index@.contains_key(c) && index@[c]@.contains_key(q)) <==> counted(
                        queries@,
                        i as int,
                        full,
                        c,
                        q,
                    ) > 0);
                }
                assert forall|c: u16, q: usize|
                    #![trigger index@[c]@[q]]
                    index@.contains_key(c) && index@[c]@.contains_key(q) implies index@[c]@[q]
                        == counted(queries@, i + 1, none, c, q) by {
                    assert(index@[c]@[q] == counted(queries@, i as int, full, c, q));
                }
            }
        }
        i += 1;
    }
    index
}

} // verus!
