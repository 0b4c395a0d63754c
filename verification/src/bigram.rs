//! Byte bigrams, their frequencies, and the coverage of one line by another.

use std::collections::HashMap;
use vstd::prelude::*;

verus! {

broadcast use vstd::std_specs::hash::group_hash_axioms;

/// The number of different bigram codes.
pub const BIGRAM_CODES: usize = 65536;

/// The code of a bigram: its two bytes read as one big-endian number.
pub open spec fn bigram_code(g: (u8, u8)) -> u16 {
    (g.0 * 256 + g.1) as u16
}

/// The bigrams of a line, in order: every pair of adjacent bytes. A line
/// shorter than two bytes has none.
pub open spec fn bigrams_of(line: Seq<u8>) -> Seq<(u8, u8)> {
    Seq::new(
        if line.len() >= 2 {
            (line.len() - 1) as nat
        } else {
            0
        },
        |i: int| (line[i], line[i + 1]),
    )
}

/// How many of the given bigrams have the given code.
pub open spec fn occurrences(bigrams: Seq<(u8, u8)>, code: u16) -> nat
    decreases bigrams.len(),
{
    if bigrams.len() == 0 {
        0
    } else {
        occurrences(bigrams.drop_last(), code) + if bigram_code(bigrams.last()) == code {
            1nat
        } else {
            0nat
        }
    }
}

/// How often the bigram with the given code occurs in a line.
pub open spec fn frequency(line: Seq<u8>, code: u16) -> nat {
    occurrences(bigrams_of(line), code)
}

/// The smaller of two counts.
pub open spec fn smaller(a: nat, b: nat) -> nat {
    if a <= b {
        a
    } else {
        b
    }
}

/// What the bigram with the given code adds to the coverage of `query` by
/// `reference`: the smaller of its two frequencies.
pub open spec fn shared(query: Seq<u8>, reference: Seq<u8>, code: u16) -> nat {
    smaller(frequency(query, code), frequency(reference, code))
}

/// The coverage restricted to the bigram codes below `bound`.
pub open spec fn coverage_below(query: Seq<u8>, reference: Seq<u8>, bound: nat) -> nat
    decreases bound,
{
    if bound == 0 {
        0
    } else {
        coverage_below(query, reference, (bound - 1) as nat) + shared(
            query,
            reference,
            (bound - 1) as u16,
        )
    }
}

/// The coverage of `query` by `reference`: the size of the intersection of
/// their bigram multisets, that is the sum over all bigrams of the smaller of
/// the two frequencies.
pub open spec fn coverage(query: Seq<u8>, reference: Seq<u8>) -> nat {
    coverage_below(query, reference, BIGRAM_CODES as nat)
}

/// No bigram occurs more often than there are bigrams.
pub proof fn lemma_occurrences_bounded(bigrams: Seq<(u8, u8)>, code: u16)
    ensures
        occurrences(bigrams, code) <= bigrams.len(),
    decreases bigrams.len(),
{
    if bigrams.len() > 0 {
        lemma_occurrences_bounded(bigrams.drop_last(), code);
    }
}

/// Counting over one more bigram adds one exactly where its code is counted.
pub proof fn lemma_occurrences_step(bigrams: Seq<(u8, u8)>, i: int, code: u16)
    requires
        0 <= i < bigrams.len(),
    ensures
        occurrences(bigrams.take(i + 1), code) == occurrences(bigrams.take(i), code) + if bigram_code(
            bigrams[i],
        ) == code {
            1nat
        } else {
            0nat
        },
{
    assert(bigrams.take(i + 1).drop_last() =~= bigrams.take(i));
}

/// How many of the given bigrams have a code below `bound`, counted code by
/// code.
pub open spec fn total_below(bigrams: Seq<(u8, u8)>, bound: nat) -> nat
    decreases bound,
{
    if bound == 0 {
        0
    } else {
        total_below(bigrams, (bound - 1) as nat) + occurrences(bigrams, (bound - 1) as u16)
    }
}

/// One more bigram adds one to the total exactly where its code is below
/// the bound.
proof fn lemma_total_step(bigrams: Seq<(u8, u8)>, g: (u8, u8), bound: nat)
    requires
        bound <= BIGRAM_CODES,
    ensures
        total_below(bigrams.push(g), bound) == total_below(bigrams, bound) + if bigram_code(g)
            < bound {
            1nat
        } else {
            0nat
        },
    decreases bound,
{
    if bound > 0 {
        lemma_total_step(bigrams, g, (bound - 1) as nat);
        assert(bigrams.push(g).drop_last() =~= bigrams);
    }
}

/// The occurrences of all codes together are no more than the bigrams.
proof fn lemma_total_bounded(bigrams: Seq<(u8, u8)>, bound: nat)
    requires
        bound <= BIGRAM_CODES,
    ensures
        total_below(bigrams, bound) <= bigrams.len(),
    decreases bigrams.len(),
{
    if bigrams.len() == 0 {
        lemma_total_of_none(bigrams, bound);
    } else {
        lemma_total_bounded(bigrams.drop_last(), bound);
        lemma_total_step(bigrams.drop_last(), bigrams.last(), bound);
        assert(bigrams.drop_last().push(bigrams.last()) =~= bigrams);
    }
}

/// Without bigrams every total is zero.
proof fn lemma_total_of_none(bigrams: Seq<(u8, u8)>, bound: nat)
    requires
        bigrams.len() == 0,
    ensures
        total_below(bigrams, bound) == 0,
    decreases bound,
{
    if bound > 0 {
        lemma_total_of_none(bigrams, (bound - 1) as nat);
    }
}

/// The coverage over the codes below a bound is no more than the query's
/// bigrams with such codes.
proof fn lemma_coverage_below_total(query: Seq<u8>, reference: Seq<u8>, bound: nat)
    ensures
        coverage_below(query, reference, bound) <= total_below(bigrams_of(query), bound),
    decreases bound,
{
    if bound > 0 {
        lemma_coverage_below_total(query, reference, (bound - 1) as nat);
    }
}

/// The coverage of a query is never more than the number of its bigrams.
pub proof fn lemma_coverage_bounded(query: Seq<u8>, reference: Seq<u8>)
    ensures
        coverage(query, reference) <= bigrams_of(query).len(),
        coverage(query, reference) <= query.len(),
{
    lemma_coverage_below_total(query, reference, BIGRAM_CODES as nat);
    lemma_total_bounded(bigrams_of(query), BIGRAM_CODES as nat);
}

/// Where one of the two lines has no bigram with a code below the bound, the
/// coverage over those codes is zero.
proof fn lemma_coverage_below_of_none(query: Seq<u8>, reference: Seq<u8>, bound: nat)
    requires
        bigrams_of(query).len() == 0 || bigrams_of(reference).len() == 0,
    ensures
        coverage_below(query, reference, bound) == 0,
    decreases bound,
{
    if bound > 0 {
        lemma_coverage_below_of_none(query, reference, (bound - 1) as nat);
        lemma_occurrences_bounded(bigrams_of(query), (bound - 1) as u16);
        lemma_occurrences_bounded(bigrams_of(reference), (bound - 1) as u16);
    }
}

/// A line shorter than two bytes has no bigrams, so no coverage: neither as
/// the query nor as the reference.
pub proof fn lemma_short_line_has_no_coverage(query: Seq<u8>, reference: Seq<u8>)
    requires
        query.len() < 2 || reference.len() < 2,
    ensures
        bigrams_of(query).len() == 0 || bigrams_of(reference).len() == 0,
        coverage(query, reference) == 0,
{
    lemma_coverage_below_of_none(query, reference, BIGRAM_CODES as nat);
}

/// Computes the code of a bigram.
pub fn code_of(g: (u8, u8)) -> (code: u16)
    ensures
        code == bigram_code(g),
{
    let high: u16 = g.0 as u16;
    let low: u16 = g.1 as u16;
    high * 256 + low
}

/// Lists the bigrams of a line in order.
pub fn generate_bigrams(lst: &[u8]) -> (result: Vec<(u8, u8)>)
    ensures
        result@ == bigrams_of(lst@),
{
    let mut result: Vec<(u8, u8)> = Vec::new();
    if lst.len() < 2 {
        return result;
    }
    let mut i: usize = 0;
    while i < lst.len() - 1
        invariant
            lst.len() >= 2,
            i <= lst.len() - 1,
            result@ == bigrams_of(lst@).take(i as int),
        decreases lst.len() - i,
    {
        result.push((lst[i], lst[i + 1]));
        assert(result@ =~= bigrams_of(lst@).take(i + 1));
        i += 1;
    }
    assert(result@ =~= bigrams_of(lst@));
    result
}

/// A map holds exactly the frequencies of a sequence of bigrams: every code
/// that occurs is a key, with the number of its occurrences, and no other
/// code is a key.
pub open spec fn counts_bigrams(counts: Map<u16, usize>, bigrams: Seq<(u8, u8)>) -> bool {
    forall|code: u16|
        #![trigger counts.contains_key(code)]
        #![trigger occurrences(bigrams, code)]
        {
            &&& counts.contains_key(code) <==> occurrences(bigrams, code) > 0
            &&& counts.contains_key(code) ==> counts[code] == occurrences(bigrams, code)
        }
}

/// Counts how often each bigram code occurs.
pub fn create_frequency_map(bigrams: &Vec<(u8, u8)>) -> (frequency_map: HashMap<u16, usize>)
    ensures
        counts_bigrams(frequency_map@, bigrams@),
{
    let mut frequency_map: HashMap<u16, usize> = HashMap::with_capacity(bigrams.len());
    let mut i: usize = 0;
    while i < bigrams.len()
        invariant
            i <= bigrams.len(),
            counts_bigrams(frequency_map@, bigrams@.take(i as int)),
        decreases bigrams.len() - i,
    {
        let code = code_of(bigrams[i]);
        let seen: usize = match frequency_map.get(&code) {
            Some(count) => *count,
            None => 0,
        };
        proof {
            lemma_occurrences_bounded(bigrams@.take(i as int), code);
            assert forall|c: u16|
                #![trigger occurrences(bigrams@.take(i + 1), c)]
                occurrences(bigrams@.take(i + 1), c) == occurrences(bigrams@.take(i as int), c)
                    + if bigram_code(bigrams@[i as int]) == c {
                    1nat
                } else {
                    0nat
                } by {
                lemma_occurrences_step(bigrams@, i as int, c);
            }
        }
        frequency_map.insert(code, seen + 1);
        i += 1;
    }
    assert(bigrams@.take(bigrams.len() as int) =~= bigrams@);
    frequency_map
}

} // verus!
