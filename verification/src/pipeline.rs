//! The whole pipeline: index the queries, shortlist references for each of
//! them, and pick the match of each from its shortlist.

use crate::bigram::{coverage, lemma_short_line_has_no_coverage};
use crate::entry::Entry;
use crate::index::index_queries;
use crate::matcher::{
    best_match, fuzz_pass, lemma_match_is_listed, lemma_nothing_listed_no_match, match_text,
    names_references, unmapped, MatchReport, MatchRow,
};
use crate::scale::ScoreScale;
use crate::scorer::{
    candidate, candidates, heuristic_filter, lemma_candidates_rising, shortlisted,
};
use crate::shortlist::{Shortlist, SHORTLIST_CAPACITY};
use crate::text::rendered;
use crate::topk::{
    is_stable_top, is_top, lemma_offer_all_is_stable_top, lemma_stable_top_is_top, offer_all,
};
use std::collections::HashMap;
use vstd::multiset::Multiset;
use vstd::prelude::*;

verus! {

/// The shortlist of query `q` once every reference was scored.
pub open spec fn shortlist_of(queries: Seq<Vec<u8>>, refs: Seq<Vec<u8>>, q: int) -> Multiset<
    Entry,
> {
    shortlisted(
        Multiset::empty(),
        queries[q]@,
        refs,
        refs.len() as int,
        SHORTLIST_CAPACITY as nat,
    )
}

/// The text of the match of query `q`, empty where it has none.
pub open spec fn matched_text(
    queries: Seq<Vec<u8>>,
    refs: Seq<Vec<u8>>,
    cut_off: u8,
    scale: ScoreScale,
    q: int,
) -> Seq<char> {
    match_text(
        best_match(shortlist_of(queries, refs, q), refs, queries[q]@, cut_off, scale),
        refs,
    )
}

/// The report is the result of matching the queries against the
/// references: it has one row for each query, in order, with the query's
/// text and the text of its match, and it counts the rows without a match.
pub open spec fn is_report_of(
    report: MatchReport,
    queries: Seq<Vec<u8>>,
    refs: Seq<Vec<u8>>,
    cut_off: u8,
    scale: ScoreScale,
) -> bool {
    &&& report.rows@.len() == queries.len()
    &&& forall|q: int|
        #![trigger report.rows@[q]]
        0 <= q < queries.len() ==> {
            &&& report.rows@[q].query@ == rendered(queries[q]@)
            &&& report.rows@[q].reference@ == matched_text(queries, refs, cut_off, scale, q)
        }
    &&& report.not_mapped == unmapped(report.rows@)
}

/// Every candidate among the first `n` references is the entry of one of
/// them, and that reference has two bytes or more.
pub proof fn lemma_candidates_name_references(
    query: Seq<u8>,
    refs: Seq<Vec<u8>>,
    n: int,
    e: Entry,
)
    requires
        0 <= n <= refs.len(),
        refs.len() <= usize::MAX,
        candidates(query, refs, n).contains(e),
    ensures
        exists|j: int|
            0 <= j < n && refs[j]@.len() >= 2 && e == #[trigger] candidate(query, refs, j),
        e.ref_index < n,
{
    lemma_candidates_rising(query, refs, n);
    let i = choose|i: int| 0 <= i < candidates(query, refs, n).len() && candidates(
        query,
        refs,
        n,
    )[i] == e;
    assert(e == candidate(query, refs, candidates(query, refs, n)[i].ref_index as int));
}

/// After the scorer the shortlist of a query of two bytes or more holds the
/// best of its candidates: as many as its capacity, or all of them if they
/// are fewer, and none that was left out ranks strictly before one that was
/// taken. Of candidates tied in rank those with the smaller reference index
/// are taken first, so the shortlist is what a stable sort of the
/// candidates by rank, cut after the capacity, would leave. The shortlist
/// of a shorter query is empty.
pub proof fn lemma_shortlist_is_top(queries: Seq<Vec<u8>>, refs: Seq<Vec<u8>>, q: int)
    requires
        0 <= q < queries.len(),
        refs.len() <= usize::MAX,
    ensures
        queries[q]@.len() >= 2 ==> is_top(
            shortlist_of(queries, refs, q),
            candidates(queries[q]@, refs, refs.len() as int).to_multiset(),
            SHORTLIST_CAPACITY as nat,
        ),
        queries[q]@.len() >= 2 ==> is_stable_top(
            shortlist_of(queries, refs, q),
            candidates(queries[q]@, refs, refs.len() as int).to_multiset(),
            SHORTLIST_CAPACITY as nat,
        ),
        queries[q]@.len() < 2 ==> shortlist_of(queries, refs, q) == Multiset::<Entry>::empty(),
{
    let offered = candidates(queries[q]@, refs, refs.len() as int);
    lemma_candidates_rising(queries[q]@, refs, refs.len() as int);
    lemma_offer_all_is_stable_top(offered, SHORTLIST_CAPACITY as nat);
    lemma_stable_top_is_top(
        offer_all(Multiset::empty(), offered, SHORTLIST_CAPACITY as nat),
        offered.to_multiset(),
        SHORTLIST_CAPACITY as nat,
    );
}

/// Every entry on the shortlist of a query is the candidate of a reference.
pub proof fn lemma_shortlist_names_references(
    queries: Seq<Vec<u8>>,
    refs: Seq<Vec<u8>>,
    q: int,
    e: Entry,
)
    requires
        0 <= q < queries.len(),
        refs.len() <= usize::MAX,
        shortlist_of(queries, refs, q).contains(e),
    ensures
        exists|j: int|
            0 <= j < refs.len() && refs[j]@.len() >= 2 && e == #[trigger] candidate(
                queries[q]@,
                refs,
                j,
            ),
        e.ref_index < refs.len(),
{
    broadcast use vstd::seq_lib::group_to_multiset_ensures;

    lemma_shortlist_is_top(queries, refs, q);
    let offered = candidates(queries[q]@, refs, refs.len() as int);
    assert(offered.to_multiset().count(e) > 0);
    assert(offered.contains(e));
    lemma_candidates_name_references(queries[q]@, refs, refs.len() as int, e);
}

/// The verifier looks at nothing but the shortlist: a match that is not
/// empty is the text of a reference that the scorer put on the query's
/// shortlist.
pub proof fn lemma_match_was_shortlisted(
    queries: Seq<Vec<u8>>,
    refs: Seq<Vec<u8>>,
    cut_off: u8,
    scale: ScoreScale,
    q: int,
)
    requires
        0 <= q < queries.len(),
        refs.len() <= usize::MAX,
        matched_text(queries, refs, cut_off, scale, q).len() > 0,
    ensures
        exists|j: int|
            0 <= j < refs.len() && shortlist_of(queries, refs, q).contains(
                #[trigger] candidate(queries[q]@, refs, j),
            ) && matched_text(queries, refs, cut_off, scale, q) == rendered(refs[j]@),
{
    let entries = shortlist_of(queries, refs, q);
    lemma_match_is_listed(entries, refs, queries[q]@, cut_off, scale);
    let w = best_match(entries, refs, queries[q]@, cut_off, scale)->0;
    lemma_shortlist_names_references(queries, refs, q, w);
    let j = choose|j: int|
        0 <= j < refs.len() && refs[j]@.len() >= 2 && w == #[trigger] candidate(
            queries[q]@,
            refs,
            j,
        );
    assert(w.ref_index == j);
}

/// A query shorter than two bytes shares no bigram with any reference and
/// has no match.
pub proof fn lemma_short_query_unmatched(
    queries: Seq<Vec<u8>>,
    refs: Seq<Vec<u8>>,
    cut_off: u8,
    scale: ScoreScale,
    q: int,
)
    requires
        0 <= q < queries.len(),
        queries[q]@.len() < 2,
    ensures
        forall|j: int| 0 <= j < refs.len() ==> coverage(queries[q]@, #[trigger] refs[j]@) == 0,
        matched_text(queries, refs, cut_off, scale, q) == Seq::<char>::empty(),
{
    assert forall|j: int| 0 <= j < refs.len() implies coverage(queries[q]@, #[trigger] refs[j]@)
        == 0 by {
        lemma_short_line_has_no_coverage(queries[q]@, refs[j]@);
    }
    lemma_nothing_listed_no_match(
        shortlist_of(queries, refs, q),
        refs,
        queries[q]@,
        cut_off,
        scale,
    );
}

/// A reference shorter than two bytes shares no bigram with any query and
/// is never a match.
pub proof fn lemma_short_reference_unlisted(queries: Seq<Vec<u8>>, refs: Seq<Vec<u8>>, q: int, j: int)
    requires
        0 <= q < queries.len(),
        0 <= j < refs.len(),
        refs.len() <= usize::MAX,
        refs[j]@.len() < 2,
    ensures
        coverage(queries[q]@, refs[j]@) == 0,
        forall|e: Entry| #[trigger]
            shortlist_of(queries, refs, q).contains(e) ==> e.ref_index != j,
{
    lemma_short_line_has_no_coverage(queries[q]@, refs[j]@);
    assert forall|e: Entry| #[trigger]
        shortlist_of(queries, refs, q).contains(e) implies e.ref_index != j by {
        lemma_shortlist_names_references(queries, refs, q, e);
    }
}

/// The rows without a match are counted the same in two lists of rows with
/// the same texts.
proof fn lemma_unmapped_same(a: Seq<MatchRow>, b: Seq<MatchRow>)
    requires
        a.len() == b.len(),
        forall|q: int| 0 <= q < a.len() ==> (#[trigger] a[q]).reference@ == b[q].reference@,
    ensures
        unmapped(a) == unmapped(b),
    decreases a.len(),
{
    if a.len() > 0 {
        lemma_unmapped_same(a.drop_last(), b.drop_last());
    }
}

/// The result is determined by the queries, the references, the cut-off
/// and the scale: two reports of the same run have the same rows, text for
/// text, and the same count. Running the pipeline again changes nothing.
pub proof fn lemma_report_determined(
    first: MatchReport,
    second: MatchReport,
    queries: Seq<Vec<u8>>,
    refs: Seq<Vec<u8>>,
    cut_off: u8,
    scale: ScoreScale,
)
    requires
        is_report_of(first, queries, refs, cut_off, scale),
        is_report_of(second, queries, refs, cut_off, scale),
    ensures
        first.rows@.len() == second.rows@.len(),
        forall|q: int|
            #![trigger first.rows@[q]]
            0 <= q < first.rows@.len() ==> first.rows@[q].query@ == second.rows@[q].query@
                && first.rows@[q].reference@ == second.rows@[q].reference@,
        first.not_mapped == second.not_mapped,
{
    assert forall|q: int| 0 <= q < first.rows@.len() implies (#[trigger] first.rows@[q]).reference@
        == second.rows@[q].reference@ by {
        assert(second.rows@[q].reference@ == matched_text(queries, refs, cut_off, scale, q));
    }
    assert forall|q: int|
        #![trigger first.rows@[q]]
        0 <= q < first.rows@.len() implies first.rows@[q].query@ == second.rows@[q].query@
        && first.rows@[q].reference@ == second.rows@[q].reference@ by {
        assert(second.rows@[q].query@ == rendered(queries[q]@));
    }
    lemma_unmapped_same(first.rows@, second.rows@);
}

/// Matches every query against the references.
///
/// The queries are indexed by their bigrams; every reference of two bytes
/// or more is scored against every query of two bytes or more, and the best
/// scores of a query make its shortlist; the match of a query is picked
/// from its shortlist by similarity of the texts.
pub fn match_queries(
    queries: &[Vec<u8>],
    refs: &[Vec<u8>],
    cut_off: u8,
    scale: &ScoreScale,
) -> (report: MatchReport)
    ensures
        is_report_of(report, queries@, refs@, cut_off, *scale),
{
    let index: HashMap<u16, HashMap<usize, usize>> = index_queries(queries);
    let mut cov_vector: Vec<usize> = Vec::new();
    let mut heaps: Vec<Shortlist> = Vec::new();
    let count: usize = queries.len();
    let mut q: usize = 0;
    while q < count
        invariant
            q <= count,
            heaps@.len() == q,
            forall|p: int|
                #![trigger heaps@[p]]
                0 <= p < q ==> heaps@[p].wf() && heaps@[p].capacity() == SHORTLIST_CAPACITY
                    && heaps@[p].entries() == Multiset::<Entry>::empty(),
        decreases count - q,
    {
        heaps.push(Shortlist::new());
        q += 1;
    }
    heuristic_filter(&index, refs, queries, &mut cov_vector, &mut heaps);
    let ref_count: usize = refs.len();
    proof {
        assert(refs@.len() == ref_count);
        assert forall|p: int|
            #![trigger heaps@[p]]
            0 <= p < queries@.len() implies heaps@[p].wf() && heaps@[p].entries() == shortlist_of(
            queries@,
            refs@,
            p,
        ) && names_references(heaps@[p].entries(), refs@.len() as int) by {
            assert forall|e: Entry| #[trigger] heaps@[p].entries().contains(e) implies e.ref_index
                < refs@.len() by {
                lemma_shortlist_names_references(queries@, refs@, p, e);
            }
        }
    }
    fuzz_pass(&mut heaps, queries, refs, cut_off, scale)
}

} // verus!
