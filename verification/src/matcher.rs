//! The fuzzy verifier: of the references on a query's shortlist, the one
//! whose text is most similar to the query's.

use crate::entry::{outlasts, outlasts_or_same, reverse_transform, Entry};
use crate::scale::{ScoreScale, MAX_RATIO};
use crate::scorer::{length_difference, length_gap};
use crate::shortlist::Shortlist;
use crate::text::{bytes_to_utf8_string, rendered};
use vstd::multiset::Multiset;
use vstd::prelude::*;
use vstd::utf8::is_ascii_chars;

verus! {

/// The partial similarity ratio of two texts: how similar the shorter one
/// is to the part of the longer one that resembles it most.
pub uninterp spec fn partial_ratio_of(candidate: Seq<char>, query: Seq<char>) -> u8;

/// Computes the partial similarity ratio of two ASCII texts.
///
/// Calls `fuzzywuzzy::fuzz::partial_ratio`. The contract claims that the
/// result depends on the two texts alone and is a number from 0 to 100, as
/// the function's documentation says. The texts must be ASCII: the function
/// cuts them at byte positions, which fails inside a longer character.
#[verifier::external_body]
fn partial_ratio(candidate: &str, query: &str) -> (ratio: u8)
    requires
        is_ascii_chars(candidate@),
        is_ascii_chars(query@),
    ensures
        ratio == partial_ratio_of(candidate@, query@),
        ratio <= MAX_RATIO,
{
    fuzzywuzzy::fuzz::partial_ratio(candidate, query)
}

/// The best candidate found so far for a query.
#[derive(Clone, Copy, Debug, PartialEq, Eq, Structural)]
pub struct Standing {
    pub ref_index: usize,
    pub score: i128,
    pub size_difference: usize,
}

/// The combined score of a candidate: its scaled ratio less the difference
/// in length.
pub fn combined_score(ratio: u8, size_difference: usize, scale: &ScoreScale) -> (score: i128)
    requires
        ratio <= MAX_RATIO,
    ensures
        score == scale.scaled(ratio as int) - size_difference,
{
    let scaled: i128 = scale.apply(ratio) as i128;
    let penalty: i128 = size_difference as i128;
    scaled - penalty
}

/// A candidate with the given ratio, combined score and difference in
/// length takes the place of the best so far: its ratio reaches the
/// cut-off, and there is no best yet, or its score is higher, or its score
/// is the same and its difference in length smaller.
pub open spec fn improves_on(
    best: Option<Standing>,
    ratio: u8,
    score: int,
    size_difference: int,
    cut_off: u8,
) -> bool {
    ratio >= cut_off && match best {
        None => true,
        Some(b) => score > b.score || (score == b.score && size_difference < b.size_difference),
    }
}

/// Tells whether a candidate takes the place of the best so far.
pub fn accepts(
    best: &Option<Standing>,
    ratio: u8,
    score: i128,
    size_difference: usize,
    cut_off: u8,
) -> (accepted: bool)
    ensures
        accepted == improves_on(*best, ratio, score as int, size_difference as int, cut_off),
{
    if ratio < cut_off {
        return false;
    }
    match best {
        None => true,
        Some(b) => score > b.score || (score == b.score && size_difference < b.size_difference),
    }
}

/// The partial similarity ratio of the entry's reference and the query, both
/// rendered as text.
pub open spec fn ratio_of(refs: Seq<Vec<u8>>, query: Seq<u8>, e: Entry) -> u8 {
    partial_ratio_of(rendered(refs[e.ref_index as int]@), rendered(query))
}

/// The difference in length between the entry's reference and the query.
pub open spec fn gap_of(refs: Seq<Vec<u8>>, query: Seq<u8>, e: Entry) -> int {
    length_gap(refs[e.ref_index as int]@.len() as int, query.len() as int)
}

/// The combined score of the entry's reference as a match for the query.
pub open spec fn score_of(refs: Seq<Vec<u8>>, query: Seq<u8>, scale: ScoreScale, e: Entry) -> int {
    scale.scaled(ratio_of(refs, query, e) as int) - gap_of(refs, query, e)
}

/// The entry's reference is similar enough to the query to be its match.
pub open spec fn clears(refs: Seq<Vec<u8>>, query: Seq<u8>, cut_off: u8, e: Entry) -> bool {
    ratio_of(refs, query, e) >= cut_off
}

/// `e` is preferred to `w` as the match: it has the higher combined score,
/// or the same score and the smaller difference in length, or the same of
/// both and it is the first of the two to leave the shortlist.
pub open spec fn outdoes(
    refs: Seq<Vec<u8>>,
    query: Seq<u8>,
    scale: ScoreScale,
    e: Entry,
    w: Entry,
) -> bool {
    let se = score_of(refs, query, scale, e);
    let sw = score_of(refs, query, scale, w);
    let ge = gap_of(refs, query, e);
    let gw = gap_of(refs, query, w);
    ||| se > sw
    ||| (se == sw && ge < gw)
    ||| (se == sw && ge == gw && outlasts(w, e))
}

/// `w` is the entry whose reference is the match: it is on the shortlist,
/// it is similar enough, and no entry that is similar enough is preferred
/// to it.
pub open spec fn is_winner(
    entries: Multiset<Entry>,
    refs: Seq<Vec<u8>>,
    query: Seq<u8>,
    cut_off: u8,
    scale: ScoreScale,
    w: Entry,
) -> bool {
    &&& entries.contains(w)
    &&& clears(refs, query, cut_off, w)
    &&& forall|e: Entry|
        #![trigger entries.contains(e)]
        entries.contains(e) && clears(refs, query, cut_off, e) ==> !outdoes(
            refs,
            query,
            scale,
            e,
            w,
        )
}

/// The entry whose reference is the match for the query, if there is one.
pub open spec fn best_match(
    entries: Multiset<Entry>,
    refs: Seq<Vec<u8>>,
    query: Seq<u8>,
    cut_off: u8,
    scale: ScoreScale,
) -> Option<Entry> {
    if exists|w: Entry| is_winner(entries, refs, query, cut_off, scale, w) {
        Some(choose|w: Entry| is_winner(entries, refs, query, cut_off, scale, w))
    } else {
        None
    }
}

/// The text of a match: the winner's reference rendered as text, or nothing
/// where there is no winner.
pub open spec fn match_text(winner: Option<Entry>, refs: Seq<Vec<u8>>) -> Seq<char> {
    match winner {
        Some(w) => rendered(refs[w.ref_index as int]@),
        None => Seq::empty(),
    }
}

/// A shortlist has at most one winner.
pub proof fn lemma_winner_unique(
    entries: Multiset<Entry>,
    refs: Seq<Vec<u8>>,
    query: Seq<u8>,
    cut_off: u8,
    scale: ScoreScale,
    a: Entry,
    b: Entry,
)
    requires
        is_winner(entries, refs, query, cut_off, scale, a),
        is_winner(entries, refs, query, cut_off, scale, b),
    ensures
        a == b,
{
    assert(entries.contains(a));
    assert(entries.contains(b));
    assert(!outdoes(refs, query, scale, a, b));
    assert(!outdoes(refs, query, scale, b, a));
}

/// The match comes from the shortlist: a match that is not empty is the
/// text of a reference that has an entry there.
pub proof fn lemma_match_is_listed(
    entries: Multiset<Entry>,
    refs: Seq<Vec<u8>>,
    query: Seq<u8>,
    cut_off: u8,
    scale: ScoreScale,
)
    ensures
        match best_match(entries, refs, query, cut_off, scale) {
            Some(w) => entries.contains(w) && clears(refs, query, cut_off, w),
            None => true,
        },
        match_text(best_match(entries, refs, query, cut_off, scale), refs).len() > 0
            ==> exists|w: Entry|
            entries.contains(w) && match_text(
                best_match(entries, refs, query, cut_off, scale),
                refs,
            ) == rendered(#[trigger] refs[w.ref_index as int]@),
{
    match best_match(entries, refs, query, cut_off, scale) {
        Some(w) => {
            assert(is_winner(entries, refs, query, cut_off, scale, w));
        },
        None => {},
    }
}

/// An empty shortlist has no match.
pub proof fn lemma_nothing_listed_no_match(
    entries: Multiset<Entry>,
    refs: Seq<Vec<u8>>,
    query: Seq<u8>,
    cut_off: u8,
    scale: ScoreScale,
)
    requires
        entries.len() == 0,
    ensures
        best_match(entries, refs, query, cut_off, scale) is None,
        match_text(best_match(entries, refs, query, cut_off, scale), refs) == Seq::<char>::empty(),
{
    vstd::multiset::lemma_multiset_empty_len(entries);
}

/// Every entry of the multiset names one of the references.
pub open spec fn names_references(entries: Multiset<Entry>, count: int) -> bool {
    forall|e: Entry| #[trigger] entries.contains(e) ==> e.ref_index < count
}

/// Picks the match for a query from its shortlist, which is emptied.
///
/// Every reference on the shortlist is rendered as text and compared with
/// the query's text. The match is the text of the winner: of the
/// references whose ratio reaches `cut_off`, the one with the highest
/// combined score, of several the one closest in length, of several the one
/// that leaves the shortlist first. Where no ratio reaches the cut-off the
/// match is empty.
pub fn find_max_match(
    heap: &mut Shortlist,
    refs: &[Vec<u8>],
    query: &[u8],
    cut_off: u8,
    scale: &ScoreScale,
) -> (max_match: String)
    requires
        old(heap).wf(),
        names_references(old(heap).entries(), refs@.len() as int),
    ensures
        final(heap).wf(),
        final(heap).capacity() == old(heap).capacity(),
        final(heap).entries() == Multiset::<Entry>::empty(),
        max_match@ == match_text(
            best_match(old(heap).entries(), refs@, query@, cut_off, *scale),
            refs@,
        ),
        best_match(old(heap).entries(), refs@, query@, cut_off, *scale) is None <==> forall|
            e: Entry,
        |
            #![trigger old(heap).entries().contains(e)]
            old(heap).entries().contains(e) ==> !clears(refs@, query@, cut_off, e),
{
    let query_string: String = bytes_to_utf8_string(query);
    let ghost all = heap.entries();
    let mut best: Option<Standing> = None;
    let mut max_match: String = String::new();
    let ghost mut winner: Option<Entry> = None;
    while heap.len() > 0
        invariant
            heap.wf(),
            heap.capacity() == old(heap).capacity(),
            all == old(heap).entries(),
            heap.entries().subset_of(all),
            names_references(all, refs@.len() as int),
            query_string@ == rendered(query@),
            is_ascii_chars(query_string@),
            forall|x: Entry, y: Entry|
                #![trigger heap.entries().count(x), all.count(y)]
                heap.entries().count(x) > 0 && all.count(y) > heap.entries().count(y)
                    ==> outlasts_or_same(x, y),
            match winner {
                None => {
                    &&& best is None
                    &&& max_match@ == Seq::<char>::empty()
                    &&& forall|e: Entry|
                        #![trigger all.count(e)]
                        all.count(e) > heap.entries().count(e) ==> !clears(
                            refs@,
                            query@,
                            cut_off,
                            e,
                        )
                },
                Some(w) => {
                    &&& best == Some(
                        Standing {
                            ref_index: w.ref_index,
                            score: score_of(refs@, query@, *scale, w) as i128,
                            size_difference: gap_of(refs@, query@, w) as usize,
                        },
                    )
                    &&& best->0.score == score_of(refs@, query@, *scale, w)
                    &&& best->0.size_difference == gap_of(refs@, query@, w)
                    &&& max_match@ == rendered(refs@[w.ref_index as int]@)
                    &&& all.count(w) > heap.entries().count(w)
                    &&& clears(refs@, query@, cut_off, w)
                    &&& forall|e: Entry|
                        #![trigger all.count(e)]
                        all.count(e) > heap.entries().count(e) && clears(
                            refs@,
                            query@,
                            cut_off,
                            e,
                        ) ==> !outdoes(refs@, query@, *scale, e, w)
                },
            },
        decreases heap.entries().len(),
    {
        let ghost rest = heap.entries();
        let popped: Option<Entry> = heap.pop();
        match popped {
            Some(item) => {
                proof {
                    assert(rest.contains(item));
                    assert(all.contains(item));
                    assert(Multiset::singleton(item).subset_of(rest)) by {
                        assert forall|v: Entry| Multiset::singleton(item).count(v) <= rest.count(
                            v,
                        ) by {
                            if v != item {
                                vstd::multiset::axiom_multiset_singleton_different(item, v);
                            }
                        }
                    }
                    vstd::multiset::axiom_len_sub(rest, Multiset::singleton(item));
                }
                let (ref_index, _, _) = reverse_transform(&item);
                let ref_bytes: &Vec<u8> = &refs[ref_index];
                let ref_string: String = bytes_to_utf8_string(ref_bytes.as_slice());
                let fuzz_r: u8 = partial_ratio(ref_string.as_str(), query_string.as_str());
                let size_difference: usize = length_difference(ref_bytes.len(), query.len());
                let combined: i128 = combined_score(fuzz_r, size_difference, scale);
                proof {
                    assert(fuzz_r == ratio_of(refs@, query@, item));
                    assert(size_difference == gap_of(refs@, query@, item));
                    assert(combined == score_of(refs@, query@, *scale, item));
                    assert forall|x: Entry, y: Entry|
                        #![trigger heap.entries().count(x), all.count(y)]
                        heap.entries().count(x) > 0 && all.count(y) > heap.entries().count(
                            y,
                        ) implies outlasts_or_same(x, y) by {
                        assert(rest.contains(x));
                        if y != item {
                            assert(heap.entries().count(y) == rest.count(y));
                            assert(rest.count(x) > 0 && all.count(y) > rest.count(y));
                        }
                    }
                }
                if accepts(&best, fuzz_r, combined, size_difference, cut_off) {
                    proof {
                        assert forall|e: Entry|
                            #![trigger all.count(e)]
                            all.count(e) > heap.entries().count(e) && clears(
                                refs@,
                                query@,
                                cut_off,
                                e,
                            ) implies !outdoes(refs@, query@, *scale, e, item) by {
                            if e != item {
                                assert(heap.entries().count(e) == rest.count(e));
                                assert(all.count(e) > rest.count(e));
                            }
                        }
                        winner = Some(item);
                    }
                    max_match = ref_string;
                    best = Some(Standing { ref_index, score: combined, size_difference });
                } else {
                    proof {
                        match winner {
                            None => {
                                assert forall|e: Entry|
                                    #![trigger all.count(e)]
                                    all.count(e) > heap.entries().count(e) implies !clears(
                                    refs@,
                                    query@,
                                    cut_off,
                                    e,
                                ) by {
                                    if e != item {
                                        assert(heap.entries().count(e) == rest.count(e));
                                        assert(all.count(e) > rest.count(e));
                                    }
                                }
                            },
                            Some(w) => {
                                assert(rest.count(item) > 0 && all.count(w) > rest.count(w));
                                assert(outlasts_or_same(item, w));
                                assert forall|e: Entry|
                                    #![trigger all.count(e)]
                                    all.count(e) > heap.entries().count(e) && clears(
                                        refs@,
                                        query@,
                                        cut_off,
                                        e,
                                    ) implies !outdoes(refs@, query@, *scale, e, w) by {
                                    if e != item {
                                        assert(heap.entries().count(e) == rest.count(e));
                                        assert(all.count(e) > rest.count(e));
                                    }
                                }
                            },
                        }
                    }
                }
            },
            None => {},
        }
    }
    proof {
        vstd::multiset::lemma_multiset_empty_len(heap.entries());
        assert(heap.entries() =~= Multiset::<Entry>::empty());
        match winner {
            None => {
                assert forall|e: Entry| #[trigger] all.contains(e) implies !clears(
                    refs@,
                    query@,
                    cut_off,
                    e,
                ) by {
                    assert(all.count(e) > heap.entries().count(e));
                }
            },
            Some(w) => {
                assert forall|e: Entry|
                    #![trigger all.contains(e)]
                    all.contains(e) && clears(refs@, query@, cut_off, e) implies !outdoes(
                    refs@,
                    query@,
                    *scale,
                    e,
                    w,
                ) by {
                    assert(all.count(e) > heap.entries().count(e));
                }
                assert(is_winner(all, refs@, query@, cut_off, *scale, w));
                let chosen = choose|c: Entry| is_winner(all, refs@, query@, cut_off, *scale, c);
                lemma_winner_unique(all, refs@, query@, cut_off, *scale, w, chosen);
            },
        }
    }
    max_match
}

/// One line of the result: the text of a query and the text of its match,
/// which is empty where the query has none.
#[derive(Clone, Debug, PartialEq, Eq)]
pub struct MatchRow {
    pub query: String,
    pub reference: String,
}

/// The result for all queries: one row for each, in their order, and the
/// number of queries without a match.
#[derive(Clone, Debug, PartialEq, Eq)]
pub struct MatchReport {
    pub rows: Vec<MatchRow>,
    pub not_mapped: usize,
}

/// The number of rows whose match is empty.
pub open spec fn unmapped(rows: Seq<MatchRow>) -> nat
    decreases rows.len(),
{
    if rows.len() == 0 {
        0
    } else {
        unmapped(rows.drop_last()) + if rows.last().reference@.len() == 0 {
            1nat
        } else {
            0nat
        }
    }
}

/// Picks the match for every query from its shortlist. The shortlists are
/// emptied.
pub fn fuzz_pass(
    heaps: &mut Vec<Shortlist>,
    queries: &[Vec<u8>],
    refs: &[Vec<u8>],
    cut_off: u8,
    scale: &ScoreScale,
) -> (report: MatchReport)
    requires
        old(heaps)@.len() == queries@.len(),
        forall|q: int|
            #![trigger old(heaps)@[q]]
            0 <= q < queries@.len() ==> old(heaps)@[q].wf() && names_references(
                old(heaps)@[q].entries(),
                refs@.len() as int,
            ),
    ensures
        report.rows@.len() == queries@.len(),
        forall|q: int|
            #![trigger report.rows@[q]]
            0 <= q < queries@.len() ==> {
                &&& report.rows@[q].query@ == rendered(queries@[q]@)
                &&& report.rows@[q].reference@ == match_text(
                    best_match(old(heaps)@[q].entries(), refs@, queries@[q]@, cut_off, *scale),
                    refs@,
                )
            },
        report.not_mapped == unmapped(report.rows@),
        final(heaps)@.len() == queries@.len(),
        forall|q: int|
            #![trigger final(heaps)@[q]]
            0 <= q < queries@.len() ==> {
                &&& final(heaps)@[q].wf()
                &&& final(heaps)@[q].capacity() == old(heaps)@[q].capacity()
                &&& final(heaps)@[q].entries() == Multiset::<Entry>::empty()
            },
{
    let ghost start = heaps@;
    let count: usize = queries.len();
    let mut rows: Vec<MatchRow> = Vec::with_capacity(count);
    let mut not_mapped: usize = 0;
    let mut index: usize = 0;
    while index < count
        invariant
            index <= count,
            count == queries@.len(),
            heaps@.len() == count,
            start.len() == count,
            rows@.len() == index,
            not_mapped == unmapped(rows@),
            not_mapped <= index,
            forall|q: int|
                #![trigger heaps@[q]]
                index <= q < count ==> heaps@[q] == start[q] && heaps@[q].wf() && names_references(
                    heaps@[q].entries(),
                    refs@.len() as int,
                ),
            forall|q: int|
                #![trigger heaps@[q]]
                0 <= q < index ==> {
                    &&& heaps@[q].wf()
                    &&& heaps@[q].capacity() == start[q].capacity()
                    &&& heaps@[q].entries() == Multiset::<Entry>::empty()
                },
            forall|q: int|
                #![trigger rows@[q]]
                0 <= q < index ==> {
                    &&& rows@[q].query@ == rendered(queries@[q]@)
                    &&& rows@[q].reference@ == match_text(
                        best_match(start[q].entries(), refs@, queries@[q]@, cut_off, *scale),
                        refs@,
                    )
                },
        decreases count - index,
    {
        let query_string: String = bytes_to_utf8_string(queries[index].as_slice());
        let ghost before = heaps@;
        let max_match: String = find_max_match(
            &mut heaps[index],
            refs,
            queries[index].as_slice(),
            cut_off,
            scale,
        );
        assert(heaps@ == before.update(index as int, heaps@[index as int]));
        if max_match.as_str().is_empty() {
            not_mapped += 1;
        }
        let ghost listed = rows@;
        rows.push(MatchRow { query: query_string, reference: max_match });
        proof {
            assert(rows@.drop_last() =~= listed);
            assert forall|q: int|
                #![trigger heaps@[q]]
                index + 1 <= q < count implies heaps@[q] == start[q] && heaps@[q].wf()
                && names_references(heaps@[q].entries(), refs@.len() as int) by {
                assert(heaps@[q] == before[q]);
            }
            assert forall|q: int|
                #![trigger heaps@[q]]
                0 <= q < index + 1 implies {
                &&& heaps@[q].wf()
                &&& heaps@[q].capacity() == start[q].capacity()
                &&& heaps@[q].entries() == Multiset::<Entry>::empty()
            } by {
                if q < index {
                    assert(heaps@[q] == before[q]);
                }
            }
        }
        index += 1;
    }
    MatchReport { rows, not_mapped }
}

/// The text of a row of the output: the query, a tab, and the match.
pub open spec fn row_text(row: MatchRow) -> Seq<char> {
    row.query@ + seq!['\t'] + row.reference@
}

/// Lays the report out as the lines of a tab-separated table: the header
/// `query`, tab, `reference`, then one line for each row in order, with an
/// empty second field where the query has no match.
pub fn output_lines(report: &MatchReport) -> (lines: Vec<String>)
    ensures
        lines@.len() == report.rows@.len() + 1,
        lines@[0]@ == "query\treference"@,
        forall|q: int|
            0 <= q < report.rows@.len() ==> (#[trigger] lines@[q + 1])@ == row_text(
                report.rows@[q],
            ),
{
    let mut lines: Vec<String> = Vec::new();
    lines.push(String::from_str("query\treference"));
    let mut q: usize = 0;
    while q < report.rows.len()
        invariant
            q <= report.rows@.len(),
            lines@.len() == q + 1,
            lines@[0]@ == "query\treference"@,
            forall|p: int|
                0 <= p < q ==> (#[trigger] lines@[p + 1])@ == row_text(report.rows@[p]),
        decreases report.rows@.len() - q,
    {
        let mut line: String = report.rows[q].query.clone();
        line.append("\t");
        line.append(report.rows[q].reference.as_str());
        proof {
            reveal_strlit("\t");
            assert("\t"@ =~= seq!['\t']);
        }
        let ghost before = lines@;
        lines.push(line);
        proof {
            assert forall|p: int| 0 <= p < q + 1 implies (#[trigger] lines@[p + 1])@ == row_text(
                report.rows@[p],
            ) by {
                if p < q {
                    assert(lines@[p + 1] == before[p + 1]);
                }
            }
        }
        q += 1;
    }
    lines
}

} // verus!
