use bigram_match::entry::Entry;
use bigram_match::matcher::{
    accepts, combined_score, find_max_match, fuzz_pass, output_lines, MatchReport, MatchRow,
    Standing,
};
use bigram_match::pipeline::match_queries;
use bigram_match::scale::ScoreScale;
use bigram_match::shortlist::{update_heap, Shortlist};

fn lines(texts: &[&str]) -> Vec<Vec<u8>> {
    texts.iter().map(|t| t.as_bytes().to_vec()).collect()
}

fn double() -> ScoreScale {
    ScoreScale::from_ratio(2, 1).unwrap()
}

fn single() -> ScoreScale {
    ScoreScale::from_ratio(1, 1).unwrap()
}

/// A shortlist with one entry for each of the first `count` references.
fn shortlist_of_all(count: usize) -> Shortlist {
    let mut s = Shortlist::new();
    for j in 0..count {
        update_heap(&mut s, Entry { ref_index: j, coverage: 1, length: 0 });
    }
    s
}

fn row(query: &str, reference: &str) -> MatchRow {
    MatchRow { query: query.to_string(), reference: reference.to_string() }
}

#[test]
fn combined_score_is_scaled_ratio_less_length_difference() {
    assert_eq!(combined_score(100, 1, &double()), 199);
    assert_eq!(combined_score(75, 0, &double()), 150);
    assert_eq!(combined_score(0, 0, &double()), 0);
    assert_eq!(combined_score(100, 300, &double()), -100);
    assert_eq!(combined_score(3, 2, &ScoreScale::from_ratio(5, 2).unwrap()), 6);
}

#[test]
fn combined_score_has_room_for_any_length() {
    assert_eq!(
        combined_score(100, usize::MAX, &double()),
        200 - (usize::MAX as i128)
    );
}

#[test]
fn first_candidate_over_the_cut_off_is_accepted() {
    assert!(accepts(&None, 90, 180, 0, 90));
    assert!(accepts(&None, 0, -5, 5, 0));
    assert!(!accepts(&None, 89, 178, 0, 90));
}

#[test]
fn higher_score_is_accepted() {
    let best = Some(Standing { ref_index: 0, score: 150, size_difference: 3 });
    assert!(accepts(&best, 80, 151, 9, 50));
    assert!(!accepts(&best, 80, 149, 0, 50));
    assert!(!accepts(&best, 49, 500, 0, 50));
}

#[test]
fn equal_score_needs_a_smaller_length_difference() {
    let best = Some(Standing { ref_index: 0, score: 150, size_difference: 3 });
    assert!(accepts(&best, 80, 150, 2, 50));
    assert!(!accepts(&best, 80, 150, 3, 50));
    assert!(!accepts(&best, 80, 150, 4, 50));
}

#[test]
fn most_similar_reference_is_the_match() {
    let refs = lines(&["abxd", "abcd", "wxyz"]);
    let mut s = shortlist_of_all(3);
    assert_eq!(find_max_match(&mut s, &refs, b"abcd", 0, &double()), "abcd");
    assert_eq!(s.len(), 0);
}

#[test]
fn cut_off_is_the_least_ratio_of_a_match() {
    let refs = lines(&["abxd", "wxyz"]);
    assert_eq!(find_max_match(&mut shortlist_of_all(2), &refs, b"abcd", 75, &double()), "abxd");
    assert_eq!(find_max_match(&mut shortlist_of_all(2), &refs, b"abcd", 76, &double()), "");
    assert_eq!(find_max_match(&mut shortlist_of_all(2), &refs, b"abcd", 100, &double()), "");
}

#[test]
fn dissimilar_reference_matches_only_without_a_cut_off() {
    let refs = lines(&["wxyz"]);
    assert_eq!(find_max_match(&mut shortlist_of_all(1), &refs, b"abcd", 0, &double()), "wxyz");
    assert_eq!(find_max_match(&mut shortlist_of_all(1), &refs, b"abcd", 1, &double()), "");
}

#[test]
fn reference_off_the_shortlist_is_never_the_match() {
    let refs = lines(&["abxd", "abcd"]);
    let mut s = Shortlist::new();
    update_heap(&mut s, Entry { ref_index: 0, coverage: 1, length: 0 });
    assert_eq!(find_max_match(&mut s, &refs, b"abcd", 0, &double()), "abxd");
}

#[test]
fn empty_shortlist_has_no_match() {
    let refs = lines(&["abcd"]);
    let mut s = Shortlist::new();
    assert_eq!(find_max_match(&mut s, &refs, b"abcd", 0, &double()), "");
}

#[test]
fn length_difference_lowers_the_score() {
    let refs = lines(&["abzzzzzzzz", "ab", "abzz"]);
    assert_eq!(find_max_match(&mut shortlist_of_all(3), &refs, b"ab", 100, &double()), "ab");
}

#[test]
fn equal_scores_go_to_the_reference_closer_in_length() {
    let long = format!("abcd{}", "z".repeat(25));
    let refs = lines(&[long.as_str(), "abxd"]);
    assert_eq!(find_max_match(&mut shortlist_of_all(2), &refs, b"abcd", 0, &single()), "abxd");
    let refs = lines(&["abxd", long.as_str()]);
    assert_eq!(find_max_match(&mut shortlist_of_all(2), &refs, b"abcd", 0, &single()), "abxd");
}

#[test]
fn full_tie_goes_to_the_entry_that_leaves_the_shortlist_first() {
    let refs = lines(&["abce", "abcf"]);
    assert_eq!(find_max_match(&mut shortlist_of_all(2), &refs, b"abcd", 0, &double()), "abcf");
    let mut s = Shortlist::new();
    update_heap(&mut s, Entry { ref_index: 0, coverage: 1, length: 0 });
    update_heap(&mut s, Entry { ref_index: 1, coverage: 2, length: 0 });
    assert_eq!(find_max_match(&mut s, &refs, b"abcd", 0, &double()), "abce");
}

#[test]
fn match_over_the_cut_off_stands_whatever_its_score() {
    let far = format!("ab{}", "z".repeat(300));
    let refs = lines(&[far.as_str()]);
    assert_eq!(
        find_max_match(&mut shortlist_of_all(1), &refs, b"ab", 100, &double()),
        far
    );
}

#[test]
fn texts_are_compared_as_rendered() {
    let refs = vec![vec![b'a', 0xff, b'b'], b"a b".to_vec()];
    let mut s = shortlist_of_all(1);
    assert_eq!(find_max_match(&mut s, &refs, &[b'a', 0x80, b'b'], 100, &double()), "a b");
}

#[test]
fn fuzz_pass_makes_a_row_for_every_query() {
    let queries = lines(&["abcd", "wxyz", "q"]);
    let refs = lines(&["abcd", "abxd"]);
    let mut heaps = vec![shortlist_of_all(2), shortlist_of_all(2), Shortlist::new()];
    let report = fuzz_pass(&mut heaps, &queries, &refs, 70, &double());
    assert_eq!(
        report,
        MatchReport {
            rows: vec![row("abcd", "abcd"), row("wxyz", ""), row("q", "")],
            not_mapped: 2,
        }
    );
    assert!(heaps.iter().all(|h| h.len() == 0));
}

#[test]
fn fuzz_pass_without_queries_reports_nothing() {
    let mut heaps: Vec<Shortlist> = Vec::new();
    let report = fuzz_pass(&mut heaps, &[], &lines(&["abcd"]), 0, &double());
    assert_eq!(report, MatchReport { rows: Vec::new(), not_mapped: 0 });
}

#[test]
fn sample_corpus_is_matched() {
    let queries = lines(&["ab", "abcx"]);
    let refs = lines(&["xaby", "abc"]);
    let report = match_queries(&queries, &refs, 0, &double());
    assert_eq!(
        report,
        MatchReport { rows: vec![row("ab", "abc"), row("abcx", "abc")], not_mapped: 0 }
    );
}

#[test]
fn rows_keep_the_order_of_the_queries() {
    let queries = lines(&["peanutbutter", "vanilla", "a yellow banana from the store"]);
    let refs = lines(&["banana", "vanilla bean", "butter", "peanuts"]);
    let report = match_queries(&queries, &refs, 90, &double());
    assert_eq!(
        report.rows,
        vec![
            row("peanutbutter", "butter"),
            row("vanilla", "vanilla bean"),
            row("a yellow banana from the store", "banana"),
        ]
    );
    assert_eq!(report.not_mapped, 0);
}

#[test]
fn short_query_has_no_match() {
    let queries = lines(&["a", "", "ab"]);
    let refs = lines(&["a", "ab", "b", ""]);
    let report = match_queries(&queries, &refs, 0, &double());
    assert_eq!(
        report,
        MatchReport { rows: vec![row("a", ""), row("", ""), row("ab", "ab")], not_mapped: 2 }
    );
}

#[test]
fn short_reference_is_no_match() {
    let queries = lines(&["ab", "ba"]);
    let refs = lines(&["a", "b", ""]);
    let report = match_queries(&queries, &refs, 0, &double());
    assert_eq!(
        report,
        MatchReport { rows: vec![row("ab", ""), row("ba", "")], not_mapped: 2 }
    );
}

#[test]
fn nothing_to_match_against() {
    let report = match_queries(&lines(&["ab"]), &[], 0, &double());
    assert_eq!(report, MatchReport { rows: vec![row("ab", "")], not_mapped: 1 });
    let report = match_queries(&[], &lines(&["ab"]), 0, &double());
    assert_eq!(report, MatchReport { rows: Vec::new(), not_mapped: 0 });
}

#[test]
fn cut_off_leaves_queries_unmapped() {
    let queries = lines(&["abcd", "abxd"]);
    let refs = lines(&["abcd"]);
    let report = match_queries(&queries, &refs, 80, &double());
    assert_eq!(
        report,
        MatchReport { rows: vec![row("abcd", "abcd"), row("abxd", "")], not_mapped: 1 }
    );
}

#[test]
fn non_ascii_lines_are_rendered_with_spaces() {
    let queries = vec!["caf\u{e9} au lait".as_bytes().to_vec()];
    let refs = vec!["Caf\u{e9}".as_bytes().to_vec(), "caf\u{e9} au lait".as_bytes().to_vec()];
    let report = match_queries(&queries, &refs, 0, &double());
    assert_eq!(report.rows, vec![row("caf   au lait", "caf   au lait")]);
}

#[test]
fn match_comes_from_the_twenty_best_by_coverage() {
    let queries = lines(&["abcdefgh"]);
    let mut texts: Vec<String> = Vec::new();
    for i in 0..20 {
        texts.push(format!("abcdefg{}", (b'i' + i as u8) as char));
    }
    texts.push("xxxxxxgh".to_string());
    texts.push("gh".to_string());
    let refs: Vec<Vec<u8>> = texts.iter().map(|t| t.as_bytes().to_vec()).collect();
    let report = match_queries(&queries, &refs, 100, &double());
    assert_eq!(report.rows, vec![row("abcdefgh", "")]);
    assert_eq!(report.not_mapped, 1);
    let few: Vec<Vec<u8>> = refs[2..].to_vec();
    let report = match_queries(&queries, &few, 100, &double());
    assert_eq!(report.rows, vec![row("abcdefgh", "gh")]);
}

#[test]
fn same_input_gives_the_same_report() {
    let queries = lines(&["ab", "abcx", "banana", "bandana", "x", "peanutbutter"]);
    let refs = lines(&["xaby", "abc", "ananas", "band", "peanut butter", "b", "nan"]);
    let first = match_queries(&queries, &refs, 60, &double());
    let second = match_queries(&queries, &refs, 60, &double());
    assert_eq!(first, second);
    let third = match_queries(&queries, &refs, 60, &ScoreScale::from_ratio(4, 2).unwrap());
    assert_eq!(first, third);
}

#[test]
fn matching_the_matches_again_finds_them_again() {
    let queries = lines(&["ab", "abcx", "banana"]);
    let refs = lines(&["xaby", "abc", "ananas", "banana"]);
    let first = match_queries(&queries, &refs, 0, &double());
    let found: Vec<Vec<u8>> = first.rows.iter().map(|r| r.reference.as_bytes().to_vec()).collect();
    let second = match_queries(&found, &refs, 0, &double());
    for (a, b) in first.rows.iter().zip(second.rows.iter()) {
        assert_eq!(a.reference, b.query);
        assert_eq!(b.reference, b.query);
    }
}

#[test]
fn output_has_a_header_and_a_line_for_every_row() {
    let report = MatchReport {
        rows: vec![row("ab", "abc"), row("x", ""), row("a b", "a  b")],
        not_mapped: 1,
    };
    assert_eq!(
        output_lines(&report),
        vec!["query\treference", "ab\tabc", "x\t", "a b\ta  b"]
    );
}

#[test]
fn output_of_an_empty_report_is_the_header() {
    let report = MatchReport { rows: Vec::new(), not_mapped: 0 };
    assert_eq!(output_lines(&report), vec!["query\treference"]);
}

#[test]
fn output_of_the_sample_corpus() {
    let queries = lines(&["ab", "abcx"]);
    let refs = lines(&["xaby", "abc"]);
    let report = match_queries(&queries, &refs, 0, &double());
    assert_eq!(
        output_lines(&report),
        vec!["query\treference", "ab\tabc", "abcx\tabc"]
    );
}
