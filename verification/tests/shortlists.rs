use bigram_match::entry::{reverse_transform, transform, Entry};
use bigram_match::index::index_queries;
use bigram_match::scorer::heuristic_filter;
use bigram_match::shortlist::{update_heap, Shortlist, SHORTLIST_CAPACITY};

fn entry(ref_index: usize, coverage: usize, length: usize) -> Entry {
    Entry { ref_index, coverage, length }
}

/// Best first: higher coverage, then smaller length difference; entries
/// tied in rank by rising reference index.
fn sort_by_rank(entries: &mut Vec<Entry>) {
    entries.sort_by(|a, b| {
        b.coverage
            .cmp(&a.coverage)
            .then(a.length.cmp(&b.length))
            .then(a.ref_index.cmp(&b.ref_index))
    });
}

fn listed(shortlist: &Shortlist) -> Vec<Entry> {
    let mut entries = shortlist.to_vec();
    sort_by_rank(&mut entries);
    entries
}

fn lines(texts: &[&str]) -> Vec<Vec<u8>> {
    texts.iter().map(|t| t.as_bytes().to_vec()).collect()
}

#[test]
fn transform_round_trips() {
    let e = transform(7, 3, 2);
    assert_eq!(e, entry(7, 3, 2));
    assert_eq!(reverse_transform(&e), (7, 3, 2));
    let big = transform(usize::MAX, usize::MAX, usize::MAX);
    assert_eq!(reverse_transform(&big), (usize::MAX, usize::MAX, usize::MAX));
}

#[test]
fn higher_coverage_ranks_first() {
    assert!(entry(5, 3, 9).ranks_before(&entry(1, 2, 0)));
    assert!(!entry(1, 2, 0).ranks_before(&entry(5, 3, 9)));
    assert!(entry(5, 3, 9) < entry(1, 2, 0));
}

#[test]
fn smaller_length_difference_breaks_a_coverage_tie() {
    assert!(entry(5, 3, 1).ranks_before(&entry(1, 3, 2)));
    assert!(!entry(1, 3, 2).ranks_before(&entry(5, 3, 1)));
    assert!(entry(1, 3, 2) > entry(5, 3, 1));
}

#[test]
fn reference_index_has_no_part_in_the_rank() {
    let a = entry(1, 3, 2);
    let b = entry(5, 3, 2);
    assert!(!a.ranks_before(&b));
    assert!(!b.ranks_before(&a));
    assert_eq!(a.partial_cmp(&b), Some(std::cmp::Ordering::Equal));
    assert_eq!(b.partial_cmp(&a), Some(std::cmp::Ordering::Equal));
    assert!(!(a < b) && !(a > b) && a <= b && a >= b);
    assert_ne!(a, b);
}

#[test]
fn comparison_follows_coverage_then_length_difference() {
    for (c1, l1, c2, l2) in [(2, 1, 1, 0), (1, 0, 2, 1), (1, 0, 1, 1), (1, 1, 1, 0), (1, 1, 1, 1)] {
        for (r1, r2) in [(0, 1), (1, 0), (3, 3)] {
            let a = transform(r1, c1, l1);
            let b = transform(r2, c2, l2);
            let before = c1 > c2 || (c1 == c2 && l1 < l2);
            let after = c2 > c1 || (c1 == c2 && l2 < l1);
            assert_eq!(a < b, before);
            assert_eq!(a > b, after);
            assert_eq!(a.ranks_before(&b), before);
            assert_eq!(a.partial_cmp(&b), b.partial_cmp(&a).map(|o| o.reverse()));
        }
    }
}

#[test]
fn of_tied_entries_the_smaller_reference_index_outlasts() {
    assert!(entry(1, 3, 2).outlasts(&entry(5, 3, 2)));
    assert!(!entry(5, 3, 2).outlasts(&entry(1, 3, 2)));
    assert!(entry(9, 4, 2).outlasts(&entry(1, 3, 2)));
    assert!(entry(9, 3, 1).outlasts(&entry(1, 3, 2)));
    assert!(!entry(1, 3, 2).outlasts(&entry(1, 3, 2)));
}

#[test]
fn no_entry_ranks_before_itself() {
    let e = entry(1, 3, 2);
    assert!(!e.ranks_before(&e));
    assert!(e <= e && e >= e && !(e < e));
    assert_eq!(e.partial_cmp(&e), Some(std::cmp::Ordering::Equal));
}

#[test]
fn new_shortlist_is_empty_with_the_usual_capacity() {
    let mut s = Shortlist::new();
    assert_eq!(SHORTLIST_CAPACITY, 20);
    assert_eq!(s.limit(), 20);
    assert_eq!(s.len(), 0);
    assert_eq!(s.peek(), None);
    assert_eq!(s.pop(), None);
    assert!(s.to_vec().is_empty());
}

#[test]
fn shortlist_takes_everything_while_there_is_room() {
    let mut s = Shortlist::with_capacity(3);
    update_heap(&mut s, entry(0, 1, 5));
    update_heap(&mut s, entry(1, 0, 0));
    assert_eq!(s.len(), 2);
    assert_eq!(listed(&s), vec![entry(0, 1, 5), entry(1, 0, 0)]);
    assert_eq!(s.peek(), Some(entry(1, 0, 0)));
}

#[test]
fn full_shortlist_takes_only_what_ranks_before_its_worst() {
    let mut s = Shortlist::with_capacity(2);
    update_heap(&mut s, entry(0, 5, 1));
    update_heap(&mut s, entry(1, 3, 1));
    update_heap(&mut s, entry(2, 2, 0));
    assert_eq!(listed(&s), vec![entry(0, 5, 1), entry(1, 3, 1)]);
    update_heap(&mut s, entry(3, 4, 9));
    assert_eq!(listed(&s), vec![entry(0, 5, 1), entry(3, 4, 9)]);
    update_heap(&mut s, entry(4, 4, 9));
    assert_eq!(listed(&s), vec![entry(0, 5, 1), entry(3, 4, 9)]);
    update_heap(&mut s, entry(5, 4, 8));
    assert_eq!(listed(&s), vec![entry(0, 5, 1), entry(5, 4, 8)]);
    assert_eq!(s.len(), 2);
}

#[test]
fn of_entries_tied_for_worst_the_later_reference_leaves() {
    let mut s = Shortlist::with_capacity(2);
    update_heap(&mut s, entry(0, 1, 1));
    update_heap(&mut s, entry(1, 1, 1));
    update_heap(&mut s, entry(2, 9, 0));
    assert_eq!(listed(&s), vec![entry(2, 9, 0), entry(0, 1, 1)]);
}

#[test]
fn full_shortlist_drops_a_newcomer_that_ties_its_worst() {
    let mut s = Shortlist::new();
    for j in 1..=20 {
        update_heap(&mut s, entry(j, 5, 3));
    }
    let before = listed(&s);
    update_heap(&mut s, entry(0, 5, 3));
    assert_eq!(listed(&s), before);
    update_heap(&mut s, entry(21, 5, 3));
    assert_eq!(listed(&s), before);
    update_heap(&mut s, entry(22, 5, 4));
    assert_eq!(listed(&s), before);
    assert_eq!(s.len(), 20);
}

#[test]
fn newcomer_that_ranks_before_the_worst_takes_the_place_of_one() {
    let mut s = Shortlist::new();
    for j in 1..=20 {
        update_heap(&mut s, entry(j, 5, 3));
    }
    update_heap(&mut s, entry(0, 5, 2));
    let mut expected: Vec<Entry> = vec![entry(0, 5, 2)];
    for j in 1..=19 {
        expected.push(entry(j, 5, 3));
    }
    assert_eq!(listed(&s), expected);
}

#[test]
fn of_tied_entries_at_the_cut_the_first_offered_stays() {
    let mut up = Shortlist::with_capacity(1);
    update_heap(&mut up, entry(2, 1, 1));
    update_heap(&mut up, entry(5, 1, 1));
    assert_eq!(listed(&up), vec![entry(2, 1, 1)]);
    let mut down = Shortlist::with_capacity(1);
    update_heap(&mut down, entry(5, 1, 1));
    update_heap(&mut down, entry(2, 1, 1));
    assert_eq!(listed(&down), vec![entry(5, 1, 1)]);
}

#[test]
fn shortlist_keeps_equal_entries_apart() {
    let mut s = Shortlist::with_capacity(3);
    update_heap(&mut s, entry(0, 1, 1));
    update_heap(&mut s, entry(0, 1, 1));
    update_heap(&mut s, entry(0, 1, 1));
    update_heap(&mut s, entry(0, 1, 1));
    assert_eq!(s.len(), 3);
    assert_eq!(listed(&s), vec![entry(0, 1, 1); 3]);
}

#[test]
fn shortlist_without_room_stays_empty() {
    let mut s = Shortlist::with_capacity(0);
    update_heap(&mut s, entry(0, 9, 0));
    s.insert_if_better(entry(1, 9, 0));
    assert_eq!(s.len(), 0);
    assert_eq!(s.pop(), None);
}

#[test]
fn pop_hands_out_the_worst_first() {
    let mut s = Shortlist::with_capacity(10);
    for (i, c) in [4usize, 9, 1, 7, 7, 3, 8].iter().enumerate() {
        update_heap(&mut s, entry(i, *c, 0));
    }
    let mut drained = Vec::new();
    while let Some(e) = s.pop() {
        drained.push((e.coverage, e.ref_index));
    }
    assert_eq!(
        drained,
        vec![(1, 2), (3, 5), (4, 0), (7, 4), (7, 3), (8, 6), (9, 1)]
    );
    assert_eq!(s.len(), 0);
}

#[test]
fn shortlist_is_the_top_of_a_full_sort() {
    let mut seed: u64 = 0x2545_f491_4f6c_dd1d;
    for capacity in [0usize, 1, 2, 3, 5, 20] {
        for total in [0usize, 1, 2, 5, 19, 20, 21, 64] {
            let mut all = Vec::new();
            let mut s = Shortlist::with_capacity(capacity);
            for i in 0..total {
                seed ^= seed << 13;
                seed ^= seed >> 7;
                seed ^= seed << 17;
                let e = entry(i, (seed % 4) as usize, ((seed >> 8) % 3) as usize);
                all.push(e);
                update_heap(&mut s, e);
                assert_eq!(s.len(), all.len().min(capacity));
            }
            sort_by_rank(&mut all);
            all.truncate(capacity);
            assert_eq!(listed(&s), all);
        }
    }
}

#[test]
fn order_of_offers_does_not_matter_without_a_tie_at_the_cut() {
    let offers = vec![
        entry(0, 2, 1),
        entry(1, 2, 1),
        entry(2, 5, 0),
        entry(3, 0, 0),
        entry(4, 2, 0),
        entry(5, 5, 3),
    ];
    let mut forward = Shortlist::with_capacity(3);
    for e in offers.iter() {
        update_heap(&mut forward, *e);
    }
    let mut backward = Shortlist::with_capacity(3);
    for e in offers.iter().rev() {
        update_heap(&mut backward, *e);
    }
    assert_eq!(listed(&forward), listed(&backward));
    assert_eq!(
        listed(&forward),
        vec![entry(2, 5, 0), entry(5, 5, 3), entry(4, 2, 0)]
    );
}

#[test]
fn scorer_fills_the_shortlists_of_the_sample_corpus() {
    let queries = lines(&["ab", "abcx"]);
    let refs = lines(&["xaby", "abc"]);
    let index = index_queries(&queries);
    let mut cov = Vec::new();
    let mut heaps = vec![Shortlist::new(), Shortlist::new()];
    heuristic_filter(&index, &refs, &queries, &mut cov, &mut heaps);
    assert_eq!(listed(&heaps[0]), vec![entry(1, 1, 1), entry(0, 1, 2)]);
    assert_eq!(listed(&heaps[1]), vec![entry(1, 2, 1), entry(0, 1, 0)]);
    assert_eq!(cov, vec![1, 2]);
}

#[test]
fn scorer_passes_over_short_lines() {
    let queries = lines(&["a", "ab", ""]);
    let refs = lines(&["ab", "b", "", "ba", "abab"]);
    let index = index_queries(&queries);
    let mut cov = Vec::new();
    let mut heaps = vec![Shortlist::new(), Shortlist::new(), Shortlist::new()];
    heuristic_filter(&index, &refs, &queries, &mut cov, &mut heaps);
    assert_eq!(heaps[0].len(), 0);
    assert_eq!(heaps[2].len(), 0);
    assert_eq!(
        listed(&heaps[1]),
        vec![entry(0, 1, 0), entry(4, 1, 2), entry(3, 0, 0)]
    );
}

#[test]
fn scorer_without_references_changes_nothing() {
    let queries = lines(&["ab"]);
    let index = index_queries(&queries);
    let mut cov = vec![5, 6];
    let mut heaps = vec![Shortlist::new()];
    heuristic_filter(&index, &[], &queries, &mut cov, &mut heaps);
    assert_eq!(cov, vec![5, 6]);
    assert_eq!(heaps[0].len(), 0);
}

#[test]
fn scorer_keeps_the_twenty_best_of_many() {
    let queries = lines(&["abcdefgh"]);
    let mut texts: Vec<String> = Vec::new();
    for i in 0..50 {
        let keep = 2 + i % 7;
        let mut t = String::from(&"abcdefgh"[..keep]);
        for _ in 0..(i % 3) {
            t.push('z');
        }
        texts.push(t);
    }
    let refs: Vec<Vec<u8>> = texts.iter().map(|t| t.as_bytes().to_vec()).collect();
    let index = index_queries(&queries);
    let mut cov = Vec::new();
    let mut heaps = vec![Shortlist::new()];
    heuristic_filter(&index, &refs, &queries, &mut cov, &mut heaps);
    let mut all: Vec<Entry> = Vec::new();
    for (j, t) in texts.iter().enumerate() {
        let shared = 1 + j % 7;
        let gap = if t.len() > 8 { t.len() - 8 } else { 8 - t.len() };
        all.push(entry(j, shared, gap));
    }
    sort_by_rank(&mut all);
    all.truncate(20);
    assert_eq!(heaps[0].len(), 20);
    assert_eq!(listed(&heaps[0]), all);
}
