use multi_search::{fuzzy_match, match_single, rank, RankedHit, SearchIndex, SearchResults, SingleMatch};

fn index_of(samples: &[&str]) -> SearchIndex {
    let mut index = SearchIndex::new();
    for sample in samples {
        index.load_result(sample.to_string());
    }
    index
}

fn plain(outcome: &SearchResults) -> Vec<&str> {
    outcome.results.iter().map(|(sample, _)| sample.as_str()).collect()
}

fn hit(index: usize, length: usize, score: isize) -> RankedHit {
    RankedHit { index, length, score }
}

#[test]
fn new_index_is_empty() {
    let mut index = SearchIndex::new();
    assert!(index.samples().is_empty());
    let outcome = index.search("a".to_string(), 10);
    assert_eq!(outcome.count, 0);
    assert!(outcome.results.is_empty());
}

#[test]
fn load_result_appends_in_order() {
    let mut index = SearchIndex::new();
    index.load_result("one".to_string());
    assert_eq!(index.samples(), &vec!["one".to_string()]);
    index.load_result("two".to_string());
    index.load_result("one".to_string());
    assert_eq!(
        index.samples(),
        &vec!["one".to_string(), "two".to_string(), "one".to_string()]
    );
}

#[test]
fn search_leaves_the_samples_alone() {
    let mut index = index_of(&["hello world", "help"]);
    let before = index.samples().clone();
    index.search("hl".to_string(), 1);
    assert_eq!(index.samples(), &before);
}

#[test]
fn search_hld_scenario() {
    let mut index = index_of(&["hello world", "help", "hold", "bold"]);
    let outcome = index.search("hld".to_string(), 10);
    assert_eq!(outcome.count, 2);
    assert_eq!(
        outcome.results,
        vec![
            ("hold".to_string(), "<strong>h</strong>o<strong>ld</strong>".to_string()),
            (
                "hello world".to_string(),
                "<strong>h</strong>ello wor<strong>ld</strong>".to_string()
            ),
        ]
    );
}

#[test]
fn search_hld_ranking_follows_the_pairwise_rule() {
    let hold = fuzzy_match("hld", "hold").expect("a match");
    let hello = fuzzy_match("hld", "hello world").expect("a match");
    // "hold" goes first exactly when its score with the other's length is the larger sum
    let hold_first = hello.score + 4 < hold.score + 11;
    assert!(hold_first);
    let mut index = index_of(&["hello world", "help", "hold", "bold"]);
    let outcome = index.search("hld".to_string(), 10);
    assert_eq!(plain(&outcome), vec!["hold", "hello world"]);
}

#[test]
fn search_without_any_match_reports_nothing() {
    let mut index = index_of(&["hello world", "help"]);
    let outcome = index.search("xyz".to_string(), 10);
    assert_eq!(outcome.count, 0);
    assert!(outcome.results.is_empty());
}

#[test]
fn count_does_not_depend_on_the_limit() {
    let samples = ["alpha", "beta", "gamma", "delta", "epsilon", "eta", "theta"];
    let mut index = index_of(&samples);
    let none = index.search("a".to_string(), 0);
    let all = index.search("a".to_string(), usize::MAX);
    assert_eq!(none.count, 6);
    assert_eq!(none.count, all.count);
    assert!(none.results.is_empty());
    assert_eq!(all.results.len(), all.count);
    for limit in 0..10 {
        let outcome = index.search("a".to_string(), limit);
        assert_eq!(outcome.count, 6);
        assert_eq!(outcome.results.len(), limit.min(6));
        assert_eq!(outcome.results[..], all.results[..limit.min(6)]);
    }
}

#[test]
fn empty_query_matches_every_sample() {
    let mut index = index_of(&["ccc", "a", "bb", "d", ""]);
    let outcome = index.search(String::new(), 10);
    assert_eq!(outcome.count, 5);
    // with equal scores the rule puts shorter samples first, equal lengths in loading order
    assert_eq!(plain(&outcome), vec!["", "a", "d", "bb", "ccc"]);
    for (sample, marked) in &outcome.results {
        assert_eq!(sample, marked);
    }
}

#[test]
fn samples_shorter_than_the_query_are_dropped() {
    let mut index = index_of(&["ab", "abc", "a", "xabcx"]);
    let outcome = index.search("abc".to_string(), 10);
    assert_eq!(outcome.count, 2);
    let mut found = plain(&outcome);
    found.sort();
    assert_eq!(found, vec!["abc", "xabcx"]);
}

#[test]
fn equal_samples_keep_their_loading_order_and_are_not_merged() {
    let mut index = index_of(&["same", "same", "same"]);
    let outcome = index.search("sm".to_string(), 2);
    assert_eq!(outcome.count, 3);
    assert_eq!(plain(&outcome), vec!["same", "same"]);
}

#[test]
fn length_is_counted_in_bytes_when_ranking() {
    // neutral scores: the sample with fewer bytes goes first, whatever its number of characters
    let mut index = index_of(&["\u{1f980}", "abc"]);
    let outcome = index.search(String::new(), 10);
    assert_eq!(plain(&outcome), vec!["abc", "\u{1f980}"]);
}

#[test]
fn evaluate_then_assemble_is_search() {
    let mut index = index_of(&["hello world", "help", "hold", "bold", "held", "h l d"]);
    for query in ["hld", "", "h", "zzz", "l"] {
        for limit in [0, 1, 3, 100] {
            let found = index.evaluate(query);
            let assembled = index.assemble(&found, limit);
            let searched = index.search(query.to_string(), limit);
            assert_eq!(assembled.count, searched.count);
            assert_eq!(assembled.results, searched.results);
        }
    }
}

#[test]
fn assemble_takes_matches_computed_in_any_order() {
    let index = index_of(&["hello world", "help", "hold", "bold"]);
    let samples = index.samples().clone();
    let mut found: Vec<_> = (0..samples.len()).map(|_| None).collect();
    for i in (0..samples.len()).rev() {
        found[i] = fuzzy_match("hld", &samples[i]);
    }
    let outcome = index.assemble(&found, 10);
    assert_eq!(outcome.count, 2);
    assert_eq!(plain(&outcome), vec!["hold", "hello world"]);
}

#[test]
fn assemble_counts_a_missing_entry_as_no_match() {
    let index = index_of(&["ab", "abab"]);
    let found = vec![fuzzy_match("ab", "ab")];
    let outcome = index.assemble(&found, 10);
    assert_eq!(outcome.count, 1);
    assert_eq!(plain(&outcome), vec!["ab"]);
}

#[test]
fn rank_orders_by_score_against_the_other_length() {
    let hits = vec![hit(0, 11, 64), hit(1, 4, 92), hit(2, 3, 10)];
    assert_eq!(rank(&hits), vec![hit(1, 4, 92), hit(0, 11, 64), hit(2, 3, 10)]);
}

#[test]
fn rank_keeps_the_order_of_hits_it_cannot_tell_apart() {
    // score minus length is 5 for all three
    let hits = vec![hit(0, 5, 10), hit(1, 1, 6), hit(2, 3, 8)];
    assert_eq!(rank(&hits), hits);
    let mixed = vec![hit(0, 1, 1), hit(1, 5, 10), hit(2, 1, 6), hit(3, 1, 1), hit(4, 3, 8)];
    assert_eq!(
        rank(&mixed),
        vec![hit(1, 5, 10), hit(2, 1, 6), hit(4, 3, 8), hit(0, 1, 1), hit(3, 1, 1)]
    );
}

#[test]
fn rank_handles_extreme_scores_and_lengths() {
    let hits = vec![hit(0, usize::MAX, isize::MIN), hit(1, 0, isize::MAX), hit(2, 0, 0)];
    assert_eq!(rank(&hits), vec![hit(1, 0, isize::MAX), hit(2, 0, 0), hit(0, usize::MAX, isize::MIN)]);
}

#[test]
fn rank_of_nothing_is_nothing() {
    assert_eq!(rank(&Vec::new()), Vec::new());
    assert_eq!(rank(&vec![hit(3, 2, 1)]), vec![hit(3, 2, 1)]);
}

#[test]
fn rank_sorts_many_hits() {
    let hits: Vec<RankedHit> = (0..200).map(|i| hit(i, (i * 7) % 13, ((i * 31) % 17) as isize)).collect();
    let sorted = rank(&hits);
    assert_eq!(sorted.len(), hits.len());
    let key = |h: &RankedHit| h.score as i128 - h.length as i128;
    for pair in sorted.windows(2) {
        assert!(key(&pair[0]) > key(&pair[1]) || (key(&pair[0]) == key(&pair[1]) && pair[0].index < pair[1].index));
    }
}

#[test]
fn match_single_without_a_match_is_none() {
    assert!(match_single("abc", "def", true).is_none());
    assert!(match_single("abc", "def", false).is_none());
    assert!(match_single("partial", "part", false).is_none());
}

#[test]
fn match_single_formats_on_request() {
    match match_single("hld", "hold", true) {
        Some(SingleMatch::Formatted(text)) => {
            assert_eq!(text, "<strong>h</strong>o<strong>ld</strong>")
        }
        other => panic!("unexpected answer: {other:?}"),
    }
}

#[test]
fn match_single_hands_out_the_raw_match() {
    match match_single("hld", "hold", false) {
        Some(SingleMatch::Raw(found)) => {
            assert_eq!(found.score, 92);
            assert_eq!(found.positions, vec![0, 2, 3]);
        }
        other => panic!("unexpected answer: {other:?}"),
    }
}

#[test]
fn match_single_with_empty_query_marks_nothing() {
    match match_single("", "hold", true) {
        Some(SingleMatch::Formatted(text)) => assert_eq!(text, "hold"),
        other => panic!("unexpected answer: {other:?}"),
    }
}
