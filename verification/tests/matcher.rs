use multi_search::matcher::{marks, settle_match};
use multi_search::subsequence::occurs_in_order;
use multi_search::text::chars_of;
use multi_search::{fuzzy_match, MatchResult};
use sublime_fuzzy::FuzzySearch;

fn chars(s: &str) -> Vec<char> {
    s.chars().collect()
}

fn score_of(query: &str, candidate: &str) -> isize {
    fuzzy_match(query, candidate).expect("a match").score
}

fn positions_of(query: &str, candidate: &str) -> Vec<usize> {
    fuzzy_match(query, candidate).expect("a match").positions
}

#[test]
fn chars_of_keeps_every_character_in_order() {
    assert_eq!(chars_of(""), Vec::<char>::new());
    assert_eq!(chars_of("abc"), vec!['a', 'b', 'c']);
    assert_eq!(chars_of("a\u{e9}\u{1f980}z"), vec!['a', '\u{e9}', '\u{1f980}', 'z']);
}

#[test]
fn occurs_in_order_accepts_scattered_characters() {
    assert!(occurs_in_order(&chars("hld"), &chars("hello world")));
    assert!(occurs_in_order(&chars("hld"), &chars("hold")));
    assert!(occurs_in_order(&chars("abc"), &chars("abc")));
    assert!(occurs_in_order(&chars(""), &chars("abc")));
    assert!(occurs_in_order(&chars(""), &chars("")));
}

#[test]
fn occurs_in_order_rejects_wrong_order_and_missing_characters() {
    assert!(!occurs_in_order(&chars("hld"), &chars("help")));
    assert!(!occurs_in_order(&chars("hld"), &chars("bold")));
    assert!(!occurs_in_order(&chars("abc"), &chars("acb")));
    assert!(!occurs_in_order(&chars("aa"), &chars("a")));
    assert!(!occurs_in_order(&chars("a"), &chars("")));
}

#[test]
fn subsequence_decides_the_match() {
    let cases = [
        ("abc", "xaxbxc", true),
        ("abc", "abc", true),
        ("abc", "acb", false),
        ("abc", "ab", false),
        ("aab", "ab", false),
        ("aab", "xaxaxb", true),
        ("hld", "hello world", true),
        ("hld", "bold", false),
        ("", "anything", true),
        ("", "", true),
        ("a", "", false),
    ];
    for (query, candidate, expected) in cases {
        assert_eq!(fuzzy_match(query, candidate).is_some(), expected, "{query:?} in {candidate:?}");
    }
}

#[test]
fn longer_query_never_matches() {
    assert!(fuzzy_match("abcd", "abc").is_none());
    assert!(fuzzy_match("aaaa", "aaa").is_none());
    assert!(fuzzy_match("partial", "part").is_none());
    assert!(fuzzy_match("x", "").is_none());
}

#[test]
fn query_with_more_bytes_never_matches() {
    // one character each, but the query takes two bytes
    assert!(fuzzy_match("\u{e9}", "e").is_none());
    assert!(fuzzy_match("\u{1f980}", "abc").is_none());
}

#[test]
fn matching_is_case_sensitive() {
    assert!(fuzzy_match("ABC", "abc").is_none());
    assert!(fuzzy_match("abc", "ABC").is_none());
    assert!(fuzzy_match("ttt", "The Two Towers").is_none());
    assert!(fuzzy_match("TTT", "The Two Towers").is_some());
    assert_eq!(positions_of("TTT", "The Two Towers"), vec![0, 4, 8]);
}

#[test]
fn whitespace_in_the_query_must_occur_in_the_candidate() {
    assert!(fuzzy_match("a b", "ab").is_none());
    assert!(fuzzy_match("a b", "a b").is_some());
    assert_eq!(positions_of("a b", "a b"), vec![0, 2]);
}

#[test]
fn query_without_anything_to_score_matches_neutrally() {
    let blank = fuzzy_match(" ", "a b").expect("a match");
    assert_eq!(blank.score, 0);
    assert_eq!(blank.positions, Vec::<usize>::new());
    assert!(fuzzy_match(" ", "ab").is_none());
}

#[test]
fn empty_query_matches_with_neutral_score() {
    for candidate in ["", "a", "hello world", "\u{1f980}"] {
        let found = fuzzy_match("", candidate).expect("a match");
        assert_eq!(found.score, 0);
        assert_eq!(found.positions, Vec::<usize>::new());
    }
}

#[test]
fn scores_follow_the_scorer() {
    assert_eq!(score_of("hld", "hold"), 92);
    assert_eq!(positions_of("hld", "hold"), vec![0, 2, 3]);
    assert_eq!(score_of("hld", "hello world"), 64);
    assert_eq!(positions_of("hld", "hello world"), vec![0, 9, 10]);
    assert_eq!(score_of("abc", "xabcxx"), 96);
    assert_eq!(score_of("abc", "xaxbxc"), -8);
}

#[test]
fn contiguous_run_beats_scattered_characters() {
    assert!(score_of("abc", "xabcxx") > score_of("abc", "xaxbxc"));
    assert!(score_of("ld", "xxldxx") > score_of("ld", "xlxxdx"));
    assert_eq!(positions_of("abc", "xaxbxcxabc"), vec![7, 8, 9]);
}

#[test]
fn match_at_the_start_scores_no_lower() {
    assert!(score_of("abc", "abcx") >= score_of("abc", "xabc"));
    assert!(score_of("a", "axx") >= score_of("a", "xxa"));
}

#[test]
fn positions_rise_and_stay_inside_the_candidate() {
    let cases = [
        ("something", "some search thing"),
        ("Scc", "SccsCoolController"),
        ("aaa", "aaaaaa"),
        ("\u{1f440}", "\u{1f980} \u{1f448} \u{1f440}"),
    ];
    for (query, candidate) in cases {
        let positions = positions_of(query, candidate);
        let len = candidate.chars().count();
        assert!(positions.windows(2).all(|w| w[0] < w[1]));
        assert!(positions.iter().all(|&p| p < len));
        let picked: String = positions.iter().map(|&p| candidate.chars().nth(p).unwrap()).collect();
        assert_eq!(picked, query);
    }
}

#[test]
fn positions_count_characters_not_bytes() {
    assert_eq!(positions_of("\u{1f440}", "\u{1f980} \u{1f448} \u{1f440}"), vec![4]);
}

#[test]
fn matching_twice_gives_the_same_result() {
    let first = fuzzy_match("something", "some search thing").expect("a match");
    let second = fuzzy_match("something", "some search thing").expect("a match");
    assert_eq!(first.score, second.score);
    assert_eq!(first.positions, second.positions);
}

#[test]
fn settle_match_takes_over_what_the_scorer_found() {
    let found: MatchResult = settle_match(&chars("ab"), &chars("xaxb"), Some((17, vec![1, 3])));
    assert_eq!(found.score, 17);
    assert_eq!(found.positions, vec![1, 3]);
    let negative = settle_match(&chars("a b"), &chars("a b"), Some((-8, vec![0, 2])));
    assert_eq!(negative.score, -8);
    assert_eq!(negative.positions, vec![0, 2]);
    let nothing_marked = settle_match(&chars("ab"), &chars("ab"), Some((5, vec![])));
    assert_eq!(nothing_marked.score, 5);
    assert_eq!(nothing_marked.positions, Vec::<usize>::new());
}

#[test]
fn settle_match_is_neutral_without_a_finding() {
    let found = settle_match(&chars("ab"), &chars("ab"), None);
    assert_eq!(found.score, 0);
    assert_eq!(found.positions, Vec::<usize>::new());
}

#[test]
fn settle_match_is_neutral_where_the_finding_does_not_fit() {
    let findings = [
        vec![1, 4],    // beyond the candidate
        vec![3, 1],    // falling
        vec![1, 1],    // repeated
        vec![0, 1],    // picks a character that the query lacks
        vec![3, 1, 3], // more than the query holds
    ];
    for positions in findings {
        let found = settle_match(&chars("ab"), &chars("xaxb"), Some((17, positions)));
        assert_eq!(found.score, 0);
        assert_eq!(found.positions, Vec::<usize>::new());
    }
    let wrong_order = settle_match(&chars("ba"), &chars("xaxb"), Some((17, vec![1, 3])));
    assert_eq!(wrong_order.score, 0);
}

#[test]
fn marks_accepts_rising_positions_that_pick_the_query() {
    assert!(marks(&vec![1, 3], &chars("ab"), &chars("xaxb")));
    assert!(marks(&vec![3], &chars("ab"), &chars("xaxb")));
    assert!(marks(&vec![], &chars("ab"), &chars("xaxb")));
    assert!(marks(&vec![], &chars(""), &chars("")));
    assert!(marks(&vec![0, 2], &chars("a b"), &chars("a b")));
}

#[test]
fn marks_rejects_everything_else() {
    assert!(!marks(&vec![4], &chars("ab"), &chars("xaxb")));
    assert!(!marks(&vec![3, 1], &chars("ab"), &chars("xaxb")));
    assert!(!marks(&vec![1, 1], &chars("aa"), &chars("xaxb")));
    assert!(!marks(&vec![0], &chars("ab"), &chars("xaxb")));
    assert!(!marks(&vec![0], &chars(""), &chars("x")));
    assert!(!marks(&vec![0], &chars("x"), &chars("")));
}

#[test]
fn match_is_what_the_scorer_finds() {
    let cases = [
        ("something", "some search thing"),
        ("Scc", "SccsCoolController"),
        ("hld", "hello world"),
        ("t t", "the two towers"),
        ("aaa", "aaaaaa"),
        ("\u{1f440}", "\u{1f980} \u{1f448} \u{1f440}"),
    ];
    for (query, candidate) in cases {
        let scored = FuzzySearch::new(query, candidate)
            .case_sensitive()
            .best_match()
            .expect("a finding");
        let found = fuzzy_match(query, candidate).expect("a match");
        assert_eq!(found.score, scored.score());
        assert_eq!(found.positions, scored.matched_indices().copied().collect::<Vec<usize>>());
    }
}
