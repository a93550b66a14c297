use multi_search::highlight;
use sublime_fuzzy::{format_simple, FuzzySearch};

fn strong(candidate: &str, positions: &[usize]) -> String {
    highlight(candidate, &positions.to_vec(), "<strong>", "</strong>")
}

/// Takes every marker out of `text`, reading from the left.
fn strip(text: &str) -> String {
    let mut left = String::new();
    let mut rest = text;
    while let Some(ch) = rest.chars().next() {
        if let Some(behind) = rest.strip_prefix("<strong>") {
            rest = behind;
        } else if let Some(behind) = rest.strip_prefix("</strong>") {
            rest = behind;
        } else {
            left.push(ch);
            rest = &rest[ch.len_utf8()..];
        }
    }
    left
}

#[test]
fn wraps_each_run_once() {
    assert_eq!(strong("hold", &[0, 2, 3]), "<strong>h</strong>o<strong>ld</strong>");
    assert_eq!(
        highlight("some search thing", &vec![0, 1, 2, 3, 12, 13, 14, 15, 16], "<span>", "</span>"),
        "<span>some</span> search <span>thing</span>"
    );
}

#[test]
fn copies_unmatched_text_unchanged() {
    assert_eq!(strong("plain", &[]), "plain");
    assert_eq!(strong("", &[]), "");
    assert_eq!(strong("", &[0, 1]), "");
}

#[test]
fn wraps_the_whole_candidate_in_one_pair() {
    assert_eq!(strong("abc", &[0, 1, 2]), "<strong>abc</strong>");
}

#[test]
fn keeps_runs_apart_that_unmatched_text_separates() {
    assert_eq!(strong("abc", &[0, 2]), "<strong>a</strong>b<strong>c</strong>");
    assert_eq!(highlight("a-b", &vec![0, 2], "[", "]"), "[a]-[b]");
}

#[test]
fn emits_no_empty_marker_pair() {
    for positions in [vec![], vec![1], vec![0, 1], vec![0, 2], vec![0, 1, 2]] {
        let text = highlight("abc", &positions, "[", "]");
        assert!(!text.contains("[]"), "{text}");
        assert_eq!(text.matches('[').count(), text.matches(']').count());
    }
}

#[test]
fn closes_a_run_at_the_end_of_the_candidate() {
    assert_eq!(highlight("abc", &vec![2], "[", "]"), "ab[c]");
    assert_eq!(highlight("abc", &vec![1, 2], "[", "]"), "a[bc]");
}

#[test]
fn ignores_positions_outside_the_candidate() {
    assert_eq!(highlight("abc", &vec![2, 3, 4], "[", "]"), "ab[c]");
    assert_eq!(highlight("abc", &vec![7], "[", "]"), "abc");
}

#[test]
fn takes_positions_in_any_order_and_repeated() {
    assert_eq!(highlight("abcd", &vec![3, 0, 0, 1], "[", "]"), "[ab]c[d]");
}

#[test]
fn counts_positions_in_characters() {
    let s = "\u{1f980} \u{1f448} \u{1f440}";
    assert_eq!(highlight(s, &vec![4], "<", ">"), "\u{1f980} \u{1f448} <\u{1f440}>");
}

#[test]
fn works_with_empty_markers() {
    assert_eq!(highlight("abc", &vec![0, 2], "", ""), "abc");
    assert_eq!(highlight("abc", &vec![1], "", "]"), "ab]c");
}

#[test]
fn stripping_the_markers_gives_the_candidate_back() {
    let cases: [(&str, Vec<usize>); 8] = [
        ("hello world", vec![0, 9, 10]),
        ("hold", vec![0, 2, 3]),
        ("", vec![]),
        ("a > b", vec![0, 1, 2, 3, 4]),
        ("a < b", vec![0, 2, 4]),
        ("strong", vec![1, 3, 5]),
        ("<<strong", vec![0, 1]),
        ("\u{e9}t\u{e9}", vec![0, 2]),
    ];
    for (candidate, positions) in cases {
        let text = highlight(candidate, &positions, "<strong>", "</strong>");
        assert_eq!(strip(&text), candidate);
    }
}

#[test]
fn stripping_restores_a_marker_that_a_run_breaks_up() {
    let text = strong("<strong>", &[3]);
    assert_eq!(text, "<st<strong>r</strong>ong>");
    assert_eq!(strip(&text), "<strong>");
    let text = strong("x</strong>", &[0, 1, 2]);
    assert_eq!(text, "<strong>x</</strong>strong>");
    assert_eq!(strip(&text), "x</strong>");
}

#[test]
fn stripping_loses_a_marker_that_the_candidate_shows_whole() {
    assert_eq!(strong("<strong>", &[]), "<strong>");
    assert_eq!(strip("<strong>"), "");
    let text = strong("a</strong>b", &[0, 1, 2, 3, 4, 5, 6, 7, 8, 9, 10]);
    assert_eq!(text, "<strong>a</strong>b</strong>");
    assert_eq!(strip(&text), "ab");
}

#[test]
fn highlighting_twice_gives_the_same_text() {
    assert_eq!(strong("hello world", &[0, 9, 10]), strong("hello world", &[0, 9, 10]));
}

#[test]
fn agrees_with_the_formatter_of_the_scorer() {
    let cases = [
        ("something", "some search thing"),
        ("Scc", "SccsCoolController"),
        ("hld", "hello world"),
        ("abc", "abc"),
        ("c", "abc"),
        ("\u{1f440}", "\u{1f980} \u{1f448} \u{1f440}"),
    ];
    for (query, candidate) in cases {
        let scored = FuzzySearch::new(query, candidate)
            .case_sensitive()
            .best_match()
            .expect("a finding");
        let positions: Vec<usize> = scored.matched_indices().copied().collect();
        assert_eq!(
            highlight(candidate, &positions, "<strong>", "</strong>"),
            format_simple(&scored, candidate, "<strong>", "</strong>")
        );
    }
}
