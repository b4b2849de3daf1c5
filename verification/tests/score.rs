use fuzz::score::{LineScore, Score};

fn check(
    s: &LineScore,
    phrase: u32,
    lowercase_phrase: u32,
    tokens: usize,
    lowercase_tokens: usize,
    ordered: usize,
    distance: Option<u128>,
    word_starts: usize,
    runs: Vec<usize>,
    excess: u128,
) {
    assert_eq!(s.phrase_points, phrase);
    assert_eq!(s.lowercase_phrase_points, lowercase_phrase);
    assert_eq!(s.exact_tokens, tokens);
    assert_eq!(s.lowercase_tokens, lowercase_tokens);
    assert_eq!(s.ordered_tokens, ordered);
    assert_eq!(s.distance, distance);
    assert_eq!(s.word_starts, word_starts);
    assert_eq!(s.subsequence_runs, runs);
    assert_eq!(s.length_excess, excess);
}

#[test]
fn score_of_a_line_starting_with_the_text() {
    let s = Score::calculate_line("Lorem", "Lorem ipsum");
    check(&s, 185, 145, 1, 1, 1, None, 1, vec![1, 2, 3, 4, 5], 6);
}

#[test]
fn score_of_an_equal_line() {
    let s = Score::calculate_line("Lorem", "Lorem");
    check(&s, 285, 225, 1, 1, 1, None, 1, vec![1, 2, 3, 4, 5], 0);
}

#[test]
fn score_ignores_case_only_in_lowercase_heuristics() {
    let s = Score::calculate_line("LOREM", "lorem ipsum");
    check(&s, 0, 145, 0, 1, 1, None, 1, vec![1, 2, 3, 4, 5], 6);
}

#[test]
fn score_of_empty_text_or_line_is_zero() {
    for s in [Score::calculate_line("", "Lorem"), Score::calculate_line("Lorem", "")] {
        check(&s, 0, 0, 0, 0, 0, None, 0, vec![], 0);
    }
}

#[test]
fn score_counts_lengths_in_bytes() {
    let s = Score::calculate_line("é", "café é");
    check(&s, 90, 70, 1, 1, 1, None, 0, vec![1], 6);
}

#[test]
fn score_measures_word_distance_in_bytes() {
    let s = Score::calculate_line("lorem ipsum", "lorem ééé ipsum");
    assert_eq!(s.distance, Some(13));
    assert_eq!(s.ordered_tokens, 2);
    let s = Score::calculate_line("ipsum lorem", "Lorem ipsum");
    assert_eq!(s.distance, Some(0));
    assert_eq!(s.ordered_tokens, 1);
    assert_eq!(s.lowercase_tokens, 2);
}

#[test]
fn score_finds_words_at_word_starts() {
    let s = Score::calculate_line("lorem ipsum", "xlorem,ipsum");
    assert_eq!(s.word_starts, 1);
    assert_eq!(s.lowercase_tokens, 2);
}

#[test]
fn score_restarts_runs_after_a_gap() {
    let s = Score::calculate_line("abc", "axbc");
    assert_eq!(s.subsequence_runs, vec![1, 1, 2]);
    let s = Score::calculate_line("abc", "cba");
    assert_eq!(s.subsequence_runs, vec![1]);
}

#[test]
fn score_heuristics_agree() {
    let lines = ["Lorem ipsum dolor", "ipsum, Lorem", "dolorem", "xx lorem lorem", ""];
    for line in lines {
        let s = Score::calculate_line("lorem Ipsum dolor", line);
        assert!(s.ordered_tokens <= s.lowercase_tokens);
        assert!(s.word_starts <= s.lowercase_tokens);
        assert_eq!(s.distance.is_some(), s.lowercase_tokens >= 2);
        assert!([0, 90, 185, 285].contains(&s.phrase_points));
    }
}

#[test]
fn calculate_scores_each_line_and_keeps_it() {
    let found = vec![(1, "Lorem ipsum".to_string()), (3, "Lorem else".to_string())];
    let scored = Score::calculate("Lorem", found);
    assert_eq!(scored.len(), 2);
    assert_eq!(scored[0].0, 1);
    assert_eq!(scored[0].2, "Lorem ipsum");
    assert_eq!(scored[1].0, 3);
    assert_eq!(scored[1].2, "Lorem else");
    assert_eq!(scored[1].1.phrase_points, 185);
    assert_eq!(scored[1].1.length_excess, 5);
}
