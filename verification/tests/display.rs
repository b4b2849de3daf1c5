use fuzz::display::{
    display_plain, display_with_line_numbers, display_with_line_numbers_and_score,
    display_with_score, show,
};
use fuzz::filter::{score_bits, score_key};

fn results() -> Vec<(usize, u64, String)> {
    vec![
        (10, score_key(1.23456f64.to_bits()), "Lorem ipsum".to_string()),
        (25, score_key(2.0f64.to_bits()), "Dolor sit".to_string()),
    ]
}

/// The scores written as the program writes them.
fn score_texts(results: &Vec<(usize, u64, String)>) -> Vec<String> {
    results
        .iter()
        .map(|r| format!("{:07.3}", f64::from_bits(score_bits(r.1))))
        .collect()
}

#[test]
fn display_plain_should_show_only_lines() {
    assert_eq!(display_plain(results()), "Lorem ipsum\nDolor sit");
}

#[test]
fn display_with_line_numbers_should_show_real_line_numbers() {
    assert_eq!(
        display_with_line_numbers(results()),
        "\u{1b}[32m10:\u{1b}[0m Lorem ipsum\n\u{1b}[32m25:\u{1b}[0m Dolor sit"
    );
}

#[test]
fn display_with_score_should_show_scores() {
    let scores = score_texts(&results());
    assert_eq!(
        display_with_score(results(), &scores),
        "\u{1b}[33m[001.235]\u{1b}[0m Lorem ipsum\n\u{1b}[33m[002.000]\u{1b}[0m Dolor sit"
    );
}

#[test]
fn display_with_line_numbers_and_score_should_show_both() {
    let scores = score_texts(&results());
    assert_eq!(
        display_with_line_numbers_and_score(results(), &scores),
        "\u{1b}[32m10:\u{1b}[0m \u{1b}[33m[001.235]\u{1b}[0m Lorem ipsum\n\u{1b}[32m25:\u{1b}[0m \u{1b}[33m[002.000]\u{1b}[0m Dolor sit"
    );
}

#[test]
fn display_of_nothing_is_empty() {
    assert_eq!(display_plain(vec![]), "");
    assert_eq!(display_with_line_numbers(vec![]), "");
}

#[test]
fn display_writes_numbers_in_decimal() {
    let results = vec![
        (0, 0, "zero".to_string()),
        (7, 0, "seven".to_string()),
        (1234567, 0, "many".to_string()),
    ];
    assert_eq!(
        display_with_line_numbers(results),
        "\u{1b}[32m0:\u{1b}[0m zero\n\u{1b}[32m7:\u{1b}[0m seven\n\u{1b}[32m1234567:\u{1b}[0m many"
    );
}

#[test]
fn show_picks_the_form_by_the_flags() {
    let rows = || vec![(3usize, 0u64, "Lorem".to_string())];
    let scores = vec!["001.000".to_string()];
    assert_eq!(show(rows(), &scores, false, false), "Lorem");
    assert_eq!(show(rows(), &scores, true, false), "\u{1b}[32m3:\u{1b}[0m Lorem");
    assert_eq!(show(rows(), &scores, false, true), "\u{1b}[33m[001.000]\u{1b}[0m Lorem");
    assert_eq!(
        show(rows(), &scores, true, true),
        "\u{1b}[32m3:\u{1b}[0m \u{1b}[33m[001.000]\u{1b}[0m Lorem"
    );
}
