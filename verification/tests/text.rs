use fuzz::text::{chars_of, split_whitespace_exec};

#[test]
fn words_split_at_exactly_the_whitespace_of_std() {
    for u in 0u32..=0x10FFFF {
        if let Some(c) = char::from_u32(u) {
            let text = format!("a{c}b");
            let words = split_whitespace_exec(&chars_of(&text));
            let expected: Vec<Vec<char>> =
                text.split_whitespace().map(|w| w.chars().collect()).collect();
            assert_eq!(words, expected, "char {u:#x}");
        }
    }
}

#[test]
fn words_of_a_text_with_mixed_whitespace() {
    let words = split_whitespace_exec(&chars_of("  Lorem\tipsum\u{3000}dolor \n"));
    let expected: Vec<Vec<char>> =
        vec!["Lorem".chars().collect(), "ipsum".chars().collect(), "dolor".chars().collect()];
    assert_eq!(words, expected);
}
