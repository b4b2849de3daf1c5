use fuzz::search::Search;

fn indexed(lines: &[&str]) -> Search {
    let mut search = Search::new().unwrap();
    let lines: Vec<String> = lines.iter().map(|l| l.to_string()).collect();
    search.index_lines(&lines).unwrap();
    search
}

#[test]
fn new_should_create_search() {
    let search = Search::new();
    assert!(search.is_ok());
}

#[test]
fn index_lines_should_index_file() {
    // The lines of "Lorem\nipsum\ndolor\n".
    let mut search = Search::new().unwrap();
    let lines = vec!["Lorem".to_string(), "ipsum".to_string(), "dolor".to_string()];
    assert!(search.index_lines(&lines).is_ok());
    assert_eq!(search.line_counter(), 3);
}

#[test]
fn query_should_find_matching_documents() {
    let mut search = indexed(&["Lorem ipsum", "dolor sit amet...", "Lorem else"]);
    let result = search.query(&"Lorem".to_string()).unwrap();
    assert_eq!(result.len(), 2);
    let lines: Vec<String> = result.into_iter().map(|(_, line)| line).collect();
    assert!(lines.contains(&"Lorem ipsum".to_string()));
    assert!(lines.contains(&"Lorem else".to_string()));
}

#[test]
fn query_should_return_line_numbers() {
    let mut search = indexed(&["first line", "Lorem ipsum", "third line", "Lorem else"]);
    let result = search.query(&"Lorem".to_string()).unwrap();
    let line_numbers: Vec<usize> = result.into_iter().map(|(line_number, _)| line_number).collect();
    assert!(line_numbers.contains(&2));
    assert!(line_numbers.contains(&4));
}

#[test]
fn query_should_return_empty_when_nothing_matches() {
    let mut search = indexed(&["Lorem ipsum", "dolor sit amet,", "ad ad enim eiusmod sed"]);
    let result = search.query(&"none".to_string()).unwrap();
    assert!(result.is_empty());
}

#[test]
fn query_should_return_empty_for_invalid_text() {
    let mut search = indexed(&["Lorem ipsum"]);
    let result = search.query(&"\"".to_string()).unwrap();
    assert!(result.is_empty());
}

#[test]
fn query_should_match_typo() {
    let mut search = indexed(&["Lorem ipsum"]);
    // typo "Lorem" -> "Lroem"
    let result = search.query(&"Lroem".to_string()).unwrap();
    assert_eq!(result.len(), 1);
    assert_eq!(result[0].1, "Lorem ipsum");
}

#[test]
fn query_finds_each_line_with_its_number() {
    let lines = ["apple one", "pear two", "apple three", "plum", "apple four"];
    let mut search = indexed(&lines);
    let result = search.query(&"apple".to_string()).unwrap();
    assert_eq!(result.len(), 3);
    for (n, line) in result {
        assert_eq!(lines[n - 1], line);
    }
}

#[test]
fn query_finds_each_matching_line_once() {
    let mut search = indexed(&["lorem", "lorem", "ipsum"]);
    let result = search.query(&"LOREM".to_string()).unwrap();
    let mut numbers: Vec<usize> = result.iter().map(|(n, _)| *n).collect();
    numbers.sort();
    assert_eq!(numbers, vec![1, 2]);
}

#[test]
fn query_matches_any_word_within_two_edits() {
    let mut search = indexed(&["alpha beta", "gamma", "delta epsilon", "zeta"]);
    // "gama" is one edit from "gamma", "epsilonxx" two from "epsilon".
    let result = search.query(&"gama epsilonxx".to_string()).unwrap();
    let mut numbers: Vec<usize> = result.iter().map(|(n, _)| *n).collect();
    numbers.sort();
    assert_eq!(numbers, vec![2, 3]);
}

#[test]
fn index_lines_twice_numbers_each_call_from_one() {
    let mut search = Search::new().unwrap();
    search.index_lines(&vec!["apple".to_string()]).unwrap();
    search.index_lines(&vec!["pear".to_string(), "apple pie".to_string()]).unwrap();
    assert_eq!(search.line_counter(), 3);
    let mut result = search.query(&"apple".to_string()).unwrap();
    result.sort();
    assert_eq!(result, vec![(1, "apple".to_string()), (2, "apple pie".to_string())]);
}
