use fuzz::config::Cli;
use fuzz::run;

fn settings(text: &str) -> Cli {
    Cli {
        text: text.to_string(),
        file_path: std::path::PathBuf::from("lorem.txt"),
        top: 50,
        lines: false,
        score: false,
    }
}

#[test]
fn run_finds_and_scores_matching_lines() {
    let lines = vec!["Lorem ipsum".to_string(), "dolor sit amet".to_string(), "Lorem else".to_string()];
    let found = match run(&settings("Lorem"), lines) {
        Ok(found) => found,
        Err(_) => panic!("the search failed"),
    };
    assert_eq!(found.len(), 2);
    let file = ["Lorem ipsum", "dolor sit amet", "Lorem else"];
    for (n, score, line) in &found {
        assert!(*n == 1 || *n == 3);
        assert_eq!(file[*n - 1], line.as_str());
        assert_eq!(score.phrase_points, 185);
        assert!(line.starts_with("Lorem"));
    }
}

#[test]
fn run_finds_lines_despite_a_typo() {
    let lines = vec!["Lorem ipsum".to_string(), "One".to_string(), "two".to_string()];
    let found = match run(&settings("Lroem"), lines) {
        Ok(found) => found,
        Err(_) => panic!("the search failed"),
    };
    assert_eq!(found.len(), 1);
    assert_eq!(found[0].2, "Lorem ipsum");
}
