use fuzz::config::{Cli, FileStatus};

fn regular_file(len: u64) -> FileStatus {
    FileStatus { exists: true, is_file: true, len }
}

fn settings(text: &str, top: u8) -> Cli {
    Cli {
        text: text.to_string(),
        file_path: std::path::PathBuf::from("lorem.txt"),
        top,
        lines: false,
        score: false,
    }
}

#[test]
fn validate_correct_fuzz_text() {
    let text: String = String::from("some text");
    let result = Cli::validate_fuzz_text(&text);
    assert_eq!(result, Ok(()))
}

#[test]
fn validate_empty_fuzz_text() {
    let text: String = String::from("");
    let result = Cli::validate_fuzz_text(&text);
    assert_eq!(result, Err("fuzz text cannot be empty"))
}

#[test]
fn validate_correct_file_path() {
    // A file holding "some content".
    let result = Cli::validate_file_path(&regular_file("some content".len() as u64));
    assert_eq!(result, Ok(()));
}

#[test]
fn validate_incorrect_file_path() {
    // Nothing exists at "missing.txt".
    let missing = FileStatus { exists: false, is_file: false, len: 0 };
    let result = Cli::validate_file_path(&missing);
    assert_eq!(result, Err("file does not exits"));
}

#[test]
fn validate_incorrect_directory_path() {
    // A directory exists at the path.
    let dir = FileStatus { exists: true, is_file: false, len: 4096 };
    let result = Cli::validate_file_path(&dir);
    assert_eq!(result, Err("provided path is not a file"));
}

#[test]
fn validate_empty_file() {
    let result = Cli::validate_file_path(&regular_file(0));
    assert_eq!(result, Err("provided file cannot be empty"));
}

#[test]
fn validate_correct_top_value() {
    let top: u8 = 50;
    let result = Cli::validate_top(&top);
    assert_eq!(result, Ok(()))
}

#[test]
fn validate_too_high_top_value() {
    let top: u8 = 120;
    let result = Cli::validate_top(&top);
    assert_eq!(result, Err("max \'top\' range equals 100"))
}

#[test]
fn validate_too_low_top_value() {
    let top: u8 = 0;
    let result = Cli::validate_top(&top);
    assert_eq!(result, Err("min \'top\' range equals 1"))
}

#[test]
fn validate_accepts_good_settings() {
    assert_eq!(settings("lorem ipsum", 10).validate(&regular_file(30)), Ok(()));
    assert_eq!(settings("x", 1).validate(&regular_file(1)), Ok(()));
    assert_eq!(settings("x", 100).validate(&regular_file(1)), Ok(()));
}

#[test]
fn validate_reports_first_failing_check() {
    let missing = FileStatus { exists: false, is_file: false, len: 0 };
    // The text is checked first, then the file, then the share.
    assert_eq!(settings("", 0).validate(&missing), Err("fuzz text cannot be empty"));
    assert_eq!(settings("x", 0).validate(&missing), Err("file does not exits"));
    assert_eq!(settings("x", 101).validate(&regular_file(3)), Err("max \'top\' range equals 100"));
    assert_eq!(settings("x", 0).validate(&regular_file(3)), Err("min \'top\' range equals 1"));
}
