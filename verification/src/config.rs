//! The command line settings and the checks made on them.
use std::path::PathBuf;
use vstd::prelude::*;

verus! {

/// `std::path::PathBuf`, carried through the settings unchanged.
#[verifier::external_type_specification]
#[verifier::external_body]
pub struct ExPathBuf(PathBuf);

/// The settings of one search.
pub struct Cli {
    /// The text that is searched for.
    pub text: String,
    /// The file whose lines are searched.
    pub file_path: PathBuf,
    /// Which share of the found lines is kept, in percent.
    pub top: u8,
    /// Whether line numbers are shown.
    pub lines: bool,
    /// Whether scores are shown.
    pub score: bool,
}

/// What the file system says of the file to search.
#[derive(Clone, Copy, Debug, PartialEq, Eq)]
pub struct FileStatus {
    /// Something exists at the path.
    pub exists: bool,
    /// What exists there is a regular file.
    pub is_file: bool,
    /// The size of the file in bytes.
    pub len: u64,
}

pub open spec fn text_error(text: Seq<char>) -> Option<Seq<char>> {
    if text.len() == 0 {
        Some("fuzz text cannot be empty"@)
    } else {
        None
    }
}

pub open spec fn file_error(file: FileStatus) -> Option<Seq<char>> {
    if !file.exists {
        Some("file does not exits"@)
    } else if !file.is_file {
        Some("provided path is not a file"@)
    } else if file.len == 0 {
        Some("provided file cannot be empty"@)
    } else {
        None
    }
}

pub open spec fn top_error(top: u8) -> Option<Seq<char>> {
    if top < 1 {
        Some("min \'top\' range equals 1"@)
    } else if top > 100 {
        Some("max \'top\' range equals 100"@)
    } else {
        None
    }
}

/// The message of the first check that fails, text first, then the file,
/// then the share; `None` when all pass.
pub open spec fn settings_error(text: Seq<char>, file: FileStatus, top: u8) -> Option<Seq<char>> {
    if text_error(text) is Some {
        text_error(text)
    } else if file_error(file) is Some {
        file_error(file)
    } else {
        top_error(top)
    }
}

/// A result is exactly the outcome that `expected` describes.
pub open spec fn outcome_is(r: Result<(), &'static str>, expected: Option<Seq<char>>) -> bool {
    match expected {
        None => r is Ok,
        Some(msg) => r is Err && r->Err_0@ == msg,
    }
}

impl Cli {
    /// Checks the settings; `file` is what the file system reports of
    /// `self.file_path`.
    pub fn validate(&self, file: &FileStatus) -> (r: Result<(), &'static str>)
        ensures
            outcome_is(r, settings_error(self.text@, *file, self.top)),
    {
        Self::validate_fuzz_text(self.text.as_str())?;
        Self::validate_file_path(file)?;
        Self::validate_top(&self.top)?;
        Ok(())
    }

    /// The search text must not be empty.
    pub fn validate_fuzz_text(text: &str) -> (r: Result<(), &'static str>)
        ensures
            outcome_is(r, text_error(text@)),
    {
        if text.is_empty() {
            Err("fuzz text cannot be empty")
        } else {
            Ok(())
        }
    }

    /// The path must name a regular, non-empty file.
    pub fn validate_file_path(file: &FileStatus) -> (r: Result<(), &'static str>)
        ensures
            outcome_is(r, file_error(*file)),
    {
        if !file.exists {
            return Err("file does not exits");
        }
        if !file.is_file {
            return Err("provided path is not a file");
        }
        if file.len == 0 {
            return Err("provided file cannot be empty");
        }
        Ok(())
    }

    /// The share must lie between 1 and 100 percent.
    pub fn validate_top(top: &u8) -> (r: Result<(), &'static str>)
        ensures
            outcome_is(r, top_error(*top)),
    {
        if *top < 1 {
            return Err("min \'top\' range equals 1");
        }
        if *top > 100 {
            return Err("max \'top\' range equals 100");
        }
        Ok(())
    }
}

} // verus!
