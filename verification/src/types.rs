//! Data shared across the search pipeline: languages, matches and errors.
use vstd::prelude::*;

verus! {

/// A source language the search can run on.
#[derive(Clone, Copy, Debug, PartialEq, Eq, Structural, Hash)]
pub enum Lang {
    Rust,
    Python,
    JavaScript,
    TypeScript,
    Go,
}

/// Either one fixed language or every supported one.
#[derive(Clone, Copy, Debug, PartialEq, Eq, Structural)]
pub enum LangMode {
    Single(Lang),
    Auto,
}

/// Inputs of one search run.
#[derive(Clone, Debug)]
pub struct SearchConfig {
    pub queries: Vec<String>,
    pub root_path: String,
    pub lang_mode: LangMode,
}

/// One capture of one query match: where it is and what it covers.
///
/// Lines are 1-based and columns 0-based; `start_byte..end_byte` is the
/// captured range of the file's bytes.
#[derive(Clone, Debug, PartialEq, Eq)]
pub struct MatchResult {
    pub file_path: String,
    pub start_line: usize,
    pub start_col: usize,
    pub end_line: usize,
    pub end_col: usize,
    pub capture_name: String,
    pub matched_text: String,
    pub start_byte: usize,
    pub end_byte: usize,
}

impl MatchResult {
    /// A field-by-field copy.
    pub fn duplicate(&self) -> (r: MatchResult)
        ensures
            r == *self,
    {
        MatchResult {
            file_path: self.file_path.clone(),
            start_line: self.start_line,
            start_col: self.start_col,
            end_line: self.end_line,
            end_col: self.end_col,
            capture_name: self.capture_name.clone(),
            matched_text: self.matched_text.clone(),
            start_byte: self.start_byte,
            end_byte: self.end_byte,
        }
    }
}

/// Copies every element of `v`.
pub fn duplicate_all(v: &Vec<MatchResult>) -> (r: Vec<MatchResult>)
    ensures
        r@ == v@,
{
    let mut r: Vec<MatchResult> = Vec::new();
    let mut i: usize = 0;
    while i < v.len()
        invariant
            i <= v.len(),
            r@ == v@.take(i as int),
        decreases v.len() - i,
    {
        r.push(v[i].duplicate());
        assert(v@.take(i + 1) == v@.take(i as int).push(v@[i as int]));
        i += 1;
    }
    assert(v@.take(v.len() as int) == v@);
    r
}

/// Errors of the search pipeline; each carries its message.
#[derive(Clone, Debug)]
pub enum AppError {
    IoError(String),
    ParseError(String),
    LanguageNotSupported(String),
    QueryCompileError(String),
    DbError(String),
}

impl AppError {
    /// The message that the error carries.
    pub open spec fn text(&self) -> Seq<char> {
        match self {
            AppError::IoError(m) => m@,
            AppError::ParseError(m) => m@,
            AppError::LanguageNotSupported(m) => m@,
            AppError::QueryCompileError(m) => m@,
            AppError::DbError(m) => m@,
        }
    }

    /// The message that the error carries.
    pub fn message(&self) -> (r: String)
        ensures
            r@ == self.text(),
    {
        match self {
            AppError::IoError(m) => m.clone(),
            AppError::ParseError(m) => m.clone(),
            AppError::LanguageNotSupported(m) => m.clone(),
            AppError::QueryCompileError(m) => m.clone(),
            AppError::DbError(m) => m.clone(),
        }
    }
}

} // verus!
