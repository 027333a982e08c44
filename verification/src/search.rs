//! What a search run keeps of each file it visits: the file's matches, or why
//! it was skipped; and what the run reports at the end.
use vstd::prelude::*;
use crate::cli::FileError;
use crate::order::{sort_and_dedup, sorted_unique_of};
use std::sync::Arc;
use crate::parser::{empty_source_message, grammar_loads, grammar_mismatch_message, parse_source, Grammar, TsLanguage};
use crate::query::{
    extract_matches_reporting, is_result_for, query_results, query_warnings, reports_exactly, sound_result,
    string_views, CompiledQuery,
};
use crate::text::{decimal, owned, push_decimal, push_str};
use crate::types::{AppError, MatchResult};

verus! {

/// The three stages at which a file can be skipped.
#[derive(Clone, Copy, Debug, PartialEq, Eq, Structural)]
pub enum SkipStage {
    Walk,
    Read,
    Parse,
}

/// Why a file was skipped, from the error that reading or parsing it gave:
/// the stage, the path and the message.
pub open spec fn failure_spec(path: Seq<char>, error: AppError) -> (SkipStage, Option<Seq<char>>, Seq<char>) {
    match error {
        AppError::IoError(_) => (SkipStage::Read, Some(path), error.text()),
        AppError::ParseError(_) => (SkipStage::Parse, Some(path), error.text()),
        _ => (SkipStage::Read, Some(path), "unexpected error: "@ + error.text()),
    }
}

/// A skip reason as plain values: its stage, its path (if known) and its message.
pub open spec fn file_failure_view(f: FileError) -> (SkipStage, Option<Seq<char>>, Seq<char>) {
    match f {
        FileError::WalkerAccess { path, message } => (SkipStage::Walk, match path {
            Some(p) => Some(p@),
            None => None,
        }, message@),
        FileError::ReadFailure { path, message } => (SkipStage::Read, Some(path@), message@),
        FileError::ParseFailure { path, message } => (SkipStage::Parse, Some(path@), message@),
    }
}

/// Why the file at `path` was skipped: a read error is a read failure, a
/// parse error a parse failure, and any other error an unexpected read failure.
pub fn file_failure(path: String, error: &AppError) -> (f: FileError)
    ensures
        file_failure_view(f) == failure_spec(path@, *error),
{
    match error {
        AppError::IoError(_) => FileError::ReadFailure { path, message: error.message() },
        AppError::ParseError(_) => FileError::ParseFailure { path, message: error.message() },
        _ => {
            let mut m = owned("unexpected error: ");
            let text = error.message();
            push_str(&mut m, text.as_str());
            FileError::ReadFailure { path, message: m }
        },
    }
}

/// What the queries report over the text `source` parsed in the grammar `g`,
/// query after query.
pub open spec fn queries_results(
    g: Grammar,
    source: Seq<char>,
    queries: Seq<Arc<CompiledQuery>>,
    path: Seq<char>,
) -> Seq<(Seq<char>, Seq<char>, usize, usize, usize, usize, usize, usize)>
    decreases queries.len(),
{
    if queries.len() == 0 {
        seq![]
    } else {
        queries_results(g, source, queries.drop_last(), path) + query_results(
            g,
            source,
            queries.last().grammar(),
            queries.last().source(),
            path,
        )
    }
}

/// The warnings the queries give over the text `source` parsed in the grammar
/// `g`, query after query.
pub open spec fn queries_warnings(g: Grammar, source: Seq<char>, queries: Seq<Arc<CompiledQuery>>) -> Seq<Seq<char>>
    decreases queries.len(),
{
    if queries.len() == 0 {
        seq![]
    } else {
        queries_warnings(g, source, queries.drop_last()) + query_warnings(
            g,
            source,
            queries.last().grammar(),
            queries.last().source(),
        )
    }
}

/// What searching one file gives: its results, and a warning for each capture
/// that had to be skipped.
pub struct FileMatches {
    pub results: Vec<MatchResult>,
    pub warnings: Vec<String>,
}

/// Searches the text of one file: parses it once and runs each query over the
/// tree. An empty text is refused; a text in a grammar that loads is searched,
/// syntax errors and all, and gives exactly what the queries report over it, in
/// that file; with a grammar that does not load, the search fails.
pub fn search_source(
    path: &str,
    source: String,
    language: &TsLanguage,
    queries: &Vec<Arc<CompiledQuery>>,
) -> (r: Result<FileMatches, AppError>)
    ensures
        source@.len() == 0 ==> (r matches Err(AppError::ParseError(m)) && m@ == empty_source_message(path@)),
        source@.len() > 0 && !grammar_loads(language.grammar()) ==> (r matches Err(AppError::ParseError(m)) && m@
            == grammar_mismatch_message()),
        source@.len() > 0 && grammar_loads(language.grammar()) ==> (r matches Ok(f) && reports_exactly(
            f.results@,
            queries_results(language.grammar(), source@, queries@, path@),
            path@,
        ) && string_views(f.warnings@) == queries_warnings(language.grammar(), source@, queries@)),
        r matches Ok(f) ==> forall|k: int|
            0 <= k < f.results@.len() ==> sound_result(#[trigger] f.results@[k], source@, path@),
{
    let ghost text = source@;
    let parsed = match parse_source(path, source, language) {
        Ok(parsed) => parsed,
        Err(e) => return Err(e),
    };
    let mut results: Vec<MatchResult> = Vec::new();
    let mut warnings: Vec<String> = Vec::new();
    let mut i: usize = 0;
    while i < queries.len()
        invariant
            i <= queries.len(),
            parsed.grammar() == language.grammar(),
            parsed.source() == text,
            reports_exactly(results@, queries_results(language.grammar(), text, queries@.take(i as int), path@), path@),
            string_views(warnings@) == queries_warnings(language.grammar(), text, queries@.take(i as int)),
            forall|k: int| 0 <= k < results@.len() ==> sound_result(#[trigger] results@[k], text, path@),
        decreases queries.len() - i,
    {
        let q = &queries[i];
        let (mut found, mut noted) = extract_matches_reporting(&parsed, q, path);
        let ghost d1 = queries_results(language.grammar(), text, queries@.take(i as int), path@);
        let ghost d2 = query_results(language.grammar(), text, q.grammar(), q.source(), path@);
        let ghost r1 = results@;
        let ghost r2 = found@;
        let ghost w1 = warnings@;
        let ghost w2 = noted@;
        results.append(&mut found);
        warnings.append(&mut noted);
        proof {
            assert(queries@.take(i + 1).drop_last() =~= queries@.take(i as int));
            assert(queries@.take(i + 1).last() == *q);
            assert(queries_results(language.grammar(), text, queries@.take(i + 1), path@) == d1 + d2);
            assert forall|k: int| 0 <= k < results@.len() implies is_result_for(#[trigger] results@[k], (d1 + d2)[k], path@) by {
                if k < r1.len() {
                    assert(results@[k] == r1[k]);
                } else {
                    assert(results@[k] == r2[k - r1.len()]);
                }
            }
            assert forall|k: int| 0 <= k < results@.len() implies sound_result(#[trigger] results@[k], text, path@) by {
                if k < r1.len() {
                    assert(results@[k] == r1[k]);
                } else {
                    assert(results@[k] == r2[k - r1.len()]);
                }
            }
            assert(string_views(warnings@) =~= string_views(w1) + string_views(w2));
        }
        i += 1;
    }
    proof {
        assert(queries@.take(queries.len() as int) =~= queries@);
    }
    Ok(FileMatches { results, warnings })
}

/// The results gathered so far, and how many files were searched and skipped.
pub struct SearchTally {
    pub results: Vec<MatchResult>,
    pub processed: usize,
    pub skipped: usize,
}

impl SearchTally {
    /// Nothing searched yet.
    pub fn new() -> (t: SearchTally)
        ensures
            t.results@ == Seq::<MatchResult>::empty(),
            t.processed == 0,
            t.skipped == 0,
    {
        SearchTally { results: Vec::new(), processed: 0, skipped: 0 }
    }

    /// A file was searched and gave `matches`.
    pub fn record_matches(&mut self, matches: Vec<MatchResult>)
        requires
            old(self).processed < usize::MAX,
        ensures
            final(self).results@ == old(self).results@ + matches@,
            final(self).processed == old(self).processed + 1,
            final(self).skipped == old(self).skipped,
    {
        let mut m = matches;
        self.results.append(&mut m);
        self.processed = self.processed + 1;
    }

    /// A file was skipped.
    pub fn record_skip(&mut self)
        requires
            old(self).skipped < usize::MAX,
        ensures
            final(self).results@ == old(self).results@,
            final(self).processed == old(self).processed,
            final(self).skipped == old(self).skipped + 1,
    {
        self.skipped = self.skipped + 1;
    }

    /// The results sorted with duplicates removed, and the two counts.
    pub fn finish(&self) -> (r: (Vec<MatchResult>, usize, usize))
        ensures
            sorted_unique_of(self.results@, r.0@),
            r.1 == self.processed,
            r.2 == self.skipped,
    {
        (sort_and_dedup(&self.results), self.processed, self.skipped)
    }
}

/// The closing warning about skipped files.
pub open spec fn skip_warning_text(skipped: nat) -> Seq<char> {
    "warning: skipped "@ + decimal(skipped) + " "@ + (if skipped == 1 { "file"@ } else { "files"@ })
        + " due to errors (use --quiet to suppress)"@
}

/// The closing warning about skipped files, given unless nothing was skipped
/// or the run is quiet.
pub fn skip_warning(skipped: usize, quiet: bool) -> (r: Option<String>)
    ensures
        skipped == 0 || quiet ==> r is None,
        skipped > 0 && !quiet ==> (r matches Some(m) && m@ == skip_warning_text(skipped as nat)),
{
    if skipped == 0 || quiet {
        return None;
    }
    let mut m = owned("warning: skipped ");
    push_decimal(&mut m, skipped);
    push_str(&mut m, " ");
    if skipped == 1 {
        push_str(&mut m, "file");
    } else {
        push_str(&mut m, "files");
    }
    push_str(&mut m, " due to errors (use --quiet to suppress)");
    Some(m)
}

} // verus!
