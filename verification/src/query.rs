//! Compiling tree-sitter queries and turning their captures into results.
use vstd::prelude::*;
use vstd::utf8::*;
use vstd::string::StringSliceAdditionalSpecFns;
use std::sync::Arc;
use crate::text::{decimal, owned, push_chars, push_decimal, push_str};
use crate::parser::{Grammar, ParsedSource, TsLanguage};
use crate::types::{AppError, MatchResult};
use tree_sitter::QueryErrorKind as K;

verus! {

#[verifier::external_type_specification]
#[verifier::external_body]
pub struct ExQuery(tree_sitter::Query);

/// The kinds of query errors tree-sitter reports.
#[derive(Clone, Copy, Debug, PartialEq, Eq, Structural)]
pub enum QueryProblem {
    Syntax,
    NodeType,
    Field,
    Capture,
    Predicate,
    Structure,
    Language,
}

/// A query that did not compile: where, why, and what tree-sitter said.
pub struct QueryFailure {
    pub row: usize,
    pub column: usize,
    pub offset: usize,
    pub message: String,
    pub kind: QueryProblem,
}

/// A query failure as plain values.
pub struct QueryFailureView {
    pub row: usize,
    pub column: usize,
    pub offset: usize,
    pub message: Seq<char>,
    pub kind: QueryProblem,
}

impl View for QueryFailure {
    type V = QueryFailureView;

    open spec fn view(&self) -> QueryFailureView {
        QueryFailureView {
            row: self.row,
            column: self.column,
            offset: self.offset,
            message: self.message@,
            kind: self.kind,
        }
    }
}

/// What `Query::new` answers for a query text in a grammar: it compiles, or
/// fails with the given error.
pub uninterp spec fn query_outcome(g: Grammar, text: Seq<char>) -> Result<(), QueryFailureView>;

/// Whether a query text compiles in a grammar.
pub open spec fn query_compiles(g: Grammar, text: Seq<char>) -> bool {
    query_outcome(g, text) is Ok
}

/// A compiled query together with the grammar and text it was compiled from.
/// Built only by `query_new`, which tags the query that tree-sitter compiled.
#[derive(Debug)]
pub struct CompiledQuery {
    pub(crate) grammar: Grammar,
    pub(crate) text: String,
    pub(crate) query: tree_sitter::Query,
}

impl CompiledQuery {
    /// The grammar the query was compiled for.
    pub closed spec fn grammar(&self) -> Grammar {
        self.grammar
    }

    /// The query's text.
    pub closed spec fn source(&self) -> Seq<char> {
        self.text@
    }

    /// The compiled query, as a value.
    pub closed spec fn query_spec(&self) -> tree_sitter::Query {
        self.query
    }

    /// The compiled query.
    pub fn query(&self) -> (q: &tree_sitter::Query)
        ensures
            *q == self.query_spec(),
    {
        &self.query
    }

    /// The query's capture names, in index order.
    pub fn capture_names(&self) -> (r: Vec<String>)
        ensures
            name_views(r@) == capture_names_of(self.grammar(), self.source()),
    {
        query_capture_names(self)
    }
}

/// `Query::new` for a grammar's language, the error's fields handed over as
/// they are. Trusted: the outcome depends on the grammar and the text alone,
/// and a compiled query is tagged with both.
#[verifier::external_body]
fn query_new(language: &TsLanguage, source: &str) -> (r: Result<CompiledQuery, QueryFailure>)
    ensures
        match query_outcome(language.grammar(), source@) {
            Ok(_) => r matches Ok(q) && q.grammar() == language.grammar() && q.source() == source@,
            Err(f) => r matches Err(e) && e@ == f,
        },
{
    match tree_sitter::Query::new(&language.language, source) {
        Ok(query) => Ok(CompiledQuery { grammar: language.grammar, text: source.to_string(), query }),
        Err(e) => Err(QueryFailure { row: e.row, column: e.column, offset: e.offset, message: e.message,
            kind: match e.kind {
                K::Syntax => QueryProblem::Syntax, K::NodeType => QueryProblem::NodeType,
                K::Field => QueryProblem::Field, K::Capture => QueryProblem::Capture,
                K::Predicate => QueryProblem::Predicate, K::Structure => QueryProblem::Structure,
                K::Language => QueryProblem::Language,
            } }),
    }
}

pub open spec fn problem_label(k: QueryProblem) -> Seq<char> {
    match k {
        QueryProblem::Field => "Invalid field name "@,
        QueryProblem::NodeType => "Invalid node type "@,
        QueryProblem::Capture => "Invalid capture name "@,
        QueryProblem::Predicate => "Invalid predicate: "@,
        QueryProblem::Structure => "Impossible pattern:\n"@,
        QueryProblem::Syntax => "Invalid syntax:\n"@,
        QueryProblem::Language => ""@,
    }
}

/// How tree-sitter prints a query error: the bare message for a language
/// error, otherwise the 1-based position, a label for the kind, and the message.
pub open spec fn query_failure_text(f: QueryFailureView) -> Seq<char> {
    if f.kind == QueryProblem::Language {
        f.message
    } else {
        "Query error at "@ + decimal(f.row as nat + 1) + ":"@ + decimal(f.column as nat + 1) + ". "@
            + problem_label(f.kind) + f.message
    }
}

/// The text of a query error, as tree-sitter prints it.
pub fn query_failure_message(f: &QueryFailure) -> (r: String)
    ensures
        r@ == query_failure_text(f@),
{
    match f.kind {
        QueryProblem::Language => f.message.clone(),
        _ => {
            let mut m = owned("Query error at ");
            let row = crate::text::decimal_chars(f.row as u128 + 1);
            push_chars(&mut m, &row);
            push_str(&mut m, ":");
            let col = crate::text::decimal_chars(f.column as u128 + 1);
            push_chars(&mut m, &col);
            push_str(&mut m, ". ");
            let label = match f.kind {
                QueryProblem::Field => "Invalid field name ",
                QueryProblem::NodeType => "Invalid node type ",
                QueryProblem::Capture => "Invalid capture name ",
                QueryProblem::Predicate => "Invalid predicate: ",
                QueryProblem::Structure => "Impossible pattern:\n",
                QueryProblem::Syntax => "Invalid syntax:\n",
                QueryProblem::Language => "",
            };
            push_str(&mut m, label);
            push_str(&mut m, f.message.as_str());
            m
        },
    }
}

/// What compiling a query gives, from what tree-sitter answered: the query
/// ready to share, or a compile error carrying tree-sitter's message.
pub fn compile_outcome(answer: Result<CompiledQuery, QueryFailure>) -> (r: Result<Arc<CompiledQuery>, AppError>)
    ensures
        match answer {
            Ok(q) => r matches Ok(a) && *a == q,
            Err(f) => r matches Err(AppError::QueryCompileError(m)) && m@ == query_failure_text(f@),
        },
{
    match answer {
        Ok(q) => Ok(Arc::new(q)),
        Err(f) => Err(AppError::QueryCompileError(query_failure_message(&f))),
    }
}

/// The compiled queries of one language, together with that language.
pub struct MultiCompiledQuery {
    pub queries: Vec<Arc<CompiledQuery>>,
    pub language: TsLanguage,
}

/// Compiles a query for a language: it compiles exactly when tree-sitter
/// accepts it, and otherwise fails with tree-sitter's error text.
pub fn compile_query(language: &TsLanguage, query_source: &str) -> (r: Result<Arc<CompiledQuery>, AppError>)
    ensures
        match query_outcome(language.grammar(), query_source@) {
            Ok(_) => r matches Ok(q) && q.grammar() == language.grammar() && q.source() == query_source@,
            Err(f) => r matches Err(AppError::QueryCompileError(m)) && m@ == query_failure_text(f),
        },
{
    compile_outcome(query_new(language, query_source))
}

// ---------------------------------------------------------------------------
// Captures
// ---------------------------------------------------------------------------

/// One captured node of one match: the index of the capture's name, whether
/// the node is named, its kind, its byte range and its start and end
/// positions (rows and columns from 0).
pub struct CaptureRecord {
    pub index: u32,
    pub named: bool,
    pub kind: String,
    pub start_byte: usize,
    pub end_byte: usize,
    pub start_row: usize,
    pub start_col: usize,
    pub end_row: usize,
    pub end_col: usize,
}

/// A captured node as plain values.
pub struct CaptureView {
    pub index: u32,
    pub named: bool,
    pub kind: Seq<char>,
    pub start_byte: usize,
    pub end_byte: usize,
    pub start_row: usize,
    pub start_col: usize,
    pub end_row: usize,
    pub end_col: usize,
}

impl View for CaptureRecord {
    type V = CaptureView;

    open spec fn view(&self) -> CaptureView {
        CaptureView {
            index: self.index,
            named: self.named,
            kind: self.kind@,
            start_byte: self.start_byte,
            end_byte: self.end_byte,
            start_row: self.start_row,
            start_col: self.start_col,
            end_row: self.end_row,
            end_col: self.end_col,
        }
    }
}

pub open spec fn capture_views(s: Seq<CaptureRecord>) -> Seq<CaptureView> {
    s.map_values(|c: CaptureRecord| c@)
}

pub open spec fn name_views(s: Seq<String>) -> Seq<Seq<char>> {
    s.map_values(|n: String| n@)
}

/// The captures that running a query (compiled in one grammar from one text)
/// over the tree of a source text (parsed in a grammar) gives: every capture
/// of every match, in the order tree-sitter reports them.
pub uninterp spec fn query_captures(
    tree_grammar: Grammar,
    source: Seq<char>,
    query_grammar: Grammar,
    query_text: Seq<char>,
) -> Seq<CaptureView>;

/// The capture names of a query compiled in a grammar from a text.
pub uninterp spec fn capture_names_of(g: Grammar, text: Seq<char>) -> Seq<Seq<char>>;

/// Runs a query over a parsed text (`QueryCursor::matches` from the root of
/// its tree, over its own bytes) and hands out every capture of every match,
/// in order. Trusted: the captures depend on the grammars and texts alone.
#[verifier::external_body]
fn run_query(parsed: &ParsedSource, query: &CompiledQuery) -> (r: Vec<CaptureRecord>)
    ensures
        capture_views(r@) == query_captures(parsed.grammar(), parsed.source(), query.grammar(), query.source()),
{
    let mut cursor = tree_sitter::QueryCursor::new();
    let mut out = Vec::new();
    for m in cursor.matches(&query.query, parsed.tree.root_node(), parsed.text.as_bytes()) {
        for c in m.captures {
            let (n, s, e) = (c.node, c.node.start_position(), c.node.end_position());
            out.push(CaptureRecord { index: c.index, named: n.is_named(), kind: n.kind().to_string(),
                start_byte: n.start_byte(), end_byte: n.end_byte(),
                start_row: s.row, start_col: s.column, end_row: e.row, end_col: e.column });
        }
    }
    out
}

/// The capture names of a query (`Query::capture_names`). Trusted: they
/// depend on the grammar and the query text alone.
#[verifier::external_body]
fn query_capture_names(query: &CompiledQuery) -> (r: Vec<String>)
    ensures
        name_views(r@) == capture_names_of(query.grammar(), query.source()),
{
    query.query.capture_names().iter().map(|n| n.to_string()).collect()
}

/// The name a capture is reported under: its own name for a named node, and
/// for an anonymous node the name followed by the node kind in brackets.
pub open spec fn capture_label(base: Seq<char>, named: bool, kind: Seq<char>) -> Seq<char> {
    if named {
        base
    } else {
        base + "["@ + kind + "]"@
    }
}

/// The name a capture is reported under.
pub fn format_capture_name(base_name: &str, named: bool, kind: &str) -> (r: String)
    ensures
        r@ == capture_label(base_name@, named, kind@),
{
    if named {
        owned(base_name)
    } else {
        let mut l = owned(base_name);
        push_str(&mut l, "[");
        push_str(&mut l, kind);
        push_str(&mut l, "]");
        l
    }
}

/// The text of `source` between two byte offsets, when both lie on character
/// boundaries in order (`str::get`).
pub open spec fn source_slice(source: Seq<char>, start: usize, end: usize) -> Option<Seq<char>> {
    let b = encode_utf8(source);
    if start <= end && is_char_boundary(b, start as int) && is_char_boundary(b, end as int) {
        Some(decode_utf8(b.subrange(start as int, end as int)))
    } else {
        None
    }
}

/// The result for one capture, if it can be reported: its name index must be a
/// name of the query, its byte range a range of the source, and its rows below
/// the largest `usize` (lines are reported from 1).
pub open spec fn capture_result(
    c: CaptureView,
    names: Seq<Seq<char>>,
    source: Seq<char>,
    file_path: Seq<char>,
) -> Option<(Seq<char>, Seq<char>, usize, usize, usize, usize, usize, usize)> {
    if (c.index as int) < names.len() && c.start_row < usize::MAX && c.end_row < usize::MAX {
        match source_slice(source, c.start_byte, c.end_byte) {
            Some(text) => Some((
                capture_label(names[c.index as int], c.named, c.kind),
                text,
                (c.start_row + 1) as usize,
                c.start_col,
                (c.end_row + 1) as usize,
                c.end_col,
                c.start_byte,
                c.end_byte,
            )),
            None => None,
        }
    } else {
        None
    }
}

/// `m` is the result that `capture_result` describes, in the file `file_path`.
pub open spec fn is_result_for(
    m: MatchResult,
    d: (Seq<char>, Seq<char>, usize, usize, usize, usize, usize, usize),
    file_path: Seq<char>,
) -> bool {
    &&& m.file_path@ == file_path
    &&& m.capture_name@ == d.0
    &&& m.matched_text@ == d.1
    &&& m.start_line == d.2
    &&& m.start_col == d.3
    &&& m.end_line == d.4
    &&& m.end_col == d.5
    &&& m.start_byte == d.6
    &&& m.end_byte == d.7
}

/// The reportable captures of `caps`, in order.
pub open spec fn capture_results(
    caps: Seq<CaptureView>,
    names: Seq<Seq<char>>,
    source: Seq<char>,
    file_path: Seq<char>,
) -> Seq<(Seq<char>, Seq<char>, usize, usize, usize, usize, usize, usize)>
    decreases caps.len(),
{
    if caps.len() == 0 {
        seq![]
    } else {
        let prev = capture_results(caps.drop_last(), names, source, file_path);
        match capture_result(caps.last(), names, source, file_path) {
            Some(d) => prev.push(d),
            None => prev,
        }
    }
}

/// The text of `source` between two byte offsets, if it is one.
pub fn slice_source(source: &str, start: usize, end: usize) -> (r: Option<String>)
    ensures
        match source_slice(source@, start, end) {
            Some(t) => r is Some && r->0@ == t,
            None => r is None,
        },
{
    if start > end || !source.is_char_boundary(start) || !source.is_char_boundary(end) {
        return None;
    }
    proof {
        let b = source.spec_bytes();
        assert(is_char_boundary(b, start as int));
        assert(is_char_boundary(b, end as int));
    }
    let (_, tail) = source.split_at(start);
    proof {
        broadcast use vstd::utf8::group_utf8_lib;
        let b = source.spec_bytes();
        encode_utf8_valid_utf8(source@);
        assert(is_char_boundary(tail.spec_bytes(), (end - start) as int)) by {
            assert(tail.spec_bytes() =~= b.subrange(start as int, b.len() as int));
            lemma_boundary_shift(b, start as int, end as int);
        }
    }
    let (mid, _) = tail.split_at(end - start);
    proof {
        broadcast use vstd::utf8::group_utf8_lib;
        let b = source.spec_bytes();
        assert(mid.spec_bytes() =~= b.subrange(start as int, end as int));
        encode_utf8_decode_utf8(mid@);
        assert(decode_utf8(mid.spec_bytes()) == mid@);
    }
    Some(owned(mid))
}

proof fn lemma_boundary_shift(b: Seq<u8>, start: int, end: int)
    requires
        valid_utf8(b),
        0 <= start <= end,
        is_char_boundary(b, start),
        is_char_boundary(b, end),
    ensures
        is_char_boundary(b.subrange(start, b.len() as int), end - start),
{
    let t = b.subrange(start, b.len() as int);
    assert(end <= b.len()) by {
        if end > b.len() {
            assert(!is_char_boundary(b, end));
        }
    }
    assert(start <= b.len());
    valid_utf8_split(b, start);
    if end - start == t.len() {
        is_char_boundary_start_end_of_seq(t);
    } else {
        assert(t[end - start] == b[end]);
        is_char_boundary_iff_not_is_continuation_byte(b, end);
        is_char_boundary_iff_not_is_continuation_byte(t, end - start);
    }
}

/// The warning for a capture whose byte range cannot be cut out of the source.
pub open spec fn out_of_range_warning(start: usize, end: usize, len: usize, name: Seq<char>) -> Seq<char> {
    "warning: capture byte range "@ + decimal(start as nat) + ".."@ + decimal(end as nat)
        + " out of bounds for source of length "@ + decimal(len as nat) + " \u{2014} skipping capture '"@ + name
        + "'"@
}

/// The warning for a capture, if it is skipped because its byte range is not a
/// range of the source.
pub open spec fn capture_warning(c: CaptureView, names: Seq<Seq<char>>, source: Seq<char>) -> Option<Seq<char>> {
    if (c.index as int) < names.len() && c.start_row < usize::MAX && c.end_row < usize::MAX && source_slice(
        source,
        c.start_byte,
        c.end_byte,
    ) is None {
        Some(
            out_of_range_warning(
                c.start_byte,
                c.end_byte,
                encode_utf8(source).len() as usize,
                capture_label(names[c.index as int], c.named, c.kind),
            ),
        )
    } else {
        None
    }
}

/// The warnings for the captures of `caps`, in order.
pub open spec fn capture_warnings(caps: Seq<CaptureView>, names: Seq<Seq<char>>, source: Seq<char>) -> Seq<Seq<char>>
    decreases caps.len(),
{
    if caps.len() == 0 {
        seq![]
    } else {
        let prev = capture_warnings(caps.drop_last(), names, source);
        match capture_warning(caps.last(), names, source) {
            Some(w) => prev.push(w),
            None => prev,
        }
    }
}

pub open spec fn string_views(s: Seq<String>) -> Seq<Seq<char>> {
    s.map_values(|w: String| w@)
}

/// The results for the captures of a query: one per reportable capture, in the
/// order the captures came, each in the file `file_path`; and a warning for
/// each capture skipped because its byte range is not a range of the source.
pub fn matches_from_captures(
    captures: &Vec<CaptureRecord>,
    names: &Vec<String>,
    source: &str,
    file_path: &str,
) -> (r: (Vec<MatchResult>, Vec<String>))
    ensures
        reports_exactly(r.0@, capture_results(capture_views(captures@), name_views(names@), source@, file_path@), file_path@),
        string_views(r.1@) == capture_warnings(capture_views(captures@), name_views(names@), source@),
        forall|k: int|
            0 <= k < r.0@.len() ==> exists|i: int|
                0 <= i < captures@.len() && result_at_capture(#[trigger] r.0@[k], captures@[i]@, source@, file_path@),
{
    let mut out: Vec<MatchResult> = Vec::new();
    let mut warnings: Vec<String> = Vec::new();
    let mut i: usize = 0;
    while i < captures.len()
        invariant
            i <= captures.len(),
            reports_exactly(
                out@,
                capture_results(capture_views(captures@).take(i as int), name_views(names@), source@, file_path@),
                file_path@,
            ),
            string_views(warnings@) == capture_warnings(capture_views(captures@).take(i as int), name_views(names@), source@),
        decreases captures.len() - i,
    {
        let c = &captures[i];
        assert(capture_views(captures@).take(i + 1).drop_last() =~= capture_views(captures@).take(i as int));
        assert(capture_views(captures@).take(i + 1).last() == c@);
        if (c.index as usize) < names.len() && c.start_row < usize::MAX && c.end_row < usize::MAX {
            let label = format_capture_name(names[c.index as usize].as_str(), c.named, c.kind.as_str());
            match slice_source(source, c.start_byte, c.end_byte) {
                Some(text) => {
                    let m = MatchResult {
                        file_path: owned(file_path),
                        start_line: c.start_row + 1,
                        start_col: c.start_col,
                        end_line: c.end_row + 1,
                        end_col: c.end_col,
                        capture_name: label,
                        matched_text: text,
                        start_byte: c.start_byte,
                        end_byte: c.end_byte,
                    };
                    out.push(m);
                },
                None => {
                    let ghost before = warnings@;
                    let mut w = owned("warning: capture byte range ");
                    push_decimal(&mut w, c.start_byte);
                    push_str(&mut w, "..");
                    push_decimal(&mut w, c.end_byte);
                    push_str(&mut w, " out of bounds for source of length ");
                    push_decimal(&mut w, source.len());
                    push_str(&mut w, " \u{2014} skipping capture '");
                    push_str(&mut w, label.as_str());
                    push_str(&mut w, "'");
                    warnings.push(w);
                    assert(string_views(warnings@) =~= string_views(before).push(w@));
                },
            }
        }
        i += 1;
    }
    assert(capture_views(captures@).take(captures.len() as int) =~= capture_views(captures@));
    proof {
        let caps = capture_views(captures@);
        lemma_results_where_captures_are(caps, name_views(names@), source@, file_path@, out@);
        assert forall|k: int| 0 <= k < out@.len() implies exists|i: int|
            0 <= i < captures@.len() && result_at_capture(#[trigger] out@[k], captures@[i]@, source@, file_path@) by {
            let i = choose|i: int| 0 <= i < caps.len() && result_at_capture(out@[k], caps[i], source@, file_path@);
            assert(caps[i] == captures@[i]@);
        }
    }
    (out, warnings)
}

/// A result that a capture can give: in the file `file_path`, on lines counted
/// from 1, with the text that its byte range cuts out of the source.
pub open spec fn sound_result(m: MatchResult, source: Seq<char>, file_path: Seq<char>) -> bool {
    &&& m.file_path@ == file_path
    &&& m.start_line >= 1
    &&& m.end_line >= 1
    &&& source_slice(source, m.start_byte, m.end_byte) == Some(m.matched_text@)
}

proof fn lemma_capture_results_sound(
    caps: Seq<CaptureView>,
    names: Seq<Seq<char>>,
    source: Seq<char>,
    file_path: Seq<char>,
)
    ensures
        forall|k: int| 0 <= k < capture_results(caps, names, source, file_path).len() ==> {
            let d = #[trigger] capture_results(caps, names, source, file_path)[k];
            d.2 >= 1 && d.4 >= 1 && source_slice(source, d.6, d.7) == Some(d.1)
        },
    decreases caps.len(),
{
    if caps.len() > 0 {
        lemma_capture_results_sound(caps.drop_last(), names, source, file_path);
    }
}

/// What running a query over a parsed text reports: the reportable captures
/// (see `capture_result`) of what tree-sitter gives, in order.
pub open spec fn query_results(
    tree_grammar: Grammar,
    source: Seq<char>,
    query_grammar: Grammar,
    query_text: Seq<char>,
    file_path: Seq<char>,
) -> Seq<(Seq<char>, Seq<char>, usize, usize, usize, usize, usize, usize)> {
    capture_results(
        query_captures(tree_grammar, source, query_grammar, query_text),
        capture_names_of(query_grammar, query_text),
        source,
        file_path,
    )
}

/// `r` holds one result per entry of `d`, in order, each in the file `file_path`.
pub open spec fn reports_exactly(
    r: Seq<MatchResult>,
    d: Seq<(Seq<char>, Seq<char>, usize, usize, usize, usize, usize, usize)>,
    file_path: Seq<char>,
) -> bool {
    &&& r.len() == d.len()
    &&& forall|k: int| 0 <= k < r.len() ==> is_result_for(#[trigger] r[k], d[k], file_path)
}

/// The warnings that running a query over a parsed text gives: one for each
/// capture skipped because its byte range is not a range of the text.
pub open spec fn query_warnings(
    tree_grammar: Grammar,
    source: Seq<char>,
    query_grammar: Grammar,
    query_text: Seq<char>,
) -> Seq<Seq<char>> {
    capture_warnings(
        query_captures(tree_grammar, source, query_grammar, query_text),
        capture_names_of(query_grammar, query_text),
        source,
    )
}

/// The results of running a query over a parsed file, as `extract_matches`
/// gives them, together with a warning for each capture that had to be skipped.
pub fn extract_matches_reporting(parsed: &ParsedSource, query: &CompiledQuery, file_path: &str) -> (r: (
    Vec<MatchResult>,
    Vec<String>,
))
    ensures
        reports_exactly(
            r.0@,
            query_results(parsed.grammar(), parsed.source(), query.grammar(), query.source(), file_path@),
            file_path@,
        ),
        forall|k: int| 0 <= k < r.0@.len() ==> sound_result(#[trigger] r.0@[k], parsed.source(), file_path@),
        string_views(r.1@) == query_warnings(parsed.grammar(), parsed.source(), query.grammar(), query.source()),
{
    let captures = run_query(parsed, query);
    let names = query_capture_names(query);
    let source = parsed.text();
    let r = matches_from_captures(&captures, &names, source.as_str(), file_path);
    proof {
        lemma_capture_results_sound(capture_views(captures@), name_views(names@), source@, file_path@);
        assert forall|k: int| 0 <= k < r.0@.len() implies sound_result(#[trigger] r.0@[k], source@, file_path@) by {
            assert(is_result_for(r.0@[k], capture_results(capture_views(captures@), name_views(names@), source@, file_path@)[k], file_path@));
        }
    }
    r
}

/// The results of running a query over a parsed file: one per capture of each
/// match whose name is known and whose text can be cut out of the parsed text,
/// in the order tree-sitter reports them, each in the file `file_path`.
pub fn extract_matches(parsed: &ParsedSource, query: &CompiledQuery, file_path: &str) -> (r: Vec<MatchResult>)
    ensures
        reports_exactly(
            r@,
            query_results(parsed.grammar(), parsed.source(), query.grammar(), query.source(), file_path@),
            file_path@,
        ),
        forall|k: int| 0 <= k < r@.len() ==> sound_result(#[trigger] r@[k], parsed.source(), file_path@),
{
    let (results, _) = extract_matches_reporting(parsed, query, file_path);
    results
}

/// `d` is the report of the capture `c`: its name (with the node kind for an
/// anonymous node), the text its byte range cuts out of the source, its start
/// and end lines counted from 1 (a capture's row plus one), its columns and its
/// byte range.
pub open spec fn reports_capture(
    d: (Seq<char>, Seq<char>, usize, usize, usize, usize, usize, usize),
    c: CaptureView,
    names: Seq<Seq<char>>,
    source: Seq<char>,
) -> bool {
    &&& (c.index as int) < names.len()
    &&& d.0 == capture_label(names[c.index as int], c.named, c.kind)
    &&& source_slice(source, c.start_byte, c.end_byte) == Some(d.1)
    &&& d.2 == c.start_row + 1
    &&& d.3 == c.start_col
    &&& d.4 == c.end_row + 1
    &&& d.5 == c.end_col
    &&& d.6 == c.start_byte
    &&& d.7 == c.end_byte
}

/// Every reported entry is the report of one of the captures, at or after the
/// capture of the entry before it; and every capture whose name is known,
/// whose rows are below the largest `usize` and whose byte range cuts a text
/// out of the source is reported.
pub proof fn lemma_capture_results_trace(
    caps: Seq<CaptureView>,
    names: Seq<Seq<char>>,
    source: Seq<char>,
    file_path: Seq<char>,
)
    ensures
        forall|k: int|
            0 <= k < capture_results(caps, names, source, file_path).len() ==> exists|i: int|
                0 <= i < caps.len() && reports_capture(
                    #[trigger] capture_results(caps, names, source, file_path)[k],
                    caps[i],
                    names,
                    source,
                ),
        forall|i: int|
            0 <= i < caps.len() && (caps[i].index as int) < names.len() && caps[i].start_row < usize::MAX
                && caps[i].end_row < usize::MAX && #[trigger] source_slice(
                source,
                caps[i].start_byte,
                caps[i].end_byte,
            ) is Some ==> exists|k: int|
                0 <= k < capture_results(caps, names, source, file_path).len() && reports_capture(
                    capture_results(caps, names, source, file_path)[k],
                    caps[i],
                    names,
                    source,
                ),
    decreases caps.len(),
{
    if caps.len() > 0 {
        let front = caps.drop_last();
        lemma_capture_results_trace(front, names, source, file_path);
        let prev = capture_results(front, names, source, file_path);
        let all = capture_results(caps, names, source, file_path);
        let last = caps.len() - 1;
        assert(caps.last() == caps[last]);
        assert forall|k: int| 0 <= k < all.len() implies exists|i: int|
            0 <= i < caps.len() && reports_capture(#[trigger] all[k], caps[i], names, source) by {
            if k < prev.len() {
                assert(all[k] == prev[k]);
                let i = choose|i: int| 0 <= i < front.len() && reports_capture(prev[k], front[i], names, source);
                assert(caps[i] == front[i]);
            } else {
                assert(reports_capture(all[k], caps[last], names, source));
            }
        }
        assert forall|i: int|
            0 <= i < caps.len() && (caps[i].index as int) < names.len() && caps[i].start_row < usize::MAX
                && caps[i].end_row < usize::MAX && #[trigger] source_slice(
                source,
                caps[i].start_byte,
                caps[i].end_byte,
            ) is Some implies exists|k: int|
                0 <= k < all.len() && reports_capture(all[k], caps[i], names, source) by {
            if i < last {
                assert(front[i] == caps[i]);
                assert(source_slice(source, front[i].start_byte, front[i].end_byte) is Some);
                let k = choose|k: int| 0 <= k < prev.len() && reports_capture(prev[k], front[i], names, source);
                assert(all[k] == prev[k]);
            } else {
                assert(all[prev.len() as int] == capture_result(caps.last(), names, source, file_path)->Some_0);
                assert(reports_capture(all[prev.len() as int], caps[i], names, source));
            }
        }
    }
}

/// `m` is reported where the capture `c` is: in the file `file_path`, from the
/// line after the capture's start row to the line after its end row, at the
/// capture's columns and over its byte range, with the text of that range.
pub open spec fn result_at_capture(m: MatchResult, c: CaptureView, source: Seq<char>, file_path: Seq<char>) -> bool {
    &&& m.file_path@ == file_path
    &&& m.start_line == c.start_row + 1
    &&& m.start_col == c.start_col
    &&& m.end_line == c.end_row + 1
    &&& m.end_col == c.end_col
    &&& m.start_byte == c.start_byte
    &&& m.end_byte == c.end_byte
    &&& source_slice(source, c.start_byte, c.end_byte) == Some(m.matched_text@)
}

/// Each result of `matches_from_captures` is where one of the captures is (see
/// `result_at_capture`): a capture over several lines ends on the line after
/// its end row. And each capture that can be reported has a result.
pub proof fn lemma_results_where_captures_are(
    caps: Seq<CaptureView>,
    names: Seq<Seq<char>>,
    source: Seq<char>,
    file_path: Seq<char>,
    r: Seq<MatchResult>,
)
    requires
        reports_exactly(r, capture_results(caps, names, source, file_path), file_path),
    ensures
        forall|k: int|
            0 <= k < r.len() ==> exists|i: int|
                0 <= i < caps.len() && result_at_capture(#[trigger] r[k], caps[i], source, file_path),
        forall|i: int|
            0 <= i < caps.len() && (caps[i].index as int) < names.len() && caps[i].start_row < usize::MAX
                && caps[i].end_row < usize::MAX && #[trigger] source_slice(
                source,
                caps[i].start_byte,
                caps[i].end_byte,
            ) is Some ==> exists|k: int|
                0 <= k < r.len() && result_at_capture(r[k], caps[i], source, file_path),
{
    lemma_capture_results_trace(caps, names, source, file_path);
    let d = capture_results(caps, names, source, file_path);
    assert forall|k: int| 0 <= k < r.len() implies exists|i: int|
        0 <= i < caps.len() && result_at_capture(#[trigger] r[k], caps[i], source, file_path) by {
        assert(is_result_for(r[k], d[k], file_path));
        let i = choose|i: int| 0 <= i < caps.len() && reports_capture(d[k], caps[i], names, source);
        assert(result_at_capture(r[k], caps[i], source, file_path));
    }
    assert forall|i: int|
        0 <= i < caps.len() && (caps[i].index as int) < names.len() && caps[i].start_row < usize::MAX
            && caps[i].end_row < usize::MAX && #[trigger] source_slice(
            source,
            caps[i].start_byte,
            caps[i].end_byte,
        ) is Some implies exists|k: int| 0 <= k < r.len() && result_at_capture(r[k], caps[i], source, file_path) by {
        let k = choose|k: int| 0 <= k < d.len() && reports_capture(d[k], caps[i], names, source);
        assert(is_result_for(r[k], d[k], file_path));
        assert(result_at_capture(r[k], caps[i], source, file_path));
    }
}

} // verus!
