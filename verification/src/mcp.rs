//! The JSON-RPC server's decisions: which method a request calls, whether its
//! parameters can be used, how each failure is answered, and for which
//! languages a search query compiles.
use vstd::prelude::*;
use std::sync::Arc;
use crate::cli::lang_named;
use crate::parser::{grammar_language, grammar_named, Grammar, TsLanguage};
use crate::query::{compile_query, query_compiles, query_failure_text, query_outcome, CompiledQuery, MultiCompiledQuery};
use crate::text::{blank, is_blank, owned, push_str, str_equal};
use crate::types::{AppError, Lang, LangMode, MatchResult, SearchConfig};

verus! {

/// Where the server searches, where its symbol index lives, and which
/// languages it searches.
pub struct McpConfig {
    pub root_path: String,
    pub db_path: String,
    pub lang_mode: LangMode,
}

/// An error answer: the JSON-RPC code, its message, and the text sent as `data`.
pub struct RpcFailure {
    pub code: i32,
    pub message: String,
    pub data: Option<String>,
}

/// An error answer as plain values.
pub struct FailureView {
    pub code: int,
    pub message: Seq<char>,
    pub data: Option<Seq<char>>,
}

impl View for RpcFailure {
    type V = FailureView;

    open spec fn view(&self) -> FailureView {
        FailureView {
            code: self.code as int,
            message: self.message@,
            data: match self.data {
                Some(d) => Some(d@),
                None => None,
            },
        }
    }
}

/// The error answer with the given code, message and data text.
pub open spec fn failure(code: int, message: Seq<char>, data: Seq<char>) -> FailureView {
    FailureView { code, message, data: Some(data) }
}

fn fail(code: i32, message: &str, data: String) -> (f: RpcFailure)
    ensures
        f@ == failure(code as int, message@, data@),
{
    RpcFailure { code, message: owned(message), data: Some(data) }
}

/// The methods the server answers.
#[derive(Clone, Copy, Debug, PartialEq, Eq, Structural)]
pub enum RpcMethod {
    SearchAst,
    LookupSymbol,
}

/// The method a request calls, or the error it is answered with: the protocol
/// version must be `2.0`, and the method one the server knows.
pub open spec fn route_spec(jsonrpc: Seq<char>, method: Seq<char>) -> Result<RpcMethod, FailureView> {
    if jsonrpc != "2.0"@ {
        Err(failure(-32600, "invalid request"@, "jsonrpc must be \"2.0\""@))
    } else if method == "search_ast"@ {
        Ok(RpcMethod::SearchAst)
    } else if method == "lookup_symbol"@ {
        Ok(RpcMethod::LookupSymbol)
    } else {
        Err(failure(-32601, "method not found"@, method))
    }
}

/// A result whose error is taken by its view.
pub open spec fn outcome_view<T>(r: Result<T, RpcFailure>) -> Result<T, FailureView> {
    match r {
        Ok(t) => Ok(t),
        Err(f) => Err(f@),
    }
}

/// The method a request calls, from its `jsonrpc` and `method` members.
pub fn route_request(jsonrpc: &str, method: &str) -> (r: Result<RpcMethod, RpcFailure>)
    ensures
        outcome_view(r) == route_spec(jsonrpc@, method@),
{
    if !str_equal(jsonrpc, "2.0") {
        return Err(fail(-32600, "invalid request", owned("jsonrpc must be \"2.0\"")));
    }
    if str_equal(method, "search_ast") {
        Ok(RpcMethod::SearchAst)
    } else if str_equal(method, "lookup_symbol") {
        Ok(RpcMethod::LookupSymbol)
    } else {
        Err(fail(-32601, "method not found", owned(method)))
    }
}

/// What a blank parameter of the method is answered with.
pub open spec fn blank_param_message(m: RpcMethod) -> Seq<char> {
    match m {
        RpcMethod::SearchAst => "query must not be empty"@,
        RpcMethod::LookupSymbol => "name must not be empty"@,
    }
}

/// Checks the parameter of a method (`query` for a search, `name` for a
/// lookup): `None` when the request has no parameters, the decoder's message
/// when they do not decode, else the decoded text.
pub fn check_params(method: RpcMethod, parsed: Option<Result<String, String>>) -> (r: Result<String, RpcFailure>)
    ensures
        match parsed {
            None => r matches Err(f) && f@ == failure(-32602, "invalid params"@, "missing params"@),
            Some(Err(e)) => r matches Err(f) && f@ == failure(-32602, "invalid params"@, e@),
            Some(Ok(v)) => if blank(v@) {
                r matches Err(f) && f@ == failure(-32602, "invalid params"@, blank_param_message(method))
            } else {
                r matches Ok(w) && w@ == v@
            },
        },
{
    match parsed {
        None => Err(fail(-32602, "invalid params", owned("missing params"))),
        Some(Err(e)) => Err(fail(-32602, "invalid params", e)),
        Some(Ok(v)) => {
            if is_blank(v.as_str()) {
                let m = match method {
                    RpcMethod::SearchAst => owned("query must not be empty"),
                    RpcMethod::LookupSymbol => owned("name must not be empty"),
                };
                Err(fail(-32602, "invalid params", m))
            } else {
                Ok(v)
            }
        },
    }
}

/// The answer to a request whose work failed: the error's text is both the
/// message and the data.
pub fn app_failure(error: &AppError) -> (f: RpcFailure)
    ensures
        f@ == failure(-32603, error.text(), error.text()),
{
    let m = error.message();
    RpcFailure { code: -32603, message: m.clone(), data: Some(m) }
}

/// The answer to a line that is not a JSON-RPC request.
pub fn parse_failure(message: &str) -> (f: RpcFailure)
    ensures
        f@ == failure(-32700, "parse error"@, message@),
{
    fail(-32700, "parse error", owned(message))
}

// ---------------------------------------------------------------------------
// Searching
// ---------------------------------------------------------------------------

/// One search result as the server reports it.
pub struct SearchAstItem {
    pub file_path: String,
    pub capture_name: String,
    pub matched_text: String,
    pub start_line: usize,
    pub start_col: usize,
    pub end_line: usize,
    pub end_col: usize,
}

/// `i` reports the result `m`.
pub open spec fn reports(i: SearchAstItem, m: MatchResult) -> bool {
    &&& i.file_path@ == m.file_path@
    &&& i.capture_name@ == m.capture_name@
    &&& i.matched_text@ == m.matched_text@
    &&& i.start_line == m.start_line
    &&& i.start_col == m.start_col
    &&& i.end_line == m.end_line
    &&& i.end_col == m.end_col
}

/// The report of each result, in order.
pub fn search_items(results: &Vec<MatchResult>) -> (items: Vec<SearchAstItem>)
    ensures
        items@.len() == results@.len(),
        forall|i: int| 0 <= i < results@.len() ==> reports(#[trigger] items@[i], results@[i]),
{
    let mut items: Vec<SearchAstItem> = Vec::new();
    let mut i: usize = 0;
    while i < results.len()
        invariant
            i <= results.len(),
            items@.len() == i,
            forall|k: int| 0 <= k < i ==> reports(#[trigger] items@[k], results@[k]),
        decreases results.len() - i,
    {
        let m = &results[i];
        items.push(
            SearchAstItem {
                file_path: m.file_path.clone(),
                capture_name: m.capture_name.clone(),
                matched_text: m.matched_text.clone(),
                start_line: m.start_line,
                start_col: m.start_col,
                end_line: m.end_line,
                end_col: m.end_col,
            },
        );
        i += 1;
    }
    items
}

/// The search that a `search_ast` request runs: its one query, over the
/// server's root, in the server's languages.
pub fn search_config(config: &McpConfig, query: &str) -> (c: SearchConfig)
    ensures
        c.queries@.len() == 1,
        c.queries@[0]@ == query@,
        c.root_path@ == config.root_path@,
        c.lang_mode == config.lang_mode,
{
    let mut queries: Vec<String> = Vec::new();
    queries.push(owned(query));
    SearchConfig { queries, root_path: config.root_path.clone(), lang_mode: config.lang_mode }
}

// ---------------------------------------------------------------------------
// Compiling the query for the languages searched
// ---------------------------------------------------------------------------

/// The grammar each search language is parsed with.
pub open spec fn lang_grammar_spec(l: Lang) -> Grammar {
    match l {
        Lang::Rust => Grammar::Rust,
        Lang::Python => Grammar::Python,
        Lang::JavaScript => Grammar::JavaScript,
        Lang::TypeScript => Grammar::Tsx,
        Lang::Go => Grammar::Go,
    }
}

/// A search language is parsed and queried with the grammar that its `--lang`
/// name selects: `rust`, `python`, `js`, `ts` (the TSX grammar) and `go`.
pub proof fn lemma_lang_grammar_is_named_grammar(name: Seq<char>, l: Lang)
    requires
        lang_named(name) == Some(l),
    ensures
        grammar_named(name) == Some(lang_grammar_spec(l)),
{
}

/// The grammar a search language is parsed with.
pub fn lang_grammar(l: Lang) -> (g: Grammar)
    ensures
        g == lang_grammar_spec(l),
{
    match l {
        Lang::Rust => Grammar::Rust,
        Lang::Python => Grammar::Python,
        Lang::JavaScript => Grammar::JavaScript,
        Lang::TypeScript => Grammar::Tsx,
        Lang::Go => Grammar::Go,
    }
}

/// The tree-sitter language of a search language.
pub fn lang_to_ts_language(l: Lang) -> (r: TsLanguage)
    ensures
        r.grammar() == lang_grammar_spec(l),
{
    grammar_language(lang_grammar(l))
}

/// Every supported language, in the order in which they are tried.
pub open spec fn every_lang() -> Seq<Lang> {
    seq![Lang::Rust, Lang::Python, Lang::JavaScript, Lang::TypeScript, Lang::Go]
}

/// Every supported language, in the order in which they are tried.
pub fn all_languages() -> (v: Vec<Lang>)
    ensures
        v@ == every_lang(),
{
    let mut v: Vec<Lang> = Vec::new();
    v.push(Lang::Rust);
    v.push(Lang::Python);
    v.push(Lang::JavaScript);
    v.push(Lang::TypeScript);
    v.push(Lang::Go);
    v
}

/// The languages of `langs`, in order, whose grammar compiles the query.
pub open spec fn kept_langs(langs: Seq<Lang>, query: Seq<char>) -> Seq<Lang>
    decreases langs.len(),
{
    if langs.len() == 0 {
        seq![]
    } else {
        let rest = kept_langs(langs.drop_first(), query);
        if query_compiles(lang_grammar_spec(langs[0]), query) {
            seq![langs[0]] + rest
        } else {
            rest
        }
    }
}

/// The supported languages whose grammar compiles the query, in order.
pub open spec fn compiling_langs(query: Seq<char>) -> Seq<Lang> {
    kept_langs(every_lang(), query)
}

/// The languages, with their queries, whose compile attempt succeeded, in order.
pub open spec fn compiled_successes(
    s: Seq<(Lang, Result<Arc<CompiledQuery>, AppError>)>,
) -> Seq<(Lang, Arc<CompiledQuery>)>
    decreases s.len(),
{
    if s.len() == 0 {
        seq![]
    } else {
        let rest = compiled_successes(s.drop_first());
        match s[0].1 {
            Ok(q) => seq![(s[0].0, q)] + rest,
            Err(_) => rest,
        }
    }
}

/// `v` holds, for each pair of `s` in order, its language, the language's
/// grammar and its one query.
pub open spec fn holds_queries(v: Seq<(Lang, MultiCompiledQuery)>, s: Seq<(Lang, Arc<CompiledQuery>)>) -> bool {
    &&& v.len() == s.len()
    &&& forall|i: int|
        0 <= i < v.len() ==> (#[trigger] v[i]).0 == s[i].0 && v[i].1.queries@ == seq![s[i].1]
            && v[i].1.language.grammar() == lang_grammar_spec(v[i].0)
}

/// `m` is the query `query` compiled for the language `l`, with that
/// language's grammar.
pub open spec fn compiled_for(m: MultiCompiledQuery, l: Lang, query: Seq<char>) -> bool {
    &&& m.queries@.len() == 1
    &&& m.queries@[0].grammar() == lang_grammar_spec(l)
    &&& m.queries@[0].source() == query
    &&& m.language.grammar() == lang_grammar_spec(l)
}

/// The error when a query compiles for no language.
pub open spec fn no_language_message(query: Seq<char>) -> Seq<char> {
    "query did not compile against any supported language\n  query: "@ + query
        + "\n  hint: check the S-expression syntax and node type names"@
}

fn single_query(lang: Lang, q: Arc<CompiledQuery>) -> (m: MultiCompiledQuery)
    ensures
        m.queries@ == seq![q],
        m.language.grammar() == lang_grammar_spec(lang),
{
    let mut queries: Vec<Arc<CompiledQuery>> = Vec::new();
    queries.push(q);
    MultiCompiledQuery { queries, language: lang_to_ts_language(lang) }
}

/// Keeps the languages whose compile attempt succeeded, each with its query;
/// when none did, the query compiles for no language.
pub fn gather_compiled(
    attempts: Vec<(Lang, Result<Arc<CompiledQuery>, AppError>)>,
    query: &str,
) -> (r: Result<Vec<(Lang, MultiCompiledQuery)>, AppError>)
    ensures
        compiled_successes(attempts@).len() == 0 ==> (r matches Err(AppError::QueryCompileError(m))
            && m@ == no_language_message(query@)),
        compiled_successes(attempts@).len() > 0 ==> (r matches Ok(v) && holds_queries(
            v@,
            compiled_successes(attempts@),
        )),
{
    let ghost all = attempts@;
    let ghost mut done: Seq<(Lang, Arc<CompiledQuery>)> = seq![];
    let mut rest = attempts;
    let mut out: Vec<(Lang, MultiCompiledQuery)> = Vec::new();
    while rest.len() > 0
        invariant
            holds_queries(out@, done),
            done + compiled_successes(rest@) == compiled_successes(all),
        decreases rest.len(),
    {
        let ghost before = rest@;
        let (lang, attempt) = rest.remove(0);
        assert(rest@ =~= before.drop_first());
        match attempt {
            Ok(q) => {
                let ghost x = (lang, q);
                out.push((lang, single_query(lang, q)));
                proof {
                    assert(compiled_successes(before) == seq![x] + compiled_successes(rest@));
                    assert(done.push(x) + compiled_successes(rest@) =~= done + (seq![x] + compiled_successes(rest@)));
                    done = done.push(x);
                }
            },
            Err(_) => {},
        }
    }
    if out.len() == 0 {
        let mut m = owned("query did not compile against any supported language\n  query: ");
        push_str(&mut m, query);
        push_str(&mut m, "\n  hint: check the S-expression syntax and node type names");
        Err(AppError::QueryCompileError(m))
    } else {
        assert(done =~= compiled_successes(all));
        Ok(out)
    }
}

/// The attempt to compile `query` for `l` succeeded exactly when the query
/// compiles in `l`'s grammar, and then holds that query.
pub open spec fn attempt_for(a: (Lang, Result<Arc<CompiledQuery>, AppError>), l: Lang, query: Seq<char>) -> bool {
    &&& a.0 == l
    &&& (a.1 is Ok <==> query_compiles(lang_grammar_spec(l), query))
    &&& (a.1 matches Ok(c) ==> c.grammar() == lang_grammar_spec(l) && c.source() == query)
}

proof fn lemma_successes_kept(
    attempts: Seq<(Lang, Result<Arc<CompiledQuery>, AppError>)>,
    langs: Seq<Lang>,
    query: Seq<char>,
)
    requires
        attempts.len() == langs.len(),
        forall|k: int| 0 <= k < attempts.len() ==> attempt_for(#[trigger] attempts[k], langs[k], query),
    ensures
        compiled_successes(attempts).map_values(|p: (Lang, Arc<CompiledQuery>)| p.0) == kept_langs(langs, query),
        forall|i: int|
            0 <= i < compiled_successes(attempts).len() ==> (#[trigger] compiled_successes(attempts)[i]).1.grammar()
                == lang_grammar_spec(compiled_successes(attempts)[i].0) && compiled_successes(attempts)[i].1.source()
                == query,
    decreases attempts.len(),
{
    if attempts.len() > 0 {
        let t = attempts.drop_first();
        let lt = langs.drop_first();
        assert forall|k: int| 0 <= k < t.len() implies attempt_for(#[trigger] t[k], lt[k], query) by {
            assert(t[k] == attempts[k + 1] && lt[k] == langs[k + 1]);
        }
        lemma_successes_kept(t, lt, query);
        assert(attempt_for(attempts[0], langs[0], query));
        let rest = compiled_successes(t);
        if attempts[0].1 is Ok {
            let x = (attempts[0].0, attempts[0].1->Ok_0);
            assert(compiled_successes(attempts) == seq![x] + rest);
            assert((seq![x] + rest).map_values(|p: (Lang, Arc<CompiledQuery>)| p.0) =~= seq![x.0] + rest.map_values(
                |p: (Lang, Arc<CompiledQuery>)| p.0,
            ));
            assert forall|i: int| 0 <= i < compiled_successes(attempts).len() implies (#[trigger] compiled_successes(
                attempts,
            )[i]).1.grammar() == lang_grammar_spec(compiled_successes(attempts)[i].0)
                && compiled_successes(attempts)[i].1.source() == query by {
                if i > 0 {
                    assert(compiled_successes(attempts)[i] == rest[i - 1]);
                }
            }
        }
    } else {
        assert(compiled_successes(attempts).map_values(|p: (Lang, Arc<CompiledQuery>)| p.0) =~= Seq::<Lang>::empty());
    }
}

/// Compiles the search's query for its languages: for one language, the query
/// compiles exactly when its grammar accepts it, and otherwise fails with the
/// grammar's error; for every language, exactly the languages whose grammar
/// accepts it are kept, in order, each with its one query, and the search
/// fails when there are none.
pub fn compile_queries(config: &SearchConfig) -> (r: Result<Vec<(Lang, MultiCompiledQuery)>, AppError>)
    ensures
        config.queries@.len() == 0 ==> (r matches Err(AppError::QueryCompileError(m)) && m@
            == "query must not be empty"@),
        config.queries@.len() > 0 ==> ({
            let q = config.queries@[0]@;
            match config.lang_mode {
                LangMode::Single(l) => match query_outcome(lang_grammar_spec(l), q) {
                    Ok(_) => r matches Ok(v) && v@.len() == 1 && v@[0].0 == l && compiled_for(v@[0].1, l, q),
                    Err(f) => r matches Err(AppError::QueryCompileError(m)) && m@ == query_failure_text(f),
                },
                LangMode::Auto => if compiling_langs(q).len() == 0 {
                    r matches Err(AppError::QueryCompileError(m)) && m@ == no_language_message(q)
                } else {
                    &&& r is Ok
                    &&& r->Ok_0@.map_values(|p: (Lang, MultiCompiledQuery)| p.0) == compiling_langs(q)
                    &&& forall|i: int|
                        0 <= i < r->Ok_0@.len() ==> compiled_for((#[trigger] r->Ok_0@[i]).1, r->Ok_0@[i].0, q)
                },
            }
        }),
{
    if config.queries.len() == 0 {
        return Err(AppError::QueryCompileError(owned("query must not be empty")));
    }
    let query = config.queries[0].as_str();
    match config.lang_mode {
        LangMode::Single(lang) => {
            let ts_lang = lang_to_ts_language(lang);
            match compile_query(&ts_lang, query) {
                Ok(q) => {
                    let mut v: Vec<(Lang, MultiCompiledQuery)> = Vec::new();
                    v.push((lang, single_query(lang, q)));
                    Ok(v)
                },
                Err(e) => Err(e),
            }
        },
        LangMode::Auto => {
            let langs = all_languages();
            let mut attempts: Vec<(Lang, Result<Arc<CompiledQuery>, AppError>)> = Vec::new();
            let mut i: usize = 0;
            while i < langs.len()
                invariant
                    i <= langs.len(),
                    langs@ == every_lang(),
                    attempts@.len() == i,
                    forall|k: int| 0 <= k < i ==> attempt_for(#[trigger] attempts@[k], langs@[k], query@),
                decreases langs.len() - i,
            {
                let lang = langs[i];
                let ts_lang = lang_to_ts_language(lang);
                let attempt = compile_query(&ts_lang, query);
                attempts.push((lang, attempt));
                assert(attempt_for(attempts@[i as int], langs@[i as int], query@));
                i += 1;
            }
            proof {
                lemma_successes_kept(attempts@, langs@, query@);
            }
            let ghost s = compiled_successes(attempts@);
            let r = gather_compiled(attempts, query);
            proof {
                if s.len() > 0 {
                    let v = r->Ok_0@;
                    assert(v.map_values(|p: (Lang, MultiCompiledQuery)| p.0) =~= s.map_values(
                        |p: (Lang, Arc<CompiledQuery>)| p.0,
                    ));
                    assert forall|a: int| 0 <= a < v.len() implies compiled_for((#[trigger] v[a]).1, v[a].0, query@) by {
                        assert(v[a].1.queries@ == seq![s[a].1]);
                        assert(v[a].0 == s[a].0);
                    }
                } else {
                    assert(s.map_values(|p: (Lang, Arc<CompiledQuery>)| p.0).len() == 0);
                }
            }
            r
        },
    }
}

} // verus!
