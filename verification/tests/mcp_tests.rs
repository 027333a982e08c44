use ast_search::lookup::{lookup_step, FileRow, LookupAction, LookupEvent, SymbolRow};
use ast_search::mcp::{
    app_failure, check_params, compile_queries, parse_failure, route_request, search_config, search_items,
    McpConfig, RpcMethod,
};
use ast_search::search::search_source;
use ast_search::types::{AppError, Lang, LangMode};

fn make_config(root_path: &str, db_path: &str, lang_mode: LangMode) -> McpConfig {
    McpConfig { root_path: root_path.to_string(), db_path: db_path.to_string(), lang_mode }
}

fn symbol(name: &str, file_id: i64, line: usize) -> SymbolRow {
    SymbolRow {
        file_id,
        kind: "function".to_string(),
        name: name.to_string(),
        start_line: line,
        start_col: 0,
        end_line: line,
        end_col: 12,
        signature: Some(format!("fn {name}()")),
    }
}

#[test]
fn test_unknown_method_returns_error() {
    let response = route_request("2.0", "nope");
    assert_eq!(response.unwrap_err().code, -32601);
}

#[test]
fn test_missing_params_returns_invalid_params() {
    let method = route_request("2.0", "search_ast").ok().unwrap();
    assert_eq!(method, RpcMethod::SearchAst);
    let response = check_params(method, None);
    assert_eq!(response.unwrap_err().code, -32602);
}

#[test]
fn test_lookup_symbol_exact_then_contains() {
    let config = make_config("/project", "/project/index.db", LangMode::Auto);
    let file = || Some(FileRow { id: 1, path: "/project/a.rs".to_string() });

    let step = lookup_step(&config, "authenticate", LookupEvent::Started { index_exists: true });
    assert!(matches!(step, LookupAction::FindExact(ref n) if n == "authenticate"));
    let step = lookup_step(&config, "authenticate", LookupEvent::ExactMatches(vec![symbol("authenticate", 1, 1)]));
    let LookupAction::FindFiles(found) = step else { panic!("expected a file lookup") };
    let rows: Vec<_> = found.into_iter().map(|s| (s, file())).collect();
    let LookupAction::Answer(Ok(exact)) = lookup_step(&config, "authenticate", LookupEvent::FilesFound(rows)) else {
        panic!("expected an answer")
    };
    assert_eq!(exact.len(), 1);

    let step = lookup_step(&config, "auth", LookupEvent::ExactMatches(vec![]));
    assert!(matches!(step, LookupAction::FindContaining(ref n) if n == "auth"));
    let step = lookup_step(&config, "auth", LookupEvent::ContainingMatches(vec![symbol("authenticate", 1, 1)]));
    let LookupAction::FindFiles(found) = step else { panic!("expected a file lookup") };
    let rows: Vec<_> = found.into_iter().map(|s| (s, file())).collect();
    let LookupAction::Answer(Ok(fallback)) = lookup_step(&config, "auth", LookupEvent::FilesFound(rows)) else {
        panic!("expected an answer")
    };
    assert_eq!(fallback.len(), 1);
    assert_eq!(fallback[0].name, "authenticate");
}

#[test]
fn test_search_ast_returns_match_array() {
    let config = make_config("/project", "/project/index.db", LangMode::Single(Lang::Rust));
    let search = search_config(&config, "(function_item name: (identifier) @fn_name)");
    let compiled = compile_queries(&search).unwrap();
    let (lang, multi) = &compiled[0];
    assert_eq!(*lang, Lang::Rust);
    let results = search_source("/project/simple.rs", "fn hello() {}\n".to_string(), &multi.language, &multi.queries).unwrap().results;
    let items = search_items(&results);
    assert!(!items.is_empty());
    assert!(items.iter().any(|row| row.matched_text == "hello"));
}

// ---------------------------------------------------------------------------
// Further cases
// ---------------------------------------------------------------------------

#[test]
fn wrong_protocol_version_is_an_invalid_request() {
    let f = route_request("1.0", "search_ast").unwrap_err();
    assert_eq!(f.code, -32600);
    assert_eq!(f.message, "invalid request");
    assert_eq!(f.data.as_deref(), Some("jsonrpc must be \"2.0\""));
}

#[test]
fn unknown_method_names_the_method() {
    let f = route_request("2.0", "delete_all").unwrap_err();
    assert_eq!(f.message, "method not found");
    assert_eq!(f.data.as_deref(), Some("delete_all"));
    assert_eq!(route_request("2.0", "lookup_symbol").ok(), Some(RpcMethod::LookupSymbol));
}

#[test]
fn parameter_checks() {
    let f = check_params(RpcMethod::SearchAst, Some(Ok("   ".to_string()))).unwrap_err();
    assert_eq!((f.code, f.data.as_deref()), (-32602, Some("query must not be empty")));
    let f = check_params(RpcMethod::LookupSymbol, Some(Ok("".to_string()))).unwrap_err();
    assert_eq!(f.data.as_deref(), Some("name must not be empty"));
    let f = check_params(RpcMethod::LookupSymbol, Some(Err("missing field `name`".to_string()))).unwrap_err();
    assert_eq!((f.message.as_str(), f.data.as_deref()), ("invalid params", Some("missing field `name`")));
    let f = check_params(RpcMethod::SearchAst, None).unwrap_err();
    assert_eq!(f.data.as_deref(), Some("missing params"));
    assert_eq!(check_params(RpcMethod::SearchAst, Some(Ok(" (x) ".to_string()))).ok().as_deref(), Some(" (x) "));
}

#[test]
fn failure_answers() {
    let f = app_failure(&AppError::DbError("broken".to_string()));
    assert_eq!((f.code, f.message.as_str(), f.data.as_deref()), (-32603, "broken", Some("broken")));
    let f = parse_failure("expected value at line 1 column 1");
    assert_eq!((f.code, f.message.as_str()), (-32700, "parse error"));
    assert_eq!(f.data.as_deref(), Some("expected value at line 1 column 1"));
}

#[test]
fn no_index_is_reported() {
    let config = make_config("/project", "/project/index.db", LangMode::Auto);
    let step = lookup_step(&config, "x", LookupEvent::Started { index_exists: false });
    let LookupAction::Answer(Err(AppError::DbError(m))) = step else { panic!("expected an error") };
    assert_eq!(m, "no structural index found at /project/index.db\n  hint: run doora --persist /project first");
}

#[test]
fn missing_file_row_is_reported() {
    let config = make_config("/p", "/p/db", LangMode::Auto);
    let rows = vec![
        (symbol("a", 1, 1), Some(FileRow { id: 1, path: "a.rs".to_string() })),
        (symbol("b", -7, 1), None),
        (symbol("c", 9, 1), None),
    ];
    let LookupAction::Answer(Err(AppError::DbError(m))) = lookup_step(&config, "x", LookupEvent::FilesFound(rows)) else {
        panic!("expected an error")
    };
    assert_eq!(m, "missing file row for file_id -7");
}

#[test]
fn lookup_answer_is_ordered() {
    let config = make_config("/p", "/p/db", LangMode::Auto);
    let f = |p: &str| Some(FileRow { id: 1, path: p.to_string() });
    let rows = vec![
        (symbol("zeta", 1, 4), f("b.rs")),
        (symbol("beta", 1, 2), f("a.rs")),
        (symbol("alpha", 1, 2), f("a.rs")),
        (symbol("gamma", 1, 1), f("b.rs")),
    ];
    let LookupAction::Answer(Ok(items)) = lookup_step(&config, "x", LookupEvent::FilesFound(rows)) else {
        panic!("expected an answer")
    };
    let names: Vec<&str> = items.iter().map(|i| i.name.as_str()).collect();
    assert_eq!(names, vec!["alpha", "beta", "gamma", "zeta"]);
    assert_eq!(items[0].signature.as_deref(), Some("fn alpha()"));
}

#[test]
fn index_failure_is_the_answer() {
    let config = make_config("/p", "/p/db", LangMode::Auto);
    let a = lookup_step(&config, "x", LookupEvent::IndexFailed(AppError::DbError("locked".to_string())));
    assert!(matches!(a, LookupAction::Answer(Err(AppError::DbError(ref m))) if m == "locked"));
}

#[test]
fn empty_query_list_is_refused() {
    let search = ast_search::types::SearchConfig { queries: vec![], root_path: ".".to_string(), lang_mode: LangMode::Auto };
    let e = compile_queries(&search).err().unwrap();
    assert!(matches!(e, AppError::QueryCompileError(ref m) if m == "query must not be empty"));
}

#[test]
fn auto_mode_keeps_languages_the_query_compiles_for() {
    let config = make_config(".", "db", LangMode::Auto);
    let compiled = compile_queries(&search_config(&config, "(identifier) @id")).unwrap();
    let langs: Vec<Lang> = compiled.iter().map(|(l, _)| *l).collect();
    assert_eq!(langs, vec![Lang::Rust, Lang::Python, Lang::JavaScript, Lang::TypeScript, Lang::Go]);
    let compiled = compile_queries(&search_config(&config, "(function_item) @f")).unwrap();
    let langs: Vec<Lang> = compiled.iter().map(|(l, _)| *l).collect();
    assert_eq!(langs, vec![Lang::Rust]);
    assert!(compiled.iter().all(|(_, m)| m.queries.len() == 1));
}

#[test]
fn auto_mode_with_no_language_names_the_query() {
    let config = make_config(".", "db", LangMode::Auto);
    let e = compile_queries(&search_config(&config, "(((")).err().unwrap();
    let AppError::QueryCompileError(m) = e else { panic!("expected a compile error") };
    assert_eq!(
        m,
        "query did not compile against any supported language\n  query: (((\n  hint: check the S-expression syntax and node type names"
    );
}

#[test]
fn single_mode_reports_the_compile_error() {
    let config = make_config(".", "db", LangMode::Single(Lang::Go));
    let e = compile_queries(&search_config(&config, "(function_item) @f")).err().unwrap();
    assert!(matches!(e, AppError::QueryCompileError(_)));
}
