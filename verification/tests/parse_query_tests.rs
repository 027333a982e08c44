use ast_search::parser::{get_grammar, get_language, parse_source, Grammar, ParsedSource};
use ast_search::query::{
    matches_from_captures, CaptureRecord, compile_query, extract_matches, format_capture_name, query_failure_message, QueryFailure, QueryProblem,
};
use ast_search::search::search_source;
use ast_search::types::{AppError, MatchResult};
use std::sync::Arc;

fn parsed(lang: &str, source: &str) -> ParsedSource {
    let language = get_language(lang).unwrap();
    parse_source("inline", source.to_string(), &language).expect("inline parse failed")
}

fn parse(lang: &str, source: &str) -> (tree_sitter::Tree, String) {
    let p = parsed(lang, source);
    (p.tree().clone(), p.text().clone())
}

fn run(lang: &str, query: &str, source: &str, path: &str) -> Vec<MatchResult> {
    let language = get_language(lang).unwrap();
    let query = compile_query(&language, query).unwrap();
    let p = parsed(lang, source);
    extract_matches(&p, &query, path)
}

#[test]
fn test_parse_valid_rust() {
    let (tree, _) = parse("rust", "fn hello(x: i32) -> i32 { x + 1 }");
    assert_eq!(tree.root_node().kind(), "source_file");
    assert!(!tree.root_node().has_error());
}

#[test]
fn test_parse_returns_tree_on_syntax_error() {
    let (tree, _) = parse("rust", "fn broken( {");
    assert_eq!(tree.root_node().kind(), "source_file");
    assert!(tree.root_node().has_error());
}

#[test]
fn test_thread_local_parser_is_reused() {
    let language = get_language("rust").unwrap();
    let first = parse_source("a", "fn first() {}".to_string(), &language).unwrap();
    let second = parse_source("b", "fn second() {}".to_string(), &language).unwrap();
    assert_eq!(first.tree().root_node().kind(), "source_file");
    assert_eq!(second.tree().root_node().kind(), "source_file");
    assert!(!first.tree().root_node().has_error());
    assert!(!second.tree().root_node().has_error());
}

#[test]
fn test_get_language_rust() {
    assert!(get_language("rust").is_ok());
}

#[test]
fn test_get_language_unsupported() {
    assert!(matches!(get_language("cobol"), Err(AppError::LanguageNotSupported(_))));
}

#[test]
fn test_parse_file_empty_returns_error() {
    let language = get_language("rust").unwrap();
    let result = parse_source("empty.rs", String::new(), &language);
    assert!(matches!(result, Err(AppError::ParseError(_))));
    if let Err(AppError::ParseError(msg)) = result {
        assert!(msg.contains("empty"), "Error message should mention 'empty', got: {msg}");
    }
}

#[test]
fn test_parse_file_valid_rust() {
    let (tree, source) = parse("rust", "fn greet(name: &str) -> String {\n    format!(\"Hello, {}!\", name)\n}\n");
    assert_eq!(tree.root_node().kind(), "source_file");
    assert!(!tree.root_node().has_error());
    assert!(source.contains("fn greet"));
}

#[test]
fn test_parse_file_broken_syntax_yields_partial_tree() {
    let (tree, _) = parse("rust", "fn broken_function( {\n    let x = ;;; ???\n}}}}\n");
    assert_eq!(tree.root_node().kind(), "source_file");
    assert!(tree.root_node().has_error());
    assert!(tree.root_node().child_count() > 0);
}

#[test]
fn test_parse_file_return_values_are_owned() {
    let (tree, source) = parse("rust", "struct Config { timeout: u64 }\n");
    let owned: (tree_sitter::Tree, String) = (tree, source);
    assert_eq!(owned.0.root_node().kind(), "source_file");
    assert!(owned.1.contains("Config"));
}

#[test]
fn test_get_language_js() {
    assert!(get_language("js").is_ok());
}

#[test]
fn test_get_language_c() {
    assert!(get_language("c").is_ok());
}

#[test]
fn test_get_language_cpp() {
    assert!(get_language("cpp").is_ok());
}

#[test]
fn test_get_language_ts() {
    assert!(get_language("ts").is_ok());
}

#[test]
fn test_get_language_go() {
    assert!(get_language("go").is_ok());
}

#[test]
fn test_get_language_error_lists_js_and_ts() {
    let msg = get_language("ruby").unwrap_err().message();
    assert!(msg.contains("js"));
    assert!(msg.contains("ts"));
    assert!(msg.contains("ruby"));
}

#[test]
fn test_get_language_error_lists_all_supported() {
    let msg = get_language("java").unwrap_err().message();
    for name in ["rust", "python", "js", "ts", "go", "c", "cpp", "java"] {
        assert!(msg.contains(name));
    }
}

#[test]
fn test_parse_file_javascript_valid() {
    let (tree, source) = parse("js", "function greet(name) {\n    return name;\n}\n");
    assert_eq!(tree.root_node().kind(), "program");
    assert!(!tree.root_node().has_error());
    assert!(source.contains("function greet"));
}

#[test]
fn test_parse_file_typescript_valid() {
    let (tree, source) = parse("ts", "interface Shape {\n    area(): number;\n}\n");
    assert_eq!(tree.root_node().kind(), "program");
    assert!(!tree.root_node().has_error());
    assert!(source.contains("interface Shape"));
}

#[test]
fn test_parse_file_tsx_handles_jsx() {
    let (tree, _) = parse("ts", "function App() {\n    return <div>Hello</div>;\n}\n");
    assert_eq!(tree.root_node().kind(), "program");
}

#[test]
fn test_js_grammar_on_typescript_syntax_has_errors() {
    let (tree, _) = parse("js", "interface Shape {\n    area(): number;\n}\n");
    assert!(tree.root_node().has_error());
}

#[test]
fn test_sequential_parse_js_ts_rust_same_thread() {
    for (lang, src, root) in [("js", "function foo() {}\n", "program"), ("ts", "function bar(): void {}\n", "program"), ("rust", "fn baz() {}\n", "source_file")] {
        let language = get_language(lang).unwrap();
        let p = parse_source("f", src.to_string(), &language).unwrap();
        assert_eq!(p.tree().root_node().kind(), root);
        assert!(!p.tree().root_node().has_error());
    }
}

#[test]
fn test_parse_file_c_valid() {
    let (tree, source) = parse("c", "int add(int a, int b) {\n    return a + b;\n}\n");
    assert_eq!(tree.root_node().kind(), "translation_unit");
    assert!(!tree.root_node().has_error());
    assert!(source.contains("int add"));
}

#[test]
fn test_parse_file_cpp_valid() {
    let (tree, source) = parse("cpp", "class Calculator {\npublic:\n    int add(int a, int b) { return a + b; }\n};\n");
    assert_eq!(tree.root_node().kind(), "translation_unit");
    assert!(!tree.root_node().has_error());
    assert!(source.contains("class Calculator"));
}

#[test]
fn test_c_grammar_on_cpp_class_has_errors() {
    let (tree, _) = parse("c", "class Calculator {\npublic:\n    int add(int a, int b) { return a + b; }\n};\n");
    assert!(tree.root_node().has_error());
}

#[test]
fn test_sequential_parse_c_then_cpp_same_thread() {
    for (lang, src) in [("c", "int foo(void) { return 0; }\n"), ("cpp", "class Foo { public: int bar() { return 0; } };\n")] {
        let language = get_language(lang).unwrap();
        let p = parse_source("f", src.to_string(), &language).unwrap();
        assert_eq!(p.tree().root_node().kind(), "translation_unit");
        assert!(!p.tree().root_node().has_error());
    }
}

#[test]
fn test_parse_file_go_valid() {
    let (tree, source) = parse("go", "package main\n\nfunc greet(name string) string {\n    return \"Hello, \" + name\n}\n");
    assert_eq!(tree.root_node().kind(), "source_file");
    assert!(!tree.root_node().has_error());
    assert!(source.contains("func greet"));
}

#[test]
fn test_parse_file_go_broken_syntax_partial_tree() {
    let (tree, _) = parse("go", "func broken(\n    ???\n");
    assert_eq!(tree.root_node().kind(), "source_file");
    assert!(tree.root_node().has_error());
}

#[test]
fn test_compile_query_valid() {
    let lang = get_language("rust").unwrap();
    let query = compile_query(&lang, "(function_item name: (identifier) @fn_name)").unwrap();
    assert!(query.capture_names().contains(&"fn_name".to_string()));
}

#[test]
fn test_compile_query_invalid_returns_error() {
    let lang = get_language("rust").unwrap();
    let result = compile_query(&lang, "((( this is not valid");
    assert!(matches!(result, Err(AppError::QueryCompileError(_))));
    if let Err(AppError::QueryCompileError(msg)) = result {
        assert!(!msg.is_empty());
        assert!(msg.len() > 5, "QueryCompileError message should be descriptive, got: '{msg}'");
    }
}

#[test]
fn test_compile_query_unknown_node_type() {
    let lang = get_language("rust").unwrap();
    let result = compile_query(&lang, "(nonexistent_node_xyz @cap)");
    assert!(matches!(result, Err(AppError::QueryCompileError(_))));
}

#[test]
fn test_compile_query_arc_is_shareable() {
    let lang = get_language("rust").unwrap();
    let query = compile_query(&lang, "(identifier) @id").unwrap();
    let query2 = Arc::clone(&query);
    assert_eq!(query.capture_names(), query2.capture_names());
    assert_eq!(Arc::strong_count(&query), 2);
}

#[test]
fn test_extract_matches_function_definition() {
    let source = "\nfn authenticate(user: &str, password: &str) -> bool {\n    true\n}\nfn logout() {}\n";
    let results = run("rust", "(function_item name: (identifier) @fn_name)", source, "test_file.rs");
    assert_eq!(results.len(), 2);
    let names: Vec<&str> = results.iter().map(|r| r.matched_text.as_str()).collect();
    assert!(names.contains(&"authenticate"));
    assert!(names.contains(&"logout"));
    for result in &results {
        assert_eq!(result.capture_name, "fn_name");
    }
}

#[test]
fn test_extract_matches_no_matches_returns_empty() {
    let results = run("rust", "(struct_item name: (type_identifier) @struct_name)", "fn main() { let x = 1; }", "test_file.rs");
    assert!(results.is_empty());
}

#[test]
fn test_extract_matches_line_numbers_are_1_indexed() {
    let results = run("rust", "(function_item name: (identifier) @fn_name)", "\nfn first() {}\nfn second() {}", "test_file.rs");
    assert_eq!(results.len(), 2);
    let first = results.iter().find(|r| r.matched_text == "first").unwrap();
    assert_eq!(first.start_line, 2);
    let second = results.iter().find(|r| r.matched_text == "second").unwrap();
    assert_eq!(second.start_line, 3);
}

#[test]
fn test_extract_matches_eq_predicate() {
    let source = "\nfn connect() {}\nfn disconnect() {}\nfn reconnect() {}\n";
    let query = "\n            (function_item\n              name: (identifier) @fn_name\n              (#eq? @fn_name \"connect\"))\n        ";
    let results = run("rust", query, source, "test_file.rs");
    assert_eq!(results.len(), 1);
    assert_eq!(results[0].matched_text, "connect");
}

#[test]
fn test_extract_matches_file_path_populated() {
    let results = run("rust", "(function_item name: (identifier) @fn_name)", "fn foo() {}", "src/auth/handler.rs");
    assert_eq!(results.len(), 1);
    assert_eq!(results[0].file_path, "src/auth/handler.rs");
}

#[test]
fn test_extract_matches_multiple_captures_per_match() {
    let query = "\n            (function_item\n              name: (identifier) @fn_name\n              parameters: (parameters\n                (parameter pattern: (identifier) @param_name)))\n        ";
    let results = run("rust", query, "fn process(input: String) {}", "test_file.rs");
    assert_eq!(results.len(), 2);
    let fn_result = results.iter().find(|r| r.capture_name == "fn_name").unwrap();
    assert_eq!(fn_result.matched_text, "process");
    let param_result = results.iter().find(|r| r.capture_name == "param_name").unwrap();
    assert_eq!(param_result.matched_text, "input");
}

#[test]
fn test_format_capture_name_named_node() {
    let lang = get_language("rust").unwrap();
    let query = compile_query(&lang, "(function_item name: (identifier) @fn_name)").unwrap();
    let (tree, src) = parse("rust", "fn main() {}");
    let mut cursor = tree_sitter::QueryCursor::new();
    let matches: Vec<_> = cursor.matches(query.query(), tree.root_node(), src.as_bytes()).collect();
    let node = matches[0].captures[0].node;
    assert!(node.is_named());
    let result = format_capture_name("fn_name", node.is_named(), node.kind());
    assert_eq!(result, "fn_name");
}

#[test]
fn test_format_capture_name_anonymous_node() {
    let lang = get_language("rust").unwrap();
    let query = compile_query(&lang, r#"("fn" @keyword)"#).unwrap();
    let (tree, src) = parse("rust", "fn main() {}");
    let mut cursor = tree_sitter::QueryCursor::new();
    let matches: Vec<_> = cursor.matches(query.query(), tree.root_node(), src.as_bytes()).collect();
    if matches.is_empty() {
        return;
    }
    let node = matches[0].captures[0].node;
    let result = format_capture_name("keyword", node.is_named(), node.kind());
    if node.is_named() {
        assert_eq!(result, "keyword");
    } else {
        assert!(result.starts_with("keyword["));
        assert!(result.ends_with(']'));
    }
}

#[test]
fn anonymous_capture_is_labelled_with_its_kind() {
    let results = run("rust", "(\"fn\" @keyword)", "fn main() {}", "f.rs");
    assert_eq!(results.len(), 1);
    assert_eq!(results[0].capture_name, "keyword[fn]");
}

// ---------------------------------------------------------------------------
// Further cases
// ---------------------------------------------------------------------------

#[test]
fn grammar_names() {
    assert_eq!(get_grammar("ts").ok(), Some(Grammar::Tsx));
    assert_eq!(get_grammar("cpp").ok(), Some(Grammar::Cpp));
    let e = get_grammar("ruby").err().unwrap();
    assert_eq!(e.message(), "Language 'ruby' is not supported. Supported: rust, python, js, ts, go, c, cpp");
}

#[test]
fn positions_and_bytes_of_a_capture() {
    let results = run("rust", "(function_item name: (identifier) @fn_name)", "fn add(a: i32) -> i32 { a }\n", "lib.rs");
    assert_eq!(results.len(), 1);
    let r = &results[0];
    assert_eq!((r.start_line, r.start_col, r.end_line, r.end_col), (1, 3, 1, 6));
    assert_eq!((r.start_byte, r.end_byte), (3, 6));
    assert_eq!(r.matched_text, "add");
}

#[test]
fn captured_text_of_multibyte_source() {
    let results = run("rust", "(string_literal) @s", "fn f() { let _ = \"héllo\"; }", "f.rs");
    assert_eq!(results.len(), 1);
    assert_eq!(results[0].matched_text, "\"héllo\"");
    assert_eq!(results[0].end_byte - results[0].start_byte, 8);
}

#[test]
fn empty_file_is_refused_with_its_path() {
    let language = get_language("rust").unwrap();
    let query = compile_query(&language, "(identifier) @id").unwrap();
    let r = search_source("src/empty.rs", String::new(), &language, &vec![query]);
    let Err(AppError::ParseError(m)) = r else { panic!("expected a parse error") };
    assert_eq!(m, "File is empty and contains no parseable content: src/empty.rs");
}

#[test]
fn search_source_finds_matches() {
    let language = get_language("python").unwrap();
    let query = compile_query(&language, "(function_definition name: (identifier) @fn_name)").unwrap();
    let r = search_source("m.py", "def greet():\n    pass\n".to_string(), &language, &vec![query]).unwrap().results;
    assert_eq!(r.len(), 1);
    assert_eq!(r[0].matched_text, "greet");
    assert_eq!(r[0].file_path, "m.py");
}

#[test]
fn query_error_text() {
    let f = QueryFailure { row: 0, column: 4, offset: 4, message: "bogus".to_string(), kind: QueryProblem::NodeType };
    assert_eq!(query_failure_message(&f), "Query error at 1:5. Invalid node type bogus");
    let f = QueryFailure { row: 2, column: 0, offset: 9, message: "".to_string(), kind: QueryProblem::Syntax };
    assert_eq!(query_failure_message(&f), "Query error at 3:1. Invalid syntax:\n");
    let f = QueryFailure { row: 0, column: 0, offset: 0, message: "Incompatible language version".to_string(), kind: QueryProblem::Language };
    assert_eq!(query_failure_message(&f), "Incompatible language version");
}

#[test]
fn compile_error_matches_tree_sitter_text() {
    let lang = get_language("rust").unwrap();
    let expected = tree_sitter::Query::new(lang.language(), "(nonexistent_node_xyz @cap)").err().unwrap().to_string();
    let Err(AppError::QueryCompileError(m)) = compile_query(&lang, "(nonexistent_node_xyz @cap)") else {
        panic!("expected a compile error")
    };
    assert_eq!(m, expected);
}

#[test]
fn results_follow_the_captures_in_order() {
    let results = run("rust", "(function_item name: (identifier) @fn_name)", "fn b() {}\nfn a() {}\n", "x.rs");
    let names: Vec<&str> = results.iter().map(|r| r.matched_text.as_str()).collect();
    assert_eq!(names, vec!["b", "a"]);
    assert_eq!(results[1].start_line, 2);
}

#[test]
fn text_predicates_read_the_parsed_text() {
    let lang = get_language("rust").unwrap();
    let query = compile_query(&lang, "((identifier) @id (#eq? @id \"target\"))").unwrap();
    let p = parse_source("f.rs", "fn target() {} fn other() {}".to_string(), &lang).unwrap();
    let results = extract_matches(&p, &query, "f.rs");
    assert_eq!(results.len(), 1);
    assert_eq!(results[0].matched_text, "target");
}

#[test]
fn languages_carry_their_grammar() {
    assert_eq!(get_language("python").unwrap().grammar_of(), Grammar::Python);
    assert_eq!(get_language("ts").unwrap().grammar_of(), Grammar::Tsx);
}

#[test]
fn search_runs_every_query_once_per_file() {
    let language = get_language("rust").unwrap();
    let q1 = compile_query(&language, "(function_item name: (identifier) @f)").unwrap();
    let q2 = compile_query(&language, "(struct_item name: (type_identifier) @s)").unwrap();
    let r = search_source("m.rs", "struct S; fn go() {}".to_string(), &language, &vec![q1, q2]).unwrap();
    let names: Vec<&str> = r.results.iter().map(|m| m.matched_text.as_str()).collect();
    assert_eq!(names, vec!["go", "S"]);
    assert!(r.warnings.is_empty());
}

#[test]
fn syntax_errors_still_parse() {
    let language = get_language("rust").unwrap();
    let p = parse_source("broken.rs", "fn broken( {".to_string(), &language).unwrap();
    assert!(p.tree().root_node().has_error());
    assert_eq!(p.text(), "fn broken( {");
}

#[test]
fn capture_out_of_range_is_warned() {
    let caps = vec![CaptureRecord {
        index: 0, named: true, kind: "identifier".to_string(), start_byte: 2, end_byte: 40,
        start_row: 0, start_col: 2, end_row: 0, end_col: 40,
    }];
    let (results, warnings) = matches_from_captures(&caps, &vec!["id".to_string()], "héllo", "f.rs");
    assert!(results.is_empty());
    assert_eq!(warnings, vec!["warning: capture byte range 2..40 out of bounds for source of length 6 \u{2014} skipping capture 'id'".to_string()]);
}
