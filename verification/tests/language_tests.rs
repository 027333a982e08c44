use ast_search::cli::is_language_file;
use ast_search::parser::{get_language, parse_source};
use ast_search::query::compile_query;
use ast_search::search::search_source;
use ast_search::types::{AppError, Lang};

fn kept(lang: Lang, names: &[&str]) -> Vec<String> {
    names.iter().filter(|n| is_language_file(n, lang)).map(|n| n.to_string()).collect()
}

#[test]
fn test_invalid_query_compile_error() {
    let ts_lang = get_language("rust").unwrap();
    let result = compile_query(&ts_lang, "((( invalid");
    assert!(result.is_err());
    assert!(matches!(result.unwrap_err(), AppError::QueryCompileError(_)));
}

#[test]
fn test_typescript_interface_query_compiles() {
    let lang = get_language("ts").unwrap();
    let result = compile_query(&lang, "(interface_declaration name: (type_identifier) @name)");
    assert!(result.is_ok(), "interface_declaration query must compile against tsx grammar");
}

#[test]
fn test_js_grammar_rejects_typescript_node_type() {
    let js_lang = get_language("js").unwrap();
    let result = compile_query(&js_lang, "(interface_declaration name: (type_identifier) @name)");
    assert!(result.is_err());
}

#[test]
fn test_go_grammar_rejects_rust_node_type() {
    let go_lang = get_language("go").unwrap();
    let result = compile_query(&go_lang, "(function_item name: (identifier) @fn_name)");
    assert!(result.is_err());
}

#[test]
fn test_all_five_languages_compile_queries() {
    let cases = vec![
        ("rust", "(function_item name: (identifier) @fn_name)"),
        ("python", "(function_definition name: (identifier) @fn_name)"),
        ("js", "(function_declaration name: (identifier) @fn_name)"),
        ("ts", "(function_declaration name: (identifier) @fn_name)"),
        ("go", "(function_declaration name: (identifier) @fn_name)"),
    ];
    for (lang_str, query_str) in cases {
        let lang = get_language(lang_str).unwrap();
        let result = compile_query(&lang, query_str);
        assert!(result.is_ok(), "query compile failed for lang={}: {:?}", lang_str, result.err());
    }
}

#[test]
fn test_all_five_languages_parse_minimal_source() {
    let cases: Vec<(&str, &str, &str)> = vec![
        ("rust", "fn main() {}", "source_file"),
        ("python", "def main(): pass", "module"),
        ("js", "function main() {}", "program"),
        ("ts", "function main(): void {}", "program"),
        ("go", "package main\nfunc main() {}", "source_file"),
    ];
    for (lang_str, source, expected_root_kind) in cases {
        let lang = get_language(lang_str).unwrap();
        let result = parse_source("minimal", source.to_string(), &lang);
        assert!(result.is_ok(), "parse failed for lang={}: {:?}", lang_str, result.as_ref().err());
        let parsed = result.unwrap();
        let tree = parsed.tree();
        assert_eq!(tree.root_node().kind(), expected_root_kind, "wrong root node kind for lang={}", lang_str);
        assert!(!tree.root_node().has_error(), "unexpected parse errors for lang={}", lang_str);
    }
}

#[test]
fn test_walker_filters_non_rust_extensions() {
    let files = [("code.rs", "fn rust_fn() {}"), ("script.py", "def py_fn(): pass"), ("readme.txt", "fn fake_fn() {}")];
    let lang = get_language("rust").unwrap();
    let query = compile_query(&lang, "(function_item name: (identifier) @fn_name)").unwrap();
    let mut results = Vec::new();
    for (name, text) in files {
        if is_language_file(name, Lang::Rust) {
            let found = search_source(name, text.to_string(), &lang, &vec![query.clone()]).unwrap().results;
            results.extend(found);
        }
    }
    assert_eq!(results.len(), 1);
    assert_eq!(results[0].matched_text, "rust_fn");
    for result in &results {
        assert!(!result.file_path.contains("script.py"));
        assert!(!result.file_path.contains("readme.txt"));
    }
}

#[test]
fn test_python_walker_finds_py_files() {
    let names = kept(Lang::Python, &["script.py", "lib.py", "main.rs"]);
    assert!(names.contains(&"script.py".to_string()));
    assert!(names.contains(&"lib.py".to_string()));
    assert!(!names.contains(&"main.rs".to_string()));
    assert_eq!(names.len(), 2);
}

#[test]
fn test_python_walker_includes_pyi_stubs() {
    let names = kept(Lang::Python, &["module.pyi", "lib.py"]);
    assert!(names.contains(&"module.pyi".to_string()));
    assert!(names.contains(&"lib.py".to_string()));
}

#[test]
fn test_javascript_walker_extensions() {
    let names = kept(Lang::JavaScript, &["app.js", "mod.mjs", "cjs.cjs", "index.ts", "main.rs"]);
    assert!(names.contains(&"app.js".to_string()));
    assert!(names.contains(&"mod.mjs".to_string()));
    assert!(names.contains(&"cjs.cjs".to_string()));
    assert!(!names.contains(&"index.ts".to_string()));
    assert!(!names.contains(&"main.rs".to_string()));
    assert_eq!(names.len(), 3);
}

#[test]
fn test_typescript_walker_extensions() {
    let names = kept(Lang::TypeScript, &["index.ts", "app.tsx", "mod.mts", "cts.cts", "script.js", "main.rs"]);
    assert!(names.contains(&"index.ts".to_string()));
    assert!(names.contains(&"app.tsx".to_string()));
    assert!(names.contains(&"mod.mts".to_string()));
    assert!(names.contains(&"cts.cts".to_string()));
    assert!(!names.contains(&"script.js".to_string()));
    assert!(!names.contains(&"main.rs".to_string()));
    assert_eq!(names.len(), 4);
}

#[test]
fn test_go_walker_finds_go_files_only() {
    let names = kept(Lang::Go, &["main.go", "util.go", "lib.rs", "script.py", "app.js"]);
    assert!(names.contains(&"main.go".to_string()));
    assert!(names.contains(&"util.go".to_string()));
    assert!(!names.contains(&"lib.rs".to_string()));
    assert!(!names.contains(&"script.py".to_string()));
    assert!(!names.contains(&"app.js".to_string()));
}

#[test]
fn test_empty_file_produces_no_results() {
    let lang = get_language("rust").unwrap();
    let query = compile_query(&lang, "(function_item name: (identifier) @fn_name)").unwrap();
    let outcome = search_source("empty.rs", String::new(), &lang, &vec![query]);
    let results = outcome.map(|f| f.results).unwrap_or_default();
    assert!(results.is_empty());
}
