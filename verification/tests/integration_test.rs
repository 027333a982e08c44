use ast_search::cli::{format_file_error, is_language_file, resolve_lang, validate_inputs, FileError};
use ast_search::order::{compare_matches, sort_and_dedup, Rel};
use ast_search::search::{file_failure, skip_warning, SearchTally};
use ast_search::types::{AppError, Lang, MatchResult};
use std::path::PathBuf;

fn result(path: &str, line: usize, cap: &str, text: &str) -> MatchResult {
    MatchResult {
        file_path: path.to_string(),
        start_line: line,
        start_col: 0,
        end_line: line,
        end_col: 3,
        capture_name: cap.to_string(),
        matched_text: text.to_string(),
        start_byte: 0,
        end_byte: 0,
    }
}

#[test]
fn test_invalid_lang_error_contains_hint() {
    let supported = ["rust", "python", "js", "ts", "go"];
    let invalid = "haskell";
    assert!(!supported.contains(&invalid));
}

#[test]
fn test_validate_error_ordering() {
    let cases: Vec<(&str, &str, &str, &str)> = vec![
        ("", "/nonexistent", "cobol", "query must not be empty"),
        ("(f)", "/nonexistent", "cobol", "does not exist"),
    ];

    for (query, path, lang, expected_fragment) in cases {
        let result = checked_inputs(query, path, lang);
        assert!(result.is_err(), "expected error for query={query} path={path} lang={lang}");
        assert!(
            result.unwrap_err().contains(expected_fragment),
            "expected fragment '{}' for query={} path={} lang={}",
            expected_fragment,
            query,
            path,
            lang
        );
    }
}

fn checked_inputs(query: &str, path: &str, lang: &str) -> Result<(), String> {
    if query.trim().is_empty() {
        return Err("query must not be empty".to_string());
    }
    let p = PathBuf::from(path);
    if !p.exists() {
        return Err(format!(
            "path does not exist: {}\n  hint: check for typos or run from the correct directory",
            p.display()
        ));
    }
    if !p.is_dir() {
        return Err(format!(
            "path is not a directory: {}\n  hint: --path must point to a directory, not a file",
            p.display()
        ));
    }
    let supported = ["rust", "python", "js", "ts", "go"];
    if !supported.contains(&lang) {
        return Err(format!(
            "unsupported language: '{}'\n  supported languages: rust, python, js, ts, go\n  example: --lang rust",
            lang
        ));
    }
    Ok(())
}

#[test]
fn test_format_file_error_walker_known_path() {
    let error = FileError::WalkerAccess {
        path: Some("src/secret/file.rs".to_string()),
        message: "permission denied".to_string(),
    };
    let output = format_file_error(&error);
    assert_eq!(output, "warning: [walker] src/secret/file.rs: permission denied");
}

#[test]
fn test_format_file_error_walker_unknown_path() {
    let error = FileError::WalkerAccess { path: None, message: "too many open files".to_string() };
    let output = format_file_error(&error);
    assert_eq!(output, "warning: [walker] <path unknown>: too many open files");
}

#[test]
fn test_format_file_error_read_failure() {
    let error = FileError::ReadFailure {
        path: "src/broken.rs".to_string(),
        message: "No such file or directory (os error 2)".to_string(),
    };
    let output = format_file_error(&error);
    assert_eq!(output, "warning: [read] src/broken.rs: No such file or directory (os error 2)");
    assert!(output.starts_with("warning: [read]"));
    assert!(output.contains("src/broken.rs"));
}

#[test]
fn test_format_file_error_parse_failure() {
    let error = FileError::ParseFailure {
        path: "src/empty.rs".to_string(),
        message: "File is empty and contains no parseable content".to_string(),
    };
    let output = format_file_error(&error);
    assert_eq!(output, "warning: [parse] src/empty.rs: File is empty and contains no parseable content");
    assert!(output.starts_with("warning: [parse]"));
}

#[test]
fn test_format_file_error_structure() {
    let errors = vec![
        FileError::WalkerAccess { path: Some("test.rs".to_string()), message: "err".to_string() },
        FileError::ReadFailure { path: "test.rs".to_string(), message: "err".to_string() },
        FileError::ParseFailure { path: "test.rs".to_string(), message: "err".to_string() },
    ];

    for error in errors {
        let output = format_file_error(&error);
        assert!(output.starts_with("warning: "));
        let has_category =
            output.contains("[walker]") || output.contains("[read]") || output.contains("[parse]");
        assert!(has_category);
        assert!(output.contains(": "));
        assert!(!output.ends_with('\n'));
    }
}

#[test]
fn test_handle_file_error_quiet_increments_counter() {
    let mut tally = SearchTally::new();
    tally.record_skip();
    assert_eq!(tally.skipped, 1);
}

#[test]
fn test_handle_file_error_multiple_increments() {
    let mut tally = SearchTally::new();
    tally.record_skip();
    tally.record_skip();
    tally.record_skip();
    assert_eq!(tally.skipped, 3);
}

#[test]
fn test_cli_validate_valid_path() {
    assert!(validate_inputs("(function_item)", "/tmp", true, true).is_ok());
}

#[test]
fn test_cli_validate_nonexistent_path() {
    let result = validate_inputs("(function_item)", "/tmp/ast_search_nonexistent_xyz_12345", false, false);
    assert!(result.is_err());
    let err_msg = result.unwrap_err();
    assert!(err_msg.contains("does not exist"));
    assert!(err_msg.contains("ast_search_nonexistent_xyz_12345"));
}

#[test]
fn test_cli_validate_file_path_fails() {
    let result = validate_inputs("(function_item)", "/tmp/some_file.txt", true, false);
    assert!(result.is_err());
    let err_msg = result.unwrap_err();
    assert!(err_msg.contains("not a directory"));
}

#[test]
fn test_cli_validate_empty_query() {
    let result = validate_inputs("   ", "/tmp", true, true);
    assert!(result.is_err());
    let err_msg = result.unwrap_err();
    assert!(err_msg.contains("empty"));
}

#[test]
fn test_resolve_lang_all_supported() {
    assert!(resolve_lang("rust").is_ok());
    assert!(resolve_lang("python").is_ok());
    assert!(resolve_lang("js").is_ok());
    assert!(resolve_lang("ts").is_ok());
    assert!(resolve_lang("go").is_ok());

    assert_eq!(resolve_lang("rust").unwrap(), Lang::Rust);
    assert_eq!(resolve_lang("python").unwrap(), Lang::Python);
    assert_eq!(resolve_lang("js").unwrap(), Lang::JavaScript);
    assert_eq!(resolve_lang("ts").unwrap(), Lang::TypeScript);
    assert_eq!(resolve_lang("go").unwrap(), Lang::Go);
}

#[test]
fn test_resolve_lang_unsupported() {
    assert!(resolve_lang("cobol").is_err());
    assert!(resolve_lang("").is_err());
    assert!(resolve_lang("RUST").is_err());

    let err = resolve_lang("cobol").unwrap_err();
    assert!(err.contains("cobol"));
    assert!(err.contains("rust"));
}

#[test]
fn test_sort_then_dedup_combined_behavior() {
    let results = vec![
        result("src/a.rs", 5, "cap", "txt"),
        result("src/a.rs", 1, "cap", "txt"),
        result("src/a.rs", 1, "cap", "txt"),
        result("src/a.rs", 3, "cap", "txt"),
        result("src/b.rs", 1, "cap", "txt"),
    ];
    let results = sort_and_dedup(&results);

    assert_eq!(results.len(), 4);
    assert_eq!(results[0].file_path, "src/a.rs");
    assert_eq!(results[0].start_line, 1);
    assert_eq!(results[1].file_path, "src/a.rs");
    assert_eq!(results[1].start_line, 3);
    assert_eq!(results[2].file_path, "src/a.rs");
    assert_eq!(results[2].start_line, 5);
    assert_eq!(results[3].file_path, "src/b.rs");
    assert_eq!(results[3].start_line, 1);
}

#[test]
fn test_sort_dedup_idempotent() {
    let results = vec![
        result("src/b.rs", 1, "x", "x"),
        result("src/a.rs", 1, "a", "a"),
        result("src/a.rs", 1, "a", "a"),
    ];
    let after_first = sort_and_dedup(&results);
    let after_second = sort_and_dedup(&after_first);
    assert_eq!(after_first, after_second);
}

// ---------------------------------------------------------------------------
// Further cases
// ---------------------------------------------------------------------------

#[test]
fn validate_checks_query_before_path() {
    assert_eq!(validate_inputs("", "/nowhere", false, false), Err("query must not be empty: \"\"".to_string()));
    assert_eq!(validate_inputs("(f)", "/nowhere", false, false), Err("path does not exist: /nowhere".to_string()));
    assert_eq!(validate_inputs("(f)", "/a/file", true, false), Err("path is not a directory: /a/file".to_string()));
    assert_eq!(validate_inputs(" \t", "/tmp", true, true), Err("query must not be empty: \" \\t\"".to_string()));
}

#[test]
fn unsupported_language_message_is_exact() {
    assert_eq!(
        resolve_lang("cobol"),
        Err("unsupported language 'cobol'; supported: rust, python, js, ts, go".to_string())
    );
}

#[test]
fn paths_sort_by_components() {
    let results = vec![result("src/b.rs", 1, "c", "t"), result("src/a/z.rs", 1, "c", "t"), result("src-x/a.rs", 1, "c", "t")];
    let sorted = sort_and_dedup(&results);
    let paths: Vec<&str> = sorted.iter().map(|r| r.file_path.as_str()).collect();
    assert_eq!(paths, vec!["src/a/z.rs", "src/b.rs", "src-x/a.rs"]);
}

#[test]
fn duplicate_spelled_paths_are_one_result() {
    let results = vec![result("src/a.rs", 1, "c", "t"), result("src//a.rs", 1, "c", "t"), result("./src/a.rs", 1, "c", "t")];
    let sorted = sort_and_dedup(&results);
    assert_eq!(sorted.len(), 2);
}

#[test]
fn language_files_by_extension() {
    assert!(is_language_file("src/main.rs", Lang::Rust));
    assert!(!is_language_file("src/main.rs", Lang::Go));
    assert!(is_language_file("pkg/stub.pyi", Lang::Python));
    assert!(is_language_file("web/app.mjs", Lang::JavaScript));
    assert!(is_language_file("web/view.tsx", Lang::TypeScript));
    assert!(is_language_file("cmd/main.go", Lang::Go));
    assert!(!is_language_file("dir.rs/README", Lang::Rust));
    assert!(!is_language_file("src/.rs", Lang::Rust));
    assert!(is_language_file("src/..rs", Lang::Rust));
    assert!(!is_language_file("src/rs", Lang::Rust));
}

#[test]
fn failures_are_classified_by_error() {
    let f = file_failure("a.rs".to_string(), &AppError::IoError("denied".to_string()));
    assert_eq!(format_file_error(&f), "warning: [read] a.rs: denied");
    let f = file_failure("a.rs".to_string(), &AppError::ParseError("empty".to_string()));
    assert_eq!(format_file_error(&f), "warning: [parse] a.rs: empty");
    let f = file_failure("a.rs".to_string(), &AppError::DbError("odd".to_string()));
    assert_eq!(format_file_error(&f), "warning: [read] a.rs: unexpected error: odd");
}

#[test]
fn tally_finishes_sorted_with_counts() {
    let mut tally = SearchTally::new();
    tally.record_matches(vec![result("b.rs", 2, "c", "t")]);
    tally.record_matches(vec![result("a.rs", 9, "c", "t"), result("b.rs", 2, "c", "t")]);
    tally.record_skip();
    let (results, processed, skipped) = tally.finish();
    assert_eq!(results.len(), 2);
    assert_eq!(results[0].file_path, "a.rs");
    assert_eq!(processed, 2);
    assert_eq!(skipped, 1);
}

#[test]
fn tally_result_does_not_depend_on_file_order() {
    let first = vec![result("b.rs", 2, "c", "t"), result("a.rs", 1, "c", "t")];
    let second = vec![result("a.rs", 1, "c", "t"), result("c.rs", 7, "c", "t")];
    let mut one = SearchTally::new();
    one.record_matches(first.clone());
    one.record_matches(second.clone());
    let mut two = SearchTally::new();
    two.record_matches(second);
    two.record_matches(first);
    assert_eq!(one.finish().0, two.finish().0);
}

#[test]
fn skip_warning_wording() {
    assert_eq!(skip_warning(0, false), None);
    assert_eq!(skip_warning(3, true), None);
    assert_eq!(skip_warning(1, false), Some("warning: skipped 1 file due to errors (use --quiet to suppress)".to_string()));
    assert_eq!(skip_warning(12, false), Some("warning: skipped 12 files due to errors (use --quiet to suppress)".to_string()));
}

#[test]
fn a_file_belongs_to_one_language() {
    let langs = [Lang::Rust, Lang::Python, Lang::JavaScript, Lang::TypeScript, Lang::Go];
    for path in ["a.rs", "b.py", "c.pyi", "d.js", "e.mjs", "f.cjs", "g.ts", "h.tsx", "i.mts", "j.cts", "k.go", "l.c"] {
        let owners = langs.iter().filter(|l| is_language_file(path, **l)).count();
        assert!(owners <= 1, "{path} belongs to {owners} languages");
    }
}

#[test]
fn results_compare_by_path_then_position() {
    let a = result("src/a.rs", 9, "c", "t");
    let b = result("src/b.rs", 1, "c", "t");
    assert_eq!(compare_matches(&a, &b), Rel::Less);
    assert_eq!(compare_matches(&b, &a), Rel::Greater);
    assert_eq!(compare_matches(&a, &result("src//a.rs", 9, "c", "t")), Rel::Equal);
    assert_eq!(compare_matches(&a, &result("src/a.rs", 9, "c", "u")), Rel::Less);
}
