use ast_search::rewrite::{apply_edits_to_source, compute_edits, generate_diff, group_edits_by_file, RewriteEdit};
use ast_search::template::{Captures, RewriteTemplate};
use ast_search::types::MatchResult;

fn captures(pairs: &[(&str, &str)]) -> Captures {
    let mut m = Captures::new();
    for (k, v) in pairs {
        m.insert(k, v);
    }
    m
}

fn edit(start: usize, end: usize, text: &str) -> RewriteEdit {
    RewriteEdit { file_path: "f".to_string(), start_byte: start, end_byte: end, new_text: text.to_string() }
}

#[test]
fn test_template_apply_single_capture() {
    let t = RewriteTemplate { raw: "@fn_name".to_string() };
    let m = captures(&[("fn_name", "connect")]);
    assert_eq!(t.apply(&m), "connect".to_string());
}

#[test]
fn test_template_apply_multiple_captures() {
    let t = RewriteTemplate { raw: "rename_@old to @new".to_string() };
    let m = captures(&[("old", "foo"), ("new", "bar")]);
    assert_eq!(t.apply(&m), "rename_foo to bar".to_string());
}

#[test]
fn test_template_apply_missing_capture_unchanged() {
    let t = RewriteTemplate { raw: "@fn_name(@missing)".to_string() };
    let m = captures(&[("fn_name", "foo")]);
    assert_eq!(t.apply(&m), "foo(@missing)".to_string());
}

#[test]
fn test_template_longest_match_first() {
    let t = RewriteTemplate { raw: "@fn_name".to_string() };
    let m = captures(&[("fn", "short"), ("fn_name", "correct")]);
    assert_eq!(t.apply(&m), "correct".to_string());
}

#[test]
fn test_compute_edits_no_change_skipped() {
    let r = MatchResult {
        file_path: "f.rs".to_string(),
        start_line: 1,
        start_col: 0,
        end_line: 1,
        end_col: 3,
        capture_name: "cap".to_string(),
        matched_text: "same".to_string(),
        start_byte: 0,
        end_byte: 0,
    };
    let t = RewriteTemplate { raw: "same".to_string() };
    let edits = compute_edits(&[r], &t);
    assert!(edits.is_empty());
}

#[test]
fn test_compute_edits_produces_edit_for_changed_capture() {
    let r = MatchResult {
        file_path: "f.rs".to_string(),
        start_line: 1,
        start_col: 0,
        end_line: 1,
        end_col: 3,
        capture_name: "fn_name".to_string(),
        matched_text: "old_name".to_string(),
        start_byte: 5,
        end_byte: 13,
    };
    let t = RewriteTemplate { raw: "@fn_name".to_string() };
    let edits = compute_edits(&[r], &t);
    assert_eq!(edits.len(), 1);
    assert_eq!(edits[0].new_text, "old_name".to_string());
}

#[test]
fn test_apply_edits_reverse_order() {
    let src = "hello world foo bar";
    let e1 = edit(10, 15, "XXX");
    let e2 = edit(0, 5, "YYY");
    let res = apply_edits_to_source(src, &[e1.clone(), e2.clone()]).unwrap();
    assert!(res.contains("YYY"));
    assert!(res.contains("XXX"));
}

#[test]
fn test_apply_edits_overlap_returns_error() {
    let src = "0123456789";
    let e1 = edit(2, 6, "A");
    let e2 = edit(5, 8, "B");
    let res = apply_edits_to_source(src, &[e1, e2]);
    assert!(res.is_err());
}

#[test]
fn test_apply_edits_empty_list_returns_original() {
    let src = "hello";
    let res = apply_edits_to_source(src, &[]).unwrap();
    assert_eq!(res, "hello".to_string());
}

#[test]
fn test_generate_diff_empty_when_no_change() {
    let d = generate_diff("same", "same", "f.rs");
    assert_eq!(d, "".to_string());
}

#[test]
fn test_generate_diff_nonempty_when_changed() {
    let d = generate_diff("fn old()", "fn new()", "f.rs");
    assert!(d.contains("-fn old()") || d.contains("+fn new()"));
}

#[test]
fn test_generate_diff_header_contains_path() {
    let d = generate_diff("a", "b", "f.rs");
    assert!(d.contains("a/f.rs") || d.contains("b/f.rs") || d.contains("a/f"));
}

#[test]
fn test_rewrite_template_empty_string_no_panic() {
    let t = RewriteTemplate { raw: "".to_string() };
    let m = Captures::new();
    assert_eq!(t.apply(&m), "".to_string());
}

#[test]
fn test_apply_edits_utf8_boundary_safety() {
    let src = "aébcdef";
    let e = edit(1, 4, "XYZ");
    let res = apply_edits_to_source(src, &[e]).unwrap();
    assert!(res.is_ascii() || res.is_char_boundary(0));
}

// ---------------------------------------------------------------------------
// Further cases
// ---------------------------------------------------------------------------

#[test]
fn template_without_captured_names_is_unchanged() {
    let t = RewriteTemplate { raw: "call @other(x) @ here".to_string() };
    let m = captures(&[("name", "value")]);
    assert_eq!(t.apply(&m), "call @other(x) @ here");
}

#[test]
fn template_replaces_every_occurrence() {
    let t = RewriteTemplate { raw: "@a + @a".to_string() };
    let m = captures(&[("a", "x")]);
    assert_eq!(t.apply(&m), "x + x");
}

#[test]
fn template_insert_replaces_earlier_value() {
    let t = RewriteTemplate { raw: "@a".to_string() };
    let m = captures(&[("a", "first"), ("a", "second")]);
    assert_eq!(t.apply(&m), "second");
    assert_eq!(m.get(&"a".chars().collect()).map(|s| s.as_str()), Some("second"));
    assert!(m.get(&"b".chars().collect()).is_none());
}

#[test]
fn compute_edits_rewrites_through_template() {
    let r = MatchResult {
        file_path: "src/x.rs".to_string(),
        start_line: 1,
        start_col: 3,
        end_line: 1,
        end_col: 6,
        capture_name: "fn_name".to_string(),
        matched_text: "add".to_string(),
        start_byte: 3,
        end_byte: 6,
    };
    let t = RewriteTemplate { raw: "new_@fn_name".to_string() };
    let edits = compute_edits(&[r], &t);
    assert_eq!(edits, vec![RewriteEdit {
        file_path: "src/x.rs".to_string(),
        start_byte: 3,
        end_byte: 6,
        new_text: "new_add".to_string(),
    }]);
}

#[test]
fn edits_replace_their_ranges() {
    let src = "fn add() {} fn sub() {}";
    let res = apply_edits_to_source(src, &[edit(15, 18, "minus"), edit(3, 6, "plus")]).unwrap();
    assert_eq!(res, "fn plus() {} fn minus() {}");
}

#[test]
fn adjacent_edits_are_not_overlapping() {
    let res = apply_edits_to_source("abcdef", &[edit(0, 3, "X"), edit(3, 6, "Y")]).unwrap();
    assert_eq!(res, "XY");
}

#[test]
fn overlap_error_names_both_ranges() {
    let res = apply_edits_to_source("0123456789", &[edit(5, 8, "B"), edit(2, 6, "A")]);
    assert_eq!(res, Err("overlapping edits: 2-6 and 5-8".to_string()));
}

#[test]
fn range_past_end_is_refused() {
    let res = apply_edits_to_source("abc", &[edit(1, 9, "Z")]);
    assert_eq!(res, Err("invalid edit range: 1-9".to_string()));
}

#[test]
fn reversed_range_is_refused() {
    let res = apply_edits_to_source("abcdef", &[edit(4, 2, "Z")]);
    assert_eq!(res, Err("invalid edit range: 4-2".to_string()));
}

#[test]
fn split_character_is_refused() {
    let res = apply_edits_to_source("é", &[edit(0, 1, "X")]);
    assert_eq!(res, Err("resulting text is not valid UTF-8".to_string()));
}

#[test]
fn insertions_at_one_offset_land_in_reverse_order() {
    let res = apply_edits_to_source("ab", &[edit(1, 1, "X"), edit(1, 1, "Y")]).unwrap();
    assert_eq!(res, "aYXb");
}

#[test]
fn diff_has_headers_and_hunks() {
    let d = generate_diff("a\nb\nc\n", "a\nB\nc\n", "src/lib.rs");
    assert_eq!(d, "--- a/src/lib.rs\n+++ b/src/lib.rs\n@@ -1,3 +1,3 @@\n a\n-b\n+B\n c\n");
}

#[test]
fn constant_template_over_other_text_is_an_edit() {
    let r = MatchResult {
        file_path: "f.rs".to_string(),
        start_line: 1,
        start_col: 0,
        end_line: 1,
        end_col: 3,
        capture_name: "cap".to_string(),
        matched_text: "bar".to_string(),
        start_byte: 0,
        end_byte: 3,
    };
    let edits = compute_edits(&[r.clone()], &RewriteTemplate { raw: "foo".to_string() });
    assert_eq!(edits.len(), 1);
    assert_eq!(edits[0].new_text, "foo");
    let unknown = compute_edits(&[r], &RewriteTemplate { raw: "@other".to_string() });
    assert_eq!(unknown[0].new_text, "@other");
}

#[test]
fn edits_are_grouped_by_file() {
    let e = |p: &str, s: usize| RewriteEdit { file_path: p.to_string(), start_byte: s, end_byte: s, new_text: "x".to_string() };
    let groups = group_edits_by_file(&[e("b.rs", 1), e("a.rs", 2), e("./b.rs", 3), e("b.rs", 4), e("src//a.rs", 5), e("src/a.rs", 6)]);
    let shape: Vec<(String, Vec<usize>)> =
        groups.iter().map(|(p, es)| (p.clone(), es.iter().map(|x| x.start_byte).collect())).collect();
    assert_eq!(
        shape,
        vec![
            ("b.rs".to_string(), vec![1, 4]),
            ("a.rs".to_string(), vec![2]),
            ("./b.rs".to_string(), vec![3]),
            ("src//a.rs".to_string(), vec![5, 6]),
        ]
    );
}

#[test]
fn edit_order_does_not_matter() {
    let src = "abcdefghij";
    let es = [edit(0, 2, "X"), edit(4, 5, "Y"), edit(7, 9, "Z")];
    let forward = apply_edits_to_source(src, &es).unwrap();
    let backward = apply_edits_to_source(src, &[es[2].clone(), es[0].clone(), es[1].clone()]).unwrap();
    assert_eq!(forward, "XcdYfgZj");
    assert_eq!(forward, backward);
}

#[test]
fn diff_of_different_texts_starts_with_headers() {
    let d = generate_diff("x\n", "y\n", "p.rs");
    assert!(d.starts_with("--- a/p.rs\n+++ b/p.rs\n"));
}
