use ast_search::tui::{
    handle_event, run_loop_step, worker_reply, AppEvent, AppState, FileTreeEntry, KeyCode, SearchCommand,
};
use ast_search::types::MatchResult;

fn result(path: &str, line: usize, end_col: usize, text: &str) -> MatchResult {
    MatchResult {
        file_path: path.to_string(),
        start_line: line,
        start_col: 0,
        end_line: line,
        end_col,
        capture_name: "c".to_string(),
        matched_text: text.to_string(),
        start_byte: 0,
        end_byte: 0,
    }
}

fn entry(path: &str) -> FileTreeEntry {
    FileTreeEntry { path: path.to_string(), match_count: 1 }
}

#[test]
fn test_app_state_new_defaults() {
    let s = AppState::new();
    assert!(s.query_input.is_empty());
    assert!(s.results.is_empty());
    assert_eq!(s.selected_index, 0);
    assert!(!s.should_quit);
    assert!(!s.search_running);
    assert!(s.error_message.is_none());
}

#[test]
fn test_append_results_sorts_and_deduplicates() {
    let mut s = AppState::new();
    let a = result("src/b.rs", 2, 1, "x");
    let b = result("src/a.rs", 1, 1, "y");
    let c = result("src/a.rs", 3, 1, "z");
    s.append_results(vec![a.clone(), b.clone(), c.clone()]);
    assert_eq!(s.results[0].file_path, "src/a.rs");
    assert_eq!(s.results.len(), 3);
    s.append_results(vec![b.clone(), b.clone()]);
    assert_eq!(s.results.len(), 3);
}

#[test]
fn test_clear_results_resets_state() {
    let mut s = AppState::new();
    let r = result("src/x.rs", 1, 2, "m");
    s.append_results(vec![r]);
    s.clear_results();
    assert!(s.results.is_empty());
    assert_eq!(s.selected_index, 0);
    assert!(s.file_tree.is_empty());
}

#[test]
fn test_select_next_wraps() {
    let mut s = AppState::new();
    s.file_tree = vec![entry("a"), entry("b"), entry("c")];
    s.selected_file_index = 2;
    s.select_next();
    assert_eq!(s.selected_file_index, 0);
}

#[test]
fn test_select_prev_wraps() {
    let mut s = AppState::new();
    s.file_tree = vec![entry("a"), entry("b"), entry("c")];
    s.selected_file_index = 0;
    s.select_prev();
    assert_eq!(s.selected_file_index, 2);
}

#[test]
fn test_scroll_up_saturates_at_zero() {
    let mut s = AppState::new();
    s.scroll_offset = 0;
    s.scroll_up();
    assert_eq!(s.scroll_offset, 0);
}

#[test]
fn test_results_for_selected_file_empty_when_no_results() {
    let s = AppState::new();
    assert!(s.results_for_selected_file().is_empty());
}

#[test]
fn test_rebuild_file_tree_groups_by_path() {
    let mut s = AppState::new();
    let a1 = result("src/a.rs", 1, 1, "t");
    let a2 = result("src/a.rs", 2, 1, "u");
    let a3 = result("src/a.rs", 3, 1, "v");
    let b = result("src/b.rs", 2, 1, "u");
    s.append_results(vec![a1, a2, a3, b]);
    assert_eq!(s.file_tree.len(), 2);
    let entry = s.file_tree.iter().find(|e| e.path.ends_with("a.rs")).unwrap();
    assert_eq!(entry.match_count, 3);
}

#[test]
fn test_file_tree_entry_sorted_by_path() {
    let mut s = AppState::new();
    let b = result("src/z.rs", 1, 1, "t");
    let a = result("src/a.rs", 1, 1, "t");
    s.append_results(vec![b, a]);
    assert!(s.file_tree[0].path.ends_with("a.rs"));
}

// ---------------------------------------------------------------------------
// Further cases
// ---------------------------------------------------------------------------

#[test]
fn results_for_selected_file_are_that_files_results() {
    let mut s = AppState::new();
    s.append_results(vec![
        result("src/b.rs", 4, 1, "q"),
        result("src/a.rs", 1, 1, "p"),
        result("src/b.rs", 2, 1, "r"),
    ]);
    s.selected_file_index = 1;
    let shown = s.results_for_selected_file();
    assert_eq!(shown.len(), 2);
    assert!(shown.iter().all(|r| r.file_path == "src/b.rs"));
    assert_eq!(shown[0].start_line, 2);
    assert_eq!(shown[1].start_line, 4);
}

#[test]
fn selection_is_clamped_after_append() {
    let mut s = AppState::new();
    s.selected_index = 10;
    s.selected_file_index = 7;
    s.append_results(vec![result("a.rs", 1, 1, "x"), result("b.rs", 1, 1, "y")]);
    assert_eq!(s.selected_index, 1);
    assert_eq!(s.selected_file_index, 1);
}

#[test]
fn scroll_down_counts_up() {
    let mut s = AppState::new();
    s.scroll_down();
    s.scroll_down();
    assert_eq!(s.scroll_offset, 2);
    s.scroll_offset = usize::MAX;
    s.scroll_down();
    assert_eq!(s.scroll_offset, usize::MAX);
}

#[test]
fn typing_and_enter_start_a_search() {
    let mut s = AppState::new();
    s.error_message = Some("old".to_string());
    assert!(handle_event(&mut s, &AppEvent::Keystroke(KeyCode::Char('f'))).is_none());
    assert!(handle_event(&mut s, &AppEvent::Keystroke(KeyCode::Char('n'))).is_none());
    assert_eq!(s.query_input, "fn");
    assert!(s.error_message.is_none());
    assert!(handle_event(&mut s, &AppEvent::Keystroke(KeyCode::Backspace)).is_none());
    assert_eq!(s.query_input, "f");
    let cmd = handle_event(&mut s, &AppEvent::Keystroke(KeyCode::Enter));
    assert!(matches!(cmd, Some(SearchCommand::Run(ref q)) if q == "f"));
    assert!(s.search_running);
    assert_eq!(s.submitted_query.as_deref(), Some("f"));
}

#[test]
fn enter_on_blank_query_does_nothing() {
    let mut s = AppState::new();
    handle_event(&mut s, &AppEvent::Keystroke(KeyCode::Char(' ')));
    let cmd = handle_event(&mut s, &AppEvent::Keystroke(KeyCode::Enter));
    assert!(cmd.is_none());
    assert!(!s.search_running);
    assert!(s.submitted_query.is_none());
}

#[test]
fn search_events_update_state() {
    let mut s = AppState::new();
    s.search_running = true;
    handle_event(&mut s, &AppEvent::SearchResult(vec![result("a.rs", 1, 1, "x")]));
    assert_eq!(s.results.len(), 1);
    handle_event(&mut s, &AppEvent::SearchComplete);
    assert!(!s.search_running);
    s.search_running = true;
    handle_event(&mut s, &AppEvent::SearchError("boom".to_string()));
    assert!(!s.search_running);
    assert_eq!(s.error_message.as_deref(), Some("boom"));
}

#[test]
fn page_keys_move_ten_lines() {
    let mut s = AppState::new();
    handle_event(&mut s, &AppEvent::Keystroke(KeyCode::PageDown));
    assert_eq!(s.scroll_offset, 10);
    s.scroll_offset = 4;
    handle_event(&mut s, &AppEvent::Keystroke(KeyCode::PageUp));
    assert_eq!(s.scroll_offset, 0);
}

#[test]
fn arrow_keys_move_between_files() {
    let mut s = AppState::new();
    s.file_tree = vec![entry("a"), entry("b")];
    s.scroll_offset = 3;
    handle_event(&mut s, &AppEvent::Keystroke(KeyCode::Down));
    assert_eq!(s.selected_file_index, 1);
    assert_eq!(s.scroll_offset, 0);
    handle_event(&mut s, &AppEvent::Keystroke(KeyCode::Char('j')));
    assert_eq!(s.selected_file_index, 0);
    handle_event(&mut s, &AppEvent::Keystroke(KeyCode::Char('k')));
    assert_eq!(s.selected_file_index, 1);
    handle_event(&mut s, &AppEvent::Keystroke(KeyCode::Up));
    assert_eq!(s.selected_file_index, 0);
}

#[test]
fn loop_stops_on_quit_and_counts_frames() {
    let mut s = AppState::new();
    let (cmd, go) = run_loop_step(&mut s, &AppEvent::Tick);
    assert!(cmd.is_none());
    assert!(go);
    assert_eq!(s.frame_count, 1);
    s.frame_count = u64::MAX;
    run_loop_step(&mut s, &AppEvent::Tick);
    assert_eq!(s.frame_count, 0);
    let (_, go) = run_loop_step(&mut s, &AppEvent::Keystroke(KeyCode::Esc));
    assert!(!go);
    assert!(s.should_quit);
    assert_eq!(s.frame_count, 0);
    let mut t = AppState::new();
    let (_, go) = run_loop_step(&mut t, &AppEvent::Keystroke(KeyCode::Char('q')));
    assert!(!go);
}

#[test]
fn worker_answers_a_run_with_an_empty_batch() {
    let events = worker_reply(&SearchCommand::Run("x".to_string()));
    assert_eq!(events.len(), 2);
    assert!(matches!(&events[0], AppEvent::SearchResult(v) if v.is_empty()));
    assert!(matches!(events[1], AppEvent::SearchComplete));
    assert!(worker_reply(&SearchCommand::Cancel).is_empty());
}

#[test]
fn next_then_previous_file_returns_to_selection() {
    let mut s = AppState::new();
    s.file_tree = vec![entry("a"), entry("b"), entry("c")];
    for start in 0..3 {
        s.selected_file_index = start;
        s.scroll_offset = 5;
        s.select_next();
        s.select_prev();
        assert_eq!(s.selected_file_index, start);
        assert_eq!(s.scroll_offset, 0);
        s.select_prev();
        s.select_next();
        assert_eq!(s.selected_file_index, start);
    }
}
