use fuzz::fuzzyfinder::ui::{Event, Pick, Picker, PickerState, Row, ELEMS_TO_DISPLAY};

fn session(texts: &[&str]) -> Picker {
    Picker::new(texts.iter().map(|t| t.to_string()).collect())
}

fn type_text(p: &mut Picker, text: &str) {
    for c in text.chars() {
        p.apply(Event::AppendChar(c));
    }
}

fn texts(p: &Picker) -> Vec<String> {
    p.picks.iter().map(|x| x.element.clone()).collect()
}

fn scores(p: &Picker) -> Vec<usize> {
    p.picks.iter().map(|x| x.score).collect()
}

#[test]
fn new_session_is_running_with_empty_query() {
    let p = session(&["banana", "fig", "apple"]);
    assert_eq!(p.state, PickerState::RUNNING);
    assert!(!p.finished());
    assert_eq!(p.input, "");
    assert_eq!(p.selection, 0);
    assert_eq!(texts(&p), vec!["fig", "apple", "banana"]);
    assert_eq!(scores(&p), vec![0, 0, 0]);
}

#[test]
fn new_session_keeps_equal_lengths_in_input_order() {
    let p = session(&["bb", "a", "cc", "aa"]);
    assert_eq!(texts(&p), vec!["a", "bb", "cc", "aa"]);
}

#[test]
fn typing_ranks_the_matches_first() {
    let mut p = session(&["apple", "apply", "banana"]);
    type_text(&mut p, "app");
    assert_eq!(p.input, "app");
    assert_eq!(texts(&p), vec!["apple", "apply", "banana"]);
    assert_eq!(scores(&p), vec![48, 48, 16]);
}

#[test]
fn typing_ui_brings_ui_rs_to_the_front() {
    let mut p = session(&["main.rs", "ui.rs", "algo.rs"]);
    assert_eq!(texts(&p), vec!["ui.rs", "main.rs", "algo.rs"]);
    type_text(&mut p, "m");
    assert_eq!(texts(&p), vec!["main.rs", "ui.rs", "algo.rs"]);
    p.apply(Event::Backspace);
    type_text(&mut p, "ui");
    assert_eq!(texts(&p)[0], "ui.rs");
    assert_eq!(scores(&p), vec![32, 16, 0]);
}

#[test]
fn empty_query_orders_by_length_alone() {
    let p = session(&["a", "ab", "abc"]);
    assert_eq!(texts(&p), vec!["a", "ab", "abc"]);
    assert_eq!(scores(&p), vec![0, 0, 0]);
}

#[test]
fn backspace_removes_the_last_scalar_and_reranks() {
    let mut p = session(&["ab", "b", "a"]);
    assert_eq!(texts(&p), vec!["b", "a", "ab"]);
    type_text(&mut p, "ab");
    assert_eq!(texts(&p), vec!["ab", "a", "b"]);
    assert_eq!(scores(&p), vec![32, 16, 16]);
    p.apply(Event::Backspace);
    assert_eq!(p.input, "a");
    assert_eq!(texts(&p), vec!["a", "ab", "b"]);
    assert_eq!(scores(&p), vec![16, 16, 0]);
    p.apply(Event::Backspace);
    assert_eq!(p.input, "");
    assert_eq!(scores(&p), vec![0, 0, 0]);
    assert_eq!(texts(&p), vec!["a", "b", "ab"]);
}

#[test]
fn backspace_removes_a_whole_scalar() {
    let mut p = session(&["x"]);
    type_text(&mut p, "a\u{e9}");
    assert_eq!(p.input, "a\u{e9}");
    p.apply(Event::Backspace);
    assert_eq!(p.input, "a");
}

#[test]
fn backspace_on_empty_query_changes_nothing() {
    let mut p = session(&["pear", "fig", "apple"]);
    p.apply(Event::MoveSelectionUp);
    let order = texts(&p);
    p.apply(Event::Backspace);
    assert_eq!(p.input, "");
    assert_eq!(p.selection, 1);
    assert_eq!(texts(&p), order);
    assert_eq!(p.state, PickerState::RUNNING);
}

#[test]
fn selection_moves_up_to_the_last_candidate_and_stops() {
    let mut p = session(&["a", "bb", "ccc"]);
    let mut seen = Vec::new();
    for _ in 0..5 {
        p.apply(Event::MoveSelectionUp);
        seen.push(p.selection);
    }
    assert_eq!(seen, vec![1, 2, 2, 2, 2]);
}

#[test]
fn selection_moves_down_to_zero_and_stops() {
    let mut p = session(&["a", "bb", "ccc"]);
    p.apply(Event::MoveSelectionUp);
    p.apply(Event::MoveSelectionUp);
    let mut seen = Vec::new();
    for _ in 0..4 {
        p.apply(Event::MoveSelectionDown);
        seen.push(p.selection);
    }
    assert_eq!(seen, vec![1, 0, 0, 0]);
}

#[test]
fn selection_stays_in_range_under_any_moves() {
    let mut p = session(&["a", "bb", "ccc", "dddd"]);
    let moves = [1, 1, 0, 1, 1, 1, 1, 0, 0, 1, 0, 0, 0, 0, 0, 1, 1, 1, 1, 1, 1];
    for m in moves {
        if m == 1 {
            p.apply(Event::MoveSelectionUp);
        } else {
            p.apply(Event::MoveSelectionDown);
        }
        assert!(p.selection < 4);
    }
    assert_eq!(p.selection, 3);
}

#[test]
fn selection_of_an_empty_session_stays_zero() {
    let mut p = session(&[]);
    p.apply(Event::MoveSelectionUp);
    assert_eq!(p.selection, 0);
    p.apply(Event::MoveSelectionDown);
    assert_eq!(p.selection, 0);
    assert_eq!(p.get_selection(), None);
}

#[test]
fn a_selection_out_of_range_is_pulled_back() {
    let mut p = Picker {
        picks: vec![Pick::new("a".to_string()), Pick::new("b".to_string())],
        input: String::new(),
        state: PickerState::RUNNING,
        selection: 9,
    };
    p.apply(Event::MoveSelectionDown);
    assert_eq!(p.selection, 1);
    p.selection = usize::MAX;
    p.apply(Event::MoveSelectionUp);
    assert_eq!(p.selection, 1);
    p.selection = 7;
    p.apply(Event::AppendChar('a'));
    assert_eq!(p.selection, 1);
}

#[test]
fn an_edit_keeps_the_selection_where_it_is() {
    let mut p = session(&["apple", "fig", "banana"]);
    p.apply(Event::MoveSelectionUp);
    p.apply(Event::MoveSelectionUp);
    type_text(&mut p, "a");
    assert_eq!(p.selection, 2);
    assert_eq!(p.get_selection(), Some("fig".to_string()));
}

#[test]
fn confirm_finishes_with_the_selected_candidate() {
    let mut p = session(&["main.rs", "ui.rs", "algo.rs"]);
    type_text(&mut p, "ui");
    p.apply(Event::Confirm);
    assert_eq!(p.state, PickerState::FINISHED);
    assert!(p.finished());
    assert_eq!(p.get_selection(), Some("ui.rs".to_string()));
}

#[test]
fn confirm_after_moving_returns_the_candidate_moved_to() {
    let mut p = session(&["main.rs", "ui.rs", "algo.rs"]);
    type_text(&mut p, "ui");
    p.apply(Event::MoveSelectionUp);
    p.apply(Event::Confirm);
    assert_eq!(p.get_selection(), Some("main.rs".to_string()));
}

#[test]
fn confirm_on_an_empty_list_gives_no_selection() {
    let mut p = session(&[]);
    type_text(&mut p, "anything");
    p.apply(Event::Confirm);
    assert_eq!(p.state, PickerState::FINISHED);
    assert!(p.finished());
    assert_eq!(p.get_selection(), None);
}

#[test]
fn an_empty_candidate_is_a_selection_of_its_own() {
    let mut p = session(&["", "x"]);
    p.apply(Event::Confirm);
    assert_eq!(p.get_selection(), Some(String::new()));
}

#[test]
fn abort_gives_no_selection() {
    let mut p = session(&["a", "b"]);
    p.apply(Event::Abort);
    assert_eq!(p.state, PickerState::ABORTED);
    assert!(p.finished());
    assert_eq!(p.get_selection(), None);
}

#[test]
fn a_running_session_reports_the_candidate_under_the_selection() {
    let mut p = session(&["a", "bb"]);
    assert_eq!(p.get_selection(), Some("a".to_string()));
    p.apply(Event::MoveSelectionUp);
    assert_eq!(p.get_selection(), Some("bb".to_string()));
}

#[test]
fn a_finished_session_ignores_events() {
    let mut p = session(&["apple", "fig"]);
    type_text(&mut p, "a");
    p.apply(Event::Confirm);
    let order = texts(&p);
    let values = scores(&p);
    for e in [
        Event::AppendChar('p'),
        Event::Backspace,
        Event::MoveSelectionUp,
        Event::MoveSelectionDown,
        Event::Abort,
        Event::Confirm,
    ] {
        p.apply(e);
    }
    assert_eq!(p.state, PickerState::FINISHED);
    assert_eq!(p.input, "a");
    assert_eq!(p.selection, 0);
    assert_eq!(texts(&p), order);
    assert_eq!(scores(&p), values);
}

#[test]
fn an_aborted_session_ignores_events() {
    let mut p = session(&["apple", "fig"]);
    p.apply(Event::Abort);
    p.apply(Event::Confirm);
    p.apply(Event::AppendChar('x'));
    assert_eq!(p.state, PickerState::ABORTED);
    assert_eq!(p.input, "");
}

#[test]
fn the_window_is_as_wide_as_a_signed_word() {
    assert_eq!(ELEMS_TO_DISPLAY, 2147483647);
}

#[test]
fn render_lists_the_best_candidate_just_above_the_prompt() {
    let mut p = session(&["a", "bb", "ccc"]);
    p.apply(Event::MoveSelectionUp);
    let rows = p.render(24);
    assert_eq!(
        rows,
        vec![
            Row { line: 22, index: 0, selected: false },
            Row { line: 21, index: 1, selected: true },
            Row { line: 20, index: 2, selected: false },
        ]
    );
}

#[test]
fn render_stops_at_the_top_of_the_screen() {
    let p = session(&["a", "b", "c", "d", "e", "f"]);
    let rows = p.render(4);
    assert_eq!(
        rows,
        vec![
            Row { line: 2, index: 0, selected: true },
            Row { line: 1, index: 1, selected: false },
            Row { line: 0, index: 2, selected: false },
        ]
    );
}

#[test]
fn render_is_empty_without_room_or_candidates() {
    let p = session(&["a", "b"]);
    assert_eq!(p.render(1), Vec::new());
    assert_eq!(p.render(0), Vec::new());
    assert_eq!(p.render(-3), Vec::new());
    assert_eq!(p.render(2).len(), 1);
    assert_eq!(session(&[]).render(24), Vec::new());
}
