use gpui_gfm::selection::{
    clamp_to_char_boundary, line_range_at, selection_run_pieces, word_range_at, DetailsState,
    RunPiece, SelectionMode, SelectionState,
};

#[test]
fn details_state_default_closed() {
    let mut state = DetailsState::default();
    assert!(!state.is_open(0, false));
}

#[test]
fn details_state_default_open() {
    let mut state = DetailsState::default();
    assert!(state.is_open(0, true));
}

#[test]
fn details_state_toggle() {
    let mut state = DetailsState::default();
    assert!(!state.is_open(0, false));
    state.toggle(0, false);
    assert!(state.is_open(0, false));
    state.toggle(0, false);
    assert!(!state.is_open(0, false));
}

#[test]
fn details_state_toggle_from_open() {
    let mut state = DetailsState::default();
    assert!(state.is_open(0, true));
    state.toggle(0, true);
    assert!(!state.is_open(0, true));
}

#[test]
fn details_state_independent_ids() {
    let mut state = DetailsState::default();
    state.toggle(0, false);
    assert!(state.is_open(0, false));
    assert!(!state.is_open(1, false));
}

#[test]
fn details_state_counter_increments() {
    let mut state = DetailsState::default();
    assert_eq!(state.next_id(), 0);
    assert_eq!(state.next_id(), 1);
    assert_eq!(state.next_id(), 2);
}

#[test]
fn details_state_counter_resets() {
    let mut state = DetailsState::default();
    assert_eq!(state.next_id(), 0);
    assert_eq!(state.next_id(), 1);
    state.reset_counter();
    assert_eq!(state.next_id(), 0);
}

#[test]
fn details_state_persists_across_resets() {
    let mut state = DetailsState::default();
    let id = state.next_id();
    state.toggle(id, false);
    assert!(state.is_open(id, false));
    state.reset_counter();
    assert!(state.is_open(0, false));
}

#[test]
fn details_state_records_first_default() {
    let mut state = DetailsState::default();
    assert!(state.is_open(3, true));
    assert!(state.is_open(3, false));
}

#[test]
fn clamp_ascii() {
    assert_eq!(clamp_to_char_boundary("hello", 0), 0);
    assert_eq!(clamp_to_char_boundary("hello", 3), 3);
    assert_eq!(clamp_to_char_boundary("hello", 5), 5);
}

#[test]
fn clamp_beyond_length() {
    assert_eq!(clamp_to_char_boundary("hi", 10), 2);
}

#[test]
fn clamp_multibyte() {
    let text = "aé";
    assert_eq!(clamp_to_char_boundary(text, 0), 0);
    assert_eq!(clamp_to_char_boundary(text, 1), 1);
    assert_eq!(clamp_to_char_boundary(text, 2), 1);
    assert_eq!(clamp_to_char_boundary(text, 3), 3);
}

#[test]
fn clamp_emoji() {
    let text = "🦀";
    assert_eq!(clamp_to_char_boundary(text, 0), 0);
    assert_eq!(clamp_to_char_boundary(text, 1), 0);
    assert_eq!(clamp_to_char_boundary(text, 2), 0);
    assert_eq!(clamp_to_char_boundary(text, 3), 0);
    assert_eq!(clamp_to_char_boundary(text, 4), 4);
}

#[test]
fn clamp_empty_string() {
    assert_eq!(clamp_to_char_boundary("", 0), 0);
    assert_eq!(clamp_to_char_boundary("", 5), 0);
}

#[test]
fn selection_state_default() {
    let state = SelectionState::default();
    assert!(!state.is_dragging());
    assert!(state.selection_for(0).is_none());
    assert!(state.selection_range_for(0, "hello").is_none());
}

#[test]
fn selection_state_counter() {
    let mut state = SelectionState::default();
    assert_eq!(state.next_text_id(), 0);
    assert_eq!(state.next_text_id(), 1);
    state.reset_counter();
    assert_eq!(state.next_text_id(), 0);
}

#[test]
fn selection_state_update_and_query() {
    let mut state = SelectionState::default();
    state.update(0, 2, 5, true);
    assert!(state.is_dragging());
    let sel = state.selection_for(0).unwrap();
    assert_eq!(sel.anchor, 2);
    assert_eq!(sel.head, 5);
    assert!(sel.dragging);
    assert!(state.selection_for(1).is_none());
}

#[test]
fn selection_state_range() {
    let mut state = SelectionState::default();
    state.update(0, 2, 5, false);
    assert_eq!(state.selection_range_for(0, "hello world"), Some(2..5));
    state.update(0, 5, 2, false);
    assert_eq!(state.selection_range_for(0, "hello world"), Some(2..5));
}

#[test]
fn selection_state_empty_range() {
    let mut state = SelectionState::default();
    state.update(0, 3, 3, false);
    assert!(state.selection_range_for(0, "hello").is_none());
}

#[test]
fn selection_state_selected_text() {
    let mut state = SelectionState::default();
    state.update(0, 6, 11, false);
    assert_eq!(state.selected_text(0, "hello world"), Some("world".to_string()));
}

#[test]
fn selection_state_clear() {
    let mut state = SelectionState::default();
    state.update(0, 0, 5, true);
    assert!(state.is_dragging());
    state.clear();
    assert!(!state.is_dragging());
    assert!(state.selection_for(0).is_none());
}

#[test]
fn selection_mode_kept_within_block_and_reset_across() {
    let mut state = SelectionState::default();
    state.update_with_mode(1, 0, 3, true, SelectionMode::Word, Some(0..3));
    state.update(1, 0, 7, true);
    let sel = state.selection_for(1).unwrap();
    assert_eq!(sel.mode, SelectionMode::Word);
    assert_eq!(sel.initial_range, Some(0..3));
    state.update(2, 0, 1, false);
    let sel = state.selection_for(2).unwrap();
    assert_eq!(sel.mode, SelectionMode::Char);
    assert_eq!(sel.initial_range, None);
}

#[test]
fn selection_snaps_to_char_boundaries() {
    let mut state = SelectionState::default();
    state.update(0, 2, 40, false);
    assert_eq!(state.selection_range_for(0, "aéb"), Some(1..4));
    assert_eq!(state.selected_text(0, "aéb"), Some("éb".to_string()));
}

fn piece(run: usize, len: usize, selected: bool) -> RunPiece {
    RunPiece { run, len, selected }
}

#[test]
fn apply_selection_no_overlap() {
    let result = selection_run_pieces(&[5], 10..15);
    assert_eq!(result, vec![piece(0, 5, false)]);
}

#[test]
fn apply_selection_full_overlap() {
    let result = selection_run_pieces(&[5], 0..5);
    assert_eq!(result, vec![piece(0, 5, true)]);
}

#[test]
fn apply_selection_partial_overlap_start() {
    let result = selection_run_pieces(&[10], 0..3);
    assert_eq!(result, vec![piece(0, 3, true), piece(0, 7, false)]);
}

#[test]
fn apply_selection_partial_overlap_middle() {
    let result = selection_run_pieces(&[10], 3..7);
    assert_eq!(result, vec![piece(0, 3, false), piece(0, 4, true), piece(0, 3, false)]);
}

#[test]
fn apply_selection_across_multiple_runs() {
    let result = selection_run_pieces(&[5, 5], 3..8);
    assert_eq!(
        result,
        vec![piece(0, 3, false), piece(0, 2, true), piece(1, 3, true), piece(1, 2, false)]
    );
}

#[test]
fn word_range_simple() {
    assert_eq!(word_range_at("hello world", 0), 0..5);
    assert_eq!(word_range_at("hello world", 2), 0..5);
    assert_eq!(word_range_at("hello world", 4), 0..5);
    assert_eq!(word_range_at("hello world", 6), 6..11);
}

#[test]
fn word_range_on_space() {
    assert_eq!(word_range_at("hello world", 5), 5..6);
}

#[test]
fn word_range_with_underscore() {
    assert_eq!(word_range_at("foo_bar baz", 2), 0..7);
}

#[test]
fn word_range_at_end() {
    assert_eq!(word_range_at("hello", 5), 5..5);
}

#[test]
fn word_range_multibyte() {
    let text = "café lait";
    assert_eq!(word_range_at(text, 0), 0..5);
    assert_eq!(word_range_at(text, 6), 6..10);
}

#[test]
fn word_range_punctuation() {
    assert_eq!(word_range_at("a.b", 1), 1..2);
}

#[test]
fn word_range_inside_multibyte_char() {
    assert_eq!(word_range_at("x 🦀 y", 3), 2..6);
    assert_eq!(word_range_at("café", 4), 0..5);
}

#[test]
fn line_range_single_line() {
    assert_eq!(line_range_at("hello world", 3), 0..11);
}

#[test]
fn line_range_multi_line() {
    let text = "first\nsecond\nthird";
    assert_eq!(line_range_at(text, 0), 0..5);
    assert_eq!(line_range_at(text, 3), 0..5);
    assert_eq!(line_range_at(text, 6), 6..12);
    assert_eq!(line_range_at(text, 13), 13..18);
}

#[test]
fn line_range_at_newline() {
    let text = "abc\ndef";
    assert_eq!(line_range_at(text, 3), 0..3);
}

#[test]
fn line_range_at_end() {
    assert_eq!(line_range_at("abc\n", 4), 4..4);
}

#[test]
fn run_pieces_cover_runs_and_selection() {
    let lens = [4usize, 0, 7, 3];
    for (s, e) in [(0usize, 0usize), (2, 9), (0, 14), (5, 20), (11, 12), (30, 40)] {
        let pieces = selection_run_pieces(&lens, s..e);
        let total: usize = pieces.iter().map(|p| p.len).sum();
        assert_eq!(total, 14);
        let selected: usize = pieces.iter().filter(|p| p.selected).map(|p| p.len).sum();
        let hi = e.min(14);
        let lo = s.min(hi);
        assert_eq!(selected, hi - lo);
    }
}
