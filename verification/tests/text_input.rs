use gpui_gfm::text_input::{last_grapheme_start, second_grapheme_stop};
use gpui_gfm::text_input::{
    line_end_offset, line_start_offset, next_boundary, next_word_boundary, offset_above,
    offset_below, offset_from_utf16, offset_to_row_col, offset_to_utf16, previous_boundary,
    previous_word_boundary, row_col_to_offset, splice_text, InputSelection,
};
use gpui_gfm::text_input::{cursor_row_col, selection_line_spans, LineSpan};

#[test]
fn line_offsets_around_newlines() {
    let text = "ab\ncd\n\nef";
    assert_eq!(line_start_offset(text, 4), 3);
    assert_eq!(line_end_offset(text, 4), 5);
    assert_eq!(line_start_offset(text, 0), 0);
    assert_eq!(line_end_offset(text, 0), 2);
    assert_eq!(line_start_offset(text, 6), 6);
    assert_eq!(line_end_offset(text, 6), 6);
    assert_eq!(line_end_offset(text, 9), 9);
}

#[test]
fn word_boundaries_skip_separators() {
    let text = "hello, world  foo";
    assert_eq!(previous_word_boundary(text, 12), 7);
    assert_eq!(previous_word_boundary(text, 7), 0);
    assert_eq!(previous_word_boundary(text, 0), 0);
    assert_eq!(next_word_boundary(text, 0), 7);
    assert_eq!(next_word_boundary(text, 7), 14);
    assert_eq!(next_word_boundary(text, 14), 17);
    assert_eq!(next_word_boundary(text, 40), 17);
}

#[test]
fn word_boundaries_multibyte() {
    let text = "héllo wörld";
    assert_eq!(next_word_boundary(text, 0), 7);
    assert_eq!(previous_word_boundary(text, text.len()), 7);
}

#[test]
fn grapheme_boundaries() {
    let text = "ae\u{301}b";
    assert_eq!(next_boundary(text, 0), 1);
    assert_eq!(next_boundary(text, 1), 4);
    assert_eq!(previous_boundary(text, 4), 1);
    assert_eq!(previous_boundary(text, 1), 0);
    assert_eq!(previous_boundary(text, 0), 0);
    assert_eq!(next_boundary(text, 5), 5);
}

#[test]
fn grapheme_boundaries_at_newlines() {
    let text = "a\nb";
    assert_eq!(next_boundary(text, 1), 2);
    assert_eq!(previous_boundary(text, 2), 1);
    assert_eq!(next_boundary(text, 2), 3);
}

#[test]
fn row_col_round_trip() {
    let text = "ab\ncde\nf";
    assert_eq!(offset_to_row_col(text, 0), (0, 0));
    assert_eq!(offset_to_row_col(text, 4), (1, 1));
    assert_eq!(offset_to_row_col(text, 7), (2, 0));
    assert_eq!(offset_to_row_col(text, 100), (2, 1));
    assert_eq!(row_col_to_offset(text, 1, 1), 4);
    assert_eq!(row_col_to_offset(text, 1, 10), 6);
    assert_eq!(row_col_to_offset(text, 2, 0), 7);
    assert_eq!(row_col_to_offset(text, 3, 0), text.len());
}

#[test]
fn utf16_conversions() {
    let text = "a😀b";
    assert_eq!(offset_to_utf16(text, 0), 0);
    assert_eq!(offset_to_utf16(text, 1), 1);
    assert_eq!(offset_to_utf16(text, 5), 3);
    assert_eq!(offset_to_utf16(text, 6), 4);
    assert_eq!(offset_from_utf16(text, 1), 1);
    assert_eq!(offset_from_utf16(text, 3), 5);
    assert_eq!(offset_from_utf16(text, 4), 6);
    assert_eq!(offset_from_utf16(text, 9), 6);
}

#[test]
fn select_to_swaps_when_dragging_backwards() {
    let mut sel = InputSelection { range: 5..5, reversed: false };
    sel.select_to(8);
    assert_eq!(sel.range, 5..8);
    assert_eq!(sel.cursor_offset(), 8);
    sel.select_to(2);
    assert_eq!(sel.range, 2..5);
    assert!(sel.reversed);
    assert_eq!(sel.cursor_offset(), 2);
    sel.move_to(3);
    assert_eq!(sel.range, 3..3);
}

#[test]
fn row_col_and_utf16_round_trips() {
    let text = "ab\nc😀d\n\né";
    for (o, _) in text.char_indices().chain(std::iter::once((text.len(), ' '))) {
        let (row, col) = offset_to_row_col(text, o);
        assert_eq!(row_col_to_offset(text, row, col), o);
        assert_eq!(offset_from_utf16(text, offset_to_utf16(text, o)), o);
    }
}

#[test]
fn boundaries_move_the_cursor() {
    let text = "one two\nthree";
    for (o, _) in text.char_indices() {
        assert!(previous_word_boundary(text, o) <= o);
        assert!(next_word_boundary(text, o) >= o);
        assert!(next_boundary(text, o) > o);
        if o > 0 {
            assert!(previous_boundary(text, o) < o);
        }
    }
}

#[test]
fn vertical_moves_keep_the_column() {
    let text = "abcd\nx\nlonger";
    assert_eq!(offset_above(text, 7), 5);
    assert_eq!(offset_above(text, 3), 0);
    assert_eq!(offset_below(text, 3), 6);
    assert_eq!(offset_below(text, 6), 8);
    assert_eq!(offset_below(text, 10), text.len());
    assert_eq!(offset_above(text, 12), 6);
}

#[test]
fn splice_replaces_a_byte_range() {
    assert_eq!(splice_text("hello world", 6, 11, "there"), "hello there");
    assert_eq!(splice_text("héllo", 1, 3, "e"), "hello");
    assert_eq!(splice_text("abc", 3, 3, "!"), "abc!");
    assert_eq!(splice_text("abc", 0, 3, ""), "");
}

#[test]
fn cursor_position_on_laid_out_lines() {
    // "ab\ncde\n" has lines of 2, 3 and 0 bytes.
    let lens = [2usize, 3, 0];
    assert_eq!(cursor_row_col(&lens, 0), (0, 0));
    assert_eq!(cursor_row_col(&lens, 2), (0, 2));
    assert_eq!(cursor_row_col(&lens, 3), (1, 0));
    assert_eq!(cursor_row_col(&lens, 6), (1, 3));
    assert_eq!(cursor_row_col(&lens, 7), (2, 0));
    assert_eq!(cursor_row_col(&lens, 50), (2, 0));
}

#[test]
fn selection_spans_per_line() {
    let lens = [2usize, 3, 4];
    assert_eq!(selection_line_spans(&lens, 4, 4), vec![]);
    assert_eq!(
        selection_line_spans(&lens, 1, 5),
        vec![
            LineSpan { row: 0, from: 1, to: 2, past_end: false },
            LineSpan { row: 1, from: 0, to: 2, past_end: false },
        ]
    );
    assert_eq!(
        selection_line_spans(&lens, 2, 4),
        vec![
            LineSpan { row: 0, from: 2, to: 2, past_end: true },
            LineSpan { row: 1, from: 0, to: 1, past_end: false },
        ]
    );
}

#[test]
fn grapheme_stops_from_offsets() {
    assert_eq!(last_grapheme_start(&[]), 0);
    assert_eq!(last_grapheme_start(&[0, 1, 4]), 4);
    assert_eq!(second_grapheme_stop(3, &[0, 2, 5], 9), 5);
    assert_eq!(second_grapheme_stop(3, &[0], 9), 9);
}
