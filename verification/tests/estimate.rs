use gpui_gfm::estimate::{estimate_inline_lines, estimate_text_lines, estimate_wrapped_text_lines};
use gpui_gfm::types::Inline;

#[test]
fn wrapping_increases_line_count() {
    let short = estimate_wrapped_text_lines("hello", 80);
    let long = estimate_wrapped_text_lines(&"x".repeat(200), 80);
    assert_eq!(short, 1);
    assert!(long > 1);
}

#[test]
fn wrapped_lines_round_up() {
    assert_eq!(estimate_wrapped_text_lines(&"x".repeat(200), 80), 3);
    assert_eq!(estimate_wrapped_text_lines(&"x".repeat(160), 80), 2);
    assert_eq!(estimate_wrapped_text_lines("", 80), 1);
    assert_eq!(estimate_wrapped_text_lines("abc", 0), 3);
}

#[test]
fn text_lines_sum_each_line() {
    assert_eq!(estimate_text_lines("", 10), 1);
    assert_eq!(estimate_text_lines("ab\ncd", 10), 2);
    assert_eq!(estimate_text_lines(&format!("{}\n\n", "x".repeat(25)), 10), 5);
}

#[test]
fn inline_lines_use_plain_text() {
    let inlines = vec![
        Inline::Text("line1".into()),
        Inline::HardBreak,
        Inline::Text("line2".into()),
    ];
    assert_eq!(estimate_inline_lines(&inlines, 80), 2);
    assert_eq!(estimate_inline_lines(&[], 80), 1);
}
