use gpui_gfm::code_text::{
    code_block_display_value, collect_indentation_dot_indices, expand_tabs,
    limit_indentation_dot_indices, INDENT_DOT_DISABLE_ABOVE_TEXT_LEN, INDENT_DOT_MAX_RENDER_COUNT,
};
use gpui_gfm::types::CodeBlock;

#[test]
fn strips_trailing_newline() {
    let code = CodeBlock { lang: Some("rust".into()), value: "fn main() {}\n".into() };
    assert_eq!(code_block_display_value(&code), "fn main() {}");
}

#[test]
fn expands_tabs() {
    assert_eq!(expand_tabs("\tfoo"), "    foo");
    assert_eq!(expand_tabs("a\tb"), "a   b");
    assert_eq!(expand_tabs("ab\tc"), "ab  c");
    assert_eq!(expand_tabs("abc\td"), "abc d");
    assert_eq!(expand_tabs("abcd\te"), "abcd    e");
}

#[test]
fn preserves_content_without_trailing_newline() {
    let code = CodeBlock { lang: None, value: "no newline".into() };
    assert_eq!(code_block_display_value(&code), "no newline");
}

#[test]
fn clipboard_content_matches_display() {
    let code = CodeBlock {
        lang: Some("rust".into()),
        value: "fn main() {\n\tprintln!(\"hello\");\n}\n".into(),
    };
    let display = code_block_display_value(&code);
    assert_eq!(display, "fn main() {\n    println!(\"hello\");\n}");
}

#[test]
fn indent_dots_empty_text() {
    assert!(collect_indentation_dot_indices("").is_empty());
}

#[test]
fn indent_dots_no_spaces() {
    assert!(collect_indentation_dot_indices("abc\ndef").is_empty());
}

#[test]
fn indent_dots_blank_lines_skipped() {
    let text = "   \n   \n";
    assert!(collect_indentation_dot_indices(text).is_empty());
}

#[test]
fn indent_dots_simple_indent() {
    let text = "  hello";
    let indices = collect_indentation_dot_indices(text);
    assert_eq!(indices, vec![0, 1]);
}

#[test]
fn indent_dots_multi_line() {
    let text = "fn main() {\n    println!();\n}";
    let indices = collect_indentation_dot_indices(text);
    assert_eq!(indices, vec![12, 13, 14, 15]);
}

#[test]
fn indent_dots_mixed_blank_and_content() {
    let text = "  x\n   \n  y";
    let indices = collect_indentation_dot_indices(text);
    assert_eq!(indices, vec![0, 1, 8, 9]);
}

#[test]
fn indent_dots_disabled_for_large_text() {
    let big = " ".repeat(INDENT_DOT_DISABLE_ABOVE_TEXT_LEN + 1) + "x";
    assert!(collect_indentation_dot_indices(&big).is_empty());
}

#[test]
fn indent_dots_limit_caps() {
    let mut text = String::new();
    for _ in 0..200 {
        text.push_str("      code\n");
    }
    let indices = collect_indentation_dot_indices(&text);
    assert!(indices.len() <= INDENT_DOT_MAX_RENDER_COUNT);
}

#[test]
fn limit_returns_all_when_under_max() {
    let indices = vec![0, 1, 2, 3, 4];
    assert_eq!(limit_indentation_dot_indices(indices.clone()), indices);
}

#[test]
fn tab_stops_follow_newlines_and_multibyte() {
    assert_eq!(expand_tabs("x\n\ty"), "x\n    y");
    assert_eq!(expand_tabs("é\tz"), "é   z");
}

#[test]
fn limit_samples_every_step() {
    let indices: Vec<usize> = (0..1201).collect();
    let limited = limit_indentation_dot_indices(indices);
    assert_eq!(limited.len(), 401);
    assert_eq!(limited[0], 0);
    assert_eq!(limited[1], 3);
    assert_eq!(limited[400], 1200);
}

#[test]
fn indent_dots_use_byte_offsets_and_stop_at_tabs() {
    assert_eq!(collect_indentation_dot_indices("é\n  x"), vec![3, 4]);
    assert_eq!(collect_indentation_dot_indices(" \t x"), vec![0]);
}
