use gpui_gfm::types::{table_column_count, Table};
use gpui_gfm::types::{Block, Details, List, ListItem};
use gpui_gfm::types::{inline_to_plain_text, merge_adjacent_text, Inline};

#[test]
fn inline_to_plain_text_basic() {
    let inlines = vec![
        Inline::Text("Hello ".into()),
        Inline::Strong(vec![Inline::Text("world".into())]),
        Inline::Text("!".into()),
    ];
    assert_eq!(inline_to_plain_text(&inlines), "Hello world!");
}

#[test]
fn inline_to_plain_text_with_breaks() {
    let inlines = vec![Inline::Text("line1".into()), Inline::HardBreak, Inline::Text("line2".into())];
    assert_eq!(inline_to_plain_text(&inlines), "line1\nline2");
}

#[test]
fn merge_adjacent_text_nodes() {
    let inlines = vec![
        Inline::Text("a".into()),
        Inline::Text("b".into()),
        Inline::Code("c".into()),
        Inline::Text("d".into()),
    ];
    let merged = merge_adjacent_text(inlines);
    assert_eq!(
        merged,
        vec![Inline::Text("ab".into()), Inline::Code("c".into()), Inline::Text("d".into())]
    );
}

#[test]
fn plain_text_of_image_is_alt_and_soft_break_is_space() {
    let inlines = vec![
        Inline::Image {
            url: "u".into(),
            title: None,
            alt: "pic".into(),
            width: None,
            height: None,
            dark_url: None,
            light_url: None,
        },
        Inline::SoftBreak,
        Inline::Code("c".into()),
    ];
    assert_eq!(inline_to_plain_text(&inlines), "pic c");
}

#[test]
fn merging_keeps_plain_text() {
    let inlines = vec![
        Inline::Text("x".into()),
        Inline::Text("y".into()),
        Inline::Emphasis(vec![Inline::Text("z".into())]),
    ];
    let before = inline_to_plain_text(&inlines);
    let merged = merge_adjacent_text(inlines);
    assert_eq!(inline_to_plain_text(&merged), before);
}

#[test]
fn merged_inlines_have_no_neighbouring_texts() {
    let input = vec![
        Inline::Text("a".into()),
        Inline::Text("b".into()),
        Inline::SoftBreak,
        Inline::Text("c".into()),
        Inline::Code("d".into()),
        Inline::Text("e".into()),
        Inline::Text("f".into()),
    ];
    let merged = merge_adjacent_text(input);
    assert_eq!(
        merged,
        vec![
            Inline::Text("ab".into()),
            Inline::SoftBreak,
            Inline::Text("c".into()),
            Inline::Code("d".into()),
            Inline::Text("ef".into()),
        ]
    );
}

#[test]
fn table_column_count_takes_widest_row() {
    let cell = || vec![Inline::Text("x".into())];
    let t = Table { headers: vec![cell(), cell()], rows: vec![vec![cell()], vec![cell(), cell(), cell()]] };
    assert_eq!(table_column_count(&t), 3);
    let empty = Table { headers: vec![], rows: vec![] };
    assert_eq!(table_column_count(&empty), 1);
    let rows_only = Table { headers: vec![], rows: vec![vec![], vec![cell()]] };
    assert_eq!(table_column_count(&rows_only), 1);
}

#[test]
fn blocks_clone_equal() {
    let b = Block::Details(Details {
        summary: vec![Inline::Text("s".into())],
        blocks: vec![Block::List(List {
            ordered: true,
            start: Some(3),
            items: vec![ListItem { blocks: vec![Block::ThematicBreak], checked: Some(true) }],
        })],
        open: true,
    });
    assert_eq!(b.clone(), b);
}
