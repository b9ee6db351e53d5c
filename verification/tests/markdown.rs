use gpui_gfm::markdown::{comrak_options, parse_comrak};
use gpui_gfm::types::{inline_to_plain_text, Block, Inline};

#[test]
fn comrak_options_enables_gfm() {
    let opts = comrak_options();
    assert!(opts.strikethrough);
    assert!(opts.table);
    assert!(opts.tasklist);
    assert!(opts.autolink);
    assert!(opts.tagfilter);
    assert!(opts.smart);
}

#[test]
fn parse_simple_paragraph() {
    let blocks = parse_comrak("Hello world");
    assert_eq!(blocks.len(), 1);
    match &blocks[0] {
        Block::Paragraph(inlines) => {
            assert_eq!(inline_to_plain_text(inlines), "Hello world");
        }
        _ => panic!("expected paragraph"),
    }
}

#[test]
fn parse_table_headers_and_rows() {
    let md = "| H1 | H2 |\n|---|---|\n| a | b |\n| c | d |";
    let blocks = parse_comrak(md);
    assert_eq!(blocks.len(), 1);
    match &blocks[0] {
        Block::Table(table) => {
            assert_eq!(table.headers.len(), 2);
            assert_eq!(table.rows.len(), 2);
            assert_eq!(inline_to_plain_text(&table.headers[0]), "H1");
        }
        _ => panic!("expected table"),
    }
}

#[test]
fn parse_centered_div() {
    let md = "<div align=\"center\">\n\n**centered bold**\n\n</div>";
    let blocks = parse_comrak(md);
    assert!(
        blocks.iter().any(|b| matches!(b, Block::Aligned { center: true, .. })),
        "expected centered aligned block, got: {blocks:?}"
    );
}

#[test]
fn html_comment_filtered() {
    let blocks = parse_comrak("<!-- this is a comment -->");
    assert!(blocks.is_empty(), "comment should produce no blocks");
}

#[test]
fn unclosed_centered_div_still_emits_its_blocks() {
    let md = "<div align=\"center\">\n\ninside\n";
    let blocks = parse_comrak(md);
    assert_eq!(blocks.len(), 1);
    match &blocks[0] {
        Block::Aligned { center: true, blocks } => {
            assert!(matches!(&blocks[0], Block::Paragraph(_)));
        }
        other => panic!("expected centered block, got {other:?}"),
    }
}

#[test]
fn link_title_and_image_alt() {
    let blocks = parse_comrak("[a](u \"t\") ![*al* t](i.png)");
    match &blocks[0] {
        Block::Paragraph(inlines) => {
            assert!(matches!(&inlines[0], Inline::Link { url, title: Some(t), .. } if url == "u" && t == "t"));
            assert!(inlines.iter().any(|i| matches!(i, Inline::Image { alt, title: None, .. } if alt == "al t")));
        }
        other => panic!("expected paragraph, got {other:?}"),
    }
}

#[test]
fn code_block_language_is_first_word() {
    let blocks = parse_comrak("```rust ignore\nx\n```\n\n```\ny\n```");
    match (&blocks[0], &blocks[1]) {
        (Block::CodeBlock(a), Block::CodeBlock(b)) => {
            assert_eq!(a.lang.as_deref(), Some("rust"));
            assert_eq!(a.value, "x\n");
            assert!(b.lang.is_none());
        }
        other => panic!("expected code blocks, got {other:?}"),
    }
}
