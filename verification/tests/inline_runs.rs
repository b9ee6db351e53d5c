use gpui_gfm::inline_runs::{link_at, LinkSpan};
use gpui_gfm::images::extract_block_image;
use gpui_gfm::inline_runs::{
    collect_segments, flatten_inlines, inlines_contain_image, join_segments, InlineContext,
    InlineSegment, StyledRun,
};
use gpui_gfm::types::Inline;

fn text(s: &str) -> Inline {
    Inline::Text(s.to_string())
}

fn image(url: &str, alt: &str, dark: Option<&str>) -> Inline {
    Inline::Image {
        url: url.to_string(),
        title: None,
        alt: alt.to_string(),
        width: Some("20".to_string()),
        height: None,
        dark_url: dark.map(|d| d.to_string()),
        light_url: None,
    }
}

fn style(bold: bool, code: bool, link: bool) -> InlineContext {
    InlineContext { bold, italic: false, strikethrough: false, code, link }
}

#[test]
fn flatten_gives_text_and_runs() {
    let inlines = vec![
        text("a"),
        Inline::Strong(vec![text("bc")]),
        Inline::SoftBreak,
        Inline::Code("x".to_string()),
        text(""),
        image("p.png", "pic", None),
        Inline::Link { url: "u".to_string(), title: None, content: vec![text("é")] },
    ];
    let mut out = String::new();
    let mut runs = Vec::new();
    flatten_inlines(&inlines, &mut out, &mut runs, InlineContext::default());
    assert_eq!(out, "abc xpicé");
    assert_eq!(
        runs,
        vec![
            StyledRun { len: 1, style: style(false, false, false) },
            StyledRun { len: 2, style: style(true, false, false) },
            StyledRun { len: 1, style: style(false, false, false) },
            StyledRun { len: 1, style: style(false, true, false) },
            StyledRun { len: 3, style: style(false, false, false) },
            StyledRun { len: 2, style: style(false, false, true) },
        ]
    );
    let total: usize = runs.iter().map(|r| r.len).sum();
    assert_eq!(total, out.len());
}

#[test]
fn segments_split_at_links() {
    let inlines = vec![
        text("see "),
        Inline::Link { url: "docs".to_string(), title: None, content: vec![text("here")] },
        text("!"),
    ];
    let segs = collect_segments(&inlines, Some("https://x.y/"), false);
    assert_eq!(segs.len(), 3);
    match &segs[0] {
        InlineSegment::Text { text, runs } => {
            assert_eq!(text, "see ");
            assert_eq!(runs, &vec![StyledRun { len: 4, style: style(false, false, false) }]);
        }
        other => panic!("unexpected {other:?}"),
    }
    match &segs[1] {
        InlineSegment::Link { text, runs, url } => {
            assert_eq!(text, "here");
            assert_eq!(url, "https://x.y/docs");
            assert_eq!(runs, &vec![StyledRun { len: 4, style: style(false, false, true) }]);
        }
        other => panic!("unexpected {other:?}"),
    }
    match &segs[2] {
        InlineSegment::Text { text, runs } => {
            assert_eq!(text, "!");
            assert_eq!(runs.len(), 1);
        }
        other => panic!("unexpected {other:?}"),
    }
}

#[test]
fn segments_theme_images() {
    let inlines = vec![image("a.png", "A", Some(" d.png "))];
    let segs = collect_segments(&inlines, None, true);
    assert_eq!(segs.len(), 1);
    match &segs[0] {
        InlineSegment::Image { url, alt, width, height } => {
            assert_eq!(url, "d.png");
            assert_eq!(alt, "A");
            assert_eq!(width.as_deref(), Some("20"));
            assert_eq!(height, &None);
        }
        other => panic!("unexpected {other:?}"),
    }
    let light = collect_segments(&inlines, Some("/base/"), false);
    match &light[0] {
        InlineSegment::Image { url, .. } => assert_eq!(url, "/base/a.png"),
        other => panic!("unexpected {other:?}"),
    }
}

#[test]
fn segments_image_inside_link_splits_the_link() {
    let inlines = vec![Inline::Link {
        url: "u".to_string(),
        title: None,
        content: vec![image("i.png", "", None), text("t")],
    }];
    let segs = collect_segments(&inlines, None, false);
    assert_eq!(segs.len(), 4);
    assert!(matches!(&segs[0], InlineSegment::Link { text, url, .. } if text.is_empty() && url == "u"));
    assert!(matches!(&segs[1], InlineSegment::Image { url, .. } if url == "i.png"));
    assert!(matches!(&segs[2], InlineSegment::Link { text, url, .. } if text == "t" && url.is_empty()));
    assert!(matches!(&segs[3], InlineSegment::Text { text, runs } if text.is_empty() && runs.is_empty()));
}

#[test]
fn block_image_parts() {
    let plain = vec![image("a.png", "A", Some("d.png"))];
    let data = extract_block_image(&plain).unwrap();
    assert_eq!(data.url, "a.png");
    assert_eq!(data.alt, "A");
    assert_eq!(data.width, Some("20"));
    assert_eq!(data.dark_url, Some("d.png"));
    assert_eq!(data.link_url, None);

    let linked = vec![Inline::Link {
        url: "https://x".to_string(),
        title: None,
        content: vec![image("b.png", "B", None)],
    }];
    let data = extract_block_image(&linked).unwrap();
    assert_eq!(data.url, "b.png");
    assert_eq!(data.link_url, Some("https://x"));

    assert!(extract_block_image(&[text("x")]).is_none());
    assert!(extract_block_image(&[image("a", "", None), image("b", "", None)]).is_none());
}

#[test]
fn join_segments_records_link_ranges() {
    let inlines = vec![
        text("a "),
        Inline::Link { url: "u".to_string(), title: None, content: vec![text("bé")] },
        image("i.png", "", None),
        text(" c"),
    ];
    let segs = collect_segments(&inlines, None, false);
    let (joined, runs, links) = join_segments(&segs);
    assert_eq!(joined, "a bé c");
    assert_eq!(links.len(), 1);
    assert_eq!(links[0].range, 2..5);
    assert_eq!(links[0].url, "u");
    let total: usize = runs.iter().map(|r| r.len).sum();
    assert_eq!(total, joined.len());
}

#[test]
fn image_detection_is_recursive() {
    assert!(!inlines_contain_image(&[text("a"), Inline::Strong(vec![text("b")])]));
    assert!(inlines_contain_image(&[
        text("a"),
        Inline::Emphasis(vec![Inline::Link {
            url: "u".to_string(),
            title: None,
            content: vec![image("x", "", None)],
        }]),
    ]));
    assert!(inlines_contain_image(&[image("x", "", None)]));
}

#[test]
fn runs_cover_flattened_and_joined_text() {
    let inlines = vec![
        text("α "),
        Inline::Strikethrough(vec![text("β"), Inline::HardBreak]),
        Inline::Link {
            url: "u".to_string(),
            title: None,
            content: vec![Inline::Code("γδ".to_string()), image("i", "alt", None)],
        },
        text(""),
    ];
    let mut out = String::new();
    let mut runs = Vec::new();
    flatten_inlines(&inlines, &mut out, &mut runs, InlineContext::default());
    assert_eq!(runs.iter().map(|r| r.len).sum::<usize>(), out.len());

    let segs = collect_segments(&inlines, None, false);
    for seg in &segs {
        match seg {
            InlineSegment::Text { text, runs } | InlineSegment::Link { text, runs, .. } => {
                assert_eq!(runs.iter().map(|r| r.len).sum::<usize>(), text.len());
            }
            InlineSegment::Image { .. } => {}
        }
    }
    let (joined, jruns, _) = join_segments(&segs);
    assert_eq!(jruns.iter().map(|r| r.len).sum::<usize>(), joined.len());
}

fn non_empty(segments: &[InlineSegment]) -> Vec<&InlineSegment> {
    segments
        .iter()
        .filter(|s| match s {
            InlineSegment::Text { text, .. } => !text.is_empty(),
            InlineSegment::Link { text, .. } => !text.is_empty(),
            InlineSegment::Image { .. } => true,
        })
        .collect()
}

#[test]
fn segments_plain_text_only() {
    let inlines = vec![Inline::Text("Hello world".into())];
    let segments = collect_segments(&inlines, None, true);
    let ne = non_empty(&segments);
    assert_eq!(ne.len(), 1);
    assert!(matches!(ne[0], InlineSegment::Text { text, .. } if text == "Hello world"));
}

#[test]
fn segments_link_produces_three_segments() {
    let inlines = vec![
        Inline::Text("before ".into()),
        Inline::Link {
            url: "https://example.com".into(),
            title: None,
            content: vec![Inline::Text("click".into())],
        },
        Inline::Text(" after".into()),
    ];
    let segments = collect_segments(&inlines, None, true);
    let ne = non_empty(&segments);

    assert_eq!(ne.len(), 3);
    assert!(matches!(ne[0], InlineSegment::Text { text, .. } if text == "before "));
    assert!(
        matches!(ne[1], InlineSegment::Link { text, url, .. } if text == "click" && url == "https://example.com")
    );
    assert!(matches!(ne[2], InlineSegment::Text { text, .. } if text == " after"));
}

#[test]
fn segments_link_with_bold_content() {
    let inlines = vec![Inline::Link {
        url: "https://example.com".into(),
        title: None,
        content: vec![Inline::Strong(vec![Inline::Text("bold link".into())])],
    }];
    let segments = collect_segments(&inlines, None, true);
    let ne = non_empty(&segments);

    assert_eq!(ne.len(), 1);
    assert!(
        matches!(ne[0], InlineSegment::Link { text, url, .. } if text == "bold link" && url == "https://example.com")
    );
}

#[test]
fn segments_multiple_links() {
    let inlines = vec![
        Inline::Link {
            url: "https://a.com".into(),
            title: None,
            content: vec![Inline::Text("A".into())],
        },
        Inline::Text(" and ".into()),
        Inline::Link {
            url: "https://b.com".into(),
            title: None,
            content: vec![Inline::Text("B".into())],
        },
    ];
    let segments = collect_segments(&inlines, None, true);
    let ne = non_empty(&segments);

    assert_eq!(ne.len(), 3);
    assert!(
        matches!(ne[0], InlineSegment::Link { text, url, .. } if text == "A" && url == "https://a.com")
    );
    assert!(matches!(ne[1], InlineSegment::Text { text, .. } if text == " and "));
    assert!(
        matches!(ne[2], InlineSegment::Link { text, url, .. } if text == "B" && url == "https://b.com")
    );
}

#[test]
fn segments_link_url_resolved() {
    let inlines = vec![Inline::Link {
        url: "page.html".into(),
        title: None,
        content: vec![Inline::Text("link".into())],
    }];
    let segments = collect_segments(&inlines, Some("https://example.com/docs"), true);

    let link = segments
        .iter()
        .find(|s| matches!(s, InlineSegment::Link { text, .. } if !text.is_empty()));
    assert!(
        matches!(link, Some(InlineSegment::Link { url, .. }) if url == "https://example.com/docs/page.html")
    );
}

#[test]
fn link_at_finds_the_first_link_holding_an_offset() {
    let links = vec![
        LinkSpan { range: 2..5, url: "a".into() },
        LinkSpan { range: 4..8, url: "b".into() },
    ];
    assert_eq!(link_at(&links, 1), None);
    assert_eq!(link_at(&links, 2), Some(0));
    assert_eq!(link_at(&links, 4), Some(0));
    assert_eq!(link_at(&links, 5), Some(1));
    assert_eq!(link_at(&links, 8), None);
}
