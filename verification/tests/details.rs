use gpui_gfm::details::{
    find_details_start, has_open_attribute, parse_details_block, split_details_segments,
    strip_html_tags, try_split_details_segments, Segment,
};

#[test]
fn find_details_start_case_insensitive() {
    assert_eq!(find_details_start("<details>"), Some(0));
    assert_eq!(find_details_start("<DETAILS>"), Some(0));
    assert_eq!(find_details_start("  <Details open>"), Some(2));
    assert!(find_details_start("no tag here").is_none());
}

#[test]
fn has_open_attribute_works() {
    assert!(has_open_attribute("<details open>"));
    assert!(has_open_attribute("<details OPEN>"));
    assert!(!has_open_attribute("<details>"));
}

#[test]
fn split_simple_details() {
    let source = "<details>\n<summary>Title</summary>\n\nBody\n</details>";
    let segments = split_details_segments(source);
    assert_eq!(segments.len(), 1);
    assert!(matches!(&segments[0], Segment::Details { .. }));
}

#[test]
fn details_inside_fence_not_split() {
    let source = "```\n<details>\n</details>\n```";
    let segments = split_details_segments(source);
    assert_eq!(segments.len(), 1);
    assert!(matches!(&segments[0], Segment::Markdown(_)));
}

#[test]
fn strip_html_tags_basic() {
    assert_eq!(strip_html_tags("<b>hello</b>"), "hello");
    assert_eq!(strip_html_tags("<em><h4>Title</h4></em>"), "Title");
    assert_eq!(strip_html_tags("no tags"), "no tags");
}

#[test]
fn parse_details_block_basic() {
    let src = "<details>\n<summary>Sum</summary>\n\nbody text\n</details>";
    let (summary, body) = parse_details_block(src).unwrap();
    assert_eq!(summary.as_deref(), Some("Sum"));
    assert!(body.contains("body text"));
}

#[test]
fn find_details_start_counts_bytes() {
    assert_eq!(find_details_start("é<details>"), Some(2));
    assert_eq!(find_details_start("x <dEtAiLs"), Some(2));
}

#[test]
fn open_attribute_with_value() {
    assert!(has_open_attribute("<details open=\"\">"));
    assert!(!has_open_attribute("<details class=open>"));
    assert!(!has_open_attribute("<details> open"));
}

#[test]
fn markdown_around_details_is_kept() {
    let source = "before\n<details open><summary>S</summary>inner</details>after\ntail";
    let segments = split_details_segments(source);
    assert_eq!(segments.len(), 3);
    match &segments[0] {
        Segment::Markdown(m) => assert_eq!(m, "before\n"),
        _ => panic!("expected markdown"),
    }
    match &segments[1] {
        Segment::Details { summary, body, open } => {
            assert_eq!(summary.as_deref(), Some("S"));
            assert_eq!(body, "inner</details>");
            assert!(*open);
        }
        _ => panic!("expected details"),
    }
    match &segments[2] {
        Segment::Markdown(m) => assert_eq!(m, "after\ntail\n"),
        _ => panic!("expected markdown"),
    }
}

#[test]
fn nested_details_stay_in_outer_body() {
    let source = "<details>\n<summary>Outer</summary>\n<details>\n<summary>Inner</summary>\nx\n</details>\ny\n</details>";
    let segments = split_details_segments(source);
    assert_eq!(segments.len(), 1);
    match &segments[0] {
        Segment::Details { body, .. } => {
            assert!(body.contains("<details>"));
            assert!(body.contains("Inner"));
            assert!(body.ends_with("y\n</details>"));
        }
        _ => panic!("expected details"),
    }
}

#[test]
fn unclosed_details_runs_to_end() {
    let source = "<details>\n<summary>S</summary>\nbody";
    let segments = split_details_segments(source);
    assert_eq!(segments.len(), 1);
    match &segments[0] {
        Segment::Details { summary, body, .. } => {
            assert_eq!(summary.as_deref(), Some("S"));
            assert_eq!(body, "body");
        }
        _ => panic!("expected details"),
    }
}

#[test]
fn summary_tag_out_of_order_is_refused() {
    assert!(try_split_details_segments("<details><summary</summary>x</details>").is_none());
    assert!(try_split_details_segments("plain text").is_some());
}

#[test]
fn details_without_summary_has_no_summary() {
    let (summary, body) = parse_details_block("<details>just body</details>").unwrap();
    assert!(summary.is_none());
    assert_eq!(body, "just body</details>");
    assert!(parse_details_block("no block").is_none());
}
