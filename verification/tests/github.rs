use gpui_gfm::github::{
    expand_issue_references, extract_github_blob_line_references, parse_github_blob_line_reference,
    GithubIssueReferenceContext,
};
use gpui_gfm::types::Inline;

#[test]
fn parse_single_line_reference() {
    let url = "https://github.com/owner/repo/blob/main/src/lib.rs#L42";
    let r = parse_github_blob_line_reference(url).unwrap();
    assert_eq!(r.owner, "owner");
    assert_eq!(r.repo, "repo");
    assert_eq!(r.reference, "main");
    assert_eq!(r.path, "src/lib.rs");
    assert_eq!(r.start_line, 42);
    assert_eq!(r.end_line, 42);
}

#[test]
fn parse_line_range_reference() {
    let url = "https://github.com/owner/repo/blob/abc123/path/file.rs#L10-L20";
    let r = parse_github_blob_line_reference(url).unwrap();
    assert_eq!(r.start_line, 10);
    assert_eq!(r.end_line, 20);
}

#[test]
fn rejects_non_blob_url() {
    let url = "https://github.com/owner/repo/tree/main/src#L5";
    assert!(parse_github_blob_line_reference(url).is_none());
}

#[test]
fn rejects_no_fragment() {
    let url = "https://github.com/owner/repo/blob/main/src/lib.rs";
    assert!(parse_github_blob_line_reference(url).is_none());
}

#[test]
fn extract_multiple_references() {
    let text =
        "See https://github.com/a/b/blob/main/x.rs#L1-L5 and https://github.com/c/d/blob/v1/y.rs#L10";
    let refs = extract_github_blob_line_references(text);
    assert_eq!(refs.len(), 2);
    assert_eq!(refs[0].path, "x.rs");
    assert_eq!(refs[1].path, "y.rs");
}

fn ctx() -> GithubIssueReferenceContext {
    GithubIssueReferenceContext { owner: "zed-industries".into(), repo: "zed".into() }
}

#[test]
fn issue_ref_simple() {
    let inlines = vec![Inline::Text("See #123 for details".into())];
    let result = expand_issue_references(&inlines, &ctx());
    assert_eq!(result.len(), 3);
    assert_eq!(result[0], Inline::Text("See ".into()));
    assert_eq!(
        result[1],
        Inline::Link {
            url: "https://github.com/zed-industries/zed/issues/123".into(),
            title: None,
            content: vec![Inline::Text("#123".into())],
        }
    );
    assert_eq!(result[2], Inline::Text(" for details".into()));
}

#[test]
fn issue_ref_at_start() {
    let inlines = vec![Inline::Text("#42 is fixed".into())];
    let result = expand_issue_references(&inlines, &ctx());
    assert_eq!(result.len(), 2);
    assert!(matches!(&result[0], Inline::Link { url, .. } if url.ends_with("/42")));
    assert_eq!(result[1], Inline::Text(" is fixed".into()));
}

#[test]
fn issue_ref_at_end() {
    let inlines = vec![Inline::Text("Fixed in #99".into())];
    let result = expand_issue_references(&inlines, &ctx());
    assert_eq!(result.len(), 2);
    assert_eq!(result[0], Inline::Text("Fixed in ".into()));
    assert!(matches!(&result[1], Inline::Link { url, .. } if url.ends_with("/99")));
}

#[test]
fn issue_ref_not_alpha() {
    let inlines = vec![Inline::Text("See #abc here".into())];
    let result = expand_issue_references(&inlines, &ctx());
    assert_eq!(result.len(), 1);
    assert_eq!(result[0], Inline::Text("See #abc here".into()));
}

#[test]
fn issue_ref_not_in_word() {
    let inlines = vec![Inline::Text("foo#123 bar".into())];
    let result = expand_issue_references(&inlines, &ctx());
    assert_eq!(result.len(), 1);
    assert_eq!(result[0], Inline::Text("foo#123 bar".into()));
}

#[test]
fn issue_ref_not_html_entity() {
    let inlines = vec![Inline::Text("char &#123; end".into())];
    let result = expand_issue_references(&inlines, &ctx());
    assert_eq!(result.len(), 1);
    assert_eq!(result[0], Inline::Text("char &#123; end".into()));
}

#[test]
fn issue_ref_not_followed_by_alpha() {
    let inlines = vec![Inline::Text("see #123abc".into())];
    let result = expand_issue_references(&inlines, &ctx());
    assert_eq!(result.len(), 1);
    assert_eq!(result[0], Inline::Text("see #123abc".into()));
}

#[test]
fn issue_ref_in_code_untouched() {
    let inlines = vec![Inline::Code("#123".into())];
    let result = expand_issue_references(&inlines, &ctx());
    assert_eq!(result.len(), 1);
    assert_eq!(result[0], Inline::Code("#123".into()));
}

#[test]
fn issue_ref_in_link_untouched() {
    let inlines = vec![Inline::Link {
        url: "https://example.com".into(),
        title: None,
        content: vec![Inline::Text("#123".into())],
    }];
    let result = expand_issue_references(&inlines, &ctx());
    assert_eq!(result.len(), 1);
    assert!(matches!(&result[0], Inline::Link { .. }));
}

#[test]
fn issue_ref_in_bold() {
    let inlines = vec![Inline::Strong(vec![Inline::Text("fix #42".into())])];
    let result = expand_issue_references(&inlines, &ctx());
    assert_eq!(result.len(), 1);
    match &result[0] {
        Inline::Strong(children) => {
            assert_eq!(children.len(), 2);
            assert_eq!(children[0], Inline::Text("fix ".into()));
            assert!(matches!(&children[1], Inline::Link { url, .. } if url.ends_with("/42")));
        }
        _ => panic!("expected Strong"),
    }
}

#[test]
fn issue_ref_multiple() {
    let inlines = vec![Inline::Text("#1 and #2".into())];
    let result = expand_issue_references(&inlines, &ctx());
    assert_eq!(result.len(), 3);
    assert!(matches!(&result[0], Inline::Link { url, .. } if url.ends_with("/1")));
    assert_eq!(result[1], Inline::Text(" and ".into()));
    assert!(matches!(&result[2], Inline::Link { url, .. } if url.ends_with("/2")));
}

#[test]
fn issue_ref_after_paren() {
    let inlines = vec![Inline::Text("(#123)".into())];
    let result = expand_issue_references(&inlines, &ctx());
    assert_eq!(result.len(), 3);
    assert_eq!(result[0], Inline::Text("(".into()));
    assert!(matches!(&result[1], Inline::Link { url, .. } if url.ends_with("/123")));
    assert_eq!(result[2], Inline::Text(")".into()));
}

#[test]
fn blob_reference_keeps_url_and_parts() {
    let url = "https://github.com/o/r/blob/dev/a/b/c.md#L7-L9";
    let r = parse_github_blob_line_reference(url).unwrap();
    assert_eq!(r.url, url);
    assert_eq!(r.owner, "o");
    assert_eq!(r.repo, "r");
    assert_eq!(r.reference, "dev");
    assert_eq!(r.path, "a/b/c.md");
    assert_eq!((r.start_line, r.end_line), (7, 9));
}

#[test]
fn expansion_keeps_plain_text_unchanged() {
    let inlines = vec![Inline::Text("nothing here".into()), Inline::SoftBreak];
    let result = expand_issue_references(&inlines, &ctx());
    assert_eq!(result, inlines);
}

fn zed() -> GithubIssueReferenceContext {
    GithubIssueReferenceContext { owner: "zed-industries".into(), repo: "zed".into() }
}

#[test]
fn hash_after_non_ascii_letter_is_not_a_reference() {
    let ctx = zed();
    let out = expand_issue_references(&[Inline::Text("café#12".into())], &ctx);
    assert_eq!(out, vec![Inline::Text("café#12".into())]);
    let out = expand_issue_references(&[Inline::Text("#12é".into())], &ctx);
    assert_eq!(
        out,
        vec![
            Inline::Link {
                url: "https://github.com/zed-industries/zed/issues/12".into(),
                title: None,
                content: vec![Inline::Text("#12".into())],
            },
            Inline::Text("é".into()),
        ]
    );
    let out = expand_issue_references(&[Inline::Text("#12a".into())], &ctx);
    assert_eq!(out, vec![Inline::Text("#12a".into())]);
    let out = expand_issue_references(&[Inline::Text("日本#3".into())], &ctx);
    assert_eq!(out, vec![Inline::Text("日本#3".into())]);
}

#[test]
fn hash_after_punctuation_is_a_reference() {
    let ctx = zed();
    let out = expand_issue_references(&[Inline::Text("(#7) — #8".into())], &ctx);
    assert_eq!(
        out,
        vec![
            Inline::Text("(".into()),
            Inline::Link {
                url: "https://github.com/zed-industries/zed/issues/7".into(),
                title: None,
                content: vec![Inline::Text("#7".into())],
            },
            Inline::Text(") — ".into()),
            Inline::Link {
                url: "https://github.com/zed-industries/zed/issues/8".into(),
                title: None,
                content: vec![Inline::Text("#8".into())],
            },
        ]
    );
}
