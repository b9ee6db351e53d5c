use gpui_gfm::html::{
    decode_html_entities, is_centered_div_close, is_centered_div_open, is_centered_paragraph,
    is_details_close_only, is_html_comment_only, parse_html_heading, parse_html_to_inlines,
    summary_inlines_from_text,
};
use gpui_gfm::types::Inline;

#[test]
fn parse_img_tag() {
    let html = r#"<img src="https://example.com/img.png" alt="Logo" width="100">"#;
    let inlines = parse_html_to_inlines(html);
    assert_eq!(inlines.len(), 1);
    match &inlines[0] {
        Inline::Image { url, alt, width, height, .. } => {
            assert_eq!(url, "https://example.com/img.png");
            assert_eq!(alt, "Logo");
            assert_eq!(width.as_deref(), Some("100"));
            assert!(height.is_none());
        }
        _ => panic!("expected Image"),
    }
}

#[test]
fn br_tag() {
    for input in &["<br>", "<br/>", "<BR />"] {
        let inlines = parse_html_to_inlines(input);
        assert_eq!(inlines.len(), 1, "failed for: {input}");
        assert!(matches!(inlines[0], Inline::HardBreak), "failed for: {input}");
    }
}

#[test]
fn is_comment() {
    assert!(is_html_comment_only("<!-- hello -->"));
    assert!(is_html_comment_only("<!--\nmultiline\n-->"));
    assert!(!is_html_comment_only("<p>not a comment</p>"));
}

#[test]
fn centered_div_detection() {
    assert!(is_centered_div_open(r#"<div align="center">"#));
    assert!(is_centered_div_open(r#"<div style="text-align: center">"#));
    assert!(!is_centered_div_open(r#"<div class="foo">"#));
}

#[test]
fn html_entity_decoding() {
    assert_eq!(decode_html_entities("&amp; &lt; &gt;"), "& < >");
    assert_eq!(decode_html_entities("&quot;hi&quot;"), r#""hi""#);
}

#[test]
fn summary_inlines_strips_tags() {
    let inlines = summary_inlines_from_text("<em><h4>Cargo Audit</h4></em>");
    assert_eq!(inlines.len(), 1);
    match &inlines[0] {
        Inline::Text(t) => assert_eq!(t, "Cargo Audit"),
        _ => panic!("expected Text"),
    }
}

#[test]
fn parse_picture_dark_light() {
    let html = r#"<picture>
  <source media="(prefers-color-scheme: dark)" srcset="dark.png">
  <source media="(prefers-color-scheme: light)" srcset="light.png">
  <img src="fallback.png" alt="Logo" width="200">
</picture>"#;
    let inlines = parse_html_to_inlines(html);
    assert_eq!(inlines.len(), 1);
    match &inlines[0] {
        Inline::Image { url, alt, width, dark_url, light_url, .. } => {
            assert_eq!(url, "fallback.png");
            assert_eq!(alt, "Logo");
            assert_eq!(width.as_deref(), Some("200"));
            assert_eq!(dark_url.as_deref(), Some("dark.png"));
            assert_eq!(light_url.as_deref(), Some("light.png"));
        }
        _ => panic!("expected Image"),
    }
}

#[test]
fn parse_picture_single_source() {
    let html = r#"<picture>
  <source media="(prefers-color-scheme: dark)" srcset="dark.svg">
  <img src="default.svg" alt="Logo">
</picture>"#;
    let inlines = parse_html_to_inlines(html);
    assert_eq!(inlines.len(), 1);
    match &inlines[0] {
        Inline::Image { url, dark_url, .. } => {
            assert_eq!(url, "default.svg");
            assert_eq!(dark_url.as_deref(), Some("dark.svg"));
        }
        _ => panic!("expected Image, got: {:?}", inlines[0]),
    }
}

#[test]
fn parse_link_wrapping_img() {
    let html = r#"<a href="https://example.com"><img src="badge.svg" alt="Badge"></a>"#;
    let inlines = parse_html_to_inlines(html);
    assert_eq!(inlines.len(), 1);
    match &inlines[0] {
        Inline::Link { url, content, .. } => {
            assert_eq!(url, "https://example.com");
            assert_eq!(content.len(), 1);
            assert!(
                matches!(&content[0], Inline::Image { url, alt, .. } if url == "badge.svg" && alt == "Badge")
            );
        }
        _ => panic!("expected Link, got: {:?}", inlines[0]),
    }
}

#[test]
fn parse_sub_sup_in_block() {
    let html = "<p>H<sub>2</sub>O is water. E=mc<sup>2</sup></p>";
    let inlines = parse_html_to_inlines(html);
    let text: String = inlines
        .iter()
        .map(|i| match i {
            Inline::Text(t) => t.as_str(),
            _ => "",
        })
        .collect();
    assert!(text.contains('H'));
    assert!(text.contains('2'));
    assert!(text.contains('O'));
}

#[test]
fn parse_html_heading_h1() {
    let result = parse_html_heading("<h1>Hello World</h1>");
    assert_eq!(result, Some((1, "Hello World".to_string())));
}

#[test]
fn parse_html_heading_h3_centered() {
    let html = r#"<h3 align="center">Title</h3>"#;
    let result = parse_html_heading(html);
    assert_eq!(result, Some((3, "Title".to_string())));
    assert!(is_centered_paragraph(html));
}

#[test]
fn parse_html_heading_with_tags() {
    let html = "<h2><em>Styled</em> heading</h2>";
    let result = parse_html_heading(html);
    assert_eq!(result, Some((2, "Styled heading".to_string())));
}

#[test]
fn centered_paragraph_detection() {
    assert!(is_centered_paragraph(r#"<p align="center">text</p>"#));
    assert!(is_centered_paragraph(r#"<p style="text-align: center">text</p>"#));
    assert!(!is_centered_paragraph(r#"<p>text</p>"#));
}

#[test]
fn multi_tag_block_with_br() {
    let html = "Hello<br>World";
    let inlines = parse_html_to_inlines(html);
    assert!(inlines.len() >= 3);
    assert!(inlines.iter().any(|i| matches!(i, Inline::HardBreak)));
}

#[test]
fn multiple_images_in_block() {
    let html = r#"<img src="a.png" alt="A"> <img src="b.png" alt="B">"#;
    let inlines = parse_html_to_inlines(html);
    let img_count = inlines.iter().filter(|i| matches!(i, Inline::Image { .. })).count();
    assert_eq!(img_count, 2);
}

#[test]
fn link_wrapping_text() {
    let html = r#"<a href="https://example.com">Click here</a>"#;
    let inlines = parse_html_to_inlines(html);
    assert_eq!(inlines.len(), 1);
    match &inlines[0] {
        Inline::Link { url, content, .. } => {
            assert_eq!(url, "https://example.com");
            assert_eq!(content.len(), 1);
            assert!(matches!(&content[0], Inline::Text(t) if t == "Click here"));
        }
        _ => panic!("expected Link"),
    }
}

#[test]
fn entities_decode_left_to_right() {
    assert_eq!(decode_html_entities("&amp;lt;"), "&lt;");
    assert_eq!(decode_html_entities("a&nbsp;b &#39;c&apos;"), "a\u{a0}b 'c'");
    assert_eq!(decode_html_entities("&unknown;"), "&unknown;");
}

#[test]
fn details_close_and_div_close() {
    assert!(is_details_close_only("  </DETAILS >\n"));
    assert!(!is_details_close_only("</details> more"));
    assert!(is_centered_div_close(" </DIV> "));
    assert!(!is_centered_div_close("</div></div>"));
}

#[test]
fn summary_defaults_to_details_when_blank() {
    let inlines = summary_inlines_from_text("<b> </b>");
    assert_eq!(inlines, vec![Inline::Text("Details".into())]);
}

#[test]
fn heading_absent_and_blank_html() {
    assert_eq!(parse_html_heading("<p>x</p>"), None);
    assert_eq!(parse_html_heading("<h7>x</h7>"), None);
    assert!(parse_html_to_inlines("   ").is_empty());
}

#[test]
fn link_without_href_keeps_children() {
    let inlines = parse_html_to_inlines("<a>plain &amp; simple</a>");
    assert_eq!(inlines, vec![Inline::Text("plain & simple".into())]);
}

#[test]
fn comment_only_html_gives_fallback_nothing() {
    assert!(parse_html_to_inlines("<!-- hidden -->").is_empty());
}

#[test]
fn entities_are_decoded_once() {
    assert_eq!(decode_html_entities("&amp;lt;"), "&lt;");
    assert_eq!(decode_html_entities("&amp;amp;"), "&amp;");
    assert_eq!(decode_html_entities("&&lt;;"), "&<;");
    assert_eq!(decode_html_entities("x &lt;b&gt; &amp;"), "x <b> &");
}
