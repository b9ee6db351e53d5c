use gpui_gfm::images::{is_block_image, resolve_url, select_image_url};
use gpui_gfm::types::Inline;

fn image(url: &str) -> Inline {
    Inline::Image {
        url: url.into(),
        title: None,
        alt: "x".into(),
        width: None,
        height: None,
        dark_url: None,
        light_url: None,
    }
}

#[test]
fn select_dark_url_when_dark() {
    let url = select_image_url("default.png", Some("dark.png"), Some("light.png"), true);
    assert_eq!(url, "dark.png");
}

#[test]
fn select_light_url_when_light() {
    let url = select_image_url("default.png", Some("dark.png"), Some("light.png"), false);
    assert_eq!(url, "light.png");
}

#[test]
fn fallback_to_main_url() {
    let url = select_image_url("default.png", None, None, true);
    assert_eq!(url, "default.png");
}

#[test]
fn empty_themed_url_falls_back() {
    let url = select_image_url("default.png", Some(""), None, true);
    assert_eq!(url, "default.png");
}

#[test]
fn themed_url_is_trimmed() {
    assert_eq!(select_image_url("d.png", None, Some("  l.png "), false), "l.png");
    assert_eq!(select_image_url("d.png", Some("   "), None, true), "d.png");
}

#[test]
fn single_image_is_block() {
    let inlines = vec![image("x.png")];
    assert!(is_block_image(&inlines));
}

#[test]
fn linked_image_is_block() {
    let inlines = vec![Inline::Link {
        url: "https://example.com".into(),
        title: None,
        content: vec![image("x.png")],
    }];
    assert!(is_block_image(&inlines));
}

#[test]
fn text_plus_image_not_block() {
    let inlines = vec![Inline::Text("hello ".into()), image("x.png")];
    assert!(!is_block_image(&inlines));
}

#[test]
fn plain_text_not_block_image() {
    let inlines = vec![Inline::Text("hello".into())];
    assert!(!is_block_image(&inlines));
}

#[test]
fn resolve_relative_url_with_base() {
    assert_eq!(
        resolve_url("images/logo.png", Some("https://raw.githubusercontent.com/owner/repo/main")),
        "https://raw.githubusercontent.com/owner/repo/main/images/logo.png"
    );
}

#[test]
fn resolve_relative_url_with_leading_slash() {
    assert_eq!(
        resolve_url("/img/banner.svg", Some("https://example.com/assets")),
        "https://example.com/assets/img/banner.svg"
    );
}

#[test]
fn resolve_relative_url_base_trailing_slash() {
    assert_eq!(
        resolve_url("icon.png", Some("https://example.com/assets/")),
        "https://example.com/assets/icon.png"
    );
}

#[test]
fn absolute_url_unchanged() {
    assert_eq!(
        resolve_url("https://cdn.example.com/image.png", Some("https://example.com")),
        "https://cdn.example.com/image.png"
    );
}

#[test]
fn http_url_unchanged() {
    assert_eq!(
        resolve_url("http://cdn.example.com/image.png", Some("https://example.com")),
        "http://cdn.example.com/image.png"
    );
}

#[test]
fn data_uri_unchanged() {
    let data_url = "data:image/png;base64,iVBORw0KGgo=";
    assert_eq!(resolve_url(data_url, Some("https://example.com")), data_url);
}

#[test]
fn protocol_relative_url_unchanged() {
    assert_eq!(
        resolve_url("//cdn.example.com/img.png", Some("https://example.com")),
        "//cdn.example.com/img.png"
    );
}

#[test]
fn no_base_url_returns_as_is() {
    assert_eq!(resolve_url("images/logo.png", None), "images/logo.png");
}

#[test]
fn no_double_slashes_on_join() {
    assert_eq!(resolve_url("/path/img.png", Some("https://example.com/")), "https://example.com/path/img.png");
}
