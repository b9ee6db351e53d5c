//! Image decisions of the renderer: which URL a themed image uses, which
//! paragraphs are block images, and how relative URLs are resolved.

use crate::text::{chars_of, has_prefix, push_char, trim};
use crate::types::{inlines_view, Inline, InlineV};
use vstd::prelude::*;

verus! {

/// `str::trim`: the slice without leading and trailing Unicode whitespace.
#[verifier::external_body]
fn trim_str(s: &str) -> (r: &str)
    ensures
        r@ == trim(s@),
{
    s.trim()
}

/// The URL a themed image shows: the dark (or light) variant, trimmed, when
/// the theme is dark (or light) and that variant is not blank; otherwise the
/// main URL.
pub open spec fn spec_select_url(
    url: Seq<char>,
    dark_url: Option<Seq<char>>,
    light_url: Option<Seq<char>>,
    is_dark: bool,
) -> Seq<char> {
    let themed = if is_dark {
        dark_url
    } else {
        light_url
    };
    match themed {
        Some(t) => if trim(t).len() > 0 {
            trim(t)
        } else {
            url
        },
        None => url,
    }
}

/// The view of an optional string slice.
pub open spec fn opt_str_slice(o: Option<&str>) -> Option<Seq<char>> {
    match o {
        Some(s) => Some(s@),
        None => None,
    }
}

/// Select the image URL for the current theme.
pub fn select_image_url<'a>(
    url: &'a str,
    dark_url: Option<&'a str>,
    light_url: Option<&'a str>,
    is_dark: bool,
) -> (r: &'a str)
    ensures
        r@ == spec_select_url(url@, opt_str_slice(dark_url), opt_str_slice(light_url), is_dark),
{
    let themed = if is_dark {
        dark_url
    } else {
        light_url
    };
    match themed {
        Some(t) => {
            let tt = trim_str(t);
            if tt.is_empty() {
                url
            } else {
                tt
            }
        },
        None => url,
    }
}

/// A paragraph that is a single image, or a single link around a single
/// image.
pub open spec fn spec_block_image(s: Seq<InlineV>) -> bool {
    s.len() == 1 && match s[0] {
        InlineV::Image { .. } => true,
        InlineV::Link { content, .. } => content.len() == 1 && content[0] is Image,
        _ => false,
    }
}

/// Check if a paragraph holds only a single image (possibly wrapped in a link).
pub fn is_block_image(inlines: &[Inline]) -> (r: bool)
    ensures
        r == spec_block_image(inlines_view(inlines@)),
{
    proof {
        if inlines@.len() == 1 {
            lemma_single_view(inlines@);
        }
        lemma_view_len(inlines@);
    }
    if inlines.len() != 1 {
        return false;
    }
    match &inlines[0] {
        Inline::Image { .. } => true,
        Inline::Link { content, .. } => {
            proof {
                lemma_view_len(content@);
                if content@.len() == 1 {
                    lemma_single_view(content@);
                }
            }
            content.len() == 1 && match &content[0] {
                Inline::Image { .. } => true,
                _ => false,
            }
        },
        _ => false,
    }
}

/// The parts of a block image (see [`is_block_image`]) that the renderer
/// uses, borrowed from the paragraph.
pub struct BlockImageData<'a> {
    pub url: &'a str,
    pub alt: &'a str,
    pub width: Option<&'a str>,
    pub height: Option<&'a str>,
    pub dark_url: Option<&'a str>,
    pub light_url: Option<&'a str>,
    /// The target of the link around the image, if there is one.
    pub link_url: Option<&'a str>,
}

/// The mathematical value of a [`BlockImageData`].
pub struct BlockImageV {
    pub url: Seq<char>,
    pub alt: Seq<char>,
    pub width: Option<Seq<char>>,
    pub height: Option<Seq<char>>,
    pub dark_url: Option<Seq<char>>,
    pub light_url: Option<Seq<char>>,
    pub link_url: Option<Seq<char>>,
}

/// The view of a [`BlockImageData`].
pub open spec fn block_image_view(d: BlockImageData) -> BlockImageV {
    BlockImageV {
        url: d.url@,
        alt: d.alt@,
        width: opt_str_slice(d.width),
        height: opt_str_slice(d.height),
        dark_url: opt_str_slice(d.dark_url),
        light_url: opt_str_slice(d.light_url),
        link_url: opt_str_slice(d.link_url),
    }
}

/// The image of an inline that is an image, with the given link target.
pub open spec fn image_parts(x: InlineV, link_url: Option<Seq<char>>) -> Option<BlockImageV> {
    match x {
        InlineV::Image { url, alt, width, height, dark_url, light_url, .. } => Some(
            BlockImageV { url, alt, width, height, dark_url, light_url, link_url },
        ),
        _ => None,
    }
}

/// The block image of a paragraph: its single image, or the single image
/// inside its single link together with the link's target.
pub open spec fn spec_extract_block_image(s: Seq<InlineV>) -> Option<BlockImageV> {
    if s.len() != 1 {
        None
    } else {
        match s[0] {
            InlineV::Image { .. } => image_parts(s[0], None),
            InlineV::Link { url, content, .. } => if content.len() == 1 {
                image_parts(content[0], Some(url))
            } else {
                None
            },
            _ => None,
        }
    }
}

fn opt_as_str<'a>(o: &'a Option<String>) -> (r: Option<&'a str>)
    ensures
        opt_str_slice(r) == crate::types::opt_view(*o),
{
    match o {
        Some(s) => Some(s.as_str()),
        None => None,
    }
}

/// The image parts of a single-image paragraph, if it is one.
pub fn extract_block_image<'a>(inlines: &'a [Inline]) -> (r: Option<BlockImageData<'a>>)
    ensures
        match r {
            Some(d) => spec_extract_block_image(inlines_view(inlines@)) == Some(block_image_view(d)),
            None => spec_extract_block_image(inlines_view(inlines@)) is None,
        },
{
    proof {
        if inlines@.len() == 1 {
            lemma_single_view(inlines@);
        }
        lemma_view_len(inlines@);
    }
    if inlines.len() != 1 {
        return None;
    }
    match &inlines[0] {
        Inline::Image { url, alt, width, height, dark_url, light_url, .. } => Some(
            BlockImageData {
                url: url.as_str(),
                alt: alt.as_str(),
                width: opt_as_str(width),
                height: opt_as_str(height),
                dark_url: opt_as_str(dark_url),
                light_url: opt_as_str(light_url),
                link_url: None,
            },
        ),
        Inline::Link { url: link_url, content, .. } => {
            proof {
                lemma_view_len(content@);
                if content@.len() == 1 {
                    lemma_single_view(content@);
                }
            }
            if content.len() != 1 {
                return None;
            }
            match &content[0] {
                Inline::Image { url, alt, width, height, dark_url, light_url, .. } => Some(
                    BlockImageData {
                        url: url.as_str(),
                        alt: alt.as_str(),
                        width: opt_as_str(width),
                        height: opt_as_str(height),
                        dark_url: opt_as_str(dark_url),
                        light_url: opt_as_str(light_url),
                        link_url: Some(link_url.as_str()),
                    },
                ),
                _ => None,
            }
        },
        _ => None,
    }
}

proof fn lemma_single_view(s: Seq<Inline>)
    requires
        s.len() == 1,
    ensures
        inlines_view(s) == seq![crate::types::inline_view(s[0])],
{
    assert(s =~= Seq::<Inline>::empty().push(s[0]));
    crate::types::lemma_inlines_view_push(Seq::empty(), s[0]);
    assert(inlines_view(Seq::<Inline>::empty()) =~= Seq::<InlineV>::empty());
    assert(Seq::<InlineV>::empty().push(crate::types::inline_view(s[0])) =~= seq![
        crate::types::inline_view(s[0]),
    ]);
}

proof fn lemma_view_len(s: Seq<Inline>)
    ensures
        inlines_view(s).len() == s.len(),
    decreases s.len(),
{
    if s.len() > 0 {
        lemma_view_len(s.subrange(0, s.len() - 1));
    }
}

/// `s` without its trailing `/` characters.
pub open spec fn trim_end_slashes(s: Seq<char>) -> Seq<char>
    decreases s.len(),
{
    if s.len() > 0 && s.last() == '/' {
        trim_end_slashes(s.drop_last())
    } else {
        s
    }
}

/// `s` without its leading `/` characters.
pub open spec fn trim_start_slashes(s: Seq<char>) -> Seq<char>
    decreases s.len(),
{
    if s.len() > 0 && s[0] == '/' {
        trim_start_slashes(s.drop_first())
    } else {
        s
    }
}

/// Absolute URLs: `http://`, `https://`, `data:` and protocol-relative `//`.
pub open spec fn is_absolute(url: Seq<char>) -> bool {
    ||| has_prefix(url, "http://"@)
    ||| has_prefix(url, "https://"@)
    ||| has_prefix(url, "data:"@)
    ||| has_prefix(url, "//"@)
}

/// A URL resolved against an optional base: unchanged without a base or
/// when absolute; otherwise the base and the URL joined with exactly one `/`.
pub open spec fn spec_resolve_url(url: Seq<char>, base: Option<Seq<char>>) -> Seq<char> {
    match base {
        None => url,
        Some(b) => if is_absolute(url) {
            url
        } else {
            trim_end_slashes(b) + seq!['/'] + trim_start_slashes(url)
        },
    }
}

/// Whether `v` starts with the characters of `p`.
fn starts_with(v: &Vec<char>, p: &str) -> (r: bool)
    ensures
        r == has_prefix(v@, p@),
{
    let pv = chars_of(p);
    if pv.len() > v.len() {
        return false;
    }
    let r = crate::text::slice_eq(v, 0, pv.len(), &pv);
    r
}

/// Resolve a (possibly relative) URL against an optional base URL.
pub fn resolve_url(url: &str, base: Option<&str>) -> (r: String)
    ensures
        r@ == spec_resolve_url(url@, opt_str_slice(base)),
{
    let b = match base {
        Some(b) => b,
        None => {
            return crate::text::to_owned_string(url);
        },
    };
    let uv = chars_of(url);
    if starts_with(&uv, "http://") || starts_with(&uv, "https://") || starts_with(&uv, "data:")
        || starts_with(&uv, "//") {
        return crate::text::to_owned_string(url);
    }
    let bv = chars_of(b);
    assert(bv@.subrange(0, bv@.len() as int) =~= bv@);
    assert(uv@.subrange(0, uv@.len() as int) =~= uv@);
    let mut e = bv.len();
    while e > 0 && bv[e - 1] == '/'
        invariant
            e <= bv.len(),
            trim_end_slashes(bv@) == trim_end_slashes(bv@.subrange(0, e as int)),
        decreases e,
    {
        assert(bv@.subrange(0, e as int).drop_last() =~= bv@.subrange(0, e - 1));
        e = e - 1;
    }
    let mut s: usize = 0;
    while s < uv.len() && uv[s] == '/'
        invariant
            s <= uv.len(),
            trim_start_slashes(uv@) == trim_start_slashes(uv@.subrange(s as int, uv@.len() as int)),
        decreases uv.len() - s,
    {
        assert(uv@.subrange(s as int, uv@.len() as int).drop_first() =~= uv@.subrange(
            s + 1,
            uv@.len() as int,
        ));
        s = s + 1;
    }
    assert(trim_end_slashes(bv@.subrange(0, e as int)) == bv@.subrange(0, e as int));
    assert(trim_start_slashes(uv@.subrange(s as int, uv@.len() as int)) == uv@.subrange(
        s as int,
        uv@.len() as int,
    ));
    let mut r = crate::text::string_of(&bv, 0, e);
    push_char(&mut r, '/');
    crate::text::push_chars(&mut r, &uv, s, uv.len());
    r
}

} // verus!
