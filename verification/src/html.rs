//! Inline HTML that the markdown parser passes through.
//!
//! The HTML is parsed into a DOM by the `tl` crate; the library reads the DOM
//! through a small set of accessors, each stated over a model of the parsed
//! nodes ([`HtmlNodeV`]), and turns the small set of tags GitHub READMEs use
//! (`<img>`, `<br>`, `<picture>/<source>`, `<a>`, `<p>`, `<sub>`, `<sup>`,
//! `<h1>`–`<h6>`, centered `<div>`, HTML entities) into inlines.

use crate::details::{append_range, strip_tags, strip_tags_at};
use crate::text::{
    char_is_ws, chars_of, find_char, find_from, find_ws, has_prefix, is_ws, lower, lower_seq,
    push_char, slice_eq, slice_starts_with, string_of, sub_vec, to_lower, trim, trim_bounds,
    ws_from,
};
use crate::types::{inline_view, inlines_view, opt_view, Inline, InlineV};
use vstd::prelude::*;
use vstd::utf8::encode_utf8;

verus! {

#[verifier::external_type_specification]
#[verifier::external_body]
pub struct ExVDom<'a>(tl::VDom<'a>);

/// A node of a parsed HTML document, as plain values: a tag with its name,
/// attributes (name to optional value), child node indices and inner text;
/// raw text; or a comment.
pub enum HtmlNodeV {
    Tag {
        name: Seq<char>,
        attrs: Map<Seq<char>, Option<Seq<char>>>,
        children: Seq<int>,
        text: Seq<char>,
    },
    Raw(Seq<char>),
    Comment,
}

/// The nodes of a parsed document, in document order.
pub uninterp spec fn html_nodes(d: &tl::VDom) -> Seq<HtmlNodeV>;

/// The indices of the top-level nodes of a parsed document.
pub uninterp spec fn html_top(d: &tl::VDom) -> Seq<int>;

/// The nodes and top-level node indices `tl` parses from an HTML text.
pub uninterp spec fn tl_parse(html: Seq<char>) -> (Seq<HtmlNodeV>, Seq<int>);

/// Every node index refers to a node, and a tag's children come after it.
pub open spec fn dom_wf(ns: Seq<HtmlNodeV>, top: Seq<int>) -> bool {
    &&& forall|k: int| 0 <= k < top.len() ==> 0 <= #[trigger] top[k] < ns.len()
    &&& forall|i: int, k: int|
        0 <= i < ns.len() && ns[i] is Tag && 0 <= k < ns[i]->children.len() ==> i
            < #[trigger] ns[i]->children[k] < ns.len()
}

/// The kind of a parsed node.
#[derive(PartialEq, Eq, Structural, Clone, Copy)]
pub enum NodeKind {
    Tag,
    Raw,
    Comment,
}

/// The kind of a node model.
pub open spec fn kind_of(n: HtmlNodeV) -> NodeKind {
    match n {
        HtmlNodeV::Tag { .. } => NodeKind::Tag,
        HtmlNodeV::Raw(_) => NodeKind::Raw,
        HtmlNodeV::Comment => NodeKind::Comment,
    }
}

/// The text of a node: a tag's inner text, raw text, or nothing for a comment.
pub open spec fn node_text(n: HtmlNodeV) -> Seq<char> {
    match n {
        HtmlNodeV::Tag { text, .. } => text,
        HtmlNodeV::Raw(t) => t,
        HtmlNodeV::Comment => Seq::empty(),
    }
}

/// The value of attribute `key` of a node: `None` when absent (or not a
/// tag), `Some(None)` when present without a value.
pub open spec fn raw_attr(n: HtmlNodeV, key: Seq<char>) -> Option<Option<Seq<char>>> {
    match n {
        HtmlNodeV::Tag { attrs, .. } => if attrs.dom().contains(key) {
            Some(attrs[key])
        } else {
            None
        },
        _ => None,
    }
}

/// The view of an optional optional string.
pub open spec fn opt_opt_view(o: Option<Option<String>>) -> Option<Option<Seq<char>>> {
    match o {
        Some(Some(s)) => Some(Some(s@)),
        Some(None) => Some(None),
        None => None,
    }
}

/// `tl::parse` with default options; it refuses inputs longer than
/// `u32::MAX` bytes. The parsed nodes are named by [`tl_parse`]; every index
/// they hold refers to a node, and a tag's children are registered after it.
#[verifier::external_body]
fn parse_dom<'a>(html: &'a str) -> (r: Option<tl::VDom<'a>>)
    ensures
        r is Some <==> encode_utf8(html@).len() <= u32::MAX,
        r matches Some(d) ==> (html_nodes(&d), html_top(&d)) == tl_parse(html@),
        r matches Some(d) ==> dom_wf(html_nodes(&d), html_top(&d)),
{
    tl::parse(html, tl::ParserOptions::default()).ok()
}

/// `VDom::nodes().len()`: the number of nodes.
#[verifier::external_body]
fn node_count(d: &tl::VDom) -> (r: usize)
    ensures
        r == html_nodes(d).len(),
{
    d.nodes().len()
}

/// `VDom::children().len()`: the number of top-level nodes.
#[verifier::external_body]
fn top_count(d: &tl::VDom) -> (r: usize)
    ensures
        r == html_top(d).len(),
{
    d.children().len()
}

/// `VDom::children()[k]`: the index of the `k`-th top-level node.
#[verifier::external_body]
fn top_at(d: &tl::VDom, k: usize) -> (r: usize)
    requires
        k < html_top(d).len(),
    ensures
        r == html_top(d)[k as int],
{
    d.children()[k].get_inner() as usize
}

/// The variant of `VDom::nodes()[i]`.
#[verifier::external_body]
fn node_kind(d: &tl::VDom, i: usize) -> (r: NodeKind)
    requires
        i < html_nodes(d).len(),
    ensures
        r == kind_of(html_nodes(d)[i as int]),
{
    match &d.nodes()[i] {
        tl::Node::Tag(_) => NodeKind::Tag,
        tl::Node::Raw(_) => NodeKind::Raw,
        tl::Node::Comment(_) => NodeKind::Comment,
    }
}

/// `Node::inner_text` of `VDom::nodes()[i]`.
#[verifier::external_body]
fn node_inner_text(d: &tl::VDom, i: usize) -> (r: String)
    requires
        i < html_nodes(d).len(),
    ensures
        r@ == node_text(html_nodes(d)[i as int]),
{
    d.nodes()[i].inner_text(d.parser()).into_owned()
}

/// The name of the tag `VDom::nodes()[i]`.
#[verifier::external_body]
fn tag_name(d: &tl::VDom, i: usize) -> (r: String)
    requires
        i < html_nodes(d).len(),
        html_nodes(d)[i as int] is Tag,
    ensures
        r@ == html_nodes(d)[i as int]->name,
{
    match &d.nodes()[i] {
        tl::Node::Tag(t) => t.name().as_utf8_str().into_owned(),
        tl::Node::Raw(_) => String::new(),
        tl::Node::Comment(_) => String::new(),
    }
}

/// `HTMLTag::attributes().get(key)` of the tag `VDom::nodes()[i]`.
#[verifier::external_body]
fn tag_attr(d: &tl::VDom, i: usize, key: &'static str) -> (r: Option<Option<String>>)
    requires
        i < html_nodes(d).len(),
        html_nodes(d)[i as int] is Tag,
    ensures
        opt_opt_view(r) == raw_attr(html_nodes(d)[i as int], key@),
{
    match &d.nodes()[i] {
        tl::Node::Tag(t) => t.attributes().get(key).map(|v| v.map(|b| b.as_utf8_str().into_owned())),
        tl::Node::Raw(_) => None,
        tl::Node::Comment(_) => None,
    }
}

/// The number of direct children of the tag `VDom::nodes()[i]`.
#[verifier::external_body]
fn child_count(d: &tl::VDom, i: usize) -> (r: usize)
    requires
        i < html_nodes(d).len(),
        html_nodes(d)[i as int] is Tag,
    ensures
        r == html_nodes(d)[i as int]->children.len(),
{
    match &d.nodes()[i] {
        tl::Node::Tag(t) => t.children().top().len(),
        tl::Node::Raw(_) => 0,
        tl::Node::Comment(_) => 0,
    }
}

/// The index of the `k`-th direct child of the tag `VDom::nodes()[i]`.
#[verifier::external_body]
fn child_at(d: &tl::VDom, i: usize, k: usize) -> (r: usize)
    requires
        i < html_nodes(d).len(),
        html_nodes(d)[i as int] is Tag,
        k < html_nodes(d)[i as int]->children.len(),
    ensures
        r == html_nodes(d)[i as int]->children[k as int],
{
    match &d.nodes()[i] {
        tl::Node::Tag(t) => t.children().top()[k].get_inner() as usize,
        tl::Node::Raw(_) => 0,
        tl::Node::Comment(_) => 0,
    }
}

// -- Text helpers -------------------------------------------------------

/// The entity that starts at `i`, if any, as its length and the character
/// it stands for: `&amp;`, `&lt;`, `&gt;`, `&quot;`, `&#39;`, `&apos;` and
/// `&nbsp;` (U+00A0).
pub open spec fn entity_at(s: Seq<char>, i: int) -> Option<(int, char)> {
    if occurs_at(s, i, seq!['&', 'a', 'm', 'p', ';']) {
        Some((5, '&'))
    } else if occurs_at(s, i, seq!['&', 'l', 't', ';']) {
        Some((4, '<'))
    } else if occurs_at(s, i, seq!['&', 'g', 't', ';']) {
        Some((4, '>'))
    } else if occurs_at(s, i, seq!['&', 'q', 'u', 'o', 't', ';']) {
        Some((6, '"'))
    } else if occurs_at(s, i, seq!['&', '#', '3', '9', ';']) {
        Some((5, '\''))
    } else if occurs_at(s, i, seq!['&', 'a', 'p', 'o', 's', ';']) {
        Some((6, '\''))
    } else if occurs_at(s, i, seq!['&', 'n', 'b', 's', 'p', ';']) {
        Some((6, '\u{a0}'))
    } else {
        None
    }
}

/// `s[i..]` with its entities decoded in one pass from left to right: each
/// entity becomes its character, and the text a decoded entity yields is not
/// read again.
pub open spec fn decode_from(s: Seq<char>, i: int) -> Seq<char>
    decreases s.len() - i,
{
    if i < 0 || i >= s.len() {
        Seq::empty()
    } else {
        match entity_at(s, i) {
            Some((n, c)) => seq![c] + decode_from(s, i + n),
            None => seq![s[i]] + decode_from(s, i + 1),
        }
    }
}

/// The common HTML entities of `s` decoded, each once.
pub open spec fn decode_entities(s: Seq<char>) -> Seq<char> {
    decode_from(s, 0)
}

/// Whether `p` occurs in `v` at `i`.
fn occurs_vec(v: &Vec<char>, i: usize, p: &Vec<char>) -> (r: bool)
    requires
        i <= v.len(),
    ensures
        r == occurs_at(v@, i as int, p@),
{
    p.len() <= v.len() - i && slice_eq(v, i, i + p.len(), p)
}

/// The entity at `v[i..]` (see [`entity_at`]).
fn entity_at_vec(v: &Vec<char>, i: usize) -> (r: Option<(usize, char)>)
    requires
        i < v.len(),
    ensures
        match r {
            Some((n, c)) => entity_at(v@, i as int) == Some((n as int, c)) && 1 <= n <= v.len() - i,
            None => entity_at(v@, i as int) is None,
        },
{
    let p1 = vec!['&', 'a', 'm', 'p', ';'];
    let p2 = vec!['&', 'l', 't', ';'];
    let p3 = vec!['&', 'g', 't', ';'];
    let p4 = vec!['&', 'q', 'u', 'o', 't', ';'];
    let p5 = vec!['&', '#', '3', '9', ';'];
    let p6 = vec!['&', 'a', 'p', 'o', 's', ';'];
    let p7 = vec!['&', 'n', 'b', 's', 'p', ';'];
    assert(p1@ =~= seq!['&', 'a', 'm', 'p', ';']);
    assert(p2@ =~= seq!['&', 'l', 't', ';']);
    assert(p3@ =~= seq!['&', 'g', 't', ';']);
    assert(p4@ =~= seq!['&', 'q', 'u', 'o', 't', ';']);
    assert(p5@ =~= seq!['&', '#', '3', '9', ';']);
    assert(p6@ =~= seq!['&', 'a', 'p', 'o', 's', ';']);
    assert(p7@ =~= seq!['&', 'n', 'b', 's', 'p', ';']);
    if occurs_vec(v, i, &p1) {
        Some((5, '&'))
    } else if occurs_vec(v, i, &p2) {
        Some((4, '<'))
    } else if occurs_vec(v, i, &p3) {
        Some((4, '>'))
    } else if occurs_vec(v, i, &p4) {
        Some((6, '"'))
    } else if occurs_vec(v, i, &p5) {
        Some((5, '\''))
    } else if occurs_vec(v, i, &p6) {
        Some((6, '\''))
    } else if occurs_vec(v, i, &p7) {
        Some((6, '\u{a0}'))
    } else {
        None
    }
}

/// Executable [`decode_entities`].
fn decode_vec(v: &Vec<char>) -> (r: Vec<char>)
    ensures
        r@ == decode_entities(v@),
{
    let mut r: Vec<char> = Vec::new();
    let mut i: usize = 0;
    while i < v.len()
        invariant
            i <= v.len(),
            r@ + decode_from(v@, i as int) == decode_from(v@, 0),
        decreases v.len() - i,
    {
        let ghost before = r@;
        match entity_at_vec(v, i) {
            Some((n, c)) => {
                r.push(c);
                assert(before + decode_from(v@, i as int) =~= r@ + decode_from(v@, i + n));
                i = i + n;
            },
            None => {
                r.push(v[i]);
                assert(before + decode_from(v@, i as int) =~= r@ + decode_from(v@, i + 1));
                i = i + 1;
            },
        }
    }
    assert(r@ + Seq::<char>::empty() =~= r@);
    r
}

/// A string holding all the characters of `v`.
fn string_of_all(v: &Vec<char>) -> (r: String)
    ensures
        r@ == v@,
{
    let r = string_of(v, 0, v.len());
    assert(v@.subrange(0, v@.len() as int) =~= v@);
    r
}

/// Decode common HTML entities.
pub fn decode_html_entities(text: &str) -> (r: String)
    ensures
        r@ == decode_entities(text@),
{
    let v = chars_of(text);
    string_of_all(&decode_vec(&v))
}

/// `p` occurs in `s` at `i`.
pub open spec fn occurs_at(s: Seq<char>, i: int, p: Seq<char>) -> bool {
    0 <= i && i + p.len() <= s.len() && s.subrange(i, i + p.len()) == p
}

/// `str::contains`.
pub open spec fn seq_contains(s: Seq<char>, p: Seq<char>) -> bool {
    exists|i: int| occurs_at(s, i, p)
}

/// Executable [`seq_contains`] on `v[lo..hi]`.
fn contains_at(v: &Vec<char>, lo: usize, hi: usize, p: &Vec<char>) -> (r: bool)
    requires
        lo <= hi <= v.len(),
    ensures
        r == seq_contains(v@.subrange(lo as int, hi as int), p@),
{
    let ghost s = v@.subrange(lo as int, hi as int);
    if p.len() > hi - lo {
        assert forall|i: int| !occurs_at(s, i, p@) by {}
        return false;
    }
    if p.len() == 0 {
        assert(s.subrange(0, 0) =~= p@);
        assert(occurs_at(s, 0, p@));
        return true;
    }
    let mut i = lo;
    while i < hi - p.len() + 1
        invariant
            lo <= i <= hi - p.len() + 1,
            p.len() >= 1,
            p.len() <= hi - lo,
            hi <= v.len(),
            s == v@.subrange(lo as int, hi as int),
            forall|k: int| 0 <= k < i - lo ==> !occurs_at(s, k, p@),
        decreases hi - i,
    {
        if slice_eq(v, i, i + p.len(), p) {
            assert(s.subrange(i - lo, i - lo + p.len()) =~= v@.subrange(i as int, i + p.len()));
            assert(occurs_at(s, i - lo, p@));
            return true;
        }
        assert(s.subrange(i - lo, i - lo + p.len()) =~= v@.subrange(i as int, i + p.len()));
        i = i + 1;
    }
    assert forall|k: int| !occurs_at(s, k, p@) by {
        if 0 <= k < i - lo {
        }
    }
    false
}

/// `s` without its whitespace characters.
pub open spec fn remove_ws(s: Seq<char>) -> Seq<char>
    decreases s.len(),
{
    if s.len() == 0 {
        Seq::empty()
    } else if is_ws(s.last()) {
        remove_ws(s.drop_last())
    } else {
        remove_ws(s.drop_last()).push(s.last())
    }
}

/// Executable [`remove_ws`] of `v[lo..hi]`.
fn remove_ws_at(v: &Vec<char>, lo: usize, hi: usize) -> (r: Vec<char>)
    requires
        lo <= hi <= v.len(),
    ensures
        r@ == remove_ws(v@.subrange(lo as int, hi as int)),
{
    let mut r: Vec<char> = Vec::new();
    let mut i = lo;
    assert(v@.subrange(lo as int, lo as int) =~= Seq::<char>::empty());
    while i < hi
        invariant
            lo <= i <= hi <= v.len(),
            r@ == remove_ws(v@.subrange(lo as int, i as int)),
        decreases hi - i,
    {
        let ghost pre = v@.subrange(lo as int, i + 1);
        assert(pre.drop_last() =~= v@.subrange(lo as int, i as int));
        assert(pre.last() == v@[i as int]);
        if !char_is_ws(v[i]) {
            r.push(v[i]);
        }
        i = i + 1;
    }
    r
}

/// Executable [`lower_seq`].
fn lower_vec(v: &Vec<char>) -> (r: Vec<char>)
    ensures
        r@ == lower_seq(v@),
{
    let mut r: Vec<char> = Vec::new();
    let mut i: usize = 0;
    while i < v.len()
        invariant
            i <= v.len(),
            r@ =~= lower_seq(v@.subrange(0, i as int)),
        decreases v.len() - i,
    {
        r.push(to_lower(v[i]));
        i = i + 1;
    }
    assert(v@.subrange(0, v@.len() as int) =~= v@);
    r
}

/// `s` ends with `p`.
pub open spec fn has_suffix(s: Seq<char>, p: Seq<char>) -> bool {
    p.len() <= s.len() && s.subrange(s.len() - p.len(), s.len() as int) == p
}

/// An HTML block that is only a comment: the trimmed text starts with
/// `<!--`, ends with `-->` and has no other `<!--` after the first.
pub open spec fn spec_comment_only(html: Seq<char>) -> bool {
    let t = trim(html);
    let open = seq!['<', '!', '-', '-'];
    has_prefix(t, open) && has_suffix(t, seq!['-', '-', '>']) && !seq_contains(
        t.subrange(4, t.len() as int),
        open,
    )
}

/// Check if an HTML block is only a comment (`<!-- ... -->`).
pub fn is_html_comment_only(html: &str) -> (r: bool)
    ensures
        r == spec_comment_only(html@),
{
    let v = chars_of(html);
    let (a, b) = trim_bounds(&v, 0, v.len());
    assert(v@.subrange(0, v@.len() as int) =~= v@);
    let t = sub_vec(&v, a, b);
    let n = t.len();
    let open = vec!['<', '!', '-', '-'];
    let close = vec!['-', '-', '>'];
    assert(open@ =~= seq!['<', '!', '-', '-']);
    assert(close@ =~= seq!['-', '-', '>']);
    assert(t@.subrange(0, n as int) =~= t@);
    if !slice_starts_with(&t, 0, n, &open) {
        return false;
    }
    if n < 3 || !slice_eq(&t, n - 3, n, &close) {
        return false;
    }
    !contains_at(&t, 4, n, &open)
}

/// An HTML block that is only a `</details>` closing tag, ignoring case and
/// whitespace.
pub open spec fn spec_details_close_only(html: Seq<char>) -> bool {
    let stripped = remove_ws(lower_seq(trim(html)));
    stripped == seq!['<', '/', 'd', 'e', 't', 'a', 'i', 'l', 's', '>'] || stripped == seq![
        '<',
        '/',
        'd',
        'e',
        't',
        'a',
        'i',
        'l',
        's',
        '>',
        '\n',
    ]
}

/// Check if an HTML block is only a `</details>` closing tag.
pub fn is_details_close_only(html: &str) -> (r: bool)
    ensures
        r == spec_details_close_only(html@),
{
    let v = chars_of(html);
    let (a, b) = trim_bounds(&v, 0, v.len());
    assert(v@.subrange(0, v@.len() as int) =~= v@);
    let t = sub_vec(&v, a, b);
    let low = lower_vec(&t);
    let stripped = remove_ws_at(&low, 0, low.len());
    assert(low@.subrange(0, low@.len() as int) =~= low@);
    let n = stripped.len();
    let tag = vec!['<', '/', 'd', 'e', 't', 'a', 'i', 'l', 's', '>'];
    let tag_nl = vec!['<', '/', 'd', 'e', 't', 'a', 'i', 'l', 's', '>', '\n'];
    assert(stripped@.subrange(0, n as int) =~= stripped@);
    slice_eq(&stripped, 0, n, &tag) || slice_eq(&stripped, 0, n, &tag_nl)
}

/// The trimmed block is `</div>`, ignoring ASCII case.
pub open spec fn spec_div_close(html: Seq<char>) -> bool {
    lower_seq(trim(html)) == seq!['<', '/', 'd', 'i', 'v', '>']
}

/// Check if an HTML block closes a `</div>`.
pub fn is_centered_div_close(html: &str) -> (r: bool)
    ensures
        r == spec_div_close(html@),
{
    let v = chars_of(html);
    let (a, b) = trim_bounds(&v, 0, v.len());
    assert(v@.subrange(0, v@.len() as int) =~= v@);
    let t = sub_vec(&v, a, b);
    let low = lower_vec(&t);
    let tag = vec!['<', '/', 'd', 'i', 'v', '>'];
    assert(low@.subrange(0, low@.len() as int) =~= low@);
    slice_eq(&low, 0, low.len(), &tag)
}

// -- Reading tags -------------------------------------------------------

/// An attribute's value with entities decoded; `None` when the attribute is
/// absent or has no value.
pub open spec fn attr_val(n: HtmlNodeV, key: Seq<char>) -> Option<Seq<char>> {
    match raw_attr(n, key) {
        Some(Some(v)) => Some(decode_entities(v)),
        _ => None,
    }
}

/// Get an attribute value of the tag `i`, entities decoded.
fn attr(d: &tl::VDom, i: usize, key: &'static str) -> (r: Option<String>)
    requires
        i < html_nodes(d).len(),
        html_nodes(d)[i as int] is Tag,
    ensures
        opt_view(r) == attr_val(html_nodes(d)[i as int], key@),
{
    match tag_attr(d, i, key) {
        Some(Some(v)) => Some(decode_html_entities(v.as_str())),
        _ => None,
    }
}

/// A tag is center-aligned: `align` is `center` (any case), or `style`
/// contains `text-align:center` once whitespace is removed (any case).
pub open spec fn center_aligned(n: HtmlNodeV) -> bool {
    ||| attr_val(n, seq!['a', 'l', 'i', 'g', 'n']) matches Some(a) && lower_seq(a) == seq![
        'c',
        'e',
        'n',
        't',
        'e',
        'r',
    ]
    ||| attr_val(n, seq!['s', 't', 'y', 'l', 'e']) matches Some(st) && seq_contains(
        lower_seq(remove_ws(st)),
        seq!['t', 'e', 'x', 't', '-', 'a', 'l', 'i', 'g', 'n', ':', 'c', 'e', 'n', 't', 'e', 'r'],
    )
}

/// Check if the tag `i` is center-aligned (see [`center_aligned`]).
fn is_center_aligned(d: &tl::VDom, i: usize) -> (r: bool)
    requires
        i < html_nodes(d).len(),
        html_nodes(d)[i as int] is Tag,
    ensures
        r == center_aligned(html_nodes(d)[i as int]),
{
    proof {
        reveal_strlit("align");
        reveal_strlit("style");
    }
    assert("align"@ =~= seq!['a', 'l', 'i', 'g', 'n']);
    assert("style"@ =~= seq!['s', 't', 'y', 'l', 'e']);
    let center = vec!['c', 'e', 'n', 't', 'e', 'r'];
    assert(center@ =~= seq!['c', 'e', 'n', 't', 'e', 'r']);
    let pat = vec!['t', 'e', 'x', 't', '-', 'a', 'l', 'i', 'g', 'n', ':', 'c', 'e', 'n', 't', 'e', 'r'];
    assert(pat@ =~= seq!['t', 'e', 'x', 't', '-', 'a', 'l', 'i', 'g', 'n', ':', 'c', 'e', 'n', 't', 'e', 'r']);
    let al = attr(d, i, "align");
    let mut by_align = false;
    if let Some(a) = al {
        let av = chars_of(a.as_str());
        let low = lower_vec(&av);
        assert(low@.subrange(0, low@.len() as int) =~= low@);
        by_align = slice_eq(&low, 0, low.len(), &center);
    }
    if by_align {
        return true;
    }
    let sty = attr(d, i, "style");
    if let Some(st) = sty {
        let sv = chars_of(st.as_str());
        let norm = remove_ws_at(&sv, 0, sv.len());
        assert(sv@.subrange(0, sv@.len() as int) =~= sv@);
        let low = lower_vec(&norm);
        assert(low@.subrange(0, low@.len() as int) =~= low@);
        return contains_at(&low, 0, low.len(), &pat);
    }
    false
}

/// `h1`..`h6` gives the level; any other name gives `None`.
pub open spec fn heading_level(name: Seq<char>) -> Option<u8> {
    if name.len() == 2 && name[0] == 'h' && '1' <= name[1] && name[1] <= '6' {
        Some(((name[1] as u32) - 48) as u8)
    } else {
        None
    }
}

/// Executable [`heading_level`].
fn heading_level_of(name: &Vec<char>) -> (r: Option<u8>)
    ensures
        r == heading_level(name@),
{
    if name.len() == 2 && name[0] == 'h' && '1' <= name[1] && name[1] <= '6' {
        Some(((name[1] as u32) - 48) as u8)
    } else {
        None
    }
}

/// The lowercase name of a tag node (empty for other nodes).
pub open spec fn lname(n: HtmlNodeV) -> Seq<char> {
    match n {
        HtmlNodeV::Tag { name, .. } => lower_seq(name),
        _ => Seq::empty(),
    }
}

/// The lowercase name of the tag `i`.
fn tag_lower(d: &tl::VDom, i: usize) -> (r: Vec<char>)
    requires
        i < html_nodes(d).len(),
        html_nodes(d)[i as int] is Tag,
    ensures
        r@ == lname(html_nodes(d)[i as int]),
{
    let n = tag_name(d, i);
    let v = chars_of(n.as_str());
    lower_vec(&v)
}

/// Whether node `i` is a tag whose lowercase name is `name`.
fn is_tag_named(d: &tl::VDom, i: usize, name: &Vec<char>) -> (r: bool)
    requires
        i < html_nodes(d).len(),
    ensures
        r == (html_nodes(d)[i as int] is Tag && lname(html_nodes(d)[i as int]) == name@),
{
    match node_kind(d, i) {
        NodeKind::Tag => {},
        _ => {
            return false;
        },
    }
    let low = tag_lower(d, i);
    assert(low@.subrange(0, low@.len() as int) =~= low@);
    slice_eq(&low, 0, low.len(), name)
}

/// Index of the first tag at or after `i` whose lowercase name is `name`, or
/// `ns.len()`.
pub open spec fn first_tag_named(ns: Seq<HtmlNodeV>, name: Seq<char>, i: int) -> int
    decreases ns.len() - i,
{
    if i < 0 || i >= ns.len() {
        ns.len() as int
    } else if ns[i] is Tag && lname(ns[i]) == name {
        i
    } else {
        first_tag_named(ns, name, i + 1)
    }
}

proof fn lemma_first_tag_named(ns: Seq<HtmlNodeV>, name: Seq<char>, i: int)
    requires
        0 <= i <= ns.len(),
    ensures
        i <= first_tag_named(ns, name, i) <= ns.len(),
        first_tag_named(ns, name, i) < ns.len() ==> ns[first_tag_named(ns, name, i)] is Tag
            && lname(ns[first_tag_named(ns, name, i)]) == name,
    decreases ns.len() - i,
{
    if i < ns.len() && !(ns[i] is Tag && lname(ns[i]) == name) {
        lemma_first_tag_named(ns, name, i + 1);
    }
}

/// Executable [`first_tag_named`] from 0.
fn find_first_tag(d: &tl::VDom, name: &Vec<char>) -> (r: usize)
    ensures
        r == first_tag_named(html_nodes(d), name@, 0),
        r <= html_nodes(d).len(),
        r < html_nodes(d).len() ==> html_nodes(d)[r as int] is Tag,
{
    let n = node_count(d);
    let mut i: usize = 0;
    proof {
        lemma_first_tag_named(html_nodes(d), name@, 0);
    }
    while i < n
        invariant
            n == html_nodes(d).len(),
            i <= n,
            first_tag_named(html_nodes(d), name@, 0) == first_tag_named(html_nodes(d), name@, i as int),
        decreases n - i,
    {
        if is_tag_named(d, i, name) {
            return i;
        }
        i = i + 1;
    }
    n
}

/// A vector whose only element is `x`.
pub fn single(x: Inline) -> (r: Vec<Inline>)
    ensures
        inlines_view(r@) == seq![inline_view(x)],
{
    let mut r: Vec<Inline> = Vec::new();
    r.push(x);
    proof {
        crate::types::lemma_inlines_view_push(Seq::<Inline>::empty(), x);
        assert(Seq::<Inline>::empty().push(x) =~= r@);
        assert(inlines_view(Seq::<Inline>::empty()) =~= Seq::<InlineV>::empty());
    }
    r
}

/// Whether `v` holds exactly the characters of `p`.
fn vec_is(v: &Vec<char>, p: &Vec<char>) -> (r: bool)
    ensures
        r == (v@ == p@),
{
    assert(v@.subrange(0, v@.len() as int) =~= v@);
    slice_eq(v, 0, v.len(), p)
}

// -- Summary text -------------------------------------------------------

/// The inner texts of the top-level nodes from the `k`-th on, concatenated.
pub open spec fn top_text(ns: Seq<HtmlNodeV>, top: Seq<int>, k: int) -> Seq<char>
    decreases top.len() - k,
{
    if k < 0 || k >= top.len() {
        Seq::empty()
    } else {
        (if 0 <= top[k] < ns.len() {
            node_text(ns[top[k]])
        } else {
            Seq::empty()
        }) + top_text(ns, top, k + 1)
    }
}

/// The text of a `<summary>`: the inner texts of the parsed top-level nodes
/// concatenated (tags stripped by hand when `tl` refuses the input), trimmed.
pub open spec fn spec_summary_text(text: Seq<char>) -> Seq<char> {
    trim(
        if encode_utf8(text).len() <= u32::MAX {
            top_text(tl_parse(text).0, tl_parse(text).1, 0)
        } else {
            strip_tags(text)
        },
    )
}

/// The inlines of a `<summary>`: one text holding [`spec_summary_text`], or
/// `Details` when that is empty.
pub open spec fn spec_summary_inlines(text: Seq<char>) -> Seq<InlineV> {
    let t = spec_summary_text(text);
    if t.len() == 0 {
        seq![InlineV::Text(seq!['D', 'e', 't', 'a', 'i', 'l', 's'])]
    } else {
        seq![InlineV::Text(t)]
    }
}

/// The concatenated inner texts of the top-level nodes of a parsed document.
fn dom_top_text(d: &tl::VDom) -> (r: Vec<char>)
    requires
        dom_wf(html_nodes(d), html_top(d)),
    ensures
        r@ == top_text(html_nodes(d), html_top(d), 0),
{
    let n = top_count(d);
    let mut acc: Vec<char> = Vec::new();
    let mut k: usize = 0;
    while k < n
        invariant
            n == html_top(d).len(),
            dom_wf(html_nodes(d), html_top(d)),
            k <= n,
            acc@ + top_text(html_nodes(d), html_top(d), k as int) == top_text(
                html_nodes(d),
                html_top(d),
                0,
            ),
        decreases n - k,
    {
        let h = top_at(d, k);
        let t = node_inner_text(d, h);
        let tv = chars_of(t.as_str());
        let ghost before = acc@;
        append_range(&mut acc, &tv, 0, tv.len());
        assert(tv@.subrange(0, tv@.len() as int) =~= tv@);
        assert(before + top_text(html_nodes(d), html_top(d), k as int) =~= acc@ + top_text(
            html_nodes(d),
            html_top(d),
            k + 1,
        ));
        k = k + 1;
    }
    assert(acc@ + Seq::<char>::empty() =~= acc@);
    acc
}

/// Parse a `<summary>` text into inlines: tags stripped, one text inline.
pub fn summary_inlines_from_text(text: &str) -> (r: Vec<Inline>)
    ensures
        inlines_view(r@) == spec_summary_inlines(text@),
{
    let stripped: Vec<char> = match parse_dom(text) {
        Some(dom) => dom_top_text(&dom),
        None => {
            let v = chars_of(text);
            let st = strip_tags_at(&v, 0, v.len());
            assert(v@.subrange(0, v@.len() as int) =~= v@);
            chars_of(st.as_str())
        },
    };
    let (a, b) = trim_bounds(&stripped, 0, stripped.len());
    assert(stripped@.subrange(0, stripped@.len() as int) =~= stripped@);
    if a == b {
        let dv = vec!['D', 'e', 't', 'a', 'i', 'l', 's'];
        assert(dv@ =~= seq!['D', 'e', 't', 'a', 'i', 'l', 's']);
        single(Inline::Text(string_of_all(&dv)))
    } else {
        single(Inline::Text(string_of(&stripped, a, b)))
    }
}

// -- Block-level checks -------------------------------------------------

/// The block opens a centered `<div>`: it parses, and its first `div` tag is
/// center-aligned.
pub open spec fn spec_centered_div_open(html: Seq<char>) -> bool {
    encode_utf8(html).len() <= u32::MAX && {
        let ns = tl_parse(html).0;
        let i = first_tag_named(ns, seq!['d', 'i', 'v'], 0);
        i < ns.len() && center_aligned(ns[i])
    }
}

/// Check if an HTML block opens a centered div.
pub fn is_centered_div_open(html: &str) -> (r: bool)
    ensures
        r == spec_centered_div_open(html@),
{
    match parse_dom(html) {
        None => false,
        Some(dom) => {
            let div = vec!['d', 'i', 'v'];
            assert(div@ =~= seq!['d', 'i', 'v']);
            let i = find_first_tag(&dom, &div);
            if i < node_count(&dom) {
                is_center_aligned(&dom, i)
            } else {
                false
            }
        },
    }
}

/// Index of the first tag at or after `i` whose lowercase name is a heading
/// (`h1`..`h6`), or `ns.len()`.
pub open spec fn first_heading(ns: Seq<HtmlNodeV>, i: int) -> int
    decreases ns.len() - i,
{
    if i < 0 || i >= ns.len() {
        ns.len() as int
    } else if ns[i] is Tag && heading_level(lname(ns[i])) is Some {
        i
    } else {
        first_heading(ns, i + 1)
    }
}

/// The first heading tag of the parsed block: its level and trimmed inner text.
pub open spec fn spec_html_heading(html: Seq<char>) -> Option<(u8, Seq<char>)> {
    if encode_utf8(html).len() <= u32::MAX {
        let ns = tl_parse(html).0;
        let i = first_heading(ns, 0);
        if 0 <= i < ns.len() {
            Some((heading_level(lname(ns[i])).unwrap(), trim(node_text(ns[i]))))
        } else {
            None
        }
    } else {
        None
    }
}

/// The view of an optional level and text.
pub open spec fn heading_view(o: Option<(u8, String)>) -> Option<(u8, Seq<char>)> {
    match o {
        Some((l, t)) => Some((l, t@)),
        None => None,
    }
}

/// Check if an HTML block is a heading tag (`<h1>` through `<h6>`).
/// Returns the level and inner text of the first one.
pub fn parse_html_heading(html: &str) -> (r: Option<(u8, String)>)
    ensures
        heading_view(r) == spec_html_heading(html@),
{
    let dom = match parse_dom(html) {
        Some(dom) => dom,
        None => {
            return None;
        },
    };
    let n = node_count(&dom);
    let mut i: usize = 0;
    while i < n
        invariant
            n == html_nodes(&dom).len(),
            i <= n,
            html_nodes(&dom) == tl_parse(html@).0,
            encode_utf8(html@).len() <= u32::MAX,
            first_heading(html_nodes(&dom), 0) == first_heading(html_nodes(&dom), i as int),
        decreases n - i,
    {
        match node_kind(&dom, i) {
            NodeKind::Tag => {
                let name = tag_lower(&dom, i);
                match heading_level_of(&name) {
                    Some(level) => {
                        let t = node_inner_text(&dom, i);
                        let tv = chars_of(t.as_str());
                        let (a, b) = trim_bounds(&tv, 0, tv.len());
                        assert(tv@.subrange(0, tv@.len() as int) =~= tv@);
                        return Some((level, string_of(&tv, a, b)));
                    },
                    None => {},
                }
            },
            _ => {},
        }
        i = i + 1;
    }
    None
}

/// Some tag at or after `i` is a `p` or a heading and is center-aligned.
pub open spec fn centered_para_from(ns: Seq<HtmlNodeV>, i: int) -> bool
    decreases ns.len() - i,
{
    if i < 0 || i >= ns.len() {
        false
    } else if ns[i] is Tag && (lname(ns[i]) == seq!['p'] || heading_level(lname(ns[i])) is Some)
        && center_aligned(ns[i]) {
        true
    } else {
        centered_para_from(ns, i + 1)
    }
}

/// The block parses and has a centered `<p>` or `<h1>`–`<h6>`.
pub open spec fn spec_centered_paragraph(html: Seq<char>) -> bool {
    encode_utf8(html).len() <= u32::MAX && centered_para_from(tl_parse(html).0, 0)
}

/// Check if an HTML block has a centered `<p>` or `<h1>`-`<h6>`.
pub fn is_centered_paragraph(html: &str) -> (r: bool)
    ensures
        r == spec_centered_paragraph(html@),
{
    let dom = match parse_dom(html) {
        Some(dom) => dom,
        None => {
            return false;
        },
    };
    let pv = vec!['p'];
    assert(pv@ =~= seq!['p']);
    let n = node_count(&dom);
    let mut i: usize = 0;
    while i < n
        invariant
            n == html_nodes(&dom).len(),
            i <= n,
            pv@ == seq!['p'],
            html_nodes(&dom) == tl_parse(html@).0,
            encode_utf8(html@).len() <= u32::MAX,
            centered_para_from(html_nodes(&dom), 0) == centered_para_from(html_nodes(&dom), i as int),
        decreases n - i,
    {
        match node_kind(&dom, i) {
            NodeKind::Tag => {
                let name = tag_lower(&dom, i);
                let relevant = vec_is(&name, &pv) || heading_level_of(&name).is_some();
                if relevant && is_center_aligned(&dom, i) {
                    return true;
                }
            },
            _ => {},
        }
        i = i + 1;
    }
    false
}

// -- Images -------------------------------------------------------------

/// An image from an `<img>` tag: `None` without `src`; `alt` defaults to
/// empty; the given dark and light variants.
pub open spec fn img_with(
    n: HtmlNodeV,
    dark: Option<Seq<char>>,
    light: Option<Seq<char>>,
) -> Option<InlineV> {
    match attr_val(n, seq!['s', 'r', 'c']) {
        None => None,
        Some(src) => Some(
            InlineV::Image {
                url: src,
                title: None,
                alt: match attr_val(n, seq!['a', 'l', 't']) {
                    Some(a) => a,
                    None => Seq::empty(),
                },
                width: attr_val(n, seq!['w', 'i', 'd', 't', 'h']),
                height: attr_val(n, seq!['h', 'e', 'i', 'g', 'h', 't']),
                dark_url: dark,
                light_url: light,
            },
        ),
    }
}

/// The view of an optional inline.
pub open spec fn opt_inline_view(o: Option<Inline>) -> Option<InlineV> {
    match o {
        Some(x) => Some(inline_view(x)),
        None => None,
    }
}

/// Build an image inline from the `<img>` tag `i` (see [`img_with`]).
fn img_from_tag(d: &tl::VDom, i: usize, dark: Option<String>, light: Option<String>) -> (r:
    Option<Inline>)
    requires
        i < html_nodes(d).len(),
        html_nodes(d)[i as int] is Tag,
    ensures
        opt_inline_view(r) == img_with(html_nodes(d)[i as int], opt_view(dark), opt_view(light)),
{
    proof {
        reveal_strlit("src");
        reveal_strlit("alt");
        reveal_strlit("width");
        reveal_strlit("height");
    }
    assert("src"@ =~= seq!['s', 'r', 'c']);
    assert("alt"@ =~= seq!['a', 'l', 't']);
    assert("width"@ =~= seq!['w', 'i', 'd', 't', 'h']);
    assert("height"@ =~= seq!['h', 'e', 'i', 'g', 'h', 't']);
    let src = match attr(d, i, "src") {
        Some(s) => s,
        None => {
            return None;
        },
    };
    let alt = match attr(d, i, "alt") {
        Some(a) => a,
        None => String::new(),
    };
    let width = attr(d, i, "width");
    let height = attr(d, i, "height");
    Some(
        Inline::Image {
            url: src,
            title: None,
            alt,
            width,
            height,
            dark_url: dark,
            light_url: light,
        },
    )
}

/// The URL of a `srcset`: the first whitespace-separated word of its first
/// comma-separated entry, trimmed; the whole `srcset` when that entry is blank.
pub open spec fn srcset_url(ss: Seq<char>) -> Seq<char> {
    let t = trim(ss.subrange(0, find_from(ss, ',', 0)));
    if t.len() == 0 {
        ss
    } else {
        t.subrange(0, ws_from(t, 0))
    }
}

fn srcset_url_of(ss: &String) -> (r: String)
    ensures
        r@ == srcset_url(ss@),
{
    let v = chars_of(ss.as_str());
    let c = find_char(&v, ',', 0, v.len());
    assert(v@.subrange(0, v@.len() as int) =~= v@);
    let (a, b) = trim_bounds(&v, 0, c);
    if a == b {
        return string_of_all(&v);
    }
    let t = sub_vec(&v, a, b);
    let w = find_ws(&t, 0);
    string_of(&t, 0, w)
}

/// The dark and light URLs given by the `<source>` tags at or after `i`: a
/// source with `media` and `srcset` sets the dark URL when its media mentions
/// `dark` (any case), else the light one when it mentions `light`; later
/// sources override earlier ones.
pub open spec fn source_colors(
    ns: Seq<HtmlNodeV>,
    i: int,
    dark: Option<Seq<char>>,
    light: Option<Seq<char>>,
) -> (Option<Seq<char>>, Option<Seq<char>>)
    decreases ns.len() - i,
{
    if i < 0 || i >= ns.len() {
        (dark, light)
    } else if ns[i] is Tag && lname(ns[i]) == seq!['s', 'o', 'u', 'r', 'c', 'e'] {
        let next = match attr_val(ns[i], seq!['m', 'e', 'd', 'i', 'a']) {
            Some(m) => match attr_val(ns[i], seq!['s', 'r', 'c', 's', 'e', 't']) {
                Some(ss) => {
                    let ml = lower_seq(m);
                    if seq_contains(ml, seq!['d', 'a', 'r', 'k']) {
                        (Some(srcset_url(ss)), light)
                    } else if seq_contains(ml, seq!['l', 'i', 'g', 'h', 't']) {
                        (dark, Some(srcset_url(ss)))
                    } else {
                        (dark, light)
                    }
                },
                None => (dark, light),
            },
            None => (dark, light),
        };
        source_colors(ns, i + 1, next.0, next.1)
    } else {
        source_colors(ns, i + 1, dark, light)
    }
}

/// A `<picture>`: when the document has a `picture` tag, its first `img`
/// tag as an image with the dark and light URLs of its `<source>` tags.
pub open spec fn picture_spec(ns: Seq<HtmlNodeV>) -> Option<InlineV> {
    if first_tag_named(ns, seq!['p', 'i', 'c', 't', 'u', 'r', 'e'], 0) >= ns.len() {
        None
    } else {
        let im = first_tag_named(ns, seq!['i', 'm', 'g'], 0);
        if im >= ns.len() {
            None
        } else {
            let (dk, lt) = source_colors(ns, 0, None, None);
            img_with(ns[im], dk, lt)
        }
    }
}

/// Parse a `<picture>` element with `<source>` tags for dark/light URLs.
fn parse_picture(d: &tl::VDom) -> (r: Option<Inline>)
    ensures
        opt_inline_view(r) == picture_spec(html_nodes(d)),
{
    let ghost ns = html_nodes(d);
    let pic = vec!['p', 'i', 'c', 't', 'u', 'r', 'e'];
    let img = vec!['i', 'm', 'g'];
    let source = vec!['s', 'o', 'u', 'r', 'c', 'e'];
    let dark_w = vec!['d', 'a', 'r', 'k'];
    let light_w = vec!['l', 'i', 'g', 'h', 't'];
    assert(pic@ =~= seq!['p', 'i', 'c', 't', 'u', 'r', 'e']);
    assert(img@ =~= seq!['i', 'm', 'g']);
    assert(source@ =~= seq!['s', 'o', 'u', 'r', 'c', 'e']);
    assert(dark_w@ =~= seq!['d', 'a', 'r', 'k']);
    assert(light_w@ =~= seq!['l', 'i', 'g', 'h', 't']);
    proof {
        reveal_strlit("media");
        reveal_strlit("srcset");
    }
    assert("media"@ =~= seq!['m', 'e', 'd', 'i', 'a']);
    assert("srcset"@ =~= seq!['s', 'r', 'c', 's', 'e', 't']);
    let n = node_count(d);
    if find_first_tag(d, &pic) >= n {
        return None;
    }
    let im = find_first_tag(d, &img);
    if im >= n {
        return None;
    }
    let mut dark: Option<String> = None;
    let mut light: Option<String> = None;
    let mut i: usize = 0;
    while i < n
        invariant
            n == ns.len(),
            ns == html_nodes(d),
            i <= n,
            source@ == seq!['s', 'o', 'u', 'r', 'c', 'e'],
            dark_w@ == seq!['d', 'a', 'r', 'k'],
            light_w@ == seq!['l', 'i', 'g', 'h', 't'],
            "media"@ == seq!['m', 'e', 'd', 'i', 'a'],
            "srcset"@ == seq!['s', 'r', 'c', 's', 'e', 't'],
            source_colors(ns, 0, None, None) == source_colors(
                ns,
                i as int,
                opt_view(dark),
                opt_view(light),
            ),
        decreases n - i,
    {
        if is_tag_named(d, i, &source) {
            if let Some(media) = attr(d, i, "media") {
                if let Some(srcset) = attr(d, i, "srcset") {
                    let mv = chars_of(media.as_str());
                    let ml = lower_vec(&mv);
                    let url = srcset_url_of(&srcset);
                    assert(ml@.subrange(0, ml@.len() as int) =~= ml@);
                    if contains_at(&ml, 0, ml.len(), &dark_w) {
                        dark = Some(url);
                    } else if contains_at(&ml, 0, ml.len(), &light_w) {
                        light = Some(url);
                    }
                }
            }
        }
        i = i + 1;
    }
    img_from_tag(d, im, dark, light)
}

// -- DOM walk -----------------------------------------------------------

/// The inlines of the nodes `hs` (indices at least `lo` and within the
/// document), in order.
pub open spec fn walk(ns: Seq<HtmlNodeV>, hs: Seq<int>, lo: int) -> Seq<InlineV>
    decreases ns.len() - lo, hs.len() + 1,
{
    if hs.len() == 0 {
        Seq::empty()
    } else {
        (if lo <= hs[0] < ns.len() {
            node_inlines(ns, hs[0])
        } else {
            Seq::empty()
        }) + walk(ns, hs.drop_first(), lo)
    }
}

/// A text inline of the trimmed text, decoded; nothing when blank.
pub open spec fn text_inline(t: Seq<char>) -> Seq<InlineV> {
    if trim(t).len() > 0 {
        seq![InlineV::Text(decode_entities(trim(t)))]
    } else {
        Seq::empty()
    }
}

/// The inlines of node `h`: raw text (decoded, trimmed) becomes text;
/// `<img>` an image; `<br>` a hard break; `<a>` with `href` a link of its
/// children's inlines (nothing when they are empty), without `href` its
/// children's inlines; `<sub>`, `<sup>` and headings their trimmed text;
/// `<picture>` the document's picture; other tags their children's inlines;
/// comments nothing.
pub open spec fn node_inlines(ns: Seq<HtmlNodeV>, h: int) -> Seq<InlineV>
    decreases ns.len() - h, 0int,
{
    if h < 0 || h >= ns.len() {
        Seq::empty()
    } else {
        match ns[h] {
            HtmlNodeV::Raw(t) => {
                let x = trim(decode_entities(t));
                if x.len() > 0 {
                    seq![InlineV::Text(x)]
                } else {
                    Seq::empty()
                }
            },
            HtmlNodeV::Comment => Seq::empty(),
            HtmlNodeV::Tag { name, attrs, children, text } => {
                let n = lower_seq(name);
                if n == seq!['i', 'm', 'g'] {
                    match img_with(ns[h], None, None) {
                        Some(x) => seq![x],
                        None => Seq::empty(),
                    }
                } else if n == seq!['b', 'r'] || n == seq!['b', 'r', '/'] {
                    seq![InlineV::HardBreak]
                } else if n == seq!['a'] {
                    match attr_val(ns[h], seq!['h', 'r', 'e', 'f']) {
                        Some(u) => {
                            let inner = walk(ns, children, h + 1);
                            if inner.len() > 0 {
                                seq![InlineV::Link { url: u, title: None, content: inner }]
                            } else {
                                Seq::empty()
                            }
                        },
                        None => walk(ns, children, h + 1),
                    }
                } else if n == seq!['s', 'u', 'b'] || n == seq!['s', 'u', 'p'] {
                    text_inline(text)
                } else if n == seq!['p', 'i', 'c', 't', 'u', 'r', 'e'] {
                    match picture_spec(ns) {
                        Some(x) => seq![x],
                        None => Seq::empty(),
                    }
                } else if heading_level(n) is Some {
                    text_inline(text)
                } else {
                    walk(ns, children, h + 1)
                }
            },
        }
    }
}

/// The handle sequence as integers.
pub open spec fn as_ints(v: Seq<usize>) -> Seq<int> {
    v.map_values(|x: usize| x as int)
}

/// The child indices of the tag `i`.
fn children_of(d: &tl::VDom, i: usize) -> (r: Vec<usize>)
    requires
        i < html_nodes(d).len(),
        html_nodes(d)[i as int] is Tag,
    ensures
        as_ints(r@) == html_nodes(d)[i as int]->children,
{
    let n = child_count(d, i);
    let mut r: Vec<usize> = Vec::new();
    let mut k: usize = 0;
    while k < n
        invariant
            i < html_nodes(d).len(),
            html_nodes(d)[i as int] is Tag,
            n == html_nodes(d)[i as int]->children.len(),
            k <= n,
            as_ints(r@) =~= html_nodes(d)[i as int]->children.subrange(0, k as int),
        decreases n - k,
    {
        let c = child_at(d, i, k);
        let ghost old = r@;
        r.push(c);
        assert(as_ints(r@) =~= as_ints(old).push(c as int));
        assert(html_nodes(d)[i as int]->children.subrange(0, k + 1) =~= html_nodes(
            d,
        )[i as int]->children.subrange(0, k as int).push(c as int));
        k = k + 1;
    }
    r
}

proof fn lemma_children_after(d: &tl::VDom, h: usize, hs: Seq<usize>)
    requires
        dom_wf(html_nodes(d), html_top(d)),
        h < html_nodes(d).len(),
        html_nodes(d)[h as int] is Tag,
        as_ints(hs) == html_nodes(d)[h as int]->children,
    ensures
        forall|k: int| 0 <= k < hs.len() ==> h + 1 <= #[trigger] hs[k] < html_nodes(d).len(),
{
    assert forall|k: int| 0 <= k < hs.len() implies h + 1 <= #[trigger] hs[k] < html_nodes(
        d,
    ).len() by {
        assert(as_ints(hs)[k] == hs[k] as int);
        assert(html_nodes(d)[h as int]->children[k] == hs[k] as int);
    }
}

/// The top-level node indices.
fn top_nodes(d: &tl::VDom) -> (r: Vec<usize>)
    ensures
        as_ints(r@) == html_top(d),
{
    let n = top_count(d);
    let mut r: Vec<usize> = Vec::new();
    let mut k: usize = 0;
    while k < n
        invariant
            n == html_top(d).len(),
            k <= n,
            as_ints(r@) =~= html_top(d).subrange(0, k as int),
        decreases n - k,
    {
        let c = top_at(d, k);
        let ghost old = r@;
        r.push(c);
        assert(as_ints(r@) =~= as_ints(old).push(c as int));
        assert(html_top(d).subrange(0, k + 1) =~= html_top(d).subrange(0, k as int).push(c as int));
        k = k + 1;
    }
    r
}

/// Text inline of the trimmed inner text of node `h`, decoded.
fn text_inline_of(d: &tl::VDom, h: usize) -> (r: Vec<Inline>)
    requires
        h < html_nodes(d).len(),
    ensures
        inlines_view(r@) == text_inline(node_text(html_nodes(d)[h as int])),
{
    let t = node_inner_text(d, h);
    let tv = chars_of(t.as_str());
    let (a, b) = trim_bounds(&tv, 0, tv.len());
    assert(tv@.subrange(0, tv@.len() as int) =~= tv@);
    if a == b {
        return Vec::new();
    }
    let x = sub_vec(&tv, a, b);
    single(Inline::Text(string_of_all(&decode_vec(&x))))
}

/// Walk a list of node indices and convert them into inlines.
fn walk_children(d: &tl::VDom, hs: &Vec<usize>, lo: usize) -> (r: Vec<Inline>)
    requires
        dom_wf(html_nodes(d), html_top(d)),
        forall|k: int| 0 <= k < hs@.len() ==> lo <= #[trigger] hs@[k] < html_nodes(d).len(),
    ensures
        inlines_view(r@) == walk(html_nodes(d), as_ints(hs@), lo as int),
    decreases html_nodes(d).len() - lo, 1int,
{
    let ghost ns = html_nodes(d);
    let ghost hv = as_ints(hs@);
    let mut out: Vec<Inline> = Vec::new();
    let mut k: usize = 0;
    assert(hv.subrange(0, hv.len() as int) =~= hv);
    while k < hs.len()
        invariant
            ns == html_nodes(d),
            hv == as_ints(hs@),
            dom_wf(ns, html_top(d)),
            forall|j: int| 0 <= j < hs@.len() ==> lo <= #[trigger] hs@[j] < ns.len(),
            k <= hs.len(),
            inlines_view(out@) + walk(ns, hv.subrange(k as int, hv.len() as int), lo as int)
                == walk(ns, hv, lo as int),
        decreases hs.len() - k,
    {
        let h = hs[k];
        let ghost rest = hv.subrange(k as int, hv.len() as int);
        assert(rest[0] == h as int);
        assert(rest.drop_first() =~= hv.subrange(k + 1, hv.len() as int));
        let mut piece = node_inline_list(d, h);
        let ghost old_out = out@;
        let ghost pv = piece@;
        out.append(&mut piece);
        proof {
            crate::types::lemma_inlines_view_concat(old_out, pv);
            assert(inlines_view(out@) + walk(ns, hv.subrange(k + 1, hv.len() as int), lo as int)
                =~= inlines_view(old_out) + walk(ns, rest, lo as int));
        }
        k = k + 1;
    }
    assert(hv.subrange(k as int, hv.len() as int) =~= Seq::<int>::empty());
    assert(inlines_view(out@) + Seq::<InlineV>::empty() =~= inlines_view(out@));
    out
}

/// The inlines of node `h` (see [`node_inlines`]).
fn node_inline_list(d: &tl::VDom, h: usize) -> (r: Vec<Inline>)
    requires
        dom_wf(html_nodes(d), html_top(d)),
        h < html_nodes(d).len(),
    ensures
        inlines_view(r@) == node_inlines(html_nodes(d), h as int),
    decreases html_nodes(d).len() - h, 0int,
{
    let ghost ns = html_nodes(d);
    let count = node_count(d);
    match node_kind(d, h) {
        NodeKind::Comment => Vec::new(),
        NodeKind::Raw => {
            let t = node_inner_text(d, h);
            let tv = chars_of(t.as_str());
            let dv = decode_vec(&tv);
            let (a, b) = trim_bounds(&dv, 0, dv.len());
            assert(dv@.subrange(0, dv@.len() as int) =~= dv@);
            if a < b {
                single(Inline::Text(string_of(&dv, a, b)))
            } else {
                Vec::new()
            }
        },
        NodeKind::Tag => {
            let name = tag_lower(d, h);
            let img = vec!['i', 'm', 'g'];
            let br = vec!['b', 'r'];
            let br2 = vec!['b', 'r', '/'];
            let a = vec!['a'];
            let sub = vec!['s', 'u', 'b'];
            let sup = vec!['s', 'u', 'p'];
            let pic = vec!['p', 'i', 'c', 't', 'u', 'r', 'e'];
            assert(img@ =~= seq!['i', 'm', 'g']);
            assert(br@ =~= seq!['b', 'r']);
            assert(br2@ =~= seq!['b', 'r', '/']);
            assert(a@ =~= seq!['a']);
            assert(sub@ =~= seq!['s', 'u', 'b']);
            assert(sup@ =~= seq!['s', 'u', 'p']);
            assert(pic@ =~= seq!['p', 'i', 'c', 't', 'u', 'r', 'e']);
            proof {
                reveal_strlit("href");
            }
            assert("href"@ =~= seq!['h', 'r', 'e', 'f']);
            if vec_is(&name, &img) {
                match img_from_tag(d, h, None, None) {
                    Some(x) => single(x),
                    None => Vec::new(),
                }
            } else if vec_is(&name, &br) || vec_is(&name, &br2) {
                single(Inline::HardBreak)
            } else if vec_is(&name, &a) {
                let hs = children_of(d, h);
                proof {
                    lemma_children_after(d, h, hs@);
                }
                match attr(d, h, "href") {
                    Some(url) => {
                        let inner = walk_children(d, &hs, h + 1);
                        if inner.len() > 0 {
                            single(Inline::Link { url, title: None, content: inner })
                        } else {
                            Vec::new()
                        }
                    },
                    None => walk_children(d, &hs, h + 1),
                }
            } else if vec_is(&name, &sub) || vec_is(&name, &sup) {
                text_inline_of(d, h)
            } else if vec_is(&name, &pic) {
                match parse_picture(d) {
                    Some(x) => single(x),
                    None => Vec::new(),
                }
            } else if heading_level_of(&name).is_some() {
                text_inline_of(d, h)
            } else {
                let hs = children_of(d, h);
                proof {
                    lemma_children_after(d, h, hs@);
                }
                walk_children(d, &hs, h + 1)
            }
        },
    }
}

// -- Whole blocks -------------------------------------------------------

/// Fallback: the text with tags stripped, trimmed and decoded, when not blank.
pub open spec fn fallback_inlines(t: Seq<char>) -> Seq<InlineV> {
    let x = trim(strip_tags(t));
    if x.len() == 0 {
        Seq::empty()
    } else {
        seq![InlineV::Text(decode_entities(x))]
    }
}

fn fallback_strip(v: &Vec<char>) -> (r: Vec<Inline>)
    ensures
        inlines_view(r@) == fallback_inlines(v@),
{
    let st = strip_tags_at(v, 0, v.len());
    assert(v@.subrange(0, v@.len() as int) =~= v@);
    let sv = chars_of(st.as_str());
    let (a, b) = trim_bounds(&sv, 0, sv.len());
    assert(sv@.subrange(0, sv@.len() as int) =~= sv@);
    if a == b {
        return Vec::new();
    }
    let x = sub_vec(&sv, a, b);
    single(Inline::Text(string_of_all(&decode_vec(&x))))
}

/// The inlines of a parsed HTML fragment `t`: its picture when it has one,
/// else the inlines of its top-level nodes, else the fallback of `t`.
pub open spec fn dom_inlines(ns: Seq<HtmlNodeV>, top: Seq<int>, t: Seq<char>) -> Seq<InlineV> {
    match picture_spec(ns) {
        Some(x) => seq![x],
        None => {
            let w = walk(ns, top, 0);
            if w.len() > 0 {
                w
            } else {
                fallback_inlines(t)
            }
        },
    }
}

/// The inlines of an HTML fragment: nothing when blank; the fallback when
/// `tl` refuses it; otherwise [`dom_inlines`] of its parse.
pub open spec fn spec_html_inlines(html: Seq<char>) -> Seq<InlineV> {
    let t = trim(html);
    if t.len() == 0 {
        Seq::empty()
    } else if encode_utf8(t).len() > u32::MAX {
        fallback_inlines(t)
    } else {
        dom_inlines(tl_parse(t).0, tl_parse(t).1, t)
    }
}

/// The inlines of the parsed fragment `d` of the text `t` (see [`dom_inlines`]).
fn inlines_from_dom(d: &tl::VDom, t: &str) -> (r: Vec<Inline>)
    requires
        dom_wf(html_nodes(d), html_top(d)),
    ensures
        inlines_view(r@) == dom_inlines(html_nodes(d), html_top(d), t@),
{
    if let Some(img) = parse_picture(d) {
        return single(img);
    }
    let top = top_nodes(d);
    assert forall|k: int| 0 <= k < top@.len() implies 0 <= #[trigger] top@[k] < html_nodes(
        d,
    ).len() by {
        assert(as_ints(top@)[k] == html_top(d)[k]);
    }
    let inlines = walk_children(d, &top, 0);
    if inlines.len() > 0 {
        return inlines;
    }
    let tv = chars_of(t);
    fallback_strip(&tv)
}

/// Parse inline HTML fragments into inlines (see [`spec_html_inlines`]).
pub fn parse_html_to_inlines(html: &str) -> (r: Vec<Inline>)
    ensures
        inlines_view(r@) == spec_html_inlines(html@),
{
    let v = chars_of(html);
    let (a, b) = trim_bounds(&v, 0, v.len());
    assert(v@.subrange(0, v@.len() as int) =~= v@);
    if a == b {
        return Vec::new();
    }
    let t = string_of(&v, a, b);
    let ts = t.as_str();
    let parsed = parse_dom(ts);
    let r = match parsed {
        None => {
            let tv = chars_of(ts);
            fallback_strip(&tv)
        },
        Some(dom) => inlines_from_dom(&dom, ts),
    };
    r
}

} // verus!
