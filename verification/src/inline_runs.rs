//! How inline content is laid out as styled text: the flattened text of a
//! paragraph with the formatting of each run, and the split of inline
//! content into text, link and image segments.
//!
//! Run lengths are byte lengths of the UTF-8 text they cover.

use crate::images::{opt_str_slice, resolve_url, select_image_url, spec_resolve_url, spec_select_url};
use crate::text::{lemma_encode_len_concat, lemma_encode_len_one, push_char, push_str};
use crate::types::{
    copy_opt_string, inline_view, inlines_view, lemma_inlines_view_prefix, opt_view, plain_one,
    plain_seq, Inline, InlineV,
};
use vstd::prelude::*;
use vstd::utf8::encode_utf8;

verus! {

/// The formatting in effect while walking inline content.
#[derive(Clone, Copy, Debug, PartialEq, Eq, Structural)]
pub struct InlineContext {
    pub bold: bool,
    pub italic: bool,
    pub strikethrough: bool,
    pub code: bool,
    pub link: bool,
}

impl Default for InlineContext {
    /// No formatting.
    fn default() -> (r: Self)
        ensures
            r == plain_context(),
    {
        InlineContext { bold: false, italic: false, strikethrough: false, code: false, link: false }
    }
}

/// The context with no formatting.
pub open spec fn plain_context() -> InlineContext {
    InlineContext { bold: false, italic: false, strikethrough: false, code: false, link: false }
}

/// `c` with bold on.
pub open spec fn with_bold(c: InlineContext) -> InlineContext {
    InlineContext { bold: true, ..c }
}

/// `c` with italic on.
pub open spec fn with_italic(c: InlineContext) -> InlineContext {
    InlineContext { italic: true, ..c }
}

/// `c` with strikethrough on.
pub open spec fn with_strike(c: InlineContext) -> InlineContext {
    InlineContext { strikethrough: true, ..c }
}

/// `c` with code styling on.
pub open spec fn with_code(c: InlineContext) -> InlineContext {
    InlineContext { code: true, ..c }
}

/// `c` inside a link.
pub open spec fn with_link(c: InlineContext) -> InlineContext {
    InlineContext { link: true, ..c }
}

/// A run of flattened text: its length in bytes and its formatting.
#[derive(Clone, Copy, Debug, PartialEq, Eq, Structural)]
pub struct StyledRun {
    pub len: usize,
    pub style: InlineContext,
}

/// Number of bytes of the UTF-8 encoding of `s`.
pub open spec fn byte_len(s: Seq<char>) -> int {
    encode_utf8(s).len() as int
}

/// The run of a non-empty piece of text; nothing for an empty one.
pub open spec fn text_run(s: Seq<char>, style: InlineContext) -> Seq<StyledRun> {
    if s.len() > 0 {
        seq![StyledRun { len: byte_len(s) as usize, style }]
    } else {
        Seq::empty()
    }
}

/// The runs of one inline under the formatting `ctx`: text, code and image
/// alt text give one run when not empty, each break one run of one byte,
/// and formatting and links give the runs of their content with the
/// formatting added.
pub open spec fn runs_one(x: InlineV, ctx: InlineContext) -> Seq<StyledRun>
    decreases x,
{
    match x {
        InlineV::Text(s) => text_run(s, ctx),
        InlineV::Code(s) => text_run(s, with_code(ctx)),
        InlineV::SoftBreak => seq![StyledRun { len: 1, style: ctx }],
        InlineV::HardBreak => seq![StyledRun { len: 1, style: ctx }],
        InlineV::Strong(c) => runs_seq(c, with_bold(ctx)),
        InlineV::Emphasis(c) => runs_seq(c, with_italic(ctx)),
        InlineV::Strikethrough(c) => runs_seq(c, with_strike(ctx)),
        InlineV::Link { content, .. } => runs_seq(content, with_link(ctx)),
        InlineV::Image { alt, .. } => text_run(alt, ctx),
    }
}

/// The runs of a sequence of inlines: the concatenation of [`runs_one`].
pub open spec fn runs_seq(s: Seq<InlineV>, ctx: InlineContext) -> Seq<StyledRun>
    decreases s,
{
    if s.len() == 0 {
        Seq::empty()
    } else {
        runs_seq(s.subrange(0, s.len() - 1), ctx) + runs_one(s[s.len() - 1], ctx)
    }
}

/// A text encodes to no bytes exactly when it is empty.
proof fn lemma_encode_empty(s: Seq<char>)
    ensures
        (encode_utf8(s).len() == 0) == (s.len() == 0),
{
    if s.len() == 0 {
        assert(encode_utf8(s) =~= Seq::<u8>::empty());
    } else {
        assert(s =~= seq![s[0]] + s.drop_first());
        lemma_encode_len_concat(seq![s[0]], s.drop_first());
        lemma_encode_len_one(s[0]);
    }
}

/// Number of bytes of a string slice.
fn str_byte_len(s: &str) -> (r: usize)
    ensures
        r == byte_len(s@),
{
    s.as_bytes().len()
}

/// Append the runs of `value` (a text node's content) under `style`.
fn push_text_run(text: &mut String, runs: &mut Vec<StyledRun>, value: &str, style: InlineContext)
    ensures
        final(text)@ == old(text)@ + value@,
        final(runs)@ == old(runs)@ + text_run(value@, style),
        forall|i: int| old(runs)@.len() <= i < final(runs)@.len() ==> final(runs)@[i].len > 0,
{
    let n = str_byte_len(value);
    push_str(text, value);
    proof {
        lemma_encode_empty(value@);
    }
    if n > 0 {
        runs.push(StyledRun { len: n, style });
    } else {
        assert(runs@ + text_run(value@, style) =~= runs@);
    }
}

/// Flatten inlines into plain text and the styled runs that cover it,
/// appending to `text` and `runs`; every appended run is non-empty.
pub fn flatten_inlines(
    inlines: &[Inline],
    text: &mut String,
    runs: &mut Vec<StyledRun>,
    ctx: InlineContext,
)
    ensures
        final(text)@ == old(text)@ + plain_seq(inlines_view(inlines@)),
        final(runs)@ == old(runs)@ + runs_seq(inlines_view(inlines@), ctx),
        forall|i: int| old(runs)@.len() <= i < final(runs)@.len() ==> final(runs)@[i].len > 0,
        runs_len(final(runs)@.subrange(old(runs)@.len() as int, final(runs)@.len() as int))
            == byte_len(final(text)@) - byte_len(old(text)@),
    decreases inlines@,
{
    let mut k: usize = 0;
    while k < inlines.len()
        invariant
            k <= inlines.len(),
            text@ == old(text)@ + plain_seq(inlines_view(inlines@.subrange(0, k as int))),
            runs@ == old(runs)@ + runs_seq(inlines_view(inlines@.subrange(0, k as int)), ctx),
            forall|i: int| old(runs)@.len() <= i < runs@.len() ==> runs@[i].len > 0,
        decreases inlines.len() - k,
    {
        let ghost text0 = text@;
        let ghost runs0 = runs@;
        proof {
            lemma_inlines_view_prefix(inlines@, k as int);
            let pv = inlines_view(inlines@.subrange(0, k + 1));
            assert(pv.subrange(0, pv.len() - 1) =~= inlines_view(inlines@.subrange(0, k as int)));
        }
        match &inlines[k] {
            Inline::Text(value) => push_text_run(text, runs, value.as_str(), ctx),
            Inline::Code(value) => {
                let code_ctx = InlineContext { code: true, ..ctx };
                push_text_run(text, runs, value.as_str(), code_ctx);
            },
            Inline::SoftBreak => {
                push_char(text, ' ');
                runs.push(StyledRun { len: 1, style: ctx });
            },
            Inline::HardBreak => {
                push_char(text, '\n');
                runs.push(StyledRun { len: 1, style: ctx });
            },
            Inline::Strong(children) => {
                assert(decreases_to!(inlines@ => children@));
                let bold_ctx = InlineContext { bold: true, ..ctx };
                flatten_inlines(children.as_slice(), text, runs, bold_ctx);
            },
            Inline::Emphasis(children) => {
                assert(decreases_to!(inlines@ => children@));
                let italic_ctx = InlineContext { italic: true, ..ctx };
                flatten_inlines(children.as_slice(), text, runs, italic_ctx);
            },
            Inline::Strikethrough(children) => {
                assert(decreases_to!(inlines@ => children@));
                let strike_ctx = InlineContext { strikethrough: true, ..ctx };
                flatten_inlines(children.as_slice(), text, runs, strike_ctx);
            },
            Inline::Link { content, .. } => {
                assert(decreases_to!(inlines@ => content@));
                let link_ctx = InlineContext { link: true, ..ctx };
                flatten_inlines(content.as_slice(), text, runs, link_ctx);
            },
            Inline::Image { alt, .. } => push_text_run(text, runs, alt.as_str(), ctx),
        }
        proof {
            let pv = inlines_view(inlines@.subrange(0, k + 1));
            let x = inline_view(inlines@[k as int]);
            assert(pv[pv.len() - 1] == x);
            assert(text@ =~= text0 + plain_one(x));
            assert(runs@ =~= runs0 + runs_one(x, ctx));
        }
        k = k + 1;
    }
    assert(inlines@.subrange(0, inlines@.len() as int) =~= inlines@);
    let _total = text.as_str().as_bytes().len();
    proof {
        let v = inlines_view(inlines@);
        lemma_encode_len_concat(old(text)@, plain_seq(v));
        lemma_runs_cover(v, ctx);
        assert(runs@.subrange(old(runs)@.len() as int, runs@.len() as int) =~= runs_seq(v, ctx));
    }
}

// -- Segments ------------------------------------------------------------

/// A piece of inline content as the renderer lays it out: plain text, the
/// text of a link with its target, or an image.
#[derive(Debug)]
pub enum InlineSegment {
    Text { text: String, runs: Vec<StyledRun> },
    Link { text: String, runs: Vec<StyledRun>, url: String },
    Image { url: String, alt: String, width: Option<String>, height: Option<String> },
}

/// The mathematical value of an [`InlineSegment`].
pub enum SegmentV {
    Text { text: Seq<char>, runs: Seq<StyledRun> },
    Link { text: Seq<char>, runs: Seq<StyledRun>, url: Seq<char> },
    Image { url: Seq<char>, alt: Seq<char>, width: Option<Seq<char>>, height: Option<Seq<char>> },
}

/// The view of one segment.
pub open spec fn segment_view(s: InlineSegment) -> SegmentV {
    match s {
        InlineSegment::Text { text, runs } => SegmentV::Text { text: text@, runs: runs@ },
        InlineSegment::Link { text, runs, url } => SegmentV::Link {
            text: text@,
            runs: runs@,
            url: url@,
        },
        InlineSegment::Image { url, alt, width, height } => SegmentV::Image {
            url: url@,
            alt: alt@,
            width: opt_view(width),
            height: opt_view(height),
        },
    }
}

/// The views of a sequence of segments.
pub open spec fn segments_view(s: Seq<InlineSegment>) -> Seq<SegmentV> {
    s.map_values(|x: InlineSegment| segment_view(x))
}

/// Whether text pushed under `link` needs a new segment: there is none, or
/// the last one is of the other kind (text versus link), or an image.
pub open spec fn needs_new_segment(segs: Seq<SegmentV>, link: bool) -> bool {
    segs.len() == 0 || match segs.last() {
        SegmentV::Link { .. } => !link,
        SegmentV::Text { .. } => link,
        SegmentV::Image { .. } => true,
    }
}

/// An empty segment of the kind for `link` (a link with no target yet).
pub open spec fn empty_segment(link: bool) -> SegmentV {
    if link {
        SegmentV::Link { text: Seq::empty(), runs: Seq::empty(), url: Seq::empty() }
    } else {
        SegmentV::Text { text: Seq::empty(), runs: Seq::empty() }
    }
}

/// `seg` with `v` appended to its text and `run` to its runs.
pub open spec fn append_to_segment(seg: SegmentV, v: Seq<char>, run: StyledRun) -> SegmentV {
    match seg {
        SegmentV::Text { text, runs } => SegmentV::Text { text: text + v, runs: runs.push(run) },
        SegmentV::Link { text, runs, url } => SegmentV::Link {
            text: text + v,
            runs: runs.push(run),
            url,
        },
        SegmentV::Image { .. } => seg,
    }
}

/// The segments after pushing text `v` styled `style` under `link`: into
/// the last segment, or into a new one when [`needs_new_segment`]; the run
/// covers the bytes of `v`.
pub open spec fn spec_push_current(
    segs: Seq<SegmentV>,
    link: bool,
    v: Seq<char>,
    style: InlineContext,
) -> Seq<SegmentV> {
    let segs1 = if needs_new_segment(segs, link) {
        segs.push(empty_segment(link))
    } else {
        segs
    };
    segs1.update(
        segs1.len() - 1,
        append_to_segment(segs1.last(), v, StyledRun { len: byte_len(v) as usize, style }),
    )
}

/// The segments after one inline is walked under `ctx`, with image URLs
/// themed by `is_dark` and resolved against `base`: text, code and breaks
/// go into the current segment; formatting walks its content; a link opens
/// a link segment to its resolved target, walks its content, and opens a
/// fresh text segment; an image adds an image segment.
pub open spec fn segs_one(
    x: InlineV,
    segs: Seq<SegmentV>,
    ctx: InlineContext,
    base: Option<Seq<char>>,
    is_dark: bool,
) -> Seq<SegmentV>
    decreases x,
{
    match x {
        InlineV::Text(s) => spec_push_current(segs, ctx.link, s, ctx),
        InlineV::Code(s) => spec_push_current(segs, ctx.link, s, with_code(ctx)),
        InlineV::SoftBreak => spec_push_current(segs, ctx.link, seq![' '], ctx),
        InlineV::HardBreak => spec_push_current(segs, ctx.link, seq!['\n'], ctx),
        InlineV::Strong(c) => segs_seq(c, segs, with_bold(ctx), base, is_dark),
        InlineV::Emphasis(c) => segs_seq(c, segs, with_italic(ctx), base, is_dark),
        InlineV::Strikethrough(c) => segs_seq(c, segs, with_strike(ctx), base, is_dark),
        InlineV::Link { url, content, .. } => {
            let opened = segs.push(
                SegmentV::Link {
                    text: Seq::empty(),
                    runs: Seq::empty(),
                    url: spec_resolve_url(url, base),
                },
            );
            segs_seq(content, opened, with_link(ctx), base, is_dark).push(
                SegmentV::Text { text: Seq::empty(), runs: Seq::empty() },
            )
        },
        InlineV::Image { url, alt, width, height, dark_url, light_url, .. } => segs.push(
            SegmentV::Image {
                url: spec_resolve_url(spec_select_url(url, dark_url, light_url, is_dark), base),
                alt,
                width,
                height,
            },
        ),
    }
}

/// The segments after a sequence of inlines is walked, left to right.
pub open spec fn segs_seq(
    s: Seq<InlineV>,
    segs: Seq<SegmentV>,
    ctx: InlineContext,
    base: Option<Seq<char>>,
    is_dark: bool,
) -> Seq<SegmentV>
    decreases s,
{
    if s.len() == 0 {
        segs
    } else {
        segs_one(
            s[s.len() - 1],
            segs_seq(s.subrange(0, s.len() - 1), segs, ctx, base, is_dark),
            ctx,
            base,
            is_dark,
        )
    }
}

/// Append `value` with the style of `run` (its length is set to the bytes
/// of `value`) to the current segment, opening a new one when the last
/// segment is of the other kind or an image.
pub fn push_to_current_segment(
    segments: &mut Vec<InlineSegment>,
    ctx: &InlineContext,
    value: String,
    run: StyledRun,
)
    ensures
        segments_view(final(segments)@) == spec_push_current(
            segments_view(old(segments)@),
            ctx.link,
            value@,
            run.style,
        ),
{
    let ghost old_view = segments_view(segments@);
    let needs_new = segments.len() == 0 || match &segments[segments.len() - 1] {
        InlineSegment::Link { .. } => !ctx.link,
        InlineSegment::Text { .. } => ctx.link,
        InlineSegment::Image { .. } => true,
    };
    if needs_new {
        if ctx.link {
            segments.push(
                InlineSegment::Link { text: String::new(), runs: Vec::new(), url: String::new() },
            );
        } else {
            segments.push(InlineSegment::Text { text: String::new(), runs: Vec::new() });
        }
    }
    let ghost segs1 = segments_view(segments@);
    proof {
        if needs_new {
            assert(segs1 =~= old_view.push(empty_segment(ctx.link)));
        } else {
            assert(segs1 =~= old_view);
        }
    }
    let n = str_byte_len(value.as_str());
    let new_run = StyledRun { len: n, style: run.style };
    let last = segments.pop().unwrap();
    let ghost rest = segments@;
    let updated = match last {
        InlineSegment::Text { text, runs } => {
            let mut text = text;
            let mut runs = runs;
            push_str(&mut text, value.as_str());
            runs.push(new_run);
            InlineSegment::Text { text, runs }
        },
        InlineSegment::Link { text, runs, url } => {
            let mut text = text;
            let mut runs = runs;
            push_str(&mut text, value.as_str());
            runs.push(new_run);
            InlineSegment::Link { text, runs, url }
        },
        InlineSegment::Image { url, alt, width, height } => InlineSegment::Image {
            url,
            alt,
            width,
            height,
        },
    };
    segments.push(updated);
    proof {
        assert(segments_view(rest) =~= segs1.subrange(0, segs1.len() - 1));
        assert(segments_view(segments@) =~= segs1.update(
            segs1.len() - 1,
            append_to_segment(segs1.last(), value@, new_run),
        ));
    }
}

/// An optional string as an optional slice.
fn opt_as_str(o: &Option<String>) -> (r: Option<&str>)
    ensures
        opt_str_slice(r) == opt_view(*o),
{
    match o {
        Some(s) => Some(s.as_str()),
        None => None,
    }
}

/// Walk inlines under `ctx`, pushing into `segments` (see [`segs_one`]).
pub fn collect_segments_inner(
    inlines: &[Inline],
    segments: &mut Vec<InlineSegment>,
    ctx: &InlineContext,
    base: Option<&str>,
    is_dark: bool,
)
    ensures
        segments_view(final(segments)@) == segs_seq(
            inlines_view(inlines@),
            segments_view(old(segments)@),
            *ctx,
            opt_str_slice(base),
            is_dark,
        ),
    decreases inlines@,
{
    let ghost b = opt_str_slice(base);
    let mut k: usize = 0;
    while k < inlines.len()
        invariant
            k <= inlines.len(),
            b == opt_str_slice(base),
            segments_view(segments@) == segs_seq(
                inlines_view(inlines@.subrange(0, k as int)),
                segments_view(old(segments)@),
                *ctx,
                b,
                is_dark,
            ),
        decreases inlines.len() - k,
    {
        let ghost segs0 = segments_view(segments@);
        proof {
            lemma_inlines_view_prefix(inlines@, k as int);
            let pv = inlines_view(inlines@.subrange(0, k + 1));
            assert(pv.subrange(0, pv.len() - 1) =~= inlines_view(inlines@.subrange(0, k as int)));
        }
        match &inlines[k] {
            Inline::Text(value) => {
                let n = str_byte_len(value.as_str());
                push_to_current_segment(segments, ctx, value.clone(), StyledRun { len: n, style: *ctx });
            },
            Inline::Code(value) => {
                let code_ctx = InlineContext { code: true, ..*ctx };
                let n = str_byte_len(value.as_str());
                push_to_current_segment(
                    segments,
                    ctx,
                    value.clone(),
                    StyledRun { len: n, style: code_ctx },
                );
            },
            Inline::SoftBreak => {
                let mut sp = String::new();
                push_char(&mut sp, ' ');
                push_to_current_segment(segments, ctx, sp, StyledRun { len: 1, style: *ctx });
            },
            Inline::HardBreak => {
                let mut nl = String::new();
                push_char(&mut nl, '\n');
                push_to_current_segment(segments, ctx, nl, StyledRun { len: 1, style: *ctx });
            },
            Inline::Strong(children) => {
                assert(decreases_to!(inlines@ => children@));
                let bold_ctx = InlineContext { bold: true, ..*ctx };
                collect_segments_inner(children.as_slice(), segments, &bold_ctx, base, is_dark);
            },
            Inline::Emphasis(children) => {
                assert(decreases_to!(inlines@ => children@));
                let italic_ctx = InlineContext { italic: true, ..*ctx };
                collect_segments_inner(children.as_slice(), segments, &italic_ctx, base, is_dark);
            },
            Inline::Strikethrough(children) => {
                assert(decreases_to!(inlines@ => children@));
                let strike_ctx = InlineContext { strikethrough: true, ..*ctx };
                collect_segments_inner(children.as_slice(), segments, &strike_ctx, base, is_dark);
            },
            Inline::Link { url, content, .. } => {
                assert(decreases_to!(inlines@ => content@));
                let resolved = resolve_url(url.as_str(), base);
                segments.push(
                    InlineSegment::Link { text: String::new(), runs: Vec::new(), url: resolved },
                );
                proof {
                    assert(segments_view(segments@) =~= segs0.push(
                        SegmentV::Link {
                            text: Seq::empty(),
                            runs: Seq::empty(),
                            url: spec_resolve_url(url@, b),
                        },
                    ));
                }
                let link_ctx = InlineContext { link: true, ..*ctx };
                collect_segments_inner(content.as_slice(), segments, &link_ctx, base, is_dark);
                let ghost segs2 = segments_view(segments@);
                segments.push(InlineSegment::Text { text: String::new(), runs: Vec::new() });
                proof {
                    assert(segments_view(segments@) =~= segs2.push(
                        SegmentV::Text { text: Seq::empty(), runs: Seq::empty() },
                    ));
                }
            },
            Inline::Image { url, alt, width, height, dark_url, light_url, .. } => {
                let themed = select_image_url(
                    url.as_str(),
                    opt_as_str(dark_url),
                    opt_as_str(light_url),
                    is_dark,
                );
                let resolved = resolve_url(themed, base);
                segments.push(
                    InlineSegment::Image {
                        url: resolved,
                        alt: alt.clone(),
                        width: copy_opt_string(width),
                        height: copy_opt_string(height),
                    },
                );
                proof {
                    assert(segments_view(segments@) =~= segs0.push(
                        segment_view(segments@.last()),
                    ));
                }
            },
        }
        proof {
            let pv = inlines_view(inlines@.subrange(0, k + 1));
            let x = inline_view(inlines@[k as int]);
            assert(pv[pv.len() - 1] == x);
            assert(segments_view(segments@) == segs_one(x, segs0, *ctx, b, is_dark));
        }
        k = k + 1;
    }
    assert(inlines@.subrange(0, inlines@.len() as int) =~= inlines@);
}

/// Split inline content into text, link and image segments, with image URLs
/// themed by `is_dark` and resolved against `base`.
pub fn collect_segments(inlines: &[Inline], base: Option<&str>, is_dark: bool) -> (r: Vec<
    InlineSegment,
>)
    ensures
        segments_view(r@) == segs_seq(
            inlines_view(inlines@),
            Seq::empty(),
            plain_context(),
            opt_str_slice(base),
            is_dark,
        ),
{
    let mut segments: Vec<InlineSegment> = Vec::new();
    let ctx = InlineContext::default();
    assert(segments_view(segments@) =~= Seq::<SegmentV>::empty());
    collect_segments_inner(inlines, &mut segments, &ctx, base, is_dark);
    segments
}

// -- Joined segments -----------------------------------------------------

/// A link's place in the joined text: its byte range and target.
#[derive(Debug)]
pub struct LinkSpan {
    pub range: std::ops::Range<usize>,
    pub url: String,
}

impl Clone for LinkSpan {
    fn clone(&self) -> (r: Self)
        ensures
            r.range.start == self.range.start,
            r.range.end == self.range.end,
            r.url@ == self.url@,
    {
        LinkSpan { range: self.range.start..self.range.end, url: self.url.clone() }
    }
}

/// The text of a segment (images have none).
pub open spec fn segment_text(seg: SegmentV) -> Seq<char> {
    match seg {
        SegmentV::Text { text, .. } => text,
        SegmentV::Link { text, .. } => text,
        SegmentV::Image { .. } => Seq::empty(),
    }
}

/// The runs a segment contributes: its own when its text is not empty.
pub open spec fn segment_runs(seg: SegmentV) -> Seq<StyledRun> {
    match seg {
        SegmentV::Text { text, runs } => if text.len() > 0 {
            runs
        } else {
            Seq::empty()
        },
        SegmentV::Link { text, runs, .. } => if text.len() > 0 {
            runs
        } else {
            Seq::empty()
        },
        SegmentV::Image { .. } => Seq::empty(),
    }
}

/// The text of segments joined together.
pub open spec fn joined_text(s: Seq<SegmentV>) -> Seq<char>
    decreases s.len(),
{
    if s.len() == 0 {
        Seq::empty()
    } else {
        joined_text(s.drop_last()) + segment_text(s.last())
    }
}

/// The runs of segments joined together.
pub open spec fn joined_runs(s: Seq<SegmentV>) -> Seq<StyledRun>
    decreases s.len(),
{
    if s.len() == 0 {
        Seq::empty()
    } else {
        joined_runs(s.drop_last()) + segment_runs(s.last())
    }
}

/// The links of segments joined together: for each link segment with text,
/// its byte range in [`joined_text`] and its target.
pub open spec fn joined_links(s: Seq<SegmentV>) -> Seq<(int, int, Seq<char>)>
    decreases s.len(),
{
    if s.len() == 0 {
        Seq::empty()
    } else {
        let before = joined_links(s.drop_last());
        let at = joined_text(s.drop_last());
        match s.last() {
            SegmentV::Link { text, url, .. } => if text.len() > 0 {
                before.push((byte_len(at), byte_len(at + text), url))
            } else {
                before
            },
            _ => before,
        }
    }
}

/// The view of a link span.
pub open spec fn link_span_view(l: LinkSpan) -> (int, int, Seq<char>) {
    (l.range.start as int, l.range.end as int, l.url@)
}

/// Join segments into one text with its runs and link ranges, so that a
/// selection can cross link boundaries; images are left out.
pub fn join_segments(segments: &[InlineSegment]) -> (r: (String, Vec<StyledRun>, Vec<LinkSpan>))
    ensures
        r.0@ == joined_text(segments_view(segments@)),
        r.1@ == joined_runs(segments_view(segments@)),
        r.2@.map_values(|l: LinkSpan| link_span_view(l)) == joined_links(segments_view(segments@)),
{
    let mut full_text = String::new();
    let mut all_runs: Vec<StyledRun> = Vec::new();
    let mut links: Vec<LinkSpan> = Vec::new();
    let ghost sv = segments_view(segments@);
    let mut k: usize = 0;
    while k < segments.len()
        invariant
            k <= segments.len(),
            sv == segments_view(segments@),
            full_text@ == joined_text(sv.subrange(0, k as int)),
            all_runs@ == joined_runs(sv.subrange(0, k as int)),
            links@.map_values(|l: LinkSpan| link_span_view(l)) == joined_links(
                sv.subrange(0, k as int),
            ),
        decreases segments.len() - k,
    {
        let ghost pre = sv.subrange(0, k as int);
        let ghost links0 = links@;
        proof {
            assert(sv.subrange(0, k + 1).drop_last() =~= pre);
            assert(sv.subrange(0, k + 1).last() == segment_view(segments@[k as int]));
        }
        match &segments[k] {
            InlineSegment::Text { text, runs } => {
                if text.as_str().as_bytes().len() > 0 {
                    push_str(&mut full_text, text.as_str());
                    append_runs(&mut all_runs, runs);
                } else {
                    proof {
                        lemma_encode_empty(text@);
                    }
                }
            },
            InlineSegment::Link { text, runs, url } => {
                if text.as_str().as_bytes().len() > 0 {
                    let start = full_text.as_str().as_bytes().len();
                    push_str(&mut full_text, text.as_str());
                    let end = full_text.as_str().as_bytes().len();
                    append_runs(&mut all_runs, runs);
                    links.push(LinkSpan { range: start..end, url: url.clone() });
                    proof {
                        lemma_encode_empty(text@);
                        assert(links@.map_values(|l: LinkSpan| link_span_view(l)) =~= links0.map_values(
                            |l: LinkSpan| link_span_view(l),
                        ).push((byte_len(joined_text(pre)), byte_len(joined_text(pre) + text@), url@)));
                    }
                } else {
                    proof {
                        lemma_encode_empty(text@);
                    }
                }
            },
            InlineSegment::Image { .. } => {},
        }
        proof {
            let seg = segment_view(segments@[k as int]);
            assert(full_text@ =~= joined_text(pre) + segment_text(seg));
            assert(all_runs@ =~= joined_runs(pre) + segment_runs(seg));
        }
        k = k + 1;
    }
    proof {
        assert(sv.subrange(0, sv.len() as int) =~= sv);
    }
    (full_text, all_runs, links)
}

/// The position of the first link whose range contains the byte `index`,
/// if any (what a click at `index` hits).
pub fn link_at(links: &[LinkSpan], index: usize) -> (r: Option<usize>)
    ensures
        match r {
            Some(i) => {
                &&& i < links@.len()
                &&& links@[i as int].range.start <= index < links@[i as int].range.end
                &&& forall|j: int|
                    0 <= j < i ==> !((#[trigger] links@[j]).range.start <= index < links@[j].range.end)
            },
            None => forall|j: int|
                0 <= j < links@.len() ==> !((#[trigger] links@[j]).range.start <= index < links@[j].range.end),
        },
{
    let mut i: usize = 0;
    while i < links.len()
        invariant
            i <= links@.len(),
            forall|j: int| 0 <= j < i ==> !((#[trigger] links@[j]).range.start <= index < links@[j].range.end),
        decreases links.len() - i,
    {
        if links[i].range.start <= index && index < links[i].range.end {
            return Some(i);
        }
        i = i + 1;
    }
    None
}

/// Append `extra` to `runs`.
fn append_runs(runs: &mut Vec<StyledRun>, extra: &Vec<StyledRun>)
    ensures
        final(runs)@ == old(runs)@ + extra@,
{
    let mut i: usize = 0;
    while i < extra.len()
        invariant
            i <= extra.len(),
            runs@ == old(runs)@ + extra@.subrange(0, i as int),
        decreases extra.len() - i,
    {
        runs.push(extra[i]);
        assert(extra@.subrange(0, i + 1) =~= extra@.subrange(0, i as int).push(extra@[i as int]));
        i = i + 1;
    }
    assert(extra@.subrange(0, extra@.len() as int) =~= extra@);
}

// -- Images in inline content --------------------------------------------

/// Whether an inline is or holds an image, through formatting and links.
pub open spec fn has_image_one(x: InlineV) -> bool
    decreases x,
{
    match x {
        InlineV::Image { .. } => true,
        InlineV::Strong(c) => has_image_seq(c),
        InlineV::Emphasis(c) => has_image_seq(c),
        InlineV::Strikethrough(c) => has_image_seq(c),
        InlineV::Link { content, .. } => has_image_seq(content),
        _ => false,
    }
}

/// Whether any inline of a sequence is or holds an image.
pub open spec fn has_image_seq(s: Seq<InlineV>) -> bool
    decreases s,
{
    if s.len() == 0 {
        false
    } else {
        has_image_seq(s.subrange(0, s.len() - 1)) || has_image_one(s[s.len() - 1])
    }
}

/// Check if any inline (recursively) contains an image.
pub fn inlines_contain_image(inlines: &[Inline]) -> (r: bool)
    ensures
        r == has_image_seq(inlines_view(inlines@)),
    decreases inlines@,
{
    let mut k: usize = 0;
    while k < inlines.len()
        invariant
            k <= inlines.len(),
            !has_image_seq(inlines_view(inlines@.subrange(0, k as int))),
        decreases inlines.len() - k,
    {
        proof {
            lemma_inlines_view_prefix(inlines@, k as int);
            let pv = inlines_view(inlines@.subrange(0, k + 1));
            assert(pv.subrange(0, pv.len() - 1) =~= inlines_view(inlines@.subrange(0, k as int)));
            assert(pv[pv.len() - 1] == inline_view(inlines@[k as int]));
        }
        let found = match &inlines[k] {
            Inline::Image { .. } => true,
            Inline::Strong(children) => {
                assert(decreases_to!(inlines@ => children@));
                inlines_contain_image(children.as_slice())
            },
            Inline::Emphasis(children) => {
                assert(decreases_to!(inlines@ => children@));
                inlines_contain_image(children.as_slice())
            },
            Inline::Strikethrough(children) => {
                assert(decreases_to!(inlines@ => children@));
                inlines_contain_image(children.as_slice())
            },
            Inline::Link { content, .. } => {
                assert(decreases_to!(inlines@ => content@));
                inlines_contain_image(content.as_slice())
            },
            _ => false,
        };
        proof {
            let pv = inlines_view(inlines@.subrange(0, k + 1));
            assert(has_image_one(pv[pv.len() - 1]) == found);
            assert(has_image_seq(pv) == found);
        }
        if found {
            proof {
                let pre = inlines@.subrange(0, k + 1);
                let post = inlines@.subrange(k + 1, inlines@.len() as int);
                assert(inlines@ =~= pre + post);
                crate::types::lemma_inlines_view_concat(pre, post);
                lemma_has_image_extend(inlines_view(pre), inlines_view(post));
            }
            return true;
        }
        k = k + 1;
    }
    assert(inlines@.subrange(0, inlines@.len() as int) =~= inlines@);
    false
}

/// An image in a sequence is still there after more inlines are appended.
proof fn lemma_has_image_extend(a: Seq<InlineV>, b: Seq<InlineV>)
    requires
        has_image_seq(a),
    ensures
        has_image_seq(a + b),
    decreases b.len(),
{
    if b.len() == 0 {
        assert(a + b =~= a);
    } else {
        let b0 = b.subrange(0, b.len() - 1);
        lemma_has_image_extend(a, b0);
        assert((a + b).subrange(0, (a + b).len() - 1) =~= a + b0);
    }
}

// -- Runs cover their text ----------------------------------------------

/// Total length of a sequence of runs.
pub open spec fn runs_len(rs: Seq<StyledRun>) -> int
    decreases rs.len(),
{
    if rs.len() == 0 {
        0
    } else {
        runs_len(rs.drop_last()) + rs.last().len
    }
}

proof fn lemma_runs_len_concat(a: Seq<StyledRun>, b: Seq<StyledRun>)
    ensures
        runs_len(a + b) == runs_len(a) + runs_len(b),
    decreases b.len(),
{
    if b.len() == 0 {
        assert(a + b =~= a);
    } else {
        lemma_runs_len_concat(a, b.drop_last());
        assert((a + b).drop_last() =~= a + b.drop_last());
    }
}

proof fn lemma_text_run_len(s: Seq<char>, style: InlineContext)
    requires
        byte_len(s) <= usize::MAX,
    ensures
        runs_len(text_run(s, style)) == byte_len(s),
{
    lemma_encode_empty(s);
    assert(runs_len(Seq::<StyledRun>::empty()) == 0);
    if s.len() > 0 {
        let r = text_run(s, style);
        assert(r.drop_last() =~= Seq::<StyledRun>::empty());
        assert(runs_len(r) == runs_len(r.drop_last()) + r.last().len);
    }
}

proof fn lemma_one_break_len(c: char, style: InlineContext)
    requires
        c == ' ' || c == '\n',
    ensures
        runs_len(seq![StyledRun { len: 1, style }]) == byte_len(seq![c]),
{
    lemma_encode_len_one(c);
    let r = seq![StyledRun { len: 1, style }];
    assert(r.drop_last() =~= Seq::<StyledRun>::empty());
    assert(runs_len(Seq::<StyledRun>::empty()) == 0);
    assert(runs_len(r) == runs_len(r.drop_last()) + r.last().len);
}

/// The runs of one inline cover its plain text exactly.
pub proof fn lemma_runs_one_cover(x: InlineV, ctx: InlineContext)
    requires
        byte_len(plain_one(x)) <= usize::MAX,
    ensures
        runs_len(runs_one(x, ctx)) == byte_len(plain_one(x)),
    decreases x,
{
    match x {
        InlineV::Text(s) => lemma_text_run_len(s, ctx),
        InlineV::Code(s) => lemma_text_run_len(s, with_code(ctx)),
        InlineV::SoftBreak => lemma_one_break_len(' ', ctx),
        InlineV::HardBreak => lemma_one_break_len('\n', ctx),
        InlineV::Strong(c) => lemma_runs_cover(c, with_bold(ctx)),
        InlineV::Emphasis(c) => lemma_runs_cover(c, with_italic(ctx)),
        InlineV::Strikethrough(c) => lemma_runs_cover(c, with_strike(ctx)),
        InlineV::Link { content, .. } => lemma_runs_cover(content, with_link(ctx)),
        InlineV::Image { alt, .. } => lemma_text_run_len(alt, ctx),
    }
}

/// The runs that [`flatten_inlines`] produces cover the text it produces
/// exactly: their lengths add up to its byte length (for a text whose
/// length fits in `usize`).
pub proof fn lemma_runs_cover(s: Seq<InlineV>, ctx: InlineContext)
    requires
        byte_len(plain_seq(s)) <= usize::MAX,
    ensures
        runs_len(runs_seq(s, ctx)) == byte_len(plain_seq(s)),
    decreases s,
{
    if s.len() > 0 {
        let p = s.subrange(0, s.len() - 1);
        let x = s[s.len() - 1];
        lemma_encode_len_concat(plain_seq(p), plain_one(x));
        lemma_runs_cover(p, ctx);
        lemma_runs_one_cover(x, ctx);
        lemma_runs_len_concat(runs_seq(p, ctx), runs_one(x, ctx));
    }
}

/// A text or link segment whose runs cover its text exactly.
pub open spec fn segment_ok(seg: SegmentV) -> bool {
    match seg {
        SegmentV::Text { text, runs } => runs_len(runs) == byte_len(text),
        SegmentV::Link { text, runs, .. } => runs_len(runs) == byte_len(text),
        SegmentV::Image { .. } => true,
    }
}

/// Every segment's runs cover its text.
pub open spec fn segments_ok(s: Seq<SegmentV>) -> bool {
    forall|i: int| 0 <= i < s.len() ==> #[trigger] segment_ok(s[i])
}

proof fn lemma_push_current_ok(segs: Seq<SegmentV>, link: bool, v: Seq<char>, style: InlineContext)
    requires
        segments_ok(segs),
        byte_len(v) <= usize::MAX,
    ensures
        segments_ok(spec_push_current(segs, link, v, style)),
{
    assert(runs_len(Seq::<StyledRun>::empty()) == 0);
    assert(encode_utf8(Seq::<char>::empty()) =~= Seq::<u8>::empty());
    let segs1 = if needs_new_segment(segs, link) {
        segs.push(empty_segment(link))
    } else {
        segs
    };
    assert(segments_ok(segs1)) by {
        assert forall|i: int| 0 <= i < segs1.len() implies #[trigger] segment_ok(segs1[i]) by {
            if i < segs.len() {
                assert(segment_ok(segs[i]));
            }
        }
    }
    let run = StyledRun { len: byte_len(v) as usize, style };
    let last = segs1.last();
    assert(segment_ok(segs1[segs1.len() - 1]));
    match last {
        SegmentV::Text { text, runs } => {
            lemma_runs_len_concat(runs, seq![run]);
            assert(runs.push(run) =~= runs + seq![run]);
            assert(seq![run].drop_last() =~= Seq::<StyledRun>::empty());
            lemma_encode_len_concat(text, v);
        },
        SegmentV::Link { text, runs, .. } => {
            lemma_runs_len_concat(runs, seq![run]);
            assert(runs.push(run) =~= runs + seq![run]);
            assert(seq![run].drop_last() =~= Seq::<StyledRun>::empty());
            lemma_encode_len_concat(text, v);
        },
        SegmentV::Image { .. } => {},
    }
    let r = spec_push_current(segs, link, v, style);
    assert forall|i: int| 0 <= i < r.len() implies #[trigger] segment_ok(r[i]) by {
        if i < segs1.len() - 1 {
            assert(segment_ok(segs1[i]));
        }
    }
}

proof fn lemma_segs_one_ok(
    x: InlineV,
    segs: Seq<SegmentV>,
    ctx: InlineContext,
    base: Option<Seq<char>>,
    is_dark: bool,
)
    requires
        segments_ok(segs),
        byte_len(plain_one(x)) <= usize::MAX,
    ensures
        segments_ok(segs_one(x, segs, ctx, base, is_dark)),
    decreases x,
{
    lemma_encode_len_one(' ');
    lemma_encode_len_one('\n');
    match x {
        InlineV::Text(s) => lemma_push_current_ok(segs, ctx.link, s, ctx),
        InlineV::Code(s) => lemma_push_current_ok(segs, ctx.link, s, with_code(ctx)),
        InlineV::SoftBreak => lemma_push_current_ok(segs, ctx.link, seq![' '], ctx),
        InlineV::HardBreak => lemma_push_current_ok(segs, ctx.link, seq!['\n'], ctx),
        InlineV::Strong(c) => lemma_segs_seq_ok(c, segs, with_bold(ctx), base, is_dark),
        InlineV::Emphasis(c) => lemma_segs_seq_ok(c, segs, with_italic(ctx), base, is_dark),
        InlineV::Strikethrough(c) => lemma_segs_seq_ok(c, segs, with_strike(ctx), base, is_dark),
        InlineV::Link { url, content, .. } => {
            assert(runs_len(Seq::<StyledRun>::empty()) == 0);
            assert(encode_utf8(Seq::<char>::empty()) =~= Seq::<u8>::empty());
            let opened = segs.push(
                SegmentV::Link {
                    text: Seq::empty(),
                    runs: Seq::empty(),
                    url: spec_resolve_url(url, base),
                },
            );
            assert forall|i: int| 0 <= i < opened.len() implies #[trigger] segment_ok(opened[i]) by {
                if i < segs.len() {
                    assert(segment_ok(segs[i]));
                }
            }
            lemma_segs_seq_ok(content, opened, with_link(ctx), base, is_dark);
            let walked = segs_seq(content, opened, with_link(ctx), base, is_dark);
            let r = walked.push(SegmentV::Text { text: Seq::empty(), runs: Seq::empty() });
            assert forall|i: int| 0 <= i < r.len() implies #[trigger] segment_ok(r[i]) by {
                if i < walked.len() {
                    assert(segment_ok(walked[i]));
                }
            }
        },
        InlineV::Image { url, alt, width, height, dark_url, light_url, .. } => {
            let r = segs_one(x, segs, ctx, base, is_dark);
            assert forall|i: int| 0 <= i < r.len() implies #[trigger] segment_ok(r[i]) by {
                if i < segs.len() {
                    assert(segment_ok(segs[i]));
                }
            }
        },
    }
}

proof fn lemma_segs_seq_ok(
    s: Seq<InlineV>,
    segs: Seq<SegmentV>,
    ctx: InlineContext,
    base: Option<Seq<char>>,
    is_dark: bool,
)
    requires
        segments_ok(segs),
        byte_len(plain_seq(s)) <= usize::MAX,
    ensures
        segments_ok(segs_seq(s, segs, ctx, base, is_dark)),
    decreases s,
{
    if s.len() > 0 {
        let p = s.subrange(0, s.len() - 1);
        let x = s[s.len() - 1];
        lemma_encode_len_concat(plain_seq(p), plain_one(x));
        lemma_segs_seq_ok(p, segs, ctx, base, is_dark);
        lemma_segs_one_ok(x, segs_seq(p, segs, ctx, base, is_dark), ctx, base, is_dark);
    }
}

proof fn lemma_joined_cover(s: Seq<SegmentV>)
    requires
        segments_ok(s),
    ensures
        runs_len(joined_runs(s)) == byte_len(joined_text(s)),
    decreases s.len(),
{
    assert(runs_len(Seq::<StyledRun>::empty()) == 0);
    assert(encode_utf8(Seq::<char>::empty()) =~= Seq::<u8>::empty());
    if s.len() > 0 {
        let p = s.drop_last();
        let seg = s.last();
        assert forall|i: int| 0 <= i < p.len() implies #[trigger] segment_ok(p[i]) by {
            assert(segment_ok(s[i]));
        }
        assert(segment_ok(s[s.len() - 1]));
        lemma_joined_cover(p);
        lemma_runs_len_concat(joined_runs(p), segment_runs(seg));
        lemma_encode_len_concat(joined_text(p), segment_text(seg));
        match seg {
            SegmentV::Text { text, .. } => lemma_encode_empty(text),
            SegmentV::Link { text, .. } => lemma_encode_empty(text),
            SegmentV::Image { .. } => {},
        }
    }
}

/// The segments that [`collect_segments`] produces each have runs that
/// cover their text, and the runs that [`join_segments`] returns cover the
/// joined text exactly (for content whose plain text fits in `usize`).
pub proof fn lemma_segments_cover(s: Seq<InlineV>, base: Option<Seq<char>>, is_dark: bool)
    requires
        byte_len(plain_seq(s)) <= usize::MAX,
    ensures
        segments_ok(segs_seq(s, Seq::empty(), plain_context(), base, is_dark)),
        runs_len(joined_runs(segs_seq(s, Seq::empty(), plain_context(), base, is_dark)))
            == byte_len(joined_text(segs_seq(s, Seq::empty(), plain_context(), base, is_dark))),
{
    lemma_segs_seq_ok(s, Seq::empty(), plain_context(), base, is_dark);
    lemma_joined_cover(segs_seq(s, Seq::empty(), plain_context(), base, is_dark));
}

} // verus!
