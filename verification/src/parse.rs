//! Markdown parsing: source text into the block/inline tree.
//!
//! The source is first split into plain markdown and `<details>` blocks
//! (which the markdown parser does not handle); each markdown segment goes
//! through the parser, and each `<details>` body is parsed again, recursively.

use crate::details::{
    segments_view, spec_segments, try_split_details_segments, Segment, SegmentV,
};
use crate::html::{spec_summary_inlines, summary_inlines_from_text};
use crate::markdown::{parse_comrak, spec_parse_comrak};
use crate::types::{blocks_view, Block, BlockV, Details, ParsedMarkdown};
use vstd::prelude::*;

verus! {

/// The summary text of a details segment: its summary, or `Details`.
pub open spec fn summary_or_default(s: Option<Seq<char>>) -> Seq<char> {
    match s {
        Some(t) => t,
        None => seq!['D', 'e', 't', 'a', 'i', 'l', 's'],
    }
}

/// The blocks of a source: each markdown segment parsed (see
/// [`spec_parse_comrak`]), each `<details>` segment a details block with its
/// summary's inlines and its body parsed in turn.
pub open spec fn spec_gfm(source: Seq<char>) -> Seq<BlockV>
    decreases source.len() + 1, 0int,
{
    match spec_segments(source) {
        None => Seq::empty(),
        Some(segs) => segs_blocks(segs, source.len() as int),
    }
}

/// The blocks of a sequence of segments whose details bodies are shorter
/// than `bound`.
pub open spec fn segs_blocks(segs: Seq<SegmentV>, bound: int) -> Seq<BlockV>
    decreases bound, segs.len(),
{
    if segs.len() == 0 || bound < 0 {
        Seq::empty()
    } else {
        let prev = segs_blocks(segs.subrange(0, segs.len() - 1), bound);
        match segs[segs.len() - 1] {
            SegmentV::Markdown(m) => prev + spec_parse_comrak(m),
            SegmentV::Details { summary, body, open } => prev.push(
                BlockV::Details {
                    summary: spec_summary_inlines(summary_or_default(summary)),
                    blocks: if body.len() < bound {
                        spec_gfm(body)
                    } else {
                        Seq::empty()
                    },
                    open,
                },
            ),
        }
    }
}

/// The source splits into segments (see [`spec_segments`]), and so does
/// every `<details>` body within it, at any depth.
pub open spec fn gfm_ok(source: Seq<char>) -> bool
    decreases source.len() + 1, 0int,
{
    match spec_segments(source) {
        None => false,
        Some(segs) => segs_ok(segs, source.len() as int),
    }
}

/// Every details body among `segs` is shorter than `bound` and splits.
pub open spec fn segs_ok(segs: Seq<SegmentV>, bound: int) -> bool
    decreases bound, segs.len(),
{
    if segs.len() == 0 || bound < 0 {
        true
    } else {
        segs_ok(segs.subrange(0, segs.len() - 1), bound) && match segs[segs.len() - 1] {
            SegmentV::Markdown(_) => true,
            SegmentV::Details { body, .. } => body.len() < bound && gfm_ok(body),
        }
    }
}

proof fn lemma_segs_ok_prefix(segs: Seq<SegmentV>, bound: int, j: int)
    requires
        0 <= j <= segs.len(),
        bound >= 0,
        segs_ok(segs, bound),
    ensures
        segs_ok(segs.subrange(0, j), bound),
    decreases segs.len(),
{
    if j < segs.len() {
        assert(segs.subrange(0, segs.len() - 1).subrange(0, j) =~= segs.subrange(0, j));
        lemma_segs_ok_prefix(segs.subrange(0, segs.len() - 1), bound, j);
    } else {
        assert(segs.subrange(0, j) =~= segs);
    }
}

/// Parse a GFM markdown source into blocks; `None` exactly when some
/// `<details>` block in it cannot be read (see [`gfm_ok`]).
pub fn try_parse_gfm(source: &str) -> (r: Option<Vec<Block>>)
    ensures
        match r {
            Some(b) => gfm_ok(source@) && blocks_view(b@) == spec_gfm(source@),
            None => !gfm_ok(source@),
        },
    decreases source@.len(),
{
    let segs = match try_split_details_segments(source) {
        Some(s) => s,
        None => {
            return None;
        },
    };
    let ghost sv = segments_view(segs@);
    let ghost n = source@.len() as int;
    let mut blocks: Vec<Block> = Vec::new();
    let mut k: usize = 0;
    assert(sv.subrange(0, 0) =~= Seq::<SegmentV>::empty());
    assert(blocks_view(blocks@) =~= Seq::<BlockV>::empty());
    while k < segs.len()
        invariant
            sv == segments_view(segs@),
            n == source@.len(),
            spec_segments(source@) == Some(sv),
            crate::details::bodies_shorter(segs@, source@.len()),
            k <= segs.len(),
            blocks_view(blocks@) == segs_blocks(sv.subrange(0, k as int), n),
            segs_ok(sv.subrange(0, k as int), n),
        decreases segs.len() - k,
    {
        let ghost pre = sv.subrange(0, k as int);
        let ghost pre1 = sv.subrange(0, k + 1);
        assert(pre1.subrange(0, k as int) =~= pre);
        assert(pre1[k as int] == segs@[k as int]@);
        match &segs[k] {
            Segment::Markdown(m) => {
                let mut b = parse_comrak(m.as_str());
                let ghost old_b = blocks@;
                let ghost bv = b@;
                blocks.append(&mut b);
                proof {
                    crate::types::lemma_blocks_view_concat(old_b, bv);
                }
            },
            Segment::Details { summary, body, open } => {
                proof {
                    reveal_strlit("Details");
                }
                let s = match summary {
                    Some(t) => t.as_str(),
                    None => "Details",
                };
                assert(s@ == summary_or_default(crate::details::opt_str_view(*summary)));
                let si = summary_inlines_from_text(s);
                assert(segs@[k as int] matches Segment::Details { body, .. } && body@.len()
                    < source@.len());
                let bb = match try_parse_gfm(body.as_str()) {
                    Some(bb) => bb,
                    None => {
                        proof {
                            assert(!segs_ok(pre1, n));
                            if gfm_ok(source@) {
                                lemma_segs_ok_prefix(sv, n, k + 1);
                            }
                        }
                        return None;
                    },
                };
                let d = Block::Details(Details { summary: si, blocks: bb, open: *open });
                let ghost old_b = blocks@;
                blocks.push(d);
                proof {
                    crate::types::lemma_blocks_view_push(old_b, d);
                }
            },
        }
        k = k + 1;
    }
    assert(sv.subrange(0, sv.len() as int) =~= sv);
    Some(blocks)
}

/// Parse a GFM markdown source into blocks (see [`spec_gfm`]).
///
/// This is the top-level parsing entry point: `<details>` blocks are split
/// off first, then each segment goes through the markdown parser.
pub fn parse_gfm(source: &str) -> (r: Vec<Block>)
    requires
        gfm_ok(source@),
    ensures
        blocks_view(r@) == spec_gfm(source@),
{
    match try_parse_gfm(source) {
        Some(b) => b,
        None => Vec::new(),
    }
}

/// Parse markdown source into a shared [`ParsedMarkdown`].
pub fn parse_markdown(source: &str) -> (r: ParsedMarkdown)
    requires
        gfm_ok(source@),
    ensures
        blocks_view(r.spec_blocks()) == spec_gfm(source@),
{
    ParsedMarkdown::new(parse_gfm(source))
}

} // verus!
