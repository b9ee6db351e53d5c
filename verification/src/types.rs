//! Core data types of the block/inline tree, their mathematical views, and
//! the tree utilities `inline_to_plain_text` and `merge_adjacent_text`.

use std::sync::Arc;
use vstd::prelude::*;

verus! {

/// A block-level markdown node.
#[derive(Debug, PartialEq, Eq)]
pub enum Block {
    /// A paragraph containing inline content.
    Paragraph(Vec<Inline>),
    /// A heading with level (1–6) and inline content.
    Heading { level: u8, content: Vec<Inline> },
    /// An ordered or unordered list.
    List(List),
    /// A fenced or indented code block.
    CodeBlock(CodeBlock),
    /// A block quote containing nested blocks.
    BlockQuote(Vec<Block>),
    /// A thematic break (`---`, `***`, `___`).
    ThematicBreak,
    /// A GFM pipe table.
    Table(Table),
    /// An HTML `<details>/<summary>` collapsible section.
    Details(Details),
    /// Content wrapped in a centered `<div>`.
    Aligned { center: bool, blocks: Vec<Block> },
}

/// A fenced or indented code block.
#[derive(Debug, Clone, PartialEq, Eq)]
pub struct CodeBlock {
    /// The language hint from the info string (e.g. `rust`, `js`).
    pub lang: Option<String>,
    /// The raw code content.
    pub value: String,
}

/// A GFM pipe table.
#[derive(Debug, Clone, PartialEq, Eq)]
pub struct Table {
    /// Header cells — each cell is a list of inlines.
    pub headers: Vec<Vec<Inline>>,
    /// Body rows — each row is a list of cells, each cell a list of inlines.
    pub rows: Vec<Vec<Vec<Inline>>>,
}

/// An HTML `<details>` block.
#[derive(Debug, PartialEq, Eq)]
pub struct Details {
    /// The `<summary>` content as inlines.
    pub summary: Vec<Inline>,
    /// The body content as blocks.
    pub blocks: Vec<Block>,
    /// Whether the `<details>` tag had the `open` attribute.
    pub open: bool,
}

/// A list (ordered or unordered).
#[derive(Debug, PartialEq, Eq)]
pub struct List {
    /// `true` for ordered lists.
    pub ordered: bool,
    /// The starting number for ordered lists.
    pub start: Option<u64>,
    /// The list items.
    pub items: Vec<ListItem>,
}

/// A single list item.
#[derive(Debug, PartialEq, Eq)]
pub struct ListItem {
    /// The block content of this item.
    pub blocks: Vec<Block>,
    /// Task-list checkbox state: `Some(true)` checked, `Some(false)` unchecked, `None` no checkbox.
    pub checked: Option<bool>,
}

/// An inline markdown node.
#[derive(Debug, PartialEq, Eq)]
pub enum Inline {
    /// Plain text.
    Text(String),
    /// A hyperlink.
    Link { url: String, title: Option<String>, content: Vec<Inline> },
    /// An image.
    Image {
        url: String,
        title: Option<String>,
        alt: String,
        width: Option<String>,
        height: Option<String>,
        /// URL for the dark-mode variant (from a `<picture>` element).
        dark_url: Option<String>,
        /// URL for the light-mode variant (from a `<picture>` element).
        light_url: Option<String>,
    },
    /// Inline code span.
    Code(String),
    /// A soft line break (rendered as a space).
    SoftBreak,
    /// A hard line break (rendered as a newline).
    HardBreak,
    /// Bold / strong emphasis.
    Strong(Vec<Inline>),
    /// Italic emphasis.
    Emphasis(Vec<Inline>),
    /// Strikethrough text.
    Strikethrough(Vec<Inline>),
}

/// The mathematical value of an [`Inline`]: strings become character sequences.
pub enum InlineV {
    Text(Seq<char>),
    Link { url: Seq<char>, title: Option<Seq<char>>, content: Seq<InlineV> },
    Image {
        url: Seq<char>,
        title: Option<Seq<char>>,
        alt: Seq<char>,
        width: Option<Seq<char>>,
        height: Option<Seq<char>>,
        dark_url: Option<Seq<char>>,
        light_url: Option<Seq<char>>,
    },
    Code(Seq<char>),
    SoftBreak,
    HardBreak,
    Strong(Seq<InlineV>),
    Emphasis(Seq<InlineV>),
    Strikethrough(Seq<InlineV>),
}

/// The mathematical value of a [`Block`].
pub enum BlockV {
    Paragraph(Seq<InlineV>),
    Heading { level: u8, content: Seq<InlineV> },
    List { ordered: bool, start: Option<u64>, items: Seq<(Seq<BlockV>, Option<bool>)> },
    CodeBlock { lang: Option<Seq<char>>, value: Seq<char> },
    BlockQuote(Seq<BlockV>),
    ThematicBreak,
    Table { headers: Seq<Seq<InlineV>>, rows: Seq<Seq<Seq<InlineV>>> },
    Details { summary: Seq<InlineV>, blocks: Seq<BlockV>, open: bool },
    Aligned { center: bool, blocks: Seq<BlockV> },
}

/// The view of an optional string.
pub open spec fn opt_view(o: Option<String>) -> Option<Seq<char>> {
    match o {
        Some(s) => Some(s@),
        None => None,
    }
}

/// The view of one inline node.
pub open spec fn inline_view(i: Inline) -> InlineV
    decreases i,
{
    match i {
        Inline::Text(s) => InlineV::Text(s@),
        Inline::Link { url, title, content } => InlineV::Link {
            url: url@,
            title: opt_view(title),
            content: inlines_view(content@),
        },
        Inline::Image { url, title, alt, width, height, dark_url, light_url } => InlineV::Image {
            url: url@,
            title: opt_view(title),
            alt: alt@,
            width: opt_view(width),
            height: opt_view(height),
            dark_url: opt_view(dark_url),
            light_url: opt_view(light_url),
        },
        Inline::Code(s) => InlineV::Code(s@),
        Inline::SoftBreak => InlineV::SoftBreak,
        Inline::HardBreak => InlineV::HardBreak,
        Inline::Strong(c) => InlineV::Strong(inlines_view(c@)),
        Inline::Emphasis(c) => InlineV::Emphasis(inlines_view(c@)),
        Inline::Strikethrough(c) => InlineV::Strikethrough(inlines_view(c@)),
    }
}

/// The view of a sequence of inline nodes, element by element.
pub open spec fn inlines_view(s: Seq<Inline>) -> Seq<InlineV>
    decreases s,
{
    if s.len() == 0 {
        Seq::empty()
    } else {
        inlines_view(s.subrange(0, s.len() - 1)).push(inline_view(s[s.len() - 1]))
    }
}

/// Appending to a sequence appends its view.
pub proof fn lemma_inlines_view_push(s: Seq<Inline>, x: Inline)
    ensures
        inlines_view(s.push(x)) == inlines_view(s).push(inline_view(x)),
{
    assert(s.push(x).subrange(0, s.len() as int) =~= s);
}

/// The view of a prefix extended by one element.
pub proof fn lemma_inlines_view_prefix(s: Seq<Inline>, k: int)
    requires
        0 <= k < s.len(),
    ensures
        inlines_view(s.subrange(0, k + 1)) == inlines_view(s.subrange(0, k)).push(
            inline_view(s[k]),
        ),
{
    assert(s.subrange(0, k + 1).subrange(0, k) =~= s.subrange(0, k));
}

/// The view of a concatenation is the concatenation of the views.
pub proof fn lemma_inlines_view_concat(a: Seq<Inline>, b: Seq<Inline>)
    ensures
        inlines_view(a + b) == inlines_view(a) + inlines_view(b),
    decreases b.len(),
{
    if b.len() == 0 {
        assert(a + b =~= a);
        assert(inlines_view(a) + inlines_view(b) =~= inlines_view(a));
    } else {
        let b0 = b.subrange(0, b.len() - 1);
        let x = b[b.len() - 1];
        assert(b0.push(x) =~= b);
        assert((a + b0).push(x) =~= a + b);
        lemma_inlines_view_concat(a, b0);
        lemma_inlines_view_push(a + b0, x);
        lemma_inlines_view_push(b0, x);
        assert(inlines_view(a + b) =~= inlines_view(a) + inlines_view(b));
    }
}

/// The view of one block.
pub open spec fn block_view(b: Block) -> BlockV
    decreases b,
{
    match b {
        Block::Paragraph(c) => BlockV::Paragraph(inlines_view(c@)),
        Block::Heading { level, content } => BlockV::Heading { level, content: inlines_view(content@) },
        Block::List(l) => BlockV::List {
            ordered: l.ordered,
            start: l.start,
            items: items_view(l.items@),
        },
        Block::CodeBlock(c) => BlockV::CodeBlock { lang: opt_view(c.lang), value: c.value@ },
        Block::BlockQuote(c) => BlockV::BlockQuote(blocks_view(c@)),
        Block::ThematicBreak => BlockV::ThematicBreak,
        Block::Table(t) => BlockV::Table {
            headers: cells_view(t.headers@),
            rows: rows_view(t.rows@),
        },
        Block::Details(d) => BlockV::Details {
            summary: inlines_view(d.summary@),
            blocks: blocks_view(d.blocks@),
            open: d.open,
        },
        Block::Aligned { center, blocks } => BlockV::Aligned { center, blocks: blocks_view(blocks@) },
    }
}

/// The view of a sequence of blocks, element by element.
pub open spec fn blocks_view(s: Seq<Block>) -> Seq<BlockV>
    decreases s,
{
    if s.len() == 0 {
        Seq::empty()
    } else {
        blocks_view(s.subrange(0, s.len() - 1)).push(block_view(s[s.len() - 1]))
    }
}

/// The view of list items: each item's blocks and checkbox state.
pub open spec fn items_view(s: Seq<ListItem>) -> Seq<(Seq<BlockV>, Option<bool>)>
    decreases s,
{
    if s.len() == 0 {
        Seq::empty()
    } else {
        items_view(s.subrange(0, s.len() - 1)).push(
            (blocks_view(s[s.len() - 1].blocks@), s[s.len() - 1].checked),
        )
    }
}

/// The view of a row of table cells.
pub open spec fn cells_view(s: Seq<Vec<Inline>>) -> Seq<Seq<InlineV>> {
    s.map_values(|c: Vec<Inline>| inlines_view(c@))
}

/// The view of table rows.
pub open spec fn rows_view(s: Seq<Vec<Vec<Inline>>>) -> Seq<Seq<Seq<InlineV>>> {
    s.map_values(|r: Vec<Vec<Inline>>| cells_view(r@))
}

/// Appending to a sequence of blocks appends its view.
pub proof fn lemma_blocks_view_push(s: Seq<Block>, x: Block)
    ensures
        blocks_view(s.push(x)) == blocks_view(s).push(block_view(x)),
{
    assert(s.push(x).subrange(0, s.len() as int) =~= s);
}

/// The view of a concatenation of blocks is the concatenation of the views.
pub proof fn lemma_blocks_view_concat(a: Seq<Block>, b: Seq<Block>)
    ensures
        blocks_view(a + b) == blocks_view(a) + blocks_view(b),
    decreases b.len(),
{
    if b.len() == 0 {
        assert(a + b =~= a);
        assert(blocks_view(a) + blocks_view(b) =~= blocks_view(a));
    } else {
        let b0 = b.subrange(0, b.len() - 1);
        let x = b[b.len() - 1];
        assert(b0.push(x) =~= b);
        assert((a + b0).push(x) =~= a + b);
        lemma_blocks_view_concat(a, b0);
        lemma_blocks_view_push(a + b0, x);
        lemma_blocks_view_push(b0, x);
        assert(blocks_view(a + b) =~= blocks_view(a) + blocks_view(b));
    }
}

/// Appending to a sequence of list items appends its view.
pub proof fn lemma_items_view_push(s: Seq<ListItem>, x: ListItem)
    ensures
        items_view(s.push(x)) == items_view(s).push((blocks_view(x.blocks@), x.checked)),
{
    assert(s.push(x).subrange(0, s.len() as int) =~= s);
}

impl View for Inline {
    type V = InlineV;

    open spec fn view(&self) -> InlineV {
        inline_view(*self)
    }
}


/// A parsed markdown document, ready for rendering or height estimation.
///
/// The block list is shared behind an `Arc`, so cloning is cheap and a
/// parsed result can be kept across frames without re-parsing.
#[derive(Debug)]
pub struct ParsedMarkdown {
    blocks: Arc<Vec<Block>>,
}

/// Another handle on the same shared block list (`Arc::clone`).
#[verifier::external_body]
fn share_blocks(a: &Arc<Vec<Block>>) -> (r: Arc<Vec<Block>>)
    ensures
        r == *a,
{
    Arc::clone(a)
}

impl Clone for ParsedMarkdown {
    fn clone(&self) -> (r: Self)
        ensures
            r == *self,
    {
        ParsedMarkdown { blocks: share_blocks(&self.blocks) }
    }
}

impl ParsedMarkdown {
    /// The blocks of the document.
    pub closed spec fn spec_blocks(self) -> Seq<Block> {
        (*self.blocks)@
    }

    /// Create a new parsed document from a list of blocks.
    pub fn new(blocks: Vec<Block>) -> (r: Self)
        ensures
            r.spec_blocks() == blocks@,
    {
        ParsedMarkdown { blocks: Arc::new(blocks) }
    }

    /// Access the block list.
    pub fn blocks(&self) -> (r: &[Block])
        ensures
            r@ == self.spec_blocks(),
    {
        self.blocks.as_slice()
    }

    /// The shared allocation that holds the block list.
    pub fn blocks_arc(&self) -> (r: &Arc<Vec<Block>>)
        ensures
            (**r)@ == self.spec_blocks(),
    {
        &self.blocks
    }
}

/// Plain text of one inline: text and code verbatim, a soft break as a
/// space, a hard break as a newline, formatting and links by their content,
/// images by their alt text.
pub open spec fn plain_one(x: InlineV) -> Seq<char>
    decreases x,
{
    match x {
        InlineV::Text(s) => s,
        InlineV::Code(s) => s,
        InlineV::SoftBreak => seq![' '],
        InlineV::HardBreak => seq!['\n'],
        InlineV::Strong(c) => plain_seq(c),
        InlineV::Emphasis(c) => plain_seq(c),
        InlineV::Strikethrough(c) => plain_seq(c),
        InlineV::Link { content, .. } => plain_seq(content),
        InlineV::Image { alt, .. } => alt,
    }
}

/// Plain text of a sequence of inlines: the concatenation of [`plain_one`].
pub open spec fn plain_seq(s: Seq<InlineV>) -> Seq<char>
    decreases s,
{
    if s.len() == 0 {
        Seq::empty()
    } else {
        plain_seq(s.subrange(0, s.len() - 1)) + plain_one(s[s.len() - 1])
    }
}

/// Flatten inlines into plain text (for alt text, height estimation, etc.).
pub fn inline_to_plain_text(inlines: &[Inline]) -> (r: String)
    ensures
        r@ == plain_seq(inlines_view(inlines@)),
{
    let mut text = String::new();
    inline_to_plain_text_inner(inlines, &mut text);
    text
}

fn inline_to_plain_text_inner(inlines: &[Inline], out: &mut String)
    ensures
        final(out)@ == old(out)@ + plain_seq(inlines_view(inlines@)),
    decreases inlines@,
{
    let mut k: usize = 0;
    while k < inlines.len()
        invariant
            k <= inlines.len(),
            out@ == old(out)@ + plain_seq(inlines_view(inlines@.subrange(0, k as int))),
        decreases inlines.len() - k,
    {
        let ghost before = out@;
        proof {
            lemma_inlines_view_prefix(inlines@, k as int);
            let pv = inlines_view(inlines@.subrange(0, k + 1));
            assert(pv.subrange(0, pv.len() - 1) =~= inlines_view(inlines@.subrange(0, k as int)));
        }
        match &inlines[k] {
            Inline::Text(value) => crate::text::push_str(out, value.as_str()),
            Inline::Code(value) => crate::text::push_str(out, value.as_str()),
            Inline::SoftBreak => crate::text::push_char(out, ' '),
            Inline::HardBreak => crate::text::push_char(out, '\n'),
            Inline::Strong(children) => {
                assert(decreases_to!(inlines@ => children@));
                inline_to_plain_text_inner(children.as_slice(), out);
            },
            Inline::Emphasis(children) => {
                assert(decreases_to!(inlines@ => children@));
                inline_to_plain_text_inner(children.as_slice(), out);
            },
            Inline::Strikethrough(children) => {
                assert(decreases_to!(inlines@ => children@));
                inline_to_plain_text_inner(children.as_slice(), out);
            },
            Inline::Link { content, .. } => {
                assert(decreases_to!(inlines@ => content@));
                inline_to_plain_text_inner(content.as_slice(), out);
            },
            Inline::Image { alt, .. } => crate::text::push_str(out, alt.as_str()),
        }
        proof {
            let pv = inlines_view(inlines@.subrange(0, k + 1));
            assert(pv[pv.len() - 1] == inline_view(inlines@[k as int]));
            assert(out@ =~= before + plain_one(inline_view(inlines@[k as int])));
        }
        k = k + 1;
    }
    assert(inlines@.subrange(0, inlines@.len() as int) =~= inlines@);
}

/// Adjacent text nodes merged into one: scanning left to right, a text node
/// that follows a text node is appended to it.
pub open spec fn merge_text(s: Seq<InlineV>) -> Seq<InlineV>
    decreases s.len(),
{
    if s.len() == 0 {
        Seq::empty()
    } else {
        let m = merge_text(s.subrange(0, s.len() - 1));
        let x = s[s.len() - 1];
        if m.len() > 0 && m[m.len() - 1] is Text && x is Text {
            m.update(m.len() - 1, InlineV::Text(m[m.len() - 1]->Text_0 + x->Text_0))
        } else {
            m.push(x)
        }
    }
}

pub proof fn lemma_plain_seq_push(s: Seq<InlineV>, x: InlineV)
    ensures
        plain_seq(s.push(x)) == plain_seq(s) + plain_one(x),
{
    assert(s.push(x).subrange(0, s.len() as int) =~= s);
}

/// The plain text of a concatenation is the concatenation of plain texts.
pub proof fn lemma_plain_seq_concat(a: Seq<InlineV>, b: Seq<InlineV>)
    ensures
        plain_seq(a + b) == plain_seq(a) + plain_seq(b),
    decreases b.len(),
{
    if b.len() == 0 {
        assert(a + b =~= a);
        assert(plain_seq(a) + plain_seq(b) =~= plain_seq(a));
    } else {
        let b0 = b.subrange(0, b.len() - 1);
        let x = b[b.len() - 1];
        assert(b0.push(x) =~= b);
        assert((a + b0).push(x) =~= a + b);
        lemma_plain_seq_concat(a, b0);
        lemma_plain_seq_push(a + b0, x);
        lemma_plain_seq_push(b0, x);
        assert(plain_seq(a + b) =~= plain_seq(a) + plain_seq(b));
    }
}

/// Merging adjacent text nodes keeps the plain text of the inlines.
pub proof fn lemma_merge_keeps_plain_text(s: Seq<InlineV>)
    ensures
        plain_seq(merge_text(s)) == plain_seq(s),
    decreases s.len(),
{
    if s.len() > 0 {
        let p = s.subrange(0, s.len() - 1);
        let x = s[s.len() - 1];
        let m = merge_text(p);
        lemma_merge_keeps_plain_text(p);
        assert(s =~= p.push(x));
        lemma_plain_seq_push(p, x);
        if m.len() > 0 && m[m.len() - 1] is Text && x is Text {
            let m0 = m.subrange(0, m.len() - 1);
            let y = InlineV::Text(m[m.len() - 1]->Text_0 + x->Text_0);
            assert(m =~= m0.push(m[m.len() - 1]));
            assert(m.update(m.len() - 1, y) =~= m0.push(y));
            lemma_plain_seq_push(m0, m[m.len() - 1]);
            lemma_plain_seq_push(m0, y);
            assert(plain_seq(m0) + plain_one(y) =~= plain_seq(m0) + plain_one(m[m.len() - 1])
                + plain_one(x));
        } else {
            lemma_plain_seq_push(m, x);
        }
    }
}

/// The inlines of `s` that are not text, in order.
pub open spec fn non_texts(s: Seq<InlineV>) -> Seq<InlineV>
    decreases s.len(),
{
    if s.len() == 0 {
        Seq::empty()
    } else {
        let p = non_texts(s.subrange(0, s.len() - 1));
        if s[s.len() - 1] is Text {
            p
        } else {
            p.push(s[s.len() - 1])
        }
    }
}

/// Merging adjacent text nodes leaves no two text nodes side by side, keeps
/// the other nodes in order, and never lengthens the sequence.
pub proof fn lemma_merge_shape(s: Seq<InlineV>)
    ensures
        merge_text(s).len() <= s.len(),
        forall|i: int|
            0 <= i < merge_text(s).len() - 1 ==> !(#[trigger] merge_text(s)[i] is Text && merge_text(
                s,
            )[i + 1] is Text),
        non_texts(merge_text(s)) == non_texts(s),
    decreases s.len(),
{
    if s.len() > 0 {
        let p = s.subrange(0, s.len() - 1);
        let x = s[s.len() - 1];
        let m = merge_text(p);
        lemma_merge_shape(p);
        let r = merge_text(s);
        if m.len() > 0 && m[m.len() - 1] is Text && x is Text {
            let y = InlineV::Text(m[m.len() - 1]->Text_0 + x->Text_0);
            assert(r == m.update(m.len() - 1, y));
            assert(r.subrange(0, r.len() - 1) =~= m.subrange(0, m.len() - 1));
            assert forall|i: int| 0 <= i < r.len() - 1 implies !(#[trigger] r[i] is Text && r[i + 1] is Text) by {
                assert(r[i] == m[i]);
                if i + 1 < m.len() - 1 {
                    assert(r[i + 1] == m[i + 1]);
                } else {
                    assert(m[i + 1] is Text);
                }
            }
        } else {
            assert(r == m.push(x));
            assert(r.subrange(0, r.len() - 1) =~= m);
            assert forall|i: int| 0 <= i < r.len() - 1 implies !(#[trigger] r[i] is Text && r[i + 1] is Text) by {
                assert(r[i] == m[i]);
                if i + 1 < m.len() {
                    assert(r[i + 1] == m[i + 1]);
                }
            }
        }
    }
}

/// Merge adjacent `Inline::Text` nodes to reduce allocations during rendering.
pub fn merge_adjacent_text(inlines: Vec<Inline>) -> (r: Vec<Inline>)
    ensures
        inlines_view(r@) == merge_text(inlines_view(inlines@)),
{
    let mut merged: Vec<Inline> = Vec::new();
    let mut k: usize = 0;
    while k < inlines.len()
        invariant
            k <= inlines.len(),
            inlines_view(merged@) == merge_text(inlines_view(inlines@.subrange(0, k as int))),
        decreases inlines.len() - k,
    {
        let ghost before = inlines_view(merged@);
        proof {
            lemma_inlines_view_prefix(inlines@, k as int);
            let pv = inlines_view(inlines@.subrange(0, k + 1));
            assert(pv.subrange(0, pv.len() - 1) =~= inlines_view(inlines@.subrange(0, k as int)));
            assert(pv[pv.len() - 1] == inline_view(inlines@[k as int]));
        }
        let x = inlines[k].clone();
        let n = merged.len();
        let joins = n > 0 && match (&merged[n - 1], &x) {
            (Inline::Text(_), Inline::Text(_)) => true,
            _ => false,
        };
        proof {
            if n > 0 {
                lemma_inlines_view_prefix(merged@, n - 1);
                assert(merged@.subrange(0, n as int) =~= merged@);
            }
        }
        if joins {
            let ghost m0 = merged@;
            let last = merged.pop().unwrap();
            proof {
                assert(m0.subrange(0, n - 1) =~= merged@);
                lemma_inlines_view_prefix(m0, n - 1);
                assert(m0.subrange(0, n as int) =~= m0);
            }
            match (last, x) {
                (Inline::Text(mut a), Inline::Text(b)) => {
                    crate::text::push_str(&mut a, b.as_str());
                    let y = Inline::Text(a);
                    let ghost m1 = merged@;
                    merged.push(y);
                    proof {
                        lemma_inlines_view_push(m1, y);
                        assert(inlines_view(merged@) =~= before.update(
                            before.len() - 1,
                            InlineV::Text(before[before.len() - 1]->Text_0 + b@),
                        ));
                    }
                },
                _ => {},
            }
        } else {
            let ghost m1 = merged@;
            merged.push(x);
            proof {
                lemma_inlines_view_push(m1, x);
            }
        }
        k = k + 1;
    }
    assert(inlines@.subrange(0, inlines@.len() as int) =~= inlines@);
    merged
}

/// Copies an optional string.
pub fn copy_opt_string(o: &Option<String>) -> (r: Option<String>)
    ensures
        opt_view(r) == opt_view(*o),
{
    match o {
        Some(s) => Some(s.clone()),
        None => None,
    }
}

/// Copies a sequence of inline nodes.
pub fn copy_inlines(v: &Vec<Inline>) -> (r: Vec<Inline>)
    ensures
        inlines_view(r@) == inlines_view(v@),
    decreases v@, 0nat,
{
    let mut r: Vec<Inline> = Vec::new();
    let mut i: usize = 0;
    while i < v.len()
        invariant
            i <= v.len(),
            inlines_view(r@) == inlines_view(v@.subrange(0, i as int)),
        decreases v.len() - i,
    {
        let c = v[i].clone();
        let ghost old_r = r@;
        r.push(c);
        proof {
            assert(r@.subrange(0, r@.len() - 1) =~= old_r);
            assert(v@.subrange(0, i + 1).subrange(0, i as int) =~= v@.subrange(0, i as int));
        }
        i = i + 1;
    }
    assert(v@.subrange(0, v@.len() as int) =~= v@);
    r
}

impl Clone for Inline {
    fn clone(&self) -> (r: Self)
        ensures
            r@ == self@,
        decreases self, 1nat,
    {
        match self {
            Inline::Text(s) => Inline::Text(s.clone()),
            Inline::Code(s) => Inline::Code(s.clone()),
            Inline::SoftBreak => Inline::SoftBreak,
            Inline::HardBreak => Inline::HardBreak,
            Inline::Strong(c) => Inline::Strong(copy_inlines(c)),
            Inline::Emphasis(c) => Inline::Emphasis(copy_inlines(c)),
            Inline::Strikethrough(c) => Inline::Strikethrough(copy_inlines(c)),
            Inline::Link { url, title, content } => Inline::Link {
                url: url.clone(),
                title: copy_opt_string(title),
                content: copy_inlines(content),
            },
            Inline::Image { url, title, alt, width, height, dark_url, light_url } => Inline::Image {
                url: url.clone(),
                title: copy_opt_string(title),
                alt: alt.clone(),
                width: copy_opt_string(width),
                height: copy_opt_string(height),
                dark_url: copy_opt_string(dark_url),
                light_url: copy_opt_string(light_url),
            },
        }
    }
}

/// Copies a sequence of blocks.
pub fn copy_blocks(v: &Vec<Block>) -> (r: Vec<Block>)
    ensures
        blocks_view(r@) == blocks_view(v@),
    decreases v@, 0nat,
{
    let mut r: Vec<Block> = Vec::new();
    let mut i: usize = 0;
    while i < v.len()
        invariant
            i <= v.len(),
            blocks_view(r@) == blocks_view(v@.subrange(0, i as int)),
        decreases v.len() - i,
    {
        let c = v[i].clone();
        proof {
            lemma_blocks_view_push(r@, c);
            assert(v@.subrange(0, i + 1).subrange(0, i as int) =~= v@.subrange(0, i as int));
        }
        r.push(c);
        i = i + 1;
    }
    assert(v@.subrange(0, v@.len() as int) =~= v@);
    r
}

/// Copies a sequence of list items.
fn copy_items(v: &Vec<ListItem>) -> (r: Vec<ListItem>)
    ensures
        items_view(r@) == items_view(v@),
    decreases v@, 0nat,
{
    let mut r: Vec<ListItem> = Vec::new();
    let mut i: usize = 0;
    while i < v.len()
        invariant
            i <= v.len(),
            items_view(r@) == items_view(v@.subrange(0, i as int)),
        decreases v.len() - i,
    {
        let c = v[i].clone();
        proof {
            lemma_items_view_push(r@, c);
            assert(v@.subrange(0, i + 1).subrange(0, i as int) =~= v@.subrange(0, i as int));
        }
        r.push(c);
        i = i + 1;
    }
    assert(v@.subrange(0, v@.len() as int) =~= v@);
    r
}

/// Copies table cells.
fn copy_cells(v: &Vec<Vec<Inline>>) -> (r: Vec<Vec<Inline>>)
    ensures
        cells_view(r@) == cells_view(v@),
{
    let mut r: Vec<Vec<Inline>> = Vec::new();
    let mut i: usize = 0;
    while i < v.len()
        invariant
            i <= v.len(),
            r@.len() == i,
            forall|j: int| 0 <= j < i ==> inlines_view((#[trigger] r@[j])@) == inlines_view(v@[j]@),
        decreases v.len() - i,
    {
        r.push(copy_inlines(&v[i]));
        i = i + 1;
    }
    assert(cells_view(r@) =~= cells_view(v@));
    r
}

/// Copies a table.
fn copy_table(t: &Table) -> (r: Table)
    ensures
        cells_view(r.headers@) == cells_view(t.headers@),
        rows_view(r.rows@) == rows_view(t.rows@),
{
    let headers = copy_cells(&t.headers);
    let mut rows: Vec<Vec<Vec<Inline>>> = Vec::new();
    let mut i: usize = 0;
    while i < t.rows.len()
        invariant
            i <= t.rows.len(),
            rows@.len() == i,
            forall|j: int| 0 <= j < i ==> cells_view((#[trigger] rows@[j])@) == cells_view(t.rows@[j]@),
        decreases t.rows.len() - i,
    {
        rows.push(copy_cells(&t.rows[i]));
        i = i + 1;
    }
    assert(rows_view(rows@) =~= rows_view(t.rows@));
    Table { headers, rows }
}

impl Clone for ListItem {
    fn clone(&self) -> (r: Self)
        ensures
            blocks_view(r.blocks@) == blocks_view(self.blocks@),
            r.checked == self.checked,
        decreases self, 1nat,
    {
        ListItem { blocks: copy_blocks(&self.blocks), checked: self.checked }
    }
}

impl Clone for List {
    fn clone(&self) -> (r: Self)
        ensures
            r.ordered == self.ordered,
            r.start == self.start,
            items_view(r.items@) == items_view(self.items@),
        decreases self, 1nat,
    {
        List { ordered: self.ordered, start: self.start, items: copy_items(&self.items) }
    }
}

impl Clone for Details {
    fn clone(&self) -> (r: Self)
        ensures
            inlines_view(r.summary@) == inlines_view(self.summary@),
            blocks_view(r.blocks@) == blocks_view(self.blocks@),
            r.open == self.open,
        decreases self, 1nat,
    {
        Details {
            summary: copy_inlines(&self.summary),
            blocks: copy_blocks(&self.blocks),
            open: self.open,
        }
    }
}

impl Clone for Block {
    fn clone(&self) -> (r: Self)
        ensures
            block_view(r) == block_view(*self),
        decreases self, 1nat,
    {
        match self {
            Block::Paragraph(c) => Block::Paragraph(copy_inlines(c)),
            Block::Heading { level, content } => Block::Heading {
                level: *level,
                content: copy_inlines(content),
            },
            Block::List(l) => Block::List(
                List { ordered: l.ordered, start: l.start, items: copy_items(&l.items) },
            ),
            Block::CodeBlock(c) => Block::CodeBlock(
                CodeBlock { lang: copy_opt_string(&c.lang), value: c.value.clone() },
            ),
            Block::BlockQuote(c) => Block::BlockQuote(copy_blocks(c)),
            Block::ThematicBreak => Block::ThematicBreak,
            Block::Table(t) => Block::Table(copy_table(t)),
            Block::Details(d) => Block::Details(
                Details {
                    summary: copy_inlines(&d.summary),
                    blocks: copy_blocks(&d.blocks),
                    open: d.open,
                },
            ),
            Block::Aligned { center, blocks } => Block::Aligned {
                center: *center,
                blocks: copy_blocks(blocks),
            },
        }
    }
}

/// The largest of `init` and the lengths of `rows`.
pub open spec fn widest_row(rows: Seq<Vec<Vec<Inline>>>, init: int) -> int
    decreases rows.len(),
{
    if rows.len() == 0 {
        init
    } else {
        let w = widest_row(rows.drop_last(), init);
        if rows.last()@.len() > w {
            rows.last()@.len() as int
        } else {
            w
        }
    }
}

/// The number of columns a table is laid out with: the widest of its header
/// and rows, and at least one.
pub fn table_column_count(table: &Table) -> (r: usize)
    ensures
        r == if widest_row(table.rows@, table.headers@.len() as int) >= 1 {
            widest_row(table.rows@, table.headers@.len() as int)
        } else {
            1
        },
{
    let mut count: usize = table.headers.len();
    let mut i: usize = 0;
    while i < table.rows.len()
        invariant
            i <= table.rows@.len(),
            count == widest_row(table.rows@.subrange(0, i as int), table.headers@.len() as int),
        decreases table.rows.len() - i,
    {
        proof {
            assert(table.rows@.subrange(0, i + 1).drop_last() =~= table.rows@.subrange(0, i as int));
        }
        let n = table.rows[i].len();
        if n > count {
            count = n;
        }
        i = i + 1;
    }
    assert(table.rows@.subrange(0, table.rows@.len() as int) =~= table.rows@);
    if count >= 1 {
        count
    } else {
        1
    }
}

} // verus!
