//! Markdown blocks from the `comrak` syntax tree.
//!
//! The source is parsed by `comrak::parse_document`; the library reads the
//! resulting tree through accessors stated over a model of it ([`AstV`]) and
//! converts it into the [`Block`]/[`Inline`] tree.

use crate::html::{
    is_centered_div_close, is_centered_div_open, is_details_close_only, is_html_comment_only,
    is_centered_paragraph, parse_html_heading, parse_html_to_inlines, single, spec_centered_div_open,
    spec_centered_paragraph, spec_comment_only, spec_details_close_only, spec_div_close,
    spec_html_heading, spec_html_inlines,
};
use crate::text::{chars_of, find_ws, lemma_skip_ws_from_bounds, lemma_ws_from_bounds, skip_ws, string_of, words_from};
use crate::types::{
    block_view, blocks_view, inline_to_plain_text, inline_view, inlines_view, items_view,
    merge_adjacent_text, merge_text, plain_seq, Block, BlockV, CodeBlock, Inline, InlineV, List,
    ListItem, Table,
};
use comrak::nodes::{AstNode, ListType, NodeValue};
use vstd::prelude::*;

verus! {

#[verifier::external_type_specification]
#[verifier::external_body]
#[verifier::reject_recursive_types(T)]
pub struct ExArenaNode<'a, T: 'a>(comrak::arena_tree::Node<'a, T>);

#[verifier::external_type_specification]
#[verifier::external_body]
pub struct ExAst(comrak::nodes::Ast);

#[verifier::external_type_specification]
#[verifier::external_body]
#[verifier::reject_recursive_types(T)]
pub struct ExRefCell<T: ?Sized>(std::cell::RefCell<T>);

/// The arena the syntax tree's nodes live in (a `comrak::Arena`).
#[verifier::external_body]
pub struct NodeArena<'a> {
    arena: comrak::Arena<'a>,
}

/// The GFM extensions the parser runs with.
pub struct GfmOptions {
    pub strikethrough: bool,
    pub table: bool,
    pub tasklist: bool,
    pub autolink: bool,
    pub tagfilter: bool,
    pub smart: bool,
}

/// The value of a syntax-tree node, as plain values: the node kinds the
/// conversion tells apart, with the fields it reads; `Other` for the rest.
pub enum NodeValV {
    Paragraph,
    Heading(u8),
    List { ordered: bool, start: usize },
    Item,
    TaskItem(Option<char>),
    CodeBlock { info: Seq<char>, literal: Seq<char> },
    HtmlBlock(Seq<char>),
    BlockQuote,
    ThematicBreak,
    Table,
    TableRow(bool),
    Text(Seq<char>),
    Code(Seq<char>),
    LineBreak,
    SoftBreak,
    Strong,
    Emph,
    Strikethrough,
    Link { url: Seq<char>, title: Seq<char> },
    Image { url: Seq<char>, title: Seq<char> },
    HtmlInline(Seq<char>),
    Other,
}

/// The value of a syntax-tree node (see [`NodeValV`]).
pub enum NodeVal {
    Paragraph,
    Heading(u8),
    List { ordered: bool, start: usize },
    Item,
    TaskItem(Option<char>),
    CodeBlock { info: String, literal: String },
    HtmlBlock(String),
    BlockQuote,
    ThematicBreak,
    Table,
    TableRow(bool),
    Text(String),
    Code(String),
    LineBreak,
    SoftBreak,
    Strong,
    Emph,
    Strikethrough,
    Link { url: String, title: String },
    Image { url: String, title: String },
    HtmlInline(String),
    Other,
}

impl View for NodeVal {
    type V = NodeValV;

    open spec fn view(&self) -> NodeValV {
        match self {
            NodeVal::Paragraph => NodeValV::Paragraph,
            NodeVal::Heading(l) => NodeValV::Heading(*l),
            NodeVal::List { ordered, start } => NodeValV::List { ordered: *ordered, start: *start },
            NodeVal::Item => NodeValV::Item,
            NodeVal::TaskItem(s) => NodeValV::TaskItem(*s),
            NodeVal::CodeBlock { info, literal } => NodeValV::CodeBlock {
                info: info@,
                literal: literal@,
            },
            NodeVal::HtmlBlock(s) => NodeValV::HtmlBlock(s@),
            NodeVal::BlockQuote => NodeValV::BlockQuote,
            NodeVal::ThematicBreak => NodeValV::ThematicBreak,
            NodeVal::Table => NodeValV::Table,
            NodeVal::TableRow(h) => NodeValV::TableRow(*h),
            NodeVal::Text(s) => NodeValV::Text(s@),
            NodeVal::Code(s) => NodeValV::Code(s@),
            NodeVal::LineBreak => NodeValV::LineBreak,
            NodeVal::SoftBreak => NodeValV::SoftBreak,
            NodeVal::Strong => NodeValV::Strong,
            NodeVal::Emph => NodeValV::Emph,
            NodeVal::Strikethrough => NodeValV::Strikethrough,
            NodeVal::Link { url, title } => NodeValV::Link { url: url@, title: title@ },
            NodeVal::Image { url, title } => NodeValV::Image { url: url@, title: title@ },
            NodeVal::HtmlInline(s) => NodeValV::HtmlInline(s@),
            NodeVal::Other => NodeValV::Other,
        }
    }
}

/// A syntax tree as plain values: a node's value and its children in order.
pub struct AstV {
    pub value: NodeValV,
    pub children: Seq<AstV>,
}

/// The tree rooted at a node of a parsed document.
pub uninterp spec fn ast_view(n: &AstNode) -> AstV;

/// The tree `comrak::parse_document` builds from a source with the given
/// extensions.
pub uninterp spec fn comrak_doc(source: Seq<char>, opts: GfmOptions) -> AstV;

/// Block-level values read with their fields.
pub open spec fn in_block_group(v: NodeValV) -> bool {
    ||| v is Paragraph
    ||| v is Heading
    ||| v is List
    ||| v is CodeBlock
    ||| v is HtmlBlock
    ||| v is BlockQuote
    ||| v is ThematicBreak
}

/// Table and list-item values.
pub open spec fn in_container_group(v: NodeValV) -> bool {
    ||| v is Table
    ||| v is TableRow
    ||| v is Item
    ||| v is TaskItem
}

/// Text-like inline values.
pub open spec fn in_inline_group(v: NodeValV) -> bool {
    ||| v is Text
    ||| v is Code
    ||| v is LineBreak
    ||| v is SoftBreak
    ||| v is Strong
    ||| v is Emph
    ||| v is Strikethrough
}

/// Links, images and inline HTML.
pub open spec fn in_link_group(v: NodeValV) -> bool {
    ||| v is Link
    ||| v is Image
    ||| v is HtmlInline
}

/// `comrak::Arena::new()`.
#[verifier::external_body]
fn new_arena<'a>() -> NodeArena<'a> {
    NodeArena { arena: comrak::Arena::new() }
}

/// `comrak::parse_document` with the given extensions (all other options at
/// their defaults). The tree is named by [`comrak_doc`].
#[verifier::external_body]
fn parse_document_in<'a>(arena: &'a NodeArena<'a>, source: &str, opts: &GfmOptions) -> (r: &'a AstNode<'a>)
    ensures
        ast_view(r) == comrak_doc(source@, *opts),
{
    let mut o = comrak::Options::default();
    o.extension.strikethrough = opts.strikethrough;
    o.extension.table = opts.table;
    o.extension.tasklist = opts.tasklist;
    o.extension.autolink = opts.autolink;
    o.extension.tagfilter = opts.tagfilter;
    o.parse.smart = opts.smart;
    comrak::parse_document(&arena.arena, source, &o)
}

/// `Node::children()`: the children of a node, in order.
#[verifier::external_body]
fn child_nodes<'a>(n: &'a AstNode<'a>) -> (r: Vec<&'a AstNode<'a>>)
    ensures
        r@.len() == ast_view(n).children.len(),
        forall|k: int| 0 <= k < r@.len() ==> ast_view(#[trigger] r@[k]) == ast_view(n).children[k],
{
    n.children().collect()
}

/// The node's value when it is a block-level value of [`in_block_group`].
#[verifier::external_body]
fn block_value(n: &AstNode) -> (r: Option<NodeVal>)
    ensures
        match r {
            Some(v) => v@ == ast_view(n).value,
            None => !in_block_group(ast_view(n).value),
        },
{
    match &n.data().value {
        NodeValue::Paragraph => Some(NodeVal::Paragraph),
        NodeValue::Heading(h) => Some(NodeVal::Heading(h.level)),
        NodeValue::List(l) => Some(NodeVal::List { ordered: matches!(l.list_type, ListType::Ordered), start: l.start }),
        NodeValue::CodeBlock(c) => Some(NodeVal::CodeBlock { info: c.info.clone(), literal: c.literal.clone() }),
        NodeValue::HtmlBlock(h) => Some(NodeVal::HtmlBlock(h.literal.clone())),
        NodeValue::BlockQuote => Some(NodeVal::BlockQuote),
        NodeValue::ThematicBreak => Some(NodeVal::ThematicBreak),
        _ => None,
    }
}

/// The node's value when it is a table or list-item value.
#[verifier::external_body]
fn container_value(n: &AstNode) -> (r: Option<NodeVal>)
    ensures
        match r {
            Some(v) => v@ == ast_view(n).value,
            None => !in_container_group(ast_view(n).value),
        },
{
    match &n.data().value {
        NodeValue::Table(_) => Some(NodeVal::Table),
        NodeValue::TableRow(h) => Some(NodeVal::TableRow(*h)),
        NodeValue::Item(_) => Some(NodeVal::Item),
        NodeValue::TaskItem(t) => Some(NodeVal::TaskItem(t.symbol)),
        _ => None,
    }
}

/// The node's value when it is a text-like inline value.
#[verifier::external_body]
fn inline_value(n: &AstNode) -> (r: Option<NodeVal>)
    ensures
        match r {
            Some(v) => v@ == ast_view(n).value,
            None => !in_inline_group(ast_view(n).value),
        },
{
    match &n.data().value {
        NodeValue::Text(t) => Some(NodeVal::Text(t.to_string())),
        NodeValue::Code(c) => Some(NodeVal::Code(c.literal.clone())),
        NodeValue::LineBreak => Some(NodeVal::LineBreak),
        NodeValue::SoftBreak => Some(NodeVal::SoftBreak),
        NodeValue::Strong => Some(NodeVal::Strong),
        NodeValue::Emph => Some(NodeVal::Emph),
        NodeValue::Strikethrough => Some(NodeVal::Strikethrough),
        _ => None,
    }
}

/// The node's value when it is a link, an image or inline HTML.
#[verifier::external_body]
fn link_value(n: &AstNode) -> (r: Option<NodeVal>)
    ensures
        match r {
            Some(v) => v@ == ast_view(n).value,
            None => !in_link_group(ast_view(n).value),
        },
{
    match &n.data().value {
        NodeValue::Link(l) => Some(NodeVal::Link { url: l.url.clone(), title: l.title.clone() }),
        NodeValue::Image(l) => Some(NodeVal::Image { url: l.url.clone(), title: l.title.clone() }),
        NodeValue::HtmlInline(h) => Some(NodeVal::HtmlInline(h.clone())),
        _ => None,
    }
}

/// The value of a node.
fn node_value(n: &AstNode) -> (r: NodeVal)
    ensures
        r@ == ast_view(n).value,
{
    if let Some(v) = block_value(n) {
        return v;
    }
    if let Some(v) = container_value(n) {
        return v;
    }
    if let Some(v) = inline_value(n) {
        return v;
    }
    if let Some(v) = link_value(n) {
        return v;
    }
    NodeVal::Other
}

/// The extensions GitHub Flavored Markdown needs: strikethrough, tables,
/// task lists, autolinks, the tag filter and smart punctuation.
pub open spec fn gfm_options() -> GfmOptions {
    GfmOptions {
        strikethrough: true,
        table: true,
        tasklist: true,
        autolink: true,
        tagfilter: true,
        smart: true,
    }
}

/// Configure the parser with GFM extensions.
pub fn comrak_options() -> (r: GfmOptions)
    ensures
        r == gfm_options(),
{
    GfmOptions {
        strikethrough: true,
        table: true,
        tasklist: true,
        autolink: true,
        tagfilter: true,
        smart: true,
    }
}

// -- Inlines ------------------------------------------------------------

/// `None` for an empty title, the title otherwise.
pub open spec fn opt_title(t: Seq<char>) -> Option<Seq<char>> {
    if t.len() == 0 {
        None
    } else {
        Some(t)
    }
}

/// The inlines of a sequence of nodes, concatenated.
pub open spec fn inl_list(ts: Seq<AstV>) -> Seq<InlineV>
    decreases ts, 0int,
{
    if ts.len() == 0 {
        Seq::empty()
    } else {
        inl_list(ts.subrange(0, ts.len() - 1)) + inl_one(ts[ts.len() - 1])
    }
}

/// The inlines of one node: text, code and breaks as themselves; strong,
/// emphasis, strikethrough and links around their children's inlines (an
/// empty link title is none); an image with its children's plain text as
/// alt text; inline HTML through [`spec_html_inlines`]; a task marker
/// nothing; anything else its collected text, when not empty.
pub open spec fn inl_one(t: AstV) -> Seq<InlineV>
    decreases t, 2int,
{
    match t.value {
        NodeValV::Text(s) => seq![InlineV::Text(s)],
        NodeValV::Code(s) => seq![InlineV::Code(s)],
        NodeValV::LineBreak => seq![InlineV::HardBreak],
        NodeValV::SoftBreak => seq![InlineV::SoftBreak],
        NodeValV::Strong => seq![InlineV::Strong(inl_list(t.children))],
        NodeValV::Emph => seq![InlineV::Emphasis(inl_list(t.children))],
        NodeValV::Strikethrough => seq![InlineV::Strikethrough(inl_list(t.children))],
        NodeValV::Link { url, title } => seq![
            InlineV::Link { url, title: opt_title(title), content: inl_list(t.children) },
        ],
        NodeValV::Image { url, title } => seq![
            InlineV::Image {
                url,
                title: opt_title(title),
                alt: plain_seq(inl_list(t.children)),
                width: None,
                height: None,
                dark_url: None,
                light_url: None,
            },
        ],
        NodeValV::HtmlInline(s) => spec_html_inlines(s),
        NodeValV::TaskItem(_) => Seq::empty(),
        _ => {
            let x = collect(t);
            if x.len() == 0 {
                Seq::empty()
            } else {
                seq![InlineV::Text(x)]
            }
        },
    }
}

/// The plain text of a node: text and code verbatim, paragraphs and
/// headings the plain text of their inlines, links their URL, anything else
/// nothing.
pub open spec fn collect(t: AstV) -> Seq<char>
    decreases t, 1int,
{
    match t.value {
        NodeValV::Text(s) => s,
        NodeValV::Code(s) => s,
        NodeValV::Paragraph => plain_seq(inl_list(t.children)),
        NodeValV::Heading(_) => plain_seq(inl_list(t.children)),
        NodeValV::Link { url, .. } => url,
        _ => Seq::empty(),
    }
}

proof fn lemma_inl_list_step(ts: Seq<AstV>, k: int)
    requires
        0 <= k < ts.len(),
    ensures
        inl_list(ts.subrange(0, k + 1)) == inl_list(ts.subrange(0, k)) + inl_one(ts[k]),
{
    assert(ts.subrange(0, k + 1).subrange(0, k) =~= ts.subrange(0, k));
}

/// The inlines of the children of `p` (see [`inl_list`]).
fn inlines_from_nodes<'a>(p: &'a AstNode<'a>) -> (r: Vec<Inline>)
    ensures
        inlines_view(r@) == inl_list(ast_view(p).children),
    decreases ast_view(p), 0int,
{
    let kids = child_nodes(p);
    let ghost cs = ast_view(p).children;
    let mut out: Vec<Inline> = Vec::new();
    let mut k: usize = 0;
    assert(cs.subrange(0, 0) =~= Seq::<AstV>::empty());
    while k < kids.len()
        invariant
            cs == ast_view(p).children,
            kids@.len() == cs.len(),
            forall|j: int| 0 <= j < kids@.len() ==> ast_view(#[trigger] kids@[j]) == cs[j],
            k <= kids.len(),
            inlines_view(out@) == inl_list(cs.subrange(0, k as int)),
        decreases kids.len() - k,
    {
        let c = kids[k];
        proof {
            assert(ast_view(c) == cs[k as int]);
            lemma_inl_list_step(cs, k as int);
        }
        let mut piece = inline_one(c);
        let ghost old_out = out@;
        let ghost pv = piece@;
        out.append(&mut piece);
        proof {
            crate::types::lemma_inlines_view_concat(old_out, pv);
        }
        k = k + 1;
    }
    assert(cs.subrange(0, cs.len() as int) =~= cs);
    out
}

/// The inlines of one node (see [`inl_one`]).
fn inline_one<'a>(n: &'a AstNode<'a>) -> (r: Vec<Inline>)
    ensures
        inlines_view(r@) == inl_one(ast_view(n)),
    decreases ast_view(n), 2int,
{
    match node_value(n) {
        NodeVal::Text(t) => single(Inline::Text(t)),
        NodeVal::Code(c) => single(Inline::Code(c)),
        NodeVal::LineBreak => single(Inline::HardBreak),
        NodeVal::SoftBreak => single(Inline::SoftBreak),
        NodeVal::Strong => single(Inline::Strong(inlines_from_nodes(n))),
        NodeVal::Emph => single(Inline::Emphasis(inlines_from_nodes(n))),
        NodeVal::Strikethrough => single(Inline::Strikethrough(inlines_from_nodes(n))),
        NodeVal::Link { url, title } => {
            let content = inlines_from_nodes(n);
            let title = if title.as_str().is_empty() {
                None
            } else {
                Some(title)
            };
            single(Inline::Link { url, title, content })
        },
        NodeVal::Image { url, title } => {
            let inner = inlines_from_nodes(n);
            let alt = inline_to_plain_text(inner.as_slice());
            let title = if title.as_str().is_empty() {
                None
            } else {
                Some(title)
            };
            single(
                Inline::Image {
                    url,
                    title,
                    alt,
                    width: None,
                    height: None,
                    dark_url: None,
                    light_url: None,
                },
            )
        },
        NodeVal::HtmlInline(h) => parse_html_to_inlines(h.as_str()),
        NodeVal::TaskItem(_) => Vec::new(),
        _ => {
            let text = collect_text(n);
            if text.as_str().is_empty() {
                Vec::new()
            } else {
                single(Inline::Text(text))
            }
        },
    }
}

/// Collect the plain text of a node (see [`collect`]).
fn collect_text<'a>(n: &'a AstNode<'a>) -> (r: String)
    ensures
        r@ == collect(ast_view(n)),
    decreases ast_view(n), 1int,
{
    match node_value(n) {
        NodeVal::Text(t) => t,
        NodeVal::Code(c) => c,
        NodeVal::Paragraph => {
            let inner = inlines_from_nodes(n);
            inline_to_plain_text(inner.as_slice())
        },
        NodeVal::Heading(_) => {
            let inner = inlines_from_nodes(n);
            inline_to_plain_text(inner.as_slice())
        },
        NodeVal::Link { url, .. } => url,
        _ => String::new(),
    }
}

/// The inlines of the children of `n`, adjacent texts merged.
fn inlines_from_children<'a>(n: &'a AstNode<'a>) -> (r: Vec<Inline>)
    ensures
        inlines_view(r@) == merge_text(inl_list(ast_view(n).children)),
{
    merge_adjacent_text(inlines_from_nodes(n))
}

// -- Blocks -------------------------------------------------------------

/// The first whitespace-separated word of a code block's info string.
pub open spec fn first_word(info: Seq<char>) -> Option<Seq<char>> {
    let ws = words_from(info, 0);
    if ws.len() > 0 {
        Some(ws[0])
    } else {
        None
    }
}

/// The inline content of each cell.
pub open spec fn cells_of(cs: Seq<AstV>) -> Seq<Seq<InlineV>>
    decreases cs,
{
    if cs.len() == 0 {
        Seq::empty()
    } else {
        cells_of(cs.subrange(0, cs.len() - 1)).push(inl_list(cs[cs.len() - 1].children))
    }
}

/// The header cells and body rows of a table's rows: the last header row
/// gives the headers; every other row is a body row.
pub open spec fn table_rows(rows: Seq<AstV>) -> (Seq<Seq<InlineV>>, Seq<Seq<Seq<InlineV>>>)
    decreases rows,
{
    if rows.len() == 0 {
        (Seq::empty(), Seq::empty())
    } else {
        let prev = table_rows(rows.subrange(0, rows.len() - 1));
        let row = rows[rows.len() - 1];
        let cells = cells_of(row.children);
        if row.value == NodeValV::TableRow(true) {
            (cells, prev.1)
        } else {
            (prev.0, prev.1.push(cells))
        }
    }
}

/// Wrapped in a centered block when the HTML has a centered `<p>` or heading.
pub open spec fn center_if(lit: Seq<char>, bs: Seq<BlockV>) -> Seq<BlockV> {
    if spec_centered_paragraph(lit) {
        seq![BlockV::Aligned { center: true, blocks: bs }]
    } else {
        bs
    }
}

/// The blocks of an HTML block: nothing for a comment or a lone
/// `</details>`; a heading for an HTML heading; otherwise a paragraph of its
/// inlines, when there are any; centered when the HTML centers its `<p>` or
/// heading.
pub open spec fn html_block(lit: Seq<char>) -> Seq<BlockV> {
    if spec_comment_only(lit) || spec_details_close_only(lit) {
        Seq::empty()
    } else {
        match spec_html_heading(lit) {
            Some((level, text)) => center_if(
                lit,
                seq![
                    BlockV::Heading {
                        level,
                        content: if text.len() == 0 {
                            Seq::empty()
                        } else {
                            seq![InlineV::Text(text)]
                        },
                    },
                ],
            ),
            None => {
                let inl = spec_html_inlines(lit);
                if inl.len() == 0 {
                    Seq::empty()
                } else {
                    center_if(lit, seq![BlockV::Paragraph(inl)])
                }
            },
        }
    }
}

/// The blocks of a sequence of nodes, concatenated.
pub open spec fn blk_list(ts: Seq<AstV>) -> Seq<BlockV>
    decreases ts,
{
    if ts.len() == 0 {
        Seq::empty()
    } else {
        blk_list(ts.subrange(0, ts.len() - 1)) + blk_one(ts[ts.len() - 1])
    }
}

/// The list items among a list's children: plain items without checkbox,
/// task items checked when they carry a symbol.
pub open spec fn items_list(ts: Seq<AstV>) -> Seq<(Seq<BlockV>, Option<bool>)>
    decreases ts,
{
    if ts.len() == 0 {
        Seq::empty()
    } else {
        let rest = items_list(ts.subrange(0, ts.len() - 1));
        let t = ts[ts.len() - 1];
        match t.value {
            NodeValV::Item => rest.push((blk_list(t.children), None)),
            NodeValV::TaskItem(sym) => rest.push((blk_list(t.children), Some(sym is Some))),
            _ => rest,
        }
    }
}

/// The blocks of one node: paragraphs and headings of their merged inlines;
/// lists (ordered ones with their start) of their items; code blocks with
/// the first word of their info string as language; block quotes of their
/// children's blocks; thematic breaks; tables; stray list items flattened;
/// HTML blocks through [`html_block`]; non-empty text as a paragraph;
/// anything else a paragraph of its collected text, when not empty.
pub open spec fn blk_one(t: AstV) -> Seq<BlockV>
    decreases t,
{
    match t.value {
        NodeValV::Paragraph => seq![BlockV::Paragraph(merge_text(inl_list(t.children)))],
        NodeValV::Heading(level) => seq![
            BlockV::Heading { level, content: merge_text(inl_list(t.children)) },
        ],
        NodeValV::List { ordered, start } => seq![
            BlockV::List {
                ordered,
                start: if ordered {
                    Some(start as u64)
                } else {
                    None
                },
                items: items_list(t.children),
            },
        ],
        NodeValV::CodeBlock { info, literal } => seq![
            BlockV::CodeBlock { lang: first_word(info), value: literal },
        ],
        NodeValV::BlockQuote => seq![BlockV::BlockQuote(blk_list(t.children))],
        NodeValV::ThematicBreak => seq![BlockV::ThematicBreak],
        NodeValV::Table => seq![
            BlockV::Table { headers: table_rows(t.children).0, rows: table_rows(t.children).1 },
        ],
        NodeValV::Item => blk_list(t.children),
        NodeValV::HtmlBlock(lit) => html_block(lit),
        NodeValV::Text(s) => if s.len() == 0 {
            Seq::empty()
        } else {
            seq![BlockV::Paragraph(seq![InlineV::Text(s)])]
        },
        _ => {
            let x = collect(t);
            if x.len() == 0 {
                Seq::empty()
            } else {
                seq![BlockV::Paragraph(seq![InlineV::Text(x)])]
            }
        },
    }
}

/// A vector whose only element is `b`.
fn single_block(b: Block) -> (r: Vec<Block>)
    ensures
        blocks_view(r@) == seq![block_view(b)],
{
    let mut r: Vec<Block> = Vec::new();
    r.push(b);
    proof {
        crate::types::lemma_blocks_view_push(Seq::<Block>::empty(), b);
        assert(Seq::<Block>::empty().push(b) =~= r@);
        assert(blocks_view(Seq::<Block>::empty()) =~= Seq::<BlockV>::empty());
    }
    r
}

/// The first word of an info string.
fn first_word_of(info: &String) -> (r: Option<String>)
    ensures
        opt_str(r) == first_word(info@),
{
    let v = chars_of(info.as_str());
    let a = skip_ws(&v, 0);
    proof {
        lemma_skip_ws_from_bounds(v@, 0);
    }
    if a >= v.len() {
        proof {
            if v.len() > 0 {
                assert(words_from(v@, 0) =~= Seq::<Seq<char>>::empty());
            }
        }
        return None;
    }
    let b = find_ws(&v, a);
    proof {
        lemma_ws_from_bounds(v@, a as int);
    }
    Some(string_of(&v, a, b))
}

/// The view of an optional string.
pub open spec fn opt_str(o: Option<String>) -> Option<Seq<char>> {
    match o {
        Some(s) => Some(s@),
        None => None,
    }
}

/// The inline content of each cell of a row.
fn cells_of_row<'a>(row: &'a AstNode<'a>) -> (r: Vec<Vec<Inline>>)
    ensures
        crate::types::cells_view(r@) == cells_of(ast_view(row).children),
{
    let kids = child_nodes(row);
    let ghost cs = ast_view(row).children;
    let mut out: Vec<Vec<Inline>> = Vec::new();
    let mut k: usize = 0;
    while k < kids.len()
        invariant
            cs == ast_view(row).children,
            kids@.len() == cs.len(),
            forall|j: int| 0 <= j < kids@.len() ==> ast_view(#[trigger] kids@[j]) == cs[j],
            k <= kids.len(),
            crate::types::cells_view(out@) == cells_of(cs.subrange(0, k as int)),
        decreases kids.len() - k,
    {
        let c = kids[k];
        assert(ast_view(c) == cs[k as int]);
        let cell = inlines_from_nodes(c);
        let ghost old_out = out@;
        out.push(cell);
        proof {
            assert(cs.subrange(0, k + 1).subrange(0, k as int) =~= cs.subrange(0, k as int));
            assert(crate::types::cells_view(out@) =~= crate::types::cells_view(old_out).push(
                inlines_view(cell@),
            ));
        }
        k = k + 1;
    }
    assert(cs.subrange(0, cs.len() as int) =~= cs);
    out
}

/// Convert a table node into a table.
fn table_from_node<'a>(node: &'a AstNode<'a>) -> (r: Table)
    ensures
        crate::types::cells_view(r.headers@) == table_rows(ast_view(node).children).0,
        crate::types::rows_view(r.rows@) == table_rows(ast_view(node).children).1,
{
    let kids = child_nodes(node);
    let ghost cs = ast_view(node).children;
    let mut headers: Vec<Vec<Inline>> = Vec::new();
    let mut rows: Vec<Vec<Vec<Inline>>> = Vec::new();
    let mut k: usize = 0;
    assert(crate::types::cells_view(headers@) =~= Seq::<Seq<InlineV>>::empty());
    assert(crate::types::rows_view(rows@) =~= Seq::<Seq<Seq<InlineV>>>::empty());
    while k < kids.len()
        invariant
            cs == ast_view(node).children,
            kids@.len() == cs.len(),
            forall|j: int| 0 <= j < kids@.len() ==> ast_view(#[trigger] kids@[j]) == cs[j],
            k <= kids.len(),
            crate::types::cells_view(headers@) == table_rows(cs.subrange(0, k as int)).0,
            crate::types::rows_view(rows@) == table_rows(cs.subrange(0, k as int)).1,
        decreases kids.len() - k,
    {
        let c = kids[k];
        assert(ast_view(c) == cs[k as int]);
        assert(cs.subrange(0, k + 1).subrange(0, k as int) =~= cs.subrange(0, k as int));
        let is_header = match node_value(c) {
            NodeVal::TableRow(h) => h,
            _ => false,
        };
        let cells = cells_of_row(c);
        if is_header {
            headers = cells;
        } else {
            let ghost old_rows = rows@;
            rows.push(cells);
            assert(crate::types::rows_view(rows@) =~= crate::types::rows_view(old_rows).push(
                crate::types::cells_view(cells@),
            ));
        }
        k = k + 1;
    }
    assert(cs.subrange(0, cs.len() as int) =~= cs);
    Table { headers, rows }
}

/// The blocks of an HTML block (see [`html_block`]).
fn html_block_blocks(lit: &String) -> (r: Vec<Block>)
    ensures
        blocks_view(r@) == html_block(lit@),
{
    let h = lit.as_str();
    if is_html_comment_only(h) || is_details_close_only(h) {
        return Vec::new();
    }
    let blocks = match parse_html_heading(h) {
        Some((level, text)) => {
            let content = if text.as_str().is_empty() {
                Vec::new()
            } else {
                single(Inline::Text(text))
            };
            proof {
                if content@.len() == 0 {
                    assert(inlines_view(content@) =~= Seq::<InlineV>::empty());
                }
            }
            single_block(Block::Heading { level, content })
        },
        None => {
            let inlines = parse_html_to_inlines(h);
            if inlines.len() == 0 {
                assert(inlines_view(inlines@) =~= Seq::<InlineV>::empty()) by {
                    assert(inlines@ =~= Seq::<Inline>::empty());
                }
                return Vec::new();
            }
            proof {
                if inlines_view(inlines@).len() == 0 {
                    lemma_inlines_view_len(inlines@);
                }
            }
            single_block(Block::Paragraph(inlines))
        },
    };
    if is_centered_paragraph(h) {
        single_block(Block::Aligned { center: true, blocks })
    } else {
        blocks
    }
}

proof fn lemma_inlines_view_len(s: Seq<Inline>)
    ensures
        inlines_view(s).len() == s.len(),
    decreases s.len(),
{
    if s.len() > 0 {
        lemma_inlines_view_len(s.subrange(0, s.len() - 1));
    }
}

proof fn lemma_blk_list_step(ts: Seq<AstV>, k: int)
    requires
        0 <= k < ts.len(),
    ensures
        blk_list(ts.subrange(0, k + 1)) == blk_list(ts.subrange(0, k)) + blk_one(ts[k]),
{
    assert(ts.subrange(0, k + 1).subrange(0, k) =~= ts.subrange(0, k));
}

/// The blocks of the children of `p`, concatenated.
fn blocks_of_children<'a>(p: &'a AstNode<'a>) -> (r: Vec<Block>)
    ensures
        blocks_view(r@) == blk_list(ast_view(p).children),
    decreases ast_view(p), 0int,
{
    let kids = child_nodes(p);
    let ghost cs = ast_view(p).children;
    let mut out: Vec<Block> = Vec::new();
    let mut k: usize = 0;
    assert(cs.subrange(0, 0) =~= Seq::<AstV>::empty());
    while k < kids.len()
        invariant
            cs == ast_view(p).children,
            kids@.len() == cs.len(),
            forall|j: int| 0 <= j < kids@.len() ==> ast_view(#[trigger] kids@[j]) == cs[j],
            k <= kids.len(),
            blocks_view(out@) == blk_list(cs.subrange(0, k as int)),
        decreases kids.len() - k,
    {
        let c = kids[k];
        proof {
            assert(ast_view(c) == cs[k as int]);
            lemma_blk_list_step(cs, k as int);
        }
        let mut piece = blocks_from_node(c);
        let ghost old_out = out@;
        let ghost pv = piece@;
        out.append(&mut piece);
        proof {
            crate::types::lemma_blocks_view_concat(old_out, pv);
        }
        k = k + 1;
    }
    assert(cs.subrange(0, cs.len() as int) =~= cs);
    out
}

/// The list items among the children of `p` (see [`items_list`]).
fn list_items<'a>(p: &'a AstNode<'a>) -> (r: Vec<ListItem>)
    ensures
        items_view(r@) == items_list(ast_view(p).children),
    decreases ast_view(p), 0int,
{
    let kids = child_nodes(p);
    let ghost cs = ast_view(p).children;
    let mut out: Vec<ListItem> = Vec::new();
    let mut k: usize = 0;
    assert(cs.subrange(0, 0) =~= Seq::<AstV>::empty());
    while k < kids.len()
        invariant
            cs == ast_view(p).children,
            kids@.len() == cs.len(),
            forall|j: int| 0 <= j < kids@.len() ==> ast_view(#[trigger] kids@[j]) == cs[j],
            k <= kids.len(),
            items_view(out@) == items_list(cs.subrange(0, k as int)),
        decreases kids.len() - k,
    {
        let c = kids[k];
        assert(ast_view(c) == cs[k as int]);
        assert(cs.subrange(0, k + 1).subrange(0, k as int) =~= cs.subrange(0, k as int));
        match node_value(c) {
            NodeVal::Item => {
                let blocks = blocks_of_children(c);
                let item = ListItem { blocks, checked: None };
                proof {
                    crate::types::lemma_items_view_push(out@, item);
                }
                out.push(item);
            },
            NodeVal::TaskItem(sym) => {
                let blocks = blocks_of_children(c);
                let item = ListItem { blocks, checked: Some(sym.is_some()) };
                proof {
                    crate::types::lemma_items_view_push(out@, item);
                }
                out.push(item);
            },
            _ => {},
        }
        k = k + 1;
    }
    assert(cs.subrange(0, cs.len() as int) =~= cs);
    out
}

/// Convert a single node into blocks (see [`blk_one`]).
fn blocks_from_node<'a>(node: &'a AstNode<'a>) -> (r: Vec<Block>)
    ensures
        blocks_view(r@) == blk_one(ast_view(node)),
    decreases ast_view(node), 1int,
{
    match node_value(node) {
        NodeVal::Paragraph => single_block(Block::Paragraph(inlines_from_children(node))),
        NodeVal::Heading(level) => {
            let content = inlines_from_children(node);
            single_block(Block::Heading { level, content })
        },
        NodeVal::List { ordered, start } => {
            let start = if ordered {
                Some(start as u64)
            } else {
                None
            };
            let items = list_items(node);
            single_block(Block::List(List { ordered, start, items }))
        },
        NodeVal::CodeBlock { info, literal } => {
            let lang = first_word_of(&info);
            single_block(Block::CodeBlock(CodeBlock { lang, value: literal }))
        },
        NodeVal::BlockQuote => single_block(Block::BlockQuote(blocks_of_children(node))),
        NodeVal::ThematicBreak => single_block(Block::ThematicBreak),
        NodeVal::Table => single_block(Block::Table(table_from_node(node))),
        NodeVal::Item => blocks_of_children(node),
        NodeVal::HtmlBlock(lit) => html_block_blocks(&lit),
        NodeVal::Text(t) => {
            if t.as_str().is_empty() {
                Vec::new()
            } else {
                single_block(Block::Paragraph(single(Inline::Text(t))))
            }
        },
        _ => {
            let text = collect_text(node);
            if text.as_str().is_empty() {
                Vec::new()
            } else {
                single_block(Block::Paragraph(single(Inline::Text(text))))
            }
        },
    }
}

// -- Documents ----------------------------------------------------------

/// Blocks emitted so far, the centered-`<div>` nesting depth, and the blocks
/// collected inside the open centered `<div>`.
pub type CenterState = (Seq<BlockV>, int, Seq<BlockV>);

/// One top-level node of the document: an HTML block opening a centered
/// `<div>` deepens the nesting (saturating at `usize::MAX`); one closing a
/// `</div>` makes it shallower and, back at the top with blocks collected,
/// emits them as one centered block; any other node's blocks are collected
/// inside an open centered `<div>` and emitted otherwise.
pub open spec fn center_step(st: CenterState, t: AstV) -> CenterState {
    let out = st.0;
    let depth = st.1;
    let buf = st.2;
    let open = match t.value {
        NodeValV::HtmlBlock(lit) => spec_centered_div_open(lit),
        _ => false,
    };
    let close = match t.value {
        NodeValV::HtmlBlock(lit) => spec_div_close(lit),
        _ => false,
    };
    if open {
        (
            out,
            if depth < usize::MAX {
                depth + 1
            } else {
                depth
            },
            buf,
        )
    } else if close {
        let d = if depth > 0 {
            depth - 1
        } else {
            0
        };
        if d == 0 && buf.len() > 0 {
            (out.push(BlockV::Aligned { center: true, blocks: buf }), d, Seq::empty())
        } else {
            (out, d, buf)
        }
    } else if depth > 0 {
        (out, depth, buf + blk_one(t))
    } else {
        (out + blk_one(t), depth, buf)
    }
}

/// [`center_step`] over a sequence of top-level nodes.
pub open spec fn center_fold(ts: Seq<AstV>) -> CenterState
    decreases ts.len(),
{
    if ts.len() == 0 {
        (Seq::empty(), 0, Seq::empty())
    } else {
        center_step(center_fold(ts.subrange(0, ts.len() - 1)), ts[ts.len() - 1])
    }
}

/// The blocks of a parsed document: its top-level nodes through
/// [`center_fold`], with blocks still collected in an unclosed centered
/// `<div>` emitted as a final centered block.
pub open spec fn comrak_blocks(root: AstV) -> Seq<BlockV> {
    let st = center_fold(root.children);
    if st.2.len() > 0 {
        st.0.push(BlockV::Aligned { center: true, blocks: st.2 })
    } else {
        st.0
    }
}

/// The blocks of the parsed document `root` (see [`comrak_blocks`]).
pub fn blocks_from_document<'a>(root: &'a AstNode<'a>) -> (r: Vec<Block>)
    ensures
        blocks_view(r@) == comrak_blocks(ast_view(root)),
{
    let kids = child_nodes(root);
    let ghost cs = ast_view(root).children;
    let mut blocks: Vec<Block> = Vec::new();
    let mut depth: usize = 0;
    let mut centered: Vec<Block> = Vec::new();
    let mut k: usize = 0;
    assert(cs.subrange(0, 0) =~= Seq::<AstV>::empty());
    while k < kids.len()
        invariant
            cs == ast_view(root).children,
            kids@.len() == cs.len(),
            forall|j: int| 0 <= j < kids@.len() ==> ast_view(#[trigger] kids@[j]) == cs[j],
            k <= kids.len(),
            center_fold(cs.subrange(0, k as int)) == (
                blocks_view(blocks@),
                depth as int,
                blocks_view(centered@),
            ),
        decreases kids.len() - k,
    {
        let c = kids[k];
        assert(ast_view(c) == cs[k as int]);
        assert(cs.subrange(0, k + 1).subrange(0, k as int) =~= cs.subrange(0, k as int));
        let (is_open, is_close) = match node_value(c) {
            NodeVal::HtmlBlock(lit) => (
                is_centered_div_open(lit.as_str()),
                is_centered_div_close(lit.as_str()),
            ),
            _ => (false, false),
        };
        if is_open {
            depth = depth.saturating_add(1);
        } else if is_close {
            if depth > 0 {
                depth = depth - 1;
            }
            if depth == 0 && centered.len() > 0 {
                let mut taken: Vec<Block> = Vec::new();
                std::mem::swap(&mut taken, &mut centered);
                let ghost tv = taken@;
                proof {
                    if blocks_view(tv).len() == 0 {
                        lemma_blocks_view_len(tv);
                    }
                }
                let ghost old_blocks = blocks@;
                let b = Block::Aligned { center: true, blocks: taken };
                blocks.push(b);
                proof {
                    crate::types::lemma_blocks_view_push(old_blocks, b);
                    assert(blocks_view(centered@) =~= Seq::<BlockV>::empty());
                }
            } else {
                proof {
                    if centered@.len() == 0 {
                        assert(blocks_view(centered@) =~= Seq::<BlockV>::empty());
                    } else {
                        lemma_blocks_view_len(centered@);
                    }
                }
            }
        } else {
            let mut nb = blocks_from_node(c);
            let ghost nbv = nb@;
            if depth > 0 {
                let ghost old_c = centered@;
                centered.append(&mut nb);
                proof {
                    crate::types::lemma_blocks_view_concat(old_c, nbv);
                }
            } else {
                let ghost old_b = blocks@;
                blocks.append(&mut nb);
                proof {
                    crate::types::lemma_blocks_view_concat(old_b, nbv);
                }
            }
        }
        k = k + 1;
    }
    assert(cs.subrange(0, cs.len() as int) =~= cs);
    if centered.len() > 0 {
        let ghost old_blocks = blocks@;
        let ghost cv = centered@;
        proof {
            lemma_blocks_view_len(cv);
        }
        let b = Block::Aligned { center: true, blocks: centered };
        blocks.push(b);
        proof {
            crate::types::lemma_blocks_view_push(old_blocks, b);
        }
    } else {
        assert(blocks_view(centered@) =~= Seq::<BlockV>::empty());
    }
    blocks
}

proof fn lemma_blocks_view_len(s: Seq<Block>)
    ensures
        blocks_view(s).len() == s.len(),
    decreases s.len(),
{
    if s.len() > 0 {
        lemma_blocks_view_len(s.subrange(0, s.len() - 1));
    }
}

/// The blocks of a markdown source parsed with the GFM extensions.
pub open spec fn spec_parse_comrak(source: Seq<char>) -> Seq<BlockV> {
    comrak_blocks(comrak_doc(source, gfm_options()))
}

/// Parse markdown source with the GFM extensions and convert it to blocks.
pub fn parse_comrak(source: &str) -> (r: Vec<Block>)
    ensures
        blocks_view(r@) == spec_parse_comrak(source@),
{
    let arena = new_arena();
    let options = comrak_options();
    let root = parse_document_in(&arena, source, &options);
    let r = blocks_from_document(root);
    r
}

/// A list node becomes one list block that keeps comrak's numbering: an
/// ordered list written starting at `n` starts at `n`, a bullet list has no
/// start; it is ordered exactly when comrak says so.
pub proof fn lemma_list_keeps_start(t: AstV)
    requires
        t.value is List,
    ensures
        blk_one(t).len() == 1,
        blk_one(t)[0] is List,
        blk_one(t)[0]->List_ordered == t.value->List_ordered,
        t.value->List_ordered ==> blk_one(t)[0]->List_start == Some(t.value->List_start as u64),
        !t.value->List_ordered ==> blk_one(t)[0]->List_start is None,
{
}

/// Among a container's children, every ordered list written starting at `n`
/// gives a block list that holds an ordered list starting at `n`.
pub proof fn lemma_lists_keep_start(ts: Seq<AstV>, m: int)
    requires
        0 <= m < ts.len(),
        ts[m].value is List,
        ts[m].value->List_ordered,
    ensures
        exists|k: int|
            0 <= k < blk_list(ts).len() && (#[trigger] blk_list(ts)[k]) is List && blk_list(ts)[k]->List_ordered
                && blk_list(ts)[k]->List_start == Some(ts[m].value->List_start as u64),
    decreases ts.len(),
{
    let p = ts.subrange(0, ts.len() - 1);
    let last = ts[ts.len() - 1];
    assert(blk_list(ts) == blk_list(p) + blk_one(last));
    if m == ts.len() - 1 {
        lemma_list_keeps_start(last);
        assert(blk_list(ts)[blk_list(p).len() as int] == blk_one(last)[0]);
    } else {
        assert(p[m] == ts[m]);
        lemma_lists_keep_start(p, m);
        let k = choose|k: int|
            0 <= k < blk_list(p).len() && (#[trigger] blk_list(p)[k]) is List && blk_list(p)[k]->List_ordered
                && blk_list(p)[k]->List_start == Some(p[m].value->List_start as u64);
        assert(blk_list(ts)[k] == blk_list(p)[k]);
    }
}

} // verus!
