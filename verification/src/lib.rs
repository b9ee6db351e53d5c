//! GitHub Flavored Markdown for GPUI-style renderers, with its logic verified.
//!
//! - [`types`]: the block/inline tree and its mathematical views.
//! - [`parse`], [`markdown`], [`details`], [`html`]: markdown source to the
//!   tree (comrak for markdown, tl for inline HTML, `<details>` sections
//!   split out beforehand).
//! - [`cache`]: an LRU cache of parsed documents.
//! - [`github`]: blob line references and `#123` issue links.
//! - [`estimate`]: line counts for height estimation.
//! - [`inline_runs`], [`list_marker`], [`code_text`], [`images`]: what the
//!   renderer lays out: styled runs and segments, list markers, code text,
//!   image choices.
//! - [`selection`], [`text_input`]: byte-offset arithmetic for selections
//!   and a text field's cursor.
//! - [`text`]: shared character helpers.

pub mod types;
pub mod text;
pub mod github;
pub mod details;
pub mod html;
pub mod markdown;
pub mod parse;
pub mod cache;
pub mod estimate;
pub mod code_text;
pub mod images;
pub mod inline_runs;
pub mod list_marker;
pub mod selection;
pub mod text_input;

pub use cache::MarkdownCache;
pub use github::GithubIssueReferenceContext;
pub use parse::{parse_gfm, parse_markdown};
pub use selection::{DetailsState, SelectionState};
pub use types::ParsedMarkdown;
