//! An inline markup engine: a tokenizer for a small markdown-like dialect
//! (bold, italic, links, line breaks), a parser that turns the tokens into
//! text segments annotated with style spans and break positions, and a link
//! extractor that harvests link targets from the same tokens.
//!
//! Around it: the font each segment is drawn in and the line breaks after
//! it, and a small campaign store that keeps the raw markup of named
//! entities.

pub mod token;
pub mod tokenizer;
pub mod markdown;
pub mod parser;
pub mod links;
pub mod lemmas;
pub mod font;
pub mod layout;
pub mod campaign;

pub use token::{Token, TokenView, Tokens};
pub use tokenizer::tokenize;
pub use markdown::{Break, Markdown, Span, Style, StyleSpan};
pub use parser::parse;
pub use links::{Link, Links, extract_links};
pub use font::FontStyle;
pub use layout::{segment_layout, SegmentLayout};
pub use campaign::{
    Campaign, CampaignView, Entities, Entity, EntityContent, NewEntityError, UpdateEntityError,
};
