//! Inline markup: plain text with nestable `*bold*` and `_italic_` spans,
//! parsed into a tree and rendered as HTML.
//!
//! * [`span`]: the mathematical model of a parsed tree, with its markup text,
//!   its HTML and its well-formedness.
//! * [`grammar`]: the grammar as functions on a sequence of characters.
//! * [`laws`]: what the grammar reads is well formed and written as the text
//!   that was read; every well-formed tree is read back from its markup.
//! * [`paragraph`]: the executable tree and its rendering as HTML.
//! * [`parser`]: the parser, which answers as the grammar does.
//! * [`document`]: a document as a list of paragraphs.

pub mod span;
pub mod grammar;
pub mod paragraph;
pub mod parser;
pub mod document;
pub mod laws;
