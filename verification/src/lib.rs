//! A two-level markdown grammar: a block segmenter that splits a document
//! into typed blocks, and an inline tokenizer that splits a line of text
//! into styled spans.
//!
//! The grammar is defined on the UTF-8 encoding of the text. Every delimiter
//! is an ASCII character, so every piece of text the grammar hands out lies
//! between character boundaries.
//!
//! [`parse`] turns a document into its tree, and [`parse_line`] a line into
//! its spans. What they return is stated by the functions of [`grammar`],
//! which say on byte sequences what each rule reads; [`block`] and
//! [`inline`] hold the rules themselves, one function each. [`laws`],
//! [`pieces`] and [`roundtrip`] prove what holds of the grammar as a whole,
//! and [`samples`] what it reads in a few short texts.

pub mod block;
pub mod error;
pub mod grammar;
pub mod inline;
pub mod laws;
pub mod markdown;
pub mod pieces;
pub mod roundtrip;
pub mod samples;
pub mod scan;
pub mod text;
pub mod tree;

pub use crate::error::{ErrorKind, ParseError};
pub use crate::grammar::block::{BlockRule, BLOCK_RULES};
pub use crate::grammar::inline::{InlineRule, INLINE_RULES};
pub use crate::inline::parse_line;
pub use crate::markdown::{parse, parse_block};
pub use crate::tree::{Block, Inline};
