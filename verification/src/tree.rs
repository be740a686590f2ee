//! The document tree: blocks, the spans of a text line, and what each stands
//! for in contracts.

use crate::grammar::inline::mark_at;
use crate::scan::{run_at, BACKTICK, CLOSE_BRACKET, CLOSE_PAREN, DOLLAR, NEWLINE, STAR};
use vstd::prelude::*;
use vstd::string::*;
use vstd::utf8::*;

verus! {

/// A styled or linked piece of a text line. Every span owns its text.
#[derive(Debug, PartialEq, Eq)]
pub enum Inline {
    /// Text without a style.
    Plain { text: String },
    /// Text between two stars.
    Italic { text: String },
    /// Text between two double stars.
    Bold { text: String },
    /// Inline code: text between two backticks.
    Pre { text: String },
    /// Text between two dollar signs.
    Math { text: String },
    /// `[label](target)`.
    Link { label: String, target: String },
    /// `![label](target)`.
    Image { label: String, target: String },
}

/// What an `Inline` stands for: the same span, each text as its UTF-8 bytes.
pub enum InlineView {
    Plain { text: Seq<u8> },
    Italic { text: Seq<u8> },
    Bold { text: Seq<u8> },
    Pre { text: Seq<u8> },
    Math { text: Seq<u8> },
    Link { label: Seq<u8>, target: Seq<u8> },
    Image { label: Seq<u8>, target: Seq<u8> },
}

impl InlineView {
    /// What holds of every span that the tokenizer reads: plain text is not
    /// empty and holds no character that ends plain text, unless it is one
    /// such character alone; a text between two marks holds no closing
    /// mark.
    pub open spec fn well_formed(self) -> bool {
        match self {
            InlineView::Plain { text } => text.len() > 0 && (text.len() == 1 || forall|j: int|
                !mark_at(text, j)),
            InlineView::Italic { text } => !text.contains(STAR),
            InlineView::Bold { text } => forall|j: int| !run_at(text, j, STAR, 2),
            InlineView::Pre { text } => !text.contains(BACKTICK),
            InlineView::Math { text } => !text.contains(DOLLAR),
            InlineView::Link { label, target } => !label.contains(CLOSE_BRACKET)
                && !target.contains(CLOSE_PAREN),
            InlineView::Image { label, target } => !label.contains(CLOSE_BRACKET)
                && !target.contains(CLOSE_PAREN),
        }
    }
}

impl View for Inline {
    type V = InlineView;

    open spec fn view(&self) -> InlineView {
        match self {
            Inline::Plain { text } => InlineView::Plain { text: encode_utf8(text@) },
            Inline::Italic { text } => InlineView::Italic { text: encode_utf8(text@) },
            Inline::Bold { text } => InlineView::Bold { text: encode_utf8(text@) },
            Inline::Pre { text } => InlineView::Pre { text: encode_utf8(text@) },
            Inline::Math { text } => InlineView::Math { text: encode_utf8(text@) },
            Inline::Link { label, target } => InlineView::Link {
                label: encode_utf8(label@),
                target: encode_utf8(target@),
            },
            Inline::Image { label, target } => InlineView::Image {
                label: encode_utf8(label@),
                target: encode_utf8(target@),
            },
        }
    }
}

/// The views of a sequence of spans, in order.
pub open spec fn inline_views(spans: Seq<Inline>) -> Seq<InlineView> {
    Seq::new(spans.len(), |k: int| spans[k]@)
}

/// The UTF-8 bytes of each of a sequence of texts, in order.
pub open spec fn texts(items: Seq<&str>) -> Seq<Seq<u8>> {
    Seq::new(items.len(), |k: int| items[k].spec_bytes())
}

/// A top-level unit of a document. Its texts are pieces of the input.
#[derive(Debug, PartialEq, Eq)]
#[allow(inconsistent_fields)]
pub enum Block<'a> {
    /// `---`.
    HorizontalRule,
    /// A title behind `level` copies of `#`.
    Header { level: usize, title: &'a str },
    /// The text between two fences of three dollar signs.
    Equation { body: &'a str },
    /// The text between two fences of three backticks. The language is
    /// what stands behind the opening fence on its line.
    SourceCode { language: &'a str, code: &'a str },
    /// The texts of lines that begin with `-` or `*`.
    UnorderedList { items: Vec<&'a str> },
    /// The texts of lines that begin with a number and `.` or `)`.
    OrderedList { items: Vec<&'a str> },
    /// The texts of lines that begin with `>`.
    Quote { items: Vec<&'a str> },
    /// The spans of any other line. A blank line has none.
    Line { items: Vec<Inline> },
}

/// What a `Block` stands for: the same block, each text as its UTF-8 bytes.
#[allow(inconsistent_fields)]
pub enum BlockView {
    HorizontalRule,
    Header { level: int, title: Seq<u8> },
    Equation { body: Seq<u8> },
    SourceCode { language: Seq<u8>, code: Seq<u8> },
    UnorderedList { items: Seq<Seq<u8>> },
    OrderedList { items: Seq<Seq<u8>> },
    Quote { items: Seq<Seq<u8>> },
    Line { items: Seq<InlineView> },
}

impl<'a> View for Block<'a> {
    type V = BlockView;

    open spec fn view(&self) -> BlockView {
        match self {
            Block::HorizontalRule => BlockView::HorizontalRule,
            Block::Header { level, title } => BlockView::Header {
                level: *level as int,
                title: title.spec_bytes(),
            },
            Block::Equation { body } => BlockView::Equation { body: body.spec_bytes() },
            Block::SourceCode { language, code } => BlockView::SourceCode {
                language: language.spec_bytes(),
                code: code.spec_bytes(),
            },
            Block::UnorderedList { items } => BlockView::UnorderedList { items: texts(items@) },
            Block::OrderedList { items } => BlockView::OrderedList { items: texts(items@) },
            Block::Quote { items } => BlockView::Quote { items: texts(items@) },
            Block::Line { items } => BlockView::Line { items: inline_views(items@) },
        }
    }
}

/// The views of a sequence of blocks, in order.
pub open spec fn block_views(blocks: Seq<Block>) -> Seq<BlockView> {
    Seq::new(blocks.len(), |k: int| blocks[k]@)
}

/// Whether every text of `items` stays within one line.
pub open spec fn single_lines(items: Seq<Seq<u8>>) -> bool {
    forall|k: int| 0 <= k < items.len() ==> !(#[trigger] items[k]).contains(NEWLINE)
}

impl BlockView {
    /// What holds of every block that the segmenter reads: a header has a
    /// level of one or more and a title within its line; a list or a quote
    /// has one item or more, each within its line; no closing fence stands
    /// in a fenced text; the spans of a text line are well formed.
    pub open spec fn well_formed(self) -> bool {
        match self {
            BlockView::HorizontalRule => true,
            BlockView::Header { level, title } => level >= 1 && !title.contains(NEWLINE),
            BlockView::Equation { body } => forall|j: int| !run_at(body, j, DOLLAR, 3),
            BlockView::SourceCode { language, code } => !language.contains(NEWLINE) && forall|
                j: int,
            | !run_at(code, j, BACKTICK, 3),
            BlockView::UnorderedList { items } => items.len() >= 1 && single_lines(items),
            BlockView::OrderedList { items } => items.len() >= 1 && single_lines(items),
            BlockView::Quote { items } => items.len() >= 1 && single_lines(items),
            BlockView::Line { items } => forall|k: int|
                0 <= k < items.len() ==> (#[trigger] items[k]).well_formed(),
        }
    }

    /// A text line without a span: what a blank line leaves behind.
    pub open spec fn is_empty_line(self) -> bool {
        self matches BlockView::Line { items } && items.len() == 0
    }
}

impl<'a> Block<'a> {
    /// Whether this block is a text line without a span.
    pub fn is_empty_line(&self) -> (r: bool)
        ensures
            r == self@.is_empty_line(),
    {
        match self {
            Block::Line { items } => items.len() == 0,
            _ => false,
        }
    }
}

} // verus!
