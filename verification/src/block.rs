//! The rules of the block segmenter, each reading one block at the head of
//! the input.

use crate::grammar;
use crate::grammar::block::Marker;
use crate::inline::{parse_line, text_and_rest};
use crate::scan::{
    has_run_at, lemma_find_run, lemma_run_end, search_run, skip_class, Class, BACKTICK,
    CLOSE_PAREN, DASH, DOLLAR, DOT, GREATER, NEWLINE, STAR,
};
use crate::text::{cut, edge, lemma_edge_after_run, lemma_edge_in_run, tail};
use crate::tree::{texts, Block, BlockView};
use vstd::prelude::*;
use vstd::string::*;

verus! {

/// A block and the rest of the input, as the grammar speaks of them.
pub open spec fn block_and_rest(r: Option<(Block, &str)>) -> Option<(BlockView, Seq<u8>)> {
    match r {
        Some((block, rest)) => Some((block@, rest.spec_bytes())),
        None => None,
    }
}

/// Finds the text of a line whose marker ends at `from`: where the text
/// begins, behind any blanks, and where the line's newline stands.
pub fn line_text(bytes: &[u8], from: usize) -> (r: Option<(usize, usize)>)
    requires
        from <= bytes@.len(),
    ensures
        match r {
            Some((start, end)) => grammar::block::line_text(bytes@, from as int) == Some(
                (start as int, end as int),
            ),
            None => grammar::block::line_text(bytes@, from as int) is None,
        },
        bytes@.len() <= usize::MAX,
{
    let start = skip_class(bytes, from, Class::Blank);
    match search_run(bytes, start, NEWLINE, 1) {
        Some(end) => Some((start, end)),
        None => None,
    }
}

/// Reads a header: one or more `#`, then the title up to the end of the
/// line. The level is the number of `#`; the newline is left in place.
pub fn header<'a>(input: &'a str) -> (r: Option<(Block<'a>, &'a str)>)
    ensures
        block_and_rest(r) == grammar::block::header(input.spec_bytes()),
{
    let bytes = input.as_bytes();
    let level = skip_class(bytes, 0, Class::Hash);
    if level == 0 {
        return None;
    }
    match line_text(bytes, level) {
        None => None,
        Some((start, end)) => {
            proof {
                lemma_edge_after_run(bytes@, 0, Class::Hash);
                lemma_edge_after_run(bytes@, level as int, Class::Blank);
                grammar::block::lemma_line_text(bytes@, level as int);
            }
            let title = cut(input, start, end);
            let rest = tail(input, end);
            Some((Block::Header { level, title }, rest))
        },
    }
}

/// Reads a horizontal rule: `---`, with any white space before and after it.
pub fn horizontal_rule<'a>(input: &'a str) -> (r: Option<(Block<'a>, &'a str)>)
    ensures
        block_and_rest(r) == grammar::block::horizontal_rule(input.spec_bytes()),
{
    let bytes = input.as_bytes();
    let at = skip_class(bytes, 0, Class::White);
    if !has_run_at(bytes, at, DASH, 3) {
        return None;
    }
    let end = skip_class(bytes, at + 3, Class::White);
    proof {
        lemma_edge_in_run(bytes@, at as int, DASH, 3, at + 3);
        lemma_edge_after_run(bytes@, at + 3, Class::White);
    }
    Some((Block::HorizontalRule, tail(input, end)))
}

/// Finds where the marker `marker` at the head of `bytes` ends.
pub fn marker_end(bytes: &[u8], marker: Marker) -> (r: Option<usize>)
    ensures
        match r {
            Some(end) => grammar::block::marker_end(bytes@, marker) == Some(end as int),
            None => grammar::block::marker_end(bytes@, marker) is None,
        },
{
    match marker {
        Marker::Bullet => {
            if bytes.len() > 0 && (bytes[0] == DASH || bytes[0] == STAR) {
                Some(1)
            } else {
                None
            }
        },
        Marker::Number => {
            let digits = skip_class(bytes, 0, Class::Digit);
            if 0 < digits && digits < bytes.len() && (bytes[digits] == DOT || bytes[digits]
                == CLOSE_PAREN) {
                Some(digits + 1)
            } else {
                None
            }
        },
        Marker::Quote => {
            let at = skip_class(bytes, 0, Class::White);
            if at < bytes.len() && bytes[at] == GREATER {
                Some(at + 1)
            } else {
                None
            }
        },
    }
}

/// Reads one marked line: its text, and what follows the line.
pub fn marked_line<'a>(input: &'a str, marker: Marker) -> (r: Option<(&'a str, &'a str)>)
    ensures
        text_and_rest(r) == grammar::block::marked_line(input.spec_bytes(), marker),
{
    let bytes = input.as_bytes();
    let from = match marker_end(bytes, marker) {
        Some(from) => from,
        None => {
            return None;
        },
    };
    proof {
        lemma_run_end(bytes@, 0, Class::Digit);
        lemma_run_end(bytes@, 0, Class::White);
    }
    let (start, end) = match line_text(bytes, from) {
        Some(found) => found,
        None => {
            return None;
        },
    };
    proof {
        assert(edge(bytes@, from as int));
        lemma_edge_after_run(bytes@, from as int, Class::Blank);
        grammar::block::lemma_line_text(bytes@, from as int);
        lemma_edge_after_run(bytes@, end as int, Class::White);
        lemma_run_end(bytes@, end as int, Class::White);
    }
    let after = match marker {
        Marker::Quote => skip_class(bytes, end, Class::White),
        _ => end + 1,
    };
    Some((cut(input, start, end), tail(input, after)))
}

/// Reads a block of marked lines: one line or more.
pub fn marked<'a>(input: &'a str, marker: Marker) -> (r: Option<(Block<'a>, &'a str)>)
    ensures
        block_and_rest(r) == grammar::block::marked(input.spec_bytes(), marker),
{
    let mut items: Vec<&'a str> = Vec::new();
    let mut rest = input;
    loop
        invariant
            grammar::block::marked_lines(input.spec_bytes(), marker).0 == texts(items@)
                + grammar::block::marked_lines(rest.spec_bytes(), marker).0,
            grammar::block::marked_lines(input.spec_bytes(), marker).1
                == grammar::block::marked_lines(rest.spec_bytes(), marker).1,
        ensures
            grammar::block::marked_lines(input.spec_bytes(), marker) == (
                texts(items@),
                rest.spec_bytes(),
            ),
        decreases rest.spec_bytes().len(),
    {
        let ghost before = texts(items@);
        proof {
            grammar::block::lemma_marked_line(rest.spec_bytes(), marker);
        }
        match marked_line(rest, marker) {
            Some((text, after)) => {
                let ghost more = grammar::block::marked_lines(after.spec_bytes(), marker).0;
                items.push(text);
                rest = after;
                assert(texts(items@) =~= before.push(text.spec_bytes()));
                assert(before.push(text.spec_bytes()) + more =~= before + (seq![
                    text.spec_bytes(),
                ] + more));
            },
            None => {
                assert(before + Seq::<Seq<u8>>::empty() =~= before);
                break ;
            },
        }
    }
    if items.len() == 0 {
        return None;
    }
    let block = match marker {
        Marker::Bullet => Block::UnorderedList { items },
        Marker::Number => Block::OrderedList { items },
        Marker::Quote => Block::Quote { items },
    };
    Some((block, rest))
}

/// Reads an unordered list: one line or more, each `-` or `*` and then the
/// item's text.
pub fn unordered_list<'a>(input: &'a str) -> (r: Option<(Block<'a>, &'a str)>)
    ensures
        block_and_rest(r) == grammar::block::unordered_list(input.spec_bytes()),
{
    marked(input, Marker::Bullet)
}

/// Reads an ordered list: one line or more, each a number, `.` or `)`, and
/// then the item's text. The number is not kept.
pub fn ordered_list<'a>(input: &'a str) -> (r: Option<(Block<'a>, &'a str)>)
    ensures
        block_and_rest(r) == grammar::block::ordered_list(input.spec_bytes()),
{
    marked(input, Marker::Number)
}

/// Reads a quote: one line or more, each `>` and then the quoted text.
pub fn quote<'a>(input: &'a str) -> (r: Option<(Block<'a>, &'a str)>)
    ensures
        block_and_rest(r) == grammar::block::quote(input.spec_bytes()),
{
    marked(input, Marker::Quote)
}

/// Tests whether a fence of three `mark` opens at the head of `bytes`,
/// behind any white space.
pub fn has_open_fence(bytes: &[u8], mark: u8) -> (r: bool)
    ensures
        r == grammar::block::opens_fence(bytes@, mark),
{
    has_run_at(bytes, skip_class(bytes, 0, Class::White), mark, 3)
}

/// Reads fenced source code: three backticks, the language up to the end of
/// that line, and the code up to the next three backticks, wherever they
/// stand.
pub fn source_code<'a>(input: &'a str) -> (r: Option<(Block<'a>, &'a str)>)
    ensures
        block_and_rest(r) == grammar::block::source_code(input.spec_bytes()),
{
    let bytes = input.as_bytes();
    let open = skip_class(bytes, 0, Class::White);
    if !has_run_at(bytes, open, BACKTICK, 3) {
        return None;
    }
    let end_of_line = match search_run(bytes, open + 3, NEWLINE, 1) {
        Some(at) => at,
        None => {
            return None;
        },
    };
    proof {
        lemma_find_run(bytes@, open + 3, NEWLINE, 1);
    }
    let start = skip_class(bytes, end_of_line, Class::White);
    let close = match search_run(bytes, start, BACKTICK, 3) {
        Some(at) => at,
        None => {
            return None;
        },
    };
    proof {
        lemma_find_run(bytes@, start as int, BACKTICK, 3);
        lemma_edge_in_run(bytes@, open as int, BACKTICK, 3, open + 3);
        lemma_edge_in_run(bytes@, end_of_line as int, NEWLINE, 1, end_of_line as int);
        lemma_edge_after_run(bytes@, end_of_line as int, Class::White);
        lemma_edge_in_run(bytes@, close as int, BACKTICK, 3, close as int);
        lemma_edge_in_run(bytes@, close as int, BACKTICK, 3, close + 3);
        lemma_edge_after_run(bytes@, close + 3, Class::White);
    }
    let end = skip_class(bytes, close + 3, Class::White);
    let language = cut(input, open + 3, end_of_line);
    let code = cut(input, start, close);
    Some((Block::SourceCode { language, code }, tail(input, end)))
}

/// Reads an equation: `$$$`, and the body up to the next `$$$`.
pub fn equation<'a>(input: &'a str) -> (r: Option<(Block<'a>, &'a str)>)
    ensures
        block_and_rest(r) == grammar::block::equation(input.spec_bytes()),
{
    let bytes = input.as_bytes();
    let open = skip_class(bytes, 0, Class::White);
    if !has_run_at(bytes, open, DOLLAR, 3) {
        return None;
    }
    let start = skip_class(bytes, open + 3, Class::White);
    let close = match search_run(bytes, start, DOLLAR, 3) {
        Some(at) => at,
        None => {
            return None;
        },
    };
    proof {
        lemma_find_run(bytes@, start as int, DOLLAR, 3);
        lemma_edge_in_run(bytes@, open as int, DOLLAR, 3, open + 3);
        lemma_edge_after_run(bytes@, open + 3, Class::White);
        lemma_edge_in_run(bytes@, close as int, DOLLAR, 3, close as int);
        lemma_edge_in_run(bytes@, close as int, DOLLAR, 3, close + 3);
        lemma_edge_after_run(bytes@, close + 3, Class::White);
    }
    let end = skip_class(bytes, close + 3, Class::White);
    let body = cut(input, start, close);
    Some((Block::Equation { body }, tail(input, end)))
}

/// Reads a text line: the spans of the text up to the next newline, and the
/// newline.
pub fn parse_text<'a>(input: &'a str) -> (r: Option<(Block<'a>, &'a str)>)
    ensures
        block_and_rest(r) == grammar::block::parse_text(input.spec_bytes()),
{
    let bytes = input.as_bytes();
    match search_run(bytes, 0, NEWLINE, 1) {
        None => None,
        Some(end) => {
            proof {
                lemma_find_run(bytes@, 0, NEWLINE, 1);
                lemma_edge_in_run(bytes@, end as int, NEWLINE, 1, end as int);
                lemma_edge_in_run(bytes@, end as int, NEWLINE, 1, end + 1);
            }
            let items = parse_line(cut(input, 0, end));
            Some((Block::Line { items }, tail(input, end + 1)))
        },
    }
}

} // verus!
