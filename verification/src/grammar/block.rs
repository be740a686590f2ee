//! The grammar of the blocks of a document.

use crate::error::{ErrorKind, ParseError};
use crate::grammar::inline::{lemma_parse_line_well_formed, parse_line};
use crate::scan::{
    find_run, lemma_find_run, lemma_piece_without_run, lemma_run_end, run_at, run_end, Class,
    BACKTICK, CLOSE_PAREN, DASH, DOLLAR, DOT, GREATER, NEWLINE, STAR,
};
use crate::tree::{single_lines, BlockView};
use vstd::prelude::*;

verus! {

/// The text of a line whose marker ends at `from`: blanks are skipped, and
/// the text runs up to the next newline. Gives where the text begins and
/// where the newline stands.
pub open spec fn line_text(s: Seq<u8>, from: int) -> Option<(int, int)> {
    let start = run_end(s, from, Class::Blank);
    match find_run(s, start, NEWLINE, 1) {
        Some(end) => Some((start, end)),
        None => None,
    }
}

/// What `line_text` finds lies inside `s`, and a newline stands at its end.
pub proof fn lemma_line_text(s: Seq<u8>, from: int)
    requires
        0 <= from <= s.len(),
    ensures
        match line_text(s, from) {
            Some((start, end)) => {
                &&& from <= start <= end < s.len()
                &&& start == run_end(s, from, Class::Blank)
                &&& s[end] == NEWLINE
                &&& forall|j: int| start <= j < end ==> s[j] != NEWLINE
            },
            None => true,
        },
{
    lemma_run_end(s, from, Class::Blank);
    let start = run_end(s, from, Class::Blank);
    lemma_find_run(s, start, NEWLINE, 1);
    if let Some(end) = find_run(s, start, NEWLINE, 1) {
        assert forall|j: int| start <= j < end implies s[j] != NEWLINE by {
            assert(!run_at(s, j, NEWLINE, 1));
        }
    }
}

/// A header at the head of `s`: one or more `#`, then the title up to the
/// end of the line. The level is the number of `#`. The newline is left in
/// place.
pub open spec fn header(s: Seq<u8>) -> Option<(BlockView, Seq<u8>)> {
    let level = run_end(s, 0, Class::Hash);
    if level > 0 {
        match line_text(s, level) {
            Some((start, end)) => Some(
                (BlockView::Header { level, title: s.subrange(start, end) }, s.skip(end)),
            ),
            None => None,
        }
    } else {
        None
    }
}

/// A horizontal rule at the head of `s`: `---`, with any white space before
/// and after it.
pub open spec fn horizontal_rule(s: Seq<u8>) -> Option<(BlockView, Seq<u8>)> {
    let at = run_end(s, 0, Class::White);
    if run_at(s, at, DASH, 3) {
        Some((BlockView::HorizontalRule, s.skip(run_end(s, at + 3, Class::White))))
    } else {
        None
    }
}

/// The markers of the blocks that are made of marked lines.
#[derive(Clone, Copy, Debug, PartialEq, Eq)]
pub enum Marker {
    /// `-` or `*`: an item of an unordered list.
    Bullet,
    /// Digits and then `.` or `)`: an item of an ordered list.
    Number,
    /// `>`, with any white space before it: a line of a quote.
    Quote,
}

/// Where the marker `marker` at the head of `s` ends.
pub open spec fn marker_end(s: Seq<u8>, marker: Marker) -> Option<int> {
    match marker {
        Marker::Bullet => if s.len() > 0 && (s[0] == DASH || s[0] == STAR) {
            Some(1)
        } else {
            None
        },
        Marker::Number => {
            let digits = run_end(s, 0, Class::Digit);
            if 0 < digits < s.len() && (s[digits] == DOT || s[digits] == CLOSE_PAREN) {
                Some(digits + 1)
            } else {
                None
            }
        },
        Marker::Quote => {
            let at = run_end(s, 0, Class::White);
            if at < s.len() && s[at] == GREATER {
                Some(at + 1)
            } else {
                None
            }
        },
    }
}

/// Where a marked line whose newline stands at `end` is over: a list item
/// ends behind its newline, a line of a quote behind all white space that
/// follows it.
pub open spec fn line_end(s: Seq<u8>, end: int, marker: Marker) -> int {
    match marker {
        Marker::Quote => run_end(s, end, Class::White),
        _ => end + 1,
    }
}

/// A marked line at the head of `s`: its text, and what follows the line.
pub open spec fn marked_line(s: Seq<u8>, marker: Marker) -> Option<(Seq<u8>, Seq<u8>)> {
    match marker_end(s, marker) {
        Some(from) => match line_text(s, from) {
            Some((start, end)) => Some((s.subrange(start, end), s.skip(line_end(s, end, marker)))),
            None => None,
        },
        None => None,
    }
}

/// A marked line takes at least two bytes, and leaves a tail of `s`.
pub proof fn lemma_marked_line(s: Seq<u8>, marker: Marker)
    ensures
        marked_line(s, marker) matches Some((_, rest)) ==> rest.len() + 2 <= s.len() && rest
            == s.skip(s.len() - rest.len()),
{
    lemma_run_end(s, 0, Class::Digit);
    lemma_run_end(s, 0, Class::White);
    if let Some(from) = marker_end(s, marker) {
        lemma_line_text(s, from);
        if let Some((_, end)) = line_text(s, from) {
            lemma_run_end(s, end, Class::White);
        }
    }
}

/// The texts of the marked lines that follow each other from the head of
/// `s` on, as many as there are, and what follows the last of them.
pub open spec fn marked_lines(s: Seq<u8>, marker: Marker) -> (Seq<Seq<u8>>, Seq<u8>)
    decreases s.len(),
{
    match marked_line(s, marker) {
        Some((text, rest)) => {
            proof {
                lemma_marked_line(s, marker);
            }
            let (more, end) = marked_lines(rest, marker);
            (seq![text] + more, end)
        },
        None => (Seq::empty(), s),
    }
}

/// The block that lines with the marker `marker` make.
pub open spec fn marked_block(marker: Marker, items: Seq<Seq<u8>>) -> BlockView {
    match marker {
        Marker::Bullet => BlockView::UnorderedList { items },
        Marker::Number => BlockView::OrderedList { items },
        Marker::Quote => BlockView::Quote { items },
    }
}

/// A block of marked lines at the head of `s`: one line or more.
pub open spec fn marked(s: Seq<u8>, marker: Marker) -> Option<(BlockView, Seq<u8>)> {
    let (items, rest) = marked_lines(s, marker);
    if items.len() > 0 {
        Some((marked_block(marker, items), rest))
    } else {
        None
    }
}

/// An unordered list at the head of `s`: one line or more, each `-` or `*`
/// and then the item's text.
pub open spec fn unordered_list(s: Seq<u8>) -> Option<(BlockView, Seq<u8>)> {
    marked(s, Marker::Bullet)
}

/// An ordered list at the head of `s`: one line or more, each a number, `.`
/// or `)`, and then the item's text. The number is not kept.
pub open spec fn ordered_list(s: Seq<u8>) -> Option<(BlockView, Seq<u8>)> {
    marked(s, Marker::Number)
}

/// A quote at the head of `s`: one line or more, each `>` and then the
/// quoted text.
pub open spec fn quote(s: Seq<u8>) -> Option<(BlockView, Seq<u8>)> {
    marked(s, Marker::Quote)
}

/// Whether a fence of three `mark` opens at the head of `s`, behind any
/// white space.
pub open spec fn opens_fence(s: Seq<u8>, mark: u8) -> bool {
    run_at(s, run_end(s, 0, Class::White), mark, 3)
}

/// Fenced source code at the head of `s`: three backticks, the language up
/// to the end of that line, and the code up to the next three backticks,
/// wherever they stand. White space around the fences is dropped.
pub open spec fn source_code(s: Seq<u8>) -> Option<(BlockView, Seq<u8>)> {
    let open = run_end(s, 0, Class::White);
    if run_at(s, open, BACKTICK, 3) {
        match find_run(s, open + 3, NEWLINE, 1) {
            Some(end_of_line) => {
                let start = run_end(s, end_of_line, Class::White);
                match find_run(s, start, BACKTICK, 3) {
                    Some(close) => Some(
                        (
                            BlockView::SourceCode {
                                language: s.subrange(open + 3, end_of_line),
                                code: s.subrange(start, close),
                            },
                            s.skip(run_end(s, close + 3, Class::White)),
                        ),
                    ),
                    None => None,
                }
            },
            None => None,
        }
    } else {
        None
    }
}

/// An equation at the head of `s`: `$$$`, and the body up to the next
/// `$$$`. White space around the fences is dropped.
pub open spec fn equation(s: Seq<u8>) -> Option<(BlockView, Seq<u8>)> {
    let open = run_end(s, 0, Class::White);
    if run_at(s, open, DOLLAR, 3) {
        let start = run_end(s, open + 3, Class::White);
        match find_run(s, start, DOLLAR, 3) {
            Some(close) => Some(
                (
                    BlockView::Equation { body: s.subrange(start, close) },
                    s.skip(run_end(s, close + 3, Class::White)),
                ),
            ),
            None => None,
        }
    } else {
        None
    }
}

/// A text line at the head of `s`: the spans of the text up to the next
/// newline. The newline is taken too. A line without text has no span.
pub open spec fn parse_text(s: Seq<u8>) -> Option<(BlockView, Seq<u8>)> {
    match find_run(s, 0, NEWLINE, 1) {
        Some(end) => Some(
            (BlockView::Line { items: parse_line(s.subrange(0, end)) }, s.skip(end + 1)),
        ),
        None => None,
    }
}

/// The rules of the segmenter.
#[derive(Clone, Copy, Debug, PartialEq, Eq, Structural)]
pub enum BlockRule {
    /// `#` and a title.
    Header,
    /// `---`.
    HorizontalRule,
    /// Lines that begin with `-` or `*`.
    UnorderedList,
    /// Lines that begin with a number and `.` or `)`.
    OrderedList,
    /// Code between two fences of three backticks.
    SourceCode,
    /// An equation between two fences of three dollar signs.
    Equation,
    /// Lines that begin with `>`.
    Quote,
    /// Any line, as spans.
    TextLine,
}

/// The rules in the order in which they are tried: the first that matches
/// wins. The text line stands last: it takes any line.
pub const BLOCK_RULES: [BlockRule; 8] = [
    BlockRule::Header,
    BlockRule::HorizontalRule,
    BlockRule::UnorderedList,
    BlockRule::OrderedList,
    BlockRule::SourceCode,
    BlockRule::Equation,
    BlockRule::Quote,
    BlockRule::TextLine,
];

/// What `rule` reads at the head of `s`.
pub open spec fn apply(rule: BlockRule, s: Seq<u8>) -> Option<(BlockView, Seq<u8>)> {
    match rule {
        BlockRule::Header => header(s),
        BlockRule::HorizontalRule => horizontal_rule(s),
        BlockRule::UnorderedList => unordered_list(s),
        BlockRule::OrderedList => ordered_list(s),
        BlockRule::SourceCode => source_code(s),
        BlockRule::Equation => equation(s),
        BlockRule::Quote => quote(s),
        BlockRule::TextLine => parse_text(s),
    }
}

/// The byte that the fences of the block of `rule` are made of, where the
/// block has fences.
pub open spec fn fence_mark(rule: BlockRule) -> Option<u8> {
    match rule {
        BlockRule::SourceCode => Some(BACKTICK),
        BlockRule::Equation => Some(DOLLAR),
        _ => None,
    }
}

/// Whether `rule` finds the opening fence of its block at the head of `s`
/// and no block: the fence is never closed.
pub open spec fn unclosed(rule: BlockRule, s: Seq<u8>) -> bool {
    apply(rule, s) is None && match fence_mark(rule) {
        Some(mark) => opens_fence(s, mark),
        None => false,
    }
}

/// What the first matching rule from the `k`-th on reads at the head of
/// `s`. A fence that is not closed ends the search; so does the end of the
/// rules.
pub open spec fn first_match(s: Seq<u8>, k: int) -> Result<(BlockView, Seq<u8>), ErrorKind>
    decreases BLOCK_RULES@.len() - k,
{
    if 0 <= k < BLOCK_RULES@.len() {
        match apply(BLOCK_RULES@[k], s) {
            Some(found) => Ok(found),
            None => if unclosed(BLOCK_RULES@[k], s) {
                Err(ErrorKind::MalformedFence { rule: BLOCK_RULES@[k] })
            } else {
                first_match(s, k + 1)
            },
        }
    } else {
        Err(ErrorKind::GrammarMismatch)
    }
}

/// The block that the first matching rule reads at the head of `s`.
pub open spec fn next_block(s: Seq<u8>) -> Result<(BlockView, Seq<u8>), ErrorKind> {
    first_match(s, 0)
}

/// Where and why the segmenter stops short of the end of the input.
pub struct Stop {
    /// Why no block can be read there.
    pub kind: ErrorKind,
    /// How many bytes of the input are left.
    pub left: int,
}

/// The blocks of `s`, one after the other until nothing is left; or where
/// reading them stops.
pub open spec fn segment(s: Seq<u8>) -> Result<Seq<BlockView>, Stop>
    decreases s.len(),
{
    if s.len() == 0 {
        Ok(Seq::empty())
    } else {
        match next_block(s) {
            Ok((block, rest)) => {
                proof {
                    lemma_first_match_advances(s, 0);
                }
                match segment(rest) {
                    Ok(more) => Ok(seq![block] + more),
                    Err(stop) => Err(stop),
                }
            },
            Err(kind) => Err(Stop { kind, left: s.len() as int }),
        }
    }
}

/// All the blocks of the document `s`, blank lines too; or the failure,
/// with the position of the block that could not be read.
pub open spec fn parse_block(s: Seq<u8>) -> Result<Seq<BlockView>, ParseError> {
    match segment(s) {
        Ok(blocks) => Ok(blocks),
        Err(stop) => Err(ParseError { kind: stop.kind, position: (s.len() - stop.left) as usize }),
    }
}

/// The blocks of `blocks` that are handed out: all but the text lines
/// without a span.
pub open spec fn shown(blocks: Seq<BlockView>) -> Seq<BlockView> {
    blocks.filter(|block: BlockView| !block.is_empty_line())
}

/// What is handed out of a block and those behind it: the block unless it
/// is a text line without a span, and what is handed out of the others.
pub proof fn lemma_shown_first(block: BlockView, more: Seq<BlockView>)
    ensures
        shown(seq![block] + more) == if block.is_empty_line() {
            shown(more)
        } else {
            seq![block] + shown(more)
        },
{
    let kept = |block: BlockView| !block.is_empty_line();
    Seq::filter_distributes_over_add(seq![block], more, kept);
    reveal_with_fuel(Seq::filter, 2);
    assert(seq![block].drop_last() =~= Seq::<BlockView>::empty());
    if block.is_empty_line() {
        assert(seq![block].filter(kept) =~= Seq::<BlockView>::empty());
        assert(Seq::<BlockView>::empty() + shown(more) =~= shown(more));
    } else {
        assert(seq![block].filter(kept) =~= seq![block]);
    }
}

/// The tree of the document `s`: its blocks in order, without the text
/// lines that have no span; or the failure.
pub open spec fn parse(s: Seq<u8>) -> Result<Seq<BlockView>, ParseError> {
    match parse_block(s) {
        Ok(blocks) => Ok(shown(blocks)),
        Err(error) => Err(error),
    }
}

/// What `marked_lines` leaves is a tail of `s`, and a shorter one where it
/// found a line.
pub proof fn lemma_marked_lines(s: Seq<u8>, marker: Marker)
    ensures
        marked_lines(s, marker).1.len() <= s.len(),
        marked_lines(s, marker).0.len() > 0 ==> marked_lines(s, marker).1.len() + 2 <= s.len(),
        marked_lines(s, marker).1 == s.skip(s.len() - marked_lines(s, marker).1.len()),
    decreases s.len(),
{
    lemma_marked_line(s, marker);
    match marked_line(s, marker) {
        Some((_, rest)) => {
            lemma_marked_lines(rest, marker);
            let end = marked_lines(rest, marker).1;
            assert(end =~= s.skip(s.len() - end.len()));
        },
        None => {
            assert(s =~= s.skip(0));
        },
    }
}

/// Every text that `marked_lines` reads stays within one line.
pub proof fn lemma_marked_lines_single(s: Seq<u8>, marker: Marker)
    ensures
        single_lines(marked_lines(s, marker).0),
    decreases s.len(),
{
    lemma_marked_line(s, marker);
    if let Some((text, rest)) = marked_line(s, marker) {
        lemma_marked_lines_single(rest, marker);
        lemma_run_end(s, 0, Class::Digit);
        lemma_run_end(s, 0, Class::White);
        let from = marker_end(s, marker)->Some_0;
        lemma_line_text(s, from);
        let more = marked_lines(rest, marker).0;
        let all = seq![text] + more;
        assert forall|k: int| 0 <= k < all.len() implies !(#[trigger] all[k]).contains(
            NEWLINE,
        ) by {
            if k > 0 {
                assert(all[k] == more[k - 1]);
            }
        }
    }
}

/// Every block that a rule reads is well formed.
pub proof fn lemma_apply_well_formed(rule: BlockRule, s: Seq<u8>)
    ensures
        apply(rule, s) matches Some((block, _)) ==> block.well_formed(),
{
    lemma_run_end(s, 0, Class::White);
    let open = run_end(s, 0, Class::White);
    match rule {
        BlockRule::Header => {
            lemma_run_end(s, 0, Class::Hash);
            lemma_line_text(s, run_end(s, 0, Class::Hash));
        },
        BlockRule::HorizontalRule => {},
        BlockRule::UnorderedList => {
            lemma_marked_lines_single(s, Marker::Bullet);
        },
        BlockRule::OrderedList => {
            lemma_marked_lines_single(s, Marker::Number);
        },
        BlockRule::SourceCode => {
            if run_at(s, open, BACKTICK, 3) {
                lemma_find_run(s, open + 3, NEWLINE, 1);
                if let Some(end_of_line) = find_run(s, open + 3, NEWLINE, 1) {
                    lemma_piece_without_run(s, open + 3, end_of_line, NEWLINE, 1);
                    let language = s.subrange(open + 3, end_of_line);
                    if language.contains(NEWLINE) {
                        let i = choose|i: int| 0 <= i < language.len() && language[i] == NEWLINE;
                        assert(run_at(language, i, NEWLINE, 1));
                    }
                    lemma_run_end(s, end_of_line, Class::White);
                    let start = run_end(s, end_of_line, Class::White);
                    lemma_find_run(s, start, BACKTICK, 3);
                    if let Some(close) = find_run(s, start, BACKTICK, 3) {
                        lemma_piece_without_run(s, start, close, BACKTICK, 3);
                    }
                }
            }
        },
        BlockRule::Equation => {
            if run_at(s, open, DOLLAR, 3) {
                lemma_run_end(s, open + 3, Class::White);
                let start = run_end(s, open + 3, Class::White);
                lemma_find_run(s, start, DOLLAR, 3);
                if let Some(close) = find_run(s, start, DOLLAR, 3) {
                    lemma_piece_without_run(s, start, close, DOLLAR, 3);
                }
            }
        },
        BlockRule::Quote => {
            lemma_marked_lines_single(s, Marker::Quote);
        },
        BlockRule::TextLine => {
            if let Some(end) = find_run(s, 0, NEWLINE, 1) {
                lemma_parse_line_well_formed(s.subrange(0, end));
            }
        },
    }
}

/// Every block that the first matching rule reads is well formed.
pub proof fn lemma_first_match_well_formed(s: Seq<u8>, k: int)
    ensures
        first_match(s, k) matches Ok((block, _)) ==> block.well_formed(),
    decreases BLOCK_RULES@.len() - k,
{
    if 0 <= k < BLOCK_RULES@.len() {
        lemma_apply_well_formed(BLOCK_RULES@[k], s);
        lemma_first_match_well_formed(s, k + 1);
    }
}

/// Where the segmenter stops, input is left, no more than there was, and
/// no block can be read at its head.
pub proof fn lemma_segment_stops_inside(s: Seq<u8>)
    ensures
        segment(s) matches Err(stop) ==> 0 < stop.left <= s.len() && next_block(
            s.skip(s.len() - stop.left),
        ) == Err::<(BlockView, Seq<u8>), ErrorKind>(stop.kind),
    decreases s.len(),
{
    if s.len() > 0 {
        match next_block(s) {
            Ok((_, rest)) => {
                lemma_first_match_advances(s, 0);
                lemma_segment_stops_inside(rest);
                if let Err(stop) = segment(rest) {
                    assert(rest.skip(rest.len() - stop.left) =~= s.skip(s.len() - stop.left));
                }
            },
            Err(_) => {
                assert(s.skip(0) =~= s);
            },
        }
    }
}

/// Every block of a document is well formed.
pub proof fn lemma_segment_well_formed(s: Seq<u8>)
    ensures
        segment(s) matches Ok(blocks) ==> forall|i: int|
            0 <= i < blocks.len() ==> (#[trigger] blocks[i]).well_formed(),
    decreases s.len(),
{
    if s.len() > 0 {
        if let Ok((block, rest)) = next_block(s) {
            lemma_first_match_well_formed(s, 0);
            lemma_first_match_advances(s, 0);
            lemma_segment_well_formed(rest);
        }
    }
}

/// A rule that matches reads at least one byte, and leaves a tail of `s`.
pub proof fn lemma_apply_advances(rule: BlockRule, s: Seq<u8>)
    ensures
        apply(rule, s) matches Some((_, rest)) ==> rest.len() < s.len() && rest == s.skip(
            s.len() - rest.len(),
        ),
{
    lemma_run_end(s, 0, Class::White);
    let open = run_end(s, 0, Class::White);
    match rule {
        BlockRule::Header => {
            lemma_run_end(s, 0, Class::Hash);
            lemma_line_text(s, run_end(s, 0, Class::Hash));
        },
        BlockRule::HorizontalRule => {
            if run_at(s, open, DASH, 3) {
                lemma_run_end(s, open + 3, Class::White);
            }
        },
        BlockRule::UnorderedList => {
            lemma_marked_lines(s, Marker::Bullet);
        },
        BlockRule::OrderedList => {
            lemma_marked_lines(s, Marker::Number);
        },
        BlockRule::SourceCode => {
            if run_at(s, open, BACKTICK, 3) {
                lemma_find_run(s, open + 3, NEWLINE, 1);
                if let Some(end_of_line) = find_run(s, open + 3, NEWLINE, 1) {
                    lemma_run_end(s, end_of_line, Class::White);
                    let start = run_end(s, end_of_line, Class::White);
                    lemma_find_run(s, start, BACKTICK, 3);
                    if let Some(close) = find_run(s, start, BACKTICK, 3) {
                        lemma_run_end(s, close + 3, Class::White);
                    }
                }
            }
        },
        BlockRule::Equation => {
            if run_at(s, open, DOLLAR, 3) {
                lemma_run_end(s, open + 3, Class::White);
                let start = run_end(s, open + 3, Class::White);
                lemma_find_run(s, start, DOLLAR, 3);
                if let Some(close) = find_run(s, start, DOLLAR, 3) {
                    lemma_run_end(s, close + 3, Class::White);
                }
            }
        },
        BlockRule::Quote => {
            lemma_marked_lines(s, Marker::Quote);
        },
        BlockRule::TextLine => {
            lemma_find_run(s, 0, NEWLINE, 1);
        },
    }
}

/// The first matching rule reads at least one byte, and leaves a tail of `s`.
pub proof fn lemma_first_match_advances(s: Seq<u8>, k: int)
    ensures
        first_match(s, k) matches Ok((_, rest)) ==> rest.len() < s.len() && rest == s.skip(
            s.len() - rest.len(),
        ),
    decreases BLOCK_RULES@.len() - k,
{
    if 0 <= k < BLOCK_RULES@.len() {
        lemma_apply_advances(BLOCK_RULES@[k], s);
        lemma_first_match_advances(s, k + 1);
    }
}

} // verus!
