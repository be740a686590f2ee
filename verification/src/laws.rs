//! What holds of the grammar as a whole.

use crate::error::{ErrorKind, ParseError};
use crate::grammar::block::{
    apply, first_match, lemma_marked_line, lemma_segment_stops_inside,
    lemma_segment_well_formed, marked_line, marked_lines, next_block, parse, parse_block,
    parse_text, shown, source_code, Marker,
};
use crate::markdown::tree_view;
use crate::scan::{
    find_run, lemma_find_run, lemma_piece_without_run, lemma_run_end, run_at, run_end, Class,
    BACKTICK, NEWLINE,
};
use crate::tree::{Block, BlockView};
use vstd::prelude::*;
use vstd::string::*;
use vstd::utf8::*;

verus! {

/// No text line without a span stands in a tree: blank lines leave nothing
/// behind, whatever the input.
pub proof fn law_no_empty_line(s: Seq<u8>)
    ensures
        parse(s) matches Ok(blocks) ==> forall|i: int|
            0 <= i < blocks.len() ==> !(#[trigger] blocks[i]).is_empty_line(),
{
    if let Ok(all) = parse_block(s) {
        let kept = |block: BlockView| !block.is_empty_line();
        assert forall|i: int| 0 <= i < shown(all).len() implies !(#[trigger] shown(
            all,
        )[i]).is_empty_line() by {
            all.lemma_filter_pred(kept, i);
        }
    }
}

/// Every block of a tree is well formed: no list and no quote is without
/// an item, every header has a level of one or more, and no fenced text
/// holds its closing fence.
pub proof fn law_blocks_are_well_formed(s: Seq<u8>)
    ensures
        parse_block(s) matches Ok(blocks) ==> forall|i: int|
            0 <= i < blocks.len() ==> (#[trigger] blocks[i]).well_formed(),
        parse(s) matches Ok(blocks) ==> forall|i: int|
            0 <= i < blocks.len() ==> (#[trigger] blocks[i]).well_formed(),
{
    lemma_segment_well_formed(s);
    if let Ok(all) = parse_block(s) {
        let kept = |block: BlockView| !block.is_empty_line();
        assert forall|i: int| 0 <= i < shown(all).len() implies (#[trigger] shown(
            all,
        )[i]).well_formed() by {
            assert(shown(all).contains(shown(all)[i]));
            all.lemma_filter_contains_rev(kept, shown(all)[i]);
        }
    }
}

/// Parsing is a function of the input alone: two results that `parse` may
/// give for the same input stand for the same tree, or for the same
/// failure.
pub proof fn law_parse_is_deterministic(
    input: &str,
    first: Result<Vec<Block>, ParseError>,
    second: Result<Vec<Block>, ParseError>,
)
    requires
        tree_view(first) == parse(input.spec_bytes()),
        tree_view(second) == parse(input.spec_bytes()),
    ensures
        tree_view(first) == tree_view(second),
{
}

/// Two texts with the same bytes are the same text, character for
/// character: a view stands for one text only.
pub proof fn law_bytes_fix_text(first: Seq<char>, second: Seq<char>)
    requires
        encode_utf8(first) == encode_utf8(second),
    ensures
        first == second,
{
    encode_utf8_decode_utf8(first);
    encode_utf8_decode_utf8(second);
}

/// Fences do not nest: the code of a fenced block ends where three
/// backticks first stand behind its beginning. So no three backticks stand
/// in the code, and whatever follows the closing fence is left for the
/// blocks that come next.
pub proof fn law_code_ends_at_first_fence(s: Seq<u8>)
    ensures
        source_code(s) matches Some((BlockView::SourceCode { language, code }, rest)) ==> {
            let open = run_end(s, 0, Class::White);
            let start = run_end(s, open + 3 + language.len() as int, Class::White);
            let close = start + code.len() as int;
            &&& forall|j: int| !run_at(code, j, BACKTICK, 3)
            &&& code == s.subrange(start, close)
            &&& run_at(s, close, BACKTICK, 3)
            &&& rest == s.skip(run_end(s, close + 3, Class::White))
        },
{
    let open = run_end(s, 0, Class::White);
    lemma_run_end(s, 0, Class::White);
    if run_at(s, open, BACKTICK, 3) {
        lemma_find_run(s, open + 3, NEWLINE, 1);
        if let Some(end_of_line) = find_run(s, open + 3, NEWLINE, 1) {
            lemma_run_end(s, end_of_line, Class::White);
            let start = run_end(s, end_of_line, Class::White);
            lemma_find_run(s, start, BACKTICK, 3);
            if let Some(close) = find_run(s, start, BACKTICK, 3) {
                lemma_piece_without_run(s, start, close, BACKTICK, 3);
            }
        }
    }
}

/// A block of marked lines takes every line of its marker that follows:
/// it ends where the next line has no such marker, or where the input ends.
/// So lines with different markers never stand in one block.
pub proof fn law_marked_lines_end_at_other_line(s: Seq<u8>, marker: Marker)
    ensures
        marked_line(marked_lines(s, marker).1, marker) is None,
    decreases s.len(),
{
    lemma_marked_line(s, marker);
    if let Some((_, rest)) = marked_line(s, marker) {
        law_marked_lines_end_at_other_line(rest, marker);
    }
}

/// The text line takes any line: where a newline stands in the input, a
/// block can be read or a fence is left open, and only a last line without
/// a newline matches no rule.
pub proof fn law_mismatch_only_without_newline(s: Seq<u8>)
    ensures
        s.contains(NEWLINE) ==> parse_text(s) is Some,
        next_block(s) == Err::<(BlockView, Seq<u8>), ErrorKind>(ErrorKind::GrammarMismatch)
            ==> !s.contains(NEWLINE),
{
    reveal_with_fuel(first_match, 9);
    lemma_find_run(s, 0, NEWLINE, 1);
    if s.contains(NEWLINE) {
        let i = choose|i: int| 0 <= i < s.len() && s[i] == NEWLINE;
        assert(run_at(s, i, NEWLINE, 1));
    }
}

/// A failure names a place inside the input: the blocks before it were
/// read, and no block can be read at it, for the reason that the failure
/// gives.
pub proof fn law_failure_is_where_no_block_is_read(s: Seq<u8>)
    requires
        s.len() <= usize::MAX,
    ensures
        parse(s) matches Err(error) ==> error.position < s.len() && next_block(
            s.skip(error.position as int),
        ) == Err::<(BlockView, Seq<u8>), ErrorKind>(error.kind),
{
    lemma_segment_stops_inside(s);
}

/// Where no block can be read, every rule that the failure names as tried
/// was tried in turn and matched nothing.
pub proof fn law_failure_after_every_rule(s: Seq<u8>)
    ensures
        next_block(s) matches Err(kind) ==> forall|i: int|
            0 <= i < kind.attempted().len() ==> apply(#[trigger] kind.attempted()[i], s) is None,
{
    reveal_with_fuel(first_match, 9);
}

} // verus!
