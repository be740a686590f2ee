//! The texts of a tree are pieces of the document: each stands in the
//! input as it stands in the tree, in the order of the tree, and no two
//! of them share a byte.

use crate::grammar::block::{
    apply, first_match, lemma_apply_advances, lemma_first_match_advances, lemma_line_text,
    lemma_marked_line, lemma_marked_lines, lemma_shown_first, line_text, marked_line,
    marked_lines, marker_end, next_block, parse, segment, shown, BlockRule, Marker,
    BLOCK_RULES,
};
use crate::scan::{
    find_run, lemma_find_run, lemma_run_end, run_at, run_end, Class, BACKTICK, DOLLAR, NEWLINE,
};
use crate::tree::BlockView;
use vstd::prelude::*;

verus! {

/// The texts of a block that are cut out of the input, in their order. The
/// spans of a text line own copies, and are not among them.
pub open spec fn texts_of(block: BlockView) -> Seq<Seq<u8>> {
    match block {
        BlockView::HorizontalRule => Seq::empty(),
        BlockView::Header { level, title } => seq![title],
        BlockView::Equation { body } => seq![body],
        BlockView::SourceCode { language, code } => seq![language, code],
        BlockView::UnorderedList { items } => items,
        BlockView::OrderedList { items } => items,
        BlockView::Quote { items } => items,
        BlockView::Line { items } => Seq::empty(),
    }
}

/// The texts of all the blocks of a tree, in the order of the tree.
pub open spec fn all_texts(blocks: Seq<BlockView>) -> Seq<Seq<u8>>
    decreases blocks.len(),
{
    if blocks.len() == 0 {
        Seq::empty()
    } else {
        texts_of(blocks[0]) + all_texts(blocks.drop_first())
    }
}

/// Whether the texts stand in `s` between `from` and `to`, one behind the
/// other in their order: the first somewhere from `from` on, each of the
/// others somewhere behind the end of the one before it, and the last one
/// ends at `to` or before it.
pub open spec fn lie_in_order(texts: Seq<Seq<u8>>, s: Seq<u8>, from: int, to: int) -> bool
    decreases texts.len(),
{
    if texts.len() == 0 {
        0 <= from <= to <= s.len()
    } else {
        exists|at: int|
            0 <= from <= at && #[trigger] stands_at(texts[0], s, at) && lie_in_order(
                texts.drop_first(),
                s,
                at + texts[0].len(),
                to,
            )
    }
}

/// Whether `text` stands in `s` at position `at`.
pub open spec fn stands_at(text: Seq<u8>, s: Seq<u8>, at: int) -> bool {
    0 <= at && at + text.len() <= s.len() && s.subrange(at, at + text.len()) == text
}

/// Texts lie between two positions of `s` only where the first is not
/// behind the second.
pub proof fn lemma_lie_inside(texts: Seq<Seq<u8>>, s: Seq<u8>, from: int, to: int)
    requires
        lie_in_order(texts, s, from, to),
    ensures
        0 <= from <= to <= s.len(),
    decreases texts.len(),
{
    if texts.len() > 0 {
        let at = choose|at: int|
            0 <= from <= at && #[trigger] stands_at(texts[0], s, at) && lie_in_order(
                texts.drop_first(),
                s,
                at + texts[0].len(),
                to,
            );
        lemma_lie_inside(texts.drop_first(), s, at + texts[0].len(), to);
    }
}

/// Texts that lie between two positions lie between any two positions
/// around them.
pub proof fn lemma_lie_in_wider(
    texts: Seq<Seq<u8>>,
    s: Seq<u8>,
    from: int,
    to: int,
    lower: int,
    upper: int,
)
    requires
        lie_in_order(texts, s, from, to),
        0 <= lower <= from,
        to <= upper <= s.len(),
    ensures
        lie_in_order(texts, s, lower, upper),
    decreases texts.len(),
{
    lemma_lie_inside(texts, s, from, to);
    if texts.len() > 0 {
        let at = choose|at: int|
            0 <= from <= at && #[trigger] stands_at(texts[0], s, at) && lie_in_order(
                texts.drop_first(),
                s,
                at + texts[0].len(),
                to,
            );
        lemma_lie_in_wider(
            texts.drop_first(),
            s,
            at + texts[0].len(),
            to,
            at + texts[0].len(),
            upper,
        );
        assert(0 <= lower <= at && stands_at(texts[0], s, at));
    }
}

/// Texts that lie before a position, and texts that lie behind it, lie in
/// order when the second are put behind the first.
pub proof fn lemma_lie_one_behind_other(
    first: Seq<Seq<u8>>,
    second: Seq<Seq<u8>>,
    s: Seq<u8>,
    from: int,
    middle: int,
    to: int,
)
    requires
        lie_in_order(first, s, from, middle),
        lie_in_order(second, s, middle, to),
    ensures
        lie_in_order(first + second, s, from, to),
    decreases first.len(),
{
    lemma_lie_inside(second, s, middle, to);
    if first.len() == 0 {
        assert(first + second =~= second);
        lemma_lie_in_wider(second, s, middle, to, from, to);
    } else {
        let at = choose|at: int|
            0 <= from <= at && #[trigger] stands_at(first[0], s, at) && lie_in_order(
                first.drop_first(),
                s,
                at + first[0].len(),
                middle,
            );
        lemma_lie_one_behind_other(
            first.drop_first(),
            second,
            s,
            at + first[0].len(),
            middle,
            to,
        );
        let all = first + second;
        assert(all[0] == first[0]);
        assert(all.drop_first() =~= first.drop_first() + second);
        assert(0 <= from <= at && stands_at(all[0], s, at));
    }
}

/// Texts that lie in a tail of `s` lie in `s`, as far behind as the tail
/// begins.
pub proof fn lemma_lie_in_tail(texts: Seq<Seq<u8>>, s: Seq<u8>, k: int, from: int, to: int)
    requires
        0 <= k <= s.len(),
        lie_in_order(texts, s.skip(k), from, to),
    ensures
        lie_in_order(texts, s, k + from, k + to),
    decreases texts.len(),
{
    let tail = s.skip(k);
    if texts.len() > 0 {
        let at = choose|at: int|
            0 <= from <= at && #[trigger] stands_at(texts[0], tail, at) && lie_in_order(
                texts.drop_first(),
                tail,
                at + texts[0].len(),
                to,
            );
        lemma_lie_in_tail(texts.drop_first(), s, k, at + texts[0].len(), to);
        assert(s.subrange(k + at, k + at + texts[0].len()) =~= tail.subrange(
            at,
            at + texts[0].len(),
        ));
        assert(0 <= k + from <= k + at && stands_at(texts[0], s, k + at));
    }
}

/// One text that stands between two positions lies between them.
pub proof fn lemma_one_text_lies(s: Seq<u8>, start: int, end: int, to: int)
    requires
        0 <= start <= end <= to <= s.len(),
    ensures
        lie_in_order(seq![s.subrange(start, end)], s, 0, to),
        lie_in_order(seq![s.subrange(start, end)], s, start, to),
{
    let texts = seq![s.subrange(start, end)];
    assert(texts.drop_first() =~= Seq::<Seq<u8>>::empty());
    assert(stands_at(texts[0], s, start));
    assert(lie_in_order(texts.drop_first(), s, start + texts[0].len(), to));
}

/// The texts of marked lines lie in order in what the lines take.
pub proof fn lemma_marked_lines_lie(s: Seq<u8>, marker: Marker)
    ensures
        lie_in_order(
            marked_lines(s, marker).0,
            s,
            0,
            s.len() - marked_lines(s, marker).1.len(),
        ),
    decreases s.len(),
{
    lemma_marked_line(s, marker);
    lemma_marked_lines(s, marker);
    match marked_line(s, marker) {
        Some((text, rest)) => {
            lemma_marked_lines_lie(rest, marker);
            lemma_marked_lines(rest, marker);
            lemma_run_end(s, 0, Class::Digit);
            lemma_run_end(s, 0, Class::White);
            let from = marker_end(s, marker)->Some_0;
            lemma_line_text(s, from);
            let (start, end) = line_text(s, from)->Some_0;
            lemma_run_end(s, end, Class::White);
            let taken = s.len() - rest.len();
            let (more, left) = marked_lines(rest, marker);
            lemma_one_text_lies(s, start, end, taken);
            lemma_lie_in_tail(more, s, taken, 0, rest.len() - left.len());
            lemma_lie_one_behind_other(seq![text], more, s, 0, taken, s.len() - left.len());
        },
        None => {},
    }
}

/// The texts of a block lie in order in what its rule takes.
pub proof fn lemma_apply_lies(rule: BlockRule, s: Seq<u8>)
    ensures
        apply(rule, s) matches Some((block, rest)) ==> lie_in_order(
            texts_of(block),
            s,
            0,
            s.len() - rest.len(),
        ),
{
    lemma_apply_advances(rule, s);
    lemma_run_end(s, 0, Class::White);
    let open = run_end(s, 0, Class::White);
    match rule {
        BlockRule::Header => {
            lemma_run_end(s, 0, Class::Hash);
            let level = run_end(s, 0, Class::Hash);
            lemma_line_text(s, level);
            if level > 0 {
                if let Some((start, end)) = line_text(s, level) {
                    lemma_one_text_lies(s, start, end, end);
                }
            }
        },
        BlockRule::HorizontalRule => {},
        BlockRule::UnorderedList => {
            lemma_marked_lines_lie(s, Marker::Bullet);
        },
        BlockRule::OrderedList => {
            lemma_marked_lines_lie(s, Marker::Number);
        },
        BlockRule::SourceCode => {
            if run_at(s, open, BACKTICK, 3) {
                lemma_find_run(s, open + 3, NEWLINE, 1);
                if let Some(end_of_line) = find_run(s, open + 3, NEWLINE, 1) {
                    lemma_run_end(s, end_of_line, Class::White);
                    let start = run_end(s, end_of_line, Class::White);
                    lemma_find_run(s, start, BACKTICK, 3);
                    if let Some(close) = find_run(s, start, BACKTICK, 3) {
                        lemma_run_end(s, close + 3, Class::White);
                        let taken = run_end(s, close + 3, Class::White);
                        lemma_one_text_lies(s, open + 3, end_of_line, end_of_line);
                        lemma_one_text_lies(s, start, close, taken);
                        lemma_lie_in_wider(
                            seq![s.subrange(start, close)],
                            s,
                            start,
                            taken,
                            end_of_line,
                            taken,
                        );
                        lemma_lie_one_behind_other(
                            seq![s.subrange(open + 3, end_of_line)],
                            seq![s.subrange(start, close)],
                            s,
                            0,
                            end_of_line,
                            taken,
                        );
                        assert(seq![s.subrange(open + 3, end_of_line)] + seq![
                            s.subrange(start, close),
                        ] =~= seq![s.subrange(open + 3, end_of_line), s.subrange(start, close)]);
                    }
                }
            }
        },
        BlockRule::Equation => {
            if run_at(s, open, DOLLAR, 3) {
                lemma_run_end(s, open + 3, Class::White);
                let start = run_end(s, open + 3, Class::White);
                lemma_find_run(s, start, DOLLAR, 3);
                if let Some(close) = find_run(s, start, DOLLAR, 3) {
                    lemma_run_end(s, close + 3, Class::White);
                    lemma_one_text_lies(s, start, close, run_end(s, close + 3, Class::White));
                }
            }
        },
        BlockRule::Quote => {
            lemma_marked_lines_lie(s, Marker::Quote);
        },
        BlockRule::TextLine => {},
    }
}

/// The texts of the block that the first matching rule reads lie in order
/// in what the rule takes.
pub proof fn lemma_first_match_lies(s: Seq<u8>, k: int)
    ensures
        first_match(s, k) matches Ok((block, rest)) ==> lie_in_order(
            texts_of(block),
            s,
            0,
            s.len() - rest.len(),
        ),
    decreases BLOCK_RULES@.len() - k,
{
    if 0 <= k < BLOCK_RULES@.len() {
        lemma_apply_lies(BLOCK_RULES@[k], s);
        lemma_first_match_lies(s, k + 1);
    }
}

/// The texts of all the blocks of a document lie in the document, in the
/// order of the blocks.
pub proof fn lemma_segment_lies(s: Seq<u8>)
    ensures
        segment(s) matches Ok(blocks) ==> lie_in_order(all_texts(blocks), s, 0, s.len() as int),
    decreases s.len(),
{
    if s.len() > 0 {
        if let Ok((block, rest)) = next_block(s) {
            lemma_first_match_advances(s, 0);
            lemma_first_match_lies(s, 0);
            lemma_segment_lies(rest);
            if let Ok(more) = segment(rest) {
                let taken = s.len() - rest.len();
                let blocks = seq![block] + more;
                lemma_lie_in_tail(all_texts(more), s, taken, 0, rest.len() as int);
                lemma_lie_one_behind_other(
                    texts_of(block),
                    all_texts(more),
                    s,
                    0,
                    taken,
                    s.len() as int,
                );
                assert(blocks[0] == block);
                assert(blocks.drop_first() =~= more);
            }
        }
    }
}

/// A text line has no text that is cut out of the input, so what is left
/// out of a tree takes no text with it.
pub proof fn lemma_shown_keeps_texts(blocks: Seq<BlockView>)
    ensures
        all_texts(shown(blocks)) == all_texts(blocks),
    decreases blocks.len(),
{
    if blocks.len() == 0 {
        assert(shown(blocks) =~= blocks) by {
            reveal_with_fuel(Seq::filter, 1);
        }
    } else {
        let first = blocks[0];
        let more = blocks.drop_first();
        assert(blocks =~= seq![first] + more);
        lemma_shown_first(first, more);
        lemma_shown_keeps_texts(more);
        let kept = shown(more);
        if first.is_empty_line() {
            assert(texts_of(first) + all_texts(more) =~= all_texts(more));
        } else {
            let all = seq![first] + kept;
            assert(all[0] == first);
            assert(all.drop_first() =~= kept);
        }
    }
}

/// The texts of a tree are pieces of the input: each stands in the input
/// as it stands in the tree, they follow each other in the input as in the
/// tree, and none begins before the one before it has ended.
pub proof fn law_texts_are_pieces_of_the_input(s: Seq<u8>)
    ensures
        parse(s) matches Ok(blocks) ==> lie_in_order(all_texts(blocks), s, 0, s.len() as int),
{
    lemma_segment_lies(s);
    if let Ok(all) = segment(s) {
        lemma_shown_keeps_texts(all);
    }
}

} // verus!
