//! Spans that are written and read back.

use crate::grammar::inline::{
    apply, delimited, enclosed, first_match, lemma_delimited, lemma_next_span_advances,
    lemma_plain_end, link_image, mark_at, next_span, parse_inline, parse_line, plain_end,
    InlineRule, INLINE_RULES,
};
use crate::scan::{
    lemma_find_run_is, run_at, BACKTICK, BANG, CLOSE_BRACKET, CLOSE_PAREN, DOLLAR, OPEN_BRACKET,
    OPEN_PAREN, STAR,
};
use crate::tree::InlineView;
use vstd::prelude::*;

verus! {

/// `n` copies of the byte `b`.
pub open spec fn copies(b: u8, n: int) -> Seq<u8> {
    Seq::new(n as nat, |i: int| b)
}

/// `text` between `n` copies of `open` and `n` copies of `close`.
pub open spec fn write_delimited(open: u8, close: u8, n: int, text: Seq<u8>) -> Seq<u8> {
    copies(open, n) + text + copies(close, n)
}

/// Whether the closing mark that is written behind `text` is the first
/// that stands there: no `n` copies of `close` begin inside `text`, not
/// even with the help of the mark itself.
pub open spec fn closes_first(text: Seq<u8>, close: u8, n: int) -> bool {
    forall|j: int| 0 <= j < text.len() ==> !run_at(text + copies(close, n), j, close, n)
}

/// A text that does not hold the byte of the closing mark is closed by the
/// mark that is written behind it.
pub proof fn lemma_closes_first_without(text: Seq<u8>, close: u8, n: int)
    requires
        n >= 1,
        !text.contains(close),
    ensures
        closes_first(text, close, n),
{
    let written = text + copies(close, n);
    assert forall|j: int| 0 <= j < text.len() implies !run_at(written, j, close, n) by {
        assert(written[j] == text[j]);
        assert(text.contains(text[j]));
    }
}

/// A text between two marks is read back, whatever follows, where the mark
/// written behind it is the first closing mark that stands there.
pub proof fn law_delimited_roundtrip(open: u8, close: u8, n: int, text: Seq<u8>, rest: Seq<u8>)
    requires
        n >= 1,
        closes_first(text, close, n),
    ensures
        delimited(write_delimited(open, close, n, text) + rest, open, close, n) == Some(
            (text, rest),
        ),
{
    let s = write_delimited(open, close, n, text) + rest;
    let closed = text + copies(close, n);
    let end = n + text.len();
    assert(run_at(s, 0, open, n));
    assert(run_at(s, end, close, n));
    assert forall|j: int| n <= j < end implies !run_at(s, j, close, n) by {
        if run_at(s, j, close, n) {
            assert forall|i: int| j - n <= i < j - n + n implies closed[i] == close by {
                assert(s[i + n] == close);
                assert(closed[i] == s[i + n]);
            }
            assert(run_at(closed, j - n, close, n));
        }
    }
    lemma_find_run_is(s, n, close, n, end);
    assert(s.subrange(n, end) =~= text);
    assert(s.skip(end + n) =~= rest);
}

/// The text that stands for a span: plain text as it is, a styled text
/// between its marks, a link as `[label](target)`, an image as
/// `![label](target)`.
pub open spec fn write_span(span: InlineView) -> Seq<u8> {
    match span {
        InlineView::Plain { text } => text,
        InlineView::Italic { text } => write_delimited(STAR, STAR, 1, text),
        InlineView::Bold { text } => write_delimited(STAR, STAR, 2, text),
        InlineView::Pre { text } => write_delimited(BACKTICK, BACKTICK, 1, text),
        InlineView::Math { text } => write_delimited(DOLLAR, DOLLAR, 1, text),
        InlineView::Link { label, target } => write_delimited(
            OPEN_BRACKET,
            CLOSE_BRACKET,
            1,
            label,
        ) + write_delimited(OPEN_PAREN, CLOSE_PAREN, 1, target),
        InlineView::Image { label, target } => seq![BANG] + write_delimited(
            OPEN_BRACKET,
            CLOSE_BRACKET,
            1,
            label,
        ) + write_delimited(OPEN_PAREN, CLOSE_PAREN, 1, target),
    }
}

/// Whether `span`, written before `rest`, is read back as it was written.
/// A text between marks must be closed by the mark behind it, and an italic
/// text must not be empty: two stars in a row open bold text. Plain text
/// is either a run or a lone mark. A run is not empty, holds no character
/// that ends plain text, and has one behind it unless the line ends there.
/// A lone mark is one such character at which no rule matches.
pub open spec fn reads_back(span: InlineView, rest: Seq<u8>) -> bool {
    match span {
        InlineView::Plain { text } => {
            ||| {
                &&& text.len() > 0
                &&& forall|j: int| 0 <= j < text.len() ==> !mark_at(text, j)
                &&& rest.len() > 0 ==> mark_at(rest, 0)
            }
            ||| {
                &&& text.len() == 1
                &&& mark_at(text, 0)
                &&& parse_inline(text + rest) is None
            }
        },
        InlineView::Italic { text } => text.len() > 0 && closes_first(text, STAR, 1),
        InlineView::Bold { text } => closes_first(text, STAR, 2),
        InlineView::Pre { text } => closes_first(text, BACKTICK, 1),
        InlineView::Math { text } => closes_first(text, DOLLAR, 1),
        InlineView::Link { label, target } => closes_first(label, CLOSE_BRACKET, 1)
            && closes_first(target, CLOSE_PAREN, 1),
        InlineView::Image { label, target } => closes_first(label, CLOSE_BRACKET, 1)
            && closes_first(target, CLOSE_PAREN, 1),
    }
}

/// The position where plain text ends is the first where a mark begins, or
/// the end: there is one such position only.
pub proof fn lemma_plain_end_is(s: Seq<u8>, from: int, end: int)
    requires
        0 <= from <= end <= s.len(),
        forall|j: int| from <= j < end ==> !mark_at(s, j),
        end < s.len() ==> mark_at(s, end),
    ensures
        plain_end(s, from) == end,
    decreases end - from,
{
    if from < end {
        lemma_plain_end_is(s, from + 1, end);
    }
}

/// A text between two equal marks is read back, and the bytes at the head
/// of what was written are such that no rule before the text's own matches.
proof fn lemma_styled_reads_back(mark: u8, n: int, text: Seq<u8>, rest: Seq<u8>)
    requires
        n == 1 || n == 2,
        closes_first(text, mark, n),
    ensures
        delimited(write_delimited(mark, mark, n, text) + rest, mark, mark, n) == Some(
            (text, rest),
        ),
        (write_delimited(mark, mark, n, text) + rest).len() > 0,
        (write_delimited(mark, mark, n, text) + rest)[0] == mark,
        n == 1 && text.len() > 0 ==> (write_delimited(mark, mark, n, text) + rest)[1] != mark,
{
    law_delimited_roundtrip(mark, mark, n, text, rest);
    let s = write_delimited(mark, mark, n, text) + rest;
    assert(s[0] == copies(mark, n)[0]);
    if n == 1 && text.len() > 0 {
        let closed = text + copies(mark, 1);
        assert(s[1] == text[0]);
        assert(closed[0] == text[0]);
        assert(!run_at(closed, 0, mark, 1));
    }
}

/// A label and a target that are written as a link are read back.
proof fn lemma_link_reads_back(label: Seq<u8>, target: Seq<u8>, rest: Seq<u8>)
    requires
        closes_first(label, CLOSE_BRACKET, 1),
        closes_first(target, CLOSE_PAREN, 1),
    ensures
        link_image(
            write_delimited(OPEN_BRACKET, CLOSE_BRACKET, 1, label) + write_delimited(
                OPEN_PAREN,
                CLOSE_PAREN,
                1,
                target,
            ) + rest,
        ) == Some((label, target, rest)),
{
    let first = write_delimited(OPEN_BRACKET, CLOSE_BRACKET, 1, label);
    let second = write_delimited(OPEN_PAREN, CLOSE_PAREN, 1, target);
    assert(first + second + rest =~= first + (second + rest));
    law_delimited_roundtrip(OPEN_BRACKET, CLOSE_BRACKET, 1, label, second + rest);
    law_delimited_roundtrip(OPEN_PAREN, CLOSE_PAREN, 1, target, rest);
}

/// A span that is written before `rest` is read back as the first span of
/// the line, and the spans of `rest` follow it.
pub proof fn law_span_roundtrip(span: InlineView, rest: Seq<u8>)
    requires
        reads_back(span, rest),
    ensures
        parse_line(write_span(span) + rest) == seq![span] + parse_line(rest),
{
    let s = write_span(span) + rest;
    reveal_with_fuel(first_match, 8);
    match span {
        InlineView::Plain { text } => {
            assert(s.len() > 0);
            assert(s.subrange(0, text.len() as int) =~= text);
            assert(s.skip(text.len() as int) =~= rest);
            if !mark_at(text, 0) {
                assert(s[0] == text[0]);
                assert forall|j: int| 0 <= j < text.len() implies !mark_at(s, j) by {
                    assert(s[j] == text[j]);
                    assert(!mark_at(text, j));
                }
                if rest.len() > 0 {
                    assert(s[text.len() as int] == rest[0]);
                    assert(mark_at(s, text.len() as int));
                }
                lemma_plain_end_is(s, 0, text.len() as int);
                assert(enclosed(s, 0, OPEN_BRACKET, CLOSE_BRACKET, 1) is None);
                assert(enclosed(s, 0, BACKTICK, BACKTICK, 1) is None);
                assert(enclosed(s, 0, DOLLAR, DOLLAR, 1) is None);
                assert(enclosed(s, 0, STAR, STAR, 1) is None);
                assert(enclosed(s, 0, STAR, STAR, 2) is None);
            }
            assert(next_span(s) == (span, rest));
        },
        InlineView::Italic { text } => {
            lemma_styled_reads_back(STAR, 1, text, rest);
            assert(!run_at(s, 0, STAR, 2));
            assert(next_span(s) == (span, rest));
        },
        InlineView::Bold { text } => {
            lemma_styled_reads_back(STAR, 2, text, rest);
            assert(next_span(s) == (span, rest));
        },
        InlineView::Pre { text } => {
            lemma_styled_reads_back(BACKTICK, 1, text, rest);
            assert(next_span(s) == (span, rest));
        },
        InlineView::Math { text } => {
            lemma_styled_reads_back(DOLLAR, 1, text, rest);
            assert(next_span(s) == (span, rest));
        },
        InlineView::Link { label, target } => {
            lemma_link_reads_back(label, target, rest);
            assert(s[0] == copies(OPEN_BRACKET, 1)[0]);
            assert(next_span(s) == (span, rest));
        },
        InlineView::Image { label, target } => {
            lemma_link_reads_back(label, target, rest);
            let link = write_delimited(OPEN_BRACKET, CLOSE_BRACKET, 1, label) + write_delimited(
                OPEN_PAREN,
                CLOSE_PAREN,
                1,
                target,
            ) + rest;
            assert(s.skip(1) =~= link);
            assert(s[0] == BANG);
            assert(next_span(s) == (span, rest));
        },
    }
}

/// Whether a span holds none of the bytes that close it: no star in bold
/// or italic text, no backtick in code, no dollar sign in math, no closing
/// bracket in a label, no closing parenthesis in a target. Plain text is
/// not such a span, nor is italic text that is empty.
pub open spec fn holds_no_closing_mark(span: InlineView) -> bool {
    match span {
        InlineView::Plain { text } => false,
        InlineView::Italic { text } => text.len() > 0 && !text.contains(STAR),
        InlineView::Bold { text } => !text.contains(STAR),
        InlineView::Pre { text } => !text.contains(BACKTICK),
        InlineView::Math { text } => !text.contains(DOLLAR),
        InlineView::Link { label, target } => !label.contains(CLOSE_BRACKET) && !target.contains(
            CLOSE_PAREN,
        ),
        InlineView::Image { label, target } => !label.contains(CLOSE_BRACKET) && !target.contains(
            CLOSE_PAREN,
        ),
    }
}

/// A text between a pair of marks is read as one span of the marks' kind
/// with that text, and a label and a target in brackets as one link, or
/// behind `!` as one image: `**bold**` is bold text `bold`, `*italic*`
/// italic text `italic`, `[alt](url)` a link and `![alt](url)` an image
/// with label `alt` and target `url`.
pub proof fn law_pair_roundtrip(span: InlineView)
    requires
        holds_no_closing_mark(span),
    ensures
        parse_line(write_span(span)) == seq![span],
{
    match span {
        InlineView::Plain { text } => {},
        InlineView::Italic { text } => {
            lemma_closes_first_without(text, STAR, 1);
        },
        InlineView::Bold { text } => {
            lemma_closes_first_without(text, STAR, 2);
        },
        InlineView::Pre { text } => {
            lemma_closes_first_without(text, BACKTICK, 1);
        },
        InlineView::Math { text } => {
            lemma_closes_first_without(text, DOLLAR, 1);
        },
        InlineView::Link { label, target } => {
            lemma_closes_first_without(label, CLOSE_BRACKET, 1);
            lemma_closes_first_without(target, CLOSE_PAREN, 1);
        },
        InlineView::Image { label, target } => {
            lemma_closes_first_without(label, CLOSE_BRACKET, 1);
            lemma_closes_first_without(target, CLOSE_PAREN, 1);
        },
    }
    law_span_roundtrip(span, Seq::empty());
    assert(write_span(span) + Seq::<u8>::empty() =~= write_span(span));
    assert(parse_line(Seq::<u8>::empty()) =~= Seq::<InlineView>::empty());
    assert(seq![span] + Seq::<InlineView>::empty() =~= seq![span]);
}

/// A `!` that opens no image is read as plain text of its own: no rule
/// matches at it where what follows is not a label and a target in
/// brackets.
pub proof fn lemma_lone_bang(rest: Seq<u8>)
    requires
        link_image(rest) is None,
    ensures
        reads_back(InlineView::Plain { text: seq![BANG] }, rest),
{
    let s = seq![BANG] + rest;
    reveal_with_fuel(first_match, 8);
    assert(s[0] == BANG);
    assert(s.skip(1) =~= rest);
    assert(mark_at(s, 0));
    assert(plain_end(s, 0) == 0);
    assert(enclosed(s, 0, OPEN_BRACKET, CLOSE_BRACKET, 1) is None);
    assert(enclosed(s, 0, BACKTICK, BACKTICK, 1) is None);
    assert(enclosed(s, 0, DOLLAR, DOLLAR, 1) is None);
    assert(enclosed(s, 0, STAR, STAR, 1) is None);
    assert(enclosed(s, 0, STAR, STAR, 2) is None);
    assert(parse_inline(s) is None);
}

/// The text that stands for a line of spans: each span as it is written,
/// one behind the other.
pub open spec fn write_line(spans: Seq<InlineView>) -> Seq<u8>
    decreases spans.len(),
{
    if spans.len() == 0 {
        Seq::empty()
    } else {
        write_span(spans[0]) + write_line(spans.drop_first())
    }
}

/// Whether every span of `spans` is read back before those that follow it.
pub open spec fn line_reads_back(spans: Seq<InlineView>) -> bool
    decreases spans.len(),
{
    spans.len() == 0 || (reads_back(spans[0], write_line(spans.drop_first()))
        && line_reads_back(spans.drop_first()))
}

/// A line that is written span by span is read back span by span.
pub proof fn law_line_roundtrip(spans: Seq<InlineView>)
    requires
        line_reads_back(spans),
    ensures
        parse_line(write_line(spans)) == spans,
    decreases spans.len(),
{
    if spans.len() > 0 {
        law_span_roundtrip(spans[0], write_line(spans.drop_first()));
        law_line_roundtrip(spans.drop_first());
        assert(seq![spans[0]] + spans.drop_first() =~= spans);
    }
}

/// What `delimited` reads is what is written between two marks.
proof fn lemma_delimited_is_written(s: Seq<u8>, open: u8, close: u8, n: int)
    requires
        n >= 1,
    ensures
        delimited(s, open, close, n) matches Some((text, rest)) ==> s == write_delimited(
            open,
            close,
            n,
            text,
        ) + rest,
{
    lemma_delimited(s, open, close, n);
    if let Some((text, rest)) = delimited(s, open, close, n) {
        assert(s =~= write_delimited(open, close, n, text) + rest);
    }
}

/// What a rule reads is its span as it is written, and nothing else.
proof fn lemma_apply_is_written(rule: InlineRule, s: Seq<u8>)
    ensures
        apply(rule, s) matches Some((span, rest)) ==> s == write_span(span) + rest,
{
    match rule {
        InlineRule::Image => {
            if s.len() > 0 && s[0] == BANG {
                let t = s.skip(1);
                lemma_delimited_is_written(t, OPEN_BRACKET, CLOSE_BRACKET, 1);
                if let Some((label, after_label)) = delimited(t, OPEN_BRACKET, CLOSE_BRACKET, 1) {
                    lemma_delimited_is_written(after_label, OPEN_PAREN, CLOSE_PAREN, 1);
                    if let Some((target, rest)) = delimited(
                        after_label,
                        OPEN_PAREN,
                        CLOSE_PAREN,
                        1,
                    ) {
                        let span = InlineView::Image { label, target };
                        assert(s =~= seq![BANG] + t);
                        assert(s =~= write_span(span) + rest);
                    }
                }
            }
        },
        InlineRule::Link => {
            lemma_delimited_is_written(s, OPEN_BRACKET, CLOSE_BRACKET, 1);
            if let Some((label, after_label)) = delimited(s, OPEN_BRACKET, CLOSE_BRACKET, 1) {
                lemma_delimited_is_written(after_label, OPEN_PAREN, CLOSE_PAREN, 1);
                if let Some((target, rest)) = delimited(after_label, OPEN_PAREN, CLOSE_PAREN, 1) {
                    let span = InlineView::Link { label, target };
                    assert(s =~= write_span(span) + rest);
                }
            }
        },
        InlineRule::Pre => {
            lemma_delimited_is_written(s, BACKTICK, BACKTICK, 1);
        },
        InlineRule::Math => {
            lemma_delimited_is_written(s, DOLLAR, DOLLAR, 1);
        },
        InlineRule::Bold => {
            lemma_delimited_is_written(s, STAR, STAR, 2);
        },
        InlineRule::Italic => {
            lemma_delimited_is_written(s, STAR, STAR, 1);
        },
        InlineRule::Plain => {
            lemma_plain_end(s, 0);
            let end = plain_end(s, 0);
            if end > 0 {
                assert(s =~= s.subrange(0, end) + s.skip(end));
            }
        },
    }
}

/// What the first matching rule reads is its span as it is written.
proof fn lemma_first_match_is_written(s: Seq<u8>, k: int)
    ensures
        first_match(s, k) matches Some((span, rest)) ==> s == write_span(span) + rest,
    decreases INLINE_RULES@.len() - k,
{
    if 0 <= k < INLINE_RULES@.len() {
        lemma_apply_is_written(INLINE_RULES@[k], s);
        lemma_first_match_is_written(s, k + 1);
    }
}

/// The tokenizer loses nothing: the spans of a line, written one behind
/// the other, are the line.
pub proof fn law_spans_hold_the_line(s: Seq<u8>)
    ensures
        write_line(parse_line(s)) == s,
    decreases s.len(),
{
    if s.len() > 0 {
        let (span, rest) = next_span(s);
        lemma_first_match_is_written(s, 0);
        lemma_next_span_advances(s);
        law_spans_hold_the_line(rest);
        assert(s =~= write_span(span) + rest) by {
            if first_match(s, 0) is None {
                assert(s =~= s.subrange(0, 1) + s.skip(1));
            }
        }
        assert((seq![span] + parse_line(rest)).drop_first() =~= parse_line(rest));
    } else {
        assert(s =~= Seq::<u8>::empty());
    }
}

/// Two lines with the same spans are the same line.
pub proof fn law_spans_tell_lines_apart(first: Seq<u8>, second: Seq<u8>)
    requires
        parse_line(first) == parse_line(second),
    ensures
        first == second,
{
    law_spans_hold_the_line(first);
    law_spans_hold_the_line(second);
}

} // verus!
