//! The grammar of the spans of a text line.

use crate::scan::{
    find_run, lemma_find_run, lemma_piece_without_run, run_at, BACKTICK, BANG, CLOSE_BRACKET,
    CLOSE_PAREN, DOLLAR, NEWLINE, OPEN_BRACKET, OPEN_PAREN, STAR,
};
use crate::tree::InlineView;
use vstd::prelude::*;

verus! {

/// Text between an opening and a closing mark: `n` copies of `open` at
/// `from`, then everything up to the first `n` copies of `close`. The result
/// is the range of the text; the closing mark stands at its end.
pub open spec fn enclosed(s: Seq<u8>, from: int, open: u8, close: u8, n: int) -> Option<
    (int, int),
> {
    if run_at(s, from, open, n) {
        match find_run(s, from + n, close, n) {
            Some(end) => Some((from + n, end)),
            None => None,
        }
    } else {
        None
    }
}

/// What `enclosed` finds lies inside `s`, between its two marks.
pub proof fn lemma_enclosed(s: Seq<u8>, from: int, open: u8, close: u8, n: int)
    requires
        0 <= n,
    ensures
        match enclosed(s, from, open, close, n) {
            Some((start, end)) => {
                &&& 0 <= from
                &&& start == from + n
                &&& start <= end
                &&& end + n <= s.len()
                &&& run_at(s, from, open, n)
                &&& run_at(s, end, close, n)
                &&& forall|j: int| start <= j < end ==> !run_at(s, j, close, n)
            },
            None => true,
        },
{
    if run_at(s, from, open, n) {
        lemma_find_run(s, from + n, close, n);
    }
}

/// Text between two marks at the head of `s`: `n` copies of `open`, the
/// text up to the first `n` copies of `close`, and those. Gives the text and
/// what follows the closing mark.
pub open spec fn delimited(s: Seq<u8>, open: u8, close: u8, n: int) -> Option<
    (Seq<u8>, Seq<u8>),
> {
    match enclosed(s, 0, open, close, n) {
        Some((start, end)) => Some((s.subrange(start, end), s.skip(end + n))),
        None => None,
    }
}

/// Inline code at the head of `s`: text between two backticks.
pub open spec fn pre(s: Seq<u8>) -> Option<(InlineView, Seq<u8>)> {
    match delimited(s, BACKTICK, BACKTICK, 1) {
        Some((text, rest)) => Some((InlineView::Pre { text }, rest)),
        None => None,
    }
}

/// Math at the head of `s`: text between two dollar signs.
pub open spec fn math(s: Seq<u8>) -> Option<(InlineView, Seq<u8>)> {
    match delimited(s, DOLLAR, DOLLAR, 1) {
        Some((text, rest)) => Some((InlineView::Math { text }, rest)),
        None => None,
    }
}

/// Bold text at the head of `s`: text between two double stars.
pub open spec fn bold(s: Seq<u8>) -> Option<(InlineView, Seq<u8>)> {
    match delimited(s, STAR, STAR, 2) {
        Some((text, rest)) => Some((InlineView::Bold { text }, rest)),
        None => None,
    }
}

/// Italic text at the head of `s`: text between two stars.
pub open spec fn italics(s: Seq<u8>) -> Option<(InlineView, Seq<u8>)> {
    match delimited(s, STAR, STAR, 1) {
        Some((text, rest)) => Some((InlineView::Italic { text }, rest)),
        None => None,
    }
}

/// The label and the target of a link at the head of `s`, and what follows:
/// `[label]` and then `(target)`.
pub open spec fn link_image(s: Seq<u8>) -> Option<(Seq<u8>, Seq<u8>, Seq<u8>)> {
    match delimited(s, OPEN_BRACKET, CLOSE_BRACKET, 1) {
        Some((label, after_label)) => match delimited(after_label, OPEN_PAREN, CLOSE_PAREN, 1) {
            Some((target, rest)) => Some((label, target, rest)),
            None => None,
        },
        None => None,
    }
}

/// A link at the head of `s`.
pub open spec fn link(s: Seq<u8>) -> Option<(InlineView, Seq<u8>)> {
    match link_image(s) {
        Some((label, target, rest)) => Some((InlineView::Link { label, target }, rest)),
        None => None,
    }
}

/// An image at the head of `s`: `!` and then what a link is made of.
pub open spec fn image(s: Seq<u8>) -> Option<(InlineView, Seq<u8>)> {
    if s.len() > 0 && s[0] == BANG {
        match link_image(s.skip(1)) {
            Some((label, target, rest)) => Some((InlineView::Image { label, target }, rest)),
            None => None,
        }
    } else {
        None
    }
}

/// Whether a character that ends plain text stands at position `i`: one
/// of `!`, `[`, a backtick, `$` and `*`, with which a mark begins, or a
/// newline.
pub open spec fn mark_at(s: Seq<u8>, i: int) -> bool {
    0 <= i < s.len() && (s[i] == BANG || s[i] == OPEN_BRACKET || s[i] == BACKTICK || s[i]
        == DOLLAR || s[i] == STAR || s[i] == NEWLINE)
}

/// The end of the plain text that starts at `from`: the first position where
/// a mark begins, or the end of `s`.
pub open spec fn plain_end(s: Seq<u8>, from: int) -> int
    decreases s.len() - from,
{
    if 0 <= from < s.len() && !mark_at(s, from) {
        plain_end(s, from + 1)
    } else {
        from
    }
}

/// `plain_end` stops at the first mark, or at the end of `s`.
pub proof fn lemma_plain_end(s: Seq<u8>, from: int)
    requires
        0 <= from <= s.len(),
    ensures
        from <= plain_end(s, from) <= s.len(),
        forall|j: int| from <= j < plain_end(s, from) ==> !mark_at(s, j),
        plain_end(s, from) < s.len() ==> mark_at(s, plain_end(s, from)),
    decreases s.len() - from,
{
    if from < s.len() && !mark_at(s, from) {
        lemma_plain_end(s, from + 1);
    }
}

/// Plain text at the head of `s`: at least one byte, up to the next mark.
pub open spec fn plain(s: Seq<u8>) -> Option<(InlineView, Seq<u8>)> {
    let end = plain_end(s, 0);
    if end > 0 {
        Some((InlineView::Plain { text: s.subrange(0, end) }, s.skip(end)))
    } else {
        None
    }
}

/// The rules of the tokenizer.
#[derive(Clone, Copy, Debug, PartialEq, Eq)]
pub enum InlineRule {
    /// `![label](target)`.
    Image,
    /// `[label](target)`.
    Link,
    /// Code between two backticks.
    Pre,
    /// Math between two dollar signs.
    Math,
    /// Text between two double stars.
    Bold,
    /// Text between two stars.
    Italic,
    /// Text up to the next mark.
    Plain,
}

/// The rules in the order in which they are tried: the first that matches
/// wins. Bold stands before italic, so that `**x**` is bold text, and not
/// `x` between two italic texts without a character.
pub const INLINE_RULES: [InlineRule; 7] = [
    InlineRule::Image,
    InlineRule::Link,
    InlineRule::Pre,
    InlineRule::Math,
    InlineRule::Bold,
    InlineRule::Italic,
    InlineRule::Plain,
];

/// What `rule` reads at the head of `s`.
pub open spec fn apply(rule: InlineRule, s: Seq<u8>) -> Option<(InlineView, Seq<u8>)> {
    match rule {
        InlineRule::Image => image(s),
        InlineRule::Link => link(s),
        InlineRule::Pre => pre(s),
        InlineRule::Math => math(s),
        InlineRule::Bold => bold(s),
        InlineRule::Italic => italics(s),
        InlineRule::Plain => plain(s),
    }
}

/// What the first matching rule from the `k`-th on reads at the head of `s`.
pub open spec fn first_match(s: Seq<u8>, k: int) -> Option<(InlineView, Seq<u8>)>
    decreases INLINE_RULES@.len() - k,
{
    if 0 <= k < INLINE_RULES@.len() {
        match apply(INLINE_RULES@[k], s) {
            Some(found) => Some(found),
            None => first_match(s, k + 1),
        }
    } else {
        None
    }
}

/// The span that the first matching rule reads at the head of `s`.
pub open spec fn parse_inline(s: Seq<u8>) -> Option<(InlineView, Seq<u8>)> {
    first_match(s, 0)
}

/// The first byte of `s` as plain text of its own.
pub open spec fn literal(s: Seq<u8>) -> (InlineView, Seq<u8>) {
    (InlineView::Plain { text: s.subrange(0, 1) }, s.skip(1))
}

/// The next span of a line that is not at its end. Where a mark begins but
/// no rule matches, as at a star that is never closed or at a `!` that
/// opens no image, the mark's first character is plain text.
pub open spec fn next_span(s: Seq<u8>) -> (InlineView, Seq<u8>) {
    match parse_inline(s) {
        Some(found) => found,
        None => literal(s),
    }
}

/// The spans of the line `s`.
pub open spec fn parse_line(s: Seq<u8>) -> Seq<InlineView>
    decreases s.len(),
{
    if s.len() == 0 {
        Seq::empty()
    } else {
        let (span, rest) = next_span(s);
        proof {
            lemma_next_span_advances(s);
        }
        seq![span] + parse_line(rest)
    }
}

/// What `delimited` gives is a piece of `s` and a tail of `s`.
pub proof fn lemma_delimited(s: Seq<u8>, open: u8, close: u8, n: int)
    requires
        0 <= n,
    ensures
        match delimited(s, open, close, n) {
            Some((text, rest)) => {
                &&& text.len() + rest.len() + 2 * n == s.len()
                &&& run_at(s, 0, open, n)
                &&& text == s.subrange(n, n + text.len())
                &&& run_at(s, n + text.len(), close, n)
                &&& forall|j: int| n <= j < n + text.len() ==> !run_at(s, j, close, n)
                &&& n >= 1 ==> forall|j: int| !run_at(text, j, close, n)
                &&& n == 1 ==> !text.contains(close)
                &&& rest == s.skip(s.len() - rest.len())
            },
            None => true,
        },
{
    lemma_enclosed(s, 0, open, close, n);
    if let Some((text, _)) = delimited(s, open, close, n) {
        if n >= 1 {
            lemma_piece_without_run(s, n, n + text.len(), close, n);
        }
        if n == 1 && text.contains(close) {
            let i = choose|i: int| 0 <= i < text.len() && text[i] == close;
            assert(run_at(text, i, close, 1));
        }
    }
}

/// What `link_image` gives beside the label and the target is a tail of `s`.
pub proof fn lemma_link_image(s: Seq<u8>)
    ensures
        link_image(s) matches Some((_, _, rest)) ==> rest.len() + 4 <= s.len() && rest == s.skip(
            s.len() - rest.len(),
        ),
{
    lemma_delimited(s, OPEN_BRACKET, CLOSE_BRACKET, 1);
    if let Some((_, after_label)) = delimited(s, OPEN_BRACKET, CLOSE_BRACKET, 1) {
        lemma_delimited(after_label, OPEN_PAREN, CLOSE_PAREN, 1);
        if let Some((_, rest)) = delimited(after_label, OPEN_PAREN, CLOSE_PAREN, 1) {
            assert(rest =~= s.skip(s.len() - rest.len()));
        }
    }
}

/// A rule that matches reads at least one byte, and leaves a tail of `s`.
pub proof fn lemma_apply_advances(rule: InlineRule, s: Seq<u8>)
    ensures
        apply(rule, s) matches Some((_, rest)) ==> rest.len() < s.len() && rest == s.skip(
            s.len() - rest.len(),
        ),
{
    match rule {
        InlineRule::Image => {
            if s.len() > 0 && s[0] == BANG {
                lemma_link_image(s.skip(1));
                if let Some((_, _, rest)) = link_image(s.skip(1)) {
                    assert(rest =~= s.skip(s.len() - rest.len()));
                }
            }
        },
        InlineRule::Link => {
            lemma_link_image(s);
        },
        InlineRule::Pre => {
            lemma_delimited(s, BACKTICK, BACKTICK, 1);
        },
        InlineRule::Math => {
            lemma_delimited(s, DOLLAR, DOLLAR, 1);
        },
        InlineRule::Bold => {
            lemma_delimited(s, STAR, STAR, 2);
        },
        InlineRule::Italic => {
            lemma_delimited(s, STAR, STAR, 1);
        },
        InlineRule::Plain => {
            lemma_plain_end(s, 0);
        },
    }
}

/// Every span that a rule reads is well formed.
pub proof fn lemma_apply_well_formed(rule: InlineRule, s: Seq<u8>)
    ensures
        apply(rule, s) matches Some((span, _)) ==> span.well_formed(),
{
    match rule {
        InlineRule::Image => {
            if s.len() > 0 && s[0] == BANG {
                lemma_delimited(s.skip(1), OPEN_BRACKET, CLOSE_BRACKET, 1);
                if let Some((_, after_label)) = delimited(
                    s.skip(1),
                    OPEN_BRACKET,
                    CLOSE_BRACKET,
                    1,
                ) {
                    lemma_delimited(after_label, OPEN_PAREN, CLOSE_PAREN, 1);
                }
            }
        },
        InlineRule::Link => {
            lemma_delimited(s, OPEN_BRACKET, CLOSE_BRACKET, 1);
            if let Some((_, after_label)) = delimited(s, OPEN_BRACKET, CLOSE_BRACKET, 1) {
                lemma_delimited(after_label, OPEN_PAREN, CLOSE_PAREN, 1);
            }
        },
        InlineRule::Pre => {
            lemma_delimited(s, BACKTICK, BACKTICK, 1);
        },
        InlineRule::Math => {
            lemma_delimited(s, DOLLAR, DOLLAR, 1);
        },
        InlineRule::Bold => {
            lemma_delimited(s, STAR, STAR, 2);
        },
        InlineRule::Italic => {
            lemma_delimited(s, STAR, STAR, 1);
        },
        InlineRule::Plain => {
            lemma_plain_end(s, 0);
            let text = s.subrange(0, plain_end(s, 0));
            assert forall|j: int| !mark_at(text, j) by {
                if 0 <= j < text.len() {
                    assert(text[j] == s[j]);
                    assert(!mark_at(s, j));
                }
            }
        },
    }
}

/// Every span that the first matching rule reads is well formed.
pub proof fn lemma_first_match_well_formed(s: Seq<u8>, k: int)
    ensures
        first_match(s, k) matches Some((span, _)) ==> span.well_formed(),
    decreases INLINE_RULES@.len() - k,
{
    if 0 <= k < INLINE_RULES@.len() {
        lemma_apply_well_formed(INLINE_RULES@[k], s);
        lemma_first_match_well_formed(s, k + 1);
    }
}

/// Every span of a line is well formed.
pub proof fn lemma_parse_line_well_formed(s: Seq<u8>)
    ensures
        forall|k: int| 0 <= k < parse_line(s).len() ==> (#[trigger] parse_line(s)[k]).well_formed(),
    decreases s.len(),
{
    if s.len() > 0 {
        lemma_first_match_well_formed(s, 0);
        lemma_next_span_advances(s);
        lemma_parse_line_well_formed(next_span(s).1);
        let (span, rest) = next_span(s);
        let more = parse_line(rest);
        assert(span.well_formed());
        assert forall|k: int| 0 <= k < parse_line(s).len() implies (#[trigger] parse_line(
            s,
        )[k]).well_formed() by {
            if k > 0 {
                assert(parse_line(s)[k] == more[k - 1]);
            }
        }
    }
}

/// The first matching rule reads at least one byte, and leaves a tail of `s`.
pub proof fn lemma_first_match_advances(s: Seq<u8>, k: int)
    ensures
        first_match(s, k) matches Some((_, rest)) ==> rest.len() < s.len() && rest == s.skip(
            s.len() - rest.len(),
        ),
    decreases INLINE_RULES@.len() - k,
{
    if 0 <= k < INLINE_RULES@.len() {
        lemma_apply_advances(INLINE_RULES@[k], s);
        lemma_first_match_advances(s, k + 1);
    }
}

/// Where no rule matches in a line that is not at its end, a mark begins.
pub proof fn lemma_no_match_at_mark(s: Seq<u8>)
    requires
        s.len() > 0,
        parse_inline(s) is None,
    ensures
        mark_at(s, 0),
{
    reveal_with_fuel(first_match, 8);
    assert(plain(s) is None);
    lemma_plain_end(s, 1);
}

/// Every span takes at least one byte of a line that is not at its end.
pub proof fn lemma_next_span_advances(s: Seq<u8>)
    requires
        s.len() > 0,
    ensures
        next_span(s).1.len() < s.len(),
        next_span(s).1 == s.skip(s.len() - next_span(s).1.len()),
{
    lemma_first_match_advances(s, 0);
}

} // verus!
