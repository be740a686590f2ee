//! The inline tokenizer: one line of text becomes a sequence of spans.

use crate::grammar;
use crate::grammar::inline::{InlineRule, INLINE_RULES};
use crate::scan::{
    has_run_at, lemma_find_run, search_run, BACKTICK, BANG, CLOSE_BRACKET, CLOSE_PAREN, DOLLAR,
    NEWLINE, OPEN_BRACKET, OPEN_PAREN, STAR,
};
use crate::text::{cut, tail};
use crate::tree::{inline_views, Inline, InlineView};
use vstd::prelude::*;
use vstd::string::*;

verus! {

/// A text and the rest of the input, each as its bytes.
pub open spec fn text_and_rest(r: Option<(&str, &str)>) -> Option<(Seq<u8>, Seq<u8>)> {
    match r {
        Some((text, rest)) => Some((text.spec_bytes(), rest.spec_bytes())),
        None => None,
    }
}

/// A span and the rest of the input, as the grammar speaks of them.
pub open spec fn span_and_rest(r: Option<(Inline, &str)>) -> Option<(InlineView, Seq<u8>)> {
    match r {
        Some((span, rest)) => Some((span@, rest.spec_bytes())),
        None => None,
    }
}

/// Reads a text between two marks at the head of `input`: `n` copies of
/// `open`, the text up to the first `n` copies of `close`, and those.
pub fn delimited<'a>(input: &'a str, open: u8, close: u8, n: usize) -> (r: Option<
    (&'a str, &'a str),
>)
    requires
        open < 0x80,
        close < 0x80,
    ensures
        text_and_rest(r) == grammar::inline::delimited(
            input.spec_bytes(),
            open,
            close,
            n as int,
        ),
{
    let bytes = input.as_bytes();
    if !has_run_at(bytes, 0, open, n) {
        return None;
    }
    match search_run(bytes, n, close, n) {
        None => None,
        Some(end) => {
            proof {
                lemma_find_run(bytes@, n as int, close, n as int);
            }
            assert(end + n <= bytes.len());
            let text = cut(input, n, end);
            let rest = tail(input, end + n);
            Some((text, rest))
        },
    }
}

/// Reads inline code: text between two backticks.
pub fn pre<'a>(input: &'a str) -> (r: Option<(Inline, &'a str)>)
    ensures
        span_and_rest(r) == grammar::inline::pre(input.spec_bytes()),
{
    match delimited(input, BACKTICK, BACKTICK, 1) {
        Some((text, rest)) => Some((Inline::Pre { text: text.to_owned() }, rest)),
        None => None,
    }
}

/// Reads math: text between two dollar signs.
pub fn math<'a>(input: &'a str) -> (r: Option<(Inline, &'a str)>)
    ensures
        span_and_rest(r) == grammar::inline::math(input.spec_bytes()),
{
    match delimited(input, DOLLAR, DOLLAR, 1) {
        Some((text, rest)) => Some((Inline::Math { text: text.to_owned() }, rest)),
        None => None,
    }
}

/// Reads bold text: text between two double stars.
pub fn bold<'a>(input: &'a str) -> (r: Option<(Inline, &'a str)>)
    ensures
        span_and_rest(r) == grammar::inline::bold(input.spec_bytes()),
{
    match delimited(input, STAR, STAR, 2) {
        Some((text, rest)) => Some((Inline::Bold { text: text.to_owned() }, rest)),
        None => None,
    }
}

/// Reads italic text: text between two stars.
pub fn italics<'a>(input: &'a str) -> (r: Option<(Inline, &'a str)>)
    ensures
        span_and_rest(r) == grammar::inline::italics(input.spec_bytes()),
{
    match delimited(input, STAR, STAR, 1) {
        Some((text, rest)) => Some((Inline::Italic { text: text.to_owned() }, rest)),
        None => None,
    }
}

/// Reads what links and images share: `[label]` and then `(target)`.
pub fn link_image<'a>(input: &'a str) -> (r: Option<(&'a str, &'a str, &'a str)>)
    ensures
        match r {
            Some((label, target, rest)) => grammar::inline::link_image(input.spec_bytes())
                == Some((label.spec_bytes(), target.spec_bytes(), rest.spec_bytes())),
            None => grammar::inline::link_image(input.spec_bytes()) is None,
        },
{
    match delimited(input, OPEN_BRACKET, CLOSE_BRACKET, 1) {
        Some((label, after_label)) => match delimited(after_label, OPEN_PAREN, CLOSE_PAREN, 1) {
            Some((target, rest)) => Some((label, target, rest)),
            None => None,
        },
        None => None,
    }
}

/// Reads a link.
pub fn link<'a>(input: &'a str) -> (r: Option<(Inline, &'a str)>)
    ensures
        span_and_rest(r) == grammar::inline::link(input.spec_bytes()),
{
    match link_image(input) {
        Some((label, target, rest)) => Some(
            (Inline::Link { label: label.to_owned(), target: target.to_owned() }, rest),
        ),
        None => None,
    }
}

/// Reads an image: `!` and then what a link is made of.
pub fn image<'a>(input: &'a str) -> (r: Option<(Inline, &'a str)>)
    ensures
        span_and_rest(r) == grammar::inline::image(input.spec_bytes()),
{
    let bytes = input.as_bytes();
    if bytes.len() == 0 || bytes[0] != BANG {
        return None;
    }
    match link_image(tail(input, 1)) {
        Some((label, target, rest)) => Some(
            (Inline::Image { label: label.to_owned(), target: target.to_owned() }, rest),
        ),
        None => None,
    }
}

/// Tests whether a character that ends plain text stands at position
/// `i`.
pub fn is_mark_at(bytes: &[u8], i: usize) -> (r: bool)
    ensures
        r == grammar::inline::mark_at(bytes@, i as int),
{
    if i >= bytes.len() {
        return false;
    }
    let b = bytes[i];
    b == BANG || b == OPEN_BRACKET || b == BACKTICK || b == DOLLAR || b == STAR || b == NEWLINE
}

/// Reads plain text: at least one byte, up to the next mark.
pub fn plain<'a>(input: &'a str) -> (r: Option<(Inline, &'a str)>)
    ensures
        span_and_rest(r) == grammar::inline::plain(input.spec_bytes()),
{
    let bytes = input.as_bytes();
    let mut end: usize = 0;
    while end < bytes.len() && !is_mark_at(bytes, end)
        invariant
            end <= bytes@.len(),
            grammar::inline::plain_end(bytes@, 0) == grammar::inline::plain_end(
                bytes@,
                end as int,
            ),
        decreases bytes@.len() - end,
    {
        end += 1;
    }
    if end == 0 {
        None
    } else {
        Some((Inline::Plain { text: cut(input, 0, end).to_owned() }, tail(input, end)))
    }
}

/// Reads what `rule` reads at the head of `input`.
pub fn apply<'a>(rule: InlineRule, input: &'a str) -> (r: Option<(Inline, &'a str)>)
    ensures
        span_and_rest(r) == grammar::inline::apply(rule, input.spec_bytes()),
{
    match rule {
        InlineRule::Image => image(input),
        InlineRule::Link => link(input),
        InlineRule::Pre => pre(input),
        InlineRule::Math => math(input),
        InlineRule::Bold => bold(input),
        InlineRule::Italic => italics(input),
        InlineRule::Plain => plain(input),
    }
}

/// Reads one span with the first rule that matches.
pub fn parse_inline<'a>(input: &'a str) -> (r: Option<(Inline, &'a str)>)
    ensures
        span_and_rest(r) == grammar::inline::parse_inline(input.spec_bytes()),
{
    let mut k: usize = 0;
    while k < INLINE_RULES.len()
        invariant
            k <= INLINE_RULES@.len(),
            grammar::inline::parse_inline(input.spec_bytes()) == grammar::inline::first_match(
                input.spec_bytes(),
                k as int,
            ),
        decreases INLINE_RULES@.len() - k,
    {
        let found = apply(INLINE_RULES[k], input);
        if found.is_some() {
            return found;
        }
        k += 1;
    }
    None
}

/// Splits one line of text into its spans. Each span is read by the first
/// rule that matches; where a mark begins but no rule matches, the mark's
/// first character becomes plain text of its own.
pub fn parse_line(text: &str) -> (spans: Vec<Inline>)
    ensures
        inline_views(spans@) == grammar::inline::parse_line(text.spec_bytes()),
        forall|k: int| 0 <= k < spans.len() ==> (#[trigger] spans[k])@.well_formed(),
{
    let mut spans: Vec<Inline> = Vec::new();
    let mut rest = text;
    while rest.as_bytes().len() > 0
        invariant
            grammar::inline::parse_line(text.spec_bytes()) == inline_views(spans@)
                + grammar::inline::parse_line(rest.spec_bytes()),
        decreases rest.spec_bytes().len(),
    {
        let ghost before = inline_views(spans@);
        let ghost s = rest.spec_bytes();
        proof {
            grammar::inline::lemma_next_span_advances(s);
        }
        let (span, after) = match parse_inline(rest) {
            Some(found) => found,
            None => {
                proof {
                    grammar::inline::lemma_no_match_at_mark(s);
                }
                (Inline::Plain { text: cut(rest, 0, 1).to_owned() }, tail(rest, 1))
            },
        };
        spans.push(span);
        rest = after;
        assert(inline_views(spans@) =~= before.push(span@));
        assert(before.push(span@) + grammar::inline::parse_line(after.spec_bytes()) =~= before + (
            seq![span@] + grammar::inline::parse_line(after.spec_bytes())));
    }
    assert(inline_views(spans@) + Seq::<InlineView>::empty() =~= inline_views(spans@));
    assert forall|k: int| 0 <= k < spans.len() implies (#[trigger] spans[k])@.well_formed() by {
        grammar::inline::lemma_parse_line_well_formed(text.spec_bytes());
        assert(inline_views(spans@)[k] == spans[k]@);
    }
    spans
}

} // verus!
