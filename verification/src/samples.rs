//! The laws at work: what the grammar reads in a few short texts.

use crate::error::ParseError;
use crate::grammar::block::{parse, source_code, Marker};
use crate::grammar::inline::{link_image, parse_line};
use crate::roundtrip::block::{
    heading_blocks, law_headings_roundtrip, law_list_roundtrip, law_lists_split_at_marker,
    law_source_code_roundtrip, write_code, write_headings, write_items, Heading,
};
use crate::roundtrip::inline::{
    law_line_roundtrip, law_pair_roundtrip, lemma_closes_first_without, lemma_lone_bang,
    line_reads_back, write_line, write_span,
};
use crate::scan::{lemma_run_end_is, Class, BACKTICK, BANG, STAR};
use crate::tree::{BlockView, InlineView};
use vstd::prelude::*;
use vstd::string::*;

verus! {

/// `**bold**` is one bold span with the text `bold`.
pub proof fn sample_bold()
    ensures
        parse_line("**bold**".spec_bytes()) == seq![
            InlineView::Bold { text: "bold".spec_bytes() },
        ],
{
    reveal_strlit("**bold**");
    reveal_strlit("bold");
    is_ascii_spec_bytes("**bold**");
    is_ascii_spec_bytes("bold");
    let span = InlineView::Bold { text: "bold".spec_bytes() };
    assert("**bold**".spec_bytes() =~= write_span(span));
    law_pair_roundtrip(span);
}

/// `*italic*` is one italic span with the text `italic`.
pub proof fn sample_italic()
    ensures
        parse_line("*italic*".spec_bytes()) == seq![
            InlineView::Italic { text: "italic".spec_bytes() },
        ],
{
    reveal_strlit("*italic*");
    reveal_strlit("italic");
    is_ascii_spec_bytes("*italic*");
    is_ascii_spec_bytes("italic");
    let span = InlineView::Italic { text: "italic".spec_bytes() };
    assert("*italic*".spec_bytes() =~= write_span(span));
    law_pair_roundtrip(span);
}

/// `**a** *b*` is bold `a`, a plain space and italic `b`, in this order.
pub proof fn sample_bold_then_italic()
    ensures
        parse_line("**a** *b*".spec_bytes()) == seq![
            InlineView::Bold { text: "a".spec_bytes() },
            InlineView::Plain { text: " ".spec_bytes() },
            InlineView::Italic { text: "b".spec_bytes() },
        ],
{
    reveal_strlit("**a** *b*");
    reveal_strlit("a");
    reveal_strlit(" ");
    reveal_strlit("b");
    is_ascii_spec_bytes("**a** *b*");
    is_ascii_spec_bytes("a");
    is_ascii_spec_bytes(" ");
    is_ascii_spec_bytes("b");
    let bold = InlineView::Bold { text: "a".spec_bytes() };
    let space = InlineView::Plain { text: " ".spec_bytes() };
    let italic = InlineView::Italic { text: "b".spec_bytes() };
    let spans = seq![bold, space, italic];
    let empty = Seq::<InlineView>::empty();
    assert(spans.drop_first() =~= seq![space, italic]);
    assert(seq![space, italic].drop_first() =~= seq![italic]);
    assert(seq![italic].drop_first() =~= empty);
    reveal_with_fuel(write_line, 4);
    reveal_with_fuel(line_reads_back, 4);
    lemma_closes_first_without("a".spec_bytes(), STAR, 2);
    lemma_closes_first_without("b".spec_bytes(), STAR, 1);
    assert(write_line(seq![italic]) =~= write_span(italic));
    assert((" ".spec_bytes() + write_line(seq![italic]))[1] == STAR);
    assert("**a** *b*".spec_bytes() =~= write_line(spans));
    law_line_roundtrip(spans);
}

/// `Hello!` is plain `Hello` and a plain `!`: the `!` ends the plain text
/// and opens no image.
pub proof fn sample_bang()
    ensures
        parse_line("Hello!".spec_bytes()) == seq![
            InlineView::Plain { text: "Hello".spec_bytes() },
            InlineView::Plain { text: "!".spec_bytes() },
        ],
{
    reveal_strlit("Hello!");
    reveal_strlit("Hello");
    reveal_strlit("!");
    is_ascii_spec_bytes("Hello!");
    is_ascii_spec_bytes("Hello");
    is_ascii_spec_bytes("!");
    let word = InlineView::Plain { text: "Hello".spec_bytes() };
    let bang = InlineView::Plain { text: "!".spec_bytes() };
    let spans = seq![word, bang];
    let nothing = Seq::<u8>::empty();
    assert(spans.drop_first() =~= seq![bang]);
    assert(seq![bang].drop_first() =~= Seq::<InlineView>::empty());
    reveal_with_fuel(write_line, 3);
    reveal_with_fuel(line_reads_back, 3);
    assert("!".spec_bytes() =~= seq![BANG]);
    assert(write_line(seq![bang]) =~= "!".spec_bytes());
    assert("!".spec_bytes() + nothing =~= "!".spec_bytes());
    assert(link_image(nothing) is None);
    lemma_lone_bang(nothing);
    assert("Hello!".spec_bytes() =~= write_line(spans));
    law_line_roundtrip(spans);
}

/// `[alt](url)` is a link with the label `alt` and the target `url`.
pub proof fn sample_link()
    ensures
        parse_line("[alt](url)".spec_bytes()) == seq![
            InlineView::Link { label: "alt".spec_bytes(), target: "url".spec_bytes() },
        ],
{
    reveal_strlit("[alt](url)");
    reveal_strlit("alt");
    reveal_strlit("url");
    is_ascii_spec_bytes("[alt](url)");
    is_ascii_spec_bytes("alt");
    is_ascii_spec_bytes("url");
    let span = InlineView::Link { label: "alt".spec_bytes(), target: "url".spec_bytes() };
    assert("[alt](url)".spec_bytes() =~= write_span(span));
    law_pair_roundtrip(span);
}

/// `![alt](url)` is an image with the label `alt` and the target `url`.
pub proof fn sample_image()
    ensures
        parse_line("![alt](url)".spec_bytes()) == seq![
            InlineView::Image { label: "alt".spec_bytes(), target: "url".spec_bytes() },
        ],
{
    reveal_strlit("![alt](url)");
    reveal_strlit("alt");
    reveal_strlit("url");
    is_ascii_spec_bytes("![alt](url)");
    is_ascii_spec_bytes("alt");
    is_ascii_spec_bytes("url");
    let span = InlineView::Image { label: "alt".spec_bytes(), target: "url".spec_bytes() };
    assert("![alt](url)".spec_bytes() =~= write_span(span));
    law_pair_roundtrip(span);
}

/// Three lines that begin with `-` are one unordered list of three items,
/// in the order of the lines.
pub proof fn sample_unordered_list()
    ensures
        parse("- a\n- b\n- c\n".spec_bytes()) == Ok::<Seq<BlockView>, ParseError>(
            seq![
                BlockView::UnorderedList {
                    items: seq!["a".spec_bytes(), "b".spec_bytes(), "c".spec_bytes()],
                },
            ],
        ),
{
    reveal_strlit("- a\n- b\n- c\n");
    reveal_strlit("a");
    reveal_strlit("b");
    reveal_strlit("c");
    is_ascii_spec_bytes("- a\n- b\n- c\n");
    is_ascii_spec_bytes("a");
    is_ascii_spec_bytes("b");
    is_ascii_spec_bytes("c");
    let items = seq!["a".spec_bytes(), "b".spec_bytes(), "c".spec_bytes()];
    assert(items.drop_first() =~= seq!["b".spec_bytes(), "c".spec_bytes()]);
    assert(seq!["b".spec_bytes(), "c".spec_bytes()].drop_first() =~= seq!["c".spec_bytes()]);
    assert(seq!["c".spec_bytes()].drop_first() =~= Seq::<Seq<u8>>::empty());
    reveal_with_fuel(write_items, 4);
    assert("- a\n- b\n- c\n".spec_bytes() =~= write_items(Marker::Bullet, items));
    law_list_roundtrip(Marker::Bullet, items);
}

/// A line that begins with `-` and one that begins with `1.` are two
/// lists.
pub proof fn sample_two_lists()
    ensures
        parse("- a\n1. b\n".spec_bytes()) == Ok::<Seq<BlockView>, ParseError>(
            seq![
                BlockView::UnorderedList { items: seq!["a".spec_bytes()] },
                BlockView::OrderedList { items: seq!["b".spec_bytes()] },
            ],
        ),
{
    reveal_strlit("- a\n1. b\n");
    reveal_strlit("a");
    reveal_strlit("b");
    is_ascii_spec_bytes("- a\n1. b\n");
    is_ascii_spec_bytes("a");
    is_ascii_spec_bytes("b");
    let bullets = seq!["a".spec_bytes()];
    let numbers = seq!["b".spec_bytes()];
    assert(bullets.drop_first() =~= Seq::<Seq<u8>>::empty());
    assert(numbers.drop_first() =~= Seq::<Seq<u8>>::empty());
    reveal_with_fuel(write_items, 2);
    assert("- a\n1. b\n".spec_bytes() =~= write_items(Marker::Bullet, bullets) + write_items(
        Marker::Number,
        numbers,
    ));
    law_lists_split_at_marker(bullets, numbers);
}

/// A header of seven `#` has the level seven.
pub proof fn sample_headers()
    ensures
        parse("# a\n####### b\n".spec_bytes()) == Ok::<Seq<BlockView>, ParseError>(
            seq![
                BlockView::Header { level: 1, title: "a".spec_bytes() },
                BlockView::Header { level: 7, title: "b".spec_bytes() },
            ],
        ),
{
    reveal_strlit("# a\n####### b\n");
    reveal_strlit("a");
    reveal_strlit("b");
    is_ascii_spec_bytes("# a\n####### b\n");
    is_ascii_spec_bytes("a");
    is_ascii_spec_bytes("b");
    let first = Heading { level: 1, title: "a".spec_bytes() };
    let second = Heading { level: 7, title: "b".spec_bytes() };
    let headings = seq![first, second];
    assert(headings.drop_first() =~= seq![second]);
    assert(seq![second].drop_first() =~= Seq::<Heading>::empty());
    reveal_with_fuel(write_headings, 3);
    assert("# a\n####### b\n".spec_bytes() =~= write_headings(headings));
    law_headings_roundtrip(headings);
    assert(heading_blocks(headings) =~= seq![first.block(), second.block()]);
}

/// Code ends at the first three backticks behind it: what follows them
/// on the line is no longer code.
pub proof fn sample_fence_in_code()
    ensures
        source_code("```\na```b\n".spec_bytes()) == Some(
            (
                BlockView::SourceCode { language: "".spec_bytes(), code: "a".spec_bytes() },
                "b\n".spec_bytes(),
            ),
        ),
{
    reveal_strlit("```\na```b\n");
    reveal_strlit("");
    reveal_strlit("a");
    reveal_strlit("b\n");
    is_ascii_spec_bytes("```\na```b\n");
    is_ascii_spec_bytes("");
    is_ascii_spec_bytes("a");
    is_ascii_spec_bytes("b\n");
    let language = "".spec_bytes();
    let code = "a".spec_bytes();
    let rest = "b\n".spec_bytes();
    lemma_closes_first_without(code, BACKTICK, 3);
    assert("```\na```b\n".spec_bytes() =~= write_code(language, code) + rest);
    law_source_code_roundtrip(language, code, rest);
    lemma_run_end_is(rest, 0, Class::White, 0);
    assert(rest.skip(0) =~= rest);
}

} // verus!
