//! Blocks that are written and read back.

use crate::error::{ErrorKind, ParseError};
use crate::grammar::block::{
    equation, first_match, header, horizontal_rule, lemma_shown_first, marked, marked_block,
    marked_line, marked_lines, next_block, parse, parse_text, segment, shown, source_code,
    Marker, Stop,
};
use crate::grammar::inline::parse_line;
use crate::roundtrip::inline::{closes_first, copies};
use crate::scan::{
    find_run, in_class, lemma_find_run_is, lemma_run_end, lemma_run_end_behind,
    lemma_run_end_is, run_at, run_end, Class, BACKTICK, DASH, DOLLAR, DOT, GREATER, HASH,
    NEWLINE, ONE, SPACE,
};
use crate::tree::BlockView;
use vstd::prelude::*;

verus! {

/// A level and a title: what a header is made of.
pub struct Heading {
    pub level: int,
    pub title: Seq<u8>,
}

impl Heading {
    /// The header block with this level and title.
    pub open spec fn block(self) -> BlockView {
        BlockView::Header { level: self.level, title: self.title }
    }

    /// Whether the heading is read back as it is written: it has a level of
    /// one or more, and its title stays within the line and does not begin
    /// with a blank, which would be skipped.
    pub open spec fn reads_back(self) -> bool {
        &&& self.level >= 1
        &&& !self.title.contains(NEWLINE)
        &&& self.title.len() > 0 ==> !in_class(Class::Blank, self.title[0])
    }

    /// The line that stands for the heading: as many `#` as the level, a
    /// space, and the title. The newline is not part of it.
    pub open spec fn write(self) -> Seq<u8> {
        copies(HASH, self.level) + seq![SPACE] + self.title
    }
}

/// A heading that is written at the head of a line is read back with the
/// level and the title it was written with, however many `#` it has. The
/// newline, and what follows it, is left.
pub proof fn law_header_roundtrip(heading: Heading, rest: Seq<u8>)
    requires
        heading.reads_back(),
    ensures
        header(heading.write() + seq![NEWLINE] + rest) == Some(
            (heading.block(), seq![NEWLINE] + rest),
        ),
{
    let s = heading.write() + seq![NEWLINE] + rest;
    let level = heading.level;
    let title = heading.title;
    let start = level + 1;
    let end = start + title.len();
    assert forall|j: int| 0 <= j < level implies in_class(Class::Hash, #[trigger] s[j]) by {}
    assert(s[level] == SPACE);
    lemma_run_end_is(s, 0, Class::Hash, level);
    assert(s[end] == NEWLINE);
    if title.len() > 0 {
        assert(s[start] == title[0]);
    }
    lemma_run_end_is(s, level, Class::Blank, start);
    assert forall|j: int| start <= j < end implies !run_at(s, j, NEWLINE, 1) by {
        assert(s[j] == title[j - start]);
        assert(title.contains(title[j - start]));
    }
    assert(run_at(s, end, NEWLINE, 1));
    lemma_find_run_is(s, start, NEWLINE, 1, end);
    assert(s.subrange(start, end) =~= title);
    assert(s.skip(end) =~= seq![NEWLINE] + rest);
}

/// The document that stands for a sequence of headings: each heading on
/// a line of its own.
pub open spec fn write_headings(headings: Seq<Heading>) -> Seq<u8>
    decreases headings.len(),
{
    if headings.len() == 0 {
        Seq::empty()
    } else {
        headings[0].write() + seq![NEWLINE] + write_headings(headings.drop_first())
    }
}

/// The header blocks of a sequence of headings, in order.
pub open spec fn heading_blocks(headings: Seq<Heading>) -> Seq<BlockView> {
    Seq::new(headings.len(), |i: int| headings[i].block())
}

/// A newline before a header, or before the end of the input, is read as
/// a text line without a span.
pub proof fn lemma_newline_before_header(rest: Seq<u8>)
    requires
        rest.len() == 0 || rest[0] == HASH,
    ensures
        next_block(seq![NEWLINE] + rest) == Ok::<(BlockView, Seq<u8>), ErrorKind>(
            (BlockView::Line { items: Seq::empty() }, rest),
        ),
{
    let s = seq![NEWLINE] + rest;
    reveal_with_fuel(first_match, 9);
    assert(s[0] == NEWLINE);
    if rest.len() > 0 {
        assert(s[1] == rest[0]);
    }
    lemma_run_end_is(s, 0, Class::White, 1);
    assert(!run_at(s, 1, DASH, 3));
    assert(!run_at(s, 1, BACKTICK, 3));
    assert(!run_at(s, 1, DOLLAR, 3));
    assert(run_at(s, 0, NEWLINE, 1));
    assert(s.subrange(0, 0) =~= Seq::<u8>::empty());
    assert(s.skip(1) =~= rest);
}

/// A document of headings is read as its headings, each with the level
/// and the title it was written with, and as nothing else.
pub proof fn law_headings_roundtrip(headings: Seq<Heading>)
    requires
        forall|i: int| 0 <= i < headings.len() ==> (#[trigger] headings[i]).reads_back(),
    ensures
        parse(write_headings(headings)) == Ok::<Seq<BlockView>, ParseError>(
            heading_blocks(headings),
        ),
    decreases headings.len(),
{
    if headings.len() == 0 {
        assert(heading_blocks(headings) =~= Seq::<BlockView>::empty());
        assert(shown(Seq::<BlockView>::empty()) =~= Seq::<BlockView>::empty()) by {
            reveal_with_fuel(Seq::filter, 1);
        }
    } else {
        let first = headings[0];
        let others = headings.drop_first();
        let rest = write_headings(others);
        let s = write_headings(headings);
        let blank = BlockView::Line { items: Seq::empty() };
        law_headings_roundtrip(others);
        law_header_roundtrip(first, rest);
        assert(rest.len() == 0 || rest[0] == HASH) by {
            if others.len() > 0 {
                assert(others[0].reads_back());
                assert(rest[0] == copies(HASH, others[0].level)[0]);
            }
        }
        lemma_newline_before_header(rest);
        assert(s =~= first.write() + seq![NEWLINE] + rest);
        assert(first.write() + seq![NEWLINE] + rest =~= first.write() + (seq![NEWLINE] + rest));
        assert(next_block(s) == Ok::<(BlockView, Seq<u8>), ErrorKind>(
            (first.block(), seq![NEWLINE] + rest),
        ));
        let more = segment(rest)->Ok_0;
        assert(segment(rest) is Ok);
        assert(segment(seq![NEWLINE] + rest) == Ok::<Seq<BlockView>, Stop>(seq![blank] + more));
        assert(segment(s) == Ok::<Seq<BlockView>, Stop>(
            seq![first.block()] + (seq![blank] + more),
        ));
        lemma_shown_first(first.block(), seq![blank] + more);
        lemma_shown_first(blank, more);
        assert(seq![first.block()] + heading_blocks(others) =~= heading_blocks(headings));
    }
}

/// Whether a text is read back as the text of a marked line: it stays
/// within the line and does not begin with a blank, which would be skipped.
pub open spec fn item_reads_back(text: Seq<u8>) -> bool {
    !text.contains(NEWLINE) && (text.len() > 0 ==> !in_class(Class::Blank, text[0]))
}

/// A marker as it is written: `-` before an item of an unordered list,
/// `1.` before an item of an ordered list, `>` before a line of a quote.
pub open spec fn write_marker(marker: Marker) -> Seq<u8> {
    match marker {
        Marker::Bullet => seq![DASH],
        Marker::Number => seq![ONE, DOT],
        Marker::Quote => seq![GREATER],
    }
}

/// A marked line as it is written: the marker, a space, the text and a
/// newline.
pub open spec fn write_item(marker: Marker, text: Seq<u8>) -> Seq<u8> {
    write_marker(marker) + seq![SPACE] + text + seq![NEWLINE]
}

/// The lines that stand for the items of a list, or of a quote.
pub open spec fn write_items(marker: Marker, items: Seq<Seq<u8>>) -> Seq<u8>
    decreases items.len(),
{
    if items.len() == 0 {
        Seq::empty()
    } else {
        write_item(marker, items[0]) + write_items(marker, items.drop_first())
    }
}

/// Whether what follows a block of marked lines is left alone by the
/// block: it does not begin with a line of the same marker, nor, behind a
/// quote, with white space, which the quote would take.
pub open spec fn ends_marked(marker: Marker, rest: Seq<u8>) -> bool {
    &&& marked_line(rest, marker) is None
    &&& marker == Marker::Quote ==> rest.len() == 0 || !in_class(Class::White, rest[0])
}

/// A marked line that is written is read back with its text.
pub proof fn lemma_item_roundtrip(marker: Marker, text: Seq<u8>, rest: Seq<u8>)
    requires
        item_reads_back(text),
        marker == Marker::Quote ==> rest.len() == 0 || !in_class(Class::White, rest[0]),
    ensures
        marked_line(write_item(marker, text) + rest, marker) == Some((text, rest)),
{
    let s = write_item(marker, text) + rest;
    let from = write_marker(marker).len() as int;
    let start = from + 1;
    let end = start + text.len();
    assert(s[0] == write_marker(marker)[0]);
    assert(s[from] == SPACE);
    assert(s[end] == NEWLINE);
    match marker {
        Marker::Bullet => {},
        Marker::Number => {
            assert(s[1] == DOT);
            lemma_run_end_is(s, 0, Class::Digit, 1);
        },
        Marker::Quote => {
            lemma_run_end_is(s, 0, Class::White, 0);
            if rest.len() > 0 {
                assert(s[end + 1] == rest[0]);
            }
            lemma_run_end_is(s, end, Class::White, end + 1);
        },
    }
    if text.len() > 0 {
        assert(s[start] == text[0]);
    }
    lemma_run_end_is(s, from, Class::Blank, start);
    assert forall|j: int| start <= j < end implies !run_at(s, j, NEWLINE, 1) by {
        assert(s[j] == text[j - start]);
        assert(text.contains(text[j - start]));
    }
    assert(run_at(s, end, NEWLINE, 1));
    lemma_find_run_is(s, start, NEWLINE, 1, end);
    assert(s.subrange(start, end) =~= text);
    assert(s.skip(end + 1) =~= rest);
}

/// The first byte of marked lines that are written, where there are any,
/// is the first byte of the marker.
pub proof fn lemma_write_items_first(marker: Marker, items: Seq<Seq<u8>>)
    requires
        items.len() > 0,
    ensures
        write_items(marker, items).len() >= 3,
        write_items(marker, items)[0] == write_marker(marker)[0],
        write_items(marker, items)[1] == if marker == Marker::Number {
            DOT
        } else {
            SPACE
        },
{
    let first = write_item(marker, items[0]);
    assert(first[0] == write_marker(marker)[0]);
    assert(first[1] == if marker == Marker::Number {
        DOT
    } else {
        SPACE
    });
}

/// Marked lines that are written are read back, as many as were written.
proof fn lemma_items_roundtrip(marker: Marker, items: Seq<Seq<u8>>, rest: Seq<u8>)
    requires
        forall|i: int| 0 <= i < items.len() ==> item_reads_back(#[trigger] items[i]),
        ends_marked(marker, rest),
    ensures
        marked_lines(write_items(marker, items) + rest, marker) == (items, rest),
    decreases items.len(),
{
    if items.len() == 0 {
        assert(write_items(marker, items) + rest =~= rest);
    } else {
        let others = items.drop_first();
        let behind = write_items(marker, others) + rest;
        let s = write_items(marker, items) + rest;
        assert(s =~= write_item(marker, items[0]) + behind);
        lemma_items_roundtrip(marker, others, rest);
        if marker == Marker::Quote && others.len() > 0 {
            lemma_write_items_first(marker, others);
            assert(behind[0] == write_items(marker, others)[0]);
        }
        if others.len() == 0 {
            assert(behind =~= rest);
        }
        lemma_item_roundtrip(marker, items[0], behind);
        assert(seq![items[0]] + others =~= items);
    }
}

/// A list, or a quote, that is written line by line is read back as one
/// block with the same items in the same order, and what follows it is
/// left.
pub proof fn law_marked_roundtrip(marker: Marker, items: Seq<Seq<u8>>, rest: Seq<u8>)
    requires
        items.len() >= 1,
        forall|i: int| 0 <= i < items.len() ==> item_reads_back(#[trigger] items[i]),
        ends_marked(marker, rest),
    ensures
        marked(write_items(marker, items) + rest, marker) == Some(
            (marked_block(marker, items), rest),
        ),
{
    lemma_items_roundtrip(marker, items, rest);
}

/// The first rule that matches at the head of marked lines that are
/// written is the rule of their marker, for a list.
proof fn lemma_list_is_next_block(marker: Marker, items: Seq<Seq<u8>>, rest: Seq<u8>)
    requires
        marker != Marker::Quote,
        items.len() >= 1,
        forall|i: int| 0 <= i < items.len() ==> item_reads_back(#[trigger] items[i]),
        ends_marked(marker, rest),
    ensures
        next_block(write_items(marker, items) + rest) == Ok::<(BlockView, Seq<u8>), ErrorKind>(
            (marked_block(marker, items), rest),
        ),
{
    let s = write_items(marker, items) + rest;
    reveal_with_fuel(first_match, 5);
    lemma_write_items_first(marker, items);
    assert(s[0] == write_items(marker, items)[0]);
    assert(s[1] == write_items(marker, items)[1]);
    lemma_run_end_is(s, 0, Class::Hash, 0);
    lemma_run_end_is(s, 0, Class::White, 0);
    law_marked_roundtrip(marker, items, rest);
    if marker == Marker::Number {
        assert(marked_line(s, Marker::Bullet) is None);
    }
}

/// A document that is a list is read as one block with the items of the
/// list in their order.
pub proof fn law_list_roundtrip(marker: Marker, items: Seq<Seq<u8>>)
    requires
        marker != Marker::Quote,
        items.len() >= 1,
        forall|i: int| 0 <= i < items.len() ==> item_reads_back(#[trigger] items[i]),
    ensures
        parse(write_items(marker, items)) == Ok::<Seq<BlockView>, ParseError>(
            seq![marked_block(marker, items)],
        ),
{
    let s = write_items(marker, items);
    let empty = Seq::<u8>::empty();
    let list = marked_block(marker, items);
    assert(marked_line(empty, marker) is None) by {
        lemma_run_end_is(empty, 0, Class::Digit, 0);
    }
    lemma_list_is_next_block(marker, items, empty);
    assert(s + empty =~= s);
    lemma_write_items_first(marker, items);
    assert(segment(empty) == Ok::<Seq<BlockView>, Stop>(Seq::empty()));
    assert(segment(s) == Ok::<Seq<BlockView>, Stop>(seq![list] + Seq::empty()));
    lemma_shown_first(list, Seq::empty());
    assert(shown(Seq::<BlockView>::empty()) =~= Seq::<BlockView>::empty()) by {
        reveal_with_fuel(Seq::filter, 1);
    }
    assert(seq![list] + Seq::<BlockView>::empty() =~= seq![list]);
}

/// Items with different markers never share a block: an unordered list
/// that stands before an ordered list is read as two blocks, each with its
/// own items in their order.
pub proof fn law_lists_split_at_marker(bullets: Seq<Seq<u8>>, numbers: Seq<Seq<u8>>)
    requires
        bullets.len() >= 1,
        numbers.len() >= 1,
        forall|i: int| 0 <= i < bullets.len() ==> item_reads_back(#[trigger] bullets[i]),
        forall|i: int| 0 <= i < numbers.len() ==> item_reads_back(#[trigger] numbers[i]),
    ensures
        parse(write_items(Marker::Bullet, bullets) + write_items(Marker::Number, numbers)) == Ok::<
            Seq<BlockView>,
            ParseError,
        >(
            seq![
                BlockView::UnorderedList { items: bullets },
                BlockView::OrderedList { items: numbers },
            ],
        ),
{
    let second = write_items(Marker::Number, numbers);
    let s = write_items(Marker::Bullet, bullets) + second;
    let empty = Seq::<u8>::empty();
    let unordered = BlockView::UnorderedList { items: bullets };
    let ordered = BlockView::OrderedList { items: numbers };
    lemma_write_items_first(Marker::Number, numbers);
    assert(second[0] == ONE);
    assert(marked_line(second, Marker::Bullet) is None);
    assert(marked_line(empty, Marker::Number) is None) by {
        lemma_run_end_is(empty, 0, Class::Digit, 0);
    }
    lemma_list_is_next_block(Marker::Bullet, bullets, second);
    lemma_list_is_next_block(Marker::Number, numbers, empty);
    assert(second + empty =~= second);
    lemma_write_items_first(Marker::Bullet, bullets);
    assert(segment(empty) == Ok::<Seq<BlockView>, Stop>(Seq::empty()));
    assert(segment(second) == Ok::<Seq<BlockView>, Stop>(seq![ordered] + Seq::empty()));
    assert(seq![ordered] + Seq::<BlockView>::empty() =~= seq![ordered]);
    assert(segment(s) == Ok::<Seq<BlockView>, Stop>(seq![unordered] + seq![ordered]));
    lemma_shown_first(unordered, seq![ordered]);
    lemma_shown_first(ordered, Seq::empty());
    assert(shown(Seq::<BlockView>::empty()) =~= Seq::<BlockView>::empty()) by {
        reveal_with_fuel(Seq::filter, 1);
    }
    assert(seq![unordered] + (seq![ordered] + Seq::<BlockView>::empty()) =~= seq![
        unordered,
        ordered,
    ]);
}

/// Three copies of `mark`, a text that the fence behind it closes, and
/// that fence, with nothing but `head` before them: where the text begins
/// and where the closing fence is found.
proof fn lemma_fenced_text(head: Seq<u8>, mark: u8, text: Seq<u8>, rest: Seq<u8>)
    requires
        closes_first(text, mark, 3),
    ensures
        find_run(head + text + copies(mark, 3) + rest, head.len() as int, mark, 3) == Some(
            head.len() as int + text.len(),
        ),
        (head + text + copies(mark, 3) + rest).subrange(
            head.len() as int,
            head.len() as int + text.len(),
        ) == text,
        (head + text + copies(mark, 3) + rest).skip(
            run_end(
                head + text + copies(mark, 3) + rest,
                head.len() as int + text.len() + 3,
                Class::White,
            ),
        ) == rest.skip(run_end(rest, 0, Class::White)),
{
    let s = head + text + copies(mark, 3) + rest;
    let closed = text + copies(mark, 3);
    let start = head.len() as int;
    let close = start + text.len();
    assert(run_at(s, close, mark, 3));
    assert forall|j: int| start <= j < close implies !run_at(s, j, mark, 3) by {
        if run_at(s, j, mark, 3) {
            assert forall|i: int| j - start <= i < j - start + 3 implies closed[i] == mark by {
                assert(s[i + start] == mark);
                assert(closed[i] == s[i + start]);
            }
            assert(run_at(closed, j - start, mark, 3));
        }
    }
    lemma_find_run_is(s, start, mark, 3, close);
    assert(s.subrange(start, close) =~= text);
    let before = head + text + copies(mark, 3);
    lemma_run_end_behind(before, rest, 0, Class::White);
    lemma_run_end(rest, 0, Class::White);
    assert(s.skip(before.len() + run_end(rest, 0, Class::White)) =~= rest.skip(
        run_end(rest, 0, Class::White),
    ));
}

/// Source code as it is written: three backticks and the language on one
/// line, the code, and three backticks.
pub open spec fn write_code(language: Seq<u8>, code: Seq<u8>) -> Seq<u8> {
    copies(BACKTICK, 3) + language + seq![NEWLINE] + code + copies(BACKTICK, 3)
}

/// Whether a fenced text is read back as it is written: the fence behind
/// it is the first that stands there, and it does not begin with white
/// space, which would be dropped.
pub open spec fn fenced_reads_back(text: Seq<u8>, mark: u8) -> bool {
    closes_first(text, mark, 3) && (text.len() > 0 ==> !in_class(Class::White, text[0]))
}

/// Fenced source code that is written is read back with its language and
/// its code. The block ends with the first closing fence: what follows it
/// is left, without the white space at its head, for the blocks that come
/// next.
pub proof fn law_source_code_roundtrip(language: Seq<u8>, code: Seq<u8>, rest: Seq<u8>)
    requires
        !language.contains(NEWLINE),
        fenced_reads_back(code, BACKTICK),
    ensures
        source_code(write_code(language, code) + rest) == Some(
            (
                BlockView::SourceCode { language, code },
                rest.skip(run_end(rest, 0, Class::White)),
            ),
        ),
{
    let head = copies(BACKTICK, 3) + language + seq![NEWLINE];
    let s = write_code(language, code) + rest;
    let end_of_line = 3 + language.len() as int;
    let start = end_of_line + 1;
    assert(s =~= head + code + copies(BACKTICK, 3) + rest);
    assert(s[0] == BACKTICK);
    lemma_run_end_is(s, 0, Class::White, 0);
    assert(run_at(s, 0, BACKTICK, 3));
    assert(s[end_of_line] == NEWLINE);
    assert forall|j: int| 3 <= j < end_of_line implies !run_at(s, j, NEWLINE, 1) by {
        assert(s[j] == language[j - 3]);
        assert(language.contains(language[j - 3]));
    }
    assert(run_at(s, end_of_line, NEWLINE, 1));
    lemma_find_run_is(s, 3, NEWLINE, 1, end_of_line);
    assert(s[start] == (code + copies(BACKTICK, 3))[0]);
    if code.len() > 0 {
        assert(s[start] == code[0]);
    }
    lemma_run_end_is(s, end_of_line, Class::White, start);
    lemma_fenced_text(head, BACKTICK, code, rest);
    assert(s.subrange(3, end_of_line) =~= language);
}

/// An equation as it is written: the body between two fences of three
/// dollar signs.
pub open spec fn write_equation(body: Seq<u8>) -> Seq<u8> {
    copies(DOLLAR, 3) + body + copies(DOLLAR, 3)
}

/// An equation that is written is read back with its body, and ends with
/// the first closing fence.
pub proof fn law_equation_roundtrip(body: Seq<u8>, rest: Seq<u8>)
    requires
        fenced_reads_back(body, DOLLAR),
    ensures
        equation(write_equation(body) + rest) == Some(
            (BlockView::Equation { body }, rest.skip(run_end(rest, 0, Class::White))),
        ),
{
    let head = copies(DOLLAR, 3);
    let s = write_equation(body) + rest;
    assert(s[0] == DOLLAR);
    lemma_run_end_is(s, 0, Class::White, 0);
    assert(run_at(s, 0, DOLLAR, 3));
    assert(s[3] == (body + copies(DOLLAR, 3))[0]);
    if body.len() > 0 {
        assert(s[3] == body[0]);
    }
    lemma_run_end_is(s, 3, Class::White, 3);
    lemma_fenced_text(head, DOLLAR, body, rest);
}

/// Three dashes are read as a horizontal rule, and the white space behind
/// them belongs to it.
pub proof fn law_horizontal_rule_roundtrip(rest: Seq<u8>)
    ensures
        horizontal_rule(copies(DASH, 3) + rest) == Some(
            (BlockView::HorizontalRule, rest.skip(run_end(rest, 0, Class::White))),
        ),
{
    let s = copies(DASH, 3) + rest;
    assert(s[0] == DASH);
    lemma_run_end_is(s, 0, Class::White, 0);
    assert(run_at(s, 0, DASH, 3));
    lemma_run_end_behind(copies(DASH, 3), rest, 0, Class::White);
    lemma_run_end(rest, 0, Class::White);
    assert(s.skip(3 + run_end(rest, 0, Class::White)) =~= rest.skip(
        run_end(rest, 0, Class::White),
    ));
}

/// A line of text that ends with a newline is read as a text line with the
/// spans of the text before the newline; what follows the newline is left.
pub proof fn law_text_line_roundtrip(line: Seq<u8>, rest: Seq<u8>)
    requires
        !line.contains(NEWLINE),
    ensures
        parse_text(line + seq![NEWLINE] + rest) == Some(
            (BlockView::Line { items: parse_line(line) }, rest),
        ),
{
    let s = line + seq![NEWLINE] + rest;
    let end = line.len() as int;
    assert(s[end] == NEWLINE);
    assert forall|j: int| 0 <= j < end implies !run_at(s, j, NEWLINE, 1) by {
        assert(s[j] == line[j]);
        assert(line.contains(line[j]));
    }
    assert(run_at(s, end, NEWLINE, 1));
    lemma_find_run_is(s, 0, NEWLINE, 1, end);
    assert(s.subrange(0, end) =~= line);
    assert(s.skip(end + 1) =~= rest);
}

} // verus!
