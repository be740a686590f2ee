use parser::block::{
    equation, has_open_fence, header, horizontal_rule, line_text, marked, marked_line,
    marker_end, ordered_list, parse_text, quote, source_code, unordered_list,
};
use parser::grammar::block::Marker;
use parser::markdown::{apply, fence_mark, next_block};
use parser::{Block, BlockRule, ErrorKind, Inline, BLOCK_RULES};

fn plain_span(text: &str) -> Inline {
    Inline::Plain { text: text.to_string() }
}

#[test]
fn header_level_is_the_number_of_hashes() {
    assert_eq!(header("# a\n"), Some((Block::Header { level: 1, title: "a" }, "\n")));
    assert_eq!(header("## a\n"), Some((Block::Header { level: 2, title: "a" }, "\n")));
    assert_eq!(header("###### a\n"), Some((Block::Header { level: 6, title: "a" }, "\n")));
    assert_eq!(header("####### a\n"), Some((Block::Header { level: 7, title: "a" }, "\n")));
    assert_eq!(
        header("############ a\n"),
        Some((Block::Header { level: 12, title: "a" }, "\n"))
    );
}

#[test]
fn header_level_has_no_cap() {
    let hashes = "#".repeat(1000);
    let text = format!("{} deep\nrest", hashes);
    assert_eq!(
        header(&text),
        Some((Block::Header { level: 1000, title: "deep" }, "\nrest"))
    );
}

#[test]
fn header_title_runs_to_the_end_of_the_line() {
    assert_eq!(
        header("## A title, with words \nrest\n"),
        Some((Block::Header { level: 2, title: "A title, with words " }, "\nrest\n"))
    );
    assert_eq!(header("#a\n"), Some((Block::Header { level: 1, title: "a" }, "\n")));
    assert_eq!(header("# \t  a\n"), Some((Block::Header { level: 1, title: "a" }, "\n")));
    assert_eq!(header("#\n"), Some((Block::Header { level: 1, title: "" }, "\n")));
    assert_eq!(header("# # a\n"), Some((Block::Header { level: 1, title: "# a" }, "\n")));
    assert_eq!(header("# Über\n"), Some((Block::Header { level: 1, title: "Über" }, "\n")));
}

#[test]
fn header_needs_a_hash_and_a_newline() {
    assert_eq!(header("a\n"), None);
    assert_eq!(header(" # a\n"), None);
    assert_eq!(header("# a"), None);
    assert_eq!(header("#"), None);
    assert_eq!(header(""), None);
}

#[test]
fn horizontal_rule_takes_white_space_around_it() {
    assert_eq!(horizontal_rule("---"), Some((Block::HorizontalRule, "")));
    assert_eq!(horizontal_rule("---\n"), Some((Block::HorizontalRule, "")));
    assert_eq!(horizontal_rule(" \n\t---  \r\n\n  abc"), Some((Block::HorizontalRule, "abc")));
    assert_eq!(horizontal_rule("---abc\n"), Some((Block::HorizontalRule, "abc\n")));
    assert_eq!(horizontal_rule("----\n"), Some((Block::HorizontalRule, "-\n")));
}

#[test]
fn horizontal_rule_needs_three_dashes() {
    assert_eq!(horizontal_rule("--\n"), None);
    assert_eq!(horizontal_rule("- --\n"), None);
    assert_eq!(horizontal_rule("a---\n"), None);
    assert_eq!(horizontal_rule(""), None);
    assert_eq!(horizontal_rule("  \n"), None);
}

#[test]
fn unordered_list_keeps_items_in_order() {
    assert_eq!(
        unordered_list("- a\n- b\n- c\n"),
        Some((Block::UnorderedList { items: vec!["a", "b", "c"] }, ""))
    );
    assert_eq!(
        unordered_list("- a\n* b\n-c\n*  \td e\nrest\n"),
        Some((Block::UnorderedList { items: vec!["a", "b", "c", "d e"] }, "rest\n"))
    );
    assert_eq!(unordered_list("-\n"), Some((Block::UnorderedList { items: vec![""] }, "")));
}

#[test]
fn unordered_list_takes_dashes_as_an_item() {
    assert_eq!(
        unordered_list("- a\n---\n"),
        Some((Block::UnorderedList { items: vec!["a", "--"] }, ""))
    );
}

#[test]
fn unordered_list_stops_at_other_lines() {
    assert_eq!(
        unordered_list("- a\n1. b\n"),
        Some((Block::UnorderedList { items: vec!["a"] }, "1. b\n"))
    );
    assert_eq!(
        unordered_list("- a\n - b\n"),
        Some((Block::UnorderedList { items: vec!["a"] }, " - b\n"))
    );
    assert_eq!(
        unordered_list("- a\n\n- b\n"),
        Some((Block::UnorderedList { items: vec!["a"] }, "\n- b\n"))
    );
    assert_eq!(
        unordered_list("- a\n- b"),
        Some((Block::UnorderedList { items: vec!["a"] }, "- b"))
    );
}

#[test]
fn unordered_list_needs_a_marked_line() {
    assert_eq!(unordered_list("a\n"), None);
    assert_eq!(unordered_list(" - a\n"), None);
    assert_eq!(unordered_list("- a"), None);
    assert_eq!(unordered_list("1. a\n"), None);
    assert_eq!(unordered_list(""), None);
}

#[test]
fn ordered_list_drops_the_numbers() {
    assert_eq!(
        ordered_list("1. a\n2. b\n3. c\n"),
        Some((Block::OrderedList { items: vec!["a", "b", "c"] }, ""))
    );
    assert_eq!(
        ordered_list("7) a\n007.b\n12345678901234567890123) \t c\nrest"),
        Some((Block::OrderedList { items: vec!["a", "b", "c"] }, "rest"))
    );
    assert_eq!(ordered_list("0.\n"), Some((Block::OrderedList { items: vec![""] }, "")));
}

#[test]
fn ordered_list_stops_at_other_lines() {
    assert_eq!(
        ordered_list("1. a\n- b\n"),
        Some((Block::OrderedList { items: vec!["a"] }, "- b\n"))
    );
    assert_eq!(
        ordered_list("1. a\n2 b\n"),
        Some((Block::OrderedList { items: vec!["a"] }, "2 b\n"))
    );
}

#[test]
fn ordered_list_needs_digits_and_a_point() {
    assert_eq!(ordered_list("a. b\n"), None);
    assert_eq!(ordered_list(". b\n"), None);
    assert_eq!(ordered_list("1 b\n"), None);
    assert_eq!(ordered_list("1: b\n"), None);
    assert_eq!(ordered_list("1"), None);
    assert_eq!(ordered_list("1. b"), None);
    assert_eq!(ordered_list(" 1. b\n"), None);
    assert_eq!(ordered_list("١. b\n"), None);
    assert_eq!(ordered_list(""), None);
}

#[test]
fn quote_takes_white_space_between_its_lines() {
    assert_eq!(
        quote("> a\n> b\n"),
        Some((Block::Quote { items: vec!["a", "b"] }, ""))
    );
    assert_eq!(
        quote("  > a\n>b\n\n \t>  c d\n\n rest\n"),
        Some((Block::Quote { items: vec!["a", "b", "c d"] }, "rest\n"))
    );
    assert_eq!(quote(">\n"), Some((Block::Quote { items: vec![""] }, "")));
    assert_eq!(quote("> > a\n"), Some((Block::Quote { items: vec!["> a"] }, "")));
}

#[test]
fn quote_needs_a_marked_line() {
    assert_eq!(quote("a\n"), None);
    assert_eq!(quote("> a"), None);
    assert_eq!(quote(""), None);
    assert_eq!(quote("   "), None);
}

#[test]
fn source_code_has_language_and_code() {
    assert_eq!(
        source_code("```rust\nfn main() {}\n```\n"),
        Some((Block::SourceCode { language: "rust", code: "fn main() {}\n" }, ""))
    );
    assert_eq!(
        source_code("```\ncode\n```"),
        Some((Block::SourceCode { language: "", code: "code\n" }, ""))
    );
    assert_eq!(
        source_code("\n  ```c++ -O2\n\n   x = 1;\n  y = 2;```  \n\nrest"),
        Some((Block::SourceCode { language: "c++ -O2", code: "x = 1;\n  y = 2;" }, "rest"))
    );
    assert_eq!(
        source_code("```\n```"),
        Some((Block::SourceCode { language: "", code: "" }, ""))
    );
}

#[test]
fn source_code_ends_at_the_first_closing_fence() {
    assert_eq!(
        source_code("```\na```b\n```\n"),
        Some((Block::SourceCode { language: "", code: "a" }, "b\n```\n"))
    );
    assert_eq!(
        source_code("```text\nlet fence = \"```\";\nrest\n"),
        Some((Block::SourceCode { language: "text", code: "let fence = \"" }, "\";\nrest\n"))
    );
    assert_eq!(
        source_code("```\na````"),
        Some((Block::SourceCode { language: "", code: "a" }, "`"))
    );
    assert_eq!(
        source_code("```\na`` ```"),
        Some((Block::SourceCode { language: "", code: "a`` " }, ""))
    );
}

#[test]
fn source_code_needs_both_fences() {
    assert_eq!(source_code("```rust\ncode\n"), None);
    assert_eq!(source_code("```rust code```"), None);
    assert_eq!(source_code("```\n``"), None);
    assert_eq!(source_code("``\ncode\n```"), None);
    assert_eq!(source_code("a```\ncode\n```"), None);
    assert_eq!(source_code(""), None);
}

#[test]
fn equation_has_a_body() {
    assert_eq!(
        equation("$$$\nE = mc^2\n$$$\n"),
        Some((Block::Equation { body: "E = mc^2\n" }, ""))
    );
    assert_eq!(equation("$$$a$$$"), Some((Block::Equation { body: "a" }, "")));
    assert_eq!(
        equation(" \n$$$  \n a $ b $$ c$$$ \n rest"),
        Some((Block::Equation { body: "a $ b $$ c" }, "rest"))
    );
    assert_eq!(equation("$$$$$$"), Some((Block::Equation { body: "" }, "")));
    assert_eq!(equation("$$$a$$$$"), Some((Block::Equation { body: "a" }, "$")));
}

#[test]
fn equation_needs_both_fences() {
    assert_eq!(equation("$$$\nE\n"), None);
    assert_eq!(equation("$$\nE\n$$$"), None);
    assert_eq!(equation("$$$ a $$"), None);
    assert_eq!(equation("a$$$b$$$"), None);
    assert_eq!(equation(""), None);
}

#[test]
fn text_line_takes_its_newline() {
    assert_eq!(
        parse_text("a *b*\nrest"),
        Some((
            Block::Line {
                items: vec![plain_span("a "), Inline::Italic { text: "b".to_string() }],
            },
            "rest"
        ))
    );
    assert_eq!(parse_text("\nrest"), Some((Block::Line { items: vec![] }, "rest")));
    assert_eq!(parse_text("  \n"), Some((Block::Line { items: vec![plain_span("  ")] }, "")));
}

#[test]
fn text_line_spans_stay_in_the_line() {
    assert_eq!(
        parse_text("a *b\nc* d\n"),
        Some((
            Block::Line { items: vec![plain_span("a "), plain_span("*"), plain_span("b")] },
            "c* d\n"
        ))
    );
}

#[test]
fn text_line_needs_a_newline() {
    assert_eq!(parse_text("abc"), None);
    assert_eq!(parse_text(""), None);
}

#[test]
fn line_text_skips_blanks_only() {
    assert_eq!(line_text(b"- \t a b \nc", 1), Some((4, 8)));
    assert_eq!(line_text(b"-\nc", 1), Some((1, 1)));
    assert_eq!(line_text(b"- \r\nc", 1), Some((2, 3)));
    assert_eq!(line_text(b"- abc", 1), None);
    assert_eq!(line_text(b"-", 1), None);
}

#[test]
fn marker_end_of_each_marker() {
    assert_eq!(marker_end(b"- a", Marker::Bullet), Some(1));
    assert_eq!(marker_end(b"*a", Marker::Bullet), Some(1));
    assert_eq!(marker_end(b"+ a", Marker::Bullet), None);
    assert_eq!(marker_end(b"", Marker::Bullet), None);
    assert_eq!(marker_end(b"12. a", Marker::Number), Some(3));
    assert_eq!(marker_end(b"12) a", Marker::Number), Some(3));
    assert_eq!(marker_end(b"12", Marker::Number), None);
    assert_eq!(marker_end(b". a", Marker::Number), None);
    assert_eq!(marker_end(b"> a", Marker::Quote), Some(1));
    assert_eq!(marker_end(b" \n > a", Marker::Quote), Some(4));
    assert_eq!(marker_end(b" \n a", Marker::Quote), None);
    assert_eq!(marker_end(b" \n ", Marker::Quote), None);
}

#[test]
fn marked_line_ends_behind_its_newline() {
    assert_eq!(marked_line("- a\n b", Marker::Bullet), Some(("a", " b")));
    assert_eq!(marked_line("1. a\n b", Marker::Number), Some(("a", " b")));
    assert_eq!(marked_line("> a\n\n b", Marker::Quote), Some(("a", "b")));
    assert_eq!(marked_line("> a\n", Marker::Bullet), None);
}

#[test]
fn marked_gives_the_block_of_the_marker() {
    assert_eq!(
        marked("- a\n", Marker::Bullet),
        Some((Block::UnorderedList { items: vec!["a"] }, ""))
    );
    assert_eq!(
        marked("1. a\n", Marker::Number),
        Some((Block::OrderedList { items: vec!["a"] }, ""))
    );
    assert_eq!(marked("> a\n", Marker::Quote), Some((Block::Quote { items: vec!["a"] }, "")));
    assert_eq!(marked("a\n", Marker::Quote), None);
}

#[test]
fn fences_open_behind_white_space() {
    assert!(has_open_fence(b"```", b'`'));
    assert!(has_open_fence(b" \n\t```rust", b'`'));
    assert!(!has_open_fence(b"``", b'`'));
    assert!(!has_open_fence(b"a```", b'`'));
    assert!(has_open_fence(b"\n$$$", b'$'));
    assert!(!has_open_fence(b"\n$$$", b'`'));
    assert_eq!(fence_mark(BlockRule::SourceCode), Some(b'`'));
    assert_eq!(fence_mark(BlockRule::Equation), Some(b'$'));
    assert_eq!(fence_mark(BlockRule::Header), None);
    assert_eq!(fence_mark(BlockRule::HorizontalRule), None);
    assert_eq!(fence_mark(BlockRule::UnorderedList), None);
    assert_eq!(fence_mark(BlockRule::OrderedList), None);
    assert_eq!(fence_mark(BlockRule::Quote), None);
    assert_eq!(fence_mark(BlockRule::TextLine), None);
}

#[test]
fn block_rules_are_tried_in_their_order() {
    assert_eq!(
        BLOCK_RULES,
        [
            BlockRule::Header,
            BlockRule::HorizontalRule,
            BlockRule::UnorderedList,
            BlockRule::OrderedList,
            BlockRule::SourceCode,
            BlockRule::Equation,
            BlockRule::Quote,
            BlockRule::TextLine,
        ]
    );
}

#[test]
fn apply_reads_with_the_given_rule() {
    assert_eq!(
        apply(BlockRule::Header, "# a\n"),
        Some((Block::Header { level: 1, title: "a" }, "\n"))
    );
    assert_eq!(apply(BlockRule::HorizontalRule, "---\n"), Some((Block::HorizontalRule, "")));
    assert_eq!(
        apply(BlockRule::UnorderedList, "- a\n"),
        Some((Block::UnorderedList { items: vec!["a"] }, ""))
    );
    assert_eq!(
        apply(BlockRule::OrderedList, "1. a\n"),
        Some((Block::OrderedList { items: vec!["a"] }, ""))
    );
    assert_eq!(
        apply(BlockRule::SourceCode, "```\na```"),
        Some((Block::SourceCode { language: "", code: "a" }, ""))
    );
    assert_eq!(
        apply(BlockRule::Equation, "$$$a$$$"),
        Some((Block::Equation { body: "a" }, ""))
    );
    assert_eq!(apply(BlockRule::Quote, "> a\n"), Some((Block::Quote { items: vec!["a"] }, "")));
    assert_eq!(
        apply(BlockRule::TextLine, "a\n"),
        Some((Block::Line { items: vec![plain_span("a")] }, ""))
    );
    assert_eq!(apply(BlockRule::TextLine, "# a"), None);
}

#[test]
fn a_line_that_fits_two_rules_goes_to_the_first() {
    // a text line would take each of these too
    assert_eq!(
        next_block("# a\n"),
        Ok((Block::Header { level: 1, title: "a" }, "\n"))
    );
    assert_eq!(next_block("---\n- a\n"), Ok((Block::HorizontalRule, "- a\n")));
    assert_eq!(
        next_block("*a* b\n"),
        Ok((Block::UnorderedList { items: vec!["a* b"] }, ""))
    );
    assert_eq!(
        next_block("**bold**\n"),
        Ok((Block::UnorderedList { items: vec!["*bold**"] }, ""))
    );
    assert_eq!(
        next_block("1. a\n"),
        Ok((Block::OrderedList { items: vec!["a"] }, ""))
    );
    assert_eq!(next_block("$$$a$$$\n"), Ok((Block::Equation { body: "a" }, "")));
    assert_eq!(next_block("> a\n"), Ok((Block::Quote { items: vec!["a"] }, "")));
    assert_eq!(
        next_block("$a$ b\n"),
        Ok((
            Block::Line { items: vec![Inline::Math { text: "a".to_string() }, plain_span(" b")] },
            ""
        ))
    );
}

#[test]
fn next_block_fails_where_nothing_matches() {
    assert_eq!(next_block("abc"), Err(ErrorKind::GrammarMismatch));
    assert_eq!(next_block(""), Err(ErrorKind::GrammarMismatch));
    assert_eq!(next_block("# a"), Err(ErrorKind::GrammarMismatch));
    assert_eq!(next_block("- a"), Err(ErrorKind::GrammarMismatch));
}

#[test]
fn next_block_fails_at_a_fence_that_is_not_closed() {
    assert_eq!(
        next_block("```rust\ncode\n"),
        Err(ErrorKind::MalformedFence { rule: BlockRule::SourceCode })
    );
    assert_eq!(
        next_block("\n  ```"),
        Err(ErrorKind::MalformedFence { rule: BlockRule::SourceCode })
    );
    assert_eq!(
        next_block("$$$\nE\n$$\n"),
        Err(ErrorKind::MalformedFence { rule: BlockRule::Equation })
    );
    assert_eq!(
        next_block("```a```\n"),
        Err(ErrorKind::MalformedFence { rule: BlockRule::SourceCode })
    );
}
