use parser::{parse, parse_block, Block, BlockRule, ErrorKind, Inline, ParseError};

fn plain_span(text: &str) -> Inline {
    Inline::Plain { text: text.to_string() }
}

fn line(items: Vec<Inline>) -> Block<'static> {
    Block::Line { items }
}

#[test]
fn empty_document_has_no_block() {
    assert_eq!(parse(""), Ok(vec![]));
    assert_eq!(parse_block(""), Ok(vec![]));
}

#[test]
fn header_and_line() {
    assert_eq!(
        parse("# Title\nsome *text*\n"),
        Ok(vec![
            Block::Header { level: 1, title: "Title" },
            line(vec![plain_span("some "), Inline::Italic { text: "text".to_string() }]),
        ])
    );
}

#[test]
fn headers_of_every_level() {
    let mut text = String::new();
    for level in 1..=12 {
        text.push_str(&"#".repeat(level));
        text.push_str(" Title\n");
    }
    let blocks = parse(&text).unwrap();
    assert_eq!(blocks.len(), 12);
    for (index, block) in blocks.iter().enumerate() {
        assert_eq!(*block, Block::Header { level: index + 1, title: "Title" });
    }
}

#[test]
fn header_newline_is_a_blank_line() {
    assert_eq!(
        parse_block("# a\n# b\n"),
        Ok(vec![
            Block::Header { level: 1, title: "a" },
            line(vec![]),
            Block::Header { level: 1, title: "b" },
            line(vec![]),
        ])
    );
    assert_eq!(
        parse("# a\n# b\n"),
        Ok(vec![Block::Header { level: 1, title: "a" }, Block::Header { level: 1, title: "b" }])
    );
}

#[test]
fn blank_lines_leave_nothing() {
    assert_eq!(
        parse("a\n\n\nb\n\n"),
        Ok(vec![line(vec![plain_span("a")]), line(vec![plain_span("b")])])
    );
    assert_eq!(
        parse_block("a\n\n\nb\n\n"),
        Ok(vec![
            line(vec![plain_span("a")]),
            line(vec![]),
            line(vec![]),
            line(vec![plain_span("b")]),
            line(vec![]),
        ])
    );
    assert_eq!(parse("\n\n\n"), Ok(vec![]));
    assert_eq!(parse_block("\n\n"), Ok(vec![line(vec![]), line(vec![])]));
}

#[test]
fn no_empty_line_in_any_tree() {
    let texts = [
        "\n",
        "a\n\nb\n",
        "# a\n\n\n- b\n\n1. c\n\n",
        "\n\n---\n\n\n> q\n\n\n",
        "```\ncode\n```\n\n\ntext\n\n",
    ];
    for text in texts {
        let blocks = parse(text).unwrap();
        for block in &blocks {
            assert_ne!(*block, line(vec![]));
        }
    }
}

#[test]
fn unordered_list_is_one_block() {
    assert_eq!(
        parse("- a\n- b\n- c\n"),
        Ok(vec![Block::UnorderedList { items: vec!["a", "b", "c"] }])
    );
}

#[test]
fn lists_split_at_marker_boundary() {
    assert_eq!(
        parse("- a\n1. b\n"),
        Ok(vec![
            Block::UnorderedList { items: vec!["a"] },
            Block::OrderedList { items: vec!["b"] },
        ])
    );
    assert_eq!(
        parse("- a\n- b\n1. c\n2. d\n* e\n"),
        Ok(vec![
            Block::UnorderedList { items: vec!["a", "b"] },
            Block::OrderedList { items: vec!["c", "d"] },
            Block::UnorderedList { items: vec!["e"] },
        ])
    );
}

#[test]
fn fence_ends_at_first_closing_fence() {
    assert_eq!(
        parse("```\na```b\n"),
        Ok(vec![
            Block::SourceCode { language: "", code: "a" },
            line(vec![plain_span("b")]),
        ])
    );
    assert_eq!(
        parse("```sh\necho '```' done\n"),
        Ok(vec![
            Block::SourceCode { language: "sh", code: "echo '" },
            line(vec![plain_span("' done")]),
        ])
    );
}

#[test]
fn fence_left_open_behind_a_closed_one_fails() {
    assert_eq!(
        parse("```\ncode with ``` inside\n```\n"),
        Err(ParseError {
            kind: ErrorKind::MalformedFence { rule: BlockRule::SourceCode },
            position: 25,
        })
    );
}

#[test]
fn whole_document() {
    let text = "# Title\n\
                \n\
                Some **bold** and *italic* text with `code`.\n\
                ---\n\
                - first\n\
                - second\n\
                1. one\n\
                2) two\n\
                > quoted\n\
                > again\n\
                \n\
                ```rust\n\
                fn main() {}\n\
                ```\n\
                $$$\n\
                a^2 + b^2\n\
                $$$\n\
                ## End ![logo](logo.png) [home](/)\n\
                see [home](/) and ![logo](logo.png)\n";
    assert_eq!(
        parse(text),
        Ok(vec![
            Block::Header { level: 1, title: "Title" },
            line(vec![
                plain_span("Some "),
                Inline::Bold { text: "bold".to_string() },
                plain_span(" and "),
                Inline::Italic { text: "italic".to_string() },
                plain_span(" text with "),
                Inline::Pre { text: "code".to_string() },
                plain_span("."),
            ]),
            Block::HorizontalRule,
            Block::UnorderedList { items: vec!["first", "second"] },
            Block::OrderedList { items: vec!["one", "two"] },
            Block::Quote { items: vec!["quoted", "again"] },
            Block::SourceCode { language: "rust", code: "fn main() {}\n" },
            Block::Equation { body: "a^2 + b^2\n" },
            Block::Header { level: 2, title: "End ![logo](logo.png) [home](/)" },
            line(vec![
                plain_span("see "),
                Inline::Link { label: "home".to_string(), target: "/".to_string() },
                plain_span(" and "),
                Inline::Image { label: "logo".to_string(), target: "logo.png".to_string() },
            ]),
        ])
    );
}

#[test]
fn header_newline_goes_to_the_rule_behind_it() {
    assert_eq!(
        parse_block("# a\n---\n"),
        Ok(vec![Block::Header { level: 1, title: "a" }, Block::HorizontalRule])
    );
    assert_eq!(
        parse_block("# a\n> q\n"),
        Ok(vec![Block::Header { level: 1, title: "a" }, Block::Quote { items: vec!["q"] }])
    );
    assert_eq!(
        parse_block("# a\n- b\n"),
        Ok(vec![
            Block::Header { level: 1, title: "a" },
            line(vec![]),
            Block::UnorderedList { items: vec!["b"] },
        ])
    );
}

#[test]
fn line_that_begins_with_a_star_is_a_list_item() {
    assert_eq!(parse("**bold**\n"), Ok(vec![Block::UnorderedList { items: vec!["*bold**"] }]));
    assert_eq!(
        parse("a **bold**\n"),
        Ok(vec![line(vec![plain_span("a "), Inline::Bold { text: "bold".to_string() }])])
    );
}

#[test]
fn text_beyond_ascii_in_every_block() {
    assert_eq!(
        parse("# Żółw\n- ä\n1. ö\n> ü\n```日本\n語\n```\n$$$\nπ\n$$$\nça *va*\n"),
        Ok(vec![
            Block::Header { level: 1, title: "Żółw" },
            Block::UnorderedList { items: vec!["ä"] },
            Block::OrderedList { items: vec!["ö"] },
            Block::Quote { items: vec!["ü"] },
            Block::SourceCode { language: "日本", code: "語\n" },
            Block::Equation { body: "π\n" },
            line(vec![plain_span("ça "), Inline::Italic { text: "va".to_string() }]),
        ])
    );
}

#[test]
fn texts_are_pieces_of_the_input() {
    let text = String::from("# Title\n");
    let blocks = parse(&text).unwrap();
    match &blocks[0] {
        Block::Header { title, .. } => {
            let start = title.as_ptr() as usize - text.as_ptr() as usize;
            assert_eq!(start, 2);
            assert_eq!(&text[start..start + title.len()], "Title");
        }
        other => panic!("not a header: {:?}", other),
    }
}

fn texts_of<'a>(block: &Block<'a>) -> Vec<&'a str> {
    match block {
        Block::HorizontalRule | Block::Line { .. } => vec![],
        Block::Header { title, .. } => vec![*title],
        Block::Equation { body } => vec![*body],
        Block::SourceCode { language, code } => vec![*language, *code],
        Block::UnorderedList { items } | Block::OrderedList { items } | Block::Quote { items } => {
            items.clone()
        }
    }
}

#[test]
fn texts_follow_each_other_in_the_input() {
    let text = String::from(
        "# a\n\n- b\n- c\n1. d\n> e\n> f\n```g\nh\n```\n\
         $$$\ni\n$$$\n## j\nk *l*\n---\n- m\n",
    );
    let blocks = parse(&text).unwrap();
    let mut end = 0;
    let mut count = 0;
    for block in &blocks {
        for piece in texts_of(block) {
            let start = piece.as_ptr() as usize - text.as_ptr() as usize;
            assert!(start >= end);
            end = start + piece.len();
            assert!(end <= text.len());
            assert_eq!(&text[start..end], piece);
            count += 1;
        }
    }
    assert_eq!(count, 11);
}

#[test]
fn same_input_gives_same_tree() {
    let texts = ["# a\n- b\n\n*c* d\n", "", "abc", "```\nopen\n", "1. a\n2. b\n> c\n"];
    for text in texts {
        assert_eq!(parse(text), parse(text));
        assert_eq!(parse_block(text), parse_block(text));
    }
}

#[test]
fn last_line_without_newline_fails() {
    assert_eq!(
        parse("# Title\nrest"),
        Err(ParseError { kind: ErrorKind::GrammarMismatch, position: 8 })
    );
    assert_eq!(parse("abc"), Err(ParseError { kind: ErrorKind::GrammarMismatch, position: 0 }));
    assert_eq!(
        parse("a\nb\nc"),
        Err(ParseError { kind: ErrorKind::GrammarMismatch, position: 4 })
    );
    assert_eq!(
        parse("# Title"),
        Err(ParseError { kind: ErrorKind::GrammarMismatch, position: 0 })
    );
    assert_eq!(
        parse_block("ż\nrest"),
        Err(ParseError { kind: ErrorKind::GrammarMismatch, position: 3 })
    );
}

#[test]
fn rule_and_fences_need_no_last_newline() {
    assert_eq!(parse("a\n---"), Ok(vec![line(vec![plain_span("a")]), Block::HorizontalRule]));
    assert_eq!(parse("$$$a$$$"), Ok(vec![Block::Equation { body: "a" }]));
    assert_eq!(
        parse("```\na\n```"),
        Ok(vec![Block::SourceCode { language: "", code: "a\n" }])
    );
}

#[test]
fn open_fence_fails() {
    assert_eq!(
        parse("```rust\ncode\n"),
        Err(ParseError {
            kind: ErrorKind::MalformedFence { rule: BlockRule::SourceCode },
            position: 0,
        })
    );
    assert_eq!(
        parse("x\n$$$\nE\n"),
        Err(ParseError {
            kind: ErrorKind::MalformedFence { rule: BlockRule::Equation },
            position: 2,
        })
    );
    assert_eq!(
        parse("# a\n\n```\n"),
        Err(ParseError {
            kind: ErrorKind::MalformedFence { rule: BlockRule::SourceCode },
            position: 3,
        })
    );
}

#[test]
fn failure_hands_out_no_block() {
    assert!(parse("# good\n- good\nbad").is_err());
    assert!(parse_block("# good\n- good\nbad").is_err());
}

#[test]
fn failure_names_the_rules_that_were_tried() {
    let mismatch = parse("abc").unwrap_err();
    assert_eq!(
        mismatch.attempted(),
        vec![
            BlockRule::Header,
            BlockRule::HorizontalRule,
            BlockRule::UnorderedList,
            BlockRule::OrderedList,
            BlockRule::SourceCode,
            BlockRule::Equation,
            BlockRule::Quote,
            BlockRule::TextLine,
        ]
    );
    let code = parse("```\n").unwrap_err();
    assert_eq!(
        code.attempted(),
        vec![
            BlockRule::Header,
            BlockRule::HorizontalRule,
            BlockRule::UnorderedList,
            BlockRule::OrderedList,
            BlockRule::SourceCode,
        ]
    );
    let equation = parse("$$$\n").unwrap_err();
    assert_eq!(
        equation.attempted(),
        vec![
            BlockRule::Header,
            BlockRule::HorizontalRule,
            BlockRule::UnorderedList,
            BlockRule::OrderedList,
            BlockRule::SourceCode,
            BlockRule::Equation,
        ]
    );
}

#[test]
fn empty_line_is_told_from_other_blocks() {
    assert!(line(vec![]).is_empty_line());
    assert!(!line(vec![plain_span(" ")]).is_empty_line());
    assert!(!Block::HorizontalRule.is_empty_line());
    assert!(!Block::UnorderedList { items: vec![] }.is_empty_line());
    assert!(!Block::Header { level: 1, title: "" }.is_empty_line());
}

#[test]
fn long_input_of_lone_marks() {
    let text = format!("{}\n", "*a".repeat(2000));
    let blocks = parse(&text).unwrap();
    assert_eq!(blocks.len(), 1);
    match &blocks[0] {
        Block::UnorderedList { items } => assert_eq!(items[0].len(), 3999),
        other => panic!("not a list: {:?}", other),
    }
    let text = format!("x{}\n", "*a".repeat(2001));
    let blocks = parse(&text).unwrap();
    match &blocks[0] {
        Block::Line { items } => assert_eq!(items.len(), 2003),
        other => panic!("not a line: {:?}", other),
    }
}

#[test]
fn only_a_last_line_without_newline_mismatches() {
    let texts = [
        "a\n",
        "*\n",
        "# a\n- b\n1. c\n> d\n",
        "[a](b\n",
        "```\n",
        "$$$ a\n",
        "  \n\t\n",
        "````\n",
        "- a\n--\n",
    ];
    for text in texts {
        match parse(text) {
            Ok(_) => {}
            Err(error) => assert_ne!(error.kind, ErrorKind::GrammarMismatch, "{:?}", text),
        }
    }
    for text in ["a", "a\nb", "# a\n#", "- a\n- b", "> a\n>"] {
        assert_eq!(parse(text).unwrap_err().kind, ErrorKind::GrammarMismatch, "{:?}", text);
    }
}

#[test]
fn failure_is_where_no_block_is_read() {
    for text in ["a\nb\nc", "# a\n- b\n```\nc\n", "---\n$$$ x\n", "> q\n\n  x"] {
        let error = parse(text).unwrap_err();
        assert!(error.position < text.len());
        assert_eq!(
            parser::markdown::next_block(&text[error.position..]).unwrap_err(),
            error.kind
        );
    }
}

#[test]
fn blocks_of_a_tree_are_well_formed() {
    let text = "# a\n\n- b\n- c\n1. d\n> e\n```f\ng\n```\n$$$\nh\n$$$\ni *j*\n";
    for block in parse(text).unwrap() {
        match block {
            Block::Header { level, title } => {
                assert!(level >= 1);
                assert!(!title.contains('\n'));
            }
            Block::UnorderedList { items }
            | Block::OrderedList { items }
            | Block::Quote { items } => {
                assert!(!items.is_empty());
                assert!(items.iter().all(|item| !item.contains('\n')));
            }
            Block::SourceCode { language, code } => {
                assert!(!language.contains('\n'));
                assert!(!code.contains("```"));
            }
            Block::Equation { body } => assert!(!body.contains("$$$")),
            Block::Line { items } => assert!(!items.is_empty()),
            Block::HorizontalRule => {}
        }
    }
}
