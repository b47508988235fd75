use snippets::document::fragment::Fragment;
use snippets::document::line::Line;
use snippets::document::mdconverter::{parse, pad_text, Alignment};
use snippets::document::span::Span;
use snippets::document::style::Style;
use snippets::document::theme::Theme;
use snippets::document::word::Word;

fn no_highlighting(_language: &Option<String>, _source: &String) -> Vec<Line> {
    Vec::new()
}

fn word(s: &str, style: &Style) -> Word {
    Word(vec![Span { text: s.into(), style: style.clone() }])
}

fn words<'a>(strings: impl Iterator<Item = &'a str>, style: &Style) -> Vec<Word> {
    strings.map(|s| word(s, style)).collect()
}

fn texts(line: &Line) -> Vec<String> {
    line.0.iter().map(|span| span.text.clone()).collect()
}

#[test]
fn wrapping_single_line() {
    let markdown = "line of text\n";

    let theme = Theme::default();
    let document = parse(markdown, &no_highlighting, &theme).unwrap();

    assert_eq!(1, document.len());
    if let Fragment::Paragraph { words: ws, style: _ } = &document[0] {
        let expected = words(["line", "of", "text"].into_iter(), &theme.default);
        assert_eq!(&expected, ws);
    } else {
        assert!(false, "fragment should be a paragraph");
    }
}

#[test]
fn wrapping_two_lines() {
    let markdown = "line of text\nsecond line\n";

    let theme = Theme::default();
    let document = parse(markdown, &no_highlighting, &theme).unwrap();

    assert_eq!(1, document.len());
    if let Fragment::Paragraph { words: text, style: _ } = &document[0] {
        let expected = words(["line", "of", "text", "second", "line"].into_iter(), &theme.default);
        assert_eq!(&expected, text);
    } else {
        assert!(false, "fragment should be a paragraph");
    }
}

#[test]
fn inline_code() {
    let markdown = "some `highlighted` word\n";

    let theme = Theme::default();
    let document = parse(markdown, &no_highlighting, &theme).unwrap();

    assert_eq!(1, document.len());
    if let Fragment::Paragraph { words: text, style: _ } = &document[0] {
        let expected = vec![
            word("some", &theme.default),
            word("highlighted", &theme.inline_code),
            word("word", &theme.default),
        ];
        assert_eq!(&expected, text);
    } else {
        assert!(false, "fragment should be a Fragment::Paragraph");
    }
}

#[test]
fn single_word_heading() {
    let markdown = "# Title\n";

    let theme = Theme::default();
    let document = parse(markdown, &no_highlighting, &theme).unwrap();

    assert_eq!(1, document.len());
    if let Fragment::Heading { words: text, style: _, depth } = &document[0] {
        let expected = vec![word("Title", &theme.headings[0])];
        assert_eq!(&expected, text);
        assert_eq!(0, *depth);
    } else {
        assert!(false, "fragment should be a Fragment::Heading, was a {:?} instead", document[0]);
    }
}

#[test]
fn multiple_word_heading() {
    let markdown = "# This is the title\n";

    let theme = Theme::default();
    let document = parse(markdown, &no_highlighting, &theme).unwrap();

    assert_eq!(1, document.len());
    if let Fragment::Heading { words: text, style: _, depth } = &document[0] {
        let expected = words(["This", "is", "the", "title"].into_iter(), &theme.headings[0]);
        assert_eq!(&expected, text);
        assert_eq!(0, *depth);
    } else {
        assert!(false, "fragment should be a Fragment::Heading, was a {:?} instead", document[0]);
    }
}

#[test]
fn heading_depth() {
    let markdown = "## Title\n";

    let theme = Theme::default();
    let document = parse(markdown, &no_highlighting, &theme).unwrap();

    assert_eq!(1, document.len());
    if let Fragment::Heading { words: text, style: _, depth } = &document[0] {
        let expected = words(["Title"].into_iter(), &theme.headings[1]);
        assert_eq!(&expected, text);
        assert_eq!(1, *depth);
    } else {
        assert!(false, "fragment should be a Fragment::Heading, was a {:?} instead", document[0]);
    }
}

#[test]
fn table() {
    let markdown = "| a | b |\n| - | - |\n| 1 | 2 |\n";

    let theme = Theme::default();
    let document = parse(markdown, &no_highlighting, &theme).unwrap();

    assert_eq!(1, document.len());
    if let Fragment::Verbatim { lines: _ } = &document[0] {
    } else {
        assert!(false, "fragment should be a table but was a {:?}", document[0]);
    }
}

#[test]
fn table_cells_are_padded_to_column_width() {
    let markdown = "| a | bcd |\n| :-: | --: |\n| 12 | 3 |\n| x | y |\n";

    let theme = Theme::default();
    let document = parse(markdown, &no_highlighting, &theme).unwrap();

    assert_eq!(1, document.len());
    if let Fragment::Verbatim { lines } = &document[0] {
        assert_eq!(3, lines.len());
        assert_eq!(vec!["  ", " a  ", "  bcd"], texts(&lines[0]));
        assert_eq!(vec!["  ", " 12 ", "    3"], texts(&lines[1]));
        assert_eq!(vec!["  ", " x  ", "    y"], texts(&lines[2]));
        assert_eq!(theme.table_heading, lines[0].0[1].style);
        assert_eq!(theme.table_odd_row, lines[1].0[1].style);
        assert_eq!(theme.table_even_row, lines[2].0[1].style);
        assert_eq!(Style::default(), lines[0].0[0].style);
    } else {
        assert!(false, "fragment should be a table but was a {:?}", document[0]);
    }
}

#[test]
fn padding_follows_alignment() {
    let text = String::from("ab");
    assert_eq!("ab   ", pad_text(&text, 5, Alignment::Left));
    assert_eq!("ab   ", pad_text(&text, 5, Alignment::Unaligned));
    assert_eq!("   ab", pad_text(&text, 5, Alignment::Right));
    assert_eq!(" ab  ", pad_text(&text, 5, Alignment::Center));
    assert_eq!("ab", pad_text(&text, 1, Alignment::Right));
}

#[test]
fn padding_counts_characters() {
    let text = String::from("é");
    assert_eq!("é  ", pad_text(&text, 3, Alignment::Left));
}

#[test]
fn list_items_hold_their_words() {
    let markdown = "* first item\n* second `code` item\n";

    let theme = Theme::default();
    let document = parse(markdown, &no_highlighting, &theme).unwrap();

    assert_eq!(1, document.len());
    if let Fragment::List { items } = &document[0] {
        assert_eq!(2, items.len());
        assert_eq!(words(["first", "item"].into_iter(), &theme.default), items[0]);
        assert_eq!(
            vec![word("second", &theme.default), word("code", &theme.inline_code), word("item", &theme.default)],
            items[1]
        );
    } else {
        assert!(false, "fragment should be a list but was a {:?}", document[0]);
    }
}

#[test]
fn inline_code_joins_adjacent_text() {
    let markdown = "call `f`() now\n";

    let theme = Theme::default();
    let document = parse(markdown, &no_highlighting, &theme).unwrap();

    if let Fragment::Paragraph { words: ws, style } = &document[0] {
        assert_eq!(theme.default, *style);
        assert_eq!(3, ws.len());
        assert_eq!(
            Word(vec![
                Span { text: "f".into(), style: theme.inline_code },
                Span { text: "()".into(), style: theme.default },
            ]),
            ws[1]
        );
    } else {
        assert!(false, "fragment should be a paragraph but was a {:?}", document[0]);
    }
}

#[test]
fn code_blocks_are_highlighted_and_indented() {
    let markdown = "```rust title\nlet x = 1;\n```\n";

    let theme = Theme::default();
    let highlight = |language: &Option<String>, source: &String| {
        assert_eq!(&Some("rust".to_string()), language);
        vec![Line(vec![Span { text: source.trim_end().to_string(), style: Style::default() }])]
    };
    let document = parse(markdown, &highlight, &theme).unwrap();

    assert_eq!(1, document.len());
    if let Fragment::Code(code) = &document[0] {
        assert_eq!(Some("rust".to_string()), code.language);
        assert_eq!(Some("title".to_string()), code.metadata);
        assert_eq!("let x = 1;", code.original);
        assert_eq!(1, code.highlighted_lines.len());
        assert_eq!(vec![" ", "let x = 1;"], texts(&code.highlighted_lines[0]));
    } else {
        assert!(false, "fragment should be code but was a {:?}", document[0]);
    }
}

#[test]
fn unsupported_markdown_gives_no_document() {
    let theme = Theme::default();
    assert!(parse("some *emphasis*\n", &no_highlighting, &theme).is_none());
    assert!(parse("#### Deep heading\n", &no_highlighting, &theme).is_none());
    assert!(parse("> quoted\n", &no_highlighting, &theme).is_none());
}

#[test]
fn empty_markdown_gives_empty_document() {
    let theme = Theme::default();
    assert_eq!(0, parse("", &no_highlighting, &theme).unwrap().len());
}
