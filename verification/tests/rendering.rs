use snippets::document::color::Color;
use snippets::document::fragment::{Code, Fragment};
use snippets::document::line::Line;
use snippets::document::span::Span;
use snippets::document::style::Style;
use snippets::document::word::Word;
use snippets::ui::widgets::document_view::{fits, render_document_as_paragraph};

fn words(texts: &[&str]) -> Vec<Word> {
    texts.iter().map(|t| Word(vec![Span { text: t.to_string(), style: Style::unset() }])).collect()
}

fn texts(lines: &Vec<Line>) -> Vec<Vec<String>> {
    lines.iter().map(|l| l.0.iter().map(|s| s.text.clone()).collect()).collect()
}

#[test]
fn paragraphs_are_broken_into_lines_with_spaces_between_words() {
    let document = vec![Fragment::Paragraph { words: words(&["aa", "bb", "cc"]), style: Style::default() }];
    assert!(fits(&document, 5));
    let lines = render_document_as_paragraph(&document, 5);
    assert_eq!(vec![vec!["aa", " ", "bb"], vec!["cc"]], texts(&lines));
    assert_eq!(Style::default(), lines[0].0[0].style);
}

#[test]
fn headings_are_set_apart() {
    let document = vec![
        Fragment::Paragraph { words: words(&["text"]), style: Style::default() },
        Fragment::Heading { words: words(&["Title"]), depth: 0, style: Style::default().bold(true) },
        Fragment::Paragraph { words: words(&["more"]), style: Style::default() },
    ];
    let lines = render_document_as_paragraph(&document, 20);
    let empty: Vec<String> = Vec::new();
    assert_eq!(vec![vec!["text".to_string()], empty.clone(), vec!["Title".to_string()], empty, vec!["more".to_string()]], texts(&lines));
    assert_eq!(Some(true), lines[2].0[0].style.bold);
}

#[test]
fn span_styles_are_drawn_over_the_paragraph_style() {
    let red = Style::unset().foreground(Color::red(255));
    let document = vec![Fragment::Paragraph {
        words: vec![Word(vec![Span { text: "x".to_string(), style: red }])],
        style: Style::default().bold(true),
    }];
    let lines = render_document_as_paragraph(&document, 10);
    let style = lines[0].0[0].style;
    assert_eq!(Some(Color::red(255)), style.foreground);
    assert_eq!(Some(true), style.bold);
}

#[test]
fn code_blocks_are_numbered_captioned_and_framed() {
    let code = Code {
        language: Some("rust".to_string()),
        original: "x".to_string(),
        highlighted_lines: vec![Line(vec![Span { text: "let x;".to_string(), style: Style::unset() }])],
        metadata: None,
    };
    let document = vec![Fragment::Code(code)];
    let lines = render_document_as_paragraph(&document, 34);
    let rows = texts(&lines);
    assert_eq!(5, rows.len());
    assert_eq!(vec!["  ".to_string(), format!("{:<30}", " [1] Code snippet (rust)")], rows[0]);
    assert_eq!(vec!["  ".to_string(), " ".repeat(30)], rows[1]);
    assert_eq!(vec!["  ".to_string(), "let x;".to_string(), " ".repeat(24)], rows[2]);
    assert_eq!(rows[1], rows[3]);
    assert!(rows[4].is_empty());
    assert_eq!(Some(Color::gray(32)), lines[2].0[1].style.background);
}

#[test]
fn a_second_code_block_gets_the_next_number() {
    let code = |meta: &str| {
        Fragment::Code(Code { language: None, original: String::new(), highlighted_lines: Vec::new(), metadata: Some(meta.to_string()) })
    };
    let document = vec![code("first"), code("second")];
    let lines = render_document_as_paragraph(&document, 3);
    let captions: Vec<String> = lines.iter().filter(|l| l.0.len() == 2 && l.0[1].text.contains('[')).map(|l| l.0[1].text.clone()).collect();
    assert_eq!(vec![format!("{:<10}", " [1] first"), format!("{:<10}", " [2] second")], captions);
}

#[test]
fn list_items_get_bullets() {
    let document = vec![Fragment::List { items: vec![words(&["one", "two"]), words(&["three"])] }];
    let lines = render_document_as_paragraph(&document, 7);
    assert_eq!(
        vec![vec!["*", " ", "one"], vec![" ", " ", "two"], vec!["*", " ", "three"], vec![]],
        texts(&lines)
    );
    assert!(!fits(&document, 1));
}

#[test]
fn verbatim_lines_are_kept() {
    let document = vec![Fragment::Verbatim { lines: vec![Line(vec![Span { text: "| a |".to_string(), style: Style::unset() }])] }];
    let lines = render_document_as_paragraph(&document, 3);
    assert_eq!(vec![vec!["| a |"], vec![]], texts(&lines));
    assert_eq!(Style::default(), lines[0].0[0].style);
}
