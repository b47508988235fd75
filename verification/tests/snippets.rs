use snippets::document::fragment::{Code, Fragment};
use snippets::document::line::Line;
use snippets::document::theme::Theme;
use snippets::snippets::snippets::{convert_tabs_to_spaces, count_code_blocks, raw, Part, Snippet, Tag};

fn snippet(description: &str, extra: &[&str], tags: &[&str]) -> Snippet {
    Snippet {
        description: description.to_string(),
        links: Vec::new(),
        parts: Vec::new(),
        tags: tags.iter().map(|t| Tag { category: "c".to_string(), name: t.to_string() }).collect(),
        tag_set: tags.iter().map(|t| t.to_string()).collect(),
        extra_keywords: extra.iter().map(|t| t.to_string()).collect(),
    }
}

fn part(lines: &[&str]) -> Part {
    Part::from_raw(raw::Part { attributes: Vec::new(), caption: None, url: None, source: lines.iter().map(|l| l.to_string()).collect() })
}

fn no_highlighting(_language: &Option<String>, _source: &String) -> Vec<Line> {
    Vec::new()
}

fn code(original: &str) -> Fragment {
    Fragment::Code(Code { language: None, original: original.to_string(), highlighted_lines: Vec::new(), metadata: None })
}

#[test]
fn keywords_are_extra_keywords_description_words_and_tag_names() {
    let s = snippet("Sorting Big Vectors", &["Extra"], &["Rust", "io"]);
    assert_eq!(vec!["Extra", "sorting", "big", "vectors", "rust", "io"], s.keywords());
}

#[test]
fn description_split_at_each_space() {
    let s = snippet("a  b", &[], &[]);
    assert_eq!(vec!["a", "", "b"], s.keywords());
}

#[test]
fn has_tags_needs_every_tag() {
    let s = snippet("x", &[], &["a", "b"]);
    assert!(s.has_tags(&vec!["a".to_string(), "b".to_string()]));
    assert!(s.has_tags(&vec![]));
    assert!(!s.has_tags(&vec!["a".to_string(), "c".to_string()]));
}

#[test]
fn tabs_become_four_spaces() {
    assert_eq!("    a  b    ", convert_tabs_to_spaces("\ta  b\t"));
    assert_eq!("", convert_tabs_to_spaces(""));
}

#[test]
fn code_blocks_are_found_by_position() {
    let document = vec![code("first"), Fragment::List { items: Vec::new() }, code("second")];
    assert_eq!(Some("first"), Part::find_code_block_with_index(&document, 0));
    assert_eq!(Some("second"), Part::find_code_block_with_index(&document, 1));
    assert_eq!(None, Part::find_code_block_with_index(&document, 2));
}

#[test]
fn part_markdown_joins_detabbed_lines() {
    let p = part(&["# Title", "\tindented", "end"]);
    assert_eq!("# Title\n    indented\nend", p.markdown());
}

#[test]
fn part_document_parses_its_markdown() {
    let p = part(&["# Title", "", "```", "code", "```"]);
    let document = p.document(&no_highlighting, &Theme::default()).unwrap();
    assert_eq!(2, document.len());
    assert!(matches!(document[0], Fragment::Heading { .. }));
    assert_eq!(Some("code"), Part::find_code_block_with_index(&document, 0));
}

#[test]
fn linking_turns_identifiers_into_positions() {
    let raw_snippet = raw::Snippet {
        identifier: None,
        links: vec!["b".to_string(), "a".to_string()],
        description: "d".to_string(),
        parts: Vec::new(),
        tags: vec![raw::Tag { category: "c".to_string(), name: "t".to_string() }],
        keywords: vec!["k".to_string()],
        path: "p".to_string(),
    };
    let identifiers = vec![Some("a".to_string()), None, Some("b".to_string())];

    let s = Snippet::from_raw(raw_snippet, &identifiers);

    assert_eq!(vec![2, 0], s.links);
    assert_eq!(vec!["t".to_string()], s.tag_set);
    assert_eq!(vec!["k".to_string()], s.extra_keywords);
    assert_eq!("d", s.description);
}

#[test]
fn code_blocks_are_counted() {
    let document = vec![code("first"), Fragment::List { items: Vec::new() }, code("second")];
    assert_eq!(2, count_code_blocks(&document));
    assert_eq!(0, count_code_blocks(&Vec::new()));
}

#[test]
fn a_part_keeps_the_last_value_of_each_attribute() {
    let part = Part::from_raw(raw::Part {
        attributes: vec![("k".to_string(), "1".to_string()), ("j".to_string(), "2".to_string()), ("k".to_string(), "3".to_string())],
        caption: None,
        url: None,
        source: Vec::new(),
    });

    assert_eq!(2, part.attributes.len());
    assert_eq!(Some("3"), part.attributes.get("k").map(String::as_str));
    assert_eq!(Some("2"), part.attributes.get("j").map(String::as_str));
}

#[test]
fn a_tag_name_is_listed_once() {
    let raw_snippet = raw::Snippet {
        identifier: None,
        links: Vec::new(),
        description: "d".to_string(),
        parts: Vec::new(),
        tags: vec![
            raw::Tag { category: "c".to_string(), name: "t".to_string() },
            raw::Tag { category: "c".to_string(), name: "u".to_string() },
            raw::Tag { category: "c".to_string(), name: "t".to_string() },
        ],
        keywords: Vec::new(),
        path: "p".to_string(),
    };

    let s = Snippet::from_raw(raw_snippet, &Vec::new());

    assert_eq!(3, s.tags.len());
    assert_eq!(vec!["t".to_string(), "u".to_string()], s.tag_set);
}
