use snippets::snippets::snippets::raw::Metadata;
use snippets::snippets::snippets::source::{assemble, separator_caption, split_lines, split_source, SourceError};
use snippets::util::attstring;

#[test]
fn a_snippet_file_splits_into_metadata_and_parts() {
    let source = "description: Sorting\ntags:\n  lang: [rust]\n=== caption=\"First\" url=\"http://x\"\nlet a = 1;\n\n===\nsecond\n";

    let (metadata, parts) = split_source(source).unwrap();

    assert_eq!("description: Sorting\ntags:\n  lang: [rust]", metadata);
    assert_eq!(2, parts.len());
    assert_eq!(Some("First".to_string()), parts[0].caption);
    assert_eq!(Some("http://x".to_string()), parts[0].url);
    assert_eq!(vec!["let a = 1;".to_string(), "".to_string()], parts[0].source);
    assert_eq!(2, parts[0].attributes.len());
    assert_eq!(None, parts[1].caption);
    assert_eq!(vec!["second".to_string()], parts[1].source);
}

#[test]
fn a_file_without_parts_is_refused() {
    assert_eq!(Some(SourceError::MissingSegments), split_source("description: x\n").err());
}

#[test]
fn bad_part_attributes_are_refused() {
    assert!(matches!(split_source("description: x\n=== a b\ntext\n"), Err(SourceError::Attributes(_))));
    assert_eq!(
        Some(SourceError::Attributes(attstring::Error::UnexpectedEndOfString)),
        split_source("description: x\n=== a=\"b\ntext\n").err()
    );
}

#[test]
fn separators_start_with_three_equals_signs() {
    assert_eq!(Some("caption".to_string()), separator_caption(&"===  caption ".to_string()));
    assert_eq!(Some(String::new()), separator_caption(&"===".to_string()));
    assert_eq!(None, separator_caption(&"== x".to_string()));
    assert_eq!(None, separator_caption(&" === x".to_string()));
}

#[test]
fn lines_split_like_str_lines() {
    assert_eq!(vec!["a", "b", "", "c"], split_lines("a\nb\r\n\nc"));
    assert_eq!(vec!["a"], split_lines("a\n"));
    assert_eq!(Vec::<String>::new(), split_lines(""));
}

#[test]
fn assembled_snippets_carry_their_metadata() {
    let metadata = Metadata {
        description: "Sorting".to_string(),
        identifier: Some("sort".to_string()),
        links: None,
        tags: Some(vec![("lang".to_string(), vec!["rust".to_string(), "c".to_string()])]),
        keywords: Some(vec!["order".to_string()]),
    };

    let snippet = assemble("a.snippet".to_string(), metadata, Vec::new());

    assert_eq!("a.snippet", snippet.path);
    assert_eq!("Sorting", snippet.description);
    assert_eq!(Some("sort".to_string()), snippet.identifier);
    assert!(snippet.links.is_empty());
    assert_eq!(vec!["order".to_string()], snippet.keywords);
    let tags: Vec<(String, String)> = snippet.tags.iter().map(|t| (t.category.clone(), t.name.clone())).collect();
    assert_eq!(vec![("lang".to_string(), "rust".to_string()), ("lang".to_string(), "c".to_string())], tags);
}
