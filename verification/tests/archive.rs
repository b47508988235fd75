use snippets::snippets::archive::{all_links_resolve, Archive, ArchiveError};
use snippets::snippets::snippets::raw::{Snippet, Tag};

fn tag(category: &str, name: &str) -> Tag {
    Tag { category: category.to_string(), name: name.to_string() }
}

fn raw(path: &str, identifier: Option<&str>, links: &[&str], tags: Vec<Tag>) -> Snippet {
    Snippet {
        identifier: identifier.map(|s| s.to_string()),
        links: links.iter().map(|s| s.to_string()).collect(),
        description: format!("snippet at {}", path),
        parts: Vec::new(),
        tags,
        keywords: Vec::new(),
        path: path.to_string(),
    }
}

#[test]
fn consistent_snippets_load_with_directory_tags() {
    let found = vec![
        (raw("a.snippet", Some("a"), &["b"], vec![tag("lang", "rust")]), vec![vec![tag("topic", "io")], vec![tag("area", "x")]]),
        (raw("b.snippet", Some("b"), &[], vec![]), vec![]),
    ];

    let archive = Archive::load_snippet_files(found).unwrap();

    assert_eq!(2, archive.raw_snippets.len());
    let names: Vec<&str> = archive.raw_snippets[0].tags.iter().map(|t| t.name.as_str()).collect();
    assert_eq!(vec!["rust", "io", "x"], names);
    assert_eq!("b.snippet", archive.raw_snippets[1].path);
}

#[test]
fn a_tag_in_two_categories_is_refused() {
    let found = vec![
        (raw("a.snippet", None, &[], vec![tag("lang", "rust")]), vec![]),
        (raw("b.snippet", None, &[], vec![tag("game", "rust")]), vec![]),
    ];

    let error = Archive::load_snippet_files(found).err().unwrap();

    assert_eq!(
        ArchiveError::InconsistentTagCategory {
            tag: "rust".to_string(),
            category: "lang".to_string(),
            path: "a.snippet".to_string(),
            other_category: "game".to_string(),
            other_path: "b.snippet".to_string(),
        },
        error
    );
}

#[test]
fn a_directory_tag_can_contradict_a_snippet_tag() {
    let found = vec![(raw("a.snippet", None, &[], vec![tag("lang", "rust")]), vec![vec![tag("game", "rust")]])];

    let error = Archive::load_snippet_files(found).err().unwrap();

    assert!(matches!(error, ArchiveError::InconsistentTagCategory { .. }));
}

#[test]
fn duplicate_identifiers_are_refused() {
    let snippets = vec![
        raw("a.snippet", Some("same"), &[], vec![]),
        raw("b.snippet", Some("same"), &[], vec![]),
    ];

    let error = Archive::verify(&snippets).err().unwrap();

    assert_eq!(
        ArchiveError::DuplicateIdentifier {
            identifier: "same".to_string(),
            path: "a.snippet".to_string(),
            other_path: "b.snippet".to_string(),
        },
        error
    );
}

#[test]
fn links_to_unknown_identifiers_are_refused() {
    let snippets = vec![raw("a.snippet", Some("a"), &["a", "nowhere"], vec![])];

    let error = Archive::verify(&snippets).err().unwrap();

    assert_eq!(ArchiveError::InvalidLink { path: "a.snippet".to_string(), link: "nowhere".to_string() }, error);
}

#[test]
fn tag_categories_are_checked_before_identifiers() {
    let snippets = vec![
        raw("a.snippet", Some("same"), &[], vec![tag("x", "t")]),
        raw("b.snippet", Some("same"), &[], vec![tag("y", "t")]),
    ];

    assert!(matches!(Archive::verify(&snippets), Err(ArchiveError::InconsistentTagCategory { .. })));
}

#[test]
fn collected_identifiers_are_those_given() {
    let snippets = vec![raw("a.snippet", Some("a"), &[], vec![]), raw("b.snippet", None, &[], vec![]), raw("c.snippet", Some("c"), &[], vec![])];

    let identifiers = Archive::collect_identifiers(&snippets).unwrap();

    assert_eq!(vec!["a".to_string(), "c".to_string()], identifiers);
}

#[test]
fn links_resolve_when_every_link_names_an_identifier() {
    let good = vec![raw("a.snippet", Some("a"), &["b"], vec![]), raw("b.snippet", Some("b"), &["a", "b"], vec![])];
    let bad = vec![raw("a.snippet", Some("a"), &["c"], vec![])];

    assert!(all_links_resolve(&good));
    assert!(!all_links_resolve(&bad));
    assert!(all_links_resolve(&Vec::new()));
}

#[test]
fn the_first_contradiction_is_reported_against_the_first_occurrence() {
    let snippets = vec![
        raw("a.snippet", None, &[], vec![tag("lang", "rust"), tag("topic", "io")]),
        raw("b.snippet", None, &[], vec![tag("lang", "rust"), tag("area", "io")]),
        raw("c.snippet", None, &[], vec![tag("game", "rust")]),
    ];

    let error = Archive::verify_tag_categorization(&snippets).err().unwrap();

    assert_eq!(
        ArchiveError::InconsistentTagCategory {
            tag: "io".to_string(),
            category: "topic".to_string(),
            path: "a.snippet".to_string(),
            other_category: "area".to_string(),
            other_path: "b.snippet".to_string(),
        },
        error
    );
}
