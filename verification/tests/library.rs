use snippets::snippets::archive::Archive;
use snippets::snippets::library::Library;
use snippets::snippets::snippets::raw;
use snippets::snippets::snippets::{Snippet, Tag};

fn create_feature_tag(name: &str) -> Tag {
    Tag { category: "feature".to_owned(), name: name.to_owned() }
}

fn snippet(description: &str, tags: &[&str]) -> Snippet {
    Snippet {
        description: String::from(description),
        extra_keywords: vec![],
        parts: Vec::new(),
        links: Vec::new(),
        tags: tags.iter().map(|t| create_feature_tag(t)).collect(),
        tag_set: tags.iter().map(|t| String::from(*t)).collect(),
    }
}

#[test]
fn search_with_tags() {
    let snippet1 = Snippet {
        description: String::from("a"),
        extra_keywords: vec![],
        parts: Vec::new(),
        links: Vec::new(),
        tags: vec![create_feature_tag("tag-a"), create_feature_tag("tag-b")],
        tag_set: vec![String::from("tag-a"), String::from("tag-b")],
    };

    let library = Library::new(vec![snippet1]);

    let found_snippets = library.search(&Vec::new(), &Vec::new());

    assert_eq!(found_snippets.len(), 1);
}

#[test]
fn search_with_tags_zero_results() {
    let snippet1 = Snippet {
        description: String::from("a"),
        extra_keywords: vec![],
        parts: Vec::new(),
        links: Vec::new(),
        tags: vec![create_feature_tag("tag-a"), create_feature_tag("tag-b")],
        tag_set: vec![String::from("tag-a"), String::from("tag-b")],
    };

    let library = Library::new(vec![snippet1]);

    let found_snippets = library.search(&Vec::new(), &vec![String::from("tag-x")]);

    assert_eq!(found_snippets.len(), 0);
}

#[test]
fn search_by_tag_keeps_carriers_in_order() {
    let library = Library::new(vec![
        snippet("first one", &["x", "y"]),
        snippet("second one", &["y"]),
        snippet("third one", &["x"]),
    ]);

    assert_eq!(vec![0, 2], library.search(&Vec::new(), &vec![String::from("x")]));
    assert_eq!(vec![0], library.search(&Vec::new(), &vec![String::from("x"), String::from("y")]));
    assert_eq!(vec![0, 1, 2], library.search(&Vec::new(), &Vec::new()));
}

#[test]
fn search_by_keyword_prefix() {
    let library = Library::new(vec![
        snippet("Sorting Vectors", &["rust"]),
        snippet("Reading files", &["io"]),
        snippet("Sorted maps", &[]),
    ]);

    assert_eq!(vec![0, 2], library.search(&vec![String::from("sort")], &Vec::new()));
    assert_eq!(vec![0], library.search(&vec![String::from("sort"), String::from("vec")], &Vec::new()));
    assert_eq!(vec![1], library.search(&vec![String::from("io")], &Vec::new()));
    assert_eq!(Vec::<usize>::new(), library.search(&vec![String::from("Sort")], &Vec::new()));
    assert_eq!(vec![0, 1, 2], library.search(&vec![String::new()], &Vec::new()));
}

#[test]
fn search_combines_keywords_and_tags() {
    let library = Library::new(vec![snippet("sort a", &["x"]), snippet("sort b", &["y"])]);

    assert_eq!(vec![1], library.search(&vec![String::from("sort")], &vec![String::from("y")]));
}

#[test]
fn tags_are_listed_once_sorted_by_lower_case_name() {
    let library = Library::new(vec![snippet("a", &["beta", "Alpha"]), snippet("b", &["beta", "gamma"])]);

    let names: Vec<String> = library.tags().iter().map(|t| t.name.clone()).collect();
    assert_eq!(vec!["Alpha", "beta", "gamma"], names);
}

#[test]
fn snippets_are_kept_in_order() {
    let library = Library::new(vec![snippet("a", &[]), snippet("b", &[])]);

    assert_eq!(0..2, library.snippets());
    assert_eq!("b", library.snippet(1).description);
}

fn raw_snippet(description: &str, identifier: Option<&str>, links: &[&str], path: &str) -> raw::Snippet {
    raw::Snippet {
        identifier: identifier.map(|s| s.to_string()),
        links: links.iter().map(|s| s.to_string()).collect(),
        description: description.to_string(),
        parts: Vec::new(),
        tags: vec![raw::Tag { category: "c".to_string(), name: "t".to_string() }],
        keywords: Vec::new(),
        path: path.to_string(),
    }
}

#[test]
fn archive_snippets_are_ordered_by_description_and_linked() {
    let archive = Archive::new(vec![
        raw_snippet("b", Some("x"), &["y"], "1"),
        raw_snippet("a", Some("y"), &[], "2"),
        raw_snippet("b", None, &["x"], "3"),
        raw_snippet("C", None, &[], "4"),
    ]);

    let library = Library::from_archive(archive);

    let descriptions: Vec<&str> = library.snippets().map(|i| library.snippet(i).description.as_str()).collect();
    assert_eq!(vec!["C", "a", "b", "b"], descriptions);
    assert_eq!(vec![1], library.snippet(2).links);
    assert_eq!(vec![2], library.snippet(3).links);
    assert_eq!(1, library.tags().len());
}
