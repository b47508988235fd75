use snippets::util::segment_file::parse;

fn separator(line: &String) -> Option<String> {
    line.strip_prefix("---").map(|rest| rest.trim().to_string())
}

fn lines(ls: &[&str]) -> Vec<String> {
    ls.iter().map(|l| l.to_string()).collect()
}

#[test]
fn separators_split_lines_into_segments() {
    let segments = parse(&lines(&["a", "b", "--- first", "c", "---", "d"]), separator);

    assert_eq!(3, segments.len());
    assert_eq!(None, segments[0].caption);
    assert_eq!(lines(&["a", "b"]), segments[0].lines);
    assert_eq!(Some("first".to_string()), segments[1].caption);
    assert_eq!(lines(&["c"]), segments[1].lines);
    assert_eq!(None, segments[2].caption);
    assert_eq!(lines(&["d"]), segments[2].lines);
}

#[test]
fn no_lines_give_one_empty_segment() {
    let segments = parse(&Vec::new(), separator);

    assert_eq!(1, segments.len());
    assert!(segments[0].lines.is_empty());
}

#[test]
fn a_leading_separator_leaves_an_empty_first_segment() {
    let segments = parse(&lines(&["--- x", "y"]), separator);

    assert_eq!(2, segments.len());
    assert!(segments[0].lines.is_empty());
    assert_eq!(Some("x".to_string()), segments[1].caption);
}
