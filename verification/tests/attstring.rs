use snippets::util::attstring::{parse, Error};

#[test]
fn empty() {
    let attributes = parse("").unwrap().as_hashmap();

    assert_eq!(attributes.len(), 0)
}

#[test]
fn a_is_b() {
    let attributes = parse("a=b").unwrap().as_hashmap();

    assert_eq!(attributes.len(), 1);
    assert_eq!(attributes.get("a").map(String::as_str), Some("b"))
}

#[test]
fn aa_is_xyz() {
    let attributes = parse("aa=xyz").unwrap().as_hashmap();

    assert_eq!(attributes.len(), 1);
    assert_eq!(attributes.get("aa").map(String::as_str), Some("xyz"))
}

#[test]
fn aa_is_xyz_and_bb_is_x() {
    let attributes = parse("aa=xyz bb=x").unwrap().as_hashmap();

    assert_eq!(attributes.len(), 2);
    assert_eq!(attributes.get("aa").map(String::as_str), Some("xyz"));
    assert_eq!(attributes.get("bb").map(String::as_str), Some("x"))
}

#[test]
fn redundant_spaces() {
    let attributes = parse("    aa=xyz  bb=x  ").unwrap().as_hashmap();

    assert_eq!(attributes.len(), 2);
    assert_eq!(attributes.get("aa").map(String::as_str), Some("xyz"));
    assert_eq!(attributes.get("bb").map(String::as_str), Some("x"))
}

#[test]
fn empty_value() {
    let attributes = parse("f= g=\"\" h=").unwrap().as_hashmap();

    assert_eq!(attributes.len(), 3);
    assert_eq!(attributes.get("f").map(String::as_str), Some(""));
    assert_eq!(attributes.get("g").map(String::as_str), Some(""));
    assert_eq!(attributes.get("h").map(String::as_str), Some(""));
}

#[test]
#[should_panic]
fn unclosed_quoted_value() {
    parse("x=\"").unwrap();
}

#[test]
#[should_panic]
fn unassigned_key() {
    parse("x y").unwrap();
}

#[test]
fn quoted_value_keeps_spaces_and_equals() {
    let pairs = parse("caption=\"a b=c\" lang=rust").unwrap().pairs();

    assert_eq!(
        pairs,
        vec![
            ("caption".to_string(), "a b=c".to_string()),
            ("lang".to_string(), "rust".to_string())
        ]
    );
}

#[test]
fn pairs_keep_their_order_and_duplicates() {
    let pairs = parse("b=1 a=2 b=3").unwrap().pairs();

    assert_eq!(
        pairs,
        vec![
            ("b".to_string(), "1".to_string()),
            ("a".to_string(), "2".to_string()),
            ("b".to_string(), "3".to_string())
        ]
    );
}

#[test]
fn later_value_replaces_earlier_in_map() {
    let attributes = parse("b=1 a=2 b=3").unwrap().as_hashmap();

    assert_eq!(attributes.len(), 2);
    assert_eq!(attributes.get("b").map(String::as_str), Some("3"));
    assert_eq!(attributes.get("a").map(String::as_str), Some("2"));
}

#[test]
fn equals_sign_without_key_is_rejected() {
    assert_eq!(parse("=x").err(), Some(Error::UnexpectedEndOfString));
    assert_eq!(parse("a=b =x").err(), Some(Error::UnexpectedEndOfString));
}

#[test]
fn space_inside_key_is_rejected() {
    assert_eq!(parse("x y").err(), Some(Error::InvalidKeyChar));
}

#[test]
fn quote_inside_unquoted_value_is_rejected() {
    assert_eq!(parse("a=b\"c\"").err(), Some(Error::InvalidValueChar));
}

#[test]
fn key_without_value_is_rejected() {
    assert_eq!(parse("a=b key").err(), Some(Error::MissingValue));
}

#[test]
fn unclosed_quote_is_reported() {
    assert_eq!(parse("x=\"abc").err(), Some(Error::UnexpectedEndOfString));
}

#[test]
fn quoted_value_followed_directly_by_key() {
    let pairs = parse("a=\"1\"b=2").unwrap().pairs();

    assert_eq!(
        pairs,
        vec![("a".to_string(), "1".to_string()), ("b".to_string(), "2".to_string())]
    );
}

#[test]
fn leading_and_trailing_spaces_change_nothing() {
    let plain = parse("k=v").unwrap().pairs();
    let padded = parse("   k=v ").unwrap().pairs();

    assert_eq!(plain, padded);
}

#[test]
fn error_messages() {
    assert_eq!(Error::UnexpectedEndOfString.to_string(), "unexpected end of string");
    assert_eq!(Error::InvalidKeyChar.to_string(), "invalid key character");
    assert_eq!(Error::InvalidValueChar.to_string(), "invalid value character");
    assert_eq!(Error::MissingValue.to_string(), "missing value");
}

#[test]
fn joined_pairs_parse_back_to_the_same_pairs() {
    let pairs = vec![
        ("lang".to_string(), "rust".to_string()),
        ("caption".to_string(), "".to_string()),
        ("lang".to_string(), "a=b".to_string()),
    ];
    let text = pairs.iter().map(|(k, v)| format!("{}={}", k, v)).collect::<Vec<_>>().join(" ");

    assert_eq!(pairs, parse(&text).unwrap().pairs());
    assert!(parse("").unwrap().pairs().is_empty());
}
