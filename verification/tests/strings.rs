use snippets::util::strings::{is_whitespace, trim};

#[test]
fn unicode_white_space_is_recognised() {
    for c in [' ', '\t', '\n', '\u{0B}', '\u{0C}', '\r', '\u{85}', '\u{A0}', '\u{1680}', '\u{2000}', '\u{200A}', '\u{2028}', '\u{2029}', '\u{202F}', '\u{205F}', '\u{3000}'] {
        assert!(is_whitespace(c), "{:?}", c);
        assert_eq!(c.is_whitespace(), is_whitespace(c));
    }
    for c in ['a', '0', '\u{200B}', '\u{1F}', '\u{FEFF}', '\u{180E}'] {
        assert!(!is_whitespace(c), "{:?}", c);
        assert_eq!(c.is_whitespace(), is_whitespace(c));
    }
}

#[test]
fn trimming_removes_white_space_at_both_ends_only() {
    for s in ["", "   ", " a b ", "\u{3000}x\t\n", "x", "a \u{A0}"] {
        assert_eq!(s.trim(), trim(s));
    }
    assert_eq!("a b", trim("  a b \r\n"));
}
