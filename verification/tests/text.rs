use fpr::glob::is_glob;
use fpr::text::{contains_char, is_whitespace, to_chars, trim};

fn chars(s: &str) -> Vec<char> {
    s.chars().collect()
}

#[test]
fn whitespace_is_what_the_standard_library_calls_whitespace() {
    for n in 0..=0x10FFFFu32 {
        if let Some(c) = char::from_u32(n) {
            assert_eq!(is_whitespace(c), c.is_whitespace(), "U+{n:04X}");
        }
    }
}

#[test]
fn whitespace_examples() {
    for c in [' ', '\t', '\n', '\r', '\u{b}', '\u{c}', '\u{85}', '\u{a0}', '\u{2003}', '\u{3000}'] {
        assert!(is_whitespace(c));
    }
    for c in ['a', '-', '(', ')', ',', '\u{8}', '\u{e}', '\u{200b}', '\u{180e}', '\u{feff}'] {
        assert!(!is_whitespace(c));
    }
}

#[test]
fn trim_agrees_with_the_standard_library() {
    for s in ["", " ", "a", " a", "a ", "  a b  ", "\t\n a\u{a0}\u{3000}", " \u{200b} ", "   "] {
        let input = chars(s);
        let expected = chars(s.trim());
        assert_eq!(trim(&input), &expected[..], "{s:?}");
    }
}

#[test]
fn trim_keeps_inner_whitespace() {
    assert_eq!(trim(&chars("  a  b  ")), &chars("a  b")[..]);
}

#[test]
fn to_chars_gives_the_characters_in_order() {
    assert_eq!(to_chars(""), Vec::<char>::new());
    assert_eq!(to_chars("a(é,漢)"), vec!['a', '(', 'é', ',', '漢', ')']);
}

#[test]
fn contains_char_finds_a_character_anywhere() {
    assert!(contains_char("a(b", '('));
    assert!(contains_char("(", '('));
    assert!(contains_char("ab(", '('));
    assert!(!contains_char("ab)", '('));
    assert!(!contains_char("", '('));
}

#[test]
fn glob_characters_make_a_glob() {
    assert!(is_glob("*.rs"));
    assert!(is_glob("**/*.txt"));
    assert!(is_glob("file?.txt"));
    assert!(is_glob("[ab].txt"));
    assert!(is_glob("a[".trim()));
}

#[test]
fn other_characters_make_no_glob() {
    assert!(!is_glob(""));
    assert!(!is_glob("src/main.rs"));
    assert!(!is_glob("a]b"));
    assert!(!is_glob("{a,b}"));
}
