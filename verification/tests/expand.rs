use fpr::error::ParseError;
use fpr::expand::{expand_rec, parse_alternatives, parse_group, parse_segment};
use fpr::pairs::Expansion;
use fpr::pattern::{expand_group_pattern, patterns_of};

fn strings(items: &[&str]) -> Vec<String> {
    items.iter().map(|s| s.to_string()).collect()
}

fn chars(s: &str) -> Vec<char> {
    s.chars().collect()
}

fn pair(text: &str, excluded: bool) -> Expansion {
    Expansion { text: text.to_string(), excluded }
}

fn expand(pattern: &str) -> Vec<String> {
    expand_group_pattern(pattern).expect("the pattern closes its groups")
}

#[test]
fn literal_around_a_group() {
    assert_eq!(expand("a(b,c)d"), strings(&["abd", "acd"]));
}

#[test]
fn grouped_paths() {
    assert_eq!(expand("src/(foo.txt, bar.txt)"), strings(&["src/foo.txt", "src/bar.txt"]));
}

#[test]
fn excluded_path_is_dropped() {
    assert_eq!(expand("src/(keep.txt, -drop.txt)"), strings(&["src/keep.txt"]));
}

#[test]
fn caret_excludes_too() {
    assert_eq!(expand("src/(keep.txt, ^drop.txt)"), strings(&["src/keep.txt"]));
}

#[test]
fn directories_in_a_group() {
    assert_eq!(expand("util/(fs, time)"), strings(&["util/fs", "util/time"]));
}

#[test]
fn nested_groups() {
    assert_eq!(expand("a(b,(c,d))"), strings(&["ab", "ac", "ad"]));
}

#[test]
fn nested_group_with_literal_context() {
    assert_eq!(
        expand("src/(main.rs, lib.rs, util/(fs, time), -tests)"),
        strings(&["src/main.rs", "src/lib.rs", "src/util/fs", "src/util/time"])
    );
}

#[test]
fn two_groups_multiply_in_order() {
    assert_eq!(expand("x(a,b)(c,d)"), strings(&["xac", "xad", "xbc", "xbd"]));
}

#[test]
fn text_inside_a_segment_around_a_group() {
    assert_eq!(expand("a(b (c,d) e)"), strings(&["ab c e", "ab d e"]));
}

#[test]
fn exclusion_covers_a_nested_group() {
    assert_eq!(expand("a(-(b,c), d)"), strings(&["ad"]));
    assert_eq!(expand("a(-(b,c), b, c, d)"), strings(&["ad"]));
}

#[test]
fn exclusion_inside_a_nested_group_stays_inside() {
    assert_eq!(expand("a((b,-c), c, d)"), strings(&["ab", "ad"]));
}

#[test]
fn excluded_and_included_text_does_not_remain() {
    assert_eq!(expand("(a,-a)"), strings(&[]));
    assert_eq!(expand("(-a,a,b,a)"), strings(&["b"]));
}

#[test]
fn duplicates_among_the_included_are_kept() {
    assert_eq!(expand("(a,a)"), strings(&["a", "a"]));
}

#[test]
fn whitespace_around_segments_does_not_count() {
    assert_eq!(expand("(a, b)"), strings(&["a", "b"]));
    assert_eq!(expand("(a,b)"), strings(&["a", "b"]));
    assert_eq!(expand("(a, b)"), expand("(a,b)"));
    assert_eq!(expand("(\ta\n,\u{3000}b\u{a0} )"), strings(&["a", "b"]));
}

#[test]
fn whitespace_before_a_marker_is_trimmed_first() {
    assert_eq!(expand("(a,  -a, b)"), strings(&["b"]));
}

#[test]
fn whitespace_after_a_marker_belongs_to_the_text() {
    assert_eq!(expand("(b, - a, a)"), strings(&["b", "a"]));
}

#[test]
fn whitespace_inside_a_segment_and_outside_groups_is_kept() {
    assert_eq!(expand("(a b)"), strings(&["a b"]));
    assert_eq!(expand(" (a) "), strings(&[" a "]));
}

#[test]
fn empty_segments_are_dropped() {
    assert_eq!(expand("a(,b,,c, )"), strings(&["ab", "ac"]));
}

#[test]
fn empty_group_leaves_nothing() {
    assert_eq!(expand("a()"), strings(&[]));
    assert_eq!(expand("a( , )b"), strings(&[]));
}

#[test]
fn lone_marker_excludes_the_bare_prefix() {
    assert_eq!(expand("a(-)"), strings(&[]));
    assert_eq!(expand("a(-,b)"), strings(&["ab"]));
}

#[test]
fn only_the_first_marker_is_taken_off() {
    let pairs = expand_rec(&chars("(--a)")).unwrap();
    assert_eq!(pairs, vec![pair("-a", true)]);
}

#[test]
fn markers_outside_groups_are_text() {
    assert_eq!(expand("-a"), strings(&["-a"]));
    assert_eq!(expand("^a(b)"), strings(&["^ab"]));
    assert_eq!(expand("(a-b)"), strings(&["a-b"]));
}

#[test]
fn comma_outside_groups_is_text() {
    assert_eq!(expand("a,b"), strings(&["a,b"]));
    assert_eq!(expand("(a),(b)"), strings(&["a,b"]));
}

#[test]
fn stray_closing_parenthesis_is_text() {
    assert_eq!(expand("a)b"), strings(&["a)b"]));
    assert_eq!(expand("(a))"), strings(&["a)"]));
}

#[test]
fn empty_pattern_stands_for_the_empty_string() {
    assert_eq!(expand(""), strings(&[""]));
}

#[test]
fn plain_pattern_stands_for_itself() {
    assert_eq!(expand("src/main.rs"), strings(&["src/main.rs"]));
    assert_eq!(expand("**/*.rs"), strings(&["**/*.rs"]));
}

#[test]
fn characters_beyond_ascii() {
    assert_eq!(expand("é(ü,漢)"), strings(&["éü", "é漢"]));
}

#[test]
fn unmatched_parenthesis_is_an_error() {
    assert_eq!(expand_group_pattern("a(b,c"), Err(ParseError::UnmatchedParen));
}

#[test]
fn every_open_group_is_an_error() {
    for pattern in ["(", "a(", "a(b", "a(b,(c)", "a(b,(c,d)", "(a)(", "a)(b", "((a)", "(a,(b)))(("] {
        assert_eq!(expand_group_pattern(pattern), Err(ParseError::UnmatchedParen), "{pattern}");
    }
}

#[test]
fn closed_groups_are_never_an_error() {
    for pattern in ["", "a", ")", "))", "()", "(())", "(a)(b)", "(a,(b,(c)))", "a)b(c)", "(-(^(a)))"] {
        assert!(expand_group_pattern(pattern).is_ok(), "{pattern}");
    }
}

#[test]
fn error_message() {
    assert_eq!(ParseError::UnmatchedParen.message(), "Unmatched '(' in pattern");
}

#[test]
fn result_holds_nothing_excluded() {
    let pattern = "(a,b,(c,-a),-(b,x),d)(,-d)";
    let pairs = expand_rec(&chars(pattern)).unwrap();
    let result = expand(pattern);
    for text in &result {
        assert!(!pairs.iter().any(|p| p.excluded && &p.text == text));
    }
    for p in &pairs {
        let excluded = pairs.iter().any(|q| q.excluded && q.text == p.text);
        assert_eq!(result.contains(&p.text), !excluded);
    }
}

#[test]
fn expand_rec_gives_the_pairs_with_their_marks() {
    assert_eq!(
        expand_rec(&chars("a(b,-c)d")),
        Ok(vec![pair("abd", false), pair("acd", true)])
    );
    assert_eq!(expand_rec(&chars("")), Ok(vec![pair("", false)]));
    assert_eq!(expand_rec(&chars("(")), Err(ParseError::UnmatchedParen));
}

#[test]
fn exclusion_is_never_lost_in_a_product() {
    assert_eq!(
        expand_rec(&chars("(a,-b)(c,-d)")),
        Ok(vec![pair("ac", false), pair("ad", true), pair("bc", true), pair("bd", true)])
    );
}

#[test]
fn parse_group_returns_the_resume_point() {
    let input = chars("x(a, -b)y");
    assert_eq!(parse_group(&input, 2), Ok((vec![pair("a", false), pair("b", true)], 8)));
    let nested = chars("((a,b),c)z");
    assert_eq!(
        parse_group(&nested, 1),
        Ok((vec![pair("a", false), pair("b", false), pair("c", false)], 9))
    );
    assert_eq!(parse_group(&nested, 2), Ok((vec![pair("a", false), pair("b", false)], 6)));
}

#[test]
fn parse_group_without_an_end_is_an_error() {
    let input = chars("(a,(b)");
    assert_eq!(parse_group(&input, 1), Err(ParseError::UnmatchedParen));
    assert_eq!(parse_group(&input, 6), Err(ParseError::UnmatchedParen));
    assert_eq!(parse_group(&input, 7), Err(ParseError::UnmatchedParen));
}

#[test]
fn parse_alternatives_splits_outside_nested_groups_only() {
    assert_eq!(
        parse_alternatives(&chars("a,(b,c)d, e")),
        Ok(vec![pair("a", false), pair("bd", false), pair("cd", false), pair("e", false)])
    );
    assert_eq!(parse_alternatives(&chars("")), Ok(vec![]));
    assert_eq!(parse_alternatives(&chars("a,(b")), Err(ParseError::UnmatchedParen));
}

#[test]
fn parse_segment_trims_and_marks() {
    assert_eq!(parse_segment(&chars("  a ")), Ok(vec![pair("a", false)]));
    assert_eq!(parse_segment(&chars(" -a(b,c) ")), Ok(vec![pair("ab", true), pair("ac", true)]));
    assert_eq!(parse_segment(&chars(" ^ ")), Ok(vec![pair("", true)]));
    assert_eq!(parse_segment(&chars("   ")), Ok(vec![]));
    assert_eq!(parse_segment(&chars("-(")), Err(ParseError::UnmatchedParen));
}

#[test]
fn patterns_of_a_plain_input_is_the_input() {
    assert_eq!(patterns_of("foo.txt"), Ok(strings(&["foo.txt"])));
    assert_eq!(patterns_of("a)b"), Ok(strings(&["a)b"])));
    assert_eq!(patterns_of(""), Ok(strings(&[""])));
}

#[test]
fn patterns_of_a_grouped_input_is_its_expansion() {
    assert_eq!(patterns_of("src/(foo.txt, bar.txt)"), Ok(strings(&["src/foo.txt", "src/bar.txt"])));
    assert_eq!(patterns_of("src/(keep.txt, -drop.txt)"), Ok(strings(&["src/keep.txt"])));
    assert_eq!(patterns_of("src/(a"), Err(ParseError::UnmatchedParen));
}

#[test]
fn patterns_of_agrees_with_the_expansion() {
    for input in ["", "a", "a,b", "a)b", "-x", "(a,b)", "x(a,-a)", "("] {
        assert_eq!(patterns_of(input), expand_group_pattern(input), "{input}");
    }
}
