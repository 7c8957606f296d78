use fpr::scan::{group_close, next_split};

fn chars(s: &str) -> Vec<char> {
    s.chars().collect()
}

#[test]
fn group_close_finds_the_matching_parenthesis() {
    let input = chars("a(b,(c,d))e)");
    assert_eq!(group_close(&input, 2), Some(9));
    assert_eq!(group_close(&input, 5), Some(8));
    assert_eq!(group_close(&input, 9), Some(9));
    assert_eq!(group_close(&input, 10), Some(11));
}

#[test]
fn group_close_without_an_end() {
    let input = chars("(a,(b)");
    assert_eq!(group_close(&input, 1), None);
    assert_eq!(group_close(&input, 6), None);
    assert_eq!(group_close(&input, 100), None);
    assert_eq!(group_close(&chars(""), 0), None);
}

#[test]
fn next_split_skips_commas_in_nested_groups() {
    assert_eq!(next_split(&chars("a,b")), Some(1));
    assert_eq!(next_split(&chars("(a,b),c")), Some(5));
    assert_eq!(next_split(&chars("((a,b),c)")), None);
    assert_eq!(next_split(&chars("")), None);
    assert_eq!(next_split(&chars(",")), Some(0));
}

#[test]
fn next_split_counts_the_depth_with_its_sign() {
    assert_eq!(next_split(&chars("),a")), None);
    assert_eq!(next_split(&chars("),(,a")), Some(3));
    assert_eq!(next_split(&chars(")(,a")), Some(2));
}
