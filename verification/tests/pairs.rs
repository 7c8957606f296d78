use fpr::pairs::{cartesian, exclude_all, push_to_all, Expansion};

fn pair(text: &str, excluded: bool) -> Expansion {
    Expansion { text: text.to_string(), excluded }
}

#[test]
fn cartesian_orders_by_prefix_first() {
    let prefixes = vec![pair("a", false), pair("b", true)];
    let suffixes = vec![pair("1", false), pair("2", true), pair("3", false)];
    assert_eq!(
        cartesian(&prefixes, &suffixes),
        vec![
            pair("a1", false),
            pair("a2", true),
            pair("a3", false),
            pair("b1", true),
            pair("b2", true),
            pair("b3", true),
        ]
    );
}

#[test]
fn cartesian_lays_the_pairs_out_row_by_row() {
    let prefixes = vec![pair("x", false), pair("y", false), pair("z", true)];
    let suffixes = vec![pair("p", false), pair("q", true)];
    let out = cartesian(&prefixes, &suffixes);
    assert_eq!(out.len(), prefixes.len() * suffixes.len());
    for (i, a) in prefixes.iter().enumerate() {
        for (j, b) in suffixes.iter().enumerate() {
            let at = &out[i * suffixes.len() + j];
            assert_eq!(at.text, format!("{}{}", a.text, b.text));
            assert_eq!(at.excluded, a.excluded || b.excluded);
        }
    }
}

#[test]
fn cartesian_with_nothing_is_nothing() {
    let some = vec![pair("a", false)];
    let none: Vec<Expansion> = vec![];
    assert_eq!(cartesian(&some, &none), vec![]);
    assert_eq!(cartesian(&none, &some), vec![]);
}

#[test]
fn cartesian_with_the_empty_pair_changes_nothing() {
    let some = vec![pair("a", false), pair("b", true)];
    let unit = vec![pair("", false)];
    assert_eq!(cartesian(&some, &unit), some);
    assert_eq!(cartesian(&unit, &some), some);
}

#[test]
fn cartesian_is_associative() {
    let a = vec![pair("a", false), pair("b", true)];
    let b = vec![pair("1", false), pair("2", false), pair("3", true)];
    let c = vec![pair("x", true), pair("y", false)];
    assert_eq!(cartesian(&cartesian(&a, &b), &c), cartesian(&a, &cartesian(&b, &c)));
}

#[test]
fn push_to_all_appends_to_every_text() {
    let mut acc = vec![pair("", false), pair("ab", true), pair("é", false)];
    push_to_all(&mut acc, 'x');
    assert_eq!(acc, vec![pair("x", false), pair("abx", true), pair("éx", false)]);
    push_to_all(&mut acc, '漢');
    assert_eq!(acc, vec![pair("x漢", false), pair("abx漢", true), pair("éx漢", false)]);
}

#[test]
fn push_to_all_is_the_product_with_the_literal() {
    let start = vec![pair("a", false), pair("b", true)];
    let mut acc = start.clone();
    push_to_all(&mut acc, 'c');
    assert_eq!(acc, cartesian(&start, &vec![pair("c", false)]));
}

#[test]
fn exclude_all_marks_every_pair_and_keeps_the_texts() {
    let mut acc = vec![pair("a", false), pair("b", true)];
    exclude_all(&mut acc);
    assert_eq!(acc, vec![pair("a", true), pair("b", true)]);
}
