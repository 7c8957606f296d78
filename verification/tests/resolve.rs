use fpr::pairs::Expansion;
use fpr::resolve::resolve;

fn pair(text: &str, excluded: bool) -> Expansion {
    Expansion { text: text.to_string(), excluded }
}

fn strings(items: &[&str]) -> Vec<String> {
    items.iter().map(|s| s.to_string()).collect()
}

fn included(texts: &[String]) -> Vec<Expansion> {
    texts.iter().map(|t| Expansion { text: t.clone(), excluded: false }).collect()
}

#[test]
fn resolve_drops_what_is_excluded_anywhere() {
    let pairs = vec![
        pair("a", false),
        pair("b", false),
        pair("a", true),
        pair("c", false),
        pair("d", true),
        pair("b", false),
    ];
    assert_eq!(resolve(pairs), strings(&["b", "c", "b"]));
}

#[test]
fn resolve_looks_at_exclusions_that_come_first_too() {
    let pairs = vec![pair("a", true), pair("a", false), pair("b", false)];
    assert_eq!(resolve(pairs), strings(&["b"]));
}

#[test]
fn resolve_keeps_order_and_duplicates() {
    let pairs = vec![pair("z", false), pair("a", false), pair("z", false)];
    assert_eq!(resolve(pairs), strings(&["z", "a", "z"]));
}

#[test]
fn resolve_of_nothing_is_nothing() {
    assert_eq!(resolve(vec![]), strings(&[]));
    assert_eq!(resolve(vec![pair("a", true)]), strings(&[]));
}

#[test]
fn resolve_compares_whole_texts() {
    let pairs = vec![pair("ab", false), pair("a", true), pair("", false), pair(" ", true)];
    assert_eq!(resolve(pairs), strings(&["ab", ""]));
}

#[test]
fn resolving_twice_changes_nothing() {
    let pairs = vec![
        pair("a", false),
        pair("b", false),
        pair("a", true),
        pair("c", false),
        pair("b", false),
    ];
    let once = resolve(pairs.clone());
    let twice = resolve(included(&once));
    assert_eq!(once, twice);
    assert_eq!(resolve(pairs.clone()), resolve(pairs));
}
