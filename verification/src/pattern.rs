//! The entry points: from one pattern string to the strings it stands for.

use vstd::prelude::*;
use crate::balance::{lemma_expands_iff_balanced, open_groups};
use crate::error::ParseError;
use crate::expand::{expand_from, expand_rec, expansions};
use crate::pairs::{literal, product, Pair};
use crate::resolve::{
    excluded_texts, included_texts, lemma_included_push, lemma_resolved_not_excluded,
    lemma_without_nothing, resolve, resolved,
};
use crate::text::{contains_char, to_chars};

verus! {

/// What a pattern stands for: the texts of its expansion pairs that are
/// included and nowhere excluded, in order. `None` where a `(` is never
/// closed.
pub open spec fn expand(pattern: Seq<char>) -> Option<Seq<Seq<char>>> {
    match expansions(pattern) {
        Some(pairs) => Some(resolved(pairs)),
        None => None,
    }
}

/// The texts that a pattern excludes.
pub open spec fn excluded_by(pattern: Seq<char>) -> Set<Seq<char>> {
    match expansions(pattern) {
        Some(pairs) => excluded_texts(pairs),
        None => Set::empty(),
    }
}

proof fn lemma_plain_from(chars: Seq<char>, i: int)
    requires
        0 <= i <= chars.len(),
        forall|k: int| i <= k < chars.len() ==> chars[k] != '(',
    ensures
        expand_from(chars, i) == Some(seq![Pair { text: chars.skip(i), excluded: false }]),
    decreases chars.len() - i,
{
    if i >= chars.len() {
        assert(chars.skip(i) =~= Seq::<char>::empty());
    } else {
        lemma_plain_from(chars, i + 1);
        let head = seq![literal(chars[i])];
        let rest = seq![Pair { text: chars.skip(i + 1), excluded: false }];
        assert(head.drop_last() =~= Seq::<Pair>::empty());
        assert(product(head.drop_last(), rest) =~= Seq::<Pair>::empty());
        assert(seq![chars[i]] + chars.skip(i + 1) =~= chars.skip(i));
        assert(product(head, rest) =~= seq![Pair { text: chars.skip(i), excluded: false }]);
    }
}

/// A pattern without `(` stands for itself and nothing else.
pub proof fn lemma_plain_pattern(pattern: Seq<char>)
    requires
        !pattern.contains('('),
    ensures
        expansions(pattern) == Some(seq![Pair { text: pattern, excluded: false }]),
        expand(pattern) == Some(seq![pattern]),
{
    lemma_plain_from(pattern, 0);
    assert(pattern.skip(0) =~= pattern);
    let pair = Pair { text: pattern, excluded: false };
    let pairs = seq![pair];
    let none = Seq::<Pair>::empty();
    assert(none.push(pair) =~= pairs);
    lemma_included_push(none, pair);
    assert(included_texts(none) =~= Seq::<Seq<char>>::empty()) by {
        reveal(Seq::filter);
    }
    assert(included_texts(pairs) =~= seq![pattern]);
    assert forall|k: int| 0 <= k < seq![pattern].len() implies !excluded_texts(pairs).contains(
        #[trigger] seq![pattern][k],
    ) by {
        if excluded_texts(pairs).contains(pattern) {
            let j = choose|j: int|
                0 <= j < pairs.len() && (#[trigger] pairs[j]).excluded && pairs[j].text == pattern;
            assert(!pairs[j].excluded);
        }
    }
    lemma_without_nothing(seq![pattern], excluded_texts(pairs));
}

/// Expands a single argument that may use parenthetical grouping and
/// exclusions into the concrete path or glob strings it stands for, the
/// exclusions already applied.
///
/// Fails exactly when the pattern leaves a group open. What it returns holds
/// no text that the pattern excludes.
pub fn expand_group_pattern(pattern: &str) -> (r: Result<Vec<String>, ParseError>)
    ensures
        r is Ok <==> open_groups(pattern@) == 0,
        match r {
            Ok(texts) => expand(pattern@) == Some(texts.deep_view()) && forall|k: int|
                0 <= k < texts.len() ==> !excluded_by(pattern@).contains((#[trigger] texts[k])@),
            Err(e) => e == ParseError::UnmatchedParen && expand(pattern@) is None,
        },
{
    let chars = to_chars(pattern);
    match expand_rec(chars.as_slice()) {
        Err(e) => Err(e),
        Ok(pairs) => {
            let texts = resolve(pairs);
            proof {
                lemma_resolved_not_excluded(pairs.deep_view());
                assert forall|k: int| 0 <= k < texts.len() implies !excluded_by(
                    pattern@,
                ).contains((#[trigger] texts[k])@) by {
                    assert(texts.deep_view()[k] == texts[k]@);
                }
            }
            Ok(texts)
        },
    }
}

/// The patterns that one command-line input stands for: its expansion where
/// it uses the group syntax, and the input itself where it holds no `(`,
/// which is its expansion too.
pub fn patterns_of(raw: &str) -> (r: Result<Vec<String>, ParseError>)
    ensures
        r is Ok <==> open_groups(raw@) == 0,
        match r {
            Ok(texts) => expand(raw@) == Some(texts.deep_view()),
            Err(e) => e == ParseError::UnmatchedParen && expand(raw@) is None,
        },
{
    if contains_char(raw, '(') {
        expand_group_pattern(raw)
    } else {
        let mut texts: Vec<String> = Vec::new();
        texts.push(String::from_str(raw));
        proof {
            lemma_plain_pattern(raw@);
            lemma_expands_iff_balanced(raw@);
            assert(texts.deep_view() =~= seq![raw@]);
        }
        Ok(texts)
    }
}

} // verus!
