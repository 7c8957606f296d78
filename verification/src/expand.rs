//! The expander: what a span of characters, a group and a segment stand for,
//! and the functions that compute it.

use vstd::prelude::*;
use vstd::slice::slice_subrange;
use crate::balance::{
    closed, lemma_closed_alternatives, lemma_expands_iff_balanced, lemma_group_iff_closed,
    lemma_segment_iff_balanced, open_groups,
};
use crate::error::ParseError;
use crate::pairs::{
    all_excluded, cartesian, empty_pair, exclude_all, lemma_product_assoc, lemma_product_unit,
    lemma_product_unit_right, lemma_with_char_is_product, literal, product, push_to_all,
    Expansion, Pair,
};
use crate::scan::{first_split, group_close, group_end, lemma_first_top, next_split};
use crate::text::{
    all_white_space, lemma_trimmed_ignores_white_space, lemma_trimmed_len, trim, trimmed,
};

verus! {

/// The characters that mark a segment as excluded, when they lead it.
pub open spec fn is_marker(c: char) -> bool {
    c == '-' || c == '^'
}

/// `xs` followed by every continuation in `rest`, if there are continuations.
pub open spec fn chain(xs: Seq<Pair>, rest: Option<Seq<Pair>>) -> Option<Seq<Pair>> {
    match rest {
        Some(r) => Some(product(xs, r)),
        None => None,
    }
}

/// `first` and then `rest`, if both are there.
pub open spec fn both(first: Option<Seq<Pair>>, rest: Option<Seq<Pair>>) -> Option<Seq<Pair>> {
    match (first, rest) {
        (Some(a), Some(b)) => Some(a + b),
        _ => None,
    }
}

/// What `chars` stands for from index `i` on: a literal character is put
/// before every expansion of what follows it, and a group contributes each
/// of its alternatives in turn. `None` where a `(` is never closed.
pub open spec fn expand_from(chars: Seq<char>, i: int) -> Option<Seq<Pair>>
    decreases chars.len() - i, 0nat,
    when 0 <= i
{
    if i >= chars.len() {
        Some(seq![empty_pair()])
    } else if chars[i] != '(' {
        chain(seq![literal(chars[i])], expand_from(chars, i + 1))
    } else {
        match group_end(chars, i + 1) {
            None => None,
            Some(j) => {
                proof {
                    lemma_first_top(chars, ')', i + 1, i + 1);
                }
                match alternatives(chars.subrange(i + 1, j)) {
                    None => None,
                    Some(alts) => chain(alts, expand_from(chars, j + 1)),
                }
            },
        }
    }
}

/// The alternatives of a group with the content `body`: those of its first
/// segment, then those of the segments after the first comma at depth 0.
pub open spec fn alternatives(body: Seq<char>) -> Option<Seq<Pair>>
    decreases body.len(), 2nat,
{
    match first_split(body) {
        None => segment_alternatives(body),
        Some(k) => {
            proof {
                lemma_first_top(body, ',', 0, 0);
            }
            both(segment_alternatives(body.take(k)), alternatives(body.skip(k + 1)))
        },
    }
}

/// The alternatives of one segment: none if it is blank; otherwise the
/// expansions of its trimmed text, all of them excluded if a marker leads
/// it, the marker itself left out.
pub open spec fn segment_alternatives(segment: Seq<char>) -> Option<Seq<Pair>>
    decreases segment.len(), 1nat,
{
    let text = trimmed(segment);
    if text.len() == 0 {
        Some(Seq::empty())
    } else if is_marker(text[0]) {
        proof {
            lemma_trimmed_len(segment);
        }
        match expand_from(text.drop_first(), 0) {
            Some(pairs) => Some(all_excluded(pairs)),
            None => None,
        }
    } else {
        proof {
            lemma_trimmed_len(segment);
        }
        expand_from(text, 0)
    }
}

/// Every expansion pair of `span`, in order.
pub open spec fn expansions(span: Seq<char>) -> Option<Seq<Pair>> {
    expand_from(span, 0)
}

/// The alternatives of the group whose content starts at `i`, and the index
/// just past its closing `)`.
pub open spec fn group_at(chars: Seq<char>, i: int) -> Option<(Seq<Pair>, int)> {
    match group_end(chars, i) {
        None => None,
        Some(j) => match alternatives(chars.subrange(i, j)) {
            None => None,
            Some(alts) => Some((alts, j + 1)),
        },
    }
}

/// White space around a segment does not count: with any white space put
/// before or after it, the segment has the same alternatives.
pub proof fn lemma_segment_ignores_white_space(
    before: Seq<char>,
    segment: Seq<char>,
    after: Seq<char>,
)
    requires
        all_white_space(before),
        all_white_space(after),
    ensures
        segment_alternatives(before + segment + after) == segment_alternatives(segment),
{
    lemma_trimmed_ignores_white_space(before, segment, after);
}

/// Exclusion reaches everything under the marker: whatever a segment with a
/// leading marker stands for, nested groups included, is excluded, and it is
/// what the segment stands for without the marker.
pub proof fn lemma_marked_segment_excluded(segment: Seq<char>)
    requires
        trimmed(segment).len() > 0,
        is_marker(trimmed(segment)[0]),
    ensures
        segment_alternatives(segment) matches Some(pairs) ==> {
            &&& expansions(trimmed(segment).drop_first()) matches Some(inner)
            &&& pairs == all_excluded(inner)
            &&& forall|k: int| 0 <= k < pairs.len() ==> (#[trigger] pairs[k]).excluded
        },
{
}

/// Expands a span of literal characters and groups into its pairs: the pairs
/// start as the one empty pair, a literal character is appended to each of
/// them, and a group replaces them by their product with its alternatives.
/// Fails exactly when the span leaves a group open.
pub fn expand_rec(span: &[char]) -> (r: Result<Vec<Expansion>, ParseError>)
    ensures
        r is Ok <==> open_groups(span@) == 0,
        match r {
            Ok(pairs) => expansions(span@) == Some(pairs.deep_view()),
            Err(e) => e == ParseError::UnmatchedParen && expansions(span@) is None,
        },
    decreases span@.len(), 0nat,
{
    proof {
        lemma_expands_iff_balanced(span@);
    }
    let mut acc: Vec<Expansion> = Vec::new();
    acc.push(Expansion { text: String::new(), excluded: false });
    let n: usize = span.len();
    let mut i: usize = 0;
    proof {
        assert(acc.deep_view() =~= seq![empty_pair()]);
        match expand_from(span@, 0) {
            Some(rest) => lemma_product_unit(rest),
            None => {},
        }
    }
    while i < n
        invariant
            i <= n,
            n == span@.len(),
            expansions(span@) is Some <==> open_groups(span@) == 0,
            expansions(span@) == chain(acc.deep_view(), expand_from(span@, i as int)),
        decreases n - i,
    {
        let c: char = span[i];
        let ghost before = acc.deep_view();
        if c == '(' {
            match parse_group(span, i + 1) {
                Err(e) => {
                    return Err(e);
                },
                Ok((alts, next)) => {
                    acc = cartesian(&acc, &alts);
                    proof {
                        match expand_from(span@, next as int) {
                            Some(rest) => lemma_product_assoc(before, alts.deep_view(), rest),
                            None => {},
                        }
                    }
                    i = next;
                },
            }
        } else {
            push_to_all(&mut acc, c);
            proof {
                lemma_with_char_is_product(before, c);
                match expand_from(span@, i + 1) {
                    Some(rest) => lemma_product_assoc(before, seq![literal(c)], rest),
                    None => {},
                }
            }
            i += 1;
        }
    }
    proof {
        lemma_product_unit_right(acc.deep_view());
    }
    Ok(acc)
}

/// Parses the comma-separated list inside a `(` … `)`, starting just inside
/// the `(` at `i`, and says where to go on after the `)`. Fails exactly when
/// the input ends before the `)` that closes the group.
pub fn parse_group(chars: &[char], i: usize) -> (r: Result<(Vec<Expansion>, usize), ParseError>)
    ensures
        r is Ok <==> group_end(chars@, i as int) is Some,
        match r {
            Ok((alts, next)) => group_at(chars@, i as int) == Some(
                (alts.deep_view(), next as int),
            ) && i < next <= chars@.len(),
            Err(e) => e == ParseError::UnmatchedParen && group_at(chars@, i as int) is None,
        },
    decreases chars@.len() - i, 3nat,
{
    proof {
        lemma_group_iff_closed(chars@, i as int);
    }
    match group_close(chars, i) {
        None => Err(ParseError::UnmatchedParen),
        Some(j) => {
            let body = slice_subrange(chars, i, j);
            match parse_alternatives(body) {
                Err(e) => Err(e),
                Ok(alts) => Ok((alts, j + 1)),
            }
        },
    }
}

/// Expands every segment of a group's content, in order. Never fails on
/// closed text, which the content of a group is.
pub fn parse_alternatives(body: &[char]) -> (r: Result<Vec<Expansion>, ParseError>)
    ensures
        closed(body@) ==> r is Ok,
        match r {
            Ok(alts) => alternatives(body@) == Some(alts.deep_view()),
            Err(e) => e == ParseError::UnmatchedParen && alternatives(body@) is None,
        },
    decreases body@.len(), 2nat,
{
    let mut out: Vec<Expansion> = Vec::new();
    let mut rest: &[char] = body;
    proof {
        match alternatives(body@) {
            Some(all) => {
                assert(out.deep_view() + all =~= all);
            },
            None => {},
        }
        if closed(body@) {
            lemma_closed_alternatives(body@);
        }
    }
    loop
        invariant
            rest@.len() <= body@.len(),
            closed(body@) ==> alternatives(body@) is Some,
            alternatives(body@) == both(Some(out.deep_view()), alternatives(rest@)),
        decreases rest@.len(),
    {
        let ghost done = out.deep_view();
        match next_split(rest) {
            None => {
                match parse_segment(rest) {
                    Err(e) => {
                        return Err(e);
                    },
                    Ok(mut last) => {
                        let ghost added = last.deep_view();
                        out.append(&mut last);
                        proof {
                            assert(out.deep_view() =~= done + added);
                        }
                        return Ok(out);
                    },
                }
            },
            Some(k) => {
                let segment = slice_subrange(rest, 0, k);
                match parse_segment(segment) {
                    Err(e) => {
                        return Err(e);
                    },
                    Ok(mut pairs) => {
                        let ghost added = pairs.deep_view();
                        out.append(&mut pairs);
                        proof {
                            assert(out.deep_view() =~= done + added);
                            match alternatives(rest@.skip(k + 1)) {
                                Some(more) => {
                                    assert(done + (added + more) =~= (done + added) + more);
                                },
                                None => {},
                            }
                        }
                        rest = slice_subrange(rest, k + 1, rest.len());
                    },
                }
            },
        }
    }
}

/// Expands one segment of a group: trims it, takes a leading marker off,
/// expands what is left, and marks the outcome if there was a marker. Fails
/// exactly when the segment leaves a group open.
pub fn parse_segment(segment: &[char]) -> (r: Result<Vec<Expansion>, ParseError>)
    ensures
        r is Ok <==> open_groups(segment@) == 0,
        match r {
            Ok(pairs) => segment_alternatives(segment@) == Some(pairs.deep_view()),
            Err(e) => e == ParseError::UnmatchedParen && segment_alternatives(segment@) is None,
        },
    decreases segment@.len(), 1nat,
{
    let text = trim(segment);
    proof {
        lemma_trimmed_len(segment@);
        lemma_segment_iff_balanced(segment@);
    }
    if text.len() == 0 {
        let none: Vec<Expansion> = Vec::new();
        proof {
            assert(none.deep_view() =~= Seq::<Pair>::empty());
        }
        return Ok(none);
    }
    let first: char = text[0];
    if first == '-' || first == '^' {
        let inner = slice_subrange(text, 1, text.len());
        proof {
            assert(inner@ =~= text@.drop_first());
        }
        match expand_rec(inner) {
            Err(e) => Err(e),
            Ok(mut pairs) => {
                exclude_all(&mut pairs);
                Ok(pairs)
            },
        }
    } else {
        expand_rec(text)
    }
}

} // verus!
