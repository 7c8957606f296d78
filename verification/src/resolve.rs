//! Resolving exclusions: which of the expanded strings remain.

use vstd::prelude::*;
use vstd::hash_set::StringHashSet;
use crate::pairs::{Expansion, Pair};

verus! {

/// The texts of the pairs that are not excluded, in order, duplicates kept.
pub open spec fn included_texts(pairs: Seq<Pair>) -> Seq<Seq<char>> {
    pairs.filter(|p: Pair| !p.excluded).map_values(|p: Pair| p.text)
}

/// The texts of the pairs that are excluded.
pub open spec fn excluded_texts(pairs: Seq<Pair>) -> Set<Seq<char>> {
    Set::new(
        |t: Seq<char>|
            exists|k: int| 0 <= k < pairs.len() && (#[trigger] pairs[k]).excluded && pairs[k].text == t,
    )
}

/// `texts` without those that are in `banned`, the order kept.
pub open spec fn without(texts: Seq<Seq<char>>, banned: Set<Seq<char>>) -> Seq<Seq<char>> {
    texts.filter(|t: Seq<char>| !banned.contains(t))
}

/// What remains of `pairs`: every included text that is not excluded
/// anywhere, in the order in which the included texts came.
pub open spec fn resolved(pairs: Seq<Pair>) -> Seq<Seq<char>> {
    without(included_texts(pairs), excluded_texts(pairs))
}

/// `texts` as pairs, none of them excluded.
pub open spec fn as_included(texts: Seq<Seq<char>>) -> Seq<Pair> {
    texts.map_values(|t: Seq<char>| Pair { text: t, excluded: false })
}

/// Filtering a sequence that grew by one element.
pub proof fn lemma_filter_push<A>(s: Seq<A>, x: A, pred: spec_fn(A) -> bool)
    ensures
        s.push(x).filter(pred) == if pred(x) {
            s.filter(pred).push(x)
        } else {
            s.filter(pred)
        },
{
    reveal(Seq::filter);
    assert(s.push(x).drop_last() =~= s);
}

/// The included texts of a pair list that grew by one pair.
pub proof fn lemma_included_push(pairs: Seq<Pair>, p: Pair)
    ensures
        included_texts(pairs.push(p)) == if p.excluded {
            included_texts(pairs)
        } else {
            included_texts(pairs).push(p.text)
        },
{
    lemma_filter_push(pairs, p, |q: Pair| !q.excluded);
    if !p.excluded {
        assert(included_texts(pairs.push(p)) =~= included_texts(pairs).push(p.text));
    }
}

/// The excluded texts of a pair list that grew by one pair.
pub proof fn lemma_excluded_push(pairs: Seq<Pair>, p: Pair)
    ensures
        excluded_texts(pairs.push(p)) == if p.excluded {
            excluded_texts(pairs).insert(p.text)
        } else {
            excluded_texts(pairs)
        },
{
    let more = pairs.push(p);
    let expected = if p.excluded {
        excluded_texts(pairs).insert(p.text)
    } else {
        excluded_texts(pairs)
    };
    assert forall|t: Seq<char>| excluded_texts(more).contains(t) <==> expected.contains(t) by {
        if excluded_texts(more).contains(t) {
            let k = choose|k: int|
                0 <= k < more.len() && (#[trigger] more[k]).excluded && more[k].text == t;
            if k < pairs.len() {
                assert(pairs[k].excluded && pairs[k].text == t);
            }
        }
        if excluded_texts(pairs).contains(t) {
            let k = choose|k: int|
                0 <= k < pairs.len() && (#[trigger] pairs[k]).excluded && pairs[k].text == t;
            assert(more[k].excluded && more[k].text == t);
        }
        if p.excluded && t == p.text {
            assert(more[pairs.len() as int].excluded && more[pairs.len() as int].text == t);
        }
    }
    assert(excluded_texts(more) =~= expected);
}

/// Nothing that remains is excluded: no text of the result is the text of an
/// excluded pair of the same list.
pub proof fn lemma_resolved_not_excluded(pairs: Seq<Pair>)
    ensures
        forall|k: int|
            0 <= k < resolved(pairs).len() ==> !excluded_texts(pairs).contains(
                #[trigger] resolved(pairs)[k],
            ),
{
    let banned = excluded_texts(pairs);
    let keep = |t: Seq<char>| !banned.contains(t);
    assert forall|k: int| 0 <= k < resolved(pairs).len() implies !banned.contains(
        #[trigger] resolved(pairs)[k],
    ) by {
        included_texts(pairs).lemma_filter_pred(keep, k);
    }
}

/// A text remains exactly when some pair includes it and no pair excludes it.
pub proof fn lemma_resolved_contains(pairs: Seq<Pair>, t: Seq<char>)
    ensures
        resolved(pairs).contains(t) <==> included_texts(pairs).contains(t) && !excluded_texts(
            pairs,
        ).contains(t),
{
    let banned = excluded_texts(pairs);
    let keep = |t: Seq<char>| !banned.contains(t);
    let texts = included_texts(pairs);
    if resolved(pairs).contains(t) {
        texts.lemma_filter_contains_rev(keep, t);
        let k = choose|k: int| 0 <= k < resolved(pairs).len() && resolved(pairs)[k] == t;
        texts.lemma_filter_pred(keep, k);
    }
    if texts.contains(t) && !banned.contains(t) {
        let k = choose|k: int| 0 <= k < texts.len() && texts[k] == t;
        texts.lemma_filter_contains(keep, k);
    }
}

/// Taking the banned texts out a second time changes nothing.
pub proof fn lemma_without_idempotent(texts: Seq<Seq<char>>, banned: Set<Seq<char>>)
    ensures
        without(without(texts, banned), banned) == without(texts, banned),
    decreases texts.len(),
{
    let keep = |t: Seq<char>| !banned.contains(t);
    if texts.len() == 0 {
        reveal(Seq::filter);
    } else {
        let front = texts.drop_last();
        let x = texts.last();
        lemma_without_idempotent(front, banned);
        assert(front.push(x) =~= texts);
        lemma_filter_push(front, x, keep);
        if keep(x) {
            lemma_filter_push(front.filter(keep), x, keep);
        }
    }
}

/// Where nothing is banned, everything remains.
pub proof fn lemma_without_nothing(texts: Seq<Seq<char>>, banned: Set<Seq<char>>)
    requires
        forall|k: int| 0 <= k < texts.len() ==> !banned.contains(#[trigger] texts[k]),
    ensures
        without(texts, banned) == texts,
    decreases texts.len(),
{
    let keep = |t: Seq<char>| !banned.contains(t);
    if texts.len() == 0 {
        reveal(Seq::filter);
    } else {
        let front = texts.drop_last();
        let x = texts.last();
        lemma_without_nothing(front, banned);
        assert(front.push(x) =~= texts);
        lemma_filter_push(front, x, keep);
    }
}

/// Resolution is idempotent: resolving what a resolution left, taken as
/// included pairs, leaves all of it.
pub proof fn lemma_resolved_idempotent(pairs: Seq<Pair>)
    ensures
        resolved(as_included(resolved(pairs))) == resolved(pairs),
{
    let texts = resolved(pairs);
    lemma_included_of_as_included(texts);
    assert forall|t: Seq<char>| !excluded_texts(as_included(texts)).contains(t) by {
        if excluded_texts(as_included(texts)).contains(t) {
            let k = choose|k: int|
                0 <= k < as_included(texts).len() && (#[trigger] as_included(texts)[k]).excluded
                    && as_included(texts)[k].text == t;
            assert(!as_included(texts)[k].excluded);
        }
    }
    lemma_without_nothing(texts, excluded_texts(as_included(texts)));
}

/// Every text of `as_included(texts)` is included, in the same order.
proof fn lemma_included_of_as_included(texts: Seq<Seq<char>>)
    ensures
        included_texts(as_included(texts)) == texts,
    decreases texts.len(),
{
    if texts.len() == 0 {
        reveal(Seq::filter);
        assert(included_texts(as_included(texts)) =~= texts);
    } else {
        let front = texts.drop_last();
        let x = texts.last();
        lemma_included_of_as_included(front);
        assert(as_included(texts) =~= as_included(front).push(Pair { text: x, excluded: false }));
        lemma_included_push(as_included(front), Pair { text: x, excluded: false });
        assert(front.push(x) =~= texts);
    }
}

/// Parts the pairs into included and excluded texts and returns the included
/// ones that are not excluded, in their order.
pub fn resolve(pairs: Vec<Expansion>) -> (out: Vec<String>)
    ensures
        out.deep_view() == resolved(pairs.deep_view()),
{
    let ghost model = pairs.deep_view();
    let ghost all = pairs@;
    let mut includes: Vec<String> = Vec::new();
    let mut excludes = StringHashSet::new();
    proof {
        reveal(Seq::filter);
        assert(model.take(0) =~= Seq::<Pair>::empty());
        assert(includes.deep_view() =~= included_texts(model.take(0)));
        assert(excludes@ =~= excluded_texts(model.take(0)));
    }
    for e in it: pairs
        invariant
            it.seq() == all,
            model.len() == all.len(),
            forall|k: int| 0 <= k < all.len() ==> model[k] == (#[trigger] all[k])@,
            includes.deep_view() == included_texts(model.take(it.index())),
            excludes@ == excluded_texts(model.take(it.index())),
    {
        let ghost k = it.index();
        let ghost before = includes.deep_view();
        proof {
            assert(model.take(k + 1) =~= model.take(k).push(e@));
            lemma_included_push(model.take(k), e@);
            lemma_excluded_push(model.take(k), e@);
        }
        if e.excluded {
            excludes.insert(e.text);
        } else {
            includes.push(e.text);
            proof {
                assert(includes.deep_view() =~= before.push(e@.text));
            }
        }
    }
    proof {
        assert(model.take(model.len() as int) =~= model);
    }
    let ghost texts = includes.deep_view();
    let ghost shown = includes@;
    let ghost banned = excludes@;
    let ghost keep = |t: Seq<char>| !banned.contains(t);
    let mut out: Vec<String> = Vec::new();
    proof {
        reveal(Seq::filter);
        assert(texts.take(0) =~= Seq::<Seq<char>>::empty());
        assert(out.deep_view() =~= without(texts.take(0), banned));
    }
    for s in it: includes
        invariant
            it.seq() == shown,
            texts.len() == shown.len(),
            forall|k: int| 0 <= k < shown.len() ==> texts[k] == (#[trigger] shown[k])@,
            banned == excludes@,
            keep == |t: Seq<char>| !banned.contains(t),
            out.deep_view() == texts.take(it.index()).filter(keep),
    {
        let ghost k = it.index();
        let ghost before = out.deep_view();
        proof {
            assert(texts.take(k + 1) =~= texts.take(k).push(s@));
            lemma_filter_push(texts.take(k), s@, keep);
        }
        if !excludes.contains(s.as_str()) {
            out.push(s);
            proof {
                assert(out.deep_view() =~= before.push(s@));
            }
        }
    }
    proof {
        assert(texts.take(texts.len() as int) =~= texts);
    }
    out
}

} // verus!
