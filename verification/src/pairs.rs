//! Expansion pairs: a concrete string together with the mark that says whether
//! it is to be left out, and the ways such pairs combine.

use vstd::prelude::*;

verus! {

/// One string that a pattern stands for, and whether an exclusion marker
/// covers it.
#[derive(Debug, Clone, PartialEq, Eq)]
pub struct Expansion {
    pub text: String,
    pub excluded: bool,
}

/// An [`Expansion`] as a mathematical value.
pub struct Pair {
    pub text: Seq<char>,
    pub excluded: bool,
}

impl View for Expansion {
    type V = Pair;

    open spec fn view(&self) -> Pair {
        Pair { text: self.text@, excluded: self.excluded }
    }
}

impl DeepView for Expansion {
    type V = Pair;

    open spec fn deep_view(&self) -> Pair {
        self@
    }
}

/// The pair that every scan starts from: no text, not excluded.
pub open spec fn empty_pair() -> Pair {
    Pair { text: Seq::empty(), excluded: false }
}

/// The pair for one literal character.
pub open spec fn literal(c: char) -> Pair {
    Pair { text: seq![c], excluded: false }
}

/// `a` followed by `b`: the texts are concatenated, and the result is
/// excluded as soon as one of the two is.
pub open spec fn join(a: Pair, b: Pair) -> Pair {
    Pair { text: a.text + b.text, excluded: a.excluded || b.excluded }
}

/// `a` followed by each of `bs`, in the order of `bs`.
pub open spec fn row(a: Pair, bs: Seq<Pair>) -> Seq<Pair> {
    Seq::new(bs.len(), |k: int| join(a, bs[k]))
}

/// The cartesian product of `xs` and `ys`: every pair of `xs` followed by
/// every pair of `ys`, ordered by `xs` first.
pub open spec fn product(xs: Seq<Pair>, ys: Seq<Pair>) -> Seq<Pair>
    decreases xs.len(),
{
    if xs.len() == 0 {
        Seq::empty()
    } else {
        product(xs.drop_last(), ys) + row(xs.last(), ys)
    }
}

/// Every pair of `xs` with `c` appended to its text.
pub open spec fn with_char(xs: Seq<Pair>, c: char) -> Seq<Pair> {
    Seq::new(xs.len(), |k: int| Pair { text: xs[k].text.push(c), excluded: xs[k].excluded })
}

/// Every pair of `xs`, marked as excluded.
pub open spec fn all_excluded(xs: Seq<Pair>) -> Seq<Pair> {
    Seq::new(xs.len(), |k: int| Pair { text: xs[k].text, excluded: true })
}

/// The product is laid out row by row: it has `xs.len() * ys.len()` pairs,
/// and the pair at `i * ys.len() + j` is `xs[i]` followed by `ys[j]`.
pub proof fn lemma_product_index(xs: Seq<Pair>, ys: Seq<Pair>, i: int, j: int)
    requires
        0 <= i < xs.len(),
        0 <= j < ys.len(),
    ensures
        product(xs, ys).len() == xs.len() * ys.len(),
        0 <= i * ys.len() + j < product(xs, ys).len(),
        product(xs, ys)[i * ys.len() + j] == join(xs[i], ys[j]),
    decreases xs.len(),
{
    let front = xs.drop_last();
    lemma_product_len(front, ys);
    lemma_product_len(xs, ys);
    assert(i * ys.len() + j < (i + 1) * ys.len()) by (nonlinear_arith)
        requires
            j < ys.len(),
    ;
    assert((i + 1) * ys.len() <= xs.len() * ys.len()) by (nonlinear_arith)
        requires
            i + 1 <= xs.len(),
            0 <= ys.len(),
    ;
    assert(0 <= i * ys.len()) by (nonlinear_arith)
        requires
            0 <= i,
            0 <= ys.len(),
    ;
    if i < front.len() {
        lemma_product_index(front, ys, i, j);
    } else {
        assert(i == front.len());
    }
}

/// The product has one pair for each choice of one pair from either side.
pub proof fn lemma_product_len(xs: Seq<Pair>, ys: Seq<Pair>)
    ensures
        product(xs, ys).len() == xs.len() * ys.len(),
    decreases xs.len(),
{
    if xs.len() > 0 {
        lemma_product_len(xs.drop_last(), ys);
        assert((xs.len() - 1) * ys.len() + ys.len() == xs.len() * ys.len()) by (nonlinear_arith);
    }
}

/// A pair is excluded in the product exactly when one of its two parts is:
/// exclusion is never lost by combining.
pub proof fn lemma_product_excluded(xs: Seq<Pair>, ys: Seq<Pair>, i: int, j: int)
    requires
        0 <= i < xs.len(),
        0 <= j < ys.len(),
    ensures
        0 <= i * ys.len() + j < product(xs, ys).len(),
        product(xs, ys)[i * ys.len() + j].excluded == (xs[i].excluded || ys[j].excluded),
{
    lemma_product_index(xs, ys, i, j);
}

/// Adding one pair on the left adds one row to the product.
pub proof fn lemma_product_push(xs: Seq<Pair>, x: Pair, ys: Seq<Pair>)
    ensures
        product(xs.push(x), ys) == product(xs, ys) + row(x, ys),
{
    assert(xs.push(x).drop_last() =~= xs);
}

/// The empty pair is a left unit of the product.
pub proof fn lemma_product_unit(ys: Seq<Pair>)
    ensures
        product(seq![empty_pair()], ys) == ys,
{
    let one = seq![empty_pair()];
    assert(one.drop_last() =~= Seq::<Pair>::empty());
    assert(product(one.drop_last(), ys) =~= Seq::<Pair>::empty());
    assert forall|k: int| 0 <= k < ys.len() implies row(empty_pair(), ys)[k] == ys[k] by {
        assert(empty_pair().text + ys[k].text =~= ys[k].text);
    }
    assert(product(one, ys) =~= ys);
}

/// The empty pair is a right unit of the product.
pub proof fn lemma_product_unit_right(xs: Seq<Pair>)
    ensures
        product(xs, seq![empty_pair()]) == xs,
    decreases xs.len(),
{
    if xs.len() > 0 {
        lemma_product_unit_right(xs.drop_last());
        assert(xs.last().text + empty_pair().text =~= xs.last().text);
        assert(row(xs.last(), seq![empty_pair()]) =~= seq![xs.last()]);
        assert(xs.drop_last() + seq![xs.last()] =~= xs);
    } else {
        assert(product(xs, seq![empty_pair()]) =~= xs);
    }
}

/// The product distributes over concatenation on the left.
pub proof fn lemma_product_concat(xs: Seq<Pair>, more: Seq<Pair>, ys: Seq<Pair>)
    ensures
        product(xs + more, ys) == product(xs, ys) + product(more, ys),
    decreases more.len(),
{
    if more.len() == 0 {
        assert(xs + more =~= xs);
        assert(product(xs, ys) + product(more, ys) =~= product(xs, ys));
    } else {
        lemma_product_concat(xs, more.drop_last(), ys);
        assert((xs + more).drop_last() =~= xs + more.drop_last());
        assert((xs + more).last() == more.last());
        assert((product(xs, ys) + product(more.drop_last(), ys)) + row(more.last(), ys)
            =~= product(xs, ys) + (product(more.drop_last(), ys) + row(more.last(), ys)));
    }
}

/// A row over a product is the product of the row.
proof fn lemma_row_product(a: Pair, ys: Seq<Pair>, zs: Seq<Pair>)
    ensures
        row(a, product(ys, zs)) == product(row(a, ys), zs),
    decreases ys.len(),
{
    if ys.len() == 0 {
        assert(row(a, ys) =~= Seq::<Pair>::empty());
        assert(row(a, product(ys, zs)) =~= Seq::<Pair>::empty());
    } else {
        let front = ys.drop_last();
        let last = ys.last();
        lemma_row_product(a, front, zs);
        assert(row(a, ys).drop_last() =~= row(a, front));
        assert(row(a, ys).last() == join(a, last));
        assert forall|k: int| 0 <= k < zs.len() implies row(a, row(last, zs))[k] == row(
            join(a, last),
            zs,
        )[k] by {
            assert(a.text + (last.text + zs[k].text) =~= (a.text + last.text) + zs[k].text);
        }
        assert(row(a, row(last, zs)) =~= row(join(a, last), zs));
        assert(row(a, product(front, zs) + row(last, zs)) =~= row(a, product(front, zs)) + row(
            a,
            row(last, zs),
        ));
    }
}

/// The product is associative: the order in which groups are combined does
/// not change what comes out, nor its order.
pub proof fn lemma_product_assoc(xs: Seq<Pair>, ys: Seq<Pair>, zs: Seq<Pair>)
    ensures
        product(product(xs, ys), zs) == product(xs, product(ys, zs)),
    decreases xs.len(),
{
    if xs.len() == 0 {
        assert(product(xs, ys) =~= Seq::<Pair>::empty());
    } else {
        lemma_product_assoc(xs.drop_last(), ys, zs);
        lemma_product_concat(product(xs.drop_last(), ys), row(xs.last(), ys), zs);
        lemma_row_product(xs.last(), ys, zs);
    }
}

/// Appending a character to every pair is the product with that literal.
pub proof fn lemma_with_char_is_product(xs: Seq<Pair>, c: char)
    ensures
        with_char(xs, c) == product(xs, seq![literal(c)]),
    decreases xs.len(),
{
    if xs.len() == 0 {
        assert(with_char(xs, c) =~= product(xs, seq![literal(c)]));
    } else {
        lemma_with_char_is_product(xs.drop_last(), c);
        assert(xs.last().text + literal(c).text =~= xs.last().text.push(c));
        assert(row(xs.last(), seq![literal(c)]) =~= seq![
            Pair { text: xs.last().text.push(c), excluded: xs.last().excluded },
        ]);
        assert(with_char(xs, c) =~= with_char(xs.drop_last(), c) + row(
            xs.last(),
            seq![literal(c)],
        ));
    }
}

/// `String::push` appends the character to the end of the string.
pub assume_specification[ String::push ](s: &mut String, c: char)
    ensures
        final(s)@ == old(s)@.push(c),
;

/// Appends `c` to the text of every expansion in `acc`.
pub fn push_to_all(acc: &mut Vec<Expansion>, c: char)
    ensures
        final(acc).deep_view() == with_char(old(acc).deep_view(), c),
{
    let n: usize = acc.len();
    let mut k: usize = 0;
    while k < n
        invariant
            k <= n,
            acc.len() == n,
            old(acc).len() == n,
            forall|j: int| 0 <= j < k ==> (#[trigger] acc[j])@ == with_char(old(acc).deep_view(), c)[j],
            forall|j: int| k <= j < n ==> acc[j] == old(acc)[j],
        decreases n - k,
    {
        acc[k].text.push(c);
        k += 1;
    }
    assert(acc.deep_view() =~= with_char(old(acc).deep_view(), c));
}

/// Marks every expansion in `acc` as excluded.
pub fn exclude_all(acc: &mut Vec<Expansion>)
    ensures
        final(acc).deep_view() == all_excluded(old(acc).deep_view()),
{
    let n: usize = acc.len();
    let mut k: usize = 0;
    while k < n
        invariant
            k <= n,
            acc.len() == n,
            old(acc).len() == n,
            forall|j: int| 0 <= j < k ==> (#[trigger] acc[j])@ == all_excluded(old(acc).deep_view())[j],
            forall|j: int| k <= j < n ==> acc[j] == old(acc)[j],
        decreases n - k,
    {
        acc[k].excluded = true;
        k += 1;
    }
    assert(acc.deep_view() =~= all_excluded(old(acc).deep_view()));
}

/// Every expansion of `prefixes` followed by every expansion of `suffixes`.
pub fn cartesian(prefixes: &Vec<Expansion>, suffixes: &Vec<Expansion>) -> (out: Vec<Expansion>)
    ensures
        out.deep_view() == product(prefixes.deep_view(), suffixes.deep_view()),
{
    let ghost xs = prefixes.deep_view();
    let ghost ys = suffixes.deep_view();
    let mut out: Vec<Expansion> = Vec::new();
    let mut p: usize = 0;
    proof {
        assert(xs.take(0) =~= Seq::<Pair>::empty());
        assert(out.deep_view() =~= product(xs.take(0), ys));
    }
    while p < prefixes.len()
        invariant
            p <= prefixes.len(),
            xs == prefixes.deep_view(),
            ys == suffixes.deep_view(),
            out.deep_view() == product(xs.take(p as int), ys),
        decreases prefixes.len() - p,
    {
        let prefix = &prefixes[p];
        let mut q: usize = 0;
        proof {
            assert(row(prefix@, ys).take(0) =~= Seq::<Pair>::empty());
            assert(out.deep_view() =~= product(xs.take(p as int), ys) + row(prefix@, ys).take(0));
        }
        while q < suffixes.len()
            invariant
                q <= suffixes.len(),
                p < prefixes.len(),
                prefix == prefixes[p as int],
                xs == prefixes.deep_view(),
                ys == suffixes.deep_view(),
                out.deep_view() == product(xs.take(p as int), ys) + row(prefix@, ys).take(q as int),
            decreases suffixes.len() - q,
        {
            let suffix = &suffixes[q];
            let mut text = prefix.text.clone();
            text.append(suffix.text.as_str());
            let ghost before = out.deep_view();
            let e = Expansion { text, excluded: prefix.excluded || suffix.excluded };
            out.push(e);
            proof {
                assert(e@ == join(prefix@, suffix@));
                assert(out.deep_view() =~= before.push(e@));
                assert(row(prefix@, ys).take(q + 1) =~= row(prefix@, ys).take(q as int).push(e@));
            }
            q += 1;
        }
        proof {
            assert(row(prefix@, ys).take(ys.len() as int) =~= row(prefix@, ys));
            assert(xs.take(p + 1) =~= xs.take(p as int).push(prefix@));
            lemma_product_push(xs.take(p as int), prefix@, ys);
        }
        p += 1;
    }
    proof {
        assert(xs.take(xs.len() as int) =~= xs);
    }
    out
}

} // verus!
