//! When a pattern can be expanded: exactly when it leaves no group open.

use vstd::prelude::*;
use crate::expand::{
    alternatives, expand_from, expansions, group_at, is_marker, segment_alternatives,
};
use crate::scan::{
    first_split, group_end, is_top, lemma_depth_before_close, lemma_first_top,
    lemma_group_body_well_nested, lemma_nesting_concat, lemma_split_well_nested, nesting,
    paren_weight, well_nested,
};
use crate::text::{is_white_space, lemma_trimmed_len, trimmed, trimmed_end, trimmed_start};

verus! {

/// The number of open groups after one more character, `open` being open
/// before it. A `)` that has no group to close is ordinary text.
pub open spec fn step(open: nat, c: char) -> nat {
    if c == '(' {
        open + 1
    } else if c == ')' && open > 0 {
        (open - 1) as nat
    } else {
        open
    }
}

/// The number of groups that `s` opens and does not close.
pub open spec fn open_groups(s: Seq<char>) -> nat
    decreases s.len(),
{
    if s.len() == 0 {
        0
    } else {
        step(open_groups(s.drop_last()), s.last())
    }
}

/// Whether `s` closes every group it opens, and closes none that it has not
/// opened: the content of a group, or of one of its segments.
pub open spec fn closed(s: Seq<char>) -> bool {
    well_nested(s) && nesting(s) == 0
}

/// The number of groups open at the end of `chars`, `open` being open at `i`.
spec fn open_after(chars: Seq<char>, i: int, open: nat) -> nat
    decreases chars.len() - i,
{
    if i >= chars.len() {
        open
    } else {
        open_after(chars, i + 1, step(open, chars[i]))
    }
}

proof fn lemma_open_after_prefix(chars: Seq<char>, i: int)
    requires
        0 <= i <= chars.len(),
    ensures
        open_after(chars, i, open_groups(chars.take(i))) == open_groups(chars),
    decreases chars.len() - i,
{
    if i >= chars.len() {
        assert(chars.take(i) =~= chars);
    } else {
        assert(chars.take(i + 1).drop_last() =~= chars.take(i));
        assert(chars.take(i + 1).last() == chars[i]);
        lemma_open_after_prefix(chars, i + 1);
    }
}

/// A group that is never closed stays open to the end.
proof fn lemma_never_closed(chars: Seq<char>, from: int, m: int)
    requires
        0 <= from <= m <= chars.len(),
        forall|k: int| from <= k < chars.len() ==> !is_top(chars, ')', from, k),
        nesting(chars.subrange(from, m)) >= 0,
    ensures
        open_after(chars, m, (1 + nesting(chars.subrange(from, m))) as nat) >= 1,
    decreases chars.len() - m,
{
    if m < chars.len() {
        assert(chars.subrange(from, m + 1).drop_last() =~= chars.subrange(from, m));
        assert(chars.subrange(from, m + 1).last() == chars[m]);
        assert(!is_top(chars, ')', from, m));
        lemma_never_closed(chars, from, m + 1);
    }
}

/// Once a group is closed, as many groups are open as before it.
proof fn lemma_closed_at(chars: Seq<char>, from: int, m: int, j: int)
    requires
        0 <= from <= m <= j < chars.len(),
        forall|k: int| from <= k < j ==> !is_top(chars, ')', from, k),
        is_top(chars, ')', from, j),
        nesting(chars.subrange(from, m)) >= 0,
    ensures
        open_after(chars, m, (1 + nesting(chars.subrange(from, m))) as nat) == open_after(
            chars,
            j + 1,
            0,
        ),
    decreases j - m,
{
    if m < j {
        assert(chars.subrange(from, m + 1).drop_last() =~= chars.subrange(from, m));
        assert(chars.subrange(from, m + 1).last() == chars[m]);
        assert(!is_top(chars, ')', from, m));
        lemma_closed_at(chars, from, m + 1, j);
    }
}

/// The depth of a prefix is that of a shorter prefix and of what lies between.
proof fn lemma_nesting_sub(s: Seq<char>, a: int, b: int)
    requires
        0 <= a <= b <= s.len(),
    ensures
        nesting(s.take(b)) == nesting(s.take(a)) + nesting(s.subrange(a, b)),
{
    lemma_nesting_concat(s.take(a), s.subrange(a, b));
    assert(s.take(a) + s.subrange(a, b) =~= s.take(b));
}

proof fn lemma_closed_drop_first(s: Seq<char>)
    requires
        closed(s),
        s.len() > 0,
        paren_weight(s[0]) == 0,
    ensures
        closed(s.drop_first()),
{
    let rest = s.drop_first();
    assert(s.take(1).drop_last() =~= Seq::<char>::empty());
    assert(nesting(s.take(1).drop_last()) == 0);
    assert(s.take(1).last() == s[0]);
    assert(nesting(s.take(1)) == 0);
    assert forall|k: int| 0 <= k <= rest.len() implies nesting(#[trigger] rest.take(k)) >= 0 by {
        lemma_nesting_sub(s, 1, k + 1);
        assert(rest.take(k) =~= s.subrange(1, k + 1));
        assert(nesting(s.take(k + 1)) >= 0);
    }
    lemma_nesting_sub(s, 1, s.len() as int);
    assert(s.take(s.len() as int) =~= s);
    assert(rest =~= s.subrange(1, s.len() as int));
}

proof fn lemma_closed_drop_last(s: Seq<char>)
    requires
        closed(s),
        s.len() > 0,
        paren_weight(s.last()) == 0,
    ensures
        closed(s.drop_last()),
{
    let front = s.drop_last();
    assert forall|k: int| 0 <= k <= front.len() implies nesting(#[trigger] front.take(k)) >= 0 by {
        assert(front.take(k) =~= s.take(k));
    }
}

proof fn lemma_closed_trimmed_start(s: Seq<char>)
    requires
        closed(s),
    ensures
        closed(trimmed_start(s)),
    decreases s.len(),
{
    if s.len() > 0 && is_white_space(s.first()) {
        lemma_closed_drop_first(s);
        lemma_closed_trimmed_start(s.drop_first());
    }
}

proof fn lemma_closed_trimmed_end(s: Seq<char>)
    requires
        closed(s),
    ensures
        closed(trimmed_end(s)),
    decreases s.len(),
{
    if s.len() > 0 && is_white_space(s.last()) {
        lemma_closed_drop_last(s);
        lemma_closed_trimmed_end(s.drop_last());
    }
}

/// In closed text, a `(` outside every group is the start of a group that ends.
proof fn lemma_group_closes(chars: Seq<char>, i: int)
    requires
        closed(chars),
        0 <= i < chars.len(),
        chars[i] == '(',
        nesting(chars.take(i)) == 0,
    ensures
        group_end(chars, i + 1) is Some,
{
    lemma_first_top(chars, ')', i + 1, i + 1);
    if group_end(chars, i + 1) is None {
        let n = chars.len() as int;
        lemma_depth_before_close(chars, i + 1, n, n);
        lemma_nesting_sub(chars, i + 1, n);
        assert(chars.take(n) =~= chars);
        assert(chars.take(i + 1).drop_last() =~= chars.take(i));
        assert(chars.take(i + 1).last() == chars[i]);
    }
}

/// Closed text always expands, from every index outside its groups.
pub proof fn lemma_closed_span(chars: Seq<char>, i: int)
    requires
        closed(chars),
        0 <= i <= chars.len(),
        nesting(chars.take(i)) == 0,
    ensures
        expand_from(chars, i) is Some,
    decreases chars.len() - i, 0nat,
{
    if i < chars.len() {
        assert(chars.take(i + 1).drop_last() =~= chars.take(i));
        assert(chars.take(i + 1).last() == chars[i]);
        assert(nesting(chars.take(i + 1)) >= 0);
        if chars[i] != '(' {
            lemma_closed_span(chars, i + 1);
        } else {
            lemma_group_closes(chars, i);
            let j = group_end(chars, i + 1)->0;
            lemma_group_body_well_nested(chars, i + 1, j);
            lemma_closed_alternatives(chars.subrange(i + 1, j));
            lemma_nesting_sub(chars, i + 1, j);
            assert(chars.take(j + 1).drop_last() =~= chars.take(j));
            assert(chars.take(j + 1).last() == chars[j]);
            lemma_first_top(chars, ')', i + 1, i + 1);
            lemma_closed_span(chars, j + 1);
        }
    }
}

/// Closed text, such as the content of a group, always has its alternatives.
pub proof fn lemma_closed_alternatives(body: Seq<char>)
    requires
        closed(body),
    ensures
        alternatives(body) is Some,
    decreases body.len(), 2nat,
{
    lemma_first_top(body, ',', 0, 0);
    match first_split(body) {
        None => {
            lemma_closed_segment(body);
        },
        Some(k) => {
            lemma_split_well_nested(body, k);
            assert(body.take(k + 1).drop_last() =~= body.take(k));
            assert(body.take(k + 1).last() == body[k]);
            lemma_nesting_concat(body.take(k + 1), body.skip(k + 1));
            assert(body.take(k + 1) + body.skip(k + 1) =~= body);
            lemma_closed_segment(body.take(k));
            lemma_closed_alternatives(body.skip(k + 1));
        },
    }
}

/// A closed segment always has its alternatives.
pub proof fn lemma_closed_segment(segment: Seq<char>)
    requires
        closed(segment),
    ensures
        segment_alternatives(segment) is Some,
    decreases segment.len(), 1nat,
{
    let text = trimmed(segment);
    lemma_trimmed_len(segment);
    lemma_closed_trimmed_start(segment);
    lemma_closed_trimmed_end(trimmed_start(segment));
    if text.len() > 0 {
        if is_marker(text[0]) {
            lemma_closed_drop_first(text);
            assert(text.drop_first().take(0) =~= Seq::<char>::empty());
            lemma_closed_span(text.drop_first(), 0);
        } else {
            assert(text.take(0) =~= Seq::<char>::empty());
            lemma_closed_span(text, 0);
        }
    }
}

/// Taking a leading character that is no parenthesis away leaves as many
/// groups open.
proof fn lemma_open_groups_drop_first(s: Seq<char>)
    requires
        s.len() > 0,
        paren_weight(s[0]) == 0,
    ensures
        open_groups(s.drop_first()) == open_groups(s),
    decreases s.len(),
{
    if s.len() == 1 {
        assert(s.drop_last() =~= Seq::<char>::empty());
        assert(s.drop_first() =~= Seq::<char>::empty());
        assert(open_groups(s.drop_last()) == 0);
    } else {
        lemma_open_groups_drop_first(s.drop_last());
        assert(s.drop_first().drop_last() =~= s.drop_last().drop_first());
        assert(s.drop_first().last() == s.last());
    }
}

proof fn lemma_open_groups_trimmed_start(s: Seq<char>)
    ensures
        open_groups(trimmed_start(s)) == open_groups(s),
    decreases s.len(),
{
    if s.len() > 0 && is_white_space(s.first()) {
        lemma_open_groups_drop_first(s);
        lemma_open_groups_trimmed_start(s.drop_first());
    }
}

proof fn lemma_open_groups_trimmed_end(s: Seq<char>)
    ensures
        open_groups(trimmed_end(s)) == open_groups(s),
    decreases s.len(),
{
    if s.len() > 0 && is_white_space(s.last()) {
        lemma_open_groups_trimmed_end(s.drop_last());
    }
}

/// A segment has its alternatives exactly when it leaves no group open.
pub proof fn lemma_segment_iff_balanced(segment: Seq<char>)
    ensures
        segment_alternatives(segment) is Some <==> open_groups(segment) == 0,
{
    let text = trimmed(segment);
    lemma_open_groups_trimmed_start(segment);
    lemma_open_groups_trimmed_end(trimmed_start(segment));
    if text.len() > 0 {
        if is_marker(text[0]) {
            lemma_open_groups_drop_first(text);
            lemma_expands_iff_balanced(text.drop_first());
        } else {
            lemma_expands_iff_balanced(text);
        }
    }
}

/// A group has its alternatives exactly when it ends: nothing inside a
/// group that is closed can fail.
pub proof fn lemma_group_iff_closed(chars: Seq<char>, i: int)
    requires
        0 <= i,
    ensures
        group_at(chars, i) is Some <==> group_end(chars, i) is Some,
{
    match group_end(chars, i) {
        None => {},
        Some(j) => {
            lemma_group_body_well_nested(chars, i, j);
            lemma_closed_alternatives(chars.subrange(i, j));
        },
    }
}

proof fn lemma_expand_from_iff(chars: Seq<char>, i: int)
    requires
        0 <= i <= chars.len(),
    ensures
        expand_from(chars, i) is Some <==> open_after(chars, i, 0) == 0,
    decreases chars.len() - i,
{
    if i < chars.len() {
        if chars[i] != '(' {
            lemma_expand_from_iff(chars, i + 1);
        } else {
            lemma_first_top(chars, ')', i + 1, i + 1);
            assert(chars.subrange(i + 1, i + 1) =~= Seq::<char>::empty());
            match group_end(chars, i + 1) {
                None => {
                    lemma_never_closed(chars, i + 1, i + 1);
                },
                Some(j) => {
                    lemma_closed_at(chars, i + 1, i + 1, j);
                    lemma_group_body_well_nested(chars, i + 1, j);
                    lemma_closed_alternatives(chars.subrange(i + 1, j));
                    lemma_expand_from_iff(chars, j + 1);
                },
            }
        }
    }
}

/// A span can be expanded exactly when it leaves no group open: every `(`
/// that starts a group is followed by the `)` that ends it. Nothing else
/// makes a pattern fail, and nothing inside a group that is closed does.
pub proof fn lemma_expands_iff_balanced(span: Seq<char>)
    ensures
        expansions(span) is Some <==> open_groups(span) == 0,
{
    lemma_expand_from_iff(span, 0);
    lemma_open_after_prefix(span, 0);
    assert(span.take(0) =~= Seq::<char>::empty());
}

} // verus!
