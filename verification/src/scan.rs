//! Parenthesis nesting: where a group ends, and where its segments part.

use vstd::prelude::*;

verus! {

/// What a character adds to the nesting depth.
pub open spec fn paren_weight(c: char) -> int {
    if c == '(' {
        1
    } else if c == ')' {
        -1
    } else {
        0
    }
}

/// The nesting depth after `s`: the number of `(` in it less the number of `)`.
pub open spec fn nesting(s: Seq<char>) -> int
    decreases s.len(),
{
    if s.len() == 0 {
        0
    } else {
        nesting(s.drop_last()) + paren_weight(s.last())
    }
}

/// Whether no prefix of `s` closes more groups than it has opened.
pub open spec fn well_nested(s: Seq<char>) -> bool {
    forall|k: int| 0 <= k <= s.len() ==> nesting(#[trigger] s.take(k)) >= 0
}

/// Whether `chars[k]` is `c` and stands at depth 0, counting from `from`.
pub open spec fn is_top(chars: Seq<char>, c: char, from: int, k: int) -> bool {
    chars[k] == c && nesting(chars.subrange(from, k)) == 0
}

/// The first index at or after `k` where `c` stands at depth 0, counting the
/// depth from `from`.
pub open spec fn first_top(chars: Seq<char>, c: char, from: int, k: int) -> Option<int>
    decreases chars.len() - k,
{
    if k >= chars.len() {
        None
    } else if is_top(chars, c, from, k) {
        Some(k)
    } else {
        first_top(chars, c, from, k + 1)
    }
}

/// The index of the `)` that ends the group whose content starts at `from`:
/// the first `)` that is preceded, from `from` on, by as many `(` as `)`.
pub open spec fn group_end(chars: Seq<char>, from: int) -> Option<int> {
    first_top(chars, ')', from, from)
}

/// The index of the first comma of `body` that lies outside every nested group.
pub open spec fn first_split(body: Seq<char>) -> Option<int> {
    first_top(body, ',', 0, 0)
}

/// The depth of a concatenation is the sum of the depths.
pub proof fn lemma_nesting_concat(a: Seq<char>, b: Seq<char>)
    ensures
        nesting(a + b) == nesting(a) + nesting(b),
    decreases b.len(),
{
    if b.len() == 0 {
        assert(a + b =~= a);
    } else {
        lemma_nesting_concat(a, b.drop_last());
        assert((a + b).drop_last() =~= a + b.drop_last());
    }
}

/// What `first_top` finds lies within bounds, is the character asked for, at
/// depth 0, and nothing before it (from `k` on) is.
pub proof fn lemma_first_top(chars: Seq<char>, c: char, from: int, k: int)
    ensures
        match first_top(chars, c, from, k) {
            Some(j) => k <= j < chars.len() && is_top(chars, c, from, j) && forall|m: int|
                k <= m < j ==> !is_top(chars, c, from, m),
            None => forall|m: int| k <= m < chars.len() ==> !is_top(chars, c, from, m),
        },
    decreases chars.len() - k,
{
    if k < chars.len() && !is_top(chars, c, from, k) {
        lemma_first_top(chars, c, from, k + 1);
    }
}

/// Up to the `)` that ends a group, the depth never falls below 0.
pub proof fn lemma_group_body_well_nested(chars: Seq<char>, from: int, j: int)
    requires
        0 <= from,
        group_end(chars, from) == Some(j),
    ensures
        from <= j < chars.len(),
        well_nested(chars.subrange(from, j)),
        nesting(chars.subrange(from, j)) == 0,
{
    lemma_first_top(chars, ')', from, from);
    let body = chars.subrange(from, j);
    assert forall|k: int| 0 <= k <= body.len() implies nesting(#[trigger] body.take(k)) >= 0 by {
        lemma_depth_before_close(chars, from, j, from + k);
        assert(body.take(k) =~= chars.subrange(from, from + k));
    }
}

/// Before the first `)` at depth 0 the depth is never negative.
pub proof fn lemma_depth_before_close(chars: Seq<char>, from: int, j: int, m: int)
    requires
        0 <= from <= m <= j <= chars.len(),
        forall|i: int| from <= i < j ==> !is_top(chars, ')', from, i),
    ensures
        nesting(chars.subrange(from, m)) >= 0,
    decreases m - from,
{
    if m > from {
        lemma_depth_before_close(chars, from, j, m - 1);
        assert(chars.subrange(from, m).drop_last() =~= chars.subrange(from, m - 1));
        assert(chars.subrange(from, m).last() == chars[m - 1]);
        assert(!is_top(chars, ')', from, m - 1));
    }
}

/// What follows a comma at depth 0 is itself well nested, and so is what
/// precedes it.
pub proof fn lemma_split_well_nested(body: Seq<char>, k: int)
    requires
        well_nested(body),
        0 <= k < body.len(),
        is_top(body, ',', 0, k),
    ensures
        well_nested(body.take(k)),
        well_nested(body.skip(k + 1)),
{
    assert forall|m: int| 0 <= m <= body.take(k).len() implies nesting(
        #[trigger] body.take(k).take(m),
    ) >= 0 by {
        assert(body.take(k).take(m) =~= body.take(m));
    }
    let rest = body.skip(k + 1);
    assert(body.take(k + 1).drop_last() =~= body.take(k));
    assert(nesting(body.take(k + 1)) == 0);
    assert forall|m: int| 0 <= m <= rest.len() implies nesting(#[trigger] rest.take(m)) >= 0 by {
        lemma_nesting_concat(body.take(k + 1), rest.take(m));
        assert(body.take(k + 1) + rest.take(m) =~= body.take(k + 1 + m));
    }
}

/// Finds the `)` that ends the group whose content starts at `from`.
pub fn group_close(chars: &[char], from: usize) -> (r: Option<usize>)
    ensures
        match r {
            Some(j) => group_end(chars@, from as int) == Some(j as int) && from <= j < chars.len(),
            None => group_end(chars@, from as int) is None,
        },
{
    let n: usize = chars.len();
    if from >= n {
        return None;
    }
    let mut i: usize = from;
    let mut depth: usize = 0;
    proof {
        assert(chars@.subrange(from as int, from as int) =~= Seq::<char>::empty());
    }
    while i < n
        invariant
            from <= i,
            n == chars@.len(),
            depth == nesting(chars@.subrange(from as int, i as int)),
            depth <= i - from,
            group_end(chars@, from as int) == first_top(chars@, ')', from as int, i as int),
        decreases n - i,
    {
        let c: char = chars[i];
        proof {
            assert(chars@.subrange(from as int, i + 1).drop_last() =~= chars@.subrange(
                from as int,
                i as int,
            ));
        }
        if c == ')' {
            if depth == 0 {
                return Some(i);
            }
            depth -= 1;
        } else if c == '(' {
            depth += 1;
        }
        i += 1;
    }
    None
}

/// Finds the first comma of `body` that lies outside every nested group.
///
/// The depth is counted with a sign: the content of a group never closes
/// more than it has opened, but any run of characters may.
pub fn next_split(body: &[char]) -> (r: Option<usize>)
    ensures
        match r {
            Some(k) => first_split(body@) == Some(k as int) && k < body.len(),
            None => first_split(body@) is None,
        },
{
    let n: usize = body.len();
    let mut i: usize = 0;
    let mut depth: i128 = 0;
    proof {
        assert(body@.subrange(0, 0) =~= Seq::<char>::empty());
    }
    while i < n
        invariant
            i <= n,
            n == body@.len(),
            depth == nesting(body@.subrange(0, i as int)),
            -i <= depth <= i,
            first_split(body@) == first_top(body@, ',', 0, i as int),
        decreases n - i,
    {
        let c: char = body[i];
        proof {
            assert(body@.subrange(0, i + 1).drop_last() =~= body@.subrange(0, i as int));
        }
        if c == ',' && depth == 0 {
            return Some(i);
        }
        if c == '(' {
            depth += 1;
        } else if c == ')' {
            depth -= 1;
        }
        i += 1;
    }
    None
}

} // verus!
