//! Characters and runs of characters: white space, trimming, and reading a
//! string as a vector of characters.

use vstd::prelude::*;
use vstd::slice::slice_subrange;

verus! {

/// The characters with Unicode's `White_Space` property.
pub open spec fn is_white_space(c: char) -> bool {
    let n: u32 = c as u32;
    ||| 0x09 <= n <= 0x0D
    ||| n == 0x20
    ||| n == 0x85
    ||| n == 0xA0
    ||| n == 0x1680
    ||| 0x2000 <= n <= 0x200A
    ||| n == 0x2028
    ||| n == 0x2029
    ||| n == 0x202F
    ||| n == 0x205F
    ||| n == 0x3000
}

/// `s` without its leading white space.
pub open spec fn trimmed_start(s: Seq<char>) -> Seq<char>
    decreases s.len(),
{
    if s.len() > 0 && is_white_space(s.first()) {
        trimmed_start(s.drop_first())
    } else {
        s
    }
}

/// `s` without its trailing white space.
pub open spec fn trimmed_end(s: Seq<char>) -> Seq<char>
    decreases s.len(),
{
    if s.len() > 0 && is_white_space(s.last()) {
        trimmed_end(s.drop_last())
    } else {
        s
    }
}

/// `s` without the white space at either end.
pub open spec fn trimmed(s: Seq<char>) -> Seq<char> {
    trimmed_end(trimmed_start(s))
}

/// Trimming never lengthens a run of characters.
pub proof fn lemma_trimmed_len(s: Seq<char>)
    ensures
        trimmed_start(s).len() <= s.len(),
        trimmed_end(s).len() <= s.len(),
        trimmed(s).len() <= s.len(),
    decreases s.len(),
{
    if s.len() > 0 {
        lemma_trimmed_len(s.drop_first());
        lemma_trimmed_len(s.drop_last());
    }
    lemma_trimmed_end_len(trimmed_start(s));
}

proof fn lemma_trimmed_end_len(s: Seq<char>)
    ensures
        trimmed_end(s).len() <= s.len(),
    decreases s.len(),
{
    if s.len() > 0 {
        lemma_trimmed_end_len(s.drop_last());
    }
}

/// Whether `s` holds white space only.
pub open spec fn all_white_space(s: Seq<char>) -> bool {
    forall|k: int| 0 <= k < s.len() ==> is_white_space(#[trigger] s[k])
}

proof fn lemma_trimmed_start_skips(space: Seq<char>, s: Seq<char>)
    requires
        all_white_space(space),
    ensures
        trimmed_start(space + s) == trimmed_start(s),
    decreases space.len(),
{
    if space.len() == 0 {
        assert(space + s =~= s);
    } else {
        assert((space + s).first() == space[0]);
        assert((space + s).drop_first() =~= space.drop_first() + s);
        assert forall|k: int| 0 <= k < space.drop_first().len() implies is_white_space(
            #[trigger] space.drop_first()[k],
        ) by {
            assert(space.drop_first()[k] == space[k + 1]);
        }
        lemma_trimmed_start_skips(space.drop_first(), s);
    }
}

proof fn lemma_trimmed_end_skips(s: Seq<char>, space: Seq<char>)
    requires
        all_white_space(space),
    ensures
        trimmed_end(s + space) == trimmed_end(s),
    decreases space.len(),
{
    if space.len() == 0 {
        assert(s + space =~= s);
    } else {
        assert((s + space).last() == space.last());
        assert((s + space).drop_last() =~= s + space.drop_last());
        assert forall|k: int| 0 <= k < space.drop_last().len() implies is_white_space(
            #[trigger] space.drop_last()[k],
        ) by {
            assert(space.drop_last()[k] == space[k]);
        }
        lemma_trimmed_end_skips(s, space.drop_last());
    }
}

proof fn lemma_trimmed_start_append(s: Seq<char>, space: Seq<char>)
    requires
        all_white_space(space),
    ensures
        trimmed_start(s + space) == if trimmed_start(s).len() == 0 {
            Seq::<char>::empty()
        } else {
            trimmed_start(s) + space
        },
    decreases s.len(),
{
    if s.len() == 0 {
        lemma_trimmed_start_skips(space, s);
        assert(space + s =~= s + space);
    } else {
        assert((s + space).first() == s[0]);
        if is_white_space(s[0]) {
            assert((s + space).drop_first() =~= s.drop_first() + space);
            lemma_trimmed_start_append(s.drop_first(), space);
        }
    }
}

/// White space put before or after a run of characters is trimmed away
/// with the white space that was there.
pub proof fn lemma_trimmed_ignores_white_space(before: Seq<char>, s: Seq<char>, after: Seq<char>)
    requires
        all_white_space(before),
        all_white_space(after),
    ensures
        trimmed(before + s + after) == trimmed(s),
{
    assert(before + s + after =~= before + (s + after));
    lemma_trimmed_start_skips(before, s + after);
    lemma_trimmed_start_append(s, after);
    if trimmed_start(s).len() > 0 {
        lemma_trimmed_end_skips(trimmed_start(s), after);
    }
}

/// Whether `c` is white space.
pub fn is_whitespace(c: char) -> (b: bool)
    ensures
        b == is_white_space(c),
{
    let n: u32 = c as u32;
    (0x09 <= n && n <= 0x0D) || n == 0x20 || n == 0x85 || n == 0xA0 || n == 0x1680 || (0x2000 <= n
        && n <= 0x200A) || n == 0x2028 || n == 0x2029 || n == 0x202F || n == 0x205F || n == 0x3000
}

/// The part of `s` between its leading and its trailing white space.
pub fn trim<'a>(s: &'a [char]) -> (t: &'a [char])
    ensures
        t@ == trimmed(s@),
{
    let n: usize = s.len();
    let mut lo: usize = 0;
    proof {
        assert(s@.skip(0) =~= s@);
    }
    while lo < n && is_whitespace(s[lo])
        invariant
            lo <= n,
            n == s@.len(),
            trimmed_start(s@) == trimmed_start(s@.skip(lo as int)),
        decreases n - lo,
    {
        proof {
            assert(s@.skip(lo as int).drop_first() =~= s@.skip(lo + 1));
        }
        lo += 1;
    }
    let mut hi: usize = n;
    while hi > lo && is_whitespace(s[hi - 1])
        invariant
            lo <= hi <= n,
            n == s@.len(),
            trimmed_end(s@.skip(lo as int)) == trimmed_end(s@.subrange(lo as int, hi as int)),
        decreases hi - lo,
    {
        proof {
            assert(s@.subrange(lo as int, hi as int).drop_last() =~= s@.subrange(
                lo as int,
                hi - 1,
            ));
        }
        hi -= 1;
    }
    slice_subrange(s, lo, hi)
}

/// The characters of `s`, in order.
pub fn to_chars(s: &str) -> (chars: Vec<char>)
    ensures
        chars@ == s@,
{
    let mut chars: Vec<char> = Vec::new();
    for c in it: s.chars()
        invariant
            it.seq() == s@,
            chars@ == s@.take(it.index()),
    {
        chars.push(c);
    }
    chars
}

/// Whether `c` occurs in `s`.
pub fn contains_char(s: &str, c: char) -> (found: bool)
    ensures
        found == s@.contains(c),
{
    let mut found = false;
    for x in it: s.chars()
        invariant
            it.seq() == s@,
            found == s@.take(it.index()).contains(c),
    {
        proof {
            let before = s@.take(it.index());
            let after = s@.take(it.index() + 1);
            assert(after[it.index()] == x);
            assert forall|k: int| 0 <= k < before.len() implies before[k] == after[k] by {}
            if before.contains(c) {
                let k = choose|k: int| 0 <= k < before.len() && before[k] == c;
                assert(after[k] == c);
            }
            if after.contains(c) && x != c {
                let k = choose|k: int| 0 <= k < after.len() && after[k] == c;
                assert(before[k] == c);
            }
        }
        if x == c {
            found = true;
        }
    }
    proof {
        assert(s@.take(s@.len() as int) =~= s@);
    }
    found
}

} // verus!
