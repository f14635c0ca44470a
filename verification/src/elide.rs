//! Shortening text to a number of columns, with an ellipsis for what is left out.
use crate::text::{chars_of, string_of};
use crate::width;
use crate::width::{columns_of_char, width_of_text};
use vstd::prelude::*;

verus! {

/// How far a prefix of `chars` reaches in `budget` columns: the first index from `i` on whose
/// character would take it over.
pub open spec fn prefix_fit(chars: Seq<char>, i: int, budget: nat) -> int
    decreases chars.len() - i,
{
    if i >= chars.len() || width::columns(chars, 0, i + 1) > budget {
        i
    } else {
        prefix_fit(chars, i + 1, budget)
    }
}

/// Where the longest suffix of `chars` that takes at most `budget` columns starts, looked for
/// from `i` back.
pub open spec fn suffix_fit(chars: Seq<char>, i: int, budget: nat) -> int
    decreases i,
{
    if i <= 0 || width::columns(chars, i - 1, chars.len() as int) > budget {
        i
    } else {
        suffix_fit(chars, i - 1, budget)
    }
}

/// The index of the first `/` from `i` on, or the length where there is none.
pub open spec fn first_slash(chars: Seq<char>, i: int) -> int
    decreases chars.len() - i,
{
    if i >= chars.len() {
        chars.len() as int
    } else if chars[i] == '/' {
        i
    } else {
        first_slash(chars, i + 1)
    }
}

/// The columns left for text beside a one-column mark.
pub open spec fn beside_mark(max: usize) -> nat {
    if max == 0 {
        0
    } else {
        (max - 1) as nat
    }
}

/// `s` in at most `max` columns, a cut marked with a trailing `…`.
pub open spec fn truncated(s: Seq<char>, max: usize) -> Seq<char> {
    if width::text_width(s) <= max {
        s
    } else {
        s.take(prefix_fit(s, 0, beside_mark(max))).push('…')
    }
}

/// Where the kept tail of a name starts: a cut at a path separator where the tail has one.
pub open spec fn tail_start(s: Seq<char>, max: usize) -> int {
    let start = suffix_fit(s, s.len() as int, beside_mark(max));
    let slash = first_slash(s, start);
    if slash < s.len() {
        slash
    } else {
        start
    }
}

/// `s` in at most `max` columns, its head elided behind a leading `…`.
pub open spec fn elided(s: Seq<char>, max: usize) -> Seq<char> {
    if width::text_width(s) <= max {
        s
    } else {
        seq!['…'] + s.subrange(tail_start(s, max), s.len() as int)
    }
}

proof fn lemma_prefix_fit(chars: Seq<char>, i: int, budget: nat)
    requires
        0 <= i <= chars.len(),
        width::columns(chars, 0, i) <= budget,
    ensures
        i <= prefix_fit(chars, i, budget) <= chars.len(),
        width::columns(chars, 0, prefix_fit(chars, i, budget)) <= budget,
        prefix_fit(chars, i, budget) < chars.len() ==> width::columns(
            chars,
            0,
            prefix_fit(chars, i, budget) + 1,
        ) > budget,
    decreases chars.len() - i,
{
    if i < chars.len() && width::columns(chars, 0, i + 1) <= budget {
        lemma_prefix_fit(chars, i + 1, budget);
    }
}

proof fn lemma_suffix_fit(chars: Seq<char>, i: int, budget: nat)
    requires
        0 <= i <= chars.len(),
        width::columns(chars, i, chars.len() as int) <= budget,
    ensures
        0 <= suffix_fit(chars, i, budget) <= i,
        width::columns(chars, suffix_fit(chars, i, budget), chars.len() as int) <= budget,
        suffix_fit(chars, i, budget) > 0 ==> width::columns(
            chars,
            suffix_fit(chars, i, budget) - 1,
            chars.len() as int,
        ) > budget,
    decreases i,
{
    if i > 0 && width::columns(chars, i - 1, chars.len() as int) <= budget {
        lemma_suffix_fit(chars, i - 1, budget);
    }
}

proof fn lemma_first_slash(chars: Seq<char>, i: int)
    requires
        0 <= i <= chars.len(),
    ensures
        i <= first_slash(chars, i) <= chars.len(),
        first_slash(chars, i) < chars.len() ==> chars[first_slash(chars, i)] == '/',
        forall|k: int| i <= k < first_slash(chars, i) ==> chars[k] != '/',
    decreases chars.len() - i,
{
    if i < chars.len() && chars[i] != '/' {
        lemma_first_slash(chars, i + 1);
    }
}

/// What stands before the mark of a cut text is a prefix of the text that leaves a column for
/// the mark, and one character more would not have fitted.
pub proof fn law_truncation_keeps_what_fits(s: Seq<char>, max: usize)
    requires
        width::text_width(s) > max,
    ensures
        ({
            let kept = truncated(s, max).drop_last();
            &&& truncated(s, max).last() == '…'
            &&& kept.len() <= s.len()
            &&& kept == s.take(kept.len() as int)
            &&& width::columns(s, 0, kept.len() as int) <= beside_mark(max)
            &&& kept.len() < s.len() ==> width::columns(s, 0, kept.len() + 1int) > beside_mark(max)
        }),
{
    lemma_prefix_fit(s, 0, beside_mark(max));
    let kept = truncated(s, max).drop_last();
    assert(kept =~= s.take(prefix_fit(s, 0, beside_mark(max))));
}

/// What stands behind the mark of an elided name is a suffix of the name that leaves a column
/// for the mark, and it starts at a path separator wherever it holds one.
pub proof fn law_elision_keeps_the_tail(s: Seq<char>, max: usize)
    requires
        width::text_width(s) > max,
    ensures
        ({
            let tail = elided(s, max).skip(1);
            &&& elided(s, max)[0] == '…'
            &&& tail.len() <= s.len()
            &&& tail == s.skip(s.len() - tail.len())
            &&& width::columns(s, s.len() - tail.len(), s.len() as int) <= beside_mark(max)
            &&& tail.contains('/') ==> tail[0] == '/'
        }),
{
    let n = s.len() as int;
    let start = suffix_fit(s, n, beside_mark(max));
    lemma_suffix_fit(s, n, beside_mark(max));
    lemma_first_slash(s, start);
    let from = tail_start(s, max);
    let tail = elided(s, max).skip(1);
    assert(tail =~= s.subrange(from, n));
    assert(tail =~= s.skip(n - tail.len()));
    width::lemma_columns_split(s, start, from, n);
    if tail.contains('/') {
        let k = choose|k: int| 0 <= k < tail.len() && tail[k] == '/';
        assert(s[from + k] == '/');
    }
}

/// Truncate `s` to `max` display columns, marking a cut with a trailing `…`.
pub fn truncate_width(s: &str, max: usize) -> (r: String)
    ensures
        r@ == truncated(s@, max),
{
    if width_of_text(s) <= max {
        return s.to_owned();
    }
    let chars: Vec<char> = chars_of(s);
    let budget: usize = max.saturating_sub(1);
    let mut used: usize = 0;
    let mut i: usize = 0;
    while i < chars.len()
        invariant_except_break
            prefix_fit(chars@, i as int, budget as nat) == prefix_fit(chars@, 0, budget as nat),
        invariant
            i <= chars@.len(),
            used <= budget,
            used == width::columns(chars@, 0, i as int),
        ensures
            i == prefix_fit(chars@, 0, budget as nat),
        decreases chars@.len() - i,
    {
        let cw: usize = columns_of_char(chars[i]);
        if cw > budget - used {
            break;
        }
        used = used + cw;
        i += 1;
    }
    let mut out: String = string_of(&chars, 0, i);
    out.push('…');
    assert(out@ =~= truncated(s@, max));
    out
}

/// Shorten `name` to `max` columns by eliding its head behind a leading `…`, preferring to cut
/// at a path separator so a partial directory name never shows.
pub fn elide_head(name: &str, max: usize) -> (r: String)
    ensures
        r@ == elided(name@, max),
{
    if width_of_text(name) <= max {
        return name.to_owned();
    }
    let chars: Vec<char> = chars_of(name);
    let budget: usize = max.saturating_sub(1);
    let mut used: usize = 0;
    let mut start: usize = chars.len();
    while start > 0
        invariant_except_break
            suffix_fit(chars@, start as int, budget as nat) == suffix_fit(
                chars@,
                chars@.len() as int,
                budget as nat,
            ),
        invariant
            start <= chars@.len(),
            used <= budget,
            used == width::columns(chars@, start as int, chars@.len() as int),
        ensures
            start == suffix_fit(chars@, chars@.len() as int, budget as nat),
        decreases start,
    {
        let cw: usize = columns_of_char(chars[start - 1]);
        proof {
            width::lemma_columns_split(chars@, start - 1, start as int, chars@.len() as int);
            assert(width::columns(chars@, start - 1, start as int) == cw) by {
                reveal_with_fuel(width::columns, 2);
            }
        }
        if cw > budget - used {
            break;
        }
        used = used + cw;
        start -= 1;
    }
    let mut slash: usize = start;
    while slash < chars.len() && chars[slash] != '/'
        invariant
            start <= slash <= chars@.len(),
            first_slash(chars@, slash as int) == first_slash(chars@, start as int),
        decreases chars@.len() - slash,
    {
        slash += 1;
    }
    let from: usize = if slash < chars.len() {
        slash
    } else {
        start
    };
    let mut out: String = String::new();
    out.push('…');
    let tail: String = string_of(&chars, from, chars.len());
    out.append(tail.as_str());
    assert(out@ =~= elided(name@, max));
    out
}

/// Text that fits is left as it is, whichever end would be cut.
pub proof fn law_fitting_text_is_left_alone(s: Seq<char>, max: usize)
    requires
        width::text_width(s) <= max,
    ensures
        truncated(s, max) == s,
        elided(s, max) == s,
{
}

/// An elided name keeps as much of its tail as fits beside the mark: where the tail starts inside a
/// component, one character more would not have fitted; where it starts at a path separator, no
/// separator further to the front would have fitted.
pub proof fn law_elision_keeps_all_that_fits(s: Seq<char>, max: usize)
    requires
        width::text_width(s) > max,
        max > 0,
    ensures
        ({
            let n = s.len() as int;
            let from = n - (elided(s, max).len() - 1);
            &&& 0 <= from <= n
            &&& width::columns(s, from, n) <= max - 1
            &&& (from == n || s[from] != '/') && from > 0 ==> width::columns(s, from - 1, n) > max
                - 1
            &&& forall|k: int|
                0 <= k < from && #[trigger] s[k] == '/' ==> width::columns(s, k, n) > max - 1
        }),
{
    let n = s.len() as int;
    let budget = beside_mark(max);
    let start = suffix_fit(s, n, budget);
    lemma_suffix_fit(s, n, budget);
    lemma_first_slash(s, start);
    let from = tail_start(s, max);
    width::lemma_columns_split(s, start, from, n);
    assert forall|k: int| 0 <= k < from && #[trigger] s[k] == '/' implies width::columns(s, k, n)
        > max - 1 by {
        if k < start {
            width::lemma_columns_split(s, k, start - 1, n);
        }
    }
}

/// A cut text keeps as much of its head as fits beside the mark.
pub proof fn law_truncation_keeps_all_that_fits(s: Seq<char>, max: usize)
    requires
        width::text_width(s) > max,
        max > 0,
    ensures
        ({
            let to = truncated(s, max).len() - 1;
            &&& 0 <= to <= s.len()
            &&& truncated(s, max) == s.take(to).push('…')
            &&& width::columns(s, 0, to) <= max - 1
            &&& to < s.len() ==> width::columns(s, 0, to + 1) > max - 1
        }),
{
    lemma_prefix_fit(s, 0, beside_mark(max));
}

} // verus!
