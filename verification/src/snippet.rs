//! The verbatim source lines that a comment anchors to.
use crate::text;
use crate::text::{chars_of, find_line_end, string_of};
use vstd::prelude::*;

verus! {

/// The index at which line `n` of `s` begins, counted from 1, or the length of `s` where it has
/// fewer lines.
pub open spec fn line_begin(s: Seq<char>, n: nat) -> int
    decreases n,
{
    if n <= 1 {
        0
    } else {
        let e = text::line_end(s, line_begin(s, (n - 1) as nat));
        if e < s.len() {
            e + 1
        } else {
            s.len() as int
        }
    }
}

/// `s` without the line feeds at its end.
pub open spec fn without_feeds(s: Seq<char>) -> Seq<char>
    decreases s.len(),
{
    if s.len() > 0 && s.last() == '\n' {
        without_feeds(s.drop_last())
    } else {
        s
    }
}

/// Lines `start` to `end` of `s`, both included, without line feeds behind the last character.
pub open spec fn lines_between(s: Seq<char>, start: u32, end: u32) -> Seq<char> {
    let from = line_begin(s, start as nat);
    let to = text::line_end(s, line_begin(s, end as nat));
    if from <= to {
        without_feeds(s.subrange(from, to))
    } else {
        Seq::empty()
    }
}

proof fn lemma_line_begin(s: Seq<char>, n: nat)
    ensures
        0 <= line_begin(s, n) <= s.len(),
        line_begin(s, n) == 0 || line_begin(s, n) == s.len() || s[line_begin(s, n) - 1] == '\n',
    decreases n,
{
    if n > 1 {
        lemma_line_begin(s, (n - 1) as nat);
        text::lemma_line_end(s, line_begin(s, (n - 1) as nat));
    }
}

proof fn lemma_without_feeds(s: Seq<char>)
    ensures
        without_feeds(s).len() <= s.len(),
        without_feeds(s) == s.take(without_feeds(s).len() as int),
        without_feeds(s).len() > 0 ==> without_feeds(s).last() != '\n',
    decreases s.len(),
{
    if s.len() > 0 && s.last() == '\n' {
        lemma_without_feeds(s.drop_last());
        assert(s.drop_last().take(without_feeds(s).len() as int) =~= s.take(
            without_feeds(s).len() as int,
        ));
    } else {
        assert(s.take(s.len() as int) =~= s);
    }
}

fn find_line_begin(chars: &Vec<char>, n: u32) -> (r: usize)
    ensures
        r == line_begin(chars@, n as nat),
        r <= chars@.len(),
{
    let mut at: usize = 0;
    let mut line: u32 = 1;
    while line < n
        invariant
            at <= chars@.len(),
            1 <= line,
            line <= n || (n == 0 && line == 1),
            at == line_begin(chars@, line as nat),
        decreases n - line,
    {
        let e: usize = find_line_end(chars, at);
        at = if e < chars.len() {
            e + 1
        } else {
            chars.len()
        };
        line += 1;
    }
    at
}

/// Lines `start` to `end` of a source, both included, verbatim.
pub fn source_lines(source: &str, start: u32, end: u32) -> (r: String)
    ensures
        r@ == lines_between(source@, start, end),
{
    let chars: Vec<char> = chars_of(source);
    let from: usize = find_line_begin(&chars, start);
    let last: usize = find_line_begin(&chars, end);
    let to: usize = find_line_end(&chars, last);
    if from > to {
        return String::new();
    }
    let mut e: usize = to;
    while e > from && chars[e - 1] == '\n'
        invariant
            from <= e <= to <= chars@.len(),
            without_feeds(chars@.subrange(from as int, e as int)) == without_feeds(
                chars@.subrange(from as int, to as int),
            ),
        decreases e,
    {
        assert(chars@.subrange(from as int, e as int).drop_last() =~= chars@.subrange(
            from as int,
            e - 1,
        ));
        e -= 1;
    }
    string_of(&chars, from, e)
}

/// A snippet is a run of the source, character for character. It starts where a line starts
/// and reaches to the end of a line, or leaves out line feeds only.
pub proof fn law_snippet_is_verbatim(s: Seq<char>, start: u32, end: u32)
    ensures
        ({
            let from = line_begin(s, start as nat);
            let snippet = lines_between(s, start, end);
            snippet.len() > 0 ==> {
                &&& 0 <= from
                &&& from + snippet.len() <= s.len()
                &&& snippet == s.subrange(from, from + snippet.len())
                &&& from == 0 || s[from - 1] == '\n'
                &&& snippet.last() != '\n'
                &&& from + snippet.len() == s.len() || s[from + snippet.len()] == '\n'
            }
        }),
{
    let from = line_begin(s, start as nat);
    let at = line_begin(s, end as nat);
    lemma_line_begin(s, start as nat);
    lemma_line_begin(s, end as nat);
    text::lemma_line_end(s, at);
    let to = text::line_end(s, at);
    if from <= to {
        let all = s.subrange(from, to);
        lemma_without_feeds(all);
        let snippet = without_feeds(all);
        assert(snippet =~= s.subrange(from, from + snippet.len()));
        lemma_feed_behind(all);
        if snippet.len() < all.len() {
            assert(all[snippet.len() as int] == s[from + snippet.len()]);
        }
    }
}

proof fn lemma_feed_behind(s: Seq<char>)
    ensures
        without_feeds(s).len() < s.len() ==> s[without_feeds(s).len() as int] == '\n',
    decreases s.len(),
{
    if s.len() > 0 && s.last() == '\n' {
        lemma_feed_behind(s.drop_last());
        lemma_without_feeds(s.drop_last());
    }
}

/// How many line feeds `s` holds before index `i`.
pub open spec fn feeds_before(s: Seq<char>, i: int) -> int
    decreases i,
{
    if i <= 0 {
        0
    } else {
        feeds_before(s, i - 1) + if s[i - 1] == '\n' {
            1int
        } else {
            0
        }
    }
}

proof fn lemma_feeds_grow(s: Seq<char>, i: int, j: int)
    requires
        0 <= i <= j,
    ensures
        feeds_before(s, i) <= feeds_before(s, j),
        i < j && s[i] == '\n' ==> feeds_before(s, i) < feeds_before(s, j),
        (forall|k: int| i <= k < j ==> s[k] != '\n') ==> feeds_before(s, i) == feeds_before(s, j),
    decreases j - i,
{
    if i < j {
        lemma_feeds_grow(s, i, j - 1);
    }
}

proof fn lemma_feeds_before_line(s: Seq<char>, n: nat)
    requires
        1 <= n,
    ensures
        ({
            let at = line_begin(s, n);
            &&& 0 <= at <= s.len()
            &&& {
                ||| feeds_before(s, at) == n - 1 && (at == 0 || s[at - 1] == '\n')
                ||| at == s.len() && feeds_before(s, at) < n - 1
            }
        }),
    decreases n,
{
    if n > 1 {
        let at = line_begin(s, (n - 1) as nat);
        lemma_feeds_before_line(s, (n - 1) as nat);
        text::lemma_line_end(s, at);
        let e = text::line_end(s, at);
        lemma_feeds_grow(s, at, e);
    }
}

proof fn lemma_only_feeds_behind(s: Seq<char>)
    ensures
        without_feeds(s).len() <= s.len(),
        forall|i: int| without_feeds(s).len() <= i < s.len() ==> #[trigger] s[i] == '\n',
    decreases s.len(),
{
    if s.len() > 0 && s.last() == '\n' {
        lemma_only_feeds_behind(s.drop_last());
        assert forall|i: int| without_feeds(s).len() <= i < s.len() implies #[trigger] s[i]
            == '\n' by {
            if i < s.len() - 1 {
                assert(s.drop_last()[i] == s[i]);
            }
        }
    }
}

/// Whether `snippet` stands at index `from` of `s`, at the start of line `start`, and holds, of all
/// characters that are no line feed, those on the lines `start..=end` and no others. Lines are
/// counted from 1: a character is on line `n` where `n - 1` line feeds stand before it.
pub open spec fn holds_lines(
    s: Seq<char>,
    snippet: Seq<char>,
    from: int,
    start: int,
    end: int,
) -> bool {
    &&& 0 <= from <= from + snippet.len() <= s.len()
    &&& snippet == s.subrange(from, from + snippet.len())
    &&& snippet.len() > 0 ==> feeds_before(s, from) == start - 1
    &&& forall|i: int|
        0 <= i < s.len() && #[trigger] s[i] != '\n' ==> (start <= feeds_before(s, i) + 1 <= end
            <==> from <= i < from + snippet.len())
}

/// A snippet holds its lines: every character of the lines it is made for, white space included,
/// and none of any other line.
pub proof fn law_snippet_holds_its_lines(s: Seq<char>, start: u32, end: u32)
    requires
        1 <= start <= end,
    ensures
        exists|from: int| #[trigger]
            holds_lines(s, lines_between(s, start, end), from, start as int, end as int),
{
    let from = line_begin(s, start as nat);
    let at = line_begin(s, end as nat);
    lemma_feeds_before_line(s, start as nat);
    lemma_feeds_before_line(s, end as nat);
    text::lemma_line_end(s, at);
    let to = text::line_end(s, at);
    lemma_feeds_grow(s, at, to);
    if from > to {
        lemma_feeds_grow(s, to, from);
    }
    let all = s.subrange(from, to);
    let snippet = lines_between(s, start, end);
    lemma_without_feeds(all);
    lemma_only_feeds_behind(all);
    assert(snippet =~= s.subrange(from, from + snippet.len()));
    assert forall|i: int| 0 <= i < s.len() && #[trigger] s[i] != '\n' implies (start
        <= feeds_before(s, i) + 1 <= end <==> from <= i < from + snippet.len()) by {
        if i >= from {
            lemma_feeds_grow(s, from, i);
        } else {
            lemma_feeds_grow(s, i, from);
            if from < s.len() || feeds_before(s, from) == start - 1 {
                lemma_feeds_grow(s, i, from - 1);
            }
        }
        if i < to {
            lemma_feeds_grow(s, i, to);
            if from <= i {
                assert(all[i - from] == s[i]);
            }
        } else {
            lemma_feeds_grow(s, to, i);
        }
    }
    assert(holds_lines(s, snippet, from, start as int, end as int));
}

} // verus!
