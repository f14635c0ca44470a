//! Display columns of characters and of whole strings.
use unicode_width::{UnicodeWidthChar, UnicodeWidthStr};
use vstd::prelude::*;

verus! {

/// How many columns a character takes on its own; none for a control character.
pub uninterp spec fn char_width(c: char) -> Option<usize>;

/// How many columns a string takes. Neighbouring characters can join, so this is no sum over
/// its characters.
pub uninterp spec fn text_width(s: Seq<char>) -> usize;

/// Whether every character of `s` is a printable ASCII character.
pub open spec fn printable(s: Seq<char>) -> bool {
    forall|i: int| 0 <= i < s.len() ==> 0x20 <= (#[trigger] s[i]) as u32 <= 0x7e
}

/// `unicode_width::UnicodeWidthChar::width`: the columns of one character.
///
/// Every printable ASCII character takes one column, a control character has no width, and the
/// tables hold each other width in eight bits.
#[verifier::external_body]
pub(crate) fn width_of_char(c: char) -> (r: Option<usize>)
    ensures
        r == char_width(c),
        0x20 <= c as u32 <= 0x7e ==> r == Some(1usize),
        c as u32 <= 0x1f || 0x7f <= c as u32 <= 0x9f ==> r is None,
        r matches Some(n) ==> n <= 255,
{
    UnicodeWidthChar::width(c)
}

/// `unicode_width::UnicodeWidthStr::width`: the columns of a string.
///
/// A string of printable ASCII characters takes one column for each.
#[verifier::external_body]
pub(crate) fn width_of_text(s: &str) -> (r: usize)
    ensures
        r == text_width(s@),
        printable(s@) ==> r == s@.len(),
{
    UnicodeWidthStr::width(s)
}

/// The columns that a character adds to a row: a control character adds none.
pub open spec fn cell_width(c: char) -> nat {
    match char_width(c) {
        Some(n) => n as nat,
        None => 0,
    }
}

/// The columns that the characters `chars[a..b]` add up to.
pub open spec fn columns(chars: Seq<char>, a: int, b: int) -> nat
    decreases b - a,
{
    if b <= a {
        0
    } else {
        columns(chars, a, b - 1) + cell_width(chars[b - 1])
    }
}

/// The columns that a character adds to a row.
pub fn columns_of_char(c: char) -> (r: usize)
    ensures
        r == cell_width(c),
        r <= 255,
        0x20 <= c as u32 <= 0x7e ==> r == 1,
{
    match width_of_char(c) {
        Some(n) => n,
        None => 0,
    }
}

/// Columns never shrink as a run of characters grows.
pub proof fn lemma_columns_grow(chars: Seq<char>, a: int, b: int, c: int)
    requires
        a <= b <= c,
    ensures
        columns(chars, a, b) <= columns(chars, a, c),
    decreases c - b,
{
    if b < c {
        lemma_columns_grow(chars, a, b, c - 1);
    }
}

/// The columns of a run of characters are those of its two parts together.
pub proof fn lemma_columns_split(chars: Seq<char>, a: int, b: int, c: int)
    requires
        a <= b <= c,
    ensures
        columns(chars, a, c) == columns(chars, a, b) + columns(chars, b, c),
    decreases c - b,
{
    if b < c {
        lemma_columns_split(chars, a, b, c - 1);
    }
}

/// The columns of a text and of one behind it add up, and no text takes none.
pub proof fn law_columns_add_up(a: Seq<char>, b: Seq<char>)
    ensures
        columns(a + b, 0, (a + b).len() as int) == columns(a, 0, a.len() as int) + columns(
            b,
            0,
            b.len() as int,
        ),
        columns(a, 0, 0) == 0,
    decreases b.len(),
{
    if b.len() == 0 {
        assert(a + b =~= a);
    } else {
        law_columns_add_up(a, b.drop_last());
        let n = (a + b).len() as int;
        assert((a + b).drop_last() =~= a + b.drop_last());
        lemma_same_columns(a + b, (a + b).drop_last(), n - 1);
        lemma_same_columns(b, b.drop_last(), b.len() - 1);
    }
}

proof fn lemma_same_columns(s: Seq<char>, t: Seq<char>, n: int)
    requires
        n <= s.len(),
        n <= t.len(),
        forall|k: int| 0 <= k < n ==> #[trigger] s[k] == t[k],
    ensures
        columns(s, 0, n) == columns(t, 0, n),
    decreases n,
{
    if n > 0 {
        lemma_same_columns(s, t, n - 1);
        assert(s[n - 1] == t[n - 1]);
    }
}

/// A character with no width of its own takes no column in a text, any other its width.
pub proof fn law_a_character_takes_its_width(s: Seq<char>, c: char)
    ensures
        columns(s.push(c), 0, s.len() as int + 1) == columns(s, 0, s.len() as int)
            + match char_width(c) {
            Some(n) => n as int,
            None => 0,
        },
{
    lemma_same_columns(s.push(c), s, s.len() as int);
}

} // verus!
