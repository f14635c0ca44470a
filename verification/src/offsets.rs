//! Where the characters of a text lie among its UTF-8 bytes.
use crate::text;
use crate::text::{chars_of, is_white_space, string_of};
use vstd::prelude::*;

verus! {

/// The UTF-8 bytes of a text.
pub open spec fn source_bytes(source: Seq<char>) -> Seq<u8> {
    vstd::utf8::encode_utf8(source)
}

/// The byte offset at which character `i` of `s` starts.
pub open spec fn byte_offset(s: Seq<char>, i: int) -> nat {
    source_bytes(s.take(i)).len()
}

/// How many characters of `s` start before byte offset `byte`.
pub open spec fn char_index(s: Seq<char>, byte: int) -> int
    decreases s.len(),
{
    if s.len() == 0 {
        0
    } else if byte_offset(s, s.len() - 1) < byte {
        s.len() as int
    } else {
        char_index(s.drop_last(), byte)
    }
}

/// The first index from `i` on, before `end`, that does not hold white space; else `end`.
pub open spec fn white_run(s: Seq<char>, i: int, end: int) -> int
    decreases end - i,
{
    if i < end && text::white_space(s[i]) {
        white_run(s, i + 1, end)
    } else {
        i
    }
}

/// The first index from `i` on, before `end`, that holds white space; else `end`.
pub open spec fn word_run(s: Seq<char>, i: int, end: int) -> int
    decreases end - i,
{
    if i < end && !text::white_space(s[i]) {
        word_run(s, i + 1, end)
    } else {
        i
    }
}

/// The first run of characters other than white space within `s[i..end]`.
pub open spec fn first_word(s: Seq<char>, i: int, end: int) -> Seq<char> {
    if i > end {
        Seq::empty()
    } else {
        let a = white_run(s, i, end);
        s.subrange(a, word_run(s, a, end))
    }
}

/// The leading marker of a list item whose source is the bytes `start..end`: its first word.
pub open spec fn marker_text(source: Seq<char>, start: int, end: int) -> Seq<char> {
    first_word(source, char_index(source, start), char_index(source, end))
}

proof fn lemma_encode_push(s: Seq<char>, c: char)
    ensures
        source_bytes(s.push(c)) == source_bytes(s) + vstd::utf8::encode_scalar(c as u32),
    decreases s.len(),
{
    let t = s.push(c);
    if s.len() == 0 {
        assert(t.drop_first() =~= Seq::<char>::empty());
        reveal_with_fuel(vstd::utf8::encode_utf8, 2);
        assert(source_bytes(t) =~= source_bytes(s) + vstd::utf8::encode_scalar(c as u32));
    } else {
        assert(t.drop_first() =~= s.drop_first().push(c));
        lemma_encode_push(s.drop_first(), c);
        assert(source_bytes(t) =~= source_bytes(s) + vstd::utf8::encode_scalar(c as u32));
    }
}

/// How many bytes a character takes in UTF-8.
fn utf8_len(c: char) -> (n: usize)
    ensures
        n == vstd::utf8::encode_scalar(c as u32).len(),
        1 <= n <= 4,
{
    proof {
        vstd::utf8::char_is_scalar(c);
    }
    let u: u32 = c as u32;
    if u <= 0x7f {
        1
    } else if u <= 0x7ff {
        2
    } else if u <= 0xffff {
        3
    } else {
        4
    }
}

proof fn lemma_offset_step(s: Seq<char>, i: int)
    requires
        0 <= i < s.len(),
    ensures
        byte_offset(s, i + 1) == byte_offset(s, i) + vstd::utf8::encode_scalar(s[i] as u32).len(),
        byte_offset(s, i + 1) > byte_offset(s, i),
{
    assert(s.take(i + 1) =~= s.take(i).push(s[i]));
    lemma_encode_push(s.take(i), s[i]);
    vstd::utf8::char_is_scalar(s[i]);
}

proof fn lemma_offsets_rise(s: Seq<char>, i: int, j: int)
    requires
        0 <= i <= j <= s.len(),
    ensures
        byte_offset(s, i) <= byte_offset(s, j),
        i < j ==> byte_offset(s, i) < byte_offset(s, j),
    decreases j - i,
{
    if i < j {
        lemma_offset_step(s, j - 1);
        lemma_offsets_rise(s, i, j - 1);
    }
}

pub proof fn lemma_char_index(s: Seq<char>, byte: int, k: int)
    requires
        0 <= k <= s.len(),
        forall|i: int| 0 <= i < k ==> byte_offset(s, i) < byte,
        forall|i: int| k <= i < s.len() ==> byte_offset(s, i) >= byte,
    ensures
        char_index(s, byte) == k,
    decreases s.len(),
{
    if s.len() > 0 {
        let t = s.drop_last();
        assert forall|i: int| 0 <= i < t.len() implies byte_offset(t, i) == byte_offset(s, i) by {
            assert(t.take(i) =~= s.take(i));
        }
        if byte_offset(s, s.len() - 1) < byte {
        } else {
            lemma_char_index(t, byte, k);
        }
    }
}

/// The characters before `char_index` start before the byte offset, and the others do not.
pub proof fn lemma_char_index_splits(s: Seq<char>, byte: int)
    ensures
        0 <= char_index(s, byte) <= s.len(),
        forall|i: int| 0 <= i < char_index(s, byte) ==> byte_offset(s, i) < byte,
        forall|i: int| char_index(s, byte) <= i < s.len() ==> byte_offset(s, i) >= byte,
    decreases s.len(),
{
    if s.len() > 0 {
        let last = s.len() - 1;
        if byte_offset(s, last) < byte {
            assert forall|i: int| 0 <= i < s.len() implies byte_offset(s, i) < byte by {
                lemma_offsets_rise(s, i, last);
            }
        } else {
            let t = s.drop_last();
            lemma_char_index_splits(t, byte);
            assert forall|i: int| 0 <= i < t.len() implies byte_offset(t, i) == byte_offset(
                s,
                i,
            ) by {
                assert(t.take(i) =~= s.take(i));
            }
        }
    }
}

/// The number of characters before a byte offset is the index of the character that starts
/// there, where one does.
pub proof fn law_char_index_inverts_byte_offset(s: Seq<char>, i: int)
    requires
        0 <= i <= s.len(),
    ensures
        char_index(s, byte_offset(s, i) as int) == i,
{
    assert forall|k: int| 0 <= k < i implies byte_offset(s, k) < byte_offset(s, i) by {
        lemma_offsets_rise(s, k, i);
    }
    assert forall|k: int| i <= k < s.len() implies byte_offset(s, k) >= byte_offset(s, i) by {
        lemma_offsets_rise(s, i, k);
    }
    lemma_char_index(s, byte_offset(s, i) as int, i);
}

/// Whether `offsets` holds the byte offset of each character of `s`.
pub open spec fn offsets_of(s: Seq<char>, offsets: Seq<usize>) -> bool {
    &&& offsets.len() == s.len()
    &&& forall|i: int| 0 <= i < s.len() ==> #[trigger] offsets[i] == byte_offset(s, i)
}

/// The byte offset of each character.
pub fn char_offsets(chars: &Vec<char>, total: usize) -> (r: Vec<usize>)
    requires
        source_bytes(chars@).len() == total,
    ensures
        offsets_of(chars@, r@),
{
    let mut out: Vec<usize> = Vec::new();
    let mut at: usize = 0;
    let mut i: usize = 0;
    assert(chars@.take(0) =~= Seq::<char>::empty());
    while i < chars.len()
        invariant
            i <= chars@.len(),
            out@.len() == i,
            at == byte_offset(chars@, i as int),
            source_bytes(chars@).len() == total,
            forall|k: int| 0 <= k < i ==> #[trigger] out@[k] == byte_offset(chars@, k),
        decreases chars@.len() - i,
    {
        proof {
            lemma_offset_step(chars@, i as int);
            lemma_offsets_rise(chars@, i + 1, chars@.len() as int);
            assert(chars@.take(chars@.len() as int) =~= chars@);
        }
        out.push(at);
        at = at + utf8_len(chars[i]);
        i += 1;
    }
    out
}

/// How many characters start before byte offset `byte`.
fn find_char(chars: &Vec<char>, offsets: &Vec<usize>, byte: usize) -> (r: usize)
    requires
        offsets_of(chars@, offsets@),
    ensures
        r == char_index(chars@, byte as int),
        r <= chars@.len(),
{
    let mut lo: usize = 0;
    let mut hi: usize = offsets.len();
    while lo < hi
        invariant
            0 <= lo <= hi <= offsets@.len(),
            offsets_of(chars@, offsets@),
            forall|i: int| 0 <= i < lo ==> byte_offset(chars@, i) < byte,
            forall|i: int| hi <= i < chars@.len() ==> byte_offset(chars@, i) >= byte,
        decreases hi - lo,
    {
        let mid: usize = lo + (hi - lo) / 2;
        if offsets[mid] < byte {
            proof {
                assert forall|i: int| 0 <= i < mid + 1 implies byte_offset(chars@, i) < byte by {
                    lemma_offsets_rise(chars@, i, mid as int);
                }
            }
            lo = mid + 1;
        } else {
            proof {
                assert forall|i: int| mid <= i < chars@.len() implies byte_offset(chars@, i)
                    >= byte by {
                    lemma_offsets_rise(chars@, mid as int, i);
                }
            }
            hi = mid;
        }
    }
    proof {
        lemma_char_index(chars@, byte as int, lo as int);
    }
    lo
}

/// The leading marker of the list item at bytes `start..end`.
pub fn marker_at(chars: &Vec<char>, offsets: &Vec<usize>, start: usize, end: usize) -> (r: String)
    requires
        offsets_of(chars@, offsets@),
    ensures
        r@ == marker_text(chars@, start as int, end as int),
{
    let lo: usize = find_char(chars, offsets, start);
    let hi: usize = find_char(chars, offsets, end);
    if lo > hi {
        return String::new();
    }
    let mut a: usize = lo;
    while a < hi && is_white_space(chars[a])
        invariant
            lo <= a <= hi <= chars@.len(),
            white_run(chars@, lo as int, hi as int) == white_run(chars@, a as int, hi as int),
        decreases hi - a,
    {
        a += 1;
    }
    let mut b: usize = a;
    while b < hi && !is_white_space(chars[b])
        invariant
            a <= b <= hi <= chars@.len(),
            word_run(chars@, a as int, hi as int) == word_run(chars@, b as int, hi as int),
        decreases hi - b,
    {
        b += 1;
    }
    string_of(chars, a, b)
}

/// A list item's leading marker token (e.g. `-`, `*`, `1.`), read straight from the source so
/// numbering and bullet style always match what the author wrote.
pub fn item_marker(source: &str, range: &std::ops::Range<usize>) -> (r: String)
    ensures
        r@ == marker_text(source@, range.start as int, range.end as int),
{
    let chars: Vec<char> = chars_of(source);
    let total: usize = source.as_bytes().len();
    let offsets: Vec<usize> = char_offsets(&chars, total);
    marker_at(&chars, &offsets, range.start, range.end)
}

/// The marker of a list item is its first word as the source writes it: behind white space only, a
/// run of characters without white space, up to white space or the end of the item.
pub proof fn law_marker_is_the_first_word(s: Seq<char>, i: int, j: int)
    requires
        0 <= i <= j <= s.len(),
    ensures
        ({
            let marker = marker_text(s, byte_offset(s, i) as int, byte_offset(s, j) as int);
            exists|a: int|
                {
                    &&& i <= a
                    &&& a + marker.len() <= j
                    &&& marker == #[trigger] s.subrange(a, a + marker.len())
                    &&& forall|k: int| i <= k < a ==> text::white_space(#[trigger] s[k])
                    &&& forall|k: int|
                        a <= k < a + marker.len() ==> !text::white_space(#[trigger] s[k])
                    &&& a + marker.len() < j ==> text::white_space(s[a + marker.len()])
                    &&& marker.len() == 0 ==> a == j
                }
        }),
{
    law_char_index_inverts_byte_offset(s, i);
    law_char_index_inverts_byte_offset(s, j);
    let a = white_run(s, i, j);
    lemma_white_run(s, i, j);
    lemma_word_run(s, a, j);
    let b = word_run(s, a, j);
    let marker = marker_text(s, byte_offset(s, i) as int, byte_offset(s, j) as int);
    assert(marker == s.subrange(a, b) && b == a + marker.len());
    assert(marker == s.subrange(a, a + marker.len()));
}

proof fn lemma_white_run(s: Seq<char>, i: int, end: int)
    requires
        0 <= i <= end <= s.len(),
    ensures
        i <= white_run(s, i, end) <= end,
        forall|k: int| i <= k < white_run(s, i, end) ==> text::white_space(#[trigger] s[k]),
        white_run(s, i, end) < end ==> !text::white_space(s[white_run(s, i, end)]),
    decreases end - i,
{
    if i < end && text::white_space(s[i]) {
        lemma_white_run(s, i + 1, end);
    }
}

proof fn lemma_word_run(s: Seq<char>, i: int, end: int)
    requires
        0 <= i <= end <= s.len(),
    ensures
        i <= word_run(s, i, end) <= end,
        forall|k: int| i <= k < word_run(s, i, end) ==> !text::white_space(#[trigger] s[k]),
        word_run(s, i, end) < end ==> text::white_space(s[word_run(s, i, end)]),
    decreases end - i,
{
    if i < end && !text::white_space(s[i]) {
        lemma_word_run(s, i + 1, end);
    }
}

} // verus!
