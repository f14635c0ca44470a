//! The comment box: wrapping its input into rows, and moving the caret over them.
use crate::style;
use crate::style::{Line, LineView, Span, Style, Tone, line, raw, styled};
use crate::text;
use crate::text::{chars_of, find_line_end, string_of};
use crate::width;
use crate::width::columns_of_char;
use vstd::prelude::*;

verus! {

/// How far a row that starts at `start` reaches: the first index from `i` on whose character
/// would take the row over `w` columns, where the first character of a row always has a place.
pub open spec fn row_reach(chars: Seq<char>, start: int, i: int, w: nat) -> int
    decreases chars.len() - i,
{
    if i >= chars.len() {
        i
    } else if i > start && width::columns(chars, start, i + 1) > w {
        i
    } else {
        row_reach(chars, start, i + 1, w)
    }
}

/// The index after the last space in `chars[start..i]`, or `start` where there is none.
pub open spec fn after_last_space(chars: Seq<char>, start: int, i: int) -> int
    decreases i - start,
{
    if i <= start {
        start
    } else if chars[i - 1] == ' ' {
        i
    } else {
        after_last_space(chars, start, i - 1)
    }
}

/// Where the row that starts at `start` ends: after the last space that fits, which stays on
/// the row; in the middle of a word where no space fits; at the end of the text where all of
/// it fits.
pub open spec fn row_end(chars: Seq<char>, start: int, w: nat) -> int {
    let reach = row_reach(chars, start, start, w);
    let cut = after_last_space(chars, start, reach);
    if reach < chars.len() && cut > start {
        cut
    } else {
        reach
    }
}

proof fn lemma_row_reach(chars: Seq<char>, start: int, i: int, w: nat)
    requires
        0 <= start <= i <= chars.len(),
        i > start + 1 ==> width::columns(chars, start, i) <= w,
    ensures
        i <= row_reach(chars, start, i, w) <= chars.len(),
        start < chars.len() ==> start < row_reach(chars, start, i, w),
        row_reach(chars, start, i, w) > start + 1 ==> width::columns(
            chars,
            start,
            row_reach(chars, start, i, w),
        ) <= w,
    decreases chars.len() - i,
{
    if i < chars.len() && !(i > start && width::columns(chars, start, i + 1) > w) {
        lemma_row_reach(chars, start, i + 1, w);
    }
}

proof fn lemma_after_last_space(chars: Seq<char>, start: int, i: int)
    requires
        0 <= start <= i <= chars.len(),
    ensures
        start <= after_last_space(chars, start, i) <= i,
        after_last_space(chars, start, i) > start ==> chars[after_last_space(chars, start, i) - 1]
            == ' ',
        forall|k: int| after_last_space(chars, start, i) <= k < i ==> chars[k] != ' ',
    decreases i - start,
{
    if i > start && chars[i - 1] != ' ' {
        lemma_after_last_space(chars, start, i - 1);
    }
}

/// A row is never empty, stays inside the text, and takes at most `w` columns unless it is a
/// single character wider than that.
pub proof fn lemma_row_end(chars: Seq<char>, start: int, w: nat)
    requires
        0 <= start < chars.len(),
    ensures
        start < row_end(chars, start, w) <= chars.len(),
        row_end(chars, start, w) > start + 1 ==> width::columns(
            chars,
            start,
            row_end(chars, start, w),
        ) <= w,
{
    lemma_row_reach(chars, start, start, w);
    let reach = row_reach(chars, start, start, w);
    lemma_after_last_space(chars, start, reach);
    width::lemma_columns_grow(chars, start, row_end(chars, start, w), reach);
}

/// The rows of a line from `start` on, as half-open ranges of character indices.
pub open spec fn rows_from(chars: Seq<char>, start: int, w: nat) -> Seq<(int, int)>
    decreases chars.len() - start,
{
    let end = row_end(chars, start, w);
    if start >= chars.len() || end <= start || end > chars.len() {
        Seq::empty()
    } else {
        seq![(start, end)] + rows_from(chars, end, w)
    }
}

/// The rows of a line: one empty row where the line is empty.
pub open spec fn wrapped(chars: Seq<char>, w: nat) -> Seq<(int, int)> {
    if chars.len() == 0 {
        seq![(0int, 0int)]
    } else {
        rows_from(chars, 0, w)
    }
}

/// Whether `rows` are non-empty ranges that follow each other without gap from `start` to
/// `end`.
pub open spec fn tile(rows: Seq<(int, int)>, start: int, end: int) -> bool {
    &&& rows.len() == 0 ==> start == end
    &&& rows.len() > 0 ==> rows[0].0 == start && rows.last().1 == end
    &&& forall|k: int| 0 <= k < rows.len() ==> start <= (#[trigger] rows[k]).0 < rows[k].1 <= end
    &&& forall|k: int, l: int|
        0 <= k && l == k + 1 && l < rows.len() ==> (#[trigger] rows[k]).1 == (#[trigger] rows[l]).0
}

proof fn lemma_rows_tile(chars: Seq<char>, start: int, w: nat)
    requires
        0 <= start <= chars.len(),
    ensures
        tile(rows_from(chars, start, w), start, chars.len() as int),
        forall|k: int|
            0 <= k < rows_from(chars, start, w).len() ==> {
                let r = #[trigger] rows_from(chars, start, w)[k];
                r.1 == row_end(chars, r.0, w)
            },
    decreases chars.len() - start,
{
    if start < chars.len() {
        lemma_row_end(chars, start, w);
        let end = row_end(chars, start, w);
        lemma_rows_tile(chars, end, w);
        let rest = rows_from(chars, end, w);
        let all = rows_from(chars, start, w);
        assert(all == seq![(start, end)] + rest);
        assert forall|k: int| 0 <= k < all.len() implies start <= (#[trigger] all[k]).0
            < all[k].1 <= chars.len() && all[k].1 == row_end(chars, all[k].0, w) by {
            if k > 0 {
                assert(all[k] == rest[k - 1]);
            }
        }
        assert forall|k: int, l: int| 0 <= k && l == k + 1 && l < all.len() implies (
        #[trigger] all[k]).1 == (#[trigger] all[l]).0 by {
            assert(all[l] == rest[l - 1]);
            if k > 0 {
                assert(all[k] == rest[k - 1]);
            }
        }
        if rest.len() > 0 {
            assert(all.last() == rest.last());
        }
    }
}

/// The least width that text wraps at: one column.
pub open spec fn wrap_width(width: usize) -> nat {
    if width == 0 {
        1
    } else {
        width as nat
    }
}

/// Wrapping puts every character of a line in exactly one row, in order: the rows follow each
/// other without gap from the first character to the last. No row is wider than `w` columns
/// unless it is a single character. A row that does not reach the end of the line ends after a
/// space, or holds no space at all.
pub proof fn law_wrap_covers_each_char_once(chars: Seq<char>, w: nat)
    requires
        chars.len() > 0,
    ensures
        tile(wrapped(chars, w), 0, chars.len() as int),
        forall|k: int|
            0 <= k < wrapped(chars, w).len() ==> {
                let (a, b) = #[trigger] wrapped(chars, w)[k];
                &&& b > a + 1 ==> width::columns(chars, a, b) <= w
                &&& b < chars.len() && chars[b - 1] != ' ' ==> forall|i: int|
                    a <= i < b ==> chars[i] != ' '
            },
{
    lemma_rows_tile(chars, 0, w);
    assert forall|k: int| 0 <= k < wrapped(chars, w).len() implies {
        let (a, b) = #[trigger] wrapped(chars, w)[k];
        &&& b > a + 1 ==> width::columns(chars, a, b) <= w
        &&& b < chars.len() && chars[b - 1] != ' ' ==> forall|i: int| a <= i < b ==> chars[i] != ' '
    } by {
        let (a, b) = wrapped(chars, w)[k];
        lemma_row_end(chars, a, w);
        lemma_row_reach(chars, a, a, w);
        lemma_after_last_space(chars, a, row_reach(chars, a, a, w));
    }
}

pub proof fn lemma_wrapped(chars: Seq<char>, w: nat)
    ensures
        wrapped(chars, w).len() > 0,
        forall|k: int|
            0 <= k < wrapped(chars, w).len() ==> 0 <= (#[trigger] wrapped(chars, w)[k]).0
                <= wrapped(chars, w)[k].1 <= chars.len(),
{
    if chars.len() > 0 {
        lemma_rows_tile(chars, 0, w);
    }
}

/// The ranges of `rows` as pairs of integers.
pub open spec fn ranges_view(rows: Seq<(usize, usize)>) -> Seq<(int, int)> {
    rows.map_values(|r: (usize, usize)| (r.0 as int, r.1 as int))
}

/// Where the row of `chars` that starts at `start` ends, at `w` columns.
fn find_row_end(chars: &[char], start: usize, w: usize) -> (end: usize)
    requires
        start < chars@.len(),
        w > 0,
    ensures
        end == row_end(chars@, start as int, w as nat),
        start < end <= chars@.len(),
{
    let mut col: usize = 0;
    let mut i: usize = start;
    let mut cut: usize = start;
    proof {
        lemma_row_end(chars@, start as int, w as nat);
    }
    while i < chars.len()
        invariant_except_break
            row_reach(chars@, start as int, i as int, w as nat) == row_reach(
                chars@,
                start as int,
                start as int,
                w as nat,
            ),
        invariant
            start <= i <= chars@.len(),
            start < chars@.len(),
            w > 0,
            col == width::columns(chars@, start as int, i as int),
            cut == after_last_space(chars@, start as int, i as int),
            col <= w || i == start + 1,
        ensures
            i == row_reach(chars@, start as int, start as int, w as nat),
        decreases chars@.len() - i,
    {
        let cw: usize = columns_of_char(chars[i]);
        if i > start && (col > w || cw > w - col) {
            break;
        }
        col = col + cw;
        if chars[i] == ' ' {
            cut = i + 1;
        }
        i += 1;
    }
    proof {
        lemma_after_last_space(chars@, start as int, i as int);
    }
    if i < chars.len() && cut > start {
        cut
    } else {
        i
    }
}

/// Wrap one logical line's `chars` to `width` display columns, returning contiguous half-open
/// character ranges, so a character index maps cleanly to a row. A greedy word wrap that keeps
/// the break space on its row; an over-wide word hard-breaks.
pub fn box_wrap(chars: &[char], width: usize) -> (rows: Vec<(usize, usize)>)
    ensures
        ranges_view(rows@) == wrapped(chars@, wrap_width(width)),
{
    let mut rows: Vec<(usize, usize)> = Vec::new();
    if chars.len() == 0 {
        rows.push((0, 0));
        assert(ranges_view(rows@) =~= seq![(0int, 0int)]);
        return rows;
    }
    let w: usize = if width == 0 {
        1
    } else {
        width
    };
    let mut start: usize = 0;
    assert(ranges_view(rows@) + rows_from(chars@, 0, w as nat) =~= rows_from(chars@, 0, w as nat));
    while start < chars.len()
        invariant
            start <= chars@.len(),
            w > 0,
            ranges_view(rows@) + rows_from(chars@, start as int, w as nat) == rows_from(
                chars@,
                0,
                w as nat,
            ),
        decreases chars@.len() - start,
    {
        let end: usize = find_row_end(chars, start, w);
        let ghost before = rows@;
        rows.push((start, end));
        assert(ranges_view(rows@) =~= ranges_view(before) + seq![(start as int, end as int)]);
        assert(ranges_view(before) + (seq![(start as int, end as int)] + rows_from(
            chars@,
            end as int,
            w as nat,
        )) =~= ranges_view(rows@) + rows_from(chars@, end as int, w as nat));
        start = end;
    }
    assert(ranges_view(rows@) + Seq::<(int, int)>::empty() =~= ranges_view(rows@));
    rows
}

/// One visual row of the comment box: the index of its first character, and its text.
pub struct BoxRow {
    pub start: int,
    pub text: Seq<char>,
}

/// What each of `rows` shows.
pub open spec fn box_view(rows: Seq<(usize, String)>) -> Seq<BoxRow> {
    rows.map_values(|r: (usize, String)| BoxRow { start: r.0 as int, text: r.1@ })
}

/// The rows of the logical line `input[i..e]`.
pub open spec fn line_rows(input: Seq<char>, i: int, e: int, w: nat) -> Seq<BoxRow> {
    wrapped(input.subrange(i, e), w).map_values(
        |r: (int, int)| BoxRow { start: i + r.0, text: input.subrange(i + r.0, i + r.1) },
    )
}

/// The rows of the logical lines of `input` from index `i` on. A line feed ends a line, so a
/// trailing one opens an empty row.
pub open spec fn box_from(input: Seq<char>, i: int, w: nat) -> Seq<BoxRow>
    decreases input.len() - i,
{
    let e = text::line_end(input, i);
    if e < i || e >= input.len() {
        line_rows(input, i, input.len() as int, w)
    } else {
        line_rows(input, i, e, w) + box_from(input, e + 1, w)
    }
}

/// The box's visual rows over the whole `input`: `(start_char_index, text)` per row, wrapping
/// each logical line (split on `\n`) with [`box_wrap`]. A trailing newline yields an empty row.
pub fn box_rows(input: &str, width: usize) -> (rows: Vec<(usize, String)>)
    ensures
        box_view(rows@) == box_from(input@, 0, wrap_width(width)),
{
    let chars: Vec<char> = chars_of(input);
    let ghost w = wrap_width(width);
    let mut rows: Vec<(usize, String)> = Vec::new();
    let mut i: usize = 0;
    assert(box_view(rows@) + box_from(chars@, 0, w) =~= box_from(chars@, 0, w));
    loop
        invariant_except_break
            i <= chars@.len(),
            box_view(rows@) + box_from(chars@, i as int, w) == box_from(chars@, 0, w),
        invariant
            w == wrap_width(width),
        ensures
            box_view(rows@) == box_from(chars@, 0, w),
        decreases chars@.len() - i,
    {
        let line_end: usize = find_line_end(&chars, i);
        let line: &[char] = vstd::slice::slice_subrange(chars.as_slice(), i, line_end);
        let ranges: Vec<(usize, usize)> = box_wrap(line, width);
        let ghost before = rows@;
        let ghost added = line_rows(chars@, i as int, line_end as int, w);
        proof {
            lemma_wrapped(chars@.subrange(i as int, line_end as int), w);
        }
        let mut k: usize = 0;
        while k < ranges.len()
            invariant
                k <= ranges@.len(),
                i <= line_end <= chars@.len(),
                ranges_view(ranges@) == wrapped(chars@.subrange(i as int, line_end as int), w),
                added == line_rows(chars@, i as int, line_end as int, w),
                forall|j: int|
                    0 <= j < ranges@.len() ==> 0 <= (#[trigger] ranges_view(ranges@)[j]).0
                        <= ranges_view(ranges@)[j].1 <= line_end - i,
                box_view(rows@) == box_view(before) + added.take(k as int),
            decreases ranges@.len() - k,
        {
            let (a, b): (usize, usize) = ranges[k];
            assert(ranges_view(ranges@)[k as int] == (a as int, b as int));
            let ghost held = rows@;
            let row: (usize, String) = (i + a, string_of(&chars, i + a, i + b));
            rows.push(row);
            assert(added.take(k + 1) =~= added.take(k as int).push(added[k as int]));
            assert(box_view(rows@) =~= box_view(held).push(added[k as int]));
            k += 1;
        }
        assert(added.take(ranges@.len() as int) =~= added);
        if line_end == chars.len() {
            break;
        }
        assert(box_view(before) + (added + box_from(chars@, line_end + 1, w)) =~= box_view(rows@)
            + box_from(chars@, line_end + 1, w));
        i = line_end + 1;
    }
    rows
}

/// The index after the last character of `row`.
pub open spec fn row_stop(row: BoxRow) -> int {
    row.start + row.text.len()
}

/// Whether `rows` lay out `input[i..e]` in order: each row is a run of its characters without a
/// line feed, and each row but the first starts right where the one before it stops, or behind
/// the line feed there.
pub open spec fn lays_out(rows: Seq<BoxRow>, input: Seq<char>, i: int, e: int) -> bool {
    &&& rows.len() > 0
    &&& rows[0].start == i
    &&& row_stop(rows.last()) == e
    &&& forall|k: int|
        0 <= k < rows.len() ==> {
            let r = #[trigger] rows[k];
            &&& i <= r.start <= row_stop(r) <= e
            &&& r.text == input.subrange(r.start, row_stop(r))
            &&& !r.text.contains('\n')
        }
    &&& forall|k: int, l: int|
        0 <= k && l == k + 1 && l < rows.len() ==> {
            let (r, s) = (#[trigger] rows[k], #[trigger] rows[l]);
            &&& r.start < s.start
            &&& s.start == row_stop(r) || (s.start == row_stop(r) + 1 && input[row_stop(r)]
                == '\n')
        }
}

proof fn lemma_line_rows(input: Seq<char>, i: int, e: int, w: nat)
    requires
        0 <= i <= e <= input.len(),
        forall|j: int| i <= j < e ==> input[j] != '\n',
    ensures
        lays_out(line_rows(input, i, e, w), input, i, e),
{
    let line = input.subrange(i, e);
    let ranges = wrapped(line, w);
    let rows = line_rows(input, i, e, w);
    lemma_wrapped(line, w);
    if line.len() > 0 {
        lemma_rows_tile(line, 0, w);
    }
    assert forall|k: int| 0 <= k < rows.len() implies {
        let r = #[trigger] rows[k];
        &&& i <= r.start <= row_stop(r) <= e
        &&& r.text == input.subrange(r.start, row_stop(r))
        &&& !r.text.contains('\n')
    } by {
        let (a, b) = ranges[k];
        assert(rows[k] == BoxRow { start: i + a, text: input.subrange(i + a, i + b) });
    }
    assert forall|k: int, l: int| 0 <= k && l == k + 1 && l < rows.len() implies {
        let (r, s) = (#[trigger] rows[k], #[trigger] rows[l]);
        &&& r.start < s.start
        &&& s.start == row_stop(r) || (s.start == row_stop(r) + 1 && input[row_stop(r)] == '\n')
    } by {
        let (a, b) = ranges[k];
        let (c, d) = ranges[l];
        assert(rows[k] == BoxRow { start: i + a, text: input.subrange(i + a, i + b) });
        assert(rows[l] == BoxRow { start: i + c, text: input.subrange(i + c, i + d) });
    }
    assert(ranges[0].0 == 0);
    assert(ranges.last().1 == line.len());
}

proof fn lemma_box_from(input: Seq<char>, i: int, w: nat)
    requires
        0 <= i <= input.len(),
    ensures
        lays_out(box_from(input, i, w), input, i, input.len() as int),
    decreases input.len() - i,
{
    text::lemma_line_end(input, i);
    let e = text::line_end(input, i);
    lemma_line_rows(input, i, e, w);
    if e < input.len() {
        lemma_box_from(input, e + 1, w);
        let first = line_rows(input, i, e, w);
        let rest = box_from(input, e + 1, w);
        let all = box_from(input, i, w);
        assert(all == first + rest);
        assert forall|k: int| 0 <= k < all.len() implies {
            let r = #[trigger] all[k];
            &&& i <= r.start <= row_stop(r) <= input.len()
            &&& r.text == input.subrange(r.start, row_stop(r))
            &&& !r.text.contains('\n')
        } by {
            if k < first.len() {
                assert(all[k] == first[k]);
            } else {
                assert(all[k] == rest[k - first.len()]);
            }
        }
        assert forall|k: int, l: int| 0 <= k && l == k + 1 && l < all.len() implies {
            let (r, s) = (#[trigger] all[k], #[trigger] all[l]);
            &&& r.start < s.start
            &&& s.start == row_stop(r) || (s.start == row_stop(r) + 1 && input[row_stop(r)]
                == '\n')
        } by {
            if l < first.len() {
                assert(all[k] == first[k] && all[l] == first[l]);
            } else if k < first.len() {
                assert(all[k] == first.last() && all[l] == rest[0]);
            } else {
                assert(all[k] == rest[k - first.len()] && all[l] == rest[l - first.len()]);
            }
        }
        assert(all.last() == rest.last());
    }
}

/// The rows of the comment box lay out its whole input: each character but the line feeds is
/// in exactly one row, and there is always a row.
pub proof fn law_box_rows_lay_out_the_input(input: Seq<char>, w: nat)
    ensures
        lays_out(box_from(input, 0, w), input, 0, input.len() as int),
{
    lemma_box_from(input, 0, w);
}

/// The last of `rows[..n]` that starts at or before `caret`, or the first row where none does.
pub open spec fn caret_row(rows: Seq<BoxRow>, caret: int, n: int) -> int
    decreases n,
{
    if n <= 0 {
        0
    } else if rows[n - 1].start <= caret {
        n - 1
    } else {
        caret_row(rows, caret, n - 1)
    }
}

/// The `(row, col)` of `caret`: the last row that starts at or before it, with the column
/// clamped to that row's length.
pub open spec fn caret_cell(rows: Seq<BoxRow>, caret: int) -> (int, int) {
    let row = caret_row(rows, caret, rows.len() as int);
    let col = caret - rows[row].start;
    let len = rows[row].text.len();
    (
        row,
        if col <= len {
            col
        } else {
            len as int
        },
    )
}

proof fn lemma_caret_row(rows: Seq<BoxRow>, caret: int, n: int)
    requires
        0 < n <= rows.len(),
        rows[0].start <= caret,
    ensures
        0 <= caret_row(rows, caret, n) < n,
        rows[caret_row(rows, caret, n)].start <= caret,
        forall|k: int| caret_row(rows, caret, n) < k < n ==> rows[k].start > caret,
    decreases n,
{
    if rows[n - 1].start > caret {
        lemma_caret_row(rows, caret, n - 1);
    }
}

/// Map a caret character index to its `(row, col)` in the box rows: the last row that starts
/// at or before the caret, with the column clamped to that row's length.
pub fn caret_rowcol(rows: &Vec<(usize, String)>, caret: usize) -> (cell: (usize, usize))
    requires
        rows@.len() > 0,
        rows@[0].0 <= caret,
    ensures
        (cell.0 as int, cell.1 as int) == caret_cell(box_view(rows@), caret as int),
        cell.0 < rows@.len(),
        rows@[cell.0 as int].0 <= caret,
        cell.1 <= rows@[cell.0 as int].1@.len(),
{
    let ghost view = box_view(rows@);
    let mut row: usize = rows.len() - 1;
    assert(view[0].start == rows@[0].0);
    while rows[row].0 > caret
        invariant
            row < rows@.len(),
            rows@[0].0 <= caret,
            view == box_view(rows@),
            caret_row(view, caret as int, view.len() as int) == caret_row(
                view,
                caret as int,
                row + 1,
            ),
        decreases row,
    {
        assert(view[row as int].start == rows@[row as int].0);
        row -= 1;
    }
    assert(view[row as int].start == rows@[row as int].0);
    let len: usize = rows[row].1.as_str().unicode_len();
    let col: usize = caret - rows[row].0;
    (
        row,
        if col <= len {
            col
        } else {
            len
        },
    )
}

/// A caret inside the input, or right behind it, is where its row and column say: nothing is
/// clamped.
pub proof fn law_caret_cell_is_exact(input: Seq<char>, w: nat, caret: int)
    requires
        0 <= caret <= input.len(),
    ensures
        ({
            let rows = box_from(input, 0, w);
            let (row, col) = caret_cell(rows, caret);
            0 <= row < rows.len() && rows[row].start + col == caret
        }),
{
    let rows = box_from(input, 0, w);
    lemma_box_from(input, 0, w);
    lemma_caret_row(rows, caret, rows.len() as int);
    let row = caret_row(rows, caret, rows.len() as int);
    if row + 1 < rows.len() {
        let (r, s) = (rows[row], rows[row + 1]);
        assert(s.start > caret);
    }
}

/// The row below (`down`) or above row `row`. The first and the last row are their own
/// neighbours.
pub open spec fn row_beside(rows: Seq<BoxRow>, row: int, down: bool) -> int {
    if down {
        if row + 1 < rows.len() {
            row + 1
        } else {
            rows.len() - 1
        }
    } else if row > 0 {
        row - 1
    } else {
        0
    }
}

/// The last column of row `k` that the caret can be in: behind its last character, or on that
/// character where the row ends by wrapping, since the index behind it belongs to the next row.
pub open spec fn last_col(rows: Seq<BoxRow>, k: int) -> int {
    if k + 1 < rows.len() && rows[k + 1].start == row_stop(rows[k]) {
        rows[k].text.len() - 1
    } else {
        rows[k].text.len() as int
    }
}

/// The caret index one row below (`down`) or above `caret`, in the same column where the target
/// row is long enough.
pub open spec fn caret_moved(rows: Seq<BoxRow>, caret: int, down: bool) -> int {
    let (row, col) = caret_cell(rows, caret);
    let target = row_beside(rows, row, down);
    rows[target].start + if col <= last_col(rows, target) {
        col
    } else {
        last_col(rows, target)
    }
}

proof fn lemma_starts_grow(rows: Seq<BoxRow>, input: Seq<char>, k: int, l: int)
    requires
        lays_out(rows, input, 0, input.len() as int),
        0 <= k <= l < rows.len(),
    ensures
        rows[k].start <= rows[l].start,
    decreases l - k,
{
    if k < l {
        lemma_starts_grow(rows, input, k, l - 1);
        let (r, s) = (rows[l - 1], rows[l]);
        assert(r.start < s.start);
    }
}

/// The caret moves by one wrapped row: it lands on the row below or above, in its column where
/// that row is long enough, and stays where it is at the last or the first row.
pub proof fn law_caret_moves_one_row(input: Seq<char>, w: nat, caret: int, down: bool)
    requires
        0 <= caret <= input.len(),
    ensures
        ({
            let rows = box_from(input, 0, w);
            let (row, col) = caret_cell(rows, caret);
            let target = row_beside(rows, row, down);
            let moved = caret_moved(rows, caret, down);
            &&& 0 <= moved <= input.len()
            &&& caret_cell(rows, moved).0 == target
            &&& caret_cell(rows, moved).1 == if col <= last_col(rows, target) {
                col
            } else {
                last_col(rows, target)
            }
            &&& target == row ==> moved == caret
        }),
{
    let rows = box_from(input, 0, w);
    lemma_box_from(input, 0, w);
    law_caret_cell_is_exact(input, w, caret);
    lemma_caret_row(rows, caret, rows.len() as int);
    let (row, col) = caret_cell(rows, caret);
    let target = row_beside(rows, row, down);
    let moved = caret_moved(rows, caret, down);
    let t = rows[target];
    assert(0 <= t.start <= row_stop(t) <= input.len());
    if target + 1 < rows.len() {
        let (r, s) = (rows[target], rows[target + 1]);
        assert(r.start < s.start);
        assert(s.start == row_stop(r) || s.start == row_stop(r) + 1);
        assert(moved < s.start);
    }
    lemma_caret_row(rows, moved, rows.len() as int);
    let found = caret_row(rows, moved, rows.len() as int);
    if found > target {
        lemma_starts_grow(rows, input, target + 1, found);
    }
    assert(found == target);
    if row + 1 < rows.len() {
        let (r, s) = (rows[row], rows[row + 1]);
        assert(s.start > caret);
    }
}

/// The new caret character index after moving up (`down == false`) or down one wrapped row
/// within the comment box, keeping the column where the target row allows.
pub fn caret_vertical(input: &str, caret: usize, content_w: usize, down: bool) -> (r: usize)
    ensures
        r == caret_moved(box_from(input@, 0, wrap_width(content_w)), caret as int, down),
        r <= input@.len(),
        caret <= input@.len() ==> ({
            let rows = box_from(input@, 0, wrap_width(content_w));
            let row = caret_cell(rows, caret as int).0;
            let target = row_beside(rows, row, down);
            &&& caret_cell(rows, r as int).0 == target
            &&& target == row ==> r == caret
        }),
{
    let rows: Vec<(usize, String)> = box_rows(input, content_w);
    let ghost view = box_view(rows@);
    proof {
        lemma_box_from(input@, 0, wrap_width(content_w));
        assert(view[0].start == rows@[0].0);
        if caret <= input@.len() {
            law_caret_moves_one_row(input@, wrap_width(content_w), caret as int, down);
        }
    }
    let (row, col): (usize, usize) = caret_rowcol(&rows, caret);
    let target: usize = if down {
        if row < rows.len() - 1 {
            row + 1
        } else {
            rows.len() - 1
        }
    } else if row > 0 {
        row - 1
    } else {
        0
    };
    let len: usize = rows[target].1.as_str().unicode_len();
    // The sums below stay within the input, and so within its length.
    let _total: usize = input.unicode_len();
    proof {
        let k = target as int;
        assert(view[k] == BoxRow { start: rows@[k].0 as int, text: rows@[k].1@ });
        assert(row_stop(view[k]) <= input@.len());
        if k + 1 < view.len() {
            assert(view[k + 1].start == rows@[k + 1].0);
            let (r, s) = (view[k], view[k + 1]);
            assert(r.start < s.start);
        }
    }
    let wraps: bool = target < rows.len() - 1 && rows[target + 1].0 == rows[target].0 + len;
    let last: usize = if wraps {
        len - 1
    } else {
        len
    };
    assert(last == last_col(view, target as int));
    rows[target].0 + if col <= last {
        col
    } else {
        last
    }
}

/// The block-cursor style: the character under the caret dark on a bright ground.
pub open spec fn caret_look() -> Style {
    Style { bg: Some(Tone::Peach), ..Style::toned(Tone::Surface0) }
}

/// The block-cursor style: the character under the caret dark on a bright ground.
fn caret_style() -> (r: Style)
    ensures
        r == caret_look(),
{
    let mut look: Style = Style::toned(Tone::Surface0);
    look.bg = Some(Tone::Peach);
    look
}

/// One box row with the caret block over the character at `col`, or behind the last one.
pub open spec fn caret_line(text: Seq<char>, col: int) -> LineView {
    style::line_of_spans(
        if col < text.len() {
            seq![
                style::raw_of(text.take(col)),
                style::span_of(seq![text[col]], caret_look()),
                style::raw_of(text.skip(col + 1)),
            ]
        } else {
            seq![style::raw_of(text), style::span_of(" "@, caret_look())]
        },
    )
}

/// The display lines of the comment box: each input line word-wrapped, with the caret drawn as
/// a block at its row and column. An empty box shows a placeholder.
pub open spec fn box_lines(input: Seq<char>, caret: int, w: nat) -> Seq<LineView> {
    if input.len() == 0 {
        seq![
            style::line_of_spans(
                seq![
                    style::span_of(" "@, caret_look()),
                    style::span_of("Leave a comment…"@, Style::toned(Tone::Overlay0)),
                ],
            ),
        ]
    } else {
        let rows = box_from(input, 0, w);
        let (row, col) = caret_cell(rows, caret);
        Seq::new(
            rows.len(),
            |i: int|
                if i == row {
                    caret_line(rows[i].text, col)
                } else {
                    style::line_of_spans(seq![style::raw_of(rows[i].text)])
                },
        )
    }
}

/// One box row with the caret block over the character at `col` (a trailing block at the end).
pub fn row_with_caret(text: &str, col: usize) -> (r: Line)
    ensures
        r@ == caret_line(text@, col as int),
{
    let chars: Vec<char> = chars_of(text);
    let n: usize = chars.len();
    let caret: Style = caret_style();
    let spans: Vec<Span> = if col < n {
        assert(chars@.subrange(0, col as int) =~= text@.take(col as int));
        assert(chars@.subrange(col as int, col + 1) =~= seq![text@[col as int]]);
        assert(chars@.subrange(col + 1, n as int) =~= text@.skip(col + 1));
        vec![
            raw(string_of(&chars, 0, col)),
            styled(string_of(&chars, col, col + 1), caret),
            raw(string_of(&chars, col + 1, n)),
        ]
    } else {
        vec![raw(text.to_owned()), styled(" ".to_owned(), caret)]
    };
    assert(style::spans_view(spans@) =~= caret_line(text@, col as int).spans);
    line(spans)
}

/// The comment box's display lines at `content_w`: each input line word-wrapped, with the caret
/// drawn as a block at its mapped (row, column). An empty box shows a placeholder.
pub fn composer_lines(input: &str, caret: usize, content_w: usize) -> (r: Vec<Line>)
    ensures
        style::lines_view(r@) == box_lines(input@, caret as int, wrap_width(content_w)),
{
    if input.is_empty() {
        let look: Style = caret_style();
        let spans: Vec<Span> = vec![
            styled(" ".to_owned(), look),
            styled("Leave a comment…".to_owned(), Style::toned(Tone::Overlay0)),
        ];
        assert(style::spans_view(spans@) =~= seq![
            style::span_of(" "@, caret_look()),
            style::span_of("Leave a comment…"@, Style::toned(Tone::Overlay0)),
        ]);
        let lines: Vec<Line> = vec![line(spans)];
        assert(style::lines_view(lines@) =~= box_lines(
            input@,
            caret as int,
            wrap_width(content_w),
        ));
        return lines;
    }
    let rows: Vec<(usize, String)> = box_rows(input, content_w);
    let ghost view = box_view(rows@);
    proof {
        lemma_box_from(input@, 0, wrap_width(content_w));
        assert(view[0].start == rows@[0].0);
    }
    let (caret_row, caret_col): (usize, usize) = caret_rowcol(&rows, caret);
    let mut out: Vec<Line> = Vec::new();
    let mut i: usize = 0;
    while i < rows.len()
        invariant
            i <= rows@.len(),
            out@.len() == i,
            view == box_view(rows@),
            forall|k: int|
                0 <= k < i ==> (#[trigger] out@[k])@ == if k == caret_row {
                    caret_line(view[k].text, caret_col as int)
                } else {
                    style::line_of_spans(seq![style::raw_of(view[k].text)])
                },
        decreases rows@.len() - i,
    {
        assert(view[i as int].text == rows@[i as int].1@);
        let shown: Line = if i == caret_row {
            row_with_caret(rows[i].1.as_str(), caret_col)
        } else {
            let spans: Vec<Span> = vec![raw(rows[i].1.clone())];
            assert(style::spans_view(spans@) =~= seq![style::raw_of(view[i as int].text)]);
            line(spans)
        };
        out.push(shown);
        i += 1;
    }
    assert(style::lines_view(out@) =~= box_lines(input@, caret as int, wrap_width(content_w)));
    out
}

proof fn lemma_reach_is_full(chars: Seq<char>, start: int, i: int, w: nat)
    requires
        0 <= start <= i <= chars.len(),
    ensures
        row_reach(chars, start, i, w) < chars.len() ==> width::columns(
            chars,
            start,
            row_reach(chars, start, i, w) + 1,
        ) > w,
    decreases chars.len() - i,
{
    if i < chars.len() && !(i > start && width::columns(chars, start, i + 1) > w) {
        lemma_reach_is_full(chars, start, i + 1, w);
    }
}

/// Each row takes all that fits: no word more, and not the rest of the line, would have fitted in
/// `w` columns. Where a row breaks inside a word, not one character more would have fitted.
pub proof fn law_rows_take_all_that_fits(chars: Seq<char>, w: nat, k: int)
    requires
        chars.len() > 0,
        0 <= k < wrapped(chars, w).len(),
        wrapped(chars, w)[k].1 < chars.len(),
    ensures
        ({
            let (a, b) = wrapped(chars, w)[k];
            &&& forall|e: int|
                b < e <= chars.len() && (e == chars.len() || chars[e - 1] == ' ') ==> #[trigger]
                    width::columns(chars, a, e) > w
            &&& chars[b - 1] != ' ' ==> width::columns(chars, a, b + 1) > w
        }),
{
    lemma_rows_tile(chars, 0, w);
    let (a, b) = wrapped(chars, w)[k];
    let reach = row_reach(chars, a, a, w);
    lemma_row_reach(chars, a, a, w);
    lemma_reach_is_full(chars, a, a, w);
    lemma_after_last_space(chars, a, reach);
    assert forall|e: int|
        b < e <= chars.len() && (e == chars.len() || chars[e - 1] == ' ') implies #[trigger]
        width::columns(chars, a, e) > w by {
        if e > reach {
            width::lemma_columns_grow(chars, a, reach + 1, e);
        }
    }
}

/// A caret belongs to the row that its character is in, or to the row that ends there: the next row
/// starts behind it.
pub proof fn law_caret_stands_on_the_last_row_it_can(input: Seq<char>, w: nat, caret: int)
    requires
        0 <= caret <= input.len(),
    ensures
        ({
            let rows = box_from(input, 0, w);
            let (row, col) = caret_cell(rows, caret);
            &&& 0 <= row < rows.len()
            &&& 0 <= col <= rows[row].text.len()
            &&& rows[row].start + col == caret
            &&& forall|k: int| row < k < rows.len() ==> (#[trigger] rows[k]).start > caret
        }),
{
    let rows = box_from(input, 0, w);
    lemma_box_from(input, 0, w);
    law_caret_cell_is_exact(input, w, caret);
    lemma_caret_row(rows, caret, rows.len() as int);
}

/// Up and down move the caret by one row: to the row just above or below in the same column, or to
/// the last place on that row where it is too short. On the first or the last row the caret stays.
pub proof fn law_caret_keeps_its_column(input: Seq<char>, w: nat, caret: int, down: bool)
    requires
        0 <= caret <= input.len(),
    ensures
        ({
            let rows = box_from(input, 0, w);
            let (row, col) = caret_cell(rows, caret);
            let moved = caret_moved(rows, caret, down);
            let (to, at) = caret_cell(rows, moved);
            let n = rows.len() as int;
            &&& 0 <= moved <= input.len()
            &&& (down && row == n - 1) || (!down && row == 0) ==> moved == caret
            &&& down && row < n - 1 ==> to == row + 1
            &&& !down && row > 0 ==> to == row - 1
            &&& at <= col
            &&& at < col ==> {
                ||| at == rows[to].text.len()
                ||| at + 1 == rows[to].text.len() && to + 1 < n && rows[to + 1].start == moved + 1
            }
        }),
{
    let rows = box_from(input, 0, w);
    law_caret_moves_one_row(input, w, caret, down);
    law_caret_stands_on_the_last_row_it_can(input, w, caret);
    law_caret_stands_on_the_last_row_it_can(input, w, caret_moved(rows, caret, down));
    let (row, col) = caret_cell(rows, caret);
    lemma_box_from(input, 0, w);
    if row + 1 < rows.len() {
        let (r, s) = (rows[row], rows[row + 1]);
        assert(s.start > caret);
    }
}

/// The comment box shows what was typed: each line is a row of the input, with one space behind it
/// where the caret stands there, and the caret is painted over the character it stands on and over
/// no other.
pub proof fn law_box_shows_the_input_and_the_caret(input: Seq<char>, caret: int, w: nat, i: int)
    requires
        0 < input.len(),
        0 <= caret <= input.len(),
        0 <= i < box_from(input, 0, w).len(),
    ensures
        ({
            let rows = box_from(input, 0, w);
            let lines = box_lines(input, caret, w);
            let (row, col) = caret_cell(rows, caret);
            let shown = style::cells(lines[i].spans);
            let t = rows[i].text;
            &&& lines.len() == rows.len()
            &&& shown.len() == if i == row && col == t.len() {
                t.len() + 1
            } else {
                t.len()
            }
            &&& forall|k: int| 0 <= k < t.len() ==> (#[trigger] shown[k]).0 == t[k]
            &&& shown.len() > t.len() ==> shown.last().0 == ' '
            &&& forall|k: int|
                0 <= k < shown.len() ==> ((#[trigger] shown[k]).1.bg is Some <==> i == row && k
                    == col)
        }),
{
    let rows = box_from(input, 0, w);
    let (row, col) = caret_cell(rows, caret);
    let line = box_lines(input, caret, w)[i];
    let t = rows[i].text;
    law_caret_stands_on_the_last_row_it_can(input, w, caret);
    reveal_strlit(" ");
    let e = Seq::<style::SpanView>::empty();
    let s = line.spans;
    assert(style::cells(e) =~= Seq::empty());
    assert(e.push(s[0]).drop_last() =~= e);
    assert(style::cells(e.push(s[0])) =~= style::span_cells(s[0]));
    if i == row {
        let two = e.push(s[0]).push(s[1]);
        assert(two.drop_last() =~= e.push(s[0]));
        assert(style::cells(two) =~= style::span_cells(s[0]) + style::span_cells(s[1]));
        if col < t.len() {
            assert(s =~= two.push(s[2]));
            assert(two.push(s[2]).drop_last() =~= two);
            assert(style::cells(s) =~= style::span_cells(s[0]) + style::span_cells(s[1])
                + style::span_cells(s[2]));
        } else {
            assert(s =~= two);
        }
    } else {
        assert(s =~= e.push(s[0]));
    }
}

proof fn lemma_feed_behind_ends_a_line(s: Seq<char>, i: int)
    requires
        0 <= i <= s.len(),
    ensures
        text::line_end(s.push('\n'), i) == text::line_end(s, i),
{
    let t = s.push('\n');
    text::lemma_line_end(s, i);
    text::lemma_line_end(t, i);
    let (e, f) = (text::line_end(s, i), text::line_end(t, i));
    assert(forall|k: int| 0 <= k < s.len() ==> #[trigger] t[k] == s[k]);
    assert(t[s.len() as int] == '\n');
    if f < e {
        assert(t[f] == s[f]);
    }
    if e < f {
        assert(t[e] == '\n');
    }
}

proof fn lemma_same_line_rows(s: Seq<char>, t: Seq<char>, i: int, e: int, w: nat)
    requires
        0 <= i <= e <= s.len(),
        e <= t.len(),
        forall|k: int| 0 <= k < e ==> #[trigger] s[k] == t[k],
    ensures
        line_rows(s, i, e, w) == line_rows(t, i, e, w),
{
    let line = s.subrange(i, e);
    assert(line =~= t.subrange(i, e));
    let ranges = wrapped(line, w);
    lemma_wrapped(line, w);
    let (x, y) = (line_rows(s, i, e, w), line_rows(t, i, e, w));
    assert forall|k: int| 0 <= k < x.len() implies #[trigger] x[k] == y[k] by {
        let (a, b) = ranges[k];
        assert(s.subrange(i + a, i + b) =~= t.subrange(i + a, i + b));
    }
    assert(x =~= y);
}

proof fn lemma_feed_adds_a_row(s: Seq<char>, i: int, w: nat)
    requires
        0 <= i <= s.len(),
    ensures
        box_from(s.push('\n'), i, w) == box_from(s, i, w).push(
            BoxRow { start: s.len() as int + 1, text: Seq::empty() },
        ),
    decreases s.len() - i,
{
    let t = s.push('\n');
    text::lemma_line_end(s, i);
    lemma_feed_behind_ends_a_line(s, i);
    let e = text::line_end(s, i);
    lemma_same_line_rows(s, t, i, e, w);
    let last = BoxRow { start: s.len() as int + 1, text: Seq::empty() };
    if e < s.len() {
        lemma_feed_adds_a_row(s, e + 1, w);
        assert(box_from(t, i, w) =~= box_from(s, i, w).push(last));
    } else {
        let n = t.len() as int;
        text::lemma_line_end(t, n);
        assert(t.subrange(n, n) =~= Seq::empty());
        assert(line_rows(t, n, n, w) =~= seq![last]);
        assert(box_from(t, n, w) =~= seq![last]);
        assert(box_from(t, i, w) =~= box_from(s, i, w).push(last));
    }
}

/// A line feed at the end of the input opens one more row, an empty one, and leaves all other rows as
/// they are; the box of an empty input has one row.
pub proof fn law_a_line_feed_opens_a_row(input: Seq<char>, w: nat)
    ensures
        ({
            let (before, after) = (box_from(input, 0, w), box_from(input.push('\n'), 0, w));
            &&& after.len() == before.len() + 1
            &&& after.drop_last() == before
            &&& after.last().text.len() == 0
            &&& box_from(Seq::empty(), 0, w).len() == 1
        }),
{
    lemma_feed_adds_a_row(input, 0, w);
    let after = box_from(input.push('\n'), 0, w);
    assert(after.drop_last() =~= box_from(input, 0, w));
}

} // verus!
