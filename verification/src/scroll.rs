//! Keeping the cursor of a pane inside its window.
use crate::markdown::{RenderRow, RowView};
use vstd::prelude::*;

verus! {

/// The first row of a list window of `height` rows that starts at `scroll`, moved as little as
/// needed to show row `at`.
pub open spec fn list_window(scroll: int, at: int, height: nat) -> int {
    if at < scroll || height == 0 {
        at
    } else if at >= scroll + height {
        at - height + 1
    } else {
        scroll
    }
}

/// How far up from row `s` a window can start and still show the rows from there to the last
/// one in `left` more display lines, but not above `scroll`.
pub open spec fn reach_up(heights: Seq<usize>, s: int, left: int, scroll: int) -> int
    decreases s,
{
    if s <= scroll || s <= 0 || heights[s - 1] > left {
        s
    } else {
        reach_up(heights, s - 1, left - heights[s - 1], scroll)
    }
}

/// The first document row of a window of `height` display lines that starts at `scroll`, moved
/// as little as needed to show row `at` with its cards.
pub open spec fn doc_window(heights: Seq<usize>, scroll: int, at: int, height: nat) -> int {
    if at < scroll || at >= heights.len() || heights[at] > height {
        at
    } else {
        reach_up(heights, at, height - heights[at], scroll)
    }
}

/// The display lines of the rows `a..b`.
pub open spec fn lines_between(heights: Seq<usize>, a: int, b: int) -> nat
    decreases b - a,
{
    if b <= a {
        0
    } else {
        lines_between(heights, a, b - 1) + heights[b - 1] as nat
    }
}

/// The first row of a list window, moved as little as needed to show row `at`.
pub fn list_scroll(scroll: usize, at: usize, height: usize) -> (r: usize)
    ensures
        r == list_window(scroll as int, at as int, height as nat),
{
    if at < scroll || height == 0 {
        at
    } else if at - scroll >= height {
        at - height + 1
    } else {
        scroll
    }
}

/// The first document row of a window of `height` display lines, moved as little as needed to
/// show row `at`.
pub fn doc_scroll(heights: &Vec<usize>, scroll: usize, at: usize, height: usize) -> (r: usize)
    ensures
        r == doc_window(heights@, scroll as int, at as int, height as nat),
{
    if at < scroll || at >= heights.len() || heights[at] > height {
        return at;
    }
    let mut left: usize = height - heights[at];
    let mut s: usize = at;
    while s > scroll && heights[s - 1] <= left
        invariant
            s <= at < heights@.len(),
            reach_up(heights@, s as int, left as int, scroll as int) == reach_up(
                heights@,
                at as int,
                height - heights@[at as int],
                scroll as int,
            ),
        decreases s,
    {
        left = left - heights[s - 1];
        s -= 1;
    }
    s
}

/// A list window shows the row under the cursor.
pub proof fn law_list_window_shows_the_cursor(scroll: int, at: int, height: nat)
    requires
        0 <= scroll,
        0 <= at,
        0 < height,
    ensures
        list_window(scroll, at, height) <= at < list_window(scroll, at, height) + height,
{
}

proof fn lemma_lines_split(heights: Seq<usize>, a: int, b: int, c: int)
    requires
        a <= b <= c,
    ensures
        lines_between(heights, a, c) == lines_between(heights, a, b) + lines_between(
            heights,
            b,
            c,
        ),
    decreases c - b,
{
    if b < c {
        lemma_lines_split(heights, a, b, c - 1);
    }
}

proof fn lemma_reach_up(heights: Seq<usize>, s: int, left: int, scroll: int)
    requires
        0 <= scroll <= s,
        0 <= left,
    ensures
        scroll <= reach_up(heights, s, left, scroll) <= s,
        lines_between(heights, reach_up(heights, s, left, scroll), s) <= left,
    decreases s,
{
    if s > scroll && heights[s - 1] <= left {
        lemma_reach_up(heights, s - 1, left - heights[s - 1], scroll);
        let r = reach_up(heights, s, left, scroll);
        lemma_lines_split(heights, r, s - 1, s);
        assert(lines_between(heights, s - 1, s) == heights[s - 1]) by {
            reveal_with_fuel(lines_between, 2);
        }
    }
}

/// A doc window shows the row under the cursor with its cards, wherever they fit.
pub proof fn law_doc_window_shows_the_cursor(
    heights: Seq<usize>,
    scroll: int,
    at: int,
    height: nat,
)
    requires
        0 <= scroll,
        0 <= at < heights.len(),
        heights[at] <= height,
    ensures
        0 <= doc_window(heights, scroll, at, height) <= at,
        lines_between(heights, doc_window(heights, scroll, at, height), at + 1) <= height,
{
    let r = doc_window(heights, scroll, at, height);
    if at >= scroll {
        lemma_reach_up(heights, at, height - heights[at], scroll);
    }
    lemma_lines_split(heights, r, at, at + 1);
    assert(lines_between(heights, at, at + 1) == heights[at]) by {
        reveal_with_fuel(lines_between, 2);
    }
    assert(at < scroll ==> lines_between(heights, r, at) == 0);
}

/// The first of `rows[i..]` that belongs to `block`, or the number of rows where none does.
pub open spec fn first_row(rows: Seq<RowView>, block: int, i: int) -> int
    decreases rows.len() - i,
{
    if i >= rows.len() {
        rows.len() as int
    } else if rows[i].block == block {
        i
    } else {
        first_row(rows, block, i + 1)
    }
}

/// The first row of `block`.
pub fn row_of_block(rows: &Vec<RenderRow>, block: usize) -> (r: usize)
    ensures
        r == first_row(crate::markdown::rows_view(rows@), block as int, 0),
{
    let ghost view = crate::markdown::rows_view(rows@);
    let mut i: usize = 0;
    while i < rows.len()
        invariant
            i <= rows@.len(),
            view == crate::markdown::rows_view(rows@),
            first_row(view, block as int, i as int) == first_row(view, block as int, 0),
        decreases rows@.len() - i,
    {
        assert(view[i as int] == rows@[i as int]@);
        if rows[i].block == block {
            return i;
        }
        i += 1;
    }
    i
}

/// A list window moves no further than it must: not at all where it shows the row already, up to the
/// row where that is above it, and down until the row is its last where that is below.
pub proof fn law_list_window_moves_as_little_as_needed(scroll: int, at: int, height: nat)
    requires
        0 <= scroll,
        0 <= at,
        0 < height,
    ensures
        ({
            let to = list_window(scroll, at, height);
            &&& scroll <= at < scroll + height ==> to == scroll
            &&& at < scroll ==> to == at
            &&& at >= scroll + height ==> to + height - 1 == at
        }),
{
}

proof fn lemma_reach_up_stops(heights: Seq<usize>, s: int, left: int, scroll: int)
    requires
        0 <= scroll <= s,
        0 <= left,
    ensures
        ({
            let r = reach_up(heights, s, left, scroll);
            &&& scroll <= r <= s
            &&& r > scroll ==> lines_between(heights, r - 1, s) > left
        }),
    decreases s,
{
    if s > scroll && heights[s - 1] <= left {
        lemma_reach_up_stops(heights, s - 1, left - heights[s - 1], scroll);
        let r = reach_up(heights, s, left, scroll);
        if r > scroll {
            lemma_lines_split(heights, r - 1, s - 1, s);
        }
    } else if s > scroll {
        lemma_lines_split(heights, s - 1, s - 1, s);
    }
    assert(s > scroll ==> lines_between(heights, s - 1, s) == heights[s - 1]) by {
        reveal_with_fuel(lines_between, 2);
    }
}

/// A doc window moves no further than it must: not at all where it shows the row with its cards
/// already, up to the row where that is above it, and otherwise down only until the row and its cards
/// fit.
pub proof fn law_doc_window_moves_as_little_as_needed(
    heights: Seq<usize>,
    scroll: int,
    at: int,
    height: nat,
)
    requires
        0 <= scroll,
        0 <= at < heights.len(),
        heights[at] <= height,
    ensures
        ({
            let to = doc_window(heights, scroll, at, height);
            &&& at < scroll ==> to == at
            &&& at >= scroll ==> scroll <= to <= at
            &&& at >= scroll && lines_between(heights, scroll, at + 1) <= height ==> to == scroll
            &&& to > scroll ==> lines_between(heights, to - 1, at + 1) > height
        }),
{
    if at >= scroll {
        let left = height - heights[at];
        lemma_reach_up_stops(heights, at, left, scroll);
        let to = doc_window(heights, scroll, at, height);
        assert(lines_between(heights, at, at + 1) == heights[at]) by {
            reveal_with_fuel(lines_between, 2);
        }
        if to > scroll {
            lemma_lines_split(heights, to - 1, at, at + 1);
            lemma_lines_split(heights, scroll, to - 1, at + 1);
        }
    }
}

/// Looking up the row of a block gives the first row that belongs to it, and the number of rows only
/// where none does.
pub proof fn law_first_row_is_the_first(rows: Seq<RowView>, block: int, i: int)
    requires
        0 <= i <= rows.len(),
    ensures
        ({
            let r = first_row(rows, block, i);
            &&& i <= r <= rows.len()
            &&& r < rows.len() ==> rows[r].block == block
            &&& forall|k: int| i <= k < r ==> (#[trigger] rows[k]).block != block
        }),
    decreases rows.len() - i,
{
    if i < rows.len() && rows[i].block != block {
        law_first_row_is_the_first(rows, block, i + 1);
    }
}

} // verus!
