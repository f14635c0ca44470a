//! Scrolling the focused doc pane by a page or half a page, with the cursor following.
use crate::app::{App, AppView, Focus, Mode};
use crate::geometry;
use crate::geometry::{Rect, doc_rect, inner_rect};
use crate::markdown;
use crate::markdown::{RenderRow, RowView};
use crate::pane::DocView;
use crate::rows;
use crate::rows::layout_rows;
use crate::ui::row_heights_at;
use vstd::prelude::*;

verus! {

/// How far and which way to scroll.
#[derive(Clone, Copy, Debug, PartialEq, Eq, Structural)]
pub enum Page {
    Up,
    Down,
    HalfUp,
    HalfDown,
}

/// How many rows `page` scrolls in a window of `height` rows, at least one.
pub open spec fn page_rows(page: Page, height: nat) -> nat {
    let n = match page {
        Page::Up | Page::Down => height,
        Page::HalfUp | Page::HalfDown => height / 2,
    };
    if n == 0 {
        1
    } else {
        n
    }
}

/// The top row of a window of `height` rows on `n` rows after `page`.
pub open spec fn page_top(page: Page, top: int, n: nat, height: nat) -> int {
    let k = page_rows(page, height);
    let to = match page {
        Page::Up | Page::HalfUp => if top > k {
            top - k
        } else {
            0
        },
        Page::Down | Page::HalfDown => top + k,
    };
    if to < n {
        to
    } else if n > 0 {
        n - 1
    } else {
        0
    }
}

/// The last row of which a window that shows row `i` in the first of its `left` display lines
/// shows anything.
pub open spec fn last_seen(heights: Seq<nat>, i: int, left: int) -> int
    decreases heights.len() - i,
{
    if i + 1 < heights.len() && heights[i] < left {
        last_seen(heights, i + 1, left - heights[i])
    } else {
        i
    }
}

/// `at` where it lies between `lo` and `hi`, else the nearer of the two.
pub open spec fn nearest(at: int, lo: int, hi: int) -> int {
    if at < lo {
        lo
    } else if at > hi {
        hi
    } else {
        at
    }
}

impl AppView {
    /// The focused doc pane scrolled by `page`, where it shows `height` rows of `width` columns;
    /// the cursor follows to the nearest block in view. Nothing happens with the file list
    /// focused, or while a comment is typed or the comments are listed.
    pub open spec fn paged(self, page: Page, width: usize, height: nat) -> AppView {
        if !(self.mode is Browse) || self.focus == Focus::List {
            self
        } else {
            let pane = self.focus_pane();
            let d = self.docs[pane];
            let laid = rows::laid_rows(d.blocks, width, self.wrap);
            let top = page_top(page, d.scroll, laid.len(), height);
            let end = last_seen(self.heights(pane, width), top, height as int);
            let cursor = if laid.len() == 0 {
                d.cursor_block
            } else {
                nearest(d.cursor_block, laid[top].block, laid[end].block)
            };
            self.with_doc(pane, DocView { scroll: top, cursor_block: cursor, ..d })
        }
    }
}

proof fn lemma_last_seen(heights: Seq<nat>, i: int, left: int)
    requires
        0 <= i < heights.len(),
    ensures
        i <= last_seen(heights, i, left) < heights.len(),
    decreases heights.len() - i,
{
    if i + 1 < heights.len() && heights[i] < left {
        lemma_last_seen(heights, i + 1, left - heights[i]);
    }
}

proof fn lemma_blocks_ascend(laid: Seq<RowView>, i: int, j: int)
    requires
        rows::rows_in_order(laid),
        0 <= i <= j < laid.len(),
    ensures
        laid[i].block <= laid[j].block,
    decreases j - i,
{
    if i < j {
        lemma_blocks_ascend(laid, i, j - 1);
        assert(laid[j - 1].block <= laid[j].block);
    }
}

fn top_of_page(page: Page, top: usize, n: usize, height: usize) -> (r: usize)
    ensures
        r == page_top(page, top as int, n as nat, height as nat),
{
    let whole: usize = match page {
        Page::Up | Page::Down => height,
        Page::HalfUp | Page::HalfDown => height / 2,
    };
    let k: usize = if whole == 0 {
        1
    } else {
        whole
    };
    let to: usize = match page {
        Page::Up | Page::HalfUp => top.saturating_sub(k),
        Page::Down | Page::HalfDown => top.saturating_add(k),
    };
    if to < n {
        to
    } else if n > 0 {
        n - 1
    } else {
        0
    }
}

fn find_last_seen(heights: &Vec<usize>, top: usize, height: usize) -> (r: usize)
    requires
        top < heights@.len(),
    ensures
        r == last_seen(heights@.map_values(|h: usize| h as nat), top as int, height as int),
{
    let ghost view = heights@.map_values(|h: usize| h as nat);
    let mut i: usize = top;
    let mut left: usize = height;
    let n: usize = heights.len();
    while i < n - 1 && heights[i] < left
        invariant
            top <= i < n,
            n == heights@.len(),
            view == heights@.map_values(|h: usize| h as nat),
            last_seen(view, i as int, left as int) == last_seen(view, top as int, height as int),
        decreases heights@.len() - i,
    {
        assert(view[i as int] == heights@[i as int]);
        left = left - heights[i];
        i += 1;
    }
    assert(view[i as int] == heights@[i as int]);
    i
}

impl App {
    /// Scroll the focused doc pane by `page`, where it shows `height` rows of `width` columns.
    pub fn turn_page(&mut self, page: Page, width: usize, height: usize)
        requires
            old(self)@.wf(),
        ensures
            final(self)@ == old(self)@.paged(page, width, height as nat),
            final(self)@.wf(),
    {
        let browsing: bool = match &self.mode {
            Mode::Browse => true,
            _ => false,
        };
        if !browsing || self.focus == Focus::List {
            return;
        }
        let ghost view = self@;
        let pane: usize = self.focus_pane();
        assert(view.docs[pane as int] == self.docs@[pane as int]@);
        let laid: Vec<RenderRow> = layout_rows(&self.docs[pane].doc, width, self.wrap);
        let ghost laid_view = markdown::rows_view(laid@);
        assert(laid_view.len() == laid@.len());
        let scroll: usize = self.docs[pane].scroll;
        let top: usize = top_of_page(page, scroll, laid.len(), height);
        if laid.len() > 0 {
            let heights: Vec<usize> = row_heights_at(self, pane, width);
            proof {
                let seen = heights@.map_values(|h: usize| h as nat);
                assert(seen.len() == heights@.len());
                lemma_last_seen(seen, top as int, height as int);
            }
            let end: usize = find_last_seen(&heights, top, height);
            assert(laid_view[top as int] == laid@[top as int]@);
            assert(laid_view[end as int] == laid@[end as int]@);
            let (lo, hi): (usize, usize) = (laid[top].block, laid[end].block);
            if self.docs[pane].cursor_block < lo {
                self.docs[pane].cursor_block = lo;
            } else if self.docs[pane].cursor_block > hi {
                self.docs[pane].cursor_block = hi;
            }
        }
        self.docs[pane].scroll = top;
        assert(self@ =~= view.paged(page, width, height as nat));
    }

    /// Scroll the focused doc pane by `page` in a terminal of `area`.
    pub fn on_page(&mut self, page: Page, area: Rect)
        requires
            old(self)@.wf(),
        ensures
            exists|d: Rect| #[trigger]
                geometry::doc_pane_of(
                    d,
                    area,
                    old(self)@.list_pct,
                    old(self)@.split,
                    old(self)@.focus_pane() as usize,
                ) && final(self)@ == old(self)@.paged(
                    page,
                    geometry::bordered_inside(d).width as usize,
                    geometry::bordered_inside(d).height as nat,
                ),
            final(self)@.wf(),
    {
        let pane: usize = self.focus_pane();
        let d: Rect = doc_rect(area, self.list_pct, self.split, pane);
        let inner: Rect = inner_rect(d);
        self.turn_page(page, inner.width as usize, inner.height as usize);
        assert(geometry::doc_pane_of(
            d,
            area,
            old(self)@.list_pct,
            old(self)@.split,
            old(self)@.focus_pane() as usize,
        ));
    }
}

/// Scrolling by a page leaves the cursor on a block between the first and the last one in view,
/// and where the cursor already was in view it does not move.
pub proof fn law_paging_keeps_the_cursor_in_view(
    a: AppView,
    page: Page,
    width: usize,
    height: nat,
)
    requires
        a.wf(),
        a.mode is Browse,
        a.focus != Focus::List,
        0 <= a.docs[a.focus_pane()].scroll,
        rows::laid_rows(a.docs[a.focus_pane()].blocks, width, a.wrap).len() > 0,
    ensures
        ({
            let pane = a.focus_pane();
            let (d, after) = (a.docs[pane], a.paged(page, width, height).docs[pane]);
            let laid = rows::laid_rows(d.blocks, width, a.wrap);
            let top = after.scroll;
            let end = last_seen(a.heights(pane, width), top, height as int);
            let (lo, hi) = (laid[top].block, laid[end].block);
            &&& 0 <= top <= end < laid.len()
            &&& lo <= after.cursor_block <= hi
            &&& lo <= d.cursor_block <= hi ==> after.cursor_block == d.cursor_block
        }),
{
    let pane = a.focus_pane();
    let d = a.docs[pane];
    let laid = rows::laid_rows(d.blocks, width, a.wrap);
    let top = page_top(page, d.scroll, laid.len(), height);
    lemma_last_seen(a.heights(pane, width), top, height as int);
    rows::law_rows_follow_blocks(d.blocks, width, a.wrap);
    let end = last_seen(a.heights(pane, width), top, height as int);
    lemma_blocks_ascend(laid, top, end);
}

/// A page moves the first visible row by the height of the window, half a page by half of it, at
/// least by one, and never past the ends of the document.
pub proof fn law_pages_move_by_their_size(page: Page, top: int, n: nat, height: nat)
    requires
        0 <= top < n,
    ensures
        ({
            let to = page_top(page, top, n, height);
            let whole = page == Page::Up || page == Page::Down;
            let down = page == Page::Down || page == Page::HalfDown;
            let size = if whole {
                height as int
            } else {
                height as int / 2
            };
            let step = if size < 1 {
                1
            } else {
                size
            };
            &&& 0 <= to < n
            &&& down ==> to == top + step || (to == n - 1 && to < top + step)
            &&& !down ==> to == top - step || (to == 0 && top < step)
        }),
{
}

/// Paging scrolls the focused pane and moves its cursor, and nothing else; it does nothing outside
/// of a doc pane that is being browsed.
pub proof fn law_paging_touches_the_focused_pane_only(
    a: AppView,
    page: Page,
    width: usize,
    height: nat,
)
    requires
        a.wf(),
    ensures
        ({
            let after = a.paged(page, width, height);
            let pane = a.focus_pane();
            &&& after == (AppView { docs: after.docs, ..a })
            &&& after.docs.len() == 2
            &&& after.docs[1 - pane] == a.docs[1 - pane]
            &&& after.docs[pane] == (DocView {
                scroll: after.docs[pane].scroll,
                cursor_block: after.docs[pane].cursor_block,
                ..a.docs[pane]
            })
            &&& !(a.mode is Browse) || a.focus == Focus::List ==> after == a
            &&& a.mode is Browse && a.focus != Focus::List ==> after.docs[pane].scroll == page_top(
                page,
                a.docs[pane].scroll,
                rows::laid_rows(a.docs[pane].blocks, width, a.wrap).len(),
                height,
            )
        }),
{
}

/// The display lines of the rows `a..b`.
pub open spec fn lines_in(heights: Seq<nat>, a: int, b: int) -> int
    decreases b - a,
{
    if b <= a {
        0
    } else {
        lines_in(heights, a, b - 1) + heights[b - 1]
    }
}

proof fn lemma_lines_from_front(heights: Seq<nat>, a: int, b: int)
    requires
        a < b,
    ensures
        lines_in(heights, a, b) == heights[a] + lines_in(heights, a + 1, b),
    decreases b - a,
{
    if a + 1 < b {
        lemma_lines_from_front(heights, a, b - 1);
    } else {
        reveal_with_fuel(lines_in, 2);
    }
}

/// The last row in view is the last one whose first line is still inside the window: the rows above
/// it leave a line free, and it is the last row of all or fills the window to its end.
pub proof fn law_last_row_in_view(heights: Seq<nat>, top: int, height: int)
    requires
        0 <= top < heights.len(),
        0 < height,
    ensures
        ({
            let end = last_seen(heights, top, height);
            &&& top <= end < heights.len()
            &&& lines_in(heights, top, end) < height
            &&& end + 1 == heights.len() || lines_in(heights, top, end + 1) >= height
        }),
    decreases heights.len() - top,
{
    if top + 1 < heights.len() && heights[top] < height {
        law_last_row_in_view(heights, top + 1, height - heights[top]);
        let end = last_seen(heights, top, height);
        lemma_lines_from_front(heights, top, end);
        lemma_lines_from_front(heights, top, end + 1);
    } else {
        reveal_with_fuel(lines_in, 2);
    }
}

/// The cursor follows a page no further than it must: to the first block in view where it was above,
/// to the last where it was below.
pub proof fn law_the_cursor_follows_no_further_than_needed(
    a: AppView,
    page: Page,
    width: usize,
    height: nat,
)
    requires
        a.wf(),
        a.mode is Browse,
        a.focus != Focus::List,
        0 <= a.docs[a.focus_pane()].scroll,
        rows::laid_rows(a.docs[a.focus_pane()].blocks, width, a.wrap).len() > 0,
    ensures
        ({
            let pane = a.focus_pane();
            let (d, after) = (a.docs[pane], a.paged(page, width, height).docs[pane]);
            let laid = rows::laid_rows(d.blocks, width, a.wrap);
            let top = after.scroll;
            let end = last_seen(a.heights(pane, width), top, height as int);
            &&& d.cursor_block < laid[top].block ==> after.cursor_block == laid[top].block
            &&& d.cursor_block > laid[end].block ==> after.cursor_block == laid[end].block
        }),
{
    let pane = a.focus_pane();
    let d = a.docs[pane];
    let laid = rows::laid_rows(d.blocks, width, a.wrap);
    let top = page_top(page, d.scroll, laid.len(), height);
    lemma_last_seen(a.heights(pane, width), top, height as int);
    rows::law_rows_follow_blocks(d.blocks, width, a.wrap);
    lemma_blocks_ascend(
        laid,
        top,
        last_seen(a.heights(pane, width), top, height as int),
    );
}

} // verus!
