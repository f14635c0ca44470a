//! What the mouse does to the session while browsing: clicking files, blocks and the Send button,
//! dragging over blocks and the divider, and turning the wheel.
use crate::app::{App, AppView, Focus, Mode};
use crate::docview;
use crate::geometry;
use crate::geometry::{
    Panes, Rect, contains, doc_at, doc_half, file_at, inner_rect, on_divider, panes,
};
use crate::keys::Request;
use crate::markdown;
use crate::markdown::RenderRow;
use crate::model;
use crate::pane::DocView;
use crate::rows::layout_rows;
use crate::ui;
use crate::ui::{on_send_button, row_heights_at};
use vstd::prelude::*;

verus! {

/// What the mouse did.
#[derive(Clone, Copy, Debug, PartialEq, Eq, Structural)]
pub enum Gesture {
    /// The left button went down.
    Press,
    /// The mouse moved with the left button down.
    Drag,
    WheelUp,
    WheelDown,
}

/// How many rows a turn of the wheel scrolls.
pub const WHEEL_ROWS: usize = 3;

/// Where things stand on the screen.
pub struct Spots {
    pub header: Rect,
    pub body: Rect,
    pub files: Rect,
    pub doc_a: Rect,
    pub doc_b: Rect,
}

impl Spots {
    /// Whether these are the spots of a frame of `area`.
    pub open spec fn of(self, area: Rect, list_pct: u16, split: bool) -> bool {
        exists|p: Panes| #[trigger]
            p.of(area, list_pct) && self.header == p.header && self.body == p.body && self.files
                == p.files && geometry::doc_part(self.doc_a, p.doc, split, 0)
                && geometry::doc_part(self.doc_b, p.doc, split, 1)
    }
}

/// The spots of a frame of `area`.
pub fn spots(area: Rect, list_pct: u16, split: bool) -> (r: Spots)
    requires
        list_pct <= 100,
    ensures
        r.of(area, list_pct, split),
{
    let p: Panes = panes(area, list_pct);
    let doc_a: Rect = doc_half(p.doc, split, 0);
    let doc_b: Rect = doc_half(p.doc, split, 1);
    assert(p.of(area, list_pct));
    Spots { header: p.header, body: p.body, files: p.files, doc_a, doc_b }
}

/// The percentage of the width of `body` that the file list takes with its divider at `col`,
/// between a tenth and nine tenths.
pub open spec fn pct_at(body: Rect, col: u16) -> u16 {
    let right = body.x + body.width;
    if col >= right {
        10
    } else if col <= body.x {
        90
    } else {
        let pct = (right - col) * 100 / body.width as int;
        if pct < 10 {
            10
        } else if pct > 90 {
            90
        } else {
            pct as u16
        }
    }
}

/// The top row of a list of `n` rows after a turn of the wheel.
pub open spec fn wheeled(top: int, n: nat, down: bool) -> int {
    if !down {
        if top > WHEEL_ROWS {
            top - WHEEL_ROWS
        } else {
            0
        }
    } else if n == 0 {
        0
    } else if top + WHEEL_ROWS < n {
        top + WHEEL_ROWS
    } else {
        n - 1
    }
}

impl AppView {
    /// The block of `pane` that a click at `(col, row)` lands on, where the pane is painted in
    /// `rect`.
    pub open spec fn block_under(self, pane: int, rect: Rect, col: u16, row: u16) -> Option<int> {
        let p = self.paint(pane, geometry::bordered_inside(rect).width as usize, true);
        match geometry::doc_hit(
            rect,
            col,
            row,
            p.heights().map_values(|h: nat| h as usize),
            self.docs[pane].scroll as usize,
        ) {
            Some(i) => Some(p.rows[i as int].block),
            None => None,
        }
    }

    /// The doc pane and its block that a click at `(col, row)` lands on.
    pub open spec fn target(self, spots: Spots, col: u16, row: u16) -> Option<(int, int)> {
        match self.block_under(0, spots.doc_a, col, row) {
            Some(b) => Some((0, b)),
            None => if self.split {
                match self.block_under(1, spots.doc_b, col, row) {
                    Some(b) => Some((1, b)),
                    None => None,
                }
            } else {
                None
            },
        }
    }

    /// The session after the button went down at `(col, row)`: on the Send button it asks to send,
    /// on the divider a drag of the divider begins, on a file that file is opened, and on a block
    /// the cursor goes there and the selection is cleared.
    pub open spec fn pressed(self, spots: Spots, col: u16, row: u16) -> (AppView, Option<Request>) {
        let calm = AppView { resizing: false, ..self };
        let inner = geometry::bordered_inside(spots.files);
        let (n, top) = (self.files.len() as usize, self.file_scroll as usize);
        if ui::send_hit(model::sendable_of(self.comments).len(), spots.header, col, row) {
            (calm, Some(Request::Send))
        } else if geometry::divider_hit(spots.body, spots.files, col, row) {
            (AppView { resizing: true, ..self }, None)
        } else {
            match geometry::list_hit(inner, col, row, n, top) {
                Some(i) => (
                    AppView { file_cursor: i as int, focus: Focus::List, ..calm },
                    Some(Request::Open(i)),
                ),
                None => match self.target(spots, col, row) {
                    Some((pane, b)) => {
                        let d = DocView { cursor_block: b, sel_anchor: None, ..self.docs[pane] };
                        let focus = if pane == 0 {
                            Focus::DocA
                        } else {
                            Focus::DocB
                        };
                        ((AppView { focus, ..calm }).with_doc(pane, d), None)
                    },
                    None => (calm, None),
                },
            }
        }
    }

    /// The session after the mouse was dragged to `(col, row)`: the divider follows it where it is
    /// being dragged, else the selection of the focused doc pane reaches to the block there.
    pub open spec fn dragged(self, spots: Spots, col: u16, row: u16) -> AppView {
        if self.resizing {
            AppView { list_pct: pct_at(spots.body, col), ..self }
        } else {
            match self.target(spots, col, row) {
                Some((pane, b)) => if self.focus != Focus::List && pane == self.focus_pane() {
                    let d = self.docs[pane];
                    let from = if d.sel_anchor is Some {
                        d.sel_anchor
                    } else {
                        Some(d.cursor_block as usize)
                    };
                    self.with_doc(pane, DocView { cursor_block: b, sel_anchor: from, ..d })
                } else {
                    self
                },
                None => self,
            }
        }
    }

    /// `pane` after a turn of the wheel, where it is painted in `rect`.
    pub open spec fn doc_wheeled(self, pane: int, rect: Rect, down: bool) -> AppView {
        let d = self.docs[pane];
        let p = self.paint(pane, geometry::bordered_inside(rect).width as usize, true);
        self.with_doc(pane, DocView { scroll: wheeled(d.scroll, p.rows.len(), down), ..d })
    }

    /// The session after a turn of the wheel at `(col, row)`: what is under the mouse scrolls.
    pub open spec fn turned(self, spots: Spots, col: u16, row: u16, down: bool) -> AppView {
        if geometry::inside(spots.files, col, row) {
            AppView { file_scroll: wheeled(self.file_scroll, self.files.len(), down), ..self }
        } else if geometry::inside(spots.doc_a, col, row) {
            self.doc_wheeled(0, spots.doc_a, down)
        } else if self.split && geometry::inside(spots.doc_b, col, row) {
            self.doc_wheeled(1, spots.doc_b, down)
        } else {
            self
        }
    }

    /// What a gesture at `(col, row)` does. Only a session that is being browsed takes it: an open
    /// comment box has no place to click, and the comments list covers what is below it.
    pub open spec fn pointed(self, gesture: Gesture, spots: Spots, col: u16, row: u16) -> (
        AppView,
        Option<Request>,
    ) {
        if self.mode is Browse {
            match gesture {
                Gesture::Press => self.pressed(spots, col, row),
                Gesture::Drag => (self.dragged(spots, col, row), None),
                Gesture::WheelUp => (self.turned(spots, col, row, false), None),
                Gesture::WheelDown => (self.turned(spots, col, row, true), None),
            }
        } else {
            (self, None)
        }
    }
}

proof fn lemma_row_at_in_range(heights: Seq<usize>, from: int, target: int)
    requires
        heights.len() <= usize::MAX,
    ensures
        geometry::row_at(heights, from, target) matches Some(i) ==> i < heights.len(),
    decreases heights.len() - from,
{
    if 0 <= from < heights.len() && target >= heights[from] {
        lemma_row_at_in_range(heights, from + 1, target - heights[from]);
    }
}

fn pct_of(body: Rect, col: u16) -> (r: u16)
    ensures
        r == pct_at(body, col),
        r <= 100,
{
    let right: u32 = body.x as u32 + body.width as u32;
    if col as u32 >= right {
        10
    } else if col <= body.x {
        90
    } else {
        let pct: u32 = (right - col as u32) * 100 / body.width as u32;
        if pct < 10 {
            10
        } else if pct > 90 {
            90
        } else {
            pct as u16
        }
    }
}

fn top_after(top: usize, n: usize, down: bool) -> (r: usize)
    ensures
        r == wheeled(top as int, n as nat, down),
{
    if !down {
        top.saturating_sub(WHEEL_ROWS)
    } else if n == 0 {
        0
    } else if top < n && WHEEL_ROWS < n - top {
        top + WHEEL_ROWS
    } else {
        n - 1
    }
}

impl App {
    /// The block of `pane` that a click at `(col, row)` lands on, where the pane is painted in
    /// `rect`.
    fn find_block(&self, pane: usize, rect: Rect, col: u16, row: u16) -> (r: Option<usize>)
        requires
            self@.docs.len() == 2,
            pane < 2,
        ensures
            match r {
                Some(b) => self@.block_under(pane as int, rect, col, row) == Some(b as int),
                None => self@.block_under(pane as int, rect, col, row) is None,
            },
    {
        let width: usize = inner_rect(rect).width as usize;
        let ghost p = self@.paint(pane as int, width, true);
        let heights: Vec<usize> = row_heights_at(self, pane, width);
        assert(self@.docs[pane as int] == self.docs@[pane as int]@);
        let laid: Vec<RenderRow> = layout_rows(&self.docs[pane].doc, width, self.wrap);
        proof {
            let narrow = p.heights().map_values(|h: nat| h as usize);
            let wide = heights@.map_values(|h: usize| h as nat);
            assert(wide.len() == heights@.len());
            assert forall|k: int| 0 <= k < heights@.len() implies #[trigger] narrow[k]
                == heights@[k] by {
                assert(wide[k] == p.heights()[k]);
            }
            assert(narrow =~= heights@);
            assert(markdown::rows_view(laid@).len() == laid@.len());
            assert(p.rows == markdown::rows_view(laid@));
            let inner = geometry::bordered_inside(rect);
            let scroll = self.docs@[pane as int].scroll as int;
            lemma_row_at_in_range(heights@, scroll, row - inner.y);
        }
        match doc_at(rect, col, row, heights.as_slice(), self.docs[pane].scroll) {
            Some(i) => {
                assert(p.rows[i as int] == laid@[i as int]@);
                Some(laid[i].block)
            },
            None => None,
        }
    }

    fn find_target(&self, spots: &Spots, col: u16, row: u16) -> (r: Option<(usize, usize)>)
        requires
            self@.docs.len() == 2,
        ensures
            match r {
                Some((pane, b)) => pane < 2 && self@.target(*spots, col, row) == Some(
                    (pane as int, b as int),
                ),
                None => self@.target(*spots, col, row) is None,
            },
    {
        if let Some(b) = self.find_block(0, spots.doc_a, col, row) {
            return Some((0, b));
        }
        if self.split {
            if let Some(b) = self.find_block(1, spots.doc_b, col, row) {
                return Some((1, b));
            }
        }
        None
    }

    fn press_at(&mut self, spots: &Spots, col: u16, row: u16) -> (r: Option<Request>)
        requires
            old(self)@.wf(),
        ensures
            (final(self)@, r) == old(self)@.pressed(*spots, col, row),
            final(self)@.wf(),
    {
        let ghost view = self@;
        self.resizing = false;
        assert(self@ == (AppView { resizing: false, ..view }));
        assert(self@.files.len() == self.files@.len());
        if on_send_button(self, spots.header, col, row) {
            return Some(Request::Send);
        }
        if on_divider(spots.body, spots.files, col, row) {
            self.resizing = true;
            return None;
        }
        if let Some(i) = file_at(spots.files, col, row, self.files.len(), self.file_scroll) {
            self.file_cursor = i;
            self.focus = Focus::List;
            return Some(Request::Open(i));
        }
        proof {
            lemma_target_ignores_resizing(view, *spots, col, row);
        }
        if let Some((pane, b)) = self.find_target(spots, col, row) {
            self.focus = if pane == 0 {
                Focus::DocA
            } else {
                Focus::DocB
            };
            self.docs[pane].cursor_block = b;
            self.docs[pane].sel_anchor = None;
        }
        assert(self@ =~= view.pressed(*spots, col, row).0);
        None
    }

    fn drag_to(&mut self, spots: &Spots, col: u16, row: u16)
        requires
            old(self)@.wf(),
        ensures
            final(self)@ == old(self)@.dragged(*spots, col, row),
            final(self)@.wf(),
    {
        let ghost view = self@;
        if self.resizing {
            self.list_pct = pct_of(spots.body, col);
            return;
        }
        if let Some((pane, b)) = self.find_target(spots, col, row) {
            if self.focus != Focus::List && pane == self.focus_pane() {
                if self.docs[pane].sel_anchor.is_none() {
                    self.docs[pane].sel_anchor = Some(self.docs[pane].cursor_block);
                }
                self.docs[pane].cursor_block = b;
            }
        }
        assert(self@ =~= view.dragged(*spots, col, row));
    }

    fn turn_doc(&mut self, pane: usize, rect: Rect, down: bool)
        requires
            old(self)@.wf(),
            pane < 2,
        ensures
            final(self)@ == old(self)@.doc_wheeled(pane as int, rect, down),
            final(self)@.wf(),
    {
        let width: usize = inner_rect(rect).width as usize;
        assert(self@.docs[pane as int] == self.docs@[pane as int]@);
        let laid: Vec<RenderRow> = layout_rows(&self.docs[pane].doc, width, self.wrap);
        assert(markdown::rows_view(laid@).len() == laid@.len());
        self.docs[pane].scroll = top_after(self.docs[pane].scroll, laid.len(), down);
        assert(self@ =~= old(self)@.doc_wheeled(pane as int, rect, down));
    }

    fn turn_at(&mut self, spots: &Spots, col: u16, row: u16, down: bool)
        requires
            old(self)@.wf(),
        ensures
            final(self)@ == old(self)@.turned(*spots, col, row, down),
            final(self)@.wf(),
    {
        assert(self@.files.len() == self.files@.len());
        if contains(spots.files, col, row) {
            self.file_scroll = top_after(self.file_scroll, self.files.len(), down);
        } else if contains(spots.doc_a, col, row) {
            self.turn_doc(0, spots.doc_a, down);
        } else if self.split && contains(spots.doc_b, col, row) {
            self.turn_doc(1, spots.doc_b, down);
        }
    }

    /// Handle one gesture of the mouse at `(col, row)` on a screen laid out as `spots`.
    pub fn point(&mut self, gesture: Gesture, spots: &Spots, col: u16, row: u16) -> (r: Option<
        Request,
    >)
        requires
            old(self)@.wf(),
        ensures
            (final(self)@, r) == old(self)@.pointed(gesture, *spots, col, row),
            final(self)@.wf(),
    {
        let browsing: bool = match &self.mode {
            Mode::Browse => true,
            _ => false,
        };
        if !browsing {
            return None;
        }
        match gesture {
            Gesture::Press => self.press_at(spots, col, row),
            Gesture::Drag => {
                self.drag_to(spots, col, row);
                None
            },
            Gesture::WheelUp => {
                self.turn_at(spots, col, row, false);
                None
            },
            Gesture::WheelDown => {
                self.turn_at(spots, col, row, true);
                None
            },
        }
    }

    /// Handle one gesture of the mouse at `(col, row)` in a terminal of `area`.
    pub fn on_mouse(&mut self, gesture: Gesture, col: u16, row: u16, area: Rect) -> (r: Option<
        Request,
    >)
        requires
            old(self)@.wf(),
        ensures
            exists|s: Spots| #[trigger]
                s.of(area, old(self)@.list_pct, old(self)@.split) && (final(self)@, r) == old(
                    self,
                )@.pointed(gesture, s, col, row),
            final(self)@.wf(),
    {
        let s: Spots = spots(area, self.list_pct, self.split);
        let r: Option<Request> = self.point(gesture, &s, col, row);
        assert(s.of(area, old(self)@.list_pct, old(self)@.split));
        r
    }
}

proof fn lemma_target_ignores_resizing(a: AppView, spots: Spots, col: u16, row: u16)
    ensures
        (AppView { resizing: false, ..a }).target(spots, col, row) == a.target(spots, col, row),
{
}

/// No gesture of the mouse removes or changes a comment, or what is being typed.
pub proof fn law_the_mouse_keeps_comments(
    a: AppView,
    gesture: Gesture,
    spots: Spots,
    col: u16,
    row: u16,
)
    ensures
        ({
            let after = a.pointed(gesture, spots, col, row).0;
            &&& after.comments == a.comments
            &&& after.mode == a.mode
            &&& after.input == a.input
            &&& after.caret == a.caret
        }),
{
}

/// Dragging from one block to another selects the blocks between them, both included.
pub proof fn law_dragging_selects_the_blocks_between(
    a: AppView,
    spots: Spots,
    from: (u16, u16),
    to: (u16, u16),
    pane: int,
    b: int,
    c: int,
)
    requires
        a.wf(),
        a.mode is Browse,
        !ui::send_hit(model::sendable_of(a.comments).len(), spots.header, from.0, from.1),
        !geometry::divider_hit(spots.body, spots.files, from.0, from.1),
        geometry::list_hit(
            geometry::bordered_inside(spots.files),
            from.0,
            from.1,
            a.files.len() as usize,
            a.file_scroll as usize,
        ) is None,
        0 <= pane < 2,
        0 <= b <= usize::MAX,
        0 <= c <= usize::MAX,
        a.target(spots, from.0, from.1) == Some((pane, b)),
        a.pointed(Gesture::Press, spots, from.0, from.1).0.target(spots, to.0, to.1) == Some(
            (pane, c),
        ),
    ensures
        ({
            let down = a.pointed(Gesture::Press, spots, from.0, from.1).0;
            let after = down.pointed(Gesture::Drag, spots, to.0, to.1).0;
            after.docs[pane].selection() == if b <= c {
                (b, c)
            } else {
                (c, b)
            }
        }),
{
}

/// A turn of the wheel moves the top row by three, or to the end of the list where there are not as
/// many rows that way; a turn back undoes it where no end was met.
pub proof fn law_the_wheel_scrolls_three_rows(top: int, n: nat)
    requires
        0 <= top < n,
    ensures
        ({
            let (down, up) = (wheeled(top, n, true), wheeled(top, n, false));
            &&& top <= down < n
            &&& down == top + 3 || (down == n - 1 && down < top + 3)
            &&& 0 <= up <= top
            &&& up == top - 3 || (up == 0 && top < 3)
            &&& top + 3 < n ==> wheeled(down, n, false) == top
            &&& top >= 3 ==> wheeled(up, n, true) == top || up + 3 >= n
        }),
{
}

/// The wheel scrolls what is under the mouse and nothing else.
pub proof fn law_the_wheel_scrolls_what_it_is_over(
    a: AppView,
    spots: Spots,
    col: u16,
    row: u16,
    down: bool,
)
    requires
        a.wf(),
    ensures
        ({
            let after = a.turned(spots, col, row, down);
            let over_list = geometry::inside(spots.files, col, row);
            let over_a = geometry::inside(spots.doc_a, col, row);
            let over_b = a.split && geometry::inside(spots.doc_b, col, row);
            &&& after == (AppView { file_scroll: after.file_scroll, docs: after.docs, ..a })
            &&& after.docs.len() == 2
            &&& after.file_scroll != a.file_scroll ==> over_list
            &&& forall|p: int|
                0 <= p < 2 ==> #[trigger] after.docs[p] == (DocView {
                    scroll: after.docs[p].scroll,
                    ..a.docs[p]
                })
            &&& after.docs[0].scroll != a.docs[0].scroll ==> over_a
            &&& after.docs[1].scroll != a.docs[1].scroll ==> over_b
            &&& over_list ==> after.file_scroll == wheeled(a.file_scroll, a.files.len(), down)
        }),
{
}

/// While the divider is dragged the file list takes the part of the width that lies right of the
/// mouse, in whole hundredths and between a tenth and nine tenths.
pub proof fn law_the_divider_follows_the_mouse(body: Rect, col: u16)
    requires
        body.width > 0,
    ensures
        ({
            let pct = pct_at(body, col) as int;
            let right = body.x + body.width - col;
            &&& 10 <= pct <= 90
            &&& pct > 10 && pct < 90 ==> pct * body.width <= right * 100 < (pct + 1) * body.width
            &&& right * 100 < 10 * body.width ==> pct == 10
            &&& right * 100 > 90 * body.width ==> pct == 90
        }),
{
    let right = body.x + body.width - col;
    let w = body.width as int;
    if col < body.x + body.width && col > body.x {
        let q = right * 100 / w;
        vstd::arithmetic::div_mod::lemma_fundamental_div_mod(right * 100, w);
        vstd::arithmetic::div_mod::lemma_mod_bound(right * 100, w);
        assert(q * w == w * q) by (nonlinear_arith);
        assert((q + 1) * w == q * w + w) by (nonlinear_arith);
        if right * 100 < 10 * w {
            assert(q < 10) by (nonlinear_arith)
                requires
                    q * w <= right * 100,
                    right * 100 < 10 * w,
                    w > 0,
            ;
        }
        if right * 100 > 90 * w {
            assert(q >= 90) by (nonlinear_arith)
                requires
                    right * 100 < (q + 1) * w,
                    right * 100 > 90 * w,
                    w > 0,
            ;
        }
    }
}

/// A press does what lies under it: it asks to send on the Send button, starts a drag on the
/// divider, opens the file it is on, or puts the cursor on the block it is on and ends the selection
/// there; comments, texts and the other pane stay.
pub proof fn law_a_press_does_what_lies_under_it(a: AppView, spots: Spots, col: u16, row: u16)
    requires
        a.wf(),
    ensures
        ({
            let (after, request) = a.pressed(spots, col, row);
            let send = ui::send_hit(
                model::sendable_of(a.comments).len(),
                spots.header,
                col,
                row,
            );
            let divider = geometry::divider_hit(spots.body, spots.files, col, row);
            let file = geometry::list_hit(
                geometry::bordered_inside(spots.files),
                col,
                row,
                a.files.len() as usize,
                a.file_scroll as usize,
            );
            &&& after.comments == a.comments && after.files == a.files && after.mode == a.mode
            &&& after.docs.len() == 2
            &&& request == Some(Request::Send) <==> send
            &&& after.resizing <==> !send && divider
            &&& request matches Some(Request::Open(i)) ==> file == Some(i) && after.file_cursor == i
                && after.focus == Focus::List
            &&& !send && !divider && file is Some ==> request == Some(Request::Open(file->0))
            &&& send || divider || file is Some ==> after.docs == a.docs
            &&& !send && !divider && file is None ==> match a.target(spots, col, row) {
                Some((pane, b)) => {
                    let q = 1 - pane;
                    &&& after.docs[pane] == (DocView {
                        cursor_block: b,
                        sel_anchor: None,
                        ..a.docs[pane]
                    })
                    &&& after.docs[q] == a.docs[q]
                    &&& after.focus_pane() == pane && after.focus != Focus::List
                    &&& request is None
                },
                None => after == (AppView { resizing: false, ..a }) && request is None,
            }
        }),
{
}

/// A click lands on a block of the pane that it is in, and on the second pane only while that is
/// shown.
pub proof fn law_clicks_land_in_their_pane(a: AppView, spots: Spots, col: u16, row: u16)
    ensures
        a.target(spots, col, row) matches Some((pane, _)) ==> {
            &&& pane == 0 || pane == 1
            &&& pane == 0 ==> geometry::inside(
                geometry::bordered_inside(spots.doc_a),
                col,
                row,
            )
            &&& pane == 1 ==> a.split && geometry::inside(
                geometry::bordered_inside(spots.doc_b),
                col,
                row,
            )
        },
{
}

/// A click on line `t` of the content of a pane lands on the block whose row is painted there,
/// counted from the first visible row on, or on none where nothing is painted there.
pub proof fn law_clicks_land_on_the_painted_block(
    a: AppView,
    pane: int,
    rect: Rect,
    col: u16,
    t: u16,
)
    requires
        0 <= pane < a.docs.len(),
        0 <= a.docs[pane].scroll <= usize::MAX,
        geometry::inside(
            geometry::bordered_inside(rect),
            col,
            (geometry::bordered_inside(rect).y + t) as u16,
        ),
        geometry::bordered_inside(rect).y + t <= 0xffff,
        ({
            let p = a.paint(pane, geometry::bordered_inside(rect).width as usize, true);
            &&& p.rows.len() <= usize::MAX
            &&& forall|k: int| 0 <= k < p.rows.len() ==> #[trigger] p.heights()[k] <= usize::MAX
        }),
    ensures
        ({
            let inner = geometry::bordered_inside(rect);
            let p = a.paint(pane, inner.width as usize, true);
            let from = a.docs[pane].scroll;
            let n = p.rows.len() as int;
            match a.block_under(pane, rect, col, (inner.y + t) as u16) {
                Some(b) => exists|i: int|
                    {
                        &&& from <= i < n
                        &&& b == (#[trigger] p.rows[i]).block
                        &&& p.display(from, i).len() <= t < p.display(from, i).len()
                            + p.row_lines(i).len()
                    },
                None => t >= p.display(from, n).len(),
            }
        }),
{
    let inner = geometry::bordered_inside(rect);
    let p = a.paint(pane, inner.width as usize, true);
    let from = a.docs[pane].scroll;
    let heights = p.heights().map_values(|h: nat| h as usize);
    let back = heights.map_values(|h: usize| h as nat);
    assert forall|k: int| 0 <= k < p.rows.len() implies #[trigger] back[k] == p.heights()[k] by {
        assert(p.heights()[k] <= usize::MAX);
    }
    assert(back =~= p.heights());
    docview::law_click_lands_on_painted_row(p, heights, from, t as int);
    if let Some(i) = geometry::row_at(heights, from, t as int) {
        assert(p.rows[i as int].block == p.rows[i as int].block);
    }
}

} // verus!
