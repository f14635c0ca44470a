//! Where the bands and panes of a frame lie, and what a click lands on.
//!
//! The layout engine settles conflicting sizes in no fixed way, so of a computed layout only
//! what holds of each outcome is stated. What follows from given rects is stated exactly.
use ratatui::layout::{Constraint, Direction, Layout};
use vstd::prelude::*;

verus! {

/// A rectangle of terminal cells.
#[derive(Clone, Copy, Debug, PartialEq, Eq, Structural)]
pub struct Rect {
    pub x: u16,
    pub y: u16,
    pub width: u16,
    pub height: u16,
}

/// The axis along which an area is divided.
#[derive(Clone, Copy, Debug, PartialEq, Eq, Structural)]
pub enum Axis {
    Horizontal,
    Vertical,
}

/// The size asked for one part of a divided area.
#[derive(Clone, Copy, Debug, PartialEq, Eq, Structural)]
pub enum Part {
    Length(u16),
    Min(u16),
    Percentage(u16),
}

/// `a + b`, or the greatest 16-bit number where that is less.
pub open spec fn sum16(a: u16, b: u16) -> u16 {
    if a + b <= 0xffff {
        (a + b) as u16
    } else {
        0xffff
    }
}

/// `a - b`, or zero where `b` is greater.
pub open spec fn difference16(a: u16, b: u16) -> u16 {
    if a >= b {
        (a - b) as u16
    } else {
        0
    }
}

/// Whether `r` is a part of `area` divided along `axis`: it spans the area across the axis and
/// lies inside it along the axis.
pub open spec fn part_of(r: Rect, axis: Axis, area: Rect) -> bool {
    match axis {
        Axis::Horizontal => {
            &&& r.y == area.y
            &&& r.height == area.height
            &&& area.x <= r.x
            &&& r.x + r.width <= sum16(area.x, area.width)
        },
        Axis::Vertical => {
            &&& r.x == area.x
            &&& r.width == area.width
            &&& area.y <= r.y
            &&& r.y + r.height <= sum16(area.y, area.height)
        },
    }
}

/// Whether dividing `area` along `axis` into `parts` can give `rects`.
pub uninterp spec fn split_outcome(
    axis: Axis,
    parts: Seq<Part>,
    area: Rect,
    rects: Seq<Rect>,
) -> bool;

/// Whether `rects` are `area` divided along `axis` into `parts`: an outcome of the layout
/// engine, with one rect for each part, inside the area.
pub open spec fn divided(axis: Axis, parts: Seq<Part>, area: Rect, rects: Seq<Rect>) -> bool {
    &&& split_outcome(axis, parts, area, rects)
    &&& rects.len() == parts.len()
    &&& forall|i: int| 0 <= i < rects.len() ==> part_of(#[trigger] rects[i], axis, area)
}

/// `ratatui::layout::Layout::split` on a layout of `parts` along `axis`.
///
/// One rect comes back for each part. Each spans `area` across the axis, and the solver holds
/// both of its ends inside `area` along the axis. Which sizes conflicting parts get, and how
/// much of the area they cover, is left open: two calls on the same arguments can differ, so
/// the result is only one of the outcomes that `split_outcome` admits.
#[verifier::external_body]
pub(crate) fn split_area(axis: Axis, parts: &Vec<Part>, area: Rect) -> (r: Vec<Rect>)
    ensures
        split_outcome(axis, parts@, area, r@),
        r@.len() == parts@.len(),
        forall|i: int| 0 <= i < r@.len() ==> part_of(#[trigger] r@[i], axis, area),
{
    let direction = match axis {
        Axis::Horizontal => Direction::Horizontal,
        Axis::Vertical => Direction::Vertical,
    };
    let Rect { x, y, width, height } = area;
    Layout::new(direction, parts.iter().map(|p| match *p {
        Part::Length(n) => Constraint::Length(n),
        Part::Min(n) => Constraint::Min(n),
        Part::Percentage(n) => Constraint::Percentage(n),
    })).split(ratatui::layout::Rect { x, y, width, height }).iter().map(
        |r| Rect { x: r.x, y: r.y, width: r.width, height: r.height }
    ).collect()
}

/// The three bands of a frame, from top to bottom: header, body, footer. The comment input is
/// inline in the doc pane, not a band of its own.
pub struct Bands {
    pub header: Rect,
    pub body: Rect,
    pub footer: Rect,
}

impl Bands {
    /// Whether these are the bands of a frame of `area`: a header and a footer of one row each
    /// around a body of three rows or more.
    pub open spec fn of(self, area: Rect) -> bool {
        divided(
            Axis::Vertical,
            seq![Part::Length(1), Part::Min(3), Part::Length(1)],
            area,
            seq![self.header, self.body, self.footer],
        )
    }
}

/// The vertical bands: a one-row header, the body, and a one-row footer action bar, which fits
/// by dropping the least-relevant actions, not by wrapping.
pub fn vrows(area: Rect) -> (r: Bands)
    ensures
        r.of(area),
{
    let parts: Vec<Part> = vec![Part::Length(1), Part::Min(3), Part::Length(1)];
    let rows: Vec<Rect> = split_area(Axis::Vertical, &parts, area);
    assert(parts@ =~= seq![Part::Length(1), Part::Min(3), Part::Length(1)]);
    assert(rows@ =~= seq![rows@[0], rows@[1], rows@[2]]);
    Bands { header: rows[0], body: rows[1], footer: rows[2] }
}

/// The frame's layout rects: the doc pane, the file pane, and the bands. One place computes the
/// vertical bands and the horizontal split, so a layout change cannot desync hit-testing from
/// paint.
pub struct Panes {
    pub header: Rect,
    pub doc: Rect,
    pub files: Rect,
    pub body: Rect,
    pub footer: Rect,
}

impl Panes {
    /// Whether these are the panes of a frame of `area` whose file list takes `list_pct`
    /// percent of the width.
    pub open spec fn of(self, area: Rect, list_pct: u16) -> bool {
        &&& (Bands { header: self.header, body: self.body, footer: self.footer }).of(area)
        &&& divided(
            Axis::Horizontal,
            seq![Part::Percentage((100 - list_pct) as u16), Part::Percentage(list_pct)],
            self.body,
            seq![self.doc, self.files],
        )
    }
}

/// The panes of a frame whose file list takes `list_pct` percent of the width.
pub fn panes(area: Rect, list_pct: u16) -> (r: Panes)
    requires
        list_pct <= 100,
    ensures
        r.of(area, list_pct),
{
    let rows: Bands = vrows(area);
    let doc_pct: u16 = 100 - list_pct;
    let parts: Vec<Part> = vec![Part::Percentage(doc_pct), Part::Percentage(list_pct)];
    let split: Vec<Rect> = split_area(Axis::Horizontal, &parts, rows.body);
    assert(parts@ =~= seq![Part::Percentage(doc_pct), Part::Percentage(list_pct)]);
    assert(split@ =~= seq![split@[0], split@[1]]);
    Panes {
        header: rows.header,
        doc: split[0],
        files: split[1],
        body: rows.body,
        footer: rows.footer,
    }
}

/// The parts of an area cut in half.
pub open spec fn halving() -> Seq<Part> {
    seq![Part::Percentage(50), Part::Percentage(50)]
}

/// Whether `r` is the rect of doc pane `pane` in the doc region `doc`: the whole region when
/// not split, else its left (`pane == 0`) or right half.
pub open spec fn doc_part(r: Rect, doc: Rect, split: bool, pane: usize) -> bool {
    if split {
        exists|halves: Seq<Rect>| #[trigger]
            divided(Axis::Horizontal, halving(), doc, halves) && r == halves[if pane == 0 {
                0
            } else {
                1
            }]
    } else {
        r == doc
    }
}

/// The `pane`'s rect in the doc region `doc`.
pub fn doc_half(doc: Rect, split: bool, pane: usize) -> (r: Rect)
    ensures
        doc_part(r, doc, split, pane),
{
    if !split {
        return doc;
    }
    let parts: Vec<Part> = vec![Part::Percentage(50), Part::Percentage(50)];
    let halves: Vec<Rect> = split_area(Axis::Horizontal, &parts, doc);
    assert(parts@ =~= halving());
    assert(divided(Axis::Horizontal, halving(), doc, halves@));
    if pane == 0 {
        halves[0]
    } else {
        halves[1]
    }
}

/// Whether `r` is the rect of doc pane `pane` in a frame of `area`.
pub open spec fn doc_pane_of(
    r: Rect,
    area: Rect,
    list_pct: u16,
    split: bool,
    pane: usize,
) -> bool {
    exists|p: Panes| #[trigger] p.of(area, list_pct) && doc_part(r, p.doc, split, pane)
}

/// The `pane`'s doc rect. One place computes the split, so paint and every geometry helper
/// below agree on where each pane's content lives.
pub fn doc_rect(area: Rect, list_pct: u16, split: bool, pane: usize) -> (r: Rect)
    requires
        list_pct <= 100,
    ensures
        doc_pane_of(r, area, list_pct, split, pane),
{
    let p: Panes = panes(area, list_pct);
    let r: Rect = doc_half(p.doc, split, pane);
    assert(p.of(area, list_pct) && doc_part(r, p.doc, split, pane));
    r
}

/// The whole body band (between the header and footer), for divider hit-testing.
pub fn body_rect(area: Rect) -> (r: Rect)
    ensures
        exists|b: Bands| #[trigger] b.of(area) && r == b.body,
{
    let b: Bands = vrows(area);
    assert(b.of(area));
    b.body
}

/// Whether `(col, row)` falls inside `rect`.
pub open spec fn inside(rect: Rect, col: u16, row: u16) -> bool {
    &&& rect.x <= col < sum16(rect.x, rect.width)
    &&& rect.y <= row < sum16(rect.y, rect.height)
}

/// Whether `(col, row)` falls inside `rect`.
pub fn contains(rect: Rect, col: u16, row: u16) -> (r: bool)
    ensures
        r == inside(rect, col, row),
{
    col >= rect.x && col < rect.x.saturating_add(rect.width) && row >= rect.y && row
        < rect.y.saturating_add(rect.height)
}

/// The content area inside a one-cell border.
pub open spec fn bordered_inside(outer: Rect) -> Rect {
    Rect {
        x: sum16(outer.x, 1),
        y: sum16(outer.y, 1),
        width: difference16(outer.width, 2),
        height: difference16(outer.height, 2),
    }
}

/// The content area inside a one-cell border.
pub fn inner_rect(outer: Rect) -> (r: Rect)
    ensures
        r == bordered_inside(outer),
{
    Rect {
        x: outer.x.saturating_add(1),
        y: outer.y.saturating_add(1),
        width: outer.width.saturating_sub(2),
        height: outer.height.saturating_sub(2),
    }
}

/// Whether `(col, row)` lies in the body and within one column of the file pane's left border:
/// a 3-column grab zone straddling the abutting pane borders.
pub open spec fn divider_hit(body: Rect, files: Rect, col: u16, row: u16) -> bool {
    &&& body.y <= row < body.y + body.height
    &&& files.x - 1 <= col <= files.x + 1
}

/// Whether `(col, row)` lands on the divider in front of `files`.
pub fn on_divider(body: Rect, files: Rect, col: u16, row: u16) -> (r: bool)
    ensures
        r == divider_hit(body, files, col, row),
{
    let in_body: bool = row >= body.y && (row as u32) < body.y as u32 + body.height as u32;
    in_body && col as u32 + 1 >= files.x as u32 && (col as u32) <= files.x as u32 + 1
}

/// Whether `(col, row)` lands on the draggable divider between the two panes.
pub fn hit_divider(area: Rect, list_pct: u16, col: u16, row: u16) -> (r: bool)
    requires
        list_pct <= 100,
    ensures
        exists|p: Panes| #[trigger]
            p.of(area, list_pct) && r == divider_hit(p.body, p.files, col, row),
{
    let p: Panes = panes(area, list_pct);
    let r: bool = on_divider(p.body, p.files, col, row);
    assert(p.of(area, list_pct) && r == divider_hit(p.body, p.files, col, row));
    r
}

/// The row of a list that a click at `(col, row)` lands on, where the list fills `inner` from
/// its row `scroll` on and has `n` rows.
pub open spec fn list_hit(inner: Rect, col: u16, row: u16, n: usize, scroll: usize) -> Option<
    usize,
> {
    if inside(inner, col, row) && row - inner.y + scroll < n {
        Some((row - inner.y + scroll) as usize)
    } else {
        None
    }
}

/// The row of the list in the bordered pane `files` that a click at `(col, row)` lands on.
pub fn file_at(files: Rect, col: u16, row: u16, n_files: usize, file_scroll: usize) -> (r: Option<
    usize,
>)
    ensures
        r == list_hit(bordered_inside(files), col, row, n_files, file_scroll),
{
    let inner: Rect = inner_rect(files);
    if !contains(inner, col, row) {
        return None;
    }
    let offset: usize = (row - inner.y) as usize;
    if file_scroll < n_files && offset < n_files - file_scroll {
        Some(offset + file_scroll)
    } else {
        None
    }
}

/// The file-row index a click at `(col, row)` lands on, or `None` if outside the list.
/// `file_scroll` is the top visible row, so a click maps to the scrolled-to row.
pub fn hit_file(
    area: Rect,
    list_pct: u16,
    col: u16,
    row: u16,
    n_files: usize,
    file_scroll: usize,
) -> (r: Option<usize>)
    requires
        list_pct <= 100,
    ensures
        exists|p: Panes| #[trigger]
            p.of(area, list_pct) && r == list_hit(
                bordered_inside(p.files),
                col,
                row,
                n_files,
                file_scroll,
            ),
{
    let p: Panes = panes(area, list_pct);
    let r: Option<usize> = file_at(p.files, col, row, n_files, file_scroll);
    assert(p.of(area, list_pct));
    r
}

/// The number of file rows visible in the file pane, used to clamp the file-list scroll.
pub fn file_viewport_height(area: Rect, list_pct: u16) -> (r: usize)
    requires
        list_pct <= 100,
    ensures
        exists|p: Panes| #[trigger] p.of(area, list_pct) && r == bordered_inside(p.files).height,
{
    let p: Panes = panes(area, list_pct);
    let r: usize = inner_rect(p.files).height as usize;
    assert(p.of(area, list_pct) && r == bordered_inside(p.files).height);
    r
}

/// Whether `(col, row)` falls in the file pane, so the wheel scrolls the list it is over.
pub fn in_files_pane(area: Rect, list_pct: u16, col: u16, row: u16) -> (r: bool)
    requires
        list_pct <= 100,
    ensures
        exists|p: Panes| #[trigger] p.of(area, list_pct) && r == inside(p.files, col, row),
{
    let p: Panes = panes(area, list_pct);
    let r: bool = contains(p.files, col, row);
    assert(p.of(area, list_pct) && r == inside(p.files, col, row));
    r
}

/// The render row that the `target`-th display row lies in, counted from the first display row
/// of render row `from`, where render row `i` takes `heights[i]` display rows.
pub open spec fn row_at(heights: Seq<usize>, from: int, target: int) -> Option<usize>
    decreases heights.len() - from,
{
    if from < 0 || from >= heights.len() {
        None
    } else if target < heights[from] {
        Some(from as usize)
    } else {
        row_at(heights, from + 1, target - heights[from])
    }
}

/// The render row that a click at `(col, row)` lands on in the bordered pane `pane`.
pub open spec fn doc_hit(
    pane: Rect,
    col: u16,
    row: u16,
    heights: Seq<usize>,
    doc_scroll: usize,
) -> Option<usize> {
    let inner = bordered_inside(pane);
    if inside(inner, col, row) {
        row_at(heights, doc_scroll as int, row - inner.y)
    } else {
        None
    }
}

/// The render row that a click at `(col, row)` lands on in the bordered pane `pane`.
pub fn doc_at(pane: Rect, col: u16, row: u16, heights: &[usize], doc_scroll: usize) -> (r: Option<
    usize,
>)
    ensures
        r == doc_hit(pane, col, row, heights@, doc_scroll),
{
    let inner: Rect = inner_rect(pane);
    if !contains(inner, col, row) {
        return None;
    }
    let mut left: usize = (row - inner.y) as usize;
    let mut i: usize = doc_scroll;
    while i < heights.len()
        invariant
            inner == bordered_inside(pane),
            inside(inner, col, row),
            row_at(heights@, i as int, left as int) == row_at(
                heights@,
                doc_scroll as int,
                row - inner.y,
            ),
        decreases heights@.len() - i,
    {
        if left < heights[i] {
            return Some(i);
        }
        left = left - heights[i];
        i += 1;
    }
    None
}

/// The render-row index a click at `(col, row)` lands on, or `None` if outside the doc pane.
/// `heights` (display rows per render row, with any spliced comment cards) and `doc_scroll`
/// reproduce the painted window, so a click on a card or a wrapped row maps to the right
/// render row.
pub fn hit_doc(
    area: Rect,
    list_pct: u16,
    split: bool,
    pane: usize,
    col: u16,
    row: u16,
    heights: &[usize],
    doc_scroll: usize,
) -> (r: Option<usize>)
    requires
        list_pct <= 100,
    ensures
        exists|d: Rect| #[trigger]
            doc_pane_of(d, area, list_pct, split, pane) && r == doc_hit(
                d,
                col,
                row,
                heights@,
                doc_scroll,
            ),
{
    let d: Rect = doc_rect(area, list_pct, split, pane);
    let r: Option<usize> = doc_at(d, col, row, heights, doc_scroll);
    assert(doc_pane_of(d, area, list_pct, split, pane));
    r
}

/// The number of doc rows visible in `pane`'s doc, used to clamp its scroll.
pub fn doc_viewport_height(area: Rect, list_pct: u16, split: bool, pane: usize) -> (r: usize)
    requires
        list_pct <= 100,
    ensures
        exists|d: Rect| #[trigger]
            doc_pane_of(d, area, list_pct, split, pane) && r == bordered_inside(d).height,
{
    let d: Rect = doc_rect(area, list_pct, split, pane);
    let r: usize = inner_rect(d).height as usize;
    assert(doc_pane_of(d, area, list_pct, split, pane) && r == bordered_inside(d).height);
    r
}

/// The `pane`'s doc inner content width for the full terminal `area`, so the comment box can
/// be reserved without painting.
pub fn doc_inner_width(area: Rect, list_pct: u16, split: bool, pane: usize) -> (r: usize)
    requires
        list_pct <= 100,
    ensures
        exists|d: Rect| #[trigger]
            doc_pane_of(d, area, list_pct, split, pane) && r == bordered_inside(d).width,
{
    let d: Rect = doc_rect(area, list_pct, split, pane);
    let r: usize = inner_rect(d).width as usize;
    assert(doc_pane_of(d, area, list_pct, split, pane) && r == bordered_inside(d).width);
    r
}

/// The parts that center one of `pct` percent.
pub open spec fn centering(pct: u16) -> Seq<Part> {
    seq![
        Part::Percentage(((100 - pct) / 2) as u16),
        Part::Percentage(pct),
        Part::Percentage(((100 - pct) / 2) as u16),
    ]
}

/// Whether `r` is the middle of `area` at `pct_x` by `pct_y` percent of its size.
pub open spec fn middle_of(r: Rect, area: Rect, pct_x: u16, pct_y: u16) -> bool {
    exists|v: Seq<Rect>, h: Seq<Rect>| #[trigger]
        divided(Axis::Vertical, centering(pct_y), area, v) && #[trigger] divided(
            Axis::Horizontal,
            centering(pct_x),
            v[1],
            h,
        ) && r == h[1]
}

/// A rect centered in `area` at `pct_x` by `pct_y` percent of its size.
pub fn centered(area: Rect, pct_x: u16, pct_y: u16) -> (r: Rect)
    requires
        pct_x <= 100,
        pct_y <= 100,
    ensures
        middle_of(r, area, pct_x, pct_y),
{
    let rest_y: u16 = (100 - pct_y) / 2;
    let down: Vec<Part> = vec![
        Part::Percentage(rest_y),
        Part::Percentage(pct_y),
        Part::Percentage(rest_y),
    ];
    let v: Vec<Rect> = split_area(Axis::Vertical, &down, area);
    let rest_x: u16 = (100 - pct_x) / 2;
    let across: Vec<Part> = vec![
        Part::Percentage(rest_x),
        Part::Percentage(pct_x),
        Part::Percentage(rest_x),
    ];
    let h: Vec<Rect> = split_area(Axis::Horizontal, &across, v[1]);
    assert(down@ =~= centering(pct_y));
    assert(across@ =~= centering(pct_x));
    assert(divided(Axis::Vertical, centering(pct_y), area, v@));
    assert(divided(Axis::Horizontal, centering(pct_x), v@[1], h@));
    h[1]
}

/// Where the comment box and the lines around it stand in a doc pane, from top to bottom.
pub struct Slots {
    pub above: Rect,
    pub input: Rect,
    pub below: Rect,
}

impl Slots {
    /// Whether these are the slots of a pane with the content area `inner` for `above` lines,
    /// a box of `box_h` rows, and `below` lines.
    pub open spec fn of(self, inner: Rect, above: u16, box_h: u16, below: u16) -> bool {
        divided(
            Axis::Vertical,
            seq![Part::Length(above), Part::Length(box_h), Part::Length(below)],
            inner,
            seq![self.above, self.input, self.below],
        )
    }
}

/// The slots of a doc pane with the content area `inner` while a comment is being written.
pub fn composer_slots(inner: Rect, above: u16, box_h: u16, below: u16) -> (r: Slots)
    ensures
        r.of(inner, above, box_h, below),
{
    let parts: Vec<Part> = vec![Part::Length(above), Part::Length(box_h), Part::Length(below)];
    let slots: Vec<Rect> = split_area(Axis::Vertical, &parts, inner);
    assert(parts@ =~= seq![Part::Length(above), Part::Length(box_h), Part::Length(below)]);
    assert(slots@ =~= seq![slots@[0], slots@[1], slots@[2]]);
    Slots { above: slots[0], input: slots[1], below: slots[2] }
}

/// A part of an area lies inside it: every cell of the part is a cell of the area.
pub proof fn law_parts_stay_inside(r: Rect, axis: Axis, area: Rect, col: u16, row: u16)
    requires
        part_of(r, axis, area),
        inside(r, col, row),
    ensures
        inside(area, col, row),
{
}

/// The content of a bordered pane lies inside the pane, one cell away from each side.
pub proof fn law_border_surrounds_content(outer: Rect, col: u16, row: u16)
    requires
        inside(bordered_inside(outer), col, row),
    ensures
        inside(outer, col, row),
        outer.x < col < outer.x + outer.width - 1,
        outer.y < row < outer.y + outer.height - 1,
{
}

/// A rect holds as many columns and rows as it says, from its corner on; it ends where the screen
/// does.
pub proof fn law_rects_hold_their_cells(rect: Rect, dx: u16, dy: u16)
    requires
        rect.x + rect.width <= 0xffff,
        rect.y + rect.height <= 0xffff,
        rect.x + dx <= 0xffff,
        rect.y + dy <= 0xffff,
    ensures
        inside(rect, (rect.x + dx) as u16, (rect.y + dy) as u16) <==> dx < rect.width && dy
            < rect.height,
{
}

/// A cell left of a rect or above it is not inside it.
pub proof fn law_nothing_lies_before_a_rect(rect: Rect, col: u16, row: u16)
    requires
        col < rect.x || row < rect.y,
    ensures
        !inside(rect, col, row),
{
}

/// The border of a pane takes one cell on each side and leaves all others to the content.
pub proof fn law_a_border_takes_one_cell(outer: Rect, col: u16, row: u16)
    requires
        outer.x + outer.width <= 0xffff,
        outer.y + outer.height <= 0xffff,
        outer.width >= 2,
        outer.height >= 2,
    ensures
        inside(bordered_inside(outer), col, row) <==> inside(outer, col, row) && col != outer.x
            && col != outer.x + outer.width - 1 && row != outer.y && row != outer.y + outer.height
            - 1,
{
}

/// A click on a list lands on the row that is painted there: the row at `scroll` on its first line,
/// the next one on the line below, and so on; behind the last row there is none.
pub proof fn law_clicks_land_on_list_rows(inner: Rect, col: u16, line: u16, n: usize, scroll: usize)
    requires
        inner.x + inner.width <= 0xffff,
        inner.y + inner.height <= 0xffff,
        inner.x <= col < inner.x + inner.width,
        line < inner.height,
    ensures
        match list_hit(inner, col, (inner.y + line) as u16, n, scroll) {
            Some(i) => i == scroll + line && i < n,
            None => scroll + line >= n,
        },
{
}

/// A click outside the list lands on none of its rows.
pub proof fn law_clicks_outside_land_on_no_row(
    inner: Rect,
    col: u16,
    row: u16,
    n: usize,
    scroll: usize,
)
    requires
        !inside(inner, col, row),
    ensures
        list_hit(inner, col, row, n, scroll) is None,
{
}

/// The divider can be grabbed on the left border of the file pane and one column to either side of
/// it, over the height of the body.
pub proof fn law_the_divider_is_three_columns_wide(body: Rect, files: Rect, dx: int, row: u16)
    requires
        0 <= files.x + dx <= 0xffff,
    ensures
        divider_hit(body, files, (files.x + dx) as u16, row) <==> -1 <= dx <= 1 && body.y <= row
            < body.y + body.height,
{
}

/// A click on a document counts display rows from the first visible row on: each row takes its own
/// height, and the click lands on the row that the counted ones reach.
pub proof fn law_clicks_count_display_rows(heights: Seq<usize>, from: int, target: int)
    requires
        0 <= from < heights.len() <= usize::MAX,
        0 <= target,
    ensures
        target < heights[from] ==> row_at(heights, from, target) == Some(from as usize),
        target >= heights[from] ==> row_at(heights, from, target) == row_at(
            heights,
            from + 1,
            target - heights[from],
        ),
        row_at(heights, heights.len() as int, target) is None,
{
}

} // verus!
