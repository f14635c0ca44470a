//! The doc pane: which display lines are painted for a document, its comment cards and the
//! open comment box.
use crate::cards;
use crate::cards::comment_card_lines;
use crate::comments::StoredView;
use crate::composer;
use crate::composer::box_rows;
use crate::geometry;
use crate::markdown;
use crate::markdown::{RenderRow, RowView};
use crate::model::CommentStore;
use crate::style;
use crate::style::{Line, LineView, Tone, raw, width_of_spans};
use crate::text;
use crate::text::repeat_char;
use vstd::prelude::*;

verus! {

/// What the display lines of a doc pane are made from: the rows of the document, the width of
/// the pane, the selected blocks and their fill, and the comments under each block.
pub struct PaintView {
    pub rows: Seq<RowView>,
    pub width: usize,
    pub lo: int,
    pub hi: int,
    pub fill: Tone,
    pub cards: Seq<Seq<usize>>,
    pub comments: Seq<StoredView>,
}

impl PaintView {
    /// Whether each row belongs to a block that has a list of cards.
    pub open spec fn fits(self) -> bool {
        forall|i: int|
            0 <= i < self.rows.len() ==> 0 <= (#[trigger] self.rows[i]).block < self.cards.len()
    }

    /// Whether row `i` is the last of its block.
    pub open spec fn is_last(self, i: int) -> bool {
        i + 1 == self.rows.len() || self.rows[i + 1].block != self.rows[i].block
    }

    /// Row `i` as a line: padded to the width of the pane, and filled where its block is
    /// selected.
    pub open spec fn row_line(self, i: int) -> LineView {
        let line = self.rows[i].line;
        let used = style::spans_width(line.spans);
        LineView {
            spans: if self.width > used {
                line.spans.push(style::raw_of(text::repeated(' ', (self.width - used) as nat)))
            } else {
                line.spans
            },
            fill: if self.lo <= self.rows[i].block <= self.hi {
                Some(self.fill)
            } else {
                line.fill
            },
        }
    }

    /// The cards of the first `n` comments in `list`; an index that no comment has gives none.
    pub open spec fn card_stack(self, list: Seq<usize>, n: int) -> Seq<LineView>
        decreases n,
    {
        if n <= 0 {
            Seq::empty()
        } else {
            let rest = self.card_stack(list, n - 1);
            if list[n - 1] < self.comments.len() {
                rest + cards::card(self.comments[list[n - 1] as int], self.width)
            } else {
                rest
            }
        }
    }

    /// The display lines of row `i`: its line, and behind the last row of a block the cards of
    /// that block's comments.
    pub open spec fn row_lines(self, i: int) -> Seq<LineView> {
        let list = self.cards[self.rows[i].block];
        seq![self.row_line(i)] + if self.is_last(i) {
            self.card_stack(list, list.len() as int)
        } else {
            Seq::empty()
        }
    }

    /// The display lines of the rows `a..b`.
    pub open spec fn display(self, a: int, b: int) -> Seq<LineView>
        decreases b - a,
    {
        if b <= a {
            Seq::empty()
        } else {
            self.display(a, b - 1) + self.row_lines(b - 1)
        }
    }

    /// The display lines of each row, by number.
    pub open spec fn heights(self) -> Seq<nat> {
        Seq::new(self.rows.len(), |i: int| self.row_lines(i).len())
    }
}

/// What the display lines of a doc pane are made from.
pub struct Paint<'a> {
    pub rows: &'a Vec<RenderRow>,
    pub width: usize,
    pub lo: usize,
    pub hi: usize,
    pub fill: Tone,
    pub cards: &'a Vec<Vec<usize>>,
    pub comments: &'a CommentStore,
}

/// The lists of comment indices as sequences.
pub open spec fn lists_view(lists: Seq<Vec<usize>>) -> Seq<Seq<usize>> {
    lists.map_values(|l: Vec<usize>| l@)
}

impl<'a> Paint<'a> {
    pub open spec fn view(&self) -> PaintView {
        PaintView {
            rows: markdown::rows_view(self.rows@),
            width: self.width,
            lo: self.lo as int,
            hi: self.hi as int,
            fill: self.fill,
            cards: lists_view(self.cards@),
            comments: self.comments@,
        }
    }

    fn line_of_row(&self, i: usize) -> (r: Line)
        requires
            i < self.rows@.len(),
        ensures
            r@ == self@.row_line(i as int),
    {
        let row: &RenderRow = &self.rows[i];
        let mut line: Line = row.line.copied();
        let used: usize = width_of_spans(&line.spans);
        let ghost before = line@;
        assert(self@.rows[i as int] == self.rows@[i as int]@);
        if self.width > used {
            let pad: style::Span = raw(repeat_char(' ', self.width - used));
            line.spans.push(pad);
            assert(style::spans_view(line.spans@) =~= before.spans.push(pad@));
        }
        if self.lo <= row.block && row.block <= self.hi {
            line.fill = Some(self.fill);
        }
        line
    }

    /// The display lines of row `i`.
    pub fn lines_of_row(&self, i: usize) -> (r: Vec<Line>)
        requires
            i < self.rows@.len(),
            self@.fits(),
        ensures
            style::lines_view(r@) == self@.row_lines(i as int),
    {
        let ghost view = self@;
        let mut out: Vec<Line> = vec![self.line_of_row(i)];
        assert(view.rows[i as int] == self.rows@[i as int]@);
        let block: usize = self.rows[i].block;
        let ghost head = seq![view.row_line(i as int)];
        assert(style::lines_view(out@) =~= head);
        assert(i + 1 < self.rows@.len() ==> view.rows[i + 1] == self.rows@[i + 1]@);
        let is_last: bool = i == self.rows.len() - 1 || self.rows[i + 1].block != block;
        if is_last {
            let list: &Vec<usize> = &self.cards[block];
            assert(view.cards[block as int] == list@);
            let mut k: usize = 0;
            assert(head + view.card_stack(list@, 0) =~= head);
            while k < list.len()
                invariant
                    k <= list@.len(),
                    view == self@,
                    style::lines_view(out@) == head + view.card_stack(list@, k as int),
                decreases list@.len() - k,
            {
                if let Some(sc) = self.comments.get(list[k]) {
                    let mut card: Vec<Line> = comment_card_lines(sc, self.width);
                    let ghost before = out@;
                    let ghost added = card@;
                    out.append(&mut card);
                    assert(style::lines_view(out@) =~= style::lines_view(before)
                        + style::lines_view(added));
                    assert(style::lines_view(out@) =~= head + view.card_stack(list@, k + 1));
                }
                k += 1;
            }
        }
        assert(style::lines_view(out@) =~= view.row_lines(i as int));
        out
    }

    /// The display lines of the rows `a..b`.
    pub fn display_lines(&self, a: usize, b: usize) -> (r: Vec<Line>)
        requires
            b <= self.rows@.len(),
            self@.fits(),
        ensures
            style::lines_view(r@) == self@.display(a as int, b as int),
    {
        let ghost view = self@;
        let mut out: Vec<Line> = Vec::new();
        assert(style::lines_view(out@) =~= Seq::empty());
        let mut i: usize = a;
        while i < b
            invariant
                a <= i,
                a < b ==> i <= b,
                b <= self.rows@.len(),
                view == self@,
                view.fits(),
                a >= b ==> i == a,
                style::lines_view(out@) == view.display(a as int, i as int),
            decreases b - i,
        {
            let ghost before = out@;
            let mut more: Vec<Line> = self.lines_of_row(i);
            let ghost added = more@;
            out.append(&mut more);
            assert(style::lines_view(out@) =~= style::lines_view(before) + style::lines_view(
                added,
            ));
            i += 1;
        }
        out
    }

    /// How many display lines each row takes. Shares its lines with what is painted, so
    /// scroll-clamping and hit-testing cannot desync from the card splice.
    pub fn row_heights(&self) -> (r: Vec<usize>)
        requires
            self@.fits(),
        ensures
            r@.map_values(|h: usize| h as nat) == self@.heights(),
    {
        let mut out: Vec<usize> = Vec::new();
        let mut i: usize = 0;
        while i < self.rows.len()
            invariant
                i <= self.rows@.len(),
                self@.fits(),
                out@.len() == i,
                forall|k: int|
                    0 <= k < i ==> (#[trigger] out@[k]) as nat == self@.row_lines(k).len(),
            decreases self.rows@.len() - i,
        {
            let lines: Vec<Line> = self.lines_of_row(i);
            assert(style::lines_view(lines@).len() == lines@.len());
            out.push(lines.len());
            i += 1;
        }
        assert(out@.map_values(|h: usize| h as nat) =~= self@.heights());
        out
    }
}

/// The columns for text inside the comment box: the doc pane width minus its two borders, and
/// never less than one.
pub open spec fn content_width(width: usize) -> usize {
    if width >= 3 {
        (width - 2) as usize
    } else {
        1
    }
}

/// The text width inside the comment box: the doc pane width minus its two borders.
pub fn composer_content_width(width: usize) -> (r: usize)
    ensures
        r == content_width(width),
{
    let inside: usize = width.saturating_sub(2);
    if inside == 0 {
        1
    } else {
        inside
    }
}

/// Rows the comment box occupies for `input`: the wrapped body height plus the two borders.
pub open spec fn box_height(input: Seq<char>, width: usize) -> nat {
    composer::box_from(input, 0, composer::wrap_width(content_width(width))).len() + 2
}

/// Rows the inline comment box occupies at the doc pane's `width`: the wrapped body height (so
/// the box grows as text wraps, not only on explicit newlines) plus the two borders.
pub fn input_box_height(input: &str, width: usize) -> (r: usize)
    ensures
        r == style::capped(box_height(input@, width)),
{
    let rows: Vec<(usize, String)> = box_rows(input, composer_content_width(width));
    assert(composer::box_view(rows@).len() == rows@.len());
    rows.len().saturating_add(2)
}

/// What fills a doc pane.
pub enum DocBody {
    /// A hint, where no document is open.
    Hint,
    /// Nothing, where there is no room or no row.
    Blank,
    /// The window of display lines.
    Lines(Vec<Line>),
    /// The comment box `box_h` rows high, with the lines above and below it.
    Composing { above: Vec<Line>, box_h: usize, below: Vec<Line> },
}

/// What fills a doc pane.
pub enum BodyView {
    Hint,
    Blank,
    Lines(Seq<LineView>),
    Composing { above: Seq<LineView>, box_h: nat, below: Seq<LineView> },
}

impl View for DocBody {
    type V = BodyView;

    open spec fn view(&self) -> BodyView {
        match *self {
            DocBody::Hint => BodyView::Hint,
            DocBody::Blank => BodyView::Blank,
            DocBody::Lines(lines) => BodyView::Lines(style::lines_view(lines@)),
            DocBody::Composing { above, box_h, below } => BodyView::Composing {
                above: style::lines_view(above@),
                box_h: box_h as nat,
                below: style::lines_view(below@),
            },
        }
    }
}

/// The first `n` lines, or all where there are fewer.
pub open spec fn first_lines(lines: Seq<LineView>, n: nat) -> Seq<LineView> {
    if lines.len() > n {
        lines.take(n as int)
    } else {
        lines
    }
}

/// The last `n` lines, or all where there are fewer.
pub open spec fn last_lines(lines: Seq<LineView>, n: nat) -> Seq<LineView> {
    if lines.len() > n {
        lines.skip(lines.len() - n)
    } else {
        lines
    }
}

/// The last of the first `n` rows that belongs to `block`, or the last row of all where none
/// does.
pub open spec fn anchor_row(rows: Seq<RowView>, block: int, n: int) -> int
    decreases n,
{
    if n <= 0 {
        rows.len() - 1
    } else if rows[n - 1].block == block {
        n - 1
    } else {
        anchor_row(rows, block, n - 1)
    }
}

/// The rows of a comment box that wants `wanted` rows in a pane `height` rows high: one row is
/// left for its anchor, so a comment taller than the pane cannot hide it.
pub open spec fn box_rows_in(wanted: nat, height: nat) -> nat {
    if height <= 1 {
        1
    } else if wanted < height {
        wanted
    } else {
        (height - 1) as nat
    }
}

impl PaintView {
    /// The lines of the pane while browsing: as many as fit from row `scroll` on.
    pub open spec fn window(self, scroll: int, height: nat) -> Seq<LineView> {
        first_lines(self.display(scroll, self.rows.len() as int), height)
    }

    /// The lines above the comment box: the last that fit of those from row `scroll` to the
    /// anchor.
    pub open spec fn above_box(self, scroll: int, anchor: int, budget: nat) -> Seq<LineView> {
        last_lines(self.display(scroll, anchor + 1), budget)
    }

    /// The lines below the comment box: as many as fit behind the anchor.
    pub open spec fn below_box(self, anchor: int, budget: nat) -> Seq<LineView> {
        first_lines(self.display(anchor + 1, self.rows.len() as int), budget)
    }

    /// The row that the comment box stands under: the last one of the last selected block.
    pub open spec fn composed_row(self, n_blocks: nat) -> int {
        let last = if n_blocks > 0 && self.hi >= n_blocks {
            n_blocks - 1
        } else if n_blocks == 0 {
            0
        } else {
            self.hi
        };
        anchor_row(self.rows, last, self.rows.len() as int)
    }

    /// What fills a pane `height` rows high while a comment on blocks up to `hi` is being
    /// written: the box, under the last selected block.
    pub open spec fn composing(
        self,
        scroll: int,
        height: nat,
        wanted: nat,
        n_blocks: nat,
    ) -> BodyView {
        let box_h = box_rows_in(wanted, height);
        let budget = (height - box_h) as nat;
        let anchor = self.composed_row(n_blocks);
        let above = self.above_box(scroll, anchor, budget);
        BodyView::Composing {
            above,
            box_h,
            below: self.below_box(anchor, (budget - above.len()) as nat),
        }
    }
}

impl<'a> Paint<'a> {
    /// The lines of the pane while browsing.
    pub fn browsing(&self, scroll: usize, height: usize) -> (r: DocBody)
        requires
            self@.fits(),
        ensures
            r@ == BodyView::Lines(self@.window(scroll as int, height as nat)),
    {
        let total: usize = self.rows.len();
        let mut out: Vec<Line> = self.display_lines(scroll, total);
        let ghost all = out@;
        out.truncate(height);
        assert(style::lines_view(out@) =~= first_lines(style::lines_view(all), height as nat));
        DocBody::Lines(out)
    }

    /// The lines of the pane around the comment box. The box is capped so that a comment taller
    /// than the pane cannot hide its anchor.
    pub fn composing_around(
        &self,
        scroll: usize,
        height: usize,
        wanted: usize,
        n_blocks: usize,
    ) -> (r: DocBody)
        requires
            self@.fits(),
            height > 0,
            self.rows@.len() > 0,
            wanted > 0,
        ensures
            r@ == self@.composing(scroll as int, height as nat, wanted as nat, n_blocks as nat),
    {
        let ghost view = self@;
        let box_h: usize = if height <= 1 {
            1
        } else if wanted < height {
            wanted
        } else {
            height - 1
        };
        let budget: usize = height - box_h;
        let last: usize = if n_blocks > 0 && self.hi >= n_blocks {
            n_blocks - 1
        } else if n_blocks == 0 {
            0
        } else {
            self.hi
        };
        let total: usize = self.rows.len();
        let mut i: usize = total;
        while i > 0 && self.rows[i - 1].block != last
            invariant
                i <= total == self.rows@.len(),
                view == self@,
                anchor_row(view.rows, last as int, i as int) == anchor_row(
                    view.rows,
                    last as int,
                    total as int,
                ),
            decreases i,
        {
            assert(view.rows[i - 1] == self.rows@[i - 1]@);
            i -= 1;
        }
        assert(i > 0 ==> view.rows[i - 1] == self.rows@[i - 1]@);
        let anchor: usize = if i > 0 {
            i - 1
        } else {
            total - 1
        };
        assert(anchor == anchor_row(view.rows, last as int, total as int));
        let mut above_all: Vec<Line> = self.display_lines(scroll, anchor + 1);
        let ghost before = above_all@;
        let above: Vec<Line> = if above_all.len() > budget {
            let from: usize = above_all.len() - budget;
            let tail: Vec<Line> = above_all.split_off(from);
            assert(style::lines_view(tail@) =~= style::lines_view(before).skip(from as int));
            tail
        } else {
            above_all
        };
        assert(style::lines_view(above@) =~= view.above_box(
            scroll as int,
            anchor as int,
            budget as nat,
        ));
        assert(style::lines_view(above@).len() == above@.len());
        let remaining: usize = budget - above.len();
        let mut below: Vec<Line> = self.display_lines(anchor + 1, total);
        let ghost all = below@;
        below.truncate(remaining);
        assert(style::lines_view(below@) =~= first_lines(
            style::lines_view(all),
            remaining as nat,
        ));
        DocBody::Composing { above, box_h, below }
    }
}

proof fn lemma_display_splits(p: PaintView, a: int, b: int, c: int)
    requires
        a <= b <= c,
    ensures
        p.display(a, c) == p.display(a, b) + p.display(b, c),
    decreases c - b,
{
    if b < c {
        lemma_display_splits(p, a, b, c - 1);
        assert(p.display(a, c) =~= p.display(a, b) + p.display(b, c));
    } else {
        assert(p.display(a, c) =~= p.display(a, b) + p.display(b, c));
    }
}

/// Whether `heights` are the display heights of the rows of `p`.
pub open spec fn measures(heights: Seq<usize>, p: PaintView) -> bool {
    heights.map_values(|h: usize| h as nat) == p.heights()
}

/// Paint and hit-testing agree: the `t`-th line painted from row `from` on is a line of exactly
/// the row that the measured heights say, and behind the last line there is no row.
pub proof fn law_click_lands_on_painted_row(
    p: PaintView,
    heights: Seq<usize>,
    from: int,
    t: int,
)
    requires
        measures(heights, p),
        0 <= from,
        0 <= t,
        p.rows.len() <= usize::MAX,
    ensures
        ({
            let n = p.rows.len() as int;
            let lines = p.display(from, n);
            match geometry::row_at(heights, from, t) {
                Some(i) => {
                    let before = p.display(from, i as int).len();
                    &&& from <= i < n
                    &&& before <= t < before + p.row_lines(i as int).len()
                    &&& t < lines.len()
                    &&& lines[t] == p.row_lines(i as int)[t - before]
                },
                None => t >= lines.len(),
            }
        }),
    decreases p.rows.len() - from,
{
    let n = p.rows.len() as int;
    assert(heights.map_values(|h: usize| h as nat).len() == heights.len());
    if from < n {
        lemma_display_splits(p, from, from + 1, n);
        assert(p.display(from, from) =~= Seq::empty());
        assert(p.display(from, from + 1) =~= p.row_lines(from));
        assert(heights.map_values(|h: usize| h as nat)[from] == p.heights()[from]);
        if t >= heights[from] {
            law_click_lands_on_painted_row(p, heights, from + 1, t - heights[from]);
            if let Some(i) = geometry::row_at(heights, from + 1, t - heights[from]) {
                lemma_display_splits(p, from, from + 1, i as int);
            }
        }
    }
}

/// The lines painted while browsing never exceed the pane.
pub proof fn law_window_fits_pane(p: PaintView, scroll: int, height: nat)
    ensures
        p.window(scroll, height).len() <= height,
{
}

/// The comment box and the lines around it fill at most the pane, and wherever the pane has two
/// rows or more and the scroll is not past the anchor, a line of the document stays above the
/// box.
pub proof fn law_comment_box_fits_pane(
    p: PaintView,
    scroll: int,
    height: nat,
    wanted: nat,
    n_blocks: nat,
)
    requires
        0 < height,
        0 < wanted,
    ensures
        p.composing(scroll, height, wanted, n_blocks) matches BodyView::Composing {
            above,
            box_h,
            below,
        } && above.len() + box_h + below.len() <= height && 0 < box_h && (height >= 2 && scroll
            <= p.composed_row(n_blocks) ==> above.len() > 0),
{
    let anchor = p.composed_row(n_blocks);
    assert(scroll <= anchor ==> p.display(scroll, anchor + 1).len() > 0);
}

/// The lines of a pane follow each other row by row: those from row `i` on are the display lines of
/// row `i`, then those from the next row on, as many as fit.
pub proof fn law_rows_are_painted_in_order(p: PaintView, i: int, height: nat)
    requires
        0 <= i < p.rows.len(),
    ensures
        ({
            let (here, next) = (p.window(i, height), p.window(i + 1, height));
            let own = p.row_lines(i);
            let all = own.len() + next.len();
            &&& here.len() == if all < height {
                all
            } else {
                height
            }
            &&& forall|t: int|
                0 <= t < here.len() ==> #[trigger] here[t] == if t < own.len() {
                    own[t]
                } else {
                    next[t - own.len()]
                }
        }),
        p.window(p.rows.len() as int, height).len() == 0,
{
    let n = p.rows.len() as int;
    lemma_display_splits(p, i, i + 1, n);
    assert(p.display(i, i) =~= Seq::empty());
    assert(p.display(i, i + 1) =~= p.row_lines(i));
}

/// Row `i` is painted as its own text, with spaces behind it up to the width of the pane, each
/// character in its own style. The fill of the selection is under it just where its block is
/// selected.
pub proof fn law_row_lines_show_the_row(p: PaintView, i: int)
    requires
        0 <= i < p.rows.len(),
    ensures
        ({
            let row = p.rows[i];
            let line = p.row_lines(i)[0];
            let own = style::cells(row.line.spans);
            let used = style::spans_width(row.line.spans);
            let cells = style::cells(line.spans);
            &&& own.len() <= cells.len()
            &&& cells.take(own.len() as int) == own
            &&& forall|k: int| own.len() <= k < cells.len() ==> (#[trigger] cells[k]).0 == ' '
            &&& cells.len() - own.len() == if used < p.width {
                p.width - used
            } else {
                0
            }
            &&& p.lo <= row.block <= p.hi ==> line.fill == Some(p.fill)
            &&& !(p.lo <= row.block <= p.hi) ==> line.fill == row.line.fill
        }),
{
    let row = p.rows[i];
    let spans = row.line.spans;
    let used = style::spans_width(spans);
    let line = p.row_line(i);
    if p.width > used {
        assert(line.spans.drop_last() =~= spans);
    }
    assert(style::cells(line.spans).take(style::cells(spans).len() as int) =~= style::cells(spans));
}

proof fn lemma_stack_flattens(p: PaintView, list: Seq<usize>, n: int)
    requires
        0 <= n <= list.len(),
        forall|k: int| 0 <= k < list.len() ==> (#[trigger] list[k]) < p.comments.len(),
    ensures
        p.card_stack(list, n) == list.take(n).map_values(
            |c: usize| cards::card(p.comments[c as int], p.width),
        ).flatten_alt(),
    decreases n,
{
    let f = |c: usize| cards::card(p.comments[c as int], p.width);
    let all = list.take(n).map_values(f);
    if n > 0 {
        lemma_stack_flattens(p, list, n - 1);
        assert(all.drop_last() =~= list.take(n - 1).map_values(f));
        assert(list[n - 1] < p.comments.len());
        assert(all.last() == f(list[n - 1]));
    } else {
        assert(all =~= Seq::empty());
    }
}

/// The comments of a block are shown under it: behind its last row stand the cards of all comments
/// that it lists, one whole card after the other, and behind no other row stands anything.
pub proof fn law_cards_stand_under_their_block(p: PaintView, i: int)
    requires
        p.fits(),
        0 <= i < p.rows.len(),
        forall|k: int|
            0 <= k < p.cards[p.rows[i].block].len() ==> (#[trigger] p.cards[p.rows[i].block][k])
                < p.comments.len(),
    ensures
        ({
            let more = i + 1 < p.rows.len() && p.rows[i + 1].block == p.rows[i].block;
            p.row_lines(i).skip(1) == if more {
                Seq::empty()
            } else {
                p.cards[p.rows[i].block].map_values(
                    |c: usize| cards::card(p.comments[c as int], p.width),
                ).flatten_alt()
            }
        }),
{
    let list = p.cards[p.rows[i].block];
    let n = list.len() as int;
    lemma_stack_flattens(p, list, n);
    assert(list.take(n) =~= list);
    let lines = p.row_lines(i);
    assert(lines.skip(1) =~= if p.is_last(i) {
        p.card_stack(list, n)
    } else {
        Seq::empty()
    });
}

proof fn lemma_anchor_row(rows: Seq<RowView>, block: int, n: int)
    requires
        0 <= n <= rows.len(),
    ensures
        ({
            let r = anchor_row(rows, block, n);
            ||| 0 <= r < n && rows[r].block == block && forall|k: int|
                r < k < n ==> (#[trigger] rows[k]).block != block
            ||| r == rows.len() - 1 && forall|k: int|
                0 <= k < n ==> (#[trigger] rows[k]).block != block
        }),
    decreases n,
{
    if n > 0 && rows[n - 1].block != block {
        lemma_anchor_row(rows, block, n - 1);
    }
}

/// The comment box stands right under the last row of the last selected block: above it are the last
/// lines up to that row that fit, below it the first lines behind that row. It has the height it
/// asks for, or leaves one row of the pane.
pub proof fn law_comment_box_stands_under_the_selection(
    p: PaintView,
    scroll: int,
    height: nat,
    wanted: nat,
    n_blocks: nat,
    r: int,
)
    requires
        2 <= height,
        0 < wanted,
        0 <= p.hi < n_blocks,
        0 <= r < p.rows.len(),
        p.rows[r].block == p.hi,
        forall|k: int| r < k < p.rows.len() ==> (#[trigger] p.rows[k]).block != p.hi,
    ensures
        p.composing(scroll, height, wanted, n_blocks) matches BodyView::Composing {
            above,
            box_h,
            below,
        } && {
            let (head, tail) = (p.display(scroll, r + 1), p.display(r + 1, p.rows.len() as int));
            let room = height - box_h;
            &&& box_h == wanted || (box_h == height - 1 && box_h < wanted)
            &&& box_h < height
            &&& above.len() <= head.len() && above == head.skip(head.len() - above.len())
            &&& above.len() == head.len() || above.len() == room
            &&& below.len() <= tail.len() && below == tail.take(below.len() as int)
            &&& below.len() == tail.len() || above.len() + below.len() == room
            &&& above.len() + below.len() <= room
        },
{
    let n = p.rows.len() as int;
    lemma_anchor_row(p.rows, p.hi, n);
    let found = anchor_row(p.rows, p.hi, n);
    assert(p.rows[r].block == p.hi);
    assert(found == r);
    let (head, tail) = (p.display(scroll, r + 1), p.display(r + 1, n));
    assert(head.skip(0) =~= head);
    assert(tail.take(tail.len() as int) =~= tail);
}

/// The comment box grows with what is typed: one row more for each line feed at the end, and three
/// rows, borders included, while it is empty. Its text has the width of the pane but for the borders.
pub proof fn law_the_box_grows_with_its_text(input: Seq<char>, width: usize)
    ensures
        box_height(input.push('\n'), width) == box_height(input, width) + 1,
        box_height(Seq::empty(), width) == 3,
        width >= 3 ==> content_width(width) + 2 == width,
        content_width(width) >= 1,
{
    composer::law_a_line_feed_opens_a_row(input, composer::wrap_width(content_width(width)));
}

/// The comment box is as high as it has rows to show, with one border above and one below.
pub proof fn law_the_box_shows_all_its_rows(input: Seq<char>, width: usize, caret: int)
    requires
        input.len() > 0,
    ensures
        box_height(input, width) == composer::box_lines(
            input,
            caret,
            composer::wrap_width(content_width(width)),
        ).len() + 2,
{
}

} // verus!
