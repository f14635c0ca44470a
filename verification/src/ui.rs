//! What is painted where: header, doc panes, file list, footer, comment box and comments list.
//!
//! These functions read the session only; all state changes live in [`crate::app`] and
//! [`crate::keys`].
use crate::app::{App, AppView, FooterAction, Mode, ModeView, Tier};
use crate::docview;
use crate::docview::{BodyView, DocBody, Paint, PaintView, input_box_height};
use crate::footer;
use crate::footer::{FooterState, footer_line};
use crate::geometry;
use crate::geometry::{Rect, inner_rect};
use crate::markdown;
use crate::markdown::RenderRow;
use crate::model;
use crate::pane::DocPane;
use crate::rows;
use crate::rows::layout_rows;
use crate::style;
use crate::style::{Line, LineView, Span, Style, Tone, raw, styled};
use crate::text;
use crate::text::{push_decimal, repeat_char};
use crate::width;
use crate::width::width_of_text;
use vstd::prelude::*;

pub use crate::cards::comment_card_lines;
pub use crate::composer::{
    box_rows, box_wrap, caret_rowcol, caret_vertical, composer_lines, row_with_caret,
};
pub use crate::docview::composer_content_width;
pub use crate::elide::{elide_head, truncate_width};
pub use crate::footer::{action_key_label, action_spans, tier_styles};
pub use crate::geometry::{
    body_rect, centered, composer_slots, contains, doc_inner_width, doc_rect, doc_viewport_height,
    file_viewport_height, hit_divider, hit_doc, hit_file, in_files_pane, panes, vrows,
};
pub use crate::listing::{comment_rows, file_row_item, file_rows, selectable_row};
pub use crate::rows::wrap_text;

verus! {

/// The Send button for `n` comments.
pub open spec fn send_button(n: nat) -> Seq<char> {
    "[ Send ("@ + text::decimal(n) + ") ]"@
}

/// The header band in `w` columns: the title, then a right-aligned Send button.
pub open spec fn header_of(sendable: nat, w: nat) -> LineView {
    let button = send_button(sendable);
    let used = width::text_width(" glowr"@) + width::text_width(button) + 1;
    LineView {
        spans: seq![
            style::span_of(" glowr"@, Style::strong(Tone::Text)),
            style::raw_of(
                text::repeated(
                    ' ',
                    if w >= used {
                        (w - used) as nat
                    } else {
                        0
                    },
                ),
            ),
            style::span_of(button, Style::strong(Tone::Peach)),
            style::raw_of(" "@),
        ],
        fill: Some(Tone::Surface0),
    }
}

/// The columns of the Send button in a header of `w` columns: from the first, up to the one
/// behind the last. It stands behind the title and the spaces of the header line.
pub open spec fn send_columns(sendable: nat, w: nat) -> (nat, nat) {
    let button = width::text_width(send_button(sendable)) as nat;
    let title = width::text_width(" glowr"@) as nat;
    let used = title + button + 1;
    let start = title + if w >= used {
        (w - used) as nat
    } else {
        0
    };
    (start, start + button)
}

/// Whether `(col, row)` lands on the Send button in the header band `header`.
pub open spec fn send_hit(sendable: nat, header: Rect, col: u16, row: u16) -> bool {
    let (start, end) = send_columns(sendable, header.width as nat);
    geometry::inside(header, col, row) && header.x + start <= col < header.x + end
}

/// Whether `(col, row)` lands on the Send button in the header band `header`.
pub fn on_send_button(app: &App, header: Rect, col: u16, row: u16) -> (r: bool)
    ensures
        r == send_hit(model::sendable_of(app@.comments).len(), header, col, row),
{
    let label: String = send_label(app);
    let title: u128 = width_of_text(" glowr") as u128;
    let button: u128 = width_of_text(label.as_str()) as u128;
    let w: u128 = header.width as u128;
    let used: u128 = title + button + 1;
    let start: u128 = title + if w >= used {
        w - used
    } else {
        0
    };
    let at: u128 = col as u128;
    let left: u128 = header.x as u128;
    contains(header, col, row) && left + start <= at && at < left + start + button
}

/// The text of the Send button.
fn send_label(app: &App) -> (r: String)
    ensures
        r@ == send_button(model::sendable_of(app@.comments).len()),
{
    let mut button: String = "[ Send (".to_owned();
    push_decimal(&mut button, app.comments.sendable() as u128);
    button.append(") ]");
    assert(button@ =~= send_button(model::sendable_of(app@.comments).len()));
    button
}

/// The header band: the title, then a right-aligned `[ Send (N) ]` button naming exactly the
/// open, user-authored comment count a send would deliver.
pub fn header_line(app: &App, width: u16) -> (r: Line)
    ensures
        r@ == header_of(model::sendable_of(app@.comments).len(), width as nat),
{
    let button: String = send_label(app);
    let w: usize = width as usize;
    let pad: usize = w.saturating_sub(width_of_text(" glowr")).saturating_sub(
        width_of_text(button.as_str()),
    ).saturating_sub(1);
    let spans: Vec<Span> = vec![
        styled(" glowr".to_owned(), Style::strong(Tone::Text)),
        raw(repeat_char(' ', pad)),
        styled(button, Style::strong(Tone::Peach)),
        raw(" ".to_owned()),
    ];
    let r: Line = Line { spans, fill: Some(Tone::Surface0) };
    assert(r@.spans =~= header_of(model::sendable_of(app@.comments).len(), width as nat).spans);
    r
}

/// The selection fill of a pane.
pub open spec fn cursor_fill(focused: bool) -> Tone {
    if focused {
        Tone::CursorFocused
    } else {
        Tone::CursorUnfocused
    }
}

/// The selection fill of a pane: it recedes where the pane has no focus.
pub fn cursor_bg(focused: bool) -> (r: Tone)
    ensures
        r == cursor_fill(focused),
{
    if focused {
        Tone::CursorFocused
    } else {
        Tone::CursorUnfocused
    }
}

/// A pane's border: a focused pane gets a bright one, an unfocused one recedes to a surface
/// tone.
pub fn border_tone(focused: bool) -> (r: Tone)
    ensures
        r == if focused {
            Tone::Lavender
        } else {
            Tone::Surface2
        },
{
    if focused {
        Tone::Lavender
    } else {
        Tone::Surface2
    }
}

/// The title of a doc pane: the path of its file.
pub fn doc_title(pane: &DocPane) -> (r: String)
    ensures
        r@ == match pane@.path {
            Some(path) => path,
            None => "(no file)"@,
        },
{
    match &pane.path {
        Some(path) => path.clone(),
        None => "(no file)".to_owned(),
    }
}

impl AppView {
    /// What the display lines of `pane` are made from at `width` columns.
    pub open spec fn paint(self, pane: int, width: usize, focused: bool) -> PaintView {
        let d = self.docs[pane];
        PaintView {
            rows: rows::laid_rows(d.blocks, width, self.wrap),
            width,
            lo: d.selection().0,
            hi: d.selection().1,
            fill: cursor_fill(focused),
            cards: d.cards(self.comments),
            comments: self.comments,
        }
    }

    /// What fills `pane` with `width` by `height` cells inside its border.
    pub open spec fn doc_body(
        self,
        pane: int,
        width: usize,
        height: nat,
        focused: bool,
    ) -> BodyView {
        let d = self.docs[pane];
        let p = self.paint(pane, width, focused);
        if d.blocks.len() == 0 {
            BodyView::Hint
        } else if height == 0 || p.rows.len() == 0 {
            BodyView::Blank
        } else if self.mode is Composing && self.focus_pane() == pane {
            p.composing(
                d.scroll,
                height,
                docview::box_height(self.input, width),
                d.blocks.len(),
            )
        } else {
            BodyView::Lines(p.window(d.scroll, height))
        }
    }

    /// The display height of each row of `pane` at `width` columns.
    pub open spec fn heights(self, pane: int, width: usize) -> Seq<nat> {
        self.paint(pane, width, true).heights()
    }
}

/// The doc pane: the document in rows, with comment cards spliced under their block's last row,
/// the cursor or selection fill on every row of the selected blocks, windowed by the scroll; or,
/// while composing on this pane, the input box spliced under the selection instead of the
/// window tail. `width` and `height` are the cells inside the pane's border.
pub fn doc_body(app: &App, pane: usize, focused: bool, width: u16, height: u16) -> (r: DocBody)
    requires
        app@.docs.len() == 2,
        pane < 2,
    ensures
        r@ == app@.doc_body(pane as int, width as usize, height as nat, focused),
{
    let doc_pane: &DocPane = &app.docs[pane];
    let ghost d = app@.docs[pane as int];
    assert(d == doc_pane@);
    let n_blocks: usize = doc_pane.doc.blocks.len();
    assert(d.blocks.len() == n_blocks);
    if n_blocks == 0 {
        return DocBody::Hint;
    }
    if height == 0 {
        return DocBody::Blank;
    }
    let w: usize = width as usize;
    let rows: Vec<RenderRow> = layout_rows(&doc_pane.doc, w, app.wrap);
    assert(markdown::rows_view(rows@).len() == rows@.len());
    if rows.len() == 0 {
        return DocBody::Blank;
    }
    let (lo, hi): (usize, usize) = doc_pane.selection();
    let cards: Vec<Vec<usize>> = app.comment_cards(pane);
    let paint: Paint = Paint {
        rows: &rows,
        width: w,
        lo,
        hi,
        fill: cursor_bg(focused),
        cards: &cards,
        comments: &app.comments,
    };
    let ghost p = app@.paint(pane as int, w, focused);
    proof {
        rows::law_rows_follow_blocks(d.blocks, w, app.wrap);
        assert(paint@.rows =~= p.rows);
        assert(paint@.cards =~= p.cards);
        assert(paint@ == p);
        assert(p.fits());
    }
    let composing: bool = match &app.mode {
        Mode::Composing { .. } => true,
        _ => false,
    };
    if composing && app.focus_pane() == pane {
        let wanted: usize = input_box_height(app.input.as_str(), w);
        let ghost box_h = docview::box_height(app@.input, w);
        assert(docview::box_rows_in(wanted as nat, height as nat) == docview::box_rows_in(
            box_h,
            height as nat,
        ));
        paint.composing_around(doc_pane.scroll, height as usize, wanted, n_blocks)
    } else {
        paint.browsing(doc_pane.scroll, height as usize)
    }
}

/// How many display lines each row of `pane` takes at `width` columns.
pub fn row_heights_at(app: &App, pane: usize, width: usize) -> (r: Vec<usize>)
    requires
        app@.docs.len() == 2,
        pane < 2,
    ensures
        r@.map_values(|h: usize| h as nat) == app@.heights(pane as int, width),
{
    let doc_pane: &DocPane = &app.docs[pane];
    let ghost d = app@.docs[pane as int];
    assert(d == doc_pane@);
    let rows: Vec<RenderRow> = layout_rows(&doc_pane.doc, width, app.wrap);
    let (lo, hi): (usize, usize) = doc_pane.selection();
    let cards: Vec<Vec<usize>> = app.comment_cards(pane);
    let paint: Paint = Paint {
        rows: &rows,
        width,
        lo,
        hi,
        fill: cursor_bg(true),
        cards: &cards,
        comments: &app.comments,
    };
    proof {
        rows::law_rows_follow_blocks(d.blocks, width, app.wrap);
        assert(paint@ == app@.paint(pane as int, width, true));
        assert(paint@.fits());
    }
    paint.row_heights()
}

/// The display height of each row of the document in `pane`: 1, plus any spliced comment-card
/// lines when the row is the last one of a block that has a comment. Made from the same lines
/// that get painted, so scroll-clamping and hit-testing cannot desync from the card splice
/// while browsing.
///
/// This does not account for an open comment box: while composing, the scrolled window is
/// replaced by a fixed split above and below the box, which these row heights do not model.
pub fn doc_row_heights(app: &App, area: Rect, pane: usize) -> (r: Vec<usize>)
    requires
        app@.wf(),
        pane < 2,
    ensures
        exists|d: Rect| #[trigger]
            geometry::doc_pane_of(d, area, app@.list_pct, app@.split, pane) && r@.map_values(
                |h: usize| h as nat,
            ) == app@.heights(pane as int, geometry::bordered_inside(d).width as usize),
{
    let d: Rect = geometry::doc_rect(area, app.list_pct, app.split, pane);
    let r: Vec<usize> = row_heights_at(app, pane, inner_rect(d).width as usize);
    assert(geometry::doc_pane_of(d, area, app@.list_pct, app@.split, pane));
    r
}

/// Rows the inline comment box occupies at the doc pane's `width`: the wrapped body height (so
/// the box grows as text wraps, not only on explicit newlines) plus the two borders.
pub fn composer_height(app: &App, width: usize) -> (r: usize)
    ensures
        r == style::capped(docview::box_height(app@.input, width)),
{
    input_box_height(app.input.as_str(), width)
}

/// The title of the comment box: what is being done, and where.
pub open spec fn box_title(a: AppView) -> Seq<char> {
    let loc = match a.pending_location() {
        Some(loc) => loc,
        None => "comment"@,
    };
    if a.mode matches ModeView::Composing { editing: Some(_) } {
        "edit · "@ + loc
    } else {
        "comment · "@ + loc
    }
}

/// The title of the comment box: what is being done, and where.
pub fn composer_title(app: &App) -> (r: String)
    requires
        app@.docs.len() == 2,
    ensures
        r@ == box_title(app@),
{
    let loc: String = match app.pending_location() {
        Some(loc) => loc,
        None => "comment".to_owned(),
    };
    let editing: bool = match &app.mode {
        Mode::Composing { editing: Some(_) } => true,
        _ => false,
    };
    let mut out: String = if editing {
        "edit · ".to_owned()
    } else {
        "comment · ".to_owned()
    };
    out.append(loc.as_str());
    out
}

/// The footer for the session's current context.
pub fn footer_of(app: &App, width: u16) -> (r: Line)
    requires
        app@.docs.len() == 2,
    ensures
        r@ == (LineView {
            spans: footer::footer_spans(
                FooterState {
                    focus: app@.focus,
                    split: app@.split,
                    sendable: model::sendable_of(app@.comments).len() as usize,
                },
                app@.footer_actions(),
                width as nat,
            ),
            fill: Some(Tone::Surface0),
        }),
{
    let state: FooterState = FooterState {
        focus: app.focus,
        split: app.split,
        sendable: app.comments.sendable(),
    };
    let acts: Vec<(FooterAction, Tier)> = app.footer_actions();
    footer_line(state, &acts, width)
}

/// The title of the comments list.
pub fn comments_title(app: &App) -> (r: String)
    ensures
        r@ == "Comments ("@ + text::decimal(app@.comments.len()) + ")"@,
{
    let mut out: String = "Comments (".to_owned();
    push_decimal(&mut out, app.comments.len() as u128);
    out.append(")");
    out
}

/// Hit-testing and paint agree on a doc pane: a click on the `t`-th display row of a pane that is
/// being browsed lands on the document row whose line is painted there.
pub proof fn law_clicks_match_paint(
    a: AppView,
    pane: int,
    width: usize,
    height: nat,
    focused: bool,
    heights: Seq<usize>,
    t: int,
)
    requires
        0 <= pane < a.docs.len(),
        heights.map_values(|h: usize| h as nat) == a.heights(pane, width),
        a.doc_body(pane, width, height, focused) is Lines,
        0 <= a.docs[pane].scroll,
        a.paint(pane, width, focused).rows.len() <= usize::MAX,
        0 <= t < (a.doc_body(pane, width, height, focused)->Lines_0).len(),
    ensures
        ({
            let p = a.paint(pane, width, focused);
            let lines = a.doc_body(pane, width, height, focused)->Lines_0;
            geometry::row_at(heights, a.docs[pane].scroll, t) matches Some(i) && i < p.rows.len()
                && exists|k: int|
                0 <= k < p.row_lines(i as int).len() && lines[t] == #[trigger] p.row_lines(
                    i as int,
                )[k]
        }),
{
    let p = a.paint(pane, width, focused);
    let q = a.paint(pane, width, true);
    let scroll = a.docs[pane].scroll;
    let lines = a.doc_body(pane, width, height, focused)->Lines_0;
    assert forall|i: int| 0 <= i < p.rows.len() implies #[trigger] p.row_lines(i).len()
        == q.row_lines(i).len() by {
        let list = p.cards[p.rows[i].block];
        lemma_stack_ignores_fill(p, q, list, list.len() as int);
    }
    assert(p.heights() =~= q.heights());
    docview::law_click_lands_on_painted_row(p, heights, scroll, t);
    let all = p.display(scroll, p.rows.len() as int);
    assert(lines[t] == all[t]);
}

proof fn lemma_stack_ignores_fill(p: PaintView, q: PaintView, list: Seq<usize>, n: int)
    requires
        p.comments == q.comments,
        p.width == q.width,
    ensures
        p.card_stack(list, n) == q.card_stack(list, n),
    decreases n,
{
    if n > 0 {
        lemma_stack_ignores_fill(p, q, list, n - 1);
    }
}

/// The header names the number of comments that a send delivers, in its Send button, with the title
/// in front and spaces between the two that push the button to the right.
pub proof fn law_header_names_what_a_send_delivers(n: nat, w: nat)
    ensures
        ({
            let h = header_of(n, w);
            let pad = h.spans[1].text.len();
            &&& style::text_of(h.spans) == seq![' ', 'g', 'l', 'o', 'w', 'r'] + Seq::new(
                pad,
                |k: int| ' ',
            ) + seq!['[', ' ', 'S', 'e', 'n', 'd', ' ', '('] + text::decimal(n) + seq![
                ')',
                ' ',
                ']',
                ' ',
            ]
            &&& h.spans.len() == 4
            &&& width::text_width(h.spans[0].text) + pad + width::text_width(h.spans[2].text) + 1
                == w || (pad == 0 && width::text_width(h.spans[0].text) + width::text_width(
                h.spans[2].text,
            ) + 1 > w)
        }),
{
    reveal_strlit(" glowr");
    reveal_strlit("[ Send (");
    reveal_strlit(") ]");
    reveal_strlit(" ");
    let h = header_of(n, w);
    let s = h.spans;
    let e = Seq::<style::SpanView>::empty();
    let pad = s[1].text.len();
    assert(style::text_of(e) =~= Seq::empty());
    style::law_widths_add_up(e, s[0]);
    style::law_widths_add_up(e.push(s[0]), s[1]);
    style::law_widths_add_up(e.push(s[0]).push(s[1]), s[2]);
    style::law_widths_add_up(e.push(s[0]).push(s[1]).push(s[2]), s[3]);
    assert(s =~= e.push(s[0]).push(s[1]).push(s[2]).push(s[3]));
    assert(style::text_of(s) =~= seq![' ', 'g', 'l', 'o', 'w', 'r'] + Seq::new(pad, |k: int| ' ')
        + seq!['[', ' ', 'S', 'e', 'n', 'd', ' ', '('] + text::decimal(n) + seq![
        ')',
        ' ',
        ']',
        ' ',
    ]);
}

/// A click hits the Send button just where the header paints it: in the columns behind the title and
/// the spaces, as many as the button takes.
pub proof fn law_send_button_is_where_it_is_painted(n: nat, header: Rect, col: u16, row: u16)
    ensures
        ({
            let s = header_of(n, header.width as nat).spans;
            let from = header.x + width::text_width(s[0].text) + s[1].text.len();
            send_hit(n, header, col, row) <==> geometry::inside(header, col, row) && from <= col
                < from + width::text_width(s[2].text)
        }),
{
}

/// A pane shows its own document, laid out at its own width, with its own selection and the comments
/// on it; the fill of the selection tells whether the pane has the focus.
pub proof fn law_panes_show_their_own_document(a: AppView, pane: int, width: usize)
    ensures
        ({
            let d = a.docs[pane];
            let (on, off) = (a.paint(pane, width, true), a.paint(pane, width, false));
            &&& on.rows == rows::laid_rows(d.blocks, width, a.wrap)
            &&& (on.lo, on.hi) == d.selection()
            &&& on.cards == d.cards(a.comments)
            &&& on.comments == a.comments
            &&& on.width == width
            &&& off == (PaintView { fill: off.fill, ..on })
            &&& on.fill != off.fill
        }),
{
}

/// A pane shows a hint without a document, the comment box where a comment is being written in it,
/// and the lines from its first visible row on otherwise.
pub proof fn law_pane_bodies_follow_the_mode(
    a: AppView,
    pane: int,
    width: usize,
    height: nat,
    focused: bool,
)
    ensures
        ({
            let d = a.docs[pane];
            let p = a.paint(pane, width, focused);
            let body = a.doc_body(pane, width, height, focused);
            let here = a.mode is Composing && a.focus_pane() == pane;
            &&& body is Hint <==> d.blocks.len() == 0
            &&& body is Composing ==> here
            &&& body is Lines ==> !here
            &&& body matches BodyView::Lines(lines) ==> lines == p.window(d.scroll, height)
            &&& d.blocks.len() > 0 && height > 0 && p.rows.len() > 0 ==> body is Composing
                || body is Lines
        }),
{
}

/// The title of the comment box ends with the place of the comment where it has one, and says
/// whether a comment is edited or written.
pub proof fn law_box_title_names_the_place(a: AppView, loc: Seq<char>)
    requires
        a.pending_location() == Some(loc),
    ensures
        a.mode matches ModeView::Composing { editing: Some(_) } ==> box_title(a) == seq![
            'e',
            'd',
            'i',
            't',
            ' ',
            '·',
            ' ',
        ] + loc,
        a.mode == (ModeView::Composing { editing: None }) ==> box_title(a) == seq![
            'c',
            'o',
            'm',
            'm',
            'e',
            'n',
            't',
            ' ',
            '·',
            ' ',
        ] + loc,
{
    reveal_strlit("edit · ");
    reveal_strlit("comment · ");
    assert("edit · "@ =~= seq!['e', 'd', 'i', 't', ' ', '·', ' ']);
    assert("comment · "@ =~= seq!['c', 'o', 'm', 'm', 'e', 'n', 't', ' ', '·', ' ']);
}

/// The cursor row has the bright fill just in the pane that has the focus.
pub proof fn law_the_focused_cursor_stands_out(a: AppView, pane: int, width: usize, focused: bool)
    ensures
        a.paint(pane, width, focused).fill == Tone::CursorFocused <==> focused,
        a.paint(pane, width, focused).fill == Tone::CursorUnfocused <==> !focused,
{
}

} // verus!
