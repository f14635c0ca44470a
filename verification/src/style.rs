//! Styled terminal text as plain values: spans with palette tones, and lines of spans.
use crate::text::{chars_of, string_of};
use crate::width;
use crate::width::width_of_text;
use vstd::prelude::*;

verus! {

/// A color of the active theme, by its role in the palette.
#[derive(Clone, Copy, Debug, PartialEq, Eq, Structural)]
pub enum Tone {
    Text,
    Subtext0,
    Overlay0,
    Overlay1,
    Surface0,
    Surface2,
    Peach,
    Mauve,
    Lavender,
    Blue,
    Green,
    /// The selection fill of the pane that has the focus.
    CursorFocused,
    /// The selection fill of a pane that does not.
    CursorUnfocused,
}

/// How a span is painted.
#[derive(Clone, Copy, Debug, PartialEq, Eq, Structural)]
pub struct Style {
    pub fg: Option<Tone>,
    pub bg: Option<Tone>,
    pub bold: bool,
    pub italic: bool,
    pub crossed: bool,
}

/// A run of text in one style.
#[derive(Clone, Debug)]
pub struct Span {
    pub text: String,
    pub style: Style,
}

/// One terminal line: its spans, and the background that its whole width takes.
#[derive(Clone, Debug)]
pub struct Line {
    pub spans: Vec<Span>,
    pub fill: Option<Tone>,
}

/// What a span shows.
pub struct SpanView {
    pub text: Seq<char>,
    pub style: Style,
}

/// What a line shows.
pub struct LineView {
    pub spans: Seq<SpanView>,
    pub fill: Option<Tone>,
}

impl View for Span {
    type V = SpanView;

    open spec fn view(&self) -> SpanView {
        SpanView { text: self.text@, style: self.style }
    }
}

/// What each of `spans` shows.
pub open spec fn spans_view(spans: Seq<Span>) -> Seq<SpanView> {
    spans.map_values(|s: Span| s@)
}

impl View for Line {
    type V = LineView;

    open spec fn view(&self) -> LineView {
        LineView { spans: spans_view(self.spans@), fill: self.fill }
    }
}

/// What each of `lines` shows.
pub open spec fn lines_view(lines: Seq<Line>) -> Seq<LineView> {
    lines.map_values(|l: Line| l@)
}

impl Style {
    /// No color and no weight of its own.
    #[verifier::allow_in_spec]
    pub fn plain() -> Style
        returns
            (Style { fg: None, bg: None, bold: false, italic: false, crossed: false }),
    {
        Style { fg: None, bg: None, bold: false, italic: false, crossed: false }
    }

    /// Text in `tone`.
    #[verifier::allow_in_spec]
    pub fn toned(tone: Tone) -> Style
        returns
            (Style { fg: Some(tone), bg: None, bold: false, italic: false, crossed: false }),
    {
        Style { fg: Some(tone), bg: None, bold: false, italic: false, crossed: false }
    }

    /// Bold text in `tone`.
    #[verifier::allow_in_spec]
    pub fn strong(tone: Tone) -> Style
        returns
            (Style { fg: Some(tone), bg: None, bold: true, italic: false, crossed: false }),
    {
        Style { fg: Some(tone), bg: None, bold: true, italic: false, crossed: false }
    }
}

/// A run of `text` in `style`.
pub open spec fn span_of(text: Seq<char>, style: Style) -> SpanView {
    SpanView { text, style }
}

/// A run of `text` without a style of its own.
pub open spec fn raw_of(text: Seq<char>) -> SpanView {
    SpanView { text, style: Style::plain() }
}

/// A run of `text` in `style`.
pub fn styled(text: String, style: Style) -> (r: Span)
    ensures
        r@ == span_of(text@, style),
{
    Span { text, style }
}

/// A run of `text` without a style of its own.
pub fn raw(text: String) -> (r: Span)
    ensures
        r@ == raw_of(text@),
{
    Span { text, style: Style::plain() }
}

/// A line of `spans` without a fill.
pub open spec fn line_of_spans(spans: Seq<SpanView>) -> LineView {
    LineView { spans, fill: None }
}

/// A line of `spans` without a fill.
pub fn line(spans: Vec<Span>) -> (r: Line)
    ensures
        r@ == line_of_spans(spans_view(spans@)),
{
    Line { spans, fill: None }
}

impl Span {
    /// The same run of text once more.
    pub fn copied(&self) -> (r: Span)
        ensures
            r@ == self@,
    {
        Span { text: self.text.clone(), style: self.style }
    }
}

/// The same runs of text once more.
pub fn copy_spans(spans: &Vec<Span>) -> (r: Vec<Span>)
    ensures
        spans_view(r@) == spans_view(spans@),
{
    let mut out: Vec<Span> = Vec::new();
    let mut i: usize = 0;
    while i < spans.len()
        invariant
            i <= spans@.len(),
            out@.len() == i,
            forall|k: int| 0 <= k < i ==> (#[trigger] out@[k])@ == spans@[k]@,
        decreases spans@.len() - i,
    {
        out.push(spans[i].copied());
        i += 1;
    }
    assert(spans_view(out@) =~= spans_view(spans@));
    out
}

impl Line {
    /// The same line once more.
    pub fn copied(&self) -> (r: Line)
        ensures
            r@ == self@,
    {
        Line { spans: copy_spans(&self.spans), fill: self.fill }
    }
}

/// The characters of `spans`, one span after the other.
pub open spec fn text_of(spans: Seq<SpanView>) -> Seq<char>
    decreases spans.len(),
{
    if spans.len() == 0 {
        Seq::empty()
    } else {
        text_of(spans.drop_last()) + spans.last().text
    }
}

/// The part of `spans` over the characters `a..b` of their text: each span cut to what lies in
/// there, and left out where nothing does.
pub open spec fn cut(spans: Seq<SpanView>, a: int, b: int) -> Seq<SpanView>
    decreases spans.len(),
{
    if spans.len() == 0 {
        Seq::empty()
    } else {
        let rest = spans.drop_last();
        let from = text_of(rest).len();
        let last = spans.last();
        let lo = if a > from {
            a - from
        } else {
            0
        };
        let hi = if b < from + last.text.len() {
            b - from
        } else {
            last.text.len() as int
        };
        if lo < hi {
            cut(rest, a, b).push(SpanView { text: last.text.subrange(lo, hi), ..last })
        } else {
            cut(rest, a, b)
        }
    }
}

/// The characters of `spans`, one span after the other.
pub fn chars_of_spans(spans: &Vec<Span>) -> (r: Vec<char>)
    ensures
        r@ == text_of(spans_view(spans@)),
{
    let mut out: Vec<char> = Vec::new();
    let ghost view = spans_view(spans@);
    let mut i: usize = 0;
    assert(view.take(0) =~= Seq::empty());
    while i < spans.len()
        invariant
            i <= spans@.len(),
            view == spans_view(spans@),
            out@ == text_of(view.take(i as int)),
        decreases spans@.len() - i,
    {
        assert(view.take(i + 1).drop_last() =~= view.take(i as int));
        let mut more: Vec<char> = chars_of(spans[i].text.as_str());
        out.append(&mut more);
        i += 1;
    }
    assert(view.take(i as int) =~= view);
    out
}

/// The part of `spans` over the characters `a..b` of their text.
pub fn cut_spans(spans: &Vec<Span>, a: usize, b: usize) -> (r: Vec<Span>)
    requires
        a <= b <= text_of(spans_view(spans@)).len(),
        text_of(spans_view(spans@)).len() <= usize::MAX,
    ensures
        spans_view(r@) == cut(spans_view(spans@), a as int, b as int),
{
    let mut out: Vec<Span> = Vec::new();
    let ghost view = spans_view(spans@);
    let mut from: usize = 0;
    let mut i: usize = 0;
    assert(view.take(0) =~= Seq::empty());
    assert(spans_view(out@) =~= Seq::empty());
    while i < spans.len()
        invariant
            i <= spans@.len(),
            view == spans_view(spans@),
            text_of(view).len() <= usize::MAX,
            from == text_of(view.take(i as int)).len(),
            spans_view(out@) == cut(view.take(i as int), a as int, b as int),
        decreases spans@.len() - i,
    {
        let ghost before = out@;
        proof {
            assert(view.take(i + 1).drop_last() =~= view.take(i as int));
            assert(view.take(i + 1).last() == spans@[i as int]@);
            lemma_text_grows(view, i + 1);
        }
        let chars: Vec<char> = chars_of(spans[i].text.as_str());
        let lo: usize = if a > from {
            a - from
        } else {
            0
        };
        let hi: usize = if b < from + chars.len() {
            if b > from {
                b - from
            } else {
                0
            }
        } else {
            chars.len()
        };
        if lo < hi {
            let piece: Span = Span { text: string_of(&chars, lo, hi), style: spans[i].style };
            out.push(piece);
            assert(spans_view(out@) =~= spans_view(before).push(piece@));
        }
        from = from + chars.len();
        i += 1;
    }
    assert(view.take(i as int) =~= view);
    out
}

/// The text of the first `n` spans is no longer than that of all.
proof fn lemma_text_grows(spans: Seq<SpanView>, n: int)
    requires
        0 <= n <= spans.len(),
    ensures
        text_of(spans.take(n)).len() <= text_of(spans).len(),
    decreases spans.len(),
{
    if n < spans.len() {
        assert(spans.drop_last().take(n) =~= spans.take(n));
        lemma_text_grows(spans.drop_last(), n);
    } else {
        assert(spans.take(n) =~= spans);
    }
}

/// A cut holds exactly the characters that it is made for, whatever the spans are.
pub proof fn law_cut_keeps_the_text(spans: Seq<SpanView>, a: int, b: int)
    requires
        0 <= a <= b <= text_of(spans).len(),
    ensures
        text_of(cut(spans, a, b)) == text_of(spans).subrange(a, b),
    decreases spans.len(),
{
    if spans.len() > 0 {
        let rest = spans.drop_last();
        let from = text_of(rest).len() as int;
        let last = spans.last();
        let (a1, b1) = (
            if a < from {
                a
            } else {
                from
            },
            if b < from {
                b
            } else {
                from
            },
        );
        law_cut_keeps_the_text(rest, a1, b1);
        lemma_cut_clamps(rest, a, b);
        let c = cut(spans, a, b);
        let lo = if a > from {
            a - from
        } else {
            0
        };
        let hi = if b < from + last.text.len() {
            b - from
        } else {
            last.text.len() as int
        };
        if lo < hi {
            assert(c.drop_last() =~= cut(rest, a, b));
            assert(text_of(c) =~= text_of(spans).subrange(a, b));
        } else {
            assert(text_of(c) =~= text_of(spans).subrange(a, b));
        }
    } else {
        assert(text_of(cut(spans, a, b)) =~= text_of(spans).subrange(a, b));
    }
}

/// A cut does not depend on how far its ends lie behind the text.
proof fn lemma_cut_clamps(spans: Seq<SpanView>, a: int, b: int)
    requires
        0 <= a <= b,
    ensures
        ({
            let n = text_of(spans).len() as int;
            cut(spans, a, b) == cut(
                spans,
                if a < n {
                    a
                } else {
                    n
                },
                if b < n {
                    b
                } else {
                    n
                },
            )
        }),
    decreases spans.len(),
{
    if spans.len() > 0 {
        let rest = spans.drop_last();
        let n = text_of(spans).len() as int;
        let a1 = if a < n {
            a
        } else {
            n
        };
        let b1 = if b < n {
            b
        } else {
            n
        };
        lemma_cut_clamps(rest, a, b);
        lemma_cut_clamps(rest, a1, b1);
    }
}

/// The columns that `spans` take side by side.
pub open spec fn spans_width(spans: Seq<SpanView>) -> nat
    decreases spans.len(),
{
    if spans.len() == 0 {
        0
    } else {
        spans_width(spans.drop_last()) + width::text_width(spans.last().text) as nat
    }
}

/// `n`, or the greatest machine number where that is less.
pub open spec fn capped(n: nat) -> usize {
    if n <= usize::MAX {
        n as usize
    } else {
        usize::MAX
    }
}

/// The columns that `spans` take side by side.
pub fn width_of_spans(spans: &Vec<Span>) -> (r: usize)
    ensures
        r == capped(spans_width(spans_view(spans@))),
{
    let ghost view = spans_view(spans@);
    let mut used: usize = 0;
    let mut i: usize = 0;
    assert(view.take(0) =~= Seq::empty());
    while i < spans.len()
        invariant
            i <= spans@.len(),
            view == spans_view(spans@),
            used == capped(spans_width(view.take(i as int))),
        decreases spans@.len() - i,
    {
        assert(view.take(i + 1).drop_last() =~= view.take(i as int));
        assert(view.take(i + 1).last() == spans@[i as int]@);
        used = used.saturating_add(width_of_text(spans[i].text.as_str()));
        i += 1;
    }
    assert(view.take(i as int) =~= view);
    used
}

/// The characters of `spans` one by one, each with the style that it is painted in.
pub open spec fn cells(spans: Seq<SpanView>) -> Seq<(char, Style)>
    decreases spans.len(),
{
    if spans.len() == 0 {
        Seq::empty()
    } else {
        cells(spans.drop_last()) + span_cells(spans.last())
    }
}

/// The characters of one span, each with its style.
pub open spec fn span_cells(s: SpanView) -> Seq<(char, Style)> {
    Seq::new(s.text.len(), |k: int| (s.text[k], s.style))
}

/// The text of spans is their characters, in order.
pub proof fn law_text_is_the_characters(spans: Seq<SpanView>)
    ensures
        text_of(spans) == cells(spans).map_values(|c: (char, Style)| c.0),
    decreases spans.len(),
{
    if spans.len() > 0 {
        law_text_is_the_characters(spans.drop_last());
    }
    assert(text_of(spans) =~= cells(spans).map_values(|c: (char, Style)| c.0));
}

/// A cut keeps each character that it is made for in the style that it was painted in.
pub proof fn law_cut_keeps_the_paint(spans: Seq<SpanView>, a: int, b: int)
    requires
        0 <= a <= b <= cells(spans).len(),
    ensures
        cells(cut(spans, a, b)) == cells(spans).subrange(a, b),
    decreases spans.len(),
{
    law_text_is_the_characters(spans);
    if spans.len() > 0 {
        let rest = spans.drop_last();
        law_text_is_the_characters(rest);
        let from = text_of(rest).len() as int;
        let last = spans.last();
        let (a1, b1) = (
            if a < from {
                a
            } else {
                from
            },
            if b < from {
                b
            } else {
                from
            },
        );
        law_cut_keeps_the_paint(rest, a1, b1);
        lemma_cut_clamps(rest, a, b);
        let c = cut(spans, a, b);
        let lo = if a > from {
            a - from
        } else {
            0
        };
        let hi = if b < from + last.text.len() {
            b - from
        } else {
            last.text.len() as int
        };
        if lo < hi {
            assert(c.drop_last() =~= cut(rest, a, b));
        }
        assert(cells(c) =~= cells(spans).subrange(a, b));
    } else {
        assert(cells(cut(spans, a, b)) =~= cells(spans).subrange(a, b));
    }
}

/// Spans side by side take as many columns as each takes for itself.
pub proof fn law_widths_add_up(spans: Seq<SpanView>, s: SpanView)
    ensures
        spans_width(spans.push(s)) == spans_width(spans) + width::text_width(s.text),
        spans_width(Seq::empty()) == 0,
        text_of(spans.push(s)) == text_of(spans) + s.text,
{
    assert(spans.push(s).drop_last() =~= spans);
}

} // verus!
