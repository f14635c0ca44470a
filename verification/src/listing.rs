//! The rows of the file list and of the comments list.
use crate::comments::{Author, Status, StoredComment, StoredView};
use crate::elide;
use crate::elide::elide_head;
use crate::file_list;
use crate::file_list::{FileEntry, FileView};
use crate::style;
use crate::style::{Line, LineView, Span, SpanView, Style, Tone, line, raw, styled, width_of_spans};
use crate::text;
use crate::text::{chars_of, repeat_char, string_of};
use vstd::prelude::*;

verus! {

/// A span as a part of a filled row: bold, on the fill.
pub open spec fn filled_span(s: SpanView, bg: Tone) -> SpanView {
    SpanView { style: Style { bg: Some(bg), bold: true, ..s.style }, ..s }
}

/// A list row of `spans`: where it is highlighted, padded to `width` columns with the fill
/// under every span.
pub open spec fn row_spans(spans: Seq<SpanView>, width: usize, fill: Option<Tone>) -> Seq<
    SpanView,
> {
    match fill {
        None => spans,
        Some(bg) => {
            let used = style::spans_width(spans);
            let padded = if width > used {
                spans.push(style::raw_of(text::repeated(' ', (width - used) as nat)))
            } else {
                spans
            };
            padded.map_values(|s: SpanView| filled_span(s, bg))
        },
    }
}

/// A list row, highlighted with the shared selection fill (full width) where there is one: the
/// same treatment the doc cursor uses, so every cursor in the UI reads the same. The fill is
/// applied per span (with a trailing pad) so it spans the full width.
pub fn selectable_row(spans: Vec<Span>, width: usize, fill: Option<Tone>) -> (r: Line)
    ensures
        r@ == style::line_of_spans(row_spans(style::spans_view(spans@), width, fill)),
{
    let mut spans: Vec<Span> = spans;
    let ghost given = style::spans_view(spans@);
    if let Some(bg) = fill {
        let used: usize = width_of_spans(&spans);
        if width > used {
            let pad: Span = raw(repeat_char(' ', width - used));
            spans.push(pad);
            assert(style::spans_view(spans@) =~= given.push(pad@));
        }
        let ghost padded = style::spans_view(spans@);
        let mut i: usize = 0;
        while i < spans.len()
            invariant
                i <= spans@.len() == padded.len(),
                forall|k: int|
                    0 <= k < i ==> (#[trigger] spans@[k])@ == filled_span(padded[k], bg),
                forall|k: int| i <= k < spans@.len() ==> (#[trigger] spans@[k])@ == padded[k],
            decreases spans@.len() - i,
        {
            let mut look: Style = spans[i].style;
            look.bg = Some(bg);
            look.bold = true;
            spans[i].style = look;
            i += 1;
        }
        assert(style::spans_view(spans@) =~= row_spans(given, width, fill));
    }
    line(spans)
}

/// The index after the last `/` of `s[..n]`, or 0 where there is none.
pub open spec fn base_start(s: Seq<char>, n: int) -> int {
    file_list::after_last(s, '/', n)
}

/// The spans of a file row: the parent directories dimmed, the basename bright, or dim too for
/// an ignored file.
pub open spec fn file_spans(shown: Seq<char>, ignored: bool) -> Seq<SpanView> {
    let cut = base_start(shown, shown.len() as int);
    let base = style::span_of(
        shown.skip(cut),
        Style::toned(
            if ignored {
                Tone::Overlay0
            } else {
                Tone::Text
            },
        ),
    );
    if cut > 0 {
        seq![style::span_of(shown.take(cut), Style::toned(Tone::Overlay0)), base]
    } else {
        seq![base]
    }
}

/// A file row in `width` columns: a path too wide for it keeps its tail.
pub open spec fn file_row(
    path: Seq<char>,
    ignored: bool,
    width: usize,
    fill: Option<Tone>,
) -> LineView {
    let max = if width == 0 {
        1
    } else {
        width
    };
    style::line_of_spans(row_spans(file_spans(elide::elided(path, max), ignored), width, fill))
}

/// A file row: the basename bright, its parent directories dimmed. A path too wide for the row
/// keeps its tail behind a leading `…`.
pub fn file_row_item(path: &str, width: usize, fill: Option<Tone>, ignored: bool) -> (r: Line)
    ensures
        r@ == file_row(path@, ignored, width, fill),
{
    let max: usize = if width == 0 {
        1
    } else {
        width
    };
    let shown: String = elide_head(path, max);
    let chars: Vec<char> = chars_of(shown.as_str());
    let mut cut: usize = chars.len();
    while cut > 0 && chars[cut - 1] != '/'
        invariant
            cut <= chars@.len(),
            base_start(chars@, cut as int) == base_start(chars@, chars@.len() as int),
        decreases cut,
    {
        cut -= 1;
    }
    let mut spans: Vec<Span> = Vec::new();
    if cut > 0 {
        spans.push(styled(string_of(&chars, 0, cut), Style::toned(Tone::Overlay0)));
    }
    let base_style: Style = if ignored {
        Style::toned(Tone::Overlay0)
    } else {
        Style::toned(Tone::Text)
    };
    let total: usize = chars.len();
    spans.push(styled(string_of(&chars, cut, total), base_style));
    assert(chars@.subrange(0, cut as int) =~= chars@.take(cut as int));
    assert(chars@.subrange(cut as int, total as int) =~= chars@.skip(cut as int));
    assert(style::spans_view(spans@) =~= file_spans(shown@, ignored));
    selectable_row(spans, width, fill)
}

/// The fill of row `i`: the row under the cursor has one.
pub open spec fn fill_at(i: int, cursor: int, fill: Tone) -> Option<Tone> {
    if i == cursor {
        Some(fill)
    } else {
        None
    }
}

/// How many of `n` rows show in `height` rows from row `scroll` on.
pub open spec fn visible(n: nat, scroll: nat, height: nat) -> nat {
    if scroll >= n {
        0
    } else if n - scroll < height {
        (n - scroll) as nat
    } else {
        height
    }
}

/// The visible rows of the file list.
pub open spec fn file_rows_of(
    files: Seq<FileView>,
    cursor: int,
    scroll: nat,
    width: usize,
    height: nat,
    fill: Tone,
) -> Seq<LineView> {
    Seq::new(
        visible(files.len(), scroll, height),
        |k: int|
            file_row(
                files[scroll + k].path,
                files[scroll + k].ignored,
                width,
                fill_at(scroll + k, cursor, fill),
            ),
    )
}

/// The file-list rows: one row per markdown file from row `scroll` on, as many as fit, the one
/// under the cursor filled.
pub fn file_rows(
    files: &Vec<FileEntry>,
    cursor: usize,
    scroll: usize,
    width: usize,
    height: usize,
    fill: Tone,
) -> (r: Vec<Line>)
    ensures
        style::lines_view(r@) == file_rows_of(
            file_list::files_view(files@),
            cursor as int,
            scroll as nat,
            width,
            height as nat,
            fill,
        ),
{
    let ghost view = file_list::files_view(files@);
    let mut out: Vec<Line> = Vec::new();
    let mut i: usize = scroll;
    while i < files.len() && out.len() < height
        invariant
            scroll <= i,
            i <= files@.len() || i == scroll,
            out@.len() == i - scroll,
            out@.len() <= height,
            view == file_list::files_view(files@),
            forall|k: int|
                0 <= k < out@.len() ==> (#[trigger] out@[k])@ == file_row(
                    view[scroll + k].path,
                    view[scroll + k].ignored,
                    width,
                    fill_at(scroll + k, cursor as int, fill),
                ),
        decreases files@.len() - i,
    {
        let f: &FileEntry = &files[i];
        let here: Option<Tone> = if i == cursor {
            Some(fill)
        } else {
            None
        };
        let row: Line = file_row_item(f.path.as_str(), width, here, f.ignored);
        assert(view[i as int] == f@);
        out.push(row);
        i += 1;
    }
    assert(style::lines_view(out@) =~= file_rows_of(
        view,
        cursor as int,
        scroll as nat,
        width,
        height as nat,
        fill,
    ));
    out
}

/// The spans of a comment in the comments list: who wrote it, where it belongs, what it says,
/// and whether it is resolved.
pub open spec fn comment_spans(c: StoredView) -> Seq<SpanView> {
    let author = match c.author {
        Author::Agent => style::span_of("@agent "@, Style::toned(Tone::Mauve)),
        Author::User => style::span_of("@you "@, Style::toned(Tone::Subtext0)),
    };
    let spans = seq![
        author,
        style::span_of(c.comment.location(), Style::strong(Tone::Mauve)),
        style::span_of("  "@ + c.comment.text, Style::toned(Tone::Text)),
    ];
    if c.status == Status::Resolved {
        spans.push(style::span_of("  resolved"@, Style::toned(Tone::Overlay1)))
    } else {
        spans
    }
}

/// The rows of the comments list. The list is the active modal, so its row reads at full
/// brightness.
pub open spec fn comment_rows_of(comments: Seq<StoredView>, cursor: int, width: usize) -> Seq<
    LineView,
> {
    Seq::new(
        comments.len(),
        |i: int|
            style::line_of_spans(
                row_spans(comment_spans(comments[i]), width, fill_at(i, cursor, Tone::Surface2)),
            ),
    )
}

fn comment_row(c: &StoredComment, width: usize, fill: Option<Tone>) -> (r: Line)
    ensures
        r@ == style::line_of_spans(row_spans(comment_spans(c@), width, fill)),
{
    let author: Span = match c.author {
        Author::Agent => styled("@agent ".to_owned(), Style::toned(Tone::Mauve)),
        Author::User => styled("@you ".to_owned(), Style::toned(Tone::Subtext0)),
    };
    let mut said: String = "  ".to_owned();
    said.append(c.comment.text.as_str());
    let mut spans: Vec<Span> = vec![
        author,
        styled(c.comment.location(), Style::strong(Tone::Mauve)),
        styled(said, Style::toned(Tone::Text)),
    ];
    if c.status == Status::Resolved {
        spans.push(styled("  resolved".to_owned(), Style::toned(Tone::Overlay1)));
    }
    assert(style::spans_view(spans@) =~= comment_spans(c@));
    selectable_row(spans, width, fill)
}

/// The comments-list rows: every comment, newest last, with row `cursor` filled as the active
/// one.
pub fn comment_rows(comments: &Vec<StoredComment>, cursor: usize, width: usize) -> (r: Vec<Line>)
    ensures
        style::lines_view(r@) == comment_rows_of(
            comments@.map_values(|c: StoredComment| c@),
            cursor as int,
            width,
        ),
{
    let ghost view = comments@.map_values(|c: StoredComment| c@);
    let mut out: Vec<Line> = Vec::new();
    let mut i: usize = 0;
    while i < comments.len()
        invariant
            i <= comments@.len(),
            out@.len() == i,
            view == comments@.map_values(|c: StoredComment| c@),
            forall|k: int|
                0 <= k < i ==> (#[trigger] out@[k])@ == style::line_of_spans(
                    row_spans(
                        comment_spans(view[k]),
                        width,
                        fill_at(k, cursor as int, Tone::Surface2),
                    ),
                ),
        decreases comments@.len() - i,
    {
        let fill: Option<Tone> = if i == cursor {
            Some(Tone::Surface2)
        } else {
            None
        };
        assert(view[i as int] == comments@[i as int]@);
        out.push(comment_row(&comments[i], width, fill));
        i += 1;
    }
    assert(style::lines_view(out@) =~= comment_rows_of(view, cursor as int, width));
    out
}

proof fn lemma_filled_cells(spans: Seq<SpanView>, bg: Tone)
    ensures
        ({
            let (own, filled) = (
                style::cells(spans),
                style::cells(spans.map_values(|s: SpanView| filled_span(s, bg))),
            );
            &&& own.len() == filled.len()
            &&& forall|k: int|
                0 <= k < own.len() ==> (#[trigger] filled[k]).0 == own[k].0 && filled[k].1.fg
                    == own[k].1.fg && filled[k].1.bg == Some(bg) && filled[k].1.bold
        }),
    decreases spans.len(),
{
    let f = |s: SpanView| filled_span(s, bg);
    if spans.len() > 0 {
        lemma_filled_cells(spans.drop_last(), bg);
        assert(spans.map_values(f).drop_last() =~= spans.drop_last().map_values(f));
    }
}

/// A row shows its own characters in their own colors, highlighted or not. A highlighted one is
/// filled up with spaces to the width, and every character of it stands on the fill and is bold; one
/// that is not highlighted has nothing added.
pub proof fn law_highlighting_keeps_the_row(spans: Seq<SpanView>, width: usize, fill: Option<Tone>)
    ensures
        ({
            let (own, row) = (style::cells(spans), style::cells(row_spans(spans, width, fill)));
            let used = style::spans_width(spans);
            &&& own.len() <= row.len()
            &&& forall|k: int|
                0 <= k < own.len() ==> (#[trigger] row[k]).0 == own[k].0 && row[k].1.fg
                    == own[k].1.fg
            &&& forall|k: int| own.len() <= k < row.len() ==> (#[trigger] row[k]).0 == ' '
            &&& fill is None ==> row == own
            &&& fill matches Some(bg) ==> {
                &&& row.len() - own.len() == if used < width {
                    width - used
                } else {
                    0
                }
                &&& forall|k: int|
                    0 <= k < row.len() ==> (#[trigger] row[k]).1.bg == Some(bg) && row[k].1.bold
            }
        }),
{
    let used = style::spans_width(spans);
    if let Some(bg) = fill {
        let padded = if width > used {
            spans.push(style::raw_of(text::repeated(' ', (width - used) as nat)))
        } else {
            spans
        };
        lemma_filled_cells(padded, bg);
        if width > used {
            assert(padded.drop_last() =~= spans);
        }
    }
}

proof fn lemma_base_start(s: Seq<char>, n: int)
    requires
        0 <= n <= s.len(),
    ensures
        0 <= base_start(s, n) <= n,
        base_start(s, n) > 0 ==> s[base_start(s, n) - 1] == '/',
        forall|k: int| base_start(s, n) <= k < n ==> #[trigger] s[k] != '/',
    decreases n,
{
    if n > 0 && s[n - 1] != '/' {
        lemma_base_start(s, n - 1);
    }
}

/// A file row shows the path, its head elided where it is too wide. The name of the file, which is
/// what no slash follows, is bright, or dim for an ignored file; the directories are dim.
pub proof fn law_file_rows_show_the_path(path: Seq<char>, ignored: bool, width: usize)
    ensures
        ({
            let row = style::cells(file_row(path, ignored, width, None).spans);
            let shown = elide::elided(
                path,
                if width == 0 {
                    1
                } else {
                    width
                },
            );
            &&& row.len() == shown.len()
            &&& forall|k: int|
                0 <= k < row.len() ==> (#[trigger] row[k]).0 == shown[k] && row[k].1.fg == Some(
                    if !ignored && !shown.skip(k).contains('/') {
                        Tone::Text
                    } else {
                        Tone::Overlay0
                    },
                )
        }),
{
    let shown = elide::elided(
        path,
        if width == 0 {
            1
        } else {
            width
        },
    );
    let s = file_spans(shown, ignored);
    let row = style::cells(s);
    let cut = base_start(shown, shown.len() as int);
    lemma_base_start(shown, shown.len() as int);
    let e = Seq::<SpanView>::empty();
    assert(style::cells(e) =~= Seq::empty());
    assert(e.push(s[0]).drop_last() =~= e);
    assert(style::cells(e.push(s[0])) =~= style::span_cells(s[0]));
    if cut > 0 {
        assert(s =~= e.push(s[0]).push(s[1]));
        assert(s.drop_last() =~= e.push(s[0]));
        assert(row =~= style::span_cells(s[0]) + style::span_cells(s[1]));
    } else {
        assert(s =~= e.push(s[0]));
    }
    assert forall|k: int| 0 <= k < row.len() implies (#[trigger] row[k]).0 == shown[k]
        && row[k].1.fg == Some(
        if !ignored && !shown.skip(k).contains('/') {
            Tone::Text
        } else {
            Tone::Overlay0
        },
    ) by {
        let tail = shown.skip(k);
        if k < cut {
            assert(tail[cut - 1 - k] == '/');
        } else if tail.contains('/') {
            let j = choose|j: int| 0 <= j < tail.len() && tail[j] == '/';
            assert(shown[k + j] == '/');
        }
    }
}

/// The file list shows the files from row `scroll` on in their order, as many as fit and no more than
/// there are, and highlights the one under the cursor alone.
pub proof fn law_file_list_shows_a_window(
    files: Seq<FileView>,
    cursor: int,
    scroll: nat,
    width: usize,
    height: nat,
    fill: Tone,
)
    ensures
        ({
            let rows = file_rows_of(files, cursor, scroll, width, height, fill);
            let n = rows.len();
            &&& n <= height
            &&& n > 0 ==> scroll + n <= files.len()
            &&& n == height || scroll + n >= files.len()
            &&& forall|k: int|
                0 <= k < n ==> #[trigger] rows[k] == file_row(
                    files[scroll + k].path,
                    files[scroll + k].ignored,
                    width,
                    if scroll + k == cursor {
                        Some(fill)
                    } else {
                        None
                    },
                )
        }),
{
}

/// A row of the comments list says who wrote the comment, where it belongs, what it says in full, and
/// whether it is resolved; there is one row for each comment, in order, and the highlighted one is
/// the one under the cursor.
pub proof fn law_comment_rows_show_the_comments(
    comments: Seq<StoredView>,
    cursor: int,
    width: usize,
    i: int,
)
    requires
        0 <= i < comments.len(),
    ensures
        ({
            let rows = comment_rows_of(comments, cursor, width);
            let c = comments[i];
            let said = (match c.author {
                Author::Agent => seq!['@', 'a', 'g', 'e', 'n', 't', ' '],
                Author::User => seq!['@', 'y', 'o', 'u', ' '],
            }) + c.comment.location() + seq![' ', ' '] + c.comment.text + if c.status
                == Status::Resolved {
                seq![' ', ' ', 'r', 'e', 's', 'o', 'l', 'v', 'e', 'd']
            } else {
                Seq::empty()
            };
            let shown = style::cells(rows[i].spans);
            &&& rows.len() == comments.len()
            &&& said.len() <= shown.len()
            &&& forall|k: int| 0 <= k < said.len() ==> (#[trigger] shown[k]).0 == said[k]
            &&& forall|k: int| said.len() <= k < shown.len() ==> (#[trigger] shown[k]).0 == ' '
            &&& forall|k: int|
                0 <= k < shown.len() ==> ((#[trigger] shown[k]).1.bg is Some <==> i == cursor)
        }),
{
    reveal_strlit("@agent ");
    reveal_strlit("@you ");
    reveal_strlit("  ");
    reveal_strlit("  resolved");
    let c = comments[i];
    let s = comment_spans(c);
    let fill = fill_at(i, cursor, Tone::Surface2);
    law_highlighting_keeps_the_row(s, width, fill);
    let said = (match c.author {
        Author::Agent => seq!['@', 'a', 'g', 'e', 'n', 't', ' '],
        Author::User => seq!['@', 'y', 'o', 'u', ' '],
    }) + c.comment.location() + seq![' ', ' '] + c.comment.text + if c.status == Status::Resolved {
        seq![' ', ' ', 'r', 'e', 's', 'o', 'l', 'v', 'e', 'd']
    } else {
        Seq::empty()
    };
    let e = Seq::<SpanView>::empty();
    assert(style::text_of(e) =~= Seq::empty());
    style::law_widths_add_up(e, s[0]);
    style::law_widths_add_up(e.push(s[0]), s[1]);
    style::law_widths_add_up(e.push(s[0]).push(s[1]), s[2]);
    let three = e.push(s[0]).push(s[1]).push(s[2]);
    if c.status == Status::Resolved {
        style::law_widths_add_up(three, s[3]);
        assert(s =~= three.push(s[3]));
    } else {
        assert(s =~= three);
    }
    assert(style::text_of(s) =~= said);
    style::law_text_is_the_characters(s);
    let own = style::cells(s);
    assert(forall|k: int| 0 <= k < own.len() ==> (#[trigger] own[k]).0 == said[k]);
    lemma_plain_spans(s);
}

proof fn lemma_plain_spans(spans: Seq<SpanView>)
    ensures
        (forall|k: int| 0 <= k < spans.len() ==> (#[trigger] spans[k]).style.bg is None) ==> forall|
            k: int,
        |
            0 <= k < style::cells(spans).len() ==> (#[trigger] style::cells(spans)[k]).1.bg is None,
    decreases spans.len(),
{
    if spans.len() > 0 {
        let rest = spans.drop_last();
        lemma_plain_spans(rest);
        if forall|k: int| 0 <= k < spans.len() ==> (#[trigger] spans[k]).style.bg is None {
            assert forall|k: int| 0 <= k < rest.len() implies (#[trigger] rest[k]).style.bg
                is None by {
                assert(rest[k] == spans[k]);
            }
            assert(spans[spans.len() - 1].style.bg is None);
        }
    }
}

} // verus!
