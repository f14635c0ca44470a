//! Laying a document out as rows: word-wrapping styled lines and flattening blocks.
use crate::composer;
use crate::composer::box_wrap;
use crate::markdown;
use crate::markdown::{BlockView, Document, RenderRow, RowView};
use crate::style;
use crate::style::{Line, LineView, chars_of_spans, cut_spans};
use crate::text;
use crate::text::{chars_of, string_of};
use crate::width;
use vstd::prelude::*;

verus! {

/// The rows of a styled line wrapped to `w` columns: its text wrapped, each row with the styles
/// of the characters that it holds.
pub open spec fn wrapped_line(line: LineView, w: nat) -> Seq<LineView> {
    composer::wrapped(style::text_of(line.spans), w).map_values(
        |r: (int, int)|
            LineView { spans: style::cut(line.spans, r.0, r.1), fill: line.fill },
    )
}

/// Greedy word-wrap of a styled line into `width` columns: breaks after the last space that
/// fits, and inside a word where none does.
pub fn wrap_line(line: &Line, width: usize) -> (r: Vec<Line>)
    ensures
        style::lines_view(r@) == wrapped_line(line@, composer::wrap_width(width)),
{
    let chars: Vec<char> = chars_of_spans(&line.spans);
    let ranges: Vec<(usize, usize)> = box_wrap(chars.as_slice(), width);
    let ghost w = composer::wrap_width(width);
    let ghost view = composer::ranges_view(ranges@);
    let mut out: Vec<Line> = Vec::new();
    let mut i: usize = 0;
    proof {
        composer::lemma_wrapped(chars@, w);
    }
    let _total: usize = chars.len();
    while i < ranges.len()
        invariant
            i <= ranges@.len(),
            chars@ == style::text_of(style::spans_view(line.spans@)),
            chars@.len() == _total,
            view == composer::ranges_view(ranges@),
            view == composer::wrapped(chars@, w),
            forall|k: int|
                0 <= k < view.len() ==> 0 <= (#[trigger] view[k]).0 <= view[k].1 <= chars@.len(),
            out@.len() == i,
            forall|k: int|
                0 <= k < i ==> (#[trigger] out@[k])@ == (LineView {
                    spans: style::cut(line@.spans, view[k].0, view[k].1),
                    fill: line@.fill,
                }),
        decreases ranges@.len() - i,
    {
        let (a, b): (usize, usize) = ranges[i];
        assert(view[i as int] == (a as int, b as int));
        out.push(Line { spans: cut_spans(&line.spans, a, b), fill: line.fill });
        i += 1;
    }
    assert(style::lines_view(out@) =~= wrapped_line(line@, w));
    out
}

/// The pieces of a plain text wrapped to `w` columns.
pub open spec fn wrapped_text(s: Seq<char>, w: nat) -> Seq<Seq<char>> {
    composer::wrapped(s, w).map_values(|r: (int, int)| s.subrange(r.0, r.1))
}

/// Word-wrap a plain string to `width` columns by the same break rule as [`wrap_line`] (last
/// space, hard-break an over-wide word, width-aware), so it matches the doc body exactly.
pub fn wrap_text(s: &str, width: usize) -> (r: Vec<String>)
    ensures
        text::contents(r@) == wrapped_text(s@, composer::wrap_width(width)),
{
    let chars: Vec<char> = chars_of(s);
    let ranges: Vec<(usize, usize)> = box_wrap(chars.as_slice(), width);
    let ghost w = composer::wrap_width(width);
    let ghost view = composer::ranges_view(ranges@);
    let mut out: Vec<String> = Vec::new();
    let mut i: usize = 0;
    proof {
        composer::lemma_wrapped(chars@, w);
    }
    while i < ranges.len()
        invariant
            i <= ranges@.len(),
            chars@ == s@,
            view == composer::ranges_view(ranges@),
            view == composer::wrapped(chars@, w),
            forall|k: int|
                0 <= k < view.len() ==> 0 <= (#[trigger] view[k]).0 <= view[k].1 <= chars@.len(),
            out@.len() == i,
            forall|k: int|
                0 <= k < i ==> (#[trigger] out@[k])@ == s@.subrange(view[k].0, view[k].1),
        decreases ranges@.len() - i,
    {
        let (a, b): (usize, usize) = ranges[i];
        assert(view[i as int] == (a as int, b as int));
        out.push(string_of(&chars, a, b));
        i += 1;
    }
    assert(text::contents(out@) =~= wrapped_text(s@, w));
    out
}

/// Wrapping a plain text is wrapping it as a line of one span.
pub proof fn law_wrap_text_is_wrap_line(s: Seq<char>, look: style::Style, w: nat)
    ensures
        ({
            let line = style::line_of_spans(seq![style::span_of(s, look)]);
            &&& wrapped_line(line, w).len() == wrapped_text(s, w).len()
            &&& forall|k: int|
                0 <= k < wrapped_text(s, w).len() ==> style::text_of(
                    (#[trigger] wrapped_line(line, w)[k]).spans,
                ) == wrapped_text(s, w)[k]
        }),
{
    let spans = seq![style::span_of(s, look)];
    let line = style::line_of_spans(spans);
    assert(spans.drop_last() =~= Seq::empty());
    assert(style::text_of(spans.drop_last()) =~= Seq::empty());
    assert(style::text_of(spans) =~= s);
    composer::lemma_wrapped(s, w);
    assert forall|k: int| 0 <= k < wrapped_text(s, w).len() implies style::text_of(
        (#[trigger] wrapped_line(line, w)[k]).spans,
    ) == wrapped_text(s, w)[k] by {
        let (a, b) = composer::wrapped(s, w)[k];
        style::law_cut_keeps_the_text(spans, a, b);
    }
}

/// The rows that one line of a block is painted as.
pub open spec fn painted(line: LineView, width: usize, wrap: bool) -> Seq<LineView> {
    if wrap {
        wrapped_line(line, composer::wrap_width(width))
    } else {
        seq![line]
    }
}

/// `lines` as rows of block `block`; `first` where the block has no row before them.
pub open spec fn marked(lines: Seq<LineView>, block: int, first: bool) -> Seq<RowView> {
    Seq::new(
        lines.len(),
        |k: int| RowView { line: lines[k], block, first_of_block: first && k == 0 },
    )
}

/// The rows of the first `n` lines of block `block`.
pub open spec fn block_rows(
    lines: Seq<LineView>,
    n: int,
    block: int,
    width: usize,
    wrap: bool,
) -> Seq<RowView>
    decreases n,
{
    if n <= 0 {
        Seq::empty()
    } else {
        block_rows(lines, n - 1, block, width, wrap) + marked(
            painted(lines[n - 1], width, wrap),
            block,
            n == 1,
        )
    }
}

/// The rows of the first `n` blocks.
pub open spec fn doc_rows(blocks: Seq<BlockView>, n: int, width: usize, wrap: bool) -> Seq<RowView>
    decreases n,
{
    if n <= 0 {
        Seq::empty()
    } else {
        doc_rows(blocks, n - 1, width, wrap) + block_rows(
            blocks[n - 1].rendered,
            blocks[n - 1].rendered.len() as int,
            n - 1,
            width,
            wrap,
        )
    }
}

/// The rows of a document.
pub open spec fn laid_rows(blocks: Seq<BlockView>, width: usize, wrap: bool) -> Seq<RowView> {
    doc_rows(blocks, blocks.len() as int, width, wrap)
}

fn push_rows(out: &mut Vec<RenderRow>, lines: Vec<Line>, block: usize, first: bool)
    ensures
        markdown::rows_view(final(out)@) == markdown::rows_view(old(out)@) + marked(
            style::lines_view(lines@),
            block as int,
            first,
        ),
{
    let ghost given = lines@;
    let ghost start = out@;
    let ghost added = marked(style::lines_view(given), block as int, first);
    let mut fresh: bool = first;
    assert(markdown::rows_view(out@) =~= markdown::rows_view(start) + added.take(0));
    for line in it: lines
        invariant
            it.seq() == given,
            added == marked(style::lines_view(given), block as int, first),
            fresh == (first && it.index() == 0),
            markdown::rows_view(out@) == markdown::rows_view(start) + added.take(
                it.index() as int,
            ),
    {
        let ghost before = out@;
        let ghost k = it.index() as int;
        let row: RenderRow = RenderRow { line, block, first_of_block: fresh };
        assert(row@ == added[k]);
        out.push(row);
        assert(added.take(k + 1) =~= added.take(k).push(added[k]));
        assert(markdown::rows_view(out@) =~= markdown::rows_view(before).push(row@));
        fresh = false;
    }
    assert(added.take(given.len() as int) =~= added);
}

/// Flatten the blocks of `doc` to rows. With `wrap`, each line expands to its wrapped rows;
/// without, it is one row.
pub fn layout_rows(doc: &Document, width: usize, wrap: bool) -> (r: Vec<RenderRow>)
    ensures
        markdown::rows_view(r@) == laid_rows(markdown::blocks_view(doc.blocks@), width, wrap),
{
    let ghost blocks = markdown::blocks_view(doc.blocks@);
    let mut out: Vec<RenderRow> = Vec::new();
    let mut b: usize = 0;
    assert(markdown::rows_view(out@) =~= Seq::empty());
    while b < doc.blocks.len()
        invariant
            b <= doc.blocks@.len(),
            blocks == markdown::blocks_view(doc.blocks@),
            markdown::rows_view(out@) == doc_rows(blocks, b as int, width, wrap),
        decreases doc.blocks@.len() - b,
    {
        let rendered: &Vec<Line> = &doc.blocks[b].rendered;
        let ghost lines = style::lines_view(rendered@);
        let ghost before = markdown::rows_view(out@);
        let mut l: usize = 0;
        assert(before + block_rows(lines, 0, b as int, width, wrap) =~= before);
        while l < rendered.len()
            invariant
                l <= rendered@.len(),
                lines == style::lines_view(rendered@),
                markdown::rows_view(out@) == before + block_rows(
                    lines,
                    l as int,
                    b as int,
                    width,
                    wrap,
                ),
            decreases rendered@.len() - l,
        {
            let segments: Vec<Line> = if wrap {
                wrap_line(&rendered[l], width)
            } else {
                vec![rendered[l].copied()]
            };
            assert(style::lines_view(segments@) =~= painted(lines[l as int], width, wrap));
            push_rows(&mut out, segments, b, l == 0);
            assert(markdown::rows_view(out@) =~= before + block_rows(
                lines,
                l + 1,
                b as int,
                width,
                wrap,
            ));
            l += 1;
        }
        b += 1;
    }
    out
}

proof fn lemma_block_rows(
    lines: Seq<LineView>,
    n: int,
    block: int,
    width: usize,
    wrap: bool,
)
    requires
        0 <= n,
    ensures
        n > 0 ==> block_rows(lines, n, block, width, wrap).len() > 0,
        forall|k: int|
            0 <= k < block_rows(lines, n, block, width, wrap).len() ==> {
                let r = #[trigger] block_rows(lines, n, block, width, wrap)[k];
                r.block == block && r.first_of_block == (k == 0)
            },
    decreases n,
{
    if n > 0 {
        lemma_block_rows(lines, n - 1, block, width, wrap);
        composer::lemma_wrapped(
            style::text_of(lines[n - 1].spans),
            composer::wrap_width(width),
        );
        assert(painted(lines[n - 1], width, wrap).len() > 0);
    }
}

/// Whether rows come in the order of their blocks, and a row is marked as the first of its block
/// exactly where the row before it belongs to another block.
pub open spec fn rows_in_order(rows: Seq<RowView>) -> bool {
    &&& rows.len() > 0 ==> rows[0].first_of_block
    &&& forall|k: int, l: int|
        0 <= k && l == k + 1 && l < rows.len() ==> {
            &&& (#[trigger] rows[k]).block <= (#[trigger] rows[l]).block
            &&& rows[l].first_of_block == (rows[k].block != rows[l].block)
        }
}

proof fn lemma_doc_rows(blocks: Seq<BlockView>, n: int, width: usize, wrap: bool)
    requires
        0 <= n <= blocks.len(),
    ensures
        rows_in_order(doc_rows(blocks, n, width, wrap)),
        forall|k: int|
            0 <= k < doc_rows(blocks, n, width, wrap).len() ==> 0 <= (#[trigger] doc_rows(
                blocks,
                n,
                width,
                wrap,
            )[k]).block < n,
    decreases n,
{
    if n > 0 {
        lemma_doc_rows(blocks, n - 1, width, wrap);
        let lines = blocks[n - 1].rendered;
        lemma_block_rows(lines, lines.len() as int, n - 1, width, wrap);
        let first = doc_rows(blocks, n - 1, width, wrap);
        let rest = block_rows(lines, lines.len() as int, n - 1, width, wrap);
        let all = doc_rows(blocks, n, width, wrap);
        assert(all == first + rest);
        assert forall|k: int| 0 <= k < all.len() implies 0 <= (#[trigger] all[k]).block < n by {
            if k < first.len() {
                assert(all[k] == first[k]);
            } else {
                assert(all[k] == rest[k - first.len()]);
            }
        }
        assert forall|k: int, l: int| 0 <= k && l == k + 1 && l < all.len() implies {
            &&& (#[trigger] all[k]).block <= (#[trigger] all[l]).block
            &&& all[l].first_of_block == (all[k].block != all[l].block)
        } by {
            if l < first.len() {
                assert(all[k] == first[k] && all[l] == first[l]);
            } else if k < first.len() {
                assert(all[k] == first[k] && all[l] == rest[0]);
            } else {
                assert(all[k] == rest[k - first.len()] && all[l] == rest[l - first.len()]);
            }
        }
        if first.len() > 0 {
            assert(all[0] == first[0]);
        } else if rest.len() > 0 {
            assert(all[0] == rest[0]);
        }
    }
}

/// The rows of a document come block by block; each names a block of the document, and the
/// first row of a block is marked, no other.
pub proof fn law_rows_follow_blocks(blocks: Seq<BlockView>, width: usize, wrap: bool)
    ensures
        rows_in_order(laid_rows(blocks, width, wrap)),
        forall|k: int|
            0 <= k < laid_rows(blocks, width, wrap).len() ==> 0 <= (#[trigger] laid_rows(
                blocks,
                width,
                wrap,
            )[k]).block < blocks.len(),
{
    lemma_doc_rows(blocks, blocks.len() as int, width, wrap);
}

/// The characters of `lines` one by one, line after line, each with its style.
pub open spec fn cells_of(lines: Seq<LineView>) -> Seq<(char, style::Style)>
    decreases lines.len(),
{
    if lines.len() == 0 {
        Seq::empty()
    } else {
        cells_of(lines.drop_last()) + style::cells(lines.last().spans)
    }
}

proof fn lemma_cut_cells(spans: Seq<style::SpanView>, rows: Seq<(int, int)>, fill: Option<style::Tone>)
    requires
        rows.len() > 0 ==> composer::tile(rows, rows[0].0, rows.last().1),
        forall|k: int|
            0 <= k < rows.len() ==> 0 <= (#[trigger] rows[k]).0 <= rows[k].1 <= style::cells(
                spans,
            ).len(),
    ensures
        rows.len() > 0 ==> cells_of(
            rows.map_values(
                |r: (int, int)| LineView { spans: style::cut(spans, r.0, r.1), fill },
            ),
        ) == style::cells(spans).subrange(rows[0].0, rows.last().1),
    decreases rows.len(),
{
    let f = |r: (int, int)| LineView { spans: style::cut(spans, r.0, r.1), fill };
    let lines = rows.map_values(f);
    let all = style::cells(spans);
    if rows.len() > 0 {
        let rest = rows.drop_last();
        let (a, b) = rows.last();
        assert(rows[rows.len() - 1] == (a, b));
        style::law_cut_keeps_the_paint(spans, a, b);
        assert(lines.drop_last() =~= rest.map_values(f));
        if rest.len() > 0 {
            assert(composer::tile(rest, rest[0].0, rest.last().1)) by {
                assert forall|k: int| 0 <= k < rest.len() implies rest[0].0 <= (
                #[trigger] rest[k]).0 < rest[k].1 <= rest.last().1 by {
                    assert(rest[k] == rows[k]);
                    lemma_rows_ascend(rows, k, rest.len() - 1);
                }
                assert forall|k: int, l: int| 0 <= k && l == k + 1 && l < rest.len() implies (
                #[trigger] rest[k]).1 == (#[trigger] rest[l]).0 by {
                    assert(rest[k] == rows[k] && rest[l] == rows[l]);
                }
            }
            assert forall|k: int| 0 <= k < rest.len() implies 0 <= (#[trigger] rest[k]).0
                <= rest[k].1 <= all.len() by {
                assert(rest[k] == rows[k]);
            }
            lemma_cut_cells(spans, rest, fill);
            let (x, y) = (rows[rows.len() - 2], rows[rows.len() - 1]);
            assert(x.1 == y.0);
            assert(cells_of(lines) =~= all.subrange(rows[0].0, rows.last().1));
        } else {
            assert(cells_of(lines.drop_last()) =~= Seq::empty());
            assert(cells_of(lines) =~= all.subrange(rows[0].0, rows.last().1));
        }
    }
}

proof fn lemma_rows_ascend(rows: Seq<(int, int)>, k: int, l: int)
    requires
        rows.len() > 0,
        composer::tile(rows, rows[0].0, rows.last().1),
        0 <= k <= l < rows.len(),
    ensures
        rows[k].1 <= rows[l].1,
    decreases l - k,
{
    if k < l {
        lemma_rows_ascend(rows, k, l - 1);
        assert(rows[l - 1].1 == rows[l].0);
    }
}

/// Wrapping a line loses nothing and changes no style: read one after the other, its rows are the
/// characters of the line, each painted as before. No row is wider than `w` columns unless it is a
/// single character, and each has the fill of the line.
pub proof fn law_wrapping_keeps_the_line(line: LineView, w: nat)
    ensures
        cells_of(wrapped_line(line, w)) == style::cells(line.spans),
        wrapped_line(line, w).len() > 0,
        forall|k: int|
            0 <= k < wrapped_line(line, w).len() ==> (#[trigger] wrapped_line(line, w)[k]).fill
                == line.fill,
        forall|k: int|
            0 <= k < wrapped_line(line, w).len() ==> {
                let t = style::text_of((#[trigger] wrapped_line(line, w)[k]).spans);
                t.len() > 1 ==> width::columns(t, 0, t.len() as int) <= w
            },
{
    let chars = style::text_of(line.spans);
    let rows = composer::wrapped(chars, w);
    let all = style::cells(line.spans);
    style::law_text_is_the_characters(line.spans);
    composer::lemma_wrapped(chars, w);
    if chars.len() > 0 {
        composer::law_wrap_covers_each_char_once(chars, w);
        lemma_cut_cells(line.spans, rows, line.fill);
        assert(all.subrange(0, all.len() as int) =~= all);
    } else {
        let one = wrapped_line(line, w);
        assert(one.drop_last() =~= Seq::empty());
        style::law_cut_keeps_the_paint(line.spans, 0, 0);
        assert(rows[0] == (0int, 0int));
        assert(one.last().spans == style::cut(line.spans, 0, 0));
        assert(cells_of(one.drop_last()) =~= Seq::empty());
        assert(cells_of(one) =~= all);
    }
    assert forall|k: int| 0 <= k < wrapped_line(line, w).len() implies {
        let t = style::text_of((#[trigger] wrapped_line(line, w)[k]).spans);
        t.len() > 1 ==> width::columns(t, 0, t.len() as int) <= w
    } by {
        let (a, b) = rows[k];
        style::law_cut_keeps_the_text(line.spans, a, b);
        if b > a + 1 {
            lemma_columns_of_part(chars, a, b, b);
        }
    }
}

proof fn lemma_columns_of_part(chars: Seq<char>, a: int, b: int, i: int)
    requires
        0 <= a <= i <= b <= chars.len(),
    ensures
        width::columns(chars.subrange(a, b), 0, i - a) == width::columns(chars, a, i),
    decreases i - a,
{
    if a < i {
        lemma_columns_of_part(chars, a, b, i - 1);
    }
}

/// The lines of `rows`.
pub open spec fn lines_of(rows: Seq<RowView>) -> Seq<LineView> {
    rows.map_values(|r: RowView| r.line)
}

/// A document is laid out block by block: one more block adds its rows behind those of the others
/// and changes none of them. Without wrapping these are the lines of the block as they are.
pub proof fn law_blocks_are_laid_out_in_turn(
    blocks: Seq<BlockView>,
    x: BlockView,
    width: usize,
    wrap: bool,
)
    ensures
        ({
            let (before, after) = (
                laid_rows(blocks, width, wrap),
                laid_rows(blocks.push(x), width, wrap),
            );
            let n = before.len() as int;
            &&& n <= after.len()
            &&& after.take(n) == before
            &&& forall|k: int| n <= k < after.len() ==> (#[trigger] after[k]).block == blocks.len()
            &&& x.rendered.len() == 0 ==> after.len() == n
            &&& !wrap ==> lines_of(after.skip(n)) == x.rendered
        }),
        laid_rows(Seq::empty(), width, wrap).len() == 0,
{
    let m = blocks.len() as int;
    let more = blocks.push(x);
    lemma_same_rows(blocks, more, m, width, wrap);
    let before = laid_rows(blocks, width, wrap);
    let after = laid_rows(more, width, wrap);
    let added = block_rows(x.rendered, x.rendered.len() as int, m, width, wrap);
    lemma_block_rows(x.rendered, x.rendered.len() as int, m, width, wrap);
    assert(after == before + added);
    assert(after.take(before.len() as int) =~= before);
    assert(after.skip(before.len() as int) =~= added);
    assert forall|k: int| before.len() <= k < after.len() implies (#[trigger] after[k]).block
        == m by {
        assert(after[k] == added[k - before.len()]);
    }
    if !wrap {
        lemma_plain_rows(x.rendered, x.rendered.len() as int, m, width);
        assert(x.rendered.take(x.rendered.len() as int) =~= x.rendered);
    }
}

/// One more line in the last block adds the rows of that line at the end: the line itself, or its
/// wrapped rows.
pub proof fn law_lines_are_laid_out_in_turn(
    blocks: Seq<BlockView>,
    x: BlockView,
    line: LineView,
    width: usize,
    wrap: bool,
)
    ensures
        ({
            let y = BlockView { rendered: x.rendered.push(line), ..x };
            let before = lines_of(laid_rows(blocks.push(x), width, wrap));
            let after = lines_of(laid_rows(blocks.push(y), width, wrap));
            let w = if width == 0 {
                1
            } else {
                width as nat
            };
            after == before + if wrap {
                wrapped_line(line, w)
            } else {
                seq![line]
            }
        }),
{
    let y = BlockView { rendered: x.rendered.push(line), ..x };
    let m = blocks.len() as int;
    let n = x.rendered.len() as int;
    lemma_same_rows(blocks.push(x), blocks.push(y), m, width, wrap);
    lemma_same_block_rows(x.rendered, y.rendered, n, m, width, wrap);
    let before = laid_rows(blocks.push(x), width, wrap);
    let after = laid_rows(blocks.push(y), width, wrap);
    let more = marked(painted(line, width, wrap), m, n == 0);
    assert(after =~= before + more);
    assert(lines_of(more) =~= painted(line, width, wrap));
    assert(lines_of(after) =~= lines_of(before) + painted(line, width, wrap));
}

proof fn lemma_same_rows(
    a: Seq<BlockView>,
    b: Seq<BlockView>,
    n: int,
    width: usize,
    wrap: bool,
)
    requires
        0 <= n <= a.len(),
        n <= b.len(),
        forall|k: int| 0 <= k < n ==> #[trigger] a[k] == b[k],
    ensures
        doc_rows(a, n, width, wrap) == doc_rows(b, n, width, wrap),
    decreases n,
{
    if n > 0 {
        lemma_same_rows(a, b, n - 1, width, wrap);
        assert(a[n - 1] == b[n - 1]);
    }
}

proof fn lemma_same_block_rows(
    a: Seq<LineView>,
    b: Seq<LineView>,
    n: int,
    block: int,
    width: usize,
    wrap: bool,
)
    requires
        0 <= n <= a.len(),
        n <= b.len(),
        forall|k: int| 0 <= k < n ==> #[trigger] a[k] == b[k],
    ensures
        block_rows(a, n, block, width, wrap) == block_rows(b, n, block, width, wrap),
    decreases n,
{
    if n > 0 {
        lemma_same_block_rows(a, b, n - 1, block, width, wrap);
        assert(a[n - 1] == b[n - 1]);
    }
}

proof fn lemma_plain_rows(lines: Seq<LineView>, n: int, block: int, width: usize)
    requires
        0 <= n <= lines.len(),
    ensures
        lines_of(block_rows(lines, n, block, width, false)) == lines.take(n),
    decreases n,
{
    if n > 0 {
        lemma_plain_rows(lines, n - 1, block, width);
        let rest = block_rows(lines, n - 1, block, width, false);
        let last = marked(painted(lines[n - 1], width, false), block, n == 1);
        assert(lines_of(rest + last) =~= lines_of(rest) + lines_of(last));
        assert(lines_of(last) =~= seq![lines[n - 1]]);
        assert(lines.take(n) =~= lines.take(n - 1).push(lines[n - 1]));
    } else {
        assert(lines_of(block_rows(lines, n, block, width, false)) =~= lines.take(n));
    }
}

} // verus!
