//! Rendering blocks to styled lines.
use crate::events;
use crate::fold;
use crate::fold::parse_blocks;
use crate::markdown;
use crate::markdown::{Block, BlockKind, BlockKindView, BlockView, Document, Inline, InlineView};
use crate::style;
use crate::style::{
    Line, LineView, Span, SpanView, Style, Tone, line, raw, styled, width_of_spans,
};
use crate::text;
use crate::text::{chars_of, repeat_char, split_text_lines};
use vstd::prelude::*;

verus! {

/// `lines` with `span` at the end of the last line.
pub open spec fn put(lines: Seq<Seq<SpanView>>, span: SpanView) -> Seq<Seq<SpanView>> {
    lines.drop_last().push(lines.last().push(span))
}

/// `look` in italics.
pub open spec fn slanted(look: Style) -> Style {
    Style { italic: true, ..look }
}

/// `look` in bold.
pub open spec fn heavy(look: Style) -> Style {
    Style { bold: true, ..look }
}

/// `look` crossed out.
pub open spec fn struck(look: Style) -> Style {
    Style { crossed: true, ..look }
}

/// `lines` with the inline content `nodes` behind them, in `look`.
pub open spec fn flowed(
    lines: Seq<Seq<SpanView>>,
    nodes: Seq<InlineView>,
    look: Style,
) -> Seq<Seq<SpanView>>
    decreases nodes,
{
    if nodes.len() == 0 {
        lines
    } else {
        flowed_one(flowed(lines, nodes.drop_last(), look), nodes.last(), look)
    }
}

/// `lines` with one inline node behind them, in `look`: a soft break is a space, a hard break
/// opens a new line, a link shows its label and its address, an image its text.
pub open spec fn flowed_one(
    lines: Seq<Seq<SpanView>>,
    node: InlineView,
    look: Style,
) -> Seq<Seq<SpanView>>
    decreases node,
{
    match node {
        InlineView::Text(t) => put(lines, style::span_of(t, look)),
        InlineView::Code(t) => put(lines, style::span_of(t, Style::toned(Tone::Green))),
        InlineView::Emph(v) => flowed(lines, v, slanted(look)),
        InlineView::Strong(v) => flowed(lines, v, heavy(look)),
        InlineView::Strike(v) => flowed(lines, v, struck(look)),
        InlineView::Link { label, url } => put(
            flowed(lines, label, look),
            style::span_of(" ("@ + url + ")"@, Style::toned(Tone::Overlay0)),
        ),
        InlineView::Image { alt } => put(
            put(lines, style::span_of("image: "@, Style::toned(Tone::Overlay0))),
            style::span_of(alt, look),
        ),
        InlineView::SoftBreak => put(lines, style::span_of(" "@, look)),
        InlineView::HardBreak => lines.push(Seq::empty()),
    }
}

/// The style of a heading's text.
pub open spec fn heading_look(level: u8) -> Style {
    Style::strong(
        if level == 1 {
            Tone::Mauve
        } else if level == 2 {
            Tone::Blue
        } else {
            Tone::Text
        },
    )
}

/// The mark in front of a list item: a check box for a task, the number of an ordered item, a
/// bullet for another.
pub open spec fn item_mark(ordered: bool, marker: Seq<char>, task: Option<bool>) -> Seq<char> {
    match task {
        Some(true) => "[x]"@,
        Some(false) => "[ ]"@,
        None => if ordered {
            marker
        } else {
            "•"@
        },
    }
}

/// The style of a table row's text.
pub open spec fn row_look(header: bool) -> Style {
    if header {
        Style::strong(Tone::Text)
    } else {
        Style::toned(Tone::Text)
    }
}

/// The columns of the screen that a table cell takes.
pub open spec fn cell_columns(cell: Seq<InlineView>, look: Style) -> usize {
    style::capped(style::spans_width(flowed(seq![Seq::empty()], cell, look).last()))
}

/// The columns of the screen that each cell of a table row takes; a block of another kind has no
/// cells.
pub open spec fn row_columns(kind: BlockKindView) -> Seq<usize> {
    match kind {
        BlockKindView::TableRow { header, cells } => cells.map_values(
            |cell: Seq<InlineView>| cell_columns(cell, row_look(header)),
        ),
        _ => Seq::empty(),
    }
}

/// The greater of `a` and `b` in each place; what only one of them has stays.
pub open spec fn widest(a: Seq<usize>, b: Seq<usize>) -> Seq<usize> {
    Seq::new(
        if a.len() < b.len() {
            b.len()
        } else {
            a.len()
        },
        |c: int|
            if c >= b.len() || c < a.len() && b[c] < a[c] {
                a[c]
            } else {
                b[c]
            },
    )
}

/// The columns of the screen that the widest cell of each table column takes in the rows
/// `blocks[from..to]`.
pub open spec fn table_columns(blocks: Seq<BlockView>, from: int, to: int) -> Seq<usize>
    decreases to - from,
{
    if to <= from {
        Seq::empty()
    } else {
        widest(table_columns(blocks, from, to - 1), row_columns(blocks[to - 1].kind))
    }
}

/// Whether block `i` is a row of the same table as the block before it: a header row opens a
/// table of its own.
pub open spec fn goes_on(blocks: Seq<BlockView>, i: int) -> bool {
    &&& 0 < i < blocks.len()
    &&& blocks[i - 1].kind is TableRow
    &&& blocks[i].kind matches BlockKindView::TableRow { header, .. } && !header
}

/// The first row of the table that row `i` belongs to.
pub open spec fn table_start(blocks: Seq<BlockView>, i: int) -> int
    decreases i,
{
    if goes_on(blocks, i) {
        table_start(blocks, i - 1)
    } else {
        i
    }
}

/// The block behind the last row of the table that row `i` belongs to.
pub open spec fn table_end(blocks: Seq<BlockView>, i: int) -> int
    decreases blocks.len() - i,
{
    if goes_on(blocks, i + 1) {
        table_end(blocks, i + 1)
    } else {
        i + 1
    }
}

/// How wide each column is in the table that row `i` belongs to.
pub open spec fn columns_at(blocks: Seq<BlockView>, i: int) -> Seq<usize> {
    table_columns(blocks, table_start(blocks, i), table_end(blocks, i))
}

/// How many spaces stand behind cell `n` of a table row whose columns are `columns` wide: as many
/// as the cell is narrower than its column, and none behind the last cell.
pub open spec fn cell_gap(
    cells: Seq<Seq<InlineView>>,
    n: int,
    look: Style,
    columns: Seq<usize>,
) -> nat {
    if n + 1 < cells.len() && n < columns.len() && cell_columns(cells[n], look) < columns[n] {
        (columns[n] - cell_columns(cells[n], look)) as nat
    } else {
        0
    }
}

/// The cells `cells[..n]` of a table row, side by side, each filling its column.
pub open spec fn flowed_cells(
    cells: Seq<Seq<InlineView>>,
    n: int,
    look: Style,
    columns: Seq<usize>,
) -> Seq<Seq<SpanView>>
    decreases n,
{
    if n <= 0 {
        seq![Seq::empty()]
    } else {
        let rest = flowed_cells(cells, n - 1, look, columns);
        let apart = if n > 1 {
            put(rest, style::span_of(" │ "@, Style::toned(Tone::Overlay0)))
        } else {
            rest
        };
        let filled = flowed(apart, cells[n - 1], look);
        let gap = cell_gap(cells, n - 1, look, columns);
        if gap > 0 {
            put(filled, style::raw_of(text::repeated(' ', gap)))
        } else {
            filled
        }
    }
}

/// Each of `lines` with `span` in front.
pub open spec fn prefixed(lines: Seq<Seq<SpanView>>, span: SpanView) -> Seq<Seq<SpanView>> {
    lines.map_values(|l: Seq<SpanView>| seq![span] + l)
}

/// The spans of each line of a block; the columns of a table row are `columns` wide.
pub open spec fn block_spans(
    kind: BlockKindView,
    inlines: Seq<InlineView>,
    columns: Seq<usize>,
) -> Seq<Seq<SpanView>> {
    match kind {
        BlockKindView::Heading(level) => flowed(
            seq![
                seq![
                    style::span_of(
                        text::repeated('#', level as nat).push(' '),
                        Style::toned(Tone::Overlay0),
                    ),
                ],
            ],
            inlines,
            heading_look(level),
        ),
        BlockKindView::Paragraph => flowed(seq![Seq::empty()], inlines, Style::toned(Tone::Text)),
        BlockKindView::Item { ordered, marker, depth, task } => flowed(
            seq![
                seq![
                    style::raw_of(text::repeated(' ', 2 * depth as nat)),
                    style::span_of(
                        item_mark(ordered, marker, task).push(' '),
                        Style::toned(Tone::Lavender),
                    ),
                ],
            ],
            inlines,
            Style::toned(Tone::Text),
        ),
        BlockKindView::Quote => prefixed(
            flowed(seq![Seq::empty()], inlines, slanted(Style::toned(Tone::Subtext0))),
            style::span_of("▍ "@, Style::toned(Tone::Overlay1)),
        ),
        BlockKindView::Code { lang, line } => seq![
            seq![style::span_of(line, Style::toned(Tone::Text))],
        ],
        BlockKindView::TableRow { header, cells } => flowed_cells(
            cells,
            cells.len() as int,
            row_look(header),
            columns,
        ),
        BlockKindView::Rule => seq![
            seq![style::span_of(text::repeated('─', 24), Style::toned(Tone::Overlay0))],
        ],
        BlockKindView::Html(html) => if text::text_lines(html).len() == 0 {
            seq![Seq::empty()]
        } else {
            text::text_lines(html).map_values(
                |l: Seq<char>| seq![style::span_of(l, Style::toned(Tone::Overlay0))],
            )
        },
    }
}

/// The styled lines of a block; the columns of a table row are `columns` wide.
pub open spec fn block_lines(
    kind: BlockKindView,
    inlines: Seq<InlineView>,
    columns: Seq<usize>,
) -> Seq<LineView> {
    block_spans(kind, inlines, columns).map_values(
        |spans: Seq<SpanView>| style::line_of_spans(spans),
    )
}

/// Block `i` of `blocks` with its styled lines filled in.
pub open spec fn shown(blocks: Seq<BlockView>, i: int) -> BlockView {
    BlockView {
        rendered: block_lines(blocks[i].kind, blocks[i].inlines, columns_at(blocks, i)),
        ..blocks[i]
    }
}

/// The blocks of a document with their styled lines filled in.
pub open spec fn all_shown(blocks: Seq<BlockView>) -> Seq<BlockView> {
    Seq::new(blocks.len(), |i: int| shown(blocks, i))
}

/// What each of `lines` shows.
pub open spec fn sheet_view(lines: Seq<Vec<Span>>) -> Seq<Seq<SpanView>> {
    lines.map_values(|l: Vec<Span>| style::spans_view(l@))
}

fn put_span(lines: &mut Vec<Vec<Span>>, span: Span)
    requires
        old(lines)@.len() > 0,
    ensures
        final(lines)@.len() == old(lines)@.len(),
        sheet_view(final(lines)@) == put(sheet_view(old(lines)@), span@),
{
    let last: usize = lines.len() - 1;
    lines[last].push(span);
    proof {
        let before = old(lines)@;
        assert(style::spans_view(lines@[last as int]@) =~= style::spans_view(
            before[last as int]@,
        ).push(span@));
        assert(sheet_view(lines@) =~= put(sheet_view(before), span@));
    }
}

fn flow(lines: &mut Vec<Vec<Span>>, nodes: &Vec<Inline>, look: Style)
    requires
        old(lines)@.len() > 0,
    ensures
        final(lines)@.len() > 0,
        sheet_view(final(lines)@) == flowed(
            sheet_view(old(lines)@),
            markdown::inlines_view(nodes@),
            look,
        ),
    decreases nodes@,
{
    let ghost start = sheet_view(lines@);
    let mut i: usize = 0;
    assert(nodes@.take(0) =~= Seq::empty());
    while i < nodes.len()
        invariant
            i <= nodes@.len(),
            lines@.len() > 0,
            sheet_view(lines@) == flowed(start, markdown::inlines_view(nodes@.take(i as int)), look),
        decreases nodes@.len() - i,
    {
        proof {
            let more = nodes@.take(i + 1);
            assert(more.drop_last() =~= nodes@.take(i as int));
            let view = markdown::inlines_view(more);
            assert(view.drop_last() =~= markdown::inlines_view(nodes@.take(i as int)));
            assert(view.last() == markdown::inline_view(nodes@[i as int]));
        }
        flow_one(lines, &nodes[i], look);
        i += 1;
    }
    assert(nodes@.take(i as int) =~= nodes@);
}

fn flow_one(lines: &mut Vec<Vec<Span>>, node: &Inline, look: Style)
    requires
        old(lines)@.len() > 0,
    ensures
        final(lines)@.len() > 0,
        sheet_view(final(lines)@) == flowed_one(
            sheet_view(old(lines)@),
            markdown::inline_view(*node),
            look,
        ),
    decreases *node,
{
    match node {
        Inline::Text(t) => {
            put_span(lines, styled(t.clone(), look));
        },
        Inline::Code(t) => {
            put_span(lines, styled(t.clone(), Style::toned(Tone::Green)));
        },
        Inline::Emph(v) => {
            let mut more: Style = look;
            more.italic = true;
            flow(lines, v, more);
        },
        Inline::Strong(v) => {
            let mut more: Style = look;
            more.bold = true;
            flow(lines, v, more);
        },
        Inline::Strike(v) => {
            let mut more: Style = look;
            more.crossed = true;
            flow(lines, v, more);
        },
        Inline::Link { label, url } => {
            flow(lines, label, look);
            let mut address: String = " (".to_owned();
            address.append(url.as_str());
            address.append(")");
            put_span(lines, styled(address, Style::toned(Tone::Overlay0)));
        },
        Inline::Image { alt } => {
            put_span(lines, styled("image: ".to_owned(), Style::toned(Tone::Overlay0)));
            put_span(lines, styled(alt.clone(), look));
        },
        Inline::SoftBreak => {
            put_span(lines, styled(" ".to_owned(), look));
        },
        Inline::HardBreak => {
            let ghost before = sheet_view(lines@);
            let fresh: Vec<Span> = Vec::new();
            assert(style::spans_view(fresh@) =~= Seq::empty());
            lines.push(fresh);
            assert(sheet_view(lines@) =~= before.push(Seq::empty()));
        },
    }
}

/// One empty line.
fn blank_sheet() -> (r: Vec<Vec<Span>>)
    ensures
        r@.len() > 0,
        sheet_view(r@) == seq![Seq::<SpanView>::empty()],
{
    let fresh: Vec<Span> = Vec::new();
    assert(style::spans_view(fresh@) =~= Seq::empty());
    let r: Vec<Vec<Span>> = vec![fresh];
    assert(sheet_view(r@) =~= seq![Seq::<SpanView>::empty()]);
    r
}

/// One line of `spans`.
fn sheet_of(spans: Vec<Span>) -> (r: Vec<Vec<Span>>)
    ensures
        r@.len() > 0,
        sheet_view(r@) == seq![style::spans_view(spans@)],
{
    let r: Vec<Vec<Span>> = vec![spans];
    assert(sheet_view(r@) =~= seq![style::spans_view(spans@)]);
    r
}

fn mark_of(ordered: bool, marker: &String, task: Option<bool>) -> (r: String)
    ensures
        r@ == item_mark(ordered, marker@, task),
{
    match task {
        Some(true) => "[x]".to_owned(),
        Some(false) => "[ ]".to_owned(),
        None => if ordered {
            marker.clone()
        } else {
            "•".to_owned()
        },
    }
}

fn look_of_row(header: bool) -> (r: Style)
    ensures
        r == row_look(header),
{
    if header {
        Style::strong(Tone::Text)
    } else {
        Style::toned(Tone::Text)
    }
}

fn columns_of_cell(cell: &Vec<Inline>, look: Style) -> (r: usize)
    ensures
        r == cell_columns(markdown::inlines_view(cell@), look),
{
    let mut lines: Vec<Vec<Span>> = blank_sheet();
    flow(&mut lines, cell, look);
    let last: usize = lines.len() - 1;
    assert(sheet_view(lines@).last() == style::spans_view(lines@[last as int]@));
    width_of_spans(&lines[last])
}

fn columns_of_row(kind: &BlockKind) -> (r: Vec<usize>)
    ensures
        r@ == row_columns(kind@),
{
    let mut out: Vec<usize> = Vec::new();
    match kind {
        BlockKind::TableRow { header, cells } => {
            let look: Style = look_of_row(*header);
            let ghost view = markdown::cells_view(cells@);
            let mut i: usize = 0;
            while i < cells.len()
                invariant
                    i <= cells@.len(),
                    out@.len() == i,
                    view == markdown::cells_view(cells@),
                    forall|k: int| 0 <= k < i ==> #[trigger] out@[k] == cell_columns(view[k], look),
                decreases cells@.len() - i,
            {
                assert(view[i as int] == markdown::inlines_view(cells@[i as int]@));
                out.push(columns_of_cell(&cells[i], look));
                i += 1;
            }
        },
        _ => {},
    }
    assert(out@ =~= row_columns(kind@));
    out
}

fn wider(a: &Vec<usize>, b: &Vec<usize>) -> (r: Vec<usize>)
    ensures
        r@ == widest(a@, b@),
{
    let n: usize = if a.len() < b.len() {
        b.len()
    } else {
        a.len()
    };
    let mut out: Vec<usize> = Vec::new();
    let mut c: usize = 0;
    while c < n
        invariant
            n == widest(a@, b@).len(),
            c <= n,
            out@.len() == c,
            forall|k: int| 0 <= k < c ==> #[trigger] out@[k] == widest(a@, b@)[k],
        decreases n - c,
    {
        let w: usize = if c >= b.len() || c < a.len() && b[c] < a[c] {
            a[c]
        } else {
            b[c]
        };
        out.push(w);
        c += 1;
    }
    assert(out@ =~= widest(a@, b@));
    out
}

fn is_row(kind: &BlockKind) -> (r: bool)
    ensures
        r == (kind@ is TableRow),
{
    match kind {
        BlockKind::TableRow { header: _, cells: _ } => true,
        _ => false,
    }
}

fn is_body_row(kind: &BlockKind) -> (r: bool)
    ensures
        r == (kind@ matches BlockKindView::TableRow { header, .. } && !header),
{
    match kind {
        BlockKind::TableRow { header, cells: _ } => !*header,
        _ => false,
    }
}

fn row_goes_on(blocks: &Vec<Block>, i: usize) -> (r: bool)
    ensures
        r == goes_on(markdown::blocks_view(blocks@), i as int),
{
    if 0 < i && i < blocks.len() {
        assert(markdown::blocks_view(blocks@)[i - 1] == blocks@[i - 1]@);
        assert(markdown::blocks_view(blocks@)[i as int] == blocks@[i as int]@);
        is_row(&blocks[i - 1].kind) && is_body_row(&blocks[i].kind)
    } else {
        false
    }
}

/// How wide each column is in the table that begins at block `i`.
fn find_columns(blocks: &Vec<Block>, i: usize) -> (r: Vec<usize>)
    requires
        i < blocks@.len(),
        !goes_on(markdown::blocks_view(blocks@), i as int),
    ensures
        r@ == columns_at(markdown::blocks_view(blocks@), i as int),
{
    let ghost view = markdown::blocks_view(blocks@);
    let n: usize = blocks.len();
    let first: Vec<usize> = columns_of_row(&blocks[i].kind);
    let none: Vec<usize> = Vec::new();
    let mut columns: Vec<usize> = wider(&none, &first);
    let mut j: usize = i + 1;
    proof {
        assert(view[i as int] == blocks@[i as int]@);
        reveal_with_fuel(table_columns, 2);
    }
    while row_goes_on(blocks, j)
        invariant
            i < j <= n,
            n == blocks@.len(),
            view == markdown::blocks_view(blocks@),
            columns@ == table_columns(view, i as int, j as int),
            table_end(view, i as int) == table_end(view, j - 1),
        decreases n - j,
    {
        assert(view[j as int] == blocks@[j as int]@);
        let more: Vec<usize> = columns_of_row(&blocks[j].kind);
        columns = wider(&columns, &more);
        j += 1;
    }
    columns
}

fn cell_spans(cells: &Vec<Vec<Inline>>, look: Style, columns: &Vec<usize>) -> (r: Vec<Vec<Span>>)
    ensures
        sheet_view(r@) == flowed_cells(
            markdown::cells_view(cells@),
            cells@.len() as int,
            look,
            columns@,
        ),
{
    let ghost view = markdown::cells_view(cells@);
    let mut lines: Vec<Vec<Span>> = blank_sheet();
    let mut i: usize = 0;
    while i < cells.len()
        invariant
            i <= cells@.len(),
            lines@.len() > 0,
            view == markdown::cells_view(cells@),
            sheet_view(lines@) == flowed_cells(view, i as int, look, columns@),
        decreases cells@.len() - i,
    {
        if i > 0 {
            put_span(&mut lines, styled(" │ ".to_owned(), Style::toned(Tone::Overlay0)));
        }
        assert(view[i as int] == markdown::inlines_view(cells@[i as int]@));
        flow(&mut lines, &cells[i], look);
        if i + 1 < cells.len() && i < columns.len() {
            let own: usize = columns_of_cell(&cells[i], look);
            if own < columns[i] {
                put_span(&mut lines, raw(repeat_char(' ', columns[i] - own)));
            }
        }
        i += 1;
    }
    lines
}

fn quote_spans(inlines: &Vec<Inline>) -> (r: Vec<Vec<Span>>)
    ensures
        sheet_view(r@) == block_spans(
            BlockKindView::Quote,
            markdown::inlines_view(inlines@),
            Seq::empty(),
        ),
{
    let mut look: Style = Style::toned(Tone::Subtext0);
    look.italic = true;
    let mut lines: Vec<Vec<Span>> = blank_sheet();
    flow(&mut lines, inlines, look);
    let ghost given = sheet_view(lines@);
    let ghost bar = style::span_of("▍ "@, Style::toned(Tone::Overlay1));
    let mut i: usize = 0;
    while i < lines.len()
        invariant
            i <= lines@.len() == given.len(),
            bar == style::span_of("▍ "@, Style::toned(Tone::Overlay1)),
            forall|k: int|
                0 <= k < i ==> style::spans_view((#[trigger] lines@[k])@) == seq![bar] + given[k],
            forall|k: int|
                i <= k < lines@.len() ==> style::spans_view((#[trigger] lines@[k])@) == given[k],
        decreases lines@.len() - i,
    {
        let ghost before = lines@;
        let mark: Span = styled("▍ ".to_owned(), Style::toned(Tone::Overlay1));
        lines[i].insert(0, mark);
        proof {
            assert(style::spans_view(lines@[i as int]@) =~= seq![bar] + style::spans_view(
                before[i as int]@,
            ));
            assert(forall|k: int| 0 <= k < lines@.len() && k != i ==> #[trigger] lines@[k]
                == before[k]);
        }
        i += 1;
    }
    assert(sheet_view(lines@) =~= prefixed(given, bar));
    lines
}

fn html_spans(html: &String) -> (r: Vec<Vec<Span>>)
    ensures
        sheet_view(r@) == block_spans(BlockKindView::Html(html@), Seq::empty(), Seq::empty()),
{
    let chars: Vec<char> = chars_of(html.as_str());
    let lines: Vec<String> = split_text_lines(&chars);
    let ghost all = text::contents(lines@);
    if lines.len() == 0 {
        return blank_sheet();
    }
    let mut out: Vec<Vec<Span>> = Vec::new();
    let mut i: usize = 0;
    while i < lines.len()
        invariant
            i <= lines@.len(),
            out@.len() == i,
            all == text::contents(lines@),
            forall|k: int|
                0 <= k < i ==> style::spans_view((#[trigger] out@[k])@) == seq![
                    style::span_of(all[k], Style::toned(Tone::Overlay0)),
                ],
        decreases lines@.len() - i,
    {
        let spans: Vec<Span> = vec![styled(lines[i].clone(), Style::toned(Tone::Overlay0))];
        assert(style::spans_view(spans@) =~= seq![
            style::span_of(all[i as int], Style::toned(Tone::Overlay0)),
        ]);
        out.push(spans);
        i += 1;
    }
    assert(sheet_view(out@) =~= block_spans(
        BlockKindView::Html(html@),
        Seq::empty(),
        Seq::empty(),
    ));
    out
}

fn spans_of_block(kind: &BlockKind, inlines: &Vec<Inline>, columns: &Vec<usize>) -> (r: Vec<
    Vec<Span>,
>)
    ensures
        sheet_view(r@) == block_spans(kind@, markdown::inlines_view(inlines@), columns@),
{
    match kind {
        BlockKind::Heading(level) => {
            let mut hashes: String = repeat_char('#', *level as usize);
            hashes.push(' ');
            let head: Vec<Span> = vec![styled(hashes, Style::toned(Tone::Overlay0))];
            assert(style::spans_view(head@) =~= seq![
                style::span_of(
                    text::repeated('#', *level as nat).push(' '),
                    Style::toned(Tone::Overlay0),
                ),
            ]);
            let look: Style = if *level == 1 {
                Style::strong(Tone::Mauve)
            } else if *level == 2 {
                Style::strong(Tone::Blue)
            } else {
                Style::strong(Tone::Text)
            };
            let mut lines: Vec<Vec<Span>> = sheet_of(head);
            flow(&mut lines, inlines, look);
            lines
        },
        BlockKind::Paragraph => {
            let mut lines: Vec<Vec<Span>> = blank_sheet();
            flow(&mut lines, inlines, Style::toned(Tone::Text));
            lines
        },
        BlockKind::Item { ordered, marker, depth, task } => {
            let mut mark: String = mark_of(*ordered, marker, *task);
            mark.push(' ');
            let indent: String = repeat_char(' ', 2 * (*depth as usize));
            let head: Vec<Span> = vec![raw(indent), styled(mark, Style::toned(Tone::Lavender))];
            assert(style::spans_view(head@) =~= seq![
                style::raw_of(text::repeated(' ', 2 * *depth as nat)),
                style::span_of(
                    item_mark(*ordered, marker@, *task).push(' '),
                    Style::toned(Tone::Lavender),
                ),
            ]);
            let mut lines: Vec<Vec<Span>> = sheet_of(head);
            flow(&mut lines, inlines, Style::toned(Tone::Text));
            lines
        },
        BlockKind::Quote => quote_spans(inlines),
        BlockKind::Code { lang: _, line } => {
            let spans: Vec<Span> = vec![styled(line.clone(), Style::toned(Tone::Text))];
            assert(style::spans_view(spans@) =~= seq![
                style::span_of(line@, Style::toned(Tone::Text)),
            ]);
            sheet_of(spans)
        },
        BlockKind::TableRow { header, cells } => {
            cell_spans(cells, look_of_row(*header), columns)
        },
        BlockKind::Rule => {
            let dashes: String = repeat_char('─', 24);
            let spans: Vec<Span> = vec![styled(dashes, Style::toned(Tone::Overlay0))];
            assert(style::spans_view(spans@) =~= seq![
                style::span_of(text::repeated('─', 24), Style::toned(Tone::Overlay0)),
            ]);
            sheet_of(spans)
        },
        BlockKind::Html(html) => html_spans(html),
    }
}

/// The styled lines of a block; the columns of a table row are `columns` wide.
pub fn render_block(kind: &BlockKind, inlines: &Vec<Inline>, columns: &Vec<usize>) -> (r: Vec<Line>)
    ensures
        style::lines_view(r@) == block_lines(kind@, markdown::inlines_view(inlines@), columns@),
{
    let sheet: Vec<Vec<Span>> = spans_of_block(kind, inlines, columns);
    let ghost given = sheet@;
    let ghost view = sheet_view(given);
    let mut out: Vec<Line> = Vec::new();
    for spans in it: sheet
        invariant
            it.seq() == given,
            view == sheet_view(given),
            out@.len() == it.index(),
            forall|k: int|
                0 <= k < out@.len() ==> (#[trigger] out@[k])@ == style::line_of_spans(view[k]),
    {
        out.push(line(spans));
    }
    assert(style::lines_view(out@) =~= block_lines(
        kind@,
        markdown::inlines_view(inlines@),
        columns@,
    ));
    out
}

/// The styled lines of each block, the columns of each table as wide as their widest cells.
fn lines_of_blocks(blocks: &Vec<Block>) -> (r: Vec<Vec<Line>>)
    ensures
        r@.len() == blocks@.len(),
        forall|k: int|
            0 <= k < r@.len() ==> style::lines_view((#[trigger] r@[k])@) == shown(
                markdown::blocks_view(blocks@),
                k,
            ).rendered,
{
    let ghost view = markdown::blocks_view(blocks@);
    let mut out: Vec<Vec<Line>> = Vec::new();
    let mut columns: Vec<usize> = Vec::new();
    let mut i: usize = 0;
    while i < blocks.len()
        invariant
            i <= blocks@.len(),
            view == markdown::blocks_view(blocks@),
            i > 0 ==> columns@ == columns_at(view, i - 1),
            out@.len() == i,
            forall|k: int|
                0 <= k < i ==> style::lines_view((#[trigger] out@[k])@) == shown(view, k).rendered,
        decreases blocks@.len() - i,
    {
        assert(view[i as int] == blocks@[i as int]@);
        if !row_goes_on(blocks, i) {
            columns = find_columns(blocks, i);
        }
        out.push(render_block(&blocks[i].kind, &blocks[i].inlines, &columns));
        i += 1;
    }
    out
}

/// The blocks of a document with their styled lines filled in.
pub fn render_blocks(blocks: Vec<Block>) -> (r: Vec<Block>)
    ensures
        markdown::blocks_view(r@) == all_shown(markdown::blocks_view(blocks@)),
{
    let ghost given = blocks@;
    let ghost view = markdown::blocks_view(given);
    let sheets: Vec<Vec<Line>> = lines_of_blocks(&blocks);
    let ghost lines = sheets@;
    let mut out: Vec<Block> = blocks;
    let n: usize = out.len();
    let mut i: usize = 0;
    for sheet in it: sheets
        invariant
            it.seq() == lines,
            i == it.index(),
            view == markdown::blocks_view(given),
            lines.len() == given.len() == out@.len() == n,
            forall|k: int|
                0 <= k < lines.len() ==> style::lines_view((#[trigger] lines[k])@) == shown(
                    view,
                    k,
                ).rendered,
            forall|k: int| 0 <= k < i ==> (#[trigger] out@[k])@ == shown(view, k),
            forall|k: int| i <= k < out@.len() ==> #[trigger] out@[k] == given[k],
    {
        assert(view[i as int] == given[i as int]@);
        out[i].rendered = sheet;
        i += 1;
    }
    assert(markdown::blocks_view(out@) =~= all_shown(view));
    out
}

/// The document of a markdown source, parsed and rendered.
pub fn render_document(source: &str) -> (r: Document)
    ensures
        r.source@ == source@,
        markdown::blocks_view(r.blocks@) == all_shown(
            fold::folded(source@, events::all_kinded(events::markdown_events(source@))),
        ),
{
    Document { source: source.to_owned(), blocks: render_blocks(parse_blocks(source)) }
}

proof fn lemma_flowed_len(lines: Seq<Seq<SpanView>>, nodes: Seq<InlineView>, look: Style)
    requires
        lines.len() > 0,
    ensures
        flowed(lines, nodes, look).len() >= lines.len(),
    decreases nodes,
{
    if nodes.len() > 0 {
        lemma_flowed_len(lines, nodes.drop_last(), look);
        lemma_flowed_one_len(flowed(lines, nodes.drop_last(), look), nodes.last(), look);
    }
}

proof fn lemma_flowed_one_len(lines: Seq<Seq<SpanView>>, node: InlineView, look: Style)
    requires
        lines.len() > 0,
    ensures
        flowed_one(lines, node, look).len() >= lines.len(),
    decreases node,
{
    match node {
        InlineView::Emph(v) => {
            lemma_flowed_len(lines, v, slanted(look));
        },
        InlineView::Strong(v) => {
            lemma_flowed_len(lines, v, heavy(look));
        },
        InlineView::Strike(v) => {
            lemma_flowed_len(lines, v, struck(look));
        },
        InlineView::Link { label, url } => {
            lemma_flowed_len(lines, label, look);
        },
        _ => {},
    }
}

proof fn lemma_cells_len(
    cells: Seq<Seq<InlineView>>,
    n: int,
    look: Style,
    columns: Seq<usize>,
)
    ensures
        flowed_cells(cells, n, look, columns).len() > 0,
    decreases n,
{
    if n > 0 {
        lemma_cells_len(cells, n - 1, look, columns);
        let rest = flowed_cells(cells, n - 1, look, columns);
        let apart = if n > 1 {
            put(rest, style::span_of(" │ "@, Style::toned(Tone::Overlay0)))
        } else {
            rest
        };
        lemma_flowed_len(apart, cells[n - 1], look);
    }
}

proof fn lemma_row_in_table(blocks: Seq<BlockView>, i: int)
    requires
        0 <= i < blocks.len(),
    ensures
        table_start(blocks, i) <= i < table_end(blocks, i),
    decreases i,
{
    lemma_end_behind(blocks, i);
    if goes_on(blocks, i) {
        lemma_row_in_table(blocks, i - 1);
    }
}

proof fn lemma_end_behind(blocks: Seq<BlockView>, i: int)
    ensures
        i < table_end(blocks, i),
    decreases blocks.len() - i,
{
    if goes_on(blocks, i + 1) {
        lemma_end_behind(blocks, i + 1);
    }
}

proof fn lemma_columns_hold_row(blocks: Seq<BlockView>, from: int, to: int, i: int, c: int)
    requires
        from <= i < to,
        0 <= c < row_columns(blocks[i].kind).len(),
    ensures
        c < table_columns(blocks, from, to).len(),
        row_columns(blocks[i].kind)[c] <= table_columns(blocks, from, to)[c],
    decreases to - from,
{
    if i < to - 1 {
        lemma_columns_hold_row(blocks, from, to - 1, i, c);
    }
}

/// The columns of a table line up: in every row, a cell and the spaces behind it take the same
/// columns of the screen together, those of the widest cell of its table column. The last cell of
/// a row has nothing behind it to line up with.
pub proof fn law_table_columns_line_up(
    blocks: Seq<BlockView>,
    i: int,
    header: bool,
    cells: Seq<Seq<InlineView>>,
    c: int,
)
    requires
        0 <= i < blocks.len(),
        blocks[i].kind == (BlockKindView::TableRow { header, cells }),
        0 <= c < cells.len() - 1,
    ensures
        ({
            let columns = columns_at(blocks, i);
            &&& c < columns.len()
            &&& cell_columns(cells[c], row_look(header)) + cell_gap(
                cells,
                c,
                row_look(header),
                columns,
            ) == columns[c]
        }),
{
    lemma_row_in_table(blocks, i);
    lemma_columns_hold_row(blocks, table_start(blocks, i), table_end(blocks, i), i, c);
}

/// All rows of one table have the same column widths.
pub proof fn law_table_rows_share_columns(blocks: Seq<BlockView>, i: int, j: int)
    requires
        0 <= i <= j < blocks.len(),
        table_start(blocks, i) == table_start(blocks, j),
    ensures
        columns_at(blocks, i) == columns_at(blocks, j),
    decreases j - i,
{
    if i < j {
        lemma_row_in_table(blocks, i);
        law_table_rows_share_columns(blocks, i, j - 1);
    }
}

/// Every block is rendered to at least one line, so every block can be seen and selected.
pub proof fn law_every_block_has_a_line(blocks: Seq<BlockView>, i: int)
    ensures
        shown(blocks, i).rendered.len() > 0,
{
    let b = blocks[i];
    match b.kind {
        BlockKindView::Heading(level) => {
            lemma_flowed_len(
                seq![
                    seq![
                        style::span_of(
                            text::repeated('#', level as nat).push(' '),
                            Style::toned(Tone::Overlay0),
                        ),
                    ],
                ],
                b.inlines,
                heading_look(level),
            );
        },
        BlockKindView::Paragraph => {
            lemma_flowed_len(seq![Seq::empty()], b.inlines, Style::toned(Tone::Text));
        },
        BlockKindView::Item { ordered, marker, depth, task } => {
            lemma_flowed_len(
                seq![
                    seq![
                        style::raw_of(text::repeated(' ', 2 * depth as nat)),
                        style::span_of(
                            item_mark(ordered, marker, task).push(' '),
                            Style::toned(Tone::Lavender),
                        ),
                    ],
                ],
                b.inlines,
                Style::toned(Tone::Text),
            );
        },
        BlockKindView::Quote => {
            lemma_flowed_len(
                seq![Seq::empty()],
                b.inlines,
                slanted(Style::toned(Tone::Subtext0)),
            );
        },
        BlockKindView::TableRow { header, cells } => {
            lemma_cells_len(
                cells,
                cells.len() as int,
                row_look(header),
                columns_at(blocks, i),
            );
        },
        _ => {},
    }
}

/// The text of each of `lines`.
pub open spec fn line_texts(lines: Seq<LineView>) -> Seq<Seq<char>> {
    lines.map_values(|l: LineView| style::text_of(l.spans))
}

/// The text of each line that a block of kind `kind` with the inline content `nodes` shows.
pub open spec fn page(kind: BlockKindView, nodes: Seq<InlineView>) -> Seq<Seq<char>> {
    line_texts(block_lines(kind, nodes, Seq::empty()))
}

/// `a` with `b` behind it: the first line of `b` goes on where the last line of `a` ends.
pub open spec fn run_on(a: Seq<Seq<char>>, b: Seq<Seq<char>>) -> Seq<Seq<char>> {
    a.drop_last().push(a.last() + b[0]) + b.skip(1)
}

/// The text of each line of `sheet`.
spec fn sheet_texts(sheet: Seq<Seq<SpanView>>) -> Seq<Seq<char>> {
    sheet.map_values(|l: Seq<SpanView>| style::text_of(l))
}

proof fn lemma_put_text(lines: Seq<Seq<SpanView>>, span: SpanView)
    requires
        lines.len() > 0,
    ensures
        put(lines, span).len() == lines.len(),
        sheet_texts(put(lines, span)) == run_on(sheet_texts(lines), seq![span.text]),
{
    assert(lines.last().push(span).drop_last() =~= lines.last());
    assert(sheet_texts(put(lines, span)) =~= run_on(sheet_texts(lines), seq![span.text]));
}

proof fn lemma_run_on_joins(a: Seq<Seq<char>>, b: Seq<Seq<char>>, c: Seq<Seq<char>>)
    requires
        a.len() > 0,
        b.len() > 0,
        c.len() > 0,
    ensures
        run_on(run_on(a, b), c) == run_on(a, run_on(b, c)),
{
    let (ab, bc) = (run_on(a, b), run_on(b, c));
    let (x, y) = (run_on(ab, c), run_on(a, bc));
    assert(x.len() == y.len());
    assert forall|k: int| 0 <= k < x.len() implies #[trigger] x[k] == y[k] by {
        if b.len() == 1 {
            assert(ab.last() == a.last() + b[0]);
            assert(bc[0] == b[0] + c[0]);
            assert(a.last() + b[0] + c[0] =~= a.last() + (b[0] + c[0]));
        }
    }
    assert(x =~= y);
}

proof fn lemma_run_on_empty(a: Seq<Seq<char>>)
    requires
        a.len() > 0,
    ensures
        run_on(seq![Seq::<char>::empty()], a) == a,
        run_on(a, seq![Seq::<char>::empty()]) == a,
{
    assert(Seq::<char>::empty() + a[0] =~= a[0]);
    assert(run_on(seq![Seq::<char>::empty()], a) =~= a);
    assert(a.last() + Seq::<char>::empty() =~= a.last());
    assert(run_on(a, seq![Seq::<char>::empty()]) =~= a);
}

proof fn lemma_blank_texts()
    ensures
        sheet_texts(seq![Seq::<SpanView>::empty()]) == seq![Seq::<char>::empty()],
{
    assert(sheet_texts(seq![Seq::<SpanView>::empty()]) =~= seq![Seq::<char>::empty()]);
}

proof fn lemma_flow_runs_on(
    lines: Seq<Seq<SpanView>>,
    nodes: Seq<InlineView>,
    look: Style,
    other: Style,
)
    requires
        lines.len() > 0,
    ensures
        flowed(lines, nodes, look).len() > 0,
        sheet_texts(flowed(lines, nodes, look)) == run_on(
            sheet_texts(lines),
            sheet_texts(flowed(seq![Seq::empty()], nodes, other)),
        ),
    decreases nodes,
{
    let blank = seq![Seq::<SpanView>::empty()];
    lemma_flowed_len(lines, nodes, look);
    lemma_flowed_len(blank, nodes, other);
    lemma_blank_texts();
    if nodes.len() == 0 {
        lemma_run_on_empty(sheet_texts(lines));
    } else {
        let rest = nodes.drop_last();
        let (a, b) = (flowed(lines, rest, look), flowed(blank, rest, other));
        lemma_flow_runs_on(lines, rest, look, other);
        lemma_flowed_len(blank, rest, other);
        lemma_one_runs_on(a, nodes.last(), look, other);
        lemma_one_runs_on(b, nodes.last(), other, other);
        let u = sheet_texts(flowed_one(blank, nodes.last(), other));
        lemma_flowed_one_len(blank, nodes.last(), other);
        lemma_run_on_joins(sheet_texts(lines), sheet_texts(b), u);
    }
}

proof fn lemma_one_runs_on(
    lines: Seq<Seq<SpanView>>,
    node: InlineView,
    look: Style,
    other: Style,
)
    requires
        lines.len() > 0,
    ensures
        flowed_one(lines, node, look).len() > 0,
        sheet_texts(flowed_one(lines, node, look)) == run_on(
            sheet_texts(lines),
            sheet_texts(flowed_one(seq![Seq::empty()], node, other)),
        ),
    decreases node,
{
    let blank = seq![Seq::<SpanView>::empty()];
    lemma_flowed_one_len(lines, node, look);
    lemma_flowed_one_len(blank, node, other);
    lemma_blank_texts();
    match node {
        InlineView::Text(t) => {
            lemma_put_text(lines, style::span_of(t, look));
            lemma_put_text(blank, style::span_of(t, other));
            lemma_run_on_empty(seq![t]);
        },
        InlineView::Code(t) => {
            let span = style::span_of(t, Style::toned(Tone::Green));
            lemma_put_text(lines, span);
            lemma_put_text(blank, span);
            lemma_run_on_empty(seq![t]);
        },
        InlineView::Emph(v) => {
            lemma_flow_runs_on(lines, v, slanted(look), slanted(other));
        },
        InlineView::Strong(v) => {
            lemma_flow_runs_on(lines, v, heavy(look), heavy(other));
        },
        InlineView::Strike(v) => {
            lemma_flow_runs_on(lines, v, struck(look), struck(other));
        },
        InlineView::Link { label, url } => {
            let span = style::span_of(" ("@ + url + ")"@, Style::toned(Tone::Overlay0));
            lemma_flow_runs_on(lines, label, look, other);
            let (a, b) = (flowed(lines, label, look), flowed(blank, label, other));
            lemma_flowed_len(blank, label, other);
            lemma_put_text(a, span);
            lemma_put_text(b, span);
            lemma_run_on_joins(sheet_texts(lines), sheet_texts(b), seq![span.text]);
        },
        InlineView::Image { alt } => {
            let chip = style::span_of("image: "@, Style::toned(Tone::Overlay0));
            lemma_put_text(lines, chip);
            lemma_put_text(put(lines, chip), style::span_of(alt, look));
            lemma_put_text(blank, chip);
            lemma_put_text(put(blank, chip), style::span_of(alt, other));
            let b = sheet_texts(put(blank, chip));
            lemma_run_on_empty(seq![chip.text]);
            lemma_run_on_joins(sheet_texts(lines), b, seq![alt]);
        },
        InlineView::SoftBreak => {
            lemma_put_text(lines, style::span_of(" "@, look));
            lemma_put_text(blank, style::span_of(" "@, other));
            lemma_run_on_empty(seq![" "@]);
        },
        InlineView::HardBreak => {
            let a = sheet_texts(lines);
            assert(a.last() + Seq::<char>::empty() =~= a.last());
            assert(sheet_texts(lines.push(Seq::empty())) =~= a.push(Seq::empty()));
            assert(sheet_texts(blank.push(Seq::empty())) =~= seq![
                Seq::<char>::empty(),
                Seq::<char>::empty(),
            ]);
            assert(a.push(Seq::empty()) =~= run_on(
                a,
                seq![Seq::<char>::empty(), Seq::<char>::empty()],
            ));
        },
    }
}

proof fn lemma_page(kind: BlockKindView, nodes: Seq<InlineView>)
    ensures
        page(kind, nodes) == sheet_texts(block_spans(kind, nodes, Seq::empty())),
{
    assert(page(kind, nodes) =~= sheet_texts(block_spans(kind, nodes, Seq::empty())));
}

proof fn lemma_paragraph_page(nodes: Seq<InlineView>)
    ensures
        page(BlockKindView::Paragraph, nodes) == sheet_texts(
            flowed(seq![Seq::empty()], nodes, Style::toned(Tone::Text)),
        ),
        page(BlockKindView::Paragraph, nodes).len() > 0,
{
    lemma_page(BlockKindView::Paragraph, nodes);
    lemma_flowed_len(seq![Seq::empty()], nodes, Style::toned(Tone::Text));
}

/// What a paragraph shows grows by what is added to it: text and code go on at its end as they
/// stand, a soft break is a space, a hard break opens a new line, emphasis shows what it holds, a
/// link its label and behind it its address in brackets, and an image its text behind a chip.
pub proof fn law_inline_content_is_shown_as_it_is(
    nodes: Seq<InlineView>,
    t: Seq<char>,
    v: Seq<InlineView>,
)
    ensures
        ({
            let kind = BlockKindView::Paragraph;
            let before = page(kind, nodes);
            &&& before.len() > 0
            &&& page(kind, Seq::empty()) == seq![Seq::<char>::empty()]
            &&& page(kind, nodes.push(InlineView::Text(t))) == run_on(before, seq![t])
            &&& page(kind, nodes.push(InlineView::Code(t))) == run_on(before, seq![t])
            &&& page(kind, nodes.push(InlineView::SoftBreak)) == run_on(before, seq![seq![' ']])
            &&& page(kind, nodes.push(InlineView::HardBreak)) == before.push(Seq::empty())
            &&& page(kind, nodes.push(InlineView::Emph(v))) == page(kind, nodes + v)
            &&& page(kind, nodes.push(InlineView::Strong(v))) == page(kind, nodes + v)
            &&& page(kind, nodes.push(InlineView::Strike(v))) == page(kind, nodes + v)
            &&& page(kind, nodes.push(InlineView::Link { label: v, url: t })) == run_on(
                page(kind, nodes + v),
                seq![seq![' ', '('] + t + seq![')']],
            )
            &&& page(kind, nodes.push(InlineView::Image { alt: t })) == run_on(
                before,
                seq!["image: "@ + t],
            )
        }),
{
    let look = Style::toned(Tone::Text);
    let blank = seq![Seq::<SpanView>::empty()];
    let lines = flowed(blank, nodes, look);
    lemma_paragraph_page(nodes);
    lemma_paragraph_page(Seq::empty());
    lemma_blank_texts();
    lemma_flowed_len(blank, nodes, look);
    lemma_one_more(nodes, InlineView::Text(t));
    lemma_put_text(lines, style::span_of(t, look));
    lemma_one_more(nodes, InlineView::Code(t));
    lemma_put_text(lines, style::span_of(t, Style::toned(Tone::Green)));
    lemma_one_more(nodes, InlineView::SoftBreak);
    lemma_put_text(lines, style::span_of(" "@, look));
    reveal_strlit(" ");
    assert(" "@ =~= seq![' ']);
    lemma_one_more(nodes, InlineView::HardBreak);
    assert(sheet_texts(lines.push(Seq::empty())) =~= sheet_texts(lines).push(Seq::empty()));
    lemma_one_more(nodes, InlineView::Emph(v));
    lemma_one_more(nodes, InlineView::Strong(v));
    lemma_one_more(nodes, InlineView::Strike(v));
    lemma_more(nodes, v);
    lemma_flow_runs_on(lines, v, slanted(look), look);
    lemma_flow_runs_on(lines, v, heavy(look), look);
    lemma_flow_runs_on(lines, v, struck(look), look);
    lemma_flow_runs_on(lines, v, look, look);
    lemma_one_more(nodes, InlineView::Link { label: v, url: t });
    lemma_flowed_len(lines, v, look);
    let address = style::span_of(" ("@ + t + ")"@, Style::toned(Tone::Overlay0));
    lemma_put_text(flowed(lines, v, look), address);
    reveal_strlit(" (");
    reveal_strlit(")");
    assert(address.text =~= seq![' ', '('] + t + seq![')']);
    lemma_one_more(nodes, InlineView::Image { alt: t });
    let chip = style::span_of("image: "@, Style::toned(Tone::Overlay0));
    lemma_put_text(lines, chip);
    lemma_put_text(put(lines, chip), style::span_of(t, look));
    let a = sheet_texts(lines);
    assert(a.last() + chip.text + t =~= a.last() + (chip.text + t));
    assert(run_on(run_on(a, seq![chip.text]), seq![t]) =~= run_on(a, seq![chip.text + t]));
}

/// A paragraph of one node more is its lines with that node behind them.
proof fn lemma_one_more(nodes: Seq<InlineView>, node: InlineView)
    ensures
        page(BlockKindView::Paragraph, nodes.push(node)) == sheet_texts(
            flowed_one(
                flowed(seq![Seq::empty()], nodes, Style::toned(Tone::Text)),
                node,
                Style::toned(Tone::Text),
            ),
        ),
{
    lemma_paragraph_page(nodes.push(node));
    assert(nodes.push(node).drop_last() =~= nodes);
}

proof fn lemma_flowed_on(
    lines: Seq<Seq<SpanView>>,
    a: Seq<InlineView>,
    b: Seq<InlineView>,
    look: Style,
)
    ensures
        flowed(lines, a + b, look) == flowed(flowed(lines, a, look), b, look),
    decreases b.len(),
{
    if b.len() == 0 {
        assert(a + b =~= a);
    } else {
        assert((a + b).drop_last() =~= a + b.drop_last());
        lemma_flowed_on(lines, a, b.drop_last(), look);
    }
}

proof fn lemma_more(nodes: Seq<InlineView>, v: Seq<InlineView>)
    ensures
        page(BlockKindView::Paragraph, nodes + v) == sheet_texts(
            flowed(
                flowed(seq![Seq::empty()], nodes, Style::toned(Tone::Text)),
                v,
                Style::toned(Tone::Text),
            ),
        ),
{
    lemma_paragraph_page(nodes + v);
    lemma_flowed_on(seq![Seq::empty()], nodes, v, Style::toned(Tone::Text));
}

/// Every block with inline content shows what a paragraph of the same content would show, behind
/// what tells it apart: a heading behind as many hashes as its level, a list item behind two spaces
/// for each list that it is nested in and its mark, and a quote with a bar in front of each line.
pub proof fn law_blocks_show_their_content_behind_their_mark(
    nodes: Seq<InlineView>,
    level: u8,
    ordered: bool,
    marker: Seq<char>,
    depth: u8,
    task: Option<bool>,
)
    ensures
        ({
            let plain = page(BlockKindView::Paragraph, nodes);
            let heading = page(BlockKindView::Heading(level), nodes);
            let item = page(BlockKindView::Item { ordered, marker, depth, task }, nodes);
            let quote = page(BlockKindView::Quote, nodes);
            let mark = match task {
                Some(true) => "[x]"@,
                Some(false) => "[ ]"@,
                None => if ordered {
                    marker
                } else {
                    "•"@
                },
            };
            let hashes = Seq::new(level as nat, |k: int| '#');
            let indent = Seq::new(2 * depth as nat, |k: int| ' ');
            &&& plain.len() > 0
            &&& heading == run_on(seq![hashes.push(' ')], plain)
            &&& item == run_on(seq![indent + mark.push(' ')], plain)
            &&& quote.len() == plain.len()
            &&& forall|k: int|
                0 <= k < plain.len() ==> #[trigger] quote[k] == seq!['▍', ' '] + plain[k]
        }),
{
    let look = Style::toned(Tone::Text);
    lemma_paragraph_page(nodes);
    let plain = page(BlockKindView::Paragraph, nodes);
    let hashes = text::repeated('#', level as nat).push(' ');
    let front = seq![seq![style::span_of(hashes, Style::toned(Tone::Overlay0))]];
    lemma_page(BlockKindView::Heading(level), nodes);
    lemma_flow_runs_on(front, nodes, heading_look(level), look);
    lemma_one_span(front[0][0]);
    assert(sheet_texts(front) =~= seq![hashes]);
    assert(hashes =~= Seq::new(level as nat, |k: int| '#').push(' '));
    let kind = BlockKindView::Item { ordered, marker, depth, task };
    let spaces = style::raw_of(text::repeated(' ', 2 * depth as nat));
    let mark = style::span_of(
        item_mark(ordered, marker, task).push(' '),
        Style::toned(Tone::Lavender),
    );
    let head = seq![seq![spaces, mark]];
    lemma_page(kind, nodes);
    lemma_flow_runs_on(head, nodes, look, look);
    lemma_one_span(spaces);
    assert(head[0].drop_last() =~= seq![spaces]);
    assert(sheet_texts(head) =~= seq![spaces.text + mark.text]);
    assert(spaces.text =~= Seq::new(2 * depth as nat, |k: int| ' '));
    let quoted = slanted(Style::toned(Tone::Subtext0));
    let bar = style::span_of("▍ "@, Style::toned(Tone::Overlay1));
    lemma_page(BlockKindView::Quote, nodes);
    lemma_flow_runs_on(seq![Seq::empty()], nodes, quoted, look);
    lemma_blank_texts();
    lemma_run_on_empty(plain);
    let lines = flowed(seq![Seq::empty()], nodes, quoted);
    let quote = page(BlockKindView::Quote, nodes);
    reveal_strlit("▍ ");
    assert forall|k: int| 0 <= k < plain.len() implies #[trigger] quote[k] == seq!['▍', ' ']
        + plain[k] by {
        lemma_text_in_front(bar, lines[k]);
        assert(prefixed(lines, bar)[k] == seq![bar] + lines[k]);
        assert(sheet_texts(lines)[k] == style::text_of(lines[k]));
        assert(bar.text =~= seq!['▍', ' ']);
    }
}

proof fn lemma_one_span(span: SpanView)
    ensures
        style::text_of(seq![span]) == span.text,
{
    assert(seq![span].drop_last() =~= Seq::<SpanView>::empty());
    reveal_with_fuel(style::text_of, 2);
    assert(style::text_of(seq![span]) =~= span.text);
}

proof fn lemma_text_in_front(span: SpanView, line: Seq<SpanView>)
    ensures
        style::text_of(seq![span] + line) == span.text + style::text_of(line),
    decreases line.len(),
{
    let all = seq![span] + line;
    if line.len() == 0 {
        assert(all =~= seq![span]);
        lemma_one_span(span);
        assert(span.text + style::text_of(line) =~= span.text);
    } else {
        assert(all.drop_last() =~= seq![span] + line.drop_last());
        lemma_text_in_front(span, line.drop_last());
        assert(style::text_of(all) =~= span.text + style::text_of(line));
    }
}

/// A list item starts with two spaces for each list that it is nested in, so that an item one level
/// deeper starts two columns further to the right.
pub proof fn law_deeper_items_start_further_right(
    blocks: Seq<BlockView>,
    i: int,
    j: int,
)
    requires
        0 <= i < blocks.len(),
        0 <= j < blocks.len(),
        blocks[i].kind is Item,
        blocks[j].kind is Item,
        (blocks[j].kind->depth) == (blocks[i].kind->depth) + 1,
    ensures
        ({
            let (a, b) = (shown(blocks, i).rendered[0].spans, shown(blocks, j).rendered[0].spans);
            &&& a.len() >= 2 && b.len() >= 2
            &&& a[0].text == Seq::new(2 * (blocks[i].kind->depth) as nat, |k: int| ' ')
            &&& b[0].text == a[0].text + seq![' ', ' ']
            &&& a[1].text.len() > 0 && a[1].text.last() == ' '
            &&& b[1].text.len() > 0 && b[1].text.last() == ' '
        }),
{
    lemma_item_front(blocks, i);
    lemma_item_front(blocks, j);
    let (a, b) = (shown(blocks, i).rendered[0].spans, shown(blocks, j).rendered[0].spans);
    assert(a[0].text =~= Seq::new(2 * (blocks[i].kind->depth) as nat, |k: int| ' '));
    assert(b[0].text =~= a[0].text + seq![' ', ' ']);
}

proof fn lemma_item_front(blocks: Seq<BlockView>, i: int)
    requires
        0 <= i < blocks.len(),
        blocks[i].kind is Item,
    ensures
        ({
            let a = shown(blocks, i).rendered;
            let k = blocks[i].kind;
            &&& a.len() > 0
            &&& a[0].spans.len() >= 2
            &&& a[0].spans[0].text == text::repeated(' ', 2 * (k->depth) as nat)
            &&& a[0].spans[1].text == item_mark(k->ordered, k->marker, k->task).push(' ')
        }),
{
    let k = blocks[i].kind;
    let head = seq![
        seq![
            style::raw_of(text::repeated(' ', 2 * (k->depth) as nat)),
            style::span_of(
                item_mark(k->ordered, k->marker, k->task).push(' '),
                Style::toned(Tone::Lavender),
            ),
        ],
    ];
    lemma_flow_keeps_front(head, blocks[i].inlines, Style::toned(Tone::Text));
    let lines = flowed(head, blocks[i].inlines, Style::toned(Tone::Text));
    assert(head[0].len() == 2);
    assert(head[0].len() <= lines[0].len() && lines[0].take(2) == head[0]);
    assert(lines[0].take(2)[0] == lines[0][0] && lines[0].take(2)[1] == lines[0][1]);
}

/// Whether each of `a` is the start of what stands in the same place of `b`.
spec fn fronts(a: Seq<Seq<SpanView>>, b: Seq<Seq<SpanView>>) -> bool {
    &&& a.len() <= b.len()
    &&& forall|k: int|
        0 <= k < a.len() ==> (#[trigger] a[k]).len() <= b[k].len() && b[k].take(a[k].len() as int)
            == a[k]
}

proof fn lemma_fronts_chain(
    a: Seq<Seq<SpanView>>,
    b: Seq<Seq<SpanView>>,
    c: Seq<Seq<SpanView>>,
)
    requires
        fronts(a, b),
        fronts(b, c),
    ensures
        fronts(a, c),
{
    assert forall|k: int| 0 <= k < a.len() implies (#[trigger] a[k]).len() <= c[k].len()
        && c[k].take(a[k].len() as int) == a[k] by {
        assert(b[k].len() <= c[k].len());
        assert(c[k].take(b[k].len() as int) == b[k]);
        assert(c[k].take(a[k].len() as int) =~= c[k].take(b[k].len() as int).take(
            a[k].len() as int,
        ));
    }
}

proof fn lemma_put_fronts(lines: Seq<Seq<SpanView>>, span: SpanView)
    requires
        lines.len() > 0,
    ensures
        fronts(lines, put(lines, span)),
        put(lines, span).len() > 0,
{
    let b = put(lines, span);
    assert forall|k: int| 0 <= k < lines.len() implies (#[trigger] lines[k]).len() <= b[k].len()
        && b[k].take(lines[k].len() as int) == lines[k] by {
        assert(b[k].take(lines[k].len() as int) =~= lines[k]);
    }
}

proof fn lemma_flow_keeps_front(lines: Seq<Seq<SpanView>>, nodes: Seq<InlineView>, look: Style)
    requires
        lines.len() > 0,
    ensures
        fronts(lines, flowed(lines, nodes, look)),
    decreases nodes,
{
    if nodes.len() == 0 {
        assert forall|k: int| 0 <= k < lines.len() implies #[trigger] lines[k].take(
            lines[k].len() as int,
        ) == lines[k] by {
            assert(lines[k].take(lines[k].len() as int) =~= lines[k]);
        }
    } else {
        lemma_flow_keeps_front(lines, nodes.drop_last(), look);
        let mid = flowed(lines, nodes.drop_last(), look);
        lemma_one_keeps_front(mid, nodes.last(), look);
        lemma_fronts_chain(lines, mid, flowed(lines, nodes, look));
    }
}

proof fn lemma_one_keeps_front(lines: Seq<Seq<SpanView>>, node: InlineView, look: Style)
    requires
        lines.len() > 0,
    ensures
        fronts(lines, flowed_one(lines, node, look)),
    decreases node,
{
    match node {
        InlineView::Text(t) => {
            lemma_put_fronts(lines, style::span_of(t, look));
        },
        InlineView::Code(t) => {
            lemma_put_fronts(lines, style::span_of(t, Style::toned(Tone::Green)));
        },
        InlineView::Emph(v) => {
            lemma_flow_keeps_front(lines, v, slanted(look));
        },
        InlineView::Strong(v) => {
            lemma_flow_keeps_front(lines, v, heavy(look));
        },
        InlineView::Strike(v) => {
            lemma_flow_keeps_front(lines, v, struck(look));
        },
        InlineView::Link { label, url } => {
            lemma_flow_keeps_front(lines, label, look);
            let mid = flowed(lines, label, look);
            let span = style::span_of(" ("@ + url + ")"@, Style::toned(Tone::Overlay0));
            lemma_put_fronts(mid, span);
            lemma_fronts_chain(lines, mid, put(mid, span));
        },
        InlineView::Image { alt } => {
            let chip = style::span_of("image: "@, Style::toned(Tone::Overlay0));
            lemma_put_fronts(lines, chip);
            lemma_put_fronts(put(lines, chip), style::span_of(alt, look));
            lemma_fronts_chain(
                lines,
                put(lines, chip),
                put(put(lines, chip), style::span_of(alt, look)),
            );
        },
        InlineView::SoftBreak => {
            lemma_put_fronts(lines, style::span_of(" "@, look));
        },
        InlineView::HardBreak => {
            assert forall|k: int| 0 <= k < lines.len() implies #[trigger] lines[k].take(
                lines[k].len() as int,
            ) == lines[k] by {
                assert(lines[k].take(lines[k].len() as int) =~= lines[k]);
            }
        },
    }
}

/// A code line is shown as it stands, on one line; a rule is one line of dashes; and the lines of
/// an HTML block are those of its text. None of them takes its content from elsewhere.
pub proof fn law_code_and_html_are_shown_verbatim(
    nodes: Seq<InlineView>,
    lang: Option<Seq<char>>,
    line: Seq<char>,
    html: Seq<char>,
)
    requires
        html.len() > 0,
    ensures
        page(BlockKindView::Code { lang, line }, nodes) == seq![line],
        page(BlockKindView::Rule, nodes) == seq![Seq::new(24, |k: int| '─')],
        text::breaks_into(html, page(BlockKindView::Html(html), nodes)),
{
    let code = BlockKindView::Code { lang, line };
    lemma_page(code, nodes);
    lemma_one_span(style::span_of(line, Style::toned(Tone::Text)));
    assert(page(code, nodes) =~= seq![line]);
    lemma_page(BlockKindView::Rule, nodes);
    let dashes = text::repeated('─', 24);
    lemma_one_span(style::span_of(dashes, Style::toned(Tone::Overlay0)));
    assert(dashes =~= Seq::new(24, |k: int| '─'));
    assert(page(BlockKindView::Rule, nodes) =~= seq![dashes]);
    let lines = text::text_lines(html);
    text::law_lines_are_the_text(html);
    lemma_page(BlockKindView::Html(html), nodes);
    let shown = page(BlockKindView::Html(html), nodes);
    text::lemma_line_end(html, 0);
    assert(lines.len() > 0);
    assert forall|k: int| 0 <= k < lines.len() implies #[trigger] shown[k] == lines[k] by {
        lemma_one_span(style::span_of(lines[k], Style::toned(Tone::Overlay0)));
    }
    assert(shown =~= lines);
}

/// Text is painted as it is marked up: plain text neither bold nor slanted nor crossed out,
/// emphasis slanted, strong text bold, struck text crossed out, both where one holds the other, and
/// the text of headings bold. Nothing that was there before is painted anew for it.
pub proof fn law_text_is_painted_as_marked_up(nodes: Seq<InlineView>, t: Seq<char>, level: u8)
    ensures
        ({
            let text = seq![InlineView::Text(t)];
            let ink = |kind: BlockKindView, node: InlineView|
                block_lines(kind, nodes.push(node), Seq::empty()).last().spans;
            let held = |kind: BlockKindView| block_lines(kind, nodes, Seq::empty()).last().spans;
            let p = BlockKindView::Paragraph;
            let plain = ink(p, InlineView::Text(t));
            let leaning = ink(p, InlineView::Emph(text));
            let strong = ink(p, InlineView::Strong(text));
            let crossed = ink(p, InlineView::Strike(text));
            let both = ink(p, InlineView::Emph(seq![InlineView::Strong(text)]));
            let code = ink(p, InlineView::Code(t));
            let head = ink(BlockKindView::Heading(level), InlineView::Text(t));
            let quote = ink(BlockKindView::Quote, InlineView::Text(t));
            &&& plain.drop_last() == held(p) && leaning.drop_last() == held(p)
            &&& plain.last().text == t && leaning.last().text == t && strong.last().text == t
            &&& plain.last().style == (Style {
                fg: Some(Tone::Text),
                bg: None,
                bold: false,
                italic: false,
                crossed: false,
            })
            &&& leaning.last().style == (Style { italic: true, ..plain.last().style })
            &&& strong.last().style == (Style { bold: true, ..plain.last().style })
            &&& crossed.last().style == (Style { crossed: true, ..plain.last().style })
            &&& both.last().style == (Style { bold: true, italic: true, ..plain.last().style })
            &&& code.last().text == t && code.last().style.fg == Some(Tone::Green)
            &&& head.last().style.bold && !head.last().style.italic
            &&& quote.last().style.italic && !quote.last().style.bold
        }),
{
    let text = seq![InlineView::Text(t)];
    let strong = seq![InlineView::Strong(text)];
    let look = Style::toned(Tone::Text);
    let blank = seq![Seq::<SpanView>::empty()];
    let lines = flowed(blank, nodes, look);
    lemma_last_span(nodes, InlineView::Text(t));
    lemma_last_span(nodes, InlineView::Emph(text));
    lemma_last_span(nodes, InlineView::Strong(text));
    lemma_last_span(nodes, InlineView::Strike(text));
    lemma_last_span(nodes, InlineView::Emph(strong));
    lemma_last_span(nodes, InlineView::Code(t));
    lemma_single_flow(lines, InlineView::Text(t), slanted(look));
    lemma_single_flow(lines, InlineView::Text(t), heavy(look));
    lemma_single_flow(lines, InlineView::Text(t), struck(look));
    lemma_single_flow(lines, InlineView::Strong(text), slanted(look));
    lemma_single_flow(lines, InlineView::Text(t), heavy(slanted(look)));
    lemma_put_last(lines, style::span_of(t, look));
    lemma_put_last(lines, style::span_of(t, slanted(look)));
    lemma_put_last(lines, style::span_of(t, heavy(look)));
    lemma_put_last(lines, style::span_of(t, struck(look)));
    lemma_put_last(lines, style::span_of(t, heavy(slanted(look))));
    lemma_put_last(lines, style::span_of(t, Style::toned(Tone::Green)));
    let more = nodes.push(InlineView::Text(t));
    let front = seq![
        seq![
            style::span_of(
                text::repeated('#', level as nat).push(' '),
                Style::toned(Tone::Overlay0),
            ),
        ],
    ];
    let tall = flowed(front, nodes, heading_look(level));
    lemma_flowed_len(front, nodes, heading_look(level));
    lemma_put_last(tall, style::span_of(t, heading_look(level)));
    lemma_push_flow(front, nodes, InlineView::Text(t), heading_look(level));
    let quoted = slanted(Style::toned(Tone::Subtext0));
    let under = flowed(blank, nodes, quoted);
    lemma_flowed_len(blank, nodes, quoted);
    lemma_put_last(under, style::span_of(t, quoted));
    lemma_push_flow(blank, nodes, InlineView::Text(t), quoted);
    let bar = style::span_of("▍ "@, Style::toned(Tone::Overlay1));
    let after = put(under, style::span_of(t, quoted));
    assert(prefixed(after, bar).last() == seq![bar] + after.last());
    assert((seq![bar] + after.last()).last() == after.last().last());
    assert(block_spans(BlockKindView::Heading(level), more, Seq::empty()) == put(
        tall,
        style::span_of(t, heading_look(level)),
    ));
    assert(block_spans(BlockKindView::Quote, more, Seq::empty()) == prefixed(after, bar));
}

proof fn lemma_push_flow(
    lines: Seq<Seq<SpanView>>,
    nodes: Seq<InlineView>,
    node: InlineView,
    look: Style,
)
    ensures
        flowed(lines, nodes.push(node), look) == flowed_one(
            flowed(lines, nodes, look),
            node,
            look,
        ),
{
    assert(nodes.push(node).drop_last() =~= nodes);
}

proof fn lemma_single_flow(lines: Seq<Seq<SpanView>>, node: InlineView, look: Style)
    ensures
        flowed(lines, seq![node], look) == flowed_one(lines, node, look),
{
    assert(seq![node].drop_last() =~= Seq::<InlineView>::empty());
    reveal_with_fuel(flowed, 2);
}

proof fn lemma_put_last(lines: Seq<Seq<SpanView>>, span: SpanView)
    requires
        lines.len() > 0,
    ensures
        put(lines, span).len() == lines.len(),
        put(lines, span).last() == lines.last().push(span),
        put(lines, span).last().drop_last() == lines.last(),
        put(lines, span).last().last() == span,
{
    assert(put(lines, span).last().drop_last() =~= lines.last());
}

proof fn lemma_last_span(nodes: Seq<InlineView>, node: InlineView)
    ensures
        ({
            let look = Style::toned(Tone::Text);
            let blank = seq![Seq::<SpanView>::empty()];
            let lines = flowed(blank, nodes, look);
            let kind = BlockKindView::Paragraph;
            &&& lines.len() > 0
            &&& block_lines(kind, nodes, Seq::empty()).last().spans == lines.last()
            &&& block_lines(kind, nodes.push(node), Seq::empty()).last().spans == flowed_one(
                lines,
                node,
                look,
            ).last()
        }),
{
    let look = Style::toned(Tone::Text);
    let blank = seq![Seq::<SpanView>::empty()];
    assert(nodes.push(node).drop_last() =~= nodes);
    lemma_flowed_len(blank, nodes, look);
    lemma_flowed_one_len(flowed(blank, nodes, look), node, look);
}

/// Rendering fills in the lines of a block and changes nothing else; what a block shows depends on
/// the blocks around it in a table only.
pub proof fn law_rendering_keeps_the_block(blocks: Seq<BlockView>, i: int)
    requires
        0 <= i < blocks.len(),
    ensures
        ({
            let (a, b) = (blocks[i], all_shown(blocks)[i]);
            &&& all_shown(blocks).len() == blocks.len()
            &&& b.source_start == a.source_start && b.source_end == a.source_end
            &&& b.kind == a.kind && b.inlines == a.inlines
            &&& !(a.kind is TableRow) ==> line_texts(b.rendered) == page(a.kind, a.inlines)
            &&& forall|k: int|
                0 <= k < b.rendered.len() ==> (#[trigger] b.rendered[k]).fill is None
        }),
{
    let (a, b) = (blocks[i], all_shown(blocks)[i]);
    let columns = columns_at(blocks, i);
    if !(a.kind is TableRow) {
        assert(block_spans(a.kind, a.inlines, columns) == block_spans(
            a.kind,
            a.inlines,
            Seq::empty(),
        ));
        assert(line_texts(b.rendered) =~= page(a.kind, a.inlines));
    }
}

/// The first `n` of `texts` side by side, `gaps[k]` spaces behind text `k` and a bar between each
/// two.
pub open spec fn beside(texts: Seq<Seq<char>>, gaps: Seq<nat>, n: int) -> Seq<char>
    decreases n,
{
    if n <= 0 {
        Seq::empty()
    } else {
        beside(texts, gaps, n - 1) + if n > 1 {
            seq![' ', '│', ' ']
        } else {
            Seq::empty()
        } + texts[n - 1] + Seq::new(gaps[n - 1], |k: int| ' ')
    }
}

proof fn lemma_cells_text(
    cells: Seq<Seq<InlineView>>,
    n: int,
    look: Style,
    columns: Seq<usize>,
)
    requires
        0 <= n <= cells.len(),
        forall|c: int|
            0 <= c < cells.len() ==> page(BlockKindView::Paragraph, #[trigger] cells[c]).len()
                == 1,
    ensures
        sheet_texts(flowed_cells(cells, n, look, columns)) == seq![
            beside(
                Seq::new(cells.len(), |c: int| page(BlockKindView::Paragraph, cells[c])[0]),
                Seq::new(cells.len(), |c: int| cell_gap(cells, c, look, columns)),
                n,
            ),
        ],
    decreases n,
{
    let texts = Seq::new(cells.len(), |c: int| page(BlockKindView::Paragraph, cells[c])[0]);
    let gaps = Seq::new(cells.len(), |c: int| cell_gap(cells, c, look, columns));
    let all = flowed_cells(cells, n, look, columns);
    if n == 0 {
        lemma_blank_texts();
    } else {
        lemma_cells_text(cells, n - 1, look, columns);
        lemma_cells_len(cells, n - 1, look, columns);
        let rest = flowed_cells(cells, n - 1, look, columns);
        let bar = style::span_of(" │ "@, Style::toned(Tone::Overlay0));
        reveal_strlit(" │ ");
        assert(bar.text =~= seq![' ', '│', ' ']);
        let apart = if n > 1 {
            put(rest, bar)
        } else {
            rest
        };
        lemma_put_text(rest, bar);
        let cell = cells[n - 1];
        assert(page(BlockKindView::Paragraph, cells[n - 1]).len() == 1);
        lemma_paragraph_page(cell);
        lemma_flow_runs_on(apart, cell, look, Style::toned(Tone::Text));
        let filled = flowed(apart, cell, look);
        let gap = cell_gap(cells, n - 1, look, columns);
        let space = style::raw_of(text::repeated(' ', gap));
        lemma_put_text(filled, space);
        let want = beside(texts, gaps, n);
        let before = beside(texts, gaps, n - 1);
        assert(space.text =~= Seq::new(gap, |k: int| ' '));
        let joint = if n > 1 {
            seq![' ', '│', ' ']
        } else {
            Seq::empty()
        };
        assert(sheet_texts(apart) =~= seq![before + joint]);
        assert(sheet_texts(filled) =~= seq![before + joint + texts[n - 1]]);
        assert(want == before + joint + texts[n - 1] + space.text);
        if gap > 0 {
            assert(sheet_texts(all) =~= seq![want]);
        } else {
            assert(want =~= before + joint + texts[n - 1]);
            assert(sheet_texts(all) =~= seq![want]);
        }
    }
}

/// Whether `lines` is one line, with the cells side by side, each as a paragraph of the same content
/// would show it, and `gaps[k]` spaces behind cell `k`.
pub open spec fn row_shows(
    lines: Seq<Seq<char>>,
    cells: Seq<Seq<InlineView>>,
    gaps: Seq<nat>,
) -> bool {
    lines == seq![
        beside(
            Seq::new(cells.len(), |c: int| page(BlockKindView::Paragraph, cells[c])[0]),
            gaps,
            cells.len() as int,
        ),
    ]
}

/// A table row shows each of its cells, in order, as a paragraph of the same content would show it,
/// with a bar between each two cells and spaces only to fill the columns.
pub proof fn law_table_rows_show_their_cells(
    blocks: Seq<BlockView>,
    i: int,
    header: bool,
    cells: Seq<Seq<InlineView>>,
)
    requires
        0 <= i < blocks.len(),
        blocks[i].kind == (BlockKindView::TableRow { header, cells }),
        forall|c: int|
            0 <= c < cells.len() ==> page(BlockKindView::Paragraph, #[trigger] cells[c]).len()
                == 1,
    ensures
        exists|gaps: Seq<nat>|
            gaps.len() == cells.len() && #[trigger] row_shows(
                line_texts(shown(blocks, i).rendered),
                cells,
                gaps,
            ),
{
    let columns = columns_at(blocks, i);
    let look = row_look(header);
    lemma_cells_text(cells, cells.len() as int, look, columns);
    let gaps = Seq::new(cells.len(), |c: int| cell_gap(cells, c, look, columns));
    let texts = Seq::new(cells.len(), |c: int| page(BlockKindView::Paragraph, cells[c])[0]);
    let sheet = flowed_cells(cells, cells.len() as int, look, columns);
    assert(line_texts(shown(blocks, i).rendered) =~= sheet_texts(sheet));
    assert(row_shows(line_texts(shown(blocks, i).rendered), cells, gaps));
}

/// The texts of the spans of each line of `sheet`.
spec fn sheet_ink(sheet: Seq<Seq<SpanView>>) -> Seq<Seq<Seq<char>>> {
    sheet.map_values(|l: Seq<SpanView>| l.map_values(|s: SpanView| s.text))
}

proof fn lemma_put_ink(a: Seq<Seq<SpanView>>, b: Seq<Seq<SpanView>>, s: SpanView, t: SpanView)
    requires
        a.len() > 0,
        sheet_ink(a) == sheet_ink(b),
        s.text == t.text,
    ensures
        sheet_ink(put(a, s)) == sheet_ink(put(b, t)),
        put(a, s).len() > 0,
{
    assert(sheet_ink(a).len() == a.len() && sheet_ink(b).len() == b.len());
    let (x, y) = (put(a, s), put(b, t));
    assert forall|k: int| 0 <= k < x.len() implies #[trigger] sheet_ink(x)[k] == sheet_ink(y)[k] by {
        assert(sheet_ink(a)[k] == sheet_ink(b)[k]);
        if k == x.len() - 1 {
            assert(sheet_ink(x)[k] =~= sheet_ink(a)[k].push(s.text));
            assert(sheet_ink(y)[k] =~= sheet_ink(b)[k].push(t.text));
        }
    }
    assert(sheet_ink(x) =~= sheet_ink(y));
}

proof fn lemma_flow_ink(
    a: Seq<Seq<SpanView>>,
    b: Seq<Seq<SpanView>>,
    nodes: Seq<InlineView>,
    look: Style,
    other: Style,
)
    requires
        a.len() > 0,
        sheet_ink(a) == sheet_ink(b),
    ensures
        sheet_ink(flowed(a, nodes, look)) == sheet_ink(flowed(b, nodes, other)),
    decreases nodes,
{
    if nodes.len() > 0 {
        let rest = nodes.drop_last();
        lemma_flow_ink(a, b, rest, look, other);
        lemma_flowed_len(a, rest, look);
        lemma_one_ink(flowed(a, rest, look), flowed(b, rest, other), nodes.last(), look, other);
    }
}

proof fn lemma_one_ink(
    a: Seq<Seq<SpanView>>,
    b: Seq<Seq<SpanView>>,
    node: InlineView,
    look: Style,
    other: Style,
)
    requires
        a.len() > 0,
        sheet_ink(a) == sheet_ink(b),
    ensures
        sheet_ink(flowed_one(a, node, look)) == sheet_ink(flowed_one(b, node, other)),
    decreases node,
{
    match node {
        InlineView::Text(t) => {
            lemma_put_ink(a, b, style::span_of(t, look), style::span_of(t, other));
        },
        InlineView::Code(t) => {
            let s = style::span_of(t, Style::toned(Tone::Green));
            lemma_put_ink(a, b, s, s);
        },
        InlineView::Emph(v) => {
            lemma_flow_ink(a, b, v, slanted(look), slanted(other));
        },
        InlineView::Strong(v) => {
            lemma_flow_ink(a, b, v, heavy(look), heavy(other));
        },
        InlineView::Strike(v) => {
            lemma_flow_ink(a, b, v, struck(look), struck(other));
        },
        InlineView::Link { label, url } => {
            let s = style::span_of(" ("@ + url + ")"@, Style::toned(Tone::Overlay0));
            lemma_flow_ink(a, b, label, look, other);
            lemma_flowed_len(a, label, look);
            lemma_put_ink(flowed(a, label, look), flowed(b, label, other), s, s);
        },
        InlineView::Image { alt } => {
            let s = style::span_of("image: "@, Style::toned(Tone::Overlay0));
            lemma_put_ink(a, b, s, s);
            lemma_put_ink(put(a, s), put(b, s), style::span_of(alt, look), style::span_of(
                alt,
                other,
            ));
        },
        InlineView::SoftBreak => {
            lemma_put_ink(a, b, style::span_of(" "@, look), style::span_of(" "@, other));
        },
        InlineView::HardBreak => {
            assert(sheet_ink(a.push(Seq::empty())) =~= sheet_ink(a).push(
                Seq::<SpanView>::empty().map_values(|s: SpanView| s.text),
            ));
            assert(sheet_ink(b.push(Seq::empty())) =~= sheet_ink(b).push(
                Seq::<SpanView>::empty().map_values(|s: SpanView| s.text),
            ));
        },
    }
}

proof fn lemma_width_of_ink(a: Seq<SpanView>, b: Seq<SpanView>)
    requires
        a.map_values(|s: SpanView| s.text) == b.map_values(|s: SpanView| s.text),
    ensures
        style::spans_width(a) == style::spans_width(b),
    decreases a.len(),
{
    let (x, y) = (a.map_values(|s: SpanView| s.text), b.map_values(|s: SpanView| s.text));
    assert(x.len() == a.len() && y.len() == b.len());
    if a.len() > 0 {
        assert(x.last() == y.last());
        assert(a.drop_last().map_values(|s: SpanView| s.text) =~= x.drop_last());
        assert(b.drop_last().map_values(|s: SpanView| s.text) =~= y.drop_last());
        lemma_width_of_ink(a.drop_last(), b.drop_last());
    }
}

/// A table column is as wide as the widest of its cells: in each row, a cell as it is shown and the
/// spaces behind it take as many columns of the screen as the column, no cell takes more, and some
/// cell of the table takes as many.
pub proof fn law_table_cells_are_measured_as_shown(
    blocks: Seq<BlockView>,
    i: int,
    header: bool,
    cells: Seq<Seq<InlineView>>,
    c: int,
)
    requires
        0 <= i < blocks.len(),
        blocks[i].kind == (BlockKindView::TableRow { header, cells }),
        0 <= c < cells.len(),
    ensures
        ({
            let columns = columns_at(blocks, i);
            let wide = style::capped(
                style::spans_width(
                    block_lines(BlockKindView::Paragraph, cells[c], Seq::empty()).last().spans,
                ),
            );
            &&& c < columns.len()
            &&& wide <= columns[c]
            &&& c + 1 < cells.len() ==> wide + cell_gap(cells, c, row_look(header), columns)
                == columns[c]
        }),
{
    let look = row_look(header);
    let plain = Style::toned(Tone::Text);
    let blank = seq![Seq::<SpanView>::empty()];
    lemma_row_in_table(blocks, i);
    lemma_columns_hold_row(blocks, table_start(blocks, i), table_end(blocks, i), i, c);
    lemma_flow_ink(blank, blank, cells[c], look, plain);
    let (x, y) = (flowed(blank, cells[c], look), flowed(blank, cells[c], plain));
    lemma_flowed_len(blank, cells[c], look);
    lemma_flowed_len(blank, cells[c], plain);
    assert(sheet_ink(x).len() == x.len() && sheet_ink(y).len() == y.len());
    assert(sheet_ink(x).last() == sheet_ink(y).last());
    lemma_width_of_ink(x.last(), y.last());
    assert(block_lines(BlockKindView::Paragraph, cells[c], Seq::empty()).last().spans == y.last());
}

/// Some cell of a table is as wide as its column: columns are no wider than they need to be.
pub proof fn law_table_columns_are_no_wider_than_needed(blocks: Seq<BlockView>, i: int, c: int)
    requires
        0 <= i < blocks.len(),
        0 <= c < columns_at(blocks, i).len(),
    ensures
        exists|k: int|
            {
                &&& table_start(blocks, i) <= k < table_end(blocks, i)
                &&& c < row_columns(#[trigger] blocks[k].kind).len()
                &&& row_columns(blocks[k].kind)[c] == columns_at(blocks, i)[c]
            },
{
    lemma_column_from_row(blocks, table_start(blocks, i), table_end(blocks, i), c);
}

proof fn lemma_column_from_row(blocks: Seq<BlockView>, from: int, to: int, c: int)
    requires
        0 <= c < table_columns(blocks, from, to).len(),
    ensures
        exists|k: int|
            {
                &&& from <= k < to
                &&& c < row_columns(#[trigger] blocks[k].kind).len()
                &&& row_columns(blocks[k].kind)[c] == table_columns(blocks, from, to)[c]
            },
    decreases to - from,
{
    let rest = table_columns(blocks, from, to - 1);
    let last = row_columns(blocks[to - 1].kind);
    if c < last.len() && last[c] == table_columns(blocks, from, to)[c] {
        assert(from <= to - 1 < to);
    } else {
        lemma_column_from_row(blocks, from, to - 1, c);
        let k = choose|k: int|
            {
                &&& from <= k < to - 1
                &&& c < row_columns(#[trigger] blocks[k].kind).len()
                &&& row_columns(blocks[k].kind)[c] == rest[c]
            };
        assert(c < row_columns(blocks[k].kind).len());
    }
}

/// The columns of the screen that a table cell takes, shown as a paragraph of the same content.
pub open spec fn cell_wide(cell: Seq<InlineView>) -> usize {
    style::capped(
        style::spans_width(block_lines(BlockKindView::Paragraph, cell, Seq::empty()).last().spans),
    )
}

/// Whether block `k` is a row of a table that row `j` opens or goes on with: `j` is a row and all
/// behind it up to `k` are rows that are no header.
pub open spec fn rows_of_one_table(blocks: Seq<BlockView>, j: int, k: int) -> bool {
    &&& 0 <= j <= k < blocks.len()
    &&& blocks[j].kind is TableRow
    &&& forall|m: int| j < m <= k ==> (#[trigger] blocks[m].kind) is TableRow
        && !(blocks[m].kind->header)
}

/// Whether `i` and `k` are rows of the same table.
pub open spec fn same_table(blocks: Seq<BlockView>, i: int, k: int) -> bool {
    rows_of_one_table(blocks, i, k) || rows_of_one_table(blocks, k, i)
}

proof fn lemma_same_start(blocks: Seq<BlockView>, j: int, k: int)
    requires
        rows_of_one_table(blocks, j, k),
    ensures
        table_start(blocks, k) == table_start(blocks, j),
    decreases k - j,
{
    if j < k {
        assert(blocks[k].kind is TableRow && !(blocks[k].kind->header));
        assert(blocks[k - 1].kind is TableRow) by {
            if k - 1 > j {
                assert(blocks[k - 1].kind is TableRow);
            }
        }
        assert(goes_on(blocks, k));
        lemma_same_start(blocks, j, k - 1);
    }
}

proof fn lemma_back_to_start(blocks: Seq<BlockView>, i: int, k: int)
    requires
        0 <= i < blocks.len(),
        blocks[i].kind is TableRow,
        table_start(blocks, i) <= k <= i,
    ensures
        0 <= k,
        rows_of_one_table(blocks, k, i),
    decreases i - k,
{
    if k < i {
        assert(goes_on(blocks, i));
        lemma_back_to_start(blocks, i - 1, k);
        assert forall|m: int| k < m <= i implies (#[trigger] blocks[m].kind) is TableRow && !(
        blocks[m].kind->header) by {
            if m < i {
                assert(blocks[m].kind is TableRow && !(blocks[m].kind->header));
            }
        }
    }
}

proof fn lemma_on_to_end(blocks: Seq<BlockView>, i: int, k: int)
    requires
        0 <= i < blocks.len(),
        blocks[i].kind is TableRow,
        i <= k < table_end(blocks, i),
    ensures
        rows_of_one_table(blocks, i, k),
    decreases k - i,
{
    if i < k {
        assert(goes_on(blocks, i + 1));
        lemma_on_to_end(blocks, i + 1, k);
        assert forall|m: int| i < m <= k implies (#[trigger] blocks[m].kind) is TableRow && !(
        blocks[m].kind->header) by {
            if m > i + 1 {
                assert(blocks[m].kind is TableRow && !(blocks[m].kind->header));
            }
        }
    }
}

proof fn lemma_cell_wide(cell: Seq<InlineView>, look: Style)
    ensures
        cell_columns(cell, look) == cell_wide(cell),
{
    let plain = Style::toned(Tone::Text);
    let blank = seq![Seq::<SpanView>::empty()];
    lemma_flow_ink(blank, blank, cell, look, plain);
    let (x, y) = (flowed(blank, cell, look), flowed(blank, cell, plain));
    lemma_flowed_len(blank, cell, look);
    lemma_flowed_len(blank, cell, plain);
    assert(sheet_ink(x).len() == x.len() && sheet_ink(y).len() == y.len());
    assert(sheet_ink(x).last() == sheet_ink(y).last());
    lemma_width_of_ink(x.last(), y.last());
    assert(block_lines(BlockKindView::Paragraph, cell, Seq::empty()).last().spans == y.last());
}

/// Whether `columns` fit the table of row `i`: each column is as wide as its widest cell in any row
/// of the table, and there is one for each cell of the row.
pub open spec fn fit_table(blocks: Seq<BlockView>, i: int, columns: Seq<usize>) -> bool {
    &&& blocks[i].kind->cells.len() <= columns.len()
    &&& forall|k: int, c: int|
        same_table(blocks, i, k) && 0 <= c < (blocks[k].kind->cells).len() ==> cell_wide(
            #[trigger] (blocks[k].kind->cells)[c],
        ) <= columns[c]
    &&& forall|c: int| 0 <= c < columns.len() ==> is_widest(blocks, i, c, #[trigger] columns[c])
}

/// Whether some row of the table of row `i` has a cell in column `c` that is `wide` columns wide.
pub open spec fn is_widest(blocks: Seq<BlockView>, i: int, c: int, wide: usize) -> bool {
    exists|k: int|
        same_table(blocks, i, k) && c < (blocks[k].kind->cells).len() && cell_wide(
            (#[trigger] blocks[k].kind->cells)[c],
        ) == wide
}

/// Whether the spaces `gaps` fill the cells of a row up to `columns`; the last cell has none.
pub open spec fn fill_up(cells: Seq<Seq<InlineView>>, columns: Seq<usize>, gaps: Seq<nat>) -> bool {
    &&& gaps.len() == cells.len()
    &&& forall|c: int|
        0 <= c < cells.len() ==> #[trigger] gaps[c] == if c + 1 < cells.len() {
            columns[c] - cell_wide(cells[c])
        } else {
            0
        }
}

/// The columns of a table line up on the screen: a row shows its cells side by side, each with as
/// many spaces behind it as it is narrower than the widest cell of its column in the whole table,
/// and none behind the last.
pub proof fn law_table_cells_fill_their_columns(blocks: Seq<BlockView>, i: int)
    requires
        0 <= i < blocks.len(),
        blocks[i].kind is TableRow,
        forall|c: int|
            0 <= c < (blocks[i].kind->cells).len() ==> page(
                BlockKindView::Paragraph,
                #[trigger] (blocks[i].kind->cells)[c],
            ).len() == 1,
    ensures
        exists|columns: Seq<usize>, gaps: Seq<nat>|
            fit_table(blocks, i, columns) && #[trigger] fill_up(
                blocks[i].kind->cells,
                columns,
                gaps,
            ) && row_shows(line_texts(shown(blocks, i).rendered), blocks[i].kind->cells, gaps),
{
    let header = blocks[i].kind->header;
    let cells = blocks[i].kind->cells;
    let look = row_look(header);
    let columns = columns_at(blocks, i);
    let gaps = Seq::new(cells.len(), |c: int| cell_gap(cells, c, look, columns));
    lemma_row_in_table(blocks, i);
    assert forall|c: int| 0 <= c < cells.len() implies c < columns.len() && #[trigger] gaps[c]
        == if c + 1 < cells.len() {
        columns[c] - cell_wide(cells[c])
    } else {
        0
    } by {
        lemma_columns_hold_row(blocks, table_start(blocks, i), table_end(blocks, i), i, c);
        lemma_cell_wide(cells[c], look);
        assert(row_columns(blocks[i].kind)[c] == cell_columns(cells[c], look));
    }
    if cells.len() > 0 {
        assert(gaps[cells.len() - 1] == 0);
    }
    assert(fill_up(cells, columns, gaps));
    assert forall|k: int, c: int|
        same_table(blocks, i, k) && 0 <= c < (blocks[k].kind->cells).len() implies cell_wide(
        #[trigger] (blocks[k].kind->cells)[c],
    ) <= columns[c] by {
        let other = blocks[k].kind->cells;
        lemma_row_in_table(blocks, k);
        lemma_columns_hold_row(blocks, table_start(blocks, k), table_end(blocks, k), k, c);
        lemma_cell_wide(other[c], row_look(blocks[k].kind->header));
        if rows_of_one_table(blocks, i, k) {
            lemma_same_start(blocks, i, k);
            law_table_rows_share_columns(blocks, i, k);
        } else {
            lemma_same_start(blocks, k, i);
            law_table_rows_share_columns(blocks, k, i);
        }
    }
    assert forall|c: int| 0 <= c < columns.len() implies is_widest(
        blocks,
        i,
        c,
        #[trigger] columns[c],
    ) by {
        law_table_columns_are_no_wider_than_needed(blocks, i, c);
        let k = choose|k: int|
            {
                &&& table_start(blocks, i) <= k < table_end(blocks, i)
                &&& c < row_columns(#[trigger] blocks[k].kind).len()
                &&& row_columns(blocks[k].kind)[c] == columns_at(blocks, i)[c]
            };
        if k <= i {
            lemma_back_to_start(blocks, i, k);
        } else {
            lemma_on_to_end(blocks, i, k);
        }
        assert(same_table(blocks, i, k));
        let other = blocks[k].kind->cells;
        lemma_cell_wide(other[c], row_look(blocks[k].kind->header));
        assert(cell_wide((blocks[k].kind->cells)[c]) == columns[c]);
    }
    assert(fit_table(blocks, i, columns));
    lemma_cells_text(cells, cells.len() as int, look, columns);
    let sheet = flowed_cells(cells, cells.len() as int, look, columns);
    assert(line_texts(shown(blocks, i).rendered) =~= sheet_texts(sheet));
    assert(row_shows(line_texts(shown(blocks, i).rendered), cells, gaps));
}

proof fn lemma_cells_keep_front(
    cells: Seq<Seq<InlineView>>,
    n: int,
    look: Style,
    columns: Seq<usize>,
)
    requires
        1 <= n <= cells.len(),
    ensures
        fronts(
            flowed(seq![Seq::empty()], cells[0], look),
            flowed_cells(cells, n, look, columns),
        ),
    decreases n,
{
    let first = flowed(seq![Seq::empty()], cells[0], look);
    let rest = flowed_cells(cells, n - 1, look, columns);
    lemma_flowed_len(seq![Seq::empty()], cells[0], look);
    lemma_cells_len(cells, n - 1, look, columns);
    let bar = style::span_of(" │ "@, Style::toned(Tone::Overlay0));
    let apart = if n > 1 {
        put(rest, bar)
    } else {
        rest
    };
    let filled = flowed(apart, cells[n - 1], look);
    let gap = cell_gap(cells, n - 1, look, columns);
    let space = style::raw_of(text::repeated(' ', gap));
    if n > 1 {
        lemma_cells_keep_front(cells, n - 1, look, columns);
        lemma_put_fronts(rest, bar);
        lemma_fronts_chain(first, rest, apart);
        lemma_flow_keeps_front(apart, cells[n - 1], look);
        lemma_fronts_chain(first, apart, filled);
    } else {
        assert(flowed_cells(cells, 0, look, columns) == seq![Seq::<SpanView>::empty()]);
        lemma_flow_keeps_front(first, Seq::empty(), look);
    }
    lemma_flowed_len(apart, cells[n - 1], look);
    if gap > 0 {
        lemma_put_fronts(filled, space);
        lemma_fronts_chain(first, filled, put(filled, space));
    }
}

/// The header of a table is bold and its other rows are not.
pub proof fn law_header_cells_are_bold(blocks: Seq<BlockView>, i: int, t: Seq<char>)
    requires
        0 <= i < blocks.len(),
        blocks[i].kind is TableRow,
        (blocks[i].kind->cells).len() > 0,
        (blocks[i].kind->cells)[0] == seq![InlineView::Text(t)],
    ensures
        ({
            let first = shown(blocks, i).rendered[0].spans[0];
            &&& first.text == t
            &&& first.style.bold == (blocks[i].kind->header)
            &&& first.style.fg == Some(Tone::Text)
            &&& !first.style.italic && !first.style.crossed
        }),
{
    let header = blocks[i].kind->header;
    let cells = blocks[i].kind->cells;
    let look = row_look(header);
    let columns = columns_at(blocks, i);
    let all = flowed_cells(cells, cells.len() as int, look, columns);
    let blank = seq![Seq::<SpanView>::empty()];
    lemma_cells_keep_front(cells, cells.len() as int, look, columns);
    lemma_single_flow(blank, InlineView::Text(t), look);
    let first = flowed(blank, cells[0], look);
    assert(first[0].len() <= all[0].len() && all[0].take(first[0].len() as int) == first[0]);
    assert(first[0][0] == style::span_of(t, look));
    assert(all[0].take(first[0].len() as int)[0] == all[0][0]);
    assert(shown(blocks, i).rendered[0].spans == all[0]);
}

} // verus!
