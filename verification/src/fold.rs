//! Folding a markdown event stream into the blocks of a document.
use crate::events;
use crate::events::{Event, EventView, SourceEvent, SourceEventView, TagKind, source_events};
use crate::markdown;
use crate::markdown::{
    Block, BlockKind, BlockKindView, BlockView, FrameView, Inline, InlineFrame, InlineView,
    line_index, line_of, pop_alt, pop_nodes, push_inline,
};
use crate::offsets;
use crate::offsets::{char_offsets, marker_at};
use crate::style::LineView;
use crate::text;
use crate::text::{chars_of, split_text_lines};
use vstd::prelude::*;

verus! {

/// What is known of an open list item.
pub struct ItemView {
    /// How many blocks there were when it opened: its place, before all that it holds.
    pub at: int,
    pub ordered: bool,
    pub marker: Seq<char>,
    pub depth: u8,
    pub task: Option<bool>,
}

/// What is known of an open code block: its language, the text so far, and the byte offset at
/// which the first of that text lies.
pub struct CodeView {
    pub lang: Option<Seq<char>>,
    pub text: Seq<char>,
    pub start: Option<usize>,
}

/// What the events so far have built.
#[verifier::ext_equal]
pub struct ParseView {
    /// The blocks, in the order in which their elements opened.
    pub blocks: Seq<BlockView>,
    /// The open inline containers, innermost last.
    pub frames: Seq<FrameView>,
    /// The destinations of the open links, innermost last.
    pub links: Seq<Seq<char>>,
    /// How many block quotes are open.
    pub quotes: int,
    /// The open lists, `true` for an ordered one, innermost last.
    pub lists: Seq<bool>,
    /// The open list items, innermost last.
    pub items: Seq<ItemView>,
    /// The open code block.
    pub code: Option<CodeView>,
    /// The text of the open HTML block.
    pub html: Option<Seq<char>>,
    /// The blocks that are the rows of the current table.
    pub rows: Seq<int>,
    /// The cells of the current table row.
    pub cells: Seq<Seq<InlineView>>,
}

/// The state before the first event.
pub open spec fn nothing_parsed() -> ParseView {
    ParseView {
        blocks: Seq::empty(),
        frames: Seq::empty(),
        links: Seq::empty(),
        quotes: 0,
        lists: Seq::empty(),
        items: Seq::empty(),
        code: None,
        html: None,
        rows: Seq::empty(),
        cells: Seq::empty(),
    }
}

/// A source line number, as the 32 bits that a block keeps of it.
pub open spec fn line_at(source: Seq<char>, byte: int) -> u32 {
    (markdown::line_number(offsets::source_bytes(source), byte) % 0x1_0000_0000) as u32
}

/// The line on which the bytes `start..end` of the source begin.
pub open spec fn first_line(source: Seq<char>, start: usize) -> u32 {
    line_at(source, start as int)
}

/// The line on which the last of the bytes `start..end` of the source lies.
pub open spec fn last_line(source: Seq<char>, end: usize) -> u32 {
    line_at(
        source,
        if end == 0 {
            0
        } else {
            end - 1
        },
    )
}

/// A block over the source bytes `start..end`, not rendered yet.
pub open spec fn block_over(
    source: Seq<char>,
    start: usize,
    end: usize,
    kind: BlockKindView,
    inlines: Seq<InlineView>,
) -> BlockView {
    BlockView {
        source_start: first_line(source, start),
        source_end: last_line(source, end),
        rendered: Seq::empty(),
        kind,
        inlines,
    }
}

/// `p` with a block over the source bytes `start..end` added.
pub open spec fn with_block(
    p: ParseView,
    source: Seq<char>,
    start: usize,
    end: usize,
    kind: BlockKindView,
    inlines: Seq<InlineView>,
) -> ParseView {
    ParseView { blocks: p.blocks.push(block_over(source, start, end, kind, inlines)), ..p }
}

/// The numbers of blocks once one more has been put in at `at`.
pub open spec fn moved_on(rows: Seq<int>, at: int) -> Seq<int> {
    rows.map_values(
        |r: int|
            if r >= at {
                r + 1
            } else {
                r
            },
    )
}

/// `p` with an empty inline container opened.
pub open spec fn with_frame(p: ParseView) -> ParseView {
    ParseView { frames: p.frames.push(FrameView::Nodes(Seq::empty())), ..p }
}

/// `p` with `node` added to the innermost inline container.
pub open spec fn with_node(p: ParseView, node: InlineView) -> ParseView {
    ParseView { frames: markdown::with_inline(p.frames, node), ..p }
}

/// `p` with the innermost inline container closed.
pub open spec fn without_frame(p: ParseView) -> ParseView {
    ParseView { frames: markdown::without_top(p.frames), ..p }
}

/// The language that an info string names: none where it is absent or empty.
pub open spec fn language(info: Option<Seq<char>>) -> Option<Seq<char>> {
    match info {
        Some(s) => if s.len() > 0 {
            Some(s)
        } else {
            None
        },
        None => None,
    }
}

/// One block for each of `lines`, on consecutive source lines from `base` on.
pub open spec fn code_blocks(lang: Option<Seq<char>>, base: u32, lines: Seq<Seq<char>>) -> Seq<
    BlockView,
> {
    Seq::new(
        lines.len(),
        |i: int|
            {
                let line = ((base + i) % 0x1_0000_0000) as u32;
                BlockView {
                    source_start: line,
                    source_end: line,
                    rendered: Seq::empty(),
                    kind: BlockKindView::Code { lang, line: lines[i] },
                    inlines: Seq::empty(),
                }
            },
    )
}

/// `blocks` where each of the first `n` of `rows` reaches down to the line before the next row.
pub open spec fn gaps_closed(blocks: Seq<BlockView>, rows: Seq<int>, n: int) -> Seq<BlockView>
    decreases n,
{
    if n <= 0 {
        blocks
    } else {
        let done = gaps_closed(blocks, rows, n - 1);
        let cur = done[rows[n - 1]];
        let next = done[rows[n]];
        if cur.source_end + 1 < next.source_start {
            done.update(
                rows[n - 1],
                BlockView { source_end: (next.source_start - 1) as u32, ..cur },
            )
        } else {
            done
        }
    }
}

/// `p` after an element of kind `kind` has opened at the source bytes `start..end`.
pub open spec fn opened(
    p: ParseView,
    source: Seq<char>,
    kind: TagKind,
    info: Option<Seq<char>>,
    start: usize,
    end: usize,
) -> ParseView {
    match kind {
        TagKind::Heading(_) => with_frame(p),
        TagKind::TableCell => with_frame(p),
        TagKind::Emphasis => with_frame(p),
        TagKind::Strong => with_frame(p),
        TagKind::Strikethrough => with_frame(p),
        // A paragraph inside a list item adds to the item itself.
        TagKind::Paragraph => if p.items.len() == 0 {
            with_frame(p)
        } else {
            p
        },
        TagKind::BlockQuote => ParseView { quotes: p.quotes + 1, ..p },
        TagKind::CodeBlock => ParseView {
            code: Some(CodeView { lang: language(info), text: Seq::empty(), start: None }),
            ..p
        },
        TagKind::HtmlBlock => ParseView { html: Some(Seq::empty()), ..p },
        TagKind::List(ordered) => ParseView { lists: p.lists.push(ordered), ..p },
        TagKind::Item => with_frame(
            ParseView {
                items: p.items.push(
                    ItemView {
                        at: p.blocks.len() as int,
                        ordered: p.lists.len() > 0 && p.lists.last(),
                        marker: offsets::marker_text(source, start as int, end as int),
                        depth: (p.lists.len() % 256) as u8,
                        task: None,
                    },
                ),
                ..p
            },
        ),
        TagKind::Table => ParseView { rows: Seq::empty(), ..p },
        TagKind::TableHead => ParseView { cells: Seq::empty(), ..p },
        TagKind::TableRow => ParseView { cells: Seq::empty(), ..p },
        TagKind::Link => with_frame(
            ParseView {
                links: p.links.push(
                    match info {
                        Some(url) => url,
                        None => Seq::empty(),
                    },
                ),
                ..p
            },
        ),
        TagKind::Image => ParseView { frames: p.frames.push(FrameView::Alt(Seq::empty())), ..p },
        TagKind::Other => p,
    }
}

/// `p` after a table row has closed; `header` for the head row.
pub open spec fn row_closed(
    p: ParseView,
    source: Seq<char>,
    start: usize,
    end: usize,
    header: bool,
) -> ParseView {
    ParseView {
        rows: p.rows.push(p.blocks.len() as int),
        cells: Seq::empty(),
        ..with_block(
            p,
            source,
            start,
            end,
            BlockKindView::TableRow { header, cells: p.cells },
            Seq::empty(),
        )
    }
}

/// `p` after the element of kind `kind` over the source bytes `start..end` has closed.
pub open spec fn closed(
    p: ParseView,
    source: Seq<char>,
    kind: TagKind,
    start: usize,
    end: usize,
) -> ParseView {
    let nodes = markdown::top_nodes(p.frames);
    match kind {
        TagKind::Heading(level) => with_block(
            without_frame(p),
            source,
            start,
            end,
            BlockKindView::Heading(level),
            nodes,
        ),
        TagKind::Paragraph => if p.items.len() == 0 {
            with_block(
                without_frame(p),
                source,
                start,
                end,
                if p.quotes > 0 {
                    BlockKindView::Quote
                } else {
                    BlockKindView::Paragraph
                },
                nodes,
            )
        } else {
            p
        },
        TagKind::BlockQuote => ParseView {
            quotes: if p.quotes > 0 {
                p.quotes - 1
            } else {
                0
            },
            ..p
        },
        TagKind::CodeBlock => match p.code {
            Some(c) => ParseView {
                blocks: match c.start {
                    Some(at) => p.blocks + code_blocks(
                        c.lang,
                        first_line(source, at),
                        text::text_lines(c.text),
                    ),
                    None => p.blocks,
                },
                code: None,
                ..p
            },
            None => p,
        },
        TagKind::HtmlBlock => ParseView {
            html: None,
            ..with_block(
                p,
                source,
                start,
                end,
                BlockKindView::Html(
                    match p.html {
                        Some(s) => s,
                        None => Seq::empty(),
                    },
                ),
                Seq::empty(),
            )
        },
        TagKind::List(_) => ParseView {
            lists: if p.lists.len() > 0 {
                p.lists.drop_last()
            } else {
                p.lists
            },
            ..p
        },
        // An item stands before the blocks of what it holds, which have closed already.
        TagKind::Item => if p.items.len() == 0 {
            p
        } else {
            let item = p.items.last();
            let block = block_over(
                source,
                start,
                end,
                BlockKindView::Item {
                    ordered: item.ordered,
                    marker: item.marker,
                    depth: item.depth,
                    task: item.task,
                },
                nodes,
            );
            ParseView {
                blocks: p.blocks.insert(item.at, block),
                rows: moved_on(p.rows, item.at),
                items: p.items.drop_last(),
                ..without_frame(p)
            }
        },
        TagKind::TableCell => ParseView { cells: p.cells.push(nodes), ..without_frame(p) },
        TagKind::TableHead => row_closed(p, source, start, end, true),
        TagKind::TableRow => row_closed(p, source, start, end, false),
        TagKind::Table => ParseView {
            blocks: gaps_closed(p.blocks, p.rows, p.rows.len() - 1),
            rows: Seq::empty(),
            ..p
        },
        TagKind::Emphasis => with_node(without_frame(p), InlineView::Emph(nodes)),
        TagKind::Strong => with_node(without_frame(p), InlineView::Strong(nodes)),
        TagKind::Strikethrough => with_node(without_frame(p), InlineView::Strike(nodes)),
        TagKind::Link => with_node(
            ParseView {
                links: if p.links.len() > 0 {
                    p.links.drop_last()
                } else {
                    p.links
                },
                ..without_frame(p)
            },
            InlineView::Link {
                label: nodes,
                url: if p.links.len() > 0 {
                    p.links.last()
                } else {
                    Seq::empty()
                },
            },
        ),
        TagKind::Image => with_node(
            without_frame(p),
            InlineView::Image { alt: markdown::top_alt(p.frames) },
        ),
        TagKind::Other => p,
    }
}

/// `p` after one more event.
pub open spec fn stepped(
    p: ParseView,
    source: Seq<char>,
    event: SourceEventView<TagKind>,
) -> ParseView {
    match event.event {
        EventView::Start(kind, info) => opened(p, source, kind, info, event.start, event.end),
        EventView::End(kind) => closed(p, source, kind, event.start, event.end),
        EventView::Text(t) => match p.code {
            Some(c) => ParseView {
                code: Some(
                    CodeView {
                        text: c.text + t,
                        start: match c.start {
                            Some(at) => Some(at),
                            None => Some(event.start),
                        },
                        ..c
                    },
                ),
                ..p
            },
            None => with_node(p, InlineView::Text(t)),
        },
        EventView::Code(t) => with_node(p, InlineView::Code(t)),
        EventView::Html(t) => match p.html {
            Some(s) => ParseView { html: Some(s + t), ..p },
            None => p,
        },
        EventView::InlineHtml(t) => with_node(p, InlineView::Text(t)),
        EventView::SoftBreak => with_node(p, InlineView::SoftBreak),
        EventView::HardBreak => with_node(p, InlineView::HardBreak),
        EventView::Rule => with_block(
            p,
            source,
            event.start,
            event.end,
            BlockKindView::Rule,
            Seq::empty(),
        ),
        EventView::TaskListMarker(checked) => if p.items.len() == 0 {
            p
        } else {
            ParseView {
                items: p.items.drop_last().push(
                    ItemView { task: Some(checked), ..p.items.last() },
                ),
                ..p
            }
        },
        EventView::Other => p,
    }
}

/// What `events`, in order, build from nothing.
pub open spec fn parsed(source: Seq<char>, events: Seq<SourceEventView<TagKind>>) -> ParseView
    decreases events.len(),
{
    if events.len() == 0 {
        nothing_parsed()
    } else {
        stepped(parsed(source, events.drop_last()), source, events.last())
    }
}

/// `blocks` with `b` put in behind the last of them that starts no later.
pub open spec fn with_placed(blocks: Seq<BlockView>, b: BlockView) -> Seq<BlockView>
    decreases blocks.len(),
{
    if blocks.len() == 0 || blocks.last().source_start <= b.source_start {
        blocks.push(b)
    } else {
        with_placed(blocks.drop_last(), b).push(blocks.last())
    }
}

/// `blocks` by the line on which they start; those of one line keep their order.
pub open spec fn by_line(blocks: Seq<BlockView>) -> Seq<BlockView>
    decreases blocks.len(),
{
    if blocks.len() == 0 {
        blocks
    } else {
        with_placed(by_line(blocks.drop_last()), blocks.last())
    }
}

/// The blocks of a source with these events, by the line on which they start.
pub open spec fn folded(source: Seq<char>, events: Seq<SourceEventView<TagKind>>) -> Seq<
    BlockView,
> {
    by_line(parsed(source, events).blocks)
}

/// Whether no block starts on an earlier line than one before it.
pub open spec fn source_ordered(blocks: Seq<BlockView>) -> bool {
    forall|i: int, j: int|
        0 <= i < j < blocks.len() ==> (#[trigger] blocks[i]).source_start <= (
        #[trigger] blocks[j]).source_start
}

proof fn lemma_with_placed(blocks: Seq<BlockView>, b: BlockView)
    requires
        source_ordered(blocks),
    ensures
        source_ordered(with_placed(blocks, b)),
        with_placed(blocks, b).len() == blocks.len() + 1,
        forall|k: int|
            0 <= k <= blocks.len() ==> (#[trigger] with_placed(blocks, b)[k]) == b
                || blocks.contains(with_placed(blocks, b)[k]),
    decreases blocks.len(),
{
    let after = with_placed(blocks, b);
    if blocks.len() == 0 || blocks.last().source_start <= b.source_start {
        assert forall|i: int, j: int| 0 <= i < j < after.len() implies (
        #[trigger] after[i]).source_start <= (#[trigger] after[j]).source_start by {
            if j == blocks.len() {
                assert(blocks[i].source_start <= blocks[blocks.len() - 1].source_start);
            }
        }
        assert forall|k: int| 0 <= k <= blocks.len() implies (#[trigger] after[k]) == b
            || blocks.contains(after[k]) by {
            if k < blocks.len() {
                assert(after[k] == blocks[k]);
            }
        }
    } else {
        let rest = blocks.drop_last();
        let inner = with_placed(rest, b);
        assert(forall|k: int| 0 <= k < rest.len() ==> #[trigger] rest[k] == blocks[k]);
        lemma_with_placed(rest, b);
        assert forall|k: int| 0 <= k < inner.len() implies (#[trigger] inner[k]).source_start
            <= blocks.last().source_start && (inner[k] == b || blocks.contains(inner[k])) by {
            if inner[k] != b {
                let m = choose|m: int| 0 <= m < rest.len() && rest[m] == inner[k];
                assert(blocks[m] == inner[k]);
                assert(blocks[m].source_start <= blocks[blocks.len() - 1].source_start);
            }
        }
        assert forall|i: int, j: int| 0 <= i < j < after.len() implies (
        #[trigger] after[i]).source_start <= (#[trigger] after[j]).source_start by {
            assert(after[i] == inner[i]);
            if j < inner.len() {
                assert(after[j] == inner[j]);
            }
        }
        assert forall|k: int| 0 <= k <= blocks.len() implies (#[trigger] after[k]) == b
            || blocks.contains(after[k]) by {
            if k < inner.len() {
                assert(after[k] == inner[k]);
            } else {
                assert(blocks[blocks.len() - 1] == after[k]);
            }
        }
    }
}

pub proof fn lemma_by_line(blocks: Seq<BlockView>)
    ensures
        source_ordered(by_line(blocks)),
        by_line(blocks).len() == blocks.len(),
        forall|k: int|
            0 <= k < blocks.len() ==> blocks.contains(#[trigger] by_line(blocks)[k]),
    decreases blocks.len(),
{
    if blocks.len() > 0 {
        let rest = blocks.drop_last();
        lemma_by_line(rest);
        lemma_with_placed(by_line(rest), blocks.last());
        assert forall|k: int| 0 <= k < blocks.len() implies blocks.contains(
            #[trigger] by_line(blocks)[k],
        ) by {
            let b = by_line(blocks)[k];
            if b == blocks.last() {
                assert(blocks[blocks.len() - 1] == b);
            } else {
                let m = choose|m: int| 0 <= m < by_line(rest).len() && by_line(rest)[m] == b;
                assert(rest.contains(by_line(rest)[m]));
                let n = choose|n: int| 0 <= n < rest.len() && rest[n] == b;
                assert(blocks[n] == b);
            }
        }
    }
}

/// The blocks of a document stand in the order of its source, whatever the events are: no block
/// starts on an earlier line than one before it, so a run of blocks omits nothing between them.
/// None is left out or made up for it.
pub proof fn law_blocks_are_in_source_order(
    source: Seq<char>,
    events: Seq<SourceEventView<TagKind>>,
)
    ensures
        source_ordered(folded(source, events)),
        folded(source, events).len() == parsed(source, events).blocks.len(),
        forall|k: int|
            0 <= k < folded(source, events).len() ==> parsed(source, events).blocks.contains(
                #[trigger] folded(source, events)[k],
            ),
{
    lemma_by_line(parsed(source, events).blocks);
}

/// After a table has closed, each of its rows reaches down to the line before the next row or
/// further: the delimiter row, which is no block of its own, belongs to the row above it. No
/// block moves or shrinks for it.
pub proof fn law_table_rows_leave_no_gap(blocks: Seq<BlockView>, rows: Seq<int>, n: int)
    requires
        n < rows.len(),
        forall|k: int| 0 <= k < rows.len() ==> 0 <= #[trigger] rows[k] < blocks.len(),
    ensures
        gaps_closed(blocks, rows, n).len() == blocks.len(),
        forall|k: int|
            0 <= k < n ==> gaps_closed(blocks, rows, n)[#[trigger] rows[k]].source_end + 1
                >= gaps_closed(blocks, rows, n)[rows[k + 1]].source_start,
        forall|b: int|
            0 <= b < blocks.len() ==> {
                let after = #[trigger] gaps_closed(blocks, rows, n)[b];
                &&& after.source_end >= blocks[b].source_end
                &&& after == (BlockView { source_end: after.source_end, ..blocks[b] })
            },
    decreases n,
{
    if n > 0 {
        law_table_rows_leave_no_gap(blocks, rows, n - 1);
        let done = gaps_closed(blocks, rows, n - 1);
        let after = gaps_closed(blocks, rows, n);
        assert(0 <= rows[n - 1] < blocks.len() && 0 <= rows[n] < blocks.len());
        assert(forall|b: int|
            0 <= b < blocks.len() ==> (#[trigger] after[b]).source_end >= done[b].source_end
                && after[b].source_start == done[b].source_start);
        assert forall|k: int| 0 <= k < n implies after[#[trigger] rows[k]].source_end + 1
            >= after[rows[k + 1]].source_start by {
            assert(0 <= rows[k + 1] < blocks.len());
        }
    }
}

/// Whether none of `blocks` is rendered yet.
pub open spec fn unrendered(blocks: Seq<BlockView>) -> bool {
    forall|b: int| 0 <= b < blocks.len() ==> (#[trigger] blocks[b]).rendered == Seq::<
        LineView,
    >::empty()
}

/// Whether every row of the open table is one of the blocks.
pub open spec fn rows_are_blocks(p: ParseView) -> bool {
    forall|k: int| 0 <= k < p.rows.len() ==> 0 <= #[trigger] p.rows[k] < p.blocks.len()
}

/// Whether every open item has its place among the blocks.
pub open spec fn items_have_places(p: ParseView) -> bool {
    forall|k: int| 0 <= k < p.items.len() ==> 0 <= (#[trigger] p.items[k]).at <= p.blocks.len()
}

pub proof fn lemma_parsing_renders_nothing(source: Seq<char>, events: Seq<SourceEventView<TagKind>>)
    ensures
        unrendered(parsed(source, events).blocks),
        rows_are_blocks(parsed(source, events)),
        items_have_places(parsed(source, events)),
    decreases events.len(),
{
    if events.len() > 0 {
        let p = parsed(source, events.drop_last());
        let e = events.last();
        lemma_parsing_renders_nothing(source, events.drop_last());
        if e.event == EventView::<TagKind>::End(TagKind::Table) && p.rows.len() > 0 {
            law_table_rows_leave_no_gap(p.blocks, p.rows, p.rows.len() - 1);
        }
    }
}

/// Whatever the events are, parsing renders no block.
pub proof fn law_parsed_blocks_are_unrendered(
    source: Seq<char>,
    events: Seq<SourceEventView<TagKind>>,
)
    ensures
        unrendered(folded(source, events)),
{
    lemma_parsing_renders_nothing(source, events);
    lemma_by_line(parsed(source, events).blocks);
    let made = parsed(source, events).blocks;
    let blocks = folded(source, events);
    assert forall|b: int| 0 <= b < blocks.len() implies (#[trigger] blocks[b]).rendered == Seq::<
        LineView,
    >::empty() by {
        assert(made.contains(blocks[b]));
    }
}

pub proof fn lemma_feeds_grow(bytes: Seq<u8>, a: int, b: int)
    requires
        0 <= a <= b <= bytes.len(),
    ensures
        markdown::line_feeds(bytes.take(a)) <= markdown::line_feeds(bytes.take(b)) <= b,
    decreases b,
{
    if b == 0 {
        assert(bytes.take(0) =~= Seq::empty());
    } else {
        assert(bytes.take(b).drop_last() =~= bytes.take(b - 1));
        lemma_feeds_grow(
            bytes,
            if a < b {
                a
            } else {
                b - 1
            },
            b - 1,
        );
    }
}

/// How many lines the source has: one more than it has line feeds.
pub open spec fn line_count(source: Seq<char>) -> nat {
    markdown::line_feeds(offsets::source_bytes(source)) + 1
}

pub proof fn lemma_line_at_grows(source: Seq<char>, a: int, b: int)
    requires
        0 <= a <= b,
        offsets::source_bytes(source).len() < 0xffff_ffff,
    ensures
        1 <= line_at(source, a) <= line_at(source, b) <= line_count(source),
{
    let bytes = offsets::source_bytes(source);
    let n = bytes.len() as int;
    let x = if a < n {
        a
    } else {
        n
    };
    let y = if b < n {
        b
    } else {
        n
    };
    assert(bytes.take(n) =~= bytes);
    lemma_feeds_grow(bytes, x, y);
    lemma_feeds_grow(bytes, y, n);
}

/// Whether the open code block starts at `start` or later, and its lines go no further than
/// those of the source up to `end`.
pub open spec fn code_fits(p: ParseView, source: Seq<char>, start: usize, end: usize) -> bool {
    p.code matches Some(c) ==> (c.start matches Some(at) ==> start <= at && first_line(source, at)
        + text::text_lines(c.text).len() <= last_line(source, end) + 1)
}

/// Whether elements of this kind become blocks.
pub open spec fn makes_block(kind: TagKind) -> bool {
    match kind {
        TagKind::Heading(_) => true,
        TagKind::Paragraph => true,
        TagKind::CodeBlock => true,
        TagKind::HtmlBlock => true,
        TagKind::Item => true,
        TagKind::TableHead => true,
        TagKind::TableRow => true,
        _ => false,
    }
}

/// Whether `e` stands for at least one byte of the source, where it makes a block.
pub open spec fn sized(e: SourceEventView<TagKind>) -> bool {
    match e.event {
        EventView::End(kind) => makes_block(kind) ==> e.start < e.end,
        EventView::Rule => e.start < e.end,
        _ => true,
    }
}

/// Whether no event that makes a block is empty, and no code block has more lines than the source
/// that it stands for.
pub open spec fn well_ranged(source: Seq<char>, events: Seq<SourceEventView<TagKind>>) -> bool
    decreases events.len(),
{
    if events.len() == 0 {
        true
    } else {
        let rest = events.drop_last();
        let e = events.last();
        &&& well_ranged(source, rest)
        &&& sized(e)
        &&& e.event == EventView::<TagKind>::End(TagKind::CodeBlock) ==> code_fits(
            parsed(source, rest),
            source,
            e.start,
            e.end,
        )
    }
}

/// Whether each of `blocks` covers lines of a source with `n` lines: it ends on the line on
/// which it starts or later, and both are lines of the source.
pub open spec fn lines_within(blocks: Seq<BlockView>, n: nat) -> bool {
    forall|b: int|
        0 <= b < blocks.len() ==> 1 <= (#[trigger] blocks[b]).source_start <= blocks[b].source_end
            <= n
}

pub proof fn lemma_gaps_within(blocks: Seq<BlockView>, rows: Seq<int>, k: int, n: nat)
    requires
        k < rows.len(),
        forall|j: int| 0 <= j < rows.len() ==> 0 <= #[trigger] rows[j] < blocks.len(),
        lines_within(blocks, n),
    ensures
        gaps_closed(blocks, rows, k).len() == blocks.len(),
        lines_within(gaps_closed(blocks, rows, k), n),
    decreases k,
{
    if k > 0 {
        lemma_gaps_within(blocks, rows, k - 1, n);
        assert(0 <= rows[k - 1] < blocks.len() && 0 <= rows[k] < blocks.len());
    }
}

#[verifier::rlimit(40)]
pub proof fn lemma_parsed_within(source: Seq<char>, events: Seq<SourceEventView<TagKind>>)
    requires
        offsets::source_bytes(source).len() < 0xffff_ffff,
        well_ranged(source, events),
    ensures
        lines_within(parsed(source, events).blocks, line_count(source)),
    decreases events.len(),
{
    if events.len() > 0 {
        let rest = events.drop_last();
        let p = parsed(source, rest);
        let q = parsed(source, events);
        let e = events.last();
        let n = line_count(source);
        lemma_parsed_within(source, rest);
        lemma_parsing_renders_nothing(source, rest);
        if e.start < e.end {
            lemma_line_at_grows(source, e.start as int, e.end - 1);
        }
        if e.event == EventView::<TagKind>::End(TagKind::Table) && p.rows.len() > 0 {
            lemma_gaps_within(p.blocks, p.rows, p.rows.len() - 1, n);
        } else if e.event == EventView::<TagKind>::End(TagKind::CodeBlock) {
            if let Some(c) = p.code {
                if let Some(at) = c.start {
                    let base = first_line(source, at);
                    lemma_line_at_grows(source, at as int, at as int);
                    let added = code_blocks(c.lang, base, text::text_lines(c.text));
                    assert forall|b: int| 0 <= b < q.blocks.len() implies 1 <= (
                    #[trigger] q.blocks[b]).source_start <= q.blocks[b].source_end <= n by {
                        if b >= p.blocks.len() {
                            assert(q.blocks[b] == added[b - p.blocks.len()]);
                        } else {
                            assert(q.blocks[b] == p.blocks[b]);
                        }
                    }
                }
            }
        } else if e.event == EventView::<TagKind>::End(TagKind::Item) && p.items.len() > 0 {
            let at = p.items.last().at;
            assert forall|b: int| 0 <= b < q.blocks.len() implies 1 <= (
            #[trigger] q.blocks[b]).source_start <= q.blocks[b].source_end <= n by {
                if b < at {
                    assert(q.blocks[b] == p.blocks[b]);
                } else if b > at {
                    assert(q.blocks[b] == p.blocks[b - 1]);
                }
            }
        }
    }
}

/// Every block covers lines of its source: it starts on the first line or later, ends no earlier
/// than it starts, and ends on the last line or earlier. This holds of any source with less than
/// 2^32 - 1 bytes in which no event that makes a block is empty and no code block has more lines
/// than the source that it stands for.
pub proof fn law_block_lines_are_in_order(
    source: Seq<char>,
    events: Seq<SourceEventView<TagKind>>,
)
    requires
        offsets::source_bytes(source).len() < 0xffff_ffff,
        well_ranged(source, events),
    ensures
        lines_within(folded(source, events), line_count(source)),
{
    lemma_parsed_within(source, events);
    let made = parsed(source, events).blocks;
    let blocks = folded(source, events);
    lemma_by_line(made);
    assert forall|b: int| 0 <= b < blocks.len() implies 1 <= (#[trigger] blocks[b]).source_start
        <= blocks[b].source_end <= line_count(source) by {
        assert(made.contains(blocks[b]));
    }
}

/// How far into the source the blocks go after `events`: to the start of the block that opened
/// last, or to its end where it has closed.
pub open spec fn reached(events: Seq<SourceEventView<TagKind>>) -> int
    decreases events.len(),
{
    if events.len() == 0 {
        0
    } else {
        let e = events.last();
        let before = reached(events.drop_last());
        match e.event {
            EventView::Start(kind, _) => if makes_block(kind) {
                e.start as int
            } else {
                before
            },
            EventView::End(kind) => if makes_block(kind) && kind != TagKind::Item {
                e.end as int
            } else {
                before
            },
            EventView::Rule => e.end as int,
            _ => before,
        }
    }
}

/// Where each of the list items that are open after `events` starts, innermost last.
pub open spec fn open_items(events: Seq<SourceEventView<TagKind>>) -> Seq<usize>
    decreases events.len(),
{
    if events.len() == 0 {
        Seq::empty()
    } else {
        let e = events.last();
        let before = open_items(events.drop_last());
        match e.event {
            EventView::Start(TagKind::Item, _) => before.push(e.start),
            EventView::End(TagKind::Item) => if before.len() > 0 {
                before.drop_last()
            } else {
                before
            },
            _ => before,
        }
    }
}

/// Whether `events` follow their source: each block opens where those before it have reached or
/// behind that, a block other than a list item holds no other block, a list item closes with the
/// start with which it opened, and no code block has more lines than the source that it stands
/// for.
pub open spec fn in_turn(source: Seq<char>, events: Seq<SourceEventView<TagKind>>) -> bool
    decreases events.len(),
{
    if events.len() == 0 {
        true
    } else {
        let rest = events.drop_last();
        let e = events.last();
        &&& in_turn(source, rest)
        &&& match e.event {
            EventView::Start(kind, _) => makes_block(kind) ==> reached(rest) <= e.start,
            EventView::End(TagKind::Item) => open_items(rest).len() > 0 ==> e.start
                == open_items(rest).last(),
            EventView::End(kind) => makes_block(kind) ==> {
                &&& reached(rest) == e.start
                &&& e.start <= e.end
                &&& kind == TagKind::CodeBlock ==> code_fits(
                    parsed(source, rest),
                    source,
                    e.start,
                    e.end,
                )
            },
            EventView::Rule => reached(rest) <= e.start <= e.end,
            _ => true,
        }
    }
}

/// Whether the blocks of `p` are in source order up to byte `r`, and each open item has its
/// place between the blocks that start no later and those that start no earlier.
spec fn placed(p: ParseView, source: Seq<char>, r: int, starts: Seq<usize>) -> bool {
    &&& 0 <= r
    &&& source_ordered(p.blocks)
    &&& p.items.len() == starts.len()
    &&& forall|b: int|
        0 <= b < p.blocks.len() ==> (#[trigger] p.blocks[b]).source_start <= line_at(source, r)
    &&& forall|k: int| 0 <= k < starts.len() ==> #[trigger] starts[k] <= r
    &&& forall|k: int, b: int|
        0 <= k < starts.len() && 0 <= b < (#[trigger] p.items[k]).at ==> (
        #[trigger] p.blocks[b]).source_start <= line_at(source, starts[k] as int)
    &&& forall|k: int, b: int|
        0 <= k < starts.len() && (#[trigger] p.items[k]).at <= b < p.blocks.len() ==> (
        #[trigger] p.blocks[b]).source_start >= line_at(source, starts[k] as int)
    &&& forall|k: int, l: int|
        0 <= k < l < starts.len() ==> (#[trigger] p.items[k]).at <= (#[trigger] p.items[l]).at
            && starts[k] <= starts[l]
}

proof fn lemma_push_keeps_places(
    p: ParseView,
    q: ParseView,
    source: Seq<char>,
    r: int,
    s: int,
    starts: Seq<usize>,
)
    requires
        offsets::source_bytes(source).len() < 0xffff_ffff,
        placed(p, source, r, starts),
        items_have_places(p),
        r <= s,
        q.items.len() == p.items.len(),
        forall|k: int| 0 <= k < p.items.len() ==> (#[trigger] q.items[k]).at == p.items[k].at,
        q.blocks.len() >= p.blocks.len(),
        source_ordered(q.blocks.skip(p.blocks.len() as int)),
        forall|b: int|
            0 <= b < p.blocks.len() ==> (#[trigger] q.blocks[b]).source_start
                == p.blocks[b].source_start,
        forall|b: int|
            p.blocks.len() <= b < q.blocks.len() ==> line_at(source, r) <= (
            #[trigger] q.blocks[b]).source_start <= line_at(source, s),
    ensures
        placed(q, source, s, starts),
{
    let n = p.blocks.len() as int;
    lemma_line_at_grows(source, r, s);
    let tail = q.blocks.skip(n);
    assert forall|i: int, j: int| 0 <= i < j < q.blocks.len() implies (
    #[trigger] q.blocks[i]).source_start <= (#[trigger] q.blocks[j]).source_start by {
        if j < n {
            assert(p.blocks[i].source_start <= p.blocks[j].source_start);
        } else if i >= n {
            assert(tail[i - n] == q.blocks[i] && tail[j - n] == q.blocks[j]);
        } else {
            assert(p.blocks[i].source_start <= line_at(source, r));
        }
    }
    assert forall|b: int| 0 <= b < q.blocks.len() implies (#[trigger] q.blocks[b]).source_start
        <= line_at(source, s) by {
        if b < n {
            assert(p.blocks[b].source_start <= line_at(source, r));
        }
    }
    assert forall|k: int, b: int| 0 <= k < starts.len() && 0 <= b < (
    #[trigger] q.items[k]).at implies (#[trigger] q.blocks[b]).source_start <= line_at(
        source,
        starts[k] as int,
    ) by {
        assert(q.items[k].at == p.items[k].at <= n);
        assert(p.blocks[b].source_start == q.blocks[b].source_start);
    }
    assert forall|k: int, b: int| 0 <= k < starts.len() && (#[trigger] q.items[k]).at <= b
        < q.blocks.len() implies (#[trigger] q.blocks[b]).source_start >= line_at(
        source,
        starts[k] as int,
    ) by {
        if b < n {
            assert(q.items[k].at == p.items[k].at <= b);
            assert(p.blocks[b].source_start == q.blocks[b].source_start);
        } else {
            lemma_line_at_grows(source, starts[k] as int, r);
        }
    }
    assert forall|k: int, l: int| 0 <= k < l < starts.len() implies (#[trigger] q.items[k]).at
        <= (#[trigger] q.items[l]).at && starts[k] <= starts[l] by {
        assert(q.items[k].at == p.items[k].at <= p.items[l].at == q.items[l].at);
    }
}

proof fn lemma_item_takes_its_place(
    p: ParseView,
    q: ParseView,
    source: Seq<char>,
    r: int,
    starts: Seq<usize>,
    b: BlockView,
)
    requires
        offsets::source_bytes(source).len() < 0xffff_ffff,
        placed(p, source, r, starts),
        items_have_places(p),
        p.items.len() > 0,
        b.source_start == line_at(source, starts.last() as int),
        q.items == p.items.drop_last(),
        q.blocks == p.blocks.insert(p.items.last().at, b),
    ensures
        placed(q, source, r, starts.drop_last()),
{
    let last = starts.len() - 1;
    let at = p.items[last].at;
    lemma_line_at_grows(source, starts[last] as int, r);
    assert forall|i: int| 0 <= i < at implies #[trigger] q.blocks[i] == p.blocks[i] by {}
    assert forall|i: int| at < i < q.blocks.len() implies #[trigger] q.blocks[i] == p.blocks[i
        - 1] by {}
    assert forall|i: int, j: int| 0 <= i < j < q.blocks.len() implies (
    #[trigger] q.blocks[i]).source_start <= (#[trigger] q.blocks[j]).source_start by {
        let x = if i < at {
            i
        } else {
            i - 1
        };
        let y = if j < at {
            j
        } else {
            j - 1
        };
        if i != at && j != at {
            assert(p.blocks[x].source_start <= p.blocks[y].source_start);
        } else if i == at {
            assert(p.items[last].at <= y);
            assert(p.blocks[y].source_start >= line_at(source, starts[last] as int));
        } else {
            assert(x < p.items[last].at);
            assert(p.blocks[x].source_start <= line_at(source, starts[last] as int));
        }
    }
    assert forall|k: int, i: int| 0 <= k < last && 0 <= i < (#[trigger] q.items[k]).at implies (
    #[trigger] q.blocks[i]).source_start <= line_at(source, starts[k] as int) by {
        assert(p.items[k].at <= p.items[last].at);
        assert(p.blocks[i] == q.blocks[i]);
    }
    assert forall|k: int, i: int| 0 <= k < last && (#[trigger] q.items[k]).at <= i
        < q.blocks.len() implies (#[trigger] q.blocks[i]).source_start >= line_at(
        source,
        starts[k] as int,
    ) by {
        assert(p.items[k].at <= p.items[last].at && starts[k] <= starts[last]);
        if i < at {
            assert(p.blocks[i] == q.blocks[i]);
        } else if i > at {
            assert(p.items[k].at <= i - 1);
            assert(p.blocks[i - 1] == q.blocks[i]);
        } else {
            lemma_line_at_grows(source, starts[k] as int, starts[last] as int);
        }
    }
    assert forall|k: int, l: int| 0 <= k < l < last implies (#[trigger] q.items[k]).at <= (
    #[trigger] q.items[l]).at && starts[k] <= starts[l] by {
        assert(p.items[k].at <= p.items[l].at);
    }
}

proof fn lemma_item_opens(
    p: ParseView,
    q: ParseView,
    source: Seq<char>,
    r: int,
    start: usize,
    starts: Seq<usize>,
)
    requires
        offsets::source_bytes(source).len() < 0xffff_ffff,
        placed(p, source, r, starts),
        items_have_places(p),
        r <= start,
        q.blocks == p.blocks,
        q.items.len() == p.items.len() + 1,
        q.items.drop_last() == p.items,
        q.items.last().at == p.blocks.len(),
    ensures
        placed(q, source, start as int, starts.push(start)),
{
    let n = starts.len() as int;
    let now = starts.push(start);
    lemma_line_at_grows(source, r, start as int);
    assert forall|k: int| 0 <= k < n implies #[trigger] q.items[k] == p.items[k] by {
        assert(q.items.drop_last()[k] == p.items[k]);
    }
    assert forall|b: int| 0 <= b < q.blocks.len() implies (#[trigger] q.blocks[b]).source_start
        <= line_at(source, start as int) by {
        assert(p.blocks[b].source_start <= line_at(source, r));
    }
    assert forall|k: int, l: int| 0 <= k < l < n + 1 implies (#[trigger] q.items[k]).at <= (
    #[trigger] q.items[l]).at && now[k] <= now[l] by {
        assert(p.items[k].at <= p.blocks.len() && starts[k] <= r);
        if l < n {
            assert(p.items[k].at <= p.items[l].at);
        }
    }
}

proof fn lemma_code_closes(
    p: ParseView,
    source: Seq<char>,
    start: usize,
    end: usize,
    starts: Seq<usize>,
)
    requires
        offsets::source_bytes(source).len() < 0xffff_ffff,
        placed(p, source, start as int, starts),
        items_have_places(p),
        start <= end,
        code_fits(p, source, start, end),
    ensures
        placed(
            closed(p, source, TagKind::CodeBlock, start, end),
            source,
            end as int,
            starts,
        ),
{
    let q = closed(p, source, TagKind::CodeBlock, start, end);
    let n = p.blocks.len() as int;
    lemma_line_at_grows(source, start as int, end as int);
    if let Some(c) = p.code {
        if let Some(at) = c.start {
            let last = if end == 0 {
                0
            } else {
                end - 1
            };
            lemma_line_at_grows(source, last, end as int);
            lemma_line_at_grows(source, start as int, at as int);
            let added = code_blocks(c.lang, first_line(source, at), text::text_lines(c.text));
            assert(q.blocks.skip(n) =~= added);
            assert forall|b: int| n <= b < q.blocks.len() implies line_at(source, start as int)
                <= (#[trigger] q.blocks[b]).source_start <= line_at(source, end as int) by {
                assert(q.blocks[b] == added[b - n]);
            }
        }
    }
    lemma_push_keeps_places(p, q, source, start as int, end as int, starts);
}

#[verifier::rlimit(40)]
proof fn lemma_plain_step(
    p: ParseView,
    source: Seq<char>,
    e: SourceEventView<TagKind>,
    r: int,
    s: int,
    starts: Seq<usize>,
)
    requires
        offsets::source_bytes(source).len() < 0xffff_ffff,
        placed(p, source, r, starts),
        items_have_places(p),
        match e.event {
            EventView::Start(kind, _) => kind != TagKind::Item && if makes_block(kind) {
                r <= e.start && s == e.start
            } else {
                s == r
            },
            EventView::End(kind) => {
                &&& kind != TagKind::Item
                &&& kind != TagKind::Table
                &&& kind != TagKind::CodeBlock
                &&& if makes_block(kind) {
                    r == e.start && e.start <= e.end && s == e.end
                } else {
                    s == r
                }
            },
            EventView::Rule => r <= e.start <= e.end && s == e.end,
            _ => s == r,
        },
    ensures
        placed(stepped(p, source, e), source, s, starts),
{
    let q = stepped(p, source, e);
    lemma_line_at_grows(source, r, s);
    if e.event is Rule || e.event is End {
        if r <= e.start <= s {
            lemma_line_at_grows(source, r, e.start as int);
            lemma_line_at_grows(source, e.start as int, s);
        }
    }
    lemma_push_keeps_places(p, q, source, r, s, starts);
}

#[verifier::rlimit(40)]
proof fn lemma_events_in_turn(source: Seq<char>, events: Seq<SourceEventView<TagKind>>)
    requires
        offsets::source_bytes(source).len() < 0xffff_ffff,
        in_turn(source, events),
    ensures
        placed(parsed(source, events), source, reached(events), open_items(events)),
    decreases events.len(),
{
    if events.len() > 0 {
        let rest = events.drop_last();
        let e = events.last();
        let p = parsed(source, rest);
        let q = parsed(source, events);
        let r = reached(rest);
        let s = reached(events);
        let starts = open_items(rest);
        lemma_events_in_turn(source, rest);
        lemma_parsing_renders_nothing(source, rest);
        match e.event {
            EventView::Start(TagKind::Item, _) => {
                assert(q.items.drop_last() =~= p.items);
                lemma_item_opens(p, q, source, r, e.start, starts);
            },
            EventView::End(TagKind::Item) => {
                if p.items.len() > 0 {
                    let b = q.blocks[p.items.last().at];
                    lemma_item_takes_its_place(p, q, source, r, starts, b);
                }
            },
            EventView::End(TagKind::Table) => {
                if p.rows.len() > 0 {
                    law_table_rows_leave_no_gap(p.blocks, p.rows, p.rows.len() - 1);
                }
                lemma_push_keeps_places(p, q, source, r, r, starts);
            },
            EventView::End(TagKind::CodeBlock) => {
                lemma_code_closes(p, source, e.start, e.end, starts);
            },
            _ => {
                lemma_plain_step(p, source, e, r, s, starts);
            },
        }
    }
}

proof fn lemma_ordered_blocks_stay(blocks: Seq<BlockView>)
    requires
        source_ordered(blocks),
    ensures
        by_line(blocks) == blocks,
    decreases blocks.len(),
{
    if blocks.len() > 0 {
        let rest = blocks.drop_last();
        assert forall|i: int, j: int| 0 <= i < j < rest.len() implies (
        #[trigger] rest[i]).source_start <= (#[trigger] rest[j]).source_start by {
            assert(blocks[i].source_start <= blocks[j].source_start);
        }
        lemma_ordered_blocks_stay(rest);
        if rest.len() > 0 {
            assert(blocks[rest.len() - 1].source_start <= blocks[rest.len() as int].source_start);
        }
        assert(rest.push(blocks.last()) =~= blocks);
    }
}

/// Where the events follow their source, the blocks stand in the order in which their elements
/// opened, a list item before all that it holds: none has to move for the order of its line.
pub proof fn law_blocks_stand_as_they_opened(
    source: Seq<char>,
    events: Seq<SourceEventView<TagKind>>,
)
    requires
        offsets::source_bytes(source).len() < 0xffff_ffff,
        in_turn(source, events),
    ensures
        source_ordered(parsed(source, events).blocks),
        folded(source, events) == parsed(source, events).blocks,
{
    lemma_events_in_turn(source, events);
    lemma_ordered_blocks_stay(parsed(source, events).blocks);
}

/// Per-item state tracked while a list item is open, supporting nested lists.
struct ItemCtx {
    at: usize,
    ordered: bool,
    marker: String,
    depth: u8,
    task: Option<bool>,
}

impl View for ItemCtx {
    type V = ItemView;

    closed spec fn view(&self) -> ItemView {
        ItemView {
            at: self.at as int,
            ordered: self.ordered,
            marker: self.marker@,
            depth: self.depth,
            task: self.task,
        }
    }
}

/// The state of the open code block.
struct CodeCtx {
    lang: Option<String>,
    text: String,
    start: Option<usize>,
}

impl View for CodeCtx {
    type V = CodeView;

    closed spec fn view(&self) -> CodeView {
        CodeView {
            lang: events::optional_text(self.lang),
            text: self.text@,
            start: self.start,
        }
    }
}

/// The state of the fold, with the source it reads.
struct Folder {
    blocks: Vec<Block>,
    frames: Vec<InlineFrame>,
    links: Vec<String>,
    quotes: usize,
    lists: Vec<bool>,
    items: Vec<ItemCtx>,
    code: Option<CodeCtx>,
    html: Option<String>,
    rows: Vec<usize>,
    cells: Vec<Vec<Inline>>,
    chars: Vec<char>,
    offsets: Vec<usize>,
    index: Vec<usize>,
}

impl Folder {
    spec fn view(&self) -> ParseView {
        ParseView {
            blocks: markdown::blocks_view(self.blocks@),
            frames: markdown::frames_view(self.frames@),
            links: text::contents(self.links@),
            quotes: self.quotes as int,
            lists: self.lists@,
            items: self.items@.map_values(|i: ItemCtx| i@),
            code: match self.code {
                Some(c) => Some(c@),
                None => None,
            },
            html: events::optional_text(self.html),
            rows: self.rows@.map_values(|r: usize| r as int),
            cells: markdown::cells_view(self.cells@),
        }
    }

    /// Whether the lookup tables are those of `source`, the table rows are blocks, and the open
    /// items have their places among the blocks.
    spec fn reads(&self, source: Seq<char>) -> bool {
        &&& self.chars@ == source
        &&& offsets::offsets_of(source, self.offsets@)
        &&& self.index@ == markdown::line_starts(offsets::source_bytes(source))
        &&& markdown::ascending(self.index@)
        &&& offsets::source_bytes(source).len() <= usize::MAX
        &&& forall|k: int|
            0 <= k < self.rows@.len() ==> #[trigger] self.rows@[k] < self.blocks@.len()
        &&& forall|k: int|
            0 <= k < self.items@.len() ==> (#[trigger] self.items@[k]).at <= self.blocks@.len()
    }

    fn new(source: &str) -> (r: Folder)
        ensures
            r.view() == nothing_parsed(),
            r.reads(source@),
    {
        let chars: Vec<char> = chars_of(source);
        let total: usize = source.as_bytes().len();
        let offsets: Vec<usize> = char_offsets(&chars, total);
        let index: Vec<usize> = line_index(source);
        let r: Folder = Folder {
            blocks: Vec::new(),
            frames: Vec::new(),
            links: Vec::new(),
            quotes: 0,
            lists: Vec::new(),
            items: Vec::new(),
            code: None,
            html: None,
            rows: Vec::new(),
            cells: Vec::new(),
            chars,
            offsets,
            index,
        };
        assert(r.view() =~= nothing_parsed());
        r
    }

    /// The source line that byte offset `byte` lies on.
    fn line(&self, byte: usize, Ghost(source): Ghost<Seq<char>>) -> (r: u32)
        requires
            self.reads(source),
        ensures
            r == line_at(source, byte as int),
    {
        proof {
            markdown::law_line_of_index(offsets::source_bytes(source), byte as int);
        }
        line_of(self.index.as_slice(), byte)
    }

    /// A block over the source bytes `start..end`.
    fn block(
        &self,
        start: usize,
        end: usize,
        kind: BlockKind,
        inlines: Vec<Inline>,
        Ghost(source): Ghost<Seq<char>>,
    ) -> (r: Block)
        requires
            self.reads(source),
        ensures
            r@ == block_over(source, start, end, kind@, markdown::inlines_view(inlines@)),
    {
        let source_start: u32 = self.line(start, Ghost(source));
        let last: usize = if end == 0 {
            0
        } else {
            end - 1
        };
        let source_end: u32 = self.line(last, Ghost(source));
        let block: Block = Block { source_start, source_end, rendered: Vec::new(), kind, inlines };
        assert(block@.rendered =~= Seq::empty());
        block
    }

    /// Add a block over the source bytes `start..end`.
    fn emit(
        &mut self,
        start: usize,
        end: usize,
        kind: BlockKind,
        inlines: Vec<Inline>,
        Ghost(source): Ghost<Seq<char>>,
    )
        requires
            old(self).reads(source),
        ensures
            final(self).reads(source),
            final(self).view() == with_block(
                old(self).view(),
                source,
                start,
                end,
                kind@,
                markdown::inlines_view(inlines@),
            ),
    {
        let block: Block = self.block(start, end, kind, inlines, Ghost(source));
        self.blocks.push(block);
        assert(self.view() =~= with_block(
            old(self).view(),
            source,
            start,
            end,
            kind@,
            markdown::inlines_view(inlines@),
        ));
    }

    /// Put `block` in at `at`, before the blocks that stand there.
    fn put_in(&mut self, at: usize, block: Block, Ghost(source): Ghost<Seq<char>>)
        requires
            old(self).reads(source),
            at <= old(self).blocks@.len(),
        ensures
            final(self).reads(source),
            final(self).view() == (ParseView {
                blocks: old(self).view().blocks.insert(at as int, block@),
                rows: moved_on(old(self).view().rows, at as int),
                ..old(self).view()
            }),
    {
        let ghost before = self.view();
        let ghost held = self.rows@;
        self.blocks.insert(at, block);
        let total: usize = self.blocks.len();
        let mut i: usize = 0;
        while i < self.rows.len()
            invariant
                i <= self.rows@.len() == held.len(),
                before.rows == held.map_values(|r: usize| r as int),
                total == self.blocks@.len() == before.blocks.len() + 1,
                forall|k: int| 0 <= k < held.len() ==> #[trigger] held[k] < before.blocks.len(),
                forall|k: int|
                    0 <= k < i ==> (#[trigger] self.rows@[k]) as int == moved_on(
                        before.rows,
                        at as int,
                    )[k],
                forall|k: int| i <= k < held.len() ==> #[trigger] self.rows@[k] == held[k],
                self.view().blocks == before.blocks.insert(at as int, block@),
                self.view().frames == before.frames,
                self.view().links == before.links,
                self.view().quotes == before.quotes,
                self.view().lists == before.lists,
                self.view().items == before.items,
                self.view().code == before.code,
                self.view().html == before.html,
                self.view().cells == before.cells,
                self.chars@ == old(self).chars@,
                self.offsets@ == old(self).offsets@,
                self.index@ == old(self).index@,
                self.items@ == old(self).items@,
            decreases self.rows@.len() - i,
        {
            assert(self.rows@[i as int] < total);
            if self.rows[i] >= at {
                self.rows[i] = self.rows[i] + 1;
            }
            i += 1;
        }
        assert(self.view().rows =~= moved_on(before.rows, at as int));
    }

    /// Open an empty inline container.
    fn push_frame(&mut self, Ghost(source): Ghost<Seq<char>>)
        requires
            old(self).reads(source),
        ensures
            final(self).reads(source),
            final(self).view() == with_frame(old(self).view()),
    {
        let frame: InlineFrame = InlineFrame::Nodes(Vec::new());
        assert(frame@ == FrameView::Nodes(Seq::empty()));
        self.frames.push(frame);
        assert(self.view() =~= with_frame(old(self).view()));
    }

    /// Add `node` to the innermost inline container.
    fn add_node(&mut self, node: Inline, Ghost(source): Ghost<Seq<char>>)
        requires
            old(self).reads(source),
        ensures
            final(self).reads(source),
            final(self).view() == with_node(old(self).view(), markdown::inline_view(node)),
    {
        push_inline(&mut self.frames, node);
        assert(self.view() =~= with_node(old(self).view(), markdown::inline_view(node)));
    }

    /// Close the innermost inline container and hand back its nodes.
    fn take_nodes(&mut self, Ghost(source): Ghost<Seq<char>>) -> (r: Vec<Inline>)
        requires
            old(self).reads(source),
        ensures
            final(self).reads(source),
            final(self).view() == without_frame(old(self).view()),
            markdown::inlines_view(r@) == markdown::top_nodes(old(self).view().frames),
    {
        let r: Vec<Inline> = pop_nodes(&mut self.frames);
        assert(self.view() =~= without_frame(old(self).view()));
        r
    }

    /// An element opens.
    fn open(
        &mut self,
        kind: TagKind,
        info: Option<String>,
        start: usize,
        end: usize,
        Ghost(source): Ghost<Seq<char>>,
    )
        requires
            old(self).reads(source),
            old(self).quotes < usize::MAX,
        ensures
            final(self).reads(source),
            final(self).view() == opened(
                old(self).view(),
                source,
                kind,
                events::optional_text(info),
                start,
                end,
            ),
    {
        let ghost target = opened(
            self.view(),
            source,
            kind,
            events::optional_text(info),
            start,
            end,
        );
        match kind {
            TagKind::Heading(_)
            | TagKind::TableCell
            | TagKind::Emphasis
            | TagKind::Strong
            | TagKind::Strikethrough => {
                self.push_frame(Ghost(source));
            },
            TagKind::Paragraph => {
                if self.items.len() == 0 {
                    self.push_frame(Ghost(source));
                }
            },
            TagKind::BlockQuote => {
                self.quotes = self.quotes + 1;
            },
            TagKind::CodeBlock => {
                let lang: Option<String> = match info {
                    Some(s) => if s.as_str().is_empty() {
                        None
                    } else {
                        Some(s)
                    },
                    None => None,
                };
                self.code = Some(CodeCtx { lang, text: String::new(), start: None });
            },
            TagKind::HtmlBlock => {
                self.html = Some(String::new());
            },
            TagKind::List(ordered) => {
                self.lists.push(ordered);
            },
            TagKind::Item => {
                let n: usize = self.lists.len();
                let ordered: bool = n > 0 && self.lists[n - 1];
                let marker: String = marker_at(&self.chars, &self.offsets, start, end);
                let depth: u8 = (n % 256) as u8;
                let at: usize = self.blocks.len();
                let item: ItemCtx = ItemCtx { at, ordered, marker, depth, task: None };
                let ghost mid = self.view();
                self.items.push(item);
                assert(self.view() =~= ParseView { items: mid.items.push(item@), ..mid });
                self.push_frame(Ghost(source));
            },
            TagKind::Table => {
                self.rows = Vec::new();
            },
            TagKind::TableHead | TagKind::TableRow => {
                self.cells = Vec::new();
            },
            TagKind::Link => {
                let url: String = match info {
                    Some(s) => s,
                    None => String::new(),
                };
                let ghost mid = self.view();
                self.links.push(url);
                assert(self.view() =~= ParseView { links: mid.links.push(url@), ..mid });
                self.push_frame(Ghost(source));
            },
            TagKind::Image => {
                self.frames.push(InlineFrame::Alt(String::new()));
            },
            TagKind::Other => {},
        }
        assert(self.view() =~= target);
    }

    /// Close a table row.
    fn close_row(
        &mut self,
        start: usize,
        end: usize,
        header: bool,
        Ghost(source): Ghost<Seq<char>>,
    )
        requires
            old(self).reads(source),
        ensures
            final(self).reads(source),
            final(self).view() == row_closed(old(self).view(), source, start, end, header),
    {
        let ghost before = self.view();
        let row: usize = self.blocks.len();
        let mut cells: Vec<Vec<Inline>> = Vec::new();
        std::mem::swap(&mut cells, &mut self.cells);
        let ghost cells_before = markdown::cells_view(cells@);
        self.emit(
            start,
            end,
            BlockKind::TableRow { header, cells },
            Vec::new(),
            Ghost(source),
        );
        assert(self.view().blocks.len() == row + 1);
        self.rows.push(row);
        assert(markdown::inlines_view(Seq::empty()) =~= Seq::empty());
        assert(self.view() =~= row_closed(before, source, start, end, header));
    }

    /// Close the code block that is open, one block for each of its lines.
    fn close_code(&mut self, Ghost(source): Ghost<Seq<char>>)
        requires
            old(self).reads(source),
        ensures
            final(self).reads(source),
            final(self).view() == closed(old(self).view(), source, TagKind::CodeBlock, 0, 0),
    {
        let ghost before = self.view();
        match self.code.take() {
            None => {},
            Some(ctx) => {
                if let Some(at) = ctx.start {
                    let base: u32 = self.line(at, Ghost(source));
                    let chars: Vec<char> = chars_of(ctx.text.as_str());
                    let lines: Vec<String> = split_text_lines(&chars);
                    let ghost added = code_blocks(ctx@.lang, base, text::contents(lines@));
                    let ghost held = self.blocks@;
                    let mut next: u32 = base;
                    let mut i: usize = 0;
                    while i < lines.len()
                        invariant
                            self.reads(source),
                            i <= lines@.len(),
                            next == (base + i) % 0x1_0000_0000,
                            added == code_blocks(
                                events::optional_text(ctx.lang),
                                base,
                                text::contents(lines@),
                            ),
                            self.blocks@.len() == held.len() + i,
                            forall|k: int| 0 <= k < held.len() ==> self.blocks@[k] == held[k],
                            forall|k: int|
                                held.len() <= k < held.len() + i ==> #[trigger] self.blocks@[k]@
                                    == added[k - held.len()],
                            self.view() == (ParseView {
                                blocks: markdown::blocks_view(self.blocks@),
                                code: None,
                                ..before
                            }),
                        decreases lines@.len() - i,
                    {
                        let lang: Option<String> = match &ctx.lang {
                            Some(s) => Some(s.clone()),
                            None => None,
                        };
                        let line: String = lines[i].clone();
                        let block: Block = Block {
                            source_start: next,
                            source_end: next,
                            rendered: Vec::new(),
                            kind: BlockKind::Code { lang, line },
                            inlines: Vec::new(),
                        };
                        assert(block@.rendered =~= Seq::empty());
                        assert(block@ == added[i as int]);
                        self.blocks.push(block);
                        next = next.wrapping_add(1);
                        i += 1;
                    }
                    assert(markdown::blocks_view(self.blocks@) =~= before.blocks + added);
                }
            },
        }
        assert(self.view() =~= closed(before, source, TagKind::CodeBlock, 0, 0));
    }

    /// Let each row of the table that closes reach down to the line before the next row.
    fn close_gaps(&mut self, Ghost(source): Ghost<Seq<char>>)
        requires
            old(self).reads(source),
        ensures
            final(self).reads(source),
            final(self).view() == closed(old(self).view(), source, TagKind::Table, 0, 0),
    {
        let ghost before = self.view();
        let n: usize = self.rows.len();
        let mut i: usize = 0;
        while i + 1 < n
            invariant
                self.reads(source),
                n == self.rows@.len(),
                before.rows == self.rows@.map_values(|r: usize| r as int),
                i == 0 || i < n,
                self.view() == (ParseView {
                    blocks: gaps_closed(before.blocks, before.rows, i as int),
                    ..before
                }),
            decreases n - i,
        {
            let cur: usize = self.rows[i];
            let next: usize = self.rows[i + 1];
            let next_start: u32 = self.blocks[next].source_start;
            let ghost held = self.blocks@;
            if (self.blocks[cur].source_end as u64) + 1 < next_start as u64 {
                self.blocks[cur].source_end = next_start - 1;
                assert(markdown::blocks_view(self.blocks@) =~= markdown::blocks_view(held).update(
                    cur as int,
                    BlockView {
                        source_end: (next_start - 1) as u32,
                        ..markdown::blocks_view(held)[cur as int]
                    },
                ));
            }
            i += 1;
        }
        self.rows = Vec::new();
        assert(self.view() =~= closed(before, source, TagKind::Table, 0, 0));
    }

    /// Close an inline element and add it to the container around it.
    fn close_inline(
        &mut self,
        kind: TagKind,
        Ghost(source): Ghost<Seq<char>>,
    )
        requires
            old(self).reads(source),
            kind is Emphasis || kind is Strong || kind is Strikethrough || kind is Link
                || kind is Image,
        ensures
            final(self).reads(source),
            final(self).view() == closed(old(self).view(), source, kind, 0, 0),
    {
        let ghost before = self.view();
        let node: Inline = match kind {
            TagKind::Emphasis => Inline::Emph(self.take_nodes(Ghost(source))),
            TagKind::Strong => Inline::Strong(self.take_nodes(Ghost(source))),
            TagKind::Strikethrough => Inline::Strike(self.take_nodes(Ghost(source))),
            TagKind::Link => {
                let label: Vec<Inline> = self.take_nodes(Ghost(source));
                let ghost mid = self.view();
                let url: String = match self.links.pop() {
                    Some(url) => url,
                    None => String::new(),
                };
                assert(self.view().links =~= if before.links.len() > 0 {
                    before.links.drop_last()
                } else {
                    before.links
                });
                assert(self.view() =~= ParseView { links: self.view().links, ..mid });
                Inline::Link { label, url }
            },
            _ => {
                let alt: String = pop_alt(&mut self.frames);
                assert(self.view() =~= without_frame(before));
                Inline::Image { alt }
            },
        };
        self.add_node(node, Ghost(source));
    }

    /// An element closes.
    fn close(&mut self, kind: TagKind, start: usize, end: usize, Ghost(source): Ghost<Seq<char>>)
        requires
            old(self).reads(source),
        ensures
            final(self).reads(source),
            final(self).view() == closed(old(self).view(), source, kind, start, end),
    {
        let ghost before = self.view();
        match kind {
            TagKind::Heading(level) => {
                let nodes: Vec<Inline> = self.take_nodes(Ghost(source));
                self.emit(start, end, BlockKind::Heading(level), nodes, Ghost(source));
            },
            TagKind::Paragraph => {
                if self.items.len() == 0 {
                    let nodes: Vec<Inline> = self.take_nodes(Ghost(source));
                    let block: BlockKind = if self.quotes > 0 {
                        BlockKind::Quote
                    } else {
                        BlockKind::Paragraph
                    };
                    self.emit(start, end, block, nodes, Ghost(source));
                }
            },
            TagKind::BlockQuote => {
                if self.quotes > 0 {
                    self.quotes = self.quotes - 1;
                }
            },
            TagKind::CodeBlock => {
                self.close_code(Ghost(source));
            },
            TagKind::HtmlBlock => {
                let html: String = match self.html.take() {
                    Some(s) => s,
                    None => String::new(),
                };
                self.emit(start, end, BlockKind::Html(html), Vec::new(), Ghost(source));
                assert(markdown::inlines_view(Seq::empty()) =~= Seq::empty());
            },
            TagKind::List(_) => {
                let dropped: Option<bool> = self.lists.pop();
                assert(before.lists.len() == 0 ==> self.lists@ =~= before.lists);
            },
            TagKind::Item => {
                if let Some(ctx) = self.items.pop() {
                    assert(self.view().items =~= before.items.drop_last());
                    assert(ctx@ == before.items.last());
                    let nodes: Vec<Inline> = self.take_nodes(Ghost(source));
                    let kind: BlockKind = BlockKind::Item {
                        ordered: ctx.ordered,
                        marker: ctx.marker,
                        depth: ctx.depth,
                        task: ctx.task,
                    };
                    let block: Block = self.block(start, end, kind, nodes, Ghost(source));
                    self.put_in(ctx.at, block, Ghost(source));
                }
            },
            TagKind::TableCell => {
                let nodes: Vec<Inline> = self.take_nodes(Ghost(source));
                let ghost mid = self.view();
                self.cells.push(nodes);
                assert(self.view().cells =~= mid.cells.push(markdown::inlines_view(nodes@)));
            },
            TagKind::TableHead => {
                self.close_row(start, end, true, Ghost(source));
            },
            TagKind::TableRow => {
                self.close_row(start, end, false, Ghost(source));
            },
            TagKind::Table => {
                self.close_gaps(Ghost(source));
            },
            TagKind::Emphasis
            | TagKind::Strong
            | TagKind::Strikethrough
            | TagKind::Link
            | TagKind::Image => {
                self.close_inline(kind, Ghost(source));
            },
            TagKind::Other => {},
        }
        assert(self.view() =~= closed(before, source, kind, start, end));
    }

    /// Take one event in.
    fn step(&mut self, event: SourceEvent<TagKind>, Ghost(source): Ghost<Seq<char>>)
        requires
            old(self).reads(source),
            old(self).quotes < usize::MAX,
        ensures
            final(self).reads(source),
            final(self).quotes <= old(self).quotes + 1,
            final(self).view() == stepped(old(self).view(), source, event@),
    {
        let ghost before = self.view();
        match event.event {
            Event::Start(kind, info) => {
                self.open(kind, info, event.start, event.end, Ghost(source));
            },
            Event::End(kind) => {
                self.close(kind, event.start, event.end, Ghost(source));
            },
            Event::Text(t) => {
                match self.code.take() {
                    Some(mut ctx) => {
                        ctx.text.append(t.as_str());
                        if ctx.start.is_none() {
                            ctx.start = Some(event.start);
                        }
                        self.code = Some(ctx);
                    },
                    None => {
                        self.add_node(Inline::Text(t), Ghost(source));
                    },
                }
            },
            Event::Code(t) => {
                self.add_node(Inline::Code(t), Ghost(source));
            },
            Event::Html(t) => {
                match self.html.take() {
                    Some(mut s) => {
                        s.append(t.as_str());
                        self.html = Some(s);
                    },
                    None => {},
                }
            },
            Event::InlineHtml(t) => {
                self.add_node(Inline::Text(t), Ghost(source));
            },
            Event::SoftBreak => {
                self.add_node(Inline::SoftBreak, Ghost(source));
            },
            Event::HardBreak => {
                self.add_node(Inline::HardBreak, Ghost(source));
            },
            Event::Rule => {
                self.emit(event.start, event.end, BlockKind::Rule, Vec::new(), Ghost(source));
                assert(markdown::inlines_view(Seq::empty()) =~= Seq::empty());
            },
            Event::TaskListMarker(checked) => {
                if let Some(ctx) = self.items.pop() {
                    self.items.push(ItemCtx { task: Some(checked), ..ctx });
                }
            },
            Event::Other => {},
        }
        assert(self.view() =~= stepped(before, source, event@));
    }
}

/// Put `block` in behind the last of `blocks` that starts no later.
fn place(blocks: &mut Vec<Block>, block: Block)
    ensures
        markdown::blocks_view(final(blocks)@) == with_placed(
            markdown::blocks_view(old(blocks)@),
            block@,
        ),
{
    let ghost view = markdown::blocks_view(blocks@);
    let n: usize = blocks.len();
    let mut i: usize = n;
    assert(view.take(n as int) =~= view);
    assert(with_placed(view, block@) =~= with_placed(view.take(n as int), block@) + view.skip(
        n as int,
    ));
    while i > 0 && blocks[i - 1].source_start > block.source_start
        invariant
            i <= n == blocks@.len() == view.len(),
            *blocks == *old(blocks),
            view == markdown::blocks_view(blocks@),
            with_placed(view, block@) == with_placed(view.take(i as int), block@) + view.skip(
                i as int,
            ),
        decreases i,
    {
        let ghost head = view.take(i as int);
        assert(head.last() == blocks@[i - 1]@);
        assert(head.drop_last() =~= view.take(i - 1));
        assert(with_placed(head, block@) + view.skip(i as int) =~= with_placed(
            view.take(i - 1),
            block@,
        ) + view.skip(i - 1));
        i -= 1;
    }
    assert(i > 0 ==> view.take(i as int).last() == blocks@[i - 1]@);
    blocks.insert(i, block);
    assert(markdown::blocks_view(blocks@) =~= view.take(i as int).push(block@) + view.skip(
        i as int,
    ));
}

/// Fold the events of `source` into its blocks, by the line on which they start.
pub fn fold_events(source: &str, events: Vec<SourceEvent<TagKind>>) -> (r: Vec<Block>)
    ensures
        markdown::blocks_view(r@) == folded(source@, events::events_view(events@)),
        source_ordered(markdown::blocks_view(r@)),
{
    let ghost given = events@;
    let ghost seen = events::events_view(given);
    let total: usize = events.len();
    let mut state: Folder = Folder::new(source);
    proof {
        assert(seen.take(0) =~= Seq::empty());
    }
    for e in it: events
        invariant
            it.seq() == given,
            seen == events::events_view(given),
            given.len() == total,
            state.reads(source@),
            state.quotes <= it.index(),
            state.view() == parsed(source@, seen.take(it.index() as int)),
    {
        assert(seen.take(it.index() + 1).drop_last() =~= seen.take(it.index() as int));
        state.step(e, Ghost(source@));
    }
    assert(seen.take(seen.len() as int) =~= seen);
    let made: Vec<Block> = state.blocks;
    let ghost held = made@;
    let ghost all = markdown::blocks_view(held);
    let mut out: Vec<Block> = Vec::new();
    assert(markdown::blocks_view(out@) =~= Seq::empty());
    assert(all.take(0) =~= Seq::empty());
    for b in it: made
        invariant
            it.seq() == held,
            all == markdown::blocks_view(held),
            markdown::blocks_view(out@) == by_line(all.take(it.index() as int)),
    {
        assert(all.take(it.index() + 1).drop_last() =~= all.take(it.index() as int));
        place(&mut out, b);
    }
    assert(all.take(all.len() as int) =~= all);
    proof {
        lemma_by_line(all);
    }
    out
}

/// Parse `source` into blocks with source-line spans, structural kind, and flattened inline
/// content. Rendering to terminal lines happens later; `Block::rendered` is always empty here.
pub fn parse_blocks(source: &str) -> (r: Vec<Block>)
    ensures
        markdown::blocks_view(r@) == folded(
            source@,
            events::all_kinded(events::markdown_events(source@)),
        ),
        source_ordered(markdown::blocks_view(r@)),
{
    fold_events(source, source_events(source))
}

/// `p` after `events`, in order.
spec fn ran(
    p: ParseView,
    source: Seq<char>,
    events: Seq<SourceEventView<TagKind>>,
) -> ParseView
    decreases events.len(),
{
    if events.len() == 0 {
        p
    } else {
        stepped(ran(p, source, events.drop_last()), source, events.last())
    }
}

proof fn lemma_parsed_on(
    source: Seq<char>,
    before: Seq<SourceEventView<TagKind>>,
    events: Seq<SourceEventView<TagKind>>,
)
    ensures
        parsed(source, before + events) == ran(parsed(source, before), source, events),
    decreases events.len(),
{
    if events.len() == 0 {
        assert(before + events =~= before);
    } else {
        lemma_parsed_on(source, before, events.drop_last());
        assert((before + events).drop_last() =~= before + events.drop_last());
    }
}

proof fn lemma_ran_on(
    p: ParseView,
    source: Seq<char>,
    a: Seq<SourceEventView<TagKind>>,
    b: Seq<SourceEventView<TagKind>>,
)
    ensures
        ran(p, source, a + b) == ran(ran(p, source, a), source, b),
    decreases b.len(),
{
    if b.len() == 0 {
        assert(a + b =~= a);
    } else {
        lemma_ran_on(p, source, a, b.drop_last());
        assert((a + b).drop_last() =~= a + b.drop_last());
    }
}

proof fn lemma_ran_one(p: ParseView, source: Seq<char>, e: SourceEventView<TagKind>)
    ensures
        ran(p, source, seq![e]) == stepped(p, source, e),
{
    assert(seq![e].drop_last() =~= Seq::<SourceEventView<TagKind>>::empty());
    reveal_with_fuel(ran, 2);
}

/// What the texts among `events` say, one behind the other.
pub open spec fn spoken(events: Seq<SourceEventView<TagKind>>) -> Seq<char>
    decreases events.len(),
{
    if events.len() == 0 {
        Seq::empty()
    } else {
        spoken(events.drop_last()) + match events.last().event {
            EventView::Text(t) => t,
            EventView::Html(t) => t,
            _ => Seq::empty(),
        }
    }
}

/// An event that stands for the source bytes `at.0..at.1`.
pub open spec fn event_at(event: EventView<TagKind>, at: (usize, usize)) -> SourceEventView<
    TagKind,
> {
    SourceEventView { event, start: at.0, end: at.1 }
}

/// `inner` between the opening and the closing of an element of kind `kind` over the source bytes
/// `at.0..at.1`.
pub open spec fn enclosed(
    kind: TagKind,
    info: Option<Seq<char>>,
    inner: Seq<SourceEventView<TagKind>>,
    at: (usize, usize),
) -> Seq<SourceEventView<TagKind>> {
    seq![event_at(EventView::Start(kind, info), at)] + inner + seq![
        event_at(EventView::End(kind), at),
    ]
}

proof fn lemma_ran_enclosed(
    p: ParseView,
    source: Seq<char>,
    kind: TagKind,
    info: Option<Seq<char>>,
    inner: Seq<SourceEventView<TagKind>>,
    at: (usize, usize),
)
    ensures
        ran(p, source, enclosed(kind, info, inner, at)) == closed(
            ran(opened(p, source, kind, info, at.0, at.1), source, inner),
            source,
            kind,
            at.0,
            at.1,
        ),
{
    let open = event_at(EventView::Start(kind, info), at);
    let close = event_at(EventView::End(kind), at);
    lemma_ran_on(p, source, seq![open] + inner, seq![close]);
    lemma_ran_on(p, source, seq![open], inner);
    lemma_ran_one(p, source, open);
    lemma_ran_one(ran(p, source, seq![open] + inner), source, close);
}

/// Whether the block `b` covers exactly the source lines of the bytes `at.0..at.1`: it starts on
/// the line of the first and ends on the line of the last of them.
pub open spec fn covers_bytes(b: BlockView, source: Seq<char>, at: (usize, usize)) -> bool {
    let bytes = offsets::source_bytes(source);
    let last = if at.1 == 0 {
        0
    } else {
        at.1 - 1
    };
    &&& b.source_start == markdown::line_number(bytes, at.0 as int) % 0x1_0000_0000
    &&& b.source_end == markdown::line_number(bytes, last) % 0x1_0000_0000
}

proof fn lemma_code_run(
    p: ParseView,
    source: Seq<char>,
    texts: Seq<SourceEventView<TagKind>>,
    lang: Option<Seq<char>>,
)
    requires
        p.code == Some(CodeView { lang, text: Seq::empty(), start: None }),
        forall|i: int| 0 <= i < texts.len() ==> (#[trigger] texts[i]).event is Text,
    ensures
        ran(p, source, texts) == (ParseView {
            code: Some(
                CodeView {
                    lang,
                    text: spoken(texts),
                    start: if texts.len() == 0 {
                        None
                    } else {
                        Some(texts[0].start)
                    },
                },
            ),
            ..p
        }),
    decreases texts.len(),
{
    if texts.len() > 0 {
        let rest = texts.drop_last();
        lemma_code_run(p, source, rest, lang);
        assert(texts.last().event is Text);
        if rest.len() > 0 {
            assert(rest[0] == texts[0]);
        }
    }
}

/// A code block becomes one block for each line of its text, whatever stands there: the lines hold
/// every character between the line breaks of what the parser reported, indentation included. They
/// lie on consecutive source lines from that of the first text on, and name the language.
pub proof fn law_code_lines_are_verbatim(
    source: Seq<char>,
    before: Seq<SourceEventView<TagKind>>,
    info: Option<Seq<char>>,
    texts: Seq<SourceEventView<TagKind>>,
    at: (usize, usize),
)
    requires
        forall|i: int| 0 <= i < texts.len() ==> (#[trigger] texts[i]).event is Text,
    ensures
        ({
            let a = parsed(source, before).blocks;
            let b = parsed(source, before + enclosed(TagKind::CodeBlock, info, texts, at)).blocks;
            let n = a.len() as int;
            &&& n <= b.len()
            &&& b.take(n) == a
            &&& text::breaks_into(
                spoken(texts),
                Seq::new((b.len() - n) as nat, |i: int| b[n + i].kind->line),
            )
            &&& forall|i: int|
                n <= i < b.len() ==> {
                    let c = #[trigger] b[i];
                    &&& c.kind is Code
                    &&& (c.kind->lang) == if info matches Some(s) && s.len() > 0 {
                        info
                    } else {
                        None
                    }
                    &&& c.inlines.len() == 0
                    &&& c.source_start == c.source_end
                    &&& c.source_start == (markdown::line_number(
                        offsets::source_bytes(source),
                        texts[0].start as int,
                    ) + (i - n)) % 0x1_0000_0000
                }
        }),
{
    let p = parsed(source, before);
    let events = enclosed(TagKind::CodeBlock, info, texts, at);
    lemma_parsed_on(source, before, events);
    lemma_ran_enclosed(p, source, TagKind::CodeBlock, info, texts, at);
    lemma_code_run(
        opened(p, source, TagKind::CodeBlock, info, at.0, at.1),
        source,
        texts,
        language(info),
    );
    let b = parsed(source, before + events).blocks;
    let n = p.blocks.len() as int;
    let said = spoken(texts);
    let lines = Seq::new((b.len() - n) as nat, |i: int| b[n + i].kind->line);
    if texts.len() > 0 {
        let base = first_line(source, texts[0].start);
        let added = code_blocks(language(info), base, text::text_lines(said));
        assert(b == p.blocks + added);
        assert(b.take(n) =~= p.blocks);
        assert forall|i: int| n <= i < b.len() implies #[trigger] b[i] == added[i - n] by {}
        assert(lines =~= text::text_lines(said));
        text::law_lines_are_the_text(said);
        let m = markdown::line_number(
            offsets::source_bytes(source),
            texts[0].start as int,
        ) as int;
        assert forall|i: int| n <= i < b.len() implies (#[trigger] b[i]).source_start == (m + (i
            - n)) % 0x1_0000_0000 by {
            assert(b[i] == added[i - n]);
            lemma_line_wraps(m, i - n);
        }
    } else {
        assert(b.take(n) =~= p.blocks);
        text::law_lines_are_the_text(said);
        assert(lines =~= text::text_lines(said));
    }
}

proof fn lemma_line_wraps(m: int, k: int)
    requires
        0 <= m,
        0 <= k,
    ensures
        (m % 0x1_0000_0000 + k) % 0x1_0000_0000 == (m + k) % 0x1_0000_0000,
{
    vstd::arithmetic::div_mod::lemma_add_mod_noop(m, k, 0x1_0000_0000);
    vstd::arithmetic::div_mod::lemma_add_mod_noop(m % 0x1_0000_0000, k, 0x1_0000_0000);
    vstd::arithmetic::div_mod::lemma_mod_twice(m, 0x1_0000_0000);
}

/// Whether `e` is a piece of inline content.
pub open spec fn is_leaf(e: SourceEventView<TagKind>) -> bool {
    match e.event {
        EventView::Text(_) => true,
        EventView::Code(_) => true,
        EventView::InlineHtml(_) => true,
        EventView::SoftBreak => true,
        EventView::HardBreak => true,
        _ => false,
    }
}

/// Whether `nodes` say what the pieces `inner` of inline content say, one node for each piece, in
/// order.
pub open spec fn nodes_say(nodes: Seq<InlineView>, inner: Seq<SourceEventView<TagKind>>) -> bool {
    &&& nodes.len() == inner.len()
    &&& forall|i: int|
        0 <= i < inner.len() ==> (#[trigger] nodes[i]) == match inner[i].event {
            EventView::Text(t) => InlineView::Text(t),
            EventView::Code(t) => InlineView::Code(t),
            EventView::InlineHtml(t) => InlineView::Text(t),
            EventView::SoftBreak => InlineView::SoftBreak,
            _ => InlineView::HardBreak,
        }
}

/// The nodes of the innermost open inline container.
proof fn lemma_leaf_run(
    p: ParseView,
    source: Seq<char>,
    inner: Seq<SourceEventView<TagKind>>,
) -> (nodes: Seq<InlineView>)
    requires
        p.code is None,
        p.frames.len() > 0,
        p.frames.last() == FrameView::Nodes(Seq::empty()),
        forall|i: int| 0 <= i < inner.len() ==> is_leaf(#[trigger] inner[i]),
    ensures
        nodes_say(nodes, inner),
        ran(p, source, inner) == (ParseView {
            frames: p.frames.drop_last().push(FrameView::Nodes(nodes)),
            ..p
        }),
    decreases inner.len(),
{
    if inner.len() == 0 {
        assert(p.frames.drop_last().push(FrameView::Nodes(Seq::empty())) =~= p.frames);
        Seq::empty()
    } else {
        let rest = inner.drop_last();
        let v = lemma_leaf_run(p, source, rest);
        let q = ran(p, source, rest);
        let e = inner.last();
        assert(is_leaf(inner[inner.len() - 1]));
        let node = match e.event {
            EventView::Text(t) => InlineView::Text(t),
            EventView::Code(t) => InlineView::Code(t),
            EventView::InlineHtml(t) => InlineView::Text(t),
            EventView::SoftBreak => InlineView::SoftBreak,
            _ => InlineView::HardBreak,
        };
        let nodes = v.push(node);
        assert(stepped(q, source, e).frames =~= p.frames.drop_last().push(FrameView::Nodes(nodes)));
        assert(stepped(q, source, e) == with_node(q, node));
        assert forall|i: int| 0 <= i < inner.len() implies (#[trigger] nodes[i]) == match inner[i].event {
            EventView::Text(t) => InlineView::Text(t),
            EventView::Code(t) => InlineView::Code(t),
            EventView::InlineHtml(t) => InlineView::Text(t),
            EventView::SoftBreak => InlineView::SoftBreak,
            _ => InlineView::HardBreak,
        } by {
            if i < rest.len() {
                assert(nodes[i] == v[i] && rest[i] == inner[i]);
            }
        }
        nodes
    }
}

/// A heading becomes one block of its level, and a paragraph outside of list items one block,
/// which is a quote inside of a block quote; each covers the source lines of its element and holds
/// its inline content, piece by piece. Nothing else changes.
pub proof fn law_text_elements_become_blocks(
    source: Seq<char>,
    before: Seq<SourceEventView<TagKind>>,
    kind: TagKind,
    inner: Seq<SourceEventView<TagKind>>,
    at: (usize, usize),
)
    requires
        parsed(source, before).code is None,
        kind is Heading || (kind == TagKind::Paragraph && parsed(source, before).items.len() == 0),
        forall|i: int| 0 <= i < inner.len() ==> is_leaf(#[trigger] inner[i]),
    ensures
        ({
            let p = parsed(source, before);
            let q = parsed(source, before + enclosed(kind, None, inner, at));
            let b = q.blocks.last();
            &&& q == (ParseView { blocks: p.blocks.push(b), ..p })
            &&& covers_bytes(b, source, at)
            &&& nodes_say(b.inlines, inner)
            &&& kind matches TagKind::Heading(level) ==> b.kind == BlockKindView::Heading(level)
            &&& kind == TagKind::Paragraph ==> b.kind == if p.quotes > 0 {
                BlockKindView::Quote
            } else {
                BlockKindView::Paragraph
            }
        }),
{
    let p = parsed(source, before);
    lemma_parsed_on(source, before, enclosed(kind, None, inner, at));
    lemma_ran_enclosed(p, source, kind, None, inner, at);
    let o = opened(p, source, kind, None, at.0, at.1);
    let nodes = lemma_leaf_run(o, source, inner);
    let q = parsed(source, before + enclosed(kind, None, inner, at));
    assert(o.frames.drop_last() =~= p.frames);
    assert(q.frames =~= p.frames);
    assert(q.blocks =~= p.blocks.push(q.blocks.last()));
}

/// Paragraphs between the opening and the closing of a block quote are quotes, and those behind it
/// are what they would be without it; the same holds of the depth that an open list gives.
pub proof fn law_quotes_and_lists_end_where_they_close(
    source: Seq<char>,
    before: Seq<SourceEventView<TagKind>>,
    ordered: bool,
    at: (usize, usize),
)
    ensures
        ({
            let p = parsed(source, before);
            let quote = event_at(EventView::Start(TagKind::BlockQuote, None), at);
            let list = event_at(EventView::Start(TagKind::List(ordered), None), at);
            &&& parsed(source, before.push(quote)).quotes > 0
            &&& parsed(source, before.push(list)).lists == p.lists.push(ordered)
            &&& parsed(source, before + enclosed(TagKind::BlockQuote, None, Seq::empty(), at)) == p
            &&& parsed(source, before + enclosed(TagKind::List(ordered), None, Seq::empty(), at))
                == p
        }),
{
    let p = parsed(source, before);
    let quote = event_at(EventView::Start(TagKind::BlockQuote, None), at);
    let list = event_at(EventView::Start(TagKind::List(ordered), None), at);
    lemma_quotes_count(source, before);
    assert(before.push(quote).drop_last() =~= before);
    assert(before.push(list).drop_last() =~= before);
    let none = Seq::<SourceEventView<TagKind>>::empty();
    lemma_parsed_on(source, before, enclosed(TagKind::BlockQuote, None, none, at));
    lemma_ran_enclosed(p, source, TagKind::BlockQuote, None, none, at);
    lemma_parsed_on(source, before, enclosed(TagKind::List(ordered), None, none, at));
    lemma_ran_enclosed(p, source, TagKind::List(ordered), None, none, at);
    assert(p.lists.push(ordered).drop_last() =~= p.lists);
}

proof fn lemma_quotes_count(source: Seq<char>, events: Seq<SourceEventView<TagKind>>)
    ensures
        parsed(source, events).quotes >= 0,
    decreases events.len(),
{
    if events.len() > 0 {
        lemma_quotes_count(source, events.drop_last());
    }
}

/// The mark of a task at the start of a list item, where it is one.
pub open spec fn task_mark(task: Option<bool>, at: (usize, usize)) -> Seq<
    SourceEventView<TagKind>,
> {
    match task {
        Some(checked) => seq![event_at(EventView::TaskListMarker(checked), at)],
        None => Seq::empty(),
    }
}

proof fn lemma_item_run(
    p: ParseView,
    source: Seq<char>,
    task: Option<bool>,
    inner: Seq<SourceEventView<TagKind>>,
    at: (usize, usize),
) -> (nodes: Seq<InlineView>)
    requires
        p.code is None,
        forall|i: int| 0 <= i < inner.len() ==> is_leaf(#[trigger] inner[i]),
    ensures
        nodes_say(nodes, inner),
        ran(opened(p, source, TagKind::Item, None, at.0, at.1), source, task_mark(task, at) + inner)
            == (ParseView {
            items: p.items.push(
                ItemView {
                    at: p.blocks.len() as int,
                    ordered: p.lists.len() > 0 && p.lists.last(),
                    marker: offsets::marker_text(source, at.0 as int, at.1 as int),
                    depth: (p.lists.len() % 256) as u8,
                    task,
                },
            ),
            frames: p.frames.push(FrameView::Nodes(nodes)),
            ..p
        }),
{
    let o = opened(p, source, TagKind::Item, None, at.0, at.1);
    let mark = task_mark(task, at);
    lemma_ran_on(o, source, mark, inner);
    let m = ran(o, source, mark);
    if let Some(checked) = task {
        lemma_ran_one(o, source, mark[0]);
        assert(mark =~= seq![mark[0]]);
        assert(m.items =~= p.items.push(ItemView { task, ..o.items.last() }));
    } else {
        assert(m == o);
    }
    assert(m.frames == o.frames);
    let nodes = lemma_leaf_run(m, source, inner);
    assert(m.frames.drop_last() =~= p.frames);
    nodes
}

/// A list item becomes one block that covers the source lines of its element: it says which kind of
/// list holds it, with which marker the source writes it, how many lists it is nested in, and
/// whether it is a task that is done; it holds its inline content, piece by piece.
pub proof fn law_list_items_become_blocks(
    source: Seq<char>,
    before: Seq<SourceEventView<TagKind>>,
    task: Option<bool>,
    inner: Seq<SourceEventView<TagKind>>,
    at: (usize, usize),
)
    requires
        parsed(source, before).code is None,
        parsed(source, before).lists.len() > 0,
        forall|i: int| 0 <= i < inner.len() ==> is_leaf(#[trigger] inner[i]),
    ensures
        ({
            let p = parsed(source, before);
            let whole = enclosed(TagKind::Item, None, task_mark(task, at) + inner, at);
            let q = parsed(source, before + whole);
            let b = q.blocks.last();
            &&& q.blocks == p.blocks.push(b)
            &&& q.items == p.items && q.lists == p.lists && q.frames == p.frames
            &&& covers_bytes(b, source, at)
            &&& nodes_say(b.inlines, inner)
            &&& b.kind == (BlockKindView::Item {
                ordered: p.lists.last(),
                marker: offsets::marker_text(source, at.0 as int, at.1 as int),
                depth: (p.lists.len() % 256) as u8,
                task,
            })
        }),
{
    let p = parsed(source, before);
    let content = task_mark(task, at) + inner;
    lemma_parsed_on(source, before, enclosed(TagKind::Item, None, content, at));
    lemma_ran_enclosed(p, source, TagKind::Item, None, content, at);
    let nodes = lemma_item_run(p, source, task, inner, at);
    let q = parsed(source, before + enclosed(TagKind::Item, None, content, at));
    assert(q.blocks =~= p.blocks.push(q.blocks.last()));
    assert(q.items =~= p.items);
    assert(q.frames =~= p.frames);
}

/// An item of a list inside of a list item stands behind the item that holds it, one level deeper.
#[verifier::rlimit(40)]
pub proof fn law_nested_items_are_one_level_deeper(
    source: Seq<char>,
    before: Seq<SourceEventView<TagKind>>,
    ordered: bool,
    outer: Seq<SourceEventView<TagKind>>,
    inner: Seq<SourceEventView<TagKind>>,
    at: (usize, usize),
    within: (usize, usize),
)
    requires
        parsed(source, before).code is None,
        0 < parsed(source, before).lists.len() < 255,
        forall|i: int| 0 <= i < outer.len() ==> is_leaf(#[trigger] outer[i]),
        forall|i: int| 0 <= i < inner.len() ==> is_leaf(#[trigger] inner[i]),
    ensures
        ({
            let p = parsed(source, before);
            let held = enclosed(
                TagKind::List(ordered),
                None,
                enclosed(TagKind::Item, None, inner, within),
                within,
            );
            let q = parsed(source, before + enclosed(TagKind::Item, None, outer + held, at));
            let n = p.blocks.len() as int;
            &&& q.blocks.len() == n + 2
            &&& q.blocks.take(n) == p.blocks
            &&& nodes_say(q.blocks[n].inlines, outer)
            &&& nodes_say(q.blocks[n + 1].inlines, inner)
            &&& q.blocks[n].kind is Item && q.blocks[n + 1].kind is Item
            &&& (q.blocks[n + 1].kind->depth) == (q.blocks[n].kind->depth) + 1
            &&& (q.blocks[n + 1].kind->ordered) == ordered
        }),
{
    let p = parsed(source, before);
    let item = enclosed(TagKind::Item, None, inner, within);
    let held = enclosed(TagKind::List(ordered), None, item, within);
    let whole = enclosed(TagKind::Item, None, outer + held, at);
    lemma_parsed_on(source, before, whole);
    lemma_ran_enclosed(p, source, TagKind::Item, None, outer + held, at);
    let o = opened(p, source, TagKind::Item, None, at.0, at.1);
    lemma_ran_on(o, source, outer, held);
    assert(task_mark(None, at) + outer =~= outer);
    let u = lemma_item_run(p, source, None, outer, at);
    let m = ran(o, source, outer);
    lemma_ran_enclosed(m, source, TagKind::List(ordered), None, item, within);
    let l = opened(m, source, TagKind::List(ordered), None, within.0, within.1);
    lemma_ran_enclosed(l, source, TagKind::Item, None, inner, within);
    assert(task_mark(None, within) + inner =~= inner);
    let v = lemma_item_run(l, source, None, inner, within);
    let q = parsed(source, before + whole);
    let n = p.blocks.len() as int;
    let closed_in = ran(l, source, item);
    assert(closed_in.items =~= m.items);
    assert(closed_in.frames =~= m.frames);
    assert(q.blocks.take(n) =~= p.blocks);
}

/// An HTML block becomes one block with its whole text, and a rule one block; each covers the
/// source lines of its element.
pub proof fn law_html_and_rules_become_blocks(
    source: Seq<char>,
    before: Seq<SourceEventView<TagKind>>,
    texts: Seq<SourceEventView<TagKind>>,
    at: (usize, usize),
)
    requires
        forall|i: int| 0 <= i < texts.len() ==> (#[trigger] texts[i]).event is Html,
    ensures
        ({
            let p = parsed(source, before);
            let q = parsed(source, before + enclosed(TagKind::HtmlBlock, None, texts, at));
            let r = parsed(source, before.push(event_at(EventView::Rule, at)));
            &&& q.blocks == p.blocks.push(q.blocks.last())
            &&& q.blocks.last().kind == BlockKindView::Html(spoken(texts))
            &&& covers_bytes(q.blocks.last(), source, at)
            &&& r.blocks == p.blocks.push(r.blocks.last())
            &&& r.blocks.last().kind == BlockKindView::Rule
            &&& covers_bytes(r.blocks.last(), source, at)
        }),
{
    let p = parsed(source, before);
    let rule = event_at(EventView::Rule, at);
    assert(before.push(rule).drop_last() =~= before);
    lemma_parsed_on(source, before, enclosed(TagKind::HtmlBlock, None, texts, at));
    lemma_ran_enclosed(p, source, TagKind::HtmlBlock, None, texts, at);
    lemma_html_run(opened(p, source, TagKind::HtmlBlock, None, at.0, at.1), source, texts);
    let q = parsed(source, before + enclosed(TagKind::HtmlBlock, None, texts, at));
    let r = parsed(source, before.push(rule));
    assert(q.blocks =~= p.blocks.push(q.blocks.last()));
    assert(r.blocks =~= p.blocks.push(r.blocks.last()));
}

proof fn lemma_html_run(p: ParseView, source: Seq<char>, texts: Seq<SourceEventView<TagKind>>)
    requires
        p.html == Some(Seq::<char>::empty()),
        forall|i: int| 0 <= i < texts.len() ==> (#[trigger] texts[i]).event is Html,
    ensures
        ran(p, source, texts) == (ParseView { html: Some(spoken(texts)), ..p }),
    decreases texts.len(),
{
    if texts.len() > 0 {
        lemma_html_run(p, source, texts.drop_last());
        assert(texts.last().event is Html);
    }
}

/// A table row becomes one block with a cell for each cell of the row, in order, each with its
/// inline content; the head row is marked as such.
pub proof fn law_table_rows_keep_their_cells(
    source: Seq<char>,
    before: Seq<SourceEventView<TagKind>>,
    head: bool,
    inner: Seq<SourceEventView<TagKind>>,
    at: (usize, usize),
)
    requires
        parsed(source, before).code is None,
        forall|i: int| 0 <= i < inner.len() ==> is_leaf(#[trigger] inner[i]),
    ensures
        ({
            let p = parsed(source, before);
            let kind = if head {
                TagKind::TableHead
            } else {
                TagKind::TableRow
            };
            let o = parsed(source, before.push(event_at(EventView::Start(kind, None), at)));
            let c = parsed(source, before + enclosed(TagKind::TableCell, None, inner, at));
            let q = parsed(source, before.push(event_at(EventView::End(kind), at)));
            let b = q.blocks.last();
            &&& o.cells.len() == 0
            &&& c.cells.len() == p.cells.len() + 1
            &&& c.cells.drop_last() == p.cells
            &&& nodes_say(c.cells.last(), inner)
            &&& c.frames == p.frames && c.blocks == p.blocks
            &&& q.blocks == p.blocks.push(b)
            &&& q.rows == p.rows.push(p.blocks.len() as int)
            &&& b.kind == (BlockKindView::TableRow { header: head, cells: p.cells })
            &&& covers_bytes(b, source, at)
        }),
{
    let p = parsed(source, before);
    let kind = if head {
        TagKind::TableHead
    } else {
        TagKind::TableRow
    };
    let open = event_at(EventView::Start(kind, None), at);
    let close = event_at(EventView::End(kind), at);
    assert(before.push(open).drop_last() =~= before);
    assert(before.push(close).drop_last() =~= before);
    lemma_parsed_on(source, before, enclosed(TagKind::TableCell, None, inner, at));
    lemma_ran_enclosed(p, source, TagKind::TableCell, None, inner, at);
    let o = opened(p, source, TagKind::TableCell, None, at.0, at.1);
    let nodes = lemma_leaf_run(o, source, inner);
    let c = parsed(source, before + enclosed(TagKind::TableCell, None, inner, at));
    let q = parsed(source, before.push(close));
    assert(o.frames.drop_last() =~= p.frames);
    assert(c.frames =~= p.frames);
    assert(c.cells.drop_last() =~= p.cells);
    assert(q.blocks =~= p.blocks.push(q.blocks.last()));
}

/// The text of the pieces `inner` of inline content, where a break is a space.
pub open spec fn leaf_text(inner: Seq<SourceEventView<TagKind>>) -> Seq<char>
    decreases inner.len(),
{
    if inner.len() == 0 {
        Seq::empty()
    } else {
        leaf_text(inner.drop_last()) + match inner.last().event {
            EventView::Text(t) => t,
            EventView::Code(t) => t,
            EventView::InlineHtml(t) => t,
            _ => seq![' '],
        }
    }
}

/// Emphasis, strong and crossed-out text, and links become one node each that holds their inline
/// content, piece by piece; a link keeps its address, and an image all of its text.
pub proof fn law_inline_elements_become_nodes(
    source: Seq<char>,
    before: Seq<SourceEventView<TagKind>>,
    kind: TagKind,
    info: Option<Seq<char>>,
    inner: Seq<SourceEventView<TagKind>>,
    at: (usize, usize),
)
    requires
        parsed(source, before).code is None,
        parsed(source, before).frames.len() > 0,
        parsed(source, before).frames.last() is Nodes,
        kind == TagKind::Emphasis || kind == TagKind::Strong || kind == TagKind::Strikethrough
            || kind == TagKind::Link || kind == TagKind::Image,
        forall|i: int| 0 <= i < inner.len() ==> is_leaf(#[trigger] inner[i]),
    ensures
        ({
            let p = parsed(source, before);
            let q = parsed(source, before + enclosed(kind, info, inner, at));
            let u = p.frames.last()->Nodes_0;
            let v = q.frames.last()->Nodes_0;
            let node = v.last();
            &&& q == (ParseView { frames: q.frames, ..p })
            &&& q.frames.len() == p.frames.len()
            &&& q.frames.drop_last() == p.frames.drop_last()
            &&& q.frames.last() is Nodes
            &&& v == u.push(node)
            &&& kind == TagKind::Emphasis ==> (node matches InlineView::Emph(w) && nodes_say(
                w,
                inner,
            ))
            &&& kind == TagKind::Strong ==> (node matches InlineView::Strong(w) && nodes_say(
                w,
                inner,
            ))
            &&& kind == TagKind::Strikethrough ==> (node matches InlineView::Strike(w)
                && nodes_say(w, inner))
            &&& kind == TagKind::Link ==> (node matches InlineView::Link { label, url }
                && nodes_say(label, inner) && (info matches Some(s) ==> url == s))
            &&& kind == TagKind::Image ==> node == InlineView::Image { alt: leaf_text(inner) }
        }),
{
    let p = parsed(source, before);
    lemma_parsed_on(source, before, enclosed(kind, info, inner, at));
    lemma_ran_enclosed(p, source, kind, info, inner, at);
    let o = opened(p, source, kind, info, at.0, at.1);
    let q = parsed(source, before + enclosed(kind, info, inner, at));
    if kind == TagKind::Image {
        lemma_alt_run(o, source, inner);
        assert(markdown::without_top(ran(o, source, inner).frames) =~= p.frames);
    } else {
        let nodes = lemma_leaf_run(o, source, inner);
        assert(o.frames.drop_last() =~= p.frames);
        assert(markdown::without_top(ran(o, source, inner).frames) =~= p.frames);
        if kind == TagKind::Link {
            assert(o.links.drop_last() =~= p.links);
        }
    }
    let v = q.frames.last()->Nodes_0;
    assert(v =~= (p.frames.last()->Nodes_0).push(v.last()));
    assert(q.frames.drop_last() =~= p.frames.drop_last());
}

proof fn lemma_alt_run(p: ParseView, source: Seq<char>, inner: Seq<SourceEventView<TagKind>>)
    requires
        p.code is None,
        p.frames.len() > 0,
        p.frames.last() == FrameView::Alt(Seq::empty()),
        forall|i: int| 0 <= i < inner.len() ==> is_leaf(#[trigger] inner[i]),
    ensures
        ran(p, source, inner) == (ParseView {
            frames: p.frames.drop_last().push(FrameView::Alt(leaf_text(inner))),
            ..p
        }),
    decreases inner.len(),
{
    if inner.len() == 0 {
        assert(p.frames.drop_last().push(FrameView::Alt(Seq::empty())) =~= p.frames);
    } else {
        let rest = inner.drop_last();
        lemma_alt_run(p, source, rest);
        assert(is_leaf(inner[inner.len() - 1]));
        let q = ran(p, source, rest);
        assert(stepped(q, source, inner.last()).frames =~= p.frames.drop_last().push(
            FrameView::Alt(leaf_text(inner)),
        ));
    }
}

/// Sorting the blocks by line keeps each of them, as often as it was there.
pub proof fn law_sorting_keeps_every_block(
    source: Seq<char>,
    events: Seq<SourceEventView<TagKind>>,
)
    ensures
        folded(source, events).to_multiset() == parsed(source, events).blocks.to_multiset(),
{
    lemma_by_line_keeps(parsed(source, events).blocks);
}

proof fn lemma_by_line_keeps(blocks: Seq<BlockView>)
    ensures
        by_line(blocks).to_multiset() == blocks.to_multiset(),
    decreases blocks.len(),
{
    broadcast use vstd::seq_lib::group_to_multiset_ensures;

    if blocks.len() > 0 {
        let rest = blocks.drop_last();
        lemma_by_line_keeps(rest);
        lemma_placed_keeps(by_line(rest), blocks.last());
        assert(blocks =~= rest.push(blocks.last()));
    }
}

proof fn lemma_placed_keeps(blocks: Seq<BlockView>, b: BlockView)
    ensures
        with_placed(blocks, b).to_multiset() == blocks.to_multiset().insert(b),
    decreases blocks.len(),
{
    broadcast use vstd::seq_lib::group_to_multiset_ensures;

    if !(blocks.len() == 0 || blocks.last().source_start <= b.source_start) {
        let rest = blocks.drop_last();
        lemma_placed_keeps(rest, b);
        assert(blocks =~= rest.push(blocks.last()));
        assert(rest.to_multiset().insert(b).insert(blocks.last())
            =~= rest.to_multiset().insert(blocks.last()).insert(b));
    }
}

/// A paragraph inside of a list item adds its content to the item itself: it opens nothing and
/// makes no block of its own.
pub proof fn law_paragraphs_of_items_add_to_the_item(
    source: Seq<char>,
    before: Seq<SourceEventView<TagKind>>,
    inner: Seq<SourceEventView<TagKind>>,
    at: (usize, usize),
)
    requires
        parsed(source, before).items.len() > 0,
        forall|i: int| 0 <= i < inner.len() ==> is_leaf(#[trigger] inner[i]),
    ensures
        parsed(source, before + enclosed(TagKind::Paragraph, None, inner, at)) == parsed(
            source,
            before + inner,
        ),
{
    let p = parsed(source, before);
    lemma_parsed_on(source, before, enclosed(TagKind::Paragraph, None, inner, at));
    lemma_parsed_on(source, before, inner);
    lemma_ran_enclosed(p, source, TagKind::Paragraph, None, inner, at);
    lemma_leaves_keep_items(p, source, inner);
}

proof fn lemma_leaves_keep_items(
    p: ParseView,
    source: Seq<char>,
    inner: Seq<SourceEventView<TagKind>>,
)
    requires
        forall|i: int| 0 <= i < inner.len() ==> is_leaf(#[trigger] inner[i]),
    ensures
        ran(p, source, inner).items == p.items,
    decreases inner.len(),
{
    if inner.len() > 0 {
        lemma_leaves_keep_items(p, source, inner.drop_last());
        assert(is_leaf(inner[inner.len() - 1]));
    }
}

/// Whether the rows of the open table stand in order among the blocks.
spec fn rows_ascend(p: ParseView) -> bool {
    forall|i: int, j: int| 0 <= i < j < p.rows.len() ==> #[trigger] p.rows[i] < #[trigger] p.rows[j]
}

proof fn lemma_rows_ascend(source: Seq<char>, events: Seq<SourceEventView<TagKind>>)
    ensures
        rows_ascend(parsed(source, events)),
    decreases events.len(),
{
    if events.len() > 0 {
        let p = parsed(source, events.drop_last());
        let q = parsed(source, events);
        lemma_rows_ascend(source, events.drop_last());
        lemma_parsing_renders_nothing(source, events.drop_last());
        assert forall|i: int, j: int| 0 <= i < j < q.rows.len() implies #[trigger] q.rows[i]
            < #[trigger] q.rows[j] by {
            if j < p.rows.len() {
                assert(p.rows[i] < p.rows[j]);
            } else if i < p.rows.len() {
                assert(p.rows[i] < p.blocks.len());
            }
        }
    }
}

proof fn lemma_gaps_elsewhere(blocks: Seq<BlockView>, rows: Seq<int>, n: int, b: int)
    requires
        n < rows.len(),
        0 <= b < blocks.len(),
        forall|k: int| 0 <= k < rows.len() ==> 0 <= #[trigger] rows[k] < blocks.len(),
        forall|k: int| 0 <= k < n ==> #[trigger] rows[k] != b,
    ensures
        gaps_closed(blocks, rows, n).len() == blocks.len(),
        gaps_closed(blocks, rows, n)[b] == blocks[b],
    decreases n,
{
    if n > 0 {
        lemma_gaps_elsewhere(blocks, rows, n - 1, b);
        assert(rows[n - 1] != b);
    }
}

proof fn lemma_gap_at(blocks: Seq<BlockView>, rows: Seq<int>, n: int, k: int)
    requires
        0 <= k < n < rows.len(),
        forall|j: int| 0 <= j < rows.len() ==> 0 <= #[trigger] rows[j] < blocks.len(),
        forall|i: int, j: int| 0 <= i < j < rows.len() ==> #[trigger] rows[i] < #[trigger] rows[j],
    ensures
        ({
            let (a, b) = (blocks[rows[k]], blocks[rows[k + 1]]);
            gaps_closed(blocks, rows, n)[rows[k]].source_end == if a.source_end + 1
                < b.source_start {
                b.source_start - 1
            } else {
                a.source_end as int
            }
        }),
    decreases n,
{
    let done = gaps_closed(blocks, rows, n - 1);
    law_table_rows_leave_no_gap(blocks, rows, n - 1);
    assert(0 <= rows[n - 1] < blocks.len() && 0 <= rows[n] < blocks.len());
    if k == n - 1 {
        lemma_gaps_elsewhere(blocks, rows, n - 1, rows[n - 1]);
        lemma_gaps_elsewhere(blocks, rows, n - 1, rows[n]);
    } else {
        lemma_gap_at(blocks, rows, n - 1, k);
        assert(rows[k] < rows[n - 1]);
    }
}

/// A table that closes leaves no line between its rows to nobody: row `k` reaches down to the line
/// before the next one, or stays as it is where it reaches further already. Of no other block, and
/// of the last row, anything changes, and the rows of the next table start anew.
pub proof fn law_a_closing_table_fills_its_gaps(
    source: Seq<char>,
    before: Seq<SourceEventView<TagKind>>,
    at: (usize, usize),
    k: int,
    b: int,
)
    requires
        0 <= k < parsed(source, before).rows.len() - 1,
        0 <= b < parsed(source, before).blocks.len(),
    ensures
        ({
            let p = parsed(source, before);
            let q = parsed(source, before.push(event_at(EventView::End(TagKind::Table), at)));
            let (row, next) = (p.blocks[p.rows[k]], p.blocks[p.rows[k + 1]]);
            let after = q.blocks[p.rows[k]];
            &&& q.rows.len() == 0
            &&& q.blocks.len() == p.blocks.len()
            &&& after == (BlockView { source_end: after.source_end, ..row })
            &&& after.source_end == if row.source_end + 1 < next.source_start {
                next.source_start - 1
            } else {
                row.source_end as int
            }
            &&& b == p.rows.last() || !p.rows.contains(b) ==> q.blocks[b] == p.blocks[b]
        }),
{
    let p = parsed(source, before);
    let close = event_at(EventView::End(TagKind::Table), at);
    let n = p.rows.len() as int;
    assert(before.push(close).drop_last() =~= before);
    lemma_rows_ascend(source, before);
    lemma_parsing_renders_nothing(source, before);
    law_table_rows_leave_no_gap(p.blocks, p.rows, n - 1);
    assert(0 <= p.rows[k] < p.blocks.len());
    lemma_gap_at(p.blocks, p.rows, n - 1, k);
    if b == p.rows.last() || !p.rows.contains(b) {
        assert forall|j: int| 0 <= j < n - 1 implies #[trigger] p.rows[j] != b by {
            if b == p.rows.last() {
                assert(p.rows[j] < p.rows[n - 1]);
            }
        }
        lemma_gaps_elsewhere(p.blocks, p.rows, n - 1, b);
    }
}

/// The blocks among `blocks` that start on line `line`.
pub open spec fn starting_on(blocks: Seq<BlockView>, line: u32) -> Seq<BlockView> {
    blocks.filter(|b: BlockView| b.source_start == line)
}

proof fn lemma_starting_push(blocks: Seq<BlockView>, b: BlockView, line: u32)
    ensures
        starting_on(blocks.push(b), line) == if b.source_start == line {
            starting_on(blocks, line).push(b)
        } else {
            starting_on(blocks, line)
        },
{
    reveal(Seq::filter);
    assert(blocks.push(b).drop_last() =~= blocks);
}

proof fn lemma_placed_in_turn(blocks: Seq<BlockView>, b: BlockView, line: u32)
    ensures
        starting_on(with_placed(blocks, b), line) == starting_on(blocks.push(b), line),
    decreases blocks.len(),
{
    if !(blocks.len() == 0 || blocks.last().source_start <= b.source_start) {
        let rest = blocks.drop_last();
        lemma_placed_in_turn(rest, b, line);
        lemma_starting_push(with_placed(rest, b), blocks.last(), line);
        lemma_starting_push(rest, b, line);
        lemma_starting_push(rest, blocks.last(), line);
        assert(rest.push(blocks.last()) =~= blocks);
        lemma_starting_push(blocks, b, line);
    }
}

proof fn lemma_by_line_in_turn(blocks: Seq<BlockView>, line: u32)
    ensures
        starting_on(by_line(blocks), line) == starting_on(blocks, line),
    decreases blocks.len(),
{
    if blocks.len() > 0 {
        let rest = blocks.drop_last();
        lemma_by_line_in_turn(rest, line);
        lemma_placed_in_turn(by_line(rest), blocks.last(), line);
        lemma_starting_push(by_line(rest), blocks.last(), line);
        lemma_starting_push(rest, blocks.last(), line);
        assert(rest.push(blocks.last()) =~= blocks);
    }
}

/// Blocks that start on the same line stand in the order in which their elements opened.
pub proof fn law_blocks_of_one_line_keep_their_order(
    source: Seq<char>,
    events: Seq<SourceEventView<TagKind>>,
    line: u32,
)
    ensures
        starting_on(folded(source, events), line) == starting_on(
            parsed(source, events).blocks,
            line,
        ),
{
    lemma_by_line_in_turn(parsed(source, events).blocks, line);
}

/// Events and elements that this document model has no place for change nothing.
pub proof fn law_other_events_change_nothing(
    source: Seq<char>,
    before: Seq<SourceEventView<TagKind>>,
    info: Option<Seq<char>>,
    at: (usize, usize),
)
    ensures
        ({
            let p = parsed(source, before);
            let other = event_at(EventView::<TagKind>::Other, at);
            let open = event_at(EventView::Start(TagKind::Other, info), at);
            let close = event_at(EventView::End(TagKind::Other), at);
            &&& parsed(source, before.push(other)) == p
            &&& parsed(source, before.push(open)) == p
            &&& parsed(source, before.push(close)) == p
        }),
{
    let other = event_at(EventView::<TagKind>::Other, at);
    let open = event_at(EventView::Start(TagKind::Other, info), at);
    let close = event_at(EventView::End(TagKind::Other), at);
    assert(before.push(other).drop_last() =~= before);
    assert(before.push(open).drop_last() =~= before);
    assert(before.push(close).drop_last() =~= before);
}

/// Before the first event there is nothing: no block, and nothing open.
pub proof fn law_parsing_starts_from_nothing(source: Seq<char>)
    ensures
        ({
            let p = parsed(source, Seq::empty());
            &&& p.blocks.len() == 0 && p.frames.len() == 0 && p.lists.len() == 0
            &&& p.items.len() == 0 && p.rows.len() == 0 && p.quotes == 0
            &&& p.code is None && p.html is None
            &&& folded(source, Seq::empty()).len() == 0
        }),
{
}

} // verus!
