//! What blank lines in front of a document do to its blocks: they only move the line numbers.
use crate::events::{EventView, SourceEventView, TagKind};
use crate::fold;
use crate::fold::{CodeView, ParseView};
use crate::markdown;
use crate::markdown::{BlockKindView, BlockView, InlineView};
use crate::offsets;
use crate::text;
use vstd::prelude::*;

verus! {

/// `source` with `n` blank lines in front of it.
pub open spec fn moved_source(source: Seq<char>, n: nat) -> Seq<char> {
    text::repeated('\n', n) + source
}

/// `e`, `n` bytes further on.
pub open spec fn moved_event(e: SourceEventView<TagKind>, n: nat) -> SourceEventView<TagKind> {
    SourceEventView { event: e.event, start: (e.start + n) as usize, end: (e.end + n) as usize }
}

/// `events`, `n` bytes further on.
pub open spec fn moved_events(events: Seq<SourceEventView<TagKind>>, n: nat) -> Seq<
    SourceEventView<TagKind>,
> {
    events.map_values(|e: SourceEventView<TagKind>| moved_event(e, n))
}

/// `b`, `n` lines further down.
pub open spec fn moved_block(b: BlockView, n: nat) -> BlockView {
    BlockView {
        source_start: (b.source_start + n) as u32,
        source_end: (b.source_end + n) as u32,
        ..b
    }
}

/// `blocks`, `n` lines further down.
pub open spec fn moved_blocks(blocks: Seq<BlockView>, n: nat) -> Seq<BlockView> {
    blocks.map_values(|b: BlockView| moved_block(b, n))
}

spec fn moved_state(p: ParseView, n: nat) -> ParseView {
    ParseView {
        blocks: moved_blocks(p.blocks, n),
        code: match p.code {
            Some(c) => Some(
                CodeView {
                    start: match c.start {
                        Some(at) => Some((at + n) as usize),
                        None => None,
                    },
                    ..c
                },
            ),
            None => None,
        },
        ..p
    }
}

/// `n` line feeds.
spec fn feeds(n: nat) -> Seq<u8> {
    Seq::new(n, |i: int| 10u8)
}

proof fn lemma_feed_is_one_byte()
    ensures
        vstd::utf8::encode_scalar('\n' as u32) == seq![10u8],
{
    assert(10u32 & 0x7F == 10u32) by (bit_vector);
    assert(vstd::utf8::encode_scalar('\n' as u32) =~= seq![10u8]);
}

proof fn lemma_moved_bytes(source: Seq<char>, n: nat)
    ensures
        offsets::source_bytes(moved_source(source, n)) == feeds(n) + offsets::source_bytes(source),
    decreases n,
{
    let all = moved_source(source, n);
    if n == 0 {
        assert(all =~= source);
        assert(feeds(0) + offsets::source_bytes(source) =~= offsets::source_bytes(source));
    } else {
        lemma_moved_bytes(source, (n - 1) as nat);
        lemma_feed_is_one_byte();
        assert(all.drop_first() =~= moved_source(source, (n - 1) as nat));
        assert(all[0] == '\n');
        assert(seq![10u8] + (feeds((n - 1) as nat) + offsets::source_bytes(source)) =~= feeds(n)
            + offsets::source_bytes(source));
    }
}

proof fn lemma_feeds_add(a: Seq<u8>, b: Seq<u8>)
    ensures
        markdown::line_feeds(a + b) == markdown::line_feeds(a) + markdown::line_feeds(b),
    decreases b.len(),
{
    if b.len() == 0 {
        assert(a + b =~= a);
    } else {
        assert((a + b).drop_last() =~= a + b.drop_last());
        lemma_feeds_add(a, b.drop_last());
    }
}

proof fn lemma_count_feeds(n: nat)
    ensures
        markdown::line_feeds(feeds(n)) == n,
    decreases n,
{
    if n > 0 {
        assert(feeds(n).drop_last() =~= feeds((n - 1) as nat));
        lemma_count_feeds((n - 1) as nat);
    }
}

proof fn lemma_moved_line(source: Seq<char>, byte: int, n: nat)
    requires
        0 <= byte,
        offsets::source_bytes(source).len() + n < 0xffff_ffff,
    ensures
        fold::line_at(moved_source(source, n), byte + n) == fold::line_at(source, byte) + n,
        fold::line_at(source, byte) <= fold::line_count(source),
        fold::line_count(source) + n < 0x1_0000_0000,
{
    let bytes = offsets::source_bytes(source);
    let all = feeds(n) + bytes;
    let before = markdown::bytes_before(bytes, byte);
    lemma_moved_bytes(source, n);
    assert(markdown::bytes_before(all, byte + n) =~= feeds(n) + before);
    lemma_feeds_add(feeds(n), before);
    lemma_count_feeds(n);
    fold::lemma_line_at_grows(source, byte, byte);
    fold::lemma_feeds_grow(bytes, 0, bytes.len() as int);
    assert(bytes.take(bytes.len() as int) =~= bytes);
    let m = if byte < bytes.len() {
        byte
    } else {
        bytes.len() as int
    };
    assert(before =~= bytes.take(m));
    fold::lemma_feeds_grow(bytes, 0, m);
}

proof fn lemma_moved_offset(source: Seq<char>, i: int, n: nat)
    requires
        0 <= i <= source.len(),
    ensures
        offsets::byte_offset(moved_source(source, n), i + n) == offsets::byte_offset(source, i) + n,
{
    assert(moved_source(source, n).take(i + n) =~= moved_source(source.take(i), n));
    lemma_moved_bytes(source.take(i), n);
}

proof fn lemma_moved_index(source: Seq<char>, byte: int, n: nat)
    requires
        0 <= byte,
    ensures
        offsets::char_index(moved_source(source, n), byte + n) == offsets::char_index(source, byte)
            + n,
        0 <= offsets::char_index(source, byte) <= source.len(),
{
    let all = moved_source(source, n);
    let k = offsets::char_index(source, byte);
    offsets::lemma_char_index_splits(source, byte);
    assert forall|i: int| 0 <= i < k + n implies offsets::byte_offset(all, i) < byte + n by {
        if i < n {
            let nothing = Seq::<char>::empty();
            assert(all.take(i) =~= moved_source(nothing, i as nat));
            lemma_moved_bytes(nothing, i as nat);
        } else {
            lemma_moved_offset(source, i - n, n);
        }
    }
    assert forall|i: int| k + n <= i < all.len() implies offsets::byte_offset(all, i) >= byte
        + n by {
        lemma_moved_offset(source, i - n, n);
    }
    offsets::lemma_char_index(all, byte + n, k + n);
}

proof fn lemma_moved_runs(source: Seq<char>, i: int, end: int, n: nat)
    requires
        0 <= i,
        end <= source.len(),
    ensures
        offsets::white_run(moved_source(source, n), i + n, end + n) == offsets::white_run(
            source,
            i,
            end,
        ) + n,
        offsets::word_run(moved_source(source, n), i + n, end + n) == offsets::word_run(
            source,
            i,
            end,
        ) + n,
        i <= offsets::white_run(source, i, end),
        i <= end ==> offsets::white_run(source, i, end) <= end,
        i <= offsets::word_run(source, i, end),
        i <= end ==> offsets::word_run(source, i, end) <= end,
    decreases end - i,
{
    if i < end {
        assert(moved_source(source, n)[i + n] == source[i]);
        lemma_moved_runs(source, i + 1, end, n);
    }
}

proof fn lemma_moved_marker(source: Seq<char>, start: int, end: int, n: nat)
    requires
        0 <= start,
        0 <= end,
    ensures
        offsets::marker_text(moved_source(source, n), start + n, end + n) == offsets::marker_text(
            source,
            start,
            end,
        ),
{
    lemma_moved_index(source, start, n);
    lemma_moved_index(source, end, n);
    let i = offsets::char_index(source, start);
    let j = offsets::char_index(source, end);
    if i <= j {
        lemma_moved_runs(source, i, j, n);
        let a = offsets::white_run(source, i, j);
        lemma_moved_runs(source, a, j, n);
        let b = offsets::word_run(source, a, j);
        assert(moved_source(source, n).subrange(a + n, b + n) =~= source.subrange(a, b));
    }
}

proof fn lemma_moved_gaps(blocks: Seq<BlockView>, rows: Seq<int>, k: int, lines: nat, n: nat)
    requires
        k < rows.len(),
        forall|j: int| 0 <= j < rows.len() ==> 0 <= #[trigger] rows[j] < blocks.len(),
        fold::lines_within(blocks, lines),
        lines + n < 0x1_0000_0000,
    ensures
        fold::gaps_closed(moved_blocks(blocks, n), rows, k) == moved_blocks(
            fold::gaps_closed(blocks, rows, k),
            n,
        ),
    decreases k,
{
    if k > 0 {
        lemma_moved_gaps(blocks, rows, k - 1, lines, n);
        fold::lemma_gaps_within(blocks, rows, k - 1, lines);
        let done = fold::gaps_closed(blocks, rows, k - 1);
        assert(0 <= rows[k - 1] < blocks.len() && 0 <= rows[k] < blocks.len());
        assert(done[rows[k - 1]].source_end <= lines && done[rows[k]].source_start <= lines);
        assert(fold::gaps_closed(moved_blocks(blocks, n), rows, k) =~= moved_blocks(
            fold::gaps_closed(blocks, rows, k),
            n,
        ));
    } else {
        assert(fold::gaps_closed(moved_blocks(blocks, n), rows, k) =~= moved_blocks(blocks, n));
    }
}

proof fn lemma_moved_code_blocks(
    lang: Option<Seq<char>>,
    base: u32,
    pieces: Seq<Seq<char>>,
    n: nat,
)
    requires
        base + pieces.len() + n <= 0x1_0000_0000,
    ensures
        fold::code_blocks(lang, (base + n) as u32, pieces) == moved_blocks(
            fold::code_blocks(lang, base, pieces),
            n,
        ),
{
    let here = fold::code_blocks(lang, base, pieces);
    let far = fold::code_blocks(lang, (base + n) as u32, pieces);
    assert forall|i: int| 0 <= i < pieces.len() implies #[trigger] far[i] == moved_blocks(
        here,
        n,
    )[i] by {
        assert((base + i) % 0x1_0000_0000 == base + i);
        assert((base + n + i) % 0x1_0000_0000 == base + n + i);
    }
    assert(far =~= moved_blocks(here, n));
}

#[verifier::rlimit(40)]
proof fn lemma_moved_code(p: ParseView, source: Seq<char>, start: usize, end: usize, n: nat)
    requires
        offsets::source_bytes(source).len() + n < 0xffff_ffff,
        start < end,
        end + n <= usize::MAX,
        p.code matches Some(c) ==> (c.start matches Some(at) ==> at + n <= usize::MAX),
        fold::code_fits(p, source, start, end),
    ensures
        fold::closed(
            moved_state(p, n),
            moved_source(source, n),
            TagKind::CodeBlock,
            (start + n) as usize,
            (end + n) as usize,
        ) == moved_state(fold::closed(p, source, TagKind::CodeBlock, start, end), n),
{
    let q = fold::closed(p, source, TagKind::CodeBlock, start, end);
    let r = fold::closed(
        moved_state(p, n),
        moved_source(source, n),
        TagKind::CodeBlock,
        (start + n) as usize,
        (end + n) as usize,
    );
    if let Some(c) = p.code {
        if let Some(at) = c.start {
            lemma_moved_line(source, at as int, n);
            lemma_moved_line(source, end - 1, n);
            let pieces = text::text_lines(c.text);
            let base = fold::first_line(source, at);
            let added = fold::code_blocks(c.lang, base, pieces);
            let far_added = fold::code_blocks(c.lang, (base + n) as u32, pieces);
            lemma_moved_code_blocks(c.lang, base, pieces, n);
            assert(moved_blocks(p.blocks, n) + far_added =~= moved_blocks(p.blocks + added, n));
            assert(q.blocks == p.blocks + added);
            assert(r.blocks == moved_blocks(p.blocks, n) + far_added);
        }
    }
    assert(r.blocks == moved_state(q, n).blocks);
    assert(r =~= moved_state(q, n));
}

proof fn lemma_moved_over(
    source: Seq<char>,
    start: usize,
    end: usize,
    kind: BlockKindView,
    inlines: Seq<InlineView>,
    n: nat,
)
    requires
        offsets::source_bytes(source).len() + n < 0xffff_ffff,
        start < end,
        end + n <= usize::MAX,
    ensures
        fold::block_over(
            moved_source(source, n),
            (start + n) as usize,
            (end + n) as usize,
            kind,
            inlines,
        ) == moved_block(fold::block_over(source, start, end, kind, inlines), n),
{
    lemma_moved_line(source, start as int, n);
    lemma_moved_line(source, end - 1, n);
}

proof fn lemma_moved_emit(
    p: ParseView,
    source: Seq<char>,
    start: usize,
    end: usize,
    kind: BlockKindView,
    inlines: Seq<InlineView>,
    n: nat,
)
    requires
        offsets::source_bytes(source).len() + n < 0xffff_ffff,
        start < end,
        end + n <= usize::MAX,
    ensures
        fold::with_block(
            moved_state(p, n),
            moved_source(source, n),
            (start + n) as usize,
            (end + n) as usize,
            kind,
            inlines,
        ) == moved_state(fold::with_block(p, source, start, end, kind, inlines), n),
{
    lemma_moved_over(source, start, end, kind, inlines, n);
    let b = fold::block_over(source, start, end, kind, inlines);
    assert(moved_blocks(p.blocks.push(b), n) =~= moved_blocks(p.blocks, n).push(
        moved_block(b, n),
    ));
}

#[verifier::rlimit(40)]
proof fn lemma_moved_close(
    p: ParseView,
    source: Seq<char>,
    kind: TagKind,
    start: usize,
    end: usize,
    n: nat,
)
    requires
        offsets::source_bytes(source).len() + n < 0xffff_ffff,
        fold::rows_are_blocks(p),
        fold::items_have_places(p),
        fold::lines_within(p.blocks, fold::line_count(source)),
        fold::makes_block(kind) ==> start < end,
        start + n <= usize::MAX,
        end + n <= usize::MAX,
        kind != TagKind::CodeBlock,
    ensures
        fold::closed(
            moved_state(p, n),
            moved_source(source, n),
            kind,
            (start + n) as usize,
            (end + n) as usize,
        ) == moved_state(fold::closed(p, source, kind, start, end), n),
{
    let far = moved_source(source, n);
    let (s, e) = ((start + n) as usize, (end + n) as usize);
    let m = moved_state(p, n);
    let q = fold::closed(p, source, kind, start, end);
    let r = fold::closed(m, far, kind, s, e);
    let nodes = markdown::top_nodes(p.frames);
    let bare = fold::without_frame(p);
    match kind {
        TagKind::Heading(level) => {
            lemma_moved_emit(bare, source, start, end, BlockKindView::Heading(level), nodes, n);
        },
        TagKind::Paragraph => {
            lemma_moved_emit(bare, source, start, end, BlockKindView::Quote, nodes, n);
            lemma_moved_emit(bare, source, start, end, BlockKindView::Paragraph, nodes, n);
        },
        TagKind::HtmlBlock => {
            let html = match p.html {
                Some(t) => t,
                None => Seq::empty(),
            };
            lemma_moved_emit(p, source, start, end, BlockKindView::Html(html), Seq::empty(), n);
        },
        TagKind::TableHead => {
            let row = BlockKindView::TableRow { header: true, cells: p.cells };
            lemma_moved_emit(p, source, start, end, row, Seq::empty(), n);
        },
        TagKind::TableRow => {
            let row = BlockKindView::TableRow { header: false, cells: p.cells };
            lemma_moved_emit(p, source, start, end, row, Seq::empty(), n);
        },
        TagKind::Table => {
            lemma_moved_line(source, 0, n);
            if p.rows.len() > 0 {
                lemma_moved_gaps(
                    p.blocks,
                    p.rows,
                    p.rows.len() - 1,
                    fold::line_count(source),
                    n,
                );
            }
        },
        TagKind::Item => {
            if p.items.len() > 0 {
                let item = p.items.last();
                let b = q.blocks[item.at];
                lemma_moved_over(source, start, end, b.kind, nodes, n);
                assert(moved_blocks(p.blocks.insert(item.at, b), n) =~= moved_blocks(
                    p.blocks,
                    n,
                ).insert(item.at, moved_block(b, n)));
            }
        },
        _ => {},
    }
    assert(r =~= moved_state(q, n));
}

#[verifier::rlimit(40)]
proof fn lemma_moved_step(p: ParseView, source: Seq<char>, e: SourceEventView<TagKind>, n: nat)
    requires
        offsets::source_bytes(source).len() + n < 0xffff_ffff,
        fold::rows_are_blocks(p),
        fold::items_have_places(p),
        fold::lines_within(p.blocks, fold::line_count(source)),
        fold::sized(e),
        e.start + n <= usize::MAX,
        e.end + n <= usize::MAX,
        p.code matches Some(c) ==> (c.start matches Some(at) ==> at + n <= usize::MAX),
        e.event == EventView::<TagKind>::End(TagKind::CodeBlock) ==> fold::code_fits(
            p,
            source,
            e.start,
            e.end,
        ),
    ensures
        fold::stepped(moved_state(p, n), moved_source(source, n), moved_event(e, n))
            == moved_state(fold::stepped(p, source, e), n),
{
    let far = moved_source(source, n);
    let q = fold::stepped(p, source, e);
    let r = fold::stepped(moved_state(p, n), far, moved_event(e, n));
    match e.event {
        EventView::End(TagKind::CodeBlock) => {
            lemma_moved_code(p, source, e.start, e.end, n);
        },
        EventView::End(kind) => {
            lemma_moved_close(p, source, kind, e.start, e.end, n);
        },
        EventView::Start(kind, info) => {
            lemma_moved_marker(source, e.start as int, e.end as int, n);
            assert(moved_blocks(p.blocks, n).len() == p.blocks.len());
            assert(r =~= moved_state(q, n));
        },
        EventView::Rule => {
            lemma_moved_emit(p, source, e.start, e.end, BlockKindView::Rule, Seq::empty(), n);
        },
        _ => {
            assert(r =~= moved_state(q, n));
        },
    }
}

spec fn code_start_fits(p: ParseView, n: nat) -> bool {
    p.code matches Some(c) ==> (c.start matches Some(at) ==> at + n <= usize::MAX)
}

proof fn lemma_code_start_fits(
    source: Seq<char>,
    events: Seq<SourceEventView<TagKind>>,
    n: nat,
)
    requires
        forall|k: int| 0 <= k < events.len() ==> (#[trigger] events[k]).start + n <= usize::MAX,
    ensures
        code_start_fits(fold::parsed(source, events), n),
    decreases events.len(),
{
    if events.len() > 0 {
        let rest = events.drop_last();
        let e = events.last();
        assert forall|k: int| 0 <= k < rest.len() implies (#[trigger] rest[k]).start + n
            <= usize::MAX by {
            assert(rest[k] == events[k]);
        }
        lemma_code_start_fits(source, rest, n);
        assert(events[events.len() - 1].start + n <= usize::MAX);
        lemma_step_fits(fold::parsed(source, rest), source, e, n);
    }
}

proof fn lemma_step_fits(p: ParseView, source: Seq<char>, e: SourceEventView<TagKind>, n: nat)
    requires
        code_start_fits(p, n),
        e.start + n <= usize::MAX,
    ensures
        code_start_fits(fold::stepped(p, source, e), n),
{
}

#[verifier::rlimit(40)]
proof fn lemma_moved_parse(source: Seq<char>, events: Seq<SourceEventView<TagKind>>, n: nat)
    requires
        offsets::source_bytes(source).len() + n < 0xffff_ffff,
        fold::well_ranged(source, events),
        forall|k: int|
            0 <= k < events.len() ==> (#[trigger] events[k]).start + n <= usize::MAX
                && events[k].end + n <= usize::MAX,
    ensures
        fold::parsed(moved_source(source, n), moved_events(events, n)) == moved_state(
            fold::parsed(source, events),
            n,
        ),
    decreases events.len(),
{
    if events.len() == 0 {
        assert(fold::parsed(moved_source(source, n), moved_events(events, n)) =~= moved_state(
            fold::parsed(source, events),
            n,
        ));
    } else {
        let rest = events.drop_last();
        let e = events.last();
        let far = moved_events(events, n);
        assert forall|k: int| 0 <= k < rest.len() implies (#[trigger] rest[k]).start + n
            <= usize::MAX && rest[k].end + n <= usize::MAX by {
            assert(rest[k] == events[k]);
        }
        lemma_moved_parse(source, rest, n);
        assert(far.drop_last() =~= moved_events(rest, n));
        assert(far.last() == moved_event(e, n));
        assert(events[events.len() - 1].start + n <= usize::MAX);
        fold::lemma_parsing_renders_nothing(source, rest);
        fold::lemma_parsed_within(source, rest);
        lemma_code_start_fits(source, rest, n);
        lemma_moved_step(fold::parsed(source, rest), source, e, n);
    }
}

proof fn lemma_moved_place(blocks: Seq<BlockView>, b: BlockView, lines: nat, n: nat)
    requires
        fold::lines_within(blocks, lines),
        b.source_start <= lines,
        lines + n < 0x1_0000_0000,
    ensures
        fold::with_placed(moved_blocks(blocks, n), moved_block(b, n)) == moved_blocks(
            fold::with_placed(blocks, b),
            n,
        ),
    decreases blocks.len(),
{
    let far = moved_blocks(blocks, n);
    if blocks.len() > 0 {
        let rest = blocks.drop_last();
        assert(far.drop_last() =~= moved_blocks(rest, n));
        assert(far.last() == moved_block(blocks.last(), n));
        assert(blocks[blocks.len() - 1].source_start <= lines);
        assert forall|k: int| 0 <= k < rest.len() implies 1 <= (#[trigger] rest[k]).source_start
            <= rest[k].source_end <= lines by {
            assert(rest[k] == blocks[k]);
        }
        lemma_moved_place(rest, b, lines, n);
    }
    assert(fold::with_placed(far, moved_block(b, n)) =~= moved_blocks(
        fold::with_placed(blocks, b),
        n,
    ));
}

proof fn lemma_moved_order(blocks: Seq<BlockView>, lines: nat, n: nat)
    requires
        fold::lines_within(blocks, lines),
        lines + n < 0x1_0000_0000,
    ensures
        fold::by_line(moved_blocks(blocks, n)) == moved_blocks(fold::by_line(blocks), n),
    decreases blocks.len(),
{
    let far = moved_blocks(blocks, n);
    if blocks.len() == 0 {
        assert(fold::by_line(far) =~= moved_blocks(fold::by_line(blocks), n));
    } else {
        let rest = blocks.drop_last();
        assert forall|k: int| 0 <= k < rest.len() implies 1 <= (#[trigger] rest[k]).source_start
            <= rest[k].source_end <= lines by {
            assert(rest[k] == blocks[k]);
        }
        lemma_moved_order(rest, lines, n);
        assert(far.drop_last() =~= moved_blocks(rest, n));
        assert(blocks[blocks.len() - 1].source_start <= lines);
        fold::lemma_by_line(rest);
        let sorted = fold::by_line(rest);
        assert forall|k: int| 0 <= k < sorted.len() implies 1 <= (#[trigger] sorted[k]).source_start
            <= sorted[k].source_end <= lines by {
            assert(rest.contains(sorted[k]));
        }
        lemma_moved_place(sorted, blocks.last(), lines, n);
    }
}

/// Blank lines in front of a document only move its line numbers: with `n` line feeds before the
/// source, and every event `n` bytes further on, the blocks are the same, each `n` lines further
/// down. This holds where no event that makes a block is empty, no code block has more lines than
/// the source that it stands for, and no number exceeds what its type holds. It speaks of given
/// events: the parser expands link references up to a limit that grows with the source, so its
/// own events for the longer source can be others.
pub proof fn law_leading_blank_lines_only_move_blocks(
    source: Seq<char>,
    events: Seq<SourceEventView<TagKind>>,
    n: nat,
)
    requires
        offsets::source_bytes(source).len() + n < 0xffff_ffff,
        fold::well_ranged(source, events),
        forall|k: int|
            0 <= k < events.len() ==> (#[trigger] events[k]).start + n <= usize::MAX
                && events[k].end + n <= usize::MAX,
    ensures
        fold::folded(moved_source(source, n), moved_events(events, n)) == moved_blocks(
            fold::folded(source, events),
            n,
        ),
        forall|b: int|
            0 <= b < fold::folded(source, events).len() ==> {
                let (x, y) = (
                    #[trigger] fold::folded(source, events)[b],
                    moved_blocks(fold::folded(source, events), n)[b],
                );
                y.source_start == x.source_start + n && y.source_end == x.source_end + n
            },
{
    lemma_moved_parse(source, events, n);
    fold::lemma_parsed_within(source, events);
    lemma_moved_line(source, 0, n);
    lemma_moved_order(fold::parsed(source, events).blocks, fold::line_count(source), n);
    fold::law_block_lines_are_in_order(source, events);
}

} // verus!
