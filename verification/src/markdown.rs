//! Markdown parse and source mapping.
use crate::events;
use crate::offsets;
use crate::style;
use crate::style::{Line, LineView};
use vstd::prelude::*;

pub use crate::fold::parse_blocks;
pub use crate::render::render_document;
pub use crate::rows::{layout_rows, wrap_line};

verus! {

/// How many of the line starts in `index` lie at or before `byte`.
pub open spec fn starts_up_to(index: Seq<usize>, byte: int) -> nat
    decreases index.len(),
{
    if index.len() == 0 {
        0
    } else {
        starts_up_to(index.drop_last(), byte) + if index.last() <= byte {
            1nat
        } else {
            0nat
        }
    }
}

/// How many line feeds `bytes` holds.
pub open spec fn line_feeds(bytes: Seq<u8>) -> nat
    decreases bytes.len(),
{
    if bytes.len() == 0 {
        0
    } else {
        line_feeds(bytes.drop_last()) + if bytes.last() == 10 {
            1nat
        } else {
            0nat
        }
    }
}

/// The byte offset at which each line of `bytes` starts: zero, and one past each line feed.
pub open spec fn line_starts(bytes: Seq<u8>) -> Seq<usize>
    decreases bytes.len(),
{
    if bytes.len() == 0 {
        seq![0usize]
    } else if bytes.last() == 10 {
        line_starts(bytes.drop_last()).push(bytes.len() as usize)
    } else {
        line_starts(bytes.drop_last())
    }
}

/// Whether each entry of `index` is greater than the one before it.
pub open spec fn ascending(index: Seq<usize>) -> bool {
    forall|i: int, j: int| 0 <= i < j < index.len() ==> index[i] < index[j]
}

/// `bytes` up to, and without, offset `byte`; all of them where `byte` lies beyond the end.
pub open spec fn bytes_before(bytes: Seq<u8>, byte: int) -> Seq<u8> {
    if byte < bytes.len() {
        bytes.take(byte)
    } else {
        bytes
    }
}

/// The 1-based number of the line of `bytes` that offset `byte` lies on.
pub open spec fn line_number(bytes: Seq<u8>, byte: int) -> nat {
    line_feeds(bytes_before(bytes, byte)) + 1
}

proof fn lemma_starts_up_to(index: Seq<usize>, byte: int, k: int)
    requires
        0 <= k <= index.len(),
        forall|i: int| 0 <= i < k ==> index[i] <= byte,
        forall|i: int| k <= i < index.len() ==> index[i] > byte,
    ensures
        starts_up_to(index, byte) == k,
    decreases index.len(),
{
    if index.len() > 0 {
        lemma_starts_up_to(
            index.drop_last(),
            byte,
            if k == index.len() {
                k - 1
            } else {
                k
            },
        );
    }
}

pub proof fn lemma_line_starts(bytes: Seq<u8>)
    requires
        bytes.len() <= usize::MAX,
    ensures
        line_starts(bytes).len() == line_feeds(bytes) + 1,
        line_starts(bytes)[0] == 0,
        line_starts(bytes).last() <= bytes.len(),
        ascending(line_starts(bytes)),
        line_starts(bytes).len() <= bytes.len() + 1,
    decreases bytes.len(),
{
    if bytes.len() > 0 {
        lemma_line_starts(bytes.drop_last());
    }
}

/// The line that `line_of` finds through the index of `line_index` is the line that the
/// offset lies on: one more than there are line feeds before it.
pub proof fn law_line_of_index(bytes: Seq<u8>, byte: int)
    requires
        bytes.len() <= usize::MAX,
        byte >= 0,
    ensures
        starts_up_to(line_starts(bytes), byte) == line_number(bytes, byte),
    decreases bytes.len(),
{
    if bytes.len() > 0 {
        let before = bytes.drop_last();
        law_line_of_index(before, byte);
        lemma_line_starts(before);
        if byte < bytes.len() {
            assert(bytes_before(before, byte) =~= bytes_before(bytes, byte));
            if bytes.last() == 10 {
                assert(line_starts(bytes).drop_last() =~= line_starts(before));
            }
        } else {
            assert(bytes_before(before, byte) =~= before);
            if bytes.last() == 10 {
                assert(line_starts(bytes).drop_last() =~= line_starts(before));
            }
        }
    } else {
        assert(line_starts(bytes).drop_last() =~= Seq::<usize>::empty());
        reveal_with_fuel(starts_up_to, 2);
    }
}

/// Byte offset of the start of each 1-based source line; index 0 is line 1.
pub fn line_index(source: &str) -> (r: Vec<usize>)
    ensures
        r@ == line_starts(offsets::source_bytes(source@)),
        ascending(r@),
{
    let bytes: &[u8] = source.as_bytes();
    let mut starts: Vec<usize> = Vec::new();
    starts.push(0);
    let n: usize = bytes.len();
    let mut i: usize = 0;
    assert(bytes@.take(0) =~= Seq::<u8>::empty());
    while i < n
        invariant
            i <= n == bytes@.len(),
            starts@ == line_starts(bytes@.take(i as int)),
        decreases n - i,
    {
        assert(bytes@.take(i + 1).drop_last() =~= bytes@.take(i as int));
        if bytes[i] == 10 {
            starts.push(i + 1);
        }
        i += 1;
    }
    assert(bytes@.take(n as int) =~= bytes@);
    proof {
        lemma_line_starts(bytes@);
    }
    starts
}

/// 1-based line number containing byte offset `byte`, given `index` from [`line_index`]: how
/// many line starts lie at or before it, as a 32-bit number.
pub fn line_of(index: &[usize], byte: usize) -> (r: u32)
    requires
        ascending(index@),
    ensures
        r == starts_up_to(index@, byte as int) % 0x1_0000_0000,
{
    let mut lo: usize = 0;
    let mut hi: usize = index.len();
    while lo < hi
        invariant
            0 <= lo <= hi <= index@.len(),
            ascending(index@),
            forall|i: int| 0 <= i < lo ==> index@[i] <= byte,
            forall|i: int| hi <= i < index@.len() ==> index@[i] > byte,
        decreases hi - lo,
    {
        let mid: usize = lo + (hi - lo) / 2;
        if index[mid] <= byte {
            lo = mid + 1;
        } else {
            hi = mid;
        }
    }
    proof {
        lemma_starts_up_to(index@, byte as int, lo as int);
    }
    (lo as u64 % 0x1_0000_0000) as u32
}

/// A flattened inline-formatting node, built from the inline events of the parser.
#[derive(Debug)]
pub enum Inline {
    Text(String),
    Code(String),
    Emph(Vec<Inline>),
    Strong(Vec<Inline>),
    Strike(Vec<Inline>),
    Link { label: Vec<Inline>, url: String },
    Image { alt: String },
    SoftBreak,
    HardBreak,
}

/// The structural kind of a [`Block`], as distinguished by the parser.
#[derive(Clone, Debug)]
pub enum BlockKind {
    Heading(u8),
    Paragraph,
    Item { ordered: bool, marker: String, depth: u8, task: Option<bool> },
    Quote,
    Code { lang: Option<String>, line: String },
    TableRow { header: bool, cells: Vec<Vec<Inline>> },
    Rule,
    Html(String),
}

/// The smallest independently-commentable unit of a rendered document.
#[derive(Clone, Debug)]
pub struct Block {
    /// 1-based inclusive source line range in the file.
    pub source_start: u32,
    pub source_end: u32,
    /// Styled terminal lines for this block (filled by rendering, empty until then).
    pub rendered: Vec<Line>,
    /// Structural kind of this block, as produced by the markdown parser.
    pub kind: BlockKind,
    /// Flattened inline content for text-bearing blocks.
    pub inlines: Vec<Inline>,
}

/// One frame of inline-building state, mirroring the nesting of inline containers (emphasis,
/// strong, links, ...) while folding the event stream into an [`Inline`] tree.
#[derive(Debug)]
pub enum InlineFrame {
    /// A normal accumulator: paragraph, heading, item, cell, emphasis, link, ... content.
    Nodes(Vec<Inline>),
    /// An image's alt text, flattened to plain text.
    Alt(String),
}

/// What an inline node says.
pub enum InlineView {
    Text(Seq<char>),
    Code(Seq<char>),
    Emph(Seq<InlineView>),
    Strong(Seq<InlineView>),
    Strike(Seq<InlineView>),
    Link { label: Seq<InlineView>, url: Seq<char> },
    Image { alt: Seq<char> },
    SoftBreak,
    HardBreak,
}

/// What an inline node says.
pub open spec fn inline_view(node: Inline) -> InlineView
    decreases node,
{
    match node {
        Inline::Text(s) => InlineView::Text(s@),
        Inline::Code(s) => InlineView::Code(s@),
        Inline::Emph(v) => InlineView::Emph(inlines_view(v@)),
        Inline::Strong(v) => InlineView::Strong(inlines_view(v@)),
        Inline::Strike(v) => InlineView::Strike(inlines_view(v@)),
        Inline::Link { label, url } => InlineView::Link { label: inlines_view(label@), url: url@ },
        Inline::Image { alt } => InlineView::Image { alt: alt@ },
        Inline::SoftBreak => InlineView::SoftBreak,
        Inline::HardBreak => InlineView::HardBreak,
    }
}

/// What each of `nodes` says.
pub open spec fn inlines_view(nodes: Seq<Inline>) -> Seq<InlineView>
    decreases nodes,
{
    if nodes.len() == 0 {
        Seq::empty()
    } else {
        inlines_view(nodes.drop_last()).push(inline_view(nodes.last()))
    }
}

/// What a block's kind says.
pub enum BlockKindView {
    Heading(u8),
    Paragraph,
    Item { ordered: bool, marker: Seq<char>, depth: u8, task: Option<bool> },
    Quote,
    Code { lang: Option<Seq<char>>, line: Seq<char> },
    TableRow { header: bool, cells: Seq<Seq<InlineView>> },
    Rule,
    Html(Seq<char>),
}

/// What a block says.
pub struct BlockView {
    pub source_start: u32,
    pub source_end: u32,
    pub rendered: Seq<LineView>,
    pub kind: BlockKindView,
    pub inlines: Seq<InlineView>,
}

/// What the cells of a table row say.
pub open spec fn cells_view(cells: Seq<Vec<Inline>>) -> Seq<Seq<InlineView>> {
    cells.map_values(|c: Vec<Inline>| inlines_view(c@))
}

impl View for BlockKind {
    type V = BlockKindView;

    open spec fn view(&self) -> BlockKindView {
        match *self {
            BlockKind::Heading(level) => BlockKindView::Heading(level),
            BlockKind::Paragraph => BlockKindView::Paragraph,
            BlockKind::Item { ordered, marker, depth, task } => BlockKindView::Item {
                ordered,
                marker: marker@,
                depth,
                task,
            },
            BlockKind::Quote => BlockKindView::Quote,
            BlockKind::Code { lang, line } => BlockKindView::Code {
                lang: events::optional_text(lang),
                line: line@,
            },
            BlockKind::TableRow { header, cells } => BlockKindView::TableRow {
                header,
                cells: cells_view(cells@),
            },
            BlockKind::Rule => BlockKindView::Rule,
            BlockKind::Html(s) => BlockKindView::Html(s@),
        }
    }
}

impl View for Block {
    type V = BlockView;

    open spec fn view(&self) -> BlockView {
        BlockView {
            source_start: self.source_start,
            source_end: self.source_end,
            rendered: style::lines_view(self.rendered@),
            kind: self.kind@,
            inlines: inlines_view(self.inlines@),
        }
    }
}

/// What each of `blocks` says.
pub open spec fn blocks_view(blocks: Seq<Block>) -> Seq<BlockView> {
    blocks.map_values(|b: Block| b@)
}

/// What a frame has gathered.
pub enum FrameView {
    Nodes(Seq<InlineView>),
    Alt(Seq<char>),
}

impl View for InlineFrame {
    type V = FrameView;

    open spec fn view(&self) -> FrameView {
        match *self {
            InlineFrame::Nodes(v) => FrameView::Nodes(inlines_view(v@)),
            InlineFrame::Alt(s) => FrameView::Alt(s@),
        }
    }
}

/// What each of `frames` has gathered.
pub open spec fn frames_view(frames: Seq<InlineFrame>) -> Seq<FrameView> {
    frames.map_values(|f: InlineFrame| f@)
}

/// A node as plain text: text and code as they are, a container by what it holds, an image by its
/// alt text, and a break as a space.
pub open spec fn flat_text(node: InlineView) -> Seq<char>
    decreases node,
{
    match node {
        InlineView::Text(t) => t,
        InlineView::Code(t) => t,
        InlineView::Emph(v) => plain_text(v),
        InlineView::Strong(v) => plain_text(v),
        InlineView::Strike(v) => plain_text(v),
        InlineView::Link { label, .. } => plain_text(label),
        InlineView::Image { alt } => alt,
        InlineView::SoftBreak => seq![' '],
        InlineView::HardBreak => seq![' '],
    }
}

/// Nodes as plain text, one behind the other.
pub open spec fn plain_text(nodes: Seq<InlineView>) -> Seq<char>
    decreases nodes,
{
    if nodes.len() == 0 {
        Seq::empty()
    } else {
        plain_text(nodes.drop_last()) + flat_text(nodes.last())
    }
}

/// `frames` once `node` has been added to the innermost one. An image's alt text takes it as
/// plain text.
pub open spec fn with_inline(frames: Seq<FrameView>, node: InlineView) -> Seq<FrameView> {
    if frames.len() == 0 {
        frames
    } else {
        match frames.last() {
            FrameView::Nodes(v) => frames.drop_last().push(FrameView::Nodes(v.push(node))),
            FrameView::Alt(s) => frames.drop_last().push(FrameView::Alt(s + flat_text(node))),
        }
    }
}

/// The nodes that the innermost frame has gathered.
pub open spec fn top_nodes(frames: Seq<FrameView>) -> Seq<InlineView> {
    if frames.len() == 0 {
        Seq::empty()
    } else {
        match frames.last() {
            FrameView::Nodes(v) => v,
            FrameView::Alt(s) => seq![InlineView::Text(s)],
        }
    }
}

/// `frames` without the innermost one.
pub open spec fn without_top(frames: Seq<FrameView>) -> Seq<FrameView> {
    if frames.len() == 0 {
        frames
    } else {
        frames.drop_last()
    }
}

/// The alt text that the innermost frame has gathered.
pub open spec fn top_alt(frames: Seq<FrameView>) -> Seq<char> {
    if frames.len() == 0 {
        Seq::empty()
    } else {
        match frames.last() {
            FrameView::Nodes(v) => plain_text(v),
            FrameView::Alt(s) => s,
        }
    }
}

proof fn lemma_inlines_push(nodes: Seq<Inline>, node: Inline)
    ensures
        inlines_view(nodes.push(node)) == inlines_view(nodes).push(inline_view(node)),
{
    assert(nodes.push(node).drop_last() =~= nodes);
}

/// A copy of `node`.
fn copy_of(node: &Inline) -> (r: Inline)
    ensures
        inline_view(r) == inline_view(*node),
    decreases *node,
{
    match node {
        Inline::Text(t) => Inline::Text(t.clone()),
        Inline::Code(t) => Inline::Code(t.clone()),
        Inline::Emph(v) => Inline::Emph(copies_of(v)),
        Inline::Strong(v) => Inline::Strong(copies_of(v)),
        Inline::Strike(v) => Inline::Strike(copies_of(v)),
        Inline::Link { label, url } => Inline::Link { label: copies_of(label), url: url.clone() },
        Inline::Image { alt } => Inline::Image { alt: alt.clone() },
        Inline::SoftBreak => Inline::SoftBreak,
        Inline::HardBreak => Inline::HardBreak,
    }
}

/// Copies of `nodes`.
fn copies_of(nodes: &Vec<Inline>) -> (r: Vec<Inline>)
    ensures
        inlines_view(r@) == inlines_view(nodes@),
    decreases nodes@,
{
    let mut out: Vec<Inline> = Vec::new();
    let mut i: usize = 0;
    assert(nodes@.take(0) =~= Seq::empty());
    while i < nodes.len()
        invariant
            i <= nodes@.len(),
            inlines_view(out@) == inlines_view(nodes@.take(i as int)),
        decreases nodes@.len() - i,
    {
        let copy: Inline = copy_of(&nodes[i]);
        proof {
            lemma_inlines_push(out@, copy);
            lemma_inlines_push(nodes@.take(i as int), nodes@[i as int]);
            assert(nodes@.take(i + 1) =~= nodes@.take(i as int).push(nodes@[i as int]));
        }
        out.push(copy);
        i += 1;
    }
    assert(nodes@.take(i as int) =~= nodes@);
    out
}

impl Clone for Inline {
    fn clone(&self) -> (r: Inline)
        ensures
            inline_view(r) == inline_view(*self),
    {
        copy_of(self)
    }
}

/// Append `node` to `out` as plain text.
fn push_flat(out: &mut String, node: &Inline)
    ensures
        final(out)@ == old(out)@ + flat_text(inline_view(*node)),
    decreases *node,
{
    match node {
        Inline::Text(t) => {
            out.append(t.as_str());
        },
        Inline::Code(t) => {
            out.append(t.as_str());
        },
        Inline::Emph(v) => {
            push_plain(out, v);
        },
        Inline::Strong(v) => {
            push_plain(out, v);
        },
        Inline::Strike(v) => {
            push_plain(out, v);
        },
        Inline::Link { label, url: _ } => {
            push_plain(out, label);
        },
        Inline::Image { alt } => {
            out.append(alt.as_str());
        },
        Inline::SoftBreak => {
            out.push(' ');
        },
        Inline::HardBreak => {
            out.push(' ');
        },
    }
    assert(out@ =~= old(out)@ + flat_text(inline_view(*node)));
}

/// Append `nodes` to `out` as plain text.
fn push_plain(out: &mut String, nodes: &Vec<Inline>)
    ensures
        final(out)@ == old(out)@ + plain_text(inlines_view(nodes@)),
    decreases nodes@,
{
    let ghost start = out@;
    let mut i: usize = 0;
    assert(nodes@.take(0) =~= Seq::empty());
    assert(start + plain_text(inlines_view(nodes@.take(0))) =~= start);
    while i < nodes.len()
        invariant
            i <= nodes@.len(),
            out@ == start + plain_text(inlines_view(nodes@.take(i as int))),
        decreases nodes@.len() - i,
    {
        proof {
            let more = nodes@.take(i + 1);
            assert(more.drop_last() =~= nodes@.take(i as int));
            let view = inlines_view(more);
            assert(view.drop_last() =~= inlines_view(nodes@.take(i as int)));
            assert(view.last() == inline_view(nodes@[i as int]));
        }
        push_flat(out, &nodes[i]);
        assert(out@ =~= start + plain_text(inlines_view(nodes@.take(i + 1))));
        i += 1;
    }
    assert(nodes@.take(i as int) =~= nodes@);
}

/// Add `inline` to the innermost frame.
pub fn push_inline(stack: &mut Vec<InlineFrame>, inline: Inline)
    ensures
        frames_view(final(stack)@) == with_inline(frames_view(old(stack)@), inline_view(inline)),
{
    let ghost before = frames_view(stack@);
    match stack.pop() {
        Some(InlineFrame::Nodes(nodes)) => {
            let mut v: Vec<Inline> = nodes;
            proof {
                lemma_inlines_push(v@, inline);
            }
            v.push(inline);
            stack.push(InlineFrame::Nodes(v));
        },
        Some(InlineFrame::Alt(text)) => {
            let mut s: String = text;
            push_flat(&mut s, &inline);
            stack.push(InlineFrame::Alt(s));
        },
        None => {},
    }
    assert(frames_view(stack@) =~= with_inline(before, inline_view(inline)));
}

/// Close the innermost frame and hand back its nodes.
pub fn pop_nodes(stack: &mut Vec<InlineFrame>) -> (r: Vec<Inline>)
    ensures
        inlines_view(r@) == top_nodes(frames_view(old(stack)@)),
        frames_view(final(stack)@) == without_top(frames_view(old(stack)@)),
{
    let ghost before = frames_view(stack@);
    let r: Vec<Inline> = match stack.pop() {
        Some(InlineFrame::Nodes(v)) => v,
        Some(InlineFrame::Alt(s)) => {
            let node: Inline = Inline::Text(s);
            let mut v: Vec<Inline> = Vec::new();
            proof {
                lemma_inlines_push(v@, node);
            }
            v.push(node);
            v
        },
        None => Vec::new(),
    };
    assert(frames_view(stack@) =~= without_top(before));
    assert(inlines_view(r@) =~= top_nodes(before));
    r
}

/// Close the innermost frame and hand back its alt text.
pub(crate) fn pop_alt(stack: &mut Vec<InlineFrame>) -> (r: String)
    ensures
        r@ == top_alt(frames_view(old(stack)@)),
        frames_view(final(stack)@) == without_top(frames_view(old(stack)@)),
{
    let ghost before = frames_view(stack@);
    let r: String = match stack.pop() {
        Some(InlineFrame::Alt(s)) => s,
        Some(InlineFrame::Nodes(v)) => {
            let mut out: String = String::new();
            push_plain(&mut out, &v);
            assert(out@ =~= plain_text(inlines_view(v@)));
            out
        },
        None => String::new(),
    };
    assert(frames_view(stack@) =~= without_top(before));
    r
}

/// One painted row of a rendered document.
#[derive(Clone, Debug)]
pub struct RenderRow {
    pub line: Line,
    /// Index into the document's block list.
    pub block: usize,
    /// True for the first row of its block.
    pub first_of_block: bool,
}

/// What a row shows, and of which block.
pub struct RowView {
    pub line: LineView,
    pub block: int,
    pub first_of_block: bool,
}

impl View for RenderRow {
    type V = RowView;

    open spec fn view(&self) -> RowView {
        RowView {
            line: self.line@,
            block: self.block as int,
            first_of_block: self.first_of_block,
        }
    }
}

/// What each of `rows` shows.
pub open spec fn rows_view(rows: Seq<RenderRow>) -> Seq<RowView> {
    rows.map_values(|r: RenderRow| r@)
}

/// A document: its source and its blocks.
#[derive(Clone, Debug)]
pub struct Document {
    pub source: String,
    pub blocks: Vec<Block>,
}

impl Default for Document {
    fn default() -> (r: Document)
        ensures
            r.source@ == Seq::<char>::empty(),
            r.blocks@ == Seq::<Block>::empty(),
    {
        Document { source: String::new(), blocks: Vec::new() }
    }
}

/// The number of a line is one more than there are line feeds before it.
pub proof fn law_line_number_counts_line_feeds(bytes: Seq<u8>, byte: int)
    requires
        0 <= byte,
    ensures
        line_number(bytes, byte) == 1 + bytes.take(
            if byte < bytes.len() {
                byte
            } else {
                bytes.len() as int
            },
        ).filter(|b: u8| b == 10).len(),
{
    assert(bytes.take(bytes.len() as int) =~= bytes);
    lemma_feeds_are_filtered(bytes_before(bytes, byte));
}

proof fn lemma_feeds_are_filtered(bytes: Seq<u8>)
    ensures
        line_feeds(bytes) == bytes.filter(|b: u8| b == 10).len(),
    decreases bytes.len(),
{
    reveal(Seq::filter);
    if bytes.len() > 0 {
        lemma_feeds_are_filtered(bytes.drop_last());
    }
}

/// Each line of a source starts at its first byte, or right behind a line feed, and each line feed
/// has a line behind it.
pub proof fn law_lines_start_behind_line_feeds(bytes: Seq<u8>, at: usize)
    requires
        bytes.len() <= usize::MAX,
    ensures
        line_starts(bytes).contains(at) <==> at == 0 || (at <= bytes.len() && bytes[at - 1] == 10),
    decreases bytes.len(),
{
    let all = line_starts(bytes);
    if bytes.len() > 0 {
        let rest = bytes.drop_last();
        law_lines_start_behind_line_feeds(rest, at);
        let before = line_starts(rest);
        if bytes.last() == 10 {
            assert(all[before.len() as int] == bytes.len());
            if before.contains(at) {
                let k = choose|k: int| 0 <= k < before.len() && before[k] == at;
                assert(all[k] == at);
            }
            if all.contains(at) && at != bytes.len() {
                let k = choose|k: int| 0 <= k < all.len() && all[k] == at;
                assert(before[k] == at);
            }
        }
        if 0 < at <= rest.len() {
            assert(rest[at - 1] == bytes[at - 1]);
        }
    } else {
        assert(all[0] == 0);
    }
}

/// Plain text is what was written, without its marks: it grows by each piece that is added, a
/// container adds what it holds, a link its label, an image its text and a break one space.
pub proof fn law_plain_text_is_what_was_written(
    nodes: Seq<InlineView>,
    t: Seq<char>,
    v: Seq<InlineView>,
)
    ensures
        plain_text(Seq::empty()).len() == 0,
        plain_text(nodes.push(InlineView::Text(t))) == plain_text(nodes) + t,
        plain_text(nodes.push(InlineView::Code(t))) == plain_text(nodes) + t,
        plain_text(nodes.push(InlineView::Image { alt: t })) == plain_text(nodes) + t,
        plain_text(nodes.push(InlineView::SoftBreak)) == plain_text(nodes).push(' '),
        plain_text(nodes.push(InlineView::HardBreak)) == plain_text(nodes).push(' '),
        plain_text(nodes.push(InlineView::Emph(v))) == plain_text(nodes + v),
        plain_text(nodes.push(InlineView::Strong(v))) == plain_text(nodes + v),
        plain_text(nodes.push(InlineView::Strike(v))) == plain_text(nodes + v),
        plain_text(nodes.push(InlineView::Link { label: v, url: t })) == plain_text(nodes + v),
{
    lemma_plain_adds(nodes, v);
    lemma_plain_push(nodes, InlineView::Text(t));
    lemma_plain_push(nodes, InlineView::Code(t));
    lemma_plain_push(nodes, InlineView::Image { alt: t });
    lemma_plain_push(nodes, InlineView::SoftBreak);
    lemma_plain_push(nodes, InlineView::HardBreak);
    lemma_plain_push(nodes, InlineView::Emph(v));
    lemma_plain_push(nodes, InlineView::Strong(v));
    lemma_plain_push(nodes, InlineView::Strike(v));
    lemma_plain_push(nodes, InlineView::Link { label: v, url: t });
    assert(plain_text(nodes) + seq![' '] =~= plain_text(nodes).push(' '));
}

proof fn lemma_plain_push(nodes: Seq<InlineView>, node: InlineView)
    ensures
        plain_text(nodes.push(node)) == plain_text(nodes) + flat_text(node),
{
    assert(nodes.push(node).drop_last() =~= nodes);
}

proof fn lemma_plain_adds(a: Seq<InlineView>, b: Seq<InlineView>)
    ensures
        plain_text(a + b) == plain_text(a) + plain_text(b),
    decreases b.len(),
{
    if b.len() > 0 {
        lemma_plain_adds(a, b.drop_last());
        assert((a + b).drop_last() =~= a + b.drop_last());
        assert(plain_text(a + b) =~= plain_text(a) + plain_text(b));
    } else {
        assert(a + b =~= a);
        assert(plain_text(a) + plain_text(b) =~= plain_text(a));
    }
}

/// A node that is added goes into the innermost container, and into no other: behind the nodes there,
/// or, for the text of an image, as plain text behind the text there.
pub proof fn law_nodes_go_into_the_innermost_container(frames: Seq<FrameView>, node: InlineView)
    requires
        frames.len() > 0,
    ensures
        ({
            let after = with_inline(frames, node);
            &&& after.len() == frames.len()
            &&& after.drop_last() == frames.drop_last()
            &&& match frames.last() {
                FrameView::Nodes(v) => after.last() == FrameView::Nodes(v.push(node)),
                FrameView::Alt(s) => after.last() == FrameView::Alt(s + plain_text(seq![node])),
            }
        }),
{
    let one = seq![node];
    assert(one.drop_last() =~= Seq::<InlineView>::empty());
    assert(plain_text(one.drop_last()) =~= Seq::<char>::empty());
    assert(plain_text(one) =~= flat_text(node));
    assert(with_inline(frames, node).drop_last() =~= frames.drop_last());
}

/// Closing a container takes out what was gathered in it since it was opened, and leaves the
/// containers around it as they were; with none open there is nothing to take out.
pub proof fn law_closing_gives_back_what_was_gathered(frames: Seq<FrameView>, top: FrameView)
    ensures
        without_top(frames.push(top)) == frames,
        match top {
            FrameView::Nodes(v) => top_nodes(frames.push(top)) == v && top_alt(frames.push(top))
                == plain_text(v),
            FrameView::Alt(s) => top_alt(frames.push(top)) == s && plain_text(
                top_nodes(frames.push(top)),
            ) == s,
        },
        top_nodes(Seq::empty()).len() == 0,
        top_alt(Seq::empty()).len() == 0,
        without_top(Seq::empty()).len() == 0,
{
    assert(frames.push(top).drop_last() =~= frames);
    if let FrameView::Alt(s) = top {
        let one = seq![InlineView::Text(s)];
        assert(one.drop_last() =~= Seq::<InlineView>::empty());
        assert(plain_text(one.drop_last()) =~= Seq::<char>::empty());
        assert(plain_text(one) =~= flat_text(InlineView::Text(s)));
    }
}

} // verus!
