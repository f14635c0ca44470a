//! The event stream of a markdown document, as plain values.
use self::Event::{
    Code, End, HardBreak, Html, InlineHtml, Other, Rule, SoftBreak, Start, TaskListMarker, Text,
};
use pulldown_cmark::Event::{
    Code as MdCode, End as MdEnd, HardBreak as MdHardBreak, Html as MdHtml,
    InlineHtml as MdInlineHtml, Rule as MdRule, SoftBreak as MdSoftBreak, Start as MdStart,
    TaskListMarker as MdTaskListMarker, Text as MdText,
};
use pulldown_cmark::CodeBlockKind::Fenced;
use pulldown_cmark::Tag::{CodeBlock as MdCodeBlock, Link as MdLink};
use pulldown_cmark::{Options, Parser, TagEnd};
use std::ops::Range;
use vstd::prelude::*;

verus! {

/// `pulldown_cmark::TagEnd`, the kind of a markdown element; carried through, never opened.
#[verifier::external_type_specification]
#[verifier::external_body]
pub struct ExTagEnd(pulldown_cmark::TagEnd);

/// The kind of a markdown element.
#[derive(Clone, Copy, Debug, PartialEq, Eq, Structural)]
pub enum TagKind {
    Paragraph,
    /// A heading and its level, 1 to 6.
    Heading(u8),
    BlockQuote,
    CodeBlock,
    HtmlBlock,
    /// A list, `true` for an ordered one.
    List(bool),
    Item,
    Table,
    TableHead,
    TableRow,
    TableCell,
    Emphasis,
    Strong,
    Strikethrough,
    Link,
    Image,
    Other,
}

/// One markdown event; `K` tells the kinds of elements apart.
#[derive(Clone, Debug)]
pub enum Event<K> {
    /// An element opens. The string is the info string of a fenced code block or the
    /// destination of a link.
    Start(K, Option<String>),
    /// An element closes.
    End(K),
    Text(String),
    Code(String),
    Html(String),
    InlineHtml(String),
    SoftBreak,
    HardBreak,
    Rule,
    TaskListMarker(bool),
    Other,
}

/// An event and the byte range of the source that it stands for.
#[derive(Clone, Debug)]
pub struct SourceEvent<K> {
    pub event: Event<K>,
    pub start: usize,
    pub end: usize,
}

/// What an event says.
pub enum EventView<K> {
    Start(K, Option<Seq<char>>),
    End(K),
    Text(Seq<char>),
    Code(Seq<char>),
    Html(Seq<char>),
    InlineHtml(Seq<char>),
    SoftBreak,
    HardBreak,
    Rule,
    TaskListMarker(bool),
    Other,
}

/// What an event says, and where.
pub struct SourceEventView<K> {
    pub event: EventView<K>,
    pub start: usize,
    pub end: usize,
}

/// The contents of a string that may be absent.
pub open spec fn optional_text(s: Option<String>) -> Option<Seq<char>> {
    match s {
        Some(t) => Some(t@),
        None => None,
    }
}

impl<K> View for Event<K> {
    type V = EventView<K>;

    open spec fn view(&self) -> EventView<K> {
        match *self {
            Event::Start(k, s) => EventView::Start(k, optional_text(s)),
            Event::End(k) => EventView::End(k),
            Event::Text(s) => EventView::Text(s@),
            Event::Code(s) => EventView::Code(s@),
            Event::Html(s) => EventView::Html(s@),
            Event::InlineHtml(s) => EventView::InlineHtml(s@),
            Event::SoftBreak => EventView::SoftBreak,
            Event::HardBreak => EventView::HardBreak,
            Event::Rule => EventView::Rule,
            Event::TaskListMarker(b) => EventView::TaskListMarker(b),
            Event::Other => EventView::Other,
        }
    }
}

impl<K> View for SourceEvent<K> {
    type V = SourceEventView<K>;

    open spec fn view(&self) -> SourceEventView<K> {
        SourceEventView { event: self.event@, start: self.start, end: self.end }
    }
}

/// What each of `events` says.
pub open spec fn events_view<K>(events: Seq<SourceEvent<K>>) -> Seq<SourceEventView<K>> {
    events.map_values(|e: SourceEvent<K>| e@)
}

/// The events that the parser yields for a source text, each with its byte range.
pub uninterp spec fn markdown_events(source: Seq<char>) -> Seq<SourceEventView<TagEnd>>;

/// Which kind of element a `TagEnd` closes.
pub uninterp spec fn tag_kind(tag: TagEnd) -> TagKind;

/// `pulldown_cmark::Parser::new_ext` with tables, task lists and strikethrough enabled, run
/// to its end through `into_offset_iter`.
///
/// The result is the parser's event stream for `source`, one entry per event.
#[verifier::external_body]
pub(crate) fn offset_events(source: &str) -> (r: Vec<SourceEvent<TagEnd>>)
    ensures
        events_view(r@) == markdown_events(source@),
{
    let options = Options::ENABLE_TABLES | Options::ENABLE_TASKLISTS | Options::ENABLE_STRIKETHROUGH;
    Parser::new_ext(source, options).into_offset_iter().map(
        |(event, Range { start, end })| SourceEvent { start, end, event: match event {
            MdStart(tag) => Start(tag.to_end(), match tag {
                MdCodeBlock(Fenced(s)) | MdLink { dest_url: s, .. } => Some(s.into_string()),
                _ => None
            }),
            MdEnd(tag) => End(tag),
            MdText(s) => Text(s.into_string()), MdCode(s) => Code(s.into_string()),
            MdHtml(s) => Html(s.into_string()), MdInlineHtml(s) => InlineHtml(s.into_string()),
            MdSoftBreak => SoftBreak, MdHardBreak => HardBreak, MdRule => Rule,
            MdTaskListMarker(b) => TaskListMarker(b), _ => Other
        } }
    ).collect()
}

/// Tells the variants of `pulldown_cmark::TagEnd` apart; a heading keeps its level, which is
/// one of the six that `pulldown_cmark::HeadingLevel` has, and a list its ordered flag.
#[verifier::external_body]
pub(crate) fn kind_of(tag: TagEnd) -> (r: TagKind)
    ensures
        r == tag_kind(tag),
        r matches TagKind::Heading(level) ==> 1 <= level <= 6,
{
    match tag {
        TagEnd::Paragraph => TagKind::Paragraph, TagEnd::Heading(l) => TagKind::Heading(l as u8),
        TagEnd::BlockQuote(_) => TagKind::BlockQuote, TagEnd::CodeBlock => TagKind::CodeBlock,
        TagEnd::HtmlBlock => TagKind::HtmlBlock, TagEnd::List(o) => TagKind::List(o),
        TagEnd::Item => TagKind::Item, TagEnd::Table => TagKind::Table,
        TagEnd::TableHead => TagKind::TableHead, TagEnd::TableRow => TagKind::TableRow,
        TagEnd::TableCell => TagKind::TableCell, TagEnd::Emphasis => TagKind::Emphasis,
        TagEnd::Strong => TagKind::Strong, TagEnd::Strikethrough => TagKind::Strikethrough,
        TagEnd::Link => TagKind::Link, TagEnd::Image => TagKind::Image, _ => TagKind::Other,
    }
}

/// `event` with the kind of its element in place of the parser's tag.
pub open spec fn kinded(event: EventView<TagEnd>) -> EventView<TagKind> {
    match event {
        EventView::Start(t, s) => EventView::Start(tag_kind(t), s),
        EventView::End(t) => EventView::End(tag_kind(t)),
        EventView::Text(s) => EventView::Text(s),
        EventView::Code(s) => EventView::Code(s),
        EventView::Html(s) => EventView::Html(s),
        EventView::InlineHtml(s) => EventView::InlineHtml(s),
        EventView::SoftBreak => EventView::SoftBreak,
        EventView::HardBreak => EventView::HardBreak,
        EventView::Rule => EventView::Rule,
        EventView::TaskListMarker(b) => EventView::TaskListMarker(b),
        EventView::Other => EventView::Other,
    }
}

/// Each of `events` with the kind of its element in place of the parser's tag.
pub open spec fn all_kinded(events: Seq<SourceEventView<TagEnd>>) -> Seq<
    SourceEventView<TagKind>,
> {
    events.map_values(
        |e: SourceEventView<TagEnd>|
            SourceEventView { event: kinded(e.event), start: e.start, end: e.end },
    )
}

/// The kind of each element in place of the parser's tag.
fn resolve(event: Event<TagEnd>) -> (r: Event<TagKind>)
    ensures
        r@ == kinded(event@),
{
    match event {
        Event::Start(t, s) => Event::Start(kind_of(t), s),
        Event::End(t) => Event::End(kind_of(t)),
        Event::Text(s) => Event::Text(s),
        Event::Code(s) => Event::Code(s),
        Event::Html(s) => Event::Html(s),
        Event::InlineHtml(s) => Event::InlineHtml(s),
        Event::SoftBreak => Event::SoftBreak,
        Event::HardBreak => Event::HardBreak,
        Event::Rule => Event::Rule,
        Event::TaskListMarker(b) => Event::TaskListMarker(b),
        Event::Other => Event::Other,
    }
}

/// The events of a markdown source, in order, with the byte range of each.
pub fn source_events(source: &str) -> (r: Vec<SourceEvent<TagKind>>)
    ensures
        events_view(r@) == all_kinded(markdown_events(source@)),
{
    let raw: Vec<SourceEvent<TagEnd>> = offset_events(source);
    let ghost given = raw@;
    let mut out: Vec<SourceEvent<TagKind>> = Vec::new();
    for e in it: raw
        invariant
            it.seq() == given,
            out@.len() == it.index(),
            forall|k: int|
                0 <= k < out@.len() ==> #[trigger] out@[k]@ == all_kinded(events_view(given))[k],
    {
        out.push(SourceEvent { event: resolve(e.event), start: e.start, end: e.end });
    }
    proof {
        assert(events_view(out@) =~= all_kinded(events_view(given)));
    }
    out
}

/// Telling the kinds of elements apart keeps every event, its text and its place: only the
/// parser's tag is replaced.
pub proof fn law_kinds_keep_text_and_place(events: Seq<SourceEventView<TagEnd>>, i: int)
    requires
        0 <= i < events.len(),
    ensures
        ({
            let (a, b) = (events[i], all_kinded(events)[i]);
            &&& all_kinded(events).len() == events.len()
            &&& b.start == a.start && b.end == a.end
            &&& match a.event {
                EventView::Start(t, s) => b.event == EventView::Start(tag_kind(t), s),
                EventView::End(t) => b.event == EventView::End(tag_kind(t)),
                EventView::Text(s) => b.event == EventView::<TagKind>::Text(s),
                EventView::Code(s) => b.event == EventView::<TagKind>::Code(s),
                EventView::Html(s) => b.event == EventView::<TagKind>::Html(s),
                EventView::InlineHtml(s) => b.event == EventView::<TagKind>::InlineHtml(s),
                EventView::SoftBreak => b.event is SoftBreak,
                EventView::HardBreak => b.event is HardBreak,
                EventView::Rule => b.event is Rule,
                EventView::TaskListMarker(c) => b.event == EventView::<TagKind>::TaskListMarker(c),
                EventView::Other => b.event is Other,
            }
        }),
{
}

} // verus!
