use herdr_glowr::events::{Event, SourceEvent, TagKind, source_events};
use herdr_glowr::fold::fold_events;
use herdr_glowr::markdown::{
    Block, BlockKind, Document, Inline, layout_rows, line_index, line_of, parse_blocks,
    render_document, wrap_line,
};
use herdr_glowr::offsets::item_marker;
use herdr_glowr::style;
use herdr_glowr::style::{Line, Style, Tone};

#[test]
fn line_of_maps_bytes_to_1_based_lines() {
    let src = "a\nbb\nccc\n";
    let idx = line_index(src);
    assert_eq!(line_of(&idx, 0), 1);
    assert_eq!(line_of(&idx, 2), 2); // 'b'
    assert_eq!(line_of(&idx, 5), 3); // 'c'
}

#[test]
fn parse_blocks_splits_heading_paragraph_and_list_items() {
    let src = "# Title\n\nA para.\n\n- one\n- two\n";
    let blocks = parse_blocks(src);
    // heading(1), paragraph(3), list item(5), list item(6)
    let spans: Vec<(u32, u32)> = blocks.iter().map(|b| (b.source_start, b.source_end)).collect();
    assert_eq!(spans, vec![(1, 1), (3, 3), (5, 5), (6, 6)]);
}

#[test]
fn parse_blocks_code_fence_is_one_block_per_line() {
    let src = "```\nlet x = 1;\nlet y = 2;\n```\n";
    let blocks = parse_blocks(src);
    // two code lines → two blocks anchored to lines 2 and 3
    assert_eq!(
        blocks.iter().map(|b| b.source_start).collect::<Vec<_>>(),
        vec![2, 3]
    );
}

#[test]
fn parse_blocks_table_is_one_block_per_row() {
    let src = "| a | b |\n|---|---|\n| 1 | 2 |\n";
    let blocks = parse_blocks(src);
    // header row (line 1) and data row (line 3); delimiter row (line 2) folds into header
    let starts: Vec<u32> = blocks.iter().map(|b| b.source_start).collect();
    assert!(starts.contains(&1) && starts.contains(&3));
}

#[test]
fn parse_blocks_table_header_span_folds_in_delimiter_row() {
    let src = "| a | b |\n|---|---|\n| 1 | 2 |\n";
    let blocks = parse_blocks(src);
    let spans: Vec<(u32, u32)> = blocks.iter().map(|b| (b.source_start, b.source_end)).collect();
    // header covers lines 1-2 (the delimiter row has no event of its own), data row is line 3.
    assert_eq!(spans, vec![(1, 2), (3, 3)]);
}

#[test]
fn parse_blocks_blockquote_is_one_block_per_paragraph() {
    let src = "> first\n> still first\n\n> second\n";
    let blocks = parse_blocks(src);
    let spans: Vec<(u32, u32)> = blocks.iter().map(|b| (b.source_start, b.source_end)).collect();
    assert_eq!(spans, vec![(1, 2), (4, 4)]);
}

#[test]
fn parse_blocks_thematic_break_is_one_block() {
    let src = "text\n\n---\n\nmore\n";
    let blocks = parse_blocks(src);
    let spans: Vec<(u32, u32)> = blocks.iter().map(|b| (b.source_start, b.source_end)).collect();
    assert_eq!(spans, vec![(1, 1), (3, 3), (5, 5)]);
}

#[test]
fn parse_blocks_html_block_is_a_single_block() {
    let src = "<div>\nraw html\n</div>\n";
    let blocks = parse_blocks(src);
    let spans: Vec<(u32, u32)> = blocks.iter().map(|b| (b.source_start, b.source_end)).collect();
    assert_eq!(spans, vec![(1, 3)]);
}

#[test]
fn parse_blocks_task_list_items_still_split_one_per_item() {
    let src = "- [ ] todo\n- [x] done\n";
    let blocks = parse_blocks(src);
    let starts: Vec<u32> = blocks.iter().map(|b| b.source_start).collect();
    assert_eq!(starts, vec![1, 2]);
}

#[test]
fn parse_blocks_indented_code_is_one_block_per_line() {
    let src = "para\n\n    line one\n    line two\n";
    let blocks = parse_blocks(src);
    let spans: Vec<(u32, u32)> = blocks.iter().map(|b| (b.source_start, b.source_end)).collect();
    // paragraph(1), then two indented code lines anchored to lines 3 and 4
    assert_eq!(spans, vec![(1, 1), (3, 3), (4, 4)]);
}

/// The text of a line, without its styles.
fn line_text(l: &Line) -> String {
    l.spans.iter().map(|s| s.text.as_str()).collect()
}

/// The lines of a rendered document, without their styles.
fn plain(doc: &Document) -> Vec<String> {
    doc.blocks.iter().flat_map(|b| b.rendered.iter().map(line_text)).collect()
}

/// A source span as a plain value.
fn span(b: &Block) -> (u32, u32) {
    (b.source_start, b.source_end)
}

#[test]
fn line_of_is_1_based_at_every_edge() {
    let idx = line_index("a\nbb\n\nc");
    assert_eq!(idx, vec![0, 2, 5, 6]);
    let lines: Vec<u32> = (0..9).map(|b| line_of(&idx, b)).collect();
    assert_eq!(lines, vec![1, 1, 2, 2, 2, 3, 4, 4, 4]);
    assert_eq!(line_index(""), vec![0]);
    assert_eq!(line_of(&[0], 0), 1);
    assert_eq!(line_of(&[], 7), 0);
    assert_eq!(line_of(&[3, 9], 2), 0);
}

#[test]
fn line_index_counts_bytes_not_characters() {
    let idx = line_index("é\n漢字\nx");
    assert_eq!(idx, vec![0, 3, 10]);
    assert_eq!(line_of(&idx, 9), 2);
}

#[test]
fn no_block_is_rendered_by_parsing() {
    for b in parse_blocks("# T\n\n- a\n\n```\nx\n```\n") {
        assert!(b.rendered.is_empty());
    }
    assert!(parse_blocks("").is_empty());
}

#[test]
fn heading_levels_and_inline_styles_are_kept() {
    let blocks = parse_blocks("### a *b* **c** ~~d~~ `e` [f](g) ![h](i)\n");
    assert_eq!(blocks.len(), 1);
    assert!(matches!(blocks[0].kind, BlockKind::Heading(3)));
    let kinds: Vec<&str> = blocks[0]
        .inlines
        .iter()
        .filter(|n| !matches!(n, Inline::Text(_)))
        .map(|n| match n {
            Inline::Emph(_) => "emph",
            Inline::Strong(_) => "strong",
            Inline::Strike(_) => "strike",
            Inline::Code(t) => t.as_str(),
            Inline::Link { label: _, url } => url.as_str(),
            Inline::Image { alt } => alt.as_str(),
            _ => "other",
        })
        .collect();
    assert_eq!(kinds, vec!["emph", "strong", "strike", "e", "g", "h"]);
}

#[test]
fn items_keep_marker_depth_and_task() {
    let blocks = parse_blocks("3. one\n   - [x] two\n");
    let items: Vec<(bool, String, u8, Option<bool>)> = blocks
        .iter()
        .map(|b| match &b.kind {
            BlockKind::Item { ordered, marker, depth, task } => {
                (*ordered, marker.clone(), *depth, *task)
            }
            other => panic!("{other:?}"),
        })
        .collect();
    assert_eq!(
        items,
        vec![
            (true, "3.".to_string(), 1, None),
            (false, "-".to_string(), 2, Some(true)),
        ]
    );
}

#[test]
fn a_loose_item_takes_its_paragraphs_in() {
    let blocks = parse_blocks("- one\n\n  more\n");
    assert_eq!(blocks.len(), 1);
    let texts: Vec<&str> = blocks[0]
        .inlines
        .iter()
        .map(|n| match n {
            Inline::Text(t) => t.as_str(),
            _ => "?",
        })
        .collect();
    assert_eq!(texts, vec!["one", "more"]);
}

#[test]
fn fenced_code_keeps_its_language_and_lines() {
    let blocks = parse_blocks("```rust\nlet x = 1;\n\nlet y = 2;\n```\n");
    let lines: Vec<(Option<String>, String, (u32, u32))> = blocks
        .iter()
        .map(|b| match &b.kind {
            BlockKind::Code { lang, line } => (lang.clone(), line.clone(), span(b)),
            other => panic!("{other:?}"),
        })
        .collect();
    let rust = Some("rust".to_string());
    assert_eq!(
        lines,
        vec![
            (rust.clone(), "let x = 1;".to_string(), (2, 2)),
            (rust.clone(), String::new(), (3, 3)),
            (rust, "let y = 2;".to_string(), (4, 4)),
        ]
    );
}

#[test]
fn table_cells_and_header_are_kept() {
    let blocks = parse_blocks("| a | b |\n|---|---|\n| 1 | 2 |\n| 3 | 4 |\n");
    let rows: Vec<(bool, usize)> = blocks
        .iter()
        .map(|b| match &b.kind {
            BlockKind::TableRow { header, cells } => (*header, cells.len()),
            other => panic!("{other:?}"),
        })
        .collect();
    assert_eq!(rows, vec![(true, 2), (false, 2), (false, 2)]);
    assert_eq!(blocks.iter().map(span).collect::<Vec<_>>(), vec![(1, 2), (3, 3), (4, 4)]);
}

#[test]
fn quotes_and_breaks_are_told_apart() {
    let blocks = parse_blocks("> a\n> b\n\nc  \nd\n");
    assert!(matches!(blocks[0].kind, BlockKind::Quote));
    assert!(blocks[0].inlines.iter().any(|n| matches!(n, Inline::SoftBreak)));
    assert!(matches!(blocks[1].kind, BlockKind::Paragraph));
    assert!(blocks[1].inlines.iter().any(|n| matches!(n, Inline::HardBreak)));
}

#[test]
fn html_block_keeps_its_text() {
    let blocks = parse_blocks("<div>\nraw html\n</div>\n");
    match &blocks[0].kind {
        BlockKind::Html(text) => assert_eq!(text, "<div>\nraw html\n</div>\n"),
        other => panic!("{other:?}"),
    }
}

/// An event over some bytes.
fn at(event: Event<TagKind>, start: usize, end: usize) -> SourceEvent<TagKind> {
    SourceEvent { event, start, end }
}

#[test]
fn events_fold_without_a_parser() {
    let source = "one\ntwo\nthree\n";
    let events = vec![
        at(Event::Start(TagKind::Paragraph, None), 0, 7),
        at(Event::Text("one".to_string()), 0, 3),
        at(Event::SoftBreak, 3, 4),
        at(Event::Text("two".to_string()), 4, 7),
        at(Event::End(TagKind::Paragraph), 0, 7),
        at(Event::Rule, 8, 13),
    ];
    let blocks = fold_events(source, events);
    assert_eq!(blocks.iter().map(span).collect::<Vec<_>>(), vec![(1, 2), (3, 3)]);
    assert_eq!(blocks[0].inlines.len(), 3);
    assert!(matches!(blocks[1].kind, BlockKind::Rule));
}

#[test]
fn table_gaps_close_downwards() {
    let source = "1\n2\n3\n4\n5\n6\n";
    let row = |kind: TagKind, start: usize, end: usize| {
        vec![at(Event::Start(kind, None), start, end), at(Event::End(kind), start, end)]
    };
    let mut events = vec![at(Event::Start(TagKind::Table, None), 0, 12)];
    events.extend(row(TagKind::TableHead, 0, 1));
    events.extend(row(TagKind::TableRow, 6, 7));
    events.extend(row(TagKind::TableRow, 10, 11));
    events.push(at(Event::End(TagKind::Table), 0, 12));
    let blocks = fold_events(source, events);
    assert_eq!(blocks.iter().map(span).collect::<Vec<_>>(), vec![(1, 3), (4, 5), (6, 6)]);
}

#[test]
fn images_gather_their_content_as_plain_text() {
    let source = "x\n";
    let events = vec![
        at(Event::Start(TagKind::Paragraph, None), 0, 1),
        at(Event::Start(TagKind::Image, None), 0, 1),
        at(Event::Text("a".to_string()), 0, 1),
        at(Event::SoftBreak, 0, 1),
        at(Event::Code("b".to_string()), 0, 1),
        at(Event::End(TagKind::Image), 0, 1),
        at(Event::End(TagKind::Paragraph), 0, 1),
    ];
    let blocks = fold_events(source, events);
    match &blocks[0].inlines[0] {
        Inline::Image { alt } => assert_eq!(alt, "a b"),
        other => panic!("{other:?}"),
    }
}

#[test]
fn alt_text_keeps_what_is_formatted() {
    let alt = |source: &str| match &parse_blocks(source)[0].inlines[0] {
        Inline::Image { alt } => alt.clone(),
        other => panic!("{other:?}"),
    };
    assert_eq!(alt("![a *b*](u)\n"), "a b");
    assert_eq!(alt("![**a** ~~b~~ `c` [d *e*](x)\nf](u)\n"), "a b c d e f");
    assert_eq!(alt("![a ![b](v)](u)\n"), "a b");
}

#[test]
fn blocks_stand_in_source_order() {
    let starts = |source: &str| {
        parse_blocks(source).iter().map(|b| b.source_start).collect::<Vec<_>>()
    };
    assert_eq!(starts("- a\n  - b\n"), vec![1, 2]);
    assert_eq!(starts("- a\n  - b\n    - c\n  - d\n- e\n"), vec![1, 2, 3, 4, 5]);
    assert_eq!(starts("- a\n\n  ```\n  x\n  y\n  ```\n\n- b\n"), vec![1, 4, 5, 8]);
    assert_eq!(starts("- a\n\n  | h |\n  |---|\n  | c |\n"), vec![1, 3, 5]);
    // Items that open on one line stand outermost first.
    let nested = parse_blocks("- - a\n");
    let depths: Vec<u8> = nested
        .iter()
        .map(|b| match &b.kind {
            BlockKind::Item { depth, .. } => *depth,
            other => panic!("{other:?}"),
        })
        .collect();
    assert_eq!(depths, vec![1, 2]);
    let spans: Vec<(u32, u32)> = parse_blocks("- a\n  - b\n").iter().map(span).collect();
    assert_eq!(spans, vec![(1, 2), (2, 2)]);
}

#[test]
fn events_out_of_turn_still_give_ordered_blocks() {
    let source = "1\n2\n3\n";
    let events = vec![
        at(Event::Rule, 4, 5),
        at(Event::Rule, 0, 1),
        at(Event::Rule, 2, 3),
        at(Event::Rule, 0, 1),
    ];
    let blocks = fold_events(source, events);
    assert_eq!(blocks.iter().map(span).collect::<Vec<_>>(), vec![(1, 1), (1, 1), (2, 2), (3, 3)]);
}

#[test]
fn the_parser_yields_events_with_their_bytes() {
    let events = source_events("# é\n");
    let kinds: Vec<&str> = events
        .iter()
        .map(|e| match &e.event {
            Event::Start(TagKind::Heading(1), None) => "start",
            Event::Text(t) => t.as_str(),
            Event::End(TagKind::Heading(1)) => "end",
            _ => "other",
        })
        .collect();
    assert_eq!(kinds, vec!["start", "é", "end"]);
    assert_eq!((events[1].start, events[1].end), (2, 4));
    let links = source_events("[a](b) ~~c~~ <i>\n");
    assert!(links.iter().any(|e| matches!(
        &e.event,
        Event::Start(TagKind::Link, Some(url)) if url == "b"
    )));
    assert!(links.iter().any(|e| matches!(&e.event, Event::Start(TagKind::Strikethrough, None))));
    assert!(links.iter().any(|e| matches!(&e.event, Event::InlineHtml(t) if t == "<i>")));
    let fence = source_events("```sh\nx\n```\n");
    assert!(matches!(
        &fence[0].event,
        Event::Start(TagKind::CodeBlock, Some(lang)) if lang == "sh"
    ));
}

#[test]
fn item_markers_come_from_the_source() {
    assert_eq!(item_marker("- a\n* b\n12. c\n", &(0..3)), "-");
    assert_eq!(item_marker("- a\n* b\n12. c\n", &(4..7)), "*");
    assert_eq!(item_marker("- a\n* b\n12. c\n", &(8..99)), "12.");
    assert_eq!(item_marker("   + x", &(0..6)), "+");
    assert_eq!(item_marker("    ", &(0..4)), "");
}

#[test]
fn heading_renders_with_hash_prefix_text() {
    let doc = render_document("# Hello\n");
    assert_eq!(plain(&doc), vec!["# Hello"]);
    assert_eq!(doc.source, "# Hello\n");
}

#[test]
fn bullet_item_renders_marker_and_text() {
    assert_eq!(plain(&render_document("- item one\n")), vec!["  • item one"]);
    assert_eq!(
        plain(&render_document("7. seven\n\n- [ ] todo\n- [x] done\n")),
        vec!["  7. seven", "  [ ] todo", "  [x] done"]
    );
}

#[test]
fn link_shows_label_and_url() {
    assert_eq!(plain(&render_document("[docs](http://x)\n")), vec!["docs (http://x)"]);
}

#[test]
fn code_fence_line_is_rendered_verbatim() {
    assert_eq!(
        plain(&render_document("```rust\nlet x = 1;\n```\n")),
        vec!["let x = 1;"]
    );
}

#[test]
fn every_kind_of_block_has_a_line() {
    let source = "# h\n\np *q*  \nr\n\n> s\n\n| t | u |\n|---|---|\n| v | w |\n\n---\n\n<b>\n";
    let doc = render_document(source);
    assert!(doc.blocks.iter().all(|b| !b.rendered.is_empty()));
    let lines = plain(&doc);
    assert_eq!(lines[0], "# h");
    assert_eq!(lines[1], "p q");
    assert_eq!(lines[2], "r");
    assert_eq!(lines[3], "▍ s");
    assert_eq!(lines[4], "t │ u");
    assert_eq!(lines[5], "v │ w");
    assert_eq!(lines[6], "────────────────────────");
    assert_eq!(lines[7], "<b>");
    let italic: Vec<&str> = doc.blocks[1].rendered[0]
        .spans
        .iter()
        .filter(|s| s.style.italic)
        .map(|s| s.text.as_str())
        .collect();
    assert_eq!(italic, vec!["q"]);
}

#[test]
fn layout_wraps_long_paragraph_into_multiple_rows() {
    let long = "word ".repeat(40);
    let doc = render_document(&format!("{long}\n"));
    let rows = layout_rows(&doc, 20, true);
    assert!(rows.len() > 1);
    assert!(rows[0].first_of_block);
    assert!(!rows[1].first_of_block);
    assert!(rows.iter().all(|r| r.block == 0));
}

#[test]
fn layout_no_wrap_is_one_row_per_line() {
    let doc = render_document("# H\n\npara\n");
    let rows = layout_rows(&doc, 80, false);
    assert_eq!(rows.iter().filter(|r| r.first_of_block).count(), 2); // heading + paragraph
    assert_eq!(rows.len(), 2);
    assert_eq!(rows[1].block, 1);
}

#[test]
fn wrapping_keeps_the_style_of_each_character() {
    let bold = Style::strong(Tone::Text);
    let l = style::line(vec![
        style::raw("ab cd".to_string()),
        style::styled("ef gh".to_string(), bold),
    ]);
    let rows = wrap_line(&l, 6);
    let cells: Vec<Vec<(String, bool)>> = rows
        .iter()
        .map(|r| r.spans.iter().map(|s| (s.text.clone(), s.style.bold)).collect())
        .collect();
    assert_eq!(
        cells,
        vec![
            vec![("ab ".to_string(), false)],
            vec![("cd".to_string(), false), ("ef ".to_string(), true)],
            vec![("gh".to_string(), true)],
        ]
    );
    let whole: String = rows.iter().map(line_text).collect();
    assert_eq!(whole, "ab cdef gh");
}

#[test]
fn an_empty_line_wraps_to_one_empty_row() {
    let rows = wrap_line(&style::line(Vec::new()), 5);
    assert_eq!(rows.len(), 1);
    assert!(rows[0].spans.is_empty());
}

const MIXED: &str = "# T\n\n> a\n> b\n\n- x\n  - y\n\n| h |\n|---|\n| c |\n\n\
                     ```\nlet z;\n```\n\n<p>\nq\n</p>\n\nend";

#[test]
fn every_block_covers_lines_of_its_source() {
    let lines = MIXED.split('\n').count() as u32;
    let blocks = parse_blocks(MIXED);
    assert!(blocks.len() > 8);
    for b in &blocks {
        let (start, end) = span(b);
        assert!(1 <= start && start <= end && end <= lines, "{start}..={end}");
    }
}

#[test]
fn leading_blank_lines_only_move_the_lines() {
    let moved = format!("\n\n\n{MIXED}");
    let (here, there) = (parse_blocks(MIXED), parse_blocks(&moved));
    assert_eq!(here.len(), there.len());
    for (a, b) in here.iter().zip(&there) {
        assert_eq!((a.source_start + 3, a.source_end + 3), span(b));
        assert_eq!(format!("{:?} {:?}", a.kind, a.inlines), format!("{:?} {:?}", b.kind, b.inlines));
    }
}

#[test]
fn blocks_can_be_copied() {
    let blocks = parse_blocks("a *b **c*** [d](u) `e`\\\nf ![g](v)\n\n| h |\n|---|\n| i |\n");
    assert_eq!(format!("{blocks:?}"), format!("{:?}", blocks.clone()));
}

/// The text of each rendered line of a document.
fn shown_lines(source: &str) -> Vec<String> {
    render_document(source)
        .blocks
        .iter()
        .flat_map(|b| b.rendered.iter())
        .map(|l| l.spans.iter().map(|s| s.text.as_str()).collect())
        .collect()
}

#[test]
fn the_columns_of_a_table_line_up() {
    let source = "| name | n | note |\n|---|---|---|\n| a | 10 | x |\n| **long** one | 7 | y |\n";
    assert_eq!(
        shown_lines(source),
        vec![
            "name     │ n  │ note", //
            "a        │ 10 │ x",
            "long one │ 7  │ y",
        ]
    );
    // Wide characters count as the columns they take.
    assert_eq!(
        shown_lines("| a | b |\n|---|---|\n| 日本 | c |\n"),
        vec!["a    │ b", "日本 │ c"]
    );
}

#[test]
fn each_table_has_its_own_columns() {
    let source = "| aaaa | b |\n|---|---|\n| c | d |\n\n| e | f |\n|---|---|\n| g | h |\n";
    assert_eq!(
        shown_lines(source),
        vec!["aaaa │ b", "c    │ d", "e │ f", "g │ h"]
    );
    // A row that is short of cells is filled up by empty ones.
    assert_eq!(
        shown_lines("| a | b |\n|---|---|\n| cc |\n"),
        vec!["a  │ b", "cc │ "]
    );
}
