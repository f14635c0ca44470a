use herdr_glowr::app::{App, Focus, FooterAction, Mode, Tier};
use herdr_glowr::comments::{Author, Status, StoredComment};
use herdr_glowr::docview::DocBody;
use herdr_glowr::file_list::FileEntry;
use herdr_glowr::footer::{FooterState, footer_line};
use herdr_glowr::geometry::{Rect, doc_at, file_at, inner_rect, on_divider};
use herdr_glowr::markdown::render_document;
use herdr_glowr::model::Comment;
use herdr_glowr::scroll::{doc_scroll, list_scroll, row_of_block};
use herdr_glowr::style::{Line, Tone};
use herdr_glowr::ui::{
    action_key_label, body_rect, border_tone, box_rows, box_wrap, caret_rowcol, caret_vertical,
    centered, comment_card_lines, comment_rows, comments_title, composer_content_width,
    composer_height, composer_lines, composer_slots, composer_title, contains, cursor_bg, doc_body,
    doc_inner_width, doc_rect, doc_row_heights, doc_title, doc_viewport_height, elide_head,
    file_row_item, file_rows, file_viewport_height, footer_of, header_line, hit_divider, hit_doc,
    hit_file, in_files_pane, panes, row_heights_at, row_with_caret, selectable_row, tier_styles,
    truncate_width, vrows, wrap_text,
};
use herdr_glowr::{markdown, style};

const AREA: Rect = Rect { x: 0, y: 0, width: 80, height: 20 };

fn text_of(l: &Line) -> String {
    l.spans.iter().map(|s| s.text.as_str()).collect()
}

fn texts(lines: &[Line]) -> Vec<String> {
    lines.iter().map(text_of).collect()
}

fn for_test_with_path(source: &str, path: Option<&str>) -> App {
    let mut app = App::default();
    app.load(0, path.map(str::to_string), render_document(source));
    app.files = path
        .iter()
        .map(|p| FileEntry { path: p.to_string(), mtime: 0, ignored: false })
        .collect();
    app
}

/// Everything that a frame of `AREA` shows, row by row.
fn frame_text(app: &App) -> String {
    let p = panes(AREA, app.list_pct);
    let mut out = vec![text_of(&header_line(app, p.header.width))];
    let inner = inner_rect(doc_rect(AREA, app.list_pct, app.split, 0));
    out.push(doc_title(&app.docs[0]));
    match doc_body(app, 0, app.focus == Focus::DocA, inner.width, inner.height) {
        DocBody::Hint => out.push("select a file to read".to_string()),
        DocBody::Blank => {}
        DocBody::Lines(lines) => out.extend(texts(&lines)),
        DocBody::Composing { above, box_h: _, below } => {
            out.extend(texts(&above));
            out.extend(texts(&below));
        }
    }
    let list = inner_rect(p.files);
    out.extend(texts(&file_rows(
        &app.files,
        app.file_cursor,
        app.file_scroll,
        list.width as usize,
        list.height as usize,
        cursor_bg(app.focus == Focus::List),
    )));
    out.push(text_of(&footer_of(app, p.footer.width)));
    out.join("\n")
}

#[test]
fn renders_title_doc_text_and_file_list() {
    let app = for_test_with_path("# Plan\n\nstep one\n", Some("plan.md"));
    let text = frame_text(&app);
    assert!(text.contains("glowr"));
    assert!(text.contains("Plan"));
    assert!(text.contains("step one"));
    assert!(text.contains("plan.md"));
}

#[test]
fn renders_comment_card_under_block() {
    let mut app = for_test_with_path("# Plan\n\nstep one\n", Some("plan.md"));
    app.docs[0].cursor_block = 1;
    app.add_comment(0, "clarify".into());
    assert!(frame_text(&app).contains("clarify"));
}

#[test]
fn bands_and_panes_tile_an_ordinary_terminal() {
    let b = vrows(AREA);
    assert_eq!(b.header, Rect { x: 0, y: 0, width: 80, height: 1 });
    assert_eq!(b.body, Rect { x: 0, y: 1, width: 80, height: 18 });
    assert_eq!(b.footer, Rect { x: 0, y: 19, width: 80, height: 1 });
    assert_eq!(body_rect(AREA), b.body);
    let p = panes(AREA, 25);
    assert_eq!(p.doc, Rect { x: 0, y: 1, width: 60, height: 18 });
    assert_eq!(p.files, Rect { x: 60, y: 1, width: 20, height: 18 });
    assert_eq!(doc_rect(AREA, 25, false, 1), p.doc);
    assert_eq!(doc_rect(AREA, 25, true, 0), Rect { x: 0, y: 1, width: 30, height: 18 });
    assert_eq!(doc_rect(AREA, 25, true, 1), Rect { x: 30, y: 1, width: 30, height: 18 });
    assert_eq!(doc_rect(AREA, 25, true, 9), doc_rect(AREA, 25, true, 1));
    assert_eq!(centered(AREA, 80, 60), Rect { x: 8, y: 4, width: 64, height: 12 });
}

#[test]
fn the_comment_box_gets_its_slot_between_the_lines() {
    let inner = Rect { x: 1, y: 2, width: 40, height: 20 };
    let s = composer_slots(inner, 5, 4, 11);
    assert_eq!(s.above, Rect { x: 1, y: 2, width: 40, height: 5 });
    assert_eq!(s.input, Rect { x: 1, y: 7, width: 40, height: 4 });
    assert_eq!(s.below, Rect { x: 1, y: 11, width: 40, height: 11 });
}

#[test]
fn viewport_sizes_leave_the_borders_out() {
    assert_eq!(file_viewport_height(AREA, 25), 16);
    assert_eq!(doc_viewport_height(AREA, 25, false, 0), 16);
    assert_eq!(doc_inner_width(AREA, 25, false, 0), 58);
    assert_eq!(doc_inner_width(AREA, 25, true, 1), 28);
}

#[test]
fn the_divider_has_a_three_column_grab_zone() {
    let hits: Vec<u16> = (0..80).filter(|&c| hit_divider(AREA, 25, c, 5)).collect();
    assert_eq!(hits, vec![59, 60, 61]);
    assert!(!hit_divider(AREA, 25, 60, 0));
    assert!(!hit_divider(AREA, 25, 60, 19));
    let body = Rect { x: 0, y: 65_000, width: 9, height: 2_000 };
    let files = Rect { x: 65_535, y: 0, width: 9, height: 9 };
    assert!(on_divider(body, files, 65_535, 65_535));
    assert!(on_divider(body, files, 65_534, 65_000));
    assert!(!on_divider(body, files, 65_533, 65_000));
    assert!(on_divider(body, Rect { x: 0, ..files }, 0, 65_000));
}

#[test]
fn file_clicks_map_to_rows() {
    assert_eq!(hit_file(AREA, 25, 61, 2, 30, 0), Some(0));
    assert_eq!(hit_file(AREA, 25, 78, 17, 30, 4), Some(19));
    assert_eq!(hit_file(AREA, 25, 61, 2, 30, 30), None);
    assert_eq!(hit_file(AREA, 25, 60, 2, 30, 0), None);
    assert_eq!(hit_file(AREA, 25, 61, 1, 30, 0), None);
    assert_eq!(hit_file(AREA, 25, 61, 5, 3, 0), None);
    let pane = Rect { x: 0, y: 0, width: 10, height: 10 };
    assert_eq!(file_at(pane, 1, 3, usize::MAX, usize::MAX - 1), None);
    assert_eq!(file_at(pane, 1, 1, usize::MAX, usize::MAX - 1), Some(usize::MAX - 1));
    assert!(in_files_pane(AREA, 25, 60, 1));
    assert!(!in_files_pane(AREA, 25, 59, 1));
}

#[test]
fn doc_clicks_map_to_render_rows() {
    let heights = [1, 3, 1, 1];
    assert_eq!(hit_doc(AREA, 25, false, 0, 1, 2, &heights, 0), Some(0));
    assert_eq!(hit_doc(AREA, 25, false, 0, 1, 3, &heights, 0), Some(1));
    assert_eq!(hit_doc(AREA, 25, false, 0, 1, 5, &heights, 0), Some(1));
    assert_eq!(hit_doc(AREA, 25, false, 0, 1, 6, &heights, 0), Some(2));
    assert_eq!(hit_doc(AREA, 25, false, 0, 1, 8, &heights, 0), None);
    assert_eq!(hit_doc(AREA, 25, false, 0, 1, 2, &heights, 2), Some(2));
    assert_eq!(hit_doc(AREA, 25, false, 0, 1, 2, &heights, 9), None);
    assert_eq!(hit_doc(AREA, 25, false, 0, 0, 2, &heights, 0), None);
    let pane = Rect { x: 0, y: 0, width: 9, height: 9 };
    assert_eq!(doc_at(pane, 1, 7, &[usize::MAX, 1], 0), Some(0));
    assert_eq!(doc_at(pane, 1, 1, &[0, 0, 2], 0), Some(2));
}

#[test]
fn contains_and_inner_rect_saturate() {
    let edge = Rect { x: 65_530, y: 0, width: 100, height: 1 };
    assert!(contains(edge, 65_534, 0));
    assert!(!contains(edge, 65_535, 0));
    assert_eq!(
        inner_rect(Rect { x: 65_535, y: 3, width: 1, height: 5 }),
        Rect { x: 65_535, y: 4, width: 0, height: 3 }
    );
}

fn ranges(s: &str, w: usize) -> Vec<(usize, usize)> {
    let chars: Vec<char> = s.chars().collect();
    box_wrap(&chars, w)
}

#[test]
fn box_wrap_breaks_after_the_last_space_that_fits() {
    assert_eq!(ranges("", 5), vec![(0, 0)]);
    assert_eq!(ranges("ab cd ef", 6), vec![(0, 6), (6, 8)]);
    assert_eq!(ranges("ab cd", 5), vec![(0, 5)]);
    assert_eq!(ranges("abcdef", 4), vec![(0, 4), (4, 6)]);
    assert_eq!(ranges("a bcdefg", 4), vec![(0, 2), (2, 6), (6, 8)]);
    assert_eq!(ranges("abc", 0), vec![(0, 1), (1, 2), (2, 3)]);
    assert_eq!(ranges("a  b", 2), vec![(0, 2), (2, 4)]);
}

#[test]
fn box_wrap_counts_columns() {
    // A wide character takes two columns, a combining mark none, a control character none.
    assert_eq!(ranges("漢字漢", 4), vec![(0, 2), (2, 3)]);
    assert_eq!(ranges("漢字", 1), vec![(0, 1), (1, 2)]);
    assert_eq!(ranges("e\u{301}xy", 2), vec![(0, 3), (3, 4)]);
    assert_eq!(ranges("a\tb", 2), vec![(0, 3)]);
}

#[test]
fn wrapped_rows_cover_every_character_once() {
    for s in ["hello wide world", "x", "漢字 and more", "   ", "no-spaces-at-all-here"] {
        for w in 1..12 {
            let n = s.chars().count();
            let rows = ranges(s, w);
            assert_eq!(rows[0].0, 0);
            assert_eq!(rows.last().unwrap().1, n);
            for pair in rows.windows(2) {
                assert_eq!(pair[0].1, pair[1].0);
            }
            assert!(rows.iter().all(|(a, b)| a < b));
        }
    }
}

#[test]
fn box_rows_split_on_newlines() {
    let rows = |s: &str, w: usize| box_rows(s, w);
    assert_eq!(rows("", 5), vec![(0, "".to_string())]);
    assert_eq!(rows("ab\n", 5), vec![(0, "ab".to_string()), (3, "".to_string())]);
    assert_eq!(
        rows("ab cd\n\nef", 3),
        vec![
            (0, "ab ".to_string()),
            (3, "cd".to_string()),
            (6, "".to_string()),
            (7, "ef".to_string())
        ]
    );
    assert_eq!(rows("\n", 5), vec![(0, "".to_string()), (1, "".to_string())]);
}

#[test]
fn the_caret_cell_is_exact_inside_the_input() {
    let input = "ab cd ef\n\nlonger line";
    let n = input.chars().count();
    for w in 1..9 {
        let rows = box_rows(input, w);
        for caret in 0..=n {
            let (row, col) = caret_rowcol(&rows, caret);
            assert_eq!(rows[row].0 + col, caret, "{w} {caret}");
        }
        assert_eq!(caret_rowcol(&rows, n + 50), caret_rowcol(&rows, n));
    }
}

#[test]
fn caret_vertical_keeps_the_column_where_it_can() {
    let input = "abcd\nef\nghij";
    assert_eq!(caret_vertical(input, 3, 20, true), 7);
    assert_eq!(caret_vertical(input, 7, 20, true), 10);
    assert_eq!(caret_vertical(input, 9, 20, false), 6);
    assert_eq!(caret_vertical(input, 2, 20, false), 2);
    assert_eq!(caret_vertical(input, 9, 20, true), 9);
    assert_eq!(caret_vertical("", 0, 20, true), 0);
    assert_eq!(caret_vertical("ab cd", 1, 3, true), 4);
    assert_eq!(caret_vertical("ab", 99, 3, false), 2);
}

#[test]
fn the_caret_lands_on_the_neighbouring_wrapped_row() {
    // Rows "ab " and "cdef": the index behind "ab " is the start of the second row.
    assert_eq!(caret_vertical("ab cdef", 6, 4, false), 2);
    assert_eq!(caret_vertical("ab cdef", 2, 4, true), 5);
    let input = "one two three\n\nfour";
    for w in 1..8 {
        let rows = box_rows(input, w);
        for caret in 0..=input.chars().count() {
            let row = caret_rowcol(&rows, caret).0;
            let up = caret_vertical(input, caret, w, false);
            let down = caret_vertical(input, caret, w, true);
            assert_eq!(caret_rowcol(&rows, up).0, row.saturating_sub(1));
            assert_eq!(caret_rowcol(&rows, down).0, (row + 1).min(rows.len() - 1));
            if row == 0 {
                assert_eq!(up, caret);
            }
            if row + 1 == rows.len() {
                assert_eq!(down, caret);
            }
        }
    }
}

#[test]
fn the_comment_box_grows_with_its_text() {
    let mut app = App::default();
    assert_eq!(composer_height(&app, 20), 3);
    app.input = "one two three four".to_string();
    assert_eq!(composer_height(&app, 20), 3);
    assert_eq!(composer_height(&app, 12), 4);
    app.input = "a\nb\n".to_string();
    assert_eq!(composer_height(&app, 20), 5);
    assert_eq!(composer_content_width(20), 18);
    assert_eq!(composer_content_width(2), 1);
    assert_eq!(composer_content_width(0), 1);
}

#[test]
fn composer_lines_draw_the_caret() {
    let lines = composer_lines("", 0, 10);
    assert_eq!(texts(&lines), vec![" Leave a comment…"]);
    assert_eq!(lines[0].spans[0].style.bg, Some(Tone::Peach));
    let lines = composer_lines("ab\ncd", 4, 10);
    assert_eq!(texts(&lines), vec!["ab", "cd"]);
    assert_eq!(lines[0].spans.len(), 1);
    let marked: Vec<&str> = lines[1]
        .spans
        .iter()
        .filter(|s| s.style.bg == Some(Tone::Peach))
        .map(|s| s.text.as_str())
        .collect();
    assert_eq!(marked, vec!["d"]);
    let end = row_with_caret("ab", 7);
    assert_eq!(text_of(&end), "ab ");
    assert_eq!(end.spans[1].style.fg, Some(Tone::Surface0));
}

#[test]
fn the_box_title_says_what_is_done_and_where() {
    let mut app = for_test_with_path("# Plan\n\nstep one\n", Some("plan.md"));
    app.docs[0].cursor_block = 1;
    app.mode = Mode::Composing { editing: None };
    assert_eq!(composer_title(&app), "comment · plan.md:3");
    app.mode = Mode::Composing { editing: Some("c-1-aaaa".to_string()) };
    assert_eq!(composer_title(&app), "edit · plan.md:3");
    app.docs[0].path = None;
    assert_eq!(composer_title(&app), "edit · comment");
}

fn stored(author: Author, status: Status, text: &str) -> StoredComment {
    StoredComment {
        id: "c-1-aaaa".into(),
        author,
        status,
        created_at: "2024-01-01T00:00:00Z".into(),
        comment: Comment {
            file: "p.md".into(),
            start: 3,
            end: 4,
            lines: "x".into(),
            text: text.into(),
        },
    }
}

#[test]
fn a_card_is_a_box_with_title_and_wrapped_text() {
    let card = comment_card_lines(&stored(Author::User, Status::Open, "hello\nwide world"), 30);
    assert_eq!(
        texts(&card),
        vec![
            "  ╭─ comment · p.md:3-4 ─────╮",
            "  │ hello                    │",
            "  │ wide world               │",
            "  ╰──────────────────────────╯",
        ]
    );
    assert_eq!(card[0].spans[2].style.fg, Some(Tone::Peach));
    assert!(card[0].spans[2].style.bold);
    assert_eq!(card[1].spans[2].style.fg, Some(Tone::Text));
}

#[test]
fn an_agent_card_carries_a_chip_and_a_resolved_card_is_muted() {
    let card = comment_card_lines(&stored(Author::Agent, Status::Resolved, "x"), 46);
    assert_eq!(text_of(&card[0]), "  ╭─ agent ─ comment · p.md:3-4 · resolved ──╮");
    assert_eq!(card[0].spans[2].text, " agent ");
    assert_eq!(card[0].spans[2].style.fg, Some(Tone::Mauve));
    assert_eq!(card[0].spans[4].style.fg, Some(Tone::Overlay1));
    assert_eq!(card[1].spans[2].style.fg, Some(Tone::Overlay1));
    assert_eq!(card[2].spans[1].style.fg, Some(Tone::Overlay1));
}

#[test]
fn a_card_in_a_narrow_pane_keeps_its_box() {
    let card = comment_card_lines(&stored(Author::User, Status::Open, "abcdefgh"), 4);
    assert_eq!(
        texts(&card),
        vec!["  ╭─ comme…╮", "  │ abcdef │", "  │ gh     │", "  ╰────────╯"]
    );
    let agent = comment_card_lines(&stored(Author::Agent, Status::Open, ""), 4);
    assert_eq!(texts(&agent)[1], "  │        │");
}

#[test]
fn truncation_marks_a_cut() {
    assert_eq!(truncate_width("hello", 5), "hello");
    assert_eq!(truncate_width("hello", 4), "hel…");
    assert_eq!(truncate_width("hello", 1), "…");
    assert_eq!(truncate_width("hello", 0), "…");
    assert_eq!(truncate_width("漢字漢", 4), "漢…");
    assert_eq!(truncate_width("", 0), "");
}

#[test]
fn elision_keeps_the_tail_from_a_separator() {
    assert_eq!(elide_head("docs/plan.md", 12), "docs/plan.md");
    assert_eq!(elide_head("docs/plan.md", 11), "…/plan.md");
    assert_eq!(elide_head("a/b/c/plan.md", 11), "…/c/plan.md");
    assert_eq!(elide_head("averylongname.md", 6), "…me.md");
    assert_eq!(elide_head("ab", 1), "…");
    assert_eq!(elide_head("漢字.md", 5), "….md");
}

#[test]
fn wrapped_text_matches_the_doc_body() {
    assert_eq!(wrap_text("ab cd ef", 6), vec!["ab cd ", "ef"]);
    assert_eq!(wrap_text("", 6), vec![""]);
    let l = style::line(vec![style::raw("ab cd ef".to_string())]);
    assert_eq!(texts(&markdown::wrap_line(&l, 6)), wrap_text("ab cd ef", 6));
}

#[test]
fn file_rows_dim_directories_and_ignored_files() {
    let row = file_row_item("docs/plan.md", 20, None, false);
    let cells: Vec<(&str, Option<Tone>)> =
        row.spans.iter().map(|s| (s.text.as_str(), s.style.fg)).collect();
    assert_eq!(cells, vec![("docs/", Some(Tone::Overlay0)), ("plan.md", Some(Tone::Text))]);
    let row = file_row_item("plan.md", 20, Some(Tone::Surface2), true);
    assert_eq!(text_of(&row), "plan.md             ");
    assert_eq!(row.spans[0].style.fg, Some(Tone::Overlay0));
    assert!(row.spans.iter().all(|s| s.style.bg == Some(Tone::Surface2) && s.style.bold));
    assert_eq!(text_of(&file_row_item("docs/plan.md", 0, None, false)), "…");
}

#[test]
fn the_visible_file_rows_follow_the_scroll() {
    let files: Vec<FileEntry> = ["a.md", "b.md", "c.md", "d.md"]
        .iter()
        .map(|p| FileEntry { path: p.to_string(), mtime: 0, ignored: false })
        .collect();
    let rows = file_rows(&files, 2, 1, 6, 2, Tone::CursorFocused);
    assert_eq!(texts(&rows), vec!["b.md", "c.md  "]);
    assert_eq!(rows[1].spans[0].style.bg, Some(Tone::CursorFocused));
    assert!(file_rows(&files, 0, 9, 6, 2, Tone::CursorFocused).is_empty());
    assert_eq!(file_rows(&files, 0, 3, 6, 9, Tone::CursorFocused).len(), 1);
}

#[test]
fn comment_rows_name_author_place_text_and_status() {
    let comments = vec![
        stored(Author::User, Status::Open, "one"),
        stored(Author::Agent, Status::Resolved, "two"),
    ];
    let rows = comment_rows(&comments, 1, 40);
    assert_eq!(text_of(&rows[0]), "@you p.md:3-4  one");
    assert_eq!(text_of(&rows[1]), "@agent p.md:3-4  two  resolved          ");
    assert_eq!(rows[1].spans[0].style.fg, Some(Tone::Mauve));
    assert_eq!(rows[1].spans[0].style.bg, Some(Tone::Surface2));
    assert_eq!(rows[0].spans[0].style.bg, None);
}

#[test]
fn a_selectable_row_wider_than_the_pane_gets_no_pad() {
    let spans = vec![style::raw("abcdef".to_string())];
    let row = selectable_row(spans, 4, Some(Tone::Surface2));
    assert_eq!(row.spans.len(), 1);
    assert!(row.spans[0].style.bold);
    let plain = selectable_row(vec![style::raw("ab".to_string())], 4, None);
    assert_eq!(text_of(&plain), "ab");
    assert!(!plain.spans[0].style.bold);
}

#[test]
fn the_header_counts_what_a_send_delivers() {
    let mut app = for_test_with_path("# Plan\n", Some("plan.md"));
    assert_eq!(text_of(&header_line(&app, 30)), " glowr           [ Send (0) ] ");
    app.add_comment(0, "x".into());
    let line = header_line(&app, 30);
    assert_eq!(text_of(&line), " glowr           [ Send (1) ] ");
    assert_eq!(line.fill, Some(Tone::Surface0));
    assert_eq!(text_of(&header_line(&app, 5)), " glowr[ Send (1) ] ");
    assert_eq!(comments_title(&app), "Comments (1)");
}

const STATE: FooterState = FooterState { focus: Focus::DocA, split: false, sendable: 3 };

#[test]
fn every_action_has_its_key_and_label() {
    let said = |a: FooterAction| {
        let (k, l) = action_key_label(STATE, a);
        format!("{k}|{l}")
    };
    assert_eq!(said(FooterAction::Comment), "c|comment");
    assert_eq!(said(FooterAction::Select), "v|select");
    assert_eq!(said(FooterAction::ClearSelection), "esc|clear");
    assert_eq!(said(FooterAction::EditComment), "e|edit");
    assert_eq!(said(FooterAction::DeleteComment), "d|delete");
    assert_eq!(said(FooterAction::JumpComment), "n/N|jump");
    assert_eq!(said(FooterAction::CycleFocus), "⇥|files");
    assert_eq!(said(FooterAction::Send), "s|send 3");
    assert_eq!(said(FooterAction::List), "l|list");
    assert_eq!(said(FooterAction::Copy), "y|copy");
    assert_eq!(said(FooterAction::Split), "`|split");
    assert_eq!(said(FooterAction::Save), "enter|save");
    assert_eq!(said(FooterAction::Newline), "⇧⏎|newline");
    assert_eq!(said(FooterAction::Cancel), "esc|cancel");
    assert_eq!(said(FooterAction::CloseList), "esc|close");
    assert_eq!(said(FooterAction::ResolveComment), "x|resolve");
    assert_eq!(said(FooterAction::Quit), "q|");
    let list = FooterState { focus: Focus::List, split: false, sendable: 0 };
    assert_eq!(action_key_label(list, FooterAction::CycleFocus).1, "doc");
}

#[test]
fn the_focus_key_names_where_the_focus_goes() {
    let to = |focus: Focus, split: bool| {
        action_key_label(FooterState { focus, split, sendable: 0 }, FooterAction::CycleFocus).1
    };
    assert_eq!(to(Focus::DocA, false), "files");
    assert_eq!(to(Focus::DocA, true), "doc");
    assert_eq!(to(Focus::DocB, true), "files");
    assert_eq!(to(Focus::List, true), "doc");
}

#[test]
fn the_footer_packs_left_and_right() {
    let acts = vec![
        (FooterAction::Comment, Tier::Primary),
        (FooterAction::Select, Tier::Normal),
        (FooterAction::Split, Tier::Orientation),
        (FooterAction::Quit, Tier::Orientation),
    ];
    let line = footer_line(STATE, &acts, 40);
    assert_eq!(text_of(&line), " c comment · v select     │ ` split · q");
    assert_eq!(text_of(&line).chars().count(), 39); // one trailing cell stays free
    assert_eq!(line.fill, Some(Tone::Surface0));
    assert_eq!(tier_styles(Tier::Primary).0.fg, Some(Tone::Peach));
    assert!(tier_styles(Tier::Primary).0.bold);
    assert_eq!(tier_styles(Tier::Normal).1.fg, Some(Tone::Subtext0));
    assert_eq!(tier_styles(Tier::Orientation).1.fg, Some(Tone::Overlay0));
}

#[test]
fn the_footer_drops_orientation_first_then_normal_actions() {
    let acts = vec![
        (FooterAction::Comment, Tier::Primary),
        (FooterAction::Select, Tier::Normal),
        (FooterAction::Copy, Tier::Normal),
        (FooterAction::Quit, Tier::Orientation),
    ];
    let said = |w: u16| text_of(&footer_line(STATE, &acts, w));
    assert_eq!(said(36), " c comment · v select · y copy  │ q");
    assert_eq!(said(34), " c comment · v select · y copy│ q");
    assert_eq!(said(33), " c comment · v select · y copy …");
    assert_eq!(said(30), " c comment · v select …");
    assert_eq!(said(15), " c comment …");
    assert_eq!(said(0), " c comment …");
}

#[test]
fn panes_recede_without_focus() {
    assert_eq!(cursor_bg(true), Tone::CursorFocused);
    assert_eq!(cursor_bg(false), Tone::CursorUnfocused);
    assert_eq!(border_tone(true), Tone::Lavender);
    assert_eq!(border_tone(false), Tone::Surface2);
}

fn lines_of(body: DocBody) -> Vec<Line> {
    match body {
        DocBody::Lines(lines) => lines,
        _ => panic!("no lines"),
    }
}

#[test]
fn the_doc_pane_fills_the_selected_blocks() {
    let mut app = for_test_with_path("# H\n\na\n\nb\n", Some("p.md"));
    app.docs[0].cursor_block = 2;
    app.docs[0].sel_anchor = Some(1);
    let lines = lines_of(doc_body(&app, 0, true, 10, 5));
    assert_eq!(texts(&lines), vec!["# H       ", "a         ", "b         "]);
    let fills: Vec<Option<Tone>> = lines.iter().map(|l| l.fill).collect();
    assert_eq!(fills, vec![None, Some(Tone::CursorFocused), Some(Tone::CursorFocused)]);
    let unfocused = lines_of(doc_body(&app, 0, false, 10, 5));
    assert_eq!(unfocused[1].fill, Some(Tone::CursorUnfocused));
}

#[test]
fn the_doc_pane_is_windowed_by_its_scroll() {
    let mut app = for_test_with_path("# H\n\na\n\nb\n\nc\n", Some("p.md"));
    app.docs[0].scroll = 1;
    let lines = lines_of(doc_body(&app, 0, true, 3, 2));
    assert_eq!(texts(&lines), vec!["a  ", "b  "]);
    app.docs[0].scroll = 99;
    assert!(lines_of(doc_body(&app, 0, true, 3, 2)).is_empty());
    assert!(matches!(doc_body(&app, 0, true, 3, 0), DocBody::Blank));
    assert!(matches!(doc_body(&app, 1, true, 3, 2), DocBody::Hint));
    assert_eq!(doc_title(&app.docs[1]), "(no file)");
}

#[test]
fn the_comment_box_stands_under_the_selection() {
    let mut app = for_test_with_path("# H\n\na\n\nb\n\nc\n", Some("p.md"));
    app.focus = Focus::DocA;
    app.docs[0].cursor_block = 1;
    app.mode = Mode::Composing { editing: None };
    match doc_body(&app, 0, true, 12, 6) {
        DocBody::Composing { above, box_h, below } => {
            assert_eq!(texts(&above), vec!["# H         ", "a           "]);
            assert_eq!(box_h, 3);
            assert_eq!(texts(&below), vec!["b           "]);
        }
        _ => panic!("not composing"),
    }
    match doc_body(&app, 0, true, 12, 2) {
        DocBody::Composing { above, box_h, below } => {
            assert_eq!(texts(&above), vec!["a           "]);
            assert_eq!((box_h, below.len()), (1, 0));
        }
        _ => panic!("not composing"),
    }
    match doc_body(&app, 0, true, 12, 1) {
        DocBody::Composing { above, box_h, below } => {
            assert_eq!((above.len(), box_h, below.len()), (0, 1, 0));
        }
        _ => panic!("not composing"),
    }
    app.focus = Focus::DocB;
    assert!(matches!(doc_body(&app, 0, true, 12, 6), DocBody::Lines(_)));
}

#[test]
fn measured_heights_are_painted_lines() {
    let mut app = for_test_with_path("# H\n\na b c d e f\n\nb\n", Some("p.md"));
    app.docs[0].cursor_block = 1;
    app.add_comment(0, "note".into());
    let width = 8u16;
    let heights = row_heights_at(&app, 0, width as usize);
    assert_eq!(heights, vec![1, 1, 4, 1]);
    let painted = lines_of(doc_body(&app, 0, true, width, 99));
    assert_eq!(painted.len(), heights.iter().sum::<usize>());
    assert!(text_of(&painted[4]).contains("note"));
    // A click on any line of the card lands on the row that it stands under.
    let pane = Rect { x: 0, y: 0, width: width + 2, height: 20 };
    let hits: Vec<Option<usize>> = (1..9).map(|row| doc_at(pane, 1, row, &heights, 0)).collect();
    assert_eq!(
        hits,
        vec![Some(0), Some(1), Some(2), Some(2), Some(2), Some(2), Some(3), None]
    );
    let whole = doc_row_heights(&app, AREA, 0);
    assert_eq!(whole, row_heights_at(&app, 0, doc_inner_width(AREA, app.list_pct, false, 0)));
}

#[test]
fn scrolling_follows_the_cursor() {
    assert_eq!(list_scroll(0, 3, 4), 0);
    assert_eq!(list_scroll(0, 4, 4), 1);
    assert_eq!(list_scroll(3, 1, 4), 1);
    assert_eq!(list_scroll(3, 1, 0), 1);
    let heights = vec![1, 4, 1, 1];
    assert_eq!(doc_scroll(&heights, 0, 1, 5), 0);
    assert_eq!(doc_scroll(&heights, 0, 2, 5), 1);
    assert_eq!(doc_scroll(&heights, 0, 3, 2), 2);
    assert_eq!(doc_scroll(&heights, 2, 0, 2), 0);
    assert_eq!(doc_scroll(&heights, 0, 1, 2), 1);
    let doc = render_document("# H\n\na\n\nb\n");
    let rows = markdown::layout_rows(&doc, 10, true);
    assert_eq!(row_of_block(&rows, 2), 2);
    assert_eq!(row_of_block(&rows, 9), 3);
}
