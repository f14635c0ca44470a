//! Keys driven straight through `App::on_key`, without a terminal.

use herdr_glowr::app::FooterAction as A;
use herdr_glowr::app::{App, Focus, Mode, Tier};
use herdr_glowr::comments::{Author, Status, StoredComment};
use herdr_glowr::file_list::FileEntry;
use herdr_glowr::geometry::Rect;
use herdr_glowr::keys::{Key, Request};
use herdr_glowr::markdown::render_document;
use herdr_glowr::model::Comment;

fn key(c: char) -> Key {
    Key::Char(c)
}

const AREA: Rect = Rect { x: 0, y: 0, width: 80, height: 24 };

/// A session with one document open in the first pane.
fn for_test_with_path(source: &str, path: Option<&str>) -> App {
    let mut app = App::default();
    app.load(0, path.map(str::to_string), render_document(source));
    app
}

fn for_test(source: &str) -> App {
    for_test_with_path(source, None)
}

fn focus_doc_for_test(app: &mut App, pane: usize) {
    app.focus = if pane == 0 { Focus::DocA } else { Focus::DocB };
}

fn press_all(app: &mut App, keys: &str) {
    for c in keys.chars() {
        app.on_key(key(c), AREA);
    }
}

#[test]
fn v_then_j_then_c_selects_and_opens_composer() {
    let mut app = for_test_with_path("# H\n\na\n\nb\n", Some("p.md"));
    focus_doc_for_test(&mut app, 0);
    app.docs[0].cursor_block = 1;
    app.on_key(key('v'), AREA);
    app.on_key(key('j'), AREA); // extend to block 2
    app.on_key(key('c'), AREA);
    assert!(matches!(app.mode, Mode::Composing { .. }));
    assert_eq!(app.selection_range(0), (1, 2));
}

#[test]
fn backtick_toggles_split() {
    let mut app = for_test_with_path("# H\n", Some("p.md"));
    assert!(!app.split);
    app.on_key(key('`'), AREA);
    assert!(app.split);
    app.on_key(key('`'), AREA);
    assert!(!app.split);
}

#[test]
fn q_quits() {
    let mut app = for_test_with_path("# H\n", Some("p.md"));
    app.on_key(key('q'), AREA);
    assert!(app.should_quit);
}

#[test]
fn anchor_spans_selected_blocks_verbatim() {
    let src = "# Title\n\nfirst para\n\nsecond para\n";
    let mut app = for_test(src);
    // blocks: heading(1), para(3), para(5)
    app.docs[0].cursor_block = 1; // "first para"
    app.start_selection(0);
    app.extend_selection(0, 1); // extend to "second para" (block 2)
    let (start, end, lines) = app.anchor(0).unwrap();
    assert_eq!((start, end), (3, 5));
    assert_eq!(lines, "first para\n\nsecond para"); // verbatim source lines 3..=5
}

#[test]
fn add_comment_persists_and_appears_in_store_view() {
    let mut app = for_test("# H\n\npara\n");
    app.docs[0].cursor_block = 1;
    app.add_comment(0, "note".into());
    assert_eq!(app.comments.open_user_comments().len(), 1);
    let c = &app.comments.get(0).unwrap().comment;
    assert_eq!((c.start, c.end, c.lines.as_str(), c.text.as_str()), (3, 3, "para", "note"));
}

#[test]
fn a_selection_backwards_reads_the_same() {
    let mut app = for_test("# H\n\na\n\nb\n");
    app.docs[0].cursor_block = 2;
    app.extend_selection(0, -1);
    assert_eq!(app.selection_range(0), (1, 2));
    assert_eq!(app.anchor(0).unwrap().2, "a\n\nb");
    app.clear_selection(0);
    assert_eq!(app.selection_range(0), (1, 1));
}

#[test]
fn the_cursor_stays_in_the_document() {
    let mut app = for_test("# H\n\na\n");
    app.move_cursor(0, 9);
    assert_eq!(app.docs[0].cursor_block, 1);
    app.move_cursor(0, -9);
    assert_eq!(app.docs[0].cursor_block, 0);
    let mut none = App::default();
    none.move_cursor(1, 1);
    assert_eq!(none.docs[1].cursor_block, 0);
    assert!(none.anchor(0).is_none());
    assert!(!none.add_comment(0, "x".into()));
    assert!(none.comments.is_empty());
}

#[test]
fn a_cursor_past_the_end_has_no_anchor_and_a_long_selection_is_cut() {
    let mut app = for_test("# H\n\na\n");
    app.docs[0].cursor_block = 7;
    assert!(app.anchor(0).is_none());
    app.docs[0].sel_anchor = Some(1);
    assert_eq!(app.anchor(0).unwrap().2, "a");
}

#[test]
fn a_code_line_can_be_pinned() {
    let mut app = for_test("```\nlet x = 1;\nlet y = 2;\n```\n");
    app.docs[0].cursor_block = 1;
    assert_eq!(app.anchor(0).unwrap(), (3, 3, "let y = 2;".to_string()));
}

#[test]
fn tab_cycles_the_focus() {
    let mut app = for_test("# H\n");
    let mut seen = Vec::new();
    for _ in 0..3 {
        app.on_key(Key::Tab, AREA);
        seen.push(app.focus);
    }
    assert_eq!(seen, vec![Focus::DocA, Focus::List, Focus::DocA]);
    app.focus = Focus::List;
    app.toggle_split();
    seen.clear();
    for _ in 0..3 {
        app.cycle_focus();
        seen.push(app.focus);
    }
    assert_eq!(seen, vec![Focus::DocA, Focus::DocB, Focus::List]);
}

#[test]
fn collapsing_the_split_moves_the_focus_off_the_second_pane() {
    let mut app = for_test("# H\n");
    app.toggle_split();
    app.focus = Focus::DocB;
    assert_eq!(app.focus_pane(), 1);
    app.toggle_split();
    assert_eq!(app.focus, Focus::DocA);
    assert_eq!(app.focus_pane(), 0);
}

#[test]
fn a_typed_comment_is_saved_and_shown() {
    let mut app = for_test_with_path("# H\n\npara\n", Some("p.md"));
    focus_doc_for_test(&mut app, 0);
    press_all(&mut app, "jcno");
    app.on_key(Key::Newline, AREA);
    press_all(&mut app, "q");
    assert_eq!(app.input, "no\nq");
    assert_eq!(app.on_key(Key::Enter, AREA), None);
    assert!(matches!(app.mode, Mode::Browse));
    assert_eq!(app.input, "");
    let c = &app.comments.get(0).unwrap().comment;
    assert_eq!((c.file.as_str(), c.start, c.text.as_str()), ("p.md", 3, "no\nq"));
    assert_eq!(app.comment_cards(0), vec![vec![], vec![0]]);
    assert_eq!(app.comment_at_cursor(), Some(0));
    assert!(!app.should_quit);
}

#[test]
fn escape_cancels_the_comment_box() {
    let mut app = for_test_with_path("# H\n", Some("p.md"));
    focus_doc_for_test(&mut app, 0);
    press_all(&mut app, "cabc");
    app.on_key(Key::Esc, AREA);
    assert!(matches!(app.mode, Mode::Browse));
    assert!(app.comments.is_empty());
    assert_eq!((app.input.as_str(), app.caret), ("", 0));
}

#[test]
fn the_caret_moves_and_deletes() {
    let mut app = for_test_with_path("# H\n", Some("p.md"));
    focus_doc_for_test(&mut app, 0);
    press_all(&mut app, "cab");
    app.on_key(Key::Newline, AREA);
    press_all(&mut app, "cd");
    for k in [Key::Home, Key::Left, Key::Left, Key::Backspace] {
        app.on_key(k, AREA);
    }
    assert_eq!((app.input.as_str(), app.caret), ("b\ncd", 0));
    app.on_key(Key::Backspace, AREA);
    app.on_key(Key::Left, AREA);
    assert_eq!(app.caret, 0);
    app.on_key(Key::Down, AREA);
    assert_eq!(app.caret, 2);
    app.on_key(Key::End, AREA);
    app.on_key(Key::Right, AREA);
    assert_eq!(app.caret, 4);
    app.on_key(Key::Up, AREA);
    assert_eq!(app.caret, 1);
    press_all(&mut app, "x");
    app.on_key(Key::Backspace, AREA);
    assert_eq!((app.input.as_str(), app.caret), ("b\ncd", 1));
}

fn stored(id: &str, author: Author, file: &str, start: u32, end: u32, text: &str) -> StoredComment {
    StoredComment {
        id: id.into(),
        author,
        status: Status::Open,
        created_at: "2024-01-01T00:00:00Z".into(),
        comment: Comment {
            file: file.into(),
            start,
            end,
            lines: "x".into(),
            text: text.into(),
        },
    }
}

fn with_comments() -> App {
    let mut app = for_test_with_path("# H\n\na\n\nb\n\nc\n", Some("p.md"));
    app.comments.replace(vec![
        stored("c-1-aaaa", Author::User, "p.md", 3, 5, "spans a and b"),
        stored("c-2-bbbb", Author::Agent, "p.md", 1, 1, "on the heading"),
        stored("c-3-cccc", Author::User, "other.md", 1, 1, "elsewhere"),
        stored("c-4-dddd", Author::User, "p.md", 99, 99, "nowhere"),
    ]);
    focus_doc_for_test(&mut app, 0);
    app
}

#[test]
fn a_card_stands_under_the_last_block_it_covers() {
    let app = with_comments();
    assert_eq!(app.comment_cards(0), vec![vec![1], vec![], vec![0], vec![]]);
    assert_eq!(app.comment_cards(1), Vec::<Vec<usize>>::new());
}

#[test]
fn n_and_capital_n_jump_between_comments() {
    let mut app = with_comments();
    press_all(&mut app, "n");
    assert_eq!(app.docs[0].cursor_block, 2);
    press_all(&mut app, "n");
    assert_eq!(app.docs[0].cursor_block, 2);
    press_all(&mut app, "N");
    assert_eq!(app.docs[0].cursor_block, 0);
    press_all(&mut app, "N");
    assert_eq!(app.docs[0].cursor_block, 0);
}

#[test]
fn e_edits_the_comment_under_the_cursor() {
    let mut app = with_comments();
    press_all(&mut app, "ne");
    assert_eq!(app.mode, Mode::Composing { editing: Some("c-1-aaaa".to_string()) });
    assert_eq!((app.input.as_str(), app.caret), ("spans a and b", 13));
    press_all(&mut app, "!");
    app.on_key(Key::Enter, AREA);
    assert_eq!(app.comments.get(0).unwrap().comment.text, "spans a and b!");
    assert_eq!(app.comments.get(0).unwrap().comment.start, 3);
    assert_eq!(app.comments.len(), 4);
}

#[test]
fn an_edit_follows_its_comment_through_a_merge() {
    let mut app = with_comments();
    press_all(&mut app, "ne?");
    app.comments.replace(vec![
        stored("c-0-ffff", Author::Agent, "p.md", 1, 1, "new first"),
        stored("c-1-aaaa", Author::User, "p.md", 3, 5, "spans a and b"),
    ]);
    app.on_key(Key::Enter, AREA);
    assert_eq!(app.comments.get(0).unwrap().comment.text, "new first");
    assert_eq!(app.comments.get(1).unwrap().comment.text, "spans a and b?");

    let mut gone = with_comments();
    press_all(&mut gone, "ne?");
    gone.comments.replace(Vec::new());
    gone.on_key(Key::Enter, AREA);
    assert_eq!(gone.comments.len(), 1);
    assert_eq!(gone.comments.get(0).unwrap().comment.text, "spans a and b?");
    assert!(matches!(gone.mode, Mode::Browse));
}

#[test]
fn typed_text_stays_in_the_box_where_it_has_no_place() {
    let mut app = for_test("# A\n\ntext\n");
    focus_doc_for_test(&mut app, 0);
    press_all(&mut app, "cnote");
    app.load(0, None, render_document(""));
    app.on_key(Key::Enter, AREA);
    assert_eq!(app.mode, Mode::Composing { editing: None });
    assert_eq!(app.input, "note");
    assert!(app.comments.is_empty());
    app.load(0, None, render_document("back\n"));
    app.on_key(Key::Enter, AREA);
    assert_eq!(app.comments.get(0).unwrap().comment.text, "note");
    assert!(matches!(app.mode, Mode::Browse));
}

#[test]
fn d_deletes_the_comment_under_the_cursor_and_nothing_else() {
    let mut app = with_comments();
    press_all(&mut app, "jd");
    assert_eq!(app.comments.len(), 4);
    press_all(&mut app, "jd");
    assert_eq!(app.comments.len(), 3);
    assert_eq!(app.comments.index_of("c-1-aaaa"), None);
    assert_eq!(app.comments.index_of("c-2-bbbb"), Some(0));
}

#[test]
fn the_comments_list_resolves_deletes_and_closes() {
    let mut app = with_comments();
    press_all(&mut app, "l");
    assert_eq!(app.mode, Mode::CommentsList { cursor: 0 });
    press_all(&mut app, "jjjjj");
    assert_eq!(app.mode, Mode::CommentsList { cursor: 3 });
    press_all(&mut app, "x");
    assert_eq!(app.comments.get(3).unwrap().status, Status::Resolved);
    press_all(&mut app, "x");
    assert_eq!(app.comments.get(3).unwrap().status, Status::Open);
    press_all(&mut app, "d");
    assert_eq!(app.comments.len(), 3);
    assert_eq!(app.mode, Mode::CommentsList { cursor: 2 });
    press_all(&mut app, "kd");
    assert_eq!(app.mode, Mode::CommentsList { cursor: 1 });
    assert_eq!(app.comments.index_of("c-3-cccc"), Some(1));
    press_all(&mut app, "q");
    assert!(matches!(app.mode, Mode::Browse));
    assert!(!app.should_quit);
    press_all(&mut app, "le");
    assert!(matches!(app.mode, Mode::Composing { editing: Some(_) }));
}

#[test]
fn an_empty_comments_list_ignores_its_keys() {
    let mut app = for_test("# H\n");
    press_all(&mut app, "ledxjk");
    assert_eq!(app.mode, Mode::CommentsList { cursor: 0 });
    app.on_key(Key::Esc, AREA);
    assert_eq!(app.mode, Mode::Browse);
}

#[test]
fn sending_and_copying_ask_and_change_nothing() {
    let mut app = with_comments();
    let before: Vec<StoredComment> = app.comments.iter().to_vec();
    assert_eq!(app.on_key(key('s'), AREA), Some(Request::Send));
    assert_eq!(app.on_key(key('y'), AREA), Some(Request::Copy));
    press_all(&mut app, "l");
    assert_eq!(app.on_key(key('s'), AREA), Some(Request::Send));
    assert_eq!(app.on_key(key('y'), AREA), Some(Request::Copy));
    assert_eq!(app.comments.iter().to_vec(), before);
}

#[test]
fn the_file_list_opens_files_as_it_goes() {
    let mut app = App::default();
    assert_eq!(app.on_key(key('j'), AREA), None);
    app.files = vec![
        FileEntry { path: "a.md".into(), mtime: 2, ignored: false },
        FileEntry { path: "b.md".into(), mtime: 1, ignored: false },
    ];
    assert_eq!(app.on_key(key('j'), AREA), Some(Request::Open(1)));
    assert_eq!(app.on_key(Key::Down, AREA), Some(Request::Open(1)));
    assert_eq!(app.on_key(key('k'), AREA), Some(Request::Open(0)));
    assert_eq!(app.on_key(Key::Up, AREA), Some(Request::Open(0)));
    assert_eq!(app.on_key(key('v'), AREA), None);
    assert_eq!(app.docs[0].sel_anchor, None);
}

#[test]
fn brackets_resize_and_w_toggles_wrap() {
    let mut app = App::default();
    let start = app.list_pct;
    press_all(&mut app, "]");
    assert_eq!(app.list_pct, start + 5);
    press_all(&mut app, "[[");
    assert_eq!(app.list_pct, start - 5);
    press_all(&mut app, &"]".repeat(40));
    assert_eq!(app.list_pct, 90);
    press_all(&mut app, &"[".repeat(40));
    assert_eq!(app.list_pct, 10);
    assert!(app.wrap);
    press_all(&mut app, "w");
    assert!(!app.wrap);
}

#[test]
fn pending_location_names_the_selection() {
    let mut app = with_comments();
    assert_eq!(app.pending_location(), Some("p.md:1".to_string()));
    press_all(&mut app, "jvj");
    assert_eq!(app.pending_location(), Some("p.md:3-5".to_string()));
    assert_eq!(for_test("# H\n").pending_location(), None);
}

#[test]
fn footer_actions_follow_the_context() {
    let mut app = with_comments();
    let names = |app: &App| -> Vec<A> {
        app.footer_actions().into_iter().map(|(a, _)| a).collect()
    };
    assert_eq!(
        names(&app),
        vec![
            A::Comment,
            A::Select,
            A::EditComment,
            A::DeleteComment,
            A::JumpComment,
            A::Send,
            A::Copy,
            A::List,
            A::CycleFocus,
            A::Split,
            A::Quit
        ]
    );
    press_all(&mut app, "jv");
    assert_eq!(names(&app)[..2], [A::Comment, A::ClearSelection]);
    press_all(&mut app, "c");
    assert_eq!(names(&app), vec![A::Save, A::Newline, A::Cancel]);
    assert_eq!(app.footer_actions()[0].1, Tier::Primary);
    app.on_key(Key::Esc, AREA);
    press_all(&mut app, "l");
    assert_eq!(
        names(&app),
        vec![
            A::EditComment,
            A::DeleteComment,
            A::ResolveComment,
            A::Send,
            A::Copy,
            A::CloseList
        ]
    );
    assert_eq!(names(&App::default()), vec![A::CycleFocus, A::Split, A::Quit]);
}

#[test]
fn the_footer_leaves_out_keys_that_do_nothing() {
    let names = |app: &App| -> Vec<A> {
        app.footer_actions().into_iter().map(|(a, _)| a).collect()
    };
    let mut app = with_comments();
    // With the file list focused, no key of a doc pane works.
    app.focus = Focus::List;
    assert_eq!(
        names(&app),
        vec![A::Send, A::Copy, A::List, A::CycleFocus, A::Split, A::Quit]
    );
    // A document without blocks has nothing to comment on or to select.
    let mut empty = for_test_with_path("", Some("p.md"));
    focus_doc_for_test(&mut empty, 0);
    assert_eq!(names(&empty), vec![A::CycleFocus, A::Split, A::Quit]);
    // Without comments there is nothing to jump to, to send or to list.
    let mut fresh = for_test_with_path("# H\n", Some("p.md"));
    focus_doc_for_test(&mut fresh, 0);
    assert_eq!(
        names(&fresh),
        vec![A::Comment, A::Select, A::CycleFocus, A::Split, A::Quit]
    );
}

/// A session with `text` in its comment box.
fn composing(text: &str) -> App {
    let mut app = for_test_with_path("# H\n", Some("p.md"));
    focus_doc_for_test(&mut app, 0);
    press_all(&mut app, "c");
    for c in text.chars() {
        app.on_key(if c == '\n' { Key::Newline } else { key(c) }, AREA);
    }
    assert_eq!(app.input, text);
    app
}

#[test]
fn word_keys_jump_to_the_edges_of_words() {
    let mut app = composing("one  two ");
    let mut at = |k: Key| {
        app.on_key(k, AREA);
        app.caret
    };
    assert_eq!(at(Key::WordRight), 9);
    assert_eq!(at(Key::WordLeft), 5);
    assert_eq!(at(Key::WordLeft), 0);
    assert_eq!(at(Key::WordLeft), 0);
    assert_eq!(at(Key::WordRight), 3);
    assert_eq!(at(Key::WordRight), 8);
    assert_eq!(at(Key::WordRight), 9);
}

#[test]
fn deleting_by_word_and_to_the_edges_of_the_line() {
    let mut app = composing("one two  ");
    app.on_key(Key::DeleteWord, AREA);
    assert_eq!((app.input.as_str(), app.caret), ("one ", 4));
    app.on_key(Key::DeleteWord, AREA);
    assert_eq!((app.input.as_str(), app.caret), ("", 0));
    app.on_key(Key::DeleteWord, AREA);
    assert_eq!((app.input.as_str(), app.caret), ("", 0));

    let mut app = composing("ab\ncdef\ngh");
    for _ in 0..5 {
        app.on_key(Key::Left, AREA);
    }
    assert_eq!(app.caret, 5);
    app.on_key(Key::DeleteToStart, AREA);
    assert_eq!((app.input.as_str(), app.caret), ("ab\nef\ngh", 3));
    app.on_key(Key::DeleteToEnd, AREA);
    assert_eq!((app.input.as_str(), app.caret), ("ab\n\ngh", 3));
    // At the edges of the line there is nothing left to delete.
    app.on_key(Key::DeleteToStart, AREA);
    app.on_key(Key::DeleteToEnd, AREA);
    assert_eq!((app.input.as_str(), app.caret), ("ab\n\ngh", 3));
}
