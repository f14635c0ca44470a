//! The mouse and the paging keys.

use herdr_glowr::app::{App, Focus, Mode};
use herdr_glowr::file_list::FileEntry;
use herdr_glowr::geometry::Rect;
use herdr_glowr::keys::{Key, Request};
use herdr_glowr::markdown::render_document;
use herdr_glowr::mouse::{Gesture, Spots, spots};
use herdr_glowr::paging::Page;

const AREA: Rect = Rect { x: 0, y: 0, width: 80, height: 24 };

/// One header row, the document on the left, a file list of 20 columns on the right.
const SPOTS: Spots = Spots {
    header: Rect { x: 0, y: 0, width: 80, height: 1 },
    body: Rect { x: 0, y: 1, width: 80, height: 22 },
    files: Rect { x: 60, y: 1, width: 20, height: 22 },
    doc_a: Rect { x: 0, y: 1, width: 60, height: 22 },
    doc_b: Rect { x: 0, y: 1, width: 60, height: 22 },
};

/// A session with `n` paragraphs open in the first pane and three files in the list.
fn session(n: usize) -> App {
    let source: String = (0..n).map(|i| format!("p{i}\n\n")).collect();
    let mut app = App::default();
    app.files = ["a.md", "b.md", "c.md"]
        .iter()
        .map(|p| FileEntry { path: p.to_string(), mtime: 0, ignored: false })
        .collect();
    app.load(0, Some("a.md".to_string()), render_document(&source));
    app.focus = Focus::DocA;
    app
}

fn press(app: &mut App, col: u16, row: u16) -> Option<Request> {
    app.point(Gesture::Press, &SPOTS, col, row)
}

#[test]
fn clicking_a_file_opens_it() {
    let mut app = session(3);
    assert_eq!(press(&mut app, 65, 3), Some(Request::Open(1)));
    assert_eq!((app.file_cursor, app.focus), (1, Focus::List));
    // A row below the last file is no file.
    assert_eq!(press(&mut app, 65, 10), None);
    assert_eq!(app.file_cursor, 1);
    app.file_scroll = 2;
    assert_eq!(press(&mut app, 65, 2), Some(Request::Open(2)));
}

#[test]
fn clicking_a_block_moves_the_cursor_there() {
    let mut app = session(5);
    app.focus = Focus::List;
    app.docs[0].sel_anchor = Some(0);
    assert_eq!(press(&mut app, 5, 5), None);
    assert_eq!((app.focus, app.docs[0].cursor_block), (Focus::DocA, 3));
    assert_eq!(app.docs[0].sel_anchor, None);
    // Below the document nothing changes.
    assert_eq!(press(&mut app, 5, 20), None);
    assert_eq!(app.docs[0].cursor_block, 3);
}

#[test]
fn dragging_over_blocks_selects_them() {
    let mut app = session(5);
    press(&mut app, 5, 3);
    app.point(Gesture::Drag, &SPOTS, 5, 5);
    assert_eq!(app.selection_range(0), (1, 3));
    // Going back past the start selects the other way.
    app.point(Gesture::Drag, &SPOTS, 5, 2);
    assert_eq!(app.selection_range(0), (0, 1));
    // A drag that leaves the document keeps the selection.
    app.point(Gesture::Drag, &SPOTS, 5, 20);
    assert_eq!(app.selection_range(0), (0, 1));
}

#[test]
fn clicking_the_button_sends() {
    let mut app = session(2);
    // " glowr", spaces, "[ Send (0) ]" and one free column at the right.
    assert_eq!(press(&mut app, 67, 0), Some(Request::Send));
    assert_eq!(press(&mut app, 78, 0), Some(Request::Send));
    assert_eq!(press(&mut app, 66, 0), None);
    assert_eq!(press(&mut app, 79, 0), None);
    assert_eq!(press(&mut app, 67, 1), None);
}

#[test]
fn dragging_the_divider_resizes_the_file_list() {
    let mut app = session(2);
    assert_eq!(press(&mut app, 59, 5), None);
    assert!(app.resizing);
    app.point(Gesture::Drag, &SPOTS, 40, 5);
    assert_eq!(app.list_pct, 50);
    app.point(Gesture::Drag, &SPOTS, 0, 5);
    assert_eq!(app.list_pct, 90);
    app.point(Gesture::Drag, &SPOTS, 79, 5);
    assert_eq!(app.list_pct, 10);
    assert_eq!(app.docs[0].sel_anchor, None);
    // The next press lets go of the divider.
    press(&mut app, 5, 2);
    assert!(!app.resizing);
}

#[test]
fn the_wheel_scrolls_what_it_is_over() {
    let mut app = session(9);
    app.point(Gesture::WheelDown, &SPOTS, 5, 5);
    app.point(Gesture::WheelDown, &SPOTS, 5, 5);
    assert_eq!((app.docs[0].scroll, app.file_scroll), (6, 0));
    app.point(Gesture::WheelDown, &SPOTS, 5, 5);
    assert_eq!(app.docs[0].scroll, 8); // the last row
    app.point(Gesture::WheelUp, &SPOTS, 5, 5);
    assert_eq!(app.docs[0].scroll, 5);
    app.point(Gesture::WheelDown, &SPOTS, 65, 5);
    assert_eq!((app.docs[0].scroll, app.file_scroll), (5, 2));
    app.point(Gesture::WheelUp, &SPOTS, 65, 5);
    assert_eq!(app.file_scroll, 0);
    assert_eq!(app.docs[0].cursor_block, 0);
}

#[test]
fn the_second_pane_takes_clicks_only_while_split() {
    let apart = Spots {
        doc_a: Rect { x: 0, y: 1, width: 30, height: 22 },
        doc_b: Rect { x: 30, y: 1, width: 30, height: 22 },
        ..SPOTS
    };
    let mut app = session(2);
    app.load(1, Some("b.md".to_string()), render_document("x\n\ny\n"));
    app.point(Gesture::Press, &apart, 40, 3);
    assert_eq!((app.focus, app.docs[1].cursor_block), (Focus::DocA, 0));
    app.toggle_split();
    app.point(Gesture::Press, &apart, 40, 3);
    assert_eq!((app.focus, app.docs[1].cursor_block), (Focus::DocB, 1));
    app.point(Gesture::WheelDown, &apart, 40, 3);
    assert_eq!((app.docs[0].scroll, app.docs[1].scroll), (0, 1));
}

#[test]
fn the_mouse_does_nothing_while_a_comment_is_typed() {
    let mut app = session(4);
    app.on_key(Key::Char('c'), AREA);
    app.on_key(Key::Char('x'), AREA);
    assert_eq!(press(&mut app, 65, 3), None);
    assert_eq!(press(&mut app, 5, 5), None);
    assert_eq!((app.input.as_str(), app.docs[0].cursor_block), ("x", 0));
    assert!(matches!(app.mode, Mode::Composing { .. }));
}

#[test]
fn the_mouse_works_on_a_real_layout() {
    let mut app = session(4);
    let at = spots(AREA, app.list_pct, app.split);
    let r = app.on_mouse(Gesture::Press, at.files.x + 3, at.files.y + 3, AREA);
    assert_eq!(r, Some(Request::Open(2)));
    let r = app.on_mouse(Gesture::Press, at.doc_a.x + 3, at.doc_a.y + 2, AREA);
    assert_eq!((r, app.docs[0].cursor_block), (None, 1));
}

#[test]
fn pages_scroll_by_rows_and_the_cursor_follows() {
    let mut app = session(30);
    app.turn_page(Page::Down, 40, 10);
    assert_eq!((app.docs[0].scroll, app.docs[0].cursor_block), (10, 10));
    app.turn_page(Page::HalfDown, 40, 10);
    assert_eq!((app.docs[0].scroll, app.docs[0].cursor_block), (15, 15));
    app.turn_page(Page::HalfUp, 40, 10);
    assert_eq!((app.docs[0].scroll, app.docs[0].cursor_block), (10, 15));
    app.turn_page(Page::Up, 40, 10);
    assert_eq!((app.docs[0].scroll, app.docs[0].cursor_block), (0, 9));
    app.turn_page(Page::Up, 40, 10);
    assert_eq!((app.docs[0].scroll, app.docs[0].cursor_block), (0, 9));
    for _ in 0..4 {
        app.turn_page(Page::Down, 40, 10);
    }
    assert_eq!((app.docs[0].scroll, app.docs[0].cursor_block), (29, 29));
    // The file list takes no pages.
    app.focus = Focus::List;
    app.turn_page(Page::Up, 40, 10);
    assert_eq!(app.docs[0].scroll, 29);
}

#[test]
fn a_page_fits_the_terminal() {
    let mut app = session(60);
    let at = spots(AREA, app.list_pct, app.split);
    app.on_page(Page::Down, AREA);
    assert_eq!(app.docs[0].scroll, at.doc_a.height as usize - 2);
}
