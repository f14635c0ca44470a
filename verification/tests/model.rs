use herdr_glowr::comments::{
    Author, Status, StoredComment, date_of, id_of, id_with, iso_of, new_id, now_iso, parts_of,
};
use herdr_glowr::model::{Comment, CommentStore};
use std::time::{Duration, SystemTime};

fn comment(file: &str, start: u32, end: u32, text: &str) -> Comment {
    Comment { file: file.into(), start, end, lines: "x".into(), text: text.into() }
}

fn stored(id: &str, author: Author, status: Status, c: Comment) -> StoredComment {
    StoredComment {
        id: id.into(),
        author,
        status,
        created_at: "2024-01-01T00:00:00Z".into(),
        comment: c,
    }
}

/// The comments of a store, one by one.
fn all(s: &CommentStore) -> Vec<StoredComment> {
    s.iter().to_vec()
}

#[test]
fn location_formats_range_and_single() {
    let mut c = comment("a.rs", 40, 52, "x");
    assert_eq!(c.location(), "a.rs:40-52");
    c.end = 40;
    assert_eq!(c.location(), "a.rs:40");
}

#[test]
fn location_formats_the_widest_numbers() {
    let c = comment("a.md", 0, u32::MAX, "x");
    assert_eq!(c.location(), "a.md:0-4294967295");
}

#[test]
fn add_get_edit() {
    let mut s = CommentStore::new();
    let i = s.add(comment("a.rs", 1, 1, "first"));
    assert_eq!(s.len(), 1);
    assert_eq!(s.get(i).unwrap().comment.text, "first");
    assert!(s.edit(i, "second".into()));
    assert_eq!(s.get(i).unwrap().comment.text, "second");
    assert!(!s.edit(99, "nope".into()));
}

#[test]
fn add_wraps_fresh_lifecycle_metadata() {
    let mut s = CommentStore::new();
    let i = s.add(comment("a.rs", 1, 1, "first"));
    let sc = s.get(i).unwrap();
    assert!(sc.id.starts_with("c-"), "a fresh id: {}", sc.id);
    assert_eq!(sc.author, Author::User);
    assert_eq!(sc.status, Status::Open);
}

#[test]
fn set_status_flips_in_place_and_reports_out_of_range() {
    let mut s = CommentStore::new();
    let i = s.add(comment("a.rs", 1, 1, "one"));
    assert!(s.set_status(i, Status::Resolved));
    assert_eq!(s.get(i).unwrap().status, Status::Resolved);
    assert!(!s.set_status(99, Status::Open));
}

#[test]
fn take_removes_one_and_replace_rebuilds_the_set() {
    let mut s = CommentStore::new();
    s.add(comment("a.rs", 1, 1, "one"));
    s.add(comment("b.rs", 2, 2, "two"));
    let taken = s.take(0).unwrap();
    assert_eq!(taken.comment.text, "one");
    assert_eq!(s.len(), 1);
    assert!(s.take(5).is_none());
    s.replace(Vec::new());
    assert!(s.is_empty());
}

#[test]
fn open_user_comments_filters_by_status_and_author() {
    let mut s = CommentStore::new();
    let open_user = s.add(comment("a.rs", 1, 1, "one"));
    let resolved_user = s.add(comment("a.rs", 2, 2, "two"));
    s.set_status(resolved_user, Status::Resolved);
    let mut items = all(&s);
    items.push(stored("c-1-aaaa", Author::Agent, Status::Open, comment("a.rs", 3, 3, "agent")));
    s.replace(items);
    assert_eq!(s.open_user_comments().len(), 1);
    assert_eq!(s.open_user_comments()[0].comment.text, "one");
    assert_eq!(s.sendable(), 1);
    let _ = open_user;
}

#[test]
fn index_of_finds_the_first_with_an_id() {
    let mut s = CommentStore::new();
    s.replace(vec![
        stored("c-1-aaaa", Author::User, Status::Open, comment("a.md", 1, 1, "one")),
        stored("c-2-bbbb", Author::Agent, Status::Open, comment("a.md", 2, 2, "two")),
        stored("c-2-bbbb", Author::User, Status::Open, comment("a.md", 3, 3, "three")),
    ]);
    assert_eq!(s.index_of("c-1-aaaa"), Some(0));
    assert_eq!(s.index_of("c-2-bbbb"), Some(1));
    assert_eq!(s.index_of("c-3-cccc"), None);
    assert_eq!(s.index_of(""), None);
}

#[test]
fn only_the_edited_comment_changes() {
    let mut s = CommentStore::new();
    s.add(comment("a.md", 1, 1, "one"));
    s.add(comment("a.md", 2, 2, "two"));
    let before = all(&s);
    assert!(s.edit(1, "new".into()));
    assert!(s.set_status(0, Status::Resolved));
    let after = all(&s);
    assert_eq!(after[0].id, before[0].id);
    assert_eq!(after[0].comment, before[0].comment);
    assert_eq!(after[1].id, before[1].id);
    assert_eq!(after[1].status, Status::Open);
    assert_eq!(after[1].comment.text, "new");
    assert_eq!(after[1].comment.lines, before[1].comment.lines);
}

#[test]
fn reopening_undoes_resolving() {
    let mut s = CommentStore::new();
    s.add(comment("a.md", 1, 1, "one"));
    let before = all(&s);
    s.set_status(0, Status::Resolved);
    assert_eq!(s.sendable(), 0);
    s.set_status(0, Status::Open);
    assert_eq!(all(&s), before);
    assert_eq!(s.sendable(), 1);
}

#[test]
fn a_new_comment_is_the_last_to_be_sent() {
    let mut s = CommentStore::new();
    s.add(comment("a.md", 1, 1, "one"));
    s.add(comment("a.md", 2, 2, "two"));
    let texts: Vec<&str> =
        s.open_user_comments().iter().map(|c| c.comment.text.as_str()).collect();
    assert_eq!(texts, vec!["one", "two"]);
}

#[test]
fn a_default_store_is_empty() {
    let s = CommentStore::default();
    assert!(s.is_empty());
    assert_eq!(s.len(), 0);
    assert!(s.get(0).is_none());
}

#[test]
fn ids_hold_the_time_and_four_hex_digits() {
    assert_eq!(id_of(1752264012345, 0x7f3a), "c-1752264012345-7f3a");
    assert_eq!(id_of(0, 0), "c-0-0000");
    assert_eq!(id_of(7, 0xabcd), "c-7-abcd");
    let id = new_id();
    let parts: Vec<&str> = id.split('-').collect();
    assert_eq!(parts.len(), 3);
    assert_eq!(parts[0], "c");
    assert!(parts[1].parse::<u128>().unwrap() > 1_600_000_000_000);
    assert_eq!(parts[2].len(), 4);
}

#[test]
fn times_are_iso_8601_in_utc() {
    assert_eq!(iso_of(0), "1970-01-01T00:00:00Z");
    assert_eq!(iso_of(1_709_164_799), "2024-02-28T23:59:59Z");
    assert_eq!(iso_of(1_709_164_800), "2024-02-29T00:00:00Z");
    assert_eq!(iso_of(1_786_646_412), "2026-08-13T18:40:12Z");
    assert_eq!(iso_of(951_782_400), "2000-02-29T00:00:00Z");
    assert_eq!(iso_of(4_107_542_400), "2100-03-01T00:00:00Z");
    let now = now_iso();
    assert_eq!(now.len(), 20);
    assert!(now.ends_with('Z'));
    assert!(now.as_str() > "2024-01-01T00:00:00Z");
}

#[test]
fn days_count_from_1970() {
    let d = date_of(0);
    assert_eq!((d.year, d.month, d.day), (1970, 1, 1));
    let d = date_of(364);
    assert_eq!((d.year, d.month, d.day), (1970, 12, 31));
    let d = date_of(789);
    assert_eq!((d.year, d.month, d.day), (1972, 2, 29));
    assert_ne!(date_of(58), date_of(59));
}

#[test]
fn a_time_is_its_distance_from_the_epoch() {
    let later = SystemTime::UNIX_EPOCH + Duration::new(1_752_264_012, 345_678_901);
    assert_eq!(parts_of(later), (1_752_264_012, 345_678_901));
    assert_eq!(parts_of(SystemTime::UNIX_EPOCH), (0, 0));
    assert_eq!(parts_of(SystemTime::UNIX_EPOCH - Duration::from_secs(5)), (0, 0));
}

#[test]
fn a_new_id_is_the_first_that_no_comment_has() {
    assert_eq!(id_with(0x1_ffff), "c-1-ffff");
    let mut s = CommentStore::new();
    assert_eq!(s.free_id(0x1_fffe), "c-1-fffe");
    s.replace(vec![
        stored("c-1-ffff", Author::User, Status::Open, comment("a.md", 1, 1, "one")),
        stored("c-1-fffe", Author::Agent, Status::Open, comment("a.md", 2, 2, "two")),
        stored("c-2-0001", Author::User, Status::Open, comment("a.md", 3, 3, "three")),
    ]);
    assert_eq!(s.free_id(0x1_fffe), "c-2-0000");
    assert_eq!(s.free_id(0x1_fffd), "c-1-fffd");
    for n in 0..200 {
        let at = s.add(comment("a.md", n, n, "more"));
        let id = s.get(at).unwrap().id.clone();
        assert_eq!(s.index_of(&id), Some(at));
    }
}
