use herdr_glowr::file_list::{
    FileEntry, Listed, is_markdown, list_files, ls_files_args, markdown_files, markdown_paths,
};

fn listed(path: &str, mtime: i128) -> Listed {
    Listed { path: path.to_string(), mtime: Some(mtime) }
}

fn paths(files: &[FileEntry]) -> Vec<&str> {
    files.iter().map(|f| f.path.as_str()).collect()
}

#[test]
fn lists_markdown_newest_first_and_skips_non_markdown() {
    let present = vec![listed("code.rs", 1200), listed("new.md", 1100), listed("old.md", 0)];
    let files = markdown_files(&present, &Vec::new(), false);
    assert_eq!(paths(&files), vec!["new.md", "old.md"]); // newest first, no code.rs
}

#[test]
fn ties_are_broken_by_path() {
    let present = vec![listed("b.md", 5), listed("a/z.md", 5), listed("a.md", 5), listed("c.md", 6)];
    let files = markdown_files(&present, &Vec::new(), false);
    assert_eq!(paths(&files), vec!["c.md", "a.md", "a/z.md", "b.md"]);
}

#[test]
fn ignored_files_show_only_on_request_and_are_marked() {
    let present = vec![listed("a.md", 1)];
    let ignored = vec![listed("node_modules/x.md", 9)];
    let hidden = markdown_files(&present, &ignored, false);
    assert_eq!(paths(&hidden), vec!["a.md"]);
    let all = markdown_files(&present, &ignored, true);
    assert_eq!(paths(&all), vec!["node_modules/x.md", "a.md"]);
    assert!(all[0].ignored);
    assert!(!all[1].ignored);
}

#[test]
fn a_file_without_a_readable_time_is_left_out() {
    let present = vec![Listed { path: "gone.md".to_string(), mtime: None }, listed("here.md", 1)];
    assert_eq!(paths(&markdown_files(&present, &Vec::new(), false)), vec!["here.md"]);
}

#[test]
fn times_before_the_epoch_sort_too() {
    let present = vec![listed("old.md", -7), listed("older.md", -8)];
    assert_eq!(paths(&markdown_files(&present, &Vec::new(), false)), vec!["old.md", "older.md"]);
}

#[test]
fn backslashes_become_slashes() {
    let mut out = Vec::new();
    list_files(&vec![listed("docs\\plan.md", 3)], true, &mut out);
    assert_eq!(
        out,
        vec![FileEntry { path: "docs/plan.md".to_string(), mtime: 3, ignored: true }]
    );
}

#[test]
fn extensions_are_matched_without_case() {
    for path in ["a.md", "A.MD", "x/y.Markdown", "a.b.md", "..md", "x.d/y.md", "a.md/"] {
        assert!(is_markdown(path), "{path}");
    }
    for path in [
        "", "md", ".md", "x/.md", "a.mdx", "a.md/b", "a.", "..", "a.markdow", "x.md/..", "/", "a.txt",
    ] {
        assert!(!is_markdown(path), "{path}");
    }
}

#[test]
fn extension_rule_is_that_of_paths() {
    for path in ["a.md", "..md", "a.md/", "a.md/.", "x/.md", "..", "a..md", "a.md/..", ".a.md", "/.md"] {
        let by_path = std::path::Path::new(path)
            .extension()
            .and_then(|e| e.to_str())
            .is_some_and(|e| e.eq_ignore_ascii_case("md"));
        assert_eq!(is_markdown(path), by_path, "{path}");
    }
}

#[test]
fn markdown_paths_are_picked_from_the_listing() {
    assert_eq!(
        markdown_paths("a.md\0src/main.rs\0docs/Plan.MARKDOWN\0\0b.md"),
        vec!["a.md", "docs/Plan.MARKDOWN", "b.md"]
    );
    assert!(markdown_paths("").is_empty());
}

#[test]
fn no_name_keeps_a_file_out_of_the_listing() {
    assert_eq!(
        markdown_paths("\u{e9}.md\0a \"b\".md\0line\nbreak.md\0tab\t.md\0"),
        vec!["\u{e9}.md", "a \"b\".md", "line\nbreak.md", "tab\t.md"]
    );
}

#[test]
fn showing_ignored_files_only_adds() {
    let present = vec![listed("a.md", 1), listed("b.md", 3), listed("c.md", 3)];
    let ignored = vec![listed("x.md", 2), listed("aa.md", 3), listed("y.txt", 9)];
    let hidden = markdown_files(&present, &ignored, false);
    let shown = markdown_files(&present, &ignored, true);
    let kept: Vec<FileEntry> = shown.iter().filter(|f| !f.ignored).cloned().collect();
    assert_eq!(kept, hidden);
    assert_eq!(paths(&shown), vec!["aa.md", "b.md", "c.md", "x.md", "a.md"]);
}

#[test]
fn listing_arguments() {
    assert_eq!(ls_files_args(false), vec!["-z", "--cached", "--others", "--exclude-standard"]);
    assert_eq!(ls_files_args(true), vec!["-z", "--others", "--ignored", "--exclude-standard"]);
}
