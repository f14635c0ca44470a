use herdr_glowr::delivery::{AgentAction, AgentEvent, AgentState, agent_step, candidates};
use herdr_glowr::export::{
    Agent, Clipboard, ExportTarget, clipboard_tools, format_all, format_comment, normalize_text,
    payload, select_tool,
};
use herdr_glowr::comments::{Author, Status};
use herdr_glowr::model::{Comment, CommentStore};
use herdr_glowr::order::text_less;

#[test]
fn clipboard_tool_selection_prefers_list_order_and_can_be_empty() {
    let tools = clipboard_tools();
    // None present -> no tool (the caller surfaces the "install one" error).
    assert!(select_tool(&tools, |_| false).is_none());
    // Only an X11 tool present -> it's chosen, with its selection args.
    assert_eq!(
        select_tool(&tools, |c| c == "xclip").map(|t| (t.cmd, &t.args[..])),
        Some(("xclip", &["-selection", "clipboard"][..]))
    );
    // When several are present, earlier in the list wins (pbcopy over xclip).
    assert_eq!(
        select_tool(&tools, |c| c == "pbcopy" || c == "xclip").map(|t| t.cmd),
        Some("pbcopy")
    );
}

#[test]
fn clipboard_tools_are_listed_in_order() {
    let tools = clipboard_tools();
    let names: Vec<&str> = tools.iter().map(|t| t.cmd).collect();
    assert_eq!(names, vec!["pbcopy", "wl-copy", "xclip", "xsel", "clip"]);
    assert_eq!(tools[3].args, vec!["--clipboard", "--input"]);
    assert!(tools[0].args.is_empty() && tools[1].args.is_empty() && tools[4].args.is_empty());
}

#[test]
fn targets_have_labels() {
    assert_eq!(Clipboard.label(), "clipboard");
    assert_eq!(Agent.label(), "agent");
}

fn comment(file: &str, start: u32, end: u32, lines: &str, text: &str) -> Comment {
    Comment { file: file.into(), start, end, lines: lines.into(), text: text.into() }
}

#[test]
fn block_is_location_snippet_text() {
    let c = comment(
        "specs/plan.md",
        40,
        41,
        "## Old heading\nsome body text",
        "this heading looks wrong",
    );
    assert_eq!(
        format_comment(&c),
        "specs/plan.md:40-41\n## Old heading\nsome body text\nthis heading looks wrong"
    );
}

#[test]
fn single_line_location_has_no_range() {
    let c = comment("a.md", 38, 38, "- an item", "still needed");
    assert_eq!(format_comment(&c), "a.md:38\n- an item\nstill needed");
}

#[test]
fn multiline_text_keeps_breaks_but_drops_blank_lines() {
    let c = comment("a.md", 1, 1, "# H", "first line\n\n  \nsecond line\n");
    assert_eq!(format_comment(&c), "a.md:1\n# H\nfirst line\nsecond line");
}

#[test]
fn all_sorts_by_file_then_start_with_blank_separator() {
    let b = comment("b.md", 5, 5, "x", "two");
    let a2 = comment("a.md", 20, 20, "y", "later");
    let a1 = comment("a.md", 3, 3, "z", "earlier");
    let out = format_all(&[&b, &a2, &a1]);
    assert_eq!(out, "a.md:3\nz\nearlier\n\na.md:20\ny\nlater\n\nb.md:5\nx\ntwo");
}

#[test]
fn comments_of_one_line_keep_their_order() {
    let first = comment("a.md", 3, 3, "z", "first");
    let second = comment("a.md", 3, 9, "z", "second");
    assert_eq!(
        format_all(&[&first, &second]),
        "a.md:3\nz\nfirst\n\na.md:3-9\nz\nsecond"
    );
    assert_eq!(
        format_all(&[&second, &first]),
        "a.md:3-9\nz\nsecond\n\na.md:3\nz\nfirst"
    );
    assert_eq!(format_all(&[]), "");
}

#[test]
fn normalizing_drops_carriage_returns_and_trailing_space() {
    assert_eq!(normalize_text("a \r\n\r\n\tb\t\n"), "a\n\tb");
    assert_eq!(normalize_text("a\rb"), "ab");
    assert_eq!(normalize_text(""), "");
    assert_eq!(normalize_text(" \n \u{3000}\n"), "");
    assert_eq!(normalize_text("  lead\nx\u{a0}"), "lead\nx");
    assert_eq!(normalize_text("\n \n  a\n  b\n"), "a\n  b");
}

#[test]
fn normalized_text_has_no_blank_line_and_stays_as_it_is() {
    for text in ["\n\na\n\n\nb\n\n", "a", "\r\n\r\n", "x \n y\n\n", "a\u{2028}b\n\n"] {
        let once = normalize_text(text);
        assert!(!once.contains("\n\n"), "{text:?}");
        assert!(!once.starts_with('\n') && !once.ends_with('\n'), "{text:?}");
        assert!(!once.contains('\r'), "{text:?}");
        assert_eq!(once, once.trim(), "{text:?}");
        assert_eq!(normalize_text(&once), once, "{text:?}");
    }
}

#[test]
fn texts_are_ordered_as_strings_are() {
    let words = ["", "a", "ab", "b", "B", "a.md", "a/b.md", "é", "z", "\u{10000}", "\u{ffff}"];
    for a in words {
        for b in words {
            assert_eq!(text_less(a, b), a < b, "{a:?} {b:?}");
        }
    }
}

#[test]
fn a_send_hands_over_open_user_comments_and_keeps_them() {
    let mut s = CommentStore::new();
    s.add(comment("b.md", 5, 5, "x", "two"));
    s.add(comment("a.md", 20, 21, "y", "done"));
    s.add(comment("a.md", 3, 3, "z", "one"));
    s.set_status(1, Status::Resolved);
    let mut items = s.iter().clone();
    let mut reply = items[0].clone();
    reply.author = Author::Agent;
    items.push(reply);
    s.replace(items);
    let sent = payload(&s);
    assert_eq!(sent, "a.md:3\nz\none\n\nb.md:5\nx\ntwo");
    assert_eq!(payload(&s), sent);
    assert_eq!(s.len(), 4);
    assert_eq!(payload(&CommentStore::new()), "");
}

/// What is done when the actions of a delivery end in `events`.
fn actions(events: &[AgentEvent]) -> Vec<AgentAction> {
    let mut state = AgentState::Resolving;
    let mut done = Vec::new();
    for event in events {
        let (next, action) = agent_step(state, *event);
        state = next;
        done.push(action);
    }
    done
}

#[test]
fn a_delivery_succeeds_once_the_text_has_arrived() {
    let (ok, err) = (AgentEvent::Succeeded, AgentEvent::Failed);
    let sent = vec![AgentAction::Send, AgentAction::Focus, AgentAction::Succeed];
    assert_eq!(actions(&[ok, ok, ok]), sent);
    // The pane that does not come to the front still has the text.
    assert_eq!(actions(&[ok, ok, err]), sent);
    // Text that did not arrive is a failure, and nothing is brought to the front.
    assert_eq!(
        actions(&[ok, err, ok]),
        vec![AgentAction::Send, AgentAction::Fail, AgentAction::Rest]
    );
    // Without a pane nothing is sent.
    assert_eq!(
        actions(&[err, ok, ok]),
        vec![AgentAction::Fail, AgentAction::Rest, AgentAction::Rest]
    );
}

#[test]
fn a_command_may_carry_each_extension() {
    assert_eq!(candidates("clip", ""), vec!["clip"]);
    assert_eq!(candidates("clip", ".COM;.EXE"), vec!["clip", "clip.COM", "clip.EXE"]);
    assert_eq!(candidates("clip", ";.EXE;;.CMD;"), vec!["clip", "clip.EXE", "clip.CMD"]);
}
