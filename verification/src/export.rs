//! Formatting comments for export to the agent or the clipboard.
//!
//! A comment becomes a block of `location`, the source snippet, then the text. Sending never
//! consumes a comment: nothing here changes the set that it formats, so a comment stays visible
//! (and resolvable) after being sent.
use crate::comments::{Author, Status, StoredComment, StoredView};
use crate::model;
use crate::model::{Comment, CommentStore, CommentView};
use crate::order;
use crate::order::{Ranked, stable_order, text_less};
use crate::text;
use crate::text::{
    chars_of, join_strings, same_text, split_text_lines, string_of, trimmed_end,
    trimmed_start,
};
use vstd::prelude::*;

verus! {

/// `s` without its carriage returns.
pub open spec fn without_cr(s: Seq<char>) -> Seq<char>
    decreases s.len(),
{
    if s.len() == 0 {
        s
    } else if s.last() == '\r' {
        without_cr(s.drop_last())
    } else {
        without_cr(s.drop_last()).push(s.last())
    }
}

/// The first `n` of `lines` without the white space at their ends, and without those that are
/// blank. The first line that is kept loses the white space at its start too.
pub open spec fn kept_lines(lines: Seq<Seq<char>>, n: int) -> Seq<Seq<char>>
    decreases n,
{
    if n <= 0 {
        Seq::empty()
    } else {
        let rest = kept_lines(lines, n - 1);
        let line = text::trim_end(lines[n - 1]);
        if line.len() == 0 {
            rest
        } else if rest.len() == 0 {
            rest.push(text::trim_start(line))
        } else {
            rest.push(line)
        }
    }
}

/// The lines of a comment's text that are exported.
pub open spec fn export_lines(s: Seq<char>) -> Seq<Seq<char>> {
    let lines = text::text_lines(without_cr(s));
    kept_lines(lines, lines.len() as int)
}

/// Comment text for export.
pub open spec fn normalized(s: Seq<char>) -> Seq<char> {
    text::joined(export_lines(s), "\n"@)
}

/// Comment text for export, trimmed: drop `\r`, trim trailing space per line, and drop blank
/// lines so a multi-line comment can never introduce the blank-line block separator. The text
/// starts with no white space either; the indentation of its further lines stays.
pub fn normalize_text(s: &str) -> (r: String)
    ensures
        r@ == normalized(s@),
        r@.len() > 0 ==> !text::white_space(r@[0]) && !text::white_space(r@.last()),
{
    let given: Vec<char> = chars_of(s);
    let mut chars: Vec<char> = Vec::new();
    let mut i: usize = 0;
    assert(given@.take(0) =~= Seq::empty());
    while i < given.len()
        invariant
            i <= given@.len(),
            chars@ == without_cr(given@.take(i as int)),
        decreases given@.len() - i,
    {
        assert(given@.take(i + 1).drop_last() =~= given@.take(i as int));
        if given[i] != '\r' {
            chars.push(given[i]);
        }
        i += 1;
    }
    assert(given@.take(i as int) =~= s@);
    let lines: Vec<String> = split_text_lines(&chars);
    let ghost all = text::contents(lines@);
    let mut kept: Vec<String> = Vec::new();
    let mut k: usize = 0;
    assert(text::contents(kept@) =~= kept_lines(all, 0));
    while k < lines.len()
        invariant
            k <= lines@.len(),
            all == text::contents(lines@),
            text::contents(kept@) == kept_lines(all, k as int),
        decreases lines@.len() - k,
    {
        let line: Vec<char> = chars_of(lines[k].as_str());
        let end: usize = trimmed_end(&line, 0, line.len());
        let ghost before = text::contents(kept@);
        assert(line@.subrange(0, line@.len() as int) =~= all[k as int]);
        if end > 0 {
            let start: usize = if kept.len() == 0 {
                trimmed_start(&line, 0, end)
            } else {
                0
            };
            let piece: String = string_of(&line, start, end);
            kept.push(piece);
            assert(text::contents(kept@) =~= before.push(piece@));
        } else {
            assert(text::trim_end(all[k as int]).len() == 0);
        }
        k += 1;
    }
    proof {
        law_exported_text_is_trimmed(s@);
    }
    join_strings(&kept, "\n")
}

/// The export block of a comment: location, snippet, then text.
pub open spec fn block_text(c: CommentView) -> Seq<char> {
    c.location() + "\n"@ + c.lines + "\n"@ + normalized(c.text)
}

/// One comment as its export block: location, snippet, then text.
pub fn format_comment(comment: &Comment) -> (r: String)
    ensures
        r@ == block_text(comment@),
{
    let mut out: String = comment.location();
    out.append("\n");
    out.append(comment.lines.as_str());
    out.append("\n");
    let body: String = normalize_text(comment.text.as_str());
    out.append(body.as_str());
    assert(out@ =~= block_text(comment@));
    out
}

/// Whether `a` is exported before `b`: by file, then by start line.
pub open spec fn exported_before(a: CommentView, b: CommentView) -> bool {
    order::text_before(a.file, b.file) || (a.file == b.file && a.start < b.start)
}

impl Ranked for Comment {
    open spec fn precedes(&self, other: &Self) -> bool {
        exported_before(self@, other@)
    }

    proof fn ranks_one_way(a: &Self, b: &Self) {
        order::law_text_order_is_total(a@.file, b@.file);
    }

    proof fn ranks_in_line(a: &Self, b: &Self, c: &Self) {
        let (x, y, z) = (a@.file, b@.file, c@.file);
        order::law_text_order_is_total(x, y);
        order::law_text_order_is_total(y, z);
        order::law_text_order_is_total(x, z);
        if order::text_before(x, y) && order::text_before(y, z) {
            order::law_text_order_is_transitive(x, y, z);
        }
    }

    fn comes_before(&self, other: &Self) -> (r: bool) {
        if text_less(self.file.as_str(), other.file.as_str()) {
            true
        } else {
            same_text(self.file.as_str(), other.file.as_str()) && self.start < other.start
        }
    }
}

/// The export blocks of `comments` in the order `order`.
pub open spec fn blocks_in(comments: Seq<CommentView>, order: Seq<usize>) -> Seq<Seq<char>> {
    order.map_values(|i: usize| block_text(comments[i as int]))
}

/// Whether `order` lists `comments` for export: by file, then by start line, where comments of
/// one file and line keep their order.
pub open spec fn export_order(comments: Seq<CommentView>, order: Seq<usize>) -> bool {
    &&& order::lists_all(order, comments.len() as int)
    &&& order::sorts_by(order, |i: int, j: int| exported_before(comments[i], comments[j]))
}

/// Whether `s` is the export of `comments`: their blocks in order, one blank line between them.
pub open spec fn is_export(s: Seq<char>, comments: Seq<CommentView>) -> bool {
    exists|order: Seq<usize>| #[trigger]
        export_order(comments, order) && s == text::joined(blocks_in(comments, order), "\n\n"@)
}

/// Many comments, sorted by file then start line, one blank line between blocks.
pub fn format_all(comments: &[&Comment]) -> (r: String)
    ensures
        is_export(r@, comments@.map_values(|c: &Comment| c@)),
{
    let order: Vec<usize> = stable_order(comments);
    let ghost views = comments@.map_values(|c: &Comment| c@);
    let mut blocks: Vec<String> = Vec::new();
    let mut i: usize = 0;
    while i < order.len()
        invariant
            i <= order@.len(),
            order::lists_all(order@, comments@.len() as int),
            views == comments@.map_values(|c: &Comment| c@),
            blocks@.len() == i,
            forall|k: int|
                0 <= k < i ==> (#[trigger] blocks@[k])@ == block_text(views[order@[k] as int]),
        decreases order@.len() - i,
    {
        blocks.push(format_comment(comments[order[i]]));
        i += 1;
    }
    assert(text::contents(blocks@) =~= blocks_in(views, order@));
    assert(export_order(views, order@)) by {
        let by_rank = |i: int, j: int| comments@[i].precedes(comments@[j]);
        let by_view = |i: int, j: int| exported_before(views[i], views[j]);
        assert forall|k: int, l: int| 0 <= k < l < order@.len() implies {
            let (a, b) = (#[trigger] order@[k], #[trigger] order@[l]);
            !by_view(b as int, a as int) && (by_view(a as int, b as int) || a < b)
        } by {
            let (a, b) = (order@[k] as int, order@[l] as int);
            assert(by_rank(b, a) == by_view(b, a) && by_rank(a, b) == by_view(a, b));
        }
    }
    join_strings(&blocks, "\n\n")
}

/// What the comments among `items` that a send delivers say, in order.
pub open spec fn outgoing(items: Seq<StoredView>) -> Seq<CommentView> {
    model::sendable_of(items).map_values(|c: StoredView| c.comment)
}

/// The text that a send or a copy hands over: every open comment of the user, and no other. The
/// store is only read, so that each comment stays where it is.
pub fn payload(store: &CommentStore) -> (r: String)
    ensures
        is_export(r@, outgoing(store@)),
{
    let sent: Vec<&StoredComment> = store.open_user_comments();
    let ghost views = sent@.map_values(|c: &StoredComment| c@);
    let mut comments: Vec<&Comment> = Vec::new();
    let mut i: usize = 0;
    while i < sent.len()
        invariant
            i <= sent@.len(),
            views == sent@.map_values(|c: &StoredComment| c@),
            comments@.len() == i,
            forall|k: int| 0 <= k < i ==> (#[trigger] comments@[k])@ == views[k].comment,
        decreases sent@.len() - i,
    {
        comments.push(&sent[i].comment);
        i += 1;
    }
    assert(comments@.map_values(|c: &Comment| c@) =~= outgoing(store@));
    format_all(comments.as_slice())
}

/// There is only one export of given comments.
pub proof fn law_export_is_determined(s: Seq<char>, t: Seq<char>, comments: Seq<CommentView>)
    requires
        is_export(s, comments),
        is_export(t, comments),
    ensures
        s == t,
{
    let before = |i: int, j: int| exported_before(comments[i], comments[j]);
    let a = choose|order: Seq<usize>| #[trigger]
        export_order(comments, order) && s == text::joined(blocks_in(comments, order), "\n\n"@);
    let b = choose|order: Seq<usize>| #[trigger]
        export_order(comments, order) && t == text::joined(blocks_in(comments, order), "\n\n"@);
    order::law_stable_order_is_unique(comments.len() as int, before, a, b);
}

/// A destination comments can be exported to.
pub trait ExportTarget {
    /// What this destination is called.
    spec fn name(&self) -> Seq<char>;

    /// What this destination is called.
    fn label(&self) -> (r: &'static str)
        ensures
            r@ == self.name(),
    ;
}

/// The system clipboard, via the first available platform clipboard tool.
#[derive(Debug)]
pub struct Clipboard;

impl ExportTarget for Clipboard {
    open spec fn name(&self) -> Seq<char> {
        "clipboard"@
    }

    fn label(&self) -> (r: &'static str) {
        "clipboard"
    }
}

/// The agent pane, whose input an export fills.
#[derive(Debug)]
pub struct Agent;

impl ExportTarget for Agent {
    open spec fn name(&self) -> Seq<char> {
        "agent"@
    }

    fn label(&self) -> (r: &'static str) {
        "agent"
    }
}

/// A clipboard tool and the arguments that make it read standard input into the system
/// clipboard.
#[derive(Clone, Debug)]
pub struct Tool {
    pub cmd: &'static str,
    pub args: Vec<&'static str>,
}

/// The command and the arguments of a clipboard tool.
pub open spec fn tool_view(t: Tool) -> (Seq<char>, Seq<Seq<char>>) {
    (t.cmd@, t.args@.map_values(|a: &'static str| a@))
}

/// The clipboard tools, in the order in which they are tried. macOS ships `pbcopy`; Linux needs
/// one of these installed (Wayland `wl-copy`, or X11 `xclip`/`xsel`); Windows ships `clip`.
pub open spec fn tool_list() -> Seq<(Seq<char>, Seq<Seq<char>>)> {
    seq![
        ("pbcopy"@, Seq::empty()),
        ("wl-copy"@, Seq::empty()),
        ("xclip"@, seq!["-selection"@, "clipboard"@]),
        ("xsel"@, seq!["--clipboard"@, "--input"@]),
        ("clip"@, Seq::empty()),
    ]
}

/// The clipboard tools, in the order in which they are tried.
pub fn clipboard_tools() -> (r: Vec<Tool>)
    ensures
        r@.map_values(|t: Tool| tool_view(t)) == tool_list(),
{
    let r: Vec<Tool> = vec![
        Tool { cmd: "pbcopy", args: Vec::new() },
        Tool { cmd: "wl-copy", args: Vec::new() },
        Tool { cmd: "xclip", args: vec!["-selection", "clipboard"] },
        Tool { cmd: "xsel", args: vec!["--clipboard", "--input"] },
        Tool { cmd: "clip", args: Vec::new() },
    ];
    proof {
        assert forall|k: int| 0 <= k < 5 implies tool_view(#[trigger] r@[k])
            == tool_list()[k] by {
            assert(tool_view(r@[k]).1 =~= tool_list()[k].1);
        }
        assert(r@.map_values(|t: Tool| tool_view(t)) =~= tool_list());
    }
    r
}

/// The first clipboard tool the `present` predicate accepts, preserving list order.
pub fn select_tool<F: Fn(&str) -> bool>(tools: &Vec<Tool>, present: F) -> (r: Option<&Tool>)
    requires
        forall|cmd: &str| call_requires(present, (cmd,)),
    ensures
        match r {
            Some(tool) => exists|i: int|
                0 <= i < tools@.len() && *tool == #[trigger] tools@[i] && call_ensures(
                    present,
                    (tools@[i].cmd,),
                    true,
                ) && forall|k: int|
                    0 <= k < i ==> call_ensures(present, ((#[trigger] tools@[k]).cmd,), false),
            None => forall|k: int|
                0 <= k < tools@.len() ==> call_ensures(
                    present,
                    ((#[trigger] tools@[k]).cmd,),
                    false,
                ),
        },
{
    let mut i: usize = 0;
    while i < tools.len()
        invariant
            i <= tools@.len(),
            forall|cmd: &str| call_requires(present, (cmd,)),
            forall|k: int|
                0 <= k < i ==> call_ensures(present, ((#[trigger] tools@[k]).cmd,), false),
        decreases tools@.len() - i,
    {
        if present(tools[i].cmd) {
            return Some(&tools[i]);
        }
        i += 1;
    }
    None
}

/// Whether `line` can stand in an export as a line of its own: it is not empty, holds no line
/// feed and no carriage return, and does not end in white space.
pub open spec fn clean(line: Seq<char>) -> bool {
    &&& line.len() > 0
    &&& !line.contains('\n')
    &&& !line.contains('\r')
    &&& !text::white_space(line.last())
}

proof fn lemma_without_cr(s: Seq<char>)
    ensures
        !without_cr(s).contains('\r'),
        !s.contains('\r') ==> without_cr(s) == s,
    decreases s.len(),
{
    if s.len() > 0 {
        lemma_without_cr(s.drop_last());
        assert(forall|k: int| 0 <= k < s.len() - 1 ==> s.drop_last()[k] == #[trigger] s[k]);
        assert(s =~= s.drop_last().push(s.last()));
        if without_cr(s).contains('\r') {
            let k = choose|k: int| 0 <= k < without_cr(s).len() && without_cr(s)[k] == '\r';
            assert(without_cr(s.drop_last())[k] == '\r');
        }
        if !s.contains('\r') {
            assert(s[s.len() - 1] != '\r');
            assert(!s.drop_last().contains('\r'));
        }
    }
}

proof fn lemma_lines_hold_no_break(s: Seq<char>, i: int)
    requires
        0 <= i <= s.len(),
        !s.contains('\r'),
    ensures
        forall|k: int|
            0 <= k < text::lines_from(s, i).len() ==> !(#[trigger] text::lines_from(
                s,
                i,
            )[k]).contains('\n') && !text::lines_from(s, i)[k].contains('\r'),
    decreases s.len() - i,
{
    if i < s.len() {
        text::lemma_line_end(s, i);
        let e = text::line_end(s, i);
        let line = s.subrange(i, e);
        assert(forall|k: int| 0 <= k < line.len() ==> #[trigger] line[k] == s[i + k]);
        assert(!line.contains('\n'));
        assert(!line.contains('\r'));
        if e < s.len() {
            lemma_lines_hold_no_break(s, e + 1);
            let rest = text::lines_from(s, e + 1);
            let all = text::lines_from(s, i);
            assert(all =~= seq![line] + rest);
            assert forall|k: int| 0 <= k < all.len() implies !(#[trigger] all[k]).contains('\n')
                && !all[k].contains('\r') by {
                if k > 0 {
                    assert(all[k] == rest[k - 1]);
                }
            }
        } else {
            assert(line =~= s.subrange(i, s.len() as int));
        }
    }
}

proof fn lemma_kept_lines(lines: Seq<Seq<char>>, n: int)
    requires
        0 <= n <= lines.len(),
        forall|k: int|
            0 <= k < lines.len() ==> !(#[trigger] lines[k]).contains('\n') && !lines[k].contains(
                '\r',
            ),
    ensures
        forall|k: int|
            0 <= k < kept_lines(lines, n).len() ==> clean(#[trigger] kept_lines(lines, n)[k]),
        kept_lines(lines, n).len() > 0 ==> !text::white_space(kept_lines(lines, n)[0][0]),
    decreases n,
{
    if n > 0 {
        lemma_kept_lines(lines, n - 1);
        let line = lines[n - 1];
        let whole = text::trim_end(line);
        text::lemma_trim_end(line);
        text::lemma_trim_start(whole);
        let kept = if kept_lines(lines, n - 1).len() == 0 {
            text::trim_start(whole)
        } else {
            whole
        };
        let cut = whole.len() - kept.len();
        assert(kept =~= whole.skip(cut));
        assert forall|k: int| 0 <= k < kept.len() implies line.contains(#[trigger] kept[k]) by {
            assert(line[k + cut] == whole[k + cut]);
        }
        assert(!lines[n - 1].contains('\n') && !lines[n - 1].contains('\r'));
        assert(!kept.contains('\n') && !kept.contains('\r'));
        let before = kept_lines(lines, n - 1);
        let all = kept_lines(lines, n);
        assert forall|k: int| 0 <= k < all.len() implies clean(#[trigger] all[k]) by {
            if k < before.len() {
                assert(all[k] == before[k]);
            } else {
                assert(all[k] == kept);
            }
        }
    }
}

/// Every line of exported text is clean, whatever was typed, and the first one starts with no
/// white space.
pub proof fn law_export_lines_are_clean(s: Seq<char>)
    ensures
        forall|k: int|
            0 <= k < export_lines(s).len() ==> clean(#[trigger] export_lines(s)[k]),
        export_lines(s).len() > 0 ==> !text::white_space(export_lines(s)[0][0]),
{
    let plain = without_cr(s);
    lemma_without_cr(s);
    lemma_lines_hold_no_break(plain, 0);
    let lines = text::text_lines(plain);
    lemma_kept_lines(lines, lines.len() as int);
}

/// Whether `s` neither starts nor ends with a line feed, and holds no two in a row: no line of
/// it is empty.
pub open spec fn has_no_blank_line(s: Seq<char>) -> bool {
    s.len() > 0 ==> {
        &&& s[0] != '\n'
        &&& s.last() != '\n'
        &&& forall|k: int, l: int|
            0 <= k && l == k + 1 && l < s.len() ==> !(#[trigger] s[k] == '\n' && #[trigger] s[l]
                == '\n')
    }
}

proof fn lemma_joined_clean(parts: Seq<Seq<char>>)
    requires
        forall|k: int| 0 <= k < parts.len() ==> clean(#[trigger] parts[k]),
    ensures
        has_no_blank_line(text::joined(parts, "\n"@)),
        !text::joined(parts, "\n"@).contains('\r'),
        parts.len() > 0 ==> text::joined(parts, "\n"@).len() > 0 && text::joined(parts, "\n"@)[0]
            == parts[0][0] && text::joined(parts, "\n"@).last() == parts.last().last(),
    decreases parts.len(),
{
    reveal_strlit("\n");
    let all = text::joined(parts, "\n"@);
    if parts.len() > 0 {
        let last = parts.last();
        assert(clean(last));
        assert(forall|k: int| 0 <= k < last.len() ==> last.contains(#[trigger] last[k]));
        if parts.len() > 1 {
            let rest = parts.drop_last();
            lemma_joined_clean(rest);
            let head = text::joined(rest, "\n"@);
            assert(all == head + "\n"@ + last);
            let n = head.len() as int;
            assert(forall|k: int| 0 <= k < n ==> head.contains(#[trigger] head[k]));
            assert forall|k: int| 0 <= k < all.len() implies #[trigger] all[k] != '\r' by {
                if k < n {
                    assert(all[k] == head[k]);
                } else if k > n {
                    assert(all[k] == last[k - n - 1]);
                }
            }
            assert forall|k: int, l: int| 0 <= k && l == k + 1 && l < all.len() implies !(
            #[trigger] all[k] == '\n' && #[trigger] all[l] == '\n') by {
                if l < n {
                    assert(all[k] == head[k] && all[l] == head[l]);
                } else if k < n {
                    assert(all[k] == head.last());
                } else {
                    assert(all[l] == last[l - n - 1]);
                }
            }
            assert(all[0] == head[0]);
            assert(all.last() == last.last());
        }
    }
}

/// Exported text never holds a blank line, whatever was typed, so it cannot be mistaken for the
/// separator between blocks; nor does it hold a carriage return.
pub proof fn law_exported_text_has_no_blank_line(s: Seq<char>)
    ensures
        has_no_blank_line(normalized(s)),
        !normalized(s).contains('\r'),
{
    law_export_lines_are_clean(s);
    lemma_joined_clean(export_lines(s));
}

/// Exported text is trimmed at both ends, whatever was typed.
pub proof fn law_exported_text_is_trimmed(s: Seq<char>)
    ensures
        normalized(s).len() > 0 ==> !text::white_space(normalized(s)[0]) && !text::white_space(
            normalized(s).last(),
        ),
{
    let parts = export_lines(s);
    law_export_lines_are_clean(s);
    lemma_joined_clean(parts);
    if parts.len() > 0 {
        assert(clean(parts[parts.len() - 1]));
    }
}

proof fn lemma_line_end_in_front(x: Seq<char>, y: Seq<char>, i: int)
    requires
        0 <= i <= x.len(),
        y.len() > 0,
        y[0] == '\n',
    ensures
        text::line_end(x + y, i) == text::line_end(x, i),
    decreases x.len() - i,
{
    if i < x.len() && x[i] != '\n' {
        lemma_line_end_in_front(x, y, i + 1);
        assert((x + y)[i] == x[i]);
    } else if i < x.len() {
        assert((x + y)[i] == x[i]);
    } else {
        assert((x + y)[i] == y[0]);
    }
}

proof fn lemma_one_more_line(x: Seq<char>, l: Seq<char>, i: int)
    requires
        0 <= i < x.len(),
        x.last() != '\n',
        !x.contains('\r'),
        l.len() > 0,
        !l.contains('\n'),
    ensures
        text::lines_from(x + "\n"@ + l, i) == text::lines_from(x, i).push(l),
    decreases x.len() - i,
{
    reveal_strlit("\n");
    let tail = "\n"@ + l;
    let s = x + "\n"@ + l;
    assert(s =~= x + tail);
    lemma_line_end_in_front(x, tail, i);
    text::lemma_line_end(x, i);
    let e = text::line_end(x, i);
    assert(s.subrange(i, e) =~= x.subrange(i, e));
    let line = x.subrange(i, e);
    assert(forall|k: int| 0 <= k < line.len() ==> x.contains(#[trigger] line[k]));
    assert(text::strip_cr(line) == line);
    if e < x.len() {
        assert(e != x.len() - 1);
        lemma_one_more_line(x, l, e + 1);
        assert(text::lines_from(s, i) =~= seq![line] + text::lines_from(x, e + 1).push(l));
        assert(text::lines_from(x, i).push(l) =~= seq![line] + text::lines_from(x, e + 1).push(
            l,
        ));
    } else {
        let j = x.len() + 1;
        text::lemma_line_end(s, j as int);
        assert(forall|k: int| j <= k < s.len() ==> #[trigger] s[k] == l[k - j]);
        assert(forall|k: int| 0 <= k < l.len() ==> l.contains(#[trigger] l[k]));
        assert(text::line_end(s, j as int) == s.len());
        assert(s.subrange(j as int, s.len() as int) =~= l);
        assert(text::lines_from(s, j as int) =~= seq![l]);
        assert(line =~= x.subrange(i, x.len() as int));
        assert(text::lines_from(s, i) =~= seq![line] + seq![l]);
        assert(text::lines_from(x, i).push(l) =~= seq![line] + seq![l]);
    }
}

proof fn lemma_lines_of_joined(parts: Seq<Seq<char>>)
    requires
        forall|k: int| 0 <= k < parts.len() ==> clean(#[trigger] parts[k]),
    ensures
        text::text_lines(text::joined(parts, "\n"@)) == parts,
    decreases parts.len(),
{
    let all = text::joined(parts, "\n"@);
    if parts.len() == 0 {
        assert(text::text_lines(all) =~= parts);
    } else if parts.len() == 1 {
        let p = parts[0];
        assert(clean(p));
        text::lemma_line_end(p, 0);
        assert(forall|k: int| 0 <= k < p.len() ==> p.contains(#[trigger] p[k]));
        assert(text::line_end(p, 0) == p.len());
        assert(p.subrange(0, p.len() as int) =~= p);
        assert(text::text_lines(all) =~= parts);
    } else {
        let rest = parts.drop_last();
        lemma_lines_of_joined(rest);
        lemma_joined_clean(rest);
        assert(clean(parts.last()));
        lemma_one_more_line(text::joined(rest, "\n"@), parts.last(), 0);
        assert(parts =~= rest.push(parts.last()));
    }
}

proof fn lemma_clean_lines_stay(lines: Seq<Seq<char>>, n: int)
    requires
        0 <= n <= lines.len(),
        forall|k: int| 0 <= k < lines.len() ==> clean(#[trigger] lines[k]),
        lines.len() > 0 ==> !text::white_space(lines[0][0]),
    ensures
        kept_lines(lines, n) == lines.take(n),
    decreases n,
{
    if n > 0 {
        lemma_clean_lines_stay(lines, n - 1);
        assert(clean(lines[n - 1]));
        assert(text::trim_end(lines[n - 1]) == lines[n - 1]);
        assert(lines.take(n) =~= lines.take(n - 1).push(lines[n - 1]));
    } else {
        assert(kept_lines(lines, n) =~= lines.take(n));
    }
}

/// Text that is ready for export stays as it is when it is made ready once more.
pub proof fn law_normalizing_twice_changes_nothing(s: Seq<char>)
    ensures
        normalized(normalized(s)) == normalized(s),
{
    let parts = export_lines(s);
    law_export_lines_are_clean(s);
    law_exported_text_has_no_blank_line(s);
    lemma_without_cr(normalized(s));
    lemma_lines_of_joined(parts);
    lemma_clean_lines_stay(parts, parts.len() as int);
    assert(parts.take(parts.len() as int) =~= parts);
}

/// The export block of a comment holds the snippet unchanged, character for character, between the
/// line of its location and its text: location, line feed, snippet, line feed, and then the text
/// ready for export, whatever the snippet is.
pub proof fn law_export_block_holds_the_snippet(c: CommentView)
    ensures
        ({
            let (s, head) = (block_text(c), c.location());
            let n = head.len() as int;
            let m = n + 1 + c.lines.len();
            &&& s.len() == m + 1 + normalized(c.text).len()
            &&& s.take(n) == head
            &&& s[n] == '\n'
            &&& s.subrange(n + 1, m) == c.lines
            &&& s[m] == '\n'
            &&& s.skip(m + 1) == normalized(c.text)
        }),
{
    reveal_strlit("\n");
    let (s, head) = (block_text(c), c.location());
    let n = head.len() as int;
    let m = n + 1 + c.lines.len();
    assert(s.take(n) =~= head);
    assert(s.subrange(n + 1, m) =~= c.lines);
    assert(s.skip(m + 1) =~= normalized(c.text));
}

/// The block of a comment changes with its text only behind the snippet, and with its snippet only
/// there.
pub proof fn law_export_block_parts_are_independent(a: CommentView, b: CommentView)
    requires
        a.file == b.file,
        a.start == b.start,
        a.end == b.end,
        block_text(a) == block_text(b),
        a.lines.len() == b.lines.len(),
    ensures
        a.lines == b.lines,
        normalized(a.text) == normalized(b.text),
{
    law_export_block_holds_the_snippet(a);
    law_export_block_holds_the_snippet(b);
}

/// `s` as it was typed, carriage returns aside.
pub open spec fn typed(s: Seq<char>) -> Seq<char> {
    s.filter(|c: char| c != '\r')
}

proof fn lemma_without_cr_filters(s: Seq<char>)
    ensures
        without_cr(s) == typed(s),
    decreases s.len(),
{
    reveal(Seq::filter);
    if s.len() > 0 {
        lemma_without_cr_filters(s.drop_last());
    } else {
        assert(without_cr(s) =~= typed(s));
    }
}

/// Whether `line` is `kept` with nothing but white space around it; in front of it only where
/// `first`.
pub open spec fn kept_of(line: Seq<char>, kept: Seq<char>, first: bool) -> bool {
    exists|a: int|
        {
            &&& 0 <= a <= line.len() - kept.len()
            &&& kept == #[trigger] line.subrange(a, a + kept.len())
            &&& forall|i: int| 0 <= i < a ==> text::white_space(#[trigger] line[i])
            &&& forall|i: int|
                a + kept.len() <= i < line.len() ==> text::white_space(#[trigger] line[i])
            &&& !first ==> a == 0
        }
}

/// Whether `out` are lines of `lines` in their order, the ones at the indices `at`, and each line
/// that is left out is blank.
pub open spec fn kept_at(lines: Seq<Seq<char>>, out: Seq<Seq<char>>, at: Seq<int>) -> bool {
    &&& at.len() == out.len()
    &&& forall|k: int|
        0 <= k < at.len() ==> 0 <= #[trigger] at[k] < lines.len() && kept_of(
            lines[at[k]],
            out[k],
            k == 0,
        )
    &&& forall|k: int, l: int| 0 <= k < l < at.len() ==> #[trigger] at[k] < #[trigger] at[l]
    &&& forall|j: int|
        0 <= j < lines.len() && !at.contains(j) ==> is_blank(#[trigger] lines[j])
}

/// Whether `line` is nothing but white space.
pub open spec fn is_blank(line: Seq<char>) -> bool {
    forall|i: int| 0 <= i < line.len() ==> text::white_space(#[trigger] line[i])
}

proof fn lemma_one_kept(line: Seq<char>, first: bool)
    ensures
        ({
            let whole = text::trim_end(line);
            &&& whole.len() == 0 ==> is_blank(line)
            &&& whole.len() > 0 ==> kept_of(
                line,
                if first {
                    text::trim_start(whole)
                } else {
                    whole
                },
                first,
            )
        }),
{
    let whole = text::trim_end(line);
    text::law_trimming_takes_white_space_only(line);
    text::law_trimming_takes_white_space_only(whole);
    let kept = if first {
        text::trim_start(whole)
    } else {
        whole
    };
    let a = whole.len() - kept.len();
    assert(forall|i: int| 0 <= i < whole.len() ==> #[trigger] line[i] == whole[i]);
    assert(kept =~= line.subrange(a, a + kept.len()));
}

proof fn lemma_kept_at(lines: Seq<Seq<char>>, n: int) -> (at: Seq<int>)
    requires
        0 <= n <= lines.len(),
    ensures
        kept_at(lines.take(n), kept_lines(lines, n), at),
    decreases n,
{
    if n == 0 {
        let at = Seq::<int>::empty();
        assert(kept_at(lines.take(n), kept_lines(lines, n), at));
        at
    } else {
        let rest = lemma_kept_at(lines, n - 1);
        let before = kept_lines(lines, n - 1);
        let all = kept_lines(lines, n);
        let line = lines[n - 1];
        lemma_one_kept(line, before.len() == 0);
        let some = text::trim_end(line).len() > 0;
        let at = if some {
            rest.push(n - 1)
        } else {
            rest
        };
        assert forall|k: int| 0 <= k < at.len() implies 0 <= #[trigger] at[k] < lines.take(
            n,
        ).len() && kept_of(lines.take(n)[at[k]], all[k], k == 0) by {
            if k < rest.len() {
                assert(0 <= rest[k] < n - 1);
                assert(lines.take(n - 1)[rest[k]] == lines.take(n)[at[k]]);
                assert(all[k] == before[k]);
            }
        }
        assert forall|k: int, l: int| 0 <= k < l < at.len() implies #[trigger] at[k] < #[trigger]
            at[l] by {
            assert(at[k] == rest[k]);
            if l < rest.len() {
                assert(at[l] == rest[l]);
            }
        }
        assert forall|j: int| 0 <= j < n && !at.contains(j) implies is_blank(
            #[trigger] lines.take(n)[j],
        ) by {
            if rest.contains(j) {
                let k = choose|k: int| 0 <= k < rest.len() && rest[k] == j;
                assert(at[k] == j);
            }
            if j < n - 1 {
                assert(lines.take(n - 1)[j] == lines[j]);
            } else if some {
                assert(at[rest.len() as int] == j);
            }
        }
        assert(kept_at(lines.take(n), all, at));
        at
    }
}

/// Exporting text loses nothing that was written: without the carriage returns, its lines are the
/// lines that were typed, in order, each with its own indentation and without the white space at
/// its end, and only blank lines are left out. Only the first line loses its indentation.
pub proof fn law_exported_text_keeps_what_was_written(s: Seq<char>)
    ensures
        exists|at: Seq<int>| #[trigger]
            kept_at(text::text_lines(typed(s)), text::text_lines(normalized(s)), at),
{
    lemma_without_cr_filters(s);
    let lines = text::text_lines(without_cr(s));
    let at = lemma_kept_at(lines, lines.len() as int);
    assert(lines.take(lines.len() as int) =~= lines);
    law_export_lines_are_clean(s);
    lemma_lines_of_joined(export_lines(s));
    assert(text::text_lines(typed(s)) == lines);
    assert(text::text_lines(normalized(s)) == export_lines(s));
    assert(kept_at(text::text_lines(typed(s)), text::text_lines(normalized(s)), at));
}

/// Whether `order` takes each of `comments` once, sorted by file and, in one file, by first line;
/// comments of one file that start on one line keep their order.
pub open spec fn by_file_and_line(comments: Seq<CommentView>, order: Seq<usize>) -> bool {
    &&& order.len() == comments.len()
    &&& forall|k: int| 0 <= k < order.len() ==> (#[trigger] order[k]) < comments.len()
    &&& forall|i: int|
        0 <= i < comments.len() ==> order.contains(#[trigger] comment_index(comments, i))
    &&& forall|k: int, l: int|
        0 <= k < l < order.len() ==> {
            let (a, b) = (#[trigger] order[k], #[trigger] order[l]);
            let (x, y) = (comments[a as int], comments[b as int]);
            ||| order::text_before(x.file, y.file)
            ||| x.file == y.file && x.start < y.start
            ||| x.file == y.file && x.start == y.start && a < b
        }
}

/// The index of comment `i` of `comments`.
pub open spec fn comment_index(comments: Seq<CommentView>, i: int) -> usize {
    i as usize
}

/// An export is the blocks of the comments with a blank line between each two, sorted by file and
/// line, with none left out and none twice.
pub proof fn law_exports_go_by_file_and_line(s: Seq<char>, comments: Seq<CommentView>)
    requires
        is_export(s, comments),
        comments.len() <= usize::MAX,
    ensures
        exists|order: Seq<usize>| #[trigger]
            by_file_and_line(comments, order) && s == text::joined(
                order.map_values(|i: usize| block_text(comments[i as int])),
                seq!['\n', '\n'],
            ),
{
    reveal_strlit("\n\n");
    assert("\n\n"@ =~= seq!['\n', '\n']);
    let order = choose|order: Seq<usize>| #[trigger]
        export_order(comments, order) && s == text::joined(blocks_in(comments, order), "\n\n"@);
    let n = comments.len() as int;
    let before = |i: int, j: int| exported_before(comments[i], comments[j]);
    assert forall|i: int| 0 <= i < n implies order.contains(
        #[trigger] comment_index(comments, i),
    ) by {
        order::lemma_each_index_is_listed(order, n, i as usize);
        let k = choose|k: int| 0 <= k < n && #[trigger] order[k] == i as usize;
        assert(order[k] == comment_index(comments, i));
    }
    assert forall|k: int, l: int| 0 <= k < l < order.len() implies {
        let (a, b) = (#[trigger] order[k], #[trigger] order[l]);
        let (x, y) = (comments[a as int], comments[b as int]);
        ||| order::text_before(x.file, y.file)
        ||| x.file == y.file && x.start < y.start
        ||| x.file == y.file && x.start == y.start && a < b
    } by {
        let (a, b) = (order[k], order[l]);
        let (x, y) = (comments[a as int], comments[b as int]);
        assert(!before(b as int, a as int) && (before(a as int, b as int) || a < b));
        order::law_text_order_is_total(x.file, y.file);
    }
    assert(blocks_in(comments, order) =~= order.map_values(
        |i: usize| block_text(comments[i as int]),
    ));
    assert(by_file_and_line(comments, order));
}

/// What is handed over is decided comment by comment: one more comment adds what it says at the end
/// just where the user wrote it and it is open.
pub proof fn law_outgoing_takes_each_comment_for_itself(items: Seq<StoredView>, c: StoredView)
    ensures
        outgoing(items.push(c)) == if c.author == Author::User && c.status == Status::Open {
            outgoing(items).push(c.comment)
        } else {
            outgoing(items)
        },
        outgoing(Seq::empty()).len() == 0,
{
    model::law_send_takes_each_comment_for_itself(items, c);
    assert(outgoing(items).push(c.comment) =~= model::sendable_of(items).push(c).map_values(
        |c: StoredView| c.comment,
    ));
}

} // verus!
