//! What each key does to the session.
//!
//! A key press changes the state and may ask for work that only the surroundings can do:
//! opening a file, or sending or copying the comments.
use crate::app;
use crate::app::{App, AppView, Focus, FooterAction, Mode, ModeView};
use crate::comments::{Author, Status, StoredComment, StoredView};
use crate::composer;
use crate::composer::caret_vertical;
use crate::docview;
use crate::docview::composer_content_width;
use crate::geometry;
use crate::geometry::{Rect, doc_inner_width};
use crate::model;
use crate::model::CommentView;
use crate::offsets;
use crate::pane;
use crate::pane::DocView;
use crate::text;
use crate::text::{chars_of, find_line_end, is_white_space, string_of};
use vstd::prelude::*;

verus! {

/// A key press.
#[derive(Clone, Copy, Debug, PartialEq, Eq, Structural)]
pub enum Key {
    Char(char),
    Enter,
    /// A line break in the comment box.
    Newline,
    Esc,
    Tab,
    Backspace,
    Left,
    Right,
    Up,
    Down,
    Home,
    End,
    /// To the start of the word before the caret.
    WordLeft,
    /// To the end of the word behind the caret.
    WordRight,
    /// Delete from the start of the word before the caret.
    DeleteWord,
    /// Delete from the start of the line.
    DeleteToStart,
    /// Delete to the end of the line.
    DeleteToEnd,
}

/// Work that a key asks of the surroundings.
#[derive(Clone, Copy, Debug, PartialEq, Eq, Structural)]
pub enum Request {
    /// Send all sendable comments to the agent.
    Send,
    /// Copy them to the clipboard.
    Copy,
    /// Open a file of the list in the first doc pane.
    Open(usize),
}

/// Where a cursor at `at` in a list of `n` rows goes, one row down or up.
pub open spec fn stepped_row(at: int, n: nat, down: bool) -> int {
    if down {
        if at + 1 < n {
            at + 1
        } else if n > 0 {
            n - 1
        } else {
            0
        }
    } else if at > 0 {
        at - 1
    } else {
        0
    }
}

/// The file list one step wider or narrower, between a tenth and nine tenths of the width.
pub open spec fn resized(pct: u16, wider: bool) -> u16 {
    if wider {
        if pct <= 85 {
            (pct + 5) as u16
        } else {
            90
        }
    } else if pct >= 15 {
        (pct - 5) as u16
    } else {
        10
    }
}

/// The first block behind `b` with a comment under it.
pub open spec fn next_commented(cards: Seq<Seq<usize>>, b: int) -> Option<int>
    decreases cards.len() - b,
{
    if b + 1 >= cards.len() {
        None
    } else if b + 1 >= 0 && cards[b + 1].len() > 0 {
        Some(b + 1)
    } else {
        next_commented(cards, b + 1)
    }
}

/// The last block before `b` with a comment under it.
pub open spec fn previous_commented(cards: Seq<Seq<usize>>, b: int) -> Option<int>
    decreases b,
{
    if b <= 0 {
        None
    } else if b - 1 < cards.len() && cards[b - 1].len() > 0 {
        Some(b - 1)
    } else {
        previous_commented(cards, b - 1)
    }
}

/// The index after the last line feed in `s[..n]`, or 0 where there is none.
pub open spec fn line_home(s: Seq<char>, n: int) -> int
    decreases n,
{
    if n <= 0 {
        0
    } else if s[n - 1] == '\n' {
        n
    } else {
        line_home(s, n - 1)
    }
}

/// The index behind the last character in `s[..n]` that is no white space, or 0 where there is
/// none.
pub open spec fn behind_text(s: Seq<char>, n: int) -> int
    decreases n,
{
    if n > 0 && text::white_space(s[n - 1]) {
        behind_text(s, n - 1)
    } else {
        n
    }
}

/// The index behind the last white space in `s[..n]`, or 0 where there is none.
pub open spec fn behind_space(s: Seq<char>, n: int) -> int
    decreases n,
{
    if n > 0 && !text::white_space(s[n - 1]) {
        behind_space(s, n - 1)
    } else {
        n
    }
}

/// Where the word before index `n` starts, white space between the two left out.
pub open spec fn word_start(s: Seq<char>, n: int) -> int {
    behind_space(s, behind_text(s, n))
}

/// Where the word behind index `n` ends, white space between the two left out.
pub open spec fn word_stop(s: Seq<char>, n: int) -> int {
    let len = s.len() as int;
    offsets::word_run(s, offsets::white_run(s, n, len), len)
}

proof fn lemma_behind(s: Seq<char>, n: int)
    requires
        0 <= n <= s.len(),
    ensures
        0 <= behind_text(s, n) <= n,
        0 <= behind_space(s, n) <= n,
        behind_text(s, n) > 0 ==> !text::white_space(s[behind_text(s, n) - 1]),
        behind_space(s, n) > 0 ==> text::white_space(s[behind_space(s, n) - 1]),
        forall|i: int| behind_text(s, n) <= i < n ==> text::white_space(#[trigger] s[i]),
        forall|i: int| behind_space(s, n) <= i < n ==> !text::white_space(#[trigger] s[i]),
    decreases n,
{
    if n > 0 {
        lemma_behind(s, n - 1);
    }
}

proof fn lemma_runs(s: Seq<char>, n: int)
    requires
        0 <= n <= s.len(),
    ensures
        ({
            let len = s.len() as int;
            let a = offsets::white_run(s, n, len);
            let b = offsets::word_run(s, n, len);
            &&& n <= a <= len
            &&& n <= b <= len
            &&& a < len ==> !text::white_space(s[a])
            &&& b < len ==> text::white_space(s[b])
            &&& forall|i: int| n <= i < a ==> text::white_space(#[trigger] s[i])
            &&& forall|i: int| n <= i < b ==> !text::white_space(#[trigger] s[i])
        }),
    decreases s.len() - n,
{
    if n < s.len() {
        lemma_runs(s, n + 1);
    }
}

/// A jump by word goes over white space and then over one whole word, to its far edge, or to the
/// edge of the text where there is no word.
pub proof fn law_word_jumps_land_on_word_edges(s: Seq<char>, n: int)
    requires
        0 <= n <= s.len(),
    ensures
        ({
            let (a, b) = (word_start(s, n), behind_text(s, n));
            &&& 0 <= a <= b <= n
            &&& a > 0 ==> text::white_space(s[a - 1])
            &&& a == b ==> a == 0
            &&& forall|i: int| a <= i < b ==> !text::white_space(#[trigger] s[i])
            &&& forall|i: int| b <= i < n ==> text::white_space(#[trigger] s[i])
        }),
        ({
            let (a, b) = (offsets::white_run(s, n, s.len() as int), word_stop(s, n));
            &&& n <= a <= b <= s.len()
            &&& b < s.len() ==> text::white_space(s[b])
            &&& a == b ==> a == s.len()
            &&& forall|i: int| n <= i < a ==> text::white_space(#[trigger] s[i])
            &&& forall|i: int| a <= i < b ==> !text::white_space(#[trigger] s[i])
        }),
{
    lemma_behind(s, n);
    lemma_behind(s, behind_text(s, n));
    lemma_runs(s, n);
    lemma_runs(s, offsets::white_run(s, n, s.len() as int));
}

fn find_word_start(chars: &Vec<char>, n: usize) -> (r: usize)
    requires
        n <= chars@.len(),
    ensures
        r == word_start(chars@, n as int),
        r <= n,
{
    let mut a: usize = n;
    while a > 0 && is_white_space(chars[a - 1])
        invariant
            a <= n <= chars@.len(),
            behind_text(chars@, a as int) == behind_text(chars@, n as int),
        decreases a,
    {
        a -= 1;
    }
    let ghost from = a;
    while a > 0 && !is_white_space(chars[a - 1])
        invariant
            a <= from <= n <= chars@.len(),
            behind_space(chars@, a as int) == behind_space(chars@, from as int),
        decreases a,
    {
        a -= 1;
    }
    a
}

fn find_word_stop(chars: &Vec<char>, n: usize) -> (r: usize)
    requires
        n <= chars@.len(),
    ensures
        r == word_stop(chars@, n as int),
        n <= r <= chars@.len(),
{
    let ghost len = chars@.len() as int;
    let mut b: usize = n;
    while b < chars.len() && is_white_space(chars[b])
        invariant
            n <= b <= chars@.len() == len,
            offsets::white_run(chars@, b as int, len) == offsets::white_run(chars@, n as int, len),
        decreases chars@.len() - b,
    {
        b += 1;
    }
    let ghost from = b;
    while b < chars.len() && !is_white_space(chars[b])
        invariant
            n <= from <= b <= chars@.len() == len,
            offsets::word_run(chars@, b as int, len) == offsets::word_run(
                chars@,
                from as int,
                len,
            ),
        decreases chars@.len() - b,
    {
        b += 1;
    }
    b
}

fn find_line_home(chars: &Vec<char>, n: usize) -> (r: usize)
    requires
        n <= chars@.len(),
    ensures
        r == line_home(chars@, n as int),
        r <= n,
{
    let mut at: usize = n;
    while at > 0 && chars[at - 1] != '\n'
        invariant
            at <= n <= chars@.len(),
            line_home(chars@, at as int) == line_home(chars@, n as int),
        decreases at,
    {
        at -= 1;
    }
    at
}

impl AppView {
    /// A comment opened for editing, with the caret behind its text.
    pub open spec fn editing(self, i: int) -> AppView {
        AppView {
            mode: ModeView::Composing { editing: Some(self.comments[i].id) },
            input: self.comments[i].comment.text,
            caret: self.comments[i].comment.text.len() as int,
            ..self
        }
    }

    /// The comment box closed.
    pub open spec fn box_closed(self) -> AppView {
        AppView { mode: ModeView::Browse, input: Seq::empty(), caret: 0, ..self }
    }

    /// The next or previous block with a comment in the focused pane.
    pub open spec fn jump_target(self, next: bool) -> Option<int> {
        let d = self.docs[self.focus_pane()];
        if next {
            next_commented(d.cards(self.comments), d.cursor_block)
        } else {
            previous_commented(d.cards(self.comments), d.cursor_block)
        }
    }

    /// The cursor of the focused pane on the next or previous block with a comment.
    pub open spec fn jumped(self, next: bool) -> AppView {
        let pane = self.focus_pane();
        let d = self.docs[pane];
        match self.jump_target(next) {
            Some(b) => self.with_doc(pane, DocView { cursor_block: b, ..d }),
            None => self,
        }
    }

    /// The cursor of the focused pane one row down or up. In the file list the file under the
    /// cursor is opened.
    pub open spec fn stepped(self, down: bool) -> (AppView, Option<Request>) {
        if self.focus == Focus::List {
            let at = stepped_row(self.file_cursor, self.files.len(), down);
            (
                AppView { file_cursor: at, ..self },
                if self.files.len() > 0 {
                    Some(Request::Open(at as usize))
                } else {
                    None
                },
            )
        } else {
            let pane = self.focus_pane();
            (
                self.with_doc(
                    pane,
                    self.docs[pane].moved(
                        if down {
                            1
                        } else {
                            -1
                        },
                    ),
                ),
                None,
            )
        }
    }

    /// What `key` does in a focused doc pane.
    pub open spec fn doc_keyed(self, key: Key) -> AppView {
        let pane = self.focus_pane();
        let d = self.docs[pane];
        match key {
            Key::Char('v') => self.with_doc(pane, d.selecting()),
            Key::Esc => self.with_doc(pane, d.cleared()),
            Key::Char('c') => if d.anchor() is Some {
                AppView { mode: ModeView::Composing { editing: None }, ..self.box_closed() }
            } else {
                self
            },
            Key::Char('e') => match self.comment_at_cursor() {
                Some(i) => self.editing(i as int),
                None => self,
            },
            Key::Char('d') => match self.comment_at_cursor() {
                Some(i) => AppView { comments: self.comments.remove(i as int), ..self },
                None => self,
            },
            Key::Char('n') => self.jumped(true),
            Key::Char('N') => self.jumped(false),
            _ => self,
        }
    }

    /// What `key` does while browsing.
    pub open spec fn browsed(self, key: Key) -> (AppView, Option<Request>) {
        match key {
            Key::Char('q') => (AppView { should_quit: true, ..self }, None),
            Key::Tab => (self.focus_cycled(), None),
            Key::Char('`') => (self.split_toggled(), None),
            Key::Char('w') => (AppView { wrap: !self.wrap, ..self }, None),
            Key::Char(']') => (AppView { list_pct: resized(self.list_pct, true), ..self }, None),
            Key::Char('[') => (AppView { list_pct: resized(self.list_pct, false), ..self }, None),
            Key::Char('l') => (
                AppView { mode: ModeView::CommentsList { cursor: 0 }, ..self },
                None,
            ),
            Key::Char('s') => (self, Some(Request::Send)),
            Key::Char('y') => (self, Some(Request::Copy)),
            Key::Char('j') => self.stepped(true),
            Key::Down => self.stepped(true),
            Key::Char('k') => self.stepped(false),
            Key::Up => self.stepped(false),
            _ => if self.focus == Focus::List {
                (self, None)
            } else {
                (self.doc_keyed(key), None)
            },
        }
    }

    /// What `key` does in the comments list with row `cursor` highlighted.
    pub open spec fn listed(self, cursor: int, key: Key) -> (AppView, Option<Request>) {
        let n = self.comments.len();
        match key {
            Key::Char('j') => (self.list_at(stepped_row(cursor, n, true)), None),
            Key::Down => (self.list_at(stepped_row(cursor, n, true)), None),
            Key::Char('k') => (self.list_at(stepped_row(cursor, n, false)), None),
            Key::Up => (self.list_at(stepped_row(cursor, n, false)), None),
            Key::Char('e') => if cursor < n {
                (self.editing(cursor), None)
            } else {
                (self, None)
            },
            Key::Char('d') => if cursor < n {
                let rest = AppView { comments: self.comments.remove(cursor), ..self };
                (
                    rest.list_at(
                        if cursor + 1 < n {
                            cursor
                        } else if cursor > 0 {
                            cursor - 1
                        } else {
                            0
                        },
                    ),
                    None,
                )
            } else {
                (self, None)
            },
            Key::Char('x') => if cursor < n {
                let c = self.comments[cursor];
                (
                    AppView {
                        comments: self.comments.update(
                            cursor,
                            StoredView {
                                status: if c.status == Status::Open {
                                    Status::Resolved
                                } else {
                                    Status::Open
                                },
                                ..c
                            },
                        ),
                        ..self
                    },
                    None,
                )
            } else {
                (self, None)
            },
            Key::Char('s') => (self, Some(Request::Send)),
            Key::Char('y') => (self, Some(Request::Copy)),
            Key::Esc => (AppView { mode: ModeView::Browse, ..self }, None),
            Key::Char('l') => (AppView { mode: ModeView::Browse, ..self }, None),
            Key::Char('q') => (AppView { mode: ModeView::Browse, ..self }, None),
            _ => (self, None),
        }
    }

    /// The comments list with row `cursor` highlighted.
    pub open spec fn list_at(self, cursor: int) -> AppView {
        AppView { mode: ModeView::CommentsList { cursor }, ..self }
    }

    /// `c` typed into the comment box at the caret.
    pub open spec fn typed(self, c: char) -> AppView {
        AppView {
            input: self.input.insert(self.caret, c),
            caret: self.caret + 1,
            ..self
        }
    }

    /// The characters `a..b` of the comment box deleted, with the caret where they were.
    pub open spec fn cut(self, a: int, b: int) -> AppView {
        AppView { input: self.input.take(a) + self.input.skip(b), caret: a, ..self }
    }

    /// What `key` does in a comment box `w` columns wide, other than saving.
    pub open spec fn composed(self, key: Key, w: usize) -> AppView {
        match key {
            Key::Esc => self.box_closed(),
            Key::Newline => self.typed('\n'),
            Key::Char(c) => self.typed(c),
            Key::Backspace => if self.caret > 0 {
                AppView {
                    input: self.input.remove(self.caret - 1),
                    caret: self.caret - 1,
                    ..self
                }
            } else {
                self
            },
            Key::Left => AppView {
                caret: if self.caret > 0 {
                    self.caret - 1
                } else {
                    0
                },
                ..self
            },
            Key::Right => AppView {
                caret: if self.caret < self.input.len() {
                    self.caret + 1
                } else {
                    self.caret
                },
                ..self
            },
            Key::Home => AppView { caret: line_home(self.input, self.caret), ..self },
            Key::End => AppView { caret: text::line_end(self.input, self.caret), ..self },
            Key::Up => AppView { caret: self.vertical(w, false), ..self },
            Key::Down => AppView { caret: self.vertical(w, true), ..self },
            Key::WordLeft => AppView { caret: word_start(self.input, self.caret), ..self },
            Key::WordRight => AppView { caret: word_stop(self.input, self.caret), ..self },
            Key::DeleteWord => self.cut(word_start(self.input, self.caret), self.caret),
            Key::DeleteToStart => self.cut(line_home(self.input, self.caret), self.caret),
            Key::DeleteToEnd => self.cut(self.caret, text::line_end(self.input, self.caret)),
            _ => self,
        }
    }

    /// The caret one wrapped row down or up in a comment box `w` columns wide.
    pub open spec fn vertical(self, w: usize, down: bool) -> int {
        composer::caret_moved(
            composer::box_from(self.input, 0, composer::wrap_width(w)),
            self.caret,
            down,
        )
    }

    /// The session after the comment box was saved and closed, with `comments`.
    pub open spec fn saved_with(self, comments: Seq<StoredView>) -> AppView {
        let closed = AppView { comments, ..self.box_closed() };
        let pane = self.focus_pane();
        closed.with_doc(pane, self.docs[pane].cleared())
    }

    /// Whether `after` is this session after adding what the comment box holds as a comment on
    /// the selection. Where there is nothing to comment on, the box stays open with its text.
    pub open spec fn added(self, after: AppView) -> bool {
        let d = self.docs[self.focus_pane()];
        match d.anchor() {
            Some((start, end, lines)) => {
                &&& after == self.saved_with(after.comments)
                &&& app::comment_added(
                    self.comments,
                    after.comments,
                    CommentView { file: d.file(), start, end, lines, text: self.input },
                )
            },
            None => after == self,
        }
    }

    /// Whether `after` is this session after saving the comment box: the edited comment has the
    /// new text, or, where it is a new comment or the edited one has left the store meanwhile,
    /// there is one more comment on the selection.
    pub open spec fn saved(self, editing: Option<Seq<char>>, after: AppView) -> bool {
        match editing {
            Some(id) => match model::position_of(self.comments, id) {
                Some(i) => {
                    let c = self.comments[i as int];
                    after == self.saved_with(
                        self.comments.update(
                            i as int,
                            StoredView {
                                comment: CommentView { text: self.input, ..c.comment },
                                ..c
                            },
                        ),
                    )
                },
                None => self.added(after),
            },
            None => self.added(after),
        }
    }

    /// Whether `key` leads from this session to `after` and asks for `request`, where the
    /// comment box is `w` columns wide.
    pub open spec fn keyed(
        self,
        key: Key,
        w: usize,
        after: AppView,
        request: Option<Request>,
    ) -> bool {
        match self.mode {
            ModeView::Browse => (after, request) == self.browsed(key),
            ModeView::CommentsList { cursor } => (after, request) == self.listed(cursor, key),
            ModeView::Composing { editing } => request is None && if key == Key::Enter {
                self.saved(editing, after)
            } else {
                after == self.composed(key, w)
            },
        }
    }
}

fn row_step(at: usize, n: usize, down: bool) -> (r: usize)
    ensures
        r == stepped_row(at as int, n as nat, down),
{
    if down {
        if n > 0 && at < n - 1 {
            at + 1
        } else if n > 0 {
            n - 1
        } else {
            0
        }
    } else if at > 0 {
        at - 1
    } else {
        0
    }
}

impl App {
    /// Open the comment at `i` for editing.
    fn edit_comment(&mut self, i: usize)
        requires
            old(self)@.wf(),
            i < old(self)@.comments.len(),
        ensures
            final(self)@ == old(self)@.editing(i as int),
            final(self)@.wf(),
    {
        if let Some(c) = self.comments.get(i) {
            let id: String = c.id.clone();
            let input: String = c.comment.text.clone();
            self.caret = input.as_str().unicode_len();
            self.mode = Mode::Composing { editing: Some(id) };
            self.input = input;
        }
    }

    /// Close the comment box.
    fn close_box(&mut self)
        requires
            old(self)@.wf(),
        ensures
            final(self)@ == old(self)@.box_closed(),
            final(self)@.wf(),
    {
        self.mode = Mode::Browse;
        self.input = String::new();
        self.caret = 0;
    }

    /// The next or previous block with a comment in the focused pane.
    pub(crate) fn find_jump(&self, next: bool) -> (r: Option<usize>)
        requires
            self@.docs.len() == 2,
        ensures
            match r {
                Some(b) => self@.jump_target(next) == Some(b as int),
                None => self@.jump_target(next) is None,
            },
    {
        let pane: usize = self.focus_pane();
        let lists: Vec<Vec<usize>> = self.comment_cards(pane);
        let at: usize = self.docs[pane].cursor_block;
        let ghost cards = docview::lists_view(lists@);
        let mut b: usize = at;
        if next {
            while lists.len() > 0 && b < lists.len() - 1
                invariant
                    at <= b,
                    cards == docview::lists_view(lists@),
                    at == self@.docs[pane as int].cursor_block,
                    pane == self@.focus_pane(),
                    cards == self@.docs[pane as int].cards(self@.comments),
                    next,
                    next_commented(cards, b as int) == next_commented(cards, at as int),
                decreases lists@.len() - b,
            {
                assert(cards[b + 1] == lists@[b + 1]@);
                if lists[b + 1].len() > 0 {
                    return Some(b + 1);
                }
                b += 1;
            }
        } else {
            while b > 0
                invariant
                    b <= at,
                    cards == docview::lists_view(lists@),
                    at == self@.docs[pane as int].cursor_block,
                    pane == self@.focus_pane(),
                    cards == self@.docs[pane as int].cards(self@.comments),
                    !next,
                    previous_commented(cards, b as int) == previous_commented(cards, at as int),
                decreases b,
            {
                assert(b - 1 < lists@.len() ==> cards[b - 1] == lists@[b - 1]@);
                if b - 1 < lists.len() && lists[b - 1].len() > 0 {
                    return Some(b - 1);
                }
                b -= 1;
            }
        }
        None
    }

    /// Move the cursor of the focused pane to the next or previous block with a comment.
    fn jump(&mut self, next: bool)
        requires
            old(self)@.wf(),
        ensures
            final(self)@ == old(self)@.jumped(next),
            final(self)@.wf(),
    {
        let pane: usize = self.focus_pane();
        if let Some(b) = self.find_jump(next) {
            self.docs[pane].cursor_block = b;
        }
        assert(self@ =~= old(self)@.jumped(next));
    }

    /// Move the cursor of the focused pane one row.
    fn step(&mut self, down: bool) -> (r: Option<Request>)
        requires
            old(self)@.wf(),
        ensures
            (final(self)@, r) == old(self)@.stepped(down),
            final(self)@.wf(),
    {
        if self.focus == Focus::List {
            let n: usize = self.files.len();
            assert(self@.files.len() == n);
            self.file_cursor = row_step(self.file_cursor, n, down);
            if n > 0 {
                Some(Request::Open(self.file_cursor))
            } else {
                None
            }
        } else {
            let pane: usize = self.focus_pane();
            self.move_cursor(
                pane,
                if down {
                    1
                } else {
                    -1
                },
            );
            None
        }
    }

    /// A key in a focused doc pane.
    fn doc_key(&mut self, key: Key)
        requires
            old(self)@.wf(),
        ensures
            final(self)@ == old(self)@.doc_keyed(key),
            final(self)@.wf(),
    {
        let pane: usize = self.focus_pane();
        let ghost view = self@;
        match key {
            Key::Char('v') => {
                self.start_selection(pane);
            },
            Key::Esc => {
                self.clear_selection(pane);
            },
            Key::Char('c') => {
                if self.anchor(pane).is_some() {
                    self.close_box();
                    self.mode = Mode::Composing { editing: None };
                }
            },
            Key::Char('e') => {
                if let Some(i) = self.comment_at_cursor() {
                    self.edit_comment(i);
                }
            },
            Key::Char('d') => {
                if let Some(i) = self.comment_at_cursor() {
                    let _gone: Option<StoredComment> = self.comments.take(i);
                }
            },
            Key::Char('n') => {
                self.jump(true);
            },
            Key::Char('N') => {
                self.jump(false);
            },
            _ => {},
        }
        assert(self@ =~= view.doc_keyed(key));
    }

    /// A key while browsing.
    fn browse_key(&mut self, key: Key) -> (r: Option<Request>)
        requires
            old(self)@.wf(),
        ensures
            (final(self)@, r) == old(self)@.browsed(key),
            final(self)@.wf(),
    {
        match key {
            Key::Char('q') => {
                self.should_quit = true;
                None
            },
            Key::Tab => {
                self.cycle_focus();
                None
            },
            Key::Char('`') => {
                self.toggle_split();
                None
            },
            Key::Char('w') => {
                self.wrap = !self.wrap;
                None
            },
            Key::Char(']') => {
                self.list_pct = if self.list_pct <= 85 {
                    self.list_pct + 5
                } else {
                    90
                };
                None
            },
            Key::Char('[') => {
                self.list_pct = if self.list_pct >= 15 {
                    self.list_pct - 5
                } else {
                    10
                };
                None
            },
            Key::Char('l') => {
                self.mode = Mode::CommentsList { cursor: 0 };
                None
            },
            Key::Char('s') => Some(Request::Send),
            Key::Char('y') => Some(Request::Copy),
            Key::Char('j') => self.step(true),
            Key::Down => self.step(true),
            Key::Char('k') => self.step(false),
            Key::Up => self.step(false),
            _ => {
                if self.focus != Focus::List {
                    self.doc_key(key);
                }
                None
            },
        }
    }

    /// A key in the comments list.
    fn list_key(&mut self, cursor: usize, key: Key) -> (r: Option<Request>)
        requires
            old(self)@.wf(),
        ensures
            (final(self)@, r) == old(self)@.listed(cursor as int, key),
            final(self)@.wf(),
    {
        let n: usize = self.comments.len();
        let ghost view = self@;
        match key {
            Key::Char('j') | Key::Down => {
                self.mode = Mode::CommentsList { cursor: row_step(cursor, n, true) };
                None
            },
            Key::Char('k') | Key::Up => {
                self.mode = Mode::CommentsList { cursor: row_step(cursor, n, false) };
                None
            },
            Key::Char('e') => {
                if cursor < n {
                    self.edit_comment(cursor);
                }
                None
            },
            Key::Char('d') => {
                if cursor < n {
                    let _gone: Option<StoredComment> = self.comments.take(cursor);
                    let next: usize = if cursor < n - 1 {
                        cursor
                    } else if cursor > 0 {
                        cursor - 1
                    } else {
                        0
                    };
                    self.mode = Mode::CommentsList { cursor: next };
                }
                None
            },
            Key::Char('x') => {
                if let Some(c) = self.comments.get(cursor) {
                    let status: Status = if c.status == Status::Open {
                        Status::Resolved
                    } else {
                        Status::Open
                    };
                    let _done: bool = self.comments.set_status(cursor, status);
                }
                None
            },
            Key::Char('s') => Some(Request::Send),
            Key::Char('y') => Some(Request::Copy),
            Key::Esc | Key::Char('l') | Key::Char('q') => {
                self.mode = Mode::Browse;
                None
            },
            _ => None,
        }
    }

    /// Type `c` into the comment box at the caret.
    fn type_char(&mut self, c: char)
        requires
            old(self)@.wf(),
        ensures
            final(self)@ == old(self)@.typed(c),
            final(self)@.wf(),
    {
        let mut chars: Vec<char> = chars_of(self.input.as_str());
        chars.insert(self.caret, c);
        let n: usize = chars.len();
        self.input = string_of(&chars, 0, n);
        self.caret = self.caret + 1;
        assert(chars@.subrange(0, n as int) =~= chars@);
    }

    /// Delete the characters `a..b` of the comment box and put the caret there.
    fn cut_chars(&mut self, a: usize, b: usize)
        requires
            old(self)@.wf(),
            a <= b <= old(self)@.input.len(),
        ensures
            final(self)@ == old(self)@.cut(a as int, b as int),
            final(self)@.wf(),
    {
        let chars: Vec<char> = chars_of(self.input.as_str());
        let n: usize = chars.len();
        let mut kept: String = string_of(&chars, 0, a);
        let tail: String = string_of(&chars, b, n);
        kept.append(tail.as_str());
        assert(kept@ =~= chars@.take(a as int) + chars@.skip(b as int));
        self.input = kept;
        self.caret = a;
        assert(self@ =~= old(self)@.cut(a as int, b as int));
    }

    /// A key in a comment box `w` columns wide, other than the one that saves.
    fn compose_key(&mut self, key: Key, w: usize)
        requires
            old(self)@.wf(),
        ensures
            final(self)@ == old(self)@.composed(key, w),
            final(self)@.wf(),
    {
        let ghost view = self@;
        match key {
            Key::Esc => {
                self.close_box();
            },
            Key::Newline => {
                self.type_char('\n');
            },
            Key::Char(c) => {
                self.type_char(c);
            },
            Key::Backspace => {
                if self.caret > 0 {
                    let mut chars: Vec<char> = chars_of(self.input.as_str());
                    let _gone: char = chars.remove(self.caret - 1);
                    let n: usize = chars.len();
                    self.input = string_of(&chars, 0, n);
                    self.caret = self.caret - 1;
                    assert(chars@.subrange(0, n as int) =~= chars@);
                }
            },
            Key::Left => {
                if self.caret > 0 {
                    self.caret = self.caret - 1;
                }
            },
            Key::Right => {
                if self.caret < self.input.as_str().unicode_len() {
                    self.caret = self.caret + 1;
                }
            },
            Key::Home => {
                let chars: Vec<char> = chars_of(self.input.as_str());
                self.caret = find_line_home(&chars, self.caret);
            },
            Key::End => {
                let chars: Vec<char> = chars_of(self.input.as_str());
                self.caret = find_line_end(&chars, self.caret);
            },
            Key::Up => {
                self.caret = caret_vertical(self.input.as_str(), self.caret, w, false);
            },
            Key::Down => {
                self.caret = caret_vertical(self.input.as_str(), self.caret, w, true);
            },
            Key::WordLeft => {
                let chars: Vec<char> = chars_of(self.input.as_str());
                self.caret = find_word_start(&chars, self.caret);
            },
            Key::WordRight => {
                let chars: Vec<char> = chars_of(self.input.as_str());
                self.caret = find_word_stop(&chars, self.caret);
            },
            Key::DeleteWord => {
                let chars: Vec<char> = chars_of(self.input.as_str());
                let from: usize = find_word_start(&chars, self.caret);
                self.cut_chars(from, self.caret);
            },
            Key::DeleteToStart => {
                let chars: Vec<char> = chars_of(self.input.as_str());
                let from: usize = find_line_home(&chars, self.caret);
                self.cut_chars(from, self.caret);
            },
            Key::DeleteToEnd => {
                let chars: Vec<char> = chars_of(self.input.as_str());
                let to: usize = find_line_end(&chars, self.caret);
                self.cut_chars(self.caret, to);
            },
            _ => {},
        }
        assert(self@ =~= view.composed(key, w));
    }

    /// Save the comment box and close it. It stays open where its text has no place to go.
    fn save(&mut self, editing: Option<String>)
        requires
            old(self)@.wf(),
        ensures
            old(self)@.saved(
                match editing {
                    Some(id) => Some(id@),
                    None => None,
                },
                final(self)@,
            ),
            final(self)@.wf(),
    {
        let ghost view = self@;
        let pane: usize = self.focus_pane();
        let input: String = self.input.clone();
        let found: Option<usize> = match &editing {
            Some(id) => self.comments.index_of(id.as_str()),
            None => None,
        };
        let done: bool = match found {
            Some(i) => self.comments.edit(i, input),
            None => self.add_comment(pane, input),
        };
        if !done {
            return;
        }
        let ghost comments = self@.comments;
        self.close_box();
        self.clear_selection(pane);
        assert(self@ =~= view.saved_with(comments));
    }

    /// Handle one key press where the comment box is `w` columns wide.
    pub fn press(&mut self, key: Key, w: usize) -> (r: Option<Request>)
        requires
            old(self)@.wf(),
        ensures
            old(self)@.keyed(key, w, final(self)@, r),
            final(self)@.wf(),
    {
        match &self.mode {
            Mode::Browse => self.browse_key(key),
            Mode::CommentsList { cursor } => {
                let at: usize = *cursor;
                self.list_key(at, key)
            },
            Mode::Composing { editing } => {
                if key == Key::Enter {
                    let id: Option<String> = match editing {
                        Some(id) => Some(id.clone()),
                        None => None,
                    };
                    self.save(id);
                } else {
                    self.compose_key(key, w);
                }
                None
            },
        }
    }

    /// Handle one key press in a terminal of `area`.
    pub fn on_key(&mut self, key: Key, area: Rect) -> (r: Option<Request>)
        requires
            old(self)@.wf(),
        ensures
            exists|d: Rect| #[trigger]
                geometry::doc_pane_of(
                    d,
                    area,
                    old(self)@.list_pct,
                    old(self)@.split,
                    old(self)@.focus_pane() as usize,
                ) && old(self)@.keyed(
                    key,
                    docview::content_width(geometry::bordered_inside(d).width as usize),
                    final(self)@,
                    r,
                ),
            final(self)@.wf(),
    {
        let pane: usize = self.focus_pane();
        let width: usize = doc_inner_width(area, self.list_pct, self.split, pane);
        let ghost view = self@;
        let ghost d = choose|d: Rect| #[trigger]
            geometry::doc_pane_of(d, area, view.list_pct, view.split, pane) && width
                == geometry::bordered_inside(d).width;
        let w: usize = composer_content_width(width);
        let r: Option<Request> = self.press(key, w);
        assert(geometry::doc_pane_of(
            d,
            area,
            view.list_pct,
            view.split,
            view.focus_pane() as usize,
        ));
        r
    }
}

/// Whether every comment of `before` is still there in `after`, at its place and with its id,
/// author, time and anchor.
pub open spec fn all_kept(before: Seq<StoredView>, after: Seq<StoredView>) -> bool {
    &&& before.len() <= after.len()
    &&& forall|i: int|
        0 <= i < before.len() ==> {
            let (b, a) = (#[trigger] before[i], after[i]);
            &&& a.id == b.id
            &&& a.author == b.author
            &&& a.created_at == b.created_at
            &&& a.comment.file == b.comment.file
            &&& a.comment.start == b.comment.start
            &&& a.comment.end == b.comment.end
            &&& a.comment.lines == b.comment.lines
        }
}

/// No key but the one that deletes removes a comment or changes what it is anchored to.
pub proof fn law_only_delete_removes_a_comment(
    a: AppView,
    key: Key,
    w: usize,
    after: AppView,
    request: Option<Request>,
)
    requires
        a.wf(),
        a.comments.len() <= usize::MAX,
        a.keyed(key, w, after, request),
        key != Key::Char('d') || a.mode is Composing,
    ensures
        all_kept(a.comments, after.comments),
{
    if let ModeView::Composing { editing } = a.mode {
        if let Some(id) = editing {
            model::law_index_of_finds_the_first(a.comments, id);
        }
        let n = a.comments.len() as int;
        if key == Key::Enter && after.comments.len() == n + 1 {
            assert(after.comments.take(n) == a.comments);
            assert forall|i: int| 0 <= i < n implies #[trigger] a.comments[i]
                == after.comments[i] by {
                assert(after.comments.take(n)[i] == after.comments[i]);
            }
        }
    }
}

/// What is being typed is never lost but by cancelling: a key in the comment box leaves it open,
/// and saving leaves its text in the box or in a comment, whatever has become of the document and
/// of the comment that is edited.
pub proof fn law_typed_text_survives(
    a: AppView,
    key: Key,
    w: usize,
    after: AppView,
    request: Option<Request>,
)
    requires
        a.wf(),
        a.comments.len() <= usize::MAX,
        a.mode is Composing,
        a.keyed(key, w, after, request),
        key != Key::Esc,
    ensures
        key != Key::Enter ==> after.mode == a.mode,
        key == Key::Enter ==> {
            ||| after.mode == a.mode && after.input == a.input
            ||| exists|i: int|
                0 <= i < after.comments.len() && (#[trigger] after.comments[i]).comment.text
                    == a.input
        },
{
    if let ModeView::Composing { editing } = a.mode {
        if key == Key::Enter {
            if let Some(id) = editing {
                model::law_index_of_finds_the_first(a.comments, id);
                if let Some(i) = model::position_of(a.comments, id) {
                    assert(after.comments[i as int].comment.text == a.input);
                }
            }
            if after != a && after.comments.len() == a.comments.len() + 1 {
                assert(after.comments[a.comments.len() as int].comment.text == a.input);
            }
        }
    }
}

/// Sending and copying leave the session as it is: no comment is consumed or resolved by it.
pub proof fn law_sending_consumes_nothing(
    a: AppView,
    key: Key,
    w: usize,
    after: AppView,
    request: Option<Request>,
)
    requires
        a.keyed(key, w, after, request),
        request == Some(Request::Send) || request == Some(Request::Copy),
    ensures
        after == a,
{
}

/// The key of a footer action.
pub open spec fn key_of(action: FooterAction) -> Key {
    match action {
        FooterAction::Comment => Key::Char('c'),
        FooterAction::Select => Key::Char('v'),
        FooterAction::ClearSelection => Key::Esc,
        FooterAction::EditComment => Key::Char('e'),
        FooterAction::DeleteComment => Key::Char('d'),
        FooterAction::JumpComment => Key::Char('n'),
        FooterAction::CycleFocus => Key::Tab,
        FooterAction::Send => Key::Char('s'),
        FooterAction::List => Key::Char('l'),
        FooterAction::Copy => Key::Char('y'),
        FooterAction::Split => Key::Char('`'),
        FooterAction::Save => Key::Enter,
        FooterAction::Newline => Key::Newline,
        FooterAction::Cancel => Key::Esc,
        FooterAction::CloseList => Key::Esc,
        FooterAction::ResolveComment => Key::Char('x'),
        FooterAction::Quit => Key::Char('q'),
    }
}

impl AppView {
    /// Whether the key of `action` does something in this session: it changes the session or asks
    /// for work. A jump has one key for either way.
    pub open spec fn works(self, action: FooterAction) -> bool {
        let key = key_of(action);
        match self.mode {
            ModeView::Browse => self.browsed(key) != (self, None::<Request>) || (action
                == FooterAction::JumpComment && self.browsed(Key::Char('N')) != (
                self,
                None::<Request>,
            )),
            ModeView::CommentsList { cursor } => self.listed(cursor, key) != (
                self,
                None::<Request>,
            ),
            ModeView::Composing { .. } => action == FooterAction::Save || forall|w: usize|
                self.composed(key, w) != self,
        }
    }
}

proof fn lemma_next_is_behind(cards: Seq<Seq<usize>>, b: int)
    ensures
        next_commented(cards, b) matches Some(n) ==> n > b,
    decreases cards.len() - b,
{
    if b + 1 < cards.len() {
        lemma_next_is_behind(cards, b + 1);
    }
}

proof fn lemma_previous_is_before(cards: Seq<Seq<usize>>, b: int)
    ensures
        previous_commented(cards, b) matches Some(n) ==> n < b,
    decreases b,
{
    if b > 0 {
        lemma_previous_is_before(cards, b - 1);
    }
}

/// What holds of a session where the footer offers `action` while browsing.
spec fn calls_for(a: AppView, action: FooterAction) -> bool {
    let d = a.docs[a.focus_pane()];
    match action {
        FooterAction::Comment => a.focus != Focus::List && d.anchor() is Some,
        FooterAction::Select => a.focus != Focus::List && d.sel_anchor is None,
        FooterAction::ClearSelection => a.focus != Focus::List && d.sel_anchor is Some,
        FooterAction::EditComment => a.focus != Focus::List && a.comment_at_cursor() is Some,
        FooterAction::DeleteComment => a.focus != Focus::List && a.comment_at_cursor() is Some,
        FooterAction::JumpComment => a.focus != Focus::List && (a.jump_target(true) is Some
            || a.jump_target(false) is Some),
        FooterAction::Send => true,
        FooterAction::Copy => true,
        FooterAction::List => true,
        FooterAction::CycleFocus => true,
        FooterAction::Split => true,
        FooterAction::Quit => true,
        _ => false,
    }
}

proof fn lemma_pane_calls(a: AppView, i: int)
    requires
        0 <= i < a.pane_actions().len(),
    ensures
        calls_for(a, a.pane_actions()[i].0),
{
}

proof fn lemma_browse_calls(a: AppView, i: int)
    requires
        a.mode is Browse,
        0 <= i < a.footer_actions().len(),
    ensures
        calls_for(a, a.footer_actions()[i].0),
{
    let head = a.pane_actions();
    let sending = a.sending_actions();
    let listing = a.listing_actions();
    let n = head.len() as int;
    let m = n + sending.len();
    let k = m + listing.len();
    if i < n {
        assert(a.footer_actions()[i] == head[i]);
        lemma_pane_calls(a, i);
    } else if i < m {
        assert(a.footer_actions()[i] == sending[i - n]);
    } else if i < k {
        assert(a.footer_actions()[i] == listing[i - m]);
    }
}

proof fn lemma_doc_action_works(a: AppView, action: FooterAction)
    requires
        a.wf(),
        a.mode is Browse,
        a.comments.len() <= usize::MAX,
        calls_for(a, action),
        a.focus != Focus::List,
    ensures
        match action {
            FooterAction::Comment => a.doc_keyed(Key::Char('c')) != a,
            FooterAction::Select => a.doc_keyed(Key::Char('v')) != a,
            FooterAction::ClearSelection => a.doc_keyed(Key::Esc) != a,
            FooterAction::EditComment => a.doc_keyed(Key::Char('e')) != a,
            FooterAction::DeleteComment => a.doc_keyed(Key::Char('d')) != a,
            FooterAction::JumpComment => a.doc_keyed(Key::Char('n')) != a || a.doc_keyed(
                Key::Char('N'),
            ) != a,
            _ => true,
        },
{
    let pane = a.focus_pane();
    let d = a.docs[pane];
    match action {
        FooterAction::Select => {
            assert(a.with_doc(pane, d.selecting()).docs[pane].sel_anchor is Some);
        },
        FooterAction::ClearSelection => {
            assert(a.with_doc(pane, d.cleared()).docs[pane].sel_anchor is None);
        },
        FooterAction::DeleteComment => {
            let n = a.comments.len() as int;
            pane::lemma_cards_in_range(d, a.comments, d.cursor_block, n);
            let gone = a.comment_at_cursor()->0 as int;
            assert(a.comments.remove(gone).len() == n - 1);
        },
        FooterAction::JumpComment => {
            lemma_next_is_behind(d.cards(a.comments), d.cursor_block);
            lemma_previous_is_before(d.cards(a.comments), d.cursor_block);
            if a.jump_target(true) is Some {
                assert(a.jumped(true).docs[pane].cursor_block != d.cursor_block);
            } else {
                assert(a.jumped(false).docs[pane].cursor_block != d.cursor_block);
            }
        },
        _ => {},
    }
}

proof fn lemma_row_action_works(a: AppView, cursor: int, i: int)
    requires
        a.wf(),
        a.mode == (ModeView::CommentsList { cursor }),
        0 <= i < a.footer_actions().len(),
    ensures
        a.works(a.footer_actions()[i].0),
{
    let action = a.footer_actions()[i].0;
    let rows = a.row_actions(cursor);
    let sending = a.sending_actions();
    let n = rows.len() as int;
    if i < n {
        assert(a.footer_actions()[i] == rows[i]);
        if action == FooterAction::DeleteComment {
            assert(a.comments.remove(cursor).len() == a.comments.len() - 1);
        } else if action == FooterAction::ResolveComment {
            let after = a.listed(cursor, Key::Char('x')).0;
            assert(after.comments[cursor].status != a.comments[cursor].status);
        }
    } else if i < n + sending.len() {
        assert(a.footer_actions()[i] == sending[i - n]);
    }
}

/// The footer shows only keys that work right now: each action that it offers changes the session
/// or asks for work.
pub proof fn law_footer_offers_working_keys(a: AppView, i: int)
    requires
        a.wf(),
        !a.should_quit,
        a.comments.len() <= usize::MAX,
        0 <= i < a.footer_actions().len(),
    ensures
        a.works(a.footer_actions()[i].0),
{
    let action = a.footer_actions()[i].0;
    match a.mode {
        ModeView::Browse => {
            lemma_browse_calls(a, i);
            if a.focus != Focus::List {
                lemma_doc_action_works(a, action);
            }
        },
        ModeView::CommentsList { cursor } => {
            lemma_row_action_works(a, cursor, i);
        },
        ModeView::Composing { .. } => {
            assert(a.typed('\n').input.len() == a.input.len() + 1);
        },
    }
}

/// Deleting the character just typed leaves the comment box as it was.
pub proof fn law_backspace_undoes_typing(a: AppView, c: char, w: usize)
    requires
        a.wf(),
    ensures
        a.composed(Key::Char(c), w).composed(Key::Backspace, w) == a,
{
    let typed = a.typed(c);
    assert(typed.input.remove(typed.caret - 1) =~= a.input);
}

proof fn lemma_nearest_behind(cards: Seq<Seq<usize>>, b: int)
    requires
        0 <= b,
    ensures
        match next_commented(cards, b) {
            Some(n) => {
                &&& b < n < cards.len()
                &&& cards[n].len() > 0
                &&& forall|k: int| b < k < n ==> (#[trigger] cards[k]).len() == 0
            },
            None => forall|k: int| b < k < cards.len() ==> (#[trigger] cards[k]).len() == 0,
        },
    decreases cards.len() - b,
{
    if b + 1 < cards.len() && cards[b + 1].len() == 0 {
        lemma_nearest_behind(cards, b + 1);
    }
}

proof fn lemma_nearest_before(cards: Seq<Seq<usize>>, b: int)
    ensures
        match previous_commented(cards, b) {
            Some(n) => {
                &&& 0 <= n < b
                &&& n < cards.len()
                &&& cards[n].len() > 0
                &&& forall|k: int| n < k < b && k < cards.len() ==> (#[trigger] cards[k]).len() == 0
            },
            None => forall|k: int|
                0 <= k < b && k < cards.len() ==> (#[trigger] cards[k]).len() == 0,
        },
    decreases b,
{
    if b > 0 && !(b - 1 < cards.len() && cards[b - 1].len() > 0) {
        lemma_nearest_before(cards, b - 1);
    }
}

/// A jump goes to the nearest block with a comment: its target lies behind the cursor, or before it
/// for a jump back, lists a comment, and no block strictly between the two lists one. There is no
/// target just where no block on that side lists a comment.
pub proof fn law_jumps_go_to_the_nearest_comment(a: AppView, next: bool)
    requires
        a.wf(),
        0 <= a.docs[a.focus_pane()].cursor_block,
    ensures
        ({
            let d = a.docs[a.focus_pane()];
            let lists = d.cards(a.comments);
            let at = d.cursor_block;
            match a.jump_target(next) {
                Some(b) => {
                    &&& 0 <= b < d.blocks.len()
                    &&& lists[b].len() > 0
                    &&& if next {
                        &&& at < b
                        &&& forall|k: int| at < k < b ==> (#[trigger] lists[k]).len() == 0
                    } else {
                        &&& b < at
                        &&& forall|k: int|
                            b < k < at && k < d.blocks.len() ==> (#[trigger] lists[k]).len() == 0
                    }
                },
                None => forall|k: int|
                    0 <= k < d.blocks.len() && (if next {
                        at < k
                    } else {
                        k < at
                    }) ==> (#[trigger] lists[k]).len() == 0,
            }
        }),
{
    let d = a.docs[a.focus_pane()];
    lemma_nearest_behind(d.cards(a.comments), d.cursor_block);
    lemma_nearest_before(d.cards(a.comments), d.cursor_block);
}

/// The jump keys put the cursor of the focused pane on the nearest block behind it, or before it,
/// that lists a comment; where there is none they do nothing. Nothing else changes.
pub proof fn law_jump_keys_move_the_cursor_there(a: AppView, next: bool)
    requires
        a.wf(),
        a.mode is Browse,
        a.focus != Focus::List,
        0 <= a.docs[a.focus_pane()].cursor_block,
    ensures
        ({
            let pane = a.focus_pane();
            let d = a.docs[pane];
            let lists = d.cards(a.comments);
            let (after, request) = a.browsed(
                Key::Char(
                    if next {
                        'n'
                    } else {
                        'N'
                    },
                ),
            );
            let to = after.docs[pane].cursor_block;
            let between = |k: int|
                if next {
                    d.cursor_block < k < to
                } else {
                    to < k < d.cursor_block
                };
            &&& request is None
            &&& after == (AppView { docs: after.docs, ..a })
            &&& after.docs == a.docs.update(pane, DocView { cursor_block: to, ..d })
            &&& forall|k: int|
                0 <= k < d.blocks.len() && #[trigger] between(k) ==> lists[k].len() == 0
            &&& to == d.cursor_block || (0 <= to < d.blocks.len() && lists[to].len() > 0)
            &&& if next {
                to >= d.cursor_block
            } else {
                to <= d.cursor_block
            }
            &&& to == d.cursor_block ==> forall|k: int|
                0 <= k < d.blocks.len() && (if next {
                    d.cursor_block < k
                } else {
                    k < d.cursor_block
                }) ==> (#[trigger] lists[k]).len() == 0
        }),
{
    let pane = a.focus_pane();
    let d = a.docs[pane];
    law_jumps_go_to_the_nearest_comment(a, next);
    let after = a.jumped(next);
    assert(after.docs =~= a.docs.update(
        pane,
        DocView { cursor_block: after.docs[pane].cursor_block, ..d },
    ));
}

/// Jumping to the next comment and back from there returns to a block that lists a comment, if the
/// jump started on one.
pub proof fn law_jumping_back_returns(cards: Seq<Seq<usize>>, b: int)
    requires
        0 <= b < cards.len(),
        cards[b].len() > 0,
        next_commented(cards, b) is Some,
    ensures
        previous_commented(cards, next_commented(cards, b)->0) == Some(b),
{
    lemma_nearest_behind(cards, b);
    lemma_nearest_before(cards, next_commented(cards, b)->0);
}

/// A step moves the cursor of a doc pane to the block just behind it, or just before it, and leaves
/// it where it is at the end of the document. Nothing else changes.
pub proof fn law_steps_move_one_block(a: AppView, key: Key, down: bool)
    requires
        a.wf(),
        a.mode is Browse,
        a.focus != Focus::List,
        key == if down {
            Key::Down
        } else {
            Key::Up
        } || key == Key::Char(
            if down {
                'j'
            } else {
                'k'
            },
        ),
        0 <= a.docs[a.focus_pane()].cursor_block < a.docs[a.focus_pane()].blocks.len(),
    ensures
        ({
            let pane = a.focus_pane();
            let d = a.docs[pane];
            let (after, request) = a.browsed(key);
            let to = after.docs[pane].cursor_block;
            &&& request is None
            &&& after == (AppView { docs: after.docs, ..a })
            &&& after.docs == a.docs.update(pane, DocView { cursor_block: to, ..d })
            &&& down && d.cursor_block + 1 < d.blocks.len() ==> to == d.cursor_block + 1
            &&& !down && d.cursor_block > 0 ==> to == d.cursor_block - 1
            &&& down && d.cursor_block + 1 == d.blocks.len() ==> to == d.cursor_block
            &&& !down && d.cursor_block == 0 ==> to == d.cursor_block
        }),
{
    let pane = a.focus_pane();
    let d = a.docs[pane];
    let after = a.browsed(key).0;
    assert(after.docs =~= a.docs.update(
        pane,
        DocView { cursor_block: after.docs[pane].cursor_block, ..d },
    ));
}

/// A step in the file list moves its cursor to the file just behind it, or just before it, stays at
/// the ends of the list, and asks for the file that the cursor is on then.
pub proof fn law_steps_open_the_file_they_reach(a: AppView, key: Key, down: bool)
    requires
        a.mode is Browse,
        a.focus == Focus::List,
        key == if down {
            Key::Down
        } else {
            Key::Up
        } || key == Key::Char(
            if down {
                'j'
            } else {
                'k'
            },
        ),
        0 <= a.file_cursor < a.files.len() <= usize::MAX,
    ensures
        ({
            let (after, request) = a.browsed(key);
            let to = after.file_cursor;
            &&& after == (AppView { file_cursor: to, ..a })
            &&& request matches Some(Request::Open(i)) && i == to
            &&& down && a.file_cursor + 1 < a.files.len() ==> to == a.file_cursor + 1
            &&& !down && a.file_cursor > 0 ==> to == a.file_cursor - 1
            &&& down && a.file_cursor + 1 == a.files.len() ==> to == a.file_cursor
            &&& !down && a.file_cursor == 0 ==> to == 0
        }),
{
}

/// The keys that change one thing change that thing and nothing else: to quit, to wrap lines, to
/// list the comments, to go on to the next pane and to split.
pub proof fn law_browse_keys_do_one_thing(a: AppView)
    requires
        a.mode is Browse,
    ensures
        a.browsed(Key::Char('q')) == (AppView { should_quit: true, ..a }, None::<Request>),
        a.browsed(Key::Char('w')) == (AppView { wrap: !a.wrap, ..a }, None::<Request>),
        a.browsed(Key::Char('l')) == (
            AppView { mode: ModeView::CommentsList { cursor: 0 }, ..a },
            None::<Request>,
        ),
        a.browsed(Key::Tab) == (a.focus_cycled(), None::<Request>),
        a.browsed(Key::Char('`')) == (a.split_toggled(), None::<Request>),
        a.browsed(Key::Char('s')) == (a, Some(Request::Send)),
        a.browsed(Key::Char('y')) == (a, Some(Request::Copy)),
{
}

/// The file list grows and shrinks by five hundredths of the width at a time, down to a tenth and up
/// to nine tenths, and by nothing else; growing and shrinking undo each other.
pub proof fn law_resizing_goes_in_steps(a: AppView)
    requires
        a.mode is Browse,
        10 <= a.list_pct <= 90,
    ensures
        ({
            let (wide, slim) = (a.browsed(Key::Char(']')).0, a.browsed(Key::Char('[')).0);
            &&& wide == (AppView { list_pct: wide.list_pct, ..a })
            &&& slim == (AppView { list_pct: slim.list_pct, ..a })
            &&& a.list_pct <= wide.list_pct <= 90
            &&& 10 <= slim.list_pct <= a.list_pct
            &&& wide.list_pct - a.list_pct == 5 || wide.list_pct == 90 && a.list_pct > 85
            &&& a.list_pct - slim.list_pct == 5 || slim.list_pct == 10 && a.list_pct < 15
            &&& a.list_pct <= 85 ==> wide.browsed(Key::Char('[')).0 == a
            &&& a.list_pct >= 15 ==> slim.browsed(Key::Char(']')).0 == a
        }),
{
}

/// In a focused doc pane, selecting starts at the cursor and clearing ends the selection; neither
/// touches the other pane, the cursor or the comments.
pub proof fn law_selection_keys_touch_the_selection_only(a: AppView)
    requires
        a.wf(),
        a.mode is Browse,
        a.focus != Focus::List,
        0 <= a.docs[a.focus_pane()].cursor_block <= usize::MAX,
    ensures
        ({
            let pane = a.focus_pane();
            let d = a.docs[pane];
            let at = d.cursor_block as usize;
            &&& a.browsed(Key::Char('v')) == (
                AppView { docs: a.docs.update(pane, DocView { sel_anchor: Some(at), ..d }), ..a },
                None::<Request>,
            )
            &&& a.browsed(Key::Esc) == (
                AppView { docs: a.docs.update(pane, DocView { sel_anchor: None, ..d }), ..a },
                None::<Request>,
            )
        }),
{
}

/// Deleting under the cursor takes away the first comment that the cursor block lists, and no other:
/// all others stay, in their order. Where the block lists none, nothing changes.
pub proof fn law_delete_takes_the_comment_under_the_cursor(a: AppView)
    requires
        a.wf(),
        a.mode is Browse,
        a.focus != Focus::List,
        a.comments.len() <= usize::MAX,
    ensures
        ({
            let d = a.docs[a.focus_pane()];
            let lists = d.cards(a.comments);
            let at = d.cursor_block;
            let (after, request) = a.browsed(Key::Char('d'));
            &&& request is None
            &&& after == (AppView { comments: after.comments, ..a })
            &&& if 0 <= at < lists.len() && lists[at].len() > 0 {
                let i = lists[at][0] as int;
                &&& after.comments.len() == a.comments.len() - 1
                &&& after.comments == a.comments.take(i) + a.comments.skip(i + 1)
            } else {
                after == a
            }
        }),
{
    let d = a.docs[a.focus_pane()];
    let n = a.comments.len() as int;
    pane::lemma_cards_in_range(d, a.comments, d.cursor_block, n);
    if let Some(i) = a.comment_at_cursor() {
        assert(a.comments.remove(i as int) =~= a.comments.take(i as int) + a.comments.skip(i + 1));
    }
}

/// Editing opens the comment box with the text of the first comment that the cursor block lists and
/// the caret behind it; writing opens an empty box where something is selected.
pub proof fn law_the_box_opens_on_the_right_text(a: AppView)
    requires
        a.wf(),
        a.mode is Browse,
        a.focus != Focus::List,
    ensures
        ({
            let d = a.docs[a.focus_pane()];
            let lists = d.cards(a.comments);
            let at = d.cursor_block;
            let edit = a.browsed(Key::Char('e')).0;
            let write = a.browsed(Key::Char('c')).0;
            &&& if 0 <= at < lists.len() && lists[at].len() > 0 {
                let c = a.comments[lists[at][0] as int];
                edit == (AppView {
                    mode: ModeView::Composing { editing: Some(c.id) },
                    input: c.comment.text,
                    caret: c.comment.text.len() as int,
                    ..a
                })
            } else {
                edit == a
            }
            &&& if d.anchor() is Some {
                write == (AppView {
                    mode: ModeView::Composing { editing: None },
                    input: Seq::empty(),
                    caret: 0,
                    ..a
                })
            } else {
                write == a
            }
        }),
{
}

/// In the comments list a step highlights the row just below, or just above, and stays at the ends;
/// the comments stay as they are.
pub proof fn law_list_steps_move_one_row(a: AppView, cursor: int, key: Key, down: bool)
    requires
        0 <= cursor < a.comments.len(),
        key == if down {
            Key::Down
        } else {
            Key::Up
        } || key == Key::Char(
            if down {
                'j'
            } else {
                'k'
            },
        ),
    ensures
        exists|to: int|
            {
                &&& a.listed(cursor, key) == (#[trigger] a.list_at(to), None::<Request>)
                &&& down && cursor + 1 < a.comments.len() ==> to == cursor + 1
                &&& !down && cursor > 0 ==> to == cursor - 1
                &&& down && cursor + 1 == a.comments.len() ==> to == cursor
                &&& !down && cursor == 0 ==> to == 0
                &&& a.list_at(to) == (AppView {
                    mode: ModeView::CommentsList { cursor: to },
                    ..a
                })
            },
{
    let to = stepped_row(cursor, a.comments.len(), down);
    assert(a.listed(cursor, key) == (a.list_at(to), None::<Request>));
}

/// The keys of the comments list act on the highlighted comment and on no other: deleting takes it
/// away and leaves a row highlighted that is there, if any is; resolving turns its status round and
/// nothing else about it; editing opens its text.
pub proof fn law_list_keys_act_on_the_highlighted_comment(a: AppView, cursor: int)
    requires
        0 <= cursor < a.comments.len(),
    ensures
        ({
            let c = a.comments[cursor];
            let gone = a.listed(cursor, Key::Char('d')).0;
            let done = a.listed(cursor, Key::Char('x')).0;
            let open = a.listed(cursor, Key::Char('e')).0;
            &&& gone.comments == a.comments.take(cursor) + a.comments.skip(cursor + 1)
            &&& gone == (AppView { comments: gone.comments, mode: gone.mode, ..a })
            &&& gone.mode matches ModeView::CommentsList { cursor: at } && 0 <= at && (
            gone.comments.len() > 0 ==> at < gone.comments.len()) && (cursor
                < gone.comments.len() ==> at == cursor)
            &&& done == (AppView { comments: done.comments, ..a })
            &&& done.comments.len() == a.comments.len()
            &&& forall|i: int|
                0 <= i < a.comments.len() && i != cursor ==> #[trigger] done.comments[i]
                    == a.comments[i]
            &&& done.comments[cursor] == (StoredView { status: done.comments[cursor].status, ..c })
            &&& done.comments[cursor].status != c.status
            &&& open == (AppView {
                mode: ModeView::Composing { editing: Some(c.id) },
                input: c.comment.text,
                caret: c.comment.text.len() as int,
                ..a
            })
        }),
{
    assert(a.comments.remove(cursor) =~= a.comments.take(cursor) + a.comments.skip(cursor + 1));
}

/// The comments list closes on its own key, on the key that quits and on escape, and changes nothing
/// else.
pub proof fn law_list_closes(a: AppView, cursor: int, key: Key)
    requires
        key == Key::Esc || key == Key::Char('l') || key == Key::Char('q'),
    ensures
        a.listed(cursor, key) == (AppView { mode: ModeView::Browse, ..a }, None::<Request>),
{
}

/// A character that is typed stands at the caret, which goes behind it; what stood before and behind
/// the caret stays.
pub proof fn law_typing_inserts_at_the_caret(a: AppView, key: Key, c: char, w: usize)
    requires
        a.wf(),
        key == Key::Char(c) || (key == Key::Newline && c == '\n'),
    ensures
        ({
            let after = a.composed(key, w);
            &&& after.input == a.input.take(a.caret) + seq![c] + a.input.skip(a.caret)
            &&& after.caret == a.caret + 1
            &&& after == (AppView { input: after.input, caret: after.caret, ..a })
        }),
{
    assert(a.input.insert(a.caret, c) =~= a.input.take(a.caret) + seq![c] + a.input.skip(a.caret));
}

proof fn lemma_line_home(s: Seq<char>, n: int)
    requires
        0 <= n <= s.len(),
    ensures
        0 <= line_home(s, n) <= n,
        line_home(s, n) == 0 || s[line_home(s, n) - 1] == '\n',
        forall|i: int| line_home(s, n) <= i < n ==> #[trigger] s[i] != '\n',
    decreases n,
{
    if n > 0 && s[n - 1] != '\n' {
        lemma_line_home(s, n - 1);
    }
}

/// The caret keys move the caret and leave the text alone: one character to either side, to the
/// start of its line or to the end of its line, never over a line feed for the latter two.
pub proof fn law_caret_keys_keep_the_text(a: AppView, w: usize)
    requires
        a.wf(),
    ensures
        ({
            let left = a.composed(Key::Left, w);
            let right = a.composed(Key::Right, w);
            let home = a.composed(Key::Home, w);
            let end = a.composed(Key::End, w);
            &&& left == (AppView { caret: left.caret, ..a })
            &&& right == (AppView { caret: right.caret, ..a })
            &&& home == (AppView { caret: home.caret, ..a })
            &&& end == (AppView { caret: end.caret, ..a })
            &&& a.caret > 0 ==> left.caret == a.caret - 1
            &&& a.caret == 0 ==> left.caret == 0
            &&& a.caret < a.input.len() ==> right.caret == a.caret + 1
            &&& a.caret == a.input.len() ==> right.caret == a.caret
            &&& 0 <= home.caret <= a.caret
            &&& home.caret == 0 || a.input[home.caret - 1] == '\n'
            &&& forall|i: int| home.caret <= i < a.caret ==> #[trigger] a.input[i] != '\n'
            &&& a.caret <= end.caret <= a.input.len()
            &&& end.caret == a.input.len() || a.input[end.caret] == '\n'
            &&& forall|i: int| a.caret <= i < end.caret ==> #[trigger] a.input[i] != '\n'
        }),
{
    lemma_line_home(a.input, a.caret);
    text::lemma_line_end(a.input, a.caret);
}

/// The word keys move the caret and leave the text alone: to the left over white space and one word
/// to its start, to the right over white space and one word to its end.
pub proof fn law_word_keys_go_over_one_word(a: AppView, w: usize)
    requires
        a.wf(),
    ensures
        ({
            let left = a.composed(Key::WordLeft, w);
            let right = a.composed(Key::WordRight, w);
            &&& left == (AppView { caret: left.caret, ..a })
            &&& right == (AppView { caret: right.caret, ..a })
            &&& exists|b: int| #[trigger] is_word(a.input, left.caret, b) && b <= a.caret && is_gap(
                a.input,
                b,
                a.caret,
            ) && (left.caret == b ==> b == 0)
            &&& left.caret == 0 || text::white_space(a.input[left.caret - 1])
            &&& exists|b: int| #[trigger] is_word(a.input, b, right.caret) && a.caret <= b && is_gap(
                a.input,
                a.caret,
                b,
            ) && (right.caret == b ==> b == a.input.len())
            &&& right.caret == a.input.len() || text::white_space(a.input[right.caret])
        }),
{
    law_word_jumps_land_on_word_edges(a.input, a.caret);
    let b = behind_text(a.input, a.caret);
    let c = offsets::white_run(a.input, a.caret, a.input.len() as int);
    assert(is_word(a.input, word_start(a.input, a.caret), b));
    assert(is_word(a.input, c, word_stop(a.input, a.caret)));
}

/// Whether `s[a..b]` holds no white space.
pub open spec fn is_word(s: Seq<char>, a: int, b: int) -> bool {
    0 <= a <= b <= s.len() && forall|i: int| a <= i < b ==> !text::white_space(#[trigger] s[i])
}

/// Whether `s[a..b]` is nothing but white space.
pub open spec fn is_gap(s: Seq<char>, a: int, b: int) -> bool {
    0 <= a <= b <= s.len() && forall|i: int| a <= i < b ==> text::white_space(#[trigger] s[i])
}

/// Each key that deletes takes away what lies between the caret and where the matching caret key
/// would have gone, and leaves the caret there.
pub proof fn law_deleting_takes_what_the_caret_would_pass(a: AppView, w: usize)
    requires
        a.wf(),
    ensures
        ({
            let cut = |from: int, to: int|
                AppView { input: a.input.take(from) + a.input.skip(to), caret: from, ..a };
            &&& a.composed(Key::Backspace, w) == cut(a.composed(Key::Left, w).caret, a.caret)
            &&& a.composed(Key::DeleteWord, w) == cut(a.composed(Key::WordLeft, w).caret, a.caret)
            &&& a.composed(Key::DeleteToStart, w) == cut(a.composed(Key::Home, w).caret, a.caret)
            &&& a.composed(Key::DeleteToEnd, w) == cut(a.caret, a.composed(Key::End, w).caret)
        }),
{
    if a.caret > 0 {
        assert(a.input.remove(a.caret - 1) =~= a.input.take(a.caret - 1) + a.input.skip(a.caret));
    } else {
        assert(a.input =~= a.input.take(0) + a.input.skip(0));
    }
}

/// Cancelling closes the comment box and drops what is in it; comments, panes and selection stay.
pub proof fn law_cancelling_keeps_all_but_the_box(a: AppView, w: usize)
    ensures
        ({
            let after = a.composed(Key::Esc, w);
            &&& after.mode is Browse
            &&& after.input.len() == 0
            &&& after == (AppView {
                mode: after.mode,
                input: after.input,
                caret: after.caret,
                ..a
            })
        }),
{
}

/// Saving an edit gives the edited comment the text of the box and changes nothing else about any
/// comment; saving a new comment adds one behind the others, by the user, open, on the file and the
/// lines of the selection, with the text of the box. The box closes and the selection ends.
pub proof fn law_saving_puts_the_text_where_it_belongs(
    a: AppView,
    editing: Option<Seq<char>>,
    w: usize,
    after: AppView,
    request: Option<Request>,
)
    requires
        a.wf(),
        a.comments.len() <= usize::MAX,
        a.mode == (ModeView::Composing { editing }),
        a.keyed(Key::Enter, w, after, request),
    ensures
        ({
            let d = a.docs[a.focus_pane()];
            let n = a.comments.len() as int;
            let is_edit = editing matches Some(id) && exists|i: int|
                0 <= i < n && (#[trigger] a.comments[i]).id == id;
            &&& request is None
            &&& is_edit ==> {
                &&& after.comments.len() == n
                &&& exists|i: int|
                    0 <= i < n && (#[trigger] a.comments[i]).id == editing->0
                        && after.comments[i].comment.text == a.input && forall|k: int|
                        0 <= k < n ==> {
                            let (x, y) = (a.comments[k], #[trigger] after.comments[k]);
                            &&& y.id == x.id && y.author == x.author && y.status == x.status
                            &&& y.created_at == x.created_at && y.comment.file == x.comment.file
                            &&& y.comment.start == x.comment.start
                            &&& y.comment.end == x.comment.end
                            &&& y.comment.lines == x.comment.lines
                            &&& k != i ==> y == x
                        }
            }
            &&& !is_edit && d.anchor() is Some ==> {
                let new = after.comments[n];
                &&& after.comments.len() == n + 1
                &&& forall|k: int| 0 <= k < n ==> #[trigger] after.comments[k] == a.comments[k]
                &&& new.author == Author::User && new.status == Status::Open
                &&& new.comment.text == a.input
                &&& new.comment.file == d.file()
                &&& (new.comment.start, new.comment.end, new.comment.lines) == d.anchor()->0
                &&& forall|k: int| 0 <= k < n ==> (#[trigger] a.comments[k]).id != new.id
            }
            &&& !is_edit && d.anchor() is None ==> after == a
            &&& is_edit || d.anchor() is Some ==> {
                &&& after.mode is Browse && after.input.len() == 0
                &&& after.docs == a.docs.update(a.focus_pane(), DocView { sel_anchor: None, ..d })
                &&& after == (AppView {
                    mode: after.mode,
                    input: after.input,
                    caret: after.caret,
                    docs: after.docs,
                    comments: after.comments,
                    ..a
                })
            }
        }),
{
    let n = a.comments.len() as int;
    let is_edit = editing matches Some(id) && exists|i: int|
        0 <= i < n && (#[trigger] a.comments[i]).id == id;
    if let Some(id) = editing {
        model::law_index_of_finds_the_first(a.comments, id);
        if let Some(i) = model::position_of(a.comments, id) {
            assert(a.comments[i as int].id == id);
        }
    }
    if !is_edit && a.docs[a.focus_pane()].anchor() is Some {
        assert(a.added(after));
        model::law_index_of_finds_the_first(a.comments, after.comments[n].id);
        assert forall|k: int| 0 <= k < n implies #[trigger] after.comments[k] == a.comments[k] by {
            assert(after.comments.take(n)[k] == after.comments[k]);
        }
    }
}

/// A comment that was just written can be read where it was written: it shares a line with each
/// selected block, so that the pane lists it under one of the blocks of the document.
pub proof fn law_a_written_comment_is_shown(d: DocView, c: StoredView, b: int)
    requires
        d.selection().0 <= b <= d.selection().1,
        0 <= b < d.blocks.len(),
        d.blocks[b].source_start <= d.blocks[b].source_end,
        d.anchor() is Some,
        (c.comment.start, c.comment.end, c.comment.lines) == d.anchor()->0,
    ensures
        pane::share_a_line(d.blocks[b], c),
{
    pane::law_anchor_spans_the_selection(d, b);
    assert(pane::on_line(d.blocks[b], d.blocks[b].source_start));
}

/// Keys without a meaning do nothing: any other than the keys of the mode leaves the session as it
/// is and asks for nothing, and the keys of a doc pane do nothing while the file list has the focus.
pub proof fn law_other_keys_do_nothing(a: AppView, key: Key, cursor: int, w: usize)
    ensures
        ({
            let anywhere = key == Key::Char('q') || key == Key::Tab || key == Key::Char('`') || key
                == Key::Char('w') || key == Key::Char(']') || key == Key::Char('[') || key
                == Key::Char('l') || key == Key::Char('s') || key == Key::Char('y') || key
                == Key::Char('j') || key == Key::Down || key == Key::Char('k') || key == Key::Up;
            let in_pane = key == Key::Char('v') || key == Key::Esc || key == Key::Char('c') || key
                == Key::Char('e') || key == Key::Char('d') || key == Key::Char('n') || key
                == Key::Char('N');
            let in_list = key == Key::Char('j') || key == Key::Down || key == Key::Char('k') || key
                == Key::Up || key == Key::Char('e') || key == Key::Char('d') || key == Key::Char(
                'x',
            ) || key == Key::Char('s') || key == Key::Char('y') || key == Key::Esc || key
                == Key::Char('l') || key == Key::Char('q');
            &&& !anywhere && (!in_pane || a.focus == Focus::List) ==> a.browsed(key) == (
                a,
                None::<Request>,
            )
            &&& !in_list ==> a.listed(cursor, key) == (a, None::<Request>)
            &&& key == Key::Tab || key == Key::Enter ==> a.composed(key, w) == a
        }),
{
}

/// In the comments list sending and copying are asked for as while browsing.
pub proof fn law_the_list_sends_and_copies(a: AppView, cursor: int)
    ensures
        a.listed(cursor, Key::Char('s')) == (a, Some(Request::Send)),
        a.listed(cursor, Key::Char('y')) == (a, Some(Request::Copy)),
{
}

/// Up and down move the caret to the row of the comment box above or below it, and leave the text
/// alone.
pub proof fn law_vertical_keys_move_the_caret_by_rows(a: AppView, w: usize, down: bool)
    requires
        a.wf(),
    ensures
        ({
            let after = a.composed(
                if down {
                    Key::Down
                } else {
                    Key::Up
                },
                w,
            );
            let rows = composer::box_from(
                a.input,
                0,
                if w == 0 {
                    1
                } else {
                    w as nat
                },
            );
            let (row, _) = composer::caret_cell(rows, a.caret);
            let (to, _) = composer::caret_cell(rows, after.caret);
            &&& after == (AppView { caret: after.caret, ..a })
            &&& 0 <= after.caret <= a.input.len()
            &&& to == if down {
                if row + 1 < rows.len() {
                    row + 1
                } else {
                    row
                }
            } else {
                if row > 0 {
                    row - 1
                } else {
                    row
                }
            }
        }),
{
    composer::law_caret_keeps_its_column(a.input, composer::wrap_width(w), a.caret, down);
    composer::law_caret_stands_on_the_last_row_it_can(
        a.input,
        composer::wrap_width(w),
        a.caret,
    );
}

} // verus!
