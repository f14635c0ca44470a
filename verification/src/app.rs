//! The state of a session.
//!
//! Everything here is free of the terminal: the surroundings hand in keys and paint what they
//! lead to.
use crate::comments;
use crate::comments::{Author, Status, StoredView};
use crate::docview;
use crate::file_list;
use crate::file_list::{FileEntry, FileView};
use crate::markdown;
use crate::markdown::{BlockView, Document};
use crate::model;
use crate::model::{Comment, CommentStore, CommentView};
use crate::pane;
use crate::pane::{DocPane, DocView};
use vstd::prelude::*;

verus! {

/// Which pane takes the keys.
#[derive(Clone, Copy, Debug, PartialEq, Eq, Structural)]
pub enum Focus {
    List,
    DocA,
    DocB,
}

/// What the session is busy with.
#[derive(Clone, Debug, PartialEq, Eq)]
pub enum Mode {
    Browse,
    /// A comment is being written; `editing` holds the id of the comment that is edited.
    Composing { editing: Option<String> },
    /// The list of all comments is open, with a row highlighted.
    CommentsList { cursor: usize },
}

/// What the session is busy with.
pub enum ModeView {
    Browse,
    Composing { editing: Option<Seq<char>> },
    CommentsList { cursor: int },
}

impl View for Mode {
    type V = ModeView;

    open spec fn view(&self) -> ModeView {
        match *self {
            Mode::Browse => ModeView::Browse,
            Mode::Composing { editing } => ModeView::Composing {
                editing: match editing {
                    Some(id) => Some(id@),
                    None => None,
                },
            },
            Mode::CommentsList { cursor } => ModeView::CommentsList { cursor: cursor as int },
        }
    }
}

/// The full state of the viewer session.
#[derive(Debug)]
pub struct App {
    /// The markdown files of the worktree, newest first.
    pub files: Vec<FileEntry>,
    pub file_cursor: usize,
    pub file_scroll: usize,
    /// The two doc panes; the second one shows while split.
    pub docs: Vec<DocPane>,
    pub split: bool,
    pub focus: Focus,
    pub comments: CommentStore,
    /// The percentage of the width that the file list takes.
    pub list_pct: u16,
    /// Whether long lines wrap.
    pub wrap: bool,
    pub mode: Mode,
    /// The text in the comment box, and the character index of its caret.
    pub input: String,
    pub caret: usize,
    /// Whether the divider between the panes is being dragged.
    pub resizing: bool,
    /// Set once the user has asked to quit.
    pub should_quit: bool,
}

/// The state of a session.
#[verifier::ext_equal]
pub struct AppView {
    pub files: Seq<FileView>,
    pub file_cursor: int,
    pub file_scroll: int,
    pub docs: Seq<DocView>,
    pub split: bool,
    pub focus: Focus,
    pub comments: Seq<StoredView>,
    pub list_pct: u16,
    pub wrap: bool,
    pub mode: ModeView,
    pub input: Seq<char>,
    pub caret: int,
    pub resizing: bool,
    pub should_quit: bool,
}

impl View for App {
    type V = AppView;

    open spec fn view(&self) -> AppView {
        AppView {
            files: file_list::files_view(self.files@),
            file_cursor: self.file_cursor as int,
            file_scroll: self.file_scroll as int,
            docs: pane::docs_view(self.docs@),
            split: self.split,
            focus: self.focus,
            comments: self.comments@,
            list_pct: self.list_pct,
            wrap: self.wrap,
            mode: self.mode@,
            input: self.input@,
            caret: self.caret as int,
            resizing: self.resizing,
            should_quit: self.should_quit,
        }
    }
}

/// An action that the footer offers.
#[derive(Clone, Copy, Debug, PartialEq, Eq, Structural)]
pub enum FooterAction {
    Comment,
    Select,
    ClearSelection,
    EditComment,
    DeleteComment,
    JumpComment,
    CycleFocus,
    Send,
    List,
    Copy,
    Split,
    Save,
    Newline,
    Cancel,
    CloseList,
    ResolveComment,
    Quit,
}

/// How much an action matters in its context.
#[derive(Clone, Copy, Debug, PartialEq, Eq, Structural)]
pub enum Tier {
    Primary,
    Normal,
    Orientation,
}

/// The pane that the focus goes to next: file list, doc A, doc B while split, and back to the
/// file list.
pub open spec fn next_focus(focus: Focus, split: bool) -> Focus {
    match focus {
        Focus::List => Focus::DocA,
        Focus::DocA => if split {
            Focus::DocB
        } else {
            Focus::List
        },
        Focus::DocB => Focus::List,
    }
}

/// The pane that the focus goes to next.
pub fn focus_after(focus: Focus, split: bool) -> (r: Focus)
    ensures
        r == next_focus(focus, split),
{
    match focus {
        Focus::List => Focus::DocA,
        Focus::DocA => if split {
            Focus::DocB
        } else {
            Focus::List
        },
        Focus::DocB => Focus::List,
    }
}

impl AppView {
    /// Whether there are two panes, the file list takes no more than the width, and the caret
    /// is in the input.
    pub open spec fn wf(self) -> bool {
        &&& self.docs.len() == 2
        &&& self.list_pct <= 100
        &&& 0 <= self.caret <= self.input.len()
        &&& self.mode matches ModeView::CommentsList { cursor } ==> 0 <= cursor
    }

    /// The doc pane that keys act on: the second while it has the focus, else the first.
    pub open spec fn focus_pane(self) -> int {
        if self.focus == Focus::DocB {
            1
        } else {
            0
        }
    }

    /// The session with `d` in pane `pane`.
    pub open spec fn with_doc(self, pane: int, d: DocView) -> AppView {
        AppView { docs: self.docs.update(pane, d), ..self }
    }

    /// The session with the document of `source`, whose blocks are `blocks`, opened in pane `pane`
    /// under `path`: from its top, with nothing selected.
    pub open spec fn loaded(
        self,
        pane: int,
        path: Option<Seq<char>>,
        source: Seq<char>,
        blocks: Seq<BlockView>,
    ) -> AppView {
        self.with_doc(
            pane,
            DocView { path, source, blocks, cursor_block: 0, sel_anchor: None, scroll: 0 },
        )
    }

    /// One rendered doc, or two side by side. The focus leaves a pane that goes away.
    pub open spec fn split_toggled(self) -> AppView {
        AppView {
            split: !self.split,
            focus: if self.split && self.focus == Focus::DocB {
                Focus::DocA
            } else {
                self.focus
            },
            ..self
        }
    }

    /// The focus one pane on.
    pub open spec fn focus_cycled(self) -> AppView {
        AppView { focus: next_focus(self.focus, self.split), ..self }
    }

    /// Where a comment on the selection of the focused pane belongs, where it has a file.
    pub open spec fn pending_location(self) -> Option<Seq<char>> {
        let d = self.docs[self.focus_pane()];
        match (d.path, d.anchor()) {
            (Some(file), Some((start, end, lines))) => Some(
                (CommentView { file, start, end, lines, text: Seq::empty() }).location(),
            ),
            _ => None,
        }
    }

    /// The first comment shown under the cursor block of the focused pane.
    pub open spec fn comment_at_cursor(self) -> Option<usize> {
        let d = self.docs[self.focus_pane()];
        let here = d.cards_at(self.comments, d.cursor_block, self.comments.len() as int);
        if 0 <= d.cursor_block < d.blocks.len() && here.len() > 0 {
            Some(here[0])
        } else {
            None
        }
    }

    /// The actions that the footer offers right now, the most relevant first: those whose keys
    /// work.
    pub open spec fn footer_actions(self) -> Seq<(FooterAction, Tier)> {
        match self.mode {
            ModeView::Composing { .. } => seq![
                (FooterAction::Save, Tier::Primary),
                (FooterAction::Newline, Tier::Normal),
                (FooterAction::Cancel, Tier::Normal),
            ],
            ModeView::CommentsList { cursor } => self.row_actions(cursor) + self.sending_actions()
                + seq![(FooterAction::CloseList, Tier::Normal)],
            ModeView::Browse => self.pane_actions() + self.sending_actions()
                + self.listing_actions() + seq![
                (FooterAction::CycleFocus, Tier::Orientation),
                (FooterAction::Split, Tier::Orientation),
                (FooterAction::Quit, Tier::Orientation),
            ],
        }
    }

    /// The actions on the highlighted row of the comments list.
    pub open spec fn row_actions(self, cursor: int) -> Seq<(FooterAction, Tier)> {
        if cursor < self.comments.len() {
            seq![
                (FooterAction::EditComment, Tier::Primary),
                (FooterAction::DeleteComment, Tier::Normal),
                (FooterAction::ResolveComment, Tier::Normal),
            ]
        } else {
            Seq::empty()
        }
    }

    /// The actions of a focused doc pane: to comment where there is something to comment on, to
    /// select where there is a block, to edit and delete where there is a comment under the
    /// cursor, and to jump where there is a comment to jump to.
    pub open spec fn pane_actions(self) -> Seq<(FooterAction, Tier)> {
        let d = self.docs[self.focus_pane()];
        if self.focus == Focus::List {
            Seq::empty()
        } else {
            (if d.anchor() is Some {
                seq![(FooterAction::Comment, Tier::Primary)]
            } else {
                Seq::empty()
            }) + (if d.sel_anchor is Some {
                seq![(FooterAction::ClearSelection, Tier::Normal)]
            } else if d.blocks.len() > 0 {
                seq![(FooterAction::Select, Tier::Normal)]
            } else {
                Seq::empty()
            }) + (if self.comment_at_cursor() is Some {
                seq![
                    (FooterAction::EditComment, Tier::Normal),
                    (FooterAction::DeleteComment, Tier::Normal),
                ]
            } else {
                Seq::empty()
            }) + (if self.jump_target(true) is Some || self.jump_target(false) is Some {
                seq![(FooterAction::JumpComment, Tier::Normal)]
            } else {
                Seq::empty()
            })
        }
    }

    /// The actions that deliver comments, where there are any to deliver.
    pub open spec fn sending_actions(self) -> Seq<(FooterAction, Tier)> {
        if model::sendable_of(self.comments).len() > 0 {
            seq![(FooterAction::Send, Tier::Normal), (FooterAction::Copy, Tier::Normal)]
        } else {
            Seq::empty()
        }
    }

    /// The action that lists the comments, where there are any.
    pub open spec fn listing_actions(self) -> Seq<(FooterAction, Tier)> {
        if self.comments.len() > 0 {
            seq![(FooterAction::List, Tier::Normal)]
        } else {
            Seq::empty()
        }
    }
}

/// Whether `new` is `old` with one more comment at its end: open, by the user, with a fresh
/// id and time, saying `c`.
pub open spec fn comment_added(old: Seq<StoredView>, new: Seq<StoredView>, c: CommentView) -> bool {
    let n = old.len() as int;
    &&& new.len() == n + 1
    &&& new.take(n) == old
    &&& new[n].comment == c
    &&& new[n].author == Author::User
    &&& new[n].status == Status::Open
    &&& model::is_new_id(old, new[n].id)
    &&& model::position_of(old, new[n].id) is None
    &&& comments::is_stamp(new[n].created_at)
}

impl Default for App {
    fn default() -> (r: App)
        ensures
            r@.wf(),
            r@.files.len() == 0,
            r@.file_cursor == 0,
            r@.file_scroll == 0,
            forall|p: int|
                0 <= p < 2 ==> (#[trigger] r@.docs[p]) == (DocView {
                    path: None,
                    source: Seq::empty(),
                    blocks: Seq::empty(),
                    cursor_block: 0,
                    sel_anchor: None,
                    scroll: 0,
                }),
            !r@.split,
            r@.focus == Focus::List,
            r@.comments.len() == 0,
            r@.list_pct == 30,
            r@.wrap,
            r@.mode == ModeView::Browse,
            r@.input.len() == 0,
            r@.caret == 0,
            !r@.resizing,
            !r@.should_quit,
    {
        App {
            files: Vec::new(),
            file_cursor: 0,
            file_scroll: 0,
            docs: vec![DocPane::empty(), DocPane::empty()],
            split: false,
            focus: Focus::List,
            comments: CommentStore::new(),
            list_pct: 30,
            wrap: true,
            mode: Mode::Browse,
            input: String::new(),
            caret: 0,
            resizing: false,
            should_quit: false,
        }
    }
}

impl App {
    /// The selected blocks of `pane`, both ends included, in order.
    pub fn selection_range(&self, pane: usize) -> (r: (usize, usize))
        requires
            pane < self@.docs.len(),
        ensures
            (r.0 as int, r.1 as int) == self@.docs[pane as int].selection(),
            r.0 <= r.1,
    {
        self.docs[pane].selection()
    }

    /// What a comment on the selection of `pane` anchors to: the first and the last source line
    /// of the selected blocks, and the verbatim source between them.
    pub fn anchor(&self, pane: usize) -> (r: Option<(u32, u32, String)>)
        requires
            pane < self@.docs.len(),
        ensures
            match r {
                Some((start, end, lines)) => self@.docs[pane as int].anchor() == Some(
                    (start, end, lines@),
                ),
                None => self@.docs[pane as int].anchor() is None,
            },
    {
        self.docs[pane].anchor()
    }

    /// The doc pane that keys act on.
    pub fn focus_pane(&self) -> (r: usize)
        ensures
            r == self@.focus_pane(),
            r < 2,
    {
        if self.focus == Focus::DocB {
            1
        } else {
            0
        }
    }

    /// Move the cursor of `pane` by `delta` blocks, inside its document.
    pub fn move_cursor(&mut self, pane: usize, delta: i64)
        requires
            pane < old(self)@.docs.len(),
        ensures
            final(self)@ == old(self)@.with_doc(
                pane as int,
                old(self)@.docs[pane as int].moved(delta as int),
            ),
    {
        self.docs[pane].move_by(delta);
        assert(self@ =~= old(self)@.with_doc(
            pane as int,
            old(self)@.docs[pane as int].moved(delta as int),
        ));
    }

    /// Start a selection at the cursor block of `pane`.
    pub fn start_selection(&mut self, pane: usize)
        requires
            pane < old(self)@.docs.len(),
        ensures
            final(self)@ == old(self)@.with_doc(
                pane as int,
                old(self)@.docs[pane as int].selecting(),
            ),
    {
        self.docs[pane].sel_anchor = Some(self.docs[pane].cursor_block);
        assert(self@ =~= old(self)@.with_doc(
            pane as int,
            old(self)@.docs[pane as int].selecting(),
        ));
    }

    /// Extend the selection of `pane` by `delta` blocks, starting one where there is none.
    pub fn extend_selection(&mut self, pane: usize, delta: i64)
        requires
            pane < old(self)@.docs.len(),
        ensures
            final(self)@ == old(self)@.with_doc(
                pane as int,
                ({
                    let d = old(self)@.docs[pane as int];
                    if d.sel_anchor is Some {
                        d.moved(delta as int)
                    } else {
                        d.selecting().moved(delta as int)
                    }
                }),
            ),
            final(self)@ == old(self)@.with_doc(
                pane as int,
                old(self)@.docs[pane as int].extended(delta as int),
            ),
    {
        if self.docs[pane].sel_anchor.is_none() {
            self.start_selection(pane);
        }
        self.move_cursor(pane, delta);
        assert(self@ =~= old(self)@.with_doc(
            pane as int,
            ({
                let d = old(self)@.docs[pane as int];
                if d.sel_anchor is Some {
                    d.moved(delta as int)
                } else {
                    d.selecting().moved(delta as int)
                }
            }),
        ));
    }

    /// Clear the selection of `pane`.
    pub fn clear_selection(&mut self, pane: usize)
        requires
            pane < old(self)@.docs.len(),
        ensures
            final(self)@ == old(self)@.with_doc(
                pane as int,
                old(self)@.docs[pane as int].cleared(),
            ),
    {
        self.docs[pane].sel_anchor = None;
        assert(self@ =~= old(self)@.with_doc(pane as int, old(self)@.docs[pane as int].cleared()));
    }

    /// Toggle between one rendered doc and two side by side.
    pub fn toggle_split(&mut self)
        ensures
            final(self)@ == old(self)@.split_toggled(),
    {
        if self.split && self.focus == Focus::DocB {
            self.focus = Focus::DocA;
        }
        self.split = !self.split;
    }

    /// Move the focus one pane on.
    pub fn cycle_focus(&mut self)
        ensures
            final(self)@ == old(self)@.focus_cycled(),
    {
        self.focus = focus_after(self.focus, self.split);
    }

    /// Show `doc` in `pane` under `path`, from its top.
    pub fn load(&mut self, pane: usize, path: Option<String>, doc: Document)
        requires
            pane < old(self)@.docs.len(),
        ensures
            final(self)@ == old(self)@.with_doc(
                pane as int,
                (DocPane { path, doc, cursor_block: 0, sel_anchor: None, scroll: 0 })@,
            ),
            final(self)@ == old(self)@.loaded(
                pane as int,
                match path {
                    Some(p) => Some(p@),
                    None => None,
                },
                doc.source@,
                markdown::blocks_view(doc.blocks@),
            ),
    {
        let fresh: DocPane = DocPane { path, doc, cursor_block: 0, sel_anchor: None, scroll: 0 };
        self.docs.set(pane, fresh);
        assert(self@ =~= old(self)@.with_doc(pane as int, fresh@));
    }

    /// Write a comment on the selection of `pane`. Returns whether there was anything to comment
    /// on.
    pub fn add_comment(&mut self, pane: usize, text: String) -> (r: bool)
        requires
            pane < old(self)@.docs.len(),
        ensures
            r == (old(self)@.docs[pane as int].anchor() is Some),
            !r ==> final(self)@ == old(self)@,
            r ==> {
                let d = old(self)@.docs[pane as int];
                let (start, end, lines) = d.anchor()->0;
                &&& final(self)@ == (AppView { comments: final(self)@.comments, ..old(self)@ })
                &&& comment_added(
                    old(self)@.comments,
                    final(self)@.comments,
                    (CommentView { file: d.file(), start, end, lines, text: text@ }),
                )
            },
    {
        match self.docs[pane].anchor() {
            None => false,
            Some((start, end, lines)) => {
                let comment: Comment = Comment {
                    file: self.docs[pane].file(),
                    start,
                    end,
                    lines,
                    text,
                };
                let _index: usize = self.comments.add(comment);
                true
            },
        }
    }

    /// Where a comment on the selection of the focused pane belongs.
    pub fn pending_location(&self) -> (r: Option<String>)
        requires
            self@.docs.len() == 2,
        ensures
            match r {
                Some(location) => self@.pending_location() == Some(location@),
                None => self@.pending_location() is None,
            },
    {
        let pane: &DocPane = &self.docs[self.focus_pane()];
        match (&pane.path, pane.anchor()) {
            (Some(path), Some((start, end, lines))) => {
                let comment: Comment = Comment {
                    file: path.clone(),
                    start,
                    end,
                    lines,
                    text: String::new(),
                };
                assert(comment@ == (CommentView {
                    file: path@,
                    start,
                    end,
                    lines: lines@,
                    text: Seq::empty(),
                }));
                Some(comment.location())
            },
            _ => None,
        }
    }

    /// For each block of `pane`, the indices of the comments shown under it.
    pub fn comment_cards(&self, pane: usize) -> (r: Vec<Vec<usize>>)
        requires
            pane < self@.docs.len(),
        ensures
            docview::lists_view(r@) == self@.docs[pane as int].cards(self@.comments),
    {
        self.docs[pane].card_lists(&self.comments)
    }

    /// The first comment shown under the cursor block of the focused pane.
    pub fn comment_at_cursor(&self) -> (r: Option<usize>)
        requires
            self@.docs.len() == 2,
        ensures
            r == self@.comment_at_cursor(),
            r matches Some(i) ==> i < self@.comments.len(),
    {
        let pane: usize = self.focus_pane();
        let lists: Vec<Vec<usize>> = self.comment_cards(pane);
        let at: usize = self.docs[pane].cursor_block;
        let _total: usize = self.comments.len();
        proof {
            pane::lemma_cards_in_range(
                self@.docs[pane as int],
                self@.comments,
                at as int,
                self@.comments.len() as int,
            );
        }
        assert(lists@.len() == docview::lists_view(lists@).len());
        if at < lists.len() {
            assert(docview::lists_view(lists@)[at as int] == lists@[at as int]@);
            if lists[at].len() > 0 {
                return Some(lists[at][0]);
            }
        }
        None
    }

    /// The actions of a focused doc pane.
    fn pane_footer(&self) -> (out: Vec<(FooterAction, Tier)>)
        requires
            self@.docs.len() == 2,
        ensures
            out@ == self@.pane_actions(),
    {
        let mut out: Vec<(FooterAction, Tier)> = Vec::new();
        if self.focus != Focus::List {
            let pane: usize = self.focus_pane();
            let ghost d = self@.docs[pane as int];
            assert(d == self.docs@[pane as int]@);
            assert(d.blocks.len() == self.docs@[pane as int].doc.blocks@.len());
            if self.anchor(pane).is_some() {
                out.push((FooterAction::Comment, Tier::Primary));
            }
            if self.docs[pane].sel_anchor.is_some() {
                out.push((FooterAction::ClearSelection, Tier::Normal));
            } else if self.docs[pane].doc.blocks.len() > 0 {
                out.push((FooterAction::Select, Tier::Normal));
            }
            if self.comment_at_cursor().is_some() {
                out.push((FooterAction::EditComment, Tier::Normal));
                out.push((FooterAction::DeleteComment, Tier::Normal));
            }
            if self.find_jump(true).is_some() || self.find_jump(false).is_some() {
                out.push((FooterAction::JumpComment, Tier::Normal));
            }
        }
        assert(out@ =~= self@.pane_actions());
        out
    }

    /// The actions that the footer offers right now, the most relevant first.
    pub fn footer_actions(&self) -> (r: Vec<(FooterAction, Tier)>)
        requires
            self@.docs.len() == 2,
        ensures
            r@ == self@.footer_actions(),
    {
        let sends: bool = self.comments.sendable() > 0;
        let mut out: Vec<(FooterAction, Tier)> = Vec::new();
        match &self.mode {
            Mode::Composing { .. } => {
                out.push((FooterAction::Save, Tier::Primary));
                out.push((FooterAction::Newline, Tier::Normal));
                out.push((FooterAction::Cancel, Tier::Normal));
            },
            Mode::CommentsList { cursor } => {
                if *cursor < self.comments.len() {
                    out.push((FooterAction::EditComment, Tier::Primary));
                    out.push((FooterAction::DeleteComment, Tier::Normal));
                    out.push((FooterAction::ResolveComment, Tier::Normal));
                }
                if sends {
                    out.push((FooterAction::Send, Tier::Normal));
                    out.push((FooterAction::Copy, Tier::Normal));
                }
                out.push((FooterAction::CloseList, Tier::Normal));
            },
            Mode::Browse => {
                out = self.pane_footer();
                if sends {
                    out.push((FooterAction::Send, Tier::Normal));
                    out.push((FooterAction::Copy, Tier::Normal));
                }
                if self.comments.len() > 0 {
                    out.push((FooterAction::List, Tier::Normal));
                }
                out.push((FooterAction::CycleFocus, Tier::Orientation));
                out.push((FooterAction::Split, Tier::Orientation));
                out.push((FooterAction::Quit, Tier::Orientation));
            },
        }
        assert(out@ =~= self@.footer_actions());
        out
    }
}

/// Toggling the split twice brings it back, and the focus with it unless it was on the pane that
/// went away.
pub proof fn law_split_toggles_back(a: AppView)
    requires
        a.split || a.focus != Focus::DocB,
    ensures
        a.split_toggled().split_toggled().split == a.split,
        a.focus != Focus::DocB ==> a.split_toggled().split_toggled() == a,
{
}

/// The focus comes round: after two steps, or three while split, it is where it was.
pub proof fn law_focus_comes_round(a: AppView)
    requires
        a.split || a.focus != Focus::DocB,
    ensures
        a.split ==> a.focus_cycled().focus_cycled().focus_cycled() == a,
        !a.split ==> a.focus_cycled().focus_cycled() == a,
{
}

/// The focus never rests on a pane that is not shown, the first pane is shown always, and each step
/// moves the focus to another pane than the one it was on.
pub proof fn law_focus_steps_through_shown_panes(a: AppView)
    requires
        a.split || a.focus != Focus::DocB,
    ensures
        ({
            let b = a.focus_cycled();
            &&& b == (AppView { focus: b.focus, ..a })
            &&& b.focus != a.focus
            &&& b.focus == Focus::DocB ==> a.split
            &&& a.focus == Focus::List ==> b.focus == Focus::DocA
        }),
        ({
            let b = a.split_toggled();
            &&& b == (AppView { split: !a.split, focus: b.focus, ..a })
            &&& b.focus == Focus::DocB ==> b.split
            &&& b.focus == a.focus || (a.focus == Focus::DocB && b.focus == Focus::DocA)
        }),
{
}

/// Keys act on the pane that has the focus, and on the first while the file list has it.
pub proof fn law_keys_act_on_the_focused_pane(a: AppView)
    ensures
        a.focus == Focus::DocA ==> a.focus_pane() == 0,
        a.focus == Focus::DocB ==> a.focus_pane() == 1,
        a.focus == Focus::List ==> a.focus_pane() == 0,
{
}

/// The comment that a key under the cursor acts on is the first that is listed under the cursor
/// block; there is none just where that block lists none.
pub proof fn law_comment_at_cursor_is_the_first_listed(a: AppView)
    requires
        a.wf(),
        a.comments.len() <= usize::MAX,
    ensures
        ({
            let d = a.docs[a.focus_pane()];
            let lists = d.cards(a.comments);
            match a.comment_at_cursor() {
                Some(i) => {
                    &&& 0 <= d.cursor_block < lists.len()
                    &&& lists[d.cursor_block].contains(i)
                    &&& forall|k: int|
                        0 <= k < lists[d.cursor_block].len() ==> i <= #[trigger]
                            lists[d.cursor_block][k]
                },
                None => 0 <= d.cursor_block < lists.len() ==> lists[d.cursor_block].len() == 0,
            }
        }),
{
    let d = a.docs[a.focus_pane()];
    let lists = d.cards(a.comments);
    if let Some(i) = a.comment_at_cursor() {
        let here = lists[d.cursor_block];
        assert(here[0] == i);
        assert forall|k: int| 0 <= k < here.len() implies i <= #[trigger] here[k] by {
            if k > 0 {
                pane::law_listed_comments_keep_their_order(d, a.comments, d.cursor_block, 0, k);
            }
        }
    }
}

/// The comment box names the place that the comment will get: the location of a comment on the
/// selected lines of the file that is shown. Without a file or a selected block there is none.
pub proof fn law_pending_location_is_where_the_comment_goes(a: AppView, text: Seq<char>)
    ensures
        ({
            let d = a.docs[a.focus_pane()];
            match (d.path, d.anchor()) {
                (Some(file), Some((start, end, lines))) => a.pending_location() == Some(
                    (CommentView { file, start, end, lines, text }).location(),
                ) && d.file() == file,
                _ => a.pending_location() is None,
            }
        }),
{
}

/// Whether the footer of `a` offers `action`.
pub open spec fn offers(a: AppView, action: FooterAction) -> bool {
    exists|i: int| 0 <= i < a.footer_actions().len() && (#[trigger] a.footer_actions()[i]).0 == action
}

proof fn lemma_offered_in(
    a: AppView,
    head: Seq<(FooterAction, Tier)>,
    part: Seq<(FooterAction, Tier)>,
    tail: Seq<(FooterAction, Tier)>,
    k: int,
)
    requires
        a.footer_actions() == head + part + tail,
        0 <= k < part.len(),
    ensures
        offers(a, part[k].0),
{
    assert(a.footer_actions()[head.len() + k] == part[k]);
}

/// While browsing, the footer offers to deliver the comments just where there is one to deliver, to
/// list them just where there is one, and always to go on to the next pane, to split and to quit.
pub proof fn law_footer_offers_delivery_where_there_is_any(a: AppView, c: StoredView)
    requires
        a.mode is Browse,
    ensures
        a.comments.contains(c) && c.author == Author::User && c.status == Status::Open ==> offers(
            a,
            FooterAction::Send,
        ) && offers(a, FooterAction::Copy),
        a.comments.len() > 0 ==> offers(a, FooterAction::List),
        offers(a, FooterAction::CycleFocus),
        offers(a, FooterAction::Split),
        offers(a, FooterAction::Quit),
{
    let head = a.pane_actions();
    let sending = a.sending_actions();
    let listing = a.listing_actions();
    let rest = seq![
        (FooterAction::CycleFocus, Tier::Orientation),
        (FooterAction::Split, Tier::Orientation),
        (FooterAction::Quit, Tier::Orientation),
    ];
    assert(a.footer_actions() =~= head + sending + (listing + rest));
    assert(a.footer_actions() =~= head + sending + listing + rest);
    assert(a.footer_actions() =~= (head + sending + listing) + rest + Seq::empty());
    lemma_offered_in(a, head + sending + listing, rest, Seq::empty(), 0);
    lemma_offered_in(a, head + sending + listing, rest, Seq::empty(), 1);
    lemma_offered_in(a, head + sending + listing, rest, Seq::empty(), 2);
    if a.comments.len() > 0 {
        lemma_offered_in(a, head + sending, listing, rest, 0);
    }
    if a.comments.contains(c) && c.author == Author::User && c.status == Status::Open {
        model::law_send_delivers_open_user_comments(a.comments, c);
        lemma_offered_in(a, head, sending, listing + rest, 0);
        lemma_offered_in(a, head, sending, listing + rest, 1);
    }
}

/// In a focused doc pane the footer offers to comment where a block is selected, to edit and delete
/// where the cursor block lists a comment, and to jump where there is a comment to jump to.
pub proof fn law_footer_offers_what_the_pane_allows(a: AppView)
    requires
        a.mode is Browse,
        a.focus != Focus::List,
    ensures
        ({
            let d = a.docs[a.focus_pane()];
            &&& d.anchor() is Some ==> offers(a, FooterAction::Comment)
            &&& a.comment_at_cursor() is Some ==> offers(a, FooterAction::EditComment) && offers(
                a,
                FooterAction::DeleteComment,
            )
            &&& a.jump_target(true) is Some || a.jump_target(false) is Some ==> offers(
                a,
                FooterAction::JumpComment,
            )
            &&& d.sel_anchor is Some ==> offers(a, FooterAction::ClearSelection)
            &&& d.sel_anchor is None && d.blocks.len() > 0 ==> offers(a, FooterAction::Select)
        }),
{
    let d = a.docs[a.focus_pane()];
    let none = Seq::<(FooterAction, Tier)>::empty();
    let p = if d.anchor() is Some {
        seq![(FooterAction::Comment, Tier::Primary)]
    } else {
        none
    };
    let q = if d.sel_anchor is Some {
        seq![(FooterAction::ClearSelection, Tier::Normal)]
    } else if d.blocks.len() > 0 {
        seq![(FooterAction::Select, Tier::Normal)]
    } else {
        none
    };
    let r = if a.comment_at_cursor() is Some {
        seq![
            (FooterAction::EditComment, Tier::Normal),
            (FooterAction::DeleteComment, Tier::Normal),
        ]
    } else {
        none
    };
    let s = if a.jump_target(true) is Some || a.jump_target(false) is Some {
        seq![(FooterAction::JumpComment, Tier::Normal)]
    } else {
        none
    };
    let all = a.pane_actions();
    assert(all == p + q + r + s);
    if p.len() > 0 {
        assert(all[0] == p[0]);
        lemma_pane_action_offered(a, 0);
    }
    let i = p.len() as int;
    if q.len() > 0 {
        assert(all[i] == q[0]);
        lemma_pane_action_offered(a, i);
    }
    let j = i + q.len();
    if r.len() > 0 {
        assert(all[j] == r[0] && all[j + 1] == r[1]);
        lemma_pane_action_offered(a, j);
        lemma_pane_action_offered(a, j + 1);
    }
    let k = j + r.len();
    if s.len() > 0 {
        assert(all[k] == s[0]);
        lemma_pane_action_offered(a, k);
    }
}

proof fn lemma_pane_action_offered(a: AppView, i: int)
    requires
        a.mode is Browse,
        0 <= i < a.pane_actions().len(),
    ensures
        offers(a, a.pane_actions()[i].0),
{
    let head = a.pane_actions();
    let tail = a.footer_actions().skip(head.len() as int);
    assert(a.footer_actions() =~= Seq::<(FooterAction, Tier)>::empty() + head + tail);
    lemma_offered_in(a, Seq::empty(), head, tail, i);
}

/// A document is opened from its top with nothing selected, in the pane that it is opened in; the
/// other pane, the comments, the files and the focus stay.
pub proof fn law_documents_open_at_their_top(
    a: AppView,
    pane: int,
    path: Option<Seq<char>>,
    source: Seq<char>,
    blocks: Seq<BlockView>,
)
    requires
        a.wf(),
        pane == 0 || pane == 1,
    ensures
        ({
            let after = a.loaded(pane, path, source, blocks);
            let d = after.docs[pane];
            &&& d.path == path && d.source == source && d.blocks == blocks
            &&& d.cursor_block == 0 && d.scroll == 0 && d.selection() == (0int, 0int)
            &&& after.docs.len() == 2 && after.docs[1 - pane] == a.docs[1 - pane]
            &&& after == (AppView { docs: after.docs, ..a })
        }),
{
}

/// What matters most comes first: saving while writing, editing the highlighted row of the comments
/// list, and commenting in a doc pane where something is selected are the primary actions, at the
/// start of the footer, and no other action is.
pub proof fn law_the_primary_action_comes_first(a: AppView, i: int)
    requires
        0 <= i < a.footer_actions().len(),
    ensures
        ({
            let (action, tier) = a.footer_actions()[i];
            &&& tier == Tier::Primary ==> i == 0 && match a.mode {
                ModeView::Composing { .. } => action == FooterAction::Save,
                ModeView::CommentsList { .. } => action == FooterAction::EditComment,
                ModeView::Browse => action == FooterAction::Comment,
            }
            &&& a.mode is Composing ==> a.footer_actions()[0] == (
                FooterAction::Save,
                Tier::Primary,
            )
            &&& a.mode is Browse && a.focus != Focus::List && a.docs[a.focus_pane()].anchor()
                is Some ==> a.footer_actions()[0] == (FooterAction::Comment, Tier::Primary)
            &&& a.mode matches ModeView::CommentsList { cursor } ==> cursor < a.comments.len()
                ==> a.footer_actions()[0] == (FooterAction::EditComment, Tier::Primary)
            &&& tier == Tier::Orientation ==> action == FooterAction::CycleFocus || action
                == FooterAction::Split || action == FooterAction::Quit
        }),
{
    let all = a.footer_actions();
    match a.mode {
        ModeView::Browse => {
            lemma_browse_parts(a, i);
        },
        ModeView::CommentsList { cursor } => {
            let rows = a.row_actions(cursor);
            let sending = a.sending_actions();
            if i < rows.len() {
                assert(all[i] == rows[i]);
            } else if i < rows.len() + sending.len() {
                assert(all[i] == sending[i - rows.len()]);
            }
        },
        _ => {},
    }
}

proof fn lemma_browse_parts(a: AppView, i: int)
    requires
        a.mode is Browse,
        0 <= i < a.footer_actions().len(),
    ensures
        ({
            let (action, tier) = a.footer_actions()[i];
            &&& tier == Tier::Primary ==> i == 0 && action == FooterAction::Comment
            &&& a.focus != Focus::List && a.docs[a.focus_pane()].anchor() is Some
                ==> a.footer_actions()[0] == (FooterAction::Comment, Tier::Primary)
            &&& tier == Tier::Orientation ==> action == FooterAction::CycleFocus || action
                == FooterAction::Split || action == FooterAction::Quit
        }),
{
    let head = a.pane_actions();
    let (sending, listing) = (a.sending_actions(), a.listing_actions());
    lemma_head_is_comment(a);
    lemma_four_parts(
        head,
        sending,
        listing,
        seq![
            (FooterAction::CycleFocus, Tier::Orientation),
            (FooterAction::Split, Tier::Orientation),
            (FooterAction::Quit, Tier::Orientation),
        ],
        i,
    );
    if head.len() > 0 {
        assert(a.footer_actions()[0] == head[0]);
    }
    if i < head.len() {
        lemma_pane_tiers(a, i);
    }
}

proof fn lemma_four_parts(
    p: Seq<(FooterAction, Tier)>,
    q: Seq<(FooterAction, Tier)>,
    r: Seq<(FooterAction, Tier)>,
    s: Seq<(FooterAction, Tier)>,
    i: int,
)
    requires
        0 <= i < (p + q + r + s).len(),
    ensures
        ({
            let x = (p + q + r + s)[i];
            let (n, m) = (p.len() as int, p.len() + q.len());
            let k = m + r.len();
            &&& i < n ==> x == p[i]
            &&& n <= i < m ==> x == q[i - n]
            &&& m <= i < k ==> x == r[i - m]
            &&& k <= i ==> x == s[i - k]
        }),
{
}

proof fn lemma_head_is_comment(a: AppView)
    ensures
        a.focus != Focus::List && a.docs[a.focus_pane()].anchor() is Some ==> a.pane_actions().len()
            > 0 && a.pane_actions()[0] == (FooterAction::Comment, Tier::Primary),
{
}

proof fn lemma_pane_tiers(a: AppView, i: int)
    requires
        0 <= i < a.pane_actions().len(),
    ensures
        a.pane_actions()[i].1 == Tier::Primary ==> i == 0 && a.pane_actions()[i].0
            == FooterAction::Comment,
        a.pane_actions()[i].1 != Tier::Orientation,
{
}

/// While a comment is written the footer offers to save it, to start a new line and to cancel; in the
/// comments list it offers to close it, and to edit, delete and resolve the highlighted comment where
/// there is one.
pub proof fn law_footer_offers_what_the_mode_allows(a: AppView)
    ensures
        a.mode is Composing ==> offers(a, FooterAction::Save) && offers(a, FooterAction::Newline)
            && offers(a, FooterAction::Cancel),
        a.mode is CommentsList ==> offers(a, FooterAction::CloseList),
        a.mode matches ModeView::CommentsList { cursor } ==> cursor < a.comments.len() ==> offers(
            a,
            FooterAction::EditComment,
        ) && offers(a, FooterAction::DeleteComment) && offers(a, FooterAction::ResolveComment),
{
    let all = a.footer_actions();
    match a.mode {
        ModeView::Composing { .. } => {
            assert(all[0].0 == FooterAction::Save && all[1].0 == FooterAction::Newline && all[2].0
                == FooterAction::Cancel);
        },
        ModeView::CommentsList { cursor } => {
            assert(all[all.len() - 1].0 == FooterAction::CloseList);
            if cursor < a.comments.len() {
                assert(all[0].0 == FooterAction::EditComment && all[1].0
                    == FooterAction::DeleteComment && all[2].0 == FooterAction::ResolveComment);
            }
        },
        _ => {},
    }
}

proof fn lemma_pane_has_its_own_actions(a: AppView, i: int)
    requires
        0 <= i < a.pane_actions().len(),
    ensures
        a.pane_actions()[i].0 != FooterAction::List,
        a.pane_actions()[i].0 != FooterAction::Send,
        a.pane_actions()[i].0 != FooterAction::Copy,
{
}

/// The footer offers the comments list while browsing just where there is a comment to list, and the
/// other panes, the split and the way out always.
pub proof fn law_footer_offers_the_list_where_it_has_a_row(a: AppView)
    requires
        a.mode is Browse,
    ensures
        offers(a, FooterAction::List) <==> a.comments.len() > 0,
        offers(a, FooterAction::CycleFocus),
        offers(a, FooterAction::Split),
        offers(a, FooterAction::Quit),
{
    let all = a.footer_actions();
    let n = all.len() as int;
    let (p, q, r) = (a.pane_actions(), a.sending_actions(), a.listing_actions());
    let s = all.skip(n - 3);
    assert(all =~= p + q + r + s);
    assert(all[n - 3].0 == FooterAction::CycleFocus && all[n - 2].0 == FooterAction::Split && all[n
        - 1].0 == FooterAction::Quit);
    if a.comments.len() > 0 {
        assert(all[n - 4] == r[0]);
    }
    if offers(a, FooterAction::List) {
        let i = choose|i: int| 0 <= i < n && (#[trigger] all[i]).0 == FooterAction::List;
        lemma_four_parts(p, q, r, s, i);
        if i < p.len() {
            lemma_pane_has_its_own_actions(a, i);
        }
    }
}

/// In the comments list the footer offers to edit, delete and resolve just where a comment is
/// highlighted.
pub proof fn law_list_actions_need_a_comment(a: AppView, cursor: int)
    requires
        a.mode == (ModeView::CommentsList { cursor }),
        offers(a, FooterAction::EditComment) || offers(a, FooterAction::DeleteComment) || offers(
            a,
            FooterAction::ResolveComment,
        ),
    ensures
        cursor < a.comments.len(),
{
    let all = a.footer_actions();
    assert(all =~= a.row_actions(cursor) + a.sending_actions() + seq![
        (FooterAction::CloseList, Tier::Normal),
    ]);
}

} // verus!
