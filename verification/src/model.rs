//! In-memory model: comments over a markdown document.
//!
//! A comment's lifecycle (id, author, status) lives in [`crate::comments::StoredComment`];
//! `CommentStore` is the session's view over a list of them. A refresh never drops a comment:
//! only a delete does, or an external agent removing its file.
use crate::comments;
use crate::comments::{Author, Status, StoredComment, StoredView, clock_serial, id_with, now_iso};
use crate::text;
use crate::text::{push_decimal, same_text};
use std::time::SystemTime;
use vstd::prelude::*;

verus! {

/// A comment anchored to a run of markdown source lines, carrying the snippet.
#[derive(Clone, Debug, PartialEq, Eq)]
pub struct Comment {
    pub file: String,
    pub start: u32,
    pub end: u32,
    /// Verbatim markdown source lines the comment anchors to (`start..=end`).
    pub lines: String,
    pub text: String,
}

/// What a comment says.
pub struct CommentView {
    pub file: Seq<char>,
    pub start: u32,
    pub end: u32,
    pub lines: Seq<char>,
    pub text: Seq<char>,
}

impl View for Comment {
    type V = CommentView;

    open spec fn view(&self) -> CommentView {
        CommentView {
            file: self.file@,
            start: self.start,
            end: self.end,
            lines: self.lines@,
            text: self.text@,
        }
    }
}

impl CommentView {
    /// The `path:start-end` (or `path:line`) location.
    pub open spec fn location(self) -> Seq<char> {
        let first = self.file + seq![':'] + text::decimal(self.start as nat);
        if self.start == self.end {
            first
        } else {
            first + seq!['-'] + text::decimal(self.end as nat)
        }
    }
}

impl Comment {
    /// The `path:start-end` (or `path:line`) location.
    pub fn location(&self) -> (r: String)
        ensures
            r@ == self@.location(),
    {
        let mut out: String = self.file.clone();
        out.push(':');
        push_decimal(&mut out, self.start as u128);
        if self.start != self.end {
            out.push('-');
            push_decimal(&mut out, self.end as u128);
        }
        assert(out@ =~= self@.location());
        out
    }
}

/// The in-memory comment list for one session on a worktree: every entry carries its
/// lifecycle metadata (id/author/status) from the moment it is written, so a comment written
/// here is indistinguishable in shape from one synced in from the on-disk store.
#[derive(Debug)]
pub struct CommentStore {
    items: Vec<StoredComment>,
}

/// What each of `items` says.
pub open spec fn stored_view(items: Seq<StoredComment>) -> Seq<StoredView> {
    items.map_values(|c: StoredComment| c@)
}

/// Whether a send delivers this comment: it is open and the user wrote it.
pub open spec fn is_sendable(c: StoredView) -> bool {
    c.status == Status::Open && c.author == Author::User
}

/// The comments that a send delivers, in order.
pub open spec fn sendable_of(items: Seq<StoredView>) -> Seq<StoredView> {
    items.filter(|c: StoredView| is_sendable(c))
}

/// The index of the first comment with id `id`.
pub open spec fn position_of(items: Seq<StoredView>, id: Seq<char>) -> Option<usize>
    decreases items.len(),
{
    if items.len() == 0 {
        None
    } else {
        match position_of(items.drop_last(), id) {
            Some(i) => Some(i),
            None => if items.last().id == id {
                Some((items.len() - 1) as usize)
            } else {
                None
            },
        }
    }
}

/// Whether `id` is the first id from number `from` on that none of `items` has.
pub open spec fn is_first_free(items: Seq<StoredView>, from: nat, id: Seq<char>) -> bool {
    &&& position_of(items, id) is None
    &&& exists|k: nat|
        {
            &&& id == #[trigger] comments::serial_id(from + k)
            &&& forall|j: nat|
                j < k ==> position_of(items, #[trigger] comments::serial_id(from + j)) is Some
        }
}

/// Whether `id` is an id that a comment added to `items` can get: the first free one from some
/// reading of the clock on.
pub open spec fn is_new_id(items: Seq<StoredView>, id: Seq<char>) -> bool {
    exists|t: SystemTime|
        is_first_free(items, comments::serial_at(#[trigger] comments::epoch_parts(t)), id)
}

impl View for CommentStore {
    type V = Seq<StoredView>;

    closed spec fn view(&self) -> Seq<StoredView> {
        stored_view(self.items@)
    }
}

impl Default for CommentStore {
    fn default() -> (r: CommentStore)
        ensures
            r@ == Seq::<StoredView>::empty(),
    {
        let r: CommentStore = CommentStore { items: Vec::new() };
        assert(r@ =~= Seq::<StoredView>::empty());
        r
    }
}

impl CommentStore {
    /// A store without comments.
    pub fn new() -> (r: CommentStore)
        ensures
            r@ == Seq::<StoredView>::empty(),
    {
        CommentStore::default()
    }

    /// How many comments there are.
    pub fn len(&self) -> (r: usize)
        ensures
            r == self@.len(),
    {
        self.items.len()
    }

    /// Whether there is no comment.
    pub fn is_empty(&self) -> (r: bool)
        ensures
            r == (self@.len() == 0),
    {
        self.items.len() == 0
    }

    /// All comments, in order.
    pub fn iter(&self) -> (r: &Vec<StoredComment>)
        ensures
            stored_view(r@) == self@,
    {
        &self.items
    }

    /// The comment at `index`.
    pub fn get(&self, index: usize) -> (r: Option<&StoredComment>)
        ensures
            r is Some <==> index < self@.len(),
            r matches Some(c) ==> c@ == self@[index as int],
    {
        if index < self.items.len() {
            Some(&self.items[index])
        } else {
            None
        }
    }

    /// The current index of the comment with id `id`, or `None` if it no longer exists. Every
    /// action held across a poll tick (an edit in progress, an overlay keystroke) must
    /// re-resolve through this rather than trust a previously-read index: a disk sync can
    /// replace and re-sort the whole set between the moment an index was read and the moment
    /// it is used, so a stale index can silently name a different (or no) comment.
    pub fn index_of(&self, id: &str) -> (r: Option<usize>)
        ensures
            r == position_of(self@, id@),
            r matches Some(i) ==> i < self@.len(),
    {
        let ghost view = self@;
        let mut i: usize = 0;
        assert(view.take(0) =~= Seq::<StoredView>::empty());
        while i < self.items.len()
            invariant
                i <= self.items@.len(),
                view == stored_view(self.items@),
                self@ == view,
                position_of(view.take(i as int), id@) is None,
            decreases self.items@.len() - i,
        {
            assert(view.take(i + 1).drop_last() =~= view.take(i as int));
            assert(view.take(i + 1).last() == self.items@[i as int]@);
            if same_text(self.items[i].id.as_str(), id) {
                proof {
                    lemma_position_holds(view, id@, i + 1);
                }
                return Some(i);
            }
            i += 1;
        }
        assert(view.take(i as int) =~= view);
        None
    }

    /// The first id from number `from` on that no comment has.
    pub fn free_id(&self, from: u128) -> (r: String)
        requires
            from + self@.len() < u128::MAX,
        ensures
            is_first_free(self@, from as nat, r@),
    {
        let ghost items = self@;
        let n: usize = self.items.len();
        let ghost mut taken: Seq<int> = Seq::empty();
        let mut k: u128 = 0;
        loop
            invariant
                items == self@,
                n == items.len() == self.items@.len(),
                from + n < u128::MAX,
                k <= n,
                taken.len() == k,
                forall|j: int|
                    0 <= j < k ==> 0 <= #[trigger] taken[j] < n && items[taken[j]].id
                        == comments::serial_id((from + j) as nat),
                forall|i: int, j: int|
                    0 <= i < j < k ==> #[trigger] taken[i] != #[trigger] taken[j],
                forall|j: nat|
                    j < k ==> position_of(items, #[trigger] comments::serial_id(from as nat + j))
                        is Some,
            decreases n - k,
        {
            let id: String = id_with(from + k);
            match self.index_of(id.as_str()) {
                None => {
                    assert(id@ == comments::serial_id(from as nat + k as nat));
                    return id;
                },
                Some(i) => {
                    proof {
                        law_index_of_finds_the_first(items, id@);
                        assert forall|j: int| 0 <= j < k implies #[trigger] taken[j] != i by {
                            if taken[j] == i {
                                comments::law_ids_tell_serials_apart(
                                    (from + j) as nat,
                                    (from + k) as nat,
                                );
                            }
                        }
                        taken = taken.push(i as int);
                        lemma_distinct_fit(taken, n as int);
                        assert forall|j: nat| j < k + 1 implies position_of(
                            items,
                            #[trigger] comments::serial_id(from as nat + j),
                        ) is Some by {
                            if j == k {
                                assert(id@ == comments::serial_id(from as nat + j));
                            }
                        }
                    }
                    k += 1;
                },
            }
        }
    }

    /// Append a comment written just now, wrapping it with fresh lifecycle metadata (a new id
    /// that no other comment has, `Author::User`, `Status::Open`). Every comment a user writes
    /// starts here. Returns its index.
    pub fn add(&mut self, comment: Comment) -> (index: usize)
        ensures
            index == old(self)@.len(),
            final(self)@.len() == old(self)@.len() + 1,
            final(self)@.take(index as int) == old(self)@,
            final(self)@[index as int].author == Author::User,
            final(self)@[index as int].status == Status::Open,
            final(self)@[index as int].comment == comment@,
            is_new_id(old(self)@, final(self)@[index as int].id),
            position_of(old(self)@, final(self)@[index as int].id) is None,
            position_of(final(self)@, final(self)@[index as int].id) == Some(index),
            comments::is_stamp(final(self)@[index as int].created_at),
    {
        let index: usize = self.items.len();
        let id: String = self.free_id(clock_serial());
        let stored: StoredComment = StoredComment {
            id,
            author: Author::User,
            status: Status::Open,
            created_at: now_iso(),
            comment,
        };
        self.items.push(stored);
        assert(self@.take(index as int) =~= old(self)@);
        assert(self@[index as int] == stored@);
        assert(self@.drop_last() =~= old(self)@);
        index
    }

    /// Replace the text of the comment at `index`. Returns `false` if out of range.
    pub fn edit(&mut self, index: usize, text: String) -> (r: bool)
        ensures
            r == (index < old(self)@.len()),
            !r ==> final(self)@ == old(self)@,
            r ==> final(self)@ == old(self)@.update(index as int, {
                let c = old(self)@[index as int];
                StoredView { comment: CommentView { text: text@, ..c.comment }, ..c }
            }),
    {
        if index < self.items.len() {
            self.items[index].comment.text = text;
            assert(self@ =~= old(self)@.update(index as int, {
                let c = old(self)@[index as int];
                StoredView { comment: CommentView { text: text@, ..c.comment }, ..c }
            }));
            true
        } else {
            false
        }
    }

    /// Flip the status of the comment at `index`. Returns `false` if out of range.
    pub fn set_status(&mut self, index: usize, status: Status) -> (r: bool)
        ensures
            r == (index < old(self)@.len()),
            !r ==> final(self)@ == old(self)@,
            r ==> final(self)@ == old(self)@.update(
                index as int,
                StoredView { status, ..old(self)@[index as int] },
            ),
    {
        if index < self.items.len() {
            self.items[index].status = status;
            assert(self@ =~= old(self)@.update(
                index as int,
                StoredView { status, ..old(self)@[index as int] },
            ));
            true
        } else {
            false
        }
    }

    /// Remove and return the comment at `index` (the only way a comment leaves the set from
    /// the terminal side).
    pub fn take(&mut self, index: usize) -> (r: Option<StoredComment>)
        ensures
            r is Some <==> index < old(self)@.len(),
            r is None ==> final(self)@ == old(self)@,
            r matches Some(c) ==> c@ == old(self)@[index as int] && final(self)@ == old(
                self,
            )@.remove(index as int),
    {
        if index < self.items.len() {
            let c: StoredComment = self.items.remove(index);
            assert(self@ =~= old(self)@.remove(index as int));
            Some(c)
        } else {
            None
        }
    }

    /// Replace the whole set: the result of a disk-sync merge.
    pub fn replace(&mut self, items: Vec<StoredComment>)
        ensures
            final(self)@ == stored_view(items@),
    {
        self.items = items;
    }

    /// Open, user-authored comments: exactly what a send/export sends and a Send button counts.
    /// An agent's own comments and already-resolved ones are never part of the payload.
    pub fn open_user_comments(&self) -> (r: Vec<&StoredComment>)
        ensures
            r@.map_values(|c: &StoredComment| c@) == sendable_of(self@),
    {
        let mut out: Vec<&StoredComment> = Vec::new();
        let ghost view = self@;
        let ghost keep = |c: StoredView| is_sendable(c);
        let mut i: usize = 0;
        proof {
            assert(view.take(0) =~= Seq::<StoredView>::empty());
            reveal(Seq::filter);
        }
        assert(out@.map_values(|c: &StoredComment| c@) =~= view.take(0).filter(keep));
        while i < self.items.len()
            invariant
                i <= self.items@.len(),
                view == stored_view(self.items@),
                keep == (|c: StoredView| is_sendable(c)),
                out@.map_values(|c: &StoredComment| c@) == view.take(i as int).filter(keep),
            decreases self.items@.len() - i,
        {
            proof {
                assert(view.take(i + 1).drop_last() =~= view.take(i as int));
                assert(view.take(i + 1).last() == self.items@[i as int]@);
                reveal(Seq::filter);
            }
            let c: &StoredComment = &self.items[i];
            let ghost before = out@;
            if c.status == Status::Open && c.author == Author::User {
                out.push(c);
                assert(out@.map_values(|c: &StoredComment| c@) =~= before.map_values(
                    |c: &StoredComment| c@,
                ).push(c@));
            }
            i += 1;
        }
        assert(view.take(i as int) =~= view);
        out
    }

    /// The count `open_user_comments` would return, without allocating the list.
    pub fn sendable(&self) -> (r: usize)
        ensures
            r == sendable_of(self@).len(),
    {
        let ghost view = self@;
        let ghost keep = |c: StoredView| is_sendable(c);
        let mut n: usize = 0;
        let mut i: usize = 0;
        proof {
            assert(view.take(0) =~= Seq::<StoredView>::empty());
            reveal(Seq::filter);
        }
        while i < self.items.len()
            invariant
                i <= self.items@.len(),
                n <= i,
                view == stored_view(self.items@),
                keep == (|c: StoredView| is_sendable(c)),
                n == view.take(i as int).filter(keep).len(),
            decreases self.items@.len() - i,
        {
            proof {
                assert(view.take(i + 1).drop_last() =~= view.take(i as int));
                assert(view.take(i + 1).last() == self.items@[i as int]@);
                reveal(Seq::filter);
            }
            if self.items[i].status == Status::Open && self.items[i].author == Author::User {
                n += 1;
            }
            i += 1;
        }
        assert(view.take(i as int) =~= view);
        n
    }
}

proof fn lemma_distinct_fit(taken: Seq<int>, n: int)
    requires
        0 <= n,
        forall|j: int| 0 <= j < taken.len() ==> 0 <= #[trigger] taken[j] < n,
        forall|i: int, j: int|
            0 <= i < j < taken.len() ==> #[trigger] taken[i] != #[trigger] taken[j],
    ensures
        taken.len() <= n,
{
    let all = vstd::set_lib::set_int_range(0, n);
    vstd::set_lib::lemma_int_range(0, n);
    assert(taken.no_duplicates());
    taken.unique_seq_to_set();
    assert(taken.to_set().subset_of(all));
    vstd::set_lib::lemma_len_subset(taken.to_set(), all);
}

/// A comment found among the first `n` is the one found among all.
proof fn lemma_position_holds(items: Seq<StoredView>, id: Seq<char>, n: int)
    requires
        0 <= n <= items.len(),
        position_of(items.take(n), id) is Some,
    ensures
        position_of(items, id) == position_of(items.take(n), id),
    decreases items.len(),
{
    if n < items.len() {
        assert(items.drop_last().take(n) =~= items.take(n));
        lemma_position_holds(items.drop_last(), id, n);
    } else {
        assert(items.take(n) =~= items);
    }
}

/// Looking an id up gives the first comment that has it, and nothing only where none has.
pub proof fn law_index_of_finds_the_first(items: Seq<StoredView>, id: Seq<char>)
    requires
        items.len() <= usize::MAX,
    ensures
        match position_of(items, id) {
            Some(i) => {
                &&& i < items.len()
                &&& items[i as int].id == id
                &&& forall|k: int| 0 <= k < i ==> (#[trigger] items[k]).id != id
            },
            None => forall|k: int| 0 <= k < items.len() ==> (#[trigger] items[k]).id != id,
        },
    decreases items.len(),
{
    if items.len() > 0 {
        let rest = items.drop_last();
        law_index_of_finds_the_first(rest, id);
        assert(forall|k: int| 0 <= k < rest.len() ==> #[trigger] items[k] == rest[k]);
    }
}

/// A comment just written is the last of those that a send delivers, after all that were there
/// before.
pub proof fn law_new_comment_is_sendable(items: Seq<StoredView>, new: StoredView)
    requires
        new.author == Author::User,
        new.status == Status::Open,
    ensures
        sendable_of(items.push(new)) == sendable_of(items).push(new),
{
    reveal(Seq::filter);
    assert(items.push(new).drop_last() =~= items);
}

/// A send delivers every open comment of the user, and nothing else.
pub proof fn law_send_delivers_open_user_comments(items: Seq<StoredView>, c: StoredView)
    ensures
        sendable_of(items).contains(c) <==> items.contains(c) && c.status == Status::Open
            && c.author == Author::User,
    decreases items.len(),
{
    reveal(Seq::filter);
    if items.len() > 0 {
        let rest = items.drop_last();
        law_send_delivers_open_user_comments(rest, c);
        assert(items =~= rest.push(items.last()));
        lemma_contains_push(rest, items.last(), c);
        lemma_contains_push(sendable_of(rest), items.last(), c);
    }
}

proof fn lemma_contains_push(s: Seq<StoredView>, x: StoredView, c: StoredView)
    ensures
        s.push(x).contains(c) <==> s.contains(c) || x == c,
{
    if s.contains(c) {
        let k = choose|k: int| 0 <= k < s.len() && s[k] == c;
        assert(s.push(x)[k] == c);
    }
    if x == c {
        assert(s.push(x)[s.len() as int] == c);
    }
    if s.push(x).contains(c) && x != c {
        let k = choose|k: int| 0 <= k < s.push(x).len() && s.push(x)[k] == c;
        assert(s[k] == c);
    }
}

/// Resolving a comment and reopening it leaves the set as it was.
pub proof fn law_reopening_undoes_resolving(items: Seq<StoredView>, index: int)
    requires
        0 <= index < items.len(),
        items[index].status == Status::Open,
    ensures
        ({
            let resolved = items.update(
                index,
                StoredView { status: Status::Resolved, ..items[index] },
            );
            resolved.update(index, StoredView { status: Status::Open, ..resolved[index] }) == items
        }),
{
    let resolved = items.update(index, StoredView { status: Status::Resolved, ..items[index] });
    assert(resolved.update(index, StoredView { status: Status::Open, ..resolved[index] })
        =~= items);
}

/// Whether `s` is the decimal numeral of `n`: digits that read as `n`, with no needless zero in
/// front.
pub open spec fn is_numeral(s: Seq<char>, n: nat) -> bool {
    &&& s.len() > 0
    &&& forall|k: int| 0 <= k < s.len() ==> '0' <= #[trigger] s[k] <= '9'
    &&& s.len() > 1 ==> s[0] != '0'
    &&& text::numeral_value(s) == n
}

/// Whether the location of `c` is its file, a colon and `start`, and with a hyphen and `end` behind
/// that where it ends on another line than it starts on.
pub open spec fn names_lines(c: CommentView, start: Seq<char>, end: Seq<char>) -> bool {
    c.location() == if c.start != c.end {
        c.file + seq![':'] + start + seq!['-'] + end
    } else {
        c.file + seq![':'] + start
    }
}

/// A location names the file of a comment and its lines: one number for a comment on one line,
/// the first and the last for any other.
pub proof fn law_location_names_file_and_lines(c: CommentView)
    ensures
        exists|a: Seq<char>, b: Seq<char>| #[trigger]
            names_lines(c, a, b) && is_numeral(a, c.start as nat) && is_numeral(b, c.end as nat),
{
    let (a, b) = (text::decimal(c.start as nat), text::decimal(c.end as nat));
    text::law_numerals_read_back(c.start as nat);
    text::law_numerals_read_back(c.end as nat);
    assert(names_lines(c, a, b));
}

/// What a send delivers is decided comment by comment: one more comment is delivered behind the
/// others just where the user wrote it and it is open, and changes nothing about the others.
pub proof fn law_send_takes_each_comment_for_itself(items: Seq<StoredView>, c: StoredView)
    ensures
        sendable_of(items.push(c)) == if c.author == Author::User && c.status == Status::Open {
            sendable_of(items).push(c)
        } else {
            sendable_of(items)
        },
        sendable_of(Seq::empty()) == Seq::<StoredView>::empty(),
{
    reveal(Seq::filter);
    assert(items.push(c).drop_last() =~= items);
    assert(sendable_of(Seq::empty()) =~= Seq::<StoredView>::empty());
}

} // verus!
