//! One doc pane: its document, its block cursor and selection, and the comments shown in it.
use crate::comments::{StoredComment, StoredView};
use crate::docview;
use crate::markdown;
use crate::markdown::{Block, BlockView, Document};
use crate::model;
use crate::model::CommentStore;
use crate::snippet;
use crate::snippet::source_lines;
use crate::text::same_text;
use vstd::prelude::*;

verus! {

/// One doc pane: the document that it shows, its block cursor, the block at which a selection
/// started, and the first row that is visible.
#[derive(Debug)]
pub struct DocPane {
    pub path: Option<String>,
    pub doc: Document,
    pub cursor_block: usize,
    pub sel_anchor: Option<usize>,
    pub scroll: usize,
}

/// What a doc pane shows.
#[verifier::ext_equal]
pub struct DocView {
    pub path: Option<Seq<char>>,
    pub source: Seq<char>,
    pub blocks: Seq<BlockView>,
    pub cursor_block: int,
    pub sel_anchor: Option<usize>,
    pub scroll: int,
}

impl View for DocPane {
    type V = DocView;

    open spec fn view(&self) -> DocView {
        DocView {
            path: match self.path {
                Some(p) => Some(p@),
                None => None,
            },
            source: self.doc.source@,
            blocks: markdown::blocks_view(self.doc.blocks@),
            cursor_block: self.cursor_block as int,
            sel_anchor: self.sel_anchor,
            scroll: self.scroll as int,
        }
    }
}

/// What each of `docs` shows.
pub open spec fn docs_view(docs: Seq<DocPane>) -> Seq<DocView> {
    docs.map_values(|d: DocPane| d@)
}

impl DocView {
    /// The file that comments on this document belong to; none has no name.
    pub open spec fn file(self) -> Seq<char> {
        match self.path {
            Some(p) => p,
            None => Seq::empty(),
        }
    }

    /// The selected blocks, both ends included: from where the selection started to the cursor,
    /// or the cursor block where nothing is selected.
    pub open spec fn selection(self) -> (int, int) {
        match self.sel_anchor {
            Some(a) => if a <= self.cursor_block {
                (a as int, self.cursor_block)
            } else {
                (self.cursor_block, a as int)
            },
            None => (self.cursor_block, self.cursor_block),
        }
    }

    /// The least first line of the blocks `lo..=hi`.
    pub open spec fn first_line(self, lo: int, hi: int) -> u32
        decreases hi - lo,
    {
        if hi <= lo {
            self.blocks[lo].source_start
        } else {
            let rest = self.first_line(lo, hi - 1);
            if self.blocks[hi].source_start < rest {
                self.blocks[hi].source_start
            } else {
                rest
            }
        }
    }

    /// The greatest last line of the blocks `lo..=hi`.
    pub open spec fn last_line(self, lo: int, hi: int) -> u32
        decreases hi - lo,
    {
        if hi <= lo {
            self.blocks[lo].source_end
        } else {
            let rest = self.last_line(lo, hi - 1);
            if self.blocks[hi].source_end > rest {
                self.blocks[hi].source_end
            } else {
                rest
            }
        }
    }

    /// What a comment on the selection anchors to: the first and the last source line of the
    /// selected blocks, and the source between them, verbatim. Nothing where the selection
    /// starts behind the last block; a selection that ends there is cut.
    pub open spec fn anchor(self) -> Option<(u32, u32, Seq<char>)> {
        let (lo, hi) = self.selection();
        if lo >= self.blocks.len() {
            None
        } else {
            let last = if hi < self.blocks.len() {
                hi
            } else {
                self.blocks.len() - 1
            };
            let (start, end) = (self.first_line(lo, last), self.last_line(lo, last));
            Some((start, end, snippet::lines_between(self.source, start, end)))
        }
    }

    /// The pane with its cursor `delta` blocks further on, inside the document.
    pub open spec fn moved(self, delta: int) -> DocView {
        let at = self.cursor_block + delta;
        let last = self.blocks.len() - 1;
        DocView {
            cursor_block: if at < 0 || last < 0 {
                0
            } else if at > last {
                last
            } else {
                at
            },
            ..self
        }
    }

    /// The pane with a selection started at its cursor.
    pub open spec fn selecting(self) -> DocView {
        DocView { sel_anchor: Some(self.cursor_block as usize), ..self }
    }

    /// The pane without a selection.
    pub open spec fn cleared(self) -> DocView {
        DocView { sel_anchor: None, ..self }
    }

    /// The pane with its selection reaching `delta` blocks further on, from where it was started, or
    /// from the cursor where nothing is selected.
    pub open spec fn extended(self, delta: int) -> DocView {
        if self.sel_anchor is Some {
            self.moved(delta)
        } else {
            self.selecting().moved(delta)
        }
    }

    /// Whether block `b` shares a source line with `start..=end`.
    pub open spec fn covers(self, b: int, start: u32, end: u32) -> bool {
        self.blocks[b].source_start <= end && self.blocks[b].source_end >= start
    }

    /// The last of the first `n` blocks that shares a source line with `start..=end`: the block
    /// that a comment on those lines is shown under.
    pub open spec fn home(self, start: u32, end: u32, n: int) -> Option<int>
        decreases n,
    {
        if n <= 0 {
            None
        } else if self.covers(n - 1, start, end) {
            Some(n - 1)
        } else {
            self.home(start, end, n - 1)
        }
    }

    /// The block that comment `c` is shown under in this pane.
    pub open spec fn card_block(self, c: StoredView) -> Option<int> {
        if c.comment.file == self.file() {
            self.home(c.comment.start, c.comment.end, self.blocks.len() as int)
        } else {
            None
        }
    }

    /// Which of the first `n` comments are shown under block `b`, in order.
    pub open spec fn cards_at(self, comments: Seq<StoredView>, b: int, n: int) -> Seq<usize>
        decreases n,
    {
        if n <= 0 {
            Seq::empty()
        } else {
            let rest = self.cards_at(comments, b, n - 1);
            if self.card_block(comments[n - 1]) == Some(b) {
                rest.push((n - 1) as usize)
            } else {
                rest
            }
        }
    }

    /// For each block, which comments are shown under it.
    pub open spec fn cards(self, comments: Seq<StoredView>) -> Seq<Seq<usize>> {
        Seq::new(
            self.blocks.len(),
            |b: int| self.cards_at(comments, b, comments.len() as int),
        )
    }
}

impl DocPane {
    /// A pane that shows nothing.
    pub fn empty() -> (r: DocPane)
        ensures
            r@ == (DocView {
                path: None,
                source: Seq::empty(),
                blocks: Seq::empty(),
                cursor_block: 0,
                sel_anchor: None,
                scroll: 0,
            }),
    {
        let r: DocPane = DocPane {
            path: None,
            doc: Document::default(),
            cursor_block: 0,
            sel_anchor: None,
            scroll: 0,
        };
        assert(r@.blocks =~= Seq::empty());
        r
    }

    /// The file that comments on this document belong to.
    pub fn file(&self) -> (r: String)
        ensures
            r@ == self@.file(),
    {
        match &self.path {
            Some(p) => p.clone(),
            None => String::new(),
        }
    }

    /// The selected blocks, both ends included.
    pub fn selection(&self) -> (r: (usize, usize))
        ensures
            (r.0 as int, r.1 as int) == self@.selection(),
            r.0 <= r.1,
    {
        match self.sel_anchor {
            Some(a) => if a <= self.cursor_block {
                (a, self.cursor_block)
            } else {
                (self.cursor_block, a)
            },
            None => (self.cursor_block, self.cursor_block),
        }
    }

    /// What a comment on the selection anchors to.
    pub fn anchor(&self) -> (r: Option<(u32, u32, String)>)
        ensures
            match r {
                Some((start, end, lines)) => self@.anchor() == Some((start, end, lines@)),
                None => self@.anchor() is None,
            },
    {
        let (lo, hi): (usize, usize) = self.selection();
        let n: usize = self.doc.blocks.len();
        if lo >= n {
            return None;
        }
        let last: usize = if hi < n {
            hi
        } else {
            n - 1
        };
        let ghost view = self@;
        let mut start: u32 = self.doc.blocks[lo].source_start;
        let mut end: u32 = self.doc.blocks[lo].source_end;
        assert(view.blocks[lo as int] == self.doc.blocks@[lo as int]@);
        let mut i: usize = lo;
        while i < last
            invariant
                lo <= i <= last < self.doc.blocks@.len(),
                view == self@,
                start == view.first_line(lo as int, i as int),
                end == view.last_line(lo as int, i as int),
            decreases last - i,
        {
            i += 1;
            let b: &Block = &self.doc.blocks[i];
            assert(view.blocks[i as int] == self.doc.blocks@[i as int]@);
            if b.source_start < start {
                start = b.source_start;
            }
            if b.source_end > end {
                end = b.source_end;
            }
        }
        let lines: String = source_lines(self.doc.source.as_str(), start, end);
        Some((start, end, lines))
    }

    /// Move the cursor `delta` blocks further on, inside the document.
    pub fn move_by(&mut self, delta: i64)
        ensures
            final(self)@ == old(self)@.moved(delta as int),
    {
        let n: usize = self.doc.blocks.len();
        let at: i128 = self.cursor_block as i128 + delta as i128;
        self.cursor_block = if at < 0 || n == 0 {
            0
        } else if at > (n - 1) as i128 {
            n - 1
        } else {
            at as usize
        };
        assert(self@.blocks.len() == n);
        assert(self@ =~= old(self)@.moved(delta as int));
    }

    /// The block that comment `c` is shown under in this pane.
    pub fn block_of_card(&self, c: &StoredComment) -> (r: Option<usize>)
        ensures
            match r {
                Some(b) => self@.card_block(c@) == Some(b as int) && b < self@.blocks.len(),
                None => self@.card_block(c@) is None,
            },
    {
        let file: String = self.file();
        if !same_text(file.as_str(), c.comment.file.as_str()) {
            return None;
        }
        let ghost view = self@;
        let (start, end): (u32, u32) = (c.comment.start, c.comment.end);
        let mut n: usize = self.doc.blocks.len();
        while n > 0
            invariant
                n <= self.doc.blocks@.len(),
                view == self@,
                view.card_block(c@) == view.home(start, end, n as int),
            decreases n,
        {
            let b: &Block = &self.doc.blocks[n - 1];
            assert(view.blocks[n - 1] == self.doc.blocks@[n - 1]@);
            if b.source_start <= end && b.source_end >= start {
                return Some(n - 1);
            }
            n -= 1;
        }
        None
    }

    /// For each block, which of `comments` are shown under it.
    pub fn card_lists(&self, comments: &CommentStore) -> (r: Vec<Vec<usize>>)
        ensures
            docview::lists_view(r@) == self@.cards(comments@),
    {
        let ghost view = self@;
        let n: usize = self.doc.blocks.len();
        let all: &Vec<StoredComment> = comments.iter();
        let ghost stored = comments@;
        let mut out: Vec<Vec<usize>> = Vec::new();
        while out.len() < n
            invariant
                out@.len() <= n == view.blocks.len(),
                forall|b: int| 0 <= b < out@.len() ==> (#[trigger] out@[b])@.len() == 0,
            decreases n - out@.len(),
        {
            out.push(Vec::new());
        }
        let mut i: usize = 0;
        while i < all.len()
            invariant
                i <= all@.len(),
                out@.len() == n == view.blocks.len(),
                view == self@,
                stored == model::stored_view(all@),
                forall|b: int|
                    0 <= b < n ==> (#[trigger] out@[b])@ == view.cards_at(stored, b, i as int),
            decreases all@.len() - i,
        {
            assert(stored[i as int] == all@[i as int]@);
            let ghost before = out@;
            if let Some(b) = self.block_of_card(&all[i]) {
                out[b].push(i);
                assert forall|k: int| 0 <= k < n implies (#[trigger] out@[k])@ == view.cards_at(
                    stored,
                    k,
                    i + 1,
                ) by {
                    assert(before[k]@ == view.cards_at(stored, k, i as int));
                    if k != b {
                        assert(out@[k] == before[k]);
                    }
                }
            } else {
                assert forall|k: int| 0 <= k < n implies (#[trigger] out@[k])@ == view.cards_at(
                    stored,
                    k,
                    i + 1,
                ) by {
                    assert(before[k]@ == view.cards_at(stored, k, i as int));
                }
            }
            i += 1;
        }
        assert(docview::lists_view(out@) =~= view.cards(stored)) by {
            assert forall|b: int| 0 <= b < n implies #[trigger] docview::lists_view(out@)[b]
                == view.cards(stored)[b] by {
                assert(out@[b]@ == view.cards_at(stored, b, all@.len() as int));
            }
        }
        out
    }
}

proof fn lemma_lines_span(d: DocView, lo: int, hi: int, b: int)
    requires
        lo <= b <= hi,
    ensures
        d.first_line(lo, hi) <= d.blocks[b].source_start,
        d.blocks[b].source_end <= d.last_line(lo, hi),
        exists|k: int| lo <= k <= hi && (#[trigger] d.blocks[k]).source_start == d.first_line(lo, hi),
        exists|k: int| lo <= k <= hi && (#[trigger] d.blocks[k]).source_end == d.last_line(lo, hi),
    decreases hi - lo,
{
    if lo < hi {
        lemma_lines_span(
            d,
            lo,
            hi - 1,
            if b < hi {
                b
            } else {
                lo
            },
        );
        let i = choose|k: int|
            lo <= k <= hi - 1 && (#[trigger] d.blocks[k]).source_start == d.first_line(lo, hi - 1);
        let j = choose|k: int|
            lo <= k <= hi - 1 && (#[trigger] d.blocks[k]).source_end == d.last_line(lo, hi - 1);
        assert(d.blocks[i].source_start == d.first_line(lo, hi) || d.blocks[hi].source_start
            == d.first_line(lo, hi));
        assert(d.blocks[j].source_end == d.last_line(lo, hi) || d.blocks[hi].source_end
            == d.last_line(lo, hi));
    } else {
        assert(d.blocks[lo].source_start == d.first_line(lo, hi));
        assert(d.blocks[lo].source_end == d.last_line(lo, hi));
    }
}

/// A comment's range spans every selected block and no further: it starts on the least first
/// line of them and ends on the greatest last line, and its snippet is the source between.
pub proof fn law_anchor_spans_the_selection(d: DocView, b: int)
    requires
        d.selection().0 <= b <= d.selection().1,
        0 <= b < d.blocks.len(),
    ensures
        d.anchor() matches Some((start, end, lines)) && start <= d.blocks[b].source_start
            && d.blocks[b].source_end <= end && lines == snippet::lines_between(
            d.source,
            start,
            end,
        ),
{
    let (lo, hi) = d.selection();
    let last = if hi < d.blocks.len() {
        hi
    } else {
        d.blocks.len() - 1
    };
    lemma_lines_span(d, lo, last, b);
}

proof fn lemma_home(d: DocView, start: u32, end: u32, n: int)
    ensures
        d.home(start, end, n) matches Some(b) ==> 0 <= b < n && d.covers(b, start, end)
            && forall|k: int| b < k < n ==> !#[trigger] d.covers(k, start, end),
        d.home(start, end, n) is None ==> forall|k: int|
            0 <= k < n ==> !#[trigger] d.covers(k, start, end),
    decreases n,
{
    if n > 0 && !d.covers(n - 1, start, end) {
        lemma_home(d, start, end, n - 1);
    }
}

proof fn lemma_cards_at(d: DocView, comments: Seq<StoredView>, b: int, n: int, c: int)
    requires
        0 <= n <= comments.len(),
        comments.len() <= usize::MAX,
        0 <= c,
    ensures
        d.cards_at(comments, b, n).contains(c as usize) && c <= usize::MAX <==> c < n
            && d.card_block(comments[c]) == Some(b),
    decreases n,
{
    if n > 0 {
        lemma_cards_at(d, comments, b, n - 1, c);
        let rest = d.cards_at(comments, b, n - 1);
        let all = d.cards_at(comments, b, n);
        if d.card_block(comments[n - 1]) == Some(b) {
            assert(all == rest.push((n - 1) as usize));
            if c == n - 1 {
                assert(all[rest.len() as int] == c as usize);
            }
            if rest.contains(c as usize) {
                let k = choose|k: int| 0 <= k < rest.len() && rest[k] == c as usize;
                assert(all[k] == c as usize);
            }
            if all.contains(c as usize) && c <= usize::MAX {
                let k = choose|k: int| 0 <= k < all.len() && all[k] == c as usize;
                if k < rest.len() {
                    assert(rest[k] == c as usize);
                }
            }
        }
    }
}

/// A card list names comments that exist.
pub proof fn lemma_cards_in_range(d: DocView, comments: Seq<StoredView>, b: int, n: int)
    requires
        0 <= n <= comments.len(),
        comments.len() <= usize::MAX,
    ensures
        forall|k: int|
            0 <= k < d.cards_at(comments, b, n).len() ==> (#[trigger] d.cards_at(comments, b, n)[k])
                < n,
    decreases n,
{
    if n > 0 {
        lemma_cards_in_range(d, comments, b, n - 1);
        let rest = d.cards_at(comments, b, n - 1);
        let all = d.cards_at(comments, b, n);
        assert forall|k: int| 0 <= k < all.len() implies (#[trigger] all[k]) < n by {
            if k < rest.len() {
                assert(all[k] == rest[k]);
            }
        }
    }
}

/// A comment on the lines of a block is shown in the pane of its file under exactly one block,
/// the last one that shares a line with it; no other block lists it.
pub proof fn law_comment_has_one_card(d: DocView, comments: Seq<StoredView>, c: int, b: int)
    requires
        0 <= c < comments.len() <= usize::MAX,
        comments[c].comment.file == d.file(),
        0 <= b < d.blocks.len(),
        d.covers(b, comments[c].comment.start, comments[c].comment.end),
    ensures
        ({
            let home = d.card_block(comments[c]);
            &&& home is Some
            &&& b <= home->0 < d.blocks.len()
            &&& d.covers(home->0, comments[c].comment.start, comments[c].comment.end)
            &&& forall|k: int|
                0 <= k < d.blocks.len() ==> (#[trigger] d.cards(comments)[k]).contains(c as usize)
                    == (k == home->0)
        }),
{
    let (start, end) = (comments[c].comment.start, comments[c].comment.end);
    lemma_home(d, start, end, d.blocks.len() as int);
    assert forall|k: int| 0 <= k < d.blocks.len() implies (#[trigger] d.cards(comments)[k])
        .contains(c as usize) == (Some(k) == d.card_block(comments[c])) by {
        lemma_cards_at(d, comments, k, comments.len() as int, c);
    }
}

/// Whether block `b` and comment `c` have a source line in common.
pub open spec fn share_a_line(b: BlockView, c: StoredView) -> bool {
    exists|line: u32|
        #![trigger on_line(b, line)]
        on_line(b, line) && c.comment.start <= line <= c.comment.end
}

/// Whether source line `line` is one of block `b`, its first and its last line included.
pub open spec fn on_line(b: BlockView, line: u32) -> bool {
    b.source_start <= line <= b.source_end
}

proof fn lemma_covers_is_sharing(d: DocView, b: int, c: StoredView)
    ensures
        share_a_line(d.blocks[b], c) ==> d.covers(b, c.comment.start, c.comment.end),
        d.blocks[b].source_start <= d.blocks[b].source_end && c.comment.start <= c.comment.end
            && d.covers(b, c.comment.start, c.comment.end) ==> share_a_line(d.blocks[b], c),
{
    let block = d.blocks[b];
    let line = if block.source_start < c.comment.start {
        c.comment.start
    } else {
        block.source_start
    };
    if block.source_start <= block.source_end && c.comment.start <= c.comment.end && d.covers(
        b,
        c.comment.start,
        c.comment.end,
    ) {
        assert(on_line(block, line));
    }
}

/// No comment on the lines of a document stays hidden. If any source line of a comment on the
/// file of the pane is a line of some block, the comment is listed under a block that holds one of
/// its lines, under the last such block, and under no other.
pub proof fn law_commented_lines_show_their_comment(
    d: DocView,
    comments: Seq<StoredView>,
    c: int,
    b: int,
)
    requires
        0 <= c < comments.len() <= usize::MAX,
        comments[c].comment.file == d.file(),
        comments[c].comment.start <= comments[c].comment.end,
        forall|k: int|
            0 <= k < d.blocks.len() ==> (#[trigger] d.blocks[k]).source_start
                <= d.blocks[k].source_end,
        0 <= b < d.blocks.len(),
        share_a_line(d.blocks[b], comments[c]),
    ensures
        exists|h: int|
            {
                &&& b <= h < d.blocks.len()
                &&& (#[trigger] d.cards(comments)[h]).contains(c as usize)
                &&& share_a_line(d.blocks[h], comments[c])
                &&& forall|k: int|
                    h < k < d.blocks.len() ==> !share_a_line(#[trigger] d.blocks[k], comments[c])
                &&& forall|k: int|
                    0 <= k < d.blocks.len() && k != h ==> !(#[trigger] d.cards(
                        comments,
                    )[k]).contains(c as usize)
            },
{
    let (start, end) = (comments[c].comment.start, comments[c].comment.end);
    lemma_covers_is_sharing(d, b, comments[c]);
    law_comment_has_one_card(d, comments, c, b);
    lemma_home(d, start, end, d.blocks.len() as int);
    let h = d.card_block(comments[c])->0;
    lemma_covers_is_sharing(d, h, comments[c]);
    assert(d.cards(comments)[h].contains(c as usize));
    assert forall|k: int| h < k < d.blocks.len() implies !share_a_line(
        #[trigger] d.blocks[k],
        comments[c],
    ) by {
        lemma_covers_is_sharing(d, k, comments[c]);
        assert(!d.covers(k, start, end));
    }
}

/// A block lists only comments on its own lines: each one is there, on the file of the pane, and
/// has a line in common with the block.
pub proof fn law_listed_comments_are_on_the_block(
    d: DocView,
    comments: Seq<StoredView>,
    b: int,
    k: int,
)
    requires
        comments.len() <= usize::MAX,
        0 <= b < d.blocks.len(),
        d.blocks[b].source_start <= d.blocks[b].source_end,
        0 <= k < d.cards(comments)[b].len(),
    ensures
        ({
            let i = d.cards(comments)[b][k] as int;
            &&& i < comments.len()
            &&& comments[i].comment.file == d.file()
            &&& comments[i].comment.start <= comments[i].comment.end ==> share_a_line(
                d.blocks[b],
                comments[i],
            )
        }),
{
    let n = comments.len() as int;
    lemma_cards_in_range(d, comments, b, n);
    let i = d.cards_at(comments, b, n)[k] as int;
    assert(d.cards_at(comments, b, n).contains(i as usize));
    lemma_cards_at(d, comments, b, n, i);
    lemma_home(
        d,
        comments[i].comment.start,
        comments[i].comment.end,
        d.blocks.len() as int,
    );
    lemma_covers_is_sharing(d, b, comments[i]);
}

proof fn lemma_cards_ascend(d: DocView, comments: Seq<StoredView>, b: int, n: int)
    requires
        0 <= n <= comments.len() <= usize::MAX,
    ensures
        forall|k: int, l: int|
            0 <= k < l < d.cards_at(comments, b, n).len() ==> (#[trigger] d.cards_at(
                comments,
                b,
                n,
            )[k]) < (#[trigger] d.cards_at(comments, b, n)[l]),
    decreases n,
{
    if n > 0 {
        lemma_cards_ascend(d, comments, b, n - 1);
        lemma_cards_in_range(d, comments, b, n - 1);
        let rest = d.cards_at(comments, b, n - 1);
        let all = d.cards_at(comments, b, n);
        assert forall|k: int, l: int| 0 <= k < l < all.len() implies (#[trigger] all[k]) < (
        #[trigger] all[l]) by {
            assert(all[k] == rest[k]);
            if l < rest.len() {
                assert(all[l] == rest[l]);
            }
        }
    }
}

/// The comments under a block stand in the order in which they were written, each once.
pub proof fn law_listed_comments_keep_their_order(
    d: DocView,
    comments: Seq<StoredView>,
    b: int,
    k: int,
    l: int,
)
    requires
        comments.len() <= usize::MAX,
        0 <= b < d.blocks.len(),
        0 <= k < l < d.cards(comments)[b].len(),
    ensures
        d.cards(comments).len() == d.blocks.len(),
        d.cards(comments)[b][k] < d.cards(comments)[b][l],
{
    lemma_cards_ascend(d, comments, b, comments.len() as int);
}

/// The selection is a run of blocks that ends at the cursor on one side and where it was started on
/// the other; without a start it is the cursor block alone.
pub proof fn law_selection_lies_between_start_and_cursor(d: DocView)
    ensures
        ({
            let (lo, hi) = d.selection();
            let at = d.cursor_block;
            &&& lo <= at <= hi
            &&& at == lo || at == hi
            &&& d.sel_anchor matches Some(from) ==> {
                &&& lo <= from <= hi
                &&& from == lo || from == hi
                &&& (from == at ==> lo == hi)
                &&& (from != at ==> lo < hi)
            }
            &&& d.sel_anchor is None ==> lo == hi
        }),
{
}

/// There is something to comment on just where the selection reaches a block of the document. A
/// comment on it starts on the first line of a selected block and ends on the last line of one, and
/// every selected block lies in between.
pub proof fn law_anchor_is_tight(d: DocView)
    requires
        0 <= d.cursor_block,
    ensures
        d.anchor() is Some <==> d.selection().0 < d.blocks.len(),
        d.anchor() matches Some((start, end, _)) ==> {
            let (lo, hi) = d.selection();
            &&& exists|b: int|
                lo <= b <= hi && b < d.blocks.len() && (#[trigger] d.blocks[b]).source_start
                    == start
            &&& exists|b: int|
                lo <= b <= hi && b < d.blocks.len() && (#[trigger] d.blocks[b]).source_end == end
            &&& forall|b: int|
                lo <= b <= hi && b < d.blocks.len() ==> start <= (
                #[trigger] d.blocks[b]).source_start && d.blocks[b].source_end <= end
        },
{
    let (lo, hi) = d.selection();
    if lo < d.blocks.len() {
        let last = if hi < d.blocks.len() {
            hi
        } else {
            d.blocks.len() - 1
        };
        lemma_lines_span(d, lo, last, lo);
        assert forall|b: int| lo <= b <= hi && b < d.blocks.len() implies d.first_line(lo, last)
            <= (#[trigger] d.blocks[b]).source_start && d.blocks[b].source_end <= d.last_line(
            lo,
            last,
        ) by {
            lemma_lines_span(d, lo, last, b);
        }
        let i = choose|k: int|
            lo <= k <= last && (#[trigger] d.blocks[k]).source_start == d.first_line(lo, last);
        let j = choose|k: int|
            lo <= k <= last && (#[trigger] d.blocks[k]).source_end == d.last_line(lo, last);
        assert(d.blocks[i].source_start == d.first_line(lo, last));
        assert(d.blocks[j].source_end == d.last_line(lo, last));
    }
}

/// Moving the cursor takes it as many blocks on as asked for, or to the end of the document in that
/// direction where there are not as many; nothing else about the pane changes.
pub proof fn law_moving_stays_in_the_document(d: DocView, delta: int)
    requires
        0 <= d.cursor_block < d.blocks.len(),
    ensures
        ({
            let m = d.moved(delta);
            &&& 0 <= m.cursor_block < d.blocks.len()
            &&& m == (DocView { cursor_block: m.cursor_block, ..d })
            &&& m.cursor_block - d.cursor_block != delta ==> if delta > 0 {
                m.cursor_block == d.blocks.len() - 1 && m.cursor_block - d.cursor_block < delta
            } else {
                m.cursor_block == 0 && m.cursor_block - d.cursor_block > delta
            }
        }),
{
}

/// Moving back the way one came returns to where one was, unless an end of the document was met.
pub proof fn law_moving_back_returns(d: DocView, delta: int)
    requires
        0 <= d.cursor_block < d.blocks.len(),
        0 <= d.cursor_block + delta < d.blocks.len(),
    ensures
        d.moved(delta).moved(-delta) == d,
{
}

/// A selection that was just started is the cursor block alone, and it reaches from there to
/// wherever the cursor goes; clearing it leaves the cursor block alone.
pub proof fn law_selecting_starts_at_the_cursor(d: DocView, to: int)
    requires
        0 <= d.cursor_block <= usize::MAX,
    ensures
        d.selecting().selection() == (d.cursor_block, d.cursor_block),
        d.cleared().selection() == (d.cursor_block, d.cursor_block),
        ({
            let there = DocView { cursor_block: to, ..d.selecting() };
            &&& there.selection() == (d.cursor_block, to) || there.selection() == (
                to,
                d.cursor_block,
            )
        }),
        d.selecting() == (DocView { sel_anchor: d.selecting().sel_anchor, ..d }),
        d.cleared() == (DocView { sel_anchor: d.cleared().sel_anchor, ..d }),
{
}

/// Extending a selection keeps the end where it was started: the blocks that were selected on that
/// side stay, and the other end goes where the cursor goes. Without a selection the cursor block is
/// where it starts.
pub proof fn law_extending_keeps_the_start(d: DocView, delta: int)
    requires
        0 <= d.cursor_block < d.blocks.len() <= usize::MAX,
    ensures
        ({
            let e = d.extended(delta);
            let from = match d.sel_anchor {
                Some(a) => a as int,
                None => d.cursor_block,
            };
            let (lo, hi) = e.selection();
            &&& e.cursor_block == d.moved(delta).cursor_block
            &&& (lo, hi) == (from, e.cursor_block) || (lo, hi) == (e.cursor_block, from)
            &&& e.blocks == d.blocks && e.source == d.source && e.path == d.path
            &&& e.scroll == d.scroll
        }),
{
}

/// A comment on a document belongs to the file that the pane shows.
pub proof fn law_comments_belong_to_the_shown_file(d: DocView)
    ensures
        d.path matches Some(p) ==> d.file() == p,
        d.path is None ==> d.file().len() == 0,
{
}

} // verus!
