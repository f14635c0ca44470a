//! The markdown files of a worktree: which paths count, and in what order they are listed.
use crate::order;
use crate::order::{Ranked, stable_order, text_less};
use crate::text;
use crate::text::{chars_of, same_text, string_of};
use vstd::prelude::*;

verus! {

/// A markdown file discovered in a repo's worktree.
#[derive(Clone, Debug, PartialEq, Eq)]
pub struct FileEntry {
    /// Repo-relative path, forward-slash separated.
    pub path: String,
    /// Last-modified time of the file on disk, in nanoseconds since the Unix epoch.
    pub mtime: i128,
    /// Whether this file is excluded from the tracked/untracked set by `.gitignore`.
    pub ignored: bool,
}

/// What a file entry says.
pub struct FileView {
    pub path: Seq<char>,
    pub mtime: i128,
    pub ignored: bool,
}

impl View for FileEntry {
    type V = FileView;

    open spec fn view(&self) -> FileView {
        FileView { path: self.path@, mtime: self.mtime, ignored: self.ignored }
    }
}

/// What each of `files` says.
pub open spec fn files_view(files: Seq<FileEntry>) -> Seq<FileView> {
    files.map_values(|f: FileEntry| f@)
}

/// `path` without separators, and single dots behind a separator, at its end.
pub open spec fn without_tail(path: Seq<char>) -> Seq<char>
    decreases path.len(),
{
    if path.len() > 0 && path.last() == '/' {
        without_tail(path.drop_last())
    } else if path.len() > 1 && path.last() == '.' && path[path.len() - 2] == '/' {
        without_tail(path.drop_last())
    } else {
        path
    }
}

/// The index after the last `c` in `s[..n]`, or 0 where there is none.
pub open spec fn after_last(s: Seq<char>, c: char, n: int) -> int
    decreases n,
{
    if n <= 0 {
        0
    } else if s[n - 1] == c {
        n
    } else {
        after_last(s, c, n - 1)
    }
}

/// The last component of a slash-separated path.
pub open spec fn file_name(path: Seq<char>) -> Seq<char> {
    let p = without_tail(path);
    p.skip(after_last(p, '/', p.len() as int))
}

/// The extension of a file name: what follows its last dot, where that dot is not its first
/// character. The parent directory has none.
pub open spec fn extension(name: Seq<char>) -> Option<Seq<char>> {
    let dot = after_last(name, '.', name.len() as int);
    if dot <= 1 || name == ".."@ {
        None
    } else {
        Some(name.skip(dot))
    }
}

/// The lower-case form of an ASCII letter, and any other character as it is.
pub open spec fn ascii_lower(c: char) -> char {
    if 'A' <= c <= 'Z' {
        (c as int + 32) as char
    } else {
        c
    }
}

/// `s` with its ASCII letters in lower case.
pub open spec fn lower(s: Seq<char>) -> Seq<char> {
    s.map_values(|c: char| ascii_lower(c))
}

/// Whether `path` has a `.md`/`.markdown` extension (case-insensitive).
pub open spec fn markdown_path(path: Seq<char>) -> bool {
    match extension(file_name(path)) {
        Some(ext) => lower(ext) == "md"@ || lower(ext) == "markdown"@,
        None => false,
    }
}

fn find_after_last(chars: &Vec<char>, from: usize, to: usize, c: char) -> (r: usize)
    requires
        from <= to <= chars@.len(),
    ensures
        r == after_last(chars@.subrange(from as int, to as int), c, to - from),
        r <= to - from,
{
    let ghost s = chars@.subrange(from as int, to as int);
    let mut n: usize = to - from;
    while n > 0 && chars[from + n - 1] != c
        invariant
            n <= to - from,
            from <= to <= chars@.len(),
            s == chars@.subrange(from as int, to as int),
            after_last(s, c, n as int) == after_last(s, c, to - from),
        decreases n,
    {
        assert(s[n - 1] == chars@[from + n - 1]);
        n -= 1;
    }
    assert(n > 0 ==> s[n - 1] == chars@[from + n - 1]);
    n
}

fn lowered(chars: &Vec<char>, from: usize) -> (r: String)
    requires
        from <= chars@.len(),
    ensures
        r@ == lower(chars@.skip(from as int)),
{
    let mut out: String = String::new();
    let mut i: usize = from;
    assert(out@ =~= lower(chars@.subrange(from as int, from as int)));
    while i < chars.len()
        invariant
            from <= i <= chars@.len(),
            out@ == lower(chars@.subrange(from as int, i as int)),
        decreases chars@.len() - i,
    {
        let c: char = chars[i];
        let d: char = if 'A' <= c && c <= 'Z' {
            (c as u8 + 32u8) as char
        } else {
            c
        };
        out.push(d);
        assert(out@ =~= lower(chars@.subrange(from as int, i + 1)));
        i += 1;
    }
    assert(chars@.subrange(from as int, i as int) =~= chars@.skip(from as int));
    out
}

/// Whether `path` has a `.md`/`.markdown` extension (case-insensitive).
pub fn is_markdown(path: &str) -> (r: bool)
    ensures
        r == markdown_path(path@),
{
    let all: Vec<char> = chars_of(path);
    let mut end: usize = all.len();
    assert(all@.take(end as int) =~= path@);
    while end > 0 && (all[end - 1] == '/' || (end > 1 && all[end - 1] == '.' && all[end - 2]
        == '/'))
        invariant
            end <= all@.len(),
            without_tail(all@.take(end as int)) == without_tail(path@),
        decreases end,
    {
        assert(all@.take(end as int).drop_last() =~= all@.take(end - 1));
        end -= 1;
    }
    let ghost p = all@.take(end as int);
    assert(p == without_tail(path@));
    assert(all@.subrange(0, end as int) =~= p);
    let start: usize = find_after_last(&all, 0, end, '/');
    let name_text: String = string_of(&all, start, end);
    assert(name_text@ =~= file_name(path@));
    let name: Vec<char> = chars_of(name_text.as_str());
    let dot: usize = find_after_last(&name, 0, name.len(), '.');
    assert(name@.subrange(0, name@.len() as int) =~= name@);
    if dot <= 1 || same_text(name_text.as_str(), "..") {
        return false;
    }
    let ext: String = lowered(&name, dot);
    same_text(ext.as_str(), "md") || same_text(ext.as_str(), "markdown")
}

/// The arguments of `git ls-files` that list tracked files and untracked ones that are not
/// ignored, or, for `ignored`, the ignored ones. With `-z` each path is printed as it is, with a
/// NUL behind it; without, git would put a name with unusual characters in quotes.
pub open spec fn list_args(ignored: bool) -> Seq<Seq<char>> {
    if ignored {
        seq!["-z"@, "--others"@, "--ignored"@, "--exclude-standard"@]
    } else {
        seq!["-z"@, "--cached"@, "--others"@, "--exclude-standard"@]
    }
}

/// The arguments of `git ls-files` that list tracked files and untracked ones that are not
/// ignored, or, for `ignored`, the ignored ones.
pub fn ls_files_args(ignored: bool) -> (r: Vec<&'static str>)
    ensures
        r@.map_values(|a: &'static str| a@) == list_args(ignored),
{
    let r: Vec<&'static str> = if ignored {
        vec!["-z", "--others", "--ignored", "--exclude-standard"]
    } else {
        vec!["-z", "--cached", "--others", "--exclude-standard"]
    };
    assert(r@.map_values(|a: &'static str| a@) =~= list_args(ignored));
    r
}

/// The index of the first NUL in `s` from index `i` on, or its length where there is none.
pub open spec fn record_end(s: Seq<char>, i: int) -> int
    decreases s.len() - i,
{
    if i >= s.len() {
        s.len() as int
    } else if s[i] == '\0' {
        i
    } else {
        record_end(s, i + 1)
    }
}

/// The records of `s` from index `i` on: a NUL ends a record, and the end of the text does so too
/// where a record is open there.
pub open spec fn records_from(s: Seq<char>, i: int) -> Seq<Seq<char>>
    decreases s.len() - i,
{
    if i >= s.len() || i < 0 {
        Seq::empty()
    } else {
        let e = record_end(s, i);
        if e >= s.len() || e < i {
            seq![s.subrange(i, s.len() as int)]
        } else {
            seq![s.subrange(i, e)] + records_from(s, e + 1)
        }
    }
}

/// The markdown paths among the first `n` of `paths`.
pub open spec fn markdown_among(paths: Seq<Seq<char>>, n: int) -> Seq<Seq<char>>
    decreases n,
{
    if n <= 0 {
        Seq::empty()
    } else if markdown_path(paths[n - 1]) {
        markdown_among(paths, n - 1).push(paths[n - 1])
    } else {
        markdown_among(paths, n - 1)
    }
}

fn find_record_end(chars: &Vec<char>, i: usize) -> (e: usize)
    requires
        i <= chars@.len(),
    ensures
        e == record_end(chars@, i as int),
        i <= e <= chars@.len(),
{
    let mut e: usize = i;
    while e < chars.len() && chars[e] != '\0'
        invariant
            i <= e <= chars@.len(),
            record_end(chars@, i as int) == record_end(chars@, e as int),
        decreases chars@.len() - e,
    {
        e += 1;
    }
    e
}

fn split_records(chars: &Vec<char>) -> (r: Vec<String>)
    ensures
        text::contents(r@) == records_from(chars@, 0),
{
    let ghost all = records_from(chars@, 0);
    let mut out: Vec<String> = Vec::new();
    let mut i: usize = 0;
    assert(text::contents(out@) + records_from(chars@, 0) =~= all);
    while i < chars.len()
        invariant
            i <= chars@.len(),
            text::contents(out@) + records_from(chars@, i as int) == all,
        decreases chars@.len() - i,
    {
        let ghost before = text::contents(out@);
        let e: usize = find_record_end(chars, i);
        let piece: String = string_of(chars, i, e);
        out.push(piece);
        assert(text::contents(out@) =~= before.push(piece@));
        if e == chars.len() {
            assert(records_from(chars@, e as int) =~= Seq::<Seq<char>>::empty());
            assert(text::contents(out@) + records_from(chars@, e as int) =~= before
                + records_from(chars@, i as int));
            i = e;
        } else {
            assert(text::contents(out@) + records_from(chars@, e + 1) =~= before
                + records_from(chars@, i as int));
            i = e + 1;
        }
    }
    assert(text::contents(out@) =~= all);
    out
}

/// The markdown paths among those that `git ls-files` printed with [`ls_files_args`].
pub fn markdown_paths(stdout: &str) -> (r: Vec<String>)
    ensures
        text::contents(r@) == markdown_among(
            records_from(stdout@, 0),
            records_from(stdout@, 0).len() as int,
        ),
{
    let chars: Vec<char> = chars_of(stdout);
    let paths: Vec<String> = split_records(&chars);
    let ghost all = text::contents(paths@);
    let mut out: Vec<String> = Vec::new();
    let mut i: usize = 0;
    assert(text::contents(out@) =~= markdown_among(all, 0));
    while i < paths.len()
        invariant
            i <= paths@.len(),
            all == text::contents(paths@),
            text::contents(out@) == markdown_among(all, i as int),
        decreases paths@.len() - i,
    {
        let ghost before = text::contents(out@);
        if is_markdown(paths[i].as_str()) {
            let path: String = paths[i].clone();
            out.push(path);
            assert(text::contents(out@) =~= before.push(all[i as int]));
        }
        i += 1;
    }
    out
}

/// `paths` as `git ls-files` prints them: each as it is, with a NUL behind it.
pub open spec fn printed(paths: Seq<Seq<char>>) -> Seq<char>
    decreases paths.len(),
{
    if paths.len() == 0 {
        Seq::empty()
    } else {
        paths[0].push('\0') + printed(paths.skip(1))
    }
}

proof fn lemma_record_end(s: Seq<char>, i: int, e: int)
    requires
        0 <= i <= e < s.len(),
        s[e] == '\0',
        forall|k: int| i <= k < e ==> s[k] != '\0',
    ensures
        record_end(s, i) == e,
    decreases e - i,
{
    if i < e {
        lemma_record_end(s, i + 1, e);
    }
}

proof fn lemma_printed_paths(before: Seq<char>, paths: Seq<Seq<char>>)
    requires
        forall|k: int| 0 <= k < paths.len() ==> !(#[trigger] paths[k]).contains('\0'),
    ensures
        records_from(before + printed(paths), before.len() as int) == paths,
    decreases paths.len(),
{
    let s = before + printed(paths);
    let i = before.len() as int;
    if paths.len() == 0 {
        assert(records_from(s, i) =~= paths);
    } else {
        let rest = paths.skip(1);
        let first = paths[0];
        let e = i + first.len();
        let next = before + first.push('\0');
        assert(s =~= next + printed(rest));
        assert forall|k: int| i <= k < e implies s[k] != '\0' by {
            assert(s[k] == first[k - i]);
            assert(!paths[0].contains('\0'));
        }
        assert(s[e] == '\0');
        lemma_record_end(s, i, e);
        assert forall|k: int| 0 <= k < rest.len() implies !(#[trigger] rest[k]).contains('\0') by {
            assert(rest[k] == paths[k + 1]);
        }
        lemma_printed_paths(next, rest);
        assert(s.subrange(i, e) =~= first);
        assert(seq![first] + rest =~= paths);
    }
}

proof fn lemma_among_holds(paths: Seq<Seq<char>>, n: int, k: int)
    requires
        0 <= k < n <= paths.len(),
        markdown_path(paths[k]),
    ensures
        markdown_among(paths, n).contains(paths[k]),
    decreases n,
{
    let rest = markdown_among(paths, n - 1);
    if k == n - 1 {
        assert(markdown_among(paths, n).last() == paths[k]);
    } else {
        lemma_among_holds(paths, n - 1, k);
        let j = choose|j: int| 0 <= j < rest.len() && rest[j] == paths[k];
        assert(markdown_among(paths, n)[j] == paths[k]);
    }
}

/// The paths that git prints are read back as they are, whatever characters their names have, so
/// that no markdown file is left out for its name. No path holds a NUL.
pub proof fn law_every_printed_path_is_read_back(paths: Seq<Seq<char>>)
    requires
        forall|k: int| 0 <= k < paths.len() ==> !(#[trigger] paths[k]).contains('\0'),
    ensures
        records_from(printed(paths), 0) == paths,
        forall|k: int|
            0 <= k < paths.len() && markdown_path(#[trigger] paths[k]) ==> markdown_among(
                records_from(printed(paths), 0),
                records_from(printed(paths), 0).len() as int,
            ).contains(paths[k]),
{
    lemma_printed_paths(Seq::empty(), paths);
    assert(Seq::<char>::empty() + printed(paths) =~= printed(paths));
    assert forall|k: int|
        0 <= k < paths.len() && markdown_path(#[trigger] paths[k]) implies markdown_among(
        paths,
        paths.len() as int,
    ).contains(paths[k]) by {
        lemma_among_holds(paths, paths.len() as int, k);
    }
}

/// A path that `git ls-files` printed, with the modification time of its file where that can
/// be read.
#[derive(Clone, Debug)]
pub struct Listed {
    pub path: String,
    pub mtime: Option<i128>,
}

/// `path` with forward slashes for backslashes.
pub open spec fn forward(path: Seq<char>) -> Seq<char> {
    path.map_values(
        |c: char|
            if c == '\\' {
                '/'
            } else {
                c
            },
    )
}

/// The entries for the first `n` of `listed`: those that are markdown and whose time could be
/// read.
pub open spec fn entries_of(listed: Seq<Listed>, ignored: bool, n: int) -> Seq<FileView>
    decreases n,
{
    if n <= 0 {
        Seq::empty()
    } else {
        let rest = entries_of(listed, ignored, n - 1);
        let one = listed[n - 1];
        match one.mtime {
            Some(mtime) => if markdown_path(one.path@) {
                rest.push(FileView { path: forward(one.path@), mtime, ignored })
            } else {
                rest
            },
            None => rest,
        }
    }
}

fn forward_slashes(path: &str) -> (r: String)
    ensures
        r@ == forward(path@),
{
    let chars: Vec<char> = chars_of(path);
    let mut out: String = String::new();
    let mut i: usize = 0;
    assert(out@ =~= forward(chars@.take(0)));
    while i < chars.len()
        invariant
            i <= chars@.len(),
            out@ == forward(chars@.take(i as int)),
        decreases chars@.len() - i,
    {
        let c: char = if chars[i] == '\\' {
            '/'
        } else {
            chars[i]
        };
        out.push(c);
        assert(out@ =~= forward(chars@.take(i + 1)));
        i += 1;
    }
    assert(chars@.take(i as int) =~= path@);
    out
}

/// Append the markdown files among `listed` to `out`.
pub fn list_files(listed: &Vec<Listed>, ignored: bool, out: &mut Vec<FileEntry>)
    ensures
        files_view(final(out)@) == files_view(old(out)@) + entries_of(
            listed@,
            ignored,
            listed@.len() as int,
        ),
{
    let ghost start = files_view(out@);
    let mut i: usize = 0;
    assert(start + entries_of(listed@, ignored, 0) =~= start);
    while i < listed.len()
        invariant
            i <= listed@.len(),
            files_view(out@) == start + entries_of(listed@, ignored, i as int),
        decreases listed@.len() - i,
    {
        let ghost before = files_view(out@);
        if let Some(mtime) = listed[i].mtime {
            if is_markdown(listed[i].path.as_str()) {
                let entry: FileEntry = FileEntry {
                    path: forward_slashes(listed[i].path.as_str()),
                    mtime,
                    ignored,
                };
                out.push(entry);
                assert(files_view(out@) =~= before.push(entry@));
                assert(files_view(out@) =~= start + entries_of(listed@, ignored, i + 1));
            }
        }
        i += 1;
    }
}

/// Whether `a` is listed before `b`: the newer first, and of two of one time by path.
pub open spec fn listed_before(a: FileView, b: FileView) -> bool {
    a.mtime > b.mtime || (a.mtime == b.mtime && order::text_before(a.path, b.path))
}

impl Ranked for FileEntry {
    open spec fn precedes(&self, other: &Self) -> bool {
        listed_before(self@, other@)
    }

    proof fn ranks_one_way(a: &Self, b: &Self) {
        order::law_text_order_is_total(a@.path, b@.path);
    }

    proof fn ranks_in_line(a: &Self, b: &Self, c: &Self) {
        let (x, y, z) = (a@.path, b@.path, c@.path);
        order::law_text_order_is_total(x, y);
        order::law_text_order_is_total(y, z);
        order::law_text_order_is_total(x, z);
        if order::text_before(x, y) && order::text_before(y, z) {
            order::law_text_order_is_transitive(x, y, z);
        }
    }

    fn comes_before(&self, other: &Self) -> (r: bool) {
        if self.mtime > other.mtime {
            true
        } else {
            self.mtime == other.mtime && text_less(self.path.as_str(), other.path.as_str())
        }
    }
}

/// The entries of both listings, the ignored ones only where they are shown.
pub open spec fn all_entries(present: Seq<Listed>, ignored: Seq<Listed>, show_ignored: bool) -> Seq<
    FileView,
> {
    entries_of(present, false, present.len() as int) + if show_ignored {
        entries_of(ignored, true, ignored.len() as int)
    } else {
        Seq::empty()
    }
}

/// Whether `order` lists `entries` newest first, and files of one time by path.
pub open spec fn list_order(entries: Seq<FileView>, order: Seq<usize>) -> bool {
    &&& order::lists_all(order, entries.len() as int)
    &&& order::sorts_by(order, |i: int, j: int| listed_before(entries[i], entries[j]))
}

/// Whether `listed` are `entries`, each once, the newest first and ties by path.
pub open spec fn newest_first(listed: Seq<FileView>, entries: Seq<FileView>) -> bool {
    exists|order: Seq<usize>| #[trigger]
        list_order(entries, order) && listed == order.map_values(|i: usize| entries[i as int])
}

/// The markdown (`.md`/`.markdown`, case-insensitive) files of a worktree, sorted
/// newest-modified first (ties broken by path, ascending).
///
/// Tracked files and untracked-but-not-ignored files are always included. When `show_ignored`
/// is set, gitignored markdown files are also included and marked `ignored: true`.
pub fn markdown_files(present: &Vec<Listed>, ignored: &Vec<Listed>, show_ignored: bool) -> (r: Vec<
    FileEntry,
>)
    ensures
        newest_first(files_view(r@), all_entries(present@, ignored@, show_ignored)),
{
    let mut entries: Vec<FileEntry> = Vec::new();
    list_files(present, false, &mut entries);
    if show_ignored {
        list_files(ignored, true, &mut entries);
    }
    let ghost all = all_entries(present@, ignored@, show_ignored);
    assert(files_view(entries@) =~= all);
    let mut refs: Vec<&FileEntry> = Vec::new();
    let mut i: usize = 0;
    while i < entries.len()
        invariant
            i <= entries@.len(),
            refs@.len() == i,
            forall|k: int| 0 <= k < i ==> *(#[trigger] refs@[k]) == entries@[k],
        decreases entries@.len() - i,
    {
        refs.push(&entries[i]);
        i += 1;
    }
    let order: Vec<usize> = stable_order(refs.as_slice());
    let mut out: Vec<FileEntry> = Vec::new();
    let mut n: usize = 0;
    while n < order.len()
        invariant
            n <= order@.len(),
            order::lists_all(order@, entries@.len() as int),
            out@.len() == n,
            forall|k: int|
                0 <= k < n ==> (#[trigger] out@[k])@ == entries@[order@[k] as int]@,
        decreases order@.len() - n,
    {
        let e: &FileEntry = &entries[order[n]];
        out.push(FileEntry { path: e.path.clone(), mtime: e.mtime, ignored: e.ignored });
        n += 1;
    }
    proof {
        assert(forall|k: int| 0 <= k < all.len() ==> #[trigger] all[k] == entries@[k]@);
        assert(files_view(out@) =~= order@.map_values(|i: usize| all[i as int]));
        let by_rank = |i: int, j: int| refs@[i].precedes(refs@[j]);
        let by_view = |i: int, j: int| listed_before(all[i], all[j]);
        assert forall|k: int, l: int| 0 <= k < l < order@.len() implies {
            let (a, b) = (#[trigger] order@[k], #[trigger] order@[l]);
            !by_view(b as int, a as int) && (by_view(a as int, b as int) || a < b)
        } by {
            let (a, b) = (order@[k] as int, order@[l] as int);
            assert(refs@[a]@ == all[a] && refs@[b]@ == all[b]);
            assert(by_rank(b, a) == by_view(b, a) && by_rank(a, b) == by_view(a, b));
        }
        assert(list_order(all, order@));
    }
    out
}

/// Every entry stems from a listed path with a markdown extension and a readable time, and says
/// whether it was listed as ignored.
pub proof fn law_entries_are_markdown(listed: Seq<Listed>, ignored: bool, n: int)
    requires
        n <= listed.len(),
    ensures
        forall|k: int|
            0 <= k < entries_of(listed, ignored, n).len() ==> {
                let e = #[trigger] entries_of(listed, ignored, n)[k];
                &&& e.ignored == ignored
                &&& exists|j: int|
                    0 <= j < n && markdown_path((#[trigger] listed[j]).path@) && e.path == forward(
                        listed[j].path@,
                    ) && listed[j].mtime == Some(e.mtime)
            },
    decreases n,
{
    if n > 0 {
        law_entries_are_markdown(listed, ignored, n - 1);
        let rest = entries_of(listed, ignored, n - 1);
        let all = entries_of(listed, ignored, n);
        assert forall|k: int| 0 <= k < all.len() implies {
            let e = #[trigger] all[k];
            &&& e.ignored == ignored
            &&& exists|j: int|
                0 <= j < n && markdown_path((#[trigger] listed[j]).path@) && e.path == forward(
                    listed[j].path@,
                ) && listed[j].mtime == Some(e.mtime)
        } by {
            if k < rest.len() {
                assert(all[k] == rest[k]);
            } else {
                let one = listed[n - 1];
                assert(markdown_path(one.path@));
            }
        }
    }
}

/// Without `show_ignored` no ignored file is listed, whatever the listing of ignored files
/// holds.
pub proof fn law_ignored_files_stay_hidden(present: Seq<Listed>, ignored: Seq<Listed>)
    ensures
        forall|k: int|
            0 <= k < all_entries(present, ignored, false).len() ==> !(#[trigger] all_entries(
                present,
                ignored,
                false,
            )[k]).ignored,
{
    law_entries_are_markdown(present, false, present.len() as int);
    let listed = entries_of(present, false, present.len() as int);
    assert(all_entries(present, ignored, false) =~= listed);
}

/// The indices below `n` among the first `m` of `order`, in their order.
spec fn below(order: Seq<usize>, n: int, m: int) -> Seq<usize>
    decreases m,
{
    if m <= 0 {
        Seq::empty()
    } else if order[m - 1] < n {
        below(order, n, m - 1).push(order[m - 1])
    } else {
        below(order, n, m - 1)
    }
}

/// Where each of the entries of `below` stands in `order`.
proof fn lemma_below(order: Seq<usize>, n: int, m: int) -> (at: Seq<int>)
    requires
        0 <= m <= order.len(),
    ensures
        at.len() == below(order, n, m).len(),
        forall|k: int|
            0 <= k < at.len() ==> 0 <= #[trigger] at[k] < m && order[at[k]] == below(order, n, m)[k]
                && order[at[k]] < n,
        forall|k: int, l: int| 0 <= k < l < at.len() ==> #[trigger] at[k] < #[trigger] at[l],
        forall|j: int| 0 <= j < m && #[trigger] order[j] < n ==> at.contains(j),
    decreases m,
{
    if m <= 0 {
        Seq::empty()
    } else {
        let rest = lemma_below(order, n, m - 1);
        if order[m - 1] < n {
            let at = rest.push(m - 1);
            assert forall|j: int| 0 <= j < m && #[trigger] order[j] < n implies at.contains(j) by {
                if j == m - 1 {
                    assert(at[rest.len() as int] == j);
                } else {
                    let k = choose|k: int| 0 <= k < rest.len() && rest[k] == j;
                    assert(at[k] == j);
                }
            }
            at
        } else {
            rest
        }
    }
}

proof fn lemma_below_lists_all(order: Seq<usize>, n: int, m: int)
    requires
        order::lists_all(order, m),
        0 <= n <= m <= usize::MAX,
    ensures
        order::lists_all(below(order, n, m), n),
{
    let at = lemma_below(order, n, m);
    let sub = below(order, n, m);
    assert forall|k: int, l: int| 0 <= k < l < sub.len() implies #[trigger] sub[k]
        != #[trigger] sub[l] by {
        assert(at[k] < at[l]);
        assert(order[at[k]] != order[at[l]]);
    }
    assert forall|k: int| 0 <= k < sub.len() implies #[trigger] sub[k] < n by {
        assert(order[at[k]] == sub[k]);
    }
    let held = sub.to_set();
    let all = Set::new(|i: usize| i < n);
    assert forall|i: usize| #[trigger] all.contains(i) implies held.contains(i) by {
        order::lemma_each_index_is_listed(order, m, i);
        let j = choose|j: int| 0 <= j < m && #[trigger] order[j] == i;
        assert(at.contains(j));
        let k = choose|k: int| 0 <= k < at.len() && at[k] == j;
        assert(sub[k] == i);
    }
    assert(held =~= all);
    assert(sub.no_duplicates());
    sub.unique_seq_to_set();
    lemma_count_below(n);
}

proof fn lemma_count_below(n: int)
    requires
        0 <= n <= usize::MAX,
    ensures
        Set::new(|i: usize| i < n).finite(),
        Set::new(|i: usize| i < n).len() == n,
    decreases n,
{
    let all = Set::new(|i: usize| i < n);
    if n == 0 {
        assert(all =~= Set::empty());
    } else {
        lemma_count_below(n - 1);
        let rest = Set::new(|i: usize| i < n - 1);
        assert(all =~= rest.insert((n - 1) as usize));
    }
}

/// The entries of `files` that are not ignored.
pub open spec fn not_ignored(files: Seq<FileView>) -> Seq<FileView> {
    files.filter(|f: FileView| !f.ignored)
}

proof fn lemma_not_ignored(order: Seq<usize>, entries: Seq<FileView>, n: int, m: int)
    requires
        0 <= m <= order.len(),
        forall|k: int| 0 <= k < order.len() ==> #[trigger] order[k] < entries.len(),
        forall|i: int| 0 <= i < entries.len() ==> ((#[trigger] entries[i]).ignored <==> i >= n),
    ensures
        not_ignored(order.take(m).map_values(|i: usize| entries[i as int])) == below(
            order,
            n,
            m,
        ).map_values(|i: usize| entries[i as int]),
    decreases m,
{
    reveal(Seq::filter);
    let f = |i: usize| entries[i as int];
    let files = order.take(m).map_values(f);
    if m > 0 {
        lemma_not_ignored(order, entries, n, m - 1);
        assert(files.drop_last() =~= order.take(m - 1).map_values(f));
        assert(files.last() == entries[order[m - 1] as int]);
        assert(order[m - 1] < entries.len());
        assert(not_ignored(files) =~= below(order, n, m).map_values(f));
    } else {
        assert(files =~= Seq::empty());
        assert(not_ignored(files) =~= below(order, n, m).map_values(f));
    }
}

/// Showing ignored files only adds to the list: its entries that are not ignored are, in order,
/// the list without them, and each further entry stems from the listing of ignored files.
pub proof fn law_ignored_files_only_add(
    present: Seq<Listed>,
    ignored: Seq<Listed>,
    hidden: Seq<FileView>,
    shown: Seq<FileView>,
)
    requires
        newest_first(hidden, all_entries(present, ignored, false)),
        newest_first(shown, all_entries(present, ignored, true)),
        all_entries(present, ignored, true).len() <= usize::MAX,
    ensures
        not_ignored(shown) == hidden,
        hidden.len() <= shown.len(),
        forall|k: int|
            0 <= k < shown.len() && (#[trigger] shown[k]).ignored ==> entries_of(
                ignored,
                true,
                ignored.len() as int,
            ).contains(shown[k]),
{
    let few = all_entries(present, ignored, false);
    let all = all_entries(present, ignored, true);
    let extra = entries_of(ignored, true, ignored.len() as int);
    let n = few.len() as int;
    let m = all.len() as int;
    law_entries_are_markdown(present, false, present.len() as int);
    law_entries_are_markdown(ignored, true, ignored.len() as int);
    assert(few =~= entries_of(present, false, present.len() as int));
    assert forall|i: int| 0 <= i < m implies ((#[trigger] all[i]).ignored <==> i >= n) && (i < n
        ==> all[i] == few[i]) && (i >= n ==> all[i] == extra[i - n]) by {
        if i < n {
            assert(all[i] == few[i]);
        } else {
            assert(all[i] == extra[i - n]);
        }
    }
    let a = choose|order: Seq<usize>| #[trigger]
        list_order(few, order) && hidden == order.map_values(|i: usize| few[i as int]);
    let b = choose|order: Seq<usize>| #[trigger]
        list_order(all, order) && shown == order.map_values(|i: usize| all[i as int]);
    let sub = below(b, n, m);
    let at = lemma_below(b, n, m);
    lemma_below_lists_all(b, n, m);
    let before = |i: int, j: int| listed_before(few[i], few[j]);
    let before_all = |i: int, j: int| listed_before(all[i], all[j]);
    assert forall|k: int, l: int| 0 <= k < l < sub.len() implies {
        let (x, y) = (#[trigger] sub[k], #[trigger] sub[l]);
        !before(y as int, x as int) && (before(x as int, y as int) || x < y)
    } by {
        assert(at[k] < at[l]);
        let (x, y) = (b[at[k]], b[at[l]]);
        assert(x == sub[k] && y == sub[l]);
        assert(!before_all(y as int, x as int) && (before_all(x as int, y as int) || x < y));
    }
    order::law_stable_order_is_unique(n, before, a, sub);
    lemma_not_ignored(b, all, n, m);
    assert(b.take(m) =~= b);
    assert(sub.map_values(|i: usize| all[i as int]) =~= hidden);
    assert forall|k: int|
        0 <= k < shown.len() && (#[trigger] shown[k]).ignored implies extra.contains(shown[k]) by {
        let i = b[k] as int;
        assert(shown[k] == all[i]);
        assert(extra[i - n] == shown[k]);
    }
}

/// In the list no file stands behind an older one, and files of one time stand by path.
pub proof fn law_no_file_stands_behind_an_older_one(
    listed: Seq<FileView>,
    entries: Seq<FileView>,
    k: int,
    l: int,
)
    requires
        newest_first(listed, entries),
        0 <= k < l < listed.len(),
    ensures
        listed.len() == entries.len(),
        listed[k].mtime >= listed[l].mtime,
        listed[k].mtime == listed[l].mtime ==> !order::text_before(listed[l].path, listed[k].path),
{
    let order = choose|order: Seq<usize>| #[trigger]
        list_order(entries, order) && listed == order.map_values(|i: usize| entries[i as int]);
    let before = |i: int, j: int| listed_before(entries[i], entries[j]);
    assert(!before(order[l] as int, order[k] as int));
    assert(listed[k] == entries[order[k] as int] && listed[l] == entries[order[l] as int]);
}

/// Whether `s` spells `word`, which is in lower case, in letters of either case.
pub open spec fn spells(s: Seq<char>, word: Seq<char>) -> bool {
    &&& s.len() == word.len()
    &&& forall|i: int|
        0 <= i < s.len() ==> (#[trigger] s[i] == word[i] || ('a' <= word[i] <= 'z' && s[i] as int
            == word[i] as int - 32))
}

proof fn lemma_lower_spells(s: Seq<char>, word: Seq<char>)
    requires
        forall|i: int| 0 <= i < word.len() ==> !('A' <= #[trigger] word[i] <= 'Z'),
    ensures
        lower(s) == word <==> spells(s, word),
{
    if lower(s) == word {
        assert forall|i: int| 0 <= i < s.len() implies (#[trigger] s[i] == word[i] || ('a'
            <= word[i] <= 'z' && s[i] as int == word[i] as int - 32)) by {
            assert(lower(s)[i] == ascii_lower(s[i]));
        }
        assert(lower(s).len() == s.len());
    }
    if spells(s, word) {
        assert forall|i: int| 0 <= i < s.len() implies #[trigger] lower(s)[i] == word[i] by {
            assert(s[i] == word[i] || ('a' <= word[i] <= 'z' && s[i] as int == word[i] as int
                - 32));
        }
        assert(lower(s) =~= word);
    }
}

proof fn lemma_after_last(s: Seq<char>, c: char, n: int, at: int)
    requires
        0 <= at < n <= s.len(),
        s[at] == c,
        forall|k: int| at < k < n ==> s[k] != c,
    ensures
        after_last(s, c, n) == at + 1,
    decreases n,
{
    if n - 1 > at {
        lemma_after_last(s, c, n - 1, at);
    }
}

proof fn lemma_after_none(s: Seq<char>, c: char, n: int)
    requires
        0 <= n <= s.len(),
        forall|k: int| 0 <= k < n ==> s[k] != c,
    ensures
        after_last(s, c, n) == 0,
    decreases n,
{
    if n > 0 {
        lemma_after_none(s, c, n - 1);
    }
}

proof fn lemma_file_name(dir: Seq<char>, name: Seq<char>)
    requires
        dir.len() == 0 || dir.last() == '/',
        name.len() > 0,
        !name.contains('/'),
        name.last() != '.',
    ensures
        file_name(dir + name) == name,
{
    let path = dir + name;
    assert(path.last() == name.last());
    assert(name.contains(name[name.len() - 1]));
    assert(without_tail(path) == path);
    let n = path.len() as int;
    assert forall|k: int| dir.len() <= k < n implies path[k] != '/' by {
        assert(path[k] == name[k - dir.len()]);
        assert(name.contains(name[k - dir.len()]));
    }
    if dir.len() > 0 {
        assert(path[dir.len() - 1] == '/');
        lemma_after_last(path, '/', n, dir.len() - 1);
    } else {
        lemma_after_none(path, '/', n);
    }
    assert(path.skip(dir.len() as int) =~= name);
}

/// A file is markdown by its extension alone: whatever directory it lies in and whatever its stem
/// is, it counts just where what follows its last dot spells `md` or `markdown`, in letters of
/// either case.
pub proof fn law_the_extension_decides(dir: Seq<char>, stem: Seq<char>, ext: Seq<char>)
    requires
        dir.len() == 0 || dir.last() == '/',
        stem.len() > 0,
        ext.len() > 0,
        !stem.contains('/'),
        !ext.contains('/'),
        !ext.contains('.'),
    ensures
        markdown_path(dir + (stem + seq!['.'] + ext)) <==> spells(ext, seq!['m', 'd']) || spells(
            ext,
            seq!['m', 'a', 'r', 'k', 'd', 'o', 'w', 'n'],
        ),
{
    reveal_strlit("md");
    reveal_strlit("markdown");
    reveal_strlit("..");
    let name = stem + seq!['.'] + ext;
    let n = name.len() as int;
    let at = stem.len() as int;
    assert(name.last() == ext.last());
    assert(ext.contains(ext[ext.len() - 1]));
    assert forall|k: int| 0 <= k < n implies name[k] != '/' by {
        if k < at {
            assert(stem.contains(stem[k]));
        } else if k > at {
            assert(ext.contains(ext[k - at - 1]));
        }
    }
    assert(!name.contains('/'));
    lemma_file_name(dir, name);
    assert forall|k: int| at < k < n implies name[k] != '.' by {
        assert(ext.contains(ext[k - at - 1]));
    }
    lemma_after_last(name, '.', n, at);
    assert(name.skip(at + 1) =~= ext);
    assert(name[n - 1] != '.');
    assert("md"@ =~= seq!['m', 'd']);
    assert("markdown"@ =~= seq!['m', 'a', 'r', 'k', 'd', 'o', 'w', 'n']);
    lemma_lower_spells(ext, "md"@);
    lemma_lower_spells(ext, "markdown"@);
}

/// A file without an extension is no markdown file, and neither is one whose only dot is its first
/// character.
pub proof fn law_no_extension_is_no_markdown(dir: Seq<char>, name: Seq<char>)
    requires
        dir.len() == 0 || dir.last() == '/',
        name.len() > 1,
        !name.contains('/'),
        forall|k: int| 0 < k < name.len() ==> name[k] != '.',
    ensures
        !markdown_path(dir + name),
{
    lemma_file_name(dir, name);
    let n = name.len() as int;
    if name[0] == '.' {
        lemma_after_last(name, '.', n, 0);
    } else {
        lemma_after_none(name, '.', n);
    }
}

/// The paths that count are kept one by one: one more path adds itself at the end where it is a
/// markdown path, and nothing otherwise.
pub proof fn law_markdown_paths_are_kept_in_order(paths: Seq<Seq<char>>, p: Seq<char>)
    ensures
        ({
            let n = paths.len() as int;
            markdown_among(paths.push(p), n + 1) == if markdown_path(p) {
                markdown_among(paths, n).push(p)
            } else {
                markdown_among(paths, n)
            }
        }),
        markdown_among(Seq::empty(), 0).len() == 0,
{
    lemma_among_same(paths, paths.push(p), paths.len() as int);
}

proof fn lemma_among_same(a: Seq<Seq<char>>, b: Seq<Seq<char>>, n: int)
    requires
        0 <= n <= a.len(),
        n <= b.len(),
        forall|k: int| 0 <= k < n ==> #[trigger] a[k] == b[k],
    ensures
        markdown_among(a, n) == markdown_among(b, n),
    decreases n,
{
    if n > 0 {
        lemma_among_same(a, b, n - 1);
        assert(a[n - 1] == b[n - 1]);
    }
}

/// Files are taken up one by one: one more listed path adds an entry at the end where it is a
/// markdown path whose time could be read, with its path in forward slashes, that time and whether
/// it was listed as ignored; otherwise it adds nothing.
pub proof fn law_listed_files_are_taken_up_in_order(
    listed: Seq<Listed>,
    ignored: bool,
    x: Listed,
)
    ensures
        ({
            let n = listed.len() as int;
            let before = entries_of(listed, ignored, n);
            let after = entries_of(listed.push(x), ignored, n + 1);
            if markdown_path(x.path@) && x.mtime is Some {
                &&& after.len() == before.len() + 1
                &&& after.drop_last() == before
                &&& after.last().mtime == x.mtime->0
                &&& after.last().ignored == ignored
                &&& after.last().path.len() == x.path@.len()
                &&& forall|k: int|
                    0 <= k < x.path@.len() ==> #[trigger] after.last().path[k] == if x.path@[k]
                        == '\\' {
                        '/'
                    } else {
                        x.path@[k]
                    }
            } else {
                after == before
            }
        }),
        entries_of(Seq::empty(), ignored, 0).len() == 0,
{
    let n = listed.len() as int;
    lemma_entries_same(listed, listed.push(x), ignored, n);
    let before = entries_of(listed, ignored, n);
    let after = entries_of(listed.push(x), ignored, n + 1);
    if markdown_path(x.path@) && x.mtime is Some {
        assert(after.drop_last() =~= before);
    }
}

proof fn lemma_entries_same(a: Seq<Listed>, b: Seq<Listed>, ignored: bool, n: int)
    requires
        0 <= n <= a.len(),
        n <= b.len(),
        forall|k: int| 0 <= k < n ==> #[trigger] a[k] == b[k],
    ensures
        entries_of(a, ignored, n) == entries_of(b, ignored, n),
    decreases n,
{
    if n > 0 {
        lemma_entries_same(a, b, ignored, n - 1);
        assert(a[n - 1] == b[n - 1]);
    }
}

/// The list holds the entries of both listings, or of the first alone where ignored files are not
/// shown: each one once and nothing else, the newest first, and of two of one time the one whose
/// path comes first.
pub proof fn law_the_list_holds_every_entry_once(
    listed: Seq<FileView>,
    present: Seq<Listed>,
    ignored: Seq<Listed>,
    show_ignored: bool,
)
    requires
        newest_first(listed, all_entries(present, ignored, show_ignored)),
        all_entries(present, ignored, show_ignored).len() <= usize::MAX,
    ensures
        ({
            let own = entries_of(present, false, present.len() as int);
            let hidden = entries_of(ignored, true, ignored.len() as int);
            let entries = if show_ignored {
                own + hidden
            } else {
                own
            };
            &&& listed.to_multiset() == entries.to_multiset()
            &&& forall|k: int, l: int|
                0 <= k < l < listed.len() ==> {
                    let (a, b) = (#[trigger] listed[k], #[trigger] listed[l]);
                    a.mtime > b.mtime || (a.mtime == b.mtime && (a.path == b.path
                        || order::text_before(a.path, b.path)))
                }
        }),
{
    let entries = all_entries(present, ignored, show_ignored);
    let own = entries_of(present, false, present.len() as int);
    assert(!show_ignored ==> entries =~= own);
    let order = choose|order: Seq<usize>| #[trigger]
        list_order(entries, order) && listed == order.map_values(|i: usize| entries[i as int]);
    order::lemma_listing_keeps_all(entries, order);
    assert(order::taken_in(entries, order) =~= listed);
    assert forall|k: int, l: int| 0 <= k < l < listed.len() implies {
        let (a, b) = (#[trigger] listed[k], #[trigger] listed[l]);
        a.mtime > b.mtime || (a.mtime == b.mtime && (a.path == b.path || order::text_before(
            a.path,
            b.path,
        )))
    } by {
        law_no_file_stands_behind_an_older_one(listed, entries, k, l);
        order::law_text_order_is_total(listed[k].path, listed[l].path);
    }
}

} // verus!
