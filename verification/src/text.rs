//! Plain text over sequences of characters: white space, lines, trimming, decimal numerals.
use vstd::prelude::*;

verus! {

/// `String::push` appends one character to the end of the string.
pub assume_specification[ String::push ](s: &mut String, c: char)
    ensures
        final(s)@ == old(s)@.push(c),
;

/// The characters with the Unicode `White_Space` property.
pub open spec fn white_space(c: char) -> bool {
    ||| 0x9 <= c as u32 <= 0xd
    ||| c as u32 == 0x20
    ||| c as u32 == 0x85
    ||| c as u32 == 0xa0
    ||| c as u32 == 0x1680
    ||| 0x2000 <= c as u32 <= 0x200a
    ||| c as u32 == 0x2028
    ||| c as u32 == 0x2029
    ||| c as u32 == 0x202f
    ||| c as u32 == 0x205f
    ||| c as u32 == 0x3000
}

/// Whether `c` is white space.
pub fn is_white_space(c: char) -> (b: bool)
    ensures
        b == white_space(c),
{
    let u: u32 = c as u32;
    (0x9 <= u && u <= 0xd) || u == 0x20 || u == 0x85 || u == 0xa0 || u == 0x1680 || (0x2000 <= u
        && u <= 0x200a) || u == 0x2028 || u == 0x2029 || u == 0x202f || u == 0x205f || u == 0x3000
}

/// The characters of `s`, in order.
pub fn chars_of(s: &str) -> (r: Vec<char>)
    ensures
        r@ == s@,
{
    let mut out: Vec<char> = Vec::new();
    for c in it: s.chars()
        invariant
            it.seq() == s@,
            out@ == it.seq().take(it.index()),
    {
        out.push(c);
    }
    assert(s@.take(s@.len() as int) == s@);
    out
}

/// Whether `a` and `b` hold the same characters.
pub fn same_text(a: &str, b: &str) -> (r: bool)
    ensures
        r == (a@ == b@),
{
    a.to_owned() == b.to_owned()
}

/// The string whose characters are `chars[from..to]`.
pub fn string_of(chars: &Vec<char>, from: usize, to: usize) -> (r: String)
    requires
        from <= to <= chars@.len(),
    ensures
        r@ == chars@.subrange(from as int, to as int),
{
    let mut out: String = String::new();
    let mut i: usize = from;
    while i < to
        invariant
            from <= i <= to <= chars@.len(),
            out@ == chars@.subrange(from as int, i as int),
        decreases to - i,
    {
        out.push(chars[i]);
        i += 1;
    }
    out
}

/// The first index at or after `i` that holds a line feed, or the length of `s`.
pub open spec fn line_end(s: Seq<char>, i: int) -> int
    decreases s.len() - i,
{
    if i >= s.len() {
        s.len() as int
    } else if s[i] == '\n' {
        i
    } else {
        line_end(s, i + 1)
    }
}

/// `s` without one carriage return at its end.
pub open spec fn strip_cr(s: Seq<char>) -> Seq<char> {
    if s.len() > 0 && s.last() == '\r' {
        s.drop_last()
    } else {
        s
    }
}

/// The lines of `s` from index `i` on: a line feed, or a carriage return and a line feed,
/// ends a line, and the end of the text does so too where a line is open there.
pub open spec fn lines_from(s: Seq<char>, i: int) -> Seq<Seq<char>>
    decreases s.len() - i,
{
    if i >= s.len() || i < 0 {
        Seq::empty()
    } else {
        let e = line_end(s, i);
        if e >= s.len() || e < i {
            seq![s.subrange(i, s.len() as int)]
        } else {
            seq![strip_cr(s.subrange(i, e))] + lines_from(s, e + 1)
        }
    }
}

/// The lines of `s`.
pub open spec fn text_lines(s: Seq<char>) -> Seq<Seq<char>> {
    lines_from(s, 0)
}

/// The pieces of `s` from index `i` on that line feeds separate; one more than there are
/// line feeds.
pub open spec fn pieces_from(s: Seq<char>, i: int) -> Seq<Seq<char>>
    decreases s.len() - i,
{
    let e = line_end(s, i);
    if i < 0 || e >= s.len() || e < i {
        seq![s.subrange(i, s.len() as int)]
    } else {
        seq![s.subrange(i, e)] + pieces_from(s, e + 1)
    }
}

/// `s` without the white space at its end.
pub open spec fn trim_end(s: Seq<char>) -> Seq<char>
    decreases s.len(),
{
    if s.len() > 0 && white_space(s.last()) {
        trim_end(s.drop_last())
    } else {
        s
    }
}

/// `s` without the white space at its start.
pub open spec fn trim_start(s: Seq<char>) -> Seq<char>
    decreases s.len(),
{
    if s.len() > 0 && white_space(s[0]) {
        trim_start(s.skip(1))
    } else {
        s
    }
}

/// Whether `s` holds nothing but white space.
pub open spec fn blank(s: Seq<char>) -> bool {
    forall|i: int| 0 <= i < s.len() ==> white_space(#[trigger] s[i])
}

/// The elements of `parts` with `sep` between each two neighbours.
pub open spec fn joined(parts: Seq<Seq<char>>, sep: Seq<char>) -> Seq<char>
    decreases parts.len(),
{
    if parts.len() == 0 {
        Seq::empty()
    } else if parts.len() == 1 {
        parts[0]
    } else {
        joined(parts.drop_last(), sep) + sep + parts.last()
    }
}

/// The contents of each string of `parts`.
pub open spec fn contents(parts: Seq<String>) -> Seq<Seq<char>> {
    parts.map_values(|p: String| p@)
}

/// `n` copies of `c`.
pub open spec fn repeated(c: char, n: nat) -> Seq<char> {
    Seq::new(n, |i: int| c)
}

/// The decimal digit of `d`.
pub open spec fn digit(d: nat) -> char {
    (0x30 + d) as char
}

/// The decimal numeral of `n`, without leading zeros.
pub open spec fn decimal(n: nat) -> Seq<char>
    decreases n,
{
    if n < 10 {
        seq![digit(n)]
    } else {
        decimal(n / 10).push(digit(n % 10))
    }
}

proof fn lemma_decimal_len(n: nat)
    ensures
        decimal(n).len() >= 1,
        n >= 10 ==> decimal(n).len() >= 2,
    decreases n,
{
    if n >= 10 {
        lemma_decimal_len(n / 10);
    }
}

/// Different numbers have different numerals.
pub proof fn law_numerals_tell_numbers_apart(a: nat, b: nat)
    requires
        decimal(a) == decimal(b),
    ensures
        a == b,
    decreases a,
{
    lemma_decimal_len(a);
    lemma_decimal_len(b);
    reveal_with_fuel(decimal, 2);
    assert(decimal(a).last() == digit(a % 10) && decimal(b).last() == digit(b % 10));
    assert(digit(a % 10) as int == 0x30 + a % 10 && digit(b % 10) as int == 0x30 + b % 10);
    if a >= 10 && b >= 10 {
        assert(decimal(a).drop_last() =~= decimal(a / 10));
        assert(decimal(b).drop_last() =~= decimal(b / 10));
        law_numerals_tell_numbers_apart(a / 10, b / 10);
    }
}

pub proof fn lemma_line_end(s: Seq<char>, i: int)
    requires
        0 <= i <= s.len(),
    ensures
        i <= line_end(s, i) <= s.len(),
        forall|j: int| i <= j < line_end(s, i) ==> s[j] != '\n',
        line_end(s, i) < s.len() ==> s[line_end(s, i)] == '\n',
    decreases s.len() - i,
{
    if i < s.len() && s[i] != '\n' {
        lemma_line_end(s, i + 1);
    }
}

/// The index at which the line that `i` lies on ends.
pub fn find_line_end(chars: &Vec<char>, i: usize) -> (e: usize)
    requires
        i <= chars@.len(),
    ensures
        e == line_end(chars@, i as int),
        i <= e <= chars@.len(),
{
    let mut e: usize = i;
    while e < chars.len() && chars[e] != '\n'
        invariant
            i <= e <= chars@.len(),
            line_end(chars@, i as int) == line_end(chars@, e as int),
        decreases chars@.len() - e,
    {
        e += 1;
    }
    e
}

/// The lines of `chars`, as `text_lines` has them.
pub fn split_text_lines(chars: &Vec<char>) -> (r: Vec<String>)
    ensures
        contents(r@) == text_lines(chars@),
{
    let mut out: Vec<String> = Vec::new();
    let mut i: usize = 0;
    assert(contents(out@) + lines_from(chars@, 0) =~= text_lines(chars@));
    while i < chars.len()
        invariant
            i <= chars@.len(),
            contents(out@) + lines_from(chars@, i as int) == text_lines(chars@),
        decreases chars@.len() - i,
    {
        let ghost before = out@;
        let e: usize = find_line_end(chars, i);
        if e == chars.len() {
            let piece: String = string_of(chars, i, e);
            out.push(piece);
            proof {
                assert(contents(out@) =~= contents(before).push(piece@));
                assert(lines_from(chars@, i as int) =~= seq![piece@]);
                assert(lines_from(chars@, e as int) =~= Seq::<Seq<char>>::empty());
                assert(contents(out@) + lines_from(chars@, e as int) =~= contents(before)
                    + lines_from(chars@, i as int));
            }
            i = e;
        } else {
            let stop: usize = if e > i && chars[e - 1] == '\r' {
                e - 1
            } else {
                e
            };
            let piece: String = string_of(chars, i, stop);
            out.push(piece);
            proof {
                assert(strip_cr(chars@.subrange(i as int, e as int)) =~= piece@);
                assert(contents(out@) =~= contents(before).push(piece@));
                assert(contents(out@) + lines_from(chars@, e + 1) =~= contents(before)
                    + lines_from(chars@, i as int));
            }
            i = e + 1;
        }
    }
    assert(contents(out@) + lines_from(chars@, i as int) =~= contents(out@));
    out
}

/// How many characters of `chars[from..to]` are left once the white space at its end is gone.
pub fn trimmed_end(chars: &Vec<char>, from: usize, to: usize) -> (e: usize)
    requires
        from <= to <= chars@.len(),
    ensures
        from <= e <= to,
        chars@.subrange(from as int, e as int) == trim_end(
            chars@.subrange(from as int, to as int),
        ),
{
    let mut e: usize = to;
    while e > from && is_white_space(chars[e - 1])
        invariant
            from <= e <= to <= chars@.len(),
            trim_end(chars@.subrange(from as int, e as int)) == trim_end(
                chars@.subrange(from as int, to as int),
            ),
        decreases e - from,
    {
        proof {
            assert(chars@.subrange(from as int, e as int).drop_last() =~= chars@.subrange(
                from as int,
                e - 1,
            ));
        }
        e -= 1;
    }
    e
}

/// The first index from `from` on, before `to`, at which `chars` holds no white space, or `to`.
pub fn trimmed_start(chars: &Vec<char>, from: usize, to: usize) -> (b: usize)
    requires
        from <= to <= chars@.len(),
    ensures
        from <= b <= to,
        chars@.subrange(b as int, to as int) == trim_start(
            chars@.subrange(from as int, to as int),
        ),
{
    let mut b: usize = from;
    while b < to && is_white_space(chars[b])
        invariant
            from <= b <= to <= chars@.len(),
            trim_start(chars@.subrange(b as int, to as int)) == trim_start(
                chars@.subrange(from as int, to as int),
            ),
        decreases to - b,
    {
        assert(chars@.subrange(b as int, to as int).skip(1) =~= chars@.subrange(
            b + 1,
            to as int,
        ));
        b += 1;
    }
    b
}

pub proof fn lemma_trim_start(s: Seq<char>)
    ensures
        trim_start(s).len() <= s.len(),
        trim_start(s) == s.skip(s.len() - trim_start(s).len()),
        trim_start(s).len() > 0 ==> !white_space(trim_start(s)[0]),
        s.len() > 0 && !white_space(s.last()) ==> trim_start(s).len() > 0 && trim_start(s).last()
            == s.last(),
    decreases s.len(),
{
    if s.len() > 0 && white_space(s[0]) {
        let t = s.skip(1);
        lemma_trim_start(t);
        assert(t.len() > 0 ==> t.last() == s.last());
        assert(t.skip(t.len() - trim_start(t).len()) =~= s.skip(s.len() - trim_start(s).len()));
    } else {
        assert(s.skip(0) =~= s);
    }
}

pub proof fn lemma_trim_end(s: Seq<char>)
    ensures
        trim_end(s).len() <= s.len(),
        trim_end(s) == s.take(trim_end(s).len() as int),
        trim_end(s).len() > 0 ==> !white_space(trim_end(s).last()),
        forall|i: int| trim_end(s).len() <= i < s.len() ==> white_space(#[trigger] s[i]),
        trim_end(s).len() == 0 <==> blank(s),
    decreases s.len(),
{
    if s.len() > 0 && white_space(s.last()) {
        let t = s.drop_last();
        lemma_trim_end(t);
        assert forall|i: int| trim_end(s).len() <= i < s.len() implies white_space(
            #[trigger] s[i],
        ) by {
            if i < t.len() {
                assert(t[i] == s[i]);
            }
        }
        assert(trim_end(s) =~= s.take(trim_end(s).len() as int));
        if blank(s) {
            assert forall|i: int| 0 <= i < t.len() implies white_space(#[trigger] t[i]) by {
                assert(s[i] == t[i]);
            }
        }
    } else {
        assert(trim_end(s) =~= s.take(s.len() as int));
        if s.len() > 0 {
            assert(!white_space(s[s.len() - 1]));
        }
    }
}

/// The strings of `parts` with `sep` between each two neighbours.
pub fn join_strings(parts: &Vec<String>, sep: &str) -> (r: String)
    ensures
        r@ == joined(contents(parts@), sep@),
{
    let mut out: String = String::new();
    let ghost all = contents(parts@);
    let mut i: usize = 0;
    assert(all.take(0) =~= Seq::<Seq<char>>::empty());
    while i < parts.len()
        invariant
            i <= parts@.len(),
            all == contents(parts@),
            out@ == joined(all.take(i as int), sep@),
        decreases parts@.len() - i,
    {
        assert(all.take(i + 1).drop_last() =~= all.take(i as int));
        if i > 0 {
            out.append(sep);
        }
        out.append(parts[i].as_str());
        i += 1;
    }
    assert(all.take(all.len() as int) =~= all);
    out
}

/// A string of `n` copies of `c`.
pub fn repeat_char(c: char, n: usize) -> (r: String)
    ensures
        r@ == repeated(c, n as nat),
{
    let mut out: String = String::new();
    let mut i: usize = 0;
    while i < n
        invariant
            i <= n,
            out@ == repeated(c, i as nat),
        decreases n - i,
    {
        out.push(c);
        i += 1;
        assert(out@ =~= repeated(c, i as nat));
    }
    out
}

/// Append the decimal numeral of `n`.
pub fn push_decimal(out: &mut String, n: u128)
    ensures
        final(out)@ == old(out)@ + decimal(n as nat),
    decreases n,
{
    if n >= 10 {
        push_decimal(out, n / 10);
    }
    let d: u8 = (n % 10) as u8;
    let c: char = (0x30u8 + d) as char;
    out.push(c);
    assert(out@ =~= old(out)@ + decimal(n as nat));
}

/// The pieces of a text that line feeds separate.
pub fn split_pieces(s: &str) -> (r: Vec<String>)
    ensures
        contents(r@) == pieces_from(s@, 0),
{
    let chars: Vec<char> = chars_of(s);
    let mut out: Vec<String> = Vec::new();
    let mut i: usize = 0;
    assert(contents(out@) + pieces_from(chars@, 0) =~= pieces_from(chars@, 0));
    loop
        invariant
            i <= chars@.len(),
            chars@ == s@,
            contents(out@) + pieces_from(chars@, i as int) == pieces_from(chars@, 0),
        decreases chars@.len() - i,
    {
        let e: usize = find_line_end(&chars, i);
        let ghost before = contents(out@);
        let piece: String = string_of(&chars, i, e);
        out.push(piece);
        assert(contents(out@) =~= before.push(piece@));
        if e == chars.len() {
            assert(contents(out@) =~= before + pieces_from(chars@, i as int));
            return out;
        }
        assert(contents(out@) + pieces_from(chars@, e + 1) =~= before + (seq![piece@]
            + pieces_from(chars@, e + 1)));
        i = e + 1;
    }
}

/// The parts of `s` that `sep` separates; one empty part where `s` is empty.
pub open spec fn parts(s: Seq<char>, sep: char) -> Seq<Seq<char>>
    decreases s.len(),
{
    if s.len() == 0 {
        seq![Seq::empty()]
    } else {
        let rest = parts(s.drop_last(), sep);
        if s.last() == sep {
            rest.push(Seq::empty())
        } else {
            rest.drop_last().push(rest.last().push(s.last()))
        }
    }
}

/// The parts of `s` that `sep` separates.
pub fn split_on(s: &str, sep: char) -> (r: Vec<String>)
    ensures
        contents(r@) == parts(s@, sep),
{
    let chars: Vec<char> = chars_of(s);
    let mut done: Vec<String> = Vec::new();
    let mut part: String = "".to_owned();
    proof {
        reveal_strlit("");
        assert(chars@.take(0) =~= Seq::empty());
        assert(part@ =~= Seq::<char>::empty());
        assert(contents(done@).push(part@) =~= seq![Seq::<char>::empty()]);
    }
    let mut i: usize = 0;
    while i < chars.len()
        invariant
            i <= chars@.len(),
            contents(done@).push(part@) == parts(chars@.take(i as int), sep),
        decreases chars@.len() - i,
    {
        let c: char = chars[i];
        let ghost before = contents(done@);
        let ghost old_part = part@;
        assert(chars@.take(i + 1).drop_last() =~= chars@.take(i as int));
        if c == sep {
            done.push(part);
            part = "".to_owned();
            proof {
                reveal_strlit("");
                assert(contents(done@) =~= before.push(old_part));
                assert(part@ =~= Seq::<char>::empty());
            }
        } else {
            part.push(c);
            assert(before.push(old_part).drop_last() =~= before);
        }
        i += 1;
    }
    let ghost before = contents(done@);
    let ghost last = part@;
    done.push(part);
    proof {
        assert(chars@.take(i as int) =~= s@);
        assert(contents(done@) =~= before.push(last));
    }
    done
}

/// Whether `lines` are what stands between the line breaks of `s`: from its start to its end they
/// follow each other, each a run of `s` without a line feed, with a line feed or a carriage return
/// and a line feed behind it. Behind the last one there need be none.
pub open spec fn breaks_into(s: Seq<char>, lines: Seq<Seq<char>>) -> bool {
    exists|at: Seq<int>| #[trigger] line_places(s, lines, at)
}

/// Whether each line of `lines` stands at its place `at` in `s`.
pub open spec fn line_places(s: Seq<char>, lines: Seq<Seq<char>>, at: Seq<int>) -> bool {
    &&& at.len() == lines.len() + 1
    &&& at[0] == 0
    &&& at[lines.len() as int] == s.len()
    &&& forall|i: int| 0 <= i < lines.len() ==> #[trigger] line_place(s, lines, at, i)
}

/// Whether line `i` of `lines` stands at index `at[i]` of `s`, and the next line behind the line
/// break there.
pub open spec fn line_place(s: Seq<char>, lines: Seq<Seq<char>>, at: Seq<int>, i: int) -> bool {
    let line = lines[i];
    let end = at[i] + line.len();
    &&& 0 <= at[i]
    &&& end <= s.len()
    &&& line == s.subrange(at[i], end)
    &&& !line.contains('\n')
    &&& {
        ||| at[i + 1] == end && end == s.len() && i + 1 == lines.len() && line.len() > 0
        ||| at[i + 1] == end + 1 && end < s.len() && s[end] == '\n' && (line.len() == 0
            || line.last() != '\r')
        ||| at[i + 1] == end + 2 && end + 1 < s.len() && s[end] == '\r' && s[end + 1] == '\n'
    }
}

proof fn lemma_lines_from_places(s: Seq<char>, i: int) -> (at: Seq<int>)
    requires
        0 <= i <= s.len(),
    ensures
        line_places(s.skip(i), lines_from(s, i), at),
    decreases s.len() - i,
{
    let t = s.skip(i);
    let lines = lines_from(s, i);
    if i >= s.len() {
        let at = seq![0int];
        assert(line_places(t, lines, at));
        at
    } else {
        lemma_line_end(s, i);
        let e = line_end(s, i);
        if e >= s.len() {
            let at = seq![0int, t.len() as int];
            assert(lines[0] =~= t.subrange(0, t.len() as int));
            assert forall|k: int| 0 <= k < lines[0].len() implies lines[0][k] != '\n' by {
                assert(lines[0][k] == s[i + k]);
            }
            assert(line_place(t, lines, at, 0));
            assert(line_places(t, lines, at));
            at
        } else {
            let rest = lemma_lines_from_places(s, e + 1);
            let more = lines_from(s, e + 1);
            let at = seq![0int] + rest.map_values(|k: int| k + (e + 1 - i));
            let whole = s.subrange(i, e);
            let line = strip_cr(whole);
            assert(lines == seq![line] + more);
            assert(line =~= t.subrange(0, line.len() as int));
            assert forall|k: int| 0 <= k < line.len() implies line[k] != '\n' by {
                assert(line[k] == s[i + k]);
            }
            assert(t[e - i] == '\n');
            if line.len() < whole.len() {
                assert(t[line.len() as int] == whole.last());
            }
            assert forall|k: int| 0 <= k < lines.len() implies #[trigger] line_place(
                t,
                lines,
                at,
                k,
            ) by {
                if k > 0 {
                    assert(line_place(s.skip(e + 1), more, rest, k - 1));
                    let u = s.skip(e + 1);
                    assert(lines[k] == more[k - 1]);
                    assert(at[k] == rest[k - 1] + (e + 1 - i));
                    assert(at[k + 1] == rest[k] + (e + 1 - i));
                    let d = rest[k - 1] + more[k - 1].len();
                    assert(u.subrange(rest[k - 1], d) =~= t.subrange(at[k], at[k] + lines[k].len()));
                    if d < u.len() {
                        assert(u[d] == t[d + (e + 1 - i)]);
                    }
                    if d + 1 < u.len() {
                        assert(u[d + 1] == t[d + 1 + (e + 1 - i)]);
                    }
                } else {
                    assert(at[1] == rest[0] + (e + 1 - i));
                }
            }
            assert(at[lines.len() as int] == rest[more.len() as int] + (e + 1 - i));
            assert(line_places(t, lines, at));
            at
        }
    }
}

/// The lines of a text are the text: put back with the line breaks that stood between them, they
/// give every character of it, white space included.
pub proof fn law_lines_are_the_text(s: Seq<char>)
    ensures
        breaks_into(s, text_lines(s)),
{
    let at = lemma_lines_from_places(s, 0);
    assert(s.skip(0) =~= s);
    assert(line_places(s, text_lines(s), at));
}

proof fn lemma_joined_one_more(lines: Seq<Seq<char>>, first: Seq<char>, sep: Seq<char>)
    requires
        lines.len() > 0,
    ensures
        joined(seq![first] + lines, sep) == first + sep + joined(lines, sep),
    decreases lines.len(),
{
    let all = seq![first] + lines;
    assert(all.drop_last() =~= seq![first] + lines.drop_last());
    if lines.len() > 1 {
        lemma_joined_one_more(lines.drop_last(), first, sep);
        assert(joined(all, sep) =~= first + sep + joined(lines, sep));
    } else {
        assert(all.drop_last() =~= seq![first]);
        reveal_with_fuel(joined, 2);
        assert(joined(all, sep) =~= first + sep + joined(lines, sep));
    }
}

proof fn lemma_lines_join(s: Seq<char>, i: int)
    requires
        0 <= i <= s.len(),
        !s.contains('\r'),
    ensures
        ({
            let back = joined(lines_from(s, i), seq!['\n']);
            back == s.skip(i) || back.push('\n') == s.skip(i)
        }),
    decreases s.len() - i,
{
    let back = joined(lines_from(s, i), seq!['\n']);
    if i < s.len() {
        lemma_line_end(s, i);
        let e = line_end(s, i);
        let line = s.subrange(i, e);
        assert(line.len() > 0 ==> line.last() == s[e - 1]);
        if e < s.len() {
            lemma_lines_join(s, e + 1);
            let rest = lines_from(s, e + 1);
            assert(strip_cr(line) == line);
            if rest.len() == 0 {
                assert(lines_from(s, i) =~= seq![line]);
                assert(e + 1 == s.len());
                assert(back.push('\n') =~= s.skip(i));
            } else {
                lemma_joined_one_more(rest, line, seq!['\n']);
                let more = joined(rest, seq!['\n']);
                assert(s.skip(i) =~= line + seq!['\n'] + s.skip(e + 1));
                if more.push('\n') == s.skip(e + 1) {
                    assert(back.push('\n') =~= s.skip(i));
                }
            }
        } else {
            assert(back =~= s.skip(i));
        }
    } else {
        assert(back =~= s.skip(i));
    }
}

/// The lines of a text without carriage returns, joined with line feeds, are the text up to a
/// line feed at its end.
pub proof fn law_lines_join_back(s: Seq<char>)
    requires
        !s.contains('\r'),
    ensures
        ({
            let back = joined(text_lines(s), seq!['\n']);
            back == s || back.push('\n') == s
        }),
{
    lemma_lines_join(s, 0);
    assert(s.skip(0) =~= s);
}

proof fn lemma_pieces_join(s: Seq<char>, i: int)
    requires
        0 <= i <= s.len(),
    ensures
        joined(pieces_from(s, i), seq!['\n']) == s.skip(i),
        forall|k: int|
            0 <= k < pieces_from(s, i).len() ==> !(#[trigger] pieces_from(s, i)[k]).contains('\n'),
        pieces_from(s, i).len() > 0,
    decreases s.len() - i,
{
    lemma_line_end(s, i);
    let e = line_end(s, i);
    let all = pieces_from(s, i);
    if e < s.len() {
        lemma_pieces_join(s, e + 1);
        let rest = pieces_from(s, e + 1);
        let first = s.subrange(i, e);
        lemma_joined_one_more(rest, first, seq!['\n']);
        assert(joined(all, seq!['\n']) =~= s.skip(i));
        assert forall|k: int| 0 <= k < all.len() implies !(#[trigger] all[k]).contains('\n') by {
            if k > 0 {
                assert(all[k] == rest[k - 1]);
            }
        }
    } else {
        assert(joined(all, seq!['\n']) =~= s.skip(i));
    }
}

/// The pieces of a text between its line feeds, joined with line feeds, are the text, and none
/// holds a line feed.
pub proof fn law_pieces_join_back(s: Seq<char>)
    ensures
        joined(pieces_from(s, 0), seq!['\n']) == s,
        forall|k: int|
            0 <= k < pieces_from(s, 0).len() ==> !(#[trigger] pieces_from(s, 0)[k]).contains('\n'),
{
    lemma_pieces_join(s, 0);
    assert(s.skip(0) =~= s);
}

/// The parts of a text between its separators, joined with the separator, are the text, and none
/// holds the separator.
pub proof fn law_parts_join_back(s: Seq<char>, sep: char)
    ensures
        parts(s, sep).len() > 0,
        joined(parts(s, sep), seq![sep]) == s,
        forall|k: int| 0 <= k < parts(s, sep).len() ==> !(#[trigger] parts(s, sep)[k]).contains(sep),
    decreases s.len(),
{
    let all = parts(s, sep);
    if s.len() > 0 {
        let rest = parts(s.drop_last(), sep);
        law_parts_join_back(s.drop_last(), sep);
        assert(s =~= s.drop_last().push(s.last()));
        if s.last() == sep {
            assert(all.drop_last() =~= rest);
            assert(joined(all, seq![sep]) =~= s);
        } else {
            let head = rest.drop_last();
            assert(all.drop_last() =~= head);
            assert(joined(all, seq![sep]) =~= s);
            assert forall|k: int| 0 <= k < all.len() implies !(#[trigger] all[k]).contains(sep) by {
                if k < head.len() {
                    assert(all[k] == rest[k]);
                } else {
                    assert(!rest[head.len() as int].contains(sep));
                }
            }
        }
    } else {
        assert(joined(all, seq![sep]) =~= s);
    }
}

/// Joining puts each part behind the one before it with the separator between: one more part adds
/// the separator and that part at the end.
pub proof fn law_joining_adds_at_the_end(parts: Seq<Seq<char>>, part: Seq<char>, sep: Seq<char>)
    ensures
        joined(parts.push(part), sep) == if parts.len() == 0 {
            part
        } else {
            joined(parts, sep) + sep + part
        },
{
    assert(parts.push(part).drop_last() =~= parts);
}

/// The number that a decimal numeral stands for.
pub open spec fn numeral_value(s: Seq<char>) -> nat
    decreases s.len(),
{
    if s.len() == 0 {
        0
    } else {
        numeral_value(s.drop_last()) * 10 + (s.last() as u32 as nat - '0' as u32 as nat) as nat
    }
}

/// A numeral stands for its number: read digit by digit it gives the number back. It holds nothing
/// but digits, and no zero in front of another digit.
pub proof fn law_numerals_read_back(n: nat)
    ensures
        numeral_value(decimal(n)) == n,
        decimal(n).len() > 0,
        forall|k: int| 0 <= k < decimal(n).len() ==> '0' <= #[trigger] decimal(n)[k] <= '9',
        decimal(n).len() > 1 ==> decimal(n)[0] != '0',
    decreases n,
{
    reveal_with_fuel(numeral_value, 2);
    let d = decimal(n);
    if n < 10 {
        assert(d.drop_last() =~= Seq::<char>::empty());
        assert(d[0] as u32 == 0x30 + n);
    } else {
        law_numerals_read_back(n / 10);
        assert(d.drop_last() =~= decimal(n / 10));
        assert(d.last() as u32 == 0x30 + n % 10);
        lemma_decimal_len(n / 10);
        assert forall|k: int| 0 <= k < d.len() implies '0' <= #[trigger] d[k] <= '9' by {
            if k < d.len() - 1 {
                assert(d[k] == decimal(n / 10)[k]);
            }
        }
        assert(d[0] == decimal(n / 10)[0]);
        if decimal(n / 10).len() == 1 {
            if n / 10 >= 10 {
                lemma_decimal_len(n / 10);
            }
            assert(decimal(n / 10)[0] as u32 == 0x30 + n / 10);
        }
    }
}

/// Trimming takes white space and nothing else: from the end what is left is a prefix whose last
/// character is no white space, and from the start a suffix whose first is none.
pub proof fn law_trimming_takes_white_space_only(s: Seq<char>)
    ensures
        ({
            let (a, b) = (trim_end(s), trim_start(s));
            let (n, m) = (a.len() as int, s.len() - b.len());
            &&& n <= s.len() && a == s.take(n)
            &&& forall|i: int| n <= i < s.len() ==> white_space(#[trigger] s[i])
            &&& n > 0 ==> !white_space(s[n - 1])
            &&& 0 <= m && b == s.skip(m)
            &&& forall|i: int| 0 <= i < m ==> white_space(#[trigger] s[i])
            &&& m < s.len() ==> !white_space(s[m])
        }),
{
    lemma_trim_end(s);
    lemma_trim_start(s);
    lemma_trimmed_front(s);
}

proof fn lemma_trimmed_front(s: Seq<char>)
    ensures
        forall|i: int| 0 <= i < s.len() - trim_start(s).len() ==> white_space(#[trigger] s[i]),
    decreases s.len(),
{
    if s.len() > 0 && white_space(s[0]) {
        lemma_trimmed_front(s.skip(1));
        assert forall|i: int| 0 <= i < s.len() - trim_start(s).len() implies white_space(
            #[trigger] s[i],
        ) by {
            if i > 0 {
                assert(s.skip(1)[i - 1] == s[i]);
            }
        }
    }
}

/// Among the ASCII characters just the space, the tabs, the line breaks and the form feed are white
/// space.
pub proof fn law_ascii_white_space(c: char)
    requires
        c as u32 <= 0x7f,
    ensures
        white_space(c) <==> seq![' ', '\t', '\n', '\u{b}', '\u{c}', '\r'].contains(c),
{
    let all = seq![' ', '\t', '\n', '\u{b}', '\u{c}', '\r'];
    assert(all[0] == ' ' && all[1] == '\t' && all[2] == '\n' && all[3] == '\u{b}' && all[4]
        == '\u{c}' && all[5] == '\r');
    if white_space(c) {
        assert(c == all[0] || c == all[1] || c == all[2] || c == all[3] || c == all[4] || c
            == all[5]);
    }
}

} // verus!
