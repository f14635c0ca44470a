//! Saved comments as boxes of display lines, spliced under the blocks they belong to.
use crate::comments::{Author, Status, StoredComment, StoredView};
use crate::composer;
use crate::elide;
use crate::elide::truncate_width;
use crate::rows;
use crate::rows::wrap_text;
use crate::style;
use crate::style::{Line, LineView, Span, SpanView, Style, Tone, line, raw, styled};
use crate::text;
use crate::text::{repeat_char, split_pieces};
use crate::width;
use crate::width::width_of_text;
use vstd::prelude::*;

verus! {

/// The columns of the box of a card in a pane `width` columns wide: two columns of indent are
/// left, but never less than ten for the box.
pub open spec fn box_width(width: usize) -> usize {
    if width >= 12 {
        (width - 2) as usize
    } else {
        10
    }
}

/// The columns for text inside `│ ` and ` │`.
pub open spec fn text_width_in(width: usize) -> usize {
    (box_width(width) - 4) as usize
}

/// `a - b`, or zero where `b` is greater.
pub open spec fn rest_of(a: int, b: int) -> nat {
    if a >= b {
        (a - b) as nat
    } else {
        0
    }
}

/// The style of a card's frame: a resolved comment's card is muted.
pub open spec fn frame_style(c: StoredView) -> Style {
    Style::toned(
        if c.status == Status::Resolved {
            Tone::Overlay1
        } else {
            Tone::Overlay0
        },
    )
}

/// The style of a card's title.
pub open spec fn title_style(c: StoredView) -> Style {
    Style::strong(
        if c.status == Status::Resolved {
            Tone::Overlay1
        } else {
            Tone::Peach
        },
    )
}

/// The style of a card's text.
pub open spec fn body_style(c: StoredView) -> Style {
    Style::toned(
        if c.status == Status::Resolved {
            Tone::Overlay1
        } else {
            Tone::Text
        },
    )
}

/// The title of a card: where the comment belongs, and whether it is resolved.
pub open spec fn card_label(c: StoredView) -> Seq<char> {
    " comment · "@ + c.comment.location() + if c.status == Status::Resolved {
        " · resolved "@
    } else {
        " "@
    }
}

/// The columns that an agent's chip takes in the top edge, with the dash behind it.
pub open spec fn chip_run(c: StoredView) -> int {
    if c.author == Author::Agent {
        8
    } else {
        0
    }
}

/// The columns of indent before a card.
pub open spec fn indent() -> SpanView {
    style::raw_of(text::repeated(' ', 2))
}

/// The top edge of a card: its corner, the chip of an agent's comment, the title cut to the
/// box, and dashes up to the other corner.
pub open spec fn card_top(c: StoredView, width: usize) -> LineView {
    let room = rest_of(box_width(width) as int, 3 + chip_run(c));
    let label = elide::truncated(card_label(c), room as usize);
    let dashes = rest_of(room as int, width::text_width(label) as int);
    let chip = if c.author == Author::Agent {
        seq![
            style::span_of(" agent "@, Style::strong(Tone::Mauve)),
            style::span_of("─"@, frame_style(c)),
        ]
    } else {
        Seq::empty()
    };
    style::line_of_spans(
        seq![indent(), style::span_of("╭─"@, frame_style(c))] + chip + seq![
            style::span_of(label, title_style(c)),
            style::span_of(text::repeated('─', dashes).push('╮'), frame_style(c)),
        ],
    )
}

/// One line of a card's text between its side edges, filled up with spaces.
pub open spec fn card_line(c: StoredView, width: usize, piece: Seq<char>) -> LineView {
    let gap = rest_of(text_width_in(width) as int, width::text_width(piece) as int);
    style::line_of_spans(
        seq![
            indent(),
            style::span_of("│ "@, frame_style(c)),
            style::span_of(piece, body_style(c)),
            style::span_of(text::repeated(' ', gap) + " │"@, frame_style(c)),
        ],
    )
}

/// The lines of `pieces` in a card.
pub open spec fn card_lines_of(c: StoredView, width: usize, pieces: Seq<Seq<char>>) -> Seq<
    LineView,
> {
    pieces.map_values(|piece: Seq<char>| card_line(c, width, piece))
}

/// The lines of a card for the first `n` of the logical lines of its text, each wrapped.
pub open spec fn card_body(c: StoredView, width: usize, logical: Seq<Seq<char>>, n: int) -> Seq<
    LineView,
>
    decreases n,
{
    if n <= 0 {
        Seq::empty()
    } else {
        card_body(c, width, logical, n - 1) + card_lines_of(
            c,
            width,
            rows::wrapped_text(logical[n - 1], composer::wrap_width(text_width_in(width))),
        )
    }
}

/// The bottom edge of a card.
pub open spec fn card_bottom(c: StoredView, width: usize) -> LineView {
    style::line_of_spans(
        seq![
            indent(),
            style::span_of(
                seq!['╰'] + text::repeated('─', (box_width(width) - 2) as nat) + seq!['╯'],
                frame_style(c),
            ),
        ],
    )
}

/// A saved comment as display lines: a quiet box titled with the comment's location holding
/// its wrapped text.
pub open spec fn card(c: StoredView, width: usize) -> Seq<LineView> {
    let logical = text::pieces_from(c.comment.text, 0);
    seq![card_top(c, width)] + card_body(c, width, logical, logical.len() as int) + seq![
        card_bottom(c, width),
    ]
}

fn pad() -> (r: Span)
    ensures
        r@ == indent(),
{
    raw(repeat_char(' ', 2))
}

fn frame_of(sc: &StoredComment) -> (r: Style)
    ensures
        r == frame_style(sc@),
{
    if sc.status == Status::Resolved {
        Style::toned(Tone::Overlay1)
    } else {
        Style::toned(Tone::Overlay0)
    }
}

/// The box width of a card in a pane `width` columns wide.
pub fn card_box_width(width: usize) -> (r: usize)
    ensures
        r == box_width(width),
        r >= 10,
{
    if width >= 12 {
        width - 2
    } else {
        10
    }
}

fn top_of(sc: &StoredComment, width: usize) -> (r: Line)
    ensures
        r@ == card_top(sc@, width),
{
    let box_w: usize = card_box_width(width);
    let frame: Style = frame_of(sc);
    let resolved: bool = sc.status == Status::Resolved;
    let title: Style = if resolved {
        Style::strong(Tone::Overlay1)
    } else {
        Style::strong(Tone::Peach)
    };
    let mut label_text: String = " comment · ".to_owned();
    let location: String = sc.comment.location();
    label_text.append(location.as_str());
    if resolved {
        label_text.append(" · resolved ");
    } else {
        label_text.append(" ");
    }
    assert(label_text@ =~= card_label(sc@));
    let is_agent: bool = sc.author == Author::Agent;
    let run: usize = if is_agent {
        proof {
            reveal_strlit(" agent ");
        }
        width_of_text(" agent ") + 1
    } else {
        0
    };
    let room: usize = box_w.saturating_sub(3 + run);
    let label: String = truncate_width(label_text.as_str(), room);
    let dashes: usize = room.saturating_sub(width_of_text(label.as_str()));
    let mut edge: String = repeat_char('─', dashes);
    edge.push('╮');
    let mut top: Vec<Span> = vec![pad(), styled("╭─".to_owned(), frame)];
    if is_agent {
        top.push(styled(" agent ".to_owned(), Style::strong(Tone::Mauve)));
        top.push(styled("─".to_owned(), frame));
    }
    top.push(styled(label, title));
    top.push(styled(edge, frame));
    assert(style::spans_view(top@) =~= card_top(sc@, width).spans);
    line(top)
}

fn body_line(sc: &StoredComment, width: usize, piece: &String) -> (r: Line)
    ensures
        r@ == card_line(sc@, width, piece@),
{
    let text_w: usize = card_box_width(width) - 4;
    let frame: Style = frame_of(sc);
    let body: Style = if sc.status == Status::Resolved {
        Style::toned(Tone::Overlay1)
    } else {
        Style::toned(Tone::Text)
    };
    let mut edge: String = repeat_char(' ', text_w.saturating_sub(width_of_text(piece.as_str())));
    edge.append(" │");
    let spans: Vec<Span> = vec![
        pad(),
        styled("│ ".to_owned(), frame),
        styled(piece.clone(), body),
        styled(edge, frame),
    ];
    assert(style::spans_view(spans@) =~= card_line(sc@, width, piece@).spans);
    line(spans)
}

fn bottom_of(sc: &StoredComment, width: usize) -> (r: Line)
    ensures
        r@ == card_bottom(sc@, width),
{
    let mut edge: String = String::new();
    edge.push('╰');
    let dashes: String = repeat_char('─', card_box_width(width) - 2);
    edge.append(dashes.as_str());
    edge.push('╯');
    assert(edge@ =~= seq!['╰'] + text::repeated('─', (box_width(width) - 2) as nat) + seq!['╯']);
    let spans: Vec<Span> = vec![pad(), styled(edge, frame_of(sc))];
    assert(style::spans_view(spans@) =~= card_bottom(sc@, width).spans);
    line(spans)
}

/// A saved comment as inline display lines: a quiet box titled with the comment's location
/// holding its wrapped text. Spliced read-only under the commented block so a submitted comment
/// stays visible while reading. An agent's comment carries an ` agent ` chip ahead of the
/// title; a resolved comment renders its whole card muted, with a `resolved` marker in the
/// title.
pub fn comment_card_lines(sc: &StoredComment, width: usize) -> (r: Vec<Line>)
    ensures
        style::lines_view(r@) == card(sc@, width),
{
    let mut lines: Vec<Line> = vec![top_of(sc, width)];
    let text_w: usize = card_box_width(width) - 4;
    let logical: Vec<String> = split_pieces(sc.comment.text.as_str());
    let ghost all = text::contents(logical@);
    let ghost top = seq![card_top(sc@, width)];
    let mut i: usize = 0;
    assert(style::lines_view(lines@) =~= top + card_body(sc@, width, all, 0));
    while i < logical.len()
        invariant
            i <= logical@.len(),
            all == text::contents(logical@),
            text_w == text_width_in(width),
            style::lines_view(lines@) == top + card_body(sc@, width, all, i as int),
        decreases logical@.len() - i,
    {
        let pieces: Vec<String> = wrap_text(logical[i].as_str(), text_w);
        let ghost before = style::lines_view(lines@);
        let ghost added = card_lines_of(sc@, width, text::contents(pieces@));
        let mut k: usize = 0;
        assert(before + added.take(0) =~= before);
        while k < pieces.len()
            invariant
                k <= pieces@.len(),
                added == card_lines_of(sc@, width, text::contents(pieces@)),
                style::lines_view(lines@) == before + added.take(k as int),
            decreases pieces@.len() - k,
        {
            let ghost held = style::lines_view(lines@);
            let next: Line = body_line(sc, width, &pieces[k]);
            assert(next@ == added[k as int]);
            lines.push(next);
            assert(style::lines_view(lines@) =~= held.push(next@));
            assert(added.take(k + 1) =~= added.take(k as int).push(added[k as int]));
            k += 1;
        }
        assert(added.take(k as int) =~= added);
        assert(before + added =~= top + card_body(sc@, width, all, i + 1));
        i += 1;
    }
    let ghost before = style::lines_view(lines@);
    lines.push(bottom_of(sc, width));
    assert(style::lines_view(lines@) =~= before + seq![card_bottom(sc@, width)]);
    lines
}

proof fn lemma_body_len(c: StoredView, width: usize, logical: Seq<Seq<char>>, n: int)
    requires
        0 <= n,
    ensures
        card_body(c, width, logical, n).len() >= n,
    decreases n,
{
    if n > 0 {
        lemma_body_len(c, width, logical, n - 1);
        composer::lemma_wrapped(
            logical[n - 1],
            composer::wrap_width(text_width_in(width)),
        );
    }
}

/// A card has an edge above and below, and at least one line for each line of its comment.
pub proof fn law_card_shows_every_line(c: StoredView, width: usize)
    ensures
        card(c, width).len() >= text::pieces_from(c.comment.text, 0).len() + 2,
        card(c, width)[0] == card_top(c, width),
        card(c, width).last() == card_bottom(c, width),
{
    let logical = text::pieces_from(c.comment.text, 0);
    lemma_body_len(c, width, logical, logical.len() as int);
}

/// `n` times the character `c`.
pub open spec fn run_of(c: char, n: nat) -> Seq<char> {
    Seq::new(n, |k: int| c)
}

/// Whether `line` shows `piece` between the side edges of a card, indented by two columns, with
/// `gap` spaces behind it.
pub open spec fn shows_piece(line: LineView, piece: Seq<char>, gap: nat) -> bool {
    style::text_of(line.spans) == seq![' ', ' ', '│', ' '] + piece + run_of(' ', gap) + seq![
        ' ',
        '│',
    ]
}

proof fn lemma_four_spans(a: SpanView, b: SpanView, c: SpanView, d: SpanView)
    ensures
        style::text_of(seq![a, b, c, d]) == a.text + b.text + c.text + d.text,
{
    let e = Seq::<SpanView>::empty();
    style::law_widths_add_up(e, a);
    style::law_widths_add_up(e.push(a), b);
    style::law_widths_add_up(e.push(a).push(b), c);
    style::law_widths_add_up(e.push(a).push(b).push(c), d);
    assert(e.push(a).push(b).push(c).push(d) =~= seq![a, b, c, d]);
    assert(style::text_of(e) =~= Seq::empty());
    assert(style::text_of(e.push(a)) =~= a.text);
}

proof fn lemma_card_line_shows(c: StoredView, width: usize, piece: Seq<char>)
    ensures
        shows_piece(
            card_line(c, width, piece),
            piece,
            rest_of(text_width_in(width) as int, width::text_width(piece) as int),
        ),
{
    let gap = rest_of(text_width_in(width) as int, width::text_width(piece) as int);
    let spans = card_line(c, width, piece).spans;
    reveal_strlit("│ ");
    reveal_strlit(" │");
    lemma_four_spans(spans[0], spans[1], spans[2], spans[3]);
    assert(spans =~= seq![spans[0], spans[1], spans[2], spans[3]]);
    assert(style::text_of(spans) =~= seq![' ', ' ', '│', ' '] + piece + run_of(' ', gap) + seq![
        ' ',
        '│',
    ]);
}

/// All of `pieces` one after the other.
pub open spec fn strung(pieces: Seq<Seq<char>>) -> Seq<char>
    decreases pieces.len(),
{
    if pieces.len() == 0 {
        Seq::empty()
    } else {
        strung(pieces.drop_last()) + pieces.last()
    }
}

proof fn lemma_strung_adds(a: Seq<Seq<char>>, b: Seq<Seq<char>>)
    ensures
        strung(a + b) == strung(a) + strung(b),
    decreases b.len(),
{
    if b.len() > 0 {
        lemma_strung_adds(a, b.drop_last());
        assert((a + b).drop_last() =~= a + b.drop_last());
        assert(strung(a + b) =~= strung(a) + strung(b));
    } else {
        assert(a + b =~= a);
        assert(strung(a) + strung(b) =~= strung(a));
    }
}

proof fn lemma_ranges_strung(s: Seq<char>, rows: Seq<(int, int)>, n: int)
    requires
        0 <= n <= rows.len(),
        rows.len() > 0,
        composer::tile(rows, 0, s.len() as int),
    ensures
        strung(rows.take(n).map_values(|r: (int, int)| s.subrange(r.0, r.1))) == if n == 0 {
            Seq::empty()
        } else {
            s.take(rows[n - 1].1)
        },
    decreases n,
{
    let f = |r: (int, int)| s.subrange(r.0, r.1);
    let parts = rows.take(n).map_values(f);
    if n > 0 {
        lemma_ranges_strung(s, rows, n - 1);
        assert(parts.drop_last() =~= rows.take(n - 1).map_values(f));
        assert(parts.last() == f(rows[n - 1]));
        if n > 1 {
            assert(rows[n - 2].1 == rows[n - 1].0);
        }
        assert(strung(parts) =~= s.take(rows[n - 1].1));
    }
}

proof fn lemma_wrapped_strung(s: Seq<char>, w: nat)
    ensures
        strung(rows::wrapped_text(s, w)) == s,
{
    let ranges = composer::wrapped(s, w);
    composer::lemma_wrapped(s, w);
    if s.len() > 0 {
        composer::law_wrap_covers_each_char_once(s, w);
        lemma_ranges_strung(s, ranges, ranges.len() as int);
        assert(ranges.take(ranges.len() as int) =~= ranges);
        assert(s.take(s.len() as int) =~= s);
    } else {
        let one = rows::wrapped_text(s, w);
        assert(ranges[0] == (0int, 0int));
        assert(one.last() =~= s);
        assert(strung(one.drop_last()) =~= Seq::empty());
        assert(strung(one) =~= s);
    }
}

/// The wrapped pieces of the first `n` of `logical`.
spec fn all_pieces(width: usize, logical: Seq<Seq<char>>, n: int) -> Seq<Seq<char>>
    decreases n,
{
    if n <= 0 {
        Seq::empty()
    } else {
        all_pieces(width, logical, n - 1) + rows::wrapped_text(
            logical[n - 1],
            composer::wrap_width(text_width_in(width)),
        )
    }
}

proof fn lemma_all_pieces(c: StoredView, width: usize, logical: Seq<Seq<char>>, n: int)
    requires
        0 <= n <= logical.len(),
    ensures
        card_body(c, width, logical, n) == card_lines_of(c, width, all_pieces(width, logical, n)),
        strung(all_pieces(width, logical, n)) == strung(logical.take(n)),
    decreases n,
{
    if n > 0 {
        lemma_all_pieces(c, width, logical, n - 1);
        let rest = all_pieces(width, logical, n - 1);
        let more = rows::wrapped_text(
            logical[n - 1],
            composer::wrap_width(text_width_in(width)),
        );
        lemma_strung_adds(rest, more);
        lemma_wrapped_strung(
            logical[n - 1],
            composer::wrap_width(text_width_in(width)),
        );
        assert(logical.take(n).drop_last() =~= logical.take(n - 1));
        assert(card_lines_of(c, width, rest + more) =~= card_lines_of(c, width, rest)
            + card_lines_of(c, width, more));
    } else {
        assert(card_body(c, width, logical, n) =~= card_lines_of(
            c,
            width,
            all_pieces(width, logical, n),
        ));
        assert(logical.take(0) =~= Seq::empty());
    }
}

/// Whether the lines of `card` between its edges show `pieces` in order, each filled up with spaces
/// to `room` columns where it is not as wide.
pub open spec fn shows_pieces(card: Seq<LineView>, pieces: Seq<Seq<char>>, room: int) -> bool {
    &&& card.len() == pieces.len() + 2
    &&& forall|k: int|
        0 <= k < pieces.len() ==> {
            let wide = width::text_width(#[trigger] pieces[k]) as int;
            shows_piece(
                card[k + 1],
                pieces[k],
                if wide < room {
                    (room - wide) as nat
                } else {
                    0
                },
            )
        }
}

/// A card shows the whole comment: what stands between its side edges, read line by line, is the
/// text of the comment with its line feeds left out, every other character in its place. The right
/// edges line up: text and spaces take as many columns on each line, six less than the pane.
pub proof fn law_card_shows_the_whole_comment(c: StoredView, width: usize)
    requires
        width >= 12,
    ensures
        exists|pieces: Seq<Seq<char>>| #[trigger]
            shows_pieces(card(c, width), pieces, width - 6) && strung(pieces) == strung(
                text::pieces_from(c.comment.text, 0),
            ),
{
    let logical = text::pieces_from(c.comment.text, 0);
    let n = logical.len() as int;
    let pieces = all_pieces(width, logical, n);
    let all = card(c, width);
    lemma_all_pieces(c, width, logical, n);
    assert(logical.take(n) =~= logical);
    assert forall|k: int| 0 <= k < pieces.len() implies {
        let wide = width::text_width(#[trigger] pieces[k]) as int;
        shows_piece(
            all[k + 1],
            pieces[k],
            if wide < width - 6 {
                (width - 6 - wide) as nat
            } else {
                0
            },
        )
    } by {
        lemma_card_line_shows(c, width, pieces[k]);
        assert(all[k + 1] == card_lines_of(c, width, pieces)[k]);
    }
    assert(shows_pieces(all, pieces, width - 6));
}

/// The top edge of a card says where the comment belongs: behind the corner, and behind the chip of
/// an agent's comment, the location and whether it is resolved, cut to the room there is, and dashes
/// up to the other corner.
pub proof fn law_card_title_names_the_place(c: StoredView, width: usize)
    requires
        width >= 13,
    ensures
        ({
            let agent = c.author == Author::Agent;
            let room = (width - if agent {
                13int
            } else {
                5
            }) as usize;
            let done = c.status == Status::Resolved;
            let label = seq![' ', 'c', 'o', 'm', 'm', 'e', 'n', 't', ' ', '·', ' ']
                + c.comment.location() + if done {
                seq![' ', '·', ' ', 'r', 'e', 's', 'o', 'l', 'v', 'e', 'd', ' ']
            } else {
                seq![' ']
            };
            let shown = elide::truncated(label, room);
            let wide = width::text_width(shown) as int;
            style::text_of(card(c, width)[0].spans) == seq![' ', ' ', '╭', '─'] + (if agent {
                seq![' ', 'a', 'g', 'e', 'n', 't', ' ', '─']
            } else {
                Seq::empty()
            }) + shown + run_of(
                '─',
                if wide < room {
                    (room - wide) as nat
                } else {
                    0
                },
            ) + seq!['╮']
        }),
{
    reveal_strlit(" comment · ");
    reveal_strlit(" · resolved ");
    reveal_strlit(" ");
    reveal_strlit(" agent ");
    reveal_strlit("─");
    reveal_strlit("╭─");
    let agent = c.author == Author::Agent;
    let done = c.status == Status::Resolved;
    let label = seq![' ', 'c', 'o', 'm', 'm', 'e', 'n', 't', ' ', '·', ' '] + c.comment.location()
        + if done {
        seq![' ', '·', ' ', 'r', 'e', 's', 'o', 'l', 'v', 'e', 'd', ' ']
    } else {
        seq![' ']
    };
    assert(card_label(c) =~= label);
    let s = card_top(c, width).spans;
    let e = Seq::<SpanView>::empty();
    assert(style::text_of(e) =~= Seq::empty());
    style::law_widths_add_up(e, s[0]);
    style::law_widths_add_up(e.push(s[0]), s[1]);
    let two = e.push(s[0]).push(s[1]);
    style::law_widths_add_up(two, s[2]);
    style::law_widths_add_up(two.push(s[2]), s[3]);
    let four = two.push(s[2]).push(s[3]);
    if agent {
        style::law_widths_add_up(four, s[4]);
        style::law_widths_add_up(four.push(s[4]), s[5]);
        assert(s =~= four.push(s[4]).push(s[5]));
    } else {
        assert(s =~= four);
    }
    let room = (width - if agent {
        13int
    } else {
        5
    }) as usize;
    let shown = elide::truncated(label, room);
    let wide = width::text_width(shown) as int;
    let dashes = run_of(
        '─',
        if wide < room {
            (room - wide) as nat
        } else {
            0
        },
    );
    assert(s.last().text =~= dashes + seq!['╮']);
    assert(style::text_of(s) =~= seq![' ', ' ', '╭', '─'] + (if agent {
        seq![' ', 'a', 'g', 'e', 'n', 't', ' ', '─']
    } else {
        Seq::empty()
    }) + shown + dashes + seq!['╮']);
}

/// The bottom edge of a card closes the box: it is as wide as the top edge, corner to corner.
pub proof fn law_card_closes(c: StoredView, width: usize)
    requires
        width >= 12,
    ensures
        style::text_of(card(c, width).last().spans) == seq![' ', ' ', '╰'] + run_of(
            '─',
            (width - 4) as nat,
        ) + seq!['╯'],
{
    let s = card_bottom(c, width).spans;
    let e = Seq::<SpanView>::empty();
    assert(style::text_of(e) =~= Seq::empty());
    style::law_widths_add_up(e, s[0]);
    style::law_widths_add_up(e.push(s[0]), s[1]);
    assert(s =~= e.push(s[0]).push(s[1]));
    assert(style::text_of(s) =~= seq![' ', ' ', '╰'] + run_of('─', (width - 4) as nat) + seq![
        '╯',
    ]);
}

/// A resolved comment recedes and an open one does not: the text of the one is muted, and so are
/// its frame and its title; the text of the other has the color of text.
pub proof fn law_resolved_cards_are_muted(c: StoredView, width: usize, piece: Seq<char>)
    ensures
        ({
            let (top, line, end) = (
                card_top(c, width).spans,
                card_line(c, width, piece).spans,
                card_bottom(c, width).spans,
            );
            let n = top.len() as int;
            if c.status == Status::Resolved {
                &&& top[1].style.fg == Some(Tone::Overlay1)
                &&& top[n - 2].style.fg == Some(Tone::Overlay1)
                &&& top[n - 1].style.fg == Some(Tone::Overlay1)
                &&& forall|k: int|
                    1 <= k < line.len() ==> (#[trigger] line[k]).style.fg == Some(Tone::Overlay1)
                &&& end[1].style.fg == Some(Tone::Overlay1)
            } else {
                &&& line[2].style.fg == Some(Tone::Text)
                &&& top[n - 2].style.fg == Some(Tone::Peach)
                &&& top[1].style.fg != line[2].style.fg
            }
        }),
{
}

/// A card never gets narrower than in a pane of twelve columns.
pub proof fn law_narrow_cards_keep_their_width(c: StoredView, width: usize)
    requires
        width < 12,
    ensures
        card(c, width) == card(c, 12),
{
    let logical = text::pieces_from(c.comment.text, 0);
    lemma_narrow_body(c, width, logical, logical.len() as int);
}

proof fn lemma_narrow_body(c: StoredView, width: usize, logical: Seq<Seq<char>>, n: int)
    requires
        width < 12,
    ensures
        card_body(c, width, logical, n) == card_body(c, 12, logical, n),
    decreases n,
{
    if n > 0 {
        lemma_narrow_body(c, width, logical, n - 1);
        let pieces = rows::wrapped_text(
            logical[n - 1],
            composer::wrap_width(text_width_in(width)),
        );
        assert(card_lines_of(c, width, pieces) =~= card_lines_of(c, 12, pieces));
    }
}

} // verus!
