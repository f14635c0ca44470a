//! The footer action bar: which actions fit, and how they read.
use crate::app;
use crate::app::{Focus, FooterAction, Tier, focus_after};
use crate::keys;
use crate::style;
use crate::style::{Line, LineView, Span, SpanView, Style, Tone, raw, styled, width_of_spans};
use crate::text;
use crate::text::{push_decimal, repeat_char};
use vstd::prelude::*;

verus! {

/// What the labels of the footer depend on: which pane has the focus, whether the doc is split,
/// and how many comments a send would deliver.
#[derive(Clone, Copy, Debug, PartialEq, Eq, Structural)]
pub struct FooterState {
    pub focus: Focus,
    pub split: bool,
    pub sendable: usize,
}

/// The key glyph and the label of an action; an empty label shows the glyph alone.
pub open spec fn key_label(state: FooterState, action: FooterAction) -> (Seq<char>, Seq<char>) {
    match action {
        FooterAction::Comment => ("c"@, "comment"@),
        FooterAction::Select => ("v"@, "select"@),
        FooterAction::ClearSelection => ("esc"@, "clear"@),
        FooterAction::EditComment => ("e"@, "edit"@),
        FooterAction::DeleteComment => ("d"@, "delete"@),
        FooterAction::JumpComment => ("n/N"@, "jump"@),
        FooterAction::CycleFocus => (
            "⇥"@,
            if app::next_focus(state.focus, state.split) == Focus::List {
                "files"@
            } else {
                "doc"@
            },
        ),
        FooterAction::Send => ("s"@, "send "@ + text::decimal(state.sendable as nat)),
        FooterAction::List => ("l"@, "list"@),
        FooterAction::Copy => ("y"@, "copy"@),
        FooterAction::Split => ("`"@, "split"@),
        FooterAction::Save => ("enter"@, "save"@),
        FooterAction::Newline => ("⇧⏎"@, "newline"@),
        FooterAction::Cancel => ("esc"@, "cancel"@),
        FooterAction::CloseList => ("esc"@, "close"@),
        FooterAction::ResolveComment => ("x"@, "resolve"@),
        FooterAction::Quit => ("q"@, ""@),
    }
}

/// The key glyph and label for a footer action; an empty label renders the glyph alone. The
/// `CycleFocus` and `Send` labels depend on the state (the destination pane, the comment
/// count).
pub fn action_key_label(state: FooterState, action: FooterAction) -> (r: (String, String))
    ensures
        (r.0@, r.1@) == key_label(state, action),
{
    let (k, l): (&str, &str) = match action {
        FooterAction::Comment => ("c", "comment"),
        FooterAction::Select => ("v", "select"),
        FooterAction::ClearSelection => ("esc", "clear"),
        FooterAction::EditComment => ("e", "edit"),
        FooterAction::DeleteComment => ("d", "delete"),
        FooterAction::JumpComment => ("n/N", "jump"),
        FooterAction::CycleFocus => (
            "⇥",
            if focus_after(state.focus, state.split) == Focus::List {
                "files"
            } else {
                "doc"
            },
        ),
        FooterAction::Send => {
            let mut label: String = "send ".to_owned();
            push_decimal(&mut label, state.sendable as u128);
            return ("s".to_owned(), label);
        },
        FooterAction::List => ("l", "list"),
        FooterAction::Copy => ("y", "copy"),
        FooterAction::Split => ("`", "split"),
        FooterAction::Save => ("enter", "save"),
        FooterAction::Newline => ("⇧⏎", "newline"),
        FooterAction::Cancel => ("esc", "cancel"),
        FooterAction::CloseList => ("esc", "close"),
        FooterAction::ResolveComment => ("x", "resolve"),
        FooterAction::Quit => ("q", ""),
    };
    (k.to_owned(), l.to_owned())
}

/// The styles of the key and the label of a tier.
pub open spec fn tier_look(tier: Tier) -> (Style, Style) {
    match tier {
        Tier::Primary => (Style::strong(Tone::Peach), Style::toned(Tone::Text)),
        Tier::Normal => (Style::toned(Tone::Lavender), Style::toned(Tone::Subtext0)),
        Tier::Orientation => (Style::toned(Tone::Overlay0), Style::toned(Tone::Overlay0)),
    }
}

/// A tier's `(key, label)` styles: the primary bright and bold, normal actions readable, the
/// orientation cluster dim so the eye lands on what to do, not on the always-there anchors.
pub fn tier_styles(tier: Tier) -> (r: (Style, Style))
    ensures
        r == tier_look(tier),
{
    match tier {
        Tier::Primary => (Style::strong(Tone::Peach), Style::toned(Tone::Text)),
        Tier::Normal => (Style::toned(Tone::Lavender), Style::toned(Tone::Subtext0)),
        Tier::Orientation => (Style::toned(Tone::Overlay0), Style::toned(Tone::Overlay0)),
    }
}

/// The first `n` of `acts` as ` · `-separated `key label` spans.
pub open spec fn spans_of(
    state: FooterState,
    acts: Seq<(FooterAction, Tier)>,
    n: int,
) -> Seq<SpanView>
    decreases n,
{
    if n <= 0 {
        Seq::empty()
    } else {
        let rest = spans_of(state, acts, n - 1);
        let (key, label) = key_label(state, acts[n - 1].0);
        let (key_style, label_style) = tier_look(acts[n - 1].1);
        let apart = if n > 1 {
            rest.push(style::span_of(" · "@, Style::toned(Tone::Overlay0)))
        } else {
            rest
        };
        let keyed = apart.push(style::span_of(key, key_style));
        if label.len() > 0 {
            keyed.push(style::span_of(" "@ + label, label_style))
        } else {
            keyed
        }
    }
}

/// Render a run of actions as ` · `-separated `key label` spans, styled per tier.
pub fn action_spans(state: FooterState, acts: &Vec<(FooterAction, Tier)>) -> (r: Vec<Span>)
    ensures
        style::spans_view(r@) == spans_of(state, acts@, acts@.len() as int),
{
    let mut out: Vec<Span> = Vec::new();
    let mut i: usize = 0;
    assert(style::spans_view(out@) =~= Seq::empty());
    while i < acts.len()
        invariant
            i <= acts@.len(),
            style::spans_view(out@) == spans_of(state, acts@, i as int),
        decreases acts@.len() - i,
    {
        let ghost start = style::spans_view(out@);
        let (action, tier): (FooterAction, Tier) = acts[i];
        if i > 0 {
            let dot: Span = styled(" · ".to_owned(), Style::toned(Tone::Overlay0));
            out.push(dot);
            assert(style::spans_view(out@) =~= start.push(dot@));
        }
        let ghost apart = style::spans_view(out@);
        let (key, label): (String, String) = action_key_label(state, action);
        let (key_style, label_style): (Style, Style) = tier_styles(tier);
        let shown: Span = styled(key, key_style);
        out.push(shown);
        assert(style::spans_view(out@) =~= apart.push(shown@));
        let ghost keyed = style::spans_view(out@);
        if !label.as_str().is_empty() {
            let mut spaced: String = " ".to_owned();
            spaced.append(label.as_str());
            let named: Span = styled(spaced, label_style);
            out.push(named);
            assert(style::spans_view(out@) =~= keyed.push(named@));
        }
        i += 1;
    }
    out
}

/// The actions that are packed left.
pub open spec fn left_of(acts: Seq<(FooterAction, Tier)>) -> Seq<(FooterAction, Tier)> {
    acts.filter(|a: (FooterAction, Tier)| a.1 != Tier::Orientation)
}

/// The actions of the orientation cluster.
pub open spec fn orientation_of(acts: Seq<(FooterAction, Tier)>) -> Seq<(FooterAction, Tier)> {
    acts.filter(|a: (FooterAction, Tier)| a.1 == Tier::Orientation)
}

/// The left side of the bar.
pub open spec fn left_spans(state: FooterState, acts: Seq<(FooterAction, Tier)>) -> Seq<SpanView> {
    seq![style::raw_of(" "@)] + spans_of(state, acts, acts.len() as int)
}

/// The orientation cluster, packed right; nothing where there is no such action.
pub open spec fn right_spans(state: FooterState, acts: Seq<(FooterAction, Tier)>) -> Seq<SpanView> {
    if acts.len() == 0 {
        Seq::empty()
    } else {
        seq![style::span_of("│ "@, Style::toned(Tone::Overlay0))] + spans_of(
            state,
            acts,
            acts.len() as int,
        )
    }
}

/// Whether the left side with these actions leaves no room for the mark of a cut.
pub open spec fn too_wide(state: FooterState, acts: Seq<(FooterAction, Tier)>, w: nat) -> bool {
    style::spans_width(left_spans(state, acts)) + 2 > w
}

/// The actions that stay when trailing normal ones are dropped until the line fits. The first
/// action is never dropped.
pub open spec fn trimmed(state: FooterState, acts: Seq<(FooterAction, Tier)>, w: nat) -> Seq<
    (FooterAction, Tier),
>
    decreases acts.len(),
{
    if too_wide(state, acts, w) && acts.len() > 1 && acts.last().1 == Tier::Normal {
        trimmed(state, acts.drop_last(), w)
    } else {
        acts
    }
}

/// The footer for `acts` in `w` columns: the context's actions packed left and the orientation
/// cluster packed right, one cell from the edge. Where both do not fit, the cluster is dropped
/// first, then trailing normal actions, and a trailing `…` marks anything clipped.
pub open spec fn footer_spans(
    state: FooterState,
    acts: Seq<(FooterAction, Tier)>,
    w: nat,
) -> Seq<SpanView> {
    let left = left_spans(state, left_of(acts));
    let right = right_spans(state, orientation_of(acts));
    let taken = style::spans_width(left) + style::spans_width(right) + 1;
    if orientation_of(acts).len() > 0 && taken <= w {
        left.push(style::raw_of(text::repeated(' ', (w - taken) as nat))) + right
    } else {
        let kept = trimmed(state, left_of(acts), w);
        if orientation_of(acts).len() > 0 || kept.len() < left_of(acts).len() || too_wide(
            state,
            kept,
            w,
        ) {
            left_spans(state, kept).push(style::span_of(" …"@, Style::toned(Tone::Overlay0)))
        } else {
            left_spans(state, kept)
        }
    }
}

fn build_left(state: FooterState, acts: &Vec<(FooterAction, Tier)>) -> (r: Vec<Span>)
    ensures
        style::spans_view(r@) == left_spans(state, acts@),
{
    let mut out: Vec<Span> = vec![raw(" ".to_owned())];
    let ghost head = style::spans_view(out@);
    let mut more: Vec<Span> = action_spans(state, acts);
    let ghost added = style::spans_view(more@);
    out.append(&mut more);
    assert(head =~= seq![style::raw_of(" "@)]);
    assert(style::spans_view(out@) =~= head + added);
    out
}

fn build_right(state: FooterState, acts: &Vec<(FooterAction, Tier)>) -> (r: Vec<Span>)
    ensures
        style::spans_view(r@) == right_spans(state, acts@),
{
    if acts.len() == 0 {
        let none: Vec<Span> = Vec::new();
        assert(style::spans_view(none@) =~= Seq::empty());
        return none;
    }
    let bar: Span = styled("│ ".to_owned(), Style::toned(Tone::Overlay0));
    let mut out: Vec<Span> = vec![bar];
    let ghost head = style::spans_view(out@);
    let mut more: Vec<Span> = action_spans(state, acts);
    let ghost added = style::spans_view(more@);
    out.append(&mut more);
    assert(head =~= seq![bar@]);
    assert(style::spans_view(out@) =~= head + added);
    out
}

/// The footer action bar: the context's actions (primary highlighted) packed left, the dim
/// orientation cluster packed right, fitting one line of `width` columns.
pub fn footer_line(state: FooterState, acts: &Vec<(FooterAction, Tier)>, width: u16) -> (r: Line)
    ensures
        r@ == (LineView {
            spans: footer_spans(state, acts@, width as nat),
            fill: Some(Tone::Surface0),
        }),
{
    let w: usize = width as usize;
    let mut left_acts: Vec<(FooterAction, Tier)> = Vec::new();
    let mut orient_acts: Vec<(FooterAction, Tier)> = Vec::new();
    let mut i: usize = 0;
    proof {
        assert(acts@.take(0) =~= Seq::empty());
        reveal(Seq::filter);
    }
    while i < acts.len()
        invariant
            i <= acts@.len(),
            left_acts@ == left_of(acts@.take(i as int)),
            orient_acts@ == orientation_of(acts@.take(i as int)),
        decreases acts@.len() - i,
    {
        proof {
            assert(acts@.take(i + 1).drop_last() =~= acts@.take(i as int));
            reveal(Seq::filter);
        }
        if acts[i].1 != Tier::Orientation {
            left_acts.push(acts[i]);
        } else {
            orient_acts.push(acts[i]);
        }
        i += 1;
    }
    assert(acts@.take(i as int) =~= acts@);
    let mut left: Vec<Span> = build_left(state, &left_acts);
    let mut right: Vec<Span> = build_right(state, &orient_acts);
    let left_w: usize = width_of_spans(&left);
    let right_w: usize = width_of_spans(&right);
    let dropped: bool = orient_acts.len() > 0;
    let taken: usize = left_w.saturating_add(right_w).saturating_add(1);
    if dropped && taken <= w {
        let ghost before = style::spans_view(left@);
        let ghost added = style::spans_view(right@);
        let pad: Span = raw(repeat_char(' ', w - taken));
        left.push(pad);
        assert(style::spans_view(left@) =~= before.push(pad@));
        let ghost padded = style::spans_view(left@);
        left.append(&mut right);
        assert(style::spans_view(left@) =~= padded + added);
        return Line { spans: left, fill: Some(Tone::Surface0) };
    }
    let ghost given = left_acts@;
    let mut popped: bool = false;
    while width_of_spans(&left).saturating_add(2) > w && left_acts.len() > 1
        && left_acts[left_acts.len() - 1].1 == Tier::Normal
        invariant
            w == width,
            style::spans_view(left@) == left_spans(state, left_acts@),
            trimmed(state, left_acts@, w as nat) == trimmed(state, given, w as nat),
            left_acts@.len() <= given.len(),
            popped == (left_acts@.len() < given.len()),
        decreases left_acts@.len(),
    {
        let ghost before = left_acts@;
        let _gone: Option<(FooterAction, Tier)> = left_acts.pop();
        assert(left_acts@ =~= before.drop_last());
        popped = true;
        left = build_left(state, &left_acts);
    }
    let wide: bool = width_of_spans(&left).saturating_add(2) > w;
    if dropped || popped || wide {
        let ghost before = style::spans_view(left@);
        let mark: Span = styled(" …".to_owned(), Style::toned(Tone::Overlay0));
        left.push(mark);
        assert(style::spans_view(left@) =~= before.push(mark@));
    }
    Line { spans: left, fill: Some(Tone::Surface0) }
}

/// Trimming drops actions from the end only, and never the first: the primary action always
/// shows. What stays fits, unless there is nothing left that may go.
pub proof fn law_primary_action_is_never_trimmed(
    state: FooterState,
    acts: Seq<(FooterAction, Tier)>,
    w: nat,
)
    requires
        acts.len() > 0,
    ensures
        ({
            let kept = trimmed(state, acts, w);
            &&& 0 < kept.len() <= acts.len()
            &&& kept == acts.take(kept.len() as int)
            &&& too_wide(state, kept, w) ==> kept.len() == 1 || kept.last().1 != Tier::Normal
        }),
    decreases acts.len(),
{
    if too_wide(state, acts, w) && acts.len() > 1 && acts.last().1 == Tier::Normal {
        law_primary_action_is_never_trimmed(state, acts.drop_last(), w);
        let kept = trimmed(state, acts, w);
        assert(acts.drop_last().take(kept.len() as int) =~= acts.take(kept.len() as int));
    } else {
        assert(acts.take(acts.len() as int) =~= acts);
    }
}

/// The footer names the key that does it: the glyph of an action is the character of its key, or the
/// name of the key where it is no character. A jump names the keys for both ways.
pub proof fn law_glyphs_name_the_keys(state: FooterState, action: FooterAction)
    ensures
        ({
            let glyph = key_label(state, action).0;
            match keys::key_of(action) {
                keys::Key::Char(c) => glyph == if action == FooterAction::JumpComment {
                    seq!['n', '/', 'N']
                } else {
                    seq![c]
                },
                keys::Key::Esc => glyph == seq!['e', 's', 'c'],
                keys::Key::Enter => glyph == seq!['e', 'n', 't', 'e', 'r'],
                keys::Key::Tab => glyph == seq!['⇥'],
                keys::Key::Newline => glyph == seq!['⇧', '⏎'],
                _ => false,
            }
        }),
{
    reveal_strlit("c");
    reveal_strlit("v");
    reveal_strlit("esc");
    reveal_strlit("e");
    reveal_strlit("d");
    reveal_strlit("n/N");
    reveal_strlit("⇥");
    reveal_strlit("s");
    reveal_strlit("l");
    reveal_strlit("y");
    reveal_strlit("`");
    reveal_strlit("enter");
    reveal_strlit("⇧⏎");
    reveal_strlit("x");
    reveal_strlit("q");
    let glyph = key_label(state, action).0;
    match keys::key_of(action) {
        keys::Key::Char(c) => {
            if action == FooterAction::JumpComment {
                assert(glyph =~= seq!['n', '/', 'N']);
            } else {
                assert(glyph =~= seq![c]);
            }
        },
        keys::Key::Esc => {
            assert(glyph =~= seq!['e', 's', 'c']);
        },
        keys::Key::Enter => {
            assert(glyph =~= seq!['e', 'n', 't', 'e', 'r']);
        },
        keys::Key::Tab => {
            assert(glyph =~= seq!['⇥']);
        },
        _ => {
            assert(glyph =~= seq!['⇧', '⏎']);
        },
    }
}

/// The label for sending says how many comments a send delivers, and the label for the next pane
/// says which kind of pane the focus goes to.
pub proof fn law_labels_say_what_happens(state: FooterState)
    ensures
        key_label(state, FooterAction::Send).1 == seq!['s', 'e', 'n', 'd', ' '] + text::decimal(
            state.sendable as nat,
        ),
        key_label(state, FooterAction::CycleFocus).1 == if app::next_focus(state.focus, state.split)
            == Focus::List {
            seq!['f', 'i', 'l', 'e', 's']
        } else {
            seq!['d', 'o', 'c']
        },
{
    reveal_strlit("send ");
    reveal_strlit("files");
    reveal_strlit("doc");
    assert("send "@ =~= seq!['s', 'e', 'n', 'd', ' ']);
    assert("files"@ =~= seq!['f', 'i', 'l', 'e', 's']);
    assert("doc"@ =~= seq!['d', 'o', 'c']);
}

/// Actions stand in their order, each with its key and its label behind it, a dot between each two:
/// one more action adds itself at the end.
pub proof fn law_actions_stand_in_order(
    state: FooterState,
    acts: Seq<(FooterAction, Tier)>,
    a: (FooterAction, Tier),
)
    ensures
        ({
            let n = acts.len() as int;
            let (key, label) = key_label(state, a.0);
            style::text_of(spans_of(state, acts.push(a), n + 1)) == style::text_of(
                spans_of(state, acts, n),
            ) + (if n > 0 {
                seq![' ', '·', ' ']
            } else {
                Seq::empty()
            }) + key + if label.len() > 0 {
                seq![' '] + label
            } else {
                Seq::empty()
            }
        }),
        spans_of(state, Seq::empty(), 0).len() == 0,
{
    reveal_strlit(" · ");
    reveal_strlit(" ");
    let n = acts.len() as int;
    let (key, label) = key_label(state, a.0);
    let (key_style, label_style) = tier_look(a.1);
    lemma_spans_same(state, acts, acts.push(a), n);
    let rest = spans_of(state, acts, n);
    let dot = style::span_of(" · "@, Style::toned(Tone::Overlay0));
    let apart = if n > 0 {
        rest.push(dot)
    } else {
        rest
    };
    let keyed = apart.push(style::span_of(key, key_style));
    style::law_widths_add_up(rest, dot);
    style::law_widths_add_up(apart, style::span_of(key, key_style));
    style::law_widths_add_up(keyed, style::span_of(" "@ + label, label_style));
    assert(style::text_of(spans_of(state, acts.push(a), n + 1)) =~= style::text_of(rest) + (if n
        > 0 {
        seq![' ', '·', ' ']
    } else {
        Seq::empty()
    }) + key + if label.len() > 0 {
        seq![' '] + label
    } else {
        Seq::empty()
    });
}

proof fn lemma_spans_same(
    state: FooterState,
    a: Seq<(FooterAction, Tier)>,
    b: Seq<(FooterAction, Tier)>,
    n: int,
)
    requires
        0 <= n <= a.len(),
        n <= b.len(),
        forall|k: int| 0 <= k < n ==> #[trigger] a[k] == b[k],
    ensures
        spans_of(state, a, n) == spans_of(state, b, n),
    decreases n,
{
    if n > 0 {
        lemma_spans_same(state, a, b, n - 1);
        assert(a[n - 1] == b[n - 1]);
    }
}

/// The actions are shared out between the two sides of the footer, each in its order: those of the
/// orientation cluster on the right, all others on the left.
pub proof fn law_orientation_goes_right(acts: Seq<(FooterAction, Tier)>, a: (FooterAction, Tier))
    ensures
        left_of(acts.push(a)) == if a.1 == Tier::Orientation {
            left_of(acts)
        } else {
            left_of(acts).push(a)
        },
        orientation_of(acts.push(a)) == if a.1 == Tier::Orientation {
            orientation_of(acts).push(a)
        } else {
            orientation_of(acts)
        },
        left_of(Seq::empty()).len() == 0,
        orientation_of(Seq::empty()).len() == 0,
{
    reveal(Seq::filter);
    assert(acts.push(a).drop_last() =~= acts);
}

/// Where both sides fit with a column to spare, the footer shows all of them, the left side from the
/// left edge and the right side up to one column from the right edge, and spaces between.
pub proof fn law_footer_shows_both_sides_where_they_fit(
    state: FooterState,
    acts: Seq<(FooterAction, Tier)>,
    w: nat,
)
    requires
        orientation_of(acts).len() > 0,
        style::spans_width(left_spans(state, left_of(acts))) + style::spans_width(
            right_spans(state, orientation_of(acts)),
        ) + 1 <= w,
    ensures
        ({
            let (left, right) = (
                left_spans(state, left_of(acts)),
                right_spans(state, orientation_of(acts)),
            );
            let all = footer_spans(state, acts, w);
            let (n, m) = (left.len() as int, right.len() as int);
            &&& all.len() == n + 1 + m
            &&& all.take(n) == left
            &&& all.skip(n + 1) == right
            &&& all[n].text == Seq::new(all[n].text.len(), |k: int| ' ')
            &&& style::spans_width(left) + all[n].text.len() + style::spans_width(right) + 1 == w
        }),
{
    let (left, right) = (
        left_spans(state, left_of(acts)),
        right_spans(state, orientation_of(acts)),
    );
    let all = footer_spans(state, acts, w);
    let n = left.len() as int;
    assert(all.take(n) =~= left);
    assert(all.skip(n + 1) =~= right);
    assert(all[n].text =~= Seq::new(all[n].text.len(), |k: int| ' '));
}

/// What matters most stands out: the key of a primary action alone is bold, and what is only for
/// orientation is dim in key and label.
pub proof fn law_primary_actions_stand_out(tier: Tier)
    ensures
        ({
            let (key, label) = tier_look(tier);
            &&& key.bold <==> tier == Tier::Primary
            &&& !label.bold
            &&& tier == Tier::Orientation <==> key.fg == Some(Tone::Overlay0)
            &&& tier == Tier::Orientation <==> label.fg == Some(Tone::Overlay0)
        }),
{
}

/// Whether `spans` show the first `n` of `acts` on the left side, with the mark of a cut behind them
/// where `cut`.
pub open spec fn shows_first(
    spans: Seq<SpanView>,
    state: FooterState,
    acts: Seq<(FooterAction, Tier)>,
    n: int,
    cut: bool,
) -> bool {
    &&& 0 <= n <= acts.len()
    &&& if cut {
        &&& spans.len() > 0
        &&& spans.last().text == seq![' ', '…']
        &&& spans.drop_last() == left_spans(state, acts.take(n))
    } else {
        spans == left_spans(state, acts.take(n))
    }
}

proof fn lemma_trimmed_stops(state: FooterState, acts: Seq<(FooterAction, Tier)>, w: nat)
    ensures
        ({
            let kept = trimmed(state, acts, w);
            &&& kept.len() <= acts.len()
            &&& kept == acts.take(kept.len() as int)
            &&& kept.len() < acts.len() ==> too_wide(state, acts.take(kept.len() as int + 1), w)
            &&& too_wide(state, kept, w) ==> kept.len() <= 1 || kept.last().1 != Tier::Normal
        }),
    decreases acts.len(),
{
    let kept = trimmed(state, acts, w);
    assert(acts.take(acts.len() as int) =~= acts);
    if too_wide(state, acts, w) && acts.len() > 1 && acts.last().1 == Tier::Normal {
        let rest = acts.drop_last();
        lemma_trimmed_stops(state, rest, w);
        let n = kept.len() as int;
        assert(rest.take(n) =~= acts.take(n));
        if n < rest.len() {
            assert(rest.take(n + 1) =~= acts.take(n + 1));
        } else {
            assert(acts.take(n + 1) =~= acts);
        }
    }
}

/// Where not all fits, the right side goes first and then actions from the end of the left side, no
/// more of them than needed: with one action more, the left side would not leave room for the mark.
/// It goes on until the rest fits, but never takes the first action or one that is not of the normal
/// tier.
/// The mark stands there just where something is missing or overlong.
pub proof fn law_footer_drops_no_more_than_needed(
    state: FooterState,
    acts: Seq<(FooterAction, Tier)>,
    w: nat,
)
    requires
        orientation_of(acts).len() == 0 || style::spans_width(
            left_spans(state, left_of(acts)),
        ) + style::spans_width(right_spans(state, orientation_of(acts))) + 1 > w,
    ensures
        ({
            let left = left_of(acts);
            let n = trimmed(state, left, w).len() as int;
            let wide = style::spans_width(left_spans(state, left.take(n))) + 2 > w;
            &&& shows_first(
                footer_spans(state, acts, w),
                state,
                left,
                n,
                orientation_of(acts).len() > 0 || n < left.len() || wide,
            )
            &&& n < left.len() ==> style::spans_width(left_spans(state, left.take(n + 1))) + 2 > w
            &&& left.len() > 0 ==> n > 0
            &&& wide && n > 1 ==> left[n - 1].1 != Tier::Normal
        }),
{
    let left = left_of(acts);
    lemma_trimmed_stops(state, left, w);
    if left.len() > 0 {
        law_primary_action_is_never_trimmed(state, left, w);
    }
    reveal_strlit(" …");
    let kept = trimmed(state, left, w);
    let spans = footer_spans(state, acts, w);
    let mark = style::span_of(" …"@, Style::toned(Tone::Overlay0));
    assert(left_spans(state, kept).push(mark).drop_last() =~= left_spans(state, kept));
    assert(mark.text =~= seq![' ', '…']);
}

/// The left side starts one column from the edge, and the right side behind a bar; then the actions
/// follow.
pub proof fn law_sides_show_their_actions(state: FooterState, acts: Seq<(FooterAction, Tier)>)
    ensures
        left_spans(state, acts).skip(1) == spans_of(state, acts, acts.len() as int),
        left_spans(state, acts)[0].text == seq![' '],
        acts.len() > 0 ==> right_spans(state, acts).skip(1) == spans_of(
            state,
            acts,
            acts.len() as int,
        ) && right_spans(state, acts)[0].text == seq!['│', ' '],
        acts.len() == 0 ==> right_spans(state, acts).len() == 0,
{
    reveal_strlit(" ");
    reveal_strlit("│ ");
    let all = spans_of(state, acts, acts.len() as int);
    assert(left_spans(state, acts).skip(1) =~= all);
    assert(left_spans(state, acts)[0].text =~= seq![' ']);
    if acts.len() > 0 {
        assert(right_spans(state, acts).skip(1) =~= all);
        assert(right_spans(state, acts)[0].text =~= seq!['│', ' ']);
    }
}

} // verus!
