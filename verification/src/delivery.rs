//! What to do next while handing an export over: the steps of reaching the agent, and the names
//! under which a clipboard tool may lie on the path.
use crate::text;
use crate::text::split_on;
use vstd::prelude::*;

verus! {

/// How far the delivery to the agent has come.
#[derive(Clone, Copy, Debug, PartialEq, Eq, Structural)]
pub enum AgentState {
    /// The pane of the agent is being looked up.
    Resolving,
    /// The text is being put into the pane.
    Sending,
    /// The pane is being brought to the front.
    Focusing,
    Done,
}

/// How the last action ended.
#[derive(Clone, Copy, Debug, PartialEq, Eq, Structural)]
pub enum AgentEvent {
    Succeeded,
    Failed,
}

/// What to do next.
#[derive(Clone, Copy, Debug, PartialEq, Eq, Structural)]
pub enum AgentAction {
    /// Put the text into the pane that was looked up.
    Send,
    /// Bring that pane to the front.
    Focus,
    /// Report that the text was delivered.
    Succeed,
    /// Report the error of the last action.
    Fail,
    /// Nothing: the delivery is over.
    Rest,
}

/// The state behind `state` when its action ended in `event`, and what to do then. A pane that
/// cannot be brought to the front is no failure: the text is already there, and a failure would
/// have it sent a second time.
pub open spec fn agent_next(state: AgentState, event: AgentEvent) -> (AgentState, AgentAction) {
    match (state, event) {
        (AgentState::Resolving, AgentEvent::Succeeded) => (AgentState::Sending, AgentAction::Send),
        (AgentState::Sending, AgentEvent::Succeeded) => (AgentState::Focusing, AgentAction::Focus),
        (AgentState::Resolving, AgentEvent::Failed) => (AgentState::Done, AgentAction::Fail),
        (AgentState::Sending, AgentEvent::Failed) => (AgentState::Done, AgentAction::Fail),
        (AgentState::Focusing, _) => (AgentState::Done, AgentAction::Succeed),
        (AgentState::Done, _) => (AgentState::Done, AgentAction::Rest),
    }
}

/// The state behind `state` when its action ended in `event`, and what to do then.
pub fn agent_step(state: AgentState, event: AgentEvent) -> (r: (AgentState, AgentAction))
    ensures
        r == agent_next(state, event),
{
    match (state, event) {
        (AgentState::Resolving, AgentEvent::Succeeded) => (AgentState::Sending, AgentAction::Send),
        (AgentState::Sending, AgentEvent::Succeeded) => (AgentState::Focusing, AgentAction::Focus),
        (AgentState::Resolving, AgentEvent::Failed) => (AgentState::Done, AgentAction::Fail),
        (AgentState::Sending, AgentEvent::Failed) => (AgentState::Done, AgentAction::Fail),
        (AgentState::Focusing, _) => (AgentState::Done, AgentAction::Succeed),
        (AgentState::Done, _) => (AgentState::Done, AgentAction::Rest),
    }
}

/// What is done from `state` on when the actions end in `events`, one after the other.
pub open spec fn agent_actions(state: AgentState, events: Seq<AgentEvent>) -> Seq<AgentAction>
    decreases events.len(),
{
    if events.len() == 0 {
        Seq::empty()
    } else {
        let (next, action) = agent_next(state, events[0]);
        seq![action] + agent_actions(next, events.skip(1))
    }
}

/// A delivery succeeds where the pane is found and takes the text, whether or not it comes to the
/// front, and fails in every other case; a pane that is not found is sent nothing, and one that
/// does not take the text is not brought to the front.
pub proof fn law_delivery_succeeds_when_the_text_arrives(events: Seq<AgentEvent>)
    requires
        events.len() >= 3,
    ensures
        ({
            let done = agent_actions(AgentState::Resolving, events);
            let found = events[0] is Succeeded;
            let taken = found && events[1] is Succeeded;
            &&& done.contains(AgentAction::Succeed) <==> taken
            &&& done.contains(AgentAction::Fail) <==> !taken
            &&& done.contains(AgentAction::Send) <==> found
            &&& done.contains(AgentAction::Focus) <==> taken
        }),
{
    let done = agent_actions(AgentState::Resolving, events);
    reveal_with_fuel(agent_actions, 4);
    let later = events.skip(1).skip(1).skip(1);
    assert(events.skip(1)[0] == events[1]);
    assert(events.skip(1).skip(1)[0] == events[2]);
    lemma_done_rests(later);
    let tail = agent_actions(AgentState::Done, later);
    assert(done.len() == 3 + tail.len());
    assert(forall|k: int| 3 <= k < done.len() ==> #[trigger] done[k] == tail[k - 3]);
    assert(done[0] == agent_next(AgentState::Resolving, events[0]).1);
    if events[0] is Succeeded {
        assert(done[1] == agent_next(AgentState::Sending, events[1]).1);
        if events[1] is Succeeded {
            assert(done[2] == AgentAction::Succeed);
        }
    }
}

proof fn lemma_done_rests(events: Seq<AgentEvent>)
    ensures
        agent_actions(AgentState::Done, events).len() == events.len(),
        forall|k: int|
            0 <= k < events.len() ==> #[trigger] agent_actions(AgentState::Done, events)[k]
                == AgentAction::Rest,
    decreases events.len(),
{
    if events.len() > 0 {
        lemma_done_rests(events.skip(1));
        let rest = agent_actions(AgentState::Done, events.skip(1));
        let all = agent_actions(AgentState::Done, events);
        assert(forall|k: int| 1 <= k < all.len() ==> #[trigger] all[k] == rest[k - 1]);
    }
}

/// `name` with each of `extensions[..n]` behind it that is not empty.
pub open spec fn extended(name: Seq<char>, extensions: Seq<Seq<char>>, n: int) -> Seq<Seq<char>>
    decreases n,
{
    if n <= 0 {
        Seq::empty()
    } else if extensions[n - 1].len() == 0 {
        extended(name, extensions, n - 1)
    } else {
        extended(name, extensions, n - 1).push(name + extensions[n - 1])
    }
}

/// The file names under which the command `name` may lie in a directory of the path: the name
/// itself, then with each of the extensions of `pathext`, which semicolons separate.
pub open spec fn candidate_names(name: Seq<char>, pathext: Seq<char>) -> Seq<Seq<char>> {
    let extensions = text::parts(pathext, ';');
    seq![name] + extended(name, extensions, extensions.len() as int)
}

/// The file names under which the command `name` may lie in a directory of the path.
pub fn candidates(name: &str, pathext: &str) -> (r: Vec<String>)
    ensures
        text::contents(r@) == candidate_names(name@, pathext@),
{
    let extensions: Vec<String> = split_on(pathext, ';');
    let ghost view = text::contents(extensions@);
    let mut out: Vec<String> = vec![name.to_owned()];
    assert(text::contents(out@) =~= seq![name@] + extended(name@, view, 0));
    let mut i: usize = 0;
    while i < extensions.len()
        invariant
            i <= extensions@.len(),
            view == text::contents(extensions@),
            text::contents(out@) == seq![name@] + extended(name@, view, i as int),
        decreases extensions@.len() - i,
    {
        let ghost before = text::contents(out@);
        assert(view[i as int] == extensions@[i as int]@);
        if !extensions[i].as_str().is_empty() {
            let mut full: String = name.to_owned();
            full.append(extensions[i].as_str());
            out.push(full);
            assert(text::contents(out@) =~= before.push(full@));
            assert(text::contents(out@) =~= seq![name@] + extended(name@, view, i + 1));
        }
        i += 1;
    }
    out
}

/// A command is looked for under its own name first, and then with each extension behind it that is
/// not empty, in the order given, and under no other name.
pub proof fn law_candidates_go_by_the_extensions(name: Seq<char>, extensions: Seq<Seq<char>>, x: Seq<char>)
    ensures
        ({
            let n = extensions.len() as int;
            extended(name, extensions.push(x), n + 1) == if x.len() > 0 {
                extended(name, extensions, n).push(name + x)
            } else {
                extended(name, extensions, n)
            }
        }),
        extended(name, Seq::empty(), 0).len() == 0,
{
    lemma_extended_same(name, extensions, extensions.push(x), extensions.len() as int);
}

proof fn lemma_extended_same(name: Seq<char>, a: Seq<Seq<char>>, b: Seq<Seq<char>>, n: int)
    requires
        0 <= n <= a.len(),
        n <= b.len(),
        forall|k: int| 0 <= k < n ==> #[trigger] a[k] == b[k],
    ensures
        extended(name, a, n) == extended(name, b, n),
    decreases n,
{
    if n > 0 {
        lemma_extended_same(name, a, b, n - 1);
        assert(a[n - 1] == b[n - 1]);
    }
}

/// The first name that a command is looked for under is its own, the others go by the parts of the
/// list of extensions between semicolons.
pub proof fn law_the_own_name_comes_first(name: Seq<char>, pathext: Seq<char>)
    ensures
        ({
            let all = candidate_names(name, pathext);
            let parts = text::parts(pathext, ';');
            &&& all.len() > 0 && all[0] == name
            &&& all.skip(1) == extended(name, parts, parts.len() as int)
        }),
{
    let all = candidate_names(name, pathext);
    let parts = text::parts(pathext, ';');
    assert(all.skip(1) =~= extended(name, parts, parts.len() as int));
}

/// A delivery goes on only from success to success: each action is asked for right behind the one
/// that it needs, and a delivery that is over asks for nothing more.
pub proof fn law_delivery_takes_one_step_at_a_time(state: AgentState, event: AgentEvent)
    ensures
        ({
            let (next, action) = agent_next(state, event);
            &&& action == AgentAction::Send <==> state == AgentState::Resolving && event
                == AgentEvent::Succeeded
            &&& action == AgentAction::Focus <==> state == AgentState::Sending && event
                == AgentEvent::Succeeded
            &&& action == AgentAction::Succeed <==> state == AgentState::Focusing
            &&& action == AgentAction::Rest <==> state == AgentState::Done
            &&& action == AgentAction::Send ==> next == AgentState::Sending
            &&& action == AgentAction::Focus ==> next == AgentState::Focusing
            &&& action != AgentAction::Send && action != AgentAction::Focus ==> next
                == AgentState::Done
        }),
{
}

} // verus!
