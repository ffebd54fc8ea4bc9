//! Joining the wireless network.
//!
//! The radio and the network stack are driven from outside; [`step`] decides what is done next
//! from what has happened.
use vstd::prelude::*;

verus! {

/// Milliseconds between two looks at the address configuration.
pub const CONFIG_POLL_MS: u64 = 100;

/// Milliseconds between two looks at the link.
pub const LINK_POLL_MS: u64 = 500;

/// How far the set-up has come.
#[derive(Clone, Copy, Debug, PartialEq, Eq, Structural)]
pub enum Phase {
    Joining,
    WaitingForConfig,
    WaitingForLink,
    WaitingForStack,
    Ready,
}

/// What has happened.
#[derive(Clone, Copy, Debug, PartialEq, Eq, Structural)]
pub enum Event {
    /// The access point let us in.
    Joined,
    /// The access point turned us away.
    JoinFailed,
    /// Whether the stack has an address configuration.
    Config { up: bool },
    /// Whether the link is up.
    Link { up: bool },
    /// The stack has come up.
    StackUp,
}

/// What is to be done next.
#[derive(Clone, Copy, Debug, PartialEq, Eq, Structural)]
pub enum Action {
    /// Try to join the network.
    Join,
    /// Sleep, then look at the address configuration.
    CheckConfig { after_ms: u64 },
    /// Sleep, then look at the link.
    CheckLink { after_ms: u64 },
    /// Wait until the stack is up.
    WaitForStack,
    /// Hand the stack out.
    Done,
}

/// The event is one that the phase waits for.
pub open spec fn expects(phase: Phase, event: Event) -> bool {
    match phase {
        Phase::Joining => event is Joined || event is JoinFailed,
        Phase::WaitingForConfig => event is Config,
        Phase::WaitingForLink => event is Link,
        Phase::WaitingForStack => event is StackUp,
        Phase::Ready => false,
    }
}

/// The event is what the phase waits to hear.
pub open spec fn completes(event: Event) -> bool {
    match event {
        Event::Joined => true,
        Event::JoinFailed => false,
        Event::Config { up } => up,
        Event::Link { up } => up,
        Event::StackUp => true,
    }
}

/// The phase that follows.
pub open spec fn next_phase(phase: Phase) -> Phase {
    match phase {
        Phase::Joining => Phase::WaitingForConfig,
        Phase::WaitingForConfig => Phase::WaitingForLink,
        Phase::WaitingForLink => Phase::WaitingForStack,
        Phase::WaitingForStack => Phase::Ready,
        Phase::Ready => Phase::Ready,
    }
}

/// What a phase does: at once when it begins, and after a pause when it goes on.
pub open spec fn action_of(phase: Phase, begins: bool) -> Action {
    match phase {
        Phase::Joining => Action::Join,
        Phase::WaitingForConfig => Action::CheckConfig {
            after_ms: if begins {
                0
            } else {
                CONFIG_POLL_MS
            },
        },
        Phase::WaitingForLink => Action::CheckLink {
            after_ms: if begins {
                0
            } else {
                LINK_POLL_MS
            },
        },
        Phase::WaitingForStack => Action::WaitForStack,
        Phase::Ready => Action::Done,
    }
}

/// The set-up begins with an attempt to join.
pub fn start() -> (r: (Phase, Action))
    ensures
        r.0 == Phase::Joining,
        r.1 == action_of(Phase::Joining, true),
{
    (Phase::Joining, Action::Join)
}

/// The phase and the action that follow an event.
pub fn step(phase: Phase, event: Event) -> (r: (Phase, Action))
    requires
        expects(phase, event),
    ensures
        r.0 == after(phase, event),
        r.1 == action_of(r.0, completes(event)),
{
    match event {
        Event::Joined => (Phase::WaitingForConfig, Action::CheckConfig { after_ms: 0 }),
        Event::JoinFailed => (Phase::Joining, Action::Join),
        Event::Config { up } => if up {
            (Phase::WaitingForLink, Action::CheckLink { after_ms: 0 })
        } else {
            (Phase::WaitingForConfig, Action::CheckConfig { after_ms: CONFIG_POLL_MS })
        },
        Event::Link { up } => if up {
            (Phase::WaitingForStack, Action::WaitForStack)
        } else {
            (Phase::WaitingForLink, Action::CheckLink { after_ms: LINK_POLL_MS })
        },
        Event::StackUp => (Phase::Ready, Action::Done),
    }
}

/// The phase after an event.
pub open spec fn after(phase: Phase, event: Event) -> Phase {
    if completes(event) {
        next_phase(phase)
    } else {
        phase
    }
}

/// The phase after a history of events from the start.
pub open spec fn after_all(events: Seq<Event>) -> Phase
    decreases events.len(),
{
    if events.len() == 0 {
        Phase::Joining
    } else {
        after(after_all(events.drop_last()), events.last())
    }
}

/// Each event of a history was expected when it came.
pub open spec fn all_expected(events: Seq<Event>) -> bool
    decreases events.len(),
{
    events.len() > 0 ==> all_expected(events.drop_last()) && expects(
        after_all(events.drop_last()),
        events.last(),
    )
}

/// The stack is handed out only after the network was joined, then an address configuration was
/// seen, then the link was seen up, and then the stack had come up.
pub proof fn law_ready_only_when_all_is_up(events: Seq<Event>)
    requires
        all_expected(events),
        after_all(events) == Phase::Ready,
    ensures
        exists|j: int, c: int, l: int, s: int|
            0 <= j < c < l < s < events.len() && #[trigger] events[j] == Event::Joined
                && #[trigger] events[c] == (Event::Config { up: true }) && #[trigger] events[l] == (
            Event::Link { up: true }) && #[trigger] events[s] == Event::StackUp,
{
    let s = lemma_completed(events, Phase::WaitingForStack);
    let to_stack = events.take(s);
    let l = lemma_completed(to_stack, Phase::WaitingForLink);
    let to_link = to_stack.take(l);
    let c = lemma_completed(to_link, Phase::WaitingForConfig);
    let to_config = to_link.take(c);
    let j = lemma_completed(to_config, Phase::Joining);
    assert(events[l] == to_stack[l]);
    assert(events[c] == to_link[c]);
    assert(events[j] == to_config[j]);
    assert(0 <= j < c < l < s < events.len());
    assert(events[j] == Event::Joined);
    assert(events[c] == (Event::Config { up: true }));
    assert(events[l] == (Event::Link { up: true }));
    assert(events[s] == Event::StackUp);
}

/// A phase that has just been left was left on an event that completed it.
proof fn lemma_completed(events: Seq<Event>, phase: Phase) -> (i: int)
    requires
        all_expected(events),
        phase != Phase::Ready,
        after_all(events) == next_phase(phase),
    ensures
        0 <= i < events.len(),
        completes(events[i]),
        expects(phase, events[i]),
        all_expected(events.take(i)),
        after_all(events.take(i)) == phase,
    decreases events.len(),
{
    let init = events.drop_last();
    assert(events.take(events.len() - 1) =~= init);
    if after_all(init) == phase {
        events.len() - 1
    } else {
        let i = lemma_completed(init, phase);
        assert(init.take(i) =~= events.take(i));
        i
    }
}

/// Each phase waits for its own news, and the last for none.
pub proof fn law_awaited_events(event: Event)
    ensures
        expects(Phase::Joining, event) <==> event is Joined || event is JoinFailed,
        expects(Phase::WaitingForConfig, event) <==> event is Config,
        expects(Phase::WaitingForLink, event) <==> event is Link,
        expects(Phase::WaitingForStack, event) <==> event is StackUp,
        !expects(Phase::Ready, event),
{
}

/// Good news leads on by one phase: from joining to the address, from there to the link, from
/// there to the stack, and then the set-up is done. The next thing is done at once.
pub proof fn law_good_news_leads_on()
    ensures
        after(Phase::Joining, Event::Joined) == Phase::WaitingForConfig,
        after(Phase::WaitingForConfig, Event::Config { up: true }) == Phase::WaitingForLink,
        after(Phase::WaitingForLink, Event::Link { up: true }) == Phase::WaitingForStack,
        after(Phase::WaitingForStack, Event::StackUp) == Phase::Ready,
        action_of(Phase::WaitingForConfig, completes(Event::Joined)) == (Action::CheckConfig {
            after_ms: 0,
        }),
        action_of(Phase::WaitingForLink, completes(Event::Config { up: true })) == (
        Action::CheckLink { after_ms: 0 }),
        action_of(Phase::WaitingForStack, completes(Event::Link { up: true }))
            == Action::WaitForStack,
        action_of(Phase::Ready, completes(Event::StackUp)) == Action::Done,
{
}

/// Bad news changes nothing: the same is tried again, joining at once, the address after a tenth
/// of a second and the link after half a second.
pub proof fn law_bad_news_is_waited_out()
    ensures
        after(Phase::Joining, Event::JoinFailed) == Phase::Joining,
        after(Phase::WaitingForConfig, Event::Config { up: false }) == Phase::WaitingForConfig,
        after(Phase::WaitingForLink, Event::Link { up: false }) == Phase::WaitingForLink,
        action_of(Phase::Joining, completes(Event::JoinFailed)) == Action::Join,
        action_of(Phase::WaitingForConfig, completes(Event::Config { up: false })) == (
        Action::CheckConfig { after_ms: 100 }),
        action_of(Phase::WaitingForLink, completes(Event::Link { up: false })) == (
        Action::CheckLink { after_ms: 500 }),
        action_of(Phase::Joining, true) == Action::Join,
{
}

/// A set-up that is not ready gets there by hearing what is left to hear: whatever came before, the
/// four pieces of good news, in their order, end it.
pub proof fn law_good_news_ends_the_set_up(events: Seq<Event>)
    requires
        after_all(events) == Phase::Joining,
    ensures
        after_all(
            events.push(Event::Joined).push(Event::Config { up: true }).push(
                Event::Link { up: true },
            ).push(Event::StackUp),
        ) == Phase::Ready,
{
    let joined = events.push(Event::Joined);
    let config = joined.push(Event::Config { up: true });
    let link = config.push(Event::Link { up: true });
    let stack = link.push(Event::StackUp);
    assert(joined.drop_last() =~= events);
    assert(config.drop_last() =~= joined);
    assert(link.drop_last() =~= config);
    assert(stack.drop_last() =~= link);
    assert(after_all(joined) == Phase::WaitingForConfig);
    assert(after_all(config) == Phase::WaitingForLink);
    assert(after_all(link) == Phase::WaitingForStack);
}

} // verus!
