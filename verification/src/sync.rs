//! Setting the clock from the network, and showing the time until it is set again.
//!
//! The requests, the clock and the strip are driven from outside; [`step`] decides what is done
//! next from what has happened.
use crate::clock::{DateTime, TimestampError};
use vstd::prelude::*;

verus! {

/// How often the time is shown before the clock is set again.
pub const SHOWS_PER_SYNC: u32 = 360000;

/// Milliseconds between two times that the time is shown.
pub const SHOW_INTERVAL_MS: u64 = 10;

/// How far the task has come.
#[derive(Clone, Copy, Debug, PartialEq, Eq, Structural)]
pub enum State {
    /// The time service is being asked.
    Requesting,
    /// The timestamp is being taken out of the reply.
    Extracting,
    /// The clock is being set.
    Setting,
    /// The time is being shown, and has been `shown` times since the clock was set.
    Showing { shown: u32 },
    /// The task has ended.
    Stopped,
}

/// What has happened.
#[derive(Clone, Copy, Debug)]
pub enum Event<'a> {
    /// The request could not be made.
    RequestFailed,
    /// The request could not be sent.
    SendFailed,
    /// The body of the reply has been read.
    BodyRead(&'a [u8]),
    /// The reply is not an object with a timestamp.
    ReplyRejected,
    /// The timestamp of the reply.
    TimestampFound(&'a str),
    /// The clock has been set.
    ClockSet,
    /// The time has been shown.
    TimeShown,
}

/// Why the task ends.
#[derive(Clone, Copy, Debug, PartialEq, Eq, Structural)]
pub enum Failure {
    RequestFailed,
    SendFailed,
    BodyNotText,
    ReplyRejected,
    TimestampMalformed,
}

/// What is to be done next.
#[derive(Clone, Copy, Debug, PartialEq, Eq, Structural)]
pub enum Action {
    /// Ask the time service and read the body of its reply.
    Request,
    /// Take the timestamp out of the body.
    Extract,
    /// Set the clock.
    SetClock(DateTime),
    /// Show the time, then sleep for [`SHOW_INTERVAL_MS`].
    Show,
    /// End the task.
    Stop(Failure),
}

/// The event is one that the state waits for.
pub open spec fn expects(state: State, event: Event<'_>) -> bool {
    match state {
        State::Requesting => event is RequestFailed || event is SendFailed || event is BodyRead,
        State::Extracting => event is ReplyRejected || event is TimestampFound,
        State::Setting => event is ClockSet,
        State::Showing { shown } => event is TimeShown && shown < SHOWS_PER_SYNC,
        State::Stopped => false,
    }
}

/// The task ends with this event, for this reason.
pub open spec fn failure(event: Event<'_>) -> Option<Failure> {
    match event {
        Event::RequestFailed => Some(Failure::RequestFailed),
        Event::SendFailed => Some(Failure::SendFailed),
        Event::BodyRead(body) => if vstd::utf8::valid_utf8(body@) {
            None
        } else {
            Some(Failure::BodyNotText)
        },
        Event::ReplyRejected => Some(Failure::ReplyRejected),
        Event::TimestampFound(text) => if crate::clock::rfc3339(text@) is Some {
            None
        } else {
            Some(Failure::TimestampMalformed)
        },
        Event::ClockSet => None,
        Event::TimeShown => None,
    }
}

/// The state that follows an event.
pub open spec fn next_state(state: State, event: Event<'_>) -> State {
    if failure(event) is Some {
        State::Stopped
    } else {
        match state {
            State::Requesting => State::Extracting,
            State::Extracting => State::Setting,
            State::Setting => State::Showing { shown: 0 },
            State::Showing { shown } => if shown + 1 < SHOWS_PER_SYNC {
                State::Showing { shown: (shown + 1) as u32 }
            } else {
                State::Requesting
            },
            State::Stopped => State::Stopped,
        }
    }
}

/// `core::str::from_utf8`: whether bytes are text, which they are if and only if they are valid
/// UTF-8.
#[verifier::external_body]
fn is_text(bytes: &[u8]) -> (r: bool)
    ensures
        r == vstd::utf8::valid_utf8(bytes@),
{
    core::str::from_utf8(bytes).is_ok()
}

/// The task begins with a request.
pub fn start() -> (r: (State, Action))
    ensures
        r.0 == State::Requesting,
        r.1 == Action::Request,
{
    (State::Requesting, Action::Request)
}

/// The state and the action that follow an event.
pub fn step(state: State, event: Event<'_>) -> (r: (State, Action))
    requires
        expects(state, event),
    ensures
        r.0 == next_state(state, event),
        match r.0 {
            State::Requesting => r.1 == Action::Request,
            State::Extracting => r.1 == Action::Extract,
            State::Setting => {
                let text = event->TimestampFound_0@;
                let time = crate::clock::rfc3339(text)->0;
                &&& r.1 matches Action::SetClock(datetime)
                &&& datetime.in_range()
                &&& datetime.holds(time)
                &&& crate::clock::is_written(text, time)
            },
            State::Showing { .. } => r.1 == Action::Show,
            State::Stopped => r.1 == Action::Stop(failure(event)->0),
        },
{
    match event {
        Event::RequestFailed => (State::Stopped, Action::Stop(Failure::RequestFailed)),
        Event::SendFailed => (State::Stopped, Action::Stop(Failure::SendFailed)),
        Event::BodyRead(body) => if is_text(body) {
            (State::Extracting, Action::Extract)
        } else {
            (State::Stopped, Action::Stop(Failure::BodyNotText))
        },
        Event::ReplyRejected => (State::Stopped, Action::Stop(Failure::ReplyRejected)),
        Event::TimestampFound(text) => match DateTime::from_timestamp(text) {
            Ok(datetime) => (State::Setting, Action::SetClock(datetime)),
            Err(TimestampError::Malformed) => (
                State::Stopped,
                Action::Stop(Failure::TimestampMalformed),
            ),
        },
        Event::ClockSet => (State::Showing { shown: 0 }, Action::Show),
        Event::TimeShown => match state {
            State::Showing { shown } if shown + 1 < SHOWS_PER_SYNC => (
                State::Showing { shown: shown + 1 },
                Action::Show,
            ),
            _ => (State::Requesting, Action::Request),
        },
    }
}

/// The state after the clock was set and the time was shown `n` times.
pub open spec fn after_shows(n: nat) -> State
    decreases n,
{
    if n == 0 {
        next_state(State::Setting, Event::ClockSet)
    } else {
        next_state(after_shows((n - 1) as nat), Event::TimeShown)
    }
}

/// Once the clock is set, the time is shown exactly [`SHOWS_PER_SYNC`] times before the time
/// service is asked again.
pub proof fn law_resync_period(n: nat)
    requires
        n <= SHOWS_PER_SYNC,
    ensures
        after_shows(n) == if n < SHOWS_PER_SYNC {
            State::Showing { shown: n as u32 }
        } else {
            State::Requesting
        },
        n < SHOWS_PER_SYNC ==> expects(after_shows(n), Event::TimeShown),
    decreases n,
{
    if n > 0 {
        law_resync_period((n - 1) as nat);
    }
}

/// The task ends on the first thing that goes wrong, and nothing else ends it.
pub proof fn law_stops_only_on_failure(state: State, event: Event<'_>)
    requires
        expects(state, event),
    ensures
        next_state(state, event) == State::Stopped <==> failure(event) is Some,
{
}

/// A reply is taken further if and only if it is valid UTF-8, however long it is; else the task
/// ends, because the body is no text.
pub proof fn law_text_is_taken_further(body: &[u8])
    ensures
        next_state(State::Requesting, Event::BodyRead(body)) == State::Extracting
            <==> vstd::utf8::valid_utf8(body@),
        next_state(State::Requesting, Event::BodyRead(body)) == State::Stopped
            <==> !vstd::utf8::valid_utf8(body@),
        failure(Event::BodyRead(body)) == Some(Failure::BodyNotText) <==> !vstd::utf8::valid_utf8(
            body@,
        ),
        failure(Event::BodyRead(body)) is None <==> vstd::utf8::valid_utf8(body@),
{
}

/// Two replies that are both text, or both not, are treated alike.
pub proof fn law_only_text_matters(one: &[u8], other: &[u8])
    requires
        vstd::utf8::valid_utf8(one@) == vstd::utf8::valid_utf8(other@),
    ensures
        next_state(State::Requesting, Event::BodyRead(one)) == next_state(
            State::Requesting,
            Event::BodyRead(other),
        ),
        failure(Event::BodyRead(one)) == failure(Event::BodyRead(other)),
{
}

/// A request that fails ends the task, and so does a reply without a timestamp; each is named as
/// what it is.
pub proof fn law_failures_are_named(state: State)
    ensures
        next_state(state, Event::RequestFailed) == State::Stopped,
        failure(Event::RequestFailed) == Some(Failure::RequestFailed),
        next_state(state, Event::SendFailed) == State::Stopped,
        failure(Event::SendFailed) == Some(Failure::SendFailed),
        next_state(state, Event::ReplyRejected) == State::Stopped,
        failure(Event::ReplyRejected) == Some(Failure::ReplyRejected),
        failure(Event::ClockSet) is None,
        failure(Event::TimeShown) is None,
{
}

/// The clock is set for each timestamp that can be read, and for no other.
pub proof fn law_timestamp_sets_clock(text: &str)
    ensures
        next_state(State::Extracting, Event::TimestampFound(text)) == State::Setting
            <==> crate::clock::rfc3339(text@) is Some,
        next_state(State::Extracting, Event::TimestampFound(text)) == State::Stopped
            <==> crate::clock::rfc3339(text@) is None,
        failure(Event::TimestampFound(text)) == Some(Failure::TimestampMalformed)
            <==> crate::clock::rfc3339(text@) is None,
        failure(Event::TimestampFound(text)) is None <==> crate::clock::rfc3339(text@) is Some,
{
}

/// Once the clock is set, the time is shown; each show counts as one, and the one after which
/// there have been 360000 leads back to a request.
pub proof fn law_shows_are_counted(shown: u32)
    requires
        shown < 360000,
    ensures
        next_state(State::Setting, Event::ClockSet) == (State::Showing { shown: 0 }),
        shown < 359999 ==> next_state(State::Showing { shown }, Event::TimeShown) == (
        State::Showing { shown: (shown + 1) as u32 }),
        shown == 359999 ==> next_state(State::Showing { shown }, Event::TimeShown)
            == State::Requesting,
{
}

/// The clock is set again after an hour of pauses.
pub proof fn law_resync_every_hour()
    ensures
        SHOWS_PER_SYNC * SHOW_INTERVAL_MS == 60 * 60 * 1000,
        SHOWS_PER_SYNC == 360000,
{
}

/// What each state waits for: a request ends in one of three ways, an extraction in one of two,
/// and a stopped task waits for nothing.
pub proof fn law_awaited_events(event: Event<'_>, shown: u32)
    ensures
        expects(State::Requesting, event) <==> event is RequestFailed || event is SendFailed
            || event is BodyRead,
        expects(State::Extracting, event) <==> event is ReplyRejected || event is TimestampFound,
        expects(State::Setting, event) <==> event is ClockSet,
        expects(State::Showing { shown }, event) <==> event is TimeShown && shown < 360000,
        !expects(State::Stopped, event),
{
}

} // verus!
