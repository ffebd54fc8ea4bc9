use sky_clock::clock::{DateTime, DayOfWeek};
use sky_clock::sync;
use sky_clock::wifi::{self, Action, Event, Phase};

#[test]
fn clock_is_set_and_shown() {
    let (state, action) = sync::start();
    assert_eq!(action, sync::Action::Request);
    let body = "{\"datetime\":\"2024-05-17T13:14:15-05:00\"}".as_bytes();
    let (state, action) = sync::step(state, sync::Event::BodyRead(body));
    assert_eq!((state, action), (sync::State::Extracting, sync::Action::Extract));
    let text = "2024-05-17T13:14:15-05:00";
    let (state, action) = sync::step(state, sync::Event::TimestampFound(text));
    assert_eq!(state, sync::State::Setting);
    assert_eq!(
        action,
        sync::Action::SetClock(DateTime {
            year: 2024,
            month: 5,
            day: 17,
            day_of_week: DayOfWeek::Friday,
            hour: 13,
            minute: 14,
            second: 15,
        })
    );
    let (state, action) = sync::step(state, sync::Event::ClockSet);
    assert_eq!(
        (state, action),
        (sync::State::Showing { shown: 0 }, sync::Action::Show)
    );
}

#[test]
fn clock_is_set_again_after_an_hour() {
    let (mut state, mut action) = sync::step(sync::State::Setting, sync::Event::ClockSet);
    let mut shows = 0u32;
    while action == sync::Action::Show {
        shows += 1;
        (state, action) = sync::step(state, sync::Event::TimeShown);
    }
    assert_eq!(shows, 360000);
    assert_eq!((state, action), (sync::State::Requesting, sync::Action::Request));
    assert_eq!(shows as u64 * sync::SHOW_INTERVAL_MS, 3_600_000);
}

#[test]
fn failures_stop_the_task() {
    let requesting = sync::State::Requesting;
    let extracting = sync::State::Extracting;
    let broken: &[u8] = &[0x7b, 0xff, 0x7d];
    let cases = [
        (requesting, sync::Event::RequestFailed, sync::Failure::RequestFailed),
        (requesting, sync::Event::SendFailed, sync::Failure::SendFailed),
        (requesting, sync::Event::BodyRead(broken), sync::Failure::BodyNotText),
        (extracting, sync::Event::ReplyRejected, sync::Failure::ReplyRejected),
        (
            extracting,
            sync::Event::TimestampFound("noon"),
            sync::Failure::TimestampMalformed,
        ),
    ];
    for (state, event, failure) in cases {
        assert_eq!(
            sync::step(state, event),
            (sync::State::Stopped, sync::Action::Stop(failure))
        );
    }
}

#[test]
fn empty_body_is_text() {
    let (_, action) = sync::step(sync::State::Requesting, sync::Event::BodyRead(&[]));
    assert_eq!(action, sync::Action::Extract);
}

#[test]
fn wifi_set_up() {
    let (phase, action) = wifi::start();
    assert_eq!((phase, action), (Phase::Joining, Action::Join));
    let history = [
        (Event::JoinFailed, Phase::Joining, Action::Join),
        (
            Event::Joined,
            Phase::WaitingForConfig,
            Action::CheckConfig { after_ms: 0 },
        ),
        (
            Event::Config { up: false },
            Phase::WaitingForConfig,
            Action::CheckConfig { after_ms: 100 },
        ),
        (
            Event::Config { up: true },
            Phase::WaitingForLink,
            Action::CheckLink { after_ms: 0 },
        ),
        (
            Event::Link { up: false },
            Phase::WaitingForLink,
            Action::CheckLink { after_ms: 500 },
        ),
        (
            Event::Link { up: true },
            Phase::WaitingForStack,
            Action::WaitForStack,
        ),
        (Event::StackUp, Phase::Ready, Action::Done),
    ];
    let mut now = phase;
    for (event, phase, action) in history {
        let (next, todo) = wifi::step(now, event);
        assert_eq!((next, todo), (phase, action));
        now = next;
    }
}
