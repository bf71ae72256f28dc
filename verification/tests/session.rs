//! The daemon between events, and before the first.

use evdev::{EventType, LedCode, RepeatCode, SynchronizationCode};
use ripples::cli::{CliResult, KeyFilter};
use ripples::debounce::{Mode, Nanos};
use ripples::device::{DeviceInfo, Fingerprint, Timespec};
use ripples::event::InputEvent;
use ripples::pipeline::{Fed, Pipeline, Stats};
use ripples::session::{summary, timeout, wait, Action, Reconnect, Ready, Session};
use ripples::sim::ms;
use ripples::startup::{
    greeting, missing, open_initial, refuse_keyless, run, virtual_name, wait_until_idle,
    warn_of_dropped_events, IdleStep, OpenStep, Start,
};
use std::time::Duration;

const RESCAN: Nanos = 100_000_000;

fn session(mode: Mode) -> Session {
    Session::new(
        Pipeline::new(mode, Duration::from_millis(20), KeyFilter::All),
        RESCAN,
    )
}

fn key(code: u16, value: i32) -> InputEvent {
    InputEvent::new(EventType::KEY.0, code, value)
}

/// The event, with its timestamp.
fn at(event: InputEvent, time: Nanos) -> InputEvent {
    InputEvent {
        secs: (time / 1_000_000_000) as i64,
        micros: (time % 1_000_000_000 / 1_000) as i64,
        ..event
    }
}

fn led(led: LedCode, value: i32) -> InputEvent {
    InputEvent::new(EventType::LED.0, led.0, value)
}

fn report() -> InputEvent {
    InputEvent::new(
        EventType::SYNCHRONIZATION.0,
        SynchronizationCode::SYN_REPORT.0,
        0,
    )
}

fn info(name: Option<&str>) -> DeviceInfo {
    DeviceInfo {
        name: name.map(str::to_owned),
        uniq: None,
        vendor: 0x0627,
        product: 1,
        version: 1,
        bus: 3,
        events: vec![EventType::KEY.0],
        keys: Some(vec![30]),
        leds: None,
        misc: None,
        repeat: None,
    }
}

#[test]
fn what_comes_in_is_flushed_as_a_packet() {
    let mut session = session(Mode::Mixed);
    assert_eq!(session.flush(), None);
    assert_eq!(session.pump(at(key(30, 1), ms(5))), Fed::Nothing);
    assert_eq!(session.last_stamp(), ms(5));
    assert_eq!(session.flush(), Some(vec![key(30, 1), report()]));
    assert_eq!(session.flush(), None);
}

#[test]
fn events_are_taken_at_their_own_time() {
    let mut session = session(Mode::Defer);
    let press = at(key(30, 1), ms(61_005));
    assert_eq!((press.secs, press.micros), (61, 5_000));
    assert!(session.pump_room(press));
    session.pump(press);
    assert_eq!(session.last_stamp(), ms(61_005));
    assert_eq!(session.next_deadline(), Some(ms(61_025)));
    // before the epoch, or too late for the timer that starts
    assert!(!session.pump_room(InputEvent { secs: -1, ..press }));
    let late = InputEvent {
        code: 48,
        secs: i64::MAX,
        ..press
    };
    assert!(!session.pump_room(late));
}

#[test]
fn losing_the_keyboard_releases_keys_and_starts_the_search() {
    let mut session = session(Mode::Mixed);
    session.pump(at(key(30, 1), ms(5)));
    session.flush();
    assert!(session.is_attached());
    assert_eq!(session.next_deadline(), None);

    assert!(session.on_disconnect(ms(10)));
    assert!(!session.is_attached());
    assert_eq!(session.flush(), Some(vec![key(30, 0), report()]));
    assert_eq!(session.next_deadline(), Some(ms(110)));
    assert!(!session.on_disconnect(ms(20)));
    assert_eq!(session.next_deadline(), Some(ms(120)));
}

#[test]
fn the_search_for_a_lost_keyboard_goes_on_until_it_is_back() {
    let mut session = session(Mode::Mixed);
    assert_eq!(
        session.try_reconnect(Reconnect::Wake(ms(50))),
        Action::Rest
    );
    session.on_disconnect(ms(0));
    assert_eq!(
        session.try_reconnect(Reconnect::Wake(ms(99))),
        Action::Rest
    );
    assert_eq!(
        session.try_reconnect(Reconnect::Wake(ms(100))),
        Action::Search
    );
    assert_eq!(session.next_deadline(), Some(ms(200)));
    assert_eq!(
        session.try_reconnect(Reconnect::Searched(false)),
        Action::Rest
    );
    assert_eq!(
        session.try_reconnect(Reconnect::Wake(ms(250))),
        Action::Search
    );
    assert_eq!(
        session.try_reconnect(Reconnect::Searched(true)),
        Action::Check
    );
    assert_eq!(
        session.try_reconnect(Reconnect::Checked(Some(false))),
        Action::Attach
    );
    assert_eq!(
        session.try_reconnect(Reconnect::Attached(Some(true))),
        Action::Resume
    );
    assert!(session.is_attached());
    assert_eq!(session.next_deadline(), None);
}

#[test]
fn a_keyboard_with_keys_known_to_be_held_is_left_alone() {
    let mut session = session(Mode::Mixed);
    session.on_disconnect(ms(0));
    assert_eq!(
        session.try_reconnect(Reconnect::Checked(Some(true))),
        Action::TellHeld
    );
    assert_eq!(
        session.try_reconnect(Reconnect::Checked(None)),
        Action::TellAndAttach
    );
    assert_eq!(
        session.try_reconnect(Reconnect::Attached(None)),
        Action::TellUnusable
    );
    assert!(!session.is_attached());
    assert_eq!(
        session.try_reconnect(Reconnect::Attached(Some(false))),
        Action::Rebuild
    );
    assert!(!session.is_attached());
    assert_eq!(session.try_reconnect(Reconnect::Rebuilt), Action::Resume);
    assert!(session.is_attached());
}

#[test]
fn the_search_never_ends_even_at_the_end_of_time() {
    let mut session = session(Mode::Mixed);
    session.on_disconnect(Nanos::MAX - 1);
    assert_eq!(session.next_deadline(), Some(Nanos::MAX));
}

#[test]
fn leds_are_passed_on_in_order_and_kept() {
    let mut session = session(Mode::Mixed);
    assert_eq!(session.sync_leds(), None);
    assert_eq!(
        session.on_sink_feedback(&[led(LedCode::LED_CAPSL, 1), report()]),
        Some(vec![led(LedCode::LED_CAPSL, 1), report()])
    );
    // all of them are sent again
    assert_eq!(
        session.on_sink_feedback(&[led(LedCode::LED_NUML, 1)]),
        Some(vec![
            led(LedCode::LED_NUML, 1),
            led(LedCode::LED_CAPSL, 1),
            report()
        ])
    );
    assert_eq!(session.on_sink_feedback(&[report()]), None);

    session.on_disconnect(ms(0));
    assert_eq!(
        session.on_sink_feedback(&[led(LedCode::LED_CAPSL, 0)]),
        None
    );
    assert_eq!(session.sync_leds(), None);
    session.try_reconnect(Reconnect::Attached(Some(true)));
    assert_eq!(
        session.sync_leds(),
        Some(vec![
            led(LedCode::LED_NUML, 1),
            led(LedCode::LED_CAPSL, 0),
            report()
        ])
    );
}

#[test]
fn repeat_settings_are_passed_on() {
    let mut session = session(Mode::Mixed);
    let delay = InputEvent::new(EventType::REPEAT.0, RepeatCode::REP_DELAY.0, 300);
    let period = InputEvent::new(EventType::REPEAT.0, RepeatCode::REP_PERIOD.0, 25);
    assert_eq!(
        session.on_sink_feedback(&[delay, report(), period]),
        Some(vec![delay, period, report()])
    );
    assert_eq!(
        session.on_sink_feedback(&[period, led(LedCode::LED_MUTE, 1)]),
        Some(vec![led(LedCode::LED_MUTE, 1), period, report()])
    );
    // beeps are not
    assert_eq!(
        session.on_sink_feedback(&[InputEvent::new(EventType::SOUND.0, 1, 1)]),
        None
    );
}

#[test]
fn dropped_events_are_made_up_as_of_the_last_one() {
    let mut session = session(Mode::Eager);
    session.pump(at(key(30, 1), ms(0)));
    session.flush();
    let dropped = InputEvent::new(
        EventType::SYNCHRONIZATION.0,
        SynchronizationCode::SYN_DROPPED.0,
        0,
    );
    assert_eq!(session.pump(at(dropped, ms(100))), Fed::Dropped);
    session.resync(&[48]);
    assert_eq!(
        session.flush(),
        Some(vec![key(30, 0), key(48, 1), report()])
    );
}

#[test]
fn timers_and_rescans_share_a_deadline() {
    let mut session = session(Mode::Defer);
    session.pump(at(key(30, 1), ms(0)));
    assert_eq!(session.next_deadline(), Some(ms(20)));
    session.tick(ms(20));
    assert_eq!(session.flush(), Some(vec![key(30, 1), report()]));
    session.on_disconnect(ms(30));
    assert_eq!(session.next_deadline(), Some(ms(130)));
    session.pump(at(key(30, 1), ms(105)));
    assert_eq!(session.next_deadline(), Some(ms(125)));
    session.pump(at(key(30, 0), ms(106)));
    assert_eq!(session.next_deadline(), Some(ms(130)));
}

#[test]
fn shutting_down_lets_go_of_everything() {
    let mut session = session(Mode::Mixed);
    session.pump(at(key(30, 1), ms(0)));
    session.flush();
    session.shutdown(ms(3));
    assert_eq!(session.flush(), Some(vec![key(30, 0), report()]));
    assert_eq!(session.stats().edges_out, 2);
    assert!(session.release_room() && session.tick_room(ms(1_000)));
    assert!(session.pump_room(at(key(30, 1), ms(1_000))) && session.resync_room(&[30]));
}

#[test]
fn a_wait_lasts_until_the_deadline() {
    assert_eq!(timeout(None, 5), None);
    assert_eq!(
        timeout(Some(2_500_000_000), 1_000_000_000),
        Some(Timespec {
            secs: 1,
            nanos: 500_000_000
        })
    );
    assert_eq!(timeout(Some(1), 2), Some(Timespec { secs: 0, nanos: 0 }));
}

#[test]
fn what_ends_a_wait_is_told_apart() {
    assert_eq!(
        wait(None),
        Ready {
            signaled: false,
            feedback: false,
            gone: false
        }
    );
    assert_eq!(
        wait(Some((1, 0, None))),
        Ready {
            signaled: true,
            feedback: false,
            gone: false
        }
    );
    assert_eq!(
        wait(Some((0, 1, Some(0x10)))),
        Ready {
            signaled: false,
            feedback: true,
            gone: true
        }
    );
    assert_eq!(
        wait(Some((0, 0x08, Some(1)))),
        Ready {
            signaled: false,
            feedback: false,
            gone: false
        }
    );
}

#[test]
fn the_summary_is_only_given_if_anything_was_suppressed() {
    let stats = Stats {
        edges_in: 120,
        edges_out: 100,
        repeats_dropped: 3,
    };
    assert_eq!(
        summary(stats).as_deref(),
        Some("shutdown: 20 of 120 edges suppressed, 3 autorepeats from the source device dropped")
    );
    let even = Stats {
        edges_in: 100,
        edges_out: 100,
        repeats_dropped: 3,
    };
    assert_eq!(summary(even), None);
}

#[test]
fn usage_help_and_version_are_said_and_that_is_all() {
    match run(&CliResult::Usage, "cmd") {
        Start::Exit(text, status) => {
            assert_eq!(
                text,
                "usage: cmd [options] device\ntry '--help' for more info\n"
            );
            assert_eq!(status, 2);
        }
        other => panic!("got {other:?}"),
    }
    match run(&CliResult::Version, "cmd") {
        Start::Exit(text, status) => {
            assert_eq!(text, "ripples v0.1.0\n");
            assert_eq!(status, 0);
        }
        other => panic!("got {other:?}"),
    }
    match run(&CliResult::Help, "cmd") {
        Start::Exit(text, status) => {
            assert!(text.starts_with("usage: cmd [options] device\ndebounce a /dev/input"));
            assert!(text.contains("only these keys (format: KEY_A or A or 0x1e or30, case"));
            assert!(text.contains("except these (format: KEY_A or A or 0x1e or 30, case"));
            for option in ["-m,", "-w,", "--keys", "--exclude-keys", "-l,", "-p,", "-h,", "-V,"] {
                assert!(text.contains(&format!("\n  {option}")), "{option}");
            }
            assert_eq!(status, 0);
        }
        other => panic!("got {other:?}"),
    }
    assert!(matches!(run(&CliResult::List, "cmd"), Start::List));
    assert!(matches!(
        run(&CliResult::StablePath(Vec::new()), "cmd"),
        Start::StablePath
    ));
}

#[test]
fn a_missing_device_is_waited_for_if_asked() {
    assert_eq!(open_initial(true, false), OpenStep::Use);
    assert_eq!(open_initial(true, true), OpenStep::Use);
    assert_eq!(open_initial(false, true), OpenStep::Wait);
    assert_eq!(open_initial(false, false), OpenStep::GiveUp);
    assert_eq!(
        missing("x"),
        "device x is not present; use -l/--list to list available devices, or --wait-for-device to stay idle until it appears"
    );
}

#[test]
fn a_device_without_keys_is_refused() {
    assert_eq!(refuse_keyless(&info(None), "x"), None);
    let keyless = DeviceInfo {
        keys: Some(Vec::new()),
        ..info(None)
    };
    assert_eq!(
        refuse_keyless(&keyless, "x").as_deref(),
        Some("x reports no keys; this device is not a keyboard")
    );
}

#[test]
fn the_virtual_name_differs_from_the_source() {
    let named = Fingerprint::of(&info(Some("kbd")));
    assert_eq!(
        virtual_name(None, &named).as_deref(),
        Some("kbd (debounced)")
    );
    assert_eq!(
        virtual_name(Some("mine".to_owned()), &named).as_deref(),
        Some("mine")
    );
    assert_eq!(virtual_name(Some("kbd".to_owned()), &named), None);
    let unnamed = Fingerprint::of(&info(None));
    assert_eq!(
        virtual_name(None, &unnamed).as_deref(),
        Some("<unnamed device> (debounced)")
    );
}

#[test]
fn the_grab_waits_but_not_forever() {
    assert_eq!(wait_until_idle(false, true, false), IdleStep::Grab);
    assert_eq!(wait_until_idle(true, true, false), IdleStep::GrabAnyway);
    assert_eq!(wait_until_idle(true, false, false), IdleStep::Announce);
    assert_eq!(wait_until_idle(true, false, true), IdleStep::Wait);
}

#[test]
fn only_what_the_keyboard_sends_and_nobody_gets_is_warned_of() {
    let kinds: Vec<u16> = [
        EventType::SYNCHRONIZATION,
        EventType::KEY,
        EventType::RELATIVE,
        EventType::ABSOLUTE,
        EventType::MISC,
        EventType::SWITCH,
        EventType::LED,
        EventType::SOUND,
        EventType::REPEAT,
        EventType::FORCEFEEDBACK,
    ]
    .iter()
    .map(|ty| ty.0)
    .collect();
    assert_eq!(
        warn_of_dropped_events(&kinds),
        [
            EventType::RELATIVE.0,
            EventType::ABSOLUTE.0,
            EventType::SWITCH.0
        ]
    );
}

#[test]
fn the_greeting_tells_what_is_debounced() {
    assert_eq!(
        greeting(
            &Fingerprint::of(&info(Some("kbd"))),
            "/dev/input/event3",
            "kbd \"x\"",
            Mode::Mixed,
            Duration::from_millis(20)
        ),
        "kbd [0627:0001] on event3 -> \"kbd \\\"x\\\"\" (Mixed, 20ms)"
    );
}
