//! Feeding evdev events through the pipeline.

use evdev::{EventType, LedCode, MiscCode, RepeatCode, SynchronizationCode};
use ripples::cli::KeyFilter;
use ripples::debounce::{KeyCode, Mode, Nanos};
use ripples::event::InputEvent;
use ripples::pipeline::{Fed, Pipeline, Scancode, Stats, AUTOREPEAT};
use ripples::sim::ms;
use std::collections::HashSet;
use std::time::Duration;

const A: KeyCode = 30; // KEY_A
const B: KeyCode = 48; // KEY_B
const SCAN: Scancode = 0x0007_0004; // HID usage a USB keyboard would report for KEY_A
const WINDOW: Duration = Duration::from_millis(20);

fn key_ev(key: KeyCode, value: i32) -> InputEvent {
    InputEvent::new(EventType::KEY.0, key, value)
}

fn syn_ev() -> InputEvent {
    InputEvent::new(
        EventType::SYNCHRONIZATION.0,
        SynchronizationCode::SYN_REPORT.0,
        0,
    )
}

fn dropped_ev() -> InputEvent {
    InputEvent::new(
        EventType::SYNCHRONIZATION.0,
        SynchronizationCode::SYN_DROPPED.0,
        0,
    )
}

fn press(pipe: &mut Pipeline, key: KeyCode, scan: Scancode, value: i32, time: Nanos) -> Fed {
    pipe.feed(
        InputEvent::new(EventType::MISC.0, MiscCode::MSC_SCAN.0, scan),
        time,
    );
    pipe.feed(key_ev(key, value), time);
    pipe.feed(syn_ev(), time)
}

/// Returns `(event_type, code, value)` triplets of the output.
fn dump(pipe: &Pipeline) -> Vec<(u16, u16, i32)> {
    pipe.output()
        .iter()
        .map(|e| (e.kind, e.code, e.value))
        .collect()
}

#[test]
fn forwarded_key_keeps_its_scancode() {
    let mut pipe = Pipeline::new(Mode::Mixed, WINDOW, KeyFilter::All);
    let boundary = press(&mut pipe, A, SCAN, 1, ms(0));
    assert_eq!(
        boundary,
        Fed::Report,
        "SYN_REPORT must be reported as a packet boundary"
    );
    assert_eq!(
        dump(&pipe),
        [
            (EventType::MISC.0, MiscCode::MSC_SCAN.0, SCAN),
            (EventType::KEY.0, A, 1),
        ]
    );
}

#[test]
fn suppressed_key_includes_the_scancode() {
    let mut pipe = Pipeline::new(Mode::Defer, WINDOW, KeyFilter::All);
    press(&mut pipe, A, SCAN, 1, ms(0));
    assert_eq!(dump(&pipe), [], "the press should still be in settle");

    pipe.tick(ms(20));
    assert_eq!(
        dump(&pipe),
        [
            (EventType::MISC.0, MiscCode::MSC_SCAN.0, SCAN),
            (EventType::KEY.0, A, 1),
        ]
    );
}

#[test]
fn autorepeat_from_the_source_is_dropped() {
    let mut pipe = Pipeline::new(Mode::Mixed, WINDOW, KeyFilter::All);
    press(&mut pipe, A, SCAN, 1, ms(0));
    pipe.clear_output();

    // the virtual device has its own autorepeat so the one from the source must be dropped
    pipe.feed(key_ev(A, AUTOREPEAT), ms(300));
    pipe.feed(key_ev(A, AUTOREPEAT), ms(333));
    assert_eq!(dump(&pipe), []);
    assert_eq!(pipe.stats().repeats_dropped, 2);
}

#[test]
fn a_drop_skips_the_partial_packet_and_resync_makes_up_the_missed_edges() {
    let mut pipe = Pipeline::new(Mode::Eager, WINDOW, KeyFilter::All);
    press(&mut pipe, A, SCAN, 1, ms(0));
    pipe.clear_output();

    assert_eq!(pipe.feed(dropped_ev(), ms(100)), Fed::Dropped);
    pipe.feed(key_ev(B, 1), ms(100));
    assert_eq!(
        pipe.feed(syn_ev(), ms(100)),
        Fed::Nothing,
        "the report that ends the partial packet is not a real one"
    );
    assert_eq!(dump(&pipe), []);

    pipe.resync(&[B], ms(100));
    assert_eq!(
        dump(&pipe),
        [
            (EventType::MISC.0, MiscCode::MSC_SCAN.0, SCAN),
            (EventType::KEY.0, A, 0),
            (EventType::KEY.0, B, 1),
        ]
    );
}

#[test]
fn echoes_of_outgoing_events_are_not_forwarded() {
    let mut pipe = Pipeline::new(Mode::Mixed, WINDOW, KeyFilter::All);
    pipe.feed(
        InputEvent::new(EventType::LED.0, LedCode::LED_CAPSL.0, 1),
        ms(0),
    );
    pipe.feed(
        InputEvent::new(EventType::REPEAT.0, RepeatCode::REP_DELAY.0, 250),
        ms(0),
    );
    pipe.feed(syn_ev(), ms(0));
    assert_eq!(dump(&pipe), []);
}

#[test]
fn keys_not_covered_by_the_filter_are_just_forwarded() {
    let mut pipe = Pipeline::new(Mode::Defer, WINDOW, KeyFilter::Only(HashSet::new()));
    press(&mut pipe, A, SCAN, 1, ms(0));
    pipe.feed(key_ev(A, AUTOREPEAT), ms(300));
    pipe.feed(key_ev(A, 0), ms(1));
    assert_eq!(
        dump(&pipe),
        [
            (EventType::MISC.0, MiscCode::MSC_SCAN.0, SCAN),
            (EventType::KEY.0, A, 1),
            (EventType::KEY.0, A, 0),
        ],
        "an unfiltered key must be plainly forwarded but the autorepeat should still be dropped",
    );
    assert_eq!(pipe.stats().edges_in, 0);
}

#[test]
fn losing_the_device_releases_what_downstream_holds() {
    let mut pipe = Pipeline::new(Mode::Mixed, WINDOW, KeyFilter::All);
    press(&mut pipe, A, SCAN, 1, ms(0));
    pipe.clear_output();
    pipe.release_all(ms(10));
    assert_eq!(
        dump(&pipe),
        [
            (EventType::MISC.0, MiscCode::MSC_SCAN.0, SCAN),
            (EventType::KEY.0, A, 0)
        ]
    );
}

#[test]
fn other_miscellaneous_events_are_carried_through() {
    let mut pipe = Pipeline::new(Mode::Mixed, WINDOW, KeyFilter::All);
    let raw = InputEvent::new(EventType::MISC.0, MiscCode::MSC_RAW.0, 7);
    assert_eq!(pipe.feed(raw, ms(0)), Fed::Nothing);
    assert_eq!(dump(&pipe), [(EventType::MISC.0, MiscCode::MSC_RAW.0, 7)]);
}

#[test]
fn other_sync_codes_and_axes_are_not_carried_through() {
    let mut pipe = Pipeline::new(Mode::Mixed, WINDOW, KeyFilter::All);
    for event in [
        InputEvent::new(
            EventType::SYNCHRONIZATION.0,
            SynchronizationCode::SYN_MT_REPORT.0,
            0,
        ),
        InputEvent::new(EventType::RELATIVE.0, 0, 5),
        InputEvent::new(EventType::ABSOLUTE.0, 0, 5),
        InputEvent::new(0x1e, 0, 5),
    ] {
        assert_eq!(pipe.feed(event, ms(0)), Fed::Nothing);
    }
    assert_eq!(dump(&pipe), []);
}

#[test]
fn a_report_ends_the_claim_of_a_scancode() {
    let mut pipe = Pipeline::new(Mode::Mixed, WINDOW, KeyFilter::All);
    pipe.feed(
        InputEvent::new(EventType::MISC.0, MiscCode::MSC_SCAN.0, SCAN),
        ms(0),
    );
    pipe.feed(syn_ev(), ms(0));
    pipe.feed(key_ev(A, 1), ms(1));
    assert_eq!(dump(&pipe), [(EventType::KEY.0, A, 1)]);
}

#[test]
fn timers_run_out_even_while_a_packet_is_skipped() {
    let mut pipe = Pipeline::new(Mode::Defer, WINDOW, KeyFilter::All);
    pipe.feed(key_ev(A, 1), ms(0));
    assert_eq!(pipe.next_deadline(), Some(ms(20)));
    pipe.feed(dropped_ev(), ms(5));
    pipe.feed(key_ev(B, 1), ms(30));
    assert_eq!(dump(&pipe), [(EventType::KEY.0, A, 1)]);
    assert_eq!(pipe.next_deadline(), None);
}

#[test]
fn a_resync_without_misses_only_runs_out_timers() {
    let mut pipe = Pipeline::new(Mode::Mixed, WINDOW, KeyFilter::All);
    pipe.feed(key_ev(A, 1), ms(0));
    pipe.clear_output();
    pipe.resync(&[A, A], ms(50));
    assert_eq!(dump(&pipe), []);
    assert_eq!(pipe.stats().edges_in, 1);
}

#[test]
fn a_resync_makes_up_edges_in_order_of_key() {
    let mut pipe = Pipeline::new(Mode::Eager, WINDOW, KeyFilter::AllExcept(HashSet::from([50])));
    pipe.feed(key_ev(B, 1), ms(0));
    pipe.clear_output();
    pipe.resync(&[70, 50, A], ms(50));
    assert_eq!(
        dump(&pipe),
        [
            (EventType::KEY.0, A, 1),
            (EventType::KEY.0, B, 0),
            (EventType::KEY.0, 50, 1),
            (EventType::KEY.0, 70, 1),
        ]
    );
    assert_eq!(pipe.stats().edges_in, 4);
    assert_eq!(pipe.stats().edges_out, 4);
}

#[test]
fn suppressed_counts_edges_that_did_not_come_out() {
    let stats = Stats {
        edges_in: 7,
        edges_out: 3,
        repeats_dropped: 9,
    };
    assert_eq!(stats.suppressed(), 4);
    let ahead = Stats {
        edges_in: 3,
        edges_out: 7,
        repeats_dropped: 0,
    };
    assert_eq!(ahead.suppressed(), 0);
    assert_eq!(Stats::default().suppressed(), 0);
}

#[test]
fn chatter_is_counted_as_suppressed() {
    let mut pipe = Pipeline::new(Mode::Mixed, WINDOW, KeyFilter::All);
    for (t, value) in [(0, 1), (2, 0), (4, 1), (6, 0)] {
        pipe.feed(key_ev(A, value), ms(t));
    }
    pipe.tick(ms(100));
    assert_eq!(
        dump(&pipe),
        [(EventType::KEY.0, A, 1), (EventType::KEY.0, A, 0)]
    );
    assert_eq!(pipe.stats().suppressed(), 2);
}

#[test]
fn room_ends_where_a_timer_would() {
    let last = Nanos::MAX - ms(20);
    let pipe = Pipeline::new(Mode::Defer, WINDOW, KeyFilter::All);
    assert!(pipe.counter_room());
    assert!(pipe.tick_room(Nanos::MAX));
    assert!(pipe.feed_room(key_ev(A, 1), last));
    assert!(!pipe.feed_room(key_ev(A, 1), last + 1));
    // what starts no timer can come as late as can be told
    assert!(pipe.feed_room(key_ev(A, 0), Nanos::MAX));
    assert!(pipe.feed_room(key_ev(A, AUTOREPEAT), Nanos::MAX));
    assert!(pipe.feed_room(syn_ev(), Nanos::MAX));
    assert!(pipe.resync_room(&[A], last));
    assert!(!pipe.resync_room(&[A], last + 1));
    assert!(pipe.resync_room(&[], Nanos::MAX));

    let only = Pipeline::new(Mode::Defer, WINDOW, KeyFilter::Only(HashSet::from([B])));
    assert!(only.feed_room(key_ev(A, 1), Nanos::MAX));
    assert!(only.resync_room(&[A], Nanos::MAX));
    assert!(!only.resync_room(&[A, B], Nanos::MAX));
}

#[test]
fn an_endless_window_only_turns_away_what_it_would_end() {
    let mut pipe = Pipeline::new(Mode::Mixed, Duration::MAX, KeyFilter::All);
    assert!(pipe.tick_room(ms(5)));
    assert!(pipe.feed_room(key_ev(A, 1), ms(5)));
    pipe.feed(key_ev(A, 1), ms(5));
    assert_eq!(dump(&pipe), [(EventType::KEY.0, A, 1)]);
    assert!(!pipe.feed_room(key_ev(A, 0), ms(6)));
}

#[test]
fn a_lockout_that_cannot_follow_leaves_no_room() {
    let mut pipe = Pipeline::new(Mode::Eager, WINDOW, KeyFilter::All);
    let start = Nanos::MAX - ms(30);
    pipe.feed(key_ev(A, 1), start);
    pipe.feed(key_ev(A, 0), start + 1);
    assert!(pipe.tick_room(start + ms(20) - 1));
    assert!(!pipe.tick_room(start + ms(20)));
}

#[test]
fn a_miscellaneous_event_keeps_its_timestamp() {
    let mut pipe = Pipeline::new(Mode::Mixed, WINDOW, KeyFilter::All);
    let raw = InputEvent {
        secs: 12,
        micros: 345,
        kind: EventType::MISC.0,
        code: MiscCode::MSC_RAW.0,
        value: 7,
    };
    let press = InputEvent {
        secs: 12,
        micros: 346,
        kind: EventType::KEY.0,
        code: A,
        value: 1,
    };
    pipe.feed(raw, ms(0));
    pipe.feed(press, ms(0));
    // a key is made anew
    assert_eq!(pipe.output(), [raw, key_ev(A, 1)]);
}
