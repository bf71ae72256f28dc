//! The debounce state machine on concrete input.

use ripples::debounce::{Debouncer, KeyCode, KeyEvent, Mode, Nanos};
use ripples::sim::{ms, run, Sim};
use std::time::Duration;

fn trace(events: &[KeyEvent]) -> Vec<(u64, KeyCode, bool)> {
    events
        .iter()
        .map(|e| {
            assert_eq!(e.time % ms(1), 0, "test times are all whole milliseconds");
            (e.time / ms(1), e.key, e.down)
        })
        .collect()
}

fn input(spec: &[(u64, KeyCode, bool)]) -> Vec<(Nanos, KeyCode, bool)> {
    spec.iter().map(|&(t, k, d)| (ms(t), k, d)).collect()
}

const A: KeyCode = 30; // KEY_A
const B: KeyCode = 48; // KEY_B
const W: Nanos = 20_000_000; // 20ms
const MODES: [Mode; 3] = [Mode::Eager, Mode::Defer, Mode::Mixed];

#[test]
fn eager_passes_clean_input_through() {
    let src = input(&[
        (0, A, true),
        (100, A, false),
        (200, A, true),
        (300, A, false),
    ]);
    let out = run(Mode::Eager, W, &src);
    assert_eq!(
        trace(&out),
        [
            (0, A, true),
            (100, A, false),
            (200, A, true),
            (300, A, false)
        ]
    );
}

#[test]
fn eager_reports_the_press_once_and_swallows_tail_chatter() {
    let src = input(&[
        (0, A, true),
        (2, A, false),
        (4, A, true),
        (6, A, false),
        (8, A, true),
    ]);
    let out = run(Mode::Eager, W, &src);
    assert_eq!(trace(&out), [(0, A, true)]);
}

#[test]
fn eager_resamples_when_lockout_expires() {
    let src = input(&[(0, A, true), (2, A, false)]);
    let out = run(Mode::Eager, W, &src);
    assert_eq!(trace(&out), [(0, A, true), (20, A, false)]);
}

#[test]
fn eager_rearms_the_lockout_after_a_resampled_edge() {
    let src = input(&[(0, A, true), (10, A, false), (25, A, true)]);
    let out = run(Mode::Eager, W, &src);
    assert_eq!(trace(&out), [(0, A, true), (20, A, false), (40, A, true)]);
}

#[test]
fn defer_delays_every_edge_by_one_window() {
    let src = input(&[(0, A, true), (50, A, false)]);
    let out = run(Mode::Defer, W, &src);
    assert_eq!(trace(&out), [(20, A, true), (70, A, false)]);
}

#[test]
fn defer_swallows_a_press_shorter_than_the_window() {
    let src = input(&[(0, A, true), (5, A, false)]);
    let out = run(Mode::Defer, W, &src);
    assert_eq!(trace(&out), []);
}

#[test]
fn defer_withdraws_a_pending_edge_on_a_bounce() {
    let src = input(&[(0, A, true), (5, A, false), (10, A, true), (60, A, false)]);
    let out = run(Mode::Defer, W, &src);
    assert_eq!(trace(&out), [(30, A, true), (80, A, false)]);
}

#[test]
fn mixed_reports_the_press_and_defers_the_release() {
    let src = input(&[(0, A, true), (50, A, false)]);
    let out = run(Mode::Mixed, W, &src);
    assert_eq!(trace(&out), [(0, A, true), (70, A, false)]);
}

#[test]
fn mixed_swallows_release_chatter_into_the_pending_release() {
    let src = input(&[(0, A, true), (50, A, false), (53, A, true), (56, A, false)]);
    let out = run(Mode::Mixed, W, &src);
    assert_eq!(trace(&out), [(0, A, true), (76, A, false)]);
}

#[test]
fn mixed_swallows_press_chatter_without_a_lockout() {
    let src = input(&[(0, A, true), (2, A, false), (4, A, true), (6, A, false)]);
    let out = run(Mode::Mixed, W, &src);
    assert_eq!(trace(&out), [(0, A, true), (26, A, false)]);
}

#[test]
fn a_deferred_release_can_be_emitted_same_instant_as_the_next_press_under_mixed() {
    let src = input(&[(0, A, true), (0, A, false), (20, A, true)]);
    let out = run(Mode::Mixed, W, &src);
    assert_eq!(trace(&out), [(0, A, true), (20, A, false), (20, A, true)]);
}

#[test]
fn keys_are_independent() {
    let src = input(&[
        (0, A, true),
        (1, B, true),
        (2, A, false),
        (3, A, true),
        (60, B, false),
        (61, A, false),
    ]);
    for mode in MODES {
        let out = run(mode, W, &src);
        for key in [A, B] {
            let only: Vec<&KeyEvent> = out.iter().filter(|e| e.key == key).collect();
            assert!(
                only.windows(2).all(|w| w[0].down != w[1].down),
                "{mode:?} key {key}: levels must alternate, got {only:?}"
            );
            assert_eq!(
                only.last().map(|e| e.down),
                Some(false),
                "{mode:?} key {key}"
            );
        }
    }
}

#[test]
fn a_zero_window_is_a_passthrough() {
    let src = input(&[(0, A, true), (0, B, true), (1, A, false), (100, B, false)]);
    for mode in MODES {
        let out = run(mode, 0, &src);
        assert_eq!(
            trace(&out),
            [(0, A, true), (0, B, true), (1, A, false), (100, B, false)],
            "{mode:?}"
        );
    }
}

#[test]
fn release_all_releases_only_what_downstream_is_holding() {
    for mode in MODES {
        let mut sim = Sim::new(mode, W);
        // B goes up and its release is fully flushed; A is still held on device disconnect
        sim.feed(ms(0), A, true)
            .feed(ms(1), B, true)
            .idle_until(ms(50))
            .feed(ms(51), B, false)
            .idle_until(ms(89))
            .release_all(ms(90));

        let held_at_disconnect: Vec<(u16, bool)> = sim
            .events()
            .iter()
            .filter(|e| e.time == ms(90))
            .map(|e| (e.key, e.down))
            .collect();
        assert_eq!(held_at_disconnect, [(A, false)], "{mode:?}");
        assert!(sim.debouncer().next_deadline().is_none(), "{mode:?}");
        assert!(!sim.debouncer().is_down(A), "{mode:?}");
    }
}

#[test]
fn is_down_tracks_downstream() {
    let mut sim = Sim::new(Mode::Defer, W);
    sim.feed(ms(0), A, true);
    assert!(!sim.debouncer().is_down(A));
    sim.idle_until(ms(20));
    assert!(sim.debouncer().is_down(A));
}

#[test]
fn a_late_caller_still_converges_in_one_call() {
    let mut deb = Debouncer::new(Mode::Eager, Duration::from_nanos(W));
    let mut out = Vec::new();
    deb.on_key(ms(0), A, true, &mut out);
    deb.on_key(ms(10), A, false, &mut out);
    deb.on_timeout(ms(1000), &mut out);
    assert_eq!(trace(&out), [(0, A, true), (20, A, false)]);
    assert!(deb.next_deadline().is_none());
}

#[test]
fn output_timestamps_are_monotonic() {
    // out of order input isn't supposed to ever even happen, but a timer wakeup that wins
    // against a wakeup for an older input would produce it, and it must not leak into the
    // output
    let mut deb = Debouncer::new(Mode::Eager, Duration::from_nanos(W));
    let mut out = Vec::new();
    deb.on_key(ms(100), A, true, &mut out);
    deb.on_key(ms(50), B, true, &mut out);
    assert_eq!(trace(&out), [(100, A, true), (100, B, true)]);
}

#[test]
fn simultaneous_deadlines_come_out_in_key_order() {
    let src = input(&[(0, B, true), (0, A, true), (5, B, false), (5, A, false)]);
    let out = run(Mode::Defer, W, &src);
    assert_eq!(trace(&out), []);

    let src = input(&[(0, B, true), (0, A, true)]);
    let out = run(Mode::Defer, W, &src);
    assert_eq!(trace(&out), [(20, A, true), (20, B, true)]);
}

#[test]
fn a_copy_goes_on_from_where_it_was_made() {
    for mode in MODES {
        let mut deb = Debouncer::new(mode, Duration::from_nanos(W));
        let mut out = Vec::new();
        deb.on_key(ms(0), A, true, &mut out);
        deb.on_key(ms(1), B, true, &mut out);
        deb.on_key(ms(2), A, false, &mut out);
        let mut copy = deb.clone();
        assert_eq!(copy.next_deadline(), deb.next_deadline());
        let (mut of_copy, mut of_deb) = (Vec::new(), Vec::new());
        copy.on_timeout(ms(50), &mut of_copy);
        deb.on_timeout(ms(50), &mut of_deb);
        assert_eq!(of_copy, of_deb);
        assert_eq!((copy.is_down(A), copy.is_down(B)), (false, true));
    }
}

#[test]
fn reports_alternate_and_stay_in_time_across_a_lost_keyboard() {
    let mut deb = Debouncer::new(Mode::Mixed, Duration::from_nanos(W));
    let mut out = Vec::new();
    deb.on_key(ms(0), A, true, &mut out);
    deb.on_key(ms(10), A, false, &mut out);
    deb.release_all(ms(90), &mut out);
    // stamped before the keyboard was given up
    deb.on_timeout(ms(80), &mut out);
    deb.on_key(ms(80), A, true, &mut out);
    deb.on_timeout(ms(100), &mut out);
    deb.on_key(ms(100), A, false, &mut out);
    deb.on_timeout(ms(120), &mut out);
    deb.release_all(ms(130), &mut out);
    assert_eq!(
        trace(&out),
        [
            (0, A, true),
            (90, A, false),
            (90, A, true),
            (120, A, false)
        ]
    );
}

#[test]
fn a_released_debouncer_is_as_good_as_new() {
    let src = input(&[
        (100, A, true),
        (103, A, false),
        (105, A, true),
        (150, B, true),
        (180, A, false),
    ]);
    for mode in MODES {
        let mut used = Debouncer::new(mode, Duration::from_nanos(W));
        used.on_key(ms(0), A, true, &mut Vec::new());
        used.on_key(ms(1), B, true, &mut Vec::new());
        used.release_all(ms(90), &mut Vec::new());
        let mut new = Debouncer::new(mode, Duration::from_nanos(W));
        let (mut of_used, mut of_new) = (Vec::new(), Vec::new());
        for &(time, key, down) in &src {
            used.on_timeout(time, &mut of_used);
            used.on_key(time, key, down, &mut of_used);
            new.on_timeout(time, &mut of_new);
            new.on_key(time, key, down, &mut of_new);
        }
        used.on_timeout(ms(300), &mut of_used);
        new.on_timeout(ms(300), &mut of_new);
        assert_eq!(of_used, of_new);
        assert!(!of_used.is_empty());
    }
}
