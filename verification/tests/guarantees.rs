//! The guarantees of the debouncer on generated traces.

use ripples::cli::KeyFilter;
use ripples::debounce::{KeyCode, KeyEvent, Mode, Nanos};
use ripples::event::{InputEvent, EV_KEY};
use ripples::pipeline::Pipeline;
use ripples::sim::{ms, run, Sim};
use std::time::Duration;

const KEYS: [KeyCode; 3] = [30, 48, 57]; // KEY_A, KEY_B, KEY_SPACE
const MODES: [Mode; 3] = [Mode::Eager, Mode::Defer, Mode::Mixed];

type Input = Vec<(Nanos, KeyCode, bool)>;

/// A sequence of numbers that looks random.
struct Numbers(u64);

impl Numbers {
    fn below(&mut self, n: u64) -> u64 {
        self.0 = self
            .0
            .wrapping_mul(6_364_136_223_846_793_005)
            .wrapping_add(1_442_695_040_888_963_407);
        (self.0 >> 33) % n
    }
}

/// A window and alternating edges with gaps of `least` to `most` windows, in thirds.
fn traces(least: u64, most: u64) -> Vec<(Nanos, Input)> {
    let mut numbers = Numbers(1);
    (0..60)
        .map(|_| {
            let window = 3 * (1 + numbers.below(12));
            let mut now = 0;
            let mut level = [false; KEYS.len()];
            let mut events = Vec::new();
            for _ in 0..numbers.below(40) {
                now += window * (least + numbers.below(most - least + 1)) / 3;
                let idx = numbers.below(3) as usize;
                level[idx] = !level[idx];
                events.push((ms(now), KEYS[idx], level[idx]));
            }
            (ms(window), events)
        })
        .collect()
}

fn relayed(events: &[KeyEvent]) -> Input {
    events.iter().map(|e| (e.time, e.key, e.down)).collect()
}

#[test]
fn levels_alternate_starting_with_a_press() {
    for (window, events) in traces(0, 9) {
        for mode in MODES {
            let out = run(mode, window, &events);
            for key in KEYS {
                let levels: Vec<bool> = out.iter().filter(|e| e.key == key).map(|e| e.down).collect();
                for (i, down) in levels.iter().enumerate() {
                    assert_eq!(*down, i % 2 == 0);
                }
            }
        }
    }
}

#[test]
fn every_report_is_backed_by_an_input() {
    for (window, events) in traces(0, 9) {
        for mode in MODES {
            let out = run(mode, window, &events);
            assert!(out.len() <= events.len());
            for ev in &out {
                assert!(events.iter().any(|&(t, key, down)| {
                    key == ev.key && down == ev.down && t <= ev.time && ev.time - t <= window
                }));
            }
            assert!(out.windows(2).all(|w| w[0].time <= w[1].time));
        }
    }
}

#[test]
fn downstream_catches_up_once_it_is_quiet() {
    for (window, events) in traces(0, 9) {
        for mode in MODES {
            let out = run(mode, window, &events);
            for key in KEYS {
                let seen = out.iter().rev().find(|e| e.key == key).is_some_and(|e| e.down);
                let real = events.iter().rev().find(|e| e.1 == key).is_some_and(|e| e.2);
                assert_eq!(seen, real);
            }
        }
    }
}

#[test]
fn presses_are_apart_and_so_are_filtered_edges() {
    for (window, events) in traces(0, 9) {
        for mode in MODES {
            let out = run(mode, window, &events);
            for key in KEYS {
                let times: Vec<Nanos> = out
                    .iter()
                    .filter(|e| e.key == key && (e.down || mode != Mode::Mixed))
                    .map(|e| e.time)
                    .collect();
                assert!(times.windows(2).all(|w| w[1] - w[0] >= window));
            }
        }
    }
}

#[test]
fn clean_input_comes_out_as_it_went_in() {
    for (window, events) in traces(3, 9) {
        for mode in MODES {
            let expected: Input = events
                .iter()
                .map(|&(t, key, down)| {
                    let delay = match (mode, down) {
                        (Mode::Eager, _) | (Mode::Mixed, true) => 0,
                        (Mode::Defer, _) | (Mode::Mixed, false) => window,
                    };
                    (t + delay, key, down)
                })
                .collect();
            assert_eq!(relayed(&run(mode, window, &events)), expected);
        }
    }
}

#[test]
fn eager_is_idempotent() {
    for (window, events) in traces(0, 9) {
        let once = run(Mode::Eager, window, &events);
        assert_eq!(run(Mode::Eager, window, &relayed(&once)), once);
    }
}

#[test]
fn without_a_window_nothing_is_filtered() {
    for (_, events) in traces(0, 9) {
        for mode in MODES {
            assert_eq!(relayed(&run(mode, 0, &events)), events);
        }
    }
}

#[test]
fn a_key_is_reported_the_same_whatever_the_others_do() {
    for (window, events) in traces(0, 9) {
        for mode in MODES {
            for key in KEYS {
                let alone: Input = events.iter().copied().filter(|e| e.1 == key).collect();
                let among: Input = relayed(&run(mode, window, &events))
                    .into_iter()
                    .filter(|e| e.1 == key)
                    .collect();
                assert_eq!(relayed(&run(mode, window, &alone)), among);
            }
        }
    }
}

#[test]
fn waiting_in_steps_reports_the_same_as_waiting_at_once() {
    for (window, events) in traces(0, 9) {
        for mode in MODES {
            let mut steps = Sim::new(mode, window);
            let mut once = Sim::new(mode, window);
            for &(t, key, down) in &events {
                steps.feed(t, key, down);
                once.feed(t, key, down);
            }
            let end = events.last().map_or(0, |e| e.0);
            steps
                .idle_until(end + window / 2)
                .idle_until(end + window)
                .idle_until(end + 3 * window);
            once.idle_until(end + 3 * window);
            assert_eq!(steps.events(), once.events());
        }
    }
}

#[test]
fn releasing_everything_leaves_nothing_down() {
    for (window, events) in traces(0, 9) {
        for mode in MODES {
            let mut sim = Sim::new(mode, window);
            for &(t, key, down) in &events {
                sim.feed(t, key, down);
            }
            let end = events.last().map_or(0, |e| e.0);
            sim.release_all(end);
            for key in KEYS {
                assert!(!sim.debouncer().is_down(key));
            }
            assert_eq!(sim.debouncer().next_deadline(), None);
        }
    }
}

#[test]
fn input_two_windows_from_the_end_of_time_fits() {
    let window = ms(20);
    let last = Nanos::MAX - 2 * window;
    for mode in MODES {
        let out = run(mode, window, &[(last - 1, 30, true), (last, 30, false)]);
        assert!(out.iter().all(|e| e.time >= last - 1));
    }
}

#[test]
fn every_report_comes_when_its_mode_says() {
    for (window, events) in traces(0, 9) {
        for mode in MODES {
            let out = run(mode, window, &events);
            for (i, ev) in out.iter().enumerate() {
                let same: Vec<&(Nanos, KeyCode, bool)> =
                    events.iter().filter(|e| e.1 == ev.key).collect();
                let deferred = mode == Mode::Defer || (mode == Mode::Mixed && !ev.down);
                let previous = out[..i].iter().rev().find(|e| e.key == ev.key);
                assert!((0..same.len()).any(|j| {
                    let &(time, _, down) = same[j];
                    let lasts = down == ev.down
                        && time <= ev.time
                        && same[j + 1..].iter().all(|e| e.0 >= ev.time || e.2 == ev.down);
                    let on_time = if deferred {
                        time + window == ev.time
                    } else {
                        time == ev.time
                            || (mode == Mode::Eager
                                && previous.is_some_and(|p| p.time + window == ev.time))
                    };
                    lasts && on_time
                }));
            }
        }
    }
}

#[test]
fn the_pipeline_sends_what_the_debouncer_reports() {
    for (window, events) in traces(0, 9) {
        for mode in MODES {
            let mut pipe = Pipeline::new(mode, Duration::from_nanos(window), KeyFilter::All);
            for &(t, key, down) in &events {
                pipe.feed(InputEvent::new(EV_KEY, key, i32::from(down)), t);
            }
            while let Some(deadline) = pipe.next_deadline() {
                pipe.tick(deadline);
            }
            let sent: Vec<(KeyCode, bool)> = pipe
                .output()
                .iter()
                .map(|e| (e.code, e.value != 0))
                .collect();
            let reported: Vec<(KeyCode, bool)> = run(mode, window, &events)
                .iter()
                .map(|e| (e.key, e.down))
                .collect();
            assert_eq!(sent, reported);
        }
    }
}
