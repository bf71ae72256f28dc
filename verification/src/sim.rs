//! Drives a [`Debouncer`] like a real event loop. Purely for tests.

use crate::debounce::{Debouncer, DebouncerView, KeyCode, KeyEvent, Mode, Nanos};
use crate::timing;
use crate::trace;
use crate::trace::Step;
use std::time::Duration;
use vstd::prelude::*;

verus! {

/// `v` milliseconds.
pub fn ms(v: u64) -> (nanos: Nanos)
    requires
        v * 1_000_000 <= Nanos::MAX,
    ensures
        nanos == v * 1_000_000,
{
    v * 1_000_000
}

pub struct Sim {
    deb: Debouncer,
    out: Vec<KeyEvent>,
}

impl Sim {
    /// The debouncer that is driven.
    pub closed spec fn state(&self) -> DebouncerView {
        self.deb@
    }

    /// What it has reported so far.
    pub closed spec fn reported(&self) -> Seq<KeyEvent> {
        self.out@
    }

    pub open spec fn wf(&self) -> bool {
        self.state().valid()
    }

    pub fn new(mode: Mode, window: Nanos) -> (sim: Sim)
        ensures
            sim.wf(),
            sim.state() == DebouncerView::fresh(mode, window),
            sim.reported() == Seq::<KeyEvent>::empty(),
    {
        Sim { deb: Debouncer::new(mode, Duration::from_nanos(window)), out: Vec::new() }
    }

    pub fn feed(&mut self, time: Nanos, key: KeyCode, down: bool) -> (this: &mut Self)
        requires
            old(self).wf(),
            trace::step_fits(old(self).state(), Step::Input(KeyEvent { time, key, down })),
        ensures
            this.wf(),
            this.state() == trace::stepped(
                old(self).state(),
                Step::Input(KeyEvent { time, key, down }),
            ),
            this.reported() == old(self).reported() + trace::step_edges(
                old(self).state(),
                Step::Input(KeyEvent { time, key, down }),
            ),
            *final(self) == *final(this),
    {
        self.deb.on_timeout(time, &mut self.out);
        self.deb.on_key(time, key, down, &mut self.out);
        assert(self.out@ =~= old(self).out@ + trace::step_edges(
            old(self).state(),
            Step::Input(KeyEvent { time, key, down }),
        ));
        self
    }

    pub fn idle_until(&mut self, time: Nanos) -> (this: &mut Self)
        requires
            old(self).wf(),
            trace::step_fits(old(self).state(), Step::Tick(time as nat)),
        ensures
            this.wf(),
            this.state() == trace::stepped(old(self).state(), Step::Tick(time as nat)),
            this.reported() == old(self).reported() + trace::step_edges(
                old(self).state(),
                Step::Tick(time as nat),
            ),
            *final(self) == *final(this),
    {
        self.run_out(Some(time));
        self
    }

    pub fn drain(&mut self) -> (this: &mut Self)
        requires
            old(self).wf(),
            trace::step_fits(old(self).state(), Step::Tick(timing::forever())),
        ensures
            this.wf(),
            this.state() == trace::stepped(old(self).state(), Step::Tick(timing::forever())),
            this.state().is_quiet(),
            this.reported() == old(self).reported() + trace::step_edges(
                old(self).state(),
                Step::Tick(timing::forever()),
            ),
            *final(self) == *final(this),
    {
        self.run_out(None);
        self
    }

    /// Runs out the timers one deadline at a time, up to `until` or until none is left.
    fn run_out(&mut self, until: Option<Nanos>)
        requires
            old(self).wf(),
            old(self).state().timeout_fits(end_of(until)),
        ensures
            final(self).wf(),
            final(self).state() == old(self).state().after_timeout(end_of(until)),
            until is None ==> final(self).state().is_quiet(),
            final(self).reported() == old(self).reported() + old(self).state().timeout_edges(
                end_of(until),
            ),
    {
        let ghost start = self.state();
        let ghost end = end_of(until);
        loop
            invariant
                self.wf(),
                end == end_of(until),
                start == old(self).state(),
                self.state().timeout_fits(end),
                self.state().after_timeout(end) == start.after_timeout(end),
                self.out@ + self.state().timeout_edges(end) == old(self).out@
                    + start.timeout_edges(end),
            ensures
                forall|k: KeyCode| !(#[trigger] self.state().key(k)).is_due(end),
                until is None ==> self.state().is_quiet(),
            decreases timing::timers_left(self.state()),
        {
            let deadline = match self.deb.next_deadline() {
                Some(deadline) => deadline,
                None => {
                    break;
                },
            };
            if let Some(time) = until {
                if deadline > time {
                    break;
                }
            }
            proof {
                let s = self.state();
                let k = choose|k: KeyCode|
                    (#[trigger] s.key(k)).timer matches Some(timer) && timer.deadline == deadline;
                timing::timeouts_compose(s, deadline as int, end);
                timing::lemma_timers_left(s, deadline as int, k);
                assert(self.out@ + s.timeout_edges(end) =~= self.out@ + s.timeout_edges(
                    deadline as int,
                ) + s.after_timeout(deadline as int).timeout_edges(end));
            }
            self.deb.on_timeout(deadline, &mut self.out);
        }
        proof {
            timing::lemma_nothing_due(self.state(), end);
            assert(self.out@ + Seq::<KeyEvent>::empty() =~= self.out@);
        }
    }

    /// Releases whatever downstream sees as down.
    pub fn release_all(&mut self, time: Nanos) -> (this: &mut Self)
        requires
            old(self).wf(),
        ensures
            this.wf(),
            this.state() == old(self).state().after_release(time),
            this.reported() == old(self).reported() + old(self).state().release_edges(time),
            *final(self) == *final(this),
    {
        self.deb.release_all(time, &mut self.out);
        self
    }

    pub fn debouncer(&self) -> (deb: &Debouncer)
        ensures
            deb@ == self.state(),
    {
        &self.deb
    }

    pub fn events(&self) -> (events: &[KeyEvent])
        ensures
            events@ == self.reported(),
    {
        self.out.as_slice()
    }
}

/// The time that a wait ends at.
pub open spec fn end_of(until: Option<Nanos>) -> int {
    match until {
        Some(time) => time as int,
        None => timing::forever() as int,
    }
}

/// What a debouncer reports for `input`, once all of its timers have run out.
pub fn run(mode: Mode, window: Nanos, input: &[(Nanos, KeyCode, bool)]) -> (out: Vec<KeyEvent>)
    requires
        trace::play_fits(DebouncerView::fresh(mode, window), trace::fed_and_drained(input@)),
    ensures
        out@ == trace::played_edges(
            DebouncerView::fresh(mode, window),
            trace::fed_and_drained(input@),
        ),
{
    let ghost fresh = DebouncerView::fresh(mode, window);
    let ghost steps = trace::fed_and_drained(input@);
    let mut sim = Sim::new(mode, window);
    for i in 0..input.len()
        invariant
            sim.wf(),
            fresh == DebouncerView::fresh(mode, window),
            steps == trace::fed_and_drained(input@),
            trace::play_fits(fresh, steps),
            sim.state() == trace::played(fresh, steps.take(i as int)),
            sim.reported() == trace::played_edges(fresh, steps.take(i as int)),
    {
        let (time, key, down) = input[i];
        proof {
            trace::lemma_play_fits_prefix(fresh, steps, i as int);
            assert(steps[i as int] == Step::Input(KeyEvent { time, key, down }));
            assert(steps.take(i + 1) =~= steps.take(i as int).push(steps[i as int]));
            trace::lemma_played_push(fresh, steps.take(i as int), steps[i as int]);
        }
        sim.feed(time, key, down);
    }
    proof {
        let n = input@.len() as int;
        trace::lemma_play_fits_prefix(fresh, steps, n);
        assert(steps.take(n) =~= steps.drop_last());
    }
    sim.drain();
    sim.out
}

} // verus!
