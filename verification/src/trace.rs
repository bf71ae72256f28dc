//! What a debouncer reports over a whole stretch of input and waiting.

use crate::debounce::DebouncerView;
use crate::edges::{KeyEvent, Nanos};
use vstd::prelude::*;

verus! {

/// One thing that happens to a debouncer whose caller keeps to the contract.
pub enum Step {
    /// The keyboard reports an edge, and the timers up to its time run out first.
    Input(KeyEvent),
    /// Time passes and the timers up to that time run out.
    Tick(nat),
}

impl Step {
    pub open spec fn time(self) -> int {
        match self {
            Step::Input(e) => e.time as int,
            Step::Tick(now) => now as int,
        }
    }
}

/// Every timer that `step` starts ends at a time that can be told.
pub open spec fn step_fits(s: DebouncerView, step: Step) -> bool {
    &&& s.timeout_fits(step.time())
    &&& step matches Step::Input(e) ==> s.after_timeout(e.time as int).key_fits(
        e.time,
        e.key,
        e.down,
    )
}

/// The debouncer after `step`.
pub open spec fn stepped(s: DebouncerView, step: Step) -> DebouncerView {
    match step {
        Step::Input(e) => s.after_timeout(e.time as int).after_key(e.time, e.key, e.down),
        Step::Tick(now) => s.after_timeout(now as int),
    }
}

/// What is reported during `step`.
pub open spec fn step_edges(s: DebouncerView, step: Step) -> Seq<KeyEvent> {
    match step {
        Step::Input(e) => s.timeout_edges(e.time as int) + s.after_timeout(
            e.time as int,
        ).key_edges(e.time, e.key, e.down),
        Step::Tick(now) => s.timeout_edges(now as int),
    }
}

/// The debouncer after all of `steps`.
pub open spec fn played(s: DebouncerView, steps: Seq<Step>) -> DebouncerView
    decreases steps.len(),
{
    if steps.len() == 0 {
        s
    } else {
        stepped(played(s, steps.drop_last()), steps.last())
    }
}

/// What is reported during all of `steps`.
pub open spec fn played_edges(s: DebouncerView, steps: Seq<Step>) -> Seq<KeyEvent>
    decreases steps.len(),
{
    if steps.len() == 0 {
        Seq::empty()
    } else {
        played_edges(s, steps.drop_last()) + step_edges(
            played(s, steps.drop_last()),
            steps.last(),
        )
    }
}

/// Every timer that `steps` start ends at a time that can be told.
pub open spec fn play_fits(s: DebouncerView, steps: Seq<Step>) -> bool
    decreases steps.len(),
{
    steps.len() > 0 ==> play_fits(s, steps.drop_last()) && step_fits(
        played(s, steps.drop_last()),
        steps.last(),
    )
}

/// The steps' times are weakly monotonic, as the contract of a debouncer asks.
pub open spec fn is_timely(steps: Seq<Step>) -> bool {
    forall|i: int, j: int|
        0 <= i <= j < steps.len() ==> (#[trigger] steps[i]).time() <= (#[trigger] steps[j]).time()
}

/// Feeding each of `input` in turn.
pub open spec fn fed(input: Seq<(Nanos, u16, bool)>) -> Seq<Step> {
    input.map_values(
        |e: (Nanos, u16, bool)| Step::Input(KeyEvent { time: e.0, key: e.1, down: e.2 }),
    )
}

/// Feeding each of `input` in turn and then waiting until no timer is left.
pub open spec fn fed_and_drained(input: Seq<(Nanos, u16, bool)>) -> Seq<Step> {
    fed(input).push(Step::Tick(crate::timing::forever()))
}

/// A stretch that fits only makes steps that fit.
pub proof fn lemma_play_fits_prefix(s: DebouncerView, steps: Seq<Step>, n: int)
    requires
        play_fits(s, steps),
        0 <= n <= steps.len(),
    ensures
        play_fits(s, steps.take(n)),
        n < steps.len() ==> step_fits(played(s, steps.take(n)), steps[n]),
    decreases steps.len(),
{
    if n == steps.len() {
        assert(steps.take(n) =~= steps);
    } else if n == steps.len() - 1 {
        assert(steps.take(n) =~= steps.drop_last());
    } else {
        lemma_play_fits_prefix(s, steps.drop_last(), n);
        assert(steps.drop_last().take(n) =~= steps.take(n));
    }
}

/// One more step after a stretch.
pub proof fn lemma_played_push(s: DebouncerView, steps: Seq<Step>, step: Step)
    ensures
        played(s, steps.push(step)) == stepped(played(s, steps), step),
        played_edges(s, steps.push(step)) == played_edges(s, steps) + step_edges(
            played(s, steps),
            step,
        ),
        play_fits(s, steps.push(step)) <==> play_fits(s, steps) && step_fits(
            played(s, steps),
            step,
        ),
{
    assert(steps.push(step).drop_last() =~= steps);
}

} // verus!
