//! What a debouncer keeps to when the keyboard is lost and comes back.

use crate::debounce;
use crate::debounce::{DebouncerView, KeyState, Mode};
use crate::edges;
use crate::edges::{KeyCode, KeyEvent, Nanos};
use crate::guarantees;
use crate::timing;
use crate::trace;
use crate::trace::Step;
use vstd::prelude::*;

verus! {

/// The debouncer knows what it reported: the level that downstream has been told of each key, and
/// when the last edge was. The levels of each key alternate, and no edge is before one in front of
/// it.
pub open spec fn has_told(s: DebouncerView, out: Seq<KeyEvent>) -> bool {
    &&& forall|k: KeyCode| (#[trigger] s.key(k)).logical == guarantees::level(out, k)
    &&& s.last_emit == debounce::last_time(out, 0)
    &&& guarantees::alternates(out)
    &&& guarantees::in_time(out)
}

/// Each of `tail` flips another key of `s`, and `t` is as they leave it.
spec fn flips(s: DebouncerView, tail: Seq<KeyEvent>, t: DebouncerView) -> bool {
    &&& forall|i: int, j: int|
        0 <= i < j < tail.len() ==> (#[trigger] tail[i]).key != (#[trigger] tail[j]).key
    &&& forall|i: int|
        0 <= i < tail.len() ==> {
            &&& (#[trigger] tail[i]).down != s.key(tail[i].key).logical
            &&& tail[i].down == t.key(tail[i].key).logical
        }
    &&& forall|k: KeyCode|
        guarantees::lacks(tail, k) ==> (#[trigger] t.key(k)).logical == s.key(k).logical
}

proof fn lemma_flips(s: DebouncerView, out: Seq<KeyEvent>, tail: Seq<KeyEvent>, t: DebouncerView)
    requires
        guarantees::alternates(out),
        forall|k: KeyCode| (#[trigger] s.key(k)).logical == guarantees::level(out, k),
        flips(s, tail, t),
    ensures
        guarantees::alternates(out + tail),
        forall|k: KeyCode| (#[trigger] t.key(k)).logical == guarantees::level(out + tail, k),
{
    let all = out + tail;
    assert forall|k: KeyCode| (#[trigger] t.key(k)).logical == guarantees::level(all, k) by {
        assert(s.key(k).logical == guarantees::level(out, k));
        if guarantees::lacks(tail, k) {
            guarantees::lemma_last_edge_lacks(out, tail, k);
        } else {
            let i = choose|i: int| 0 <= i < tail.len() && (#[trigger] tail[i]).key == k;
            guarantees::lemma_last_edge_once(out, tail, i);
        }
    }
    assert forall|i: int| 0 <= i < all.len() implies (#[trigger] all[i]).down != guarantees::level(
        all.take(i),
        all[i].key,
    ) by {
        if i < out.len() {
            assert(all.take(i) =~= out.take(i));
            assert(all[i] == out[i]);
        } else {
            let m = i - out.len();
            assert(all[i] == tail[m]);
            assert(all.take(i) =~= out + tail.take(m));
            assert(guarantees::lacks(tail.take(m), tail[m].key)) by {
                assert forall|j: int| 0 <= j < tail.take(m).len() implies (
                #[trigger] tail.take(m)[j]).key != tail[m].key by {
                    assert(tail[j].key != tail[m].key);
                }
            }
            guarantees::lemma_last_edge_lacks(out, tail.take(m), tail[m].key);
            assert(s.key(tail[m].key).logical == guarantees::level(out, tail[m].key));
        }
    }
}

/// Edges that are held to the time of the last one go on in time.
proof fn lemma_in_time(out: Seq<KeyEvent>, tail: Seq<KeyEvent>)
    requires
        guarantees::in_time(out),
        guarantees::in_time(tail),
        forall|i: int|
            0 <= i < tail.len() ==> (#[trigger] tail[i]).time >= debounce::last_time(out, 0),
    ensures
        guarantees::in_time(out + tail),
        debounce::last_time(out + tail, 0) == debounce::last_time(
            tail,
            debounce::last_time(out, 0),
        ),
{
    let all = out + tail;
    assert forall|i: int, j: int| 0 <= i <= j < all.len() implies (#[trigger] all[i]).time <= (
    #[trigger] all[j]).time by {
        if j < out.len() {
            assert(out[i].time <= out[j].time);
        } else if i >= out.len() {
            assert(tail[i - out.len()].time <= tail[j - out.len()].time);
        } else {
            assert(out[i].time <= out[out.len() - 1].time);
            assert(tail[j - out.len()].time >= debounce::last_time(out, 0));
        }
    }
    if tail.len() > 0 {
        assert(all.last() == tail.last());
    } else {
        assert(all =~= out);
    }
}

/// What is gathered is reported in time, each edge for the key that it was picked for.
proof fn lemma_reported(pick: spec_fn(KeyCode) -> Option<KeyEvent>, floor: Nanos)
    requires
        edges::picks_own(pick),
    ensures
        ({
            let tail = debounce::not_before(edges::gathered(pick), floor);
            &&& guarantees::in_time(tail)
            &&& forall|i: int|
                0 <= i < tail.len() ==> {
                    &&& (#[trigger] tail[i]).time >= floor
                    &&& pick(tail[i].key) matches Some(e) && e.down == tail[i].down
                }
            &&& forall|i: int, j: int|
                0 <= i < j < tail.len() ==> (#[trigger] tail[i]).key != (#[trigger] tail[j]).key
            &&& forall|k: KeyCode| guarantees::lacks(tail, k) ==> (#[trigger] pick(k)) is None
        }),
{
    let g = edges::gathered(pick);
    let tail = debounce::not_before(g, floor);
    edges::lemma_gathered(pick);
    assert forall|i: int| 0 <= i < tail.len() implies {
        &&& (#[trigger] tail[i]).time >= floor
        &&& pick(tail[i].key) == Some(g[i])
        &&& tail[i].key == g[i].key
        &&& tail[i].down == g[i].down
    } by {
        assert(g.contains(g[i]));
    }
    assert forall|i: int, j: int| 0 <= i < j < tail.len() implies (#[trigger] tail[i]).key != (
    #[trigger] tail[j]).key by {
        assert(edges::earlier(g[i], g[j]));
    }
    assert forall|i: int, j: int| 0 <= i <= j < tail.len() implies (#[trigger] tail[i]).time <= (
    #[trigger] tail[j]).time by {
        if i < j {
            assert(edges::earlier(g[i], g[j]));
        }
    }
    assert forall|k: KeyCode| guarantees::lacks(tail, k) implies (#[trigger] pick(k)) is None by {
        if let Some(e) = pick(k) {
            assert(g.contains(e));
            assert(tail[g.index_of(e)].key == k);
        }
    }
}

proof fn lemma_release_flips(s: DebouncerView, now: Nanos)
    ensures
        flips(s, s.release_edges(now), s.after_release(now)),
{
    let t = s.after_release(now);
    lemma_reported(s.held_edges(now), s.last_emit);
    assert forall|k: KeyCode| #[trigger] t.key(k) == KeyState::idle() by {}
    assert forall|k: KeyCode| guarantees::lacks(s.release_edges(now), k) implies (
    #[trigger] t.key(k)).logical == s.key(k).logical by {
        assert(s.held_edges(now)(k) is None);
    }
}

proof fn lemma_told_release(s: DebouncerView, out: Seq<KeyEvent>, now: Nanos)
    requires
        has_told(s, out),
    ensures
        has_told(s.after_release(now), out + s.release_edges(now)),
{
    lemma_release_flips(s, now);
    lemma_reported(s.held_edges(now), s.last_emit);
    lemma_flips(s, out, s.release_edges(now), s.after_release(now));
    lemma_in_time(out, s.release_edges(now));
}

proof fn lemma_told_timeout(s: DebouncerView, out: Seq<KeyEvent>, now: int)
    requires
        has_told(s, out),
    ensures
        has_told(s.after_timeout(now), out + s.timeout_edges(now)),
{
    let t = s.after_timeout(now);
    let tail = s.timeout_edges(now);
    timing::lemma_due_edges(s, now);
    lemma_reported(s.due_edges(now), s.last_emit);
    assert forall|i: int| 0 <= i < tail.len() implies {
        &&& (#[trigger] tail[i]).down != s.key(tail[i].key).logical
        &&& tail[i].down == t.key(tail[i].key).logical
    } by {
        timing::lemma_timeout_key(s, now, tail[i].key);
        assert(s.due_edges(now)(tail[i].key) is Some);
    }
    assert forall|k: KeyCode| guarantees::lacks(tail, k) implies (#[trigger] t.key(k)).logical
        == s.key(k).logical by {
        timing::lemma_timeout_key(s, now, k);
        assert(s.due_edges(now)(k) is None);
    }
    lemma_flips(s, out, tail, t);
    lemma_in_time(out, tail);
}

proof fn lemma_told_key(s: DebouncerView, out: Seq<KeyEvent>, e: KeyEvent)
    requires
        has_told(s, out),
    ensures
        has_told(
            s.after_key(e.time, e.key, e.down),
            out + s.key_edges(e.time, e.key, e.down),
        ),
{
    let t = s.after_key(e.time, e.key, e.down);
    let tail = s.key_edges(e.time, e.key, e.down);
    assert forall|k: KeyCode| guarantees::lacks(tail, k) implies (#[trigger] t.key(k)).logical
        == s.key(k).logical by {
        if k == e.key && tail.len() > 0 {
            assert(tail[0].key == k);
        }
    }
    lemma_flips(s, out, tail, t);
    lemma_in_time(out, tail);
}

proof fn lemma_told_step(s: DebouncerView, out: Seq<KeyEvent>, step: Step)
    requires
        has_told(s, out),
    ensures
        has_told(trace::stepped(s, step), out + trace::step_edges(s, step)),
{
    let now = step.time();
    lemma_told_timeout(s, out, now);
    if let Step::Input(e) = step {
        let m = s.after_timeout(now);
        let mid = out + s.timeout_edges(now);
        lemma_told_key(m, mid, e);
        assert(out + trace::step_edges(s, step) =~= mid + m.key_edges(e.time, e.key, e.down));
    }
}

proof fn lemma_told_steps(s: DebouncerView, out: Seq<KeyEvent>, steps: Seq<Step>)
    requires
        has_told(s, out),
    ensures
        has_told(trace::played(s, steps), out + trace::played_edges(s, steps)),
    decreases steps.len(),
{
    if steps.len() == 0 {
        assert(out + trace::played_edges(s, steps) =~= out);
    } else {
        let front = steps.drop_last();
        lemma_told_steps(s, out, front);
        let m = trace::played(s, front);
        let mid = out + trace::played_edges(s, front);
        lemma_told_step(m, mid, steps.last());
        assert(out + trace::played_edges(s, steps) =~= mid + trace::step_edges(m, steps.last()));
    }
}

/// A debouncer that obeyed its contract so far knows what it reported.
pub proof fn following_is_telling(
    mode: Mode,
    window: Nanos,
    s: DebouncerView,
    ins: Seq<KeyEvent>,
    out: Seq<KeyEvent>,
    now: int,
)
    requires
        guarantees::follows(mode, window, s, ins, out, now),
    ensures
        has_told(s, out),
{
}

/// Once all keys are released nothing is down or waits for anything, downstream has been told so,
/// and the levels of each key still alternate.
pub proof fn release_lets_go(s: DebouncerView, out: Seq<KeyEvent>, now: Nanos)
    requires
        guarantees::alternates(out),
        forall|k: KeyCode| (#[trigger] s.key(k)).logical == guarantees::level(out, k),
    ensures
        s.after_release(now).valid(),
        s.after_release(now).is_quiet(),
        forall|k: KeyCode| #[trigger] s.after_release(now).key(k) == KeyState::idle(),
        forall|k: KeyCode| !#[trigger] guarantees::level(out + s.release_edges(now), k),
        guarantees::alternates(out + s.release_edges(now)),
{
    let t = s.after_release(now);
    lemma_release_flips(s, now);
    lemma_flips(s, out, s.release_edges(now), t);
    assert forall|k: KeyCode| !#[trigger] guarantees::level(out + s.release_edges(now), k) by {
        assert(t.key(k) == KeyState::idle());
    }
}

/// Parity and monotonicity outlast the loss of the keyboard: where they hold of what was reported
/// before, they hold once all keys are released and through whatever comes after that. What comes
/// after may be timed in any way, even before the release.
pub proof fn parity_and_monotonicity_outlast_a_release(
    s: DebouncerView,
    out: Seq<KeyEvent>,
    now: Nanos,
    steps: Seq<Step>,
)
    requires
        has_told(s, out),
    ensures
        ({
            let released = s.after_release(now);
            let all = out + s.release_edges(now) + trace::played_edges(released, steps);
            &&& guarantees::alternates(all)
            &&& guarantees::in_time(all)
            &&& has_told(trace::played(released, steps), all)
        }),
{
    lemma_told_release(s, out, now);
    lemma_told_steps(s.after_release(now), out + s.release_edges(now), steps);
}

/// One thing that happens to a debouncer whose keyboard may be lost and come back.
pub enum Turn {
    Step(Step),
    /// The keyboard is lost, and all keys are released.
    Release(Nanos),
}

/// The debouncer after all of `turns`.
pub open spec fn lived(s: DebouncerView, turns: Seq<Turn>) -> DebouncerView
    decreases turns.len(),
{
    if turns.len() == 0 {
        s
    } else {
        let before = lived(s, turns.drop_last());
        match turns.last() {
            Turn::Step(step) => trace::stepped(before, step),
            Turn::Release(now) => before.after_release(now),
        }
    }
}

/// What is reported during all of `turns`.
pub open spec fn lived_edges(s: DebouncerView, turns: Seq<Turn>) -> Seq<KeyEvent>
    decreases turns.len(),
{
    if turns.len() == 0 {
        Seq::empty()
    } else {
        let before = lived(s, turns.drop_last());
        lived_edges(s, turns.drop_last()) + match turns.last() {
            Turn::Step(step) => trace::step_edges(before, step),
            Turn::Release(now) => before.release_edges(now),
        }
    }
}

proof fn lemma_told_turns(mode: Mode, window: Nanos, turns: Seq<Turn>)
    ensures
        has_told(
            lived(DebouncerView::fresh(mode, window), turns),
            lived_edges(DebouncerView::fresh(mode, window), turns),
        ),
    decreases turns.len(),
{
    if turns.len() > 0 {
        let fresh = DebouncerView::fresh(mode, window);
        let front = turns.drop_last();
        lemma_told_turns(mode, window, front);
        match turns.last() {
            Turn::Step(step) => {
                lemma_told_step(lived(fresh, front), lived_edges(fresh, front), step);
            },
            Turn::Release(now) => {
                lemma_told_release(lived(fresh, front), lived_edges(fresh, front), now);
            },
        }
    }
}

/// Parity and monotonicity hold for as long as a debouncer lives, however often the keyboard is
/// lost and comes back.
pub proof fn parity_and_monotonicity_for_life(mode: Mode, window: Nanos, turns: Seq<Turn>)
    ensures
        guarantees::alternates(lived_edges(DebouncerView::fresh(mode, window), turns)),
        guarantees::in_time(lived_edges(DebouncerView::fresh(mode, window), turns)),
{
    lemma_told_turns(mode, window, turns);
}

/// A debouncer whose keys were all released is as good as new: from then on it reports the same
/// edges at the same times, and each key is in the same state. All that is promised of a new one
/// thus holds again of what comes after.
pub proof fn released_is_as_good_as_new(s: DebouncerView, now: Nanos, steps: Seq<Step>)
    requires
        trace::is_timely(steps),
        steps.len() > 0 ==> steps[0].time() >= s.after_release(now).last_emit,
        trace::play_fits(DebouncerView::fresh(s.mode, s.window), steps),
    ensures
        ({
            let fresh = DebouncerView::fresh(s.mode, s.window);
            let released = s.after_release(now);
            &&& trace::play_fits(released, steps)
            &&& trace::played_edges(released, steps) == trace::played_edges(fresh, steps)
            &&& forall|k: KeyCode| #[trigger]
                trace::played(released, steps).key(k) == trace::played(fresh, steps).key(k)
        }),
{
    assert forall|k: KeyCode| #[trigger] s.after_release(now).key(k) == KeyState::idle() by {}
    lemma_as_good_as_new(s.after_release(now), steps);
}

proof fn lemma_as_good_as_new(released: DebouncerView, steps: Seq<Step>)
    requires
        forall|k: KeyCode| #[trigger] released.key(k) == KeyState::idle(),
        trace::is_timely(steps),
        steps.len() > 0 ==> steps[0].time() >= released.last_emit,
        trace::play_fits(DebouncerView::fresh(released.mode, released.window), steps),
    ensures
        ({
            let fresh = DebouncerView::fresh(released.mode, released.window);
            let s = trace::played(released, steps);
            let out = trace::played_edges(fresh, steps);
            &&& s.mode == released.mode
            &&& s.window == released.window
            &&& s.last_emit == debounce::last_time(out, released.last_emit)
            &&& trace::play_fits(released, steps)
            &&& trace::played_edges(released, steps) == out
            &&& forall|k: KeyCode| #[trigger] s.key(k) == trace::played(fresh, steps).key(k)
        }),
    decreases steps.len(),
{
    if steps.len() > 0 {
        let fresh = DebouncerView::fresh(released.mode, released.window);
        let front = steps.drop_last();
        guarantees::lemma_timely_front(steps);
        lemma_as_good_as_new(released, front);
        guarantees::lemma_follows(released.mode, released.window, front);
        let s = trace::played(released, front);
        let f = trace::played(fresh, front);
        let out = trace::played_edges(fresh, front);
        let step = steps.last();
        let now = step.time();
        assert(steps[0].time() <= now);
        if front.len() > 0 {
            assert(front[0] == steps[0]);
            assert(steps[front.len() - 1].time() <= now);
        }
        assert forall|k: KeyCode| (#[trigger] s.key(k)).timer is Some implies s.last_emit
            <= s.key(k).timer->0.deadline && f.last_emit <= s.key(k).timer->0.deadline by {
            assert(f.key(k) == s.key(k));
            if front.len() > 0 {
                assert(steps[0].time() <= steps[front.len() - 1].time());
            }
        }
        lemma_same_timeout(s, f, now);
        if let Step::Input(e) = step {
            let a = s.after_timeout(now);
            let b = f.after_timeout(now);
            assert(a.key(e.key) == b.key(e.key));
            assert(a.key_edges(e.time, e.key, e.down) =~= b.key_edges(e.time, e.key, e.down));
        }
        assert(trace::step_edges(s, step) =~= trace::step_edges(f, step));
        assert(trace::step_fits(s, step));
        assert forall|k: KeyCode| #[trigger] trace::stepped(s, step).key(k) == trace::stepped(
            f,
            step,
        ).key(k) by {
            assert(s.after_timeout(now).key(k) == f.after_timeout(now).key(k));
        }
        if trace::step_edges(f, step).len() > 0 {
            assert((out + trace::step_edges(f, step)).last() == trace::step_edges(f, step).last());
        } else {
            assert(out + trace::step_edges(f, step) =~= out);
        }
    }
}

/// Debouncers whose keys are in the same states have their timers run out the same, if they
/// reported nothing yet after any deadline.
proof fn lemma_same_timeout(s: DebouncerView, f: DebouncerView, now: int)
    requires
        s.window == f.window,
        s.last_emit <= now,
        f.last_emit <= now,
        f.timeout_fits(now),
        forall|k: KeyCode| #[trigger] s.key(k) == f.key(k),
        forall|k: KeyCode|
            (#[trigger] s.key(k)).timer matches Some(timer) ==> s.last_emit <= timer.deadline
                && f.last_emit <= timer.deadline,
    ensures
        s.timeout_fits(now),
        s.timeout_edges(now) == f.timeout_edges(now),
        s.after_timeout(now).last_emit <= now,
        f.after_timeout(now).last_emit <= now,
        forall|k: KeyCode| #[trigger] s.after_timeout(now).key(k) == f.after_timeout(now).key(k),
{
    assert forall|k: KeyCode| (#[trigger] s.key(k)).rearms(now) implies s.key(k).timer->0.deadline
        + s.window <= Nanos::MAX by {
        assert(f.key(k).rearms(now));
    }
    assert forall|k: KeyCode| (#[trigger] f.key(k)).timer matches Some(timer)
        ==> f.last_emit <= timer.deadline by {
        assert(s.key(k) == f.key(k));
    }
    assert(s.due_edges(now) =~= f.due_edges(now));
    guarantees::lemma_timeout_tail(s, now);
    guarantees::lemma_timeout_tail(f, now);
    assert forall|k: KeyCode| #[trigger] s.after_timeout(now).key(k) == f.after_timeout(now).key(
        k,
    ) by {
        timing::lemma_timeout_key(s, now, k);
        timing::lemma_timeout_key(f, now, k);
    }
    let tail = s.timeout_edges(now);
    if tail.len() > 0 {
        let e = tail[tail.len() - 1];
        assert(s.key(e.key).due_edge(e.key, now) == Some(e));
    }
}

} // verus!
