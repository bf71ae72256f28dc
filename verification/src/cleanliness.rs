//! What becomes of input that needs no debouncing, and of time running out.

use crate::debounce::{DebouncerView, Mode, Policy, Timer, TimerKind};
use crate::edges;
use crate::edges::{KeyCode, KeyEvent, Nanos};
use crate::guarantees;
use crate::timing;
use crate::trace;
use crate::trace::Step;
use vstd::prelude::*;

verus! {

/// Every edge is at least `window` after each one in front of it, whichever their keys are.
pub open spec fn spaced(edges: Seq<KeyEvent>, window: Nanos) -> bool {
    forall|i: int, j: int|
        0 <= i < j < edges.len() ==> (#[trigger] edges[i]).time + window <= (
        #[trigger] edges[j]).time
}

/// `e` at the time at which it is reported when nothing disturbs it.
pub open spec fn delayed(mode: Mode, window: Nanos, e: KeyEvent) -> KeyEvent {
    match mode.policy_for(e.down) {
        Policy::Emit => e,
        Policy::Settle => KeyEvent { time: (e.time + window) as Nanos, ..e },
    }
}

pub open spec fn all_delayed(mode: Mode, window: Nanos, edges: Seq<KeyEvent>) -> Seq<KeyEvent> {
    edges.map_values(|e: KeyEvent| delayed(mode, window, e))
}

/// Every time can be followed by one window.
pub open spec fn windows_fit(edges: Seq<KeyEvent>, window: Nanos) -> bool {
    forall|i: int| 0 <= i < edges.len() ==> (#[trigger] edges[i]).time + window <= Nanos::MAX
}

/// Every time can be followed by two windows.
pub open spec fn has_headroom(edges: Seq<KeyEvent>, window: Nanos) -> bool {
    forall|i: int| 0 <= i < edges.len() ==> (#[trigger] edges[i]).time + 2 * window <= Nanos::MAX
}

/// Time does not run out on input that stays two windows away from the last time that can be told.
pub proof fn headroom_suffices(mode: Mode, window: Nanos, steps: Seq<Step>)
    requires
        trace::is_timely(steps),
        has_headroom(guarantees::inputs(steps), window),
    ensures
        trace::play_fits(DebouncerView::fresh(mode, window), steps),
    decreases steps.len(),
{
    if steps.len() > 0 {
        let front = steps.drop_last();
        let ins = guarantees::inputs(front);
        guarantees::lemma_timely_front(steps);
        assert forall|i: int| 0 <= i < ins.len() implies (#[trigger] ins[i]).time + 2 * window
            <= Nanos::MAX by {
            assert(guarantees::inputs(steps)[i] == ins[i]);
        }
        headroom_suffices(mode, window, front);
        guarantees::lemma_follows(mode, window, front);
        let s = trace::played(DebouncerView::fresh(mode, window), front);
        let now = steps.last().time();
        assert forall|k: KeyCode| (#[trigger] s.key(k)).rearms(now) implies s.key(
            k,
        ).timer->0.deadline + s.window <= Nanos::MAX by {
            let j = choose|j: int|
                0 <= j < ins.len() && guarantees::backs(
                    #[trigger] ins[j],
                    k,
                    s.key(k).physical,
                    s.key(k).timer->0.deadline as int,
                    s.window,
                );
            assert(ins[j].time + 2 * window <= Nanos::MAX);
        }
        if let Step::Input(e) = steps.last() {
            assert(guarantees::inputs(steps)[ins.len() as int] == e);
        }
    }
}

/// A single edge that is picked is all that is gathered.
proof fn lemma_gathered_one(pick: spec_fn(KeyCode) -> Option<KeyEvent>, e: KeyEvent)
    requires
        edges::picks_own(pick),
        forall|k: KeyCode| #[trigger] pick(k) == if k == e.key {
            Some(e)
        } else {
            None
        },
    ensures
        edges::gathered(pick) == seq![e],
{
    edges::lemma_gathered(pick);
    let g = edges::gathered(pick);
    let one = seq![e];
    assert forall|x: KeyEvent| #[trigger] g.contains(x) <==> one.contains(x) by {
        assert(pick(x.key) == if x.key == e.key {
            Some(e)
        } else {
            None
        });
        assert(one[0] == e);
    }
    edges::lemma_in_order_unique(g, one);
}

/// Edges that are reported at once: all of them have been, and no key waits for anything.
spec fn is_prompt(s: DebouncerView, ins: Seq<KeyEvent>, out: Seq<KeyEvent>) -> bool {
    &&& out == ins
    &&& forall|k: KeyCode|
        (#[trigger] s.key(k)).physical == s.key(k).logical && (s.key(k).timer matches Some(timer)
            ==> guarantees::last_edge(ins, k) matches Some(e) && timer.deadline == e.time
            + s.window)
}

proof fn lemma_stays_prompt(window: Nanos, steps: Seq<Step>)
    requires
        trace::is_timely(steps),
        guarantees::alternates(guarantees::inputs(steps)),
        guarantees::edges_apart(guarantees::inputs(steps), window),
        trace::play_fits(DebouncerView::fresh(Mode::Eager, window), steps) || windows_fit(
            guarantees::inputs(steps),
            window,
        ),
    ensures
        trace::play_fits(DebouncerView::fresh(Mode::Eager, window), steps),
        is_prompt(
            trace::played(DebouncerView::fresh(Mode::Eager, window), steps),
            guarantees::inputs(steps),
            trace::played_edges(DebouncerView::fresh(Mode::Eager, window), steps),
        ),
    decreases steps.len(),
{
    let fresh = DebouncerView::fresh(Mode::Eager, window);
    if steps.len() > 0 {
        let front = steps.drop_last();
        let all = guarantees::inputs(steps);
        let ins = guarantees::inputs(front);
        guarantees::lemma_timely_front(steps);
        assert(ins =~= all.take(ins.len() as int));
        lemma_clean_prefix(all, ins, window);
        if windows_fit(all, window) {
            assert forall|i: int| 0 <= i < ins.len() implies (#[trigger] ins[i]).time + window
                <= Nanos::MAX by {
                assert(all[i] == ins[i]);
            }
        }
        lemma_stays_prompt(window, front);
        guarantees::lemma_follows(Mode::Eager, window, front);
        let s = trace::played(fresh, front);
        let out = trace::played_edges(fresh, front);
        let now = steps.last().time();
        let t = s.after_timeout(now);
        timing::lemma_due_edges(s, now);
        let g = edges::gathered(s.due_edges(now));
        if g.len() > 0 {
            assert(g.contains(g[0]));
            assert(s.key(g[0].key).physical == s.key(g[0].key).logical);
        }
        assert(s.timeout_edges(now) =~= Seq::empty());
        assert forall|k: KeyCode|
            (#[trigger] t.key(k)).physical == t.key(k).logical && (t.key(k).timer is Some
                ==> t.key(k) == s.key(k) && !s.key(k).is_due(now)) by {
            timing::lemma_timeout_key(s, now, k);
            assert(s.key(k).physical == s.key(k).logical);
        }
        if let Step::Input(e) = steps.last() {
            assert(all =~= ins.push(e));
            assert(all[ins.len() as int] == e);
            assert(all.take(ins.len() as int) =~= ins);
            assert(s.key(e.key).physical == guarantees::level(ins, e.key));
            timing::lemma_timeout_key(s, now, e.key);
            assert(t.key(e.key).timer is None);
            assert(t.key(e.key).begins(e.down));
            if front.len() > 0 {
                assert(steps[front.len() - 1].time() <= steps[steps.len() - 1].time());
            }
            let u = t.after_key(e.time, e.key, e.down);
            assert(t.key_edges(e.time, e.key, e.down) =~= seq![e]);
            assert(trace::played_edges(fresh, steps) =~= ins.push(e));
            assert(all.drop_last() =~= ins);
            assert forall|k: KeyCode|
                (#[trigger] u.key(k)).physical == u.key(k).logical && (u.key(k).timer is Some
                    ==> guarantees::last_edge(all, k) is Some && u.key(k).timer->0.deadline
                    == guarantees::last_edge(all, k)->0.time + window) by {
                if k != e.key {
                    assert(u.key(k) == t.key(k));
                    timing::lemma_timeout_key(s, now, k);
                    assert(s.key(k).physical == s.key(k).logical);
                }
            }
        } else {
            assert(trace::played_edges(fresh, steps) =~= ins);
        }
    }
}

/// What is apart from everything in front of it is apart from what is of the same key.
proof fn lemma_spaced_apart(edges: Seq<KeyEvent>, window: Nanos)
    requires
        spaced(edges, window),
    ensures
        guarantees::edges_apart(edges, window),
{
    assert forall|i: int| 0 <= i < edges.len() implies (guarantees::last_edge(
        edges.take(i),
        (#[trigger] edges[i]).key,
    ) matches Some(e) ==> edges[i].time >= e.time + window) by {
        let front = edges.take(i);
        assert forall|a: int, b: int| 0 <= a <= b < front.len() implies (#[trigger] front[a]).time
            <= (#[trigger] front[b]).time by {
            assert(a < b ==> edges[a].time + window <= edges[b].time);
        }
        guarantees::lemma_last_press(front, edges[i].key);
        if i > 0 {
            assert(edges[i - 1].time + window <= edges[i].time);
        }
    }
}

/// The beginning of clean edges is clean.
proof fn lemma_clean_prefix(all: Seq<KeyEvent>, front: Seq<KeyEvent>, window: Nanos)
    requires
        front.len() <= all.len(),
        front == all.take(front.len() as int),
    ensures
        guarantees::alternates(all) ==> guarantees::alternates(front),
        guarantees::edges_apart(all, window) ==> guarantees::edges_apart(front, window),
        spaced(all, window) ==> spaced(front, window),
{
    assert forall|i: int| 0 <= i < front.len() implies #[trigger] front[i] == all[i] && front.take(i)
        == all.take(i) by {
        assert(front.take(i) =~= all.take(i));
    }
}

/// Key `k` waits for the level that `e` brought to settle.
spec fn settles(s: DebouncerView, e: KeyEvent) -> bool {
    &&& s.mode.policy_for(e.down) == Policy::Settle
    &&& e.time + s.window <= Nanos::MAX
    &&& s.key(e.key).timer == Some(
        Timer { deadline: (e.time + s.window) as Nanos, kind: TimerKind::Settle },
    )
    &&& s.key(e.key).physical == e.down
    &&& s.key(e.key).logical != e.down
}

/// Every edge but at most the last has been reported.
spec fn is_through(s: DebouncerView, ins: Seq<KeyEvent>, out: Seq<KeyEvent>) -> bool {
    if forall|k: KeyCode| (#[trigger] s.key(k)).timer is None {
        out == all_delayed(s.mode, s.window, ins)
    } else {
        &&& ins.len() > 0
        &&& out == all_delayed(s.mode, s.window, ins.drop_last())
        &&& settles(s, ins.last())
        &&& forall|k: KeyCode| k != ins.last().key ==> (#[trigger] s.key(k)).timer is None
    }
}

proof fn lemma_through_timeout(
    mode: Mode,
    window: Nanos,
    s: DebouncerView,
    ins: Seq<KeyEvent>,
    out: Seq<KeyEvent>,
    then: int,
    now: int,
)
    requires
        mode != Mode::Eager,
        guarantees::follows(mode, window, s, ins, out, then),
        then <= now,
        is_through(s, ins, out),
    ensures
        is_through(s.after_timeout(now), ins, out + s.timeout_edges(now)),
        ins.len() > 0 && ins.last().time + window <= now ==> forall|k: KeyCode|
            (#[trigger] s.after_timeout(now).key(k)).timer is None,
        forall|k: KeyCode|
            (#[trigger] s.after_timeout(now).key(k)).physical == s.key(k).physical,
{
    let t = s.after_timeout(now);
    assert forall|k: KeyCode| (#[trigger] t.key(k)).physical == s.key(k).physical by {
        timing::lemma_timeout_key(s, now, k);
    }
    if forall|k: KeyCode| (#[trigger] s.key(k)).timer is None {
        timing::lemma_nothing_due(s, now);
        assert(out + s.timeout_edges(now) =~= out);
    } else {
        let e = ins.last();
        let told = delayed(mode, window, e);
        if e.time + window <= now {
            assert forall|k: KeyCode| #[trigger] s.due_edges(now)(k) == if k == told.key {
                Some(told)
            } else {
                None
            } by {
                if k != e.key {
                    assert(s.key(k).timer is None);
                }
            }
            timing::lemma_due_edges(s, now);
            lemma_gathered_one(s.due_edges(now), told);
            assert(s.timeout_edges(now) =~= seq![told]);
            assert(ins =~= ins.drop_last().push(e));
            assert(out + s.timeout_edges(now) =~= all_delayed(mode, window, ins));
            assert forall|k: KeyCode| (#[trigger] t.key(k)).timer is None by {
                timing::lemma_timeout_key(s, now, k);
                assert(k != e.key ==> s.key(k).timer is None);
            }
        } else {
            assert forall|k: KeyCode| !(#[trigger] s.key(k)).is_due(now) by {
                assert(k != e.key ==> s.key(k).timer is None);
            }
            timing::lemma_nothing_due(s, now);
            assert(out + s.timeout_edges(now) =~= out);
        }
    }
}

proof fn lemma_stays_through(mode: Mode, window: Nanos, steps: Seq<Step>)
    requires
        mode != Mode::Eager,
        trace::is_timely(steps),
        trace::play_fits(DebouncerView::fresh(mode, window), steps),
        guarantees::alternates(guarantees::inputs(steps)),
        spaced(guarantees::inputs(steps), window),
    ensures
        is_through(
            trace::played(DebouncerView::fresh(mode, window), steps),
            guarantees::inputs(steps),
            trace::played_edges(DebouncerView::fresh(mode, window), steps),
        ),
    decreases steps.len(),
{
    let fresh = DebouncerView::fresh(mode, window);
    if steps.len() == 0 {
        assert(all_delayed(mode, window, Seq::empty()) =~= Seq::empty());
    } else {
        let front = steps.drop_last();
        let all = guarantees::inputs(steps);
        let ins = guarantees::inputs(front);
        guarantees::lemma_timely_front(steps);
        assert(ins =~= all.take(ins.len() as int));
        lemma_clean_prefix(all, ins, window);
        lemma_stays_through(mode, window, front);
        guarantees::lemma_follows(mode, window, front);
        let s = trace::played(fresh, front);
        let out = trace::played_edges(fresh, front);
        let now = steps.last().time();
        if front.len() > 0 {
            assert(steps[front.len() - 1].time() <= steps[steps.len() - 1].time());
        }
        lemma_through_timeout(mode, window, s, ins, out, guarantees::clock(front), now);
        let t = s.after_timeout(now);
        let mid = out + s.timeout_edges(now);
        if let Step::Input(e) = steps.last() {
            assert(all =~= ins.push(e));
            assert(all[ins.len() as int] == e);
            if ins.len() > 0 {
                assert(all[ins.len() - 1] == ins.last());
                assert(all[ins.len() - 1].time + window <= all[ins.len() as int].time);
            } else {
                assert(forall|k: KeyCode| (#[trigger] s.key(k)).timer is None);
                timing::lemma_nothing_due(s, now);
            }
            assert(forall|k: KeyCode| (#[trigger] t.key(k)).timer is None);
            assert(mid == all_delayed(mode, window, ins));
            assert(s.key(e.key).physical == guarantees::level(ins, e.key));
            assert(t.key(e.key).physical == s.key(e.key).physical);
            crate::debounce::lemma_timeout_valid(s, now);
            assert(t.key(e.key).valid(mode));
            assert(t.key(e.key).begins(e.down));
            lemma_last_emit(mode, window, s, ins, out, guarantees::clock(front), now);
            let u = t.after_key(e.time, e.key, e.down);
            assert(trace::played_edges(fresh, steps) =~= mid + t.key_edges(e.time, e.key, e.down));
            assert forall|k: KeyCode| k != e.key implies (#[trigger] u.key(k)).timer is None by {
                assert(u.key(k) == t.key(k));
            }
            assert(all.drop_last() =~= ins);
            if mode.policy_for(e.down) == Policy::Emit {
                assert(t.key_edges(e.time, e.key, e.down) =~= seq![e]);
                assert(trace::played_edges(fresh, steps) =~= all_delayed(mode, window, all));
                assert(forall|k: KeyCode| (#[trigger] u.key(k)).timer is None);
            } else {
                assert(trace::played_edges(fresh, steps) =~= mid);
                assert(u.key(e.key).timer is Some);
                assert(settles(u, e));
            }
        }
    }
}

/// Nothing is reported with a time after the one that timers were run out at.
proof fn lemma_last_emit(
    mode: Mode,
    window: Nanos,
    s: DebouncerView,
    ins: Seq<KeyEvent>,
    out: Seq<KeyEvent>,
    then: int,
    now: int,
)
    requires
        guarantees::follows(mode, window, s, ins, out, then),
        then <= now,
    ensures
        s.after_timeout(now).last_emit <= now,
{
    guarantees::lemma_timeout_tail(s, now);
}

/// Cleanliness: traffic where every edge is at least `w` apart passes through unchanged, but for
/// one window of delay on the edges that the mode defers.
pub proof fn clean_input_passes_through(mode: Mode, window: Nanos, steps: Seq<Step>, now: nat)
    requires
        trace::is_timely(steps.push(Step::Tick(now))),
        trace::play_fits(DebouncerView::fresh(mode, window), steps.push(Step::Tick(now))),
        guarantees::alternates(guarantees::inputs(steps)),
        spaced(guarantees::inputs(steps), window),
        forall|j: int|
            0 <= j < guarantees::inputs(steps).len() ==> (#[trigger] guarantees::inputs(
                steps,
            )[j]).time + window <= now,
    ensures
        trace::played_edges(DebouncerView::fresh(mode, window), steps.push(Step::Tick(now)))
            == all_delayed(mode, window, guarantees::inputs(steps)),
{
    let fresh = DebouncerView::fresh(mode, window);
    let all = steps.push(Step::Tick(now));
    let ins = guarantees::inputs(steps);
    assert(all.drop_last() =~= steps);
    guarantees::lemma_timely_front(all);
    if mode == Mode::Eager {
        assert(guarantees::inputs(all) == ins);
        lemma_spaced_apart(ins, window);
        lemma_stays_prompt(window, all);
        assert(all_delayed(mode, window, ins) =~= ins);
    } else {
        lemma_stays_through(mode, window, steps);
        guarantees::lemma_follows(mode, window, steps);
        if steps.len() > 0 {
            assert(all[steps.len() - 1].time() <= all[steps.len() as int].time());
        }
        lemma_through_timeout(
            mode,
            window,
            trace::played(fresh, steps),
            ins,
            trace::played_edges(fresh, steps),
            guarantees::clock(steps),
            now as int,
        );
        if ins.len() > 0 {
            assert(ins[ins.len() - 1].time + window <= now);
        }
    }
}

/// Under `Eager` an edge is only reported when a lockout can follow it.
proof fn lemma_eager_windows_fit(window: Nanos, steps: Seq<Step>)
    requires
        trace::is_timely(steps),
        trace::play_fits(DebouncerView::fresh(Mode::Eager, window), steps),
    ensures
        windows_fit(
            trace::played_edges(DebouncerView::fresh(Mode::Eager, window), steps),
            window,
        ),
    decreases steps.len(),
{
    let fresh = DebouncerView::fresh(Mode::Eager, window);
    if steps.len() > 0 {
        let front = steps.drop_last();
        guarantees::lemma_timely_front(steps);
        lemma_eager_windows_fit(window, front);
        guarantees::lemma_follows(Mode::Eager, window, front);
        let s = trace::played(fresh, front);
        let out = trace::played_edges(fresh, front);
        let now = steps.last().time();
        if front.len() > 0 {
            assert(steps[front.len() - 1].time() <= steps[steps.len() - 1].time());
        }
        guarantees::lemma_timeout_tail(s, now);
        let tail = s.timeout_edges(now);
        assert forall|i: int| 0 <= i < tail.len() implies (#[trigger] tail[i]).time + window
            <= Nanos::MAX by {
            let k = tail[i].key;
            assert(s.key(k).due_edge(k, now) == Some(tail[i]));
            assert(s.key(k).valid(Mode::Eager));
            assert(s.key(k).rearms(now));
        }
        lemma_last_emit(
            Mode::Eager,
            window,
            s,
            guarantees::inputs(front),
            out,
            guarantees::clock(front),
            now,
        );
        let all = trace::played_edges(fresh, steps);
        let mid = out + tail;
        assert(all.len() >= mid.len());
        assert(all.take(mid.len() as int) =~= mid);
        assert forall|i: int| 0 <= i < all.len() implies (#[trigger] all[i]).time + window
            <= Nanos::MAX by {
            if i < out.len() {
                assert(all[i] == out[i]);
            } else if i < mid.len() {
                assert(all[i] == tail[i - out.len()]);
            }
        }
    }
}

/// Edges as they are fed to a debouncer.
pub open spec fn relayed(edges: Seq<KeyEvent>) -> Seq<(Nanos, KeyCode, bool)> {
    edges.map_values(|e: KeyEvent| (e.time, e.key, e.down))
}

/// Feeding edges feeds those edges.
proof fn lemma_inputs_relayed(edges: Seq<KeyEvent>)
    ensures
        guarantees::inputs(trace::fed(relayed(edges))) == edges,
    decreases edges.len(),
{
    let steps = trace::fed(relayed(edges));
    if edges.len() > 0 {
        lemma_inputs_relayed(edges.drop_last());
        assert(steps.drop_last() =~= trace::fed(relayed(edges.drop_last())));
        assert(steps.last() == Step::Input(edges.last()));
        assert(guarantees::inputs(steps) =~= edges);
    } else {
        assert(guarantees::inputs(steps) =~= edges);
    }
}

/// Under `Eager`, alternating edges of which those of each key are at least `w` apart pass through
/// unchanged.
pub proof fn eager_passes_clean_keys_through(window: Nanos, steps: Seq<Step>)
    requires
        trace::is_timely(steps),
        trace::play_fits(DebouncerView::fresh(Mode::Eager, window), steps),
        guarantees::alternates(guarantees::inputs(steps)),
        guarantees::edges_apart(guarantees::inputs(steps), window),
    ensures
        trace::played_edges(DebouncerView::fresh(Mode::Eager, window), steps)
            == guarantees::inputs(steps),
{
    lemma_stays_prompt(window, steps);
}

/// `Eager` is idempotent: what it reports passes through another such debouncer unchanged, and
/// needs no more time than the input did.
pub proof fn eager_is_idempotent(window: Nanos, input: Seq<(Nanos, KeyCode, bool)>)
    requires
        trace::is_timely(trace::fed_and_drained(input)),
        trace::play_fits(
            DebouncerView::fresh(Mode::Eager, window),
            trace::fed_and_drained(input),
        ),
    ensures
        ({
            let fresh = DebouncerView::fresh(Mode::Eager, window);
            let once = trace::played_edges(fresh, trace::fed_and_drained(input));
            &&& trace::is_timely(trace::fed_and_drained(relayed(once)))
            &&& trace::play_fits(fresh, trace::fed_and_drained(relayed(once)))
            &&& trace::played_edges(fresh, trace::fed_and_drained(relayed(once))) == once
        }),
{
    let fresh = DebouncerView::fresh(Mode::Eager, window);
    let steps = trace::fed_and_drained(input);
    let once = trace::played_edges(fresh, steps);
    let again = trace::fed_and_drained(relayed(once));
    guarantees::parity(Mode::Eager, window, steps);
    guarantees::monotonicity(Mode::Eager, window, steps);
    guarantees::suppression_of_edges(Mode::Eager, window, steps);
    lemma_eager_windows_fit(window, steps);
    assert forall|i: int, j: int| 0 <= i <= j < again.len() implies (#[trigger] again[i]).time()
        <= (#[trigger] again[j]).time() by {
        if j < once.len() {
            assert(once[i].time <= once[j].time);
        }
    }
    lemma_inputs_relayed(once);
    assert(again.drop_last() =~= trace::fed(relayed(once)));
    lemma_stays_prompt(window, again);
}

/// With no window every mode passes alternating input through unchanged.
pub proof fn zero_window_passes_through(mode: Mode, edges: Seq<KeyEvent>)
    requires
        guarantees::in_time(edges),
        guarantees::alternates(edges),
    ensures
        trace::play_fits(
            DebouncerView::fresh(mode, 0),
            trace::fed_and_drained(relayed(edges)),
        ),
        trace::played_edges(
            DebouncerView::fresh(mode, 0),
            trace::fed_and_drained(relayed(edges)),
        ) == edges,
{
    let steps = trace::fed(relayed(edges));
    let all = trace::fed_and_drained(relayed(edges));
    lemma_inputs_relayed(edges);
    assert(all.drop_last() =~= steps);
    assert forall|i: int, j: int| 0 <= i <= j < all.len() implies (#[trigger] all[i]).time()
        <= (#[trigger] all[j]).time() by {
        if j < edges.len() {
            assert(edges[i].time <= edges[j].time);
        }
    }
    headroom_suffices(mode, 0, all);
    clean_input_passes_through(mode, 0, steps, timing::forever());
    assert(all_delayed(mode, 0, edges) =~= edges);
}

} // verus!
