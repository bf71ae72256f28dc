//! That keys do not meddle with one another, and what is left after all of them are released.

use crate::debounce::{DebouncerView, KeyState, Mode};
use crate::edges;
use crate::edges::{KeyCode, KeyEvent, Nanos};
use crate::guarantees;
use crate::timing;
use crate::trace;
use crate::trace::Step;
use vstd::prelude::*;

verus! {

/// Those of `edges` that are of key `k`.
pub open spec fn of_key(edges: Seq<KeyEvent>, k: KeyCode) -> Seq<KeyEvent>
    decreases edges.len(),
{
    if edges.len() == 0 {
        Seq::empty()
    } else if edges.last().key == k {
        of_key(edges.drop_last(), k).push(edges.last())
    } else {
        of_key(edges.drop_last(), k)
    }
}

/// `step` on a keyboard of which no key but `k` works.
pub open spec fn only_step(step: Step, k: KeyCode) -> Step {
    match step {
        Step::Input(e) => if e.key == k {
            step
        } else {
            Step::Tick(e.time as nat)
        },
        Step::Tick(_) => step,
    }
}

/// `steps` on a keyboard of which no key but `k` works.
pub open spec fn only_key(steps: Seq<Step>, k: KeyCode) -> Seq<Step> {
    steps.map_values(|step: Step| only_step(step, k))
}

proof fn lemma_of_key_sum(a: Seq<KeyEvent>, b: Seq<KeyEvent>, k: KeyCode)
    ensures
        of_key(a + b, k) == of_key(a, k) + of_key(b, k),
    decreases b.len(),
{
    if b.len() == 0 {
        assert(a + b =~= a);
        assert(of_key(a, k) + of_key(b, k) =~= of_key(a, k));
    } else {
        lemma_of_key_sum(a, b.drop_last(), k);
        assert((a + b).drop_last() =~= a + b.drop_last());
        assert((a + b).last() == b.last());
        assert(of_key(a + b, k) =~= of_key(a, k) + of_key(b, k));
    }
}

/// Where the keys of `edges` all differ, at most one edge is of key `k`.
proof fn lemma_of_key_once(edges: Seq<KeyEvent>, k: KeyCode)
    requires
        forall|i: int, j: int|
            0 <= i < j < edges.len() ==> (#[trigger] edges[i]).key != (#[trigger] edges[j]).key,
    ensures
        (forall|i: int| 0 <= i < edges.len() ==> (#[trigger] edges[i]).key != k) ==> of_key(
            edges,
            k,
        ) == Seq::<KeyEvent>::empty(),
        forall|i: int|
            0 <= i < edges.len() && (#[trigger] edges[i]).key == k ==> of_key(edges, k)
                == seq![edges[i]],
    decreases edges.len(),
{
    if edges.len() > 0 {
        let front = edges.drop_last();
        assert forall|i: int, j: int| 0 <= i < j < front.len() implies (#[trigger] front[i]).key
            != (#[trigger] front[j]).key by {
            assert(edges[i].key != edges[j].key);
        }
        lemma_of_key_once(front, k);
        if edges.last().key == k {
            assert forall|i: int| 0 <= i < front.len() implies (#[trigger] front[i]).key != k by {
                assert(edges[i].key != edges[edges.len() - 1].key);
            }
            assert(of_key(edges, k) =~= seq![edges.last()]);
        } else {
            assert forall|i: int| 0 <= i < edges.len() && (#[trigger] edges[i]).key == k implies of_key(
                edges,
                k,
            ) == seq![edges[i]] by {
                assert(front[i] == edges[i]);
            }
            if forall|i: int| 0 <= i < edges.len() ==> (#[trigger] edges[i]).key != k {
                assert forall|i: int| 0 <= i < front.len() implies (#[trigger] front[i]).key
                    != k by {
                    assert(front[i] == edges[i]);
                }
            }
        }
    }
}

/// What a timeout reports of key `k` is up to that key alone.
proof fn lemma_timeout_of_key(s: DebouncerView, now: int, k: KeyCode)
    requires
        forall|j: KeyCode|
            (#[trigger] s.key(j)).timer matches Some(timer) ==> timer.deadline >= s.last_emit,
    ensures
        of_key(s.timeout_edges(now), k) == match s.key(k).due_edge(k, now) {
            Some(e) => seq![e],
            None => Seq::empty(),
        },
{
    let tail = s.timeout_edges(now);
    guarantees::lemma_timeout_tail(s, now);
    lemma_of_key_once(tail, k);
    match s.key(k).due_edge(k, now) {
        Some(e) => {
            assert(tail.contains(e));
            assert(tail[tail.index_of(e)].key == k);
        },
        None => {
            assert forall|i: int| 0 <= i < tail.len() implies (#[trigger] tail[i]).key != k by {
                assert(s.key(tail[i].key).due_edge(tail[i].key, now) == Some(tail[i]));
            }
        },
    }
}

/// Steps on a keyboard of which only one key works take the same time.
proof fn lemma_only_key_timely(steps: Seq<Step>, k: KeyCode)
    requires
        trace::is_timely(steps),
    ensures
        trace::is_timely(only_key(steps, k)),
{
    let only = only_key(steps, k);
    assert forall|i: int, j: int| 0 <= i <= j < only.len() implies (#[trigger] only[i]).time() <= (
    #[trigger] only[j]).time() by {
        assert(steps[i].time() <= steps[j].time());
    }
}

/// A debouncer is in the same state as another as far as key `k` goes, whatever became of the other
/// keys, and has reported the same of it.
#[verifier::opaque]
spec fn agrees(
    s: DebouncerView,
    out: Seq<KeyEvent>,
    t: DebouncerView,
    told: Seq<KeyEvent>,
    k: KeyCode,
) -> bool {
    &&& s.mode == t.mode
    &&& s.window == t.window
    &&& s.key(k) == t.key(k)
    &&& of_key(out, k) == of_key(told, k)
}

/// No timer of `s` ends before the last edge it reported, which is not after `then`.
#[verifier::opaque]
spec fn is_punctual(s: DebouncerView, then: int) -> bool {
    &&& s.last_emit <= then
    &&& forall|j: KeyCode|
        (#[trigger] s.key(j)).timer matches Some(timer) ==> timer.deadline >= s.last_emit
}

proof fn lemma_agrees_timeout(
    s: DebouncerView,
    out: Seq<KeyEvent>,
    t: DebouncerView,
    told: Seq<KeyEvent>,
    k: KeyCode,
    now: int,
)
    requires
        agrees(s, out, t, told, k),
        is_punctual(s, now),
        is_punctual(t, now),
    ensures
        agrees(
            s.after_timeout(now),
            out + s.timeout_edges(now),
            t.after_timeout(now),
            told + t.timeout_edges(now),
            k,
        ),
        s.after_timeout(now).last_emit <= now,
        t.after_timeout(now).last_emit <= now,
{
    reveal(agrees);
    reveal(is_punctual);
    lemma_timeout_of_key(s, now, k);
    lemma_timeout_of_key(t, now, k);
    timing::lemma_timeout_key(s, now, k);
    timing::lemma_timeout_key(t, now, k);
    lemma_of_key_sum(out, s.timeout_edges(now), k);
    lemma_of_key_sum(told, t.timeout_edges(now), k);
    guarantees::lemma_timeout_tail(s, now);
    guarantees::lemma_timeout_tail(t, now);
}

/// An edge of the key itself.
proof fn lemma_agrees_key(
    s: DebouncerView,
    out: Seq<KeyEvent>,
    t: DebouncerView,
    told: Seq<KeyEvent>,
    e: KeyEvent,
)
    requires
        agrees(s, out, t, told, e.key),
        s.last_emit <= e.time,
        t.last_emit <= e.time,
    ensures
        agrees(
            s.after_key(e.time, e.key, e.down),
            out + s.key_edges(e.time, e.key, e.down),
            t.after_key(e.time, e.key, e.down),
            told + t.key_edges(e.time, e.key, e.down),
            e.key,
        ),
        s.key_fits(e.time, e.key, e.down) ==> t.key_fits(e.time, e.key, e.down),
{
    reveal(agrees);
    lemma_of_key_sum(out, s.key_edges(e.time, e.key, e.down), e.key);
    lemma_of_key_sum(told, t.key_edges(e.time, e.key, e.down), e.key);
    assert(s.key_edges(e.time, e.key, e.down) =~= t.key_edges(e.time, e.key, e.down));
}

/// An edge of another key, which one of the debouncers does not get.
proof fn lemma_agrees_other(
    s: DebouncerView,
    out: Seq<KeyEvent>,
    t: DebouncerView,
    told: Seq<KeyEvent>,
    k: KeyCode,
    e: KeyEvent,
)
    requires
        agrees(s, out, t, told, k),
        e.key != k,
    ensures
        agrees(
            s.after_key(e.time, e.key, e.down),
            out + s.key_edges(e.time, e.key, e.down),
            t,
            told,
            k,
        ),
{
    reveal(agrees);
    let tail = s.key_edges(e.time, e.key, e.down);
    lemma_of_key_sum(out, tail, k);
    lemma_of_key_once(tail, k);
    assert(of_key(tail, k) == Seq::<KeyEvent>::empty());
    assert(of_key(out, k) + of_key(tail, k) =~= of_key(out, k));
}

proof fn lemma_agrees_step(
    s: DebouncerView,
    out: Seq<KeyEvent>,
    t: DebouncerView,
    told: Seq<KeyEvent>,
    k: KeyCode,
    step: Step,
)
    requires
        agrees(s, out, t, told, k),
        is_punctual(s, step.time()),
        is_punctual(t, step.time()),
        trace::step_fits(s, step),
        t.timeout_fits(step.time()),
    ensures
        agrees(
            trace::stepped(s, step),
            out + trace::step_edges(s, step),
            trace::stepped(t, only_step(step, k)),
            told + trace::step_edges(t, only_step(step, k)),
            k,
        ),
        trace::step_fits(t, only_step(step, k)),
{
    let now = step.time();
    lemma_agrees_timeout(s, out, t, told, k, now);
    if let Step::Input(e) = step {
        let m = s.after_timeout(now);
        let n = t.after_timeout(now);
        let mid = out + s.timeout_edges(now);
        let mid_told = told + t.timeout_edges(now);
        assert(out + trace::step_edges(s, step) =~= mid + m.key_edges(e.time, e.key, e.down));
        if e.key == k {
            lemma_agrees_key(m, mid, n, mid_told, e);
            assert(told + trace::step_edges(t, step) =~= mid_told + n.key_edges(
                e.time,
                k,
                e.down,
            ));
        } else {
            lemma_agrees_other(m, mid, n, mid_told, k, e);
        }
    }
}

proof fn lemma_agrees(mode: Mode, window: Nanos, steps: Seq<Step>, k: KeyCode)
    requires
        trace::is_timely(steps),
        trace::play_fits(DebouncerView::fresh(mode, window), steps),
    ensures
        trace::is_timely(only_key(steps, k)),
        trace::play_fits(DebouncerView::fresh(mode, window), only_key(steps, k)),
        agrees(
            trace::played(DebouncerView::fresh(mode, window), steps),
            trace::played_edges(DebouncerView::fresh(mode, window), steps),
            trace::played(DebouncerView::fresh(mode, window), only_key(steps, k)),
            trace::played_edges(DebouncerView::fresh(mode, window), only_key(steps, k)),
            k,
        ),
    decreases steps.len(),
{
    let fresh = DebouncerView::fresh(mode, window);
    let only = only_key(steps, k);
    lemma_only_key_timely(steps, k);
    if steps.len() == 0 {
        reveal(agrees);
    } else {
        let front = steps.drop_last();
        let rest = only.drop_last();
        guarantees::lemma_timely_front(steps);
        guarantees::lemma_timely_front(only);
        lemma_agrees(mode, window, front, k);
        assert(rest =~= only_key(front, k));
        let s = trace::played(fresh, front);
        let t = trace::played(fresh, rest);
        let out = trace::played_edges(fresh, front);
        let told = trace::played_edges(fresh, rest);
        let now = steps.last().time();
        if front.len() > 0 {
            assert(steps[front.len() - 1].time() <= steps[steps.len() - 1].time());
            assert(only[front.len() - 1].time() <= only[only.len() - 1].time());
        }
        lemma_punctual(mode, window, front, now);
        lemma_punctual(mode, window, rest, now);
        lemma_agrees_fits(mode, window, rest, s, out, k, now);
        lemma_agrees_step(s, out, t, told, k, steps.last());
    }
}

proof fn lemma_punctual(mode: Mode, window: Nanos, steps: Seq<Step>, now: int)
    requires
        trace::is_timely(steps),
        trace::play_fits(DebouncerView::fresh(mode, window), steps),
        guarantees::clock(steps) <= now,
    ensures
        is_punctual(trace::played(DebouncerView::fresh(mode, window), steps), now),
{
    reveal(is_punctual);
    guarantees::lemma_follows(mode, window, steps);
}

/// The timers of a keyboard of which only one key works end at times that can be told where those
/// of a debouncer that agrees on that key do.
proof fn lemma_agrees_fits(
    mode: Mode,
    window: Nanos,
    steps: Seq<Step>,
    s: DebouncerView,
    out: Seq<KeyEvent>,
    k: KeyCode,
    now: int,
)
    requires
        forall|i: int|
            0 <= i < steps.len() ==> ((#[trigger] steps[i]) matches Step::Input(e) ==> e.key == k),
        agrees(
            s,
            out,
            trace::played(DebouncerView::fresh(mode, window), steps),
            trace::played_edges(DebouncerView::fresh(mode, window), steps),
            k,
        ),
        s.timeout_fits(now),
    ensures
        trace::played(DebouncerView::fresh(mode, window), steps).timeout_fits(now),
{
    reveal(agrees);
    lemma_untouched(mode, window, steps, k);
    let t = trace::played(DebouncerView::fresh(mode, window), steps);
    assert forall|j: KeyCode| (#[trigger] t.key(j)).rearms(now) implies t.key(j).timer->0.deadline
        + t.window <= Nanos::MAX by {
        assert(j == k);
        assert(s.key(k).rearms(now));
    }
}

/// Keys are independent: what is reported of a key, and what state it ends up in, is the same
/// whether or not the other keys are touched.
pub proof fn keys_are_independent(mode: Mode, window: Nanos, steps: Seq<Step>, k: KeyCode)
    requires
        trace::is_timely(steps),
        trace::play_fits(DebouncerView::fresh(mode, window), steps),
    ensures
        trace::is_timely(only_key(steps, k)),
        trace::play_fits(DebouncerView::fresh(mode, window), only_key(steps, k)),
        of_key(trace::played_edges(DebouncerView::fresh(mode, window), steps), k) == of_key(
            trace::played_edges(DebouncerView::fresh(mode, window), only_key(steps, k)),
            k,
        ),
        trace::played(DebouncerView::fresh(mode, window), steps).key(k) == trace::played(
            DebouncerView::fresh(mode, window),
            only_key(steps, k),
        ).key(k),
{
    reveal(agrees);
    lemma_agrees(mode, window, steps, k);
}

/// Keys that do not work are never in any state but idle.
proof fn lemma_untouched(mode: Mode, window: Nanos, steps: Seq<Step>, k: KeyCode)
    requires
        forall|i: int|
            0 <= i < steps.len() ==> ((#[trigger] steps[i]) matches Step::Input(e) ==> e.key == k),
    ensures
        forall|j: KeyCode|
            j != k ==> #[trigger] trace::played(DebouncerView::fresh(mode, window), steps).key(j)
                == KeyState::idle(),
    decreases steps.len(),
{
    if steps.len() > 0 {
        let front = steps.drop_last();
        assert forall|i: int| 0 <= i < front.len() implies ((#[trigger] front[i]) matches Step::Input(
            e,
        ) ==> e.key == k) by {
            assert(front[i] == steps[i]);
        }
        lemma_untouched(mode, window, front, k);
        let s = trace::played(DebouncerView::fresh(mode, window), front);
        assert forall|j: KeyCode| j != k implies #[trigger] trace::played(
            DebouncerView::fresh(mode, window),
            steps,
        ).key(j) == KeyState::idle() by {
            timing::lemma_timeout_key(s, steps.last().time(), j);
            assert(s.key(j) == KeyState::idle());
            assert(steps[steps.len() - 1] matches Step::Input(e) ==> e.key == k);
        }
    }
}

} // verus!
