//! When edges are reported, and why then.

use crate::debounce::{DebouncerView, Mode, Policy, TimerKind};
use crate::edges;
use crate::edges::{KeyCode, KeyEvent, Nanos};
use crate::guarantees;
use crate::timing;
use crate::trace;
use crate::trace::Step;
use vstd::prelude::*;

verus! {

/// The key of `e` went to the level of `e` with input `j`, and stayed there until `e`.
pub open spec fn lasts(ins: Seq<KeyEvent>, j: int, e: KeyEvent) -> bool {
    &&& 0 <= j < ins.len()
    &&& ins[j].key == e.key
    &&& ins[j].down == e.down
    &&& ins[j].time <= e.time
    &&& forall|i: int|
        j < i < ins.len() && (#[trigger] ins[i]).key == e.key && ins[i].time < e.time
            ==> ins[i].down == e.down
}

/// Input `j` is why edge `i` was reported when it was: an edge that the mode defers comes one
/// window after its level was reached, and has lasted since; any other comes at once, or, where
/// input is ignored for one window after each edge, at the end of that window.
pub open spec fn explains(
    mode: Mode,
    window: Nanos,
    ins: Seq<KeyEvent>,
    out: Seq<KeyEvent>,
    i: int,
    j: int,
) -> bool {
    let e = out[i];
    &&& lasts(ins, j, e)
    &&& if defers(mode, e.down) {
        ins[j].time + window == e.time
    } else {
        ins[j].time == e.time || (mode == Mode::Eager && (guarantees::last_edge(
            out.take(i),
            e.key,
        ) matches Some(p) && p.time + window == e.time))
    }
}

/// The mode has such edges wait for one window: both under `Defer`, releases under `Mixed`.
pub open spec fn defers(mode: Mode, down: bool) -> bool {
    mode == Mode::Defer || (mode == Mode::Mixed && !down)
}

/// Presses wait under `Defer` alone, releases under all modes but `Eager`.
pub proof fn modes_defer_as_documented(mode: Mode, down: bool)
    ensures
        mode.policy_for(down) == Policy::Settle <==> defers(mode, down),
        mode.policy_for(true) == Policy::Settle <==> mode == Mode::Defer,
        mode.policy_for(false) == Policy::Settle <==> mode != Mode::Eager,
{
}

/// Key `k` has been at `down` since input `j`.
spec fn stays(ins: Seq<KeyEvent>, j: int, k: KeyCode, down: bool) -> bool {
    &&& 0 <= j < ins.len()
    &&& ins[j].key == k
    &&& ins[j].down == down
    &&& forall|i: int| j < i < ins.len() && (#[trigger] ins[i]).key == k ==> ins[i].down == down
}

/// Each timer runs since when it should: a level settles since it was reached, and input is ignored
/// since the last edge.
spec fn runs(s: DebouncerView, ins: Seq<KeyEvent>, out: Seq<KeyEvent>, k: KeyCode) -> bool {
    s.key(k).timer matches Some(timer) ==> match timer.kind {
        TimerKind::Settle => exists|j: int| #[trigger]
            stays(ins, j, k, s.key(k).physical) && ins[j].time + s.window == timer.deadline,
        TimerKind::Lockout => guarantees::last_edge(out, k) matches Some(p) && p.time + s.window
            == timer.deadline,
    }
}

/// What holds of a debouncer that was fed `ins` and reported `out` by the time `now`: every edge
/// was reported when it should have been, and every timer will have one reported when it should.
#[verifier::opaque]
spec fn accounts(
    mode: Mode,
    window: Nanos,
    s: DebouncerView,
    ins: Seq<KeyEvent>,
    out: Seq<KeyEvent>,
    now: int,
) -> bool {
    &&& forall|i: int|
        0 <= i < out.len() ==> is_explained(mode, window, ins, out, #[trigger] out[i], i)
    &&& forall|k: KeyCode| #[trigger] runs(s, ins, out, k)
    &&& forall|j: int| 0 <= j < ins.len() ==> (#[trigger] ins[j]).time <= now
}

/// Some input is why edge `i`, which is `e`, was reported when it was.
spec fn is_explained(
    mode: Mode,
    window: Nanos,
    ins: Seq<KeyEvent>,
    out: Seq<KeyEvent>,
    e: KeyEvent,
    i: int,
) -> bool {
    exists|j: int| #[trigger] explains(mode, window, ins, out, i, j)
}

/// The last input of a key is the one since which it has been at its level.
proof fn lemma_last_stays(ins: Seq<KeyEvent>, k: KeyCode) -> (j: int)
    requires
        guarantees::last_edge(ins, k) is Some,
    ensures
        stays(ins, j, k, guarantees::level(ins, k)),
    decreases ins.len(),
{
    if ins.last().key == k {
        ins.len() - 1
    } else {
        let front = ins.drop_last();
        let j = lemma_last_stays(front, k);
        assert forall|i: int| j < i < ins.len() && (#[trigger] ins[i]).key == k implies ins[i].down
            == guarantees::level(ins, k) by {
            assert(front[i] == ins[i]);
        }
        j
    }
}

/// An input of a key leaves it with a last one.
proof fn lemma_has_last(ins: Seq<KeyEvent>, j: int)
    requires
        0 <= j < ins.len(),
    ensures
        guarantees::last_edge(ins, ins[j].key) is Some,
    decreases ins.len(),
{
    if ins.last().key != ins[j].key {
        assert(ins.drop_last()[j] == ins[j]);
        lemma_has_last(ins.drop_last(), j);
    }
}

/// What explains an edge goes on explaining it.
proof fn lemma_still_explained(
    mode: Mode,
    window: Nanos,
    ins: Seq<KeyEvent>,
    out: Seq<KeyEvent>,
    tail: Seq<KeyEvent>,
    i: int,
)
    requires
        0 <= i < out.len(),
        is_explained(mode, window, ins, out, out[i], i),
    ensures
        is_explained(mode, window, ins, out + tail, (out + tail)[i], i),
{
    let j = choose|j: int| #[trigger] explains(mode, window, ins, out, i, j);
    assert((out + tail).take(i) =~= out.take(i));
    assert(explains(mode, window, ins, out + tail, i, j));
}

proof fn lemma_accounts_timeout(
    mode: Mode,
    window: Nanos,
    s: DebouncerView,
    ins: Seq<KeyEvent>,
    out: Seq<KeyEvent>,
    then: int,
    now: int,
)
    requires
        guarantees::follows(mode, window, s, ins, out, then),
        guarantees::awaits(s, ins),
        accounts(mode, window, s, ins, out, then),
        then <= now,
        s.timeout_fits(now),
    ensures
        accounts(mode, window, s.after_timeout(now), ins, out + s.timeout_edges(now), now),
{
    reveal(accounts);
    let t = s.after_timeout(now);
    let tail = s.timeout_edges(now);
    let all = out + tail;
    guarantees::lemma_timeout_tail(s, now);
    assert forall|i: int| 0 <= i < all.len() implies is_explained(
        mode,
        window,
        ins,
        all,
        #[trigger] all[i],
        i,
    ) by {
        if i < out.len() {
            assert(is_explained(mode, window, ins, out, out[i], i));
            lemma_still_explained(mode, window, ins, out, tail, i);
        } else {
            let m = i - out.len();
            let e = tail[m];
            let k = e.key;
            let x = s.key(k);
            assert(x.due_edge(k, now) == Some(e));
            assert(x.valid(mode));
            assert(runs(s, ins, out, k));
            if x.timer->0.kind == TimerKind::Settle {
                let j = choose|j: int| #[trigger]
                    stays(ins, j, k, x.physical) && ins[j].time + s.window == x.timer->0.deadline;
                assert(explains(mode, window, ins, all, i, j));
            } else {
                let b = choose|j: int|
                    0 <= j < ins.len() && guarantees::backs(
                        #[trigger] ins[j],
                        k,
                        x.physical,
                        x.timer->0.deadline as int,
                        s.window,
                    );
                lemma_has_last(ins, b);
                let j = lemma_last_stays(ins, k);
                assert(ins[j].time <= then);
                assert(all.take(i) =~= out + tail.take(m));
                assert(guarantees::lacks(tail.take(m), k)) by {
                    assert forall|n: int| 0 <= n < tail.take(m).len() implies (
                    #[trigger] tail.take(m)[n]).key != k by {
                        assert(tail[n].key != tail[m].key);
                    }
                }
                guarantees::lemma_last_edge_lacks(out, tail.take(m), k);
                assert(explains(mode, window, ins, all, i, j));
            }
        }
    }
    assert forall|k: KeyCode| #[trigger] runs(t, ins, all, k) by {
        assert(runs(s, ins, out, k));
        assert(s.key(k).valid(mode));
        timing::lemma_timeout_key(s, now, k);
        guarantees::lemma_timeout_last_edge(s, now, out, k);
        if s.key(k).rearms(now) {
            assert(s.key(k).timer->0.deadline + s.window <= Nanos::MAX);
        }
    }
}

proof fn lemma_accounts_key(
    mode: Mode,
    window: Nanos,
    s: DebouncerView,
    ins: Seq<KeyEvent>,
    out: Seq<KeyEvent>,
    e: KeyEvent,
)
    requires
        guarantees::follows(mode, window, s, ins, out, e.time as int),
        accounts(mode, window, s, ins, out, e.time as int),
        s.key_fits(e.time, e.key, e.down),
    ensures
        accounts(
            mode,
            window,
            s.after_key(e.time, e.key, e.down),
            ins.push(e),
            out + s.key_edges(e.time, e.key, e.down),
            e.time as int,
        ),
{
    reveal(accounts);
    let t = s.after_key(e.time, e.key, e.down);
    let tail = s.key_edges(e.time, e.key, e.down);
    let all = out + tail;
    let grown = ins.push(e);
    assert(s.key(e.key).valid(mode));
    if tail.len() > 0 {
        assert(tail =~= seq![e]);
        assert(all.drop_last() =~= out);
        assert(all.last() == e);
    } else {
        assert(all =~= out);
    }
    assert forall|i: int| 0 <= i < all.len() implies is_explained(
        mode,
        window,
        grown,
        all,
        #[trigger] all[i],
        i,
    ) by {
        if i < out.len() {
            assert(is_explained(mode, window, ins, out, out[i], i));
            let j = choose|j: int| #[trigger] explains(mode, window, ins, out, i, j);
            assert(out[i].time <= out[out.len() - 1].time);
            assert forall|n: int|
                j < n < grown.len() && (#[trigger] grown[n]).key == out[i].key && grown[n].time
                    < out[i].time implies grown[n].down == out[i].down by {
                if n < ins.len() {
                    assert(grown[n] == ins[n]);
                }
            }
            assert(grown[j] == ins[j]);
            assert(explains(mode, window, grown, out, i, j));
            lemma_still_explained(mode, window, grown, out, tail, i);
        } else {
            assert(explains(mode, window, grown, all, i, ins.len() as int));
        }
    }
    assert forall|k: KeyCode| #[trigger] runs(t, grown, all, k) by {
        assert(runs(s, ins, out, k));
        if k == e.key && s.key(k).begins(e.down) {
            assert(grown[ins.len() as int] == e);
            assert(stays(grown, ins.len() as int, k, e.down));
            assert(t.key(k).physical == e.down);
            if mode.policy_for(e.down) == Policy::Emit {
                assert(guarantees::last_edge(all, k) == Some(e));
            } else {
                assert(stays(grown, ins.len() as int, k, t.key(k).physical));
            }
        } else {
            assert(guarantees::last_edge(all, k) == guarantees::last_edge(out, k));
            if k != e.key {
                assert(t.key(k) == s.key(k));
            }
            if let Some(timer) = t.key(k).timer {
                assert(s.key(k).timer == Some(timer));
                assert(t.key(k).physical == s.key(k).physical || timer.kind == TimerKind::Lockout);
                if timer.kind == TimerKind::Settle {
                    let j = choose|j: int| #[trigger]
                        stays(ins, j, k, s.key(k).physical) && ins[j].time + s.window
                            == timer.deadline;
                    assert forall|n: int|
                        j < n < grown.len() && (#[trigger] grown[n]).key
                            == k implies grown[n].down == s.key(k).physical by {
                        if n < ins.len() {
                            assert(grown[n] == ins[n]);
                        }
                    }
                    assert(grown[j] == ins[j]);
                    assert(stays(grown, j, k, t.key(k).physical));
                }
            }
        }
    }
}

proof fn lemma_accounts_step(
    mode: Mode,
    window: Nanos,
    s: DebouncerView,
    ins: Seq<KeyEvent>,
    out: Seq<KeyEvent>,
    then: int,
    step: Step,
)
    requires
        guarantees::follows(mode, window, s, ins, out, then),
        guarantees::awaits(s, ins),
        accounts(mode, window, s, ins, out, then),
        then <= step.time(),
        trace::step_fits(s, step),
    ensures
        accounts(
            mode,
            window,
            trace::stepped(s, step),
            match step {
                Step::Input(e) => ins.push(e),
                Step::Tick(_) => ins,
            },
            out + trace::step_edges(s, step),
            step.time(),
        ),
{
    let now = step.time();
    lemma_accounts_timeout(mode, window, s, ins, out, then, now);
    if let Step::Input(e) = step {
        let m = s.after_timeout(now);
        let mid = out + s.timeout_edges(now);
        guarantees::lemma_follows_timeout(mode, window, s, ins, out, then, now);
        lemma_accounts_key(mode, window, m, ins, mid, e);
        assert(out + trace::step_edges(s, step) =~= mid + m.key_edges(e.time, e.key, e.down));
    }
}

proof fn lemma_accounts(mode: Mode, window: Nanos, steps: Seq<Step>)
    requires
        trace::is_timely(steps),
        trace::play_fits(DebouncerView::fresh(mode, window), steps),
    ensures
        accounts(
            mode,
            window,
            trace::played(DebouncerView::fresh(mode, window), steps),
            guarantees::inputs(steps),
            trace::played_edges(DebouncerView::fresh(mode, window), steps),
            guarantees::clock(steps),
        ),
    decreases steps.len(),
{
    let fresh = DebouncerView::fresh(mode, window);
    if steps.len() == 0 {
        reveal(accounts);
    } else {
        let front = steps.drop_last();
        guarantees::lemma_timely_front(steps);
        lemma_accounts(mode, window, front);
        if front.len() > 0 {
            assert(steps[front.len() - 1].time() <= steps[steps.len() - 1].time());
        }
        guarantees::lemma_follows(mode, window, front);
        lemma_accounts_step(
            mode,
            window,
            trace::played(fresh, front),
            guarantees::inputs(front),
            trace::played_edges(fresh, front),
            guarantees::clock(front),
            steps.last(),
        );
    }
}

/// Every edge is reported when its mode says. Under `Defer`, and releases under `Mixed`: one window
/// after the key was pressed or released, and only if it stayed so all the while. Presses under
/// `Mixed`: at once. Under `Eager`: at once, or one window after the last edge of the key, when the
/// key has turned out to be at another level by the end of it.
pub proof fn every_report_is_explained(mode: Mode, window: Nanos, steps: Seq<Step>, i: int)
    requires
        trace::is_timely(steps),
        trace::play_fits(DebouncerView::fresh(mode, window), steps),
        0 <= i < trace::played_edges(DebouncerView::fresh(mode, window), steps).len(),
    ensures
        exists|j: int| #[trigger]
            explains(
                mode,
                window,
                guarantees::inputs(steps),
                trace::played_edges(DebouncerView::fresh(mode, window), steps),
                i,
                j,
            ),
{
    lemma_accounts(mode, window, steps);
    reveal(accounts);
    let out = trace::played_edges(DebouncerView::fresh(mode, window), steps);
    assert(is_explained(mode, window, guarantees::inputs(steps), out, out[i], i));
}

/// What comes of an edge right away: if downstream sees the key at another level, the edge is
/// reported at once, unless its mode defers such edges or, under `Eager`, the last edge of the key
/// was less than one window ago; otherwise it is not. All else that is reported by then would have
/// been reported without it.
pub proof fn edges_are_prompt(mode: Mode, window: Nanos, steps: Seq<Step>, e: KeyEvent)
    requires
        trace::is_timely(steps.push(Step::Input(e))),
        trace::play_fits(DebouncerView::fresh(mode, window), steps.push(Step::Input(e))),
    ensures
        ({
            let fresh = DebouncerView::fresh(mode, window);
            let out = trace::played_edges(fresh, steps.push(Step::Tick(e.time as nat)));
            let changes = guarantees::level(out, e.key) != e.down;
            let free = mode != Mode::Eager || (guarantees::last_edge(out, e.key) matches Some(p)
                ==> p.time + window <= e.time);
            trace::played_edges(fresh, steps.push(Step::Input(e))) == if changes && free && !defers(
                mode,
                e.down,
            ) {
                out.push(e)
            } else {
                out
            }
        }),
{
    let fresh = DebouncerView::fresh(mode, window);
    let tick = Step::Tick(e.time as nat);
    let now = e.time as int;
    let ticked = steps.push(tick);
    let fed = steps.push(Step::Input(e));
    let s = trace::played(fresh, steps);
    let m = s.after_timeout(now);
    let out = trace::played_edges(fresh, ticked);
    trace::lemma_played_push(fresh, steps, tick);
    trace::lemma_played_push(fresh, steps, Step::Input(e));
    lemma_timely_tick(steps, e);
    guarantees::lemma_follows(mode, window, ticked);
    assert(ticked.last() == tick);
    assert(trace::played_edges(fresh, fed) =~= out + m.key_edges(e.time, e.key, e.down));
    if mode == Mode::Eager {
        lemma_free(mode, window, steps, e.time as nat, e.key);
    }
    let x = m.key(e.key);
    assert(x.valid(mode));
    assert(x.logical == guarantees::level(out, e.key));
    assert(m.last_emit <= now);
    if m.key_edges(e.time, e.key, e.down).len() > 0 {
        assert(m.key_edges(e.time, e.key, e.down) =~= seq![e]);
        assert(out + seq![e] =~= out.push(e));
    } else {
        assert(out + m.key_edges(e.time, e.key, e.down) =~= out);
    }
}

/// Waiting in place of an edge is as timely.
proof fn lemma_timely_tick(steps: Seq<Step>, e: KeyEvent)
    requires
        trace::is_timely(steps.push(Step::Input(e))),
    ensures
        trace::is_timely(steps.push(Step::Tick(e.time as nat))),
{
    let ticked = steps.push(Step::Tick(e.time as nat));
    let fed = steps.push(Step::Input(e));
    assert forall|i: int, j: int| 0 <= i <= j < ticked.len() implies (#[trigger] ticked[i]).time()
        <= (#[trigger] ticked[j]).time() by {
        assert(fed[i].time() == ticked[i].time());
        assert(fed[j].time() == ticked[j].time());
        assert(fed[i].time() <= fed[j].time());
    }
}

/// After waiting, a key is held back under `Eager` if and only if its last edge was less than one
/// window ago.
proof fn lemma_free(mode: Mode, window: Nanos, steps: Seq<Step>, now: nat, k: KeyCode)
    requires
        trace::is_timely(steps.push(Step::Tick(now))),
        trace::play_fits(DebouncerView::fresh(mode, window), steps.push(Step::Tick(now))),
        mode == Mode::Eager,
    ensures
        ({
            let fresh = DebouncerView::fresh(mode, window);
            let ticked = steps.push(Step::Tick(now));
            let out = trace::played_edges(fresh, ticked);
            trace::played(fresh, ticked).key(k).timer is None <==> (guarantees::last_edge(
                out,
                k,
            ) matches Some(p) ==> p.time + window <= now)
        }),
{
    let fresh = DebouncerView::fresh(mode, window);
    let ticked = steps.push(Step::Tick(now));
    let s = trace::played(fresh, ticked);
    let out = trace::played_edges(fresh, ticked);
    assert(ticked.drop_last() =~= steps);
    assert(ticked.last() == Step::Tick(now));
    lemma_accounts(mode, window, ticked);
    reveal(accounts);
    guarantees::lemma_follows(mode, window, ticked);
    guarantees::lemma_timely_front(ticked);
    guarantees::lemma_follows(mode, window, steps);
    trace::lemma_played_push(fresh, steps, Step::Tick(now));
    if steps.len() > 0 {
        assert(ticked[steps.len() - 1].time() <= ticked[steps.len() as int].time());
    }
    guarantees::lemma_follows_timeout(
        mode,
        window,
        trace::played(fresh, steps),
        guarantees::inputs(steps),
        trace::played_edges(fresh, steps),
        guarantees::clock(steps),
        now as int,
    );
    assert(runs(s, guarantees::inputs(ticked), out, k));
    assert(s.key(k).valid(mode));
    assert(!s.key(k).is_due(now as int));
    if s.key(k).timer is None {
        guarantees::lemma_eager_is_free(window, ticked, k);
    }
}

/// Under `Eager` downstream sees a key as it is whenever its last edge is at least one window ago,
/// or there is none.
pub proof fn eager_catches_up_when_free(window: Nanos, steps: Seq<Step>, now: nat, k: KeyCode)
    requires
        trace::is_timely(steps.push(Step::Tick(now))),
        trace::play_fits(DebouncerView::fresh(Mode::Eager, window), steps.push(Step::Tick(now))),
    ensures
        ({
            let out = trace::played_edges(
                DebouncerView::fresh(Mode::Eager, window),
                steps.push(Step::Tick(now)),
            );
            (guarantees::last_edge(out, k) matches Some(p) ==> p.time + window <= now)
                ==> guarantees::level(out, k) == guarantees::level(guarantees::inputs(steps), k)
        }),
{
    let fresh = DebouncerView::fresh(Mode::Eager, window);
    let ticked = steps.push(Step::Tick(now));
    let s = trace::played(fresh, ticked);
    lemma_free(Mode::Eager, window, steps, now, k);
    guarantees::lemma_follows(Mode::Eager, window, ticked);
    assert(ticked.drop_last() =~= steps);
    assert(s.key(k).valid(Mode::Eager));
    assert(s.key(k).logical == guarantees::level(trace::played_edges(fresh, ticked), k));
    assert(s.key(k).physical == guarantees::level(guarantees::inputs(ticked), k));
}

/// A change that downstream has not been told of will be told no later than one window after the
/// key was first at its level, however often it has been at it since.
spec fn hurries(s: DebouncerView, ins: Seq<KeyEvent>) -> bool {
    forall|k: KeyCode, j: int| #[trigger]
        stays(ins, j, k, s.key(k).physical) && s.key(k).physical != s.key(k).logical
            ==> s.key(k).timer is Some && s.key(k).timer->0.deadline <= ins[j].time + s.window
}

proof fn lemma_hurries_key(
    mode: Mode,
    window: Nanos,
    s: DebouncerView,
    ins: Seq<KeyEvent>,
    out: Seq<KeyEvent>,
    e: KeyEvent,
)
    requires
        guarantees::follows(mode, window, s, ins, out, e.time as int),
        s.key_fits(e.time, e.key, e.down),
        hurries(s, ins),
    ensures
        hurries(s.after_key(e.time, e.key, e.down), ins.push(e)),
{
    let t = s.after_key(e.time, e.key, e.down);
    let more = ins.push(e);
    assert forall|k: KeyCode, j: int| #[trigger]
        stays(more, j, k, t.key(k).physical) && t.key(k).physical != t.key(k).logical implies t.key(
        k,
    ).timer is Some && t.key(k).timer->0.deadline <= more[j].time + window by {
        let x = s.key(k);
        assert(x.valid(mode));
        assert(x.physical == guarantees::level(ins, k));
        assert(x.timer matches Some(timer) ==> timer.deadline <= e.time + window);
        if j < ins.len() {
            assert(more[j] == ins[j]);
            if k == e.key {
                assert(more[ins.len() as int] == e);
                assert(e.down == t.key(k).physical);
            }
            assert forall|i: int| j < i < ins.len() && (#[trigger] ins[i]).key
                == k implies ins[i].down == t.key(k).physical by {
                assert(more[i] == ins[i]);
            }
            assert(stays(ins, j, k, t.key(k).physical));
            lemma_stays_level(ins, j, k, t.key(k).physical);
            assert(stays(ins, j, k, x.physical));
        }
    }
}

/// A key that stayed at a level is at that level.
proof fn lemma_stays_level(ins: Seq<KeyEvent>, j: int, k: KeyCode, down: bool)
    requires
        stays(ins, j, k, down),
    ensures
        guarantees::level(ins, k) == down,
    decreases ins.len(),
{
    let front = ins.drop_last();
    if ins.last().key == k {
        assert(ins[ins.len() - 1] == ins.last());
    } else {
        assert(j < front.len());
        assert forall|i: int| j < i < front.len() && (#[trigger] front[i]).key
            == k implies front[i].down == down by {
            assert(front[i] == ins[i]);
        }
        assert(front[j] == ins[j]);
        lemma_stays_level(front, j, k, down);
    }
}

proof fn lemma_hurries(mode: Mode, window: Nanos, steps: Seq<Step>)
    requires
        trace::is_timely(steps),
        trace::play_fits(DebouncerView::fresh(mode, window), steps),
    ensures
        hurries(
            trace::played(DebouncerView::fresh(mode, window), steps),
            guarantees::inputs(steps),
        ),
    decreases steps.len(),
{
    if steps.len() > 0 {
        let fresh = DebouncerView::fresh(mode, window);
        let front = steps.drop_last();
        let step = steps.last();
        let now = step.time();
        guarantees::lemma_timely_front(steps);
        lemma_hurries(mode, window, front);
        guarantees::lemma_follows(mode, window, front);
        let s = trace::played(fresh, front);
        let ins = guarantees::inputs(front);
        let out = trace::played_edges(fresh, front);
        if front.len() > 0 {
            assert(steps[front.len() - 1].time() <= steps[steps.len() - 1].time());
        }
        guarantees::lemma_follows_timeout(
            mode,
            window,
            s,
            ins,
            out,
            guarantees::clock(front),
            now,
        );
        let m = s.after_timeout(now);
        assert forall|k: KeyCode, j: int| #[trigger]
            stays(ins, j, k, m.key(k).physical) && m.key(k).physical != m.key(
                k,
            ).logical implies m.key(k).timer is Some && m.key(k).timer->0.deadline <= ins[j].time
            + window by {
            timing::lemma_timeout_key(s, now, k);
            assert(m.key(k) == s.key(k));
            assert(stays(ins, j, k, s.key(k).physical));
        }
        if let Step::Input(e) = step {
            lemma_hurries_key(mode, window, m, ins, out + s.timeout_edges(now), e);
        }
    }
}

/// Every level that a key has been at for one window has been told by the end of it, whatever the
/// mode, whatever the other keys do, and however often the keyboard reports the level again.
pub proof fn levels_that_last_are_told(
    mode: Mode,
    window: Nanos,
    steps: Seq<Step>,
    now: nat,
    k: KeyCode,
    j: int,
)
    requires
        trace::is_timely(steps.push(Step::Tick(now))),
        trace::play_fits(DebouncerView::fresh(mode, window), steps.push(Step::Tick(now))),
        0 <= j < guarantees::inputs(steps).len(),
        guarantees::inputs(steps)[j].key == k,
        guarantees::inputs(steps)[j].time + window <= now,
        forall|i: int|
            j < i < guarantees::inputs(steps).len() && (#[trigger] guarantees::inputs(steps)[i]).key
                == k ==> guarantees::inputs(steps)[i].down == guarantees::inputs(steps)[j].down,
    ensures
        guarantees::level(
            trace::played_edges(
                DebouncerView::fresh(mode, window),
                steps.push(Step::Tick(now)),
            ),
            k,
        ) == guarantees::inputs(steps)[j].down,
{
    let fresh = DebouncerView::fresh(mode, window);
    let ticked = steps.push(Step::Tick(now));
    let ins = guarantees::inputs(steps);
    let s = trace::played(fresh, steps);
    let t = trace::played(fresh, ticked);
    assert(ticked.drop_last() =~= steps);
    assert(ticked.last() == Step::Tick(now));
    guarantees::lemma_timely_front(ticked);
    trace::lemma_played_push(fresh, steps, Step::Tick(now));
    lemma_hurries(mode, window, steps);
    guarantees::lemma_follows(mode, window, steps);
    guarantees::lemma_follows(mode, window, ticked);
    timing::lemma_timeout_key(s, now as int, k);
    assert(stays(ins, j, k, ins[j].down));
    lemma_stays_level(ins, j, k, ins[j].down);
    assert(s.key(k).physical == guarantees::level(ins, k));
    assert(stays(ins, j, k, s.key(k).physical));
    assert(t.key(k).logical == guarantees::level(trace::played_edges(fresh, ticked), k));
}

/// What timers report at once comes in order of time, and what comes at the same time in order of
/// key.
pub proof fn simultaneous_edges_come_in_order_of_key(
    mode: Mode,
    window: Nanos,
    steps: Seq<Step>,
    now: nat,
    i: int,
    j: int,
)
    requires
        trace::is_timely(steps.push(Step::Tick(now))),
        trace::play_fits(DebouncerView::fresh(mode, window), steps.push(Step::Tick(now))),
        0 <= i < j < trace::step_edges(
            trace::played(DebouncerView::fresh(mode, window), steps),
            Step::Tick(now),
        ).len(),
    ensures
        ({
            let edges = trace::step_edges(
                trace::played(DebouncerView::fresh(mode, window), steps),
                Step::Tick(now),
            );
            &&& edges[i].time <= edges[j].time
            &&& edges[i].time == edges[j].time ==> edges[i].key < edges[j].key
            &&& edges[j].time <= now
        }),
{
    let ticked = steps.push(Step::Tick(now));
    let s = trace::played(DebouncerView::fresh(mode, window), steps);
    assert(ticked.drop_last() =~= steps);
    guarantees::lemma_timely_front(ticked);
    trace::lemma_played_push(DebouncerView::fresh(mode, window), steps, Step::Tick(now));
    guarantees::lemma_follows(mode, window, steps);
    guarantees::lemma_timeout_tail(s, now as int);
    let edges = s.timeout_edges(now as int);
    assert(edges::earlier(edges[i], edges[j]));
    assert(s.key(edges[j].key).due_edge(edges[j].key, now as int) == Some(edges[j]));
}

/// Losing the keyboard has every key that downstream sees as down released, and no other, all at
/// the same time and in order of key: at once, or with the last edge if that was reported later.
pub proof fn releases_come_at_once(s: DebouncerView, now: Nanos)
    ensures
        ({
            let edges = s.release_edges(now);
            &&& forall|i: int|
                0 <= i < edges.len() ==> {
                    &&& !(#[trigger] edges[i]).down
                    &&& s.key(edges[i].key).logical
                    &&& edges[i].time == vstd::math::max(now as int, s.last_emit as int)
                }
            &&& forall|i: int, j: int|
                0 <= i < j < edges.len() ==> (#[trigger] edges[i]).key < (#[trigger] edges[j]).key
            &&& forall|k: KeyCode|
                (#[trigger] s.key(k)).logical ==> exists|i: int|
                    0 <= i < edges.len() && (#[trigger] edges[i]).key == k
        }),
{
    let edges = s.release_edges(now);
    let g = edges::gathered(s.held_edges(now));
    edges::lemma_gathered(s.held_edges(now));
    assert forall|i: int| 0 <= i < edges.len() implies {
        &&& !(#[trigger] edges[i]).down
        &&& s.key(edges[i].key).logical
        &&& edges[i].time == vstd::math::max(now as int, s.last_emit as int)
        &&& g[i].time == now
    } by {
        assert(g.contains(g[i]));
    }
    assert forall|i: int, j: int| 0 <= i < j < edges.len() implies (#[trigger] edges[i]).key < (
    #[trigger] edges[j]).key by {
        assert(edges::earlier(g[i], g[j]));
    }
    assert forall|k: KeyCode| (#[trigger] s.key(k)).logical implies exists|i: int|
        0 <= i < edges.len() && (#[trigger] edges[i]).key == k by {
        let e = KeyEvent { time: now, key: k, down: false };
        assert(s.held_edges(now)(k) == Some(e));
        assert(g.contains(e));
        assert(edges[g.index_of(e)].key == k);
    }
}

} // verus!
