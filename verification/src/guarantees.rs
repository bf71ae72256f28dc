//! The guarantees of the debounce state machine, for any stretch of input and waiting that obeys
//! its contract.

use crate::debounce::{DebouncerView, Mode};
use crate::debounce;
use crate::edges;
use crate::edges::{KeyCode, KeyEvent, Nanos};
use crate::timing;
use crate::trace;
use crate::trace::Step;
use vstd::prelude::*;

verus! {

/// The last of `edges` that is one of key `k`.
pub open spec fn last_edge(edges: Seq<KeyEvent>, k: KeyCode) -> Option<KeyEvent>
    decreases edges.len(),
{
    if edges.len() == 0 {
        None
    } else if edges.last().key == k {
        Some(edges.last())
    } else {
        last_edge(edges.drop_last(), k)
    }
}

/// The last of `edges` that is a press of key `k`.
pub open spec fn last_press(edges: Seq<KeyEvent>, k: KeyCode) -> Option<KeyEvent>
    decreases edges.len(),
{
    if edges.len() == 0 {
        None
    } else if edges.last().key == k && edges.last().down {
        Some(edges.last())
    } else {
        last_press(edges.drop_last(), k)
    }
}

/// The level of key `k` after `edges`; every key starts out released.
pub open spec fn level(edges: Seq<KeyEvent>, k: KeyCode) -> bool {
    last_edge(edges, k) matches Some(e) && e.down
}

/// Parity: each edge flips the level of its key, so that the levels of a key alternate, starting
/// with a press.
pub open spec fn alternates(edges: Seq<KeyEvent>) -> bool {
    forall|i: int|
        0 <= i < edges.len() ==> (#[trigger] edges[i]).down != level(edges.take(i), edges[i].key)
}

/// Monotonicity: no edge is before one in front of it.
pub open spec fn in_time(edges: Seq<KeyEvent>) -> bool {
    forall|i: int, j: int|
        0 <= i <= j < edges.len() ==> (#[trigger] edges[i]).time <= (#[trigger] edges[j]).time
}

/// `e` is an edge of key `k` to level `down`, at most `window` before `time`.
pub open spec fn backs(e: KeyEvent, k: KeyCode, down: bool, time: int, window: Nanos) -> bool {
    e.key == k && e.down == down && e.time <= time <= e.time + window
}

/// Consistency: each edge follows an input of the same key and level within `window`.
pub open spec fn backed(edges: Seq<KeyEvent>, inputs: Seq<KeyEvent>, window: Nanos) -> bool {
    forall|i: int|
        0 <= i < edges.len() ==> exists|j: int|
            0 <= j < inputs.len() && backs(
                #[trigger] inputs[j],
                (#[trigger] edges[i]).key,
                edges[i].down,
                edges[i].time as int,
                window,
            )
}

/// Suppression: each edge is at least `window` after the one of the same key in front of it.
pub open spec fn edges_apart(edges: Seq<KeyEvent>, window: Nanos) -> bool {
    forall|i: int|
        0 <= i < edges.len() ==> (last_edge(edges.take(i), (#[trigger] edges[i]).key) matches Some(
            e,
        ) ==> edges[i].time >= e.time + window)
}

/// Suppression: each press is at least `window` after the press of the same key in front of it.
pub open spec fn presses_apart(edges: Seq<KeyEvent>, window: Nanos) -> bool {
    forall|i: int|
        0 <= i < edges.len() && (#[trigger] edges[i]).down ==> (last_press(
            edges.take(i),
            edges[i].key,
        ) matches Some(e) ==> edges[i].time >= e.time + window)
}

/// The edges that the keyboard reports during `steps`.
pub open spec fn inputs(steps: Seq<Step>) -> Seq<KeyEvent>
    decreases steps.len(),
{
    if steps.len() == 0 {
        Seq::empty()
    } else {
        match steps.last() {
            Step::Input(e) => inputs(steps.drop_last()).push(e),
            Step::Tick(_) => inputs(steps.drop_last()),
        }
    }
}

/// The time of the last of `steps`.
pub open spec fn clock(steps: Seq<Step>) -> int {
    if steps.len() == 0 {
        0
    } else {
        steps.last().time()
    }
}

/// No edge of `tail` is one of key `k`.
pub open spec fn lacks(tail: Seq<KeyEvent>, k: KeyCode) -> bool {
    forall|i: int| 0 <= i < tail.len() ==> (#[trigger] tail[i]).key != k
}

pub proof fn lemma_last_edge_lacks(head: Seq<KeyEvent>, tail: Seq<KeyEvent>, k: KeyCode)
    requires
        lacks(tail, k),
    ensures
        last_edge(head + tail, k) == last_edge(head, k),
        last_press(head + tail, k) == last_press(head, k),
    decreases tail.len(),
{
    if tail.len() == 0 {
        assert(head + tail =~= head);
    } else {
        assert((head + tail).drop_last() =~= head + tail.drop_last());
        assert((head + tail).last() == tail[tail.len() - 1]);
        assert forall|i: int| 0 <= i < tail.drop_last().len() implies (
        #[trigger] tail.drop_last()[i]).key != k by {
            assert(tail.drop_last()[i] == tail[i]);
        }
        lemma_last_edge_lacks(head, tail.drop_last(), k);
    }
}

/// Where each key occurs at most once in `tail`, its edge there is its last one.
pub proof fn lemma_last_edge_once(head: Seq<KeyEvent>, tail: Seq<KeyEvent>, i: int)
    requires
        0 <= i < tail.len(),
        forall|j: int| i < j < tail.len() ==> (#[trigger] tail[j]).key != tail[i].key,
    ensures
        last_edge(head + tail, tail[i].key) == Some(tail[i]),
{
    let front = head + tail.take(i + 1);
    let rest = tail.skip(i + 1);
    assert(head + tail =~= front + rest);
    assert forall|j: int| 0 <= j < rest.len() implies (#[trigger] rest[j]).key != tail[i].key by {
        assert(rest[j] == tail[i + 1 + j]);
    }
    lemma_last_edge_lacks(front, rest, tail[i].key);
    assert(front.last() == tail[i]);
}

/// The last press of a key comes no later than its last edge.
pub proof fn lemma_last_press(edges: Seq<KeyEvent>, k: KeyCode)
    requires
        in_time(edges),
    ensures
        last_press(edges, k) matches Some(p) ==> last_edge(edges, k) matches Some(e) && p.time
            <= e.time && edges.len() > 0 && p.time <= edges.last().time,
        last_edge(edges, k) matches Some(e) ==> edges.len() > 0 && e.time <= edges.last().time,
    decreases edges.len(),
{
    if edges.len() > 0 {
        let front = edges.drop_last();
        assert forall|i: int, j: int| 0 <= i <= j < front.len() implies (
        #[trigger] front[i]).time <= (#[trigger] front[j]).time by {
            assert(edges[i].time <= edges[j].time);
        }
        lemma_last_press(front, k);
        if front.len() > 0 {
            assert(edges[front.len() - 1].time <= edges[edges.len() - 1].time);
        }
    }
}

/// The keys of what timers report, told apart from one another.
pub proof fn lemma_timeout_tail(s: DebouncerView, now: int)
    requires
        forall|k: KeyCode|
            (#[trigger] s.key(k)).timer matches Some(timer) ==> timer.deadline >= s.last_emit,
    ensures
        s.timeout_edges(now) == edges::gathered(s.due_edges(now)),
        edges::in_order(s.timeout_edges(now)),
        forall|e: KeyEvent| #[trigger]
            s.timeout_edges(now).contains(e) <==> s.key(e.key).due_edge(e.key, now) == Some(e),
        forall|i: int|
            0 <= i < s.timeout_edges(now).len() ==> s.key(
                (#[trigger] s.timeout_edges(now)[i]).key,
            ).due_edge(s.timeout_edges(now)[i].key, now) == Some(s.timeout_edges(now)[i]),
        forall|i: int, j: int|
            0 <= i < j < s.timeout_edges(now).len() ==> (#[trigger] s.timeout_edges(now)[i]).key
                != (#[trigger] s.timeout_edges(now)[j]).key,
{
    timing::lemma_due_edges(s, now);
    let g = edges::gathered(s.due_edges(now));
    assert forall|i: int| 0 <= i < g.len() implies s.key((#[trigger] g[i]).key).due_edge(
        g[i].key,
        now,
    ) == Some(g[i]) by {
        assert(g.contains(g[i]));
    }
    assert(s.timeout_edges(now) =~= g);
    assert forall|i: int, j: int| 0 <= i < j < g.len() implies (#[trigger] g[i]).key != (
    #[trigger] g[j]).key by {
        assert(edges::earlier(g[i], g[j]));
    }
}

/// After a timeout, the last edge of each key is the one that its timer reported, if it did.
pub proof fn lemma_timeout_last_edge(s: DebouncerView, now: int, out: Seq<KeyEvent>, k: KeyCode)
    requires
        forall|k: KeyCode|
            (#[trigger] s.key(k)).timer matches Some(timer) ==> timer.deadline >= s.last_emit,
    ensures
        last_edge(out + s.timeout_edges(now), k) == match s.key(k).due_edge(k, now) {
            Some(e) => Some(e),
            None => last_edge(out, k),
        },
{
    let tail = s.timeout_edges(now);
    lemma_timeout_tail(s, now);
    match s.key(k).due_edge(k, now) {
        Some(e) => {
            assert(tail.contains(e));
            let i = tail.index_of(e);
            lemma_last_edge_once(out, tail, i);
        },
        None => {
            assert(lacks(tail, k));
            lemma_last_edge_lacks(out, tail, k);
        },
    }
}

/// What holds of a debouncer with settings `mode` and `window` that was fed `ins` and reported
/// `out` by the time `now`.
pub open spec fn follows(
    mode: Mode,
    window: Nanos,
    s: DebouncerView,
    ins: Seq<KeyEvent>,
    out: Seq<KeyEvent>,
    now: int,
) -> bool {
    &&& s.mode == mode
    &&& s.window == window
    &&& s.valid()
    &&& s.last_emit <= now
    &&& s.last_emit == debounce::last_time(out, 0)
    &&& forall|k: KeyCode| (#[trigger] s.key(k)).logical == level(out, k)
    &&& forall|k: KeyCode| (#[trigger] s.key(k)).physical == level(ins, k)
    &&& forall|k: KeyCode|
        (#[trigger] s.key(k)).timer matches Some(timer) ==> now <= timer.deadline <= now + window
    &&& in_time(out)
    &&& alternates(out)
}

pub proof fn lemma_follows_timeout(
    mode: Mode,
    window: Nanos,
    s: DebouncerView,
    ins: Seq<KeyEvent>,
    out: Seq<KeyEvent>,
    then: int,
    now: int,
)
    requires
        follows(mode, window, s, ins, out, then),
        then <= now,
        s.timeout_fits(now),
    ensures
        follows(mode, window, s.after_timeout(now), ins, out + s.timeout_edges(now), now),
        forall|k: KeyCode| !(#[trigger] s.after_timeout(now).key(k)).is_due(now),
{
    let t = s.after_timeout(now);
    let tail = s.timeout_edges(now);
    let all = out + tail;
    lemma_timeout_tail(s, now);
    debounce::lemma_timeout_valid(s, now);
    assert forall|k: KeyCode| (#[trigger] t.key(k)).logical == level(all, k) by {
        lemma_timeout_last_edge(s, now, out, k);
        timing::lemma_timeout_key(s, now, k);
        assert(s.key(k).logical == level(out, k));
        assert(s.key(k).valid(mode));
    }
    assert forall|k: KeyCode| (#[trigger] t.key(k)).physical == level(ins, k) by {
        assert(s.key(k).physical == level(ins, k));
    }
    assert forall|k: KeyCode| (#[trigger] t.key(k)).timer is Some implies now
        < t.key(k).timer->0.deadline <= now + window by {
        let x = s.key(k);
        assert(x.rearms(now) ==> x.timer->0.deadline + window <= Nanos::MAX);
        assert(x.timer matches Some(timer) ==> then <= timer.deadline <= then + window);
    }
    assert forall|i: int, j: int| 0 <= i <= j < all.len() implies (#[trigger] all[i]).time <= (
    #[trigger] all[j]).time by {
        if j < out.len() {
            assert(out[i].time <= out[j].time);
        } else if i >= out.len() {
            if i < j {
                assert(edges::earlier(tail[i - out.len()], tail[j - out.len()]));
            }
        } else {
            assert(out[i].time <= out[out.len() - 1].time);
            let e = tail[j - out.len()];
            assert(s.key(e.key).due_edge(e.key, now) == Some(e));
        }
    }
    if tail.len() > 0 {
        let e = tail[tail.len() - 1];
        assert(s.key(e.key).due_edge(e.key, now) == Some(e));
        assert(all.last() == e);
    } else {
        assert(all =~= out);
    }
    assert forall|i: int| 0 <= i < all.len() implies (#[trigger] all[i]).down != level(
        all.take(i),
        all[i].key,
    ) by {
        if i < out.len() {
            assert(all.take(i) =~= out.take(i));
            assert(out[i].down != level(out.take(i), out[i].key));
        } else {
            let m = i - out.len();
            let e = tail[m];
            assert(s.key(e.key).due_edge(e.key, now) == Some(e));
            assert(all.take(i) =~= out + tail.take(m));
            assert forall|j: int| 0 <= j < tail.take(m).len() implies (
            #[trigger] tail.take(m)[j]).key != e.key by {
                assert(tail[j].key != tail[m].key);
            }
            lemma_last_edge_lacks(out, tail.take(m), e.key);
            assert(s.key(e.key).logical == level(out, e.key));
        }
    }
}

proof fn lemma_follows_key(
    mode: Mode,
    window: Nanos,
    s: DebouncerView,
    ins: Seq<KeyEvent>,
    out: Seq<KeyEvent>,
    e: KeyEvent,
)
    requires
        follows(mode, window, s, ins, out, e.time as int),
        s.key_fits(e.time, e.key, e.down),
    ensures
        follows(
            mode,
            window,
            s.after_key(e.time, e.key, e.down),
            ins.push(e),
            out + s.key_edges(e.time, e.key, e.down),
            e.time as int,
        ),
{
    let t = s.after_key(e.time, e.key, e.down);
    let tail = s.key_edges(e.time, e.key, e.down);
    let all = out + tail;
    assert(ins.push(e).drop_last() =~= ins);
    assert(ins + seq![e] =~= ins.push(e));
    if tail.len() > 0 {
        assert(tail =~= seq![e]);
        assert(all =~= out.push(e));
        assert(all.drop_last() =~= out);
        assert(all.last() == e);
    } else {
        assert(all =~= out);
    }
    assert forall|k: KeyCode| (#[trigger] t.key(k)).valid(mode) by {
        assert(s.key(k).valid(mode));
    }
    assert forall|k: KeyCode| (#[trigger] t.key(k)).logical == level(all, k) by {
        assert(s.key(k).logical == level(out, k));
    }
    assert forall|k: KeyCode| (#[trigger] t.key(k)).physical == level(ins.push(e), k) by {
        assert(s.key(k).physical == level(ins, k));
    }
    assert forall|k: KeyCode| (#[trigger] t.key(k)).timer is Some implies e.time
        <= t.key(k).timer->0.deadline <= e.time + window by {
        assert(s.key(k).timer matches Some(timer) ==> e.time <= timer.deadline <= e.time + window);
    }
    assert forall|i: int, j: int| 0 <= i <= j < all.len() implies (#[trigger] all[i]).time <= (
    #[trigger] all[j]).time by {
        if j < out.len() {
            assert(out[i].time <= out[j].time);
        } else if i < out.len() {
            assert(out[i].time <= out[out.len() - 1].time);
        }
    }
    assert forall|i: int| 0 <= i < all.len() implies (#[trigger] all[i]).down != level(
        all.take(i),
        all[i].key,
    ) by {
        if i < out.len() {
            assert(all.take(i) =~= out.take(i));
            assert(out[i].down != level(out.take(i), out[i].key));
        } else {
            assert(all.take(i) =~= out);
            assert(s.key(e.key).logical == level(out, e.key));
        }
    }
}

/// A change that downstream has not been told of was reported by the keyboard at most one window
/// before it will be.
pub open spec fn awaits(s: DebouncerView, ins: Seq<KeyEvent>) -> bool {
    forall|k: KeyCode|
        (#[trigger] s.key(k)).physical != s.key(k).logical ==> exists|j: int|
            0 <= j < ins.len() && backs(
                #[trigger] ins[j],
                k,
                s.key(k).physical,
                s.key(k).timer->0.deadline as int,
                s.window,
            )
}

proof fn lemma_backed_timeout(
    mode: Mode,
    window: Nanos,
    s: DebouncerView,
    ins: Seq<KeyEvent>,
    out: Seq<KeyEvent>,
    then: int,
    now: int,
)
    requires
        follows(mode, window, s, ins, out, then),
        awaits(s, ins),
        backed(out, ins, window),
    ensures
        awaits(s.after_timeout(now), ins),
        backed(out + s.timeout_edges(now), ins, window),
{
    let t = s.after_timeout(now);
    let tail = s.timeout_edges(now);
    let all = out + tail;
    lemma_timeout_tail(s, now);
    assert forall|k: KeyCode| (#[trigger] t.key(k)).physical != t.key(k).logical implies exists|
        j: int,
    |
        0 <= j < ins.len() && backs(
            #[trigger] ins[j],
            k,
            t.key(k).physical,
            t.key(k).timer->0.deadline as int,
            t.window,
        ) by {
        timing::lemma_timeout_key(s, now, k);
        assert(t.key(k) == s.key(k));
    }
    assert forall|i: int| 0 <= i < all.len() implies exists|j: int|
        0 <= j < ins.len() && backs(
            #[trigger] ins[j],
            (#[trigger] all[i]).key,
            all[i].down,
            all[i].time as int,
            window,
        ) by {
        if i < out.len() {
            assert(all[i] == out[i]);
        } else {
            let e = tail[i - out.len()];
            assert(all[i] == e);
            assert(s.key(e.key).due_edge(e.key, now) == Some(e));
            assert(s.key(e.key).physical != s.key(e.key).logical);
        }
    }
}

proof fn lemma_backed_key(
    mode: Mode,
    window: Nanos,
    s: DebouncerView,
    ins: Seq<KeyEvent>,
    out: Seq<KeyEvent>,
    e: KeyEvent,
)
    requires
        follows(mode, window, s, ins, out, e.time as int),
        s.key_fits(e.time, e.key, e.down),
        awaits(s, ins),
        backed(out, ins, window),
    ensures
        awaits(s.after_key(e.time, e.key, e.down), ins.push(e)),
        backed(out + s.key_edges(e.time, e.key, e.down), ins.push(e), window),
{
    let t = s.after_key(e.time, e.key, e.down);
    let more = ins.push(e);
    let all = out + s.key_edges(e.time, e.key, e.down);
    assert(more[ins.len() as int] == e);
    assert forall|k: KeyCode| (#[trigger] t.key(k)).physical != t.key(k).logical implies exists|
        j: int,
    |
        0 <= j < more.len() && backs(
            #[trigger] more[j],
            k,
            t.key(k).physical,
            t.key(k).timer->0.deadline as int,
            t.window,
        ) by {
        assert(s.key(k).valid(mode));
        if k == e.key {
            assert(s.key(k).timer matches Some(timer) ==> e.time <= timer.deadline <= e.time
                + window);
            if s.key(k).physical != s.key(k).logical {
                let j = choose|j: int|
                    0 <= j < ins.len() && backs(
                        #[trigger] ins[j],
                        k,
                        s.key(k).physical,
                        s.key(k).timer->0.deadline as int,
                        s.window,
                    );
                assert(more[j] == ins[j]);
                assert(backs(
                    more[j],
                    k,
                    t.key(k).physical,
                    t.key(k).timer->0.deadline as int,
                    t.window,
                ));
            } else {
                assert(backs(
                    more[ins.len() as int],
                    k,
                    t.key(k).physical,
                    t.key(k).timer->0.deadline as int,
                    t.window,
                ));
            }
        } else {
            assert(t.key(k) == s.key(k));
            let j = choose|j: int|
                0 <= j < ins.len() && backs(
                    #[trigger] ins[j],
                    k,
                    s.key(k).physical,
                    s.key(k).timer->0.deadline as int,
                    s.window,
                );
            assert(more[j] == ins[j]);
        }
    }
    assert forall|i: int| 0 <= i < all.len() implies exists|j: int|
        0 <= j < more.len() && backs(
            #[trigger] more[j],
            (#[trigger] all[i]).key,
            all[i].down,
            all[i].time as int,
            window,
        ) by {
        if i < out.len() {
            assert(all[i] == out[i]);
            let j = choose|j: int|
                0 <= j < ins.len() && backs(
                    #[trigger] ins[j],
                    out[i].key,
                    out[i].down,
                    out[i].time as int,
                    window,
                );
            assert(more[j] == ins[j]);
        } else {
            assert(all[i] == e);
            assert(backs(
                more[ins.len() as int],
                all[i].key,
                all[i].down,
                all[i].time as int,
                window,
            ));
        }
    }
}

/// What is next reported of a key will be far enough from what was: from any edge of it where both
/// edges are filtered, from a press of it where only releases are.
spec fn keeps_apart(s: DebouncerView, out: Seq<KeyEvent>, now: int) -> bool {
    if s.mode == Mode::Mixed {
        forall|k: KeyCode|
            last_press(out, k) matches Some(p) ==> {
                let x = #[trigger] s.key(k);
                if x.logical {
                    x.timer matches Some(timer) ==> timer.deadline >= p.time + s.window
                } else {
                    now >= p.time + s.window
                }
            }
    } else {
        forall|k: KeyCode|
            last_edge(out, k) matches Some(e) ==> {
                let x = #[trigger] s.key(k);
                match x.timer {
                    Some(timer) => timer.deadline >= e.time + s.window,
                    None => s.mode == Mode::Eager ==> now >= e.time + s.window,
                }
            }
    }
}

/// The edges reported so far are far enough apart.
spec fn are_apart(mode: Mode, window: Nanos, out: Seq<KeyEvent>) -> bool {
    if mode == Mode::Mixed {
        presses_apart(out, window)
    } else {
        edges_apart(out, window)
    }
}

proof fn lemma_apart_timeout(
    mode: Mode,
    window: Nanos,
    s: DebouncerView,
    ins: Seq<KeyEvent>,
    out: Seq<KeyEvent>,
    then: int,
    now: int,
)
    requires
        follows(mode, window, s, ins, out, then),
        then <= now,
        s.timeout_fits(now),
        keeps_apart(s, out, then),
        are_apart(mode, window, out),
    ensures
        keeps_apart(s.after_timeout(now), out + s.timeout_edges(now), now),
        are_apart(mode, window, out + s.timeout_edges(now)),
{
    let t = s.after_timeout(now);
    let tail = s.timeout_edges(now);
    let all = out + tail;
    lemma_timeout_tail(s, now);
    if mode == Mode::Mixed {
        assert forall|i: int| 0 <= i < tail.len() implies !(#[trigger] tail[i]).down by {
            assert(s.key(tail[i].key).valid(mode));
        }
        assert forall|k: KeyCode| last_press(all, k) is Some implies {
            let p = last_press(all, k)->0;
            let x = #[trigger] t.key(k);
            if x.logical {
                x.timer matches Some(timer) ==> timer.deadline >= p.time + window
            } else {
                now >= p.time + window
            }
        } by {
            lemma_last_press_released(out, tail, k);
            timing::lemma_timeout_key(s, now, k);
            let x = s.key(k);
            assert(x.valid(mode));
        }
        assert forall|i: int| 0 <= i < all.len() && (#[trigger] all[i]).down implies (last_press(
            all.take(i),
            all[i].key,
        ) matches Some(e) ==> all[i].time >= e.time + window) by {
            assert(i < out.len()) by {
                if i >= out.len() {
                    assert(all[i] == tail[i - out.len()]);
                }
            }
            assert(all.take(i) =~= out.take(i));
            assert(all[i] == out[i]);
        }
    } else {
        assert forall|k: KeyCode| last_edge(all, k) is Some implies {
            let e = last_edge(all, k)->0;
            let x = #[trigger] t.key(k);
            match x.timer {
                Some(timer) => timer.deadline >= e.time + window,
                None => mode == Mode::Eager ==> now >= e.time + window,
            }
        } by {
            lemma_timeout_last_edge(s, now, out, k);
            timing::lemma_timeout_key(s, now, k);
            let x = s.key(k);
            assert(x.valid(mode));
            assert(x.rearms(now) ==> x.timer->0.deadline + window <= Nanos::MAX);
        }
        assert forall|i: int| 0 <= i < all.len() implies (last_edge(
            all.take(i),
            (#[trigger] all[i]).key,
        ) matches Some(e) ==> all[i].time >= e.time + window) by {
            if i < out.len() {
                assert(all.take(i) =~= out.take(i));
                assert(all[i] == out[i]);
            } else {
                let m = i - out.len();
                let e = tail[m];
                assert(s.key(e.key).due_edge(e.key, now) == Some(e));
                assert(all.take(i) =~= out + tail.take(m));
                assert forall|j: int| 0 <= j < tail.take(m).len() implies (
                #[trigger] tail.take(m)[j]).key != e.key by {
                    assert(tail[j].key != tail[m].key);
                }
                lemma_last_edge_lacks(out, tail.take(m), e.key);
                assert(s.key(e.key).timer is Some);
            }
        }
    }
}

/// Releases leave the last press as it was.
proof fn lemma_last_press_released(head: Seq<KeyEvent>, tail: Seq<KeyEvent>, k: KeyCode)
    requires
        forall|i: int| 0 <= i < tail.len() ==> !(#[trigger] tail[i]).down,
    ensures
        last_press(head + tail, k) == last_press(head, k),
    decreases tail.len(),
{
    if tail.len() == 0 {
        assert(head + tail =~= head);
    } else {
        assert((head + tail).drop_last() =~= head + tail.drop_last());
        assert((head + tail).last() == tail[tail.len() - 1]);
        assert forall|i: int| 0 <= i < tail.drop_last().len() implies !(
        #[trigger] tail.drop_last()[i]).down by {
            assert(tail.drop_last()[i] == tail[i]);
        }
        lemma_last_press_released(head, tail.drop_last(), k);
    }
}

proof fn lemma_apart_key(
    mode: Mode,
    window: Nanos,
    s: DebouncerView,
    ins: Seq<KeyEvent>,
    out: Seq<KeyEvent>,
    e: KeyEvent,
)
    requires
        follows(mode, window, s, ins, out, e.time as int),
        s.key_fits(e.time, e.key, e.down),
        keeps_apart(s, out, e.time as int),
        are_apart(mode, window, out),
    ensures
        keeps_apart(
            s.after_key(e.time, e.key, e.down),
            out + s.key_edges(e.time, e.key, e.down),
            e.time as int,
        ),
        are_apart(mode, window, out + s.key_edges(e.time, e.key, e.down)),
{
    let t = s.after_key(e.time, e.key, e.down);
    let tail = s.key_edges(e.time, e.key, e.down);
    let all = out + tail;
    if tail.len() > 0 {
        assert(tail =~= seq![e]);
        assert(all =~= out.push(e));
        assert(all.drop_last() =~= out);
        assert(all.last() == e);
    } else {
        assert(all =~= out);
    }
    if mode == Mode::Mixed {
        assert forall|k: KeyCode| last_press(all, k) is Some implies {
            let p = last_press(all, k)->0;
            let x = #[trigger] t.key(k);
            if x.logical {
                x.timer matches Some(timer) ==> timer.deadline >= p.time + window
            } else {
                e.time >= p.time + window
            }
        } by {
            lemma_last_press(out, k);
            assert(s.key(k).valid(mode));
        }
        assert forall|i: int| 0 <= i < all.len() && (#[trigger] all[i]).down implies (last_press(
            all.take(i),
            all[i].key,
        ) matches Some(p) ==> all[i].time >= p.time + window) by {
            if i < out.len() {
                assert(all.take(i) =~= out.take(i));
                assert(all[i] == out[i]);
            } else {
                assert(all.take(i) =~= out);
                assert(!s.key(e.key).logical);
            }
        }
    } else {
        assert forall|k: KeyCode| last_edge(all, k) is Some implies {
            let l = last_edge(all, k)->0;
            let x = #[trigger] t.key(k);
            match x.timer {
                Some(timer) => timer.deadline >= l.time + window,
                None => mode == Mode::Eager ==> e.time >= l.time + window,
            }
        } by {
            lemma_last_press(out, k);
            assert(s.key(k).valid(mode));
        }
        assert forall|i: int| 0 <= i < all.len() implies (last_edge(
            all.take(i),
            (#[trigger] all[i]).key,
        ) matches Some(l) ==> all[i].time >= l.time + window) by {
            if i < out.len() {
                assert(all.take(i) =~= out.take(i));
                assert(all[i] == out[i]);
            } else {
                assert(all.take(i) =~= out);
                assert(s.key(e.key).timer is None);
            }
        }
    }
}

/// How many changes downstream has not been told of yet.
spec fn untold(s: DebouncerView) -> nat {
    edges::counted(|k: KeyCode| s.key(k).physical != s.key(k).logical)
}

proof fn lemma_untold_timeout(s: DebouncerView, now: int)
    ensures
        s.timeout_edges(now).len() + untold(s.after_timeout(now)) == untold(s),
{
    let t = s.after_timeout(now);
    let told = |k: KeyCode| s.due_edges(now)(k) is Some;
    let left = |k: KeyCode| t.key(k).physical != t.key(k).logical;
    let all = |k: KeyCode| s.key(k).physical != s.key(k).logical;
    timing::lemma_due_edges(s, now);
    edges::lemma_gathered_len(s.due_edges(now), 0x1_0000);
    assert forall|k: KeyCode| #[trigger] all(k) <==> told(k) || left(k) by {
        timing::lemma_timeout_key(s, now, k);
    }
    assert forall|k: KeyCode| !(#[trigger] told(k) && #[trigger] left(k)) by {
        timing::lemma_timeout_key(s, now, k);
    }
    edges::lemma_counted_sum(told, left, all, 0x1_0000);
}

proof fn lemma_untold_key(s: DebouncerView, e: KeyEvent)
    requires
        s.valid(),
    ensures
        s.key_edges(e.time, e.key, e.down).len() + untold(s.after_key(e.time, e.key, e.down))
            <= untold(s) + 1,
{
    let t = s.after_key(e.time, e.key, e.down);
    let old_pred = |k: KeyCode| s.key(k).physical != s.key(k).logical;
    let new_pred = |k: KeyCode| t.key(k).physical != t.key(k).logical;
    assert(s.key(e.key).valid(s.mode));
    assert forall|k: KeyCode| k != e.key implies #[trigger] new_pred(k) == old_pred(k) by {}
    lemma_counted_but_one(old_pred, new_pred, e.key, 0x1_0000);
}

/// Predicates that agree but on one key code count the same but for that one.
proof fn lemma_counted_but_one(
    a: spec_fn(KeyCode) -> bool,
    b: spec_fn(KeyCode) -> bool,
    k: KeyCode,
    n: int,
)
    requires
        0 <= n <= 0x1_0000,
        forall|j: KeyCode| j != k ==> #[trigger] b(j) == a(j),
    ensures
        edges::counted_below(b, n) <= edges::counted_below(a, n) + 1,
        !b(k) || n <= k ==> edges::counted_below(b, n) <= edges::counted_below(a, n),
    decreases n,
{
    if n > 0 {
        lemma_counted_but_one(a, b, k, n - 1);
        let j = (n - 1) as KeyCode;
        assert(j != k ==> b(j) == a(j));
    }
}

/// All of the above at once.
#[verifier::opaque]
spec fn keeps_promises(
    mode: Mode,
    window: Nanos,
    s: DebouncerView,
    ins: Seq<KeyEvent>,
    out: Seq<KeyEvent>,
    now: int,
) -> bool {
    &&& follows(mode, window, s, ins, out, now)
    &&& awaits(s, ins)
    &&& backed(out, ins, window)
    &&& keeps_apart(s, out, now)
    &&& are_apart(mode, window, out)
    &&& out.len() + untold(s) <= ins.len()
}

proof fn lemma_promises_timeout(
    mode: Mode,
    window: Nanos,
    s: DebouncerView,
    ins: Seq<KeyEvent>,
    out: Seq<KeyEvent>,
    then: int,
    now: int,
)
    requires
        keeps_promises(mode, window, s, ins, out, then),
        then <= now,
        s.timeout_fits(now),
    ensures
        keeps_promises(mode, window, s.after_timeout(now), ins, out + s.timeout_edges(now), now),
{
    reveal(keeps_promises);
    lemma_follows_timeout(mode, window, s, ins, out, then, now);
    lemma_backed_timeout(mode, window, s, ins, out, then, now);
    lemma_apart_timeout(mode, window, s, ins, out, then, now);
    lemma_untold_timeout(s, now);
}

proof fn lemma_promises_key(
    mode: Mode,
    window: Nanos,
    s: DebouncerView,
    ins: Seq<KeyEvent>,
    out: Seq<KeyEvent>,
    e: KeyEvent,
)
    requires
        keeps_promises(mode, window, s, ins, out, e.time as int),
        s.key_fits(e.time, e.key, e.down),
    ensures
        keeps_promises(
            mode,
            window,
            s.after_key(e.time, e.key, e.down),
            ins.push(e),
            out + s.key_edges(e.time, e.key, e.down),
            e.time as int,
        ),
{
    reveal(keeps_promises);
    lemma_follows_key(mode, window, s, ins, out, e);
    lemma_backed_key(mode, window, s, ins, out, e);
    lemma_apart_key(mode, window, s, ins, out, e);
    lemma_untold_key(s, e);
}

proof fn lemma_promises_step(
    mode: Mode,
    window: Nanos,
    s: DebouncerView,
    ins: Seq<KeyEvent>,
    out: Seq<KeyEvent>,
    then: int,
    step: Step,
)
    requires
        keeps_promises(mode, window, s, ins, out, then),
        then <= step.time(),
        trace::step_fits(s, step),
    ensures
        keeps_promises(
            mode,
            window,
            trace::stepped(s, step),
            match step {
                Step::Input(e) => ins.push(e),
                Step::Tick(_) => ins,
            },
            out + trace::step_edges(s, step),
            step.time(),
        ),
{
    let now = step.time();
    lemma_promises_timeout(mode, window, s, ins, out, then, now);
    if let Step::Input(e) = step {
        let m = s.after_timeout(now);
        let mid = out + s.timeout_edges(now);
        lemma_promises_key(mode, window, m, ins, mid, e);
        assert(out + trace::step_edges(s, step) =~= mid + m.key_edges(e.time, e.key, e.down));
    }
}

proof fn lemma_no_promises_yet(mode: Mode, window: Nanos)
    ensures
        keeps_promises(
            mode,
            window,
            DebouncerView::fresh(mode, window),
            Seq::empty(),
            Seq::empty(),
            0,
        ),
{
    reveal(keeps_promises);
    let fresh = DebouncerView::fresh(mode, window);
    let none = |k: KeyCode| fresh.key(k).physical != fresh.key(k).logical;
    lemma_counted_none(none, 0x1_0000);
    assert(untold(fresh) == 0);
}

proof fn lemma_keeps_promises(mode: Mode, window: Nanos, steps: Seq<Step>)
    requires
        trace::is_timely(steps),
        trace::play_fits(DebouncerView::fresh(mode, window), steps),
    ensures
        keeps_promises(
            mode,
            window,
            trace::played(DebouncerView::fresh(mode, window), steps),
            inputs(steps),
            trace::played_edges(DebouncerView::fresh(mode, window), steps),
            clock(steps),
        ),
    decreases steps.len(),
{
    let fresh = DebouncerView::fresh(mode, window);
    if steps.len() == 0 {
        lemma_no_promises_yet(mode, window);
    } else {
        let front = steps.drop_last();
        lemma_timely_front(steps);
        lemma_keeps_promises(mode, window, front);
        if front.len() > 0 {
            assert(steps[front.len() - 1].time() <= steps[steps.len() - 1].time());
        }
        lemma_promises_step(
            mode,
            window,
            trace::played(fresh, front),
            inputs(front),
            trace::played_edges(fresh, front),
            clock(front),
            steps.last(),
        );
    }
}

proof fn lemma_counted_none(pred: spec_fn(KeyCode) -> bool, n: int)
    requires
        forall|k: KeyCode| !(#[trigger] pred(k)),
    ensures
        edges::counted_below(pred, n) == 0,
    decreases n,
{
    if n > 0 {
        lemma_counted_none(pred, n - 1);
        assert(!pred((n - 1) as KeyCode));
    }
}

/// What holds of a debouncer at any time, given input obeying the contract.
pub proof fn lemma_follows(mode: Mode, window: Nanos, steps: Seq<Step>)
    requires
        trace::is_timely(steps),
        trace::play_fits(DebouncerView::fresh(mode, window), steps),
    ensures
        follows(
            mode,
            window,
            trace::played(DebouncerView::fresh(mode, window), steps),
            inputs(steps),
            trace::played_edges(DebouncerView::fresh(mode, window), steps),
            clock(steps),
        ),
        awaits(trace::played(DebouncerView::fresh(mode, window), steps), inputs(steps)),
{
    reveal(keeps_promises);
    lemma_keeps_promises(mode, window, steps);
}

/// Under `Eager` a key that nothing holds back was last reported at least one window ago.
pub proof fn lemma_eager_is_free(window: Nanos, steps: Seq<Step>, k: KeyCode)
    requires
        trace::is_timely(steps),
        trace::play_fits(DebouncerView::fresh(Mode::Eager, window), steps),
        trace::played(DebouncerView::fresh(Mode::Eager, window), steps).key(k).timer is None,
    ensures
        last_edge(
            trace::played_edges(DebouncerView::fresh(Mode::Eager, window), steps),
            k,
        ) matches Some(e) ==> clock(steps) >= e.time + window,
{
    reveal(keeps_promises);
    lemma_keeps_promises(Mode::Eager, window, steps);
    let s = trace::played(DebouncerView::fresh(Mode::Eager, window), steps);
    assert(s.key(k).timer is None);
}

/// Parity: output levels for a given key strictly alternate, starting with a press.
pub proof fn parity(mode: Mode, window: Nanos, steps: Seq<Step>)
    requires
        trace::is_timely(steps),
        trace::play_fits(DebouncerView::fresh(mode, window), steps),
    ensures
        alternates(trace::played_edges(DebouncerView::fresh(mode, window), steps)),
{
    reveal(keeps_promises);
    lemma_keeps_promises(mode, window, steps);
}

/// Monotonicity: output timestamps are weakly monotonic.
pub proof fn monotonicity(mode: Mode, window: Nanos, steps: Seq<Step>)
    requires
        trace::is_timely(steps),
        trace::play_fits(DebouncerView::fresh(mode, window), steps),
    ensures
        in_time(trace::played_edges(DebouncerView::fresh(mode, window), steps)),
{
    reveal(keeps_promises);
    lemma_keeps_promises(mode, window, steps);
}

/// Consistency: every output event has a corresponding input event of the same key and level with
/// a timestamp in the range `[t_out - w, t_out]`, and there are no more output events than input
/// events.
pub proof fn consistency(mode: Mode, window: Nanos, steps: Seq<Step>)
    requires
        trace::is_timely(steps),
        trace::play_fits(DebouncerView::fresh(mode, window), steps),
    ensures
        backed(
            trace::played_edges(DebouncerView::fresh(mode, window), steps),
            inputs(steps),
            window,
        ),
        trace::played_edges(DebouncerView::fresh(mode, window), steps).len() <= inputs(steps).len(),
{
    reveal(keeps_promises);
    lemma_keeps_promises(mode, window, steps);
}

/// Convergence: once the input of a key has been quiet for `w` and the timers have been drained, the
/// downstream level, which is also what [`crate::debounce::Debouncer::is_down`] tells, matches the
/// physical level of the key, whatever the other keys do.
pub proof fn convergence(mode: Mode, window: Nanos, steps: Seq<Step>, now: nat, k: KeyCode)
    requires
        trace::is_timely(steps.push(Step::Tick(now))),
        trace::play_fits(DebouncerView::fresh(mode, window), steps.push(Step::Tick(now))),
        forall|j: int|
            0 <= j < inputs(steps).len() && (#[trigger] inputs(steps)[j]).key == k ==> inputs(
                steps,
            )[j].time + window <= now,
    ensures
        ({
            let fresh = DebouncerView::fresh(mode, window);
            let all = steps.push(Step::Tick(now));
            &&& level(trace::played_edges(fresh, all), k) == level(inputs(steps), k)
            &&& trace::played(fresh, all).key(k).logical == level(inputs(steps), k)
        }),
{
    let fresh = DebouncerView::fresh(mode, window);
    let all = steps.push(Step::Tick(now));
    lemma_keeps_promises(mode, window, all);
    assert(all.drop_last() =~= steps);
    let s = trace::played(fresh, steps);
    let t = trace::played(fresh, all);
    lemma_timely_front(all);
    reveal(keeps_promises);
    lemma_keeps_promises(mode, window, steps);
    timing::lemma_timeout_key(s, now as int, k);
    assert(t.key(k).logical == level(trace::played_edges(fresh, all), k));
    assert(t.key(k).physical == level(inputs(all), k));
    assert(t.key(k).valid(mode));
    if t.key(k).physical != t.key(k).logical {
        assert(t.key(k) == s.key(k));
        let j = choose|j: int|
            0 <= j < inputs(steps).len() && backs(
                #[trigger] inputs(steps)[j],
                k,
                s.key(k).physical,
                s.key(k).timer->0.deadline as int,
                s.window,
            );
        assert(inputs(steps)[j].time + window <= now);
    }
}

/// Convergence: whenever no timer runs, the downstream level matches the physical level on every
/// key.
pub proof fn convergence_when_quiet(mode: Mode, window: Nanos, steps: Seq<Step>, k: KeyCode)
    requires
        trace::is_timely(steps),
        trace::play_fits(DebouncerView::fresh(mode, window), steps),
        trace::played(DebouncerView::fresh(mode, window), steps).is_quiet(),
    ensures
        level(trace::played_edges(DebouncerView::fresh(mode, window), steps), k) == level(
            inputs(steps),
            k,
        ),
{
    reveal(keeps_promises);
    lemma_keeps_promises(mode, window, steps);
    let s = trace::played(DebouncerView::fresh(mode, window), steps);
    assert(s.key(k).valid(mode));
    assert(s.key(k).timer is None);
    assert(s.key(k).physical == level(inputs(steps), k));
}

pub proof fn lemma_timely_front(steps: Seq<Step>)
    requires
        steps.len() > 0,
        trace::is_timely(steps),
    ensures
        trace::is_timely(steps.drop_last()),
{
    let front = steps.drop_last();
    assert forall|i: int, j: int| 0 <= i <= j < front.len() implies (#[trigger] front[i]).time()
        <= (#[trigger] front[j]).time() by {
        assert(steps[i].time() <= steps[j].time());
    }
}

/// Suppression: two consecutive presses of the same key are at least `w` apart.
pub proof fn suppression_of_presses(mode: Mode, window: Nanos, steps: Seq<Step>)
    requires
        trace::is_timely(steps),
        trace::play_fits(DebouncerView::fresh(mode, window), steps),
    ensures
        presses_apart(trace::played_edges(DebouncerView::fresh(mode, window), steps), window),
{
    reveal(keeps_promises);
    lemma_keeps_promises(mode, window, steps);
    let out = trace::played_edges(DebouncerView::fresh(mode, window), steps);
    if mode != Mode::Mixed {
        assert forall|i: int| 0 <= i < out.len() && (#[trigger] out[i]).down implies (last_press(
            out.take(i),
            out[i].key,
        ) matches Some(p) ==> out[i].time >= p.time + window) by {
            let front = out.take(i);
            assert forall|a: int, b: int| 0 <= a <= b < front.len() implies (
            #[trigger] front[a]).time <= (#[trigger] front[b]).time by {
                assert(out[a].time <= out[b].time);
            }
            lemma_last_press(front, out[i].key);
        }
    }
}

/// Suppression: under `Eager` and `Defer` any two consecutive edges of the same key are at least
/// `w` apart.
pub proof fn suppression_of_edges(mode: Mode, window: Nanos, steps: Seq<Step>)
    requires
        mode != Mode::Mixed,
        trace::is_timely(steps),
        trace::play_fits(DebouncerView::fresh(mode, window), steps),
    ensures
        edges_apart(trace::played_edges(DebouncerView::fresh(mode, window), steps), window),
{
    reveal(keeps_promises);
    lemma_keeps_promises(mode, window, steps);
}

} // verus!
