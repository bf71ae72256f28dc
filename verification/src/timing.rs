//! What it does to a debouncer to have its timers run out sooner, later, or bit by bit.

use crate::debounce::DebouncerView;
use crate::edges;
use crate::edges::{KeyCode, KeyEvent, Nanos};
use vstd::prelude::*;

verus! {

/// A time after every deadline, and after the end of every lockout that starts at one.
pub open spec fn forever() -> nat {
    2 * 0x1_0000_0000_0000_0000
}

/// How much is left for the timers to do: one for each timer, and one more for each lockout that
/// will start another.
pub open spec fn timers_left(s: DebouncerView) -> nat {
    edges::counted(|k: KeyCode| s.key(k).timer is Some) + edges::counted(
        |k: KeyCode| s.key(k).rearms(forever() as int),
    )
}

/// Each key expires on its own.
pub proof fn lemma_timeout_key(s: DebouncerView, now: int, k: KeyCode)
    ensures
        s.after_timeout(now).key(k) == s.key(k).expired(s.window, now),
{
}

/// The edges that timers report are in order before they are held to the time of the last one.
pub proof fn lemma_due_edges(s: DebouncerView, now: int)
    ensures
        edges::picks_own(s.due_edges(now)),
        edges::in_order(edges::gathered(s.due_edges(now))),
        forall|e: KeyEvent| #[trigger]
            edges::gathered(s.due_edges(now)).contains(e) <==> s.key(e.key).due_edge(e.key, now)
                == Some(e),
        s.timeout_edges(now).len() == edges::gathered(s.due_edges(now)).len(),
        forall|i: int|
            0 <= i < s.timeout_edges(now).len() ==> #[trigger] s.timeout_edges(now)[i] == (
            KeyEvent {
                time: crate::debounce::later_of(
                    edges::gathered(s.due_edges(now))[i].time,
                    s.last_emit,
                ),
                ..edges::gathered(s.due_edges(now))[i]
            }),
{
    edges::lemma_gathered(s.due_edges(now));
}

/// A timeout at which no timer has run out changes nothing and reports nothing.
pub proof fn lemma_nothing_due(s: DebouncerView, now: int)
    requires
        forall|k: KeyCode| !(#[trigger] s.key(k)).is_due(now),
    ensures
        s.after_timeout(now) == s,
        s.timeout_edges(now) == Seq::<KeyEvent>::empty(),
{
    lemma_due_edges(s, now);
    let g = edges::gathered(s.due_edges(now));
    if g.len() > 0 {
        assert(g.contains(g[0]));
        assert(!s.key(g[0].key).is_due(now));
    }
    assert(s.timeout_edges(now) =~= Seq::empty());
    assert forall|k: KeyCode| s.keys.contains_key(k) implies #[trigger] s.after_timeout(now).keys[k]
        == s.keys[k] by {
        assert(!s.key(k).is_due(now));
    }
    assert(s.after_timeout(now) =~= s);
}

/// Having the timers run out up to `a` and then up to `b` comes to the same as having them run out
/// up to `b` at once: the same edges are reported, at the same times, in the same order.
pub proof fn timeouts_compose(s: DebouncerView, a: int, b: int)
    requires
        a <= b,
        s.timeout_fits(b),
    ensures
        s.timeout_fits(a),
        s.after_timeout(a).timeout_fits(b),
        s.after_timeout(a).after_timeout(b) == s.after_timeout(b),
        s.timeout_edges(a) + s.after_timeout(a).timeout_edges(b) == s.timeout_edges(b),
{
    let m = s.after_timeout(a);
    assert forall|k: KeyCode| (#[trigger] s.key(k)).rearms(a) implies s.key(k).timer->0.deadline
        + s.window <= Nanos::MAX by {
        assert(s.key(k).rearms(b));
    }
    assert forall|k: KeyCode| (#[trigger] m.key(k)).rearms(b) implies m.key(k).timer->0.deadline
        + m.window <= Nanos::MAX by {
        assert(s.key(k).rearms(a) ==> s.key(k).rearms(b));
        if !s.key(k).is_due(a) {
            assert(s.key(k).rearms(b));
        }
    }
    lemma_due_edges(s, a);
    lemma_due_edges(s, b);
    lemma_due_edges(m, b);
    let ga = edges::gathered(s.due_edges(a));
    let gm = edges::gathered(m.due_edges(b));
    let gb = edges::gathered(s.due_edges(b));
    let both = ga + gm;
    assert forall|e: KeyEvent| #[trigger] both.contains(e) <==> gb.contains(e) by {
        let x = s.key(e.key);
        assert(m.key(e.key) == x.expired(s.window, a));
        assert(ga.contains(e) <==> x.due_edge(e.key, a) == Some(e));
        assert(gm.contains(e) <==> m.key(e.key).due_edge(e.key, b) == Some(e));
        assert(gb.contains(e) <==> x.due_edge(e.key, b) == Some(e));
        if both.contains(e) {
            let i = both.index_of(e);
            if i < ga.len() {
                assert(ga[i] == e);
                assert(ga.contains(e));
            } else {
                assert(gm[i - ga.len()] == e);
                assert(gm.contains(e));
            }
        }
        if ga.contains(e) {
            assert(both[ga.index_of(e)] == e);
        }
        if gm.contains(e) {
            assert(both[ga.len() + gm.index_of(e)] == e);
        }
    }
    assert forall|i: int| 0 <= i < ga.len() implies (#[trigger] ga[i]).time <= a by {
        assert(ga.contains(ga[i]));
    }
    assert forall|i: int| 0 <= i < gm.len() implies (#[trigger] gm[i]).time > a by {
        assert(gm.contains(gm[i]));
        let k = gm[i].key;
        assert(m.key(k) == s.key(k).expired(s.window, a));
    }
    assert forall|i: int, j: int| 0 <= i < j < both.len() implies edges::earlier(
        #[trigger] both[i],
        #[trigger] both[j],
    ) by {
        if j < ga.len() {
            assert(edges::earlier(ga[i], ga[j]));
        } else if i >= ga.len() {
            assert(edges::earlier(gm[i - ga.len()], gm[j - ga.len()]));
        } else {
            assert(ga[i].time <= a);
            assert(gm[j - ga.len()].time > a);
        }
    }
    edges::lemma_in_order_unique(both, gb);
    assert(s.timeout_edges(a) + m.timeout_edges(b) =~= s.timeout_edges(b)) by {
        assert forall|i: int| 0 <= i < gm.len() implies #[trigger] m.timeout_edges(b)[i]
            == s.timeout_edges(b)[ga.len() + i] by {
            assert(gb[ga.len() + i] == gm[i]);
            assert(gm[i].time > a);
            if ga.len() > 0 {
                assert(ga[ga.len() - 1].time <= a);
            }
        }
    }
    assert forall|k: KeyCode| s.keys.contains_key(k) implies #[trigger] m.after_timeout(b).keys[k]
        == s.after_timeout(b).keys[k] by {
        assert(m.keys[k] == s.keys[k].expired(s.window, a));
        assert(s.key(k) == s.keys[k]);
        assert(s.key(k).rearms(a) ==> s.key(k).rearms(b));
    }
    assert(m.after_timeout(b) =~= s.after_timeout(b));
}

/// When some timer runs out, less is left to do.
pub proof fn lemma_timers_left(s: DebouncerView, now: int, k: KeyCode)
    requires
        s.key(k).is_due(now),
        now <= Nanos::MAX,
    ensures
        timers_left(s.after_timeout(now)) < timers_left(s),
{
    let t = s.after_timeout(now);
    let timer_s = |j: KeyCode| s.key(j).timer is Some;
    let timer_t = |j: KeyCode| t.key(j).timer is Some;
    let rearm_s = |j: KeyCode| s.key(j).rearms(forever() as int);
    let rearm_t = |j: KeyCode| t.key(j).rearms(forever() as int);
    assert forall|j: KeyCode| #[trigger] timer_t(j) implies timer_s(j) by {
        lemma_timeout_key(s, now, j);
    }
    assert forall|j: KeyCode| #[trigger] rearm_t(j) implies rearm_s(j) by {
        lemma_timeout_key(s, now, j);
    }
    edges::lemma_counted_less(timer_t, timer_s, 0x1_0000);
    edges::lemma_counted_less(rearm_t, rearm_s, 0x1_0000);
    lemma_timeout_key(s, now, k);
    assert(timer_s(k));
    if timer_t(k) {
        assert(rearm_s(k) && !rearm_t(k));
    }
}

} // verus!
