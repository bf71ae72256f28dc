//! What the pipeline carries through and what it keeps back.

use crate::debounce::{DebouncerView, KeyState, Mode};
use crate::edges;
use crate::edges::{KeyCode, KeyEvent, Nanos};
use crate::event;
use crate::event::{InputEvent, Summary};
use crate::event::{EV_KEY, EV_MSC, EV_SYN, MSC_SCAN, SYN_DROPPED, SYN_REPORT};
use crate::cli::KeyFilter;
use crate::codes;
use crate::guarantees;
use crate::pipeline;
use crate::pipeline::{Fed, PipelineView, Stats, AUTOREPEAT};
use crate::timing;
use crate::trace;
use crate::trace::Step;
use vstd::prelude::*;

verus! {

/// As far as the keys that are debounced go, the debouncer knows which are down.
pub open spec fn in_touch(s: PipelineView) -> bool {
    forall|k: KeyCode|
        s.filter.covers(k) ==> (#[trigger] s.deb.key(k)).physical == s.down.contains(k)
}

/// No more edges come at once than there are keys.
proof fn lemma_edge_counts(deb: DebouncerView, now: Nanos)
    ensures
        deb.timeout_edges(now as int).len() <= 0x1_0000,
        deb.release_edges(now).len() <= 0x1_0000,
{
    timing::lemma_due_edges(deb, now as int);
    edges::lemma_gathered_len(deb.due_edges(now as int), 0x1_0000);
    edges::lemma_gathered_len(deb.held_edges(now), 0x1_0000);
    lemma_counted_at_most(|k: KeyCode| deb.due_edges(now as int)(k) is Some, 0x1_0000);
    lemma_counted_at_most(|k: KeyCode| deb.held_edges(now)(k) is Some, 0x1_0000);
}

proof fn lemma_counted_at_most(pred: spec_fn(KeyCode) -> bool, n: int)
    requires
        n >= 0,
    ensures
        edges::counted_below(pred, n) <= n,
    decreases n,
{
    if n > 0 {
        lemma_counted_at_most(pred, n - 1);
    }
}

/// As long as there is room to count, there is room for exactly what fits: what cannot be timed is
/// all that is turned away.
pub proof fn room_is_what_fits(
    s: PipelineView,
    time: Nanos,
    event: InputEvent,
    held: Seq<KeyCode>,
)
    requires
        s.counter_room(),
    ensures
        s.tick_room(time) <==> s.tick_fits(time),
        s.feed_room(event, time) <==> s.feed_fits(event, time),
        s.resync_room(held, time) <==> s.resync_fits(held, time),
        s.counts(s.deb.release_edges(time)),
{
    lemma_edge_counts(s.deb, time);
    let pred = |k: KeyCode| s.down.contains(k) != held.contains(k);
    codes::lemma_codes_below(pred, 0x1_0000);
    let t = s.after_tick(time);
    let missed = s.missed(held);
    assert(forall|k: KeyCode| #[trigger] missed.contains(k) <==> pred(k));
    lemma_keys_fit(t, missed, held, time);
    assert(t.keys_fit(missed, held, time) <==> forall|k: KeyCode|
        s.filter.covers(k) && #[trigger] s.down.contains(k) != held.contains(k) ==> t.deb.key_fits(
            time,
            k,
            held.contains(k),
        )) by {
        if t.keys_fit(missed, held, time) {
            assert forall|k: KeyCode|
                s.filter.covers(k) && #[trigger] s.down.contains(k) != held.contains(
                    k,
                ) implies t.deb.key_fits(time, k, held.contains(k)) by {
                assert(pred(k));
                assert(missed.contains(k));
                let i = missed.index_of(k);
                assert(t.filter.covers(missed[i]));
            }
        } else {
            let i = choose|i: int|
                0 <= i < missed.len() && t.filter.covers(#[trigger] missed[i])
                    && !t.deb.key_fits(time, missed[i], held.contains(missed[i]));
            assert(missed.contains(missed[i]));
            assert(pred(missed[i]));
            assert(s.down.contains(missed[i]) != held.contains(missed[i]));
        }
    }
}

/// There is room to count for as long as no counter is half full, and to time whatever stays one
/// window away from the last time that can be told.
pub proof fn there_is_room_for_long(s: PipelineView, time: Nanos, key: KeyCode, down: bool)
    ensures
        s.stats.edges_in < 0x8000_0000_0000_0000 && s.stats.edges_out < 0x8000_0000_0000_0000
            && s.stats.repeats_dropped < 0x8000_0000_0000_0000 ==> s.counter_room(),
        (forall|k: KeyCode|
            (#[trigger] s.deb.key(k)).timer matches Some(timer) ==> timer.deadline + s.deb.window
                <= Nanos::MAX) ==> s.deb.timeout_fits(time as int),
        time + s.deb.window <= Nanos::MAX ==> s.deb.key_fits(time, key, down),
{
}

/// Whatever the event is, and whichever keys are held, it is taken as long as there is room to count
/// and it stays one window away from the last time that can be told, as the timers do.
pub proof fn whatever_can_be_timed_is_taken(
    s: PipelineView,
    time: Nanos,
    event: InputEvent,
    held: Seq<KeyCode>,
)
    requires
        s.counter_room(),
        time + s.deb.window <= Nanos::MAX,
        forall|k: KeyCode|
            (#[trigger] s.deb.key(k)).timer matches Some(timer) ==> timer.deadline + s.deb.window
                <= Nanos::MAX,
    ensures
        s.tick_room(time) && s.tick_fits(time),
        s.feed_room(event, time) && s.feed_fits(event, time),
        s.resync_room(held, time) && s.resync_fits(held, time),
{
    there_is_room_for_long(s, time, event.code, event.value != 0);
    room_is_what_fits(s, time, event, held);
}

/// Key events for different keys do not get in each other's way.
proof fn lemma_keys_fit(s: PipelineView, keys: Seq<KeyCode>, held: Seq<KeyCode>, time: Nanos)
    requires
        codes::ascending(keys),
        s.stats.edges_in + keys.len() <= u64::MAX,
        s.stats.edges_out + keys.len() <= u64::MAX,
    ensures
        s.keys_fit(keys, held, time) <==> forall|i: int|
            0 <= i < keys.len() && s.filter.covers(#[trigger] keys[i]) ==> s.deb.key_fits(
                time,
                keys[i],
                held.contains(keys[i]),
            ),
        s.after_keys(keys, held, time).filter == s.filter,
        s.after_keys(keys, held, time).deb.mode == s.deb.mode,
        s.after_keys(keys, held, time).deb.window == s.deb.window,
        forall|k: KeyCode|
            !keys.contains(k) ==> #[trigger] s.after_keys(keys, held, time).deb.key(k)
                == s.deb.key(k),
        s.after_keys(keys, held, time).stats.edges_in <= s.stats.edges_in + keys.len(),
        s.after_keys(keys, held, time).stats.edges_out <= s.stats.edges_out + keys.len(),
    decreases keys.len(),
{
    if keys.len() > 0 {
        let front = keys.drop_last();
        let key = keys.last();
        assert forall|i: int, j: int| 0 <= i < j < front.len() implies #[trigger] front[i]
            < #[trigger] front[j] by {
            assert(keys[i] < keys[j]);
        }
        lemma_keys_fit(s, front, held, time);
        let t = s.after_keys(front, held, time);
        assert(!front.contains(key)) by {
            if front.contains(key) {
                let i = front.index_of(key);
                assert(keys[i] < keys[keys.len() - 1]);
            }
        }
        assert(t.deb.key(key) == s.deb.key(key));
        assert(keys[keys.len() - 1] == key);
        assert forall|i: int| 0 <= i < front.len() implies #[trigger] front[i] == keys[i] by {}
        let value = pipeline::level_value(held.contains(key));
        assert(t.deb.key_edges(time, key, value != 0).len() <= 1);
        assert(t.key_fits(key, value, time) <==> (s.filter.covers(key) ==> s.deb.key_fits(
            time,
            key,
            held.contains(key),
        )));
        if s.keys_fit(keys, held, time) {
            assert forall|i: int|
                0 <= i < keys.len() && s.filter.covers(#[trigger] keys[i]) implies s.deb.key_fits(
                time,
                keys[i],
                held.contains(keys[i]),
            ) by {
                if i < front.len() {
                    assert(s.filter.covers(front[i]));
                }
            }
        } else if s.keys_fit(front, held, time) {
            assert(s.filter.covers(keys[keys.len() - 1]));
        } else {
            let i = choose|i: int|
                0 <= i < front.len() && s.filter.covers(#[trigger] front[i]) && !s.deb.key_fits(
                    time,
                    front[i],
                    held.contains(front[i]),
                );
            assert(s.filter.covers(keys[i]));
        }
        assert forall|k: KeyCode| !keys.contains(k) implies #[trigger] s.after_keys(
            keys,
            held,
            time,
        ).deb.key(k) == s.deb.key(k) by {
            if front.contains(k) {
                assert(keys[front.index_of(k)] == k);
            }
            assert(t.deb.key(k) == s.deb.key(k));
        }
    }
}

/// Running out timers leaves the pipeline in touch.
pub proof fn ticking_stays_in_touch(s: PipelineView, now: Nanos)
    requires
        in_touch(s),
    ensures
        in_touch(s.after_tick(now)),
{
    assert forall|k: KeyCode| s.filter.covers(k) implies (#[trigger] s.after_tick(now).deb.key(
        k,
    )).physical == s.down.contains(k) by {
        timing::lemma_timeout_key(s.deb, now as int, k);
        assert(s.deb.key(k).physical == s.down.contains(k));
    }
}

proof fn lemma_key_in_touch(s: PipelineView, key: KeyCode, value: i32, time: Nanos)
    requires
        in_touch(s),
    ensures
        in_touch(s.after_key(key, value, time)),
{
    let t = s.after_key(key, value, time);
    assert forall|k: KeyCode| t.filter.covers(k) implies (#[trigger] t.deb.key(k)).physical
        == t.down.contains(k) by {
        assert(s.deb.key(k).physical == s.down.contains(k));
    }
}

/// Feeding events leaves the pipeline in touch.
pub proof fn feeding_stays_in_touch(s: PipelineView, event: InputEvent, time: Nanos)
    requires
        in_touch(s),
    ensures
        in_touch(s.after_feed(event, time)),
{
    ticking_stays_in_touch(s, time);
    let t = s.after_tick(time);
    if let Summary::Key(key, value) = event::summary_of(event) {
        lemma_key_in_touch(t, key, value, time);
    }
    let u = s.after_feed(event, time);
    assert forall|k: KeyCode| u.filter.covers(k) implies (#[trigger] u.deb.key(k)).physical
        == u.down.contains(k) by {
        assert(t.deb.key(k).physical == t.down.contains(k));
        if let Summary::Key(key, value) = event::summary_of(event) {
            assert(t.after_key(key, value, time).deb.key(k).physical == t.after_key(
                key,
                value,
                time,
            ).down.contains(k));
        }
    }
}

proof fn lemma_after_keys(s: PipelineView, keys: Seq<KeyCode>, held: Seq<KeyCode>, time: Nanos)
    ensures
        in_touch(s) ==> in_touch(s.after_keys(keys, held, time)),
        forall|k: KeyCode| #[trigger]
            s.after_keys(keys, held, time).down.contains(k) <==> if keys.contains(k) {
                held.contains(k)
            } else {
                s.down.contains(k)
            },
    decreases keys.len(),
{
    if keys.len() > 0 {
        let front = keys.drop_last();
        lemma_after_keys(s, front, held, time);
        let t = s.after_keys(front, held, time);
        let key = keys.last();
        let value = pipeline::level_value(held.contains(key));
        if in_touch(s) {
            lemma_key_in_touch(t, key, value, time);
        }
        assert forall|k: KeyCode| #[trigger]
            t.after_key(key, value, time).down.contains(k) <==> if keys.contains(k) {
                held.contains(k)
            } else {
                s.down.contains(k)
            } by {
            assert(t.down.contains(k) <==> if front.contains(k) {
                held.contains(k)
            } else {
                s.down.contains(k)
            });
            if front.contains(k) {
                assert(keys[front.index_of(k)] == k);
            }
            if keys.contains(k) && k != key {
                assert(front[keys.index_of(k)] == k);
            }
            if k == key {
                assert(keys[keys.len() - 1] == k);
            }
        }
    }
}

/// After a resync exactly the keys that are held are known to be down, and a pipeline in touch
/// stays so: whatever edges were missed have been made up.
pub proof fn resync_catches_up(s: PipelineView, held: Seq<KeyCode>, time: Nanos)
    ensures
        forall|k: KeyCode| #[trigger]
            s.after_resync(held, time).down.contains(k) <==> held.contains(k),
        in_touch(s) ==> in_touch(s.after_resync(held, time)),
{
    let pred = |k: KeyCode| s.down.contains(k) != held.contains(k);
    codes::lemma_codes_below(pred, 0x1_0000);
    lemma_after_keys(s.after_tick(time), s.missed(held), held, time);
    if in_touch(s) {
        ticking_stays_in_touch(s, time);
    }
    assert forall|k: KeyCode| #[trigger]
        s.after_resync(held, time).down.contains(k) <==> held.contains(k) by {
        assert(s.missed(held).contains(k) <==> pred(k));
    }
}

/// A resync that finds every key the way it is known to be does nothing but run out timers.
pub proof fn resync_without_misses_is_a_tick(s: PipelineView, held: Seq<KeyCode>, time: Nanos)
    requires
        forall|k: KeyCode| #[trigger] s.down.contains(k) <==> held.contains(k),
    ensures
        s.after_resync(held, time) == s.after_tick(time),
{
    let pred = |k: KeyCode| s.down.contains(k) != held.contains(k);
    codes::lemma_codes_below(pred, 0x1_0000);
    let missed = s.missed(held);
    if missed.len() > 0 {
        assert(missed.contains(missed[0]));
        assert(pred(missed[0]));
    }
}

/// From a drop on, all is skipped up to and with the report that ends the packet, but timers still
/// run out; that report is not told to the caller.
pub proof fn partial_packet_is_skipped(s: PipelineView, event: InputEvent, time: Nanos)
    requires
        s.discarding,
    ensures
        s.fed(event) == Fed::Nothing,
        s.after_feed(event, time) == (PipelineView {
            discarding: !(event.kind == EV_SYN && event.code == SYN_REPORT),
            ..s.after_tick(time)
        }),
{
}

/// A drop outside of a partial packet starts one, and tells the caller to resync.
pub proof fn drop_asks_for_a_resync(s: PipelineView, event: InputEvent, time: Nanos)
    requires
        !s.discarding,
        event.kind == EV_SYN && event.code == SYN_DROPPED,
    ensures
        s.fed(event) == Fed::Dropped,
        s.after_feed(event, time) == (PipelineView {
            discarding: true,
            pending_scan: None,
            ..s.after_tick(time)
        }),
{
}

/// Autorepeat from the source is dropped: it changes neither what is sent on nor which keys are
/// down, and is not taken for an edge.
pub proof fn autorepeat_is_dropped(s: PipelineView, event: InputEvent, time: Nanos)
    requires
        event.kind == EV_KEY && event.value == AUTOREPEAT,
        !s.discarding,
        s.stats.repeats_dropped < u64::MAX,
    ensures
        ({
            let t = s.after_feed(event, time);
            let ticked = s.after_tick(time);
            &&& s.fed(event) == Fed::Nothing
            &&& t.deb == ticked.deb
            &&& t.out == ticked.out
            &&& t.down == ticked.down
            &&& t.stats == (Stats {
                repeats_dropped: (s.stats.repeats_dropped + 1) as u64,
                ..ticked.stats
            })
        }),
{
}

/// A key that the filter leaves out is sent on as it is, at once, with the scancode of its packet,
/// and the debouncer never hears of it.
pub proof fn uncovered_key_is_forwarded(s: PipelineView, event: InputEvent, time: Nanos)
    requires
        !s.discarding,
        event.kind == EV_KEY,
        !s.filter.covers(event.code),
        event.value != AUTOREPEAT,
    ensures
        ({
            let t = s.after_feed(event, time);
            let ticked = s.after_tick(time);
            &&& t.deb == ticked.deb
            &&& t.stats == ticked.stats
            &&& t.out == ticked.out + pipeline::sent(s.pending_scan, event.code, event.value)
        }),
{
}

/// Nothing but keys, scancodes and other miscellaneous events is carried through; echoes of what
/// the keyboard was sent are not.
pub proof fn other_types_are_not_forwarded(s: PipelineView, event: InputEvent, time: Nanos)
    requires
        event.kind != EV_SYN && event.kind != EV_KEY && event.kind != EV_MSC,
    ensures
        s.fed(event) == Fed::Nothing,
        s.after_feed(event, time) == s.after_tick(time),
{
}

/// A miscellaneous event that is no scancode is sent on as it came, timestamp and all.
pub proof fn misc_is_forwarded_as_it_came(s: PipelineView, event: InputEvent, time: Nanos)
    requires
        !s.discarding,
        event.kind == EV_MSC && event.code != MSC_SCAN,
    ensures
        s.fed(event) == Fed::Nothing,
        s.after_feed(event, time) == (PipelineView {
            out: s.after_tick(time).out.push(event),
            ..s.after_tick(time)
        }),
{
}

/// A scancode goes with the key event that follows it: with the key itself if the filter leaves it
/// out, and with every edge that is reported of it from then on, however late.
pub proof fn scancode_sticks_to_its_key(
    s: PipelineView,
    scan: InputEvent,
    key: InputEvent,
    time: Nanos,
)
    requires
        scan.kind == EV_MSC && scan.code == MSC_SCAN,
        key.kind == EV_KEY,
        !s.discarding,
    ensures
        ({
            let t = s.after_feed(scan, time);
            let u = t.after_feed(key, time);
            &&& t.out == s.after_tick(time).out
            &&& u.scans == s.scans.insert(key.code, scan.value)
            &&& u.pending_scan is None
        }),
{
}

/// Losing the device releases every debounced key that downstream holds: each gets a release that
/// is sent on, and then none is down or waits for anything.
pub proof fn release_reaches_downstream(s: PipelineView, now: Nanos, k: KeyCode)
    ensures
        s.after_release(now).deb.key(k) == KeyState::idle(),
        s.after_release(now).pending_scan is None,
        s.deb.key(k).logical ==> s.after_release(now).out.contains(
            event::made(EV_KEY, k, 0),
        ),
        (forall|j: KeyCode| !(#[trigger] s.deb.key(j)).logical) ==> s.after_release(now).out
            == s.out,
{
    let tail = s.deb.release_edges(now);
    let g = edges::gathered(s.deb.held_edges(now));
    edges::lemma_gathered(s.deb.held_edges(now));
    if s.deb.key(k).logical {
        let e = KeyEvent { time: now, key: k, down: false };
        assert(s.deb.held_edges(now)(k) == Some(e));
        assert(g.contains(e));
        let i = g.index_of(e);
        assert(tail[i].key == k && !tail[i].down);
        lemma_sent_contains(s.scans, tail, i);
        let sent = pipeline::all_sent(s.scans, tail);
        let event = event::made(EV_KEY, k, 0);
        let m = sent.index_of(event);
        assert(s.after_release(now).out[s.out.len() + m] == event);
    }
    if forall|j: KeyCode| !(#[trigger] s.deb.key(j)).logical {
        if g.len() > 0 {
            assert(g.contains(g[0]));
            assert(!s.deb.key(g[0].key).logical);
        }
        assert(tail =~= Seq::empty());
        assert(s.after_release(now).out =~= s.out);
    }
}

/// Every edge is among what is sent.
proof fn lemma_sent_contains(scans: Map<KeyCode, i32>, edges: Seq<KeyEvent>, i: int)
    requires
        0 <= i < edges.len(),
    ensures
        pipeline::all_sent(scans, edges).contains(
            event::made(EV_KEY, edges[i].key, pipeline::level_value(edges[i].down)),
        ),
    decreases edges.len(),
{
    let last = edges.last();
    let event = event::made(EV_KEY, edges[i].key, pipeline::level_value(edges[i].down));
    let rest = pipeline::all_sent(scans, edges.drop_last());
    let tail = pipeline::sent(scans.get(last.key), last.key, pipeline::level_value(last.down));
    let all = pipeline::all_sent(scans, edges);
    if i == edges.len() - 1 {
        assert(tail[tail.len() - 1] == event);
        assert(all[all.len() - 1] == event);
    } else {
        lemma_sent_contains(scans, edges.drop_last(), i);
        assert(all[rest.index_of(event)] == event);
    }
}

/// Only keys that are debounced are ever touched.
pub open spec fn leaves_others_alone(s: PipelineView) -> bool {
    forall|k: KeyCode| !s.filter.covers(k) ==> #[trigger] s.deb.key(k) == KeyState::idle()
}

/// What an event is to the debouncer: an edge, or just time passing.
pub open spec fn step_of(s: PipelineView, event: InputEvent, time: Nanos) -> Step {
    match event::summary_of(event) {
        Summary::Key(key, value) if !s.discarding && value != AUTOREPEAT && s.filter.covers(
            key,
        ) => Step::Input(KeyEvent { time, key, down: value != 0 }),
        _ => Step::Tick(time as nat),
    }
}

/// The debounced keys among what is sent on, each with its level.
pub open spec fn levels_sent(filter: KeyFilter, out: Seq<InputEvent>) -> Seq<(KeyCode, bool)>
    decreases out.len(),
{
    if out.len() == 0 {
        Seq::empty()
    } else if out.last().kind == EV_KEY && filter.covers(out.last().code) {
        levels_sent(filter, out.drop_last()).push((out.last().code, out.last().value != 0))
    } else {
        levels_sent(filter, out.drop_last())
    }
}

/// Edges without their times.
pub open spec fn levels(edges: Seq<KeyEvent>) -> Seq<(KeyCode, bool)> {
    edges.map_values(|e: KeyEvent| (e.key, e.down))
}

proof fn lemma_levels_sum(filter: KeyFilter, a: Seq<InputEvent>, b: Seq<InputEvent>)
    ensures
        levels_sent(filter, a + b) == levels_sent(filter, a) + levels_sent(filter, b),
    decreases b.len(),
{
    if b.len() == 0 {
        assert(a + b =~= a);
        assert(levels_sent(filter, a) + levels_sent(filter, b) =~= levels_sent(filter, a));
    } else {
        lemma_levels_sum(filter, a, b.drop_last());
        assert((a + b).drop_last() =~= a + b.drop_last());
        assert((a + b).last() == b.last());
        assert(levels_sent(filter, a + b) =~= levels_sent(filter, a) + levels_sent(filter, b));
    }
}

proof fn lemma_levels_sent(filter: KeyFilter, scan: Option<i32>, key: KeyCode, value: i32)
    ensures
        levels_sent(filter, pipeline::sent(scan, key, value)) == if filter.covers(key) {
            seq![(key, value != 0)]
        } else {
            Seq::empty()
        },
{
    let all = pipeline::sent(scan, key, value);
    let front = all.drop_last();
    assert(all.last() == event::made(EV_KEY, key, value));
    if front.len() > 0 {
        assert(front.last().kind == EV_MSC);
        assert(front.drop_last().len() == 0);
        assert(levels_sent(filter, front.drop_last()) == Seq::<(KeyCode, bool)>::empty());
    }
    assert(levels_sent(filter, front) == Seq::<(KeyCode, bool)>::empty());
    assert(levels_sent(filter, all) =~= if filter.covers(key) {
        seq![(key, value != 0)]
    } else {
        Seq::empty()
    });
}

proof fn lemma_levels_all_sent(filter: KeyFilter, scans: Map<KeyCode, i32>, edges: Seq<KeyEvent>)
    requires
        forall|i: int| 0 <= i < edges.len() ==> filter.covers((#[trigger] edges[i]).key),
    ensures
        levels_sent(filter, pipeline::all_sent(scans, edges)) == levels(edges),
    decreases edges.len(),
{
    if edges.len() == 0 {
        assert(levels(edges) =~= Seq::empty());
    } else {
        let front = edges.drop_last();
        let edge = edges.last();
        assert forall|i: int| 0 <= i < front.len() implies filter.covers(
            (#[trigger] front[i]).key,
        ) by {
            assert(front[i] == edges[i]);
        }
        lemma_levels_all_sent(filter, scans, front);
        let tail = pipeline::sent(scans.get(edge.key), edge.key, pipeline::level_value(edge.down));
        lemma_levels_sum(filter, pipeline::all_sent(scans, front), tail);
        lemma_levels_sent(
            filter,
            scans.get(edge.key),
            edge.key,
            pipeline::level_value(edge.down),
        );
        assert(filter.covers(edges[edges.len() - 1].key));
        assert(levels(edges) =~= levels(front) + seq![(edge.key, edge.down)]);
    }
}

proof fn lemma_tick_is_a_step(s: PipelineView, now: Nanos)
    requires
        leaves_others_alone(s),
    ensures
        leaves_others_alone(s.after_tick(now)),
        levels_sent(s.filter, s.after_tick(now).out) == levels_sent(s.filter, s.out) + levels(
            s.deb.timeout_edges(now as int),
        ),
{
    let tail = s.deb.timeout_edges(now as int);
    timing::lemma_due_edges(s.deb, now as int);
    let g = edges::gathered(s.deb.due_edges(now as int));
    assert forall|i: int| 0 <= i < tail.len() implies s.filter.covers((#[trigger] tail[i]).key) by {
        assert(g.contains(g[i]));
        assert(s.deb.key(g[i].key).due_edge(g[i].key, now as int) is Some);
    }
    lemma_levels_all_sent(s.filter, s.scans, tail);
    lemma_levels_sum(s.filter, s.out, pipeline::all_sent(s.scans, tail));
    assert forall|k: KeyCode| !s.filter.covers(k) implies #[trigger] s.after_tick(now).deb.key(k)
        == KeyState::idle() by {
        timing::lemma_timeout_key(s.deb, now as int, k);
        assert(s.deb.key(k) == KeyState::idle());
    }
}

/// The virtual device sees exactly what the debouncer reports of the debounced keys: an event is to
/// the debouncer an edge, or time passing, and its reports are sent on in their order.
pub proof fn feeding_is_a_step(s: PipelineView, event: InputEvent, time: Nanos)
    requires
        leaves_others_alone(s),
    ensures
        leaves_others_alone(s.after_feed(event, time)),
        s.after_feed(event, time).filter == s.filter,
        s.after_feed(event, time).deb == trace::stepped(s.deb, step_of(s, event, time)),
        levels_sent(s.filter, s.after_feed(event, time).out) == levels_sent(s.filter, s.out)
            + levels(trace::step_edges(s.deb, step_of(s, event, time))),
{
    lemma_tick_is_a_step(s, time);
    let t = s.after_tick(time);
    let u = s.after_feed(event, time);
    let before = levels_sent(s.filter, s.out);
    let ticked = levels(s.deb.timeout_edges(time as int));
    if !s.discarding {
        match event::summary_of(event) {
            Summary::Key(key, value) => {
                if value != AUTOREPEAT {
                    if s.filter.covers(key) {
                        let tail = t.deb.key_edges(time, key, value != 0);
                        let scans = t.scanned(key).scans;
                        assert forall|i: int| 0 <= i < tail.len() implies s.filter.covers(
                            (#[trigger] tail[i]).key,
                        ) by {}
                        lemma_levels_all_sent(s.filter, scans, tail);
                        lemma_levels_sum(s.filter, t.out, pipeline::all_sent(scans, tail));
                        assert(before + ticked + levels(tail) =~= before + levels(
                            trace::step_edges(s.deb, step_of(s, event, time)),
                        ));
                        assert forall|k: KeyCode| !u.filter.covers(k) implies #[trigger] u.deb.key(
                            k,
                        ) == KeyState::idle() by {
                            assert(t.deb.key(k) == KeyState::idle());
                        }
                    } else {
                        lemma_levels_sum(
                            s.filter,
                            t.out,
                            pipeline::sent(t.pending_scan, key, value),
                        );
                        lemma_levels_sent(s.filter, t.pending_scan, key, value);
                        assert(before + ticked + Seq::<(KeyCode, bool)>::empty() =~= before
                            + ticked);
                    }
                }
            },
            Summary::Misc(code, _) => {
                if code != MSC_SCAN {
                    assert(u.out.drop_last() =~= t.out);
                }
            },
            _ => {},
        }
    }
}

/// A pipeline that each of `feed` was fed to in turn.
pub open spec fn fed_all(s: PipelineView, feed: Seq<(InputEvent, Nanos)>) -> PipelineView
    decreases feed.len(),
{
    if feed.len() == 0 {
        s
    } else {
        fed_all(s, feed.drop_last()).after_feed(feed.last().0, feed.last().1)
    }
}

/// What `feed` is to the debouncer.
pub open spec fn steps_of(s: PipelineView, feed: Seq<(InputEvent, Nanos)>) -> Seq<Step>
    decreases feed.len(),
{
    if feed.len() == 0 {
        Seq::empty()
    } else {
        steps_of(s, feed.drop_last()).push(
            step_of(fed_all(s, feed.drop_last()), feed.last().0, feed.last().1),
        )
    }
}

/// Over any feed the debounced keys come out as the debouncer reports them, so that what is
/// guaranteed of its reports is guaranteed of the virtual device.
pub proof fn feed_is_played(s: PipelineView, feed: Seq<(InputEvent, Nanos)>)
    requires
        leaves_others_alone(s),
    ensures
        leaves_others_alone(fed_all(s, feed)),
        fed_all(s, feed).filter == s.filter,
        fed_all(s, feed).deb == trace::played(s.deb, steps_of(s, feed)),
        levels_sent(s.filter, fed_all(s, feed).out) == levels_sent(s.filter, s.out) + levels(
            trace::played_edges(s.deb, steps_of(s, feed)),
        ),
    decreases feed.len(),
{
    let before = levels_sent(s.filter, s.out);
    if feed.len() == 0 {
        assert(levels(trace::played_edges(s.deb, steps_of(s, feed))) =~= Seq::empty());
        assert(before + Seq::<(KeyCode, bool)>::empty() =~= before);
    } else {
        let front = feed.drop_last();
        let (event, time) = feed.last();
        feed_is_played(s, front);
        let t = fed_all(s, front);
        feeding_is_a_step(t, event, time);
        let steps = steps_of(s, front);
        let step = step_of(t, event, time);
        trace::lemma_played_push(s.deb, steps, step);
        assert(before + levels(trace::played_edges(s.deb, steps)) + levels(
            trace::step_edges(t.deb, step),
        ) =~= before + levels(
            trace::played_edges(s.deb, steps) + trace::step_edges(t.deb, step),
        ));
    }
}

/// The statistics count what goes into the debouncer and what comes out of it.
pub proof fn feed_is_counted(s: PipelineView, feed: Seq<(InputEvent, Nanos)>)
    requires
        leaves_others_alone(s),
        s.stats.edges_in + guarantees::inputs(steps_of(s, feed)).len() <= u64::MAX,
        s.stats.edges_out + trace::played_edges(s.deb, steps_of(s, feed)).len() <= u64::MAX,
    ensures
        fed_all(s, feed).stats.edges_in == s.stats.edges_in + guarantees::inputs(
            steps_of(s, feed),
        ).len(),
        fed_all(s, feed).stats.edges_out == s.stats.edges_out + trace::played_edges(
            s.deb,
            steps_of(s, feed),
        ).len(),
    decreases feed.len(),
{
    if feed.len() > 0 {
        let front = feed.drop_last();
        let (event, time) = feed.last();
        let t = fed_all(s, front);
        let steps = steps_of(s, front);
        let step = step_of(t, event, time);
        trace::lemma_played_push(s.deb, steps, step);
        assert(steps.push(step).drop_last() =~= steps);
        feed_is_counted(s, front);
        feed_is_played(s, front);
        let ticked = t.after_tick(time);
        assert(ticked.stats.edges_out == t.stats.edges_out + t.deb.timeout_edges(
            time as int,
        ).len());
    }
}

/// Without a keyboard ever being lost, no more edges are sent than came in, so that what counts as
/// suppressed is exactly the difference.
pub proof fn suppressed_edges_never_came_out(
    mode: Mode,
    window: Nanos,
    filter: KeyFilter,
    feed: Seq<(InputEvent, Nanos)>,
)
    requires
        trace::is_timely(steps_of(PipelineView::fresh(mode, window, filter), feed)),
        trace::play_fits(
            DebouncerView::fresh(mode, window),
            steps_of(PipelineView::fresh(mode, window, filter), feed),
        ),
        feed.len() <= u64::MAX,
    ensures
        fed_all(PipelineView::fresh(mode, window, filter), feed).stats.edges_out <= fed_all(
            PipelineView::fresh(mode, window, filter),
            feed,
        ).stats.edges_in,
{
    let s = PipelineView::fresh(mode, window, filter);
    let steps = steps_of(s, feed);
    guarantees::consistency(mode, window, steps);
    lemma_inputs_at_most(s, feed);
    feed_is_counted(s, feed);
}

/// No more edges go into the debouncer than events come in.
proof fn lemma_inputs_at_most(s: PipelineView, feed: Seq<(InputEvent, Nanos)>)
    ensures
        guarantees::inputs(steps_of(s, feed)).len() <= feed.len(),
    decreases feed.len(),
{
    if feed.len() > 0 {
        let front = feed.drop_last();
        let steps = steps_of(s, front);
        lemma_inputs_at_most(s, front);
        assert(steps_of(s, feed).drop_last() =~= steps);
    }
}

/// A key event is sent as it is, right behind its scancode if it has one.
pub proof fn keys_are_sent_behind_their_scancode(scan: Option<i32>, key: KeyCode, value: i32)
    ensures
        ({
            let sent = pipeline::sent(scan, key, value);
            &&& sent.last().kind == EV_KEY
            &&& sent.last().code == key
            &&& sent.last().value == value
            &&& scan is None ==> sent.len() == 1
            &&& scan is Some ==> sent.len() == 2 && sent[0].kind == EV_MSC && sent[0].code
                == MSC_SCAN && sent[0].value == scan->0
        }),
{
}

/// Edges are sent one behind the other, each on its own: a press with the value 1 and a release
/// with the value 0, right behind the scancode last seen for the key, if any was.
pub proof fn edges_are_sent_one_by_one(
    scans: Map<KeyCode, i32>,
    a: Seq<KeyEvent>,
    b: Seq<KeyEvent>,
    e: KeyEvent,
)
    ensures
        pipeline::all_sent(scans, a + b) == pipeline::all_sent(scans, a) + pipeline::all_sent(
            scans,
            b,
        ),
        pipeline::all_sent(scans, Seq::empty()) == Seq::<InputEvent>::empty(),
        ({
            let sent = pipeline::all_sent(scans, seq![e]);
            &&& sent.last().kind == EV_KEY
            &&& sent.last().code == e.key
            &&& e.down ==> sent.last().value == 1
            &&& !e.down ==> sent.last().value == 0
            &&& !scans.contains_key(e.key) ==> sent.len() == 1
            &&& scans.contains_key(e.key) ==> sent.len() == 2 && sent[0].kind == EV_MSC
                && sent[0].code == MSC_SCAN && sent[0].value == scans[e.key]
        }),
    decreases b.len(),
{
    if b.len() == 0 {
        assert(a + b =~= a);
        assert(pipeline::all_sent(scans, a) + pipeline::all_sent(scans, b) =~= pipeline::all_sent(
            scans,
            a,
        ));
    } else {
        edges_are_sent_one_by_one(scans, a, b.drop_last(), e);
        assert((a + b).drop_last() =~= a + b.drop_last());
        assert((a + b).last() == b.last());
        assert(pipeline::all_sent(scans, a + b) =~= pipeline::all_sent(scans, a)
            + pipeline::all_sent(scans, b));
    }
    assert(seq![e].drop_last() =~= Seq::empty());
    assert(seq![e].last() == e);
    reveal_with_fuel(pipeline::all_sent, 2);
    assert(pipeline::all_sent(scans, seq![e]) =~= pipeline::sent(
        scans.get(e.key),
        e.key,
        pipeline::level_value(e.down),
    ));
}

/// Running out timers sends on what the debouncer reports, counts it, and changes nothing else.
pub proof fn ticking_only_reports(s: PipelineView, now: Nanos)
    requires
        s.counts(s.deb.timeout_edges(now as int)),
    ensures
        ({
            let t = s.after_tick(now);
            let edges = s.deb.timeout_edges(now as int);
            &&& t.deb == s.deb.after_timeout(now as int)
            &&& t.out == s.out + pipeline::all_sent(s.scans, edges)
            &&& t.stats.edges_out == s.stats.edges_out + edges.len()
            &&& t.stats.edges_in == s.stats.edges_in
            &&& t.stats.repeats_dropped == s.stats.repeats_dropped
            &&& t.filter == s.filter
            &&& t.scans == s.scans
            &&& t.pending_scan == s.pending_scan
            &&& t.down == s.down
            &&& t.discarding == s.discarding
        }),
{
}

/// A key event of value 2 is an autorepeat, and is dropped whatever the key; any other is an edge,
/// down unless its value is 0, that is debounced if the filter covers the key.
pub proof fn covered_key_is_debounced(s: PipelineView, event: InputEvent, time: Nanos)
    requires
        !s.discarding,
        event.kind == EV_KEY,
        s.feed_fits(event, time),
    ensures
        ({
            let t = s.after_feed(event, time);
            let ticked = s.after_tick(time);
            let down = event.value != 0;
            &&& s.fed(event) == Fed::Nothing
            &&& event.value == 2 ==> t.deb == ticked.deb && t.out == ticked.out && t.down
                == ticked.down && t.stats.edges_in == ticked.stats.edges_in
                && t.stats.repeats_dropped == ticked.stats.repeats_dropped + 1
            &&& event.value != 2 && s.filter.covers(event.code) ==> {
                let edges = ticked.deb.key_edges(time, event.code, down);
                &&& t.deb == ticked.deb.after_key(time, event.code, down)
                &&& t.out == ticked.out + pipeline::all_sent(t.scans, edges)
                &&& t.stats.edges_in == ticked.stats.edges_in + 1
                &&& t.stats.edges_out == ticked.stats.edges_out + edges.len()
            }
            &&& event.value != 2 && !s.filter.covers(event.code) ==> {
                &&& t.deb == ticked.deb
                &&& t.stats.edges_in == ticked.stats.edges_in
                &&& t.out.len() > ticked.out.len()
                &&& t.out.last().kind == EV_KEY
                &&& t.out.last().code == event.code
                &&& t.out.last().value == event.value
            }
        }),
{
}

/// Which keys are down is known from the events: a key event says so of its own key, an autorepeat
/// says nothing, and neither does any other event.
pub proof fn keys_down_are_known(s: PipelineView, event: InputEvent, time: Nanos, k: KeyCode)
    ensures
        s.after_feed(event, time).down.contains(k) <==> if !s.discarding && event.kind == EV_KEY
            && event.value != 2 && event.code == k {
            event.value != 0
        } else {
            s.down.contains(k)
        },
{
}

/// The end of a packet is told to the caller, and ends the claim of a scancode that no key
/// followed; the other ways to synchronize mean nothing.
pub proof fn reports_end_packets(s: PipelineView, event: InputEvent, time: Nanos)
    requires
        !s.discarding,
        event.kind == EV_SYN,
    ensures
        event.code == SYN_REPORT ==> s.fed(event) == Fed::Report && s.after_feed(event, time) == (
        PipelineView { pending_scan: None, ..s.after_tick(time) }),
        event.code != SYN_REPORT && event.code != SYN_DROPPED ==> s.fed(event) == Fed::Nothing
            && s.after_feed(event, time) == s.after_tick(time),
{
}

/// A scancode waits for the key that follows it, and is all that does; a key without one keeps the
/// scancode that it had, and no other key's is ever touched.
pub proof fn scancodes_are_kept_by_key(s: PipelineView, event: InputEvent, time: Nanos, k: KeyCode)
    requires
        !s.discarding,
    ensures
        ({
            let t = s.after_feed(event, time);
            &&& event.kind == EV_MSC && event.code == MSC_SCAN ==> t.pending_scan == Some(
                event.value,
            ) && t.scans == s.scans && t.out == s.after_tick(time).out
            &&& event.kind == EV_KEY ==> t.pending_scan is None
            &&& event.kind == EV_KEY && event.code == k && s.pending_scan is Some
                ==> t.scans.contains_key(k) && t.scans[k] == s.pending_scan->0
            &&& !(event.kind == EV_KEY && event.code == k && s.pending_scan is Some) ==> (
            t.scans.contains_key(k) <==> s.scans.contains_key(k)) && (s.scans.contains_key(k)
                ==> t.scans[k] == s.scans[k])
        }),
{
}

/// Key events for some keys leave the debouncer's other keys alone, and are to the debouncer just
/// what the keys that it is to hear of are.
proof fn lemma_keys_heard(s: PipelineView, keys: Seq<KeyCode>, held: Seq<KeyCode>, time: Nanos)
    requires
        codes::ascending(keys),
    ensures
        s.after_keys(keys, held, time).filter == s.filter,
        s.after_keys(keys, held, time).deb.mode == s.deb.mode,
        s.after_keys(keys, held, time).deb.window == s.deb.window,
        forall|k: KeyCode| #[trigger]
            s.after_keys(keys, held, time).deb.key(k) == if keys.contains(k) && s.filter.covers(k) {
                s.deb.key(k).touched(s.deb.mode, s.deb.window, time, held.contains(k))
            } else {
                s.deb.key(k)
            },
        forall|k: KeyCode|
            keys.contains(k) && !#[trigger] s.filter.covers(k) ==> s.after_keys(
                keys,
                held,
                time,
            ).out.contains(
                event::made(
                    EV_KEY,
                    k,
                    if held.contains(k) {
                        1
                    } else {
                        0
                    },
                ),
            ),
        s.out.is_prefix_of(s.after_keys(keys, held, time).out),
    decreases keys.len(),
{
    if keys.len() == 0 {
        assert(s.out.subrange(0, s.out.len() as int) =~= s.out);
    } else {
        let front = keys.drop_last();
        let key = keys.last();
        let down = held.contains(key);
        assert forall|i: int, j: int| 0 <= i < j < front.len() implies #[trigger] front[i]
            < #[trigger] front[j] by {
            assert(keys[i] < keys[j]);
        }
        lemma_keys_heard(s, front, held, time);
        let t = s.after_keys(front, held, time);
        let u = s.after_keys(keys, held, time);
        assert(!front.contains(key)) by {
            if front.contains(key) {
                assert(keys[front.index_of(key)] < keys[keys.len() - 1]);
            }
        }
        assert(keys[keys.len() - 1] == key);
        assert forall|k: KeyCode| #[trigger] keys.contains(k) <==> front.contains(k) || k
            == key by {
            if front.contains(k) {
                assert(keys[front.index_of(k)] == k);
            }
            if keys.contains(k) && k != key {
                assert(front[keys.index_of(k)] == k);
            }
        }
        assert forall|k: KeyCode| #[trigger] u.deb.key(k) == if keys.contains(k)
            && s.filter.covers(k) {
            s.deb.key(k).touched(s.deb.mode, s.deb.window, time, held.contains(k))
        } else {
            s.deb.key(k)
        } by {
            assert(t.deb.key(k) == if front.contains(k) && s.filter.covers(k) {
                s.deb.key(k).touched(s.deb.mode, s.deb.window, time, held.contains(k))
            } else {
                s.deb.key(k)
            });
            assert(keys.contains(k) <==> front.contains(k) || k == key);
        }
        let more = if s.filter.covers(key) {
            pipeline::all_sent(t.scanned(key).scans, t.deb.key_edges(time, key, down))
        } else {
            pipeline::sent(t.pending_scan, key, pipeline::level_value(down))
        };
        assert(u.out == t.out + more);
        assert(s.out =~= u.out.subrange(0, s.out.len() as int)) by {
            assert(s.out =~= t.out.subrange(0, s.out.len() as int));
            assert forall|i: int| 0 <= i < s.out.len() implies s.out[i] == u.out[i] by {
                assert(t.out.subrange(0, s.out.len() as int)[i] == t.out[i]);
            }
        }
        assert forall|k: KeyCode| keys.contains(k) && !#[trigger] s.filter.covers(
            k,
        ) implies u.out.contains(
            event::made(
                EV_KEY,
                k,
                if held.contains(k) {
                    1
                } else {
                    0
                },
            ),
        ) by {
            let e = event::made(
                EV_KEY,
                k,
                if held.contains(k) {
                    1
                } else {
                    0
                },
            );
            if k == key {
                assert(more.last() == e);
                assert(u.out[u.out.len() - 1] == e);
            } else {
                assert(front.contains(k));
                assert(t.out.contains(e));
                assert(u.out[t.out.index_of(e)] == e);
            }
        }
    }
}

/// A resync is to the debouncer an edge of each key that it is to hear of and that is not the way
/// it is known to be, to the way it is, and nothing for any other key; keys that it is not to hear of
/// are sent on if they are not the way they are known to be. Nothing that was to be sent is lost.
pub proof fn resync_makes_up_just_what_was_missed(
    s: PipelineView,
    held: Seq<KeyCode>,
    time: Nanos,
    k: KeyCode,
)
    ensures
        ({
            let t = s.after_tick(time);
            let u = s.after_resync(held, time);
            let missed = s.down.contains(k) != held.contains(k);
            &&& missed && s.filter.covers(k) ==> u.deb.key(k) == t.deb.key(k).touched(
                s.deb.mode,
                s.deb.window,
                time,
                held.contains(k),
            )
            &&& !missed || !s.filter.covers(k) ==> u.deb.key(k) == t.deb.key(k)
            &&& missed && !s.filter.covers(k) && held.contains(k) ==> u.out.contains(
                event::made(EV_KEY, k, 1),
            )
            &&& missed && !s.filter.covers(k) && !held.contains(k) ==> u.out.contains(
                event::made(EV_KEY, k, 0),
            )
            &&& t.out.is_prefix_of(u.out)
        }),
{
    let pred = |j: KeyCode| s.down.contains(j) != held.contains(j);
    codes::lemma_codes_below(pred, 0x1_0000);
    assert(s.missed(held).contains(k) <==> pred(k));
    lemma_keys_heard(s.after_tick(time), s.missed(held), held, time);
    let u = s.after_tick(time).after_keys(s.missed(held), held, time);
    assert(u.deb.key(k) == if s.missed(held).contains(k) && s.filter.covers(k) {
        s.after_tick(time).deb.key(k).touched(s.deb.mode, s.deb.window, time, held.contains(k))
    } else {
        s.after_tick(time).deb.key(k)
    });
    assert(s.after_tick(time).filter.covers(k) == s.filter.covers(k));
}

/// Losing the keyboard sends on the releases that the debouncer reports, counts them, and changes
/// nothing else that the pipeline knows, but for a scancode that no key followed.
pub proof fn releasing_only_reports(s: PipelineView, now: Nanos)
    requires
        s.counts(s.deb.release_edges(now)),
    ensures
        ({
            let t = s.after_release(now);
            let edges = s.deb.release_edges(now);
            &&& t.deb == s.deb.after_release(now)
            &&& t.out == s.out + pipeline::all_sent(s.scans, edges)
            &&& t.stats.edges_out == s.stats.edges_out + edges.len()
            &&& t.stats.edges_in == s.stats.edges_in
            &&& t.stats.repeats_dropped == s.stats.repeats_dropped
            &&& t.filter == s.filter
            &&& t.scans == s.scans
            &&& t.down == s.down
            &&& t.discarding == s.discarding
        }),
{
}

/// A new pipeline debounces with the mode, the window and the filter that it was given, and knows
/// of no key and no event yet.
pub proof fn a_new_pipeline_knows_nothing(mode: Mode, window: Nanos, filter: KeyFilter)
    ensures
        ({
            let s = PipelineView::fresh(mode, window, filter);
            &&& s.deb.mode == mode
            &&& s.deb.window == window
            &&& s.deb.last_emit == 0
            &&& forall|k: KeyCode| #[trigger] s.deb.key(k) == (KeyState {
                logical: false,
                physical: false,
                timer: None,
            })
            &&& s.filter == filter
            &&& s.out.len() == 0
            &&& s.pending_scan is None
            &&& !s.discarding
            &&& forall|k: KeyCode| !#[trigger] s.scans.contains_key(k)
            &&& forall|k: KeyCode| !#[trigger] s.down.contains(k)
            &&& s.stats.edges_in == 0 && s.stats.edges_out == 0 && s.stats.repeats_dropped == 0
            &&& leaves_others_alone(s)
            &&& in_touch(s)
        }),
{
}

} // verus!
