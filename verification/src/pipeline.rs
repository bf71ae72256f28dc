//! Feeds the evdev event stream into the debounce state machine.

use crate::cli::KeyFilter;
use crate::codes;
use crate::debounce::{Debouncer, DebouncerView, KeyCode, KeyEvent, Mode, Nanos};
use crate::event;
use crate::event::{InputEvent, Summary};
use crate::event::{EV_KEY, EV_MSC, MSC_SCAN, SYN_DROPPED, SYN_REPORT};
use crate::time;
use std::collections::{HashMap, HashSet};
use std::time::Duration;
use vstd::prelude::*;

verus! {

broadcast use vstd::std_specs::hash::group_hash_axioms;

/// `EV_KEY` value for a kernel-generated autorepeat.
pub const AUTOREPEAT: i32 = 2;

/// Type for the value of an `MSC_SCAN` event, i.e. what the hardware actually sent for the kernel
/// to convert into a keycode.
pub type Scancode = i32;

/// What the caller must do after feeding an event.
#[derive(Debug, Clone, Copy, PartialEq, Eq, Structural)]
pub enum Fed {
    Nothing,
    /// A packet ended, flush the output.
    Report,
    /// The kernel dropped events for this reader, call [`Pipeline::resync`] with the keyboard's
    /// current key state.
    Dropped,
}

#[derive(Debug, Clone, Copy)]
pub struct Stats {
    pub edges_in: u64,
    pub edges_out: u64,
    pub repeats_dropped: u64,
}

impl Default for Stats {
    fn default() -> (stats: Stats)
        ensures
            stats == Stats::none(),
    {
        Stats { edges_in: 0, edges_out: 0, repeats_dropped: 0 }
    }
}

impl Stats {
    /// Nothing has been counted.
    pub open spec fn none() -> Stats {
        Stats { edges_in: 0, edges_out: 0, repeats_dropped: 0 }
    }

    pub fn suppressed(&self) -> (suppressed: u64)
        ensures
            suppressed == if self.edges_in >= self.edges_out {
                self.edges_in - self.edges_out
            } else {
                0
            },
    {
        self.edges_in.saturating_sub(self.edges_out)
    }
}

/// A key event as it is sent on: its scancode, if it has one, and then the key.
pub open spec fn sent(scan: Option<Scancode>, key: KeyCode, value: i32) -> Seq<InputEvent> {
    let press = event::made(EV_KEY, key, value);
    match scan {
        Some(scan) => seq![event::made(EV_MSC, MSC_SCAN, scan), press],
        None => seq![press],
    }
}

/// The `EV_KEY` value of a level.
pub open spec fn level_value(down: bool) -> i32 {
    if down {
        1
    } else {
        0
    }
}

/// Debounced edges as they are sent on, each with the scancode last seen for its key.
pub open spec fn all_sent(scans: Map<KeyCode, Scancode>, edges: Seq<KeyEvent>) -> Seq<InputEvent>
    decreases edges.len(),
{
    if edges.len() == 0 {
        Seq::empty()
    } else {
        let edge = edges.last();
        all_sent(scans, edges.drop_last()) + sent(
            scans.get(edge.key),
            edge.key,
            level_value(edge.down),
        )
    }
}

#[verifier::ext_equal]
pub struct PipelineView {
    pub deb: DebouncerView,
    pub filter: KeyFilter,
    /// Last `MSC_SCAN` seen for each key.
    pub scans: Map<KeyCode, Scancode>,
    /// The `MSC_SCAN` of the key event that is about to come.
    pub pending_scan: Option<Scancode>,
    /// Keys down according to the events seen so far.
    pub down: Set<KeyCode>,
    /// Within the rest of a packet that events were dropped from.
    pub discarding: bool,
    /// What is to be sent on.
    pub out: Seq<InputEvent>,
    pub stats: Stats,
}

impl PipelineView {
    pub open spec fn fresh(mode: Mode, window: Nanos, filter: KeyFilter) -> PipelineView {
        PipelineView {
            deb: DebouncerView::fresh(mode, window),
            filter,
            scans: Map::empty(),
            pending_scan: None,
            down: Set::empty(),
            discarding: false,
            out: Seq::empty(),
            stats: Stats::none(),
        }
    }

    /// The edges that the debouncer reported on its way to `deb` are counted and sent on.
    pub open spec fn reporting(self, deb: DebouncerView, edges: Seq<KeyEvent>) -> PipelineView {
        PipelineView {
            deb,
            out: self.out + all_sent(self.scans, edges),
            stats: Stats {
                edges_out: (self.stats.edges_out + edges.len()) as u64,
                ..self.stats
            },
            ..self
        }
    }

    /// So many more edges can be counted as sent.
    pub open spec fn counts(self, edges: Seq<KeyEvent>) -> bool {
        self.stats.edges_out + edges.len() <= u64::MAX
    }

    pub open spec fn tick_fits(self, now: Nanos) -> bool {
        &&& self.deb.timeout_fits(now as int)
        &&& self.counts(self.deb.timeout_edges(now as int))
    }

    /// The debouncer's timers up to `now` have run out.
    pub open spec fn after_tick(self, now: Nanos) -> PipelineView {
        self.reporting(self.deb.after_timeout(now as int), self.deb.timeout_edges(now as int))
    }

    /// The key takes the scancode that came in front of it.
    pub open spec fn scanned(self, key: KeyCode) -> PipelineView {
        PipelineView {
            scans: match self.pending_scan {
                Some(scan) => self.scans.insert(key, scan),
                None => self.scans,
            },
            pending_scan: None,
            ..self
        }
    }

    /// The key is known to be up or down.
    pub open spec fn seen(self, key: KeyCode, value: i32) -> PipelineView {
        PipelineView {
            down: if value == 0 {
                self.down.remove(key)
            } else {
                self.down.insert(key)
            },
            ..self
        }
    }

    pub open spec fn key_fits(self, key: KeyCode, value: i32, time: Nanos) -> bool {
        if value == AUTOREPEAT {
            self.stats.repeats_dropped < u64::MAX
        } else {
            self.filter.covers(key) ==> {
                &&& self.stats.edges_in < u64::MAX
                &&& self.deb.key_fits(time, key, value != 0)
                &&& self.counts(self.deb.key_edges(time, key, value != 0))
            }
        }
    }

    /// A key event was seen: an autorepeat is dropped, a key that the filter leaves out is sent on
    /// as it is, and any other is debounced.
    pub open spec fn after_key(self, key: KeyCode, value: i32, time: Nanos) -> PipelineView {
        let known = self.scanned(key);
        if value == AUTOREPEAT {
            PipelineView {
                stats: Stats {
                    repeats_dropped: (self.stats.repeats_dropped + 1) as u64,
                    ..self.stats
                },
                ..known
            }
        } else if !self.filter.covers(key) {
            PipelineView {
                out: self.out + sent(self.pending_scan, key, value),
                ..known.seen(key, value)
            }
        } else {
            PipelineView {
                stats: Stats { edges_in: (self.stats.edges_in + 1) as u64, ..self.stats },
                ..known.seen(key, value)
            }.reporting(
                self.deb.after_key(time, key, value != 0),
                self.deb.key_edges(time, key, value != 0),
            )
        }
    }

    pub open spec fn feed_fits(self, event: InputEvent, time: Nanos) -> bool {
        &&& self.tick_fits(time)
        &&& !self.discarding ==> (event::summary_of(event) matches Summary::Key(key, value)
            ==> self.after_tick(time).key_fits(key, value, time))
    }

    /// An event was fed: the timers run out first; the rest of a packet that events were dropped
    /// from is skipped, up to and with the report that ends it; keys, scancodes and other
    /// miscellaneous events are carried through, and nothing else is.
    pub open spec fn after_feed(self, event: InputEvent, time: Nanos) -> PipelineView {
        let s = self.after_tick(time);
        let summary = event::summary_of(event);
        if s.discarding {
            PipelineView {
                discarding: !(summary matches Summary::Synchronization(code, _) && code
                    == SYN_REPORT),
                ..s
            }
        } else {
            match summary {
                Summary::Synchronization(code, _) => if code == SYN_REPORT {
                    PipelineView { pending_scan: None, ..s }
                } else if code == SYN_DROPPED {
                    PipelineView { pending_scan: None, discarding: true, ..s }
                } else {
                    s
                },
                Summary::Misc(code, value) => if code == MSC_SCAN {
                    PipelineView { pending_scan: Some(value), ..s }
                } else {
                    PipelineView { out: s.out.push(event), ..s }
                },
                Summary::Key(key, value) => s.after_key(key, value, time),
                Summary::Other => s,
            }
        }
    }

    /// What is to be done after an event was fed.
    pub open spec fn fed(self, event: InputEvent) -> Fed {
        match event::summary_of(event) {
            Summary::Synchronization(code, _) if !self.discarding => if code == SYN_REPORT {
                Fed::Report
            } else if code == SYN_DROPPED {
                Fed::Dropped
            } else {
                Fed::Nothing
            },
            _ => Fed::Nothing,
        }
    }

    /// The keys that are not the way they are known to be, in ascending order.
    pub open spec fn missed(self, held: Seq<KeyCode>) -> Seq<KeyCode> {
        codes::codes_where(|k: KeyCode| self.down.contains(k) != held.contains(k))
    }

    /// Key events for `keys` were seen, each of the level it has if exactly `held` are down.
    pub open spec fn after_keys(
        self,
        keys: Seq<KeyCode>,
        held: Seq<KeyCode>,
        time: Nanos,
    ) -> PipelineView
        decreases keys.len(),
    {
        if keys.len() == 0 {
            self
        } else {
            self.after_keys(keys.drop_last(), held, time).after_key(
                keys.last(),
                level_value(held.contains(keys.last())),
                time,
            )
        }
    }

    pub open spec fn keys_fit(self, keys: Seq<KeyCode>, held: Seq<KeyCode>, time: Nanos) -> bool
        decreases keys.len(),
    {
        keys.len() > 0 ==> {
            &&& self.keys_fit(keys.drop_last(), held, time)
            &&& self.after_keys(keys.drop_last(), held, time).key_fits(
                keys.last(),
                level_value(held.contains(keys.last())),
                time,
            )
        }
    }

    pub open spec fn resync_fits(self, held: Seq<KeyCode>, time: Nanos) -> bool {
        &&& self.tick_fits(time)
        &&& self.after_tick(time).keys_fit(self.missed(held), held, time)
    }

    /// The keys that are down turned out to be `held`: the edges that were missed are made up.
    pub open spec fn after_resync(self, held: Seq<KeyCode>, time: Nanos) -> PipelineView {
        self.after_tick(time).after_keys(self.missed(held), held, time)
    }

    /// The keyboard is gone.
    pub open spec fn after_release(self, now: Nanos) -> PipelineView {
        PipelineView {
            pending_scan: None,
            ..self.reporting(self.deb.after_release(now), self.deb.release_edges(now))
        }
    }

    /// Whatever happens next, it can be counted.
    pub open spec fn counter_room(self) -> bool {
        &&& self.stats.edges_in + 0x1_0000 <= u64::MAX
        &&& self.stats.edges_out + 0x2_0000 <= u64::MAX
        &&& self.stats.repeats_dropped < u64::MAX
    }

    /// The timers up to `now` can run out.
    pub open spec fn tick_room(self, now: Nanos) -> bool {
        self.counter_room() && self.deb.timeout_fits(now as int)
    }

    /// The event can be fed.
    pub open spec fn feed_room(self, event: InputEvent, time: Nanos) -> bool {
        &&& self.tick_room(time)
        &&& !self.discarding ==> (event::summary_of(event) matches Summary::Key(key, value)
            ==> value != AUTOREPEAT && self.filter.covers(key) ==> self.deb.after_timeout(
            time as int,
        ).key_fits(time, key, value != 0))
    }

    /// The keys can be caught up on.
    pub open spec fn resync_room(self, held: Seq<KeyCode>, time: Nanos) -> bool {
        &&& self.tick_room(time)
        &&& forall|k: KeyCode|
            self.filter.covers(k) && #[trigger] self.down.contains(k) != held.contains(k)
                ==> self.deb.after_timeout(time as int).key_fits(time, k, held.contains(k))
    }
}

/// Where all of `keys` fit, each of them does in turn.
proof fn lemma_keys_fit_prefix(
    s: PipelineView,
    keys: Seq<KeyCode>,
    held: Seq<KeyCode>,
    time: Nanos,
    n: int,
)
    requires
        s.keys_fit(keys, held, time),
        0 <= n < keys.len(),
    ensures
        s.after_keys(keys.take(n), held, time).key_fits(
            keys[n],
            level_value(held.contains(keys[n])),
            time,
        ),
    decreases keys.len(),
{
    if n == keys.len() - 1 {
        assert(keys.take(n) =~= keys.drop_last());
    } else {
        lemma_keys_fit_prefix(s, keys.drop_last(), held, time, n);
        assert(keys.drop_last().take(n) =~= keys.take(n));
    }
}

pub struct Pipeline {
    deb: Debouncer,
    filter: KeyFilter,
    /// Last `MSC_SCAN` seen for each key, so that an edge emitted a window late still has the
    /// scancode its packet had.
    scans: HashMap<KeyCode, Scancode>,
    pending_scan: Option<Scancode>,
    /// Keys down according to the events seen so far.
    down: HashSet<KeyCode>,
    /// Set from a `SYN_DROPPED` until the report that ends the partial packet after it.
    discarding: bool,
    out: Vec<InputEvent>,
    edges: Vec<KeyEvent>,
    stats: Stats,
}

impl View for Pipeline {
    type V = PipelineView;

    closed spec fn view(&self) -> PipelineView {
        PipelineView {
            deb: self.deb@,
            filter: self.filter,
            scans: self.scans@,
            pending_scan: self.pending_scan,
            down: self.down@,
            discarding: self.discarding,
            out: self.out@,
            stats: self.stats,
        }
    }
}

impl Pipeline {
    /// The debouncer is in a state that its mode allows, and nothing it reported is left over.
    pub closed spec fn wf(&self) -> bool {
        self.deb.wf() && self.edges@.len() == 0
    }

    pub fn new(mode: Mode, window: Duration, filter: KeyFilter) -> (pipe: Pipeline)
        ensures
            pipe.wf(),
            pipe@ == PipelineView::fresh(
                mode,
                time::whole_nanos(time::nanos_of(window)),
                filter,
            ),
    {
        let pipe = Pipeline {
            deb: Debouncer::new(mode, window),
            filter,
            scans: HashMap::new(),
            pending_scan: None,
            down: HashSet::new(),
            discarding: false,
            out: Vec::new(),
            edges: Vec::new(),
            stats: Stats::default(),
        };
        proof {
            assert(pipe@ =~= PipelineView::fresh(
                mode,
                time::whole_nanos(time::nanos_of(window)),
                filter,
            ));
        }
        pipe
    }

    pub fn stats(&self) -> (stats: Stats)
        ensures
            stats == self@.stats,
    {
        self.stats
    }

    pub fn next_deadline(&self) -> (next: Option<Nanos>)
        ensures
            match next {
                Some(deadline) => {
                    &&& exists|k: KeyCode|
                        (#[trigger] self@.deb.key(k)).timer matches Some(timer) && timer.deadline
                            == deadline
                    &&& forall|k: KeyCode|
                        (#[trigger] self@.deb.key(k)).timer matches Some(timer) ==> deadline
                            <= timer.deadline
                },
                None => self@.deb.is_quiet(),
            },
    {
        self.deb.next_deadline()
    }

    pub fn output(&self) -> (out: &[InputEvent])
        ensures
            out@ == self@.out,
    {
        self.out.as_slice()
    }

    pub fn clear_output(&mut self)
        requires
            old(self).wf(),
        ensures
            final(self).wf(),
            final(self)@ == (PipelineView { out: Seq::empty(), ..old(self)@ }),
    {
        self.out.clear();
        assert(self@ =~= (PipelineView { out: Seq::empty(), ..old(self)@ }));
    }

    /// Whether whatever happens next can be counted.
    pub fn counter_room(&self) -> (room: bool)
        ensures
            room == self@.counter_room(),
    {
        self.stats.edges_in <= u64::MAX - 0x1_0000 && self.stats.edges_out <= u64::MAX - 0x2_0000
            && self.stats.repeats_dropped < u64::MAX
    }

    /// Whether the timers up to `now` can run out.
    pub fn tick_room(&self, now: Nanos) -> (room: bool)
        ensures
            room == self@.tick_room(now),
    {
        self.counter_room() && self.deb.timeout_fits(now)
    }

    /// Whether an event can be fed.
    pub fn feed_room(&self, event: InputEvent, time: Nanos) -> (room: bool)
        requires
            self.wf(),
        ensures
            room == self@.feed_room(event, time),
    {
        if !self.tick_room(time) {
            return false;
        }
        match event::summarize(event) {
            Summary::Key(key, value) => self.discarding || value == AUTOREPEAT
                || !self.filter.should_debounce(key) || self.deb.key_fits(time, key, value != 0),
            _ => true,
        }
    }

    /// Whether the keys can be caught up on.
    pub fn resync_room(&self, held: &[KeyCode], time: Nanos) -> (room: bool)
        requires
            self.wf(),
        ensures
            room == self@.resync_room(held@, time),
    {
        if !self.tick_room(time) {
            return false;
        }
        let missed = self.missed(held);
        let ghost pred = |k: KeyCode| self@.down.contains(k) != held@.contains(k);
        proof {
            codes::lemma_codes_below(pred, 0x1_0000);
        }
        for i in 0..missed.len()
            invariant
                self.wf(),
                self@.deb.timeout_fits(time as int),
                forall|k: KeyCode| #[trigger]
                    missed@.contains(k) <==> self@.down.contains(k) != held@.contains(k),
                forall|j: int|
                    0 <= j < i && self@.filter.covers(#[trigger] missed@[j])
                        ==> self@.deb.after_timeout(time as int).key_fits(
                        time,
                        missed@[j],
                        held@.contains(missed@[j]),
                    ),
        {
            let key = missed[i];
            assert(missed@.contains(key));
            assert(self@.down.contains(key) != held@.contains(key));
            let down = codes::has_code(held, key);
            if self.filter.should_debounce(key) && !self.deb.key_fits(time, key, down) {
                return false;
            }
        }
        assert forall|k: KeyCode|
            self@.filter.covers(k) && #[trigger] self@.down.contains(k) != held@.contains(
                k,
            ) implies self@.deb.after_timeout(time as int).key_fits(time, k, held@.contains(k)) by {
            assert(missed@.contains(k));
            assert(missed@[missed@.index_of(k)] == k);
        }
        true
    }

    pub fn tick(&mut self, now: Nanos)
        requires
            old(self).wf(),
            old(self)@.tick_fits(now),
        ensures
            final(self).wf(),
            final(self)@ == old(self)@.after_tick(now),
    {
        self.deb.on_timeout(now, &mut self.edges);
        proof {
            assert(self.edges@ =~= old(self)@.deb.timeout_edges(now as int));
        }
        self.drain_edges();
        assert(self@ =~= old(self)@.after_tick(now));
    }

    pub fn feed(&mut self, event: InputEvent, time: Nanos) -> (fed: Fed)
        requires
            old(self).wf(),
            old(self)@.feed_fits(event, time),
        ensures
            final(self).wf(),
            final(self)@ == old(self)@.after_feed(event, time),
            fed == old(self)@.fed(event),
    {
        self.tick(time);

        let summary = event::summarize(event);
        if self.discarding {
            if let Summary::Synchronization(code, _) = summary {
                if code == SYN_REPORT {
                    self.discarding = false;
                }
            }
            assert(self@ =~= old(self)@.after_feed(event, time));
            return Fed::Nothing;
        }

        match summary {
            Summary::Synchronization(code, _) => {
                if code == SYN_REPORT {
                    self.pending_scan = None;
                    assert(self@ =~= old(self)@.after_feed(event, time));
                    return Fed::Report;
                }
                if code == SYN_DROPPED {
                    self.pending_scan = None;
                    self.discarding = true;
                    assert(self@ =~= old(self)@.after_feed(event, time));
                    return Fed::Dropped;
                }
            },
            Summary::Misc(code, value) => {
                if code == MSC_SCAN {
                    self.pending_scan = Some(value);
                } else {
                    self.out.push(event);
                }
            },
            Summary::Key(code, value) => {
                self.key(code, value, time);
            },
            // everything else is either
            // - a sync code other than `SYN_REPORT`
            // - an event type the virtual device doesn't declare
            // - an echo of something we sent the keyboard (leds, repeat settings, ...), which the
            //   kernel delivers as input
            Summary::Other => {},
        }
        assert(self@ =~= old(self)@.after_feed(event, time));
        Fed::Nothing
    }

    pub fn resync(&mut self, held: &[KeyCode], time: Nanos)
        requires
            old(self).wf(),
            old(self)@.resync_fits(held@, time),
        ensures
            final(self).wf(),
            final(self)@ == old(self)@.after_resync(held@, time),
    {
        self.tick(time);
        let ghost start = self@;
        let missed = self.missed(held);
        assert(missed@ == old(self)@.missed(held@));
        for i in 0..missed.len()
            invariant
                self.wf(),
                start.keys_fit(missed@, held@, time),
                self@ == start.after_keys(missed@.take(i as int), held@, time),
        {
            let key = missed[i];
            proof {
                lemma_keys_fit_prefix(start, missed@, held@, time, i as int);
                assert(missed@.take(i + 1).drop_last() =~= missed@.take(i as int));
                assert(missed@.take(i + 1).last() == key);
            }
            let value: i32 = if codes::has_code(held, key) {
                1
            } else {
                0
            };
            self.key(key, value, time);
        }
        assert(missed@.take(missed@.len() as int) =~= missed@);
    }

    /// The keys that are not the way they are known to be, in ascending order.
    fn missed(&self, held: &[KeyCode]) -> (missed: Vec<KeyCode>)
        ensures
            missed@ == self@.missed(held@),
    {
        let known = codes::members(&self.down);
        let mut missed: Vec<KeyCode> = Vec::new();
        for i in 0..known.len()
            invariant
                codes::ascending(missed@),
                forall|k: KeyCode| #[trigger]
                    missed@.contains(k) <==> known@.take(i as int).contains(k) && !held@.contains(
                        k,
                    ),
        {
            proof {
                codes::lemma_take_contains(known@, i as int);
            }
            if !codes::has_code(held, known[i]) {
                codes::insert_code(&mut missed, known[i]);
            }
        }
        assert(known@.take(known@.len() as int) =~= known@);
        for i in 0..held.len()
            invariant
                codes::ascending(missed@),
                forall|k: KeyCode| #[trigger]
                    missed@.contains(k) <==> (self@.down.contains(k) && !held@.contains(k)) || (
                    held@.take(i as int).contains(k) && !self@.down.contains(k)),
        {
            proof {
                codes::lemma_take_contains(held@, i as int);
            }
            if !self.down.contains(&held[i]) {
                codes::insert_code(&mut missed, held[i]);
            }
        }
        proof {
            assert(held@.take(held@.len() as int) =~= held@);
            let pred = |k: KeyCode| self@.down.contains(k) != held@.contains(k);
            codes::lemma_codes_below(pred, 0x1_0000);
            assert forall|k: KeyCode| #[trigger]
                missed@.contains(k) <==> codes::codes_where(pred).contains(k) by {}
            codes::lemma_ascending_unique(missed@, codes::codes_where(pred));
        }
        missed
    }

    pub fn release_all(&mut self, now: Nanos)
        requires
            old(self).wf(),
            old(self)@.counts(old(self)@.deb.release_edges(now)),
        ensures
            final(self).wf(),
            final(self)@ == old(self)@.after_release(now),
    {
        self.deb.release_all(now, &mut self.edges);
        proof {
            assert(self.edges@ =~= old(self)@.deb.release_edges(now));
        }
        self.drain_edges();
        self.pending_scan = None;
        assert(self@ =~= old(self)@.after_release(now));
    }

    fn key(&mut self, key: KeyCode, value: i32, time: Nanos)
        requires
            old(self).wf(),
            old(self)@.key_fits(key, value, time),
        ensures
            final(self).wf(),
            final(self)@ == old(self)@.after_key(key, value, time),
    {
        let scan = self.pending_scan;
        self.pending_scan = None;
        if let Some(scan) = scan {
            self.scans.insert(key, scan);
        }

        // the source's repeat timer goes off the physical key state, and the virtual device has
        // its own repeat timer based on its state; forwarding these would double every repeat
        if value == AUTOREPEAT {
            self.stats.repeats_dropped = self.stats.repeats_dropped + 1;
            assert(self@ =~= old(self)@.after_key(key, value, time));
            return;
        }
        if value == 0 {
            self.down.remove(&key);
        } else {
            self.down.insert(key);
        }

        if !self.filter.should_debounce(key) {
            self.push_key(key, value, scan);
            assert(self@ =~= old(self)@.after_key(key, value, time));
            return;
        }

        self.stats.edges_in = self.stats.edges_in + 1;
        self.deb.on_key(time, key, value != 0, &mut self.edges);
        proof {
            assert(self.edges@ =~= old(self)@.deb.key_edges(time, key, value != 0));
        }
        self.drain_edges();
        assert(self@ =~= old(self)@.after_key(key, value, time));
    }

    /// Sends on what the debouncer reported.
    fn drain_edges(&mut self)
        requires
            old(self).deb.wf(),
            old(self)@.counts(old(self).edges@),
        ensures
            final(self).wf(),
            final(self)@ == old(self)@.reporting(old(self)@.deb, old(self).edges@),
    {
        let count: usize = self.edges.len();
        for i in 0..count
            invariant
                count == old(self).edges@.len(),
                self.deb.wf(),
                self.edges@ == old(self).edges@,
                old(self)@.counts(old(self).edges@),
                self@ == old(self)@.reporting(old(self)@.deb, old(self).edges@.take(i as int)),
        {
            let edge = self.edges[i];
            let scan = match self.scans.get(&edge.key) {
                Some(scan) => Some(*scan),
                None => None,
            };
            proof {
                let edges = old(self).edges@;
                assert(edges.take(i + 1).drop_last() =~= edges.take(i as int));
                assert(edges.take(i + 1).last() == edge);
            }
            self.push_key(
                edge.key,
                if edge.down {
                    1
                } else {
                    0
                },
                scan,
            );
            self.stats.edges_out = self.stats.edges_out + 1;
            assert(self@ =~= old(self)@.reporting(
                old(self)@.deb,
                old(self).edges@.take(i + 1),
            ));
        }
        assert(self.edges@.take(count as int) =~= self.edges@);
        self.edges.clear();
    }

    fn push_key(&mut self, key: KeyCode, value: i32, scan: Option<Scancode>)
        ensures
            final(self)@ == (PipelineView {
                out: old(self)@.out + sent(scan, key, value),
                ..old(self)@
            }),
            final(self).deb == old(self).deb,
            final(self).edges == old(self).edges,
    {
        if let Some(scan) = scan {
            self.out.push(InputEvent::new(EV_MSC, MSC_SCAN, scan));
        }
        self.out.push(InputEvent::new(EV_KEY, key, value));
        assert(self@ =~= (PipelineView {
            out: old(self)@.out + sent(scan, key, value),
            ..old(self)@
        }));
    }
}

} // verus!
