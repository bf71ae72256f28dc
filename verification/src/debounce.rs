//! Debounce state machine.
//!
//! # Contract
//!
//! - before feeding an input event timestamped `t`, call [`Debouncer::on_timeout`] with `t`;
//! - when idle, call [`Debouncer::on_timeout`] with the current time no later than
//!   [`Debouncer::next_deadline`];
//! - input timestamps must be weakly monotonic.
//!
//! # Guarantees
//!
//! Given a `window` of `w` and input obeying the contract, the following is guaranteed (and proved
//! in [`crate::guarantees`]):
//!
//! - parity: output levels for a given key strictly alternate, starting with a press;
//! - monotonicity: output timestamps are weakly monotonic;
//! - consistency: every output event has a corresponding input event of the same key and level
//!   with a timestamp in the range `[t_out - w, t_out]` (as such, latency is bounded by `w`);
//! - convergence: once the input has been quiet for `w` and the timers have been drained, the
//!   downstream level matches the physical level on every key;
//! - suppression: two consecutive presses of the same key are at least `w` apart; under
//!   [`Mode::Eager`] and [`Mode::Defer`] this extends to all pairs of consecutive edges, but under
//!   [`Mode::Mixed`] a suppressed release can be emitted at the same instant as the press that ends
//!   the hold.
//! - cleanliness: traffic where every edge is at least `w` apart passes through unchanged; as
//!   such, [`Mode::Eager`] is idempotent.
//!
//! Parity and monotonicity also last through [`Debouncer::release_all`], after which a debouncer is
//! as good as new (see [`crate::replug`]).

use crate::codes;
use crate::edges;
use crate::time;
use std::collections::HashMap;
use std::time::Duration;
use vstd::prelude::*;

pub use crate::edges::{KeyCode, KeyEvent, Nanos};

verus! {

broadcast use vstd::std_specs::hash::group_hash_axioms;

#[derive(Debug, Clone, Copy, PartialEq, Eq, Structural)]
pub enum Mode {
    /// Eager on both edges. Reports a change, then ignores the key for one window and resamples.
    /// Not true eager ("emit the first seen release"), as it'd be functionally useless for
    /// preventing chatter and constantly drop modifiers mid-chord, mess up autorepeat, and make
    /// games unplayable.
    Eager,
    /// Defer on both edges. Reports a change once the level has been held for one window.
    /// Adds one window of latency to every keypress.
    Defer,
    /// Eager-press, defer-release. Typing latency is unchanged and the usual symptom, release
    /// chatter, gets mitigated. Most comfortable default.
    Mixed,
}

/// What the machine does with one edge.
#[derive(Debug, Clone, Copy, PartialEq, Eq, Structural)]
pub enum Policy {
    /// Reports it at once.
    Emit,
    /// Reports it once it has lasted for one window.
    Settle,
}

impl Mode {
    /// Presses are reported at once but under `Defer`, releases only under `Eager`.
    pub open spec fn policy_for(self, down: bool) -> Policy {
        if self == Mode::Eager || (self == Mode::Mixed && down) {
            Policy::Emit
        } else {
            Policy::Settle
        }
    }

    fn policy(self, down: bool) -> (policy: Policy)
        ensures
            policy == self.policy_for(down),
    {
        match (self, down) {
            (Mode::Eager, _) => Policy::Emit,
            (Mode::Mixed, true) => Policy::Emit,
            (Mode::Defer, _) => Policy::Settle,
            (Mode::Mixed, false) => Policy::Settle,
        }
    }

    fn lockout(self) -> (locks: bool)
        ensures
            locks == (self == Mode::Eager),
    {
        self == Mode::Eager
    }
}

#[derive(Debug, Clone, Copy, PartialEq, Eq, Structural)]
pub enum TimerKind {
    /// Input is being ignored until the deadline, after which the key gets resampled.
    Lockout,
    /// The level isn't matching downstream and will be reported at the deadline unless it happens
    /// to go back to matching before the deadline.
    Settle,
}

#[derive(Debug, Clone, Copy, PartialEq, Eq, Structural)]
pub struct Timer {
    pub deadline: Nanos,
    pub kind: TimerKind,
}

/// What is known of one key: the level downstream has been told, the level the keyboard last
/// reported, and the timer that runs.
#[derive(Debug, Clone, Copy)]
pub struct KeyState {
    pub logical: bool,
    pub physical: bool,
    pub timer: Option<Timer>,
}

impl KeyState {
    /// A key that has never been touched.
    pub open spec fn idle() -> KeyState {
        KeyState { logical: false, physical: false, timer: None }
    }

    /// Without a timer downstream is up to date; a lockout only runs under `Eager`; a level only
    /// settles while downstream has not been told of it, and only if such edges are deferred.
    pub open spec fn valid(self, mode: Mode) -> bool {
        match self.timer {
            None => self.physical == self.logical,
            Some(timer) => match timer.kind {
                TimerKind::Lockout => mode == Mode::Eager,
                TimerKind::Settle => self.physical != self.logical && mode.policy_for(self.physical)
                    == Policy::Settle,
            },
        }
    }

    /// Its timer has run out by `now`.
    pub open spec fn is_due(self, now: int) -> bool {
        self.timer matches Some(timer) && timer.deadline <= now
    }

    /// The edge that a timer running out by `now` has key `k` report.
    pub open spec fn due_edge(self, k: KeyCode, now: int) -> Option<KeyEvent> {
        if self.is_due(now) && self.physical != self.logical {
            Some(KeyEvent { time: self.timer->0.deadline, key: k, down: self.physical })
        } else {
            None
        }
    }

    /// A timer running out by `now` starts another lockout, one window later.
    pub open spec fn rearms(self, now: int) -> bool {
        &&& self.is_due(now)
        &&& self.timer->0.kind == TimerKind::Lockout
        &&& self.physical != self.logical
    }

    /// The key once every timer of it that runs out by `now` has.
    pub open spec fn expired(self, window: Nanos, now: int) -> KeyState {
        if !self.is_due(now) {
            self
        } else {
            let next = self.timer->0.deadline + window;
            KeyState {
                logical: self.physical,
                physical: self.physical,
                timer: if self.rearms(now) && next > now {
                    Some(Timer { deadline: next as Nanos, kind: TimerKind::Lockout })
                } else {
                    None
                },
            }
        }
    }

    /// The keyboard reporting `down` is a change that nothing holds back yet.
    pub open spec fn begins(self, down: bool) -> bool {
        self.timer is None && down != self.logical
    }

    /// The key after the keyboard reported `down` at `time`.
    pub open spec fn touched(self, mode: Mode, window: Nanos, time: Nanos, down: bool) -> KeyState {
        let deadline = (time + window) as Nanos;
        if self.begins(down) {
            match mode.policy_for(down) {
                Policy::Emit => KeyState {
                    logical: down,
                    physical: down,
                    timer: if mode == Mode::Eager {
                        Some(Timer { deadline, kind: TimerKind::Lockout })
                    } else {
                        None
                    },
                },
                Policy::Settle => KeyState {
                    logical: self.logical,
                    physical: down,
                    timer: Some(Timer { deadline, kind: TimerKind::Settle }),
                },
            }
        } else {
            KeyState {
                logical: self.logical,
                physical: down,
                timer: match self.timer {
                    Some(timer) if timer.kind == TimerKind::Settle && down == self.logical => None,
                    timer => timer,
                },
            }
        }
    }
}

/// The settings, the keys, and the time of the last edge reported.
#[verifier::ext_equal]
pub struct DebouncerView {
    pub mode: Mode,
    pub window: Nanos,
    pub keys: Map<KeyCode, KeyState>,
    pub last_emit: Nanos,
}

/// The later of two times.
pub open spec fn later_of(a: Nanos, b: Nanos) -> Nanos {
    if a < b {
        b
    } else {
        a
    }
}

/// `edges` with no time before `floor`.
pub open spec fn not_before(edges: Seq<KeyEvent>, floor: Nanos) -> Seq<KeyEvent> {
    edges.map_values(|e: KeyEvent| KeyEvent { time: later_of(e.time, floor), ..e })
}

/// The time of the last of `edges`, or `floor` if there is none.
pub open spec fn last_time(edges: Seq<KeyEvent>, floor: Nanos) -> Nanos {
    if edges.len() == 0 {
        floor
    } else {
        edges.last().time
    }
}

impl DebouncerView {
    /// No key has been touched and nothing was reported.
    pub open spec fn fresh(mode: Mode, window: Nanos) -> DebouncerView {
        DebouncerView { mode, window, keys: Map::empty(), last_emit: 0 }
    }

    pub open spec fn key(self, k: KeyCode) -> KeyState {
        if self.keys.contains_key(k) {
            self.keys[k]
        } else {
            KeyState::idle()
        }
    }

    pub open spec fn valid(self) -> bool {
        forall|k: KeyCode| (#[trigger] self.key(k)).valid(self.mode)
    }

    /// No timer runs for any key.
    pub open spec fn is_quiet(self) -> bool {
        forall|k: KeyCode| (#[trigger] self.key(k)).timer is None
    }

    /// The lockouts that start when the timers up to `now` run out end at a time that can be told.
    pub open spec fn timeout_fits(self, now: int) -> bool {
        forall|k: KeyCode|
            (#[trigger] self.key(k)).rearms(now) ==> self.key(k).timer->0.deadline + self.window
                <= Nanos::MAX
    }

    /// For each key the edge that its timer running out by `now` reports.
    pub open spec fn due_edges(self, now: int) -> spec_fn(KeyCode) -> Option<KeyEvent> {
        |k: KeyCode| self.key(k).due_edge(k, now)
    }

    /// What is reported for the timers that run out by `now`: each edge at its deadline, in order
    /// of time and then of key, but none before an edge reported earlier.
    pub open spec fn timeout_edges(self, now: int) -> Seq<KeyEvent> {
        not_before(edges::gathered(self.due_edges(now)), self.last_emit)
    }

    pub open spec fn after_timeout(self, now: int) -> DebouncerView {
        DebouncerView {
            keys: Map::new(
                |k: KeyCode| self.keys.contains_key(k),
                |k: KeyCode| self.keys[k].expired(self.window, now),
            ),
            last_emit: last_time(self.timeout_edges(now), self.last_emit),
            ..self
        }
    }

    /// The timer that the keyboard reporting `down` for `k` starts ends at a time that can be told.
    pub open spec fn key_fits(self, time: Nanos, k: KeyCode, down: bool) -> bool {
        self.key(k).begins(down) && !(self.mode == Mode::Mixed && down) ==> time + self.window
            <= Nanos::MAX
    }

    /// What is reported when the keyboard reports `down` for `k`.
    pub open spec fn key_edges(self, time: Nanos, k: KeyCode, down: bool) -> Seq<KeyEvent> {
        if self.key(k).begins(down) && self.mode.policy_for(down) == Policy::Emit {
            seq![KeyEvent { time: later_of(time, self.last_emit), key: k, down }]
        } else {
            Seq::empty()
        }
    }

    pub open spec fn after_key(self, time: Nanos, k: KeyCode, down: bool) -> DebouncerView {
        DebouncerView {
            keys: self.keys.insert(k, self.key(k).touched(self.mode, self.window, time, down)),
            last_emit: last_time(self.key_edges(time, k, down), self.last_emit),
            ..self
        }
    }

    /// For each key that downstream sees as down its release at `now`.
    pub open spec fn held_edges(self, now: Nanos) -> spec_fn(KeyCode) -> Option<KeyEvent> {
        |k: KeyCode|
            if self.key(k).logical {
                Some(KeyEvent { time: now, key: k, down: false })
            } else {
                None
            }
    }

    /// What is reported when the keyboard goes away: a release of each key that downstream sees as
    /// down, in order of key.
    pub open spec fn release_edges(self, now: Nanos) -> Seq<KeyEvent> {
        not_before(edges::gathered(self.held_edges(now)), self.last_emit)
    }

    pub open spec fn after_release(self, now: Nanos) -> DebouncerView {
        DebouncerView {
            keys: Map::new(
                |k: KeyCode| self.keys.contains_key(k),
                |k: KeyCode| KeyState::idle(),
            ),
            last_emit: last_time(self.release_edges(now), self.last_emit),
            ..self
        }
    }
}

#[derive(Debug, Clone, Copy)]
struct Config {
    mode: Mode,
    window: Nanos,
}

#[derive(Debug)]
pub struct Debouncer {
    cfg: Config,
    keys: HashMap<KeyCode, KeyState>,
    last_emit: Nanos,
}

impl View for Debouncer {
    type V = DebouncerView;

    closed spec fn view(&self) -> DebouncerView {
        DebouncerView {
            mode: self.cfg.mode,
            window: self.cfg.window,
            keys: self.keys@,
            last_emit: self.last_emit,
        }
    }
}

impl Clone for Debouncer {
    fn clone(&self) -> (copy: Debouncer)
        ensures
            copy@ == self@,
    {
        let codes = self.codes();
        let mut keys: HashMap<KeyCode, KeyState> = HashMap::new();
        for i in 0..codes.len()
            invariant
                forall|k: KeyCode| #[trigger] codes@.contains(k) <==> self.keys@.contains_key(k),
                forall|k: KeyCode| #[trigger]
                    keys@.contains_key(k) <==> codes@.take(i as int).contains(k),
                forall|k: KeyCode| #[trigger]
                    keys@.contains_key(k) ==> keys@[k] == self.keys@[k],
        {
            let k = codes[i];
            proof {
                assert(codes@.contains(k));
                codes::lemma_take_contains(codes@, i as int);
            }
            if let Some(st) = self.keys.get(&k) {
                keys.insert(k, *st);
            }
        }
        assert(codes@.take(codes@.len() as int) =~= codes@);
        assert(keys@ =~= self.keys@);
        Debouncer { cfg: self.cfg, keys, last_emit: self.last_emit }
    }
}

/// The debouncer `s` and the edges `held` are on their way from `before`: the first `n` of `codes`,
/// which are all keys ever touched, have been changed, and their picked edges are held in order.
spec fn is_partway(
    before: DebouncerView,
    change: spec_fn(KeyState) -> KeyState,
    pick: spec_fn(KeyCode) -> Option<KeyEvent>,
    codes: Seq<KeyCode>,
    n: int,
    s: DebouncerView,
    held: Seq<KeyEvent>,
) -> bool {
    &&& codes.no_duplicates()
    &&& forall|k: KeyCode| #[trigger] codes.contains(k) <==> before.keys.contains_key(k)
    &&& edges::picks_own(pick)
    &&& forall|k: KeyCode| (#[trigger] pick(k)) is Some ==> before.keys.contains_key(k)
    &&& s == DebouncerView { keys: s.keys, ..before }
    &&& s.keys.dom() == before.keys.dom()
    &&& forall|k: KeyCode|
        before.keys.contains_key(k) ==> #[trigger] s.keys[k] == if codes.take(n).contains(k) {
            change(before.keys[k])
        } else {
            before.keys[k]
        }
    &&& edges::in_order(held)
    &&& forall|e: KeyEvent| #[trigger]
        held.contains(e) <==> codes.take(n).contains(e.key) && pick(e.key) == Some(e)
}

/// The next key is as it was, no edge of it is held yet, and changing it and putting its edge in
/// its place is one more step on the way.
proof fn lemma_partway(
    before: DebouncerView,
    change: spec_fn(KeyState) -> KeyState,
    pick: spec_fn(KeyCode) -> Option<KeyEvent>,
    codes: Seq<KeyCode>,
    n: int,
    s: DebouncerView,
    held: Seq<KeyEvent>,
)
    requires
        is_partway(before, change, pick, codes, n, s, held),
        0 <= n < codes.len(),
    ensures
        ({
            let k = codes[n];
            &&& s.keys.contains_key(k)
            &&& s.keys[k] == before.key(k)
            &&& forall|i: int| 0 <= i < held.len() ==> (#[trigger] held[i]).key != k
            &&& is_partway(
                before,
                change,
                pick,
                codes,
                n + 1,
                DebouncerView { keys: s.keys.insert(k, change(before.key(k))), ..s },
                match pick(k) {
                    Some(e) => edges::placed(held, e),
                    None => held,
                },
            )
        }),
{
    let k = codes[n];
    assert(codes.contains(k));
    assert(before.keys.contains_key(k));
    assert(!codes.take(n).contains(k)) by {
        if codes.take(n).contains(k) {
            assert(codes[codes.take(n).index_of(k)] == codes[n]);
        }
    }
    assert(s.keys[k] == before.keys[k]);
    codes::lemma_take_contains(codes, n);
    assert forall|i: int| 0 <= i < held.len() implies (#[trigger] held[i]).key != k by {
        assert(held.contains(held[i]));
    }
    if let Some(e) = pick(k) {
        edges::lemma_placed(held, e);
    }
    assert(s.keys.insert(k, change(before.key(k))).dom() =~= before.keys.dom());
}

/// At the end of the way every key has been changed and all picked edges are gathered.
proof fn lemma_arrived(
    before: DebouncerView,
    change: spec_fn(KeyState) -> KeyState,
    pick: spec_fn(KeyCode) -> Option<KeyEvent>,
    codes: Seq<KeyCode>,
    s: DebouncerView,
    held: Seq<KeyEvent>,
)
    requires
        is_partway(before, change, pick, codes, codes.len() as int, s, held),
    ensures
        s.keys == Map::new(
            |k: KeyCode| before.keys.contains_key(k),
            |k: KeyCode| change(before.keys[k]),
        ),
        edges::in_order(held),
        held == edges::gathered(pick),
{
    assert(codes.take(codes.len() as int) =~= codes);
    edges::lemma_gathered(pick);
    assert forall|e: KeyEvent| #[trigger] held.contains(e) <==> edges::gathered(pick).contains(
        e,
    ) by {
        assert(pick(e.key) is Some ==> codes.contains(e.key));
    }
    edges::lemma_in_order_unique(held, edges::gathered(pick));
    assert(s.keys =~= Map::new(
        |k: KeyCode| before.keys.contains_key(k),
        |k: KeyCode| change(before.keys[k]),
    ));
}

impl Debouncer {
    /// Every key is in a state that its mode allows.
    pub open spec fn wf(&self) -> bool {
        self@.valid()
    }

    pub fn new(mode: Mode, window: Duration) -> (deb: Debouncer)
        ensures
            deb.wf(),
            deb@ == DebouncerView::fresh(mode, time::whole_nanos(time::nanos_of(window))),
    {
        Debouncer {
            cfg: Config { mode, window: time::saturated(window) },
            keys: HashMap::new(),
            last_emit: 0,
        }
    }

    /// What downstream should currently be seeing.
    pub fn is_down(&self, key: KeyCode) -> (down: bool)
        ensures
            down == self@.key(key).logical,
    {
        match self.keys.get(&key) {
            Some(st) => st.logical,
            None => false,
        }
    }

    /// The codes of all keys that were ever touched, each of them once.
    fn codes(&self) -> (codes: Vec<KeyCode>)
        ensures
            codes@.no_duplicates(),
            forall|k: KeyCode| #[trigger] codes@.contains(k) <==> self@.keys.contains_key(k),
    {
        let mut codes: Vec<KeyCode> = Vec::new();
        let ghost all = vstd::std_specs::iter::IteratorSpec::remaining(
            &vstd::std_specs::hash::spec_keys_iter(&self.keys),
        ).unref();
        for k in it: self.keys.keys()
            invariant
                it.seq().unref() == all,
                codes@ == all.take(it.index() as int),
        {
            proof {
                assert(all.take(it.index() + 1) =~= all.take(it.index() as int).push(*k));
            }
            codes.push(*k);
        }
        assert(codes@ =~= all);
        assert(codes@.to_set() =~= self.keys@.dom());
        assert forall|k: KeyCode| #[trigger] codes@.contains(k) <==> self@.keys.contains_key(k) by {
            assert(codes@.contains(k) <==> codes@.to_set().contains(k));
        }
        codes
    }

    pub fn next_deadline(&self) -> (next: Option<Nanos>)
        ensures
            match next {
                Some(deadline) => {
                    &&& exists|k: KeyCode|
                        (#[trigger] self@.key(k)).timer matches Some(timer) && timer.deadline
                            == deadline
                    &&& forall|k: KeyCode|
                        (#[trigger] self@.key(k)).timer matches Some(timer) ==> deadline
                            <= timer.deadline
                },
                None => self@.is_quiet(),
            },
    {
        let codes = self.codes();
        let mut next: Option<Nanos> = None;
        for i in 0..codes.len()
            invariant
                forall|k: KeyCode| #[trigger] codes@.contains(k) <==> self@.keys.contains_key(k),
                match next {
                    Some(deadline) => {
                        &&& exists|k: KeyCode|
                            (#[trigger] self@.key(k)).timer matches Some(timer) && timer.deadline
                                == deadline
                        &&& forall|j: int|
                            0 <= j < i ==> ((#[trigger] self@.key(codes@[j])).timer matches Some(
                                timer,
                            ) ==> deadline <= timer.deadline)
                    },
                    None => forall|j: int|
                        0 <= j < i ==> (#[trigger] self@.key(codes@[j])).timer is None,
                },
        {
            let k = codes[i];
            assert(codes@.contains(k));
            if let Some(st) = self.keys.get(&k) {
                assert(*st == self@.key(k));
                if let Some(timer) = st.timer {
                    next = match next {
                        Some(deadline) if deadline <= timer.deadline => Some(deadline),
                        _ => Some(timer.deadline),
                    };
                }
            }
        }
        assert forall|k: KeyCode| (#[trigger] self@.key(k)).timer is Some implies exists|j: int|
            0 <= j < codes@.len() && #[trigger] codes@[j] == k by {
            assert(codes@.contains(k));
        }
        next
    }

    /// Whether running out the timers up to `now` only starts lockouts that end at a time that can
    /// be told.
    pub fn timeout_fits(&self, now: Nanos) -> (fits: bool)
        ensures
            fits == self@.timeout_fits(now as int),
    {
        let last: Nanos = Nanos::MAX - self.cfg.window;
        let codes = self.codes();
        for i in 0..codes.len()
            invariant
                last == Nanos::MAX - self@.window,
                forall|k: KeyCode| #[trigger] codes@.contains(k) <==> self@.keys.contains_key(k),
                forall|j: int|
                    0 <= j < i ==> ((#[trigger] self@.key(codes@[j])).rearms(now as int)
                        ==> self@.key(codes@[j]).timer->0.deadline <= last),
        {
            let k = codes[i];
            assert(codes@.contains(k));
            if let Some(st) = self.keys.get(&k) {
                assert(*st == self@.key(k));
                if let Some(timer) = st.timer {
                    if timer.deadline <= now && timer.kind == TimerKind::Lockout && st.physical
                        != st.logical && timer.deadline > last {
                        assert(self@.key(k).rearms(now as int));
                        return false;
                    }
                }
            }
        }
        assert forall|k: KeyCode| (#[trigger] self@.key(k)).timer is Some implies exists|j: int|
            0 <= j < codes@.len() && #[trigger] codes@[j] == k by {
            assert(codes@.contains(k));
        }
        true
    }

    /// Whether the keyboard reporting `down` for `key`, once the timers up to `time` have run out,
    /// only starts a timer that ends at a time that can be told.
    pub fn key_fits(&self, time: Nanos, key: KeyCode, down: bool) -> (fits: bool)
        requires
            self.wf(),
            self@.timeout_fits(time as int),
        ensures
            fits == self@.after_timeout(time as int).key_fits(time, key, down),
    {
        let st = match self.keys.get(&key) {
            Some(st) => *st,
            None => KeyState { logical: false, physical: false, timer: None },
        };
        assert(st == self@.key(key));
        assert(st.valid(self@.mode));
        let (st, _) = Debouncer::expire(self.cfg, st, key, time);
        assert(st == self@.after_timeout(time as int).key(key));
        let starts = st.timer.is_none() && down != st.logical && !(self.cfg.mode == Mode::Mixed
            && down);
        !starts || time <= Nanos::MAX - self.cfg.window
    }

    pub fn on_key(&mut self, time: Nanos, key: KeyCode, down: bool, out: &mut Vec<KeyEvent>)
        requires
            old(self).wf(),
            old(self)@.key_fits(time, key, down),
        ensures
            final(self).wf(),
            final(self)@ == old(self)@.after_key(time, key, down),
            final(out)@ == old(out)@ + old(self)@.key_edges(time, key, down),
    {
        let ghost before = self@;
        let mut st = match self.keys.get(&key) {
            Some(st) => *st,
            None => KeyState { logical: false, physical: false, timer: None },
        };
        assert(st == before.key(key));
        st.physical = down;

        let mut edges: Vec<KeyEvent> = Vec::new();
        match st.timer {
            Some(timer) => {
                if timer.kind == TimerKind::Settle && st.physical == st.logical {
                    // went back to matching downstream again before the deadline
                    st.timer = None;
                }
            },
            None => {
                if st.physical != st.logical {
                    if let Some(edge) = Debouncer::begin_change(self.cfg, &mut st, key, time) {
                        edges.push(edge);
                    }
                }
            },
        }
        assert(st == before.key(key).touched(before.mode, before.window, time, down));

        self.keys.insert(key, st);
        self.settle_output(edges, out);
        proof {
            assert(edges::in_order(edges@));
            assert(not_before(edges@, before.last_emit) =~= before.key_edges(time, key, down));
            assert(self@ =~= before.after_key(time, key, down));
            assert forall|k: KeyCode| (#[trigger] self@.key(k)).valid(self@.mode) by {
                assert(before.key(k).valid(before.mode));
            }
        }
    }

    pub fn on_timeout(&mut self, now: Nanos, out: &mut Vec<KeyEvent>)
        requires
            old(self).wf(),
            old(self)@.timeout_fits(now as int),
        ensures
            final(self).wf(),
            final(self)@ == old(self)@.after_timeout(now as int),
            final(out)@ == old(out)@ + old(self)@.timeout_edges(now as int),
    {
        let ghost before = self@;
        let ghost change = |st: KeyState| st.expired(before.window, now as int);
        let ghost pick = before.due_edges(now as int);
        let codes = self.codes();
        let mut edges: Vec<KeyEvent> = Vec::new();
        for i in 0..codes.len()
            invariant
                before.valid(),
                before.timeout_fits(now as int),
                change == |st: KeyState| st.expired(before.window, now as int),
                pick == before.due_edges(now as int),
                is_partway(before, change, pick, codes@, i as int, self@, edges@),
        {
            let k = codes[i];
            proof {
                lemma_partway(before, change, pick, codes@, i as int, self@, edges@);
                assert(before.key(k).valid(before.mode));
            }
            if let Some(st) = self.keys.get(&k) {
                let (st, edge) = Debouncer::expire(self.cfg, *st, k, now);
                self.keys.insert(k, st);
                if let Some(edge) = edge {
                    edges::place(&mut edges, edge);
                }
            }
        }
        proof {
            lemma_arrived(before, change, pick, codes@, self@, edges@);
        }
        self.settle_output(edges, out);
        proof {
            assert(self@ =~= before.after_timeout(now as int));
            lemma_timeout_valid(before, now as int);
        }
    }

    pub fn release_all(&mut self, now: Nanos, out: &mut Vec<KeyEvent>)
        requires
            old(self).wf(),
        ensures
            final(self).wf(),
            final(self)@ == old(self)@.after_release(now),
            final(out)@ == old(out)@ + old(self)@.release_edges(now),
    {
        let ghost before = self@;
        let ghost change = |st: KeyState| KeyState::idle();
        let ghost pick = before.held_edges(now);
        let codes = self.codes();
        let mut edges: Vec<KeyEvent> = Vec::new();
        for i in 0..codes.len()
            invariant
                change == |st: KeyState| KeyState::idle(),
                pick == before.held_edges(now),
                is_partway(before, change, pick, codes@, i as int, self@, edges@),
        {
            let k = codes[i];
            proof {
                lemma_partway(before, change, pick, codes@, i as int, self@, edges@);
            }
            if let Some(st) = self.keys.get(&k) {
                let was_down = st.logical;
                self.keys.insert(k, KeyState { logical: false, physical: false, timer: None });
                if was_down {
                    edges::place(&mut edges, KeyEvent { time: now, key: k, down: false });
                }
            }
        }
        proof {
            lemma_arrived(before, change, pick, codes@, self@, edges@);
        }
        self.settle_output(edges, out);
        assert(self@ =~= before.after_release(now));
    }

    /// Reports `edges`, none of them before one that was reported earlier.
    fn settle_output(&mut self, edges: Vec<KeyEvent>, out: &mut Vec<KeyEvent>)
        requires
            edges::in_order(edges@),
        ensures
            final(out)@ == old(out)@ + not_before(edges@, old(self)@.last_emit),
            final(self)@ == (DebouncerView {
                last_emit: last_time(
                    not_before(edges@, old(self)@.last_emit),
                    old(self)@.last_emit,
                ),
                ..old(self)@
            }),
    {
        let ghost floor = self.last_emit;
        let ghost settled = not_before(edges@, floor);
        for i in 0..edges.len()
            invariant
                edges::in_order(edges@),
                floor == old(self).last_emit,
                settled == not_before(edges@, floor),
                self.cfg == old(self).cfg,
                self.keys == old(self).keys,
                self.last_emit == last_time(settled.take(i as int), floor),
                out@ == old(out)@ + settled.take(i as int),
        {
            let mut edge = edges[i];
            if edge.time < self.last_emit {
                edge.time = self.last_emit;
            }
            proof {
                assert(settled.take(i + 1) =~= settled.take(i as int).push(settled[i as int]));
                if i > 0 {
                    assert(settled.take(i as int).last() == settled[i - 1]);
                    assert(edges::earlier(edges@[i - 1], edges@[i as int]));
                }
                assert(edge == settled[i as int]);
            }
            self.last_emit = edge.time;
            out.push(edge);
            assert(out@ =~= old(out)@ + settled.take(i + 1));
        }
        assert(settled.take(edges@.len() as int) =~= settled);
    }

    /// Starts reporting a change of the physical level that nothing holds back: reports it and
    /// locks the key out, or leaves it to settle.
    fn begin_change(cfg: Config, st: &mut KeyState, key: KeyCode, time: Nanos) -> (edge: Option<
        KeyEvent,
    >)
        requires
            old(st).physical != old(st).logical,
            cfg.mode == Mode::Mixed && old(st).physical || time + cfg.window <= Nanos::MAX,
        ensures
            final(st).physical == old(st).physical,
            match cfg.mode.policy_for(old(st).physical) {
                Policy::Emit => {
                    &&& edge == Some(KeyEvent { time, key, down: old(st).physical })
                    &&& final(st).logical == old(st).physical
                    &&& final(st).timer == if cfg.mode == Mode::Eager {
                        Some(
                            Timer {
                                deadline: (time + cfg.window) as Nanos,
                                kind: TimerKind::Lockout,
                            },
                        )
                    } else {
                        None
                    }
                },
                Policy::Settle => {
                    &&& edge is None
                    &&& final(st).logical == old(st).logical
                    &&& final(st).timer == Some(
                        Timer { deadline: (time + cfg.window) as Nanos, kind: TimerKind::Settle },
                    )
                },
            },
    {
        match cfg.mode.policy(st.physical) {
            Policy::Emit => {
                st.logical = st.physical;
                st.timer = if cfg.mode.lockout() {
                    Some(Timer { deadline: time + cfg.window, kind: TimerKind::Lockout })
                } else {
                    None
                };
                Some(KeyEvent { time, key, down: st.logical })
            },
            Policy::Settle => {
                st.timer = Some(Timer { deadline: time + cfg.window, kind: TimerKind::Settle });
                None
            },
        }
    }

    /// Runs out the timers of one key up to `now`.
    fn expire(cfg: Config, st: KeyState, key: KeyCode, now: Nanos) -> (expired: (
        KeyState,
        Option<KeyEvent>,
    ))
        requires
            st.valid(cfg.mode),
            st.rearms(now as int) ==> st.timer->0.deadline + cfg.window <= Nanos::MAX,
        ensures
            expired.0 == st.expired(cfg.window, now as int),
            expired.1 == st.due_edge(key, now as int),
    {
        match st.timer {
            Some(timer) if timer.deadline <= now => {
                let mut next = KeyState {
                    logical: st.logical,
                    physical: st.physical,
                    timer: None,
                };
                match timer.kind {
                    TimerKind::Lockout => {
                        if next.physical == next.logical {
                            return (next, None);
                        }
                        let edge = Debouncer::begin_change(cfg, &mut next, key, timer.deadline);
                        // the lockout that starts here runs out onto an unchanged level, since the
                        // physical level can't change without input
                        if let Some(again) = next.timer {
                            if again.deadline <= now {
                                next.timer = None;
                            }
                        }
                        (next, edge)
                    },
                    TimerKind::Settle => {
                        next.logical = next.physical;
                        (
                            next,
                            Some(KeyEvent { time: timer.deadline, key, down: next.logical }),
                        )
                    },
                }
            },
            _ => (st, None),
        }
    }
}

/// Running out timers leaves every key in a state that its mode allows.
pub proof fn lemma_timeout_valid(s: DebouncerView, now: int)
    requires
        s.valid(),
    ensures
        s.after_timeout(now).valid(),
{
    let t = s.after_timeout(now);
    assert forall|k: KeyCode| (#[trigger] t.key(k)).valid(t.mode) by {
        assert(s.key(k).valid(s.mode));
    }
}

} // verus!
