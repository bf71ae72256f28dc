//! What the daemon knows between two events, and what it does about each.

use crate::codes;
use crate::debounce::{KeyCode, Nanos};
use crate::device;
use crate::device::Timespec;
use crate::event;
use crate::event::{InputEvent, EV_LED, EV_REP};
use crate::pipeline::{Fed, Pipeline, PipelineView, Stats};
use crate::signal;
use crate::text;
use crate::virtdev;
use crate::virtdev::Sink;
use crate::wording;
use std::collections::BTreeMap;
use std::time::Duration;
use vstd::prelude::*;

verus! {

broadcast use vstd::std_specs::btree::group_btree_axioms;

/// `a` and `b` together, or the last time that can be told.
pub open spec fn at_most_forever(a: Nanos, b: Nanos) -> Nanos {
    if a + b <= Nanos::MAX {
        (a + b) as Nanos
    } else {
        Nanos::MAX
    }
}

/// The events that set LEDs to what they are known to be, in order of code.
pub open spec fn led_events(leds: Map<u16, i32>) -> Seq<InputEvent> {
    codes::codes_where(|code: u16| leds.contains_key(code)).map_values(
        |code: u16| event::made(EV_LED, code, leds[code]),
    )
}

/// What is known of the LEDs after `feedback`.
pub open spec fn leds_after(leds: Map<u16, i32>, feedback: Seq<InputEvent>) -> Map<u16, i32>
    decreases feedback.len(),
{
    if feedback.len() == 0 {
        leds
    } else {
        let front = leds_after(leds, feedback.drop_last());
        if feedback.last().kind == EV_LED {
            front.insert(feedback.last().code, feedback.last().value)
        } else {
            front
        }
    }
}

/// `events` without those of another type.
pub open spec fn of_kind(events: Seq<InputEvent>, kind: u16) -> Seq<InputEvent>
    decreases events.len(),
{
    if events.len() == 0 {
        Seq::empty()
    } else if events.last().kind == kind {
        of_kind(events.drop_last(), kind).push(events.last())
    } else {
        of_kind(events.drop_last(), kind)
    }
}

/// What the keyboard is to be told after `feedback`: all LEDs if any changed, and the repeat
/// settings.
pub open spec fn relayed(leds: Map<u16, i32>, feedback: Seq<InputEvent>) -> Seq<InputEvent> {
    (if of_kind(feedback, EV_LED).len() > 0 {
        led_events(leds_after(leds, feedback))
    } else {
        Seq::empty()
    }) + of_kind(feedback, EV_REP)
}

/// A step on the way to having the keyboard back.
#[derive(Debug, Clone, Copy, PartialEq, Eq, Structural)]
pub enum Reconnect {
    /// It is `now`.
    Wake(Nanos),
    /// Whether a device with the fingerprint was found.
    Searched(bool),
    /// Whether any key is held on it, or `None` if it could not tell.
    Checked(Option<bool>),
    /// Whether the virtual device covers it, or `None` if it could not be attached to.
    Attached(Option<bool>),
    /// The virtual device was made anew.
    Rebuilt,
}

/// What to do next to have the keyboard back.
#[derive(Debug, Clone, Copy, PartialEq, Eq, Structural)]
pub enum Action {
    /// Nothing for now.
    Rest,
    /// Search for a device with the fingerprint.
    Search,
    /// Check which keys are held on it.
    Check,
    /// Attach to it.
    Attach,
    /// Tell that keys are still held on it, and try again later.
    TellHeld,
    /// Tell that it could not say which keys are held on it, and attach to it nevertheless.
    TellAndAttach,
    /// Tell that it is not usable yet, and try again later.
    TellUnusable,
    /// Make the virtual device anew, since the keyboard has other capabilities than before.
    Rebuild,
    /// Tell that it is back, and restore its LEDs.
    Resume,
}

#[verifier::ext_equal]
pub struct SessionView {
    pub pipe: PipelineView,
    pub rescan: Nanos,
    /// The keyboard is there.
    pub attached: bool,
    pub next_rescan: Option<Nanos>,
    pub leds: Map<u16, i32>,
    pub last_stamp: Nanos,
}

impl SessionView {
    /// The keyboard is gone.
    pub open spec fn after_disconnect(self, now: Nanos) -> SessionView {
        SessionView {
            pipe: self.pipe.after_release(now),
            attached: false,
            next_rescan: Some(at_most_forever(now, self.rescan)),
            ..self
        }
    }

    /// The keyboard is back.
    pub open spec fn after_resume(self) -> SessionView {
        SessionView { attached: true, next_rescan: None, ..self }
    }

    pub open spec fn after_reconnect(self, step: Reconnect) -> SessionView {
        match self.reconnecting(step) {
            Action::Search => SessionView {
                next_rescan: Some(at_most_forever(step->Wake_0, self.rescan)),
                ..self
            },
            Action::Resume => self.after_resume(),
            _ => self,
        }
    }

    /// What to do next to have the keyboard back: a key that is held on it when it is attached to
    /// would stay stuck for whatever saw it go down, so it is not attached to while any is known to
    /// be held.
    pub open spec fn reconnecting(self, step: Reconnect) -> Action {
        match step {
            Reconnect::Wake(now) => match self.next_rescan {
                Some(due) if due <= now => Action::Search,
                _ => Action::Rest,
            },
            Reconnect::Searched(true) => Action::Check,
            Reconnect::Searched(false) => Action::Rest,
            Reconnect::Checked(Some(false)) => Action::Attach,
            Reconnect::Checked(Some(true)) => Action::TellHeld,
            Reconnect::Checked(None) => Action::TellAndAttach,
            Reconnect::Attached(Some(true)) => Action::Resume,
            Reconnect::Attached(Some(false)) => Action::Rebuild,
            Reconnect::Attached(None) => Action::TellUnusable,
            Reconnect::Rebuilt => Action::Resume,
        }
    }
}

/// What ended a wait.
#[derive(Debug, Clone, Copy, PartialEq, Eq, Structural)]
pub struct Ready {
    pub signaled: bool,
    /// The virtual device was written to from elsewhere.
    pub feedback: bool,
    /// The keyboard is gone.
    pub gone: bool,
}

pub struct Session {
    pipe: Pipeline,
    rescan: Nanos,
    attached: bool,
    next_rescan: Option<Nanos>,
    leds: BTreeMap<u16, i32>,
    last_stamp: Nanos,
}

impl View for Session {
    type V = SessionView;

    closed spec fn view(&self) -> SessionView {
        SessionView {
            pipe: self.pipe@,
            rescan: self.rescan,
            attached: self.attached,
            next_rescan: self.next_rescan,
            leds: self.leds@,
            last_stamp: self.last_stamp,
        }
    }
}

impl Session {
    pub closed spec fn wf(&self) -> bool {
        self.pipe.wf()
    }

    /// A session on a keyboard that is there.
    pub fn new(pipe: Pipeline, rescan: Nanos) -> (session: Session)
        requires
            pipe.wf(),
        ensures
            session.wf(),
            session@ == (SessionView {
                pipe: pipe@,
                rescan,
                attached: true,
                next_rescan: None,
                leds: Map::empty(),
                last_stamp: 0,
            }),
    {
        Session {
            pipe,
            rescan,
            attached: true,
            next_rescan: None,
            leds: BTreeMap::new(),
            last_stamp: 0,
        }
    }

    pub fn is_attached(&self) -> (attached: bool)
        ensures
            attached == self@.attached,
    {
        self.attached
    }

    /// Whether the keyboard going, or the daemon ending, can be counted.
    pub fn release_room(&self) -> (room: bool)
        ensures
            room == self@.pipe.counter_room(),
    {
        self.pipe.counter_room()
    }

    /// Whether the timers up to `now` can run out.
    pub fn tick_room(&self, now: Nanos) -> (room: bool)
        ensures
            room == self@.pipe.tick_room(now),
    {
        self.pipe.tick_room(now)
    }

    /// Whether an event of the keyboard can be taken.
    pub fn pump_room(&self, event: InputEvent) -> (room: bool)
        requires
            self.wf(),
        ensures
            room == (device::has_stamp(event) && self@.pipe.feed_room(
                event,
                device::stamped(event),
            )),
    {
        device::is_stamped(&event) && self.pipe.feed_room(event, device::stamp(&event))
    }

    /// Whether events that were dropped can be caught up on.
    pub fn resync_room(&self, held: &[KeyCode]) -> (room: bool)
        requires
            self.wf(),
        ensures
            room == self@.pipe.resync_room(held@, self@.last_stamp),
    {
        self.pipe.resync_room(held, self.last_stamp)
    }

    pub fn last_stamp(&self) -> (stamp: Nanos)
        ensures
            stamp == self@.last_stamp,
    {
        self.last_stamp
    }

    pub fn stats(&self) -> (stats: Stats)
        ensures
            stats == self@.pipe.stats,
    {
        self.pipe.stats()
    }

    /// Takes an event of the keyboard, at the time of its timestamp.
    pub fn pump(&mut self, event: InputEvent) -> (fed: Fed)
        requires
            old(self).wf(),
            device::has_stamp(event),
            old(self)@.pipe.feed_fits(event, device::stamped(event)),
        ensures
            final(self).wf(),
            final(self)@ == (SessionView {
                pipe: old(self)@.pipe.after_feed(event, device::stamped(event)),
                last_stamp: device::stamped(event),
                ..old(self)@
            }),
            fed == old(self)@.pipe.fed(event),
    {
        let time: Nanos = device::stamp(&event);
        self.last_stamp = time;
        self.pipe.feed(event, time)
    }

    /// Catches up on events that were dropped, as of the last event that was not.
    pub fn resync(&mut self, held: &[KeyCode])
        requires
            old(self).wf(),
            old(self)@.pipe.resync_fits(held@, old(self)@.last_stamp),
        ensures
            final(self).wf(),
            final(self)@ == (SessionView {
                pipe: old(self)@.pipe.after_resync(held@, old(self)@.last_stamp),
                ..old(self)@
            }),
    {
        let time: Nanos = self.last_stamp;
        self.pipe.resync(held, time);
    }

    pub fn tick(&mut self, now: Nanos)
        requires
            old(self).wf(),
            old(self)@.pipe.tick_fits(now),
        ensures
            final(self).wf(),
            final(self)@ == (SessionView { pipe: old(self)@.pipe.after_tick(now), ..old(self)@ }),
    {
        self.pipe.tick(now);
    }

    /// Hands out the packet that is to be written to the virtual device, if there is one.
    pub fn flush(&mut self) -> (batch: Option<Vec<InputEvent>>)
        requires
            old(self).wf(),
        ensures
            final(self).wf(),
            final(self)@ == (SessionView {
                pipe: PipelineView { out: Seq::empty(), ..old(self)@.pipe },
                ..old(self)@
            }),
            match batch {
                Some(batch) => old(self)@.pipe.out.len() > 0 && batch@ == virtdev::packet(
                    old(self)@.pipe.out,
                ),
                None => old(self)@.pipe.out.len() == 0,
            },
            batch matches Some(batch) ==> {
                &&& batch@.len() == old(self)@.pipe.out.len() + 1
                &&& forall|i: int|
                    0 <= i < old(self)@.pipe.out.len() ==> #[trigger] batch@[i]
                        == old(self)@.pipe.out[i]
            },
    {
        if self.pipe.output().len() == 0 {
            assert(self@.pipe.out =~= Seq::empty());
            return None;
        }
        let batch = Sink::emit(self.pipe.output());
        self.pipe.clear_output();
        Some(batch)
    }

    /// Takes note that the keyboard is gone; tells whether it was there.
    pub fn on_disconnect(&mut self, now: Nanos) -> (was_attached: bool)
        requires
            old(self).wf(),
            old(self)@.pipe.counts(old(self)@.pipe.deb.release_edges(now)),
        ensures
            final(self).wf(),
            final(self)@ == old(self)@.after_disconnect(now),
            was_attached == old(self)@.attached,
    {
        let was_attached = self.attached;
        self.attached = false;
        self.pipe.release_all(now);
        self.next_rescan = Some(now.saturating_add(self.rescan));
        was_attached
    }

    /// What to do next to have the keyboard back.
    pub fn try_reconnect(&mut self, step: Reconnect) -> (action: Action)
        requires
            old(self).wf(),
        ensures
            final(self).wf(),
            final(self)@ == old(self)@.after_reconnect(step),
            action == old(self)@.reconnecting(step),
    {
        match step {
            Reconnect::Wake(now) => {
                let is_due = match self.next_rescan {
                    Some(due) => due <= now,
                    None => false,
                };
                if is_due {
                    self.next_rescan = Some(now.saturating_add(self.rescan));
                    Action::Search
                } else {
                    Action::Rest
                }
            },
            Reconnect::Searched(found) => if found {
                Action::Check
            } else {
                Action::Rest
            },
            Reconnect::Checked(held) => match held {
                Some(false) => Action::Attach,
                Some(true) => Action::TellHeld,
                None => Action::TellAndAttach,
            },
            Reconnect::Attached(covered) => match covered {
                Some(true) => {
                    self.attached = true;
                    self.next_rescan = None;
                    Action::Resume
                },
                Some(false) => Action::Rebuild,
                None => Action::TellUnusable,
            },
            Reconnect::Rebuilt => {
                self.attached = true;
                self.next_rescan = None;
                Action::Resume
            },
        }
    }

    /// The LEDs that are known, in order of code.
    fn known_leds(&self) -> (known: Vec<u16>)
        ensures
            known@ == codes::codes_where(|code: u16| self@.leds.contains_key(code)),
    {
        let mut known: Vec<u16> = Vec::new();
        let ghost all = vstd::std_specs::iter::IteratorSpec::remaining(
            &vstd::std_specs::btree::spec_keys_iter(&self.leds),
        ).unref();
        for code in it: self.leds.keys()
            invariant
                it.seq().unref() == all,
                codes::ascending(known@),
                forall|c: u16| #[trigger]
                    known@.contains(c) <==> all.take(it.index() as int).contains(c),
        {
            proof {
                assert(all[it.index() as int] == *code);
                codes::lemma_take_contains(all, it.index() as int);
            }
            codes::insert_code(&mut known, *code);
        }
        proof {
            assert(all.take(all.len() as int) =~= all);
            let pred = |code: u16| self@.leds.contains_key(code);
            codes::lemma_codes_below(pred, 0x1_0000);
            assert(all.to_set() =~= self.leds@.dom());
            assert forall|c: u16| #[trigger]
                known@.contains(c) <==> codes::codes_where(pred).contains(c) by {
                assert(all.contains(c) <==> all.to_set().contains(c));
            }
            codes::lemma_ascending_unique(known@, codes::codes_where(pred));
        }
        known
    }

    fn all_leds(&self) -> (events: Vec<InputEvent>)
        ensures
            events@ == led_events(self@.leds),
    {
        let known = self.known_leds();
        let ghost pred = |code: u16| self@.leds.contains_key(code);
        let mut events: Vec<InputEvent> = Vec::new();
        proof {
            codes::lemma_codes_below(pred, 0x1_0000);
        }
        for i in 0..known.len()
            invariant
                known@ == codes::codes_where(pred),
                pred == (|code: u16| self@.leds.contains_key(code)),
                forall|c: u16| #[trigger] known@.contains(c) <==> pred(c),
                events@ == led_events(self@.leds).take(i as int),
        {
            let code: u16 = known[i];
            assert(known@.contains(code));
            if let Some(value) = self.leds.get(&code) {
                events.push(InputEvent::new(EV_LED, code, *value));
                assert(events@ =~= led_events(self@.leds).take(i + 1));
            }
        }
        assert(events@ =~= led_events(self@.leds));
        events
    }

    /// The packet that sets the LEDs of the keyboard to what they are known to be, if the keyboard
    /// is there and anything is known of them.
    pub fn sync_leds(&self) -> (batch: Option<Vec<InputEvent>>)
        ensures
            match batch {
                Some(batch) => self@.attached && led_events(self@.leds).len() > 0 && batch@
                    == virtdev::packet(led_events(self@.leds)),
                None => !self@.attached || led_events(self@.leds).len() == 0,
            },
    {
        let events = self.all_leds();
        if events.len() == 0 || !self.attached {
            return None;
        }
        Some(Sink::emit(events.as_slice()))
    }

    /// Takes what was written to the virtual device from elsewhere; hands out the packet that is to
    /// be written to the keyboard on that account, if there is one.
    pub fn on_sink_feedback(&mut self, feedback: &[InputEvent]) -> (batch: Option<Vec<InputEvent>>)
        requires
            old(self).wf(),
        ensures
            final(self).wf(),
            final(self)@ == (SessionView {
                leds: leds_after(old(self)@.leds, feedback@),
                ..old(self)@
            }),
            match batch {
                Some(batch) => {
                    &&& old(self)@.attached
                    &&& relayed(old(self)@.leds, feedback@).len() > 0
                    &&& batch@ == virtdev::packet(relayed(old(self)@.leds, feedback@))
                },
                None => !old(self)@.attached || relayed(old(self)@.leds, feedback@).len() == 0,
            },
            forall|i: int| #[trigger]
                is_last_word(feedback@, i) ==> {
                    let code = feedback@[i].code;
                    let value = feedback@[i].value;
                    &&& final(self)@.leds.contains_key(code)
                    &&& final(self)@.leds[code] == value
                    &&& old(self)@.attached ==> (batch matches Some(batch) && batch@.contains(
                        event::made(EV_LED, code, value),
                    ))
                },
    {
        proof {
            every_led_is_remembered(self@.leds, feedback@);
        }
        let mut changed: bool = false;
        let mut repeats: Vec<InputEvent> = Vec::new();
        for i in 0..feedback.len()
            invariant
                self.wf(),
                self.pipe == old(self).pipe,
                self.rescan == old(self).rescan,
                self.attached == old(self).attached,
                self.next_rescan == old(self).next_rescan,
                self.last_stamp == old(self).last_stamp,
                self.leds@ == leds_after(old(self)@.leds, feedback@.take(i as int)),
                changed == (of_kind(feedback@.take(i as int), EV_LED).len() > 0),
                repeats@ == of_kind(feedback@.take(i as int), EV_REP),
        {
            proof {
                assert(feedback@.take(i + 1).drop_last() =~= feedback@.take(i as int));
                assert(feedback@.take(i + 1).last() == feedback@[i as int]);
            }
            let event = feedback[i];
            if event.kind == EV_LED {
                self.leds.insert(event.code, event.value);
                changed = true;
            }
            if event.kind == EV_REP {
                repeats.push(event);
            }
        }
        assert(feedback@.take(feedback@.len() as int) =~= feedback@);
        let mut events: Vec<InputEvent> = if changed {
            self.all_leds()
        } else {
            Vec::new()
        };
        let ghost start = events@;
        for i in 0..repeats.len()
            invariant
                events@ == start + repeats@.take(i as int),
        {
            events.push(repeats[i]);
            assert(events@ =~= start + repeats@.take(i + 1));
        }
        proof {
            assert(events@ =~= relayed(old(self)@.leds, feedback@));
            assert forall|i: int| #[trigger] is_last_word(feedback@, i) implies events@.len()
                > 0 by {
                lemma_led_known(old(self)@.leds, feedback@, i);
                lemma_any_of_kind(feedback@, EV_LED);
                known_leds_are_told(leds_after(old(self)@.leds, feedback@));
                let e = event::made(EV_LED, feedback@[i].code, feedback@[i].value);
                assert(led_events(leds_after(old(self)@.leds, feedback@)).contains(e));
            }
        }
        if events.len() == 0 || !self.attached {
            return None;
        }
        Some(Sink::emit(events.as_slice()))
    }

    /// When something has to happen even if nothing comes in: a timer of the debouncer, or the
    /// next look for the keyboard.
    pub fn next_deadline(&self) -> (next: Option<Nanos>)
        ensures
            match next {
                Some(deadline) => {
                    &&& self@.next_rescan == Some(deadline) || exists|k: KeyCode|
                        (#[trigger] self@.pipe.deb.key(k)).timer matches Some(timer)
                            && timer.deadline == deadline
                    &&& self@.next_rescan matches Some(rescan) ==> deadline <= rescan
                    &&& forall|k: KeyCode|
                        (#[trigger] self@.pipe.deb.key(k)).timer matches Some(timer) ==> deadline
                            <= timer.deadline
                },
                None => self@.next_rescan is None && self@.pipe.deb.is_quiet(),
            },
    {
        match (self.pipe.next_deadline(), self.next_rescan) {
            (Some(timer), Some(rescan)) => if timer <= rescan {
                Some(timer)
            } else {
                Some(rescan)
            },
            (Some(timer), None) => Some(timer),
            (None, rescan) => rescan,
        }
    }

    /// Takes note that the daemon ends: whatever downstream holds is released.
    pub fn shutdown(&mut self, now: Nanos)
        requires
            old(self).wf(),
            old(self)@.pipe.counts(old(self)@.pipe.deb.release_edges(now)),
        ensures
            final(self).wf(),
            final(self)@ == (SessionView {
                pipe: old(self)@.pipe.after_release(now),
                ..old(self)@
            }),
    {
        self.pipe.release_all(now);
    }
}

/// How long to wait for a deadline, which may have passed.
pub fn timeout(deadline: Option<Nanos>, now: Nanos) -> (timeout: Option<Timespec>)
    ensures
        timeout == match deadline {
            Some(deadline) => Some(
                device::timespec_of(
                    if deadline >= now {
                        (deadline - now) as nat
                    } else {
                        0
                    },
                ),
            ),
            None => None,
        },
{
    match deadline {
        Some(deadline) => Some(
            device::timespec(Duration::from_nanos(deadline.saturating_sub(now))),
        ),
        None => None,
    }
}

/// What a wait that ended means, given what there is on the signal pipe, on the virtual device, and
/// on the keyboard if it is there; `None` if the wait was interrupted.
pub fn wait(revents: Option<(u16, u16, Option<u16>)>) -> (ready: Ready)
    ensures
        match revents {
            Some((pipe, sink, keyboard)) => {
                &&& ready.signaled == (signal::intersects(pipe, signal::POLLIN)
                    || signal::intersects(pipe, signal::POLLHUP) || signal::intersects(
                    pipe,
                    signal::POLLERR,
                ) || signal::intersects(pipe, signal::POLLNVAL))
                &&& ready.feedback == signal::intersects(sink, signal::POLLIN)
                &&& ready.gone == (keyboard matches Some(keyboard) && (signal::intersects(
                    keyboard,
                    signal::POLLERR,
                ) || signal::intersects(keyboard, signal::POLLHUP) || signal::intersects(
                    keyboard,
                    signal::POLLNVAL,
                )))
            },
            None => !ready.signaled && !ready.feedback && !ready.gone,
        },
{
    match revents {
        Some((pipe, sink, keyboard)) => Ready {
            signaled: signal::Signals::is_signaled(pipe),
            feedback: signal::is_readable(sink),
            gone: match keyboard {
                Some(keyboard) => signal::is_gone(keyboard),
                None => false,
            },
        },
        None => Ready { signaled: false, feedback: false, gone: false },
    }
}

/// What is said of the statistics at the end.
pub open spec fn summary_words(stats: Stats) -> Seq<char> {
    "shutdown: "@ + text::decimal((stats.edges_in - stats.edges_out) as nat) + " of "@
        + text::decimal(stats.edges_in as nat) + " edges suppressed, "@ + text::decimal(
        stats.repeats_dropped as nat,
    ) + " autorepeats from the source device dropped"@
}

/// What to say of the statistics at the end, if any edge was suppressed.
pub fn summary(stats: Stats) -> (text: Option<String>)
    ensures
        match text {
            Some(text) => stats.edges_in > stats.edges_out && text@ == summary_words(stats),
            None => stats.edges_in <= stats.edges_out,
        },
{
    let suppressed: u64 = stats.suppressed();
    if suppressed == 0 {
        return None;
    }
    let mut text = "shutdown: ".to_owned();
    text.append(text::to_decimal(suppressed as u128).as_str());
    text.append(" of ");
    text.append(text::to_decimal(stats.edges_in as u128).as_str());
    text.append(" edges suppressed, ");
    text.append(text::to_decimal(stats.repeats_dropped as u128).as_str());
    text.append(" autorepeats from the source device dropped");
    Some(text)
}

/// The keyboard is never attached to while a key is known to be held on it.
pub proof fn held_keys_are_waited_for(s: SessionView, step: Reconnect)
    ensures
        s.reconnecting(step) == Action::Attach || s.reconnecting(step) == Action::TellAndAttach
            <==> (step matches Reconnect::Checked(held) && held != Some(true)),
        s.reconnecting(Reconnect::Checked(Some(true))) == Action::TellHeld,
        s.after_reconnect(Reconnect::Checked(Some(true))) == s,
{
}

/// From when the keyboard goes until it is back, there is always a next look for it.
pub proof fn lost_keyboard_is_looked_for(s: SessionView, now: Nanos, step: Reconnect)
    ensures
        s.after_disconnect(now).next_rescan is Some,
        !s.attached && s.next_rescan is Some ==> s.after_reconnect(step).next_rescan is Some
            || s.after_reconnect(step).attached,
        s.after_disconnect(now).reconnecting(
            Reconnect::Wake(at_most_forever(now, s.rescan)),
        ) == Action::Search,
{
}

/// The LEDs that were set while the keyboard was gone, or before, are restored when it is back:
/// whatever was last asked of an LED is among what it is told.
pub proof fn leds_are_remembered(
    leds: Map<u16, i32>,
    feedback: Seq<InputEvent>,
    code: u16,
    value: i32,
)
    requires
        feedback.len() > 0,
        feedback.last().kind == EV_LED,
        feedback.last().code == code,
        feedback.last().value == value,
    ensures
        led_events(leds_after(leds, feedback)).contains(event::made(EV_LED, code, value)),
        relayed(leds, feedback).contains(event::made(EV_LED, code, value)),
{
    let after = leds_after(leds, feedback);
    let pred = |c: u16| after.contains_key(c);
    codes::lemma_codes_below(pred, 0x1_0000);
    let known = codes::codes_where(pred);
    assert(pred(code));
    assert(known.contains(code));
    let i = known.index_of(code);
    let event = event::made(EV_LED, code, value);
    assert(led_events(after)[i] == event);
    assert(of_kind(feedback, EV_LED).len() > 0);
    assert(relayed(leds, feedback)[i] == event);
}

/// Event `i` of `feedback` is the last that sets its LED.
pub open spec fn is_last_word(feedback: Seq<InputEvent>, i: int) -> bool {
    &&& 0 <= i < feedback.len()
    &&& feedback[i].kind == EV_LED
    &&& forall|j: int|
        i < j < feedback.len() ==> !((#[trigger] feedback[j]).kind == EV_LED && feedback[j].code
            == feedback[i].code)
}

proof fn lemma_led_known(leds: Map<u16, i32>, feedback: Seq<InputEvent>, i: int)
    requires
        is_last_word(feedback, i),
    ensures
        leds_after(leds, feedback).contains_key(feedback[i].code),
        leds_after(leds, feedback)[feedback[i].code] == feedback[i].value,
        of_kind(feedback, EV_LED).len() > 0,
    decreases feedback.len(),
{
    if i < feedback.len() - 1 {
        let front = feedback.drop_last();
        assert(feedback[feedback.len() - 1] == feedback.last());
        assert forall|j: int| i < j < front.len() implies !((#[trigger] front[j]).kind == EV_LED
            && front[j].code == front[i].code) by {
            assert(front[j] == feedback[j]);
        }
        lemma_led_known(leds, front, i);
    }
}

proof fn lemma_led_untouched(leds: Map<u16, i32>, feedback: Seq<InputEvent>, code: u16)
    requires
        forall|j: int|
            0 <= j < feedback.len() ==> !((#[trigger] feedback[j]).kind == EV_LED
                && feedback[j].code == code),
    ensures
        leds_after(leds, feedback).contains_key(code) <==> leds.contains_key(code),
        leds.contains_key(code) ==> leds_after(leds, feedback)[code] == leds[code],
    decreases feedback.len(),
{
    if feedback.len() > 0 {
        let front = feedback.drop_last();
        assert(feedback[feedback.len() - 1] == feedback.last());
        assert forall|j: int| 0 <= j < front.len() implies !((#[trigger] front[j]).kind == EV_LED
            && front[j].code == code) by {
            assert(front[j] == feedback[j]);
        }
        lemma_led_untouched(leds, front, code);
    }
}

/// The LEDs that are known are all told, each once with what it is known to be, in order of code,
/// and nothing else is told with them.
pub proof fn known_leds_are_told(leds: Map<u16, i32>)
    ensures
        forall|e: InputEvent| #[trigger]
            led_events(leds).contains(e) <==> e.kind == EV_LED && leds.contains_key(e.code)
                && e.value == leds[e.code] && e.secs == 0 && e.micros == 0,
        forall|i: int, j: int|
            0 <= i < j < led_events(leds).len() ==> (#[trigger] led_events(leds)[i]).code < (
            #[trigger] led_events(leds)[j]).code,
{
    let pred = |c: u16| leds.contains_key(c);
    codes::lemma_codes_below(pred, 0x1_0000);
    let known = codes::codes_where(pred);
    let all = led_events(leds);
    assert forall|e: InputEvent| #[trigger] all.contains(e) <==> e.kind == EV_LED
        && leds.contains_key(e.code) && e.value == leds[e.code] && e.secs == 0 && e.micros == 0 by {
        if all.contains(e) {
            let i = all.index_of(e);
            assert(known.contains(known[i]));
            assert(pred(known[i]));
        }
        if e.kind == EV_LED && leds.contains_key(e.code) && e.value == leds[e.code] && e.secs == 0
            && e.micros == 0 {
            assert(pred(e.code));
            assert(known.contains(e.code));
            assert(all[known.index_of(e.code)] == e);
        }
    }
    assert forall|i: int, j: int| 0 <= i < j < all.len() implies (#[trigger] all[i]).code < (
    #[trigger] all[j]).code by {
        assert(known[i] < known[j]);
    }
}

/// Whatever was last asked of an LED is what is known of it from then on, and is among what the
/// keyboard is told, both at once and when it comes back; what was known of the LEDs that were not
/// asked anything stays known.
pub proof fn every_led_is_remembered(leds: Map<u16, i32>, feedback: Seq<InputEvent>)
    ensures
        forall|i: int| #[trigger]
            is_last_word(feedback, i) ==> {
                let code = feedback[i].code;
                let value = feedback[i].value;
                &&& leds_after(leds, feedback).contains_key(code)
                &&& leds_after(leds, feedback)[code] == value
                &&& virtdev::packet(relayed(leds, feedback)).contains(
                    event::made(EV_LED, code, value),
                )
                &&& virtdev::packet(led_events(leds_after(leds, feedback))).contains(
                    event::made(EV_LED, code, value),
                )
            },
        forall|code: u16|
            (forall|j: int|
                0 <= j < feedback.len() ==> !((#[trigger] feedback[j]).kind == EV_LED
                    && feedback[j].code == code)) ==> {
                &&& #[trigger] leds_after(leds, feedback).contains_key(code) <==> leds.contains_key(
                    code,
                )
                &&& leds.contains_key(code) ==> leds_after(leds, feedback)[code] == leds[code]
            },
{
    let after = leds_after(leds, feedback);
    let told = led_events(after);
    known_leds_are_told(after);
    virtdev::packets_hold_every_event(told);
    virtdev::packets_hold_every_event(relayed(leds, feedback));
    assert forall|i: int| #[trigger] is_last_word(feedback, i) implies {
        let code = feedback[i].code;
        let value = feedback[i].value;
        &&& after.contains_key(code)
        &&& after[code] == value
        &&& virtdev::packet(relayed(leds, feedback)).contains(event::made(EV_LED, code, value))
        &&& virtdev::packet(told).contains(event::made(EV_LED, code, value))
    } by {
        lemma_led_known(leds, feedback, i);
        let e = event::made(EV_LED, feedback[i].code, feedback[i].value);
        assert(told.contains(e));
        let m = told.index_of(e);
        assert(relayed(leds, feedback)[m] == e);
        assert(virtdev::packet(relayed(leds, feedback))[m] == e);
        assert(virtdev::packet(told)[m] == e);
    }
    assert forall|code: u16|
        (forall|j: int|
            0 <= j < feedback.len() ==> !((#[trigger] feedback[j]).kind == EV_LED
                && feedback[j].code == code)) implies {
        &&& #[trigger] after.contains_key(code) <==> leds.contains_key(code)
        &&& leds.contains_key(code) ==> after[code] == leds[code]
    } by {
        lemma_led_untouched(leds, feedback, code);
    }
}

/// The events of a type are picked out of others as they are and in their order.
pub proof fn events_are_picked_by_type(events: Seq<InputEvent>, kind: u16)
    ensures
        of_kind(events, kind) == events.filter(|e: InputEvent| e.kind == kind),
    decreases events.len(),
{
    reveal(Seq::filter);
    if events.len() > 0 {
        events_are_picked_by_type(events.drop_last(), kind);
    }
}

/// What the keyboard is told after feedback ends in the repeat settings of the feedback, as they
/// are and in their order; in front of them are all LEDs that are known by then, if the feedback
/// set any, and nothing otherwise.
pub proof fn feedback_is_relayed(leds: Map<u16, i32>, feedback: Seq<InputEvent>)
    ensures
        ({
            let repeats = feedback.filter(|e: InputEvent| e.kind == EV_REP);
            let front = relayed(leds, feedback).len() - repeats.len();
            &&& front >= 0
            &&& relayed(leds, feedback).skip(front) == repeats
            &&& relayed(leds, feedback).take(front) == if exists|i: int|
                0 <= i < feedback.len() && (#[trigger] feedback[i]).kind == EV_LED {
                led_events(leds_after(leds, feedback))
            } else {
                Seq::empty()
            }
        }),
{
    events_are_picked_by_type(feedback, EV_REP);
    lemma_any_of_kind(feedback, EV_LED);
    let repeats = feedback.filter(|e: InputEvent| e.kind == EV_REP);
    let front = relayed(leds, feedback).len() - repeats.len();
    assert(relayed(leds, feedback).skip(front) =~= repeats);
    assert(relayed(leds, feedback).take(front) =~= if of_kind(feedback, EV_LED).len() > 0 {
        led_events(leds_after(leds, feedback))
    } else {
        Seq::empty()
    });
}

/// Feedback of which each part is taken in turn leaves the LEDs known as the whole does.
pub proof fn feedback_can_come_in_parts(
    leds: Map<u16, i32>,
    first: Seq<InputEvent>,
    second: Seq<InputEvent>,
)
    ensures
        leds_after(leds, first + second) == leds_after(leds_after(leds, first), second),
    decreases second.len(),
{
    if second.len() == 0 {
        assert(first + second =~= first);
    } else {
        assert((first + second).drop_last() =~= first + second.drop_last());
        assert((first + second).last() == second.last());
        feedback_can_come_in_parts(leds, first, second.drop_last());
    }
}

/// A look for the keyboard is taken if and only if it is due; the next one is due one interval
/// later, or at the last time that can be told.
pub proof fn looks_are_taken_when_due(s: SessionView, now: Nanos)
    ensures
        s.reconnecting(Reconnect::Wake(now)) == Action::Search <==> s.next_rescan is Some
            && s.next_rescan->0 <= now,
        s.reconnecting(Reconnect::Wake(now)) != Action::Search ==> s.reconnecting(
            Reconnect::Wake(now),
        ) == Action::Rest && s.after_reconnect(Reconnect::Wake(now)) == s,
        s.reconnecting(Reconnect::Wake(now)) == Action::Search ==> s.after_reconnect(
            Reconnect::Wake(now),
        ).next_rescan == Some(
            vstd::math::min(now + s.rescan, Nanos::MAX as int) as Nanos,
        ),
{
}

/// The keyboard is there again when and only when it was attached to and the virtual device covers
/// it, or was made anew; until then the search goes on, and nothing but the search is touched.
pub proof fn only_a_covered_keyboard_is_back(s: SessionView, step: Reconnect)
    ensures
        s.reconnecting(step) == Action::Resume <==> step == Reconnect::Attached(Some(true)) || step
            == Reconnect::Rebuilt,
        s.reconnecting(step) == Action::Rebuild <==> step == Reconnect::Attached(Some(false)),
        s.reconnecting(step) == Action::TellUnusable <==> step == Reconnect::Attached(None),
        s.reconnecting(step) == Action::Check <==> step == Reconnect::Searched(true),
        s.after_reconnect(step).attached <==> s.attached || s.reconnecting(step) == Action::Resume,
        s.reconnecting(step) == Action::Resume ==> s.after_reconnect(step).next_rescan is None,
        s.reconnecting(step) != Action::Resume && s.reconnecting(step) != Action::Search
            ==> s.after_reconnect(step) == s,
        s.after_reconnect(step).pipe == s.pipe,
        s.after_reconnect(step).leds == s.leds,
        s.after_reconnect(step).rescan == s.rescan,
        s.after_reconnect(step).last_stamp == s.last_stamp,
{
}

/// Losing the keyboard releases its keys and starts the search, one interval from then; the LEDs
/// stay known for when it is back.
pub proof fn losing_the_keyboard_starts_the_search(s: SessionView, now: Nanos)
    ensures
        ({
            let t = s.after_disconnect(now);
            &&& !t.attached
            &&& t.next_rescan == Some(vstd::math::min(now + s.rescan, Nanos::MAX as int) as Nanos)
            &&& forall|k: KeyCode| !(#[trigger] t.pipe.deb.key(k)).logical
            &&& t.pipe == s.pipe.after_release(now)
            &&& t.leds == s.leds
            &&& t.rescan == s.rescan
            &&& t.last_stamp == s.last_stamp
        }),
{
}

/// What is said at the end tells how many edges were suppressed, of how many, and how many repeats
/// were dropped.
pub proof fn the_summary_tells_the_counts(stats: Stats)
    requires
        stats.edges_in >= stats.edges_out,
    ensures
        text::occurs(
            summary_words(stats),
            text::decimal((stats.edges_in - stats.edges_out) as nat) + " of "@ + text::decimal(
                stats.edges_in as nat,
            ) + " edges suppressed"@,
        ),
        text::occurs(
            summary_words(stats),
            text::decimal(stats.repeats_dropped as nat) + " autorepeats"@,
        ),
{
    reveal_strlit(" edges suppressed, ");
    reveal_strlit(" edges suppressed");
    reveal_strlit(", ");
    reveal_strlit(" autorepeats from the source device dropped");
    reveal_strlit(" autorepeats");
    reveal_strlit(" from the source device dropped");
    let words = summary_words(stats);
    let less = text::decimal((stats.edges_in - stats.edges_out) as nat);
    let all = text::decimal(stats.edges_in as nat);
    let repeats = text::decimal(stats.repeats_dropped as nat);
    assert(" edges suppressed"@ + ", "@ =~= " edges suppressed, "@);
    assert(" autorepeats"@ + " from the source device dropped"@
        =~= " autorepeats from the source device dropped"@);
    let first = less + " of "@ + all + " edges suppressed"@;
    let end = ", "@ + repeats + " autorepeats from the source device dropped"@;
    wording::what_is_surrounded_occurs("shutdown: "@, first, end);
    assert("shutdown: "@ + first + end =~= words);
    wording::what_is_surrounded_occurs(
        "shutdown: "@ + first + ", "@,
        repeats + " autorepeats"@,
        " from the source device dropped"@,
    );
    assert("shutdown: "@ + first + ", "@ + (repeats + " autorepeats"@)
        + " from the source device dropped"@ =~= words);
}

proof fn lemma_of_kind(events: Seq<InputEvent>, kind: u16)
    ensures
        forall|i: int|
            0 <= i < of_kind(events, kind).len() ==> (#[trigger] of_kind(events, kind)[i]).kind
                == kind,
    decreases events.len(),
{
    if events.len() > 0 {
        lemma_of_kind(events.drop_last(), kind);
        let front = of_kind(events.drop_last(), kind);
        assert forall|i: int| 0 <= i < of_kind(events, kind).len() implies (
        #[trigger] of_kind(events, kind)[i]).kind == kind by {
            if i < front.len() {
                assert(of_kind(events, kind)[i] == front[i]);
            }
        }
    }
}

proof fn lemma_any_of_kind(events: Seq<InputEvent>, kind: u16)
    ensures
        of_kind(events, kind).len() > 0 <==> exists|i: int|
            0 <= i < events.len() && (#[trigger] events[i]).kind == kind,
    decreases events.len(),
{
    if events.len() > 0 {
        let front = events.drop_last();
        lemma_any_of_kind(front, kind);
        if of_kind(front, kind).len() > 0 {
            let i = choose|i: int| 0 <= i < front.len() && (#[trigger] front[i]).kind == kind;
            assert(events[i].kind == kind);
        }
        assert(events[events.len() - 1] == events.last());
        if exists|i: int| 0 <= i < events.len() && (#[trigger] events[i]).kind == kind {
            let i = choose|i: int| 0 <= i < events.len() && (#[trigger] events[i]).kind == kind;
            if i < front.len() {
                assert(front[i].kind == kind);
            }
        }
    }
}

/// Only LEDs and repeat settings are ever passed on to the keyboard, not beeps or rumble.
pub proof fn only_leds_and_repeats_are_relayed(
    leds: Map<u16, i32>,
    feedback: Seq<InputEvent>,
    i: int,
)
    requires
        0 <= i < relayed(leds, feedback).len(),
    ensures
        relayed(leds, feedback)[i].kind == EV_LED || relayed(leds, feedback)[i].kind == EV_REP,
{
    lemma_of_kind(feedback, EV_REP);
    let front = if of_kind(feedback, EV_LED).len() > 0 {
        led_events(leds_after(leds, feedback))
    } else {
        Seq::empty()
    };
    if i >= front.len() {
        assert(relayed(leds, feedback)[i] == of_kind(feedback, EV_REP)[i - front.len()]);
    }
}

} // verus!
