//! Input events as the kernel delivers them.

use vstd::prelude::*;

verus! {

/// `EV_SYN`
pub const EV_SYN: u16 = 0x00;

/// `EV_KEY`
pub const EV_KEY: u16 = 0x01;

/// `EV_MSC`
pub const EV_MSC: u16 = 0x04;

/// `EV_LED`
pub const EV_LED: u16 = 0x11;

/// `EV_SND`
pub const EV_SND: u16 = 0x12;

/// `EV_REP`
pub const EV_REP: u16 = 0x14;

/// `EV_FF`
pub const EV_FF: u16 = 0x15;

/// `SYN_REPORT`, which ends a packet.
pub const SYN_REPORT: u16 = 0;

/// `SYN_DROPPED`, by which the kernel tells that it dropped events.
pub const SYN_DROPPED: u16 = 3;

/// `MSC_SCAN`, whose value is what the hardware sent for a key.
pub const MSC_SCAN: u16 = 0x04;

/// `REP_DELAY`
pub const REP_DELAY: u16 = 0x00;

/// `REP_PERIOD`
pub const REP_PERIOD: u16 = 0x01;

/// One event: its timestamp, its type, its code, and its value.
#[derive(Debug, Clone, Copy, PartialEq, Eq, Structural)]
pub struct InputEvent {
    /// The whole seconds of the timestamp.
    pub secs: i64,
    /// The microseconds of the timestamp after those.
    pub micros: i64,
    pub kind: u16,
    pub code: u16,
    pub value: i32,
}

/// An event that is made here; the kernel gives it a timestamp when it is written.
pub open spec fn made(kind: u16, code: u16, value: i32) -> InputEvent {
    InputEvent { secs: 0, micros: 0, kind, code, value }
}

impl InputEvent {
    /// An event that is made here; the kernel gives it a timestamp when it is written.
    pub fn new(kind: u16, code: u16, value: i32) -> (event: InputEvent)
        ensures
            event == made(kind, code, value),
            event.kind == kind,
            event.code == code,
            event.value == value,
            event.secs == 0 && event.micros == 0,
    {
        InputEvent { secs: 0, micros: 0, kind, code, value }
    }
}

/// The event that ends a packet.
pub open spec fn report_event() -> InputEvent {
    made(EV_SYN, SYN_REPORT, 0)
}

/// An event that is made here is just what it was asked to be, and has no timestamp yet; the one
/// that ends a packet is `SYN_REPORT`.
pub proof fn made_events_are_as_asked(kind: u16, code: u16, value: i32)
    ensures
        made(kind, code, value).kind == kind,
        made(kind, code, value).code == code,
        made(kind, code, value).value == value,
        made(kind, code, value).secs == 0,
        made(kind, code, value).micros == 0,
        report_event().kind == EV_SYN,
        report_event().code == SYN_REPORT,
        report_event().value == 0,
{
}

/// An event told apart by its type, as far as a keyboard's types go.
#[derive(Debug, Clone, Copy, PartialEq, Eq, Structural)]
pub enum Summary {
    Synchronization(u16, i32),
    Key(u16, i32),
    Misc(u16, i32),
    Other,
}

/// What an event is, going by its type.
pub open spec fn summary_of(event: InputEvent) -> Summary {
    if event.kind == EV_SYN {
        Summary::Synchronization(event.code, event.value)
    } else if event.kind == EV_KEY {
        Summary::Key(event.code, event.value)
    } else if event.kind == EV_MSC {
        Summary::Misc(event.code, event.value)
    } else {
        Summary::Other
    }
}

/// `evdev::InputEvent::destructure`, which goes by the type of the event alone and hands out its
/// code and value as they are. The types that carry nothing through are not told apart.
#[verifier::external_body]
pub(crate) fn summarize(event: InputEvent) -> (summary: Summary)
    ensures
        summary == summary_of(event),
{
    match evdev::InputEvent::new(event.kind, event.code, event.value).destructure() {
        evdev::EventSummary::Synchronization(_, code, value) => {
            Summary::Synchronization(code.0, value)
        },
        evdev::EventSummary::Key(_, code, value) => Summary::Key(code.0, value),
        evdev::EventSummary::Misc(_, code, value) => Summary::Misc(code.0, value),
        _ => Summary::Other,
    }
}

/// Nothing is lost in telling events apart: of a keyboard's types, the code and the value are those
/// of the event, and different types are told apart.
pub proof fn events_are_told_apart(event: InputEvent, code: u16, value: i32)
    ensures
        summary_of(event) == Summary::Synchronization(code, value) <==> event.kind == EV_SYN
            && event.code == code && event.value == value,
        summary_of(event) == Summary::Key(code, value) <==> event.kind == EV_KEY && event.code
            == code && event.value == value,
        summary_of(event) == Summary::Misc(code, value) <==> event.kind == EV_MSC && event.code
            == code && event.value == value,
        summary_of(event) == Summary::Other <==> event.kind != EV_SYN && event.kind != EV_KEY
            && event.kind != EV_MSC,
{
}

} // verus!
