//! Virtual uinput device for the filtered events: what it declares, what it is told, and whether it
//! still fits its source.

use crate::codes;
use crate::device;
use crate::device::{AutoRepeat, DeviceInfo};
use crate::event;
use crate::event::InputEvent;
use crate::event::{EV_KEY, EV_LED, EV_MSC, EV_REP, EV_SYN, REP_DELAY, REP_PERIOD, SYN_REPORT};
use vstd::prelude::*;

verus! {

/// Max size of `uinput_setup.name`; the name + a null terminator has to fit into this.
pub const UINPUT_MAX_NAME_SIZE: usize = 80;

pub const MAX_NAME: usize = 78;

/// The ids of a device.
#[derive(Debug, Clone, Copy, PartialEq, Eq, Structural)]
pub struct InputId {
    pub bus: u16,
    pub vendor: u16,
    pub product: u16,
    pub version: u16,
}

/// What a device is capable of.
#[derive(Debug)]
pub struct Caps {
    pub id: InputId,
    pub keys: Vec<u16>,
    pub leds: Option<Vec<u16>>,
    pub misc: Option<Vec<u16>>,
    pub repeat: Option<AutoRepeat>,
}

/// One bit to set on a device that is being made.
#[derive(Debug, Clone, Copy, PartialEq, Eq, Structural)]
pub enum Declaration {
    /// An event type, by `UI_SET_EVBIT`.
    Event(u16),
    /// A key, by `UI_SET_KEYBIT`.
    Key(u16),
    /// A miscellaneous code, by `UI_SET_MSCBIT`.
    Misc(u16),
    /// An LED, by `UI_SET_LEDBIT`.
    Led(u16),
}

impl Caps {
    /// The bits to set: each event type in front of its codes. There's no `UI_SET_REPBIT`,
    /// declaring `EV_REP` is all it takes.
    pub open spec fn declared(self) -> Seq<Declaration> {
        seq![Declaration::Event(EV_KEY)] + self.keys@.map_values(|k: u16| Declaration::Key(k)) + (
        match self.misc {
            Some(misc) => seq![Declaration::Event(EV_MSC)] + misc@.map_values(
                |m: u16| Declaration::Misc(m),
            ),
            None => Seq::empty(),
        }) + (match self.leds {
            Some(leds) => seq![Declaration::Event(EV_LED)] + leds@.map_values(
                |l: u16| Declaration::Led(l),
            ),
            None => Seq::empty(),
        }) + if self.repeat is Some {
            seq![Declaration::Event(EV_REP)]
        } else {
            Seq::empty()
        }
    }

    fn declare(&self) -> (bits: Vec<Declaration>)
        ensures
            bits@ == self.declared(),
    {
        let mut bits: Vec<Declaration> = Vec::new();
        bits.push(Declaration::Event(EV_KEY));
        let ghost start = bits@;
        for i in 0..self.keys.len()
            invariant
                bits@ == start + self.keys@.take(i as int).map_values(|k: u16| Declaration::Key(k)),
        {
            bits.push(Declaration::Key(self.keys[i]));
            assert(bits@ =~= start + self.keys@.take(i + 1).map_values(
                |k: u16| Declaration::Key(k),
            ));
        }
        assert(self.keys@.take(self.keys@.len() as int) =~= self.keys@);
        let ghost keyed = bits@;
        if let Some(misc) = &self.misc {
            bits.push(Declaration::Event(EV_MSC));
            let ghost start = bits@;
            for i in 0..misc.len()
                invariant
                    bits@ == start + misc@.take(i as int).map_values(|m: u16| Declaration::Misc(m)),
            {
                bits.push(Declaration::Misc(misc[i]));
                assert(bits@ =~= start + misc@.take(i + 1).map_values(
                    |m: u16| Declaration::Misc(m),
                ));
            }
            assert(misc@.take(misc@.len() as int) =~= misc@);
        }
        assert(bits@ =~= keyed + (match self.misc {
            Some(misc) => seq![Declaration::Event(EV_MSC)] + misc@.map_values(
                |m: u16| Declaration::Misc(m),
            ),
            None => Seq::empty(),
        }));
        let ghost scanned = bits@;
        if let Some(leds) = &self.leds {
            bits.push(Declaration::Event(EV_LED));
            let ghost start = bits@;
            for i in 0..leds.len()
                invariant
                    bits@ == start + leds@.take(i as int).map_values(|l: u16| Declaration::Led(l)),
            {
                bits.push(Declaration::Led(leds[i]));
                assert(bits@ =~= start + leds@.take(i + 1).map_values(
                    |l: u16| Declaration::Led(l),
                ));
            }
            assert(leds@.take(leds@.len() as int) =~= leds@);
        }
        assert(bits@ =~= scanned + (match self.leds {
            Some(leds) => seq![Declaration::Event(EV_LED)] + leds@.map_values(
                |l: u16| Declaration::Led(l),
            ),
            None => Seq::empty(),
        }));
        if self.repeat.is_some() {
            bits.push(Declaration::Event(EV_REP));
        }
        assert(bits@ =~= self.declared());
        bits
    }
}

/// The bytes of a name that fit: as many as can be without cutting a character in two.
pub open spec fn is_cut(bytes: Seq<u8>, end: int) -> bool {
    &&& 0 <= end <= bytes.len()
    &&& end <= MAX_NAME
    &&& vstd::utf8::is_char_boundary(bytes, end)
    &&& forall|i: int|
        end < i <= bytes.len() && i <= MAX_NAME ==> !#[trigger] vstd::utf8::is_char_boundary(
            bytes,
            i,
        )
}

/// `encoded` holds the bytes of a name up to `end`, and zeros from there on.
pub open spec fn is_encoded(encoded: Seq<u8>, bytes: Seq<u8>, end: int) -> bool {
    &&& encoded.len() == UINPUT_MAX_NAME_SIZE
    &&& encoded.take(end) == bytes.take(end)
    &&& forall|i: int| end <= i < UINPUT_MAX_NAME_SIZE ==> #[trigger] encoded[i] == 0
}

/// The name as the kernel takes it, or `None` if there is none. It is text, and a null terminator
/// follows it.
pub fn encode_name(name: &str) -> (encoded: Option<[u8; 80]>)
    ensures
        match encoded {
            Some(encoded) => {
                &&& name@.len() > 0
                &&& exists|end: int| #[trigger]
                    is_cut(vstd::utf8::encode_utf8(name@), end) && is_encoded(
                        encoded@,
                        vstd::utf8::encode_utf8(name@),
                        end,
                    ) && vstd::utf8::valid_utf8(encoded@.take(end))
            },
            None => name@.len() == 0,
        },
{
    if name.is_empty() {
        return None;
    }
    let bytes = name.as_bytes();
    let mut end: usize = if bytes.len() < MAX_NAME {
        bytes.len()
    } else {
        MAX_NAME
    };
    proof {
        vstd::utf8::encode_utf8_valid_utf8(name@);
        vstd::utf8::is_char_boundary_start_end_of_seq(bytes@);
    }
    while !name.is_char_boundary(end)
        invariant
            bytes@ == vstd::utf8::encode_utf8(name@),
            vstd::utf8::valid_utf8(bytes@),
            vstd::utf8::is_char_boundary(bytes@, 0),
            end <= bytes@.len(),
            end <= MAX_NAME,
            forall|i: int|
                end < i <= bytes@.len() && i <= MAX_NAME
                    ==> !#[trigger] vstd::utf8::is_char_boundary(bytes@, i),
        decreases end,
    {
        end = end - 1;
    }
    assert(is_cut(bytes@, end as int));
    let mut encoded: [u8; 80] = [0;80];
    for i in 0..end
        invariant
            end <= bytes@.len(),
            end <= MAX_NAME,
            forall|j: int| 0 <= j < i ==> #[trigger] encoded@[j] == bytes@[j],
            forall|j: int| i <= j < 80 ==> #[trigger] encoded@[j] == 0,
    {
        encoded[i] = bytes[i];
    }
    proof {
        assert(encoded@.take(end as int) =~= bytes@.take(end as int));
        vstd::utf8::valid_utf8_split(bytes@, end as int);
        assert(bytes@.take(end as int) =~= bytes@.subrange(0, end as int));
    }
    Some(encoded)
}

/// What a device that is being made is told it is.
pub struct Setup {
    pub id: InputId,
    pub name: [u8; 80],
}

/// The largest value that an event can have stands for all above it.
pub open spec fn event_value(v: u32) -> i32 {
    if v <= i32::MAX {
        v as i32
    } else {
        i32::MAX
    }
}

fn saturated_value(v: u32) -> (value: i32)
    ensures
        value == event_value(v),
{
    if v <= 0x7fff_ffff {
        v as i32
    } else {
        i32::MAX
    }
}

/// The events that carry repeat settings over.
pub open spec fn repeat_events(repeat: AutoRepeat) -> Seq<InputEvent> {
    seq![
        event::made(EV_REP, REP_DELAY, event_value(repeat.delay)),
        event::made(EV_REP, REP_PERIOD, event_value(repeat.period)),
    ]
}

/// One packet: events, and the report that ends them.
pub open spec fn packet(events: Seq<InputEvent>) -> Seq<InputEvent> {
    events.push(event::report_event())
}

/// A packet holds all of its events, in their order and as they are, and ends in one report.
pub proof fn packets_hold_every_event(events: Seq<InputEvent>)
    ensures
        packet(events).len() == events.len() + 1,
        forall|i: int| 0 <= i < events.len() ==> #[trigger] packet(events)[i] == events[i],
        packet(events).last().kind == EV_SYN,
        packet(events).last().code == SYN_REPORT,
        packet(events).last().value == 0,
{
}

/// What it takes to make a virtual device.
pub struct Plan {
    /// The bits to set, in order.
    pub declare: Vec<Declaration>,
    /// What to tell the device it is after that, or `None` if it was not given a name.
    pub setup: Option<Setup>,
    /// What to write to the device once it is made; these settings need to be carried over
    /// manually.
    pub first: Option<Vec<InputEvent>>,
    pub sink: Sink,
}

/// What a virtual device has declared.
#[derive(Debug)]
pub struct Sink {
    pub keys: Vec<u16>,
    pub leds: Vec<u16>,
    pub repeats: bool,
}

fn copied_codes(codes: &[u16]) -> (copy: Vec<u16>)
    ensures
        copy@ == codes@,
{
    let mut copy: Vec<u16> = Vec::new();
    for i in 0..codes.len()
        invariant
            copy@ == codes@.take(i as int),
    {
        copy.push(codes[i]);
        assert(copy@ =~= codes@.take(i + 1));
    }
    assert(copy@ =~= codes@);
    copy
}

fn copied_list(codes: &Option<Vec<u16>>) -> (copy: Option<Vec<u16>>)
    ensures
        codes_view(copy) == codes_view(*codes),
{
    match codes {
        Some(codes) => Some(copied_codes(codes.as_slice())),
        None => None,
    }
}

pub open spec fn codes_view(codes: Option<Vec<u16>>) -> Option<Seq<u16>> {
    match codes {
        Some(codes) => Some(codes@),
        None => None,
    }
}

/// `plan` is what it takes to make a device with `caps` that is called `name`.
pub open spec fn is_plan(plan: Plan, caps: Caps, name: Seq<char>) -> bool {
    &&& plan.declare@ == caps.declared()
    &&& match plan.setup {
        Some(setup) => {
            &&& name.len() > 0
            &&& setup.id == caps.id
            &&& exists|end: int| #[trigger]
                is_cut(vstd::utf8::encode_utf8(name), end) && is_encoded(
                    setup.name@,
                    vstd::utf8::encode_utf8(name),
                    end,
                )
        },
        None => name.len() == 0,
    }
    &&& match (plan.first, caps.repeat) {
        (Some(first), Some(repeat)) => first@ == packet(repeat_events(repeat)),
        (None, None) => true,
        _ => false,
    }
    &&& plan.sink.keys@ == caps.keys@
    &&& plan.sink.leds@ == match caps.leds {
        Some(leds) => leds@,
        None => Seq::empty(),
    }
    &&& plan.sink.repeats == (caps.repeat is Some)
}

impl Sink {
    /// What it takes to make a device that stands in for `source`, or `None` if `source` reports no
    /// keys. The ids are those of `source`, so that workarounds and keymaps and other things keyed
    /// on them still apply.
    pub fn create(source: &DeviceInfo, name: &str) -> (plan: Option<Plan>)
        ensures
            match plan {
                Some(plan) => exists|caps: Caps| #[trigger]
                    is_plan(plan, caps, name@) && source.keys is Some && caps.keys@
                        == source.keys->0@ && codes_view(caps.leds) == codes_view(source.leds)
                        && codes_view(caps.misc) == codes_view(source.misc) && caps.repeat
                        == source.repeat && caps.id == (InputId {
                        bus: source.bus,
                        vendor: source.vendor,
                        product: source.product,
                        version: source.version,
                    }),
                None => source.keys is None,
            },
    {
        let keys = match &source.keys {
            Some(keys) => keys,
            None => {
                return None;
            },
        };
        let caps = Caps {
            id: InputId {
                bus: source.bus,
                vendor: source.vendor,
                product: source.product,
                version: source.version,
            },
            keys: copied_codes(keys.as_slice()),
            leds: copied_list(&source.leds),
            misc: copied_list(&source.misc),
            repeat: source.repeat,
        };
        let plan = Sink::with_caps(&caps, name);
        assert(is_plan(plan, caps, name@));
        Some(plan)
    }

    pub fn with_caps(caps: &Caps, name: &str) -> (plan: Plan)
        ensures
            is_plan(plan, *caps, name@),
            plan.declare@.contains(Declaration::Event(EV_KEY)),
            plan.declare@.contains(Declaration::Event(EV_MSC)) <==> caps.misc is Some,
            plan.declare@.contains(Declaration::Event(EV_LED)) <==> caps.leds is Some,
            plan.declare@.contains(Declaration::Event(EV_REP)) <==> caps.repeat is Some,
            forall|k: u16| #[trigger]
                plan.declare@.contains(Declaration::Key(k)) <==> caps.keys@.contains(k),
            forall|m: u16| #[trigger]
                plan.declare@.contains(Declaration::Misc(m)) <==> caps.misc is Some
                    && caps.misc->0@.contains(m),
            forall|l: u16| #[trigger]
                plan.declare@.contains(Declaration::Led(l)) <==> caps.leds is Some
                    && caps.leds->0@.contains(l),
    {
        proof {
            lemma_declarations(*caps);
        }
        let setup = match encode_name(name) {
            Some(name) => Some(Setup { id: caps.id, name }),
            None => None,
        };
        let sink = Sink {
            keys: copied_codes(caps.keys.as_slice()),
            leds: match &caps.leds {
                Some(leds) => copied_codes(leds.as_slice()),
                None => Vec::new(),
            },
            repeats: caps.repeat.is_some(),
        };
        let first = match &caps.repeat {
            Some(repeat) => {
                let mut events: Vec<InputEvent> = Vec::new();
                events.push(InputEvent::new(EV_REP, REP_DELAY, saturated_value(repeat.delay)));
                events.push(InputEvent::new(EV_REP, REP_PERIOD, saturated_value(repeat.period)));
                assert(events@ =~= repeat_events(*repeat));
                Some(Sink::emit(events.as_slice()))
            },
            None => None,
        };
        Plan { declare: caps.declare(), setup, first, sink }
    }

    /// One source packet with the terminating `SYN_REPORT`, to be written to the device.
    pub fn emit(events: &[InputEvent]) -> (batch: Vec<InputEvent>)
        ensures
            batch@ == packet(events@),
            batch@.len() == events@.len() + 1,
            forall|i: int| 0 <= i < events@.len() ==> #[trigger] batch@[i] == events@[i],
            batch@.last().kind == EV_SYN,
            batch@.last().code == SYN_REPORT,
            batch@.last().value == 0,
    {
        let mut batch: Vec<InputEvent> = Vec::new();
        for i in 0..events.len()
            invariant
                batch@ == events@.take(i as int),
        {
            batch.push(events[i]);
            assert(batch@ =~= events@.take(i + 1));
        }
        assert(batch@ =~= events@);
        batch.push(InputEvent::new(EV_SYN, SYN_REPORT, 0));
        batch
    }

    /// Whether this sink covers everything `source` is capable of producing. If a device gets
    /// replugged and gains a new key or LED, we need a new sink. Miscellaneous codes are not
    /// compared.
    pub fn covers(&self, source: &DeviceInfo) -> (covers: bool)
        ensures
            covers == ({
                &&& source.keys matches Some(keys) ==> all_among(keys@, self.keys@)
                &&& source.leds matches Some(leds) ==> all_among(leds@, self.leds@)
                &&& source.repeat is Some ==> self.repeats
            }),
            covers ==> (source.keys matches Some(keys) ==> forall|k: u16| #[trigger]
                keys@.contains(k) ==> self.keys@.contains(k)),
            covers ==> (source.leds matches Some(leds) ==> forall|l: u16| #[trigger]
                leds@.contains(l) ==> self.leds@.contains(l)),
            covers && source.repeat is Some ==> self.repeats,
    {
        let keys = match &source.keys {
            Some(keys) => are_among(keys.as_slice(), self.keys.as_slice()),
            None => true,
        };
        let leds = match &source.leds {
            Some(leds) => are_among(leds.as_slice(), self.leds.as_slice()),
            None => true,
        };
        let repeats = source.repeat.is_none() || self.repeats;
        proof {
            if let Some(keys) = &source.keys {
                being_among_goes_by_occurrence(keys@, self.keys@);
            }
            if let Some(leds) = &source.leds {
                being_among_goes_by_occurrence(leds@, self.leds@);
            }
        }
        keys && leds && repeats
    }
}

/// Each of `codes` is among `known`.
pub open spec fn all_among(codes: Seq<u16>, known: Seq<u16>) -> bool {
    forall|i: int| 0 <= i < codes.len() ==> known.contains(#[trigger] codes[i])
}

fn are_among(codes: &[u16], known: &[u16]) -> (all: bool)
    ensures
        all == all_among(codes@, known@),
{
    for i in 0..codes.len()
        invariant
            forall|j: int| 0 <= j < i ==> known@.contains(#[trigger] codes@[j]),
    {
        if !codes::has_code(known, codes[i]) {
            return false;
        }
    }
    true
}

/// A virtual device covers the source it was made for.
pub proof fn sink_covers_its_source(plan: Plan, caps: Caps, name: Seq<char>)
    requires
        is_plan(plan, caps, name),
    ensures
        all_among(caps.keys@, plan.sink.keys@),
        caps.leds matches Some(leds) ==> all_among(leds@, plan.sink.leds@),
        caps.repeat is Some ==> plan.sink.repeats,
{
}

/// Each capability is declared if and only if the device has it, whatever its other capabilities
/// are, and nothing else is declared.
pub proof fn capabilities_are_declared_one_by_one(caps: Caps, declaration: Declaration)
    ensures
        caps.declared().contains(declaration) <==> match declaration {
            Declaration::Event(kind) => {
                ||| kind == EV_KEY
                ||| kind == EV_MSC && caps.misc is Some
                ||| kind == EV_LED && caps.leds is Some
                ||| kind == EV_REP && caps.repeat is Some
            },
            Declaration::Key(k) => caps.keys@.contains(k),
            Declaration::Misc(m) => caps.misc is Some && caps.misc->0@.contains(m),
            Declaration::Led(l) => caps.leds is Some && caps.leds->0@.contains(l),
        },
{
    let all = caps.declared();
    let misc = codes_of(caps.misc);
    let leds = codes_of(caps.leds);
    capabilities_are_declared_in_order(caps);
    let after_keys = 1 + caps.keys@.len();
    let after_misc = after_keys + type_len(caps.misc);
    let after_leds = after_misc + type_len(caps.leds);
    match declaration {
        Declaration::Event(kind) => {
            if kind == EV_KEY {
                assert(all[0] == declaration);
            }
            if kind == EV_MSC && caps.misc is Some {
                assert(all[after_keys as int] == declaration);
            }
            if kind == EV_LED && caps.leds is Some {
                assert(all[after_misc as int] == declaration);
            }
            if kind == EV_REP && caps.repeat is Some {
                assert(all[after_leds as int] == declaration);
            }
        },
        Declaration::Key(k) => {
            if caps.keys@.contains(k) {
                assert(all[1 + caps.keys@.index_of(k)] == declaration);
            }
        },
        Declaration::Misc(m) => {
            if caps.misc is Some && misc.contains(m) {
                assert(all[after_keys + 1 + misc.index_of(m)] == declaration);
            }
        },
        Declaration::Led(l) => {
            if caps.leds is Some && leds.contains(l) {
                assert(all[after_misc + 1 + leds.index_of(l)] == declaration);
            }
        },
    }
    if all.contains(declaration) {
        let i = all.index_of(declaration);
        if 1 <= i < after_keys {
            assert(all[1 + (i - 1)] == Declaration::Key(caps.keys@[i - 1]));
        } else if after_keys < i < after_misc {
            assert(all[after_keys + 1 + (i - after_keys - 1)] == Declaration::Misc(
                misc[i - after_keys - 1],
            ));
        } else if after_misc < i < after_leds {
            assert(all[after_misc + 1 + (i - after_misc - 1)] == Declaration::Led(
                leds[i - after_misc - 1],
            ));
        }
    }
}

proof fn lemma_declarations(caps: Caps)
    ensures
        caps.declared().contains(Declaration::Event(EV_KEY)),
        caps.declared().contains(Declaration::Event(EV_MSC)) <==> caps.misc is Some,
        caps.declared().contains(Declaration::Event(EV_LED)) <==> caps.leds is Some,
        caps.declared().contains(Declaration::Event(EV_REP)) <==> caps.repeat is Some,
        forall|k: u16| #[trigger]
            caps.declared().contains(Declaration::Key(k)) <==> caps.keys@.contains(k),
        forall|m: u16| #[trigger]
            caps.declared().contains(Declaration::Misc(m)) <==> caps.misc is Some
                && caps.misc->0@.contains(m),
        forall|l: u16| #[trigger]
            caps.declared().contains(Declaration::Led(l)) <==> caps.leds is Some
                && caps.leds->0@.contains(l),
{
    capabilities_are_declared_one_by_one(caps, Declaration::Event(EV_KEY));
    capabilities_are_declared_one_by_one(caps, Declaration::Event(EV_MSC));
    capabilities_are_declared_one_by_one(caps, Declaration::Event(EV_LED));
    capabilities_are_declared_one_by_one(caps, Declaration::Event(EV_REP));
    assert forall|k: u16| #[trigger]
        caps.declared().contains(Declaration::Key(k)) <==> caps.keys@.contains(k) by {
        capabilities_are_declared_one_by_one(caps, Declaration::Key(k));
    }
    assert forall|m: u16| #[trigger]
        caps.declared().contains(Declaration::Misc(m)) <==> caps.misc is Some
            && caps.misc->0@.contains(m) by {
        capabilities_are_declared_one_by_one(caps, Declaration::Misc(m));
    }
    assert forall|l: u16| #[trigger]
        caps.declared().contains(Declaration::Led(l)) <==> caps.leds is Some
            && caps.leds->0@.contains(l) by {
        capabilities_are_declared_one_by_one(caps, Declaration::Led(l));
    }
}

/// The codes in a list that may be missing.
spec fn codes_of(codes: Option<Vec<u16>>) -> Seq<u16> {
    match codes {
        Some(codes) => codes@,
        None => Seq::empty(),
    }
}

/// How many bits an event type and its codes take, if the device has it.
pub open spec fn type_len(codes: Option<Vec<u16>>) -> nat {
    match codes {
        Some(codes) => codes@.len() + 1,
        None => 0,
    }
}

/// Each event type is declared right in front of its codes, which come in the order in which the
/// device has them: first keys, then miscellaneous codes, LEDs, and repeats.
pub proof fn capabilities_are_declared_in_order(caps: Caps)
    ensures
        ({
            let all = caps.declared();
            let after_keys = 1 + caps.keys@.len();
            let after_misc = after_keys + type_len(caps.misc);
            let after_leds = after_misc + type_len(caps.leds);
            &&& all.len() == after_leds + if caps.repeat is Some {
                1int
            } else {
                0
            }
            &&& all[0] == Declaration::Event(EV_KEY)
            &&& forall|i: int|
                0 <= i < caps.keys@.len() ==> #[trigger] all[1 + i] == Declaration::Key(
                    caps.keys@[i],
                )
            &&& caps.misc matches Some(misc) ==> {
                &&& all[after_keys as int] == Declaration::Event(EV_MSC)
                &&& forall|i: int|
                    0 <= i < misc@.len() ==> #[trigger] all[after_keys + 1 + i]
                        == Declaration::Misc(misc@[i])
            }
            &&& caps.leds matches Some(leds) ==> {
                &&& all[after_misc as int] == Declaration::Event(EV_LED)
                &&& forall|i: int|
                    0 <= i < leds@.len() ==> #[trigger] all[after_misc + 1 + i]
                        == Declaration::Led(leds@[i])
            }
            &&& caps.repeat is Some ==> all[after_leds as int] == Declaration::Event(EV_REP)
        }),
{
}

/// What is planned for a device with given capabilities has just those: its ids, its keys, its LEDs
/// and its repeat settings, which are told to it first, as they are as far as an event can hold
/// them.
pub proof fn plans_keep_to_the_capabilities(plan: Plan, caps: Caps, name: Seq<char>)
    requires
        is_plan(plan, caps, name),
    ensures
        forall|d: Declaration| #[trigger]
            plan.declare@.contains(d) <==> caps.declared().contains(d),
        plan.setup is Some <==> name.len() > 0,
        plan.setup matches Some(setup) ==> setup.id.bus == caps.id.bus && setup.id.vendor
            == caps.id.vendor && setup.id.product == caps.id.product && setup.id.version
            == caps.id.version,
        forall|k: u16| #[trigger] plan.sink.keys@.contains(k) <==> caps.keys@.contains(k),
        forall|l: u16| #[trigger]
            plan.sink.leds@.contains(l) <==> caps.leds is Some && caps.leds->0@.contains(l),
        plan.sink.repeats <==> caps.repeat is Some,
        plan.first is Some <==> caps.repeat is Some,
        caps.repeat matches Some(repeat) ==> {
            let first = plan.first->0@;
            &&& first.len() == 3
            &&& first[0].kind == EV_REP && first[0].code == REP_DELAY
            &&& first[1].kind == EV_REP && first[1].code == REP_PERIOD
            &&& first[2].kind == EV_SYN && first[2].code == SYN_REPORT
            &&& first[0].value == vstd::math::min(repeat.delay as int, i32::MAX as int)
            &&& first[1].value == vstd::math::min(repeat.period as int, i32::MAX as int)
        },
{
    packets_hold_every_event(repeat_events(caps.repeat->0));
}

/// A name of up to 78 bytes is kept whole; of a longer one as much is kept as can be, so that there
/// is only one way to cut it.
pub proof fn names_are_cut_as_little_as_can_be(bytes: Seq<u8>, end: int, other: int)
    requires
        vstd::utf8::valid_utf8(bytes),
        is_cut(bytes, end),
    ensures
        bytes.len() <= 78 ==> end == bytes.len(),
        end <= 78,
        is_cut(bytes, other) ==> other == end,
        vstd::utf8::is_char_boundary(bytes, other) && 0 <= other <= bytes.len() && other <= 78
            ==> other <= end,
{
    vstd::utf8::is_char_boundary_start_end_of_seq(bytes);
}

/// An encoded name is the bytes that are kept, one by one, and zeros behind them, of which there is
/// at least one.
pub proof fn encoded_names_are_terminated(encoded: Seq<u8>, bytes: Seq<u8>, end: int)
    requires
        is_cut(bytes, end),
        is_encoded(encoded, bytes, end),
    ensures
        encoded.len() == 80,
        forall|i: int| 0 <= i < end ==> #[trigger] encoded[i] == bytes[i],
        forall|i: int| end <= i < 80 ==> #[trigger] encoded[i] == 0,
        encoded.last() == 0,
{
    assert forall|i: int| 0 <= i < end implies #[trigger] encoded[i] == bytes[i] by {
        assert(encoded.take(end)[i] == bytes.take(end)[i]);
    }
}

/// Lists of codes that may be missing are the same if and only if both are missing, or neither is
/// and they agree code by code.
pub proof fn lists_of_codes_are_seen_as_they_are(a: Option<Vec<u16>>, b: Option<Vec<u16>>)
    ensures
        codes_view(a) is Some <==> a is Some,
        a is Some ==> codes_view(a)->0 == a->0@,
        codes_view(a) == codes_view(b) <==> (a is None && b is None) || (a is Some && b is Some
            && a->0@ == b->0@),
{
}

/// Codes are among others if and only if each code that occurs in the former occurs in the latter,
/// in whatever order and however often.
pub proof fn being_among_goes_by_occurrence(codes: Seq<u16>, known: Seq<u16>)
    ensures
        all_among(codes, known) <==> forall|k: u16| #[trigger]
            codes.contains(k) ==> known.contains(k),
{
    if all_among(codes, known) {
        assert forall|k: u16| #[trigger] codes.contains(k) implies known.contains(k) by {
            assert(codes[codes.index_of(k)] == k);
        }
    }
    if forall|k: u16| #[trigger] codes.contains(k) ==> known.contains(k) {
        assert forall|i: int| 0 <= i < codes.len() implies known.contains(#[trigger] codes[i]) by {
            assert(codes.contains(codes[i]));
        }
    }
}

/// What is said when uinput could not be opened always tells what was being opened; a hint follows
/// if and only if it was not there or access was denied, and these hints differ.
pub proof fn hints_go_by_the_error(errno: i32)
    ensures
        "opening /dev/uinput"@.is_prefix_of(uinput_words(errno)),
        uinput_words(errno) == "opening /dev/uinput"@ <==> errno != 1 && errno != 2 && errno != 13,
        uinput_words(1) == uinput_words(13),
        errno == 2 ==> uinput_words(errno) == "opening /dev/uinput"@
            + " (the uinput module may not be loaded: `modprobe uinput`)"@,
        errno == 1 || errno == 13 ==> uinput_words(errno) == "opening /dev/uinput"@
            + " (needs root, or a udev rule giving the `input` group access to it)"@,
{
    reveal_strlit("");
    reveal_strlit(" (the uinput module may not be loaded: `modprobe uinput`)");
    reveal_strlit(" (needs root, or a udev rule giving the `input` group access to it)");
    assert("opening /dev/uinput"@ + ""@ =~= "opening /dev/uinput"@);
    assert(uinput_words(errno).subrange(0, "opening /dev/uinput"@.len() as int)
        =~= "opening /dev/uinput"@);
}

/// `EPERM`
pub const EPERM: i32 = 1;

/// `EACCES`
pub const EACCES: i32 = 13;

/// What to say when uinput could not be opened.
pub open spec fn uinput_words(errno: i32) -> Seq<char> {
    "opening /dev/uinput"@ + if errno == device::ENOENT {
        " (the uinput module may not be loaded: `modprobe uinput`)"@
    } else if errno == EACCES || errno == EPERM {
        " (needs root, or a udev rule giving the `input` group access to it)"@
    } else {
        ""@
    }
}

/// What to say when uinput could not be opened.
pub fn open_uinput_error(errno: i32) -> (text: String)
    ensures
        text@ == uinput_words(errno),
{
    let mut text = "opening /dev/uinput".to_owned();
    if errno == device::ENOENT {
        text.append(" (the uinput module may not be loaded: `modprobe uinput`)");
    } else if errno == EACCES || errno == EPERM {
        text.append(" (needs root, or a udev rule giving the `input` group access to it)");
    } else {
        proof {
            reveal_strlit("");
        }
        assert(text@ + ""@ =~= text@);
    }
    text
}

} // verus!
