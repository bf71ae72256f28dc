//! Identifies and ranks input devices, and tells apart what can become of opening or losing one.

use crate::codes;
use crate::edges::Nanos;
use crate::event::{InputEvent, EV_KEY};
use crate::table;
use crate::text;
use crate::time;
use std::time::{Duration, SystemTime};
use vstd::prelude::*;

verus! {

/// `KEY_ENTER`
pub const KEY_ENTER: u16 = 28;

/// `KEY_A`
pub const KEY_A: u16 = 30;

/// The repeat settings of a device, in milliseconds.
#[derive(Debug, Clone, Copy, PartialEq, Eq, Structural)]
pub struct AutoRepeat {
    pub delay: u32,
    pub period: u32,
}

/// What a device says of itself.
#[derive(Debug)]
pub struct DeviceInfo {
    pub name: Option<String>,
    pub uniq: Option<String>,
    pub vendor: u16,
    pub product: u16,
    pub version: u16,
    pub bus: u16,
    /// The event types it supports.
    pub events: Vec<u16>,
    pub keys: Option<Vec<u16>>,
    pub leds: Option<Vec<u16>>,
    pub misc: Option<Vec<u16>>,
    pub repeat: Option<AutoRepeat>,
}

pub open spec fn text_view(text: Option<String>) -> Option<Seq<char>> {
    match text {
        Some(text) => Some(text@),
        None => None,
    }
}

/// Identity used to recognize a device on replug.
///
/// Two identical keyboards that don't report a serial in `uniq` end up having the same fingerprint,
/// and reconnecting to "the same" one is a coin flip.
#[derive(Debug, PartialEq, Eq)]
pub struct Fingerprint {
    pub name: Option<String>,
    pub uniq: Option<String>,
    pub vendor: u16,
    pub product: u16,
    pub version: u16,
    pub bus: u16,
}

pub struct FingerprintView {
    pub name: Option<Seq<char>>,
    pub uniq: Option<Seq<char>>,
    pub vendor: u16,
    pub product: u16,
    pub version: u16,
    pub bus: u16,
}

impl View for Fingerprint {
    type V = FingerprintView;

    open spec fn view(&self) -> FingerprintView {
        FingerprintView {
            name: text_view(self.name),
            uniq: text_view(self.uniq),
            vendor: self.vendor,
            product: self.product,
            version: self.version,
            bus: self.bus,
        }
    }
}

impl DeviceInfo {
    pub open spec fn identity(self) -> FingerprintView {
        FingerprintView {
            name: text_view(self.name),
            uniq: text_view(self.uniq),
            vendor: self.vendor,
            product: self.product,
            version: self.version,
            bus: self.bus,
        }
    }
}

/// What a device without a name is called.
pub open spec fn called(name: Option<Seq<char>>) -> Seq<char> {
    match name {
        Some(name) => name,
        None => "<unnamed device>"@,
    }
}

impl FingerprintView {
    /// The name and the ids, as a device is told to the user.
    pub open spec fn words(self) -> Seq<char> {
        called(self.name) + " ["@ + text::hex4(self.vendor) + ":"@ + text::hex4(self.product)
            + "]"@
    }
}

fn copied(text: &Option<String>) -> (copy: Option<String>)
    ensures
        text_view(copy) == text_view(*text),
{
    match text {
        Some(text) => Some(text.as_str().to_owned()),
        None => None,
    }
}

impl Clone for Fingerprint {
    fn clone(&self) -> (copy: Fingerprint)
        ensures
            copy@ == self@,
    {
        Fingerprint {
            name: copied(&self.name),
            uniq: copied(&self.uniq),
            vendor: self.vendor,
            product: self.product,
            version: self.version,
            bus: self.bus,
        }
    }
}

fn same_text(a: &Option<String>, b: &Option<String>) -> (same: bool)
    ensures
        same == (text_view(*a) == text_view(*b)),
{
    match (a, b) {
        (Some(a), Some(b)) => text::same(a.as_str(), b.as_str()),
        (None, None) => true,
        _ => false,
    }
}

impl Fingerprint {
    pub fn of(dev: &DeviceInfo) -> (fingerprint: Fingerprint)
        ensures
            fingerprint@ == dev.identity(),
    {
        Fingerprint {
            name: copied(&dev.name),
            uniq: copied(&dev.uniq),
            vendor: dev.vendor,
            product: dev.product,
            version: dev.version,
            bus: dev.bus,
        }
    }

    pub fn matches(&self, dev: &DeviceInfo) -> (matches: bool)
        ensures
            matches == (self@ == dev.identity()),
    {
        same_text(&self.name, &dev.name) && same_text(&self.uniq, &dev.uniq) && self.vendor
            == dev.vendor && self.product == dev.product && self.version == dev.version && self.bus
            == dev.bus
    }

    pub fn display_name(&self) -> (name: &str)
        ensures
            name@ == called(self@.name),
    {
        match &self.name {
            Some(name) => name.as_str(),
            None => "<unnamed device>",
        }
    }

    /// The name and the ids, as a device is told to the user.
    pub fn text(&self) -> (text: String)
        ensures
            text@ == self@.words(),
    {
        let mut text = self.display_name().to_owned();
        text.append(" [");
        text.append(text::to_hex4(self.vendor).as_str());
        text.append(":");
        text.append(text::to_hex4(self.product).as_str());
        text.append("]");
        text
    }
}

/// How high a device should be listed on `--list`; the lower, the more certain it's a keyboard.
#[derive(Debug, Clone, Copy, PartialEq, Eq, Structural)]
pub enum DeviceListingRank {
    Keyboard,
    MaybeKeyboard,
    ProbablyNotKeyboard,
    NotKeyboard,
}

/// The name, in lowercase, is one of a device that has keys and is no keyboard.
///
/// "video bus" may seem absurd but such devices do have keys.
pub open spec fn sounds_like_no_keyboard(name: Seq<char>) -> bool {
    ||| text::occurs(name, "touchpad"@)
    ||| text::occurs(name, "trackpad"@)
    ||| text::occurs(name, "tablet"@)
    ||| text::occurs(name, "mouse"@)
    ||| text::occurs(name, "speaker"@)
    ||| text::occurs(name, "headphone"@)
    ||| text::occurs(name, "headset"@)
    ||| text::occurs(name, "power button"@)
    ||| text::occurs(name, "video bus"@)
}

impl DeviceInfo {
    /// The keys that it supports, if it supports key events at all.
    pub open spec fn supported_keys(self) -> Option<Seq<u16>> {
        match self.keys {
            Some(keys) if self.events@.contains(EV_KEY) => Some(keys@),
            _ => None,
        }
    }

    pub open spec fn listing_rank(self) -> DeviceListingRank {
        match (self.supported_keys(), self.name) {
            (Some(keys), _) if keys.contains(KEY_A) || keys.contains(
                KEY_ENTER,
            ) => DeviceListingRank::Keyboard,
            (Some(keys), Some(name)) if keys.len() > 0 => if sounds_like_no_keyboard(
                text::lowercased(name@),
            ) {
                DeviceListingRank::ProbablyNotKeyboard
            } else {
                DeviceListingRank::MaybeKeyboard
            },
            _ => DeviceListingRank::NotKeyboard,
        }
    }
}

impl DeviceListingRank {
    pub fn rank(dev: &DeviceInfo) -> (rank: DeviceListingRank)
        ensures
            rank == dev.listing_rank(),
            rank == DeviceListingRank::Keyboard <==> dev.events@.contains(EV_KEY) && dev.keys is Some
                && (dev.keys->0@.contains(KEY_A) || dev.keys->0@.contains(KEY_ENTER)),
    {
        if !codes::has_code(dev.events.as_slice(), EV_KEY) {
            return DeviceListingRank::NotKeyboard;
        }
        let keys = match &dev.keys {
            Some(keys) => keys,
            None => {
                return DeviceListingRank::NotKeyboard;
            },
        };
        if codes::has_code(keys.as_slice(), KEY_A) || codes::has_code(keys.as_slice(), KEY_ENTER) {
            return DeviceListingRank::Keyboard;
        }
        if keys.len() == 0 {
            return DeviceListingRank::NotKeyboard;
        }
        let name = match &dev.name {
            Some(name) => text::to_lowercase(name.as_str()),
            None => {
                return DeviceListingRank::NotKeyboard;
            },
        };
        let name = name.as_str();
        if text::contains(name, "touchpad") || text::contains(name, "trackpad") || text::contains(
            name,
            "tablet",
        ) || text::contains(name, "mouse") || text::contains(name, "speaker") || text::contains(
            name,
            "headphone",
        ) || text::contains(name, "headset") || text::contains(name, "power button")
            || text::contains(name, "video bus") {
            return DeviceListingRank::ProbablyNotKeyboard;
        }
        DeviceListingRank::MaybeKeyboard
    }

    pub open spec fn words(self) -> Seq<char> {
        match self {
            DeviceListingRank::NotKeyboard => "not a keyboard"@,
            DeviceListingRank::MaybeKeyboard => "looks like a keyboard?"@,
            DeviceListingRank::ProbablyNotKeyboard => "probably not a keyboard"@,
            DeviceListingRank::Keyboard => "keyboard"@,
        }
    }

    pub fn describe(self) -> (text: &'static str)
        ensures
            text@ == self.words(),
    {
        match self {
            DeviceListingRank::NotKeyboard => "not a keyboard",
            DeviceListingRank::MaybeKeyboard => "looks like a keyboard?",
            DeviceListingRank::ProbablyNotKeyboard => "probably not a keyboard",
            DeviceListingRank::Keyboard => "keyboard",
        }
    }
}

/// Whether the device supports any keys at all.
pub fn has_keys(dev: &DeviceInfo) -> (has: bool)
    ensures
        has == (dev.supported_keys() matches Some(keys) && keys.len() > 0),
{
    match &dev.keys {
        Some(keys) => codes::has_code(dev.events.as_slice(), EV_KEY) && keys.len() > 0,
        None => false,
    }
}

/// Why a device could not be opened.
#[derive(Debug, Clone, Copy, PartialEq, Eq, Structural)]
pub enum OpenFailure {
    NotFound,
    PermissionDenied,
    Other,
}

/// What to say of a device at `path` that could not be opened.
pub open spec fn opening(path: Seq<char>, failure: OpenFailure) -> Seq<char> {
    "opening "@ + path + if failure == OpenFailure::PermissionDenied {
        " (which needs root or the user being in the `input` group)"@
    } else {
        ""@
    }
}

/// What to make of the keyboard at `path` not opening. Returns `None` if it's not there (ENOENT),
/// since that's an ordinary state (not plugged in yet) rather than an error, and otherwise what was
/// being done.
pub fn find(path: &str, failure: OpenFailure) -> (error: Option<String>)
    ensures
        match error {
            Some(text) => failure != OpenFailure::NotFound && text@ == opening(path@, failure),
            None => failure == OpenFailure::NotFound,
        },
{
    if failure == OpenFailure::NotFound {
        return None;
    }
    let mut text = "opening ".to_owned();
    text.append(path);
    if failure == OpenFailure::PermissionDenied {
        text.append(" (which needs root or the user being in the `input` group)");
    } else {
        proof {
            reveal_strlit("");
        }
        assert(text@ + ""@ =~= text@);
    }
    Some(text)
}

/// `dev` is the device of `fingerprint` and is not named `exclude`.
pub open spec fn is_match(
    fingerprint: FingerprintView,
    exclude: Seq<char>,
    dev: DeviceInfo,
) -> bool {
    text_view(dev.name) != Some(exclude) && fingerprint == dev.identity()
}

/// The first of `devices` that has the fingerprint and is not named `exclude`.
pub fn find_matching(fingerprint: &Fingerprint, exclude: &str, devices: &[DeviceInfo]) -> (found:
    Option<usize>)
    ensures
        match found {
            Some(i) => {
                &&& i < devices@.len()
                &&& is_match(fingerprint@, exclude@, devices@[i as int])
                &&& forall|j: int|
                    0 <= j < i ==> !is_match(fingerprint@, exclude@, #[trigger] devices@[j])
            },
            None => forall|j: int|
                0 <= j < devices@.len() ==> !is_match(
                    fingerprint@,
                    exclude@,
                    #[trigger] devices@[j],
                ),
        },
{
    for i in 0..devices.len()
        invariant
            forall|j: int|
                0 <= j < i ==> !is_match(fingerprint@, exclude@, #[trigger] devices@[j]),
    {
        let excluded = match &devices[i].name {
            Some(name) => text::same(name.as_str(), exclude),
            None => false,
        };
        if !excluded && fingerprint.matches(&devices[i]) {
            return Some(i);
        }
    }
    None
}

/// A device and where it is.
#[derive(Debug)]
pub struct Listed {
    pub path: String,
    pub dev: DeviceInfo,
}

/// What a bus is called.
pub open spec fn bus_name(bus: u16) -> Seq<char> {
    match bus {
        0x01 => "PCI"@,
        0x02 => "ISA Plug 'n Play"@,
        0x03 => "USB"@,
        0x04 => "HIL"@,
        0x05 => "Bluetooth"@,
        0x06 => "Virtual"@,
        0x10 => "ISA"@,
        0x11 => "i8042"@,
        0x12 => "XTKBD"@,
        0x13 => "RS232"@,
        0x14 => "Gameport"@,
        0x15 => "Parallel Port"@,
        0x16 => "Amiga"@,
        0x17 => "ADB"@,
        0x18 => "I2C"@,
        0x19 => "Host"@,
        0x1a => "GSC"@,
        0x1b => "Atari"@,
        0x1c => "SPI"@,
        0x1d => "RMI"@,
        0x1e => "CEC"@,
        0x1f => "Intel ISHTP"@,
        _ => "Unknown"@,
    }
}

/// The `Display` form of an `evdev::BusType`: the name of the bus, or `Unknown` if it has none.
#[verifier::external_body]
fn bus_text(bus: u16) -> (text: String)
    ensures
        text@ == bus_name(bus),
{
    evdev::BusType(bus).to_string()
}

impl Listed {
    /// The row for the device: where it is, what it is, and how much it is a keyboard.
    pub open spec fn row(self) -> Seq<Seq<char>> {
        seq![
            self.path@,
            text::hex4(self.dev.vendor),
            text::hex4(self.dev.product),
            bus_name(self.dev.bus),
            called(text_view(self.dev.name)),
            self.dev.listing_rank().words(),
        ]
    }
}

/// The rows for those of `devices` that have the rank.
pub open spec fn rows_ranked(devices: Seq<Listed>, rank: DeviceListingRank) -> Seq<Seq<Seq<char>>>
    decreases devices.len(),
{
    if devices.len() == 0 {
        Seq::empty()
    } else if devices.last().dev.listing_rank() == rank {
        rows_ranked(devices.drop_last(), rank).push(devices.last().row())
    } else {
        rows_ranked(devices.drop_last(), rank)
    }
}

/// The rows for `devices`, the likeliest keyboards first.
pub open spec fn rows_of(devices: Seq<Listed>) -> Seq<Seq<Seq<char>>> {
    rows_ranked(devices, DeviceListingRank::Keyboard) + rows_ranked(
        devices,
        DeviceListingRank::MaybeKeyboard,
    ) + rows_ranked(devices, DeviceListingRank::ProbablyNotKeyboard) + rows_ranked(
        devices,
        DeviceListingRank::NotKeyboard,
    )
}

/// Every device is listed once.
pub proof fn every_device_is_listed(devices: Seq<Listed>)
    ensures
        rows_of(devices).len() == devices.len(),
        forall|i: int|
            0 <= i < devices.len() ==> rows_of(devices).contains((#[trigger] devices[i]).row()),
{
    lemma_rows_count(devices);
    assert forall|i: int| 0 <= i < devices.len() implies rows_of(devices).contains(
        (#[trigger] devices[i]).row(),
    ) by {
        let rank = devices[i].dev.listing_rank();
        lemma_row_ranked(devices, rank, i);
        let a = rows_ranked(devices, DeviceListingRank::Keyboard);
        let b = rows_ranked(devices, DeviceListingRank::MaybeKeyboard);
        let c = rows_ranked(devices, DeviceListingRank::ProbablyNotKeyboard);
        let m = rows_ranked(devices, rank).index_of(devices[i].row());
        let at = match rank {
            DeviceListingRank::Keyboard => m,
            DeviceListingRank::MaybeKeyboard => a.len() + m,
            DeviceListingRank::ProbablyNotKeyboard => a.len() + b.len() + m,
            DeviceListingRank::NotKeyboard => a.len() + b.len() + c.len() + m,
        };
        assert(rows_of(devices)[at] == devices[i].row());
    }
}

proof fn lemma_rows_count(devices: Seq<Listed>)
    ensures
        rows_of(devices).len() == devices.len(),
    decreases devices.len(),
{
    if devices.len() > 0 {
        lemma_rows_count(devices.drop_last());
    }
}

proof fn lemma_row_ranked(devices: Seq<Listed>, rank: DeviceListingRank, i: int)
    requires
        0 <= i < devices.len(),
        devices[i].dev.listing_rank() == rank,
    ensures
        rows_ranked(devices, rank).contains(devices[i].row()),
    decreases devices.len(),
{
    let rows = rows_ranked(devices, rank);
    if i == devices.len() - 1 {
        assert(rows[rows.len() - 1] == devices[i].row());
    } else {
        let front = rows_ranked(devices.drop_last(), rank);
        assert(devices.drop_last()[i] == devices[i]);
        lemma_row_ranked(devices.drop_last(), rank, i);
        assert(rows[front.index_of(devices[i].row())] == devices[i].row());
    }
}

fn add_ranked(table: &mut tabular::Table, devices: &[Listed], rank: DeviceListingRank)
    requires
        table::columns(*old(table)) == 6,
    ensures
        table::columns(*final(table)) == 6,
        table::format(*final(table)) == table::format(*old(table)),
        table::rows(*final(table)) == table::rows(*old(table)) + rows_ranked(devices@, rank),
{
    assert(devices@.take(0) =~= Seq::empty());
    assert(table::rows(*table) =~= table::rows(*old(table)) + rows_ranked(devices@.take(0), rank));
    for i in 0..devices.len()
        invariant
            table::columns(*table) == 6,
            table::format(*table) == table::format(*old(table)),
            table::rows(*table) == table::rows(*old(table)) + rows_ranked(
                devices@.take(i as int),
                rank,
            ),
    {
        proof {
            assert(devices@.take(i + 1).drop_last() =~= devices@.take(i as int));
            assert(devices@.take(i + 1).last() == devices@[i as int]);
        }
        let listed = &devices[i];
        let dev_rank = DeviceListingRank::rank(&listed.dev);
        if dev_rank == rank {
            let mut row = tabular::Row::new();
            table::add_cell(&mut row, listed.path.as_str());
            table::add_cell(&mut row, text::to_hex4(listed.dev.vendor).as_str());
            table::add_cell(&mut row, text::to_hex4(listed.dev.product).as_str());
            table::add_cell(&mut row, bus_text(listed.dev.bus).as_str());
            match &listed.dev.name {
                Some(name) => table::add_cell(&mut row, name.as_str()),
                None => table::add_cell(&mut row, "<unnamed device>"),
            }
            table::add_cell(&mut row, dev_rank.describe());
            assert(table::cells(row) =~= listed.row());
            let ghost before = table::rows(*table);
            table::add_row(table, row);
            assert(table::rows(*table) =~= table::rows(*old(table)) + rows_ranked(
                devices@.take(i + 1),
                rank,
            ));
        }
    }
    assert(devices@.take(devices@.len() as int) =~= devices@);
}

/// The list of devices, or what to say instead if there are none.
pub fn list(devices: &[Listed]) -> (result: Result<String, &'static str>)
    ensures
        match result {
            Ok(text) => devices@.len() > 0 && text@ == table::rendered(
                "{:<} | {:<}:{:<} | {:<} | {:<} | {:<}"@,
                rows_of(devices@),
            ),
            Err(text) => devices@.len() == 0 && text@
                == "no input devices could be opened; are you in the `input` group?"@,
        },
{
    if devices.len() == 0 {
        return Err("no input devices could be opened; are you in the `input` group?");
    }
    proof {
        table::lemma_listing_format();
    }
    let mut table = table::new_table("{:<} | {:<}:{:<} | {:<} | {:<} | {:<}");
    add_ranked(&mut table, devices, DeviceListingRank::Keyboard);
    add_ranked(&mut table, devices, DeviceListingRank::MaybeKeyboard);
    add_ranked(&mut table, devices, DeviceListingRank::ProbablyNotKeyboard);
    add_ranked(&mut table, devices, DeviceListingRank::NotKeyboard);
    assert(table::rows(table) =~= rows_of(devices@));
    Ok(table::render(&table))
}

/// A link to a device, and the path of the device that it leads to.
#[derive(Debug)]
pub struct Link {
    pub path: Vec<u8>,
    pub target: Vec<u8>,
}

/// The first of `links` that leads to `device`.
pub open spec fn first_to(links: Seq<Link>, device: Seq<u8>) -> Option<Seq<u8>>
    decreases links.len(),
{
    if links.len() == 0 {
        None
    } else if links[0].target@ == device {
        Some(links[0].path@)
    } else {
        first_to(links.skip(1), device)
    }
}

fn same_bytes(a: &[u8], b: &[u8]) -> (same: bool)
    ensures
        same == (a@ == b@),
{
    if a.len() != b.len() {
        return false;
    }
    for i in 0..a.len()
        invariant
            a@.len() == b@.len(),
            forall|j: int| 0 <= j < i ==> a@[j] == b@[j],
    {
        if a[i] != b[i] {
            assert(a@[i as int] != b@[i as int]);
            return false;
        }
    }
    assert(a@ =~= b@);
    true
}

fn find_link<'a>(links: &'a [Link], device: &[u8]) -> (path: Option<&'a [u8]>)
    ensures
        match path {
            Some(path) => first_to(links@, device@) == Some(path@),
            None => first_to(links@, device@) is None,
        },
{
    assert(links@.skip(0) =~= links@);
    for i in 0..links.len()
        invariant
            first_to(links@, device@) == first_to(links@.skip(i as int), device@),
    {
        proof {
            assert(links@.skip(i as int)[0] == links@[i as int]);
            assert(links@.skip(i as int).skip(1) =~= links@.skip(i + 1));
        }
        if same_bytes(links[i].target.as_slice(), device) {
            return Some(links[i].path.as_slice());
        }
    }
    None
}

/// The path to a device that persists across reboots: a link by what it is, or else by where it is
/// plugged in.
pub fn stable_path<'a>(by_id: &'a [Link], by_path: &'a [Link], device: &[u8]) -> (path: Option<
    &'a [u8],
>)
    ensures
        match path {
            Some(path) => first_to(by_id@, device@) == Some(path@) || (first_to(
                by_id@,
                device@,
            ) is None && first_to(by_path@, device@) == Some(path@)),
            None => first_to(by_id@, device@) is None && first_to(by_path@, device@) is None,
        },
{
    match find_link(by_id, device) {
        Some(path) => Some(path),
        None => find_link(by_path, device),
    }
}

/// A reading of a clock as a timestamp.
///
/// `CLOCK_MONOTONIC` never reports a negative time, and no negative nanoseconds.
pub fn now(secs: i64, nanos: i64) -> (now: Nanos)
    requires
        secs >= 0,
        nanos >= 0,
        secs * 1_000_000_000 + nanos <= Nanos::MAX,
    ensures
        now == secs * 1_000_000_000 + nanos,
{
    (secs as u64) * 1_000_000_000 + nanos as u64
}

/// A span of time in seconds and nanoseconds, as the kernel takes it.
#[derive(Debug, Clone, Copy, PartialEq, Eq, Structural)]
pub struct Timespec {
    pub secs: i64,
    pub nanos: i64,
}

/// `rustix::event::Timespec::try_from` on a `Duration`: its whole seconds and the nanoseconds that
/// are left, unless the seconds are too many.
#[verifier::external_body]
fn exact_timespec(duration: Duration) -> (timespec: Option<Timespec>)
    ensures
        match timespec {
            Some(t) => t.secs == time::nanos_of(duration) / 1_000_000_000 && t.nanos
                == time::nanos_of(duration) % 1_000_000_000,
            None => time::nanos_of(duration) / 1_000_000_000 > i64::MAX,
        },
{
    rustix::event::Timespec::try_from(duration).ok().map(
        |t| Timespec { secs: t.tv_sec, nanos: i64::from(t.tv_nsec) },
    )
}

/// A span of so many nanoseconds; the largest that can be told stands for all that are longer.
pub open spec fn timespec_of(nanos: nat) -> Timespec {
    if nanos / 1_000_000_000 <= i64::MAX {
        Timespec {
            secs: (nanos / 1_000_000_000) as i64,
            nanos: (nanos % 1_000_000_000) as i64,
        }
    } else {
        Timespec { secs: i64::MAX, nanos: 0 }
    }
}

pub fn timespec(duration: Duration) -> (timespec: Timespec)
    ensures
        timespec == timespec_of(time::nanos_of(duration)),
{
    match exact_timespec(duration) {
        Some(timespec) => timespec,
        None => Timespec { secs: i64::MAX, nanos: 0 },
    }
}

/// The microseconds of the timestamp, of which the low 32 bits are taken.
pub open spec fn stamp_micros(event: InputEvent) -> u32 {
    event.micros as u32
}

/// How many nanoseconds after the epoch the event came.
pub open spec fn stamp_nanos(event: InputEvent) -> int {
    event.secs * 1_000_000_000 + stamp_micros(event) * 1_000
}

/// The timestamp is not before the epoch, its microseconds can be told in nanoseconds, and it is
/// none that is too late to be told in whole seconds.
pub open spec fn has_stamp(event: InputEvent) -> bool {
    &&& event.secs >= 0
    &&& stamp_micros(event) * 1_000 <= u32::MAX
    &&& event.secs + stamp_micros(event) / 1_000_000 <= i64::MAX
}

/// The timestamp of an event in nanoseconds.
pub open spec fn stamped(event: InputEvent) -> Nanos {
    time::whole_nanos(stamp_nanos(event) as nat)
}

/// `evdev::InputEvent::timestamp`, as the span since the epoch: the seconds and the microseconds of
/// the event. evdev takes the low 32 bits of the microseconds; it panics where they cannot be told
/// in nanoseconds, on times before the epoch, and on times that are too late to be told.
#[verifier::external_body]
fn since_epoch(event: &InputEvent) -> (since: Option<Duration>)
    requires
        has_stamp(*event),
    ensures
        match since {
            Some(span) => time::nanos_of(span) == stamp_nanos(*event),
            None => false,
        },
{
    let mut raw = *evdev::InputEvent::new(event.kind, event.code, event.value).as_ref();
    raw.time.tv_sec = event.secs;
    raw.time.tv_usec = event.micros;
    evdev::InputEvent::from(raw).timestamp().duration_since(SystemTime::UNIX_EPOCH).ok()
}

/// Whether the event has a timestamp that can be told.
pub fn is_stamped(event: &InputEvent) -> (is: bool)
    ensures
        is == has_stamp(*event),
{
    let micros: u32 = #[verifier::truncate] (event.micros as u32);
    event.secs >= 0 && micros <= u32::MAX / 1_000 && event.secs <= i64::MAX - (micros
        / 1_000_000) as i64
}

/// The timestamp of an event; the largest one stands for all that are later. The epoch isn't
/// actually relevant, anything works here.
pub fn stamp(event: &InputEvent) -> (stamp: Nanos)
    requires
        has_stamp(*event),
    ensures
        stamp == stamped(*event),
{
    stamp_since(since_epoch(event))
}

/// The timestamp of an event, given how long it came after the epoch; `None` stands for a time
/// before the epoch.
pub fn stamp_since(since_epoch: Option<Duration>) -> (stamp: Nanos)
    ensures
        stamp == match since_epoch {
            Some(span) => time::whole_nanos(time::nanos_of(span)),
            None => 0,
        },
{
    match since_epoch {
        Some(span) => time::saturated(span),
        None => 0,
    }
}

/// `ENOENT`
pub const ENOENT: i32 = 2;

/// `EIO`
pub const EIO: i32 = 5;

/// `ENXIO`
pub const ENXIO: i32 = 6;

/// `ENODEV`
pub const ENODEV: i32 = 19;

/// Whether an error number, if there is one, means that the device is gone.
pub fn is_disconnect(errno: Option<i32>) -> (is: bool)
    ensures
        is == (errno matches Some(e) && (e == ENODEV || e == ENOENT || e == EIO || e == ENXIO)),
{
    match errno {
        Some(e) => e == ENODEV || e == ENOENT || e == EIO || e == ENXIO,
        None => false,
    }
}

/// The last of `parts` that takes a path anywhere.
pub open spec fn last_step(parts: Seq<Seq<char>>) -> Option<Seq<char>>
    decreases parts.len(),
{
    if parts.len() == 0 {
        None
    } else if parts.last() == ""@ || parts.last() == "."@ {
        last_step(parts.drop_last())
    } else {
        Some(parts.last())
    }
}

/// The file name that `path` ends in, or all of it if it ends in none.
pub open spec fn path_words(path: Seq<char>) -> Seq<char> {
    match last_step(text::parts(path, '/')) {
        Some(name) if name != ".."@ => name,
        _ => path,
    }
}

/// The file name that a path ends in, or all of it if it ends in none.
pub fn describe_path(path: &str) -> (text: String)
    ensures
        text@ == path_words(path@),
{
    let parts = text::split(path, '/');
    let ghost all = text::texts(parts@);
    let mut end: usize = parts.len();
    assert(all.take(end as int) =~= all);
    while end > 0
        invariant
            all == text::texts(parts@),
            all == text::parts(path@, '/'),
            end <= parts@.len(),
            last_step(all) == last_step(all.take(end as int)),
        decreases end,
    {
        let part = parts[end - 1].as_str();
        proof {
            assert(all.take(end as int).last() == part@);
            assert(all.take(end as int).drop_last() =~= all.take(end - 1));
        }
        if !text::same(part, "") && !text::same(part, ".") {
            return if text::same(part, "..") {
                path.to_owned()
            } else {
                part.to_owned()
            };
        }
        end = end - 1;
    }
    path.to_owned()
}

} // verus!
