//! What the daemon does before it runs: what it says and whether it goes on.

use crate::cli::CliResult;
use crate::debounce::Mode;
use crate::device;
use crate::device::{DeviceInfo, Fingerprint, FingerprintView};
use crate::event::{EV_FF, EV_KEY, EV_LED, EV_MSC, EV_REP, EV_SND, EV_SYN};
use crate::text;
use crate::time;
use crate::wording;
use std::time::Duration;
use vstd::prelude::*;

verus! {

/// Emitting a key event and immediately destroying the uinput device can lose the event; so long
/// is waited in between, in milliseconds.
pub const DRAIN_GRACE: u64 = 20;

/// How long to wait for the keyboard to go idle before grabbing it, in milliseconds.
pub const GRAB_WAIT: u64 = 2_000;

/// How often to recheck while waiting for the keyboard to go idle, in milliseconds.
pub const GRAB_IDLE_POLL: u64 = 20;

/// The keyboard is given two seconds to go idle, with a look every 20 milliseconds, and the last
/// events get 20 milliseconds to be taken.
pub proof fn waits_are_as_long_as_told()
    ensures
        GRAB_WAIT == 2 * 1_000,
        GRAB_IDLE_POLL == 20,
        DRAIN_GRACE == 20,
{
}

pub open spec fn usage_words(argv0: Seq<char>) -> Seq<char> {
    "usage: "@ + argv0 + " [options] device\ntry '--help' for more info\n"@
}

/// What the help says after the name of the command.
pub const HELP: &'static str = " [options] device
debounce a /dev/input keyboard device

options:
  -m, --mode <eager|defer|mixed>  debounce mode; mixed means eager press + defer release (default: mixed)
  -w, --window <MS>               debounce window, in ms (default: 20)
  --keys <A,B,...>                debounce only these keys (format: KEY_A or A or 0x1e or30, case insensitive), conflicts with --exclude-keys
  --exclude-keys <A,B,...>        debounce all keys except these (format: KEY_A or A or 0x1e or 30, case insensitive), conflicts with --keys
  --virtual-name <NAME>           name to use for the virtual device (default: the original name + \" (debounced)\")
  --device-rescan-interval <MS>   how often to rescan for the device while unplugged, in ms (default: 500)
  --wait-for-device               wait for the device to appear at startup if it's missing rather than error
  -l, --list                      list available devices and exit
  -p, --stable-path <DEVICE>      print a path to the device that persists across reboots and exit
  -h, --help                      display this help and exit
  -V, --version                   output version information and exit

devices like touchpads and mice use the same protocol for sending events as keyboards use for keys,
so it's difficult to distinguish them programmatically; as such, -l/--list just lists every single
device alongside a description of how much it thinks it's a keyboard. \"debouncing\" a touchpad or
mouse doesn't error out and just makes the device unusable.
";

/// How the daemon starts, going by the command line.
#[derive(Debug)]
pub enum Start {
    /// Say this and exit with that status.
    Exit(String, i32),
    List,
    StablePath,
    Debounce,
}

/// How the daemon starts, going by the command line.
pub fn run(result: &CliResult, argv0: &str) -> (start: Start)
    ensures
        match result {
            CliResult::Usage => start matches Start::Exit(text, 2) && text@ == usage_words(argv0@),
            CliResult::Help => start matches Start::Exit(text, 0) && text@ == "usage: "@ + argv0@
                + HELP@,
            CliResult::Version => start matches Start::Exit(text, 0) && text@
                == "ripples v0.1.0\n"@,
            CliResult::List => start is List,
            CliResult::StablePath(_) => start is StablePath,
            CliResult::Cli(_) => start is Debounce,
        },
{
    match result {
        CliResult::Usage => {
            let mut text = "usage: ".to_owned();
            text.append(argv0);
            text.append(" [options] device\ntry '--help' for more info\n");
            Start::Exit(text, 2)
        },
        CliResult::Help => {
            let mut text = "usage: ".to_owned();
            text.append(argv0);
            text.append(HELP);
            Start::Exit(text, 0)
        },
        CliResult::Version => Start::Exit("ripples v0.1.0\n".to_owned(), 0),
        CliResult::List => Start::List,
        CliResult::StablePath(_) => Start::StablePath,
        CliResult::Cli(_) => Start::Debounce,
    }
}

/// What to do while the keyboard is looked for at startup.
#[derive(Debug, Clone, Copy, PartialEq, Eq, Structural)]
pub enum OpenStep {
    /// It is there.
    Use,
    /// It is not, and is not to be waited for.
    GiveUp,
    /// Wait for it to appear.
    Wait,
}

/// What to do while the keyboard is looked for at startup.
pub fn open_initial(found: bool, wait: bool) -> (step: OpenStep)
    ensures
        step == if found {
            OpenStep::Use
        } else if wait {
            OpenStep::Wait
        } else {
            OpenStep::GiveUp
        },
        step == OpenStep::Use <==> found,
        step == OpenStep::Wait <==> !found && wait,
{
    if found {
        OpenStep::Use
    } else if wait {
        OpenStep::Wait
    } else {
        OpenStep::GiveUp
    }
}

pub open spec fn missing_words(path: Seq<char>) -> Seq<char> {
    "device "@ + path
        + " is not present; use -l/--list to list available devices, or --wait-for-device to stay idle until it appears"@
}

/// What to say of a device that is not there.
pub fn missing(path: &str) -> (text: String)
    ensures
        text@ == missing_words(path@),
{
    let mut text = "device ".to_owned();
    text.append(path);
    text.append(
        " is not present; use -l/--list to list available devices, or --wait-for-device to stay idle until it appears",
    );
    text
}

/// What to say of a device without keys, or nothing if it has some.
pub fn refuse_keyless(dev: &DeviceInfo, path: &str) -> (text: Option<String>)
    ensures
        match text {
            Some(text) => {
                &&& !(dev.supported_keys() matches Some(keys) && keys.len() > 0)
                &&& text@ == path@ + " reports no keys; this device is not a keyboard"@
            },
            None => dev.supported_keys() matches Some(keys) && keys.len() > 0,
        },
{
    if device::has_keys(dev) {
        return None;
    }
    let mut text = path.to_owned();
    text.append(" reports no keys; this device is not a keyboard");
    Some(text)
}

/// What the virtual device is called.
pub open spec fn name_for(chosen: Option<Seq<char>>, fingerprint: FingerprintView) -> Seq<char> {
    match chosen {
        Some(name) => name,
        None => device::called(fingerprint.name) + " (debounced)"@,
    }
}

/// What the virtual device is called, or `None` if that is the name of the source device: the sink
/// copies the source's vendor and product ids so an identical name would be completely
/// indistinguishable from the original and a reconnect scan could falsely attach to it.
pub fn virtual_name(chosen: Option<String>, fingerprint: &Fingerprint) -> (name: Option<String>)
    ensures
        match name {
            Some(name) => name@ == name_for(device::text_view(chosen), fingerprint@)
                && fingerprint@.name != Some(name@),
            None => fingerprint@.name == Some(
                name_for(device::text_view(chosen), fingerprint@),
            ),
        },
{
    let name = match chosen {
        Some(name) => name,
        None => {
            let mut name = fingerprint.display_name().to_owned();
            name.append(" (debounced)");
            name
        },
    };
    if let Some(source) = &fingerprint.name {
        if text::same(name.as_str(), source.as_str()) {
            return None;
        }
    }
    Some(name)
}

/// Unless a name is chosen, the name of the virtual device always differs from that of its source.
pub proof fn default_name_differs(fingerprint: FingerprintView)
    ensures
        fingerprint.name != Some(name_for(None, fingerprint)),
{
    reveal_strlit(" (debounced)");
    if let Some(name) = fingerprint.name {
        assert(name_for(None, fingerprint).len() == name.len() + 12);
    }
}

/// A name that is chosen is used as it is; otherwise the virtual device has the name of its source,
/// with a note behind it.
pub proof fn names_are_chosen_or_derived(name: Seq<char>, fingerprint: FingerprintView)
    ensures
        name_for(Some(name), fingerprint) == name,
        fingerprint.name is Some ==> name_for(None, fingerprint) == fingerprint.name->0
            + " (debounced)"@,
        fingerprint.name is None ==> name_for(None, fingerprint) == "<unnamed device>"@
            + " (debounced)"@,
{
}

/// What to do while keys are held on the keyboard that is to be grabbed.
#[derive(Debug, Clone, Copy, PartialEq, Eq, Structural)]
pub enum IdleStep {
    /// None is held any more.
    Grab,
    /// It has been long enough; say so.
    GrabAnyway,
    /// Say what is waited for, and wait.
    Announce,
    Wait,
}

/// What to do while keys are held on the keyboard that is to be grabbed.
pub fn wait_until_idle(held: bool, expired: bool, announced: bool) -> (step: IdleStep)
    ensures
        step == if !held {
            IdleStep::Grab
        } else if expired {
            IdleStep::GrabAnyway
        } else if !announced {
            IdleStep::Announce
        } else {
            IdleStep::Wait
        },
        step == IdleStep::Grab <==> !held,
        step == IdleStep::GrabAnyway <==> held && expired,
        step == IdleStep::Announce <==> held && !expired && !announced,
{
    if !held {
        IdleStep::Grab
    } else if expired {
        IdleStep::GrabAnyway
    } else if !announced {
        IdleStep::Announce
    } else {
        IdleStep::Wait
    }
}

/// An event type that the keyboard sends and that is not carried through. What is sent to the
/// keyboard rather than by it is not missed.
pub open spec fn is_dropped(kind: u16) -> bool {
    !(kind == EV_SYN || kind == EV_KEY || kind == EV_MSC) && !(kind == EV_LED || kind == EV_SND
        || kind == EV_REP || kind == EV_FF)
}

/// The types that are not missed are those that are carried through and those that are only ever
/// sent to a keyboard.
pub proof fn no_other_type_goes_unnoticed(kind: u16)
    ensures
        is_dropped(kind) <==> kind != 0x00 && kind != 0x01 && kind != 0x04 && kind != 0x11 && kind
            != 0x12 && kind != 0x14 && kind != 0x15,
{
}

/// Those of the event types of a keyboard that are not carried through, in their order.
pub fn warn_of_dropped_events(kinds: &[u16]) -> (dropped: Vec<u16>)
    ensures
        dropped@ == kinds@.filter(|kind: u16| is_dropped(kind)),
{
    let mut dropped: Vec<u16> = Vec::new();
    let ghost pred = |kind: u16| is_dropped(kind);
    for i in 0..kinds.len()
        invariant
            pred == (|kind: u16| is_dropped(kind)),
            dropped@ == kinds@.take(i as int).filter(pred),
    {
        proof {
            assert(kinds@.take(i + 1).drop_last() =~= kinds@.take(i as int));
            assert(kinds@.take(i + 1).last() == kinds@[i as int]);
            reveal(Seq::filter);
        }
        let kind: u16 = kinds[i];
        if !(kind == EV_SYN || kind == EV_KEY || kind == EV_MSC) && !(kind == EV_LED || kind
            == EV_SND || kind == EV_REP || kind == EV_FF) {
            dropped.push(kind);
        }
    }
    assert(kinds@.take(kinds@.len() as int) =~= kinds@);
    dropped
}

pub open spec fn mode_words(mode: Mode) -> Seq<char> {
    match mode {
        Mode::Eager => "Eager"@,
        Mode::Defer => "Defer"@,
        Mode::Mixed => "Mixed"@,
    }
}

/// The line that tells what is debounced, and how.
pub open spec fn greeting_words(
    fingerprint: FingerprintView,
    path: Seq<char>,
    name: Seq<char>,
    mode: Mode,
    window: nat,
) -> Seq<char> {
    fingerprint.words() + " on "@ + device::path_words(path) + " -> "@ + text::quoted(name) + " ("@
        + mode_words(mode) + ", "@ + text::decimal(window / 1_000_000) + "ms)"@
}

/// The modes are told apart in words.
pub proof fn modes_are_told_apart(a: Mode, b: Mode)
    ensures
        mode_words(a) == mode_words(b) ==> a == b,
{
    reveal_strlit("Eager");
    reveal_strlit("Defer");
    reveal_strlit("Mixed");
    assert("Eager"@[0] == 'E');
    assert("Defer"@[0] == 'D');
    assert("Mixed"@[0] == 'M');
}

/// The line that tells what is debounced tells the device and its file, the name of the virtual
/// device, the mode, and the window in milliseconds.
pub proof fn the_greeting_tells_all_of_it(
    fingerprint: FingerprintView,
    path: Seq<char>,
    name: Seq<char>,
    mode: Mode,
    window: nat,
)
    ensures
        ({
            let words = greeting_words(fingerprint, path, name, mode, window);
            &&& text::occurs(words, fingerprint.words() + " on "@ + device::path_words(path))
            &&& text::occurs(words, text::quoted(name))
            &&& text::occurs(words, mode_words(mode))
            &&& text::occurs(words, text::decimal(window / 1_000_000) + "ms"@)
        }),
{
    reveal_strlit("ms)");
    reveal_strlit("ms");
    reveal_strlit(")");
    let words = greeting_words(fingerprint, path, name, mode, window);
    let none = Seq::<char>::empty();
    let first = fingerprint.words() + " on "@ + device::path_words(path);
    let quoted = text::quoted(name);
    let how = mode_words(mode);
    let ms = text::decimal(window / 1_000_000);
    let end = ", "@ + ms + "ms)"@;
    wording::what_is_surrounded_occurs(none, first, " -> "@ + quoted + " ("@ + how + end);
    assert(none + first + (" -> "@ + quoted + " ("@ + how + end) =~= words);
    wording::what_is_surrounded_occurs(first + " -> "@, quoted, " ("@ + how + end);
    assert(first + " -> "@ + quoted + (" ("@ + how + end) =~= words);
    wording::what_is_surrounded_occurs(first + " -> "@ + quoted + " ("@, how, end);
    assert(first + " -> "@ + quoted + " ("@ + how + end =~= words);
    wording::what_is_surrounded_occurs(
        first + " -> "@ + quoted + " ("@ + how + ", "@,
        ms + "ms"@,
        ")"@,
    );
    assert("ms"@ + ")"@ =~= "ms)"@);
    assert(first + " -> "@ + quoted + " ("@ + how + ", "@ + (ms + "ms"@) + ")"@ =~= words);
}

/// What is said of a command line without a device, and of a device that is not there, tells the
/// command and the device.
pub proof fn complaints_tell_what_they_are_about(argv0: Seq<char>, path: Seq<char>)
    ensures
        ("usage: "@ + argv0).is_prefix_of(usage_words(argv0)),
        ("device "@ + path + " is not present"@).is_prefix_of(missing_words(path)),
{
    reveal_strlit(" is not present");
    reveal_strlit(
        " is not present; use -l/--list to list available devices, or --wait-for-device to stay idle until it appears",
    );
    let usage = "usage: "@ + argv0;
    assert(usage_words(argv0).subrange(0, usage.len() as int) =~= usage);
    let start = "device "@ + path;
    let missing = start + " is not present"@;
    assert(missing_words(path).subrange(0, missing.len() as int) =~= missing);
}

/// The line that tells what is debounced, and how.
pub fn greeting(
    fingerprint: &Fingerprint,
    path: &str,
    name: &str,
    mode: Mode,
    window: Duration,
) -> (text: String)
    ensures
        text@ == greeting_words(fingerprint@, path@, name@, mode, time::nanos_of(window)),
{
    let mut text = fingerprint.text();
    text.append(" on ");
    text.append(device::describe_path(path).as_str());
    text.append(" -> ");
    text.append(text::quote(name).as_str());
    text.append(" (");
    text.append(
        match mode {
            Mode::Eager => "Eager",
            Mode::Defer => "Defer",
            Mode::Mixed => "Mixed",
        },
    );
    text.append(", ");
    text.append(text::to_decimal(window.as_nanos() / 1_000_000).as_str());
    text.append("ms)");
    text
}

} // verus!
