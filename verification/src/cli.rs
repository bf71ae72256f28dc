//! Parses the options into a struct. Also manages default values for options.

use crate::args;
use crate::args::{Arg, ArgView, LexError, LexErrorView, Unread};
use crate::codes;
use crate::debounce::{KeyCode, Mode};
use crate::text;
use crate::text::NumberError;
use crate::time;
use std::collections::HashSet;
use std::time::Duration;
use vstd::prelude::*;

verus! {

broadcast use vstd::std_specs::hash::group_hash_axioms;

const DEFAULT_MODE: Mode = Mode::Mixed;

/// In milliseconds.
const DEFAULT_WINDOW: u64 = 20;

/// In milliseconds.
const DEFAULT_DEVICE_RESCAN_INTERVAL: u64 = 500;

#[derive(Debug)]
pub struct Cli {
    pub mode: Mode,
    pub window: Duration,
    pub keys: Option<Vec<String>>,
    pub exclude_keys: Option<Vec<String>>,
    pub virtual_name: Option<String>,
    pub device_rescan_interval: Duration,
    pub wait_for_device: bool,
    /// The bytes of the path.
    pub device: Vec<u8>,
}

/// The options, durations in ns.
pub struct CliView {
    pub mode: Mode,
    pub window: nat,
    pub keys: Option<Seq<Seq<char>>>,
    pub exclude_keys: Option<Seq<Seq<char>>>,
    pub virtual_name: Option<Seq<char>>,
    pub device_rescan_interval: nat,
    pub wait_for_device: bool,
    pub device: Seq<u8>,
}

pub open spec fn list_view(list: Option<Vec<String>>) -> Option<Seq<Seq<char>>> {
    match list {
        Some(list) => Some(text::texts(list@)),
        None => None,
    }
}

pub open spec fn text_view(text: Option<String>) -> Option<Seq<char>> {
    match text {
        Some(text) => Some(text@),
        None => None,
    }
}

impl View for Cli {
    type V = CliView;

    open spec fn view(&self) -> CliView {
        CliView {
            mode: self.mode,
            window: time::nanos_of(self.window),
            keys: list_view(self.keys),
            exclude_keys: list_view(self.exclude_keys),
            virtual_name: text_view(self.virtual_name),
            device_rescan_interval: time::nanos_of(self.device_rescan_interval),
            wait_for_device: self.wait_for_device,
            device: self.device@,
        }
    }
}

/// A copy of a text that may be missing.
fn copied_text(text: &Option<String>) -> (copy: Option<String>)
    ensures
        text_view(copy) == text_view(*text),
{
    match text {
        Some(text) => Some(text.as_str().to_owned()),
        None => None,
    }
}

/// A copy of a list that may be missing.
fn copied_list(list: &Option<Vec<String>>) -> (copy: Option<Vec<String>>)
    ensures
        list_view(copy) == list_view(*list),
{
    match list {
        Some(list) => {
            let mut copy: Vec<String> = Vec::new();
            for i in 0..list.len()
                invariant
                    copy@.len() == i,
                    forall|j: int| 0 <= j < i ==> (#[trigger] copy@[j])@ == list@[j]@,
            {
                copy.push(list[i].as_str().to_owned());
            }
            assert(text::texts(copy@) =~= text::texts(list@));
            Some(copy)
        },
        None => None,
    }
}

fn copied_bytes(bytes: &[u8]) -> (copy: Vec<u8>)
    ensures
        copy@ == bytes@,
{
    let mut copy: Vec<u8> = Vec::new();
    for i in 0..bytes.len()
        invariant
            copy@ == bytes@.take(i as int),
    {
        copy.push(bytes[i]);
        assert(copy@ =~= bytes@.take(i + 1));
    }
    assert(copy@ =~= bytes@);
    copy
}

impl Clone for Cli {
    fn clone(&self) -> (copy: Cli)
        ensures
            copy@ == self@,
    {
        Cli {
            mode: self.mode,
            window: self.window,
            keys: copied_list(&self.keys),
            exclude_keys: copied_list(&self.exclude_keys),
            virtual_name: copied_text(&self.virtual_name),
            device_rescan_interval: self.device_rescan_interval,
            wait_for_device: self.wait_for_device,
            device: copied_bytes(self.device.as_slice()),
        }
    }
}

#[derive(Debug)]
pub enum CliResult {
    Usage,
    List,
    StablePath(Vec<u8>),
    Help,
    Version,
    Cli(Cli),
}

pub enum CliResultView {
    Usage,
    List,
    StablePath(Seq<u8>),
    Help,
    Version,
    Cli(CliView),
}

impl View for CliResult {
    type V = CliResultView;

    open spec fn view(&self) -> CliResultView {
        match self {
            CliResult::Usage => CliResultView::Usage,
            CliResult::List => CliResultView::List,
            CliResult::StablePath(path) => CliResultView::StablePath(path@),
            CliResult::Help => CliResultView::Help,
            CliResult::Version => CliResultView::Version,
            CliResult::Cli(cli) => CliResultView::Cli(cli@),
        }
    }
}

impl Clone for CliResult {
    fn clone(&self) -> (copy: CliResult)
        ensures
            copy@ == self@,
    {
        match self {
            CliResult::Usage => CliResult::Usage,
            CliResult::List => CliResult::List,
            CliResult::StablePath(path) => CliResult::StablePath(copied_bytes(path.as_slice())),
            CliResult::Help => CliResult::Help,
            CliResult::Version => CliResult::Version,
            CliResult::Cli(cli) => CliResult::Cli(cli.clone()),
        }
    }
}

/// What is wrong with how a key is specified.
#[derive(Debug)]
pub enum KeyError {
    /// It looks like a key code and is none.
    BadCode(String, NumberError),
    /// No key has that name.
    Unknown(String),
}

pub enum KeyErrorView {
    BadCode(Seq<char>, NumberError),
    Unknown(Seq<char>),
}

impl View for KeyError {
    type V = KeyErrorView;

    open spec fn view(&self) -> KeyErrorView {
        match self {
            KeyError::BadCode(spec, e) => KeyErrorView::BadCode(spec@, *e),
            KeyError::Unknown(spec) => KeyErrorView::Unknown(spec@),
        }
    }
}

impl KeyErrorView {
    pub open spec fn words(self) -> Seq<char> {
        match self {
            KeyErrorView::BadCode(spec, e) => "bad key code "@ + text::quoted(spec) + ": "@
                + e.words(),
            KeyErrorView::Unknown(spec) => "unknown key "@ + text::quoted(spec),
        }
    }
}

impl KeyError {
    pub fn text(&self) -> (text: String)
        ensures
            text@ == self@.words(),
    {
        match self {
            KeyError::BadCode(spec, e) => {
                let mut text = "bad key code ".to_owned();
                text.append(text::quote(spec.as_str()).as_str());
                text.append(": ");
                text.append(e.text());
                text
            },
            KeyError::Unknown(spec) => {
                let mut text = "unknown key ".to_owned();
                text.append(text::quote(spec.as_str()).as_str());
                text
            },
        }
    }
}

/// What is wrong with the options.
#[derive(Debug)]
pub enum CliError {
    InvalidMode(String),
    InvalidWindow(String),
    InvalidDeviceRescanInterval(String),
    KeysAndExcludeKeys,
    SeveralDevices,
    Keys(KeyError),
    ExcludeKeys(KeyError),
}

pub enum CliErrorView {
    InvalidMode(Seq<char>),
    InvalidWindow(Seq<char>),
    InvalidDeviceRescanInterval(Seq<char>),
    KeysAndExcludeKeys,
    SeveralDevices,
    Keys(KeyErrorView),
    ExcludeKeys(KeyErrorView),
}

impl View for CliError {
    type V = CliErrorView;

    open spec fn view(&self) -> CliErrorView {
        match self {
            CliError::InvalidMode(value) => CliErrorView::InvalidMode(value@),
            CliError::InvalidWindow(value) => CliErrorView::InvalidWindow(value@),
            CliError::InvalidDeviceRescanInterval(
                value,
            ) => CliErrorView::InvalidDeviceRescanInterval(value@),
            CliError::KeysAndExcludeKeys => CliErrorView::KeysAndExcludeKeys,
            CliError::SeveralDevices => CliErrorView::SeveralDevices,
            CliError::Keys(e) => CliErrorView::Keys(e@),
            CliError::ExcludeKeys(e) => CliErrorView::ExcludeKeys(e@),
        }
    }
}

/// The words for a value that an option does not take.
pub open spec fn invalid_value(value: Seq<char>, option: Seq<char>) -> Seq<char> {
    "invalid value '"@ + value + "' for option "@ + option
}

fn invalid_value_text(value: &str, option: &str) -> (text: String)
    ensures
        text@ == invalid_value(value@, option@),
{
    let mut text = "invalid value '".to_owned();
    text.append(value);
    text.append("' for option ");
    text.append(option);
    text
}

impl CliErrorView {
    pub open spec fn words(self) -> Seq<char> {
        match self {
            CliErrorView::InvalidMode(value) => invalid_value(value, "-m/--mode"@),
            CliErrorView::InvalidWindow(value) => invalid_value(value, "-w/--window"@),
            CliErrorView::InvalidDeviceRescanInterval(value) => invalid_value(
                value,
                "--device-rescan-interval"@,
            ),
            CliErrorView::KeysAndExcludeKeys =>
                "at most one of --keys and --exclude-keys may be specified"@,
            CliErrorView::SeveralDevices => "exactly one device must be specified"@,
            CliErrorView::Keys(e) => "--keys: "@ + e.words(),
            CliErrorView::ExcludeKeys(e) => "--exclude-keys: "@ + e.words(),
        }
    }
}

impl CliError {
    pub fn text(&self) -> (text: String)
        ensures
            text@ == self@.words(),
    {
        match self {
            CliError::InvalidMode(value) => invalid_value_text(value.as_str(), "-m/--mode"),
            CliError::InvalidWindow(value) => invalid_value_text(value.as_str(), "-w/--window"),
            CliError::InvalidDeviceRescanInterval(value) => {
                invalid_value_text(value.as_str(), "--device-rescan-interval")
            },
            CliError::KeysAndExcludeKeys => {
                "at most one of --keys and --exclude-keys may be specified".to_owned()
            },
            CliError::SeveralDevices => "exactly one device must be specified".to_owned(),
            CliError::Keys(e) => {
                let mut text = "--keys: ".to_owned();
                text.append(e.text().as_str());
                text
            },
            CliError::ExcludeKeys(e) => {
                let mut text = "--exclude-keys: ".to_owned();
                text.append(e.text().as_str());
                text
            },
        }
    }
}

/// Why the command line could not be parsed.
#[derive(Debug)]
pub enum ParseError {
    Lex(LexError),
    Cli(CliError),
}

pub enum ParseErrorView {
    Lex(LexErrorView),
    Cli(CliErrorView),
}

impl View for ParseError {
    type V = ParseErrorView;

    open spec fn view(&self) -> ParseErrorView {
        match self {
            ParseError::Lex(e) => ParseErrorView::Lex(e@),
            ParseError::Cli(e) => ParseErrorView::Cli(e@),
        }
    }
}

/// A setting that takes a value.
#[derive(Debug, Clone, Copy, PartialEq, Eq, Structural)]
pub enum Setting {
    Mode,
    Window,
    Keys,
    ExcludeKeys,
    VirtualName,
    DeviceRescanInterval,
}

/// What an option or argument on the command line asks for.
#[derive(Debug, Clone, Copy, PartialEq, Eq, Structural)]
pub enum Request {
    Change(Setting),
    WaitForDevice,
    List,
    StablePath,
    Help,
    Version,
    Device,
    Unknown,
}

/// What `arg` asks for.
pub open spec fn requested(arg: ArgView) -> Request {
    match arg {
        ArgView::Short(c) => if c == 'm' {
            Request::Change(Setting::Mode)
        } else if c == 'w' {
            Request::Change(Setting::Window)
        } else if c == 'l' {
            Request::List
        } else if c == 'p' {
            Request::StablePath
        } else if c == 'h' {
            Request::Help
        } else if c == 'V' {
            Request::Version
        } else {
            Request::Unknown
        },
        ArgView::Long(name) => if name == "mode"@ {
            Request::Change(Setting::Mode)
        } else if name == "window"@ {
            Request::Change(Setting::Window)
        } else if name == "keys"@ {
            Request::Change(Setting::Keys)
        } else if name == "exclude-keys"@ {
            Request::Change(Setting::ExcludeKeys)
        } else if name == "virtual-name"@ {
            Request::Change(Setting::VirtualName)
        } else if name == "device-rescan-interval"@ {
            Request::Change(Setting::DeviceRescanInterval)
        } else if name == "wait-for-device"@ {
            Request::WaitForDevice
        } else if name == "list"@ {
            Request::List
        } else if name == "stable-path"@ {
            Request::StablePath
        } else if name == "help"@ {
            Request::Help
        } else if name == "version"@ {
            Request::Version
        } else {
            Request::Unknown
        },
        ArgView::Value(_) => Request::Device,
    }
}

/// Tells what an option or argument asks for.
pub fn recognize(arg: &Arg) -> (request: Request)
    ensures
        request == requested(arg@),
{
    match arg {
        Arg::Short(c) => match *c {
            'm' => Request::Change(Setting::Mode),
            'w' => Request::Change(Setting::Window),
            'l' => Request::List,
            'p' => Request::StablePath,
            'h' => Request::Help,
            'V' => Request::Version,
            _ => Request::Unknown,
        },
        Arg::Long(name) => {
            let name = name.as_str();
            if text::same(name, "mode") {
                Request::Change(Setting::Mode)
            } else if text::same(name, "window") {
                Request::Change(Setting::Window)
            } else if text::same(name, "keys") {
                Request::Change(Setting::Keys)
            } else if text::same(name, "exclude-keys") {
                Request::Change(Setting::ExcludeKeys)
            } else if text::same(name, "virtual-name") {
                Request::Change(Setting::VirtualName)
            } else if text::same(name, "device-rescan-interval") {
                Request::Change(Setting::DeviceRescanInterval)
            } else if text::same(name, "wait-for-device") {
                Request::WaitForDevice
            } else if text::same(name, "list") {
                Request::List
            } else if text::same(name, "stable-path") {
                Request::StablePath
            } else if text::same(name, "help") {
                Request::Help
            } else if text::same(name, "version") {
                Request::Version
            } else {
                Request::Unknown
            }
        },
        Arg::Value(_) => Request::Device,
    }
}

/// The options that have been seen so far, and the defaults of the others.
#[derive(Debug)]
pub struct Options {
    pub mode: Mode,
    pub window: Duration,
    pub keys: Option<Vec<String>>,
    pub exclude_keys: Option<Vec<String>>,
    pub virtual_name: Option<String>,
    pub device_rescan_interval: Duration,
    pub wait_for_device: bool,
    pub device: Option<Vec<u8>>,
}

pub struct OptionsView {
    pub mode: Mode,
    pub window: nat,
    pub keys: Option<Seq<Seq<char>>>,
    pub exclude_keys: Option<Seq<Seq<char>>>,
    pub virtual_name: Option<Seq<char>>,
    pub device_rescan_interval: nat,
    pub wait_for_device: bool,
    pub device: Option<Seq<u8>>,
}

impl View for Options {
    type V = OptionsView;

    open spec fn view(&self) -> OptionsView {
        OptionsView {
            mode: self.mode,
            window: time::nanos_of(self.window),
            keys: list_view(self.keys),
            exclude_keys: list_view(self.exclude_keys),
            virtual_name: text_view(self.virtual_name),
            device_rescan_interval: time::nanos_of(self.device_rescan_interval),
            wait_for_device: self.wait_for_device,
            device: match self.device {
                Some(path) => Some(path@),
                None => None,
            },
        }
    }
}

/// So many milliseconds, as `value` writes them in decimal.
pub open spec fn millis(value: Seq<char>) -> Option<nat> {
    match text::number(value, 10, u64::MAX as nat) {
        Ok(ms) => Some(ms * 1_000_000),
        Err(_) => None,
    }
}

/// The keys in a list, without whitespace around them.
pub open spec fn listed(value: Seq<char>) -> Seq<Seq<char>> {
    text::parts(value, ',').map_values(|part: Seq<char>| text::trimmed(part))
}

impl OptionsView {
    /// Mixed mode, a window of 20 ms, a rescan every 500 ms, and nothing else set.
    pub open spec fn defaults() -> OptionsView {
        OptionsView {
            mode: Mode::Mixed,
            window: 20_000_000,
            keys: None,
            exclude_keys: None,
            virtual_name: None,
            device_rescan_interval: 500_000_000,
            wait_for_device: false,
            device: None,
        }
    }

    /// `setting` cannot be combined with what is set.
    pub open spec fn excludes(self, setting: Setting) -> bool {
        match setting {
            Setting::Keys => self.exclude_keys is Some,
            Setting::ExcludeKeys => self.keys is Some,
            _ => false,
        }
    }

    /// `setting` is set to `value`, if it takes that.
    pub open spec fn set(self, setting: Setting, value: Seq<char>) -> Result<
        OptionsView,
        CliErrorView,
    > {
        match setting {
            Setting::Mode => if value == "eager"@ {
                Ok(OptionsView { mode: Mode::Eager, ..self })
            } else if value == "defer"@ {
                Ok(OptionsView { mode: Mode::Defer, ..self })
            } else if value == "mixed"@ {
                Ok(OptionsView { mode: Mode::Mixed, ..self })
            } else {
                Err(CliErrorView::InvalidMode(value))
            },
            Setting::Window => match millis(value) {
                Some(window) => Ok(OptionsView { window, ..self }),
                None => Err(CliErrorView::InvalidWindow(value)),
            },
            Setting::Keys => Ok(OptionsView { keys: Some(listed(value)), ..self }),
            Setting::ExcludeKeys => Ok(OptionsView { exclude_keys: Some(listed(value)), ..self }),
            Setting::VirtualName => Ok(OptionsView { virtual_name: Some(value), ..self }),
            Setting::DeviceRescanInterval => match millis(value) {
                Some(interval) => Ok(OptionsView { device_rescan_interval: interval, ..self }),
                None => Err(CliErrorView::InvalidDeviceRescanInterval(value)),
            },
        }
    }

    /// What the options come to at the end of the command line.
    pub open spec fn finished(self) -> CliResultView {
        match self.device {
            Some(device) => CliResultView::Cli(
                CliView {
                    mode: self.mode,
                    window: self.window,
                    keys: self.keys,
                    exclude_keys: self.exclude_keys,
                    virtual_name: self.virtual_name,
                    device_rescan_interval: self.device_rescan_interval,
                    wait_for_device: self.wait_for_device,
                    device,
                },
            ),
            None => CliResultView::Usage,
        }
    }
}

impl Options {
    pub fn new() -> (options: Options)
        ensures
            options@ == OptionsView::defaults(),
    {
        Options {
            mode: DEFAULT_MODE,
            window: Duration::from_millis(DEFAULT_WINDOW),
            keys: None,
            exclude_keys: None,
            virtual_name: None,
            device_rescan_interval: Duration::from_millis(DEFAULT_DEVICE_RESCAN_INTERVAL),
            wait_for_device: false,
            device: None,
        }
    }

    /// Whether a setting cannot be combined with what is set.
    pub fn excludes(&self, setting: Setting) -> (excludes: bool)
        ensures
            excludes == self@.excludes(setting),
    {
        match setting {
            Setting::Keys => self.exclude_keys.is_some(),
            Setting::ExcludeKeys => self.keys.is_some(),
            _ => false,
        }
    }

    /// Sets a setting to a value, if it takes that; otherwise nothing changes.
    pub fn set(&mut self, setting: Setting, value: String) -> (result: Result<(), CliError>)
        ensures
            match result {
                Ok(_) => old(self)@.set(setting, value@) == Ok::<_, CliErrorView>(final(self)@),
                Err(e) => old(self)@.set(setting, value@) == Err::<OptionsView, _>(e@)
                    && final(self)@ == old(self)@,
            },
            setting == Setting::Mode && result is Ok ==> {
                &&& final(self).mode == Mode::Eager <==> value@ == "eager"@
                &&& final(self).mode == Mode::Defer <==> value@ == "defer"@
                &&& final(self).mode == Mode::Mixed <==> value@ == "mixed"@
            },
            setting == Setting::Mode ==> (result is Ok <==> value@ == "eager"@ || value@
                == "defer"@ || value@ == "mixed"@),
            setting != Setting::Mode ==> final(self).mode == old(self).mode,
    {
        proof {
            crate::cmdline::lemma_mode_names();
        }
        match setting {
            Setting::Mode => {
                if text::same(value.as_str(), "eager") {
                    self.mode = Mode::Eager;
                } else if text::same(value.as_str(), "defer") {
                    self.mode = Mode::Defer;
                } else if text::same(value.as_str(), "mixed") {
                    self.mode = Mode::Mixed;
                } else {
                    return Err(CliError::InvalidMode(value));
                }
            },
            Setting::Window => {
                match text::parse_number(value.as_str(), 10, u64::MAX) {
                    Ok(ms) => {
                        self.window = Duration::from_millis(ms);
                    },
                    Err(_) => {
                        return Err(CliError::InvalidWindow(value));
                    },
                }
            },
            Setting::Keys => {
                self.keys = Some(text::split_trimmed(value.as_str(), ','));
            },
            Setting::ExcludeKeys => {
                self.exclude_keys = Some(text::split_trimmed(value.as_str(), ','));
            },
            Setting::VirtualName => {
                self.virtual_name = Some(value);
            },
            Setting::DeviceRescanInterval => {
                match text::parse_number(value.as_str(), 10, u64::MAX) {
                    Ok(ms) => {
                        self.device_rescan_interval = Duration::from_millis(ms);
                    },
                    Err(_) => {
                        return Err(CliError::InvalidDeviceRescanInterval(value));
                    },
                }
            },
        }
        Ok(())
    }

    /// What the options come to at the end of the command line.
    pub fn finish(self) -> (result: CliResult)
        ensures
            result@ == self@.finished(),
    {
        match self.device {
            Some(device) => CliResult::Cli(
                Cli {
                    mode: self.mode,
                    window: self.window,
                    keys: self.keys,
                    exclude_keys: self.exclude_keys,
                    virtual_name: self.virtual_name,
                    device_rescan_interval: self.device_rescan_interval,
                    wait_for_device: self.wait_for_device,
                    device,
                },
            ),
            None => CliResult::Usage,
        }
    }
}

/// What a command line comes to of which `from` is left after the options in `options`. The first
/// thing that is wrong, or that asks for something else than to debounce, decides.
pub open spec fn parsed(options: OptionsView, from: Unread) -> Result<CliResultView, ParseErrorView>
    decreases from.args.len(), from.rest.len(), 1nat,
{
    let (told, after) = args::lexed(from);
    match told {
        Err(e) => Err(ParseErrorView::Lex(e)),
        Ok(None) => Ok(options.finished()),
        Ok(Some(arg)) => match requested(arg) {
            Request::List => Ok(CliResultView::List),
            Request::Help => Ok(CliResultView::Help),
            Request::Version => Ok(CliResultView::Version),
            Request::Unknown => Err(ParseErrorView::Lex(args::unknown(arg))),
            Request::StablePath => match args::value_taken(after).0 {
                Ok(path) => Ok(CliResultView::StablePath(path)),
                Err(e) => Err(ParseErrorView::Lex(e)),
            },
            Request::WaitForDevice => parsed_on(
                OptionsView { wait_for_device: true, ..options },
                from,
                after,
            ),
            Request::Device => if options.device is Some {
                Err(ParseErrorView::Cli(CliErrorView::SeveralDevices))
            } else {
                parsed_on(OptionsView { device: Some(arg->Value_0), ..options }, from, after)
            },
            Request::Change(setting) => if options.excludes(setting) {
                Err(ParseErrorView::Cli(CliErrorView::KeysAndExcludeKeys))
            } else {
                let (value, rest) = args::value_taken(after);
                match value {
                    Err(e) => Err(ParseErrorView::Lex(e)),
                    Ok(value) => if !vstd::utf8::valid_utf8(value) {
                        Err(ParseErrorView::Lex(LexErrorView::NonUnicodeValue(value)))
                    } else {
                        match options.set(setting, vstd::utf8::decode_utf8(value)) {
                            Err(e) => Err(ParseErrorView::Cli(e)),
                            Ok(options) => parsed_on(options, from, rest),
                        }
                    },
                }
            },
        },
    }
}

/// As [`parsed`], with `rest` left, which is less than `from`.
pub open spec fn parsed_on(options: OptionsView, from: Unread, rest: Unread) -> Result<
    CliResultView,
    ParseErrorView,
>
    decreases from.args.len(), from.rest.len(), 0nat,
{
    if args::shrinks(from, rest) {
        parsed(options, rest)
    } else {
        Ok(options.finished())
    }
}

/// `result` is what a command line comes to.
pub open spec fn comes_to(
    result: Result<CliResult, ParseError>,
    expected: Result<CliResultView, ParseErrorView>,
) -> bool {
    match result {
        Ok(result) => expected == Ok::<_, ParseErrorView>(result@),
        Err(e) => expected == Err::<CliResultView, _>(e@),
    }
}

/// Parses the command line of the process.
pub fn parse() -> (result: Result<CliResult, ParseError>)
    ensures
        exists|from: Unread| #[trigger]
            comes_to(result, parsed(OptionsView::defaults(), from)) && from.place
                == args::Place::Between && from.rest.len() == 0 && from.short_equals,
{
    let mut parser = args::command_line();
    let ghost from = args::unread(parser);
    let result = parse_from(&mut parser);
    assert(comes_to(result, parsed(OptionsView::defaults(), from)));
    result
}

/// Parses what a parser has not handed out yet.
///
/// Nothing at all asks for the usage, and a single argument that is no option for debouncing that
/// device with the default settings.
pub fn parse_from(parser: &mut lexopt::Parser) -> (result: Result<CliResult, ParseError>)
    ensures
        comes_to(result, parsed(OptionsView::defaults(), args::unread(*old(parser)))),
        args::unread(*old(parser)).place == args::Place::Between && args::unread(
            *old(parser),
        ).args.len() == 0 ==> (result matches Ok(CliResult::Usage)),
        args::unread(*old(parser)).place == args::Place::Between && args::unread(
            *old(parser),
        ).args.len() == 1 && args::is_plain(args::unread(*old(parser)).args[0]) ==> (
        result matches Ok(CliResult::Cli(cli)) && CliResultView::Cli(cli@) == (OptionsView {
            device: Some(args::unread(*old(parser)).args[0]),
            ..OptionsView::defaults()
        }).finished() && cli@.mode == Mode::Mixed && cli@.window == 20_000_000
            && cli@.device_rescan_interval == 500_000_000 && cli@.keys is None
            && cli@.exclude_keys is None && cli@.virtual_name is None && !cli@.wait_for_device
            && cli@.device == args::unread(*old(parser)).args[0]),
{
    let mut options = Options::new();
    let ghost start = args::unread(*parser);
    let ghost simple = start.place == args::Place::Between && start.args.len() <= 1 && (
    start.args.len() == 1 ==> args::is_plain(start.args[0]));
    loop
        invariant
            start == args::unread(*old(parser)),
            simple == (start.place == args::Place::Between && start.args.len() <= 1 && (
            start.args.len() == 1 ==> args::is_plain(start.args[0]))),
            parsed(OptionsView::defaults(), start) == parsed(options@, args::unread(*parser)),
            simple ==> {
                ||| options@ == OptionsView::defaults() && args::unread(*parser) == start
                ||| start.args.len() == 1 && options@ == (OptionsView {
                    device: Some(start.args[0]),
                    ..OptionsView::defaults()
                }) && args::unread(*parser) == (Unread { args: start.args.skip(1), ..start })
            },
        decreases args::unread(*parser).args.len(), args::unread(*parser).rest.len(),
    {
        let ghost from = args::unread(*parser);
        let ghost before = options@;
        let arg = match args::next_arg(parser) {
            Ok(Some(arg)) => arg,
            Ok(None) => {
                return Ok(options.finish());
            },
            Err(e) => {
                return Err(ParseError::Lex(e));
            },
        };
        match recognize(&arg) {
            Request::List => {
                return Ok(CliResult::List);
            },
            Request::Help => {
                return Ok(CliResult::Help);
            },
            Request::Version => {
                return Ok(CliResult::Version);
            },
            Request::Unknown => {
                return Err(ParseError::Lex(args::unexpected(arg)));
            },
            Request::StablePath => {
                return match args::option_value(parser) {
                    Ok(path) => Ok(CliResult::StablePath(path.bytes)),
                    Err(e) => Err(ParseError::Lex(e)),
                };
            },
            Request::WaitForDevice => {
                options.wait_for_device = true;
            },
            Request::Device => {
                if options.device.is_some() {
                    return Err(ParseError::Cli(CliError::SeveralDevices));
                }
                if let Arg::Value(path) = arg {
                    options.device = Some(path);
                    assert(options@ == (OptionsView {
                        device: Some(path@),
                        ..before
                    }));
                }
            },
            Request::Change(setting) => {
                if options.excludes(setting) {
                    return Err(ParseError::Cli(CliError::KeysAndExcludeKeys));
                }
                let value = match args::option_value(parser) {
                    Ok(value) => value,
                    Err(e) => {
                        return Err(ParseError::Lex(e));
                    },
                };
                let text = match value.text {
                    Some(text) => text,
                    None => {
                        return Err(ParseError::Lex(LexError::NonUnicodeValue(value.bytes)));
                    },
                };
                if let Err(e) = options.set(setting, text) {
                    return Err(ParseError::Cli(e));
                }
            },
        }
    }
}

/// The code of the key that evdev knows by a name, if it knows one.
pub uninterp spec fn keycode_named(name: Seq<char>) -> Option<KeyCode>;

/// `evdev::KeyCode::from_str`, which knows keys by names like `KEY_A`. Which names there are is not
/// stated.
#[verifier::external_body]
fn keycode_by_name(name: &str) -> (code: Option<KeyCode>)
    ensures
        code == keycode_named(name@),
{
    <evdev::KeyCode as std::str::FromStr>::from_str(name).ok().map(|k| k.0)
}

/// Every character is a decimal digit.
pub open spec fn all_digits(spec: Seq<char>) -> bool {
    forall|i: int| 0 <= i < spec.len() ==> '0' <= #[trigger] spec[i] <= '9'
}

/// The key that `spec` specifies: by a code in hexadecimal behind `0x` or in decimal, or else by a
/// name, in any case, with or without the `KEY_` or `BTN_` in front.
pub open spec fn key_of(spec: Seq<char>) -> Result<KeyCode, KeyErrorView> {
    let code = |digits: Seq<char>, radix: nat|
        match text::number(digits, radix, 0xffff) {
            Ok(code) => Ok(code as KeyCode),
            Err(e) => Err(KeyErrorView::BadCode(spec, e)),
        };
    if spec.len() >= 2 && spec[0] == '0' && (spec[1] == 'x' || spec[1] == 'X') {
        code(spec.skip(2), 16)
    } else if spec.len() > 0 && all_digits(spec) {
        code(spec, 10)
    } else {
        let upper = text::uppercased(spec);
        match (
            keycode_named(upper),
            keycode_named("KEY_"@ + upper),
            keycode_named("BTN_"@ + upper),
        ) {
            (Some(code), _, _) => Ok(code),
            (None, Some(code), _) => Ok(code),
            (None, None, Some(code)) => Ok(code),
            (None, None, None) => Err(KeyErrorView::Unknown(spec)),
        }
    }
}

/// The key that a specification names.
pub fn parse_key(spec: &str) -> (result: Result<KeyCode, KeyError>)
    ensures
        match result {
            Ok(key) => key_of(spec@) == Ok::<_, KeyErrorView>(key),
            Err(e) => key_of(spec@) == Err::<KeyCode, _>(e@),
        },
{
    let chars = text::chars_of(spec);
    if chars.len() >= 2 && chars[0] == '0' && (chars[1] == 'x' || chars[1] == 'X') {
        let digits = spec.substring_char(2, chars.len());
        assert(digits@ =~= spec@.skip(2));
        return match text::parse_number(digits, 16, 0xffff) {
            Ok(code) => Ok(code as KeyCode),
            Err(e) => Err(KeyError::BadCode(spec.to_owned(), e)),
        };
    }
    let mut digits: bool = true;
    for i in 0..chars.len()
        invariant
            chars@ == spec@,
            digits == forall|j: int| 0 <= j < i ==> '0' <= #[trigger] spec@[j] <= '9',
    {
        digits = digits && '0' <= chars[i] && chars[i] <= '9';
    }
    if chars.len() > 0 && digits {
        return match text::parse_number(spec, 10, 0xffff) {
            Ok(code) => Ok(code as KeyCode),
            Err(e) => Err(KeyError::BadCode(spec.to_owned(), e)),
        };
    }
    let upper = text::to_uppercase(spec);
    if let Some(code) = keycode_by_name(upper.as_str()) {
        return Ok(code);
    }
    let mut key = "KEY_".to_owned();
    key.append(upper.as_str());
    if let Some(code) = keycode_by_name(key.as_str()) {
        return Ok(code);
    }
    let mut button = "BTN_".to_owned();
    button.append(upper.as_str());
    match keycode_by_name(button.as_str()) {
        Some(code) => Ok(code),
        None => Err(KeyError::Unknown(spec.to_owned())),
    }
}

/// The keys that `specs` specify, or what is wrong with the first that specifies none.
pub open spec fn keys_of(specs: Seq<Seq<char>>) -> Result<Set<KeyCode>, KeyErrorView>
    decreases specs.len(),
{
    if specs.len() == 0 {
        Ok(Set::empty())
    } else {
        match keys_of(specs.drop_last()) {
            Err(e) => Err(e),
            Ok(keys) => match key_of(text::trimmed(specs.last())) {
                Ok(key) => Ok(keys.insert(key)),
                Err(e) => Err(e),
            },
        }
    }
}

proof fn lemma_keys_error(specs: Seq<Seq<char>>, n: int, e: KeyErrorView)
    requires
        0 <= n <= specs.len(),
        keys_of(specs.take(n)) == Err::<Set<KeyCode>, _>(e),
    ensures
        keys_of(specs) == Err::<Set<KeyCode>, _>(e),
    decreases specs.len(),
{
    if n == specs.len() {
        assert(specs.take(n) =~= specs);
    } else {
        assert(specs.drop_last().take(n) =~= specs.take(n));
        lemma_keys_error(specs.drop_last(), n, e);
    }
}

/// The keys that specifications name.
pub fn parse_keys(specs: &[String]) -> (result: Result<HashSet<KeyCode>, KeyError>)
    ensures
        match result {
            Ok(keys) => keys_of(text::texts(specs@)) == Ok::<_, KeyErrorView>(keys@),
            Err(e) => keys_of(text::texts(specs@)) == Err::<Set<KeyCode>, _>(e@),
        },
{
    let mut keys: HashSet<KeyCode> = HashSet::new();
    let ghost all = text::texts(specs@);
    for i in 0..specs.len()
        invariant
            all == text::texts(specs@),
            keys_of(all.take(i as int)) == Ok::<_, KeyErrorView>(keys@),
    {
        proof {
            assert(all.take(i + 1).drop_last() =~= all.take(i as int));
            assert(all.take(i + 1).last() == specs@[i as int]@);
        }
        match parse_key(text::trim(specs[i].as_str()).as_str()) {
            Ok(key) => {
                keys.insert(key);
            },
            Err(e) => {
                proof {
                    lemma_keys_error(all, i + 1, e@);
                }
                return Err(e);
            },
        }
    }
    assert(all.take(all.len() as int) =~= all);
    Ok(keys)
}

#[derive(Debug, PartialEq, Eq)]
pub enum KeyFilter {
    All,
    Only(HashSet<KeyCode>),
    AllExcept(HashSet<KeyCode>),
}

/// Which keys are to be debounced.
pub enum KeyFilterView {
    All,
    Only(Set<KeyCode>),
    AllExcept(Set<KeyCode>),
}

impl View for KeyFilter {
    type V = KeyFilterView;

    open spec fn view(&self) -> KeyFilterView {
        match self {
            KeyFilter::All => KeyFilterView::All,
            KeyFilter::Only(set) => KeyFilterView::Only(set@),
            KeyFilter::AllExcept(set) => KeyFilterView::AllExcept(set@),
        }
    }
}

fn copied_set(set: &HashSet<KeyCode>) -> (copy: HashSet<KeyCode>)
    ensures
        copy@ == set@,
{
    let members = codes::members(set);
    let mut copy: HashSet<KeyCode> = HashSet::new();
    for i in 0..members.len()
        invariant
            forall|k: KeyCode| #[trigger]
                copy@.contains(k) <==> members@.take(i as int).contains(k),
    {
        proof {
            codes::lemma_take_contains(members@, i as int);
        }
        copy.insert(members[i]);
    }
    assert(members@.take(members@.len() as int) =~= members@);
    assert(copy@ =~= set@);
    copy
}

impl Clone for KeyFilter {
    fn clone(&self) -> (copy: KeyFilter)
        ensures
            copy@ == self@,
    {
        match self {
            KeyFilter::All => KeyFilter::All,
            KeyFilter::Only(set) => KeyFilter::Only(copied_set(set)),
            KeyFilter::AllExcept(set) => KeyFilter::AllExcept(copied_set(set)),
        }
    }
}

impl KeyFilter {
    /// Whether `key` is to be debounced.
    pub open spec fn covers(self, key: KeyCode) -> bool {
        match self {
            KeyFilter::All => true,
            KeyFilter::Only(set) => set@.contains(key),
            KeyFilter::AllExcept(set) => !set@.contains(key),
        }
    }

    pub fn should_debounce(&self, key: KeyCode) -> (should: bool)
        ensures
            should == self.covers(key),
    {
        match self {
            KeyFilter::All => true,
            KeyFilter::Only(set) => set.contains(&key),
            KeyFilter::AllExcept(set) => !set.contains(&key),
        }
    }
}

impl CliView {
    /// Which keys the options ask to debounce: only those that are listed, all but those that are
    /// listed, or all.
    pub open spec fn filter(self) -> Result<KeyFilterView, CliErrorView> {
        match (self.keys, self.exclude_keys) {
            (Some(keys), _) if keys.len() > 0 => match keys_of(keys) {
                Ok(set) => Ok(KeyFilterView::Only(set)),
                Err(e) => Err(CliErrorView::Keys(e)),
            },
            (_, Some(keys)) if keys.len() > 0 => match keys_of(keys) {
                Ok(set) => Ok(KeyFilterView::AllExcept(set)),
                Err(e) => Err(CliErrorView::ExcludeKeys(e)),
            },
            _ => Ok(KeyFilterView::All),
        }
    }
}

impl Cli {
    pub fn key_filter(&self) -> (result: Result<KeyFilter, CliError>)
        ensures
            match result {
                Ok(filter) => self@.filter() == Ok::<_, CliErrorView>(filter@),
                Err(e) => self@.filter() == Err::<KeyFilterView, _>(e@),
            },
    {
        if let Some(keys) = &self.keys {
            if keys.len() > 0 {
                return match parse_keys(keys.as_slice()) {
                    Ok(set) => Ok(KeyFilter::Only(set)),
                    Err(e) => Err(CliError::Keys(e)),
                };
            }
        }
        if let Some(keys) = &self.exclude_keys {
            if keys.len() > 0 {
                return match parse_keys(keys.as_slice()) {
                    Ok(set) => Ok(KeyFilter::AllExcept(set)),
                    Err(e) => Err(CliError::ExcludeKeys(e)),
                };
            }
        }
        Ok(KeyFilter::All)
    }
}

/// Whatever the command line is, it never comes to both a list of keys to debounce and a list of
/// keys not to.
pub proof fn never_both_lists(options: OptionsView, from: Unread)
    requires
        options.keys is None || options.exclude_keys is None,
    ensures
        parsed(options, from) matches Ok(CliResultView::Cli(cli)) ==> cli.keys is None
            || cli.exclude_keys is None,
    decreases from.args.len(), from.rest.len(),
{
    let (told, after) = args::lexed(from);
    if let Ok(Some(arg)) = told {
        match requested(arg) {
            Request::WaitForDevice => {
                if args::shrinks(from, after) {
                    never_both_lists(OptionsView { wait_for_device: true, ..options }, after);
                }
            },
            Request::Device => {
                if args::shrinks(from, after) {
                    never_both_lists(
                        OptionsView { device: Some(arg->Value_0), ..options },
                        after,
                    );
                }
            },
            Request::Change(setting) => {
                let (value, rest) = args::value_taken(after);
                if !options.excludes(setting) && args::shrinks(from, rest) {
                    if let Ok(value) = value {
                        if let Ok(next) = options.set(setting, vstd::utf8::decode_utf8(value)) {
                            never_both_lists(next, rest);
                        }
                    }
                }
            },
            _ => {},
        }
    }
}

/// A list of keys lists at least one, so that a filter is never left out for want of keys.
pub proof fn lists_are_never_empty(value: Seq<char>)
    ensures
        listed(value).len() > 0,
{
    text::lemma_parts(value, ',');
}

proof fn lemma_number_uppercased(digits: Seq<char>, radix: nat, max: nat)
    ensures
        text::number_of(text::uppercased(digits), radix, max) == text::number_of(
            digits,
            radix,
            max,
        ),
    decreases digits.len(),
{
    if digits.len() > 0 {
        lemma_number_uppercased(digits.drop_last(), radix, max);
        assert(text::uppercased(digits).drop_last() =~= text::uppercased(digits.drop_last()));
    }
}

/// A key can be specified in any case.
pub proof fn keys_are_case_insensitive(spec: Seq<char>)
    requires
        key_of(spec) is Ok,
    ensures
        key_of(text::uppercased(spec)) == key_of(spec),
{
    let upper = text::uppercased(spec);
    assert(text::uppercased(upper) =~= upper);
    if spec.len() >= 2 && spec[0] == '0' && (spec[1] == 'x' || spec[1] == 'X') {
        let digits = spec.skip(2);
        assert(upper[0] == '0' && upper[1] == 'X');
        assert(upper.skip(2) =~= text::uppercased(digits));
        lemma_number_uppercased(digits, 16, 0xffff);
        if digits.len() > 0 {
            assert(text::uppercased(digits)[0] == '+' <==> digits[0] == '+');
            assert(text::uppercased(digits).skip(1) =~= text::uppercased(digits.skip(1)));
            lemma_number_uppercased(digits.skip(1), 16, 0xffff);
        }
    } else if spec.len() > 0 && all_digits(spec) {
        assert forall|i: int| 0 <= i < spec.len() implies #[trigger] upper[i] == spec[i] by {
            assert('0' <= spec[i] <= '9');
        }
        assert(upper =~= spec);
    } else {
        assert(!(upper.len() >= 2 && upper[0] == '0' && (upper[1] == 'x' || upper[1] == 'X'))) by {
            if upper.len() >= 2 && upper[0] == '0' {
                assert(spec[0] == '0');
            }
        }
        if spec.len() > 0 {
            let i = choose|i: int|
                0 <= i < spec.len() && !('0' <= #[trigger] spec[i] && spec[i] <= '9');
            assert(!('0' <= upper[i] <= '9'));
        }
    }
}

} // verus!
