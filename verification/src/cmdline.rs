//! What the options come to, one by one and along a command line.

use crate::args;
use crate::args::{ArgView, LexErrorView, Unread};
use crate::cli;
use crate::cli::{Cli, CliErrorView, CliResult, CliResultView, CliView};
use crate::cli::{KeyErrorView, KeyFilter, KeyFilterView};
use crate::cli::{Options, OptionsView, ParseErrorView, Request, Setting};
use crate::debounce::{KeyCode, Mode};
use crate::text;
use crate::text::NumberError;
use crate::time;
use crate::wording;
use vstd::prelude::*;

verus! {

/// The names of the modes tell them apart, and no other value is a mode.
pub proof fn modes_are_set_by_name(options: OptionsView, value: Seq<char>)
    ensures
        match options.set(Setting::Mode, value) {
            Ok(after) => {
                &&& after.mode == Mode::Eager <==> value == "eager"@
                &&& after.mode == Mode::Defer <==> value == "defer"@
                &&& after.mode == Mode::Mixed <==> value == "mixed"@
            },
            Err(e) => value != "eager"@ && value != "defer"@ && value != "mixed"@ && e
                == CliErrorView::InvalidMode(value),
        },
{
    lemma_mode_names();
}

/// The names of the modes differ.
pub(crate) proof fn lemma_mode_names()
    ensures
        "eager"@ != "defer"@,
        "eager"@ != "mixed"@,
        "defer"@ != "mixed"@,
{
    reveal_strlit("eager");
    reveal_strlit("defer");
    reveal_strlit("mixed");
    assert("eager"@[0] == 'e');
    assert("defer"@[0] == 'd');
    assert("mixed"@[0] == 'm');
}

/// A setting changes nothing but itself.
pub proof fn settings_change_only_themselves(
    options: OptionsView,
    setting: Setting,
    value: Seq<char>,
)
    ensures
        options.set(setting, value) matches Ok(after) ==> {
            &&& setting != Setting::Mode ==> after.mode == options.mode
            &&& setting != Setting::Window ==> after.window == options.window
            &&& setting != Setting::Keys ==> after.keys == options.keys
            &&& setting != Setting::ExcludeKeys ==> after.exclude_keys == options.exclude_keys
            &&& setting != Setting::VirtualName ==> after.virtual_name == options.virtual_name
            &&& setting != Setting::DeviceRescanInterval ==> after.device_rescan_interval
                == options.device_rescan_interval
            &&& after.wait_for_device == options.wait_for_device
            &&& after.device == options.device
        },
{
}

/// A setting that is set again is as if it had only been set the last time.
pub proof fn the_last_value_counts(
    options: OptionsView,
    setting: Setting,
    first: Seq<char>,
    second: Seq<char>,
)
    ensures
        options.set(setting, first) matches Ok(after) ==> after.set(setting, second)
            == options.set(setting, second),
{
}

/// The window and the interval are told in milliseconds, in decimal, up to what 64 bits hold;
/// anything larger is refused.
pub proof fn spans_are_set_in_milliseconds(options: OptionsView, ms: nat)
    ensures
        ms <= u64::MAX ==> {
            &&& options.set(Setting::Window, text::decimal(ms)) matches Ok(after) && after.window
                == ms * 1_000_000
            &&& options.set(Setting::DeviceRescanInterval, text::decimal(ms)) matches Ok(after)
                && after.device_rescan_interval == ms * 1_000_000
        },
        ms > u64::MAX ==> {
            &&& options.set(Setting::Window, text::decimal(ms)) == Err::<OptionsView, _>(
                CliErrorView::InvalidWindow(text::decimal(ms)),
            )
            &&& options.set(Setting::DeviceRescanInterval, text::decimal(ms)) == Err::<
                OptionsView,
                _,
            >(CliErrorView::InvalidDeviceRescanInterval(text::decimal(ms)))
        },
{
    wording::numbers_are_read_as_they_are_written(ms, u64::MAX as nat);
}

/// A span is taken if and only if its value is a number, and comes to a million nanoseconds for
/// each one that it counts.
pub proof fn only_numbers_are_spans(options: OptionsView, value: Seq<char>)
    ensures
        match text::number(value, 10, u64::MAX as nat) {
            Ok(ms) => {
                &&& options.set(Setting::Window, value) matches Ok(after) && after.window == ms
                    * 1_000_000
                &&& options.set(Setting::DeviceRescanInterval, value) matches Ok(after)
                    && after.device_rescan_interval == ms * 1_000_000
            },
            Err(_) => {
                &&& options.set(Setting::Window, value) == Err::<OptionsView, _>(
                    CliErrorView::InvalidWindow(value),
                )
                &&& options.set(Setting::DeviceRescanInterval, value) == Err::<OptionsView, _>(
                    CliErrorView::InvalidDeviceRescanInterval(value),
                )
            },
        },
{
}

/// Names and lists of keys are taken whatever they are; a name as it is, and a list item by item.
pub proof fn names_and_lists_are_always_taken(options: OptionsView, value: Seq<char>)
    ensures
        options.set(Setting::VirtualName, value) matches Ok(after) && after.virtual_name == Some(
            value,
        ),
        options.set(Setting::Keys, value) matches Ok(after) && after.keys == Some(
            cli::listed(value),
        ),
        options.set(Setting::ExcludeKeys, value) matches Ok(after) && after.exclude_keys == Some(
            cli::listed(value),
        ),
{
}

/// The items of a list are what is between its commas, without the whitespace around them.
pub proof fn lists_are_separated_by_commas(item: Seq<char>, a: Seq<char>, b: Seq<char>)
    ensures
        !item.contains(',') ==> cli::listed(item) == seq![text::trimmed(item)],
        cli::listed(a.push(',') + b) == cli::listed(a) + cli::listed(b),
{
    if !item.contains(',') {
        wording::a_text_without_separators_is_whole(item, ',');
        assert(cli::listed(item) =~= seq![text::trimmed(item)]);
    }
    wording::separators_separate(a, b, ',');
    assert(cli::listed(a.push(',') + b) =~= cli::listed(a) + cli::listed(b));
}

/// Without options the mode is mixed, the window is 20 milliseconds, the keyboard is looked for
/// every 500 milliseconds, and nothing else is set.
pub proof fn defaults_are_as_documented()
    ensures
        ({
            let options = OptionsView::defaults();
            &&& options.mode == Mode::Mixed
            &&& options.window == 20 * 1_000_000
            &&& options.device_rescan_interval == 500 * 1_000_000
            &&& options.keys is None
            &&& options.exclude_keys is None
            &&& options.virtual_name is None
            &&& !options.wait_for_device
            &&& options.device is None
        }),
{
}

/// At the end of the command line the options are what was set, or the usage is asked for if there
/// is no device.
pub proof fn options_are_kept_to_the_end(options: OptionsView)
    ensures
        options.device is None <==> options.finished() == CliResultView::Usage,
        options.device is Some ==> (options.finished() matches CliResultView::Cli(cli) && {
            &&& cli.mode == options.mode
            &&& cli.window == options.window
            &&& cli.keys == options.keys
            &&& cli.exclude_keys == options.exclude_keys
            &&& cli.virtual_name == options.virtual_name
            &&& cli.device_rescan_interval == options.device_rescan_interval
            &&& cli.wait_for_device == options.wait_for_device
            &&& cli.device == options.device->0
        }),
{
}

/// `arg` is one of the names of `setting`.
pub open spec fn names(arg: ArgView, setting: Setting) -> bool {
    match setting {
        Setting::Mode => arg == ArgView::Short('m') || arg == ArgView::Long("mode"@),
        Setting::Window => arg == ArgView::Short('w') || arg == ArgView::Long("window"@),
        Setting::Keys => arg == ArgView::Long("keys"@),
        Setting::ExcludeKeys => arg == ArgView::Long("exclude-keys"@),
        Setting::VirtualName => arg == ArgView::Long("virtual-name"@),
        Setting::DeviceRescanInterval => arg == ArgView::Long("device-rescan-interval"@),
    }
}

/// The long names of the options differ.
proof fn lemma_long_names()
    ensures
        "mode"@.len() == 4 && "mode"@[0] == 'm',
        "window"@.len() == 6 && "window"@[0] == 'w',
        "keys"@.len() == 4 && "keys"@[0] == 'k',
        "exclude-keys"@.len() == 12 && "exclude-keys"@[0] == 'e',
        "virtual-name"@.len() == 12 && "virtual-name"@[0] == 'v',
        "device-rescan-interval"@.len() == 22 && "device-rescan-interval"@[0] == 'd',
        "wait-for-device"@.len() == 15 && "wait-for-device"@[0] == 'w',
        "list"@.len() == 4 && "list"@[0] == 'l',
        "stable-path"@.len() == 11 && "stable-path"@[0] == 's',
        "help"@.len() == 4 && "help"@[0] == 'h',
        "version"@.len() == 7 && "version"@[0] == 'v',
{
    reveal_strlit("mode");
    reveal_strlit("window");
    reveal_strlit("keys");
    reveal_strlit("exclude-keys");
    reveal_strlit("virtual-name");
    reveal_strlit("device-rescan-interval");
    reveal_strlit("wait-for-device");
    reveal_strlit("list");
    reveal_strlit("stable-path");
    reveal_strlit("help");
    reveal_strlit("version");
}

/// Every option is known by its names and by no others; an argument that is no option is a device.
pub proof fn options_are_known_by_their_names(arg: ArgView, setting: Setting)
    ensures
        cli::requested(arg) == Request::Change(setting) <==> names(arg, setting),
        cli::requested(arg) == Request::WaitForDevice <==> arg == ArgView::Long(
            "wait-for-device"@,
        ),
        cli::requested(arg) == Request::List <==> arg == ArgView::Short('l') || arg
            == ArgView::Long("list"@),
        cli::requested(arg) == Request::StablePath <==> arg == ArgView::Short('p') || arg
            == ArgView::Long("stable-path"@),
        cli::requested(arg) == Request::Help <==> arg == ArgView::Short('h') || arg
            == ArgView::Long("help"@),
        cli::requested(arg) == Request::Version <==> arg == ArgView::Short('V') || arg
            == ArgView::Long("version"@),
        cli::requested(arg) == Request::Device <==> arg is Value,
{
    lemma_long_names();
}

/// What the parser hands out next.
pub open spec fn next(from: Unread) -> Result<Option<ArgView>, LexErrorView> {
    args::lexed(from).0
}

/// What is left after that.
pub open spec fn after_next(from: Unread) -> Unread {
    args::lexed(from).1
}

/// An option that takes a value has it set, and the rest of the command line goes on from there;
/// where the value is missing, is no text or is not taken, that is what the command line comes to,
/// and a list of keys after the other one is refused before its value is looked at.
pub proof fn settings_are_taken_along_the_line(
    options: OptionsView,
    from: Unread,
    arg: ArgView,
    setting: Setting,
)
    requires
        next(from) == Ok::<_, LexErrorView>(Some(arg)),
        names(arg, setting),
    ensures
        ({
            let (value, rest) = args::value_taken(after_next(from));
            let conflict = (setting == Setting::Keys && options.exclude_keys is Some) || (setting
                == Setting::ExcludeKeys && options.keys is Some);
            &&& conflict ==> cli::parsed(options, from) == Err::<CliResultView, _>(
                ParseErrorView::Cli(CliErrorView::KeysAndExcludeKeys),
            )
            &&& !conflict ==> match value {
                Err(e) => cli::parsed(options, from) == Err::<CliResultView, _>(
                    ParseErrorView::Lex(e),
                ),
                Ok(bytes) => if !vstd::utf8::valid_utf8(bytes) {
                    cli::parsed(options, from) == Err::<CliResultView, _>(
                        ParseErrorView::Lex(LexErrorView::NonUnicodeValue(bytes)),
                    )
                } else {
                    match options.set(setting, vstd::utf8::decode_utf8(bytes)) {
                        Err(e) => cli::parsed(options, from) == Err::<CliResultView, _>(
                            ParseErrorView::Cli(e),
                        ),
                        Ok(after) => args::shrinks(from, rest) ==> cli::parsed(options, from)
                            == cli::parsed(after, rest),
                    }
                },
            }
        }),
{
    options_are_known_by_their_names(arg, setting);
}

/// Asking for a mode sets it and nothing else. So asking for the mixed mode, which is the default,
/// comes to the same as what follows does alone: `-m mixed` in front of a device to what that
/// device comes to.
pub proof fn asking_for_a_mode_sets_it(options: OptionsView, from: Unread, arg: ArgView, mode: Mode)
    requires
        next(from) == Ok::<_, LexErrorView>(Some(arg)),
        arg == ArgView::Short('m') || arg == ArgView::Long("mode"@),
        args::value_taken(after_next(from)).0 matches Ok(bytes) && vstd::utf8::valid_utf8(bytes)
            && vstd::utf8::decode_utf8(bytes) == match mode {
            Mode::Eager => "eager"@,
            Mode::Defer => "defer"@,
            Mode::Mixed => "mixed"@,
        },
        args::shrinks(from, args::value_taken(after_next(from)).1),
    ensures
        cli::parsed(options, from) == cli::parsed(
            OptionsView { mode, ..options },
            args::value_taken(after_next(from)).1,
        ),
        options.mode == mode ==> cli::parsed(options, from) == cli::parsed(
            options,
            args::value_taken(after_next(from)).1,
        ),
        mode == Mode::Mixed ==> cli::parsed(OptionsView::defaults(), from) == cli::parsed(
            OptionsView::defaults(),
            args::value_taken(after_next(from)).1,
        ),
{
    lemma_mode_names();
    settings_are_taken_along_the_line(options, from, arg, Setting::Mode);
    settings_are_taken_along_the_line(OptionsView::defaults(), from, arg, Setting::Mode);
    modes_are_set_by_name(options, "eager"@);
    modes_are_set_by_name(options, "defer"@);
    modes_are_set_by_name(options, "mixed"@);
    if mode == Mode::Mixed {
        modes_are_set_by_name(OptionsView::defaults(), "mixed"@);
        assert(OptionsView { mode, ..OptionsView::defaults() } == OptionsView::defaults());
    }
    if options.mode == mode {
        assert(OptionsView { mode, ..options } == options);
    }
}

/// A device is taken where it stands, if it is the only one; a second one is refused.
pub proof fn one_device_is_taken(options: OptionsView, from: Unread, path: Seq<u8>)
    requires
        next(from) == Ok::<_, LexErrorView>(Some(ArgView::Value(path))),
        args::shrinks(from, after_next(from)),
    ensures
        options.device is None ==> cli::parsed(options, from) == cli::parsed(
            OptionsView { device: Some(path), ..options },
            after_next(from),
        ),
        options.device is Some ==> cli::parsed(options, from) == Err::<CliResultView, _>(
            ParseErrorView::Cli(CliErrorView::SeveralDevices),
        ),
{
}

/// `--wait-for-device` has the device waited for, and changes nothing else.
pub proof fn waiting_can_be_asked_for(options: OptionsView, from: Unread)
    requires
        next(from) == Ok::<_, LexErrorView>(Some(ArgView::Long("wait-for-device"@))),
        args::shrinks(from, after_next(from)),
    ensures
        cli::parsed(options, from) == cli::parsed(
            OptionsView { wait_for_device: true, ..options },
            after_next(from),
        ),
{
    options_are_known_by_their_names(ArgView::Long("wait-for-device"@), Setting::Mode);
}

/// Asking for the list, the help, the version or a stable path decides what the command line comes
/// to, whatever came before and whatever follows.
pub proof fn other_requests_decide(options: OptionsView, from: Unread, arg: ArgView)
    requires
        next(from) == Ok::<_, LexErrorView>(Some(arg)),
    ensures
        arg == ArgView::Short('l') || arg == ArgView::Long("list"@) ==> cli::parsed(options, from)
            == Ok::<_, ParseErrorView>(CliResultView::List),
        arg == ArgView::Short('h') || arg == ArgView::Long("help"@) ==> cli::parsed(options, from)
            == Ok::<_, ParseErrorView>(CliResultView::Help),
        arg == ArgView::Short('V') || arg == ArgView::Long("version"@) ==> cli::parsed(
            options,
            from,
        ) == Ok::<_, ParseErrorView>(CliResultView::Version),
        arg == ArgView::Short('p') || arg == ArgView::Long("stable-path"@) ==> cli::parsed(
            options,
            from,
        ) == match args::value_taken(after_next(from)).0 {
            Ok(path) => Ok::<_, ParseErrorView>(CliResultView::StablePath(path)),
            Err(e) => Err::<CliResultView, _>(ParseErrorView::Lex(e)),
        },
{
    options_are_known_by_their_names(arg, Setting::Mode);
}

/// An option that is not known is told as it was written, and so is what is wrong with the command
/// line itself; at its end the options that were set count.
pub proof fn the_line_is_taken_to_its_end(
    options: OptionsView,
    from: Unread,
    c: char,
    name: Seq<char>,
)
    ensures
        next(from) matches Err(e) ==> cli::parsed(options, from) == Err::<CliResultView, _>(
            ParseErrorView::Lex(e),
        ),
        next(from) == Ok::<Option<ArgView>, LexErrorView>(None) ==> cli::parsed(options, from)
            == Ok::<_, ParseErrorView>(options.finished()),
        next(from) == Ok::<_, LexErrorView>(Some(ArgView::Short(c))) && c != 'm' && c != 'w' && c
            != 'l' && c != 'p' && c != 'h' && c != 'V' ==> cli::parsed(options, from) == Err::<
            CliResultView,
            _,
        >(ParseErrorView::Lex(LexErrorView::UnexpectedOption(seq!['-', c]))),
        next(from) == Ok::<_, LexErrorView>(Some(ArgView::Long(name))) && name != "mode"@
            && name != "window"@ && name != "keys"@ && name != "exclude-keys"@ && name
            != "virtual-name"@ && name != "device-rescan-interval"@ && name != "wait-for-device"@
            && name != "list"@ && name != "stable-path"@ && name != "help"@ && name
            != "version"@ ==> cli::parsed(options, from) == Err::<CliResultView, _>(
            ParseErrorView::Lex(LexErrorView::UnexpectedOption(seq!['-', '-'] + name)),
        ),
{
    reveal_strlit("-");
    reveal_strlit("--");
    assert("--"@ =~= seq!['-', '-']);
    assert("-"@.push(c) =~= seq!['-', c]);
}

/// Each error tells the value that was not taken and the option it was meant for.
pub proof fn errors_tell_value_and_option(value: Seq<char>)
    ensures
        text::occurs(CliErrorView::InvalidMode(value).words(), value),
        text::occurs(CliErrorView::InvalidMode(value).words(), "-m/--mode"@),
        text::occurs(CliErrorView::InvalidWindow(value).words(), value),
        text::occurs(CliErrorView::InvalidWindow(value).words(), "-w/--window"@),
        text::occurs(CliErrorView::InvalidDeviceRescanInterval(value).words(), value),
        text::occurs(
            CliErrorView::InvalidDeviceRescanInterval(value).words(),
            "--device-rescan-interval"@,
        ),
{
    lemma_invalid_value(value, "-m/--mode"@);
    lemma_invalid_value(value, "-w/--window"@);
    lemma_invalid_value(value, "--device-rescan-interval"@);
}

proof fn lemma_invalid_value(value: Seq<char>, option: Seq<char>)
    ensures
        text::occurs(cli::invalid_value(value, option), value),
        text::occurs(cli::invalid_value(value, option), option),
{
    let words = cli::invalid_value(value, option);
    let start = "invalid value '"@;
    let middle = "' for option "@;
    wording::what_is_surrounded_occurs(start, value, middle + option);
    assert(start + value + (middle + option) =~= words);
    wording::what_is_surrounded_occurs(start + value + middle, option, Seq::empty());
    assert(start + value + middle + option + Seq::<char>::empty() =~= words);
}

/// Each error of a key tells the key as it was specified, and the option that it came from.
pub proof fn key_errors_tell_the_key(spec: Seq<char>, e: NumberError)
    ensures
        text::occurs(KeyErrorView::Unknown(spec).words(), text::quoted(spec)),
        text::occurs(KeyErrorView::BadCode(spec, e).words(), text::quoted(spec)),
        text::occurs(KeyErrorView::BadCode(spec, e).words(), e.words()),
        CliErrorView::Keys(KeyErrorView::Unknown(spec)).words() == "--keys: "@
            + KeyErrorView::Unknown(spec).words(),
        CliErrorView::ExcludeKeys(KeyErrorView::Unknown(spec)).words() == "--exclude-keys: "@
            + KeyErrorView::Unknown(spec).words(),
{
    let quoted = text::quoted(spec);
    let none = Seq::<char>::empty();
    wording::what_is_surrounded_occurs("unknown key "@, quoted, none);
    assert("unknown key "@ + quoted + none =~= KeyErrorView::Unknown(spec).words());
    let words = KeyErrorView::BadCode(spec, e).words();
    wording::what_is_surrounded_occurs("bad key code "@, quoted, ": "@ + e.words());
    assert("bad key code "@ + quoted + (": "@ + e.words()) =~= words);
    wording::what_is_surrounded_occurs("bad key code "@ + quoted + ": "@, e.words(), none);
    assert("bad key code "@ + quoted + ": "@ + e.words() + none =~= words);
}

/// Every key can be specified by its code, in decimal or in hexadecimal behind `0x` or `0X`.
pub proof fn keys_can_be_specified_by_code(code: KeyCode)
    ensures
        cli::key_of(text::decimal(code as nat)) == Ok::<_, KeyErrorView>(code),
        cli::key_of(seq!['0', 'x'] + text::hex4(code)) == Ok::<_, KeyErrorView>(code),
        cli::key_of(seq!['0', 'X'] + text::hex4(code)) == Ok::<_, KeyErrorView>(code),
{
    lemma_decimal_spec(code as nat);
    wording::numbers_are_read_as_they_are_written(code as nat, 0xffff);
    wording::hexadecimal_is_read_as_it_is_written(code, 0xffff);
    assert((seq!['0', 'x'] + text::hex4(code)).skip(2) =~= text::hex4(code));
    assert((seq!['0', 'X'] + text::hex4(code)).skip(2) =~= text::hex4(code));
}

/// A number is all digits, and none of them is an `x`.
proof fn lemma_decimal_spec(value: nat)
    ensures
        cli::all_digits(text::decimal(value)),
        text::decimal(value).len() > 0,
    decreases value,
{
    wording::digits_count_in_order('0');
    let all = text::decimal(value);
    assert('0' <= text::digit_char(value % 10) <= '9');
    if value >= 10 {
        lemma_decimal_spec(value / 10);
        let front = text::decimal(value / 10);
        assert forall|i: int| 0 <= i < all.len() implies '0' <= #[trigger] all[i] <= '9' by {
            if i < front.len() {
                assert(all[i] == front[i]);
            }
        }
    }
}

/// A code that no key can have is refused, and told.
pub proof fn codes_end_at_16_bits(value: nat)
    requires
        value > 0xffff,
    ensures
        cli::key_of(text::decimal(value)) == Err::<KeyCode, _>(
            KeyErrorView::BadCode(text::decimal(value), NumberError::TooLarge),
        ),
{
    lemma_decimal_spec(value);
    wording::numbers_are_read_as_they_are_written(value, 0xffff);
}

/// `spec` reads as a code rather than as a name.
pub open spec fn reads_as_code(spec: Seq<char>) -> bool {
    ||| spec.len() >= 2 && spec[0] == '0' && (spec[1] == 'x' || spec[1] == 'X')
    ||| spec.len() > 0 && forall|i: int| 0 <= i < spec.len() ==> '0' <= #[trigger] spec[i] <= '9'
}

/// What reads as a code is one or is refused as one, and why is told with it.
pub proof fn bad_codes_are_told(spec: Seq<char>)
    requires
        reads_as_code(spec),
    ensures
        ({
            let hex = spec.len() >= 2 && (spec[1] == 'x' || spec[1] == 'X');
            let number = if hex {
                text::number(spec.skip(2), 16, 0xffff)
            } else {
                text::number(spec, 10, 0xffff)
            };
            match number {
                Ok(code) => cli::key_of(spec) == Ok::<_, KeyErrorView>(code as KeyCode),
                Err(e) => cli::key_of(spec) == Err::<KeyCode, _>(KeyErrorView::BadCode(spec, e)),
            }
        }),
{
    if spec.len() >= 2 && (spec[1] == 'x' || spec[1] == 'X') {
        assert(!('0' <= spec[1] <= '9'));
    }
    if !(spec.len() >= 2 && spec[0] == '0' && (spec[1] == 'x' || spec[1] == 'X')) {
        assert(cli::all_digits(spec));
    }
}

/// A key can be specified by the name that evdev knows it by, in any case; where that names none,
/// with `KEY_` in front, and where that names none either, with `BTN_`. A specification that is
/// neither code nor name is told to be unknown.
pub proof fn keys_can_be_specified_by_name(spec: Seq<char>)
    requires
        !reads_as_code(spec),
    ensures
        ({
            let name = text::uppercased(spec);
            let plain = cli::keycode_named(name);
            let key = cli::keycode_named("KEY_"@ + name);
            let button = cli::keycode_named("BTN_"@ + name);
            &&& plain is Some ==> cli::key_of(spec) == Ok::<_, KeyErrorView>(plain->0)
            &&& plain is None && key is Some ==> cli::key_of(spec) == Ok::<_, KeyErrorView>(key->0)
            &&& plain is None && key is None && button is Some ==> cli::key_of(spec) == Ok::<
                _,
                KeyErrorView,
            >(button->0)
            &&& plain is None && key is None && button is None ==> cli::key_of(spec) == Err::<
                KeyCode,
                _,
            >(KeyErrorView::Unknown(spec))
        }),
{
    if spec.len() > 0 && cli::all_digits(spec) {
        assert(reads_as_code(spec));
    }
}

/// A list of keys is the keys of its items, each of which is specified with or without whitespace
/// around it; one that specifies none makes the whole list fail, with what is wrong with the first.
pub proof fn lists_are_the_keys_of_their_items(specs: Seq<Seq<char>>)
    ensures
        match cli::keys_of(specs) {
            Ok(keys) => {
                &&& forall|i: int|
                    0 <= i < specs.len() ==> cli::key_of(text::trimmed(#[trigger] specs[i])) is Ok
                &&& forall|k: KeyCode| #[trigger]
                    keys.contains(k) <==> exists|i: int|
                        0 <= i < specs.len() && cli::key_of(text::trimmed(#[trigger] specs[i]))
                            == Ok::<_, KeyErrorView>(k)
            },
            Err(e) => exists|i: int|
                0 <= i < specs.len() && cli::key_of(text::trimmed(#[trigger] specs[i])) == Err::<
                    KeyCode,
                    _,
                >(e) && forall|j: int|
                    0 <= j < i ==> cli::key_of(text::trimmed(#[trigger] specs[j])) is Ok,
        },
    decreases specs.len(),
{
    if specs.len() > 0 {
        let front = specs.drop_last();
        let last = specs.len() - 1;
        lists_are_the_keys_of_their_items(front);
        assert(specs[last] == specs.last());
        assert forall|i: int| 0 <= i < front.len() implies #[trigger] specs[i] == front[i] by {}
        match cli::keys_of(front) {
            Ok(old_keys) => {
                assert forall|j: int| 0 <= j < last implies cli::key_of(
                    text::trimmed(#[trigger] specs[j]),
                ) is Ok by {
                    assert(specs[j] == front[j]);
                }
                if let Ok(key) = cli::key_of(text::trimmed(specs.last())) {
                    let keys = old_keys.insert(key);
                    assert forall|k: KeyCode| #[trigger] keys.contains(k) <==> exists|i: int|
                        0 <= i < specs.len() && cli::key_of(text::trimmed(#[trigger] specs[i]))
                            == Ok::<_, KeyErrorView>(k) by {
                        if old_keys.contains(k) {
                            let i = choose|i: int|
                                0 <= i < front.len() && cli::key_of(
                                    text::trimmed(#[trigger] front[i]),
                                ) == Ok::<_, KeyErrorView>(k);
                            assert(specs[i] == front[i]);
                        }
                        if k == key {
                            assert(cli::key_of(text::trimmed(specs[last])) == Ok::<
                                _,
                                KeyErrorView,
                            >(k));
                        }
                        if exists|i: int|
                            0 <= i < specs.len() && cli::key_of(text::trimmed(#[trigger] specs[i]))
                                == Ok::<_, KeyErrorView>(k) {
                            let i = choose|i: int|
                                0 <= i < specs.len() && cli::key_of(
                                    text::trimmed(#[trigger] specs[i]),
                                ) == Ok::<_, KeyErrorView>(k);
                            if i < last {
                                assert(front[i] == specs[i]);
                            }
                        }
                    }
                }
            },
            Err(e) => {
                let i = choose|i: int|
                    0 <= i < front.len() && cli::key_of(text::trimmed(#[trigger] front[i]))
                        == Err::<KeyCode, _>(e) && forall|j: int|
                        0 <= j < i ==> cli::key_of(text::trimmed(#[trigger] front[j])) is Ok;
                assert(specs[i] == front[i]);
                assert forall|j: int| 0 <= j < i implies cli::key_of(
                    text::trimmed(#[trigger] specs[j]),
                ) is Ok by {
                    assert(specs[j] == front[j]);
                }
            },
        }
    }
}

/// `k` is among the keys that `specs` specify.
pub open spec fn specified(specs: Seq<Seq<char>>, k: KeyCode) -> bool {
    exists|i: int|
        0 <= i < specs.len() && cli::key_of(text::trimmed(#[trigger] specs[i])) == Ok::<
            _,
            KeyErrorView,
        >(k)
}

/// With a list of keys just these are debounced; with a list of keys to leave out, just the others;
/// with neither, all.
pub proof fn filters_go_by_the_lists(cli: CliView)
    requires
        cli.keys is None || cli.exclude_keys is None,
        cli.keys matches Some(keys) ==> keys.len() > 0,
        cli.exclude_keys matches Some(keys) ==> keys.len() > 0,
    ensures
        match cli.filter() {
            Ok(KeyFilterView::All) => cli.keys is None && cli.exclude_keys is None,
            Ok(KeyFilterView::Only(set)) => cli.keys is Some && forall|k: KeyCode| #[trigger]
                set.contains(k) <==> specified(cli.keys->0, k),
            Ok(KeyFilterView::AllExcept(set)) => cli.exclude_keys is Some && forall|
                k: KeyCode,
            | #[trigger]
                set.contains(k) <==> specified(cli.exclude_keys->0, k),
            Err(CliErrorView::Keys(e)) => cli.keys is Some && cli::keys_of(cli.keys->0) == Err::<
                Set<KeyCode>,
                _,
            >(e),
            Err(CliErrorView::ExcludeKeys(e)) => cli.exclude_keys is Some && cli::keys_of(
                cli.exclude_keys->0,
            ) == Err::<Set<KeyCode>, _>(e),
            Err(_) => false,
        },
        cli.keys is None && cli.exclude_keys is None ==> cli.filter() == Ok::<_, CliErrorView>(
            KeyFilterView::All,
        ),
{
    if let Some(keys) = cli.keys {
        lists_are_the_keys_of_their_items(keys);
    }
    if let Some(keys) = cli.exclude_keys {
        lists_are_the_keys_of_their_items(keys);
    }
}

/// What contracts say of options, they say of each option as it is.
pub proof fn options_are_seen_as_they_are(cli: Cli, options: Options, result: CliResult)
    ensures
        cli@.mode == cli.mode && options@.mode == options.mode,
        cli@.window == time::nanos_of(cli.window),
        options@.window == time::nanos_of(options.window),
        cli@.device_rescan_interval == time::nanos_of(cli.device_rescan_interval),
        options@.device_rescan_interval == time::nanos_of(options.device_rescan_interval),
        cli@.wait_for_device == cli.wait_for_device,
        options@.wait_for_device == options.wait_for_device,
        cli@.device == cli.device@,
        options@.device is Some <==> options.device is Some,
        options.device is Some ==> options@.device->0 == options.device->0@,
        cli@.keys == cli::list_view(cli.keys) && options@.keys == cli::list_view(options.keys),
        cli@.exclude_keys == cli::list_view(cli.exclude_keys),
        options@.exclude_keys == cli::list_view(options.exclude_keys),
        cli@.virtual_name == cli::text_view(cli.virtual_name),
        options@.virtual_name == cli::text_view(options.virtual_name),
        result matches CliResult::Cli(cli) ==> result@ == CliResultView::Cli(cli@),
        result matches CliResult::StablePath(path) ==> result@ == CliResultView::StablePath(path@),
        result is Usage <==> result@ is Usage,
        result is List <==> result@ is List,
        result is Help <==> result@ is Help,
        result is Version <==> result@ is Version,
{
}

/// A list is seen text by text, and a text character by character.
pub proof fn lists_are_seen_as_they_are(list: Option<Vec<String>>, text: Option<String>)
    ensures
        cli::list_view(list) is Some <==> list is Some,
        list matches Some(list) ==> {
            &&& cli::list_view(Some(list))->0.len() == list@.len()
            &&& forall|i: int|
                0 <= i < list@.len() ==> #[trigger] cli::list_view(Some(list))->0[i] == list@[i]@
        },
        cli::text_view(text) is Some <==> text is Some,
        text is Some ==> cli::text_view(text)->0 == text->0@,
{
}

/// A filter covers every key, just those that it lists, or just those that it does not.
pub proof fn filters_cover_what_they_say(filter: KeyFilter, k: KeyCode)
    ensures
        match filter@ {
            KeyFilterView::All => filter.covers(k),
            KeyFilterView::Only(set) => filter.covers(k) <==> set.contains(k),
            KeyFilterView::AllExcept(set) => filter.covers(k) <==> !set.contains(k),
        },
        filter is All <==> filter@ is All,
        filter is Only <==> filter@ is Only,
        filter is AllExcept <==> filter@ is AllExcept,
        filter matches KeyFilter::Only(set) ==> (filter.covers(k) <==> set@.contains(k)),
        filter matches KeyFilter::AllExcept(set) ==> (filter.covers(k) <==> !set@.contains(k)),
{
}

} // verus!
