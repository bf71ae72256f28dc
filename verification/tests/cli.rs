//! Parsing the command line.

use ripples::args::{Arg, LexError};
use ripples::cli::{
    parse_from, parse_key, parse_keys, recognize, Cli, CliError, CliResult, KeyError, KeyFilter,
    Options, ParseError, Request, Setting,
};
use ripples::debounce::Mode;
use ripples::text::NumberError;
use std::collections::HashSet;
use std::time::Duration;

fn parsed(args: &[&str]) -> Result<CliResult, ParseError> {
    parse_from(&mut lexopt::Parser::from_args(args.iter()))
}

fn cli(args: &[&str]) -> Cli {
    match parsed(args) {
        Ok(CliResult::Cli(cli)) => cli,
        other => panic!("expected options, got {other:?}"),
    }
}

fn cli_error(args: &[&str]) -> String {
    match parsed(args) {
        Err(ParseError::Cli(e)) => e.text(),
        other => panic!("expected an error, got {other:?}"),
    }
}

#[test]
fn keys_parse() {
    assert_eq!(parse_key("0x1e").unwrap(), 30);
    assert_eq!(parse_key("30").unwrap(), 30);
    assert_eq!(parse_key("KEY_A").unwrap(), 30);
    assert_eq!(parse_key("key_a").unwrap(), 30);
    assert_eq!(parse_key("A").unwrap(), 30);
    assert_eq!(parse_key("a").unwrap(), 30);
    assert!(parse_key("bad").is_err());
    assert!(parse_key("").is_err());
}

#[test]
fn filter_filters_the_right_keys() {
    let only = KeyFilter::Only(HashSet::from([30]));
    assert!(only.should_debounce(30) && !only.should_debounce(31));
    let except = KeyFilter::AllExcept(HashSet::from([30]));
    assert!(!except.should_debounce(30) && except.should_debounce(31));
    assert!(KeyFilter::All.should_debounce(30));
}

#[test]
fn buttons_parse_without_their_prefix() {
    assert_eq!(parse_key("BTN_LEFT").unwrap(), 0x110);
    assert_eq!(parse_key("middle").unwrap(), 0x112);
    // the key of that name comes first
    assert_eq!(parse_key("left").unwrap(), 105);
}

#[test]
fn key_codes_parse_in_any_case_and_up_to_the_last() {
    assert_eq!(parse_key("0X1E").unwrap(), 30);
    assert_eq!(parse_key("0x1E").unwrap(), 30);
    assert_eq!(parse_key("0xffff").unwrap(), 65535);
    assert_eq!(parse_key("65535").unwrap(), 65535);
    assert_eq!(parse_key("0x+1e").unwrap(), 30);
    assert_eq!(parse_key("007").unwrap(), 7);
}

#[test]
fn bad_keys_say_what_is_wrong() {
    let text = |spec: &str| parse_key(spec).unwrap_err().text();
    assert_eq!(
        text("0x"),
        "bad key code \"0x\": cannot parse integer from empty string"
    );
    assert_eq!(
        text("0xzz"),
        "bad key code \"0xzz\": invalid digit found in string"
    );
    assert_eq!(
        text("65536"),
        "bad key code \"65536\": number too large to fit in target type"
    );
    assert_eq!(text("no\"such"), "unknown key \"no\\\"such\"");
    assert!(matches!(
        parse_key("0x10000"),
        Err(KeyError::BadCode(_, NumberError::TooLarge))
    ));
    assert!(matches!(parse_key("-1"), Err(KeyError::Unknown(_))));
}

#[test]
fn lists_of_keys_parse_up_to_the_first_that_is_none() {
    let keys = |specs: &[&str]| {
        parse_keys(&specs.iter().map(|s| (*s).to_owned()).collect::<Vec<String>>())
    };
    assert_eq!(keys(&["a", " 0x30 ", "30"]).unwrap(), HashSet::from([30, 48]));
    assert_eq!(keys(&[]).unwrap(), HashSet::new());
    assert_eq!(
        keys(&["a", "nosuch", "neither"]).unwrap_err().text(),
        "unknown key \"nosuch\""
    );
}

#[test]
fn no_arguments_ask_for_the_usage() {
    assert!(matches!(parsed(&[]), Ok(CliResult::Usage)));
    assert!(matches!(parsed(&["-w", "5"]), Ok(CliResult::Usage)));
}

#[test]
fn a_device_alone_gets_the_defaults() {
    let cli = cli(&["/dev/input/event3"]);
    assert_eq!(cli.mode, Mode::Mixed);
    assert_eq!(cli.window, Duration::from_millis(20));
    assert_eq!(cli.keys, None);
    assert_eq!(cli.exclude_keys, None);
    assert_eq!(cli.virtual_name, None);
    assert_eq!(cli.device_rescan_interval, Duration::from_millis(500));
    assert!(!cli.wait_for_device);
    assert_eq!(cli.device, b"/dev/input/event3");
    assert_eq!(cli.key_filter().unwrap(), KeyFilter::All);
}

#[test]
fn all_options_are_taken() {
    let cli = cli(&[
        "-meager",
        "--window=35",
        "--virtual-name",
        "debounced keyboard",
        "--device-rescan-interval",
        "+100",
        "--wait-for-device",
        "--keys",
        " a , KEY_B,0x2e ",
        "dev",
    ]);
    assert_eq!(cli.mode, Mode::Eager);
    assert_eq!(cli.window, Duration::from_millis(35));
    assert_eq!(cli.virtual_name.as_deref(), Some("debounced keyboard"));
    assert_eq!(cli.device_rescan_interval, Duration::from_millis(100));
    assert!(cli.wait_for_device);
    assert_eq!(
        cli.keys,
        Some(vec!["a".to_owned(), "KEY_B".to_owned(), "0x2e".to_owned()])
    );
    assert_eq!(
        cli.key_filter().unwrap(),
        KeyFilter::Only(HashSet::from([30, 48, 46]))
    );
}

#[test]
fn short_options_take_values_in_every_form() {
    for args in [
        ["-m=defer", "-w", "7", "dev"],
        ["-mdefer", "-w=7", "dev", "--wait-for-device"],
        ["--mode", "defer", "--window=7", "dev"],
        ["dev", "--mode=defer", "-w", "7"],
    ] {
        let cli = cli(&args);
        assert_eq!(cli.mode, Mode::Defer);
        assert_eq!(cli.window, Duration::from_millis(7));
    }
}

#[test]
fn excluded_keys_are_all_that_is_not_debounced() {
    let filter = cli(&["--exclude-keys", "W,A,S,D", "dev"])
        .key_filter()
        .unwrap();
    assert_eq!(
        filter,
        KeyFilter::AllExcept(HashSet::from([17, 30, 31, 32]))
    );
    assert!(!filter.should_debounce(17));
    assert!(filter.should_debounce(18));
}

#[test]
fn bad_keys_are_told_with_their_option() {
    assert_eq!(
        cli(&["--keys", "a,,b", "dev"])
            .key_filter()
            .unwrap_err()
            .text(),
        "--keys: unknown key \"\""
    );
    assert_eq!(
        cli(&["--exclude-keys", "99999", "dev"])
            .key_filter()
            .unwrap_err()
            .text(),
        "--exclude-keys: bad key code \"99999\": number too large to fit in target type"
    );
}

#[test]
fn both_lists_of_keys_conflict_whichever_comes_first() {
    let text = "at most one of --keys and --exclude-keys may be specified";
    assert_eq!(cli_error(&["--keys", "a", "--exclude-keys", "b"]), text);
    assert_eq!(cli_error(&["--exclude-keys", "a", "--keys"]), text);
    // the same list twice does not
    assert_eq!(
        cli(&["--keys", "a", "--keys", "b", "dev"]).keys,
        Some(vec!["b".to_owned()])
    );
}

#[test]
fn values_that_are_not_taken_are_told() {
    assert_eq!(
        cli_error(&["-m", "fast"]),
        "invalid value 'fast' for option -m/--mode"
    );
    assert_eq!(
        cli_error(&["--window", "1.5"]),
        "invalid value '1.5' for option -w/--window"
    );
    assert_eq!(
        cli_error(&["--window="]),
        "invalid value '' for option -w/--window"
    );
    assert_eq!(
        cli_error(&["--device-rescan-interval", "18446744073709551616"]),
        "invalid value '18446744073709551616' for option --device-rescan-interval"
    );
    assert_eq!(
        cli(&["-w", "18446744073709551615", "dev"]).window,
        Duration::from_millis(u64::MAX)
    );
}

#[test]
fn a_second_device_is_one_too_many() {
    assert_eq!(
        cli_error(&["one", "two"]),
        "exactly one device must be specified"
    );
    assert_eq!(
        cli_error(&["one", "--", "-l"]),
        "exactly one device must be specified"
    );
}

#[test]
fn the_first_request_for_something_else_wins() {
    assert!(matches!(parsed(&["dev", "-l", "--bad"]), Ok(CliResult::List)));
    assert!(matches!(parsed(&["--help", "-V"]), Ok(CliResult::Help)));
    assert!(matches!(parsed(&["-wlong"]), Err(ParseError::Cli(_))));
    assert!(matches!(parsed(&["-Vh"]), Ok(CliResult::Version)));
    assert!(matches!(parsed(&["--list"]), Ok(CliResult::List)));
    assert!(matches!(parsed(&["--version"]), Ok(CliResult::Version)));
    match parsed(&["-p", "/dev/input/event3"]) {
        Ok(CliResult::StablePath(path)) => assert_eq!(path, b"/dev/input/event3"),
        other => panic!("got {other:?}"),
    }
    match parsed(&["--stable-path=x"]) {
        Ok(CliResult::StablePath(path)) => assert_eq!(path, b"x"),
        other => panic!("got {other:?}"),
    }
}

#[test]
fn what_is_wrong_with_the_line_itself_is_told() {
    assert!(matches!(
        parsed(&["-x"]),
        Err(ParseError::Lex(LexError::UnexpectedOption(o))) if o == "-x"
    ));
    assert!(matches!(
        parsed(&["--fast"]),
        Err(ParseError::Lex(LexError::UnexpectedOption(o))) if o == "--fast"
    ));
    assert!(matches!(
        parsed(&["dev", "-m"]),
        Err(ParseError::Lex(LexError::MissingValue(Some(o)))) if o == "-m"
    ));
    assert!(matches!(
        parsed(&["--stable-path"]),
        Err(ParseError::Lex(LexError::MissingValue(Some(o)))) if o == "--stable-path"
    ));
    assert!(matches!(
        parsed(&["--wait-for-device=yes", "dev"]),
        Err(ParseError::Lex(LexError::UnexpectedValue(o, v))) if o == "--wait-for-device" && v == b"yes"
    ));
}

#[test]
fn a_dash_alone_is_a_device_and_so_is_what_follows_two() {
    assert_eq!(cli(&["-"]).device, b"-");
    assert_eq!(cli(&["--", "-l"]).device, b"-l");
    // a value is taken even if it looks like an option
    assert_eq!(
        cli(&["--virtual-name", "-l", "dev"]).virtual_name.as_deref(),
        Some("-l")
    );
}

#[test]
fn every_option_is_recognized() {
    let long = |name: &str| recognize(&Arg::Long(name.to_owned()));
    assert_eq!(long("mode"), Request::Change(Setting::Mode));
    assert_eq!(long("window"), Request::Change(Setting::Window));
    assert_eq!(long("keys"), Request::Change(Setting::Keys));
    assert_eq!(long("exclude-keys"), Request::Change(Setting::ExcludeKeys));
    assert_eq!(long("virtual-name"), Request::Change(Setting::VirtualName));
    assert_eq!(
        long("device-rescan-interval"),
        Request::Change(Setting::DeviceRescanInterval)
    );
    assert_eq!(long("wait-for-device"), Request::WaitForDevice);
    assert_eq!(long("modes"), Request::Unknown);
    assert_eq!(recognize(&Arg::Short('m')), Request::Change(Setting::Mode));
    assert_eq!(recognize(&Arg::Short('w')), Request::Change(Setting::Window));
    assert_eq!(recognize(&Arg::Short('l')), Request::List);
    assert_eq!(recognize(&Arg::Short('p')), Request::StablePath);
    assert_eq!(recognize(&Arg::Short('h')), Request::Help);
    assert_eq!(recognize(&Arg::Short('V')), Request::Version);
    assert_eq!(recognize(&Arg::Short('v')), Request::Unknown);
    assert_eq!(recognize(&Arg::Value(Vec::new())), Request::Device);
}

#[test]
fn a_setting_that_is_refused_changes_nothing() {
    let mut options = Options::new();
    options.set(Setting::Mode, "eager".to_owned()).unwrap();
    assert!(matches!(
        options.set(Setting::Mode, "Eager".to_owned()),
        Err(CliError::InvalidMode(v)) if v == "Eager"
    ));
    assert_eq!(options.mode, Mode::Eager);
    assert!(matches!(options.finish(), CliResult::Usage));
}

#[test]
fn copies_are_the_same() {
    let options = cli(&["--keys", "a,b", "--virtual-name", "x", "-w", "7", "dev"]);
    let copy = options.clone();
    assert_eq!(format!("{copy:?}"), format!("{options:?}"));
    match CliResult::StablePath(b"path".to_vec()).clone() {
        CliResult::StablePath(path) => assert_eq!(path, b"path"),
        other => panic!("got {other:?}"),
    }
    assert!(matches!(CliResult::Help.clone(), CliResult::Help));
    for filter in [
        KeyFilter::All,
        KeyFilter::Only(HashSet::from([30, 48])),
        KeyFilter::AllExcept(HashSet::from([17])),
    ] {
        assert_eq!(filter.clone(), filter);
    }
}
