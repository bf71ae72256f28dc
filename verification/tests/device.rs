//! Identifying, ranking and listing devices.

use ripples::device::{
    describe_path, find, find_matching, has_keys, is_disconnect, is_stamped, list, now,
    stable_path, stamp, stamp_since, timespec, AutoRepeat, DeviceInfo, DeviceListingRank, Fingerprint, Link, Listed, OpenFailure,
    Timespec,
};
use ripples::event::InputEvent;
use std::time::Duration;

fn device(name: Option<&str>, keys: Option<&[u16]>) -> DeviceInfo {
    DeviceInfo {
        name: name.map(str::to_owned),
        uniq: None,
        vendor: 0x0627,
        product: 0x0001,
        version: 1,
        bus: evdev::BusType::BUS_USB.0,
        events: vec![
            evdev::EventType::SYNCHRONIZATION.0,
            evdev::EventType::KEY.0,
        ],
        keys: keys.map(<[u16]>::to_vec),
        leds: None,
        misc: None,
        repeat: Some(AutoRepeat {
            delay: 250,
            period: 33,
        }),
    }
}

fn rank(name: Option<&str>, keys: Option<&[u16]>) -> DeviceListingRank {
    DeviceListingRank::rank(&device(name, keys))
}

const KEY_A: u16 = evdev::KeyCode::KEY_A.0;
const KEY_ENTER: u16 = evdev::KeyCode::KEY_ENTER.0;
const BTN_LEFT: u16 = evdev::KeyCode::BTN_LEFT.0;

#[test]
fn a_fingerprint_matches_its_device_and_no_other() {
    let dev = device(Some("kbd"), Some(&[KEY_A]));
    let fingerprint = Fingerprint::of(&dev);
    assert!(fingerprint.matches(&dev));
    assert!(!fingerprint.matches(&device(None, Some(&[KEY_A]))));
    assert!(!fingerprint.matches(&device(Some("kbd2"), Some(&[KEY_A]))));
    assert!(fingerprint.matches(&device(Some("kbd"), None)));
    for change in 0..5 {
        let mut other = device(Some("kbd"), Some(&[KEY_A]));
        match change {
            0 => other.uniq = Some("serial".to_owned()),
            1 => other.vendor += 1,
            2 => other.product += 1,
            3 => other.version += 1,
            _ => other.bus += 1,
        }
        assert!(!fingerprint.matches(&other));
    }
}

#[test]
fn a_fingerprint_is_told_by_name_and_ids() {
    let named = Fingerprint::of(&device(Some("kbd"), None));
    assert_eq!(named.display_name(), "kbd");
    assert_eq!(named.text(), "kbd [0627:0001]");
    let mut info = device(None, None);
    info.vendor = 0xcafe;
    info.product = 0xf;
    let unnamed = Fingerprint::of(&info);
    assert_eq!(unnamed.display_name(), "<unnamed device>");
    assert_eq!(unnamed.text(), "<unnamed device> [cafe:000f]");
}

#[test]
fn ranks_follow_keys_first_and_names_second() {
    assert_eq!(
        rank(Some("mouse"), Some(&[BTN_LEFT, KEY_A])),
        DeviceListingRank::Keyboard
    );
    assert_eq!(rank(None, Some(&[KEY_ENTER])), DeviceListingRank::Keyboard);
    assert_eq!(
        rank(Some("thing"), Some(&[BTN_LEFT])),
        DeviceListingRank::MaybeKeyboard
    );
    assert_eq!(
        rank(Some("thing"), Some(&[])),
        DeviceListingRank::NotKeyboard
    );
    assert_eq!(rank(Some("thing"), None), DeviceListingRank::NotKeyboard);
    assert_eq!(rank(None, Some(&[BTN_LEFT])), DeviceListingRank::NotKeyboard);
    for name in [
        "A TouchPad",
        "trackpad",
        "QEMU QEMU USB Tablet",
        "QEMU QEMU USB Mouse",
        "Speaker",
        "HeadPhone jack",
        "some headset",
        "Power Button",
        "Video Bus",
    ] {
        assert_eq!(
            rank(Some(name), Some(&[BTN_LEFT])),
            DeviceListingRank::ProbablyNotKeyboard
        );
    }
    let mut silent = device(Some("kbd"), Some(&[KEY_A]));
    silent.events = vec![evdev::EventType::RELATIVE.0];
    assert_eq!(
        DeviceListingRank::rank(&silent),
        DeviceListingRank::NotKeyboard
    );
}

#[test]
fn ranks_are_described() {
    assert_eq!(DeviceListingRank::Keyboard.describe(), "keyboard");
    assert_eq!(
        DeviceListingRank::MaybeKeyboard.describe(),
        "looks like a keyboard?"
    );
    assert_eq!(
        DeviceListingRank::ProbablyNotKeyboard.describe(),
        "probably not a keyboard"
    );
    assert_eq!(DeviceListingRank::NotKeyboard.describe(), "not a keyboard");
}

#[test]
fn only_devices_with_keys_have_keys() {
    assert!(has_keys(&device(None, Some(&[BTN_LEFT]))));
    assert!(!has_keys(&device(None, Some(&[]))));
    assert!(!has_keys(&device(None, None)));
    let mut silent = device(None, Some(&[KEY_A]));
    silent.events = Vec::new();
    assert!(!has_keys(&silent));
}

#[test]
fn a_device_that_is_not_there_is_no_error() {
    assert_eq!(find("/dev/x", OpenFailure::NotFound), None);
    assert_eq!(
        find("/dev/x", OpenFailure::PermissionDenied).as_deref(),
        Some("opening /dev/x (which needs root or the user being in the `input` group)")
    );
    assert_eq!(
        find("/dev/x", OpenFailure::Other).as_deref(),
        Some("opening /dev/x")
    );
}

#[test]
fn the_first_match_that_is_not_excluded_is_found() {
    let fingerprint = Fingerprint::of(&device(Some("kbd"), None));
    let devices = [
        device(Some("other"), None),
        device(Some("kbd"), Some(&[KEY_A])),
        device(Some("kbd"), None),
    ];
    assert_eq!(find_matching(&fingerprint, "virtual", &devices), Some(1));
    assert_eq!(find_matching(&fingerprint, "kbd", &devices), None);
    assert_eq!(find_matching(&fingerprint, "virtual", &devices[..1]), None);
}

#[test]
fn the_listing_puts_keyboards_first() {
    let row = |path: &str, name: &str, keys: &[u16]| Listed {
        path: path.to_owned(),
        dev: device(Some(name), Some(keys)),
    };
    let mut power = row("/dev/input/event0", "Power Button", &[116]);
    power.dev.vendor = 0;
    power.dev.bus = evdev::BusType::BUS_HOST.0;
    let devices = [
        row("/dev/input/event2", "QEMU QEMU USB Mouse", &[BTN_LEFT]),
        row("/dev/input/event1", "QEMU QEMU USB Tablet", &[BTN_LEFT]),
        power,
        row("/dev/input/event3", "QEMU QEMU USB Keyboard", &[KEY_A]),
    ];
    assert_eq!(
        list(&devices).unwrap(),
        "\
/dev/input/event3 | 0627:0001 | USB  | QEMU QEMU USB Keyboard | keyboard
/dev/input/event2 | 0627:0001 | USB  | QEMU QEMU USB Mouse    | probably not a keyboard
/dev/input/event1 | 0627:0001 | USB  | QEMU QEMU USB Tablet   | probably not a keyboard
/dev/input/event0 | 0000:0001 | Host | Power Button           | probably not a keyboard
"
    );
}

#[test]
fn the_listing_goes_through_all_ranks_and_names_the_unnamed() {
    let devices = [
        Listed {
            path: "d".to_owned(),
            dev: device(None, None),
        },
        Listed {
            path: "c".to_owned(),
            dev: device(Some("mouse"), Some(&[BTN_LEFT])),
        },
        Listed {
            path: "b".to_owned(),
            dev: device(Some("thing"), Some(&[BTN_LEFT])),
        },
        Listed {
            path: "a".to_owned(),
            dev: device(None, Some(&[KEY_A])),
        },
    ];
    let text = list(&devices).unwrap();
    let lines: Vec<&str> = text.lines().collect();
    assert_eq!(lines.len(), 4);
    assert!(lines[0].starts_with("a | ") && lines[0].ends_with("<unnamed device> | keyboard"));
    assert!(lines[1].starts_with("b | ") && lines[1].ends_with("looks like a keyboard?"));
    assert!(lines[2].starts_with("c | ") && lines[2].ends_with("probably not a keyboard"));
    assert!(lines[3].starts_with("d | ") && lines[3].ends_with("| not a keyboard"));
    assert_eq!(
        list(&[]),
        Err("no input devices could be opened; are you in the `input` group?")
    );
}

#[test]
fn stable_paths_go_by_id_before_place() {
    let link = |path: &str, target: &str| Link {
        path: path.as_bytes().to_vec(),
        target: target.as_bytes().to_vec(),
    };
    let by_id = [
        link("by-id/mouse", "event2"),
        link("by-id/kbd", "event3"),
        link("by-id/kbd2", "event3"),
    ];
    let by_path = [link("by-path/kbd", "event3"), link("by-path/power", "event0")];
    assert_eq!(
        stable_path(&by_id, &by_path, b"event3"),
        Some(&b"by-id/kbd"[..])
    );
    assert_eq!(
        stable_path(&by_id, &by_path, b"event0"),
        Some(&b"by-path/power"[..])
    );
    assert_eq!(stable_path(&by_id, &by_path, b"event33"), None);
}

#[test]
fn clocks_count_nanoseconds() {
    assert_eq!(now(0, 0), 0);
    assert_eq!(now(12, 345), 12_000_000_345);
}

#[test]
fn spans_are_whole_seconds_and_the_rest() {
    assert_eq!(
        timespec(Duration::from_millis(1_500)),
        Timespec {
            secs: 1,
            nanos: 500_000_000
        }
    );
    assert_eq!(
        timespec(Duration::MAX),
        Timespec {
            secs: i64::MAX,
            nanos: 0
        }
    );
    assert_eq!(
        timespec(Duration::new(i64::MAX as u64, 7)),
        Timespec {
            secs: i64::MAX,
            nanos: 7
        }
    );
}

#[test]
fn stamps_stay_within_what_can_be_told() {
    assert_eq!(stamp_since(Some(Duration::from_micros(3))), 3_000);
    assert_eq!(stamp_since(Some(Duration::MAX)), u64::MAX);
    assert_eq!(stamp_since(None), 0);
}

fn timed(secs: i64, micros: i64) -> InputEvent {
    InputEvent {
        secs,
        micros,
        ..InputEvent::new(1, KEY_A, 1)
    }
}

#[test]
fn an_event_is_stamped_with_its_seconds_and_microseconds() {
    assert_eq!(stamp(&timed(0, 0)), 0);
    assert_eq!(stamp(&timed(12, 345)), 12_000_345_000);
    assert_eq!(stamp(&timed(1, 999_999)), 1_999_999_000);
    // more than a second of microseconds carries over
    assert_eq!(stamp(&timed(1, 4_000_000)), 5_000_000_000);
    // only the low 32 bits of the microseconds are taken
    assert_eq!(stamp(&timed(7, 0x1_0000_0003)), 7_000_003_000);
    assert_eq!(stamp(&timed(18_446_744_073, 709_551)), 18_446_744_073_709_551_000);
    assert_eq!(stamp(&timed(18_446_744_073, 709_552)), u64::MAX);
    assert_eq!(stamp(&timed(i64::MAX, 999_999)), u64::MAX);
}

#[test]
fn some_timestamps_cannot_be_told() {
    assert!(is_stamped(&timed(0, 4_294_967)));
    assert!(!is_stamped(&timed(0, 4_294_968)));
    assert!(!is_stamped(&timed(0, -1)));
    assert!(!is_stamped(&timed(-1, 0)));
    assert!(is_stamped(&timed(i64::MAX, 999_999)));
    assert!(!is_stamped(&timed(i64::MAX, 1_000_000)));
}

#[test]
fn a_copied_fingerprint_is_the_same() {
    let fingerprint = Fingerprint::of(&device(Some("kbd"), Some(&[KEY_A])));
    assert_eq!(fingerprint.clone(), fingerprint);
}

#[test]
fn some_errors_mean_the_device_is_gone() {
    for errno in [
        rustix::io::Errno::NODEV,
        rustix::io::Errno::NOENT,
        rustix::io::Errno::IO,
        rustix::io::Errno::NXIO,
    ] {
        assert!(is_disconnect(Some(errno.raw_os_error())));
    }
    assert!(!is_disconnect(Some(
        rustix::io::Errno::AGAIN.raw_os_error()
    )));
    assert!(!is_disconnect(None));
}

#[test]
fn paths_are_told_by_their_file_name() {
    for path in [
        "/dev/input/event3",
        "event3",
        "/dev/input/event3/",
        "/dev//input/./event3/.",
        "/dev/input/..",
        "..",
        ".",
        "/",
        "",
        "a/../b",
    ] {
        let expected = std::path::Path::new(path).file_name().map_or_else(
            || path.to_owned(),
            |n| n.to_string_lossy().into_owned(),
        );
        assert_eq!(describe_path(path), expected, "{path}");
    }
    assert_eq!(describe_path("/dev/input/event3"), "event3");
}

#[test]
fn buses_are_listed_by_name() {
    for bus in 0..0x40 {
        let mut dev = device(Some("kbd"), Some(&[KEY_A]));
        dev.bus = bus;
        let row = Listed {
            path: "p".to_owned(),
            dev,
        };
        let name = evdev::BusType(bus).to_string();
        assert_eq!(
            list(&[row]).unwrap(),
            format!("p | 0627:0001 | {name} | kbd | keyboard\n")
        );
    }
}
