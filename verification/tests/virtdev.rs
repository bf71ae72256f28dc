//! Planning and checking virtual devices.

use evdev::{EventType, KeyCode, LedCode, MiscCode, RepeatCode, SynchronizationCode};
use ripples::device::{AutoRepeat, DeviceInfo};
use ripples::event::InputEvent;
use ripples::events::{drain, read, write_all, Attempt, DrainStep, ReadStep, WriteStep};
use ripples::signal::{is_gone, is_readable, Polled, Signals};
use ripples::virtdev::{encode_name, open_uinput_error, Caps, Declaration, InputId, Sink};

fn caps() -> Caps {
    Caps {
        id: InputId {
            bus: 3,
            vendor: 0xcafe,
            product: 0x1225,
            version: 1,
        },
        keys: vec![KeyCode::KEY_A.0, KeyCode::KEY_B.0],
        leds: Some(vec![LedCode::LED_NUML.0, LedCode::LED_CAPSL.0]),
        misc: Some(vec![MiscCode::MSC_SCAN.0]),
        repeat: Some(AutoRepeat {
            delay: 100,
            period: u32::MAX,
        }),
    }
}

fn source() -> DeviceInfo {
    DeviceInfo {
        name: Some("kbd".to_owned()),
        uniq: None,
        vendor: 0xcafe,
        product: 0x1225,
        version: 1,
        bus: 3,
        events: vec![EventType::KEY.0],
        keys: Some(vec![KeyCode::KEY_A.0, KeyCode::KEY_B.0]),
        leds: Some(vec![LedCode::LED_CAPSL.0]),
        misc: None,
        repeat: Some(AutoRepeat {
            delay: 250,
            period: 33,
        }),
    }
}

#[test]
fn capabilities_are_declared_type_by_type() {
    let plan = Sink::with_caps(&caps(), "name");
    assert_eq!(
        plan.declare,
        [
            Declaration::Event(EventType::KEY.0),
            Declaration::Key(KeyCode::KEY_A.0),
            Declaration::Key(KeyCode::KEY_B.0),
            Declaration::Event(EventType::MISC.0),
            Declaration::Misc(MiscCode::MSC_SCAN.0),
            Declaration::Event(EventType::LED.0),
            Declaration::Led(LedCode::LED_NUML.0),
            Declaration::Led(LedCode::LED_CAPSL.0),
            Declaration::Event(EventType::REPEAT.0),
        ]
    );
    assert_eq!(plan.setup.unwrap().id, caps().id);
}

#[test]
fn repeat_settings_are_carried_over() {
    assert_eq!(
        Sink::with_caps(&caps(), "name").first.unwrap(),
        [
            InputEvent::new(EventType::REPEAT.0, RepeatCode::REP_DELAY.0, 100),
            InputEvent::new(EventType::REPEAT.0, RepeatCode::REP_PERIOD.0, i32::MAX),
            InputEvent::new(
                EventType::SYNCHRONIZATION.0,
                SynchronizationCode::SYN_REPORT.0,
                0
            ),
        ]
    );
    let bare = Caps {
        leds: None,
        misc: None,
        repeat: None,
        ..caps()
    };
    let plan = Sink::with_caps(&bare, "name");
    assert!(plan.first.is_none());
    assert_eq!(plan.declare.len(), 3);
    assert!(plan.sink.leds.is_empty() && !plan.sink.repeats);
}

#[test]
fn a_sink_stands_in_for_its_source() {
    let plan = Sink::create(&source(), "name").unwrap();
    assert!(plan.sink.covers(&source()));
    assert_eq!(plan.setup.unwrap().id.vendor, 0xcafe);
    let keyless = DeviceInfo {
        keys: None,
        ..source()
    };
    assert!(Sink::create(&keyless, "name").is_none());
    assert!(plan.sink.covers(&keyless));
}

#[test]
fn a_new_key_or_led_or_repeat_is_not_covered() {
    let sink = Sink::create(&source(), "name").unwrap().sink;
    let key = DeviceInfo {
        keys: Some(vec![KeyCode::KEY_A.0, KeyCode::KEY_C.0]),
        ..source()
    };
    assert!(!sink.covers(&key));
    let led = DeviceInfo {
        leds: Some(vec![LedCode::LED_MUTE.0]),
        ..source()
    };
    assert!(!sink.covers(&led));
    let still = DeviceInfo {
        repeat: None,
        ..source()
    };
    assert!(sink.covers(&still));
    assert!(!Sink::create(&still, "name").unwrap().sink.covers(&source()));
}

#[test]
fn a_batch_ends_in_a_report() {
    let event = InputEvent::new(EventType::KEY.0, 30, 1);
    let report = InputEvent::new(
        EventType::SYNCHRONIZATION.0,
        SynchronizationCode::SYN_REPORT.0,
        0,
    );
    assert_eq!(Sink::emit(&[event]), [event, report]);
    assert_eq!(Sink::emit(&[]), [report]);
}

#[test]
fn names_are_padded_with_zeros() {
    let encoded = encode_name("kbd").unwrap();
    assert_eq!(&encoded[..3], b"kbd");
    assert!(encoded[3..].iter().all(|&b| b == 0));
    assert!(encode_name("").is_none());
    assert!(Sink::with_caps(&caps(), "").setup.is_none());
}

#[test]
fn long_names_are_cut_between_characters() {
    let encoded = encode_name(&"x".repeat(100)).unwrap();
    assert_eq!(encoded.iter().filter(|&&b| b == b'x').count(), 78);
    // 77 bytes and then one character of two
    let name = format!("{}é", "x".repeat(77));
    let encoded = encode_name(&name).unwrap();
    assert_eq!(encoded.iter().filter(|&&b| b != 0).count(), 77);
    let name = format!("{}é", "x".repeat(76));
    let encoded = encode_name(&name).unwrap();
    assert_eq!(&encoded[..78], name.as_bytes());
}

#[test]
fn uinput_errors_hint_at_what_to_do() {
    assert_eq!(
        open_uinput_error(rustix::io::Errno::NOENT.raw_os_error()),
        "opening /dev/uinput (the uinput module may not be loaded: `modprobe uinput`)"
    );
    for errno in [rustix::io::Errno::ACCESS, rustix::io::Errno::PERM] {
        assert_eq!(
            open_uinput_error(errno.raw_os_error()),
            "opening /dev/uinput (needs root, or a udev rule giving the `input` group access to it)"
        );
    }
    assert_eq!(
        open_uinput_error(rustix::io::Errno::IO.raw_os_error()),
        "opening /dev/uinput"
    );
}

#[test]
fn reads_count_whole_events() {
    assert_eq!(read(Attempt::Done(72), 24), ReadStep::Events(3));
    assert_eq!(read(Attempt::Done(0), 24), ReadStep::Events(0));
    assert_eq!(read(Attempt::Again, 24), ReadStep::Events(0));
    assert_eq!(read(Attempt::Interrupted, 24), ReadStep::Retry);
    assert_eq!(read(Attempt::Failed, 24), ReadStep::Fail);
}

#[test]
fn draining_goes_on_until_nothing_is_left() {
    assert_eq!(drain(Attempt::Done(48), 24), DrainStep::More(2));
    assert_eq!(drain(Attempt::Done(23), 24), DrainStep::More(0));
    assert_eq!(drain(Attempt::Done(0), 24), DrainStep::Drained);
    assert_eq!(drain(Attempt::Again, 24), DrainStep::Drained);
    assert_eq!(drain(Attempt::Interrupted, 24), DrainStep::Retry);
    assert_eq!(drain(Attempt::Failed, 24), DrainStep::Fail);
}

#[test]
fn writes_go_on_until_nothing_is_left() {
    assert_eq!(write_all(48, Attempt::Done(24)), WriteStep::Left(24));
    assert_eq!(write_all(24, Attempt::Done(24)), WriteStep::Left(0));
    assert_eq!(write_all(24, Attempt::Interrupted), WriteStep::Left(24));
    assert_eq!(write_all(24, Attempt::Done(0)), WriteStep::WriteZero);
    assert_eq!(write_all(24, Attempt::Again), WriteStep::Fail);
    assert_eq!(write_all(24, Attempt::Failed), WriteStep::Fail);
}

#[test]
fn anything_on_the_signal_pipe_is_a_signal() {
    use_flags(rustix::event::PollFlags::IN, true, true, false);
    use_flags(rustix::event::PollFlags::HUP, true, false, true);
    use_flags(rustix::event::PollFlags::ERR, true, false, true);
    use_flags(rustix::event::PollFlags::NVAL, true, false, true);
    use_flags(rustix::event::PollFlags::OUT, false, false, false);
    use_flags(rustix::event::PollFlags::empty(), false, false, false);
}

fn use_flags(flags: rustix::event::PollFlags, signaled: bool, readable: bool, gone: bool) {
    assert_eq!(Signals::is_signaled(flags.bits()), signaled);
    assert_eq!(Signals::wait(Polled::Ready(flags.bits())), Some(signaled));
    assert_eq!(is_readable(flags.bits()), readable);
    assert_eq!(is_gone(flags.bits()), gone);
}

#[test]
fn an_interrupted_wait_is_no_signal() {
    assert_eq!(Signals::wait(Polled::Interrupted), Some(false));
    assert_eq!(Signals::wait(Polled::Failed), None);
}
