//! Taking text apart and putting it together.

use ripples::text::{
    chars_of, contains, parse_number, same, split, split_trimmed, to_decimal, to_hex4,
    to_lowercase, to_uppercase, trim, NumberError,
};

#[test]
fn trimming_takes_off_all_whitespace() {
    for text in [
        "",
        " ",
        "a",
        " \t\r\n a b \u{a0}\u{2003}\u{3000}",
        "\u{85}x\u{1680}",
        "\u{200b}x",
        "\u{b}\u{c}x\u{2028}\u{2029}\u{202f}\u{205f}",
    ] {
        assert_eq!(trim(text), text.trim());
    }
    for v in 0..0x3100_u32 {
        if let Some(c) = char::from_u32(v) {
            let text = c.to_string();
            assert_eq!(trim(&text).is_empty(), c.is_whitespace());
        }
    }
}

#[test]
fn splitting_keeps_empty_parts() {
    for text in ["", ",", "a", "a,b", ",a,,b,", "é,ü"] {
        let parts: Vec<&str> = text.split(',').collect();
        assert_eq!(split(text, ','), parts);
        let trimmed: Vec<&str> = text.split(',').map(str::trim).collect();
        assert_eq!(split_trimmed(text, ','), trimmed);
    }
}

#[test]
fn cases_change_within_ascii_only() {
    let text = "aZ09 éÉ_ß{}@[`";
    assert_eq!(to_uppercase(text), text.to_ascii_uppercase());
    assert_eq!(to_lowercase(text), text.to_ascii_lowercase());
}

#[test]
fn parts_are_found_wherever_they_are() {
    for (text, part) in [
        ("power button", "power"),
        ("a power button", "power button"),
        ("power", "power button"),
        ("", ""),
        ("x", ""),
        ("aab", "ab"),
        ("abab", "ba"),
        ("été", "té"),
        ("ete", "té"),
    ] {
        assert_eq!(contains(text, part), text.contains(part));
    }
}

#[test]
fn numbers_are_read_as_they_should_be() {
    for text in [
        "", "+", "-", "0", "+7", "++7", "-7", "00042", "65535", "65536", "6553x", "99999x", "1e", "x",
        "٣",
    ] {
        let expected = text.parse::<u16>();
        match (parse_number(text, 10, 65535), expected) {
            (Ok(value), Ok(number)) => assert_eq!(value, u64::from(number)),
            (Err(e), Err(error)) => assert_eq!(e.text(), error.to_string()),
            other => panic!("{text}: {other:?}"),
        }
        let expected = u16::from_str_radix(text, 16);
        match (parse_number(text, 16, 65535), expected) {
            (Ok(value), Ok(number)) => assert_eq!(value, u64::from(number)),
            (Err(e), Err(error)) => assert_eq!(e.text(), error.to_string()),
            other => panic!("{text}: {other:?}"),
        }
    }
    assert_eq!(
        parse_number("18446744073709551615", 10, u64::MAX),
        Ok(u64::MAX)
    );
    assert_eq!(
        parse_number("18446744073709551616", 10, u64::MAX),
        Err(NumberError::TooLarge)
    );
}

#[test]
fn numbers_are_written_as_they_should_be() {
    for value in [0, 7, 10, 4096, u128::from(u64::MAX), u128::MAX] {
        assert_eq!(to_decimal(value), value.to_string());
    }
    for value in [0, 1, 0x627, 0xcafe, 0xffff] {
        assert_eq!(to_hex4(value), format!("{value:04x}"));
    }
}

#[test]
fn texts_are_their_characters() {
    let text = "añ🎹";
    assert_eq!(chars_of(text), ['a', 'ñ', '🎹']);
    assert!(same(text, "añ🎹"));
    assert!(!same(text, "añ") && !same("a", "b") && same("", ""));
}
