//! Parsing and rendering: widget labels, decimal controller numbers, raw
//! frames, and the text helpers under them.

use midi_relay::client::parse_message;
use midi_relay::devices::{Device, UIType};
use midi_relay::text::{parse_u8, split_str, str_equal, u8_to_dec};

#[test]
fn ui_type_labels_in_declaration_order() {
    let labels = UIType::to_vec();
    assert_eq!(labels, vec!["slide".to_string(), "check".to_string()]);
}

#[test]
fn ui_type_label_round_trip() {
    assert_eq!(UIType::from_str("slide"), Some(UIType::Slide));
    assert_eq!(UIType::from_str("check"), Some(UIType::Check));
    assert_eq!(UIType::from_str("dial"), None);
    assert_eq!(UIType::from_str(""), None);
    assert_eq!(UIType::from_str("Check"), None);
    assert_eq!(UIType::from_str(&UIType::Slide.label()), Some(UIType::Slide));
    assert_eq!(UIType::from_str(&UIType::Check.label()), Some(UIType::Check));
}

#[test]
fn device_from_good_strings() {
    let d = Device::from_string_args("64".to_string(), "slide".to_string(), "level".to_string())
        .expect("a well-formed triple must parse");
    assert_eq!(d.cc, 64);
    assert_eq!(d.ui_type, UIType::Slide);
    assert_eq!(d.description, "level");
}

#[test]
fn device_from_strings_with_leading_zeros() {
    let d = Device::from_string_args("007".to_string(), "check".to_string(), "m".to_string())
        .expect("leading zeros are allowed");
    assert_eq!(d.cc, 7);
}

#[test]
fn device_from_bad_strings_is_refused() {
    assert!(Device::from_string_args("abc".to_string(), "check".to_string(), "m".to_string())
        .is_none());
    assert!(Device::from_string_args("256".to_string(), "check".to_string(), "m".to_string())
        .is_none());
    assert!(Device::from_string_args("".to_string(), "check".to_string(), "m".to_string())
        .is_none());
    assert!(Device::from_string_args("-1".to_string(), "check".to_string(), "m".to_string())
        .is_none());
    assert!(Device::from_string_args("10".to_string(), "dial".to_string(), "m".to_string())
        .is_none());
}

#[test]
fn parse_message_needs_two_bytes() {
    assert_eq!(parse_message(vec![]), None);
    assert_eq!(parse_message(vec![64]), None);
    assert_eq!(parse_message(vec![64, 127]), Some((64, 127)));
    assert_eq!(parse_message(vec![64, 127, 9, 9]), Some((64, 127)));
}

#[test]
fn parse_u8_accepts_exactly_byte_values() {
    assert_eq!(parse_u8("0"), Some(0));
    assert_eq!(parse_u8("255"), Some(255));
    assert_eq!(parse_u8("0007"), Some(7));
    assert_eq!(parse_u8("256"), None);
    assert_eq!(parse_u8("9999"), None);
    assert_eq!(parse_u8(""), None);
    assert_eq!(parse_u8("12a"), None);
    assert_eq!(parse_u8("+1"), None);
    assert_eq!(parse_u8(" 1"), None);
}

#[test]
fn u8_to_dec_renders_without_leading_zeros() {
    assert_eq!(u8_to_dec(0), "0");
    assert_eq!(u8_to_dec(7), "7");
    assert_eq!(u8_to_dec(42), "42");
    assert_eq!(u8_to_dec(100), "100");
    assert_eq!(u8_to_dec(255), "255");
}

#[test]
fn decimal_round_trip() {
    for n in [0u8, 1, 9, 10, 99, 100, 128, 254, 255] {
        assert_eq!(parse_u8(&u8_to_dec(n)), Some(n));
    }
}

#[test]
fn split_str_fields() {
    assert_eq!(split_str("a,b,c", ','), vec!["a", "b", "c"]);
    assert_eq!(split_str("", ','), vec![""]);
    assert_eq!(split_str("a,,b", ','), vec!["a", "", "b"]);
    assert_eq!(split_str("a,b,", ','), vec!["a", "b", ""]);
    assert_eq!(split_str(",x", ','), vec!["", "x"]);
    assert_eq!(split_str("plain", ','), vec!["plain"]);
}

#[test]
fn str_equal_compares_contents() {
    assert!(str_equal("", ""));
    assert!(str_equal("abc", "abc"));
    assert!(!str_equal("abc", "abd"));
    assert!(!str_equal("abc", "abcd"));
    assert!(str_equal("caf\u{e9}", "caf\u{e9}"));
    assert!(!str_equal("caf\u{e9}", "cafe"));
}
