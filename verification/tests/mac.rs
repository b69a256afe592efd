use wolwaker::mac::{MacAddress, ParseError};

#[test]
fn parse_valid_colon() {
    let mac = MacAddress::parse("00:11:22:33:44:55", ':').unwrap();
    assert_eq!(mac.octets(), [0x00, 0x11, 0x22, 0x33, 0x44, 0x55]);
}

#[test]
fn parse_case_insensitive() {
    let upper = MacAddress::parse("AA:BB:CC:DD:EE:FF", ':').unwrap();
    let lower = MacAddress::parse("aa:bb:cc:dd:ee:ff", ':').unwrap();
    assert_eq!(upper.octets(), [0xaa, 0xbb, 0xcc, 0xdd, 0xee, 0xff]);
    assert_eq!(upper.octets(), lower.octets());
}

#[test]
fn parse_mixed_case() {
    let mac = MacAddress::parse("aB:Cd:eF:01:99:fA", ':').unwrap();
    assert_eq!(mac.octets(), [0xab, 0xcd, 0xef, 0x01, 0x99, 0xfa]);
}

#[test]
fn parse_dash_separator() {
    let dashed = MacAddress::parse("00-11-22-33-44-55", '-').unwrap();
    let colon = MacAddress::parse("00:11:22:33:44:55", ':').unwrap();
    assert_eq!(dashed.octets(), colon.octets());
}

#[test]
fn parse_wrong_group_count() {
    let r = MacAddress::parse("0011:2233:4455", ':');
    assert!(matches!(r, Err(ParseError::WrongGroupCount)));
}

#[test]
fn parse_too_many_groups() {
    let r = MacAddress::parse("00:11:22:33:44:55:66", ':');
    assert!(matches!(r, Err(ParseError::WrongGroupCount)));
}

#[test]
fn parse_empty_string() {
    let r = MacAddress::parse("", ':');
    assert!(matches!(r, Err(ParseError::WrongGroupCount)));
}

#[test]
fn parse_wrong_separator_is_one_group() {
    let r = MacAddress::parse("00-11-22-33-44-55", ':');
    assert!(matches!(r, Err(ParseError::WrongGroupCount)));
}

#[test]
fn parse_invalid_hex_digit() {
    let r = MacAddress::parse("0g:11:22:33:44:55", ':');
    assert!(matches!(r, Err(ParseError::InvalidHexDigit)));
}

#[test]
fn parse_group_too_short() {
    let r = MacAddress::parse("0:11:22:33:44:55", ':');
    assert!(matches!(r, Err(ParseError::InvalidHexDigit)));
}

#[test]
fn parse_group_too_long() {
    let r = MacAddress::parse("000:11:22:33:44:55", ':');
    assert!(matches!(r, Err(ParseError::InvalidHexDigit)));
}

#[test]
fn parse_empty_group() {
    let r = MacAddress::parse("00::22:33:44:55", ':');
    assert!(matches!(r, Err(ParseError::InvalidHexDigit)));
}

#[test]
fn parse_count_error_takes_precedence() {
    let r = MacAddress::parse("zz:11:22", ':');
    assert!(matches!(r, Err(ParseError::WrongGroupCount)));
}

#[test]
fn from_octets_round_trip() {
    let mac = MacAddress::from_octets([1, 2, 3, 4, 5, 255]);
    assert_eq!(mac.octets(), [1, 2, 3, 4, 5, 255]);
}
