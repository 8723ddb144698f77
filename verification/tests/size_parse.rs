use std::str::FromStr;

use slidy_tool::Size;

#[test]
fn parse_single_number_is_square() {
    let s = Size::from_str("4").unwrap();
    assert_eq!((s.0, s.1), (4, 4));
}

#[test]
fn parse_pair() {
    let s = Size::from_str("3x5").unwrap();
    assert_eq!((s.0, s.1), (3, 5));
}

#[test]
fn parse_pair_with_spaces() {
    let s = Size::from_str(" 3 x 5 ").unwrap();
    assert_eq!((s.0, s.1), (3, 5));
}

#[test]
fn parse_plus_sign() {
    let s = Size::from_str("+7").unwrap();
    assert_eq!((s.0, s.1), (7, 7));
}

#[test]
fn parse_zero_is_accepted_textually() {
    let s = Size::from_str("0").unwrap();
    assert_eq!((s.0, s.1), (0, 0));
}

#[test]
fn parse_max_u32() {
    let s = Size::from_str("4294967295").unwrap();
    assert_eq!((s.0, s.1), (u32::MAX, u32::MAX));
}

#[test]
fn parse_overflow_fails() {
    assert!(Size::from_str("4294967296").is_err());
}

#[test]
fn parse_garbage_fails() {
    assert!(Size::from_str("").is_err());
    assert!(Size::from_str("x").is_err());
    assert!(Size::from_str("3x").is_err());
    assert!(Size::from_str("x3").is_err());
    assert!(Size::from_str("ax3").is_err());
    assert!(Size::from_str("3x4x5").is_err());
    assert!(Size::from_str("-3").is_err());
    assert!(Size::from_str("3.5").is_err());
}

#[test]
fn parse_splits_at_first_x() {
    let s = Size::from_str("10x2").unwrap();
    assert_eq!((s.0, s.1), (10, 2));
}

#[test]
fn parse_trims_unicode_whitespace() {
    let s = Size::from_str("3\u{b}x\u{a0}5").unwrap();
    assert_eq!((s.0, s.1), (3, 5));
    let t = Size::from_str("\u{2003}7 x 2\u{3000}").unwrap();
    assert_eq!((t.0, t.1), (7, 2));
}

#[test]
fn display_writes_width_x_height() {
    assert_eq!(Size(3, 5).to_display_string(), "3x5");
    assert_eq!(Size(0, 10).to_display_string(), "0x10");
    assert_eq!(Size(4294967295, 1).to_display_string(), "4294967295x1");
}

#[test]
fn display_then_parse_round_trips() {
    for &(w, h) in &[(1u32, 1u32), (4, 4), (12, 7), (305, 1000), (u32::MAX, u32::MAX)] {
        let s = Size(w, h);
        let back = Size::from_str(&s.to_display_string()).unwrap();
        assert_eq!((back.0, back.1), (w, h));
    }
}
