use bitmath::{Bits, BitsError};

#[test]
fn bits_string_plain_and_pretty() {
    let b = Bits::<8>::from_unsigned(0xB2);
    assert_eq!(b.bits_string(false), "10110010");
    assert_eq!(b.bits_string(true), "1011 0010");
}

#[test]
fn bits_string_pretty_leading_group_keeps_leftover() {
    let b = Bits::<6>::from_unsigned(0b10_1100);
    assert_eq!(b.bits_string(true), "10 1100");
    let c = Bits::<4>::from_unsigned(0b1100);
    assert_eq!(c.bits_string(true), "1100");
}

#[test]
fn try_from_parses_exact_width() {
    let b = Bits::<8>::try_from("10101011").unwrap();
    assert_eq!(b.unsigned_value(), 0xAB);
}

#[test]
fn try_from_ignores_spaces() {
    let b = Bits::<8>::try_from("1010 1011").unwrap();
    assert_eq!(b.unsigned_value(), 0xAB);
}

#[test]
fn try_from_zero_fills_short_literals() {
    let b = Bits::<8>::try_from("101").unwrap();
    assert_eq!(b.bits_string(false), "10100000");
}

#[test]
fn try_from_rejects_bad_characters() {
    assert!(matches!(Bits::<8>::try_from("10121011"), Err(BitsError::InvalidInputString)));
}

#[test]
fn try_from_rejects_long_literals() {
    assert!(matches!(Bits::<4>::try_from("10110"), Err(BitsError::InvalidInputString)));
}

#[test]
fn binary_string_round_trip() {
    let b = Bits::<12>::from_unsigned(0xABC);
    let back = Bits::<12>::try_from(&b.bits_string(false) as &str).unwrap();
    assert_eq!(back.bits_string(false), b.bits_string(false));
}

#[test]
fn pretty_uhex_one_pair() {
    let b = Bits::<8>::from_unsigned(0xAB);
    assert_eq!(b.pretty_uhex_string(), "ab");
}

#[test]
fn pretty_uhex_odd_digit_count_groups_without_leading_space() {
    let b = Bits::<12>::from_unsigned(0xABC);
    assert_eq!(b.pretty_uhex_string(), "a bc");
}

#[test]
fn pretty_uhex_pads_with_zeros() {
    let b = Bits::<16>::from_unsigned(0xAB);
    assert_eq!(b.pretty_uhex_string(), "00 ab");
    let c = Bits::<4>::from_unsigned(0xB);
    assert_eq!(c.pretty_uhex_string(), "b");
}

#[test]
fn display_string_negative_value() {
    let b = Bits::<8>::from_unsigned(171);
    assert_eq!(b.display_string(), "Bits<8>{ 1010 1011 | dec 171/-85 | hex 0xab/-0x55 }");
}

#[test]
fn display_string_positive_value() {
    let b = Bits::<8>::from_unsigned(5);
    assert_eq!(b.display_string(), "Bits<8>{ 0000 0101 | dec 5/5 | hex 0x5/0x5 }");
}
