use bitmath::{bit, Bits, BitsError};

#[test]
fn bit_maps_bool_to_digit() {
    assert_eq!(bit(true), 1);
    assert_eq!(bit(false), 0);
}

#[test]
fn new_is_all_zeros() {
    let b = Bits::<8>::new();
    assert_eq!(b.bits_string(false), "00000000");
    assert_eq!(b.unsigned_value(), 0);
    assert_eq!(b.size(), 8);
}

#[test]
fn default_is_all_zeros() {
    let b: Bits<5> = Default::default();
    assert_eq!(b.bits_string(false), "00000");
}

#[test]
fn from_unsigned_round_trip() {
    assert_eq!(Bits::<8>::from_unsigned(57).unsigned_value(), 57);
    assert_eq!(Bits::<8>::from_unsigned(255).unsigned_value(), 255);
    assert_eq!(Bits::<1>::from_unsigned(1).unsigned_value(), 1);
    assert_eq!(Bits::<32>::from_unsigned(0xDEAD_BEEF).unsigned_value(), 0xDEAD_BEEF);
    assert_eq!(Bits::<40>::from_unsigned(0xDEAD_BEEF).unsigned_value(), 0xDEAD_BEEF);
}

#[test]
fn from_unsigned_truncates_high_bits() {
    assert_eq!(Bits::<4>::from_unsigned(0xAB).unsigned_value(), 0xB);
    assert_eq!(Bits::<4>::from_unsigned(0xAB).bits_string(false), "1011");
}

#[test]
fn from_unsigned_zero_extends_when_wide() {
    let b = Bits::<40>::from_unsigned(0xFFFF_FFFF);
    assert_eq!(b.bits_string(false), format!("00000000{}", "1".repeat(32)));
}

#[test]
fn from_signed_round_trip() {
    assert_eq!(Bits::<8>::from_signed(-100).signed_value(), -100);
    assert_eq!(Bits::<8>::from_signed(127).signed_value(), 127);
    assert_eq!(Bits::<8>::from_signed(-128).signed_value(), -128);
    assert_eq!(Bits::<32>::from_signed(i32::MIN).signed_value(), i32::MIN);
    assert_eq!(Bits::<40>::from_signed(-5).signed_value(), -5);
}

#[test]
fn from_signed_sign_extends_when_wide() {
    let b = Bits::<40>::from_signed(-1);
    assert_eq!(b.bits_string(false), "1".repeat(40));
}

#[test]
fn from_signed_truncates_high_bits() {
    // -16 in two's complement ends in 0000; a 4-bit target keeps only those.
    assert_eq!(Bits::<4>::from_signed(-16).bits_string(false), "0000");
    assert_eq!(Bits::<4>::from_signed(5).bits_string(false), "0101");
}

#[test]
fn unsigned_value_reads_low_32_bits_only() {
    let mut text = String::from("1");
    text.push_str(&"0".repeat(39));
    let b = Bits::<40>::try_from(&text as &str).unwrap();
    assert_eq!(b.unsigned_value(), 0);
}

#[test]
fn from_slice_requires_exact_width() {
    let ok = Bits::<3>::from_slice(&[false, true, false]).unwrap();
    assert_eq!(ok.bits_string(false), "010");
    match Bits::<4>::from_slice(&[false, true, false]) {
        Err(BitsError::BitWidthMismatch { expected, found }) => {
            assert_eq!(expected, 4);
            assert_eq!(found, 3);
        },
        _ => panic!("expected a width mismatch"),
    }
}

#[test]
fn reverse_index_takes_low_nibble() {
    let backing = Bits::<8>::try_from("10110010").unwrap();
    let low = Bits::<4>::from_reverse_index(&backing.0, 3, 0).unwrap();
    assert_eq!(low.bits_string(false), "0010");
}

#[test]
fn reverse_index_takes_high_nibble() {
    let backing = Bits::<8>::try_from("10110010").unwrap();
    let high = Bits::<4>::from_reverse_index(&backing.0, 7, 4).unwrap();
    assert_eq!(high.bits_string(false), "1011");
}

#[test]
fn reverse_index_normalizes_order() {
    let backing = Bits::<8>::try_from("10110010").unwrap();
    let a = Bits::<4>::from_reverse_index(&backing.0, 0, 3).unwrap();
    let b = Bits::<4>::from_reverse_index(&backing.0, 3, 0).unwrap();
    assert_eq!(a.bits_string(false), b.bits_string(false));
}

#[test]
fn reverse_index_out_of_range() {
    let backing = [false; 8];
    assert!(matches!(
        Bits::<4>::from_reverse_index(&backing, 8, 5),
        Err(BitsError::BitIndexOutOfRange)
    ));
}

#[test]
fn reverse_index_width_mismatch() {
    let backing = [false; 8];
    match Bits::<4>::from_reverse_index(&backing, 5, 0) {
        Err(BitsError::BitWidthMismatch { expected, found }) => {
            assert_eq!(expected, 4);
            assert_eq!(found, 6);
        },
        _ => panic!("expected a width mismatch"),
    }
}

#[test]
fn get_bit_reads_msb_first() {
    let b = Bits::<8>::try_from("10110010").unwrap();
    assert_eq!(b.get_bit(0), Some(&true));
    assert_eq!(b.get_bit(1), Some(&false));
    assert_eq!(b.get_bit(7), Some(&false));
    assert_eq!(b.get_bit(8), None);
}

#[test]
fn get_bit_mut_writes_in_place() {
    let mut b = Bits::<8>::new();
    if let Some(slot) = b.get_bit_mut(0) {
        *slot = true;
    }
    assert_eq!(b.bits_string(false), "10000000");
    assert!(b.get_bit_mut(8).is_none());
}
