use bitmath::Bits;

#[test]
fn unsigned_add_without_overflow() {
    let (sum, overflow) = Bits::<8>::from_unsigned(100).unsigned_add(Bits::from_unsigned(27));
    assert_eq!(sum.unsigned_value(), 127);
    assert!(!overflow);
}

#[test]
fn unsigned_add_all_ones_plus_one_wraps_to_zero() {
    let (sum, overflow) = Bits::<8>::from_unsigned(255).unsigned_add(Bits::from_unsigned(1));
    assert_eq!(sum.unsigned_value(), 0);
    assert_eq!(sum.bits_string(false), "00000000");
    assert!(overflow);
}

#[test]
fn unsigned_add_all_ones_plus_one_wraps_at_other_widths() {
    let (sum, overflow) = Bits::<12>::from_unsigned(0xFFF).unsigned_add(Bits::from_unsigned(1));
    assert_eq!(sum.unsigned_value(), 0);
    assert!(overflow);
    let (sum32, overflow32) =
        Bits::<32>::from_unsigned(u32::MAX).unsigned_add(Bits::from_unsigned(1));
    assert_eq!(sum32.unsigned_value(), 0);
    assert!(overflow32);
}

#[test]
fn signed_add_max_with_itself_overflows() {
    let a = Bits::<8>::from_signed(127);
    let (sum, overflow) = a.signed_add(a);
    assert!(overflow);
    assert_eq!(sum.signed_value(), -2);
    assert_eq!(sum.bits_string(false), Bits::<8>::from_signed(-2).bits_string(false));
}

#[test]
fn signed_add_min_minus_one_overflows() {
    let (sum, overflow) = Bits::<8>::from_signed(-128).signed_add(Bits::from_signed(-1));
    assert!(overflow);
    assert_eq!(sum.signed_value(), 127);
}

#[test]
fn signed_add_without_overflow() {
    let (sum, overflow) = Bits::<8>::from_signed(-100).signed_add(Bits::from_signed(37));
    assert!(!overflow);
    assert_eq!(sum.signed_value(), -63);
}

#[test]
fn rotate_right_moves_bits_toward_lsb() {
    let v = Bits::<8>::try_from("10010110").unwrap();
    assert_eq!(v.rotate_right(3).bits_string(false), "11010010");
}

#[test]
fn rotate_left_moves_bits_toward_msb() {
    let v = Bits::<8>::try_from("10010110").unwrap();
    assert_eq!(v.rotate_left(3).bits_string(false), "10110100");
}

#[test]
fn rotate_left_undoes_rotate_right() {
    let v = Bits::<8>::try_from("10010110").unwrap();
    for k in 0..20 {
        let back = v.rotate_right(k).rotate_left(k);
        assert_eq!(back.bits_string(false), v.bits_string(false));
    }
}

#[test]
fn rotate_by_width_or_zero_is_identity() {
    let v = Bits::<8>::try_from("10010110").unwrap();
    assert_eq!(v.rotate_right(8).bits_string(false), v.bits_string(false));
    assert_eq!(v.rotate_right(0).bits_string(false), v.bits_string(false));
}

#[test]
fn rotate_reduces_count_modulo_width() {
    let v = Bits::<8>::try_from("10010110").unwrap();
    assert_eq!(v.rotate_right(11).bits_string(false), v.rotate_right(3).bits_string(false));
}
