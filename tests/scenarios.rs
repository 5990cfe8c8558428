use fixed_uint::{FixedUint, FromStrError};

fn value_of(width: usize, x: u128) -> FixedUint {
    let bytes = x.to_le_bytes();
    let n = if width < 16 { width } else { 16 };
    FixedUint::from_little_endian(width, &bytes[..n]).unwrap()
}

#[test]
fn hex_ff_in_a_32_bit_type_is_255() {
    let v = FixedUint::from_hex_str(4, "ff").unwrap();
    assert_eq!(v.to_le_bytes(), vec![255, 0, 0, 0]);
    assert_eq!(v, value_of(4, 255));
}

#[test]
fn hex_double_zero_is_a_leading_zero() {
    assert_eq!(
        FixedUint::from_hex_str(4, "00"),
        Err(FromStrError::InvalidCharacter { chr: b'0', idx: 0 })
    );
}

#[test]
fn hex_empty_has_invalid_length() {
    assert_eq!(FixedUint::from_hex_str(4, ""), Err(FromStrError::InvalidLength(0)));
}

#[test]
fn max_plus_one_wraps_to_zero_with_flag() {
    let max = FixedUint::max_of(32);
    let one = FixedUint::from_u8_of(32, 1);
    let (r, of) = max.overflowing_add(&one);
    assert_eq!(r, FixedUint::zero_of(32));
    assert!(of);
}

#[test]
fn zero_minus_one_wraps_to_max_with_flag() {
    let zero = FixedUint::zero_of(32);
    let one = FixedUint::from_u8_of(32, 1);
    let (r, of) = zero.overflowing_sub(&one);
    assert_eq!(r, FixedUint::max_of(32));
    assert!(of);
}

#[test]
fn two_to_255_fits_in_256_bits() {
    let two = FixedUint::from_u8_of(32, 2);
    let (r, of) = two.overflowing_pow(255);
    assert!(!of);
    let mut expected = vec![0u8; 32];
    expected[31] = 0x80;
    assert_eq!(r.to_le_bytes(), expected);
}

#[test]
fn two_to_256_overflows_256_bits() {
    let two = FixedUint::from_u8_of(32, 2);
    let (r, of) = two.overflowing_pow(256);
    assert!(of);
    assert_eq!(r, FixedUint::zero_of(32));
    assert_eq!(two.checked_pow(256), None);
}
