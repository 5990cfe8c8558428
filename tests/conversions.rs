use fixed_uint::{FixedUint, FromSliceError, FromStrError, IntoSliceError, Radix, UintConstructor};

fn value_of(width: usize, x: u128) -> FixedUint {
    let bytes = x.to_le_bytes();
    let n = if width < 16 { width } else { 16 };
    FixedUint::from_little_endian(width, &bytes[..n]).unwrap()
}

#[test]
fn byte_images_in_both_orders() {
    let v = value_of(4, 0x0102_0304);
    assert_eq!(v.to_le_bytes(), vec![4, 3, 2, 1]);
    assert_eq!(v.to_be_bytes(), vec![1, 2, 3, 4]);
    assert_eq!(FixedUint::from_be_bytes(&[1, 2, 3, 4]), v);
    assert_eq!(FixedUint::from_le_bytes(&[4, 3, 2, 1]), v);
    let ne = v.to_ne_bytes();
    assert_eq!(ne, 0x0102_0304u32.to_ne_bytes().to_vec());
    assert_eq!(FixedUint::from_ne_bytes(&ne), v);
}

#[test]
fn host_order_matches_std() {
    assert_eq!(fixed_uint::bytes::host_is_little_endian(), 1u16.to_ne_bytes()[0] == 1);
}

#[test]
fn short_slices_fill_the_low_bytes() {
    let le = FixedUint::from_little_endian(4, &[0x34, 0x12]).unwrap();
    assert_eq!(le, value_of(4, 0x1234));
    let be = FixedUint::from_big_endian(4, &[0x12, 0x34]).unwrap();
    assert_eq!(be, value_of(4, 0x1234));
    let empty = FixedUint::from_big_endian(4, &[]).unwrap();
    assert_eq!(empty, value_of(4, 0));
}

#[test]
fn long_slices_are_rejected() {
    assert_eq!(
        FixedUint::from_little_endian(2, &[1, 2, 3]),
        Err(FromSliceError::InvalidLength(3))
    );
    assert_eq!(
        FixedUint::from_big_endian(2, &[1, 2, 3]),
        Err(FromSliceError::InvalidLength(3))
    );
}

#[test]
fn into_slices_need_the_exact_size() {
    let v = value_of(4, 0x0a0b_0c0d);
    let mut out = vec![9u8; 3];
    assert_eq!(v.into_little_endian(&mut out), Err(IntoSliceError::InvalidLength(3)));
    assert_eq!(out, vec![9, 9, 9]);
    let mut out5 = vec![0u8; 5];
    assert_eq!(v.into_big_endian(&mut out5), Err(IntoSliceError::InvalidLength(5)));
    let mut le = vec![0u8; 4];
    assert_eq!(v.into_little_endian(&mut le), Ok(()));
    assert_eq!(le, vec![0x0d, 0x0c, 0x0b, 0x0a]);
    let mut be = vec![0u8; 4];
    assert_eq!(v.into_big_endian(&mut be), Ok(()));
    assert_eq!(be, vec![0x0a, 0x0b, 0x0c, 0x0d]);
}

#[test]
fn formatting_in_each_radix() {
    let v = value_of(4, 0xdead_beef);
    assert_eq!(v.to_hex_string(false, false), "deadbeef");
    assert_eq!(v.to_hex_string(true, true), "0xDEADBEEF");
    assert_eq!(v.to_dec_string(), "3735928559");
    assert_eq!(v.to_oct_string(false), format!("{:o}", 0xdead_beefu32));
    assert_eq!(v.to_oct_string(true), format!("{:#o}", 0xdead_beefu32));
    assert_eq!(v.to_bin_string(true), format!("{:#b}", 0xdead_beefu32));
    let zero = value_of(4, 0);
    assert_eq!(zero.to_dec_string(), "0");
    assert_eq!(zero.to_bin_string(false), "0");
    assert_eq!(zero.to_hex_string(false, true), "0x0");
}

#[test]
fn formatting_the_largest_256_bit_value() {
    let max = FixedUint::max_of(32);
    assert_eq!(
        max.to_dec_string(),
        "115792089237316195423570985008687907853269984665640564039457584007913129639935"
    );
    assert_eq!(max.to_hex_string(false, false), "f".repeat(64));
}

#[test]
fn constructor_formats_through_each_trait_form() {
    let t = UintConstructor::new(String::from("U32"), 32).unwrap();
    let v = value_of(4, 255);
    assert_eq!(t.impl_traits_std_fmt_binary(&v, false), "11111111");
    assert_eq!(t.impl_traits_std_fmt_octal(&v, true), "0o377");
    assert_eq!(t.impl_traits_std_fmt_lowerhex(&v, true), "0xff");
    assert_eq!(t.impl_traits_std_fmt_upperhex(&v, false), "FF");
    assert_eq!(t.impl_traits_std_fmt_display(&v), "255");
    assert_eq!(t.impl_traits_std_fmt(&v, Radix::Decimal, true), "255");
    assert_eq!(t.impl_traits_std_fmt(&v, Radix::UpperHex, true), "0xFF");
}

#[test]
fn parsing_in_each_radix() {
    assert_eq!(FixedUint::from_bin_str(2, "101"), Ok(value_of(2, 5)));
    assert_eq!(FixedUint::from_oct_str(2, "777"), Ok(value_of(2, 0o777)));
    assert_eq!(FixedUint::from_dec_str(2, "65535"), Ok(value_of(2, 65535)));
    assert_eq!(FixedUint::from_hex_str(2, "aBcD"), Ok(value_of(2, 0xabcd)));
    assert_eq!(FixedUint::from_dec_str(2, "0"), Ok(value_of(2, 0)));
    let t = UintConstructor::new(String::from("U16"), 16).unwrap();
    assert_eq!(t.defun_pub_conv("1f", Radix::LowerHex), Ok(value_of(2, 31)));
    assert_eq!(t.defun_pub_conv("1F", Radix::UpperHex), Ok(value_of(2, 31)));
    assert_eq!(t.defun_pub_conv("17", Radix::Octal), Ok(value_of(2, 15)));
}

#[test]
fn parsing_errors() {
    assert_eq!(
        FixedUint::from_dec_str(2, "12a4"),
        Err(FromStrError::InvalidCharacter { chr: b'a', idx: 2 })
    );
    assert_eq!(
        FixedUint::from_bin_str(2, "102"),
        Err(FromStrError::InvalidCharacter { chr: b'2', idx: 2 })
    );
    assert_eq!(
        FixedUint::from_oct_str(2, "78"),
        Err(FromStrError::InvalidCharacter { chr: b'8', idx: 1 })
    );
    assert_eq!(FixedUint::from_dec_str(2, "65536"), Err(FromStrError::Overflow(5)));
    assert_eq!(FixedUint::from_oct_str(2, "200000"), Err(FromStrError::Overflow(6)));
    assert_eq!(FixedUint::from_dec_str(2, "655360"), Err(FromStrError::InvalidLength(6)));
    assert_eq!(FixedUint::from_hex_str(2, "10000"), Err(FromStrError::InvalidLength(5)));
    assert_eq!(
        FixedUint::from_bin_str(1, "100000000"),
        Err(FromStrError::InvalidLength(9))
    );
    assert_eq!(
        FixedUint::from_dec_str(2, "0123"),
        Err(FromStrError::InvalidCharacter { chr: b'0', idx: 0 })
    );
    assert_eq!(
        FixedUint::from_hex_str(2, "+1"),
        Err(FromStrError::InvalidCharacter { chr: b'+', idx: 0 })
    );
}

#[test]
fn a_bad_character_after_valid_digits_is_reported() {
    assert_eq!(FixedUint::from_dec_str(1, "99x"), Err(FromStrError::InvalidCharacter {
        chr: b'x',
        idx: 2
    }));
    assert_eq!(FixedUint::from_dec_str(1, "26x"), Err(FromStrError::InvalidCharacter {
        chr: b'x',
        idx: 2
    }));
    assert_eq!(FixedUint::from_dec_str(1, "300"), Err(FromStrError::Overflow(3)));
}

#[test]
fn digit_counts_of_the_largest_values() {
    assert_eq!(FixedUint::max_digit_count(32, 10), 78);
    assert_eq!(FixedUint::max_digit_count(32, 2), 256);
    assert_eq!(FixedUint::max_digit_count(32, 16), 64);
    assert_eq!(FixedUint::max_digit_count(32, 8), 86);
    assert_eq!(FixedUint::max_digit_count(1, 10), 3);
}

#[test]
fn explicit_byte_orders() {
    let v = value_of(4, 0x0102_0304);
    assert_eq!(v.to_bytes_in_order(true), vec![4, 3, 2, 1]);
    assert_eq!(v.to_bytes_in_order(false), vec![1, 2, 3, 4]);
    assert_eq!(FixedUint::from_bytes_in_order(&[1, 2, 3, 4], false), v);
    assert_eq!(FixedUint::from_bytes_in_order(&[4, 3, 2, 1], true), v);
}
