use fixed_uint::FixedUint;

fn value_of(width: usize, x: u128) -> FixedUint {
    let bytes = x.to_le_bytes();
    let n = if width < 16 { width } else { 16 };
    FixedUint::from_little_endian(width, &bytes[..n]).unwrap()
}

#[test]
fn one_and_zero_counts() {
    let v = value_of(8, 0xf0f0_0000_0001_0003);
    assert_eq!(v.count_ones(), 0xf0f0_0000_0001_0003u64.count_ones());
    assert_eq!(v.count_zeros(), 0xf0f0_0000_0001_0003u64.count_zeros());
    assert_eq!(FixedUint::max_of(32).count_ones(), 256);
    assert_eq!(FixedUint::zero_of(32).count_zeros(), 256);
}

#[test]
fn leading_and_trailing_zeros() {
    let v = value_of(8, 0x0000_1000_0000_0100);
    assert_eq!(v.leading_zeros(), 0x0000_1000_0000_0100u64.leading_zeros());
    assert_eq!(v.trailing_zeros(), 0x0000_1000_0000_0100u64.trailing_zeros());
    assert_eq!(v.bit_length(), 64 - 0x0000_1000_0000_0100u64.leading_zeros());
    let z = FixedUint::zero_of(8);
    assert_eq!(z.leading_zeros(), 64);
    assert_eq!(z.trailing_zeros(), 64);
    assert_eq!(FixedUint::max_of(8).leading_zeros(), 0);
    assert_eq!(value_of(8, 1).trailing_zeros(), 0);
}

#[test]
fn powers_of_two() {
    assert!(value_of(8, 1).is_power_of_two());
    assert!(value_of(8, 1 << 40).is_power_of_two());
    assert!(!value_of(8, 0).is_power_of_two());
    assert!(!value_of(8, (1 << 40) + 1).is_power_of_two());
    assert!(!value_of(8, 3).is_power_of_two());
}

#[test]
fn next_power_of_two_rounds_up() {
    assert_eq!(value_of(4, 0).checked_next_power_of_two(), Some(value_of(4, 1)));
    assert_eq!(value_of(4, 1).checked_next_power_of_two(), Some(value_of(4, 1)));
    assert_eq!(value_of(4, 2).checked_next_power_of_two(), Some(value_of(4, 2)));
    assert_eq!(value_of(4, 3).checked_next_power_of_two(), Some(value_of(4, 4)));
    assert_eq!(value_of(4, 1000).checked_next_power_of_two(), Some(value_of(4, 1024)));
    assert_eq!(value_of(4, 1 << 31).checked_next_power_of_two(), Some(value_of(4, 1 << 31)));
    assert_eq!(value_of(4, (1 << 31) + 1).checked_next_power_of_two(), None);
}

#[test]
fn swapping_bytes_reverses_them() {
    let v = value_of(4, 0x0102_0304);
    assert_eq!(v.swap_bytes(), value_of(4, 0x0403_0201));
    assert_eq!(v.swap_bytes().swap_bytes(), v);
}
