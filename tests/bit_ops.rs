use fixed_uint::FixedUint;

fn value_of(width: usize, x: u128) -> FixedUint {
    let bytes = x.to_le_bytes();
    let n = if width < 16 { width } else { 16 };
    FixedUint::from_little_endian(width, &bytes[..n]).unwrap()
}

#[test]
fn bitwise_operators_act_per_limb() {
    let a = value_of(4, 0xf0f0_1234);
    let b = value_of(4, 0x0ff0_ff00);
    assert_eq!(a.bitand(&b), value_of(4, 0xf0f0_1234 & 0x0ff0_ff00));
    assert_eq!(a.bitor(&b), value_of(4, 0xf0f0_1234 | 0x0ff0_ff00));
    assert_eq!(a.bitxor(&b), value_of(4, 0xf0f0_1234 ^ 0x0ff0_ff00));
    assert_eq!(a.not(), value_of(4, !0xf0f0_1234u32 as u128));
}

#[test]
fn shifts_across_limb_boundaries() {
    let v = value_of(4, 0x8123_4567);
    assert_eq!(v.shl(4), value_of(4, (0x8123_4567u128 << 4) & 0xffff_ffff));
    assert_eq!(v.shl(12), value_of(4, (0x8123_4567u128 << 12) & 0xffff_ffff));
    assert_eq!(v.shr(12), value_of(4, 0x8123_4567 >> 12));
    assert_eq!(v.shr(31), value_of(4, 1));
    assert_eq!(v.shl(0), v);
}

#[test]
fn shifts_by_the_width_or_more_clear() {
    let v = FixedUint::max_of(4);
    assert_eq!(v.shl(32), value_of(4, 0));
    assert_eq!(v.shr(32), value_of(4, 0));
    assert_eq!(v.shl(1000), value_of(4, 0));
    assert_eq!(v.checked_shl(32), None);
    assert_eq!(v.checked_shr(40), None);
    assert_eq!(v.checked_shr(28), Some(value_of(4, 0xf)));
}

#[test]
fn overflowing_shifts_mask_the_amount() {
    let v = value_of(4, 1);
    assert_eq!(v.overflowing_shl(33), (value_of(4, 2), true));
    assert_eq!(v.overflowing_shl(3), (value_of(4, 8), false));
    let w = value_of(4, 0x100);
    assert_eq!(w.overflowing_shr(36), (value_of(4, 0x10), true));
}

#[test]
fn rotations() {
    let v = value_of(4, 0x8000_0001);
    assert_eq!(v.rotate_left(1), value_of(4, 0x0000_0003));
    assert_eq!(v.rotate_right(1), value_of(4, 0xc000_0000));
    assert_eq!(v.rotate_left(36), value_of(4, 0x8000_0001u32.rotate_left(36) as u128));
    assert_eq!(v.rotate_right(8), value_of(4, 0x8000_0001u32.rotate_right(8) as u128));
    assert_eq!(v.rotate_left(0), v);
}

#[test]
fn comparison_by_most_significant_limb() {
    let a = value_of(4, 0x0100_0000);
    let b = value_of(4, 0x00ff_ffff);
    assert_eq!(a.compare(&b), std::cmp::Ordering::Greater);
    assert_eq!(b.compare(&a), std::cmp::Ordering::Less);
    assert_eq!(a.compare(&a.clone()), std::cmp::Ordering::Equal);
    assert!(b.lt(&a));
    assert!(!a.lt(&b));
    assert!(value_of(4, 0).is_zero());
    assert!(!a.is_zero());
}

#[test]
fn reversing_bits() {
    let v = value_of(4, 0x0000_0001);
    assert_eq!(v.reverse_bits(), value_of(4, 0x8000_0000));
    let w = value_of(4, 0x1234_5678);
    assert_eq!(w.reverse_bits(), value_of(4, 0x1234_5678u32.reverse_bits() as u128));
    assert_eq!(w.reverse_bits().reverse_bits(), w);
}
