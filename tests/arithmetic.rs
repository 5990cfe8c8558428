use fixed_uint::{BinOp, FixedUint, FoldOp, OpError, UintConstructor};

fn value_of(width: usize, x: u128) -> FixedUint {
    let bytes = x.to_le_bytes();
    let n = if width < 16 { width } else { 16 };
    FixedUint::from_little_endian(width, &bytes[..n]).unwrap()
}

fn as_u128(v: &FixedUint) -> u128 {
    let bytes = v.to_le_bytes();
    let mut x: u128 = 0;
    for (i, b) in bytes.iter().enumerate() {
        if i < 16 {
            x |= (*b as u128) << (8 * i);
        } else {
            assert_eq!(*b, 0);
        }
    }
    x
}

#[test]
fn add_carries_across_limbs() {
    let a = value_of(8, 0x00ff_ffff_ffff);
    let b = value_of(8, 1);
    let (r, of) = a.overflowing_add(&b);
    assert_eq!(as_u128(&r), 0x0100_0000_0000);
    assert!(!of);
}

#[test]
fn sub_borrows_across_limbs() {
    let a = value_of(8, 0x1_0000_0000);
    let b = value_of(8, 1);
    let (r, of) = a.overflowing_sub(&b);
    assert_eq!(as_u128(&r), 0xffff_ffff);
    assert!(!of);
}

#[test]
fn mul_exact_and_overflowing() {
    let a = value_of(8, 0x1234_5678);
    let b = value_of(8, 0x9abc_def0);
    let (r, of) = a.overflowing_mul(&b);
    assert_eq!(as_u128(&r), 0x1234_5678u128 * 0x9abc_def0u128);
    assert!(!of);
    let big = value_of(8, 1u128 << 63);
    let (w, of2) = big.overflowing_mul(&value_of(8, 4));
    assert!(of2);
    assert_eq!(as_u128(&w), 0);
    assert_eq!(big.checked_mul(&value_of(8, 4)), None);
}

#[test]
fn mul_unit_reports_overflow() {
    let a = value_of(2, 0x8000);
    let (r, of) = a.overflowing_mul_unit(3);
    assert_eq!(as_u128(&r), (0x8000u128 * 3) % 0x10000);
    assert!(of);
}

#[test]
fn div_rem_gives_quotient_and_remainder() {
    let a = value_of(16, 1_000_000_000_000_000_007);
    let b = value_of(16, 1_000_000_007);
    let (q, r) = a.div_rem(&b);
    assert_eq!(as_u128(&q), 1_000_000_000_000_000_007u128 / 1_000_000_007);
    assert_eq!(as_u128(&r), 1_000_000_000_000_000_007u128 % 1_000_000_007);
}

#[test]
fn div_rem_unit_by_ten() {
    let a = value_of(4, 123_456_789);
    let (q, r) = a.div_rem_unit(10);
    assert_eq!(as_u128(&q), 12_345_678);
    assert_eq!(r, 9);
}

#[test]
fn checked_division_by_zero_is_none() {
    let a = value_of(4, 10);
    let z = value_of(4, 0);
    assert_eq!(a.checked_div(&z), None);
    assert_eq!(a.checked_rem(&z), None);
    assert_eq!(a.checked_div(&value_of(4, 3)), Some(value_of(4, 3)));
    assert_eq!(a.checked_rem(&value_of(4, 3)), Some(value_of(4, 1)));
}

#[test]
fn pow_small_values() {
    let three = value_of(8, 3);
    assert_eq!(three.checked_pow(20), Some(value_of(8, 3u128.pow(20))));
    assert_eq!(three.checked_pow(0), Some(value_of(8, 1)));
    let zero = value_of(8, 0);
    assert_eq!(zero.checked_pow(0), Some(value_of(8, 1)));
    assert_eq!(zero.checked_pow(5), Some(value_of(8, 0)));
}

#[test]
fn saturating_forms_clamp() {
    let max = FixedUint::max_of(4);
    let two = value_of(4, 2);
    assert_eq!(max.saturating_add(&two), max);
    assert_eq!(two.saturating_sub(&max), value_of(4, 0));
    assert_eq!(max.saturating_mul(&two), max);
    assert_eq!(two.saturating_pow(40), max);
    assert_eq!(two.saturating_pow(4), value_of(4, 16));
    assert_eq!(value_of(4, 5).saturating_add(&two), value_of(4, 7));
}

#[test]
fn wrapping_forms_reduce() {
    let max = FixedUint::max_of(1);
    let two = value_of(1, 2);
    assert_eq!(max.wrapping_add(&two), value_of(1, 1));
    assert_eq!(value_of(1, 1).wrapping_sub(&two), max);
    assert_eq!(value_of(1, 16).wrapping_mul(&value_of(1, 17)), value_of(1, 16));
    assert_eq!(two.wrapping_pow(9), value_of(1, 0));
}

#[test]
fn negation_forms() {
    let zero = value_of(2, 0);
    let five = value_of(2, 5);
    assert_eq!(zero.checked_neg(), Some(zero.clone()));
    assert_eq!(five.checked_neg(), None);
    assert_eq!(zero.overflowing_neg(), (zero.clone(), false));
    assert_eq!(five.overflowing_neg(), (value_of(2, 65531), true));
}

#[test]
fn operator_surface_reports_overflow_and_division_by_zero() {
    let t = UintConstructor::new(String::from("U16"), 16).unwrap();
    let a = value_of(2, 60000);
    let b = value_of(2, 10000);
    assert_eq!(t.impl_traits_std_ops(BinOp::Add, &a, &b), Err(OpError::Overflow));
    assert_eq!(t.impl_traits_std_ops(BinOp::Sub, &b, &a), Err(OpError::Overflow));
    assert_eq!(t.impl_traits_std_ops(BinOp::Sub, &a, &b), Ok(value_of(2, 50000)));
    assert_eq!(t.impl_traits_std_ops(BinOp::Mul, &a, &b), Err(OpError::Overflow));
    assert_eq!(t.impl_traits_std_ops(BinOp::Div, &a, &b), Ok(value_of(2, 6)));
    assert_eq!(t.impl_traits_std_ops(BinOp::Rem, &a, &value_of(2, 7)), Ok(value_of(2, 60000 % 7)));
    assert_eq!(
        t.impl_traits_std_ops(BinOp::Div, &a, &t.zero()),
        Err(OpError::DivisionByZero)
    );
    assert_eq!(
        t.impl_traits_std_ops(BinOp::Rem, &a, &t.zero()),
        Err(OpError::DivisionByZero)
    );
    assert_eq!(t.impl_traits_std_ops(BinOp::BitAnd, &a, &b), Ok(value_of(2, 60000 & 10000)));
    assert_eq!(t.impl_traits_std_ops(BinOp::BitOr, &a, &b), Ok(value_of(2, 60000 | 10000)));
    assert_eq!(t.impl_traits_std_ops(BinOp::BitXor, &a, &b), Ok(value_of(2, 60000 ^ 10000)));
}

#[test]
fn constructor_accepts_byte_multiples_only() {
    assert!(UintConstructor::new(String::from("U12"), 12).is_none());
    assert!(UintConstructor::new(String::from("U0"), 0).is_none());
    let t = UintConstructor::new(String::from("U256"), 256).unwrap();
    assert_eq!(t.unit_amount, 32);
    assert_eq!(t.name, "U256");
    assert_eq!(t.max_value(), FixedUint::max_of(32));
    assert_eq!(t.min_value(), t.zero());
    assert_eq!(t.one(), FixedUint::from_u8_of(32, 1));
}

#[test]
fn fold_sum_and_product() {
    let t = UintConstructor::new(String::from("U8"), 8).unwrap();
    let items = vec![value_of(1, 10), value_of(1, 20), value_of(1, 30)];
    assert_eq!(t.impl_traits_std_iter(&items, FoldOp::Sum), Ok(value_of(1, 60)));
    assert_eq!(t.impl_traits_std_iter(&items, FoldOp::Product), Err(OpError::Overflow));
    let small = vec![value_of(1, 2), value_of(1, 3), value_of(1, 7)];
    assert_eq!(t.impl_traits_std_iter(&small, FoldOp::Product), Ok(value_of(1, 42)));
    let empty: Vec<FixedUint> = Vec::new();
    assert_eq!(t.impl_traits_std_iter(&empty, FoldOp::Sum), Ok(value_of(1, 0)));
    assert_eq!(t.impl_traits_std_iter(&empty, FoldOp::Product), Ok(value_of(1, 1)));
    let big = vec![value_of(1, 200), value_of(1, 100)];
    assert_eq!(t.impl_traits_std_iter(&big, FoldOp::Sum), Err(OpError::Overflow));
}

#[test]
fn overflowing_division_never_flags() {
    let a = value_of(4, 100);
    let b = value_of(4, 7);
    assert_eq!(a.overflowing_div(&b), (value_of(4, 14), false));
    assert_eq!(a.overflowing_rem(&b), (value_of(4, 2), false));
}

#[test]
fn not_is_the_complement() {
    let v = value_of(2, 0x1234);
    assert_eq!(v.not(), value_of(2, 0xffff - 0x1234));
}
