use fixed_uint::{FixedUint, UintConstructor};

fn value_of(width: usize, x: u128) -> FixedUint {
    let bytes = x.to_le_bytes();
    let n = if width < 16 { width } else { 16 };
    FixedUint::from_little_endian(width, &bytes[..n]).unwrap()
}

fn samples(width: usize) -> Vec<FixedUint> {
    vec![
        value_of(width, 0),
        value_of(width, 1),
        value_of(width, 0x7f),
        value_of(width, 0x1234_5678_9abc_def0_0fed_cba9_8765_4321),
        FixedUint::max_of(width),
    ]
}

#[test]
fn byte_round_trips() {
    for v in samples(32) {
        assert_eq!(FixedUint::from_be_bytes(&v.to_be_bytes()), v);
        assert_eq!(FixedUint::from_le_bytes(&v.to_le_bytes()), v);
        assert_eq!(FixedUint::from_ne_bytes(&v.to_ne_bytes()), v);
    }
}

#[test]
fn text_round_trips() {
    for v in samples(32) {
        assert_eq!(FixedUint::from_hex_str(32, &v.to_hex_string(false, false)), Ok(v.clone()));
        assert_eq!(FixedUint::from_hex_str(32, &v.to_hex_string(true, false)), Ok(v.clone()));
        assert_eq!(FixedUint::from_dec_str(32, &v.to_dec_string()), Ok(v.clone()));
        assert_eq!(FixedUint::from_oct_str(32, &v.to_oct_string(false)), Ok(v.clone()));
        assert_eq!(FixedUint::from_bin_str(32, &v.to_bin_string(false)), Ok(v.clone()));
    }
}

#[test]
fn addition_commutes_and_associates() {
    let a = value_of(16, 0x1111_2222_3333);
    let b = value_of(16, 0xffff_0000_ffff_0000);
    let c = value_of(16, 42);
    assert_eq!(a.overflowing_add(&b), b.overflowing_add(&a));
    let left = a.wrapping_add(&b).wrapping_add(&c);
    let right = a.wrapping_add(&b.wrapping_add(&c));
    assert_eq!(left, right);
    let max = FixedUint::max_of(16);
    assert_eq!(max.wrapping_add(&a).wrapping_add(&c), max.wrapping_add(&a.wrapping_add(&c)));
}

#[test]
fn checked_overflowing_and_saturating_agree() {
    let vals = samples(32);
    for a in &vals {
        for b in &vals {
            let (_, of) = a.overflowing_add(b);
            assert_eq!(a.checked_add(b).is_none(), of);
            if of {
                assert_eq!(a.saturating_add(b), FixedUint::max_of(32));
            }
        }
    }
}

#[test]
fn order_is_total() {
    let t = UintConstructor::new(String::from("U256"), 256).unwrap();
    let vals = samples(32);
    for a in &vals {
        for b in &vals {
            let o = t.impl_traits_std_cmp(a, b);
            let lt = o == std::cmp::Ordering::Less;
            let eq = o == std::cmp::Ordering::Equal;
            let gt = o == std::cmp::Ordering::Greater;
            assert_eq!(lt as u8 + eq as u8 + gt as u8, 1);
            assert_eq!(eq, a == b);
            assert_eq!(t.impl_traits_std_cmp(b, a), o.reverse());
        }
    }
}

#[test]
fn shift_and_rotate_by_the_width() {
    for v in samples(32) {
        assert_eq!(v.shl(256), FixedUint::zero_of(32));
        assert_eq!(v.rotate_left(256), v);
        assert_eq!(v.rotate_right(256), v);
    }
}
