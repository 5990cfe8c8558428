use fixed_uint::{FixedHash, HashConstructor, HashOp};

fn h32() -> HashConstructor {
    HashConstructor { name: String::from("H32"), bytes_size: 4 }
}

#[test]
fn hash_from_bytes_keeps_them() {
    let t = h32();
    let h = t.impl_traits_std_convert(&[0xde, 0xad, 0x00, 0x01]);
    assert_eq!(h.bytes, vec![0xde, 0xad, 0x00, 0x01]);
    assert_eq!(t.define_kernel(), FixedHash { bytes: vec![0, 0, 0, 0] });
}

#[test]
fn hash_hex_text_is_fixed_width() {
    let t = h32();
    let h = t.impl_traits_std_convert(&[0xde, 0xad, 0x00, 0x0f]);
    assert_eq!(t.impl_traits_std_fmt_lowerhex(&h, false), "dead000f");
    assert_eq!(t.impl_traits_std_fmt_upperhex(&h, true), "0xDEAD000F");
    assert_eq!(t.impl_traits_std_fmt(&t.define_kernel(), false, false), "00000000");
}

#[test]
fn hash_bitwise_operators() {
    let t = h32();
    let a = t.impl_traits_std_convert(&[0xf0, 0x0f, 0xff, 0x00]);
    let b = t.impl_traits_std_convert(&[0xff, 0xff, 0x0f, 0x00]);
    assert_eq!(t.impl_traits_std_ops(HashOp::BitAnd, &a, &b).bytes, vec![0xf0, 0x0f, 0x0f, 0x00]);
    assert_eq!(t.impl_traits_std_ops(HashOp::BitOr, &a, &b).bytes, vec![0xff, 0xff, 0xff, 0x00]);
    assert_eq!(t.impl_traits_std_ops(HashOp::BitXor, &a, &b).bytes, vec![0x0f, 0xf0, 0xf0, 0x00]);
    assert_eq!(t.impl_traits_std_ops_not(&a).bytes, vec![0x0f, 0xf0, 0x00, 0xff]);
}

#[test]
fn hash_width_conversion() {
    let t = h32();
    let wide = HashConstructor { name: String::from("H64"), bytes_size: 8 };
    let narrow = HashConstructor { name: String::from("H16"), bytes_size: 2 };
    let h = t.impl_traits_std_convert(&[1, 2, 3, 4]);
    assert_eq!(t.convert_into(&h, &wide), (FixedHash { bytes: vec![1, 2, 3, 4, 0, 0, 0, 0] }, false));
    assert_eq!(t.convert_into(&h, &narrow), (FixedHash { bytes: vec![1, 2] }, true));
    assert_eq!(t.convert_into(&h, &t), (h.clone(), false));
}
