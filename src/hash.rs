//! A fixed-size byte-array hash: equality, bitwise operators, width conversion and
//! fixed-width hexadecimal text. No arithmetic.
use crate::fixed_uint::MAX_LIMBS;
use crate::radix::{ascii_chars, ascii_string, digit_char, radix_prefix};
use vstd::prelude::*;

verus! {

/// Bytes of a hash, first byte first.
#[derive(Clone, Debug, PartialEq, Eq, Hash)]
pub struct FixedHash {
    pub bytes: Vec<u8>,
}

/// A bitwise operator on two hashes.
#[derive(Clone, Copy, Debug, PartialEq, Eq)]
pub enum HashOp {
    BitAnd,
    BitOr,
    BitXor,
}

/// The result of `op` on two bytes.
pub open spec fn hash_op_byte(op: HashOp, x: u8, y: u8) -> u8 {
    match op {
        HashOp::BitAnd => x & y,
        HashOp::BitOr => x | y,
        HashOp::BitXor => x ^ y,
    }
}

/// Two hexadecimal digits per byte, in byte order, letters in the chosen case.
pub open spec fn hex_pairs(b: Seq<u8>, upper: bool) -> Seq<u8>
    decreases b.len(),
{
    if b.len() == 0 {
        Seq::empty()
    } else {
        hex_pairs(b.drop_last(), upper) + seq![
            digit_char((b.last() / 16) as nat, upper),
            digit_char((b.last() % 16) as nat, upper),
        ]
    }
}

/// The bytes of `b` fitted to `n` bytes: cut at the end, or filled with zeros after it.
pub open spec fn fit_bytes(b: Seq<u8>, n: nat) -> Seq<u8> {
    Seq::new(n, |i: int| if i < b.len() { b[i] } else { 0u8 })
}

/// One hash type: a display name and a byte size.
pub struct HashConstructor {
    pub name: String,
    pub bytes_size: usize,
}

impl HashConstructor {
    /// The byte size is usable.
    pub open spec fn wf(&self) -> bool {
        1 <= self.bytes_size < MAX_LIMBS
    }

    /// `h` is a hash of this type.
    pub open spec fn holds(&self, h: &FixedHash) -> bool {
        h.bytes@.len() == self.bytes_size
    }

    /// The hash holding `data`, which must have exactly the byte size.
    pub fn impl_traits_std_convert(&self, data: &[u8]) -> (r: FixedHash)
        requires
            self.wf(),
            data@.len() == self.bytes_size,
        ensures
            self.holds(&r),
            r.bytes@ == data@,
    {
        let n = data.len();
        let mut out: Vec<u8> = Vec::new();
        let mut i: usize = 0;
        while i < n
            invariant
                i <= n,
                n == data@.len(),
                out@ == data@.take(i as int),
            decreases n - i,
        {
            out.push(data[i]);
            i += 1;
            proof {
                assert(out@ =~= data@.take(i as int));
            }
        }
        proof {
            assert(data@.take(n as int) =~= data@);
        }
        FixedHash { bytes: out }
    }

    /// The hash of this type with every byte zero.
    pub fn define_kernel(&self) -> (r: FixedHash)
        requires
            self.wf(),
        ensures
            self.holds(&r),
            forall|i: int| 0 <= i < self.bytes_size ==> r.bytes@[i] == 0,
    {
        let mut out: Vec<u8> = Vec::new();
        let mut i: usize = 0;
        while i < self.bytes_size
            invariant
                i <= self.bytes_size,
                out@.len() == i,
                forall|j: int| 0 <= j < i ==> out@[j] == 0,
            decreases self.bytes_size - i,
        {
            out.push(0);
            i += 1;
        }
        FixedHash { bytes: out }
    }

    /// The hash fitted to the byte size of `target`, and whether bytes were cut off.
    pub fn convert_into(&self, h: &FixedHash, target: &HashConstructor) -> (r: (FixedHash, bool))
        requires
            self.wf(),
            target.wf(),
            self.holds(h),
        ensures
            target.holds(&r.0),
            r.0.bytes@ == fit_bytes(h.bytes@, target.bytes_size as nat),
            r.1 == (self.bytes_size > target.bytes_size),
    {
        let n = target.bytes_size;
        let mut out: Vec<u8> = Vec::new();
        let mut i: usize = 0;
        while i < n
            invariant
                i <= n,
                n == target.bytes_size,
                out@.len() == i,
                forall|j: int|
                    0 <= j < i ==> out@[j] == (if j < h.bytes@.len() {
                        h.bytes@[j]
                    } else {
                        0u8
                    }),
            decreases n - i,
        {
            if i < h.bytes.len() {
                out.push(h.bytes[i]);
            } else {
                out.push(0);
            }
            i += 1;
        }
        proof {
            assert(out@ =~= fit_bytes(h.bytes@, n as nat));
        }
        (FixedHash { bytes: out }, self.bytes_size > n)
    }

    /// The bitwise operator `op` applied byte by byte to two hashes of this type.
    pub fn impl_traits_std_ops(&self, op: HashOp, lhs: &FixedHash, rhs: &FixedHash) -> (r:
        FixedHash)
        requires
            self.holds(lhs),
            self.holds(rhs),
        ensures
            self.holds(&r),
            forall|i: int|
                0 <= i < self.bytes_size ==> r.bytes@[i] == hash_op_byte(
                    op,
                    lhs.bytes@[i],
                    rhs.bytes@[i],
                ),
    {
        let n = self.bytes_size;
        let mut out: Vec<u8> = Vec::new();
        let mut i: usize = 0;
        while i < n
            invariant
                i <= n,
                n == lhs.bytes@.len(),
                n == rhs.bytes@.len(),
                out@.len() == i,
                forall|j: int|
                    0 <= j < i ==> out@[j] == hash_op_byte(op, lhs.bytes@[j], rhs.bytes@[j]),
            decreases n - i,
        {
            let x = lhs.bytes[i];
            let y = rhs.bytes[i];
            let z = match op {
                HashOp::BitAnd => x & y,
                HashOp::BitOr => x | y,
                HashOp::BitXor => x ^ y,
            };
            out.push(z);
            i += 1;
        }
        FixedHash { bytes: out }
    }

    /// Every bit of a hash of this type flipped.
    pub fn impl_traits_std_ops_not(&self, h: &FixedHash) -> (r: FixedHash)
        requires
            self.holds(h),
        ensures
            self.holds(&r),
            forall|i: int| 0 <= i < self.bytes_size ==> r.bytes@[i] == !h.bytes@[i],
    {
        let n = self.bytes_size;
        let mut out: Vec<u8> = Vec::new();
        let mut i: usize = 0;
        while i < n
            invariant
                i <= n,
                n == h.bytes@.len(),
                out@.len() == i,
                forall|j: int| 0 <= j < i ==> out@[j] == !h.bytes@[j],
            decreases n - i,
        {
            out.push(!h.bytes[i]);
            i += 1;
        }
        FixedHash { bytes: out }
    }

    /// Hexadecimal text of a hash of this type: two digits per byte in the chosen letter
    /// case, after `0x` when `alternate`.
    pub fn impl_traits_std_fmt(&self, h: &FixedHash, upper: bool, alternate: bool) -> (r: String)
        requires
            self.holds(h),
        ensures
            r@ == ascii_chars(
                if alternate {
                    radix_prefix(16) + hex_pairs(h.bytes@, upper)
                } else {
                    hex_pairs(h.bytes@, upper)
                },
            ),
    {
        let mut out: Vec<u8> = Vec::new();
        if alternate {
            out.push(48);
            out.push(120);
        }
        let ghost pre = out@;
        proof {
            if alternate {
                assert(pre =~= radix_prefix(16));
            } else {
                assert(pre =~= Seq::<u8>::empty());
            }
            assert(h.bytes@.take(0).len() == 0);
            assert(hex_pairs(h.bytes@.take(0), upper) =~= Seq::<u8>::empty());
            assert(out@ =~= pre + hex_pairs(h.bytes@.take(0), upper));
        }
        let n = h.bytes.len();
        let mut i: usize = 0;
        while i < n
            invariant
                i <= n,
                n == h.bytes@.len(),
                out@ == pre + hex_pairs(h.bytes@.take(i as int), upper),
                forall|k: int| 0 <= k < out@.len() ==> out@[k] < 128,
            decreases n - i,
        {
            let x = h.bytes[i];
            let hi = x / 16;
            let lo = x % 16;
            let c1: u8 = if hi < 10 {
                48 + hi
            } else if upper {
                55 + hi
            } else {
                87 + hi
            };
            let c2: u8 = if lo < 10 {
                48 + lo
            } else if upper {
                55 + lo
            } else {
                87 + lo
            };
            proof {
                let t = h.bytes@.take(i as int + 1);
                assert(t.drop_last() =~= h.bytes@.take(i as int));
                assert(t.last() == x);
            }
            out.push(c1);
            out.push(c2);
            i += 1;
            proof {
                assert(out@ =~= pre + hex_pairs(h.bytes@.take(i as int), upper));
            }
        }
        proof {
            assert(h.bytes@.take(n as int) =~= h.bytes@);
        }
        ascii_string(out)
    }

    /// Lower-case hexadecimal text of a hash of this type, after `0x` when `alternate`.
    pub fn impl_traits_std_fmt_lowerhex(&self, h: &FixedHash, alternate: bool) -> (r: String)
        requires
            self.holds(h),
        ensures
            r@ == ascii_chars(
                if alternate {
                    radix_prefix(16) + hex_pairs(h.bytes@, false)
                } else {
                    hex_pairs(h.bytes@, false)
                },
            ),
    {
        self.impl_traits_std_fmt(h, false, alternate)
    }

    /// Upper-case hexadecimal text of a hash of this type, after `0x` when `alternate`.
    pub fn impl_traits_std_fmt_upperhex(&self, h: &FixedHash, alternate: bool) -> (r: String)
        requires
            self.holds(h),
        ensures
            r@ == ascii_chars(
                if alternate {
                    radix_prefix(16) + hex_pairs(h.bytes@, true)
                } else {
                    hex_pairs(h.bytes@, true)
                },
            ),
    {
        self.impl_traits_std_fmt(h, true, alternate)
    }
}

} // verus!
