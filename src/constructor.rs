//! The definition of one fixed-width type (its name and limb count) and the operations a
//! language surface exposes on it: operators, comparison, folding, formatting and parsing.
use crate::error::{FromStrError, OpError};
use crate::fixed_uint::{FixedUint, MAX_LIMBS};
use crate::model::{limbs_value, modulus};
use crate::radix::{ascii_chars, parse_spec, radix_text, to_digits};
use std::cmp::Ordering;
use vstd::prelude::*;
use vstd::string::StringSliceAdditionalSpecFns;

verus! {

/// A binary operator on two values of one type.
#[derive(Clone, Copy, Debug, PartialEq, Eq)]
pub enum BinOp {
    Add,
    Sub,
    Mul,
    Div,
    Rem,
    BitAnd,
    BitOr,
    BitXor,
}

/// How a sequence of values is folded.
#[derive(Clone, Copy, Debug, PartialEq, Eq)]
pub enum FoldOp {
    Sum,
    Product,
}

/// A radix and letter case for text.
#[derive(Clone, Copy, Debug, PartialEq, Eq)]
pub enum Radix {
    Binary,
    Octal,
    Decimal,
    LowerHex,
    UpperHex,
}

/// The numeric base of a radix.
pub open spec fn radix_base(r: Radix) -> nat {
    match r {
        Radix::Binary => 2,
        Radix::Octal => 8,
        Radix::Decimal => 10,
        Radix::LowerHex => 16,
        Radix::UpperHex => 16,
    }
}

/// The value of `items` summed, lowest index first.
pub open spec fn values_sum(items: Seq<FixedUint>) -> nat
    decreases items.len(),
{
    if items.len() == 0 {
        0
    } else {
        values_sum(items.drop_last()) + items.last().value()
    }
}

/// The value of `items` multiplied, lowest index first.
pub open spec fn values_product(items: Seq<FixedUint>) -> nat
    decreases items.len(),
{
    if items.len() == 0 {
        1
    } else {
        values_product(items.drop_last()) * items.last().value()
    }
}

/// The running sum or product of the first `k` items.
pub open spec fn fold_prefix(items: Seq<FixedUint>, op: FoldOp, k: int) -> nat {
    match op {
        FoldOp::Sum => values_sum(items.take(k)),
        FoldOp::Product => values_product(items.take(k)),
    }
}

/// Limb by limb combination of two limb sequences of one length.
pub open spec fn limbwise(op: BinOp, a: Seq<u8>, b: Seq<u8>) -> Seq<u8> {
    Seq::new(
        a.len(),
        |i: int|
            match op {
                BinOp::BitAnd => a[i] & b[i],
                BinOp::BitOr => a[i] | b[i],
                _ => a[i] ^ b[i],
            },
    )
}

/// The exact result of `op` on the values with limbs `a` and `b` in a width of bound `m`,
/// or why it has none.
pub open spec fn op_spec(op: BinOp, a: Seq<u8>, b: Seq<u8>, m: nat) -> Result<nat, OpError> {
    let v = limbs_value(a);
    let w = limbs_value(b);
    match op {
        BinOp::Add => if v + w >= m {
            Err(OpError::Overflow)
        } else {
            Ok(v + w)
        },
        BinOp::Sub => if v < w {
            Err(OpError::Overflow)
        } else {
            Ok((v - w) as nat)
        },
        BinOp::Mul => if v * w >= m {
            Err(OpError::Overflow)
        } else {
            Ok(v * w)
        },
        BinOp::Div => if w == 0 {
            Err(OpError::DivisionByZero)
        } else {
            Ok(v / w)
        },
        BinOp::Rem => if w == 0 {
            Err(OpError::DivisionByZero)
        } else {
            Ok(v % w)
        },
        _ => Ok(limbs_value(limbwise(op, a, b))),
    }
}

/// One fixed-width type: a display name and a number of byte limbs.
pub struct UintConstructor {
    pub name: String,
    pub unit_amount: usize,
}

impl UintConstructor {
    /// The limb count is usable.
    pub open spec fn wf(&self) -> bool {
        1 <= self.unit_amount < MAX_LIMBS
    }

    /// `v` is a value of this type.
    pub open spec fn holds(&self, v: &FixedUint) -> bool {
        v.width() == self.unit_amount
    }

    /// One more than the largest value of this type.
    pub open spec fn bound(&self) -> nat {
        modulus(self.unit_amount as nat)
    }

    /// A type of `bits_size` bits named `name`; the size must be a positive multiple of 8
    /// below the limb limit.
    pub fn new(name: String, bits_size: u64) -> (r: Option<UintConstructor>)
        ensures
            r.is_some() == (bits_size % 8 == 0 && 8 <= bits_size && bits_size / 8 < MAX_LIMBS),
            r.is_some() ==> r.unwrap().wf() && r.unwrap().unit_amount == bits_size / 8
                && r.unwrap().name == name,
    {
        if bits_size % 8 == 0 && 8 <= bits_size && bits_size / 8 < (MAX_LIMBS as u64) {
            Some(UintConstructor { name, unit_amount: (bits_size / 8) as usize })
        } else {
            None
        }
    }

    /// The operator `op` on two values of this type: the result, or the condition under
    /// which the plain operator has none (overflow, division by zero).
    pub fn impl_traits_std_ops(&self, op: BinOp, lhs: &FixedUint, rhs: &FixedUint) -> (r: Result<
        FixedUint,
        OpError,
    >)
        requires
            self.wf(),
            self.holds(lhs),
            self.holds(rhs),
        ensures
            match op_spec(op, lhs.limbs@, rhs.limbs@, self.bound()) {
                Ok(x) => r.is_ok() && self.holds(&r.unwrap()) && r.unwrap().value() == x,
                Err(e) => r == Err::<FixedUint, OpError>(e),
            },
    {
        match op {
            BinOp::Add => match lhs.checked_add(rhs) {
                Some(v) => Ok(v),
                None => Err(OpError::Overflow),
            },
            BinOp::Sub => match lhs.checked_sub(rhs) {
                Some(v) => Ok(v),
                None => Err(OpError::Overflow),
            },
            BinOp::Mul => match lhs.checked_mul(rhs) {
                Some(v) => Ok(v),
                None => Err(OpError::Overflow),
            },
            BinOp::Div => match lhs.checked_div(rhs) {
                Some(v) => Ok(v),
                None => Err(OpError::DivisionByZero),
            },
            BinOp::Rem => match lhs.checked_rem(rhs) {
                Some(v) => Ok(v),
                None => Err(OpError::DivisionByZero),
            },
            BinOp::BitAnd => {
                let r = lhs.bitand(rhs);
                proof {
                    assert(r.limbs@ =~= limbwise(op, lhs.limbs@, rhs.limbs@));
                }
                Ok(r)
            },
            BinOp::BitOr => {
                let r = lhs.bitor(rhs);
                proof {
                    assert(r.limbs@ =~= limbwise(op, lhs.limbs@, rhs.limbs@));
                }
                Ok(r)
            },
            BinOp::BitXor => {
                let r = lhs.bitxor(rhs);
                proof {
                    assert(r.limbs@ =~= limbwise(op, lhs.limbs@, rhs.limbs@));
                }
                Ok(r)
            },
        }
    }

    /// The total order of two values of this type.
    pub fn impl_traits_std_cmp(&self, lhs: &FixedUint, rhs: &FixedUint) -> (r: Ordering)
        requires
            self.holds(lhs),
            self.holds(rhs),
        ensures
            (r == Ordering::Less) == (lhs.value() < rhs.value()),
            (r == Ordering::Equal) == (lhs.value() == rhs.value()),
            (r == Ordering::Greater) == (lhs.value() > rhs.value()),
    {
        lhs.compare(rhs)
    }

    /// Folds `items` by sum or product from the first on: the result, or an overflow as
    /// soon as a running result leaves the width.
    pub fn impl_traits_std_iter(&self, items: &Vec<FixedUint>, op: FoldOp) -> (r: Result<
        FixedUint,
        OpError,
    >)
        requires
            self.wf(),
            forall|i: int| 0 <= i < items@.len() ==> self.holds(&#[trigger] items@[i]),
        ensures
            (exists|k: int|
                1 <= k <= items@.len() && fold_prefix(items@, op, k) >= self.bound()) ==> r
                == Err::<FixedUint, OpError>(OpError::Overflow),
            !(exists|k: int|
                1 <= k <= items@.len() && fold_prefix(items@, op, k) >= self.bound()) ==> r.is_ok()
                && self.holds(&r.unwrap()) && r.unwrap().value() == fold_prefix(
                items@,
                op,
                items@.len() as int,
            ),
    {
        let n = items.len();
        let mut acc = match op {
            FoldOp::Sum => FixedUint::zero_of(self.unit_amount),
            FoldOp::Product => FixedUint::from_u8_of(self.unit_amount, 1),
        };
        let mut i: usize = 0;
        proof {
            assert(items@.take(0).len() == 0);
            assert(values_sum(items@.take(0)) == 0);
            assert(values_product(items@.take(0)) == 1);
        }
        while i < n
            invariant
                i <= n,
                n == items@.len(),
                self.wf(),
                forall|j: int| 0 <= j < items@.len() ==> self.holds(&#[trigger] items@[j]),
                acc.wf(),
                self.holds(&acc),
                acc.value() == fold_prefix(items@, op, i as int),
                forall|k: int| 1 <= k <= i ==> fold_prefix(items@, op, k) < self.bound(),
            decreases n - i,
        {
            let item = &items[i];
            proof {
                assert(self.holds(&items@[i as int]));
                assert(items@.take(i as int + 1).drop_last() =~= items@.take(i as int));
                assert(items@.take(i as int + 1).last() == items@[i as int]);
            }
            let next = match op {
                FoldOp::Sum => acc.checked_add(item),
                FoldOp::Product => acc.checked_mul(item),
            };
            match next {
                Some(v) => {
                    acc = v;
                },
                None => {
                    proof {
                        assert(fold_prefix(items@, op, i as int + 1) >= self.bound());
                    }
                    return Err(OpError::Overflow);
                },
            }
            i += 1;
        }
        proof {
            assert(items@.take(n as int) =~= items@);
        }
        Ok(acc)
    }

    /// Text of a value of this type in radix `radix`; `alternate` adds the radix prefix
    /// (none for decimal).
    pub fn impl_traits_std_fmt(&self, v: &FixedUint, radix: Radix, alternate: bool) -> (r: String)
        requires
            self.wf(),
            self.holds(v),
        ensures
            r@ == ascii_chars(
                radix_text(
                    v.value(),
                    radix_base(radix),
                    radix == Radix::UpperHex,
                    alternate && radix != Radix::Decimal,
                ),
            ),
    {
        match radix {
            Radix::Binary => self.impl_traits_std_fmt_binary(v, alternate),
            Radix::Octal => self.impl_traits_std_fmt_octal(v, alternate),
            Radix::Decimal => self.impl_traits_std_fmt_display(v),
            Radix::LowerHex => self.impl_traits_std_fmt_lowerhex(v, alternate),
            Radix::UpperHex => self.impl_traits_std_fmt_upperhex(v, alternate),
        }
    }

    /// Binary text of a value of this type; `alternate` adds `0b`.
    pub fn impl_traits_std_fmt_binary(&self, v: &FixedUint, alternate: bool) -> (r: String)
        requires
            self.wf(),
            self.holds(v),
        ensures
            r@ == ascii_chars(radix_text(v.value(), 2, false, alternate)),
    {
        v.to_bin_string(alternate)
    }

    /// Octal text of a value of this type; `alternate` adds `0o`.
    pub fn impl_traits_std_fmt_octal(&self, v: &FixedUint, alternate: bool) -> (r: String)
        requires
            self.wf(),
            self.holds(v),
        ensures
            r@ == ascii_chars(radix_text(v.value(), 8, false, alternate)),
    {
        v.to_oct_string(alternate)
    }

    /// Lower-case hexadecimal text of a value of this type; `alternate` adds `0x`.
    pub fn impl_traits_std_fmt_lowerhex(&self, v: &FixedUint, alternate: bool) -> (r: String)
        requires
            self.wf(),
            self.holds(v),
        ensures
            r@ == ascii_chars(radix_text(v.value(), 16, false, alternate)),
    {
        v.to_hex_string(false, alternate)
    }

    /// Upper-case hexadecimal text of a value of this type; `alternate` adds `0x`.
    pub fn impl_traits_std_fmt_upperhex(&self, v: &FixedUint, alternate: bool) -> (r: String)
        requires
            self.wf(),
            self.holds(v),
        ensures
            r@ == ascii_chars(radix_text(v.value(), 16, true, alternate)),
    {
        v.to_hex_string(true, alternate)
    }

    /// Decimal text of a value of this type.
    pub fn impl_traits_std_fmt_display(&self, v: &FixedUint) -> (r: String)
        requires
            self.wf(),
            self.holds(v),
        ensures
            r@ == ascii_chars(to_digits(v.value(), 10, false)),
    {
        v.to_dec_string()
    }

    /// Parses text in radix `radix` into a value of this type; hexadecimal accepts both
    /// letter cases whichever case `radix` names.
    pub fn defun_pub_conv(&self, input: &str, radix: Radix) -> (r: Result<FixedUint, FromStrError>)
        requires
            self.wf(),
        ensures
            match parse_spec(input.spec_bytes(), radix_base(radix), self.bound()) {
                Ok(x) => r.is_ok() && self.holds(&r.unwrap()) && r.unwrap().value() == x,
                Err(e) => r == Err::<FixedUint, FromStrError>(e),
            },
    {
        match radix {
            Radix::Binary => FixedUint::from_bin_str(self.unit_amount, input),
            Radix::Octal => FixedUint::from_oct_str(self.unit_amount, input),
            Radix::Decimal => FixedUint::from_dec_str(self.unit_amount, input),
            Radix::LowerHex => FixedUint::from_hex_str(self.unit_amount, input),
            Radix::UpperHex => FixedUint::from_hex_str(self.unit_amount, input),
        }
    }

    /// Zero of this type.
    pub fn zero(&self) -> (r: FixedUint)
        requires
            self.wf(),
        ensures
            r.wf(),
            self.holds(&r),
            r.value() == 0,
    {
        FixedUint::zero_of(self.unit_amount)
    }

    /// One of this type.
    pub fn one(&self) -> (r: FixedUint)
        requires
            self.wf(),
        ensures
            r.wf(),
            self.holds(&r),
            r.value() == 1,
    {
        FixedUint::from_u8_of(self.unit_amount, 1)
    }

    /// The smallest value of this type, zero.
    pub fn min_value(&self) -> (r: FixedUint)
        requires
            self.wf(),
        ensures
            r.wf(),
            self.holds(&r),
            r.value() == 0,
    {
        FixedUint::zero_of(self.unit_amount)
    }

    /// The largest value of this type.
    pub fn max_value(&self) -> (r: FixedUint)
        requires
            self.wf(),
        ensures
            r.wf(),
            self.holds(&r),
            r.value() == self.bound() - 1,
    {
        FixedUint::max_of(self.unit_amount)
    }
}

} // verus!
