//! The fixed-width unsigned integer and its carry-propagating primitives.
use crate::model::{
    lemma_mod_exact, lemma_modulus_step, lemma_value_bound, lemma_value_first,
    lemma_value_ones, lemma_value_push, lemma_value_split, lemma_value_take, lemma_value_zeros,
    limbs_value, modulus, wrapping_sub_spec,
};
use std::cmp::Ordering;
use vstd::prelude::*;

verus! {

/// Largest number of limbs a value may have; keeps bit counts within `u32`.
pub const MAX_LIMBS: usize = 0x1000_0000;

/// An unsigned integer of `limbs.len()` byte limbs, limb 0 least significant.
#[derive(Clone, Debug, PartialEq, Eq, Hash)]
pub struct FixedUint {
    pub limbs: Vec<u8>,
}

impl FixedUint {
    /// The number of limbs is between one and `MAX_LIMBS`.
    pub open spec fn fits(&self) -> bool {
        1 <= self.limbs@.len() <= MAX_LIMBS
    }

    /// A well-formed value leaves room for one more limb, which division uses.
    pub open spec fn wf(&self) -> bool {
        1 <= self.limbs@.len() < MAX_LIMBS
    }

    /// Number of limbs.
    pub open spec fn width(&self) -> nat {
        self.limbs@.len()
    }

    /// Number of bits.
    pub open spec fn bits(&self) -> nat {
        8 * self.width()
    }

    /// One more than the largest value of this width.
    pub open spec fn bound(&self) -> nat {
        modulus(self.width())
    }

    /// The number this value denotes.
    pub open spec fn value(&self) -> nat {
        limbs_value(self.limbs@)
    }

    /// Same width as `o`.
    pub open spec fn same_width(&self, o: &FixedUint) -> bool {
        self.limbs@.len() == o.limbs@.len()
    }

    /// Values are in range of their width.
    pub proof fn lemma_in_range(&self)
        ensures
            self.value() < self.bound(),
            self.bound() > 0,
    {
        lemma_value_bound(self.limbs@);
        lemma_modulus_step(self.width());
    }

    /// The value zero, `n` limbs wide.
    pub fn zero_of(n: usize) -> (r: FixedUint)
        requires
            1 <= n <= MAX_LIMBS,
        ensures
            r.fits(),
            r.width() == n,
            r.value() == 0,
            forall|i: int| 0 <= i < n ==> r.limbs@[i] == 0,
    {
        let mut limbs: Vec<u8> = Vec::new();
        let mut i: usize = 0;
        while i < n
            invariant
                i <= n,
                limbs@.len() == i,
                forall|j: int| 0 <= j < i ==> limbs@[j] == 0,
            decreases n - i,
        {
            limbs.push(0);
            i += 1;
        }
        proof {
            lemma_value_zeros(limbs@);
        }
        FixedUint { limbs }
    }

    /// The largest value of `n` limbs.
    pub fn max_of(n: usize) -> (r: FixedUint)
        requires
            1 <= n <= MAX_LIMBS,
        ensures
            r.fits(),
            r.width() == n,
            r.value() == modulus(n as nat) - 1,
    {
        let mut limbs: Vec<u8> = Vec::new();
        let mut i: usize = 0;
        while i < n
            invariant
                i <= n,
                limbs@.len() == i,
                forall|j: int| 0 <= j < i ==> limbs@[j] == 255,
            decreases n - i,
        {
            limbs.push(255);
            i += 1;
        }
        proof {
            lemma_value_ones(limbs@);
        }
        FixedUint { limbs }
    }

    /// A value of `n` limbs holding the byte `v`.
    pub fn from_u8_of(n: usize, v: u8) -> (r: FixedUint)
        requires
            1 <= n <= MAX_LIMBS,
        ensures
            r.fits(),
            r.width() == n,
            r.value() == v,
    {
        let z = FixedUint::zero_of(n);
        let mut limbs = z.limbs;
        limbs.set(0, v);
        proof {
            lemma_value_first(limbs@);
            lemma_value_first(z.limbs@);
            assert(limbs@.drop_first() =~= z.limbs@.drop_first());
            assert(z.limbs@[0] == 0);
        }
        FixedUint { limbs }
    }

    /// A copy with the same limbs.
    pub fn duplicate(&self) -> (r: FixedUint)
        ensures
            r.limbs@ == self.limbs@,
    {
        FixedUint { limbs: self.limbs.clone() }
    }

    /// Number of limbs.
    pub fn unit_amount(&self) -> (r: usize)
        ensures
            r == self.width(),
    {
        self.limbs.len()
    }

    /// Whether the value is zero.
    pub fn is_zero(&self) -> (r: bool)
        ensures
            r == (self.value() == 0),
    {
        let n = self.limbs.len();
        let mut i: usize = 0;
        while i < n
            invariant
                i <= n,
                n == self.limbs@.len(),
                forall|j: int| 0 <= j < i ==> self.limbs@[j] == 0,
            decreases n - i,
        {
            if self.limbs[i] != 0 {
                proof {
                    lemma_value_split(self.limbs@, i as int);
                    lemma_value_first(self.limbs@.skip(i as int));
                    assert(self.limbs@.skip(i as int)[0] == self.limbs@[i as int]);
                    assert(modulus(i as nat) > 0) by {
                        lemma_modulus_step(i as nat);
                    }
                    assert(modulus(i as nat) * limbs_value(self.limbs@.skip(i as int)) > 0)
                        by (nonlinear_arith)
                        requires
                            modulus(i as nat) > 0,
                            limbs_value(self.limbs@.skip(i as int)) > 0,
                    ;
                }
                return false;
            }
            i += 1;
        }
        proof {
            lemma_value_zeros(self.limbs@);
        }
        true
    }

    /// Compares by value: the most significant differing limb decides.
    pub fn compare(&self, rhs: &FixedUint) -> (r: Ordering)
        requires
            self.same_width(rhs),
        ensures
            (r == Ordering::Less) == (self.value() < rhs.value()),
            (r == Ordering::Equal) == (self.value() == rhs.value()),
            (r == Ordering::Greater) == (self.value() > rhs.value()),
    {
        let n = self.limbs.len();
        let mut i: usize = n;
        while i > 0
            invariant
                i <= n,
                n == self.limbs@.len(),
                n == rhs.limbs@.len(),
                self.limbs@.skip(i as int) == rhs.limbs@.skip(i as int),
            decreases i,
        {
            let k = i - 1;
            let x = self.limbs[k];
            let y = rhs.limbs[k];
            if x != y {
                proof {
                    let a = self.limbs@;
                    let b = rhs.limbs@;
                    let ki = k as int;
                    lemma_value_split(a, ki);
                    lemma_value_split(b, ki);
                    lemma_value_first(a.skip(ki));
                    lemma_value_first(b.skip(ki));
                    assert(a.skip(ki).drop_first() =~= a.skip(i as int));
                    assert(b.skip(ki).drop_first() =~= b.skip(i as int));
                    assert(a.skip(ki)[0] == x);
                    assert(b.skip(ki)[0] == y);
                    lemma_value_bound(a.take(ki));
                    lemma_value_bound(b.take(ki));
                    lemma_order_at(
                        limbs_value(a.take(ki)),
                        limbs_value(b.take(ki)),
                        x as nat,
                        y as nat,
                        limbs_value(a.skip(i as int)),
                        modulus(k as nat),
                    );
                }
                if x < y {
                    return Ordering::Less;
                } else {
                    return Ordering::Greater;
                }
            }
            proof {
                assert(self.limbs@.skip(k as int) =~= self.limbs@.skip(i as int).insert(0, x));
                assert(rhs.limbs@.skip(k as int) =~= rhs.limbs@.skip(i as int).insert(0, y));
            }
            i = k;
        }
        proof {
            assert(self.limbs@ =~= self.limbs@.skip(0));
            assert(rhs.limbs@ =~= rhs.limbs@.skip(0));
        }
        Ordering::Equal
    }

    /// Whether the value is below that of `rhs`.
    pub fn lt(&self, rhs: &FixedUint) -> (r: bool)
        requires
            self.same_width(rhs),
        ensures
            r == (self.value() < rhs.value()),
    {
        match self.compare(rhs) {
            Ordering::Less => true,
            _ => false,
        }
    }

    /// Limb-wise addition with carry; the flag is the carry out of the top limb.
    pub fn overflowing_add(&self, rhs: &FixedUint) -> (r: (FixedUint, bool))
        requires
            self.fits(),
            self.same_width(rhs),
        ensures
            r.0.fits(),
            r.0.same_width(self),
            (r.0.value(), r.1) == crate::policy::overflowing_add_spec(
                self.value(),
                rhs.value(),
                self.bound(),
            ),
    {
        let n = self.limbs.len();
        let ghost a = self.limbs@;
        let ghost b = rhs.limbs@;
        let mut out: Vec<u8> = Vec::new();
        let mut carry: u16 = 0;
        let mut i: usize = 0;
        while i < n
            invariant
                i <= n,
                n == a.len(),
                n == b.len(),
                a == self.limbs@,
                b == rhs.limbs@,
                out@.len() == i,
                carry <= 1,
                limbs_value(out@) + carry * modulus(i as nat) == limbs_value(a.take(i as int))
                    + limbs_value(b.take(i as int)),
            decreases n - i,
        {
            let t: u16 = self.limbs[i] as u16 + rhs.limbs[i] as u16 + carry;
            let lo: u8 = (t % 256) as u8;
            let c: u16 = t / 256;
            proof {
                lemma_value_push(out@, lo);
                lemma_value_take(a, i as int);
                lemma_value_take(b, i as int);
                lemma_modulus_step(i as nat);
                let m = modulus(i as nat);
                assert((lo as nat) * m + (c as nat) * (m * 256) == (t as nat) * m)
                    by (nonlinear_arith)
                    requires
                        t == lo + 256 * c,
                ;
                assert((t as nat) * m == (a[i as int] as nat) * m + (b[i as int] as nat) * m + (
                carry as nat) * m) by (nonlinear_arith)
                    requires
                        t == a[i as int] + b[i as int] + carry,
                ;
            }
            out.push(lo);
            carry = c;
            i += 1;
        }
        proof {
            assert(a.take(n as int) =~= a);
            assert(b.take(n as int) =~= b);
            lemma_value_bound(out@);
            lemma_mod_exact(
                limbs_value(a) + limbs_value(b),
                carry as nat,
                limbs_value(out@),
                modulus(n as nat),
            );
        }
        (FixedUint { limbs: out }, carry == 1)
    }

    /// Limb-wise subtraction with borrow; the flag is the borrow out of the top limb.
    pub fn overflowing_sub(&self, rhs: &FixedUint) -> (r: (FixedUint, bool))
        requires
            self.fits(),
            self.same_width(rhs),
        ensures
            r.0.fits(),
            r.0.same_width(self),
            r.0.value() == wrapping_sub_spec(self.value(), rhs.value(), self.bound()),
            r.1 == (self.value() < rhs.value()),
    {
        let n = self.limbs.len();
        let ghost a = self.limbs@;
        let ghost b = rhs.limbs@;
        let mut out: Vec<u8> = Vec::new();
        let mut borrow: u16 = 0;
        let mut i: usize = 0;
        while i < n
            invariant
                i <= n,
                n == a.len(),
                n == b.len(),
                a == self.limbs@,
                b == rhs.limbs@,
                out@.len() == i,
                borrow <= 1,
                limbs_value(out@) + limbs_value(b.take(i as int)) == limbs_value(a.take(i as int))
                    + borrow * modulus(i as nat),
            decreases n - i,
        {
            let x: u16 = self.limbs[i] as u16;
            let y: u16 = rhs.limbs[i] as u16 + borrow;
            let lo: u8;
            let nb: u16;
            if x >= y {
                lo = (x - y) as u8;
                nb = 0;
            } else {
                lo = (x + 256 - y) as u8;
                nb = 1;
            }
            proof {
                lemma_value_push(out@, lo);
                lemma_value_take(a, i as int);
                lemma_value_take(b, i as int);
                lemma_modulus_step(i as nat);
                let m = modulus(i as nat);
                assert((lo as nat) * m + (b[i as int] as nat) * m + (borrow as nat) * m == (
                a[i as int] as nat) * m + (nb as nat) * (m * 256)) by (nonlinear_arith)
                    requires
                        lo + b[i as int] + borrow == a[i as int] + 256 * nb,
                ;
            }
            out.push(lo);
            borrow = nb;
            i += 1;
        }
        proof {
            assert(a.take(n as int) =~= a);
            assert(b.take(n as int) =~= b);
            lemma_value_bound(out@);
            lemma_value_bound(a);
            lemma_value_bound(b);
        }
        (FixedUint { limbs: out }, borrow == 1)
    }

    /// Multiplies by a small factor; the flag says whether the product left the width.
    pub fn overflowing_mul_unit(&self, u: u32) -> (r: (FixedUint, bool))
        requires
            self.fits(),
        ensures
            r.0.fits(),
            r.0.same_width(self),
            r.0.value() == ((self.value() * u) as nat) % self.bound(),
            r.1 == (self.value() * u >= self.bound()),
    {
        let n = self.limbs.len();
        let ghost a = self.limbs@;
        let mut out: Vec<u8> = Vec::new();
        let mut carry: u64 = 0;
        let mut i: usize = 0;
        proof {
            assert(limbs_value(a.take(0)) == 0);
            assert(limbs_value(out@) == 0);
            assert(limbs_value(a.take(0)) * u == 0);
            assert(carry * modulus(0) == 0);
        }
        while i < n
            invariant
                i <= n,
                n == a.len(),
                a == self.limbs@,
                out@.len() == i,
                carry <= u,
                limbs_value(out@) + carry * modulus(i as nat) == limbs_value(a.take(i as int)) * u,
            decreases n - i,
        {
            let x: u64 = self.limbs[i] as u64;
            assert(x * (u as u64) <= 255 * (u as u64)) by (nonlinear_arith)
                requires
                    x <= 255,
            ;
            let t: u64 = x * (u as u64) + carry;
            let lo: u8 = (t % 256) as u8;
            let c: u64 = t / 256;
            proof {
                lemma_value_push(out@, lo);
                lemma_value_take(a, i as int);
                lemma_modulus_step(i as nat);
                let m = modulus(i as nat);
                assert((lo as nat) * m + (c as nat) * (m * 256) == (t as nat) * m)
                    by (nonlinear_arith)
                    requires
                        t == lo + 256 * c,
                ;
                assert((t as nat) * m == (a[i as int] as nat) * m * u + (carry as nat) * m)
                    by (nonlinear_arith)
                    requires
                        t == a[i as int] * u + carry,
                ;
                assert((limbs_value(a.take(i as int)) + (a[i as int] as nat) * m) * u
                    == limbs_value(a.take(i as int)) * u + (a[i as int] as nat) * m * u)
                    by (nonlinear_arith);
            }
            out.push(lo);
            carry = c;
            i += 1;
        }
        proof {
            assert(a.take(n as int) =~= a);
            lemma_value_bound(out@);
            let m = modulus(n as nat);
            lemma_mod_exact((limbs_value(a) * u) as nat, carry as nat, limbs_value(out@), m);
            assert((carry != 0) == ((carry as nat) * m + limbs_value(out@) >= m))
                by (nonlinear_arith)
                requires
                    limbs_value(out@) < m,
            ;
        }
        (FixedUint { limbs: out }, carry != 0)
    }
}

/// The first differing limb from the top decides the order.
pub proof fn lemma_order_at(la: nat, lb: nat, x: nat, y: nat, h: nat, m: nat)
    requires
        la < m,
        lb < m,
        x != y,
    ensures
        (la + m * (x + 256 * h) < lb + m * (y + 256 * h)) == (x < y),
        la + m * (x + 256 * h) != lb + m * (y + 256 * h),
{
    if x < y {
        assert(m * x + m <= m * y) by (nonlinear_arith)
            requires
                x < y,
        ;
    } else {
        assert(m * y + m <= m * x) by (nonlinear_arith)
            requires
                y < x,
        ;
    }
    assert(m * (x + 256 * h) == m * x + m * 256 * h) by (nonlinear_arith);
    assert(m * (y + 256 * h) == m * y + m * 256 * h) by (nonlinear_arith);
}

} // verus!
