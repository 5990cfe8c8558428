//! Checked, saturating and wrapping forms layered over the overflowing primitives.
use crate::fixed_uint::FixedUint;
use vstd::arithmetic::power::pow;
use vstd::arithmetic::power2::pow2;
use vstd::prelude::*;

verus! {

/// The sum modulo `m` and whether it was reduced.
pub open spec fn overflowing_add_spec(v: nat, w: nat, m: nat) -> (nat, bool) {
    ((v + w) % m, v + w >= m)
}

/// The sum when it is below `m`.
pub open spec fn checked_add_spec(v: nat, w: nat, m: nat) -> Option<nat> {
    if v + w >= m {
        None
    } else {
        Some(v + w)
    }
}

/// The sum, clamped to `m - 1`.
pub open spec fn saturating_add_spec(v: nat, w: nat, m: nat) -> nat {
    if v + w >= m {
        (m - 1) as nat
    } else {
        v + w
    }
}

impl FixedUint {
    /// The sum, or `None` when it does not fit.
    pub fn checked_add(&self, rhs: &FixedUint) -> (r: Option<FixedUint>)
        requires
            self.wf(),
            self.same_width(rhs),
        ensures
            match checked_add_spec(self.value(), rhs.value(), self.bound()) {
                None => r.is_none(),
                Some(x) => r.is_some() && r.unwrap().wf() && r.unwrap().same_width(self)
                    && r.unwrap().value() == x,
            },
    {
        let (v, of) = self.overflowing_add(rhs);
        if of {
            None
        } else {
            proof {
                vstd::arithmetic::div_mod::lemma_small_mod(self.value() + rhs.value(), self.bound());
            }
            Some(v)
        }
    }

    /// The difference, or `None` when `rhs` is larger.
    pub fn checked_sub(&self, rhs: &FixedUint) -> (r: Option<FixedUint>)
        requires
            self.wf(),
            self.same_width(rhs),
        ensures
            r.is_none() == (self.value() < rhs.value()),
            r.is_some() ==> r.unwrap().wf() && r.unwrap().same_width(self) && r.unwrap().value()
                == self.value() - rhs.value(),
    {
        let (v, of) = self.overflowing_sub(rhs);
        if of {
            None
        } else {
            Some(v)
        }
    }

    /// The product, or `None` when it does not fit.
    pub fn checked_mul(&self, rhs: &FixedUint) -> (r: Option<FixedUint>)
        requires
            self.wf(),
            self.same_width(rhs),
        ensures
            r.is_none() == (self.value() * rhs.value() >= self.bound()),
            r.is_some() ==> r.unwrap().wf() && r.unwrap().same_width(self) && r.unwrap().value()
                == self.value() * rhs.value(),
    {
        let (v, of) = self.overflowing_mul(rhs);
        if of {
            None
        } else {
            proof {
                vstd::arithmetic::div_mod::lemma_small_mod(self.value() * rhs.value(), self.bound());
            }
            Some(v)
        }
    }

    /// The quotient, or `None` when `rhs` is zero.
    pub fn checked_div(&self, rhs: &FixedUint) -> (r: Option<FixedUint>)
        requires
            self.wf(),
            self.same_width(rhs),
        ensures
            r.is_none() == (rhs.value() == 0),
            r.is_some() ==> r.unwrap().wf() && r.unwrap().same_width(self) && r.unwrap().value()
                == self.value() / rhs.value(),
    {
        if rhs.is_zero() {
            None
        } else {
            let (q, _) = self.div_rem(rhs);
            Some(q)
        }
    }

    /// The remainder, or `None` when `rhs` is zero.
    pub fn checked_rem(&self, rhs: &FixedUint) -> (r: Option<FixedUint>)
        requires
            self.wf(),
            self.same_width(rhs),
        ensures
            r.is_none() == (rhs.value() == 0),
            r.is_some() ==> r.unwrap().wf() && r.unwrap().same_width(self) && r.unwrap().value()
                == self.value() % rhs.value(),
    {
        if rhs.is_zero() {
            None
        } else {
            let (_, m) = self.div_rem(rhs);
            Some(m)
        }
    }

    /// The power, or `None` when it does not fit.
    pub fn checked_pow(&self, exp: u32) -> (r: Option<FixedUint>)
        requires
            self.wf(),
        ensures
            r.is_none() == (pow(self.value() as int, exp as nat) >= self.bound()),
            r.is_some() ==> r.unwrap().wf() && r.unwrap().same_width(self) && r.unwrap().value()
                == pow(self.value() as int, exp as nat),
    {
        let (v, of) = self.overflowing_pow(exp);
        if of {
            None
        } else {
            proof {
                crate::arith::lemma_pow_nonneg(self.value(), exp as nat);
                vstd::arithmetic::div_mod::lemma_small_mod(
                    pow(self.value() as int, exp as nat) as nat,
                    self.bound(),
                );
            }
            Some(v)
        }
    }

    /// The left shift, or `None` when `s` is at least the number of bits.
    pub fn checked_shl(&self, s: u128) -> (r: Option<FixedUint>)
        requires
            self.wf(),
        ensures
            r.is_none() == (s >= self.bits()),
            r.is_some() ==> r.unwrap().wf() && r.unwrap().same_width(self) && r.unwrap().value()
                == (self.value() * pow2(s as nat)) % self.bound(),
    {
        if s >= (self.bits_size() as u128) {
            None
        } else {
            Some(self.shl(s))
        }
    }

    /// The right shift, or `None` when `s` is at least the number of bits.
    pub fn checked_shr(&self, s: u128) -> (r: Option<FixedUint>)
        requires
            self.wf(),
        ensures
            r.is_none() == (s >= self.bits()),
            r.is_some() ==> r.unwrap().wf() && r.unwrap().same_width(self) && r.unwrap().value()
                == self.value() / pow2(s as nat),
    {
        if s >= (self.bits_size() as u128) {
            None
        } else {
            Some(self.shr(s))
        }
    }

    /// Negation: zero for zero, `None` for any other value.
    pub fn checked_neg(&self) -> (r: Option<FixedUint>)
        requires
            self.wf(),
        ensures
            r.is_none() == (self.value() != 0),
            r.is_some() ==> r.unwrap().wf() && r.unwrap().same_width(self) && r.unwrap().value()
                == 0,
    {
        if self.is_zero() {
            Some(FixedUint::zero_of(self.limbs.len()))
        } else {
            None
        }
    }

    /// The shift left by `s` modulo the number of bits, and whether `s` was that large.
    pub fn overflowing_shl(&self, s: u128) -> (r: (FixedUint, bool))
        requires
            self.wf(),
        ensures
            r.0.wf(),
            r.0.same_width(self),
            r.0.value() == (self.value() * pow2((s as nat) % self.bits())) % self.bound(),
            r.1 == (s >= self.bits()),
    {
        let bits = self.bits_size() as u128;
        (self.shl(s % bits), s >= bits)
    }

    /// The shift right by `s` modulo the number of bits, and whether `s` was that large.
    pub fn overflowing_shr(&self, s: u128) -> (r: (FixedUint, bool))
        requires
            self.wf(),
        ensures
            r.0.wf(),
            r.0.same_width(self),
            r.0.value() == self.value() / pow2((s as nat) % self.bits()),
            r.1 == (s >= self.bits()),
    {
        let bits = self.bits_size() as u128;
        (self.shr(s % bits), s >= bits)
    }

    /// Two's-complement negation within the width, and whether the value was nonzero.
    pub fn overflowing_neg(&self) -> (r: (FixedUint, bool))
        requires
            self.wf(),
        ensures
            r.0.wf(),
            r.0.same_width(self),
            self.value() == 0 ==> r.0.value() == 0,
            self.value() != 0 ==> r.0.value() == self.bound() - self.value(),
            r.1 == (self.value() != 0),
    {
        let z = FixedUint::zero_of(self.limbs.len());
        let r = z.overflowing_sub(self);
        proof {
            assert(z.bound() == self.bound());
            self.lemma_in_range();
            assert(crate::model::wrapping_sub_spec(0, self.value(), self.bound()) == if self.value()
                == 0 {
                0
            } else {
                (self.bound() - self.value()) as nat
            });
        }
        r
    }

    /// The quotient; division of unsigned values never overflows, so the flag is false.
    pub fn overflowing_div(&self, rhs: &FixedUint) -> (r: (FixedUint, bool))
        requires
            self.wf(),
            self.same_width(rhs),
            rhs.value() != 0,
        ensures
            r.0.wf(),
            r.0.same_width(self),
            r.0.value() == self.value() / rhs.value(),
            !r.1,
    {
        let (q, _) = self.div_rem(rhs);
        (q, false)
    }

    /// The remainder; it never overflows, so the flag is false.
    pub fn overflowing_rem(&self, rhs: &FixedUint) -> (r: (FixedUint, bool))
        requires
            self.wf(),
            self.same_width(rhs),
            rhs.value() != 0,
        ensures
            r.0.wf(),
            r.0.same_width(self),
            r.0.value() == self.value() % rhs.value(),
            !r.1,
    {
        let (_, m) = self.div_rem(rhs);
        (m, false)
    }

    /// The sum, clamped to the largest value.
    pub fn saturating_add(&self, rhs: &FixedUint) -> (r: FixedUint)
        requires
            self.wf(),
            self.same_width(rhs),
        ensures
            r.wf(),
            r.same_width(self),
            r.value() == saturating_add_spec(self.value(), rhs.value(), self.bound()),
    {
        match self.checked_add(rhs) {
            Some(v) => v,
            None => FixedUint::max_of(self.limbs.len()),
        }
    }

    /// The difference, clamped to zero.
    pub fn saturating_sub(&self, rhs: &FixedUint) -> (r: FixedUint)
        requires
            self.wf(),
            self.same_width(rhs),
        ensures
            r.wf(),
            r.same_width(self),
            r.value() == if self.value() < rhs.value() {
                0
            } else {
                (self.value() - rhs.value()) as nat
            },
    {
        match self.checked_sub(rhs) {
            Some(v) => v,
            None => FixedUint::zero_of(self.limbs.len()),
        }
    }

    /// The product, clamped to the largest value.
    pub fn saturating_mul(&self, rhs: &FixedUint) -> (r: FixedUint)
        requires
            self.wf(),
            self.same_width(rhs),
        ensures
            r.wf(),
            r.same_width(self),
            r.value() == if self.value() * rhs.value() >= self.bound() {
                (self.bound() - 1) as nat
            } else {
                self.value() * rhs.value()
            },
    {
        match self.checked_mul(rhs) {
            Some(v) => v,
            None => FixedUint::max_of(self.limbs.len()),
        }
    }

    /// The power, clamped to the largest value.
    pub fn saturating_pow(&self, exp: u32) -> (r: FixedUint)
        requires
            self.wf(),
        ensures
            r.wf(),
            r.same_width(self),
            r.value() == if pow(self.value() as int, exp as nat) >= self.bound() {
                self.bound() - 1
            } else {
                pow(self.value() as int, exp as nat)
            },
    {
        match self.checked_pow(exp) {
            Some(v) => v,
            None => FixedUint::max_of(self.limbs.len()),
        }
    }

    /// The sum modulo two to the number of bits.
    pub fn wrapping_add(&self, rhs: &FixedUint) -> (r: FixedUint)
        requires
            self.wf(),
            self.same_width(rhs),
        ensures
            r.wf(),
            r.same_width(self),
            r.value() == (self.value() + rhs.value()) % self.bound(),
    {
        self.overflowing_add(rhs).0
    }

    /// The difference modulo two to the number of bits.
    pub fn wrapping_sub(&self, rhs: &FixedUint) -> (r: FixedUint)
        requires
            self.wf(),
            self.same_width(rhs),
        ensures
            r.wf(),
            r.same_width(self),
            r.value() == crate::model::wrapping_sub_spec(self.value(), rhs.value(), self.bound()),
    {
        self.overflowing_sub(rhs).0
    }

    /// The product modulo two to the number of bits.
    pub fn wrapping_mul(&self, rhs: &FixedUint) -> (r: FixedUint)
        requires
            self.wf(),
            self.same_width(rhs),
        ensures
            r.wf(),
            r.same_width(self),
            r.value() == (self.value() * rhs.value()) % self.bound(),
    {
        self.overflowing_mul(rhs).0
    }

    /// The power modulo two to the number of bits.
    pub fn wrapping_pow(&self, exp: u32) -> (r: FixedUint)
        requires
            self.wf(),
        ensures
            r.wf(),
            r.same_width(self),
            r.value() == (pow(self.value() as int, exp as nat) as nat) % self.bound(),
    {
        self.overflowing_pow(exp).0
    }
}

} // verus!
