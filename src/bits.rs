//! Bitwise operations, logical shifts and rotations.
use crate::fixed_uint::FixedUint;
use crate::model::modulus;
use vstd::arithmetic::div_mod::{
    lemma_basic_div, lemma_div_denominator, lemma_mod_multiples_basic, lemma_mul_mod_noop_left,
    lemma_small_mod,
};
use vstd::arithmetic::power2::{lemma2_to64, lemma_pow2_adds, lemma_pow2_pos, pow2};
use vstd::prelude::*;

verus! {

/// The lowest `k` bits of `x` in reverse order.
pub open spec fn reverse_low_bits(x: nat, k: nat) -> nat
    decreases k,
{
    if k == 0 {
        0
    } else {
        (x % 2) * pow2((k - 1) as nat) + reverse_low_bits(x / 2, (k - 1) as nat)
    }
}

/// The bits of a byte in reverse order.
fn reverse_byte(x: u8) -> (r: u8)
    ensures
        r == reverse_low_bits(x as nat, 8),
{
    let mut y: u8 = x;
    let mut acc: u32 = 0;
    let mut k: u32 = 0;
    proof {
        lemma2_to64();
    }
    while k < 8
        invariant
            k <= 8,
            acc < pow2(k as nat),
            acc * pow2((8 - k) as nat) + reverse_low_bits(y as nat, (8 - k) as nat)
                == reverse_low_bits(x as nat, 8),
        decreases 8 - k,
    {
        let ghost m = (8 - k) as nat;
        let ghost y0 = y as nat;
        let ghost a0 = acc as nat;
        proof {
            assert(reverse_low_bits(y0, m) == (y0 % 2) * pow2((m - 1) as nat) + reverse_low_bits(
                y0 / 2,
                (m - 1) as nat,
            ));
            lemma2_to64();
            vstd::arithmetic::power2::lemma_pow2_unfold(m);
            vstd::arithmetic::power2::lemma_pow2_unfold((k + 1) as nat);
            assert(acc * pow2(m) == (2 * acc) * pow2((m - 1) as nat)) by (nonlinear_arith)
                requires
                    pow2(m) == 2 * pow2((m - 1) as nat),
            ;
            assert(pow2(k as nat) <= 128) by {
                if k < 7 {
                    vstd::arithmetic::power2::lemma_pow2_strictly_increases(k as nat, 7);
                }
            }
        }
        acc = acc * 2 + (y % 2) as u32;
        y = y / 2;
        k = k + 1;
        proof {
            assert((8 - k) as nat == (m - 1) as nat);
            assert(acc == 2 * a0 + y0 % 2);
            assert(y as nat == y0 / 2);
            assert(acc * pow2((m - 1) as nat) == a0 * pow2(m) + (y0 % 2) * pow2((m - 1) as nat))
                by (nonlinear_arith)
                requires
                    acc == 2 * a0 + y0 % 2,
                    pow2(m) == 2 * pow2((m - 1) as nat),
            ;
        }
    }
    proof {
        lemma2_to64();
        assert(reverse_low_bits(y as nat, 0) == 0);
        assert(acc * pow2(0) == acc);
    }
    acc as u8
}

/// Shifting left by `k` bits then by `j` more, each time reducing modulo `m`.
proof fn lemma_shl_step(v: nat, k: nat, j: nat, m: nat)
    requires
        m > 0,
    ensures
        (((v * pow2(k)) % m) * pow2(j)) % m == (v * pow2(k + j)) % m,
{
    lemma_mul_mod_noop_left((v * pow2(k)) as int, pow2(j) as int, m as int);
    lemma_pow2_adds(k, j);
    assert(v * pow2(k) * pow2(j) == v * (pow2(k) * pow2(j))) by (nonlinear_arith);
}

/// Shifting right by `k` bits then by `j` more.
proof fn lemma_shr_step(v: nat, k: nat, j: nat)
    ensures
        (v / pow2(k)) / pow2(j) == v / pow2(k + j),
{
    lemma_pow2_pos(k);
    lemma_pow2_pos(j);
    lemma_div_denominator(v as int, pow2(k) as int, pow2(j) as int);
    lemma_pow2_adds(k, j);
}

/// Rotation left by `n` bits of a `bits`-bit value `v`, where `m` is two to `bits`.
pub open spec fn rotl_spec(v: nat, n: nat, bits: nat, m: nat) -> nat {
    let k = n % bits;
    if k == 0 {
        v
    } else {
        ((v * pow2(k)) % m + v / pow2((bits - k) as nat)) % m
    }
}

/// Rotation right by `n` bits of a `bits`-bit value `v`, where `m` is two to `bits`.
pub open spec fn rotr_spec(v: nat, n: nat, bits: nat, m: nat) -> nat {
    let k = n % bits;
    if k == 0 {
        v
    } else {
        (v / pow2(k) + (v * pow2((bits - k) as nat)) % m) % m
    }
}

impl FixedUint {
    /// Limb-wise AND.
    pub fn bitand(&self, rhs: &FixedUint) -> (r: FixedUint)
        requires
            self.wf(),
            self.same_width(rhs),
        ensures
            r.wf(),
            r.same_width(self),
            forall|i: int| 0 <= i < r.width() ==> r.limbs@[i] == self.limbs@[i] & rhs.limbs@[i],
    {
        let n = self.limbs.len();
        let mut out: Vec<u8> = Vec::new();
        let mut i: usize = 0;
        while i < n
            invariant
                i <= n,
                n == self.limbs@.len(),
                n == rhs.limbs@.len(),
                out@.len() == i,
                forall|j: int| 0 <= j < i ==> out@[j] == self.limbs@[j] & rhs.limbs@[j],
            decreases n - i,
        {
            out.push(self.limbs[i] & rhs.limbs[i]);
            i += 1;
        }
        FixedUint { limbs: out }
    }

    /// Limb-wise OR.
    pub fn bitor(&self, rhs: &FixedUint) -> (r: FixedUint)
        requires
            self.wf(),
            self.same_width(rhs),
        ensures
            r.wf(),
            r.same_width(self),
            forall|i: int| 0 <= i < r.width() ==> r.limbs@[i] == self.limbs@[i] | rhs.limbs@[i],
    {
        let n = self.limbs.len();
        let mut out: Vec<u8> = Vec::new();
        let mut i: usize = 0;
        while i < n
            invariant
                i <= n,
                n == self.limbs@.len(),
                n == rhs.limbs@.len(),
                out@.len() == i,
                forall|j: int| 0 <= j < i ==> out@[j] == self.limbs@[j] | rhs.limbs@[j],
            decreases n - i,
        {
            out.push(self.limbs[i] | rhs.limbs[i]);
            i += 1;
        }
        FixedUint { limbs: out }
    }

    /// Limb-wise XOR.
    pub fn bitxor(&self, rhs: &FixedUint) -> (r: FixedUint)
        requires
            self.wf(),
            self.same_width(rhs),
        ensures
            r.wf(),
            r.same_width(self),
            forall|i: int| 0 <= i < r.width() ==> r.limbs@[i] == self.limbs@[i] ^ rhs.limbs@[i],
    {
        let n = self.limbs.len();
        let mut out: Vec<u8> = Vec::new();
        let mut i: usize = 0;
        while i < n
            invariant
                i <= n,
                n == self.limbs@.len(),
                n == rhs.limbs@.len(),
                out@.len() == i,
                forall|j: int| 0 <= j < i ==> out@[j] == self.limbs@[j] ^ rhs.limbs@[j],
            decreases n - i,
        {
            out.push(self.limbs[i] ^ rhs.limbs[i]);
            i += 1;
        }
        FixedUint { limbs: out }
    }

    /// Limb-wise NOT.
    pub fn not(&self) -> (r: FixedUint)
        requires
            self.wf(),
        ensures
            r.wf(),
            r.same_width(self),
            forall|i: int| 0 <= i < r.width() ==> r.limbs@[i] == !self.limbs@[i],
            r.value() == self.bound() - 1 - self.value(),
    {
        let n = self.limbs.len();
        let mut out: Vec<u8> = Vec::new();
        let mut i: usize = 0;
        while i < n
            invariant
                i <= n,
                n == self.limbs@.len(),
                out@.len() == i,
                forall|j: int| 0 <= j < i ==> out@[j] == !self.limbs@[j],
            decreases n - i,
        {
            out.push(!self.limbs[i]);
            i += 1;
        }
        proof {
            assert forall|j: int| 0 <= j < n implies out@[j] + self.limbs@[j] == 255 by {
                let x = self.limbs@[j];
                assert(!x + x == 255) by (bit_vector);
            }
            crate::model::lemma_value_complement(out@, self.limbs@);
        }
        FixedUint { limbs: out }
    }

    /// The bits in reverse order: the top limb's bits, reversed, become the bottom limb.
    pub fn reverse_bits(&self) -> (r: FixedUint)
        requires
            self.wf(),
        ensures
            r.wf(),
            r.same_width(self),
            forall|i: int|
                0 <= i < r.width() ==> r.limbs@[i] == reverse_low_bits(
                    self.limbs@[r.width() - 1 - i] as nat,
                    8,
                ),
    {
        let n = self.limbs.len();
        let mut out: Vec<u8> = Vec::new();
        let mut i: usize = 0;
        while i < n
            invariant
                i <= n,
                n == self.limbs@.len(),
                out@.len() == i,
                forall|j: int|
                    0 <= j < i ==> out@[j] == reverse_low_bits(self.limbs@[n - 1 - j] as nat, 8),
            decreases n - i,
        {
            out.push(reverse_byte(self.limbs[n - 1 - i]));
            i += 1;
        }
        FixedUint { limbs: out }
    }

    /// Number of bits of the width.
    pub fn bits_size(&self) -> (r: u64)
        requires
            self.wf(),
        ensures
            r == self.bits(),
    {
        (self.limbs.len() as u64) * 8
    }

    /// Logical shift left: bits pushed past the top are lost, so a shift by the width or
    /// more gives zero.
    pub fn shl(&self, s: u128) -> (r: FixedUint)
        requires
            self.wf(),
        ensures
            r.wf(),
            r.same_width(self),
            r.value() == (self.value() * pow2(s as nat)) % self.bound(),
    {
        let n = self.limbs.len();
        let bits: u128 = (n as u128) * 8;
        let ghost v = self.value();
        let ghost m = self.bound();
        proof {
            self.lemma_in_range();
        }
        if s >= bits {
            proof {
                lemma_pow2_adds(8 * n as nat, (s - bits) as nat);
                assert(v * pow2(s as nat) == (v * pow2((s - bits) as nat)) * m)
                    by (nonlinear_arith)
                    requires
                        pow2(s as nat) == m * pow2((s - bits) as nat),
                ;
                lemma_mod_multiples_basic((v * pow2((s - bits) as nat)) as int, m as int);
            }
            return FixedUint::zero_of(n);
        }
        let whole: u128 = s / 8;
        let rest: u32 = (s % 8) as u32;
        let mut x = self.duplicate();
        let mut k: u128 = 0;
        proof {
            assert(x.limbs@ == self.limbs@);
            lemma2_to64();
            lemma_small_mod(v, m);
            assert(8 * (0 as nat) == 0);
            assert(v * pow2(0) == v);
        }
        while k < whole
            invariant
                k <= whole,
                whole == s / 8,
                x.wf(),
                x.same_width(self),
                m == self.bound(),
                m > 0,
                v == self.value(),
                x.value() == (v * pow2(8 * k as nat)) % m,
            decreases whole - k,
        {
            let (y, _) = x.overflowing_mul_unit(256);
            proof {
                lemma2_to64();
                lemma_shl_step(v, 8 * k as nat, 8, m);
                assert(8 * k as nat + 8 == 8 * (k + 1) as nat);
            }
            x = y;
            k += 1;
        }
        let f: u32 = 1u32 << rest;
        proof {
            assert(f == pow2(rest as nat)) by {
                lemma2_to64();
                assert(rest < 8);
                assert(1u32 << rest == if rest == 0 {
                    1u32
                } else if rest == 1 {
                    2u32
                } else if rest == 2 {
                    4u32
                } else if rest == 3 {
                    8u32
                } else if rest == 4 {
                    16u32
                } else if rest == 5 {
                    32u32
                } else if rest == 6 {
                    64u32
                } else {
                    128u32
                }) by (bit_vector)
                    requires
                        rest < 8,
                ;
            }
        }
        let (y, _) = x.overflowing_mul_unit(f);
        proof {
            lemma_shl_step(v, 8 * whole as nat, rest as nat, m);
            assert(8 * whole as nat + rest as nat == s as nat);
        }
        y
    }

    /// Logical shift right: a shift by the width or more gives zero.
    pub fn shr(&self, s: u128) -> (r: FixedUint)
        requires
            self.wf(),
        ensures
            r.wf(),
            r.same_width(self),
            r.value() == self.value() / pow2(s as nat),
    {
        let n = self.limbs.len();
        let bits: u128 = (n as u128) * 8;
        let ghost v = self.value();
        proof {
            self.lemma_in_range();
            lemma_pow2_pos(s as nat);
        }
        if s >= bits {
            proof {
                lemma_pow2_adds(8 * n as nat, (s - bits) as nat);
                lemma_pow2_pos((s - bits) as nat);
                assert(self.bound() <= pow2(s as nat)) by (nonlinear_arith)
                    requires
                        pow2(s as nat) == self.bound() * pow2((s - bits) as nat),
                        pow2((s - bits) as nat) > 0,
                ;
                lemma_basic_div(v as int, pow2(s as nat) as int);
            }
            return FixedUint::zero_of(n);
        }
        let whole: u128 = s / 8;
        let rest: u32 = (s % 8) as u32;
        let mut x = self.duplicate();
        let mut k: u128 = 0;
        proof {
            assert(x.limbs@ == self.limbs@);
            lemma2_to64();
            assert(8 * (0 as nat) == 0);
            assert(v / pow2(0) == v);
        }
        while k < whole
            invariant
                k <= whole,
                whole == s / 8,
                x.wf(),
                x.same_width(self),
                v == self.value(),
                x.value() == v / pow2(8 * k as nat),
            decreases whole - k,
        {
            let (y, _) = x.div_rem_unit(256);
            proof {
                lemma2_to64();
                lemma_shr_step(v, 8 * k as nat, 8);
                assert(8 * k as nat + 8 == 8 * (k + 1) as nat);
            }
            x = y;
            k += 1;
        }
        let f: u32 = 1u32 << rest;
        proof {
            assert(f == pow2(rest as nat)) by {
                lemma2_to64();
                assert(1u32 << rest == if rest == 0 {
                    1u32
                } else if rest == 1 {
                    2u32
                } else if rest == 2 {
                    4u32
                } else if rest == 3 {
                    8u32
                } else if rest == 4 {
                    16u32
                } else if rest == 5 {
                    32u32
                } else if rest == 6 {
                    64u32
                } else {
                    128u32
                }) by (bit_vector)
                    requires
                        rest < 8,
                ;
            }
        }
        let (y, _) = x.div_rem_unit(f);
        proof {
            lemma_shr_step(v, 8 * whole as nat, rest as nat);
            assert(8 * whole as nat + rest as nat == s as nat);
        }
        y
    }

    /// Rotation left by `n` bits, taken modulo the width: the bits shifted out at the top
    /// come back at the bottom.
    pub fn rotate_left(&self, n: u32) -> (r: FixedUint)
        requires
            self.wf(),
        ensures
            r.wf(),
            r.same_width(self),
            r.value() == rotl_spec(self.value(), n as nat, self.bits(), self.bound()),
    {
        let bits = self.bits_size();
        let k: u64 = (n as u64) % bits;
        if k == 0 {
            let r = self.duplicate();
            proof {
                assert(r.limbs@ == self.limbs@);
            }
            return r;
        }
        let hi = self.shl(k as u128);
        let lo = self.shr((bits - k) as u128);
        let (r, _) = hi.overflowing_add(&lo);
        r
    }

    /// Rotation right by `n` bits, taken modulo the width: the bits shifted out at the
    /// bottom come back at the top.
    pub fn rotate_right(&self, n: u32) -> (r: FixedUint)
        requires
            self.wf(),
        ensures
            r.wf(),
            r.same_width(self),
            r.value() == rotr_spec(self.value(), n as nat, self.bits(), self.bound()),
    {
        let bits = self.bits_size();
        let k: u64 = (n as u64) % bits;
        if k == 0 {
            let r = self.duplicate();
            proof {
                assert(r.limbs@ == self.limbs@);
            }
            return r;
        }
        let lo = self.shr(k as u128);
        let hi = self.shl((bits - k) as u128);
        let (r, _) = lo.overflowing_add(&hi);
        r
    }
}

} // verus!
