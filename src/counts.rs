//! Population counts, bit lengths and powers of two.
use crate::fixed_uint::FixedUint;
use crate::model::{
    lemma_modulus_step, lemma_value_bound, lemma_value_first, lemma_value_split, lemma_value_take,
    lemma_value_zeros, limbs_value, modulus,
};
use vstd::arithmetic::div_mod::{lemma_fundamental_div_mod, lemma_fundamental_div_mod_converse};
use vstd::arithmetic::power2::{lemma2_to64, lemma_pow2_pos, lemma_pow2_strictly_increases, pow2};
use vstd::prelude::*;

verus! {

/// Number of one bits of `v`.
pub open spec fn bit_count(v: nat) -> nat
    decreases v,
{
    if v == 0 {
        0
    } else {
        v % 2 + bit_count(v / 2)
    }
}

/// Number of bits needed to write `v`; zero for zero.
pub open spec fn bit_length(v: nat) -> nat
    decreases v,
{
    if v == 0 {
        0
    } else {
        1 + bit_length(v / 2)
    }
}

/// Number of zero bits below the lowest one bit of a nonzero `v`.
pub open spec fn trailing_zeros_of(v: nat) -> nat
    decreases v,
{
    if v == 0 || v % 2 == 1 {
        0
    } else {
        1 + trailing_zeros_of(v / 2)
    }
}

/// `v` is two to some power.
pub open spec fn is_power_of_two_spec(v: nat) -> bool {
    exists|k: nat| v == pow2(k)
}

/// The exponent of the smallest power of two at or above `v`.
pub open spec fn next_power_exp(v: nat) -> nat {
    if v <= 1 {
        0
    } else {
        bit_length((v - 1) as nat)
    }
}

/// Halving `a + 2^k * h` for `k > 0`.
proof fn lemma_halve(a: nat, h: nat, k: nat)
    requires
        k > 0,
    ensures
        (a + pow2(k) * h) % 2 == a % 2,
        (a + pow2(k) * h) / 2 == a / 2 + pow2((k - 1) as nat) * h,
        a < pow2(k) ==> a / 2 < pow2((k - 1) as nat),
{
    vstd::arithmetic::power2::lemma_pow2_unfold(k);
    lemma_fundamental_div_mod(a as int, 2);
    let m = pow2((k - 1) as nat);
    assert(a + pow2(k) * h == 2 * (a / 2 + m * h) + a % 2) by (nonlinear_arith)
        requires
            pow2(k) == 2 * m,
            a == 2 * (a / 2) + a % 2,
    ;
    lemma_fundamental_div_mod_converse(
        (a + pow2(k) * h) as int,
        2,
        (a / 2 + m * h) as int,
        (a % 2) as int,
    );
}

/// Bits of a low part and a high part shifted past it add up.
pub proof fn lemma_bit_count_split(a: nat, h: nat, k: nat)
    requires
        a < pow2(k),
    ensures
        bit_count(a + pow2(k) * h) == bit_count(a) + bit_count(h),
    decreases k,
{
    lemma_pow2_pos(k);
    if k == 0 {
        lemma2_to64();
        assert(a == 0);
        assert(a + pow2(k) * h == h);
        assert(bit_count(0) == 0);
        assert(bit_length(0) == 0);
    } else {
        let x = a + pow2(k) * h;
        lemma_halve(a, h, k);
        lemma_bit_count_split(a / 2, h, (k - 1) as nat);
        assert(bit_count(a) == a % 2 + bit_count(a / 2)) by {
            if a == 0 {
                assert(bit_count(0) == 0);
            }
        }
        if x == 0 {
            assert(pow2(k) * h == 0);
            assert(h == 0) by (nonlinear_arith)
                requires
                    pow2(k) * h == 0,
                    pow2(k) > 0,
            ;
            assert(a == 0);
            assert(bit_count(0) == 0);
        } else {
            assert(bit_count(x) == x % 2 + bit_count(x / 2));
        }
    }
}

/// A value below `2^k` has at most `k` one bits.
pub proof fn lemma_bit_count_bound(v: nat, k: nat)
    requires
        v < pow2(k),
    ensures
        bit_count(v) <= k,
    decreases k,
{
    if k == 0 {
        lemma2_to64();
    } else if v > 0 {
        lemma_halve(v, 0, k);
        lemma_bit_count_bound(v / 2, (k - 1) as nat);
    }
}

/// The bit length of a high part above `k` low bits grows by `k`.
pub proof fn lemma_bit_length_split(a: nat, h: nat, k: nat)
    requires
        a < pow2(k),
        h > 0,
    ensures
        bit_length(a + pow2(k) * h) == k + bit_length(h),
    decreases k,
{
    lemma_pow2_pos(k);
    if k == 0 {
        lemma2_to64();
        assert(a == 0);
        assert(a + pow2(k) * h == h);
        assert(bit_count(0) == 0);
        assert(bit_length(0) == 0);
    } else {
        lemma_halve(a, h, k);
        lemma_bit_length_split(a / 2, h, (k - 1) as nat);
        assert(pow2(k) * h > 0) by (nonlinear_arith)
            requires
                pow2(k) > 0,
                h > 0,
        ;
        let x = a + pow2(k) * h;
        assert(x > 0);
        assert(bit_length(x) == 1 + bit_length(x / 2));
        assert(bit_length(x / 2) == (k - 1) + bit_length(h));
    }
}

/// A value lies between the powers of two around its bit length.
pub proof fn lemma_bit_length_range(v: nat)
    ensures
        v < pow2(bit_length(v)),
        v > 0 ==> pow2((bit_length(v) - 1) as nat) <= v,
    decreases v,
{
    lemma2_to64();
    if v > 0 {
        lemma_bit_length_range(v / 2);
        let b = bit_length(v / 2);
        vstd::arithmetic::power2::lemma_pow2_unfold(b + 1);
        lemma_fundamental_div_mod(v as int, 2);
        if v / 2 > 0 {
            vstd::arithmetic::power2::lemma_pow2_unfold(b);
        }
    }
}

/// Powers of two are exactly the values with one bit set.
pub proof fn lemma_power_of_two_count(v: nat)
    ensures
        is_power_of_two_spec(v) == (bit_count(v) == 1),
    decreases v,
{
    lemma2_to64();
    if bit_count(v) == 1 {
        lemma_fundamental_div_mod(v as int, 2);
        if v % 2 == 1 {
            assert(bit_count(v / 2) == 0);
            if v / 2 != 0 {
                lemma_bit_count_positive(v / 2);
            }
            assert(v == pow2(0));
        } else {
            lemma_power_of_two_count(v / 2);
            let k = choose|k: nat| v / 2 == pow2(k);
            vstd::arithmetic::power2::lemma_pow2_unfold(k + 1);
            assert(v == pow2(k + 1));
        }
    }
    if is_power_of_two_spec(v) {
        let k = choose|k: nat| v == pow2(k);
        lemma_pow2_count(k);
    }
}

/// A nonzero value has a one bit.
proof fn lemma_bit_count_positive(v: nat)
    requires
        v > 0,
    ensures
        bit_count(v) > 0,
    decreases v,
{
    if v % 2 == 0 {
        lemma_fundamental_div_mod(v as int, 2);
        lemma_bit_count_positive(v / 2);
    }
}

/// Two to a power has one bit set.
proof fn lemma_pow2_count(k: nat)
    ensures
        bit_count(pow2(k)) == 1,
    decreases k,
{
    lemma2_to64();
    if k > 0 {
        lemma_pow2_count((k - 1) as nat);
        vstd::arithmetic::power2::lemma_pow2_unfold(k);
        lemma_pow2_pos((k - 1) as nat);
        lemma_fundamental_div_mod_converse(pow2(k) as int, 2, pow2((k - 1) as nat) as int, 0);
        assert(pow2(k) != 0);
        assert(bit_count(pow2(k)) == pow2(k) % 2 + bit_count(pow2(k) / 2));
    } else {
        assert(pow2(0) == 1);
        assert(bit_count(1) == 1nat % 2 + bit_count(0));
        assert(bit_count(0) == 0);
    }
}

/// Shifting a nonzero value left by `k` adds `k` trailing zeros.
pub proof fn lemma_trailing_zeros_shift(m: nat, k: nat)
    requires
        m > 0,
    ensures
        trailing_zeros_of(pow2(k) * m) == k + trailing_zeros_of(m),
    decreases k,
{
    lemma2_to64();
    lemma_pow2_pos(k);
    if k == 0 {
        assert(pow2(k) * m == m);
    } else {
        lemma_trailing_zeros_shift(m, (k - 1) as nat);
        lemma_halve(0, m, k);
        let x = pow2(k) * m;
        assert(x > 0) by (nonlinear_arith)
            requires
                pow2(k) > 0,
                m > 0,
                x == pow2(k) * m,
        ;
        assert(0 + pow2(k) * m == x);
        assert(trailing_zeros_of(x) == 1 + trailing_zeros_of(x / 2));
    }
}

/// Bits above a nonzero low part do not change its trailing zeros.
pub proof fn lemma_trailing_zeros_low(x: nat, h: nat, k: nat)
    requires
        0 < x < pow2(k),
    ensures
        trailing_zeros_of(x + pow2(k) * h) == trailing_zeros_of(x),
    decreases k,
{
    lemma2_to64();
    if k == 0 {
        assert(false);
    } else {
        lemma_halve(x, h, k);
        let y = x + pow2(k) * h;
        lemma_pow2_pos(k);
        assert(y > 0) by (nonlinear_arith)
            requires
                x > 0,
                pow2(k) > 0,
                y == x + pow2(k) * h,
        ;
        if x % 2 == 0 {
            lemma_fundamental_div_mod(x as int, 2);
            lemma_trailing_zeros_low(x / 2, h, (k - 1) as nat);
        }
    }
}

/// Trailing zeros of a byte that is not zero.
fn byte_trailing_zeros(x: u8) -> (r: u32)
    requires
        x != 0,
    ensures
        r == trailing_zeros_of(x as nat),
        r < 8,
{
    let mut y: u8 = x;
    let mut z: u32 = 0;
    proof {
        lemma2_to64();
        lemma_bit_length_range(x as nat);
        if bit_length(x as nat) > 8 {
            lemma_pow2_strictly_increases(8, (bit_length(x as nat) - 1) as nat);
        }
        assert(bit_length(x as nat) == 1 + bit_length((x / 2) as nat));
    }
    while y % 2 == 0
        invariant
            y > 0,
            z + trailing_zeros_of(y as nat) == trailing_zeros_of(x as nat),
            z + (bit_length(y as nat)) <= 8,
            bit_length(y as nat) >= 1,
        decreases y,
    {
        proof {
            assert(bit_length(y as nat) == 1 + bit_length((y / 2) as nat));
            if y / 2 == 0 {
                assert(false);
            }
        }
        y = y / 2;
        z = z + 1;
    }
    proof {
        assert(trailing_zeros_of(y as nat) == 0);
    }
    z
}

/// One bits of a byte.
fn byte_count_ones(x: u8) -> (r: u32)
    ensures
        r == bit_count(x as nat),
        r <= 8,
{
    let mut y: u8 = x;
    let mut c: u32 = 0;
    proof {
        lemma2_to64();
        lemma_bit_count_bound(x as nat, 8);
    }
    while y != 0
        invariant
            c + bit_count(y as nat) == bit_count(x as nat),
            bit_count(x as nat) <= 8,
        decreases y,
    {
        c = c + (y % 2) as u32;
        y = y / 2;
    }
    c
}

/// Bit length of a byte.
fn byte_bit_length(x: u8) -> (r: u32)
    ensures
        r == bit_length(x as nat),
        r <= 8,
{
    let mut y: u8 = x;
    let mut b: u32 = 0;
    proof {
        lemma2_to64();
        lemma_bit_length_range(x as nat);
        if bit_length(x as nat) > 8 {
            lemma_pow2_strictly_increases(8, (bit_length(x as nat) - 1) as nat);
        }
    }
    while y != 0
        invariant
            b + bit_length(y as nat) == bit_length(x as nat),
            bit_length(x as nat) <= 8,
        decreases y,
    {
        b = b + 1;
        y = y / 2;
    }
    b
}

impl FixedUint {
    /// Number of one bits.
    pub fn count_ones(&self) -> (r: u32)
        requires
            self.wf(),
        ensures
            r == bit_count(self.value()),
    {
        let n = self.limbs.len();
        let ghost s = self.limbs@;
        let mut c: u32 = 0;
        let mut i: usize = n;
        proof {
            assert(s.skip(n as int).len() == 0);
            assert(limbs_value(s.skip(n as int)) == 0);
        }
        while i > 0
            invariant
                i <= n,
                n == s.len(),
                s == self.limbs@,
                n < crate::fixed_uint::MAX_LIMBS,
                c == bit_count(limbs_value(s.skip(i as int))),
                c <= 8 * (n - i),
            decreases i,
        {
            i -= 1;
            let x = self.limbs[i];
            let k = byte_count_ones(x);
            proof {
                lemma_value_first(s.skip(i as int));
                assert(s.skip(i as int).drop_first() =~= s.skip(i as int + 1));
                assert(s.skip(i as int)[0] == x);
                lemma2_to64();
                lemma_bit_count_split(x as nat, limbs_value(s.skip(i as int + 1)), 8);
            }
            c = c + k;
        }
        proof {
            assert(s.skip(0) =~= s);
        }
        c
    }

    /// Number of zero bits within the width.
    pub fn count_zeros(&self) -> (r: u32)
        requires
            self.wf(),
        ensures
            r == self.bits() - bit_count(self.value()),
    {
        let ones = self.count_ones();
        proof {
            self.lemma_in_range();
            lemma_bit_count_bound(self.value(), self.bits());
        }
        (self.limbs.len() as u32) * 8 - ones
    }

    /// Number of bits needed to write the value; zero for zero.
    pub fn bit_length(&self) -> (r: u32)
        requires
            self.wf(),
        ensures
            r == bit_length(self.value()),
            r <= self.bits(),
    {
        let n = self.limbs.len();
        let ghost s = self.limbs@;
        let mut i: usize = n;
        proof {
            self.lemma_in_range();
            assert(s.take(n as int) =~= s);
        }
        while i > 0 && self.limbs[i - 1] == 0
            invariant
                i <= n,
                n == s.len(),
                s == self.limbs@,
                limbs_value(s.take(i as int)) == limbs_value(s),
            decreases i,
        {
            proof {
                lemma_value_take(s, i as int - 1);
                assert(s.take(i as int - 1) == s.take(i as int).take(i as int - 1));
            }
            i -= 1;
        }
        if i == 0 {
            proof {
                assert(s.take(0).len() == 0);
                assert(limbs_value(s.take(0)) == 0);
            }
            return 0;
        }
        let top = self.limbs[i - 1];
        let b = byte_bit_length(top);
        proof {
            let k = (i - 1) as nat;
            lemma_value_take(s, k as int);
            lemma_value_bound(s.take(k as int));
            assert(modulus(k) == pow2(8 * k));
            assert((top as nat) * modulus(k) == modulus(k) * (top as nat)) by (nonlinear_arith);
            lemma_bit_length_split(limbs_value(s.take(k as int)), top as nat, 8 * k);
        }
        ((i - 1) as u32) * 8 + b
    }

    /// Number of zero bits below the lowest one bit; the full width for zero.
    pub fn trailing_zeros(&self) -> (r: u32)
        requires
            self.wf(),
        ensures
            self.value() == 0 ==> r == self.bits(),
            self.value() != 0 ==> r == trailing_zeros_of(self.value()),
    {
        let n = self.limbs.len();
        let ghost s = self.limbs@;
        let mut i: usize = 0;
        while i < n && self.limbs[i] == 0
            invariant
                i <= n,
                n == s.len(),
                s == self.limbs@,
                forall|j: int| 0 <= j < i ==> s[j] == 0,
            decreases n - i,
        {
            i += 1;
        }
        if i == n {
            proof {
                lemma_value_zeros(s);
            }
            return (n as u32) * 8;
        }
        let x = self.limbs[i];
        let z = byte_trailing_zeros(x);
        proof {
            let ii = i as int;
            lemma_value_split(s, ii);
            lemma_value_zeros(s.take(ii));
            lemma_value_first(s.skip(ii));
            assert(s.skip(ii)[0] == x);
            assert(s.skip(ii).drop_first() =~= s.skip(ii + 1));
            let h = limbs_value(s.skip(ii + 1));
            let m = limbs_value(s.skip(ii));
            lemma2_to64();
            assert(256 * h == pow2(8) * h);
            lemma_trailing_zeros_low(x as nat, h, 8);
            assert(m > 0);
            assert(modulus(i as nat) == pow2(8 * (i as nat)));
            lemma_trailing_zeros_shift(m, 8 * (i as nat));
            assert(limbs_value(s) == modulus(i as nat) * m);
            lemma_modulus_step(i as nat);
            assert(modulus(i as nat) * m > 0) by (nonlinear_arith)
                requires
                    modulus(i as nat) > 0,
                    m > 0,
            ;
        }
        (i as u32) * 8 + z
    }

    /// Number of zero bits above the highest one bit; the full width for zero.
    pub fn leading_zeros(&self) -> (r: u32)
        requires
            self.wf(),
        ensures
            r == self.bits() - bit_length(self.value()),
    {
        let b = self.bit_length();
        (self.limbs.len() as u32) * 8 - b
    }

    /// Whether the value is two to some power.
    pub fn is_power_of_two(&self) -> (r: bool)
        requires
            self.wf(),
        ensures
            r == is_power_of_two_spec(self.value()),
    {
        proof {
            lemma_power_of_two_count(self.value());
        }
        self.count_ones() == 1
    }

    /// The smallest power of two at or above the value, or `None` when it does not fit.
    pub fn checked_next_power_of_two(&self) -> (r: Option<FixedUint>)
        requires
            self.wf(),
        ensures
            r.is_none() == (next_power_exp(self.value()) >= self.bits()),
            r.is_some() ==> r.unwrap().wf() && r.unwrap().same_width(self) && r.unwrap().value()
                == pow2(next_power_exp(self.value())),
    {
        let n = self.limbs.len();
        let one = FixedUint::from_u8_of(n, 1);
        proof {
            lemma2_to64();
            self.lemma_in_range();
            lemma_modulus_step(n as nat);
            crate::arith::lemma_bound_monotone(1, n as nat);
            lemma_modulus_step(0);
        }
        if self.lt(&FixedUint::from_u8_of(n, 2)) {
            proof {
                assert(pow2(0) == 1);
                lemma_pow2_pos(self.bits());
                assert(modulus(n as nat) >= 256);
            }
            return Some(one);
        }
        let (w, _) = self.overflowing_sub(&one);
        let e = w.bit_length();
        if (e as u64) >= (n as u64) * 8 {
            return None;
        }
        let p = one.shl(e as u128);
        proof {
            lemma_pow2_strictly_increases(e as nat, self.bits());
            vstd::arithmetic::div_mod::lemma_small_mod(pow2(e as nat), self.bound());
        }
        Some(p)
    }
}

/// The exponent of `next_power_exp` names the smallest power of two at or above `v`.
pub proof fn lemma_next_power_exp(v: nat)
    ensures
        pow2(next_power_exp(v)) >= v,
        next_power_exp(v) > 0 ==> pow2((next_power_exp(v) - 1) as nat) < v,
{
    lemma2_to64();
    if v > 1 {
        lemma_bit_length_range((v - 1) as nat);
    }
}

} // verus!
