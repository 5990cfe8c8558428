//! Multiplication, division with remainder and exponentiation, built on the carry primitives.
use crate::fixed_uint::{FixedUint, MAX_LIMBS};
use crate::model::{
    lemma_mod_exact, lemma_modulus_step, lemma_value_bound, lemma_value_first, lemma_value_push,
    lemma_value_split, limbs_value, modulus,
};
use vstd::arithmetic::div_mod::{lemma_add_mod_noop, lemma_mul_mod_noop_left, lemma_small_mod};
use vstd::arithmetic::power::{lemma_pow0, lemma_pow1, lemma_pow_adds, pow};
use vstd::prelude::*;

verus! {

/// One step of accumulating a product or power modulo `m` with a sticky overflow flag:
/// when `t = x * y + z` is built from the reduced `v = x % m`, the reduced pieces add up to
/// `t % m`, and the flags together say whether `t` left the range.
pub proof fn lemma_wrap_step(x: nat, y: nat, z: nat, m: nat, of: bool, o1: bool, o2: bool, o3: bool)
    requires
        m > 0,
        of == (x >= m),
        o1 == ((x % m) * y >= m),
        o2 == (z >= m),
        o3 == (((x % m) * y) % m + z % m >= m),
        y >= 1 || x < m,
    ensures
        (((x % m) * y) % m + z % m) % m == (x * y + z) % m,
        (of || o1 || o2 || o3) == (x * y + z >= m),
{
    lemma_mul_mod_noop_left(x as int, y as int, m as int);
    lemma_add_mod_noop((x * y) as int, z as int, m as int);
    lemma_add_mod_noop(((x % m) * y) as int, z as int, m as int);
    if x >= m {
        assert(x * y >= x) by (nonlinear_arith)
            requires
                y >= 1,
        ;
    } else {
        lemma_small_mod(x, m);
        if !o1 {
            lemma_small_mod(x * y, m);
        }
        if !o2 {
            lemma_small_mod(z, m);
        }
    }
}

impl FixedUint {
    /// Schoolbook multiplication, one multiplier limb at a time from the top; the flag
    /// says whether the exact product left the width.
    pub fn overflowing_mul(&self, rhs: &FixedUint) -> (r: (FixedUint, bool))
        requires
            self.wf(),
            self.same_width(rhs),
        ensures
            r.0.wf(),
            r.0.same_width(self),
            r.0.value() == (self.value() * rhs.value()) % self.bound(),
            r.1 == (self.value() * rhs.value() >= self.bound()),
    {
        let n = self.limbs.len();
        let ghost m = self.bound();
        let ghost a = self.value();
        let ghost b = rhs.limbs@;
        let mut acc = FixedUint::zero_of(n);
        let mut of = false;
        let mut j: usize = n;
        proof {
            self.lemma_in_range();
            assert(b.skip(n as int).len() == 0);
            assert(limbs_value(b.skip(n as int)) == 0);
            assert(a * 0 == 0);
            lemma_small_mod(0, m);
        }
        while j > 0
            invariant
                j <= n,
                n == self.limbs@.len(),
                b == rhs.limbs@,
                b.len() == n,
                m == self.bound(),
                m > 0,
                a == self.value(),
                acc.wf(),
                acc.same_width(self),
                acc.value() == (a * limbs_value(b.skip(j as int))) % m,
                of == (a * limbs_value(b.skip(j as int)) >= m),
            decreases j,
        {
            j -= 1;
            let d = rhs.limbs[j];
            let (s, o1) = acc.overflowing_mul_unit(256);
            let (p, o2) = self.overflowing_mul_unit(d as u32);
            let (t, o3) = s.overflowing_add(&p);
            proof {
                let x = a * limbs_value(b.skip(j as int + 1));
                lemma_value_first(b.skip(j as int));
                assert(b.skip(j as int).drop_first() =~= b.skip(j as int + 1));
                assert(b.skip(j as int)[0] == d);
                s.lemma_in_range();
                p.lemma_in_range();
                lemma_small_mod(s.value(), m);
                lemma_small_mod(p.value(), m);
                lemma_wrap_step(x, 256, (a * d) as nat, m, of, o1, o2, o3);
                assert(a * limbs_value(b.skip(j as int)) == x * 256 + a * d) by (nonlinear_arith)
                    requires
                        limbs_value(b.skip(j as int)) == d + 256 * limbs_value(
                            b.skip(j as int + 1),
                        ),
                        x == a * limbs_value(b.skip(j as int + 1)),
                ;
            }
            acc = t;
            of = of || o1 || o2 || o3;
        }
        proof {
            assert(b.skip(0) =~= b);
        }
        (acc, of)
    }

    /// The low `n` limbs of a value known to fit in them.
    fn truncate(&self, n: usize) -> (r: FixedUint)
        requires
            1 <= n <= self.width(),
            n <= MAX_LIMBS,
            self.value() < modulus(n as nat),
        ensures
            r.fits(),
            r.width() == n,
            r.value() == self.value(),
    {
        let mut limbs: Vec<u8> = Vec::new();
        let mut i: usize = 0;
        while i < n
            invariant
                i <= n,
                n <= self.limbs@.len(),
                limbs@ == self.limbs@.take(i as int),
            decreases n - i,
        {
            limbs.push(self.limbs[i]);
            i += 1;
            proof {
                assert(limbs@ =~= self.limbs@.take(i as int));
            }
        }
        proof {
            lemma_value_split(self.limbs@, n as int);
            lemma_value_bound(self.limbs@.take(n as int));
            let h = limbs_value(self.limbs@.skip(n as int));
            let mm = modulus(n as nat);
            if h > 0 {
                assert(mm * h >= mm) by (nonlinear_arith)
                    requires
                        h > 0,
                ;
            }
            assert(h == 0);
            assert(mm * h == 0) by (nonlinear_arith)
                requires
                    h == 0,
            ;
        }
        FixedUint { limbs }
    }

    /// The same value with one more limb on top.
    fn widen(&self) -> (r: FixedUint)
        requires
            self.wf(),
        ensures
            r.fits(),
            r.width() == self.width() + 1,
            r.value() == self.value(),
    {
        let mut limbs = self.limbs.clone();
        proof {
            lemma_value_push(limbs@, 0);
        }
        limbs.push(0);
        FixedUint { limbs }
    }

    /// Long division: quotient and remainder, one dividend limb at a time from the top.
    /// The divisor must not be zero.
    pub fn div_rem(&self, rhs: &FixedUint) -> (r: (FixedUint, FixedUint))
        requires
            self.wf(),
            self.same_width(rhs),
            rhs.value() > 0,
        ensures
            r.0.wf(),
            r.1.wf(),
            r.0.same_width(self),
            r.1.same_width(self),
            r.0.value() == self.value() / rhs.value(),
            r.1.value() == self.value() % rhs.value(),
    {
        let n = self.limbs.len();
        let ghost a = self.limbs@;
        let ghost dv = rhs.value();
        let dext = rhs.widen();
        let mut rem = FixedUint::zero_of(n + 1);
        let mut q = FixedUint::zero_of(n);
        let mut i: usize = n;
        proof {
            assert(a.skip(n as int).len() == 0);
            assert(limbs_value(a.skip(n as int)) == 0);
            assert(q.limbs@.skip(n as int).len() == 0);
            assert(limbs_value(q.limbs@.skip(n as int)) == 0);
            assert(0 * dv == 0);
            rhs.lemma_in_range();
        }
        while i > 0
            invariant
                i <= n,
                n == a.len(),
                n + 1 <= MAX_LIMBS,
                a == self.limbs@,
                dv == rhs.value(),
                dv > 0,
                dv < modulus(n as nat),
                dext.fits(),
                dext.width() == n + 1,
                dext.value() == dv,
                rem.fits(),
                rem.width() == n + 1,
                rem.value() < dv,
                q.wf(),
                q.width() == n,
                limbs_value(a.skip(i as int)) == limbs_value(q.limbs@.skip(i as int)) * dv
                    + rem.value(),
            decreases i,
        {
            i -= 1;
            let ghost qh = limbs_value(q.limbs@.skip(i as int + 1));
            let ghost r0 = rem.value();
            let ghost ai = a[i as int];
            proof {
                lemma_modulus_step(n as nat);
                assert(r0 * 256 + ai < dv * 256) by (nonlinear_arith)
                    requires
                        r0 < dv,
                        ai < 256,
                ;
                assert(dv * 256 <= modulus(n as nat) * 256) by (nonlinear_arith)
                    requires
                        dv < modulus(n as nat),
                ;
            }
            let (r1, _) = rem.overflowing_mul_unit(256);
            let digit = FixedUint::from_u8_of(n + 1, self.limbs[i]);
            proof {
                lemma_small_mod(r0 * 256, modulus((n + 1) as nat));
            }
            let (r2, _) = r1.overflowing_add(&digit);
            proof {
                lemma_small_mod((r0 * 256 + ai) as nat, modulus((n + 1) as nat));
            }
            let ghost t = r2.value();
            let mut cur = r2;
            let mut k: u16 = 0;
            while !cur.lt(&dext)
                invariant
                    cur.fits(),
                    cur.width() == n + 1,
                    dext.fits(),
                    dext.width() == n + 1,
                    dext.value() == dv,
                    dv > 0,
                    t < dv * 256,
                    t == cur.value() + k * dv,
                    k < 256,
                decreases cur.value(),
            {
                let (c2, _) = cur.overflowing_sub(&dext);
                proof {
                    assert((k + 1) * dv <= t) by (nonlinear_arith)
                        requires
                            t == cur.value() + k * dv,
                            cur.value() >= dv,
                    ;
                    assert(k + 1 < 256) by (nonlinear_arith)
                        requires
                            (k + 1) * dv <= t,
                            t < dv * 256,
                    ;
                    assert((k + 1) * dv == k * dv + dv) by (nonlinear_arith);
                }
                cur = c2;
                k = k + 1;
            }
            let ghost qold = q.limbs@;
            q.limbs.set(i, k as u8);
            proof {
                assert(q.limbs@.skip(i as int).drop_first() =~= qold.skip(i as int + 1));
                assert(q.limbs@.skip(i as int)[0] == k as u8);
                lemma_value_first(q.limbs@.skip(i as int));
                lemma_value_first(a.skip(i as int));
                assert(a.skip(i as int).drop_first() =~= a.skip(i as int + 1));
                assert(a.skip(i as int)[0] == ai);
                assert(limbs_value(a.skip(i as int)) == ai + 256 * (qh * dv + r0));
                assert(ai + 256 * (qh * dv + r0) == (k + 256 * qh) * dv + cur.value())
                    by (nonlinear_arith)
                    requires
                        t == r0 * 256 + ai,
                        t == cur.value() + k * dv,
                ;
            }
            rem = cur;
        }
        proof {
            assert(a.skip(0) =~= a);
            assert(q.limbs@.skip(0) =~= q.limbs@);
            lemma_mod_exact(limbs_value(a), q.value(), rem.value(), dv);
        }
        let r = rem.truncate(n);
        (q, r)
    }

    /// Divides by a small nonzero divisor, one limb at a time from the top.
    pub fn div_rem_unit(&self, u: u32) -> (r: (FixedUint, u32))
        requires
            self.fits(),
            u > 0,
        ensures
            r.0.fits(),
            r.0.same_width(self),
            r.0.value() == self.value() / (u as nat),
            r.1 == self.value() % (u as nat),
    {
        let n = self.limbs.len();
        let ghost a = self.limbs@;
        let mut q = FixedUint::zero_of(n);
        let mut rem: u64 = 0;
        let mut i: usize = n;
        proof {
            assert(a.skip(n as int).len() == 0);
            assert(limbs_value(a.skip(n as int)) == 0);
            assert(q.limbs@.skip(n as int).len() == 0);
            assert(limbs_value(q.limbs@.skip(n as int)) == 0);
            assert(0 * (u as nat) == 0);
        }
        while i > 0
            invariant
                i <= n,
                n == a.len(),
                a == self.limbs@,
                u > 0,
                rem < u,
                q.fits(),
                q.width() == n,
                limbs_value(a.skip(i as int)) == limbs_value(q.limbs@.skip(i as int)) * (u as nat)
                    + rem,
            decreases i,
        {
            i -= 1;
            let ghost qh = limbs_value(q.limbs@.skip(i as int + 1));
            let ghost r0 = rem;
            let ai = self.limbs[i] as u64;
            assert(rem * 256 + ai < (u as u64) * 256) by (nonlinear_arith)
                requires
                    rem < u,
                    ai < 256,
            ;
            let t: u64 = rem * 256 + ai;
            let k: u64 = t / (u as u64);
            proof {
                assert(k < 256) by (nonlinear_arith)
                    requires
                        k == t / (u as u64),
                        t < (u as u64) * 256,
                        u > 0,
                ;
            }
            let nr: u64 = t % (u as u64);
            let ghost qold = q.limbs@;
            q.limbs.set(i, k as u8);
            proof {
                vstd::arithmetic::div_mod::lemma_fundamental_div_mod(t as int, u as int);
                assert(q.limbs@.skip(i as int).drop_first() =~= qold.skip(i as int + 1));
                assert(q.limbs@.skip(i as int)[0] == k as u8);
                lemma_value_first(q.limbs@.skip(i as int));
                lemma_value_first(a.skip(i as int));
                assert(a.skip(i as int).drop_first() =~= a.skip(i as int + 1));
                assert(a.skip(i as int)[0] == ai);
                assert(limbs_value(a.skip(i as int)) == ai + 256 * (qh * (u as nat) + r0));
                assert(ai + 256 * (qh * (u as nat) + r0) == (k + 256 * qh) * (u as nat) + nr)
                    by (nonlinear_arith)
                    requires
                        t == r0 * 256 + ai,
                        t == k * u + nr,
                ;
            }
            rem = nr;
        }
        proof {
            assert(a.skip(0) =~= a);
            assert(q.limbs@.skip(0) =~= q.limbs@);
            lemma_mod_exact(limbs_value(a), q.value(), rem as nat, u as nat);
        }
        (q, rem as u32)
    }

    /// Left-to-right square-and-multiply; the flag says whether the exact power left the
    /// width (every intermediate is a factor of it, so any overflow along the way counts).
    pub fn overflowing_pow(&self, exp: u32) -> (r: (FixedUint, bool))
        requires
            self.wf(),
        ensures
            r.0.wf(),
            r.0.same_width(self),
            r.0.value() == (pow(self.value() as int, exp as nat) as nat) % self.bound(),
            r.1 == (pow(self.value() as int, exp as nat) >= self.bound()),
    {
        let n = self.limbs.len();
        let ghost m = self.bound();
        let ghost a = self.value();
        let e: u64 = exp as u64;
        let mut acc = FixedUint::from_u8_of(n, 1);
        let mut of = false;
        let mut s: u64 = 32;
        proof {
            self.lemma_in_range();
            lemma_pow0(a as int);
            lemma_modulus_step(self.width());
            lemma_modulus_step(0);
            assert(modulus(self.width()) >= modulus(1)) by {
                lemma_bound_monotone(1, self.width());
            }
            lemma_small_mod(1, m);
            assert(e >> 32u64 == 0) by (bit_vector)
                requires
                    e <= 0xffff_ffff,
            ;
        }
        while s > 0
            invariant
                s <= 32,
                n == self.limbs@.len(),
                m == self.bound(),
                m > 1,
                a == self.value(),
                a < m,
                e == exp,
                acc.wf(),
                acc.same_width(self),
                acc.value() == (pow(a as int, (e >> s) as nat) as nat) % m,
                of == (pow(a as int, (e >> s) as nat) >= m),
            decreases s,
        {
            s -= 1;
            let bit: u64 = (e >> s) & 1;
            let ghost p = (e >> (s + 1)) as nat;
            proof {
                assert((e >> s) == 2 * (e >> (s + 1)) + ((e >> s) & 1)) by (bit_vector)
                    requires
                        s < 32,
                        e <= 0xffff_ffff,
                ;
                lemma_pow_nonneg(a, p);
            }
            let ghost x = pow(a as int, p) as nat;
            let (sq, o1) = acc.overflowing_mul(&acc);
            proof {
                lemma_pow_adds(a as int, p, p);
                sq.lemma_in_range();
                lemma_small_mod(sq.value(), m);
                lemma_small_mod(0, m);
                lemma_square_step(x, m, of, o1);
            }
            let ghost y = pow(a as int, 2 * p) as nat;
            if bit == 1 {
                let (pr, o2) = sq.overflowing_mul(self);
                proof {
                    lemma_pow_adds(a as int, 2 * p, 1);
                    lemma_pow1(a as int);
                    lemma_pow_nonneg(a, 2 * p);
                    pr.lemma_in_range();
                    lemma_small_mod(pr.value(), m);
                    lemma_small_mod(a, m);
                    lemma_small_mod(0, m);
                    if y >= m {
                        if a == 0 {
                            lemma_zero_pow(2 * p);
                        }
                        assert(y * a >= y) by (nonlinear_arith)
                            requires
                                a >= 1 || y == 0,
                        ;
                    }
                    lemma_wrap_step(y, a, 0, m, of || o1, o2, false, false);
                    assert(y * a == pow(a as int, 2 * p + 1));
                }
                acc = pr;
                of = of || o1 || o2;
            } else {
                proof {
                    assert(bit <= 1) by (bit_vector)
                        requires
                            bit == (e >> s) & 1,
                    ;
                    assert((e >> s) as nat == 2 * p);
                }
                acc = sq;
                of = of || o1;
            }
        }
        proof {
            assert(e >> 0u64 == e) by (bit_vector);
        }
        (acc, of)
    }
}

/// A wider bound is larger.
pub proof fn lemma_bound_monotone(i: nat, j: nat)
    requires
        i <= j,
    ensures
        modulus(i) <= modulus(j),
    decreases j - i,
{
    if i < j {
        lemma_bound_monotone(i, (j - 1) as nat);
        lemma_modulus_step((j - 1) as nat);
    }
}

/// Powers of a natural number are natural numbers.
pub proof fn lemma_pow_nonneg(a: nat, e: nat)
    ensures
        pow(a as int, e) >= 0,
    decreases e,
{
    reveal(pow);
    if e > 0 {
        lemma_pow_nonneg(a, (e - 1) as nat);
        assert(pow(a as int, e) == a * pow(a as int, (e - 1) as nat));
        assert(a * pow(a as int, (e - 1) as nat) >= 0) by (nonlinear_arith)
            requires
                pow(a as int, (e - 1) as nat) >= 0,
        ;
    }
}

/// Zero to a positive power is zero.
pub proof fn lemma_zero_pow(e: nat)
    ensures
        e > 0 ==> pow(0, e) == 0,
        e == 0 ==> pow(0, e) == 1,
{
    reveal(pow);
    if e > 0 {
        assert(pow(0, e) == 0 * pow(0, (e - 1) as nat));
    }
}

/// Squaring a reduced value reduces like squaring the unreduced one, and the sticky flag
/// tracks whether the exact square left the range.
pub proof fn lemma_square_step(x: nat, m: nat, of: bool, o1: bool)
    requires
        m > 1,
        of == (x >= m),
        o1 == ((x % m) * (x % m) >= m),
    ensures
        ((x % m) * (x % m)) % m == (x * x) % m,
        (of || o1) == (x * x >= m),
{
    vstd::arithmetic::div_mod::lemma_mul_mod_noop_right((x % m) as int, x as int, m as int);
    lemma_mul_mod_noop_left(x as int, x as int, m as int);
    if x >= m {
        assert(x * x >= x) by (nonlinear_arith)
            requires
                x >= m,
                m > 1,
        ;
    } else {
        lemma_small_mod(x, m);
    }
}

} // verus!
