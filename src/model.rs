//! The mathematical model: a little-endian sequence of byte-sized limbs read as a natural number.
use vstd::arithmetic::div_mod::*;
use vstd::arithmetic::mul::*;
use vstd::arithmetic::power2::*;
use vstd::prelude::*;

verus! {

/// Number of bits in one limb.
pub const LIMB_BITS: u64 = 8;

/// The natural number denoted by `s`, limb 0 least significant.
pub open spec fn limbs_value(s: Seq<u8>) -> nat
    decreases s.len(),
{
    if s.len() == 0 {
        0
    } else {
        limbs_value(s.drop_last()) + (s.last() as nat) * pow2(8 * (s.len() - 1) as nat)
    }
}

/// The exclusive upper bound of a value held in `n` limbs.
pub open spec fn modulus(n: nat) -> nat {
    pow2(8 * n)
}

/// Adding one more limb on top multiplies the bound by 256.
pub proof fn lemma_modulus_step(n: nat)
    ensures
        modulus(n + 1) == modulus(n) * 256,
        modulus(0) == 1,
        modulus(1) == 256,
        modulus(n) > 0,
{
    lemma_pow2_adds(8 * n, 8);
    lemma2_to64();
    lemma_pow2_pos(8 * n);
    assert(8 * (n + 1) == 8 * n + 8) by (nonlinear_arith);
}

/// A value of `n` limbs is below `modulus(n)`.
pub proof fn lemma_value_bound(s: Seq<u8>)
    ensures
        limbs_value(s) < modulus(s.len()),
    decreases s.len(),
{
    lemma_modulus_step(0);
    if s.len() > 0 {
        let k = (s.len() - 1) as nat;
        lemma_value_bound(s.drop_last());
        lemma_modulus_step(k);
        let m = modulus(k);
        assert(limbs_value(s.drop_last()) < m);
        assert((s.last() as nat) * m <= 255 * m) by (nonlinear_arith)
            requires s.last() <= 255;
    }
}

/// The value of a prefix grows by one limb at a time.
pub proof fn lemma_value_take(s: Seq<u8>, i: int)
    requires
        0 <= i < s.len(),
    ensures
        limbs_value(s.take(i + 1)) == limbs_value(s.take(i)) + (s[i] as nat) * modulus(i as nat),
{
    assert(s.take(i + 1).drop_last() =~= s.take(i));
}

/// Splitting off the lowest limb.
pub proof fn lemma_value_first(s: Seq<u8>)
    requires
        s.len() > 0,
    ensures
        limbs_value(s) == (s[0] as nat) + 256 * limbs_value(s.drop_first()),
    decreases s.len(),
{
    lemma_modulus_step(0);
    if s.len() > 1 {
        let t = s.drop_last();
        lemma_value_first(t);
        assert(t.drop_first() =~= s.drop_first().drop_last());
        let k = (s.len() - 2) as nat;
        lemma_modulus_step(k);
        assert(s[0] == t[0]);
        assert(s.drop_first().last() == s.last());
        assert(limbs_value(s) == limbs_value(t) + (s.last() as nat) * modulus(k + 1));
        assert(limbs_value(s.drop_first()) == limbs_value(t.drop_first()) + (s.last() as nat)
            * modulus(k));
        assert(256 * limbs_value(s.drop_first()) == 256 * limbs_value(t.drop_first()) + 256 * (
        (s.last() as nat) * modulus(k))) by (nonlinear_arith)
            requires
                limbs_value(s.drop_first()) == limbs_value(t.drop_first()) + (s.last() as nat)
                    * modulus(k),
        ;
        assert(256 * ((s.last() as nat) * modulus(k)) == (s.last() as nat) * modulus(k + 1))
            by (nonlinear_arith)
            requires
                modulus(k + 1) == modulus(k) * 256,
        ;
    } else {
        assert(s.drop_first().len() == 0);
        assert(s.drop_last().len() == 0);
        assert(limbs_value(s.drop_first()) == 0);
        assert(limbs_value(s.drop_last()) == 0);
        assert(pow2(0) == 1) by {
            lemma2_to64();
        }
        assert(limbs_value(s) == (s.last() as nat) * pow2(0));
    }
}

/// Splitting at any limb index.
pub proof fn lemma_value_split(s: Seq<u8>, i: int)
    requires
        0 <= i <= s.len(),
    ensures
        limbs_value(s) == limbs_value(s.take(i)) + modulus(i as nat) * limbs_value(s.skip(i)),
    decreases s.len() - i,
{
    lemma_modulus_step(i as nat);
    if i == s.len() {
        assert(s.take(i) =~= s);
        assert(s.skip(i).len() == 0);
        assert(limbs_value(s.skip(i)) == 0);
        assert(modulus(i as nat) * limbs_value(s.skip(i)) == 0) by {
            lemma_mul_by_zero_is_zero(modulus(i as nat) as int);
        }
        assert(limbs_value(s.take(i)) == limbs_value(s));
    } else {
        lemma_value_split(s, i + 1);
        lemma_value_take(s, i);
        lemma_value_first(s.skip(i));
        assert(s.skip(i).drop_first() =~= s.skip(i + 1));
        let a = limbs_value(s.take(i));
        let m = modulus(i as nat);
        let h = limbs_value(s.skip(i + 1));
        let d = s[i] as nat;
        assert(s.skip(i)[0] == s[i]);
        assert(modulus((i + 1) as nat) == m * 256);
        assert(limbs_value(s.skip(i)) == d + 256 * h);
        assert(m * (d + 256 * h) == d * m + (m * 256) * h) by (nonlinear_arith);
        assert(limbs_value(s) == limbs_value(s.take(i + 1)) + modulus((i + 1) as nat) * h);
        assert(limbs_value(s.take(i + 1)) == a + d * m);
        assert(limbs_value(s) == a + d * m + (m * 256) * h);
        assert(m * limbs_value(s.skip(i)) == m * (d + 256 * h));
    }
}

/// All-zero limbs denote zero.
pub proof fn lemma_value_zeros(s: Seq<u8>)
    requires
        forall|i: int| 0 <= i < s.len() ==> s[i] == 0,
    ensures
        limbs_value(s) == 0,
    decreases s.len(),
{
    if s.len() > 0 {
        lemma_value_zeros(s.drop_last());
    }
}

/// All limbs at 255 denote the largest value.
pub proof fn lemma_value_ones(s: Seq<u8>)
    requires
        forall|i: int| 0 <= i < s.len() ==> s[i] == 255,
    ensures
        limbs_value(s) == modulus(s.len()) - 1,
    decreases s.len(),
{
    lemma_modulus_step(0);
    if s.len() > 0 {
        let k = (s.len() - 1) as nat;
        lemma_value_ones(s.drop_last());
        lemma_modulus_step(k);
    }
}

/// Limb-wise complements add up to the largest value.
pub proof fn lemma_value_complement(s: Seq<u8>, t: Seq<u8>)
    requires
        s.len() == t.len(),
        forall|i: int| 0 <= i < s.len() ==> s[i] + t[i] == 255,
    ensures
        limbs_value(s) + limbs_value(t) == modulus(s.len()) - 1,
    decreases s.len(),
{
    lemma_modulus_step(0);
    if s.len() > 0 {
        let k = (s.len() - 1) as nat;
        lemma_value_complement(s.drop_last(), t.drop_last());
        lemma_modulus_step(k);
        let m = modulus(k);
        assert((s.last() as nat) * m + (t.last() as nat) * m == 255 * m) by (nonlinear_arith)
            requires
                s.last() + t.last() == 255,
        ;
    }
}

/// Limb sequences of equal length are equal exactly when their values are.
pub proof fn lemma_value_injective(s: Seq<u8>, t: Seq<u8>)
    requires
        s.len() == t.len(),
        limbs_value(s) == limbs_value(t),
    ensures
        s == t,
    decreases s.len(),
{
    if s.len() > 0 {
        lemma_value_first(s);
        lemma_value_first(t);
        let a = limbs_value(s.drop_first());
        let b = limbs_value(t.drop_first());
        lemma_fundamental_div_mod_converse(((s[0] as nat) + 256 * a) as int, 256, a as int, s[0] as int);
        lemma_fundamental_div_mod_converse(((t[0] as nat) + 256 * b) as int, 256, b as int, t[0] as int);
        lemma_value_injective(s.drop_first(), t.drop_first());
        assert(s =~= t) by {
            assert forall|i: int| 0 <= i < s.len() implies s[i] == t[i] by {
                if i > 0 {
                    assert(s[i] == s.drop_first()[i - 1]);
                    assert(t[i] == t.drop_first()[i - 1]);
                }
            }
        }
    }
}

/// Appending a limb on top adds it at the next weight.
pub proof fn lemma_value_push(s: Seq<u8>, x: u8)
    ensures
        limbs_value(s.push(x)) == limbs_value(s) + (x as nat) * modulus(s.len()),
{
    assert(s.push(x).drop_last() =~= s);
}

/// Difference of two values taken modulo `m`, for `a` and `b` below `m`.
pub open spec fn wrapping_sub_spec(a: nat, b: nat, m: nat) -> nat {
    if a >= b {
        (a - b) as nat
    } else {
        (a + m - b) as nat
    }
}

/// A value below the bound reduced by it is itself; used for exact results.
pub proof fn lemma_mod_exact(x: nat, q: nat, r: nat, m: nat)
    requires
        m > 0,
        r < m,
        x == q * m + r,
    ensures
        x % m == r,
        x / m == q,
{
    lemma_fundamental_div_mod_converse(x as int, m as int, q as int, r as int);
}

} // verus!
