//! Properties that hold across several operations, stated over the models that the
//! operations' contracts use.
use crate::bits::{rotl_spec, rotr_spec};
use crate::bytes::{lemma_reversed_twice, ne_image, reversed};
use crate::error::FromStrError;
use crate::fixed_uint::FixedUint;
use crate::model::{lemma_value_injective, modulus};
use crate::policy::{checked_add_spec, overflowing_add_spec, saturating_add_spec};
use crate::radix::{ascii_chars, lemma_parse_to_digits, parse_spec, supported_radix, to_digits};
use vstd::arithmetic::div_mod::{lemma_add_mod_noop, lemma_mod_multiples_basic, lemma_small_mod};
use vstd::arithmetic::power2::pow2;
use vstd::prelude::*;
use vstd::string::StringSliceAdditionalSpecFns;

verus! {

/// Byte images read back to the value: reversing the big-endian image restores the limbs,
/// and the native image read back in the same host order restores them too.
pub proof fn law_bytes_round_trip(v: &FixedUint)
    requires
        v.wf(),
    ensures
        reversed(reversed(v.limbs@)) == v.limbs@,
        ne_image(ne_image(v.limbs@, true), true) == v.limbs@,
        ne_image(ne_image(v.limbs@, false), false) == v.limbs@,
{
    lemma_reversed_twice(v.limbs@);
}

/// The digits of a value in any supported radix and either letter case parse back to it.
pub proof fn law_text_round_trip(v: &FixedUint, radix: nat, upper: bool)
    requires
        v.wf(),
        supported_radix(radix),
    ensures
        parse_spec(to_digits(v.value(), radix, upper), radix, v.bound()) == Ok::<
            nat,
            FromStrError,
        >(v.value()),
{
    v.lemma_in_range();
    lemma_parse_to_digits(v.value(), radix, v.bound(), upper);
}

/// Text made of ASCII bytes gives those bytes back as its UTF-8 encoding, so formatted
/// text can be handed to the parsers unchanged.
pub proof fn law_ascii_text_bytes(s: &str, b: Seq<u8>)
    requires
        s@ == ascii_chars(b),
        forall|i: int| 0 <= i < b.len() ==> b[i] < 128,
    ensures
        s.spec_bytes() == b,
{
    assert(vstd::string::is_ascii(s)) by {
        assert forall|i: int| 0 <= i < s@.len() implies '\0' <= #[trigger] s@[i] <= '\u{7f}' by {
            assert(s@[i] == b[i] as char);
        }
    }
    vstd::string::is_ascii_spec_bytes(s);
    assert(s.spec_bytes() =~= b) by {
        assert forall|i: int| 0 <= i < b.len() implies s.spec_bytes()[i] == b[i] by {
            assert(s@[i] == b[i] as char);
        }
    }
}

/// Text that a formatter returns for a value, handed to the parser of the same radix,
/// gives the value back.
pub proof fn law_string_round_trip(v: &FixedUint, radix: nat, upper: bool, s: &str)
    requires
        v.wf(),
        supported_radix(radix),
        s@ == ascii_chars(to_digits(v.value(), radix, upper)),
    ensures
        parse_spec(s.spec_bytes(), radix, v.bound()) == Ok::<nat, FromStrError>(v.value()),
{
    let d = to_digits(v.value(), radix, upper);
    crate::radix::lemma_to_digits(v.value(), radix, upper);
    assert forall|i: int| 0 <= i < d.len() implies d[i] < 128 by {
        assert(crate::radix::is_digit(d[i], radix));
    }
    law_ascii_text_bytes(s, d);
    law_text_round_trip(v, radix, upper);
}

/// Addition is commutative, flag included.
pub proof fn law_add_commutative(a: &FixedUint, b: &FixedUint)
    requires
        a.wf(),
        a.same_width(b),
    ensures
        overflowing_add_spec(a.value(), b.value(), a.bound()) == overflowing_add_spec(
            b.value(),
            a.value(),
            a.bound(),
        ),
{
}

/// Addition is associative on the wrapped values, and when no sum of the operands
/// overflows neither grouping reports an overflow.
pub proof fn law_add_associative(a: &FixedUint, b: &FixedUint, c: &FixedUint)
    requires
        a.wf(),
        a.same_width(b),
        a.same_width(c),
    ensures
        overflowing_add_spec(
            overflowing_add_spec(a.value(), b.value(), a.bound()).0,
            c.value(),
            a.bound(),
        ).0 == overflowing_add_spec(
            a.value(),
            overflowing_add_spec(b.value(), c.value(), a.bound()).0,
            a.bound(),
        ).0,
        a.value() + b.value() + c.value() < a.bound() ==> !overflowing_add_spec(
            a.value(),
            b.value(),
            a.bound(),
        ).1 && !overflowing_add_spec(
            overflowing_add_spec(a.value(), b.value(), a.bound()).0,
            c.value(),
            a.bound(),
        ).1 && !overflowing_add_spec(b.value(), c.value(), a.bound()).1 && !overflowing_add_spec(
            a.value(),
            overflowing_add_spec(b.value(), c.value(), a.bound()).0,
            a.bound(),
        ).1,
{
    let m = a.bound() as int;
    let (x, y, z) = (a.value() as int, b.value() as int, c.value() as int);
    a.lemma_in_range();
    b.lemma_in_range();
    c.lemma_in_range();
    lemma_add_mod_noop(x + y, z, m);
    lemma_add_mod_noop(x, y + z, m);
    lemma_small_mod(z as nat, m as nat);
    lemma_small_mod(x as nat, m as nat);
    vstd::arithmetic::div_mod::lemma_mod_twice(x + y, m);
    vstd::arithmetic::div_mod::lemma_mod_twice(y + z, m);
    assert(x + y + z == (x + y) + z);
    assert(x + (y + z) == (x + y) + z);
    if x + y + z < m {
        lemma_small_mod((x + y) as nat, m as nat);
        lemma_small_mod((y + z) as nat, m as nat);
    }
}

/// The checked sum is absent exactly when the overflowing sum raises its flag, and then
/// the saturating sum is the largest value.
pub proof fn law_add_overflow_consistent(a: &FixedUint, b: &FixedUint)
    requires
        a.wf(),
        a.same_width(b),
    ensures
        checked_add_spec(a.value(), b.value(), a.bound()).is_none() == overflowing_add_spec(
            a.value(),
            b.value(),
            a.bound(),
        ).1,
        overflowing_add_spec(a.value(), b.value(), a.bound()).1 ==> saturating_add_spec(
            a.value(),
            b.value(),
            a.bound(),
        ) == a.bound() - 1,
{
    a.lemma_in_range();
}

/// Values of one width are totally ordered, `<=` is `<` or `==`, and equal values have
/// equal limbs.
pub proof fn law_total_order(a: &FixedUint, b: &FixedUint)
    requires
        a.same_width(b),
    ensures
        (a.value() < b.value()) as int + (a.value() == b.value()) as int + (a.value()
            > b.value()) as int == 1,
        (a.value() <= b.value()) == (a.value() < b.value() || a.value() == b.value()),
        (a.value() == b.value()) == (a.limbs@ == b.limbs@),
{
    if a.value() == b.value() {
        lemma_value_injective(a.limbs@, b.limbs@);
    }
}

/// A shift left by the number of bits clears every value, and a rotation by the number
/// of bits, either way, leaves it unchanged.
pub proof fn law_shift_boundary(v: &FixedUint)
    requires
        v.wf(),
    ensures
        (v.value() * pow2(v.bits())) % v.bound() == 0,
        rotl_spec(v.value(), v.bits(), v.bits(), v.bound()) == v.value(),
        rotr_spec(v.value(), v.bits(), v.bits(), v.bound()) == v.value(),
{
    v.lemma_in_range();
    assert(v.bound() == modulus(v.width()));
    assert(pow2(v.bits()) == v.bound());
    lemma_mod_multiples_basic(v.value() as int, v.bound() as int);
    vstd::arithmetic::div_mod::lemma_mod_self_0(v.bits() as int);
}

} // verus!
