//! Parsing from and formatting to binary, octal, decimal and hexadecimal digit strings.
use crate::bytes::reversed;
use crate::error::FromStrError;
use crate::fixed_uint::{FixedUint, MAX_LIMBS};
use crate::model::{lemma_modulus_step, modulus};
use vstd::prelude::*;
use vstd::string::StringSliceAdditionalSpecFns;

verus! {

/// The digit an ASCII byte stands for; 16 for a byte that is no digit in any radix.
pub open spec fn digit_of(c: u8) -> nat {
    if 48 <= c <= 57 {
        (c - 48) as nat
    } else if 97 <= c <= 102 {
        (c - 87) as nat
    } else if 65 <= c <= 70 {
        (c - 55) as nat
    } else {
        16
    }
}

/// Whether `c` is a digit of radix `r`.
pub open spec fn is_digit(c: u8, r: nat) -> bool {
    digit_of(c) < r
}

/// The ASCII byte of digit `d`, with letters in the chosen case.
pub open spec fn digit_char(d: nat, upper: bool) -> u8 {
    if d < 10 {
        (48 + d) as u8
    } else if upper {
        (55 + d) as u8
    } else {
        (87 + d) as u8
    }
}

/// The number that the digits `d` denote in radix `r`, most significant first.
pub open spec fn digits_value(d: Seq<u8>, r: nat) -> nat
    decreases d.len(),
{
    if d.len() == 0 {
        0
    } else {
        digits_value(d.drop_last(), r) * r + digit_of(d.last())
    }
}

/// The index of the first byte at or after `i` that is no digit of radix `r`, or the length.
pub open spec fn digit_run(d: Seq<u8>, r: nat, i: nat) -> nat
    decreases d.len() - i,
{
    if i >= d.len() || !is_digit(d[i as int], r) {
        i
    } else {
        digit_run(d, r, i + 1)
    }
}

/// The shortest digit string of `v` in radix `r`, most significant first.
pub open spec fn to_digits(v: nat, r: nat, upper: bool) -> Seq<u8>
    decreases v,
    via to_digits_decreases
{
    if r < 2 || v < r {
        seq![digit_char(v, upper)]
    } else {
        to_digits(v / r, r, upper).push(digit_char(v % r, upper))
    }
}

#[via_fn]
proof fn to_digits_decreases(v: nat, r: nat, upper: bool) {
    if !(r < 2 || v < r) {
        assert(v / r < v) by (nonlinear_arith)
            requires
                r >= 2,
                v >= r,
        ;
    }
}

/// The most digits a value below `m` has in radix `r`.
pub open spec fn max_digits(m: nat, r: nat) -> nat {
    to_digits((m - 1) as nat, r, false).len()
}

/// What parsing `d` in radix `r` gives for a width of bound `m`: the number, or the
/// error, checked in this order: empty or too long, a leading zero, then a scan from the
/// left that stops at the first byte that is no digit, or as soon as the digits read so
/// far reach `m`.
pub open spec fn parse_spec(d: Seq<u8>, r: nat, m: nat) -> Result<nat, FromStrError> {
    let len = d.len();
    let j = digit_run(d, r, 0);
    if len == 0 || len > max_digits(m, r) {
        Err(FromStrError::InvalidLength(len as usize))
    } else if len > 1 && d[0] == 48 {
        Err(FromStrError::InvalidCharacter { chr: 48, idx: 0 })
    } else if digits_value(d.take(j as int), r) >= m {
        Err(FromStrError::Overflow(len as usize))
    } else if j < len {
        Err(FromStrError::InvalidCharacter { chr: d[j as int], idx: j as usize })
    } else {
        Ok(digits_value(d, r))
    }
}

/// The radixes this module reads and writes.
pub open spec fn supported_radix(r: nat) -> bool {
    r == 2 || r == 8 || r == 10 || r == 16
}

/// A digit string of one more byte.
pub proof fn lemma_digits_value_take(d: Seq<u8>, r: nat, k: int)
    requires
        0 <= k < d.len(),
    ensures
        digits_value(d.take(k + 1), r) == digits_value(d.take(k), r) * r + digit_of(d[k]),
{
    assert(d.take(k + 1).drop_last() =~= d.take(k));
}

/// Reading more digits never lowers the value.
pub proof fn lemma_digits_value_monotone(d: Seq<u8>, r: nat, a: int, b: int)
    requires
        0 <= a <= b <= d.len(),
        r >= 1,
    ensures
        digits_value(d.take(a), r) <= digits_value(d.take(b), r),
    decreases b - a,
{
    if a < b {
        lemma_digits_value_monotone(d, r, a, b - 1);
        lemma_digits_value_take(d, r, b - 1);
        let x = digits_value(d.take(b - 1), r);
        assert(x * r >= x) by (nonlinear_arith)
            requires
                r >= 1,
        ;
    }
}

/// The run of digits from `i` on: all bytes before its end are digits, the byte at its
/// end is not.
pub proof fn lemma_digit_run(d: Seq<u8>, r: nat, i: nat)
    requires
        i <= d.len(),
    ensures
        i <= digit_run(d, r, i) <= d.len(),
        forall|k: int| i <= k < digit_run(d, r, i) ==> is_digit(#[trigger] d[k], r),
        digit_run(d, r, i) < d.len() ==> !is_digit(d[digit_run(d, r, i) as int], r),
    decreases d.len() - i,
{
    if i < d.len() && is_digit(d[i as int], r) {
        lemma_digit_run(d, r, i + 1);
    }
}

/// The digit string of `v` reads back as `v`, is made of digits, and starts with a zero
/// only when it is the single digit zero.
pub proof fn lemma_to_digits(v: nat, r: nat, upper: bool)
    requires
        2 <= r <= 16,
    ensures
        to_digits(v, r, upper).len() >= 1,
        digits_value(to_digits(v, r, upper), r) == v,
        forall|k: int|
            0 <= k < to_digits(v, r, upper).len() ==> is_digit(
                #[trigger] to_digits(v, r, upper)[k],
                r,
            ),
        to_digits(v, r, upper).len() > 1 ==> to_digits(v, r, upper)[0] != 48,
        v < r ==> to_digits(v, r, upper) == seq![digit_char(v, upper)],
    decreases v,
{
    let d = to_digits(v, r, upper);
    if v < r {
        assert(d.drop_last().len() == 0);
        assert(digits_value(d.drop_last(), r) == 0);
        assert(digit_of(digit_char(v, upper)) == v);
    } else {
        let q = v / r;
        vstd::arithmetic::div_mod::lemma_fundamental_div_mod(v as int, r as int);
        assert(q < v) by (nonlinear_arith)
            requires
                q == v / r,
                r >= 2,
                v >= r,
        ;
        assert(q >= 1) by (nonlinear_arith)
            requires
                q == v / r,
                v >= r,
                r >= 2,
        ;
        lemma_to_digits(q, r, upper);
        let t = to_digits(q, r, upper);
        assert(d == t.push(digit_char(v % r, upper)));
        assert(d.drop_last() =~= t);
        assert(d.last() == digit_char(v % r, upper));
        vstd::arithmetic::div_mod::lemma_mod_pos_bound(v as int, r as int);
        assert(digit_of(digit_char(v % r, upper)) == v % r);
        assert(digits_value(d, r) == q * r + v % r);
        assert forall|k: int| 0 <= k < d.len() implies is_digit(#[trigger] d[k], r) by {
            if k < t.len() {
                assert(d[k] == t[k]);
            }
        }
        if q >= r {
            lemma_to_digits(q / r, r, upper);
            assert(t == to_digits(q / r, r, upper).push(digit_char(q % r, upper)));
            assert(t.len() >= 2);
        }
        if t.len() == 1 {
            assert(q < r);
            assert(t[0] == digit_char(q, upper));
        }
        assert(d[0] == t[0]);
    }
}

/// A larger value has at least as many digits.
pub proof fn lemma_to_digits_len_monotone(v: nat, w: nat, r: nat, u1: bool, u2: bool)
    requires
        2 <= r <= 16,
        v <= w,
    ensures
        to_digits(v, r, u1).len() <= to_digits(w, r, u2).len(),
    decreases w,
{
    lemma_to_digits(v, r, u1);
    lemma_to_digits(w, r, u2);
    if v >= r {
        vstd::arithmetic::div_mod::lemma_div_is_ordered(v as int, w as int, r as int);
        assert(w / r < w) by (nonlinear_arith)
            requires
                r >= 2,
                w >= r,
        ;
        lemma_to_digits_len_monotone(v / r, w / r, r, u1, u2);
    } else if w >= r {
        lemma_to_digits(w / r, r, u2);
    }
}

/// Every value below `m` can be written and read back: its digits parse to it.
pub proof fn lemma_parse_to_digits(v: nat, r: nat, m: nat, upper: bool)
    requires
        2 <= r <= 16,
        v < m,
    ensures
        parse_spec(to_digits(v, r, upper), r, m) == Ok::<nat, FromStrError>(v),
{
    let d = to_digits(v, r, upper);
    lemma_to_digits(v, r, upper);
    lemma_to_digits_len_monotone(v, (m - 1) as nat, r, upper, false);
    lemma_digit_run(d, r, 0);
    let j = digit_run(d, r, 0);
    if j < d.len() {
        assert(is_digit(d[j as int], r));
    }
    assert(j == d.len());
    assert(d.take(j as int) =~= d);
}

/// Maps a digit byte to its value, or 16 for any other byte.
fn digit_lookup(c: u8) -> (r: u32)
    ensures
        r == digit_of(c),
{
    if 48 <= c && c <= 57 {
        (c - 48) as u32
    } else if 97 <= c && c <= 102 {
        (c - 87) as u32
    } else if 65 <= c && c <= 70 {
        (c - 55) as u32
    } else {
        16
    }
}

/// The byte of a digit below 16.
fn digit_byte(d: u32, upper: bool) -> (r: u8)
    requires
        d < 16,
    ensures
        r == digit_char(d as nat, upper),
{
    if d < 10 {
        (48 + d) as u8
    } else if upper {
        (55 + d) as u8
    } else {
        (87 + d) as u8
    }
}

impl FixedUint {
    /// The digits of the value in radix `radix`, most significant first, without leading
    /// zeros; zero is the single digit `0`.
    pub fn to_radix_digits(&self, radix: u32, upper: bool) -> (r: Vec<u8>)
        requires
            self.fits(),
            2 <= radix <= 16,
        ensures
            r@ == to_digits(self.value(), radix as nat, upper),
    {
        let ghost v = self.value();
        let ghost rr = radix as nat;
        let mut x = self.duplicate();
        let mut acc: Vec<u8> = Vec::new();
        proof {
            assert(acc@ =~= Seq::<u8>::empty());
            assert(to_digits(v, rr, upper) + reversed(acc@) =~= to_digits(v, rr, upper));
        }
        loop
            invariant_except_break
                to_digits(v, rr, upper) == to_digits(x.value(), rr, upper) + reversed(acc@),
            invariant
                x.fits(),
                x.same_width(self),
                2 <= radix <= 16,
                rr == radix as nat,
            ensures
                to_digits(v, rr, upper) == reversed(acc@),
            decreases x.value(),
        {
            let (q, rem) = x.div_rem_unit(radix);
            let ghost xv = x.value();
            proof {
                vstd::arithmetic::div_mod::lemma_fundamental_div_mod(xv as int, rr as int);
                assert(reversed(acc@.push(digit_char(rem as nat, upper))) =~= seq![
                    digit_char(rem as nat, upper),
                ] + reversed(acc@));
            }
            let c = digit_byte(rem, upper);
            acc.push(c);
            if q.is_zero() {
                proof {
                    assert(xv < rr) by (nonlinear_arith)
                        requires
                            xv / rr == 0,
                            rr >= 2,
                    ;
                    vstd::arithmetic::div_mod::lemma_small_mod(xv, rr);
                    assert(to_digits(xv, rr, upper) == seq![digit_char(xv, upper)]);
                    assert(to_digits(v, rr, upper) =~= reversed(acc@));
                }
                break;
            }
            proof {
                assert(xv >= rr) by (nonlinear_arith)
                    requires
                        xv / rr != 0,
                        rr >= 2,
                ;
                assert(q.value() < xv) by (nonlinear_arith)
                    requires
                        q.value() == xv / rr,
                        rr >= 2,
                        xv >= rr,
                ;
                assert(to_digits(xv, rr, upper) == to_digits(q.value(), rr, upper).push(
                    digit_char(rem as nat, upper),
                ));
                assert(to_digits(v, rr, upper) =~= to_digits(q.value(), rr, upper) + reversed(
                    acc@,
                ));
            }
            x = q;
        }
        let n = acc.len();
        let mut out: Vec<u8> = Vec::new();
        let mut i: usize = 0;
        while i < n
            invariant
                i <= n,
                n == acc@.len(),
                out@ == reversed(acc@).take(i as int),
            decreases n - i,
        {
            out.push(acc[n - 1 - i]);
            i += 1;
            proof {
                assert(out@ =~= reversed(acc@).take(i as int));
            }
        }
        proof {
            assert(reversed(acc@).take(n as int) =~= reversed(acc@));
        }
        out
    }

    /// The most digits a value of this width has in radix `radix`.
    pub fn max_digit_count(width: usize, radix: u32) -> (r: usize)
        requires
            1 <= width < MAX_LIMBS,
            2 <= radix <= 16,
        ensures
            r == max_digits(modulus(width as nat), radix as nat),
    {
        let m = FixedUint::max_of(width);
        m.to_radix_digits(radix, false).len()
    }

    /// Parses the digits `input` in radix `radix` into a value of `width` limbs.
    pub fn from_radix_digits(width: usize, input: &[u8], radix: u32) -> (r: Result<
        FixedUint,
        FromStrError,
    >)
        requires
            1 <= width < MAX_LIMBS,
            supported_radix(radix as nat),
        ensures
            match parse_spec(input@, radix as nat, modulus(width as nat)) {
                Ok(x) => r.is_ok() && r.unwrap().wf() && r.unwrap().width() == width
                    && r.unwrap().value() == x,
                Err(e) => r == Err::<FixedUint, FromStrError>(e),
            },
    {
        let ghost d = input@;
        let ghost rr = radix as nat;
        let ghost m = modulus(width as nat);
        let len = input.len();
        let max_len = FixedUint::max_digit_count(width, radix);
        if len == 0 || len > max_len {
            return Err(FromStrError::InvalidLength(len));
        }
        if len > 1 && input[0] == 48 {
            return Err(FromStrError::InvalidCharacter { chr: 48, idx: 0 });
        }
        let mut acc = FixedUint::zero_of(width);
        let digit_base = FixedUint::zero_of(width);
        let mut i: usize = 0;
        proof {
            lemma_modulus_step(width as nat);
            assert(d.take(0).len() == 0);
            assert(digits_value(d.take(0), rr) == 0);
            lemma_digit_run(d, rr, 0);
        }
        while i < len
            invariant
                i <= len,
                len == d.len(),
                d == input@,
                1 <= len <= max_digits(m, rr),
                !(len > 1 && d[0] == 48),
                supported_radix(rr),
                rr == radix as nat,
                m == modulus(width as nat),
                1 <= width < MAX_LIMBS,
                acc.wf(),
                acc.width() == width,
                acc.value() == digits_value(d.take(i as int), rr),
                acc.value() < m,
                digit_run(d, rr, 0) == digit_run(d, rr, i as nat),
                forall|k: int| 0 <= k < i ==> is_digit(#[trigger] d[k], rr),
            decreases len - i,
        {
            let c = input[i];
            let dg = digit_lookup(c);
            if dg >= radix {
                proof {
                    lemma_digit_run(d, rr, i as nat);
                    assert(!is_digit(d[i as int], rr));
                    assert(digit_run(d, rr, i as nat) == i);
                    assert(digit_run(d, rr, 0) == i);
                    assert(d.take(i as int) == d.take(digit_run(d, rr, 0) as int));
                    assert(parse_spec(d, rr, m) == Err::<nat, FromStrError>(
                        FromStrError::InvalidCharacter { chr: c, idx: i },
                    ));
                }
                return Err(FromStrError::InvalidCharacter { chr: c, idx: i });
            }
            let (s, o1) = acc.overflowing_mul_unit(radix);
            let unit = FixedUint::from_u8_of(width, dg as u8);
            let (t, o2) = s.overflowing_add(&unit);
            proof {
                lemma_digits_value_take(d, rr, i as int);
                s.lemma_in_range();
                vstd::arithmetic::div_mod::lemma_small_mod(s.value(), m);
                assert(digit_run(d, rr, i as nat) == digit_run(d, rr, (i + 1) as nat));
            }
            if o1 || o2 {
                proof {
                    if !o1 {
                        vstd::arithmetic::div_mod::lemma_small_mod(acc.value() * rr, m);
                    }
                    lemma_digit_run(d, rr, (i + 1) as nat);
                    assert(digits_value(d.take(i as int + 1), rr) >= m);
                    lemma_digits_value_monotone(
                        d,
                        rr,
                        i as int + 1,
                        digit_run(d, rr, 0) as int,
                    );
                    assert(digits_value(d.take(digit_run(d, rr, 0) as int), rr) >= m);
                    assert(parse_spec(d, rr, m) == Err::<nat, FromStrError>(
                        FromStrError::Overflow(len),
                    ));
                }
                return Err(FromStrError::Overflow(len));
            }
            proof {
                vstd::arithmetic::div_mod::lemma_small_mod(acc.value() * rr, m);
                vstd::arithmetic::div_mod::lemma_small_mod(s.value() + dg as nat, m);
            }
            acc = t;
            i += 1;
        }
        proof {
            assert(d.take(len as int) =~= d);
            lemma_digit_run(d, rr, len as nat);
        }
        Ok(acc)
    }
}

/// The characters of ASCII bytes.
pub open spec fn ascii_chars(b: Seq<u8>) -> Seq<char> {
    Seq::new(b.len(), |i: int| b[i] as char)
}

/// The two-byte prefix that marks radix `r` in alternate form (`0b`, `0o`, `0x`).
pub open spec fn radix_prefix(r: nat) -> Seq<u8> {
    if r == 2 {
        seq![48u8, 98u8]
    } else if r == 8 {
        seq![48u8, 111u8]
    } else {
        seq![48u8, 120u8]
    }
}

/// The text of the value in radix `r`: digits, after the radix prefix when `prefixed`.
pub open spec fn radix_text(v: nat, r: nat, upper: bool, prefixed: bool) -> Seq<u8> {
    if prefixed {
        radix_prefix(r) + to_digits(v, r, upper)
    } else {
        to_digits(v, r, upper)
    }
}

/// Relies on String::from_utf8: bytes below 128 are valid UTF-8, one character per byte
/// with the same code.
#[verifier::external_body]
pub(crate) fn ascii_string(b: Vec<u8>) -> (r: String)
    requires
        forall|i: int| 0 <= i < b@.len() ==> b@[i] < 128,
    ensures
        r@ == ascii_chars(b@),
{
    match String::from_utf8(b) {
        Ok(s) => s,
        Err(_) => String::new(),
    }
}

impl FixedUint {
    /// The text in radix `radix`, after the radix prefix when `prefixed`.
    fn radix_string(&self, radix: u32, upper: bool, prefixed: bool) -> (r: String)
        requires
            self.fits(),
            radix == 2 || radix == 8 || radix == 10 || radix == 16,
            radix == 10 ==> !prefixed,
        ensures
            r@ == ascii_chars(radix_text(self.value(), radix as nat, upper, prefixed)),
    {
        let digits = self.to_radix_digits(radix, upper);
        let mut out: Vec<u8> = Vec::new();
        if prefixed {
            out.push(48);
            if radix == 2 {
                out.push(98);
            } else if radix == 8 {
                out.push(111);
            } else {
                out.push(120);
            }
        }
        let ghost pre = out@;
        proof {
            lemma_to_digits(self.value(), radix as nat, upper);
            if prefixed {
                assert(pre =~= radix_prefix(radix as nat));
            } else {
                assert(pre =~= Seq::<u8>::empty());
            }
        }
        let n = digits.len();
        let mut i: usize = 0;
        while i < n
            invariant
                i <= n,
                n == digits@.len(),
                out@ == pre + digits@.take(i as int),
                forall|k: int| 0 <= k < out@.len() ==> out@[k] < 128,
                forall|k: int| 0 <= k < digits@.len() ==> is_digit(#[trigger] digits@[k], radix as nat),
                pre.len() <= 2,
                radix <= 16,
            decreases n - i,
        {
            let c = digits[i];
            proof {
                assert(is_digit(digits@[i as int], radix as nat));
                assert(digit_of(c) < 16);
                assert(c < 128);
            }
            out.push(c);
            i += 1;
            proof {
                assert(out@ =~= pre + digits@.take(i as int));
            }
        }
        proof {
            assert(digits@.take(n as int) =~= digits@);
            if !prefixed {
                assert(out@ =~= digits@);
            }
        }
        ascii_string(out)
    }

    /// Binary text, after `0b` when `prefixed`.
    pub fn to_bin_string(&self, prefixed: bool) -> (r: String)
        requires
            self.fits(),
        ensures
            r@ == ascii_chars(radix_text(self.value(), 2, false, prefixed)),
    {
        self.radix_string(2, false, prefixed)
    }

    /// Octal text, after `0o` when `prefixed`.
    pub fn to_oct_string(&self, prefixed: bool) -> (r: String)
        requires
            self.fits(),
        ensures
            r@ == ascii_chars(radix_text(self.value(), 8, false, prefixed)),
    {
        self.radix_string(8, false, prefixed)
    }

    /// Decimal text.
    pub fn to_dec_string(&self) -> (r: String)
        requires
            self.fits(),
        ensures
            r@ == ascii_chars(to_digits(self.value(), 10, false)),
    {
        self.radix_string(10, false, false)
    }

    /// Hexadecimal text in the chosen letter case, after `0x` when `prefixed`.
    pub fn to_hex_string(&self, upper: bool, prefixed: bool) -> (r: String)
        requires
            self.fits(),
        ensures
            r@ == ascii_chars(radix_text(self.value(), 16, upper, prefixed)),
    {
        self.radix_string(16, upper, prefixed)
    }

    /// Parses binary digits into a value of `width` limbs.
    pub fn from_bin_str(width: usize, input: &str) -> (r: Result<FixedUint, FromStrError>)
        requires
            1 <= width < MAX_LIMBS,
        ensures
            match parse_spec(input.spec_bytes(), 2, modulus(width as nat)) {
                Ok(x) => r.is_ok() && r.unwrap().wf() && r.unwrap().width() == width
                    && r.unwrap().value() == x,
                Err(e) => r == Err::<FixedUint, FromStrError>(e),
            },
    {
        FixedUint::from_radix_digits(width, input.as_bytes(), 2)
    }

    /// Parses octal digits into a value of `width` limbs.
    pub fn from_oct_str(width: usize, input: &str) -> (r: Result<FixedUint, FromStrError>)
        requires
            1 <= width < MAX_LIMBS,
        ensures
            match parse_spec(input.spec_bytes(), 8, modulus(width as nat)) {
                Ok(x) => r.is_ok() && r.unwrap().wf() && r.unwrap().width() == width
                    && r.unwrap().value() == x,
                Err(e) => r == Err::<FixedUint, FromStrError>(e),
            },
    {
        FixedUint::from_radix_digits(width, input.as_bytes(), 8)
    }

    /// Parses decimal digits into a value of `width` limbs.
    pub fn from_dec_str(width: usize, input: &str) -> (r: Result<FixedUint, FromStrError>)
        requires
            1 <= width < MAX_LIMBS,
        ensures
            match parse_spec(input.spec_bytes(), 10, modulus(width as nat)) {
                Ok(x) => r.is_ok() && r.unwrap().wf() && r.unwrap().width() == width
                    && r.unwrap().value() == x,
                Err(e) => r == Err::<FixedUint, FromStrError>(e),
            },
    {
        FixedUint::from_radix_digits(width, input.as_bytes(), 10)
    }

    /// Parses hexadecimal digits of either case into a value of `width` limbs.
    pub fn from_hex_str(width: usize, input: &str) -> (r: Result<FixedUint, FromStrError>)
        requires
            1 <= width < MAX_LIMBS,
        ensures
            match parse_spec(input.spec_bytes(), 16, modulus(width as nat)) {
                Ok(x) => r.is_ok() && r.unwrap().wf() && r.unwrap().width() == width
                    && r.unwrap().value() == x,
                Err(e) => r == Err::<FixedUint, FromStrError>(e),
            },
    {
        FixedUint::from_radix_digits(width, input.as_bytes(), 16)
    }
}

} // verus!
