//! Little-, big- and native-endian byte images of a value.
use crate::error::{FromSliceError, IntoSliceError};
use crate::fixed_uint::{FixedUint, MAX_LIMBS};
use crate::model::{lemma_value_split, lemma_value_zeros, limbs_value};
use vstd::prelude::*;

verus! {

/// `s` in reverse order.
pub open spec fn reversed(s: Seq<u8>) -> Seq<u8> {
    Seq::new(s.len(), |i: int| s[s.len() - 1 - i])
}

/// Reversing twice gives the sequence back.
pub proof fn lemma_reversed_twice(s: Seq<u8>)
    ensures
        reversed(reversed(s)) == s,
{
    assert(reversed(reversed(s)) =~= s);
}

/// The byte image in the host's order: little-endian when `little`, else big-endian.
pub open spec fn ne_image(limbs: Seq<u8>, little: bool) -> Seq<u8> {
    if little {
        limbs
    } else {
        reversed(limbs)
    }
}

/// Relies on u16::to_ne_bytes: the two bytes of `x` in the host's byte order, which is
/// either least significant first or most significant first.
#[verifier::external_body]
fn u16_native_bytes(x: u16) -> (r: Vec<u8>)
    ensures
        r@ == seq![(x % 256) as u8, (x / 256) as u8] || r@ == seq![(x / 256) as u8, (x % 256) as u8],
{
    x.to_ne_bytes().to_vec()
}

/// Whether the host stores the least significant byte first.
pub fn host_is_little_endian() -> (r: bool) {
    let b = u16_native_bytes(1);
    b[0] == 1
}

/// Copies `src` in the given order into a new vector.
fn copy_bytes(src: &[u8], reverse: bool) -> (r: Vec<u8>)
    ensures
        r@ == (if reverse {
            reversed(src@)
        } else {
            src@
        }),
{
    let n = src.len();
    let mut out: Vec<u8> = Vec::new();
    let mut i: usize = 0;
    while i < n
        invariant
            i <= n,
            n == src@.len(),
            out@.len() == i,
            forall|j: int|
                0 <= j < i ==> out@[j] == (if reverse {
                    src@[n - 1 - j]
                } else {
                    src@[j]
                }),
        decreases n - i,
    {
        if reverse {
            out.push(src[n - 1 - i]);
        } else {
            out.push(src[i]);
        }
        i += 1;
    }
    proof {
        if reverse {
            assert(out@ =~= reversed(src@));
        } else {
            assert(out@ =~= src@);
        }
    }
    out
}

/// The bytes of `src` in the given order, followed by zeros up to `n` bytes.
fn padded_limbs(src: &[u8], reverse: bool, n: usize) -> (r: Vec<u8>)
    requires
        src@.len() <= n,
    ensures
        r@.len() == n,
        limbs_value(r@) == limbs_value(
            if reverse {
                reversed(src@)
            } else {
                src@
            },
        ),
{
    let mut out = copy_bytes(src, reverse);
    let ghost img = out@;
    let k = out.len();
    while out.len() < n
        invariant
            k <= out@.len() <= n,
            k == img.len(),
            out@.take(k as int) == img,
            forall|j: int| k <= j < out@.len() ==> out@[j] == 0,
        decreases n - out@.len(),
    {
        out.push(0);
        proof {
            assert(out@.take(k as int) =~= img);
        }
    }
    proof {
        lemma_value_split(out@, k as int);
        lemma_value_zeros(out@.skip(k as int));
        vstd::arithmetic::mul::lemma_mul_by_zero_is_zero(
            crate::model::modulus(k as nat) as int,
        );
    }
    out
}

impl FixedUint {
    /// The limbs as bytes, least significant first.
    pub fn to_le_bytes(&self) -> (r: Vec<u8>)
        ensures
            r@ == self.limbs@,
    {
        copy_bytes(self.limbs.as_slice(), false)
    }

    /// The limbs as bytes, most significant first.
    pub fn to_be_bytes(&self) -> (r: Vec<u8>)
        ensures
            r@ == reversed(self.limbs@),
    {
        copy_bytes(self.limbs.as_slice(), true)
    }

    /// The value with its byte order reversed.
    pub fn swap_bytes(&self) -> (r: FixedUint)
        requires
            self.wf(),
        ensures
            r.wf(),
            r.limbs@ == reversed(self.limbs@),
    {
        FixedUint { limbs: copy_bytes(self.limbs.as_slice(), true) }
    }

    /// The limbs as bytes in the given order: least significant first when `little`.
    pub fn to_bytes_in_order(&self, little: bool) -> (r: Vec<u8>)
        ensures
            r@ == ne_image(self.limbs@, little),
    {
        copy_bytes(self.limbs.as_slice(), !little)
    }

    /// The value whose image in the given order is `bytes`.
    pub fn from_bytes_in_order(bytes: &[u8], little: bool) -> (r: FixedUint)
        requires
            1 <= bytes@.len() < MAX_LIMBS,
        ensures
            r.wf(),
            r.limbs@ == ne_image(bytes@, little),
    {
        FixedUint { limbs: copy_bytes(bytes, !little) }
    }

    /// The limbs as bytes in the host's order, whichever of the two it is.
    pub fn to_ne_bytes(&self) -> (r: Vec<u8>)
        ensures
            r@ == ne_image(self.limbs@, true) || r@ == ne_image(self.limbs@, false),
    {
        self.to_bytes_in_order(host_is_little_endian())
    }

    /// The value whose little-endian image is `bytes`; its width is the byte count.
    pub fn from_le_bytes(bytes: &[u8]) -> (r: FixedUint)
        requires
            1 <= bytes@.len() < MAX_LIMBS,
        ensures
            r.wf(),
            r.limbs@ == bytes@,
    {
        FixedUint { limbs: copy_bytes(bytes, false) }
    }

    /// The value whose big-endian image is `bytes`; its width is the byte count.
    pub fn from_be_bytes(bytes: &[u8]) -> (r: FixedUint)
        requires
            1 <= bytes@.len() < MAX_LIMBS,
        ensures
            r.wf(),
            r.limbs@ == reversed(bytes@),
    {
        FixedUint { limbs: copy_bytes(bytes, true) }
    }

    /// The value whose image in the host's order, whichever of the two it is, is `bytes`.
    pub fn from_ne_bytes(bytes: &[u8]) -> (r: FixedUint)
        requires
            1 <= bytes@.len() < MAX_LIMBS,
        ensures
            r.wf(),
            r.limbs@ == ne_image(bytes@, true) || r.limbs@ == ne_image(bytes@, false),
    {
        FixedUint::from_bytes_in_order(bytes, host_is_little_endian())
    }

    /// Reads a little-endian slice of at most `width` bytes into a value of `width` limbs;
    /// missing high bytes are zero.
    pub fn from_little_endian(width: usize, input: &[u8]) -> (r: Result<FixedUint, FromSliceError>)
        requires
            1 <= width < MAX_LIMBS,
        ensures
            input@.len() > width ==> r == Err::<FixedUint, FromSliceError>(
                FromSliceError::InvalidLength(input@.len() as usize),
            ),
            input@.len() <= width ==> r.is_ok() && r.unwrap().wf() && r.unwrap().width() == width
                && r.unwrap().value() == limbs_value(input@),
    {
        if input.len() > width {
            Err(FromSliceError::InvalidLength(input.len()))
        } else {
            Ok(FixedUint { limbs: padded_limbs(input, false, width) })
        }
    }

    /// Reads a big-endian slice of at most `width` bytes into a value of `width` limbs;
    /// the slice gives the low-order bytes.
    pub fn from_big_endian(width: usize, input: &[u8]) -> (r: Result<FixedUint, FromSliceError>)
        requires
            1 <= width < MAX_LIMBS,
        ensures
            input@.len() > width ==> r == Err::<FixedUint, FromSliceError>(
                FromSliceError::InvalidLength(input@.len() as usize),
            ),
            input@.len() <= width ==> r.is_ok() && r.unwrap().wf() && r.unwrap().width() == width
                && r.unwrap().value() == limbs_value(reversed(input@)),
    {
        if input.len() > width {
            Err(FromSliceError::InvalidLength(input.len()))
        } else {
            Ok(FixedUint { limbs: padded_limbs(input, true, width) })
        }
    }

    /// Writes the little-endian image into `output`, which must have exactly the byte size.
    pub fn into_little_endian(&self, output: &mut Vec<u8>) -> (r: Result<(), IntoSliceError>)
        ensures
            old(output)@.len() != self.width() ==> r == Err::<(), IntoSliceError>(
                IntoSliceError::InvalidLength(old(output)@.len() as usize),
            ) && final(output)@ == old(output)@,
            old(output)@.len() == self.width() ==> r.is_ok() && final(output)@ == self.limbs@,
    {
        if output.len() != self.limbs.len() {
            return Err(IntoSliceError::InvalidLength(output.len()));
        }
        *output = copy_bytes(self.limbs.as_slice(), false);
        Ok(())
    }

    /// Writes the big-endian image into `output`, which must have exactly the byte size.
    pub fn into_big_endian(&self, output: &mut Vec<u8>) -> (r: Result<(), IntoSliceError>)
        ensures
            old(output)@.len() != self.width() ==> r == Err::<(), IntoSliceError>(
                IntoSliceError::InvalidLength(old(output)@.len() as usize),
            ) && final(output)@ == old(output)@,
            old(output)@.len() == self.width() ==> r.is_ok() && final(output)@ == reversed(
                self.limbs@,
            ),
    {
        if output.len() != self.limbs.len() {
            return Err(IntoSliceError::InvalidLength(output.len()));
        }
        *output = copy_bytes(self.limbs.as_slice(), true);
        Ok(())
    }
}

} // verus!
