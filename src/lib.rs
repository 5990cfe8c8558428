//! Fixed-width unsigned integers held as sequences of byte limbs, with exact
//! arithmetic, explicit overflow flags, bit operations, byte conversion and
//! radix strings.
pub mod arith;
pub mod bits;
pub mod bytes;
pub mod constructor;
pub mod counts;
pub mod error;
pub mod fixed_uint;
pub mod hash;
pub mod laws;
pub mod model;
pub mod policy;
pub mod radix;

pub use constructor::{BinOp, FoldOp, Radix, UintConstructor};
pub use error::{FromSliceError, FromStrError, IntoSliceError, OpError};
pub use fixed_uint::FixedUint;
pub use hash::{FixedHash, HashConstructor, HashOp};
