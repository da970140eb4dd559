//! Encoding of values of an arbitrary-precision binary oracle in a binary
//! floating-point format of `P` significand bits with subnormals, and random
//! operands that this format represents exactly.
use vstd::prelude::*;

pub mod decode;
pub mod draw;
pub mod format;
pub mod literal;
pub mod numeral;
pub mod sample;
pub mod value;
pub mod wide;

pub use format::{EMAX, EMIN, MIN_EXP_SUBNORMAL, P, PM1};
pub use value::ExtendedValue;

verus! {

} // verus!
