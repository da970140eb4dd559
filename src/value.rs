//! A finite value of the working precision, split into plain parts.
use crate::wide::wide;
use vstd::prelude::*;

verus! {

/// The value `(-1)^negative * (hi * 2^128 + lo) * 2^exp`, as an oracle of
/// arbitrary precision hands it out, with the witness of the rounding that
/// produced it: `Less` when it lies below the exact result, `Greater` when
/// above, `Equal` when it is exact.
#[derive(Clone, Copy, Debug)]
pub struct ExtendedValue {
    pub negative: bool,
    pub hi: u128,
    pub lo: u128,
    pub exp: i32,
    pub witness: core::cmp::Ordering,
}

impl ExtendedValue {
    /// The magnitude of the integer significand.
    pub open spec fn mantissa(&self) -> nat {
        wide(self.hi, self.lo)
    }

    /// The sign bit as it is encoded: 1 for negative, 0 otherwise.
    pub open spec fn sign_bit(&self) -> u32 {
        if self.negative {
            1
        } else {
            0
        }
    }

    /// A value that carries `Equal` as its witness.
    pub fn new(negative: bool, hi: u128, lo: u128, exp: i32) -> (r: Self)
        ensures
            r.negative == negative,
            r.hi == hi,
            r.lo == lo,
            r.exp == exp,
            r.witness == core::cmp::Ordering::Equal,
    {
        ExtendedValue { negative, hi, lo, exp, witness: core::cmp::Ordering::Equal }
    }
}

} // verus!
