use vstd::prelude::*;

verus! {

/// Number of significand bits of the target format, hidden bit included.
pub const P: u32 = 237;

/// `P - 1`: the binary exponent of a normal significand's leading bit.
pub const PM1: i32 = 236;

/// Largest exponent of a normal value's leading bit.
pub const EMAX: i32 = 262143;

/// Smallest exponent of a normal value's leading bit.
pub const EMIN: i32 = -262142;

/// Exponent of the subnormal quantum, the least positive value.
pub const MIN_EXP_SUBNORMAL: i32 = -262378;

} // verus!
