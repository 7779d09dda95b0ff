//! Constant ids for `CONST`.
use vstd::prelude::*;

verus! {

/// Euler's number.
pub const E: u8 = 0x01;

/// Pi.
pub const PI: u8 = 0x02;

} // verus!
