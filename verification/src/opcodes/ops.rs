//! Single-byte operator opcodes.
use vstd::prelude::*;

verus! {

pub const ADD: u8 = 0x10;

pub const SUB: u8 = 0x11;

pub const MUL: u8 = 0x12;

pub const DIV: u8 = 0x13;

pub const POW: u8 = 0x14;

/// Unary negation.
pub const NEG: u8 = 0x15;

} // verus!
