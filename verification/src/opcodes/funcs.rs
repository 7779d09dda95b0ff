//! Function ids for `FUNC`.
use vstd::prelude::*;

verus! {

pub const SIN: u8 = 0x01;

pub const COS: u8 = 0x02;

pub const TAN: u8 = 0x03;

pub const ASIN: u8 = 0x04;

pub const ACOS: u8 = 0x05;

pub const ATAN: u8 = 0x06;

pub const LN: u8 = 0x07;

/// Natural log alias: same semantics as [`LN`].
pub const LOG: u8 = 0x08;

/// Binary log-with-base; consumes base then argument (arity 2).
pub const LOGB: u8 = 0x09;

} // verus!
