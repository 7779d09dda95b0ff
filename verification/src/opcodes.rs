//! Opcode constants for the binary RPN stream.
//!
//! A stream is a flat sequence of instructions. Each instruction starts
//! with one of the four framing opcodes ([`NUM`], [`VAR`], [`CONST`],
//! [`FUNC`]) followed by its fixed-size payload, or is one of the
//! single-byte operator opcodes.
//!
//! | Opcode | Payload   | Size | Meaning                        |
//! |--------|-----------|------|--------------------------------|
//! | `NUM`  | `f64`     | 9    | push number (little-endian)    |
//! | `VAR`  | `u8` name | 2    | push variable (`a`..`z`)       |
//! | `CONST`| `u8` id   | 2    | push constant                  |
//! | `FUNC` | `u8` id   | 2    | call function (arity 1, [`FUNC_LOGB`] arity 2) |
//! | `ADD`..`NEG` | —   | 1    | apply operator                 |
use vstd::prelude::*;

pub mod consts;
pub mod funcs;
pub mod ops;

pub use consts::{E as CONST_E, PI as CONST_PI};
pub use funcs::{
    ACOS as FUNC_ACOS, ASIN as FUNC_ASIN, ATAN as FUNC_ATAN, COS as FUNC_COS, LN as FUNC_LN,
    LOG as FUNC_LOG, LOGB as FUNC_LOGB, SIN as FUNC_SIN, TAN as FUNC_TAN,
};
pub use ops::{ADD, DIV, MUL, NEG, POW, SUB};

verus! {

/// Push an `f64` literal; followed by 8 little-endian bytes.
pub const NUM: u8 = 0x01;

/// Push a variable; followed by one ASCII lowercase byte.
pub const VAR: u8 = 0x02;

/// Push a constant; followed by one id byte.
pub const CONST: u8 = 0x03;

/// Call a function; followed by one id byte.
pub const FUNC: u8 = 0x04;

} // verus!
