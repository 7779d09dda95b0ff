//! Compiles mathematical expressions into compact binary RPN bytecode,
//! with every limit chosen by the caller, and renders bytecode back to
//! postfix text. Every public operation states what it produces as a
//! contract over the bytes written.
//!
//! * [`parse_into`] / [`compile_into`]: expression to bytecode, under a
//!   [`Config`] (output limit, nesting depth) and a [`Resolve`] for
//!   variable substitution.
//! * [`Session`]: persistent single-letter variables with substitution,
//!   constant folding and calculator-style lines.
//! * [`decode_into`]: bytecode back to readable postfix text.
//! * [`eval`]: bytecode evaluated with exact binary64 arithmetic;
//!   [`eval_run`] / [`eval_resume`] let a caller with a math library
//!   supply transcendental values.
//! * [`opcodes`]: the wire format.

pub mod config;
pub mod opcodes;
pub mod error;
pub mod natbits;
pub mod binary64;
pub mod decimal;
pub mod num;
pub mod class;
pub mod lex;
pub mod fpu;
pub mod writer;
pub mod wire;
pub mod resolve;
pub mod fold;
pub mod compile;
pub mod display;
pub mod decode;
pub mod stream;
pub mod balance;
pub mod foldeval;
pub mod bounds;
pub mod readback;
pub mod acyclic;
pub mod norec;
pub mod eval;
pub mod solve;
pub mod session;
pub mod headroom;
pub mod lazy;
pub mod limits;
pub mod tokens;
pub mod spacing;
pub mod joining;
pub mod literals;
pub mod laws;

pub use config::{Config, DEFAULT_MAX_DEPTH, DEFAULT_OUTPUT_LIMIT};
pub use error::{Error, Result};
pub use compile::{compile_into, compile_into_ex, parse_into};
pub use resolve::{NoResolve, Resolve};
pub use decode::decode_into;
pub use eval::{eval, eval_resume, eval_run, Machine, Req, Stop, Vars};
pub use num::{fallback, try_fast};
pub use session::{split_assignment, Line, Session};
pub use solve::{solve_start, Phase, SolveAct, SolveCfg, Solver};

use vstd::prelude::*;

verus! {

/// The default configuration's output limit.
pub const MAX_RPN: usize = DEFAULT_OUTPUT_LIMIT;

/// The default configuration's nesting depth.
pub const MAX_DEPTH: u32 = DEFAULT_MAX_DEPTH;

} // verus!
