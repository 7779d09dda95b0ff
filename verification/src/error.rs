//! The library's error values: every failure mode, with a byte offset
//! where one is meaningful.
use vstd::prelude::*;
use crate::config::{DEFAULT_MAX_DEPTH, DEFAULT_OUTPUT_LIMIT};

verus! {

/// Every failure mode of compilation, decoding and sessions.
#[derive(Debug, Clone, Copy, PartialEq, Eq, Structural)]
#[non_exhaustive]
pub enum Error {
    UnexpectedByte { pos: usize, byte: u8 },
    UnexpectedToken { pos: usize },
    ExpectedLparen { pos: usize },
    ExpectedRparen { pos: usize },
    UnknownIdentifier { pos: usize },
    InvalidNumber { pos: usize },
    TooDeep,
    BufferTooSmall,
    OutputLimitExceeded,
    MalformedRpn { offset: usize },
    /// The caller-provided operator-stack scratch is smaller than
    /// `Config::scratch_len` for the configured depth.
    ScratchTooSmall { needed: usize, got: usize },
    /// A variable definition (transitively) references itself.
    RecursiveDefinition { var: u8 },
    /// An assignment's left-hand side is not a single variable letter.
    BadAssignment { pos: usize },
    /// Evaluation ran out of caller-provided value-stack space.
    EvalStackOverflow,
    /// The function or operator cannot be evaluated on this target.
    FuncUnsupportedOnTarget { func: u8 },
}

/// Result type of the library's fallible operations.
pub type Result<T> = core::result::Result<T, Error>;

/// Decimal digits of `n`, most significant first.
pub open spec fn dec_text(n: nat) -> Seq<char>
    decreases n,
{
    if n < 10 {
        seq![digit_char(n)]
    } else {
        dec_text(n / 10).push(digit_char(n % 10))
    }
}

/// The character of a digit below sixteen (lower-case letters above
/// nine).
pub open spec fn digit_char(d: nat) -> char {
    if d < 10 {
        (48 + d) as char
    } else {
        (87 + d) as char
    }
}

/// Two lower-case hexadecimal digits of a byte.
pub open spec fn hex_text(b: u8) -> Seq<char> {
    seq![digit_char(b as nat / 16), digit_char(b as nat % 16)]
}

/// The message text of an error.
pub open spec fn message_text(e: Error) -> Seq<char> {
    match e {
        Error::UnexpectedByte { pos, byte } => "unexpected byte 0x"@ + hex_text(byte) + " at offset "@
            + dec_text(pos as nat),
        Error::UnexpectedToken { pos } => "unexpected token at offset "@ + dec_text(pos as nat),
        Error::ExpectedLparen { pos } => "expected '(' after function name at offset "@ + dec_text(pos as nat),
        Error::ExpectedRparen { pos } => "expected ')' at offset "@ + dec_text(pos as nat)
            + ", found end of input or other token"@,
        Error::UnknownIdentifier { pos } => "unknown identifier at offset "@ + dec_text(pos as nat),
        Error::InvalidNumber { pos } => "invalid number literal at offset "@ + dec_text(pos as nat),
        Error::TooDeep => "expression nesting exceeds MAX_DEPTH ("@ + dec_text(DEFAULT_MAX_DEPTH as nat)
            + ")"@,
        Error::BufferTooSmall => "output buffer too small; retry with a larger buffer up to "@
            + dec_text(DEFAULT_OUTPUT_LIMIT as nat) + " bytes"@,
        Error::OutputLimitExceeded => "RPN output exceeds the hard limit of "@ + dec_text(
            DEFAULT_OUTPUT_LIMIT as nat,
        ) + " bytes"@,
        Error::MalformedRpn { offset } => "malformed RPN stream at offset "@ + dec_text(offset as nat),
        Error::ScratchTooSmall { needed, got } => "operator-stack scratch is "@ + dec_text(got as nat)
            + " bytes but the configured depth needs "@ + dec_text(needed as nat),
        Error::RecursiveDefinition { var } => "variable "@ + seq![var as char]
            + " recursively references itself"@,
        Error::BadAssignment { pos } => "assignment target must be one variable letter at offset "@
            + dec_text(pos as nat),
        Error::EvalStackOverflow => "evaluation value stack exhausted"@,
        Error::FuncUnsupportedOnTarget { func } => "function/opcode 0x"@ + hex_text(func)
            + " needs a libm (build with feature \"std\")"@,
    }
}

/// Appends one character with `String::push`, whose documented effect
/// is to add `c` at the end of the string: the contract says exactly
/// that of the string's characters. Not proved here; trusted from std.
#[verifier::external_body]
fn push_char(s: &mut String, c: char)
    ensures
        final(s)@ == old(s)@.push(c),
{
    s.push(c);
}

fn digit(d: u8) -> (c: char)
    requires
        d < 16,
    ensures
        c == digit_char(d as nat),
{
    if d < 10 {
        ((48 + d) as u32) as u8 as char
    } else {
        ((87 + d) as u32) as u8 as char
    }
}

/// Appends the decimal digits of `n`.
fn push_dec(s: &mut String, n: usize)
    ensures
        final(s)@ == old(s)@ + dec_text(n as nat),
    decreases n,
{
    if n >= 10 {
        push_dec(s, n / 10);
    }
    push_char(s, digit((n % 10) as u8));
    proof {
        if n < 10 {
            assert(dec_text(n as nat) =~= seq![digit_char(n as nat)]);
        }
    }
}

fn push_hex(s: &mut String, b: u8)
    ensures
        final(s)@ == old(s)@ + hex_text(b),
{
    push_char(s, digit(b / 16));
    push_char(s, digit(b % 16));
}

impl Error {
    /// The error's message, for people.
    pub fn message(&self) -> (r: String)
        ensures
            r@ == message_text(*self),
    {
        let mut s = String::new();
        match *self {
            Error::UnexpectedByte { pos, byte } => {
                s.append("unexpected byte 0x");
                push_hex(&mut s, byte);
                s.append(" at offset ");
                push_dec(&mut s, pos);
            },
            Error::UnexpectedToken { pos } => {
                s.append("unexpected token at offset ");
                push_dec(&mut s, pos);
            },
            Error::ExpectedLparen { pos } => {
                s.append("expected '(' after function name at offset ");
                push_dec(&mut s, pos);
            },
            Error::ExpectedRparen { pos } => {
                s.append("expected ')' at offset ");
                push_dec(&mut s, pos);
                s.append(", found end of input or other token");
            },
            Error::UnknownIdentifier { pos } => {
                s.append("unknown identifier at offset ");
                push_dec(&mut s, pos);
            },
            Error::InvalidNumber { pos } => {
                s.append("invalid number literal at offset ");
                push_dec(&mut s, pos);
            },
            Error::TooDeep => {
                s.append("expression nesting exceeds MAX_DEPTH (");
                push_dec(&mut s, DEFAULT_MAX_DEPTH as usize);
                s.append(")");
            },
            Error::BufferTooSmall => {
                s.append("output buffer too small; retry with a larger buffer up to ");
                push_dec(&mut s, DEFAULT_OUTPUT_LIMIT);
                s.append(" bytes");
            },
            Error::OutputLimitExceeded => {
                s.append("RPN output exceeds the hard limit of ");
                push_dec(&mut s, DEFAULT_OUTPUT_LIMIT);
                s.append(" bytes");
            },
            Error::MalformedRpn { offset } => {
                s.append("malformed RPN stream at offset ");
                push_dec(&mut s, offset);
            },
            Error::ScratchTooSmall { needed, got } => {
                s.append("operator-stack scratch is ");
                push_dec(&mut s, got);
                s.append(" bytes but the configured depth needs ");
                push_dec(&mut s, needed);
            },
            Error::RecursiveDefinition { var } => {
                s.append("variable ");
                push_char(&mut s, var as char);
                s.append(" recursively references itself");
            },
            Error::BadAssignment { pos } => {
                s.append("assignment target must be one variable letter at offset ");
                push_dec(&mut s, pos);
            },
            Error::EvalStackOverflow => {
                s.append("evaluation value stack exhausted");
            },
            Error::FuncUnsupportedOnTarget { func } => {
                s.append("function/opcode 0x");
                push_hex(&mut s, func);
                s.append(" needs a libm (build with feature \"std\")");
            },
        }
        s
    }
}

} // verus!
