//! Byte classes for the lexer: every byte maps to the one kind of token
//! it can begin (or to whitespace, or to nothing legal).
use vstd::prelude::*;

verus! {

/// Byte introduces no legal token.
pub const ILLEGAL: u8 = 0;

pub const WS: u8 = 1;

pub const DIGIT: u8 = 2;

pub const LETTER: u8 = 3;

pub const DOT: u8 = 4;

pub const ADD: u8 = 5;

pub const SUB: u8 = 6;

pub const MUL: u8 = 7;

pub const DIV: u8 = 8;

pub const POW: u8 = 9;

pub const UNDER: u8 = 10;

pub const LPAREN: u8 = 11;

pub const RPAREN: u8 = 12;

/// The class of byte `b`.
pub open spec fn class_of(b: u8) -> u8 {
    if b == 32 || b == 9 || b == 13 || b == 10 {
        WS
    } else if 48 <= b <= 57 {
        DIGIT
    } else if 97 <= b <= 122 {
        LETTER
    } else if b == 46 {
        DOT
    } else if b == 43 {
        ADD
    } else if b == 45 {
        SUB
    } else if b == 42 {
        MUL
    } else if b == 47 {
        DIV
    } else if b == 94 {
        POW
    } else if b == 95 {
        UNDER
    } else if b == 40 {
        LPAREN
    } else if b == 41 {
        RPAREN
    } else {
        ILLEGAL
    }
}

/// Classify one byte.
pub fn class(b: u8) -> (c: u8)
    ensures
        c == class_of(b),
{
    if b == 32 || b == 9 || b == 13 || b == 10 {
        WS
    } else if 48 <= b && b <= 57 {
        DIGIT
    } else if 97 <= b && b <= 122 {
        LETTER
    } else if b == 46 {
        DOT
    } else if b == 43 {
        ADD
    } else if b == 45 {
        SUB
    } else if b == 42 {
        MUL
    } else if b == 47 {
        DIV
    } else if b == 94 {
        POW
    } else if b == 95 {
        UNDER
    } else if b == 40 {
        LPAREN
    } else if b == 41 {
        RPAREN
    } else {
        ILLEGAL
    }
}

} // verus!
