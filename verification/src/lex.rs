//! The lexer: one left-to-right scan producing tokens on demand.
//!
//! Token kind is decided by the byte class of the first byte. Numbers
//! follow `[digits][.digits]([eE][+-]digits)?` and are converted to
//! their correctly rounded binary64 encoding; identifiers are matched as
//! whole words, so multi-letter unknown words are errors rather than
//! implicit multiplication.
use vstd::prelude::*;
use crate::binary64::INF_MAG;
use crate::decimal::{lit_bits, lit_end, lit_layout, scan_decimal, starts_number};
use crate::num::fast_at;
use crate::class::{class, ADD, DIGIT, DIV, DOT, LETTER, LPAREN, MUL, POW, RPAREN, SUB, UNDER};
use crate::error::Error;
use crate::opcodes;

verus! {

/// A lexical token. Numbers carry their binary64 encoding.
#[derive(Clone, Copy, Debug, PartialEq, Eq, Structural)]
pub enum Tok {
    Num(u64),
    Var(u8),
    Const(u8),
    Func(u8),
    Add,
    Sub,
    Mul,
    Div,
    Pow,
    Underscore,
    LParen,
    RParen,
}

impl Tok {
    /// True for tokens that may begin an operand.
    pub open spec fn spec_starts_operand(self) -> bool {
        self is Num || self is Var || self is Const || self is Func || self is LParen
    }

    /// True for tokens that may begin an operand (drives implicit
    /// multiplication).
    pub fn starts_operand(&self) -> (r: bool)
        ensures
            r == self.spec_starts_operand(),
    {
        match self {
            Tok::Num(_) | Tok::Var(_) | Tok::Const(_) | Tok::Func(_) | Tok::LParen => true,
            _ => false,
        }
    }
}

pub open spec fn is_ws(b: u8) -> bool {
    b == 32 || b == 9 || b == 13 || b == 10
}

pub open spec fn is_lower(b: u8) -> bool {
    97 <= b <= 122
}

/// First non-whitespace position at or after `i`.
pub open spec fn ws_end(s: Seq<u8>, i: int) -> int
    decreases s.len() - i,
{
    if 0 <= i < s.len() && is_ws(s[i]) {
        ws_end(s, i + 1)
    } else {
        i
    }
}

/// End of the run of lowercase letters starting at `i`.
pub open spec fn letter_run(s: Seq<u8>, i: int) -> int
    decreases s.len() - i,
{
    if 0 <= i < s.len() && is_lower(s[i]) {
        letter_run(s, i + 1)
    } else {
        i
    }
}

/// The token a whole word denotes: a function, a constant, or a
/// single-letter variable.
pub open spec fn word_tok(w: Seq<u8>) -> Option<Tok> {
    if w == seq![115u8, 105, 110] {
        Some(Tok::Func(opcodes::funcs::SIN))
    } else if w == seq![99u8, 111, 115] {
        Some(Tok::Func(opcodes::funcs::COS))
    } else if w == seq![116u8, 97, 110] {
        Some(Tok::Func(opcodes::funcs::TAN))
    } else if w == seq![97u8, 115, 105, 110] {
        Some(Tok::Func(opcodes::funcs::ASIN))
    } else if w == seq![97u8, 99, 111, 115] {
        Some(Tok::Func(opcodes::funcs::ACOS))
    } else if w == seq![97u8, 116, 97, 110] {
        Some(Tok::Func(opcodes::funcs::ATAN))
    } else if w == seq![108u8, 110] {
        Some(Tok::Func(opcodes::funcs::LN))
    } else if w == seq![108u8, 111, 103] {
        Some(Tok::Func(opcodes::funcs::LOG))
    } else if w == seq![101u8] {
        Some(Tok::Const(opcodes::consts::E))
    } else if w == seq![112u8, 105] {
        Some(Tok::Const(opcodes::consts::PI))
    } else if w.len() == 1 {
        Some(Tok::Var(w[0]))
    } else {
        None
    }
}

/// The single-byte tokens.
pub open spec fn single_tok(b: u8) -> Option<Tok> {
    if b == 43 {
        Some(Tok::Add)
    } else if b == 45 {
        Some(Tok::Sub)
    } else if b == 42 {
        Some(Tok::Mul)
    } else if b == 47 {
        Some(Tok::Div)
    } else if b == 94 {
        Some(Tok::Pow)
    } else if b == 95 {
        Some(Tok::Underscore)
    } else if b == 40 {
        Some(Tok::LParen)
    } else if b == 41 {
        Some(Tok::RParen)
    } else {
        None
    }
}

/// What the lexer finds at position `i`.
pub enum Lexed {
    End,
    Token { start: int, tok: Tok, end: int },
    Fail(Error),
}

/// The next token at or after position `i` (after whitespace).
pub open spec fn lex_at(src: Seq<u8>, i: int) -> Lexed {
    let p = ws_end(src, i);
    if p >= src.len() {
        Lexed::End
    } else if starts_number(src, p) {
        if lit_bits(src, p) >= INF_MAG {
            Lexed::Fail(Error::InvalidNumber { pos: p as usize })
        } else {
            Lexed::Token { start: p, tok: Tok::Num(lit_bits(src, p) as u64), end: lit_end(src, p) }
        }
    } else if is_lower(src[p]) {
        match word_tok(src.subrange(p, letter_run(src, p))) {
            Some(t) => Lexed::Token { start: p, tok: t, end: letter_run(src, p) },
            None => Lexed::Fail(Error::UnknownIdentifier { pos: p as usize }),
        }
    } else {
        match single_tok(src[p]) {
            Some(t) => Lexed::Token { start: p, tok: t, end: p + 1 },
            None => Lexed::Fail(Error::UnexpectedByte { pos: p as usize, byte: src[p] }),
        }
    }
}

pub proof fn lemma_ws_end(s: Seq<u8>, i: int)
    requires
        0 <= i <= s.len(),
    ensures
        i <= ws_end(s, i) <= s.len(),
        ws_end(s, i) < s.len() ==> !is_ws(s[ws_end(s, i)]),
    decreases s.len() - i,
{
    if i < s.len() && is_ws(s[i]) {
        lemma_ws_end(s, i + 1);
    }
}

pub proof fn lemma_letter_run(s: Seq<u8>, i: int)
    requires
        0 <= i <= s.len(),
    ensures
        i <= letter_run(s, i) <= s.len(),
        forall|j: int| i <= j < letter_run(s, i) ==> is_lower(s[j]),
    decreases s.len() - i,
{
    if i < s.len() && is_lower(s[i]) {
        lemma_letter_run(s, i + 1);
    }
}

/// Tokens advance: a token found at or after `i` ends after `i`.
pub proof fn lemma_lex_progress(src: Seq<u8>, i: int)
    requires
        0 <= i <= src.len(),
    ensures
        lex_at(src, i) matches Lexed::Token { start, tok, end } ==> i <= start < end <= src.len(),
{
    lemma_ws_end(src, i);
    let p = ws_end(src, i);
    if p < src.len() {
        if starts_number(src, p) {
            crate::decimal::lemma_lit_end(src, p);
        } else if is_lower(src[p]) {
            lemma_letter_run(src, p);
        }
    }
}

/// All tokens from position `i` up to the end or the first lexical error.
pub open spec fn lex_all(src: Seq<u8>, i: int) -> (Seq<(int, Tok)>, Option<Error>)
    decreases src.len() - i,
{
    if i < 0 || i > src.len() {
        (Seq::empty(), None)
    } else {
        match lex_at(src, i) {
            Lexed::End => (Seq::empty(), None),
            Lexed::Fail(e) => (Seq::empty(), Some(e)),
            Lexed::Token { start, tok, end } => {
                if i < end <= src.len() {
                    let rest = lex_all(src, end);
                    (seq![(start, tok)] + rest.0, rest.1)
                } else {
                    (Seq::empty(), None)
                }
            },
        }
    }
}

/// Unfolding [`lex_all`] one token.
pub proof fn lemma_lex_all_unfold(src: Seq<u8>, pos: int)
    requires
        0 <= pos <= src.len(),
    ensures
        match lex_at(src, pos) {
            Lexed::End => lex_all(src, pos) == (Seq::<(int, Tok)>::empty(), None::<Error>),
            Lexed::Fail(e) => lex_all(src, pos) == (Seq::<(int, Tok)>::empty(), Some(e)),
            Lexed::Token { start, tok, end } => {
                &&& pos <= start < end <= src.len()
                &&& lex_all(src, pos) == (seq![(start, tok)] + lex_all(src, end).0, lex_all(src, end).1)
            },
        },
{
    lemma_lex_progress(src, pos);
}

/// What every token the lexer produces satisfies: numbers are finite,
/// variables are letters, constant and function ids are known.
pub open spec fn tok_ok(t: Tok) -> bool {
    match t {
        Tok::Num(v) => v < INF_MAG,
        Tok::Var(n) => is_lower(n),
        Tok::Const(id) => id == opcodes::consts::E || id == opcodes::consts::PI,
        Tok::Func(id) => opcodes::funcs::SIN <= id <= opcodes::funcs::LOG,
        _ => true,
    }
}

pub open spec fn toks_ok(toks: Seq<(int, Tok)>) -> bool {
    forall|k: int| 0 <= k < toks.len() ==> tok_ok(#[trigger] toks[k].1)
}

pub proof fn lemma_lex_all_ok(src: Seq<u8>, pos: int)
    requires
        0 <= pos <= src.len(),
    ensures
        toks_ok(lex_all(src, pos).0),
    decreases src.len() - pos,
{
    lemma_lex_all_unfold(src, pos);
    match lex_at(src, pos) {
        Lexed::Token { start, tok, end } => {
            lemma_lex_all_ok(src, end);
            let p = ws_end(src, pos);
            lemma_ws_end(src, pos);
            if !starts_number(src, p) && is_lower(src[p]) {
                lemma_letter_run(src, p);
            }
            let t = lex_all(src, pos).0;
            assert forall|k: int| 0 <= k < t.len() implies tok_ok(#[trigger] t[k].1) by {
                if k > 0 {
                    assert(t[k] == lex_all(src, end).0[k - 1]);
                }
            }
        },
        _ => {},
    }
}

/// Exec counterpart of [`ws_end`].
pub fn skip_ws(src: &[u8], i: usize) -> (r: usize)
    requires
        i <= src@.len(),
    ensures
        r == ws_end(src@, i as int),
{
    let mut j = i;
    while j < src.len() && (src[j] == 32 || src[j] == 9 || src[j] == 13 || src[j] == 10)
        invariant
            i <= j <= src@.len(),
            ws_end(src@, i as int) == ws_end(src@, j as int),
        decreases src@.len() - j,
    {
        j = j + 1;
    }
    j
}

/// Exec counterpart of [`letter_run`].
pub fn span_letters(src: &[u8], i: usize) -> (r: usize)
    requires
        i <= src@.len(),
    ensures
        r == letter_run(src@, i as int),
{
    let mut j = i;
    while j < src.len() && src[j] >= 97 && src[j] <= 122
        invariant
            i <= j <= src@.len(),
            letter_run(src@, i as int) == letter_run(src@, j as int),
        decreases src@.len() - j,
    {
        j = j + 1;
    }
    j
}

/// Exec counterpart of [`word_tok`].
fn ident_tok(src: &[u8], start: usize, end: usize) -> (r: Option<Tok>)
    requires
        start < end <= src@.len(),
    ensures
        r == word_tok(src@.subrange(start as int, end as int)),
{
    let ghost w = src@.subrange(start as int, end as int);
    let n = end - start;
    if n == 1 {
        let c = src[start];
        if c == 101 {
            proof { assert(w =~= seq![101u8]); }
            Some(Tok::Const(opcodes::consts::E))
        } else {
            proof {
                assert(w[0] == c);
                assert(w != seq![101u8]);
            }
            Some(Tok::Var(c))
        }
    } else if n == 2 {
        let (c0, c1) = (src[start], src[start + 1]);
        proof {
            assert(w[0] == c0 && w[1] == c1);
        }
        if c0 == 108 && c1 == 110 {
            proof { assert(w =~= seq![108u8, 110]); }
            Some(Tok::Func(opcodes::funcs::LN))
        } else if c0 == 112 && c1 == 105 {
            proof { assert(w =~= seq![112u8, 105]); }
            Some(Tok::Const(opcodes::consts::PI))
        } else {
            proof {
                assert(w != seq![108u8, 110]);
                assert(w != seq![112u8, 105]);
            }
            None
        }
    } else if n == 3 {
        let (c0, c1, c2) = (src[start], src[start + 1], src[start + 2]);
        proof {
            assert(w[0] == c0 && w[1] == c1 && w[2] == c2);
        }
        if c0 == 115 && c1 == 105 && c2 == 110 {
            proof { assert(w =~= seq![115u8, 105, 110]); }
            Some(Tok::Func(opcodes::funcs::SIN))
        } else if c0 == 99 && c1 == 111 && c2 == 115 {
            proof { assert(w =~= seq![99u8, 111, 115]); }
            Some(Tok::Func(opcodes::funcs::COS))
        } else if c0 == 116 && c1 == 97 && c2 == 110 {
            proof { assert(w =~= seq![116u8, 97, 110]); }
            Some(Tok::Func(opcodes::funcs::TAN))
        } else if c0 == 108 && c1 == 111 && c2 == 103 {
            proof { assert(w =~= seq![108u8, 111, 103]); }
            Some(Tok::Func(opcodes::funcs::LOG))
        } else {
            proof {
                assert(w != seq![115u8, 105, 110]);
                assert(w != seq![99u8, 111, 115]);
                assert(w != seq![116u8, 97, 110]);
                assert(w != seq![108u8, 111, 103]);
            }
            None
        }
    } else if n == 4 {
        let (c0, c1, c2, c3) = (src[start], src[start + 1], src[start + 2], src[start + 3]);
        proof {
            assert(w[0] == c0 && w[1] == c1 && w[2] == c2 && w[3] == c3);
        }
        if c0 == 97 && c1 == 115 && c2 == 105 && c3 == 110 {
            proof { assert(w =~= seq![97u8, 115, 105, 110]); }
            Some(Tok::Func(opcodes::funcs::ASIN))
        } else if c0 == 97 && c1 == 99 && c2 == 111 && c3 == 115 {
            proof { assert(w =~= seq![97u8, 99, 111, 115]); }
            Some(Tok::Func(opcodes::funcs::ACOS))
        } else if c0 == 97 && c1 == 116 && c2 == 97 && c3 == 110 {
            proof { assert(w =~= seq![97u8, 116, 97, 110]); }
            Some(Tok::Func(opcodes::funcs::ATAN))
        } else {
            proof {
                assert(w != seq![97u8, 115, 105, 110]);
                assert(w != seq![97u8, 99, 111, 115]);
                assert(w != seq![97u8, 116, 97, 110]);
            }
            None
        }
    } else {
        None
    }
}

/// The lexer's position in its source.
pub struct Scanner {
    pub pos: usize,
}

impl Scanner {
    pub fn new() -> (r: Scanner)
        ensures
            r.pos == 0,
    {
        Scanner { pos: 0 }
    }

    /// Lex the next token: `Ok(None)` at the end of input.
    pub fn next(&mut self, src: &[u8]) -> (r: Result<Option<(usize, Tok)>, Error>)
        requires
            old(self).pos <= src@.len(),
        ensures
            final(self).pos <= src@.len(),
            match lex_at(src@, old(self).pos as int) {
                Lexed::End => r == Ok::<Option<(usize, Tok)>, Error>(None),
                Lexed::Fail(e) => r == Err::<Option<(usize, Tok)>, Error>(e),
                Lexed::Token { start, tok, end } => r == Ok::<Option<(usize, Tok)>, Error>(
                    Some((start as usize, tok)),
                ) && final(self).pos == end,
            },
    {
        let p = skip_ws(src, self.pos);
        proof {
            lemma_ws_end(src@, old(self).pos as int);
        }
        self.pos = p;
        if p >= src.len() {
            return Ok(None);
        }
        let b = src[p];
        let c = class(b);
        let num_start = c == DIGIT || (c == DOT && p + 1 < src.len() && class(src[p + 1]) == DIGIT);
        if num_start {
            let (end, bits) = match fast_at(src, p) {
                Some(v) => (lit_layout(src, p).6, v),
                None => scan_decimal(src, p),
            };
            if bits == INF_MAG {
                return Err(Error::InvalidNumber { pos: p });
            }
            self.pos = end;
            return Ok(Some((p, Tok::Num(bits))));
        }
        if c == LETTER {
            let end = span_letters(src, p);
            proof {
                lemma_letter_run(src@, p as int + 1);
                assert(letter_run(src@, p as int) == letter_run(src@, p + 1));
            }
            return match ident_tok(src, p, end) {
                Some(t) => {
                    self.pos = end;
                    Ok(Some((p, t)))
                },
                None => Err(Error::UnknownIdentifier { pos: p }),
            };
        }
        let t = if c == ADD {
            Some(Tok::Add)
        } else if c == SUB {
            Some(Tok::Sub)
        } else if c == MUL {
            Some(Tok::Mul)
        } else if c == DIV {
            Some(Tok::Div)
        } else if c == POW {
            Some(Tok::Pow)
        } else if c == UNDER {
            Some(Tok::Underscore)
        } else if c == LPAREN {
            Some(Tok::LParen)
        } else if c == RPAREN {
            Some(Tok::RParen)
        } else {
            None
        };
        match t {
            Some(t) => {
                self.pos = p + 1;
                Ok(Some((p, t)))
            },
            None => Err(Error::UnexpectedByte { pos: p, byte: b }),
        }
    }
}

} // verus!
