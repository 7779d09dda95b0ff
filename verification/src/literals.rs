//! Number literals with an exponent: `digits`, `e` or `E`, an optional
//! `+` or `-`, `digits` read as one number, the mantissa times ten to
//! the signed exponent, rounded to binary64.
use vstd::prelude::*;
use crate::binary64::{rne, INF_MAG};
use crate::decimal::{
    digit_run, digits_value, is_digit, lit_bits, lit_end, lit_exp_digits, lit_frac_end, lit_has_dot, lit_has_exp,
    lit_int_end, lit_mant_digits, lit_shift, p10, starts_number,
};
use crate::error::Error;
use crate::lex::{lex_all, lex_at, lemma_lex_all_unfold, ws_end, Lexed, Tok};
use crate::compile::{run, step, Params};
use crate::resolve::Resolve;
use crate::wire::num_ins;
use crate::writer::{Lim, Sink};

verus! {

/// A nonempty run of ASCII digits.
pub open spec fn all_digits(s: Seq<u8>) -> bool {
    s.len() > 0 && forall|x: int| 0 <= x < s.len() ==> is_digit(#[trigger] s[x])
}

/// An exponent sign: none, `+` or `-`.
pub open spec fn exp_sign(sign: Seq<u8>) -> bool {
    sign.len() == 0 || sign == seq![43u8] || sign == seq![45u8]
}

/// The literal `mant`, `e` (or `E`), `sign`, `exp`.
pub open spec fn exp_literal(mant: Seq<u8>, e: u8, sign: Seq<u8>, exp: Seq<u8>) -> Seq<u8> {
    mant + seq![e] + sign + exp
}

/// The literal's value as a fraction: `mant * 10^exp`, or
/// `mant / 10^exp` with a `-` sign; numerator first.
pub open spec fn exp_value(mant: Seq<u8>, sign: Seq<u8>, exp: Seq<u8>) -> (nat, nat) {
    if sign == seq![45u8] {
        (digits_value(mant), p10(digits_value(exp)))
    } else {
        (digits_value(mant) * p10(digits_value(exp)), 1)
    }
}

proof fn lemma_digits_to(s: Seq<u8>, i: int, end: int)
    requires
        0 <= i <= end <= s.len(),
        forall|x: int| i <= x < end ==> is_digit(#[trigger] s[x]),
        end < s.len() ==> !is_digit(s[end]),
    ensures
        digit_run(s, i) == end,
    decreases end - i,
{
    if i < end {
        lemma_digits_to(s, i + 1, end);
    }
}

/// Such a literal is read whole, to the rounded value of the mantissa
/// times ten to the signed exponent.
pub proof fn lemma_exp_literal(mant: Seq<u8>, e: u8, sign: Seq<u8>, exp: Seq<u8>)
    requires
        all_digits(mant),
        e == 101u8 || e == 69u8,
        exp_sign(sign),
        all_digits(exp),
    ensures
        ({
            let src = exp_literal(mant, e, sign, exp);
            let (num, den) = exp_value(mant, sign, exp);
            &&& starts_number(src, 0)
            &&& lit_end(src, 0) == src.len()
            &&& lit_bits(src, 0) == rne(num, den)
        }),
{
    let src = exp_literal(mant, e, sign, exp);
    let m = mant.len() as int;
    let j = m + 1 + sign.len();
    assert(src[0] == mant[0]);
    assert(src[m] == e);
    assert forall|x: int| 0 <= x < m implies is_digit(#[trigger] src[x]) by {
        assert(src[x] == mant[x]);
    }
    lemma_digits_to(src, 0, m);
    assert(lit_int_end(src, 0) == m);
    assert(!lit_has_dot(src, 0));
    assert(lit_frac_end(src, 0) == m);
    if sign.len() > 0 {
        assert(src[m + 1] == sign[0]);
    } else {
        assert(src[m + 1] == exp[0]);
    }
    assert(lit_exp_digits(src, 0) == j);
    assert(src[j] == exp[0]);
    assert(lit_has_exp(src, 0));
    assert forall|x: int| j <= x < src.len() implies is_digit(#[trigger] src[x]) by {
        assert(src[x] == exp[x - j]);
    }
    lemma_digits_to(src, j, src.len() as int);
    assert(lit_end(src, 0) == src.len());
    assert(src.subrange(0, m) =~= mant);
    assert(lit_mant_digits(src, 0) =~= mant);
    assert(src.subrange(j, src.len() as int) =~= exp);
    if sign == seq![45u8] {
        assert(src[m + 1] == 45u8);
    } else if sign.len() > 0 {
        assert(src[m + 1] == 43u8);
    }
    let k = digits_value(exp);
    assert(crate::decimal::lit_frac_len(src, 0) == 0);
    assert(crate::decimal::lit_mant(src, 0) == digits_value(mant));
    if sign == seq![45u8] {
        assert(lit_shift(src, 0) == -(k as int));
        if k == 0 {
            assert(p10(0) == 1);
            assert(digits_value(mant) * p10(0) == digits_value(mant));
        }
    } else {
        assert(lit_shift(src, 0) == k as int);
    }
    assert(crate::decimal::lit_num(src, 0) == exp_value(mant, sign, exp).0);
    assert(crate::decimal::lit_den(src, 0) == exp_value(mant, sign, exp).1);
}

/// The lexer reads such a literal as exactly one number token spanning
/// it, or refuses it as an invalid number when it overflows binary64.
pub proof fn lemma_exp_literal_lexes(mant: Seq<u8>, e: u8, sign: Seq<u8>, exp: Seq<u8>)
    requires
        all_digits(mant),
        e == 101u8 || e == 69u8,
        exp_sign(sign),
        all_digits(exp),
    ensures
        ({
            let src = exp_literal(mant, e, sign, exp);
            let (num, den) = exp_value(mant, sign, exp);
            let bits = rne(num, den);
            if bits < INF_MAG {
                lex_all(src, 0) == (seq![(0int, Tok::Num(bits as u64))], None::<Error>)
            } else {
                lex_all(src, 0) == (Seq::<(int, Tok)>::empty(), Some(Error::InvalidNumber { pos: 0 }))
            }
        }),
{
    let src = exp_literal(mant, e, sign, exp);
    lemma_exp_literal(mant, e, sign, exp);
    assert(src[0] == mant[0]);
    assert(ws_end(src, 0) == 0);
    lemma_lex_all_unfold(src, 0);
    assert(ws_end(src, src.len() as int) == src.len());
    assert(lex_at(src, src.len() as int) is End);
    lemma_lex_all_unfold(src, src.len() as int);
    assert(seq![(0int, Tok::Num(rne(exp_value(mant, sign, exp).0, exp_value(mant, sign, exp).1) as u64))]
        + Seq::<(int, Tok)>::empty() =~= seq![(0int, Tok::Num(rne(exp_value(mant, sign, exp).0, exp_value(mant, sign, exp).1) as u64))]);
}

/// Compiling such a literal alone writes the one `NUM` instruction of
/// its rounded value (or reports it invalid when it overflows).
pub proof fn lemma_exp_literal_compiles<R: Resolve>(
    res: &R,
    cfg: crate::config::Config,
    mant: Seq<u8>,
    e: u8,
    sign: Seq<u8>,
    exp: Seq<u8>,
    buflen: nat,
    stack_len: nat,
    substitute: bool,
)
    requires
        all_digits(mant),
        e == 101u8 || e == 69u8,
        exp_sign(sign),
        all_digits(exp),
        stack_len >= crate::config::spec_scratch_len(cfg.spec_max_depth()),
        buflen >= 9,
        cfg.spec_output_limit() >= 9,
    ensures
        ({
            let src = exp_literal(mant, e, sign, exp);
            let (num, den) = exp_value(mant, sign, exp);
            let bits = rne(num, den);
            let c = crate::compile::compile_spec(res, cfg, src, buflen, stack_len, substitute);
            if bits < INF_MAG {
                c == Sink { out: num_ins(bits as u64), err: None }
            } else {
                c.err == Some(Error::InvalidNumber { pos: 0 })
            }
        }),
{
    let src = exp_literal(mant, e, sign, exp);
    let (num, den) = exp_value(mant, sign, exp);
    let bits = rne(num, den);
    lemma_exp_literal_lexes(mant, e, sign, exp);
    let lx = lex_all(src, 0);
    let p = Params {
        lim: Lim { buflen: buflen, limit: cfg.spec_output_limit() as nat },
        max_depth: cfg.spec_max_depth() as nat,
        stack_len: stack_len,
        substitute: substitute,
        eof: src.len(),
    };
    let e0 = crate::compile::initial_eng();
    if bits < INF_MAG {
        let v = bits as u64;
        crate::wire::lemma_le_bytes_len(v as nat, 8);
        assert(num_ins(v).len() == 9);
        let (e2, j) = step(res, p, lx.0, lx.1, 0, e0);
        assert(j == 1);
        assert(e2.sink == Sink { out: Seq::<u8>::empty() + num_ins(v), err: None });
        assert(Seq::<u8>::empty() + num_ins(v) =~= num_ins(v));
        assert(e2.ops.len() == 0);
        assert(!e2.expect_operand);
        assert(run(res, p, lx.0, lx.1, 1, e2) == crate::compile::finish(e2, p));
        assert(crate::compile::drain(e2, p) == e2);
        assert(run(res, p, lx.0, lx.1, 0, e0) == run(res, p, lx.0, lx.1, 1, e2));
    } else {
        assert(run(res, p, lx.0, lx.1, 0, e0).sink.err == Some(Error::InvalidNumber { pos: 0 }));
    }
}

/// A run of ASCII digits, possibly empty.
pub open spec fn digit_seq(s: Seq<u8>) -> bool {
    forall|x: int| 0 <= x < s.len() ==> is_digit(#[trigger] s[x])
}

/// The literal `whole`, then `.` and `frac` when `dot`, then `e` (or `E`),
/// `sign` and `exp` when `has_e`.
pub open spec fn literal(whole: Seq<u8>, dot: bool, frac: Seq<u8>, has_e: bool, e: u8, sign: Seq<u8>, exp: Seq<u8>) -> Seq<u8> {
    whole + (if dot { seq![46u8] + frac } else { Seq::empty() }) + (if has_e { seq![e] + sign + exp } else { Seq::empty() })
}

/// The parts form a number literal: digits before an optional dot and
/// fraction (at least one digit in all), then an optional exponent of
/// at least one digit with an optional sign.
pub open spec fn literal_ok(whole: Seq<u8>, dot: bool, frac: Seq<u8>, has_e: bool, e: u8, sign: Seq<u8>, exp: Seq<u8>) -> bool {
    &&& digit_seq(whole)
    &&& digit_seq(frac)
    &&& (!dot ==> frac.len() == 0)
    &&& (whole.len() > 0 || frac.len() > 0)
    &&& (has_e ==> (e == 101u8 || e == 69u8) && exp_sign(sign) && all_digits(exp))
}

/// The literal's value as a fraction, numerator first: the digits of
/// `whole` and `frac` as one integer, times ten to the signed exponent,
/// divided by ten to the number of fraction digits.
pub open spec fn literal_value(whole: Seq<u8>, frac: Seq<u8>, has_e: bool, sign: Seq<u8>, exp: Seq<u8>) -> (nat, nat) {
    let m = digits_value(whole + frac);
    let x: int = if !has_e {
        0
    } else if sign == seq![45u8] {
        -(digits_value(exp) as int)
    } else {
        digits_value(exp) as int
    };
    let k = x - frac.len();
    if k >= 0 {
        (m * p10(k as nat), 1)
    } else {
        (m, p10((-k) as nat))
    }
}

/// Any number literal is read whole, to the rounded value of its
/// mantissa times ten to its scale.
pub proof fn lemma_literal(whole: Seq<u8>, dot: bool, frac: Seq<u8>, has_e: bool, e: u8, sign: Seq<u8>, exp: Seq<u8>)
    requires
        literal_ok(whole, dot, frac, has_e, e, sign, exp),
    ensures
        ({
            let src = literal(whole, dot, frac, has_e, e, sign, exp);
            let (num, den) = literal_value(whole, frac, has_e, sign, exp);
            &&& starts_number(src, 0)
            &&& lit_end(src, 0) == src.len()
            &&& lit_bits(src, 0) == rne(num, den)
        }),
{
    let src = literal(whole, dot, frac, has_e, e, sign, exp);
    let a = whole.len() as int;
    let f = frac.len() as int;
    let b = if dot { a + 1 + f } else { a };
    let fp: Seq<u8> = if dot { seq![46u8] + frac } else { Seq::empty() };
    let ep: Seq<u8> = if has_e { seq![e] + sign + exp } else { Seq::empty() };
    assert(src == whole + fp + ep);
    assert(src.len() == b + ep.len());
    assert forall|x: int| 0 <= x < a implies is_digit(#[trigger] src[x]) by {
        assert(src[x] == whole[x]);
    }
    if a < src.len() {
        if dot {
            assert(src[a] == 46u8);
        } else {
            assert(src[a] == e);
        }
    }
    lemma_digits_to(src, 0, a);
    assert(lit_int_end(src, 0) == a);
    assert(lit_has_dot(src, 0) == dot);
    if dot {
        assert forall|x: int| a + 1 <= x < b implies is_digit(#[trigger] src[x]) by {
            assert(src[x] == frac[x - a - 1]);
        }
        if b < src.len() {
            assert(src[b] == e);
        }
        lemma_digits_to(src, a + 1, b);
    }
    assert(lit_frac_end(src, 0) == b);
    if a == 0 {
        assert(src[0] == 46u8);
        assert(src[1] == frac[0]);
    } else {
        assert(src[0] == whole[0]);
    }
    assert(starts_number(src, 0));
    if has_e {
        let j = b + 1 + sign.len();
        assert(src[b] == e);
        if sign.len() > 0 {
            assert(src[b + 1] == sign[0]);
        } else {
            assert(src[b + 1] == exp[0]);
        }
        assert(lit_exp_digits(src, 0) == j);
        assert(src[j] == exp[0]);
        assert(lit_has_exp(src, 0));
        assert forall|x: int| j <= x < src.len() implies is_digit(#[trigger] src[x]) by {
            assert(src[x] == exp[x - j]);
        }
        lemma_digits_to(src, j, src.len() as int);
        assert(src.subrange(j, src.len() as int) =~= exp);
        if sign == seq![45u8] {
            assert(src[b + 1] == 45u8);
        } else if sign.len() > 0 {
            assert(src[b + 1] == 43u8);
        }
    } else {
        assert(!lit_has_exp(src, 0));
    }
    assert(lit_end(src, 0) == src.len());
    if dot {
        assert(src.subrange(0, a) + src.subrange(a + 1, b) =~= whole + frac);
    } else {
        assert(src.subrange(0, a) =~= whole + frac);
    }
    assert(lit_mant_digits(src, 0) =~= whole + frac);
    assert(crate::decimal::lit_frac_len(src, 0) == f);
    assert(crate::decimal::lit_mant(src, 0) == digits_value(whole + frac));
    let x: int = if !has_e {
        0
    } else if sign == seq![45u8] {
        -(digits_value(exp) as int)
    } else {
        digits_value(exp) as int
    };
    assert(lit_shift(src, 0) == x - f);
    assert(crate::decimal::lit_num(src, 0) == literal_value(whole, frac, has_e, sign, exp).0);
    assert(crate::decimal::lit_den(src, 0) == literal_value(whole, frac, has_e, sign, exp).1);
}

/// The lexer reads any number literal as exactly one number token
/// spanning it, or refuses it as an invalid number when it overflows
/// binary64.
pub proof fn lemma_literal_lexes(whole: Seq<u8>, dot: bool, frac: Seq<u8>, has_e: bool, e: u8, sign: Seq<u8>, exp: Seq<u8>)
    requires
        literal_ok(whole, dot, frac, has_e, e, sign, exp),
    ensures
        ({
            let src = literal(whole, dot, frac, has_e, e, sign, exp);
            let (num, den) = literal_value(whole, frac, has_e, sign, exp);
            let bits = rne(num, den);
            if bits < INF_MAG {
                lex_all(src, 0) == (seq![(0int, Tok::Num(bits as u64))], None::<Error>)
            } else {
                lex_all(src, 0) == (Seq::<(int, Tok)>::empty(), Some(Error::InvalidNumber { pos: 0 }))
            }
        }),
{
    let src = literal(whole, dot, frac, has_e, e, sign, exp);
    let (num, den) = literal_value(whole, frac, has_e, sign, exp);
    lemma_literal(whole, dot, frac, has_e, e, sign, exp);
    if whole.len() > 0 {
        assert(src[0] == whole[0]);
    } else {
        assert(src[0] == 46u8);
    }
    assert(ws_end(src, 0) == 0);
    lemma_lex_all_unfold(src, 0);
    assert(ws_end(src, src.len() as int) == src.len());
    assert(lex_at(src, src.len() as int) is End);
    lemma_lex_all_unfold(src, src.len() as int);
    assert(seq![(0int, Tok::Num(rne(num, den) as u64))] + Seq::<(int, Tok)>::empty() =~= seq![
        (0int, Tok::Num(rne(num, den) as u64)),
    ]);
}

/// Compiling any number literal alone writes the one `NUM` instruction
/// of its rounded value (or reports it invalid when it overflows).
pub proof fn lemma_literal_compiles<R: Resolve>(
    res: &R,
    cfg: crate::config::Config,
    whole: Seq<u8>,
    dot: bool,
    frac: Seq<u8>,
    has_e: bool,
    e: u8,
    sign: Seq<u8>,
    exp: Seq<u8>,
    buflen: nat,
    stack_len: nat,
    substitute: bool,
)
    requires
        literal_ok(whole, dot, frac, has_e, e, sign, exp),
        stack_len >= crate::config::spec_scratch_len(cfg.spec_max_depth()),
        buflen >= 9,
        cfg.spec_output_limit() >= 9,
    ensures
        ({
            let src = literal(whole, dot, frac, has_e, e, sign, exp);
            let (num, den) = literal_value(whole, frac, has_e, sign, exp);
            let bits = rne(num, den);
            let c = crate::compile::compile_spec(res, cfg, src, buflen, stack_len, substitute);
            if bits < INF_MAG {
                c == Sink { out: num_ins(bits as u64), err: None }
            } else {
                c.err == Some(Error::InvalidNumber { pos: 0 })
            }
        }),
{
    let src = literal(whole, dot, frac, has_e, e, sign, exp);
    let (num, den) = literal_value(whole, frac, has_e, sign, exp);
    let bits = rne(num, den);
    lemma_literal_lexes(whole, dot, frac, has_e, e, sign, exp);
    let lx = lex_all(src, 0);
    let p = Params {
        lim: Lim { buflen: buflen, limit: cfg.spec_output_limit() as nat },
        max_depth: cfg.spec_max_depth() as nat,
        stack_len: stack_len,
        substitute: substitute,
        eof: src.len(),
    };
    let e0 = crate::compile::initial_eng();
    if bits < INF_MAG {
        let v = bits as u64;
        crate::wire::lemma_le_bytes_len(v as nat, 8);
        assert(num_ins(v).len() == 9);
        let (e2, j) = step(res, p, lx.0, lx.1, 0, e0);
        assert(j == 1);
        assert(e2.sink == Sink { out: Seq::<u8>::empty() + num_ins(v), err: None });
        assert(Seq::<u8>::empty() + num_ins(v) =~= num_ins(v));
        assert(run(res, p, lx.0, lx.1, 1, e2) == crate::compile::finish(e2, p));
        assert(crate::compile::drain(e2, p) == e2);
        assert(run(res, p, lx.0, lx.1, 0, e0) == run(res, p, lx.0, lx.1, 1, e2));
    } else {
        assert(run(res, p, lx.0, lx.1, 0, e0).sink.err == Some(Error::InvalidNumber { pos: 0 }));
    }
}

/// `10^(a + b) = 10^a * 10^b`, and `10^1 = 10`.
pub proof fn lemma_p10_add(a: nat, b: nat)
    ensures
        p10(a + b) == p10(a) * p10(b),
        p10(1) == 10,
    decreases b,
{
    assert(p10(0) == 1);
    assert(p10(1) == 10 * p10(0));
    if b > 0 {
        let b1 = (b - 1) as nat;
        lemma_p10_add(a, b1);
        let n: nat = a + b;
        assert(((n - 1) as nat) == a + b1);
        assert(p10(n) == 10 * p10((n - 1) as nat));
        assert(p10(b) == 10 * p10(b1));
        let x = p10(a);
        let y = p10(b1);
        assert(p10(a + b1) == x * y);
        assert(10 * (x * y) == x * (10 * y)) by (nonlinear_arith);
    } else {
        assert(a + b == a);
        assert(p10(a) * 1 == p10(a));
    }
}

/// A digit string is read in base ten: one digit is its own value, and
/// appending `t` to `s` multiplies the value of `s` by ten per digit of
/// `t` and adds the value of `t`.
pub proof fn lemma_digits_value_append(s: Seq<u8>, t: Seq<u8>)
    requires
        digit_seq(s),
        digit_seq(t),
    ensures
        digits_value(s + t) == digits_value(s) * p10(t.len()) + digits_value(t),
        t.len() == 1 ==> digits_value(t) == t[0] - 48,
    decreases t.len(),
{
    if t.len() == 0 {
        assert(s + t =~= s);
        assert(p10(0) == 1);
    } else {
        let t2 = t.drop_last();
        let d = t.last();
        lemma_digits_value_append(s, t2);
        assert((s + t).drop_last() =~= s + t2);
        assert((s + t).last() == d);
        assert(digits_value(s + t) == digits_value(s + t2) * 10 + (d - 48) as nat);
        assert(digits_value(t) == digits_value(t2) * 10 + (d - 48) as nat);
        assert(p10(t.len()) == 10 * p10(t2.len()));
        let a = digits_value(s);
        let b = digits_value(t2);
        let q = p10(t2.len());
        assert((a * q + b) * 10 + (d - 48) as nat == a * (10 * q) + (b * 10 + (d - 48) as nat)) by (nonlinear_arith);
        if t.len() == 1 {
            assert(t2.len() == 0);
            assert(digits_value(t2) == 0);
        }
    }
}

} // verus!
