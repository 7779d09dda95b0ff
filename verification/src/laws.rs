//! Properties of the library as a whole, each proved from the contracts'
//! own vocabulary.
use vstd::prelude::*;
use crate::compile::compile_spec;
use crate::config::{scratch_len_for, spec_scratch_len, Config};
use crate::decode::decode_spec;
use crate::error::Error;
use crate::resolve::{NoResolve, Resolve};
use crate::session::define_spec;
use crate::stream::{is_overflow, lemma_compile_ok, lemma_decode_ok};
use crate::writer::{Sink, Lim};
use crate::acyclic::defs_fn;
use crate::fold::{bit_of, cycle_walk, defs_of};
use crate::norec::lemma_compile_norec;
use crate::session::Session;
use crate::balance::{balanced, defs_balanced, lemma_compile_balanced, lemma_eval_balanced};
use crate::eval::eval_spec;
use crate::fold::{fold_at, Val, FOLD_CAP};
use crate::foldeval::{holds_nums, lemma_fold_eval, vars_fold};

verus! {

/// Bytecode compiled without substituting definitions (in particular
/// everything `parse_into` produces) is always accepted by
/// `decode_into`: decoding it can fail only for lack of output room,
/// never as malformed.
pub proof fn law_compiled_bytecode_decodes<R: Resolve>(
    res: &R,
    cfg: Config,
    src: Seq<u8>,
    buflen: nat,
    stack_len: nat,
    substitute: bool,
    text_len: nat,
)
    requires
        !substitute || forall|v: u8| #[trigger] res.spec_body(v) is None,
    ensures
        ({
            let c = compile_spec(res, cfg, src, buflen, stack_len, substitute);
            c.err is None ==> (decode_spec(c.out, text_len).err matches Some(e) ==> is_overflow(e))
        }),
{
    let c = compile_spec(res, cfg, src, buflen, stack_len, substitute);
    lemma_compile_ok(res, cfg, src, buflen, stack_len, substitute);
    assert(c.out.subrange(0, c.out.len() as int) =~= c.out);
    lemma_decode_ok(
        c.out,
        0,
        true,
        Sink { out: Seq::empty(), err: None },
        Lim { buflen: text_len, limit: usize::MAX as nat },
    );
}

/// `parse_into`'s output decodes (the default configuration, no
/// variables).
pub proof fn law_parsed_bytecode_decodes(src: Seq<u8>, buflen: nat, text_len: nat)
    ensures
        ({
            let c = compile_spec(&NoResolve, Config::spec_default(), src, buflen, 544, true);
            c.err is None ==> (decode_spec(c.out, text_len).err matches Some(e) ==> is_overflow(e))
        }),
{
    law_compiled_bytecode_decodes(&NoResolve, Config::spec_default(), src, buflen, 544, true, text_len);
}

/// A definition that fails (a bad target, a compile error, or a body
/// that leads back to its own variable) leaves every definition as it
/// was.
pub proof fn law_failed_define_keeps_definitions(
    defs: Map<u8, Seq<u8>>,
    cfg: Config,
    var: u8,
    src: Seq<u8>,
    buf: nat,
    stack_len: nat,
)
    ensures
        define_spec(defs, cfg, var, src, buf, stack_len).0 is Err ==> define_spec(defs, cfg, var, src, buf, stack_len).1
            == defs,
{
}

/// Definitions are stored lazily: the body a definition stores does not
/// depend on what the other variables are defined as.
pub proof fn law_stored_body_ignores_other_definitions(
    d1: Map<u8, Seq<u8>>,
    d2: Map<u8, Seq<u8>>,
    cfg: Config,
    var: u8,
    src: Seq<u8>,
    buf: nat,
    stack_len: nat,
)
    requires
        define_spec(d1, cfg, var, src, buf, stack_len).0 is Ok,
        define_spec(d2, cfg, var, src, buf, stack_len).0 is Ok,
    ensures
        define_spec(d1, cfg, var, src, buf, stack_len).0 == define_spec(d2, cfg, var, src, buf, stack_len).0,
        define_spec(d1, cfg, var, src, buf, stack_len).1.contains_key(var) ==> define_spec(
            d2,
            cfg,
            var,
            src,
            buf,
            stack_len,
        ).1[var] == define_spec(d1, cfg, var, src, buf, stack_len).1[var],
{
}

/// The scratch requirement is checked before anything else: a stack
/// below `scratch_len` fails with the requirement and writes nothing.
pub proof fn law_scratch_checked_first<R: Resolve>(
    res: &R,
    cfg: Config,
    src: Seq<u8>,
    buflen: nat,
    stack_len: nat,
    substitute: bool,
)
    requires
        stack_len < spec_scratch_len(cfg.spec_max_depth()),
    ensures
        compile_spec(res, cfg, src, buflen, stack_len, substitute).out.len() == 0,
        compile_spec(res, cfg, src, buflen, stack_len, substitute).err == Some(
            Error::ScratchTooSmall { needed: spec_scratch_len(cfg.spec_max_depth()), got: stack_len as usize },
        ),
{
}

/// Definition bodies stay lazy: compiling without substitution never
/// consults the definitions, so it writes and returns exactly what it
/// would with none at all (every variable is a `VAR` instruction).
pub proof fn law_no_substitution_ignores_definitions<R: Resolve>(
    res: &R,
    cfg: Config,
    src: Seq<u8>,
    buflen: nat,
    stack_len: nat,
)
    ensures
        compile_spec(res, cfg, src, buflen, stack_len, false) == compile_spec(
            &NoResolve,
            cfg,
            src,
            buflen,
            stack_len,
            false,
        ),
{
    crate::lazy::lemma_compile_lazy(res, cfg, src, buflen, stack_len);
}

/// The output room decides only whether the bytes fit. When compiling a
/// source succeeds under one configuration, compiling it with the same
/// depth, scratch and substitution under any other output limit and
/// buffer writes exactly the same bytes when they fit both the buffer
/// and the limit, and otherwise fails with `OutputLimitExceeded` when
/// the buffer reaches the limit, `BufferTooSmall` when it does not.
pub proof fn law_room_only_cuts_short<R: Resolve>(
    res: &R,
    c1: Config,
    c2: Config,
    src: Seq<u8>,
    buf1: nat,
    buf2: nat,
    stack_len: nat,
    substitute: bool,
)
    requires
        c1.spec_max_depth() == c2.spec_max_depth(),
        compile_spec(res, c2, src, buf2, stack_len, substitute).err is None,
    ensures
        ({
            let done = compile_spec(res, c2, src, buf2, stack_len, substitute);
            let other = compile_spec(res, c1, src, buf1, stack_len, substitute);
            if done.out.len() <= buf1 && done.out.len() <= c1.spec_output_limit() {
                other == done
            } else {
                other.err == Some(
                    if buf1 >= c1.spec_output_limit() {
                        Error::OutputLimitExceeded
                    } else {
                        Error::BufferTooSmall
                    },
                )
            }
        }),
{
    crate::limits::lemma_compile_cut(res, c1, c2, src, buf1, buf2, stack_len, substitute);
}

/// Only the tokens of a source matter: two sources that read as the same
/// tokens in the same order (such as one with white space added between
/// tokens) write the same bytes, and one fails exactly when the other
/// does; where the tokens stand shows only in error positions.
pub proof fn law_only_tokens_matter<R: Resolve>(
    res: &R,
    cfg: Config,
    s1: Seq<u8>,
    s2: Seq<u8>,
    buflen: nat,
    stack_len: nat,
    substitute: bool,
)
    requires
        crate::tokens::same_tokens(crate::lex::lex_all(s1, 0).0, crate::lex::lex_all(s2, 0).0),
        crate::lex::lex_all(s1, 0).1 is None,
        crate::lex::lex_all(s2, 0).1 is None,
    ensures
        compile_spec(res, cfg, s1, buflen, stack_len, substitute).out == compile_spec(
            res,
            cfg,
            s2,
            buflen,
            stack_len,
            substitute,
        ).out,
        compile_spec(res, cfg, s1, buflen, stack_len, substitute).err is None <==> compile_spec(
            res,
            cfg,
            s2,
            buflen,
            stack_len,
            substitute,
        ).err is None,
{
    crate::tokens::lemma_compile_twin(res, cfg, s1, s2, buflen, stack_len, substitute);
}

/// The solver reports each root once: every root it records lies more
/// than `1e-7 * (1 + |root|)` (in binary64 arithmetic) from the root
/// recorded before it, and it never writes past `found`.
pub proof fn law_solver_roots_stay_apart(st: crate::solve::Solver, d: u64, found: Seq<u64>)
    requires
        st.found_n <= found.len(),
        crate::solve::spaced(found, st.found_n as int),
    ensures
        ({
            let (st2, found2, _) = crate::solve::after(st, d, found);
            &&& crate::solve::spaced(found2, st2.found_n as int)
            &&& st2.found_n <= found2.len() == found.len()
        }),
{
    crate::solve::lemma_after_spaced(st, d, found);
}

/// A session without definitions (in particular a new one) compiles
/// exactly as the stateless entry points do with [`NoResolve`].
pub proof fn law_empty_session_compiles_plainly<const V: usize>(
    s: &Session<V>,
    src: Seq<u8>,
    buflen: nat,
    stack_len: nat,
)
    requires
        s@ == Map::<u8, Seq<u8>>::empty(),
    ensures
        compile_spec(s, s.spec_config(), src, buflen, stack_len, true) == compile_spec(
            &NoResolve,
            s.spec_config(),
            src,
            buflen,
            stack_len,
            true,
        ),
{
    assert forall|v: u8| #[trigger] s.spec_body(v) is None by {}
    crate::lazy::lemma_compile_undefined(s, s.spec_config(), src, buflen, stack_len, true);
}

/// The definitions after a history of edits, each `(define, var, src,
/// stack_len)`: a definition of `var` as `src` with that much scratch, or
/// (when `define` is false) an undefinition of `var`.
pub open spec fn replay(
    defs: Map<u8, Seq<u8>>,
    cfg: Config,
    buf: nat,
    edits: Seq<(bool, u8, Seq<u8>, nat)>,
) -> Map<u8, Seq<u8>>
    decreases edits.len(),
{
    if edits.len() == 0 {
        defs
    } else {
        let before = replay(defs, cfg, buf, edits.drop_last());
        let (define, var, src, stack_len) = edits.last();
        if define {
            define_spec(before, cfg, var, src, buf, stack_len).1
        } else {
            before.remove(var)
        }
    }
}

/// Whether the last edit of `v` in the history was a definition that
/// succeeded (or, with no edit of `v`, whether `v` was defined before).
pub open spec fn last_edit_defines(
    defs: Map<u8, Seq<u8>>,
    cfg: Config,
    buf: nat,
    edits: Seq<(bool, u8, Seq<u8>, nat)>,
    v: u8,
) -> bool
    decreases edits.len(),
{
    if edits.len() == 0 {
        defs.contains_key(v)
    } else {
        let (define, var, src, stack_len) = edits.last();
        if var != v {
            last_edit_defines(defs, cfg, buf, edits.drop_last(), v)
        } else if define {
            define_spec(replay(defs, cfg, buf, edits.drop_last()), cfg, var, src, buf, stack_len).0 is Ok
                || last_edit_defines(defs, cfg, buf, edits.drop_last(), v)
        } else {
            false
        }
    }
}

/// A letter is defined exactly when the last edit of it was a
/// definition that succeeded: a successful definition always defines
/// its letter, a failed one changes nothing, an undefinition removes
/// it, and an edit of one letter never touches another.
pub proof fn law_defined_follows_history(
    defs: Map<u8, Seq<u8>>,
    cfg: Config,
    buf: nat,
    edits: Seq<(bool, u8, Seq<u8>, nat)>,
    v: u8,
)
    ensures
        replay(defs, cfg, buf, edits).contains_key(v) == last_edit_defines(defs, cfg, buf, edits, v),
    decreases edits.len(),
{
    if edits.len() > 0 {
        let prev = edits.drop_last();
        law_defined_follows_history(defs, cfg, buf, prev, v);
        let (define, var, src, stack_len) = edits.last();
        if define {
            lemma_compile_balanced(&NoResolve, cfg, src, buf, stack_len, false);
            let c = compile_spec(&NoResolve, cfg, src, buf, stack_len, false);
            if c.err is None {
                assert(c.out.len() > 0) by {
                    if c.out.len() == 0 {
                        assert(crate::balance::depth_after(c.out, 0) == Some(0int));
                    }
                }
            }
        }
    }
}

/// White space between tokens is ignored: inserting any run of spaces,
/// tabs and line breaks into a source at a boundary between two of its
/// tokens (or before the first, or after the last) leaves the bytecode
/// as it was, and the compilation fails exactly when it failed before.
pub proof fn law_white_space_is_ignored<R: Resolve>(
    res: &R,
    cfg: Config,
    src: Seq<u8>,
    k: int,
    w: Seq<u8>,
    buflen: nat,
    stack_len: nat,
    substitute: bool,
)
    requires
        0 <= k <= src.len(),
        crate::spacing::at_boundary(src, k),
        crate::spacing::all_ws(w),
    ensures
        ({
            let c1 = compile_spec(res, cfg, src, buflen, stack_len, substitute);
            let c2 = compile_spec(res, cfg, crate::spacing::inserted(src, k, w), buflen, stack_len, substitute);
            &&& c2.out == c1.out
            &&& (c2.err is None <==> c1.err is None)
        }),
{
    let src2 = crate::spacing::inserted(src, k, w);
    crate::spacing::lemma_insert_ws(src, k, w);
    crate::tokens::lemma_compile_twin(res, cfg, src2, src, buflen, stack_len, substitute);
}

/// Joining two expressions with a top-level `+` never deepens nesting:
/// when each compiles on its own, compiling `a + b` (with any buffer and
/// a scratch of any size) never fails with `TooDeep` (on targets where
/// the scratch requirement fits in a `usize`).
pub proof fn law_joining_never_too_deep<R: Resolve>(
    res: &R,
    cfg: Config,
    a: Seq<u8>,
    b: Seq<u8>,
    bufa: nat,
    bufb: nat,
    bufj: nat,
    sa: nat,
    sb: nat,
    sj: nat,
    substitute: bool,
)
    requires
        scratch_len_for(cfg.spec_max_depth()) <= usize::MAX,
        compile_spec(res, cfg, a, bufa, sa, substitute).err is None,
        compile_spec(res, cfg, b, bufb, sb, substitute).err is None,
    ensures
        compile_spec(res, cfg, a + seq![32u8, 43u8, 32u8] + b, bufj, sj, substitute).err != Some(Error::TooDeep),
{
    crate::joining::lemma_join(res, cfg, a, b, bufa, bufb, bufj, sa, sb, sj, substitute);
}

/// A number literal with an exponent (`digits`, `e` or `E`, an optional
/// `+` or `-`, `digits`) is one literal: read whole, its value is the
/// mantissa times ten to the signed exponent, correctly rounded to
/// binary64. So `1e+3` and `1E3` are one thousand and `25e-1` is 2.5.
pub proof fn law_exponent_literal_value(mant: Seq<u8>, e: u8, sign: Seq<u8>, exp: Seq<u8>)
    requires
        crate::literals::all_digits(mant),
        e == 101u8 || e == 69u8,
        crate::literals::exp_sign(sign),
        crate::literals::all_digits(exp),
    ensures
        ({
            let src = crate::literals::exp_literal(mant, e, sign, exp);
            let (num, den) = crate::literals::exp_value(mant, sign, exp);
            &&& crate::decimal::starts_number(src, 0)
            &&& crate::decimal::lit_end(src, 0) == src.len()
            &&& crate::decimal::lit_bits(src, 0) == crate::binary64::rne(num, den)
        }),
{
    crate::literals::lemma_exp_literal(mant, e, sign, exp);
}

/// The lexer reads such a literal as exactly one number token, of that
/// rounded value (an overflowing one is an invalid number at its start);
/// in particular an explicit `+` before the exponent reads as no sign.
pub proof fn law_exponent_literal_lexes(mant: Seq<u8>, e: u8, sign: Seq<u8>, exp: Seq<u8>)
    requires
        crate::literals::all_digits(mant),
        e == 101u8 || e == 69u8,
        crate::literals::exp_sign(sign),
        crate::literals::all_digits(exp),
    ensures
        ({
            let src = crate::literals::exp_literal(mant, e, sign, exp);
            let (num, den) = crate::literals::exp_value(mant, sign, exp);
            let bits = crate::binary64::rne(num, den);
            if bits < crate::binary64::INF_MAG {
                crate::lex::lex_all(src, 0) == (seq![(0int, crate::lex::Tok::Num(bits as u64))], None::<Error>)
            } else {
                crate::lex::lex_all(src, 0) == (Seq::<(int, crate::lex::Tok)>::empty(), Some(
                    Error::InvalidNumber { pos: 0 },
                ))
            }
        }),
        sign == seq![43u8] ==> crate::lex::lex_all(crate::literals::exp_literal(mant, e, sign, exp), 0)
            == crate::lex::lex_all(crate::literals::exp_literal(mant, e, Seq::empty(), exp), 0),
{
    crate::literals::lemma_exp_literal_lexes(mant, e, sign, exp);
    crate::literals::lemma_exp_literal_lexes(mant, e, Seq::empty(), exp);
    assert(seq![43u8][0] != seq![45u8][0]);
    assert(Seq::<u8>::empty().len() != seq![45u8].len());
}

/// Compiling such a literal alone writes exactly the one `NUM`
/// instruction of its rounded value, whatever the definitions (an
/// overflowing literal is an invalid number at its start).
pub proof fn law_exponent_literal_compiles<R: Resolve>(
    res: &R,
    cfg: Config,
    mant: Seq<u8>,
    e: u8,
    sign: Seq<u8>,
    exp: Seq<u8>,
    buflen: nat,
    stack_len: nat,
    substitute: bool,
)
    requires
        crate::literals::all_digits(mant),
        e == 101u8 || e == 69u8,
        crate::literals::exp_sign(sign),
        crate::literals::all_digits(exp),
        stack_len >= spec_scratch_len(cfg.spec_max_depth()),
        buflen >= 9,
        cfg.spec_output_limit() >= 9,
    ensures
        ({
            let src = crate::literals::exp_literal(mant, e, sign, exp);
            let (num, den) = crate::literals::exp_value(mant, sign, exp);
            let bits = crate::binary64::rne(num, den);
            let c = compile_spec(res, cfg, src, buflen, stack_len, substitute);
            if bits < crate::binary64::INF_MAG {
                c == Sink { out: crate::wire::num_ins(bits as u64), err: None }
            } else {
                c.err == Some(Error::InvalidNumber { pos: 0 })
            }
        }),
{
    crate::literals::lemma_exp_literal_compiles(res, cfg, mant, e, sign, exp, buflen, stack_len, substitute);
}

/// Every number literal (digits with an optional `.` and fraction, at
/// least one digit in all, then an optional `e` or `E` with an optional
/// `+` or `-` and at least one digit) is read whole, to its value rounded
/// to binary64: the digits as one integer, times ten to the signed
/// exponent, divided by ten to the number of fraction digits.
pub proof fn law_literal_value(
    whole: Seq<u8>,
    dot: bool,
    frac: Seq<u8>,
    has_e: bool,
    e: u8,
    sign: Seq<u8>,
    exp: Seq<u8>,
)
    requires
        crate::literals::literal_ok(whole, dot, frac, has_e, e, sign, exp),
    ensures
        ({
            let src = crate::literals::literal(whole, dot, frac, has_e, e, sign, exp);
            let (num, den) = crate::literals::literal_value(whole, frac, has_e, sign, exp);
            &&& crate::decimal::starts_number(src, 0)
            &&& crate::decimal::lit_end(src, 0) == src.len()
            &&& crate::decimal::lit_bits(src, 0) == crate::binary64::rne(num, den)
        }),
{
    crate::literals::lemma_literal(whole, dot, frac, has_e, e, sign, exp);
}

/// The lexer reads every number literal as exactly one number token of
/// its rounded value (an overflowing one is an invalid number at its
/// start). An explicit `+` before the exponent reads as no sign.
pub proof fn law_literal_lexes(
    whole: Seq<u8>,
    dot: bool,
    frac: Seq<u8>,
    has_e: bool,
    e: u8,
    sign: Seq<u8>,
    exp: Seq<u8>,
)
    requires
        crate::literals::literal_ok(whole, dot, frac, has_e, e, sign, exp),
    ensures
        ({
            let src = crate::literals::literal(whole, dot, frac, has_e, e, sign, exp);
            let (num, den) = crate::literals::literal_value(whole, frac, has_e, sign, exp);
            let bits = crate::binary64::rne(num, den);
            if bits < crate::binary64::INF_MAG {
                crate::lex::lex_all(src, 0) == (seq![(0int, crate::lex::Tok::Num(bits as u64))], None::<Error>)
            } else {
                crate::lex::lex_all(src, 0) == (Seq::<(int, crate::lex::Tok)>::empty(), Some(
                    Error::InvalidNumber { pos: 0 },
                ))
            }
        }),
        has_e && sign == seq![43u8] ==> crate::lex::lex_all(
            crate::literals::literal(whole, dot, frac, has_e, e, sign, exp),
            0,
        ) == crate::lex::lex_all(crate::literals::literal(whole, dot, frac, has_e, e, Seq::empty(), exp), 0),
{
    crate::literals::lemma_literal_lexes(whole, dot, frac, has_e, e, sign, exp);
    if has_e {
        crate::literals::lemma_literal_lexes(whole, dot, frac, has_e, e, Seq::empty(), exp);
    }
    assert(seq![43u8][0] != seq![45u8][0]);
    assert(Seq::<u8>::empty().len() != seq![45u8].len());
}

/// Compiling any number literal alone writes exactly the one `NUM`
/// instruction of its rounded value, whatever the definitions (an
/// overflowing literal is an invalid number at its start).
pub proof fn law_literal_compiles<R: Resolve>(
    res: &R,
    cfg: Config,
    whole: Seq<u8>,
    dot: bool,
    frac: Seq<u8>,
    has_e: bool,
    e: u8,
    sign: Seq<u8>,
    exp: Seq<u8>,
    buflen: nat,
    stack_len: nat,
    substitute: bool,
)
    requires
        crate::literals::literal_ok(whole, dot, frac, has_e, e, sign, exp),
        stack_len >= spec_scratch_len(cfg.spec_max_depth()),
        buflen >= 9,
        cfg.spec_output_limit() >= 9,
    ensures
        ({
            let src = crate::literals::literal(whole, dot, frac, has_e, e, sign, exp);
            let (num, den) = crate::literals::literal_value(whole, frac, has_e, sign, exp);
            let bits = crate::binary64::rne(num, den);
            let c = compile_spec(res, cfg, src, buflen, stack_len, substitute);
            if bits < crate::binary64::INF_MAG {
                c == Sink { out: crate::wire::num_ins(bits as u64), err: None }
            } else {
                c.err == Some(Error::InvalidNumber { pos: 0 })
            }
        }),
{
    crate::literals::lemma_literal_compiles(res, cfg, whole, dot, frac, has_e, e, sign, exp, buflen, stack_len, substitute);
}

/// Literal digits are read in base ten: `10^(a+b) = 10^a * 10^b` with
/// `10^1 = 10`, a single digit is worth its digit, and appending digits
/// `t` to `s` multiplies the value of `s` by ten per digit of `t` and
/// adds the value of `t`.
pub proof fn law_decimal_digits(s: Seq<u8>, t: Seq<u8>, a: nat, b: nat)
    requires
        crate::literals::digit_seq(s),
        crate::literals::digit_seq(t),
    ensures
        crate::decimal::p10(a + b) == crate::decimal::p10(a) * crate::decimal::p10(b),
        crate::decimal::p10(1) == 10,
        crate::decimal::digits_value(s + t) == crate::decimal::digits_value(s) * crate::decimal::p10(t.len())
            + crate::decimal::digits_value(t),
        t.len() == 1 ==> crate::decimal::digits_value(t) == t[0] - 48,
{
    crate::literals::lemma_p10_add(a, b);
    crate::literals::lemma_digits_value_append(s, t);
}

/// A scratch of at least `scratch_len` bytes is enough for any input:
/// compiling with it never fails with `ScratchTooSmall`, whatever the
/// source, the definitions and the output room (on targets where the
/// requirement fits in a `usize`).
pub proof fn law_scratch_len_suffices<R: Resolve>(
    res: &R,
    cfg: Config,
    src: Seq<u8>,
    buflen: nat,
    stack_len: nat,
    substitute: bool,
)
    requires
        scratch_len_for(cfg.spec_max_depth()) <= usize::MAX,
        stack_len >= spec_scratch_len(cfg.spec_max_depth()),
    ensures
        !(compile_spec(res, cfg, src, buflen, stack_len, substitute).err matches Some(Error::ScratchTooSmall { .. })),
{
    crate::headroom::lemma_compile_roomy(res, cfg, src, buflen, stack_len, substitute);
}

/// Compilation never writes more than the smaller of the buffer and the
/// configured limit; running out of room is `OutputLimitExceeded` when
/// the buffer reaches the limit (a larger buffer cannot help) and
/// `BufferTooSmall` when it is below it.
pub proof fn law_output_stays_within_room<R: Resolve>(
    res: &R,
    cfg: Config,
    src: Seq<u8>,
    buflen: nat,
    stack_len: nat,
    substitute: bool,
)
    ensures
        ({
            let c = compile_spec(res, cfg, src, buflen, stack_len, substitute);
            &&& c.out.len() <= buflen
            &&& c.out.len() <= cfg.spec_output_limit()
            &&& (c.err == Some(Error::OutputLimitExceeded) ==> buflen >= cfg.spec_output_limit())
            &&& (c.err == Some(Error::BufferTooSmall) ==> buflen < cfg.spec_output_limit())
        }),
{
    crate::bounds::lemma_compile_fits(res, cfg, src, buflen, stack_len, substitute);
}

/// The text `decode_into` prints for a finite non-negative number is a
/// single literal that compiling reads back as exactly the same binary64
/// value: printing loses nothing.
pub proof fn law_number_text_reads_back(x: u64)
    requires
        !crate::fpu::sign_of(x),
        crate::fpu::mag_of(x) < crate::binary64::INF_MAG,
    ensures
        crate::lex::lex_at(crate::display::display_text(x), 0) == (crate::lex::Lexed::Token {
            start: 0,
            tok: crate::lex::Tok::Num(x),
            end: crate::display::display_text(x).len() as int,
        }),
{
    let t = crate::display::display_text(x);
    crate::readback::lemma_text_reads_back(x);
    assert(crate::decimal::is_digit(t[0]) || t[0] == 46u8);
    assert(crate::lex::ws_end(t, 0) == 0);
}

/// A definition never makes the definitions cyclic: when no stored
/// definition leads back into itself before a `define`, none does after
/// it, whether it succeeds or fails.
pub proof fn law_define_keeps_definitions_acyclic(
    defs: Map<u8, Seq<u8>>,
    cfg: Config,
    var: u8,
    src: Seq<u8>,
    buf: nat,
    stack_len: nat,
)
    requires
        crate::acyclic::acyclic(defs),
    ensures
        crate::acyclic::acyclic(define_spec(defs, cfg, var, src, buf, stack_len).1),
{
    if crate::lex::is_lower(var) {
        let c = compile_spec(&NoResolve, cfg, src, buf, stack_len, false);
        if c.err is None {
            let d2 = crate::acyclic::defs_fn(defs.insert(var, c.out));
            assert(crate::session::probe_defs(defs, var, c.out) =~= d2);
            if crate::fold::cycle_walk(d2, c.out, crate::fold::bit_of(var), 0) is None {
                if c.out.len() > 0 {
                    crate::acyclic::lemma_insert_acyclic(defs, var, c.out);
                } else {
                    crate::acyclic::lemma_remove_acyclic(defs, var);
                }
            }
        }
    }
}

/// Removing a definition never makes the definitions cyclic.
pub proof fn law_undefine_keeps_definitions_acyclic(defs: Map<u8, Seq<u8>>, var: u8)
    requires
        crate::acyclic::acyclic(defs),
    ensures
        crate::acyclic::acyclic(defs.remove(var)),
{
    crate::acyclic::lemma_remove_acyclic(defs, var);
}

/// Compiling under a session's definitions never fails with
/// `RecursiveDefinition`: the definitions a session holds are acyclic,
/// so every substitution terminates.
pub proof fn law_session_compile_never_recursive<const V: usize>(
    s: &Session<V>,
    src: Seq<u8>,
    buflen: nat,
    stack_len: nat,
)
    requires
        s.wf(),
    ensures
        compile_spec(s, s.spec_config(), src, buflen, stack_len, true).err matches Some(e) ==> !(e is RecursiveDefinition),
{
    s.lemma_wf_acyclic();
    assert(defs_of(s) =~= defs_fn(s@));
    assert forall|v: u8| #[trigger] s.spec_body(v) is Some implies cycle_walk(defs_of(s), s.spec_body(v).unwrap(), bit_of(v), 0) is None by {
        assert(s@.contains_key(v));
    }
    lemma_compile_norec(s, s.spec_config(), src, buflen, stack_len, true);
}

/// Bytecode compiled without substituting definitions is a balanced
/// postfix program, and the evaluator never reports it malformed: it
/// yields a value, runs out of value stack, or needs a math library.
pub proof fn law_compiled_bytecode_evaluates<R: Resolve>(
    res: &R,
    cfg: Config,
    src: Seq<u8>,
    buflen: nat,
    stack_len: nat,
    substitute: bool,
    vars: Seq<u64>,
    cap: nat,
)
    requires
        !substitute || forall|v: u8| #[trigger] res.spec_body(v) is None,
    ensures
        ({
            let c = compile_spec(res, cfg, src, buflen, stack_len, substitute);
            c.err is None ==> balanced(c.out) && !(eval_spec(c.out, vars, cap) matches Err(
                Error::MalformedRpn { .. },
            ))
        }),
{
    let c = compile_spec(res, cfg, src, buflen, stack_len, substitute);
    assert(!substitute || defs_balanced(res));
    lemma_compile_balanced(res, cfg, src, buflen, stack_len, substitute);
    if c.err is None {
        assert(c.out.subrange(0, c.out.len() as int) =~= c.out);
        lemma_eval_balanced(c.out, vars, cap, 0, Seq::empty());
    }
}

/// Compiling under a session's definitions writes a balanced postfix
/// program, which the evaluator never reports malformed: stored
/// definitions are balanced, and splicing one in (or the number it
/// folds to) stands for one value, as the variable did.
pub proof fn law_session_compile_evaluates<const V: usize>(
    s: &Session<V>,
    src: Seq<u8>,
    buflen: nat,
    stack_len: nat,
    vars: Seq<u64>,
    cap: nat,
)
    requires
        s.wf(),
    ensures
        ({
            let c = compile_spec(s, s.spec_config(), src, buflen, stack_len, true);
            c.err is None ==> balanced(c.out) && !(eval_spec(c.out, vars, cap) matches Err(Error::MalformedRpn { .. }))
        }),
{
    let c = compile_spec(s, s.spec_config(), src, buflen, stack_len, true);
    s.lemma_wf_balanced();
    assert forall|v: u8| #[trigger] s.spec_body(v) is Some implies balanced(s.spec_body(v).unwrap()) by {
        assert(s@.contains_key(v));
    }
    lemma_compile_balanced(s, s.spec_config(), src, buflen, stack_len, true);
    if c.err is None {
        assert(c.out.subrange(0, c.out.len() as int) =~= c.out);
        lemma_eval_balanced(c.out, vars, cap, 0, Seq::empty());
    }
}

/// Folding computes what the evaluator computes: a definition body that
/// folds to a number (`try_fold`) evaluates to that number, when each
/// definition it names has, as its variable's value, the number that
/// definition folds to. `chain` holds the variables being expanded.
pub proof fn law_folding_agrees_with_evaluation<R: Resolve>(
    res: &R,
    body: Seq<u8>,
    chain: u32,
    vars: Seq<u64>,
    cap: nat,
)
    requires
        cap >= FOLD_CAP,
        vars_fold(res, chain, vars),
        fold_at(res, body, chain, 0, Seq::empty()) is Some,
    ensures
        eval_spec(body, vars, cap) == Ok::<u64, Error>(fold_at(res, body, chain, 0, Seq::empty()).unwrap()),
{
    assert(holds_nums(Seq::<Val>::empty(), Seq::<u64>::empty()));
    lemma_fold_eval(res, body, chain, vars, cap, 0, Seq::empty(), Seq::empty());
}

} // verus!
