//! Output never exceeds its room, and running out of room is reported
//! by which limit was hit.
use vstd::prelude::*;
use crate::compile::{close_group, collapse, drain, ent_bytes, infix, op_step, pop_emit, run, step, Eng, Params};
use crate::error::Error;
use crate::fold::{bit_of, chk, copy, expand, fold_at, lemma_chain_grows};
use crate::lex::{is_lower, lex_all, lex_at, lemma_lex_all_unfold, Lexed, Tok};
use crate::opcodes;
use crate::resolve::Resolve;
use crate::stream::is_overflow;
use crate::writer::{cap_of, emit, spec_overflow, Lim, Sink};

verus! {

/// The sink holds no more than the room, and a lack of room is reported
/// as the limit that applies.
pub open spec fn sink_fits(s: Sink, l: Lim) -> bool {
    &&& s.out.len() <= cap_of(l)
    &&& (s.err matches Some(x) ==> (is_overflow(x) ==> x == spec_overflow(l.buflen, l.limit)))
}

proof fn lemma_emit_fits(s: Sink, b: Seq<u8>, l: Lim)
    requires
        sink_fits(s, l),
    ensures
        sink_fits(emit(s, b, l), l),
{
}

proof fn lemma_expand_fits<R: Resolve>(res: &R, body: Seq<u8>, chain: u32, s: Sink, l: Lim)
    requires
        sink_fits(s, l),
    ensures
        sink_fits(expand(res, body, chain, s, l), l),
    decreases crate::fold::chain_measure(chain), 1int, 0int,
{
    if s.err is None {
        match chk(res, body, chain, 0) {
            Some(e) => {
                lemma_chk_err(res, body, chain, 0);
            },
            None => match fold_at(res, body, chain, 0, Seq::empty()) {
                Some(v) => {},
                None => {
                    lemma_copy_fits(res, body, chain, 0, s, l);
                },
            },
        }
    }
}

proof fn lemma_copy_fits<R: Resolve>(res: &R, body: Seq<u8>, chain: u32, i: int, s: Sink, l: Lim)
    requires
        sink_fits(s, l),
    ensures
        sink_fits(copy(res, body, chain, i, s, l), l),
    decreases crate::fold::chain_measure(chain), 0int, body.len() - i,
{
    if s.err is None && 0 <= i < body.len() {
        let op = body[i];
        if op == opcodes::NUM {
            if i + 9 <= body.len() {
                lemma_copy_fits(res, body, chain, i + 9, emit(s, body.subrange(i, i + 9), l), l);
            }
        } else if op == opcodes::VAR {
            if i + 1 < body.len() && is_lower(body[i + 1]) {
                let v = body[i + 1];
                match res.spec_body(v) {
                    Some(b) => {
                        if chain & bit_of(v) == 0 {
                            lemma_chain_grows(chain, v);
                            lemma_expand_fits(res, b, chain | bit_of(v), s, l);
                            lemma_copy_fits(res, body, chain, i + 2, expand(res, b, chain | bit_of(v), s, l), l);
                        }
                    },
                    None => {
                        lemma_copy_fits(res, body, chain, i + 2, emit(s, seq![opcodes::VAR, v], l), l);
                    },
                }
            }
        } else if op == opcodes::CONST || op == opcodes::FUNC {
            if i + 2 <= body.len() {
                lemma_copy_fits(res, body, chain, i + 2, emit(s, body.subrange(i, i + 2), l), l);
            }
        } else {
            lemma_copy_fits(res, body, chain, i + 1, emit(s, seq![op], l), l);
        }
    }
}

/// The acyclicity walk reports only malformed streams and recursion.
proof fn lemma_chk_err<R: Resolve>(res: &R, body: Seq<u8>, chain: u32, i: int)
    ensures
        chk(res, body, chain, i) matches Some(e) ==> !is_overflow(e),
    decreases crate::fold::chain_measure(chain), body.len() + 9 - i,
{
    if 0 <= i < body.len() {
        let op = body[i];
        if op == opcodes::VAR {
            if i + 1 < body.len() && is_lower(body[i + 1]) && chain & bit_of(body[i + 1]) == 0 {
                let v = body[i + 1];
                lemma_chk_err(res, body, chain, i + 2);
                match res.spec_body(v) {
                    Some(b) => {
                        lemma_chain_grows(chain, v);
                        lemma_chk_err(res, b, chain | bit_of(v), 0);
                    },
                    None => {},
                }
            }
        } else {
            lemma_chk_err(res, body, chain, i + crate::fold::ins_width(op));
        }
    }
}

/// The lexer reports only input errors.
proof fn lemma_lex_err(src: Seq<u8>, i: int)
    requires
        0 <= i <= src.len(),
    ensures
        lex_all(src, i).1 matches Some(e) ==> !is_overflow(e),
    decreases src.len() - i,
{
    lemma_lex_all_unfold(src, i);
    if let Lexed::Token { start, tok, end } = lex_at(src, i) {
        lemma_lex_err(src, end);
    }
}

proof fn lemma_pop_fits(e: Eng, p: Params)
    requires
        sink_fits(e.sink, p.lim),
    ensures
        sink_fits(pop_emit(e, p).sink, p.lim),
{
    if e.sink.err is None && e.ops.len() > 0 {
        lemma_emit_fits(e.sink, ent_bytes(e.ops.last()), p.lim);
    }
}

proof fn lemma_collapse_fits(e: Eng, lbp: u8, left: bool, p: Params)
    requires
        sink_fits(e.sink, p.lim),
    ensures
        sink_fits(collapse(e, lbp, left, p).sink, p.lim),
    decreases e.ops.len(),
{
    if e.sink.err is None && e.ops.len() > 0 {
        let top = e.ops.last();
        if !(crate::compile::is_barrier(top.0) || top.1 < lbp || (top.1 == lbp && !left)) {
            lemma_pop_fits(e, p);
            lemma_collapse_fits(pop_emit(e, p), lbp, left, p);
        }
    }
}

proof fn lemma_close_fits(e: Eng, pos: int, p: Params)
    requires
        sink_fits(e.sink, p.lim),
    ensures
        sink_fits(close_group(e, pos, p).sink, p.lim),
    decreases e.ops.len(),
{
    if e.sink.err is None && e.ops.len() > 0 && e.ops.last().0 != crate::compile::TAG_LPAREN {
        lemma_pop_fits(e, p);
        lemma_close_fits(pop_emit(e, p), pos, p);
    }
}

proof fn lemma_op_step_fits(e: Eng, tok: Tok, pos: int, p: Params)
    requires
        sink_fits(e.sink, p.lim),
    ensures
        sink_fits(op_step(e, tok, pos, p).sink, p.lim),
{
    lemma_collapse_fits(e, 10, true, p);
    lemma_collapse_fits(e, 20, true, p);
    lemma_collapse_fits(e, 30, false, p);
    lemma_close_fits(crate::compile::Eng { log_pending: false, ..e }, pos, p);
}

proof fn lemma_step_fits<R: Resolve>(res: &R, p: Params, toks: Seq<(int, Tok)>, lerr: Option<Error>, i: int, e: Eng)
    requires
        sink_fits(e.sink, p.lim),
        0 <= i < toks.len(),
        lerr matches Some(x) ==> !is_overflow(x),
    ensures
        sink_fits(step(res, p, toks, lerr, i, e).0.sink, p.lim),
{
    let pos = toks[i].0;
    let tok = toks[i].1;
    lemma_collapse_fits(e, 20, true, p);
    let operand = tok.spec_starts_operand();
    let e1 = if operand && !e.expect_operand {
        infix(e, opcodes::ops::MUL, 20, 21, true, p)
    } else {
        e
    };
    if e1.sink.err is None {
        if !operand {
            lemma_op_step_fits(e1, tok, pos, p);
        } else {
            match tok {
                Tok::Var(name) => {
                    if p.substitute && res.spec_body(name) is Some {
                        lemma_expand_fits(res, res.spec_body(name).unwrap(), bit_of(name), e1.sink, p.lim);
                    }
                },
                _ => {},
            }
        }
    }
}

proof fn lemma_drain_fits(e: Eng, p: Params)
    requires
        sink_fits(e.sink, p.lim),
    ensures
        sink_fits(drain(e, p).sink, p.lim),
    decreases e.ops.len(),
{
    if e.sink.err is None && e.ops.len() > 0 && !crate::compile::is_barrier(e.ops.last().0) {
        lemma_pop_fits(e, p);
        lemma_drain_fits(pop_emit(e, p), p);
    }
}

pub proof fn lemma_run_fits<R: Resolve>(
    res: &R,
    p: Params,
    toks: Seq<(int, Tok)>,
    lerr: Option<Error>,
    i: int,
    e: Eng,
)
    requires
        sink_fits(e.sink, p.lim),
        lerr matches Some(x) ==> !is_overflow(x),
    ensures
        sink_fits(run(res, p, toks, lerr, i, e).sink, p.lim),
    decreases toks.len() - i,
{
    if e.sink.err is None {
        if i < 0 || i >= toks.len() {
            if lerr is None && !e.expect_operand {
                lemma_drain_fits(e, p);
            }
        } else {
            lemma_step_fits(res, p, toks, lerr, i, e);
            let (e2, j) = step(res, p, toks, lerr, i, e);
            if i < j {
                lemma_run_fits(res, p, toks, lerr, j, e2);
            }
        }
    }
}

/// Compilation never writes more than the room (the smaller of the
/// buffer and the configured limit), and when it runs out of room it
/// says which: `OutputLimitExceeded` when the buffer reaches the limit,
/// `BufferTooSmall` when it is below it.
pub proof fn lemma_compile_fits<R: Resolve>(
    res: &R,
    cfg: crate::config::Config,
    src: Seq<u8>,
    buflen: nat,
    stack_len: nat,
    substitute: bool,
)
    ensures
        sink_fits(
            crate::compile::compile_spec(res, cfg, src, buflen, stack_len, substitute),
            Lim { buflen: buflen, limit: cfg.spec_output_limit() as nat },
        ),
{
    let needed = crate::config::spec_scratch_len(cfg.spec_max_depth());
    if stack_len >= needed {
        let lx = lex_all(src, 0);
        let p = Params {
            lim: Lim { buflen: buflen, limit: cfg.spec_output_limit() as nat },
            max_depth: cfg.spec_max_depth() as nat,
            stack_len: stack_len,
            substitute: substitute,
            eof: src.len(),
        };
        lemma_lex_err(src, 0);
        lemma_run_fits(res, p, lx.0, lx.1, 0, crate::compile::initial_eng());
    }
}

} // verus!
