//! The output room only cuts a compilation short: under another room, a
//! compilation writes the same bytes until they no longer fit, and then
//! stops with the error of the limit that applies.
use vstd::prelude::*;
use crate::compile::{
    close_group, collapse, drain, e_emit, emit_variable, infix, op_step, pop_emit, push, push_frame, rparen, run, step,
    Eng, Params, TAG_LOGB, TAG_LPAREN,
};
use crate::error::Error;
use crate::fold::{bit_of, chk, copy, expand, fold_at, lemma_chain_grows, lemma_copy_grows, lemma_expand_grows};
use crate::lex::{is_lower, Tok};
use crate::opcodes;
use crate::resolve::Resolve;
use crate::writer::{cap_of, emit, spec_overflow, Lim, Sink};

verus! {

/// Two compilations' parameters that differ at most in the output room.
pub open spec fn narrower(p1: Params, p2: Params) -> bool {
    &&& p1.max_depth == p2.max_depth
    &&& p1.stack_len == p2.stack_len
    &&& p1.substitute == p2.substitute
    &&& p1.eof == p2.eof
}

/// While the second sink goes on, the other is the same and within its
/// room, or has stopped for lack of room that the roomier one exceeds.
pub open spec fn cut(a: Sink, b: Sink, l: Lim) -> bool {
    b.err is None ==> {
        ||| (a == b && b.out.len() <= cap_of(l))
        ||| (a.err == Some(spec_overflow(l.buflen, l.limit)) && b.out.len() > cap_of(l))
    }
}

/// The same relation between two engine states.
pub open spec fn ecut(a: Eng, b: Eng, l: Lim) -> bool {
    b.sink.err is None ==> {
        ||| (a == b && b.sink.out.len() <= cap_of(l))
        ||| (a.sink.err == Some(spec_overflow(l.buflen, l.limit)) && b.sink.out.len() > cap_of(l))
    }
}

proof fn lemma_emit_cut(a: Sink, b: Sink, bytes: Seq<u8>, l1: Lim, l2: Lim)
    requires
        cut(a, b, l1),
    ensures
        cut(emit(a, bytes, l1), emit(b, bytes, l2), l1),
        emit(b, bytes, l2).out.len() >= b.out.len(),
{
}

proof fn lemma_expand_cut<R: Resolve>(res: &R, body: Seq<u8>, chain: u32, a: Sink, b: Sink, l1: Lim, l2: Lim)
    requires
        cut(a, b, l1),
    ensures
        cut(expand(res, body, chain, a, l1), expand(res, body, chain, b, l2), l1),
    decreases crate::fold::chain_measure(chain), 1int, 0int,
{
    lemma_expand_grows(res, body, chain, b, l2);
    if b.err is None && a.err is None {
        if chk(res, body, chain, 0) is None {
            match fold_at(res, body, chain, 0, Seq::empty()) {
                Some(v) => {
                    lemma_emit_cut(a, b, crate::wire::num_ins(v), l1, l2);
                },
                None => {
                    lemma_copy_cut(res, body, chain, 0, a, b, l1, l2);
                },
            }
        }
    }
}

proof fn lemma_copy_cut<R: Resolve>(res: &R, body: Seq<u8>, chain: u32, i: int, a: Sink, b: Sink, l1: Lim, l2: Lim)
    requires
        cut(a, b, l1),
    ensures
        cut(copy(res, body, chain, i, a, l1), copy(res, body, chain, i, b, l2), l1),
    decreases crate::fold::chain_measure(chain), 0int, body.len() - i,
{
    lemma_copy_grows(res, body, chain, i, b, l2);
    if b.err is None && a.err is None && 0 <= i < body.len() {
        let op = body[i];
        if op == opcodes::NUM {
            if i + 9 <= body.len() {
                let w = body.subrange(i, i + 9);
                lemma_emit_cut(a, b, w, l1, l2);
                lemma_copy_cut(res, body, chain, i + 9, emit(a, w, l1), emit(b, w, l2), l1, l2);
            }
        } else if op == opcodes::VAR {
            if i + 1 < body.len() && is_lower(body[i + 1]) {
                let v = body[i + 1];
                match res.spec_body(v) {
                    Some(bd) => {
                        if chain & bit_of(v) == 0 {
                            lemma_chain_grows(chain, v);
                            lemma_expand_cut(res, bd, chain | bit_of(v), a, b, l1, l2);
                            lemma_copy_cut(
                                res,
                                body,
                                chain,
                                i + 2,
                                expand(res, bd, chain | bit_of(v), a, l1),
                                expand(res, bd, chain | bit_of(v), b, l2),
                                l1,
                                l2,
                            );
                        }
                    },
                    None => {
                        let w = seq![opcodes::VAR, v];
                        lemma_emit_cut(a, b, w, l1, l2);
                        lemma_copy_cut(res, body, chain, i + 2, emit(a, w, l1), emit(b, w, l2), l1, l2);
                    },
                }
            }
        } else if op == opcodes::CONST || op == opcodes::FUNC {
            if i + 2 <= body.len() {
                let w = body.subrange(i, i + 2);
                lemma_emit_cut(a, b, w, l1, l2);
                lemma_copy_cut(res, body, chain, i + 2, emit(a, w, l1), emit(b, w, l2), l1, l2);
            }
        } else {
            let w = seq![op];
            lemma_emit_cut(a, b, w, l1, l2);
            lemma_copy_cut(res, body, chain, i + 1, emit(a, w, l1), emit(b, w, l2), l1, l2);
        }
    }
}

/// The second engine's output never shrinks.
pub open spec fn grew(b0: Eng, b1: Eng) -> bool {
    b1.sink.err is None ==> b1.sink.out.len() >= b0.sink.out.len()
}

proof fn lemma_e_emit_cut(a: Eng, b: Eng, bytes: Seq<u8>, p1: Params, p2: Params)
    requires
        ecut(a, b, p1.lim),
        narrower(p1, p2),
    ensures
        ecut(e_emit(a, bytes, p1), e_emit(b, bytes, p2), p1.lim),
        grew(b, e_emit(b, bytes, p2)),
{
    lemma_emit_cut(a.sink, b.sink, bytes, p1.lim, p2.lim);
}

proof fn lemma_pop_cut(a: Eng, b: Eng, p1: Params, p2: Params)
    requires
        ecut(a, b, p1.lim),
        narrower(p1, p2),
    ensures
        ecut(pop_emit(a, p1), pop_emit(b, p2), p1.lim),
        grew(b, pop_emit(b, p2)),
        pop_emit(b, p2).ops.len() <= b.ops.len(),
{
    if b.sink.err is None && b.ops.len() > 0 {
        let ent = b.ops.last();
        let nb = Eng {
            ops: b.ops.drop_last(),
            log_pending: false,
            nest: if crate::compile::releases(ent.0) { crate::compile::dec(b.nest) } else { b.nest },
            ..b
        };
        if a.sink.err is None {
            lemma_e_emit_cut(nb, nb, crate::compile::ent_bytes(ent), p1, p2);
        } else {
            lemma_emit_cut(a.sink, nb.sink, crate::compile::ent_bytes(ent), p1.lim, p2.lim);
        }
    }
}

proof fn lemma_collapse_cut(a: Eng, b: Eng, lbp: u8, left: bool, p1: Params, p2: Params)
    requires
        ecut(a, b, p1.lim),
        narrower(p1, p2),
    ensures
        ecut(collapse(a, lbp, left, p1), collapse(b, lbp, left, p2), p1.lim),
        grew(b, collapse(b, lbp, left, p2)),
    decreases b.ops.len(),
{
    if b.sink.err is None && b.ops.len() > 0 {
        let top = b.ops.last();
        if !(crate::compile::is_barrier(top.0) || top.1 < lbp || (top.1 == lbp && !left)) {
            lemma_pop_cut(a, b, p1, p2);
            lemma_collapse_cut(pop_emit(a, p1), pop_emit(b, p2), lbp, left, p1, p2);
        }
    }
}

proof fn lemma_push_cut(a: Eng, b: Eng, ent: (u8, u8), p1: Params, p2: Params)
    requires
        ecut(a, b, p1.lim),
        narrower(p1, p2),
    ensures
        ecut(push(a, ent, p1), push(b, ent, p2), p1.lim),
        grew(b, push(b, ent, p2)),
{
}

proof fn lemma_frame_cut(a: Eng, b: Eng, p1: Params, p2: Params)
    requires
        ecut(a, b, p1.lim),
        narrower(p1, p2),
    ensures
        ecut(push_frame(a, p1), push_frame(b, p2), p1.lim),
        grew(b, push_frame(b, p2)),
{
}

proof fn lemma_infix_cut(a: Eng, b: Eng, op: u8, lbp: u8, rbp: u8, left: bool, p1: Params, p2: Params)
    requires
        ecut(a, b, p1.lim),
        narrower(p1, p2),
    ensures
        ecut(infix(a, op, lbp, rbp, left, p1), infix(b, op, lbp, rbp, left, p2), p1.lim),
        grew(b, infix(b, op, lbp, rbp, left, p2)),
{
    lemma_collapse_cut(a, b, lbp, left, p1, p2);
    lemma_push_cut(collapse(a, lbp, left, p1), collapse(b, lbp, left, p2), (op, rbp), p1, p2);
}

proof fn lemma_close_cut(a: Eng, b: Eng, pos: int, p1: Params, p2: Params)
    requires
        ecut(a, b, p1.lim),
        narrower(p1, p2),
    ensures
        ecut(close_group(a, pos, p1), close_group(b, pos, p2), p1.lim),
        grew(b, close_group(b, pos, p2)),
    decreases b.ops.len(),
{
    if b.sink.err is None && b.ops.len() > 0 && b.ops.last().0 != TAG_LPAREN {
        lemma_pop_cut(a, b, p1, p2);
        lemma_close_cut(pop_emit(a, p1), pop_emit(b, p2), pos, p1, p2);
    }
}

proof fn lemma_rparen_cut(a: Eng, b: Eng, pos: int, p1: Params, p2: Params)
    requires
        ecut(a, b, p1.lim),
        narrower(p1, p2),
    ensures
        ecut(rparen(a, pos, p1), rparen(b, pos, p2), p1.lim),
        grew(b, rparen(b, pos, p2)),
{
    if b.sink.err is None && !b.expect_operand {
        let a0 = Eng { log_pending: false, ..a };
        let b0 = Eng { log_pending: false, ..b };
        lemma_close_cut(a0, b0, pos, p1, p2);
        let a2 = close_group(a0, pos, p1);
        let b2 = close_group(b0, pos, p2);
        if b2.sink.err is None {
            let a3 = Eng { ops: a2.ops.drop_last(), nest: crate::compile::dec(a2.nest), ..a2 };
            let b3 = Eng { ops: b2.ops.drop_last(), nest: crate::compile::dec(b2.nest), ..b2 };
            if b3.ops.len() > 0 && b3.ops.last().0 == opcodes::FUNC {
                let id = b3.ops.last().1;
                let a4 = Eng { ops: a3.ops.drop_last(), ..a3 };
                let b4 = Eng { ops: b3.ops.drop_last(), ..b3 };
                if a2.sink.err is None {
                    lemma_e_emit_cut(a4, b4, seq![opcodes::FUNC, id], p1, p2);
                } else {
                    lemma_emit_cut(a2.sink, b4.sink, seq![opcodes::FUNC, id], p1.lim, p2.lim);
                }
            }
        }
    }
}

proof fn lemma_op_step_cut(a: Eng, b: Eng, tok: Tok, pos: int, p1: Params, p2: Params)
    requires
        ecut(a, b, p1.lim),
        narrower(p1, p2),
    ensures
        ecut(op_step(a, tok, pos, p1), op_step(b, tok, pos, p2), p1.lim),
        grew(b, op_step(b, tok, pos, p2)),
{
    lemma_infix_cut(a, b, opcodes::ADD, 10, 11, true, p1, p2);
    lemma_infix_cut(a, b, opcodes::SUB, 10, 11, true, p1, p2);
    lemma_infix_cut(a, b, opcodes::MUL, 20, 21, true, p1, p2);
    lemma_infix_cut(a, b, opcodes::DIV, 20, 21, true, p1, p2);
    lemma_infix_cut(a, b, opcodes::POW, 30, 30, false, p1, p2);
    lemma_push_cut(a, b, (opcodes::NEG, 25), p1, p2);
    lemma_push_cut(a, b, (TAG_LOGB, 41), p1, p2);
    lemma_rparen_cut(a, b, pos, p1, p2);
}

proof fn lemma_var_cut<R: Resolve>(res: &R, a: Eng, b: Eng, name: u8, p1: Params, p2: Params)
    requires
        ecut(a, b, p1.lim),
        narrower(p1, p2),
    ensures
        ecut(emit_variable(res, a, name, p1), emit_variable(res, b, name, p2), p1.lim),
        grew(b, emit_variable(res, b, name, p2)),
{
    if b.sink.err is None {
        if p2.substitute && res.spec_body(name) is Some {
            let bd = res.spec_body(name).unwrap();
            lemma_expand_grows(res, bd, bit_of(name), b.sink, p2.lim);
            lemma_expand_cut(res, bd, bit_of(name), a.sink, b.sink, p1.lim, p2.lim);
        } else {
            lemma_emit_cut(a.sink, b.sink, seq![opcodes::VAR, name], p1.lim, p2.lim);
        }
    }
}

proof fn lemma_step_cut<R: Resolve>(
    res: &R,
    toks: Seq<(int, Tok)>,
    lerr: Option<Error>,
    i: int,
    a: Eng,
    b: Eng,
    p1: Params,
    p2: Params,
)
    requires
        ecut(a, b, p1.lim),
        narrower(p1, p2),
        0 <= i < toks.len(),
    ensures
        ecut(step(res, p1, toks, lerr, i, a).0, step(res, p2, toks, lerr, i, b).0, p1.lim),
        grew(b, step(res, p2, toks, lerr, i, b).0),
        step(res, p2, toks, lerr, i, b).0.sink.err is None && step(res, p1, toks, lerr, i, a).0.sink.err is None
            ==> step(res, p1, toks, lerr, i, a).1 == step(res, p2, toks, lerr, i, b).1,
        step(res, p1, toks, lerr, i, a).1 > i,
        step(res, p2, toks, lerr, i, b).1 > i,
{
    let pos = toks[i].0;
    let tok = toks[i].1;
    let operand = tok.spec_starts_operand();
    lemma_infix_cut(a, b, opcodes::MUL, 20, 21, true, p1, p2);
    let a1 = if operand && !a.expect_operand {
        infix(a, opcodes::ops::MUL, 20, 21, true, p1)
    } else {
        a
    };
    let b1 = if operand && !b.expect_operand {
        infix(b, opcodes::ops::MUL, 20, 21, true, p2)
    } else {
        b
    };
    if a.sink.err is Some {
        assert(collapse(a, 20, true, p1) == a);
        assert(a1.sink == a.sink);
    }
    assert(ecut(a1, b1, p1.lim));
    assert(grew(b, b1));
    if b1.sink.err is None {
        if !operand {
            lemma_op_step_cut(a1, b1, tok, pos, p1, p2);
        } else {
            match tok {
                Tok::Num(v) => {
                    lemma_e_emit_cut(a1, b1, crate::wire::num_ins(v), p1, p2);
                },
                Tok::Var(name) => {
                    lemma_var_cut(res, a1, b1, name, p1, p2);
                },
                Tok::Const(id) => {
                    lemma_e_emit_cut(a1, b1, seq![opcodes::CONST, id], p1, p2);
                },
                Tok::Func(id) => {
                    lemma_push_cut(a1, b1, (opcodes::FUNC, id), p1, p2);
                    lemma_frame_cut(push(a1, (opcodes::FUNC, id), p1), push(b1, (opcodes::FUNC, id), p2), p1, p2);
                },
                Tok::LParen => {
                    lemma_push_cut(a1, b1, (TAG_LPAREN, 0), p1, p2);
                },
                _ => {},
            }
        }
    }
}

proof fn lemma_drain_cut(a: Eng, b: Eng, p1: Params, p2: Params)
    requires
        ecut(a, b, p1.lim),
        narrower(p1, p2),
    ensures
        ecut(drain(a, p1), drain(b, p2), p1.lim),
    decreases b.ops.len(),
{
    if b.sink.err is None && b.ops.len() > 0 {
        if crate::compile::is_barrier(b.ops.last().0) {
        } else {
            lemma_pop_cut(a, b, p1, p2);
            lemma_drain_cut(pop_emit(a, p1), pop_emit(b, p2), p1, p2);
        }
    }
}

proof fn lemma_run_cut<R: Resolve>(
    res: &R,
    toks: Seq<(int, Tok)>,
    lerr: Option<Error>,
    i: int,
    a: Eng,
    b: Eng,
    p1: Params,
    p2: Params,
)
    requires
        ecut(a, b, p1.lim),
        narrower(p1, p2),
    ensures
        cut(run(res, p1, toks, lerr, i, a).sink, run(res, p2, toks, lerr, i, b).sink, p1.lim),
    decreases toks.len() - i,
{
    if b.sink.err is None {
        if i < 0 || i >= toks.len() {
            if lerr is None && !b.expect_operand {
                lemma_drain_cut(a, b, p1, p2);
            }
        } else {
            lemma_step_cut(res, toks, lerr, i, a, b, p1, p2);
            let (a2, j) = step(res, p1, toks, lerr, i, a);
            let (b2, k) = step(res, p2, toks, lerr, i, b);
            lemma_run_cut(res, toks, lerr, k, a2, b2, p1, p2);
            if a2.sink.err is Some {
                assert(run(res, p1, toks, lerr, j, a2) == a2);
                assert(run(res, p1, toks, lerr, k, a2) == a2);
            }
        }
    }
}

/// Two compilations of one source that differ only in their output
/// room: while the second goes on, the first wrote the same or stopped
/// for lack of room that the second exceeds.
pub proof fn lemma_compile_cut<R: Resolve>(
    res: &R,
    c1: crate::config::Config,
    c2: crate::config::Config,
    src: Seq<u8>,
    buf1: nat,
    buf2: nat,
    stack_len: nat,
    substitute: bool,
)
    requires
        c1.spec_max_depth() == c2.spec_max_depth(),
    ensures
        cut(
            crate::compile::compile_spec(res, c1, src, buf1, stack_len, substitute),
            crate::compile::compile_spec(res, c2, src, buf2, stack_len, substitute),
            Lim { buflen: buf1, limit: c1.spec_output_limit() as nat },
        ),
{
    let needed = crate::config::spec_scratch_len(c1.spec_max_depth());
    if stack_len >= needed {
        let lx = crate::lex::lex_all(src, 0);
        let p1 = Params {
            lim: Lim { buflen: buf1, limit: c1.spec_output_limit() as nat },
            max_depth: c1.spec_max_depth() as nat,
            stack_len: stack_len,
            substitute: substitute,
            eof: src.len(),
        };
        let p2 = Params { lim: Lim { buflen: buf2, limit: c2.spec_output_limit() as nat }, ..p1 };
        let e0 = crate::compile::initial_eng();
        lemma_run_cut(res, lx.0, lx.1, 0, e0, e0, p1, p2);
    }
}

} // verus!
