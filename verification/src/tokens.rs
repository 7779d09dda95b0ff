//! A compilation sees its source only through the tokens: two sources
//! that read as the same tokens (wherever they stand, however much white
//! space lies between them) compile to the same bytecode, and fail or
//! succeed together; positions show only inside error values.
use vstd::prelude::*;
use crate::compile::{
    close_group, collapse, drain, infix, op_step, pop_emit, rparen, run, step, Eng, Params, TAG_LPAREN,
};
use crate::error::Error;
use crate::lex::{lex_all, Tok};
use crate::opcodes;
use crate::resolve::Resolve;

verus! {

/// Two token sequences with the same tokens in the same order.
pub open spec fn same_tokens(t1: Seq<(int, Tok)>, t2: Seq<(int, Tok)>) -> bool {
    &&& t1.len() == t2.len()
    &&& forall|k: int| 0 <= k < t1.len() ==> #[trigger] t1[k].1 == t2[k].1
}

/// Two engine states that agree in everything but the positions inside
/// their errors.
pub open spec fn twin(a: Eng, b: Eng) -> bool {
    &&& a.ops == b.ops
    &&& a.nest == b.nest
    &&& a.log_pending == b.log_pending
    &&& a.expect_operand == b.expect_operand
    &&& a.sink.out == b.sink.out
    &&& (a.sink.err is None <==> b.sink.err is None)
    &&& (a.sink.err is None ==> a == b)
}

/// Parameters that differ at most in where the source ends.
pub open spec fn same_but_end(p1: Params, p2: Params) -> bool {
    &&& p1.lim == p2.lim
    &&& p1.max_depth == p2.max_depth
    &&& p1.stack_len == p2.stack_len
    &&& p1.substitute == p2.substitute
}

proof fn lemma_pop_twin(a: Eng, b: Eng, p1: Params, p2: Params)
    requires
        twin(a, b),
        same_but_end(p1, p2),
    ensures
        twin(pop_emit(a, p1), pop_emit(b, p2)),
{
}

proof fn lemma_collapse_twin(a: Eng, b: Eng, lbp: u8, left: bool, p1: Params, p2: Params)
    requires
        twin(a, b),
        same_but_end(p1, p2),
    ensures
        twin(collapse(a, lbp, left, p1), collapse(b, lbp, left, p2)),
    decreases a.ops.len(),
{
    if a.sink.err is None && a.ops.len() > 0 {
        let top = a.ops.last();
        if !(crate::compile::is_barrier(top.0) || top.1 < lbp || (top.1 == lbp && !left)) {
            lemma_pop_twin(a, b, p1, p2);
            lemma_collapse_twin(pop_emit(a, p1), pop_emit(b, p2), lbp, left, p1, p2);
        }
    }
}

proof fn lemma_infix_twin(a: Eng, b: Eng, op: u8, lbp: u8, rbp: u8, left: bool, p1: Params, p2: Params)
    requires
        twin(a, b),
        same_but_end(p1, p2),
    ensures
        twin(infix(a, op, lbp, rbp, left, p1), infix(b, op, lbp, rbp, left, p2)),
{
    lemma_collapse_twin(a, b, lbp, left, p1, p2);
}

proof fn lemma_close_twin(a: Eng, b: Eng, pos1: int, pos2: int, p1: Params, p2: Params)
    requires
        twin(a, b),
        same_but_end(p1, p2),
    ensures
        twin(close_group(a, pos1, p1), close_group(b, pos2, p2)),
    decreases a.ops.len(),
{
    if a.sink.err is None && a.ops.len() > 0 && a.ops.last().0 != TAG_LPAREN {
        lemma_pop_twin(a, b, p1, p2);
        lemma_close_twin(pop_emit(a, p1), pop_emit(b, p2), pos1, pos2, p1, p2);
    }
}

proof fn lemma_rparen_twin(a: Eng, b: Eng, pos1: int, pos2: int, p1: Params, p2: Params)
    requires
        twin(a, b),
        same_but_end(p1, p2),
    ensures
        twin(rparen(a, pos1, p1), rparen(b, pos2, p2)),
{
    if !a.expect_operand {
        lemma_close_twin(Eng { log_pending: false, ..a }, Eng { log_pending: false, ..b }, pos1, pos2, p1, p2);
    }
}

proof fn lemma_op_step_twin(a: Eng, b: Eng, tok: Tok, pos1: int, pos2: int, p1: Params, p2: Params)
    requires
        twin(a, b),
        same_but_end(p1, p2),
    ensures
        twin(op_step(a, tok, pos1, p1), op_step(b, tok, pos2, p2)),
{
    lemma_infix_twin(a, b, opcodes::ADD, 10, 11, true, p1, p2);
    lemma_infix_twin(a, b, opcodes::SUB, 10, 11, true, p1, p2);
    lemma_infix_twin(a, b, opcodes::MUL, 20, 21, true, p1, p2);
    lemma_infix_twin(a, b, opcodes::DIV, 20, 21, true, p1, p2);
    lemma_infix_twin(a, b, opcodes::POW, 30, 30, false, p1, p2);
    lemma_rparen_twin(a, b, pos1, pos2, p1, p2);
}

proof fn lemma_step_twin<R: Resolve>(
    res: &R,
    t1: Seq<(int, Tok)>,
    t2: Seq<(int, Tok)>,
    lerr1: Option<Error>,
    lerr2: Option<Error>,
    i: int,
    a: Eng,
    b: Eng,
    p1: Params,
    p2: Params,
)
    requires
        twin(a, b),
        same_but_end(p1, p2),
        same_tokens(t1, t2),
        lerr1 is None <==> lerr2 is None,
        0 <= i < t1.len(),
    ensures
        twin(step(res, p1, t1, lerr1, i, a).0, step(res, p2, t2, lerr2, i, b).0),
        step(res, p1, t1, lerr1, i, a).1 == step(res, p2, t2, lerr2, i, b).1,
{
    let tok = t1[i].1;
    assert(t2[i].1 == tok);
    if i + 1 < t1.len() {
        assert(t2[i + 1].1 == t1[i + 1].1);
    }
    lemma_infix_twin(a, b, opcodes::MUL, 20, 21, true, p1, p2);
    let operand = tok.spec_starts_operand();
    let a1 = if operand && !a.expect_operand {
        infix(a, opcodes::ops::MUL, 20, 21, true, p1)
    } else {
        a
    };
    let b1 = if operand && !b.expect_operand {
        infix(b, opcodes::ops::MUL, 20, 21, true, p2)
    } else {
        b
    };
    if a1.sink.err is None && !operand {
        lemma_op_step_twin(a1, b1, tok, t1[i].0, t2[i].0, p1, p2);
    }
}

proof fn lemma_drain_twin(a: Eng, b: Eng, p1: Params, p2: Params)
    requires
        twin(a, b),
        same_but_end(p1, p2),
    ensures
        twin(drain(a, p1), drain(b, p2)),
    decreases a.ops.len(),
{
    if a.sink.err is None && a.ops.len() > 0 && !crate::compile::is_barrier(a.ops.last().0) {
        lemma_pop_twin(a, b, p1, p2);
        lemma_drain_twin(pop_emit(a, p1), pop_emit(b, p2), p1, p2);
    }
}

proof fn lemma_run_twin<R: Resolve>(
    res: &R,
    t1: Seq<(int, Tok)>,
    t2: Seq<(int, Tok)>,
    lerr1: Option<Error>,
    lerr2: Option<Error>,
    i: int,
    a: Eng,
    b: Eng,
    p1: Params,
    p2: Params,
)
    requires
        twin(a, b),
        same_but_end(p1, p2),
        same_tokens(t1, t2),
        lerr1 is None <==> lerr2 is None,
    ensures
        twin(run(res, p1, t1, lerr1, i, a), run(res, p2, t2, lerr2, i, b)),
    decreases t1.len() - i,
{
    if a.sink.err is None {
        if i < 0 || i >= t1.len() {
            if lerr1 is None && !a.expect_operand {
                lemma_drain_twin(a, b, p1, p2);
            }
        } else {
            lemma_step_twin(res, t1, t2, lerr1, lerr2, i, a, b, p1, p2);
            let (a2, j) = step(res, p1, t1, lerr1, i, a);
            let (b2, k) = step(res, p2, t2, lerr2, i, b);
            if i < j {
                lemma_run_twin(res, t1, t2, lerr1, lerr2, j, a2, b2, p1, p2);
            }
        }
    }
}

/// Two sources that read as the same tokens, both without a lexical
/// error, compile alike: the same bytes, and an error in one exactly
/// when in the other.
pub proof fn lemma_compile_twin<R: Resolve>(
    res: &R,
    cfg: crate::config::Config,
    s1: Seq<u8>,
    s2: Seq<u8>,
    buflen: nat,
    stack_len: nat,
    substitute: bool,
)
    requires
        same_tokens(lex_all(s1, 0).0, lex_all(s2, 0).0),
        lex_all(s1, 0).1 is None <==> lex_all(s2, 0).1 is None,
    ensures
        ({
            let c1 = crate::compile::compile_spec(res, cfg, s1, buflen, stack_len, substitute);
            let c2 = crate::compile::compile_spec(res, cfg, s2, buflen, stack_len, substitute);
            &&& c1.out == c2.out
            &&& (c1.err is None <==> c2.err is None)
        }),
{
    let needed = crate::config::spec_scratch_len(cfg.spec_max_depth());
    if stack_len >= needed {
        let p1 = Params {
            lim: crate::writer::Lim { buflen: buflen, limit: cfg.spec_output_limit() as nat },
            max_depth: cfg.spec_max_depth() as nat,
            stack_len: stack_len,
            substitute: substitute,
            eof: s1.len(),
        };
        let p2 = Params { eof: s2.len(), ..p1 };
        let e0 = crate::compile::initial_eng();
        lemma_run_twin(res, lex_all(s1, 0).0, lex_all(s2, 0).0, lex_all(s1, 0).1, lex_all(s2, 0).1, 0, e0, e0, p1, p2);
    }
}

} // verus!
