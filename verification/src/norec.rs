//! With acyclic definitions, compiling never meets a recursive
//! definition.
use vstd::prelude::*;
use crate::compile::{close_group, collapse, drain, infix, pop_emit, run, step, Eng, Params};
use crate::error::Error;
use crate::fold::{bit_of, copy, cycle_walk, defs_of, expand, fold_at, lemma_chain_grows};
use crate::lex::{is_lower, lex_all, lex_at, lemma_lex_all_unfold, Lexed, Tok};
use crate::opcodes;
use crate::resolve::Resolve;
use crate::writer::{emit, Lim, Sink};

verus! {

/// The sink has not stopped on a recursive definition.
pub open spec fn no_rec(s: Sink) -> bool {
    s.err matches Some(e) ==> !(e is RecursiveDefinition)
}

/// Every definition the resolver holds walks without leading back into
/// itself.
pub open spec fn acyclic_resolver<R: Resolve>(res: &R) -> bool {
    forall|v: u8| #[trigger] res.spec_body(v) matches Some(b) ==> cycle_walk(defs_of(res), b, bit_of(v), 0) is None
}

proof fn lemma_copy_norec<R: Resolve>(res: &R, body: Seq<u8>, chain: u32, i: int, s: Sink, l: Lim)
    requires
        no_rec(s),
        cycle_walk(defs_of(res), body, chain, i) is None,
    ensures
        no_rec(copy(res, body, chain, i, s, l)),
    decreases crate::fold::chain_measure(chain), 0int, body.len() - i,
{
    if s.err is None && 0 <= i < body.len() {
        let op = body[i];
        if op == opcodes::NUM {
            if i + 9 <= body.len() {
                lemma_copy_norec(res, body, chain, i + 9, emit(s, body.subrange(i, i + 9), l), l);
            }
        } else if op == opcodes::VAR {
            if i + 1 < body.len() && is_lower(body[i + 1]) {
                let v = body[i + 1];
                match res.spec_body(v) {
                    Some(b) => {
                        if chain & bit_of(v) == 0 {
                            lemma_chain_grows(chain, v);
                            lemma_expand_norec(res, b, chain | bit_of(v), s, l);
                            lemma_copy_norec(res, body, chain, i + 2, expand(res, b, chain | bit_of(v), s, l), l);
                        }
                    },
                    None => {
                        lemma_copy_norec(res, body, chain, i + 2, emit(s, seq![opcodes::VAR, v], l), l);
                    },
                }
            }
        } else if op == opcodes::CONST || op == opcodes::FUNC {
            if i + 2 <= body.len() {
                lemma_copy_norec(res, body, chain, i + 2, emit(s, body.subrange(i, i + 2), l), l);
            }
        } else {
            lemma_copy_norec(res, body, chain, i + 1, emit(s, seq![op], l), l);
        }
    }
}

proof fn lemma_expand_norec<R: Resolve>(res: &R, body: Seq<u8>, chain: u32, s: Sink, l: Lim)
    requires
        no_rec(s),
        cycle_walk(defs_of(res), body, chain, 0) is None,
    ensures
        no_rec(expand(res, body, chain, s, l)),
    decreases crate::fold::chain_measure(chain), 1int, 0int,
{
    if s.err is None && fold_at(res, body, chain, 0, Seq::empty()) is None {
        lemma_copy_norec(res, body, chain, 0, s, l);
    }
}

proof fn lemma_collapse_norec(e: Eng, lbp: u8, left: bool, p: Params)
    requires
        no_rec(e.sink),
    ensures
        no_rec(collapse(e, lbp, left, p).sink),
    decreases e.ops.len(),
{
    if e.sink.err is None && e.ops.len() > 0 {
        let top = e.ops.last();
        if !(crate::compile::is_barrier(top.0) || top.1 < lbp || (top.1 == lbp && !left)) {
            lemma_collapse_norec(pop_emit(e, p), lbp, left, p);
        }
    }
}

proof fn lemma_close_norec(e: Eng, pos: int, p: Params)
    requires
        no_rec(e.sink),
    ensures
        no_rec(close_group(e, pos, p).sink),
    decreases e.ops.len(),
{
    if e.sink.err is None && e.ops.len() > 0 && e.ops.last().0 != crate::compile::TAG_LPAREN {
        lemma_close_norec(pop_emit(e, p), pos, p);
    }
}

proof fn lemma_step_norec<R: Resolve>(res: &R, p: Params, toks: Seq<(int, Tok)>, lerr: Option<Error>, i: int, e: Eng)
    requires
        no_rec(e.sink),
        acyclic_resolver(res),
        0 <= i < toks.len(),
        lerr matches Some(x) ==> !(x is RecursiveDefinition),
    ensures
        no_rec(step(res, p, toks, lerr, i, e).0.sink),
{
    let pos = toks[i].0;
    let tok = toks[i].1;
    lemma_collapse_norec(e, 10, true, p);
    lemma_collapse_norec(e, 20, true, p);
    lemma_collapse_norec(e, 30, false, p);
    let operand = tok.spec_starts_operand();
    let e1 = if operand && !e.expect_operand {
        infix(e, opcodes::ops::MUL, 20, 21, true, p)
    } else {
        e
    };
    if e1.sink.err is None {
        if !operand {
            lemma_collapse_norec(e1, 10, true, p);
            lemma_collapse_norec(e1, 20, true, p);
            lemma_collapse_norec(e1, 30, false, p);
            lemma_close_norec(crate::compile::Eng { log_pending: false, ..e1 }, pos, p);
        } else {
            match tok {
                Tok::Var(name) => {
                    if p.substitute && res.spec_body(name) is Some {
                        lemma_expand_norec(res, res.spec_body(name).unwrap(), bit_of(name), e1.sink, p.lim);
                    }
                },
                _ => {},
            }
        }
    }
}

proof fn lemma_drain_norec(e: Eng, p: Params)
    requires
        no_rec(e.sink),
    ensures
        no_rec(drain(e, p).sink),
    decreases e.ops.len(),
{
    if e.sink.err is None && e.ops.len() > 0 && !crate::compile::is_barrier(e.ops.last().0) {
        lemma_drain_norec(pop_emit(e, p), p);
    }
}

proof fn lemma_run_norec<R: Resolve>(res: &R, p: Params, toks: Seq<(int, Tok)>, lerr: Option<Error>, i: int, e: Eng)
    requires
        no_rec(e.sink),
        acyclic_resolver(res),
        lerr matches Some(x) ==> !(x is RecursiveDefinition),
    ensures
        no_rec(run(res, p, toks, lerr, i, e).sink),
    decreases toks.len() - i,
{
    if e.sink.err is None {
        if i < 0 || i >= toks.len() {
            if lerr is None && !e.expect_operand {
                lemma_drain_norec(e, p);
            }
        } else {
            lemma_step_norec(res, p, toks, lerr, i, e);
            let (e2, j) = step(res, p, toks, lerr, i, e);
            if i < j {
                lemma_run_norec(res, p, toks, lerr, j, e2);
            }
        }
    }
}

proof fn lemma_lex_norec(src: Seq<u8>, i: int)
    requires
        0 <= i <= src.len(),
    ensures
        lex_all(src, i).1 matches Some(e) ==> !(e is RecursiveDefinition),
    decreases src.len() - i,
{
    lemma_lex_all_unfold(src, i);
    if let Lexed::Token { start, tok, end } = lex_at(src, i) {
        lemma_lex_norec(src, end);
    }
}

/// Compiling over acyclic definitions never fails with a recursive
/// definition.
pub proof fn lemma_compile_norec<R: Resolve>(
    res: &R,
    cfg: crate::config::Config,
    src: Seq<u8>,
    buflen: nat,
    stack_len: nat,
    substitute: bool,
)
    requires
        acyclic_resolver(res),
    ensures
        no_rec(crate::compile::compile_spec(res, cfg, src, buflen, stack_len, substitute)),
{
    let needed = crate::config::spec_scratch_len(cfg.spec_max_depth());
    if stack_len >= needed {
        let lx = lex_all(src, 0);
        let p = Params {
            lim: Lim { buflen: buflen, limit: cfg.spec_output_limit() as nat },
            max_depth: cfg.spec_max_depth() as nat,
            stack_len: stack_len,
            substitute: substitute,
            eof: src.len(),
        };
        lemma_lex_norec(src, 0);
        lemma_run_norec(res, p, lx.0, lx.1, 0, crate::compile::initial_eng());
    }
}

} // verus!
