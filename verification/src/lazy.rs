//! Without substitution, or with no definitions, the definitions are
//! never consulted: every variable compiles to its own `VAR` instruction.
use vstd::prelude::*;
use crate::compile::{emit_variable, run, step, Eng, Params};
use crate::error::Error;
use crate::lex::{lex_all, Tok};
use crate::resolve::{NoResolve, Resolve};

verus! {

/// The resolver is never asked for a body.
pub open spec fn unused<R: Resolve>(res: &R, p: Params) -> bool {
    !p.substitute || forall|v: u8| #[trigger] res.spec_body(v) is None
}

proof fn lemma_step_lazy<R: Resolve>(res: &R, p: Params, toks: Seq<(int, Tok)>, lerr: Option<Error>, i: int, e: Eng)
    requires
        unused(res, p),
        0 <= i < toks.len(),
    ensures
        step(res, p, toks, lerr, i, e) == step(&NoResolve, p, toks, lerr, i, e),
{
    match toks[i].1 {
        Tok::Var(name) => {
            let e1 = if toks[i].1.spec_starts_operand() && !e.expect_operand {
                crate::compile::infix(e, crate::opcodes::ops::MUL, 20, 21, true, p)
            } else {
                e
            };
            assert(p.substitute ==> res.spec_body(name) is None);
            assert(emit_variable(res, e1, name, p) == emit_variable(&NoResolve, e1, name, p));
        },
        _ => {},
    }
}

proof fn lemma_run_lazy<R: Resolve>(res: &R, p: Params, toks: Seq<(int, Tok)>, lerr: Option<Error>, i: int, e: Eng)
    requires
        unused(res, p),
    ensures
        run(res, p, toks, lerr, i, e) == run(&NoResolve, p, toks, lerr, i, e),
    decreases toks.len() - i,
{
    if e.sink.err is None && 0 <= i < toks.len() {
        lemma_step_lazy(res, p, toks, lerr, i, e);
        let (e2, j) = step(res, p, toks, lerr, i, e);
        if i < j {
            lemma_run_lazy(res, p, toks, lerr, j, e2);
        }
    }
}

/// Compiling without substitution gives what it gives with no
/// definitions at all.
pub proof fn lemma_compile_lazy<R: Resolve>(
    res: &R,
    cfg: crate::config::Config,
    src: Seq<u8>,
    buflen: nat,
    stack_len: nat,
)
    ensures
        crate::compile::compile_spec(res, cfg, src, buflen, stack_len, false) == crate::compile::compile_spec(
            &NoResolve,
            cfg,
            src,
            buflen,
            stack_len,
            false,
        ),
{
    let lx = lex_all(src, 0);
    let p = Params {
        lim: crate::writer::Lim { buflen: buflen, limit: cfg.spec_output_limit() as nat },
        max_depth: cfg.spec_max_depth() as nat,
        stack_len: stack_len,
        substitute: false,
        eof: src.len(),
    };
    lemma_run_lazy(res, p, lx.0, lx.1, 0, crate::compile::initial_eng());
}

/// Compiling against a resolver that holds no definitions gives what it
/// gives with [`NoResolve`].
pub proof fn lemma_compile_undefined<R: Resolve>(
    res: &R,
    cfg: crate::config::Config,
    src: Seq<u8>,
    buflen: nat,
    stack_len: nat,
    substitute: bool,
)
    requires
        forall|v: u8| #[trigger] res.spec_body(v) is None,
    ensures
        crate::compile::compile_spec(res, cfg, src, buflen, stack_len, substitute) == crate::compile::compile_spec(
            &NoResolve,
            cfg,
            src,
            buflen,
            stack_len,
            substitute,
        ),
{
    let lx = lex_all(src, 0);
    let p = Params {
        lim: crate::writer::Lim { buflen: buflen, limit: cfg.spec_output_limit() as nat },
        max_depth: cfg.spec_max_depth() as nat,
        stack_len: stack_len,
        substitute: substitute,
        eof: src.len(),
    };
    lemma_run_lazy(res, p, lx.0, lx.1, 0, crate::compile::initial_eng());
}

} // verus!
