//! Joining two expressions with a top-level `+` never deepens nesting:
//! the nesting count depends on how deeply a construct is nested, not on
//! what stands beside it.
use vstd::prelude::*;
use crate::compile::{
    close_group, collapse, drain, infix, is_barrier, op_step, pop_emit, push, push_frame, rparen, run, step, Eng,
    Params, TAG_LOGB, TAG_LPAREN,
};
use crate::error::Error;
use crate::headroom::{ample, is_add, is_mul, levels, roomy, stack_ok};
use crate::lex::Tok;
use crate::opcodes;
use crate::resolve::Resolve;

verus! {

/// Pending additive and multiplicative operators only.
pub open spec fn plain(b: Seq<(u8, u8)>) -> bool {
    forall|q: int| 0 <= q < b.len() ==> is_add(#[trigger] b[q]) || is_mul(b[q])
}

/// The joined compilation `j` keeps pace with the lone one `s`: while
/// `s` goes on, `j` has stopped on an error other than `TooDeep`, or
/// agrees with `s` in its nesting count and expectation and holds the
/// operator stack of `s` on top of pending plain operators.
pub open spec fn tracks(j: Eng, s: Eng) -> bool {
    s.sink.err is None ==> {
        ||| (j.sink.err matches Some(x) && !(x is TooDeep))
        ||| {
            &&& j.sink.err is None
            &&& j.nest == s.nest
            &&& j.expect_operand == s.expect_operand
            &&& s.ops.len() <= j.ops.len()
            &&& j.ops.subrange(j.ops.len() - s.ops.len(), j.ops.len() as int) == s.ops
            &&& plain(j.ops.subrange(0, j.ops.len() - s.ops.len()))
        }
    }
}

/// Parameters with the same depth and substitution.
pub open spec fn same_rules(pj: Params, ps: Params) -> bool {
    pj.max_depth == ps.max_depth && pj.substitute == ps.substitute
}

proof fn lemma_top(j: Eng, s: Eng)
    requires
        tracks(j, s),
        s.sink.err is None,
        j.sink.err is None,
        s.ops.len() > 0,
    ensures
        j.ops.len() > 0,
        j.ops.last() == s.ops.last(),
        tracks(Eng { ops: j.ops.drop_last(), ..j }, Eng { ops: s.ops.drop_last(), ..s }),
{
    let d = j.ops.len() - s.ops.len();
    assert(j.ops.subrange(d, j.ops.len() as int)[s.ops.len() - 1] == j.ops.last());
    assert(j.ops.drop_last().subrange(d, j.ops.len() - 1) =~= s.ops.drop_last());
    assert(j.ops.drop_last().subrange(0, d) =~= j.ops.subrange(0, d));
}

proof fn lemma_pop_track(j: Eng, s: Eng, pj: Params, ps: Params)
    requires
        tracks(j, s),
        same_rules(pj, ps),
        s.sink.err is None ==> s.ops.len() > 0,
    ensures
        tracks(pop_emit(j, pj), pop_emit(s, ps)),
{
    if s.sink.err is None && j.sink.err is None {
        lemma_top(j, s);
    }
}

/// Popping plain operators from beneath a lone stack that is empty.
proof fn lemma_collapse_base(j: Eng, s: Eng, lbp: u8, left: bool, pj: Params)
    requires
        tracks(j, s),
        s.sink.err is None,
        s.ops.len() == 0,
    ensures
        tracks(collapse(j, lbp, left, pj), s),
    decreases j.ops.len(),
{
    if j.sink.err is None && j.ops.len() > 0 {
        let top = j.ops.last();
        assert(j.ops.subrange(0, j.ops.len() as int) =~= j.ops);
        assert(is_add(j.ops[j.ops.len() - 1]) || is_mul(j.ops[j.ops.len() - 1]));
        if !(is_barrier(top.0) || top.1 < lbp || (top.1 == lbp && !left)) {
            let j2 = pop_emit(j, pj);
            if j2.sink.err is None {
                assert(j2.ops =~= j.ops.drop_last());
                assert(j2.ops.subrange(0, j2.ops.len() as int) =~= j2.ops);
                assert(j2.ops.subrange(j2.ops.len() as int, j2.ops.len() as int) =~= s.ops);
                assert forall|q: int| 0 <= q < j2.ops.len() implies is_add(#[trigger] j2.ops[q]) || is_mul(j2.ops[q]) by {
                    assert(j2.ops[q] == j.ops[q]);
                    assert(j.ops.subrange(0, j.ops.len() as int)[q] == j.ops[q]);
                }
            }
            lemma_collapse_base(j2, s, lbp, left, pj);
        }
    }
}

proof fn lemma_collapse_track(j: Eng, s: Eng, lbp: u8, left: bool, pj: Params, ps: Params)
    requires
        tracks(j, s),
        same_rules(pj, ps),
    ensures
        tracks(collapse(j, lbp, left, pj), collapse(s, lbp, left, ps)),
    decreases s.ops.len(),
{
    if s.sink.err is None {
        if j.sink.err is None {
            if s.ops.len() == 0 {
                lemma_collapse_base(j, s, lbp, left, pj);
            } else {
                lemma_top(j, s);
                let top = s.ops.last();
                if !(is_barrier(top.0) || top.1 < lbp || (top.1 == lbp && !left)) {
                    lemma_pop_track(j, s, pj, ps);
                    lemma_collapse_track(pop_emit(j, pj), pop_emit(s, ps), lbp, left, pj, ps);
                }
            }
        } else {
            assert(collapse(j, lbp, left, pj) == j);
        }
    }
}

proof fn lemma_push_track(j: Eng, s: Eng, ent: (u8, u8), pj: Params, ps: Params)
    requires
        tracks(j, s),
        same_rules(pj, ps),
    ensures
        tracks(push(j, ent, pj), push(s, ent, ps)),
{
    if s.sink.err is None && j.sink.err is None {
        let d = j.ops.len() - s.ops.len();
        let j2 = push(j, ent, pj);
        let s2 = push(s, ent, ps);
        if j2.sink.err is None && s2.sink.err is None {
            assert(j2.ops.subrange(d, j2.ops.len() as int) =~= s2.ops);
            assert(j2.ops.subrange(0, d) =~= j.ops.subrange(0, d));
        }
    }
}

proof fn lemma_frame_track(j: Eng, s: Eng, pj: Params, ps: Params)
    requires
        tracks(j, s),
        same_rules(pj, ps),
    ensures
        tracks(push_frame(j, pj), push_frame(s, ps)),
{
    if s.sink.err is None && j.sink.err is None {
        let d = j.ops.len() - s.ops.len();
        let j2 = push_frame(j, pj);
        let s2 = push_frame(s, ps);
        if j2.sink.err is None && s2.sink.err is None {
            assert(j2.ops.subrange(d, j2.ops.len() as int) =~= s2.ops);
            assert(j2.ops.subrange(0, d) =~= j.ops.subrange(0, d));
        }
    }
}

proof fn lemma_infix_track(j: Eng, s: Eng, op: u8, lbp: u8, rbp: u8, left: bool, pj: Params, ps: Params)
    requires
        tracks(j, s),
        same_rules(pj, ps),
    ensures
        tracks(infix(j, op, lbp, rbp, left, pj), infix(s, op, lbp, rbp, left, ps)),
{
    lemma_collapse_track(j, s, lbp, left, pj, ps);
    lemma_push_track(collapse(j, lbp, left, pj), collapse(s, lbp, left, ps), (op, rbp), pj, ps);
}

proof fn lemma_close_track(j: Eng, s: Eng, pos1: int, pos2: int, pj: Params, ps: Params)
    requires
        tracks(j, s),
        same_rules(pj, ps),
    ensures
        tracks(close_group(j, pos1, pj), close_group(s, pos2, ps)),
    decreases s.ops.len(),
{
    if s.sink.err is None && s.ops.len() > 0 {
        if j.sink.err is None {
            lemma_top(j, s);
            if s.ops.last().0 != TAG_LPAREN {
                lemma_pop_track(j, s, pj, ps);
                lemma_close_track(pop_emit(j, pj), pop_emit(s, ps), pos1, pos2, pj, ps);
            }
        } else {
            assert(close_group(j, pos1, pj).sink == j.sink);
        }
    }
}

proof fn lemma_close_top(e: Eng, pos: int, p: Params)
    ensures
        close_group(e, pos, p).sink.err is None ==> close_group(e, pos, p).ops.len() > 0 && close_group(
            e,
            pos,
            p,
        ).ops.last().0 == TAG_LPAREN,
    decreases e.ops.len(),
{
    if e.sink.err is None && e.ops.len() > 0 && e.ops.last().0 != TAG_LPAREN {
        lemma_close_top(pop_emit(e, p), pos, p);
    }
}

proof fn lemma_rparen_track(j: Eng, s: Eng, pos1: int, pos2: int, pj: Params, ps: Params)
    requires
        tracks(j, s),
        same_rules(pj, ps),
    ensures
        tracks(rparen(j, pos1, pj), rparen(s, pos2, ps)),
{
    if s.sink.err is None && j.sink.err is Some {
        if !j.expect_operand {
            assert(close_group(Eng { log_pending: false, ..j }, pos1, pj) == Eng { log_pending: false, ..j });
        }
        assert(rparen(j, pos1, pj).sink == j.sink);
    } else if s.sink.err is None && !s.expect_operand {
        let j0 = Eng { log_pending: false, ..j };
        let s0 = Eng { log_pending: false, ..s };
        lemma_close_track(j0, s0, pos1, pos2, pj, ps);
        let j2 = close_group(j0, pos1, pj);
        let s2 = close_group(s0, pos2, ps);
        lemma_close_top(s0, pos2, ps);
        if s2.sink.err is None && j2.sink.err is None {
            if s2.ops.len() > 0 {
                lemma_top(j2, s2);
                let j3 = Eng { ops: j2.ops.drop_last(), nest: crate::compile::dec(j2.nest), ..j2 };
                let s3 = Eng { ops: s2.ops.drop_last(), nest: crate::compile::dec(s2.nest), ..s2 };
                assert(tracks(j3, s3));
                if s3.ops.len() > 0 {
                    lemma_top(j3, s3);
                    let j4 = Eng { ops: j3.ops.drop_last(), ..j3 };
                    let s4 = Eng { ops: s3.ops.drop_last(), ..s3 };
                    assert(tracks(j4, s4));
                } else if j3.ops.len() > 0 {
                    let d = j3.ops.len() as int;
                    assert(j3.ops.subrange(0, d) =~= j3.ops);
                    assert(is_add(j3.ops[d - 1]) || is_mul(j3.ops[d - 1]));
                }
            }
        }
    }
}

proof fn lemma_op_step_track(j: Eng, s: Eng, tok: Tok, pos1: int, pos2: int, pj: Params, ps: Params)
    requires
        tracks(j, s),
        same_rules(pj, ps),
    ensures
        tracks(op_step(j, tok, pos1, pj), op_step(s, tok, pos2, ps)),
{
    lemma_infix_track(j, s, opcodes::ADD, 10, 11, true, pj, ps);
    lemma_infix_track(j, s, opcodes::SUB, 10, 11, true, pj, ps);
    lemma_infix_track(j, s, opcodes::MUL, 20, 21, true, pj, ps);
    lemma_infix_track(j, s, opcodes::DIV, 20, 21, true, pj, ps);
    lemma_infix_track(j, s, opcodes::POW, 30, 30, false, pj, ps);
    lemma_push_track(j, s, (opcodes::NEG, 25), pj, ps);
    lemma_push_track(j, s, (TAG_LOGB, 41), pj, ps);
    lemma_rparen_track(j, s, pos1, pos2, pj, ps);
}

/// The sink has not stopped for depth.
pub open spec fn not_deep(s: crate::writer::Sink) -> bool {
    !(s.err matches Some(x) && x is TooDeep)
}

proof fn lemma_chk_not_deep<R: Resolve>(res: &R, body: Seq<u8>, chain: u32, i: int)
    ensures
        crate::fold::chk(res, body, chain, i) matches Some(x) ==> (x is MalformedRpn || x is RecursiveDefinition),
    decreases crate::fold::chain_measure(chain), body.len() + 9 - i,
{
    if 0 <= i < body.len() {
        let op = body[i];
        if op == opcodes::VAR {
            if i + 1 < body.len() && crate::lex::is_lower(body[i + 1]) && chain & crate::fold::bit_of(body[i + 1]) == 0 {
                let v = body[i + 1];
                lemma_chk_not_deep(res, body, chain, i + 2);
                match res.spec_body(v) {
                    Some(b) => {
                        crate::fold::lemma_chain_grows(chain, v);
                        lemma_chk_not_deep(res, b, chain | crate::fold::bit_of(v), 0);
                    },
                    None => {},
                }
            }
        } else {
            lemma_chk_not_deep(res, body, chain, i + crate::fold::ins_width(op));
        }
    }
}

proof fn lemma_expand_not_deep<R: Resolve>(
    res: &R,
    body: Seq<u8>,
    chain: u32,
    s: crate::writer::Sink,
    l: crate::writer::Lim,
)
    requires
        not_deep(s),
    ensures
        not_deep(crate::fold::expand(res, body, chain, s, l)),
    decreases crate::fold::chain_measure(chain), 1int, 0int,
{
    if s.err is None {
        lemma_chk_not_deep(res, body, chain, 0);
        if crate::fold::chk(res, body, chain, 0) is None && crate::fold::fold_at(res, body, chain, 0, Seq::empty()) is None {
            lemma_copy_not_deep(res, body, chain, 0, s, l);
        }
    }
}

proof fn lemma_copy_not_deep<R: Resolve>(
    res: &R,
    body: Seq<u8>,
    chain: u32,
    i: int,
    s: crate::writer::Sink,
    l: crate::writer::Lim,
)
    requires
        not_deep(s),
    ensures
        not_deep(crate::fold::copy(res, body, chain, i, s, l)),
    decreases crate::fold::chain_measure(chain), 0int, body.len() - i,
{
    if s.err is None && 0 <= i < body.len() {
        let op = body[i];
        if op == opcodes::NUM {
            if i + 9 <= body.len() {
                lemma_copy_not_deep(res, body, chain, i + 9, crate::writer::emit(s, body.subrange(i, i + 9), l), l);
            }
        } else if op == opcodes::VAR {
            if i + 1 < body.len() && crate::lex::is_lower(body[i + 1]) {
                let v = body[i + 1];
                match res.spec_body(v) {
                    Some(b) => {
                        if chain & crate::fold::bit_of(v) == 0 {
                            crate::fold::lemma_chain_grows(chain, v);
                            let c = chain | crate::fold::bit_of(v);
                            lemma_expand_not_deep(res, b, c, s, l);
                            lemma_copy_not_deep(res, body, chain, i + 2, crate::fold::expand(res, b, c, s, l), l);
                        }
                    },
                    None => {
                        lemma_copy_not_deep(res, body, chain, i + 2, crate::writer::emit(s, seq![opcodes::VAR, v], l), l);
                    },
                }
            }
        } else if op == opcodes::CONST || op == opcodes::FUNC {
            if i + 2 <= body.len() {
                lemma_copy_not_deep(res, body, chain, i + 2, crate::writer::emit(s, body.subrange(i, i + 2), l), l);
            }
        } else {
            lemma_copy_not_deep(res, body, chain, i + 1, crate::writer::emit(s, seq![op], l), l);
        }
    }
}

proof fn lemma_step_track<R: Resolve>(
    res: &R,
    pj: Params,
    tj: Seq<(int, Tok)>,
    lerrj: Option<Error>,
    ij: int,
    j: Eng,
    ps: Params,
    ts: Seq<(int, Tok)>,
    lerrs: Option<Error>,
    is: int,
    s: Eng,
)
    requires
        tracks(j, s),
        same_rules(pj, ps),
        0 <= ij < tj.len(),
        0 <= is < ts.len(),
        tj[ij].1 == ts[is].1,
        is + 1 < ts.len() ==> ij + 1 < tj.len() && tj[ij + 1].1 == ts[is + 1].1,
    ensures
        tracks(step(res, pj, tj, lerrj, ij, j).0, step(res, ps, ts, lerrs, is, s).0),
        step(res, pj, tj, lerrj, ij, j).0.sink.err is None && step(res, ps, ts, lerrs, is, s).0.sink.err is None
            ==> step(res, pj, tj, lerrj, ij, j).1 - ij == step(res, ps, ts, lerrs, is, s).1 - is,
        step(res, pj, tj, lerrj, ij, j).1 > ij,
        step(res, ps, ts, lerrs, is, s).1 > is,
{
    let tok = ts[is].1;
    let operand = tok.spec_starts_operand();
    lemma_infix_track(j, s, opcodes::MUL, 20, 21, true, pj, ps);
    let j1 = if operand && !j.expect_operand {
        infix(j, opcodes::ops::MUL, 20, 21, true, pj)
    } else {
        j
    };
    let s1 = if operand && !s.expect_operand {
        infix(s, opcodes::ops::MUL, 20, 21, true, ps)
    } else {
        s
    };
    if j.sink.err is Some {
        assert(collapse(j, 20, true, pj) == j);
        assert(j1.sink == j.sink);
    }
    assert(tracks(j1, s1));
    if s1.sink.err is None && j1.sink.err is None {
        if !operand {
            lemma_op_step_track(j1, s1, tok, tj[ij].0, ts[is].0, pj, ps);
        } else {
            match tok {
                Tok::Func(id) => {
                    lemma_push_track(j1, s1, (opcodes::FUNC, id), pj, ps);
                    lemma_frame_track(push(j1, (opcodes::FUNC, id), pj), push(s1, (opcodes::FUNC, id), ps), pj, ps);
                },
                Tok::LParen => {
                    lemma_push_track(j1, s1, (TAG_LPAREN, 0), pj, ps);
                },
                Tok::Var(name) => {
                    if pj.substitute && res.spec_body(name) is Some {
                        lemma_expand_not_deep(res, res.spec_body(name).unwrap(), crate::fold::bit_of(name), j1.sink, pj.lim);
                    }
                },
                _ => {},
            }
        }
    }
}

proof fn lemma_drain_no_deep(e: Eng, p: Params)
    requires
        !(e.sink.err matches Some(x) && x is TooDeep),
    ensures
        !(drain(e, p).sink.err matches Some(x) && x is TooDeep),
    decreases e.ops.len(),
{
    if e.sink.err is None && e.ops.len() > 0 && !is_barrier(e.ops.last().0) {
        lemma_drain_no_deep(pop_emit(e, p), p);
    }
}

/// A drain that succeeds found no barrier on the stack.
proof fn lemma_drain_plain(e: Eng, p: Params)
    requires
        e.sink.err is None,
        drain(e, p).sink.err is None,
    ensures
        forall|q: int| 0 <= q < e.ops.len() ==> !is_barrier(#[trigger] e.ops[q].0),
    decreases e.ops.len(),
{
    if e.ops.len() > 0 {
        let e2 = pop_emit(e, p);
        if is_barrier(e.ops.last().0) {
            assert(drain(e, p).sink.err is Some);
        }
        assert(drain(e, p) == drain(e2, p));
        if e2.sink.err is Some {
            assert(drain(e2, p) == e2);
        }
        assert(e2.sink.err is None);
        assert(e2.ops =~= e.ops.drop_last());
        lemma_drain_plain(e2, p);
        assert forall|q: int| 0 <= q < e.ops.len() implies !is_barrier(#[trigger] e.ops[q].0) by {
            if q < e.ops.len() - 1 {
                assert(e.ops[q] == e2.ops[q]);
            }
        }
    }
}

proof fn lemma_collapse_prefix(e: Eng, lbp: u8, left: bool, p: Params)
    ensures
        collapse(e, lbp, left, p).ops.len() <= e.ops.len(),
        collapse(e, lbp, left, p).ops =~= e.ops.subrange(0, collapse(e, lbp, left, p).ops.len() as int),
    decreases e.ops.len(),
{
    if e.sink.err is None && e.ops.len() > 0 {
        let top = e.ops.last();
        if !(is_barrier(top.0) || top.1 < lbp || (top.1 == lbp && !left)) {
            let e2 = pop_emit(e, p);
            assert(e2.ops =~= e.ops.drop_last());
            lemma_collapse_prefix(e2, lbp, left, p);
        } else {
            assert(e.ops.subrange(0, e.ops.len() as int) =~= e.ops);
        }
    } else {
        assert(e.ops.subrange(0, e.ops.len() as int) =~= e.ops);
    }
}

/// Once the lone compilation has read all its tokens from `s`, the
/// joined one, following it from `j`, stays clear of `TooDeep`.
proof fn lemma_run_track<R: Resolve>(
    res: &R,
    pj: Params,
    tj: Seq<(int, Tok)>,
    ij: int,
    j: Eng,
    ps: Params,
    ts: Seq<(int, Tok)>,
    lerrs: Option<Error>,
    is: int,
    s: Eng,
)
    requires
        tracks(j, s),
        same_rules(pj, ps),
        0 <= ij,
        0 <= is,
        tj.len() - ij == ts.len() - is,
        forall|q: int| 0 <= q < ts.len() - is ==> #[trigger] tj[ij + q].1 == ts[is + q].1,
    ensures
        run(res, ps, ts, lerrs, is, s).sink.err is None ==> !(run(res, pj, tj, None, ij, j).sink.err matches Some(
            x,
        ) && x is TooDeep),
    decreases ts.len() - is,
{
    if s.sink.err is None {
        if j.sink.err is Some {
        } else if is >= ts.len() {
            lemma_drain_no_deep(j, pj);
        } else {
            assert(tj[ij + 0].1 == ts[is + 0].1);
            if is + 1 < ts.len() {
                assert(tj[ij + 1].1 == ts[is + 1].1);
            }
            lemma_step_track(res, pj, tj, None, ij, j, ps, ts, lerrs, is, s);
            let (j2, kj) = step(res, pj, tj, None, ij, j);
            let (s2, ks) = step(res, ps, ts, lerrs, is, s);
            if s2.sink.err is None && j2.sink.err is None {
                assert forall|q: int| 0 <= q < ts.len() - ks implies #[trigger] tj[kj + q].1 == ts[ks + q].1 by {
                    assert(tj[ij + (ks - is + q)].1 == ts[is + (ks - is + q)].1);
                }
                lemma_run_track(res, pj, tj, kj, j2, ps, ts, lerrs, ks, s2);
            } else if s2.sink.err is None {
                assert(run(res, pj, tj, None, kj, j2) == j2);
            }
        }
    }
}

proof fn lemma_collapse_not_deep(e: Eng, lbp: u8, left: bool, p: Params)
    requires
        not_deep(e.sink),
    ensures
        not_deep(collapse(e, lbp, left, p).sink),
    decreases e.ops.len(),
{
    if e.sink.err is None && e.ops.len() > 0 {
        let top = e.ops.last();
        if !(is_barrier(top.0) || top.1 < lbp || (top.1 == lbp && !left)) {
            lemma_collapse_not_deep(pop_emit(e, p), lbp, left, p);
        }
    }
}

/// A run that ends without an error met no lexical error.
proof fn lemma_run_lerr<R: Resolve>(res: &R, p: Params, toks: Seq<(int, Tok)>, lerr: Option<Error>, i: int, e: Eng)
    ensures
        run(res, p, toks, lerr, i, e).sink.err is None ==> lerr is None,
    decreases toks.len() - i,
{
    if e.sink.err is None && 0 <= i < toks.len() {
        let (e2, k) = step(res, p, toks, lerr, i, e);
        if i < k {
            lemma_run_lerr(res, p, toks, lerr, k, e2);
        }
    }
}

/// Reading the first expression's tokens, then the plus: while the lone
/// compilation of the first expression goes on, the joined one keeps
/// pace; at the plus every pending operator is emitted and the nesting
/// count is back to one, where the lone compilation of the second
/// expression starts.
#[verifier::spinoff_prover]
proof fn lemma_run_front<R: Resolve>(
    res: &R,
    pj: Params,
    tj: Seq<(int, Tok)>,
    i: int,
    j: Eng,
    pa: Params,
    ta: Seq<(int, Tok)>,
    s: Eng,
    pb: Params,
    tb: Seq<(int, Tok)>,
    lerrb: Option<Error>,
)
    requires
        tracks(j, s),
        same_rules(pj, pa),
        same_rules(pj, pb),
        stack_ok(j, pj),
        roomy(j.sink),
        ample(pj),
        0 <= i <= ta.len(),
        tj.len() == ta.len() + 1 + tb.len(),
        forall|q: int| 0 <= q < ta.len() ==> #[trigger] tj[q].1 == ta[q].1,
        tj[ta.len() as int].1 == Tok::Add,
        forall|q: int| 0 <= q < tb.len() ==> #[trigger] tj[ta.len() + 1 + q].1 == tb[q].1,
        run(res, pb, tb, lerrb, 0, crate::compile::initial_eng()).sink.err is None,
    ensures
        run(res, pa, ta, None, i, s).sink.err is None ==> !(run(res, pj, tj, None, i, j).sink.err matches Some(x)
            && x is TooDeep),
    decreases ta.len() - i,
{
    let n = ta.len() as int;
    if s.sink.err is None && j.sink.err is None {
        if i >= n {
            if !s.expect_operand && drain(s, pa).sink.err is None {
                lemma_drain_plain(s, pa);
                let d = j.ops.len() - s.ops.len();
                assert forall|q: int| 0 <= q < j.ops.len() implies !is_barrier(#[trigger] j.ops[q].0) by {
                    if q < d {
                        assert(j.ops.subrange(0, d)[q] == j.ops[q]);
                        assert(is_add(j.ops.subrange(0, d)[q]) || is_mul(j.ops.subrange(0, d)[q]));
                    } else {
                        assert(j.ops.subrange(d, j.ops.len() as int)[q - d] == j.ops[q]);
                        assert(!is_barrier(s.ops[q - d].0));
                    }
                }
                let c = collapse(j, 10, true, pj);
                lemma_collapse_not_deep(j, 10, true, pj);
                crate::headroom::lemma_collapse(j, 10, true, pj);
                lemma_collapse_prefix(j, 10, true, pj);
                if c.sink.err is None && c.ops.len() > 0 {
                    let top = c.ops.last();
                    assert(top == j.ops[c.ops.len() - 1]);
                    assert(!is_barrier(top.0));
                    assert(c.ops =~= c.ops.drop_last().push(top));
                    assert(crate::headroom::fits_on(c.ops.drop_last(), top));
                    assert(false);
                }
                let j2 = step(res, pj, tj, None, n, j).0;
                assert(step(res, pj, tj, None, n, j).1 == n + 1);
                let e0 = crate::compile::initial_eng();
                if j2.sink.err is None {
                    assert(levels(c.ops) == 0);
                    assert(j2.ops =~= seq![(opcodes::ADD, 11u8)]);
                    assert(j2.ops.subrange(1, 1) =~= e0.ops);
                    assert(j2.ops.subrange(0, 1) =~= seq![(opcodes::ADD, 11u8)]);
                }
                assert(tracks(j2, e0));
                assert forall|q: int| 0 <= q < tb.len() - 0 implies #[trigger] tj[n + 1 + q].1 == tb[0 + q].1 by {
                    assert(tj[n + 1 + q].1 == tb[q].1);
                }
                lemma_run_track(res, pj, tj, n + 1, j2, pb, tb, lerrb, 0, e0);
                if j2.sink.err is Some {
                    assert(run(res, pj, tj, None, n + 1, j2) == j2);
                }
            }
        } else {
            assert(tj[i].1 == ta[i].1);
            if i + 1 < n {
                assert(tj[i + 1].1 == ta[i + 1].1);
            }
            lemma_step_track(res, pj, tj, None, i, j, pa, ta, None, i, s);
            crate::headroom::lemma_step(res, pj, tj, None, i, j);
            let (j2, kj) = step(res, pj, tj, None, i, j);
            let (s2, ks) = step(res, pa, ta, None, i, s);
            if s2.sink.err is None && j2.sink.err is None {
                assert(ks <= n);
                lemma_run_front(res, pj, tj, ks, j2, pa, ta, s2, pb, tb, lerrb);
            } else if s2.sink.err is None {
                assert(run(res, pj, tj, None, kj, j2) == j2);
            }
        }
    }
}

/// Two expressions that compile joined by ` + ` never fail with
/// `TooDeep`.
pub proof fn lemma_join<R: Resolve>(
    res: &R,
    cfg: crate::config::Config,
    a: Seq<u8>,
    b: Seq<u8>,
    bufa: nat,
    bufb: nat,
    bufj: nat,
    sa: nat,
    sb: nat,
    sj: nat,
    substitute: bool,
)
    requires
        crate::config::scratch_len_for(cfg.spec_max_depth()) <= usize::MAX,
        crate::compile::compile_spec(res, cfg, a, bufa, sa, substitute).err is None,
        crate::compile::compile_spec(res, cfg, b, bufb, sb, substitute).err is None,
    ensures
        !(crate::compile::compile_spec(res, cfg, a + seq![32u8, 43u8, 32u8] + b, bufj, sj, substitute).err matches Some(
            x,
        ) && x is TooDeep),
{
    let src = a + seq![32u8, 43u8, 32u8] + b;
    let needed = crate::config::spec_scratch_len(cfg.spec_max_depth());
    if sj >= needed {
        let e0 = crate::compile::initial_eng();
        let la = crate::lex::lex_all(a, 0);
        let lb = crate::lex::lex_all(b, 0);
        let lj = crate::lex::lex_all(src, 0);
        let mk = |buf: nat, st: nat, len: nat|
            Params {
                lim: crate::writer::Lim { buflen: buf, limit: cfg.spec_output_limit() as nat },
                max_depth: cfg.spec_max_depth() as nat,
                stack_len: st,
                substitute: substitute,
                eof: len,
            };
        let pa = mk(bufa, sa, a.len());
        let pb = mk(bufb, sb, b.len());
        let pj = mk(bufj, sj, src.len());
        lemma_run_lerr(res, pa, la.0, la.1, 0, e0);
        lemma_run_lerr(res, pb, lb.0, lb.1, 0, e0);
        crate::spacing::lemma_join_lex(a, b);
        let want = la.0 + seq![(a.len() + 1int, Tok::Add)] + lb.0;
        let n = la.0.len() as int;
        assert forall|q: int| 0 <= q < n implies #[trigger] lj.0[q].1 == la.0[q].1 by {
            assert(lj.0[q].1 == want[q].1);
        }
        assert(lj.0[n].1 == want[n].1);
        assert forall|q: int| 0 <= q < lb.0.len() implies #[trigger] lj.0[n + 1 + q].1 == lb.0[q].1 by {
            assert(lj.0[n + 1 + q].1 == want[n + 1 + q].1);
        }
        assert(e0.ops.subrange(0, 0) =~= Seq::<(u8, u8)>::empty());
        assert(tracks(e0, e0));
        assert(levels(e0.ops) == 0);
        assert(stack_ok(e0, pj));
        lemma_run_front(res, pj, lj.0, 0, e0, pa, la.0, e0, pb, lb.0, lb.1);
    }
}

} // verus!
