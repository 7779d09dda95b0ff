//! The operator stack never outgrows `Config::scratch_len`: every
//! nesting level holds at most four pending entries (an additive and a
//! multiplicative operator, a function frame and its parenthesis), so a
//! scratch of that size never ends a compilation with `ScratchTooSmall`.
use vstd::prelude::*;
use crate::compile::{
    cap_entries, close_group, collapse, drain, infix, is_barrier, is_nested_tag, op_step, pop_emit, push, push_frame,
    releases, rparen, run, step, Eng, Params, TAG_LOGB, TAG_LPAREN,
};
use crate::error::Error;
use crate::fold::{bit_of, chk, copy, expand, fold_at, lemma_chain_grows};
use crate::lex::{is_lower, lex_all, lex_at, lemma_lex_all_unfold, Lexed, Tok};
use crate::opcodes;
use crate::resolve::Resolve;
use crate::writer::{emit, Lim, Sink};

verus! {

/// The sink has not stopped for lack of operator-stack scratch.
pub open spec fn roomy(s: Sink) -> bool {
    s.err matches Some(x) ==> !(x is ScratchTooSmall)
}

/// A pending additive operator.
pub open spec fn is_add(ent: (u8, u8)) -> bool {
    (ent.0 == opcodes::ADD || ent.0 == opcodes::SUB) && ent.1 == 11
}

/// A pending multiplicative operator.
pub open spec fn is_mul(ent: (u8, u8)) -> bool {
    (ent.0 == opcodes::MUL || ent.0 == opcodes::DIV) && ent.1 == 21
}

/// An entry that opens a nesting level (or, right above a function
/// frame, shares the frame's).
pub open spec fn is_opener(ent: (u8, u8)) -> bool {
    ||| ent == (TAG_LPAREN, 0u8)
    ||| ent.0 == opcodes::FUNC
    ||| ent == (opcodes::POW, 30u8)
    ||| ent == (opcodes::NEG, 25u8)
    ||| ent == (TAG_LOGB, 41u8)
}

/// Number of pending binary operators on top of the stack.
pub open spec fn tail_ops(ops: Seq<(u8, u8)>) -> int
    decreases ops.len(),
{
    if ops.len() == 0 || !(is_add(ops.last()) || is_mul(ops.last())) {
        0
    } else {
        1 + tail_ops(ops.drop_last())
    }
}

/// The top entry is a function frame's parenthesis.
pub open spec fn frame_top(ops: Seq<(u8, u8)>) -> bool {
    &&& ops.len() >= 2
    &&& ops.last().0 == TAG_LPAREN
    &&& ops[ops.len() - 2].0 == opcodes::FUNC
}

/// Nesting levels held by the stack: every opener but a frame's
/// parenthesis.
pub open spec fn levels(ops: Seq<(u8, u8)>) -> int
    decreases ops.len(),
{
    if ops.len() == 0 {
        0
    } else {
        levels(ops.drop_last()) + if is_opener(ops.last()) && !frame_top(ops) { 1int } else { 0int }
    }
}

/// Entries the current level may still take.
pub open spec fn room(ops: Seq<(u8, u8)>) -> int {
    if ops.len() > 0 && ops.last().0 == opcodes::FUNC {
        3
    } else {
        2 - tail_ops(ops)
    }
}

/// Whether `ent` may be pushed on `ops`: the engine's entries only; a
/// function frame is followed by its parenthesis; an additive operator
/// sits on no pending operator, a multiplicative one on at most an
/// additive one.
pub open spec fn fits_on(ops: Seq<(u8, u8)>, ent: (u8, u8)) -> bool {
    &&& is_add(ent) || is_mul(ent) || is_opener(ent)
    &&& ops.len() > 0 && ops.last().0 == opcodes::FUNC ==> ent == (TAG_LPAREN, 0u8)
    &&& is_add(ent) ==> tail_ops(ops) == 0
    &&& is_mul(ent) ==> tail_ops(ops) == 0 || (tail_ops(ops) == 1 && is_add(ops.last()))
}

/// The stacks the engine builds, entry by entry.
pub open spec fn shaped(ops: Seq<(u8, u8)>) -> bool
    decreases ops.len(),
{
    ops.len() == 0 || (shaped(ops.drop_last()) && fits_on(ops.drop_last(), ops.last()))
}

/// The engine's stack is shaped, ends on no bare function frame, and
/// holds one level fewer than the nesting count.
pub open spec fn stack_ok(e: Eng, p: Params) -> bool {
    e.sink.err is None ==> {
        &&& shaped(e.ops)
        &&& (e.ops.len() > 0 ==> e.ops.last().0 != opcodes::FUNC)
        &&& e.nest == 1 + levels(e.ops)
        &&& (e.nest <= p.max_depth || e.nest == 1)
    }
}

/// The scratch holds four entries per level and some slack.
pub open spec fn ample(p: Params) -> bool {
    cap_entries(p) >= 4 * p.max_depth + 16
}

proof fn lemma_tail_ops(ops: Seq<(u8, u8)>)
    requires
        shaped(ops),
    ensures
        0 <= tail_ops(ops) <= 2,
        tail_ops(ops) == 2 ==> is_mul(ops.last()) && is_add(ops.drop_last().last()),
        levels(ops) >= 0,
    decreases ops.len(),
{
    if ops.len() > 0 {
        lemma_tail_ops(ops.drop_last());
    }
}

/// A shaped stack holds at most four entries per level, two more at the
/// bottom.
proof fn lemma_bound(ops: Seq<(u8, u8)>)
    requires
        shaped(ops),
    ensures
        room(ops) >= 0,
        ops.len() + room(ops) <= 4 * levels(ops) + 2,
    decreases ops.len(),
{
    lemma_tail_ops(ops);
    if ops.len() > 0 {
        let o = ops.drop_last();
        lemma_bound(o);
        lemma_tail_ops(o);
    }
}

/// Popping a pending entry that is no barrier.
proof fn lemma_pop(e: Eng, p: Params)
    requires
        stack_ok(e, p),
        roomy(e.sink),
        e.sink.err is None ==> e.ops.len() > 0 && !is_barrier(e.ops.last().0),
    ensures
        stack_ok(pop_emit(e, p), p),
        roomy(pop_emit(e, p).sink),
        pop_emit(e, p).ops.len() <= e.ops.len(),
{
    if e.sink.err is None {
        let ops = e.ops;
        let o = ops.drop_last();
        let t = ops.last();
        assert(shaped(o) && fits_on(o, t));
        lemma_tail_ops(o);
        assert(!frame_top(ops));
        assert(levels(ops) == levels(o) + if is_opener(t) { 1int } else { 0int });
        assert(releases(t.0) <==> is_opener(t));
        if o.len() > 0 {
            assert(o.last().0 != opcodes::FUNC);
        }
    }
}

/// Collapsing keeps the stack in shape, and leaves on top a barrier or
/// an entry binding less tightly than `lbp`.
pub(crate) proof fn lemma_collapse(e: Eng, lbp: u8, left: bool, p: Params)
    requires
        stack_ok(e, p),
        roomy(e.sink),
    ensures
        stack_ok(collapse(e, lbp, left, p), p),
        roomy(collapse(e, lbp, left, p).sink),
        ({
            let c = collapse(e, lbp, left, p);
            c.sink.err is None ==> (c.ops.len() == 0 || is_barrier(c.ops.last().0) || c.ops.last().1 < lbp || (
            c.ops.last().1 == lbp && !left))
        }),
    decreases e.ops.len(),
{
    if e.sink.err is None && e.ops.len() > 0 {
        let top = e.ops.last();
        if !(is_barrier(top.0) || top.1 < lbp || (top.1 == lbp && !left)) {
            lemma_pop(e, p);
            lemma_collapse(pop_emit(e, p), lbp, left, p);
        }
    }
}

/// Pushing an entry that fits, other than a function frame.
proof fn lemma_push(e: Eng, ent: (u8, u8), p: Params)
    requires
        stack_ok(e, p),
        roomy(e.sink),
        ample(p),
        ent.0 != opcodes::FUNC,
        e.sink.err is None ==> fits_on(e.ops, ent),
    ensures
        stack_ok(push(e, ent, p), p),
        roomy(push(e, ent, p).sink),
{
    if e.sink.err is None {
        let ops = e.ops;
        lemma_bound(ops);
        lemma_tail_ops(ops);
        assert(is_nested_tag(ent.0) <==> is_opener(ent));
        if !(is_nested_tag(ent.0) && e.nest >= p.max_depth) {
            assert(ops.len() < cap_entries(p));
            let o2 = ops.push(ent);
            assert(o2.drop_last() =~= ops);
            assert(o2.last() == ent);
            assert(!frame_top(o2));
            assert(shaped(o2));
        }
    }
}

/// A function name and its parenthesis: the frame, then the
/// parenthesis sharing its level.
proof fn lemma_frame(e: Eng, id: u8, p: Params)
    requires
        stack_ok(e, p),
        roomy(e.sink),
        ample(p),
    ensures
        stack_ok(push_frame(push(e, (opcodes::FUNC, id), p), p), p),
        roomy(push_frame(push(e, (opcodes::FUNC, id), p), p).sink),
{
    if e.sink.err is None {
        let ops = e.ops;
        lemma_bound(ops);
        lemma_tail_ops(ops);
        let e1 = push(e, (opcodes::FUNC, id), p);
        if e1.sink.err is None {
            assert(ops.len() < cap_entries(p));
            let o1 = ops.push((opcodes::FUNC, id));
            assert(o1.drop_last() =~= ops);
            assert(e1.ops == o1);
            assert(fits_on(ops, (opcodes::FUNC, id)));
            assert(shaped(o1));
            assert(!frame_top(o1));
            assert(levels(o1) == levels(ops) + 1);
            assert(ops.len() + 1 < cap_entries(p));
            let o2 = o1.push((TAG_LPAREN, 0u8));
            assert(o2.drop_last() =~= o1);
            assert(frame_top(o2));
            assert(shaped(o2));
            assert(levels(o2) == levels(o1));
        }
    }
}

proof fn lemma_close(e: Eng, pos: int, p: Params)
    requires
        stack_ok(e, p),
        roomy(e.sink),
    ensures
        stack_ok(close_group(e, pos, p), p),
        roomy(close_group(e, pos, p).sink),
        close_group(e, pos, p).sink.err is None ==> close_group(e, pos, p).ops.len() > 0
            && close_group(e, pos, p).ops.last().0 == TAG_LPAREN,
    decreases e.ops.len(),
{
    if e.sink.err is None && e.ops.len() > 0 && e.ops.last().0 != TAG_LPAREN {
        lemma_pop(e, p);
        lemma_close(pop_emit(e, p), pos, p);
    }
}

/// A closing parenthesis gives back the level of its group (and of the
/// function frame beneath it).
proof fn lemma_rparen(e: Eng, pos: int, p: Params)
    requires
        stack_ok(e, p),
        roomy(e.sink),
    ensures
        stack_ok(rparen(e, pos, p), p),
        roomy(rparen(e, pos, p).sink),
{
    if !e.expect_operand {
        let e0 = Eng { log_pending: false, ..e };
        lemma_close(e0, pos, p);
        let e2 = close_group(e0, pos, p);
        if e2.sink.err is None {
            let o2 = e2.ops;
            let o3 = o2.drop_last();
            assert(shaped(o3) && fits_on(o3, o2.last()));
            lemma_tail_ops(o3);
            if o3.len() > 0 && o3.last().0 == opcodes::FUNC {
                let o4 = o3.drop_last();
                assert(frame_top(o2));
                assert(levels(o2) == levels(o3));
                assert(shaped(o4) && fits_on(o4, o3.last()));
                assert(!frame_top(o3));
                assert(levels(o3) == levels(o4) + 1);
                lemma_tail_ops(o4);
                if o4.len() > 0 {
                    assert(o4.last().0 != opcodes::FUNC);
                }
            } else {
                assert(!frame_top(o2));
                assert(levels(o2) == levels(o3) + 1);
            }
        }
    }
}

/// An additive operator.
proof fn lemma_infix_add(e: Eng, op: u8, p: Params)
    requires
        stack_ok(e, p),
        roomy(e.sink),
        ample(p),
        op == opcodes::ADD || op == opcodes::SUB,
    ensures
        stack_ok(infix(e, op, 10, 11, true, p), p),
        roomy(infix(e, op, 10, 11, true, p).sink),
{
    lemma_collapse(e, 10, true, p);
    let c = collapse(e, 10, true, p);
    if c.sink.err is None {
        lemma_tail_ops(c.ops);
        if c.ops.len() > 0 {
            assert(c.ops == c.ops.drop_last().push(c.ops.last()));
            assert(shaped(c.ops.drop_last()) && fits_on(c.ops.drop_last(), c.ops.last()));
        }
    }
    lemma_push(c, (op, 11), p);
}

/// A multiplicative operator.
proof fn lemma_infix_mul(e: Eng, op: u8, p: Params)
    requires
        stack_ok(e, p),
        roomy(e.sink),
        ample(p),
        op == opcodes::MUL || op == opcodes::DIV,
    ensures
        stack_ok(infix(e, op, 20, 21, true, p), p),
        roomy(infix(e, op, 20, 21, true, p).sink),
{
    lemma_collapse(e, 20, true, p);
    let c = collapse(e, 20, true, p);
    if c.sink.err is None {
        lemma_tail_ops(c.ops);
        if c.ops.len() > 0 {
            assert(shaped(c.ops.drop_last()) && fits_on(c.ops.drop_last(), c.ops.last()));
            lemma_tail_ops(c.ops.drop_last());
        }
    }
    lemma_push(c, (op, 21), p);
}

/// A power.
proof fn lemma_infix_pow(e: Eng, p: Params)
    requires
        stack_ok(e, p),
        roomy(e.sink),
        ample(p),
    ensures
        stack_ok(infix(e, opcodes::POW, 30, 30, false, p), p),
        roomy(infix(e, opcodes::POW, 30, 30, false, p).sink),
{
    lemma_collapse(e, 30, false, p);
    lemma_push(collapse(e, 30, false, p), (opcodes::POW, 30), p);
}

proof fn lemma_op_step(e: Eng, tok: Tok, pos: int, p: Params)
    requires
        stack_ok(e, p),
        roomy(e.sink),
        ample(p),
    ensures
        stack_ok(op_step(e, tok, pos, p), p),
        roomy(op_step(e, tok, pos, p).sink),
{
    match tok {
        Tok::Add => {
            if !e.expect_operand {
                lemma_infix_add(e, opcodes::ADD, p);
            }
        },
        Tok::Sub => {
            if e.expect_operand {
                lemma_push(e, (opcodes::NEG, 25), p);
            } else {
                lemma_infix_add(e, opcodes::SUB, p);
            }
        },
        Tok::RParen => {
            lemma_rparen(e, pos, p);
        },
        Tok::Underscore => {
            if !(e.expect_operand || !e.log_pending) {
                lemma_push(e, (TAG_LOGB, 41), p);
            }
        },
        Tok::Mul => {
            if !e.expect_operand {
                lemma_infix_mul(e, opcodes::MUL, p);
            }
        },
        Tok::Div => {
            if !e.expect_operand {
                lemma_infix_mul(e, opcodes::DIV, p);
            }
        },
        Tok::Pow => {
            if !e.expect_operand {
                lemma_infix_pow(e, p);
            }
        },
        _ => {},
    }
}

/// The acyclicity walk reports only malformed streams and recursion.
proof fn lemma_chk<R: Resolve>(res: &R, body: Seq<u8>, chain: u32, i: int)
    ensures
        chk(res, body, chain, i) matches Some(x) ==> (x is MalformedRpn || x is RecursiveDefinition),
    decreases crate::fold::chain_measure(chain), body.len() + 9 - i,
{
    if 0 <= i < body.len() {
        let op = body[i];
        if op == opcodes::VAR {
            if i + 1 < body.len() && is_lower(body[i + 1]) && chain & bit_of(body[i + 1]) == 0 {
                let v = body[i + 1];
                lemma_chk(res, body, chain, i + 2);
                match res.spec_body(v) {
                    Some(b) => {
                        lemma_chain_grows(chain, v);
                        lemma_chk(res, b, chain | bit_of(v), 0);
                    },
                    None => {},
                }
            }
        } else {
            lemma_chk(res, body, chain, i + crate::fold::ins_width(op));
        }
    }
}

proof fn lemma_expand<R: Resolve>(res: &R, body: Seq<u8>, chain: u32, s: Sink, l: Lim)
    requires
        roomy(s),
    ensures
        roomy(expand(res, body, chain, s, l)),
    decreases crate::fold::chain_measure(chain), 1int, 0int,
{
    if s.err is None {
        lemma_chk(res, body, chain, 0);
        if chk(res, body, chain, 0) is None && fold_at(res, body, chain, 0, Seq::empty()) is None {
            lemma_copy(res, body, chain, 0, s, l);
        }
    }
}

proof fn lemma_copy<R: Resolve>(res: &R, body: Seq<u8>, chain: u32, i: int, s: Sink, l: Lim)
    requires
        roomy(s),
    ensures
        roomy(copy(res, body, chain, i, s, l)),
    decreases crate::fold::chain_measure(chain), 0int, body.len() - i,
{
    if s.err is None && 0 <= i < body.len() {
        let op = body[i];
        if op == opcodes::NUM {
            if i + 9 <= body.len() {
                lemma_copy(res, body, chain, i + 9, emit(s, body.subrange(i, i + 9), l), l);
            }
        } else if op == opcodes::VAR {
            if i + 1 < body.len() && is_lower(body[i + 1]) {
                let v = body[i + 1];
                match res.spec_body(v) {
                    Some(b) => {
                        if chain & bit_of(v) == 0 {
                            lemma_chain_grows(chain, v);
                            lemma_expand(res, b, chain | bit_of(v), s, l);
                            lemma_copy(res, body, chain, i + 2, expand(res, b, chain | bit_of(v), s, l), l);
                        }
                    },
                    None => {
                        lemma_copy(res, body, chain, i + 2, emit(s, seq![opcodes::VAR, v], l), l);
                    },
                }
            }
        } else if op == opcodes::CONST || op == opcodes::FUNC {
            if i + 2 <= body.len() {
                lemma_copy(res, body, chain, i + 2, emit(s, body.subrange(i, i + 2), l), l);
            }
        } else {
            lemma_copy(res, body, chain, i + 1, emit(s, seq![op], l), l);
        }
    }
}

/// The lexer reports only input errors.
proof fn lemma_lex(src: Seq<u8>, i: int)
    requires
        0 <= i <= src.len(),
    ensures
        lex_all(src, i).1 matches Some(x) ==> !(x is ScratchTooSmall),
    decreases src.len() - i,
{
    lemma_lex_all_unfold(src, i);
    if let Lexed::Token { start, tok, end } = lex_at(src, i) {
        lemma_lex(src, end);
    }
}

pub(crate) proof fn lemma_step<R: Resolve>(res: &R, p: Params, toks: Seq<(int, Tok)>, lerr: Option<Error>, i: int, e: Eng)
    requires
        stack_ok(e, p),
        roomy(e.sink),
        ample(p),
        0 <= i < toks.len(),
        lerr matches Some(x) ==> !(x is ScratchTooSmall),
    ensures
        stack_ok(step(res, p, toks, lerr, i, e).0, p),
        roomy(step(res, p, toks, lerr, i, e).0.sink),
{
    let pos = toks[i].0;
    let tok = toks[i].1;
    let operand = tok.spec_starts_operand();
    if operand && !e.expect_operand {
        lemma_infix_mul(e, opcodes::MUL, p);
    }
    let e1 = if operand && !e.expect_operand {
        infix(e, opcodes::ops::MUL, 20, 21, true, p)
    } else {
        e
    };
    if e1.sink.err is None {
        if !operand {
            lemma_op_step(e1, tok, pos, p);
        } else {
            match tok {
                Tok::Var(name) => {
                    if p.substitute && res.spec_body(name) is Some {
                        lemma_expand(res, res.spec_body(name).unwrap(), bit_of(name), e1.sink, p.lim);
                    }
                },
                Tok::Func(id) => {
                    lemma_frame(e1, id, p);
                },
                Tok::LParen => {
                    lemma_push(e1, (TAG_LPAREN, 0), p);
                },
                _ => {},
            }
        }
    }
}

proof fn lemma_drain(e: Eng, p: Params)
    requires
        stack_ok(e, p),
        roomy(e.sink),
    ensures
        roomy(drain(e, p).sink),
    decreases e.ops.len(),
{
    if e.sink.err is None && e.ops.len() > 0 && !is_barrier(e.ops.last().0) {
        lemma_pop(e, p);
        lemma_drain(pop_emit(e, p), p);
    }
}

proof fn lemma_run<R: Resolve>(res: &R, p: Params, toks: Seq<(int, Tok)>, lerr: Option<Error>, i: int, e: Eng)
    requires
        stack_ok(e, p),
        roomy(e.sink),
        ample(p),
        lerr matches Some(x) ==> !(x is ScratchTooSmall),
    ensures
        roomy(run(res, p, toks, lerr, i, e).sink),
    decreases toks.len() - i,
{
    if e.sink.err is None {
        if i < 0 || i >= toks.len() {
            if lerr is None && !e.expect_operand {
                lemma_drain(e, p);
            }
        } else {
            lemma_step(res, p, toks, lerr, i, e);
            let (e2, j) = step(res, p, toks, lerr, i, e);
            if i < j {
                lemma_run(res, p, toks, lerr, j, e2);
            }
        }
    }
}

/// Compiling with at least `scratch_len` bytes of scratch never runs out
/// of it.
pub proof fn lemma_compile_roomy<R: Resolve>(
    res: &R,
    cfg: crate::config::Config,
    src: Seq<u8>,
    buflen: nat,
    stack_len: nat,
    substitute: bool,
)
    requires
        stack_len >= crate::config::scratch_len_for(cfg.spec_max_depth()),
    ensures
        roomy(crate::compile::compile_spec(res, cfg, src, buflen, stack_len, substitute)),
{
    let lx = lex_all(src, 0);
    let p = Params {
        lim: Lim { buflen: buflen, limit: cfg.spec_output_limit() as nat },
        max_depth: cfg.spec_max_depth() as nat,
        stack_len: stack_len,
        substitute: substitute,
        eof: src.len(),
    };
    let e0 = crate::compile::initial_eng();
    assert(cap_entries(p) >= 4 * p.max_depth + 16);
    assert(levels(e0.ops) == 0);
    lemma_lex(src, 0);
    lemma_run(res, p, lx.0, lx.1, 0, e0);
}

} // verus!
