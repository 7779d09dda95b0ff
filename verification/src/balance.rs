//! Compiled bytecode is a balanced postfix program: every instruction
//! finds the values it consumes on the stack, and exactly one value
//! remains at the end. So the evaluator never finds it malformed.
use vstd::prelude::*;
use crate::compile::{
    close_group, collapse, drain, e_emit, infix, op_step, pop_emit, push, push_frame, rparen, run, step, Eng, Params,
    TAG_LOGB, TAG_LPAREN,
};
use crate::lex::{is_lower, tok_ok, toks_ok, Tok};
use crate::opcodes;
use crate::resolve::Resolve;
use crate::error::Error;
use crate::eval::{act_at, run_from, Act};
use crate::wire::num_ins;
use crate::writer::{emit, Lim, Sink};
use crate::fold::{bit_of, chain_measure, chk, copy, expand, fold_at, ins_width, lemma_chain_grows};

verus! {

/// The stack depth after one instruction `s` runs on `d` values, `None`
/// when it finds too few or is not one the evaluator runs (a variable
/// that is not a letter, an unknown constant or operator).
pub open spec fn ins_depth(s: Seq<u8>, d: int) -> Option<int> {
    let op = s[0];
    if op == opcodes::NUM {
        Some(d + 1)
    } else if op == opcodes::VAR {
        if is_lower(s[1]) { Some(d + 1) } else { None }
    } else if op == opcodes::CONST {
        if s[1] == opcodes::CONST_E || s[1] == opcodes::CONST_PI { Some(d + 1) } else { None }
    } else if op == opcodes::FUNC && s[1] == opcodes::FUNC_LOGB {
        if d >= 2 { Some(d - 1) } else { None }
    } else if op == opcodes::FUNC || op == opcodes::NEG {
        if d >= 1 { Some(d) } else { None }
    } else if opcodes::ADD <= op <= opcodes::POW {
        if d >= 2 { Some(d - 1) } else { None }
    } else {
        None
    }
}

/// The stack depth after the instructions of `s` run on `d` values;
/// `None` when one finds too few values or the last is cut short.
pub open spec fn depth_after(s: Seq<u8>, d: int) -> Option<int>
    decreases s.len(),
{
    if s.len() == 0 {
        Some(d)
    } else {
        let w = ins_width(s[0]);
        if w > s.len() {
            None
        } else {
            match ins_depth(s.subrange(0, w), d) {
                Some(d2) => depth_after(s.subrange(w, s.len() as int), d2),
                None => None,
            }
        }
    }
}

/// A balanced postfix program: it leaves exactly one value.
pub open spec fn balanced(s: Seq<u8>) -> bool {
    depth_after(s, 0) == Some(1int)
}

pub proof fn lemma_depth_append(a: Seq<u8>, b: Seq<u8>, d: int)
    requires
        depth_after(a, d) is Some,
    ensures
        depth_after(a + b, d) == depth_after(b, depth_after(a, d).unwrap()),
    decreases a.len(),
{
    if a.len() == 0 {
        assert(a + b =~= b);
    } else {
        let w = ins_width(a[0]);
        assert((a + b)[0] == a[0]);
        assert((a + b).subrange(0, w) =~= a.subrange(0, w));
        assert((a + b).subrange(w, (a + b).len() as int) =~= a.subrange(w, a.len() as int) + b);
        let d2 = ins_depth(a.subrange(0, w), d).unwrap();
        lemma_depth_append(a.subrange(w, a.len() as int), b, d2);
    }
}

/// One whole instruction.
proof fn lemma_depth_one(s: Seq<u8>, d: int)
    requires
        s.len() >= 1,
        s.len() == ins_width(s[0]),
    ensures
        depth_after(s, d) == ins_depth(s, d),
{
    assert(s.subrange(0, s.len() as int) =~= s);
    let rest = s.subrange(s.len() as int, s.len() as int);
    assert(rest.len() == 0);
    match ins_depth(s, d) {
        Some(d2) => {
            assert(depth_after(rest, d2) == Some(d2));
        },
        None => {},
    }
}

/// Every definition the resolver holds is balanced.
pub open spec fn defs_balanced<R: Resolve>(res: &R) -> bool {
    forall|v: u8| #[trigger] res.spec_body(v) is Some ==> balanced(res.spec_body(v).unwrap())
}

/// More values underneath change nothing but the depth.
pub proof fn lemma_depth_shift(s: Seq<u8>, d: int, k: int)
    requires
        k >= 0,
        depth_after(s, d) is Some,
    ensures
        depth_after(s, d + k) == Some(depth_after(s, d).unwrap() + k),
    decreases s.len(),
{
    if s.len() > 0 {
        let w = ins_width(s[0]);
        let d2 = ins_depth(s.subrange(0, w), d).unwrap();
        assert(ins_depth(s.subrange(0, w), d + k) == Some(d2 + k));
        lemma_depth_shift(s.subrange(w, s.len() as int), d2, k);
    }
}

/// Emitting one whole instruction into a sink at depth `d`.
proof fn lemma_sink_emit(s: Sink, b: Seq<u8>, l: Lim, d: int)
    requires
        s.err is None ==> depth_after(s.out, 0) == Some(d),
        b.len() >= 1,
        b.len() == ins_width(b[0]),
        ins_depth(b, d) is Some,
    ensures
        emit(s, b, l).err is None ==> depth_after(emit(s, b, l).out, 0) == ins_depth(b, d),
{
    let r = emit(s, b, l);
    if s.err is None && r.err is None {
        assert(r.out == s.out + b);
        lemma_depth_one(b, d);
        lemma_depth_append(s.out, b, 0);
    }
}

/// The verbatim copy of a body from `i` takes the output from depth `d`
/// to where the body's rest takes it.
proof fn lemma_copy_bal<R: Resolve>(res: &R, body: Seq<u8>, chain: u32, i: int, s: Sink, l: Lim, d: int, dend: int)
    requires
        defs_balanced(res),
        0 <= i <= body.len(),
        d >= 0,
        s.err is None ==> depth_after(s.out, 0) == Some(d),
        depth_after(body.subrange(i, body.len() as int), d) == Some(dend),
    ensures
        copy(res, body, chain, i, s, l).err is None ==> depth_after(copy(res, body, chain, i, s, l).out, 0) == Some(
            dend,
        ),
    decreases chain_measure(chain), 0int, body.len() - i,
{
    if s.err is None {
        let sub = body.subrange(i, body.len() as int);
        if i < body.len() {
            let op = body[i];
            assert(sub[0] == op);
            let w = ins_width(op);
            let ins = sub.subrange(0, w);
            assert(ins =~= body.subrange(i, i + w));
            let d2 = ins_depth(ins, d).unwrap();
            assert(sub.subrange(w, sub.len() as int) =~= body.subrange(i + w, body.len() as int));
            assert(d2 >= 0);
            if op == opcodes::NUM {
                lemma_sink_emit(s, ins, l, d);
                lemma_copy_bal(res, body, chain, i + 9, emit(s, ins, l), l, d2, dend);
            } else if op == opcodes::VAR {
                let v = body[i + 1];
                assert(ins[1] == v);
                match res.spec_body(v) {
                    Some(b) => {
                        if chain & bit_of(v) == 0 {
                            lemma_chain_grows(chain, v);
                            lemma_expand_bal(res, b, chain | bit_of(v), s, l, d);
                            lemma_copy_bal(res, body, chain, i + 2, expand(res, b, chain | bit_of(v), s, l), l, d2, dend);
                        }
                    },
                    None => {
                        assert(ins =~= seq![opcodes::VAR, v]);
                        lemma_sink_emit(s, seq![opcodes::VAR, v], l, d);
                        lemma_copy_bal(res, body, chain, i + 2, emit(s, seq![opcodes::VAR, v], l), l, d2, dend);
                    },
                }
            } else if op == opcodes::CONST || op == opcodes::FUNC {
                lemma_sink_emit(s, ins, l, d);
                lemma_copy_bal(res, body, chain, i + 2, emit(s, ins, l), l, d2, dend);
            } else {
                assert(ins =~= seq![op]);
                lemma_sink_emit(s, seq![op], l, d);
                lemma_copy_bal(res, body, chain, i + 1, emit(s, seq![op], l), l, d2, dend);
            }
        }
    }
}

/// Expanding a balanced definition adds one value.
proof fn lemma_expand_bal<R: Resolve>(res: &R, body: Seq<u8>, chain: u32, s: Sink, l: Lim, d: int)
    requires
        defs_balanced(res),
        balanced(body),
        d >= 0,
        s.err is None ==> depth_after(s.out, 0) == Some(d),
    ensures
        expand(res, body, chain, s, l).err is None ==> depth_after(expand(res, body, chain, s, l).out, 0) == Some(
            d + 1,
        ),
    decreases chain_measure(chain), 1int, 0int,
{
    if s.err is None && chk(res, body, chain, 0) is None {
        match fold_at(res, body, chain, 0, Seq::empty()) {
            Some(v) => {
                crate::wire::lemma_le_bytes_len(v as nat, 8);
                lemma_sink_emit(s, num_ins(v), l, d);
            },
            None => {
                lemma_depth_shift(body, 0, d);
                assert(body.subrange(0, body.len() as int) =~= body);
                lemma_copy_bal(res, body, chain, 0, s, l, d, d + 1);
            },
        }
    }
}

pub proof fn lemma_bin_count(ops: Seq<(u8, u8)>)
    ensures
        0 <= bin_count(ops) <= ops.len(),
    decreases ops.len(),
{
    if ops.len() > 0 {
        lemma_bin_count(ops.drop_last());
    }
}

/// Entries that stand for a two-operand instruction.
pub open spec fn bin_tag(t: u8) -> bool {
    (opcodes::ADD <= t <= opcodes::POW) || t == TAG_LOGB
}

pub open spec fn bin_count(ops: Seq<(u8, u8)>) -> int
    decreases ops.len(),
{
    if ops.len() == 0 {
        0
    } else {
        bin_count(ops.drop_last()) + if bin_tag(ops.last().0) { 1int } else { 0int }
    }
}

pub open spec fn known_tag(t: u8) -> bool {
    bin_tag(t) || t == opcodes::NEG || t == opcodes::FUNC || t == TAG_LPAREN
}

/// Every entry is one the engine pushes, and every function frame
/// entry carries a one-argument function with its parenthesis right
/// above it.
pub open spec fn frames_ok(ops: Seq<(u8, u8)>) -> bool {
    forall|k: int|
        0 <= k < ops.len() ==> {
            &&& known_tag(#[trigger] ops[k].0)
            &&& ops[k].0 == opcodes::FUNC ==> {
                &&& k + 1 < ops.len()
                &&& ops[k + 1].0 == TAG_LPAREN
                &&& opcodes::FUNC_SIN <= ops[k].1 <= opcodes::FUNC_LOG
            }
        }
}

/// Unless stopped by an error, the output leaves one value per pending
/// two-operand entry, plus `x`.
pub open spec fn bal_at(e: Eng, x: int) -> bool {
    e.sink.err is None ==> {
        &&& depth_after(e.sink.out, 0) == Some(bin_count(e.ops) + x)
        &&& frames_ok(e.ops)
    }
}

/// The engine's balance: one more value once an operand is complete.
pub open spec fn bal_ok(e: Eng) -> bool {
    bal_at(e, if e.expect_operand { 0 } else { 1 })
}

/// Emitting one whole instruction `b` that takes the depth from
/// `bin_count + x` to `bin_count + y`.
proof fn lemma_emit_bal(e: Eng, b: Seq<u8>, x: int, y: int, p: Params)
    requires
        bal_at(e, x),
        b.len() >= 1,
        b.len() == ins_width(b[0]),
        e.sink.err is None ==> ins_depth(b, bin_count(e.ops) + x) == Some(bin_count(e.ops) + y),
    ensures
        bal_at(e_emit(e, b, p), y),
{
    let r = e_emit(e, b, p);
    if e.sink.err is None && r.sink.err is None {
        assert(r.sink.out == e.sink.out + b);
        lemma_depth_one(b, bin_count(e.ops) + x);
        lemma_depth_append(e.sink.out, b, 0);
    }
}

proof fn lemma_frames_drop(ops: Seq<(u8, u8)>)
    requires
        frames_ok(ops),
        ops.len() > 0,
        ops.last().0 != TAG_LPAREN,
    ensures
        frames_ok(ops.drop_last()),
{
    let o = ops.drop_last();
    assert forall|k: int| 0 <= k < o.len() implies {
        &&& known_tag(#[trigger] o[k].0)
        &&& o[k].0 == opcodes::FUNC ==> {
            &&& k + 1 < o.len()
            &&& o[k + 1].0 == TAG_LPAREN
            &&& opcodes::FUNC_SIN <= o[k].1 <= opcodes::FUNC_LOG
        }
    } by {
        assert(o[k] == ops[k]);
        if o[k].0 == opcodes::FUNC {
            assert(ops[k + 1].0 == TAG_LPAREN);
            if k + 1 == o.len() {
                assert(ops.last() == ops[k + 1]);
            }
        }
    }
}

/// Popping a non-barrier entry once an operand is complete.
proof fn lemma_pop_bal(e: Eng, p: Params)
    requires
        bal_at(e, 1),
        e.sink.err is None ==> e.ops.len() > 0 && !crate::compile::is_barrier(e.ops.last().0),
    ensures
        bal_at(pop_emit(e, p), 1),
        pop_emit(e, p).expect_operand == e.expect_operand,
{
    if e.sink.err is None {
        let ent = e.ops.last();
        let t = ent.0;
        let o = e.ops.drop_last();
        assert(known_tag(e.ops[e.ops.len() - 1].0));
        lemma_frames_drop(e.ops);
        let e1 = Eng { ops: o, log_pending: false, ..e };
        lemma_bin_count(o);
        assert(bin_count(e.ops) == bin_count(o) + if bin_tag(t) { 1int } else { 0int });
        if bin_tag(t) {
            if t == TAG_LOGB {
                assert(crate::compile::ent_bytes(ent) =~= seq![opcodes::FUNC, opcodes::FUNC_LOGB]);
            } else {
                assert(crate::compile::ent_bytes(ent) =~= seq![t]);
            }
            lemma_emit_bal(e1, crate::compile::ent_bytes(ent), 2, 1, p);
        } else {
            assert(t == opcodes::NEG);
            assert(crate::compile::ent_bytes(ent) =~= seq![t]);
            lemma_emit_bal(e1, crate::compile::ent_bytes(ent), 1, 1, p);
        }
    }
}

proof fn lemma_collapse_bal(e: Eng, lbp: u8, left: bool, p: Params)
    requires
        bal_at(e, 1),
    ensures
        bal_at(collapse(e, lbp, left, p), 1),
        collapse(e, lbp, left, p).expect_operand == e.expect_operand,
    decreases e.ops.len(),
{
    if e.sink.err is None && e.ops.len() > 0 {
        let top = e.ops.last();
        if !(crate::compile::is_barrier(top.0) || top.1 < lbp || (top.1 == lbp && !left)) {
            lemma_pop_bal(e, p);
            lemma_collapse_bal(pop_emit(e, p), lbp, left, p);
        }
    }
}

proof fn lemma_push_bal(e: Eng, ent: (u8, u8), x: int, p: Params)
    requires
        bal_at(e, x),
        known_tag(ent.0),
        ent.0 != opcodes::FUNC,
    ensures
        bal_at(push(e, ent, p), x - if bin_tag(ent.0) { 1int } else { 0int }),
        push(e, ent, p).expect_operand == e.expect_operand,
{
    let r = push(e, ent, p);
    if e.sink.err is None && r.sink.err is None {
        let o = e.ops.push(ent);
        assert(r.ops == o);
        assert(o.drop_last() =~= e.ops);
        assert forall|k: int| 0 <= k < o.len() implies {
            &&& known_tag(#[trigger] o[k].0)
            &&& o[k].0 == opcodes::FUNC ==> {
                &&& k + 1 < o.len()
                &&& o[k + 1].0 == TAG_LPAREN
                &&& opcodes::FUNC_SIN <= o[k].1 <= opcodes::FUNC_LOG
            }
        } by {
            if k < e.ops.len() {
                assert(o[k] == e.ops[k]);
                if o[k].0 == opcodes::FUNC {
                    assert(o[k + 1] == e.ops[k + 1]);
                }
            }
        }
    }
}

/// A function name and its parenthesis: the frame entry, then the
/// parenthesis right above it.
proof fn lemma_func_frame_bal(e: Eng, id: u8, p: Params)
    requires
        bal_at(e, 0),
        opcodes::FUNC_SIN <= id <= opcodes::FUNC_LOG,
    ensures
        bal_at(push_frame(push(e, (opcodes::FUNC, id), p), p), 0),
        push_frame(push(e, (opcodes::FUNC, id), p), p).expect_operand == e.expect_operand,
{
    let e1 = push(e, (opcodes::FUNC, id), p);
    let r = push_frame(e1, p);
    if e.sink.err is None && r.sink.err is None {
        assert(e1.sink.err is None);
        let o1 = e.ops.push((opcodes::FUNC, id));
        let o = o1.push((TAG_LPAREN, 0u8));
        assert(e1.ops == o1);
        assert(r.ops == o);
        assert(o1.drop_last() =~= e.ops);
        assert(o.drop_last() =~= o1);
        assert(bin_count(o1) == bin_count(e.ops));
        assert(bin_count(o) == bin_count(o1));
        assert forall|k: int| 0 <= k < o.len() implies {
            &&& known_tag(#[trigger] o[k].0)
            &&& o[k].0 == opcodes::FUNC ==> {
                &&& k + 1 < o.len()
                &&& o[k + 1].0 == TAG_LPAREN
                &&& opcodes::FUNC_SIN <= o[k].1 <= opcodes::FUNC_LOG
            }
        } by {
            if k < e.ops.len() {
                assert(o[k] == e.ops[k]);
                if o[k].0 == opcodes::FUNC {
                    assert(o[k + 1] == e.ops[k + 1]);
                }
            }
        }
    }
}

proof fn lemma_infix_bal(e: Eng, op: u8, lbp: u8, rbp: u8, left: bool, p: Params)
    requires
        bal_at(e, 1),
        opcodes::ADD <= op <= opcodes::POW,
    ensures
        bal_at(infix(e, op, lbp, rbp, left, p), 0),
        infix(e, op, lbp, rbp, left, p).expect_operand == e.expect_operand,
{
    lemma_collapse_bal(e, lbp, left, p);
    lemma_push_bal(collapse(e, lbp, left, p), (op, rbp), 1, p);
}

proof fn lemma_close_bal(e: Eng, pos: int, p: Params)
    requires
        bal_at(e, 1),
    ensures
        bal_at(close_group(e, pos, p), 1),
        close_group(e, pos, p).expect_operand == e.expect_operand,
        close_group(e, pos, p).sink.err is None ==> close_group(e, pos, p).ops.len() > 0
            && close_group(e, pos, p).ops.last().0 == TAG_LPAREN,
    decreases e.ops.len(),
{
    if e.sink.err is None && e.ops.len() > 0 && e.ops.last().0 != TAG_LPAREN {
        let n = e.ops.len();
        assert(known_tag(e.ops[n - 1].0));
        if e.ops[n - 1].0 == opcodes::FUNC {
            assert(n - 1 + 1 < n);
        }
        lemma_pop_bal(e, p);
        lemma_close_bal(pop_emit(e, p), pos, p);
    }
}

proof fn lemma_rparen_bal(e: Eng, pos: int, p: Params)
    requires
        bal_ok(e),
    ensures
        bal_ok(rparen(e, pos, p)),
{
    if !e.expect_operand {
        let e0 = Eng { log_pending: false, ..e };
        lemma_close_bal(e0, pos, p);
        let e2 = close_group(e0, pos, p);
        if e2.sink.err is None {
            let o2 = e2.ops;
            let n2 = o2.len();
            let e3 = Eng { ops: o2.drop_last(), ..e2 };
            let o3 = e3.ops;
            assert(bin_count(o2) == bin_count(o3));
            if o3.len() > 0 && o3.last().0 == opcodes::FUNC {
                let id = o3.last().1;
                let o4 = o3.drop_last();
                let e4 = Eng { ops: o4, nest: if e3.nest > 0 { (e3.nest - 1) as nat } else { 0 }, ..e3 };
                assert(o2[n2 - 2] == o3.last());
                assert(opcodes::FUNC_SIN <= o2[n2 - 2].1 <= opcodes::FUNC_LOG);
                assert(bin_count(o3) == bin_count(o4));
                assert forall|k: int| 0 <= k < o4.len() implies {
                    &&& known_tag(#[trigger] o4[k].0)
                    &&& o4[k].0 == opcodes::FUNC ==> {
                        &&& k + 1 < o4.len()
                        &&& o4[k + 1].0 == TAG_LPAREN
                        &&& opcodes::FUNC_SIN <= o4[k].1 <= opcodes::FUNC_LOG
                    }
                } by {
                    assert(o4[k] == o2[k]);
                    if o4[k].0 == opcodes::FUNC {
                        assert(o2[k + 1].0 == TAG_LPAREN);
                        if k + 1 == o4.len() {
                            assert(o2[k + 1] == o3.last());
                        } else {
                            assert(o4[k + 1] == o2[k + 1]);
                        }
                    }
                }
                lemma_bin_count(o4);
                lemma_emit_bal(e4, seq![opcodes::FUNC, id], 1, 1, p);
            } else {
                assert forall|k: int| 0 <= k < o3.len() implies {
                    &&& known_tag(#[trigger] o3[k].0)
                    &&& o3[k].0 == opcodes::FUNC ==> {
                        &&& k + 1 < o3.len()
                        &&& o3[k + 1].0 == TAG_LPAREN
                        &&& opcodes::FUNC_SIN <= o3[k].1 <= opcodes::FUNC_LOG
                    }
                } by {
                    assert(o3[k] == o2[k]);
                    if o3[k].0 == opcodes::FUNC {
                        assert(o2[k + 1].0 == TAG_LPAREN);
                        if k + 1 == o3.len() {
                            assert(o3.last() == o3[k]);
                        } else {
                            assert(o3[k + 1] == o2[k + 1]);
                        }
                    }
                }
            }
        }
    }
}

proof fn lemma_op_step_bal(e: Eng, tok: Tok, pos: int, p: Params)
    requires
        bal_ok(e),
    ensures
        bal_ok(op_step(e, tok, pos, p)),
{
    match tok {
        Tok::Add => {
            if !e.expect_operand {
                lemma_infix_bal(e, opcodes::ADD, 10, 11, true, p);
            }
        },
        Tok::Sub => {
            if e.expect_operand {
                lemma_push_bal(e, (opcodes::NEG, 25), 0, p);
            } else {
                lemma_infix_bal(e, opcodes::SUB, 10, 11, true, p);
            }
        },
        Tok::RParen => {
            lemma_rparen_bal(e, pos, p);
        },
        Tok::Underscore => {
            if !(e.expect_operand || !e.log_pending) {
                lemma_push_bal(e, (TAG_LOGB, 41), 1, p);
            }
        },
        Tok::Mul => {
            if !e.expect_operand {
                lemma_infix_bal(e, opcodes::MUL, 20, 21, true, p);
            }
        },
        Tok::Div => {
            if !e.expect_operand {
                lemma_infix_bal(e, opcodes::DIV, 20, 21, true, p);
            }
        },
        Tok::Pow => {
            if !e.expect_operand {
                lemma_infix_bal(e, opcodes::POW, 30, 30, false, p);
            }
        },
        _ => {},
    }
}

proof fn lemma_step_bal<R: Resolve>(
    res: &R,
    p: Params,
    toks: Seq<(int, Tok)>,
    lerr: Option<crate::error::Error>,
    i: int,
    e: Eng,
)
    requires
        bal_ok(e),
        !p.substitute || defs_balanced(res),
        0 <= i < toks.len(),
        toks_ok(toks),
    ensures
        bal_ok(step(res, p, toks, lerr, i, e).0),
        step(res, p, toks, lerr, i, e).1 > i,
{
    let pos = toks[i].0;
    let tok = toks[i].1;
    assert(tok_ok(tok));
    let operand = tok.spec_starts_operand();
    if operand && !e.expect_operand {
        lemma_infix_bal(e, opcodes::MUL, 20, 21, true, p);
    }
    let e1 = if operand && !e.expect_operand {
        infix(e, opcodes::MUL, 20, 21, true, p)
    } else {
        e
    };
    if e1.sink.err is None {
        if !operand {
            lemma_op_step_bal(e1, tok, pos, p);
        } else {
            assert(bal_at(e1, 0));
            match tok {
                Tok::Num(v) => {
                    crate::wire::lemma_le_bytes_len(v as nat, 8);
                    lemma_emit_bal(e1, num_ins(v), 0, 1, p);
                },
                Tok::Var(name) => {
                    if p.substitute && res.spec_body(name) is Some {
                        lemma_bin_count(e1.ops);
                        lemma_expand_bal(res, res.spec_body(name).unwrap(), bit_of(name), e1.sink, p.lim, bin_count(e1.ops));
                    } else {
                        lemma_emit_bal(e1, seq![opcodes::VAR, name], 0, 1, p);
                    }
                },
                Tok::Const(id) => {
                    lemma_emit_bal(e1, seq![opcodes::CONST, id], 0, 1, p);
                },
                Tok::Func(id) => {
                    lemma_func_frame_bal(e1, id, p);
                },
                Tok::LParen => {
                    lemma_push_bal(e1, (TAG_LPAREN, 0), 0, p);
                },
                _ => {},
            }
        }
    }
}

proof fn lemma_drain_bal(e: Eng, p: Params)
    requires
        bal_at(e, 1),
    ensures
        bal_at(drain(e, p), 1),
        drain(e, p).expect_operand == e.expect_operand,
        drain(e, p).sink.err is None ==> drain(e, p).ops.len() == 0,
    decreases e.ops.len(),
{
    if e.sink.err is None && e.ops.len() > 0 && !crate::compile::is_barrier(e.ops.last().0) {
        lemma_pop_bal(e, p);
        lemma_drain_bal(pop_emit(e, p), p);
    }
}

/// A run that ends without an error leaves one value, when the
/// definitions it splices in are balanced.
proof fn lemma_run_bal<R: Resolve>(
    res: &R,
    p: Params,
    toks: Seq<(int, Tok)>,
    lerr: Option<crate::error::Error>,
    i: int,
    e: Eng,
)
    requires
        bal_ok(e),
        !p.substitute || defs_balanced(res),
        toks_ok(toks),
    ensures
        run(res, p, toks, lerr, i, e).sink.err is None ==> balanced(run(res, p, toks, lerr, i, e).sink.out),
    decreases toks.len() - i,
{
    if e.sink.err is None {
        if i < 0 || i >= toks.len() {
            if lerr is None && !e.expect_operand {
                lemma_drain_bal(e, p);
                assert(bin_count(Seq::<(u8, u8)>::empty()) == 0);
            }
        } else {
            lemma_step_bal(res, p, toks, lerr, i, e);
            let (e2, j) = step(res, p, toks, lerr, i, e);
            lemma_run_bal(res, p, toks, lerr, j, e2);
        }
    }
}

/// Compiling without an error writes a balanced postfix program, when
/// the definitions it splices in are balanced.
pub proof fn lemma_compile_balanced<R: Resolve>(
    res: &R,
    cfg: crate::config::Config,
    src: Seq<u8>,
    buflen: nat,
    stack_len: nat,
    substitute: bool,
)
    requires
        !substitute || defs_balanced(res),
    ensures
        crate::compile::compile_spec(res, cfg, src, buflen, stack_len, substitute).err is None ==> balanced(
            crate::compile::compile_spec(res, cfg, src, buflen, stack_len, substitute).out,
        ),
{
    let needed = crate::config::spec_scratch_len(cfg.spec_max_depth());
    if stack_len >= needed {
        let lx = crate::lex::lex_all(src, 0);
        let p = Params {
            lim: crate::writer::Lim { buflen: buflen, limit: cfg.spec_output_limit() as nat },
            max_depth: cfg.spec_max_depth() as nat,
            stack_len: stack_len,
            substitute: substitute,
            eof: src.len(),
        };
        crate::lex::lemma_lex_all_ok(src, 0);
        let e0 = crate::compile::initial_eng();
        assert(depth_after(Seq::<u8>::empty(), 0) == Some(0int));
        assert(bin_count(Seq::<(u8, u8)>::empty()) == 0);
        assert(bal_ok(e0));
        lemma_run_bal(res, p, lx.0, lx.1, 0, e0);
    }
}

/// Evaluating a stream whose rest is balanced for the current stack
/// never finds it malformed.
pub proof fn lemma_eval_balanced(rpn: Seq<u8>, vars: Seq<u64>, cap: nat, i: int, st: Seq<u64>)
    requires
        0 <= i <= rpn.len(),
        depth_after(rpn.subrange(i, rpn.len() as int), st.len() as int) == Some(1int),
    ensures
        !(run_from(rpn, vars, cap, i, st).res matches Err(Error::MalformedRpn { .. })),
    decreases rpn.len() - i,
{
    let s = rpn.subrange(i, rpn.len() as int);
    if i < rpn.len() {
        let op = rpn[i];
        assert(s[0] == op);
        let w = ins_width(op);
        let ins = s.subrange(0, w);
        let rest = s.subrange(w, s.len() as int);
        assert(ins[0] == op);
        let n = st.len() as int;
        let d2 = ins_depth(ins, n).unwrap();
        assert(depth_after(rest, d2) == Some(1int));
        assert(rest =~= rpn.subrange(i + w, rpn.len() as int));
        if w >= 2 {
            assert(ins[1] == rpn[i + 1]);
        }
        match act_at(rpn, vars, i, st) {
            Act::Stop { h } => {
                assert(!(h.res matches Err(Error::MalformedRpn { .. })));
            },
            Act::Push { next, base, v } => {
                assert(next == i + w);
                assert(base.len() + 1 == d2);
                if base.len() < cap {
                    lemma_eval_balanced(rpn, vars, cap, next, base.push(v));
                }
            },
        }
    }
}

} // verus!
