//! Well-formed instruction streams, and the fact that the compiler only
//! ever writes them when no definition is spliced in.
use vstd::prelude::*;
use crate::binary64::INF_MAG;
use crate::compile::{close_group, collapse, drain, ent_bytes, infix, op_step, pop_emit, push, push_frame, rparen, run, step, e_emit, Eng, Params, TAG_LOGB, TAG_LPAREN};
use crate::decode::{const_name, func_name, op_name};
use crate::fold::{ins_width, vars_ok};
use crate::lex::{is_lower, tok_ok, toks_ok, Tok};
use crate::opcodes;
use crate::resolve::Resolve;
use crate::wire::{le_value, num_ins, le_bytes, lemma_le_bytes_len, lemma_le_roundtrip, lemma_p256_8};
use crate::writer::{emit, Lim, Sink};

verus! {

/// One well-formed instruction: the opcode's full width, a finite
/// number, a letter, or a known constant, function or operator.
pub open spec fn ins_ok(s: Seq<u8>) -> bool {
    &&& s.len() >= 1
    &&& s.len() == ins_width(s[0])
    &&& if s[0] == opcodes::NUM {
        le_value(s.subrange(1, 9)) < INF_MAG
    } else if s[0] == opcodes::VAR {
        is_lower(s[1])
    } else if s[0] == opcodes::CONST {
        const_name(s[1]) is Some
    } else if s[0] == opcodes::FUNC {
        func_name(s[1]) is Some
    } else {
        op_name(s[0]) is Some
    }
}

/// A sequence of well-formed instructions.
pub open spec fn stream_ok(s: Seq<u8>) -> bool
    decreases s.len(),
{
    if s.len() == 0 {
        true
    } else {
        let w = ins_width(s[0]);
        &&& w <= s.len()
        &&& ins_ok(s.subrange(0, w))
        &&& stream_ok(s.subrange(w, s.len() as int))
    }
}

/// Bytes that keep a stream well formed when appended.
pub open spec fn piece_ok(b: Seq<u8>) -> bool {
    b.len() == 0 || ins_ok(b)
}

pub proof fn lemma_stream_append(a: Seq<u8>, b: Seq<u8>)
    requires
        stream_ok(a),
        piece_ok(b),
    ensures
        stream_ok(a + b),
    decreases a.len(),
{
    if b.len() == 0 {
        assert(a + b =~= a);
    } else if a.len() == 0 {
        assert(a + b =~= b);
        assert(b.subrange(0, b.len() as int) =~= b);
        assert(b.subrange(b.len() as int, b.len() as int).len() == 0);
        assert(stream_ok(b.subrange(b.len() as int, b.len() as int)));
        assert(stream_ok(b));
    } else {
        let w = ins_width(a[0]);
        let rest = a.subrange(w, a.len() as int);
        lemma_stream_append(rest, b);
        assert((a + b).subrange(0, w) =~= a.subrange(0, w));
        assert((a + b).subrange(w, (a + b).len() as int) =~= rest + b);
    }
}

pub proof fn lemma_emit_ok(s: Sink, b: Seq<u8>, l: Lim)
    requires
        stream_ok(s.out),
        piece_ok(b),
    ensures
        stream_ok(emit(s, b, l).out),
{
    lemma_stream_append(s.out, b);
}

/// A stream walked from an instruction boundary names only letters.
pub proof fn lemma_stream_vars(a: Seq<u8>, i: int)
    requires
        0 <= i <= a.len(),
        stream_ok(a.subrange(i, a.len() as int)),
    ensures
        vars_ok(a, i),
    decreases a.len() - i,
{
    if i < a.len() {
        let s = a.subrange(i, a.len() as int);
        let w = ins_width(a[i]);
        assert(s[0] == a[i]);
        assert(s.subrange(0, w)[0] == a[i]);
        if a[i] == opcodes::VAR {
            assert(s.subrange(0, w)[1] == a[i + 1]);
        }
        assert(s.subrange(w, s.len() as int) =~= a.subrange(i + w, a.len() as int));
        lemma_stream_vars(a, i + w);
    }
}

/// The engine's state is well formed: the output is a stream, and every
/// stacked entry stands for a well-formed instruction.
pub open spec fn eng_ok(e: Eng) -> bool {
    &&& stream_ok(e.sink.out)
    &&& forall|k: int| 0 <= k < e.ops.len() ==> piece_ok(ent_bytes(#[trigger] e.ops[k]))
}

/// No definition is spliced in: variables stay `VAR` instructions.
pub open spec fn plain<R: Resolve>(res: &R, p: Params) -> bool {
    !p.substitute || forall|v: u8| #[trigger] res.spec_body(v) is None
}

proof fn lemma_emit_eng(e: Eng, b: Seq<u8>, p: Params)
    requires
        eng_ok(e),
        piece_ok(b),
    ensures
        eng_ok(e_emit(e, b, p)),
{
    lemma_emit_ok(e.sink, b, p.lim);
}

proof fn lemma_push_ok(e: Eng, ent: (u8, u8), p: Params)
    requires
        eng_ok(e),
        piece_ok(ent_bytes(ent)),
    ensures
        eng_ok(push(e, ent, p)),
{
    let r = push(e, ent, p);
    assert forall|k: int| 0 <= k < r.ops.len() implies piece_ok(ent_bytes(#[trigger] r.ops[k])) by {
        if k < e.ops.len() {
            assert(r.ops[k] == e.ops[k] || r.ops == e.ops);
        }
    }
}

proof fn lemma_push_frame_ok(e: Eng, p: Params)
    requires
        eng_ok(e),
    ensures
        eng_ok(push_frame(e, p)),
{
    assert(ent_bytes((TAG_LPAREN, 0u8)) =~= Seq::<u8>::empty());
    let r = push_frame(e, p);
    assert forall|k: int| 0 <= k < r.ops.len() implies piece_ok(ent_bytes(#[trigger] r.ops[k])) by {
        if k < e.ops.len() {
            assert(r.ops[k] == e.ops[k] || r.ops == e.ops);
        }
    }
}

proof fn lemma_pop_ok(e: Eng, p: Params)
    requires
        eng_ok(e),
    ensures
        eng_ok(pop_emit(e, p)),
{
    if e.sink.err is None && e.ops.len() > 0 {
        let ent = e.ops.last();
        assert(piece_ok(ent_bytes(e.ops[e.ops.len() - 1])));
        let e1 = Eng { ops: e.ops.drop_last(), log_pending: false, ..e };
        assert forall|k: int| 0 <= k < e1.ops.len() implies piece_ok(ent_bytes(#[trigger] e1.ops[k])) by {
            assert(e1.ops[k] == e.ops[k]);
        }
        lemma_emit_eng(e1, ent_bytes(ent), p);
    }
}

proof fn lemma_collapse_ok(e: Eng, lbp: u8, left: bool, p: Params)
    requires
        eng_ok(e),
    ensures
        eng_ok(collapse(e, lbp, left, p)),
    decreases e.ops.len(),
{
    if e.sink.err is None && e.ops.len() > 0 {
        let top = e.ops.last();
        if !(crate::compile::is_barrier(top.0) || top.1 < lbp || (top.1 == lbp && !left)) {
            lemma_pop_ok(e, p);
            lemma_collapse_ok(pop_emit(e, p), lbp, left, p);
        }
    }
}

proof fn lemma_infix_ok(e: Eng, op: u8, lbp: u8, rbp: u8, left: bool, p: Params)
    requires
        eng_ok(e),
        op_name(op) is Some,
        opcodes::ADD <= op <= opcodes::POW,
    ensures
        eng_ok(infix(e, op, lbp, rbp, left, p)),
{
    lemma_collapse_ok(e, lbp, left, p);
    lemma_push_ok(collapse(e, lbp, left, p), (op, rbp), p);
}

proof fn lemma_close_ok(e: Eng, pos: int, p: Params)
    requires
        eng_ok(e),
    ensures
        eng_ok(close_group(e, pos, p)),
        close_group(e, pos, p).sink.err is None ==> close_group(e, pos, p).ops.len() > 0,
    decreases e.ops.len(),
{
    if e.sink.err is None && e.ops.len() > 0 && e.ops.last().0 != TAG_LPAREN {
        lemma_pop_ok(e, p);
        lemma_close_ok(pop_emit(e, p), pos, p);
    }
}

proof fn lemma_drop_ok(e: Eng)
    requires
        eng_ok(e),
        e.ops.len() > 0,
    ensures
        eng_ok(Eng { ops: e.ops.drop_last(), ..e }),
{
    let e1 = Eng { ops: e.ops.drop_last(), ..e };
    assert forall|k: int| 0 <= k < e1.ops.len() implies piece_ok(ent_bytes(#[trigger] e1.ops[k])) by {
        assert(e1.ops[k] == e.ops[k]);
    }
}

proof fn lemma_rparen_ok(e: Eng, pos: int, p: Params)
    requires
        eng_ok(e),
    ensures
        eng_ok(rparen(e, pos, p)),
{
    if !e.expect_operand {
        let e2 = close_group(Eng { log_pending: false, ..e }, pos, p);
        lemma_close_ok(Eng { log_pending: false, ..e }, pos, p);
        if e2.sink.err is None && e2.ops.len() > 0 {
            lemma_drop_ok(e2);
            let e3 = Eng { ops: e2.ops.drop_last(), ..e2 };
            if e3.ops.len() > 0 && e3.ops.last().0 == opcodes::FUNC {
                let id = e3.ops.last().1;
                assert(piece_ok(ent_bytes(e3.ops[e3.ops.len() - 1])));
                assert(ent_bytes(e3.ops.last()) =~= seq![opcodes::FUNC, id]);
                lemma_drop_ok(e3);
                let e4 = Eng {
                    ops: e3.ops.drop_last(),
                    nest: if e3.nest > 0 { (e3.nest - 1) as nat } else { 0 },
                    ..e3
                };
                assert(eng_ok(e4));
                lemma_emit_eng(e4, seq![opcodes::FUNC, id], p);
            }
        }
    }
}

proof fn lemma_op_step_ok(e: Eng, tok: Tok, pos: int, p: Params)
    requires
        eng_ok(e),
    ensures
        eng_ok(op_step(e, tok, pos, p)),
{
    assert(op_name(opcodes::ADD) is Some);
    assert(op_name(opcodes::SUB) is Some);
    assert(op_name(opcodes::MUL) is Some);
    assert(op_name(opcodes::DIV) is Some);
    assert(op_name(opcodes::POW) is Some);
    match tok {
        Tok::Add => {
            if !e.expect_operand {
                lemma_infix_ok(e, opcodes::ADD, 10, 11, true, p);
            }
        },
        Tok::Sub => {
            if e.expect_operand {
                assert(ent_bytes((opcodes::NEG, 25u8)) =~= seq![opcodes::NEG]);
                lemma_push_ok(e, (opcodes::NEG, 25), p);
            } else {
                lemma_infix_ok(e, opcodes::SUB, 10, 11, true, p);
            }
        },
        Tok::RParen => {
            lemma_rparen_ok(e, pos, p);
        },
        Tok::Underscore => {
            if !(e.expect_operand || !e.log_pending) {
                assert(ent_bytes((TAG_LOGB, 41u8)) =~= seq![opcodes::FUNC, opcodes::funcs::LOGB]);
                lemma_push_ok(e, (TAG_LOGB, 41), p);
            }
        },
        Tok::Mul => {
            if !e.expect_operand {
                lemma_infix_ok(e, opcodes::MUL, 20, 21, true, p);
            }
        },
        Tok::Div => {
            if !e.expect_operand {
                lemma_infix_ok(e, opcodes::DIV, 20, 21, true, p);
            }
        },
        Tok::Pow => {
            if !e.expect_operand {
                lemma_infix_ok(e, opcodes::POW, 30, 30, false, p);
            }
        },
        _ => {},
    }
}

proof fn lemma_num_ok(v: u64)
    requires
        v < INF_MAG,
    ensures
        ins_ok(num_ins(v)),
{
    let s = num_ins(v);
    lemma_le_bytes_len(v as nat, 8);
    lemma_p256_8();
    lemma_le_roundtrip(v as nat, 8);
    assert(s.subrange(1, 9) =~= le_bytes(v as nat, 8));
}

proof fn lemma_step_ok<R: Resolve>(res: &R, p: Params, toks: Seq<(int, Tok)>, lerr: Option<crate::error::Error>, i: int, e: Eng)
    requires
        eng_ok(e),
        plain(res, p),
        0 <= i < toks.len(),
        toks_ok(toks),
    ensures
        eng_ok(step(res, p, toks, lerr, i, e).0),
{
    let pos = toks[i].0;
    let tok = toks[i].1;
    assert(tok_ok(tok));
    let operand = tok.spec_starts_operand();
    assert(op_name(opcodes::MUL) is Some);
    if operand && !e.expect_operand {
        lemma_infix_ok(e, opcodes::MUL, 20, 21, true, p);
    }
    let e1 = if operand && !e.expect_operand {
        infix(e, opcodes::MUL, 20, 21, true, p)
    } else {
        e
    };
    if e1.sink.err is None {
        if !operand {
            lemma_op_step_ok(e1, tok, pos, p);
        } else {
            match tok {
                Tok::Num(v) => {
                    lemma_num_ok(v);
                    lemma_emit_eng(e1, num_ins(v), p);
                },
                Tok::Var(name) => {
                    if p.substitute {
                        assert(res.spec_body(name) is None);
                    }
                    lemma_emit_ok(e1.sink, seq![opcodes::VAR, name], p.lim);
                },
                Tok::Const(id) => {
                    lemma_emit_eng(e1, seq![opcodes::CONST, id], p);
                },
                Tok::Func(id) => {
                    assert(ent_bytes((opcodes::FUNC, id)) =~= seq![opcodes::FUNC, id]);
                    lemma_push_ok(e1, (opcodes::FUNC, id), p);
                    lemma_push_frame_ok(push(e1, (opcodes::FUNC, id), p), p);
                },
                Tok::LParen => {
                    assert(ent_bytes((TAG_LPAREN, 0u8)) =~= Seq::<u8>::empty());
                    lemma_push_ok(e1, (TAG_LPAREN, 0), p);
                },
                _ => {},
            }
        }
    }
}

proof fn lemma_drain_ok(e: Eng, p: Params)
    requires
        eng_ok(e),
    ensures
        eng_ok(drain(e, p)),
    decreases e.ops.len(),
{
    if e.sink.err is None && e.ops.len() > 0 && !crate::compile::is_barrier(e.ops.last().0) {
        lemma_pop_ok(e, p);
        lemma_drain_ok(pop_emit(e, p), p);
    }
}

/// Without splicing, every state a run passes through is well formed.
pub proof fn lemma_run_ok<R: Resolve>(
    res: &R,
    p: Params,
    toks: Seq<(int, Tok)>,
    lerr: Option<crate::error::Error>,
    i: int,
    e: Eng,
)
    requires
        eng_ok(e),
        plain(res, p),
        toks_ok(toks),
    ensures
        eng_ok(run(res, p, toks, lerr, i, e)),
    decreases toks.len() - i,
{
    if e.sink.err is None {
        if i < 0 || i >= toks.len() {
            if lerr is None && !e.expect_operand {
                lemma_drain_ok(e, p);
            }
        } else {
            lemma_step_ok(res, p, toks, lerr, i, e);
            let (e2, j) = step(res, p, toks, lerr, i, e);
            if i < j {
                lemma_run_ok(res, p, toks, lerr, j, e2);
            }
        }
    }
}

/// Without splicing, compilation writes a well-formed stream.
pub proof fn lemma_compile_ok<R: Resolve>(
    res: &R,
    cfg: crate::config::Config,
    src: Seq<u8>,
    buflen: nat,
    stack_len: nat,
    substitute: bool,
)
    requires
        !substitute || forall|v: u8| #[trigger] res.spec_body(v) is None,
    ensures
        stream_ok(crate::compile::compile_spec(res, cfg, src, buflen, stack_len, substitute).out),
{
    let needed = crate::config::spec_scratch_len(cfg.spec_max_depth());
    if stack_len >= needed {
        let lx = crate::lex::lex_all(src, 0);
        let p = Params {
            lim: Lim { buflen: buflen, limit: cfg.spec_output_limit() as nat },
            max_depth: cfg.spec_max_depth() as nat,
            stack_len: stack_len,
            substitute: substitute,
            eof: src.len(),
        };
        crate::lex::lemma_lex_all_ok(src, 0);
        let e0 = crate::compile::initial_eng();
        assert(eng_ok(e0));
        lemma_run_ok(res, p, lx.0, lx.1, 0, e0);
    }
}

/// The write errors: the only ones emission can produce.
pub open spec fn is_overflow(e: crate::error::Error) -> bool {
    e is BufferTooSmall || e is OutputLimitExceeded
}

/// Decoding a well-formed stream only ever stops for lack of room.
pub proof fn lemma_decode_ok(rpn: Seq<u8>, i: int, first: bool, s: Sink, l: Lim)
    requires
        0 <= i <= rpn.len(),
        stream_ok(rpn.subrange(i, rpn.len() as int)),
        s.err matches Some(e) ==> is_overflow(e),
    ensures
        crate::decode::decode_from(rpn, i, first, s, l).err matches Some(e) ==> is_overflow(e),
    decreases rpn.len() - i,
{
    if s.err is None && i < rpn.len() {
        let sub = rpn.subrange(i, rpn.len() as int);
        let op = rpn[i];
        let w = ins_width(op);
        let ins = sub.subrange(0, w);
        assert(sub[0] == op);
        assert(ins[0] == op);
        let j = i + 1;
        let s1 = if first { s } else { emit(s, seq![32u8], l) };
        assert(sub.subrange(w, sub.len() as int) =~= rpn.subrange(i + w, rpn.len() as int));
        if s1.err is None {
            if op == opcodes::NUM {
                assert(ins.subrange(1, 9) =~= rpn.subrange(j, j + 8));
                let v = le_value(rpn.subrange(j, j + 8));
                assert((v as u64) as nat == v);
                lemma_emit_text(s1, crate::display::display_text(v as u64), l);
                lemma_decode_ok(rpn, j + 8, false, emit(s1, crate::display::display_text(v as u64), l), l);
            } else if op == opcodes::VAR || op == opcodes::CONST || op == opcodes::FUNC {
                assert(ins[1] == rpn[j]);
                let b = rpn[j];
                let t: Seq<u8> = if op == opcodes::VAR {
                    seq![b]
                } else if op == opcodes::CONST {
                    const_name(b).unwrap()
                } else {
                    func_name(b).unwrap()
                };
                lemma_emit_text(s1, t, l);
                lemma_decode_ok(rpn, j + 1, false, emit(s1, t, l), l);
            } else {
                let t = op_name(op).unwrap();
                lemma_emit_text(s1, t, l);
                lemma_decode_ok(rpn, j, false, emit(s1, t, l), l);
            }
        }
    }
}

proof fn lemma_emit_text(s: Sink, b: Seq<u8>, l: Lim)
    requires
        s.err matches Some(e) ==> is_overflow(e),
    ensures
        emit(s, b, l).err matches Some(e) ==> is_overflow(e),
{
}

} // verus!
