//! The engine: an iterative precedence-driven emitter.
//!
//! No recursion: an explicit operator stack lives in caller-provided
//! scratch memory, sized by `Config::max_depth`. A [`Resolve`] may be
//! injected so that variable atoms expand into previously compiled
//! bodies (substitution).
//!
//! | construct        | l_bp | r_bp | notes                           |
//! |------------------|------|------|---------------------------------|
//! | `+ -`            | 10   | 11   | left-assoc                      |
//! | `* /`, implicit  | 20   | 21   | left-assoc; implicit == `*`     |
//! | unary `-`        | —    | 25   | prefix                          |
//! | `^`              | 30   | 30   | right-assoc                     |
//! | `_base` postfix  | 41   | 41   | right-assoc; only after `log()` |
use vstd::prelude::*;
use vstd::string::StringSliceAdditionalSpecFns;
use crate::config::{Config, spec_scratch_len};
use crate::error::Error;
use crate::fold::{bit_of, emit_var_body, expand, lemma_expand_grows};
use crate::lex::{lex_all, lex_at, Lexed, Scanner, Tok, is_lower, lemma_lex_all_unfold, lemma_lex_all_ok, tok_ok, toks_ok};
use crate::opcodes;
use crate::resolve::{NoResolve, Resolve};
use crate::wire::{num_ins, num_instruction};
use crate::writer::{emit, fail, lemma_tail, written_as, Lim, Sink, Writer, sink_of, outcome};

verus! {

/// Stack tag of a parenthesis sentinel.
pub const TAG_LPAREN: u8 = 0xE0;

/// Stack tag of a pending `_base`.
pub const TAG_LOGB: u8 = 0xE1;

/// The abstract engine state: output so far (and the error that stopped
/// it), operator stack entries `(tag, aux)`, nesting count, and flags.
#[verifier::ext_equal]
pub struct Eng {
    pub sink: Sink,
    pub ops: Seq<(u8, u8)>,
    pub nest: nat,
    pub log_pending: bool,
    pub expect_operand: bool,
}

/// The fixed parameters of one compilation.
pub struct Params {
    pub lim: Lim,
    pub max_depth: nat,
    pub stack_len: nat,
    pub substitute: bool,
    pub eof: nat,
}

/// Entries the scratch holds: the engine keeps each entry in one byte.
pub open spec fn cap_entries(p: Params) -> nat {
    p.stack_len
}

/// Entries that count as one nesting level.
pub open spec fn is_nested_tag(t: u8) -> bool {
    t == TAG_LPAREN || t == TAG_LOGB || t == opcodes::ops::POW || t == opcodes::ops::NEG || t
        == opcodes::FUNC
}

/// Sentinel and frame entries stop operator collapsing.
pub open spec fn is_barrier(t: u8) -> bool {
    t == TAG_LPAREN || t == opcodes::FUNC
}

pub open spec fn e_fail(e: Eng, err: Error) -> Eng {
    Eng { sink: fail(e.sink, err), ..e }
}

pub open spec fn e_emit(e: Eng, bytes: Seq<u8>, p: Params) -> Eng {
    Eng { sink: emit(e.sink, bytes, p.lim), ..e }
}

pub open spec fn with_expect(e: Eng, b: bool) -> Eng {
    Eng { expect_operand: b, ..e }
}

pub open spec fn scratch_err(p: Params) -> Error {
    Error::ScratchTooSmall {
        needed: (cap_entries(p) + 1) as usize,
        got: p.stack_len as usize,
    }
}

/// Push an operator-stack entry, charging a nesting level when the entry
/// opens one.
pub open spec fn push(e: Eng, ent: (u8, u8), p: Params) -> Eng {
    if e.sink.err is Some {
        e
    } else {
        let nested = is_nested_tag(ent.0);
        if nested && e.nest >= p.max_depth {
            e_fail(e, Error::TooDeep)
        } else {
            let e1 = Eng {
                nest: if nested { e.nest + 1 } else { e.nest },
                log_pending: false,
                ..e
            };
            if e.ops.len() >= cap_entries(p) {
                e_fail(e1, scratch_err(p))
            } else {
                Eng { ops: e.ops.push(ent), ..e1 }
            }
        }
    }
}

/// The parenthesis sentinel of a function frame (shares its level).
pub open spec fn push_frame(e: Eng, p: Params) -> Eng {
    if e.sink.err is Some {
        e
    } else {
        let e1 = Eng { log_pending: false, ..e };
        if e.ops.len() >= cap_entries(p) {
            e_fail(e1, scratch_err(p))
        } else {
            Eng { ops: e.ops.push((TAG_LPAREN, 0)), ..e1 }
        }
    }
}

/// The instruction an operator-stack entry stands for.
pub open spec fn ent_bytes(ent: (u8, u8)) -> Seq<u8> {
    let t = ent.0;
    if (opcodes::ops::ADD <= t && t <= opcodes::ops::POW) || t == opcodes::ops::NEG {
        seq![t]
    } else if t == opcodes::FUNC {
        seq![opcodes::FUNC, ent.1]
    } else if t == TAG_LOGB {
        seq![opcodes::FUNC, opcodes::funcs::LOGB]
    } else {
        Seq::empty()
    }
}

/// One nesting level fewer (never below zero).
pub open spec fn dec(n: nat) -> nat {
    if n > 0 {
        (n - 1) as nat
    } else {
        0
    }
}

/// Entries that give their nesting level back when they are emitted: a
/// power, a negation and a `_base`.
pub open spec fn releases(t: u8) -> bool {
    t == opcodes::ops::POW || t == opcodes::ops::NEG || t == TAG_LOGB
}

/// Pop the top entry and emit its instruction; a construct that held a
/// nesting level gives it back.
pub open spec fn pop_emit(e: Eng, p: Params) -> Eng {
    if e.sink.err is Some || e.ops.len() == 0 {
        e
    } else {
        let ent = e.ops.last();
        e_emit(
            Eng {
                ops: e.ops.drop_last(),
                log_pending: false,
                nest: if releases(ent.0) { dec(e.nest) } else { e.nest },
                ..e
            },
            ent_bytes(ent),
            p,
        )
    }
}

/// Pop and emit while the top operator binds at least as tightly as
/// `lbp` (honoring associativity); stop at barriers.
pub open spec fn collapse(e: Eng, lbp: u8, left_assoc: bool, p: Params) -> Eng
    decreases e.ops.len(),
{
    if e.sink.err is Some || e.ops.len() == 0 {
        e
    } else {
        let top = e.ops.last();
        if is_barrier(top.0) || top.1 < lbp || (top.1 == lbp && !left_assoc) {
            e
        } else {
            collapse(pop_emit(e, p), lbp, left_assoc, p)
        }
    }
}

/// A binary operator: collapse, then push.
pub open spec fn infix(e: Eng, op: u8, lbp: u8, rbp: u8, left_assoc: bool, p: Params) -> Eng {
    push(collapse(e, lbp, left_assoc, p), (op, rbp), p)
}

/// A variable atom: its definition's expansion when substituting and
/// defined, a `VAR` instruction otherwise.
pub open spec fn emit_variable<R: Resolve>(res: &R, e: Eng, name: u8, p: Params) -> Eng {
    if e.sink.err is Some {
        e
    } else {
        let s1 = if p.substitute && res.spec_body(name) is Some {
            expand(res, res.spec_body(name).unwrap(), bit_of(name), e.sink, p.lim)
        } else {
            emit(e.sink, seq![opcodes::VAR, name], p.lim)
        };
        Eng { sink: s1, log_pending: false, expect_operand: false, ..e }
    }
}

/// Pop and emit down to the nearest parenthesis sentinel.
pub open spec fn close_group(e: Eng, pos: int, p: Params) -> Eng
    decreases e.ops.len(),
{
    if e.sink.err is Some {
        e
    } else if e.ops.len() == 0 {
        e_fail(e, Error::UnexpectedToken { pos: pos as usize })
    } else if e.ops.last().0 == TAG_LPAREN {
        e
    } else {
        close_group(pop_emit(e, p), pos, p)
    }
}

/// A closing parenthesis: close the group, giving back its nesting level,
/// and the function call whose frame lies directly beneath it (the frame
/// and its parenthesis share one level).
pub open spec fn rparen(e: Eng, pos: int, p: Params) -> Eng {
    if e.expect_operand {
        e_fail(e, Error::UnexpectedToken { pos: pos as usize })
    } else {
        let e2 = close_group(Eng { log_pending: false, ..e }, pos, p);
        if e2.sink.err is Some {
            e2
        } else {
            let e3 = Eng { ops: e2.ops.drop_last(), nest: dec(e2.nest), ..e2 };
            if e3.ops.len() > 0 && e3.ops.last().0 == opcodes::FUNC {
                let id = e3.ops.last().1;
                let e4 = Eng { ops: e3.ops.drop_last(), ..e3 };
                let e5 = e_emit(e4, seq![opcodes::FUNC, id], p);
                Eng { log_pending: id == opcodes::funcs::LOG, expect_operand: false, ..e5 }
            } else {
                with_expect(e3, false)
            }
        }
    }
}

/// A token that does not begin an operand.
pub open spec fn op_step(e: Eng, tok: Tok, pos: int, p: Params) -> Eng {
    match tok {
        Tok::Add => if e.expect_operand {
            e
        } else {
            with_expect(infix(e, opcodes::ops::ADD, 10, 11, true, p), true)
        },
        Tok::Sub => if e.expect_operand {
            push(e, (opcodes::ops::NEG, 25), p)
        } else {
            with_expect(infix(e, opcodes::ops::SUB, 10, 11, true, p), true)
        },
        Tok::RParen => rparen(e, pos, p),
        Tok::Underscore => if e.expect_operand || !e.log_pending {
            e_fail(e, Error::UnexpectedToken { pos: pos as usize })
        } else {
            with_expect(push(e, (TAG_LOGB, 41), p), true)
        },
        Tok::Mul => if e.expect_operand {
            e_fail(e, Error::UnexpectedToken { pos: pos as usize })
        } else {
            with_expect(infix(e, opcodes::ops::MUL, 20, 21, true, p), true)
        },
        Tok::Div => if e.expect_operand {
            e_fail(e, Error::UnexpectedToken { pos: pos as usize })
        } else {
            with_expect(infix(e, opcodes::ops::DIV, 20, 21, true, p), true)
        },
        Tok::Pow => if e.expect_operand {
            e_fail(e, Error::UnexpectedToken { pos: pos as usize })
        } else {
            with_expect(infix(e, opcodes::ops::POW, 30, 30, false, p), true)
        },
        _ => e,
    }
}

/// One token (two for a function name and its parenthesis): the new
/// state and the index of the next token.
pub open spec fn step<R: Resolve>(
    res: &R,
    p: Params,
    toks: Seq<(int, Tok)>,
    lerr: Option<Error>,
    i: int,
    e: Eng,
) -> (Eng, int) {
    let pos = toks[i].0;
    let tok = toks[i].1;
    let operand = tok.spec_starts_operand();
    let e1 = if operand && !e.expect_operand {
        infix(e, opcodes::ops::MUL, 20, 21, true, p)
    } else {
        e
    };
    if e1.sink.err is Some {
        (e1, i + 1)
    } else if !operand {
        (op_step(e1, tok, pos, p), i + 1)
    } else {
        match tok {
            Tok::Num(v) => (
                Eng { log_pending: false, expect_operand: false, ..e_emit(e1, num_ins(v), p) },
                i + 1,
            ),
            Tok::Var(name) => (emit_variable(res, e1, name, p), i + 1),
            Tok::Const(id) => (
                Eng {
                    log_pending: false,
                    expect_operand: false,
                    ..e_emit(e1, seq![opcodes::CONST, id], p)
                },
                i + 1,
            ),
            Tok::Func(id) => if i + 1 < toks.len() {
                if toks[i + 1].1 is LParen {
                    (with_expect(push_frame(push(e1, (opcodes::FUNC, id), p), p), true), i + 2)
                } else {
                    (e_fail(e1, Error::ExpectedLparen { pos: toks[i + 1].0 as usize }), i + 1)
                }
            } else {
                (
                    e_fail(
                        e1,
                        match lerr {
                            Some(x) => x,
                            None => Error::ExpectedLparen { pos: p.eof as usize },
                        },
                    ),
                    i + 1,
                )
            },
            Tok::LParen => (with_expect(push(e1, (TAG_LPAREN, 0), p), true), i + 1),
            _ => (e1, i + 1),
        }
    }
}

/// Drain the operator stack at the end of input.
pub open spec fn drain(e: Eng, p: Params) -> Eng
    decreases e.ops.len(),
{
    if e.sink.err is Some || e.ops.len() == 0 {
        e
    } else if is_barrier(e.ops.last().0) {
        e_fail(e, Error::ExpectedRparen { pos: p.eof as usize })
    } else {
        drain(pop_emit(e, p), p)
    }
}

pub open spec fn finish(e: Eng, p: Params) -> Eng {
    if e.sink.err is Some {
        e
    } else if e.expect_operand {
        e_fail(e, Error::UnexpectedToken { pos: p.eof as usize })
    } else {
        drain(e, p)
    }
}

/// Process tokens from index `i` to the end.
pub open spec fn run<R: Resolve>(
    res: &R,
    p: Params,
    toks: Seq<(int, Tok)>,
    lerr: Option<Error>,
    i: int,
    e: Eng,
) -> Eng
    decreases toks.len() - i,
{
    if e.sink.err is Some {
        e
    } else if i < 0 || i >= toks.len() {
        match lerr {
            Some(x) => e_fail(e, x),
            None => finish(e, p),
        }
    } else {
        let (e2, j) = step(res, p, toks, lerr, i, e);
        if i < j {
            run(res, p, toks, lerr, j, e2)
        } else {
            e2
        }
    }
}

pub open spec fn initial_eng() -> Eng {
    Eng {
        sink: Sink { out: Seq::empty(), err: None },
        ops: Seq::empty(),
        nest: 1,
        log_pending: false,
        expect_operand: true,
    }
}

/// What compiling `src` under `cfg` writes and how it ends: `out` is the
/// bytecode (or what was written before the error in `err`).
pub open spec fn compile_spec<R: Resolve>(
    res: &R,
    cfg: Config,
    src: Seq<u8>,
    buflen: nat,
    stack_len: nat,
    substitute: bool,
) -> Sink {
    let needed = spec_scratch_len(cfg.spec_max_depth());
    if stack_len < needed {
        Sink { out: Seq::empty(), err: Some(Error::ScratchTooSmall { needed: needed, got: stack_len as usize }) }
    } else {
        let lx = lex_all(src, 0);
        let p = Params {
            lim: Lim { buflen: buflen, limit: cfg.spec_output_limit() as nat },
            max_depth: cfg.spec_max_depth() as nat,
            stack_len: stack_len,
            substitute: substitute,
            eof: src.len(),
        };
        run(res, p, lx.0, lx.1, 0, initial_eng()).sink
    }
}

/// The executable engine. The operator stack lives in caller scratch:
/// entry `k` is the byte at `k` (see [`ent_of`]); only entries below `sp` are read.
struct Engine {
    w: Writer,
    sp: usize,
    nest: u32,
    max_depth: u32,
    substitute: bool,
    log_pending: bool,
    expect_operand: bool,
    eof_pos: usize,
}

/// The binding power an entry with tag `t` carries.
pub open spec fn tag_power(t: u8) -> u8 {
    if t == opcodes::ops::ADD || t == opcodes::ops::SUB {
        11
    } else if t == opcodes::ops::MUL || t == opcodes::ops::DIV {
        21
    } else if t == opcodes::ops::POW {
        30
    } else if t == opcodes::ops::NEG {
        25
    } else if t == TAG_LOGB {
        41
    } else {
        0
    }
}

/// The entry a scratch byte holds: `0x80 + id` is the frame of function
/// `id`; any other byte is a tag with its binding power.
pub open spec fn ent_of(b: u8) -> (u8, u8) {
    if 0x80 <= b < 0xC0 {
        (opcodes::FUNC, (b - 0x80) as u8)
    } else {
        (b, tag_power(b))
    }
}

/// The byte an entry is kept in.
pub open spec fn ent_code(ent: (u8, u8)) -> u8 {
    if ent.0 == opcodes::FUNC {
        (0x80 + ent.1) as u8
    } else {
        ent.0
    }
}

/// Entries one byte can hold.
pub open spec fn codable(ent: (u8, u8)) -> bool {
    if ent.0 == opcodes::FUNC {
        ent.1 < 0x40
    } else {
        !(0x80 <= ent.0 < 0xC0) && ent.1 == tag_power(ent.0)
    }
}

fn entry_of(b: u8) -> (r: (u8, u8))
    ensures
        r == ent_of(b),
{
    if 0x80 <= b && b < 0xC0 {
        (opcodes::FUNC, b - 0x80)
    } else if b == opcodes::ops::ADD || b == opcodes::ops::SUB {
        (b, 11)
    } else if b == opcodes::ops::MUL || b == opcodes::ops::DIV {
        (b, 21)
    } else if b == opcodes::ops::POW {
        (b, 30)
    } else if b == opcodes::ops::NEG {
        (b, 25)
    } else if b == TAG_LOGB {
        (b, 41)
    } else {
        (b, 0)
    }
}

spec fn ops_of(sp: nat, stack: Seq<u8>) -> Seq<(u8, u8)> {
    Seq::new(sp, |k: int| ent_of(stack[k]))
}

/// The abstract state an engine over `out` and `stack` stands for.
spec fn model(g: Engine, out: Seq<u8>, stack: Seq<u8>) -> Eng {
    Eng {
        sink: sink_of(g.w, out),
        ops: ops_of(g.sp as nat, stack),
        nest: g.nest as nat,
        log_pending: g.log_pending,
        expect_operand: g.expect_operand,
    }
}

spec fn params_of(g: Engine, buflen: nat, stack_len: nat) -> Params {
    Params {
        lim: g.w.lim(buflen),
        max_depth: g.max_depth as nat,
        stack_len: stack_len,
        substitute: g.substitute,
        eof: g.eof_pos as nat,
    }
}

spec fn well(g: Engine, out: Seq<u8>, stack: Seq<u8>) -> bool {
    &&& g.w.len <= out.len()
    &&& g.w.len <= g.w.limit
    &&& g.sp <= stack.len()
    &&& stack.len() <= usize::MAX
}

spec fn same_params(a: Engine, b: Engine) -> bool {
    &&& a.w.limit == b.w.limit
    &&& a.max_depth == b.max_depth
    &&& a.substitute == b.substitute
    &&& a.eof_pos == b.eof_pos
}

/// An engine step's outcome agrees with the abstract step: the same
/// state on success, the same error and output on failure.
spec fn agrees(r: Result<(), Error>, got: Eng, want: Eng) -> bool {
    match r {
        Ok(_) => {
            &&& want.sink.err is None
            &&& got.sink.out =~= want.sink.out
            &&& got.ops =~= want.ops
            &&& got.nest == want.nest
            &&& got.log_pending == want.log_pending
            &&& got.expect_operand == want.expect_operand
        },
        Err(e) => {
            &&& want.sink.err == Some(e)
            &&& got.sink.out =~= want.sink.out
        },
    }
}

pub proof fn lemma_seq_cons<T>(s: Seq<T>, k: int, x: T, rest: Seq<T>)
    requires
        0 <= k <= s.len(),
        s.subrange(k, s.len() as int) == seq![x] + rest,
    ensures
        k < s.len(),
        s[k] == x,
        s.subrange(k + 1, s.len() as int) == rest,
{
    assert((seq![x] + rest).len() == rest.len() + 1);
    assert(s.subrange(k, s.len() as int)[0] == x);
    assert(s.subrange(k + 1, s.len() as int) =~= rest) by {
        assert(s.len() - k == rest.len() + 1);
        assert forall|j: int| 0 <= j < rest.len() implies s.subrange(k + 1, s.len() as int)[j] == rest[j] by {
            assert(s.subrange(k, s.len() as int)[j + 1] == (seq![x] + rest)[j + 1]);
            assert((seq![x] + rest)[j + 1] == rest[j]);
            assert(s.subrange(k, s.len() as int)[j + 1] == s[k + j + 1]);
            assert(s.subrange(k + 1, s.len() as int)[j] == s[k + 1 + j]);
        }
    }
}

pub proof fn lemma_eng_ext(a: Eng, b: Eng)
    requires
        a.sink.out =~= b.sink.out,
        a.sink.err == b.sink.err,
        a.ops =~= b.ops,
        a.nest == b.nest,
        a.log_pending == b.log_pending,
        a.expect_operand == b.expect_operand,
    ensures
        a == b,
{
    assert(a.sink =~= b.sink);
    assert(a =~= b);
}

impl Engine {
    fn cap_entries(&self, stack: &[u8]) -> (r: usize)
        ensures
            r == stack@.len(),
    {
        stack.len()
    }

    fn place(&mut self, stack: &mut [u8], tag: u8, aux: u8)
        requires
            old(self).sp + 1 <= old(stack)@.len(),
            codable((tag, aux)),
        ensures
            final(stack)@.len() == old(stack)@.len(),
            final(self).sp == old(self).sp + 1,
            ops_of(final(self).sp as nat, final(stack)@) =~= ops_of(old(self).sp as nat, old(stack)@).push((tag, aux)),
            final(self).w == old(self).w,
            final(self).nest == old(self).nest,
            final(self).log_pending == old(self).log_pending,
            final(self).expect_operand == old(self).expect_operand,
            same_params(*old(self), *final(self)),
    {
        let code = if tag == opcodes::FUNC {
            0x80 + aux
        } else {
            tag
        };
        stack[self.sp] = code;
        self.sp = self.sp + 1;
    }

    fn peek(&self, stack: &[u8]) -> (r: Option<(u8, u8)>)
        requires
            self.sp <= stack@.len(),
            stack@.len() <= usize::MAX,
        ensures
            self.sp == 0 ==> r is None,
            self.sp > 0 ==> r == Some(ops_of(self.sp as nat, stack@).last()),
    {
        if self.sp == 0 {
            return None;
        }
        Some(entry_of(stack[self.sp - 1]))
    }

    fn push(&mut self, out: &[u8], stack: &mut [u8], tag: u8, aux: u8) -> (r: Result<(), Error>)
        requires
            well(*old(self), out@, old(stack)@),
            codable((tag, aux)),
        ensures
            well(*final(self), out@, final(stack)@),
            final(stack)@.len() == old(stack)@.len(),
            same_params(*old(self), *final(self)),
            final(self).w == old(self).w,
            final(self).expect_operand == old(self).expect_operand,
            agrees(
                r,
                model(*final(self), out@, final(stack)@),
                push(
                    model(*old(self), out@, old(stack)@),
                    (tag, aux),
                    params_of(*old(self), out@.len() as nat, old(stack)@.len() as nat),
                ),
            ),
    {
        let nested = tag == TAG_LPAREN || tag == TAG_LOGB || tag == opcodes::ops::POW || tag
            == opcodes::ops::NEG || tag == opcodes::FUNC;
        if nested {
            if self.nest >= self.max_depth {
                return Err(Error::TooDeep);
            }
            self.nest = self.nest + 1;
        }
        self.log_pending = false;
        let cap = self.cap_entries(stack);
        if self.sp >= cap {
            return Err(Error::ScratchTooSmall { needed: ((cap as u128) + 1) as usize, got: stack.len() });
        }
        self.place(stack, tag, aux);
        Ok(())
    }

    fn push_frame_sentinel(&mut self, out: &[u8], stack: &mut [u8]) -> (r: Result<(), Error>)
        requires
            well(*old(self), out@, old(stack)@),
        ensures
            well(*final(self), out@, final(stack)@),
            final(stack)@.len() == old(stack)@.len(),
            same_params(*old(self), *final(self)),
            final(self).w == old(self).w,
            final(self).expect_operand == old(self).expect_operand,
            agrees(
                r,
                model(*final(self), out@, final(stack)@),
                push_frame(
                    model(*old(self), out@, old(stack)@),
                    params_of(*old(self), out@.len() as nat, old(stack)@.len() as nat),
                ),
            ),
    {
        self.log_pending = false;
        let cap = self.cap_entries(stack);
        if self.sp >= cap {
            return Err(Error::ScratchTooSmall { needed: ((cap as u128) + 1) as usize, got: stack.len() });
        }
        self.place(stack, TAG_LPAREN, 0);
        Ok(())
    }

    /// Pop one entry and emit its instruction.
    fn pop_emit(&mut self, out: &mut [u8], stack: &[u8]) -> (r: Result<(), Error>)
        requires
            well(*old(self), old(out)@, stack@),
            old(self).sp > 0,
        ensures
            well(*final(self), final(out)@, stack@),
            same_params(*old(self), *final(self)),
            final(self).expect_operand == old(self).expect_operand,
            final(self).w.len >= old(self).w.len,
            final(out)@.len() == old(out)@.len(),
            final(out)@.subrange(final(self).w.len as int, final(out)@.len() as int) == old(out)@.subrange(
                final(self).w.len as int,
                old(out)@.len() as int,
            ),
            agrees(
                r,
                model(*final(self), final(out)@, stack@),
                pop_emit(
                    model(*old(self), old(out)@, stack@),
                    params_of(*old(self), old(out)@.len() as nat, stack@.len() as nat),
                ),
            ),
    {
        self.sp = self.sp - 1;
        let (tag, aux) = entry_of(stack[self.sp]);
        self.log_pending = false;
        if tag == opcodes::ops::POW || tag == opcodes::ops::NEG || tag == TAG_LOGB {
            self.nest = if self.nest > 0 { self.nest - 1 } else { 0 };
        }
        proof {
            assert(ops_of(self.sp as nat, stack@) =~= ops_of(old(self).sp as nat, stack@).drop_last());
        }
        if (opcodes::ops::ADD <= tag && tag <= opcodes::ops::POW) || tag == opcodes::ops::NEG {
            self.w.emit1(out, tag)
        } else if tag == opcodes::FUNC {
            self.w.emit2(out, opcodes::FUNC, aux)
        } else if tag == TAG_LOGB {
            self.w.emit2(out, opcodes::FUNC, opcodes::funcs::LOGB)
        } else {
            proof {
                assert(old(out)@.subrange(0, self.w.len as int) + Seq::<u8>::empty() =~= old(out)@.subrange(0, self.w.len as int));
            }
            Ok(())
        }
    }

    fn collapse(&mut self, out: &mut [u8], stack: &[u8], lbp: u8, left_assoc: bool) -> (r: Result<(), Error>)
        requires
            well(*old(self), old(out)@, stack@),
        ensures
            well(*final(self), final(out)@, stack@),
            same_params(*old(self), *final(self)),
            final(self).expect_operand == old(self).expect_operand,
            final(self).w.len >= old(self).w.len,
            final(out)@.len() == old(out)@.len(),
            final(out)@.subrange(final(self).w.len as int, final(out)@.len() as int) == old(out)@.subrange(
                final(self).w.len as int,
                old(out)@.len() as int,
            ),
            agrees(
                r,
                model(*final(self), final(out)@, stack@),
                collapse(
                    model(*old(self), old(out)@, stack@),
                    lbp,
                    left_assoc,
                    params_of(*old(self), old(out)@.len() as nat, stack@.len() as nat),
                ),
            ),
    {
        let ghost p = params_of(*old(self), old(out)@.len() as nat, stack@.len() as nat);
        let ghost want = collapse(model(*old(self), old(out)@, stack@), lbp, left_assoc, p);
        loop
            invariant
                well(*self, out@, stack@),
                same_params(*old(self), *self),
                self.expect_operand == old(self).expect_operand,
                out@.len() == old(out)@.len(),
                out@.subrange(self.w.len as int, out@.len() as int) == old(out)@.subrange(
                    self.w.len as int,
                    old(out)@.len() as int,
                ),
                p == params_of(*self, out@.len() as nat, stack@.len() as nat),
                p == params_of(*old(self), old(out)@.len() as nat, stack@.len() as nat),
                want == collapse(model(*self, out@, stack@), lbp, left_assoc, p),
                want == collapse(model(*old(self), old(out)@, stack@), lbp, left_assoc, p),
                self.w.len >= old(self).w.len,
            decreases self.sp,
        {
            match self.peek(stack) {
                None => {
                    proof {
                        let m = model(*self, out@, stack@);
                        assert(m.ops.len() == 0);
                        assert(collapse(m, lbp, left_assoc, p) == m);
                        assert(want == m);
                    }
                    return Ok(());
                },
                Some(top) => {
                    if top.0 == TAG_LPAREN || top.0 == opcodes::FUNC || top.1 < lbp || (top.1 == lbp
                        && !left_assoc) {
                        return Ok(());
                    }
                    let ghost m0 = model(*self, out@, stack@);
                    let ghost w0 = self.w;
                    let ghost o0 = out@;
                    let r = self.pop_emit(out, stack);
                    proof {
                        assert(want == collapse(pop_emit(m0, p), lbp, left_assoc, p));
                        if r is Ok {
                            lemma_eng_ext(model(*self, out@, stack@), pop_emit(m0, p));
                        } else {
                            assert(collapse(pop_emit(m0, p), lbp, left_assoc, p) == pop_emit(m0, p));
                        }
                        lemma_tail(old(out)@, o0, out@, old(self).w.len as int, w0.len as int, self.w.len as int);
                    }
                    match r {
                        Ok(()) => {},
                        Err(e) => {
                            return Err(e);
                        },
                    }
                },
            }
        }
    }

    fn infix(&mut self, out: &mut [u8], stack: &mut [u8], op: u8, lbp: u8, rbp: u8, left_assoc: bool) -> (r: Result<(), Error>)
        requires
            well(*old(self), old(out)@, old(stack)@),
            codable((op, rbp)),
        ensures
            well(*final(self), final(out)@, final(stack)@),
            same_params(*old(self), *final(self)),
            final(self).w.len >= old(self).w.len,
            final(out)@.len() == old(out)@.len(),
            final(stack)@.len() == old(stack)@.len(),
            final(out)@.subrange(final(self).w.len as int, final(out)@.len() as int) == old(out)@.subrange(
                final(self).w.len as int,
                old(out)@.len() as int,
            ),
            final(self).expect_operand == old(self).expect_operand,
            agrees(
                r,
                model(*final(self), final(out)@, final(stack)@),
                infix(
                    model(*old(self), old(out)@, old(stack)@),
                    op,
                    lbp,
                    rbp,
                    left_assoc,
                    params_of(*old(self), old(out)@.len() as nat, old(stack)@.len() as nat),
                ),
            ),
    {
        let ghost p = params_of(*old(self), old(out)@.len() as nat, old(stack)@.len() as nat);
        let ghost m0 = model(*old(self), old(out)@, old(stack)@);
        let r1 = self.collapse(out, stack, lbp, left_assoc);
        match r1 {
            Ok(()) => {},
            Err(e) => {
                return Err(e);
            },
        }
        proof {
            lemma_eng_ext(model(*self, out@, stack@), collapse(m0, lbp, left_assoc, p));
        }
        self.push(out, stack, op, rbp)
    }

    fn emit_variable<R: Resolve>(&mut self, res: &R, out: &mut [u8], stack: &[u8], name: u8) -> (r: Result<(), Error>)
        requires
            well(*old(self), old(out)@, stack@),
            is_lower(name),
        ensures
            well(*final(self), final(out)@, stack@),
            same_params(*old(self), *final(self)),
            final(self).w.len >= old(self).w.len,
            final(out)@.len() == old(out)@.len(),
            final(out)@.subrange(final(self).w.len as int, final(out)@.len() as int) == old(out)@.subrange(
                final(self).w.len as int,
                old(out)@.len() as int,
            ),
            agrees(
                r,
                model(*final(self), final(out)@, stack@),
                emit_variable(
                    res,
                    model(*old(self), old(out)@, stack@),
                    name,
                    params_of(*old(self), old(out)@.len() as nat, stack@.len() as nat),
                ),
            ),
    {
        let resolved = if self.substitute { res.body(name) } else { None };
        match resolved {
            None => {
                let r = self.w.emit2(out, opcodes::VAR, name);
                match r {
                    Ok(()) => {},
                    Err(e) => {
                        return Err(e);
                    },
                }
            },
            Some(body) => {
                let bit: u32 = 1u32 << ((name - 97) as u32);
                proof {
                    assert(bit == bit_of(name));
                }
                proof {
                    lemma_expand_grows(res, body@, bit, sink_of(self.w, out@), self.w.lim(out@.len() as nat));
                }
                let r = emit_var_body(body, res, &mut self.w, out, bit);
                match r {
                    Ok(()) => {},
                    Err(e) => {
                        return Err(e);
                    },
                }
            },
        }
        self.log_pending = false;
        self.expect_operand = false;
        Ok(())
    }

    fn rparen(&mut self, out: &mut [u8], stack: &[u8], pos: usize) -> (r: Result<(), Error>)
        requires
            well(*old(self), old(out)@, stack@),
        ensures
            well(*final(self), final(out)@, stack@),
            same_params(*old(self), *final(self)),
            final(self).w.len >= old(self).w.len,
            final(out)@.len() == old(out)@.len(),
            final(out)@.subrange(final(self).w.len as int, final(out)@.len() as int) == old(out)@.subrange(
                final(self).w.len as int,
                old(out)@.len() as int,
            ),
            agrees(
                r,
                model(*final(self), final(out)@, stack@),
                rparen(
                    model(*old(self), old(out)@, stack@),
                    pos as int,
                    params_of(*old(self), old(out)@.len() as nat, stack@.len() as nat),
                ),
            ),
    {
        if self.expect_operand {
            return Err(Error::UnexpectedToken { pos });
        }
        let ghost p = params_of(*old(self), old(out)@.len() as nat, stack@.len() as nat);
        self.log_pending = false;
        let ghost e0 = model(*self, out@, stack@);
        let ghost cg = close_group(e0, pos as int, p);
        while self.sp > 0 && entry_of(stack[self.sp - 1]).0 != TAG_LPAREN
            invariant
                well(*self, out@, stack@),
                same_params(*old(self), *self),
                self.w.len >= old(self).w.len,
                out@.len() == old(out)@.len(),
                out@.subrange(self.w.len as int, out@.len() as int) == old(out)@.subrange(
                    self.w.len as int,
                    old(out)@.len() as int,
                ),
                p == params_of(*self, out@.len() as nat, stack@.len() as nat),
                p == params_of(*old(self), old(out)@.len() as nat, stack@.len() as nat),
                cg == close_group(model(*self, out@, stack@), pos as int, p),
                cg == close_group(e0, pos as int, p),
                !self.expect_operand,
                !old(self).expect_operand,
                e0 == (Eng { log_pending: false, ..model(*old(self), old(out)@, stack@) }),
            decreases self.sp,
        {
            let ghost m0 = model(*self, out@, stack@);
            let ghost w0 = self.w;
            let ghost o0 = out@;
            let r1 = self.pop_emit(out, stack);
            proof {
                assert(cg == close_group(pop_emit(m0, p), pos as int, p));
                if r1 is Ok {
                    lemma_eng_ext(model(*self, out@, stack@), pop_emit(m0, p));
                } else {
                    assert(close_group(pop_emit(m0, p), pos as int, p) == pop_emit(m0, p));
                }
                lemma_tail(old(out)@, o0, out@, old(self).w.len as int, w0.len as int, self.w.len as int);
            }
            match r1 {
                Ok(()) => {},
                Err(e) => {
                    return Err(e);
                },
            }
        }
        if self.sp == 0 {
            return Err(Error::UnexpectedToken { pos });
        }
        proof {
            assert(cg == model(*self, out@, stack@));
        }
        self.sp = self.sp - 1;
        self.nest = if self.nest > 0 { self.nest - 1 } else { 0 };
        proof {
            assert(ops_of(self.sp as nat, stack@) =~= cg.ops.drop_last());
        }
        let ghost e3 = Eng { ops: cg.ops.drop_last(), nest: dec(cg.nest), ..cg };
        if self.sp > 0 && entry_of(stack[self.sp - 1]).0 == opcodes::FUNC {
            let id = entry_of(stack[self.sp - 1]).1;
            self.sp = self.sp - 1;
            proof {
                assert(ops_of(self.sp as nat, stack@) =~= e3.ops.drop_last());
                assert(e3.ops.last() == (opcodes::FUNC, id));
            }
            let ghost w0 = self.w;
            let ghost o0 = out@;
            let r2 = self.w.emit2(out, opcodes::FUNC, id);
            proof {
                lemma_tail(old(out)@, o0, out@, old(self).w.len as int, w0.len as int, self.w.len as int);
            }
            match r2 {
                Ok(()) => {},
                Err(e) => {
                    return Err(e);
                },
            }
            self.log_pending = id == opcodes::funcs::LOG;
        }
        self.expect_operand = false;
        Ok(())
    }

    fn finish(&mut self, out: &mut [u8], stack: &[u8]) -> (r: Result<usize, Error>)
        requires
            well(*old(self), old(out)@, stack@),
        ensures
            well(*final(self), final(out)@, stack@),
            final(self).w.len >= old(self).w.len,
            final(out)@.len() == old(out)@.len(),
            final(out)@.subrange(final(self).w.len as int, final(out)@.len() as int) == old(out)@.subrange(
                final(self).w.len as int,
                old(out)@.len() as int,
            ),
            ({
                let want = finish(
                    model(*old(self), old(out)@, stack@),
                    params_of(*old(self), old(out)@.len() as nat, stack@.len() as nat),
                );
                &&& model(*final(self), final(out)@, stack@).sink.out =~= want.sink.out
                &&& match r {
                    Ok(n) => want.sink.err is None && n == final(self).w.len,
                    Err(e) => want.sink.err == Some(e),
                }
            }),
    {
        if self.expect_operand {
            return Err(Error::UnexpectedToken { pos: self.eof_pos });
        }
        let ghost p = params_of(*old(self), old(out)@.len() as nat, stack@.len() as nat);
        let ghost want = drain(model(*old(self), old(out)@, stack@), p);
        while self.sp > 0
            invariant
                well(*self, out@, stack@),
                same_params(*old(self), *self),
                self.w.len >= old(self).w.len,
                out@.len() == old(out)@.len(),
                out@.subrange(self.w.len as int, out@.len() as int) == old(out)@.subrange(
                    self.w.len as int,
                    old(out)@.len() as int,
                ),
                p == params_of(*self, out@.len() as nat, stack@.len() as nat),
                p == params_of(*old(self), old(out)@.len() as nat, stack@.len() as nat),
                want == drain(model(*self, out@, stack@), p),
                want == drain(model(*old(self), old(out)@, stack@), p),
                !old(self).expect_operand,
            decreases self.sp,
        {
            let t = entry_of(stack[self.sp - 1]).0;
            if t == TAG_LPAREN || t == opcodes::FUNC {
                return Err(Error::ExpectedRparen { pos: self.eof_pos });
            }
            let ghost m0 = model(*self, out@, stack@);
            let ghost w0 = self.w;
            let ghost o0 = out@;
            let r1 = self.pop_emit(out, stack);
            proof {
                assert(want == drain(pop_emit(m0, p), p));
                if r1 is Ok {
                    lemma_eng_ext(model(*self, out@, stack@), pop_emit(m0, p));
                } else {
                    assert(drain(pop_emit(m0, p), p) == pop_emit(m0, p));
                }
                lemma_tail(old(out)@, o0, out@, old(self).w.len as int, w0.len as int, self.w.len as int);
            }
            match r1 {
                Ok(()) => {},
                Err(e) => {
                    return Err(e);
                },
            }
        }
        Ok(self.w.finish())
    }

    /// A token that does not begin an operand.
    fn non_operand(&mut self, out: &mut [u8], stack: &mut [u8], pos: usize, tok: Tok) -> (r: Result<(), Error>)
        requires
            well(*old(self), old(out)@, old(stack)@),
        ensures
            well(*final(self), final(out)@, final(stack)@),
            same_params(*old(self), *final(self)),
            final(self).w.len >= old(self).w.len,
            final(out)@.len() == old(out)@.len(),
            final(stack)@.len() == old(stack)@.len(),
            final(out)@.subrange(final(self).w.len as int, final(out)@.len() as int) == old(out)@.subrange(
                final(self).w.len as int,
                old(out)@.len() as int,
            ),
            agrees(
                r,
                model(*final(self), final(out)@, final(stack)@),
                op_step(
                    model(*old(self), old(out)@, old(stack)@),
                    tok,
                    pos as int,
                    params_of(*old(self), old(out)@.len() as nat, old(stack)@.len() as nat),
                ),
            ),
    {
        proof {
            assert(old(out)@.subrange(self.w.len as int, old(out)@.len() as int) =~= old(out)@.subrange(self.w.len as int, old(out)@.len() as int));
        }
        match tok {
            Tok::Add => {
                if self.expect_operand {
                    return Ok(());
                }
                let r1 = self.infix(out, stack, opcodes::ops::ADD, 10, 11, true);
                proof {
                    lemma_tail(old(out)@, old(out)@, out@, old(self).w.len as int, old(self).w.len as int, self.w.len as int);
                }
                match r1 {
                    Ok(()) => {},
                    Err(e) => {
                        return Err(e);
                    },
                }
                self.expect_operand = true;
                Ok(())
            },
            Tok::Sub => {
                if self.expect_operand {
                    return self.push(out, stack, opcodes::ops::NEG, 25);
                }
                let r1 = self.infix(out, stack, opcodes::ops::SUB, 10, 11, true);
                proof {
                    lemma_tail(old(out)@, old(out)@, out@, old(self).w.len as int, old(self).w.len as int, self.w.len as int);
                }
                match r1 {
                    Ok(()) => {},
                    Err(e) => {
                        return Err(e);
                    },
                }
                self.expect_operand = true;
                Ok(())
            },
            Tok::RParen => {
                let r1 = self.rparen(out, stack, pos);
                proof {
                    lemma_tail(old(out)@, old(out)@, out@, old(self).w.len as int, old(self).w.len as int, self.w.len as int);
                }
                r1
            },
            Tok::Underscore => {
                if self.expect_operand || !self.log_pending {
                    return Err(Error::UnexpectedToken { pos });
                }
                let r1 = self.push(out, stack, TAG_LOGB, 41);
                match r1 {
                    Ok(()) => {},
                    Err(e) => {
                        return Err(e);
                    },
                }
                self.expect_operand = true;
                Ok(())
            },
            Tok::Mul | Tok::Div | Tok::Pow => {
                if self.expect_operand {
                    return Err(Error::UnexpectedToken { pos });
                }
                let (op, lbp, rbp, left) = match tok {
                    Tok::Mul => (opcodes::ops::MUL, 20u8, 21u8, true),
                    Tok::Div => (opcodes::ops::DIV, 20u8, 21u8, true),
                    _ => (opcodes::ops::POW, 30u8, 30u8, false),
                };
                let r1 = self.infix(out, stack, op, lbp, rbp, left);
                proof {
                    lemma_tail(old(out)@, old(out)@, out@, old(self).w.len as int, old(self).w.len as int, self.w.len as int);
                }
                match r1 {
                    Ok(()) => {},
                    Err(e) => {
                        return Err(e);
                    },
                }
                self.expect_operand = true;
                Ok(())
            },
            _ => Ok(()),
        }
    }

    /// One token (and, after a function name, its parenthesis).
    fn token<R: Resolve>(
        &mut self,
        res: &R,
        scanner: &mut Scanner,
        bytes: &[u8],
        out: &mut [u8],
        stack: &mut [u8],
        pos: usize,
        tok: Tok,
        Ghost(toks): Ghost<Seq<(int, Tok)>>,
        Ghost(lerr): Ghost<Option<Error>>,
        Ghost(i): Ghost<int>,
    ) -> (r: Result<(), Error>)
        requires
            well(*old(self), old(out)@, old(stack)@),
            0 <= i < toks.len(),
            toks[i] == (pos as int, tok),
            toks_ok(toks),
            old(scanner).pos <= bytes@.len(),
            lex_all(bytes@, old(scanner).pos as int) == (toks.subrange(i + 1, toks.len() as int), lerr),
        ensures
            well(*final(self), final(out)@, final(stack)@),
            same_params(*old(self), *final(self)),
            final(self).w.len >= old(self).w.len,
            final(out)@.len() == old(out)@.len(),
            final(stack)@.len() == old(stack)@.len(),
            final(out)@.subrange(final(self).w.len as int, final(out)@.len() as int) == old(out)@.subrange(
                final(self).w.len as int,
                old(out)@.len() as int,
            ),
            ({
                let st = step(
                    res,
                    params_of(*old(self), old(out)@.len() as nat, old(stack)@.len() as nat),
                    toks,
                    lerr,
                    i,
                    model(*old(self), old(out)@, old(stack)@),
                );
                &&& agrees(r, model(*final(self), final(out)@, final(stack)@), st.0)
                &&& i < st.1 <= toks.len()
                &&& (r is Ok ==> final(scanner).pos <= bytes@.len() && lex_all(bytes@, final(scanner).pos as int).0
                    =~= toks.subrange(st.1, toks.len() as int) && lex_all(bytes@, final(scanner).pos as int).1 == lerr)
            }),
    {
        let ghost p = params_of(*old(self), old(out)@.len() as nat, old(stack)@.len() as nat);
        let ghost m0 = model(*old(self), old(out)@, old(stack)@);
        let operand = tok.starts_operand();
        let ghost e1 = if operand && !m0.expect_operand {
            infix(m0, opcodes::ops::MUL, 20, 21, true, p)
        } else {
            m0
        };
        if operand && !self.expect_operand {
            let r1 = self.infix(out, stack, opcodes::ops::MUL, 20, 21, true);
            match r1 {
                Ok(()) => {},
                Err(e) => {
                    return Err(e);
                },
            }
            proof {
                lemma_eng_ext(model(*self, out@, stack@), e1);
            }
        }
        let ghost w1 = self.w;
        let ghost o1 = out@;
        assert(model(*self, out@, stack@) == e1);
        assert(p == params_of(*self, out@.len() as nat, stack@.len() as nat));
        let ghost want = step(res, p, toks, lerr, i, m0);
        if !operand {
            let r1 = self.non_operand(out, stack, pos, tok);
            proof {
                lemma_tail(old(out)@, o1, out@, old(self).w.len as int, w1.len as int, self.w.len as int);
                assert(want.0 == op_step(e1, tok, pos as int, p));
                assert(want.1 == i + 1);
                assert(agrees(r1, model(*self, out@, stack@), want.0));
                assert(scanner.pos == old(scanner).pos);
                assert(lex_all(bytes@, scanner.pos as int).0 =~= toks.subrange(want.1, toks.len() as int));
                assert(lex_all(bytes@, scanner.pos as int).1 == lerr);
            }
            r1
        } else {
            match tok {
                Tok::Num(v) => {
                    let ins = num_instruction(v);
                    let r1 = self.w.emit(out, ins.as_slice());
                    proof {
                        lemma_tail(old(out)@, o1, out@, old(self).w.len as int, w1.len as int, self.w.len as int);
                    }
                    match r1 {
                        Ok(()) => {},
                        Err(e) => {
                            return Err(e);
                        },
                    }
                    self.log_pending = false;
                    self.expect_operand = false;
                    Ok(())
                },
                Tok::Var(name) => {
                    proof {
                        assert(tok_ok(toks[i].1));
                    }
                    let r1 = self.emit_variable(res, out, stack, name);
                    proof {
                        lemma_tail(old(out)@, o1, out@, old(self).w.len as int, w1.len as int, self.w.len as int);
                    }
                    r1
                },
                Tok::Const(id) => {
                    let r1 = self.w.emit2(out, opcodes::CONST, id);
                    proof {
                        lemma_tail(old(out)@, o1, out@, old(self).w.len as int, w1.len as int, self.w.len as int);
                    }
                    match r1 {
                        Ok(()) => {},
                        Err(e) => {
                            return Err(e);
                        },
                    }
                    self.log_pending = false;
                    self.expect_operand = false;
                    Ok(())
                },
                Tok::Func(id) => {
                    proof {
                        lemma_lex_all_unfold(bytes@, scanner.pos as int);
                    }
                    let ghost sp0 = scanner.pos;
                    let nx = scanner.next(bytes);
                    match nx {
                        Ok(Some((p2, t2))) => {
                            proof {
                                let lt = lex_at(bytes@, sp0 as int);
                                if let Lexed::Token { start, tok: tk, end } = lt {
                                    lemma_seq_cons(toks, i + 1, (start, tk), lex_all(bytes@, end).0);
                                }
                            }
                            if t2 == Tok::LParen {
                                let r1 = self.push(out, stack, opcodes::FUNC, id);
                                match r1 {
                                    Ok(()) => {},
                                    Err(e) => {
                                        return Err(e);
                                    },
                                }
                                proof {
                                    lemma_eng_ext(model(*self, out@, stack@), push(e1, (opcodes::FUNC, id), p));
                                }
                                let r2 = self.push_frame_sentinel(out, stack);
                                match r2 {
                                    Ok(()) => {},
                                    Err(e) => {
                                        return Err(e);
                                    },
                                }
                                self.expect_operand = true;
                                proof {
                                    assert(want.1 == i + 2);
                                    assert(agrees(Ok(()), model(*self, out@, stack@), want.0));
                                    assert(lex_all(bytes@, scanner.pos as int).0 =~= toks.subrange(want.1, toks.len() as int));
                                    assert(lex_all(bytes@, scanner.pos as int).1 == lerr);
                                }
                                Ok(())
                            } else {
                                proof {
                                    assert(want.1 == i + 1);
                                    assert(want.0.sink.err == Some(Error::ExpectedLparen { pos: p2 }));
                                    assert(model(*self, out@, stack@).sink.out =~= want.0.sink.out);
                                }
                                Err(Error::ExpectedLparen { pos: p2 })
                            }
                        },
                        Ok(None) => {
                            proof {
                                assert(lex_at(bytes@, sp0 as int) is End);
                                assert(toks.subrange(i + 1, toks.len() as int).len() == 0);
                                assert(i + 1 == toks.len());
                                assert(lerr is None);
                                assert(want.1 == i + 1);
                                assert(want.0.sink.err == Some(Error::ExpectedLparen { pos: self.eof_pos }));
                                assert(model(*self, out@, stack@).sink.out =~= want.0.sink.out);
                            }
                            Err(Error::ExpectedLparen { pos: self.eof_pos })
                        },
                        Err(e) => {
                            proof {
                                assert(toks.subrange(i + 1, toks.len() as int).len() == 0);
                                assert(i + 1 == toks.len());
                                assert(want.1 == i + 1);
                                assert(want.0.sink.err == Some(e));
                                assert(model(*self, out@, stack@).sink.out =~= want.0.sink.out);
                            }
                            Err(e)
                        },
                    }
                },
                Tok::LParen => {
                    let r1 = self.push(out, stack, TAG_LPAREN, 0);
                    match r1 {
                        Ok(()) => {},
                        Err(e) => {
                            return Err(e);
                        },
                    }
                    self.expect_operand = true;
                    Ok(())
                },
                _ => Ok(()),
            }
        }
    }
}


/// Like [`compile_into`] with explicit substitution control: definition
/// bodies are compiled with `substitute = false` so they stay lazy.
///
/// A `stack` shorter than `cfg.scratch_len()` bytes is refused with
/// [`Error::ScratchTooSmall`] and left as it was; otherwise it holds the
/// operator stack and its contents on entry are irrelevant.
pub fn compile_into_ex<R: Resolve>(
    cfg: &Config,
    resolver: &R,
    src: &str,
    out: &mut [u8],
    stack: &mut [u8],
    substitute: bool,
) -> (r: Result<usize, Error>)
    ensures
        final(stack)@.len() == old(stack)@.len(),
        old(stack)@.len() < spec_scratch_len(cfg.spec_max_depth()) ==> final(stack)@ == old(stack)@,
        written_as(
            compile_spec(resolver, *cfg, src.spec_bytes(), old(out)@.len() as nat, old(stack)@.len() as nat, substitute),
            old(out)@,
            final(out)@,
            r,
        ),
{
    let need = cfg.scratch_len();
    if stack.len() < need {
        proof {
            assert(out@.subrange(0, 0) =~= Seq::<u8>::empty());
        }
        return Err(Error::ScratchTooSmall { needed: need, got: stack.len() });
    }
    let bytes = src.as_bytes();
    let mut scanner = Scanner::new();
    let mut eng = Engine {
        w: Writer::with_limit(cfg.get_output_limit()),
        sp: 0,
        nest: 1,
        max_depth: cfg.get_max_depth(),
        substitute,
        log_pending: false,
        expect_operand: true,
        eof_pos: bytes.len(),
    };
    let ghost lx = lex_all(bytes@, 0);
    let ghost toks = lx.0;
    let ghost lerr = lx.1;
    let ghost p = params_of(eng, out@.len() as nat, stack@.len() as nat);
    let ghost want = run(resolver, p, toks, lerr, 0, initial_eng());
    let ghost mut i: int = 0;
    proof {
        lemma_lex_all_ok(bytes@, 0);
        assert(toks.subrange(0, toks.len() as int) =~= toks);
        assert(ops_of(0, stack@) =~= Seq::<(u8, u8)>::empty());
        assert(out@.subrange(0, 0) =~= Seq::<u8>::empty());
        lemma_eng_ext(model(eng, out@, stack@), initial_eng());
        assert(compile_spec(resolver, *cfg, src.spec_bytes(), old(out)@.len() as nat, old(stack)@.len() as nat, substitute) == want.sink);
    }
    loop
        invariant
            compile_spec(resolver, *cfg, src.spec_bytes(), old(out)@.len() as nat, old(stack)@.len() as nat, substitute) == want.sink,
            old(stack)@.len() >= spec_scratch_len(cfg.spec_max_depth()),
            well(eng, out@, stack@),
            same_params(eng, eng),
            eng.w.limit == cfg.spec_output_limit(),
            eng.max_depth == cfg.spec_max_depth(),
            eng.substitute == substitute,
            eng.eof_pos == bytes@.len(),
            bytes@ == src.spec_bytes(),
                p == params_of(eng, out@.len() as nat, stack@.len() as nat),
            out@.len() == old(out)@.len(),
            stack@.len() == old(stack)@.len(),
            out@.subrange(eng.w.len as int, out@.len() as int) == old(out)@.subrange(
                eng.w.len as int,
                old(out)@.len() as int,
            ),
            toks_ok(toks),
            0 <= i <= toks.len(),
            scanner.pos <= bytes@.len(),
            lex_all(bytes@, scanner.pos as int).0 =~= toks.subrange(i, toks.len() as int),
            lex_all(bytes@, scanner.pos as int).1 == lerr,
            want == run(resolver, p, toks, lerr, i, model(eng, out@, stack@)),
            model(eng, out@, stack@).sink.err is None,
        decreases toks.len() - i,
    {
        proof {
            lemma_lex_all_unfold(bytes@, scanner.pos as int);
        }
        let ghost sp0 = scanner.pos;
        let nx = scanner.next(bytes);
        match nx {
            Err(e) => {
                proof {
                    assert(toks.subrange(i, toks.len() as int).len() == 0);
                    assert(i == toks.len());
                    assert(lerr == Some(e));
                    let m = model(eng, out@, stack@);
                    assert(want == e_fail(m, e));
                    assert(want.sink.out == out@.subrange(0, eng.w.len as int));
                }
                return Err(e);
            },
            Ok(None) => {
                proof {
                    assert(toks.subrange(i, toks.len() as int).len() == 0);
                    assert(i == toks.len());
                }
                let ghost m0 = model(eng, out@, stack@);
                let ghost w0 = eng.w;
                let ghost o0 = out@;
                let r = eng.finish(out, stack);
                proof {
                    assert(want == finish(m0, p));
                    lemma_tail(old(out)@, o0, out@, w0.len as int, w0.len as int, eng.w.len as int);
                    assert(want.sink.out =~= out@.subrange(0, eng.w.len as int));
                }
                return r;
            },
            Ok(Some((pos, tok))) => {
                proof {
                    let lt = lex_at(bytes@, sp0 as int);
                    if let Lexed::Token { start, tok: tk, end } = lt {
                        lemma_seq_cons(toks, i, (start, tk), lex_all(bytes@, end).0);
                    }
                }
                let ghost m0 = model(eng, out@, stack@);
                let ghost w0 = eng.w;
                let ghost o0 = out@;
                let r = eng.token(resolver, &mut scanner, bytes, out, stack, pos, tok, Ghost(toks), Ghost(lerr), Ghost(i));
                let ghost st = step(resolver, p, toks, lerr, i, m0);
                proof {
                    lemma_tail(old(out)@, o0, out@, w0.len as int, w0.len as int, eng.w.len as int);
                }
                match r {
                    Err(e) => {
                        proof {
                            assert(want == run(resolver, p, toks, lerr, st.1, st.0));
                            assert(st.0.sink.err == Some(e));
                            assert(want == st.0);
                            assert(want.sink.out =~= out@.subrange(0, eng.w.len as int));
                        }
                        return Err(e);
                    },
                    Ok(()) => {
                        proof {
                            lemma_eng_ext(model(eng, out@, stack@), st.0);
                            i = st.1;
                        }
                    },
                }
            },
        }
    }
}

/// Stateless compilation under an explicit [`Config`], substituting
/// defined variables.
pub fn compile_into<R: Resolve>(
    cfg: &Config,
    resolver: &R,
    src: &str,
    out: &mut [u8],
    stack: &mut [u8],
) -> (r: Result<usize, Error>)
    ensures
        final(stack)@.len() == old(stack)@.len(),
        old(stack)@.len() < spec_scratch_len(cfg.spec_max_depth()) ==> final(stack)@ == old(stack)@,
        written_as(
            compile_spec(resolver, *cfg, src.spec_bytes(), old(out)@.len() as nat, old(stack)@.len() as nat, true),
            old(out)@,
            final(out)@,
            r,
        ),
{
    compile_into_ex(cfg, resolver, src, out, stack, true)
}

/// Convenience entry point with the default [`Config`], no variables, and
/// an operator stack sized for the default depth.
pub fn parse_into(src: &str, out: &mut [u8]) -> (r: Result<usize, Error>)
    ensures
        written_as(
            compile_spec(&NoResolve, Config::spec_default(), src.spec_bytes(), old(out)@.len() as nat, 544, true),
            old(out)@,
            final(out)@,
            r,
        ),
{
    let mut stack = [0u8; 544];
    let cfg = Config::new();
    proof {
        assert(cfg == Config::spec_default());
    }
    compile_into(&cfg, &NoResolve, src, out, &mut stack)
}

} // verus!
