//! Variable-body expansion: substitution with constant solving.
//!
//! Expanding a stored definition takes three walks over its stream:
//!
//! 1. an acyclicity walk that follows every defined-variable reference
//!    and rejects any reference back into the chain of definitions being
//!    expanded, before anything is emitted;
//! 2. a fold attempt, interpreting the postfix stream abstractly: when
//!    every leaf is a number (literals, or definitions that fold) the
//!    whole definition collapses to one `NUM` instruction, computed with
//!    IEEE binary64 arithmetic; functions and constants stay symbolic;
//! 3. otherwise a verbatim copy, expanding nested definitions in place.
use vstd::prelude::*;
use crate::error::Error;
use crate::fpu::{add_f64, div_f64, fadd, fdiv, fmul, fneg, fold_pow, fsub, mul_f64, neg_f64, pow_fold, sub_f64};
use crate::lex::is_lower;
use crate::opcodes;
use crate::resolve::Resolve;
use crate::wire::{le_value, num_ins, num_instruction, read_le8};
use crate::writer::{emit, fail, lemma_tail, Lim, Sink, Writer, sink_of, wrote, outcome, cap_of};

verus! {

/// Fold-stack depth cap: deeper streams stay symbolic.
pub const FOLD_CAP: usize = 64;

/// An abstract value: a known number (its encoding) or a symbol.
#[derive(Clone, Copy)]
pub enum Val {
    Num(u64),
    Sym,
}

/// The chain bit of a variable letter.
pub open spec fn bit_of(v: u8) -> u32 {
    if is_lower(v) {
        1u32 << ((v - 97) as u32)
    } else {
        0
    }
}

/// Letters not yet in the chain, as a number that shrinks as the chain
/// grows.
pub open spec fn chain_measure(chain: u32) -> nat {
    ((!chain) & 0x3FFFFFFu32) as nat
}

pub proof fn lemma_chain_grows(chain: u32, v: u8)
    requires
        is_lower(v),
        chain & bit_of(v) == 0,
    ensures
        chain_measure(chain | bit_of(v)) < chain_measure(chain),
        bit_of(v) != 0,
{
    let k: u32 = (v - 97) as u32;
    assert(k < 26);
    assert(bit_of(v) == 1u32 << k);
    assert(k < 26 && chain & (1u32 << k) == 0 ==> ((!(chain | (1u32 << k))) & 0x3FFFFFFu32) < ((!chain) & 0x3FFFFFFu32)) by (bit_vector);
    assert(k < 26 ==> (1u32 << k) != 0) by (bit_vector);
}

/// Width of the instruction starting with opcode `op`.
#[verifier::inline]
pub open spec fn ins_width(op: u8) -> int {
    if op == opcodes::NUM {
        9
    } else if op == opcodes::VAR || op == opcodes::CONST || op == opcodes::FUNC {
        2
    } else {
        1
    }
}

/// Every `VAR` instruction of the stream from `i` names a letter.
pub open spec fn vars_ok(b: Seq<u8>, i: int) -> bool
    decreases b.len() + 9 - i,
{
    if i < 0 || i >= b.len() {
        true
    } else {
        &&& (b[i] == opcodes::VAR && i + 1 < b.len() ==> is_lower(b[i + 1]))
        &&& vars_ok(b, i + ins_width(b[i]))
    }
}

/// The acyclicity walk over definitions `defs`: `Some(e)` when a
/// reference leads back into the chain.
pub open spec fn cycle_walk(defs: spec_fn(u8) -> Option<Seq<u8>>, body: Seq<u8>, chain: u32, i: int) -> Option<Error>
    decreases chain_measure(chain), body.len() + 9 - i,
{
    if i < 0 || i >= body.len() {
        None
    } else {
        let op = body[i];
        if op == opcodes::VAR {
            if i + 1 >= body.len() {
                Some(Error::MalformedRpn { offset: #[verifier::truncate] (i as usize) })
            } else {
                let v = body[i + 1];
                if !is_lower(v) {
                    Some(Error::MalformedRpn { offset: #[verifier::truncate] (i as usize) })
                } else if chain & bit_of(v) != 0 {
                    Some(Error::RecursiveDefinition { var: v })
                } else {
                    match defs(v) {
                        Some(b) => {
                            proof {
                                lemma_chain_grows(chain, v);
                            }
                            match cycle_walk(defs, b, chain | bit_of(v), 0) {
                                Some(e) => Some(e),
                                None => cycle_walk(defs, body, chain, i + 2),
                            }
                        },
                        None => cycle_walk(defs, body, chain, i + 2),
                    }
                }
            }
        } else {
            cycle_walk(defs, body, chain, i + ins_width(op))
        }
    }
}

/// The definitions a resolver holds.
pub open spec fn defs_of<R: Resolve>(res: &R) -> spec_fn(u8) -> Option<Seq<u8>> {
    |v: u8| res.spec_body(v)
}

/// The acyclicity walk over a resolver's definitions.
pub open spec fn chk<R: Resolve>(res: &R, body: Seq<u8>, chain: u32, i: int) -> Option<Error> {
    cycle_walk(defs_of(res), body, chain, i)
}

/// Binary operator folding on two known numbers.
pub open spec fn fold_binop(op: u8, a: u64, b: u64) -> Option<u64> {
    if op == opcodes::ADD {
        Some(fadd(a, b))
    } else if op == opcodes::SUB {
        Some(fsub(a, b))
    } else if op == opcodes::MUL {
        Some(fmul(a, b))
    } else if op == opcodes::DIV {
        Some(fdiv(a, b))
    } else {
        fold_pow(a, b)
    }
}

pub open spec fn is_binop(op: u8) -> bool {
    op == opcodes::ADD || op == opcodes::SUB || op == opcodes::MUL || op == opcodes::DIV || op
        == opcodes::POW
}

/// The abstract interpretation of the stream from `i` with fold stack
/// `st`: `Some(bits)` when the whole stream computes one known number.
pub open spec fn fold_at<R: Resolve>(res: &R, body: Seq<u8>, chain: u32, i: int, st: Seq<Val>) -> Option<u64>
    decreases chain_measure(chain), body.len() - i,
{
    if i < 0 || i >= body.len() {
        if st.len() == 1 {
            match st[0] {
                Val::Num(v) => Some(v),
                Val::Sym => None,
            }
        } else {
            None
        }
    } else {
        let op = body[i];
        if op == opcodes::NUM {
            if i + 9 > body.len() || st.len() >= FOLD_CAP {
                None
            } else {
                let v = le_value(body.subrange(i + 1, i + 9)) as u64;
                fold_at(res, body, chain, i + 9, st.push(Val::Num(v)))
            }
        } else if op == opcodes::VAR {
            if i + 1 >= body.len() {
                None
            } else {
                let v = body[i + 1];
                if !is_lower(v) || chain & bit_of(v) != 0 {
                    None
                } else {
                    let val = match res.spec_body(v) {
                        Some(b) => {
                            proof {
                                lemma_chain_grows(chain, v);
                            }
                            match fold_at(res, b, chain | bit_of(v), 0, Seq::empty()) {
                                Some(x) => Val::Num(x),
                                None => Val::Sym,
                            }
                        },
                        None => Val::Sym,
                    };
                    if st.len() >= FOLD_CAP {
                        None
                    } else {
                        fold_at(res, body, chain, i + 2, st.push(val))
                    }
                }
            }
        } else if op == opcodes::CONST {
            None
        } else if op == opcodes::FUNC {
            if i + 1 >= body.len() {
                None
            } else {
                let arity: int = if body[i + 1] == opcodes::funcs::LOGB { 2 } else { 1 };
                if st.len() < arity {
                    None
                } else {
                    fold_at(res, body, chain, i + 2, st.subrange(0, st.len() - arity).push(Val::Sym))
                }
            }
        } else {
            if st.len() == 0 {
                None
            } else {
                let r = st.last();
                let st1 = st.drop_last();
                if op == opcodes::NEG {
                    let nv = match r {
                        Val::Num(x) => Val::Num(fneg(x)),
                        Val::Sym => Val::Sym,
                    };
                    fold_at(res, body, chain, i + 1, st1.push(nv))
                } else if is_binop(op) {
                    if st1.len() == 0 {
                        None
                    } else {
                        let l = st1.last();
                        let st2 = st1.drop_last();
                        match (l, r) {
                            (Val::Num(a), Val::Num(b)) => match fold_binop(op, a, b) {
                                Some(x) => fold_at(res, body, chain, i + 1, st2.push(Val::Num(x))),
                                None => None,
                            },
                            _ => fold_at(res, body, chain, i + 1, st2.push(Val::Sym)),
                        }
                    }
                } else {
                    None
                }
            }
        }
    }
}

/// Expanding a definition body in place of a variable whose chain is
/// `chain`: rejected when a reference leads back into the chain, one
/// `NUM` instruction when it folds, a verbatim expanding copy otherwise.
pub open spec fn expand<R: Resolve>(res: &R, body: Seq<u8>, chain: u32, s: Sink, l: Lim) -> Sink
    decreases chain_measure(chain), 1int, 0int,
{
    if s.err is Some {
        s
    } else {
        match chk(res, body, chain, 0) {
            Some(e) => fail(s, e),
            None => match fold_at(res, body, chain, 0, Seq::empty()) {
                Some(v) => emit(s, num_ins(v), l),
                None => copy(res, body, chain, 0, s, l),
            },
        }
    }
}

/// The verbatim copy from position `i`, expanding defined variables.
pub open spec fn copy<R: Resolve>(res: &R, body: Seq<u8>, chain: u32, i: int, s: Sink, l: Lim) -> Sink
    decreases chain_measure(chain), 0int, body.len() - i,
{
    if s.err is Some || i < 0 || i >= body.len() {
        s
    } else {
        let op = body[i];
        if op == opcodes::NUM {
            if i + 9 > body.len() {
                fail(s, Error::MalformedRpn { offset: #[verifier::truncate] (i as usize) })
            } else {
                copy(res, body, chain, i + 9, emit(s, body.subrange(i, i + 9), l), l)
            }
        } else if op == opcodes::VAR {
            if i + 1 >= body.len() {
                fail(s, Error::MalformedRpn { offset: #[verifier::truncate] (i as usize) })
            } else {
                let v = body[i + 1];
                if !is_lower(v) {
                    fail(s, Error::MalformedRpn { offset: #[verifier::truncate] (i as usize) })
                } else {
                    match res.spec_body(v) {
                        Some(b) => {
                            if chain & bit_of(v) != 0 {
                                fail(s, Error::RecursiveDefinition { var: v })
                            } else {
                                proof {
                                    lemma_chain_grows(chain, v);
                                }
                                copy(res, body, chain, i + 2, expand(res, b, chain | bit_of(v), s, l), l)
                            }
                        },
                        None => copy(res, body, chain, i + 2, emit(s, seq![opcodes::VAR, v], l), l),
                    }
                }
            }
        } else if op == opcodes::CONST || op == opcodes::FUNC {
            if i + 2 > body.len() {
                fail(s, Error::MalformedRpn { offset: #[verifier::truncate] (i as usize) })
            } else {
                copy(res, body, chain, i + 2, emit(s, body.subrange(i, i + 2), l), l)
            }
        } else {
            copy(res, body, chain, i + 1, emit(s, seq![op], l), l)
        }
    }
}


/// Sink `t` extends `s` and stays within capacity when `s` did.
pub open spec fn grows(s: Sink, t: Sink, l: Lim) -> bool {
    &&& s.out.len() <= t.out.len()
    &&& (s.out.len() <= cap_of(l) ==> t.out.len() <= cap_of(l))
}

pub proof fn lemma_expand_grows<R: Resolve>(res: &R, body: Seq<u8>, chain: u32, s: Sink, l: Lim)
    ensures
        grows(s, expand(res, body, chain, s, l), l),
    decreases chain_measure(chain), 1int, 0int,
{
    if s.err is None && chk(res, body, chain, 0) is None && fold_at(res, body, chain, 0, Seq::empty()) is None {
        lemma_copy_grows(res, body, chain, 0, s, l);
    }
}

pub proof fn lemma_copy_grows<R: Resolve>(res: &R, body: Seq<u8>, chain: u32, i: int, s: Sink, l: Lim)
    ensures
        grows(s, copy(res, body, chain, i, s, l), l),
    decreases chain_measure(chain), 0int, body.len() - i,
{
    if s.err is Some || i < 0 || i >= body.len() {
    } else {
        let op = body[i];
        if op == opcodes::NUM {
            if i + 9 <= body.len() {
                lemma_copy_grows(res, body, chain, i + 9, emit(s, body.subrange(i, i + 9), l), l);
            }
        } else if op == opcodes::VAR {
            if i + 1 < body.len() && is_lower(body[i + 1]) {
                let v = body[i + 1];
                match res.spec_body(v) {
                    Some(b) => {
                        if chain & bit_of(v) == 0 {
                            lemma_chain_grows(chain, v);
                            let s2 = expand(res, b, chain | bit_of(v), s, l);
                            lemma_expand_grows(res, b, chain | bit_of(v), s, l);
                            lemma_copy_grows(res, body, chain, i + 2, s2, l);
                        }
                    },
                    None => {
                        lemma_copy_grows(res, body, chain, i + 2, emit(s, seq![opcodes::VAR, v], l), l);
                    },
                }
            }
        } else if op == opcodes::CONST || op == opcodes::FUNC {
            if i + 2 <= body.len() {
                lemma_copy_grows(res, body, chain, i + 2, emit(s, body.subrange(i, i + 2), l), l);
            }
        } else {
            lemma_copy_grows(res, body, chain, i + 1, emit(s, seq![op], l), l);
        }
    }
}

/// The chain bit of a letter, computed.
fn letter_bit(v: u8) -> (r: u32)
    requires
        is_lower(v),
    ensures
        r == bit_of(v),
{
    1u32 << ((v - 97) as u32)
}

/// Width of an instruction, computed.
fn width(op: u8) -> (r: usize)
    ensures
        r == ins_width(op),
{
    if op == opcodes::NUM {
        9
    } else if op == opcodes::VAR || op == opcodes::CONST || op == opcodes::FUNC {
        2
    } else {
        1
    }
}

/// Follow every defined-variable reference of `body`; a reference into
/// `chain` is a recursive definition.
pub fn check_acyclic<R: Resolve>(body: &[u8], res: &R, chain: u32) -> (r: Result<(), Error>)
    ensures
        match chk(res, body@, chain, 0) {
            Some(e) => r == Err::<(), Error>(e),
            None => r is Ok,
        },
    decreases chain_measure(chain),
{
    let mut i: usize = 0;
    while i < body.len()
        invariant
            i <= body@.len(),
            chk(res, body@, chain, 0) == chk(res, body@, chain, i as int),
        decreases body@.len() - i,
    {
        let op = body[i];
        if op == opcodes::VAR {
            if i + 1 >= body.len() {
                return Err(Error::MalformedRpn { offset: i });
            }
            let v = body[i + 1];
            if !(97 <= v && v <= 122) {
                return Err(Error::MalformedRpn { offset: i });
            }
            let bit = letter_bit(v);
            if chain & bit != 0 {
                return Err(Error::RecursiveDefinition { var: v });
            }
            match res.body(v) {
                Some(b) => {
                    proof {
                        lemma_chain_grows(chain, v);
                    }
                    match check_acyclic(b, res, chain | bit) {
                        Ok(()) => {},
                        Err(e) => {
                            return Err(e);
                        },
                    }
                    proof {
                        assert(chk(res, body@, chain, i as int) == chk(res, body@, chain, i + 2));
                    }
                },
                None => {
                    proof {
                        assert(chk(res, body@, chain, i as int) == chk(res, body@, chain, i + 2));
                    }
                },
            }
            i = i + 2;
        } else {
            let w = width(op);
            proof {
                assert(chk(res, body@, chain, i as int) == chk(res, body@, chain, i + w));
            }
            if body.len() - i <= w {
                i = body.len();
            } else {
                i = i + w;
            }
        }
    }
    Ok(())
}

/// Binary operator folding, computed.
fn fold_binop_exec(op: u8, a: u64, b: u64) -> (r: Option<u64>)
    ensures
        r == fold_binop(op, a, b),
{
    if op == opcodes::ADD {
        Some(add_f64(a, b))
    } else if op == opcodes::SUB {
        Some(sub_f64(a, b))
    } else if op == opcodes::MUL {
        Some(mul_f64(a, b))
    } else if op == opcodes::DIV {
        Some(div_f64(a, b))
    } else {
        pow_fold(a, b)
    }
}

/// The abstract interpretation of `body`: `Some(bits)` when the whole
/// stream computes one known number.
pub fn try_fold<R: Resolve>(body: &[u8], res: &R, chain: u32) -> (r: Option<u64>)
    ensures
        r == fold_at(res, body@, chain, 0, Seq::empty()),
    decreases chain_measure(chain),
{
    let mut st = [Val::Sym; FOLD_CAP];
    let mut sp: usize = 0;
    let mut i: usize = 0;
    proof {
        assert(st@.subrange(0, 0) =~= Seq::<Val>::empty());
    }
    while i < body.len()
        invariant
            i <= body@.len(),
            sp <= FOLD_CAP,
            fold_at(res, body@, chain, 0, Seq::empty()) == fold_at(res, body@, chain, i as int, st@.subrange(0, sp as int)),
        decreases body@.len() - i,
    {
        let ghost s0 = st@.subrange(0, sp as int);
        let op = body[i];
        if op == opcodes::NUM {
            if body.len() - i < 9 || sp >= FOLD_CAP {
                return None;
            }
            let v = read_le8(body, i + 1);
            st[sp] = Val::Num(v);
            sp = sp + 1;
            proof {
                assert(st@.subrange(0, sp as int) =~= s0.push(Val::Num(v)));
            }
            i = i + 9;
        } else if op == opcodes::VAR {
            if i + 1 >= body.len() {
                return None;
            }
            let v = body[i + 1];
            if !(97 <= v && v <= 122) {
                return None;
            }
            let bit = letter_bit(v);
            if chain & bit != 0 {
                return None;
            }
            let val = match res.body(v) {
                Some(b) => {
                    proof {
                        lemma_chain_grows(chain, v);
                    }
                    match try_fold(b, res, chain | bit) {
                        Some(x) => Val::Num(x),
                        None => Val::Sym,
                    }
                },
                None => Val::Sym,
            };
            if sp >= FOLD_CAP {
                return None;
            }
            st[sp] = val;
            sp = sp + 1;
            proof {
                assert(st@.subrange(0, sp as int) =~= s0.push(val));
            }
            i = i + 2;
        } else if op == opcodes::CONST {
            return None;
        } else if op == opcodes::FUNC {
            if i + 1 >= body.len() {
                return None;
            }
            let arity: usize = if body[i + 1] == opcodes::funcs::LOGB { 2 } else { 1 };
            if sp < arity {
                return None;
            }
            sp = sp - arity;
            st[sp] = Val::Sym;
            sp = sp + 1;
            proof {
                assert(st@.subrange(0, sp as int) =~= s0.subrange(0, s0.len() - arity).push(Val::Sym));
            }
            i = i + 2;
        } else {
            if sp == 0 {
                return None;
            }
            let r = st[sp - 1];
            if op == opcodes::NEG {
                let nv = match r {
                    Val::Num(x) => Val::Num(neg_f64(x)),
                    Val::Sym => Val::Sym,
                };
                st[sp - 1] = nv;
                proof {
                    assert(st@.subrange(0, sp as int) =~= s0.drop_last().push(nv));
                }
                i = i + 1;
            } else if op == opcodes::ADD || op == opcodes::SUB || op == opcodes::MUL || op == opcodes::DIV
                || op == opcodes::POW {
                if sp < 2 {
                    return None;
                }
                let l = st[sp - 2];
                let nv = match (l, r) {
                    (Val::Num(a), Val::Num(b)) => match fold_binop_exec(op, a, b) {
                        Some(x) => Val::Num(x),
                        None => {
                            return None;
                        },
                    },
                    _ => Val::Sym,
                };
                sp = sp - 1;
                st[sp - 1] = nv;
                proof {
                    assert(st@.subrange(0, sp as int) =~= s0.drop_last().drop_last().push(nv));
                }
                i = i + 1;
            } else {
                return None;
            }
        }
    }
    if sp == 1 {
        match st[0] {
            Val::Num(v) => Some(v),
            Val::Sym => None,
        }
    } else {
        None
    }
}

/// Emit `body` in place of a variable atom whose chain is `chain`:
/// rejected when a reference leads back into the chain, folded to one
/// `NUM` instruction when fully known, copied with nested expansion
/// otherwise.
pub fn emit_var_body<R: Resolve>(body: &[u8], res: &R, w: &mut Writer, out: &mut [u8], chain: u32) -> (r: Result<(), Error>)
    requires
        old(w).len <= old(out)@.len(),
    ensures
        ({
            let s1 = expand(res, body@, chain, sink_of(*old(w), old(out)@), old(w).lim(old(out)@.len() as nat));
            &&& wrote(*old(w), old(out)@, *final(w), final(out)@, s1)
            &&& outcome(r, s1)
        }),
    decreases chain_measure(chain), 1nat,
{
    match check_acyclic(body, res, chain) {
        Ok(()) => {},
        Err(e) => {
            proof {
                assert(out@.subrange(w.len as int, out@.len() as int) =~= out@.subrange(w.len as int, out@.len() as int));
            }
            return Err(e);
        },
    }
    match try_fold(body, res, chain) {
        Some(v) => {
            let ins = num_instruction(v);
            w.emit(out, ins.as_slice())
        },
        None => copy_stream(body, res, w, out, chain),
    }
}

/// The verbatim copy of `body`, expanding defined variables.
fn copy_stream<R: Resolve>(body: &[u8], res: &R, w: &mut Writer, out: &mut [u8], chain: u32) -> (r: Result<(), Error>)
    requires
        old(w).len <= old(out)@.len(),
    ensures
        ({
            let s1 = copy(res, body@, chain, 0, sink_of(*old(w), old(out)@), old(w).lim(old(out)@.len() as nat));
            &&& wrote(*old(w), old(out)@, *final(w), final(out)@, s1)
            &&& outcome(r, s1)
        }),
    decreases chain_measure(chain), 0nat,
{
    let ghost l = w.lim(out@.len() as nat);
    let ghost want = copy(res, body@, chain, 0, sink_of(*w, out@), l);
    let mut i: usize = 0;
    proof {
        assert(out@.subrange(w.len as int, out@.len() as int) =~= old(out)@.subrange(w.len as int, old(out)@.len() as int));
    }
    while i < body.len()
        invariant
            i <= body@.len(),
            w.len <= out@.len(),
            out@.len() == old(out)@.len(),
            w.limit == old(w).limit,
            l == w.lim(out@.len() as nat),
            w.len >= old(w).len,
            out@.subrange(w.len as int, out@.len() as int) == old(out)@.subrange(w.len as int, old(out)@.len() as int),
            want == copy(res, body@, chain, i as int, sink_of(*w, out@), l),
            want == copy(res, body@, chain, 0, sink_of(*old(w), old(out)@), old(w).lim(old(out)@.len() as nat)),
        decreases body@.len() - i,
    {
        let op = body[i];
        let ghost w0 = *w;
        let ghost o0 = out@;
        if op == opcodes::NUM {
            if body.len() - i < 9 {
                return Err(Error::MalformedRpn { offset: i });
            }
            let r1 = w.emit_from(out, body, i, 9);
            proof {
                lemma_tail(old(out)@, o0, out@, old(w).len as int, w0.len as int, w.len as int);
                let s1 = emit(sink_of(w0, o0), body@.subrange(i as int, i + 9), l);
                assert(want == copy(res, body@, chain, i + 9, s1, l));
                if r1 is Err {
                    assert(want == s1);
                }
            }
            match r1 {
                Ok(()) => {},
                Err(e) => {
                    return Err(e);
                },
            }
            i = i + 9;
        } else if op == opcodes::VAR {
            if i + 1 >= body.len() {
                return Err(Error::MalformedRpn { offset: i });
            }
            let v = body[i + 1];
            if !(97 <= v && v <= 122) {
                return Err(Error::MalformedRpn { offset: i });
            }
            match res.body(v) {
                Some(b) => {
                    let bit = letter_bit(v);
                    if chain & bit != 0 {
                        return Err(Error::RecursiveDefinition { var: v });
                    }
                    proof {
                        lemma_chain_grows(chain, v);
                    }
                    proof {
                        lemma_expand_grows(res, b@, chain | bit, sink_of(w0, o0), l);
                    }
                    let r1 = emit_var_body(b, res, w, out, chain | bit);
                    proof {
                        lemma_tail(old(out)@, o0, out@, old(w).len as int, w0.len as int, w.len as int);
                        let s1 = expand(res, b@, chain | bit, sink_of(w0, o0), l);
                        assert(want == copy(res, body@, chain, i + 2, s1, l));
                        if r1 is Err {
                            assert(want == s1);
                        }
                    }
                    match r1 {
                        Ok(()) => {},
                        Err(e) => {
                            return Err(e);
                        },
                    }
                },
                None => {
                    let r1 = w.emit2(out, opcodes::VAR, v);
                    proof {
                        lemma_tail(old(out)@, o0, out@, old(w).len as int, w0.len as int, w.len as int);
                        let s1 = emit(sink_of(w0, o0), seq![opcodes::VAR, v], l);
                        assert(want == copy(res, body@, chain, i + 2, s1, l));
                        if r1 is Err {
                            assert(want == s1);
                        }
                    }
                    match r1 {
                        Ok(()) => {},
                        Err(e) => {
                            return Err(e);
                        },
                    }
                },
            }
            i = i + 2;
        } else if op == opcodes::CONST || op == opcodes::FUNC {
            if body.len() - i < 2 {
                return Err(Error::MalformedRpn { offset: i });
            }
            let r1 = w.emit_from(out, body, i, 2);
            proof {
                lemma_tail(old(out)@, o0, out@, old(w).len as int, w0.len as int, w.len as int);
                let s1 = emit(sink_of(w0, o0), body@.subrange(i as int, i + 2), l);
                assert(want == copy(res, body@, chain, i + 2, s1, l));
                if r1 is Err {
                    assert(want == s1);
                }
            }
            match r1 {
                Ok(()) => {},
                Err(e) => {
                    return Err(e);
                },
            }
            i = i + 2;
        } else {
            let r1 = w.emit1(out, op);
            proof {
                lemma_tail(old(out)@, o0, out@, old(w).len as int, w0.len as int, w.len as int);
                let s1 = emit(sink_of(w0, o0), seq![op], l);
                assert(want == copy(res, body@, chain, i + 1, s1, l));
                if r1 is Err {
                    assert(want == s1);
                }
            }
            match r1 {
                Ok(()) => {},
                Err(e) => {
                    return Err(e);
                },
            }
            i = i + 1;
        }
    }
    Ok(())
}

} // verus!
