//! Bytecode evaluation: the calculator half.
//!
//! A postfix stack machine over a caller-provided value stack, on
//! binary64 encodings (`u64` bit patterns). Arithmetic (`+ - * / neg`,
//! and `^` with an integral exponent of magnitude at most 32) is exact
//! IEEE round-to-nearest-even; unset variables read as `NaN`.
//!
//! Transcendental functions and general powers need a math library.
//! [`eval`] reports them as [`Error::FuncUnsupportedOnTarget`]; the
//! resumable [`eval_run`] / [`eval_resume`] pair instead stops and asks
//! its caller for the value, then carries on.
use vstd::prelude::*;
use crate::binary64::NAN_BITS;
use crate::error::Error;
use crate::fpu::{add_f64, div_f64, fadd, fdiv, fmul, fneg, fold_pow, fsub, mul_f64, neg_f64, pow_fold, sub_f64};
use crate::lex::is_lower;
use crate::opcodes;
use crate::wire::{le_value, read_le8};

verus! {

/// Encoding of Euler's number.
pub const E_BITS: u64 = 0x4005BF0A8B145769;

/// Encoding of pi.
pub const PI_BITS: u64 = 0x400921FB54442D18;

/// Variable values by letter, as binary64 encodings.
#[derive(Clone, Copy, Debug)]
pub struct Vars {
    vals: [u64; 26],
}

impl View for Vars {
    type V = Seq<u64>;

    closed spec fn view(&self) -> Seq<u64> {
        self.vals@
    }
}

impl Vars {
    /// Every letter has a value.
    pub proof fn lemma_len(&self)
        ensures
            self@.len() == 26,
    {
    }

    /// All letters unset (`NaN`).
    pub fn new() -> (v: Self)
        ensures
            v@ == Seq::new(26, |i: int| NAN_BITS),
    {
        let v = Vars { vals: [NAN_BITS; 26] };
        proof {
            assert(v@ =~= Seq::new(26, |i: int| NAN_BITS));
        }
        v
    }

    /// All letters zero.
    pub fn zeroed() -> (v: Self)
        ensures
            v@ == Seq::new(26, |i: int| 0u64),
    {
        let v = Vars { vals: [0u64; 26] };
        proof {
            assert(v@ =~= Seq::new(26, |i: int| 0u64));
        }
        v
    }

    /// Set letter `var` (`a..=z`) to the encoding `value`; false, and no
    /// change, for anything else.
    pub fn set(&mut self, var: u8, value: u64) -> (r: bool)
        ensures
            r == is_lower(var),
            final(self)@ == (if r { old(self)@.update(var - 97, value) } else { old(self)@ }),
    {
        if 97 <= var && var <= 122 {
            let k = (var - 97) as usize;
            self.vals[k] = value;
            proof {
                assert(final(self)@ =~= old(self)@.update(var - 97, value));
            }
            true
        } else {
            false
        }
    }

    /// The value of letter `var`; `None` for anything but `a..=z`.
    pub fn get(&self, var: u8) -> (r: Option<u64>)
        ensures
            r == (if is_lower(var) { Some(self@[var - 97]) } else { None }),
    {
        if 97 <= var && var <= 122 {
            Some(self.vals[(var - 97) as usize])
        } else {
            None
        }
    }
}

impl Default for Vars {
    fn default() -> (v: Self)
        ensures
            v@ == Seq::new(26, |i: int| NAN_BITS),
    {
        Vars::new()
    }
}

/// A value only a math library can give.
#[derive(Clone, Copy, Debug, PartialEq, Eq, Structural)]
pub enum Req {
    /// Function `id` (a `FUNC` payload other than `logb`) at `x`.
    Func { id: u8, x: u64 },
    /// The natural logarithm of `base`, which the value under it on the
    /// stack is then divided by (`logb`).
    Log { base: u64 },
    /// `a` to the power `b`, the exponent not a small integer.
    Pow { a: u64, b: u64 },
}

/// Where a run stops: with the expression's value, or asking for one.
#[derive(Clone, Copy, Debug, PartialEq, Eq, Structural)]
pub enum Stop {
    Value(u64),
    Need(Req),
}

/// A run's end: its outcome, the position it reached and the stack.
pub struct Halt {
    pub res: Result<Stop, Error>,
    pub pos: int,
    pub st: Seq<u64>,
}

pub open spec fn halt(res: Result<Stop, Error>, pos: int, st: Seq<u64>) -> Halt {
    Halt { res, pos, st }
}

pub open spec fn malformed(i: int) -> Error {
    Error::MalformedRpn { offset: #[verifier::truncate] (i as usize) }
}

/// Binary arithmetic other than `^`.
pub open spec fn arith(op: u8, a: u64, b: u64) -> u64 {
    if op == opcodes::ADD {
        fadd(a, b)
    } else if op == opcodes::SUB {
        fsub(a, b)
    } else if op == opcodes::MUL {
        fmul(a, b)
    } else {
        fdiv(a, b)
    }
}

/// One instruction's effect: push `v` onto `base` and go on at `next`,
/// or stop.
pub enum Act {
    Push { next: int, base: Seq<u64>, v: u64 },
    Stop { h: Halt },
}

/// The instruction at `i` (within the stream) on stack `st`.
pub open spec fn act_at(rpn: Seq<u8>, vars: Seq<u64>, i: int, st: Seq<u64>) -> Act {
    let op = rpn[i];
    let n = st.len();
    let bad = Act::Stop { h: halt(Err(malformed(i)), i, st) };
    let short = Act::Stop { h: halt(Err(malformed(0)), i, st) };
    if op == opcodes::NUM {
        if i + 9 > rpn.len() {
            bad
        } else {
            Act::Push { next: i + 9, base: st, v: le_value(rpn.subrange(i + 1, i + 9)) as u64 }
        }
    } else if op == opcodes::VAR {
        if i + 1 >= rpn.len() || !is_lower(rpn[i + 1]) {
            bad
        } else {
            Act::Push { next: i + 2, base: st, v: vars[rpn[i + 1] - 97] }
        }
    } else if op == opcodes::CONST {
        if i + 1 >= rpn.len() {
            bad
        } else if rpn[i + 1] == opcodes::CONST_E {
            Act::Push { next: i + 2, base: st, v: E_BITS }
        } else if rpn[i + 1] == opcodes::CONST_PI {
            Act::Push { next: i + 2, base: st, v: PI_BITS }
        } else {
            bad
        }
    } else if op == opcodes::FUNC {
        if i + 1 >= rpn.len() {
            bad
        } else if rpn[i + 1] == opcodes::FUNC_LOGB {
            if n < 2 {
                short
            } else {
                Act::Stop { h: halt(Ok(Stop::Need(Req::Log { base: st[n - 1] })), i + 2, st.drop_last()) }
            }
        } else if n < 1 {
            short
        } else {
            Act::Stop { h: halt(Ok(Stop::Need(Req::Func { id: rpn[i + 1], x: st[n - 1] })), i + 2, st.drop_last()) }
        }
    } else if op == opcodes::NEG {
        if n < 1 {
            short
        } else {
            Act::Push { next: i + 1, base: st.drop_last(), v: fneg(st[n - 1]) }
        }
    } else if opcodes::ADD <= op <= opcodes::POW {
        if n < 2 {
            short
        } else {
            let a = st[n - 2];
            let b = st[n - 1];
            let rest = st.subrange(0, n - 2);
            if op == opcodes::POW {
                match fold_pow(a, b) {
                    Some(v) => Act::Push { next: i + 1, base: rest, v },
                    None => Act::Stop { h: halt(Ok(Stop::Need(Req::Pow { a, b })), i + 1, rest) },
                }
            } else {
                Act::Push { next: i + 1, base: rest, v: arith(op, a, b) }
            }
        }
    } else {
        bad
    }
}

/// Running the stream from position `i` with stack `st` on a value
/// stack of `cap` slots, to its end or to the first value it needs.
pub open spec fn run_from(rpn: Seq<u8>, vars: Seq<u64>, cap: nat, i: int, st: Seq<u64>) -> Halt
    decreases rpn.len() - i,
{
    if i < 0 || i >= rpn.len() {
        if st.len() == 1 {
            halt(Ok(Stop::Value(st[0])), i, st)
        } else {
            halt(Err(malformed(0)), i, st)
        }
    } else {
        match act_at(rpn, vars, i, st) {
            Act::Stop { h } => h,
            Act::Push { next, base, v } => {
                if base.len() >= cap {
                    halt(Err(Error::EvalStackOverflow), i, st)
                } else {
                    run_from(rpn, vars, cap, next, base.push(v))
                }
            },
        }
    }
}

/// What a machine waiting on `q` does with the value it is given:
/// `1` pushes it, `2` divides the value under it by it.
pub open spec fn wait_of(q: Req) -> u8 {
    match q {
        Req::Log { .. } => 2,
        _ => 1,
    }
}

/// The stack after a waiting machine receives `v`.
pub open spec fn resumed(wait: u8, st: Seq<u64>, v: u64) -> Seq<u64> {
    if wait == 2 {
        st.drop_last().push(fdiv(st.last(), v))
    } else {
        st.push(v)
    }
}

/// Evaluation without a math library: a value the run needs becomes
/// `FuncUnsupportedOnTarget`, naming the function (`ln` for `logb`,
/// the `^` opcode for a power).
pub open spec fn eval_spec(rpn: Seq<u8>, vars: Seq<u64>, cap: nat) -> Result<u64, Error> {
    match run_from(rpn, vars, cap, 0, Seq::empty()).res {
        Ok(Stop::Value(v)) => Ok(v),
        Ok(Stop::Need(Req::Func { id, .. })) => Err(Error::FuncUnsupportedOnTarget { func: id }),
        Ok(Stop::Need(Req::Log { .. })) => Err(Error::FuncUnsupportedOnTarget { func: opcodes::FUNC_LN }),
        Ok(Stop::Need(Req::Pow { .. })) => Err(Error::FuncUnsupportedOnTarget { func: opcodes::POW }),
        Err(e) => Err(e),
    }
}

/// A paused evaluation: the position reached in the stream, the depth of
/// the value stack, and what it does with a value it waits for (`0`:
/// not waiting).
pub struct Machine {
    pos: usize,
    sp: usize,
    wait: u8,
}

impl Machine {
    pub closed spec fn spec_pos(&self) -> int {
        self.pos as int
    }

    pub closed spec fn spec_depth(&self) -> int {
        self.sp as int
    }

    pub closed spec fn spec_wait(&self) -> u8 {
        self.wait
    }

    /// At the start of a stream, with an empty stack.
    pub fn new() -> (m: Self)
        ensures
            m.spec_pos() == 0,
            m.spec_depth() == 0,
            m.spec_wait() == 0,
    {
        Machine { pos: 0, sp: 0, wait: 0 }
    }

    /// True while a value asked for has not been given.
    pub fn is_waiting(&self) -> (r: bool)
        ensures
            r == (self.spec_wait() != 0),
    {
        self.wait != 0
    }
}

/// Runs the stream from where the machine stands until it ends, fails,
/// or needs a value only a math library can give. On `Need` the machine
/// waits for that value (see [`eval_resume`]).
pub fn eval_run(rpn: &[u8], vars: &Vars, stack: &mut [u64], m: &mut Machine) -> (r: Result<Stop, Error>)
    requires
        old(m).spec_wait() == 0,
        0 <= old(m).spec_depth() <= old(stack)@.len(),
    ensures
        final(stack)@.len() == old(stack)@.len(),
        ({
            let h = run_from(
                rpn@,
                vars@,
                old(stack)@.len() as nat,
                old(m).spec_pos(),
                old(stack)@.subrange(0, old(m).spec_depth()),
            );
            &&& r == h.res
            &&& r matches Ok(Stop::Need(q)) ==> {
                &&& final(m).spec_pos() == h.pos
                &&& final(m).spec_wait() == wait_of(q)
                &&& 0 <= final(m).spec_depth() < final(stack)@.len()
                &&& final(stack)@.subrange(0, final(m).spec_depth()) == h.st
                &&& (q is Log ==> final(m).spec_depth() >= 1)
            }
        }),
{
    let ghost cap = stack@.len() as nat;
    let ghost h0 = run_from(rpn@, vars@, cap, m.pos as int, stack@.subrange(0, m.sp as int));
    proof {
        vars.lemma_len();
    }
    while m.pos < rpn.len()
        invariant
            cap == old(stack)@.len(),
            h0 == run_from(rpn@, vars@, cap, old(m).spec_pos(), old(stack)@.subrange(0, old(m).spec_depth())),
            stack@.len() == cap,
            m.sp <= cap,
            m.wait == 0,
            vars@.len() == 26,
            run_from(rpn@, vars@, cap, m.pos as int, stack@.subrange(0, m.sp as int)) == h0,
        decreases rpn@.len() - m.pos,
    {
        let i = m.pos;
        let sp = m.sp;
        let op = rpn[i];
        let ghost st = stack@.subrange(0, sp as int);
        let next: usize;
        let base: usize;
        let v: u64;
        if op == opcodes::NUM {
            if rpn.len() - i < 9 {
                return Err(Error::MalformedRpn { offset: i });
            }
            v = read_le8(rpn, i + 1);
            next = i + 9;
            base = sp;
        } else if op == opcodes::VAR {
            if rpn.len() - i < 2 || !(97 <= rpn[i + 1] && rpn[i + 1] <= 122) {
                return Err(Error::MalformedRpn { offset: i });
            }
            v = vars.vals[(rpn[i + 1] - 97) as usize];
            next = i + 2;
            base = sp;
        } else if op == opcodes::CONST {
            if rpn.len() - i < 2 {
                return Err(Error::MalformedRpn { offset: i });
            }
            let id = rpn[i + 1];
            if id == opcodes::CONST_E {
                v = E_BITS;
            } else if id == opcodes::CONST_PI {
                v = PI_BITS;
            } else {
                return Err(Error::MalformedRpn { offset: i });
            }
            next = i + 2;
            base = sp;
        } else if op == opcodes::FUNC {
            if rpn.len() - i < 2 {
                return Err(Error::MalformedRpn { offset: i });
            }
            let id = rpn[i + 1];
            if id == opcodes::FUNC_LOGB {
                if sp < 2 {
                    return Err(Error::MalformedRpn { offset: 0 });
                }
                let x = stack[sp - 1];
                m.pos = i + 2;
                m.sp = sp - 1;
                m.wait = 2;
                proof {
                    assert(stack@.subrange(0, sp - 1) =~= st.drop_last());
                }
                return Ok(Stop::Need(Req::Log { base: x }));
            }
            if sp < 1 {
                return Err(Error::MalformedRpn { offset: 0 });
            }
            let x = stack[sp - 1];
            m.pos = i + 2;
            m.sp = sp - 1;
            m.wait = 1;
            proof {
                assert(stack@.subrange(0, sp - 1) =~= st.drop_last());
            }
            return Ok(Stop::Need(Req::Func { id, x }));
        } else if op == opcodes::NEG {
            if sp < 1 {
                return Err(Error::MalformedRpn { offset: 0 });
            }
            v = neg_f64(stack[sp - 1]);
            next = i + 1;
            base = sp - 1;
            proof {
                assert(stack@.subrange(0, sp - 1) =~= st.drop_last());
            }
        } else if opcodes::ADD <= op && op <= opcodes::POW {
            if sp < 2 {
                return Err(Error::MalformedRpn { offset: 0 });
            }
            let a = stack[sp - 2];
            let b = stack[sp - 1];
            proof {
                assert(stack@.subrange(0, sp - 2) =~= st.subrange(0, sp - 2));
            }
            if op == opcodes::POW {
                match pow_fold(a, b) {
                    Some(p) => {
                        v = p;
                    },
                    None => {
                        m.pos = i + 1;
                        m.sp = sp - 2;
                        m.wait = 1;
                        return Ok(Stop::Need(Req::Pow { a, b }));
                    },
                }
            } else if op == opcodes::ADD {
                v = add_f64(a, b);
            } else if op == opcodes::SUB {
                v = sub_f64(a, b);
            } else if op == opcodes::MUL {
                v = mul_f64(a, b);
            } else {
                v = div_f64(a, b);
            }
            next = i + 1;
            base = sp - 2;
        } else {
            return Err(Error::MalformedRpn { offset: i });
        }
        proof {
            assert(act_at(rpn@, vars@, i as int, st) == Act::Push {
                next: next as int,
                base: stack@.subrange(0, base as int),
                v,
            });
        }
        if base >= stack.len() {
            return Err(Error::EvalStackOverflow);
        }
        let ghost pre = stack@;
        stack[base] = v;
        proof {
            assert(stack@.subrange(0, base + 1) =~= pre.subrange(0, base as int).push(v));
        }
        m.pos = next;
        m.sp = base + 1;
    }
    if m.sp != 1 {
        return Err(Error::MalformedRpn { offset: 0 });
    }
    Ok(Stop::Value(stack[0]))
}

/// Gives a waiting machine the value it asked for: pushed, or (for
/// `logb`) the value under it divided by it.
pub fn eval_resume(stack: &mut [u64], m: &mut Machine, v: u64)
    requires
        old(m).spec_wait() != 0,
        0 <= old(m).spec_depth() < old(stack)@.len(),
        old(m).spec_wait() == 2 ==> old(m).spec_depth() >= 1,
    ensures
        final(stack)@.len() == old(stack)@.len(),
        final(m).spec_wait() == 0,
        final(m).spec_pos() == old(m).spec_pos(),
        0 <= final(m).spec_depth() <= final(stack)@.len(),
        final(stack)@.subrange(0, final(m).spec_depth()) == resumed(
            old(m).spec_wait(),
            old(stack)@.subrange(0, old(m).spec_depth()),
            v,
        ),
{
    let sp = m.sp;
    let ghost pre = stack@;
    if m.wait == 2 {
        let logged = stack[sp - 1];
        stack[sp - 1] = div_f64(logged, v);
        proof {
            assert(stack@.subrange(0, sp as int) =~= pre.subrange(0, sp as int).drop_last().push(fdiv(logged, v)));
        }
    } else {
        stack[sp] = v;
        m.sp = sp + 1;
        proof {
            assert(stack@.subrange(0, sp + 1) =~= pre.subrange(0, sp as int).push(v));
        }
    }
    m.wait = 0;
}

/// Evaluates a bytecode stream with the library's own arithmetic: a
/// function or a general power, which need a math library, is
/// `FuncUnsupportedOnTarget`. `stack` is the value stack; running out of
/// it is `EvalStackOverflow`.
pub fn eval(rpn: &[u8], vars: &Vars, stack: &mut [u64]) -> (r: Result<u64, Error>)
    ensures
        final(stack)@.len() == old(stack)@.len(),
        r == eval_spec(rpn@, vars@, old(stack)@.len() as nat),
{
    let mut m = Machine::new();
    proof {
        assert(stack@.subrange(0, 0) =~= Seq::<u64>::empty());
    }
    match eval_run(rpn, vars, stack, &mut m) {
        Ok(Stop::Value(v)) => Ok(v),
        Ok(Stop::Need(Req::Func { id, .. })) => Err(Error::FuncUnsupportedOnTarget { func: id }),
        Ok(Stop::Need(Req::Log { .. })) => Err(Error::FuncUnsupportedOnTarget { func: opcodes::FUNC_LN }),
        Ok(Stop::Need(Req::Pow { .. })) => Err(Error::FuncUnsupportedOnTarget { func: opcodes::POW }),
        Err(e) => Err(e),
    }
}

} // verus!
