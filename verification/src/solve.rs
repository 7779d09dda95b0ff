//! Numeric equation solving: `lhs = rhs`, find `var`.
//!
//! The calculator's method: sample the difference `lhs - rhs` uniformly
//! over a range, bracket every sign change, and bisect to binary64
//! precision. The solver decides where to look next; its caller
//! evaluates both sides there (with [`crate::eval`], or with a math
//! library for transcendental functions) and hands the two values back.
//! All the arithmetic on sample points and differences is exact
//! binary64 arithmetic.
//!
//! Tangential (even-multiplicity) roots never change sign and are not
//! found, the classic calculator limitation. A sample where the
//! difference is NaN (a side undefined there) is no root and opens no
//! bracket; inside a bracket a NaN midpoint shares no sign with the low
//! end, so bisection keeps the low half.
use vstd::prelude::*;
use crate::error::Error;
use crate::fpu::{
    abs_f64, add_f64, div_f64, eq_f64, fabs, fadd, fdiv, feq, fle, fmul, from_nat, fsignum, fsub, is_finite,
    is_nan, is_zero_f, le_f64, mag_bits, mul_f64, signum_f64, sub_f64, u32_to_f64, ONE_BITS,
};
use crate::binary64::INF_MAG;
use crate::lex::is_lower;

verus! {

/// Encoding of `0.5`.
pub const HALF_BITS: u64 = 0x3FE0000000000000;

/// Encoding of `1e-7`, the relative distance under which two roots are
/// one.
pub const NEAR_BITS: u64 = 0x3E7AD7F29ABCAF48;

/// Scan parameters: the window `range` (finite, low end first, as
/// binary64 encodings) and the number of uniform samples (at least 2).
#[derive(Clone, Copy, Debug)]
pub struct SolveCfg {
    pub range: (u64, u64),
    pub steps: u32,
}

/// What the solver is waiting for the difference at.
#[derive(Clone, Copy, Debug)]
pub enum Phase {
    /// The low end of the window.
    Start,
    /// Sample `s`.
    Scan,
    /// A midpoint of the bracket `[a, b]` around a sign change, `fa`
    /// being the difference at `a`; the scan goes on from sample `x`
    /// (difference `f`) afterwards.
    Bisect { a: u64, b: u64, fa: u64, x: u64, f: u64 },
}

/// A solve in progress. `pending` is the point whose difference the
/// solver waits for.
#[derive(Clone, Copy, Debug)]
pub struct Solver {
    pub var: u8,
    pub lo: u64,
    pub hi: u64,
    pub step: u64,
    pub steps: u32,
    pub s: u32,
    pub x_prev: u64,
    pub f_prev: u64,
    pub found_n: usize,
    pub phase: Phase,
    pub pending: u64,
}

/// What the caller does next: evaluate both sides at a point, or stop
/// with that many roots written.
#[derive(Clone, Copy, Debug, PartialEq, Eq, Structural)]
pub enum SolveAct {
    Eval(u64),
    Done(usize),
}

/// The state a solve is in between steps.
pub open spec fn solver_ok(st: Solver) -> bool {
    &&& st.steps >= 2
    &&& st.s <= st.steps
    &&& (st.phase is Start <==> st.s == 0)
}

/// Sample `s` of the window; the last one is its high end exactly.
pub open spec fn sample(st: Solver, s: u32) -> u64 {
    if s == st.steps {
        st.hi
    } else {
        fadd(st.lo, fmul(st.step, from_nat(s as nat)))
    }
}

pub open spec fn midpoint(a: u64, b: u64) -> u64 {
    fmul(HALF_BITS, fadd(a, b))
}

/// Two roots closer than `1e-7 * (1 + |root|)` are one.
pub open spec fn near(prev: u64, root: u64) -> bool {
    fle(fabs(fsub(prev, root)), fmul(NEAR_BITS, fadd(ONE_BITS, fabs(root))))
}

/// Starting a solve for `var` under `cfg`.
pub open spec fn start_spec(var: u8, cfg: SolveCfg) -> Result<Solver, Error> {
    let (lo, hi) = cfg.range;
    if !is_lower(var) {
        Err(Error::BadAssignment { pos: 0 })
    } else if !(is_finite(lo) && is_finite(hi)) || cfg.steps < 2 || fle(hi, lo) {
        Err(Error::MalformedRpn { offset: 0 })
    } else {
        Ok(
            Solver {
                var,
                lo,
                hi,
                step: fdiv(fsub(hi, lo), from_nat(cfg.steps as nat)),
                steps: cfg.steps,
                s: 0,
                x_prev: lo,
                f_prev: 0,
                found_n: 0,
                phase: Phase::Start,
                pending: lo,
            },
        )
    }
}

/// Sample point `x` with difference `f` is done: move to the next
/// sample, or finish after the last.
pub open spec fn go_on(st: Solver, x: u64, f: u64, found: Seq<u64>) -> (Solver, Seq<u64>, SolveAct) {
    if st.s >= st.steps {
        (st, found, SolveAct::Done(st.found_n))
    } else {
        let s2 = (st.s + 1) as u32;
        let x2 = sample(st, s2);
        (Solver { s: s2, x_prev: x, f_prev: f, phase: Phase::Scan, pending: x2, ..st }, found, SolveAct::Eval(x2))
    }
}

/// A root found while at sample `x` (difference `f`): recorded unless it
/// repeats the last one or there is no room; a full `found` ends the
/// solve.
pub open spec fn take_root(st: Solver, root: u64, x: u64, f: u64, found: Seq<u64>) -> (Solver, Seq<u64>, SolveAct) {
    let n = st.found_n;
    let dup = n > 0 && near(found[n - 1], root);
    if !dup && n < found.len() {
        let found2 = found.update(n as int, root);
        let st2 = Solver { found_n: (n + 1) as usize, ..st };
        if n + 1 == found.len() {
            (st2, found2, SolveAct::Done((n + 1) as usize))
        } else {
            go_on(st2, x, f, found2)
        }
    } else {
        go_on(st, x, f, found)
    }
}

/// Bisecting `[a, b]`: its midpoint is the root once it meets an end,
/// else the next point to evaluate.
pub open spec fn bisect_at(st: Solver, a: u64, b: u64, fa: u64, x: u64, f: u64, found: Seq<u64>) -> (
    Solver,
    Seq<u64>,
    SolveAct,
) {
    let m = midpoint(a, b);
    if feq(m, a) || feq(m, b) {
        take_root(st, m, x, f, found)
    } else {
        (Solver { phase: Phase::Bisect { a, b, fa, x, f }, pending: m, ..st }, found, SolveAct::Eval(m))
    }
}

/// The solver given the difference `d` at its pending point.
pub open spec fn after(st: Solver, d: u64, found: Seq<u64>) -> (Solver, Seq<u64>, SolveAct) {
    match st.phase {
        Phase::Start => go_on(st, st.lo, d, found),
        Phase::Scan => {
            let x = st.pending;
            if is_zero_f(d) {
                take_root(st, x, x, d, found)
            } else if !is_nan(d) && !is_nan(st.f_prev) && !is_zero_f(st.f_prev) && !feq(
                fsignum(d),
                fsignum(st.f_prev),
            ) {
                bisect_at(st, st.x_prev, x, st.f_prev, x, d, found)
            } else {
                go_on(st, x, d, found)
            }
        },
        Phase::Bisect { a, b, fa, x, f } => {
            let m = st.pending;
            if is_zero_f(d) {
                take_root(st, m, x, f, found)
            } else if feq(fsignum(d), fsignum(fa)) {
                bisect_at(st, m, b, fa, x, f, found)
            } else {
                bisect_at(st, a, m, fa, x, f, found)
            }
        },
    }
}

/// The first `n` roots recorded, each apart from the one before it.
pub open spec fn spaced(found: Seq<u64>, n: int) -> bool {
    forall|k: int| 0 <= k && k + 1 < n ==> !near(#[trigger] found[k], found[k + 1])
}

proof fn lemma_go_on_keeps(st: Solver, x: u64, f: u64, found: Seq<u64>)
    ensures
        go_on(st, x, f, found).1 == found,
        go_on(st, x, f, found).0.found_n == st.found_n,
{
}

proof fn lemma_take_root_spaced(st: Solver, root: u64, x: u64, f: u64, found: Seq<u64>)
    requires
        st.found_n <= found.len(),
        spaced(found, st.found_n as int),
    ensures
        ({
            let (st2, found2, _) = take_root(st, root, x, f, found);
            &&& spaced(found2, st2.found_n as int)
            &&& st2.found_n <= found2.len() == found.len()
        }),
{
    let n = st.found_n;
    let dup = n > 0 && near(found[n - 1], root);
    if !dup && n < found.len() {
        let found2 = found.update(n as int, root);
        let st2 = Solver { found_n: (n + 1) as usize, ..st };
        assert forall|k: int| 0 <= k && k + 1 < n + 1 implies !near(#[trigger] found2[k], found2[k + 1]) by {
            if k + 1 < n {
                assert(found2[k] == found[k] && found2[k + 1] == found[k + 1]);
            }
        }
        lemma_go_on_keeps(st2, x, f, found2);
    } else {
        lemma_go_on_keeps(st, x, f, found);
    }
}

proof fn lemma_bisect_spaced(st: Solver, a: u64, b: u64, fa: u64, x: u64, f: u64, found: Seq<u64>)
    requires
        st.found_n <= found.len(),
        spaced(found, st.found_n as int),
    ensures
        ({
            let (st2, found2, _) = bisect_at(st, a, b, fa, x, f, found);
            &&& spaced(found2, st2.found_n as int)
            &&& st2.found_n <= found2.len() == found.len()
        }),
{
    lemma_take_root_spaced(st, midpoint(a, b), x, f, found);
}

/// One step of the solver keeps every recorded root apart from the one
/// before it.
pub proof fn lemma_after_spaced(st: Solver, d: u64, found: Seq<u64>)
    requires
        st.found_n <= found.len(),
        spaced(found, st.found_n as int),
    ensures
        ({
            let (st2, found2, _) = after(st, d, found);
            &&& spaced(found2, st2.found_n as int)
            &&& st2.found_n <= found2.len() == found.len()
        }),
{
    match st.phase {
        Phase::Start => {
            lemma_go_on_keeps(st, st.lo, d, found);
        },
        Phase::Scan => {
            let x = st.pending;
            lemma_take_root_spaced(st, x, x, d, found);
            lemma_bisect_spaced(st, st.x_prev, x, st.f_prev, x, d, found);
            lemma_go_on_keeps(st, x, d, found);
        },
        Phase::Bisect { a, b, fa, x, f } => {
            let m = st.pending;
            lemma_take_root_spaced(st, m, x, f, found);
            lemma_bisect_spaced(st, m, b, fa, x, f, found);
            lemma_bisect_spaced(st, a, m, fa, x, f, found);
        },
    }
}

/// Starts solving for `var`: `BadAssignment` unless it is a letter,
/// `MalformedRpn` unless the window is finite and not empty and there
/// are at least two samples. The first point to evaluate is the low end.
pub fn solve_start(var: u8, cfg: SolveCfg) -> (r: Result<Solver, Error>)
    ensures
        r == start_spec(var, cfg),
        r matches Ok(st) ==> solver_ok(st),
{
    let (lo, hi) = cfg.range;
    if !(97 <= var && var <= 122) {
        return Err(Error::BadAssignment { pos: 0 });
    }
    if !(mag_bits(lo) < INF_MAG && mag_bits(hi) < INF_MAG) || cfg.steps < 2 || le_f64(hi, lo) {
        return Err(Error::MalformedRpn { offset: 0 });
    }
    let step = div_f64(sub_f64(hi, lo), u32_to_f64(cfg.steps));
    Ok(
        Solver {
            var,
            lo,
            hi,
            step,
            steps: cfg.steps,
            s: 0,
            x_prev: lo,
            f_prev: 0,
            found_n: 0,
            phase: Phase::Start,
            pending: lo,
        },
    )
}

fn midpoint_of(a: u64, b: u64) -> (r: u64)
    ensures
        r == midpoint(a, b),
{
    mul_f64(HALF_BITS, add_f64(a, b))
}

impl Solver {
    fn go_on(&mut self, x: u64, f: u64) -> (r: SolveAct)
        requires
            old(self).steps >= 2,
            old(self).s <= old(self).steps,
        ensures
            (*final(self), r) == ({
                let t = go_on(*old(self), x, f, Seq::empty());
                (t.0, t.2)
            }),
    {
        if self.s >= self.steps {
            return SolveAct::Done(self.found_n);
        }
        let s2 = self.s + 1;
        let x2 = if s2 == self.steps {
            self.hi
        } else {
            add_f64(self.lo, mul_f64(self.step, u32_to_f64(s2)))
        };
        self.s = s2;
        self.x_prev = x;
        self.f_prev = f;
        self.phase = Phase::Scan;
        self.pending = x2;
        SolveAct::Eval(x2)
    }

    fn take_root(&mut self, root: u64, x: u64, f: u64, found: &mut [u64]) -> (r: SolveAct)
        requires
            old(self).steps >= 2,
            old(self).s <= old(self).steps,
            old(self).found_n <= old(found)@.len(),
        ensures
            (*final(self), final(found)@, r) == take_root(*old(self), root, x, f, old(found)@),
    {
        let n = self.found_n;
        let dup = n > 0 && le_f64(
            abs_f64(sub_f64(found[n - 1], root)),
            mul_f64(NEAR_BITS, add_f64(ONE_BITS, abs_f64(root))),
        );
        if !dup && n < found.len() {
            found[n] = root;
            self.found_n = n + 1;
            if n + 1 == found.len() {
                return SolveAct::Done(n + 1);
            }
        }
        self.go_on(x, f)
    }

    fn bisect_at(&mut self, a: u64, b: u64, fa: u64, x: u64, f: u64, found: &mut [u64]) -> (r: SolveAct)
        requires
            old(self).steps >= 2,
            old(self).s <= old(self).steps,
            old(self).found_n <= old(found)@.len(),
        ensures
            (*final(self), final(found)@, r) == bisect_at(*old(self), a, b, fa, x, f, old(found)@),
    {
        let m = midpoint_of(a, b);
        if eq_f64(m, a) || eq_f64(m, b) {
            return self.take_root(m, x, f, found);
        }
        self.phase = Phase::Bisect { a, b, fa, x, f };
        self.pending = m;
        SolveAct::Eval(m)
    }

    /// Hands the solver the values of the two sides at its pending point;
    /// it writes any root it settles into `found` and says what to do
    /// next.
    pub fn solve_step(&mut self, lhs: u64, rhs: u64, found: &mut [u64]) -> (r: SolveAct)
        requires
            solver_ok(*old(self)),
            old(self).found_n <= old(found)@.len(),
        ensures
            (*final(self), final(found)@, r) == after(*old(self), fsub(lhs, rhs), old(found)@),
            final(found)@.len() == old(found)@.len(),
            r is Eval ==> solver_ok(*final(self)) && final(self).found_n <= final(found)@.len(),
    {
        let d = sub_f64(lhs, rhs);
        match self.phase {
            Phase::Start => {
                let lo = self.lo;
                self.go_on(lo, d)
            },
            Phase::Scan => {
                let x = self.pending;
                if mag_bits(d) == 0 {
                    self.take_root(x, x, d, found)
                } else if mag_bits(d) <= INF_MAG && mag_bits(self.f_prev) <= INF_MAG && mag_bits(self.f_prev)
                    != 0 && !eq_f64(signum_f64(d), signum_f64(self.f_prev)) {
                    let (a, fa) = (self.x_prev, self.f_prev);
                    self.bisect_at(a, x, fa, x, d, found)
                } else {
                    self.go_on(x, d)
                }
            },
            Phase::Bisect { a, b, fa, x, f } => {
                let m = self.pending;
                if mag_bits(d) == 0 {
                    self.take_root(m, x, f, found)
                } else if eq_f64(signum_f64(d), signum_f64(fa)) {
                    self.bisect_at(m, b, fa, x, f, found)
                } else {
                    self.bisect_at(a, m, fa, x, f, found)
                }
            },
        }
    }
}

} // verus!
