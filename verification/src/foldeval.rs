//! Folding computes what the evaluator computes: a definition body that
//! folds to a number evaluates to that number, given each definition it
//! names the value that definition folds to.
use vstd::prelude::*;
use crate::eval::{act_at, arith, run_from, Act, Stop};
use crate::fold::{bit_of, fold_at, fold_binop, is_binop, Val, FOLD_CAP};
use crate::fpu::fneg;
use crate::lex::is_lower;
use crate::opcodes;
use crate::resolve::Resolve;

verus! {

/// The value stack `vals` holds the numbers of the fold stack `st`.
pub open spec fn holds_nums(st: Seq<Val>, vals: Seq<u64>) -> bool {
    &&& st.len() == vals.len()
    &&& forall|k: int| 0 <= k < st.len() ==> st[k] == Val::Num(#[trigger] vals[k])
}

/// Each letter the body may name, not already being expanded, has the
/// value its definition folds to (when it folds).
pub open spec fn vars_fold<R: Resolve>(res: &R, chain: u32, vars: Seq<u64>) -> bool {
    forall|x: u8|
        #![trigger res.spec_body(x)]
        is_lower(x) && chain & bit_of(x) == 0 && res.spec_body(x) is Some && fold_at(
            res,
            res.spec_body(x).unwrap(),
            chain | bit_of(x),
            0,
            Seq::empty(),
        ) is Some ==> vars[x - 97] == fold_at(res, res.spec_body(x).unwrap(), chain | bit_of(x), 0, Seq::empty()).unwrap()
}

/// A symbol on the fold stack never folds away.
proof fn lemma_sym_stays<R: Resolve>(res: &R, body: Seq<u8>, chain: u32, i: int, st: Seq<Val>, k: int)
    requires
        0 <= k < st.len(),
        st[k] is Sym,
    ensures
        fold_at(res, body, chain, i, st) is None,
    decreases body.len() - i,
{
    if 0 <= i < body.len() {
        let op = body[i];
        if op == opcodes::NUM {
            if !(i + 9 > body.len() || st.len() >= FOLD_CAP) {
                let v = crate::wire::le_value(body.subrange(i + 1, i + 9)) as u64;
                lemma_sym_stays(res, body, chain, i + 9, st.push(Val::Num(v)), k);
            }
        } else if op == opcodes::VAR {
            if i + 1 < body.len() {
                let v = body[i + 1];
                if is_lower(v) && chain & bit_of(v) == 0 && st.len() < FOLD_CAP {
                    let val = match res.spec_body(v) {
                        Some(b) => match fold_at(res, b, chain | bit_of(v), 0, Seq::empty()) {
                            Some(x) => Val::Num(x),
                            None => Val::Sym,
                        },
                        None => Val::Sym,
                    };
                    lemma_sym_stays(res, body, chain, i + 2, st.push(val), k);
                }
            }
        } else if op == opcodes::FUNC {
            if i + 1 < body.len() {
                let arity: int = if body[i + 1] == opcodes::funcs::LOGB { 2 } else { 1 };
                if st.len() >= arity {
                    let st2 = st.subrange(0, st.len() - arity).push(Val::Sym);
                    lemma_sym_stays(res, body, chain, i + 2, st2, st2.len() - 1);
                }
            }
        } else if op != opcodes::CONST && st.len() > 0 {
            let r = st.last();
            let st1 = st.drop_last();
            if op == opcodes::NEG {
                let nv = match r {
                    Val::Num(x) => Val::Num(fneg(x)),
                    Val::Sym => Val::Sym,
                };
                let st2 = st1.push(nv);
                if k == st.len() - 1 {
                    lemma_sym_stays(res, body, chain, i + 1, st2, k);
                } else {
                    assert(st2[k] == st[k]);
                    lemma_sym_stays(res, body, chain, i + 1, st2, k);
                }
            } else if is_binop(op) && st1.len() > 0 {
                let l = st1.last();
                let st2 = st1.drop_last();
                match (l, r) {
                    (Val::Num(a), Val::Num(b)) => {
                        assert(k < st.len() - 2);
                        match fold_binop(op, a, b) {
                            Some(x) => {
                                assert(st2.push(Val::Num(x))[k] == st[k]);
                                lemma_sym_stays(res, body, chain, i + 1, st2.push(Val::Num(x)), k);
                            },
                            None => {},
                        }
                    },
                    _ => {
                        let st3 = st2.push(Val::Sym);
                        lemma_sym_stays(res, body, chain, i + 1, st3, st3.len() - 1);
                    },
                }
            }
        }
    } else if st.len() == 1 {
        assert(st[0] is Sym);
    }
}

/// One instruction of a body that folds: the fold and the evaluator
/// move to the same next position, the value stack again holding the
/// fold stack's numbers.
proof fn lemma_fold_step<R: Resolve>(
    res: &R,
    body: Seq<u8>,
    chain: u32,
    vars: Seq<u64>,
    cap: nat,
    i: int,
    st: Seq<Val>,
    vals: Seq<u64>,
) -> (r: (int, Seq<Val>, Seq<u64>))
    requires
        0 <= i < body.len(),
        cap >= FOLD_CAP,
        st.len() <= FOLD_CAP,
        holds_nums(st, vals),
        vars_fold(res, chain, vars),
        fold_at(res, body, chain, i, st) is Some,
    ensures
        i < r.0 <= body.len(),
        r.1.len() <= FOLD_CAP,
        holds_nums(r.1, r.2),
        fold_at(res, body, chain, i, st) == fold_at(res, body, chain, r.0, r.1),
        run_from(body, vars, cap, i, vals) == run_from(body, vars, cap, r.0, r.2),
{
    let op = body[i];
    let n = st.len() as int;
    if op == opcodes::NUM {
        let x = crate::wire::le_value(body.subrange(i + 1, i + 9)) as u64;
        assert(act_at(body, vars, i, vals) == Act::Push { next: i + 9, base: vals, v: x });
        assert(holds_nums(st.push(Val::Num(x)), vals.push(x)));
        (i + 9, st.push(Val::Num(x)), vals.push(x))
    } else if op == opcodes::VAR {
        let x = body[i + 1];
        let b = res.spec_body(x);
        if b is None || fold_at(res, b.unwrap(), chain | bit_of(x), 0, Seq::empty()) is None {
            lemma_sym_stays(res, body, chain, i + 2, st.push(Val::Sym), n);
            (i, st, vals)
        } else {
            let y = fold_at(res, b.unwrap(), chain | bit_of(x), 0, Seq::empty()).unwrap();
            assert(vars[x - 97] == y);
            assert(act_at(body, vars, i, vals) == Act::Push { next: i + 2, base: vals, v: y });
            assert(holds_nums(st.push(Val::Num(y)), vals.push(y)));
            (i + 2, st.push(Val::Num(y)), vals.push(y))
        }
    } else if op == opcodes::FUNC {
        let arity: int = if body[i + 1] == opcodes::funcs::LOGB { 2 } else { 1 };
        let st2 = st.subrange(0, n - arity).push(Val::Sym);
        lemma_sym_stays(res, body, chain, i + 2, st2, st2.len() - 1);
        (i, st, vals)
    } else if op == opcodes::NEG {
        let x = vals[n - 1];
        assert(st.last() == Val::Num(x));
        let st2 = st.drop_last().push(Val::Num(fneg(x)));
        let vals2 = vals.drop_last().push(fneg(x));
        assert(act_at(body, vars, i, vals) == Act::Push { next: i + 1, base: vals.drop_last(), v: fneg(x) });
        assert(holds_nums(st2, vals2));
        (i + 1, st2, vals2)
    } else {
        assert(is_binop(op));
        let a = vals[n - 2];
        let b = vals[n - 1];
        assert(st[n - 2] == Val::Num(a));
        assert(st[n - 1] == Val::Num(b));
        assert(st.drop_last().last() == st[n - 2]);
        let w = fold_binop(op, a, b).unwrap();
        let st2 = st.drop_last().drop_last().push(Val::Num(w));
        let vals2 = vals.subrange(0, n - 2).push(w);
        assert(st.drop_last().drop_last() =~= st.subrange(0, n - 2));
        assert(holds_nums(st2, vals2));
        if op != opcodes::POW {
            assert(w == arith(op, a, b));
        }
        assert(act_at(body, vars, i, vals) == Act::Push { next: i + 1, base: vals.subrange(0, n - 2), v: w });
        (i + 1, st2, vals2)
    }
}

/// Running the body from `i` with the fold stack's numbers on the value
/// stack ends with the value the fold ends with.
pub proof fn lemma_fold_eval<R: Resolve>(
    res: &R,
    body: Seq<u8>,
    chain: u32,
    vars: Seq<u64>,
    cap: nat,
    i: int,
    st: Seq<Val>,
    vals: Seq<u64>,
)
    requires
        0 <= i,
        cap >= FOLD_CAP,
        st.len() <= FOLD_CAP,
        holds_nums(st, vals),
        vars_fold(res, chain, vars),
        fold_at(res, body, chain, i, st) is Some,
    ensures
        run_from(body, vars, cap, i, vals).res == Ok::<Stop, crate::error::Error>(
            Stop::Value(fold_at(res, body, chain, i, st).unwrap()),
        ),
    decreases body.len() - i,
{
    if i < body.len() {
        let (j, st2, vals2) = lemma_fold_step(res, body, chain, vars, cap, i, st, vals);
        lemma_fold_eval(res, body, chain, vars, cap, j, st2, vals2);
    } else {
        assert(st[0] == Val::Num(vals[0]));
    }
}

} // verus!
