//! Definitions never lead back into themselves: the acyclicity walk a
//! definition passes before it is stored keeps every stored definition
//! free of cycles.
use vstd::prelude::*;
use crate::fold::{bit_of, chain_measure, cycle_walk, ins_width, lemma_chain_grows};
use crate::lex::is_lower;
use crate::opcodes;

verus! {

/// Variable `x` is referenced from position `i` of `s` on, directly or
/// through at most `n` definitions.
pub open spec fn reach_from(d: spec_fn(u8) -> Option<Seq<u8>>, s: Seq<u8>, i: int, x: u8, n: nat) -> bool
    decreases n, s.len() + 9 - i,
{
    if i < 0 || i >= s.len() {
        false
    } else {
        let here = s[i] == opcodes::VAR && i + 1 < s.len() && (s[i + 1] == x || (n > 0 && d(s[i + 1]) is Some
            && reach_from(d, d(s[i + 1]).unwrap(), 0, x, (n - 1) as nat)));
        here || reach_from(d, s, i + ins_width(s[i]), x, n)
    }
}

pub open spec fn reaches(d: spec_fn(u8) -> Option<Seq<u8>>, s: Seq<u8>, i: int, x: u8) -> bool {
    exists|n: nat| reach_from(d, s, i, x, n)
}

/// The definitions of a map.
pub open spec fn defs_fn(m: Map<u8, Seq<u8>>) -> spec_fn(u8) -> Option<Seq<u8>> {
    |v: u8|
        if m.contains_key(v) {
            Some(m[v])
        } else {
            None
        }
}

/// No definition leads back into itself (nor into any cycle).
pub open spec fn acyclic(m: Map<u8, Seq<u8>>) -> bool {
    forall|v: u8| #[trigger] m.contains_key(v) ==> cycle_walk(defs_fn(m), m[v], bit_of(v), 0) is None
}

proof fn lemma_bits(v: u8, w: u8)
    requires
        is_lower(v),
        is_lower(w),
    ensures
        v != w ==> bit_of(v) & bit_of(w) == 0,
        bit_of(v) & bit_of(v) != 0,
{
    let a: u32 = (v - 97) as u32;
    let b: u32 = (w - 97) as u32;
    assert(a < 26 && b < 26 && a != b ==> (1u32 << a) & (1u32 << b) == 0) by (bit_vector);
    assert(a < 26 ==> (1u32 << a) & (1u32 << a) != 0) by (bit_vector);
}

proof fn lemma_or_bits(c: u32, e: u32, b: u32)
    ensures
        (c | e) & b == 0 <==> (c & b == 0 && e & b == 0),
        (c | e) | b == (c | b) | e,
{
    assert((c | e) & b == 0 <==> (c & b == 0 && e & b == 0)) by (bit_vector);
    assert((c | e) | b == (c | b) | e) by (bit_vector);
}

proof fn lemma_sub_bits(c1: u32, c2: u32, b: u32)
    requires
        c1 | c2 == c2,
    ensures
        c2 & b == 0 ==> c1 & b == 0,
        (c1 | b) | (c2 | b) == c2 | b,
{
    assert(c1 | c2 == c2 ==> (c2 & b == 0 ==> c1 & b == 0)) by (bit_vector);
    assert(c1 | c2 == c2 ==> (c1 | b) | (c2 | b) == c2 | b) by (bit_vector);
}

/// A walk that succeeds with a chain succeeds with any part of it.
pub proof fn lemma_walk_sub(d: spec_fn(u8) -> Option<Seq<u8>>, s: Seq<u8>, c1: u32, c2: u32, i: int)
    requires
        c1 | c2 == c2,
        cycle_walk(d, s, c2, i) is None,
    ensures
        cycle_walk(d, s, c1, i) is None,
    decreases chain_measure(c1), s.len() + 9 - i,
{
    if 0 <= i < s.len() {
        let op = s[i];
        if op == opcodes::VAR {
            let v = s[i + 1];
            lemma_sub_bits(c1, c2, bit_of(v));
            lemma_walk_sub(d, s, c1, c2, i + 2);
            if let Some(b) = d(v) {
                lemma_chain_grows(c1, v);
                lemma_walk_sub(d, b, c1 | bit_of(v), c2 | bit_of(v), 0);
            }
        } else {
            lemma_walk_sub(d, s, c1, c2, i + ins_width(op));
        }
    }
}

/// What a successful walk reaches is a letter outside its chain, whose
/// own definition walks successfully with it added.
pub proof fn lemma_walk_reach(d: spec_fn(u8) -> Option<Seq<u8>>, s: Seq<u8>, c: u32, i: int, x: u8, n: nat)
    requires
        cycle_walk(d, s, c, i) is None,
        reach_from(d, s, i, x, n),
    ensures
        is_lower(x),
        c & bit_of(x) == 0,
        d(x) matches Some(bx) ==> cycle_walk(d, bx, c | bit_of(x), 0) is None,
    decreases n, s.len() + 9 - i,
{
    let op = s[i];
    let here = s[i] == opcodes::VAR && i + 1 < s.len() && (s[i + 1] == x || (n > 0 && d(s[i + 1]) is Some
        && reach_from(d, d(s[i + 1]).unwrap(), 0, x, (n - 1) as nat)));
    if here {
        let v = s[i + 1];
        if v != x {
            let bv = d(v).unwrap();
            lemma_chain_grows(c, v);
            lemma_walk_reach(d, bv, c | bit_of(v), 0, x, (n - 1) as nat);
            lemma_or_bits(c, bit_of(v), bit_of(x));
            if let Some(bx) = d(x) {
                assert((c | bit_of(x)) | ((c | bit_of(v)) | bit_of(x)) == (c | bit_of(v)) | bit_of(x)) by (bit_vector);
                lemma_walk_sub(d, bx, c | bit_of(x), (c | bit_of(v)) | bit_of(x), 0);
            }
        }
    } else {
        if op == opcodes::VAR {
            lemma_walk_reach(d, s, c, i + 2, x, n);
        } else {
            lemma_walk_reach(d, s, c, i + ins_width(op), x, n);
        }
    }
}

/// Reaching `w`, whose definition reaches `x`, reaches `x`.
pub proof fn lemma_reach_trans(
    d: spec_fn(u8) -> Option<Seq<u8>>,
    s: Seq<u8>,
    i: int,
    w: u8,
    n1: nat,
    x: u8,
    n2: nat,
)
    requires
        reach_from(d, s, i, w, n1),
        d(w) is Some,
        reach_from(d, d(w).unwrap(), 0, x, n2),
    ensures
        reach_from(d, s, i, x, n1 + n2 + 1),
    decreases n1, s.len() + 9 - i,
{
    let here = s[i] == opcodes::VAR && i + 1 < s.len() && (s[i + 1] == w || (n1 > 0 && d(s[i + 1]) is Some
        && reach_from(d, d(s[i + 1]).unwrap(), 0, w, (n1 - 1) as nat)));
    if here {
        let v = s[i + 1];
        if v == w {
            assert(reach_from(d, d(v).unwrap(), 0, x, ((n1 + n2 + 1) - 1) as nat) || n2 != ((n1 + n2 + 1) - 1));
            lemma_reach_deeper(d, d(w).unwrap(), 0, x, n2, (n1 + n2) as nat);
        } else {
            lemma_reach_trans(d, d(v).unwrap(), 0, w, (n1 - 1) as nat, x, n2);
            assert((n1 - 1) as nat + n2 + 1 == ((n1 + n2 + 1) - 1) as nat);
        }
    } else {
        lemma_reach_trans(d, s, i + ins_width(s[i]), w, n1, x, n2);
    }
}

/// More depth reaches at least as much.
pub proof fn lemma_reach_deeper(d: spec_fn(u8) -> Option<Seq<u8>>, s: Seq<u8>, i: int, x: u8, n: nat, m: nat)
    requires
        reach_from(d, s, i, x, n),
        n <= m,
    ensures
        reach_from(d, s, i, x, m),
    decreases n, s.len() + 9 - i,
{
    let here = s[i] == opcodes::VAR && i + 1 < s.len() && (s[i + 1] == x || (n > 0 && d(s[i + 1]) is Some
        && reach_from(d, d(s[i + 1]).unwrap(), 0, x, (n - 1) as nat)));
    if here {
        if s[i + 1] != x {
            lemma_reach_deeper(d, d(s[i + 1]).unwrap(), 0, x, (n - 1) as nat, (m - 1) as nat);
        }
    } else {
        lemma_reach_deeper(d, s, i + ins_width(s[i]), x, n, m);
    }
}

/// Adding to the chain letters the walk never reaches changes nothing.
pub proof fn lemma_walk_extend(d: spec_fn(u8) -> Option<Seq<u8>>, s: Seq<u8>, c: u32, e: u32, i: int)
    requires
        cycle_walk(d, s, c, i) is None,
        forall|x: u8, n: nat| #[trigger] reach_from(d, s, i, x, n) ==> e & bit_of(x) == 0,
    ensures
        cycle_walk(d, s, c | e, i) is None,
    decreases chain_measure(c), s.len() + 9 - i,
{
    if 0 <= i < s.len() {
        let op = s[i];
        if op == opcodes::VAR {
            let v = s[i + 1];
            assert(reach_from(d, s, i, v, 0));
            lemma_or_bits(c, e, bit_of(v));
            assert forall|x: u8, n: nat| #[trigger] reach_from(d, s, i + 2, x, n) implies e & bit_of(x) == 0 by {
                assert(reach_from(d, s, i, x, n));
            }
            lemma_walk_extend(d, s, c, e, i + 2);
            if let Some(b) = d(v) {
                lemma_chain_grows(c, v);
                assert forall|x: u8, n: nat| #[trigger] reach_from(d, b, 0, x, n) implies e & bit_of(x) == 0 by {
                    assert(reach_from(d, s, i, x, n + 1));
                }
                lemma_walk_extend(d, b, c | bit_of(v), e, 0);
                assert((c | bit_of(v)) | e == (c | e) | bit_of(v)) by (bit_vector);
            }
        } else {
            let j = i + ins_width(op);
            assert forall|x: u8, n: nat| #[trigger] reach_from(d, s, j, x, n) implies e & bit_of(x) == 0 by {
                assert(reach_from(d, s, i, x, n));
            }
            lemma_walk_extend(d, s, c, e, j);
        }
    }
}

/// Fewer definitions (the remaining ones unchanged) keep a walk
/// successful.
pub proof fn lemma_walk_fewer(
    d1: spec_fn(u8) -> Option<Seq<u8>>,
    d2: spec_fn(u8) -> Option<Seq<u8>>,
    s: Seq<u8>,
    c: u32,
    i: int,
)
    requires
        forall|v: u8| #[trigger] d2(v) is Some ==> d2(v) == d1(v),
        cycle_walk(d1, s, c, i) is None,
    ensures
        cycle_walk(d2, s, c, i) is None,
    decreases chain_measure(c), s.len() + 9 - i,
{
    if 0 <= i < s.len() {
        let op = s[i];
        if op == opcodes::VAR {
            let v = s[i + 1];
            lemma_walk_fewer(d1, d2, s, c, i + 2);
            if let Some(b) = d2(v) {
                lemma_chain_grows(c, v);
                lemma_walk_fewer(d1, d2, b, c | bit_of(v), 0);
            }
        } else {
            lemma_walk_fewer(d1, d2, s, c, i + ins_width(op));
        }
    }
}

/// Walking an old body with `var` newly bound to `b`: succeeds when the
/// old walk did, `b` itself walks without leading back to `var`, and
/// every letter of the chain reaches all that the current position
/// reaches.
proof fn lemma_walk_insert(m: Map<u8, Seq<u8>>, var: u8, b: Seq<u8>, s: Seq<u8>, c: u32, i: int)
    requires
        is_lower(var),
        cycle_walk(defs_fn(m.insert(var, b)), b, bit_of(var), 0) is None,
        cycle_walk(defs_fn(m), s, c, i) is None,
        c & bit_of(var) == 0,
        forall|w: u8|
            is_lower(w) && #[trigger] (c & bit_of(w)) != 0 ==> {
                &&& m.contains_key(w)
                &&& w != var
                &&& forall|x: u8, n: nat| #[trigger]
                    reach_from(defs_fn(m.insert(var, b)), s, i, x, n) ==> reaches(
                        defs_fn(m.insert(var, b)),
                        m[w],
                        0,
                        x,
                    )
            },
    ensures
        cycle_walk(defs_fn(m.insert(var, b)), s, c, i) is None,
    decreases chain_measure(c), s.len() + 9 - i,
{
    let d = defs_fn(m);
    let d2 = defs_fn(m.insert(var, b));
    if 0 <= i < s.len() {
        let op = s[i];
        if op == opcodes::VAR {
            let v = s[i + 1];
            // the rest of the body
            assert forall|w: u8|
                is_lower(w) && #[trigger] (c & bit_of(w)) != 0 implies forall|x: u8, n: nat| #[trigger]
                reach_from(d2, s, i + 2, x, n) ==> reaches(d2, m[w], 0, x) by {
                assert forall|x: u8, n: nat| #[trigger] reach_from(d2, s, i + 2, x, n) implies reaches(d2, m[w], 0, x) by {
                    assert(reach_from(d2, s, i, x, n));
                }
            }
            lemma_walk_insert(m, var, b, s, c, i + 2);
            if v == var {
                assert(d2(var) == Some(b));
                assert forall|x: u8, n: nat| #[trigger] reach_from(d2, b, 0, x, n) implies c & bit_of(x) == 0 by {
                    lemma_walk_reach(d2, b, bit_of(var), 0, x, n);
                    if c & bit_of(x) != 0 {
                        assert(reach_from(d2, s, i, var, 0));
                        assert(reaches(d2, m[x], 0, var));
                        let n2 = choose|n2: nat| reach_from(d2, m[x], 0, var, n2);
                        assert(d2(x) == Some(m[x]));
                        lemma_reach_trans(d2, b, 0, x, n, var, n2);
                        lemma_walk_reach(d2, b, bit_of(var), 0, var, n + n2 + 1);
                        lemma_bits(var, var);
                    }
                }
                lemma_walk_extend(d2, b, bit_of(var), c, 0);
                assert(bit_of(var) | c == c | bit_of(var)) by (bit_vector);
            } else if let Some(bv) = d(v) {
                lemma_bits(v, var);
                lemma_chain_grows(c, v);
                assert(d2(v) == Some(bv));
                assert((c | bit_of(v)) & bit_of(var) == 0) by {
                    lemma_or_bits(c, bit_of(v), bit_of(var));
                }
                assert forall|w: u8|
                    is_lower(w) && #[trigger] ((c | bit_of(v)) & bit_of(w)) != 0 implies {
                        &&& m.contains_key(w)
                        &&& w != var
                        &&& forall|x: u8, n: nat| #[trigger] reach_from(d2, bv, 0, x, n) ==> reaches(d2, m[w], 0, x)
                    } by {
                    lemma_or_bits(c, bit_of(v), bit_of(w));
                    lemma_bits(v, w);
                    if c & bit_of(w) != 0 {
                        assert(c & bit_of(w) != 0);
                        assert forall|x: u8, n: nat| #[trigger] reach_from(d2, bv, 0, x, n) implies reaches(d2, m[w], 0, x) by {
                            assert(reach_from(d2, s, i, x, n + 1));
                        }
                    } else {
                        assert(w == v);
                        assert forall|x: u8, n: nat| #[trigger] reach_from(d2, bv, 0, x, n) implies reaches(d2, m[w], 0, x) by {
                            assert(m[w] == bv);
                        }
                    }
                }
                lemma_walk_insert(m, var, b, bv, c | bit_of(v), 0);
            } else {
                assert(d2(v) is None);
            }
        } else {
            let j = i + ins_width(op);
            assert forall|w: u8|
                is_lower(w) && #[trigger] (c & bit_of(w)) != 0 implies forall|x: u8, n: nat| #[trigger]
                reach_from(d2, s, j, x, n) ==> reaches(d2, m[w], 0, x) by {
                assert forall|x: u8, n: nat| #[trigger] reach_from(d2, s, j, x, n) implies reaches(d2, m[w], 0, x) by {
                    assert(reach_from(d2, s, i, x, n));
                }
            }
            lemma_walk_insert(m, var, b, s, c, j);
        }
    }
}

/// Binding `var` to a body that does not lead back to it keeps the
/// definitions acyclic.
pub proof fn lemma_insert_acyclic(m: Map<u8, Seq<u8>>, var: u8, b: Seq<u8>)
    requires
        acyclic(m),
        is_lower(var),
        cycle_walk(defs_fn(m.insert(var, b)), b, bit_of(var), 0) is None,
    ensures
        acyclic(m.insert(var, b)),
{
    let m2 = m.insert(var, b);
    let d2 = defs_fn(m2);
    assert forall|u: u8| #[trigger] m2.contains_key(u) implies cycle_walk(d2, m2[u], bit_of(u), 0) is None by {
        if u != var {
            assert(m.contains_key(u));
            assert(m2[u] == m[u]);
            assert(cycle_walk(defs_fn(m), m[u], bit_of(u), 0) is None);
            if is_lower(u) {
                lemma_bits(u, var);
            } else {
                assert(0u32 & bit_of(var) == 0) by (bit_vector);
            }
            assert forall|w: u8|
                is_lower(w) && #[trigger] (bit_of(u) & bit_of(w)) != 0 implies {
                    &&& m.contains_key(w)
                    &&& w != var
                    &&& forall|x: u8, n: nat| #[trigger] reach_from(d2, m[u], 0, x, n) ==> reaches(d2, m[w], 0, x)
                } by {
                if is_lower(u) {
                    lemma_bits(u, w);
                } else {
                    assert(0u32 & bit_of(w) == 0) by (bit_vector);
                }
                assert(w == u);
            }
            lemma_walk_insert(m, var, b, m[u], bit_of(u), 0);
        }
    }
}

/// Dropping a definition keeps the definitions acyclic.
pub proof fn lemma_remove_acyclic(m: Map<u8, Seq<u8>>, v: u8)
    requires
        acyclic(m),
    ensures
        acyclic(m.remove(v)),
{
    let m2 = m.remove(v);
    assert forall|u: u8| #[trigger] m2.contains_key(u) implies cycle_walk(defs_fn(m2), m2[u], bit_of(u), 0) is None by {
        assert(m.contains_key(u));
        assert forall|w: u8| #[trigger] defs_fn(m2)(w) is Some implies defs_fn(m2)(w) == defs_fn(m)(w) by {}
        lemma_walk_fewer(defs_fn(m), defs_fn(m2), m[u], bit_of(u), 0);
    }
}

} // verus!
