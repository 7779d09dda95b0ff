//! The fast path for number literals.
//!
//! Most literals in practice have a short mantissa and a small decimal
//! exponent. When the mantissa `m` is below `2^53` and the shift `k` is
//! within `[-22, 22]`, both `m` and `10^|k|` are exact binary64 values,
//! and one correctly rounded multiplication (or division) gives the
//! correctly rounded value of the literal. Pure integers of at most 19
//! digits convert in one rounding step too. [`try_fast`] takes these
//! cases and declines the rest, and its contract proves it agrees with
//! the exact conversion ([`lit_bits`]) wherever it answers.
use vstd::prelude::*;
use vstd::arithmetic::power2::*;
use crate::binary64::{
    frac_unit, is_rne, lemma_exact_int, lemma_frac_unit, lemma_rne_is, lemma_rne_unscale, lemma_rne_zero, rne, scaled,
    INF_MAG,
};
use crate::decimal::{
    digits_value, is_digit, lemma_p10_pos, lit_bits, lit_end, lit_exp_digits, lit_has_dot, lit_has_exp, lit_layout,
    lit_mant, lit_shift, p10, ratio_den, ratio_num, starts_number,
};
use crate::display::{lemma_p10_split, p5};
use crate::fpu::{div_f64, mag_of, mul_f64, sign_of, u128_to_f64, u64_to_f64};

verus! {

/// The mantissa limit of the fast path: `2^53 - 1`.
pub const M_EXACT_LIMIT: u64 = 9007199254740991;

/// The exponent digits of the literal `s` run past five digits' worth
/// before their end: some digit comes when the value read so far already
/// exceeds `99 999`.
pub open spec fn exp_capped(s: Seq<u8>, start: int) -> bool {
    &&& lit_has_exp(s, start)
    &&& exists|j: int|
        lit_exp_digits(s, start) <= j < lit_end(s, start) && #[trigger] digits_value(
            s.subrange(lit_exp_digits(s, start), j),
        ) > 99_999
}

/// The literal at `start` is within the fast path's reach.
pub open spec fn fast_ok(s: Seq<u8>, start: int) -> bool {
    let m = lit_mant(s, start);
    let k = lit_shift(s, start);
    &&& m <= u64::MAX
    &&& !exp_capped(s, start)
    &&& (m == 0 || (!lit_has_dot(s, start) && k == 0 && lit_end(s, start) - start <= 19) || (m < M_EXACT_LIMIT
        && -22 <= k <= 22))
}

/// Digits `seg` read on top of the value `m0`.
pub open spec fn fold_val(m0: nat, seg: Seq<u8>) -> nat
    decreases seg.len(),
{
    if seg.len() == 0 {
        m0
    } else {
        fold_val(m0, seg.drop_last()) * 10 + (seg.last() - 48) as nat
    }
}

proof fn lemma_fold_digits(a: Seq<u8>, b: Seq<u8>)
    ensures
        fold_val(digits_value(a), b) == digits_value(a + b),
    decreases b.len(),
{
    if b.len() == 0 {
        assert(a + b =~= a);
    } else {
        lemma_fold_digits(a, b.drop_last());
        assert((a + b).drop_last() =~= a + b.drop_last());
    }
}

proof fn lemma_fold_zero(b: Seq<u8>)
    ensures
        fold_val(0, b) == digits_value(b),
{
    lemma_fold_digits(Seq::empty(), b);
    assert(Seq::<u8>::empty() + b =~= b);
    assert(digits_value(Seq::<u8>::empty()) == 0);
}

proof fn lemma_fold_mono(m0: nat, seg: Seq<u8>, j: int)
    requires
        0 <= j <= seg.len(),
        forall|x: int| 0 <= x < seg.len() ==> is_digit(#[trigger] seg[x]),
    ensures
        fold_val(m0, seg.subrange(0, j)) <= fold_val(m0, seg),
    decreases seg.len(),
{
    if j < seg.len() {
        let t = seg.drop_last();
        lemma_fold_mono(m0, t, j);
        assert(t.subrange(0, j) =~= seg.subrange(0, j));
    } else {
        assert(seg.subrange(0, j) =~= seg);
    }
}

/// Digits `from..to` folded onto `m0`, `None` once the value passes
/// `u64::MAX`.
fn fold_digits(src: &[u8], from: usize, to: usize, m0: u64) -> (r: Option<u64>)
    requires
        from <= to <= src@.len(),
        forall|x: int| from <= x < to ==> is_digit(#[trigger] src@[x]),
    ensures
        match r {
            Some(v) => v == fold_val(m0 as nat, src@.subrange(from as int, to as int)),
            None => fold_val(m0 as nat, src@.subrange(from as int, to as int)) > u64::MAX,
        },
{
    let mut m = m0;
    let mut i = from;
    proof {
        assert(src@.subrange(from as int, from as int) =~= Seq::<u8>::empty());
    }
    while i < to
        invariant
            from <= i <= to <= src@.len(),
            forall|x: int| from <= x < to ==> is_digit(#[trigger] src@[x]),
            m == fold_val(m0 as nat, src@.subrange(from as int, i as int)),
        decreases to - i,
    {
        let d = (src[i] - 48) as u64;
        let ghost seg = src@.subrange(from as int, to as int);
        proof {
            assert(src@.subrange(from as int, i + 1).drop_last() =~= src@.subrange(from as int, i as int));
            assert forall|x: int| 0 <= x < seg.len() implies is_digit(#[trigger] seg[x]) by {
                assert(seg[x] == src@[from + x]);
            }
            lemma_fold_mono(m0 as nat, seg, i + 1 - from);
            assert(seg.subrange(0, i + 1 - from) =~= src@.subrange(from as int, i + 1));
        }
        match m.checked_mul(10) {
            None => {
                return None;
            },
            Some(x) => match x.checked_add(d) {
                None => {
                    return None;
                },
                Some(y) => {
                    m = y;
                },
            },
        }
        i = i + 1;
    }
    Some(m)
}

proof fn lemma_p5_small(k: nat)
    requires
        k <= 22,
    ensures
        0 < p5(k) < 2 * frac_unit(),
    decreases k,
{
    lemma_frac_unit();
    lemma2_to64();
    if k > 0 {
        lemma_p5_small((k - 1) as nat);
    }
    assert(p5(22) == 2384185791015625) by {
        reveal_with_fuel(p5, 23);
    }
    lemma_p5_mono(k, 22);
}

proof fn lemma_p5_mono(a: nat, b: nat)
    requires
        a <= b,
    ensures
        0 < p5(a) <= p5(b),
    decreases b,
{
    if b > 0 {
        if a < b {
            lemma_p5_mono(a, (b - 1) as nat);
        } else {
            lemma_p5_mono((b - 1) as nat, (b - 1) as nat);
        }
    }
}

/// `10^k` as an exact binary64 encoding.
fn pow10_bits(k: u32) -> (r: u64)
    requires
        k <= 22,
    ensures
        scaled(r as nat) == p10(k as nat) * pow2(1074),
        is_rne(r as nat, p10(k as nat), 1),
        r < INF_MAG,
{
    let mut v: u128 = 1;
    let mut i: u32 = 0;
    proof {
        assert(p10(22) == 10000000000000000000000) by {
            reveal_with_fuel(p10, 23);
        }
    }
    while i < k
        invariant
            i <= k <= 22,
            v == p10(i as nat),
            p10(22) == 10000000000000000000000,
        decreases k - i,
    {
        proof {
            lemma_p10_le((i + 1) as nat, 22);
        }
        v = v * 10;
        i = i + 1;
    }
    let r = u128_to_f64(v);
    proof {
        let kk = k as nat;
        lemma_p10_split(kk);
        lemma_p5_small(kk);
        lemma_exact_int(p5(kk), kk);
        assert(p5(kk) * pow2(kk) == p10(kk));
        lemma_rne_is(r as nat, p10(kk), 1);
        assert(r as nat == rne(p10(kk), 1));
    }
    r
}

proof fn lemma_p10_le(a: nat, b: nat)
    requires
        a <= b,
    ensures
        p10(a) <= p10(b),
    decreases b - a,
{
    if a < b {
        lemma_p10_le(a, (b - 1) as nat);
        lemma_p10_pos((b - 1) as nat);
    }
}

/// `m * 10^k` correctly rounded, by one binary64 multiplication (or
/// division) of exact operands.
fn fast_value(m: u64, k: i128) -> (r: u64)
    requires
        0 < m < M_EXACT_LIMIT,
        -22 <= k <= 22,
    ensures
        r == rne(ratio_num(m as nat, k as int), ratio_den(k as int)),
        r <= INF_MAG,
{
    let x = u64_to_f64(m);
    proof {
        lemma_frac_unit();
        lemma2_to64();
        assert(m * pow2(0) == m);
        lemma_exact_int(m as nat, 0);
        lemma_rne_is(x as nat, m as nat, 1);
        assert(scaled(x as nat) == m * pow2(1074));
        assert(mag_of(x) == x);
    }
    if k >= 0 {
        let y = pow10_bits(k as u32);
        let v = mul_f64(x, y);
        proof {
            let kk = k as nat;
            assert(mag_of(y) == y);
            lemma_pow2_adds(1074, 1074);
            assert(scaled(mag_of(x)) * scaled(mag_of(y)) == (m * p10(kk)) * pow2(2148)) by (nonlinear_arith)
                requires scaled(mag_of(x)) == m * pow2(1074), scaled(mag_of(y)) == p10(kk) * pow2(1074),
                    pow2(2148) == pow2(1074) * pow2(1074);
            assert(1 * pow2(2148) == pow2(2148));
            lemma_pow2_pos(2148);
            lemma_rne_unscale(mag_of(v), (m * p10(kk)) as nat, 1, pow2(2148));
            lemma_rne_is(mag_of(v), (m * p10(kk)) as nat, 1);
            assert(!sign_of(v));
            assert(v == mag_of(v));
        }
        v
    } else {
        let y = pow10_bits((-k) as u32);
        let v = div_f64(x, y);
        proof {
            let kk = (-k) as nat;
            assert(((-k) as u32) as nat == kk);
            assert(mag_of(y) == y);
            lemma_p10_pos(kk);
            lemma_pow2_pos(1074);
            assert(scaled(mag_of(y)) > 0) by (nonlinear_arith)
                requires scaled(mag_of(y)) == p10(kk) * pow2(1074), p10(kk) > 0, pow2(1074) > 0;
            assert(mag_of(y) > 0) by {
                if mag_of(y) == 0 {
                    assert(scaled(0) == 0);
                }
            }
            lemma_rne_unscale(mag_of(v), m as nat, p10(kk), pow2(1074));
            lemma_rne_is(mag_of(v), m as nat, p10(kk));
            assert(!sign_of(v));
            assert(v == mag_of(v));
        }
        v
    }
}

/// The fast conversion of the literal at `start`: `Some` with its
/// correctly rounded binary64 encoding when the literal is within the
/// fast path's reach, `None` otherwise.
pub fn fast_at(s: &[u8], start: usize) -> (r: Option<u64>)
    requires
        starts_number(s@, start as int),
    ensures
        r == (if fast_ok(s@, start as int) { Some(lit_bits(s@, start as int) as u64) } else { None }),
        r matches Some(v) ==> v as nat == lit_bits(s@, start as int) && v <= INF_MAG,
{
    let ghost src = s@;
    let ghost st = start as int;
    let (i1, has_dot, i2, has_exp, neg, jd, end) = lit_layout(s, start);
    let m1 = match fold_digits(s, start, i1, 0) {
        Some(v) => v,
        None => {
            proof {
                lemma_fold_zero(src.subrange(st, i1 as int));
                if has_dot {
                    lemma_fold_digits(src.subrange(st, i1 as int), src.subrange(i1 + 1, i2 as int));
                    let b = src.subrange(i1 + 1, i2 as int);
                    assert forall|x: int| 0 <= x < b.len() implies is_digit(#[trigger] b[x]) by {
                        assert(b[x] == src[i1 + 1 + x]);
                    }
                    lemma_fold_mono(digits_value(src.subrange(st, i1 as int)), b, 0);
                    assert(b.subrange(0, 0) =~= Seq::<u8>::empty());
                }
            }
            return None;
        },
    };
    proof {
        lemma_fold_zero(src.subrange(st, i1 as int));
    }
    let m = if has_dot {
        match fold_digits(s, i1 + 1, i2, m1) {
            Some(v) => v,
            None => {
                proof {
                    lemma_fold_digits(src.subrange(st, i1 as int), src.subrange(i1 + 1, i2 as int));
                }
                return None;
            },
        }
    } else {
        m1
    };
    proof {
        if has_dot {
            lemma_fold_digits(src.subrange(st, i1 as int), src.subrange(i1 + 1, i2 as int));
        }
        assert(m == lit_mant(src, st));
    }
    let mut e: u32 = 0;
    let mut capped = false;
    if has_exp {
        let mut i = jd;
        proof {
            assert(src.subrange(jd as int, jd as int) =~= Seq::<u8>::empty());
        }
        while i < end
            invariant
                jd <= i <= end <= src.len(),
                forall|x: int| jd <= x < end ==> is_digit(#[trigger] src[x]),
                s@ == src,
                capped == exists|j: int| jd <= j < i && #[trigger] digits_value(src.subrange(jd as int, j)) > 99_999,
                !capped ==> e == digits_value(src.subrange(jd as int, i as int)),
                capped ==> e > 99_999,
                e <= 999_999,
            decreases end - i,
        {
            proof {
                assert(src.subrange(jd as int, i + 1).drop_last() =~= src.subrange(jd as int, i as int));
            }
            if e <= 99_999 {
                e = e * 10 + (s[i] - 48) as u32;
            } else {
                capped = true;
            }
            i = i + 1;
        }
    }
    proof {
        assert(has_exp ==> lit_exp_digits(src, st) == jd);
    }
    if capped {
        return None;
    }
    if m == 0 {
        proof {
            let k = lit_shift(src, st);
            if k < 0 {
                lemma_p10_pos((-k) as nat);
            }
            assert(ratio_num(0, k) == 0) by {
                if k >= 0 {
                    assert(0 * p10(k as nat) == 0) by (nonlinear_arith);
                }
            }
            lemma_rne_zero(0, ratio_den(k));
            lemma_rne_is(0, 0, ratio_den(k));
        }
        return Some(0);
    }
    let frac_len: i128 = if has_dot { (i2 - i1 - 1) as i128 } else { 0 };
    let signed_e: i128 = if neg { -(e as i128) } else { e as i128 };
    let k: i128 = signed_e - frac_len;
    proof {
        assert(k == lit_shift(src, st));
    }
    if !has_dot && signed_e == 0 && end - start <= 19 {
        let v = u64_to_f64(m);
        proof {
            assert(p10(0) == 1) by {
                reveal_with_fuel(p10, 1);
            }
            assert(ratio_num(m as nat, 0) == m) by {
                assert(m * p10(0) == m) by (nonlinear_arith) requires p10(0) == 1;
            }
            lemma_rne_is(v as nat, m as nat, 1);
        }
        return Some(v);
    }
    if m >= M_EXACT_LIMIT {
        return None;
    }
    if k < -22 || k > 22 {
        return None;
    }
    let v = fast_value(m, k);
    Some(v)
}

/// The fast conversion of a whole literal `s`, as the lexer finds it.
pub fn try_fast(s: &[u8]) -> (r: Option<u64>)
    requires
        starts_number(s@, 0),
        lit_end(s@, 0) == s@.len(),
    ensures
        r == (if fast_ok(s@, 0) { Some(lit_bits(s@, 0) as u64) } else { None }),
{
    fast_at(s, 0)
}

/// The slow path: the exact conversion of a whole literal `s`, for any
/// literal (`INF_MAG` when the value overflows).
pub fn fallback(s: &[u8]) -> (r: Option<u64>)
    requires
        starts_number(s@, 0),
        lit_end(s@, 0) == s@.len(),
    ensures
        r == Some(lit_bits(s@, 0) as u64),
{
    let (_, bits) = crate::decimal::scan_decimal(s, 0);
    Some(bits)
}

} // verus!
