//! The decimal text of a finite binary64 value: the shortest digit
//! string that reads back as the same value, written out without an
//! exponent.
//!
//! The digits are found level by level. At level `k` the value `v` lies
//! between the multiples `t * 10^k` and `(t + 1) * 10^k` of `10^k`,
//! `t = floor(v / 10^k)`. The text uses the coarsest level at which one
//! of the two reads back as `v` (rounded to nearest, ties to even), and
//! the nearer of the two when both do, the upper one on a tie.
use vstd::prelude::*;
use vstd::arithmetic::power2::*;
use vstd::arithmetic::div_mod::*;
use crate::binary64::{is_rne, lemma_rne_exact, lemma_rne_unique, lemma_rne_zero, lemma_scaled_strict_mono, lemma_scaled_succ, round_ratio, scaled, dist, frac_unit, INF_MAG};
use crate::decimal::{lemma_p10_pos, p10, ratio_den, ratio_num};
use crate::fpu::{mag_bits, mag_of, pow2_value, scaled_value, sign_of};
use crate::natbits::{bv, div10, from_u128, is_zero, mul10, nat_add, nat_order, nat_shl, nat_shr};

verus! {

broadcast use lemma_pow2_pos;

/// `floor(v / 10^k)` for the value `v = n / 2^1074`.
pub open spec fn trunc_of(n: nat, k: int) -> nat {
    if k >= 0 {
        n / (p10(k as nat) * pow2(1074))
    } else {
        (n * p10((-k) as nat)) / pow2(1074)
    }
}

/// `c * 10^k` reads back as the magnitude pattern `m`.
pub open spec fn reads_as(m: nat, c: nat, k: int) -> bool {
    is_rne(m, ratio_num(c, k), ratio_den(k))
}

/// At level `k`, the lower or the upper multiple of `10^k` around the
/// value of `m` reads back as `m`.
pub open spec fn level_ok(m: nat, k: int) -> bool {
    let t = trunc_of(scaled(m), k);
    reads_as(m, t, k) || reads_as(m, t + 1, k)
}

/// `k` is the coarsest level that works.
pub open spec fn is_best_level(m: nat, k: int) -> bool {
    &&& level_ok(m, k)
    &&& forall|j: int| j > k ==> !#[trigger] level_ok(m, j)
}

pub open spec fn best_level(m: nat) -> int {
    choose|k: int| is_best_level(m, k)
}

/// The upper multiple `(t + 1) * 10^k` is at least as near to the value
/// `n / 2^1074` as the lower one `t * 10^k`.
pub open spec fn upper_nearer(n: nat, t: nat, k: int) -> bool {
    if k >= 0 {
        2 * n >= (2 * t + 1) * p10(k as nat) * pow2(1074)
    } else {
        2 * n * p10((-k) as nat) >= (2 * t + 1) * pow2(1074)
    }
}

/// The digits (as a number) of the shortest text of the nonzero
/// magnitude `m`; its last digit stands at level `best_level(m)`.
pub open spec fn shortest_mant(m: nat) -> nat {
    let k = best_level(m);
    let t = trunc_of(scaled(m), k);
    let lo = reads_as(m, t, k);
    let hi = reads_as(m, t + 1, k);
    if lo && hi {
        if upper_nearer(scaled(m), t, k) {
            t + 1
        } else {
            t
        }
    } else if lo {
        t
    } else {
        t + 1
    }
}

/// Decimal digits of `c`, most significant first.
pub open spec fn dec_digits(c: nat) -> Seq<u8>
    decreases c,
{
    if c < 10 {
        seq![(c + 48) as u8]
    } else {
        dec_digits(c / 10).push((c % 10 + 48) as u8)
    }
}

pub open spec fn zeros_text(n: nat) -> Seq<u8> {
    Seq::new(n, |i: int| 48u8)
}

/// Digits `ds` with the decimal point after `exp` of them: leading
/// `0.` and zeros when `exp <= 0`, trailing zeros when `exp` passes the
/// last digit.
pub open spec fn place_point(ds: Seq<u8>, exp: int) -> Seq<u8> {
    if exp <= 0 {
        seq![48u8, 46u8] + zeros_text((-exp) as nat) + ds
    } else if exp < ds.len() {
        ds.subrange(0, exp) + seq![46u8] + ds.subrange(exp, ds.len() as int)
    } else {
        ds + zeros_text((exp - ds.len()) as nat)
    }
}

/// The text of a finite encoding `x`: a `-` for a negative sign (also
/// on zero), then `0` or the shortest digits with their point placed.
pub open spec fn display_text(x: u64) -> Seq<u8> {
    let sign = if sign_of(x) {
        seq![45u8]
    } else {
        Seq::<u8>::empty()
    };
    let m = mag_of(x);
    if m == 0 {
        sign + seq![48u8]
    } else {
        let ds = dec_digits(shortest_mant(m));
        sign + place_point(ds, best_level(m) + ds.len())
    }
}

/// `10^k` lies at or below `2v`, for `v = n / 2^1074`.
pub open spec fn ten_pow_within(n: nat, k: int) -> bool {
    if k >= 0 {
        p10(k as nat) * pow2(1074) <= 2 * n
    } else {
        pow2(1074) <= 2 * n * p10((-k) as nat)
    }
}

/// `5^k`.
pub open spec fn p5(k: nat) -> nat
    decreases k,
{
    if k == 0 {
        1
    } else {
        5 * p5((k - 1) as nat)
    }
}

pub proof fn lemma_p10_split(k: nat)
    ensures
        p10(k) == pow2(k) * p5(k),
    decreases k,
{
    if k == 0 {
        lemma2_to64();
    } else {
        lemma_p10_split((k - 1) as nat);
        lemma_pow2_unfold(k);
        assert(10 * (pow2((k - 1) as nat) * p5((k - 1) as nat)) == (2 * pow2((k - 1) as nat)) * (5 * p5(
            (k - 1) as nat,
        ))) by (nonlinear_arith);
    }
}

proof fn lemma_p10_mono(a: nat, b: nat)
    requires
        a <= b,
    ensures
        p10(a) <= p10(b),
    decreases b - a,
{
    if a < b {
        lemma_p10_mono(a, (b - 1) as nat);
        lemma_p10_pos((b - 1) as nat);
    }
}

/// Once a power of ten passes `2v`, all higher ones do.
proof fn lemma_beyond_up(n: nat, a: int, b: int)
    requires
        !ten_pow_within(n, a),
        a <= b,
    ensures
        !ten_pow_within(n, b),
    decreases b - a,
{
    if a < b {
        lemma_beyond_up(n, a, b - 1);
        let k = b - 1;
        if k >= 0 {
            lemma_p10_pos(k as nat);
            assert(p10(b as nat) == 10 * p10(k as nat));
            assert(p10(b as nat) * pow2(1074) >= p10(k as nat) * pow2(1074)) by (nonlinear_arith)
                requires p10(b as nat) == 10 * p10(k as nat);
        } else if k == -1 {
            assert(p10(1) == 10 * p10(0));
            assert(2 * n * p10(1) >= 2 * n) by (nonlinear_arith)
                requires p10(1) == 10 * p10(0), p10(0) == 1;
            assert(p10(0) * pow2(1074) == pow2(1074));
        } else {
            assert(p10((-k) as nat) == 10 * p10((-b) as nat));
            assert(2 * n * p10((-k) as nat) >= 2 * n * p10((-b) as nat)) by (nonlinear_arith)
                requires p10((-k) as nat) == 10 * p10((-b) as nat);
        }
    }
}

/// The successor pattern is at most twice as large.
proof fn lemma_scaled_double(m: nat)
    requires
        m >= 1,
    ensures
        scaled(m + 1) <= 2 * scaled(m),
{
    lemma_scaled_succ(m);
    if m / frac_unit() == 0 {
        assert(scaled(m) == m);
    } else {
        let e = m / frac_unit();
        assert(scaled(m) == (m % frac_unit() + frac_unit()) * pow2((e - 1) as nat));
        assert(scaled(m) >= pow2((e - 1) as nat)) by (nonlinear_arith)
            requires scaled(m) == (m % frac_unit() + frac_unit()) * pow2((e - 1) as nat);
    }
}

/// No level whose power of ten passes `2v` works.
pub proof fn lemma_high_level(m: nat, j: int)
    requires
        0 < m < INF_MAG,
        !ten_pow_within(scaled(m), j),
    ensures
        !level_ok(m, j),
{
    let n = scaled(m);
    let pp = pow2(1074);
    lemma_scaled_strict_mono(0, m);
    assert(scaled(0) == 0);
    let den = ratio_den(j);
    if j >= 0 {
        lemma_p10_pos(j as nat);
        assert(n < p10(j as nat) * pp) by (nonlinear_arith)
            requires p10(j as nat) * pp > 2 * n, n > 0;
        lemma_basic_div(n as int, (p10(j as nat) * pp) as int);
    } else {
        lemma_p10_pos((-j) as nat);
        assert(n * p10((-j) as nat) < pp) by (nonlinear_arith)
            requires pp > 2 * n * p10((-j) as nat), n > 0;
        lemma_basic_div((n * p10((-j) as nat)) as int, pp as int);
        lemma_p10_pos((-j) as nat);
    }
    assert(trunc_of(n, j) == 0);
    assert(den > 0) by {
        if j < 0 {
            lemma_p10_pos((-j) as nat);
        }
    }
    // zero reads back as zero only
    assert(ratio_num(0, j) == 0) by (nonlinear_arith);
    lemma_rne_zero(0, den);
    if reads_as(m, 0, j) {
        lemma_rne_unique(m, 0, 0, den);
    }
    // one unit of the level is past the successor pattern
    let num = ratio_num(1, j);
    assert(num * pp > 2 * n * den) by {
        if j >= 0 {
            assert(num == p10(j as nat));
        } else {
            assert(num == 1);
        }
    }
    lemma_scaled_double(m);
    lemma_scaled_strict_mono(m, m + 1);
    assert(scaled(m + 1) * den <= 2 * n * den) by (nonlinear_arith)
        requires scaled(m + 1) <= 2 * n;
    assert(scaled(m) * den < scaled(m + 1) * den) by (nonlinear_arith)
        requires scaled(m) < scaled(m + 1), den > 0;
    assert(dist(m + 1, num, den) < dist(m, num, den));
    if reads_as(m, 1, j) {
        assert(m + 1 <= INF_MAG);
        assert(dist(m, num, den) <= dist(m + 1, num, den));
    }
}

/// At level `-1074` the lower multiple is the value itself.
pub proof fn lemma_exact_level(m: nat)
    requires
        m < INF_MAG,
    ensures
        level_ok(m, -1074),
{
    let n = scaled(m);
    let pp = pow2(1074);
    lemma_p10_split(1074);
    let q = n * p5(1074);
    assert(n * p10(1074) == q * pp) by (nonlinear_arith)
        requires p10(1074) == pp * p5(1074), q == n * p5(1074);
    lemma_div_by_multiple(q as int, pp as int);
    assert(trunc_of(n, -1074) == q);
    lemma_p10_pos(1074);
    assert(ratio_num(q, -1074) == q);
    assert(ratio_den(-1074) == p10(1074));
    lemma_rne_exact(m, q, p10(1074));
}

proof fn lemma_best_unique(m: nat, k: int)
    requires
        is_best_level(m, k),
    ensures
        best_level(m) == k,
{
    let b = best_level(m);
    assert(is_best_level(m, b));
    if b > k {
        assert(!level_ok(m, b));
    } else if b < k {
        assert(!level_ok(m, k));
    }
}

/// `10^k` exactly.
fn pow10_value(k: usize) -> (r: Vec<bool>)
    ensures
        bv(r@) == p10(k as nat),
{
    let one = from_u128(1);
    mul_pow10(&one, k)
}

/// `a * 10^k`.
fn mul_pow10(a: &Vec<bool>, k: usize) -> (r: Vec<bool>)
    ensures
        bv(r@) == bv(a@) * p10(k as nat),
{
    let mut x = nat_shl(a, 0);
    let mut i: usize = 0;
    proof {
        assert(pow2(0) == 1) by { lemma2_to64(); }
    }
    while i < k
        invariant
            i <= k,
            bv(x@) == bv(a@) * p10(i as nat),
        decreases k - i,
    {
        x = mul10(&x);
        proof {
            assert(bv(a@) * p10(i as nat) * 10 == bv(a@) * p10((i + 1) as nat)) by (nonlinear_arith)
                requires p10((i + 1) as nat) == 10 * p10(i as nat);
        }
        i = i + 1;
    }
    x
}

/// `floor(v / 10^k)` for `v = n / 2^1074`.
fn trunc_value(n: &Vec<bool>, k: i64) -> (r: Vec<bool>)
    requires
        -2000 <= k <= 2000,
    ensures
        bv(r@) == trunc_of(bv(n@), k as int),
{
    if k >= 0 {
        let mut q = nat_shr(n, 1074);
        let mut i: i64 = 0;
        proof {
            assert(p10(0) == 1);
            assert(pow2(1074) * p10(0) == pow2(1074));
        }
        while i < k
            invariant
                0 <= i <= k,
                bv(q@) == bv(n@) / (pow2(1074) * p10(i as nat)),
            decreases k - i,
        {
            let (q2, d) = div10(&q);
            proof {
                lemma_p10_pos(i as nat);
                assert(pow2(1074) * p10(i as nat) > 0) by (nonlinear_arith)
                    requires pow2(1074) > 0, p10(i as nat) >= 1;
                lemma_fundamental_div_mod_converse(bv(q@) as int, 10, bv(q2@) as int, d as int);
                lemma_div_denominator(bv(n@) as int, (pow2(1074) * p10(i as nat)) as int, 10);
                assert(pow2(1074) * p10(i as nat) * 10 == pow2(1074) * p10((i + 1) as nat)) by (nonlinear_arith)
                    requires p10((i + 1) as nat) == 10 * p10(i as nat);
            }
            q = q2;
            i = i + 1;
        }
        proof {
            assert(pow2(1074) * p10(k as nat) == p10(k as nat) * pow2(1074)) by (nonlinear_arith);
        }
        q
    } else {
        let x = mul_pow10(n, (-k) as usize);
        nat_shr(&x, 1074)
    }
}

/// `c * 10^k` reads back as `m`.
fn reads_exec(m: u64, c: &Vec<bool>, k: i64) -> (r: bool)
    requires
        -2000 <= k <= 2000,
    ensures
        r == reads_as(m as nat, bv(c@), k as int),
{
    let (num, den) = if k >= 0 {
        (mul_pow10(c, k as usize), from_u128(1))
    } else {
        (nat_shl(c, 0), pow10_value((-k) as usize))
    };
    proof {
        assert(pow2(0) == 1) by { lemma2_to64(); }
        if k < 0 {
            lemma_p10_pos((-k) as nat);
        }
        assert(bv(num@) == ratio_num(bv(c@), k as int));
        assert(bv(den@) == ratio_den(k as int));
    }
    let mm = round_ratio(&num, &den);
    proof {
        if mm != m && reads_as(m as nat, bv(c@), k as int) {
            lemma_rne_unique(m as nat, mm as nat, bv(num@), bv(den@));
        }
    }
    mm == m
}

/// The upper multiple is at least as near as the lower one.
fn upper_exec(n: &Vec<bool>, t: &Vec<bool>, k: i64) -> (r: bool)
    requires
        -2000 <= k <= 2000,
    ensures
        r == upper_nearer(bv(n@), bv(t@), k as int),
{
    let one = from_u128(1);
    let t2 = nat_add(&nat_shl(t, 1), &one);
    proof {
        lemma2_to64();
    }
    if k >= 0 {
        let lhs = nat_shl(n, 1);
        let rhs = nat_shl(&mul_pow10(&t2, k as usize), 1074);
        nat_order(&lhs, &rhs) >= 0
    } else {
        let lhs = nat_shl(&mul_pow10(n, (-k) as usize), 1);
        let rhs = nat_shl(&t2, 1074);
        proof {
            assert(bv(n@) * p10((-k) as nat) * 2 == 2 * bv(n@) * p10((-k) as nat)) by (nonlinear_arith);
        }
        nat_order(&lhs, &rhs) >= 0
    }
}

/// The highest level whose power of ten lies at or below `2v`.
fn top_level(n: &Vec<bool>) -> (k: i64)
    requires
        bv(n@) > 0,
        bv(n@) < pow2(1024) * pow2(1074),
    ensures
        -400 <= k < 400,
        ten_pow_within(bv(n@), k as int),
        !ten_pow_within(bv(n@), k + 1),
{
    let a = nat_shl(n, 1);
    let p = pow2_value(1074);
    proof {
        lemma2_to64();
    }
    if nat_order(&p, &a) <= 0 {
        let mut j: i64 = 0;
        let mut t = nat_shl(&p, 0);
        proof {
            assert(p10(0) == 1);
            assert(p10(0) * pow2(1074) == pow2(1074));
        }
        loop
            invariant
                0 <= j < 400,
                bv(t@) == p10(j as nat) * pow2(1074),
                bv(a@) == 2 * bv(n@),
                bv(p@) == pow2(1074),
                bv(n@) < pow2(1024) * pow2(1074),
                ten_pow_within(bv(n@), j as int),
            decreases 400 - j,
        {
            let t2 = mul10(&t);
            proof {
                assert(bv(t2@) == p10((j + 1) as nat) * pow2(1074)) by (nonlinear_arith)
                    requires bv(t2@) == bv(t@) * 10, bv(t@) == p10(j as nat) * pow2(1074),
                        p10((j + 1) as nat) == 10 * p10(j as nat);
            }
            if nat_order(&t2, &a) > 0 {
                return j;
            }
            proof {
                if j + 1 >= 400 {
                    crate::decimal::lemma_p10_bounds((j + 1) as nat);
                    lemma_pow2_strictly_increases(1025, (3 * (j + 1)) as nat);
                    lemma_pow2_adds(1024, 1074);
                    lemma_pow2_adds(1025, 1074);
                    lemma_pow2_unfold(1025);
                    assert(pow2(1025) * pow2(1074) <= p10((j + 1) as nat) * pow2(1074)) by (nonlinear_arith)
                        requires pow2(1025) < pow2((3 * (j + 1)) as nat), pow2((3 * (j + 1)) as nat) <= p10((j + 1) as nat);
                    assert(2 * bv(n@) < pow2(1025) * pow2(1074)) by (nonlinear_arith)
                        requires bv(n@) < pow2(1024) * pow2(1074), pow2(1025) == 2 * pow2(1024);
                    assert(false);
                }
            }
            t = t2;
            j = j + 1;
        }
    } else {
        let mut j: i64 = 0;
        let mut mm = nat_shl(&a, 0);
        proof {
            assert(p10(0) == 1);
            assert(p10(0) * pow2(1074) == pow2(1074));
            assert(2 * bv(n@) * p10(0) == 2 * bv(n@));
            assert(!ten_pow_within(bv(n@), 0));
        }
        loop
            invariant
                -400 < j <= 0,
                bv(mm@) == 2 * bv(n@) * p10((-j) as nat),
                bv(a@) == 2 * bv(n@),
                bv(p@) == pow2(1074),
                bv(n@) > 0,
                !ten_pow_within(bv(n@), j as int),
            decreases j + 400,
        {
            let m2 = mul10(&mm);
            proof {
                assert(bv(m2@) == 2 * bv(n@) * p10((-(j - 1)) as nat)) by (nonlinear_arith)
                    requires bv(m2@) == bv(mm@) * 10, bv(mm@) == 2 * bv(n@) * p10((-j) as nat),
                        p10((-(j - 1)) as nat) == 10 * p10((-j) as nat);
            }
            if nat_order(&m2, &p) >= 0 {
                return j - 1;
            }
            proof {
                if j - 1 <= -400 {
                    crate::decimal::lemma_p10_bounds((-(j - 1)) as nat);
                    lemma_pow2_strictly_increases(1074, (3 * (-(j - 1))) as nat);
                    assert(2 * bv(n@) * p10((-(j - 1)) as nat) >= pow2(1074)) by (nonlinear_arith)
                        requires bv(n@) >= 1, p10((-(j - 1)) as nat) >= pow2((3 * (-(j - 1))) as nat),
                            pow2((3 * (-(j - 1))) as nat) > pow2(1074);
                    assert(false);
                }
            }
            mm = m2;
            j = j - 1;
        }
    }
}

/// The shortest digits of the nonzero finite magnitude `m`, and the
/// level of their last digit.
fn shortest(m: u64) -> (r: (Vec<bool>, i64))
    requires
        0 < m < INF_MAG,
    ensures
        bv(r.0@) == shortest_mant(m as nat),
        r.1 == best_level(m as nat),
        -2000 <= r.1 <= 2000,
{
    let n = scaled_value(m);
    proof {
        lemma_scaled_strict_mono(0, m as nat);
        assert(scaled(0) == 0);
        lemma_scaled_strict_mono(m as nat, INF_MAG as nat);
        crate::binary64::lemma_scaled_inf();
        lemma_pow2_adds(52, 2046);
        lemma_pow2_adds(1024, 1074);
        lemma2_to64();
        crate::binary64::lemma_frac_unit();
    }
    let top = top_level(&n);
    proof {
        assert forall|j: int| j > top implies !#[trigger] level_ok(m as nat, j) by {
            lemma_beyond_up(bv(n@), top + 1, j);
            lemma_high_level(m as nat, j);
        }
    }
    let one = from_u128(1);
    let mut k: i64 = top;
    loop
        invariant
            -1074 <= k <= top,
            -400 <= top < 400,
            0 < m < INF_MAG,
            bv(n@) == scaled(m as nat),
            bv(one@) == 1,
            forall|j: int| j > k ==> !#[trigger] level_ok(m as nat, j),
        decreases k + 1074,
    {
        let t = trunc_value(&n, k);
        let t1 = nat_add(&t, &one);
        let lo = reads_exec(m, &t, k);
        let hi = reads_exec(m, &t1, k);
        if lo || hi {
            proof {
                assert(level_ok(m as nat, k as int));
                assert(is_best_level(m as nat, k as int));
                lemma_best_unique(m as nat, k as int);
            }
            let c = if lo && hi {
                if upper_exec(&n, &t, k) {
                    t1
                } else {
                    t
                }
            } else if lo {
                t
            } else {
                t1
            };
            return (c, k);
        }
        proof {
            if k == -1074 {
                lemma_exact_level(m as nat);
            }
        }
        k = k - 1;
    }
}

/// Decimal digits of `c`.
fn digits_of(c: &Vec<bool>) -> (r: Vec<u8>)
    ensures
        r@ == dec_digits(bv(c@)),
{
    let mut q = nat_shl(c, 0);
    let mut ds: Vec<u8> = Vec::new();
    proof {
        assert(pow2(0) == 1) by { lemma2_to64(); }
        assert(dec_digits(bv(c@)) =~= dec_digits(bv(q@)) + ds@);
    }
    loop
        invariant
            dec_digits(bv(c@)) == dec_digits(bv(q@)) + ds@,
        decreases bv(q@),
    {
        let (q2, d) = div10(&q);
        let ghost ds0 = ds@;
        ds.insert(0, (d + 48) as u8);
        proof {
            assert(ds@ =~= seq![(d + 48) as u8] + ds0);
        }
        if is_zero(&q2) {
            proof {
                assert(bv(q@) == d);
                assert(dec_digits(bv(q@)) =~= seq![(d + 48) as u8]);
                assert(dec_digits(bv(c@)) =~= ds@);
            }
            return ds;
        }
        proof {
            assert(bv(q@) >= 10);
            lemma_fundamental_div_mod_converse(bv(q@) as int, 10, bv(q2@) as int, d as int);
            assert(dec_digits(bv(q@)) == dec_digits(bv(q2@)).push((d + 48) as u8));
            assert(dec_digits(bv(q2@)) + ds@ =~= dec_digits(bv(q@)) + ds0);
        }
        q = q2;
    }
}

/// `n` ASCII zeros appended.
fn push_zeros(v: &mut Vec<u8>, n: u64)
    ensures
        final(v)@ == old(v)@ + zeros_text(n as nat),
{
    let ghost v0 = v@;
    let mut i: u64 = 0;
    while i < n
        invariant
            i <= n,
            v@ =~= v0 + zeros_text(i as nat),
        decreases n - i,
    {
        v.push(48u8);
        i = i + 1;
    }
}

/// `ds[from..to]` appended.
fn push_range(v: &mut Vec<u8>, ds: &Vec<u8>, from: usize, to: usize)
    requires
        from <= to <= ds@.len(),
    ensures
        final(v)@ == old(v)@ + ds@.subrange(from as int, to as int),
{
    let ghost v0 = v@;
    let mut i: usize = from;
    while i < to
        invariant
            from <= i <= to <= ds@.len(),
            v@ =~= v0 + ds@.subrange(from as int, i as int),
        decreases to - i,
    {
        v.push(ds[i]);
        i = i + 1;
    }
}

/// The decimal text of the finite encoding `x`.
pub fn display_bytes(x: u64) -> (r: Vec<u8>)
    requires
        mag_of(x) < INF_MAG,
    ensures
        r@ == display_text(x),
{
    let mut v: Vec<u8> = Vec::new();
    if x >= 0x8000000000000000 {
        v.push(45u8);
    }
    let m = mag_bits(x);
    if m == 0 {
        v.push(48u8);
        proof {
            assert(v@ =~= display_text(x));
        }
        return v;
    }
    let (c, k) = shortest(m);
    let ds = digits_of(&c);
    let ghost sign = v@;
    let len = ds.len();
    proof {
        assert(len <= usize::MAX);
    }
    let exp: i128 = k as i128 + len as i128;
    if exp <= 0 {
        v.push(48u8);
        v.push(46u8);
        push_zeros(&mut v, (-exp) as u64);
        push_range(&mut v, &ds, 0, len);
        proof {
            assert(ds@.subrange(0, len as int) =~= ds@);
            assert(v@ =~= sign + place_point(ds@, exp as int));
        }
    } else if exp < len as i128 {
        push_range(&mut v, &ds, 0, exp as usize);
        v.push(46u8);
        push_range(&mut v, &ds, exp as usize, len);
        proof {
            assert(v@ =~= sign + place_point(ds@, exp as int));
        }
    } else {
        push_range(&mut v, &ds, 0, len);
        push_zeros(&mut v, (exp - len as i128) as u64);
        proof {
            assert(ds@.subrange(0, len as int) =~= ds@);
            assert(v@ =~= sign + place_point(ds@, exp as int));
        }
    }
    proof {
        assert(v@ =~= display_text(x));
    }
    v
}

} // verus!
