//! The IEEE-754 binary64 format as exact integer arithmetic.
//!
//! A magnitude pattern `m` (the 63 low bits of an `f64`'s encoding, sign
//! removed) denotes the value `scaled(m) / 2^1074`; every finite value is
//! an integer multiple of `2^-1074`, so all comparisons below are between
//! naturals. The pattern `INF_MAG` (the encoding of +infinity) is given
//! the value `2^1024`, the first value past the finite range, so that
//! "round to the nearest pattern not above `INF_MAG`, ties to even" is
//! exactly IEEE round-to-nearest-even with overflow to infinity.
use vstd::prelude::*;
use vstd::arithmetic::power2::*;
use crate::natbits::{bv, nat_shl, nat_order, div_small, normalize, lemma_bitlen};

verus! {

broadcast use lemma_pow2_pos;

/// `2^52`: one unit of the exponent field.
pub open spec fn frac_unit() -> nat {
    0x10000000000000
}

/// Encoding of +infinity; also the largest magnitude pattern considered.
pub const INF_MAG: u64 = 0x7FF0000000000000;

/// Encoding of the canonical quiet NaN.
pub const NAN_BITS: u64 = 0x7FF8000000000000;

/// Sign bit of a binary64 encoding.
pub const SIGN_BIT: u64 = 0x8000000000000000;

/// Value of the magnitude pattern `m`, times `2^1074`.
pub open spec fn scaled(m: nat) -> nat {
    let e = m / frac_unit();
    let f = m % frac_unit();
    if e == 0 {
        f
    } else {
        (f + frac_unit()) * pow2((e - 1) as nat)
    }
}

/// Distance between pattern `m` and the rational `num / den`, times
/// `den * 2^1074`.
pub open spec fn dist(m: nat, num: nat, den: nat) -> nat {
    let a = scaled(m) * den;
    let b = num * pow2(1074);
    if a >= b {
        (a - b) as nat
    } else {
        (b - a) as nat
    }
}

/// `m` is the round-to-nearest, ties-to-even binary64 magnitude of
/// `num / den` (infinity when the value is at or beyond the overflow
/// threshold).
pub open spec fn is_rne(m: nat, num: nat, den: nat) -> bool {
    &&& m <= INF_MAG
    &&& forall|m2: nat|
        m2 <= INF_MAG ==> {
            &&& dist(m, num, den) <= #[trigger] dist(m2, num, den)
            &&& (dist(m, num, den) == dist(m2, num, den) ==> m2 == m || m % 2 == 0)
        }
}

pub proof fn lemma_frac_unit()
    ensures
        frac_unit() == pow2(52),
        pow2(53) == 2 * frac_unit(),
{
    lemma2_to64_rest();
}

/// The step from a pattern to the next one.
pub open spec fn ulp(m: nat) -> nat {
    if m / frac_unit() == 0 {
        1
    } else {
        pow2((m / frac_unit() - 1) as nat)
    }
}

pub proof fn lemma_scaled_succ(m: nat)
    ensures
        scaled(m + 1) == scaled(m) + ulp(m),
{
    let c = frac_unit();
    let e = m / c;
    let f = m % c;
    assert(m == e * c + f && f < c) by (nonlinear_arith)
        requires e == m / c, f == m % c, c > 0;
    if f + 1 < c {
        assert((m + 1) / c == e && (m + 1) % c == f + 1) by (nonlinear_arith)
            requires m == e * c + f, f + 1 < c, c > 0;
        if e > 0 {
            assert((f + 1 + c) * pow2((e - 1) as nat) == (f + c) * pow2((e - 1) as nat) + pow2((e - 1) as nat)) by (nonlinear_arith);
        }
    } else {
        assert((m + 1) / c == e + 1 && (m + 1) % c == 0) by (nonlinear_arith)
            requires m == e * c + f, f + 1 == c, c > 0;
        if e > 0 {
            lemma_pow2_unfold(e as nat);
            assert(c * pow2(e as nat) == (f + c) * pow2((e - 1) as nat) + pow2((e - 1) as nat)) by (nonlinear_arith)
                requires pow2(e as nat) == 2 * pow2((e - 1) as nat), f + 1 == c;
        } else {
            assert(pow2(0) == 1) by { lemma2_to64(); }
        }
    }
}

pub proof fn lemma_scaled_strict_mono(m1: nat, m2: nat)
    requires
        m1 < m2,
    ensures
        scaled(m1) < scaled(m2),
    decreases m2 - m1,
{
    lemma_scaled_succ(m1);
    if m1 + 1 < m2 {
        lemma_scaled_strict_mono(m1 + 1, m2);
    }
}

pub proof fn lemma_scaled_mono(m1: nat, m2: nat)
    requires
        m1 <= m2,
    ensures
        scaled(m1) <= scaled(m2),
{
    if m1 < m2 {
        lemma_scaled_strict_mono(m1, m2);
    }
}

/// A pattern assembled from a shift `t` and a significand `q`.
pub proof fn lemma_scaled_compose(t: nat, q: nat)
    requires
        q < 2 * frac_unit(),
        t == 0 || frac_unit() <= q,
    ensures
        scaled(t * frac_unit() + q) == q * pow2(t),
{
    let c = frac_unit();
    let m = t * c + q;
    assert(pow2(0) == 1) by { lemma2_to64(); }
    if t == 0 {
        if q < c {
            assert(m / c == 0 && m % c == q) by (nonlinear_arith)
                requires m == t * c + q, t == 0, q < c, c > 0;
        } else {
            assert(m / c == 1 && m % c == q - c) by (nonlinear_arith)
                requires m == t * c + q, t == 0, c <= q < 2 * c;
        }
    } else {
        assert(m / c == t + 1 && m % c == q - c) by (nonlinear_arith)
            requires m == t * c + q, c <= q < 2 * c;
    }
}

pub proof fn lemma_scaled_inf()
    ensures
        scaled(INF_MAG as nat) == frac_unit() * pow2(2046),
        INF_MAG as nat == 2046 * frac_unit() + frac_unit(),
{
    lemma_scaled_compose(2046, frac_unit());
}


proof fn lemma_mul_mono(a: nat, b: nat, d: nat)
    requires
        a <= b,
    ensures
        a * d <= b * d,
{
    assert(a * d <= b * d) by (nonlinear_arith) requires a <= b;
}

proof fn lemma_mul_strict(a: nat, b: nat, d: nat)
    requires
        a < b,
        d > 0,
    ensures
        a * d < b * d,
{
    assert(a * d < b * d) by (nonlinear_arith) requires a < b, d > 0;
}

/// Patterns at or below `l` are no closer to a value at or above `l`'s
/// value than `l` itself; strictly farther when below `l`.
proof fn lemma_dist_below(m2: nat, l: nat, num: nat, den: nat)
    requires
        m2 <= l,
        den > 0,
        scaled(l) * den <= num * pow2(1074),
    ensures
        dist(m2, num, den) >= dist(l, num, den),
        m2 < l ==> dist(m2, num, den) > dist(l, num, den),
{
    lemma_scaled_mono(m2, l);
    lemma_mul_mono(scaled(m2), scaled(l), den);
    if m2 < l {
        lemma_scaled_strict_mono(m2, l);
        lemma_mul_strict(scaled(m2), scaled(l), den);
    }
}

proof fn lemma_dist_above(m2: nat, h: nat, num: nat, den: nat)
    requires
        h <= m2,
        den > 0,
        num * pow2(1074) <= scaled(h) * den,
    ensures
        dist(m2, num, den) >= dist(h, num, den),
        h < m2 ==> dist(m2, num, den) > dist(h, num, den),
{
    lemma_scaled_mono(h, m2);
    lemma_mul_mono(scaled(h), scaled(m2), den);
    if h < m2 {
        lemma_scaled_strict_mono(h, m2);
        lemma_mul_strict(scaled(h), scaled(m2), den);
    }
}

proof fn lemma_dist_scale(m: nat, num: nat, den: nat, c: nat)
    ensures
        dist(m, num * c, den * c) == c * dist(m, num, den),
{
    let a = scaled(m) * den;
    let b = num * pow2(1074);
    assert(scaled(m) * (den * c) == a * c) by (nonlinear_arith)
        requires a == scaled(m) * den;
    assert((num * c) * pow2(1074) == b * c) by (nonlinear_arith)
        requires b == num * pow2(1074);
    if a >= b {
        assert(a * c >= b * c) by (nonlinear_arith) requires a >= b;
        assert(c * ((a - b) as nat) == a * c - b * c) by (nonlinear_arith) requires a >= b;
    } else {
        assert(a * c <= b * c) by (nonlinear_arith) requires a < b;
        assert(c * ((b - a) as nat) == b * c - a * c) by (nonlinear_arith) requires a < b;
    }
}

/// Rounding depends on the ratio alone: scaling both sides by `c` keeps
/// the rounding.
pub proof fn lemma_rne_scale(m: nat, num: nat, den: nat, c: nat)
    requires
        c > 0,
        is_rne(m, num, den),
    ensures
        is_rne(m, num * c, den * c),
{
    assert forall|m2: nat| m2 <= INF_MAG implies {
        &&& dist(m, num * c, den * c) <= #[trigger] dist(m2, num * c, den * c)
        &&& (dist(m, num * c, den * c) == dist(m2, num * c, den * c) ==> m2 == m || m % 2 == 0)
    } by {
        lemma_dist_scale(m, num, den, c);
        lemma_dist_scale(m2, num, den, c);
        let x = dist(m, num, den);
        let y = dist(m2, num, den);
        assert(x <= y);
        assert(c * x <= c * y) by (nonlinear_arith) requires x <= y;
        assert(c * x == c * y ==> x == y) by (nonlinear_arith) requires c > 0;
    }
}

/// Scaling both sides back down keeps the rounding too.
pub proof fn lemma_rne_unscale(m: nat, num: nat, den: nat, c: nat)
    requires
        c > 0,
        is_rne(m, num * c, den * c),
    ensures
        is_rne(m, num, den),
{
    assert forall|m2: nat| m2 <= INF_MAG implies {
        &&& dist(m, num, den) <= #[trigger] dist(m2, num, den)
        &&& (dist(m, num, den) == dist(m2, num, den) ==> m2 == m || m % 2 == 0)
    } by {
        lemma_dist_scale(m, num, den, c);
        lemma_dist_scale(m2, num, den, c);
        let x = dist(m, num, den);
        let y = dist(m2, num, den);
        assert(dist(m, num * c, den * c) <= dist(m2, num * c, den * c));
        assert(c * x <= c * y ==> x <= y) by (nonlinear_arith) requires c > 0;
        assert(x == y ==> c * x == c * y);
    }
}

/// A positive integer below `2^53`, doubled until it has 53 bits.
proof fn lemma_normalize_sig(g: nat) -> (r: (nat, nat))
    requires
        0 < g < 2 * frac_unit(),
    ensures
        r.0 == g * pow2(r.1),
        frac_unit() <= r.0 < 2 * frac_unit(),
        r.1 <= 52,
    decreases 2 * frac_unit() - g,
{
    lemma_frac_unit();
    if g >= frac_unit() {
        assert(pow2(0) == 1) by {
            lemma2_to64();
        }
        (g, 0)
    } else {
        let (q, d) = lemma_normalize_sig(2 * g);
        lemma_pow2_unfold(d + 1);
        assert(q == g * pow2(d + 1)) by (nonlinear_arith)
            requires q == 2 * g * pow2(d), pow2(d + 1) == 2 * pow2(d);
        if d == 52 {
            lemma2_to64();
            assert(q >= 2 * pow2(52)) by (nonlinear_arith)
                requires q == 2 * g * pow2(52), g >= 1;
        }
        (q, d + 1)
    }
}

/// Every `g * 2^j` with `0 < g < 2^53` and `j <= 970` is exactly
/// representable: rounding it changes nothing.
pub proof fn lemma_exact_int(g: nat, j: nat)
    requires
        0 < g < 2 * frac_unit(),
        j <= 970,
    ensures
        scaled(rne(g * pow2(j), 1)) == g * pow2(j) * pow2(1074),
        rne(g * pow2(j), 1) < INF_MAG,
{
    let (q, d) = lemma_normalize_sig(g);
    let t: nat = (1074 + j - d) as nat;
    lemma_scaled_compose(t, q);
    let m = t * frac_unit() + q;
    lemma_pow2_adds(d, t);
    lemma_pow2_adds(j, 1074);
    assert(d + t == j + 1074);
    assert(q * pow2(t) == g * pow2(j) * pow2(1074)) by (nonlinear_arith)
        requires q == g * pow2(d), pow2(d + t) == pow2(d) * pow2(t), pow2(j + 1074) == pow2(j) * pow2(1074),
            d + t == j + 1074;
    assert(m < INF_MAG) by (nonlinear_arith)
        requires m == t * frac_unit() + q, q < 2 * frac_unit(), t <= 2044, frac_unit() == 0x10000000000000,
            INF_MAG == 0x7FF0000000000000u64;
    lemma_rne_exact(m, g * pow2(j), 1);
    lemma_rne_is(m, g * pow2(j), 1);
}

/// Rounding a value bracketed by two neighbouring patterns.
pub proof fn lemma_rne_bracket(l: nat, num: nat, den: nat, m: nat)
    requires
        l < INF_MAG,
        den > 0,
        scaled(l) * den <= num * pow2(1074),
        num * pow2(1074) <= scaled(l + 1) * den,
        m == ({
            let r = num * pow2(1074) - scaled(l) * den;
            let s = scaled(l + 1) * den - num * pow2(1074);
            if r < s {
                l
            } else if r > s {
                l + 1
            } else if l % 2 == 0 {
                l
            } else {
                l + 1
            }
        }),
    ensures
        is_rne(m, num, den),
{
    assert forall|m2: nat| m2 <= INF_MAG implies {
        &&& dist(m, num, den) <= #[trigger] dist(m2, num, den)
        &&& (dist(m, num, den) == dist(m2, num, den) ==> m2 == m || m % 2 == 0)
    } by {
        if m2 <= l {
            lemma_dist_below(m2, l, num, den);
        } else {
            lemma_dist_above(m2, l + 1, num, den);
        }
    }
}

/// Values at or past the overflow threshold round to infinity.
pub proof fn lemma_rne_overflow(num: nat, den: nat)
    requires
        den > 0,
        scaled(INF_MAG as nat) * den <= num * pow2(1074),
    ensures
        is_rne(INF_MAG as nat, num, den),
{
    assert forall|m2: nat| m2 <= INF_MAG implies {
        &&& dist(INF_MAG as nat, num, den) <= #[trigger] dist(m2, num, den)
        &&& (dist(INF_MAG as nat, num, den) == dist(m2, num, den) ==> m2 == INF_MAG as nat || INF_MAG as nat % 2 == 0)
    } by {
        lemma_dist_below(m2, INF_MAG as nat, num, den);
    }
}


proof fn lemma_cross(n: nat, d: nat, k: nat, big: nat, x: nat)
    requires
        n * k == d * big,
        d > 0,
        k > 0,
    ensures
        x * d <= n <==> x * k <= big,
{
    if x * d <= n {
        assert(x * d * k <= n * k) by (nonlinear_arith) requires x * d <= n;
        assert(d * (x * k) <= d * big) by (nonlinear_arith) requires x * d * k <= n * k, n * k == d * big;
        assert(x * k <= big) by (nonlinear_arith) requires d * (x * k) <= d * big, d > 0;
    }
    if x * k <= big {
        assert(d * (x * k) <= d * big) by (nonlinear_arith) requires x * k <= big;
        assert((x * d) * k <= n * k) by (nonlinear_arith) requires d * (x * k) <= d * big, n * k == d * big;
        assert(x * d <= n) by (nonlinear_arith) requires (x * d) * k <= n * k, k > 0;
    }
}

/// Where `num / den` sits between `q * k` and `(q + 1) * k`, measured in
/// units of the divisor.
proof fn lemma_split_scale(n: nat, d: nat, k: nat, big: nat, q: nat, r: nat)
    requires
        n * k == d * big,
        d > 0,
        k > 0,
        q * d + r == n,
        r < d,
    ensures
        q * k <= big,
        big < (q + 1) * k,
        (big - q * k < (q + 1) * k - big) <==> 2 * r < d,
        (big - q * k > (q + 1) * k - big) <==> 2 * r > d,
{
    lemma_cross(n, d, k, big, q);
    lemma_cross(n, d, k, big, q + 1);
    assert((q + 1) * d > n) by (nonlinear_arith) requires q * d + r == n, r < d;
    let lo = (big - q * k) as nat;
    let hi = ((q + 1) * k - big) as nat;
    assert(lo * d == r * k) by (nonlinear_arith)
        requires lo == big - q * k, n * k == d * big, q * d + r == n, q * k <= big;
    assert(hi * d == (d - r) * k) by (nonlinear_arith)
        requires hi == (q + 1) * k - big, n * k == d * big, q * d + r == n, big < (q + 1) * k, r < d;
    assert(lo < hi <==> r < d - r) by (nonlinear_arith)
        requires lo * d == r * k, hi * d == (d - r) * k, d > 0, k > 0, r < d;
    assert(lo > hi <==> r > d - r) by (nonlinear_arith)
        requires lo * d == r * k, hi * d == (d - r) * k, d > 0, k > 0, r < d;
}

/// The division fits a 53-bit significand at shift `t`.
pub open spec fn fits(big: nat, b: nat, t: nat) -> bool {
    big < pow2(53) * (b * pow2(t))
}

proof fn lemma_fits_bounds(a: nat, b: nat, la: nat, lb: nat, t: nat)
    requires
        la > 0,
        lb > 0,
        pow2((la - 1) as nat) <= a < pow2(la),
        pow2((lb - 1) as nat) <= b < pow2(lb),
    ensures
        t + lb >= la + 1022 ==> fits(a * pow2(1074), b, t),
        t + lb <= la + 1020 ==> !fits(a * pow2(1074), b, t),
{
    lemma_pow2_adds(53, t);
    lemma_pow2_adds(la, 1074);
    lemma_pow2_adds((la - 1) as nat, 1074);
    assert(pow2(53) * (b * pow2(t)) == b * pow2(53 + t)) by (nonlinear_arith)
        requires pow2(53 + t) == pow2(53) * pow2(t);
    if t + lb >= la + 1022 {
        lemma_pow2_adds((lb - 1) as nat, 53 + t);
        if la + 1074 < (lb - 1) + 53 + t {
            lemma_pow2_strictly_increases(la + 1074, (lb - 1 + 53 + t) as nat);
        }
        assert(a * pow2(1074) < pow2(la + 1074)) by (nonlinear_arith)
            requires a < pow2(la), pow2(la + 1074) == pow2(la) * pow2(1074), pow2(1074) > 0;
        assert(pow2((lb - 1) as nat) * pow2(53 + t) <= b * pow2(53 + t)) by (nonlinear_arith)
            requires pow2((lb - 1) as nat) <= b;
    }
    if t + lb <= la + 1020 {
        lemma_pow2_adds(lb, 53 + t);
        if lb + 53 + t < (la - 1) + 1074 {
            lemma_pow2_strictly_increases(lb + 53 + t, (la - 1 + 1074) as nat);
        }
        assert(a * pow2(1074) >= pow2((la - 1) as nat + 1074)) by (nonlinear_arith)
            requires pow2((la - 1) as nat) <= a, pow2((la - 1) as nat + 1074) == pow2((la - 1) as nat) * pow2(1074);
        assert(b * pow2(53 + t) < pow2(lb) * pow2(53 + t)) by (nonlinear_arith)
            requires b < pow2(lb), pow2(53 + t) > 0;
    }
}

/// `a * 2^(1074 - t)` over `b` or `a` over `b * 2^(t - 1074)`: the same
/// ratio as `a * 2^1074 / (b * 2^t)` without building `2^1074`.
fn scale_pair(a: &Vec<bool>, b: &Vec<bool>, t: usize) -> (r: (Vec<bool>, Vec<bool>))
    requires
        bv(b@) > 0,
    ensures
        bv(r.0@) * (bv(b@) * pow2(t as nat)) == bv(r.1@) * (bv(a@) * pow2(1074)),
        bv(r.1@) > 0,
{
    if t <= 1074 {
        let n = nat_shl(a, 1074 - t);
        let d = nat_shl(b, 0);
        proof {
            lemma2_to64();
            lemma_pow2_adds((1074 - t) as nat, t as nat);
            assert(bv(a@) * pow2((1074 - t) as nat) * (bv(b@) * pow2(t as nat)) == bv(b@) * 1 * (bv(a@) * (pow2((1074 - t) as nat) * pow2(t as nat)))) by (nonlinear_arith);
        }
        (n, d)
    } else {
        let n = nat_shl(a, 0);
        let d = nat_shl(b, t - 1074);
        proof {
            lemma2_to64();
            lemma_pow2_adds((t - 1074) as nat, 1074);
            assert(bv(a@) * 1 * (bv(b@) * pow2(t as nat)) == bv(b@) * pow2((t - 1074) as nat) * (bv(a@) * pow2(1074))) by (nonlinear_arith)
                requires pow2(t as nat) == pow2((t - 1074) as nat) * pow2(1074);
            assert(bv(b@) * pow2((t - 1074) as nat) > 0) by (nonlinear_arith) requires bv(b@) > 0, pow2((t - 1074) as nat) > 0;
        }
        (n, d)
    }
}


/// The round-to-nearest-even binary64 magnitude of `num / den`.
pub fn round_ratio(num: &Vec<bool>, den: &Vec<bool>) -> (m: u64)
    requires
        bv(den@) > 0,
    ensures
        is_rne(m as nat, bv(num@), bv(den@)),
{
    let a = normalize(num);
    let b = normalize(den);
    let ghost av = bv(a@);
    let ghost bvv = bv(b@);
    let ghost big = av * pow2(1074);
    if a.len() == 0 {
        proof {
            assert(scaled(0) == 0);
            assert(bv(num@) == 0);
            assert(dist(0, bv(num@), bv(den@)) == 0) by (nonlinear_arith)
                requires bv(num@) == 0, scaled(0) == 0;
            assert forall|m2: nat| m2 <= INF_MAG implies {
                &&& dist(0, bv(num@), bv(den@)) <= #[trigger] dist(m2, bv(num@), bv(den@))
                &&& (dist(0, bv(num@), bv(den@)) == dist(m2, bv(num@), bv(den@)) ==> m2 == 0 || 0nat % 2 == 0)
            } by {}
        }
        return 0;
    }
    proof {
        if b@.len() == 0 {
            assert(bv(b@) == 0);
        }
        lemma_bitlen(a@);
        lemma_bitlen(b@);
        lemma_frac_unit();
        lemma_scaled_inf();
        lemma_pow2_adds(53, 2045);
        lemma_pow2_unfold(2046);
    }
    let la: u128 = a.len() as u128;
    let lb: u128 = b.len() as u128;
    if la + 1021 >= lb + 2046 {
        proof {
            lemma_fits_bounds(av, bvv, la as nat, lb as nat, 2045);
            assert(scaled(INF_MAG as nat) * bvv <= big) by (nonlinear_arith)
                requires !fits(big, bvv, 2045), scaled(INF_MAG as nat) == frac_unit() * pow2(2046),
                    pow2(2046) == 2 * pow2(2045), pow2(53) == 2 * frac_unit(),
                    big >= pow2(53) * (bvv * pow2(2045));
            lemma_rne_overflow(av, bvv);
        }
        return INF_MAG;
    }
    let mut t: u128 = if la + 1021 > lb { la + 1021 - lb } else { 0 };
    let mut pr = scale_pair(&a, &b, t as usize);
    let ghost mut minimal: bool = t == 0;
    proof {
        if t > 0 {
            lemma_fits_bounds(av, bvv, la as nat, lb as nat, (t - 1) as nat);
        }
        lemma_pow2_unfold((t + 1) as nat);
    }
    let top = nat_shl(&pr.1, 53);
    if nat_order(&pr.0, &top) >= 0 {
        proof {
            assert(bvv * pow2(t as nat) > 0) by (nonlinear_arith) requires bvv > 0, pow2(t as nat) > 0;
            lemma_cross(bv(pr.0@), bv(pr.1@), bvv * pow2(t as nat), big, pow2(53));
            if t == 0 {
                lemma_fits_bounds(av, bvv, la as nat, lb as nat, 0);
            }
        }
        t = t + 1;
        if t >= 2046 {
            proof {
                assert(scaled(INF_MAG as nat) * bvv <= big) by (nonlinear_arith)
                    requires big >= pow2(53) * (bvv * pow2(2045)), scaled(INF_MAG as nat) == frac_unit() * pow2(2046),
                        pow2(2046) == 2 * pow2(2045), pow2(53) == 2 * frac_unit();
                lemma_rne_overflow(av, bvv);
            }
            return INF_MAG;
        }
        pr = scale_pair(&a, &b, t as usize);
        proof {
            lemma_fits_bounds(av, bvv, la as nat, lb as nat, t as nat);
            assert(fits(big, bvv, t as nat));
        }
    } else {
        proof {
            assert(bvv * pow2(t as nat) > 0) by (nonlinear_arith) requires bvv > 0, pow2(t as nat) > 0;
            lemma_cross(bv(pr.0@), bv(pr.1@), bvv * pow2(t as nat), big, pow2(53));
            assert(bv(pr.0@) < pow2(53) * bv(pr.1@)) by (nonlinear_arith)
                requires bv(pr.0@) < bv(pr.1@) * pow2(53);
            assert(fits(big, bvv, t as nat));
        }
    }
    assert(t <= 2045);
    let ghost k = bvv * pow2(t as nat);
    proof {
        assert(k > 0) by (nonlinear_arith) requires bvv > 0, pow2(t as nat) > 0, k == bvv * pow2(t as nat);
        lemma_cross(bv(pr.0@), bv(pr.1@), k, big, pow2(53));
        assert(bv(pr.0@) < bv(pr.1@) * pow2(53)) by (nonlinear_arith)
            requires !(pow2(53) * bv(pr.1@) <= bv(pr.0@));
    }
    let (q, r) = div_small(&pr.0, &pr.1, 53);
    proof {
        lemma_split_scale(bv(pr.0@), bv(pr.1@), k, big, q as nat, bv(r@));
        if t > 0 {
            lemma_pow2_unfold(t as nat);
            lemma_cross(bv(pr.0@), bv(pr.1@), k, big, frac_unit());
            assert(frac_unit() * k <= big) by (nonlinear_arith)
                requires !fits(big, bvv, (t - 1) as nat), pow2(t as nat) == 2 * pow2((t - 1) as nat),
                    pow2(53) == 2 * frac_unit(), k == bvv * pow2(t as nat);
            assert(frac_unit() <= q) by (nonlinear_arith)
                requires frac_unit() * bv(pr.1@) <= bv(pr.0@), q * bv(pr.1@) + bv(r@) == bv(pr.0@), bv(r@) < bv(pr.1@);
        }
        lemma_scaled_compose(t as nat, q as nat);
        if q + 1 < pow2(53) {
            lemma_scaled_compose(t as nat, (q + 1) as nat);
        } else {
            lemma_scaled_compose((t + 1) as nat, frac_unit());
            lemma_pow2_unfold((t + 1) as nat);
            assert((t + 1) * frac_unit() + frac_unit() == t * frac_unit() + q + 1) by (nonlinear_arith)
                requires q + 1 == 2 * frac_unit();
            assert(frac_unit() * pow2((t + 1) as nat) == (q + 1) * pow2(t as nat)) by (nonlinear_arith)
                requires pow2((t + 1) as nat) == 2 * pow2(t as nat), q + 1 == 2 * frac_unit();
        }
    }
    let l: u64 = (t as u64) * 0x10000000000000 + q;
    let ghost lv = l as nat;
    proof {
        assert(lv == t * frac_unit() + q);
        assert(lv + 1 == t * frac_unit() + (q + 1));
        assert(scaled(lv + 1) == (q + 1) * pow2(t as nat));
        assert(scaled(lv) * bvv == q * k) by (nonlinear_arith)
            requires scaled(lv) == q * pow2(t as nat), k == bvv * pow2(t as nat);
        assert(scaled(lv + 1) * bvv == (q + 1) * k) by (nonlinear_arith)
            requires scaled(lv + 1) == (q + 1) * pow2(t as nat), k == bvv * pow2(t as nat);
        assert(lv % 2 == q % 2) by (nonlinear_arith)
            requires lv == t * 0x10000000000000 + q;
    }
    let twice = nat_shl(&r, 1);
    proof {
        lemma2_to64();
    }
    let o = nat_order(&twice, &pr.1);
    let m: u64 = if o < 0 {
        l
    } else if o > 0 {
        l + 1
    } else if q % 2 == 0 {
        l
    } else {
        l + 1
    };
    proof {
        lemma_rne_bracket(lv, av, bvv, m as nat);
    }
    m
}


/// The rounding of `num / den` as a function (see [`is_rne`]).
pub open spec fn rne(num: nat, den: nat) -> nat {
    choose|m: nat| is_rne(m, num, den)
}

/// At most one pattern is the rounding of a value.
pub proof fn lemma_rne_unique(m1: nat, m2: nat, num: nat, den: nat)
    requires
        den > 0,
        is_rne(m1, num, den),
        is_rne(m2, num, den),
    ensures
        m1 == m2,
{
    assert(dist(m1, num, den) <= dist(m2, num, den));
    assert(dist(m2, num, den) <= dist(m1, num, den));
    if m1 != m2 {
        let lo = if m1 < m2 { m1 } else { m2 };
        let hi = if m1 < m2 { m2 } else { m1 };
        assert(lo % 2 == 0 && hi % 2 == 0);
        assert(lo + 1 < hi);
        lemma_scaled_strict_mono(lo, lo + 1);
        lemma_scaled_strict_mono(lo + 1, hi);
        lemma_mul_strict(scaled(lo), scaled(lo + 1), den);
        lemma_mul_strict(scaled(lo + 1), scaled(hi), den);
        assert(dist(lo + 1, num, den) <= dist(lo, num, den));
        assert(dist(lo + 1, num, den) < dist(lo, num, den));
    }
}

/// The rounding of a value is the pattern that [`is_rne`] describes.
pub proof fn lemma_rne_is(m: nat, num: nat, den: nat)
    requires
        den > 0,
        is_rne(m, num, den),
    ensures
        rne(num, den) == m,
{
    lemma_rne_unique(rne(num, den), m, num, den);
}

/// A pattern whose value is exactly `num / den` is its rounding.
pub proof fn lemma_rne_exact(m: nat, num: nat, den: nat)
    requires
        m <= INF_MAG,
        den > 0,
        scaled(m) * den == num * pow2(1074),
    ensures
        is_rne(m, num, den),
{
    assert forall|m2: nat| m2 <= INF_MAG implies {
        &&& dist(m, num, den) <= #[trigger] dist(m2, num, den)
        &&& (dist(m, num, den) == dist(m2, num, den) ==> m2 == m || m % 2 == 0)
    } by {
        if m2 != m {
            if m2 < m {
                lemma_scaled_strict_mono(m2, m);
                lemma_mul_strict(scaled(m2), scaled(m), den);
            } else {
                lemma_scaled_strict_mono(m, m2);
                lemma_mul_strict(scaled(m), scaled(m2), den);
            }
        }
    }
}

/// A value below half the smallest subnormal rounds to zero.
pub proof fn lemma_rne_zero(num: nat, den: nat)
    requires
        den > 0,
        num * pow2(1075) <= den,
    ensures
        is_rne(0, num, den),
{
    lemma_pow2_unfold(1075);
    assert(scaled(0) == 0);
    assert forall|m2: nat| m2 <= INF_MAG implies {
        &&& dist(0, num, den) <= #[trigger] dist(m2, num, den)
        &&& (dist(0, num, den) == dist(m2, num, den) ==> m2 == 0 || 0nat % 2 == 0)
    } by {
        assert(dist(0, num, den) == num * pow2(1074)) by (nonlinear_arith)
            requires scaled(0) == 0;
        if m2 > 0 {
            lemma_scaled_strict_mono(0, m2);
            assert(scaled(m2) * den >= den) by (nonlinear_arith) requires scaled(m2) >= 1;
            assert(num * pow2(1075) == 2 * (num * pow2(1074))) by (nonlinear_arith)
                requires pow2(1075) == 2 * pow2(1074);
        }
    }
}

/// The binary64 pattern of a small natural number, computed exactly.
pub fn exact_int_bits(x: u64) -> (m: u64)
    requires
        x < 0x20000000000000,
    ensures
        is_rne(m as nat, x as nat, 1),
{
    if x == 0 {
        proof {
            lemma_rne_zero(0, 1);
        }
        return 0;
    }
    let mut p: usize = 0;
    let mut pp: u64 = 1;
    proof {
        lemma2_to64();
        lemma2_to64_rest();
        lemma_frac_unit();
    }
    while pp <= x
        invariant
            p <= 53,
            pp == pow2(p as nat),
            pp <= x ==> p < 53,
            x < 0x20000000000000,
            pow2(53) == 0x20000000000000,
            p > 0 ==> pow2((p - 1) as nat) <= x,
        decreases 53 - p,
    {
        proof {
            lemma_pow2_unfold((p + 1) as nat);
            if p + 1 < 53 {
                lemma_pow2_strictly_increases((p + 1) as nat, 53);
            }
        }
        pp = pp * 2;
        p = p + 1;
    }
    // 2^(p-1) <= x < 2^p
    let sh: u64 = crate::natbits::pow2_u64(53 - p);
    proof {
        lemma_pow2_adds((53 - p) as nat, p as nat);
        assert(x * sh < 0x20000000000000) by (nonlinear_arith)
            requires x < pow2(p as nat), sh == pow2((53 - p) as nat),
                pow2((53 - p) as nat + p as nat) == pow2((53 - p) as nat) * pow2(p as nat),
                (53 - p) as nat + p as nat == 53, pow2(53) == 0x20000000000000;
    }
    let q: u64 = x * sh;
    let t: u64 = 1021 + p as u64;
    proof {
        lemma_pow2_adds((53 - p) as nat, (p - 1) as nat);
        lemma_pow2_adds((53 - p) as nat, p as nat);
        assert(frac_unit() <= q < 2 * frac_unit()) by (nonlinear_arith)
            requires pow2((p - 1) as nat) <= x, x < pow2(p as nat), q == x * sh, sh == pow2((53 - p) as nat),
                pow2((53 - p) as nat + (p - 1) as nat) == pow2((53 - p) as nat) * pow2((p - 1) as nat),
                pow2((53 - p) as nat + p as nat) == pow2((53 - p) as nat) * pow2(p as nat),
                (53 - p) as nat + (p - 1) as nat == 52, (53 - p) as nat + p as nat == 53,
                pow2(52) == frac_unit(), pow2(53) == 2 * frac_unit();
        lemma_scaled_compose(t as nat, q as nat);
        lemma_pow2_adds((53 - p) as nat, t as nat);
        assert(scaled((t * frac_unit() + q) as nat) * 1 == x * pow2(1074)) by (nonlinear_arith)
            requires scaled((t * frac_unit() + q) as nat) == q * pow2(t as nat), q == x * sh, sh == pow2((53 - p) as nat),
                pow2((53 - p) as nat + t as nat) == pow2((53 - p) as nat) * pow2(t as nat),
                (53 - p) as nat + t as nat == 1074;
    }
    let m: u64 = t * 0x10000000000000 + q;
    proof {
        lemma_rne_exact(m as nat, x as nat, 1);
    }
    m
}

} // verus!
