//! IEEE-754 binary64 arithmetic on encodings, computed exactly with
//! integers: each operation is the correctly rounded (nearest, ties to
//! even) result of the exact operation on the operands' values, with the
//! standard rules for zeros, infinities and NaN. Every NaN result is the
//! canonical quiet NaN.
use vstd::prelude::*;
use vstd::arithmetic::power2::*;
use vstd::arithmetic::div_mod::*;
use crate::binary64::{frac_unit, is_rne, lemma_frac_unit, lemma_rne_is, lemma_rne_scale, lemma_scaled_strict_mono, rne, round_ratio, scaled, INF_MAG, NAN_BITS, SIGN_BIT};
use crate::natbits::{bv, from_u128, is_zero, nat_add, nat_order, nat_shl, nat_sub, pow2_u64};

verus! {

broadcast use lemma_pow2_pos;

/// Encoding of `1.0`.
pub const ONE_BITS: u64 = 0x3FF0000000000000;

pub open spec fn sign_of(x: u64) -> bool {
    x >= SIGN_BIT
}

/// The encoding without its sign bit.
pub open spec fn mag_of(x: u64) -> nat {
    (x as nat) % 0x8000000000000000
}

pub open spec fn is_nan(x: u64) -> bool {
    mag_of(x) > INF_MAG
}

pub open spec fn is_inf(x: u64) -> bool {
    mag_of(x) == INF_MAG
}

pub open spec fn is_finite(x: u64) -> bool {
    mag_of(x) < INF_MAG
}

/// A magnitude with a sign.
pub open spec fn with_sign(neg: bool, m: nat) -> u64 {
    if neg {
        (m + 0x8000000000000000) as u64
    } else {
        m as u64
    }
}

/// The exact value of a finite encoding, times `2^1074`.
pub open spec fn sval(x: u64) -> int {
    if sign_of(x) {
        -(scaled(mag_of(x)) as int)
    } else {
        scaled(mag_of(x)) as int
    }
}

pub open spec fn abs_int(x: int) -> nat {
    if x < 0 {
        (-x) as nat
    } else {
        x as nat
    }
}

/// Negation: flips the sign bit.
pub open spec fn fneg(x: u64) -> u64 {
    if sign_of(x) {
        (x - 0x8000000000000000) as u64
    } else {
        (x + 0x8000000000000000) as u64
    }
}

/// Addition.
pub open spec fn fadd(a: u64, b: u64) -> u64 {
    if is_nan(a) || is_nan(b) {
        NAN_BITS
    } else if is_inf(a) && is_inf(b) {
        if sign_of(a) == sign_of(b) {
            a
        } else {
            NAN_BITS
        }
    } else if is_inf(a) {
        a
    } else if is_inf(b) {
        b
    } else {
        let s = sval(a) + sval(b);
        if s == 0 {
            if sign_of(a) && sign_of(b) {
                SIGN_BIT
            } else {
                0
            }
        } else {
            with_sign(s < 0, rne(abs_int(s), pow2(1074)))
        }
    }
}

/// Subtraction: `a + (-b)`.
pub open spec fn fsub(a: u64, b: u64) -> u64 {
    fadd(a, fneg(b))
}

/// Multiplication.
pub open spec fn fmul(a: u64, b: u64) -> u64 {
    let neg = sign_of(a) != sign_of(b);
    if is_nan(a) || is_nan(b) {
        NAN_BITS
    } else if (is_inf(a) && mag_of(b) == 0) || (is_inf(b) && mag_of(a) == 0) {
        NAN_BITS
    } else if is_inf(a) || is_inf(b) {
        with_sign(neg, INF_MAG as nat)
    } else {
        with_sign(neg, rne(scaled(mag_of(a)) * scaled(mag_of(b)), pow2(2148)))
    }
}

/// Division.
pub open spec fn fdiv(a: u64, b: u64) -> u64 {
    let neg = sign_of(a) != sign_of(b);
    if is_nan(a) || is_nan(b) {
        NAN_BITS
    } else if (is_inf(a) && is_inf(b)) || (mag_of(a) == 0 && mag_of(b) == 0) {
        NAN_BITS
    } else if is_inf(a) {
        with_sign(neg, INF_MAG as nat)
    } else if is_inf(b) {
        with_sign(neg, 0)
    } else if mag_of(b) == 0 {
        with_sign(neg, INF_MAG as nat)
    } else {
        with_sign(neg, rne(scaled(mag_of(a)), scaled(mag_of(b))))
    }
}

/// `a` multiplied into `1.0`, `k` times.
pub open spec fn pow_iter(a: u64, k: nat) -> u64
    decreases k,
{
    if k == 0 {
        ONE_BITS
    } else {
        fmul(pow_iter(a, (k - 1) as nat), a)
    }
}

/// The exponent `b` is a finite integer of magnitude at most 32.
pub open spec fn small_int_exponent(b: u64) -> bool {
    &&& is_finite(b)
    &&& scaled(mag_of(b)) % pow2(1074) == 0
    &&& scaled(mag_of(b)) <= 32 * pow2(1074)
}

/// Its value.
pub open spec fn exponent_value(b: u64) -> int {
    let n = (scaled(mag_of(b)) / pow2(1074)) as int;
    if sign_of(b) {
        -n
    } else {
        n
    }
}

/// Power folding: exact iterated multiplication for small integral
/// exponents (a reciprocal for negative ones); `None` otherwise.
pub open spec fn fold_pow(a: u64, b: u64) -> Option<u64> {
    if small_int_exponent(b) {
        let n = exponent_value(b);
        let acc = pow_iter(a, abs_int(n));
        Some(if n < 0 { fdiv(ONE_BITS, acc) } else { acc })
    } else {
        None
    }
}


/// The significand of a magnitude pattern (implicit bit included).
pub open spec fn sig_of(m: nat) -> nat {
    if m / frac_unit() == 0 {
        m % frac_unit()
    } else {
        m % frac_unit() + frac_unit()
    }
}

/// The power of two the significand is scaled by.
pub open spec fn shift_of(m: nat) -> nat {
    if m / frac_unit() == 0 {
        0
    } else {
        (m / frac_unit() - 1) as nat
    }
}

pub proof fn lemma_scaled_split(m: nat)
    ensures
        scaled(m) == sig_of(m) * pow2(shift_of(m)),
        sig_of(m) < 2 * frac_unit(),
{
    lemma2_to64();
    if m / frac_unit() == 0 {
        assert(sig_of(m) * pow2(0) == sig_of(m));
    }
}

/// The magnitude of an encoding.
pub fn mag_bits(x: u64) -> (r: u64)
    ensures
        r == mag_of(x),
        r < 0x8000000000000000,
{
    if x >= SIGN_BIT {
        x - SIGN_BIT
    } else {
        x
    }
}

/// An encoding from a sign and a magnitude.
pub fn signed(neg: bool, m: u64) -> (r: u64)
    requires
        m <= INF_MAG,
    ensures
        r == with_sign(neg, m as nat),
{
    if neg {
        m + SIGN_BIT
    } else {
        m
    }
}

/// The exact value of a magnitude pattern, times `2^1074`.
pub fn scaled_value(m: u64) -> (r: Vec<bool>)
    requires
        m <= INF_MAG,
    ensures
        bv(r@) == scaled(m as nat),
{
    proof {
        lemma_scaled_split(m as nat);
    }
    let e: u64 = m / 0x10000000000000;
    let f: u64 = m % 0x10000000000000;
    if e == 0 {
        let r = from_u128(f as u128);
        proof {
            assert(pow2(0) == 1) by { lemma2_to64(); }
        }
        r
    } else {
        let q = from_u128((f + 0x10000000000000) as u128);
        nat_shl(&q, (e - 1) as usize)
    }
}

/// `2^k` exactly.
pub fn pow2_value(k: usize) -> (r: Vec<bool>)
    ensures
        bv(r@) == pow2(k as nat),
{
    let one = from_u128(1);
    nat_shl(&one, k)
}

/// The rounding of a positive ratio, as a function result.
fn round_to(num: &Vec<bool>, den: &Vec<bool>) -> (m: u64)
    requires
        bv(den@) > 0,
    ensures
        m == rne(bv(num@), bv(den@)),
        is_rne(m as nat, bv(num@), bv(den@)),
        m <= INF_MAG,
{
    let m = round_ratio(num, den);
    proof {
        lemma_rne_is(m as nat, bv(num@), bv(den@));
    }
    m
}

/// Negation.
pub fn neg_f64(x: u64) -> (r: u64)
    ensures
        r == fneg(x),
{
    if x >= SIGN_BIT {
        x - SIGN_BIT
    } else {
        x + SIGN_BIT
    }
}

/// Significand and shift of a finite magnitude pattern.
fn split_mag(m: u64) -> (r: (u64, usize))
    requires
        m < INF_MAG,
    ensures
        r.0 == sig_of(m as nat),
        r.1 == shift_of(m as nat),
        scaled(m as nat) == r.0 * pow2(r.1 as nat),
        r.0 < 0x20000000000000,
        r.1 < 2046,
{
    proof {
        lemma_scaled_split(m as nat);
        lemma2_to64();
    }
    let e: u64 = m / 0x10000000000000;
    let g: u64 = if e == 0 { m % 0x10000000000000 } else { m % 0x10000000000000 + 0x10000000000000 };
    let k: usize = if e == 0 { 0 } else { (e - 1) as usize };
    (g, k)
}

/// The rounding of `t * 2^k / 2^1074` for `t > 0`, computed without the
/// common power of two.
fn round_shifted(t: &Vec<bool>, k: usize) -> (m: u64)
    requires
        bv(t@) > 0,
        k < 2046,
    ensures
        m == rne(bv(t@) * pow2(k as nat), pow2(1074)),
        m <= INF_MAG,
{
    if k <= 1074 {
        let den = pow2_value(1074 - k);
        let m = round_to(t, &den);
        proof {
            lemma_rne_scale(m as nat, bv(t@), pow2((1074 - k) as nat), pow2(k as nat));
            lemma_pow2_adds((1074 - k) as nat, k as nat);
            lemma_rne_is(m as nat, bv(t@) * pow2(k as nat), pow2(1074));
        }
        m
    } else {
        let num = nat_shl(t, k - 1074);
        let one = from_u128(1);
        let m = round_to(&num, &one);
        proof {
            lemma_rne_scale(m as nat, bv(num@), 1, pow2(1074));
            lemma_pow2_adds((k - 1074) as nat, 1074);
            assert(bv(num@) * pow2(1074) == bv(t@) * pow2(k as nat)) by (nonlinear_arith)
                requires bv(num@) == bv(t@) * pow2((k - 1074) as nat),
                    pow2(k as nat) == pow2((k - 1074) as nat) * pow2(1074);
            lemma_rne_is(m as nat, bv(t@) * pow2(k as nat), pow2(1074));
        }
        m
    }
}

/// Addition, correctly rounded.
pub fn add_f64(a: u64, b: u64) -> (r: u64)
    ensures
        r == fadd(a, b),
{
    let ma = mag_bits(a);
    let mb = mag_bits(b);
    if ma > INF_MAG || mb > INF_MAG {
        return NAN_BITS;
    }
    let sa = a >= SIGN_BIT;
    let sb = b >= SIGN_BIT;
    if ma == INF_MAG && mb == INF_MAG {
        return if sa == sb { a } else { NAN_BITS };
    }
    if ma == INF_MAG {
        return a;
    }
    if mb == INF_MAG {
        return b;
    }
    let (ga, ka) = split_mag(ma);
    let (gb, kb) = split_mag(mb);
    let k: usize = if ka <= kb { ka } else { kb };
    let xa = nat_shl(&from_u128(ga as u128), ka - k);
    let xb = nat_shl(&from_u128(gb as u128), kb - k);
    let ghost p = pow2(k as nat);
    proof {
        lemma_pow2_adds((ka - k) as nat, k as nat);
        lemma_pow2_adds((kb - k) as nat, k as nat);
        assert(scaled(ma as nat) == bv(xa@) * p) by (nonlinear_arith)
            requires scaled(ma as nat) == ga * pow2(ka as nat), bv(xa@) == ga * pow2((ka - k) as nat),
                pow2(ka as nat) == pow2((ka - k) as nat) * p;
        assert(scaled(mb as nat) == bv(xb@) * p) by (nonlinear_arith)
            requires scaled(mb as nat) == gb * pow2(kb as nat), bv(xb@) == gb * pow2((kb - k) as nat),
                pow2(kb as nat) == pow2((kb - k) as nat) * p;
    }
    let (neg, total) = if sa == sb {
        (sa, nat_add(&xa, &xb))
    } else {
        let o = nat_order(&xa, &xb);
        if o >= 0 {
            (sa, nat_sub(&xa, &xb))
        } else {
            (sb, nat_sub(&xb, &xa))
        }
    };
    proof {
        let s = sval(a) + sval(b);
        let x = bv(xa@);
        let y = bv(xb@);
        assert(p > 0);
        if sa == sb {
            assert(x * p + y * p == (x + y) * p) by (nonlinear_arith);
        } else if x >= y {
            assert(x * p - y * p == (x - y) * p) by (nonlinear_arith);
            assert(x * p >= y * p) by (nonlinear_arith) requires x >= y;
        } else {
            assert(y * p - x * p == (y - x) * p) by (nonlinear_arith);
            assert(y * p > x * p) by (nonlinear_arith) requires x < y, p > 0;
        }
        assert(abs_int(s) == bv(total@) * p);
        assert(bv(total@) > 0 ==> bv(total@) * p > 0) by (nonlinear_arith) requires p > 0;
        assert(bv(total@) > 0 ==> (neg == (s < 0)));
        assert(bv(total@) == 0 ==> bv(total@) * p == 0);
    }
    if is_zero(&total) {
        if sa && sb {
            SIGN_BIT
        } else {
            0
        }
    } else {
        let m = round_shifted(&total, k);
        signed(neg, m)
    }
}

/// Subtraction, correctly rounded.
pub fn sub_f64(a: u64, b: u64) -> (r: u64)
    ensures
        r == fsub(a, b),
{
    add_f64(a, neg_f64(b))
}

/// Multiplication, correctly rounded.
pub fn mul_f64(a: u64, b: u64) -> (r: u64)
    ensures
        r == fmul(a, b),
        is_finite(a) && is_finite(b) ==> is_rne(
            mag_of(r),
            scaled(mag_of(a)) * scaled(mag_of(b)),
            pow2(2148),
        ),
{
    let ma = mag_bits(a);
    let mb = mag_bits(b);
    let neg = (a >= SIGN_BIT) != (b >= SIGN_BIT);
    if ma > INF_MAG || mb > INF_MAG {
        return NAN_BITS;
    }
    if (ma == INF_MAG && mb == 0) || (mb == INF_MAG && ma == 0) {
        return NAN_BITS;
    }
    if ma == INF_MAG || mb == INF_MAG {
        return signed(neg, INF_MAG);
    }
    let (ga, ka) = split_mag(ma);
    let (gb, kb) = split_mag(mb);
    proof {
        assert((ga as u128) * (gb as u128) < 0x100000000000000000000000000000000) by (nonlinear_arith)
            requires ga < 0x20000000000000, gb < 0x20000000000000;
    }
    let prod: u128 = (ga as u128) * (gb as u128);
    let s: usize = ka + kb;
    let q = from_u128(prod);
    proof {
        lemma_pow2_adds(ka as nat, kb as nat);
        assert(scaled(ma as nat) * scaled(mb as nat) == prod * pow2(s as nat)) by (nonlinear_arith)
            requires prod == ga * gb, pow2(s as nat) == pow2(ka as nat) * pow2(kb as nat),
                scaled(ma as nat) == ga * pow2(ka as nat), scaled(mb as nat) == gb * pow2(kb as nat);
    }
    let m = if s <= 2148 {
        let den = pow2_value(2148 - s);
        let m = round_to(&q, &den);
        proof {
            lemma_rne_scale(m as nat, prod as nat, pow2((2148 - s) as nat), pow2(s as nat));
            lemma_pow2_adds((2148 - s) as nat, s as nat);
            lemma_rne_is(m as nat, scaled(ma as nat) * scaled(mb as nat), pow2(2148));
        }
        m
    } else {
        let num = nat_shl(&q, s - 2148);
        let one = from_u128(1);
        let m = round_to(&num, &one);
        proof {
            lemma_rne_scale(m as nat, bv(num@), 1, pow2(2148));
            lemma_pow2_adds((s - 2148) as nat, 2148);
            assert(bv(num@) * pow2(2148) == prod * pow2(s as nat)) by (nonlinear_arith)
                requires bv(num@) == prod * pow2((s - 2148) as nat),
                    pow2(s as nat) == pow2((s - 2148) as nat) * pow2(2148);
            lemma_rne_is(m as nat, scaled(ma as nat) * scaled(mb as nat), pow2(2148));
        }
        m
    };
    signed(neg, m)
}

/// Division, correctly rounded.
pub fn div_f64(a: u64, b: u64) -> (r: u64)
    ensures
        r == fdiv(a, b),
        is_finite(a) && is_finite(b) && mag_of(b) > 0 ==> is_rne(
            mag_of(r),
            scaled(mag_of(a)),
            scaled(mag_of(b)),
        ),
{
    let ma = mag_bits(a);
    let mb = mag_bits(b);
    let neg = (a >= SIGN_BIT) != (b >= SIGN_BIT);
    if ma > INF_MAG || mb > INF_MAG {
        return NAN_BITS;
    }
    if (ma == INF_MAG && mb == INF_MAG) || (ma == 0 && mb == 0) {
        return NAN_BITS;
    }
    if ma == INF_MAG {
        return signed(neg, INF_MAG);
    }
    if mb == INF_MAG {
        return signed(neg, 0);
    }
    if mb == 0 {
        return signed(neg, INF_MAG);
    }
    let (ga, ka) = split_mag(ma);
    let (gb, kb) = split_mag(mb);
    let k: usize = if ka <= kb { ka } else { kb };
    let num = nat_shl(&from_u128(ga as u128), ka - k);
    let den = nat_shl(&from_u128(gb as u128), kb - k);
    let ghost p = pow2(k as nat);
    proof {
        lemma_scaled_strict_mono(0, mb as nat);
        assert(scaled(0) == 0) by {
            lemma2_to64();
        }
        lemma_pow2_adds((ka - k) as nat, k as nat);
        lemma_pow2_adds((kb - k) as nat, k as nat);
        assert(scaled(ma as nat) == bv(num@) * p) by (nonlinear_arith)
            requires scaled(ma as nat) == ga * pow2(ka as nat), bv(num@) == ga * pow2((ka - k) as nat),
                pow2(ka as nat) == pow2((ka - k) as nat) * p;
        assert(scaled(mb as nat) == bv(den@) * p) by (nonlinear_arith)
            requires scaled(mb as nat) == gb * pow2(kb as nat), bv(den@) == gb * pow2((kb - k) as nat),
                pow2(kb as nat) == pow2((kb - k) as nat) * p;
        assert(bv(den@) > 0) by (nonlinear_arith)
            requires scaled(mb as nat) == bv(den@) * p, scaled(mb as nat) > 0;
    }
    let m = round_to(&num, &den);
    proof {
        lemma_rne_scale(m as nat, bv(num@), bv(den@), p);
        lemma_rne_is(m as nat, scaled(ma as nat), scaled(mb as nat));
    }
    signed(neg, m)
}

/// Power folding: `Some` exactly when the exponent is a finite integer of
/// magnitude at most 32; the value is then the iterated product (its
/// reciprocal for a negative exponent).
pub fn pow_fold(a: u64, b: u64) -> (r: Option<u64>)
    ensures
        r == fold_pow(a, b),
{
    let mb = mag_bits(b);
    if mb >= INF_MAG {
        proof {
            assert(!small_int_exponent(b));
        }
        return None;
    }
    let (g, k) = split_mag(mb);
    let ghost unit = pow2(1074);
    let ghost xv = scaled(mb as nat);
    let mut n: u64 = 0;
    let mut found = false;
    proof {
        lemma2_to64();
        lemma_frac_unit();
    }
    if k < 1074 && 1074 - k < 64 {
        let sh: usize = 1074 - k;
        let step: u64 = pow2_u64(sh);
        proof {
            lemma_pow2_adds(sh as nat, k as nat);
        }
        while n <= 32
            invariant
                n <= 33,
                sh < 64,
                step == pow2(sh as nat),
                unit == pow2(sh as nat) * pow2(k as nat),
                xv == g * pow2(k as nat),
                pow2(k as nat) > 0,
                found ==> n <= 32 && g == n * step,
                !found ==> forall|j: nat| j < n ==> g != #[trigger] (j * step),
            ensures
                found ==> n <= 32 && g == n * step,
                !found ==> forall|j: nat| j <= 32 ==> g != #[trigger] (j * step),
            decreases 33 - n,
        {
            proof {
                assert((n as u128) * (step as u128) < 0x100000000000000000000000000000000) by (nonlinear_arith)
                    requires n <= 32, step < 0x10000000000000000;
            }
            if (g as u128) == (n as u128) * (step as u128) {
                found = true;
                break;
            }
            n = n + 1;
        }
        proof {
            if found {
                assert(xv == n * unit) by (nonlinear_arith)
                    requires xv == g * pow2(k as nat), g == n * step, step == pow2(sh as nat),
                        unit == pow2(sh as nat) * pow2(k as nat);
            } else {
                assert forall|j: nat| j <= 32 implies xv != #[trigger] (j * unit) by {
                    assert(g != j * step);
                    assert(xv != j * unit) by (nonlinear_arith)
                        requires xv == g * pow2(k as nat), g != j * step, step == pow2(sh as nat),
                            unit == pow2(sh as nat) * pow2(k as nat), pow2(k as nat) > 0;
                }
            }
        }
    } else if g == 0 {
        found = true;
        proof {
            assert(xv == 0 * unit) by (nonlinear_arith) requires xv == g * pow2(k as nat), g == 0;
        }
    } else {
        proof {
            assert forall|j: nat| j <= 32 implies xv != #[trigger] (j * unit) by {
                if k >= 1074 {
                    lemma_pow2_adds((k - 1074) as nat, 1074);
                    assert(g >= frac_unit());
                    lemma_pow2_pos((k - 1074) as nat);
                    assert(xv > 32 * unit) by (nonlinear_arith)
                        requires xv == g * pow2(k as nat), g >= frac_unit(), frac_unit() == 0x10000000000000,
                            pow2(k as nat) == pow2((k - 1074) as nat) * unit, pow2((k - 1074) as nat) >= 1, unit > 0;
                    assert(j * unit <= 32 * unit) by (nonlinear_arith) requires j <= 32, unit > 0;
                } else {
                    let sh = (1074 - k) as nat;
                    lemma_pow2_adds(sh, k as nat);
                    if sh > 64 {
                        lemma_pow2_strictly_increases(64, sh);
                    }
                    lemma2_to64_rest();
                    if j > 0 {
                        assert(j * pow2(sh) >= pow2(sh)) by (nonlinear_arith) requires j > 0;
                        assert(g * pow2(k as nat) < j * pow2(sh) * pow2(k as nat)) by (nonlinear_arith)
                            requires g < 0x20000000000000, j * pow2(sh) >= pow2(sh), pow2(sh) >= pow2(64),
                                pow2(64) == 0x10000000000000000, pow2(k as nat) > 0;
                    } else {
                        assert(xv > 0) by (nonlinear_arith) requires xv == g * pow2(k as nat), g > 0, pow2(k as nat) > 0;
                    }
                    assert(j * unit == j * pow2(sh) * pow2(k as nat)) by (nonlinear_arith)
                        requires unit == pow2(sh) * pow2(k as nat);
                }
            }
        }
    }
    if !found {
        proof {
            if small_int_exponent(b) {
                lemma_fundamental_div_mod(xv as int, unit as int);
                let j: nat = xv / unit;
                assert(j * unit == xv) by (nonlinear_arith)
                    requires xv == unit * (xv / unit) + xv % unit, xv % unit == 0, j == xv / unit;
                assert(j <= 32) by (nonlinear_arith)
                    requires j * unit == xv, xv <= 32 * unit, unit > 0;
                assert(xv != j * unit);
            }
        }
        return None;
    }
    proof {
        lemma_mod_multiples_basic(n as int, unit as int);
        lemma_div_by_multiple(n as int, unit as int);
        assert(xv <= 32 * unit) by (nonlinear_arith)
            requires xv == n * unit, n <= 32, unit > 0;
        assert(small_int_exponent(b));
        assert(xv / unit == n);
    }
    let mut acc: u64 = ONE_BITS;
    let mut k: u64 = 0;
    while k < n
        invariant
            k <= n,
            acc == pow_iter(a, k as nat),
        decreases n - k,
    {
        acc = mul_f64(acc, a);
        k = k + 1;
    }
    if b >= SIGN_BIT && n > 0 {
        Some(div_f64(ONE_BITS, acc))
    } else {
        Some(acc)
    }
}

/// Encoding of `-1.0`.
pub const MINUS_ONE_BITS: u64 = 0xBFF0000000000000;

/// `a == b`: false when either is NaN; the two zeros are equal.
pub open spec fn feq(a: u64, b: u64) -> bool {
    !is_nan(a) && !is_nan(b) && sval(a) == sval(b)
}

/// `a <= b`: false when either is NaN.
pub open spec fn fle(a: u64, b: u64) -> bool {
    !is_nan(a) && !is_nan(b) && sval(a) <= sval(b)
}

/// `x == 0.0`.
pub open spec fn is_zero_f(x: u64) -> bool {
    mag_of(x) == 0
}

/// `signum`: NaN for NaN, else `1.0` with the sign of `x`.
pub open spec fn fsignum(x: u64) -> u64 {
    if is_nan(x) {
        NAN_BITS
    } else if sign_of(x) {
        MINUS_ONE_BITS
    } else {
        ONE_BITS
    }
}

/// `abs`: the sign bit cleared.
pub open spec fn fabs(x: u64) -> u64 {
    mag_of(x) as u64
}

/// The nearest encoding to the natural number `n` (`n as f64`).
pub open spec fn from_nat(n: nat) -> u64 {
    rne(n, 1) as u64
}

proof fn lemma_sval_nonzero(x: u64)
    requires
        mag_of(x) > 0,
    ensures
        sign_of(x) ==> sval(x) < 0,
        !sign_of(x) ==> sval(x) > 0,
{
    crate::binary64::lemma_scaled_strict_mono(0, mag_of(x));
    assert(scaled(0) == 0) by {
        lemma2_to64();
    }
}

proof fn lemma_bits_of(x: u64)
    ensures
        x == (if sign_of(x) { SIGN_BIT as nat } else { 0 }) + mag_of(x),
{
}

/// `a == b` on encodings.
pub fn eq_f64(a: u64, b: u64) -> (r: bool)
    ensures
        r == feq(a, b),
{
    let ma = mag_bits(a);
    let mb = mag_bits(b);
    if ma > INF_MAG || mb > INF_MAG {
        return false;
    }
    if ma == 0 && mb == 0 {
        proof {
            assert(scaled(0) == 0) by {
                lemma2_to64();
            }
        }
        return true;
    }
    proof {
        lemma_bits_of(a);
        lemma_bits_of(b);
        if ma > 0 {
            lemma_sval_nonzero(a);
        }
        if mb > 0 {
            lemma_sval_nonzero(b);
        }
        if ma == 0 || mb == 0 {
            assert(scaled(0) == 0) by {
                lemma2_to64();
            }
        }
        if ma < mb {
            lemma_scaled_strict_mono(ma as nat, mb as nat);
        }
        if mb < ma {
            lemma_scaled_strict_mono(mb as nat, ma as nat);
        }
    }
    a == b
}

/// `a <= b` on encodings.
pub fn le_f64(a: u64, b: u64) -> (r: bool)
    ensures
        r == fle(a, b),
{
    let ma = mag_bits(a);
    let mb = mag_bits(b);
    if ma > INF_MAG || mb > INF_MAG {
        return false;
    }
    proof {
        assert(scaled(0) == 0) by {
            lemma2_to64();
        }
        if ma > 0 {
            lemma_sval_nonzero(a);
        }
        if mb > 0 {
            lemma_sval_nonzero(b);
        }
        if ma < mb {
            lemma_scaled_strict_mono(ma as nat, mb as nat);
        }
        if mb < ma {
            lemma_scaled_strict_mono(mb as nat, ma as nat);
        }
    }
    if ma == 0 && mb == 0 {
        return true;
    }
    let sa = a >= SIGN_BIT;
    let sb = b >= SIGN_BIT;
    if !sa && !sb {
        ma <= mb
    } else if sa && sb {
        mb <= ma
    } else {
        sa
    }
}

/// `signum`.
pub fn signum_f64(x: u64) -> (r: u64)
    ensures
        r == fsignum(x),
{
    if mag_bits(x) > INF_MAG {
        NAN_BITS
    } else if x >= SIGN_BIT {
        MINUS_ONE_BITS
    } else {
        ONE_BITS
    }
}

/// `abs`.
pub fn abs_f64(x: u64) -> (r: u64)
    ensures
        r == fabs(x),
{
    mag_bits(x)
}

/// `n as f64`.
pub fn u32_to_f64(n: u32) -> (r: u64)
    ensures
        r == from_nat(n as nat),
        r <= INF_MAG,
{
    let num = from_u128(n as u128);
    let den = from_u128(1);
    round_to(&num, &den)
}

/// `n as f64`, for a 64-bit `n`.
pub fn u64_to_f64(n: u64) -> (r: u64)
    ensures
        r == from_nat(n as nat),
        is_rne(r as nat, n as nat, 1),
        r <= INF_MAG,
{
    let num = from_u128(n as u128);
    let den = from_u128(1);
    round_to(&num, &den)
}

/// `n as f64`, for a 128-bit `n`.
pub fn u128_to_f64(n: u128) -> (r: u64)
    ensures
        r == from_nat(n as nat),
        is_rne(r as nat, n as nat, 1),
        r <= INF_MAG,
{
    let num = from_u128(n);
    let den = from_u128(1);
    round_to(&num, &den)
}

} // verus!
