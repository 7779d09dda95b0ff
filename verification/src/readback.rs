//! The text a number is printed as reads back as the same number.
use vstd::prelude::*;
use vstd::arithmetic::power2::*;
use crate::binary64::{is_rne, lemma_rne_is, lemma_rne_zero, scaled, INF_MAG};
use crate::decimal::{digit_run, digits_value, is_digit, lemma_p10_bounds, lemma_p10_pos, lit_bits, lit_den, lit_end, lit_frac_end, lit_frac_len, lit_has_dot, lit_has_exp, lit_int_end, lit_mant, lit_mant_digits, lit_num, lit_shift, p10, ratio_den, ratio_num, starts_number};
use crate::display::{best_level, dec_digits, display_text, is_best_level, level_ok, place_point, reads_as, shortest_mant, ten_pow_within, zeros_text};
use crate::fpu::{mag_of, sign_of};

verus! {

broadcast use lemma_pow2_pos;

proof fn lemma_digit_run_to(s: Seq<u8>, i: int, j: int)
    requires
        0 <= i <= j <= s.len(),
        forall|k: int| i <= k < j ==> is_digit(s[k]),
        j == s.len() || !is_digit(s[j]),
    ensures
        digit_run(s, i) == j,
    decreases j - i,
{
    if i < j {
        lemma_digit_run_to(s, i + 1, j);
    }
}

/// Digits side by side: the high part shifted past the low part.
proof fn lemma_digits_concat(a: Seq<u8>, b: Seq<u8>)
    ensures
        digits_value(a + b) == digits_value(a) * p10(b.len()) + digits_value(b),
    decreases b.len(),
{
    if b.len() == 0 {
        assert(a + b =~= a);
        assert(p10(0) == 1);
    } else {
        let ab = a + b;
        let bd = b.drop_last();
        assert(ab.drop_last() =~= a + bd);
        assert(ab.last() == b.last());
        lemma_digits_concat(a, bd);
        let pl = p10(bd.len());
        let x = digits_value(a);
        let y = digits_value(bd);
        let d = (b.last() - 48) as nat;
        assert(p10(b.len()) == 10 * pl);
        assert(digits_value(ab) == digits_value(a + bd) * 10 + d);
        assert(digits_value(b) == y * 10 + d);
        assert(digits_value(a + bd) == x * pl + y);
        assert((x * pl + y) * 10 + d == x * (10 * pl) + (y * 10 + d)) by (nonlinear_arith);
    }
}

/// One digit's value.
proof fn lemma_one_digit(d: u8)
    ensures
        digits_value(seq![d]) == (d - 48) as nat,
{
    assert(seq![d].drop_last() =~= Seq::<u8>::empty());
    assert(seq![d].last() == d);
    assert(digits_value(Seq::<u8>::empty()) == 0);
    assert(digits_value(seq![d]) == digits_value(Seq::<u8>::empty()) * 10 + (d - 48) as nat);
}

proof fn lemma_zeros_value(z: nat)
    ensures
        digits_value(zeros_text(z)) == 0,
        forall|k: int| 0 <= k < z ==> is_digit(#[trigger] zeros_text(z)[k]),
    decreases z,
{
    if z > 0 {
        assert(zeros_text(z).drop_last() =~= zeros_text((z - 1) as nat));
        lemma_zeros_value((z - 1) as nat);
    }
}

proof fn lemma_dec_digits(c: nat)
    ensures
        dec_digits(c).len() >= 1,
        forall|k: int| 0 <= k < dec_digits(c).len() ==> is_digit(#[trigger] dec_digits(c)[k]),
        digits_value(dec_digits(c)) == c,
    decreases c,
{
    if c >= 10 {
        lemma_dec_digits(c / 10);
        let d = dec_digits(c / 10);
        let last = (c % 10 + 48) as u8;
        assert(dec_digits(c) == d.push(last));
        assert(dec_digits(c).drop_last() =~= d);
        assert(dec_digits(c).last() == last);
        assert forall|k: int| 0 <= k < dec_digits(c).len() implies is_digit(#[trigger] dec_digits(c)[k]) by {
            if k < d.len() {
                assert(dec_digits(c)[k] == d[k]);
            }
        }
        assert(digits_value(dec_digits(c)) == (c / 10) * 10 + c % 10);
    } else {
        lemma_one_digit((c + 48) as u8);
    }
}

/// Some level is the coarsest that works.
proof fn lemma_best_exists(m: nat)
    requires
        0 < m < INF_MAG,
    ensures
        is_best_level(m, best_level(m)),
{
    let n = scaled(m);
    crate::binary64::lemma_scaled_strict_mono(m, INF_MAG as nat);
    crate::binary64::lemma_scaled_inf();
    crate::binary64::lemma_frac_unit();
    lemma_pow2_adds(52, 2046);
    lemma_pow2_adds(1024, 1074);
    assert forall|j: int| j > 399 implies !#[trigger] level_ok(m, j) by {
        lemma_p10_bounds(j as nat);
        lemma_pow2_strictly_increases(1025, (3 * j) as nat);
        lemma_pow2_unfold(1025);
        assert(p10(j as nat) * pow2(1074) > 2 * n) by (nonlinear_arith)
            requires
                p10(j as nat) >= pow2((3 * j) as nat),
                pow2((3 * j) as nat) > pow2(1025),
                pow2(1025) == 2 * pow2(1024),
                n < pow2(1024) * pow2(1074),
        ;
        assert(!ten_pow_within(n, j));
        crate::display::lemma_high_level(m, j);
    }
    lemma_best_from(m, 399);
}

proof fn lemma_best_from(m: nat, k: int)
    requires
        0 < m < INF_MAG,
        k >= -1074,
        forall|j: int| j > k ==> !#[trigger] level_ok(m, j),
    ensures
        is_best_level(m, best_level(m)),
    decreases k + 1074,
{
    if level_ok(m, k) {
        assert(is_best_level(m, k));
    } else {
        if k == -1074 {
            crate::display::lemma_exact_level(m);
        }
        lemma_best_from(m, k - 1);
    }
}

/// The lexer reads the literal at the front of `t` as `c * 10^k`, and it
/// spans the whole of `t`.
pub open spec fn reads_whole(t: Seq<u8>, c: nat, k: int) -> bool {
    &&& starts_number(t, 0)
    &&& lit_end(t, 0) == t.len()
    &&& lit_num(t, 0) * ratio_den(k) == ratio_num(c, k) * lit_den(t, 0)
    &&& lit_den(t, 0) > 0
}

/// The layout of the digits of `c` with the point after `exp` of them
/// reads back as `c * 10^(exp - len)`.
proof fn lemma_layout_reads(c: nat, exp: int)
    ensures
        reads_whole(place_point(dec_digits(c), exp), c, exp - dec_digits(c).len()),
{
    let ds = dec_digits(c);
    let l = ds.len() as int;
    let k = exp - l;
    lemma_dec_digits(c);
    let t = place_point(ds, exp);
    assert(p10(0) == 1);
    if exp <= 0 {
        let z = (-exp) as nat;
        lemma_zeros_value(z);
        let zs = zeros_text(z);
        assert(t =~= seq![48u8, 46u8] + zs + ds);
        assert(t[0] == 48u8 && t[1] == 46u8);
        lemma_digit_run_to(t, 0, 1);
        assert forall|j: int| 2 <= j < t.len() implies is_digit(t[j]) by {
            if j < 2 + z {
                assert(t[j] == zs[j - 2]);
            } else {
                assert(t[j] == ds[j - 2 - z]);
            }
        }
        lemma_digit_run_to(t, 2, t.len() as int);
        assert(lit_int_end(t, 0) == 1);
        assert(lit_has_dot(t, 0));
        assert(lit_frac_end(t, 0) == t.len());
        assert(!lit_has_exp(t, 0));
        assert(lit_frac_len(t, 0) == z + l);
        assert(lit_mant_digits(t, 0) =~= seq![48u8] + (zs + ds));
        lemma_digits_concat(seq![48u8], zs + ds);
        lemma_digits_concat(zs, ds);
        lemma_one_digit(48u8);
        assert(digits_value(zs + ds) == 0 * p10(ds.len()) + c);
        assert(digits_value(seq![48u8] + (zs + ds)) == 0 * p10((zs + ds).len()) + digits_value(zs + ds));
        assert(lit_mant(t, 0) == c);
        assert(lit_shift(t, 0) == k);
        lemma_p10_pos((-k) as nat);
    } else if exp < l {
        assert(t =~= ds.subrange(0, exp) + seq![46u8] + ds.subrange(exp, l));
        assert forall|j: int| 0 <= j < exp implies is_digit(t[j]) by {
            assert(t[j] == ds[j]);
        }
        lemma_digit_run_to(t, 0, exp);
        assert forall|j: int| exp + 1 <= j < t.len() implies is_digit(t[j]) by {
            assert(t[j] == ds[j - 1]);
        }
        lemma_digit_run_to(t, exp + 1, t.len() as int);
        assert(lit_int_end(t, 0) == exp);
        assert(lit_has_dot(t, 0));
        assert(lit_frac_end(t, 0) == t.len());
        assert(!lit_has_exp(t, 0));
        assert(lit_mant_digits(t, 0) =~= ds);
        assert(lit_frac_len(t, 0) == l - exp);
        assert(lit_shift(t, 0) == k);
        lemma_p10_pos((-k) as nat);
    } else {
        let z = (exp - l) as nat;
        lemma_zeros_value(z);
        let zs = zeros_text(z);
        assert(t =~= ds + zs);
        assert forall|j: int| 0 <= j < t.len() implies is_digit(t[j]) by {
            if j < l {
                assert(t[j] == ds[j]);
            } else {
                assert(t[j] == zs[j - l]);
            }
        }
        lemma_digit_run_to(t, 0, t.len() as int);
        assert(lit_int_end(t, 0) == t.len());
        assert(!lit_has_dot(t, 0));
        assert(lit_frac_end(t, 0) == t.len());
        assert(!lit_has_exp(t, 0));
        assert(lit_mant_digits(t, 0) =~= t);
        lemma_digits_concat(ds, zs);
        assert(lit_mant(t, 0) == c * p10(z));
        assert(lit_shift(t, 0) == 0);
        assert(k == z);
    }
}

/// Same value, same rounding.
proof fn lemma_rne_scale(m: nat, n1: nat, d1: nat, n2: nat, d2: nat)
    requires
        d1 > 0,
        d2 > 0,
        n1 * d2 == n2 * d1,
        is_rne(m, n2, d2),
    ensures
        is_rne(m, n1, d1),
{
    assert forall|m2: nat| m2 <= INF_MAG implies {
        &&& crate::binary64::dist(m, n1, d1) <= #[trigger] crate::binary64::dist(m2, n1, d1)
        &&& (crate::binary64::dist(m, n1, d1) == crate::binary64::dist(m2, n1, d1) ==> m2 == m || m % 2 == 0)
    } by {
        let p = pow2(1074);
        let a = crate::binary64::dist(m, n2, d2);
        let b = crate::binary64::dist(m2, n2, d2);
        assert(a <= b);
        lemma_dist_scale(m, n1, d1, n2, d2);
        lemma_dist_scale(m2, n1, d1, n2, d2);
        assert(crate::binary64::dist(m, n1, d1) * d2 == a * d1);
        assert(crate::binary64::dist(m2, n1, d1) * d2 == b * d1);
        assert(crate::binary64::dist(m, n1, d1) * d2 <= crate::binary64::dist(m2, n1, d1) * d2) by (nonlinear_arith)
            requires a <= b, crate::binary64::dist(m, n1, d1) * d2 == a * d1,
                crate::binary64::dist(m2, n1, d1) * d2 == b * d1;
        assert(crate::binary64::dist(m, n1, d1) <= crate::binary64::dist(m2, n1, d1)) by (nonlinear_arith)
            requires crate::binary64::dist(m, n1, d1) * d2 <= crate::binary64::dist(m2, n1, d1) * d2, d2 > 0;
        if crate::binary64::dist(m, n1, d1) == crate::binary64::dist(m2, n1, d1) {
            assert(a * d1 == b * d1);
            assert(a == b) by (nonlinear_arith) requires a * d1 == b * d1, d1 > 0;
        }
    }
}

/// Distances scale with the fraction's terms.
proof fn lemma_dist_scale(m: nat, n1: nat, d1: nat, n2: nat, d2: nat)
    requires
        n1 * d2 == n2 * d1,
        d1 > 0,
        d2 > 0,
    ensures
        crate::binary64::dist(m, n1, d1) * d2 == crate::binary64::dist(m, n2, d2) * d1,
{
    let s = scaled(m);
    let p = pow2(1074);
    assert(s * d1 * d2 == s * d2 * d1) by (nonlinear_arith);
    assert(n1 * p * d2 == n2 * p * d1) by (nonlinear_arith) requires n1 * d2 == n2 * d1;
    if s * d1 >= n1 * p {
        assert(s * d1 * d2 >= n1 * p * d2) by (nonlinear_arith) requires s * d1 >= n1 * p;
        assert(s * d2 * d1 >= n2 * p * d1);
        assert(s * d2 >= n2 * p) by (nonlinear_arith)
            requires s * d2 * d1 >= n2 * p * d1, d1 > 0;
        assert(((s * d1 - n1 * p) as nat) * d2 == ((s * d2 - n2 * p) as nat) * d1) by (nonlinear_arith)
            requires s * d1 >= n1 * p, s * d2 >= n2 * p, n1 * d2 == n2 * d1;
    } else {
        assert(s * d1 * d2 <= n1 * p * d2) by (nonlinear_arith) requires s * d1 < n1 * p;
        assert(s * d2 <= n2 * p) by (nonlinear_arith)
            requires s * d2 * d1 <= n2 * p * d1, d1 > 0;
        assert(((n1 * p - s * d1) as nat) * d2 == ((n2 * p - s * d2) as nat) * d1) by (nonlinear_arith)
            requires s * d1 < n1 * p, s * d2 <= n2 * p, n1 * d2 == n2 * d1;
    }
}

/// The text of a finite, non-negative encoding is one number literal
/// that the lexer reads back as exactly that encoding.
pub proof fn lemma_text_reads_back(x: u64)
    requires
        !sign_of(x),
        mag_of(x) < INF_MAG,
    ensures
        starts_number(display_text(x), 0),
        lit_end(display_text(x), 0) == display_text(x).len(),
        lit_bits(display_text(x), 0) == x,
{
    let m = mag_of(x);
    assert(m == x);
    let t = display_text(x);
    if m == 0 {
        assert(t =~= seq![48u8]);
        lemma_digit_run_to(t, 0, 1);
        assert(lit_mant_digits(t, 0) =~= seq![48u8]);
        lemma_one_digit(48u8);
        assert(lit_mant(t, 0) == 0);
        assert(lit_shift(t, 0) == 0);
        assert(p10(0) == 1);
        assert(lit_num(t, 0) == 0);
        lemma_rne_zero(0, 1);
        lemma_rne_is(0, 0, 1);
    } else {
        lemma_best_exists(m);
        let k = best_level(m);
        let c = shortest_mant(m);
        let ds = dec_digits(c);
        let exp = k + ds.len();
        assert(t =~= place_point(ds, exp));
        assert(reads_as(m, c, k));
        lemma_layout_reads(c, exp);
        lemma_p10_pos((-k) as nat);
        assert(ratio_den(k) > 0);
        lemma_rne_scale(m, lit_num(t, 0), lit_den(t, 0), ratio_num(c, k), ratio_den(k));
        lemma_rne_is(m, lit_num(t, 0), lit_den(t, 0));
    }
}

} // verus!
