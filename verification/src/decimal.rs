//! Decimal number literals: their shape, their exact value, and their
//! correctly rounded binary64 encoding.
use vstd::prelude::*;
use vstd::arithmetic::power2::*;
use crate::natbits::{bv, from_u128, mul10, nat_add, is_zero};
use crate::binary64::{rne, round_ratio, exact_int_bits, lemma_rne_is, lemma_rne_zero, lemma_rne_overflow, lemma_scaled_inf, lemma_frac_unit, scaled, INF_MAG};

verus! {

broadcast use lemma_pow2_pos;

pub open spec fn is_digit(b: u8) -> bool {
    48 <= b <= 57
}

/// `10^k`.
pub open spec fn p10(k: nat) -> nat
    decreases k,
{
    if k == 0 {
        1
    } else {
        10 * p10((k - 1) as nat)
    }
}

/// End of the run of ASCII digits starting at `i`.
pub open spec fn digit_run(s: Seq<u8>, i: int) -> int
    decreases s.len() - i,
{
    if 0 <= i < s.len() && is_digit(s[i]) {
        digit_run(s, i + 1)
    } else {
        i
    }
}

/// Value of a string of decimal digits.
pub open spec fn digits_value(s: Seq<u8>) -> nat
    decreases s.len(),
{
    if s.len() == 0 {
        0
    } else {
        digits_value(s.drop_last()) * 10 + (s.last() - 48) as nat
    }
}

/// End of the integer digits of the literal at `start`.
pub open spec fn lit_int_end(src: Seq<u8>, start: int) -> int {
    digit_run(src, start)
}

pub open spec fn lit_has_dot(src: Seq<u8>, start: int) -> bool {
    let i1 = lit_int_end(src, start);
    i1 < src.len() && src[i1] == 46
}

/// End of the mantissa (integer and fraction digits, and the dot).
pub open spec fn lit_frac_end(src: Seq<u8>, start: int) -> int {
    let i1 = lit_int_end(src, start);
    if lit_has_dot(src, start) {
        digit_run(src, i1 + 1)
    } else {
        i1
    }
}

/// Where the exponent digits would begin, after `e`/`E` and a sign.
pub open spec fn lit_exp_digits(src: Seq<u8>, start: int) -> int {
    let i2 = lit_frac_end(src, start);
    if i2 + 1 < src.len() && (src[i2 + 1] == 43 || src[i2 + 1] == 45) {
        i2 + 2
    } else {
        i2 + 1
    }
}

/// An exponent is part of the literal only when a digit follows the
/// `e`/`E` and its optional sign.
pub open spec fn lit_has_exp(src: Seq<u8>, start: int) -> bool {
    let i2 = lit_frac_end(src, start);
    let j = lit_exp_digits(src, start);
    &&& i2 < src.len()
    &&& (src[i2] == 101 || src[i2] == 69)
    &&& j < src.len()
    &&& is_digit(src[j])
}

pub open spec fn lit_exp_negative(src: Seq<u8>, start: int) -> bool {
    let i2 = lit_frac_end(src, start);
    lit_has_exp(src, start) && src[i2 + 1] == 45
}

/// One past the last byte of the number literal at `start`.
pub open spec fn lit_end(src: Seq<u8>, start: int) -> int {
    if lit_has_exp(src, start) {
        digit_run(src, lit_exp_digits(src, start))
    } else {
        lit_frac_end(src, start)
    }
}

/// All mantissa digits, integer part then fraction part.
pub open spec fn lit_mant_digits(src: Seq<u8>, start: int) -> Seq<u8> {
    let i1 = lit_int_end(src, start);
    let i2 = lit_frac_end(src, start);
    if lit_has_dot(src, start) {
        src.subrange(start, i1) + src.subrange(i1 + 1, i2)
    } else {
        src.subrange(start, i1)
    }
}

pub open spec fn lit_mant(src: Seq<u8>, start: int) -> nat {
    digits_value(lit_mant_digits(src, start))
}

pub open spec fn lit_frac_len(src: Seq<u8>, start: int) -> int {
    if lit_has_dot(src, start) {
        lit_frac_end(src, start) - lit_int_end(src, start) - 1
    } else {
        0
    }
}

/// The power of ten the mantissa is scaled by.
pub open spec fn lit_shift(src: Seq<u8>, start: int) -> int {
    let e: int = if lit_has_exp(src, start) {
        digits_value(src.subrange(lit_exp_digits(src, start), lit_end(src, start))) as int
    } else {
        0
    };
    (if lit_exp_negative(src, start) { -e } else { e }) - lit_frac_len(src, start)
}

/// `mant * 10^k` as a fraction: its numerator.
pub open spec fn ratio_num(mant: nat, k: int) -> nat {
    if k >= 0 {
        mant * p10(k as nat)
    } else {
        mant
    }
}

/// `mant * 10^k` as a fraction: its denominator.
pub open spec fn ratio_den(k: int) -> nat {
    if k >= 0 {
        1
    } else {
        p10((-k) as nat)
    }
}

/// The literal's exact value as a fraction `num / den`.
pub open spec fn lit_num(src: Seq<u8>, start: int) -> nat {
    ratio_num(lit_mant(src, start), lit_shift(src, start))
}

pub open spec fn lit_den(src: Seq<u8>, start: int) -> nat {
    ratio_den(lit_shift(src, start))
}

/// The binary64 encoding of the literal at `start`: its value rounded to
/// nearest, ties to even (`INF_MAG` when it overflows).
pub open spec fn lit_bits(src: Seq<u8>, start: int) -> nat {
    rne(lit_num(src, start), lit_den(src, start))
}

/// Where a literal may begin: a digit, or a dot followed by a digit.
pub open spec fn starts_number(src: Seq<u8>, start: int) -> bool {
    &&& 0 <= start < src.len()
    &&& (is_digit(src[start]) || (src[start] == 46 && start + 1 < src.len() && is_digit(src[start + 1])))
}

pub proof fn lemma_p10_pos(k: nat)
    ensures
        p10(k) >= 1,
    decreases k,
{
    if k > 0 {
        lemma_p10_pos((k - 1) as nat);
    }
}

/// `8^k <= 10^k <= 16^k`.
pub proof fn lemma_p10_bounds(k: nat)
    ensures
        pow2(3 * k) <= p10(k),
        p10(k) <= pow2(4 * k),
    decreases k,
{
    if k == 0 {
        lemma2_to64();
    } else {
        lemma_p10_bounds((k - 1) as nat);
        lemma_pow2_adds(3, 3 * (k - 1) as nat);
        lemma_pow2_adds(4, 4 * (k - 1) as nat);
        lemma2_to64();
        assert(3 * k == 3 + 3 * (k - 1) as nat);
        assert(4 * k == 4 + 4 * (k - 1) as nat);
    }
}

pub proof fn lemma_digits_bound(s: Seq<u8>)
    requires
        forall|i: int| 0 <= i < s.len() ==> is_digit(s[i]),
    ensures
        digits_value(s) < p10(s.len()),
    decreases s.len(),
{
    if s.len() > 0 {
        lemma_digits_bound(s.drop_last());
    }
}

pub proof fn lemma_digit_run_bounds(s: Seq<u8>, i: int)
    requires
        0 <= i <= s.len(),
    ensures
        i <= digit_run(s, i) <= s.len(),
        forall|j: int| i <= j < digit_run(s, i) ==> is_digit(s[j]),
        digit_run(s, i) < s.len() ==> !is_digit(s[digit_run(s, i)]),
    decreases s.len() - i,
{
    if i < s.len() && is_digit(s[i]) {
        lemma_digit_run_bounds(s, i + 1);
    }
}

/// Exec counterpart of [`digit_run`].
pub fn span_digits(src: &[u8], i: usize) -> (r: usize)
    requires
        i <= src@.len(),
    ensures
        r == digit_run(src@, i as int),
{
    let mut j = i;
    while j < src.len() && src[j] >= 48 && src[j] <= 57
        invariant
            i <= j <= src@.len(),
            digit_run(src@, i as int) == digit_run(src@, j as int),
        decreases src@.len() - j,
    {
        j = j + 1;
    }
    j
}


/// A digit accumulator: a machine word while the value fits, a bit
/// vector afterwards.
pub open spec fn acc_value(small: bool, acc: u128, big: Seq<bool>) -> nat {
    if small {
        acc as nat
    } else {
        bv(big)
    }
}

fn acc_digits(
    src: &[u8],
    from: usize,
    to: usize,
    small: bool,
    acc: u128,
    big: Vec<bool>,
    Ghost(pre): Ghost<Seq<u8>>,
) -> (r: (bool, u128, Vec<bool>))
    requires
        from <= to <= src@.len(),
        forall|j: int| from <= j < to ==> is_digit(src@[j]),
        acc_value(small, acc, big@) == digits_value(pre),
    ensures
        acc_value(r.0, r.1, r.2@) == digits_value(pre + src@.subrange(from as int, to as int)),
{
    let mut small = small;
    let mut acc = acc;
    let mut big = big;
    let mut i = from;
    proof {
        assert(pre + src@.subrange(from as int, from as int) =~= pre);
    }
    while i < to
        invariant
            from <= i <= to <= src@.len(),
            forall|j: int| from <= j < to ==> is_digit(src@[j]),
            acc_value(small, acc, big@) == digits_value(pre + src@.subrange(from as int, i as int)),
        decreases to - i,
    {
        let d: u8 = src[i] - 48;
        let ghost cur = pre + src@.subrange(from as int, i as int);
        let ghost nxt = pre + src@.subrange(from as int, i + 1);
        proof {
            assert(nxt.drop_last() =~= cur);
            assert(nxt.last() == src@[i as int]);
        }
        if small && acc <= 34028236692093846346337460743176821144 {
            acc = acc * 10 + d as u128;
        } else {
            let base = if small { from_u128(acc) } else { big };
            let times = mul10(&base);
            let dd = from_u128(d as u128);
            big = nat_add(&times, &dd);
            small = false;
        }
        i = i + 1;
    }
    (small, acc, big)
}


proof fn lemma_big_overflows(mant: nat, k: nat)
    requires
        mant >= 1,
        k >= 400,
    ensures
        scaled(INF_MAG as nat) * 1 <= mant * p10(k) * pow2(1074),
{
    lemma_scaled_inf();
    lemma_frac_unit();
    lemma_p10_bounds(k);
    lemma_pow2_adds(52, 2046);
    lemma_pow2_adds(1024, 1074);
    lemma_pow2_strictly_increases(1024, 3 * k);
    assert(mant * p10(k) >= pow2(1024)) by (nonlinear_arith)
        requires mant >= 1, p10(k) >= pow2(3 * k), pow2(3 * k) > pow2(1024);
    assert(mant * p10(k) * pow2(1074) >= pow2(1024) * pow2(1074)) by (nonlinear_arith)
        requires mant * p10(k) >= pow2(1024);
}

proof fn lemma_tiny_underflows(mant: nat, d: nat, k: nat)
    requires
        mant < p10(d),
        k >= 4 * d + 1500,
    ensures
        mant * pow2(1075) <= p10(k),
{
    lemma_p10_bounds(d);
    lemma_p10_bounds(k);
    lemma_pow2_adds(4 * d, 1075);
    if 4 * d + 1075 < 3 * k {
        lemma_pow2_strictly_increases(4 * d + 1075, 3 * k);
    }
    assert(mant * pow2(1075) <= pow2(4 * d) * pow2(1075)) by (nonlinear_arith)
        requires mant < p10(d), p10(d) <= pow2(4 * d);
}

/// Positions within the literal: integer end, dot, fraction end,
/// exponent presence and sign, exponent digits start, and end.
pub(crate) fn lit_layout(src: &[u8], start: usize) -> (r: (usize, bool, usize, bool, bool, usize, usize))
    requires
        starts_number(src@, start as int),
    ensures
        r.0 == lit_int_end(src@, start as int),
        r.1 == lit_has_dot(src@, start as int),
        r.2 == lit_frac_end(src@, start as int),
        r.3 == lit_has_exp(src@, start as int),
        r.4 == lit_exp_negative(src@, start as int),
        r.3 ==> r.5 == lit_exp_digits(src@, start as int),
        r.6 == lit_end(src@, start as int),
        start <= r.0 <= r.2 <= r.6 <= src@.len(),
        r.3 ==> r.2 < r.5 <= r.6,
        start < r.6,
        r.1 ==> r.0 < r.2,
        forall|x: int| start <= x < r.0 ==> is_digit(src@[x]),
        r.1 ==> forall|x: int| r.0 + 1 <= x < r.2 ==> is_digit(src@[x]),
        r.3 ==> forall|x: int| r.5 <= x < r.6 ==> is_digit(src@[x]),
{
    let ghost s = src@;
    let i1 = span_digits(src, start);
    proof {
        lemma_digit_run_bounds(s, start as int);
    }
    let has_dot = i1 < src.len() && src[i1] == 46;
    let i2 = if has_dot {
        proof {
            lemma_digit_run_bounds(s, i1 + 1);
        }
        span_digits(src, i1 + 1)
    } else {
        i1
    };
    let mut end = i2;
    let mut has_exp = false;
    let mut neg = false;
    let mut jd: usize = i2;
    if i2 < src.len() && (src[i2] == 101 || src[i2] == 69) {
        let mut j = i2 + 1;
        if j < src.len() && (src[j] == 43 || src[j] == 45) {
            j = j + 1;
        }
        if j < src.len() && src[j] >= 48 && src[j] <= 57 {
            has_exp = true;
            neg = src[i2 + 1] == 45;
            jd = j;
            proof {
                lemma_digit_run_bounds(s, j as int);
            }
            end = span_digits(src, j);
        }
    }
    proof {
        if !is_digit(s[start as int]) {
            assert(i1 == start);
            lemma_digit_run_bounds(s, start + 1);
        }
    }
    (i1, has_dot, i2, has_exp, neg, jd, end)
}

/// The exponent digits' value, saturating at `2^100`.
fn exp_value(src: &[u8], jd: usize, end: usize) -> (r: (u128, bool))
    requires
        jd <= end <= src@.len(),
        forall|x: int| jd <= x < end ==> is_digit(src@[x]),
    ensures
        !r.1 ==> r.0 == digits_value(src@.subrange(jd as int, end as int)),
        r.1 ==> r.0 == 0x10000000000000000000000000 && digits_value(src@.subrange(jd as int, end as int))
            >= 0x10000000000000000000000000,
        r.0 <= 0x10000000000000000000000000,
{
    let ghost s = src@;
    let mut e: u128 = 0;
    let mut sat = false;
    let mut k = jd;
    proof {
        assert(s.subrange(jd as int, jd as int) =~= Seq::<u8>::empty());
    }
    while k < end
        invariant
            jd <= k <= end <= s.len(),
            src@ == s,
            forall|x: int| jd <= x < end ==> is_digit(s[x]),
            !sat ==> e == digits_value(s.subrange(jd as int, k as int)),
            !sat ==> e < 0x10000000000000000000000000,
            sat ==> digits_value(s.subrange(jd as int, k as int)) >= 0x10000000000000000000000000,
            sat ==> e == 0x10000000000000000000000000,
        decreases end - k,
    {
        let ghost cur = s.subrange(jd as int, k as int);
        let ghost nxt = s.subrange(jd as int, k + 1);
        proof {
            assert(nxt.drop_last() =~= cur);
        }
        if !sat {
            e = e * 10 + (src[k] - 48) as u128;
            if e >= 0x10000000000000000000000000 {
                sat = true;
                e = 0x10000000000000000000000000;
            }
        }
        k = k + 1;
    }
    (e, sat)
}

/// `mant * 10^k` over one, or `mant` over `10^-k`.
fn scale_decimal(mant: Vec<bool>, k: i128) -> (r: (Vec<bool>, Vec<bool>))
    requires
        -0x1000000000000000000000000000000 <= k <= 0x1000000000000000000000000000000,
    ensures
        k >= 0 ==> bv(r.0@) == bv(mant@) * p10(k as nat) && bv(r.1@) == 1,
        k < 0 ==> bv(r.0@) == bv(mant@) && bv(r.1@) == p10((-k) as nat),
{
    let mut num = mant;
    let mut den = from_u128(1);
    let ghost m0 = bv(num@);
    assert(m0 * p10(0) == m0) by (nonlinear_arith) requires p10(0) == 1;
    if k >= 0 {
        let mut c: i128 = 0;
        while c < k
            invariant
                0 <= c <= k,
                bv(num@) == m0 * p10(c as nat),
                bv(den@) == 1,
            decreases k - c,
        {
            proof {
                assert(m0 * p10((c + 1) as nat) == m0 * p10(c as nat) * 10) by (nonlinear_arith)
                    requires p10((c + 1) as nat) == 10 * p10(c as nat);
            }
            num = mul10(&num);
            c = c + 1;
        }
    } else {
        let kn: u128 = (-k) as u128;
        let mut c: u128 = 0;
        while c < kn
            invariant
                c <= kn,
                bv(den@) == p10(c as nat),
                bv(num@) == m0,
            decreases kn - c,
        {
            den = mul10(&den);
            c = c + 1;
        }
    }
    (num, den)
}

/// The encoding of `mant * 10^k`, given the mantissa accumulator and the
/// shift as computed (`kk`), which equals the true shift `k` unless the
/// exponent saturated, in which case both lie in the same clamp region.
fn decimal_bits(small: bool, acc: u128, big: Vec<bool>, kk: i128, ndig: u128, sat: bool,
    Ghost(mant): Ghost<nat>, Ghost(k): Ghost<int>) -> (m: u64)
    requires
        acc_value(small, acc, big@) == mant,
        mant < p10(ndig as nat),
        -0x1000000000000000000000000000000 <= kk <= 0x1000000000000000000000000000000,
        ndig < 0x100000000000000000000000000,
        !sat ==> kk == k,
        sat ==> (kk >= 400 && k >= kk) || (kk < 0 && -kk >= 4 * ndig + 1500 && k <= kk),
    ensures
        m == rne(ratio_num(mant, k), ratio_den(k)),
        m <= INF_MAG,
{
    proof {
        lemma_p10_pos((-k) as nat);
    }
    let mant_zero = if small { acc == 0 } else { is_zero(&big) };
    if mant_zero {
        proof {
            assert(ratio_num(mant, k) == 0) by (nonlinear_arith) requires mant == 0;
            lemma_rne_zero(ratio_num(mant, k), ratio_den(k));
            lemma_rne_is(0, ratio_num(mant, k), ratio_den(k));
        }
        return 0;
    }
    if kk >= 400 {
        proof {
            lemma_big_overflows(mant, k as nat);
            lemma_rne_overflow(ratio_num(mant, k), 1);
            lemma_rne_is(INF_MAG as nat, ratio_num(mant, k), 1);
        }
        return INF_MAG;
    }
    if kk < 0 && -kk >= 4 * (ndig as i128) + 1500 {
        proof {
            lemma_tiny_underflows(mant, ndig as nat, (-k) as nat);
            lemma_rne_zero(ratio_num(mant, k), ratio_den(k));
            lemma_rne_is(0, ratio_num(mant, k), ratio_den(k));
        }
        return 0;
    }
    if kk == 0 && small && acc < 0x20000000000000 {
        let m = exact_int_bits(acc as u64);
        proof {
            assert(mant * p10(0) == mant) by (nonlinear_arith) requires p10(0) == 1;
            lemma_rne_is(m as nat, acc as nat, 1);
        }
        return m;
    }
    let mv = if small { from_u128(acc) } else { big };
    let (num, den) = scale_decimal(mv, kk);
    let m = round_ratio(&num, &den);
    proof {
        lemma_rne_is(m as nat, ratio_num(mant, k), ratio_den(k));
    }
    m
}

/// Scan the number literal at `start`: where it ends and its binary64
/// encoding (`INF_MAG` when the value overflows).
pub fn scan_decimal(src: &[u8], start: usize) -> (r: (usize, u64))
    requires
        starts_number(src@, start as int),
    ensures
        r.0 == lit_end(src@, start as int),
        r.1 == lit_bits(src@, start as int),
        r.1 <= INF_MAG,
        start < r.0 <= src@.len(),
{
    let ghost s = src@;
    let (i1, has_dot, i2, has_exp, neg, jd, end) = lit_layout(src, start);
    let ghost int_digits = s.subrange(start as int, i1 as int);
    let (small, acc, big) = acc_digits(src, start, i1, true, 0, Vec::new(), Ghost(Seq::empty()));
    proof {
        assert(Seq::<u8>::empty() + int_digits =~= int_digits);
    }
    let (small, acc, big) = if has_dot {
        acc_digits(src, i1 + 1, i2, small, acc, big, Ghost(int_digits))
    } else {
        (small, acc, big)
    };
    let ghost mant = lit_mant(s, start as int);
    assert(acc_value(small, acc, big@) == mant);
    let (e, sat) = if has_exp { exp_value(src, jd, end) } else { (0, false) };
    let frac_len: u128 = if has_dot { (i2 - i1 - 1) as u128 } else { 0 };
    let ndig: u128 = (i1 - start) as u128 + frac_len;
    let kk: i128 = (if neg { -(e as i128) } else { e as i128 }) - frac_len as i128;
    let ghost kreal = lit_shift(s, start as int);
    proof {
        let md = lit_mant_digits(s, start as int);
        assert(md.len() == ndig);
        assert forall|x: int| 0 <= x < md.len() implies is_digit(#[trigger] md[x]) by {}
        lemma_digits_bound(md);
    }
    let m = decimal_bits(small, acc, big, kk, ndig, sat, Ghost(mant), Ghost(kreal));
    (end, m)
}


/// A literal starting where one may start ends after its first byte.
pub proof fn lemma_lit_end(src: Seq<u8>, start: int)
    requires
        starts_number(src, start),
    ensures
        start < lit_end(src, start) <= src.len(),
{
    lemma_digit_run_bounds(src, start);
    let i1 = lit_int_end(src, start);
    if lit_has_dot(src, start) {
        lemma_digit_run_bounds(src, i1 + 1);
    }
    if !is_digit(src[start]) {
        assert(i1 == start);
        lemma_digit_run_bounds(src, start + 1);
    }
    if lit_has_exp(src, start) {
        lemma_digit_run_bounds(src, lit_exp_digits(src, start));
    }
}

} // verus!