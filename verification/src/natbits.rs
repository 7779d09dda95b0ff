//! Unbounded natural numbers as little-endian bit vectors: just enough
//! exact arithmetic to round rationals to binary64 and back without any
//! floating-point operation.
use vstd::prelude::*;
use vstd::arithmetic::power2::*;

verus! {

broadcast use lemma_pow2_pos;

/// The value of a little-endian bit sequence.
pub open spec fn bv(s: Seq<bool>) -> nat
    decreases s.len(),
{
    if s.len() == 0 {
        0
    } else {
        bv(s.drop_last()) + if s.last() {
            pow2((s.len() - 1) as nat)
        } else {
            0
        }
    }
}

pub open spec fn zeros(k: nat) -> Seq<bool> {
    Seq::new(k, |i: int| false)
}

pub proof fn lemma_bv_push(s: Seq<bool>, b: bool)
    ensures
        bv(s.push(b)) == bv(s) + if b { pow2(s.len()) } else { 0 },
{
    assert(s.push(b).drop_last() =~= s);
}

pub proof fn lemma_bv_take_succ(s: Seq<bool>, i: int)
    requires
        0 <= i < s.len(),
    ensures
        bv(s.take(i + 1)) == bv(s.take(i)) + if s[i] { pow2(i as nat) } else { 0 },
{
    assert(s.take(i + 1).drop_last() =~= s.take(i));
}

pub proof fn lemma_bv_bound(s: Seq<bool>)
    ensures
        bv(s) < pow2(s.len()),
    decreases s.len(),
{
    if s.len() > 0 {
        lemma_bv_bound(s.drop_last());
        lemma_pow2_unfold(s.len());
    } else {
        lemma2_to64();
    }
}

pub proof fn lemma_bv_zeros(k: nat)
    ensures
        bv(zeros(k)) == 0,
    decreases k,
{
    if k > 0 {
        assert(zeros(k).drop_last() =~= zeros((k - 1) as nat));
        lemma_bv_zeros((k - 1) as nat);
    }
}

pub proof fn lemma_bv_append_zeros(s: Seq<bool>, k: nat)
    ensures
        bv(s + zeros(k)) == bv(s),
    decreases k,
{
    if k > 0 {
        assert((s + zeros(k)).drop_last() =~= s + zeros((k - 1) as nat));
        lemma_bv_append_zeros(s, (k - 1) as nat);
    } else {
        assert(s + zeros(k) =~= s);
    }
}

proof fn lemma_scale_step(a: nat, last: nat, pk: nat, pl: nat)
    ensures
        (a + last * pl) * pk == a * pk + last * (pk * pl),
{
    assert((a + last * pl) * pk == a * pk + last * (pk * pl)) by (nonlinear_arith);
}

pub proof fn lemma_bv_prepend_zeros(s: Seq<bool>, k: nat)
    ensures
        bv(zeros(k) + s) == bv(s) * pow2(k),
    decreases s.len(),
{
    if s.len() == 0 {
        assert(zeros(k) + s =~= zeros(k));
        lemma_bv_zeros(k);
    } else {
        let t = zeros(k) + s;
        let l: nat = (s.len() - 1) as nat;
        assert(t.drop_last() =~= zeros(k) + s.drop_last());
        lemma_bv_prepend_zeros(s.drop_last(), k);
        lemma_pow2_adds(k, l);
        assert((t.len() - 1) as nat == k + l);
        assert(t.last() == s.last());
        let lb: nat = if s.last() { 1 } else { 0 };
        assert(bv(s) == bv(s.drop_last()) + lb * pow2(l));
        assert(bv(t) == bv(t.drop_last()) + lb * pow2(k + l));
        lemma_scale_step(bv(s.drop_last()), lb, pow2(k), pow2(l));
        assert(bv(t) == bv(s) * pow2(k));
    }
}

pub proof fn lemma_bv_all_false(s: Seq<bool>)
    requires
        forall|i: int| 0 <= i < s.len() ==> !s[i],
    ensures
        bv(s) == 0,
    decreases s.len(),
{
    if s.len() > 0 {
        lemma_bv_all_false(s.drop_last());
    }
}

pub proof fn lemma_bv_some_true(s: Seq<bool>, j: int)
    requires
        0 <= j < s.len(),
        s[j],
    ensures
        bv(s) > 0,
    decreases s.len(),
{
    if j < s.len() - 1 {
        lemma_bv_some_true(s.drop_last(), j);
    }
}

/// `a` with `k` zero bits appended at the top (same value).
pub fn pad(a: &Vec<bool>, n: usize) -> (r: Vec<bool>)
    ensures
        r@.len() == if a@.len() >= n { a@.len() } else { n as nat },
        bv(r@) == bv(a@),
{
    let mut r = a.clone();
    let ghost a0 = r@;
    let ghost k0 = 0nat;
    proof {
        assert(a0 + zeros(0) =~= a0);
    }
    while r.len() < n
        invariant
            r@.len() >= a0.len(),
            a0.len() < n ==> r@.len() <= n,
            a0.len() >= n ==> r@.len() == a0.len(),
            r@ == a0 + zeros((r@.len() - a0.len()) as nat),
        decreases n - r.len(),
    {
        proof {
            assert(r@.push(false) =~= a0 + zeros((r@.len() + 1 - a0.len()) as nat));
        }
        r.push(false);
    }
    proof {
        lemma_bv_append_zeros(a0, (r@.len() - a0.len()) as nat);
        assert(a0 == a@);
    }
    r
}

proof fn lemma_halve(p: nat, y: nat)
    ensures
        p * y == (if y % 2 == 1 { p } else { 0 }) + (2 * p) * (y / 2),
{
    assert(p * y == p * (y % 2) + (2 * p) * (y / 2)) by (nonlinear_arith);
    assert(y % 2 == 0 || y % 2 == 1);
    if y % 2 == 1 {
        assert(p * (y % 2) == p) by (nonlinear_arith) requires y % 2 == 1;
    } else {
        assert(p * (y % 2) == 0) by (nonlinear_arith) requires y % 2 == 0;
    }
}

/// Exact natural number from a machine word.
pub fn from_u128(x: u128) -> (r: Vec<bool>)
    ensures
        bv(r@) == x,
        r@.len() == 128,
{
    let mut r: Vec<bool> = Vec::new();
    let mut y: u128 = x;
    proof {
        lemma2_to64();
        lemma_pow2_adds(64, 64);
        assert(bv(r@) == 0);
    }
    let mut i: usize = 0;
    while i < 128
        invariant
            i <= 128,
            r@.len() == i,
            bv(r@) + pow2(i as nat) * y == x,
            y < pow2((128 - i) as nat),
        decreases 128 - i,
    {
        proof {
            lemma_bv_push(r@, y % 2 == 1);
            lemma_pow2_unfold((i + 1) as nat);
            lemma_pow2_unfold((128 - i) as nat);
            lemma_halve(pow2(i as nat), y as nat);
            assert(y / 2 < pow2((128 - i - 1) as nat)) by (nonlinear_arith)
                requires y < pow2((128 - i) as nat), pow2((128 - i) as nat) == 2 * pow2((128 - i - 1) as nat);
        }
        r.push(y % 2 == 1);
        y = y / 2;
        i = i + 1;
    }
    proof {
        assert(pow2(0) == 1) by { lemma2_to64(); }
    }
    r
}


/// Difference over the common padded width `n`: the borrow out of the top
/// bit is set exactly when `b > a`.
fn sub_bits(a: &Vec<bool>, b: &Vec<bool>) -> (r: (Vec<bool>, bool))
    ensures
        bv(r.0@) - (if r.1 { pow2(r.0@.len()) } else { 0 }) == bv(a@) - bv(b@),
        bv(r.0@) < pow2(r.0@.len()),
{
    let n: usize = if a.len() >= b.len() { a.len() } else { b.len() };
    let pa = pad(a, n);
    let pb = pad(b, n);
    let mut r: Vec<bool> = Vec::new();
    let mut borrow = false;
    let mut i: usize = 0;
    proof {
        assert(pa@.take(0) =~= Seq::<bool>::empty());
        assert(pb@.take(0) =~= Seq::<bool>::empty());
        lemma2_to64();
    }
    while i < n
        invariant
            i <= n,
            pa@.len() == n,
            pb@.len() == n,
            r@.len() == i,
            bv(r@) - (if borrow { pow2(i as nat) } else { 0 }) == bv(pa@.take(i as int)) - bv(
                pb@.take(i as int),
            ),
        decreases n - i,
    {
        let x = pa[i];
        let y = pb[i];
        let d: i8 = (if x { 1i8 } else { 0i8 }) - (if y { 1i8 } else { 0i8 }) - (if borrow { 1i8 } else { 0i8 });
        let bit = d == 1 || d == -1;
        let nb = d < 0;
        proof {
            lemma_bv_push(r@, bit);
            lemma_bv_take_succ(pa@, i as int);
            lemma_bv_take_succ(pb@, i as int);
            lemma_pow2_unfold((i + 1) as nat);
        }
        r.push(bit);
        borrow = nb;
        i = i + 1;
    }
    proof {
        assert(pa@.take(n as int) =~= pa@);
        assert(pb@.take(n as int) =~= pb@);
        lemma_bv_bound(r@);
    }
    (r, borrow)
}

/// `a - b`, for `a >= b`.
pub fn nat_sub(a: &Vec<bool>, b: &Vec<bool>) -> (r: Vec<bool>)
    requires
        bv(a@) >= bv(b@),
    ensures
        bv(r@) == bv(a@) - bv(b@),
{
    let (d, borrow) = sub_bits(a, b);
    d
}

/// True exactly when the value is zero.
pub fn is_zero(a: &Vec<bool>) -> (r: bool)
    ensures
        r == (bv(a@) == 0),
{
    let mut i: usize = 0;
    while i < a.len()
        invariant
            i <= a@.len(),
            forall|j: int| 0 <= j < i ==> !a@[j],
        decreases a@.len() - i,
    {
        if a[i] {
            proof {
                lemma_bv_some_true(a@, i as int);
            }
            return false;
        }
        i = i + 1;
    }
    proof {
        lemma_bv_all_false(a@);
    }
    true
}

/// Three-way comparison of values: -1, 0 or 1.
pub fn nat_order(a: &Vec<bool>, b: &Vec<bool>) -> (r: i8)
    ensures
        r == -1 <==> bv(a@) < bv(b@),
        r == 0 <==> bv(a@) == bv(b@),
        r == 1 <==> bv(a@) > bv(b@),
{
    let (d, borrow) = sub_bits(a, b);
    if borrow {
        -1
    } else if is_zero(&d) {
        0
    } else {
        1
    }
}

/// `a + b`.
pub fn nat_add(a: &Vec<bool>, b: &Vec<bool>) -> (r: Vec<bool>)
    ensures
        bv(r@) == bv(a@) + bv(b@),
{
    let n: usize = if a.len() >= b.len() { a.len() } else { b.len() };
    let pa = pad(a, n);
    let pb = pad(b, n);
    let mut r: Vec<bool> = Vec::new();
    let mut carry = false;
    let mut i: usize = 0;
    proof {
        assert(pa@.take(0) =~= Seq::<bool>::empty());
        assert(pb@.take(0) =~= Seq::<bool>::empty());
        lemma2_to64();
    }
    while i < n
        invariant
            i <= n,
            pa@.len() == n,
            pb@.len() == n,
            r@.len() == i,
            bv(r@) + (if carry { pow2(i as nat) } else { 0 }) == bv(pa@.take(i as int)) + bv(
                pb@.take(i as int),
            ),
        decreases n - i,
    {
        let x = pa[i];
        let y = pb[i];
        let d: u8 = (if x { 1u8 } else { 0u8 }) + (if y { 1u8 } else { 0u8 }) + (if carry { 1u8 } else { 0u8 });
        let bit = d == 1 || d == 3;
        let nc = d >= 2;
        proof {
            lemma_bv_push(r@, bit);
            lemma_bv_take_succ(pa@, i as int);
            lemma_bv_take_succ(pb@, i as int);
            lemma_pow2_unfold((i + 1) as nat);
        }
        r.push(bit);
        carry = nc;
        i = i + 1;
    }
    proof {
        assert(pa@.take(n as int) =~= pa@);
        assert(pb@.take(n as int) =~= pb@);
        lemma_bv_push(r@, carry);
    }
    r.push(carry);
    r
}

/// `a * 2^k`.
pub fn nat_shl(a: &Vec<bool>, k: usize) -> (r: Vec<bool>)
    ensures
        bv(r@) == bv(a@) * pow2(k as nat),
        r@.len() == a@.len() + k,
{
    let mut r: Vec<bool> = Vec::new();
    let mut i: usize = 0;
    while i < k
        invariant
            i <= k,
            r@ =~= zeros(i as nat),
        decreases k - i,
    {
        r.push(false);
        i = i + 1;
    }
    let mut j: usize = 0;
    while j < a.len()
        invariant
            j <= a@.len(),
            r@ =~= zeros(k as nat) + a@.take(j as int),
        decreases a@.len() - j,
    {
        r.push(a[j]);
        j = j + 1;
    }
    proof {
        assert(a@.take(a@.len() as int) =~= a@);
        lemma_bv_prepend_zeros(a@, k as nat);
    }
    r
}

/// `a * 10`.
pub fn mul10(a: &Vec<bool>) -> (r: Vec<bool>)
    ensures
        bv(r@) == bv(a@) * 10,
{
    let x = nat_shl(a, 3);
    let y = nat_shl(a, 1);
    proof {
        lemma2_to64();
    }
    nat_add(&x, &y)
}


/// `2^k` as a machine word.
pub fn pow2_u64(k: usize) -> (r: u64)
    requires
        k <= 63,
    ensures
        r == pow2(k as nat),
{
    let mut r: u64 = 1;
    let mut i: usize = 0;
    proof {
        lemma2_to64();
        lemma2_to64_rest();
    }
    while i < k
        invariant
            i <= k <= 63,
            r == pow2(i as nat),
            pow2(64) == 0x10000000000000000,
        decreases k - i,
    {
        proof {
            lemma_pow2_unfold((i + 1) as nat);
            lemma_pow2_strictly_increases((i + 1) as nat, 64);
            assert(r * 2 == pow2((i + 1) as nat));
            assert(pow2((i + 1) as nat) < 0x10000000000000000);
        }
        r = r * 2;
        i = i + 1;
    }
    r
}

/// Quotient and remainder of `num / den`, for quotients below `2^k`.
pub fn div_small(num: &Vec<bool>, den: &Vec<bool>, k: usize) -> (r: (u64, Vec<bool>))
    requires
        bv(den@) > 0,
        k <= 63,
        bv(num@) < bv(den@) * pow2(k as nat),
    ensures
        r.0 as nat * bv(den@) + bv(r.1@) == bv(num@),
        bv(r.1@) < bv(den@),
        (r.0 as nat) < pow2(k as nat),
{
    let mut q: u64 = 0;
    let mut rem = nat_shl(num, 0);
    let mut i: usize = k;
    let mut p: u64 = pow2_u64(k);
    proof {
        lemma2_to64();
        lemma_pow2_strictly_increases(k as nat, 64);
    }
    assert(pow2(64) == 0x10000000000000000);
    while i > 0
        invariant
            bv(den@) > 0,
            i <= k <= 63,
            p == pow2(i as nat),
            q as nat + p as nat <= pow2(k as nat),
            pow2(k as nat) < 0x10000000000000000,
            q as nat * bv(den@) + bv(rem@) == bv(num@),
            bv(rem@) < bv(den@) * p,
        decreases i,
    {
        i = i - 1;
        proof {
            lemma_pow2_unfold((i + 1) as nat);
        }
        let half: u64 = p / 2;
        let t = nat_shl(den, i);
        assert(half == pow2(i as nat));
        assert(bv(den@) * p == 2 * (bv(den@) * half)) by (nonlinear_arith)
            requires p == 2 * half;
        if nat_order(&rem, &t) >= 0 {
            rem = nat_sub(&rem, &t);
            proof {
                assert((q as nat + half as nat) * bv(den@) == q as nat * bv(den@) + bv(den@) * half as nat) by (nonlinear_arith);
            }
            assert(q as nat + half as nat <= pow2(k as nat));
            assert(pow2(k as nat) < 0x10000000000000000);
            q = q + half;
        } else {
        }
        p = half;
    }
    proof {
        assert(pow2(0) == 1);
        assert(bv(den@) * p == bv(den@)) by (nonlinear_arith) requires p == 1;
    }
    (q, rem)
}


/// The same value without high zero bits: afterwards the length is the
/// bit length.
pub fn normalize(a: &Vec<bool>) -> (r: Vec<bool>)
    ensures
        bv(r@) == bv(a@),
        r@.len() == 0 || r@.last(),
        r@.len() <= a@.len(),
{
    let mut r = nat_shl(a, 0);
    proof {
        lemma2_to64();
    }
    let ghost n0 = r@.len();
    while r.len() > 0 && !r[r.len() - 1]
        invariant
            bv(r@) == bv(a@),
            r@.len() <= a@.len(),
        decreases r@.len(),
    {
        r.pop();
    }
    r
}

/// Bit length bounds of a normalized vector.
pub proof fn lemma_bitlen(s: Seq<bool>)
    requires
        s.len() > 0,
        s.last(),
    ensures
        pow2((s.len() - 1) as nat) <= bv(s),
        bv(s) < pow2(s.len()),
{
    lemma_bv_bound(s);
}
/// A bit placed below a sequence doubles it.
pub proof fn lemma_bv_prepend(b: bool, s: Seq<bool>)
    ensures
        bv(seq![b] + s) == (if b { 1nat } else { 0nat }) + 2 * bv(s),
    decreases s.len(),
{
    let t = seq![b] + s;
    let bb: nat = if b { 1 } else { 0 };
    if s.len() == 0 {
        assert(t.drop_last() =~= Seq::<bool>::empty());
        assert(pow2(0) == 1) by { lemma2_to64(); }
        assert(t.last() == b);
        assert(bv(t) == bv(t.drop_last()) + bb * pow2(0));
    } else {
        let d = s.drop_last();
        assert(t.drop_last() =~= seq![b] + d);
        lemma_bv_prepend(b, d);
        lemma_pow2_unfold(s.len());
        assert(t.last() == s.last());
        assert((t.len() - 1) as nat == s.len());
        let lb: nat = if s.last() { 1 } else { 0 };
        let p = pow2((s.len() - 1) as nat);
        assert(bv(s) == bv(d) + lb * p);
        assert(bv(t) == bv(t.drop_last()) + lb * pow2(s.len()));
        assert(bv(t.drop_last()) == bb + 2 * bv(d));
        assert(lb * pow2(s.len()) == 2 * (lb * p)) by (nonlinear_arith)
            requires pow2(s.len()) == 2 * p;
    }
}

/// Splitting a sequence at `k`: low part plus `2^k` times the high part.
pub proof fn lemma_bv_split(s: Seq<bool>, k: int)
    requires
        0 <= k <= s.len(),
    ensures
        bv(s) == bv(s.take(k)) + pow2(k as nat) * bv(s.skip(k)),
        bv(s.take(k)) < pow2(k as nat),
    decreases s.len(),
{
    lemma_bv_bound(s.take(k));
    if k == s.len() {
        assert(s.take(k) =~= s);
        assert(s.skip(k) =~= Seq::<bool>::empty());
        assert(bv(s.skip(k)) == 0);
        assert(pow2(k as nat) * 0 == 0);
    } else {
        let d = s.drop_last();
        lemma_bv_split(d, k);
        assert(d.take(k) =~= s.take(k));
        assert(s.skip(k).drop_last() =~= d.skip(k));
        assert(s.skip(k).last() == s.last());
        let l: nat = (s.len() - 1) as nat;
        let j: nat = (s.skip(k).len() - 1) as nat;
        assert(l == k + j);
        lemma_pow2_adds(k as nat, j);
        let lb: nat = if s.last() { 1 } else { 0 };
        let pk = pow2(k as nat);
        assert(bv(s) == bv(d) + lb * pow2(l));
        assert(bv(s.skip(k)) == bv(d.skip(k)) + lb * pow2(j));
        assert(bv(d) == bv(s.take(k)) + pk * bv(d.skip(k)));
        assert(pk * (bv(d.skip(k)) + lb * pow2(j)) == pk * bv(d.skip(k)) + lb * (pk * pow2(j))) by (nonlinear_arith);
        assert(pow2(l) == pk * pow2(j));
    }
}

/// `a / 2^k`, rounded down.
pub fn nat_shr(a: &Vec<bool>, k: usize) -> (r: Vec<bool>)
    ensures
        bv(r@) == bv(a@) / pow2(k as nat),
{
    let mut r: Vec<bool> = Vec::new();
    if k >= a.len() {
        proof {
            lemma_bv_bound(a@);
            if k > a@.len() {
                lemma_pow2_strictly_increases(a@.len(), k as nat);
            }
            vstd::arithmetic::div_mod::lemma_basic_div(bv(a@) as int, pow2(k as nat) as int);
        }
        return r;
    }
    let mut j: usize = k;
    while j < a.len()
        invariant
            k <= j <= a@.len(),
            r@ =~= a@.subrange(k as int, j as int),
        decreases a@.len() - j,
    {
        r.push(a[j]);
        j = j + 1;
    }
    proof {
        assert(r@ =~= a@.skip(k as int));
        lemma_bv_split(a@, k as int);
        let lo = bv(a@.take(k as int));
        let hi = bv(a@.skip(k as int));
        assert(bv(a@) == hi * pow2(k as nat) + lo) by (nonlinear_arith)
            requires bv(a@) == lo + pow2(k as nat) * hi;
        vstd::arithmetic::div_mod::lemma_fundamental_div_mod_converse(
            bv(a@) as int,
            pow2(k as nat) as int,
            hi as int,
            lo as int,
        );
    }
    r
}

/// `a / 10` and `a % 10`.
pub fn div10(a: &Vec<bool>) -> (r: (Vec<bool>, u64))
    ensures
        bv(r.0@) * 10 + r.1 == bv(a@),
        r.1 < 10,
{
    let mut q: Vec<bool> = Vec::new();
    let mut rem: u64 = 0;
    let mut j: usize = a.len();
    proof {
        assert(a@.skip(a@.len() as int).len() == 0);
    }
    while j > 0
        invariant
            j <= a@.len(),
            rem < 10,
            bv(q@) * 10 + rem == bv(a@.skip(j as int)),
        decreases j,
    {
        let ghost q0 = q@;
        let ghost r0 = rem;
        j = j - 1;
        let b = a[j];
        let r2: u64 = 2 * rem + if b { 1 } else { 0 };
        let bit = r2 >= 10;
        rem = if bit { r2 - 10 } else { r2 };
        q.insert(0, bit);
        proof {
            assert(a@.skip(j as int) =~= seq![b] + a@.skip(j + 1));
            assert(q@ =~= seq![bit] + q0);
            lemma_bv_prepend(b, a@.skip(j + 1));
            lemma_bv_prepend(bit, q0);
        }
    }
    proof {
        assert(a@.skip(0) =~= a@);
    }
    (q, rem)
}

} // verus!
