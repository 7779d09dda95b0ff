//! White space between tokens does not matter: the lexer reads a source
//! with white space inserted at a token boundary as the same tokens, so
//! it compiles to the same bytecode.
use vstd::prelude::*;
use crate::decimal::{
    digit_run, digits_value, is_digit, lit_bits, lit_end, lit_exp_digits, lit_frac_end, lit_has_dot, lit_has_exp,
    lit_int_end, lit_mant_digits, lit_shift, starts_number,
};
use crate::lex::{is_lower, is_ws, letter_run, lex_all, lex_at, lemma_lex_all_unfold, ws_end, Lexed, Tok};
use crate::tokens::same_tokens;

verus! {

proof fn lemma_digit_shift(s: Seq<u8>, a: int, j: int)
    requires
        0 <= a <= s.len(),
        0 <= j <= s.len() - a,
    ensures
        digit_run(s, a + j) == a + digit_run(s.subrange(a, s.len() as int), j),
    decreases s.len() - a - j,
{
    let t = s.subrange(a, s.len() as int);
    if j < t.len() {
        assert(s[a + j] == t[j]);
        if is_digit(t[j]) {
            lemma_digit_shift(s, a, j + 1);
        }
    }
}

proof fn lemma_letter_shift(s: Seq<u8>, a: int, j: int)
    requires
        0 <= a <= s.len(),
        0 <= j <= s.len() - a,
    ensures
        letter_run(s, a + j) == a + letter_run(s.subrange(a, s.len() as int), j),
    decreases s.len() - a - j,
{
    let t = s.subrange(a, s.len() as int);
    if j < t.len() {
        assert(s[a + j] == t[j]);
        if is_lower(t[j]) {
            lemma_letter_shift(s, a, j + 1);
        }
    }
}

proof fn lemma_ws_shift(s: Seq<u8>, a: int, j: int)
    requires
        0 <= a <= s.len(),
        0 <= j <= s.len() - a,
    ensures
        ws_end(s, a + j) == a + ws_end(s.subrange(a, s.len() as int), j),
    decreases s.len() - a - j,
{
    let t = s.subrange(a, s.len() as int);
    if j < t.len() {
        assert(s[a + j] == t[j]);
        if is_ws(t[j]) {
            lemma_ws_shift(s, a, j + 1);
        }
    }
}

/// A number literal reads the same from its suffix.
proof fn lemma_lit_shift(s: Seq<u8>, a: int, j: int)
    requires
        0 <= a <= s.len(),
        0 <= j < s.len() - a,
    ensures
        starts_number(s, a + j) == starts_number(s.subrange(a, s.len() as int), j),
        starts_number(s, a + j) ==> lit_end(s, a + j) == a + lit_end(s.subrange(a, s.len() as int), j),
        starts_number(s, a + j) ==> lit_bits(s, a + j) == lit_bits(s.subrange(a, s.len() as int), j),
{
    let t = s.subrange(a, s.len() as int);
    assert(s[a + j] == t[j]);
    if j + 1 < t.len() {
        assert(s[a + j + 1] == t[j + 1]);
    }
    if starts_number(t, j) {
        crate::decimal::lemma_lit_end(t, j);
        lemma_digit_shift(s, a, j);
        let i1 = lit_int_end(t, j);
        crate::decimal::lemma_digit_run_bounds(t, j);
        if i1 < t.len() {
            assert(s[a + i1] == t[i1]);
        }
        if lit_has_dot(t, j) {
            lemma_digit_shift(s, a, i1 + 1);
            crate::decimal::lemma_digit_run_bounds(t, i1 + 1);
        }
        let i2 = lit_frac_end(t, j);
        assert(lit_frac_end(s, a + j) == a + i2);
        if i2 < t.len() {
            assert(s[a + i2] == t[i2]);
        }
        if i2 + 1 < t.len() {
            assert(s[a + i2 + 1] == t[i2 + 1]);
        }
        let jj = lit_exp_digits(t, j);
        assert(lit_exp_digits(s, a + j) == a + jj);
        if jj < t.len() {
            assert(s[a + jj] == t[jj]);
        }
        assert(lit_has_exp(s, a + j) == lit_has_exp(t, j));
        if lit_has_exp(t, j) {
            lemma_digit_shift(s, a, jj);
            crate::decimal::lemma_digit_run_bounds(t, jj);
            let e = lit_end(t, j);
            assert forall|k: int| 0 <= k < e - jj implies #[trigger] s.subrange(a + jj, a + e)[k] == t.subrange(
                jj,
                e,
            )[k] by {
                assert(s[a + jj + k] == t[jj + k]);
            }
            assert(s.subrange(a + jj, a + e) =~= t.subrange(jj, e));
        }
        assert(lit_end(s, a + j) == a + lit_end(t, j));
        assert(s.subrange(a + j, a + i1) =~= t.subrange(j, i1));
        if lit_has_dot(t, j) {
            assert(i1 + 1 <= i2 <= t.len());
            assert forall|k: int| 0 <= k < i2 - i1 - 1 implies #[trigger] s.subrange(a + i1 + 1, a + i2)[k]
                == t.subrange(i1 + 1, i2)[k] by {
                assert(s[a + i1 + 1 + k] == t[i1 + 1 + k]);
            }
            assert(s.subrange(a + i1 + 1, a + i2) =~= t.subrange(i1 + 1, i2));
        }
        assert(lit_mant_digits(s, a + j) =~= lit_mant_digits(t, j));
        assert(lit_shift(s, a + j) == lit_shift(t, j));
    }
}

/// The lexer reads the same token from a suffix, shifted.
proof fn lemma_lex_at_shift(s: Seq<u8>, a: int, j: int)
    requires
        0 <= a <= s.len(),
        0 <= j <= s.len() - a,
    ensures
        match lex_at(s.subrange(a, s.len() as int), j) {
            Lexed::End => lex_at(s, a + j) is End,
            Lexed::Fail(_) => lex_at(s, a + j) is Fail,
            Lexed::Token { start, tok, end } => lex_at(s, a + j) == (Lexed::Token {
                start: start + a,
                tok,
                end: end + a,
            }),
        },
{
    let t = s.subrange(a, s.len() as int);
    lemma_ws_shift(s, a, j);
    crate::lex::lemma_ws_end(t, j);
    let p = ws_end(t, j);
    if p < t.len() {
        assert(s[a + p] == t[p]);
        lemma_lit_shift(s, a, p);
        if !starts_number(t, p) && is_lower(t[p]) {
            lemma_letter_shift(s, a, p);
            crate::lex::lemma_letter_run(t, p);
            assert(s.subrange(a + p, a + letter_run(t, p)) =~= t.subrange(p, letter_run(t, p)));
        }
    }
}

/// Equal tokens, one put in front of each of two equal token sequences.
proof fn lemma_same_cons(x: (int, Tok), y: (int, Tok), u: Seq<(int, Tok)>, v: Seq<(int, Tok)>)
    requires
        x.1 == y.1,
        same_tokens(u, v),
    ensures
        same_tokens(seq![x] + u, seq![y] + v),
{
    assert forall|k: int| 0 <= k < (seq![x] + u).len() implies #[trigger] (seq![x] + u)[k].1 == (seq![y] + v)[k].1 by {
        if k > 0 {
            assert((seq![x] + u)[k] == u[k - 1]);
            assert((seq![y] + v)[k] == v[k - 1]);
        }
    }
}

/// Lexing from a suffix gives the same tokens.
proof fn lemma_lex_all_shift(s: Seq<u8>, a: int, j: int)
    requires
        0 <= a <= s.len(),
        0 <= j <= s.len() - a,
    ensures
        same_tokens(lex_all(s, a + j).0, lex_all(s.subrange(a, s.len() as int), j).0),
        lex_all(s, a + j).1 is None <==> lex_all(s.subrange(a, s.len() as int), j).1 is None,
    decreases s.len() - a - j,
{
    let t = s.subrange(a, s.len() as int);
    lemma_lex_at_shift(s, a, j);
    lemma_lex_all_unfold(t, j);
    lemma_lex_all_unfold(s, a + j);
    if let Lexed::Token { start, tok, end } = lex_at(t, j) {
        lemma_lex_all_shift(s, a, end);
        lemma_same_cons((start + a, tok), (start, tok), lex_all(s, a + end).0, lex_all(t, end).0);
    }
}

/// Two sources that agree before `k`, the second with white space at `k`.
pub open spec fn agree_before(s1: Seq<u8>, s2: Seq<u8>, k: int) -> bool {
    &&& 0 <= k <= s1.len()
    &&& k < s2.len()
    &&& is_ws(s2[k])
    &&& forall|x: int| 0 <= x < k ==> #[trigger] s1[x] == s2[x]
}

proof fn lemma_digit_agree(s1: Seq<u8>, s2: Seq<u8>, k: int, i: int)
    requires
        agree_before(s1, s2, k),
        0 <= i <= k,
        digit_run(s1, i) <= k,
    ensures
        digit_run(s2, i) == digit_run(s1, i),
    decreases k - i,
{
    if i < k {
        assert(s1[i] == s2[i]);
        if is_digit(s1[i]) {
            lemma_digit_agree(s1, s2, k, i + 1);
        }
    } else {
        crate::decimal::lemma_digit_run_bounds(s1, k);
        if k < s1.len() && is_digit(s1[k]) {
            crate::decimal::lemma_digit_run_bounds(s1, k + 1);
        }
    }
}

proof fn lemma_letter_agree(s1: Seq<u8>, s2: Seq<u8>, k: int, i: int)
    requires
        agree_before(s1, s2, k),
        0 <= i <= k,
        letter_run(s1, i) <= k,
    ensures
        letter_run(s2, i) == letter_run(s1, i),
    decreases k - i,
{
    if i < k {
        assert(s1[i] == s2[i]);
        if is_lower(s1[i]) {
            lemma_letter_agree(s1, s2, k, i + 1);
        }
    } else {
        crate::lex::lemma_letter_run(s1, k);
        if k < s1.len() && is_lower(s1[k]) {
            crate::lex::lemma_letter_run(s1, k + 1);
        }
    }
}

proof fn lemma_ws_agree(s1: Seq<u8>, s2: Seq<u8>, k: int, i: int)
    requires
        agree_before(s1, s2, k),
        0 <= i <= k,
        ws_end(s1, i) < k,
    ensures
        ws_end(s2, i) == ws_end(s1, i),
    decreases k - i,
{
    crate::lex::lemma_ws_end(s1, i);
    if i < s1.len() && is_ws(s1[i]) {
        crate::lex::lemma_ws_end(s1, i + 1);
    }
    assert(i < k);
    assert(s1[i] == s2[i]);
    if is_ws(s1[i]) {
        lemma_ws_agree(s1, s2, k, i + 1);
    }
}

/// Equal runs of bytes before `k`.
proof fn lemma_sub_agree(s1: Seq<u8>, s2: Seq<u8>, k: int, x: int, y: int)
    requires
        agree_before(s1, s2, k),
        0 <= x <= y <= k,
    ensures
        s1.subrange(x, y) == s2.subrange(x, y),
{
    assert forall|q: int| 0 <= q < y - x implies #[trigger] s1.subrange(x, y)[q] == s2.subrange(x, y)[q] by {
        assert(s1[x + q] == s2[x + q]);
    }
    assert(s1.subrange(x, y) =~= s2.subrange(x, y));
}

/// A number literal that ends by `k` reads the same when white space
/// follows at `k`.
proof fn lemma_lit_agree(s1: Seq<u8>, s2: Seq<u8>, k: int, p: int)
    requires
        agree_before(s1, s2, k),
        0 <= p < k,
        starts_number(s1, p),
        lit_end(s1, p) <= k,
    ensures
        starts_number(s2, p),
        lit_end(s2, p) == lit_end(s1, p),
        lit_bits(s2, p) == lit_bits(s1, p),
{
    crate::decimal::lemma_lit_end(s1, p);
    assert(s1[p] == s2[p]);
    if p + 1 < k {
        assert(s1[p + 1] == s2[p + 1]);
    }
    crate::decimal::lemma_digit_run_bounds(s1, p);
    let i1 = lit_int_end(s1, p);
    let i2 = lit_frac_end(s1, p);
    let jj = lit_exp_digits(s1, p);
    if lit_has_dot(s1, p) {
        crate::decimal::lemma_digit_run_bounds(s1, i1 + 1);
    }
    if lit_has_exp(s1, p) {
        crate::decimal::lemma_digit_run_bounds(s1, jj);
    }
    assert(i1 <= i2 <= lit_end(s1, p));
    lemma_digit_agree(s1, s2, k, p);
    if i1 < k {
        assert(s1[i1] == s2[i1]);
    }
    if lit_has_dot(s1, p) {
        lemma_digit_agree(s1, s2, k, i1 + 1);
    }
    assert(lit_has_dot(s2, p) == lit_has_dot(s1, p));
    assert(lit_frac_end(s2, p) == i2);
    if i2 < k {
        assert(s1[i2] == s2[i2]);
    }
    if i2 + 1 < k {
        assert(s1[i2 + 1] == s2[i2 + 1]);
    }
    if lit_has_exp(s1, p) {
        assert(s1[jj] == s2[jj]);
        assert(lit_exp_digits(s2, p) == jj);
        lemma_digit_agree(s1, s2, k, jj);
        lemma_sub_agree(s1, s2, k, jj, lit_end(s1, p));
    } else {
        let jj2 = lit_exp_digits(s2, p);
        if jj2 < k {
            assert(s1[jj2] == s2[jj2]);
        }
        assert(!lit_has_exp(s2, p));
    }
    assert(lit_end(s2, p) == lit_end(s1, p));
    lemma_sub_agree(s1, s2, k, p, i1);
    if lit_has_dot(s1, p) {
        lemma_sub_agree(s1, s2, k, i1 + 1, i2);
    }
    assert(lit_mant_digits(s2, p) == lit_mant_digits(s1, p));
    assert(lit_shift(s2, p) == lit_shift(s1, p));
}

/// A token that ends by `k` reads the same when white space follows at
/// `k`.
proof fn lemma_lex_at_agree(s1: Seq<u8>, s2: Seq<u8>, k: int, i: int)
    requires
        agree_before(s1, s2, k),
        0 <= i < k,
        lex_at(s1, i) matches Lexed::Token { start, tok, end } && i < end <= k,
    ensures
        lex_at(s2, i) == lex_at(s1, i),
{
    crate::lex::lemma_lex_progress(s1, i);
    crate::lex::lemma_ws_end(s1, i);
    let p = ws_end(s1, i);
    lemma_ws_agree(s1, s2, k, i);
    assert(s1[p] == s2[p]);
    if p + 1 < k {
        assert(s1[p + 1] == s2[p + 1]);
    }
    if starts_number(s1, p) {
        lemma_lit_agree(s1, s2, k, p);
    } else {
        assert(!starts_number(s2, p));
        if is_lower(s1[p]) {
            crate::lex::lemma_letter_run(s1, p);
            lemma_letter_agree(s1, s2, k, p);
            lemma_sub_agree(s1, s2, k, p, letter_run(s1, p));
        }
    }
}

/// Where the tokens of `src`, read from `i`, end.
pub open spec fn token_ends(src: Seq<u8>, i: int) -> Seq<int>
    decreases src.len() - i,
{
    if i < 0 || i > src.len() {
        Seq::empty()
    } else {
        match lex_at(src, i) {
            Lexed::Token { start, tok, end } => if i < end <= src.len() {
                seq![end] + token_ends(src, end)
            } else {
                Seq::empty()
            },
            _ => Seq::empty(),
        }
    }
}

/// `k` lies between two tokens of `src`, or before the first or after
/// the last: only white space separates it from the start or from the
/// end of a token.
pub open spec fn at_boundary(src: Seq<u8>, k: int) -> bool {
    exists|e: int| #[trigger] boundary_from(src, k, e)
}

/// Only white space lies between `e`, the start of `src` or the end of
/// one of its tokens, and `k`.
pub open spec fn boundary_from(src: Seq<u8>, k: int, e: int) -> bool {
    &&& 0 <= e <= k
    &&& (e == 0 || token_ends(src, 0).contains(e))
    &&& forall|x: int| e <= x < k ==> is_ws(#[trigger] src[x])
}

/// Every byte is white space.
pub open spec fn all_ws(w: Seq<u8>) -> bool {
    forall|x: int| 0 <= x < w.len() ==> is_ws(#[trigger] w[x])
}

/// `src` with `w` inserted at `k`.
pub open spec fn inserted(src: Seq<u8>, k: int, w: Seq<u8>) -> Seq<u8> {
    src.subrange(0, k) + w + src.subrange(k, src.len() as int)
}

proof fn lemma_same_trans(a: Seq<(int, Tok)>, b: Seq<(int, Tok)>, c: Seq<(int, Tok)>)
    requires
        same_tokens(a, b),
        same_tokens(b, c),
    ensures
        same_tokens(a, c),
        same_tokens(c, a),
{
    assert forall|q: int| 0 <= q < a.len() implies #[trigger] a[q].1 == c[q].1 by {
        assert(a[q].1 == b[q].1);
        assert(b[q].1 == c[q].1);
    }
    assert forall|q: int| 0 <= q < c.len() implies #[trigger] c[q].1 == a[q].1 by {
        assert(a[q].1 == b[q].1);
        assert(b[q].1 == c[q].1);
    }
}

proof fn lemma_ends_after(src: Seq<u8>, i: int)
    ensures
        forall|q: int| 0 <= q < token_ends(src, i).len() ==> #[trigger] token_ends(src, i)[q] > i,
    decreases src.len() - i,
{
    if 0 <= i <= src.len() {
        if let Lexed::Token { start, tok, end } = lex_at(src, i) {
            if i < end <= src.len() {
                lemma_ends_after(src, end);
                let r = token_ends(src, end);
                assert forall|q: int| 0 <= q < token_ends(src, i).len() implies #[trigger] token_ends(src, i)[q] > i by {
                    if q > 0 {
                        assert(token_ends(src, i)[q] == r[q - 1]);
                    }
                }
            }
        }
    }
}

/// White space at `i` is skipped: lexing from `i` and from past it is
/// the same.
proof fn lemma_skip_ws(s: Seq<u8>, i: int, n: int)
    requires
        0 <= i <= i + n <= s.len(),
        forall|x: int| i <= x < i + n ==> is_ws(#[trigger] s[x]),
    ensures
        lex_all(s, i) == lex_all(s, i + n),
    decreases n,
{
    if n > 0 {
        assert(is_ws(s[i]));
        assert(ws_end(s, i) == ws_end(s, i + 1));
        assert(lex_at(s, i) == lex_at(s, i + 1));
        crate::lex::lemma_lex_progress(s, i + 1);
        lemma_lex_all_unfold(s, i);
        lemma_lex_all_unfold(s, i + 1);
        lemma_skip_ws(s, i + 1, n - 1);
    }
}

/// From the token end `e` on, both sources hold only white space up to
/// the same remaining bytes.
proof fn lemma_insert_at_end(src: Seq<u8>, k: int, w: Seq<u8>, e: int)
    requires
        0 <= e <= k <= src.len(),
        all_ws(w),
        forall|x: int| e <= x < k ==> is_ws(#[trigger] src[x]),
    ensures
        same_tokens(lex_all(inserted(src, k, w), e).0, lex_all(src, e).0),
        lex_all(inserted(src, k, w), e).1 is None <==> lex_all(src, e).1 is None,
{
    let s2 = inserted(src, k, w);
    let tail = src.subrange(k, src.len() as int);
    assert forall|x: int| e <= x < k + w.len() implies is_ws(#[trigger] s2[x]) by {
        if x < k {
            assert(s2[x] == src[x]);
        } else {
            assert(s2[x] == w[x - k]);
        }
    }
    lemma_skip_ws(s2, e, k + w.len() - e);
    lemma_skip_ws(src, e, k - e);
    assert(s2.subrange(k + w.len(), s2.len() as int) =~= tail);
    lemma_lex_all_shift(s2, k + w.len(), 0);
    lemma_lex_all_shift(src, k, 0);
    lemma_same_trans(lex_all(s2, k + w.len()).0, lex_all(tail, 0).0, lex_all(src, k).0);
    lemma_same_trans(lex_all(src, k).0, lex_all(tail, 0).0, lex_all(s2, k + w.len()).0);
}

/// Reading from `i` up to the token end `e`, which only white space
/// separates from `k`, and past it, gives the same tokens with and
/// without the inserted white space.
#[verifier::spinoff_prover]
proof fn lemma_insert_from(src: Seq<u8>, k: int, w: Seq<u8>, e: int, i: int)
    requires
        0 <= i <= e <= k <= src.len(),
        w.len() > 0,
        all_ws(w),
        forall|x: int| e <= x < k ==> is_ws(#[trigger] src[x]),
        i == e || token_ends(src, i).contains(e),
    ensures
        same_tokens(lex_all(inserted(src, k, w), i).0, lex_all(src, i).0),
        lex_all(inserted(src, k, w), i).1 is None <==> lex_all(src, i).1 is None,
    decreases e - i,
{
    let s2 = inserted(src, k, w);
    if i == e {
        lemma_insert_at_end(src, k, w, e);
    } else {
        lemma_ends_after(src, i);
        match lex_at(src, i) {
            Lexed::Token { start, tok, end } => {
                let rest = token_ends(src, end);
                assert(token_ends(src, i) == seq![end] + rest);
                if end != e {
                    let q = choose|q: int| 0 <= q < token_ends(src, i).len() && token_ends(src, i)[q] == e;
                    assert(q > 0);
                    assert(rest[q - 1] == e);
                    lemma_ends_after(src, end);
                    assert(rest.contains(e));
                }
                assert(end <= e);
                assert(agree_before(src, s2, e)) by {
                    if e < k {
                        assert(s2[e] == src[e]);
                    } else {
                        assert(s2[e] == w[0]);
                    }
                    assert forall|x: int| 0 <= x < e implies #[trigger] src[x] == s2[x] by {}
                }
                lemma_lex_at_agree(src, s2, e, i);
                lemma_lex_all_unfold(src, i);
                lemma_lex_all_unfold(s2, i);
                lemma_insert_from(src, k, w, e, end);
                lemma_same_cons((start, tok), (start, tok), lex_all(s2, end).0, lex_all(src, end).0);
            },
            _ => {
                assert(token_ends(src, i).len() == 0);
            },
        }
    }
}

/// Inserting white space at a boundary of a source leaves its tokens as
/// they were, and lexing fails in one exactly when in the other.
pub proof fn lemma_insert_ws(src: Seq<u8>, k: int, w: Seq<u8>)
    requires
        0 <= k <= src.len(),
        at_boundary(src, k),
        all_ws(w),
    ensures
        same_tokens(lex_all(inserted(src, k, w), 0).0, lex_all(src, 0).0),
        lex_all(inserted(src, k, w), 0).1 is None <==> lex_all(src, 0).1 is None,
{
    if w.len() == 0 {
        assert(inserted(src, k, w) =~= src);
        assert forall|q: int| 0 <= q < lex_all(src, 0).0.len() implies #[trigger] lex_all(src, 0).0[q].1
            == lex_all(src, 0).0[q].1 by {}
    } else {
        let e = choose|e: int| boundary_from(src, k, e);
        lemma_insert_from(src, k, w, e, 0);
    }
}

/// Where lexing `s` from `i` stops: at the end of its last token.
pub open spec fn lex_stop(s: Seq<u8>, i: int) -> int
    decreases s.len() - i,
{
    if i < 0 || i > s.len() {
        i
    } else {
        match lex_at(s, i) {
            Lexed::Token { start, tok, end } => if i < end <= s.len() {
                lex_stop(s, end)
            } else {
                i
            },
            _ => i,
        }
    }
}

proof fn lemma_ws_run(s: Seq<u8>, i: int)
    requires
        0 <= i <= s.len(),
    ensures
        forall|x: int| i <= x < ws_end(s, i) ==> is_ws(#[trigger] s[x]),
    decreases s.len() - i,
{
    if i < s.len() && is_ws(s[i]) {
        lemma_ws_run(s, i + 1);
    }
}

/// Tokens of `s1` that end by `k` are read the same from `s2`, which
/// agrees with `s1` before `k` and has white space at `k`.
proof fn lemma_prefix_tokens(s1: Seq<u8>, s2: Seq<u8>, i: int)
    requires
        agree_before(s1, s2, s1.len() as int),
        0 <= i <= s1.len(),
        lex_all(s1, i).1 is None,
    ensures
        i <= lex_stop(s1, i) <= s1.len(),
        lex_at(s1, lex_stop(s1, i)) is End,
        lex_all(s2, i).0 == lex_all(s1, i).0 + lex_all(s2, lex_stop(s1, i)).0,
        lex_all(s2, i).1 == lex_all(s2, lex_stop(s1, i)).1,
    decreases s1.len() - i,
{
    lemma_lex_all_unfold(s1, i);
    match lex_at(s1, i) {
        Lexed::Token { start, tok, end } => {
            lemma_lex_at_agree(s1, s2, s1.len() as int, i);
            lemma_lex_all_unfold(s2, i);
            lemma_prefix_tokens(s1, s2, end);
            assert(lex_all(s2, i).0 =~= lex_all(s1, i).0 + lex_all(s2, lex_stop(s1, i)).0);
        },
        _ => {
            assert(lex_all(s2, i).0 =~= lex_all(s1, i).0 + lex_all(s2, lex_stop(s1, i)).0);
        },
    }
}

proof fn lemma_same_append(u1: Seq<(int, Tok)>, u2: Seq<(int, Tok)>, v1: Seq<(int, Tok)>, v2: Seq<(int, Tok)>)
    requires
        same_tokens(u1, u2),
        same_tokens(v1, v2),
    ensures
        same_tokens(u1 + v1, u2 + v2),
{
    assert forall|q: int| 0 <= q < (u1 + v1).len() implies #[trigger] (u1 + v1)[q].1 == (u2 + v2)[q].1 by {
        if q < u1.len() {
            assert(u1[q].1 == u2[q].1);
        } else {
            assert(v1[q - u1.len()].1 == v2[q - u1.len()].1);
        }
    }
}

/// After the first source, the joined one reads as a plus and then the
/// tokens of the second.
proof fn lemma_join_tail(a: Seq<u8>, b: Seq<u8>)
    ensures
        ({
            let src = a + seq![32u8, 43u8, 32u8] + b;
            let k = a.len() as int;
            &&& lex_all(src, k + 1).0 == seq![(k + 1, Tok::Add)] + lex_all(src, k + 3).0
            &&& lex_all(src, k + 1).1 == lex_all(src, k + 3).1
            &&& same_tokens(lex_all(src, k + 3).0, lex_all(b, 0).0)
            &&& (lex_all(src, k + 3).1 is None <==> lex_all(b, 0).1 is None)
        }),
{
    let src = a + seq![32u8, 43u8, 32u8] + b;
    let k = a.len() as int;
    assert(src[k + 1] == 43u8);
    assert(src[k + 2] == 32u8);
    assert(ws_end(src, k + 1) == k + 1);
    assert(crate::decimal::starts_number(src, k + 1) == false);
    assert(lex_at(src, k + 1) == (Lexed::Token { start: k + 1, tok: Tok::Add, end: k + 2 }));
    lemma_lex_all_unfold(src, k + 1);
    assert(is_ws(src[k + 2]));
    lemma_skip_ws(src, k + 2, 1);
    assert(src.subrange(k + 3, src.len() as int) =~= b);
    lemma_lex_all_shift(src, k + 3, 0);
}

/// Two sources joined by ` + ` read as the tokens of the first, a plus,
/// and the tokens of the second.
pub proof fn lemma_join_lex(a: Seq<u8>, b: Seq<u8>)
    requires
        lex_all(a, 0).1 is None,
        lex_all(b, 0).1 is None,
    ensures
        lex_all(a + seq![32u8, 43u8, 32u8] + b, 0).1 is None,
        same_tokens(
            lex_all(a + seq![32u8, 43u8, 32u8] + b, 0).0,
            lex_all(a, 0).0 + seq![(a.len() + 1int, Tok::Add)] + lex_all(b, 0).0,
        ),
{
    let src = a + seq![32u8, 43u8, 32u8] + b;
    let k = a.len() as int;
    assert(src[k] == 32u8);
    assert(src[k + 1] == 43u8);
    assert(src[k + 2] == 32u8);
    assert(agree_before(a, src, k)) by {
        assert forall|x: int| 0 <= x < k implies #[trigger] a[x] == src[x] by {}
    }
    lemma_prefix_tokens(a, src, 0);
    let stop = lex_stop(a, 0);
    crate::lex::lemma_ws_end(a, stop);
    lemma_ws_run(a, stop);
    assert forall|x: int| stop <= x < k + 1 implies is_ws(#[trigger] src[x]) by {
        if x < k {
            assert(src[x] == a[x]);
        }
    }
    lemma_skip_ws(src, stop, k + 1 - stop);
    lemma_join_tail(a, b);
    let ta = lex_all(a, 0).0;
    let x = lex_all(src, k + 3).0;
    let tb = lex_all(b, 0).0;
    assert(lex_all(src, 0).0 == ta + (seq![(k + 1, Tok::Add)] + x));
    lemma_same_append(seq![(k + 1, Tok::Add)], seq![(k + 1, Tok::Add)], x, tb);
    assert forall|q: int| 0 <= q < ta.len() implies #[trigger] ta[q].1 == ta[q].1 by {}
    lemma_same_append(ta, ta, seq![(k + 1, Tok::Add)] + x, seq![(k + 1, Tok::Add)] + tb);
    assert(ta + seq![(k + 1, Tok::Add)] + tb =~= ta + (seq![(k + 1, Tok::Add)] + tb));
}

} // verus!
