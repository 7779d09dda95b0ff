//! Constant folding against the machine's own binary64 arithmetic.

use rpn2::{opcodes, Config, Session};

struct Rng(u64);

impl Rng {
    fn next(&mut self) -> u64 {
        let mut x = self.0;
        x ^= x << 13;
        x ^= x >> 7;
        x ^= x << 17;
        self.0 = x;
        x
    }

    fn finite(&mut self) -> f64 {
        loop {
            let bits = self.next();
            let x = f64::from_bits(bits);
            if x.is_finite() {
                return x;
            }
        }
    }

    fn moderate(&mut self) -> f64 {
        let m = (self.next() % 2_000_000) as f64 / 1000.0 - 1000.0;
        m
    }
}

/// The single literal `s` folds `name` to, as raw bits.
fn folded(s: &Session<256>, stack: &mut [u8], name: &str) -> u64 {
    let mut out = [0u8; 64];
    let n = s.compile(name, &mut out, stack).unwrap();
    assert_eq!(n, 9, "{name} folds to one literal");
    assert_eq!(out[0], opcodes::NUM);
    u64::from_le_bytes(out[1..9].try_into().unwrap())
}

fn same(got: u64, want: f64, what: &str) {
    if want.is_nan() {
        assert!(f64::from_bits(got).is_nan(), "{what}");
    } else {
        assert_eq!(got, want.to_bits(), "{what}: got {}", f64::from_bits(got));
    }
}

#[test]
fn folded_arithmetic_matches_hardware() {
    let mut s = Session::<256>::new(Config::new());
    let mut stack = vec![0u8; Config::new().scratch_len()];
    s.define(b's', "x+y", &mut stack).unwrap();
    s.define(b'd', "x-y", &mut stack).unwrap();
    s.define(b'm', "x*y", &mut stack).unwrap();
    s.define(b'q', "x/y", &mut stack).unwrap();
    let mut rng = Rng(0xDEADBEEFCAFEF00D);
    for round in 0..300 {
        let (a, b) = if round % 2 == 0 {
            (rng.finite(), rng.finite())
        } else {
            (rng.moderate(), rng.moderate())
        };
        s.define(b'x', &format!("{a:e}"), &mut stack).unwrap();
        s.define(b'y', &format!("{b:e}"), &mut stack).unwrap();
        same(folded(&s, &mut stack, "s"), a + b, &format!("{a:e} + {b:e}"));
        same(folded(&s, &mut stack, "d"), a - b, &format!("{a:e} - {b:e}"));
        same(folded(&s, &mut stack, "m"), a * b, &format!("{a:e} * {b:e}"));
        same(folded(&s, &mut stack, "q"), a / b, &format!("{a:e} / {b:e}"));
    }
}

#[test]
fn folded_small_powers_iterate_multiplication() {
    let mut s = Session::<256>::new(Config::new());
    let mut stack = vec![0u8; Config::new().scratch_len()];
    let mut rng = Rng(99);
    for n in -32i32..=32 {
        let a = rng.moderate();
        s.define(b'x', &format!("{a:e}"), &mut stack).unwrap();
        s.define(b'p', &format!("x^({n})"), &mut stack).unwrap();
        let mut acc = 1.0f64;
        for _ in 0..n.unsigned_abs() {
            acc *= a;
        }
        let want = if n < 0 { 1.0 / acc } else { acc };
        same(folded(&s, &mut stack, "p"), want, &format!("{a:e}^{n}"));
    }
}

#[test]
fn folded_special_values() {
    let mut s = Session::<256>::new(Config::new());
    let mut stack = vec![0u8; Config::new().scratch_len()];
    s.define(b'z', "0*(-1)", &mut stack).unwrap();
    same(folded(&s, &mut stack, "z"), -0.0, "-0");
    s.define(b'n', "-0+0", &mut stack).unwrap();
    same(folded(&s, &mut stack, "n"), 0.0, "+0");
    s.define(b'i', "1/0-1/0", &mut stack).unwrap();
    same(folded(&s, &mut stack, "i"), f64::NAN, "nan");
    s.define(b'h', "1e308*10", &mut stack).unwrap();
    same(folded(&s, &mut stack, "h"), f64::INFINITY, "overflow");
    s.define(b'u', "5e-324/2", &mut stack).unwrap();
    same(folded(&s, &mut stack, "u"), 0.0, "underflow ties to even");
    s.define(b'v', "1.5*5e-324", &mut stack).unwrap();
    same(folded(&s, &mut stack, "v"), 1.5 * 5e-324, "subnormal rounding");
}
