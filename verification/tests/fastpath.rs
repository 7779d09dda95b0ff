//! The fast literal path against std's correctly rounded parser.

use rpn2::{fallback, try_fast};

/// std's parser on a literal slice.
fn std_parse(s: &[u8]) -> Option<f64> {
    let text = core::str::from_utf8(s).ok()?;
    text.parse::<f64>().ok()
}

/// Differential grid: fast path vs `str::parse` must agree bit-for-bit
/// on every literal shape the lexer can produce.
#[test]
fn matches_std_parse() {
    let mut cases: Vec<String> = Vec::new();
    for &int in &["", "0", "007", "1", "9", "42", "123456789", "9007199254740993", "9999999999999999999"] {
        for &frac in &["", ".", ".5", ".0496875", "125"] {
            for &exp in &["", "e", "E", "e+", "e-", "e0", "e3", "E-2", "e22", "e23", "e-23", "e300", "e-300"] {
                cases.push(format!("{int}{frac}{exp}"));
                cases.push(format!("0{int}{frac}0{exp}"));
            }
        }
    }
    // Stress around every envelope boundary.
    for n in [1usize, 14, 15, 16, 17, 19, 20, 25] {
        let nines = "9".repeat(n);
        cases.push(nines.clone());
        cases.push(format!("{nines}.5"));
        cases.push(format!("1.{nines}"));
        cases.push(format!("0.{nines}"));
        cases.push(format!("{nines}e42"));
        cases.push(format!("{nines}e-42"));
        cases.push(format!("1.{nines}e-1"));
    }

    for c in &cases {
        let bytes = c.as_bytes();
        // Only shapes the lexer can emit: starts with a digit or
        // `.`+digit; `e`/sign never terminate a valid literal.
        let ok_shape = match bytes.first() {
            Some(b) if b.is_ascii_digit() => true,
            Some(b'.') => matches!(bytes.get(1), Some(c) if c.is_ascii_digit()),
            _ => false,
        };
        if !ok_shape || matches!(bytes.last(), Some(b'e' | b'E' | b'+' | b'-')) {
            continue;
        }
        let slow = std_parse(bytes);
        let got = try_fast(bytes).map(f64::from_bits).or(slow);
        assert_eq!(format!("{got:?}"), format!("{slow:?}"), "case {c} | fast_raw={:?}", try_fast(bytes));
    }
}

#[test]
fn fallback_is_the_exact_conversion() {
    for c in ["1e400", "0.1", "9007199254740993", "123456789012345678901234567890e-10", ".5e-330", "1e-400"] {
        let got = fallback(c.as_bytes()).map(f64::from_bits);
        assert_eq!(format!("{got:?}"), format!("{:?}", std_parse(c.as_bytes())), "{c}");
    }
}

#[test]
fn fast_path_envelope() {
    let hit = |s: &str| try_fast(s.as_bytes()).map(f64::from_bits);
    assert_eq!(hit("0"), Some(0.0));
    assert_eq!(hit("0e123456789"), None); // exponent digits run too long
    assert_eq!(hit("000000000000000000000000"), Some(0.0));
    assert_eq!(hit("1234567890123456789"), Some(1234567890123456789.0)); // 19 digits, pure integer
    assert_eq!(hit("12345678901234567890"), None); // 20 digits: not a short integer
    assert_eq!(hit("123456789012345678901"), None); // 21 digits overflow u64
    assert_eq!(hit("9007199254740990.5"), None); // mantissa at the limit
    assert_eq!(hit("1.5e22"), Some(1.5e22));
    assert_eq!(hit("15e22"), Some(1.5e23));
    assert_eq!(hit("1e23"), None); // shift beyond 22
    assert_eq!(hit("1.5e-23"), None);
    assert_eq!(hit("3e-22"), Some(3e-22));
}
