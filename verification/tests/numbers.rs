//! Number literals and number text, held against std's own parsing and
//! formatting of `f64`.

use rpn2::{decode_into, opcodes, parse_into, Error, MAX_RPN};

fn decode_number(bits: u64) -> Result<String, Error> {
    let mut rpn = vec![opcodes::NUM];
    rpn.extend_from_slice(&bits.to_le_bytes());
    let mut out = [0u8; 1024];
    let m = decode_into(&rpn, &mut out)?;
    Ok(core::str::from_utf8(&out[..m]).unwrap().to_string())
}

fn parsed_bits(src: &str) -> u64 {
    let mut buf = [0u8; MAX_RPN];
    let n = parse_into(src, &mut buf).unwrap();
    assert_eq!(n, 9, "{src} is one literal");
    assert_eq!(buf[0], opcodes::NUM);
    u64::from_le_bytes(buf[1..9].try_into().unwrap())
}

struct Rng(u64);

impl Rng {
    fn next(&mut self) -> u64 {
        let mut x = self.0;
        x ^= x << 13;
        x ^= x >> 7;
        x ^= x << 17;
        self.0 = x;
        x
    }
}

#[test]
fn number_text_examples() {
    assert_eq!(decode_number(0.1f64.to_bits()).unwrap(), "0.1");
    assert_eq!(decode_number(100.0f64.to_bits()).unwrap(), "100");
    assert_eq!(decode_number(1e21f64.to_bits()).unwrap(), "1000000000000000000000");
    assert_eq!(decode_number(1e-7f64.to_bits()).unwrap(), "0.0000001");
    assert_eq!(decode_number(1e23f64.to_bits()).unwrap(), "100000000000000000000000");
    assert_eq!(decode_number((0.1f64 + 0.2f64).to_bits()).unwrap(), "0.30000000000000004");
    assert_eq!(decode_number((-0.0f64).to_bits()).unwrap(), "-0");
    assert_eq!(decode_number(0.0f64.to_bits()).unwrap(), "0");
    assert_eq!(decode_number((-2.5f64).to_bits()).unwrap(), "-2.5");
    let tiny = decode_number(1).unwrap();
    assert_eq!(tiny, format!("0.{}5", "0".repeat(323)));
}

#[test]
fn number_text_matches_std_display() {
    let specials: [f64; 22] = [
        0.5, 1.0, 2.0, 3.0, 7.0, 10.0, 0.3, 2.0 / 3.0, 1e15, 1e16, 1e17, 123456789.125,
        9007199254740993.0, 4.35, 5e-324, 1e-323, 1.5e-323, 2.2250738585072014e-308,
        1.7976931348623157e308, 8.98846567431158e307, 0.000123, 6.02214076e23,
    ];
    for x in specials {
        assert_eq!(decode_number(x.to_bits()).unwrap(), format!("{x}"), "{x:e}");
        assert_eq!(decode_number((-x).to_bits()).unwrap(), format!("{}", -x), "{x:e}");
    }
    let mut rng = Rng(0x9E3779B97F4A7C15);
    let mut checked = 0;
    while checked < 200 {
        let bits = rng.next();
        let x = f64::from_bits(bits);
        if !x.is_finite() {
            continue;
        }
        assert_eq!(decode_number(bits).unwrap(), format!("{x}"), "{bits:#x}");
        checked += 1;
    }
}

#[test]
fn non_finite_numbers_are_malformed() {
    assert_eq!(decode_number(f64::INFINITY.to_bits()), Err(Error::MalformedRpn { offset: 1 }));
    assert_eq!(decode_number(f64::NAN.to_bits()), Err(Error::MalformedRpn { offset: 1 }));
}

#[test]
fn literals_are_correctly_rounded() {
    let cases = [
        "0.1", "1e23", "9007199254740993", "2.2250738585072011e-308", "4.9406564584124654e-324",
        "2.4703282292062327e-324", "2.4703282292062328e-324", "1.7976931348623158e308",
        "123456789012345678901234567890", ".0496875", "125E-2", "0.000000000000000000000000001",
    ];
    for c in cases {
        assert_eq!(parsed_bits(c), c.parse::<f64>().unwrap().to_bits(), "{c}");
    }
    let mut rng = Rng(12345);
    for _ in 0..100 {
        let bits = rng.next() >> 2;
        let x = f64::from_bits(bits);
        if !x.is_finite() {
            continue;
        }
        let text = format!("{x:e}");
        assert_eq!(parsed_bits(&text), bits, "{text}");
    }
}

#[test]
fn literal_overflow_is_invalid() {
    let mut buf = [0u8; 64];
    assert_eq!(parse_into("1.7976931348623159e308", &mut buf), Err(Error::InvalidNumber { pos: 0 }));
    assert_eq!(parse_into("2+1e400", &mut buf), Err(Error::InvalidNumber { pos: 2 }));
}

#[test]
fn printed_numbers_read_back() {
    let mut rng = Rng(777);
    for _ in 0..100 {
        let bits = rng.next() & 0x7FFF_FFFF_FFFF_FFFF;
        if f64::from_bits(bits).is_finite() {
            let text = decode_number(bits).unwrap();
            assert_eq!(parsed_bits(&text), bits, "{text}");
        }
    }
}
