//! Evaluation: exact binary64 arithmetic in the library; transcendental
//! values supplied here from std, as a build with a math library does.

use rpn2::fold::try_fold;
use rpn2::opcodes;
use rpn2::Resolve;
use rpn2::{eval, eval_resume, eval_run, parse_into, Config, Error, Machine, Req, Session, Stop, Vars};

/// Runs the library's evaluator, answering its requests with std's `f64`.
fn eval_std(rpn: &[u8], vars: &Vars, stack: &mut [u64]) -> Result<f64, Error> {
    let mut m = Machine::new();
    loop {
        match eval_run(rpn, vars, stack, &mut m)? {
            Stop::Value(v) => return Ok(f64::from_bits(v)),
            Stop::Need(q) => {
                let v = match q {
                    Req::Func { id, x } => {
                        let x = f64::from_bits(x);
                        match id {
                            opcodes::FUNC_SIN => x.sin(),
                            opcodes::FUNC_COS => x.cos(),
                            opcodes::FUNC_TAN => x.tan(),
                            opcodes::FUNC_ASIN => x.asin(),
                            opcodes::FUNC_ACOS => x.acos(),
                            opcodes::FUNC_ATAN => x.atan(),
                            opcodes::FUNC_LN | opcodes::FUNC_LOG => x.ln(),
                            _ => return Err(Error::MalformedRpn { offset: 0 }),
                        }
                    }
                    Req::Log { base } => f64::from_bits(base).ln(),
                    Req::Pow { a, b } => f64::from_bits(a).powf(f64::from_bits(b)),
                };
                eval_resume(stack, &mut m, v.to_bits());
            }
        }
    }
}

fn vars_with(x: f64) -> Vars {
    let mut v = Vars::zeroed();
    assert!(v.set(b'x', x.to_bits()));
    v
}

#[test]
fn eval_arithmetic_and_vars() {
    let mut buf = [0u8; 256];
    let cases = [
        ("2x^2+1", 3.0, 19.0),
        ("-x^2", 3.0, -9.0),
        ("2^-2+0.5", 0.0, 0.75),
        ("log(8)_2", 0.0, 3.0),
        ("e-2", 0.0, std::f64::consts::E - 2.0),
        ("atan(1)*4-pi", 0.0, 0.0),
    ];
    for (src, xv, want) in cases {
        let n = parse_into(src, &mut buf).unwrap();
        let vars = vars_with(xv);
        let got = eval_std(&buf[..n], &vars, &mut [0u64; 64]).unwrap();
        assert!((got - want).abs() < 1e-12, "{src}: {got} vs {want}");
    }
}

#[test]
fn eval_unset_var_is_nan() {
    let mut buf = [0u8; 64];
    let n = parse_into("x+1", &mut buf).unwrap();
    let got = eval(&buf[..n], &Vars::new(), &mut [0u64; 8]).unwrap();
    assert!(f64::from_bits(got).is_nan());
}

#[test]
fn eval_session_solved_output_is_exact() {
    let mut s = Session::<256>::new(Config::new());
    let mut stack = vec![0u8; Config::new().scratch_len()];
    s.compile_line("r = 2", &mut [], &mut stack).unwrap();
    s.compile_line("k = pi*r^2", &mut [], &mut stack).unwrap();

    let mut out = [0u8; 128];
    let n = s.compile("k", &mut out, &mut stack).unwrap();
    let area = f64::from_bits(eval(&out[..n], &Vars::new(), &mut [0u64; 16]).unwrap());
    assert!((area - core::f64::consts::PI * 4.0).abs() < 1e-15);
}

#[test]
fn eval_stack_overflow_is_an_error() {
    let mut buf = [0u8; 64];
    let n = parse_into("1+2", &mut buf).unwrap();
    let r = eval(&buf[..n], &Vars::zeroed(), &mut []);
    assert!(matches!(r, Err(Error::EvalStackOverflow)));
}

#[test]
fn transcendental_eval_requires_std_feature_here_it_has_it() {
    let mut buf = [0u8; 64];
    let n = parse_into("sin(0)", &mut buf).unwrap();
    let v = eval_std(&buf[..n], &Vars::new(), &mut [0u64; 8]).unwrap();
    assert_eq!(v, 0.0);
}

#[test]
fn without_a_math_library_functions_are_unsupported() {
    let mut buf = [0u8; 64];
    let cases: [(&str, u8); 5] = [
        ("sin(0)", opcodes::FUNC_SIN),
        ("2*ln(x)", opcodes::FUNC_LN),
        ("log(8)_2", opcodes::FUNC_LOG),
        ("2^0.5", opcodes::POW),
        ("x^40", opcodes::POW),
    ];
    for (src, func) in cases {
        let n = parse_into(src, &mut buf).unwrap();
        assert_eq!(
            eval(&buf[..n], &vars_with(8.0), &mut [0u64; 8]),
            Err(Error::FuncUnsupportedOnTarget { func }),
            "{src}"
        );
    }
    // logb itself reports ln, the function it needs for the base.
    let rpn = [opcodes::NUM, 0, 0, 0, 0, 0, 0, 0x20, 0x40, opcodes::NUM, 0, 0, 0, 0, 0, 0, 0, 0x40, opcodes::FUNC, opcodes::FUNC_LOGB];
    assert_eq!(
        eval(&rpn, &Vars::new(), &mut [0u64; 8]),
        Err(Error::FuncUnsupportedOnTarget { func: opcodes::FUNC_LN })
    );
    assert_eq!(eval_std(&rpn, &Vars::new(), &mut [0u64; 8]).unwrap(), 8.0 / 2f64.ln());
}

#[test]
fn eval_matches_hardware_arithmetic() {
    let mut seed: u64 = 0x9e3779b97f4a7c15;
    let mut next = || {
        seed ^= seed << 13;
        seed ^= seed >> 7;
        seed ^= seed << 17;
        seed
    };
    let mut buf = [0u8; 64];
    for _ in 0..4000 {
        let a = f64::from_bits(next());
        let b = f64::from_bits(next());
        let mut vars = Vars::new();
        vars.set(b'a', a.to_bits());
        vars.set(b'b', b.to_bits());
        for (src, want) in [("a+b", a + b), ("a-b", a - b), ("a*b", a * b), ("a/b", a / b), ("-a", -a)] {
            let n = parse_into(src, &mut buf).unwrap();
            let got = f64::from_bits(eval(&buf[..n], &vars, &mut [0u64; 4]).unwrap());
            if want.is_nan() {
                assert!(got.is_nan(), "{src} {a:e} {b:e}");
            } else {
                assert_eq!(got.to_bits(), want.to_bits(), "{src} {a:e} {b:e}");
            }
        }
    }
}

#[test]
fn integral_powers_multiply_out() {
    let mut buf = [0u8; 64];
    for (src, x, want) in [("x^3", 1.5, 3.375), ("x^-2", 4.0, 0.0625), ("x^0", f64::NAN, 1.0), ("x^32", 2.0, 4294967296.0)] {
        let n = parse_into(src, &mut buf).unwrap();
        let got = f64::from_bits(eval(&buf[..n], &vars_with(x), &mut [0u64; 4]).unwrap());
        assert_eq!(got, want, "{src}");
    }
}

#[test]
fn malformed_streams_are_reported() {
    let vars = Vars::new();
    let st = &mut [0u64; 8];
    assert_eq!(eval(&[], &vars, st), Err(Error::MalformedRpn { offset: 0 }));
    assert_eq!(eval(&[opcodes::ADD], &vars, st), Err(Error::MalformedRpn { offset: 0 }));
    assert_eq!(eval(&[opcodes::NUM, 0, 0], &vars, st), Err(Error::MalformedRpn { offset: 0 }));
    assert_eq!(eval(&[opcodes::VAR, b'x', opcodes::VAR, b'X'], &vars, st), Err(Error::MalformedRpn { offset: 2 }));
    assert_eq!(eval(&[opcodes::CONST, 9], &vars, st), Err(Error::MalformedRpn { offset: 0 }));
    assert_eq!(eval(&[opcodes::VAR, b'x', opcodes::VAR, b'y'], &vars, st), Err(Error::MalformedRpn { offset: 0 }));
    assert_eq!(eval(&[opcodes::VAR, b'x', 0x77], &vars, st), Err(Error::MalformedRpn { offset: 2 }));
    let e = eval(&[opcodes::CONST, opcodes::CONST_E], &vars, st).unwrap();
    assert_eq!(f64::from_bits(e), std::f64::consts::E);
    let p = eval(&[opcodes::CONST, opcodes::CONST_PI], &vars, st).unwrap();
    assert_eq!(f64::from_bits(p), std::f64::consts::PI);
}

#[test]
fn compiled_bytecode_never_evaluates_as_malformed() {
    let sources = [
        "3x+2", "atan(2)x+log(8)_2", "2sin(x)^2-cos(y)/tan(pi)", "-(x+1)*(2-x)^3", "log(log(8)_2)_e+1",
        ".5x+.25e-1*y", "x^2^3^4", "e*pi*2", "1/2/3/4/x/y", "(a)(b)", "--x", "+-+-x", "((((x))))",
        "sin(cos(tan(x)))", "2pi x", "-2^-2", "log(x)_(2)", "a b c d e", "x(y+1)(z-1)",
    ];
    let mut buf = [0u8; 1024];
    for src in sources {
        let n = match parse_into(src, &mut buf) {
            Ok(n) => n,
            Err(_) => continue,
        };
        for cap in [0usize, 1, 2, 3, 64] {
            let mut st = vec![0u64; cap];
            let r = eval(&buf[..n], &vars_with(1.5), &mut st);
            assert!(!matches!(r, Err(Error::MalformedRpn { .. })), "{src} cap {cap}: {r:?}");
        }
        assert!(eval_std(&buf[..n], &vars_with(1.5), &mut [0u64; 64]).is_ok(), "{src}");
    }
}

#[test]
fn session_bytecode_never_evaluates_as_malformed() {
    let mut s = Session::<256>::new(Config::new());
    let mut stack = vec![0u8; Config::new().scratch_len()];
    for line in ["a = 2", "b = a*3", "c = sin(x)+b", "d = -c^2", "f = log(d)_a", "g = 1/0"] {
        s.compile_line(line, &mut [], &mut stack).unwrap();
    }
    let mut out = [0u8; 1024];
    for src in ["a", "b", "c", "d", "f", "g", "a+b*c-d/f", "(c)(d)", "-g", "f^b", "x"] {
        let n = s.compile(src, &mut out, &mut stack).unwrap();
        for cap in [0usize, 1, 2, 8] {
            let r = eval(&out[..n], &vars_with(0.25), &mut vec![0u64; cap]);
            assert!(!matches!(r, Err(Error::MalformedRpn { .. })), "{src} cap {cap}: {r:?}");
        }
        assert!(eval_std(&out[..n], &vars_with(0.25), &mut [0u64; 64]).is_ok(), "{src}");
    }
}

#[test]
fn folding_agrees_with_evaluation() {
    let mut s = Session::<256>::new(Config::new());
    let mut stack = vec![0u8; Config::new().scratch_len()];
    for line in ["a = 2", "b = a*3+1", "c = b^2/a - -a", "d = 1/(a-2)", "f = 0.1+0.2"] {
        s.compile_line(line, &mut [], &mut stack).unwrap();
    }
    // Each letter's value: what its own definition folds to.
    let mut vars = Vars::new();
    for v in [b'a', b'b', b'c', b'd', b'f'] {
        let body = s.body(v).unwrap();
        let folded = try_fold(body, &s, 1u32 << (v - b'a')).unwrap();
        vars.set(v, folded);
    }
    for v in [b'a', b'b', b'c', b'd', b'f'] {
        let body = s.body(v).unwrap().to_vec();
        let folded = try_fold(&body, &s, 1u32 << (v - b'a')).unwrap();
        let got = eval(&body, &vars, &mut [0u64; 64]).unwrap();
        assert_eq!(got, folded, "{}", v as char);
    }
    assert_eq!(f64::from_bits(vars.get(b'c').unwrap()), 26.5);
    assert_eq!(f64::from_bits(vars.get(b'd').unwrap()), f64::INFINITY);
    assert_eq!(f64::from_bits(vars.get(b'f').unwrap()), 0.1 + 0.2);
}
