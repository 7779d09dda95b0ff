//! Numeric equation solving: the library's solver driven by its own
//! evaluator.

use rpn2::{eval, parse_into, solve_start, Config, Error, Result, Session, SolveAct, SolveCfg, Vars};

fn cfg(lo: f64, hi: f64, steps: u32) -> SolveCfg {
    SolveCfg { range: (lo.to_bits(), hi.to_bits()), steps }
}

/// Runs a solve to the end, evaluating both sides with `eval`.
fn solve(lhs: &[u8], rhs: &[u8], var: u8, vars: &Vars, cfg: SolveCfg, stack: &mut [u64], found: &mut [f64]) -> Result<usize> {
    let mut st = solve_start(var, cfg)?;
    let mut roots: Vec<u64> = found.iter().map(|x| x.to_bits()).collect();
    let mut x = st.pending;
    let n = loop {
        let mut w = *vars;
        w.set(var, x);
        let a = eval(lhs, &w, stack)?;
        let b = eval(rhs, &w, stack)?;
        match st.solve_step(a, b, &mut roots) {
            SolveAct::Eval(next) => x = next,
            SolveAct::Done(n) => break n,
        }
    };
    for (d, s) in found.iter_mut().zip(roots.iter()) {
        *d = f64::from_bits(*s);
    }
    Ok(n)
}

fn roots_of(lhs: &str, rhs: &str) -> Vec<f64> {
    let mut l = [0u8; 512];
    let mut r = [0u8; 512];
    let ln = parse_into(lhs, &mut l).unwrap();
    let rn = parse_into(rhs, &mut r).unwrap();
    let mut found = [f64::NAN; 8];
    let k = solve(&l[..ln], &r[..rn], b'x', &Vars::new(), cfg(-50.0, 50.0, 4096), &mut [0u64; 64], &mut found).unwrap();
    found[..k].to_vec()
}

fn residual(lhs: &[u8], ln: usize, rhs: &[u8], rn: usize, x: f64) -> f64 {
    let mut vars = Vars::zeroed();
    vars.set(b'x', x.to_bits());
    let mut st = [0u64; 64];
    let a = f64::from_bits(eval(&lhs[..ln], &vars, &mut st).unwrap());
    let b = f64::from_bits(eval(&rhs[..rn], &vars, &mut st).unwrap());
    a - b
}

#[test]
fn the_users_example() {
    // y = 2x+3 meets y = 2x^3+10:
    let roots = roots_of("2x+3", "2x^3+10");
    assert_eq!(roots.len(), 1, "{roots:?}");
    let mut l = [0u8; 128];
    let mut r = [0u8; 128];
    let ln = parse_into("2x+3", &mut l).unwrap();
    let rn = parse_into("2x^3+10", &mut r).unwrap();
    assert!(residual(&l, ln, &r, rn, roots[0]).abs() < 1e-9);
}

#[test]
fn linear_exact() {
    // x+1 = 3 -> x = 2
    let roots = roots_of("x+1", "3");
    assert_eq!(roots.len(), 1);
    assert!((roots[0] - 2.0).abs() < 1e-12);
}

#[test]
fn quadratic_two_roots() {
    // x^2 = 4 -> ±2
    let mut roots = roots_of("x^2", "4");
    roots.sort_by(|a, b| a.partial_cmp(b).unwrap());
    assert_eq!(roots.len(), 2);
    assert!((roots[0] + 2.0).abs() < 1e-9);
    assert!((roots[1] - 2.0).abs() < 1e-9);
}

#[test]
fn cubic_three_roots() {
    // (x+3)(x)(x-2) = x^3 - x^2 - 6x
    let roots = roots_of("x^3+x^2-6x", "0");
    let sorted = {
        let mut v = roots.clone();
        v.sort_by(|a, b| a.partial_cmp(b).unwrap());
        v
    };
    assert_eq!(sorted.len(), 3, "{sorted:?}");
    for (got, want) in sorted.iter().zip([-3.0, 0.0, 2.0]) {
        assert!((got - want).abs() < 1e-7, "{got} vs {want}");
    }
}

#[test]
fn no_root_in_range_reports_none() {
    let roots = roots_of("x^2+100", "0");
    assert!(roots.is_empty());
}

#[test]
fn tangential_root_is_invisible_like_a_calculator() {
    // (x-1)^2 = 0 touches zero without crossing: bracketing cannot see it.
    let roots = roots_of("(x-1)^2", "0");
    assert!(roots.is_empty());
}

#[test]
fn session_definitions_participate() {
    let mut s = Session::<256>::new(Config::new());
    let mut stack = vec![0u8; Config::new().scratch_len()];
    s.compile_line("m = 2x+3", &mut [], &mut stack).unwrap();
    s.compile_line("k = 2x^3+10", &mut [], &mut stack).unwrap();

    let mut l = [0u8; 256];
    let mut r = [0u8; 256];
    let ln = s.compile("m", &mut l, &mut stack).unwrap();
    let rn = s.compile("k", &mut r, &mut stack).unwrap();
    let mut found = [f64::NAN; 4];
    let n = solve(&l[..ln], &r[..rn], b'x', &Vars::new(), cfg(-10.0, 10.0, 1024), &mut [0u64; 64], &mut found).unwrap();
    assert_eq!(n, 1);
    assert!(residual(&l, ln, &r, rn, found[0]).abs() < 1e-9);
}

#[test]
fn other_vars_come_from_the_map() {
    // a*x + 1 = 5 with a = 2 -> x = 2
    let mut l = [0u8; 128];
    let mut r = [0u8; 128];
    let ln = parse_into("a*x+1", &mut l).unwrap();
    let rn = parse_into("5", &mut r).unwrap();
    let mut vars = Vars::zeroed();
    vars.set(b'a', 2.0f64.to_bits());
    let mut found = [f64::NAN; 4];
    let n = solve(&l[..ln], &r[..rn], b'x', &vars, cfg(-20.0, 20.0, 512), &mut [0u64; 32], &mut found).unwrap();
    assert_eq!(n, 1);
    assert!((found[0] - 2.0).abs() < 1e-12);
}

#[test]
fn solve_rejects_bad_parameters() {
    assert!(matches!(solve_start(b'X', cfg(0.0, 1.0, 8)), Err(Error::BadAssignment { pos: 0 })));
    assert!(matches!(solve_start(b'x', cfg(1.0, 1.0, 8)), Err(Error::MalformedRpn { offset: 0 })));
    assert!(matches!(solve_start(b'x', cfg(2.0, 1.0, 8)), Err(Error::MalformedRpn { offset: 0 })));
    assert!(matches!(solve_start(b'x', cfg(0.0, 1.0, 1)), Err(Error::MalformedRpn { offset: 0 })));
    assert!(matches!(solve_start(b'x', cfg(0.0, f64::INFINITY, 8)), Err(Error::MalformedRpn { offset: 0 })));
    assert!(matches!(solve_start(b'x', cfg(f64::NAN, 1.0, 8)), Err(Error::MalformedRpn { offset: 0 })));
    let st = solve_start(b'x', cfg(-1.0, 3.0, 8)).unwrap();
    assert_eq!(f64::from_bits(st.step), 0.5);
    assert_eq!(f64::from_bits(st.pending), -1.0);
}

#[test]
fn roots_fill_the_output_then_stop() {
    // sin-free oscillation: (x-1)(x-2)(x-3)(x-4) has four simple roots.
    let mut l = [0u8; 256];
    let ln = parse_into("(x-1)(x-2)(x-3)(x-4)", &mut l).unwrap();
    let mut r = [0u8; 16];
    let rn = parse_into("0", &mut r).unwrap();
    let mut found = [f64::NAN; 2];
    let n = solve(&l[..ln], &r[..rn], b'x', &Vars::new(), cfg(0.0, 5.0, 500), &mut [0u64; 64], &mut found).unwrap();
    assert_eq!(n, 2);
    assert!((found[0] - 1.0).abs() < 1e-9 && (found[1] - 2.0).abs() < 1e-9, "{found:?}");
    let mut none: [f64; 0] = [];
    let n = solve(&l[..ln], &r[..rn], b'x', &Vars::new(), cfg(0.0, 5.0, 500), &mut [0u64; 64], &mut none).unwrap();
    assert_eq!(n, 0);
}

#[test]
fn undefined_difference_gives_no_root() {
    // `a` is unset, so both sides differ by NaN everywhere.
    assert!(roots_of("a*x", "0").is_empty());
    // 0/0 is NaN at every sample.
    assert!(roots_of("(x-x)/(x-x)", "1").is_empty());
}

#[test]
fn direct_steps_ignore_nan_differences() {
    let nan = f64::NAN.to_bits();
    let mut st = solve_start(b'x', cfg(-1.0, 1.0, 4)).unwrap();
    let mut found = [0u64; 4];
    let mut n = None;
    for _ in 0..16 {
        match st.solve_step(nan, 0, &mut found) {
            SolveAct::Eval(_) => {}
            SolveAct::Done(k) => {
                n = Some(k);
                break;
            }
        }
    }
    assert_eq!(n, Some(0));
}

fn drive_zeros(cfg: SolveCfg, found: &mut [u64]) -> usize {
    let mut st = solve_start(b'x', cfg).unwrap();
    loop {
        match st.solve_step(0, 0, found) {
            SolveAct::Eval(_) => {}
            SolveAct::Done(k) => break k,
        }
    }
}

#[test]
fn roots_closer_than_the_tolerance_are_one() {
    let mut found = [0u64; 8];
    // The low end only starts the scan; its two successors are one root.
    assert_eq!(drive_zeros(cfg(1.0, 1.0 + 1e-8, 2), &mut found), 1);
    assert_eq!(f64::from_bits(found[0]), 1.0 + 5e-9);
    let mut found = [0u64; 16];
    assert_eq!(drive_zeros(cfg(0.0, 10.0, 10), &mut found), 10);
    for k in 0..10 {
        assert_eq!(f64::from_bits(found[k]), (k + 1) as f64);
    }
}

#[test]
fn nan_inside_a_bracket_keeps_the_low_half() {
    let nan = f64::NAN.to_bits();
    let mut st = solve_start(b'x', cfg(-1.0, 1.0, 2)).unwrap();
    let mut found = [0u64; 4];
    let mut calls = 0;
    let n = loop {
        let d = match calls {
            0 => (-1.0f64).to_bits(),
            1 => 1.0f64.to_bits(),
            _ => nan,
        };
        calls += 1;
        match st.solve_step(d, 0, &mut found) {
            SolveAct::Eval(_) => {}
            SolveAct::Done(k) => break k,
        }
    };
    assert_eq!(n, 1);
    assert!(f64::from_bits(found[0]) <= -0.999);
}
