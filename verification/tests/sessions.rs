//! Sessions, folding and the error surface, on concrete values.

use rpn2::{compile_into, compile_into_ex, decode_into, Config, Error, Line, NoResolve, Session};

fn text_of(rpn: &[u8]) -> Result<String, Error> {
    let mut out = [0u8; 4096];
    let m = decode_into(rpn, &mut out)?;
    Ok(core::str::from_utf8(&out[..m]).unwrap().to_string())
}

fn session() -> (Session<256>, Vec<u8>) {
    (Session::<256>::new(Config::new()), vec![0u8; Config::new().scratch_len()])
}

fn compiled(s: &Session<256>, stack: &mut [u8], src: &str) -> Result<String, Error> {
    let mut out = [0u8; 1024];
    let n = s.compile(src, &mut out, stack)?;
    text_of(&out[..n])
}

#[test]
fn folding_uses_binary64_arithmetic() {
    let (mut s, mut stack) = session();
    s.define(b'a', "0.1+0.2", &mut stack).unwrap();
    assert_eq!(compiled(&s, &mut stack, "a").unwrap(), "0.30000000000000004");
    s.define(b'b', "1/3", &mut stack).unwrap();
    assert_eq!(compiled(&s, &mut stack, "b").unwrap(), format!("{}", 1.0f64 / 3.0));
    s.define(b'c', "2^10-2^-2", &mut stack).unwrap();
    assert_eq!(compiled(&s, &mut stack, "c").unwrap(), "1023.75");
    s.define(b'd', "-(3*7)", &mut stack).unwrap();
    assert_eq!(compiled(&s, &mut stack, "d").unwrap(), "-21");
}

#[test]
fn non_integral_or_large_powers_stay_symbolic() {
    let (mut s, mut stack) = session();
    s.define(b'p', "2^0.5", &mut stack).unwrap();
    assert_eq!(compiled(&s, &mut stack, "p").unwrap(), "2 0.5 ^");
    s.define(b'q', "2^33", &mut stack).unwrap();
    assert_eq!(compiled(&s, &mut stack, "q").unwrap(), "2 33 ^");
    s.define(b'r', "2^32", &mut stack).unwrap();
    assert_eq!(compiled(&s, &mut stack, "r").unwrap(), "4294967296");
}

#[test]
fn constants_and_functions_stay_symbolic() {
    let (mut s, mut stack) = session();
    s.define(b'k', "2pi", &mut stack).unwrap();
    assert_eq!(compiled(&s, &mut stack, "k").unwrap(), "2 pi *");
    s.define(b'm', "sin(1)+1", &mut stack).unwrap();
    assert_eq!(compiled(&s, &mut stack, "m").unwrap(), "1 sin 1 +");
}

#[test]
fn folded_division_by_zero_is_not_decodable() {
    let (mut s, mut stack) = session();
    s.define(b'z', "1/0", &mut stack).unwrap();
    let mut out = [0u8; 64];
    let n = s.compile("z", &mut out, &mut stack).unwrap();
    assert_eq!(n, 9);
    assert_eq!(f64::from_le_bytes(out[1..9].try_into().unwrap()), f64::INFINITY);
    assert_eq!(text_of(&out[..n]), Err(Error::MalformedRpn { offset: 1 }));
}

#[test]
fn session_bookkeeping() {
    let (mut s, mut stack) = session();
    assert_eq!(s.defined_count(), 0);
    assert!(!s.is_defined(b'x'));
    assert_eq!(s.define(b'x', "y+1", &mut stack), Ok(12));
    assert!(s.is_defined(b'x'));
    assert!(!s.is_defined(b'X'));
    s.define(b'y', "2", &mut stack).unwrap();
    assert_eq!(s.defined_count(), 2);
    assert!(s.undefine(b'x'));
    assert!(!s.undefine(b'x'));
    assert!(!s.undefine(b'!'));
    assert_eq!(s.defined_count(), 1);
    assert_eq!(s.config().get_max_depth(), 128);
    assert_eq!(s.define(b'A', "1", &mut stack), Err(Error::BadAssignment { pos: 0 }));
}

#[test]
fn self_reference_through_a_chain_is_rejected() {
    let (mut s, mut stack) = session();
    s.define(b'a', "b+1", &mut stack).unwrap();
    s.define(b'b', "c*2", &mut stack).unwrap();
    assert_eq!(s.define(b'c', "a-1", &mut stack), Err(Error::RecursiveDefinition { var: b'c' }));
    assert!(!s.is_defined(b'c'));
    assert_eq!(compiled(&s, &mut stack, "a").unwrap(), "c 2 * 1 +");
}

#[test]
fn a_failed_redefinition_keeps_the_old_body() {
    let (mut s, mut stack) = session();
    s.define(b'v', "4", &mut stack).unwrap();
    assert_eq!(s.define(b'v', "(1", &mut stack), Err(Error::ExpectedRparen { pos: 2 }));
    assert_eq!(compiled(&s, &mut stack, "v").unwrap(), "4");
}

#[test]
fn compile_line_positions_and_outcomes() {
    let (mut s, mut stack) = session();
    let mut out = [0u8; 256];
    assert_eq!(
        s.compile_line("\tx\t=\t5", &mut out, &mut stack),
        Ok(Line::Defined { var: b'x', len: 9 })
    );
    assert_eq!(s.compile_line("ab = 1", &mut out, &mut stack), Err(Error::BadAssignment { pos: 3 }));
    assert_eq!(s.compile_line("a+b = 2", &mut out, &mut stack), Err(Error::BadAssignment { pos: 4 }));
    assert_eq!(s.compile_line("ab = 1000000", &mut out, &mut stack), Err(Error::BadAssignment { pos: 3 }));
    assert_eq!(s.compile_line("  1 == 2", &mut out, &mut stack), Err(Error::BadAssignment { pos: 4 }));
    assert_eq!(s.compile_line("\u{e9} = 1", &mut out, &mut stack), Err(Error::BadAssignment { pos: 3 }));
    assert_eq!(
        s.compile_line("\u{a0}y = 1", &mut out, &mut stack),
        Err(Error::UnexpectedByte { pos: 0, byte: 0xC2 })
    );
    assert_eq!(s.compile_line("x+1", &mut out, &mut stack), Ok(Line::Expression(19)));
    assert_eq!(text_of(&out[..19]).unwrap(), "5 1 +");
}

#[test]
fn every_compile_error_variant_occurs() {
    let cfg = Config::new();
    let mut stack = vec![0u8; cfg.scratch_len()];
    let mut out = [0u8; 256];
    let mut run = |src: &str| compile_into(&cfg, &NoResolve, src, &mut out, &mut stack);
    assert_eq!(run("2#"), Err(Error::UnexpectedByte { pos: 1, byte: b'#' }));
    assert_eq!(run("2+)"), Err(Error::UnexpectedToken { pos: 2 }));
    assert_eq!(run("cos x"), Err(Error::ExpectedLparen { pos: 4 }));
    assert_eq!(run("sin(x"), Err(Error::ExpectedRparen { pos: 5 }));
    assert_eq!(run("foo"), Err(Error::UnknownIdentifier { pos: 0 }));
    assert_eq!(run("1e999"), Err(Error::InvalidNumber { pos: 0 }));
    assert_eq!(run("sin"), Err(Error::ExpectedLparen { pos: 3 }));
    assert_eq!(run("x_2"), Err(Error::UnexpectedToken { pos: 1 }));
    let mut small = [0u8; 4];
    assert_eq!(
        compile_into(&cfg, &NoResolve, "1", &mut out, &mut small),
        Err(Error::ScratchTooSmall { needed: 544, got: 4 })
    );
}

#[test]
fn scratch_len_formula() {
    assert_eq!(Config::new().scratch_len(), 544);
    assert_eq!(Config::new().max_depth(10).scratch_len(), 72);
    assert_eq!(Config::default().get_output_limit(), 10240);
    assert_eq!(Config::new().output_limit(7).get_output_limit(), 7);
}

#[test]
fn unary_and_postfix_edges() {
    let cfg = Config::new();
    let mut stack = vec![0u8; cfg.scratch_len()];
    let mut out = [0u8; 256];
    let n = compile_into(&cfg, &NoResolve, "--x", &mut out, &mut stack).unwrap();
    assert_eq!(text_of(&out[..n]).unwrap(), "x neg neg");
    let n = compile_into(&cfg, &NoResolve, "2^-x^2", &mut out, &mut stack).unwrap();
    assert_eq!(text_of(&out[..n]).unwrap(), "2 x 2 ^ neg ^");
    let n = compile_into(&cfg, &NoResolve, "log(8)_2^3", &mut out, &mut stack).unwrap();
    assert_eq!(text_of(&out[..n]).unwrap(), "8 log 2 logb 3 ^");
}

#[test]
fn readme_session_example() {
    let mut s = Session::<256>::new(Config::new());
    let mut stack = vec![0u8; Config::new().scratch_len()];
    s.compile_line("a = 6", &mut [], &mut stack).unwrap();
    s.compile_line("b = 7", &mut [], &mut stack).unwrap();
    s.compile_line("x = a*b", &mut [], &mut stack).unwrap();
    let mut out = [0u8; 128];
    let n = s.compile("x+1", &mut out, &mut stack).unwrap();
    assert_eq!(text_of(&out[..n]).unwrap(), "42 1 +");
}

#[test]
fn compiled_bytecode_always_decodes() {
    let cfg = Config::new();
    let mut stack = vec![0u8; cfg.scratch_len()];
    let sources = ["3x+2", "atan(2)x + log(8)_2", "-(x+1)*(2-x)^3", "e*pi*2", "1/2/3/4/x/y", "x^2^3^4"];
    for src in sources {
        let mut out = [0u8; 512];
        let n = compile_into(&cfg, &NoResolve, src, &mut out, &mut stack).unwrap();
        assert!(text_of(&out[..n]).is_ok(), "{src}");
    }
    let mut out = [0u8; 512];
    let n = compile_into(&cfg, &NoResolve, "atan(2)x + log(8)_2", &mut out, &mut stack).unwrap();
    assert_eq!(text_of(&out[..n]).unwrap(), "2 atan x * 8 log 2 logb +");
}

#[test]
fn output_room_is_respected() {
    let cfg = Config::new().output_limit(20);
    let mut stack = vec![0u8; cfg.scratch_len()];
    let mut big = [0xAAu8; 64];
    assert_eq!(
        compile_into(&cfg, &NoResolve, "1+2+3", &mut big, &mut stack),
        Err(Error::OutputLimitExceeded)
    );
    assert!(big[20..].iter().all(|&b| b == 0xAA));
    let mut small = [0xAAu8; 12];
    assert_eq!(
        compile_into(&cfg, &NoResolve, "1+2", &mut small, &mut stack),
        Err(Error::BufferTooSmall)
    );
    let mut decoded = [0u8; 2];
    let mut code = [0u8; 64];
    let n = compile_into(&Config::new(), &NoResolve, "123", &mut code, &mut stack).unwrap();
    assert_eq!(decode_into(&code[..n], &mut decoded), Err(Error::BufferTooSmall));
}

#[test]
fn compiling_over_stored_definitions_never_recurses() {
    let (mut s, mut stack) = session();
    assert!(s.define(b'a', "b+c", &mut stack).is_ok());
    assert!(s.define(b'b', "c*2", &mut stack).is_ok());
    assert!(s.define(b'c', "x+1", &mut stack).is_ok());
    assert_eq!(s.define(b'x', "a", &mut stack), Err(Error::RecursiveDefinition { var: b'x' }));
    for src in ["a", "a*b*c", "a+a+a", "(a)^b", "c-b-a"] {
        match compiled(&s, &mut stack, src) {
            Err(Error::RecursiveDefinition { .. }) => panic!("{src} recursed"),
            r => assert!(r.is_ok(), "{src}: {r:?}"),
        }
    }
    assert_eq!(compiled(&s, &mut stack, "a").unwrap(), "x 1 + 2 * x 1 + +");
}

#[test]
fn sibling_groups_do_not_add_up() {
    let cfg = Config::new().max_depth(2);
    let mut out = [0u8; 64];
    let mut stack = vec![0u8; cfg.scratch_len()];
    assert_eq!(compile_into_ex(&cfg, &NoResolve, "(x)", &mut out, &mut stack, true), Ok(2));
    assert_eq!(compile_into_ex(&cfg, &NoResolve, "(x)+(y)", &mut out, &mut stack, true), Ok(5));
    assert_eq!(out[..5], [0x02, b'x', 0x02, b'y', 0x10]);
    assert!(compile_into_ex(&cfg, &NoResolve, "x^2 + x^2", &mut out, &mut stack, true).is_ok());
    assert!(compile_into_ex(&cfg, &NoResolve, "-x + -y + -x", &mut out, &mut stack, true).is_ok());
    assert!(compile_into_ex(&cfg, &NoResolve, "log(8)_2 + log(4)_2", &mut out, &mut stack, true).is_ok());
    assert!(compile_into_ex(&cfg, &NoResolve, "sin(x) + cos(x) + (1)", &mut out, &mut stack, true).is_ok());
    assert_eq!(compile_into_ex(&cfg, &NoResolve, "((x))", &mut out, &mut stack, true), Err(Error::TooDeep));
}

#[test]
fn default_scratch_holds_the_deepest_pending_chain() {
    let cfg = Config::new();
    let src = format!("{}x{}", "1+2*(".repeat(91), ")".repeat(91));
    let mut out = vec![0u8; 10240];
    let mut stack = vec![0u8; cfg.scratch_len()];
    assert_eq!(compile_into_ex(&cfg, &NoResolve, &src, &mut out, &mut stack, true), Ok(1822));
    let src = format!("{}x{}", "1+2*(".repeat(127), ")".repeat(127));
    assert!(compile_into_ex(&cfg, &NoResolve, &src, &mut out, &mut stack, true).is_ok());
    let src = format!("{}x{}", "1+2*sin(".repeat(127), ")".repeat(127));
    assert!(compile_into_ex(&cfg, &NoResolve, &src, &mut out, &mut stack, true).is_ok());
    let src = format!("{}x{}", "1+2*(".repeat(128), ")".repeat(128));
    assert_eq!(compile_into_ex(&cfg, &NoResolve, &src, &mut out, &mut stack, true), Err(Error::TooDeep));
}

#[test]
fn short_scratch_is_left_untouched() {
    let cfg = Config::new();
    let mut out = [7u8; 16];
    let mut stack = [9u8; 100];
    assert_eq!(
        compile_into_ex(&cfg, &NoResolve, "1+2", &mut out, &mut stack, true),
        Err(Error::ScratchTooSmall { needed: 544, got: 100 })
    );
    assert!(stack.iter().all(|&b| b == 9));
    assert!(out.iter().all(|&b| b == 7));
}

#[test]
fn without_substitution_definitions_are_not_consulted() {
    let (mut s, mut stack) = session();
    s.compile_line("x = 2+3", &mut [], &mut stack).unwrap();
    let cfg = Config::new();
    let mut a = [0u8; 64];
    let mut b = [0u8; 64];
    let n = compile_into_ex(&cfg, &s, "x*y", &mut a, &mut stack, false).unwrap();
    let m = compile_into_ex(&cfg, &NoResolve, "x*y", &mut b, &mut stack, false).unwrap();
    assert_eq!(a[..n], b[..m]);
    assert_eq!(a[..n], [0x02, b'x', 0x02, b'y', 0x12]);
    let k = compile_into_ex(&cfg, &s, "x*y", &mut a, &mut stack, true).unwrap();
    assert_eq!(text_of(&a[..k]).unwrap(), "5 y *");
}

#[test]
fn room_only_cuts_short() {
    let roomy = Config::new().output_limit(usize::MAX);
    let mut stack = vec![0u8; roomy.scratch_len()];
    let mut big = [0u8; 256];
    let n = compile_into(&roomy, &NoResolve, "1+2+3", &mut big, &mut stack).unwrap();
    assert_eq!(n, 29);
    let mut fits = [0u8; 29];
    let tight = Config::new().output_limit(29);
    assert_eq!(compile_into(&tight, &NoResolve, "1+2+3", &mut fits, &mut stack), Ok(29));
    assert_eq!(fits[..], big[..29]);
    let mut buf = [0u8; 64];
    assert_eq!(
        compile_into(&Config::new().output_limit(28), &NoResolve, "1+2+3", &mut buf, &mut stack),
        Err(Error::OutputLimitExceeded)
    );
    let mut small = [0u8; 28];
    assert_eq!(
        compile_into(&Config::new(), &NoResolve, "1+2+3", &mut small, &mut stack),
        Err(Error::BufferTooSmall)
    );
}

#[test]
fn only_the_tokens_matter() {
    let cfg = Config::new();
    let mut stack = vec![0u8; cfg.scratch_len()];
    let mut a = [0u8; 128];
    let mut b = [0u8; 128];
    let n = compile_into(&cfg, &NoResolve, "3x+2sin(x)", &mut a, &mut stack).unwrap();
    let m = compile_into(&cfg, &NoResolve, "  3 x\t+ 2 sin ( x )\n", &mut b, &mut stack).unwrap();
    assert_eq!(a[..n], b[..m]);
    assert_eq!(compile_into(&cfg, &NoResolve, "3x+", &mut a, &mut stack), Err(Error::UnexpectedToken { pos: 3 }));
    assert_eq!(compile_into(&cfg, &NoResolve, " 3 x + ", &mut b, &mut stack), Err(Error::UnexpectedToken { pos: 7 }));
}

#[test]
fn decoding_may_fill_any_buffer() {
    let mut rpn = vec![0x02, b'x'];
    for _ in 0..4000 {
        rpn.extend_from_slice(&[0x02, b'x', 0x10]);
    }
    let mut text = vec![0u8; 16001];
    assert_eq!(decode_into(&rpn, &mut text), Ok(16001));
    assert_eq!(&text[..8], b"x x + x ");
    let mut short = vec![0u8; 16000];
    assert_eq!(decode_into(&rpn, &mut short), Err(Error::BufferTooSmall));
}

#[test]
fn a_new_session_compiles_as_no_resolver() {
    let (s, mut stack) = session();
    for src in ["x+y", "2e*pi", "sin(x)^2", "(a"] {
        let mut a = [0u8; 128];
        let mut b = [0u8; 128];
        let r1 = s.compile(src, &mut a, &mut stack);
        let r2 = compile_into(&Config::new(), &NoResolve, src, &mut b, &mut stack);
        assert_eq!(r1, r2);
        if let Ok(n) = r1 {
            assert_eq!(a[..n], b[..n]);
        }
    }
}

#[test]
fn defined_letters_follow_the_history() {
    let (mut s, mut stack) = session();
    assert!(s.define(b'x', "1+", &mut stack).is_err());
    assert!(!s.is_defined(b'x'));
    assert!(s.define(b'x', "2", &mut stack).is_ok());
    assert!(s.define(b'x', "2+", &mut stack).is_err());
    assert!(s.is_defined(b'x'));
    assert!(s.define(b'y', "x", &mut stack).is_ok());
    assert!(s.undefine(b'x'));
    assert!(!s.is_defined(b'x'));
    assert!(s.is_defined(b'y'));
    assert!(!s.undefine(b'x'));
    assert!(!s.is_defined(b'A') && !s.is_defined(b'{') && !s.is_defined(0));
    assert_eq!(s.defined_count(), 1);
}

#[test]
fn white_space_between_tokens_is_ignored() {
    let cfg = Config::new();
    let mut stack = vec![0u8; cfg.scratch_len()];
    for (src, spaced) in [("2e+x", "2 e+x"), ("3x+2", "3x+2 \n\t"), ("sin(x)", " sin\t(x)"), ("1.5e3", "\r1.5e3")] {
        let mut a = [0u8; 128];
        let mut b = [0u8; 128];
        let n = compile_into(&cfg, &NoResolve, src, &mut a, &mut stack).unwrap();
        let m = compile_into(&cfg, &NoResolve, spaced, &mut b, &mut stack).unwrap();
        assert_eq!(a[..n], b[..m], "{src:?} / {spaced:?}");
    }
}

#[test]
fn joining_two_expressions_never_deepens() {
    let cfg = Config::new().max_depth(65);
    let mut stack = vec![0u8; cfg.scratch_len()];
    let mut out = vec![0u8; 4096];
    let a = format!("{}x{}", "(".repeat(64), ")".repeat(64));
    let b = format!("{}y{}", "2^(".repeat(32), ")".repeat(32));
    assert!(compile_into(&cfg, &NoResolve, &a, &mut out, &mut stack).is_ok());
    assert!(compile_into(&cfg, &NoResolve, &b, &mut out, &mut stack).is_ok());
    assert!(compile_into(&cfg, &NoResolve, &format!("{a} + {b}"), &mut out, &mut stack).is_ok());
    assert!(compile_into(&cfg, &NoResolve, &format!("{b} + {a} + {b}"), &mut out, &mut stack).is_ok());
}
