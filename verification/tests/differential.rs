use rpn2::{parse_into, Error as E2, MAX_RPN};

fn run_v2(src: &str) -> Result<Vec<u8>, String> {
    let mut buf = [0u8; MAX_RPN];
    match parse_into(src, &mut buf) {
        Ok(n) => Ok(buf[..n].to_vec()),
        Err(e) => Err(format!("{e:?}")),
    }
}

#[test]
fn wire_format_stability() {
    // Golden vectors: protect the binary format from accidental change.
    assert_same_is_exact_bytes(
        "3x+2",
        &[
            0x01, 0x00, 0x00, 0x00, 0x00, 0x00, 0x00, 0x08, 0x40, // NUM 3
            0x02, b'x', // VAR x
            0x12, // MUL
            0x01, 0x00, 0x00, 0x00, 0x00, 0x00, 0x00, 0x00, 0x40, // NUM 2
            0x10, // ADD
        ],
    );
    let _ = E2::TooDeep; // touch import
}

fn assert_same_is_exact_bytes(src: &str, expected: &[u8]) {
    let got = run_v2(src).expect("parses");
    assert_eq!(got, expected.to_vec(), "golden vector drift for {src:?}");
}
