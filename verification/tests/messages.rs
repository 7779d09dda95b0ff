use rpn2::{Error, MAX_DEPTH, MAX_RPN};

#[test]
fn message_of_every_error() {
    let cases: Vec<(Error, String)> = vec![
        (Error::UnexpectedByte { pos: 3, byte: 0x0a }, "unexpected byte 0x0a at offset 3".to_string()),
        (Error::UnexpectedByte { pos: 0, byte: 0xff }, "unexpected byte 0xff at offset 0".to_string()),
        (Error::UnexpectedToken { pos: 12 }, "unexpected token at offset 12".to_string()),
        (Error::ExpectedLparen { pos: 7 }, "expected '(' after function name at offset 7".to_string()),
        (
            Error::ExpectedRparen { pos: 100 },
            "expected ')' at offset 100, found end of input or other token".to_string(),
        ),
        (Error::UnknownIdentifier { pos: 9 }, "unknown identifier at offset 9".to_string()),
        (Error::InvalidNumber { pos: 1 }, "invalid number literal at offset 1".to_string()),
        (Error::TooDeep, format!("expression nesting exceeds MAX_DEPTH ({})", MAX_DEPTH)),
        (Error::TooDeep, "expression nesting exceeds MAX_DEPTH (128)".to_string()),
        (
            Error::BufferTooSmall,
            format!("output buffer too small; retry with a larger buffer up to {} bytes", MAX_RPN),
        ),
        (Error::OutputLimitExceeded, "RPN output exceeds the hard limit of 10240 bytes".to_string()),
        (Error::MalformedRpn { offset: 42 }, "malformed RPN stream at offset 42".to_string()),
        (
            Error::ScratchTooSmall { needed: 544, got: 16 },
            "operator-stack scratch is 16 bytes but the configured depth needs 544".to_string(),
        ),
        (Error::RecursiveDefinition { var: b'x' }, "variable x recursively references itself".to_string()),
        (Error::RecursiveDefinition { var: 0xe9 }, "variable \u{e9} recursively references itself".to_string()),
        (
            Error::BadAssignment { pos: 0 },
            "assignment target must be one variable letter at offset 0".to_string(),
        ),
        (Error::EvalStackOverflow, "evaluation value stack exhausted".to_string()),
        (
            Error::FuncUnsupportedOnTarget { func: 0x09 },
            "function/opcode 0x09 needs a libm (build with feature \"std\")".to_string(),
        ),
    ];
    for (e, want) in cases {
        assert_eq!(e.message(), want, "{:?}", e);
    }
}

#[test]
fn message_offsets_print_in_full() {
    assert_eq!(
        Error::MalformedRpn { offset: usize::MAX }.message(),
        format!("malformed RPN stream at offset {}", usize::MAX)
    );
    for pos in [0usize, 9, 10, 99, 100, 1_000_007] {
        assert_eq!(Error::UnexpectedToken { pos }.message(), format!("unexpected token at offset {}", pos));
    }
    for byte in 0..=255u8 {
        assert_eq!(
            Error::UnexpectedByte { pos: 5, byte }.message(),
            format!("unexpected byte 0x{:02x} at offset 5", byte)
        );
    }
}
