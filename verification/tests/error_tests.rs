use gridpulse::GridError;

#[test]
fn error_messages() {
    let cases: Vec<(GridError, &str)> = vec![
        (
            GridError::Truncated { needed: 2, remaining: 0, context: "cursor take" },
            "truncated input in cursor take: needed 2, remaining 0",
        ),
        (GridError::InvalidMagic { offset: 1234 }, "invalid frame magic at offset 1234"),
        (GridError::InvalidVersion(9), "unsupported gridpulse version 9"),
        (
            GridError::InvalidLength { declared: 4097, available: 4096, context: "frame payload" },
            "invalid length in frame payload: declared 4097, available 4096",
        ),
        (GridError::CrcMismatch { expected: 0x320c, actual: 0x0a }, "crc mismatch: expected 0x320c, actual 0x000a"),
        (GridError::UnsupportedFrameKind(0x42), "unsupported frame kind 0x42"),
        (GridError::UnsupportedFrameKind(0), "unsupported frame kind 0x00"),
        (GridError::MissingSession, "frame requires an open session"),
        (GridError::SessionMismatch { expected: 1, actual: 0xffff }, "session mismatch: expected 0x0001, actual 0xffff"),
        (GridError::FragmentConflict, "conflicting fragment for sequence"),
        (GridError::FragmentTooLarge, "fragment reassembly limit exceeded"),
        (GridError::TemplateMissing { id: 0x10, revision: 200 }, "template 0x0010/200 is missing"),
        (GridError::TemplateMalformed("too many fields"), "malformed template: too many fields"),
        (GridError::MeasurementMalformed("unsupported field width"), "malformed measurement: unsupported field width"),
        (GridError::RouteMalformed("unknown route opcode"), "malformed route message: unknown route opcode"),
        (GridError::ScriptMalformed("nesting too deep"), "malformed script: nesting too deep"),
        (GridError::UnknownOpcode(0x0a), "unknown script opcode 0x0a"),
        (GridError::TlvMalformed("too many tlv records"), "malformed tlv: too many tlv records"),
    ];
    for (e, text) in cases {
        assert_eq!(e.message(), text);
    }
    assert_eq!(
        GridError::InvalidMagic { offset: usize::MAX }.message(),
        format!("invalid frame magic at offset {}", usize::MAX)
    );
}
