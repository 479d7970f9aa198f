use vstd::prelude::*;

verus! {

/// Every way in which decoding a GridPulse stream can fail.
#[derive(Debug, Clone, PartialEq, Eq)]
pub enum GridError {
    Truncated { needed: usize, remaining: usize, context: &'static str },
    InvalidMagic { offset: usize },
    InvalidVersion(u8),
    InvalidLength { declared: usize, available: usize, context: &'static str },
    CrcMismatch { expected: u16, actual: u16 },
    UnsupportedFrameKind(u8),
    MissingSession,
    SessionMismatch { expected: u16, actual: u16 },
    FragmentConflict,
    FragmentTooLarge,
    TemplateMissing { id: u16, revision: u8 },
    TemplateMalformed(&'static str),
    MeasurementMalformed(&'static str),
    RouteMalformed(&'static str),
    ScriptMalformed(&'static str),
    UnknownOpcode(u8),
    TlvMalformed(&'static str),
}

} // verus!

verus! {

/// The result of a decoding step.
pub type Result<T> = core::result::Result<T, GridError>;

/// A result with its success value taken by its view.
pub open spec fn view_res<T: View>(r: core::result::Result<T, GridError>) -> core::result::Result<T::V, GridError> {
    match r {
        Ok(v) => Ok(v@),
        Err(e) => Err(e),
    }
}

} // verus!

verus! {

// ---------------------------------------------------------------------
// Text of numbers
// ---------------------------------------------------------------------

/// Calls `String::push`, which std documents as appending the given
/// character to the end of the string: the text grows by exactly that
/// character.
#[verifier::external_body]
pub(crate) fn push_char(s: &mut String, c: char)
    ensures
        final(s)@ == old(s)@.push(c),
{
    s.push(c);
}

/// A lowercase hexadecimal digit.
pub open spec fn hex_digit(n: int) -> char {
    if n < 10 { (48 + n) as char } else { (87 + n) as char }
}

/// The last `w` hexadecimal digits of `n`, zero padded, lowercase.
pub open spec fn hex_text(n: nat, w: nat) -> Seq<char>
    decreases w,
{
    if w == 0 { Seq::empty() } else { hex_text(n / 16, (w - 1) as nat).push(hex_digit((n % 16) as int)) }
}

/// The decimal digits of `n`, with no leading zeros.
pub open spec fn dec_text(n: nat) -> Seq<char>
    decreases n,
{
    if n < 10 { seq![(48 + n) as char] } else { dec_text(n / 10).push((48 + n % 10) as char) }
}

fn hex_char(n: u64) -> (c: char)
    requires
        n < 16,
    ensures
        c == hex_digit(n as int),
{
    let b: u8 = if n < 10 { 48 + n as u8 } else { 87 + n as u8 };
    b as char
}

/// Appends the last `w` hexadecimal digits of `n`.
pub(crate) fn push_hex(s: &mut String, n: u64, w: u64)
    ensures
        final(s)@ == old(s)@ + hex_text(n as nat, w as nat),
    decreases w,
{
    if w > 0 {
        push_hex(s, n / 16, w - 1);
        push_char(s, hex_char(n % 16));
        proof {
            assert(hex_text(n as nat, w as nat) == hex_text((n / 16) as nat, (w - 1) as nat).push(hex_digit((n % 16) as int)));
        }
    }
    proof { assert(final(s)@ =~= old(s)@ + hex_text(n as nat, w as nat)); }
}

/// Appends the decimal digits of `n`.
pub(crate) fn push_decimal(s: &mut String, n: u64)
    ensures
        final(s)@ == old(s)@ + dec_text(n as nat),
    decreases n,
{
    if n >= 10 {
        push_decimal(s, n / 10);
    }
    let b: u8 = 48 + (n % 10) as u8;
    push_char(s, b as char);
    proof { assert(final(s)@ =~= old(s)@ + dec_text(n as nat)); }
}

/// `0x` and four hexadecimal digits.
pub open spec fn hex16_text(n: u16) -> Seq<char> {
    "0x"@ + hex_text(n as nat, 4)
}

/// `0x` and two hexadecimal digits.
pub open spec fn hex8_text(n: u8) -> Seq<char> {
    "0x"@ + hex_text(n as nat, 2)
}

/// The message that describes an error to a person.
pub open spec fn error_text(e: GridError) -> Seq<char> {
    match e {
        GridError::Truncated { needed, remaining, context } => "truncated input in "@ + context@ + ": needed "@
            + dec_text(needed as nat) + ", remaining "@ + dec_text(remaining as nat),
        GridError::InvalidMagic { offset } => "invalid frame magic at offset "@ + dec_text(offset as nat),
        GridError::InvalidVersion(v) => "unsupported gridpulse version "@ + dec_text(v as nat),
        GridError::InvalidLength { declared, available, context } => "invalid length in "@ + context@ + ": declared "@
            + dec_text(declared as nat) + ", available "@ + dec_text(available as nat),
        GridError::CrcMismatch { expected, actual } => "crc mismatch: expected "@ + hex16_text(expected) + ", actual "@
            + hex16_text(actual),
        GridError::UnsupportedFrameKind(k) => "unsupported frame kind "@ + hex8_text(k),
        GridError::MissingSession => "frame requires an open session"@,
        GridError::SessionMismatch { expected, actual } => "session mismatch: expected "@ + hex16_text(expected)
            + ", actual "@ + hex16_text(actual),
        GridError::FragmentConflict => "conflicting fragment for sequence"@,
        GridError::FragmentTooLarge => "fragment reassembly limit exceeded"@,
        GridError::TemplateMissing { id, revision } => "template "@ + hex16_text(id) + "/"@ + dec_text(revision as nat)
            + " is missing"@,
        GridError::TemplateMalformed(m) => "malformed template: "@ + m@,
        GridError::MeasurementMalformed(m) => "malformed measurement: "@ + m@,
        GridError::RouteMalformed(m) => "malformed route message: "@ + m@,
        GridError::ScriptMalformed(m) => "malformed script: "@ + m@,
        GridError::UnknownOpcode(o) => "unknown script opcode "@ + hex8_text(o),
        GridError::TlvMalformed(m) => "malformed tlv: "@ + m@,
    }
}

fn push_hex16(s: &mut String, n: u16)
    ensures
        final(s)@ == old(s)@ + hex16_text(n),
{
    s.append("0x");
    push_hex(s, n as u64, 4);
    proof { assert(final(s)@ =~= old(s)@ + hex16_text(n)); }
}

fn push_hex8(s: &mut String, n: u8)
    ensures
        final(s)@ == old(s)@ + hex8_text(n),
{
    s.append("0x");
    push_hex(s, n as u64, 2);
    proof { assert(final(s)@ =~= old(s)@ + hex8_text(n)); }
}

impl GridError {
    /// The message that describes the error to a person.
    pub fn message(&self) -> (s: String)
        ensures
            s@ == error_text(*self),
    {
        let mut s = String::new();
        match self {
            GridError::Truncated { needed, remaining, context } => {
                s.append("truncated input in ");
                s.append(context);
                s.append(": needed ");
                push_decimal(&mut s, *needed as u64);
                s.append(", remaining ");
                push_decimal(&mut s, *remaining as u64);
            },
            GridError::InvalidMagic { offset } => {
                s.append("invalid frame magic at offset ");
                push_decimal(&mut s, *offset as u64);
            },
            GridError::InvalidVersion(v) => {
                s.append("unsupported gridpulse version ");
                push_decimal(&mut s, *v as u64);
            },
            GridError::InvalidLength { declared, available, context } => {
                s.append("invalid length in ");
                s.append(context);
                s.append(": declared ");
                push_decimal(&mut s, *declared as u64);
                s.append(", available ");
                push_decimal(&mut s, *available as u64);
            },
            GridError::CrcMismatch { expected, actual } => {
                s.append("crc mismatch: expected ");
                push_hex16(&mut s, *expected);
                s.append(", actual ");
                push_hex16(&mut s, *actual);
            },
            GridError::UnsupportedFrameKind(k) => {
                s.append("unsupported frame kind ");
                push_hex8(&mut s, *k);
            },
            GridError::MissingSession => {
                s.append("frame requires an open session");
            },
            GridError::SessionMismatch { expected, actual } => {
                s.append("session mismatch: expected ");
                push_hex16(&mut s, *expected);
                s.append(", actual ");
                push_hex16(&mut s, *actual);
            },
            GridError::FragmentConflict => {
                s.append("conflicting fragment for sequence");
            },
            GridError::FragmentTooLarge => {
                s.append("fragment reassembly limit exceeded");
            },
            GridError::TemplateMissing { id, revision } => {
                s.append("template ");
                push_hex16(&mut s, *id);
                s.append("/");
                push_decimal(&mut s, *revision as u64);
                s.append(" is missing");
            },
            GridError::TemplateMalformed(m) => {
                s.append("malformed template: ");
                s.append(m);
            },
            GridError::MeasurementMalformed(m) => {
                s.append("malformed measurement: ");
                s.append(m);
            },
            GridError::RouteMalformed(m) => {
                s.append("malformed route message: ");
                s.append(m);
            },
            GridError::ScriptMalformed(m) => {
                s.append("malformed script: ");
                s.append(m);
            },
            GridError::UnknownOpcode(o) => {
                s.append("unknown script opcode ");
                push_hex8(&mut s, *o);
            },
            GridError::TlvMalformed(m) => {
                s.append("malformed tlv: ");
                s.append(m);
            },
        }
        proof { assert(s@ =~= error_text(*self)); }
        s
    }
}

} // verus!
