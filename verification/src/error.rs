//! Errors produced while encoding, decoding, or reassembling PONK data.
use vstd::prelude::*;
use vstd::string::StringExecFns;

verus! {

/// Errors produced while encoding, decoding, or reassembling PONK data.
#[derive(Debug, Clone, Copy, PartialEq, Eq, Structural)]
pub enum PonkError {
    UnsupportedProtocolVersion(u8),
    UnsupportedDataFormat(u8),
    DatagramTooSmall,
    DatagramTooLarge { max: usize, actual: usize },
    MaxDatagramTooSmall { min: usize, actual: usize },
    TooManyChunks(usize),
    TooManyMetadata(usize),
    TooManyPoints(usize),
    TooManyPaths { max: usize },
    TooManyTotalPoints { max: usize },
    FramePayloadTooLarge { max: usize },
    BufferedBytesLimit { max: usize },
    InvalidCoordinate,
    InvalidChunkHeader,
    ConflictingChunk,
    InconsistentSenderName,
    MalformedPayload,
}

/// The text of one decimal digit.
pub open spec fn digit_text(d: nat) -> Seq<char> {
    if d == 0 {
        "0"@
    } else if d == 1 {
        "1"@
    } else if d == 2 {
        "2"@
    } else if d == 3 {
        "3"@
    } else if d == 4 {
        "4"@
    } else if d == 5 {
        "5"@
    } else if d == 6 {
        "6"@
    } else if d == 7 {
        "7"@
    } else if d == 8 {
        "8"@
    } else {
        "9"@
    }
}

/// The decimal text of a number, without leading zeros.
pub open spec fn decimal_text(n: nat) -> Seq<char>
    decreases n,
{
    if n < 10 {
        digit_text(n)
    } else {
        decimal_text(n / 10) + digit_text(n % 10)
    }
}

/// The human-readable description of an error.
pub open spec fn error_text(e: PonkError) -> Seq<char> {
    match e {
        PonkError::UnsupportedProtocolVersion(version) => "unsupported PONK protocol version "@
            + decimal_text(version as nat),
        PonkError::UnsupportedDataFormat(format) => "unsupported PONK data format "@ + decimal_text(
            format as nat,
        ),
        PonkError::DatagramTooSmall => "PONK datagram is too small"@,
        PonkError::DatagramTooLarge { max, actual } => "PONK datagram is "@ + decimal_text(actual as nat)
            + " bytes, max is "@ + decimal_text(max as nat),
        PonkError::MaxDatagramTooSmall { min, actual } => "PONK max datagram size "@ + decimal_text(
            actual as nat,
        ) + " is too small, minimum is "@ + decimal_text(min as nat),
        PonkError::TooManyChunks(count) => "PONK frame needs too many chunks: "@ + decimal_text(
            count as nat,
        ),
        PonkError::TooManyMetadata(count) => "PONK path has too many metadata entries: "@
            + decimal_text(count as nat),
        PonkError::TooManyPoints(count) => "PONK path has too many points: "@ + decimal_text(
            count as nat,
        ),
        PonkError::TooManyPaths { max } => "PONK frame has more than "@ + decimal_text(max as nat)
            + " paths"@,
        PonkError::TooManyTotalPoints { max } => "PONK frame has more than "@ + decimal_text(
            max as nat,
        ) + " total points"@,
        PonkError::FramePayloadTooLarge { max } => "PONK frame payload exceeds "@ + decimal_text(
            max as nat,
        ) + " bytes"@,
        PonkError::BufferedBytesLimit { max } => "PONK reassembly buffer exceeds "@ + decimal_text(
            max as nat,
        ) + " bytes"@,
        PonkError::InvalidCoordinate => "PONK frame contains an invalid coordinate"@,
        PonkError::InvalidChunkHeader => "invalid PONK chunk header"@,
        PonkError::ConflictingChunk => "conflicting PONK chunk duplicate"@,
        PonkError::InconsistentSenderName => "PONK sender name changed within one frame"@,
        PonkError::MalformedPayload => "malformed PONK payload"@,
    }
}

fn digit_str(d: usize) -> (r: &'static str)
    requires
        d < 10,
    ensures
        r@ == digit_text(d as nat),
{
    if d == 0 {
        "0"
    } else if d == 1 {
        "1"
    } else if d == 2 {
        "2"
    } else if d == 3 {
        "3"
    } else if d == 4 {
        "4"
    } else if d == 5 {
        "5"
    } else if d == 6 {
        "6"
    } else if d == 7 {
        "7"
    } else if d == 8 {
        "8"
    } else {
        "9"
    }
}

/// Appends the decimal text of `n`.
fn push_decimal(out: &mut String, n: usize)
    ensures
        final(out)@ == old(out)@ + decimal_text(n as nat),
    decreases n,
{
    if n >= 10 {
        push_decimal(out, n / 10);
    }
    out.append(digit_str(n % 10));
    assert(final(out)@ =~= old(out)@ + decimal_text(n as nat));
}

/// `prefix`, then the decimal text of `n`, then `suffix`.
fn text_with_number(prefix: &str, n: usize, suffix: &str) -> (r: String)
    ensures
        r@ == prefix@ + decimal_text(n as nat) + suffix@,
{
    let mut out = String::from_str(prefix);
    push_decimal(&mut out, n);
    out.append(suffix);
    out
}

impl PonkError {
    /// Describes the error in words, as its display text.
    pub fn message(&self) -> (r: String)
        ensures
            r@ == error_text(*self),
    {
        match *self {
            PonkError::UnsupportedProtocolVersion(version) => {
                let r = text_with_number("unsupported PONK protocol version ", version as usize, "");
                proof {
                    reveal_strlit("");
                }
                assert(r@ =~= error_text(*self));
                r
            },
            PonkError::UnsupportedDataFormat(format) => {
                let r = text_with_number("unsupported PONK data format ", format as usize, "");
                proof {
                    reveal_strlit("");
                }
                assert(r@ =~= error_text(*self));
                r
            },
            PonkError::DatagramTooSmall => String::from_str("PONK datagram is too small"),
            PonkError::DatagramTooLarge { max, actual } => {
                let mut r = text_with_number("PONK datagram is ", actual, " bytes, max is ");
                push_decimal(&mut r, max);
                r
            },
            PonkError::MaxDatagramTooSmall { min, actual } => {
                let mut r = text_with_number("PONK max datagram size ", actual, " is too small, minimum is ");
                push_decimal(&mut r, min);
                r
            },
            PonkError::TooManyChunks(count) => {
                let r = text_with_number("PONK frame needs too many chunks: ", count, "");
                proof {
                    reveal_strlit("");
                }
                assert(r@ =~= error_text(*self));
                r
            },
            PonkError::TooManyMetadata(count) => {
                let r = text_with_number("PONK path has too many metadata entries: ", count, "");
                proof {
                    reveal_strlit("");
                }
                assert(r@ =~= error_text(*self));
                r
            },
            PonkError::TooManyPoints(count) => {
                let r = text_with_number("PONK path has too many points: ", count, "");
                proof {
                    reveal_strlit("");
                }
                assert(r@ =~= error_text(*self));
                r
            },
            PonkError::TooManyPaths { max } => text_with_number("PONK frame has more than ", max, " paths"),
            PonkError::TooManyTotalPoints { max } => text_with_number(
                "PONK frame has more than ",
                max,
                " total points",
            ),
            PonkError::FramePayloadTooLarge { max } => text_with_number("PONK frame payload exceeds ", max, " bytes"),
            PonkError::BufferedBytesLimit { max } => text_with_number(
                "PONK reassembly buffer exceeds ",
                max,
                " bytes",
            ),
            PonkError::InvalidCoordinate => String::from_str("PONK frame contains an invalid coordinate"),
            PonkError::InvalidChunkHeader => String::from_str("invalid PONK chunk header"),
            PonkError::ConflictingChunk => String::from_str("conflicting PONK chunk duplicate"),
            PonkError::InconsistentSenderName => String::from_str("PONK sender name changed within one frame"),
            PonkError::MalformedPayload => String::from_str("malformed PONK payload"),
        }
    }
}

} // verus!
