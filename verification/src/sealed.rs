//! Sealed streams: an encoded stream with its integrity footer, as it is
//! written to a file or handed across a foreign interface.

use crate::encode::{decode_parallel, encode_parallel, stream_decoding, stream_encoding, stream_storable};
use crate::error::CodecError;
use crate::integrity::{add_footer, footer_intact, footer_payload, verify_footer, with_footer};
use vstd::prelude::*;

verus! {

/// How an operation on a sealed stream ended, as a foreign caller sees it.
#[derive(Debug, Copy, Clone, PartialEq, Eq, Structural)]
pub enum ErrorCode {
    Success,
    NullPointer,
    EncodeFail,
    DecodeFail,
    IntegrityFail,
    AllocFail,
    LicenseError,
}

impl ErrorCode {
    /// The number that stands for this outcome: 0 for success.
    pub fn code(self) -> (n: i32)
        ensures
            n == match self {
                ErrorCode::Success => 0i32,
                ErrorCode::NullPointer => 1i32,
                ErrorCode::EncodeFail => 2i32,
                ErrorCode::DecodeFail => 3i32,
                ErrorCode::IntegrityFail => 4i32,
                ErrorCode::AllocFail => 5i32,
                ErrorCode::LicenseError => 6i32,
            },
    {
        match self {
            ErrorCode::Success => 0,
            ErrorCode::NullPointer => 1,
            ErrorCode::EncodeFail => 2,
            ErrorCode::DecodeFail => 3,
            ErrorCode::IntegrityFail => 4,
            ErrorCode::AllocFail => 5,
            ErrorCode::LicenseError => 6,
        }
    }
}

/// The sealed form of `input`: its encoded stream, then the footer.
pub open spec fn sealed_encoding(input: Seq<u8>) -> Seq<u8> {
    with_footer(stream_encoding(input))
}

/// What opening sealed data gives: `IntegrityFail` where the footer is not
/// intact, else `DecodeFail` where the stream before it does not decode,
/// else the decoded bytes.
pub open spec fn sealed_decoding(data: Seq<u8>) -> Result<Seq<u8>, ErrorCode> {
    if !footer_intact(data) {
        Err(ErrorCode::IntegrityFail)
    } else {
        match stream_decoding(footer_payload(data)) {
            Err(_) => Err(ErrorCode::DecodeFail),
            Ok(bytes) => Ok(bytes),
        }
    }
}

/// Opening what was sealed gives the input back, where every block of the
/// input is read back as it was.
pub proof fn lemma_sealed_round_trip(input: Seq<u8>)
    requires
        stream_storable(input),
    ensures
        sealed_decoding(sealed_encoding(input)) == Ok::<Seq<u8>, ErrorCode>(input),
{
    crate::integrity::lemma_footer_round_trip(stream_encoding(input));
    crate::encode::lemma_stream_round_trip(input);
}

/// Encodes `input` and seals the stream with its footer.
pub fn encode_sealed(input: &[u8]) -> (r: Result<Vec<u8>, ErrorCode>)
    ensures
        match r {
            Ok(sealed) => sealed@ == sealed_encoding(input@),
            Err(_) => false,
        },
{
    let compressed = match encode_parallel(input) {
        Ok(stream) => stream,
        Err(_) => {
            return Err(ErrorCode::EncodeFail);
        },
    };
    Ok(add_footer(compressed.as_slice()))
}

/// Checks the footer of `data` and decodes the stream before it.
pub fn decode_sealed(data: &[u8]) -> (r: Result<Vec<u8>, ErrorCode>)
    ensures
        match r {
            Ok(bytes) => sealed_decoding(data@) == Ok::<Seq<u8>, ErrorCode>(bytes@),
            Err(e) => sealed_decoding(data@) == Err::<Seq<u8>, ErrorCode>(e),
        },
{
    let payload = match verify_footer(data) {
        Ok(payload) => payload,
        Err(_) => {
            return Err(ErrorCode::IntegrityFail);
        },
    };
    match decode_parallel(payload) {
        Ok(bytes) => Ok(bytes),
        Err(_) => Err(ErrorCode::DecodeFail),
    }
}

} // verus!
