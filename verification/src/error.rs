//! The faults that the codec reports.

use vstd::prelude::*;

verus! {

/// Why an operation of the codec failed.
#[derive(Clone, Copy, Debug, PartialEq, Eq, Structural)]
pub enum CodecError {
    /// A length prefix runs past ten bytes, or the input ends inside one.
    InvalidVarint,
    /// The input ends before the data it announces.
    Truncated,
    /// A block starts with a tag byte other than 0 or 1.
    InvalidBlockType,
    /// A serialized code length is larger than 15.
    OversizedCode,
    /// Memory for the result could not be had.
    AllocFailure,
}

impl CodecError {
    /// A short description of the fault.
    pub fn message(&self) -> (s: &'static str)
        ensures
            s@ == match *self {
                CodecError::InvalidVarint => "invalid varint"@,
                CodecError::Truncated => "truncated input"@,
                CodecError::InvalidBlockType => "invalid block type"@,
                CodecError::OversizedCode => "code length exceeds 15"@,
                CodecError::AllocFailure => "allocation failed"@,
            },
    {
        match self {
            CodecError::InvalidVarint => "invalid varint",
            CodecError::Truncated => "truncated input",
            CodecError::InvalidBlockType => "invalid block type",
            CodecError::OversizedCode => "code length exceeds 15",
            CodecError::AllocFailure => "allocation failed",
        }
    }
}

} // verus!
