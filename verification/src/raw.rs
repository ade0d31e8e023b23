//! Raw blocks: the bytes as they are.

use crate::error::CodecError;
use vstd::prelude::*;

verus! {

/// The payload of a raw block: a copy of `input`.
pub fn encode(input: &[u8]) -> (r: Result<Vec<u8>, CodecError>)
    ensures
        match r {
            Ok(payload) => payload@ == input@,
            Err(_) => false,
        },
{
    Ok(vstd::slice::slice_to_vec(input))
}

/// The bytes of a raw payload: a copy of `input`.
pub fn decode(input: &[u8]) -> (r: Result<Vec<u8>, CodecError>)
    ensures
        match r {
            Ok(bytes) => bytes@ == input@,
            Err(_) => false,
        },
{
    Ok(vstd::slice::slice_to_vec(input))
}

} // verus!
