//! One block: Huffman where that is shorter than the bytes themselves, raw
//! otherwise, with a tag byte in front that says which.

use crate::cache::{cache_after, DecodeCache};
use crate::error::CodecError;
use crate::huff::{huffman_decoding, huffman_encoding, lengths_decoding, uses_all_symbols};
use crate::utils::{read_varint_u64, varint_decoding, varint_encoding, write_varint_u64};
use crate::{huff, raw};
use vstd::prelude::*;

verus! {

/// The number of input bytes that a stream puts into one block.
pub const BLOCK_SIZE: usize = 4096;

/// The tag byte of a raw block.
pub const TAG_RAW: u8 = 0;

/// The tag byte of a Huffman block.
pub const TAG_HUFFMAN: u8 = 1;

/// How the payload of a block is encoded.
#[derive(Clone, Copy, Debug, PartialEq, Eq, Structural)]
pub enum BlockType {
    Raw,
    Huffman,
}

impl BlockType {
    /// The block type that a tag byte stands for.
    pub fn try_from(value: u8) -> (r: Result<BlockType, CodecError>)
        ensures
            r == match value {
                0u8 => Ok::<BlockType, CodecError>(BlockType::Raw),
                1u8 => Ok::<BlockType, CodecError>(BlockType::Huffman),
                _ => Err::<BlockType, CodecError>(CodecError::InvalidBlockType),
            },
    {
        match value {
            0 => Ok(BlockType::Raw),
            1 => Ok(BlockType::Huffman),
            _ => Err(CodecError::InvalidBlockType),
        }
    }

    /// The tag byte of this block type.
    pub fn tag(self) -> (t: u8)
        ensures
            t == match self {
                BlockType::Raw => TAG_RAW,
                BlockType::Huffman => TAG_HUFFMAN,
            },
    {
        match self {
            BlockType::Raw => TAG_RAW,
            BlockType::Huffman => TAG_HUFFMAN,
        }
    }
}

/// The encoded form of a block: the Huffman tag, the length of `input` and
/// the Huffman payload where that payload is shorter than `input`; the raw
/// tag and `input` itself otherwise.
pub open spec fn block_encoding(input: Seq<u8>) -> Seq<u8> {
    let payload = huffman_encoding(input);
    if payload.len() < input.len() {
        seq![TAG_HUFFMAN] + varint_encoding(input.len() as u64) + payload
    } else {
        seq![TAG_RAW] + input
    }
}

/// What a decoder makes of an encoded block. A raw block gives its payload.
/// A Huffman block gives the symbols of its payload, as many as its length
/// prefix says; with fewer it is `Truncated`. An empty block is `Truncated`,
/// another tag is `InvalidBlockType`.
#[verifier::opaque]
pub open spec fn block_decoding(block: Seq<u8>) -> Result<Seq<u8>, CodecError> {
    if block.len() == 0 {
        Err(CodecError::Truncated)
    } else if block[0] == TAG_RAW {
        Ok(block.skip(1))
    } else if block[0] == TAG_HUFFMAN {
        match varint_decoding(block.skip(1)) {
            Err(e) => Err(e),
            Ok((n, used)) => match huffman_decoding(block.skip(1 + used as int), n as nat) {
                Err(e) => Err(e),
                Ok(symbols) => if symbols.len() < n {
                    Err(CodecError::Truncated)
                } else {
                    Ok(symbols)
                },
            },
        }
    } else {
        Err(CodecError::InvalidBlockType)
    }
}

/// A block that is read back as it was: one that is stored raw, or in which
/// some byte value does not occur. (A codebook for all 256 byte values holds
/// 0 as its count and is read back as empty.)
pub open spec fn storable(input: Seq<u8>) -> bool {
    !(uses_all_symbols(input) && huffman_encoding(input).len() < input.len())
}

/// Decoding an encoded block gives the block back.
pub proof fn lemma_block_round_trip(input: Seq<u8>)
    requires
        input.len() <= u64::MAX,
        storable(input),
    ensures
        block_decoding(block_encoding(input)) == Ok::<Seq<u8>, CodecError>(input),
{
    reveal(block_decoding);
    let payload = huffman_encoding(input);
    if payload.len() < input.len() {
        let n = input.len() as u64;
        let prefix = varint_encoding(n);
        let block = seq![TAG_HUFFMAN] + prefix + payload;
        crate::utils::lemma_varint_round_trip(n, payload);
        assert(block.skip(1) =~= prefix + payload);
        assert(block.skip(1 + prefix.len() as int) =~= payload);
        crate::huff::lemma_huffman_round_trip(input);
    } else {
        assert((seq![TAG_RAW] + input).skip(1) =~= input);
    }
}

/// An encoded block is at most two bytes longer than the block.
pub proof fn lemma_block_size(input: Seq<u8>)
    requires
        input.len() <= BLOCK_SIZE,
    ensures
        1 <= block_encoding(input).len() <= input.len() + 2,
{
    crate::utils::lemma_varint_encoding_short(input.len() as u64);
}

/// Encodes one block.
pub fn encode_block(input: &[u8]) -> (r: Result<Vec<u8>, CodecError>)
    ensures
        match r {
            Ok(block) => block@ == block_encoding(input@),
            Err(_) => false,
        },
{
    if input.len() == 0 {
        let raw_encoded = raw::encode(input)?;
        let mut final_block: Vec<u8> = Vec::new();
        final_block.push(BlockType::Raw.tag());
        let mut raw_encoded = raw_encoded;
        final_block.append(&mut raw_encoded);
        proof {
            assert(final_block@ =~= block_encoding(input@));
        }
        return Ok(final_block);
    }
    let mut huff_encoded = huff::encode(input)?;
    if huff_encoded.len() < input.len() {
        let mut final_block: Vec<u8> = Vec::new();
        final_block.push(BlockType::Huffman.tag());
        let _ = write_varint_u64(&mut final_block, input.len() as u64);
        final_block.append(&mut huff_encoded);
        Ok(final_block)
    } else {
        let mut raw_encoded = raw::encode(input)?;
        let mut final_block: Vec<u8> = Vec::new();
        final_block.push(BlockType::Raw.tag());
        final_block.append(&mut raw_encoded);
        proof {
            assert(final_block@ =~= block_encoding(input@));
        }
        Ok(final_block)
    }
}

/// The code lengths that a Huffman block carries in front of its bits, if
/// it is one and they can be read.
pub open spec fn block_codebook(block: Seq<u8>) -> Option<Seq<u8>> {
    if block.len() > 0 && block[0] == TAG_HUFFMAN {
        match varint_decoding(block.skip(1)) {
            Err(_) => None,
            Ok((_, used)) => {
                let coded = block.skip(1 + used as int);
                if coded.len() == 0 {
                    None
                } else {
                    match lengths_decoding(coded) {
                        Err(_) => None,
                        Ok((lengths, _)) => Some(lengths),
                    }
                }
            },
        }
    } else {
        None
    }
}

/// The keys of a cache after `block` was decoded with it.
pub open spec fn cache_after_block(keys: Seq<Seq<u8>>, block: Seq<u8>) -> Seq<Seq<u8>> {
    match block_codebook(block) {
        Some(lengths) => cache_after(keys, lengths),
        None => keys,
    }
}

/// Decodes one block.
pub fn decode_block(input: &[u8]) -> (r: Result<Vec<u8>, CodecError>)
    ensures
        match r {
            Ok(bytes) => block_decoding(input@) == Ok::<Seq<u8>, CodecError>(bytes@),
            Err(e) => block_decoding(input@) == Err::<Seq<u8>, CodecError>(e),
        },
{
    let mut cache = DecodeCache::new();
    decode_block_cached(input, &mut cache)
}

/// Decodes one block; the codebook of a Huffman block is taken from `cache`
/// where it is there, and built and put there where it is not.
pub fn decode_block_cached(input: &[u8], cache: &mut DecodeCache) -> (r: Result<Vec<u8>, CodecError>)
    ensures
        match r {
            Ok(bytes) => block_decoding(input@) == Ok::<Seq<u8>, CodecError>(bytes@),
            Err(e) => block_decoding(input@) == Err::<Seq<u8>, CodecError>(e),
        },
        final(cache)@ == cache_after_block(old(cache)@, input@),
{
    reveal(block_decoding);
    if input.len() == 0 {
        return Err(CodecError::Truncated);
    }
    let block_type = BlockType::try_from(input[0])?;
    let payload = vstd::slice::slice_subrange(input, 1, input.len());
    proof {
        assert(payload@ =~= input@.skip(1));
    }
    match block_type {
        BlockType::Raw => raw::decode(payload),
        BlockType::Huffman => {
            let (expected_size, bytes_read) = read_varint_u64(payload)?;
            proof {
                crate::utils::lemma_varint_decoding_used(payload@);
            }
            let coded = vstd::slice::slice_subrange(payload, bytes_read, payload.len());
            proof {
                assert(coded@ =~= input@.skip(1 + bytes_read as int));
            }
            let mut out: Vec<u8> = Vec::new();
            if expected_size > usize::MAX as u64 {
                huff::decode_cached(coded, &mut out, None, cache)?;
                let _ = out.len();
                proof {
                    assert(out@ =~= Seq::<u8>::empty() + out@);
                    if coded@.len() > 0 {
                        let (lengths, used) = lengths_decoding(coded@)->Ok_0;
                        let bits = crate::bits::bits_of(coded@.skip(used as int));
                        crate::codebook::lemma_symbols_of_len(lengths, bits, expected_size as nat);
                        crate::codebook::lemma_symbols_of_len(lengths, bits, 8 * coded@.len());
                        if expected_size <= 8 * coded@.len() {
                            crate::codebook::lemma_symbols_of_monotone(
                                lengths,
                                bits,
                                expected_size as nat,
                                8 * coded@.len(),
                            );
                        }
                    }
                }
                Err(CodecError::Truncated)
            } else {
                huff::decode_cached(coded, &mut out, Some(expected_size as usize), cache)?;
                proof {
                    assert(out@ =~= Seq::<u8>::empty() + out@);
                }
                if (out.len() as u64) < expected_size {
                    Err(CodecError::Truncated)
                } else {
                    Ok(out)
                }
            }
        },
    }
}

} // verus!
