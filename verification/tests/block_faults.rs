use bstseal::block_coder::{decode_block, decode_block_cached, encode_block, BlockType, BLOCK_SIZE};
use bstseal::cache::DecodeCache;
use bstseal::error::CodecError;

#[test]
fn block_bytes_are_tag_length_and_payload() {
    assert_eq!(encode_block(b"").unwrap(), vec![0]);
    assert_eq!(encode_block(b"a").unwrap(), vec![0, b'a']);
    assert_eq!(encode_block(&[b'a'; 16]).unwrap(), vec![1, 16, 1, b'a', 1, 0, 0]);
    // a Huffman payload as long as the input loses to raw
    assert_eq!(encode_block(&[b'a'; 4]).unwrap(), vec![0, b'a', b'a', b'a', b'a']);
    assert_eq!(encode_block(&[b'a'; 5]).unwrap(), vec![1, 5, 1, b'a', 1, 0]);
}

#[test]
fn block_type_tags() {
    assert_eq!(BlockType::try_from(0), Ok(BlockType::Raw));
    assert_eq!(BlockType::try_from(1), Ok(BlockType::Huffman));
    assert_eq!(BlockType::try_from(2), Err(CodecError::InvalidBlockType));
    assert_eq!(BlockType::Raw.tag(), 0);
    assert_eq!(BlockType::Huffman.tag(), 1);
}

#[test]
fn empty_block_is_truncated() {
    assert_eq!(decode_block(&[]), Err(CodecError::Truncated));
}

#[test]
fn unknown_tag_is_invalid_block_type() {
    assert_eq!(decode_block(&[2, 1, 2, 3]), Err(CodecError::InvalidBlockType));
    assert_eq!(decode_block(&[255]), Err(CodecError::InvalidBlockType));
}

#[test]
fn huffman_block_with_bad_length_prefix() {
    assert_eq!(decode_block(&[1]), Err(CodecError::Truncated));
    assert_eq!(decode_block(&[1, 0x80]), Err(CodecError::InvalidVarint));
}

#[test]
fn huffman_block_with_too_few_symbols_is_truncated() {
    assert_eq!(decode_block(&[1, 20, 1, b'a', 1, 0, 0]), Err(CodecError::Truncated));
    assert_eq!(decode_block(&[1, 16, 1, b'a', 1, 0, 0]), Ok(vec![b'a'; 16]));
    assert_eq!(decode_block(&[1, 3]), Err(CodecError::Truncated));
    assert_eq!(decode_block(&[1, 0]), Ok(vec![]));
    // a length that no buffer can hold
    let huge = [1, 0xFF, 0xFF, 0xFF, 0xFF, 0xFF, 0xFF, 0xFF, 0xFF, 0xFF, 0x01, 1, b'a', 1, 0];
    assert_eq!(decode_block(&huge), Err(CodecError::Truncated));
}

#[test]
fn huffman_block_with_bad_codebook() {
    assert_eq!(decode_block(&[1, 16, 1, b'a', 16, 0, 0]), Err(CodecError::OversizedCode));
    assert_eq!(decode_block(&[1, 16, 5, b'a', 1]), Err(CodecError::Truncated));
}

#[test]
fn raw_block_is_its_payload() {
    assert_eq!(decode_block(&[0]), Ok(vec![]));
    assert_eq!(decode_block(&[0, 1, 0, 255]), Ok(vec![1, 0, 255]));
}

#[test]
fn random_bytes_are_stored_raw() {
    for size in [256usize, 1000, BLOCK_SIZE] {
        let data: Vec<u8> = (0..size).map(|_| rand::random::<u8>()).collect();
        let encoded = encode_block(&data).unwrap();
        assert_eq!(encoded[0], BlockType::Raw as u8);
        assert_eq!(encoded.len(), size + 1);
        assert_eq!(decode_block(&encoded).unwrap(), data);
    }
}

#[test]
fn block_with_every_byte_value_is_not_read_back_when_it_compresses() {
    // 3841 zeros and each other byte value once: the codebook has 256 pairs,
    // and its count byte holds 0
    let mut data = vec![0u8; BLOCK_SIZE - 255];
    data.extend(1..=255u8);
    let encoded = encode_block(&data).unwrap();
    assert_eq!(encoded[0], BlockType::Huffman as u8);
    assert_eq!(encoded[3], 0);
    assert_eq!(decode_block(&encoded), Err(CodecError::Truncated));
}

#[test]
fn cached_decoding_gives_what_plain_decoding_gives() {
    let mut cache = DecodeCache::new();
    let a = encode_block(&b"abracadabra abracadabra abracadabra".repeat(4)).unwrap();
    let b = encode_block(&[b'z'; 100]).unwrap();
    for _ in 0..3 {
        assert_eq!(decode_block_cached(&a, &mut cache), decode_block(&a));
        assert_eq!(decode_block_cached(&b, &mut cache), decode_block(&b));
        assert_eq!(decode_block_cached(&[0, 1, 2], &mut cache), Ok(vec![1, 2]));
        assert_eq!(decode_block_cached(&[9], &mut cache), Err(CodecError::InvalidBlockType));
    }
    assert_eq!(cache.len(), 2);
}
