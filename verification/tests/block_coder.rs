use bstseal::block_coder::{decode_block, encode_block, BlockType};

#[test]
fn test_encode_decode_roundtrip_compressible() {
    let data = b"hello hello hello, this is a test of the huffman coding system".repeat(10);
    let encoded = encode_block(&data).unwrap();
    let decoded = decode_block(&encoded).unwrap();
    assert_eq!(data.as_slice(), decoded.as_slice());
    // Check that it chose Huffman
    assert_eq!(encoded[0], BlockType::Huffman as u8);
}

#[test]
fn test_encode_decode_roundtrip_incompressible() {
    // This data is random and should not be compressible
    let data: Vec<u8> = (0..1024).map(|i| (i * 13 % 256) as u8).collect();
    let encoded = encode_block(&data).unwrap();
    let decoded = decode_block(&encoded).unwrap();
    assert_eq!(data, decoded);
    // Check that it chose Raw
    assert_eq!(encoded[0], BlockType::Raw as u8);
}

#[test]
fn test_empty_block() {
    let data = b"";
    let encoded = encode_block(data).unwrap();
    let decoded = decode_block(&encoded).unwrap();
    assert_eq!(data.as_slice(), decoded.as_slice());
    assert_eq!(encoded[0], BlockType::Raw as u8);
}

#[test]
fn test_single_byte_block() {
    let data = b"a";
    let encoded = encode_block(data).unwrap();
    let decoded = decode_block(&encoded).unwrap();
    assert_eq!(data.as_slice(), decoded.as_slice());
    // For a single byte, huffman might be larger due to header
    // The logic should fall back to raw.
    assert_eq!(encoded[0], BlockType::Raw as u8);
}
