use bstseal::block_coder::BLOCK_SIZE;
use bstseal::encode::{decode_parallel, decode_stream, encode_parallel, encode_stream};

fn run_roundtrip_test(original_data: &[u8]) {
    let encoded_data = encode_parallel(original_data).expect("Encoding failed");
    let decoded_data = decode_parallel(&encoded_data).expect("Decoding failed");
    assert_eq!(original_data, decoded_data, "Roundtrip failed!");
}

#[test]
fn test_parallel_roundtrip_empty() {
    run_roundtrip_test(&[]);
}

#[test]
fn test_parallel_roundtrip_small() {
    run_roundtrip_test(b"hello world");
}

#[test]
fn test_parallel_roundtrip_one_block() {
    let data: Vec<u8> = (0..BLOCK_SIZE).map(|i| (i % 256) as u8).collect();
    run_roundtrip_test(&data);
}

#[test]
fn test_parallel_roundtrip_multiple_blocks() {
    let data: Vec<u8> = (0..BLOCK_SIZE * 3 + 123).map(|i| (i % 256) as u8).collect();
    run_roundtrip_test(&data);
}

#[test]
fn test_parallel_roundtrip_incompressible() {
    // Use random data which is unlikely to be compressible
    let data: Vec<u8> = (0..BLOCK_SIZE * 2).map(|_| rand::random::<u8>()).collect();
    run_roundtrip_test(&data);
}

#[test]
fn test_parallel_roundtrip_compressible() {
    let data = vec![b'a'; BLOCK_SIZE * 2];
    run_roundtrip_test(&data);
}

#[test]
fn sequential_and_parallel_streams_are_the_same_bytes() {
    let data: Vec<u8> = (0..BLOCK_SIZE * 2 + 77).map(|i| (i % 7) as u8).collect();
    let a = encode_stream(&data).unwrap();
    let b = encode_parallel(&data).unwrap();
    assert_eq!(a, b);
    assert_eq!(decode_stream(&a).unwrap(), data);
    assert_eq!(decode_parallel(&a).unwrap(), data);
}
