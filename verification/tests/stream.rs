use bstseal::block_coder::BLOCK_SIZE;
use bstseal::cache::DecodeCache;
use bstseal::encode::{
    decode_parallel, decode_stream, decode_stream_with, encode_parallel, encode_stream,
    frame_blocks, scan_frames,
};
use bstseal::error::CodecError;

#[test]
fn empty_input_gives_empty_stream_and_back() {
    assert_eq!(encode_parallel(b"").unwrap(), Vec::<u8>::new());
    assert_eq!(encode_stream(b"").unwrap(), Vec::<u8>::new());
    assert_eq!(decode_parallel(b"").unwrap(), Vec::<u8>::new());
    assert_eq!(decode_stream(b"").unwrap(), Vec::<u8>::new());
}

#[test]
fn stream_bytes_are_blocks_behind_their_lengths() {
    assert_eq!(encode_parallel(b"a").unwrap(), vec![2, 0, b'a']);
    assert_eq!(encode_parallel(&[b'a'; 16]).unwrap(), vec![7, 1, 16, 1, b'a', 1, 0, 0]);
    assert_eq!(
        frame_blocks(&vec![vec![0, 1], vec![], vec![9; 3]]),
        vec![2, 0, 1, 0, 3, 9, 9, 9]
    );
}

#[test]
fn long_input_is_cut_into_blocks_of_block_size() {
    let data: Vec<u8> = (0..BLOCK_SIZE * 3 + 123).map(|i| (i % 256) as u8).collect();
    let encoded = encode_parallel(&data).unwrap();
    let ranges = scan_frames(&encoded).unwrap();
    assert_eq!(ranges.len(), 4);
    assert_eq!(decode_parallel(&encoded).unwrap(), data);

    let exact: Vec<u8> = vec![5; BLOCK_SIZE * 2];
    assert_eq!(scan_frames(&encode_parallel(&exact).unwrap()).unwrap().len(), 2);
    let one_more: Vec<u8> = vec![5; BLOCK_SIZE * 2 + 1];
    assert_eq!(scan_frames(&encode_parallel(&one_more).unwrap()).unwrap().len(), 3);
}

#[test]
fn compressible_input_gets_shorter() {
    let data = b"hello hello hello, this is a test of the huffman coding system".repeat(10);
    let encoded = encode_parallel(&data).unwrap();
    assert_eq!(encoded[2], 1);
    assert!(encoded.len() < data.len());
    assert_eq!(decode_parallel(&encoded).unwrap(), data);
}

#[test]
fn stream_is_at_most_four_bytes_a_block_longer_than_the_input() {
    for size in [0usize, 1, 100, BLOCK_SIZE - 1, BLOCK_SIZE, BLOCK_SIZE + 1, 5 * BLOCK_SIZE + 17] {
        let noisy: Vec<u8> = (0..size).map(|i| (i as u32).wrapping_mul(2654435761).to_le_bytes()[3]).collect();
        let flat: Vec<u8> = vec![b'x'; size];
        let blocks = (size + BLOCK_SIZE - 1) / BLOCK_SIZE;
        for data in [noisy, flat] {
            let encoded = encode_parallel(&data).unwrap();
            assert!(encoded.len() <= size + 4 * blocks);
            assert_eq!(decode_parallel(&encoded).unwrap(), data);
        }
    }
}

#[test]
fn two_inputs_put_together_round_trip_wherever_the_second_begins() {
    let x: Vec<u8> = (0..BLOCK_SIZE + 1000).map(|i| (i % 5) as u8).collect();
    let y: Vec<u8> = (0..BLOCK_SIZE * 2 + 7).map(|i| (i % 251) as u8).collect();
    for split in [0usize, 1, 999, BLOCK_SIZE, BLOCK_SIZE + 1000] {
        let mut joined = x[..split].to_vec();
        joined.extend_from_slice(&y);
        let encoded = encode_parallel(&joined).unwrap();
        assert_eq!(decode_parallel(&encoded).unwrap(), joined);
        assert_eq!(decode_stream(&encoded).unwrap(), joined);
    }
}

#[test]
fn scan_finds_where_the_blocks_lie() {
    assert_eq!(scan_frames(&[2, 0, 1, 0, 3, 9, 9, 9]), Ok(vec![(1, 3), (4, 4), (5, 8)]));
    assert_eq!(scan_frames(&[]), Ok(vec![]));
}

#[test]
fn block_that_ends_after_the_stream_is_truncated() {
    assert_eq!(decode_parallel(&[5, 0, 1, 2]), Err(CodecError::Truncated));
    assert_eq!(decode_stream(&[5, 0, 1, 2]), Err(CodecError::Truncated));
    assert_eq!(scan_frames(&[1, 0, 100]), Err(CodecError::Truncated));
}

#[test]
fn bad_length_prefix_in_a_stream() {
    assert_eq!(decode_parallel(&[0x80]), Err(CodecError::InvalidVarint));
    assert_eq!(decode_stream(&[2, 0, 7, 0xFF, 0xFF]), Err(CodecError::InvalidVarint));
}

#[test]
fn fault_in_the_framing_comes_before_a_fault_in_a_block() {
    // the first block has an unknown tag, the second runs past the end
    assert_eq!(decode_parallel(&[1, 7, 5, 0]), Err(CodecError::Truncated));
    assert_eq!(decode_stream(&[1, 7, 5, 0]), Err(CodecError::Truncated));
}

#[test]
fn of_several_bad_blocks_the_first_gives_the_error() {
    // block 0 has an unknown tag, block 1 is empty
    assert_eq!(decode_parallel(&[1, 7, 0]), Err(CodecError::InvalidBlockType));
    assert_eq!(decode_stream(&[1, 7, 0]), Err(CodecError::InvalidBlockType));
    // block 0 is empty, block 1 has an unknown tag
    assert_eq!(decode_parallel(&[0, 1, 7]), Err(CodecError::Truncated));
    assert_eq!(decode_stream(&[0, 1, 7]), Err(CodecError::Truncated));
    // a good block in front changes nothing
    assert_eq!(decode_parallel(&[2, 0, 5, 1, 7, 0]), Err(CodecError::InvalidBlockType));
}

#[test]
fn a_cache_is_shared_by_the_blocks_of_a_stream_and_by_streams() {
    let data = vec![b'q'; BLOCK_SIZE * 4];
    let encoded = encode_stream(&data).unwrap();
    let mut cache = DecodeCache::new();
    assert_eq!(decode_stream_with(&encoded, &mut cache).unwrap(), data);
    assert_eq!(cache.len(), 1);
    assert_eq!(decode_stream_with(&encoded, &mut cache).unwrap(), data);
    assert_eq!(cache.len(), 1);
    let other = vec![b'r'; 50];
    let encoded = encode_stream(&other).unwrap();
    assert_eq!(decode_stream_with(&encoded, &mut cache).unwrap(), other);
    assert_eq!(cache.len(), 2);
}
