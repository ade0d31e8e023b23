use bstseal::error::CodecError;
use bstseal::huff::{decode, encode, parse_lengths, CanonicalCode};
use bstseal::lengths::{code_lengths_of, kraft_of};

fn lengths_with(pairs: &[(u8, u8)]) -> [u8; 256] {
    let mut lengths = [0u8; 256];
    for &(s, l) in pairs {
        lengths[s as usize] = l;
    }
    lengths
}

#[test]
fn canonical_codes_follow_the_recurrence() {
    // the lengths 3,3,3,3,3,2,4,4 give 010,011,100,101,110,00,1110,1111
    let lengths = lengths_with(&[(0, 3), (1, 3), (2, 3), (3, 3), (4, 3), (5, 2), (6, 4), (7, 4)]);
    let book = CanonicalCode::from_lengths(&lengths).unwrap();
    let expected: [(u16, u8); 8] =
        [(2, 3), (3, 3), (4, 3), (5, 3), (6, 3), (0, 2), (14, 4), (15, 4)];
    for s in 0..8u8 {
        assert_eq!(book.get_code(s), expected[s as usize]);
    }
    assert_eq!(book.get_code(8), (0, 0));
    assert_eq!(kraft_of(&lengths), 32768);
}

#[test]
fn from_lengths_refuses_a_length_above_the_limit() {
    let lengths = lengths_with(&[(10, 16)]);
    assert_eq!(CanonicalCode::from_lengths(&lengths).err(), Some(CodecError::OversizedCode));
    let lengths = lengths_with(&[(10, 15)]);
    assert!(CanonicalCode::from_lengths(&lengths).is_ok());
}

#[test]
fn fast_table_maps_every_pattern_that_begins_with_a_code() {
    let lengths = lengths_with(&[(b'a', 2), (b'b', 2), (b'c', 1)]);
    let book = CanonicalCode::from_lengths(&lengths).unwrap();
    // c = 0, a = 10, b = 11
    for pattern in [0x0000u16, 0x1234, 0x7FFF] {
        let e = book.fast_entry(pattern);
        assert_eq!((e.symbol, e.len), (b'c', 1));
    }
    for pattern in [0x8000u16, 0xA5A5, 0xBFFF] {
        let e = book.fast_entry(pattern);
        assert_eq!((e.symbol, e.len), (b'a', 2));
    }
    for pattern in [0xC000u16, 0xFFFF] {
        let e = book.fast_entry(pattern);
        assert_eq!((e.symbol, e.len), (b'b', 2));
    }
}

#[test]
fn sparse_book_leaves_patterns_without_a_code_empty() {
    let lengths = lengths_with(&[(7, 2)]);
    let book = CanonicalCode::from_lengths(&lengths).unwrap();
    let hit = book.fast_entry(0x3FFF);
    assert_eq!((hit.symbol, hit.len), (7, 2));
    assert_eq!(book.fast_entry(0x4000).len, 0);
    assert_eq!(book.fast_entry(0xFFFF).len, 0);
}

#[test]
fn a_code_that_does_not_fit_its_length_is_never_read() {
    // three codes of one bit: the third would be the number 2
    let lengths = lengths_with(&[(0, 1), (1, 1), (2, 1)]);
    let book = CanonicalCode::from_lengths(&lengths).unwrap();
    assert_eq!(book.get_code(2), (2, 1));
    assert_eq!(book.fast_entry(0x0000).symbol, 0);
    assert_eq!(book.fast_entry(0x8000).symbol, 1);
    let mut out = Vec::new();
    decode(&[3, 0, 1, 1, 1, 2, 1, 0b0101_0101], &mut out, Some(8)).unwrap();
    assert_eq!(out, vec![0, 1, 0, 1, 0, 1, 0, 1]);
}

#[test]
fn new_gives_no_code_without_symbols_and_one_bit_to_a_single_symbol() {
    let freqs = [0u64; 256];
    let book = CanonicalCode::new(&freqs).unwrap();
    for s in 0..=255u8 {
        assert_eq!(book.get_code(s), (0, 0));
    }
    let mut freqs = [0u64; 256];
    freqs[b'a' as usize] = 4;
    let book = CanonicalCode::new(&freqs).unwrap();
    assert_eq!(book.get_code(b'a'), (0, 1));
    assert_eq!(book.get_code(b'b'), (0, 0));
}

#[test]
fn new_merges_the_two_lightest_groups() {
    let mut freqs = [0u64; 256];
    freqs[b'a' as usize] = 1;
    freqs[b'b' as usize] = 1;
    freqs[b'c' as usize] = 2;
    let lengths = code_lengths_of(&freqs);
    assert_eq!(lengths[b'a' as usize], 2);
    assert_eq!(lengths[b'b' as usize], 2);
    assert_eq!(lengths[b'c' as usize], 1);
    let book = CanonicalCode::new(&freqs).unwrap();
    assert_eq!(book.get_code(b'c'), (0, 1));
    assert_eq!(book.get_code(b'a'), (2, 2));
    assert_eq!(book.get_code(b'b'), (3, 2));
}

#[test]
fn new_accepts_the_largest_frequencies() {
    let freqs = [u64::MAX; 256];
    let lengths = code_lengths_of(&freqs);
    assert!(lengths.iter().all(|&l| l == 8));
    assert_eq!(kraft_of(&lengths), 32768);
}

fn fibonacci_freqs(n: usize) -> [u64; 256] {
    let mut freqs = [0u64; 256];
    let (mut a, mut b) = (1u64, 1u64);
    for s in 0..n {
        freqs[s] = a;
        let c = a + b;
        a = b;
        b = c;
    }
    freqs
}

#[test]
fn lengths_are_cut_to_the_limit_and_still_fit_the_code_space() {
    for n in [17usize, 20, 30, 40] {
        let freqs = fibonacci_freqs(n);
        let lengths = code_lengths_of(&freqs);
        for s in 0..256 {
            if s < n {
                assert!(1 <= lengths[s] && lengths[s] <= 15, "symbol {s} of {n}");
            } else {
                assert_eq!(lengths[s], 0);
            }
        }
        assert!(kraft_of(&lengths) <= 32768, "kraft sum for {n} symbols");
        assert!(CanonicalCode::new(&freqs).is_ok());
    }
}

#[test]
fn message_with_skewed_frequencies_round_trips() {
    let freqs = fibonacci_freqs(20);
    let mut message = Vec::new();
    for s in 0..20usize {
        for _ in 0..freqs[s] {
            message.push(s as u8);
        }
    }
    let payload = encode(&message).unwrap();
    assert!(payload.len() < message.len());
    let mut out = Vec::new();
    decode(&payload, &mut out, Some(message.len())).unwrap();
    assert_eq!(out, message);
}

#[test]
fn serialized_codebook_is_count_then_pairs_in_symbol_order() {
    let lengths = lengths_with(&[(b'c', 1), (b'a', 2), (b'b', 2)]);
    let book = CanonicalCode::from_lengths(&lengths).unwrap();
    let mut out = vec![0xEE];
    book.write_lengths(&mut out).unwrap();
    assert_eq!(out, vec![0xEE, 3, b'a', 2, b'b', 2, b'c', 1]);
    let (read, used) = CanonicalCode::read_lengths(&out[1..]).unwrap();
    assert_eq!(used, 7);
    for s in 0..=255u8 {
        assert_eq!(read.get_code(s), book.get_code(s));
    }
}

#[test]
fn read_lengths_takes_the_last_pair_of_a_symbol() {
    let (lengths, used) = parse_lengths(&[2, 5, 3, 5, 4, 99]).unwrap();
    assert_eq!(used, 5);
    assert_eq!(lengths[5], 4);
    assert_eq!(lengths.iter().filter(|&&l| l > 0).count(), 1);
}

#[test]
fn read_lengths_faults() {
    assert_eq!(CanonicalCode::read_lengths(&[]).err(), Some(CodecError::Truncated));
    assert_eq!(CanonicalCode::read_lengths(&[2, 5, 3, 6]).err(), Some(CodecError::Truncated));
    assert_eq!(CanonicalCode::read_lengths(&[1, 5, 16]).err(), Some(CodecError::OversizedCode));
    // a length above the limit is refused even where a later pair replaces it
    assert_eq!(
        CanonicalCode::read_lengths(&[2, 5, 16, 5, 3]).err(),
        Some(CodecError::OversizedCode)
    );
    assert!(CanonicalCode::read_lengths(&[0]).is_ok());
}

#[test]
fn encode_gives_codebook_then_packed_codes() {
    assert_eq!(encode(b"").unwrap(), Vec::<u8>::new());
    assert_eq!(encode(&[b'a'; 16]).unwrap(), vec![1, b'a', 1, 0, 0]);
    // a = 10, b = 11, c = 0: 10 10 11 0 0 0 0 0
    assert_eq!(encode(b"aabccccc").unwrap(), vec![3, b'a', 2, b'b', 2, b'c', 1, 0xAC, 0x00]);
}

#[test]
fn decode_reads_as_many_symbols_as_asked_for() {
    let payload = [3, b'a', 2, b'b', 2, b'c', 1, 0xAC, 0x00];
    let mut out = vec![b'>'];
    decode(&payload, &mut out, Some(8)).unwrap();
    assert_eq!(out, b">aabccccc");
    let mut out = Vec::new();
    decode(&payload, &mut out, Some(3)).unwrap();
    assert_eq!(out, b"aab");
    let mut out = Vec::new();
    decode(&payload, &mut out, Some(0)).unwrap();
    assert_eq!(out, b"");
}

#[test]
fn decode_without_a_count_reads_all_that_the_bits_spell() {
    let payload = [3, b'a', 2, b'b', 2, b'c', 1, 0xAC, 0x00];
    let mut out = Vec::new();
    decode(&payload, &mut out, None).unwrap();
    // the five padding bits spell five more c
    assert_eq!(out, b"aabcccccccccc");
    let mut out = Vec::new();
    decode(&payload, &mut out, Some(100)).unwrap();
    assert_eq!(out, b"aabcccccccccc");
}

#[test]
fn decode_stops_where_the_bits_spell_no_code() {
    // only 00 is a code: the one bits that follow are none
    let payload = [1, 9, 2, 0b0000_1000, 0x00];
    let mut out = Vec::new();
    decode(&payload, &mut out, Some(10)).unwrap();
    assert_eq!(out, vec![9, 9]);
}

#[test]
fn decode_of_nothing_is_nothing() {
    let mut out = vec![1, 2];
    decode(&[], &mut out, Some(5)).unwrap();
    assert_eq!(out, vec![1, 2]);
}

#[test]
fn decode_hands_on_the_faults_of_the_codebook() {
    let mut out = Vec::new();
    assert_eq!(decode(&[3, 1, 1], &mut out, Some(1)), Err(CodecError::Truncated));
    assert_eq!(decode(&[1, 1, 200], &mut out, Some(1)), Err(CodecError::OversizedCode));
    assert!(out.is_empty());
}

#[test]
fn long_codes_are_read_by_the_table_and_at_the_end_bit_by_bit() {
    // fifteen-bit codes next to a one-bit code
    let mut lengths = [0u8; 256];
    lengths[0] = 1;
    for s in 1..=16usize {
        lengths[s] = 15;
    }
    let book = CanonicalCode::from_lengths(&lengths).unwrap();
    let message: Vec<u8> = (0..200u32).map(|i| (i % 17) as u8).collect();
    let mut payload = Vec::new();
    book.write_lengths(&mut payload).unwrap();
    let mut w = bstseal::bits::BitWriter::new();
    for &s in &message {
        let (code, len) = book.get_code(s);
        w.write(code, len);
    }
    payload.extend(w.into_bytes());
    let mut out = Vec::new();
    decode(&payload, &mut out, Some(message.len())).unwrap();
    assert_eq!(out, message);
}
