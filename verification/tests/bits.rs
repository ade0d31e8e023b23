use bstseal::bits::{BitReader, BitWriter};

#[test]
fn writer_packs_most_significant_bit_first_and_pads_with_zeros() {
    let mut w = BitWriter::new();
    w.write(0b101, 3);
    assert_eq!(w.into_bytes(), vec![0xA0]);
}

#[test]
fn writer_crosses_byte_boundaries() {
    let mut w = BitWriter::new();
    w.write(1, 1);
    w.write(0x3FF, 10);
    assert_eq!(w.into_bytes(), vec![0xFF, 0xE0]);

    let mut w = BitWriter::new();
    w.write(0xABCD, 16);
    assert_eq!(w.into_bytes(), vec![0xAB, 0xCD]);
}

#[test]
fn writer_takes_the_low_bits_of_a_wider_value() {
    let mut w = BitWriter::new();
    w.write(0xFFFF, 4);
    w.write(0, 0);
    assert_eq!(w.into_bytes(), vec![0xF0]);
}

#[test]
fn writer_without_bits_gives_no_bytes() {
    assert_eq!(BitWriter::new().into_bytes(), Vec::<u8>::new());
}

#[test]
fn reader_reads_what_the_writer_wrote() {
    let data = [0xA5u8, 0x0F];
    let mut r = BitReader::new(&data);
    assert_eq!(r.read(4), Some(0xA));
    assert_eq!(r.read(8), Some(0x50));
    assert!(r.has_bits(4));
    assert!(!r.has_bits(5));
    assert_eq!(r.peek(4), 0xF);
    assert_eq!(r.peek(8), 0xF0);
    assert_eq!(r.read(8), None);
    assert!(!r.has_bits(1));
    assert_eq!(r.read(1), None);
}

#[test]
fn reader_peek_does_not_move_and_consume_does() {
    let data = [0x12u8, 0x34, 0x56];
    let mut r = BitReader::new(&data);
    assert_eq!(r.peek(16), 0x1234);
    assert_eq!(r.peek(16), 0x1234);
    assert!(r.consume(4));
    assert_eq!(r.peek(16), 0x2345);
    assert!(r.consume(20));
    assert_eq!(r.peek(16), 0);
    assert!(!r.consume(1));
}

#[test]
fn reader_peek_pads_past_the_end_with_zeros() {
    let data = [0xFFu8];
    let r = BitReader::new(&data);
    assert_eq!(r.peek(16), 0xFF00);
    let empty: [u8; 0] = [];
    let r = BitReader::new(&empty);
    assert_eq!(r.peek(16), 0);
    assert_eq!(r.peek(0), 0);
}
