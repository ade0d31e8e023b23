use bstseal::error::CodecError;
use bstseal::utils::{read_varint_u64, write_varint_u64};

fn written(value: u64) -> Vec<u8> {
    let mut out = Vec::new();
    let n = write_varint_u64(&mut out, value);
    assert_eq!(n, out.len());
    out
}

#[test]
fn varint_bytes_of_small_and_large_values() {
    assert_eq!(written(0), vec![0x00]);
    assert_eq!(written(127), vec![0x7F]);
    assert_eq!(written(128), vec![0x80, 0x01]);
    assert_eq!(written(300), vec![0xAC, 0x02]);
    assert_eq!(written(16384), vec![0x80, 0x80, 0x01]);
    assert_eq!(
        written(u64::MAX),
        vec![0xFF, 0xFF, 0xFF, 0xFF, 0xFF, 0xFF, 0xFF, 0xFF, 0xFF, 0x01]
    );
}

#[test]
fn varint_write_appends_to_what_is_there() {
    let mut out = vec![9u8, 8];
    let n = write_varint_u64(&mut out, 300);
    assert_eq!(n, 2);
    assert_eq!(out, vec![9, 8, 0xAC, 0x02]);
}

#[test]
fn varint_read_gives_value_and_bytes_used() {
    assert_eq!(read_varint_u64(&[0x05, 0xAA]), Ok((5, 1)));
    assert_eq!(read_varint_u64(&[0xAC, 0x02, 0xFF]), Ok((300, 2)));
    assert_eq!(read_varint_u64(&[0x80, 0x80, 0x01]), Ok((16384, 3)));
}

#[test]
fn varint_round_trip() {
    let values = [0u64, 1, 127, 128, 255, 256, 4096, 4097, 1 << 21, 1 << 35, u64::MAX - 1, u64::MAX];
    for v in values {
        let mut bytes = written(v);
        let used = bytes.len();
        bytes.extend_from_slice(&[0xFF, 0x00]);
        assert_eq!(read_varint_u64(&bytes), Ok((v, used)));
    }
}

#[test]
fn varint_of_empty_input_is_truncated() {
    assert_eq!(read_varint_u64(&[]), Err(CodecError::Truncated));
}

#[test]
fn varint_that_ends_inside_is_invalid() {
    assert_eq!(read_varint_u64(&[0x80]), Err(CodecError::InvalidVarint));
    assert_eq!(read_varint_u64(&[0xFF, 0xFF, 0xFF]), Err(CodecError::InvalidVarint));
}

#[test]
fn varint_of_more_than_ten_bytes_is_invalid() {
    let mut bytes = vec![0x80u8; 10];
    bytes.push(0x01);
    assert_eq!(read_varint_u64(&bytes), Err(CodecError::InvalidVarint));
}

#[test]
fn varint_tenth_byte_keeps_only_the_bit_that_fits() {
    let bytes = [0xFF, 0xFF, 0xFF, 0xFF, 0xFF, 0xFF, 0xFF, 0xFF, 0xFF, 0x7F];
    assert_eq!(read_varint_u64(&bytes), Ok((u64::MAX, 10)));
}
