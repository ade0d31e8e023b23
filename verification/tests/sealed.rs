use bstseal::encode::encode_parallel;
use bstseal::integrity::{add_footer, verify_footer, IntegrityError};
use bstseal::sealed::{decode_sealed, encode_sealed, ErrorCode};

#[test]
fn sealed_stream_is_the_stream_and_its_footer() {
    let data = b"some bytes to seal, some bytes to seal".repeat(3);
    let sealed = encode_sealed(&data).unwrap();
    assert_eq!(sealed, add_footer(&encode_parallel(&data).unwrap()));
    assert_eq!(decode_sealed(&sealed), Ok(data));
}

#[test]
fn sealed_empty_input() {
    let sealed = encode_sealed(b"").unwrap();
    assert_eq!(sealed.len(), 32);
    assert_eq!(decode_sealed(&sealed), Ok(vec![]));
}

#[test]
fn opening_damaged_data_fails_the_integrity_check() {
    let mut sealed = encode_sealed(b"payload bytes").unwrap();
    sealed[0] ^= 0xAA;
    assert_eq!(decode_sealed(&sealed), Err(ErrorCode::IntegrityFail));
    assert_eq!(decode_sealed(&[0u8; 10]), Err(ErrorCode::IntegrityFail));
}

#[test]
fn opening_an_intact_footer_over_a_bad_stream_fails_the_decoding() {
    let sealed = add_footer(&[1, 7]);
    assert_eq!(decode_sealed(&sealed), Err(ErrorCode::DecodeFail));
}

#[test]
fn error_codes_are_numbered_from_success() {
    assert_eq!(ErrorCode::Success.code(), 0);
    assert_eq!(ErrorCode::NullPointer.code(), 1);
    assert_eq!(ErrorCode::EncodeFail.code(), 2);
    assert_eq!(ErrorCode::DecodeFail.code(), 3);
    assert_eq!(ErrorCode::IntegrityFail.code(), 4);
    assert_eq!(ErrorCode::AllocFail.code(), 5);
    assert_eq!(ErrorCode::LicenseError.code(), 6);
}

#[test]
fn every_single_bit_flip_is_found() {
    let data = b"payload bytes";
    let good = add_footer(data);
    for byte in 0..good.len() {
        for bit in 0..8 {
            let mut bad = good.clone();
            bad[byte] ^= 1 << bit;
            assert!(verify_footer(&bad).is_err(), "byte {byte} bit {bit}");
        }
    }
}

#[test]
fn mismatch_holds_both_digests() {
    let mut bad = add_footer(b"abc");
    let stored: Vec<u8> = bad[3..].to_vec();
    bad[0] = b'x';
    let digest_now = add_footer(b"xbc")[3..].to_vec();
    match verify_footer(&bad) {
        Err(IntegrityError::Mismatch { expected, actual }) => {
            assert_eq!(expected.to_vec(), digest_now);
            assert_eq!(actual.to_vec(), stored);
        }
        _ => panic!("a mismatch is due"),
    }
}
