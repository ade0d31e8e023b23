use bstseal::integrity::{add_footer, verify_footer, IntegrityError};

#[test]
fn roundtrip() {
    let data = b"hello world";
    let with_footer = add_footer(data);
    let stripped = verify_footer(&with_footer).unwrap();
    assert_eq!(stripped, data);
}

#[test]
fn detects_corruption() {
    let data = b"payload bytes";
    let mut corrupted = add_footer(data);
    corrupted[0] ^= 0xAA; // flip a bit
    assert!(verify_footer(&corrupted).is_err());
}

#[test]
fn footer_is_the_blake3_digest_of_the_payload() {
    let with_footer = add_footer(b"");
    // the BLAKE3 digest of the empty input
    let expected: [u8; 32] = [
        0xaf, 0x13, 0x49, 0xb9, 0xf5, 0xf9, 0xa1, 0xa6, 0xa0, 0x40, 0x4d, 0xea, 0x36, 0xdc, 0xc9,
        0x49, 0x9b, 0xcb, 0x25, 0xc9, 0xad, 0xc1, 0x12, 0xb7, 0xcc, 0x9a, 0x93, 0xca, 0xe4, 0x1f,
        0x32, 0x62,
    ];
    assert_eq!(with_footer.as_slice(), &expected[..]);
}

#[test]
fn short_data_is_too_small() {
    let data = [0u8; 31];
    assert!(matches!(verify_footer(&data), Err(IntegrityError::TooSmall)));
}
