use oxideav_pbm::binary::{
    decode_binary, encode_binary_body, encode_p4_body, read_be16_row, swap_bytes_u16_row,
    write_be16_row,
};
use oxideav_pbm::header::{parse_header, Magic};


#[test]
fn p4_round_trip_packs_msb_first() {
    // 11 pixels wide → 2 bytes per row, last 5 bits unused.
    let bits = [1, 0, 1, 0, 1, 1, 0, 0, 1, 1, 1];
    let packed = encode_p4_body(11, 1, &bits);
    assert_eq!(packed.len(), 2);
    assert_eq!(packed[0], 0b1010_1100);
    assert_eq!(packed[1] & 0b1110_0000, 0b1110_0000);
}

#[test]
fn binary_huge_dimension_does_not_oom() {
    // A P5 header that claims width * height > body.len() must be
    // rejected before a sample buffer is sized from the claim.
    let buf = b"P5\n2 200888808\n255\n\x00\x01\x02\x03";
    let h = parse_header(buf).unwrap();
    assert_eq!(h.magic, Magic::P5BinaryGraymap);
    let err = decode_binary(&h, &buf[h.data_offset..]).unwrap_err();
    match err {
        oxideav_pbm::PbmError::InvalidData(s) => {
            assert!(s.contains("truncated"), "unexpected message: {s}");
        }
        other => panic!("expected InvalidData, got {other:?}"),
    }
}

#[test]
fn binary_body_emits_be16_when_needed() {
    let samples = [0x1234u16, 0xFEDC];
    let bytes = encode_binary_body(&samples, 65535);
    assert_eq!(bytes, [0x12, 0x34, 0xFE, 0xDC]);
    let bytes8 = encode_binary_body(&[10, 20], 100);
    assert_eq!(bytes8, [10, 20]);
}

#[test]
fn read_be16_row_decodes_every_sample() {
    // 4 samples across 8 bytes, mixing high/low bytes to surface
    // any accidental byte ordering bug.
    let src: [u8; 8] = [0x00, 0x01, 0xFF, 0xFE, 0x12, 0x34, 0x80, 0x00];
    let mut dst = [0u16; 4];
    read_be16_row(&src, &mut dst);
    assert_eq!(dst, [0x0001, 0xFFFE, 0x1234, 0x8000]);
}

#[test]
fn write_be16_row_encodes_every_sample() {
    let src = [0x0001u16, 0xFFFE, 0x1234, 0x8000];
    let mut dst = [0u8; 8];
    write_be16_row(&src, &mut dst);
    assert_eq!(dst, [0x00, 0x01, 0xFF, 0xFE, 0x12, 0x34, 0x80, 0x00]);
}

#[test]
fn be16_row_helpers_round_trip() {
    // Self-inverse: encode-then-decode reconstructs the original
    // sample sequence exactly, with no boundary corruption.
    let src: [u16; 7] = [0x0000, 0x00FF, 0xFF00, 0xFFFF, 0xDEAD, 0xBEEF, 0xCAFE];
    let mut bytes = vec![0u8; src.len() * 2];
    write_be16_row(&src, &mut bytes);
    let mut round_trip = vec![0u16; src.len()];
    read_be16_row(&bytes, &mut round_trip);
    assert_eq!(round_trip.as_slice(), &src);
}

#[test]
fn swap_bytes_u16_row_swaps_every_sample() {
    // Six samples mixing high/low bytes to surface any indexing
    // off-by-one in the chunked swap kernel.
    let src: [u8; 12] = [
        0x12, 0x34, // sample 0
        0xff, 0x00, // sample 1
        0xa5, 0x5a, // sample 2
        0x00, 0xff, // sample 3
        0xde, 0xad, // sample 4
        0xbe, 0xef, // sample 5
    ];
    let mut dst = [0u8; 12];
    swap_bytes_u16_row(&src, &mut dst);
    assert_eq!(
        dst,
        [
            0x34, 0x12, // sample 0 reversed
            0x00, 0xff, // sample 1 reversed
            0x5a, 0xa5, // sample 2 reversed
            0xff, 0x00, // sample 3 reversed
            0xad, 0xde, // sample 4 reversed
            0xef, 0xbe, // sample 5 reversed
        ]
    );
}

#[test]
fn swap_bytes_u16_row_is_self_inverse() {
    // Swapping twice must reconstruct the original byte sequence.
    let src: [u8; 10] = [0xaa, 0xbb, 0x01, 0x02, 0xfe, 0xed, 0x80, 0x00, 0xca, 0xfe];
    let mut once = [0u8; 10];
    swap_bytes_u16_row(&src, &mut once);
    let mut twice = [0u8; 10];
    swap_bytes_u16_row(&once, &mut twice);
    assert_eq!(twice, src);
}

#[test]
fn swap_bytes_u16_row_matches_per_sample_le_to_be() {
    // The helper's output must agree byte-for-byte with the scalar
    // `u16::from_le_bytes(…).to_be_bytes()` reference path the
    // encoder hot paths used before the round-217 refactor.
    let src: [u8; 8] = [0x34, 0x12, 0x78, 0x56, 0xff, 0x00, 0x00, 0x80];
    let mut got = [0u8; 8];
    swap_bytes_u16_row(&src, &mut got);
    let mut expected = [0u8; 8];
    for (s, d) in src.chunks_exact(2).zip(expected.chunks_exact_mut(2)) {
        let v = u16::from_le_bytes([s[0], s[1]]).to_be_bytes();
        d.copy_from_slice(&v);
    }
    assert_eq!(got, expected);
}
