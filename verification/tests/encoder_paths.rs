use oxideav_pbm::{
    encode_pbm, encode_pbm_ascii, encode_pbm_with_format, PbmEncodeFormat, PbmError as Error,
    PbmImage, PbmPixelFormat, PbmPlane,
};


fn plane_image(
    format: PbmPixelFormat,
    w: u32,
    h: u32,
    stride: usize,
    data: Vec<u8>,
) -> PbmImage {
    PbmImage {
        width: w,
        height: h,
        pixel_format: format,
        planes: vec![PbmPlane { stride, data }],
        pts: None,
    }
}

#[test]
fn encode_p6_rgb8_smoke() {
    let img = plane_image(
        PbmPixelFormat::Rgb24,
        2,
        2,
        6,
        vec![1, 2, 3, 4, 5, 6, 7, 8, 9, 10, 11, 12],
    );
    let bytes = encode_pbm(&img).unwrap();
    assert!(bytes.starts_with(b"P6\n2 2\n255\n"));
    let body = &bytes[bytes.iter().position(|&b| b == b'\n').unwrap() + 1..];
    let body = &body[body.iter().position(|&b| b == b'\n').unwrap() + 1..];
    let body = &body[body.iter().position(|&b| b == b'\n').unwrap() + 1..];
    assert_eq!(body, &[1, 2, 3, 4, 5, 6, 7, 8, 9, 10, 11, 12]);
}

#[test]
fn encode_p5_gray16_swaps_to_be() {
    let img = plane_image(
        PbmPixelFormat::Gray16Le,
        2,
        1,
        4,
        // LE input: 0x1234 then 0x5678
        vec![0x34, 0x12, 0x78, 0x56],
    );
    let bytes = encode_pbm(&img).unwrap();
    assert!(bytes.starts_with(b"P5\n2 1\n65535\n"));
    // Last 4 bytes = BE samples
    assert_eq!(&bytes[bytes.len() - 4..], &[0x12, 0x34, 0x56, 0x78]);
}

#[test]
fn encode_p7_rgba_emits_rgb_alpha_tupltype() {
    let img = plane_image(PbmPixelFormat::Rgba, 1, 1, 4, vec![10, 20, 30, 40]);
    let bytes = encode_pbm(&img).unwrap();
    assert!(bytes.starts_with(b"P7\n"));
    let s = std::str::from_utf8(&bytes[..bytes.len() - 4]).unwrap();
    assert!(s.contains("TUPLTYPE RGB_ALPHA"));
    assert_eq!(&bytes[bytes.len() - 4..], &[10, 20, 30, 40]);
}

#[test]
fn explicit_format_p1_rejects_non_mono() {
    let img = plane_image(PbmPixelFormat::Gray8, 1, 1, 1, vec![128]);
    let err = encode_pbm_with_format(&img, PbmEncodeFormat::Pnm1).unwrap_err();
    match err {
        Error::Unsupported(_) => {}
        other => panic!("expected Unsupported, got {other:?}"),
    }
}

#[test]
fn explicit_format_pam7_for_gray8_emits_p7_grayscale() {
    let img = plane_image(PbmPixelFormat::Gray8, 2, 1, 2, vec![10, 20]);
    let bytes = encode_pbm_with_format(&img, PbmEncodeFormat::Pam7).unwrap();
    assert!(bytes.starts_with(b"P7\n"));
    let s = std::str::from_utf8(&bytes[..bytes.len() - 2]).unwrap();
    assert!(s.contains("TUPLTYPE GRAYSCALE"));
    assert!(s.contains("DEPTH 1"));
    assert!(s.contains("MAXVAL 255"));
    assert_eq!(&bytes[bytes.len() - 2..], &[10, 20]);
}

#[test]
fn explicit_format_pam7_rgb16_be_swap() {
    // Verify P7 RGB 16-bit BE swap is the same as P6 16-bit's.
    let img = plane_image(
        PbmPixelFormat::Rgb48Le,
        1,
        1,
        6,
        // R=0x0102, G=0x0304, B=0x0506 in LE
        vec![0x02, 0x01, 0x04, 0x03, 0x06, 0x05],
    );
    let bytes = encode_pbm_with_format(&img, PbmEncodeFormat::Pam7).unwrap();
    let body = &bytes[bytes.len() - 6..];
    assert_eq!(body, &[0x01, 0x02, 0x03, 0x04, 0x05, 0x06]);
}

#[test]
fn explicit_format_p5_for_gray16_is_canonical() {
    // P5 with 16-bit gray should be the same as the auto-binary path
    // for `Gray16Le`.
    let img = plane_image(
        PbmPixelFormat::Gray16Le,
        2,
        1,
        4,
        vec![0x34, 0x12, 0x78, 0x56],
    );
    let auto = encode_pbm(&img).unwrap();
    let explicit = encode_pbm_with_format(&img, PbmEncodeFormat::Pnm5).unwrap();
    assert_eq!(auto, explicit);
}

#[test]
fn auto_ascii_routes_to_encode_pbm_ascii() {
    let img = plane_image(PbmPixelFormat::Rgb24, 2, 1, 6, vec![1, 2, 3, 4, 5, 6]);
    let auto = encode_pbm_ascii(&img).unwrap();
    let explicit = encode_pbm_with_format(&img, PbmEncodeFormat::AutoAscii).unwrap();
    assert_eq!(auto, explicit);
}

#[test]
fn encode_p4_byte_aligned_width_round_trips() {
    // 16 px = exact 2 byte-row width — no trailing-bit mask
    // involvement. The body must match the input plane bytes.
    let img = plane_image(
        PbmPixelFormat::MonoBlack,
        16,
        2,
        2,
        vec![0b1010_1100, 0b1111_0010, 0b0101_0101, 0b1110_0001],
    );
    let bytes = encode_pbm(&img).unwrap();
    assert!(bytes.starts_with(b"P4\n16 2\n"));
    let body = &bytes[bytes.len() - 4..];
    assert_eq!(body, &[0b1010_1100, 0b1111_0010, 0b0101_0101, 0b1110_0001]);
}

#[test]
fn encode_p4_unaligned_width_zeros_trailing_pad() {
    // 11 px = 2 bytes per row with 5 padding bits at the tail of
    // each row. The encoder must zero those padding bits regardless
    // of what the source plane held there, so the on-disk bytes are
    // canonical and the round-205-style memcpy fast path doesn't
    // leak input garbage.
    let img = plane_image(
        PbmPixelFormat::MonoBlack,
        11,
        1,
        2,
        // Dirty padding (bottom 5 bits set) on the input row.
        vec![0b1010_1100, 0b1111_1111],
    );
    let bytes = encode_pbm(&img).unwrap();
    let body = &bytes[bytes.len() - 2..];
    // Used bits in byte 1 are pixels 8/9/10 (= 1/1/1) so top 3
    // bits = 0b111; remaining 5 bits must be zero.
    assert_eq!(body, &[0b1010_1100, 0b1110_0000]);
}

#[test]
fn encode_p4_strided_plane_matches_unstrided() {
    // The plane.stride may exceed row_bytes (e.g. a caller's image
    // buffer is padded for alignment). The encoder must walk
    // exactly `row_bytes` per row and ignore the trailing stride
    // padding. Build the same image twice — once tight, once
    // padded — and assert the two outputs match byte-for-byte.
    let tight = plane_image(
        PbmPixelFormat::MonoBlack,
        11,
        3,
        2,
        vec![
            0b1010_1100,
            0b1110_0000, // row 0
            0b0101_0101,
            0b0100_0000, // row 1
            0b1111_0000,
            0b1000_0000, // row 2
        ],
    );
    let padded = plane_image(
        PbmPixelFormat::MonoBlack,
        11,
        3,
        4, // stride = 4 bytes per row (2 used + 2 padding)
        vec![
            0b1010_1100,
            0b1110_0000,
            0xFF,
            0xFF, // row 0 + padding garbage
            0b0101_0101,
            0b0100_0000,
            0xCC,
            0xCC,
            0b1111_0000,
            0b1000_0000,
            0xAA,
            0xAA,
        ],
    );
    assert_eq!(encode_pbm(&tight).unwrap(), encode_pbm(&padded).unwrap());
}

#[test]
fn explicit_format_pam7_gray16_be_swap() {
    // P7 GRAYSCALE 16-bit must emit the same big-endian byte sequence
    // as P5 16-bit for the same source LE plane. Regression for the
    // round-217 symmetry gap: `encode_p7_gray16` was the only 16-bit
    // encode path still using per-sample `out.push(chunk[1]);
    // out.push(chunk[0])`. After the round-222 refactor the helper
    // is shared, so the body bytes must agree with the canonical
    // P5 path.
    let img = plane_image(
        PbmPixelFormat::Gray16Le,
        3,
        2,
        6,
        // Six LE samples covering high/low byte mixes: 0x1234,
        // 0x00FF, 0xFF00, 0xCAFE, 0xDEAD, 0xBEEF.
        vec![
            0x34, 0x12, 0xff, 0x00, 0x00, 0xff, 0xfe, 0xca, 0xad, 0xde, 0xef, 0xbe,
        ],
    );
    let pam = encode_pbm_with_format(&img, PbmEncodeFormat::Pam7).unwrap();
    let p5 = encode_pbm_with_format(&img, PbmEncodeFormat::Pnm5).unwrap();
    // PAM header is longer; compare the trailing 12 body bytes only.
    let pam_body = &pam[pam.len() - 12..];
    let p5_body = &p5[p5.len() - 12..];
    assert_eq!(pam_body, p5_body);
    // Spot-check: 0x1234 LE → 0x12 0x34 on disk.
    assert_eq!(
        pam_body,
        &[0x12, 0x34, 0x00, 0xff, 0xff, 0x00, 0xca, 0xfe, 0xde, 0xad, 0xbe, 0xef]
    );
    // The PAM header must declare DEPTH 1 + GRAYSCALE + MAXVAL 65535.
    let hdr_end = pam.iter().position(|&b| b == 0x12).unwrap();
    let s = std::str::from_utf8(&pam[..hdr_end]).unwrap();
    assert!(s.contains("DEPTH 1"));
    assert!(s.contains("TUPLTYPE GRAYSCALE"));
    assert!(s.contains("MAXVAL 65535"));
}

#[test]
fn encode_p7_bgra_swaps_to_rgb_alpha_body() {
    // BGRA in / RGB_ALPHA out: the on-disk byte sequence must be
    // R/G/B/A per pixel even though the input plane is laid out
    // B/G/R/A. Regression for the round-253 `bgra_to_rgba_row`
    // refactor — the inner per-pixel channel shuffle moved from a
    // per-byte `Vec::push` loop to a row-level
    // `chunks_exact(4)` zip, so this guards against any
    // accidental index slip.
    let img = plane_image(
        PbmPixelFormat::Bgra,
        2,
        1,
        8,
        // Two BGRA pixels: (B=0x10,G=0x20,R=0x30,A=0x40) +
        // (B=0xAB,G=0xCD,R=0xEF,A=0x12).
        vec![0x10, 0x20, 0x30, 0x40, 0xab, 0xcd, 0xef, 0x12],
    );
    let bytes = encode_pbm(&img).unwrap();
    let body = &bytes[bytes.len() - 8..];
    // R/G/B/A on disk: pixel 0 = (0x30, 0x20, 0x10, 0x40);
    // pixel 1 = (0xef, 0xcd, 0xab, 0x12).
    assert_eq!(body, &[0x30, 0x20, 0x10, 0x40, 0xef, 0xcd, 0xab, 0x12]);
    // The PAM header must declare DEPTH 4 + RGB_ALPHA + MAXVAL
    // 255, not the input's BGRA layout — the on-disk file is
    // never tagged BGRA.
    let hdr_end = bytes.len() - 8;
    let s = std::str::from_utf8(&bytes[..hdr_end]).unwrap();
    assert!(s.contains("DEPTH 4"));
    assert!(s.contains("TUPLTYPE RGB_ALPHA"));
    assert!(s.contains("MAXVAL 255"));
}

#[test]
fn encode_p7_bgra_matches_canonical_rgba_after_swap() {
    // A BGRA plane and an Rgba plane that holds the same pixels
    // with channels pre-swapped must produce byte-for-byte
    // identical Netpbm output (same RGB_ALPHA header + same body).
    // Doubles as a regression that the helper does not also touch
    // the G or A channels.
    let bgra = plane_image(
        PbmPixelFormat::Bgra,
        3,
        2,
        12,
        vec![
            0x01, 0x02, 0x03, 0x04, 0x05, 0x06, 0x07, 0x08, 0x09, 0x0a, 0x0b,
            0x0c, // row 0
            0x0d, 0x0e, 0x0f, 0x10, 0x11, 0x12, 0x13, 0x14, 0x15, 0x16, 0x17,
            0x18, // row 1
        ],
    );
    let rgba = plane_image(
        PbmPixelFormat::Rgba,
        3,
        2,
        12,
        // Same pixels with channels pre-swapped: (R, G, B, A)
        // per pixel where the BGRA source had (B, G, R, A).
        vec![
            0x03, 0x02, 0x01, 0x04, 0x07, 0x06, 0x05, 0x08, 0x0b, 0x0a, 0x09, 0x0c, 0x0f, 0x0e,
            0x0d, 0x10, 0x13, 0x12, 0x11, 0x14, 0x17, 0x16, 0x15, 0x18,
        ],
    );
    assert_eq!(encode_pbm(&bgra).unwrap(), encode_pbm(&rgba).unwrap());
}

#[test]
fn encode_p7_bgra_strided_plane_matches_unstrided() {
    // `plane.stride` may exceed `width * 4` when the caller's
    // buffer has trailing row padding. The encoder must walk
    // exactly `width * 4` bytes per row and ignore the stride
    // padding. Mirrors `encode_p4_strided_plane_matches_unstrided`
    // for the BGRA path so the row-level helper plus the stride
    // arithmetic stay in step.
    let tight = plane_image(
        PbmPixelFormat::Bgra,
        2,
        2,
        8,
        vec![
            0x10, 0x20, 0x30, 0x40, 0x50, 0x60, 0x70, 0x80, // row 0
            0x11, 0x21, 0x31, 0x41, 0x51, 0x61, 0x71, 0x81, // row 1
        ],
    );
    let padded = plane_image(
        PbmPixelFormat::Bgra,
        2,
        2,
        12, // stride = 12 bytes per row (8 used + 4 padding)
        vec![
            0x10, 0x20, 0x30, 0x40, 0x50, 0x60, 0x70, 0x80, 0xff, 0xff, 0xff, 0xff, 0x11, 0x21,
            0x31, 0x41, 0x51, 0x61, 0x71, 0x81, 0xee, 0xee, 0xee, 0xee,
        ],
    );
    assert_eq!(encode_pbm(&tight).unwrap(), encode_pbm(&padded).unwrap());
}
