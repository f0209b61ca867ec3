use oxideav_pbm::pfm::{
    decode_pfm, decode_pfm_consumed, encode_pfm_plane_with_scale, swap_bytes_u32_row,
};
use oxideav_pbm::{PbmError as Error, PbmImage, PbmPixelFormat, PbmPlane};

/// Encode a float image as a Portable FloatMap whose scale magnitude is
/// written as `scale`.
fn encode_pfm_scaled_text(img: &PbmImage, little_endian: bool, scale: &[u8]) -> oxideav_pbm::Result<Vec<u8>> {
    encode_pfm_plane_with_scale(
        &img.planes[0],
        img.pixel_format,
        img.width,
        img.height,
        little_endian,
        scale,
    )
}

/// The scale factor of a scale line: its absolute value.
fn scale_of(literal: &[u8]) -> f32 {
    std::str::from_utf8(literal).unwrap().parse::<f32>().unwrap().abs()
}


/// Build a GrayF32 / RgbF32 image whose samples encode their (row,
/// col, channel) coordinates so a vertical flip is observable.
fn float_image(w: u32, h: u32, ch: usize) -> PbmImage {
    let format = if ch == 3 {
        PbmPixelFormat::RgbF32
    } else {
        PbmPixelFormat::GrayF32
    };
    let stride = w as usize * ch * 4;
    let mut data = vec![0u8; stride * h as usize];
    for y in 0..h as usize {
        for x in 0..w as usize {
            for c in 0..ch {
                let v = (y * 1000 + x * 10 + c) as f32 + 0.5;
                let off = y * stride + (x * ch + c) * 4;
                data[off..off + 4].copy_from_slice(&v.to_le_bytes());
            }
        }
    }
    PbmImage {
        width: w,
        height: h,
        pixel_format: format,
        planes: vec![PbmPlane { stride, data }],
        pts: None,
    }
}

#[test]
fn roundtrip_gray_little_endian() {
    let img = float_image(5, 4, 1);
    let bytes = encode_pfm_scaled_text(&img, true, b"1.0").unwrap();
    assert!(bytes.starts_with(b"Pf\n5 4\n-1.0\n"));
    let (back, info) = decode_pfm(&bytes).unwrap();
    assert!(info.little_endian);
    assert_eq!(scale_of(&info.scale_literal), 1.0);
    assert_eq!(info.channels, 1);
    assert_eq!(back.planes[0].data, img.planes[0].data);
}

#[test]
fn roundtrip_gray_big_endian() {
    let img = float_image(3, 6, 1);
    let bytes = encode_pfm_scaled_text(&img, false, b"1.0").unwrap();
    assert!(bytes.starts_with(b"Pf\n3 6\n1.0\n"));
    let (back, info) = decode_pfm(&bytes).unwrap();
    assert!(!info.little_endian);
    assert_eq!(back.planes[0].data, img.planes[0].data);
}

#[test]
fn roundtrip_rgb_little_endian() {
    let img = float_image(4, 3, 3);
    let bytes = encode_pfm_scaled_text(&img, true, b"1.0").unwrap();
    assert!(bytes.starts_with(b"PF\n4 3\n-1.0\n"));
    let (back, info) = decode_pfm(&bytes).unwrap();
    assert_eq!(info.channels, 3);
    assert_eq!(back.pixel_format, PbmPixelFormat::RgbF32);
    assert_eq!(back.planes[0].data, img.planes[0].data);
}

#[test]
fn roundtrip_rgb_big_endian() {
    let img = float_image(2, 2, 3);
    let bytes = encode_pfm_scaled_text(&img, false, b"1.0").unwrap();
    let (back, _info) = decode_pfm(&bytes).unwrap();
    assert_eq!(back.planes[0].data, img.planes[0].data);
}

#[test]
fn roundtrip_non_unit_scale() {
    let img = float_image(2, 2, 1);
    let bytes = encode_pfm_scaled_text(&img, false, b"2.5").unwrap();
    assert!(bytes.starts_with(b"Pf\n2 2\n2.5\n"));
    let (_back, info) = decode_pfm(&bytes).unwrap();
    assert_eq!(scale_of(&info.scale_literal), 2.5);
    assert!(!info.little_endian);
}

#[test]
fn bottom_to_top_flip_is_correct() {
    // A 1×2 grayscale image: memory row 0 holds 11.0, row 1 holds
    // 22.0. On disk the bottom row (memory row 1 = 22.0) must come
    // first.
    let mut data = vec![0u8; 2 * 4];
    data[0..4].copy_from_slice(&11.0f32.to_le_bytes());
    data[4..8].copy_from_slice(&22.0f32.to_le_bytes());
    let img = PbmImage {
        width: 1,
        height: 2,
        pixel_format: PbmPixelFormat::GrayF32,
        planes: vec![PbmPlane { stride: 4, data }],
        pts: None,
    };
    let bytes = encode_pfm_scaled_text(&img, true, b"1.0").unwrap();
    let body = &bytes[bytes.len() - 8..];
    // First on-disk sample is the bottom row = 22.0.
    assert_eq!(f32::from_le_bytes(body[0..4].try_into().unwrap()), 22.0);
    assert_eq!(f32::from_le_bytes(body[4..8].try_into().unwrap()), 11.0);
    // And it flips back on decode.
    let (back, _) = decode_pfm(&bytes).unwrap();
    assert_eq!(
        f32::from_le_bytes(back.planes[0].data[0..4].try_into().unwrap()),
        11.0
    );
}

#[test]
fn big_endian_disk_bytes_are_swapped() {
    let mut data = vec![0u8; 4];
    data.copy_from_slice(&1.0f32.to_le_bytes()); // LE: 00 00 80 3F
    let img = PbmImage {
        width: 1,
        height: 1,
        pixel_format: PbmPixelFormat::GrayF32,
        planes: vec![PbmPlane { stride: 4, data }],
        pts: None,
    };
    let bytes = encode_pfm_scaled_text(&img, false, b"1.0").unwrap();
    // On disk, big-endian 1.0 = 3F 80 00 00.
    assert_eq!(&bytes[bytes.len() - 4..], &[0x3F, 0x80, 0x00, 0x00]);
}

#[test]
fn decode_rejects_truncated_body() {
    let buf = b"PF\n4 4\n-1.0\n\x00\x00\x00\x00"; // only one sample
    assert!(decode_pfm(buf).is_err());
}

#[test]
fn encode_rejects_non_float_format() {
    let plane = PbmPlane {
        stride: 1,
        data: vec![0u8],
    };
    let err = encode_pfm_plane_with_scale(&plane, PbmPixelFormat::Gray8, 1, 1, true, b"1.0").unwrap_err();
    assert!(matches!(err, Error::Unsupported(_)));
}

#[test]
fn consumed_count_is_header_plus_raster() {
    // A 5×4 grayscale PFM: raster = 5*4*1*4 = 80 bytes; the consumed
    // count must be the header length + 80, i.e. the whole encoding.
    let img = float_image(5, 4, 1);
    let bytes = encode_pfm_scaled_text(&img, true, b"1.0").unwrap();
    let (_image, info, consumed) = decode_pfm_consumed(&bytes).unwrap();
    assert_eq!(consumed, bytes.len());
    assert_eq!(consumed - 80, b"Pf\n5 4\n-1.0\n".len());
    assert_eq!(info.channels, 1);
}

#[test]
fn consumed_count_rgb_accounts_for_three_channels() {
    let img = float_image(3, 2, 3);
    let bytes = encode_pfm_scaled_text(&img, false, b"1.0").unwrap();
    let (_image, info, consumed) = decode_pfm_consumed(&bytes).unwrap();
    // Raster = 3*2*3*4 = 72 bytes.
    assert_eq!(consumed, bytes.len());
    assert_eq!(consumed - 72, b"PF\n3 2\n1.0\n".len());
    assert_eq!(info.channels, 3);
}

#[test]
fn consumed_walks_concatenated_pfm_stream_preserving_metadata() {
    // Pack two distinct PFM images back to back (different byte order,
    // scale, channels and size) and walk them by cursor, confirming
    // each image's PfmHeaderInfo survives the walk.
    let a = float_image(4, 3, 1);
    let b = float_image(2, 2, 3);
    let mut stream = encode_pfm_scaled_text(&a, true, b"1.0").unwrap();
    stream.extend(encode_pfm_scaled_text(&b, false, b"2.5").unwrap());

    let mut off = 0;
    let mut seen = Vec::new();
    while off < stream.len() {
        let (image, info, consumed) = decode_pfm_consumed(&stream[off..]).unwrap();
        assert!(consumed > 0);
        seen.push((info, image.width, image.height, image.pixel_format));
        off += consumed;
    }
    assert_eq!(off, stream.len());
    assert_eq!(seen.len(), 2);

    let (info0, w0, h0, fmt0) = seen[0].clone();
    assert!(info0.little_endian);
    assert_eq!(scale_of(&info0.scale_literal), 1.0);
    assert_eq!(info0.channels, 1);
    assert_eq!((w0, h0), (4, 3));
    assert_eq!(fmt0, PbmPixelFormat::GrayF32);

    let (info1, w1, h1, fmt1) = seen[1].clone();
    assert!(!info1.little_endian);
    assert_eq!(scale_of(&info1.scale_literal), 2.5);
    assert_eq!(info1.channels, 3);
    assert_eq!((w1, h1), (2, 2));
    assert_eq!(fmt1, PbmPixelFormat::RgbF32);
}

#[test]
fn consumed_matches_decode_pfm_image_bytes() {
    // The pixels recovered by decode_pfm_consumed must equal those from
    // the plain decode_pfm path — only the extra byte count differs.
    let img = float_image(6, 5, 3);
    let bytes = encode_pfm_scaled_text(&img, false, b"3.0").unwrap();
    let (plain, plain_info) = decode_pfm(&bytes).unwrap();
    let (rich, rich_info, consumed) = decode_pfm_consumed(&bytes).unwrap();
    assert_eq!(plain.planes[0].data, rich.planes[0].data);
    assert_eq!(plain_info, rich_info);
    assert_eq!(consumed, bytes.len());
}

#[test]
fn consumed_rejects_non_pfm_input() {
    // A P5 (binary PGM) header is a valid Netpbm magic but not PFM, so
    // the PFM-specific entry must reject it rather than mis-walk it.
    let buf = b"P5\n2 2\n255\n\x00\x01\x02\x03";
    assert!(decode_pfm_consumed(buf).is_err());
}

#[test]
fn swap_bytes_u32_row_swaps_every_sample() {
    // Four samples covering the full byte range.
    let src: [u8; 16] = [
        0x12, 0x34, 0x56, 0x78, // sample 0
        0xff, 0x00, 0xa5, 0x5a, // sample 1
        0xde, 0xad, 0xbe, 0xef, // sample 2
        0x00, 0x11, 0x22, 0x33, // sample 3
    ];
    let mut dst = [0u8; 16];
    swap_bytes_u32_row(&src, &mut dst);
    assert_eq!(
        dst,
        [
            0x78, 0x56, 0x34, 0x12, // sample 0 reversed
            0x5a, 0xa5, 0x00, 0xff, // sample 1 reversed
            0xef, 0xbe, 0xad, 0xde, // sample 2 reversed
            0x33, 0x22, 0x11, 0x00, // sample 3 reversed
        ]
    );
}

#[test]
fn swap_bytes_u32_row_is_self_inverse() {
    let src: [u8; 12] = [
        0xaa, 0xbb, 0xcc, 0xdd, 0x01, 0x02, 0x03, 0x04, 0xfe, 0xed, 0xfa, 0xce,
    ];
    let mut once = [0u8; 12];
    swap_bytes_u32_row(&src, &mut once);
    let mut twice = [0u8; 12];
    swap_bytes_u32_row(&once, &mut twice);
    assert_eq!(twice, src);
}
