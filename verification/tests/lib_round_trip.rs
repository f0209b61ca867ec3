use oxideav_pbm::{decode_pbm, encode_pbm, PbmImage, PbmPixelFormat, PbmPlane};


fn rgb_checker(w: u32, h: u32) -> PbmImage {
    let mut data = Vec::with_capacity((w * h * 3) as usize);
    for y in 0..h {
        for x in 0..w {
            let q = ((x & 1) + 2 * (y & 1)) as usize;
            let rgb = [[255, 0, 0], [0, 255, 0], [0, 0, 255], [255, 255, 255]][q];
            data.extend_from_slice(&rgb);
        }
    }
    PbmImage {
        width: w,
        height: h,
        pixel_format: PbmPixelFormat::Rgb24,
        planes: vec![PbmPlane {
            stride: w as usize * 3,
            data,
        }],
        pts: None,
    }
}

#[test]
fn p6_round_trip_pixel_exact() {
    let src = rgb_checker(16, 12);
    let bytes = encode_pbm(&src).unwrap();
    assert!(bytes.starts_with(b"P6\n"));
    let (back, fmt) = decode_pbm(&bytes).unwrap();
    assert_eq!(fmt, PbmPixelFormat::Rgb24);
    assert_eq!(back.planes[0].data, src.planes[0].data);
}

#[test]
fn p7_round_trip_with_alpha() {
    let mut data = Vec::new();
    for y in 0..4 {
        for x in 0..6 {
            data.extend_from_slice(&[
                (x as u8) * 40,
                (y as u8) * 60,
                255 - (x as u8) * 40,
                if (x + y) & 1 == 0 { 255 } else { 64 },
            ]);
        }
    }
    let src = PbmImage {
        width: 6,
        height: 4,
        pixel_format: PbmPixelFormat::Rgba,
        planes: vec![PbmPlane { stride: 24, data }],
        pts: None,
    };
    let bytes = encode_pbm(&src).unwrap();
    assert!(bytes.starts_with(b"P7\n"));
    let (back, fmt) = decode_pbm(&bytes).unwrap();
    assert_eq!(fmt, PbmPixelFormat::Rgba);
    assert_eq!(back.planes[0].data, src.planes[0].data);
}
