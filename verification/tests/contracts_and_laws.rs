use oxideav_pbm::binary32::literal_rounding;
use oxideav_pbm::decoder::{pick_advertised_format, scale_to_u16, scale_to_u8};
use oxideav_pbm::encoder::PbmEncodeFormat;
use oxideav_pbm::header::{next_uint, probe_is_netpbm, try_next_uint, Tupltype};
use oxideav_pbm::pfm::{decode_pfm, decode_pfm_consumed, encode_pfm_plane_with_scale};
use oxideav_pbm::{
    decode_pbm, decode_pbm_consumed, decode_pbm_multi, encode_pbm, encode_pbm_ascii,
    encode_pbm_ascii_plane, encode_pbm_plane, encode_pbm_with_format, parse_header, PbmError, PbmImage, PbmPixelFormat, PbmPlane,
};

fn image(format: PbmPixelFormat, w: u32, h: u32, stride: usize, data: Vec<u8>) -> PbmImage {
    PbmImage {
        width: w,
        height: h,
        pixel_format: format,
        planes: vec![PbmPlane { stride, data }],
        pts: None,
    }
}

fn recode_is_fixed_point(input: &[u8]) {
    let (img, fmt) = decode_pbm(input).unwrap();
    let bytes = encode_pbm(&img).unwrap();
    let (back, fmt2) = decode_pbm(&bytes).unwrap();
    assert_eq!(fmt, fmt2);
    assert_eq!(img.width, back.width);
    assert_eq!(img.height, back.height);
    assert_eq!(img.pixel_format, back.pixel_format);
    assert_eq!(img.planes[0].stride, back.planes[0].stride);
    assert_eq!(img.planes[0].data, back.planes[0].data);
    assert_eq!(encode_pbm(&back).unwrap(), bytes);
    let (_, _, n) = decode_pbm_consumed(&bytes).unwrap();
    assert_eq!(n, bytes.len());
}

#[test]
fn recode_fixed_point_plain_bitmap() {
    recode_is_fixed_point(b"P1\n# c\n10 2\n1 0 1 0 1 0 1 0 1 1\n0000011111\n");
}

#[test]
fn recode_fixed_point_pam_bw_alpha() {
    let mut input = b"P7\nWIDTH 2\nHEIGHT 1\nDEPTH 2\nMAXVAL 1\nTUPLTYPE BLACKANDWHITE_ALPHA\nENDHDR\n".to_vec();
    input.extend_from_slice(&[1, 0, 0, 1]);
    recode_is_fixed_point(&input);
}

#[test]
fn recode_fixed_point_low_maxval_gray() {
    recode_is_fixed_point(b"P2\n3 1\n15\n0 7 15\n");
}

#[test]
fn recode_fixed_point_big_endian_float_map() {
    let mut input = b"PF\n1 2\n2.5\n".to_vec();
    for v in [1.0f32, 2.0, 3.0, 4.0, 5.0, 6.0] {
        input.extend_from_slice(&v.to_be_bytes());
    }
    recode_is_fixed_point(&input);
}

#[test]
fn decoded_p4_row_padding_is_clear() {
    // Width 3: the five low bits of each row byte are padding.
    let (img, _) = decode_pbm(b"P4\n3 2\n\xff\xa5").unwrap();
    assert_eq!(img.planes[0].data, vec![0xe0, 0xa0]);
}

#[test]
fn bad_magic_is_invalid_data() {
    assert!(matches!(decode_pbm(b"Q6\n1 1\n255\n\x00"), Err(PbmError::InvalidData(_))));
}

#[test]
fn pam_depth_five_is_unsupported() {
    let input = b"P7\nWIDTH 1\nHEIGHT 1\nDEPTH 5\nMAXVAL 255\nENDHDR\n\x00\x00\x00\x00\x00";
    assert!(matches!(parse_header(input), Err(PbmError::Unsupported(_))));
}

#[test]
fn ascii_encoder_refuses_sixteen_bit() {
    let img = image(PbmPixelFormat::Gray16Le, 1, 1, 2, vec![0, 1]);
    assert!(matches!(encode_pbm_ascii(&img), Err(PbmError::Unsupported(_))));
}

#[test]
fn encoder_refuses_truncated_plane() {
    let img = image(PbmPixelFormat::Gray8, 4, 2, 4, vec![0; 5]);
    assert!(matches!(encode_pbm(&img), Err(PbmError::InvalidData(_))));
}

#[test]
fn pam_value_that_is_not_utf8_is_invalid() {
    let input = b"P7\nWIDTH 1\nHEIGHT 1\nDEPTH 1\nMAXVAL 255\nTUPLTYPE \xff\xfe\nENDHDR\n\x00";
    assert!(matches!(parse_header(input), Err(PbmError::InvalidData(_))));
}

#[test]
fn custom_tuple_type_keeps_its_utf8_name() {
    let input = "P7\nWIDTH 1\nHEIGHT 1\nDEPTH 1\nMAXVAL 255\nTUPLTYPE H\u{e9}IGHT\nENDHDR\n\u{0}";
    let h = parse_header(input.as_bytes()).unwrap();
    match h.tupltype {
        Some(Tupltype::Custom(s)) => assert_eq!(s, "H\u{e9}IGHT"),
        other => panic!("expected a custom tuple type, got {other:?}"),
    }
}

#[test]
fn pfm_degenerate_scales_are_refused() {
    for scale in ["inf", "-Infinity", "0.0", "-0", "NaN", "0e5"] {
        let mut input = format!("Pf\n1 1\n{scale}\n").into_bytes();
        input.extend_from_slice(&[0, 0, 0, 0]);
        assert!(
            matches!(decode_pfm(&input), Err(PbmError::InvalidData(_))),
            "scale {scale} should be refused"
        );
    }
}

#[test]
fn pfm_scale_sign_picks_byte_order() {
    let mut input = b"Pf\n1 1\n-2.5\n".to_vec();
    input.extend_from_slice(&1.5f32.to_le_bytes());
    let (img, info, n) = decode_pfm_consumed(&input).unwrap();
    assert!(info.little_endian);
    assert_eq!(info.scale_literal, b"-2.5".to_vec());
    assert_eq!(info.channels, 1);
    assert_eq!(n, input.len());
    assert_eq!(img.planes[0].data, 1.5f32.to_le_bytes().to_vec());
}

#[test]
fn pfm_writer_signs_the_magnitude() {
    let plane = PbmPlane { stride: 4, data: 7.0f32.to_le_bytes().to_vec() };
    let out =
        encode_pfm_plane_with_scale(&plane, PbmPixelFormat::GrayF32, 1, 1, false, b"3.25").unwrap();
    let mut expected = b"Pf\n1 1\n3.25\n".to_vec();
    expected.extend_from_slice(&7.0f32.to_be_bytes());
    assert_eq!(out, expected);
}

#[test]
fn probe_needs_magic_and_whitespace() {
    assert!(probe_is_netpbm(b"P6\n1 1\n255\n"));
    assert!(probe_is_netpbm(b"Pf 1"));
    assert!(!probe_is_netpbm(b"P6x"));
    assert!(!probe_is_netpbm(b"P8\n"));
    assert!(!probe_is_netpbm(b"P6"));
}

#[test]
fn advertised_formats() {
    let h = parse_header(b"P5\n1 1\n65535\n\x00\x00").unwrap();
    assert_eq!(pick_advertised_format(&h), Some(PbmPixelFormat::Gray16Le));
    let h = parse_header(b"P7\nWIDTH 1\nHEIGHT 1\nDEPTH 2\nMAXVAL 65535\nTUPLTYPE GRAYSCALE_ALPHA\nENDHDR\n").unwrap();
    assert_eq!(pick_advertised_format(&h), None);
    let h = parse_header(b"PF\n1 1\n-1.0\n").unwrap();
    assert_eq!(pick_advertised_format(&h), None);
}

#[test]
fn multi_stream_mixes_plain_and_binary() {
    let mut stream = b"P2\n1 1\n255\n9\n".to_vec();
    stream.extend_from_slice(b"\n\nP5\n2 1\n255\n\x01\x02");
    let imgs = decode_pbm_multi(&stream).unwrap();
    assert_eq!(imgs.len(), 2);
    assert_eq!(imgs[0].0.planes[0].data, vec![9]);
    assert_eq!(imgs[1].0.planes[0].data, vec![1, 2]);
}

#[test]
fn multi_stream_comment_between_images_is_refused() {
    let stream = b"P5\n1 1\n255\n\x05# no\nP5\n1 1\n255\n\x06";
    assert!(matches!(decode_pbm_multi(stream), Err(PbmError::InvalidData(_))));
}

#[test]
fn encoder_takes_a_plane_that_validate_accepts() {
    let plane = PbmPlane { stride: 8, data: vec![1, 2, 3, 0, 0, 0, 0, 0, 4, 5, 6] };
    let img = image(PbmPixelFormat::Gray8, 3, 2, 8, plane.data.clone());
    assert_eq!(img.validate(), Ok(()));
    assert_eq!(
        encode_pbm_plane(&plane, PbmPixelFormat::Gray8, 3, 2).unwrap(),
        b"P5\n3 2\n255\n\x01\x02\x03\x04\x05\x06".to_vec()
    );
    assert_eq!(
        encode_pbm_ascii_plane(&plane, PbmPixelFormat::Gray8, 3, 2).unwrap(),
        b"P2\n3 2\n255\n1 2 3\n4 5 6\n".to_vec()
    );
    assert_eq!(
        encode_pbm_with_format(&img, PbmEncodeFormat::Pam7).unwrap(),
        encode_pbm_with_format(&image(PbmPixelFormat::Gray8, 3, 2, 3, vec![1, 2, 3, 4, 5, 6]), PbmEncodeFormat::Pam7).unwrap()
    );
    let fplane = PbmPlane { stride: 8, data: [1.0f32.to_le_bytes(), 0f32.to_le_bytes(), 2.0f32.to_le_bytes()].concat() };
    let out = encode_pbm_plane(&fplane, PbmPixelFormat::GrayF32, 1, 2).unwrap();
    let (back, _) = decode_pfm(&out).unwrap();
    assert_eq!(back.planes[0].data, [1.0f32.to_le_bytes(), 2.0f32.to_le_bytes()].concat());
}

#[test]
fn encoder_refuses_planes_whose_rows_run_past_the_data() {
    let zero_stride = PbmPlane { stride: 0, data: vec![] };
    assert!(matches!(
        encode_pbm_plane(&zero_stride, PbmPixelFormat::Gray8, 1, 1),
        Err(PbmError::InvalidData(_))
    ));
    let short = PbmPlane { stride: 1, data: vec![] };
    assert!(matches!(
        encode_pbm_ascii_plane(&short, PbmPixelFormat::Gray8, 1, 1),
        Err(PbmError::InvalidData(_))
    ));
    assert!(matches!(
        encode_pbm_ascii_plane(&short, PbmPixelFormat::Gray16Le, 1, 1),
        Err(PbmError::Unsupported(_))
    ));
    let huge = PbmPlane { stride: usize::MAX, data: vec![0; 4] };
    assert!(matches!(
        encode_pbm_plane(&huge, PbmPixelFormat::Gray8, 1, 2),
        Err(PbmError::InvalidData(_))
    ));
    let img = image(PbmPixelFormat::Rgb24, 2, 2, 6, vec![0; 11]);
    assert!(matches!(encode_pbm(&img), Err(PbmError::InvalidData(_))));
    assert!(matches!(encode_pbm_ascii(&img), Err(PbmError::InvalidData(_))));
    assert!(matches!(
        encode_pbm_with_format(&img, PbmEncodeFormat::Pnm6),
        Err(PbmError::InvalidData(_))
    ));
    let float = PbmPlane { stride: 4, data: vec![0; 7] };
    assert!(matches!(
        encode_pfm_plane_with_scale(&float, PbmPixelFormat::GrayF32, 1, 2, true, b"1.0"),
        Err(PbmError::InvalidData(_))
    ));
}

#[test]
fn sample_scaling_exact_values() {
    assert_eq!(scale_to_u8(1, 1), 255);
    assert_eq!(scale_to_u8(7, 15), 119);
    assert_eq!(scale_to_u8(200, 255), 200);
    assert_eq!(scale_to_u16(1, 3), 21845);
    assert_eq!(scale_to_u16(40000, 65535), 40000);
}

#[test]
fn pfm_round_trip_big_endian_with_magnitude() {
    let mut data = Vec::new();
    for v in [0.25f32, -3.0, 8.5, 1e-3, 7.0, 2.0] {
        data.extend_from_slice(&v.to_le_bytes());
    }
    let plane = PbmPlane { stride: 12, data: data.clone() };
    let bytes =
        encode_pfm_plane_with_scale(&plane, PbmPixelFormat::RgbF32, 1, 2, false, b"0.5").unwrap();
    let (img, info, n) = decode_pfm_consumed(&bytes).unwrap();
    assert_eq!(n, bytes.len());
    assert!(!info.little_endian);
    assert_eq!(info.scale_literal, b"0.5".to_vec());
    assert_eq!(info.channels, 3);
    assert_eq!(img.pixel_format, PbmPixelFormat::RgbF32);
    assert_eq!(img.planes[0].stride, 12);
    assert_eq!(img.planes[0].data, data);
}

#[test]
fn plain_bitmap_round_trip() {
    // 10 pixels wide: two bytes per row, six padding bits clear.
    let src = image(PbmPixelFormat::MonoBlack, 10, 2, 2, vec![0xa5, 0x40, 0x0f, 0xc0]);
    let text = encode_pbm_ascii(&src).unwrap();
    assert!(text.starts_with(b"P1\n10 2\n"));
    let (back, fmt) = decode_pbm(&text).unwrap();
    assert_eq!(fmt, PbmPixelFormat::MonoBlack);
    assert_eq!(back.planes[0].stride, 2);
    assert_eq!(back.planes[0].data, src.planes[0].data);
    let (_, _, n) = decode_pbm_consumed(&text).unwrap();
    assert_eq!(n, text.len() - 1);
}

#[test]
fn encoded_images_stream_back_in_order() {
    let a = image(PbmPixelFormat::Rgb24, 1, 1, 3, vec![1, 2, 3]);
    let b = image(PbmPixelFormat::Ya8, 2, 1, 4, vec![9, 8, 7, 6]);
    let c = image(PbmPixelFormat::Gray16Le, 1, 1, 2, vec![0x34, 0x12]);
    let mut stream = Vec::new();
    for img in [&a, &b, &c] {
        stream.extend_from_slice(b"\n ");
        stream.extend_from_slice(&encode_pbm(img).unwrap());
    }
    let imgs = decode_pbm_multi(&stream).unwrap();
    assert_eq!(imgs.len(), 3);
    for (got, want) in imgs.iter().zip([&a, &b, &c]) {
        assert_eq!(got.1, want.pixel_format);
        assert_eq!(got.0.width, want.width);
        assert_eq!(got.0.planes[0].data, want.planes[0].data);
    }
}

#[test]
fn decoded_images_validate() {
    for input in [
        &b"P4\n9 2\n\xff\x80\x00\x00"[..],
        &b"P3\n1 1\n7\n1 2 3\n"[..],
        &b"P7\nWIDTH 1\nHEIGHT 1\nDEPTH 4\nMAXVAL 65535\nTUPLTYPE RGB_ALPHA\nENDHDR\n\x00\x01\x00\x02\x00\x03\x00\x04"[..],
    ] {
        let (img, _) = decode_pbm(input).unwrap();
        assert_eq!(img.validate(), Ok(()));
    }
}

#[test]
fn validate_names_each_failure() {
    let mut img = image(PbmPixelFormat::Rgb24, 2, 2, 6, vec![0; 12]);
    assert_eq!(img.validate(), Ok(()));
    img.planes[0].data.truncate(11);
    assert_eq!(
        img.validate(),
        Err("PbmImage plane data is shorter than width × height demands")
    );
    img.planes[0].stride = 5;
    assert_eq!(
        img.validate(),
        Err("PbmImage plane stride is smaller than one packed row")
    );
    img.height = 0;
    assert_eq!(img.validate(), Err("PbmImage width and height must be non-zero"));
    img.planes.clear();
    assert_eq!(img.validate(), Err("PbmImage must have exactly one plane"));
}

#[test]
fn quad_swap_is_its_own_inverse() {
    let src = [1u8, 2, 3, 4, 5, 6, 7, 8];
    let mut once = [0u8; 8];
    let mut twice = [0u8; 8];
    oxideav_pbm::pfm::swap_bytes_u32_row(&src, &mut once);
    assert_eq!(once, [4, 3, 2, 1, 8, 7, 6, 5]);
    oxideav_pbm::pfm::swap_bytes_u32_row(&once, &mut twice);
    assert_eq!(twice, src);
}

#[test]
fn plain_and_binary_images_stream_back_in_order() {
    let a = image(PbmPixelFormat::Gray8, 2, 1, 2, vec![10, 200]);
    let b = image(PbmPixelFormat::MonoBlack, 3, 1, 1, vec![0xa0]);
    let c = image(PbmPixelFormat::Rgb24, 1, 1, 3, vec![7, 8, 9]);
    let mut stream = Vec::new();
    stream.extend_from_slice(b"\t");
    stream.extend_from_slice(&encode_pbm_ascii(&a).unwrap());
    stream.extend_from_slice(b"\t");
    stream.extend_from_slice(&encode_pbm(&b).unwrap());
    stream.extend_from_slice(b"\t");
    stream.extend_from_slice(&encode_pbm_ascii(&c).unwrap());
    let imgs = decode_pbm_multi(&stream).unwrap();
    assert_eq!(imgs.len(), 3);
    for (got, want) in imgs.iter().zip([&a, &b, &c]) {
        assert_eq!(got.1, want.pixel_format);
        assert_eq!(got.0.planes[0].data, want.planes[0].data);
    }
}

fn pfm_with_scale(scale: &str) -> Vec<u8> {
    let mut input = format!("Pf\n1 1\n{scale}\n").into_bytes();
    input.extend_from_slice(&[0, 0, 0, 0]);
    input
}

#[test]
fn pfm_scales_that_round_to_infinity_or_zero_are_refused() {
    for scale in ["1e39", "3.4028236e38", "-3.40282357e38", "7e-46", "-7.00649e-46", "1e-400"] {
        assert!(
            matches!(decode_pfm(&pfm_with_scale(scale)), Err(PbmError::InvalidData(_))),
            "scale {scale} should be refused"
        );
    }
}

#[test]
fn pfm_scales_at_the_edges_of_binary32_are_kept() {
    for scale in ["3.4028235e38", "-3.4028235e38", "1e-45", "7.1e-46", "340282356779733661637539395458142568447"] {
        let (_, info) = decode_pfm(&pfm_with_scale(scale)).unwrap();
        assert_eq!(info.scale_literal, scale.as_bytes().to_vec());
    }
}

#[test]
fn literal_rounding_matches_f32_parsing() {
    let cases = [
        "1", "-1.0", "1e38", "3.4028235e38", "3.4028236e38", "340282356779733661637539395458142568448",
        "340282356779733661637539395458142568447", "1e-45", "7e-46", "7.006492321624086e-46",
        "7.006492321624085e-46", "0.000", "0e999999999999999999999999", "1e999999999999999999999999",
        "1e-999999999999999999999999", "00012.5e-3", ".5", "5.", "123456789012345678901234567890e10",
    ];
    for t in cases {
        let v: f32 = t.parse().unwrap();
        let (inf, zero) = literal_rounding(t.as_bytes());
        assert_eq!(inf, v.is_infinite(), "{t}");
        assert_eq!(zero, v == 0.0, "{t}");
    }
}

#[test]
fn try_next_uint_reads_tokens_then_reports_the_end() {
    let input = b" 12 # note\n 7\t# tail";
    let mut c = 0usize;
    assert_eq!(try_next_uint(input, &mut c).unwrap(), Some(12));
    assert_eq!(c, 4);
    assert_eq!(try_next_uint(input, &mut c).unwrap(), Some(7));
    assert_eq!(c, 14);
    assert_eq!(try_next_uint(input, &mut c).unwrap(), None);
    assert_eq!(c, input.len());
    let mut far = input.len() + 3;
    assert_eq!(try_next_uint(input, &mut far).unwrap(), None);
    assert_eq!(far, input.len() + 3);
    let mut bad = 0usize;
    assert!(matches!(try_next_uint(b"  x", &mut bad), Err(PbmError::InvalidData(_))));
    let mut big = 0usize;
    assert!(matches!(try_next_uint(b"4294967296 ", &mut big), Err(PbmError::InvalidData(_))));
}

#[test]
fn next_uint_past_the_end_is_an_error() {
    let mut c = 10usize;
    assert!(matches!(next_uint(b"12", &mut c), Err(PbmError::InvalidData(_))));
    assert_eq!(c, 10);
    let mut d = 0usize;
    assert_eq!(next_uint(b"4294967295\n", &mut d).unwrap(), u32::MAX);
    assert_eq!(d, 11);
}

#[test]
fn plain_body_writer_puts_one_sample_per_line() {
    use_body_writer();
}

fn use_body_writer() {
    let body = oxideav_pbm::ascii::encode_ascii_body(&[0u16, 9, 65535], 3);
    assert_eq!(body, b"0\n9\n65535\n".to_vec());
    assert_eq!(oxideav_pbm::ascii::encode_ascii_body(&[], 4), b"\n".to_vec());
}

fn invalid_message<T>(r: Result<T, PbmError>) -> String {
    match r {
        Err(PbmError::InvalidData(m)) => m,
        Err(other) => panic!("expected invalid data, got {other:?}"),
        Ok(_) => panic!("expected an error"),
    }
}

#[test]
fn error_messages_name_the_fault() {
    for input in [&b"P1\n1 0\n1\n"[..], b"P2\n0 4\n255\n0\n", b"P5\n0 4\n255\n"] {
        assert_eq!(invalid_message(decode_pbm(input)), "Netpbm: zero width or height");
        assert_eq!(invalid_message(parse_header(input)), "Netpbm: zero width or height");
    }
    let pam = b"P7\nWIDTH 0\nHEIGHT 1\nDEPTH 1\nMAXVAL 255\nENDHDR\n\x00";
    assert_eq!(invalid_message(parse_header(pam)), "PAM: zero width or height");
    assert_eq!(invalid_message(decode_pbm(b"P2\n1 1\n0\n0\n")), "Netpbm: maxval 0 out of range 1..=65535");
    assert_eq!(
        invalid_message(decode_pbm(b"P5\n1 1\n131071\n\x00")),
        "Netpbm: maxval 131071 out of range 1..=65535"
    );
    assert_eq!(
        invalid_message(decode_pbm(b"P5\n2 2\n255\n\x00\x01")),
        "Netpbm: pixel data truncated"
    );
    let huge = b"P5\n2 200888808\n255\n\x00\x01\x02\x03";
    let h = parse_header(huge).unwrap();
    assert_eq!(
        invalid_message(oxideav_pbm::binary::decode_binary(&h, &huge[h.data_offset..])),
        "Netpbm: pixel data truncated"
    );
    let mut c = 0usize;
    assert_eq!(
        invalid_message(next_uint(b"xx 2", &mut c)),
        "Netpbm: expected decimal integer in header/body"
    );
    let mut c2 = 0usize;
    assert_eq!(
        invalid_message(next_uint(b"# c\n 4294967296 ", &mut c2)),
        "Netpbm: bad integer '4294967296': number too large to fit in target type u32"
    );
    assert_eq!(
        invalid_message(decode_pbm(b"P2\n2 1\n255\n3 x\n")),
        "Netpbm: expected decimal integer in header/body"
    );
    assert_eq!(invalid_message(decode_pbm(b"P1\n2 1\n1 2\n")), "PBM ASCII: expected '0'/'1', got 0x32");
    assert_eq!(invalid_message(decode_pbm(b"P1\n1 1\n\xff\n")), "PBM ASCII: expected '0'/'1', got 0xff");
    assert_eq!(invalid_message(decode_pbm(b"P1\n1 1\nx\n")), "PBM ASCII: expected '0'/'1', got 0x78");
    assert_eq!(
        invalid_message(decode_pbm(b"P2\n1 1\n255\n99999999999\n")),
        "Netpbm: bad integer '99999999999': number too large to fit in target type u32"
    );
    let pam_value = |line: &str| {
        let input = format!("P7\n{line}\nHEIGHT 1\nDEPTH 1\nMAXVAL 255\nENDHDR\n\x00");
        invalid_message(parse_header(input.as_bytes()))
    };
    assert_eq!(pam_value("WIDTH x1"), "PAM: bad integer 'x1': invalid digit found in string");
    assert_eq!(pam_value("WIDTH"), "PAM: bad integer '': cannot parse integer from empty string");
    assert_eq!(pam_value("WIDTH +"), "PAM: bad integer '+': invalid digit found in string");
    assert_eq!(
        pam_value("WIDTH 99999999999x"),
        "PAM: bad integer '99999999999x': number too large to fit in target type"
    );
    assert_eq!(pam_value("WIDTH 12x"), "PAM: bad integer '12x': invalid digit found in string");
    assert_eq!(pam_value("WIDTH 1\nMAXVAL 70000"), "PAM: maxval 70000 out of range 1..=65535");
    let depth = b"P7\nWIDTH 1\nHEIGHT 1\nDEPTH 7\nMAXVAL 255\nENDHDR\n\x00";
    match parse_header(depth) {
        Err(PbmError::Unsupported(m)) => assert_eq!(m, "PAM: DEPTH 7 out of round-1 range 1..=4"),
        other => panic!("unexpected {other:?}"),
    }
    let tupl = b"P7\nWIDTH 1\nHEIGHT 1\nDEPTH 1\nMAXVAL 255\nTUPLTYPE RGB\nENDHDR\n\x00";
    assert_eq!(invalid_message(parse_header(tupl)), "PAM: TUPLTYPE RGB expects depth 3, header says 1");
    assert_eq!(
        invalid_message(decode_pfm(b"Pf\n1 y\n-1.0\n\x00\x00\x00\x00")),
        "PAM: bad integer 'y': invalid digit found in string"
    );
    assert_eq!(invalid_message(decode_pfm(b"Pf\n0 1\n-1.0\n")), "PFM: zero dimension");
    assert_eq!(
        invalid_message(decode_pfm(b"Pf\n1 1\n1.0x\n\x00\x00\x00\x00")),
        "PFM: bad scale '1.0x': invalid float literal"
    );
    assert_eq!(
        invalid_message(decode_pfm(b"Pf\n1 1\n \n\x00\x00\x00\x00")),
        "PFM: bad scale '': cannot parse float from empty string"
    );
    let gray = image(PbmPixelFormat::Gray8, 1, 1, 1, vec![0]);
    match encode_pbm_with_format(&gray, PbmEncodeFormat::Pnm1) {
        Err(PbmError::Unsupported(m)) => assert_eq!(m, "PBM encoder: pixel format Gray8 cannot be emitted as P1"),
        other => panic!("unexpected {other:?}"),
    }
    let ya = image(PbmPixelFormat::Ya16Le, 1, 1, 4, vec![0; 4]);
    match encode_pbm_ascii(&ya) {
        Err(PbmError::Unsupported(m)) => assert_eq!(m, "PBM ASCII encoder: pixel format Ya16Le not supported"),
        other => panic!("unexpected {other:?}"),
    }
    match encode_pfm_plane_with_scale(&gray.planes[0], PbmPixelFormat::Gray8, 1, 1, true, b"1.0") {
        Err(PbmError::Unsupported(m)) => assert_eq!(m, "PFM encoder: pixel format Gray8 is not a float map"),
        other => panic!("unexpected {other:?}"),
    }
    assert_eq!(
        invalid_message(decode_pfm(b"Pf\n1 1\n-1.0\r\n\x00\x00\x00\x00")),
        "PFM: carriage return in header (CRLF line endings are not allowed)"
    );
    assert_eq!(
        invalid_message(decode_pfm(b"P5\n1 1\n255\n\x00")),
        "PFM: input is not a Portable FloatMap (Pf/PF) stream"
    );
}

#[test]
fn auto_selectors_match_the_plain_and_binary_writers() {
    let img = image(PbmPixelFormat::Gray8, 2, 2, 2, vec![1, 2, 3, 4]);
    assert_eq!(encode_pbm_with_format(&img, PbmEncodeFormat::AutoBinary).unwrap(), encode_pbm(&img).unwrap());
    assert_eq!(encode_pbm_with_format(&img, PbmEncodeFormat::AutoAscii).unwrap(), encode_pbm_ascii(&img).unwrap());
    assert!(matches!(encode_pbm_with_format(&img, PbmEncodeFormat::Pnm6), Err(PbmError::Unsupported(_))));
    assert!(matches!(encode_pbm_with_format(&img, PbmEncodeFormat::Pfm), Err(PbmError::Unsupported(_))));
    assert!(encode_pbm_with_format(&img, PbmEncodeFormat::Pam7).is_ok());
    let mono = image(PbmPixelFormat::MonoBlack, 3, 1, 1, vec![0xa0]);
    assert!(matches!(encode_pbm_with_format(&mono, PbmEncodeFormat::Pam7), Err(PbmError::Unsupported(_))));
}

#[test]
fn row_padding_never_reaches_the_output() {
    let a = image(PbmPixelFormat::Rgb24, 1, 2, 5, vec![1, 2, 3, 0, 0, 4, 5, 6, 9, 9]);
    let b = image(PbmPixelFormat::Rgb24, 1, 2, 5, vec![1, 2, 3, 7, 8, 4, 5, 6]);
    assert_eq!(encode_pbm(&a).unwrap(), encode_pbm(&b).unwrap());
}

#[test]
fn standard_tuple_type_names_round_trip() {
    for name in ["BLACKANDWHITE", "GRAYSCALE", "RGB", "BLACKANDWHITE_ALPHA", "GRAYSCALE_ALPHA", "RGB_ALPHA"] {
        let t = Tupltype::parse(name).unwrap();
        assert_eq!(t.name(), name);
        assert!(!matches!(t, Tupltype::Custom(_)));
    }
}

#[test]
fn written_images_read_back_whatever_follows() {
    let cases = vec![
        image(PbmPixelFormat::MonoBlack, 3, 2, 2, vec![0xff, 0x11, 0xa7, 0x22]),
        image(PbmPixelFormat::Gray8, 2, 2, 3, vec![1, 2, 99, 3, 4]),
        image(PbmPixelFormat::Bgra, 1, 1, 4, vec![1, 2, 3, 4]),
        image(PbmPixelFormat::Gray16Le, 1, 2, 3, vec![1, 2, 7, 3, 4]),
        image(PbmPixelFormat::GrayF32, 1, 2, 5, [1.5f32.to_le_bytes().to_vec(), vec![9], 2.5f32.to_le_bytes().to_vec()].concat()),
    ];
    for img in &cases {
        let bytes = encode_pbm(img).unwrap();
        let (a, fa, na) = decode_pbm_consumed(&bytes).unwrap();
        assert_eq!(na, bytes.len());
        for rest in [&b""[..], b"123", b"\n\nP5 garbage", b"\x00\xff"] {
            let input = [bytes.clone(), rest.to_vec()].concat();
            let (b, fb, nb) = decode_pbm_consumed(&input).unwrap();
            assert_eq!(nb, bytes.len());
            assert_eq!((a.width, a.height, a.pixel_format, fa), (b.width, b.height, b.pixel_format, fb));
            assert_eq!(a.planes[0].stride, b.planes[0].stride);
            assert_eq!(a.planes[0].data, b.planes[0].data);
        }
    }
    let (mono, _) = decode_pbm(&encode_pbm(&cases[0]).unwrap()).unwrap();
    assert_eq!(mono.planes[0].data, vec![0xe0, 0xa0]);
    let (bgra, f) = decode_pbm(&encode_pbm(&cases[2]).unwrap()).unwrap();
    assert_eq!((f, bgra.planes[0].data.clone()), (PbmPixelFormat::Rgba, vec![3, 2, 1, 4]));
    for img in &cases[..2] {
        let text = encode_pbm_ascii(img).unwrap();
        for rest in [&b""[..], b"77", b"P1\n1 1\n1\n"] {
            let input = [text.clone(), rest.to_vec()].concat();
            let (_, _, n) = decode_pbm_consumed(&input).unwrap();
            assert_eq!(n, text.len() - 1);
        }
    }
}

#[test]
fn streams_with_their_own_gaps_and_a_trailing_run() {
    let a = encode_pbm(&image(PbmPixelFormat::Gray8, 1, 1, 1, vec![5])).unwrap();
    let b = encode_pbm_ascii(&image(PbmPixelFormat::Rgb24, 1, 1, 3, vec![1, 2, 3])).unwrap();
    let s = [a.clone(), b"\t\n ".to_vec(), b.clone(), b"\x0b\x0c\r\n".to_vec()].concat();
    let v = decode_pbm_multi(&s).unwrap();
    assert_eq!(v.len(), 2);
    assert_eq!(v[0].0.planes[0].data, decode_pbm(&a).unwrap().0.planes[0].data);
    assert_eq!(v[1].0.planes[0].data, decode_pbm(&b).unwrap().0.planes[0].data);
}

#[test]
fn float_map_writer_consumed_count_ignores_what_follows() {
    let plane = PbmPlane { stride: 4, data: 3.0f32.to_le_bytes().to_vec() };
    let bytes = encode_pfm_plane_with_scale(&plane, PbmPixelFormat::GrayF32, 1, 1, false, b"2.0").unwrap();
    for rest in [&b""[..], b"junk", b"Pf\n"] {
        let input = [bytes.clone(), rest.to_vec()].concat();
        let (img, info, n) = decode_pfm_consumed(&input).unwrap();
        assert_eq!(n, bytes.len());
        assert!(!info.little_endian);
        assert_eq!(info.channels, 1);
        assert_eq!(img.planes[0].data, 3.0f32.to_le_bytes().to_vec());
    }
    assert!(decode_pfm_consumed(b"P5\n2 2\n255\n\x00\x01\x02\x03").is_err());
}
