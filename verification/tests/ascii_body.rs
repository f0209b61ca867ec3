use oxideav_pbm::ascii::{decode_ascii, encode_ascii_body, write_u16_dec, write_u8_dec};
use oxideav_pbm::header::{next_uint, parse_header};
use oxideav_pbm::lex::skip_ws_and_comments;


#[test]
fn decode_p1_packed_digits_no_whitespace() {
    let buf = b"P1\n4 2\n10100110\n";
    let h = parse_header(buf).unwrap();
    let d = decode_ascii(&h, &buf[h.data_offset..]).unwrap();
    assert_eq!(d.samples, vec![1, 0, 1, 0, 0, 1, 1, 0]);
}

#[test]
fn decode_p2_with_inline_comment() {
    let buf = b"P2\n2 2\n255\n0 # half row comment\n128\n# midline\n200 50\n";
    let h = parse_header(buf).unwrap();
    let d = decode_ascii(&h, &buf[h.data_offset..]).unwrap();
    assert_eq!(d.samples, vec![0, 128, 200, 50]);
}

#[test]
fn ascii_huge_dimension_does_not_oom() {
    // A P2 header that claims width=2, height=200_000_000 with
    // maxval=50 over only a few bytes of body must be rejected up
    // front with InvalidData, before any sample buffer is sized
    // from the claimed dimensions.
    let buf = b"P2\n2 200888808\n50\n0 0 0 0";
    let h = parse_header(buf).unwrap();
    let err = decode_ascii(&h, &buf[h.data_offset..]).unwrap_err();
    match err {
        oxideav_pbm::PbmError::InvalidData(s) => {
            assert!(
                s.contains("declared dimensions exceed body length"),
                "unexpected message: {s}"
            );
        }
        other => panic!("expected InvalidData, got {other:?}"),
    }
}

#[test]
fn decode_p3_clamps_above_maxval() {
    let buf = b"P3\n1 1\n100\n200 50 75\n";
    let h = parse_header(buf).unwrap();
    let d = decode_ascii(&h, &buf[h.data_offset..]).unwrap();
    assert_eq!(d.samples, vec![100, 50, 75]);
}

#[test]
fn ascii_body_round_trips_through_decoder() {
    // The optimised writer must produce a byte sequence that the
    // optimised reader can round-trip exactly. Use values that
    // exercise the 1 / 2 / 3 / 4-digit branches in `write_u16_dec`.
    let samples: Vec<u16> = vec![0, 9, 10, 99, 100, 999, 1000, 9999, 65535, 1];
    let body = encode_ascii_body(&samples, samples.len() as u32);
    // Manually feed it back through `next_uint` (the body has a
    // trailing LF the parser tolerates as whitespace).
    let mut cursor = 0usize;
    let mut got: Vec<u32> = Vec::new();
    while cursor < body.len() {
        skip_ws_and_comments(&body, &mut cursor);
        if cursor >= body.len() {
            break;
        }
        got.push(next_uint(&body, &mut cursor).unwrap());
    }
    let want: Vec<u32> = samples.iter().map(|&v| v as u32).collect();
    assert_eq!(got, want);
}

#[test]
fn ascii_decoder_rejects_overflow_integer() {
    // `next_uint` accumulates into a `u32`; a 13-digit run should
    // hit the `checked_mul`/`checked_add` overflow guard rather
    // than truncating silently.
    let buf = b"P2\n10 1\n65535\n12345678901234 0 0 0 0 0 0 0 0 0\n";
    let h = parse_header(buf).unwrap();
    let err = decode_ascii(&h, &buf[h.data_offset..]).unwrap_err();
    match err {
        oxideav_pbm::PbmError::InvalidData(s) => {
            assert!(s.contains("overflow") || s.contains("u32"), "got: {s}");
        }
        other => panic!("expected InvalidData, got {other:?}"),
    }
}

#[test]
fn write_u8_dec_covers_all_digit_widths() {
    let cases: &[(u8, &[u8])] = &[
        (0, b"0"),
        (5, b"5"),
        (9, b"9"),
        (10, b"10"),
        (42, b"42"),
        (99, b"99"),
        (100, b"100"),
        (250, b"250"),
        (255, b"255"),
    ];
    for (v, want) in cases {
        let mut out = Vec::new();
        write_u8_dec(&mut out, *v);
        assert_eq!(out.as_slice(), *want, "u8 {v}");
    }
}

#[test]
fn write_u16_dec_covers_all_digit_widths() {
    let cases: &[(u16, &[u8])] = &[
        (0, b"0"),
        (10, b"10"),
        (255, b"255"),
        (256, b"256"),
        (999, b"999"),
        (1000, b"1000"),
        (65535, b"65535"),
    ];
    for (v, want) in cases {
        let mut out = Vec::new();
        write_u16_dec(&mut out, *v);
        assert_eq!(out.as_slice(), *want, "u16 {v}");
    }
}
