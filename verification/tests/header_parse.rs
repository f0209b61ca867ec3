use oxideav_pbm::header::{iter_pnm_header_comments, parse_header, Magic, PfmInfo, Tupltype};

/// Every comment the header walker yields, in order.
fn all_comments(buf: &[u8]) -> Vec<&[u8]> {
    let mut it = iter_pnm_header_comments(buf);
    let mut out = Vec::new();
    while let Some(c) = it.next() {
        out.push(c);
    }
    out
}

/// The scale factor a PFM header carries: the absolute value of its
/// scale line.
fn header_scale_of(info: &PfmInfo) -> f32 {
    std::str::from_utf8(&info.scale_literal)
        .unwrap()
        .parse::<f32>()
        .unwrap()
        .abs()
}


#[test]
fn parses_p4_header_with_comments() {
    let buf = b"P4\n# created by GIMP\n8 4\n\xFF\x00\xFF\x00";
    let h = parse_header(buf).unwrap();
    assert_eq!(h.magic, Magic::P4BinaryBitmap);
    assert_eq!(h.width, 8);
    assert_eq!(h.height, 4);
    assert_eq!(h.maxval, 1);
    assert_eq!(h.depth, 1);
    assert_eq!(h.bits_per_sample(), 1);
    // First pixel byte should be 0xFF.
    assert_eq!(buf[h.data_offset], 0xFF);
}

#[test]
fn parses_p6_header_16bit() {
    let buf = b"P6\n2 1\n65535\n\x00\x00\x00\x00\x00\x00";
    let h = parse_header(buf).unwrap();
    assert_eq!(h.magic, Magic::P6BinaryPixmap);
    assert_eq!(h.width, 2);
    assert_eq!(h.height, 1);
    assert_eq!(h.maxval, 65535);
    assert_eq!(h.depth, 3);
    assert_eq!(h.bits_per_sample(), 16);
}

#[test]
fn parses_p7_pam_header() {
    let buf = b"P7\nWIDTH 4\nHEIGHT 2\nDEPTH 4\nMAXVAL 255\nTUPLTYPE RGB_ALPHA\nENDHDR\nDATA";
    let h = parse_header(buf).unwrap();
    assert_eq!(h.magic, Magic::P7Pam);
    assert_eq!(h.width, 4);
    assert_eq!(h.height, 2);
    assert_eq!(h.depth, 4);
    assert_eq!(h.maxval, 255);
    assert_eq!(h.tupltype, Some(Tupltype::RgbAlpha));
    assert_eq!(&buf[h.data_offset..], b"DATA");
}

#[test]
fn rejects_unknown_magic() {
    assert!(parse_header(b"P9\n2 2\n\x00\x00\x00\x00").is_err());
}

#[test]
fn accepts_user_defined_tupltype() {
    // PAM lets the producer name an arbitrary TUPLTYPE (depth maps,
    // RGBE light probes, scientific multi-channel volumes, ...).
    // We round-trip the name verbatim and let DEPTH drive the
    // channel count.
    let buf = b"P7\nWIDTH 2\nHEIGHT 1\nDEPTH 3\nMAXVAL 255\nTUPLTYPE DEPTH_MAP\nENDHDR\nABCDEF";
    let h = parse_header(buf).unwrap();
    assert_eq!(h.magic, Magic::P7Pam);
    assert_eq!(h.depth, 3);
    assert_eq!(h.maxval, 255);
    match &h.tupltype {
        Some(Tupltype::Custom(s)) => assert_eq!(s, "DEPTH_MAP"),
        other => panic!("expected Custom(DEPTH_MAP), got {other:?}"),
    }
    assert!(h.tupltype.as_ref().unwrap().is_custom());
    assert_eq!(h.tupltype.as_ref().unwrap().channels(), None);
    assert_eq!(h.tupltype.as_ref().unwrap().name(), "DEPTH_MAP");
    assert_eq!(&buf[h.data_offset..], b"ABCDEF");
}

#[test]
fn custom_tupltype_with_any_depth_in_range() {
    // depth=4 → routes through depth-fallback (no Custom <-> depth check).
    let buf =
        b"P7\nWIDTH 1\nHEIGHT 1\nDEPTH 4\nMAXVAL 255\nTUPLTYPE RGBE\nENDHDR\n\x01\x02\x03\x04";
    let h = parse_header(buf).unwrap();
    assert_eq!(h.tupltype.as_ref().map(|t| t.name()), Some("RGBE"));
    assert_eq!(h.depth, 4);
}

#[test]
fn rejects_empty_tupltype_value() {
    // Empty TUPLTYPE is a malformed header — not a Custom("") variant.
    let buf = b"P7\nWIDTH 1\nHEIGHT 1\nDEPTH 1\nMAXVAL 255\nTUPLTYPE\nENDHDR\n\x00";
    let h = parse_header(buf);
    assert!(h.is_err(), "expected error, got {h:?}");
}

#[test]
fn parses_pfm_rgb_little_endian_header() {
    let buf = b"PF\n4 3\n-1.0\n\x00\x00\x00\x00";
    let h = parse_header(buf).unwrap();
    assert_eq!(h.magic, Magic::PFPfmRgbFloat);
    assert_eq!(h.width, 4);
    assert_eq!(h.height, 3);
    assert_eq!(h.depth, 3);
    let info = h.pfm.expect("pfm metadata");
    assert!(info.little_endian);
    assert_eq!(header_scale_of(&info), 1.0);
    // Header is "PF\n4 3\n-1.0\n" = 12 bytes; the lone payload byte
    // follows.
    assert_eq!(h.data_offset, 12);
}

#[test]
fn parses_pfm_gray_big_endian_header_with_scale() {
    let buf = b"Pf\n2 2\n2.5\nbody";
    let h = parse_header(buf).unwrap();
    assert_eq!(h.magic, Magic::PfPfmGrayFloat);
    assert_eq!(h.depth, 1);
    let info = h.pfm.expect("pfm metadata");
    assert!(!info.little_endian);
    assert_eq!(header_scale_of(&info), 2.5);
    assert_eq!(&buf[h.data_offset..], b"body");
}

#[test]
fn pfm_rejects_crlf_in_header() {
    let buf = b"PF\r\n4 3\r\n-1.0\r\n";
    assert!(parse_header(buf).is_err());
}

#[test]
fn pfm_rejects_comment_in_header() {
    let buf = b"PF\n# a comment\n4 3\n-1.0\n";
    assert!(parse_header(buf).is_err());
}

#[test]
fn pfm_rejects_nan_scale() {
    let buf = b"Pf\n2 2\nNaN\n";
    assert!(parse_header(buf).is_err());
}

#[test]
fn pfm_rejects_zero_dimension() {
    let buf = b"Pf\n0 2\n-1.0\n";
    assert!(parse_header(buf).is_err());
}

#[test]
fn iter_comments_p4_yields_single_header_comment() {
    // The same fixture as `parses_p4_header_with_comments` — the
    // PNM header carries one `# created by GIMP` comment between
    // the magic and the dimensions line.
    let buf = b"P4\n# created by GIMP\n8 4\n\xFF\x00\xFF\x00";
    let comments: Vec<&[u8]> = all_comments(buf);
    assert_eq!(comments, vec![&b"created by GIMP"[..]]);
}

#[test]
fn iter_comments_p3_walks_every_header_comment() {
    // Multiple comments interleaved with the magic / dimensions /
    // maxval tokens. The iterator must yield them in order, trim
    // surrounding whitespace, and stop at the start of the pixel
    // data (so the body comment between samples is *not* yielded —
    // it lives past `data_offset` for the ASCII case).
    let buf = b"P3\n# first\n#  second  \n2 1 # inline tail\n255\n0 0 0 1 1 1\n";
    let comments: Vec<&[u8]> = all_comments(buf);
    // The header-region comments end at the LF following the
    // maxval `255`; the `# inline tail` after `1` is also part of
    // the header (it precedes the maxval token), so it is yielded.
    assert_eq!(
        comments,
        vec![&b"first"[..], &b"second"[..], &b"inline tail"[..],]
    );
}

#[test]
fn iter_comments_p7_walks_pam_block_comments() {
    // PAM is line-based and explicitly tolerates blank lines and
    // `# …` comment lines inside the KEY VALUE block before
    // ENDHDR. The iterator yields each comment text trimmed.
    let buf = b"P7\n# tool: oxideav-pbm\nWIDTH 2\n#       resolution note\nHEIGHT 1\nDEPTH 3\nMAXVAL 255\nTUPLTYPE RGB\nENDHDR\n\x00\x00\x00\x00\x00\x00";
    let comments: Vec<&[u8]> = all_comments(buf);
    assert_eq!(
        comments,
        vec![&b"tool: oxideav-pbm"[..], &b"resolution note"[..]]
    );
}

#[test]
fn iter_comments_pfm_yields_nothing() {
    // Portable FloatMap explicitly forbids comments. A well-formed
    // PFM input has none, and (per the strict parser) one bearing
    // a `#` in the header is rejected; the iterator surfaces the
    // spec rule by yielding nothing for both cases.
    let buf = b"PF\n4 3\n-1.0\n\x00\x00\x00\x00";
    let comments: Vec<&[u8]> = all_comments(buf);
    assert_eq!(comments, Vec::<&[u8]>::new());
    // And the rejected (`#` in header) case yields nothing too,
    // because the header parse fails and the accessor falls back
    // to an empty iterator rather than walking a malformed input.
    let bad = b"PF\n# comment\n4 3\n-1.0\n";
    let comments: Vec<&[u8]> = all_comments(bad);
    assert_eq!(comments, Vec::<&[u8]>::new());
}

#[test]
fn iter_comments_unrecognised_input_is_empty() {
    // Not a Netpbm magic at all → the iterator just yields nothing.
    let comments: Vec<&[u8]> = all_comments(b"hello world");
    assert_eq!(comments, Vec::<&[u8]>::new());
}

#[test]
fn iter_comments_stops_at_pixel_data_for_binary_magic() {
    // A P5 header followed by raw 8-bit pixel data that happens to
    // contain a `#` byte (which is a perfectly valid sample
    // value, 0x23). The iterator must NOT misread that as a
    // comment — it stops at `data_offset`.
    let buf = b"P5\n# header\n2 1\n255\n\x23\x23";
    let comments: Vec<&[u8]> = all_comments(buf);
    assert_eq!(comments, vec![&b"header"[..]]);
}

#[test]
fn magic_wire_bytes_round_trips_through_from_bytes() {
    // Every recognised variant must hand back its canonical on-disk
    // identifier, and `from_bytes` must accept it: the two halves of
    // the typed primitive form a closed loop. Catches accidental
    // mis-typed table entries (e.g. `b"P1"` vs `b"p1"`, swapped
    // `Pf` / `PF` case) at compile + test time so the encoder can
    // funnel every magic write through `wire_bytes()` without an
    // open-coded literal table.
    for m in [
        Magic::P1AsciiBitmap,
        Magic::P2AsciiGraymap,
        Magic::P3AsciiPixmap,
        Magic::P4BinaryBitmap,
        Magic::P5BinaryGraymap,
        Magic::P6BinaryPixmap,
        Magic::P7Pam,
        Magic::PfPfmGrayFloat,
        Magic::PFPfmRgbFloat,
    ] {
        let wire = m.wire_bytes();
        let bytes = &wire[..];
        assert_eq!(
            bytes.len(),
            2,
            "every Netpbm magic is exactly two bytes on disk"
        );
        assert_eq!(bytes[0], b'P', "Netpbm magic always starts with 'P'");
        assert_eq!(
            Magic::from_bytes(bytes),
            Some(m),
            "wire_bytes ↔ from_bytes must round-trip for {m:?}"
        );
    }
}

#[test]
fn magic_wire_bytes_case_sensitivity_for_pfm() {
    // `Pf` and `PF` differ only in case; the PFM spec is
    // case-sensitive (lowercase `f` = single-channel grayscale,
    // uppercase `F` = 3-channel RGB) so the typed accessor must
    // preserve both halves rather than collapsing them.
    assert_eq!(&Magic::PfPfmGrayFloat.wire_bytes(), b"Pf");
    assert_eq!(&Magic::PFPfmRgbFloat.wire_bytes(), b"PF");
    assert_ne!(
        Magic::PfPfmGrayFloat.wire_bytes(),
        Magic::PFPfmRgbFloat.wire_bytes()
    );
}

#[test]
fn magic_is_binary_is_exact_complement_of_is_ascii() {
    // The typed predicate is symmetric with `is_ascii` — every
    // recognised magic is exactly one of the two. Encoders that
    // need to branch on body-shape (e.g. ASCII vs binary writers)
    // can use either; the symmetry test pins the contract so a
    // future variant added without updating one of the predicates
    // is caught here rather than at the call site.
    for m in [
        Magic::P1AsciiBitmap,
        Magic::P2AsciiGraymap,
        Magic::P3AsciiPixmap,
        Magic::P4BinaryBitmap,
        Magic::P5BinaryGraymap,
        Magic::P6BinaryPixmap,
        Magic::P7Pam,
        Magic::PfPfmGrayFloat,
        Magic::PFPfmRgbFloat,
    ] {
        assert_ne!(
            m.is_ascii(),
            m.is_binary(),
            "is_ascii and is_binary must partition the magic set for {m:?}"
        );
    }
    // Spot-check both sides of the partition explicitly.
    assert!(Magic::P1AsciiBitmap.is_ascii() && !Magic::P1AsciiBitmap.is_binary());
    assert!(Magic::P4BinaryBitmap.is_binary() && !Magic::P4BinaryBitmap.is_ascii());
    assert!(Magic::PfPfmGrayFloat.is_binary());
    assert!(Magic::PFPfmRgbFloat.is_binary());
}

#[test]
fn magic_is_pnm_is_exact_complement_of_is_pfm() {
    // `is_pnm` is the typed dispatch hinge for "this magic is in the
    // integer P1..=P7 family"; it must complement `is_pfm` exactly
    // so callers can pick either side of the partition without
    // tripping on a future variant. Mirrors the
    // is_ascii ↔ is_binary symmetry above.
    for m in [
        Magic::P1AsciiBitmap,
        Magic::P2AsciiGraymap,
        Magic::P3AsciiPixmap,
        Magic::P4BinaryBitmap,
        Magic::P5BinaryGraymap,
        Magic::P6BinaryPixmap,
        Magic::P7Pam,
        Magic::PfPfmGrayFloat,
        Magic::PFPfmRgbFloat,
    ] {
        assert_ne!(
            m.is_pnm(),
            m.is_pfm(),
            "is_pnm and is_pfm must partition the magic set for {m:?}"
        );
    }
    // Spot-check the two non-PNM members (the only ones in the PFM
    // family) — every other variant lives on the PNM side.
    assert!(Magic::PfPfmGrayFloat.is_pfm() && !Magic::PfPfmGrayFloat.is_pnm());
    assert!(Magic::PFPfmRgbFloat.is_pfm() && !Magic::PFPfmRgbFloat.is_pnm());
    assert!(Magic::P7Pam.is_pnm() && !Magic::P7Pam.is_pfm());
}

#[test]
fn standard_tupltype_channel_check_still_applies() {
    // DEPTH 4 with RGB (which pins 3 channels) is still rejected —
    // the Custom escape hatch doesn't loosen the standard-name check.
    let buf =
        b"P7\nWIDTH 1\nHEIGHT 1\nDEPTH 4\nMAXVAL 255\nTUPLTYPE RGB\nENDHDR\n\x00\x00\x00\x00";
    let h = parse_header(buf);
    assert!(h.is_err(), "expected error, got {h:?}");
}
