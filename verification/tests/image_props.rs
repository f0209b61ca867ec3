use oxideav_pbm::image::{PbmImage, PbmPixelFormat, PbmPlane};


#[test]
fn channel_counts_match_format_family() {
    assert_eq!(PbmPixelFormat::MonoBlack.channels(), 1);
    assert_eq!(PbmPixelFormat::Gray8.channels(), 1);
    assert_eq!(PbmPixelFormat::Gray16Le.channels(), 1);
    assert_eq!(PbmPixelFormat::GrayF32.channels(), 1);
    assert_eq!(PbmPixelFormat::Ya8.channels(), 2);
    assert_eq!(PbmPixelFormat::Ya16Le.channels(), 2);
    assert_eq!(PbmPixelFormat::Rgb24.channels(), 3);
    assert_eq!(PbmPixelFormat::Rgb48Le.channels(), 3);
    assert_eq!(PbmPixelFormat::RgbF32.channels(), 3);
    assert_eq!(PbmPixelFormat::Rgba.channels(), 4);
    assert_eq!(PbmPixelFormat::Bgra.channels(), 4);
    assert_eq!(PbmPixelFormat::Rgba64Le.channels(), 4);
}

#[test]
fn bits_per_channel_match_format_family() {
    assert_eq!(PbmPixelFormat::MonoBlack.bits_per_channel(), 1);
    for f in [
        PbmPixelFormat::Gray8,
        PbmPixelFormat::Rgb24,
        PbmPixelFormat::Rgba,
        PbmPixelFormat::Bgra,
        PbmPixelFormat::Ya8,
    ] {
        assert_eq!(f.bits_per_channel(), 8, "{f:?}");
    }
    for f in [
        PbmPixelFormat::Gray16Le,
        PbmPixelFormat::Rgb48Le,
        PbmPixelFormat::Rgba64Le,
        PbmPixelFormat::Ya16Le,
    ] {
        assert_eq!(f.bits_per_channel(), 16, "{f:?}");
    }
    assert_eq!(PbmPixelFormat::GrayF32.bits_per_channel(), 32);
    assert_eq!(PbmPixelFormat::RgbF32.bits_per_channel(), 32);
}

#[test]
fn bytes_per_pixel_is_none_only_for_monoblack() {
    assert_eq!(PbmPixelFormat::MonoBlack.bytes_per_pixel(), None);
    let cases: &[(PbmPixelFormat, usize)] = &[
        (PbmPixelFormat::Gray8, 1),
        (PbmPixelFormat::Gray16Le, 2),
        (PbmPixelFormat::Ya8, 2),
        (PbmPixelFormat::Ya16Le, 4),
        (PbmPixelFormat::Rgb24, 3),
        (PbmPixelFormat::Rgb48Le, 6),
        (PbmPixelFormat::Rgba, 4),
        (PbmPixelFormat::Bgra, 4),
        (PbmPixelFormat::Rgba64Le, 8),
        (PbmPixelFormat::GrayF32, 4),
        (PbmPixelFormat::RgbF32, 12),
    ];
    for (f, want) in cases {
        assert_eq!(f.bytes_per_pixel(), Some(*want), "{f:?}");
        // Cross-check the derivation: bpp == channels * bytes/channel.
        assert_eq!(*want, f.channels() * (f.bits_per_channel() / 8));
    }
}

#[test]
fn float_predicate_covers_only_the_two_floatmap_formats() {
    assert!(PbmPixelFormat::GrayF32.is_float());
    assert!(PbmPixelFormat::RgbF32.is_float());
    for f in [
        PbmPixelFormat::MonoBlack,
        PbmPixelFormat::Gray8,
        PbmPixelFormat::Gray16Le,
        PbmPixelFormat::Rgb24,
        PbmPixelFormat::Rgb48Le,
        PbmPixelFormat::Rgba,
        PbmPixelFormat::Bgra,
        PbmPixelFormat::Rgba64Le,
        PbmPixelFormat::Ya8,
        PbmPixelFormat::Ya16Le,
    ] {
        assert!(!f.is_float(), "{f:?}");
    }
}

#[test]
fn alpha_predicate_covers_the_alpha_formats() {
    for f in [
        PbmPixelFormat::Ya8,
        PbmPixelFormat::Ya16Le,
        PbmPixelFormat::Rgba,
        PbmPixelFormat::Bgra,
        PbmPixelFormat::Rgba64Le,
    ] {
        assert!(f.has_alpha(), "{f:?}");
    }
    for f in [
        PbmPixelFormat::MonoBlack,
        PbmPixelFormat::Gray8,
        PbmPixelFormat::Gray16Le,
        PbmPixelFormat::GrayF32,
        PbmPixelFormat::Rgb24,
        PbmPixelFormat::Rgb48Le,
        PbmPixelFormat::RgbF32,
    ] {
        assert!(!f.has_alpha(), "{f:?}");
    }
}

#[test]
fn color_and_bilevel_predicates_partition_correctly() {
    for f in [
        PbmPixelFormat::Rgb24,
        PbmPixelFormat::Rgb48Le,
        PbmPixelFormat::RgbF32,
        PbmPixelFormat::Rgba,
        PbmPixelFormat::Bgra,
        PbmPixelFormat::Rgba64Le,
    ] {
        assert!(f.is_color(), "{f:?}");
        assert!(!f.is_bilevel(), "{f:?}");
    }
    // MonoBlack is the only bilevel format and is not "color".
    assert!(PbmPixelFormat::MonoBlack.is_bilevel());
    assert!(!PbmPixelFormat::MonoBlack.is_color());
    // Gray / Ya are neither color nor bilevel.
    for f in [
        PbmPixelFormat::Gray8,
        PbmPixelFormat::Gray16Le,
        PbmPixelFormat::GrayF32,
        PbmPixelFormat::Ya8,
        PbmPixelFormat::Ya16Le,
    ] {
        assert!(!f.is_color(), "{f:?}");
        assert!(!f.is_bilevel(), "{f:?}");
    }
}

fn image_of(fmt: PbmPixelFormat, w: u32, h: u32, stride: usize, data: Vec<u8>) -> PbmImage {
    PbmImage {
        width: w,
        height: h,
        pixel_format: fmt,
        planes: vec![PbmPlane { stride, data }],
        pts: None,
    }
}

#[test]
fn min_row_bytes_handles_monoblack_padding() {
    // 11 px MonoBlack → 2 bytes/row (last 5 bits padding).
    let m = image_of(PbmPixelFormat::MonoBlack, 11, 3, 2, vec![0u8; 6]);
    assert_eq!(m.min_row_bytes(), 2);
    assert_eq!(m.min_plane_len(), 6);
    // 8 px MonoBlack → exactly 1 byte/row.
    let m8 = image_of(PbmPixelFormat::MonoBlack, 8, 1, 1, vec![0u8; 1]);
    assert_eq!(m8.min_row_bytes(), 1);
    // Rgb24 width 4 → 12 bytes/row.
    let c = image_of(PbmPixelFormat::Rgb24, 4, 2, 12, vec![0u8; 24]);
    assert_eq!(c.min_row_bytes(), 12);
    assert_eq!(c.min_plane_len(), 24);
}

#[test]
fn validate_accepts_well_formed_image() {
    let c = image_of(PbmPixelFormat::Rgb24, 4, 2, 12, vec![0u8; 24]);
    assert_eq!(c.validate(), Ok(()));
    // Last row may omit padding past min_row when stride > min_row.
    let padded = image_of(PbmPixelFormat::Gray8, 3, 2, 8, vec![0u8; 8 + 3]);
    assert_eq!(padded.validate(), Ok(()));
}

#[test]
fn validate_rejects_short_plane_and_bad_stride() {
    // Plane too short for declared dimensions.
    let short = image_of(PbmPixelFormat::Rgb24, 4, 2, 12, vec![0u8; 12]);
    assert!(short.validate().is_err());
    // Stride smaller than one packed row.
    let bad_stride = image_of(PbmPixelFormat::Rgb24, 4, 1, 6, vec![0u8; 12]);
    assert!(bad_stride.validate().is_err());
    // Zero dimension.
    let zero = image_of(PbmPixelFormat::Gray8, 0, 1, 0, vec![]);
    assert!(zero.validate().is_err());
    // Wrong plane count.
    let mut multi = image_of(PbmPixelFormat::Gray8, 2, 1, 2, vec![0u8; 2]);
    multi.planes.push(PbmPlane {
        stride: 2,
        data: vec![0u8; 2],
    });
    assert!(multi.validate().is_err());
}
