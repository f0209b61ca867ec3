//! Netpbm decoder: every magic is mapped onto a [`PbmImage`] in the
//! closest matching [`PbmPixelFormat`].
//!
//! | Netpbm                  | PbmPixelFormat |
//! |-------------------------|----------------|
//! | P1 / P4 (1-bit)         | `MonoBlack` (1 = black, MSB-first packed) |
//! | P2 / P5 8 / 16-bit      | `Gray8` / `Gray16Le` |
//! | P3 / P6 8 / 16-bit      | `Rgb24` / `Rgb48Le`  |
//! | P7 BLACKANDWHITE        | `MonoBlack`    |
//! | P7 GRAYSCALE 8 / 16     | `Gray8` / `Gray16Le` |
//! | P7 RGB 8 / 16           | `Rgb24` / `Rgb48Le`  |
//! | P7 GRAYSCALE_ALPHA 8/16 | `Ya8` / `Ya16Le` |
//! | P7 RGB_ALPHA 8 / 16     | `Rgba` / `Rgba64Le` |
//! | P7 BLACKANDWHITE_ALPHA  | `Rgba` (gray triplet + alpha) |
//! | Pf / PF                 | `GrayF32` / `RgbF32` |
//!
//! A PAM without a standard tuple type goes by `DEPTH`: 1 gray, 2 gray +
//! alpha, 3 RGB, 4 RGBA.

use vstd::prelude::*;
use vstd::string::StringExecFns;
use crate::binary::{
    bit_of, bit_row_bytes, bits_in_byte, lemma_mask_is_packed_bits, p4_samples, pack_msb,
    pad_mask, sample_bytes, word_samples, DecodedSamples,
};
use crate::error::{Fail, PbmError, Result};
use crate::ascii::{ascii_samples_spec, decode_ascii_consumed, lemma_ascii_read_bounds};
use crate::header::{
    header_spec, header_wf, lemma_header_offset, lemma_header_wf, lemma_ws_end, parse_header,
    ws_end, Header, HeaderModel, Magic, TuplModel, Tupltype,
};
use crate::lex::is_ws;
use crate::pfm::{decode_pfm_image, pfm_plane, pfm_row_bytes};
use crate::image::{min_row_bytes_spec, PbmImage, PbmPixelFormat, PbmPlane};

verus! {

// ---------------------------------------------------------------------------
// Pixel format and sample scaling
// ---------------------------------------------------------------------------

/// The pixel format a header decodes to (see the module table).
pub open spec fn pick_format_spec(m: HeaderModel) -> PbmPixelFormat {
    let b16 = m.maxval > 255;
    match m.magic {
        Magic::PfPfmGrayFloat => PbmPixelFormat::GrayF32,
        Magic::PFPfmRgbFloat => PbmPixelFormat::RgbF32,
        Magic::P1AsciiBitmap | Magic::P4BinaryBitmap => PbmPixelFormat::MonoBlack,
        Magic::P2AsciiGraymap | Magic::P5BinaryGraymap => if b16 {
            PbmPixelFormat::Gray16Le
        } else {
            PbmPixelFormat::Gray8
        },
        Magic::P3AsciiPixmap | Magic::P6BinaryPixmap => if b16 {
            PbmPixelFormat::Rgb48Le
        } else {
            PbmPixelFormat::Rgb24
        },
        Magic::P7Pam => match m.tupl {
            Some(TuplModel::BlackAndWhite) => PbmPixelFormat::MonoBlack,
            Some(TuplModel::Grayscale) => if b16 {
                PbmPixelFormat::Gray16Le
            } else {
                PbmPixelFormat::Gray8
            },
            Some(TuplModel::Rgb) => if b16 {
                PbmPixelFormat::Rgb48Le
            } else {
                PbmPixelFormat::Rgb24
            },
            Some(TuplModel::GrayscaleAlpha) => if b16 {
                PbmPixelFormat::Ya16Le
            } else {
                PbmPixelFormat::Ya8
            },
            Some(TuplModel::BlackAndWhiteAlpha) => PbmPixelFormat::Rgba,
            Some(TuplModel::RgbAlpha) => if b16 {
                PbmPixelFormat::Rgba64Le
            } else {
                PbmPixelFormat::Rgba
            },
            _ => if m.depth == 1 {
                if b16 {
                    PbmPixelFormat::Gray16Le
                } else {
                    PbmPixelFormat::Gray8
                }
            } else if m.depth == 2 {
                if b16 {
                    PbmPixelFormat::Ya16Le
                } else {
                    PbmPixelFormat::Ya8
                }
            } else if m.depth == 3 {
                if b16 {
                    PbmPixelFormat::Rgb48Le
                } else {
                    PbmPixelFormat::Rgb24
                }
            } else if b16 {
                PbmPixelFormat::Rgba64Le
            } else {
                PbmPixelFormat::Rgba
            },
        },
    }
}

/// A PAM whose channel layout comes from `DEPTH` alone (no tuple type, or
/// a custom one) with a depth outside 1..=4 has no pixel format.
pub open spec fn format_unsupported(m: HeaderModel) -> bool {
    m.magic == Magic::P7Pam && (m.tupl is None || m.tupl matches Some(TuplModel::Custom(_))) && !(1
        <= m.depth <= 4)
}

/// Pick the pixel format for a parsed header.
fn pick_pixel_format(h: &Header) -> (r: Result<PbmPixelFormat>)
    ensures
        format_unsupported(h@) ==> r matches Err(PbmError::Unsupported(_)),
        !format_unsupported(h@) ==> r == Ok::<PbmPixelFormat, PbmError>(pick_format_spec(h@)),
{
    let b16 = h.maxval > 255;
    match h.magic {
        Magic::PfPfmGrayFloat => Ok(PbmPixelFormat::GrayF32),
        Magic::PFPfmRgbFloat => Ok(PbmPixelFormat::RgbF32),
        Magic::P1AsciiBitmap | Magic::P4BinaryBitmap => Ok(PbmPixelFormat::MonoBlack),
        Magic::P2AsciiGraymap | Magic::P5BinaryGraymap => Ok(
            if b16 {
                PbmPixelFormat::Gray16Le
            } else {
                PbmPixelFormat::Gray8
            },
        ),
        Magic::P3AsciiPixmap | Magic::P6BinaryPixmap => Ok(
            if b16 {
                PbmPixelFormat::Rgb48Le
            } else {
                PbmPixelFormat::Rgb24
            },
        ),
        Magic::P7Pam => match &h.tupltype {
            Some(Tupltype::BlackAndWhite) => Ok(PbmPixelFormat::MonoBlack),
            Some(Tupltype::Grayscale) => Ok(
                if b16 {
                    PbmPixelFormat::Gray16Le
                } else {
                    PbmPixelFormat::Gray8
                },
            ),
            Some(Tupltype::Rgb) => Ok(
                if b16 {
                    PbmPixelFormat::Rgb48Le
                } else {
                    PbmPixelFormat::Rgb24
                },
            ),
            Some(Tupltype::GrayscaleAlpha) => Ok(
                if b16 {
                    PbmPixelFormat::Ya16Le
                } else {
                    PbmPixelFormat::Ya8
                },
            ),
            Some(Tupltype::BlackAndWhiteAlpha) => Ok(PbmPixelFormat::Rgba),
            Some(Tupltype::RgbAlpha) => Ok(
                if b16 {
                    PbmPixelFormat::Rgba64Le
                } else {
                    PbmPixelFormat::Rgba
                },
            ),
            _ => {
                if h.depth == 1 {
                    Ok(
                        if b16 {
                            PbmPixelFormat::Gray16Le
                        } else {
                            PbmPixelFormat::Gray8
                        },
                    )
                } else if h.depth == 2 {
                    Ok(
                        if b16 {
                            PbmPixelFormat::Ya16Le
                        } else {
                            PbmPixelFormat::Ya8
                        },
                    )
                } else if h.depth == 3 {
                    Ok(
                        if b16 {
                            PbmPixelFormat::Rgb48Le
                        } else {
                            PbmPixelFormat::Rgb24
                        },
                    )
                } else if h.depth == 4 {
                    Ok(
                        if b16 {
                            PbmPixelFormat::Rgba64Le
                        } else {
                            PbmPixelFormat::Rgba
                        },
                    )
                } else {
                    let mut m = String::from_str("PAM: depth ");
                    crate::error::push_num(&mut m, h.depth as u64);
                    m.append(" outside the supported 1..=4 range");
                    Err(PbmError::Unsupported(m))
                }
            },
        },
    }
}

/// A sample in `0..=maxval` rescaled to 8 bits: identity for maxval 255,
/// 0 / 255 for maxval 1, otherwise `(s * 255 + maxval / 2) / maxval`
/// (rounding half up), capped at 255.
pub open spec fn scale8(s: u16, maxval: u32) -> u8 {
    if maxval == 0 {
        0
    } else if maxval == 255 {
        (s % 256) as u8
    } else if maxval == 1 {
        if s != 0 {
            255
        } else {
            0
        }
    } else {
        let q = (s * 255 + maxval / 2) / (maxval as int);
        if q > 255 {
            255
        } else {
            q as u8
        }
    }
}

/// A sample in `0..=maxval` rescaled to 16 bits (see [`scale8`]).
pub open spec fn scale16(s: u16, maxval: u32) -> u16 {
    if maxval == 0 {
        0
    } else if maxval == 65535 {
        s
    } else if maxval == 1 {
        if s != 0 {
            65535
        } else {
            0
        }
    } else {
        let q = (s * 65535 + maxval / 2) / (maxval as int);
        if q > 65535 {
            65535
        } else {
            q as u16
        }
    }
}

/// Scale a sample to a full byte (see [`scale8`]).
pub fn scale_to_u8(s: u16, maxval: u32) -> (r: u8)
    ensures
        r == scale8(s, maxval),
{
    if maxval == 0 {
        return 0;
    }
    if maxval == 255 {
        return (s % 256) as u8;
    }
    if maxval == 1 {
        return if s != 0 {
            255
        } else {
            0
        };
    }
    let num: u64 = s as u64 * 255 + (maxval / 2) as u64;
    let q = num / maxval as u64;
    if q > 255 {
        255
    } else {
        q as u8
    }
}

/// Scale a sample to a full 16-bit value (see [`scale16`]).
pub fn scale_to_u16(s: u16, maxval: u32) -> (r: u16)
    ensures
        r == scale16(s, maxval),
{
    if maxval == 0 {
        return 0;
    }
    if maxval == 65535 {
        return s;
    }
    if maxval == 1 {
        return if s != 0 {
            65535
        } else {
            0
        };
    }
    let num: u64 = s as u64 * 65535 + (maxval / 2) as u64;
    let q = num / maxval as u64;
    if q > 65535 {
        65535
    } else {
        q as u16
    }
}

// ---------------------------------------------------------------------------
// Samples to plane bytes
// ---------------------------------------------------------------------------

/// How a `Rgba` plane is filled: 0 gray (opaque), 1 gray + alpha, 2 RGB
/// (opaque), 3 RGBA.
pub open spec fn rgba_layout_spec(m: HeaderModel) -> u8 {
    match m.tupl {
        Some(TuplModel::BlackAndWhiteAlpha) | Some(TuplModel::GrayscaleAlpha) => 1,
        Some(TuplModel::RgbAlpha) => 3,
        Some(TuplModel::Rgb) => 2,
        Some(TuplModel::BlackAndWhite) | Some(TuplModel::Grayscale) => 0,
        _ => if m.depth == 2 {
            1
        } else if m.depth == 3 {
            2
        } else if m.depth == 4 {
            3
        } else {
            0
        },
    }
}

fn rgba_layout(h: &Header) -> (r: u8)
    ensures
        r == rgba_layout_spec(h@),
{
    match &h.tupltype {
        Some(Tupltype::BlackAndWhiteAlpha) | Some(Tupltype::GrayscaleAlpha) => 1,
        Some(Tupltype::RgbAlpha) => 3,
        Some(Tupltype::Rgb) => 2,
        Some(Tupltype::BlackAndWhite) | Some(Tupltype::Grayscale) => 0,
        _ => if h.depth == 2 {
            1
        } else if h.depth == 3 {
            2
        } else if h.depth == 4 {
            3
        } else {
            0
        },
    }
}

/// Byte `b` (0 low, 1 high) of a 16-bit value stored little-endian.
pub open spec fn le_byte(v: u16, b: int) -> u8 {
    if b == 0 {
        (v % 256) as u8
    } else {
        (v / 256) as u8
    }
}

/// The `MonoBlack` bit for a sample: PAM `BLACKANDWHITE` stores 1 = white,
/// every other bitmap 1 = black.
pub open spec fn mono_bit(m: HeaderModel, s: u16) -> u8 {
    if m.magic == Magic::P7Pam {
        if s == 0 {
            1
        } else {
            0
        }
    } else if s != 0 {
        1
    } else {
        0
    }
}

/// Byte `k` of the plane decoded from `smp` (`width * height * depth`
/// samples, row-major) in format `f`: each pixel's samples rescaled to
/// the format's width (16-bit ones little-endian), bits packed most
/// significant first for `MonoBlack`, gray expanded to a triplet and a
/// missing alpha made opaque for `Rgba`.
pub open spec fn plane_byte(m: HeaderModel, f: PbmPixelFormat, smp: Seq<u16>, k: int) -> u8 {
    let w = m.width as int;
    let d = m.depth as int;
    let mv = m.maxval;
    match f {
        PbmPixelFormat::MonoBlack => {
            let rb = bit_row_bytes(w);
            let y = k / rb;
            let bx = k % rb;
            pack_msb(
                |j: int|
                    if bx * 8 + j < w {
                        mono_bit(m, smp[y * w + bx * 8 + j])
                    } else {
                        0u8
                    },
                8,
            ) as u8
        },
        PbmPixelFormat::Gray8 => scale8(smp[k], mv),
        PbmPixelFormat::Gray16Le => le_byte(scale16(smp[k / 2], mv), k % 2),
        PbmPixelFormat::Rgb24 => scale8(smp[(k / 3) * d + k % 3], mv),
        PbmPixelFormat::Rgb48Le => le_byte(scale16(smp[(k / 6) * d + (k % 6) / 2], mv), k % 2),
        PbmPixelFormat::Ya8 => scale8(smp[(k / 2) * d + k % 2], mv),
        PbmPixelFormat::Ya16Le => le_byte(scale16(smp[(k / 4) * d + (k % 4) / 2], mv), k % 2),
        PbmPixelFormat::Rgba => {
            let i = k / 4;
            let c = k % 4;
            let l = rgba_layout_spec(m);
            if l == 0 {
                if c < 3 {
                    scale8(smp[i * d], mv)
                } else {
                    255
                }
            } else if l == 1 {
                if c < 3 {
                    scale8(smp[i * d], mv)
                } else {
                    scale8(smp[i * d + 1], mv)
                }
            } else if l == 2 {
                if c < 3 {
                    scale8(smp[i * d + c], mv)
                } else {
                    255
                }
            } else {
                scale8(smp[i * d + c], mv)
            }
        },
        PbmPixelFormat::Rgba64Le => le_byte(scale16(smp[(k / 8) * d + (k % 8) / 2], mv), k % 2),
        _ => 0,
    }
}

/// The whole decoded plane: `stride * height` bytes, `stride` being the
/// format's packed row size.
pub open spec fn plane_bytes(m: HeaderModel, f: PbmPixelFormat, smp: Seq<u16>) -> Seq<u8> {
    Seq::new(
        (min_row_bytes_spec(f, m.width as nat) * m.height) as nat,
        |k: int| plane_byte(m, f, smp, k),
    )
}

/// The depth each integer pixel format implies for a well-formed header.
pub proof fn lemma_format_depth(m: HeaderModel)
    requires
        header_wf(m),
        !m.magic.spec_is_pfm(),
    ensures
        ({
            let f = pick_format_spec(m);
            let d = m.depth;
            &&& f == PbmPixelFormat::MonoBlack ==> d == 1
            &&& (f == PbmPixelFormat::Gray8 || f == PbmPixelFormat::Gray16Le) ==> d == 1
            &&& (f == PbmPixelFormat::Rgb24 || f == PbmPixelFormat::Rgb48Le) ==> d == 3
            &&& (f == PbmPixelFormat::Ya8 || f == PbmPixelFormat::Ya16Le) ==> d == 2
            &&& f == PbmPixelFormat::Rgba64Le ==> d == 4
            &&& f == PbmPixelFormat::Rgba ==> ((rgba_layout_spec(m) == 1 && d == 2) || (
            rgba_layout_spec(m) == 3 && d == 4))
            &&& f != PbmPixelFormat::Bgra && f != PbmPixelFormat::GrayF32 && f
                != PbmPixelFormat::RgbF32
            &&& !format_unsupported(m)
        }),
{
}

proof fn lemma_index_in(i: int, d: int, c: int, n: int)
    requires
        0 <= i < n,
        0 <= c < d,
    ensures
        0 <= i * d + c < n * d,
{
    assert(0 <= i * d + c < n * d) by (nonlinear_arith)
        requires
            0 <= i < n,
            0 <= c < d,
    ;
}

proof fn lemma_pixel_of(k: int, b: int, n: int)
    requires
        0 <= k < b * n,
        b > 0,
    ensures
        0 <= k / b < n,
        0 <= k % b < b,
{
    assert(0 <= k / b < n && 0 <= k % b < b) by (nonlinear_arith)
        requires
            0 <= k < b * n,
            b > 0,
    ;
}

/// Compute one plane byte (see [`plane_byte`]).
#[verifier::spinoff_prover]
fn plane_byte_at(
    h: &Header,
    f: PbmPixelFormat,
    layout: u8,
    smp: &[u16],
    k: usize,
    stride: usize,
    npix: usize,
) -> (r: u8)
    requires
        header_wf(h@),
        !h.magic.spec_is_pfm(),
        f == pick_format_spec(h@),
        layout == rgba_layout_spec(h@),
        stride == min_row_bytes_spec(f, h.width as nat),
        npix == h.width * h.height,
        smp@.len() == npix * h.depth,
        k < stride * h.height,
    ensures
        r == plane_byte(h@, f, smp@, k as int),
{
    proof {
        lemma_format_depth(h@);
    }
    let ghost m = h@;
    let slen = smp.len();
    let w = h.width as usize;
    let d = h.depth as usize;
    let mv = h.maxval;
    assert(stride * h.height == min_row_bytes_spec(f, w as nat) * h.height);
    match f {
        PbmPixelFormat::MonoBlack => {
            let rb = stride;
            assert(rb == bit_row_bytes(w as int));
            let y = k / rb;
            let bx = k % rb;
            proof {
                lemma_pixel_of(k as int, rb as int, h.height as int);
            }
            let ghost g = |j: int|
                if bx * 8 + j < w {
                    mono_bit(m, smp@[y * w + bx * 8 + j])
                } else {
                    0u8
                };
            let mut acc: u32 = 0;
            let mut j: usize = 0;
            while j < 8
                invariant
                    j <= 8,
                    acc == pack_msb(g, j as int),
                    acc < crate::binary::pow2_small(j as int),
                    y < h.height,
                    bx < stride,
                    stride == bit_row_bytes(w as int),
                    w == h.width,
                    w > 0,
                    npix == h.width * h.height,
                    smp@.len() == npix * h.depth,
                    h.depth == 1,
                    m == h@,
                    g == (|j: int|
                        if bx * 8 + j < w {
                            mono_bit(m, smp@[y * w + bx * 8 + j])
                        } else {
                            0u8
                        }),
                decreases 8 - j,
            {
                let x64: u64 = bx as u64 * 8 + j as u64;
                let bit: u8 = if x64 < w as u64 {
                    let x = x64 as usize;
                    proof {
                        lemma_index_in(y as int, w as int, x as int, h.height as int);
                        assert(h.height * w == npix) by (nonlinear_arith)
                            requires
                                npix == w * h.height,
                        ;
                    }
                    let s = smp[y * w + x];
                    if h.magic == Magic::P7Pam {
                        if s == 0 {
                            1
                        } else {
                            0
                        }
                    } else if s != 0 {
                        1
                    } else {
                        0
                    }
                } else {
                    0
                };
                assert(bit == g(j as int));
                acc = acc * 2 + bit as u32;
                j += 1;
            }
            acc as u8
        },
        PbmPixelFormat::Gray8 => {
            assert(h.depth == 1);
            assert(smp@.len() == npix) by (nonlinear_arith)
                requires
                    smp@.len() == npix * h.depth,
                    h.depth == 1,
            ;
            assert(PbmPixelFormat::Gray8.spec_bytes_per_pixel() == Some(1nat));
            assert(min_row_bytes_spec(f, h.width as nat) == h.width * 1);
            assert(stride == w);
            assert(k < npix);
            scale_to_u8(smp[k], mv)
        },
        PbmPixelFormat::Gray16Le => {
            assert(h.depth == 1);
            assert(smp@.len() == npix) by (nonlinear_arith)
                requires
                    smp@.len() == npix * h.depth,
                    h.depth == 1,
            ;
            proof {
                assert(k < 2 * npix) by (nonlinear_arith)
                    requires
                        k < (w * 2) * h.height,
                        npix == w * h.height,
                ;
            }
            let v = scale_to_u16(smp[k / 2], mv);
            if k % 2 == 0 {
                (v % 256) as u8
            } else {
                (v / 256) as u8
            }
        },
        PbmPixelFormat::Rgb24 => {
            proof {
                assert(k < 3 * npix) by (nonlinear_arith)
                    requires
                        k < (w * 3) * h.height,
                        npix == w * h.height,
                ;
                lemma_pixel_of(k as int, 3, npix as int);
                lemma_index_in((k / 3) as int, 3, (k % 3) as int, npix as int);
            }
            scale_to_u8(smp[(k / 3) * d + k % 3], mv)
        },
        PbmPixelFormat::Rgb48Le => {
            proof {
                assert(k < 6 * npix) by (nonlinear_arith)
                    requires
                        k < (w * 6) * h.height,
                        npix == w * h.height,
                ;
                lemma_pixel_of(k as int, 6, npix as int);
                lemma_index_in((k / 6) as int, 3, ((k % 6) / 2) as int, npix as int);
            }
            let v = scale_to_u16(smp[(k / 6) * d + (k % 6) / 2], mv);
            if k % 2 == 0 {
                (v % 256) as u8
            } else {
                (v / 256) as u8
            }
        },
        PbmPixelFormat::Ya8 => {
            proof {
                assert(k < 2 * npix) by (nonlinear_arith)
                    requires
                        k < (w * 2) * h.height,
                        npix == w * h.height,
                ;
                lemma_pixel_of(k as int, 2, npix as int);
                lemma_index_in((k / 2) as int, 2, (k % 2) as int, npix as int);
            }
            scale_to_u8(smp[(k / 2) * d + k % 2], mv)
        },
        PbmPixelFormat::Ya16Le => {
            proof {
                assert(k < 4 * npix) by (nonlinear_arith)
                    requires
                        k < (w * 4) * h.height,
                        npix == w * h.height,
                ;
                lemma_pixel_of(k as int, 4, npix as int);
                lemma_index_in((k / 4) as int, 2, ((k % 4) / 2) as int, npix as int);
            }
            let v = scale_to_u16(smp[(k / 4) * d + (k % 4) / 2], mv);
            if k % 2 == 0 {
                (v % 256) as u8
            } else {
                (v / 256) as u8
            }
        },
        PbmPixelFormat::Rgba => {
            assert(layout == 1 || layout == 3);
            proof {
                assert(k < 4 * npix) by (nonlinear_arith)
                    requires
                        k < (w * 4) * h.height,
                        npix == w * h.height,
                ;
                lemma_pixel_of(k as int, 4, npix as int);
                lemma_index_in((k / 4) as int, d as int, 0, npix as int);
                lemma_index_in((k / 4) as int, d as int, 1, npix as int);
                if d == 4 {
                    lemma_index_in((k / 4) as int, d as int, (k % 4) as int, npix as int);
                }
            }
            let i = k / 4;
            let c = k % 4;
            if layout == 0 {
                if c < 3 {
                    scale_to_u8(smp[i * d], mv)
                } else {
                    255
                }
            } else if layout == 1 {
                if c < 3 {
                    scale_to_u8(smp[i * d], mv)
                } else {
                    scale_to_u8(smp[i * d + 1], mv)
                }
            } else if layout == 2 {
                if c < 3 {
                    scale_to_u8(smp[i * d + c], mv)
                } else {
                    255
                }
            } else {
                scale_to_u8(smp[i * d + c], mv)
            }
        },
        PbmPixelFormat::Rgba64Le => {
            proof {
                assert(k < 8 * npix) by (nonlinear_arith)
                    requires
                        k < (w * 8) * h.height,
                        npix == w * h.height,
                ;
                lemma_pixel_of(k as int, 8, npix as int);
                lemma_index_in((k / 8) as int, 4, ((k % 8) / 2) as int, npix as int);
            }
            let v = scale_to_u16(smp[(k / 8) * d + (k % 8) / 2], mv);
            if k % 2 == 0 {
                (v % 256) as u8
            } else {
                (v / 256) as u8
            }
        },
        _ => 0,
    }
}


/// `pack_msb` reads only `f(0) .. f(n - 1)`.
pub proof fn lemma_pack_msb_ext(f: spec_fn(int) -> u8, g: spec_fn(int) -> u8, n: int)
    requires
        forall|j: int| 0 <= j < n ==> #[trigger] f(j) == g(j),
    ensures
        pack_msb(f, n) == pack_msb(g, n),
    decreases n,
{
    if n > 0 {
        lemma_pack_msb_ext(f, g, n - 1);
    }
}

proof fn lemma_bit_of_small(b: u8, j: u8)
    ensures
        bit_of(b, j) <= 1,
{
    assert((b >> ((7 - j) as u8)) & 1 <= 1) by (bit_vector);
}

/// A P4 plane byte is the body byte with the row padding cleared: the
/// direct row copy decodes exactly what unpacking and repacking the bits
/// would.
pub proof fn lemma_p4_plane_byte(m: HeaderModel, body: Seq<u8>, k: int)
    requires
        header_wf(m),
        m.magic == Magic::P4BinaryBitmap,
        0 <= k < bit_row_bytes(m.width as int) * m.height,
        bit_row_bytes(m.width as int) * m.height <= body.len(),
    ensures
        plane_byte(
            m,
            PbmPixelFormat::MonoBlack,
            p4_samples(m.width as int, m.height as int, 1, body),
            k,
        ) == body[k] & pad_mask(bits_in_byte(m.width as int, k % bit_row_bytes(m.width as int))),
{
    let w = m.width as int;
    let h = m.height as int;
    let rb = bit_row_bytes(w);
    let smp = p4_samples(w, h, 1, body);
    let y = k / rb;
    let bx = k % rb;
    lemma_pixel_of(k, rb, h);
    vstd::arithmetic::div_mod::lemma_fundamental_div_mod(k, rb);
    assert(k == y * rb + bx) by (nonlinear_arith)
        requires
            k == rb * (k / rb) + k % rb,
            y == k / rb,
            bx == k % rb,
    ;
    let n = bits_in_byte(w, bx);
    let b = body[k];
    let f = |j: int|
        if bx * 8 + j < w {
            mono_bit(m, smp[y * w + bx * 8 + j])
        } else {
            0u8
        };
    let g = |j: int|
        if j < n {
            bit_of(b, j as u8)
        } else {
            0u8
        };
    assert(1 <= n <= 8);
    assert forall|j: int| 0 <= j < 8 implies #[trigger] f(j) == g(j) by {
        let x = bx * 8 + j;
        if x < w {
            assert(j < n);
            let t = y * w + x;
            lemma_index_in(y, w, x, h);
            vstd::arithmetic::div_mod::lemma_fundamental_div_mod_converse(t, w, y, x);
            vstd::arithmetic::div_mod::lemma_fundamental_div_mod_converse(x, 8, bx, j);
            assert(t < w * h * 1);
            assert(smp[t] == bit_of(body[y * rb + bx], j as u8) as u16);
            lemma_bit_of_small(b, j as u8);
        } else {
            assert(j >= n);
        }
    }
    lemma_pack_msb_ext(f, g, 8);
    lemma_mask_is_packed_bits(b, n);
}

/// Whether a binary PNM/PAM body can be copied straight into the plane:
/// P5/P6/P7 at maxval 255 or 65535 whose samples line up one-for-one with
/// the pixel format's channels.
pub open spec fn bytewise_ok(m: HeaderModel) -> bool {
    let f = pick_format_spec(m);
    let d = m.depth;
    &&& (m.magic == Magic::P5BinaryGraymap || m.magic == Magic::P6BinaryPixmap || m.magic
        == Magic::P7Pam)
    &&& (m.maxval == 255 || m.maxval == 65535)
    &&& if m.maxval == 255 {
        (f == PbmPixelFormat::Gray8 && d == 1) || (f == PbmPixelFormat::Ya8 && d == 2) || (f
            == PbmPixelFormat::Rgb24 && d == 3) || (f == PbmPixelFormat::Rgba && d == 4)
    } else {
        (f == PbmPixelFormat::Gray16Le && d == 1) || (f == PbmPixelFormat::Ya16Le && d == 2) || (f
            == PbmPixelFormat::Rgb48Le && d == 3) || (f == PbmPixelFormat::Rgba64Le && d == 4)
    }
}

/// For a body that lines up with its pixel format, the decoded plane is
/// the body itself (8-bit) or the body with each byte pair exchanged
/// (16-bit big-endian to little-endian).
pub proof fn lemma_bytewise_byte(m: HeaderModel, body: Seq<u8>, k: int)
    requires
        header_wf(m),
        bytewise_ok(m),
        0 <= k < m.width * m.height * m.depth * sample_bytes(m.maxval),
        m.width * m.height * m.depth * sample_bytes(m.maxval) <= body.len(),
    ensures
        plane_byte(
            m,
            pick_format_spec(m),
            word_samples(
                m.width * m.height * m.depth,
                sample_bytes(m.maxval),
                m.maxval,
                body,
            ),
            k,
        ) == if m.maxval == 255 {
            body[k]
        } else if k % 2 == 0 {
            body[k + 1]
        } else {
            body[k - 1]
        },
{
    let n = m.width * m.height * m.depth;
    let sb = sample_bytes(m.maxval);
    let smp = word_samples(n, sb, m.maxval, body);
    let f = pick_format_spec(m);
    let d = m.depth as int;
    if m.maxval == 255 {
        assert(k < n);
        let idx: int = if f == PbmPixelFormat::Gray8 {
            k
        } else if f == PbmPixelFormat::Ya8 {
            (k / 2) * d + k % 2
        } else if f == PbmPixelFormat::Rgb24 {
            (k / 3) * d + k % 3
        } else {
            (k / 4) * d + k % 4
        };
        assert(idx == k) by (nonlinear_arith)
            requires
                idx == (if f == PbmPixelFormat::Gray8 {
                    k
                } else if f == PbmPixelFormat::Ya8 {
                    (k / 2) * d + k % 2
                } else if f == PbmPixelFormat::Rgb24 {
                    (k / 3) * d + k % 3
                } else {
                    (k / 4) * d + k % 4
                }),
                (f == PbmPixelFormat::Gray8 && d == 1) || (f == PbmPixelFormat::Ya8 && d == 2) || (f
                    == PbmPixelFormat::Rgb24 && d == 3) || (f == PbmPixelFormat::Rgba && d == 4),
                k >= 0,
        ;
        assert(smp[k] == body[k] as u16);
        if f == PbmPixelFormat::Rgba {
            assert(rgba_layout_spec(m) == 3);
        }
    } else {
        assert(k / 2 < n) by (nonlinear_arith)
            requires
                k < n * 2,
                k >= 0,
        ;
        let q = k / 2;
        let idx: int = if f == PbmPixelFormat::Gray16Le {
            k / 2
        } else if f == PbmPixelFormat::Ya16Le {
            (k / 4) * d + (k % 4) / 2
        } else if f == PbmPixelFormat::Rgb48Le {
            (k / 6) * d + (k % 6) / 2
        } else {
            (k / 8) * d + (k % 8) / 2
        };
        assert(idx == q) by (nonlinear_arith)
            requires
                q == k / 2,
                idx == (if f == PbmPixelFormat::Gray16Le {
                    k / 2
                } else if f == PbmPixelFormat::Ya16Le {
                    (k / 4) * d + (k % 4) / 2
                } else if f == PbmPixelFormat::Rgb48Le {
                    (k / 6) * d + (k % 6) / 2
                } else {
                    (k / 8) * d + (k % 8) / 2
                }),
                (f == PbmPixelFormat::Gray16Le && d == 1) || (f == PbmPixelFormat::Ya16Le && d
                    == 2) || (f == PbmPixelFormat::Rgb48Le && d == 3) || (f
                    == PbmPixelFormat::Rgba64Le && d == 4),
                k >= 0,
        ;
        assert(2 * q + 1 < n * 2);
        let v = crate::binary::be16_at(body, q);
        assert(smp[q] == v);
        assert(v as int == body[2 * q] * 256 + body[2 * q + 1]);
        assert(v % 256 == body[2 * q + 1]);
        assert(v / 256 == body[2 * q]);
        if k % 2 == 0 {
            assert(2 * q == k);
        } else {
            assert(2 * q == k - 1);
        }
    }
}


// ---------------------------------------------------------------------------
// Decode paths
// ---------------------------------------------------------------------------

/// Build the plane for a decoded sample matrix: the format the header
/// picks and its bytes per [`plane_bytes`]; an error when the plane size
/// does not fit in memory.
fn samples_to_plane(h: &Header, s: &DecodedSamples) -> (r: Result<(PbmPlane, PbmPixelFormat)>)
    requires
        header_wf(h@),
        !h.magic.spec_is_pfm(),
        s.samples@.len() == h.width * h.height * h.depth,
    ensures
        ({
            let f = pick_format_spec(h@);
            let stride = min_row_bytes_spec(f, h.width as nat);
            if stride > usize::MAX {
                r matches Err(e) && crate::error::fail_of(e) == Fail::Invalid(
                    "Netpbm: stride overflow"@,
                )
            } else if stride * h.height > usize::MAX {
                r matches Err(e) && crate::error::fail_of(e) == Fail::Invalid(
                    "Netpbm: plane-size overflow"@,
                )
            } else {
                r matches Ok((plane, fmt)) && fmt == f && plane.stride == stride && plane.data@
                    == plane_bytes(h@, f, s.samples@)
            }
        }),
{
    proof {
        lemma_format_depth(h@);
    }
    let format = match pick_pixel_format(h) {
        Ok(f) => f,
        Err(e) => return Err(e),
    };
    let w = h.width as usize;
    let hh = h.height as usize;
    let smp = s.samples.as_slice();
    let slen = smp.len();
    proof {
        assert(w * hh <= w * hh * h.depth) by (nonlinear_arith)
            requires
                h.depth >= 1,
        ;
    }
    let npix = w * hh;
    let stride: usize = match format.bytes_per_pixel() {
        Some(b) => match w.checked_mul(b) {
            Some(v) => v,
            None => {
                proof {
                    assert(w * b * hh >= w * b) by (nonlinear_arith)
                        requires
                            hh >= 1,
                    ;
                }
                return Err(PbmError::invalid("Netpbm: stride overflow"));
            },
        },
        None => w / 8 + if w % 8 == 0 {
            0
        } else {
            1
        },
    };
    assert(stride == min_row_bytes_spec(format, w as nat));
    let size = match stride.checked_mul(hh) {
        Some(v) => v,
        None => return Err(PbmError::invalid("Netpbm: plane-size overflow")),
    };
    let layout = rgba_layout(h);
    let ghost target = plane_bytes(h@, format, smp@);
    let mut data: Vec<u8> = Vec::new();
    let mut k: usize = 0;
    while k < size
        invariant
            header_wf(h@),
            !h.magic.spec_is_pfm(),
            format == pick_format_spec(h@),
            layout == rgba_layout_spec(h@),
            stride == min_row_bytes_spec(format, h.width as nat),
            npix == h.width * h.height,
            smp@.len() == npix * h.depth,
            smp@ == s.samples@,
            size == stride * h.height,
            target == plane_bytes(h@, format, smp@),
            k <= size,
            data@ == target.subrange(0, k as int),
        decreases size - k,
    {
        let b = plane_byte_at(h, format, layout, smp, k, stride, npix);
        data.push(b);
        proof {
            assert(data@ =~= target.subrange(0, k + 1));
        }
        k += 1;
    }
    assert(data@ =~= target);
    Ok((PbmPlane { stride, data }, format))
}

/// Bytes in the body of a binary PNM/PAM image: `row_bytes * height` for
/// P4, `width * height * depth * sample_bytes` for P5/P6/P7.
pub open spec fn binary_body_len_spec(m: HeaderModel) -> int {
    if m.magic == Magic::P4BinaryBitmap {
        bit_row_bytes(m.width as int) * m.height
    } else {
        m.width * m.height * m.depth * sample_bytes(m.maxval)
    }
}

fn binary_body_byte_len(h: &Header) -> (r: Result<usize>)
    requires
        h.depth >= 1,
        h.magic == Magic::P4BinaryBitmap || h.magic == Magic::P5BinaryGraymap || h.magic
            == Magic::P6BinaryPixmap || h.magic == Magic::P7Pam,
    ensures
        binary_body_len_spec(h@) <= usize::MAX ==> r == Ok::<usize, PbmError>(
            binary_body_len_spec(h@) as usize,
        ),
        binary_body_len_spec(h@) > usize::MAX ==> (r matches Err(e) && crate::error::fail_of(e)
            == Fail::Invalid("Netpbm: dimension overflow"@)),
{
    let w = h.width as usize;
    let hh = h.height as usize;
    let depth = h.depth as usize;
    if h.magic == Magic::P4BinaryBitmap {
        let rb: usize = w / 8 + if w % 8 == 0 {
            0
        } else {
            1
        };
        assert(rb == bit_row_bytes(w as int));
        match rb.checked_mul(hh) {
            Some(v) => Ok(v),
            None => Err(PbmError::invalid("Netpbm: dimension overflow")),
        }
    } else {
        let bytes: usize = if h.maxval > 255 {
            2
        } else {
            1
        };
        assert(bytes == sample_bytes(h.maxval));
        let a = match w.checked_mul(hh) {
            Some(a) => a,
            None => {
                proof {
                    assert(w * hh * depth * bytes >= w * hh) by (nonlinear_arith)
                        requires
                            bytes >= 1,
                            depth >= 1,
                    ;
                }
                return Err(PbmError::invalid("Netpbm: dimension overflow"));
            },
        };
        let b = match a.checked_mul(depth) {
            Some(b) => b,
            None => {
                proof {
                    assert(a * depth * bytes >= a * depth) by (nonlinear_arith)
                        requires
                            bytes >= 1,
                    ;
                }
                return Err(PbmError::invalid("Netpbm: dimension overflow"));
            },
        };
        let total = b.checked_mul(bytes);
        match total {
            Some(v) => Ok(v),
            None => Err(PbmError::invalid("Netpbm: dimension overflow")),
        }
    }
}

/// The P4 fast path: each body row copied into the `MonoBlack` plane with
/// its padding bits cleared.
fn decode_p4_monoblack(header: &Header, body: &[u8]) -> (r: Result<(PbmImage, PbmPixelFormat)>)
    requires
        header_wf(header@),
        header.magic == Magic::P4BinaryBitmap,
    ensures
        ({
            let rb = bit_row_bytes(header.width as int);
            if rb * header.height > body@.len() {
                r matches Err(PbmError::InvalidData(_))
            } else {
                r matches Ok((img, fmt)) && fmt == PbmPixelFormat::MonoBlack && img.pixel_format
                    == fmt && img.width == header.width && img.height == header.height
                    && img.pts is None && img.planes@.len() == 1 && img.planes@[0].stride == rb
                    && img.planes@[0].data@ == plane_bytes(
                    header@,
                    PbmPixelFormat::MonoBlack,
                    p4_samples(header.width as int, header.height as int, 1, body@),
                )
            }
        }),
{
    let w = header.width as usize;
    let h = header.height as usize;
    let n = body.len();
    let rb: usize = w / 8 + if w % 8 == 0 {
        0
    } else {
        1
    };
    assert(rb == bit_row_bytes(w as int));
    let need = match rb.checked_mul(h) {
        Some(v) => v,
        None => return Err(PbmError::invalid("Netpbm: dimension overflow")),
    };
    if n < need {
        return Err(PbmError::invalid("Netpbm: pixel data truncated"));
    }
    let ghost target = plane_bytes(
        header@,
        PbmPixelFormat::MonoBlack,
        p4_samples(w as int, h as int, 1, body@),
    );
    assert(target.len() == need);
    let mut data: Vec<u8> = Vec::new();
    let mut y: usize = 0;
    while y < h
        invariant
            header_wf(header@),
            header.magic == Magic::P4BinaryBitmap,
            w == header.width,
            h == header.height,
            n == body@.len(),
            rb == bit_row_bytes(w as int),
            need == rb * h,
            need <= n,
            target == plane_bytes(
                header@,
                PbmPixelFormat::MonoBlack,
                p4_samples(w as int, h as int, 1, body@),
            ),
            y <= h,
            data@ == target.subrange(0, y * rb),
        decreases h - y,
    {
        proof {
            assert(y * rb + rb <= need) by (nonlinear_arith)
                requires
                    y < h,
                    need == rb * h,
            ;
        }
        let src = vstd::slice::slice_subrange(body, y * rb, y * rb + rb);
        let mut tmp: Vec<u8> = vec![0u8; rb];
        crate::binary::copy_p4_row_msb(src, tmp.as_mut_slice(), w);
        data.extend_from_slice(tmp.as_slice());
        proof {
            assert forall|k: int| y * rb <= k < (y + 1) * rb implies #[trigger] data@[k]
                == target[k] by {
                let bx = k - y * rb;
                assert((y + 1) * rb == y * rb + rb) by (nonlinear_arith);
                vstd::arithmetic::div_mod::lemma_fundamental_div_mod_converse(k, rb as int, y as int, bx);
                assert(k < need) by (nonlinear_arith)
                    requires
                        k < (y + 1) * rb,
                        y < h,
                        need == rb * h,
                ;
                lemma_p4_plane_byte(header@, body@, k);
            }
            assert((y + 1) * rb == y * rb + rb) by (nonlinear_arith);
            assert(data@ =~= target.subrange(0, (y + 1) * rb));
        }
        y += 1;
    }
    assert(y * rb == need) by (nonlinear_arith)
        requires
            y == h,
            need == rb * h,
    ;
    assert(data@ =~= target);
    Ok(
        (
            PbmImage {
                width: header.width,
                height: header.height,
                pixel_format: PbmPixelFormat::MonoBlack,
                planes: vec![PbmPlane { stride: rb, data }],
                pts: None,
            },
            PbmPixelFormat::MonoBlack,
        ),
    )
}


/// The P5/P6/P7 fast path for bodies that line up with their pixel format
/// ([`bytewise_ok`]): the body copied (8-bit) or byte-pair swapped
/// (16-bit) straight into the plane. `Ok(None)` for any other header.
fn try_decode_binary_bytewise(header: &Header, body: &[u8]) -> (r: Result<
    Option<(PbmImage, PbmPixelFormat)>,
>)
    requires
        header_wf(header@),
        !header.magic.spec_is_pfm(),
    ensures
        ({
            let m = header@;
            let need = m.width * m.height * m.depth * sample_bytes(m.maxval);
            let f = pick_format_spec(m);
            if !bytewise_ok(m) {
                r matches Ok(None)
            } else if need > body@.len() {
                r matches Err(PbmError::InvalidData(_))
            } else {
                r matches Ok(Some((img, fmt))) && fmt == f && img.pixel_format == f && img.width
                    == m.width && img.height == m.height && img.pts is None && img.planes@.len()
                    == 1 && img.planes@[0].stride == min_row_bytes_spec(f, m.width as nat)
                    && img.planes@[0].data@ == plane_bytes(
                    m,
                    f,
                    word_samples(m.width * m.height * m.depth, sample_bytes(m.maxval), m.maxval, body@),
                )
            }
        }),
{
    let ghost m = header@;
    proof {
        lemma_format_depth(m);
    }
    match header.magic {
        Magic::P5BinaryGraymap | Magic::P6BinaryPixmap | Magic::P7Pam => {},
        _ => return Ok(None),
    }
    let bps: usize = if header.maxval == 255 {
        1
    } else if header.maxval == 65535 {
        2
    } else {
        return Ok(None);
    };
    let format = match pick_pixel_format(header) {
        Ok(f) => f,
        Err(e) => return Err(e),
    };
    let depth = header.depth as usize;
    let bpp: usize = if bps == 1 {
        if format == PbmPixelFormat::Gray8 && depth == 1 {
            1
        } else if format == PbmPixelFormat::Ya8 && depth == 2 {
            2
        } else if format == PbmPixelFormat::Rgb24 && depth == 3 {
            3
        } else if format == PbmPixelFormat::Rgba && depth == 4 {
            4
        } else {
            return Ok(None);
        }
    } else {
        if format == PbmPixelFormat::Gray16Le && depth == 1 {
            2
        } else if format == PbmPixelFormat::Ya16Le && depth == 2 {
            4
        } else if format == PbmPixelFormat::Rgb48Le && depth == 3 {
            6
        } else if format == PbmPixelFormat::Rgba64Le && depth == 4 {
            8
        } else {
            return Ok(None);
        }
    };
    assert(bytewise_ok(m));
    assert(bpp == depth * bps);
    assert(min_row_bytes_spec(format, m.width as nat) == m.width * bpp);
    let n = body.len();
    let w = header.width as usize;
    let h = header.height as usize;
    proof {
        assert(w * h * depth * bps == (w * bpp) * h) by (nonlinear_arith)
            requires
                bpp == depth * bps,
        ;
    }
    let stride = match w.checked_mul(bpp) {
        Some(v) => v,
        None => {
            proof {
                assert(w * bpp * h >= w * bpp) by (nonlinear_arith)
                    requires
                        h >= 1,
                ;
            }
            return Err(PbmError::invalid("Netpbm: stride overflow"));
        },
    };
    let total = match stride.checked_mul(h) {
        Some(v) => v,
        None => return Err(PbmError::invalid("Netpbm: plane-size overflow")),
    };
    if n < total {
        return Err(PbmError::invalid("Netpbm: pixel data truncated"));
    }
    let ghost smp = word_samples(
        m.width * m.height * m.depth,
        sample_bytes(m.maxval),
        m.maxval,
        body@,
    );
    let ghost target = plane_bytes(m, format, smp);
    let src = vstd::slice::slice_subrange(body, 0, total);
    let data: Vec<u8> = if bps == 1 {
        vstd::slice::slice_to_vec(src)
    } else {
        let ghost half = bpp / 2;
        assert(bpp == 2 * half);
        assert(total == 2 * (w * half * h)) by (nonlinear_arith)
            requires
                total == stride * h,
                stride == w * bpp,
                bpp == 2 * half,
        ;
        let mut tmp: Vec<u8> = vec![0u8; total];
        crate::binary::swap_bytes_u16_row(src, tmp.as_mut_slice());
        tmp
    };
    assert(data@ =~= target) by {
        assert forall|k: int| 0 <= k < total implies #[trigger] data@[k] == target[k] by {
            lemma_bytewise_byte(m, body@, k);
        }
    }
    Ok(
        Some(
            (
                PbmImage {
                    width: header.width,
                    height: header.height,
                    pixel_format: format,
                    planes: vec![PbmPlane { stride, data }],
                    pts: None,
                },
                format,
            ),
        ),
    )
}


// ---------------------------------------------------------------------------
// Whole-image decoding
// ---------------------------------------------------------------------------

/// The samples of an integer image body and the bytes they occupy: plain
/// bodies per [`ascii_samples_spec`]; P4 `row_bytes * height` bytes of
/// packed bits; P5/P6/P7 `width * height * depth` samples of 1 or 2 bytes.
/// A byte count past `usize::MAX`, or a body shorter than that, is an
/// error.
pub open spec fn body_spec(m: HeaderModel, body: Seq<u8>) -> core::result::Result<(Seq<u16>, int), Fail> {
    let w = m.width as int;
    let h = m.height as int;
    let d = m.depth as int;
    if m.magic.spec_is_ascii() {
        ascii_samples_spec(m, body)
    } else if m.magic == Magic::P4BinaryBitmap {
        if bit_row_bytes(w) * h > usize::MAX {
            Err(Fail::Invalid("Netpbm: dimension overflow"@))
        } else if bit_row_bytes(w) * h > body.len() {
            Err(Fail::Invalid("Netpbm: pixel data truncated"@))
        } else {
            Ok((p4_samples(w, h, d, body), bit_row_bytes(w) * h))
        }
    } else {
        let need = w * h * d * sample_bytes(m.maxval);
        if need > usize::MAX {
            Err(Fail::Invalid("Netpbm: dimension overflow"@))
        } else if need > body.len() {
            Err(Fail::Invalid("Netpbm: pixel data truncated"@))
        } else {
            Ok((word_samples(w * h * d, sample_bytes(m.maxval), m.maxval, body), need))
        }
    }
}

/// A decoded image, as contracts speak of it.
pub struct DecodedModel {
    pub width: u32,
    pub height: u32,
    pub format: PbmPixelFormat,
    pub stride: nat,
    pub data: Seq<u8>,
    /// Bytes of the input the image occupied: header and body.
    pub consumed: nat,
}

/// Decoding the first image of `s`: parse the header, then read the body
/// that follows it. Portable FloatMaps keep their float samples (rows
/// flipped, little-endian); integer images become the plane of
/// [`plane_bytes`] in the format [`pick_format_spec`] picks.
pub open spec fn decode_spec(s: Seq<u8>) -> core::result::Result<DecodedModel, Fail> {
    match header_spec(s) {
        Err(f) => Err(f),
        Ok(m) => {
            let body = s.subrange(m.data_offset as int, s.len() as int);
            if m.magic.spec_is_pfm() {
                let rb = pfm_row_bytes(m);
                if rb > usize::MAX {
                    Err(Fail::Invalid("PFM: row-size overflow"@))
                } else if rb * m.height > usize::MAX {
                    Err(Fail::Invalid("PFM: raster-size overflow"@))
                } else if rb * m.height > body.len() {
                    Err(Fail::Invalid("PFM: float data truncated"@))
                } else {
                    Ok(
                        DecodedModel {
                            width: m.width,
                            height: m.height,
                            format: if m.depth == 3 {
                                PbmPixelFormat::RgbF32
                            } else {
                                PbmPixelFormat::GrayF32
                            },
                            stride: rb as nat,
                            data: pfm_plane(m, m.pfm->0.little_endian, body),
                            consumed: (m.data_offset + rb * m.height) as nat,
                        },
                    )
                }
            } else {
                match body_spec(m, body) {
                    Err(f) => Err(f),
                    Ok(p) => {
                        let f = pick_format_spec(m);
                        let stride = min_row_bytes_spec(f, m.width as nat);
                        if stride > usize::MAX {
                            Err(Fail::Invalid("Netpbm: stride overflow"@))
                        } else if stride * m.height > usize::MAX {
                            Err(Fail::Invalid("Netpbm: plane-size overflow"@))
                        } else {
                            Ok(
                                DecodedModel {
                                    width: m.width,
                                    height: m.height,
                                    format: f,
                                    stride: stride,
                                    data: plane_bytes(m, f, p.0),
                                    consumed: (m.data_offset + p.1) as nat,
                                },
                            )
                        }
                    },
                }
            }
        },
    }
}

/// `img` (tagged `fmt`) is the decoded image `d`.
pub open spec fn image_is(img: PbmImage, fmt: PbmPixelFormat, d: DecodedModel) -> bool {
    &&& img.width == d.width
    &&& img.height == d.height
    &&& img.pixel_format == d.format
    &&& fmt == d.format
    &&& img.planes@.len() == 1
    &&& img.planes@[0].stride == d.stride
    &&& img.planes@[0].data@ == d.data
    &&& img.pts is None
}

/// Decode the first image of `input` (see [`decode_spec`]) and report how
/// many bytes it occupied.
pub fn decode_pbm_consumed(input: &[u8]) -> (r: Result<(PbmImage, PbmPixelFormat, usize)>)
    ensures
        match (r, decode_spec(input@)) {
            (Ok((img, fmt, n)), Ok(d)) => image_is(img, fmt, d) && n == d.consumed,
            (Err(e), Err(f)) => crate::error::fail_of(e) == f,
            _ => false,
        },
        r matches Ok((_, _, n)) ==> n <= input@.len(),
{
    let header = match parse_header(input) {
        Ok(h) => h,
        Err(e) => return Err(e),
    };
    let ghost m = header@;
    proof {
        lemma_header_wf(input@);
    }
    let len = input.len();
    let off = header.data_offset;
    let body = vstd::slice::slice_subrange(input, off, len);
    let blen = body.len();
    if header.magic.is_pfm() {
        let (image, fmt) = match decode_pfm_image(&header, body) {
            Ok(p) => p,
            Err(e) => return Err(e),
        };
        let rb = image.planes[0].stride;
        let hh = header.height as usize;
        proof {
            assert(rb * hh <= blen);
        }
        return Ok((image, fmt, off + rb * hh));
    }
    if !header.magic.is_ascii() {
        // The byte count a binary body needs, checked before any plane of
        // that size is built.
        proof {
            assert(body@ == input@.subrange(m.data_offset as int, input@.len() as int));
            assert(!m.magic.spec_is_ascii());
        }
        let need = match binary_body_byte_len(&header) {
            Ok(v) => v,
            Err(e) => {
                assert(binary_body_len_spec(m) > usize::MAX);
                return Err(e);
            },
        };
        if blen < need {
            assert(body_spec(m, body@) == Err::<(Seq<u16>, int), Fail>(
                Fail::Invalid("Netpbm: pixel data truncated"@),
            ));
            return Err(PbmError::invalid("Netpbm: pixel data truncated"));
        }
    }
    if header.magic == Magic::P4BinaryBitmap {
        let (image, fmt) = match decode_p4_monoblack(&header, body) {
            Ok(p) => p,
            Err(e) => return Err(e),
        };
        let body_len = match binary_body_byte_len(&header) {
            Ok(v) => v,
            Err(e) => return Err(e),
        };
        proof {
            assert(body@ == input@.subrange(m.data_offset as int, input@.len() as int));
            assert(body_spec(m, body@) == Ok::<(Seq<u16>, int), Fail>(
                (
                    p4_samples(m.width as int, m.height as int, 1, body@),
                    bit_row_bytes(m.width as int) * m.height,
                ),
            ));
        }
        return Ok((image, fmt, off + body_len));
    }
    match try_decode_binary_bytewise(&header, body) {
        Ok(Some((image, fmt))) => {
            let body_len = match binary_body_byte_len(&header) {
                Ok(v) => v,
                Err(e) => return Err(e),
            };
            proof {
                let need = m.width * m.height * m.depth * sample_bytes(m.maxval);
                let f = pick_format_spec(m);
                assert(min_row_bytes_spec(f, m.width as nat) * m.height == need) by {
                    let bpp = m.depth * sample_bytes(m.maxval);
                    assert(min_row_bytes_spec(f, m.width as nat) == m.width * bpp);
                    assert(m.width * bpp * m.height == need) by (nonlinear_arith)
                        requires
                            bpp == m.depth * sample_bytes(m.maxval),
                            need == m.width * m.height * m.depth * sample_bytes(m.maxval),
                    ;
                }
                assert(!m.magic.spec_is_ascii());
                assert(body@ == input@.subrange(m.data_offset as int, input@.len() as int));
            }
            return Ok((image, fmt, off + body_len));
        },
        Ok(None) => {},
        Err(e) => return Err(e),
    }
    let (samples, body_len) = if header.magic.is_ascii() {
        match decode_ascii_consumed(&header, body) {
            Ok((s, n)) => {
                proof {
                    lemma_ascii_read_bounds(
                        body@,
                        m.magic == Magic::P1AsciiBitmap,
                        m.maxval,
                        0,
                        (m.width * m.height * m.depth) as nat,
                    );
                }
                (s, n)
            },
            Err(e) => return Err(e),
        }
    } else {
        proof {
            assert(m.width * m.height * m.depth * sample_bytes(m.maxval) >= m.width * m.height
                * m.depth) by (nonlinear_arith)
                requires
                    sample_bytes(m.maxval) >= 1,
            ;
        }
        let s = match crate::binary::decode_binary(&header, body) {
            Ok(s) => s,
            Err(e) => return Err(e),
        };
        let n = match binary_body_byte_len(&header) {
            Ok(v) => v,
            Err(e) => return Err(e),
        };
        (s, n)
    };
    let (plane, format) = match samples_to_plane(&header, &samples) {
        Ok(p) => p,
        Err(e) => return Err(e),
    };
    Ok(
        (
            PbmImage {
                width: header.width,
                height: header.height,
                pixel_format: format,
                planes: vec![plane],
                pts: None,
            },
            format,
            off + body_len,
        ),
    )
}

/// Decode the first image of `input` (see [`decode_spec`]); bytes after it
/// are ignored.
pub fn decode_pbm(input: &[u8]) -> (r: Result<(PbmImage, PbmPixelFormat)>)
    ensures
        match (r, decode_spec(input@)) {
            (Ok((img, fmt)), Ok(d)) => image_is(img, fmt, d),
            (Err(e), Err(f)) => crate::error::fail_of(e) == f,
            _ => false,
        },
{
    match decode_pbm_consumed(input) {
        Ok((img, fmt, _)) => Ok((img, fmt)),
        Err(e) => Err(e),
    }
}


/// A decoded image occupied at least one byte and no more than the input.
pub proof fn lemma_decode_consumed(s: Seq<u8>)
    requires
        decode_spec(s) is Ok,
    ensures
        1 <= (decode_spec(s)->Ok_0).consumed <= s.len(),
{
    lemma_header_offset(s);
    lemma_header_wf(s);
    let m = header_spec(s)->Ok_0;
    let body = s.subrange(m.data_offset as int, s.len() as int);
    if !m.magic.spec_is_pfm() && m.magic.spec_is_ascii() {
        lemma_ascii_read_bounds(
            body,
            m.magic == Magic::P1AsciiBitmap,
            m.maxval,
            0,
            (m.width * m.height * m.depth) as nat,
        );
    }
}

/// Every image of a stream of concatenated images, from `off` on, with the
/// offset where it starts: skip whitespace; at the end of the input the
/// stream is over; otherwise decode one image and go on after it.
pub open spec fn multi_spec(s: Seq<u8>, off: int) -> core::result::Result<Seq<(nat, DecodedModel)>, Fail>
    decreases s.len() - off,
{
    let a = ws_end(s, off);
    if off < 0 || off > s.len() || a >= s.len() {
        Ok(Seq::empty())
    } else {
        match decode_spec(s.subrange(a, s.len() as int)) {
            Err(f) => Err(f),
            Ok(d) => {
                proof {
                    lemma_ws_end(s, off);
                    lemma_decode_consumed(s.subrange(a, s.len() as int));
                }
                match multi_spec(s, a + d.consumed) {
                    Err(f) => Err(f),
                    Ok(rest) => Ok(seq![(a as nat, d)] + rest),
                }
            },
        }
    }
}

/// `done` followed by the outcome `r`.
pub open spec fn prepend_images(
    done: Seq<(nat, DecodedModel)>,
    r: core::result::Result<Seq<(nat, DecodedModel)>, Fail>,
) -> core::result::Result<Seq<(nat, DecodedModel)>, Fail> {
    match r {
        Ok(rest) => Ok(done + rest),
        Err(f) => Err(f),
    }
}

/// Decode every image of a stream of concatenated images (see
/// [`multi_spec`]); a stream holding no image is an error.
pub fn decode_pbm_multi(input: &[u8]) -> (r: Result<Vec<(PbmImage, PbmPixelFormat)>>)
    ensures
        match multi_spec(input@, 0) {
            Err(f) => r matches Err(e) && crate::error::fail_of(e) == f,
            Ok(ds) => if ds.len() == 0 {
                crate::error::invalid_with(r, "Netpbm: no images in stream"@)
            } else {
                r matches Ok(v) && v@.len() == ds.len() && forall|i: int|
                    0 <= i < ds.len() ==> image_is(#[trigger] v@[i].0, v@[i].1, ds[i].1)
            },
        },
{
    let len = input.len();
    let mut images: Vec<(PbmImage, PbmPixelFormat)> = Vec::new();
    let ghost mut done: Seq<(nat, DecodedModel)> = Seq::empty();
    let mut offset: usize = 0;
    loop
        invariant
            len == input@.len(),
            offset <= len,
            images@.len() == done.len(),
            forall|i: int| 0 <= i < done.len() ==> image_is(#[trigger] images@[i].0, images@[i].1, done[i].1),
            multi_spec(input@, 0) == prepend_images(done, multi_spec(input@, offset as int)),
        ensures
            images@.len() == done.len(),
            forall|i: int| 0 <= i < done.len() ==> image_is(#[trigger] images@[i].0, images@[i].1, done[i].1),
            multi_spec(input@, 0) == Ok::<Seq<(nat, DecodedModel)>, Fail>(done),
        decreases len - offset,
    {
        let ghost o0 = offset as int;
        proof {
            lemma_ws_end(input@, o0);
        }
        while offset < len && is_ws(input[offset])
            invariant
                len == input@.len(),
                o0 <= offset <= len,
                ws_end(input@, o0) == ws_end(input@, offset as int),
            decreases len - offset,
        {
            offset += 1;
        }
        if offset >= len {
            assert(multi_spec(input@, o0) == Ok::<Seq<(nat, DecodedModel)>, Fail>(Seq::empty()));
            assert(done + Seq::<(nat, DecodedModel)>::empty() =~= done);
            break;
        }
        let rest = vstd::slice::slice_subrange(input, offset, len);
        let (image, fmt, consumed) = match decode_pbm_consumed(rest) {
            Ok(t) => t,
            Err(e) => return Err(e),
        };
        let ghost d = decode_spec(rest@)->Ok_0;
        proof {
            lemma_decode_consumed(rest@);
        }
        if consumed == 0 {
            return Err(PbmError::invalid("Netpbm: image consumed zero bytes"));
        }
        images.push((image, fmt));
        proof {
            let ghost old_done = done;
            done = done.push((offset as nat, d));
            match multi_spec(input@, offset + consumed) {
                Ok(tail) => {
                    assert(old_done + (seq![(offset as nat, d)] + tail) =~= done + tail);
                },
                Err(_) => {},
            }
        }
        offset = offset + consumed;
    }
    if images.len() == 0 {
        return Err(PbmError::invalid("Netpbm: no images in stream"));
    }
    Ok(images)
}


/// [`decode_pbm_consumed`], also handing back the parsed header.
pub fn decode_pbm_header_consumed(input: &[u8]) -> (r: Result<(PbmImage, PbmPixelFormat, Header, usize)>)
    ensures
        match (r, decode_spec(input@)) {
            (Ok((img, fmt, h, n)), Ok(d)) => image_is(img, fmt, d) && n == d.consumed && header_spec(
                input@,
            ) == Ok::<HeaderModel, Fail>(h@),
            (Err(e), Err(f)) => crate::error::fail_of(e) == f,
            _ => false,
        },
{
    let header = match parse_header(input) {
        Ok(h) => h,
        Err(e) => return Err(e),
    };
    match decode_pbm_consumed(input) {
        Ok((img, fmt, n)) => Ok((img, fmt, header, n)),
        Err(e) => Err(e),
    }
}

/// `h` is the header parsed from `s` at offset `start`.
#[verifier::opaque]
pub open spec fn header_at(s: Seq<u8>, start: int, h: Header) -> bool {
    0 <= start <= s.len() && header_spec(s.subrange(start, s.len() as int)) == Ok::<
        HeaderModel,
        Fail,
    >(h@)
}

/// [`decode_pbm_multi`], also handing back each image's parsed header.
pub fn decode_pbm_multi_with_headers(input: &[u8]) -> (r: Result<Vec<(PbmImage, PbmPixelFormat, Header)>>)
    ensures
        match multi_spec(input@, 0) {
            Err(f) => r matches Err(e) && crate::error::fail_of(e) == f,
            Ok(ds) => if ds.len() == 0 {
                crate::error::invalid_with(r, "Netpbm: no images in stream"@)
            } else {
                r matches Ok(v) && v@.len() == ds.len() && (forall|i: int|
                    0 <= i < ds.len() ==> image_is(#[trigger] v@[i].0, v@[i].1, ds[i].1)) && (
                forall|i: int| 0 <= i < ds.len() ==> header_at(input@, ds[i].0 as int, #[trigger] v@[i].2))
            },
        },
{
    let len = input.len();
    let mut images: Vec<(PbmImage, PbmPixelFormat, Header)> = Vec::new();
    let ghost mut done: Seq<(nat, DecodedModel)> = Seq::empty();
    let mut offset: usize = 0;
    loop
        invariant
            len == input@.len(),
            offset <= len,
            images@.len() == done.len(),
            forall|i: int| 0 <= i < done.len() ==> image_is(#[trigger] images@[i].0, images@[i].1, done[i].1),
            forall|i: int| 0 <= i < done.len() ==> header_at(input@, done[i].0 as int, #[trigger] images@[i].2),
            multi_spec(input@, 0) == prepend_images(done, multi_spec(input@, offset as int)),
        ensures
            images@.len() == done.len(),
            forall|i: int| 0 <= i < done.len() ==> image_is(#[trigger] images@[i].0, images@[i].1, done[i].1),
            forall|i: int| 0 <= i < done.len() ==> header_at(input@, done[i].0 as int, #[trigger] images@[i].2),
            multi_spec(input@, 0) == Ok::<Seq<(nat, DecodedModel)>, Fail>(done),
        decreases len - offset,
    {
        let ghost o0 = offset as int;
        proof {
            lemma_ws_end(input@, o0);
        }
        while offset < len && is_ws(input[offset])
            invariant
                len == input@.len(),
                o0 <= offset <= len,
                ws_end(input@, o0) == ws_end(input@, offset as int),
            decreases len - offset,
        {
            offset += 1;
        }
        if offset >= len {
            assert(multi_spec(input@, o0) == Ok::<Seq<(nat, DecodedModel)>, Fail>(Seq::empty()));
            assert(done + Seq::<(nat, DecodedModel)>::empty() =~= done);
            break;
        }
        let rest = vstd::slice::slice_subrange(input, offset, len);
        let (image, fmt, header, consumed) = match decode_pbm_header_consumed(rest) {
            Ok(t) => t,
            Err(e) => return Err(e),
        };
        let ghost d = decode_spec(rest@)->Ok_0;
        proof {
            lemma_decode_consumed(rest@);
        }
        if consumed == 0 {
            return Err(PbmError::invalid("Netpbm: image consumed zero bytes"));
        }
        assert(header_at(input@, offset as int, header)) by {
            reveal(header_at);
        }
        images.push((image, fmt, header));
        proof {
            let ghost old_done = done;
            done = done.push((offset as nat, d));
            match multi_spec(input@, offset + consumed) {
                Ok(tail) => {
                    assert(old_done + (seq![(offset as nat, d)] + tail) =~= done + tail);
                },
                Err(_) => {},
            }
        }
        offset = offset + consumed;
    }
    if images.len() == 0 {
        return Err(PbmError::invalid("Netpbm: no images in stream"));
    }
    Ok(images)
}


/// The pixel format a container can advertise for a header before
/// decoding: none for Portable FloatMap and for 16-bit gray + alpha (no
/// framework counterpart), `Rgba` for a PAM whose depth has no format,
/// otherwise the format the decoder produces.
pub open spec fn advertised_format_spec(m: HeaderModel) -> Option<PbmPixelFormat> {
    let f = if format_unsupported(m) {
        PbmPixelFormat::Rgba
    } else {
        pick_format_spec(m)
    };
    if m.magic.spec_is_pfm() || f == PbmPixelFormat::Ya16Le {
        None
    } else {
        Some(f)
    }
}

/// The pixel format to advertise for a parsed header (see
/// [`advertised_format_spec`]).
pub fn pick_advertised_format(h: &Header) -> (r: Option<PbmPixelFormat>)
    ensures
        r == advertised_format_spec(h@),
{
    if h.magic.is_pfm() {
        return None;
    }
    let f = match pick_pixel_format(h) {
        Ok(f) => f,
        Err(_) => PbmPixelFormat::Rgba,
    };
    if f == PbmPixelFormat::Ya16Le {
        None
    } else {
        Some(f)
    }
}

} // verus!
