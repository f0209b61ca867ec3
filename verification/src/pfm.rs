//! Portable FloatMap (`Pf` / `PF`) decoding and encoding.
//!
//! A three-line header (identifier, `width height`, scale) precedes raw
//! IEEE-754 binary32 samples, one per pixel (`Pf`) or three (`PF`). The
//! sign of the scale line picks the byte order (negative: little-endian),
//! and rows run bottom to top. In memory the plane is top to bottom with
//! little-endian samples ([`PbmPixelFormat::GrayF32`] /
//! [`PbmPixelFormat::RgbF32`]), so decoding and encoding flip the rows and
//! swap bytes only for big-endian files.

use vstd::prelude::*;
use crate::error::{Fail, PbmError, Result};
use crate::header::{header_spec, header_wf, parse_header, Header, HeaderModel, Magic, PfmInfo};
use crate::image::{format_name, unsupported_format, PbmImage, PbmPixelFormat, PbmPlane};
use crate::encoder::{append_rows, rows_fit, rows_rev_spec, RowOp};
use crate::lex::{dec_digits, write_dec};
use crate::decoder::{decode_pbm_consumed, decode_spec, image_is, DecodedModel};

verus! {

/// Byte order, scale and channel count of a decoded Portable FloatMap.
#[derive(Debug, Clone, PartialEq, Eq)]
pub struct PfmHeaderInfo {
    /// `true` when the on-disk samples were little-endian.
    pub little_endian: bool,
    /// The header's scale line (trimmed); its absolute value is the
    /// producer's scale factor.
    pub scale_literal: Vec<u8>,
    /// Channels per pixel: 1 for `Pf`, 3 for `PF`.
    pub channels: u32,
}

/// Index, within a 4-byte group, of the byte that lands at `b` when the
/// group's byte order is reversed.
pub open spec fn swap4_index(b: int) -> int {
    b - b % 4 + (3 - b % 4)
}

/// Each 4-byte group of `s` with its bytes reversed.
pub open spec fn swap_quads(s: Seq<u8>) -> Seq<u8> {
    Seq::new(s.len(), |k: int| s[swap4_index(k)])
}

/// Reversing each 4-byte group is its own inverse: little-endian to
/// big-endian and back gives the original bytes.
pub proof fn lemma_swap_quads_involution(s: Seq<u8>)
    requires
        s.len() % 4 == 0,
    ensures
        swap_quads(swap_quads(s)) == s,
{
    assert forall|k: int| 0 <= k < s.len() implies #[trigger] swap_quads(swap_quads(s))[k]
        == s[k] by {
        assert(0 <= swap4_index(k) < s.len());
    }
    assert(swap_quads(swap_quads(s)) =~= s);
}

/// Bytes in one row of a float plane: `width * channels * 4`.
pub open spec fn pfm_row_bytes(m: HeaderModel) -> int {
    m.width * m.depth * 4
}

/// The in-memory plane of a Portable FloatMap body: row `y` is file row
/// `height - 1 - y`, each 4-byte sample reversed when the file is
/// big-endian.
pub open spec fn pfm_plane(m: HeaderModel, little_endian: bool, body: Seq<u8>) -> Seq<u8> {
    let rb = pfm_row_bytes(m);
    Seq::new(
        (rb * m.height) as nat,
        |k: int|
            {
                let y = k / rb;
                let b = k % rb;
                let base = (m.height - 1 - y) * rb;
                if little_endian {
                    body[base + b]
                } else {
                    body[base + swap4_index(b)]
                }
            },
    )
}

/// Reverse the bytes of every 4-byte sample (`src`, `dst` of equal length,
/// a multiple of 4).
pub fn swap_bytes_u32_row(src: &[u8], dst: &mut [u8])
    requires
        src@.len() == old(dst)@.len(),
        src@.len() % 4 == 0,
    ensures
        final(dst)@ == swap_quads(src@),
{
    let n = src.len();
    let mut k: usize = 0;
    while k < n
        invariant
            n == src@.len(),
            dst@.len() == n,
            n % 4 == 0,
            k <= n,
            k % 4 == 0,
            forall|i: int| 0 <= i < k ==> dst@[i] == swap_quads(src@)[i],
        decreases n - k,
    {
        proof {
            let ki = k as int;
            assert(ki + 4 <= n && (ki + 1) % 4 == 1 && (ki + 2) % 4 == 2 && (ki + 3) % 4 == 3)
                by (nonlinear_arith)
                requires
                    ki % 4 == 0,
                    n % 4 == 0,
                    ki < n,
            ;
            assert(swap4_index(ki) == ki + 3);
            assert(swap4_index(ki + 1) == ki + 2);
            assert(swap4_index(ki + 2) == ki + 1);
            assert(swap4_index(ki + 3) == ki);
        }
        dst[k] = src[k + 3];
        dst[k + 1] = src[k + 2];
        dst[k + 2] = src[k + 1];
        dst[k + 3] = src[k];
        k += 4;
    }
    assert(dst@ =~= swap_quads(src@));
}

/// Decode the body of a parsed Portable FloatMap header: an error when the
/// row or raster size overflows or the body is shorter than
/// `width * height * channels * 4` bytes.
pub fn decode_pfm_image(h: &Header, body: &[u8]) -> (r: Result<(PbmImage, PbmPixelFormat)>)
    requires
        header_wf(h@),
        h.magic.spec_is_pfm(),
    ensures
        pfm_row_bytes(h@) > usize::MAX ==> (r matches Err(e) && crate::error::fail_of(e)
            == Fail::Invalid("PFM: row-size overflow"@)),
        pfm_row_bytes(h@) <= usize::MAX && pfm_row_bytes(h@) * h.height > usize::MAX ==> (r matches Err(
            e,
        ) && crate::error::fail_of(e) == Fail::Invalid("PFM: raster-size overflow"@)),
        pfm_row_bytes(h@) * h.height <= usize::MAX && pfm_row_bytes(h@) * h.height > body@.len()
            ==> (r matches Err(e) && crate::error::fail_of(e) == Fail::Invalid(
            "PFM: float data truncated"@,
        )),
        pfm_row_bytes(h@) * h.height <= body@.len() ==> (r matches Ok((img, f)) && f
            == img.pixel_format && f == (if h.depth == 3 {
            PbmPixelFormat::RgbF32
        } else {
            PbmPixelFormat::GrayF32
        }) && img.width == h.width && img.height == h.height && img.pts is None
            && img.planes@.len() == 1 && img.planes@[0].stride == pfm_row_bytes(h@)
            && img.planes@[0].data@ == pfm_plane(h@, h.pfm->0.little_endian, body@)),
{
    let little_endian = match &h.pfm {
        Some(info) => info.little_endian,
        None => return Err(PbmError::invalid("PFM: missing byte-order metadata")),
    };
    let n = body.len();
    let w = h.width as usize;
    let hh = h.height as usize;
    let ch = h.depth as usize;
    let row_bytes = match w.checked_mul(ch) {
        Some(v) => match v.checked_mul(4) {
            Some(r) => r,
            None => {
                proof {
                    assert(v * 4 * hh >= v * 4) by (nonlinear_arith)
                        requires
                            hh >= 1,
                    ;
                }
                return Err(PbmError::invalid("PFM: row-size overflow"));
            },
        },
        None => {
            proof {
                assert(w * ch * 4 >= w * ch) by (nonlinear_arith);
                assert(w * ch * 4 * hh >= w * ch * 4) by (nonlinear_arith)
                    requires
                        hh >= 1,
                ;
            }
            return Err(PbmError::invalid("PFM: row-size overflow"));
        },
    };
    proof {
        if row_bytes * hh > usize::MAX {
        }
    }
    let need = match row_bytes.checked_mul(hh) {
        Some(v) => v,
        None => return Err(PbmError::invalid("PFM: raster-size overflow")),
    };
    if n < need {
        return Err(PbmError::invalid("PFM: float data truncated"));
    }
    let format = if ch == 3 {
        PbmPixelFormat::RgbF32
    } else {
        PbmPixelFormat::GrayF32
    };
    let ghost target = pfm_plane(h@, little_endian, body@);
    let mut data: Vec<u8> = Vec::new();
    let mut y: usize = 0;
    while y < hh
        invariant
            n == body@.len(),
            need == row_bytes * hh,
            need <= n,
            row_bytes == pfm_row_bytes(h@),
            hh == h.height,
            hh > 0,
            row_bytes > 0,
            row_bytes % 4 == 0,
            target == pfm_plane(h@, little_endian, body@),
            y <= hh,
            data@ == target.subrange(0, y * row_bytes),
        decreases hh - y,
    {
        let file_row = hh - 1 - y;
        proof {
            assert(file_row * row_bytes + row_bytes <= need) by (nonlinear_arith)
                requires
                    file_row < hh,
                    need == row_bytes * hh,
            ;
            assert(y * row_bytes + row_bytes <= need) by (nonlinear_arith)
                requires
                    y < hh,
                    need == row_bytes * hh,
            ;
        }
        let src = vstd::slice::slice_subrange(body, file_row * row_bytes, file_row * row_bytes + row_bytes);
        let ghost before = data@;
        if little_endian {
            data.extend_from_slice(src);
        } else {
            let mut tmp: Vec<u8> = vec![0u8; row_bytes];
            swap_bytes_u32_row(src, tmp.as_mut_slice());
            data.extend_from_slice(tmp.as_slice());
        }
        proof {
            assert forall|k: int| y * row_bytes <= k < (y + 1) * row_bytes implies #[trigger] data@[k]
                == target[k] by {
                let b = k - y * row_bytes;
                assert((y + 1) * row_bytes == y * row_bytes + row_bytes) by (nonlinear_arith);
                assert(k / (row_bytes as int) == y && k % (row_bytes as int) == b) by {
                    vstd::arithmetic::div_mod::lemma_fundamental_div_mod_converse(
                        k,
                        row_bytes as int,
                        y as int,
                        b,
                    );
                }
                assert(k < need) by (nonlinear_arith)
                    requires
                        k < (y + 1) * row_bytes,
                        y < hh,
                        need == row_bytes * hh,
                ;
                if !little_endian {
                    assert(0 <= swap4_index(b) < row_bytes);
                }
            }
            assert(data@ =~= target.subrange(0, (y + 1) * row_bytes)) by {
                assert((y + 1) * row_bytes == y * row_bytes + row_bytes) by (nonlinear_arith);
            }
        }
        y += 1;
    }
    assert(y * row_bytes == row_bytes * hh) by (nonlinear_arith)
        requires
            y == hh,
    ;
    assert(data@ =~= target);
    let img = PbmImage {
        width: h.width,
        height: h.height,
        pixel_format: format,
        planes: vec![PbmPlane { stride: row_bytes, data }],
        pts: None,
    };
    Ok((img, format))
}


/// The Portable FloatMap header: `Pf` / `PF`, then `width height`, then
/// the scale line: `-` (little-endian) or nothing (big-endian) followed by
/// the scale magnitude `magnitude`.
pub open spec fn pfm_header_bytes(
    f: PbmPixelFormat,
    w: nat,
    h: nat,
    little_endian: bool,
    magnitude: Seq<u8>,
) -> Seq<u8> {
    seq![0x50u8, if f == PbmPixelFormat::RgbF32 {
        0x46u8
    } else {
        0x66u8
    }, 0x0au8] + dec_digits(w) + seq![0x20u8] + dec_digits(h) + seq![0x0au8] + (if little_endian {
        seq![0x2du8]
    } else {
        Seq::empty()
    }) + magnitude + seq![0x0au8]
}

/// Encoding a float plane as a Portable FloatMap whose scale line carries
/// `magnitude`: an error for a non-float format (unsupported), for a row
/// size that overflows, a stride shorter than a row, or a plane that does
/// not hold every row (`(height - 1) * stride + row bytes` bytes, the last
/// row needing no padding); otherwise the header followed by the rows
/// bottom to top, each 4-byte sample reversed when big-endian.
pub open spec fn pfm_encode_spec(
    data: Seq<u8>,
    stride: int,
    f: PbmPixelFormat,
    w: int,
    h: int,
    little_endian: bool,
    magnitude: Seq<u8>,
) -> core::result::Result<Seq<u8>, Fail> {
    let ch = if f == PbmPixelFormat::RgbF32 {
        3int
    } else {
        1int
    };
    let rb = w * ch * 4;
    if f != PbmPixelFormat::GrayF32 && f != PbmPixelFormat::RgbF32 {
        Err(Fail::Unsupported("PFM encoder: pixel format "@ + format_name(f) + " is not a float map"@))
    } else if rb > usize::MAX {
        Err(Fail::Invalid("PFM encoder: row-size overflow"@))
    } else if stride < rb {
        Err(Fail::Invalid("PFM encoder: plane stride smaller than a row"@))
    } else if !rows_fit(data.len() as int, stride, rb, h) {
        Err(Fail::Invalid("PFM encoder: plane truncated"@))
    } else {
        Ok(
            pfm_header_bytes(f, w as nat, h as nat, little_endian, magnitude) + rows_rev_spec(
                data,
                stride,
                rb,
                h,
                h,
                if little_endian {
                    RowOp::Copy
                } else {
                    RowOp::SwapQuads
                },
                w,
            ),
        )
    }
}

/// Encode a float plane as a Portable FloatMap whose scale line is
/// `magnitude` (the decimal text of the scale factor's absolute value),
/// signed by the byte order (see [`pfm_encode_spec`]).
pub fn encode_pfm_plane_with_scale(
    plane: &PbmPlane,
    format: PbmPixelFormat,
    width: u32,
    height: u32,
    little_endian: bool,
    magnitude: &[u8],
) -> (r: Result<Vec<u8>>)
    ensures
        match (r, pfm_encode_spec(plane.data@, plane.stride as int, format, width as int, height as int, little_endian, magnitude@)) {
            (Ok(v), Ok(s)) => v@ == s,
            (Err(e), Err(f)) => crate::error::fail_of(e) == f,
            _ => false,
        },
{
    let ch: usize = match format {
        PbmPixelFormat::GrayF32 => 1,
        PbmPixelFormat::RgbF32 => 3,
        _ => return Err(unsupported_format("PFM encoder: pixel format ", format, " is not a float map")),
    };
    let w = width as usize;
    let h = height as usize;
    let rb = match w.checked_mul(ch) {
        Some(v) => match v.checked_mul(4) {
            Some(r) => r,
            None => return Err(PbmError::invalid("PFM encoder: row-size overflow")),
        },
        None => {
            proof {
                assert(w * ch * 4 >= w * ch) by (nonlinear_arith);
            }
            return Err(PbmError::invalid("PFM encoder: row-size overflow"));
        },
    };
    if plane.stride < rb {
        return Err(PbmError::invalid("PFM encoder: plane stride smaller than a row"));
    }
    if !crate::encoder::rows_fit_wide(plane.data.len(), plane.stride, rb as u128, height) {
        return Err(PbmError::invalid("PFM encoder: plane truncated"));
    }
    let mut out: Vec<u8> = Vec::new();
    out.push(0x50);
    out.push(if ch == 3 {
        0x46
    } else {
        0x66
    });
    out.push(0x0a);
    write_dec(&mut out, w as u64);
    out.push(0x20);
    write_dec(&mut out, h as u64);
    out.push(0x0a);
    if little_endian {
        out.push(0x2d);
    }
    out.extend_from_slice(magnitude);
    out.push(0x0a);
    assert(out@ =~= pfm_header_bytes(format, w as nat, h as nat, little_endian, magnitude@));
    proof {
        assert(rows_fit(plane.data@.len() as int, plane.stride as int, rb as int, h as int));
    }
    let op = if little_endian {
        RowOp::Copy
    } else {
        RowOp::SwapQuads
    };
    assert(rb % 4 == 0) by (nonlinear_arith)
        requires
            rb == w * ch * 4,
    ;
    append_rows(&mut out, plane.data.as_slice(), plane.stride, rb, h, op, w, true);
    Ok(out)
}


/// Decode the first image of `input`, which must be a Portable FloatMap,
/// with its byte order, scale and channel count, and report how many bytes
/// it occupied (see [`decode_spec`]).
pub fn decode_pfm_consumed(input: &[u8]) -> (r: Result<(PbmImage, PfmHeaderInfo, usize)>)
    ensures
        match header_spec(input@) {
            Err(f) => r matches Err(e) && crate::error::fail_of(e) == f,
            Ok(m) => if !m.magic.spec_is_pfm() {
                crate::error::invalid_with(r, "PFM: input is not a Portable FloatMap (Pf/PF) stream"@)
            } else {
                match (r, decode_spec(input@)) {
                    (Ok((img, info, n)), Ok(d)) => image_is(img, img.pixel_format, d) && n
                        == d.consumed && info.little_endian == m.pfm->0.little_endian
                        && info.scale_literal@ == m.pfm->0.scale_literal && info.channels
                        == m.depth,
                    (Err(e), Err(f)) => crate::error::fail_of(e) == f,
                    _ => false,
                }
            },
        },
{
    let header = match parse_header(input) {
        Ok(h) => h,
        Err(e) => return Err(e),
    };
    proof {
        crate::header::lemma_header_wf(input@);
    }
    let depth = header.depth;
    let (little_endian, scale_literal) = match header.pfm {
        Some(info) => (info.little_endian, info.scale_literal),
        None => return Err(PbmError::invalid("PFM: input is not a Portable FloatMap (Pf/PF) stream")),
    };
    match decode_pbm_consumed(input) {
        Ok((img, _fmt, n)) => Ok(
            (img, PfmHeaderInfo { little_endian, scale_literal, channels: depth }, n),
        ),
        Err(e) => Err(e),
    }
}


/// Decode the first image of `input`, which must be a Portable FloatMap,
/// with its byte order, scale and channel count (see
/// [`decode_pfm_consumed`]).
pub fn decode_pfm(input: &[u8]) -> (r: Result<(PbmImage, PfmHeaderInfo)>)
    ensures
        match header_spec(input@) {
            Err(f) => r matches Err(e) && crate::error::fail_of(e) == f,
            Ok(m) => if !m.magic.spec_is_pfm() {
                crate::error::invalid_with(r, "PFM: input is not a Portable FloatMap (Pf/PF) stream"@)
            } else {
                match (r, decode_spec(input@)) {
                    (Ok((img, info)), Ok(d)) => image_is(img, img.pixel_format, d)
                        && info.little_endian == m.pfm->0.little_endian && info.scale_literal@
                        == m.pfm->0.scale_literal && info.channels == m.depth,
                    (Err(e), Err(f)) => crate::error::fail_of(e) == f,
                    _ => false,
                }
            },
        },
{
    match decode_pfm_consumed(input) {
        Ok((img, info, _)) => Ok((img, info)),
        Err(e) => Err(e),
    }
}

} // verus!
