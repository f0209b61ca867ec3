//! Netpbm encoder. The output magic follows the input [`PbmPixelFormat`]:
//!
//! | PbmPixelFormat     | Output |
//! |--------------------|--------|
//! | `MonoBlack`        | P4     |
//! | `Gray8`            | P5 (maxval 255) |
//! | `Gray16Le`         | P5 (maxval 65535, big-endian samples on disk) |
//! | `Rgb24`            | P6 (maxval 255) |
//! | `Rgb48Le`          | P6 (maxval 65535) |
//! | `Rgba` / `Bgra`    | P7 RGB_ALPHA (maxval 255) |
//! | `Rgba64Le`         | P7 RGB_ALPHA (maxval 65535) |
//! | `Ya8`              | P7 GRAYSCALE_ALPHA (maxval 255) |
//! | `Ya16Le`           | P7 GRAYSCALE_ALPHA (maxval 65535) |
//! | `GrayF32` / `RgbF32` | `Pf` / `PF` (little-endian, scale -1.0) |
//!
//! Plain output (P1/P2/P3) comes from [`encode_pbm_ascii`];
//! [`encode_pbm_with_format`] pins the magic explicitly.

use vstd::prelude::*;
use crate::ascii::{bits_text, byte_values, encode_ascii_body_bits, encode_ascii_body_u8, plain_body};
use crate::binary::{
    bgra_to_rgba, bgra_to_rgba_row, bit_row_bytes, copy_p4_row_msb, p4_row, swap_bytes_u16_row,
    swap_pairs,
};
use crate::error::{Fail, PbmError, Result};
use crate::header::{
    key_depth, key_endhdr, key_height, key_maxval, key_tupltype, key_width, magic_digit,
    name_grayscale, name_rgb, suffix_alpha, Magic,
};
use crate::image::min_row_bytes_spec;
use crate::pfm::{encode_pfm_plane_with_scale, pfm_encode_spec};
use crate::image::{format_name, unsupported_format, PbmImage, PbmPixelFormat, PbmPlane};
use crate::lex::{dec_digits, write_dec};
use crate::pfm::{swap_bytes_u32_row, swap_quads};

verus! {

// ---------------------------------------------------------------------------
// Rows
// ---------------------------------------------------------------------------

/// What is done to each plane row on its way to disk.
#[derive(Debug, Clone, Copy, PartialEq, Eq, Structural)]
pub enum RowOp {
    /// Bytes unchanged.
    Copy,
    /// Byte pairs exchanged (16-bit little-endian to big-endian).
    SwapPairs,
    /// 4-byte BGRA pixels reordered to RGBA.
    BgraToRgba,
    /// P4 row: padding bits of the last byte cleared.
    ClearPad,
    /// Byte quads reversed (32-bit little-endian to big-endian).
    SwapQuads,
}

pub open spec fn apply_op(op: RowOp, w: int, r: Seq<u8>) -> Seq<u8> {
    match op {
        RowOp::Copy => r,
        RowOp::SwapPairs => swap_pairs(r),
        RowOp::BgraToRgba => bgra_to_rgba(r),
        RowOp::ClearPad => p4_row(r, w),
        RowOp::SwapQuads => swap_quads(r),
    }
}

/// Row `y` of a plane: `rb` bytes from `y * stride`.
pub open spec fn row_at(data: Seq<u8>, stride: int, rb: int, y: int) -> Seq<u8> {
    data.subrange(y * stride, y * stride + rb)
}

/// Rows `0 .. n` of a plane, each transformed by `op`, top to bottom.
pub open spec fn rows_spec(data: Seq<u8>, stride: int, rb: int, n: int, op: RowOp, w: int) -> Seq<
    u8,
>
    decreases n,
{
    if n <= 0 {
        Seq::empty()
    } else {
        rows_spec(data, stride, rb, n - 1, op, w) + apply_op(op, w, row_at(data, stride, rb, n - 1))
    }
}

/// The last `n` rows of an `h`-row plane, each transformed by `op`, bottom
/// to top.
pub open spec fn rows_rev_spec(
    data: Seq<u8>,
    stride: int,
    rb: int,
    h: int,
    n: int,
    op: RowOp,
    w: int,
) -> Seq<u8>
    decreases n,
{
    if n <= 0 {
        Seq::empty()
    } else {
        rows_rev_spec(data, stride, rb, h, n - 1, op, w) + apply_op(
            op,
            w,
            row_at(data, stride, rb, h - n),
        )
    }
}

/// Every row `0 .. h` lies inside the plane.
pub open spec fn rows_fit(len: int, stride: int, rb: int, h: int) -> bool {
    h == 0 || (h - 1) * stride + rb <= len
}

/// What an operation needs of the row length.
pub open spec fn op_fits(op: RowOp, rb: int, w: int) -> bool {
    match op {
        RowOp::Copy => true,
        RowOp::SwapPairs => rb % 2 == 0,
        RowOp::BgraToRgba => rb % 4 == 0,
        RowOp::ClearPad => rb == bit_row_bytes(w),
        RowOp::SwapQuads => rb % 4 == 0,
    }
}

fn apply_row(src: &[u8], op: RowOp, w: usize) -> (r: Vec<u8>)
    requires
        op_fits(op, src@.len() as int, w as int),
    ensures
        r@ == apply_op(op, w as int, src@),
{
    match op {
        RowOp::Copy => vstd::slice::slice_to_vec(src),
        RowOp::SwapPairs => {
            let mut t: Vec<u8> = vec![0u8; src.len()];
            swap_bytes_u16_row(src, t.as_mut_slice());
            t
        },
        RowOp::BgraToRgba => {
            let mut t: Vec<u8> = vec![0u8; src.len()];
            bgra_to_rgba_row(src, t.as_mut_slice());
            t
        },
        RowOp::ClearPad => {
            let mut t: Vec<u8> = vec![0u8; src.len()];
            copy_p4_row_msb(src, t.as_mut_slice(), w);
            t
        },
        RowOp::SwapQuads => {
            let mut t: Vec<u8> = vec![0u8; src.len()];
            swap_bytes_u32_row(src, t.as_mut_slice());
            t
        },
    }
}

/// Append the `h` rows of a plane, transformed by `op`, top to bottom or
/// (when `reverse`) bottom to top.
pub(crate) fn append_rows(
    out: &mut Vec<u8>,
    data: &[u8],
    stride: usize,
    rb: usize,
    h: usize,
    op: RowOp,
    w: usize,
    reverse: bool,
)
    requires
        rows_fit(data@.len() as int, stride as int, rb as int, h as int),
        op_fits(op, rb as int, w as int),
    ensures
        final(out)@ == old(out)@ + if reverse {
            rows_rev_spec(data@, stride as int, rb as int, h as int, h as int, op, w as int)
        } else {
            rows_spec(data@, stride as int, rb as int, h as int, op, w as int)
        },
{
    let ghost start = out@;
    let len = data.len();
    let mut i: usize = 0;
    while i < h
        invariant
            len == data@.len(),
            rows_fit(len as int, stride as int, rb as int, h as int),
            op_fits(op, rb as int, w as int),
            i <= h,
            out@ == start + if reverse {
                rows_rev_spec(data@, stride as int, rb as int, h as int, i as int, op, w as int)
            } else {
                rows_spec(data@, stride as int, rb as int, i as int, op, w as int)
            },
        decreases h - i,
    {
        let y = if reverse {
            h - 1 - i
        } else {
            i
        };
        proof {
            assert(y * stride + rb <= len) by (nonlinear_arith)
                requires
                    y < h,
                    (h - 1) * stride + rb <= len,
            ;
        }
        let src = vstd::slice::slice_subrange(data, y * stride, y * stride + rb);
        let row = apply_row(src, op, w);
        out.extend_from_slice(row.as_slice());
        proof {
            if reverse {
                assert(out@ =~= start + rows_rev_spec(
                    data@,
                    stride as int,
                    rb as int,
                    h as int,
                    i + 1,
                    op,
                    w as int,
                ));
            } else {
                assert(out@ =~= start + rows_spec(
                    data@,
                    stride as int,
                    rb as int,
                    i + 1,
                    op,
                    w as int,
                ));
            }
        }
        i += 1;
    }
}

// ---------------------------------------------------------------------------
// Headers
// ---------------------------------------------------------------------------

/// `P<digit>\n<w> <h>\n` and, when given, `<maxval>\n`.
pub open spec fn pnm_header_bytes(digit: u8, w: nat, h: nat, maxval: Option<nat>) -> Seq<u8> {
    seq![0x50u8, digit, 0x0au8] + dec_digits(w) + seq![0x20u8] + dec_digits(h) + seq![0x0au8]
        + match maxval {
        Some(m) => dec_digits(m) + seq![0x0au8],
        None => Seq::empty(),
    }
}

/// `KEY value\n` for a PAM header.
pub open spec fn pam_line(key: Seq<u8>, value: Seq<u8>) -> Seq<u8> {
    key + seq![0x20u8] + value + seq![0x0au8]
}

/// The PAM header `P7`, `WIDTH`, `HEIGHT`, `DEPTH`, `MAXVAL`, `TUPLTYPE`,
/// `ENDHDR`, one per line.
pub open spec fn pam_header_bytes(w: nat, h: nat, depth: nat, maxval: nat, name: Seq<u8>) -> Seq<
    u8,
> {
    seq![0x50u8, 0x37u8, 0x0au8] + pam_line(key_width(), dec_digits(w)) + pam_line(
        key_height(),
        dec_digits(h),
    ) + pam_line(key_depth(), dec_digits(depth)) + pam_line(key_maxval(), dec_digits(maxval))
        + pam_line(key_tupltype(), name) + key_endhdr() + seq![0x0au8]
}

pub(crate) fn header_pnm(magic: Magic, w: usize, h: usize, maxval: Option<u32>) -> (r: Vec<u8>)
    ensures
        r@ == pnm_header_bytes(
            magic_digit(magic),
            w as nat,
            h as nat,
            match maxval {
                Some(m) => Some(m as nat),
                None => None,
            },
        ),
{
    let mut out: Vec<u8> = Vec::new();
    let id = magic.wire_bytes();
    out.push(id[0]);
    out.push(id[1]);
    out.push(0x0a);
    write_dec(&mut out, w as u64);
    out.push(0x20);
    write_dec(&mut out, h as u64);
    out.push(0x0a);
    match maxval {
        Some(m) => {
            write_dec(&mut out, m as u64);
            out.push(0x0a);
        },
        None => {},
    }
    assert(out@ =~= pnm_header_bytes(
        magic_digit(magic),
        w as nat,
        h as nat,
        match maxval {
            Some(m) => Some(m as nat),
            None => None,
        },
    ));
    out
}

fn push_key_value(out: &mut Vec<u8>, key: &[u8], value: u64)
    ensures
        final(out)@ == old(out)@ + pam_line(key@, dec_digits(value as nat)),
{
    out.extend_from_slice(key);
    out.push(0x20);
    write_dec(out, value);
    out.push(0x0a);
    assert(final(out)@ =~= old(out)@ + pam_line(key@, dec_digits(value as nat)));
}

fn header_pam(w: usize, h: usize, depth: u32, maxval: u32, name: &[u8]) -> (r: Vec<u8>)
    ensures
        r@ == pam_header_bytes(w as nat, h as nat, depth as nat, maxval as nat, name@),
{
    let k_width: [u8; 5] = [0x57, 0x49, 0x44, 0x54, 0x48];
    let k_height: [u8; 6] = [0x48, 0x45, 0x49, 0x47, 0x48, 0x54];
    let k_depth: [u8; 5] = [0x44, 0x45, 0x50, 0x54, 0x48];
    let k_maxval: [u8; 6] = [0x4d, 0x41, 0x58, 0x56, 0x41, 0x4c];
    let k_tupltype: [u8; 8] = [0x54, 0x55, 0x50, 0x4c, 0x54, 0x59, 0x50, 0x45];
    let k_endhdr: [u8; 6] = [0x45, 0x4e, 0x44, 0x48, 0x44, 0x52];
    assert(k_width@ =~= key_width());
    assert(k_height@ =~= key_height());
    assert(k_depth@ =~= key_depth());
    assert(k_maxval@ =~= key_maxval());
    assert(k_tupltype@ =~= key_tupltype());
    assert(k_endhdr@ =~= key_endhdr());
    let mut out: Vec<u8> = Vec::new();
    out.push(0x50);
    out.push(0x37);
    out.push(0x0a);
    push_key_value(&mut out, k_width.as_slice(), w as u64);
    push_key_value(&mut out, k_height.as_slice(), h as u64);
    push_key_value(&mut out, k_depth.as_slice(), depth as u64);
    push_key_value(&mut out, k_maxval.as_slice(), maxval as u64);
    out.extend_from_slice(k_tupltype.as_slice());
    out.push(0x20);
    out.extend_from_slice(name);
    out.push(0x0a);
    assert(out@ =~= seq![0x50u8, 0x37u8, 0x0au8] + pam_line(key_width(), dec_digits(w as nat))
        + pam_line(key_height(), dec_digits(h as nat)) + pam_line(
        key_depth(),
        dec_digits(depth as nat),
    ) + pam_line(key_maxval(), dec_digits(maxval as nat)) + pam_line(key_tupltype(), name@));
    out.extend_from_slice(k_endhdr.as_slice());
    out.push(0x0a);
    assert(out@ =~= pam_header_bytes(w as nat, h as nat, depth as nat, maxval as nat, name@));
    out
}


// ---------------------------------------------------------------------------
// Binary writers
// ---------------------------------------------------------------------------

fn rb_bits(w: usize) -> (r: usize)
    ensures
        r == bit_row_bytes(w as int),
{
    w / 8 + if w % 8 == 0 {
        0
    } else {
        1
    }
}

fn lit_gray() -> (r: [u8; 9])
    ensures
        r@ == name_grayscale(),
{
    let r: [u8; 9] = [0x47, 0x52, 0x41, 0x59, 0x53, 0x43, 0x41, 0x4c, 0x45];
    assert(r@ =~= name_grayscale());
    r
}

fn lit_gray_alpha() -> (r: [u8; 15])
    ensures
        r@ == name_grayscale() + suffix_alpha(),
{
    let r: [u8; 15] = [
        0x47, 0x52, 0x41, 0x59, 0x53, 0x43, 0x41, 0x4c, 0x45, 0x5f, 0x41, 0x4c, 0x50, 0x48, 0x41,
    ];
    assert(r@ =~= name_grayscale() + suffix_alpha());
    r
}

fn lit_rgb() -> (r: [u8; 3])
    ensures
        r@ == name_rgb(),
{
    let r: [u8; 3] = [0x52, 0x47, 0x42];
    assert(r@ =~= name_rgb());
    r
}

fn lit_rgb_alpha() -> (r: [u8; 9])
    ensures
        r@ == name_rgb() + suffix_alpha(),
{
    let r: [u8; 9] = [0x52, 0x47, 0x42, 0x5f, 0x41, 0x4c, 0x50, 0x48, 0x41];
    assert(r@ =~= name_rgb() + suffix_alpha());
    r
}

fn encode_p4(plane: &PbmPlane, w: usize, h: usize) -> (r: Vec<u8>)
    requires
        bit_row_bytes(w as int) <= usize::MAX,
        rows_fit(plane.data@.len() as int, plane.stride as int, bit_row_bytes(w as int), h as int),
    ensures
        r@ == pnm_header_bytes(0x34, w as nat, h as nat, None) + rows_spec(
            plane.data@,
            plane.stride as int,
            bit_row_bytes(w as int),
            h as int,
            RowOp::ClearPad,
            w as int,
        ),
{
    let rb = rb_bits(w);
    let mut out = header_pnm(Magic::P4BinaryBitmap, w, h, None);
    append_rows(&mut out, plane.data.as_slice(), plane.stride, rb, h, RowOp::ClearPad, w, false);
    out
}

fn encode_p5_gray8(plane: &PbmPlane, w: usize, h: usize) -> (r: Vec<u8>)
    requires
        rows_fit(plane.data@.len() as int, plane.stride as int, w as int, h as int),
    ensures
        r@ == pnm_header_bytes(0x35, w as nat, h as nat, Some(255nat)) + rows_spec(
            plane.data@,
            plane.stride as int,
            w as int,
            h as int,
            RowOp::Copy,
            w as int,
        ),
{
    let rb = w;
    let mut out = header_pnm(Magic::P5BinaryGraymap, w, h, Some(255));
    append_rows(&mut out, plane.data.as_slice(), plane.stride, rb, h, RowOp::Copy, w, false);
    out
}

fn encode_p5_gray16(plane: &PbmPlane, w: usize, h: usize) -> (r: Vec<u8>)
    requires
        2 * w <= usize::MAX,
        rows_fit(plane.data@.len() as int, plane.stride as int, 2 * w, h as int),
    ensures
        r@ == pnm_header_bytes(0x35, w as nat, h as nat, Some(65535nat)) + rows_spec(
            plane.data@,
            plane.stride as int,
            2 * w,
            h as int,
            RowOp::SwapPairs,
            w as int,
        ),
{
    let rb = 2 * w;
    let mut out = header_pnm(Magic::P5BinaryGraymap, w, h, Some(65535));
    append_rows(&mut out, plane.data.as_slice(), plane.stride, rb, h, RowOp::SwapPairs, w, false);
    out
}

fn encode_p6_rgb8(plane: &PbmPlane, w: usize, h: usize) -> (r: Vec<u8>)
    requires
        3 * w <= usize::MAX,
        rows_fit(plane.data@.len() as int, plane.stride as int, 3 * w, h as int),
    ensures
        r@ == pnm_header_bytes(0x36, w as nat, h as nat, Some(255nat)) + rows_spec(
            plane.data@,
            plane.stride as int,
            3 * w,
            h as int,
            RowOp::Copy,
            w as int,
        ),
{
    let rb = 3 * w;
    let mut out = header_pnm(Magic::P6BinaryPixmap, w, h, Some(255));
    append_rows(&mut out, plane.data.as_slice(), plane.stride, rb, h, RowOp::Copy, w, false);
    out
}

fn encode_p6_rgb16(plane: &PbmPlane, w: usize, h: usize) -> (r: Vec<u8>)
    requires
        6 * w <= usize::MAX,
        rows_fit(plane.data@.len() as int, plane.stride as int, 6 * w, h as int),
    ensures
        r@ == pnm_header_bytes(0x36, w as nat, h as nat, Some(65535nat)) + rows_spec(
            plane.data@,
            plane.stride as int,
            6 * w,
            h as int,
            RowOp::SwapPairs,
            w as int,
        ),
{
    let rb = 6 * w;
    let mut out = header_pnm(Magic::P6BinaryPixmap, w, h, Some(65535));
    append_rows(&mut out, plane.data.as_slice(), plane.stride, rb, h, RowOp::SwapPairs, w, false);
    out
}

fn encode_p7_gray8(plane: &PbmPlane, w: usize, h: usize) -> (r: Vec<u8>)
    requires
        rows_fit(plane.data@.len() as int, plane.stride as int, w as int, h as int),
    ensures
        r@ == pam_header_bytes(w as nat, h as nat, 1, 255, name_grayscale()) + rows_spec(
            plane.data@,
            plane.stride as int,
            w as int,
            h as int,
            RowOp::Copy,
            w as int,
        ),
{
    let rb = w;
    let mut out = header_pam(w, h, 1, 255, lit_gray().as_slice());
    append_rows(&mut out, plane.data.as_slice(), plane.stride, rb, h, RowOp::Copy, w, false);
    out
}

fn encode_p7_gray16(plane: &PbmPlane, w: usize, h: usize) -> (r: Vec<u8>)
    requires
        2 * w <= usize::MAX,
        rows_fit(plane.data@.len() as int, plane.stride as int, 2 * w, h as int),
    ensures
        r@ == pam_header_bytes(w as nat, h as nat, 1, 65535, name_grayscale()) + rows_spec(
            plane.data@,
            plane.stride as int,
            2 * w,
            h as int,
            RowOp::SwapPairs,
            w as int,
        ),
{
    let rb = 2 * w;
    let mut out = header_pam(w, h, 1, 65535, lit_gray().as_slice());
    append_rows(&mut out, plane.data.as_slice(), plane.stride, rb, h, RowOp::SwapPairs, w, false);
    out
}

fn encode_p7_rgb8(plane: &PbmPlane, w: usize, h: usize) -> (r: Vec<u8>)
    requires
        3 * w <= usize::MAX,
        rows_fit(plane.data@.len() as int, plane.stride as int, 3 * w, h as int),
    ensures
        r@ == pam_header_bytes(w as nat, h as nat, 3, 255, name_rgb()) + rows_spec(
            plane.data@,
            plane.stride as int,
            3 * w,
            h as int,
            RowOp::Copy,
            w as int,
        ),
{
    let rb = 3 * w;
    let mut out = header_pam(w, h, 3, 255, lit_rgb().as_slice());
    append_rows(&mut out, plane.data.as_slice(), plane.stride, rb, h, RowOp::Copy, w, false);
    out
}

fn encode_p7_rgb16(plane: &PbmPlane, w: usize, h: usize) -> (r: Vec<u8>)
    requires
        6 * w <= usize::MAX,
        rows_fit(plane.data@.len() as int, plane.stride as int, 6 * w, h as int),
    ensures
        r@ == pam_header_bytes(w as nat, h as nat, 3, 65535, name_rgb()) + rows_spec(
            plane.data@,
            plane.stride as int,
            6 * w,
            h as int,
            RowOp::SwapPairs,
            w as int,
        ),
{
    let rb = 6 * w;
    let mut out = header_pam(w, h, 3, 65535, lit_rgb().as_slice());
    append_rows(&mut out, plane.data.as_slice(), plane.stride, rb, h, RowOp::SwapPairs, w, false);
    out
}

fn encode_p7_rgba8(plane: &PbmPlane, w: usize, h: usize) -> (r: Vec<u8>)
    requires
        4 * w <= usize::MAX,
        rows_fit(plane.data@.len() as int, plane.stride as int, 4 * w, h as int),
    ensures
        r@ == pam_header_bytes(w as nat, h as nat, 4, 255, name_rgb() + suffix_alpha()) + rows_spec(
            plane.data@,
            plane.stride as int,
            4 * w,
            h as int,
            RowOp::Copy,
            w as int,
        ),
{
    let rb = 4 * w;
    let mut out = header_pam(w, h, 4, 255, lit_rgb_alpha().as_slice());
    append_rows(&mut out, plane.data.as_slice(), plane.stride, rb, h, RowOp::Copy, w, false);
    out
}

fn encode_p7_bgra8(plane: &PbmPlane, w: usize, h: usize) -> (r: Vec<u8>)
    requires
        4 * w <= usize::MAX,
        rows_fit(plane.data@.len() as int, plane.stride as int, 4 * w, h as int),
    ensures
        r@ == pam_header_bytes(w as nat, h as nat, 4, 255, name_rgb() + suffix_alpha()) + rows_spec(
            plane.data@,
            plane.stride as int,
            4 * w,
            h as int,
            RowOp::BgraToRgba,
            w as int,
        ),
{
    let rb = 4 * w;
    let mut out = header_pam(w, h, 4, 255, lit_rgb_alpha().as_slice());
    append_rows(&mut out, plane.data.as_slice(), plane.stride, rb, h, RowOp::BgraToRgba, w, false);
    out
}

fn encode_p7_rgba16(plane: &PbmPlane, w: usize, h: usize) -> (r: Vec<u8>)
    requires
        8 * w <= usize::MAX,
        rows_fit(plane.data@.len() as int, plane.stride as int, 8 * w, h as int),
    ensures
        r@ == pam_header_bytes(w as nat, h as nat, 4, 65535, name_rgb() + suffix_alpha()) + rows_spec(
            plane.data@,
            plane.stride as int,
            8 * w,
            h as int,
            RowOp::SwapPairs,
            w as int,
        ),
{
    let rb = 8 * w;
    let mut out = header_pam(w, h, 4, 65535, lit_rgb_alpha().as_slice());
    append_rows(&mut out, plane.data.as_slice(), plane.stride, rb, h, RowOp::SwapPairs, w, false);
    out
}

fn encode_p7_ya8(plane: &PbmPlane, w: usize, h: usize) -> (r: Vec<u8>)
    requires
        2 * w <= usize::MAX,
        rows_fit(plane.data@.len() as int, plane.stride as int, 2 * w, h as int),
    ensures
        r@ == pam_header_bytes(w as nat, h as nat, 2, 255, name_grayscale() + suffix_alpha()) + rows_spec(
            plane.data@,
            plane.stride as int,
            2 * w,
            h as int,
            RowOp::Copy,
            w as int,
        ),
{
    let rb = 2 * w;
    let mut out = header_pam(w, h, 2, 255, lit_gray_alpha().as_slice());
    append_rows(&mut out, plane.data.as_slice(), plane.stride, rb, h, RowOp::Copy, w, false);
    out
}

fn encode_p7_ya16(plane: &PbmPlane, w: usize, h: usize) -> (r: Vec<u8>)
    requires
        4 * w <= usize::MAX,
        rows_fit(plane.data@.len() as int, plane.stride as int, 4 * w, h as int),
    ensures
        r@ == pam_header_bytes(w as nat, h as nat, 2, 65535, name_grayscale() + suffix_alpha()) + rows_spec(
            plane.data@,
            plane.stride as int,
            4 * w,
            h as int,
            RowOp::SwapPairs,
            w as int,
        ),
{
    let rb = 4 * w;
    let mut out = header_pam(w, h, 2, 65535, lit_gray_alpha().as_slice());
    append_rows(&mut out, plane.data.as_slice(), plane.stride, rb, h, RowOp::SwapPairs, w, false);
    out
}


// ---------------------------------------------------------------------------
// Format selection
// ---------------------------------------------------------------------------

/// How [`encode_pbm`] writes a pixel format: the header, the row operation
/// and the bytes per row; `None` for the float formats.
pub open spec fn binary_layout(f: PbmPixelFormat, w: nat, h: nat) -> Option<(Seq<u8>, RowOp, int)> {
    match f {
        PbmPixelFormat::MonoBlack => Some(
            (pnm_header_bytes(0x34, w, h, None), RowOp::ClearPad, bit_row_bytes(w as int)),
        ),
        PbmPixelFormat::Gray8 => Some((pnm_header_bytes(0x35, w, h, Some(255)), RowOp::Copy, w as int)),
        PbmPixelFormat::Gray16Le => Some(
            (pnm_header_bytes(0x35, w, h, Some(65535)), RowOp::SwapPairs, 2 * w as int),
        ),
        PbmPixelFormat::Rgb24 => Some((pnm_header_bytes(0x36, w, h, Some(255)), RowOp::Copy, 3 * w as int)),
        PbmPixelFormat::Rgb48Le => Some(
            (pnm_header_bytes(0x36, w, h, Some(65535)), RowOp::SwapPairs, 6 * w as int),
        ),
        PbmPixelFormat::Rgba => Some(
            (pam_header_bytes(w, h, 4, 255, name_rgb() + suffix_alpha()), RowOp::Copy, 4 * w as int),
        ),
        PbmPixelFormat::Bgra => Some(
            (pam_header_bytes(w, h, 4, 255, name_rgb() + suffix_alpha()), RowOp::BgraToRgba, 4 * w as int),
        ),
        PbmPixelFormat::Rgba64Le => Some(
            (pam_header_bytes(w, h, 4, 65535, name_rgb() + suffix_alpha()), RowOp::SwapPairs, 8 * w as int),
        ),
        PbmPixelFormat::Ya8 => Some(
            (pam_header_bytes(w, h, 2, 255, name_grayscale() + suffix_alpha()), RowOp::Copy, 2 * w as int),
        ),
        PbmPixelFormat::Ya16Le => Some(
            (
                pam_header_bytes(w, h, 2, 65535, name_grayscale() + suffix_alpha()),
                RowOp::SwapPairs,
                4 * w as int,
            ),
        ),
        _ => None,
    }
}

/// The unit scale line `1.0`.
pub open spec fn unit_scale() -> Seq<u8> {
    seq![0x31u8, 0x2eu8, 0x30u8]
}

/// [`encode_pbm_plane`] on a plane of `stride`-byte rows holding `data`:
/// an error when `data` does not hold every row, that is fewer than
/// `(h - 1) * stride + row bytes` bytes (the last row needs no padding, as
/// [`crate::image::PbmImage::validate`] accepts); otherwise the layout's
/// header and rows, or for a float format a little-endian Portable
/// FloatMap with unit scale.
pub open spec fn encode_bytes_spec(data: Seq<u8>, stride: int, f: PbmPixelFormat, w: u32, h: u32) -> core::result::Result<
    Seq<u8>,
    Fail,
> {
    if !rows_fit(data.len() as int, stride, min_row_bytes_spec(f, w as nat) as int, h as int) {
        Err(Fail::Invalid("PBM encoder: plane truncated"@))
    } else {
        match binary_layout(f, w as nat, h as nat) {
            Some(l) => Ok(l.0 + rows_spec(data, stride, l.2, h as int, l.1, w as int)),
            None => pfm_encode_spec(data, stride, f, w as int, h as int, true, unit_scale()),
        }
    }
}

/// [`encode_pbm_plane`] (see [`encode_bytes_spec`]).
pub open spec fn encode_spec(plane: PbmPlane, f: PbmPixelFormat, w: u32, h: u32) -> core::result::Result<
    Seq<u8>,
    Fail,
> {
    encode_bytes_spec(plane.data@, plane.stride as int, f, w, h)
}

pub open spec fn bytes_agree(r: Result<Vec<u8>>, s: core::result::Result<Seq<u8>, Fail>) -> bool {
    match (r, s) {
        (Ok(v), Ok(b)) => v@ == b,
        (Err(e), Err(f)) => crate::error::fail_of(e) == f,
        _ => false,
    }
}

/// Encode one plane of `width` × `height` pixels in `format` (see
/// [`encode_spec`]).
pub fn encode_pbm_plane(plane: &PbmPlane, format: PbmPixelFormat, width: u32, height: u32) -> (r:
    Result<Vec<u8>>)
    requires
        min_row_bytes_spec(format, width as nat) <= usize::MAX,
    ensures
        bytes_agree(r, encode_spec(*plane, format, width, height)),
{
    proof {
        crate::image::lemma_row_bytes(format, width as nat);
    }
    let w = width as usize;
    let h = height as usize;
    if !plane_holds_rows(plane, format, width, height) {
        return Err(PbmError::invalid("PBM encoder: plane truncated"));
    }
    match format {
        PbmPixelFormat::MonoBlack => Ok(encode_p4(plane, w, h)),
        PbmPixelFormat::Gray8 => Ok(encode_p5_gray8(plane, w, h)),
        PbmPixelFormat::Gray16Le => Ok(encode_p5_gray16(plane, w, h)),
        PbmPixelFormat::Rgb24 => Ok(encode_p6_rgb8(plane, w, h)),
        PbmPixelFormat::Rgb48Le => Ok(encode_p6_rgb16(plane, w, h)),
        PbmPixelFormat::Rgba => Ok(encode_p7_rgba8(plane, w, h)),
        PbmPixelFormat::Bgra => Ok(encode_p7_bgra8(plane, w, h)),
        PbmPixelFormat::Rgba64Le => Ok(encode_p7_rgba16(plane, w, h)),
        PbmPixelFormat::Ya8 => Ok(encode_p7_ya8(plane, w, h)),
        PbmPixelFormat::Ya16Le => Ok(encode_p7_ya16(plane, w, h)),
        PbmPixelFormat::GrayF32 | PbmPixelFormat::RgbF32 => {
            let one: [u8; 3] = [0x31, 0x2e, 0x30];
            assert(one@ =~= unit_scale());
            encode_pfm_plane_with_scale(plane, format, width, height, true, one.as_slice())
        },
    }
}

/// Encode an image in the closest binary Netpbm form (see
/// [`encode_spec`]); an image without planes is an error.
pub fn encode_pbm(image: &PbmImage) -> (r: Result<Vec<u8>>)
    requires
        min_row_bytes_spec(image.pixel_format, image.width as nat) <= usize::MAX,
    ensures
        image.planes@.len() == 0 ==> crate::error::invalid_with(r, "PBM encoder: empty plane"@),
        image.planes@.len() > 0 ==> bytes_agree(
            r,
            encode_spec(image.planes@[0], image.pixel_format, image.width, image.height),
        ),
{
    if image.planes.len() == 0 {
        return Err(PbmError::invalid("PBM encoder: empty plane"));
    }
    encode_pbm_plane(&image.planes[0], image.pixel_format, image.width, image.height)
}


// ---------------------------------------------------------------------------
// Plain (ASCII) writers
// ---------------------------------------------------------------------------

/// [`encode_pbm_ascii_plane`] on a plane of `st`-byte rows holding `d`: P1
/// from `MonoBlack`, P2 (maxval 255) from `Gray8`, P3 (maxval 255) from
/// `Rgb24`, each sample in decimal with rows on their own lines; any other
/// format is unsupported, and a plane that does not hold every row (see
/// [`encode_bytes_spec`]) is an error.
pub open spec fn ascii_bytes_spec(d: Seq<u8>, st: int, f: PbmPixelFormat, w: u32, h: u32) -> core::result::Result<
    Seq<u8>,
    Fail,
> {
    if (f == PbmPixelFormat::MonoBlack || f == PbmPixelFormat::Gray8 || f == PbmPixelFormat::Rgb24)
        && !rows_fit(d.len() as int, st, min_row_bytes_spec(f, w as nat) as int, h as int) {
        Err(Fail::Invalid("PBM ASCII encoder: plane truncated"@))
    } else {
    match f {
        PbmPixelFormat::MonoBlack => Ok(
            pnm_header_bytes(0x31, w as nat, h as nat, None) + bits_text(d, st, w as int, h as int),
        ),
        PbmPixelFormat::Gray8 => {
            let g = rows_spec(d, st, w as int, h as int, RowOp::Copy, w as int);
            Ok(
                pnm_header_bytes(0x32, w as nat, h as nat, Some(255)) + plain_body(
                    byte_values(g),
                    g.len() as int,
                    w as int,
                ),
            )
        },
        PbmPixelFormat::Rgb24 => {
            let g = rows_spec(d, st, 3 * w, h as int, RowOp::Copy, w as int);
            Ok(
                pnm_header_bytes(0x33, w as nat, h as nat, Some(255)) + plain_body(
                    byte_values(g),
                    g.len() as int,
                    3 * w,
                ),
            )
        },
        _ => Err(Fail::Unsupported("PBM ASCII encoder: pixel format "@ + format_name(f) + " not supported"@)),
    }
    }
}

/// [`encode_pbm_ascii_plane`] (see [`ascii_bytes_spec`]).
pub open spec fn ascii_spec(plane: PbmPlane, f: PbmPixelFormat, w: u32, h: u32) -> core::result::Result<
    Seq<u8>,
    Fail,
> {
    ascii_bytes_spec(plane.data@, plane.stride as int, f, w, h)
}

fn emit_ascii_pbm_header_and_body(plane: &PbmPlane, w: usize, h: usize) -> (r: Vec<u8>)
    requires
        rows_fit(plane.data@.len() as int, plane.stride as int, bit_row_bytes(w as int), h as int),
    ensures
        r@ == pnm_header_bytes(0x31, w as nat, h as nat, None) + bits_text(
            plane.data@,
            plane.stride as int,
            w as int,
            h as int,
        ),
{
    let mut out = header_pnm(Magic::P1AsciiBitmap, w, h, None);
    let body = encode_ascii_body_bits(plane.data.as_slice(), plane.stride, w, h);
    out.extend_from_slice(body.as_slice());
    out
}

fn emit_ascii_pgm_8(plane: &PbmPlane, w: usize, h: usize) -> (r: Vec<u8>)
    requires
        rows_fit(plane.data@.len() as int, plane.stride as int, w as int, h as int),
    ensures
        ({
            let g = rows_spec(plane.data@, plane.stride as int, w as int, h as int, RowOp::Copy, w as int);
            r@ == pnm_header_bytes(0x32, w as nat, h as nat, Some(255)) + plain_body(
                byte_values(g),
                g.len() as int,
                w as int,
            )
        }),
{
    let mut samples: Vec<u8> = Vec::new();
    append_rows(&mut samples, plane.data.as_slice(), plane.stride, w, h, RowOp::Copy, w, false);
    let mut out = header_pnm(Magic::P2AsciiGraymap, w, h, Some(255));
    let body = encode_ascii_body_u8(samples.as_slice(), w);
    out.extend_from_slice(body.as_slice());
    proof {
        let g = rows_spec(plane.data@, plane.stride as int, w as int, h as int, RowOp::Copy, w as int);
        assert(samples@ =~= g);
        assert((|i: int| samples@[i] as nat) =~= byte_values(g));
    }
    out
}

fn emit_ascii_ppm_8(plane: &PbmPlane, w: usize, h: usize) -> (r: Vec<u8>)
    requires
        3 * w <= usize::MAX,
        rows_fit(plane.data@.len() as int, plane.stride as int, 3 * w, h as int),
    ensures
        ({
            let g = rows_spec(plane.data@, plane.stride as int, 3 * w, h as int, RowOp::Copy, w as int);
            r@ == pnm_header_bytes(0x33, w as nat, h as nat, Some(255)) + plain_body(
                byte_values(g),
                g.len() as int,
                3 * w,
            )
        }),
{
    let mut samples: Vec<u8> = Vec::new();
    append_rows(&mut samples, plane.data.as_slice(), plane.stride, 3 * w, h, RowOp::Copy, w, false);
    let mut out = header_pnm(Magic::P3AsciiPixmap, w, h, Some(255));
    let body = encode_ascii_body_u8(samples.as_slice(), 3 * w);
    out.extend_from_slice(body.as_slice());
    proof {
        let g = rows_spec(plane.data@, plane.stride as int, 3 * w, h as int, RowOp::Copy, w as int);
        assert(samples@ =~= g);
        assert((|i: int| samples@[i] as nat) =~= byte_values(g));
    }
    out
}

/// Encode one plane in the plain forms P1 / P2 / P3 (see [`ascii_spec`]).
pub fn encode_pbm_ascii_plane(plane: &PbmPlane, format: PbmPixelFormat, width: u32, height: u32) -> (r:
    Result<Vec<u8>>)
    requires
        min_row_bytes_spec(format, width as nat) <= usize::MAX,
    ensures
        bytes_agree(r, ascii_spec(*plane, format, width, height)),
{
    proof {
        crate::image::lemma_row_bytes(format, width as nat);
    }
    let w = width as usize;
    let h = height as usize;
    let plain = match format {
        PbmPixelFormat::MonoBlack | PbmPixelFormat::Gray8 | PbmPixelFormat::Rgb24 => true,
        _ => false,
    };
    if plain && !plane_holds_rows(plane, format, width, height) {
        return Err(PbmError::invalid("PBM ASCII encoder: plane truncated"));
    }
    match format {
        PbmPixelFormat::MonoBlack => Ok(emit_ascii_pbm_header_and_body(plane, w, h)),
        PbmPixelFormat::Gray8 => Ok(emit_ascii_pgm_8(plane, w, h)),
        PbmPixelFormat::Rgb24 => Ok(emit_ascii_ppm_8(plane, w, h)),
        _ => Err(unsupported_format("PBM ASCII encoder: pixel format ", format, " not supported")),
    }
}

/// Encode an image in the plain forms P1 / P2 / P3 (see [`ascii_spec`]);
/// an image without planes is an error.
pub fn encode_pbm_ascii(image: &PbmImage) -> (r: Result<Vec<u8>>)
    requires
        min_row_bytes_spec(image.pixel_format, image.width as nat) <= usize::MAX,
    ensures
        image.planes@.len() == 0 ==> crate::error::invalid_with(r, "PBM ASCII encoder: empty plane"@),
        image.planes@.len() > 0 ==> bytes_agree(
            r,
            ascii_spec(image.planes@[0], image.pixel_format, image.width, image.height),
        ),
{
    if image.planes.len() == 0 {
        return Err(PbmError::invalid("PBM ASCII encoder: empty plane"));
    }
    encode_pbm_ascii_plane(&image.planes[0], image.pixel_format, image.width, image.height)
}

// ---------------------------------------------------------------------------
// Explicit output format
// ---------------------------------------------------------------------------

/// Output-format selector for [`encode_pbm_with_format`].
#[derive(Debug, Clone, Copy, PartialEq, Eq, Structural)]
pub enum PbmEncodeFormat {
    /// The closest binary magic, as [`encode_pbm`].
    AutoBinary,
    /// The closest plain magic, as [`encode_pbm_ascii`].
    AutoAscii,
    /// `P1`, for `MonoBlack`.
    Pnm1,
    /// `P2` (maxval 255), for `Gray8`.
    Pnm2,
    /// `P3` (maxval 255), for `Rgb24`.
    Pnm3,
    /// `P4`, for `MonoBlack`.
    Pnm4,
    /// `P5`, for `Gray8` (maxval 255) and `Gray16Le` (maxval 65535).
    Pnm5,
    /// `P6`, for `Rgb24` (maxval 255) and `Rgb48Le` (maxval 65535).
    Pnm6,
    /// `P7`, for every integer format but `MonoBlack`.
    Pam7,
    /// Portable FloatMap (little-endian, unit scale), for the float formats.
    Pfm,
}

/// How `P7` writes a pixel format: header, row operation and row bytes.
pub open spec fn pam7_layout(f: PbmPixelFormat, w: nat, h: nat) -> Option<(Seq<u8>, RowOp, int)> {
    match f {
        PbmPixelFormat::Gray8 => Some((pam_header_bytes(w, h, 1, 255, name_grayscale()), RowOp::Copy, w as int)),
        PbmPixelFormat::Gray16Le => Some(
            (pam_header_bytes(w, h, 1, 65535, name_grayscale()), RowOp::SwapPairs, 2 * w as int),
        ),
        PbmPixelFormat::Rgb24 => Some((pam_header_bytes(w, h, 3, 255, name_rgb()), RowOp::Copy, 3 * w as int)),
        PbmPixelFormat::Rgb48Le => Some(
            (pam_header_bytes(w, h, 3, 65535, name_rgb()), RowOp::SwapPairs, 6 * w as int),
        ),
        PbmPixelFormat::Rgba | PbmPixelFormat::Bgra | PbmPixelFormat::Rgba64Le
        | PbmPixelFormat::Ya8 | PbmPixelFormat::Ya16Le => binary_layout(f, w, h),
        _ => None,
    }
}

/// [`encode_pbm_with_format`]: an error when the plane does not hold
/// every row (see [`encode_bytes_spec`]); otherwise the selected writer, or unsupported
/// when it cannot represent the pixel format.
pub open spec fn with_format_spec(
    plane: PbmPlane,
    f: PbmPixelFormat,
    w: u32,
    h: u32,
    sel: PbmEncodeFormat,
) -> core::result::Result<Seq<u8>, Fail> {
    if !rows_fit(plane.data@.len() as int, plane.stride as int, min_row_bytes_spec(f, w as nat) as int, h as int) {
        Err(Fail::Invalid("PBM encoder: plane truncated"@))
    } else {
        match sel {
            PbmEncodeFormat::AutoBinary => encode_spec(plane, f, w, h),
            PbmEncodeFormat::AutoAscii => ascii_spec(plane, f, w, h),
            PbmEncodeFormat::Pnm1 => if f == PbmPixelFormat::MonoBlack {
                ascii_spec(plane, f, w, h)
            } else {
                Err(Fail::Unsupported("PBM encoder: pixel format "@ + format_name(f) + " cannot be emitted as P1"@))
            },
            PbmEncodeFormat::Pnm2 => if f == PbmPixelFormat::Gray8 {
                ascii_spec(plane, f, w, h)
            } else {
                Err(Fail::Unsupported("PBM encoder: pixel format "@ + format_name(f) + " cannot be emitted as P2"@))
            },
            PbmEncodeFormat::Pnm3 => if f == PbmPixelFormat::Rgb24 {
                ascii_spec(plane, f, w, h)
            } else {
                Err(Fail::Unsupported("PBM encoder: pixel format "@ + format_name(f) + " cannot be emitted as P3"@))
            },
            PbmEncodeFormat::Pnm4 => if f == PbmPixelFormat::MonoBlack {
                encode_spec(plane, f, w, h)
            } else {
                Err(Fail::Unsupported("PBM encoder: pixel format "@ + format_name(f) + " cannot be emitted as P4"@))
            },
            PbmEncodeFormat::Pnm5 => if f == PbmPixelFormat::Gray8 || f == PbmPixelFormat::Gray16Le {
                encode_spec(plane, f, w, h)
            } else {
                Err(Fail::Unsupported("PBM encoder: pixel format "@ + format_name(f) + " cannot be emitted as P5"@))
            },
            PbmEncodeFormat::Pnm6 => if f == PbmPixelFormat::Rgb24 || f == PbmPixelFormat::Rgb48Le {
                encode_spec(plane, f, w, h)
            } else {
                Err(Fail::Unsupported("PBM encoder: pixel format "@ + format_name(f) + " cannot be emitted as P6"@))
            },
            PbmEncodeFormat::Pam7 => match pam7_layout(f, w as nat, h as nat) {
                Some(l) => Ok(
                    l.0 + rows_spec(plane.data@, plane.stride as int, l.2, h as int, l.1, w as int),
                ),
                None => Err(Fail::Unsupported("PBM encoder: pixel format "@ + format_name(f) + " cannot be emitted as P7"@)),
            },
            PbmEncodeFormat::Pfm => if f == PbmPixelFormat::GrayF32 || f == PbmPixelFormat::RgbF32 {
                encode_spec(plane, f, w, h)
            } else {
                Err(Fail::Unsupported("PBM encoder: pixel format "@ + format_name(f) + " cannot be emitted as a Portable FloatMap"@))
            },
        }
    }
}

/// Encode an image with an explicit choice of output magic (see
/// [`with_format_spec`]); an image without planes is an error.
pub fn encode_pbm_with_format(image: &PbmImage, format: PbmEncodeFormat) -> (r: Result<Vec<u8>>)
    requires
        min_row_bytes_spec(image.pixel_format, image.width as nat) <= usize::MAX,
    ensures
        image.planes@.len() == 0 ==> crate::error::invalid_with(r, "PBM encoder: empty plane"@),
        image.planes@.len() > 0 ==> bytes_agree(
            r,
            with_format_spec(image.planes@[0], image.pixel_format, image.width, image.height, format),
        ),
{
    if image.planes.len() == 0 {
        return Err(PbmError::invalid("PBM encoder: empty plane"));
    }
    let plane = &image.planes[0];
    let pf = image.pixel_format;
    let w = image.width as usize;
    let h = image.height as usize;
    proof {
        crate::image::lemma_row_bytes(pf, image.width as nat);
    }
    if !plane_holds_rows(plane, pf, image.width, image.height) {
        return Err(PbmError::invalid("PBM encoder: plane truncated"));
    }
    match format {
        PbmEncodeFormat::AutoBinary => encode_pbm(image),
        PbmEncodeFormat::AutoAscii => encode_pbm_ascii(image),
        PbmEncodeFormat::Pnm1 => match pf {
            PbmPixelFormat::MonoBlack => Ok(emit_ascii_pbm_header_and_body(plane, w, h)),
            _ => Err(unsupported_format("PBM encoder: pixel format ", pf, " cannot be emitted as P1")),
        },
        PbmEncodeFormat::Pnm2 => match pf {
            PbmPixelFormat::Gray8 => Ok(emit_ascii_pgm_8(plane, w, h)),
            _ => Err(unsupported_format("PBM encoder: pixel format ", pf, " cannot be emitted as P2")),
        },
        PbmEncodeFormat::Pnm3 => match pf {
            PbmPixelFormat::Rgb24 => Ok(emit_ascii_ppm_8(plane, w, h)),
            _ => Err(unsupported_format("PBM encoder: pixel format ", pf, " cannot be emitted as P3")),
        },
        PbmEncodeFormat::Pnm4 => match pf {
            PbmPixelFormat::MonoBlack => Ok(encode_p4(plane, w, h)),
            _ => Err(unsupported_format("PBM encoder: pixel format ", pf, " cannot be emitted as P4")),
        },
        PbmEncodeFormat::Pnm5 => match pf {
            PbmPixelFormat::Gray8 => Ok(encode_p5_gray8(plane, w, h)),
            PbmPixelFormat::Gray16Le => Ok(encode_p5_gray16(plane, w, h)),
            _ => Err(unsupported_format("PBM encoder: pixel format ", pf, " cannot be emitted as P5")),
        },
        PbmEncodeFormat::Pnm6 => match pf {
            PbmPixelFormat::Rgb24 => Ok(encode_p6_rgb8(plane, w, h)),
            PbmPixelFormat::Rgb48Le => Ok(encode_p6_rgb16(plane, w, h)),
            _ => Err(unsupported_format("PBM encoder: pixel format ", pf, " cannot be emitted as P6")),
        },
        PbmEncodeFormat::Pam7 => match pf {
            PbmPixelFormat::Gray8 => Ok(encode_p7_gray8(plane, w, h)),
            PbmPixelFormat::Gray16Le => Ok(encode_p7_gray16(plane, w, h)),
            PbmPixelFormat::Rgb24 => Ok(encode_p7_rgb8(plane, w, h)),
            PbmPixelFormat::Rgb48Le => Ok(encode_p7_rgb16(plane, w, h)),
            PbmPixelFormat::Rgba => Ok(encode_p7_rgba8(plane, w, h)),
            PbmPixelFormat::Bgra => Ok(encode_p7_bgra8(plane, w, h)),
            PbmPixelFormat::Rgba64Le => Ok(encode_p7_rgba16(plane, w, h)),
            PbmPixelFormat::Ya8 => Ok(encode_p7_ya8(plane, w, h)),
            PbmPixelFormat::Ya16Le => Ok(encode_p7_ya16(plane, w, h)),
            _ => Err(unsupported_format("PBM encoder: pixel format ", pf, " cannot be emitted as P7")),
        },
        PbmEncodeFormat::Pfm => match pf {
            PbmPixelFormat::GrayF32 | PbmPixelFormat::RgbF32 => {
                let one: [u8; 3] = [0x31, 0x2e, 0x30];
                assert(one@ =~= unit_scale());
                encode_pfm_plane_with_scale(plane, pf, image.width, image.height, true, one.as_slice())
            },
            _ => Err(unsupported_format("PBM encoder: pixel format ", pf, " cannot be emitted as a Portable FloatMap")),
        },
    }
}

/// Row size of `width` pixels of `f`, widened so it cannot overflow.
fn row_bytes_wide(f: PbmPixelFormat, width: u32) -> (r: u128)
    ensures
        r == min_row_bytes_spec(f, width as nat),
{
    proof {
        crate::image::lemma_row_bytes(f, width as nat);
    }
    let w = width as u128;
    match f.bytes_per_pixel() {
        Some(bpp) => w * bpp as u128,
        None => (w + 7) / 8,
    }
}

/// Whether every row lies inside `len` bytes (see [`rows_fit`]), computed
/// without overflow.
pub(crate) fn rows_fit_wide(len: usize, stride: usize, rb: u128, height: u32) -> (r: bool)
    requires
        rb <= u64::MAX,
    ensures
        r == rows_fit(len as int, stride as int, rb as int, height as int),
{
    if height == 0 {
        return true;
    }
    let h1 = (height - 1) as u128;
    assert(h1 * stride <= u32::MAX * u64::MAX) by (nonlinear_arith)
        requires
            h1 <= u32::MAX,
            stride <= u64::MAX,
    ;
    h1 * (stride as u128) + rb <= len as u128
}

/// Whether the plane holds every row of a `width` × `height` image in
/// `format` (see [`rows_fit`]), computed without overflow.
fn plane_holds_rows(plane: &PbmPlane, format: PbmPixelFormat, width: u32, height: u32) -> (r: bool)
    ensures
        r == rows_fit(
            plane.data@.len() as int,
            plane.stride as int,
            min_row_bytes_spec(format, width as nat) as int,
            height as int,
        ),
{
    let rb = row_bytes_wide(format, width);
    proof {
        crate::image::lemma_row_bytes(format, width as nat);
    }
    rows_fit_wide(plane.data.len(), plane.stride, rb, height)
}

// ---------------------------------------------------------------------------
// Laws of the writers
// ---------------------------------------------------------------------------

/// Two planes of one stride agree on the first `rb` bytes of each of their
/// `h` rows: they differ at most in row padding (and past the last row).
pub open spec fn same_rows(a: Seq<u8>, b: Seq<u8>, stride: int, rb: int, h: int) -> bool {
    forall|y: int, k: int|
        0 <= y < h && 0 <= k < rb ==> #[trigger] a[y * stride + k] == #[trigger] b[y * stride + k]
}

proof fn lemma_same_row_at(a: Seq<u8>, b: Seq<u8>, stride: int, rb: int, h: int, y: int)
    requires
        same_rows(a, b, stride, rb, h),
        rows_fit(a.len() as int, stride, rb, h),
        rows_fit(b.len() as int, stride, rb, h),
        0 <= y < h,
        stride >= 0,
        rb >= 0,
    ensures
        row_at(a, stride, rb, y) == row_at(b, stride, rb, y),
{
    assert(y * stride + rb <= a.len() && y * stride + rb <= b.len() && 0 <= y * stride)
        by (nonlinear_arith)
        requires
            0 <= y < h,
            stride >= 0,
            (h - 1) * stride + rb <= a.len(),
            (h - 1) * stride + rb <= b.len(),
    ;
    assert forall|k: int| 0 <= k < rb implies #[trigger] row_at(a, stride, rb, y)[k] == row_at(
        b,
        stride,
        rb,
        y,
    )[k] by {
        assert(a[y * stride + k] == b[y * stride + k]);
    }
    assert(row_at(a, stride, rb, y) =~= row_at(b, stride, rb, y));
}

proof fn lemma_same_rows_spec(a: Seq<u8>, b: Seq<u8>, stride: int, rb: int, h: int, n: int, op: RowOp, w: int)
    requires
        same_rows(a, b, stride, rb, h),
        rows_fit(a.len() as int, stride, rb, h),
        rows_fit(b.len() as int, stride, rb, h),
        n <= h,
        stride >= 0,
        rb >= 0,
    ensures
        rows_spec(a, stride, rb, n, op, w) == rows_spec(b, stride, rb, n, op, w),
    decreases n,
{
    if n > 0 {
        lemma_same_rows_spec(a, b, stride, rb, h, n - 1, op, w);
        lemma_same_row_at(a, b, stride, rb, h, n - 1);
    }
}

proof fn lemma_same_rows_rev_spec(a: Seq<u8>, b: Seq<u8>, stride: int, rb: int, h: int, n: int, op: RowOp, w: int)
    requires
        same_rows(a, b, stride, rb, h),
        rows_fit(a.len() as int, stride, rb, h),
        rows_fit(b.len() as int, stride, rb, h),
        n <= h,
        stride >= 0,
        rb >= 0,
    ensures
        rows_rev_spec(a, stride, rb, h, n, op, w) == rows_rev_spec(b, stride, rb, h, n, op, w),
    decreases n,
{
    if n > 0 {
        lemma_same_rows_rev_spec(a, b, stride, rb, h, n - 1, op, w);
        lemma_same_row_at(a, b, stride, rb, h, h - n);
    }
}

/// The binary writer never reads row padding: two planes of one stride
/// that both hold every row and agree on every row's pixel bytes are
/// written as the same bytes.
pub proof fn lemma_padding_is_never_written(a: PbmPlane, b: PbmPlane, f: PbmPixelFormat, w: u32, h: u32)
    requires
        a.stride == b.stride,
        rows_fit(
            a.data@.len() as int,
            a.stride as int,
            min_row_bytes_spec(f, w as nat) as int,
            h as int,
        ),
        rows_fit(
            b.data@.len() as int,
            b.stride as int,
            min_row_bytes_spec(f, w as nat) as int,
            h as int,
        ),
        same_rows(a.data@, b.data@, a.stride as int, min_row_bytes_spec(f, w as nat) as int, h as int),
    ensures
        encode_spec(a, f, w, h) == encode_spec(b, f, w, h),
{
    let st = a.stride as int;
    let rb = min_row_bytes_spec(f, w as nat) as int;
    crate::image::lemma_row_bytes(f, w as nat);
    match binary_layout(f, w as nat, h as nat) {
        Some(l) => {
            assert(l.2 == rb);
            lemma_same_rows_spec(a.data@, b.data@, st, rb, h as int, h as int, l.1, w as int);
        },
        None => {
            if f == PbmPixelFormat::GrayF32 || f == PbmPixelFormat::RgbF32 {
                lemma_same_rows_rev_spec(a.data@, b.data@, st, rb, h as int, h as int, RowOp::Copy, w as int);
            }
        },
    }
}

/// `AutoBinary` is [`encode_pbm`]: the explicit-format writer with that
/// selector writes what the binary writer writes, errors included.
pub proof fn lemma_auto_binary_is_encode_pbm(plane: PbmPlane, f: PbmPixelFormat, w: u32, h: u32)
    ensures
        with_format_spec(plane, f, w, h, PbmEncodeFormat::AutoBinary) == encode_spec(plane, f, w, h),
{
}

/// `AutoAscii` is [`encode_pbm_ascii`] on a plane that holds every row
/// (on a shorter one the explicit-format writer reports the truncation
/// before it looks at the format).
pub proof fn lemma_auto_ascii_is_encode_pbm_ascii(plane: PbmPlane, f: PbmPixelFormat, w: u32, h: u32)
    requires
        rows_fit(
            plane.data@.len() as int,
            plane.stride as int,
            min_row_bytes_spec(f, w as nat) as int,
            h as int,
        ),
    ensures
        with_format_spec(plane, f, w, h, PbmEncodeFormat::AutoAscii) == ascii_spec(plane, f, w, h),
{
}

/// The pixel formats an explicit selector can write.
pub open spec fn selector_takes(sel: PbmEncodeFormat, f: PbmPixelFormat) -> bool {
    match sel {
        PbmEncodeFormat::AutoBinary => true,
        PbmEncodeFormat::AutoAscii => f == PbmPixelFormat::MonoBlack || f == PbmPixelFormat::Gray8
            || f == PbmPixelFormat::Rgb24,
        PbmEncodeFormat::Pnm1 | PbmEncodeFormat::Pnm4 => f == PbmPixelFormat::MonoBlack,
        PbmEncodeFormat::Pnm2 => f == PbmPixelFormat::Gray8,
        PbmEncodeFormat::Pnm3 => f == PbmPixelFormat::Rgb24,
        PbmEncodeFormat::Pnm5 => f == PbmPixelFormat::Gray8 || f == PbmPixelFormat::Gray16Le,
        PbmEncodeFormat::Pnm6 => f == PbmPixelFormat::Rgb24 || f == PbmPixelFormat::Rgb48Le,
        PbmEncodeFormat::Pam7 => f != PbmPixelFormat::MonoBlack && f != PbmPixelFormat::GrayF32
            && f != PbmPixelFormat::RgbF32,
        PbmEncodeFormat::Pfm => f == PbmPixelFormat::GrayF32 || f == PbmPixelFormat::RgbF32,
    }
}

/// On a plane that holds every row, an explicit selector fails as
/// unsupported exactly when it cannot write the pixel format, and
/// otherwise succeeds.
pub proof fn lemma_selector_unsupported_exactly(
    plane: PbmPlane,
    f: PbmPixelFormat,
    w: u32,
    h: u32,
    sel: PbmEncodeFormat,
)
    requires
        rows_fit(
            plane.data@.len() as int,
            plane.stride as int,
            min_row_bytes_spec(f, w as nat) as int,
            h as int,
        ),
        f == PbmPixelFormat::GrayF32 || f == PbmPixelFormat::RgbF32 ==> plane.stride
            >= min_row_bytes_spec(f, w as nat) && min_row_bytes_spec(f, w as nat) <= usize::MAX,
    ensures
        selector_takes(sel, f) ==> with_format_spec(plane, f, w, h, sel) is Ok,
        !selector_takes(sel, f) ==> with_format_spec(plane, f, w, h, sel) matches Err(
            Fail::Unsupported(_),
        ),
{
    crate::image::lemma_row_bytes(f, w as nat);
}

} // verus!
