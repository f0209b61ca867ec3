//! What the binary writer puts down for any plane it accepts reads back:
//! as the plane's rows packed tightly (padding bits of bit rows cleared,
//! BGRA as RGBA), whatever bytes follow, the reader taking exactly the
//! bytes written.

use vstd::prelude::*;
use crate::ascii::{bits_row_text, bits_text};
use crate::binary::{bit_of, p4_row, pad_mask, bits_in_byte};
use crate::decoder::{decode_spec, DecodedModel};
use crate::encoder::{apply_op, ascii_bytes_spec, ascii_spec, binary_layout, encode_bytes_spec, encode_spec, row_at, rows_fit, rows_rev_spec, rows_spec, RowOp};
use crate::error::Fail;
use crate::image::{lemma_row_bytes, min_row_bytes_spec, PbmPixelFormat, PbmPlane};
use crate::pfm::pfm_encode_spec;
use crate::recode::{canonical, lemma_encode_then_decode_prefix};
use crate::plain_recode::lemma_plain_round_trip_prefix;
use crate::streams::plain_format;

verus! {

/// Every row operation keeps a row's length.
proof fn lemma_op_len(op: RowOp, w: int, r: Seq<u8>)
    ensures
        apply_op(op, w, r).len() == r.len(),
{
}

/// Rows `0 .. n` of a plane, each transformed by `op` and laid end to end:
/// `n * rb` bytes whose row `y` is the transformed plane row `y`.
pub proof fn lemma_rows_spec_row(x: Seq<u8>, st: int, rb: int, n: int, op: RowOp, w: int, y: int)
    requires
        st >= 0,
        rb >= 0,
        n >= 0,
        rows_fit(x.len() as int, st, rb, n),
        0 <= y < n,
    ensures
        rows_spec(x, st, rb, n, op, w).len() == n * rb,
        row_at(rows_spec(x, st, rb, n, op, w), rb, rb, y) == apply_op(op, w, row_at(x, st, rb, y)),
    decreases n,
{
    let prev = rows_spec(x, st, rb, n - 1, op, w);
    let last = apply_op(op, w, row_at(x, st, rb, n - 1));
    assert((n - 1) * st + rb <= x.len());
    assert(0 <= (n - 1) * st) by (nonlinear_arith)
        requires
            n >= 1,
            st >= 0,
    ;
    assert(row_at(x, st, rb, n - 1).len() == rb);
    lemma_op_len(op, w, row_at(x, st, rb, n - 1));
    if n - 1 > 0 {
        assert((n - 2) * st + rb <= (n - 1) * st + rb) by (nonlinear_arith)
            requires
                st >= 0,
        ;
        if y < n - 1 {
            lemma_rows_spec_row(x, st, rb, n - 1, op, w, y);
        } else {
            lemma_rows_spec_row(x, st, rb, n - 1, op, w, 0);
        }
    } else {
        assert(prev.len() == 0);
    }
    assert(prev.len() == (n - 1) * rb);
    assert((n - 1) * rb + rb == n * rb) by (nonlinear_arith);
    let all = prev + last;
    assert(y * rb + rb <= n * rb && 0 <= y * rb) by (nonlinear_arith)
        requires
            0 <= y < n,
            rb >= 0,
    ;
    if y < n - 1 {
        assert(y * rb + rb <= (n - 1) * rb) by (nonlinear_arith)
            requires
                y < n - 1,
                rb >= 0,
        ;
        assert(row_at(all, rb, rb, y) =~= row_at(prev, rb, rb, y));
    } else {
        assert(row_at(all, rb, rb, y) =~= last);
    }
}

/// Two ways of writing the rows that agree row by row write the same
/// bytes, top to bottom.
proof fn lemma_rows_same(
    a: Seq<u8>,
    sa: int,
    opa: RowOp,
    b: Seq<u8>,
    sb: int,
    opb: RowOp,
    rb: int,
    n: int,
    w: int,
)
    requires
        forall|y: int|
            0 <= y < n ==> apply_op(opa, w, #[trigger] row_at(a, sa, rb, y)) == apply_op(
                opb,
                w,
                row_at(b, sb, rb, y),
            ),
    ensures
        rows_spec(a, sa, rb, n, opa, w) == rows_spec(b, sb, rb, n, opb, w),
    decreases n,
{
    if n > 0 {
        lemma_rows_same(a, sa, opa, b, sb, opb, rb, n - 1, w);
        assert(apply_op(opa, w, row_at(a, sa, rb, n - 1)) == apply_op(opb, w, row_at(b, sb, rb, n - 1)));
    }
}

/// ... and the same bytes bottom to top.
proof fn lemma_rows_rev_same(
    a: Seq<u8>,
    sa: int,
    opa: RowOp,
    b: Seq<u8>,
    sb: int,
    opb: RowOp,
    rb: int,
    h: int,
    n: int,
    w: int,
)
    requires
        n <= h,
        forall|y: int|
            0 <= y < h ==> apply_op(opa, w, #[trigger] row_at(a, sa, rb, y)) == apply_op(
                opb,
                w,
                row_at(b, sb, rb, y),
            ),
    ensures
        rows_rev_spec(a, sa, rb, h, n, opa, w) == rows_rev_spec(b, sb, rb, h, n, opb, w),
    decreases n,
{
    if n > 0 {
        lemma_rows_rev_same(a, sa, opa, b, sb, opb, rb, h, n - 1, w);
        assert(apply_op(opa, w, row_at(a, sa, rb, h - n)) == apply_op(opb, w, row_at(b, sb, rb, h - n)));
    }
}

/// Clearing a bit row's padding twice is clearing it once.
proof fn lemma_clear_pad_twice(r: Seq<u8>, w: int)
    ensures
        p4_row(p4_row(r, w), w) == p4_row(r, w),
{
    assert forall|i: int| 0 <= i < r.len() implies #[trigger] p4_row(p4_row(r, w), w)[i] == p4_row(
        r,
        w,
    )[i] by {
        let b = r[i];
        let m = pad_mask(bits_in_byte(w, i));
        assert((b & m) & m == b & m) by (bit_vector);
    }
    assert(p4_row(p4_row(r, w), w) =~= p4_row(r, w));
}

/// How the plane's rows are packed for the decoder's model of what it
/// reads back.
pub open spec fn pack_op(f: PbmPixelFormat) -> RowOp {
    if f == PbmPixelFormat::MonoBlack {
        RowOp::ClearPad
    } else if f == PbmPixelFormat::Bgra {
        RowOp::BgraToRgba
    } else {
        RowOp::Copy
    }
}

/// The image the reader gets back from what the binary writer puts down
/// for a plane: its rows packed tightly (bit-row padding cleared, BGRA
/// reordered to RGBA, which is the format it is read as).
pub open spec fn packed_model(plane: PbmPlane, f: PbmPixelFormat, w: u32, h: u32) -> DecodedModel {
    let rb = min_row_bytes_spec(f, w as nat) as int;
    DecodedModel {
        width: w,
        height: h,
        format: if f == PbmPixelFormat::Bgra {
            PbmPixelFormat::Rgba
        } else {
            f
        },
        stride: rb as nat,
        data: rows_spec(plane.data@, plane.stride as int, rb, h as int, pack_op(f), w as int),
        consumed: 0,
    }
}

/// The packed image is written as the same bytes as the plane.
#[verifier::spinoff_prover]
#[verifier::rlimit(60)]
proof fn lemma_packed_writes_same(plane: PbmPlane, f: PbmPixelFormat, w: u32, h: u32)
    requires
        w >= 1,
        h >= 1,
        encode_spec(plane, f, w, h) is Ok,
    ensures
        ({
            let p = packed_model(plane, f, w, h);
            &&& p.data.len() == p.stride * h
            &&& encode_bytes_spec(p.data, p.stride as int, p.format, w, h) == encode_spec(
                plane,
                f,
                w,
                h,
            )
        }),
{
    let x = plane.data@;
    let st = plane.stride as int;
    let rb = min_row_bytes_spec(f, w as nat) as int;
    let hh = h as int;
    let ww = w as int;
    let p = packed_model(plane, f, w, h);
    let pf = p.format;
    lemma_row_bytes(f, w as nat);
    lemma_row_bytes(pf, w as nat);
    assert(min_row_bytes_spec(pf, w as nat) == rb);
    assert(rows_fit(x.len() as int, st, rb, hh));
    assert forall|y: int| 0 <= y < hh implies #[trigger] row_at(p.data, rb, rb, y) == apply_op(
        pack_op(f),
        ww,
        row_at(x, st, rb, y),
    ) by {
        lemma_rows_spec_row(x, st, rb, hh, pack_op(f), ww, y);
    }
    lemma_rows_spec_row(x, st, rb, hh, pack_op(f), ww, 0);
    assert(p.data.len() == hh * rb);
    assert((hh - 1) * rb + rb == hh * rb && hh * rb == rb * hh) by (nonlinear_arith);
    assert(rows_fit(p.data.len() as int, rb, rb, hh));
    assert(p.data.len() == p.stride * h);
    match binary_layout(f, w as nat, h as nat) {
        Some(l) => {
            let lp = binary_layout(pf, w as nat, h as nat)->0;
            assert(l.2 == rb);
            assert(lp.2 == rb);
            assert forall|y: int| 0 <= y < hh implies apply_op(lp.1, ww, #[trigger] row_at(
                p.data,
                rb,
                rb,
                y,
            )) == apply_op(l.1, ww, row_at(x, st, rb, y)) by {
                if f == PbmPixelFormat::MonoBlack {
                    lemma_clear_pad_twice(row_at(x, st, rb, y), ww);
                }
            }
            lemma_rows_same(p.data, rb, lp.1, x, st, l.1, rb, hh, ww);
            assert(lp.0 == l.0);
            assert(encode_bytes_spec(p.data, rb, pf, w, h) == Ok::<Seq<u8>, Fail>(
                lp.0 + rows_spec(p.data, rb, rb, hh, lp.1, ww),
            ));
        },
        None => {
            assert(f == PbmPixelFormat::GrayF32 || f == PbmPixelFormat::RgbF32);
            assert forall|y: int| 0 <= y < hh implies apply_op(RowOp::Copy, ww, #[trigger] row_at(
                p.data,
                rb,
                rb,
                y,
            )) == apply_op(RowOp::Copy, ww, row_at(x, st, rb, y)) by {}
            lemma_rows_rev_same(p.data, rb, RowOp::Copy, x, st, RowOp::Copy, rb, hh, hh, ww);
            assert(pfm_encode_spec(x, st, f, ww, hh, true, crate::encoder::unit_scale()) is Ok);
            assert(pf == f);
            assert(pfm_encode_spec(p.data, rb, f, ww, hh, true, crate::encoder::unit_scale())
                == pfm_encode_spec(x, st, f, ww, hh, true, crate::encoder::unit_scale()));
        },
    }
}

/// Whatever plane the binary writer ([`crate::encoder::encode_pbm`])
/// accepts for a non-empty image, the bytes it writes, followed by any
/// bytes, decode to the plane's rows packed tightly (see
/// [`packed_model`]), the reader taking exactly the bytes written: bytes
/// after the image are ignored.
pub proof fn lemma_written_image_reads_back(plane: PbmPlane, f: PbmPixelFormat, w: u32, h: u32, rest: Seq<u8>)
    requires
        w >= 1,
        h >= 1,
        encode_spec(plane, f, w, h) matches Ok(e) && e.len() <= usize::MAX,
    ensures
        encode_spec(plane, f, w, h) matches Ok(e) && decode_spec(e + rest) == Ok::<
            DecodedModel,
            Fail,
        >(DecodedModel { consumed: e.len(), ..packed_model(plane, f, w, h) }) && decode_spec(e)
            == decode_spec(e + rest),
{
    let p = packed_model(plane, f, w, h);
    let e = encode_spec(plane, f, w, h)->Ok_0;
    lemma_packed_writes_same(plane, f, w, h);
    let rb = p.stride as int;
    lemma_row_bytes(f, w as nat);
    assert(p.data.len() <= e.len()) by {
        lemma_written_len(plane, f, w, h);
    }
    assert(canonical(p)) by {
        lemma_packed_canonical(plane, f, w, h);
    }
    lemma_encode_then_decode_prefix(p, rest);
    lemma_encode_then_decode_prefix(p, Seq::empty());
    assert(e + Seq::<u8>::empty() =~= e);
}

/// The bytes written hold the packed rows.
proof fn lemma_written_len(plane: PbmPlane, f: PbmPixelFormat, w: u32, h: u32)
    requires
        w >= 1,
        h >= 1,
        encode_spec(plane, f, w, h) is Ok,
    ensures
        packed_model(plane, f, w, h).data.len() <= encode_spec(plane, f, w, h)->Ok_0.len(),
{
    let p = packed_model(plane, f, w, h);
    lemma_packed_writes_same(plane, f, w, h);
    let rb = p.stride as int;
    let hh = h as int;
    lemma_row_bytes(p.format, w as nat);
    match binary_layout(p.format, w as nat, h as nat) {
        Some(l) => {
            assert(l.2 == rb);
            assert(rows_fit(p.data.len() as int, rb, rb, hh)) by {
                assert((hh - 1) * rb + rb == hh * rb) by (nonlinear_arith);
            }
            lemma_rows_spec_row(p.data, rb, rb, hh, l.1, w as int, 0);
        },
        None => {
            lemma_rows_rev_len(p.data, rb, hh, hh, RowOp::Copy, w as int);
        },
    }
}

/// Bottom-to-top rows of a tight plane are `n * rb` bytes.
proof fn lemma_rows_rev_len(data: Seq<u8>, rb: int, h: int, n: int, op: RowOp, w: int)
    requires
        rb >= 0,
        0 <= n <= h,
        h * rb <= data.len(),
    ensures
        rows_rev_spec(data, rb, rb, h, n, op, w).len() == n * rb,
    decreases n,
{
    if n > 0 {
        lemma_rows_rev_len(data, rb, h, n - 1, op, w);
        assert((h - n) * rb + rb <= h * rb && 0 <= (h - n) * rb) by (nonlinear_arith)
            requires
                1 <= n <= h,
                rb >= 0,
        ;
        lemma_op_len(op, w, row_at(data, rb, rb, h - n));
        assert((n - 1) * rb + rb == n * rb) by (nonlinear_arith);
    }
}

/// The packed image is in the decoder's shape.
proof fn lemma_packed_canonical(plane: PbmPlane, f: PbmPixelFormat, w: u32, h: u32)
    requires
        w >= 1,
        h >= 1,
        encode_spec(plane, f, w, h) matches Ok(e) && e.len() <= usize::MAX,
    ensures
        canonical(packed_model(plane, f, w, h)),
{
    let p = packed_model(plane, f, w, h);
    let x = plane.data@;
    let st = plane.stride as int;
    let rb = p.stride as int;
    let hh = h as int;
    let ww = w as int;
    lemma_row_bytes(f, w as nat);
    lemma_row_bytes(p.format, w as nat);
    lemma_packed_writes_same(plane, f, w, h);
    lemma_written_len(plane, f, w, h);
    assert(rb * hh == p.data.len()) by (nonlinear_arith)
        requires
            p.data.len() == rb * hh,
    ;
    if f == PbmPixelFormat::MonoBlack {
        assert forall|k: int| 0 <= k < p.data.len() implies #[trigger] p.data[k] & pad_mask(
            bits_in_byte(ww, k % rb),
        ) == p.data[k] by {
            assert(rb > 0);
            let y = k / rb;
            let i = k % rb;
            assert(0 <= y < hh && 0 <= i < rb && y * rb + i == k) by (nonlinear_arith)
                requires
                    rb > 0,
                    0 <= k < rb * hh,
                    y == k / rb,
                    i == k % rb,
            ;
            lemma_rows_spec_row(x, st, rb, hh, RowOp::ClearPad, ww, y);
            assert(y * rb + rb <= hh * rb) by (nonlinear_arith)
                requires
                    0 <= y < hh,
                    rb > 0,
            ;
            assert(rows_fit(x.len() as int, st, rb, hh));
            assert(y * st + rb <= x.len() && 0 <= y * st) by (nonlinear_arith)
                requires
                    0 <= y < hh,
                    st >= 0,
                    (hh - 1) * st + rb <= x.len(),
            ;
            assert(row_at(p.data, rb, rb, y)[i] == p.data[k]);
            let r = row_at(x, st, rb, y);
            assert(p4_row(r, ww)[i] == r[i] & pad_mask(bits_in_byte(ww, i)));
            let b = r[i];
            let m = pad_mask(bits_in_byte(ww, i));
            assert((b & m) & m == b & m) by (bit_vector);
        }
    }
}

/// Clearing padding keeps every pixel bit of a byte.
proof fn lemma_pad_keeps_bit(b: u8, n: u8, j: u8)
    requires
        j < n <= 8,
    ensures
        bit_of(b & pad_mask(n), j) == bit_of(b, j),
{
    assert((((b & ((0xff00u16 >> n) as u8)) >> ((7 - j) as u8)) & 1) == ((b >> ((7 - j) as u8)) & 1))
        by (bit_vector)
        requires
            j < n <= 8,
    ;
}

/// A bit row's pixel `j` is the same in the plane and in its packed,
/// padding-cleared copy.
proof fn lemma_packed_pixel(x: Seq<u8>, st: int, w: int, h: int, y: int, j: int)
    requires
        st >= 0,
        w >= 1,
        rows_fit(x.len() as int, st, (w + 7) / 8, h),
        0 <= y < h,
        0 <= j < w,
    ensures
        ({
            let rb = (w + 7) / 8;
            let p = rows_spec(x, st, rb, h, RowOp::ClearPad, w);
            bit_of(p[y * rb + j / 8], (j % 8) as u8) == bit_of(x[y * st + j / 8], (j % 8) as u8)
        }),
{
    let rb = (w + 7) / 8;
    let p = rows_spec(x, st, rb, h, RowOp::ClearPad, w);
    let i = j / 8;
    assert(0 <= i < rb && 0 <= j % 8 < 8 && j % 8 < w - 8 * i) by (nonlinear_arith)
        requires
            0 <= j < w,
            rb == (w + 7) / 8,
            i == j / 8,
    ;
    lemma_rows_spec_row(x, st, rb, h, RowOp::ClearPad, w, y);
    assert(y * rb + rb <= h * rb && 0 <= y * rb) by (nonlinear_arith)
        requires
            0 <= y < h,
            rb >= 0,
    ;
    assert(y * st + rb <= x.len() && 0 <= y * st) by (nonlinear_arith)
        requires
            0 <= y < h,
            st >= 0,
            (h - 1) * st + rb <= x.len(),
    ;
    assert(row_at(p, rb, rb, y)[i] == p[y * rb + i]);
    let r = row_at(x, st, rb, y);
    assert(r[i] == x[y * st + i]);
    assert(p4_row(r, w)[i] == r[i] & pad_mask(bits_in_byte(w, i)));
    let n = bits_in_byte(w, i);
    assert((j % 8) < n <= 8);
    lemma_pad_keeps_bit(r[i], n, (j % 8) as u8);
}

proof fn lemma_packed_row_text(x: Seq<u8>, st: int, w: int, h: int, y: int, n: int)
    requires
        st >= 0,
        w >= 1,
        rows_fit(x.len() as int, st, (w + 7) / 8, h),
        0 <= y < h,
        0 <= n <= w,
    ensures
        bits_row_text(rows_spec(x, st, (w + 7) / 8, h, RowOp::ClearPad, w), (w + 7) / 8, w, y, n)
            == bits_row_text(x, st, w, y, n),
    decreases n,
{
    if n > 0 {
        lemma_packed_row_text(x, st, w, h, y, n - 1);
        lemma_packed_pixel(x, st, w, h, y, n - 1);
    }
}

proof fn lemma_packed_bits_text(x: Seq<u8>, st: int, w: int, h: int, n: int)
    requires
        st >= 0,
        w >= 1,
        rows_fit(x.len() as int, st, (w + 7) / 8, h),
        0 <= n <= h,
    ensures
        bits_text(rows_spec(x, st, (w + 7) / 8, h, RowOp::ClearPad, w), (w + 7) / 8, w, n)
            == bits_text(x, st, w, n),
    decreases n,
{
    if n > 0 {
        lemma_packed_bits_text(x, st, w, h, n - 1);
        lemma_packed_row_text(x, st, w, h, n - 1, w);
    }
}

/// The plain writer writes the packed image as the same text as the plane.
proof fn lemma_packed_plain_same(plane: PbmPlane, f: PbmPixelFormat, w: u32, h: u32)
    requires
        w >= 1,
        h >= 1,
        plain_format(f),
        ascii_spec(plane, f, w, h) is Ok,
    ensures
        ({
            let p = packed_model(plane, f, w, h);
            &&& p.data.len() == p.stride * h
            &&& ascii_bytes_spec(p.data, p.stride as int, p.format, w, h) == ascii_spec(
                plane,
                f,
                w,
                h,
            )
        }),
{
    let x = plane.data@;
    let st = plane.stride as int;
    let rb = min_row_bytes_spec(f, w as nat) as int;
    let hh = h as int;
    let ww = w as int;
    let p = packed_model(plane, f, w, h);
    lemma_row_bytes(f, w as nat);
    assert(rows_fit(x.len() as int, st, rb, hh));
    lemma_rows_spec_row(x, st, rb, hh, pack_op(f), ww, 0);
    assert((hh - 1) * rb + rb == hh * rb && hh * rb == rb * hh) by (nonlinear_arith);
    assert(p.data.len() == p.stride * h);
    assert(rows_fit(p.data.len() as int, rb, rb, hh));
    if f == PbmPixelFormat::MonoBlack {
        lemma_packed_bits_text(x, st, ww, hh, hh);
    } else {
        assert forall|y: int| 0 <= y < hh implies apply_op(RowOp::Copy, ww, #[trigger] row_at(
            p.data,
            rb,
            rb,
            y,
        )) == apply_op(RowOp::Copy, ww, row_at(x, st, rb, y)) by {
            lemma_rows_spec_row(x, st, rb, hh, RowOp::Copy, ww, y);
        }
        lemma_rows_same(p.data, rb, RowOp::Copy, x, st, RowOp::Copy, rb, hh, ww);
    }
}

/// Whatever plane the plain writer ([`crate::encoder::encode_pbm_ascii`])
/// accepts for a non-empty image, the text it writes, followed by any
/// bytes, decodes to the plane's rows packed tightly (see
/// [`packed_model`]); the reader stops before the final LF.
pub proof fn lemma_plain_image_reads_back(plane: PbmPlane, f: PbmPixelFormat, w: u32, h: u32, rest: Seq<u8>)
    requires
        w >= 1,
        h >= 1,
        plain_format(f),
        min_row_bytes_spec(f, w as nat) * h <= usize::MAX,
        ascii_spec(plane, f, w, h) matches Ok(e) && e.len() <= usize::MAX,
    ensures
        ascii_spec(plane, f, w, h) matches Ok(e) && decode_spec(e + rest) == Ok::<
            DecodedModel,
            Fail,
        >(DecodedModel { consumed: (e.len() - 1) as nat, ..packed_model(plane, f, w, h) }),
{
    let p = packed_model(plane, f, w, h);
    lemma_packed_plain_same(plane, f, w, h);
    let x = plane.data@;
    let st = plane.stride as int;
    let rb = p.stride as int;
    let hh = h as int;
    let ww = w as int;
    lemma_row_bytes(f, w as nat);
    assert(canonical(p)) by {
        if f == PbmPixelFormat::MonoBlack {
            assert forall|k: int| 0 <= k < p.data.len() implies #[trigger] p.data[k] & pad_mask(
                bits_in_byte(ww, k % rb),
            ) == p.data[k] by {
                let y = k / rb;
                let i = k % rb;
                assert(0 <= y < hh && 0 <= i < rb && y * rb + i == k) by (nonlinear_arith)
                    requires
                        rb > 0,
                        0 <= k < rb * hh,
                        y == k / rb,
                        i == k % rb,
                ;
                lemma_rows_spec_row(x, st, rb, hh, RowOp::ClearPad, ww, y);
                assert(y * rb + rb <= hh * rb) by (nonlinear_arith)
                    requires
                        0 <= y < hh,
                        rb > 0,
                ;
                assert(y * st + rb <= x.len() && 0 <= y * st) by (nonlinear_arith)
                    requires
                        0 <= y < hh,
                        st >= 0,
                        (hh - 1) * st + rb <= x.len(),
                ;
                assert(row_at(p.data, rb, rb, y)[i] == p.data[k]);
                let r = row_at(x, st, rb, y);
                assert(p4_row(r, ww)[i] == r[i] & pad_mask(bits_in_byte(ww, i)));
                let b = r[i];
                let m = pad_mask(bits_in_byte(ww, i));
                assert((b & m) & m == b & m) by (bit_vector);
            }
        }
    }
    lemma_plain_round_trip_prefix(p, rest);
}

/// Pixel `x` of row `y` of `rgba` is pixel `x` of row `y` of `bgra` with
/// its first and third bytes exchanged (both planes of stride `st`).
pub open spec fn rgba_pixel_of_bgra(bgra: Seq<u8>, rgba: Seq<u8>, st: int, y: int, x: int) -> bool {
    let o = y * st + 4 * x;
    &&& rgba[o] == bgra[o + 2]
    &&& rgba[o + 1] == bgra[o + 1]
    &&& rgba[o + 2] == bgra[o]
    &&& rgba[o + 3] == bgra[o + 3]
}

/// The binary writer writes a `Bgra` plane exactly as it writes the `Rgba`
/// plane holding the same pixels (red and blue exchanged back into
/// place): every pixel of every row is reordered, errors included.
pub proof fn lemma_bgra_written_as_rgba(bgra: PbmPlane, rgba: PbmPlane, w: u32, h: u32)
    requires
        bgra.stride == rgba.stride,
        bgra.data@.len() == rgba.data@.len(),
        forall|y: int, x: int|
            0 <= y < h && 0 <= x < w ==> #[trigger] rgba_pixel_of_bgra(
                bgra.data@,
                rgba.data@,
                bgra.stride as int,
                y,
                x,
            ),
    ensures
        encode_spec(bgra, PbmPixelFormat::Bgra, w, h) == encode_spec(rgba, PbmPixelFormat::Rgba, w, h),
{
    let a = bgra.data@;
    let b = rgba.data@;
    let st = bgra.stride as int;
    let ww = w as int;
    let hh = h as int;
    lemma_row_bytes(PbmPixelFormat::Bgra, w as nat);
    lemma_row_bytes(PbmPixelFormat::Rgba, w as nat);
    let rb = 4 * ww;
    if rows_fit(a.len() as int, st, rb, hh) {
        assert forall|y: int| 0 <= y < hh implies apply_op(RowOp::BgraToRgba, ww, #[trigger] row_at(
            a,
            st,
            rb,
            y,
        )) == apply_op(RowOp::Copy, ww, row_at(b, st, rb, y)) by {
            assert(y * st + rb <= a.len() && 0 <= y * st) by (nonlinear_arith)
                requires
                    0 <= y < hh,
                    st >= 0,
                    (hh - 1) * st + rb <= a.len(),
            ;
            let ra = row_at(a, st, rb, y);
            let rbw = row_at(b, st, rb, y);
            assert forall|k: int| 0 <= k < rb implies #[trigger] crate::binary::bgra_to_rgba(ra)[k]
                == rbw[k] by {
                let x = k / 4;
                let c = k % 4;
                assert(0 <= x < ww && k == 4 * x + c && 0 <= c < 4) by (nonlinear_arith)
                    requires
                        0 <= k < rb,
                        rb == 4 * ww,
                        x == k / 4,
                        c == k % 4,
                ;
                assert(rgba_pixel_of_bgra(a, b, st, y, x));
            }
            assert(crate::binary::bgra_to_rgba(ra) =~= rbw);
        }
        lemma_rows_same(a, st, RowOp::BgraToRgba, b, st, RowOp::Copy, rb, hh, ww);
    }
}

} // verus!
