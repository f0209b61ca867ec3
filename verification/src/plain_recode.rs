//! Round trip of the plain (P1 / P2 / P3) writer: the decimal text it
//! prints reads back, sample by sample, as the image it was given.

use vstd::prelude::*;
use vstd::arithmetic::div_mod::lemma_fundamental_div_mod_converse;
use crate::ascii::{
    ascii_one, ascii_read, ascii_samples_spec, bits_row_text, bits_text, byte_values, plain_body,
    plain_text, sep_before,
};
use crate::binary::{bit_of, bit_row_bytes, bits_in_byte, lemma_mask_is_packed_bits, pad_mask};
use crate::decoder::{
    body_spec, decode_spec, lemma_pack_msb_ext, mono_bit, pick_format_spec, plane_byte, plane_bytes,
    DecodedModel,
};
use crate::encoder::{ascii_bytes_spec, ascii_spec, pnm_header_bytes, rows_spec, RowOp};
use crate::error::Fail;
use crate::image::{lemma_row_bytes, min_row_bytes_spec};
use crate::header::{header_spec, magic_digit, pnm_model, HeaderModel, Magic};
use crate::image::{PbmImage, PbmPixelFormat};
use crate::lex::{
    dec_digits, dec_token, is_digit_byte, is_ws_byte, lemma_dec_digits_shape, skip_wsc, Token,
};
use crate::recode::{
    canonical, lemma_copy_rows_byte, lemma_digits_end_at, lemma_pnm_header, lemma_rows_tight,
    lemma_skip_wsc_at,
};

verus! {

/// The text of the first `k` samples is a prefix of the text of the first
/// `n`.
pub proof fn lemma_plain_text_prefix(f: spec_fn(int) -> nat, k: int, n: int, w: int)
    requires
        0 <= k <= n,
    ensures
        plain_text(f, k, w).len() <= plain_text(f, n, w).len(),
        plain_text(f, n, w).subrange(0, plain_text(f, k, w).len() as int) == plain_text(f, k, w),
    decreases n - k,
{
    if k == n {
        assert(plain_text(f, n, w).subrange(0, plain_text(f, n, w).len() as int) =~= plain_text(
            f,
            n,
            w,
        ));
    } else {
        lemma_plain_text_prefix(f, k, n - 1, w);
        let a = plain_text(f, n - 1, w);
        let b = plain_text(f, n, w);
        assert(b == a + sep_before(n - 1, w) + dec_digits(f(n - 1)));
        assert(b.subrange(0, plain_text(f, k, w).len() as int) =~= a.subrange(
            0,
            plain_text(f, k, w).len() as int,
        ));
    }
}

/// Reading one sample where the text of sample `k` starts: its separator
/// is skipped, its digits read, and the reader stops right after them.
pub proof fn lemma_plain_one(
    f: spec_fn(int) -> nat,
    n: int,
    w: int,
    bitmap: bool,
    maxval: u32,
    k: int,
    rest: Seq<u8>,
)
    requires
        0 <= k < n,
        w > 0,
        maxval <= 65535,
        f(k) <= maxval,
        bitmap ==> f(k) <= 1,
    ensures
        ascii_one(plain_body(f, n, w) + rest, bitmap, maxval, plain_text(f, k, w).len() as int)
            == Ok::<
            (u16, int),
            crate::error::Fail,
        >((f(k) as u16, plain_text(f, k + 1, w).len() as int)),
{
    let body = plain_body(f, n, w) + rest;
    let p = plain_text(f, k, w).len() as int;
    let sep = sep_before(k, w);
    let d = dec_digits(f(k));
    let q = plain_text(f, k + 1, w);
    lemma_dec_digits_shape(f(k));
    assert(q == plain_text(f, k, w) + sep + d);
    lemma_plain_text_prefix(f, k + 1, n, w);
    let t = plain_text(f, n, w);
    assert(body == t.push(0x0a) + rest);
    let a = p + sep.len();
    let e = a + d.len();
    assert(e == q.len());
    assert forall|i: int| p <= i < a implies is_ws_byte(#[trigger] body[i]) by {
        assert(body[i] == t[i]);
        assert(t[i] == q[i]);
        assert(q[i] == sep[i - p]);
    }
    assert forall|i: int| a <= i < e implies #[trigger] body[i] == d[i - a] && is_digit_byte(
        body[i],
    ) by {
        assert(body[i] == t[i]);
        assert(t[i] == q[i]);
        assert(q[i] == d[i - a]);
    }
    // The byte after the digits is the next separator or the final LF.
    if k + 1 < n {
        lemma_plain_text_prefix(f, k + 2, n, w);
        let q2 = plain_text(f, k + 2, w);
        assert(q2 == q + sep_before(k + 1, w) + dec_digits(f(k + 1)));
        lemma_dec_digits_shape(f(k + 1));
        assert(body[e] == t[e]);
        assert(t[e] == q2[e]);
        assert(is_ws_byte(body[e]));
    } else {
        assert(e == t.len());
        assert(is_ws_byte(body[e]));
    }
    assert(body[a] == d[a - a]);
    assert(is_digit_byte(body[a]));
    lemma_skip_wsc_at(body, p, a);
    if bitmap {
        assert(d =~= seq![(0x30 + f(k)) as u8]);
    } else {
        lemma_digits_end_at(body, a, e);
        assert(body.subrange(a, e) =~= d);
        assert(dec_token(body, p) == Token::Value(f(k) as u32, e));
    }
}

/// Reading `k` samples from the start of a plain body gives the first `k`
/// values and stops right after the `k`-th.
pub proof fn lemma_plain_read(
    f: spec_fn(int) -> nat,
    n: int,
    w: int,
    bitmap: bool,
    maxval: u32,
    k: nat,
    rest: Seq<u8>,
)
    requires
        k <= n,
        w > 0,
        maxval <= 65535,
        forall|i: int| 0 <= i < n ==> #[trigger] f(i) <= maxval,
        bitmap ==> forall|i: int| 0 <= i < n ==> #[trigger] f(i) <= 1,
    ensures
        ascii_read(plain_body(f, n, w) + rest, bitmap, maxval, 0, k) == Ok::<
            (Seq<u16>, int),
            crate::error::Fail,
        >((Seq::new(k, |i: int| f(i) as u16), plain_text(f, k as int, w).len() as int)),
    decreases k,
{
    if k == 0 {
        assert(Seq::new(0, |i: int| f(i) as u16) =~= Seq::<u16>::empty());
    } else {
        lemma_plain_read(f, n, w, bitmap, maxval, (k - 1) as nat, rest);
        lemma_plain_one(f, n, w, bitmap, maxval, k - 1, rest);
        assert(Seq::new((k - 1) as nat, |i: int| f(i) as u16).push(f(k - 1) as u16) =~= Seq::new(
            k,
            |i: int| f(i) as u16,
        ));
    }
}

/// The bit of pixel `i` (row-major, `w` per row) of a `MonoBlack` plane
/// of `st`-byte rows.
pub open spec fn plane_bit(d: Seq<u8>, st: int, w: int, i: int) -> nat {
    bit_of(d[(i / w) * st + (i % w) / 8], ((i % w) % 8) as u8) as nat
}

/// The bits of a `MonoBlack` plane, pixel by pixel.
pub open spec fn plane_bits(d: Seq<u8>, st: int, w: int) -> spec_fn(int) -> nat {
    |i: int| plane_bit(d, st, w, i)
}

/// The P1 text of whole rows, then the first `x` pixels of row `y`, is the
/// plain text of those pixels' bits.
pub proof fn lemma_bits_text_prefix(d: Seq<u8>, st: int, w: int, y: int, x: int)
    requires
        w > 0,
        0 <= y,
        1 <= x <= w,
    ensures
        plain_text(plane_bits(d, st, w), y * w + x, w) == bits_text(d, st, w, y)
            + bits_row_text(d, st, w, y, x),
    decreases y, x,
{
    let f = plane_bits(d, st, w);
    let i = y * w + x - 1;
    lemma_fundamental_div_mod_converse(i, w, y, x - 1);
    let b = bit_of(d[y * st + (x - 1) / 8], ((x - 1) % 8) as u8);
    assert(b <= 1) by {
        let c = d[y * st + (x - 1) / 8];
        let j = ((x - 1) % 8) as u8;
        assert((c >> ((7 - j) as u8)) & 1 <= 1) by (bit_vector);
    }
    assert(f(i) == b);
    assert(dec_digits(f(i)) =~= seq![(0x30 + b) as u8]);
    if x == 1 {
        if y == 0 {
            assert(y * w == 0) by (nonlinear_arith)
                requires
                    y == 0,
            ;
            assert(plain_text(f, 0, w) =~= Seq::<u8>::empty());
            assert(bits_row_text(d, st, w, y, 0) =~= Seq::<u8>::empty());
            assert(plain_text(f, 1, w) =~= bits_text(d, st, w, 0) + bits_row_text(d, st, w, 0, 1));
        } else {
            assert((y - 1) * w + w == y * w) by (nonlinear_arith);
            lemma_bits_text_prefix(d, st, w, y - 1, w);
            assert(y * w % w == 0) by {
                lemma_fundamental_div_mod_converse(y * w, w, y, 0);
            }
            assert(y * w > 0) by (nonlinear_arith)
                requires
                    y >= 1,
                    w >= 1,
            ;
            assert(sep_before(y * w, w) == seq![0x0au8]);
            assert(bits_row_text(d, st, w, y, 0) =~= Seq::<u8>::empty());
            assert(plain_text(f, y * w + 1, w) =~= bits_text(d, st, w, y) + bits_row_text(
                d,
                st,
                w,
                y,
                1,
            ));
        }
    } else {
        lemma_bits_text_prefix(d, st, w, y, x - 1);
        assert(sep_before(i, w) == seq![0x20u8]);
        assert(plain_text(f, y * w + x, w) =~= bits_text(d, st, w, y) + bits_row_text(
            d,
            st,
            w,
            y,
            x,
        ));
    }
}

/// A whole P1 body is the plain body of the plane's bits.
pub proof fn lemma_bits_text_plain(d: Seq<u8>, st: int, w: int, h: int)
    requires
        w > 0,
        h > 0,
    ensures
        bits_text(d, st, w, h) == plain_body(plane_bits(d, st, w), w * h, w),
{
    assert((h - 1) * w + w == w * h) by (nonlinear_arith);
    lemma_bits_text_prefix(d, st, w, h - 1, w);
}

/// Every sample's text takes at least one byte.
pub proof fn lemma_plain_text_len(f: spec_fn(int) -> nat, n: int, w: int)
    requires
        0 <= n,
    ensures
        plain_text(f, n, w).len() >= n,
    decreases n,
{
    if n > 0 {
        lemma_plain_text_len(f, n - 1, w);
        lemma_dec_digits_shape(f(n - 1));
    }
}

/// A `MonoBlack` byte rebuilt from the bits a P1 body carries is the plane
/// byte, once its row padding is clear.
pub proof fn lemma_p1_plane_byte(m: HeaderModel, d: Seq<u8>, k: int)
    requires
        m.magic == Magic::P1AsciiBitmap,
        m.width > 0,
        m.height > 0,
        d.len() == bit_row_bytes(m.width as int) * m.height,
        0 <= k < d.len(),
    ensures
        plane_byte(
            m,
            PbmPixelFormat::MonoBlack,
            Seq::new(
                (m.width * m.height) as nat,
                |i: int| plane_bits(d, bit_row_bytes(m.width as int), m.width as int)(i) as u16,
            ),
            k,
        ) == d[k] & pad_mask(bits_in_byte(m.width as int, k % bit_row_bytes(m.width as int))),
{
    let w = m.width as int;
    let h = m.height as int;
    let rb = bit_row_bytes(w);
    let smp = Seq::new(
        (m.width * m.height) as nat,
        |i: int| plane_bits(d, rb, w)(i) as u16,
    );
    let y = k / rb;
    let bx = k % rb;
    assert(0 <= y < h && 0 <= bx < rb && k == y * rb + bx && 8 * bx <= w - 1) by (nonlinear_arith)
        requires
            0 <= k < rb * h,
            rb == (w + 7) / 8,
            w > 0,
            y == k / rb,
            bx == k % rb,
    ;
    let n = bits_in_byte(w, bx);
    let b = d[k];
    let f = |j: int|
        if bx * 8 + j < w {
            mono_bit(m, smp[y * w + bx * 8 + j])
        } else {
            0u8
        };
    let g = |j: int|
        if j < n {
            bit_of(b, j as u8)
        } else {
            0u8
        };
    assert(1 <= n <= 8);
    assert forall|j: int| 0 <= j < 8 implies #[trigger] f(j) == g(j) by {
        let x = bx * 8 + j;
        if x < w {
            assert(j < n);
            let t = y * w + x;
            assert(0 <= t < w * h) by (nonlinear_arith)
                requires
                    t == y * w + x,
                    0 <= y < h,
                    0 <= x < w,
            ;
            lemma_fundamental_div_mod_converse(t, w, y, x);
            lemma_fundamental_div_mod_converse(x, 8, bx, j);
            assert(smp[t] == plane_bit(d, rb, w, t) as u16);
            let jj = j as u8;
            assert((b >> ((7 - jj) as u8)) & 1 <= 1) by (bit_vector);
        } else {
            assert(j >= n);
        }
    }
    lemma_pack_msb_ext(f, g, 8);
    lemma_mask_is_packed_bits(b, n);
}

/// The sample values the P2 / P3 writer prints for a `Gray8` / `Rgb24`
/// image: its plane bytes, row by row.
pub open spec fn plain_samples(d: DecodedModel) -> Seq<u8> {
    let c: int = if d.format == PbmPixelFormat::Rgb24 {
        3
    } else {
        1
    };
    rows_spec(d.data, d.stride as int, c * d.width, d.height as int, RowOp::Copy, d.width as int)
}

/// The header the P2 / P3 writer prints, as the reader sees it.
pub open spec fn plain_model(d: DecodedModel, off: int) -> HeaderModel {
    pnm_model(
        if d.format == PbmPixelFormat::Rgb24 {
            Magic::P3AsciiPixmap
        } else {
            Magic::P2AsciiGraymap
        },
        d.width,
        d.height,
        255,
        off,
    )
}

/// For a tightly packed `Gray8` / `Rgb24` image the printed samples are
/// the plane, and the plane rebuilt from them is the image's.
proof fn lemma_plain_bytes_plane(d: DecodedModel, off: int)
    requires
        canonical(d),
        d.format == PbmPixelFormat::Gray8 || d.format == PbmPixelFormat::Rgb24,
    ensures
        plain_samples(d) == d.data,
        pick_format_spec(plain_model(d, off)) == d.format,
        plane_bytes(
            plain_model(d, off),
            d.format,
            Seq::new(d.data.len(), |i: int| byte_values(d.data)(i) as u16),
        ) == d.data,
{
    let w = d.width as int;
    let h = d.height as int;
    lemma_row_bytes(d.format, d.width as nat);
    let rb = d.stride as int;
    let rgb = d.format == PbmPixelFormat::Rgb24;
    let c: int = if rgb {
        3
    } else {
        1
    };
    assert(rb == c * w);
    assert(rb > 0);
    let g = plain_samples(d);
    assert(h * rb == rb * h) by (nonlinear_arith);
    lemma_rows_tight(d.data, rb, h, RowOp::Copy, w);
    assert forall|k: int| 0 <= k < g.len() implies #[trigger] g[k] == d.data[k] by {
        lemma_copy_rows_byte(d.data, rb, h, w, k);
    }
    assert(g =~= d.data);
    let hm = plain_model(d, off);
    let smp = Seq::new(d.data.len(), |i: int| byte_values(d.data)(i) as u16);
    let plane = plane_bytes(hm, d.format, smp);
    assert forall|k: int| 0 <= k < plane.len() implies #[trigger] plane[k] == d.data[k] by {
        if rgb {
            assert((k / 3) * 3 + k % 3 == k);
        }
    }
    assert(plane =~= d.data);
}

/// The reader takes every sample of a P2 / P3 body back, whatever follows
/// it.
proof fn lemma_plain_bytes_read(d: DecodedModel, off: int, rest: Seq<u8>)
    requires
        canonical(d),
        d.format == PbmPixelFormat::Gray8 || d.format == PbmPixelFormat::Rgb24,
        plain_samples(d) == d.data,
        off + plain_body(byte_values(d.data), d.data.len() as int, (if d.format
            == PbmPixelFormat::Rgb24 {
            3int
        } else {
            1int
        }) * d.width).len() <= usize::MAX,
        off >= 0,
    ensures
        ({
            let c: int = if d.format == PbmPixelFormat::Rgb24 {
                3
            } else {
                1
            };
            let fg = byte_values(d.data);
            let n = d.data.len() as int;
            body_spec(plain_model(d, off), plain_body(fg, n, c * d.width) + rest) == Ok::<
                (Seq<u16>, int),
                Fail,
            >((Seq::new(n as nat, |i: int| fg(i) as u16), plain_text(fg, n, c * d.width).len() as int))
        }),
{
    let w = d.width as int;
    let h = d.height as int;
    lemma_row_bytes(d.format, d.width as nat);
    let rb = d.stride as int;
    let c: int = if d.format == PbmPixelFormat::Rgb24 {
        3
    } else {
        1
    };
    assert(rb == c * w);
    let fg = byte_values(d.data);
    let n = d.data.len() as int;
    let body = plain_body(fg, n, c * w);
    let hm = plain_model(d, off);
    assert(w * h * c == n) by (nonlinear_arith)
        requires
            n == rb * h,
            rb == c * w,
    ;
    assert(w * h <= n) by (nonlinear_arith)
        requires
            n == w * h * c,
            c >= 1,
            w >= 0,
            h >= 0,
    ;
    lemma_plain_text_len(fg, n, c * w);
    assert forall|i: int| 0 <= i < n implies #[trigger] fg(i) <= 255 by {}
    lemma_plain_read(fg, n, c * w, false, 255, n as nat, rest);
    assert(hm.width * hm.height * hm.depth == n);
}

/// Decoding an integer image once its header and body are known.
proof fn lemma_decode_int_via(s: Seq<u8>, hm: HeaderModel, smp: Seq<u16>, n: int, d: DecodedModel)
    requires
        header_spec(s) == Ok::<HeaderModel, Fail>(hm),
        !hm.magic.spec_is_pfm(),
        body_spec(hm, s.subrange(hm.data_offset as int, s.len() as int)) == Ok::<
            (Seq<u16>, int),
            Fail,
        >((smp, n)),
        pick_format_spec(hm) == d.format,
        hm.width == d.width,
        hm.height == d.height,
        d.stride == min_row_bytes_spec(d.format, d.width as nat),
        d.stride * d.height <= usize::MAX,
        d.height >= 1,
        plane_bytes(hm, d.format, smp) == d.data,
    ensures
        decode_spec(s) == Ok::<DecodedModel, Fail>(
            DecodedModel { consumed: (hm.data_offset + n) as nat, ..d },
        ),
{
    assert(d.stride <= d.stride * d.height) by (nonlinear_arith)
        requires
            d.height >= 1,
    ;
}

/// What the P2 / P3 writer puts down for an image in the decoder's shape:
/// the header and every plane byte in decimal, rows on their own lines.
proof fn lemma_plain_bytes_written(d: DecodedModel)
    requires
        canonical(d),
        d.format == PbmPixelFormat::Gray8 || d.format == PbmPixelFormat::Rgb24,
    ensures
        ascii_bytes_spec(d.data, d.stride as int, d.format, d.width, d.height) == Ok::<
            Seq<u8>,
            Fail,
        >(
            pnm_header_bytes(
                if d.format == PbmPixelFormat::Rgb24 {
                    0x33
                } else {
                    0x32
                },
                d.width as nat,
                d.height as nat,
                Some(255),
            ) + plain_body(
                byte_values(d.data),
                d.data.len() as int,
                (if d.format == PbmPixelFormat::Rgb24 {
                    3int
                } else {
                    1int
                }) * d.width,
            ),
        ),
{
    lemma_plain_bytes_plane(d, 0);
    crate::recode::lemma_canonical_rows_fit(d);
    lemma_row_bytes(d.format, d.width as nat);
}

/// A `Gray8` or `Rgb24` image in the decoder's shape, written as P2 / P3
/// text, reads back as itself, whatever follows it.
#[verifier::spinoff_prover]
#[verifier::rlimit(100)]
proof fn lemma_plain_round_trip_bytes(d: DecodedModel, rest: Seq<u8>)
    requires
        canonical(d),
        d.format == PbmPixelFormat::Gray8 || d.format == PbmPixelFormat::Rgb24,
        ascii_bytes_spec(d.data, d.stride as int, d.format, d.width, d.height) matches Ok(e)
            && e.len() <= usize::MAX,
    ensures
        ascii_bytes_spec(d.data, d.stride as int, d.format, d.width, d.height) matches Ok(e)
            && decode_spec(e + rest) == Ok::<DecodedModel, Fail>(
            DecodedModel { consumed: (e.len() - 1) as nat, ..d },
        ),
{
    let f = d.format;
    let rgb = f == PbmPixelFormat::Rgb24;
    let c: int = if rgb {
        3
    } else {
        1
    };
    let m = if rgb {
        Magic::P3AsciiPixmap
    } else {
        Magic::P2AsciiGraymap
    };
    let hdr = pnm_header_bytes(magic_digit(m), d.width as nat, d.height as nat, Some(255));
    lemma_plain_bytes_plane(d, hdr.len() as int);
    let g = plain_samples(d);
    let fg = byte_values(d.data);
    let n = d.data.len() as int;
    let body = plain_body(fg, n, c * d.width);
    let e = hdr + body;
    lemma_plain_bytes_written(d);
    assert(magic_digit(m) == if rgb { 0x33u8 } else { 0x32u8 });
    assert(ascii_bytes_spec(d.data, d.stride as int, f, d.width, d.height) == Ok::<Seq<u8>, Fail>(e));
    let s = e + rest;
    assert(s =~= hdr + (body + rest));
    lemma_pnm_header(m, d.width, d.height, Some(255), body + rest);
    let hm = plain_model(d, hdr.len() as int);
    assert(header_spec(s) == Ok::<HeaderModel, Fail>(hm));
    let b2 = s.subrange(hdr.len() as int, s.len() as int);
    assert(b2 =~= body + rest);
    lemma_plain_bytes_read(d, hdr.len() as int, rest);
    lemma_row_bytes(f, d.width as nat);
    lemma_plain_text_len(fg, n, c * d.width);
    lemma_decode_int_via(
        s,
        hm,
        Seq::new(n as nat, |i: int| fg(i) as u16),
        plain_text(fg, n, c * d.width).len() as int,
        d,
    );
}

/// A `MonoBlack` image in the decoder's shape, written as P1 text, reads
/// back as itself.
#[verifier::spinoff_prover]
#[verifier::rlimit(40)]
proof fn lemma_plain_round_trip_bits(d: DecodedModel, rest: Seq<u8>)
    requires
        canonical(d),
        d.format == PbmPixelFormat::MonoBlack,
        ascii_bytes_spec(d.data, d.stride as int, d.format, d.width, d.height) matches Ok(e)
            && e.len() <= usize::MAX,
    ensures
        ascii_bytes_spec(d.data, d.stride as int, d.format, d.width, d.height) matches Ok(e)
            && decode_spec(e + rest) == Ok::<DecodedModel, Fail>(
            DecodedModel { consumed: (e.len() - 1) as nat, ..d },
        ),
{
    let w = d.width as int;
    let h = d.height as int;
    lemma_row_bytes(d.format, d.width as nat);
    let rb = d.stride as int;
    assert(rb == bit_row_bytes(w));
    let fb = plane_bits(d.data, rb, w);
    let n = w * h;
    lemma_bits_text_plain(d.data, rb, w, h);
    let body = bits_text(d.data, rb, w, h);
    let hdr = pnm_header_bytes(0x31, d.width as nat, d.height as nat, None);
    let e = hdr + body;
    crate::recode::lemma_canonical_rows_fit(d);
    assert(ascii_bytes_spec(d.data, rb, d.format, d.width, d.height) == Ok::<Seq<u8>, Fail>(e));
    let s = e + rest;
    assert(s =~= hdr + (body + rest));
    lemma_pnm_header(Magic::P1AsciiBitmap, d.width, d.height, None, body + rest);
    let hm = pnm_model(Magic::P1AsciiBitmap, d.width, d.height, 1, hdr.len() as int);
    assert(header_spec(s) == Ok::<HeaderModel, Fail>(hm));
    let b2 = s.subrange(hdr.len() as int, s.len() as int);
    assert(b2 =~= body + rest);
    assert(n >= 0) by (nonlinear_arith)
        requires
            w >= 0,
            h >= 0,
            n == w * h,
    ;
    lemma_plain_text_len(fb, n, w);
    assert forall|i: int| 0 <= i < n implies #[trigger] fb(i) <= 1 by {
        let c = d.data[(i / w) * rb + (i % w) / 8];
        let j = ((i % w) % 8) as u8;
        assert((c >> ((7 - j) as u8)) & 1 <= 1) by (bit_vector);
    }
    lemma_plain_read(fb, n, w, true, 1, n as nat, rest);
    let smp = Seq::new(n as nat, |i: int| fb(i) as u16);
    assert(w * h * 1 == n);
    assert(ascii_samples_spec(hm, b2) == Ok::<(Seq<u16>, int), Fail>(
        (smp, plain_text(fb, n, w).len() as int),
    ));
    assert(body_spec(hm, b2) == Ok::<(Seq<u16>, int), Fail>(
        (smp, plain_text(fb, n, w).len() as int),
    ));
    assert(pick_format_spec(hm) == d.format);
    let plane = plane_bytes(hm, d.format, smp);
    assert forall|k: int| 0 <= k < plane.len() implies #[trigger] plane[k] == d.data[k] by {
        lemma_p1_plane_byte(hm, d.data, k);
    }
    assert(plane =~= d.data);
}

/// An image in the decoder's shape, in a format the plain writer takes
/// (`MonoBlack`, `Gray8`, `Rgb24`), written as P1 / P2 / P3 text and
/// followed by any bytes, reads back as the same image; the reader stops
/// right after the last sample, before the final LF.
pub proof fn lemma_plain_round_trip_prefix(d: DecodedModel, rest: Seq<u8>)
    requires
        canonical(d),
        d.format == PbmPixelFormat::MonoBlack || d.format == PbmPixelFormat::Gray8 || d.format
            == PbmPixelFormat::Rgb24,
        ascii_bytes_spec(d.data, d.stride as int, d.format, d.width, d.height) matches Ok(e)
            && e.len() <= usize::MAX,
    ensures
        ascii_bytes_spec(d.data, d.stride as int, d.format, d.width, d.height) matches Ok(e)
            && decode_spec(e + rest) == Ok::<DecodedModel, Fail>(
            DecodedModel { consumed: (e.len() - 1) as nat, ..d },
        ),
{
    if d.format == PbmPixelFormat::MonoBlack {
        lemma_plain_round_trip_bits(d, rest);
    } else {
        lemma_plain_round_trip_bytes(d, rest);
    }
}

/// An image in the decoder's shape, in a format the plain writer takes
/// (`MonoBlack`, `Gray8`, `Rgb24`), written as P1 / P2 / P3 text, reads
/// back as the same image; the reader stops right after the last sample,
/// before the final LF.
pub proof fn lemma_plain_round_trip(d: DecodedModel)
    requires
        canonical(d),
        d.format == PbmPixelFormat::MonoBlack || d.format == PbmPixelFormat::Gray8 || d.format
            == PbmPixelFormat::Rgb24,
        ascii_bytes_spec(d.data, d.stride as int, d.format, d.width, d.height) matches Ok(e)
            && e.len() <= usize::MAX,
    ensures
        ascii_bytes_spec(d.data, d.stride as int, d.format, d.width, d.height) matches Ok(e)
            && decode_spec(e) == Ok::<DecodedModel, Fail>(
            DecodedModel { consumed: (e.len() - 1) as nat, ..d },
        ),
{
    lemma_plain_round_trip_prefix(d, Seq::empty());
    let e = ascii_bytes_spec(d.data, d.stride as int, d.format, d.width, d.height)->Ok_0;
    assert(e + Seq::<u8>::empty() =~= e);
}

/// Any single-plane image in the decoder's shape, in a format the plain
/// writer takes, written by [`crate::encoder::encode_pbm_ascii`] and
/// followed by any bytes, decodes back to the same width, height, pixel
/// format, stride and plane bytes; the reader stops before the final LF.
pub proof fn lemma_image_plain_round_trip(img: PbmImage, rest: Seq<u8>)
    requires
        img.planes@.len() == 1,
        canonical(crate::recode::image_model(img)),
        img.pixel_format == PbmPixelFormat::MonoBlack || img.pixel_format == PbmPixelFormat::Gray8
            || img.pixel_format == PbmPixelFormat::Rgb24,
        ascii_spec(img.planes@[0], img.pixel_format, img.width, img.height) matches Ok(e) && e.len()
            <= usize::MAX,
    ensures
        ascii_spec(img.planes@[0], img.pixel_format, img.width, img.height) matches Ok(e)
            && decode_spec(e + rest) matches Ok(d2) && d2.width == img.width && d2.height
            == img.height && d2.format == img.pixel_format && d2.stride == img.planes@[0].stride
            && d2.data == img.planes@[0].data@ && d2.consumed == e.len() - 1,
{
    lemma_plain_round_trip_prefix(crate::recode::image_model(img), rest);
}

} // verus!
