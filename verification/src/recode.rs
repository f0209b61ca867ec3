//! Round trip of the codec: what the encoder writes for an image the
//! decoder could have produced reads back as exactly that image, so
//! decoding, re-encoding and decoding again is a fixed point.
//!
//! The proof walks the writer's output through the reader's model: the
//! header lines it prints are parsed back token by token, and the rows it
//! emits are the plane bytes the body decoder rebuilds.

use vstd::prelude::*;
use vstd::utf8::{valid_utf8, valid_first_scalar, pop_first_scalar};
use vstd::arithmetic::div_mod::lemma_fundamental_div_mod_converse;
use crate::encoder::{apply_op, row_at, rows_fit, rows_rev_spec, rows_spec, RowOp};
use crate::binary::{
    bit_row_bytes, bits_in_byte, lemma_mask_idempotent, p4_samples, pack_msb, pad_mask, sample_bytes, word_samples,
};
use crate::decoder::{
    body_spec, bytewise_ok, decode_spec, lemma_bytewise_byte, lemma_format_depth,
    image_is, lemma_p4_plane_byte, mono_bit, pick_format_spec, plane_byte, plane_bytes, DecodedModel,
};
use crate::encoder::{binary_layout, encode_bytes_spec, encode_spec, pam7_layout, with_format_spec, PbmEncodeFormat, pam_header_bytes, pam_line, pnm_header_bytes, unit_scale};
use crate::error::Fail;
use crate::image::{lemma_row_bytes, min_row_bytes_spec, validate_spec, PbmImage, PbmPixelFormat, PbmPlane};
use crate::pfm::{pfm_encode_spec, pfm_header_bytes, pfm_plane, pfm_row_bytes, swap4_index};
use crate::header::{
    header_spec, header_uint, header_wf, is_split_ws, lemma_header_offset, lemma_header_wf,
    magic_digit, magic_of, pnm_model, HeaderModel, Magic, PamFields, pam_lines, pam_step, no_pam_fields,
    key_depth, key_endhdr, key_height, key_maxval, key_tupltype, key_width, name_grayscale,
    name_blackandwhite, name_rgb, suffix_alpha,
    tupl_name_bytes, tupl_parse_spec, TuplModel, PfmModel, scale_spec, two_uints_spec, pfm_stop, split_token_end, split_ws_end, token_end, trim_ws, ws_end,
    ws_start_back,
};
use crate::lex::{
    all_digits, dec_digits, dec_value, digits_end, is_digit_byte, is_ws_byte,
    lemma_dec_digits_shape, skip_wsc,
};
use crate::numtext::{
    find_byte, is_ascii_uws, trim_end_uws, trim_start_uws, trim_uws, uint_literal, uint_text,
    uws_prefix, uws_suffix, unsigned_part, lowered, mantissa_ok, float_literal,
    float_literal_is_zero, word_nan, word_inf, word_infinity,
};
use crate::binary32::{
    lit_digits, lit_exp_at, lit_exponent, lit_exponent_text, lit_frac_len, lit_mantissa, lit_point,
    lit_text, literal_overflows, literal_underflows, number_literal, p10, two_pow_150,
};

verus! {

// ---------------------------------------------------------------------------
// Scanning over known runs
// ---------------------------------------------------------------------------

/// A printable ASCII byte other than space: never whitespace of any kind
/// the readers know, never a line break, never part of a multi-byte
/// UTF-8 sequence.
pub open spec fn is_graphic(c: u8) -> bool {
    0x21 <= c <= 0x7e
}

pub open spec fn all_graphic(s: Seq<u8>) -> bool {
    forall|k: int| 0 <= k < s.len() ==> is_graphic(#[trigger] s[k])
}

pub proof fn lemma_find_byte_at(s: Seq<u8>, c: u8, i: int, j: int)
    requires
        0 <= i <= j < s.len(),
        s[j] == c,
        forall|k: int| i <= k < j ==> #[trigger] s[k] != c,
    ensures
        find_byte(s, c, i) == j,
    decreases j - i,
{
    if i < j {
        lemma_find_byte_at(s, c, i + 1, j);
    }
}

pub proof fn lemma_pfm_stop_at(s: Seq<u8>, i: int, j: int)
    requires
        0 <= i <= j < s.len(),
        s[j] == 0x0a,
        forall|k: int| i <= k < j ==> #[trigger] s[k] != 0x0a && s[k] != 0x0d && s[k] != 0x23,
    ensures
        pfm_stop(s, i) == j,
    decreases j - i,
{
    if i < j {
        lemma_pfm_stop_at(s, i + 1, j);
    }
}

pub proof fn lemma_digits_end_at(s: Seq<u8>, i: int, j: int)
    requires
        0 <= i <= j <= s.len(),
        forall|k: int| i <= k < j ==> is_digit_byte(#[trigger] s[k]),
        j < s.len() ==> !is_digit_byte(s[j]),
    ensures
        digits_end(s, i) == j,
    decreases j - i,
{
    if i < j {
        lemma_digits_end_at(s, i + 1, j);
    }
}

pub proof fn lemma_token_end_at(s: Seq<u8>, i: int, j: int)
    requires
        0 <= i <= j <= s.len(),
        forall|k: int| i <= k < j ==> !is_ws_byte(#[trigger] s[k]),
        j < s.len() ==> is_ws_byte(s[j]),
    ensures
        token_end(s, i) == j,
    decreases j - i,
{
    if i < j {
        lemma_token_end_at(s, i + 1, j);
    }
}

pub proof fn lemma_split_token_end_at(s: Seq<u8>, i: int, j: int)
    requires
        0 <= i <= j <= s.len(),
        forall|k: int| i <= k < j ==> !is_split_ws(#[trigger] s[k]),
        j < s.len() ==> is_split_ws(s[j]),
    ensures
        split_token_end(s, i) == j,
    decreases j - i,
{
    if i < j {
        lemma_split_token_end_at(s, i + 1, j);
    }
}

/// `s` with no whitespace at either end trims to itself.
pub proof fn lemma_trim_ws_id(s: Seq<u8>)
    requires
        s.len() > 0,
        !is_ws_byte(s[0]),
        !is_ws_byte(s.last()),
    ensures
        trim_ws(s) == s,
{
    assert(ws_end(s, 0) == 0);
    assert(ws_start_back(s, 0, s.len() as int) == s.len());
    assert(s.subrange(0, s.len() as int) =~= s);
}

/// Text that starts and ends with a graphic byte trims to itself under
/// Unicode whitespace trimming too.
pub proof fn lemma_trim_uws_id(s: Seq<u8>)
    requires
        s.len() > 0,
        is_graphic(s[0]),
        is_graphic(s.last()),
    ensures
        trim_uws(s) == s,
{
    assert(uws_prefix(s) == 0);
    assert(trim_start_uws(s) == s);
    assert(uws_suffix(s) == 0);
    assert(trim_end_uws(s) == s);
}

/// Bytes below 0x80 are valid UTF-8.
pub proof fn lemma_ascii_utf8(s: Seq<u8>)
    requires
        forall|k: int| 0 <= k < s.len() ==> #[trigger] s[k] < 0x80,
    ensures
        valid_utf8(s),
    decreases s.len(),
{
    if s.len() > 0 {
        let b = s[0];
        assert(b & 0x7f <= 0x7f) by (bit_vector);
        assert(valid_first_scalar(s));
        let rest = pop_first_scalar(s);
        assert(rest =~= s.subrange(1, s.len() as int));
        assert forall|k: int| 0 <= k < rest.len() implies #[trigger] rest[k] < 0x80 by {
            assert(rest[k] == s[k + 1]);
        }
        lemma_ascii_utf8(rest);
    }
}

pub proof fn lemma_graphic_utf8(s: Seq<u8>)
    requires
        all_graphic(s),
    ensures
        valid_utf8(s),
{
    assert forall|k: int| 0 <= k < s.len() implies #[trigger] s[k] < 0x80 by {
        assert(is_graphic(s[k]));
    }
    lemma_ascii_utf8(s);
}

/// The decimal spelling of a number is graphic text that reads back, as
/// an unsigned integer, to that number.
pub proof fn lemma_dec_digits_text(n: nat)
    requires
        n <= u32::MAX,
    ensures
        all_graphic(dec_digits(n)),
        valid_utf8(dec_digits(n)),
        uint_text(dec_digits(n)) == Some(n as u32),
{
    let d = dec_digits(n);
    lemma_dec_digits_shape(n);
    assert forall|k: int| 0 <= k < d.len() implies is_graphic(#[trigger] d[k]) by {
        assert(is_digit_byte(d[k]));
    }
    lemma_graphic_utf8(d);
    lemma_trim_uws_id(d);
    assert(d[0] != 0x2b);
}

/// Skipping whitespace from `i` over a run of whitespace stops at the
/// first byte that is neither whitespace nor `#`.
pub proof fn lemma_skip_wsc_at(s: Seq<u8>, i: int, j: int)
    requires
        0 <= i <= j < s.len(),
        forall|k: int| i <= k < j ==> is_ws_byte(#[trigger] s[k]),
        !is_ws_byte(s[j]),
        s[j] != 0x23,
    ensures
        skip_wsc(s, i) == j,
    decreases j - i,
{
    if i < j {
        lemma_skip_wsc_at(s, i + 1, j);
    }
}

/// A header integer written as its decimal spelling at `i` (after a run
/// of whitespace from `i0`) and ended by one whitespace byte reads back
/// as that integer, leaving the reader just past the whitespace byte.
pub proof fn lemma_uint_token(s: Seq<u8>, i0: int, i: int, n: nat)
    requires
        0 <= i0 <= i,
        n <= u32::MAX,
        i + dec_digits(n).len() < s.len(),
        s.subrange(i, i + dec_digits(n).len()) == dec_digits(n),
        is_ws_byte(s[i + dec_digits(n).len()]),
        forall|k: int| i0 <= k < i ==> is_ws_byte(#[trigger] s[k]),
    ensures
        header_uint(s, i0) == Ok::<(u32, int), Fail>((n as u32, i + dec_digits(n).len() + 1)),
{
    let d = dec_digits(n);
    let l = d.len() as int;
    lemma_dec_digits_shape(n);
    assert(s[i] == d[0]);
    assert(is_digit_byte(s[i]));
    lemma_skip_wsc_at(s, i0, i);
    assert forall|k: int| i <= k < i + l implies is_digit_byte(#[trigger] s[k]) by {
        assert(s[k] == d[k - i]);
    }
    lemma_digits_end_at(s, i, i + l);
    assert(dec_value(s.subrange(i, i + l)) == n);
}

// ---------------------------------------------------------------------------
// Rows of a tightly packed plane
// ---------------------------------------------------------------------------

/// The rows of a plane whose stride is its row size, each transformed by
/// `op`, laid end to end: byte `k` is byte `k % rb` of transformed row
/// `k / rb`.
pub proof fn lemma_rows_tight(data: Seq<u8>, rb: int, n: int, op: RowOp, w: int)
    requires
        0 < rb,
        0 <= n,
        n * rb <= data.len(),
    ensures
        rows_spec(data, rb, rb, n, op, w).len() == n * rb,
        forall|k: int|
            0 <= k < n * rb ==> #[trigger] rows_spec(data, rb, rb, n, op, w)[k] == apply_op(
                op,
                w,
                row_at(data, rb, rb, k / rb),
            )[k % rb],
    decreases n,
{
    if n == 0 {
        assert(n * rb == 0) by (nonlinear_arith)
            requires
                n == 0,
        ;
    } else {
        assert((n - 1) * rb + rb == n * rb) by (nonlinear_arith);
        assert(0 <= (n - 1) * rb) by (nonlinear_arith)
            requires
                n >= 1,
                rb > 0,
        ;
        lemma_rows_tight(data, rb, n - 1, op, w);
        let prev = rows_spec(data, rb, rb, n - 1, op, w);
        let row = apply_op(op, w, row_at(data, rb, rb, n - 1));
        assert(row.len() == rb);
        let all = rows_spec(data, rb, rb, n, op, w);
        assert(all == prev + row);
        assert forall|k: int| 0 <= k < n * rb implies #[trigger] all[k] == apply_op(
            op,
            w,
            row_at(data, rb, rb, k / rb),
        )[k % rb] by {
            if k >= (n - 1) * rb {
                lemma_fundamental_div_mod_converse(k, rb, n - 1, k - (n - 1) * rb);
            }
        }
    }
}

/// The last `n` rows of an `h`-row tightly packed plane, bottom to top:
/// byte `k` is byte `k % rb` of transformed row `h - 1 - k / rb`.
pub proof fn lemma_rows_rev_tight(data: Seq<u8>, rb: int, h: int, n: int, op: RowOp, w: int)
    requires
        0 < rb,
        0 <= n <= h,
        h * rb <= data.len(),
    ensures
        rows_rev_spec(data, rb, rb, h, n, op, w).len() == n * rb,
        forall|k: int|
            0 <= k < n * rb ==> #[trigger] rows_rev_spec(data, rb, rb, h, n, op, w)[k] == apply_op(
                op,
                w,
                row_at(data, rb, rb, h - 1 - k / rb),
            )[k % rb],
    decreases n,
{
    if n == 0 {
        assert(n * rb == 0) by (nonlinear_arith)
            requires
                n == 0,
        ;
    } else {
        assert((n - 1) * rb + rb == n * rb) by (nonlinear_arith);
        assert((h - n) * rb + rb <= h * rb) by (nonlinear_arith)
            requires
                n >= 1,
                rb > 0,
        ;
        assert(0 <= (h - n) * rb) by (nonlinear_arith)
            requires
                n <= h,
                rb > 0,
        ;
        lemma_rows_rev_tight(data, rb, h, n - 1, op, w);
        let prev = rows_rev_spec(data, rb, rb, h, n - 1, op, w);
        let row = apply_op(op, w, row_at(data, rb, rb, h - n));
        assert(row.len() == rb);
        let all = rows_rev_spec(data, rb, rb, h, n, op, w);
        assert(all == prev + row);
        assert forall|k: int| 0 <= k < n * rb implies #[trigger] all[k] == apply_op(
            op,
            w,
            row_at(data, rb, rb, h - 1 - k / rb),
        )[k % rb] by {
            if k >= (n - 1) * rb {
                lemma_fundamental_div_mod_converse(k, rb, n - 1, k - (n - 1) * rb);
            }
        }
    }
}

/// Byte `k` of row `k / rb` of a tightly packed plane, at offset `k % rb`,
/// is byte `k` of the plane.
pub proof fn lemma_row_byte(data: Seq<u8>, rb: int, h: int, k: int)
    requires
        0 < rb,
        0 <= k < h * rb,
        h * rb <= data.len(),
    ensures
        0 <= k / rb < h,
        0 <= k % rb < rb,
        (k / rb) * rb + k % rb == k,
        (k / rb) * rb + rb <= h * rb,
        row_at(data, rb, rb, k / rb).len() == rb,
        row_at(data, rb, rb, k / rb)[k % rb] == data[k],
{
    assert((k / rb) * rb + k % rb == k && 0 <= k % rb < rb && 0 <= k / rb < h) by (nonlinear_arith)
        requires
            0 < rb,
            0 <= k < h * rb,
    ;
    assert((k / rb) * rb + rb <= h * rb) by (nonlinear_arith)
        requires
            0 <= k / rb < h,
            0 < rb,
    ;
}

// ---------------------------------------------------------------------------
// The images the decoder produces
// ---------------------------------------------------------------------------

/// An image in the shape the decoder gives every image: non-zero
/// dimensions, a pixel format the decoder emits (any but `Bgra`), rows
/// packed without padding (the stride is the format's row size), exactly
/// `stride * height` bytes (a size that fits in memory), and for
/// `MonoBlack` the unused low bits of each row's last byte clear.
pub open spec fn canonical(d: DecodedModel) -> bool {
    let rb = min_row_bytes_spec(d.format, d.width as nat);
    &&& d.width > 0
    &&& d.height > 0
    &&& d.format != PbmPixelFormat::Bgra
    &&& d.stride == rb
    &&& d.data.len() == rb * d.height
    &&& rb * d.height <= usize::MAX
    &&& d.format == PbmPixelFormat::MonoBlack ==> forall|k: int|
        0 <= k < d.data.len() ==> #[trigger] d.data[k] & pad_mask(
            bits_in_byte(d.width as int, k % (rb as int)),
        ) == d.data[k]
}

/// An image in the decoder's shape holds every row of its plane.
pub proof fn lemma_canonical_rows_fit(d: DecodedModel)
    requires
        canonical(d),
    ensures
        rows_fit(
            d.data.len() as int,
            d.stride as int,
            min_row_bytes_spec(d.format, d.width as nat) as int,
            d.height as int,
        ),
{
    let rb = d.stride as int;
    let h = d.height as int;
    assert((h - 1) * rb + rb == rb * h) by (nonlinear_arith);
}

/// Eight bits, zero from bit `n` on, packed most significant first, are
/// left unchanged by the mask that keeps the first `n` bits.
pub proof fn lemma_packed_bits_masked(f: spec_fn(int) -> u8, n: u8)
    requires
        1 <= n <= 8,
        forall|j: int| 0 <= j < 8 ==> #[trigger] f(j) <= 1,
        forall|j: int| n <= j < 8 ==> #[trigger] f(j) == 0,
    ensures
        0 <= pack_msb(f, 8) < 256,
        (pack_msb(f, 8) as u8) & pad_mask(n) == pack_msb(f, 8) as u8,
{
    reveal_with_fuel(pack_msb, 9);
    let t0 = f(0);
    let t1 = f(1);
    let t2 = f(2);
    let t3 = f(3);
    let t4 = f(4);
    let t5 = f(5);
    let t6 = f(6);
    let t7 = f(7);
    assert(pack_msb(f, 8) == t0 * 128 + t1 * 64 + t2 * 32 + t3 * 16 + t4 * 8 + t5 * 4 + t6 * 2
        + t7);
    assert(((t0 * 128 + t1 * 64 + t2 * 32 + t3 * 16 + t4 * 8 + t5 * 4 + t6 * 2 + t7) as u8) & ((
    0xff00u16 >> n) as u8) == (t0 * 128 + t1 * 64 + t2 * 32 + t3 * 16 + t4 * 8 + t5 * 4 + t6 * 2
        + t7) as u8) by (bit_vector)
        requires
            1 <= n <= 8,
            t0 <= 1 && t1 <= 1 && t2 <= 1 && t3 <= 1 && t4 <= 1 && t5 <= 1 && t6 <= 1 && t7 <= 1,
            n <= 1 ==> t1 == 0,
            n <= 2 ==> t2 == 0,
            n <= 3 ==> t3 == 0,
            n <= 4 ==> t4 == 0,
            n <= 5 ==> t5 == 0,
            n <= 6 ==> t6 == 0,
            n <= 7 ==> t7 == 0,
    ;
}

/// A decoded `MonoBlack` byte has its row padding clear.
pub proof fn lemma_mono_byte_padded(m: HeaderModel, smp: Seq<u16>, k: int)
    requires
        m.width > 0,
        0 <= k,
    ensures
        plane_byte(m, PbmPixelFormat::MonoBlack, smp, k) & pad_mask(
            bits_in_byte(m.width as int, k % bit_row_bytes(m.width as int)),
        ) == plane_byte(m, PbmPixelFormat::MonoBlack, smp, k),
{
    let w = m.width as int;
    let rb = bit_row_bytes(w);
    let y = k / rb;
    let bx = k % rb;
    assert(0 <= bx < rb && 8 * bx <= w - 1) by (nonlinear_arith)
        requires
            w > 0,
            rb == (w + 7) / 8,
            bx == k % rb,
    ;
    let n = bits_in_byte(w, bx);
    let f = |j: int|
        if bx * 8 + j < w {
            mono_bit(m, smp[y * w + bx * 8 + j])
        } else {
            0u8
        };
    assert forall|j: int| n <= j < 8 implies #[trigger] f(j) == 0 by {}
    lemma_packed_bits_masked(f, n);
}

/// Every image the decoder produces is in that shape.
pub proof fn lemma_decode_canonical(s: Seq<u8>)
    requires
        decode_spec(s) is Ok,
        s.len() <= usize::MAX,
    ensures
        canonical(decode_spec(s)->Ok_0),
{
    lemma_header_wf(s);
    lemma_header_offset(s);
    let m = header_spec(s)->Ok_0;
    let d = decode_spec(s)->Ok_0;
    lemma_row_bytes(d.format, d.width as nat);
    if m.magic.spec_is_pfm() {
        assert(0 <= pfm_row_bytes(m) * m.height) by (nonlinear_arith)
            requires
                pfm_row_bytes(m) == m.width * m.depth * 4,
        ;
        let rb = min_row_bytes_spec(d.format, d.width as nat);
        assert(pfm_row_bytes(m) == if m.depth == 3 { 12 * m.width } else { 4 * m.width })
            by (nonlinear_arith)
            requires
                pfm_row_bytes(m) == m.width * m.depth * 4,
                m.depth == 1 || m.depth == 3,
        ;
        assert(d.stride == rb);
        assert(d.data.len() == rb * d.height);
        assert(rb * d.height <= usize::MAX);
        assert(d.format != PbmPixelFormat::Bgra);
    } else {
        lemma_format_depth(m);
        let rb = min_row_bytes_spec(d.format, d.width as nat);
        if d.format == PbmPixelFormat::MonoBlack {
            let smp = body_spec(m, s.subrange(m.data_offset as int, s.len() as int))->Ok_0.0;
            assert forall|k: int| 0 <= k < d.data.len() implies #[trigger] d.data[k] & pad_mask(
                bits_in_byte(d.width as int, k % (rb as int)),
            ) == d.data[k] by {
                lemma_mono_byte_padded(m, smp, k);
            }
        }
    }
}

// ---------------------------------------------------------------------------
// Reading back the headers the encoder writes
// ---------------------------------------------------------------------------

/// The PNM header the encoders write (`P1` to `P6`) parses back
/// to its dimensions and maxval, with the pixel data right after it.
pub proof fn lemma_pnm_header(m: Magic, w: u32, h: u32, mv: Option<nat>, body: Seq<u8>)
    requires
        m != Magic::P7Pam,
        !m.spec_is_pfm(),
        (m == Magic::P1AsciiBitmap || m == Magic::P4BinaryBitmap) == (mv is None),
        mv matches Some(v) ==> 1 <= v <= 65535,
        w > 0,
        h > 0,
    ensures
        header_spec(pnm_header_bytes(magic_digit(m), w as nat, h as nat, mv) + body) == Ok::<
            HeaderModel,
            Fail,
        >(
            pnm_model(
                m,
                w,
                h,
                match mv {
                    Some(v) => v as u32,
                    None => 1,
                },
                pnm_header_bytes(magic_digit(m), w as nat, h as nat, mv).len() as int,
            ),
        ),
{
    let hdr = pnm_header_bytes(magic_digit(m), w as nat, h as nat, mv);
    let s = hdr + body;
    let dw = dec_digits(w as nat);
    let dh = dec_digits(h as nat);
    let lw = dw.len() as int;
    let lh = dh.len() as int;
    lemma_dec_digits_shape(w as nat);
    lemma_dec_digits_shape(h as nat);
    assert(magic_of(s) == Some(m));
    assert(s.subrange(3, 3 + lw) =~= dw);
    assert(s[3 + lw] == 0x20);
    lemma_uint_token(s, 2, 3, w as nat);
    let i2 = 4 + lw;
    assert(s.subrange(i2, i2 + lh) =~= dh);
    assert(s[i2 + lh] == 0x0a);
    lemma_uint_token(s, i2, i2, h as nat);
    let i3 = i2 + lh + 1;
    match mv {
        None => {
            assert(hdr.len() == i3);
        },
        Some(v) => {
            let dm = dec_digits(v);
            let lm = dm.len() as int;
            lemma_dec_digits_shape(v);
            assert(s.subrange(i3, i3 + lm) =~= dm);
            assert(s[i3 + lm] == 0x0a);
            lemma_uint_token(s, i3, i3, v);
            assert(hdr.len() == i3 + lm + 1);
        },
    }
}

/// One `KEY value` line of a PAM header, graphic key and value separated
/// by one space: the header reader applies it and goes on after its LF.
pub proof fn lemma_pam_kv_line(s: Seq<u8>, i: int, key: Seq<u8>, value: Seq<u8>, a: PamFields)
    requires
        0 <= i,
        i + key.len() + value.len() + 2 <= s.len(),
        s.subrange(i, i + key.len() + value.len() + 2) == pam_line(key, value),
        key.len() >= 5,
        value.len() >= 1,
        all_graphic(key),
        all_graphic(value),
        key[0] != 0x23,
    ensures
        pam_lines(s, i, a) == match pam_step(key, value, a) {
            Ok(a2) => pam_lines(s, i + key.len() + value.len() + 2, a2),
            Err(f) => Err(f),
        },
{
    let lk = key.len() as int;
    let lv = value.len() as int;
    let e = i + lk + 1 + lv;
    let line = pam_line(key, value);
    assert(line[lk] == 0x20);
    assert(s[e] == line[lk + 1 + lv]);
    assert forall|k: int| i <= k < e implies #[trigger] s[k] != 0x0a by {
        assert(s[k] == line[k - i]);
        if k - i < lk {
            assert(is_graphic(key[k - i]));
        } else if k - i > lk {
            assert(is_graphic(value[k - i - lk - 1]));
        }
    }
    lemma_find_byte_at(s, 0x0a, i, e);
    let raw = s.subrange(i, e);
    assert(raw =~= key + seq![0x20u8] + value);
    assert(is_graphic(value[lv - 1]));
    assert(raw.last() == value[lv - 1]);
    assert(is_graphic(key[0]));
    assert(raw[0] == key[0]);
    lemma_trim_ws_id(raw);
    let t = trim_ws(raw);
    assert(t.len() != key_endhdr().len());
    assert forall|k: int| 0 <= k < lk implies !is_ws_byte(#[trigger] t[k]) by {
        assert(t[k] == key[k]);
        assert(is_graphic(key[k]));
    }
    lemma_token_end_at(t, 0, lk);
    assert(t.subrange(0, lk) =~= key);
    assert(t[lk + 1] == value[0]);
    assert(is_graphic(value[0]));
    assert(ws_end(t, lk + 1) == lk + 1);
    assert(ws_end(t, lk) == lk + 1);
    let rest = t.subrange(lk + 1, t.len() as int);
    assert(rest =~= value);
    lemma_trim_ws_id(value);
}

/// The `ENDHDR` line ends the PAM header.
pub proof fn lemma_pam_end_line(s: Seq<u8>, i: int, a: PamFields)
    requires
        0 <= i,
        i + 7 <= s.len(),
        s.subrange(i, i + 7) == key_endhdr() + seq![0x0au8],
    ensures
        pam_lines(s, i, a) == Ok::<(PamFields, int), Fail>((a, i + 7)),
{
    let e = i + 6;
    assert forall|k: int| i <= k < e implies #[trigger] s[k] != 0x0a by {
        assert(s[k] == (key_endhdr() + seq![0x0au8])[k - i]);
    }
    assert(s[e] == (key_endhdr() + seq![0x0au8])[6]);
    lemma_find_byte_at(s, 0x0a, i, e);
    let raw = s.subrange(i, e);
    assert(raw =~= key_endhdr());
    lemma_trim_ws_id(raw);
}

/// The tuple-type names the encoder writes are graphic text that reads
/// back as their tuple types.
pub proof fn lemma_tupl_name(t: TuplModel)
    requires
        t == TuplModel::RgbAlpha || t == TuplModel::GrayscaleAlpha || t == TuplModel::Grayscale
            || t == TuplModel::Rgb,
    ensures
        tupl_name_bytes(t).len() >= 1,
        all_graphic(tupl_name_bytes(t)),
        valid_utf8(tupl_name_bytes(t)),
        tupl_parse_spec(tupl_name_bytes(t)) == Ok::<TuplModel, Fail>(t),
{
    let n = tupl_name_bytes(t);
    if t == TuplModel::RgbAlpha {
        assert(n =~= seq![0x52u8, 0x47, 0x42, 0x5f, 0x41, 0x4c, 0x50, 0x48, 0x41]);
        assert(n[0] != name_grayscale()[0]);
    } else if t == TuplModel::GrayscaleAlpha {
        assert(n =~= seq![
            0x47u8, 0x52, 0x41, 0x59, 0x53, 0x43, 0x41, 0x4c, 0x45, 0x5f, 0x41, 0x4c, 0x50, 0x48,
            0x41,
        ]);
    } else if t == TuplModel::Grayscale {
        assert(n =~= seq![0x47u8, 0x52, 0x41, 0x59, 0x53, 0x43, 0x41, 0x4c, 0x45]);
    } else {
        assert(n =~= seq![0x52u8, 0x47, 0x42]);
    }
    lemma_standard_tupl_round_trip(t);
    assert(all_graphic(n));
    lemma_graphic_utf8(n);
    lemma_trim_uws_id(n);
}

/// Each of the six standard tuple-type names reads back as its tuple type.
pub proof fn lemma_standard_tupl_round_trip(t: TuplModel)
    requires
        !(t is Custom),
    ensures
        tupl_parse_spec(tupl_name_bytes(t)) == Ok::<TuplModel, Fail>(t),
{
    let n = tupl_name_bytes(t);
    let bw = name_blackandwhite();
    let gr = name_grayscale();
    let rgb = name_rgb();
    let al = suffix_alpha();
    assert((rgb + al)[0] != gr[0]);
    assert(gr.len() == 9 && (rgb + al).len() == 9 && bw.len() == 13 && rgb.len() == 3);
    assert((bw + al).len() == 19 && (gr + al).len() == 15);
    assert(gr != rgb + al) by {
        assert(gr[0] != (rgb + al)[0]);
    }
    assert(n.len() > 0);
    assert(all_graphic(n)) by {
        assert forall|k: int| 0 <= k < n.len() implies #[trigger] is_graphic(n[k]) by {
            if t == TuplModel::BlackAndWhiteAlpha || t == TuplModel::GrayscaleAlpha || t
                == TuplModel::RgbAlpha {
                let base = if t == TuplModel::BlackAndWhiteAlpha {
                    bw
                } else if t == TuplModel::GrayscaleAlpha {
                    gr
                } else {
                    rgb
                };
                assert(n == base + al);
                if k < base.len() {
                    assert(n[k] == base[k]);
                } else {
                    assert(n[k] == al[k - base.len()]);
                }
            }
        }
    }
    lemma_graphic_utf8(n);
    lemma_trim_uws_id(n);
}

/// Tuple-type parsing: text that trims (Unicode whitespace) to nothing is
/// refused; any other UTF-8 text reads as the tuple type whose name is the
/// trimmed text, a custom one exactly when that is none of the six
/// standard names.
pub proof fn lemma_tupl_parse_cases(name: Seq<u8>)
    requires
        valid_utf8(trim_uws(name)),
    ensures
        (tupl_parse_spec(name) is Err) <==> trim_uws(name).len() == 0,
        tupl_parse_spec(name) matches Ok(t) ==> tupl_name_bytes(t) == trim_uws(name),
        tupl_parse_spec(name) matches Ok(t) ==> ((t is Custom) <==> !(trim_uws(name)
            == name_blackandwhite() || trim_uws(name) == name_grayscale() || trim_uws(name)
            == name_rgb() || trim_uws(name) == name_blackandwhite() + suffix_alpha()
            || trim_uws(name) == name_grayscale() + suffix_alpha() || trim_uws(name) == name_rgb()
            + suffix_alpha())),
{
    let t = trim_uws(name);
    if tupl_parse_spec(name) matches Ok(TuplModel::Custom(c)) {
        vstd::utf8::decode_utf8_encode_utf8(t);
    }
}

/// `KEY <decimal>` lines of the PAM header.
pub proof fn lemma_pam_uint_line(s: Seq<u8>, i: int, key: Seq<u8>, n: nat, a: PamFields)
    requires
        0 <= i,
        n <= u32::MAX,
        i + key.len() + dec_digits(n).len() + 2 <= s.len(),
        s.subrange(i, i + key.len() + dec_digits(n).len() + 2) == pam_line(key, dec_digits(n)),
        key == key_width() || key == key_height() || key == key_depth() || key == key_maxval(),
    ensures
        pam_lines(s, i, a) == if key == key_width() {
            pam_lines(s, i + key.len() + dec_digits(n).len() + 2, PamFields { width: Some(n as u32), ..a })
        } else if key == key_height() {
            pam_lines(s, i + key.len() + dec_digits(n).len() + 2, PamFields { height: Some(n as u32), ..a })
        } else if key == key_depth() {
            pam_lines(s, i + key.len() + dec_digits(n).len() + 2, PamFields { depth: Some(n as u32), ..a })
        } else if 1 <= n <= 65535 {
            pam_lines(s, i + key.len() + dec_digits(n).len() + 2, PamFields { maxval: Some(n as u32), ..a })
        } else {
            Err(Fail::Invalid(crate::header::maxval_text(true, n as u32)))
        },
{
    lemma_dec_digits_text(n);
    lemma_dec_digits_shape(n);
    assert(key_height() != key_width());
    assert(key_depth() != key_width()) by {
        assert(key_depth()[0] != key_width()[0]);
    }
    assert(key_depth() != key_height());
    assert(key_maxval() != key_width());
    assert(key_maxval() != key_height()) by {
        assert(key_maxval()[0] != key_height()[0]);
    }
    assert(key_maxval() != key_depth());
    assert(all_graphic(key));
    lemma_pam_kv_line(s, i, key, dec_digits(n), a);
}

/// The PAM header the encoder writes parses back to its fields, with the
/// pixel data right after `ENDHDR`.
#[verifier::spinoff_prover]
#[verifier::rlimit(60)]
pub proof fn lemma_pam_header(w: u32, h: u32, depth: u32, maxval: u32, t: TuplModel, body: Seq<u8>)
    requires
        w > 0,
        h > 0,
        1 <= maxval <= 65535,
        (t == TuplModel::RgbAlpha && depth == 4) || (t == TuplModel::GrayscaleAlpha && depth == 2)
            || (t == TuplModel::Grayscale && depth == 1) || (t == TuplModel::Rgb && depth == 3),
    ensures
        header_spec(
            pam_header_bytes(w as nat, h as nat, depth as nat, maxval as nat, tupl_name_bytes(t))
                + body,
        ) == Ok::<HeaderModel, Fail>(
            HeaderModel {
                magic: Magic::P7Pam,
                width: w,
                height: h,
                maxval: maxval,
                depth: depth,
                tupl: Some(t),
                data_offset: pam_header_bytes(
                    w as nat,
                    h as nat,
                    depth as nat,
                    maxval as nat,
                    tupl_name_bytes(t),
                ).len(),
                pfm: None,
            },
        ),
{
    let name = tupl_name_bytes(t);
    let hdr = pam_header_bytes(w as nat, h as nat, depth as nat, maxval as nat, name);
    let s = hdr + body;
    let l1 = pam_line(key_width(), dec_digits(w as nat));
    let l2 = pam_line(key_height(), dec_digits(h as nat));
    let l3 = pam_line(key_depth(), dec_digits(depth as nat));
    let l4 = pam_line(key_maxval(), dec_digits(maxval as nat));
    let l5 = pam_line(key_tupltype(), name);
    let l6 = key_endhdr() + seq![0x0au8];
    assert(hdr =~= seq![0x50u8, 0x37u8, 0x0au8] + l1 + l2 + l3 + l4 + l5 + l6);
    assert(magic_of(s) == Some(Magic::P7Pam));
    lemma_find_byte_at(s, 0x0a, 2, 2);
    let i1: int = 3;
    let i2: int = i1 + l1.len();
    let i3: int = i2 + l2.len();
    let i4: int = i3 + l3.len();
    let i5: int = i4 + l4.len();
    let i6: int = i5 + l5.len();
    assert(s.subrange(i1, i2) =~= l1);
    assert(s.subrange(i2, i3) =~= l2);
    assert(s.subrange(i3, i4) =~= l3);
    assert(s.subrange(i4, i5) =~= l4);
    assert(s.subrange(i5, i6) =~= l5);
    assert(s.subrange(i6, i6 + 7) =~= l6);
    let a0 = no_pam_fields();
    let a1 = PamFields { width: Some(w), ..a0 };
    let a2 = PamFields { height: Some(h), ..a1 };
    let a3 = PamFields { depth: Some(depth), ..a2 };
    let a4 = PamFields { maxval: Some(maxval), ..a3 };
    let a5 = PamFields { tupl: Some(t), ..a4 };
    lemma_pam_uint_line(s, i1, key_width(), w as nat, a0);
    lemma_pam_uint_line(s, i2, key_height(), h as nat, a1);
    lemma_pam_uint_line(s, i3, key_depth(), depth as nat, a2);
    lemma_pam_uint_line(s, i4, key_maxval(), maxval as nat, a3);
    lemma_tupl_name(t);
    assert(all_graphic(key_tupltype()));
    lemma_pam_kv_line(s, i5, key_tupltype(), name, a4);
    lemma_pam_end_line(s, i6, a5);
    assert(hdr.len() == i6 + 7);
}

/// The scale line `-1.0` the encoder writes for a little-endian float map.
pub open spec fn neg_unit_scale() -> Seq<u8> {
    seq![0x2du8] + unit_scale()
}

/// `-1.0` reads back as a valid scale: little-endian, literal kept.
pub proof fn lemma_neg_unit_scale()
    ensures
        scale_spec(neg_unit_scale()) == Ok::<PfmModel, Fail>(
            PfmModel { little_endian: true, scale_literal: neg_unit_scale() },
        ),
{
    let t = neg_unit_scale();
    assert(t =~= seq![0x2du8, 0x31, 0x2e, 0x30]);
    assert(all_graphic(t));
    lemma_graphic_utf8(t);
    lemma_trim_uws_id(t);
    let u = unsigned_part(t);
    assert(u =~= seq![0x31u8, 0x2e, 0x30]);
    let b = lowered(u);
    assert(b =~= seq![0x31u8, 0x2e, 0x30]);
    assert(find_byte(b, 0x65, 3) == 3);
    assert(find_byte(b, 0x65, 2) == 3);
    assert(find_byte(b, 0x65, 1) == 3);
    assert(find_byte(b, 0x65, 0) == 3);
    let mm = b.subrange(0, 3);
    assert(mm =~= b);
    assert(find_byte(mm, 0x2e, 1) == 1);
    assert(find_byte(mm, 0x2e, 0) == 1);
    assert(mm.subrange(0, 1) =~= seq![0x31u8]);
    assert(mm.subrange(2, 3) =~= seq![0x30u8]);
    assert(all_digits(mm.subrange(0, 1)));
    assert(all_digits(mm.subrange(2, 3)));
    assert(mantissa_ok(mm));
    assert(b.subrange(3, 3).len() == 0);
    assert(float_literal(t));
    assert(b != word_nan()) by {
        assert(b[0] != word_nan()[0]);
    }
    assert(b != word_inf()) by {
        assert(b[0] != word_inf()[0]);
    }
    assert(b != word_infinity());
    // As a number: digits `10`, one after the point, no exponent.
    assert(lit_text(t) == b);
    assert(lit_exp_at(t) == 3);
    assert(lit_mantissa(t) == mm);
    assert(lit_exponent_text(t) =~= Seq::<u8>::empty());
    assert(number_literal(t));
    assert(lit_point(t) == 1);
    assert(lit_digits(t) =~= seq![0x31u8, 0x30]);
    assert(lit_frac_len(t) == 1);
    assert(lit_exponent(t) == 0);
    let ten = seq![0x31u8, 0x30];
    assert(ten.drop_last() =~= seq![0x31u8]);
    assert(seq![0x31u8].drop_last() =~= Seq::<u8>::empty());
    assert(dec_value(Seq::<u8>::empty()) == 0);
    assert(dec_value(seq![0x31u8]) == 1);
    assert(dec_value(ten) == 10);
    assert(p10(1) == 10) by {
        reveal_with_fuel(p10, 2);
    }
    assert(!literal_overflows(t));
    assert(two_pow_150() > 1);
    assert(10 * two_pow_150() > 10) by (nonlinear_arith)
        requires
            two_pow_150() > 1,
    ;
    assert(!literal_underflows(t));
}

/// The dimension line `<w> <h>` of a float map reads back as the two
/// numbers, and holds no LF, CR or `#`.
pub proof fn lemma_dims_line(w: u32, h: u32)
    ensures
        ({
            let dims = dec_digits(w as nat) + seq![0x20u8] + dec_digits(h as nat);
            &&& forall|k: int|
                0 <= k < dims.len() ==> #[trigger] dims[k] != 0x0a && dims[k] != 0x0d && dims[k]
                    != 0x23
            &&& two_uints_spec(dims) == Ok::<(u32, u32), Fail>((w, h))
        }),
{
    let dw = dec_digits(w as nat);
    let dh = dec_digits(h as nat);
    let lw = dw.len() as int;
    lemma_dec_digits_text(w as nat);
    lemma_dec_digits_text(h as nat);
    lemma_dec_digits_shape(w as nat);
    lemma_dec_digits_shape(h as nat);
    let dims = dw + seq![0x20u8] + dh;
    assert forall|k: int| 0 <= k < dims.len() implies #[trigger] dims[k] < 0x80 && (dims[k]
        == 0x20 || is_digit_byte(dims[k])) by {
        if k < lw {
            assert(is_digit_byte(dw[k]));
        } else if k > lw {
            assert(is_digit_byte(dh[k - 1 - lw]));
        }
    }
    lemma_ascii_utf8(dims);
    assert(split_ws_end(dims, 0) == 0) by {
        assert(is_digit_byte(dims[0]));
    }
    assert forall|k: int| 0 <= k < lw implies !is_split_ws(#[trigger] dims[k]) by {
        assert(is_digit_byte(dw[k]));
    }
    lemma_split_token_end_at(dims, 0, lw);
    assert(dims[lw + 1] == dh[0]);
    assert(split_ws_end(dims, lw + 1) == lw + 1);
    assert(split_ws_end(dims, lw) == lw + 1);
    assert forall|k: int| lw + 1 <= k < dims.len() implies !is_split_ws(#[trigger] dims[k]) by {
        assert(is_digit_byte(dh[k - lw - 1]));
    }
    lemma_split_token_end_at(dims, lw + 1, dims.len() as int);
    assert(dims.subrange(0, lw) =~= dw);
    assert(dims.subrange(lw + 1, dims.len() as int) =~= dh);
}

/// The scale line a float-map writer prints: a `-` for little-endian, then
/// the magnitude text.
pub open spec fn pfm_scale_line(little_endian: bool, magnitude: Seq<u8>) -> Seq<u8> {
    (if little_endian {
        seq![0x2du8]
    } else {
        Seq::empty()
    }) + magnitude
}

/// A Portable FloatMap header as the writer prints it parses back to its
/// dimensions and to the scale line's reading, with the raster right after
/// it, whenever that scale line is one the reader accepts.
#[verifier::spinoff_prover]
#[verifier::rlimit(60)]
pub proof fn lemma_pfm_header(
    f: PbmPixelFormat,
    w: u32,
    h: u32,
    little_endian: bool,
    magnitude: Seq<u8>,
    body: Seq<u8>,
)
    requires
        f == PbmPixelFormat::GrayF32 || f == PbmPixelFormat::RgbF32,
        w > 0,
        h > 0,
        forall|k: int|
            0 <= k < magnitude.len() ==> #[trigger] magnitude[k] != 0x0a && magnitude[k] != 0x0d
                && magnitude[k] != 0x23,
        scale_spec(pfm_scale_line(little_endian, magnitude)) is Ok,
    ensures
        header_spec(pfm_header_bytes(f, w as nat, h as nat, little_endian, magnitude) + body)
            == Ok::<HeaderModel, Fail>(
            HeaderModel {
                magic: if f == PbmPixelFormat::RgbF32 {
                    Magic::PFPfmRgbFloat
                } else {
                    Magic::PfPfmGrayFloat
                },
                width: w,
                height: h,
                maxval: 0,
                depth: if f == PbmPixelFormat::RgbF32 {
                    3
                } else {
                    1
                },
                tupl: None,
                data_offset: pfm_header_bytes(f, w as nat, h as nat, little_endian, magnitude).len(),
                pfm: Some(scale_spec(pfm_scale_line(little_endian, magnitude))->Ok_0),
            },
        ),
{
    let hdr = pfm_header_bytes(f, w as nat, h as nat, little_endian, magnitude);
    let s = hdr + body;
    let dw = dec_digits(w as nat);
    let dh = dec_digits(h as nat);
    let id = seq![0x50u8, if f == PbmPixelFormat::RgbF32 {
        0x46u8
    } else {
        0x66u8
    }];
    let dims = dw + seq![0x20u8] + dh;
    let sc = pfm_scale_line(little_endian, magnitude);
    assert(hdr =~= id + seq![0x0au8] + dims + seq![0x0au8] + sc + seq![0x0au8]);
    // Line 1: the identifier.
    lemma_pfm_stop_at(s, 0, 2);
    assert(s.subrange(0, 2) =~= id);
    lemma_trim_ws_id(id);
    // Line 2: the dimensions.
    lemma_dims_line(w, h);
    let e2: int = 3 + dims.len() as int;
    assert forall|k: int| 3 <= k < e2 implies #[trigger] s[k] != 0x0a && s[k] != 0x0d && s[k]
        != 0x23 by {
        assert(s[k] == dims[k - 3]);
    }
    assert(s[e2] == 0x0a);
    lemma_pfm_stop_at(s, 3, e2);
    assert(s.subrange(3, e2) =~= dims);
    // Line 3: the scale.
    let i3: int = e2 + 1;
    let e3: int = i3 + sc.len() as int;
    assert forall|k: int| i3 <= k < e3 implies #[trigger] s[k] != 0x0a && s[k] != 0x0d && s[k]
        != 0x23 by {
        assert(s[k] == sc[k - i3]);
        if little_endian && k > i3 {
            assert(sc[k - i3] == magnitude[k - i3 - 1]);
        } else if !little_endian {
            assert(sc[k - i3] == magnitude[k - i3]);
        }
    }
    assert(s[e3] == 0x0a);
    lemma_pfm_stop_at(s, i3, e3);
    assert(s.subrange(i3, e3) =~= sc);
    assert(hdr.len() == e3 + 1);
}

// ---------------------------------------------------------------------------
// Re-encoding a decoded image
// ---------------------------------------------------------------------------

/// Rows copied unchanged give back the plane.
pub proof fn lemma_copy_rows_byte(data: Seq<u8>, rb: int, h: int, w: int, k: int)
    requires
        0 < rb,
        0 <= k < h * rb,
        h * rb <= data.len(),
    ensures
        rows_spec(data, rb, rb, h, RowOp::Copy, w)[k] == data[k],
{
    assert(0 <= h) by (nonlinear_arith)
        requires
            0 <= k < h * rb,
            0 < rb,
    ;
    lemma_rows_tight(data, rb, h, RowOp::Copy, w);
    lemma_row_byte(data, rb, h, k);
}

/// Rows of an even size with their byte pairs exchanged.
pub proof fn lemma_swap_rows_byte(data: Seq<u8>, rb: int, h: int, w: int, k: int)
    requires
        0 < rb,
        rb % 2 == 0,
        0 <= k < h * rb,
        h * rb <= data.len(),
    ensures
        k % 2 == 0 ==> k + 1 < h * rb,
        rows_spec(data, rb, rb, h, RowOp::SwapPairs, w)[k] == if k % 2 == 0 {
            data[k + 1]
        } else {
            data[k - 1]
        },
{
    assert(0 <= h) by (nonlinear_arith)
        requires
            0 <= k < h * rb,
            0 < rb,
    ;
    lemma_rows_tight(data, rb, h, RowOp::SwapPairs, w);
    lemma_row_byte(data, rb, h, k);
    let y = k / rb;
    let b = k % rb;
    let row = row_at(data, rb, rb, y);
    let q = rb / 2;
    assert(y * rb == 2 * (y * q)) by (nonlinear_arith)
        requires
            rb == 2 * q,
    ;
    assert(k % 2 == b % 2);
    if b % 2 == 0 {
        assert(row[b + 1] == data[y * rb + b + 1]);
    } else {
        assert(row[b - 1] == data[y * rb + b - 1]);
    }
}

/// The header [`binary_layout`] writes for a pixel format, as the reader
/// sees it.
pub open spec fn binary_model(f: PbmPixelFormat, w: u32, h: u32, off: nat) -> HeaderModel {
    match f {
        PbmPixelFormat::MonoBlack => pnm_model(Magic::P4BinaryBitmap, w, h, 1, off as int),
        PbmPixelFormat::Gray8 => pnm_model(Magic::P5BinaryGraymap, w, h, 255, off as int),
        PbmPixelFormat::Gray16Le => pnm_model(Magic::P5BinaryGraymap, w, h, 65535, off as int),
        PbmPixelFormat::Rgb24 => pnm_model(Magic::P6BinaryPixmap, w, h, 255, off as int),
        PbmPixelFormat::Rgb48Le => pnm_model(Magic::P6BinaryPixmap, w, h, 65535, off as int),
        _ => HeaderModel {
            magic: Magic::P7Pam,
            width: w,
            height: h,
            maxval: if f == PbmPixelFormat::Rgba64Le || f == PbmPixelFormat::Ya16Le {
                65535
            } else {
                255
            },
            depth: if f == PbmPixelFormat::Ya8 || f == PbmPixelFormat::Ya16Le {
                2
            } else {
                4
            },
            tupl: Some(
                if f == PbmPixelFormat::Ya8 || f == PbmPixelFormat::Ya16Le {
                    TuplModel::GrayscaleAlpha
                } else {
                    TuplModel::RgbAlpha
                },
            ),
            data_offset: off,
            pfm: None,
        },
    }
}

/// Every header [`binary_layout`] writes reads back as [`binary_model`].
pub proof fn lemma_binary_header(f: PbmPixelFormat, w: u32, h: u32, body: Seq<u8>)
    requires
        binary_layout(f, w as nat, h as nat) is Some,
        w > 0,
        h > 0,
    ensures
        ({
            let hdr = (binary_layout(f, w as nat, h as nat)->0).0;
            header_spec(hdr + body) == Ok::<HeaderModel, Fail>(binary_model(f, w, h, hdr.len()))
        }),
{
    match f {
        PbmPixelFormat::MonoBlack => lemma_pnm_header(Magic::P4BinaryBitmap, w, h, None, body),
        PbmPixelFormat::Gray8 => lemma_pnm_header(Magic::P5BinaryGraymap, w, h, Some(255), body),
        PbmPixelFormat::Gray16Le => lemma_pnm_header(
            Magic::P5BinaryGraymap,
            w,
            h,
            Some(65535),
            body,
        ),
        PbmPixelFormat::Rgb24 => lemma_pnm_header(Magic::P6BinaryPixmap, w, h, Some(255), body),
        PbmPixelFormat::Rgb48Le => lemma_pnm_header(
            Magic::P6BinaryPixmap,
            w,
            h,
            Some(65535),
            body,
        ),
        PbmPixelFormat::Rgba | PbmPixelFormat::Bgra => lemma_pam_header(
            w,
            h,
            4,
            255,
            TuplModel::RgbAlpha,
            body,
        ),
        PbmPixelFormat::Rgba64Le => lemma_pam_header(w, h, 4, 65535, TuplModel::RgbAlpha, body),
        PbmPixelFormat::Ya8 => lemma_pam_header(w, h, 2, 255, TuplModel::GrayscaleAlpha, body),
        PbmPixelFormat::Ya16Le => lemma_pam_header(
            w,
            h,
            2,
            65535,
            TuplModel::GrayscaleAlpha,
            body,
        ),
        _ => {},
    }
}

/// Shape of the header written for a whole-byte format: well formed,
/// read back in that format, rows of `width * depth * sample_bytes` bytes.
pub proof fn lemma_bytewise_model(f: PbmPixelFormat, w: u32, h: u32, off: nat)
    requires
        w > 0,
        h > 0,
        f != PbmPixelFormat::MonoBlack,
        f != PbmPixelFormat::GrayF32,
        f != PbmPixelFormat::RgbF32,
        f != PbmPixelFormat::Bgra,
    ensures
        ({
            let m = binary_model(f, w, h, off);
            let rb = min_row_bytes_spec(f, w as nat) as int;
            &&& header_wf(m)
            &&& bytewise_ok(m)
            &&& pick_format_spec(m) == f
            &&& rb == w * m.depth * sample_bytes(m.maxval)
            &&& w * h * m.depth * sample_bytes(m.maxval) == h * rb
            &&& rb > 0
            &&& m.maxval == 255 || (m.maxval == 65535 && rb % 2 == 0)
        }),
{
    let m = binary_model(f, w, h, off);
    lemma_row_bytes(f, w as nat);
    let rb = min_row_bytes_spec(f, w as nat) as int;
    let dep = m.depth as int;
    let sb = sample_bytes(m.maxval);
    let c: int = match f {
        PbmPixelFormat::Gray8 => 1,
        PbmPixelFormat::Gray16Le | PbmPixelFormat::Ya8 => 2,
        PbmPixelFormat::Rgb24 => 3,
        PbmPixelFormat::Rgba | PbmPixelFormat::Ya16Le => 4,
        PbmPixelFormat::Rgb48Le => 6,
        _ => 8,
    };
    assert(dep * sb == c) by (nonlinear_arith)
        requires
            (dep == 1 && sb == 1 && c == 1) || (dep == 1 && sb == 2 && c == 2) || (dep == 2 && sb
                == 1 && c == 2) || (dep == 3 && sb == 1 && c == 3) || (dep == 4 && sb == 1 && c
                == 4) || (dep == 2 && sb == 2 && c == 4) || (dep == 3 && sb == 2 && c == 6) || (dep
                == 4 && sb == 2 && c == 8),
    ;
    assert(rb == c * w);
    assert(rb == w * dep * sb && w * h * dep * sb == h * rb && rb > 0) by (nonlinear_arith)
        requires
            dep * sb == c,
            rb == c * w,
            c >= 1,
            w >= 1,
    ;
}

/// One byte of a whole-byte plane survives being written and read back.
pub proof fn lemma_bytewise_byte_back(d: DecodedModel, m: HeaderModel, rows: Seq<u8>, rest: Seq<u8>, k: int)
    requires
        canonical(d),
        header_wf(m),
        bytewise_ok(m),
        pick_format_spec(m) == d.format,
        m.width == d.width,
        m.height == d.height,
        d.stride == m.width * m.depth * sample_bytes(m.maxval),
        m.maxval == 255 ==> rows == rows_spec(
            d.data,
            d.stride as int,
            d.stride as int,
            d.height as int,
            RowOp::Copy,
            d.width as int,
        ),
        m.maxval != 255 ==> rows == rows_spec(
            d.data,
            d.stride as int,
            d.stride as int,
            d.height as int,
            RowOp::SwapPairs,
            d.width as int,
        ) && d.stride % 2 == 0,
        rows.len() == d.stride * d.height,
        0 <= k < d.stride * d.height,
    ensures
        plane_byte(
            m,
            d.format,
            word_samples(
                m.width * m.height * m.depth,
                sample_bytes(m.maxval),
                m.maxval,
                rows + rest,
            ),
            k,
        ) == d.data[k],
{
    let rb = d.stride as int;
    let h = d.height as int;
    let w = d.width as int;
    assert(m.width * m.height * m.depth * sample_bytes(m.maxval) == h * rb) by (nonlinear_arith)
        requires
            rb == m.width * m.depth * sample_bytes(m.maxval),
            h == m.height,
    ;
    lemma_bytewise_byte(m, rows + rest, k);
    if m.maxval == 255 {
        lemma_copy_rows_byte(d.data, rb, h, w, k);
    } else {
        lemma_swap_rows_byte(d.data, rb, h, w, k);
        if k % 2 == 0 {
            lemma_swap_rows_byte(d.data, rb, h, w, k + 1);
        } else {
            lemma_swap_rows_byte(d.data, rb, h, w, k - 1);
        }
    }
}

/// The rows the encoder writes for a whole-byte image (any decoded format
/// but `MonoBlack` and the float ones) are a body its header reads back as
/// that image's plane.
#[verifier::spinoff_prover]
pub proof fn lemma_bytewise_body(d: DecodedModel, off: nat, rest: Seq<u8>)
    requires
        canonical(d),
        d.format != PbmPixelFormat::MonoBlack,
        d.format != PbmPixelFormat::GrayF32,
        d.format != PbmPixelFormat::RgbF32,
    ensures
        ({
            let m = binary_model(d.format, d.width, d.height, off);
            let l = binary_layout(d.format, d.width as nat, d.height as nat)->0;
            let rows = rows_spec(d.data, d.stride as int, l.2, d.height as int, l.1, d.width as int);
            &&& binary_layout(d.format, d.width as nat, d.height as nat) is Some
            &&& l.2 == d.stride
            &&& rows.len() == d.stride * d.height
            &&& pick_format_spec(m) == d.format
            &&& body_spec(m, rows + rest) matches Ok(p) && p.1 == rows.len() && plane_bytes(
                m,
                d.format,
                p.0,
            ) == d.data
        }),
{
    let f = d.format;
    let w = d.width;
    let h = d.height;
    lemma_row_bytes(f, w as nat);
    let rb = d.stride as int;
    let l = binary_layout(f, w as nat, h as nat)->0;
    let op = l.1;
    let m = binary_model(f, w, h, off);
    lemma_bytewise_model(f, w, h, off);
    assert(l.2 == rb);
    assert(op == if m.maxval == 255 { RowOp::Copy } else { RowOp::SwapPairs });
    let rows = rows_spec(d.data, rb, rb, h as int, op, w as int);
    lemma_rows_tight(d.data, rb, h as int, op, w as int);
    assert(rows.len() == h * rb);
    let dep = m.depth as int;
    let sb = sample_bytes(m.maxval);
    let need = w * h * dep * sb;
    let smp = word_samples(w * h * dep, sb, m.maxval, rows + rest);
    assert(body_spec(m, rows + rest) == Ok::<(Seq<u16>, int), Fail>((smp, need)));
    let plane = plane_bytes(m, f, smp);
    assert forall|k: int| 0 <= k < plane.len() implies #[trigger] plane[k] == d.data[k] by {
        lemma_bytewise_byte_back(d, m, rows, rest, k);
    }
    assert(plane =~= d.data);
}

/// The P4 rows the encoder writes for a `MonoBlack` image are a body its
/// header reads back as that image's plane.
#[verifier::spinoff_prover]
pub proof fn lemma_mono_body(d: DecodedModel, off: nat, rest: Seq<u8>)
    requires
        canonical(d),
        d.format == PbmPixelFormat::MonoBlack,
    ensures
        ({
            let m = binary_model(d.format, d.width, d.height, off);
            let rows = rows_spec(
                d.data,
                d.stride as int,
                d.stride as int,
                d.height as int,
                RowOp::ClearPad,
                d.width as int,
            );
            &&& rows.len() == d.stride * d.height
            &&& pick_format_spec(m) == d.format
            &&& body_spec(m, rows + rest) matches Ok(p) && p.1 == rows.len() && plane_bytes(
                m,
                d.format,
                p.0,
            ) == d.data
        }),
{
    let w = d.width as int;
    let h = d.height as int;
    lemma_row_bytes(d.format, d.width as nat);
    let rb = d.stride as int;
    assert(rb == bit_row_bytes(w));
    assert(rb > 0);
    let m = binary_model(d.format, d.width, d.height, off);
    assert(header_wf(m));
    let rows = rows_spec(d.data, rb, rb, h, RowOp::ClearPad, w);
    lemma_rows_tight(d.data, rb, h, RowOp::ClearPad, w);
    let smp = p4_samples(w, h, 1, rows + rest);
    assert(body_spec(m, rows + rest) == Ok::<(Seq<u16>, int), Fail>((smp, rb * h)));
    let plane = plane_bytes(m, d.format, smp);
    assert forall|k: int| 0 <= k < plane.len() implies #[trigger] plane[k] == d.data[k] by {
        lemma_p4_plane_byte(m, rows + rest, k);
        lemma_row_byte(d.data, rb, h, k);
        let n = bits_in_byte(w, k % rb);
        assert(rows[k] == d.data[k] & pad_mask(n));
        lemma_mask_idempotent(d.data[k], n);
    }
    assert(plane =~= d.data);
}

/// Reversing a 4-byte group twice puts every byte back.
pub proof fn lemma_swap4_involution(b: int)
    requires
        0 <= b,
    ensures
        swap4_index(swap4_index(b)) == b,
        swap4_index(b) / 4 == b / 4,
{
}

/// The rows of a float image, written bottom to top (each sample reversed
/// for big-endian), are a body a float-map header of that byte order reads
/// back as that image's plane.
#[verifier::spinoff_prover]
pub proof fn lemma_float_body(d: DecodedModel, m: HeaderModel, little_endian: bool, rest: Seq<u8>)
    requires
        canonical(d),
        d.format == PbmPixelFormat::GrayF32 || d.format == PbmPixelFormat::RgbF32,
        m.width == d.width,
        m.height == d.height,
        m.depth == if d.format == PbmPixelFormat::RgbF32 {
            3u32
        } else {
            1u32
        },
    ensures
        ({
            let rows = rows_rev_spec(
                d.data,
                d.stride as int,
                d.stride as int,
                d.height as int,
                d.height as int,
                if little_endian {
                    RowOp::Copy
                } else {
                    RowOp::SwapQuads
                },
                d.width as int,
            );
            &&& pfm_row_bytes(m) == d.stride
            &&& rows.len() == d.stride * d.height
            &&& pfm_plane(m, little_endian, rows + rest) == d.data
        }),
{
    let w = d.width as int;
    let h = d.height as int;
    lemma_row_bytes(d.format, d.width as nat);
    let rb = d.stride as int;
    assert(pfm_row_bytes(m) == rb) by (nonlinear_arith)
        requires
            pfm_row_bytes(m) == m.width * m.depth * 4,
            m.width == w,
            (m.depth == 3 && rb == 12 * w) || (m.depth == 1 && rb == 4 * w),
    ;
    assert(rb > 0 && rb % 4 == 0);
    let op = if little_endian {
        RowOp::Copy
    } else {
        RowOp::SwapQuads
    };
    let rows = rows_rev_spec(d.data, rb, rb, h, h, op, w);
    lemma_rows_rev_tight(d.data, rb, h, h, op, w);
    let plane = pfm_plane(m, little_endian, rows + rest);
    assert(plane.len() == d.data.len());
    assert forall|k: int| 0 <= k < plane.len() implies #[trigger] plane[k] == d.data[k] by {
        lemma_row_byte(d.data, rb, h, k);
        let y = k / rb;
        let b = k % rb;
        let b2 = if little_endian {
            b
        } else {
            swap4_index(b)
        };
        lemma_swap4_involution(b);
        assert(0 <= b2 < rb);
        let j = (h - 1 - y) * rb + b2;
        assert(0 <= j < h * rb) by (nonlinear_arith)
            requires
                j == (h - 1 - y) * rb + b2,
                0 <= y < h,
                0 <= b2 < rb,
        ;
        lemma_fundamental_div_mod_converse(j, rb, h - 1 - y, b2);
        assert(plane[k] == rows[j]);
    }
    assert(plane =~= d.data);
}

/// An integer image in the decoder's shape, written by the binary encoder,
/// reads back as itself, whatever follows it.
#[verifier::spinoff_prover]
#[verifier::rlimit(100)]
proof fn lemma_encode_then_decode_int(d: DecodedModel, rest: Seq<u8>)
    requires
        canonical(d),
        d.format != PbmPixelFormat::GrayF32,
        d.format != PbmPixelFormat::RgbF32,
    ensures
        encode_bytes_spec(d.data, d.stride as int, d.format, d.width, d.height) matches Ok(e)
            && decode_spec(e + rest) == Ok::<DecodedModel, Fail>(
            DecodedModel { consumed: e.len(), ..d },
        ),
{
    let f = d.format;
    let w = d.width;
    let h = d.height;
    lemma_row_bytes(f, w as nat);
    lemma_canonical_rows_fit(d);
    let l = binary_layout(f, w as nat, h as nat)->0;
    let hdr = l.0;
    let rows = rows_spec(d.data, d.stride as int, l.2, h as int, l.1, w as int);
    if f == PbmPixelFormat::MonoBlack {
        lemma_mono_body(d, hdr.len(), rest);
    } else {
        lemma_bytewise_body(d, hdr.len(), rest);
    }
    let e = hdr + rows;
    assert(encode_bytes_spec(d.data, d.stride as int, f, w, h) == Ok::<Seq<u8>, Fail>(e));
    let s = e + rest;
    assert(s =~= hdr + (rows + rest));
    lemma_binary_header(f, w, h, rows + rest);
    let m = binary_model(f, w, h, hdr.len());
    assert(header_spec(s) == Ok::<HeaderModel, Fail>(m));
    let body = s.subrange(hdr.len() as int, s.len() as int);
    assert(body =~= rows + rest);
}

/// A float image in the decoder's shape, written as a Portable FloatMap in
/// either byte order with a scale magnitude whose signed line the reader
/// accepts as that byte order, reads back as itself, whatever follows it;
/// the header reports the scale line as printed.
#[verifier::spinoff_prover]
proof fn lemma_float_then_decode(d: DecodedModel, little_endian: bool, magnitude: Seq<u8>, rest: Seq<u8>)
    requires
        canonical(d),
        d.format == PbmPixelFormat::GrayF32 || d.format == PbmPixelFormat::RgbF32,
        forall|k: int|
            0 <= k < magnitude.len() ==> #[trigger] magnitude[k] != 0x0a && magnitude[k] != 0x0d
                && magnitude[k] != 0x23,
        scale_spec(pfm_scale_line(little_endian, magnitude)) matches Ok(p) && p.little_endian
            == little_endian,
    ensures
        pfm_encode_spec(
            d.data,
            d.stride as int,
            d.format,
            d.width as int,
            d.height as int,
            little_endian,
            magnitude,
        ) matches Ok(e) && header_spec(e + rest) matches Ok(m) && m.pfm == Some(
            scale_spec(pfm_scale_line(little_endian, magnitude))->Ok_0,
        ) && decode_spec(e + rest) == Ok::<DecodedModel, Fail>(
            DecodedModel { consumed: e.len(), ..d },
        ),
{
    let f = d.format;
    let w = d.width;
    let h = d.height;
    lemma_row_bytes(f, w as nat);
    let rb = d.stride as int;
    lemma_canonical_rows_fit(d);
    let hdr = pfm_header_bytes(f, w as nat, h as nat, little_endian, magnitude);
    let op = if little_endian {
        RowOp::Copy
    } else {
        RowOp::SwapQuads
    };
    let rows = rows_rev_spec(d.data, rb, rb, h as int, h as int, op, w as int);
    let e = hdr + rows;
    assert(pfm_encode_spec(d.data, rb, f, w as int, h as int, little_endian, magnitude) == Ok::<
        Seq<u8>,
        Fail,
    >(e));
    let s = e + rest;
    assert(s =~= hdr + (rows + rest));
    lemma_pfm_header(f, w, h, little_endian, magnitude, rows + rest);
    let m = HeaderModel {
        magic: if f == PbmPixelFormat::RgbF32 {
            Magic::PFPfmRgbFloat
        } else {
            Magic::PfPfmGrayFloat
        },
        width: w,
        height: h,
        maxval: 0,
        depth: if f == PbmPixelFormat::RgbF32 {
            3
        } else {
            1
        },
        tupl: None,
        data_offset: hdr.len(),
        pfm: Some(scale_spec(pfm_scale_line(little_endian, magnitude))->Ok_0),
    };
    assert(header_spec(s) == Ok::<HeaderModel, Fail>(m));
    lemma_float_body(d, m, little_endian, rest);
    let body = s.subrange(hdr.len() as int, s.len() as int);
    assert(body =~= rows + rest);
}

/// An image in the decoder's shape, written by
/// [`crate::encoder::encode_pbm`]'s encoder and followed by any bytes,
/// reads back as exactly that image, the reader taking exactly the bytes
/// written.
pub proof fn lemma_encode_then_decode_prefix(d: DecodedModel, rest: Seq<u8>)
    requires
        canonical(d),
    ensures
        encode_bytes_spec(d.data, d.stride as int, d.format, d.width, d.height) matches Ok(e)
            && decode_spec(e + rest) == Ok::<DecodedModel, Fail>(
            DecodedModel { consumed: e.len(), ..d },
        ),
{
    if d.format == PbmPixelFormat::GrayF32 || d.format == PbmPixelFormat::RgbF32 {
        lemma_neg_unit_scale();
        assert(neg_unit_scale() =~= pfm_scale_line(true, unit_scale()));
        assert(forall|k: int| 0 <= k < unit_scale().len() ==> #[trigger] unit_scale()[k] != 0x0a
            && unit_scale()[k] != 0x0d && unit_scale()[k] != 0x23);
        lemma_float_then_decode(d, true, unit_scale(), rest);
    } else {
        lemma_encode_then_decode_int(d, rest);
    }
}

/// A P7 header for a gray or RGB image reads the body as the matching
/// P5 / P6 header does.
proof fn lemma_pam_gray_rgb_model(f: PbmPixelFormat, w: u32, h: u32, off: nat, smp: Seq<u16>, b: Seq<u8>)
    requires
        f == PbmPixelFormat::Gray8 || f == PbmPixelFormat::Gray16Le || f == PbmPixelFormat::Rgb24
            || f == PbmPixelFormat::Rgb48Le,
    ensures
        ({
            let rgb = f == PbmPixelFormat::Rgb24 || f == PbmPixelFormat::Rgb48Le;
            let mv: u32 = if f == PbmPixelFormat::Gray16Le || f == PbmPixelFormat::Rgb48Le {
                65535
            } else {
                255
            };
            let mp = HeaderModel {
                magic: Magic::P7Pam,
                width: w,
                height: h,
                maxval: mv,
                depth: if rgb {
                    3
                } else {
                    1
                },
                tupl: Some(
                    if rgb {
                        TuplModel::Rgb
                    } else {
                        TuplModel::Grayscale
                    },
                ),
                data_offset: off,
                pfm: None,
            };
            let mn = binary_model(f, w, h, off);
            &&& pick_format_spec(mp) == f
            &&& body_spec(mp, b) == body_spec(mn, b)
            &&& plane_bytes(mp, f, smp) == plane_bytes(mn, f, smp)
        }),
{
    let rgb = f == PbmPixelFormat::Rgb24 || f == PbmPixelFormat::Rgb48Le;
    let mv: u32 = if f == PbmPixelFormat::Gray16Le || f == PbmPixelFormat::Rgb48Le {
        65535
    } else {
        255
    };
    let mp = HeaderModel {
        magic: Magic::P7Pam,
        width: w,
        height: h,
        maxval: mv,
        depth: if rgb {
            3
        } else {
            1
        },
        tupl: Some(
            if rgb {
                TuplModel::Rgb
            } else {
                TuplModel::Grayscale
            },
        ),
        data_offset: off,
        pfm: None,
    };
    let mn = binary_model(f, w, h, off);
    assert(mn.width == mp.width && mn.height == mp.height && mn.depth == mp.depth && mn.maxval
        == mp.maxval);
    assert(plane_bytes(mp, f, smp) =~= plane_bytes(mn, f, smp));
}

/// Every image in the decoder's shape that the explicit-format writer can
/// write as P7 (gray and RGB at 8 and 16 bits, and the alpha formats),
/// written with the `Pam7` selector and followed by any bytes, reads back
/// as exactly that image, the reader taking exactly the bytes written:
/// the header declares the maxval, depth and tuple type of the samples.
#[verifier::spinoff_prover]
#[verifier::rlimit(60)]
pub proof fn lemma_pam7_round_trip(d: DecodedModel, plane: PbmPlane, rest: Seq<u8>)
    requires
        canonical(d),
        plane.data@ == d.data,
        plane.stride == d.stride,
        pam7_layout(d.format, d.width as nat, d.height as nat) is Some,
    ensures
        with_format_spec(plane, d.format, d.width, d.height, PbmEncodeFormat::Pam7) matches Ok(e)
            && decode_spec(e + rest) == Ok::<DecodedModel, Fail>(
            DecodedModel { consumed: e.len(), ..d },
        ),
{
    let f = d.format;
    let w = d.width;
    let h = d.height;
    lemma_row_bytes(f, w as nat);
    lemma_canonical_rows_fit(d);
    let l = pam7_layout(f, w as nat, h as nat)->0;
    let rows = rows_spec(d.data, d.stride as int, l.2, h as int, l.1, w as int);
    let e = l.0 + rows;
    assert(with_format_spec(plane, f, w, h, PbmEncodeFormat::Pam7) == Ok::<Seq<u8>, Fail>(e));
    if f == PbmPixelFormat::Gray8 || f == PbmPixelFormat::Gray16Le || f == PbmPixelFormat::Rgb24
        || f == PbmPixelFormat::Rgb48Le {
        let rgb = f == PbmPixelFormat::Rgb24 || f == PbmPixelFormat::Rgb48Le;
        let mv: u32 = if f == PbmPixelFormat::Gray16Le || f == PbmPixelFormat::Rgb48Le {
            65535
        } else {
            255
        };
        let dep: u32 = if rgb {
            3
        } else {
            1
        };
        let t = if rgb {
            TuplModel::Rgb
        } else {
            TuplModel::Grayscale
        };
        assert(l.0 == pam_header_bytes(w as nat, h as nat, dep as nat, mv as nat, tupl_name_bytes(t)));
        let hdr = l.0;
        let s = e + rest;
        assert(s =~= hdr + (rows + rest));
        lemma_pam_header(w, h, dep, mv, t, rows + rest);
        lemma_bytewise_body(d, hdr.len(), rest);
        let lb = binary_layout(f, w as nat, h as nat)->0;
        assert(lb.1 == l.1 && lb.2 == l.2);
        let mn = binary_model(f, w, h, hdr.len());
        let p = body_spec(mn, rows + rest)->Ok_0;
        lemma_pam_gray_rgb_model(f, w, h, hdr.len(), p.0, rows + rest);
        let body = s.subrange(hdr.len() as int, s.len() as int);
        assert(body =~= rows + rest);
    } else {
        assert(l == binary_layout(f, w as nat, h as nat)->0);
        lemma_encode_then_decode_prefix(d, rest);
        assert(encode_bytes_spec(d.data, d.stride as int, f, w, h) == Ok::<Seq<u8>, Fail>(e));
    }
}

/// An image in the decoder's shape, written by
/// [`crate::encoder::encode_pbm`]'s encoder, reads back as exactly that
/// image, and the reader takes all of the bytes written.
pub proof fn lemma_encode_then_decode(d: DecodedModel)
    requires
        canonical(d),
    ensures
        encode_bytes_spec(d.data, d.stride as int, d.format, d.width, d.height) matches Ok(e)
            && decode_spec(e) == Ok::<DecodedModel, Fail>(DecodedModel { consumed: e.len(), ..d }),
{
    lemma_encode_then_decode_prefix(d, Seq::empty());
    let e = encode_bytes_spec(d.data, d.stride as int, d.format, d.width, d.height)->Ok_0;
    assert(e + Seq::<u8>::empty() =~= e);
}

/// An image value as the decoder's model of it.
pub open spec fn image_model(img: PbmImage) -> DecodedModel {
    DecodedModel {
        width: img.width,
        height: img.height,
        format: img.pixel_format,
        stride: img.planes@[0].stride as nat,
        data: img.planes@[0].data@,
        consumed: 0,
    }
}

/// Any single-plane image in the decoder's shape (non-zero size, a tightly
/// packed plane of `min_row_bytes * height` bytes, clear `MonoBlack` pad
/// bits, not `Bgra`), written by [`crate::encoder::encode_pbm`] and followed
/// by any bytes, decodes back to the same width, height, pixel format,
/// stride and plane bytes, the reader taking exactly the bytes written.
pub proof fn lemma_image_encode_then_decode(img: PbmImage, rest: Seq<u8>)
    requires
        img.planes@.len() == 1,
        canonical(image_model(img)),
    ensures
        encode_spec(img.planes@[0], img.pixel_format, img.width, img.height) matches Ok(e)
            && decode_spec(e + rest) matches Ok(d2) && d2.width == img.width && d2.height
            == img.height && d2.format == img.pixel_format && d2.stride == img.planes@[0].stride
            && d2.data == img.planes@[0].data@ && d2.consumed == e.len(),
{
    lemma_encode_then_decode_prefix(image_model(img), rest);
}

/// Decode, re-encode, decode is a fixed point: whenever decoding the first
/// image of `s` succeeds, the decoded image can be handed to
/// [`crate::encoder::encode_pbm`] (its rows fit its plane), encoding it
/// succeeds, decoding those bytes gives the identical image (width,
/// height, pixel format, stride and plane bytes) taking every byte
/// written, and encoding that image again gives the same bytes.
pub proof fn lemma_recode_fixed_point(s: Seq<u8>, img: PbmImage, fmt: PbmPixelFormat)
    requires
        s.len() <= usize::MAX,
        decode_spec(s) is Ok,
        image_is(img, fmt, decode_spec(s)->Ok_0),
    ensures
        ({
            let d = decode_spec(s)->Ok_0;
            let plane = img.planes@[0];
            &&& min_row_bytes_spec(img.pixel_format, img.width as nat) <= usize::MAX
            &&& encode_spec(plane, img.pixel_format, img.width, img.height) matches Ok(e)
            &&& decode_spec(e) matches Ok(d2)
            &&& d2.width == d.width
            &&& d2.height == d.height
            &&& d2.format == d.format
            &&& d2.stride == d.stride
            &&& d2.data == d.data
            &&& d2.consumed == e.len()
            &&& encode_bytes_spec(d2.data, d2.stride as int, d2.format, d2.width, d2.height)
                == Ok::<Seq<u8>, Fail>(e)
        }),
{
    let d = decode_spec(s)->Ok_0;
    lemma_decode_canonical(s);
    lemma_encode_then_decode(d);
    let rb = d.stride as int;
    let h = d.height as int;
    assert(rb <= rb * h && (h - 1) * rb + rb == rb * h) by (nonlinear_arith)
        requires
            rb >= 0,
            h >= 1,
    ;
}

/// A float image written as a Portable FloatMap in either byte order, with
/// a scale magnitude whose signed line the reader accepts as that byte
/// order, and followed by any bytes, reads back as the same image; the
/// header reports the byte order written and the scale line as printed,
/// and the reader takes exactly the bytes written.
pub proof fn lemma_pfm_round_trip(d: DecodedModel, little_endian: bool, magnitude: Seq<u8>, rest: Seq<u8>)
    requires
        canonical(d),
        d.format == PbmPixelFormat::GrayF32 || d.format == PbmPixelFormat::RgbF32,
        forall|k: int|
            0 <= k < magnitude.len() ==> #[trigger] magnitude[k] != 0x0a && magnitude[k] != 0x0d
                && magnitude[k] != 0x23,
        scale_spec(pfm_scale_line(little_endian, magnitude)) matches Ok(p) && p.little_endian
            == little_endian,
    ensures
        pfm_encode_spec(
            d.data,
            d.stride as int,
            d.format,
            d.width as int,
            d.height as int,
            little_endian,
            magnitude,
        ) matches Ok(e) && header_spec(e + rest) matches Ok(m) && m.pfm == Some(
            scale_spec(pfm_scale_line(little_endian, magnitude))->Ok_0,
        ) && decode_spec(e + rest) == Ok::<DecodedModel, Fail>(
            DecodedModel { consumed: e.len(), ..d },
        ),
{
    lemma_float_then_decode(d, little_endian, magnitude, rest);
}

/// Every image the decoder produces passes [`PbmImage::validate`].
pub proof fn lemma_decoded_images_validate(s: Seq<u8>, img: PbmImage, fmt: PbmPixelFormat)
    requires
        s.len() <= usize::MAX,
        decode_spec(s) is Ok,
        image_is(img, fmt, decode_spec(s)->Ok_0),
    ensures
        validate_spec(img) == Ok::<(), nat>(()),
{
    let d = decode_spec(s)->Ok_0;
    lemma_decode_canonical(s);
    let rb = d.stride as int;
    let h = d.height as int;
    assert(rb * (h - 1) + rb == rb * h) by (nonlinear_arith);
}

} // verus!
