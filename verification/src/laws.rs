//! Laws of sample rescaling and of the decoded plane: what a sample of any
//! maxval becomes at 8 and 16 bits, that decoding keeps a PAM image's
//! alpha, and how the header's bits per sample relate to the bytes the
//! body reader takes per sample.

use vstd::prelude::*;
use vstd::arithmetic::div_mod::{lemma_fundamental_div_mod, lemma_fundamental_div_mod_converse};
use crate::binary::sample_bytes;
use crate::decoder::{lemma_format_depth, pick_format_spec, plane_bytes, scale16, scale8};
use crate::header::{bits_per_sample_spec, header_wf, HeaderModel, Magic};
use crate::image::{lemma_row_bytes, PbmPixelFormat};

verus! {

/// `x / m` for `x` in `[q * m, q * m + m)`.
proof fn lemma_div_in(x: int, m: int, q: int)
    requires
        m > 0,
        q * m <= x < q * m + m,
    ensures
        x / m == q,
{
    lemma_fundamental_div_mod_converse(x, m, q, x - q * m);
}

/// `x / m` is below `b` when `x` is below `b * m`.
proof fn lemma_div_below(x: int, m: int, b: int)
    requires
        m > 0,
        0 <= x < b * m,
    ensures
        0 <= x / m < b,
{
    lemma_fundamental_div_mod(x, m);
    let q = x / m;
    let r = x % m;
    assert(0 <= r < m);
    assert(0 <= q < b) by (nonlinear_arith)
        requires
            x == m * q + r,
            0 <= r < m,
            0 <= x < b * m,
            m > 0,
    ;
}

/// Rescaling to 16 bits: a sample `s` of any maxval `m` in 2..=65534
/// becomes `s * 65535 / m` rounded to nearest, `(s * 65535 + m / 2) / m`;
/// at maxval 65535 it is kept; so a full-scale sample becomes 65535 and
/// a zero sample 0, whatever the maxval.
pub proof fn lemma_scale16_rounds_to_nearest(s: u16, m: u32)
    requires
        1 <= m <= 65535,
        s <= m,
    ensures
        2 <= m <= 65534 ==> scale16(s, m) as int == (s * 65535 + m / 2) / (m as int),
        s == m ==> scale16(s, m) == 65535,
        s == 0 ==> scale16(s, m) == 0,
{
    let x = s * 65535 + m / 2;
    if 2 <= m <= 65534 {
        assert(x < 65536 * m) by (nonlinear_arith)
            requires
                x == s * 65535 + m / 2,
                s <= m,
                m >= 2,
        ;
        lemma_div_below(x, m as int, 65536);
        if s == m {
            assert(65535 * m <= x < 65535 * m + m) by (nonlinear_arith)
                requires
                    x == s * 65535 + m / 2,
                    s == m,
                    m >= 2,
            ;
            lemma_div_in(x, m as int, 65535);
        }
        if s == 0 {
            lemma_div_in(x, m as int, 0);
        }
    }
}

/// Rescaling to 8 bits: a sample `s` of any maxval `m` other than 1 and
/// 255 becomes `(s * 255 + m / 2) / m`; a full-scale sample becomes 255
/// and a zero sample 0, whatever the maxval.
pub proof fn lemma_scale8_rounds_to_nearest(s: u16, m: u32)
    requires
        1 <= m <= 65535,
        s <= m,
    ensures
        m != 1 && m != 255 ==> scale8(s, m) as int == (s * 255 + m / 2) / (m as int),
        s == m ==> scale8(s, m) == 255,
        s == 0 ==> scale8(s, m) == 0,
{
    let x = s * 255 + m / 2;
    if m != 1 && m != 255 {
        assert(x < 256 * m) by (nonlinear_arith)
            requires
                x == s * 255 + m / 2,
                s <= m,
                m >= 2,
        ;
        lemma_div_below(x, m as int, 256);
        if s == m {
            assert(255 * m <= x < 255 * m + m) by (nonlinear_arith)
                requires
                    x == s * 255 + m / 2,
                    s == m,
                    m >= 2,
            ;
            lemma_div_in(x, m as int, 255);
        }
        if s == 0 {
            lemma_div_in(x, m as int, 0);
        }
    }
}

/// A `Gray16Le` plane holds pixel `i` as the little-endian 16-bit value
/// `(s * 65535 + m / 2) / m` of its sample `s` (maxval `m` in 2..=65534):
/// a full-scale sample is full white, 65535, at every maxval.
pub proof fn lemma_gray16_plane_pixel(m: HeaderModel, smp: Seq<u16>, i: int)
    requires
        2 <= m.maxval <= 65534,
        0 <= i < m.width * m.height,
        i < smp.len(),
        smp[i] <= m.maxval,
    ensures
        ({
            let p = plane_bytes(m, PbmPixelFormat::Gray16Le, smp);
            &&& p.len() == 2 * m.width * m.height
            &&& p[2 * i] + 256 * p[2 * i + 1] == (smp[i] * 65535 + m.maxval / 2) / (
            m.maxval as int)
            &&& smp[i] == m.maxval ==> p[2 * i] == 0xff && p[2 * i + 1] == 0xff
        }),
{
    let p = plane_bytes(m, PbmPixelFormat::Gray16Le, smp);
    lemma_row_bytes(PbmPixelFormat::Gray16Le, m.width as nat);
    assert(p.len() == 2 * m.width * m.height) by (nonlinear_arith)
        requires
            p.len() == (2 * m.width) * m.height,
    ;
    lemma_scale16_rounds_to_nearest(smp[i], m.maxval);
    let v = scale16(smp[i], m.maxval);
    assert((2 * i) / 2 == i && (2 * i + 1) / 2 == i && (2 * i) % 2 == 0 && (2 * i + 1) % 2 == 1);
    assert(2 * i + 1 < 2 * m.width * m.height) by (nonlinear_arith)
        requires
            0 <= i < m.width * m.height,
    ;
    assert(p[2 * i] == (v % 256) as u8);
    assert(p[2 * i + 1] == (v / 256) as u8);
}

/// Decoding to `Rgba` keeps alpha: for a PAM image that carries alpha
/// (gray plus alpha, or RGB plus alpha) and decodes to `Rgba`, byte `3` of
/// pixel `i` is that pixel's last (alpha) sample rescaled to 8 bits, and
/// bytes `0..3` its gray sample (three times) or its red, green and blue;
/// a pixel with alpha sample 0 is fully transparent.
pub proof fn lemma_rgba_plane_keeps_alpha(m: HeaderModel, smp: Seq<u16>, i: int)
    requires
        header_wf(m),
        m.magic == Magic::P7Pam,
        pick_format_spec(m) == PbmPixelFormat::Rgba,
        smp.len() == m.width * m.height * m.depth,
        0 <= i < m.width * m.height,
        forall|k: int| 0 <= k < smp.len() ==> #[trigger] smp[k] <= m.maxval,
    ensures
        ({
            let p = plane_bytes(m, PbmPixelFormat::Rgba, smp);
            let d = m.depth as int;
            &&& d == 2 || d == 4
            &&& p.len() == 4 * m.width * m.height
            &&& p[4 * i + 3] == scale8(smp[i * d + d - 1], m.maxval)
            &&& smp[i * d + d - 1] == 0 ==> p[4 * i + 3] == 0
            &&& smp[i * d + d - 1] == m.maxval ==> p[4 * i + 3] == 255
            &&& forall|c: int|
                0 <= c < 3 ==> #[trigger] p[4 * i + c] == scale8(
                    smp[i * d + if d == 4 {
                        c
                    } else {
                        0
                    }],
                    m.maxval,
                )
        }),
{
    lemma_format_depth(m);
    let p = plane_bytes(m, PbmPixelFormat::Rgba, smp);
    let d = m.depth as int;
    let n = m.width * m.height;
    lemma_row_bytes(PbmPixelFormat::Rgba, m.width as nat);
    assert(p.len() == 4 * m.width * m.height) by (nonlinear_arith)
        requires
            p.len() == (4 * m.width) * m.height,
    ;
    assert(0 <= i * d && i * d + d <= n * d) by (nonlinear_arith)
        requires
            0 <= i < n,
            d >= 2,
    ;
    assert(4 * n == 4 * m.width * m.height) by (nonlinear_arith)
        requires
            n == m.width * m.height,
    ;
    assert(smp.len() == n * d) by (nonlinear_arith)
        requires
            smp.len() == m.width * m.height * m.depth,
            n == m.width * m.height,
            d == m.depth,
    ;
    assert forall|c: int| 0 <= c < 4 implies #[trigger] p[4 * i + c] == crate::decoder::plane_byte(
        m,
        PbmPixelFormat::Rgba,
        smp,
        4 * i + c,
    ) && (4 * i + c) / 4 == i && (4 * i + c) % 4 == c by {
        assert(4 * i + c < 4 * n) by (nonlinear_arith)
            requires
                0 <= i < n,
                0 <= c < 4,
        ;
    }
    lemma_scale8_rounds_to_nearest(smp[i * d + d - 1], m.maxval);
}

/// The header's bits per sample is 8 times the bytes per sample the body
/// reader takes: for every non-bitmap, non-float header, 8 exactly when
/// maxval <= 255 and 16 exactly when maxval > 255.
pub proof fn lemma_bits_per_sample_matches_body(m: HeaderModel)
    requires
        m.magic != Magic::P1AsciiBitmap,
        m.magic != Magic::P4BinaryBitmap,
        m.magic != Magic::PfPfmGrayFloat,
        m.magic != Magic::PFPfmRgbFloat,
    ensures
        bits_per_sample_spec(m.magic, m.maxval) == 8 * sample_bytes(m.maxval),
        (bits_per_sample_spec(m.magic, m.maxval) == 8) <==> m.maxval <= 255,
        (bits_per_sample_spec(m.magic, m.maxval) == 16) <==> m.maxval > 255,
{
}

/// Samples per pixel of the whole-sample formats without packing or
/// layout choices.
pub open spec fn format_channels(f: PbmPixelFormat) -> int {
    match f {
        PbmPixelFormat::Gray8 | PbmPixelFormat::Gray16Le => 1,
        PbmPixelFormat::Ya8 | PbmPixelFormat::Ya16Le => 2,
        PbmPixelFormat::Rgb24 | PbmPixelFormat::Rgb48Le => 3,
        PbmPixelFormat::Rgba64Le => 4,
        _ => 0,
    }
}

/// The 16-bit formats among them.
pub open spec fn format_is_wide(f: PbmPixelFormat) -> bool {
    f == PbmPixelFormat::Gray16Le || f == PbmPixelFormat::Ya16Le || f == PbmPixelFormat::Rgb48Le
        || f == PbmPixelFormat::Rgba64Le
}

/// In a gray, gray-alpha, RGB or 16-bit RGBA plane, channel `j` of pixel
/// `i` is sample `j` of pixel `i` rescaled: to 8 bits in one byte, or to 16
/// bits in two bytes, low byte first; the samples keep their order.
pub proof fn lemma_plane_sample(m: HeaderModel, f: PbmPixelFormat, smp: Seq<u16>, i: int, j: int)
    requires
        format_channels(f) > 0,
        m.depth == format_channels(f),
        0 <= i < m.width * m.height,
        0 <= j < m.depth,
    ensures
        ({
            let p = plane_bytes(m, f, smp);
            let d = m.depth as int;
            let s = smp[i * d + j];
            if format_is_wide(f) {
                &&& 2 * (i * d + j) + 1 < p.len()
                &&& p[2 * (i * d + j)] + 256 * p[2 * (i * d + j) + 1] == scale16(s, m.maxval)
            } else {
                &&& i * d + j < p.len()
                &&& p[i * d + j] == scale8(s, m.maxval)
            }
        }),
{
    let p = plane_bytes(m, f, smp);
    let d = m.depth as int;
    let n = m.width * m.height;
    lemma_row_bytes(f, m.width as nat);
    let q = i * d + j;
    assert(0 <= q < n * d) by (nonlinear_arith)
        requires
            0 <= i < n,
            0 <= j < d,
            q == i * d + j,
    ;
    let wide = format_is_wide(f);
    let bps: int = if wide {
        2
    } else {
        1
    };
    assert(p.len() == n * d * bps) by (nonlinear_arith)
        requires
            p.len() == (m.width * (d * bps)) * m.height,
            n == m.width * m.height,
    ;
    assert(2 * q + 1 < 2 * (n * d));
    if wide {
        let k = 2 * q;
        lemma_div_in(k, 2, q);
        lemma_div_in(k + 1, 2, q);
        if d > 1 {
            let c = 2 * d;
            assert(k == i * c + 2 * j && 0 <= 2 * j < c && k + 1 == i * c + 2 * j + 1 && 2 * j + 1
                < c) by (nonlinear_arith)
                requires
                    k == 2 * q,
                    q == i * d + j,
                    c == 2 * d,
                    0 <= j < d,
            ;
            lemma_fundamental_div_mod_converse(k, c, i, 2 * j);
            lemma_fundamental_div_mod_converse(k + 1, c, i, 2 * j + 1);
            lemma_div_in(2 * j, 2, j);
            lemma_div_in(2 * j + 1, 2, j);
        }
        let v = scale16(smp[q], m.maxval);
        assert(p[k] == (v % 256) as u8);
        assert(p[k + 1] == (v / 256) as u8);
    } else if d > 1 {
        lemma_fundamental_div_mod_converse(q, d, i, j);
    }
}

} // verus!
