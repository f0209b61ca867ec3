//! Binary (P4 / P5 / P6 / P7) sample decoding and encoding.
//!
//! P4 packs 8 pixels per byte, most significant bit first, each row padded
//! to a whole byte. P5/P6/P7 are row-major streams of 8-bit samples, or of
//! 16-bit big-endian samples when `maxval > 255`.

use vstd::prelude::*;
use crate::error::{Fail, PbmError, Result};
use crate::header::{Header, HeaderModel, Magic};

verus! {

/// Decoded sample matrix: `width * height * depth` samples, row-major.
#[derive(Debug)]
pub struct DecodedSamples {
    pub width: u32,
    pub height: u32,
    pub depth: u32,
    pub maxval: u32,
    pub samples: Vec<u16>,
}

/// Bit `j` of `b`, counting from the most significant (`j == 0`).
pub open spec fn bit_of(b: u8, j: u8) -> u8 {
    (b >> ((7 - j) as u8)) & 1
}

/// Mask keeping the `n` (1..=8) most significant bits of a byte.
pub open spec fn pad_mask(n: u8) -> u8 {
    (0xff00u16 >> n) as u8
}

/// Number of pixels of a `w`-pixel bit row that byte `i` of the row holds.
pub open spec fn bits_in_byte(w: int, i: int) -> u8 {
    if w - 8 * i >= 8 {
        8
    } else {
        (w - 8 * i) as u8
    }
}

/// Bytes in one P4 / `MonoBlack` row of `w` pixels.
pub open spec fn bit_row_bytes(w: int) -> int {
    (w + 7) / 8
}

/// `f(0), …, f(j - 1)` read as a binary number, most significant first.
pub open spec fn pack_msb(f: spec_fn(int) -> u8, j: int) -> int
    decreases j,
{
    if j <= 0 {
        0
    } else {
        pack_msb(f, j - 1) * 2 + f(j - 1)
    }
}

/// Masking a byte to its first `n` bits is packing those bits, most
/// significant first, followed by zeros.
pub proof fn lemma_mask_is_packed_bits(b: u8, n: u8)
    requires
        1 <= n <= 8,
    ensures
        (b & pad_mask(n)) as int == pack_msb(
            |j: int|
                if j < n {
                    bit_of(b, j as u8)
                } else {
                    0u8
                },
            8,
        ),
{
    let f = |j: int|
        if j < n {
            bit_of(b, j as u8)
        } else {
            0u8
        };
    reveal_with_fuel(pack_msb, 9);
    let t0 = f(0);
    let t1 = f(1);
    let t2 = f(2);
    let t3 = f(3);
    let t4 = f(4);
    let t5 = f(5);
    let t6 = f(6);
    let t7 = f(7);
    assert(pack_msb(f, 8) == t0 * 128 + t1 * 64 + t2 * 32 + t3 * 16 + t4 * 8 + t5 * 4 + t6 * 2
        + t7);
    assert((b & ((0xff00u16 >> n) as u8)) as int == (if 0 < n {
        (b >> 7u8) & 1
    } else {
        0u8
    }) * 128 + (if 1 < n {
        (b >> 6u8) & 1
    } else {
        0u8
    }) * 64 + (if 2 < n {
        (b >> 5u8) & 1
    } else {
        0u8
    }) * 32 + (if 3 < n {
        (b >> 4u8) & 1
    } else {
        0u8
    }) * 16 + (if 4 < n {
        (b >> 3u8) & 1
    } else {
        0u8
    }) * 8 + (if 5 < n {
        (b >> 2u8) & 1
    } else {
        0u8
    }) * 4 + (if 6 < n {
        (b >> 1u8) & 1
    } else {
        0u8
    }) * 2 + (if 7 < n {
        (b >> 0u8) & 1
    } else {
        0u8
    })) by (bit_vector)
        requires
            1 <= n <= 8,
    ;
}

/// Masking twice with the same mask is masking once.
pub proof fn lemma_mask_idempotent(b: u8, n: u8)
    ensures
        (b & pad_mask(n)) & pad_mask(n) == b & pad_mask(n),
{
    assert((b & ((0xff00u16 >> n) as u8)) & ((0xff00u16 >> n) as u8) == b & ((0xff00u16
        >> n) as u8)) by (bit_vector);
}

/// A P4 row with the padding bits of its last byte cleared.
pub open spec fn p4_row(src: Seq<u8>, w: int) -> Seq<u8> {
    Seq::new(src.len(), |i: int| src[i] & pad_mask(bits_in_byte(w, i)))
}

/// The 16-bit sample stored big-endian at bytes `2k`, `2k + 1`.
pub open spec fn be16_at(s: Seq<u8>, k: int) -> u16 {
    (s[2 * k] * 256 + s[2 * k + 1]) as u16
}

/// Each byte pair of `s` with its two bytes exchanged.
pub open spec fn swap_pairs(s: Seq<u8>) -> Seq<u8> {
    Seq::new(
        s.len(),
        |k: int|
            if k % 2 == 0 {
                s[k + 1]
            } else {
                s[k - 1]
            },
    )
}

/// Exchanging the bytes of each pair is its own inverse: little-endian to
/// big-endian and back gives the original bytes.
pub proof fn lemma_swap_pairs_involution(s: Seq<u8>)
    requires
        s.len() % 2 == 0,
    ensures
        swap_pairs(swap_pairs(s)) == s,
{
    assert(swap_pairs(swap_pairs(s)) =~= s);
}

/// Each 4-byte BGRA pixel of `s` reordered to RGBA.
pub open spec fn bgra_to_rgba(s: Seq<u8>) -> Seq<u8> {
    Seq::new(
        s.len(),
        |k: int|
            if k % 4 == 0 {
                s[k + 2]
            } else if k % 4 == 2 {
                s[k - 2]
            } else {
                s[k]
            },
    )
}

/// Samples of a P4 body: pixel `(x, y)` is bit `x % 8` of byte
/// `y * row_bytes + x / 8`; a depth above 1 leaves the further samples 0.
pub open spec fn p4_samples(w: int, h: int, d: int, body: Seq<u8>) -> Seq<u16> {
    Seq::new(
        (w * h * d) as nat,
        |k: int|
            if k < w * h {
                bit_of(body[(k / w) * bit_row_bytes(w) + (k % w) / 8], ((k % w) % 8) as u8) as u16
            } else {
                0u16
            },
    )
}

/// Samples of a P5/P6/P7 body: `n` samples of `bytes` (1 or 2, big-endian)
/// bytes each, clamped to `maxval`.
pub open spec fn word_samples(n: int, bytes: int, maxval: u32, body: Seq<u8>) -> Seq<u16> {
    Seq::new(
        n as nat,
        |k: int|
            {
                let raw: int = if bytes == 1 {
                    body[k] as int
                } else {
                    be16_at(body, k) as int
                };
                if raw > maxval {
                    maxval as u16
                } else {
                    raw as u16
                }
            },
    )
}

/// Bytes per on-disk sample for a P5/P6/P7 header.
pub open spec fn sample_bytes(maxval: u32) -> int {
    if maxval > 255 {
        2
    } else {
        1
    }
}

/// What [`decode_binary`] yields: the sample matrix of a P4/P5/P6/P7 body,
/// or an error when the magic is not binary, a dimension is zero, the
/// sample count overflows, or the body is shorter than the dimensions
/// demand.
pub open spec fn binary_samples_spec(m: HeaderModel, body: Seq<u8>) -> core::result::Result<
    Seq<u16>,
    Fail,
> {
    let w = m.width as int;
    let h = m.height as int;
    let d = m.depth as int;
    let need = if m.magic == Magic::P4BinaryBitmap {
        bit_row_bytes(w) * h
    } else {
        w * h * d * sample_bytes(m.maxval)
    };
    if !(m.magic == Magic::P4BinaryBitmap || m.magic == Magic::P5BinaryGraymap || m.magic
        == Magic::P6BinaryPixmap || m.magic == Magic::P7Pam) {
        Err(Fail::Invalid("decode_binary called with non-binary magic"@))
    } else if w == 0 || h == 0 || d == 0 {
        Err(Fail::Invalid("Netpbm: zero dimension"@))
    } else if w * h * d > usize::MAX || need > usize::MAX {
        Err(Fail::Invalid("Netpbm: dimension overflow"@))
    } else if need > body.len() {
        Err(Fail::Invalid("Netpbm: pixel data truncated"@))
    } else if m.magic == Magic::P4BinaryBitmap {
        Ok(p4_samples(w, h, d, body))
    } else {
        Ok(word_samples(w * h * d, sample_bytes(m.maxval), m.maxval, body))
    }
}

pub proof fn lemma_div_mod_row(k: int, w: int, rb: int)
    requires
        0 < w,
        0 <= k,
    ensures
        k == (k / w) * w + k % w,
        0 <= k % w < w,
{
    assert(k == (k / w) * w + k % w && 0 <= k % w < w) by (nonlinear_arith)
        requires
            0 < w,
            0 <= k,
    ;
}

/// Decode the binary body of a P4/P5/P6/P7 image; `data` starts at the
/// first pixel byte.
pub fn decode_binary(h: &Header, data: &[u8]) -> (r: Result<DecodedSamples>)
    ensures
        match (r, binary_samples_spec(h@, data@)) {
            (Ok(ds), Ok(smp)) => ds.width == h.width && ds.height == h.height && ds.depth
                == h.depth && ds.maxval == h.maxval && ds.samples@ == smp,
            (Err(e), Err(f)) => crate::error::fail_of(e) == f,
            _ => false,
        },
{
    let ghost m = h@;
    let is_p4 = match h.magic {
        Magic::P4BinaryBitmap => true,
        Magic::P5BinaryGraymap | Magic::P6BinaryPixmap | Magic::P7Pam => false,
        _ => return Err(PbmError::invalid("decode_binary called with non-binary magic")),
    };
    let n = data.len();
    let w = h.width as usize;
    let hh = h.height as usize;
    let depth = h.depth as usize;
    if w == 0 || hh == 0 || depth == 0 {
        return Err(PbmError::invalid("Netpbm: zero dimension"));
    }
    let total = match w.checked_mul(hh) {
        Some(v) => match v.checked_mul(depth) {
            Some(t) => t,
            None => return Err(PbmError::invalid("Netpbm: dimension overflow")),
        },
        None => {
            proof {
                assert(w * hh * depth >= w * hh) by (nonlinear_arith)
                    requires
                        depth >= 1,
                ;
            }
            return Err(PbmError::invalid("Netpbm: dimension overflow"));
        },
    };
    let bytes: usize = if h.maxval > 255 {
        2
    } else {
        1
    };
    let rb: usize = w / 8 + if w % 8 == 0 {
        0
    } else {
        1
    };
    assert(rb == bit_row_bytes(w as int));
    let need_opt = if is_p4 {
        rb.checked_mul(hh)
    } else {
        total.checked_mul(bytes)
    };
    let need = match need_opt {
        Some(n) => n,
        None => return Err(PbmError::invalid("Netpbm: dimension overflow")),
    };
    if n < need {
        return Err(PbmError::invalid("Netpbm: pixel data truncated"));
    }
    let mut out: Vec<u16> = Vec::new();
    if is_p4 {
        let wh = w * hh;
        proof {
            assert(wh <= total) by (nonlinear_arith)
                requires
                    wh == w * hh,
                    total == w * hh * depth,
                    depth >= 1,
            ;
        }
        let ghost target = p4_samples(w as int, hh as int, depth as int, data@);
        let mut k: usize = 0;
        while k < total
            invariant
                total == w * hh * depth,
                wh == w * hh,
                wh <= total,
                w > 0,
                n == data@.len(),
                rb == bit_row_bytes(w as int),
                rb * hh <= n,
                target == p4_samples(w as int, hh as int, depth as int, data@),
                k <= total,
                out@ == target.subrange(0, k as int),
            decreases total - k,
        {
            if k < wh {
                let y = k / w;
                let x = k % w;
                proof {
                    lemma_div_mod_row(k as int, w as int, rb as int);
                    assert(y < hh) by (nonlinear_arith)
                        requires
                            k < w * hh,
                            k == y * w + x,
                            0 <= x,
                            w > 0,
                    ;
                    assert(x / 8 < rb) by (nonlinear_arith)
                        requires
                            x < w,
                            rb == (w + 7) / 8,
                            x >= 0,
                    ;
                    assert(y * rb + x / 8 < rb * hh) by (nonlinear_arith)
                        requires
                            y < hh,
                            x / 8 < rb,
                            y >= 0,
                            x >= 0,
                            rb > 0,
                    ;
                }
                let byte = data[y * rb + x / 8];
                let bit = (byte >> ((7 - (x % 8) as u8) as u8)) & 1;
                out.push(bit as u16);
            } else {
                out.push(0);
            }
            proof {
                assert(out@ =~= target.subrange(0, k + 1));
            }
            k += 1;
        }
        assert(out@ =~= target);
    } else {
        let ghost target = word_samples(total as int, bytes as int, h.maxval, data@);
        let mut k: usize = 0;
        while k < total
            invariant
                need == total * bytes,
                need <= n,
                n == data@.len(),
                bytes == 1 || bytes == 2,
                target == word_samples(total as int, bytes as int, h.maxval, data@),
                k <= total,
                out@ == target.subrange(0, k as int),
            decreases total - k,
        {
            let raw: u32 = if bytes == 1 {
                data[k] as u32
            } else {
                proof {
                    assert(2 * k + 1 < need) by (nonlinear_arith)
                        requires
                            k < total,
                            need == total * 2,
                    ;
                }
                (data[2 * k] as u32) * 256 + data[2 * k + 1] as u32
            };
            let v: u16 = if raw > h.maxval {
                h.maxval as u16
            } else {
                raw as u16
            };
            out.push(v);
            proof {
                assert(out@ =~= target.subrange(0, k + 1));
            }
            k += 1;
        }
        assert(out@ =~= target);
    }
    Ok(DecodedSamples { width: h.width, height: h.height, depth: h.depth, maxval: h.maxval, samples: out })
}


/// Encode a P4 body: `bits` holds `width * height` row-major pixels, whose
/// lowest bit is the pixel (1 = black); they are packed most significant
/// first, each row padded to a whole byte with zeros.
pub fn encode_p4_body(width: u32, height: u32, bits: &[u8]) -> (r: Vec<u8>)
    requires
        bits@.len() >= width * height,
        bit_row_bytes(width as int) * height <= usize::MAX,
    ensures
        r@.len() == bit_row_bytes(width as int) * height,
        forall|y: int, bx: int|
            0 <= y < height && 0 <= bx < bit_row_bytes(width as int) ==> #[trigger] r@[y
                * bit_row_bytes(width as int) + bx] as int == pack_msb(
                |j: int|
                    if bx * 8 + j < width {
                        bits@[y * width + bx * 8 + j] & 1
                    } else {
                        0u8
                    },
                8,
            ),
{
    let w = width as usize;
    let h = height as usize;
    let rb: usize = w / 8 + if w % 8 == 0 {
        0
    } else {
        1
    };
    assert(rb == bit_row_bytes(w as int));
    let nb = bits.len();
    let mut out: Vec<u8> = Vec::new();
    let mut y: usize = 0;
    while y < h
        invariant
            nb == bits@.len(),
            rb == bit_row_bytes(w as int),
            w == width,
            h == height,
            rb * h <= usize::MAX,
            bits@.len() >= w * h,
            y <= h,
            out@.len() == y * rb,
            forall|yy: int, bx: int|
                0 <= yy < y && 0 <= bx < rb ==> #[trigger] out@[yy * rb + bx] as int == pack_msb(
                    |j: int|
                        if bx * 8 + j < w {
                            bits@[yy * w + bx * 8 + j] & 1
                        } else {
                            0u8
                        },
                    8,
                ),
        decreases h - y,
    {
        let mut bx: usize = 0;
        while bx < rb
            invariant
                nb == bits@.len(),
                rb == bit_row_bytes(w as int),
                w == width,
                h == height,
                rb * h <= usize::MAX,
                bits@.len() >= w * h,
                y < h,
                bx <= rb,
                out@.len() == y * rb + bx,
                forall|yy: int, c: int|
                    0 <= yy < y && 0 <= c < rb ==> #[trigger] out@[yy * rb + c] as int == pack_msb(
                        |j: int|
                            if c * 8 + j < w {
                                bits@[yy * w + c * 8 + j] & 1
                            } else {
                                0u8
                            },
                        8,
                    ),
                forall|c: int|
                    0 <= c < bx ==> #[trigger] out@[y * rb + c] as int == pack_msb(
                        |j: int|
                            if c * 8 + j < w {
                                bits@[y * w + c * 8 + j] & 1
                            } else {
                                0u8
                            },
                        8,
                    ),
            decreases rb - bx,
        {
            let ghost f = |j: int|
                if bx * 8 + j < w {
                    bits@[y * w + bx * 8 + j] & 1
                } else {
                    0u8
                };
            let mut acc: u32 = 0;
            let mut j: usize = 0;
            while j < 8
                invariant
                    j <= 8,
                    acc == pack_msb(f, j as int),
                    acc < pow2_small(j as int),
                    nb == bits@.len(),
                    w == width,
                    h == height,
                    y < h,
                    bx < rb,
                    rb == bit_row_bytes(w as int),
                    bits@.len() >= w * h,
                    f == (|j: int|
                        if bx * 8 + j < w {
                            bits@[y * w + bx * 8 + j] & 1
                        } else {
                            0u8
                        }),
                decreases 8 - j,
            {
                let x = bx * 8 + j;
                let bit: u8 = if x < w {
                    proof {
                        assert(y * w + x < w * h) by (nonlinear_arith)
                            requires
                                y < h,
                                x < w,
                        ;
                    }
                    let v = bits[y * w + x];
                    assert(v & 1 <= 1) by (bit_vector);
                    v & 1
                } else {
                    0
                };
                assert(bit == f(j as int));
                acc = acc * 2 + bit as u32;
                j += 1;
            }
            proof {
                assert(y * rb + bx < rb * h) by (nonlinear_arith)
                    requires
                        y < h,
                        bx < rb,
                ;
            }
            out.push(acc as u8);
            proof {
                assert forall|yy: int, c: int|
                    0 <= yy < y && 0 <= c < rb implies #[trigger] out@[yy * rb + c] as int
                    == pack_msb(
                    |j: int|
                        if c * 8 + j < w {
                            bits@[yy * w + c * 8 + j] & 1
                        } else {
                            0u8
                        },
                    8,
                ) by {
                    assert(yy * rb + c < y * rb) by (nonlinear_arith)
                        requires
                            yy < y,
                            c < rb,
                            yy >= 0,
                    ;
                }
            }
            bx += 1;
        }
        proof {
            assert forall|yy: int, c: int|
                0 <= yy < y + 1 && 0 <= c < rb implies #[trigger] out@[yy * rb + c] as int
                == pack_msb(
                |j: int|
                    if c * 8 + j < w {
                        bits@[yy * w + c * 8 + j] & 1
                    } else {
                        0u8
                    },
                8,
            ) by {
                if yy == y {
                }
            }
            assert((y + 1) * rb == y * rb + rb) by (nonlinear_arith);
        }
        y += 1;
    }
    assert(out@.len() == rb * h) by (nonlinear_arith)
        requires
            out@.len() == y * rb,
            y == h,
    ;
    out
}

/// `2^k` for `0 <= k <= 8`.
pub open spec fn pow2_small(k: int) -> int {
    if k <= 0 {
        1
    } else if k == 1 {
        2
    } else if k == 2 {
        4
    } else if k == 3 {
        8
    } else if k == 4 {
        16
    } else if k == 5 {
        32
    } else if k == 6 {
        64
    } else if k == 7 {
        128
    } else {
        256
    }
}

/// The P5/P6/P7 body of `samples`: one byte each (the low byte) when
/// `maxval <= 255`, otherwise two bytes each, big-endian.
pub open spec fn binary_body_spec(samples: Seq<u16>, maxval: u32) -> Seq<u8> {
    if maxval <= 255 {
        Seq::new(samples.len(), |k: int| (samples[k] % 256) as u8)
    } else {
        Seq::new(
            samples.len() * 2,
            |k: int|
                if k % 2 == 0 {
                    (samples[k / 2] / 256) as u8
                } else {
                    (samples[k / 2] % 256) as u8
                },
        )
    }
}

/// Encode a P5/P6/P7 body (see [`binary_body_spec`]).
pub fn encode_binary_body(samples: &[u16], maxval: u32) -> (r: Vec<u8>)
    requires
        samples@.len() * 2 <= usize::MAX,
    ensures
        r@ == binary_body_spec(samples@, maxval),
{
    let mut out: Vec<u8> = Vec::new();
    let n = samples.len();
    if maxval <= 255 {
        let mut k: usize = 0;
        while k < n
            invariant
                n == samples@.len(),
                k <= n,
                out@ == binary_body_spec(samples@, maxval).subrange(0, k as int),
                maxval <= 255,
            decreases n - k,
        {
            out.push((samples[k] % 256) as u8);
            proof {
                assert(out@ =~= binary_body_spec(samples@, maxval).subrange(0, k + 1));
            }
            k += 1;
        }
        assert(out@ =~= binary_body_spec(samples@, maxval));
    } else {
        let mut tmp: Vec<u8> = vec![0u8; n * 2];
        write_be16_row(samples, tmp.as_mut_slice());
        out = tmp;
        assert(out@ =~= binary_body_spec(samples@, maxval)) by {
            assert forall|k: int| 0 <= k < n * 2 implies #[trigger] out@[k]
                == binary_body_spec(samples@, maxval)[k] by {
                if k % 2 == 0 {
                    assert(k == 2 * (k / 2));
                } else {
                    assert(k == 2 * (k / 2) + 1);
                }
            }
        }
    }
    out
}

/// Read `src` as big-endian 16-bit samples into `dst`
/// (`src.len() == 2 * dst.len()`).
pub fn read_be16_row(src: &[u8], dst: &mut [u16])
    requires
        src@.len() == 2 * old(dst)@.len(),
    ensures
        final(dst)@ == Seq::new(old(dst)@.len(), |k: int| be16_at(src@, k)),
{
    let n = dst.len();
    let m = src.len();
    let mut k: usize = 0;
    while k < n
        invariant
            n == dst@.len(),
            m == src@.len(),
            src@.len() == 2 * n,
            k <= n,
            forall|i: int| 0 <= i < k ==> dst@[i] == be16_at(src@, i),
        decreases n - k,
    {
        let v: u16 = (src[2 * k] as u16) * 256 + src[2 * k + 1] as u16;
        dst[k] = v;
        k += 1;
    }
    assert(dst@ =~= Seq::new(n as nat, |k: int| be16_at(src@, k)));
}

/// Write `src` into `dst` as big-endian 16-bit samples
/// (`dst.len() == 2 * src.len()`).
pub fn write_be16_row(src: &[u16], dst: &mut [u8])
    requires
        old(dst)@.len() == 2 * src@.len(),
    ensures
        final(dst)@.len() == 2 * src@.len(),
        forall|k: int|
            0 <= k < src@.len() ==> final(dst)@[2 * k] == (src@[k] / 256) as u8 && final(dst)@[2 * k
                + 1] == (src@[k] % 256) as u8,
{
    let n = src.len();
    let m = dst.len();
    let mut k: usize = 0;
    while k < n
        invariant
            n == src@.len(),
            m == 2 * n,
            dst@.len() == 2 * n,
            k <= n,
            forall|i: int|
                0 <= i < k ==> dst@[2 * i] == (src@[i] / 256) as u8 && dst@[2 * i + 1] == (src@[i]
                    % 256) as u8,
        decreases n - k,
    {
        let v = src[k];
        dst[2 * k] = (v / 256) as u8;
        dst[2 * k + 1] = (v % 256) as u8;
        k += 1;
    }
}

/// Exchange the two bytes of every byte pair: little-endian 16-bit samples
/// become big-endian and back (`src`, `dst` of equal, even length).
pub fn swap_bytes_u16_row(src: &[u8], dst: &mut [u8])
    requires
        src@.len() == old(dst)@.len(),
        src@.len() % 2 == 0,
    ensures
        final(dst)@ == swap_pairs(src@),
{
    let n = src.len();
    let mut k: usize = 0;
    while k < n
        invariant
            n == src@.len(),
            dst@.len() == n,
            n % 2 == 0,
            k <= n,
            k % 2 == 0,
            forall|i: int| 0 <= i < k ==> dst@[i] == swap_pairs(src@)[i],
        decreases n - k,
    {
        dst[k] = src[k + 1];
        dst[k + 1] = src[k];
        k += 2;
    }
    assert(dst@ =~= swap_pairs(src@));
}

/// Copy one P4 / `MonoBlack` row of `w` pixels, clearing the padding bits
/// of its last byte (both slices hold exactly one row).
pub fn copy_p4_row_msb(src: &[u8], dst: &mut [u8], w: usize)
    requires
        src@.len() == old(dst)@.len(),
        src@.len() == bit_row_bytes(w as int),
    ensures
        final(dst)@ == p4_row(src@, w as int),
{
    let n = src.len();
    let mut i: usize = 0;
    while i < n
        invariant
            n == src@.len(),
            n == bit_row_bytes(w as int),
            dst@.len() == n,
            i <= n,
            forall|k: int| 0 <= k < i ==> dst@[k] == p4_row(src@, w as int)[k],
        decreases n - i,
    {
        let valid: u8 = if w - 8 * i >= 8 {
            8
        } else {
            (w - 8 * i) as u8
        };
        let mask: u8 = (0xff00u16 >> valid) as u8;
        dst[i] = src[i] & mask;
        i += 1;
    }
    assert(dst@ =~= p4_row(src@, w as int));
}

/// Reorder 4-byte BGRA pixels to RGBA (`src`, `dst` of equal length, a
/// multiple of 4).
pub fn bgra_to_rgba_row(src: &[u8], dst: &mut [u8])
    requires
        src@.len() == old(dst)@.len(),
        src@.len() % 4 == 0,
    ensures
        final(dst)@ == bgra_to_rgba(src@),
{
    let n = src.len();
    let mut k: usize = 0;
    while k < n
        invariant
            n == src@.len(),
            dst@.len() == n,
            n % 4 == 0,
            k <= n,
            k % 4 == 0,
            forall|i: int| 0 <= i < k ==> dst@[i] == bgra_to_rgba(src@)[i],
        decreases n - k,
    {
        dst[k] = src[k + 2];
        dst[k + 1] = src[k + 1];
        dst[k + 2] = src[k];
        dst[k + 3] = src[k + 3];
        k += 4;
    }
    assert(dst@ =~= bgra_to_rgba(src@));
}

} // verus!
