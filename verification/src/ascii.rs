//! Plain (P1 / P2 / P3) sample decoding and encoding.
//!
//! Plain bodies are whitespace-separated decimal integers, read with the
//! header's tokenizer, so `# … LF` comments between samples are skipped.
//! P1 samples are single `0` / `1` digits that may also run together
//! without separators.

use vstd::prelude::*;
use crate::binary::{bit_of, DecodedSamples};
use vstd::string::StringExecFns;
use crate::error::{hex_text, push_hex, Fail, PbmError, Result};
use crate::header::{overflow_error, overflow_text, Header, HeaderModel, Magic};
use crate::lex::{
    dec_digits, dec_token, digits_end, lemma_digits_end, lemma_skip_wsc_bounds,
    lemma_skip_wsc_idem, next_dec_token, skip_wsc, skip_ws_and_comments, write_dec, Token,
};

verus! {

/// One plain sample read from `c`: for a bitmap, one `0` / `1` digit after
/// whitespace and comments; otherwise a decimal token clamped to `maxval`.
/// The sample and the position after it.
pub open spec fn ascii_one(body: Seq<u8>, bitmap: bool, maxval: u32, c: int) -> core::result::Result<
    (u16, int),
    Fail,
> {
    if bitmap {
        let a = skip_wsc(body, c);
        if a >= body.len() {
            Err(Fail::Invalid("PBM ASCII: ran out of bytes"@))
        } else if body[a] == 0x30 {
            Ok((0u16, a + 1))
        } else if body[a] == 0x31 {
            Ok((1u16, a + 1))
        } else {
            Err(Fail::Invalid("PBM ASCII: expected '0'/'1', got "@ + hex_text(body[a])))
        }
    } else {
        match dec_token(body, c) {
            Token::Value(v, e) => Ok(
                (
                    (if v > maxval {
                        maxval
                    } else {
                        v
                    }) as u16,
                    e,
                ),
            ),
            Token::Missing => Err(Fail::Invalid("Netpbm: expected decimal integer in header/body"@)),
            Token::Overflow => Err(
                Fail::Invalid(
                    overflow_text(body.subrange(skip_wsc(body, c), digits_end(body, skip_wsc(body, c)))),
                ),
            ),
        }
    }
}

/// `n` plain samples read one after another from `c`.
pub open spec fn ascii_read(body: Seq<u8>, bitmap: bool, maxval: u32, c: int, n: nat) -> core::result::Result<
    (Seq<u16>, int),
    Fail,
>
    decreases n,
{
    if n == 0 {
        Ok((Seq::empty(), c))
    } else {
        match ascii_read(body, bitmap, maxval, c, (n - 1) as nat) {
            Err(f) => Err(f),
            Ok(p) => match ascii_one(body, bitmap, maxval, p.1) {
                Err(f) => Err(f),
                Ok(q) => Ok((p.0.push(q.0), q.1)),
            },
        }
    }
}

/// What [`decode_ascii_consumed`] yields: the `width * height * depth`
/// samples of a P1/P2/P3 body and the position after the last one. A
/// sample count that overflows, or exceeds what the body could hold, is an
/// error, as is a magic that is not plain.
pub open spec fn ascii_samples_spec(m: HeaderModel, body: Seq<u8>) -> core::result::Result<
    (Seq<u16>, int),
    Fail,
> {
    let total = m.width * m.height * m.depth;
    if m.width * m.height > usize::MAX || total > usize::MAX {
        Err(Fail::Invalid("Netpbm: dimension overflow"@))
    } else if total > body.len() + 1 {
        Err(Fail::Invalid("Netpbm ASCII: declared dimensions exceed body length"@))
    } else if m.magic == Magic::P1AsciiBitmap {
        ascii_read(body, true, m.maxval, 0, total as nat)
    } else if m.magic == Magic::P2AsciiGraymap || m.magic == Magic::P3AsciiPixmap {
        ascii_read(body, false, m.maxval, 0, total as nat)
    } else {
        Err(Fail::Invalid("decode_ascii called with binary magic"@))
    }
}

/// Once a sample fails to read, every longer read fails the same way.
pub proof fn lemma_ascii_read_err(body: Seq<u8>, bitmap: bool, maxval: u32, c: int, k: nat, n: nat)
    requires
        k <= n,
        ascii_read(body, bitmap, maxval, c, k) is Err,
    ensures
        ascii_read(body, bitmap, maxval, c, n) == ascii_read(body, bitmap, maxval, c, k),
    decreases n - k,
{
    if k < n {
        lemma_ascii_read_err(body, bitmap, maxval, c, k + 1, n);
    }
}

pub proof fn lemma_ascii_read_bounds(body: Seq<u8>, bitmap: bool, maxval: u32, c: int, n: nat)
    requires
        0 <= c <= body.len(),
    ensures
        ascii_read(body, bitmap, maxval, c, n) matches Ok(p) ==> c <= p.1 <= body.len()
            && p.0.len() == n,
    decreases n,
{
    if n > 0 {
        lemma_ascii_read_bounds(body, bitmap, maxval, c, (n - 1) as nat);
        if let Ok(p) = ascii_read(body, bitmap, maxval, c, (n - 1) as nat) {
            lemma_skip_wsc_bounds(body, p.1);
            crate::lex::lemma_digits_end(body, skip_wsc(body, p.1));
        }
    }
}

/// Decode the body of a P1/P2/P3 image.
pub fn decode_ascii(h: &Header, body: &[u8]) -> (r: Result<DecodedSamples>)
    ensures
        match (r, ascii_samples_spec(h@, body@)) {
            (Ok(ds), Ok(p)) => ds.width == h.width && ds.height == h.height && ds.depth
                == h.depth && ds.maxval == h.maxval && ds.samples@ == p.0,
            (Err(e), Err(f)) => crate::error::fail_of(e) == f,
            _ => false,
        },
{
    match decode_ascii_consumed(h, body) {
        Ok((s, _)) => Ok(s),
        Err(e) => Err(e),
    }
}

/// Decode the body of a P1/P2/P3 image and report how many bytes of
/// `body` were read, up to and including the last sample token.
pub fn decode_ascii_consumed(h: &Header, body: &[u8]) -> (r: Result<(DecodedSamples, usize)>)
    ensures
        match (r, ascii_samples_spec(h@, body@)) {
            (Ok((ds, n)), Ok(p)) => ds.width == h.width && ds.height == h.height && ds.depth
                == h.depth && ds.maxval == h.maxval && ds.samples@ == p.0 && n == p.1,
            (Err(e), Err(f)) => crate::error::fail_of(e) == f,
            _ => false,
        },
{
    let ghost m = h@;
    let len = body.len();
    let w = h.width as usize;
    let hh = h.height as usize;
    let depth = h.depth as usize;
    let total = match w.checked_mul(hh) {
        Some(v) => match v.checked_mul(depth) {
            Some(t) => t,
            None => return Err(PbmError::invalid("Netpbm: dimension overflow")),
        },
        None => {
            proof {
                if depth > 0 {
                    assert(w * hh * depth >= w * hh) by (nonlinear_arith)
                        requires
                            depth >= 1,
                    ;
                } else {
                    assert(w * hh > usize::MAX);
                }
            }
            return Err(PbmError::invalid("Netpbm: dimension overflow"));
        },
    };
    if total > len.saturating_add(1) {
        return Err(PbmError::invalid("Netpbm ASCII: declared dimensions exceed body length"));
    }
    let bitmap = match h.magic {
        Magic::P1AsciiBitmap => true,
        Magic::P2AsciiGraymap | Magic::P3AsciiPixmap => false,
        _ => return Err(PbmError::invalid("decode_ascii called with binary magic")),
    };
    let mv = h.maxval;
    let mut out: Vec<u16> = Vec::new();
    let mut cursor: usize = 0;
    let mut k: usize = 0;
    assert(ascii_samples_spec(h@, body@) == ascii_read(body@, bitmap, mv, 0, total as nat));
    while k < total
        invariant
            len == body@.len(),
            ascii_samples_spec(h@, body@) == ascii_read(body@, bitmap, mv, 0, total as nat),
            k <= total,
            cursor <= len,
            ascii_read(body@, bitmap, mv, 0, k as nat) == Ok::<(Seq<u16>, int), Fail>(
                (out@, cursor as int),
            ),
        decreases total - k,
    {
        let ghost c0 = cursor as int;
        if bitmap {
            proof {
                lemma_skip_wsc_bounds(body@, c0);
            }
            skip_ws_and_comments(body, &mut cursor);
            if cursor >= len {
                proof {
                    lemma_ascii_read_err(body@, bitmap, mv, 0, (k + 1) as nat, total as nat);
                }
                return Err(PbmError::invalid("PBM ASCII: ran out of bytes"));
            }
            let c = body[cursor];
            cursor += 1;
            if c == 0x30 {
                out.push(0);
            } else if c == 0x31 {
                out.push(1);
            } else {
                proof {
                    lemma_ascii_read_err(body@, bitmap, mv, 0, (k + 1) as nat, total as nat);
                }
                let mut msg = String::from_str("PBM ASCII: expected '0'/'1', got ");
                push_hex(&mut msg, c);
                return Err(PbmError::InvalidData(msg));
            }
        } else {
            proof {
                lemma_skip_wsc_bounds(body@, c0);
                lemma_skip_wsc_idem(body@, c0);
            }
            skip_ws_and_comments(body, &mut cursor);
            let a = cursor;
            proof {
                lemma_digits_end(body@, a as int);
            }
            assert(dec_token(body@, a as int) == dec_token(body@, c0));
            match next_dec_token(body, &mut cursor) {
                Some(Some(v)) => {
                    if v > mv {
                        out.push(mv as u16);
                    } else {
                        out.push(v as u16);
                    }
                },
                Some(None) => {
                    proof {
                        lemma_ascii_read_err(body@, bitmap, mv, 0, (k + 1) as nat, total as nat);
                    }
                    return Err(PbmError::invalid("Netpbm: expected decimal integer in header/body"));
                },
                None => {
                    proof {
                        lemma_ascii_read_err(body@, bitmap, mv, 0, (k + 1) as nat, total as nat);
                    }
                    return Err(overflow_error(body, a, cursor));
                },
            }
        }
        k += 1;
    }
    Ok((DecodedSamples { width: h.width, height: h.height, depth: h.depth, maxval: h.maxval, samples: out }, cursor))
}

// ---------------------------------------------------------------------------
// Writers
// ---------------------------------------------------------------------------

/// The separator a plain writer puts before sample `i` of rows holding
/// `w` samples: nothing before the first, a LF at a row start, a space
/// otherwise.
pub open spec fn sep_before(i: int, w: int) -> Seq<u8> {
    if i == 0 {
        Seq::empty()
    } else if w > 0 && i % w == 0 {
        seq![0x0au8]
    } else {
        seq![0x20u8]
    }
}

/// The first `n` values of `f`, in decimal, with [`sep_before`] separators.
pub open spec fn plain_text(f: spec_fn(int) -> nat, n: int, w: int) -> Seq<u8>
    decreases n,
{
    if n <= 0 {
        Seq::empty()
    } else {
        plain_text(f, n - 1, w) + sep_before(n - 1, w) + dec_digits(f(n - 1))
    }
}

/// Each byte of `g` as a sample value.
pub open spec fn byte_values(g: Seq<u8>) -> spec_fn(int) -> nat {
    |i: int| g[i] as nat
}

/// A plain body: the samples' text followed by a final LF.
pub open spec fn plain_body(f: spec_fn(int) -> nat, n: int, w: int) -> Seq<u8> {
    plain_text(f, n, w).push(0x0a)
}

/// Append the decimal spelling of a byte.
pub fn write_u8_dec(out: &mut Vec<u8>, v: u8)
    ensures
        final(out)@ == old(out)@ + dec_digits(v as nat),
{
    reveal_with_fuel(dec_digits, 3);
    if v >= 100 {
        out.push(0x30 + v / 100);
        out.push(0x30 + (v / 10) % 10);
        out.push(0x30 + v % 10);
        assert(dec_digits(v as nat) =~= seq![(0x30 + v / 100) as u8, (0x30 + (v / 10) % 10) as u8, (0x30 + v % 10) as u8]);
    } else if v >= 10 {
        out.push(0x30 + v / 10);
        out.push(0x30 + v % 10);
        assert(dec_digits(v as nat) =~= seq![(0x30 + v / 10) as u8, (0x30 + v % 10) as u8]);
    } else {
        out.push(0x30 + v);
        assert(dec_digits(v as nat) =~= seq![(0x30 + v) as u8]);
    }
    assert(final(out)@ =~= old(out)@ + dec_digits(v as nat));
}

/// Append the decimal spelling of a 16-bit sample.
pub fn write_u16_dec(out: &mut Vec<u8>, v: u16)
    ensures
        final(out)@ == old(out)@ + dec_digits(v as nat),
{
    if v < 256 {
        write_u8_dec(out, v as u8);
    } else {
        write_dec(out, v as u64);
    }
}

/// Encode a plain body from 16-bit samples: each sample in decimal on a
/// line of its own (the canonical one-sample-per-line plain output,
/// whatever `width` the caller passes).
pub fn encode_ascii_body(samples: &[u16], width: u32) -> (r: Vec<u8>)
    ensures
        r@ == plain_body(|i: int| samples@[i] as nat, samples@.len() as int, 1),
{
    let ghost f = |i: int| samples@[i] as nat;
    let n = samples.len();
    let mut out: Vec<u8> = Vec::new();
    let mut i: usize = 0;
    while i < n
        invariant
            n == samples@.len(),
            i <= n,
            out@ == plain_text(f, i as int, 1),
            f == (|i: int| samples@[i] as nat),
        decreases n - i,
    {
        push_sep(&mut out, i, 1);
        write_u16_dec(&mut out, samples[i]);
        assert(out@ =~= plain_text(f, i + 1, 1));
        i += 1;
    }
    out.push(0x0a);
    out
}

/// Append [`sep_before`]`(i, w)`.
fn push_sep(out: &mut Vec<u8>, i: usize, w: usize)
    ensures
        final(out)@ == old(out)@ + sep_before(i as int, w as int),
{
    if i > 0 {
        if w > 0 && i % w == 0 {
            out.push(0x0a);
        } else {
            out.push(0x20);
        }
    }
    assert(final(out)@ =~= old(out)@ + sep_before(i as int, w as int));
}

/// Encode a plain body from 8-bit samples, `stride_samples` per line (see
/// [`encode_ascii_body`]).
pub fn encode_ascii_body_u8(samples: &[u8], stride_samples: usize) -> (r: Vec<u8>)
    ensures
        r@ == plain_body(|i: int| samples@[i] as nat, samples@.len() as int, stride_samples as int),
{
    let ghost f = |i: int| samples@[i] as nat;
    let w = stride_samples;
    let n = samples.len();
    let mut out: Vec<u8> = Vec::new();
    let mut i: usize = 0;
    while i < n
        invariant
            n == samples@.len(),
            w == stride_samples,
            i <= n,
            out@ == plain_text(f, i as int, w as int),
            f == (|i: int| samples@[i] as nat),
        decreases n - i,
    {
        push_sep(&mut out, i, w);
        write_u8_dec(&mut out, samples[i]);
        assert(out@ =~= plain_text(f, i + 1, w as int));
        i += 1;
    }
    out.push(0x0a);
    out
}

/// The plain P1 text of rows `0 .. y` of a bit plane: each pixel a `0` or
/// `1`, pixels of a row separated by spaces, each row ended by a LF.
pub open spec fn bits_text(rows: Seq<u8>, stride: int, w: int, y: int) -> Seq<u8>
    decreases y,
{
    if y <= 0 {
        Seq::empty()
    } else {
        bits_text(rows, stride, w, y - 1) + bits_row_text(rows, stride, w, y - 1, w) + seq![0x0au8]
    }
}

/// Pixels `0 .. x` of row `y` of a bit plane as plain P1 text.
pub open spec fn bits_row_text(rows: Seq<u8>, stride: int, w: int, y: int, x: int) -> Seq<u8>
    decreases x,
{
    if x <= 0 {
        Seq::empty()
    } else {
        bits_row_text(rows, stride, w, y, x - 1) + (if x - 1 == 0 {
            Seq::empty()
        } else {
            seq![0x20u8]
        }) + seq![(0x30 + bit_of(rows[y * stride + (x - 1) / 8], ((x - 1) % 8) as u8)) as u8]
    }
}

/// Encode a plain P1 body straight from `MonoBlack` rows.
pub fn encode_ascii_body_bits(rows: &[u8], row_stride: usize, width: usize, height: usize) -> (r:
    Vec<u8>)
    requires
        height > 0 ==> (height - 1) * row_stride + (width + 7) / 8 <= rows@.len(),
    ensures
        r@ == bits_text(rows@, row_stride as int, width as int, height as int),
{
    let mut out: Vec<u8> = Vec::new();
    let nr = rows.len();
    let mut y: usize = 0;
    while y < height
        invariant
            nr == rows@.len(),
            height > 0 ==> (height - 1) * row_stride + (width + 7) / 8 <= rows@.len(),
            y <= height,
            out@ == bits_text(rows@, row_stride as int, width as int, y as int),
        decreases height - y,
    {
        let ghost before = out@;
        let mut x: usize = 0;
        while x < width
            invariant
                nr == rows@.len(),
                height > 0 ==> (height - 1) * row_stride + (width + 7) / 8 <= rows@.len(),
                y < height,
                x <= width,
                out@ == before + bits_row_text(rows@, row_stride as int, width as int, y as int, x as int),
            decreases width - x,
        {
            if x != 0 {
                out.push(0x20);
            }
            proof {
                assert(y * row_stride + x / 8 < nr) by (nonlinear_arith)
                    requires
                        y < height,
                        x < width,
                        (height - 1) * row_stride + (width + 7) / 8 <= nr,
                ;
            }
            let b = rows[y * row_stride + x / 8];
            let bit = (b >> ((7 - (x % 8) as u8) as u8)) & 1;
            proof {
                assert(bit <= 1) by (bit_vector)
                    requires
                        bit == (b >> ((7 - (x % 8) as u8) as u8)) & 1,
                ;
            }
            out.push(0x30 + bit);
            assert(out@ =~= before + bits_row_text(rows@, row_stride as int, width as int, y as int, x + 1));
            x += 1;
        }
        out.push(0x0a);
        assert(out@ =~= bits_text(rows@, row_stride as int, width as int, y + 1));
        y += 1;
    }
    out
}

} // verus!
