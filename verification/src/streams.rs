//! Streams of concatenated images: whatever mix of binary and plain
//! images the writers put one after another, separated by whitespace, the
//! multi-image reader walks back into exactly those images.

use vstd::prelude::*;
use crate::ascii::{bits_text, plain_body};
use crate::decoder::{decode_spec, multi_spec, DecodedModel};
use crate::encoder::{ascii_bytes_spec, binary_layout, encode_bytes_spec, pnm_header_bytes};
use crate::error::Fail;
use crate::header::ws_end;
use crate::image::{lemma_row_bytes, PbmPixelFormat};
use crate::lex::is_ws_byte;
use crate::pfm::pfm_header_bytes;
use crate::plain_recode::lemma_plain_round_trip_prefix;
use crate::recode::{canonical, lemma_encode_then_decode_prefix};
use crate::encoder::unit_scale;

verus! {

/// A format the plain writer takes.
pub open spec fn plain_format(f: PbmPixelFormat) -> bool {
    f == PbmPixelFormat::MonoBlack || f == PbmPixelFormat::Gray8 || f == PbmPixelFormat::Rgb24
}

/// What a writer puts down for an image: the plain writer's text when
/// `plain`, the binary encoder's bytes otherwise.
#[verifier::opaque]
pub open spec fn written(d: DecodedModel, plain: bool) -> Seq<u8> {
    if plain {
        ascii_bytes_spec(d.data, d.stride as int, d.format, d.width, d.height)->Ok_0
    } else {
        encode_bytes_spec(d.data, d.stride as int, d.format, d.width, d.height)->Ok_0
    }
}

/// The bytes of a written image the reader takes: all of them, but for
/// the final LF of plain text.
pub open spec fn taken(d: DecodedModel, plain: bool) -> nat {
    if plain {
        (written(d, plain).len() - 1) as nat
    } else {
        written(d, plain).len()
    }
}

/// The images `ds` written one after another (plain where `plain` says
/// so), image `i` preceded by `gaps[i]`, and `trail` after the last.
pub open spec fn written_stream(
    ds: Seq<DecodedModel>,
    plain: Seq<bool>,
    gaps: Seq<Seq<u8>>,
    trail: Seq<u8>,
) -> Seq<u8>
    decreases ds.len(),
{
    if ds.len() == 0 {
        trail
    } else {
        gaps[0] + written(ds[0], plain[0]) + written_stream(
            ds.drop_first(),
            plain.drop_first(),
            gaps.drop_first(),
            trail,
        )
    }
}

/// Where each image of [`written_stream`] starts (counting from `base`),
/// with the image as the reader sees it.
pub open spec fn stream_images(ds: Seq<DecodedModel>, plain: Seq<bool>, gaps: Seq<Seq<u8>>, base: nat) -> Seq<
    (nat, DecodedModel),
>
    decreases ds.len(),
{
    if ds.len() == 0 {
        Seq::empty()
    } else {
        seq![
            (
                (base + gaps[0].len()) as nat,
                DecodedModel { consumed: taken(ds[0], plain[0]), ..ds[0] },
            ),
        ] + stream_images(
            ds.drop_first(),
            plain.drop_first(),
            gaps.drop_first(),
            (base + gaps[0].len() + written(ds[0], plain[0]).len()) as nat,
        )
    }
}

/// Every byte of `g` is whitespace.
pub open spec fn all_ws(g: Seq<u8>) -> bool {
    forall|k: int| 0 <= k < g.len() ==> is_ws_byte(#[trigger] g[k])
}

/// The first image of `s` decodes to `dm`.
#[verifier::opaque]
pub open spec fn reads_as(s: Seq<u8>, dm: DecodedModel) -> bool {
    decode_spec(s) == Ok::<DecodedModel, Fail>(dm)
}

/// A written image, followed by any bytes, reads back as itself, the
/// reader taking [`taken`] bytes.
proof fn lemma_written_reads(d: DecodedModel, plain: bool, rest: Seq<u8>)
    requires
        canonical(d),
        plain ==> plain_format(d.format),
        plain ==> written(d, plain).len() <= usize::MAX,
    ensures
        reads_as(written(d, plain) + rest, DecodedModel { consumed: taken(d, plain), ..d }),
{
    lemma_written_shape(d, plain);
    reveal(written);
    reveal(reads_as);
    if plain {
        lemma_plain_round_trip_prefix(d, rest);
    } else {
        lemma_encode_then_decode_prefix(d, rest);
    }
}

/// Every image a writer puts down starts with `P`; plain text ends with a
/// LF.
pub proof fn lemma_written_shape(d: DecodedModel, plain: bool)
    requires
        canonical(d),
        plain ==> plain_format(d.format),
    ensures
        plain ==> ascii_bytes_spec(d.data, d.stride as int, d.format, d.width, d.height) is Ok,
        !plain ==> encode_bytes_spec(d.data, d.stride as int, d.format, d.width, d.height) is Ok,
        written(d, plain).len() > 0,
        written(d, plain)[0] == 0x50,
        plain ==> written(d, plain).last() == 0x0a,
{
    reveal(written);
    lemma_row_bytes(d.format, d.width as nat);
    crate::recode::lemma_canonical_rows_fit(d);
    let rb = d.stride as int;
    let h = d.height as int;
    if plain {
        let e = written(d, plain);
        if d.format == PbmPixelFormat::MonoBlack {
            let hdr = pnm_header_bytes(0x31, d.width as nat, d.height as nat, None);
            assert(hdr[0] == 0x50);
            let t = bits_text(d.data, rb, d.width as int, h);
            assert(t.last() == 0x0a);
            assert(e.last() == t.last());
        } else {
            let hdr = pnm_header_bytes(
                if d.format == PbmPixelFormat::Rgb24 {
                    0x33
                } else {
                    0x32
                },
                d.width as nat,
                d.height as nat,
                Some(255),
            );
            assert(hdr[0] == 0x50);
        }
    } else if d.format == PbmPixelFormat::GrayF32 || d.format == PbmPixelFormat::RgbF32 {
        assert(rb <= rb * h) by (nonlinear_arith)
            requires
                rb >= 0,
                h >= 1,
        ;
        let hdr = pfm_header_bytes(d.format, d.width as nat, d.height as nat, true, unit_scale());
        assert(hdr[0] == 0x50);
        let ch: int = if d.format == PbmPixelFormat::RgbF32 { 3 } else { 1 };
        assert(rb == d.width * ch * 4);
        assert(crate::pfm::pfm_encode_spec(d.data, rb, d.format, d.width as int, h, true, unit_scale()) is Ok);
    } else {
        let hdr = (binary_layout(d.format, d.width as nat, d.height as nat)->0).0;
        assert(hdr[0] == 0x50);
    }
}

/// Whitespace runs end where the whitespace does.
pub proof fn lemma_ws_end_run(s: Seq<u8>, i: int, j: int)
    requires
        0 <= i <= j <= s.len(),
        forall|k: int| i <= k < j ==> is_ws_byte(#[trigger] s[k]),
    ensures
        ws_end(s, i) == ws_end(s, j),
    decreases j - i,
{
    if i < j {
        lemma_ws_end_run(s, i + 1, j);
    }
}

/// The stream walker, started at `q`, reads the images `r`.
#[verifier::opaque]
pub open spec fn walks_to(s: Seq<u8>, q: int, r: Seq<(nat, DecodedModel)>) -> bool {
    multi_spec(s, q) == Ok::<Seq<(nat, DecodedModel)>, Fail>(r)
}

/// One step of the stream walker: skip whitespace, read an image, go on
/// after it.
proof fn lemma_multi_step(
    s: Seq<u8>,
    q: int,
    a: int,
    dm: DecodedModel,
    r: Seq<(nat, DecodedModel)>,
)
    requires
        0 <= q <= a < s.len(),
        ws_end(s, q) == a,
        reads_as(s.subrange(a, s.len() as int), dm),
        walks_to(s, a + dm.consumed, r),
    ensures
        walks_to(s, q, seq![(a as nat, dm)] + r),
{
    reveal(reads_as);
    reveal(walks_to);
}

/// At the end of the input, after whitespace only, the walk is over.
proof fn lemma_multi_end(s: Seq<u8>, q: int)
    requires
        0 <= q <= s.len(),
        ws_end(s, q) == s.len(),
    ensures
        walks_to(s, q, Seq::empty()),
{
    reveal(walks_to);
}

/// The stream walker, started anywhere in a run of whitespace that ends
/// a prefix, reads back every image of a written stream that follows.
#[verifier::spinoff_prover]
pub proof fn lemma_multi_stream_from(
    ds: Seq<DecodedModel>,
    plain: Seq<bool>,
    gaps: Seq<Seq<u8>>,
    trail: Seq<u8>,
    p: Seq<u8>,
    q: int,
)
    requires
        plain.len() == ds.len(),
        gaps.len() == ds.len(),
        forall|i: int| 0 <= i < ds.len() ==> canonical(#[trigger] ds[i]),
        forall|i: int| 0 <= i < ds.len() && #[trigger] plain[i] ==> plain_format(ds[i].format),
        forall|i: int| 0 <= i < gaps.len() ==> all_ws(#[trigger] gaps[i]),
        all_ws(trail),
        0 <= q <= p.len(),
        forall|k: int| q <= k < p.len() ==> is_ws_byte(#[trigger] p[k]),
        p.len() + written_stream(ds, plain, gaps, trail).len() <= usize::MAX,
    ensures
        walks_to(
            p + written_stream(ds, plain, gaps, trail),
            q,
            stream_images(ds, plain, gaps, p.len()),
        ),
    decreases ds.len(),
{
    let s = p + written_stream(ds, plain, gaps, trail);
    if ds.len() == 0 {
        assert(s =~= p + trail);
        assert forall|k: int| q <= k < s.len() implies is_ws_byte(#[trigger] s[k]) by {
            if k < p.len() {
                assert(s[k] == p[k]);
            } else {
                assert(s[k] == trail[k - p.len()]);
            }
        }
        lemma_ws_end_run(s, q, s.len() as int);
        lemma_multi_end(s, q);
    } else {
        let d0 = ds[0];
        let b0 = plain[0];
        let rest = ds.drop_first();
        let prest = plain.drop_first();
        assert(canonical(d0));
        assert(b0 ==> plain_format(d0.format));
        assert forall|i: int| 0 <= i < rest.len() implies canonical(#[trigger] rest[i]) by {
            assert(rest[i] == ds[i + 1]);
        }
        assert forall|i: int| 0 <= i < rest.len() && #[trigger] prest[i] implies plain_format(
            rest[i].format,
        ) by {
            assert(rest[i] == ds[i + 1]);
            assert(prest[i] == plain[i + 1]);
        }
        let gap = gaps[0];
        let grest = gaps.drop_first();
        assert(all_ws(gaps[0]));
        assert forall|i: int| 0 <= i < grest.len() implies all_ws(#[trigger] grest[i]) by {
            assert(grest[i] == gaps[i + 1]);
        }
        let e0 = written(d0, b0);
        let tail = written_stream(rest, prest, grest, trail);
        lemma_written_shape(d0, b0);
        let a: int = p.len() + gap.len() as int;
        assert(s =~= p + gap + e0 + tail);
        assert forall|k: int| q <= k < a implies is_ws_byte(#[trigger] s[k]) by {
            if k < p.len() {
                assert(s[k] == p[k]);
            } else {
                assert(s[k] == gap[k - p.len()]);
            }
        }
        assert(s[a] == e0[0]);
        assert(ws_end(s, a) == a);
        lemma_ws_end_run(s, q, a);
        assert(s.subrange(a, s.len() as int) =~= e0 + tail);
        let p2 = p + gap + e0;
        assert(s =~= p2 + tail);
        assert(p2.len() == a + e0.len());
        let dm = DecodedModel { consumed: taken(d0, b0), ..d0 };
        assert(b0 ==> e0.len() <= usize::MAX);
        lemma_written_reads(d0, b0, tail);
        if b0 {
            let q2 = a + e0.len() - 1;
            assert(p2[q2] == e0.last());
            lemma_multi_stream_from(rest, prest, grest, trail, p2, q2);
        } else {
            lemma_multi_stream_from(rest, prest, grest, trail, p2, p2.len() as int);
        }
        lemma_multi_step(s, q, a, dm, stream_images(rest, prest, grest, p2.len()));
    }
}

/// A stream of images in the decoder's shape, each written by the binary
/// encoder (float formats as Portable FloatMaps) or, for a format it
/// takes, the plain writer, each preceded by its own run of whitespace and
/// the last followed by one, is walked by the multi-image reader back into
/// exactly those images, in order, each found where it was written.
pub proof fn lemma_multi_stream(
    ds: Seq<DecodedModel>,
    plain: Seq<bool>,
    gaps: Seq<Seq<u8>>,
    trail: Seq<u8>,
)
    requires
        plain.len() == ds.len(),
        gaps.len() == ds.len(),
        forall|i: int| 0 <= i < ds.len() ==> canonical(#[trigger] ds[i]),
        forall|i: int| 0 <= i < ds.len() && #[trigger] plain[i] ==> plain_format(ds[i].format),
        forall|i: int| 0 <= i < gaps.len() ==> all_ws(#[trigger] gaps[i]),
        all_ws(trail),
        written_stream(ds, plain, gaps, trail).len() <= usize::MAX,
    ensures
        multi_spec(written_stream(ds, plain, gaps, trail), 0) == Ok::<
            Seq<(nat, DecodedModel)>,
            Fail,
        >(stream_images(ds, plain, gaps, 0)),
{
    lemma_multi_stream_from(ds, plain, gaps, trail, Seq::empty(), 0);
    assert(Seq::<u8>::empty() + written_stream(ds, plain, gaps, trail) =~= written_stream(
        ds,
        plain,
        gaps,
        trail,
    ));
    reveal(walks_to);
}

} // verus!
