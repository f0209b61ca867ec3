//! Netpbm header parsing: PNM (P1-P6), PAM (P7) and Portable FloatMap
//! (`Pf` / `PF`).

use vstd::prelude::*;
use vstd::slice::slice_subrange;
use vstd::string::StringSliceAdditionalSpecFns;
use vstd::utf8::{decode_utf8, valid_utf8};
use crate::error::{Fail, PbmError, Result, num_text, push_num, push_text, utf8_text};
use vstd::string::StringExecFns;
use crate::lex::{
    dec_token, digits_end, is_ws, is_ws_byte, lemma_skip_wsc_bounds, lemma_skip_wsc_idem, next_dec_token,
    skip_wsc, skip_ws_and_comments, Token,
};
use crate::numtext::{
    classify_float_literal, find_byte, float_literal, float_literal_is_degenerate,
    float_literal_is_inf, float_literal_is_nan, float_literal_is_negative, float_literal_is_zero, lemma_find_byte, parse_uint, trim_unicode_ws, trim_uws,
    uint_error, uint_error_text, uint_text, utf8_string,
};

verus! {

/// One of the Netpbm magic numbers.
#[derive(Debug, Clone, Copy, PartialEq, Eq, Structural)]
pub enum Magic {
    /// `P1` — ASCII PBM (1 bit, 1 = black).
    P1AsciiBitmap,
    /// `P2` — ASCII PGM (gray).
    P2AsciiGraymap,
    /// `P3` — ASCII PPM (RGB).
    P3AsciiPixmap,
    /// `P4` — binary PBM.
    P4BinaryBitmap,
    /// `P5` — binary PGM.
    P5BinaryGraymap,
    /// `P6` — binary PPM.
    P6BinaryPixmap,
    /// `P7` — binary PAM with a multi-line header.
    P7Pam,
    /// `Pf` — single-channel Portable FloatMap.
    PfPfmGrayFloat,
    /// `PF` — 3-channel Portable FloatMap.
    PFPfmRgbFloat,
}

/// The magic named by the first two bytes of `s`, if any.
pub open spec fn magic_of(s: Seq<u8>) -> Option<Magic> {
    if s.len() < 2 || s[0] != 0x50 {
        None
    } else if s[1] == 0x31 {
        Some(Magic::P1AsciiBitmap)
    } else if s[1] == 0x32 {
        Some(Magic::P2AsciiGraymap)
    } else if s[1] == 0x33 {
        Some(Magic::P3AsciiPixmap)
    } else if s[1] == 0x34 {
        Some(Magic::P4BinaryBitmap)
    } else if s[1] == 0x35 {
        Some(Magic::P5BinaryGraymap)
    } else if s[1] == 0x36 {
        Some(Magic::P6BinaryPixmap)
    } else if s[1] == 0x37 {
        Some(Magic::P7Pam)
    } else if s[1] == 0x46 {
        Some(Magic::PFPfmRgbFloat)
    } else if s[1] == 0x66 {
        Some(Magic::PfPfmGrayFloat)
    } else {
        None
    }
}

/// The second byte of a magic's on-disk identifier.
pub open spec fn magic_digit(m: Magic) -> u8 {
    match m {
        Magic::P1AsciiBitmap => 0x31,
        Magic::P2AsciiGraymap => 0x32,
        Magic::P3AsciiPixmap => 0x33,
        Magic::P4BinaryBitmap => 0x34,
        Magic::P5BinaryGraymap => 0x35,
        Magic::P6BinaryPixmap => 0x36,
        Magic::P7Pam => 0x37,
        Magic::PfPfmGrayFloat => 0x66,
        Magic::PFPfmRgbFloat => 0x46,
    }
}

impl Magic {
    pub open spec fn spec_is_pfm(self) -> bool {
        self == Magic::PfPfmGrayFloat || self == Magic::PFPfmRgbFloat
    }

    pub open spec fn spec_is_ascii(self) -> bool {
        self == Magic::P1AsciiBitmap || self == Magic::P2AsciiGraymap || self
            == Magic::P3AsciiPixmap
    }

    pub open spec fn spec_channels(self) -> Option<nat> {
        match self {
            Magic::P1AsciiBitmap | Magic::P4BinaryBitmap | Magic::P2AsciiGraymap
            | Magic::P5BinaryGraymap | Magic::PfPfmGrayFloat => Some(1),
            Magic::P3AsciiPixmap | Magic::P6BinaryPixmap | Magic::PFPfmRgbFloat => Some(3),
            Magic::P7Pam => None,
        }
    }

    /// Recognise the magic at the start of `b`.
    pub fn from_bytes(b: &[u8]) -> (r: Option<Self>)
        ensures
            r == magic_of(b@),
    {
        if b.len() < 2 || b[0] != 0x50 {
            return None;
        }
        let c = b[1];
        if c == 0x31 {
            Some(Magic::P1AsciiBitmap)
        } else if c == 0x32 {
            Some(Magic::P2AsciiGraymap)
        } else if c == 0x33 {
            Some(Magic::P3AsciiPixmap)
        } else if c == 0x34 {
            Some(Magic::P4BinaryBitmap)
        } else if c == 0x35 {
            Some(Magic::P5BinaryGraymap)
        } else if c == 0x36 {
            Some(Magic::P6BinaryPixmap)
        } else if c == 0x37 {
            Some(Magic::P7Pam)
        } else if c == 0x46 {
            Some(Magic::PFPfmRgbFloat)
        } else if c == 0x66 {
            Some(Magic::PfPfmGrayFloat)
        } else {
            None
        }
    }

    /// `true` for the two Portable FloatMap magics.
    pub fn is_pfm(self) -> (r: bool)
        ensures
            r == self.spec_is_pfm(),
    {
        matches!(self, Magic::PfPfmGrayFloat | Magic::PFPfmRgbFloat)
    }

    /// `true` for P1/P2/P3, whose samples are whitespace-separated decimals.
    pub fn is_ascii(self) -> (r: bool)
        ensures
            r == self.spec_is_ascii(),
    {
        matches!(self, Magic::P1AsciiBitmap | Magic::P2AsciiGraymap | Magic::P3AsciiPixmap)
    }

    /// `true` for the binary-bodied magics: `!is_ascii()`.
    pub fn is_binary(self) -> (r: bool)
        ensures
            r == !self.spec_is_ascii(),
    {
        !self.is_ascii()
    }

    /// `true` for the classic PNM/PAM magics: `!is_pfm()`.
    pub fn is_pnm(self) -> (r: bool)
        ensures
            r == !self.spec_is_pfm(),
    {
        !self.is_pfm()
    }

    /// The two on-disk identifier bytes (`P1` … `P7`, `Pf`, `PF`).
    pub fn wire_bytes(self) -> (r: [u8; 2])
        ensures
            r@ == seq![0x50u8, magic_digit(self)],
    {
        let d: u8 = match self {
            Magic::P1AsciiBitmap => 0x31,
            Magic::P2AsciiGraymap => 0x32,
            Magic::P3AsciiPixmap => 0x33,
            Magic::P4BinaryBitmap => 0x34,
            Magic::P5BinaryGraymap => 0x35,
            Magic::P6BinaryPixmap => 0x36,
            Magic::P7Pam => 0x37,
            Magic::PfPfmGrayFloat => 0x66,
            Magic::PFPfmRgbFloat => 0x46,
        };
        let r: [u8; 2] = [0x50, d];
        assert(r@ =~= seq![0x50u8, magic_digit(self)]);
        r
    }

    /// Channels per pixel implied by the magic; `None` for PAM.
    pub fn channels(self) -> (r: Option<usize>)
        ensures
            r matches Some(n) ==> self.spec_channels() == Some(n as nat),
            r is None ==> self.spec_channels() is None,
    {
        match self {
            Magic::P1AsciiBitmap | Magic::P4BinaryBitmap | Magic::P2AsciiGraymap
            | Magic::P5BinaryGraymap | Magic::PfPfmGrayFloat => Some(1),
            Magic::P3AsciiPixmap | Magic::P6BinaryPixmap | Magic::PFPfmRgbFloat => Some(3),
            Magic::P7Pam => None,
        }
    }
}

/// `wire_bytes` and `from_bytes` are inverse: every magic's identifier is
/// recognised as that magic.
pub proof fn lemma_wire_bytes_round_trip(m: Magic)
    ensures
        magic_of(seq![0x50u8, magic_digit(m)]) == Some(m),
{
}

/// PAM tuple type: the six standard names, or a user-defined name kept
/// verbatim.
#[derive(Debug, Clone, PartialEq, Eq)]
pub enum Tupltype {
    BlackAndWhite,
    Grayscale,
    Rgb,
    BlackAndWhiteAlpha,
    GrayscaleAlpha,
    RgbAlpha,
    /// A non-standard name; the channel layout comes from `DEPTH` alone.
    Custom(String),
}

/// What a tuple type is, as contracts speak of it.
pub enum TuplModel {
    BlackAndWhite,
    Grayscale,
    Rgb,
    BlackAndWhiteAlpha,
    GrayscaleAlpha,
    RgbAlpha,
    Custom(Seq<char>),
}

impl View for Tupltype {
    type V = TuplModel;

    open spec fn view(&self) -> TuplModel {
        match self {
            Tupltype::BlackAndWhite => TuplModel::BlackAndWhite,
            Tupltype::Grayscale => TuplModel::Grayscale,
            Tupltype::Rgb => TuplModel::Rgb,
            Tupltype::BlackAndWhiteAlpha => TuplModel::BlackAndWhiteAlpha,
            Tupltype::GrayscaleAlpha => TuplModel::GrayscaleAlpha,
            Tupltype::RgbAlpha => TuplModel::RgbAlpha,
            Tupltype::Custom(s) => TuplModel::Custom(s@),
        }
    }
}

pub open spec fn name_blackandwhite() -> Seq<u8> {
    seq![0x42u8, 0x4c, 0x41, 0x43, 0x4b, 0x41, 0x4e, 0x44, 0x57, 0x48, 0x49, 0x54, 0x45]
}

pub open spec fn name_grayscale() -> Seq<u8> {
    seq![0x47u8, 0x52, 0x41, 0x59, 0x53, 0x43, 0x41, 0x4c, 0x45]
}

pub open spec fn name_rgb() -> Seq<u8> {
    seq![0x52u8, 0x47, 0x42]
}

/// `_ALPHA`
pub open spec fn suffix_alpha() -> Seq<u8> {
    seq![0x5fu8, 0x41, 0x4c, 0x50, 0x48, 0x41]
}

/// The on-disk name of a standard tuple type (bytes), for a custom one the
/// UTF-8 encoding of its name.
pub open spec fn tupl_name_bytes(t: TuplModel) -> Seq<u8> {
    match t {
        TuplModel::BlackAndWhite => name_blackandwhite(),
        TuplModel::Grayscale => name_grayscale(),
        TuplModel::Rgb => name_rgb(),
        TuplModel::BlackAndWhiteAlpha => name_blackandwhite() + suffix_alpha(),
        TuplModel::GrayscaleAlpha => name_grayscale() + suffix_alpha(),
        TuplModel::RgbAlpha => name_rgb() + suffix_alpha(),
        TuplModel::Custom(s) => vstd::utf8::encode_utf8(s),
    }
}

/// The name [`Tupltype::name`] gives a tuple type.
pub open spec fn tupl_text(t: TuplModel) -> Seq<char> {
    match t {
        TuplModel::BlackAndWhite => "BLACKANDWHITE"@,
        TuplModel::Grayscale => "GRAYSCALE"@,
        TuplModel::Rgb => "RGB"@,
        TuplModel::BlackAndWhiteAlpha => "BLACKANDWHITE_ALPHA"@,
        TuplModel::GrayscaleAlpha => "GRAYSCALE_ALPHA"@,
        TuplModel::RgbAlpha => "RGB_ALPHA"@,
        TuplModel::Custom(s) => s,
    }
}

/// Channels a standard tuple type pins; `None` for a custom name.
pub open spec fn tupl_channels(t: TuplModel) -> Option<nat> {
    match t {
        TuplModel::BlackAndWhite | TuplModel::Grayscale => Some(1),
        TuplModel::BlackAndWhiteAlpha | TuplModel::GrayscaleAlpha => Some(2),
        TuplModel::Rgb => Some(3),
        TuplModel::RgbAlpha => Some(4),
        TuplModel::Custom(_) => None,
    }
}

/// `Tupltype::parse` on the UTF-8 bytes of its argument: trim Unicode
/// whitespace; empty is an error; the six standard names map to their
/// variants; anything else is a custom name.
pub open spec fn tupl_parse_spec(name: Seq<u8>) -> core::result::Result<TuplModel, Fail> {
    let t = trim_uws(name);
    if t.len() == 0 {
        Err(Fail::Invalid("PAM: TUPLTYPE value is empty"@))
    } else if t == name_blackandwhite() {
        Ok(TuplModel::BlackAndWhite)
    } else if t == name_grayscale() {
        Ok(TuplModel::Grayscale)
    } else if t == name_rgb() {
        Ok(TuplModel::Rgb)
    } else if t == name_blackandwhite() + suffix_alpha() {
        Ok(TuplModel::BlackAndWhiteAlpha)
    } else if t == name_grayscale() + suffix_alpha() {
        Ok(TuplModel::GrayscaleAlpha)
    } else if t == name_rgb() + suffix_alpha() {
        Ok(TuplModel::RgbAlpha)
    } else if valid_utf8(t) {
        Ok(TuplModel::Custom(decode_utf8(t)))
    } else {
        Err(Fail::Invalid("PAM: non-UTF-8 TUPLTYPE value"@))
    }
}

/// Byte-slice equality.
pub fn bytes_eq(a: &[u8], b: &[u8]) -> (r: bool)
    ensures
        r == (a@ == b@),
{
    if a.len() != b.len() {
        return false;
    }
    let mut i: usize = 0;
    while i < a.len()
        invariant
            i <= a@.len(),
            a@.len() == b@.len(),
            forall|k: int| 0 <= k < i ==> a@[k] == b@[k],
        decreases a@.len() - i,
    {
        if a[i] != b[i] {
            return false;
        }
        i += 1;
    }
    assert(a@ =~= b@);
    true
}

fn lit_blackandwhite() -> (r: [u8; 13])
    ensures
        r@ == name_blackandwhite(),
{
    let r: [u8; 13] = [0x42, 0x4c, 0x41, 0x43, 0x4b, 0x41, 0x4e, 0x44, 0x57, 0x48, 0x49, 0x54, 0x45];
    assert(r@ =~= name_blackandwhite());
    r
}

fn lit_grayscale() -> (r: [u8; 9])
    ensures
        r@ == name_grayscale(),
{
    let r: [u8; 9] = [0x47, 0x52, 0x41, 0x59, 0x53, 0x43, 0x41, 0x4c, 0x45];
    assert(r@ =~= name_grayscale());
    r
}

fn lit_rgb() -> (r: [u8; 3])
    ensures
        r@ == name_rgb(),
{
    let r: [u8; 3] = [0x52, 0x47, 0x42];
    assert(r@ =~= name_rgb());
    r
}

fn lit_blackandwhite_alpha() -> (r: [u8; 19])
    ensures
        r@ == name_blackandwhite() + suffix_alpha(),
{
    let r: [u8; 19] = [
        0x42, 0x4c, 0x41, 0x43, 0x4b, 0x41, 0x4e, 0x44, 0x57, 0x48, 0x49, 0x54, 0x45, 0x5f, 0x41,
        0x4c, 0x50, 0x48, 0x41,
    ];
    assert(r@ =~= name_blackandwhite() + suffix_alpha());
    r
}

fn lit_grayscale_alpha() -> (r: [u8; 15])
    ensures
        r@ == name_grayscale() + suffix_alpha(),
{
    let r: [u8; 15] = [
        0x47, 0x52, 0x41, 0x59, 0x53, 0x43, 0x41, 0x4c, 0x45, 0x5f, 0x41, 0x4c, 0x50, 0x48, 0x41,
    ];
    assert(r@ =~= name_grayscale() + suffix_alpha());
    r
}

fn lit_rgb_alpha() -> (r: [u8; 9])
    ensures
        r@ == name_rgb() + suffix_alpha(),
{
    let r: [u8; 9] = [0x52, 0x47, 0x42, 0x5f, 0x41, 0x4c, 0x50, 0x48, 0x41];
    assert(r@ =~= name_rgb() + suffix_alpha());
    r
}

/// Tuple-type parsing on bytes (see [`tupl_parse_spec`]).
pub fn parse_tupltype_bytes(name: &[u8]) -> (r: Result<Tupltype>)
    ensures
        match (r, tupl_parse_spec(name@)) {
            (Ok(t), Ok(m)) => t@ == m,
            (Err(e), Err(f)) => crate::error::fail_of(e) == f,
            _ => false,
        },
{
    let (s, e) = trim_unicode_ws(name);
    let t = slice_subrange(name, s, e);
    if t.len() == 0 {
        return Err(PbmError::invalid("PAM: TUPLTYPE value is empty"));
    }
    if bytes_eq(t, lit_blackandwhite().as_slice()) {
        Ok(Tupltype::BlackAndWhite)
    } else if bytes_eq(t, lit_grayscale().as_slice()) {
        Ok(Tupltype::Grayscale)
    } else if bytes_eq(t, lit_rgb().as_slice()) {
        Ok(Tupltype::Rgb)
    } else if bytes_eq(t, lit_blackandwhite_alpha().as_slice()) {
        Ok(Tupltype::BlackAndWhiteAlpha)
    } else if bytes_eq(t, lit_grayscale_alpha().as_slice()) {
        Ok(Tupltype::GrayscaleAlpha)
    } else if bytes_eq(t, lit_rgb_alpha().as_slice()) {
        Ok(Tupltype::RgbAlpha)
    } else {
        match utf8_string(t) {
            Some(s) => Ok(Tupltype::Custom(s)),
            None => Err(PbmError::invalid("PAM: non-UTF-8 TUPLTYPE value")),
        }
    }
}

impl Tupltype {
    /// Parse a TUPLTYPE name: the six standard names, or any other
    /// non-empty (trimmed) text as [`Tupltype::Custom`].
    pub fn parse(name: &str) -> (r: Result<Self>)
        ensures
            match (r, tupl_parse_spec(name.spec_bytes())) {
                (Ok(t), Ok(m)) => t@ == m,
                (Err(e), Err(f)) => crate::error::fail_of(e) == f,
                _ => false,
            },
    {
        parse_tupltype_bytes(name.as_bytes())
    }

    /// Channels implied by a standard tuple type; `None` for a custom one.
    pub fn channels(&self) -> (r: Option<usize>)
        ensures
            r matches Some(n) ==> tupl_channels(self@) == Some(n as nat),
            r is None ==> tupl_channels(self@) is None,
    {
        match self {
            Tupltype::BlackAndWhite | Tupltype::Grayscale => Some(1),
            Tupltype::BlackAndWhiteAlpha | Tupltype::GrayscaleAlpha => Some(2),
            Tupltype::Rgb => Some(3),
            Tupltype::RgbAlpha => Some(4),
            Tupltype::Custom(_) => None,
        }
    }

    /// `true` for [`Tupltype::Custom`].
    pub fn is_custom(&self) -> (r: bool)
        ensures
            r == (self@ is Custom),
    {
        matches!(self, Tupltype::Custom(_))
    }

    /// Wire name of the tuple type; a custom name is returned verbatim.
    pub fn name(&self) -> (r: &str)
        ensures
            match self {
                Tupltype::BlackAndWhite => r@ == "BLACKANDWHITE"@,
                Tupltype::Grayscale => r@ == "GRAYSCALE"@,
                Tupltype::Rgb => r@ == "RGB"@,
                Tupltype::BlackAndWhiteAlpha => r@ == "BLACKANDWHITE_ALPHA"@,
                Tupltype::GrayscaleAlpha => r@ == "GRAYSCALE_ALPHA"@,
                Tupltype::RgbAlpha => r@ == "RGB_ALPHA"@,
                Tupltype::Custom(s) => r@ == s@,
            },
    {
        match self {
            Tupltype::BlackAndWhite => "BLACKANDWHITE",
            Tupltype::Grayscale => "GRAYSCALE",
            Tupltype::Rgb => "RGB",
            Tupltype::BlackAndWhiteAlpha => "BLACKANDWHITE_ALPHA",
            Tupltype::GrayscaleAlpha => "GRAYSCALE_ALPHA",
            Tupltype::RgbAlpha => "RGB_ALPHA",
            Tupltype::Custom(s) => s.as_str(),
        }
    }
}


// ---------------------------------------------------------------------------
// Header model
// ---------------------------------------------------------------------------

/// Portable FloatMap metadata: the byte order chosen by the sign of the
/// scale line, and the scale line itself.
#[derive(Debug, Clone, PartialEq, Eq)]
pub struct PfmInfo {
    /// `true` when the on-disk samples are little-endian (a negative scale
    /// line), `false` for big-endian (a positive one).
    pub little_endian: bool,
    /// The scale line with surrounding whitespace removed: an IEEE-754
    /// literal (never NaN) whose absolute value is the producer's scale
    /// factor.
    pub scale_literal: Vec<u8>,
}

/// What [`PfmInfo`] holds, as contracts speak of it.
pub struct PfmModel {
    pub little_endian: bool,
    pub scale_literal: Seq<u8>,
}

impl View for PfmInfo {
    type V = PfmModel;

    open spec fn view(&self) -> PfmModel {
        PfmModel { little_endian: self.little_endian, scale_literal: self.scale_literal@ }
    }
}

/// Parsed header, common to every Netpbm magic.
#[derive(Debug, Clone)]
pub struct Header {
    pub magic: Magic,
    pub width: u32,
    pub height: u32,
    /// Maximum sample value: `1` for P1/P4, 1..=65535 for the other PNM/PAM
    /// magics, `0` for Portable FloatMap.
    pub maxval: u32,
    /// Channels per pixel: implied by the magic, or PAM's `DEPTH`.
    pub depth: u32,
    /// PAM's `TUPLTYPE`, when the header gave one.
    pub tupltype: Option<Tupltype>,
    /// Index of the first byte after the header.
    pub data_offset: usize,
    /// Byte order and scale for the Portable FloatMap magics.
    pub pfm: Option<PfmInfo>,
}

/// What a [`Header`] holds, as contracts speak of it.
pub struct HeaderModel {
    pub magic: Magic,
    pub width: u32,
    pub height: u32,
    pub maxval: u32,
    pub depth: u32,
    pub tupl: Option<TuplModel>,
    pub data_offset: nat,
    pub pfm: Option<PfmModel>,
}

pub open spec fn opt_tupl_view(t: Option<Tupltype>) -> Option<TuplModel> {
    match t {
        Some(x) => Some(x@),
        None => None,
    }
}

impl View for Header {
    type V = HeaderModel;

    open spec fn view(&self) -> HeaderModel {
        HeaderModel {
            magic: self.magic,
            width: self.width,
            height: self.height,
            maxval: self.maxval,
            depth: self.depth,
            tupl: opt_tupl_view(self.tupltype),
            data_offset: self.data_offset as nat,
            pfm: match self.pfm {
                Some(p) => Some(p@),
                None => None,
            },
        }
    }
}

/// Bits per on-disk sample: 1 for P1/P4, 32 for Portable FloatMap, 16 when
/// `maxval > 255`, otherwise 8.
pub open spec fn bits_per_sample_spec(magic: Magic, maxval: u32) -> u32 {
    match magic {
        Magic::P1AsciiBitmap | Magic::P4BinaryBitmap => 1,
        Magic::PfPfmGrayFloat | Magic::PFPfmRgbFloat => 32,
        _ => if maxval > 255 {
            16
        } else {
            8
        },
    }
}

impl Header {
    /// Bits per sample on disk (see [`bits_per_sample_spec`]).
    pub fn bits_per_sample(&self) -> (r: u32)
        ensures
            r == bits_per_sample_spec(self.magic, self.maxval),
    {
        match self.magic {
            Magic::P1AsciiBitmap | Magic::P4BinaryBitmap => 1,
            Magic::PfPfmGrayFloat | Magic::PFPfmRgbFloat => 32,
            _ => if self.maxval > 255 {
                16
            } else {
                8
            },
        }
    }
}

// ---------------------------------------------------------------------------
// Lines and tokens
// ---------------------------------------------------------------------------

/// First index at or after `i` that is not Netpbm whitespace.
pub open spec fn ws_end(s: Seq<u8>, i: int) -> int
    decreases s.len() - i,
{
    if 0 <= i < s.len() && is_ws_byte(s[i]) {
        ws_end(s, i + 1)
    } else {
        i
    }
}

/// First index at or after `i` that is Netpbm whitespace (or the end).
pub open spec fn token_end(s: Seq<u8>, i: int) -> int
    decreases s.len() - i,
{
    if 0 <= i < s.len() && !is_ws_byte(s[i]) {
        token_end(s, i + 1)
    } else {
        i
    }
}

/// Largest `k <= j` (and `>= i`) such that `s[k - 1]` is not whitespace.
pub open spec fn ws_start_back(s: Seq<u8>, i: int, j: int) -> int
    decreases j - i,
{
    if i < j && is_ws_byte(s[j - 1]) {
        ws_start_back(s, i, j - 1)
    } else {
        j
    }
}

/// `s` with leading and trailing Netpbm whitespace removed.
pub open spec fn trim_ws(s: Seq<u8>) -> Seq<u8> {
    let i = ws_end(s, 0);
    s.subrange(i, ws_start_back(s, i, s.len() as int))
}

pub proof fn lemma_ws_end(s: Seq<u8>, i: int)
    requires
        0 <= i <= s.len(),
    ensures
        i <= ws_end(s, i) <= s.len(),
        forall|k: int| i <= k < ws_end(s, i) ==> is_ws_byte(#[trigger] s[k]),
        ws_end(s, i) < s.len() ==> !is_ws_byte(s[ws_end(s, i)]),
    decreases s.len() - i,
{
    if i < s.len() && is_ws_byte(s[i]) {
        lemma_ws_end(s, i + 1);
    }
}

pub proof fn lemma_token_end(s: Seq<u8>, i: int)
    requires
        0 <= i <= s.len(),
    ensures
        i <= token_end(s, i) <= s.len(),
        forall|k: int| i <= k < token_end(s, i) ==> !is_ws_byte(#[trigger] s[k]),
        token_end(s, i) < s.len() ==> is_ws_byte(s[token_end(s, i)]),
    decreases s.len() - i,
{
    if i < s.len() && !is_ws_byte(s[i]) {
        lemma_token_end(s, i + 1);
    }
}

pub proof fn lemma_ws_start_back(s: Seq<u8>, i: int, j: int)
    requires
        0 <= i <= j <= s.len(),
    ensures
        i <= ws_start_back(s, i, j) <= j,
    decreases j - i,
{
    if i < j && is_ws_byte(s[j - 1]) {
        lemma_ws_start_back(s, i, j - 1);
    }
}

/// Trimming from the back stops after any non-whitespace byte.
pub proof fn lemma_ws_start_back_keeps(s: Seq<u8>, i: int, j: int, k: int)
    requires
        0 <= i <= k < j <= s.len(),
        !is_ws_byte(s[k]),
    ensures
        k < ws_start_back(s, i, j),
    decreases j - i,
{
    if i < j && is_ws_byte(s[j - 1]) {
        lemma_ws_start_back_keeps(s, i, j - 1, k);
    }
}

/// Strip leading and trailing Netpbm whitespace.
fn trim_ascii(b: &[u8]) -> (r: &[u8])
    ensures
        r@ == trim_ws(b@),
{
    let mut i: usize = 0;
    while i < b.len() && is_ws(b[i])
        invariant
            i <= b@.len(),
            ws_end(b@, 0) == ws_end(b@, i as int),
        decreases b@.len() - i,
    {
        i += 1;
    }
    let mut j: usize = b.len();
    while j > i && is_ws(b[j - 1])
        invariant
            i <= j <= b@.len(),
            ws_start_back(b@, i as int, b@.len() as int) == ws_start_back(b@, i as int, j as int),
        decreases j - i,
    {
        j -= 1;
    }
    slice_subrange(b, i, j)
}

/// Split `b` at its first whitespace: the leading token, and the rest with
/// its leading whitespace removed.
fn split_first_token(b: &[u8]) -> (r: (&[u8], &[u8]))
    ensures
        r.0@ == b@.subrange(0, token_end(b@, 0)),
        r.1@ == b@.subrange(ws_end(b@, token_end(b@, 0)), b@.len() as int),
{
    let mut i: usize = 0;
    while i < b.len() && !is_ws(b[i])
        invariant
            i <= b@.len(),
            token_end(b@, 0) == token_end(b@, i as int),
        decreases b@.len() - i,
    {
        i += 1;
    }
    let k = i;
    while i < b.len() && is_ws(b[i])
        invariant
            k <= i <= b@.len(),
            k == token_end(b@, 0),
            ws_end(b@, k as int) == ws_end(b@, i as int),
        decreases b@.len() - i,
    {
        i += 1;
    }
    (slice_subrange(b, 0, k), slice_subrange(b, i, b.len()))
}

/// Position just past the first LF at or after `i` (or the end of `s`).
pub open spec fn eol_after(s: Seq<u8>, i: int) -> int {
    let e = find_byte(s, 0x0a, i);
    if e < s.len() {
        e + 1
    } else {
        s.len() as int
    }
}

/// Advance `cursor` past the next LF (or to the end of the input).
fn skip_eol(input: &[u8], cursor: &mut usize)
    requires
        *old(cursor) <= input@.len(),
    ensures
        *final(cursor) == eol_after(input@, *old(cursor) as int),
{
    let ghost i0 = *cursor as int;
    proof {
        lemma_find_byte(input@, 0x0a, i0);
    }
    while *cursor < input.len()
        invariant
            i0 <= *cursor <= input@.len(),
            i0 == *old(cursor),
            find_byte(input@, 0x0a, i0) == find_byte(input@, 0x0a, *cursor as int),
        decreases input@.len() - *cursor,
    {
        let c = input[*cursor];
        *cursor += 1;
        if c == 0x0a {
            return;
        }
    }
}

/// The PAM header line starting at `i` (`i < s.len()`): the bytes up to the
/// next LF with one trailing CR dropped, and the position after that LF.
pub open spec fn line_at(s: Seq<u8>, i: int) -> (Seq<u8>, int) {
    let e = find_byte(s, 0x0a, i);
    let raw = s.subrange(i, e);
    let line = if raw.len() > 0 && raw.last() == 0x0d {
        raw.drop_last()
    } else {
        raw
    };
    (line, if e < s.len() {
        e + 1
    } else {
        e
    })
}

/// Read one PAM header line (LF or CRLF terminated).
fn read_line<'a>(input: &'a [u8], cursor: &mut usize) -> (r: Result<&'a [u8]>)
    requires
        *old(cursor) <= input@.len(),
    ensures
        *old(cursor) >= input@.len() ==> (r matches Err(e) && crate::error::fail_of(e)
            == Fail::Invalid("PAM: header truncated (expected ENDHDR)"@)),
        *old(cursor) < input@.len() ==> (r matches Ok(l) && l@ == line_at(
            input@,
            *old(cursor) as int,
        ).0 && *final(cursor) == line_at(input@, *old(cursor) as int).1),
{
    if *cursor >= input.len() {
        return Err(PbmError::invalid("PAM: header truncated (expected ENDHDR)"));
    }
    let start = *cursor;
    proof {
        lemma_find_byte(input@, 0x0a, start as int);
    }
    while *cursor < input.len() && input[*cursor] != 0x0a
        invariant
            start <= *cursor <= input@.len(),
            find_byte(input@, 0x0a, start as int) == find_byte(input@, 0x0a, *cursor as int),
        decreases input@.len() - *cursor,
    {
        *cursor += 1;
    }
    let end = *cursor;
    if *cursor < input.len() {
        *cursor += 1;
    }
    if end > start && input[end - 1] == 0x0d {
        Ok(slice_subrange(input, start, end - 1))
    } else {
        Ok(slice_subrange(input, start, end))
    }
}


// ---------------------------------------------------------------------------
// Decimal tokens (header and plain bodies)
// ---------------------------------------------------------------------------

/// One header integer read from `i`: skip whitespace and comments, read the
/// digits, then step over the single whitespace byte that ends the token.
/// The result is the value and the position after it.
pub open spec fn header_uint(s: Seq<u8>, i: int) -> core::result::Result<(u32, int), Fail> {
    match dec_token(s, i) {
        Token::Value(v, e) => Ok(
            (
                v,
                if e < s.len() && is_ws_byte(s[e]) {
                    e + 1
                } else {
                    e
                },
            ),
        ),
        Token::Missing => Err(Fail::Invalid("Netpbm: expected decimal integer in header/body"@)),
        Token::Overflow => Err(
            Fail::Invalid(
                overflow_text(s.subrange(skip_wsc(s, i), digits_end(s, skip_wsc(s, i)))),
            ),
        ),
    }
}

/// A decimal token that does not fit in `u32`, as its error shows it.
pub open spec fn overflow_text(t: Seq<u8>) -> Seq<char> {
    "Netpbm: bad integer '"@ + utf8_text(t) + "': number too large to fit in target type u32"@
}

/// The error for the too-large decimal token `input[a..b]`.
pub fn overflow_error(input: &[u8], a: usize, b: usize) -> (e: PbmError)
    requires
        a <= b <= input@.len(),
    ensures
        crate::error::fail_of(e) == Fail::Invalid(overflow_text(input@.subrange(a as int, b as int))),
{
    let mut m = String::from_str("Netpbm: bad integer '");
    push_text(&mut m, slice_subrange(input, a, b));
    m.append("': number too large to fit in target type u32");
    PbmError::InvalidData(m)
}

/// The quoted text of `value` and why `u32` parsing refused it.
pub open spec fn bad_integer_text(value: Seq<u8>) -> Seq<char> {
    "PAM: bad integer '"@ + utf8_text(value) + "': "@ + uint_error_text(trim_uws(value))
}

/// The PAM-style error for an unsigned integer that did not parse.
pub fn bad_integer_error(value: &[u8]) -> (e: PbmError)
    ensures
        crate::error::fail_of(e) == Fail::Invalid(bad_integer_text(value@)),
{
    let mut m = String::from_str("PAM: bad integer '");
    push_text(&mut m, value);
    m.append("': ");
    m.append(uint_error(value));
    assert(m@ =~= bad_integer_text(value@));
    PbmError::InvalidData(m)
}

/// A maxval outside 1..=65535, as its error shows it (PAM or PNM header).
pub open spec fn maxval_text(pam: bool, v: u32) -> Seq<char> {
    (if pam {
        "PAM: maxval "@
    } else {
        "Netpbm: maxval "@
    }) + num_text(v as nat) + " out of range 1..=65535"@
}

fn maxval_error(pam: bool, v: u32) -> (e: PbmError)
    ensures
        crate::error::fail_of(e) == Fail::Invalid(maxval_text(pam, v)),
{
    let mut m = if pam {
        String::from_str("PAM: maxval ")
    } else {
        String::from_str("Netpbm: maxval ")
    };
    push_num(&mut m, v as u64);
    m.append(" out of range 1..=65535");
    assert(m@ =~= maxval_text(pam, v));
    PbmError::InvalidData(m)
}

/// Skip whitespace and `# … LF` comments, read one decimal integer, then
/// step over the one whitespace byte that terminates it.
pub fn next_uint(input: &[u8], cursor: &mut usize) -> (r: Result<u32>)
    ensures
        match (r, header_uint(input@, *old(cursor) as int)) {
            (Ok(v), Ok(p)) => v == p.0 && *final(cursor) == p.1,
            (Err(e), Err(f)) => crate::error::fail_of(e) == f,
            _ => false,
        },
        *old(cursor) <= input@.len() ==> *final(cursor) <= input@.len(),
{
    if *cursor > input.len() {
        return Err(PbmError::invalid("Netpbm: expected decimal integer in header/body"));
    }
    let ghost c0 = *cursor as int;
    proof {
        lemma_skip_wsc_bounds(input@, c0);
        lemma_skip_wsc_idem(input@, c0);
    }
    skip_ws_and_comments(input, cursor);
    let a = *cursor;
    proof {
        crate::lex::lemma_digits_end(input@, a as int);
    }
    assert(dec_token(input@, a as int) == dec_token(input@, c0));
    match next_dec_token(input, cursor) {
        Some(Some(v)) => {
            if *cursor < input.len() && is_ws(input[*cursor]) {
                *cursor += 1;
            }
            Ok(v)
        },
        Some(None) => Err(PbmError::invalid("Netpbm: expected decimal integer in header/body")),
        None => Err(overflow_error(input, a, *cursor)),
    }
}

/// [`next_uint`], except that a stream holding nothing but whitespace and
/// comments from `cursor` on gives `Ok(None)`.
pub fn try_next_uint(input: &[u8], cursor: &mut usize) -> (r: Result<Option<u32>>)
    ensures
        ({
            let a = skip_wsc(input@, *old(cursor) as int);
            if a >= input@.len() {
                r == Ok::<Option<u32>, PbmError>(None) && *final(cursor) == a
            } else {
                match (r, header_uint(input@, *old(cursor) as int)) {
                    (Ok(Some(v)), Ok(p)) => v == p.0 && *final(cursor) == p.1,
                    (Err(e), Err(f)) => crate::error::fail_of(e) == f,
                    _ => false,
                }
            }
        }),
        *old(cursor) <= input@.len() ==> *final(cursor) <= input@.len(),
{
    if *cursor > input.len() {
        return Ok(None);
    }
    let ghost i0 = *cursor as int;
    proof {
        lemma_skip_wsc_bounds(input@, i0);
        lemma_skip_wsc_idem(input@, i0);
    }
    skip_ws_and_comments(input, cursor);
    if *cursor >= input.len() {
        return Ok(None);
    }
    assert(dec_token(input@, *cursor as int) == dec_token(input@, i0));
    match next_uint(input, cursor) {
        Ok(v) => Ok(Some(v)),
        Err(e) => Err(e),
    }
}

// ---------------------------------------------------------------------------
// PNM (P1-P6)
// ---------------------------------------------------------------------------

pub open spec fn pnm_model(m: Magic, w: u32, h: u32, maxval: u32, off: int) -> HeaderModel {
    HeaderModel {
        magic: m,
        width: w,
        height: h,
        maxval: maxval,
        depth: if m == Magic::P3AsciiPixmap || m == Magic::P6BinaryPixmap {
            3
        } else {
            1
        },
        tupl: None,
        data_offset: off as nat,
        pfm: None,
    }
}

/// The P1-P6 header: width, height and (but for P1/P4) a maxval in
/// 1..=65535, each read by [`header_uint`]; a zero dimension is refused.
/// The pixel data starts where the last token's reader stopped.
pub open spec fn pnm_spec(s: Seq<u8>, m: Magic) -> core::result::Result<HeaderModel, Fail> {
    match header_uint(s, 2) {
        Err(f) => Err(f),
        Ok(w) => match header_uint(s, w.1) {
            Err(f) => Err(f),
            Ok(h) => if w.0 == 0 || h.0 == 0 {
                Err(Fail::Invalid("Netpbm: zero width or height"@))
            } else if m == Magic::P1AsciiBitmap || m == Magic::P4BinaryBitmap {
                Ok(pnm_model(m, w.0, h.0, 1, h.1))
            } else {
                match header_uint(s, h.1) {
                    Err(f) => Err(f),
                    Ok(mv) => if mv.0 < 1 || mv.0 > 65535 {
                        Err(Fail::Invalid(maxval_text(false, mv.0)))
                    } else {
                        Ok(pnm_model(m, w.0, h.0, mv.0, mv.1))
                    },
                }
            },
        },
    }
}

/// A header parser's result agrees with the model's outcome.
pub open spec fn header_agrees(
    r: Result<Header>,
    s: core::result::Result<HeaderModel, Fail>,
) -> bool {
    match (r, s) {
        (Ok(h), Ok(m)) => h@ == m,
        (Err(e), Err(f)) => crate::error::fail_of(e) == f,
        _ => false,
    }
}

fn parse_pnm_header(input: &[u8], magic: Magic) -> (r: Result<Header>)
    requires
        input@.len() >= 2,
        magic != Magic::P7Pam,
        !magic.spec_is_pfm(),
    ensures
        header_agrees(r, pnm_spec(input@, magic)),
        r matches Ok(h) ==> h.data_offset <= input@.len(),
{
    let mut cursor: usize = 2;
    let width = match next_uint(input, &mut cursor) {
        Ok(v) => v,
        Err(e) => return Err(e),
    };
    let height = match next_uint(input, &mut cursor) {
        Ok(v) => v,
        Err(e) => return Err(e),
    };
    if width == 0 || height == 0 {
        return Err(PbmError::invalid("Netpbm: zero width or height"));
    }
    let maxval: u32 = match magic {
        Magic::P1AsciiBitmap | Magic::P4BinaryBitmap => 1,
        _ => {
            let v = match next_uint(input, &mut cursor) {
                Ok(v) => v,
                Err(e) => return Err(e),
            };
            if v < 1 || v > 65535 {
                return Err(maxval_error(false, v));
            }
            v
        },
    };
    let depth: u32 = match magic {
        Magic::P3AsciiPixmap | Magic::P6BinaryPixmap => 3,
        _ => 1,
    };
    Ok(
        Header {
            magic,
            width,
            height,
            maxval,
            depth,
            tupltype: None,
            data_offset: cursor,
            pfm: None,
        },
    )
}


// ---------------------------------------------------------------------------
// PAM (P7)
// ---------------------------------------------------------------------------

pub open spec fn key_width() -> Seq<u8> {
    seq![0x57u8, 0x49, 0x44, 0x54, 0x48]
}

pub open spec fn key_height() -> Seq<u8> {
    seq![0x48u8, 0x45, 0x49, 0x47, 0x48, 0x54]
}

pub open spec fn key_depth() -> Seq<u8> {
    seq![0x44u8, 0x45, 0x50, 0x54, 0x48]
}

pub open spec fn key_maxval() -> Seq<u8> {
    seq![0x4du8, 0x41, 0x58, 0x56, 0x41, 0x4c]
}

pub open spec fn key_tupltype() -> Seq<u8> {
    seq![0x54u8, 0x55, 0x50, 0x4c, 0x54, 0x59, 0x50, 0x45]
}

pub open spec fn key_endhdr() -> Seq<u8> {
    seq![0x45u8, 0x4e, 0x44, 0x48, 0x44, 0x52]
}

/// The PAM fields read so far.
pub struct PamFields {
    pub width: Option<u32>,
    pub height: Option<u32>,
    pub depth: Option<u32>,
    pub maxval: Option<u32>,
    pub tupl: Option<TuplModel>,
}

pub open spec fn no_pam_fields() -> PamFields {
    PamFields { width: None, height: None, depth: None, maxval: None, tupl: None }
}

/// Apply one `KEY VALUE` line. The value must be UTF-8; `WIDTH`, `HEIGHT`,
/// `DEPTH` and `MAXVAL` take an unsigned integer (`MAXVAL` in 1..=65535),
/// `TUPLTYPE` a tuple-type name; other keys are ignored.
pub open spec fn pam_step(key: Seq<u8>, value: Seq<u8>, a: PamFields) -> core::result::Result<
    PamFields,
    Fail,
> {
    if !valid_utf8(value) {
        Err(Fail::Invalid("PAM: non-UTF-8 header value"@))
    } else if key == key_width() {
        match uint_text(value) {
            Some(v) => Ok(PamFields { width: Some(v), ..a }),
            None => Err(Fail::Invalid(bad_integer_text(value))),
        }
    } else if key == key_height() {
        match uint_text(value) {
            Some(v) => Ok(PamFields { height: Some(v), ..a }),
            None => Err(Fail::Invalid(bad_integer_text(value))),
        }
    } else if key == key_depth() {
        match uint_text(value) {
            Some(v) => Ok(PamFields { depth: Some(v), ..a }),
            None => Err(Fail::Invalid(bad_integer_text(value))),
        }
    } else if key == key_maxval() {
        match uint_text(value) {
            Some(v) => if 1 <= v <= 65535 {
                Ok(PamFields { maxval: Some(v), ..a })
            } else {
                Err(Fail::Invalid(maxval_text(true, v)))
            },
            None => Err(Fail::Invalid(bad_integer_text(value))),
        }
    } else if key == key_tupltype() {
        match tupl_parse_spec(value) {
            Ok(t) => Ok(PamFields { tupl: Some(t), ..a }),
            Err(f) => Err(f),
        }
    } else {
        Ok(a)
    }
}

/// Read PAM header lines from `i` on, with fields `a` so far, up to the
/// `ENDHDR` line: the fields and the position after that line. Blank lines
/// and lines starting with `#` are skipped; running out of input is an
/// error.
pub open spec fn pam_lines(s: Seq<u8>, i: int, a: PamFields) -> core::result::Result<
    (PamFields, int),
    Fail,
>
    decreases s.len() - i,
{
    if i < 0 || i >= s.len() {
        Err(Fail::Invalid("PAM: header truncated (expected ENDHDR)"@))
    } else {
        let next = line_at(s, i).1;
        let t = trim_ws(line_at(s, i).0);
        proof {
            lemma_find_byte(s, 0x0a, i);
        }
        if t.len() == 0 || t[0] == 0x23 {
            pam_lines(s, next, a)
        } else if t == key_endhdr() {
            Ok((a, next))
        } else {
            let k = token_end(t, 0);
            let key = t.subrange(0, k);
            let value = trim_ws(t.subrange(ws_end(t, k), t.len() as int));
            match pam_step(key, value, a) {
                Ok(a2) => pam_lines(s, next, a2),
                Err(f) => Err(f),
            }
        }
    }
}

/// The P7 header: skip the rest of the magic line, read the `KEY VALUE`
/// block, then require `WIDTH`, `HEIGHT`, `DEPTH` and `MAXVAL`, refuse a
/// zero dimension, support `DEPTH` 1..=4 only, and hold a standard
/// `TUPLTYPE` to its channel count.
pub open spec fn pam_spec(s: Seq<u8>) -> core::result::Result<HeaderModel, Fail> {
    match pam_lines(s, eol_after(s, 2), no_pam_fields()) {
        Err(f) => Err(f),
        Ok(p) => {
            let a = p.0;
            if a.width is None {
                Err(Fail::Invalid("PAM: missing WIDTH"@))
            } else if a.height is None {
                Err(Fail::Invalid("PAM: missing HEIGHT"@))
            } else if a.depth is None {
                Err(Fail::Invalid("PAM: missing DEPTH"@))
            } else if a.maxval is None {
                Err(Fail::Invalid("PAM: missing MAXVAL"@))
            } else if a.width->0 == 0 || a.height->0 == 0 {
                Err(Fail::Invalid("PAM: zero width or height"@))
            } else if a.depth->0 == 0 || a.depth->0 > 4 {
                Err(
                    Fail::Unsupported(
                        "PAM: DEPTH "@ + num_text(a.depth->0 as nat) + " out of round-1 range 1..=4"@,
                    ),
                )
            } else if a.tupl matches Some(t) && tupl_channels(t) matches Some(n) && n
                != a.depth->0 {
                Err(
                    Fail::Invalid(
                        "PAM: TUPLTYPE "@ + tupl_text(a.tupl->0) + " expects depth "@ + num_text(
                            tupl_channels(a.tupl->0)->0,
                        ) + ", header says "@ + num_text(a.depth->0 as nat),
                    ),
                )
            } else {
                Ok(
                    HeaderModel {
                        magic: Magic::P7Pam,
                        width: a.width->0,
                        height: a.height->0,
                        maxval: a.maxval->0,
                        depth: a.depth->0,
                        tupl: a.tupl,
                        data_offset: p.1 as nat,
                        pfm: None,
                    },
                )
            }
        },
    }
}

fn is_key(b: &[u8], k: &[u8]) -> (r: bool)
    ensures
        r == (b@ == k@),
{
    bytes_eq(b, k)
}

fn parse_pam_header(input: &[u8]) -> (r: Result<Header>)
    requires
        input@.len() >= 2,
    ensures
        header_agrees(r, pam_spec(input@)),
        r matches Ok(h) ==> h.data_offset <= input@.len(),
{
    let mut cursor: usize = 2;
    skip_eol(input, &mut cursor);
    let ghost i0 = cursor as int;
    let mut width: Option<u32> = None;
    let mut height: Option<u32> = None;
    let mut depth: Option<u32> = None;
    let mut maxval: Option<u32> = None;
    let mut tupltype: Option<Tupltype> = None;
    let k_width: [u8; 5] = [0x57, 0x49, 0x44, 0x54, 0x48];
    let k_height: [u8; 6] = [0x48, 0x45, 0x49, 0x47, 0x48, 0x54];
    let k_depth: [u8; 5] = [0x44, 0x45, 0x50, 0x54, 0x48];
    let k_maxval: [u8; 6] = [0x4d, 0x41, 0x58, 0x56, 0x41, 0x4c];
    let k_tupltype: [u8; 8] = [0x54, 0x55, 0x50, 0x4c, 0x54, 0x59, 0x50, 0x45];
    let k_endhdr: [u8; 6] = [0x45, 0x4e, 0x44, 0x48, 0x44, 0x52];
    assert(k_width@ =~= key_width());
    assert(k_height@ =~= key_height());
    assert(k_depth@ =~= key_depth());
    assert(k_maxval@ =~= key_maxval());
    assert(k_tupltype@ =~= key_tupltype());
    assert(k_endhdr@ =~= key_endhdr());
    loop
        invariant_except_break
            pam_lines(input@, i0, no_pam_fields()) == pam_lines(
                input@,
                cursor as int,
                PamFields {
                    width: width,
                    height: height,
                    depth: depth,
                    maxval: maxval,
                    tupl: opt_tupl_view(tupltype),
                },
            ),
        invariant
            cursor <= input@.len(),
            k_width@ == key_width(),
            k_height@ == key_height(),
            k_depth@ == key_depth(),
            k_maxval@ == key_maxval(),
            k_tupltype@ == key_tupltype(),
            k_endhdr@ == key_endhdr(),
            i0 == eol_after(input@, 2),
        ensures
            cursor <= input@.len(),
            pam_lines(input@, i0, no_pam_fields()) == Ok::<(PamFields, int), Fail>(
                (
                    PamFields {
                        width: width,
                        height: height,
                        depth: depth,
                        maxval: maxval,
                        tupl: opt_tupl_view(tupltype),
                    },
                    cursor as int,
                ),
            ),
        decreases input@.len() - cursor,
    {
        let ghost c0 = cursor as int;
        let line = match read_line(input, &mut cursor) {
            Ok(l) => l,
            Err(e) => return Err(e),
        };
        proof {
            lemma_find_byte(input@, 0x0a, c0);
        }
        let t = trim_ascii(line);
        if t.len() == 0 || t[0] == 0x23 {
            continue;
        }
        if is_key(t, k_endhdr.as_slice()) {
            break;
        }
        let (key, rest) = split_first_token(t);
        let value = trim_ascii(rest);
        if utf8_string(value).is_none() {
            return Err(PbmError::invalid("PAM: non-UTF-8 header value"));
        }
        if is_key(key, k_width.as_slice()) {
            match parse_uint(value) {
                Some(v) => width = Some(v),
                None => return Err(bad_integer_error(value)),
            }
        } else if is_key(key, k_height.as_slice()) {
            match parse_uint(value) {
                Some(v) => height = Some(v),
                None => return Err(bad_integer_error(value)),
            }
        } else if is_key(key, k_depth.as_slice()) {
            match parse_uint(value) {
                Some(v) => depth = Some(v),
                None => return Err(bad_integer_error(value)),
            }
        } else if is_key(key, k_maxval.as_slice()) {
            match parse_uint(value) {
                Some(v) => {
                    if v < 1 || v > 65535 {
                        return Err(maxval_error(true, v));
                    }
                    maxval = Some(v);
                },
                None => return Err(bad_integer_error(value)),
            }
        } else if is_key(key, k_tupltype.as_slice()) {
            match parse_tupltype_bytes(value) {
                Ok(t) => tupltype = Some(t),
                Err(e) => return Err(e),
            }
        }
    }
    let width = match width {
        Some(v) => v,
        None => return Err(PbmError::invalid("PAM: missing WIDTH")),
    };
    let height = match height {
        Some(v) => v,
        None => return Err(PbmError::invalid("PAM: missing HEIGHT")),
    };
    let depth = match depth {
        Some(v) => v,
        None => return Err(PbmError::invalid("PAM: missing DEPTH")),
    };
    let maxval = match maxval {
        Some(v) => v,
        None => return Err(PbmError::invalid("PAM: missing MAXVAL")),
    };
    if width == 0 || height == 0 {
        return Err(PbmError::invalid("PAM: zero width or height"));
    }
    if depth == 0 || depth > 4 {
        let mut m = String::from_str("PAM: DEPTH ");
        push_num(&mut m, depth as u64);
        m.append(" out of round-1 range 1..=4");
        return Err(PbmError::Unsupported(m));
    }
    match &tupltype {
        Some(t) => match t.channels() {
            Some(want) => {
                if want as u32 != depth {
                    let mut m = String::from_str("PAM: TUPLTYPE ");
                    m.append(t.name());
                    m.append(" expects depth ");
                    push_num(&mut m, want as u64);
                    m.append(", header says ");
                    push_num(&mut m, depth as u64);
                    return Err(PbmError::InvalidData(m));
                }
            },
            None => {},
        },
        None => {},
    }
    Ok(
        Header {
            magic: Magic::P7Pam,
            width,
            height,
            maxval,
            depth,
            tupltype,
            data_offset: cursor,
            pfm: None,
        },
    )
}


// ---------------------------------------------------------------------------
// Portable FloatMap
// ---------------------------------------------------------------------------

/// First index at or after `i` holding LF, CR or `#` (or the end).
pub open spec fn pfm_stop(s: Seq<u8>, i: int) -> int
    decreases s.len() - i,
{
    if 0 <= i < s.len() && s[i] != 0x0a && s[i] != 0x0d && s[i] != 0x23 {
        pfm_stop(s, i + 1)
    } else {
        i
    }
}

pub proof fn lemma_pfm_stop(s: Seq<u8>, i: int)
    requires
        0 <= i <= s.len(),
    ensures
        i <= pfm_stop(s, i) <= s.len(),
    decreases s.len() - i,
{
    if i < s.len() && s[i] != 0x0a && s[i] != 0x0d && s[i] != 0x23 {
        lemma_pfm_stop(s, i + 1);
    }
}

/// One Portable FloatMap header line from `i`: the bytes before the next
/// LF, which must come before any CR or `#`; and the position after it.
pub open spec fn pfm_line(s: Seq<u8>, i: int) -> core::result::Result<(Seq<u8>, int), Fail> {
    if i < 0 || i >= s.len() {
        Err(Fail::Invalid("PFM: header truncated"@))
    } else {
        let k = pfm_stop(s, i);
        if k >= s.len() {
            Err(Fail::Invalid("PFM: header line missing LF terminator"@))
        } else if s[k] == 0x0a {
            Ok((s.subrange(i, k), k + 1))
        } else if s[k] == 0x0d {
            Err(Fail::Invalid("PFM: carriage return in header (CRLF line endings are not allowed)"@))
        } else {
            Err(Fail::Invalid("PFM: '#' in header (comments are not allowed)"@))
        }
    }
}

/// Read one Portable FloatMap header line (LF only; no CR, no comments).
fn read_pfm_line<'a>(input: &'a [u8], cursor: &mut usize) -> (r: Result<&'a [u8]>)
    requires
        *old(cursor) <= input@.len(),
    ensures
        match (r, pfm_line(input@, *old(cursor) as int)) {
            (Ok(l), Ok(p)) => l@ == p.0 && *final(cursor) == p.1,
            (Err(e), Err(f)) => crate::error::fail_of(e) == f,
            _ => false,
        },
        *final(cursor) <= input@.len(),
{
    if *cursor >= input.len() {
        return Err(PbmError::invalid("PFM: header truncated"));
    }
    let start = *cursor;
    while *cursor < input.len()
        invariant
            start <= *cursor <= input@.len(),
            start == *old(cursor),
            pfm_stop(input@, start as int) == pfm_stop(input@, *cursor as int),
        decreases input@.len() - *cursor,
    {
        let c = input[*cursor];
        if c == 0x0a {
            let line = slice_subrange(input, start, *cursor);
            *cursor += 1;
            return Ok(line);
        } else if c == 0x0d {
            return Err(PbmError::invalid("PFM: carriage return in header (CRLF line endings are not allowed)"));
        } else if c == 0x23 {
            return Err(PbmError::invalid("PFM: '#' in header (comments are not allowed)"));
        }
        *cursor += 1;
    }
    Err(PbmError::invalid("PFM: header line missing LF terminator"))
}

/// ASCII whitespace as `str::split_ascii_whitespace` knows it: space, TAB,
/// LF, FF and CR (not VT).
pub open spec fn is_split_ws(c: u8) -> bool {
    c == 0x20 || c == 0x09 || c == 0x0a || c == 0x0c || c == 0x0d
}

pub open spec fn split_ws_end(s: Seq<u8>, i: int) -> int
    decreases s.len() - i,
{
    if 0 <= i < s.len() && is_split_ws(s[i]) {
        split_ws_end(s, i + 1)
    } else {
        i
    }
}

pub open spec fn split_token_end(s: Seq<u8>, i: int) -> int
    decreases s.len() - i,
{
    if 0 <= i < s.len() && !is_split_ws(s[i]) {
        split_token_end(s, i + 1)
    } else {
        i
    }
}

pub proof fn lemma_split_ends(s: Seq<u8>, i: int)
    requires
        0 <= i <= s.len(),
    ensures
        i <= split_ws_end(s, i) <= s.len(),
        i <= split_token_end(s, i) <= s.len(),
    decreases s.len() - i,
{
    if i < s.len() {
        lemma_split_ends(s, i + 1);
    }
}

/// The dimension line: UTF-8, exactly two whitespace-separated tokens, each
/// an unsigned integer.
pub open spec fn two_uints_spec(l: Seq<u8>) -> core::result::Result<(u32, u32), Fail> {
    let a1 = split_ws_end(l, 0);
    let b1 = split_token_end(l, a1);
    let a2 = split_ws_end(l, b1);
    let b2 = split_token_end(l, a2);
    if !valid_utf8(l) {
        Err(Fail::Invalid("PFM: non-UTF-8 dimension line"@))
    } else if a1 >= l.len() {
        Err(Fail::Invalid("PFM: missing width on dimension line"@))
    } else if a2 >= l.len() {
        Err(Fail::Invalid("PFM: missing height on dimension line"@))
    } else if split_ws_end(l, b2) < l.len() {
        Err(Fail::Invalid("PFM: extra tokens on dimension line"@))
    } else {
        match (uint_text(l.subrange(a1, b1)), uint_text(l.subrange(a2, b2))) {
            (Some(w), Some(h)) => Ok((w, h)),
            (None, _) => Err(Fail::Invalid(bad_integer_text(l.subrange(a1, b1)))),
            (_, None) => Err(Fail::Invalid(bad_integer_text(l.subrange(a2, b2)))),
        }
    }
}

fn split_ws_skip(l: &[u8], i: usize) -> (r: usize)
    requires
        i <= l@.len(),
    ensures
        r == split_ws_end(l@, i as int),
{
    let mut k = i;
    while k < l.len() && (l[k] == 0x20 || l[k] == 0x09 || l[k] == 0x0a || l[k] == 0x0c || l[k]
        == 0x0d)
        invariant
            i <= k <= l@.len(),
            split_ws_end(l@, i as int) == split_ws_end(l@, k as int),
        decreases l@.len() - k,
    {
        k += 1;
    }
    k
}

fn split_token_skip(l: &[u8], i: usize) -> (r: usize)
    requires
        i <= l@.len(),
    ensures
        r == split_token_end(l@, i as int),
{
    let mut k = i;
    while k < l.len() && !(l[k] == 0x20 || l[k] == 0x09 || l[k] == 0x0a || l[k] == 0x0c || l[k]
        == 0x0d)
        invariant
            i <= k <= l@.len(),
            split_token_end(l@, i as int) == split_token_end(l@, k as int),
        decreases l@.len() - k,
    {
        k += 1;
    }
    k
}

fn parse_two_uints(line: &[u8]) -> (r: Result<(u32, u32)>)
    ensures
        match (r, two_uints_spec(line@)) {
            (Ok(v), Ok(m)) => v == m,
            (Err(e), Err(f)) => crate::error::fail_of(e) == f,
            _ => false,
        },
{
    if utf8_string(line).is_none() {
        return Err(PbmError::invalid("PFM: non-UTF-8 dimension line"));
    }
    proof {
        lemma_split_ends(line@, 0);
    }
    let a1 = split_ws_skip(line, 0);
    if a1 >= line.len() {
        return Err(PbmError::invalid("PFM: missing width on dimension line"));
    }
    proof {
        lemma_split_ends(line@, a1 as int);
    }
    let b1 = split_token_skip(line, a1);
    proof {
        lemma_split_ends(line@, b1 as int);
    }
    let a2 = split_ws_skip(line, b1);
    if a2 >= line.len() {
        return Err(PbmError::invalid("PFM: missing height on dimension line"));
    }
    proof {
        lemma_split_ends(line@, a2 as int);
    }
    let b2 = split_token_skip(line, a2);
    proof {
        lemma_split_ends(line@, b2 as int);
    }
    if split_ws_skip(line, b2) < line.len() {
        return Err(PbmError::invalid("PFM: extra tokens on dimension line"));
    }
    let w = match parse_uint(slice_subrange(line, a1, b1)) {
        Some(v) => v,
        None => return Err(bad_integer_error(slice_subrange(line, a1, b1))),
    };
    let h = match parse_uint(slice_subrange(line, a2, b2)) {
        Some(v) => v,
        None => return Err(bad_integer_error(slice_subrange(line, a2, b2))),
    };
    Ok((w, h))
}

/// The scale line: UTF-8 whose trimmed text is an IEEE-754 literal that is
/// neither NaN, nor infinite, nor zero; its sign picks the byte order
/// (negative = little-endian).
pub open spec fn scale_spec(l: Seq<u8>) -> core::result::Result<PfmModel, Fail> {
    let t = trim_uws(l);
    if !valid_utf8(l) {
        Err(Fail::Invalid("PFM: non-UTF-8 scale line"@))
    } else if !float_literal(t) {
        Err(
            Fail::Invalid(
                "PFM: bad scale '"@ + utf8_text(t) + "': "@ + if t.len() == 0 {
                    "cannot parse float from empty string"@
                } else {
                    "invalid float literal"@
                },
            ),
        )
    } else if float_literal_is_nan(t) {
        Err(Fail::Invalid("PFM: scale is NaN (ambiguous byte order)"@))
    } else if float_literal_is_inf(t) || float_literal_is_zero(t) {
        Err(Fail::Invalid("PFM: scale is infinite or zero"@))
    } else {
        Ok(PfmModel { little_endian: float_literal_is_negative(t), scale_literal: t })
    }
}

fn parse_scale(line: &[u8]) -> (r: Result<PfmInfo>)
    ensures
        match (r, scale_spec(line@)) {
            (Ok(p), Ok(m)) => p@ == m,
            (Err(e), Err(f)) => crate::error::fail_of(e) == f,
            _ => false,
        },
{
    if utf8_string(line).is_none() {
        return Err(PbmError::invalid("PFM: non-UTF-8 scale line"));
    }
    let (s, e) = trim_unicode_ws(line);
    let t = slice_subrange(line, s, e);
    match classify_float_literal(t) {
        None => {
            let mut m = String::from_str("PFM: bad scale '");
            push_text(&mut m, t);
            m.append("': ");
            if t.len() == 0 {
                m.append("cannot parse float from empty string");
            } else {
                m.append("invalid float literal");
            }
            Err(PbmError::InvalidData(m))
        },
        Some(true) => Err(PbmError::invalid("PFM: scale is NaN (ambiguous byte order)")),
        Some(false) => {
            if float_literal_is_degenerate(t) {
                return Err(PbmError::invalid("PFM: scale is infinite or zero"));
            }
            let little_endian = t.len() > 0 && t[0] == 0x2d;
            Ok(PfmInfo { little_endian, scale_literal: vstd::slice::slice_to_vec(t) })
        },
    }
}

pub open spec fn pfm_id_rgb() -> Seq<u8> {
    seq![0x50u8, 0x46]
}

pub open spec fn pfm_id_gray() -> Seq<u8> {
    seq![0x50u8, 0x66]
}

/// The Portable FloatMap header: three LF-terminated lines (identifier,
/// `width height`, scale) with no comments and no CR; zero dimensions are
/// refused.
pub open spec fn pfm_spec(s: Seq<u8>, m: Magic) -> core::result::Result<HeaderModel, Fail> {
    match pfm_line(s, 0) {
        Err(f) => Err(f),
        Ok(l1) => {
            let id = trim_ws(l1.0);
            if id != pfm_id_rgb() && id != pfm_id_gray() {
                Err(Fail::Invalid("PFM: header line 1 is not 'PF' or 'Pf'"@))
            } else {
                match pfm_line(s, l1.1) {
                    Err(f) => Err(f),
                    Ok(l2) => match two_uints_spec(l2.0) {
                        Err(f) => Err(f),
                        Ok(d) => if d.0 == 0 || d.1 == 0 {
                            Err(Fail::Invalid("PFM: zero dimension"@))
                        } else {
                            match pfm_line(s, l2.1) {
                                Err(f) => Err(f),
                                Ok(l3) => match scale_spec(l3.0) {
                                    Err(f) => Err(f),
                                    Ok(p) => Ok(
                                        HeaderModel {
                                            magic: m,
                                            width: d.0,
                                            height: d.1,
                                            maxval: 0,
                                            depth: if id == pfm_id_rgb() {
                                                3
                                            } else {
                                                1
                                            },
                                            tupl: None,
                                            data_offset: l3.1 as nat,
                                            pfm: Some(p),
                                        },
                                    ),
                                },
                            }
                        },
                    },
                }
            }
        },
    }
}

fn parse_pfm_header(input: &[u8], magic: Magic) -> (r: Result<Header>)
    ensures
        header_agrees(r, pfm_spec(input@, magic)),
        r matches Ok(h) ==> h.data_offset <= input@.len(),
{
    let mut cursor: usize = 0;
    let line1 = match read_pfm_line(input, &mut cursor) {
        Ok(l) => l,
        Err(e) => return Err(e),
    };
    let id = trim_ascii(line1);
    let rgb: [u8; 2] = [0x50, 0x46];
    let gray: [u8; 2] = [0x50, 0x66];
    assert(rgb@ =~= pfm_id_rgb());
    assert(gray@ =~= pfm_id_gray());
    let channels: u32 = if bytes_eq(id, rgb.as_slice()) {
        3
    } else if bytes_eq(id, gray.as_slice()) {
        1
    } else {
        return Err(PbmError::invalid("PFM: header line 1 is not 'PF' or 'Pf'"));
    };
    let line2 = match read_pfm_line(input, &mut cursor) {
        Ok(l) => l,
        Err(e) => return Err(e),
    };
    let (width, height) = match parse_two_uints(line2) {
        Ok(d) => d,
        Err(e) => return Err(e),
    };
    if width == 0 || height == 0 {
        return Err(PbmError::invalid("PFM: zero dimension"));
    }
    let line3 = match read_pfm_line(input, &mut cursor) {
        Ok(l) => l,
        Err(e) => return Err(e),
    };
    let info = match parse_scale(line3) {
        Ok(p) => p,
        Err(e) => return Err(e),
    };
    Ok(
        Header {
            magic,
            width,
            height,
            maxval: 0,
            depth: channels,
            tupltype: None,
            data_offset: cursor,
            pfm: Some(info),
        },
    )
}

// ---------------------------------------------------------------------------
// Dispatch
// ---------------------------------------------------------------------------

/// The header at the start of `s`, per its magic.
pub open spec fn header_spec(s: Seq<u8>) -> core::result::Result<HeaderModel, Fail> {
    match magic_of(s) {
        None => Err(Fail::Invalid("Netpbm: missing or unrecognised P<N> magic"@)),
        Some(m) => if m == Magic::P7Pam {
            pam_spec(s)
        } else if m.spec_is_pfm() {
            pfm_spec(s, m)
        } else {
            pnm_spec(s, m)
        },
    }
}

/// Parse the Netpbm header at the start of `input`.
pub fn parse_header(input: &[u8]) -> (r: Result<Header>)
    ensures
        header_agrees(r, header_spec(input@)),
        r matches Ok(h) ==> h.data_offset <= input@.len(),
{
    let magic = match Magic::from_bytes(input) {
        Some(m) => m,
        None => return Err(PbmError::invalid("Netpbm: missing or unrecognised P<N> magic")),
    };
    if magic == Magic::P7Pam {
        return parse_pam_header(input);
    }
    if magic.is_pfm() {
        return parse_pfm_header(input, magic);
    }
    parse_pnm_header(input, magic)
}


// ---------------------------------------------------------------------------
// Header comments
// ---------------------------------------------------------------------------

/// First index in `[i, end)` holding `c`, or `end`.
pub open spec fn scan_to(s: Seq<u8>, c: u8, i: int, end: int) -> int
    decreases end - i,
{
    if i < end && s[i] != c {
        scan_to(s, c, i + 1, end)
    } else if i < end {
        i
    } else {
        end
    }
}

pub proof fn lemma_scan_to(s: Seq<u8>, c: u8, i: int, end: int)
    requires
        0 <= i <= end <= s.len(),
    ensures
        i <= scan_to(s, c, i, end) <= end,
    decreases end - i,
{
    if i < end && s[i] != c {
        lemma_scan_to(s, c, i + 1, end);
    }
}

/// Walks the `# … LF` comment lines of a PNM/PAM header, yielding each
/// comment's text (the bytes after `#` up to the LF) with surrounding
/// whitespace trimmed. It never looks past the first byte of pixel data.
pub struct PnmHeaderComments<'a> {
    input: &'a [u8],
    cursor: usize,
    end: usize,
}

impl<'a> PnmHeaderComments<'a> {
    #[verifier::type_invariant]
    spec fn inv(self) -> bool {
        self.cursor <= self.end <= self.input@.len()
    }

    /// The bytes being walked.
    pub closed spec fn spec_input(self) -> Seq<u8> {
        self.input@
    }

    /// Where the walk resumes.
    pub closed spec fn spec_cursor(self) -> int {
        self.cursor as int
    }

    /// Where the header ends: the walk never reads at or past it.
    pub closed spec fn spec_end(self) -> int {
        self.end as int
    }

    /// The next comment, or `None` once the header is exhausted.
    pub fn next(&mut self) -> (r: Option<&'a [u8]>)
        ensures
            final(self).spec_input() == old(self).spec_input(),
            final(self).spec_end() == old(self).spec_end(),
            ({
                let s = old(self).spec_input();
                let end = old(self).spec_end();
                let k = scan_to(s, 0x23, old(self).spec_cursor(), end);
                let j = scan_to(s, 0x0a, k + 1, end);
                if k < end {
                    &&& r matches Some(c) && c@ == trim_ws(s.subrange(k + 1, j))
                    &&& final(self).spec_cursor() == if j < end {
                        j + 1
                    } else {
                        j
                    }
                } else {
                    r is None && final(self).spec_cursor() == end
                }
            }),
    {
        proof {
            use_type_invariant(&*self);
        }
        let ghost s = self.input@;
        let ghost end = self.end as int;
        let ghost c0 = self.cursor as int;
        let mut i = self.cursor;
        while i < self.end && self.input[i] != 0x23
            invariant
                c0 <= i <= end,
                end == self.end,
                end <= s.len(),
                s == self.input@,
                scan_to(s, 0x23, c0, end) == scan_to(s, 0x23, i as int, end),
            decreases end - i,
        {
            i += 1;
        }
        if i >= self.end {
            self.cursor = self.end;
            return None;
        }
        let body_start = i + 1;
        let mut j = body_start;
        proof {
            lemma_scan_to(s, 0x0a, body_start as int, end);
        }
        while j < self.end && self.input[j] != 0x0a
            invariant
                body_start <= j <= end,
                end == self.end,
                end <= s.len(),
                s == self.input@,
                scan_to(s, 0x0a, body_start as int, end) == scan_to(s, 0x0a, j as int, end),
            decreases end - j,
        {
            j += 1;
        }
        let raw = slice_subrange(self.input, body_start, j);
        self.cursor = if j < self.end {
            j + 1
        } else {
            j
        };
        Some(trim_ascii(raw))
    }
}

/// Walk the comments of the PNM/PAM header at the start of `input`. An
/// input whose header does not parse, or a Portable FloatMap (which allows
/// no comments), yields nothing.
pub fn iter_pnm_header_comments(input: &[u8]) -> (r: PnmHeaderComments<'_>)
    ensures
        r.spec_input() == input@,
        r.spec_cursor() == 0,
        r.spec_end() == match header_spec(input@) {
            Ok(m) => if m.magic.spec_is_pfm() {
                0
            } else {
                m.data_offset as int
            },
            Err(_) => 0,
        },
{
    let header = match parse_header(input) {
        Ok(h) => h,
        Err(_) => return PnmHeaderComments { input, cursor: 0, end: 0 },
    };
    if header.magic.is_pfm() {
        return PnmHeaderComments { input, cursor: 0, end: 0 };
    }
    PnmHeaderComments { input, cursor: 0, end: header.data_offset }
}


// ---------------------------------------------------------------------------
// What every parsed header satisfies
// ---------------------------------------------------------------------------

/// The shape of every header [`parse_header`] returns: non-zero
/// dimensions; the depth each magic implies (PAM: 1..=4, matching a
/// standard tuple type); maxval 1 for bitmaps, 1..=65535 for the other
/// PNM/PAM magics, 0 for Portable FloatMap; metadata only where it
/// belongs.
pub open spec fn header_wf(m: HeaderModel) -> bool {
    &&& m.width > 0
    &&& m.height > 0
    &&& match m.magic {
        Magic::P1AsciiBitmap | Magic::P4BinaryBitmap => m.depth == 1 && m.maxval == 1 && m.tupl
            is None && m.pfm is None,
        Magic::P2AsciiGraymap | Magic::P5BinaryGraymap => m.depth == 1 && 1 <= m.maxval <= 65535
            && m.tupl is None && m.pfm is None,
        Magic::P3AsciiPixmap | Magic::P6BinaryPixmap => m.depth == 3 && 1 <= m.maxval <= 65535
            && m.tupl is None && m.pfm is None,
        Magic::P7Pam => 1 <= m.depth <= 4 && 1 <= m.maxval <= 65535 && m.pfm is None && (m.tupl
            matches Some(t) ==> (tupl_channels(t) matches Some(n) ==> n == m.depth)),
        Magic::PfPfmGrayFloat => m.depth == 1 && m.maxval == 0 && m.tupl is None && m.pfm is Some,
        Magic::PFPfmRgbFloat => m.depth == 3 && m.maxval == 0 && m.tupl is None && m.pfm is Some,
    }
}

/// A maxval recorded while reading the PAM block is in 1..=65535.
pub proof fn lemma_pam_lines_maxval(s: Seq<u8>, i: int, a: PamFields)
    requires
        a.maxval matches Some(v) ==> 1 <= v <= 65535,
        pam_lines(s, i, a) is Ok,
    ensures
        (pam_lines(s, i, a)->Ok_0).0.maxval matches Some(v) ==> 1 <= v <= 65535,
    decreases s.len() - i,
{
    if 0 <= i < s.len() {
        let next = line_at(s, i).1;
        let t = trim_ws(line_at(s, i).0);
        lemma_find_byte(s, 0x0a, i);
        if t.len() == 0 || t[0] == 0x23 {
            lemma_pam_lines_maxval(s, next, a);
        } else if t == key_endhdr() {
        } else {
            let k = token_end(t, 0);
            let key = t.subrange(0, k);
            let value = trim_ws(t.subrange(ws_end(t, k), t.len() as int));
            lemma_pam_lines_maxval(s, next, pam_step(key, value, a)->Ok_0);
        }
    }
}

/// Every header the parser accepts is well formed.
pub proof fn lemma_header_wf(s: Seq<u8>)
    requires
        header_spec(s) is Ok,
    ensures
        header_wf(header_spec(s)->Ok_0),
{
    let m = magic_of(s)->0;
    if m == Magic::P7Pam {
        lemma_pam_lines_maxval(s, eol_after(s, 2), no_pam_fields());
    }
    if m.spec_is_pfm() {
        let l1 = pfm_line(s, 0)->Ok_0;
        lemma_pfm_stop(s, 0);
        assert(s[0] == 0x50 && (s[1] == 0x46 || s[1] == 0x66));
        assert(pfm_stop(s, 0) == pfm_stop(s, 1));
        assert(pfm_stop(s, 1) == pfm_stop(s, 2));
        lemma_pfm_stop(s, 2);
        assert(l1.0 == s.subrange(0, pfm_stop(s, 0)));
        assert(l1.0.len() >= 2);
        assert(l1.0[0] == s[0] && l1.0[1] == s[1]);
        assert(!is_ws_byte(l1.0[1]) && !is_ws_byte(l1.0[0]));
        lemma_ws_end(l1.0, 0);
        assert(ws_end(l1.0, 0) == 0);
        lemma_ws_start_back_keeps(l1.0, 0, l1.0.len() as int, 1);
        lemma_ws_start_back(l1.0, 0, l1.0.len() as int);
        let id = trim_ws(l1.0);
        assert(id == l1.0.subrange(0, ws_start_back(l1.0, 0, l1.0.len() as int)));
        assert(id[0] == s[0] && id[1] == s[1]);
    }
}


proof fn lemma_header_uint_bounds(s: Seq<u8>, i: int)
    requires
        0 <= i <= s.len(),
        header_uint(s, i) is Ok,
    ensures
        i < (header_uint(s, i)->Ok_0).1 <= s.len(),
{
    lemma_skip_wsc_bounds(s, i);
    crate::lex::lemma_digits_end(s, skip_wsc(s, i));
}

proof fn lemma_pam_lines_bounds(s: Seq<u8>, i: int, a: PamFields)
    requires
        0 <= i,
        pam_lines(s, i, a) is Ok,
    ensures
        i < (pam_lines(s, i, a)->Ok_0).1 <= s.len(),
    decreases s.len() - i,
{
    if 0 <= i < s.len() {
        let next = line_at(s, i).1;
        let t = trim_ws(line_at(s, i).0);
        lemma_find_byte(s, 0x0a, i);
        if t.len() == 0 || t[0] == 0x23 {
            lemma_pam_lines_bounds(s, next, a);
        } else if t == key_endhdr() {
        } else {
            let k = token_end(t, 0);
            let key = t.subrange(0, k);
            let value = trim_ws(t.subrange(ws_end(t, k), t.len() as int));
            lemma_pam_lines_bounds(s, next, pam_step(key, value, a)->Ok_0);
        }
    }
}

/// The pixel data of a parsed header starts inside the input, after at
/// least one header byte.
pub proof fn lemma_header_offset(s: Seq<u8>)
    requires
        header_spec(s) is Ok,
    ensures
        1 <= (header_spec(s)->Ok_0).data_offset <= s.len(),
{
    let m = magic_of(s)->0;
    if m == Magic::P7Pam {
        lemma_find_byte(s, 0x0a, 2);
        lemma_pam_lines_bounds(s, eol_after(s, 2), no_pam_fields());
    } else if m.spec_is_pfm() {
        let l1 = pfm_line(s, 0)->Ok_0;
        lemma_pfm_stop(s, 0);
        let l2 = pfm_line(s, l1.1)->Ok_0;
        lemma_pfm_stop(s, l1.1);
        lemma_pfm_stop(s, l2.1);
    } else {
        lemma_header_uint_bounds(s, 2);
        let w = header_uint(s, 2)->Ok_0;
        lemma_header_uint_bounds(s, w.1);
        let h = header_uint(s, w.1)->Ok_0;
        if !(m == Magic::P1AsciiBitmap || m == Magic::P4BinaryBitmap) {
            lemma_header_uint_bounds(s, h.1);
        }
    }
}


/// Whether `buf` starts like a Netpbm file: a recognised magic followed by
/// a whitespace byte.
pub fn probe_is_netpbm(buf: &[u8]) -> (r: bool)
    ensures
        r == (magic_of(buf@) is Some && buf@.len() >= 3 && is_ws_byte(buf@[2])),
{
    match Magic::from_bytes(buf) {
        Some(_) => buf.len() >= 3 && is_ws(buf[2]),
        None => false,
    }
}

} // verus!
