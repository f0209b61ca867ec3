//! Image container returned by the decoder and accepted by the encoder.

use vstd::prelude::*;
use vstd::string::StringExecFns;
use crate::error::{Fail, PbmError};

verus! {

/// Pixel layout of a [`PbmImage`] plane.
#[derive(Debug, Clone, Copy, PartialEq, Eq, Structural)]
pub enum PbmPixelFormat {
    /// 1 bit per pixel, MSB-first packed, 1 = black, rows padded to a byte.
    MonoBlack,
    /// 8-bit grayscale, one byte per pixel.
    Gray8,
    /// 16-bit grayscale, little-endian, 2 bytes per pixel.
    Gray16Le,
    /// 8-bit packed RGB, 3 bytes per pixel.
    Rgb24,
    /// 16-bit packed RGB, little-endian, 6 bytes per pixel.
    Rgb48Le,
    /// 8-bit packed RGBA, 4 bytes per pixel.
    Rgba,
    /// 8-bit packed BGRA, 4 bytes per pixel (encode-side input only).
    Bgra,
    /// 16-bit packed RGBA, little-endian, 8 bytes per pixel.
    Rgba64Le,
    /// 8-bit grayscale + alpha, 2 bytes per pixel.
    Ya8,
    /// 16-bit grayscale + alpha, little-endian, 4 bytes per pixel.
    Ya16Le,
    /// IEEE-754 binary32 grayscale, little-endian, 4 bytes per pixel.
    GrayF32,
    /// IEEE-754 binary32 RGB, little-endian, 12 bytes per pixel.
    RgbF32,
}

impl PbmPixelFormat {
    pub open spec fn spec_channels(self) -> nat {
        match self {
            PbmPixelFormat::MonoBlack | PbmPixelFormat::Gray8 | PbmPixelFormat::Gray16Le
            | PbmPixelFormat::GrayF32 => 1,
            PbmPixelFormat::Ya8 | PbmPixelFormat::Ya16Le => 2,
            PbmPixelFormat::Rgb24 | PbmPixelFormat::Rgb48Le | PbmPixelFormat::RgbF32 => 3,
            PbmPixelFormat::Rgba | PbmPixelFormat::Bgra | PbmPixelFormat::Rgba64Le => 4,
        }
    }

    pub open spec fn spec_bits_per_channel(self) -> nat {
        match self {
            PbmPixelFormat::MonoBlack => 1,
            PbmPixelFormat::Gray8 | PbmPixelFormat::Rgb24 | PbmPixelFormat::Rgba
            | PbmPixelFormat::Bgra | PbmPixelFormat::Ya8 => 8,
            PbmPixelFormat::Gray16Le | PbmPixelFormat::Rgb48Le | PbmPixelFormat::Rgba64Le
            | PbmPixelFormat::Ya16Le => 16,
            PbmPixelFormat::GrayF32 | PbmPixelFormat::RgbF32 => 32,
        }
    }

    /// Whole bytes per pixel (`channels * bits_per_channel / 8`); `None`
    /// for the sub-byte `MonoBlack`.
    pub open spec fn spec_bytes_per_pixel(self) -> Option<nat> {
        match self {
            PbmPixelFormat::MonoBlack => None,
            PbmPixelFormat::Gray8 => Some(1),
            PbmPixelFormat::Gray16Le | PbmPixelFormat::Ya8 => Some(2),
            PbmPixelFormat::Rgb24 => Some(3),
            PbmPixelFormat::Rgba | PbmPixelFormat::Bgra | PbmPixelFormat::Ya16Le
            | PbmPixelFormat::GrayF32 => Some(4),
            PbmPixelFormat::Rgb48Le => Some(6),
            PbmPixelFormat::Rgba64Le => Some(8),
            PbmPixelFormat::RgbF32 => Some(12),
        }
    }

    /// Number of colour/alpha channels per pixel.
    pub fn channels(self) -> (r: usize)
        ensures
            r == self.spec_channels(),
    {
        match self {
            PbmPixelFormat::MonoBlack | PbmPixelFormat::Gray8 | PbmPixelFormat::Gray16Le
            | PbmPixelFormat::GrayF32 => 1,
            PbmPixelFormat::Ya8 | PbmPixelFormat::Ya16Le => 2,
            PbmPixelFormat::Rgb24 | PbmPixelFormat::Rgb48Le | PbmPixelFormat::RgbF32 => 3,
            PbmPixelFormat::Rgba | PbmPixelFormat::Bgra | PbmPixelFormat::Rgba64Le => 4,
        }
    }

    /// Bits per channel held in memory for one pixel.
    pub fn bits_per_channel(self) -> (r: usize)
        ensures
            r == self.spec_bits_per_channel(),
    {
        match self {
            PbmPixelFormat::MonoBlack => 1,
            PbmPixelFormat::Gray8 | PbmPixelFormat::Rgb24 | PbmPixelFormat::Rgba
            | PbmPixelFormat::Bgra | PbmPixelFormat::Ya8 => 8,
            PbmPixelFormat::Gray16Le | PbmPixelFormat::Rgb48Le | PbmPixelFormat::Rgba64Le
            | PbmPixelFormat::Ya16Le => 16,
            PbmPixelFormat::GrayF32 | PbmPixelFormat::RgbF32 => 32,
        }
    }

    /// Bytes occupied by one pixel; `None` for `MonoBlack`.
    pub fn bytes_per_pixel(self) -> (r: Option<usize>)
        ensures
            r matches Some(n) ==> self.spec_bytes_per_pixel() == Some(n as nat),
            r is None ==> self.spec_bytes_per_pixel() is None,
    {
        match self {
            PbmPixelFormat::MonoBlack => None,
            PbmPixelFormat::Gray8 => Some(1),
            PbmPixelFormat::Gray16Le | PbmPixelFormat::Ya8 => Some(2),
            PbmPixelFormat::Rgb24 => Some(3),
            PbmPixelFormat::Rgba | PbmPixelFormat::Bgra | PbmPixelFormat::Ya16Le
            | PbmPixelFormat::GrayF32 => Some(4),
            PbmPixelFormat::Rgb48Le => Some(6),
            PbmPixelFormat::Rgba64Le => Some(8),
            PbmPixelFormat::RgbF32 => Some(12),
        }
    }

    /// `true` for the two IEEE-754 float formats.
    pub fn is_float(self) -> (r: bool)
        ensures
            r == (self == PbmPixelFormat::GrayF32 || self == PbmPixelFormat::RgbF32),
    {
        matches!(self, PbmPixelFormat::GrayF32 | PbmPixelFormat::RgbF32)
    }

    /// `true` when the format carries an alpha channel.
    pub fn has_alpha(self) -> (r: bool)
        ensures
            r == (self == PbmPixelFormat::Ya8 || self == PbmPixelFormat::Ya16Le || self
                == PbmPixelFormat::Rgba || self == PbmPixelFormat::Bgra || self
                == PbmPixelFormat::Rgba64Le),
    {
        matches!(
            self,
            PbmPixelFormat::Ya8 | PbmPixelFormat::Ya16Le | PbmPixelFormat::Rgba
                | PbmPixelFormat::Bgra | PbmPixelFormat::Rgba64Le
        )
    }

    /// `true` when the format carries an RGB triple.
    pub fn is_color(self) -> (r: bool)
        ensures
            r == (self == PbmPixelFormat::Rgb24 || self == PbmPixelFormat::Rgb48Le || self
                == PbmPixelFormat::RgbF32 || self == PbmPixelFormat::Rgba || self
                == PbmPixelFormat::Bgra || self == PbmPixelFormat::Rgba64Le),
    {
        matches!(
            self,
            PbmPixelFormat::Rgb24 | PbmPixelFormat::Rgb48Le | PbmPixelFormat::RgbF32
                | PbmPixelFormat::Rgba | PbmPixelFormat::Bgra | PbmPixelFormat::Rgba64Le
        )
    }

    /// `true` for the single bilevel format, `MonoBlack`.
    pub fn is_bilevel(self) -> (r: bool)
        ensures
            r == (self == PbmPixelFormat::MonoBlack),
    {
        self == PbmPixelFormat::MonoBlack
    }
}

/// One image plane: row-major bytes plus the row stride in bytes.
#[derive(Debug, Clone)]
pub struct PbmPlane {
    /// Bytes per row in `data`.
    pub stride: usize,
    /// Raw plane bytes, `stride` × number of rows.
    pub data: Vec<u8>,
}

/// One Netpbm frame.
#[derive(Debug, Clone)]
pub struct PbmImage {
    /// Picture width in pixels.
    pub width: u32,
    /// Picture height in pixels.
    pub height: u32,
    /// Pixel layout the planes carry.
    pub pixel_format: PbmPixelFormat,
    /// One plane per image plane; every Netpbm format uses a single plane.
    pub planes: Vec<PbmPlane>,
    /// Optional presentation timestamp (always `None` from the decoder).
    pub pts: Option<i64>,
}

/// Minimum bytes in one row of `width` pixels in `format`.
pub open spec fn min_row_bytes_spec(format: PbmPixelFormat, width: nat) -> nat {
    match format.spec_bytes_per_pixel() {
        Some(bpp) => width * bpp,
        None => (width + 7) / 8,
    }
}

/// Bytes per pixel of each whole-byte format, spelled out.
pub proof fn lemma_row_bytes(format: PbmPixelFormat, width: nat)
    ensures
        min_row_bytes_spec(format, width) == match format {
            PbmPixelFormat::MonoBlack => (width + 7) / 8,
            PbmPixelFormat::Gray8 => width,
            PbmPixelFormat::Gray16Le | PbmPixelFormat::Ya8 => 2 * width,
            PbmPixelFormat::Rgb24 => 3 * width,
            PbmPixelFormat::Rgba | PbmPixelFormat::Bgra | PbmPixelFormat::Ya16Le
            | PbmPixelFormat::GrayF32 => 4 * width,
            PbmPixelFormat::Rgb48Le => 6 * width,
            PbmPixelFormat::Rgba64Le => 8 * width,
            PbmPixelFormat::RgbF32 => 12 * width,
        },
{
    match format {
        PbmPixelFormat::MonoBlack => {},
        _ => {
            let b = format.spec_bytes_per_pixel()->0;
            assert(min_row_bytes_spec(format, width) == width * b);
        },
    }
}

/// The reasons `validate` can give, in the order it checks them.
pub open spec fn validate_spec(img: PbmImage) -> core::result::Result<(), nat> {
    let row = min_row_bytes_spec(img.pixel_format, img.width as nat);
    if img.planes@.len() != 1 {
        Err(0)
    } else if img.width == 0 || img.height == 0 {
        Err(1)
    } else if img.planes@[0].stride < row {
        Err(2)
    } else if img.planes@[0].data@.len() < img.planes@[0].stride * (img.height - 1) + row {
        Err(3)
    } else {
        Ok(())
    }
}

/// A pixel format's name as `{:?}` shows it.
pub open spec fn format_name(f: PbmPixelFormat) -> Seq<char> {
    match f {
        PbmPixelFormat::MonoBlack => "MonoBlack"@,
        PbmPixelFormat::Gray8 => "Gray8"@,
        PbmPixelFormat::Gray16Le => "Gray16Le"@,
        PbmPixelFormat::Rgb24 => "Rgb24"@,
        PbmPixelFormat::Rgb48Le => "Rgb48Le"@,
        PbmPixelFormat::Rgba => "Rgba"@,
        PbmPixelFormat::Bgra => "Bgra"@,
        PbmPixelFormat::Rgba64Le => "Rgba64Le"@,
        PbmPixelFormat::Ya8 => "Ya8"@,
        PbmPixelFormat::Ya16Le => "Ya16Le"@,
        PbmPixelFormat::GrayF32 => "GrayF32"@,
        PbmPixelFormat::RgbF32 => "RgbF32"@,
    }
}

/// The error naming a pixel format an operation cannot take:
/// `prefix`, the format's name, `suffix`.
pub fn unsupported_format(prefix: &str, f: PbmPixelFormat, suffix: &str) -> (e: PbmError)
    ensures
        crate::error::fail_of(e) == Fail::Unsupported(prefix@ + format_name(f) + suffix@),
{
    let mut m = String::from_str(prefix);
    let name: &str = match f {
        PbmPixelFormat::MonoBlack => "MonoBlack",
        PbmPixelFormat::Gray8 => "Gray8",
        PbmPixelFormat::Gray16Le => "Gray16Le",
        PbmPixelFormat::Rgb24 => "Rgb24",
        PbmPixelFormat::Rgb48Le => "Rgb48Le",
        PbmPixelFormat::Rgba => "Rgba",
        PbmPixelFormat::Bgra => "Bgra",
        PbmPixelFormat::Rgba64Le => "Rgba64Le",
        PbmPixelFormat::Ya8 => "Ya8",
        PbmPixelFormat::Ya16Le => "Ya16Le",
        PbmPixelFormat::GrayF32 => "GrayF32",
        PbmPixelFormat::RgbF32 => "RgbF32",
    };
    assert(name@ == format_name(f));
    m.append(name);
    m.append(suffix);
    PbmError::Unsupported(m)
}

impl PbmImage {
    /// Bytes occupied by one row of the in-memory plane (`width.div_ceil(8)`
    /// for `MonoBlack`, `width * bytes_per_pixel` otherwise).
    pub fn min_row_bytes(&self) -> (r: usize)
        requires
            min_row_bytes_spec(self.pixel_format, self.width as nat) <= usize::MAX,
        ensures
            r == min_row_bytes_spec(self.pixel_format, self.width as nat),
    {
        let w = self.width as u64;
        match self.pixel_format.bytes_per_pixel() {
            Some(bpp) => (w * bpp as u64) as usize,
            None => ((w + 7) / 8) as usize,
        }
    }

    /// `min_row_bytes() * height`: the bytes a tightly packed plane holds.
    pub fn min_plane_len(&self) -> (r: usize)
        requires
            min_row_bytes_spec(self.pixel_format, self.width as nat) <= usize::MAX,
            min_row_bytes_spec(self.pixel_format, self.width as nat) * self.height <= usize::MAX,
        ensures
            r == min_row_bytes_spec(self.pixel_format, self.width as nat) * self.height,
    {
        self.min_row_bytes() * self.height as usize
    }

    /// Check that the single plane holds enough bytes for `width` ×
    /// `height` pixels given its stride (the last row needs only
    /// `min_row_bytes`).
    pub fn validate(&self) -> (r: core::result::Result<(), &'static str>)
        requires
            min_row_bytes_spec(self.pixel_format, self.width as nat) <= usize::MAX,
        ensures
            r == match validate_spec(*self) {
                Ok(()) => Ok::<(), &'static str>(()),
                Err(c) => Err(
                    if c == 0 {
                        "PbmImage must have exactly one plane"
                    } else if c == 1 {
                        "PbmImage width and height must be non-zero"
                    } else if c == 2 {
                        "PbmImage plane stride is smaller than one packed row"
                    } else {
                        "PbmImage plane data is shorter than width × height demands"
                    },
                ),
            },
    {
        if self.planes.len() != 1 {
            return Err("PbmImage must have exactly one plane");
        }
        if self.width == 0 || self.height == 0 {
            return Err("PbmImage width and height must be non-zero");
        }
        let plane = &self.planes[0];
        let min_row = self.min_row_bytes();
        if plane.stride < min_row {
            return Err("PbmImage plane stride is smaller than one packed row");
        }
        let h = self.height as usize;
        let have = plane.data.len();
        // A demand past `usize::MAX` is more than any plane holds.
        let need = match plane.stride.checked_mul(h - 1) {
            Some(full) => full.checked_add(min_row),
            None => None,
        };
        match need {
            Some(n) => {
                if have < n {
                    return Err("PbmImage plane data is shorter than width × height demands");
                }
            },
            None => {
                assert(have < plane.stride * (h - 1) + min_row) by (nonlinear_arith)
                    requires
                        have <= usize::MAX,
                        plane.stride * (h - 1) > usize::MAX || plane.stride * (h - 1) + min_row
                            > usize::MAX,
                        min_row >= 0,
                ;
                return Err("PbmImage plane data is shorter than width × height demands");
            },
        }
        Ok(())
    }
}

} // verus!
