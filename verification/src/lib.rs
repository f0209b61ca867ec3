//! Netpbm image codec: PBM / PGM / PPM / PNM (P1-P6), PAM (P7) and the
//! Portable FloatMap (`Pf` / `PF`), with every header, body and writer
//! specified and proved.

pub mod ascii;
pub mod binary32;
pub mod binary;
pub mod decoder;
pub mod encoder;
pub mod error;
pub mod header;
pub mod image;
pub mod laws;
pub mod lex;
pub mod numtext;
pub mod pfm;
pub mod plain_recode;
pub mod recode;
pub mod streams;
pub mod written;

pub use decoder::{
    decode_pbm, decode_pbm_consumed, decode_pbm_header_consumed, decode_pbm_multi,
    decode_pbm_multi_with_headers,
};
pub use encoder::{
    encode_pbm, encode_pbm_ascii, encode_pbm_ascii_plane, encode_pbm_plane, encode_pbm_with_format,
    PbmEncodeFormat,
};
pub use error::{PbmError, Result};
pub use header::{iter_pnm_header_comments, parse_header, Header, Magic, PfmInfo, Tupltype};
pub use image::{PbmImage, PbmPixelFormat, PbmPlane};
pub use pfm::{
    decode_pfm, decode_pfm_consumed, encode_pfm_plane_with_scale, PfmHeaderInfo,
};
