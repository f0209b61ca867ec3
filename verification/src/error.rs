//! The crate's error type.

use vstd::prelude::*;
use vstd::string::StringExecFns;
use vstd::utf8::{decode_utf8, valid_utf8};
use crate::lex::{dec_digits, lemma_dec_digits_shape, write_dec};

verus! {

/// Error variants returned by the codec.
#[derive(Debug, Clone, PartialEq, Eq)]
pub enum PbmError {
    /// The byte stream is malformed (bad magic, truncated header,
    /// non-numeric token where a sample was expected, ...).
    InvalidData(String),
    /// The byte stream uses a feature this codec does not implement, or the
    /// encoder was asked to emit a pixel format it does not support.
    Unsupported(String),
}

/// `Result` alias used throughout the crate.
pub type Result<T> = core::result::Result<T, PbmError>;

/// An error as contracts speak of it: its class and its message.
pub enum Fail {
    Invalid(Seq<char>),
    Unsupported(Seq<char>),
}

pub open spec fn fail_of(e: PbmError) -> Fail {
    match e {
        PbmError::InvalidData(m) => Fail::Invalid(m@),
        PbmError::Unsupported(m) => Fail::Unsupported(m@),
    }
}

/// `r` is an [`PbmError::InvalidData`] error with message `msg`.
pub open spec fn invalid_with<T>(r: Result<T>, msg: Seq<char>) -> bool {
    r matches Err(PbmError::InvalidData(m)) && m@ == msg
}

/// An exec result agrees with a spec-level outcome: the same success
/// value (under `rel`) or the same error, message included.
pub open spec fn agrees<T, S>(r: Result<T>, s: core::result::Result<S, Fail>, rel: spec_fn(T, S) -> bool) -> bool {
    match (r, s) {
        (Ok(a), Ok(b)) => rel(a, b),
        (Err(e), Err(f)) => fail_of(e) == f,
        _ => false,
    }
}

impl PbmError {
    /// Construct a [`PbmError::InvalidData`] from a message.
    pub fn invalid(msg: &str) -> (e: Self)
        ensures
            e matches PbmError::InvalidData(m) && m@ == msg@,
    {
        PbmError::InvalidData(String::from_str(msg))
    }

    /// Construct a [`PbmError::Unsupported`] from a message.
    pub fn unsupported(msg: &str) -> (e: Self)
        ensures
            e matches PbmError::Unsupported(m) && m@ == msg@,
    {
        PbmError::Unsupported(String::from_str(msg))
    }

    /// Human-readable rendering: `invalid data: …` or `unsupported: …`.
    pub fn message(&self) -> (s: String)
        ensures
            s@ == match self {
                PbmError::InvalidData(m) => "invalid data: "@ + m@,
                PbmError::Unsupported(m) => "unsupported: "@ + m@,
            },
    {
        match self {
            PbmError::InvalidData(m) => {
                let mut s = String::from_str("invalid data: ");
                s.append(m.as_str());
                s
            },
            PbmError::Unsupported(m) => {
                let mut s = String::from_str("unsupported: ");
                s.append(m.as_str());
                s
            },
        }
    }
}

// ---------------------------------------------------------------------------
// Message text
// ---------------------------------------------------------------------------

/// The decimal text of a number, as a message shows it.
pub open spec fn num_text(n: nat) -> Seq<char> {
    decode_utf8(dec_digits(n))
}

/// One lowercase hexadecimal digit.
pub open spec fn hex_digit(n: nat) -> u8 {
    if n < 10 {
        (0x30 + n) as u8
    } else {
        (0x57 + n) as u8
    }
}

/// A byte as `{:#x}` shows it: `0x` and its lowercase hexadecimal digits,
/// without leading zeros.
pub open spec fn hex_text(c: u8) -> Seq<char> {
    "0x"@ + decode_utf8(
        if c < 16 {
            seq![hex_digit(c as nat)]
        } else {
            seq![hex_digit((c / 16) as nat), hex_digit((c % 16) as nat)]
        },
    )
}

/// The text of bytes as a message shows it: their characters when they
/// are UTF-8 (every caller hands UTF-8), nothing otherwise.
pub open spec fn utf8_text(b: Seq<u8>) -> Seq<char> {
    if valid_utf8(b) {
        decode_utf8(b)
    } else {
        Seq::empty()
    }
}

/// Append the text of UTF-8 bytes to a message.
pub fn push_text(m: &mut String, b: &[u8])
    ensures
        final(m)@ == old(m)@ + utf8_text(b@),
{
    match crate::numtext::utf8_string(b) {
        Some(t) => m.append(t.as_str()),
        None => {
            assert(old(m)@ + Seq::<char>::empty() =~= old(m)@);
        },
    }
}

/// Append the decimal text of a number to a message.
pub fn push_num(m: &mut String, n: u64)
    ensures
        final(m)@ == old(m)@ + num_text(n as nat),
{
    let mut d: Vec<u8> = Vec::new();
    write_dec(&mut d, n);
    proof {
        lemma_dec_digits_shape(n as nat);
        assert(d@ =~= dec_digits(n as nat));
        assert forall|k: int| 0 <= k < d@.len() implies #[trigger] d@[k] < 0x80 by {
            assert(crate::lex::is_digit_byte(d@[k]));
        }
        crate::recode::lemma_ascii_utf8(d@);
    }
    push_text(m, d.as_slice());
}

fn hex_digit_byte(n: u8) -> (r: u8)
    requires
        n < 16,
    ensures
        r == hex_digit(n as nat),
{
    if n < 10 {
        0x30 + n
    } else {
        0x57 + n
    }
}

/// Append a byte as `{:#x}` shows it.
pub fn push_hex(m: &mut String, c: u8)
    ensures
        final(m)@ == old(m)@ + hex_text(c),
{
    m.append("0x");
    let mut d: Vec<u8> = Vec::new();
    if c < 16 {
        d.push(hex_digit_byte(c));
    } else {
        d.push(hex_digit_byte(c / 16));
        d.push(hex_digit_byte(c % 16));
    }
    let ghost ds = if c < 16 {
        seq![hex_digit(c as nat)]
    } else {
        seq![hex_digit((c / 16) as nat), hex_digit((c % 16) as nat)]
    };
    proof {
        assert(d@ =~= ds);
        assert forall|k: int| 0 <= k < d@.len() implies #[trigger] d@[k] < 0x80 by {}
        crate::recode::lemma_ascii_utf8(d@);
    }
    push_text(m, d.as_slice());
    assert(final(m)@ =~= old(m)@ + hex_text(c));
}

} // verus!
