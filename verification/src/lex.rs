//! Byte-level lexing shared by every Netpbm reader and writer: ASCII
//! whitespace, `# … LF` comments, decimal integer tokens, and the decimal
//! writer used for headers and plain (ASCII) bodies.

use vstd::prelude::*;

verus! {

/// The six ASCII whitespace bytes the Netpbm man pages allow as
/// separators: space, TAB, LF, VT, FF and CR.
pub open spec fn is_ws_byte(c: u8) -> bool {
    c == 0x20 || c == 0x09 || c == 0x0a || c == 0x0b || c == 0x0c || c == 0x0d
}

pub open spec fn is_digit_byte(c: u8) -> bool {
    0x30 <= c <= 0x39
}

/// Netpbm whitespace test.
pub fn is_ws(c: u8) -> (r: bool)
    ensures
        r == is_ws_byte(c),
{
    c == 0x20 || c == 0x09 || c == 0x0a || c == 0x0b || c == 0x0c || c == 0x0d
}

/// Position reached from `i` by skipping whitespace and `# … LF` comments.
/// A comment runs up to (not including) the next LF, which is itself
/// whitespace.
pub open spec fn skip_wsc(s: Seq<u8>, i: int) -> int
    decreases s.len() - i,
{
    if i < 0 || i >= s.len() {
        i
    } else if is_ws_byte(s[i]) {
        skip_wsc(s, i + 1)
    } else if s[i] == 0x23 {
        skip_comment(s, i + 1)
    } else {
        i
    }
}

/// Position reached from `i`, inside a comment, once the comment and the
/// whitespace/comments that follow it are skipped.
pub open spec fn skip_comment(s: Seq<u8>, i: int) -> int
    decreases s.len() - i,
{
    if i < 0 || i >= s.len() {
        i
    } else if s[i] == 0x0a {
        skip_wsc(s, i + 1)
    } else {
        skip_comment(s, i + 1)
    }
}

pub proof fn lemma_skip_wsc_bounds(s: Seq<u8>, i: int)
    requires
        0 <= i <= s.len(),
    ensures
        i <= skip_wsc(s, i) <= s.len(),
        skip_wsc(s, i) < s.len() ==> !is_ws_byte(s[skip_wsc(s, i)]) && s[skip_wsc(s, i)] != 0x23,
    decreases s.len() - i,
{
    if i < s.len() {
        if is_ws_byte(s[i]) {
            lemma_skip_wsc_bounds(s, i + 1);
        } else if s[i] == 0x23 {
            lemma_skip_comment_bounds(s, i + 1);
        }
    }
}

pub proof fn lemma_skip_comment_bounds(s: Seq<u8>, i: int)
    requires
        0 <= i <= s.len(),
    ensures
        i <= skip_comment(s, i) <= s.len(),
        skip_comment(s, i) < s.len() ==> !is_ws_byte(s[skip_comment(s, i)]) && s[skip_comment(
            s,
            i,
        )] != 0x23,
    decreases s.len() - i,
{
    if i < s.len() {
        if s[i] == 0x0a {
            lemma_skip_wsc_bounds(s, i + 1);
        } else {
            lemma_skip_comment_bounds(s, i + 1);
        }
    }
}

/// Skipping whitespace and comments twice is skipping them once.
pub proof fn lemma_skip_wsc_idem(s: Seq<u8>, i: int)
    requires
        0 <= i <= s.len(),
    ensures
        skip_wsc(s, skip_wsc(s, i)) == skip_wsc(s, i),
{
    lemma_skip_wsc_bounds(s, i);
}

/// Advance `cursor` past any run of whitespace and `# … LF` comments.
pub fn skip_ws_and_comments(input: &[u8], cursor: &mut usize)
    requires
        *old(cursor) <= input@.len(),
    ensures
        *final(cursor) == skip_wsc(input@, *old(cursor) as int),
{
    let ghost start = *cursor as int;
    loop
        invariant
            *cursor <= input@.len(),
            skip_wsc(input@, start) == skip_wsc(input@, *cursor as int),
        ensures
            *cursor == skip_wsc(input@, start),
        decreases input@.len() - *cursor,
    {
        let ghost round = *cursor;
        while *cursor < input.len() && is_ws(input[*cursor])
            invariant
                round <= *cursor <= input@.len(),
                skip_wsc(input@, start) == skip_wsc(input@, *cursor as int),
            decreases input@.len() - *cursor,
        {
            *cursor += 1;
        }
        if *cursor < input.len() && input[*cursor] == 0x23 {
            *cursor += 1;
            while *cursor < input.len() && input[*cursor] != 0x0a
                invariant
                    round < *cursor <= input@.len(),
                    skip_wsc(input@, start) == skip_comment(input@, *cursor as int),
                decreases input@.len() - *cursor,
            {
                *cursor += 1;
            }
            if *cursor < input.len() {
                *cursor += 1;
            }
        } else {
            break;
        }
    }
}

/// First position at or after `i` that does not hold an ASCII digit.
pub open spec fn digits_end(s: Seq<u8>, i: int) -> int
    decreases s.len() - i,
{
    if 0 <= i < s.len() && is_digit_byte(s[i]) {
        digits_end(s, i + 1)
    } else {
        i
    }
}

pub proof fn lemma_digits_end(s: Seq<u8>, i: int)
    requires
        0 <= i <= s.len(),
    ensures
        i <= digits_end(s, i) <= s.len(),
        forall|k: int| i <= k < digits_end(s, i) ==> is_digit_byte(#[trigger] s[k]),
        digits_end(s, i) < s.len() ==> !is_digit_byte(s[digits_end(s, i)]),
    decreases s.len() - i,
{
    if i < s.len() && is_digit_byte(s[i]) {
        lemma_digits_end(s, i + 1);
    }
}

/// Numeric value of a run of ASCII decimal digits.
pub open spec fn dec_value(d: Seq<u8>) -> nat
    decreases d.len(),
{
    if d.len() == 0 {
        0
    } else {
        dec_value(d.drop_last()) * 10 + ((d.last() - 0x30) as nat)
    }
}

pub open spec fn all_digits(d: Seq<u8>) -> bool {
    forall|k: int| 0 <= k < d.len() ==> is_digit_byte(#[trigger] d[k])
}

/// Outcome of reading one decimal token: its value and the cursor after it.
pub enum Token {
    Value(u32, int),
    Missing,
    Overflow,
}

/// Read one decimal integer starting at `i` (after skipping whitespace and
/// comments). `Missing` when no digit is there; `Overflow` when the value
/// exceeds `u32::MAX`; otherwise the value and the position one past the
/// last digit.
pub open spec fn dec_token(s: Seq<u8>, i: int) -> Token {
    let a = skip_wsc(s, i);
    let b = digits_end(s, a);
    if b == a {
        Token::Missing
    } else if dec_value(s.subrange(a, b)) > u32::MAX {
        Token::Overflow
    } else {
        Token::Value(dec_value(s.subrange(a, b)) as u32, b)
    }
}

/// Read the decimal digit run starting exactly at `cursor`, accumulating it
/// into a `u32`, and leave `cursor` one past its last digit. Returns `None`
/// when the value does not fit in 32 bits.
pub fn read_digits(input: &[u8], cursor: &mut usize) -> (r: Option<u32>)
    requires
        *old(cursor) <= input@.len(),
    ensures
        ({
            let a = *old(cursor) as int;
            let b = digits_end(input@, a);
            &&& *final(cursor) == b
            &&& (r is Some) <==> (dec_value(input@.subrange(a, b)) <= u32::MAX)
            &&& r matches Some(v) ==> v == dec_value(input@.subrange(a, b))
        }),
        *final(cursor) <= input@.len(),
{
    let ghost a = *cursor as int;
    proof {
        lemma_digits_end(input@, a);
    }
    let mut v: u32 = 0;
    let mut ovf = false;
    while *cursor < input.len() && 0x30 <= input[*cursor] && input[*cursor] <= 0x39
        invariant
            a == *old(cursor),
            a <= *cursor <= digits_end(input@, a),
            digits_end(input@, a) <= input@.len(),
            forall|k: int| a <= k < digits_end(input@, a) ==> is_digit_byte(#[trigger] input@[k]),
            digits_end(input@, a) < input@.len() ==> !is_digit_byte(
                input@[digits_end(input@, a)],
            ),
            !ovf ==> v == dec_value(input@.subrange(a, *cursor as int)),
            ovf ==> dec_value(input@.subrange(a, *cursor as int)) > u32::MAX,
        decreases input@.len() - *cursor,
    {
        let d = (input[*cursor] - 0x30) as u32;
        let ghost prev = input@.subrange(a, *cursor as int);
        let ghost next = input@.subrange(a, *cursor + 1);
        assert(next.drop_last() =~= prev);
        assert(dec_value(next) == dec_value(prev) * 10 + d);
        if !ovf {
            if v > 429496729 || (v == 429496729 && d > 5) {
                proof {
                    assert(dec_value(next) > u32::MAX) by (nonlinear_arith)
                        requires
                            dec_value(next) == v * 10 + d,
                            v > 429496729 || (v == 429496729 && d > 5),
                    ;
                }
                ovf = true;
            } else {
                v = v * 10 + d;
            }
        }
        *cursor += 1;
    }
    if ovf {
        None
    } else {
        Some(v)
    }
}

/// Netpbm token reader shared by the header and the plain-format bodies:
/// skip whitespace and comments, then read one decimal integer, leaving
/// `cursor` one past its last digit.
pub fn next_dec_token(input: &[u8], cursor: &mut usize) -> (r: Option<Option<u32>>)
    requires
        *old(cursor) <= input@.len(),
    ensures
        match dec_token(input@, *old(cursor) as int) {
            Token::Missing => r == Some(None::<u32>),
            Token::Overflow => r is None && *final(cursor) == digits_end(
                input@,
                skip_wsc(input@, *old(cursor) as int),
            ),
            Token::Value(v, e) => r == Some(Some(v)) && *final(cursor) == e,
        },
        dec_token(input@, *old(cursor) as int) is Missing ==> *final(cursor) == skip_wsc(
            input@,
            *old(cursor) as int,
        ),
        *final(cursor) <= input@.len(),
{
    proof {
        lemma_skip_wsc_bounds(input@, *cursor as int);
    }
    skip_ws_and_comments(input, cursor);
    let start = *cursor;
    proof {
        lemma_digits_end(input@, start as int);
    }
    if !(start < input.len() && 0x30 <= input[start] && input[start] <= 0x39) {
        return Some(None);
    }
    match read_digits(input, cursor) {
        None => None,
        Some(v) => Some(Some(v)),
    }
}

/// The decimal spelling of `n`, most significant digit first, without
/// leading zeros (`0` is spelt `"0"`).
pub open spec fn dec_digits(n: nat) -> Seq<u8>
    decreases n,
{
    if n < 10 {
        seq![(0x30 + n) as u8]
    } else {
        dec_digits(n / 10).push((0x30 + n % 10) as u8)
    }
}

pub proof fn lemma_dec_digits_shape(n: nat)
    ensures
        dec_digits(n).len() >= 1,
        all_digits(dec_digits(n)),
        dec_value(dec_digits(n)) == n,
        n >= 10 ==> dec_digits(n)[0] != 0x30,
    decreases n,
{
    if n < 10 {
        let d = dec_digits(n);
        assert(d.drop_last() =~= Seq::<u8>::empty());
        assert(d.last() == (0x30 + n) as u8);
        assert(d.last() - 0x30 == n);
        assert(dec_value(d) == dec_value(d.drop_last()) * 10 + ((d.last() - 0x30) as nat));
    } else {
        lemma_dec_digits_shape(n / 10);
        let d = dec_digits(n);
        assert(d.drop_last() =~= dec_digits(n / 10));
        assert(d[0] == dec_digits(n / 10)[0]);
        assert(n % 10 < 10);
        assert(d.last() == (0x30 + n % 10) as u8);
        assert(d.last() - 0x30 == n % 10);
        assert((n / 10) * 10 + n % 10 == n) by (nonlinear_arith);
    }
}

/// Append the decimal spelling of `n` to `out`.
pub fn write_dec(out: &mut Vec<u8>, n: u64)
    ensures
        final(out)@ == old(out)@ + dec_digits(n as nat),
    decreases n,
{
    if n >= 10 {
        write_dec(out, n / 10);
    }
    out.push(0x30 + (n % 10) as u8);
    proof {
        if n < 10 {
            assert(final(out)@ =~= old(out)@ + dec_digits(n as nat));
        } else {
            assert(final(out)@ =~= old(out)@ + dec_digits(n as nat));
        }
    }
}

} // verus!
