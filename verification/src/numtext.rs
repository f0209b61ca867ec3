//! Textual values found in PAM and Portable FloatMap headers: Unicode
//! whitespace trimming, the unsigned-integer grammar (`+`? digits), the
//! IEEE-754 literal grammar of the PFM scale line, and UTF-8 validation.

use vstd::prelude::*;
use vstd::utf8::*;
use vstd::slice::slice_subrange;
use crate::lex::{all_digits, dec_value, digits_end, is_digit_byte, lemma_digits_end, read_digits};
use crate::binary32::{literal_overflows, literal_rounding, literal_underflows, number_literal};

verus! {

/// An ASCII byte that is Unicode `White_Space` (TAB, LF, VT, FF, CR, space).
pub open spec fn is_ascii_uws(c: u8) -> bool {
    (0x09 <= c <= 0x0d) || c == 0x20
}

/// Length in bytes of the UTF-8 encoded Unicode `White_Space` character at
/// the start of `s`, or 0 when `s` does not start with one. The non-ASCII
/// members are U+0085, U+00A0, U+1680, U+2000..=U+200A, U+2028, U+2029,
/// U+202F, U+205F and U+3000.
pub open spec fn uws_prefix(s: Seq<u8>) -> int {
    if s.len() >= 1 && is_ascii_uws(s[0]) {
        1
    } else if s.len() >= 2 && s[0] == 0xc2 && (s[1] == 0x85 || s[1] == 0xa0) {
        2
    } else if s.len() >= 3 && is_uws3(s[0], s[1], s[2]) {
        3
    } else {
        0
    }
}

pub open spec fn is_uws3(a: u8, b: u8, c: u8) -> bool {
    ||| (a == 0xe1 && b == 0x9a && c == 0x80)
    ||| (a == 0xe2 && b == 0x80 && ((0x80 <= c <= 0x8a) || c == 0xa8 || c == 0xa9 || c == 0xaf))
    ||| (a == 0xe2 && b == 0x81 && c == 0x9f)
    ||| (a == 0xe3 && b == 0x80 && c == 0x80)
}

/// Length in bytes of the Unicode `White_Space` character that ends `s`.
pub open spec fn uws_suffix(s: Seq<u8>) -> int {
    let n = s.len() as int;
    if n >= 1 && is_ascii_uws(s[n - 1]) {
        1
    } else if n >= 2 && s[n - 2] == 0xc2 && (s[n - 1] == 0x85 || s[n - 1] == 0xa0) {
        2
    } else if n >= 3 && is_uws3(s[n - 3], s[n - 2], s[n - 1]) {
        3
    } else {
        0
    }
}

pub open spec fn trim_start_uws(s: Seq<u8>) -> Seq<u8>
    decreases s.len(),
{
    if uws_prefix(s) > 0 {
        trim_start_uws(s.subrange(uws_prefix(s), s.len() as int))
    } else {
        s
    }
}

pub open spec fn trim_end_uws(s: Seq<u8>) -> Seq<u8>
    decreases s.len(),
{
    if uws_suffix(s) > 0 {
        trim_end_uws(s.subrange(0, s.len() - uws_suffix(s)))
    } else {
        s
    }
}

/// `str::trim` on the UTF-8 bytes of a string: drop leading and trailing
/// Unicode `White_Space` characters.
pub open spec fn trim_uws(s: Seq<u8>) -> Seq<u8> {
    trim_end_uws(trim_start_uws(s))
}

fn uws_prefix_at(b: &[u8], i: usize, j: usize) -> (r: usize)
    requires
        i <= j <= b@.len(),
    ensures
        r == uws_prefix(b@.subrange(i as int, j as int)),
{
    let n = j - i;
    if n >= 1 && ((0x09 <= b[i] && b[i] <= 0x0d) || b[i] == 0x20) {
        1
    } else if n >= 2 && b[i] == 0xc2 && (b[i + 1] == 0x85 || b[i + 1] == 0xa0) {
        2
    } else if n >= 3 && uws3(b[i], b[i + 1], b[i + 2]) {
        3
    } else {
        0
    }
}

fn uws_suffix_at(b: &[u8], i: usize, j: usize) -> (r: usize)
    requires
        i <= j <= b@.len(),
    ensures
        r == uws_suffix(b@.subrange(i as int, j as int)),
{
    let n = j - i;
    if n >= 1 && ((0x09 <= b[j - 1] && b[j - 1] <= 0x0d) || b[j - 1] == 0x20) {
        1
    } else if n >= 2 && b[j - 2] == 0xc2 && (b[j - 1] == 0x85 || b[j - 1] == 0xa0) {
        2
    } else if n >= 3 && uws3(b[j - 3], b[j - 2], b[j - 1]) {
        3
    } else {
        0
    }
}

fn uws3(a: u8, b: u8, c: u8) -> (r: bool)
    ensures
        r == is_uws3(a, b, c),
{
    (a == 0xe1 && b == 0x9a && c == 0x80) || (a == 0xe2 && b == 0x80 && ((0x80 <= c && c <= 0x8a)
        || c == 0xa8 || c == 0xa9 || c == 0xaf)) || (a == 0xe2 && b == 0x81 && c == 0x9f) || (a
        == 0xe3 && b == 0x80 && c == 0x80)
}

/// Bounds `(start, end)` of `b` once leading and trailing Unicode
/// whitespace is removed.
pub fn trim_unicode_ws(b: &[u8]) -> (r: (usize, usize))
    ensures
        r.0 <= r.1 <= b@.len(),
        b@.subrange(r.0 as int, r.1 as int) == trim_uws(b@),
{
    let mut i: usize = 0;
    let n = b.len();
    assert(b@.subrange(0, n as int) =~= b@);
    loop
        invariant
            n == b@.len(),
            i <= n,
            trim_start_uws(b@) == trim_start_uws(b@.subrange(i as int, n as int)),
        ensures
            i <= n,
            trim_start_uws(b@) == b@.subrange(i as int, n as int),
        decreases n - i,
    {
        let k = uws_prefix_at(b, i, n);
        if k == 0 {
            break;
        }
        proof {
            let t = b@.subrange(i as int, n as int);
            assert(t.subrange(k as int, t.len() as int) =~= b@.subrange(i + k, n as int));
        }
        i = i + k;
    }
    let mut j: usize = n;
    loop
        invariant
            n == b@.len(),
            i <= j <= n,
            trim_uws(b@) == trim_end_uws(b@.subrange(i as int, j as int)),
        ensures
            i <= j <= n,
            trim_uws(b@) == b@.subrange(i as int, j as int),
        decreases j - i,
    {
        let k = uws_suffix_at(b, i, j);
        if k == 0 {
            break;
        }
        proof {
            let t = b@.subrange(i as int, j as int);
            assert(t.subrange(0, t.len() - k) =~= b@.subrange(i as int, j - k));
        }
        j = j - k;
    }
    (i, j)
}

/// `u32`'s `FromStr` grammar on already-trimmed text: an optional `+`
/// followed by one or more ASCII digits whose value fits in 32 bits.
pub open spec fn uint_literal(u: Seq<u8>) -> Option<u32> {
    let d = if u.len() > 0 && u[0] == 0x2b {
        u.drop_first()
    } else {
        u
    };
    if d.len() > 0 && all_digits(d) && dec_value(d) <= u32::MAX {
        Some(dec_value(d) as u32)
    } else {
        None
    }
}

/// `text.trim().parse::<u32>()` on the UTF-8 bytes of `text`.
pub open spec fn uint_text(t: Seq<u8>) -> Option<u32> {
    uint_literal(trim_uws(t))
}

/// Why `u32::from_str` refuses trimmed text `u`, as its error shows it: an
/// empty text; a digit run (after an optional `+`) whose value leaves
/// `u32` before any other byte is met; otherwise a byte that is not a
/// digit.
pub open spec fn uint_error_text(u: Seq<u8>) -> Seq<char> {
    let d = if u.len() > 0 && u[0] == 0x2b {
        u.drop_first()
    } else {
        u
    };
    if u.len() == 0 {
        "cannot parse integer from empty string"@
    } else if dec_value(d.subrange(0, digits_end(d, 0))) > u32::MAX {
        "number too large to fit in target type"@
    } else {
        "invalid digit found in string"@
    }
}

/// The error text for `text.trim().parse::<u32>()` (see
/// [`uint_error_text`]).
pub fn uint_error(t: &[u8]) -> (r: &'static str)
    ensures
        r@ == uint_error_text(trim_uws(t@)),
{
    let (s, e) = trim_unicode_ws(t);
    let u = slice_subrange(t, s, e);
    if u.len() == 0 {
        return "cannot parse integer from empty string";
    }
    let start: usize = if u[0] == 0x2b {
        1
    } else {
        0
    };
    let d = slice_subrange(u, start, u.len());
    assert(d@ =~= if u@.len() > 0 && u@[0] == 0x2b {
        u@.drop_first()
    } else {
        u@
    });
    let mut cur: usize = 0;
    match read_digits(d, &mut cur) {
        None => "number too large to fit in target type",
        Some(_) => "invalid digit found in string",
    }
}

/// Parse an unsigned decimal as `str::trim` followed by `u32::from_str`.
pub fn parse_uint(t: &[u8]) -> (r: Option<u32>)
    ensures
        r == uint_text(t@),
{
    let (s, e) = trim_unicode_ws(t);
    let u = slice_subrange(t, s, e);
    let mut start: usize = 0;
    if u.len() > 0 && u[0] == 0x2b {
        start = 1;
    }
    let ghost d = u@.subrange(start as int, u@.len() as int);
    assert(d =~= if u@.len() > 0 && u@[0] == 0x2b { u@.drop_first() } else { u@ });
    if start == u.len() {
        return None;
    }
    let mut cur = start;
    proof {
        lemma_digits_end(u@, start as int);
    }
    let v = read_digits(u, &mut cur);
    let ghost b = digits_end(u@, start as int);
    proof {
        if b != u@.len() {
            assert(!is_digit_byte(d[b - start]));
            assert(!all_digits(d));
        } else {
            assert(u@.subrange(start as int, b) =~= d);
        }
    }
    match v {
        None => None,
        Some(val) => {
            if cur != u.len() {
                return None;
            }
            assert(all_digits(d)) by {
                assert forall|k: int| 0 <= k < d.len() implies is_digit_byte(#[trigger] d[k]) by {
                    assert(d[k] == u@[start + k]);
                }
            }
            Some(val)
        },
    }
}

/// ASCII lowercase of one byte.
pub open spec fn lower(c: u8) -> u8 {
    if 0x41 <= c <= 0x5a {
        (c + 32) as u8
    } else {
        c
    }
}

pub open spec fn lowered(t: Seq<u8>) -> Seq<u8> {
    t.map_values(|c: u8| lower(c))
}

/// First index `k >= i` with `s[k] == c`, or `s.len()`.
pub open spec fn find_byte(s: Seq<u8>, c: u8, i: int) -> int
    decreases s.len() - i,
{
    if i < 0 || i >= s.len() {
        s.len() as int
    } else if s[i] == c {
        i
    } else {
        find_byte(s, c, i + 1)
    }
}

/// `Digit+ | Digit+ '.' Digit* | Digit* '.' Digit+`.
pub open spec fn mantissa_ok(m: Seq<u8>) -> bool {
    let p = find_byte(m, 0x2e, 0);
    if p == m.len() {
        m.len() > 0 && all_digits(m)
    } else {
        &&& all_digits(m.subrange(0, p))
        &&& all_digits(m.subrange(p + 1, m.len() as int))
        &&& m.len() > 1
    }
}

/// `('e' [+-]? Digit+)?` on lowercased text.
pub open spec fn exponent_ok(x: Seq<u8>) -> bool {
    x.len() == 0 || (x[0] == 0x65 && {
        let r = x.drop_first();
        let r2 = if r.len() > 0 && (r[0] == 0x2b || r[0] == 0x2d) {
            r.drop_first()
        } else {
            r
        };
        r2.len() > 0 && all_digits(r2)
    })
}

/// Text after an optional leading sign.
pub open spec fn unsigned_part(t: Seq<u8>) -> Seq<u8> {
    if t.len() > 0 && (t[0] == 0x2b || t[0] == 0x2d) {
        t.drop_first()
    } else {
        t
    }
}

pub open spec fn word_inf() -> Seq<u8> {
    seq![0x69u8, 0x6e, 0x66]
}

pub open spec fn word_infinity() -> Seq<u8> {
    seq![0x69u8, 0x6e, 0x66, 0x69, 0x6e, 0x69, 0x74, 0x79]
}

pub open spec fn word_nan() -> Seq<u8> {
    seq![0x6eu8, 0x61, 0x6e]
}

/// The grammar `f32::from_str` accepts (case-insensitively):
/// `[+-]? ('inf' | 'infinity' | 'nan' | Number)`,
/// `Number ::= Mantissa ('e' [+-]? Digit+)?`.
pub open spec fn float_literal(t: Seq<u8>) -> bool {
    let b = lowered(unsigned_part(t));
    let e = find_byte(b, 0x65, 0);
    ||| b == word_inf()
    ||| b == word_infinity()
    ||| b == word_nan()
    ||| (mantissa_ok(b.subrange(0, e)) && exponent_ok(b.subrange(e, b.len() as int)))
}

/// A literal that parses to NaN.
pub open spec fn float_literal_is_nan(t: Seq<u8>) -> bool {
    lowered(unsigned_part(t)) == word_nan()
}

/// A literal that reads as an infinity: `inf` / `infinity` (either sign),
/// or a number too large for binary32 (it rounds to infinity).
pub open spec fn float_literal_is_inf(t: Seq<u8>) -> bool {
    ||| lowered(unsigned_part(t)) == word_inf()
    ||| lowered(unsigned_part(t)) == word_infinity()
    ||| (number_literal(t) && literal_overflows(t))
}

/// A number literal that reads as a zero in binary32: all its digits are
/// `0`, or its magnitude rounds to zero.
pub open spec fn float_literal_is_zero(t: Seq<u8>) -> bool {
    number_literal(t) && literal_underflows(t)
}

/// A literal that parses to a negative value (sign bit set).
pub open spec fn float_literal_is_negative(t: Seq<u8>) -> bool {
    t.len() > 0 && t[0] == 0x2d
}

fn lower_byte(c: u8) -> (r: u8)
    ensures
        r == lower(c),
{
    if 0x41 <= c && c <= 0x5a {
        c + 32
    } else {
        c
    }
}

/// Whether `b[i..j]` (lowercased) equals `w`.
fn lowered_eq(b: &[u8], i: usize, j: usize, w: &[u8]) -> (r: bool)
    requires
        i <= j <= b@.len(),
    ensures
        r == (lowered(b@.subrange(i as int, j as int)) == w@),
{
    let ghost l = lowered(b@.subrange(i as int, j as int));
    if j - i != w.len() {
        assert(l.len() != w@.len());
        return false;
    }
    let mut k: usize = 0;
    while k < w.len()
        invariant
            i <= j <= b@.len(),
            j - i == w@.len(),
            l == lowered(b@.subrange(i as int, j as int)),
            k <= w@.len(),
            forall|m: int| 0 <= m < k ==> l[m] == w@[m],
        decreases w@.len() - k,
    {
        if lower_byte(b[i + k]) != w[k] {
            assert(l[k as int] != w@[k as int]);
            return false;
        }
        k += 1;
    }
    assert(l =~= w@);
    true
}

/// Whether every byte of `b[i..j]` is an ASCII digit.
fn digits_only(b: &[u8], i: usize, j: usize) -> (r: bool)
    requires
        i <= j <= b@.len(),
    ensures
        r == all_digits(b@.subrange(i as int, j as int)),
{
    let ghost s = b@.subrange(i as int, j as int);
    let mut k: usize = i;
    while k < j
        invariant
            i <= k <= j <= b@.len(),
            s == b@.subrange(i as int, j as int),
            forall|m: int| 0 <= m < k - i ==> is_digit_byte(#[trigger] s[m]),
        decreases j - k,
    {
        if !(0x30 <= b[k] && b[k] <= 0x39) {
            assert(!is_digit_byte(s[k - i]));
            return false;
        }
        k += 1;
    }
    true
}

/// Index of the first lowercased byte equal to `c` in `b[i..j]`, relative
/// to `i`, or `j - i`.
pub(crate) fn find_lowered(b: &[u8], i: usize, j: usize, c: u8) -> (r: usize)
    requires
        i <= j <= b@.len(),
    ensures
        r == find_byte(lowered(b@.subrange(i as int, j as int)), c, 0),
        r <= j - i,
{
    let ghost l = lowered(b@.subrange(i as int, j as int));
    let mut k: usize = 0;
    while k < j - i
        invariant
            i <= j <= b@.len(),
            l == lowered(b@.subrange(i as int, j as int)),
            k <= j - i,
            find_byte(l, c, 0) == find_byte(l, c, k as int),
        decreases j - i - k,
    {
        if lower_byte(b[i + k]) == c {
            return k;
        }
        k += 1;
    }
    k
}

pub proof fn lemma_find_byte(s: Seq<u8>, c: u8, i: int)
    requires
        0 <= i <= s.len(),
    ensures
        i <= find_byte(s, c, i) <= s.len(),
        find_byte(s, c, i) < s.len() ==> s[find_byte(s, c, i)] == c,
        forall|k: int| i <= k < find_byte(s, c, i) ==> s[k] != c,
    decreases s.len() - i,
{
    if i < s.len() && s[i] != c {
        lemma_find_byte(s, c, i + 1);
    }
}

pub proof fn lemma_digits_lowered(q: Seq<u8>)
    ensures
        all_digits(q) == all_digits(lowered(q)),
        lowered(q).len() == q.len(),
{
    if all_digits(q) {
        assert forall|k: int| 0 <= k < q.len() implies is_digit_byte(#[trigger] lowered(q)[k]) by {
            assert(is_digit_byte(q[k]));
        }
    }
    if all_digits(lowered(q)) {
        assert forall|k: int| 0 <= k < q.len() implies is_digit_byte(#[trigger] q[k]) by {
            assert(is_digit_byte(lowered(q)[k]));
        }
    }
}

pub proof fn lemma_lowered_subrange(t: Seq<u8>, i: int, j: int, a: int, c: int)
    requires
        0 <= i <= j <= t.len(),
        0 <= a <= c <= j - i,
    ensures
        lowered(t.subrange(i, j)).subrange(a, c) == lowered(t.subrange(i + a, i + c)),
{
    assert(lowered(t.subrange(i, j)).subrange(a, c) =~= lowered(t.subrange(i + a, i + c)));
}

/// Whether lowercased `t[i..j]` is a mantissa.
fn mantissa_check(t: &[u8], i: usize, j: usize) -> (r: bool)
    requires
        i <= j <= t@.len(),
    ensures
        r == mantissa_ok(lowered(t@.subrange(i as int, j as int))),
{
    let ghost m = lowered(t@.subrange(i as int, j as int));
    let p = find_lowered(t, i, j, 0x2e);
    proof {
        lemma_find_byte(m, 0x2e, 0);
        lemma_digits_lowered(t@.subrange(i as int, i + p));
        lemma_lowered_subrange(t@, i as int, j as int, 0, p as int);
        if p < j - i {
            lemma_digits_lowered(t@.subrange(i + p + 1, j as int));
            lemma_lowered_subrange(t@, i as int, j as int, p + 1, j - i);
        } else {
            assert(m.subrange(0, p as int) =~= m);
        }
    }
    if p == j - i {
        j > i && digits_only(t, i, j)
    } else {
        digits_only(t, i, i + p) && digits_only(t, i + p + 1, j) && j - i > 1
    }
}

/// Whether lowercased `t[i..j]` is an (optional) exponent.
fn exponent_check(t: &[u8], i: usize, j: usize) -> (r: bool)
    requires
        i <= j <= t@.len(),
    ensures
        r == exponent_ok(lowered(t@.subrange(i as int, j as int))),
{
    let ghost x = lowered(t@.subrange(i as int, j as int));
    if i == j {
        return true;
    }
    if lower_byte(t[i]) != 0x65 {
        return false;
    }
    let mut s = i + 1;
    proof {
        lemma_lowered_subrange(t@, i as int, j as int, 1, j - i);
        assert(x.drop_first() =~= x.subrange(1, x.len() as int));
    }
    if s < j && (t[s] == 0x2b || t[s] == 0x2d) {
        s = s + 1;
        proof {
            lemma_lowered_subrange(t@, i as int, j as int, 2, j - i);
            let r = x.drop_first();
            assert(r.drop_first() =~= x.subrange(2, x.len() as int));
        }
    }
    proof {
        lemma_digits_lowered(t@.subrange(s as int, j as int));
    }
    s < j && digits_only(t, s, j)
}

/// Classify a trimmed scale-line text: `Some(nan)` when it is a float
/// literal (`nan` telling whether it denotes NaN), `None` otherwise.
pub fn classify_float_literal(t: &[u8]) -> (r: Option<bool>)
    ensures
        r is Some <==> float_literal(t@),
        r matches Some(nan) ==> nan == float_literal_is_nan(t@),
{
    let mut i: usize = 0;
    if t.len() > 0 && (t[0] == 0x2b || t[0] == 0x2d) {
        i = 1;
    }
    let n = t.len();
    let ghost u = unsigned_part(t@);
    assert(u =~= t@.subrange(i as int, n as int));
    let ghost b = lowered(u);
    let w_inf: [u8; 3] = [0x69, 0x6e, 0x66];
    let w_infinity: [u8; 8] = [0x69, 0x6e, 0x66, 0x69, 0x6e, 0x69, 0x74, 0x79];
    let w_nan: [u8; 3] = [0x6e, 0x61, 0x6e];
    assert(w_inf@ =~= word_inf());
    assert(w_infinity@ =~= word_infinity());
    assert(w_nan@ =~= word_nan());
    if lowered_eq(t, i, n, w_nan.as_slice()) {
        return Some(true);
    }
    if lowered_eq(t, i, n, w_inf.as_slice()) || lowered_eq(t, i, n, w_infinity.as_slice()) {
        return Some(false);
    }
    let e = find_lowered(t, i, n, 0x65);
    proof {
        lemma_lowered_subrange(t@, i as int, n as int, 0, e as int);
        lemma_lowered_subrange(t@, i as int, n as int, e as int, n - i);
    }
    if mantissa_check(t, i, i + e) && exponent_check(t, i + e, n) {
        Some(false)
    } else {
        None
    }
}

/// Whether a float literal reads as an infinity or a zero in binary32: a
/// scale that gives no usable factor.
pub fn float_literal_is_degenerate(t: &[u8]) -> (r: bool)
    ensures
        r == (float_literal_is_inf(t@) || float_literal_is_zero(t@)),
{
    let mut i: usize = 0;
    if t.len() > 0 && (t[0] == 0x2b || t[0] == 0x2d) {
        i = 1;
    }
    let n = t.len();
    let ghost u = unsigned_part(t@);
    assert(u =~= t@.subrange(i as int, n as int));
    let w_inf: [u8; 3] = [0x69, 0x6e, 0x66];
    let w_infinity: [u8; 8] = [0x69, 0x6e, 0x66, 0x69, 0x6e, 0x69, 0x74, 0x79];
    assert(w_inf@ =~= word_inf());
    assert(w_infinity@ =~= word_infinity());
    if lowered_eq(t, i, n, w_inf.as_slice()) || lowered_eq(t, i, n, w_infinity.as_slice()) {
        return true;
    }
    let e = find_lowered(t, i, n, 0x65);
    proof {
        lemma_lowered_subrange(t@, i as int, n as int, 0, e as int);
        lemma_lowered_subrange(t@, i as int, n as int, e as int, n - i);
    }
    if !(mantissa_check(t, i, i + e) && exponent_check(t, i + e, n)) {
        assert(!number_literal(t@));
        return false;
    }
    let (over, under) = literal_rounding(t);
    over || under
}

/// Whether `bytes` is well-formed UTF-8, and its text when it is.
///
/// Trusted: calls `std::string::String::from_utf8`, which the standard
/// library documents as succeeding exactly on valid UTF-8 (here vstd's
/// `valid_utf8`) and then holding the decoded characters.
#[verifier::external_body]
pub(crate) fn utf8_string(bytes: &[u8]) -> (r: Option<String>)
    ensures
        r is Some <==> valid_utf8(bytes@),
        r matches Some(s) ==> s@ == decode_utf8(bytes@),
{
    String::from_utf8(bytes.to_vec()).ok()
}

} // verus!
