//! When a decimal number literal, read as an IEEE-754 binary32 value with
//! round-to-nearest-even (as `f32::from_str` reads it), becomes an
//! infinity or a zero. Stated over exact integer arithmetic on the
//! literal's digits; decided by comparing digit strings, with no
//! floating-point arithmetic.

use vstd::prelude::*;
use crate::lex::{all_digits, dec_value, is_digit_byte};
use crate::numtext::{
    exponent_ok, find_byte, find_lowered, lemma_find_byte, lemma_lowered_subrange, lower, lowered,
    mantissa_ok, unsigned_part,
};

verus! {

// ---------------------------------------------------------------------------
// Powers of ten and digit strings
// ---------------------------------------------------------------------------

pub open spec fn p10(n: nat) -> nat
    decreases n,
{
    if n == 0 {
        1
    } else {
        10 * p10((n - 1) as nat)
    }
}

pub proof fn lemma_p10_add(a: nat, b: nat)
    ensures
        p10(a + b) == p10(a) * p10(b),
        p10(a) >= 1,
    decreases b,
{
    if b == 0 {
        assert(a + b == a);
        assert(p10(0) == 1);
        lemma_p10_pos(a);
    } else {
        lemma_p10_add(a, (b - 1) as nat);
        assert(p10(a + b) == 10 * p10((a + b - 1) as nat));
        assert((a + b - 1) as nat == a + (b - 1) as nat);
        assert(p10(a) * (10 * p10((b - 1) as nat)) == 10 * (p10(a) * p10((b - 1) as nat)))
            by (nonlinear_arith);
    }
}

pub proof fn lemma_p10_pos(n: nat)
    ensures
        p10(n) >= 1,
    decreases n,
{
    if n > 0 {
        lemma_p10_pos((n - 1) as nat);
    }
}

/// Larger powers of ten are larger.
pub proof fn lemma_p10_mono(a: nat, b: nat)
    requires
        a <= b,
    ensures
        p10(a) <= p10(b),
        a < b ==> 10 * p10(a) <= p10(b),
    decreases b,
{
    if a < b {
        lemma_p10_mono(a, (b - 1) as nat);
        lemma_p10_pos((b - 1) as nat);
    }
}

/// The value of digits `a` followed by digits `b`.
pub proof fn lemma_dec_value_concat(a: Seq<u8>, b: Seq<u8>)
    ensures
        dec_value(a + b) == dec_value(a) * p10(b.len()) + dec_value(b),
    decreases b.len(),
{
    if b.len() == 0 {
        assert(a + b =~= a);
        assert(p10(0) == 1);
        assert(dec_value(b) == 0);
    } else {
        let b1 = b.drop_last();
        lemma_dec_value_concat(a, b1);
        assert((a + b).drop_last() =~= a + b1);
        assert((a + b).last() == b.last());
        let d = (b.last() - 0x30) as nat;
        assert(dec_value(a + b) == dec_value(a + b1) * 10 + d);
        assert(dec_value(b) == dec_value(b1) * 10 + d);
        assert(p10(b.len()) == 10 * p10(b1.len()));
        assert((dec_value(a) * p10(b1.len()) + dec_value(b1)) * 10 + d == dec_value(a) * (10
            * p10(b1.len())) + (dec_value(b1) * 10 + d)) by (nonlinear_arith);
    }
}

/// A run of `n` digits is below `10^n`, and at least `10^(n - 1)` when it
/// does not start with `0`.
pub proof fn lemma_dec_value_bounds(s: Seq<u8>)
    requires
        all_digits(s),
    ensures
        dec_value(s) < p10(s.len()),
        s.len() > 0 && s[0] != 0x30 ==> dec_value(s) >= p10((s.len() - 1) as nat),
    decreases s.len(),
{
    if s.len() > 0 {
        let s1 = s.drop_last();
        assert(all_digits(s1)) by {
            assert forall|k: int| 0 <= k < s1.len() implies is_digit_byte(#[trigger] s1[k]) by {
                assert(s1[k] == s[k]);
            }
        }
        lemma_dec_value_bounds(s1);
        assert(is_digit_byte(s[s.len() - 1]));
        let d = (s.last() - 0x30) as nat;
        assert(d <= 9);
        assert(dec_value(s) == dec_value(s1) * 10 + d);
        assert(p10(s.len()) == 10 * p10(s1.len()));
        assert(dec_value(s1) * 10 + d < 10 * p10(s1.len())) by (nonlinear_arith)
            requires
                dec_value(s1) < p10(s1.len()),
                d <= 9,
        ;
        if s[0] != 0x30 {
            if s.len() == 1 {
                assert(d == s[0] - 0x30);
                assert(d >= 1);
            } else {
                assert(s1[0] == s[0]);
                assert(p10((s.len() - 1) as nat) == 10 * p10((s1.len() - 1) as nat));
                assert(dec_value(s1) * 10 + d >= 10 * p10((s1.len() - 1) as nat))
                    by (nonlinear_arith)
                    requires
                        dec_value(s1) >= p10((s1.len() - 1) as nat),
                ;
            }
        }
    }
}

/// The value of a single digit.
pub proof fn lemma_dec_value_one(c: u8)
    requires
        is_digit_byte(c),
    ensures
        dec_value(seq![c]) == (c - 0x30) as nat,
{
    let s = seq![c];
    assert(s.drop_last() =~= Seq::<u8>::empty());
    assert(dec_value(Seq::<u8>::empty()) == 0);
    assert(s.last() == c);
}

/// Leading zeros do not change a digit run's value.
pub proof fn lemma_dec_value_leading_zeros(s: Seq<u8>, z: int)
    requires
        0 <= z <= s.len(),
        forall|k: int| 0 <= k < z ==> #[trigger] s[k] == 0x30,
    ensures
        dec_value(s) == dec_value(s.subrange(z, s.len() as int)),
    decreases z,
{
    if z == 0 {
        assert(s.subrange(0, s.len() as int) =~= s);
    } else {
        let t = s.subrange(1, s.len() as int);
        assert forall|k: int| 0 <= k < z - 1 implies #[trigger] t[k] == 0x30 by {
            assert(t[k] == s[k + 1]);
        }
        lemma_dec_value_leading_zeros(t, z - 1);
        assert(t.subrange(z - 1, t.len() as int) =~= s.subrange(z, s.len() as int));
        lemma_dec_value_concat(seq![0x30u8], t);
        assert(seq![0x30u8] + t =~= s);
        lemma_dec_value_one(0x30u8);
        assert(dec_value(seq![0x30u8] + t) == dec_value(seq![0x30u8]) * p10(t.len()) + dec_value(t));
        assert(dec_value(seq![0x30u8]) * p10(t.len()) == 0) by (nonlinear_arith)
            requires
                dec_value(seq![0x30u8]) == 0,
        ;
    }
}

/// Of two digit runs of one length, the one with the larger digit at the
/// first place they differ is the larger number.
pub proof fn lemma_dec_value_lex(a: Seq<u8>, b: Seq<u8>, i: int)
    requires
        a.len() == b.len(),
        all_digits(a),
        all_digits(b),
        0 <= i < a.len(),
        a.subrange(0, i) == b.subrange(0, i),
        a[i] < b[i],
    ensures
        dec_value(a) < dec_value(b),
{
    let n = a.len() as int;
    let p = a.subrange(0, i);
    let ra = a.subrange(i + 1, n);
    let rb = b.subrange(i + 1, n);
    assert(all_digits(ra)) by {
        assert forall|k: int| 0 <= k < ra.len() implies is_digit_byte(#[trigger] ra[k]) by {
            assert(ra[k] == a[i + 1 + k]);
        }
    }
    assert(all_digits(rb)) by {
        assert forall|k: int| 0 <= k < rb.len() implies is_digit_byte(#[trigger] rb[k]) by {
            assert(rb[k] == b[i + 1 + k]);
        }
    }
    assert(a =~= p + (seq![a[i]] + ra));
    assert(b =~= p + (seq![b[i]] + rb));
    lemma_dec_value_concat(p, seq![a[i]] + ra);
    lemma_dec_value_concat(p, seq![b[i]] + rb);
    lemma_dec_value_concat(seq![a[i]], ra);
    lemma_dec_value_concat(seq![b[i]], rb);
    assert(is_digit_byte(a[i]) && is_digit_byte(b[i]));
    lemma_dec_value_one(a[i]);
    lemma_dec_value_one(b[i]);
    let da = (a[i] - 0x30) as nat;
    let db = (b[i] - 0x30) as nat;
    assert(dec_value(seq![a[i]]) == da);
    assert(dec_value(seq![b[i]]) == db);
    lemma_dec_value_bounds(ra);
    let m = p10(ra.len());
    assert(ra.len() == rb.len());
    assert(da * m + dec_value(ra) < db * m + dec_value(rb)) by (nonlinear_arith)
        requires
            da < db,
            dec_value(ra) < m,
    ;
    let q = p10((seq![a[i]] + ra).len());
    assert((seq![a[i]] + ra).len() == (seq![b[i]] + rb).len());
    assert(dec_value(p) * q + (da * m + dec_value(ra)) < dec_value(p) * q + (db * m + dec_value(
        rb,
    )));
}

/// `s` followed by zeros up to `n` digits.
pub open spec fn pad_to(s: Seq<u8>, n: nat) -> Seq<u8> {
    Seq::new(
        n,
        |i: int|
            if i < s.len() {
                s[i]
            } else {
                0x30u8
            },
    )
}

/// Appending zeros multiplies by a power of ten.
pub proof fn lemma_pad_value(s: Seq<u8>, n: nat)
    requires
        all_digits(s),
        s.len() <= n,
    ensures
        all_digits(pad_to(s, n)),
        dec_value(pad_to(s, n)) == dec_value(s) * p10((n - s.len()) as nat),
{
    let z = Seq::new((n - s.len()) as nat, |i: int| 0x30u8);
    assert(pad_to(s, n) =~= s + z);
    lemma_dec_value_concat(s, z);
    assert forall|k: int| 0 <= k < z.len() implies #[trigger] z[k] == 0x30 by {}
    lemma_dec_value_leading_zeros(z, z.len() as int);
    assert(z.subrange(z.len() as int, z.len() as int) =~= Seq::<u8>::empty());
    assert(dec_value(Seq::<u8>::empty()) == 0);
    assert forall|k: int| 0 <= k < n implies is_digit_byte(#[trigger] pad_to(s, n)[k]) by {
        if k < s.len() {
            assert(is_digit_byte(s[k]));
        }
    }
}

/// Multiplying both sides by a positive number keeps an order.
pub proof fn lemma_scale_order(x: int, y: int, c: int)
    requires
        c >= 1,
    ensures
        (x < y) == (x * c < y * c),
        (x == y) == (x * c == y * c),
{
    assert((x < y) == (x * c < y * c) && (x == y) == (x * c == y * c)) by (nonlinear_arith)
        requires
            c >= 1,
    ;
}

/// The order of two digit runs read as decimal fractions `0.a` and `0.b`:
/// the order of `a * 10^|b|` and `b * 10^|a|`.
pub open spec fn fraction_order(a: Seq<u8>, b: Seq<u8>) -> int {
    let x = dec_value(a) * p10(b.len());
    let y = dec_value(b) * p10(a.len());
    if x < y {
        -1
    } else if x == y {
        0
    } else {
        1
    }
}

/// Comparing two digit runs padded to one length is comparing them as
/// decimal fractions.
proof fn lemma_padded_order(a: Seq<u8>, b: Seq<u8>, n: nat)
    requires
        all_digits(a),
        all_digits(b),
        n == if a.len() >= b.len() {
            a.len()
        } else {
            b.len()
        },
    ensures
        fraction_order(a, b) == if dec_value(pad_to(a, n)) < dec_value(pad_to(b, n)) {
            -1int
        } else if dec_value(pad_to(a, n)) == dec_value(pad_to(b, n)) {
            0int
        } else {
            1int
        },
{
    lemma_pad_value(a, n);
    lemma_pad_value(b, n);
    let ka = a.len();
    let kb = b.len();
    let va = dec_value(a);
    let vb = dec_value(b);
    if n == ka {
        // pad(a) = a, pad(b) = b * 10^(ka - kb); scale both by 10^kb.
        assert(p10(0) == 1);
        lemma_p10_add((ka - kb) as nat, kb);
        assert((ka - kb) as nat + kb == ka);
        lemma_p10_pos(kb);
        lemma_scale_order((va * p10(0)) as int, (vb * p10((ka - kb) as nat)) as int, p10(kb) as int);
        assert(vb * p10((ka - kb) as nat) * p10(kb) == vb * p10(ka)) by (nonlinear_arith)
            requires
                p10(ka) == p10((ka - kb) as nat) * p10(kb),
        ;
        assert(va * p10(0) * p10(kb) == va * p10(kb)) by (nonlinear_arith)
            requires
                p10(0) == 1,
        ;
    } else {
        assert(p10(0) == 1);
        lemma_p10_add((kb - ka) as nat, ka);
        assert((kb - ka) as nat + ka == kb);
        lemma_p10_pos(ka);
        lemma_scale_order((va * p10((kb - ka) as nat)) as int, (vb * p10(0)) as int, p10(ka) as int);
        assert(va * p10((kb - ka) as nat) * p10(ka) == va * p10(kb)) by (nonlinear_arith)
            requires
                p10(kb) == p10((kb - ka) as nat) * p10(ka),
        ;
        assert(vb * p10(0) * p10(ka) == vb * p10(ka)) by (nonlinear_arith)
            requires
                p10(0) == 1,
        ;
    }
}

/// Compare `a[ai..aj]` and `b` as decimal fractions (see
/// [`fraction_order`]).
pub fn compare_fraction_digits(a: &[u8], ai: usize, aj: usize, b: &[u8]) -> (r: i8)
    requires
        ai <= aj <= a@.len(),
        all_digits(a@.subrange(ai as int, aj as int)),
        all_digits(b@),
    ensures
        r as int == fraction_order(a@.subrange(ai as int, aj as int), b@),
{
    let ghost sa = a@.subrange(ai as int, aj as int);
    let ka = aj - ai;
    let kb = b.len();
    let n = if ka >= kb {
        ka
    } else {
        kb
    };
    let ghost pa = pad_to(sa, n as nat);
    let ghost pb = pad_to(b@, n as nat);
    proof {
        lemma_padded_order(sa, b@, n as nat);
        lemma_pad_value(sa, n as nat);
        lemma_pad_value(b@, n as nat);
    }
    let mut i: usize = 0;
    while i < n
        invariant
            i <= n,
            ka == sa.len(),
            kb == b@.len(),
            sa == a@.subrange(ai as int, aj as int),
            ai <= aj <= a@.len(),
            ka == aj - ai,
            pa == pad_to(sa, n as nat),
            pb == pad_to(b@, n as nat),
            all_digits(pa),
            all_digits(pb),
            pa.subrange(0, i as int) == pb.subrange(0, i as int),
            fraction_order(sa, b@) == if dec_value(pa) < dec_value(pb) {
                -1int
            } else if dec_value(pa) == dec_value(pb) {
                0int
            } else {
                1int
            },
        decreases n - i,
    {
        let x: u8 = if i < ka {
            a[ai + i]
        } else {
            0x30
        };
        let y: u8 = if i < kb {
            b[i]
        } else {
            0x30
        };
        assert(x == pa[i as int]);
        assert(y == pb[i as int]);
        if x < y {
            proof {
                lemma_dec_value_lex(pa, pb, i as int);
            }
            return -1;
        }
        if x > y {
            proof {
                lemma_dec_value_lex(pb, pa, i as int);
            }
            return 1;
        }
        proof {
            assert(pa.subrange(0, i + 1) =~= pa.subrange(0, i as int).push(x));
            assert(pb.subrange(0, i + 1) =~= pb.subrange(0, i as int).push(y));
        }
        i += 1;
    }
    proof {
        assert(pa =~= pa.subrange(0, n as int));
        assert(pb =~= pb.subrange(0, n as int));
    }
    0
}

// ---------------------------------------------------------------------------
// The binary32 thresholds
// ---------------------------------------------------------------------------

/// `(2^25 - 1) * 2^103`: the least magnitude that rounds to infinity in
/// binary32 (halfway between the largest finite value and `2^128`, where
/// ties go to the even neighbour, infinity).
pub open spec fn binary32_overflow_bound() -> nat {
    340282356779733661637539395458142568448nat
}

/// `2^150`: a magnitude of at most `2^-150` (half the least subnormal,
/// where ties go to the even neighbour, zero) rounds to zero.
pub open spec fn two_pow_150() -> nat {
    1427247692705959881058285969449495136382746624nat
}

/// `5^150`, so that `2^-150 = 5^150 / 10^150`.
pub open spec fn five_pow_150() -> nat {
    700649232162408535461864791644958065640130970938257885878534141944895541342930300743319094181060791015625nat
}

/// A magnitude `d * 10^e` rounds to infinity in binary32.
pub open spec fn magnitude_overflows(d: nat, e: int) -> bool {
    if e >= 0 {
        d * p10(e as nat) >= binary32_overflow_bound()
    } else {
        d >= binary32_overflow_bound() * p10((-e) as nat)
    }
}

/// A magnitude `d * 10^e` rounds to zero in binary32.
pub open spec fn magnitude_underflows(d: nat, e: int) -> bool {
    if e >= 0 {
        d == 0
    } else {
        d * two_pow_150() <= p10((-e) as nat)
    }
}

proof fn lemma_threshold_facts()
    ensures
        p10(38) <= binary32_overflow_bound() < p10(39),
        p10(45) < two_pow_150() < p10(46),
        two_pow_150() * five_pow_150() == p10(150),
        p10(104) <= five_pow_150() < p10(105),
{
    reveal_with_fuel(p10, 11);
    assert(p10(10) == 10000000000nat);
    assert(p10(8) == 100000000nat);
    assert(p10(1) == 10);
    assert(p10(4) == 10000nat);
    assert(p10(5) == 100000nat);
    assert(p10(6) == 1000000nat);
    lemma_p10_add(10, 10);
    assert(p10(20) == 100000000000000000000nat);
    lemma_p10_add(20, 10);
    assert(p10(30) == 1000000000000000000000000000000nat);
    lemma_p10_add(30, 8);
    lemma_p10_add(38, 1);
    lemma_p10_add(30, 10);
    assert(p10(40) == 10000000000000000000000000000000000000000nat);
    lemma_p10_add(40, 5);
    lemma_p10_add(40, 6);
    lemma_p10_add(40, 40);
    assert(p10(80) == 100000000000000000000000000000000000000000000000000000000000000000000000000000000nat);
    lemma_p10_add(80, 20);
    assert(p10(100) == 10000000000000000000000000000000000000000000000000000000000000000000000000000000000000000000000000000nat);
    lemma_p10_add(100, 4);
    lemma_p10_add(100, 5);
    lemma_p10_add(100, 40);
    assert(p10(140) == 100000000000000000000000000000000000000000000000000000000000000000000000000000000000000000000000000000000000000000000000000000000000000000000nat);
    lemma_p10_add(140, 10);
    assert(p10(38) == 100000000000000000000000000000000000000nat);
    assert(p10(39) == 1000000000000000000000000000000000000000nat);
    assert(p10(45) == 1000000000000000000000000000000000000000000000nat);
    assert(p10(46) == 10000000000000000000000000000000000000000000000nat);
    assert(p10(104) == 100000000000000000000000000000000000000000000000000000000000000000000000000000000000000000000000000000000nat);
    assert(p10(105) == 1000000000000000000000000000000000000000000000000000000000000000000000000000000000000000000000000000000000nat);
    assert(p10(150) == 1000000000000000000000000000000000000000000000000000000000000000000000000000000000000000000000000000000000000000000000000000000000000000000000000000000nat);
}

/// Monotonicity of products of naturals.
proof fn lemma_mul_le(a: nat, b: nat, c: nat, d: nat)
    requires
        a <= b,
        c <= d,
    ensures
        a * c <= b * d,
{
    assert(a * c <= b * d) by (nonlinear_arith)
        requires
            a <= b,
            c <= d,
    ;
}

proof fn lemma_mul_lt(a: nat, b: nat, c: nat, d: nat)
    requires
        a < b,
        1 <= c <= d,
    ensures
        a * c < b * d,
{
    assert(a * c < b * d) by (nonlinear_arith)
        requires
            a < b,
            1 <= c <= d,
    ;
}

/// Whether a `k`-digit magnitude `d * 10^e` (`d` without leading zeros)
/// overflows binary32 is settled by its decimal order `k + e` but for
/// order 39, where it is a comparison of `d` with the bound's digits.
pub proof fn lemma_overflow_by_order(d: nat, k: nat, e: int)
    requires
        k >= 1,
        p10((k - 1) as nat) <= d < p10(k),
    ensures
        k + e >= 40 ==> magnitude_overflows(d, e),
        k + e <= 38 ==> !magnitude_overflows(d, e),
        k + e == 39 ==> (magnitude_overflows(d, e) == (d * p10(39) >= binary32_overflow_bound()
            * p10(k))),
{
    lemma_threshold_facts();
    let t = binary32_overflow_bound();
    let x = k + e;
    if e >= 0 {
        let en = e as nat;
        lemma_p10_pos(en);
        if x >= 40 {
            lemma_p10_add((k - 1) as nat, en);
            lemma_p10_mono(39, (x - 1) as nat);
            assert(((k - 1) as nat + en) as nat == (x - 1) as nat);
            lemma_mul_le(p10((k - 1) as nat), d, p10(en), p10(en));
        } else if x <= 38 {
            lemma_p10_add(k, en);
            lemma_p10_mono(x as nat, 38);
            assert((k + en) as nat == x as nat);
            lemma_mul_lt(d, p10(k), p10(en), p10(en));
        } else {
            lemma_p10_add(en, k);
            assert((en + k) as nat == 39);
            lemma_p10_pos(k);
            lemma_scale_order((d * p10(en)) as int, t as int, p10(k) as int);
            assert(d * p10(en) * p10(k) == d * p10(39)) by (nonlinear_arith)
                requires
                    p10(39) == p10(en) * p10(k),
            ;
        }
    } else {
        let f = (-e) as nat;
        lemma_p10_pos(f);
        if x >= 40 {
            lemma_p10_add(39, f);
            lemma_p10_mono((39 + f) as nat, (k - 1) as nat);
            lemma_mul_lt(t, p10(39), p10(f), p10(f));
        } else if x <= 38 {
            lemma_p10_add(38, f);
            lemma_p10_mono(k, (38 + f) as nat);
            lemma_mul_le(p10(38), t, p10(f), p10(f));
        } else {
            lemma_p10_add(39, f);
            assert((39 + f) as nat == k);
            lemma_p10_pos(39);
            lemma_scale_order(d as int, (t * p10(f)) as int, p10(39) as int);
            assert(t * p10(f) * p10(39) == t * p10(k)) by (nonlinear_arith)
                requires
                    p10(k) == p10(39) * p10(f),
            ;
        }
    }
}

/// Whether a `k`-digit magnitude `d * 10^e` rounds to zero in binary32 is
/// settled by its decimal order `k + e` but for order -45, where it is a
/// comparison of `d` with the digits of `5^150`.
pub proof fn lemma_underflow_by_order(d: nat, k: nat, e: int)
    requires
        k >= 1,
        p10((k - 1) as nat) <= d < p10(k),
    ensures
        k + e <= -46 ==> magnitude_underflows(d, e),
        k + e >= -44 ==> !magnitude_underflows(d, e),
        k + e == -45 ==> (magnitude_underflows(d, e) == (d * p10(105) <= five_pow_150() * p10(
            k,
        ))),
{
    lemma_threshold_facts();
    let tw = two_pow_150();
    let fv = five_pow_150();
    let x = k + e;
    lemma_p10_pos((k - 1) as nat);
    if e < 0 {
        let f = (-e) as nat;
        if x <= -46 {
            lemma_p10_add(k, 46);
            lemma_p10_mono((k + 46) as nat, f);
            lemma_p10_pos(46);
            lemma_mul_lt(d, p10(k), tw, p10(46));
            assert(tw >= 1);
        } else if x >= -44 {
            lemma_p10_add((k - 1) as nat, 45);
            assert(((k - 1) as nat + 45) as nat == (k + 44) as nat);
            lemma_p10_mono(f, (k + 44) as nat);
            lemma_mul_lt(p10(45), tw, p10((k - 1) as nat), p10((k - 1) as nat));
            lemma_mul_le(p10((k - 1) as nat), d, tw, tw);
            assert(p10(45) * p10((k - 1) as nat) == p10((k - 1) as nat) * p10(45))
                by (nonlinear_arith);
        } else {
            assert(f == k + 45);
            lemma_p10_add(k, 45);
            lemma_p10_add(45, 105);
            lemma_p10_pos(45);
            assert(fv >= 1);
            // d * 2^150 <= 10^(k + 45)  <=>  d * 10^150 <= 10^(k + 45) * 5^150.
            assert(d * tw * fv == d * p10(150)) by (nonlinear_arith)
                requires
                    tw * fv == p10(150),
            ;
            // ... <=>  d * 10^105 <= 5^150 * 10^k.
            assert(d * p10(150) == d * p10(105) * p10(45)) by (nonlinear_arith)
                requires
                    p10(150) == p10(45) * p10(105),
            ;
            assert(p10(f) * fv == fv * p10(k) * p10(45)) by (nonlinear_arith)
                requires
                    p10(f) == p10(k) * p10(45),
            ;
            assert((d * tw <= p10(f)) == (d * tw * fv <= p10(f) * fv)) by (nonlinear_arith)
                requires
                    fv >= 1,
            ;
            assert((d * p10(150) <= p10(f) * fv) == (d * p10(105) <= fv * p10(k)))
                by (nonlinear_arith)
                requires
                    d * p10(150) == d * p10(105) * p10(45),
                    p10(f) * fv == fv * p10(k) * p10(45),
                    p10(45) >= 1,
            ;
        }
    }
}

// ---------------------------------------------------------------------------
// The thresholds' digits
// ---------------------------------------------------------------------------

/// The decimal digits of [`binary32_overflow_bound`].
pub open spec fn overflow_bound_digits() -> Seq<u8> {
    seq![0x33u8, 0x34, 0x30, 0x32, 0x38, 0x32, 0x33, 0x35, 0x36, 0x37, 0x37, 0x39, 0x37] + seq![0x33u8, 0x33, 0x36, 0x36, 0x31, 0x36, 0x33, 0x37, 0x35, 0x33, 0x39, 0x33, 0x39] + seq![0x35u8, 0x34, 0x35, 0x38, 0x31, 0x34, 0x32, 0x35, 0x36, 0x38, 0x34, 0x34, 0x38]
}

/// The decimal digits of [`five_pow_150`].
pub open spec fn five_pow_150_digits() -> Seq<u8> {
    seq![0x37u8, 0x30, 0x30, 0x36, 0x34, 0x39, 0x32, 0x33, 0x32, 0x31, 0x36, 0x32, 0x34, 0x30, 0x38] + seq![0x35u8, 0x33, 0x35, 0x34, 0x36, 0x31, 0x38, 0x36, 0x34, 0x37, 0x39, 0x31, 0x36, 0x34, 0x34] + seq![0x39u8, 0x35, 0x38, 0x30, 0x36, 0x35, 0x36, 0x34, 0x30, 0x31, 0x33, 0x30, 0x39, 0x37, 0x30] + seq![0x39u8, 0x33, 0x38, 0x32, 0x35, 0x37, 0x38, 0x38, 0x35, 0x38, 0x37, 0x38, 0x35, 0x33, 0x34] + seq![0x31u8, 0x34, 0x31, 0x39, 0x34, 0x34, 0x38, 0x39, 0x35, 0x35, 0x34, 0x31, 0x33, 0x34, 0x32] + seq![0x39u8, 0x33, 0x30, 0x33, 0x30, 0x30, 0x37, 0x34, 0x33, 0x33, 0x31, 0x39, 0x30, 0x39, 0x34] + seq![0x31u8, 0x38, 0x31, 0x30, 0x36, 0x30, 0x37, 0x39, 0x31, 0x30, 0x31, 0x35, 0x36, 0x32, 0x35]
}

/// Digit runs joined are digit runs.
proof fn lemma_all_digits_concat(a: Seq<u8>, b: Seq<u8>)
    requires
        all_digits(a),
        all_digits(b),
    ensures
        all_digits(a + b),
{
    assert forall|k: int| 0 <= k < (a + b).len() implies is_digit_byte(#[trigger] (a + b)[k]) by {
        if k < a.len() {
            assert(is_digit_byte(a[k]));
        } else {
            assert(is_digit_byte(b[k - a.len()]));
        }
    }
}

proof fn lemma_chunk_0()
    ensures
        all_digits(seq![0x33u8, 0x34, 0x30, 0x32, 0x38, 0x32, 0x33, 0x35, 0x36, 0x37, 0x37, 0x39, 0x37]),
        dec_value(seq![0x33u8, 0x34, 0x30, 0x32, 0x38, 0x32, 0x33, 0x35, 0x36, 0x37, 0x37, 0x39, 0x37]) == 3402823567797nat,
{
    reveal_with_fuel(dec_value, 14);
    let c = seq![0x33u8, 0x34, 0x30, 0x32, 0x38, 0x32, 0x33, 0x35, 0x36, 0x37, 0x37, 0x39, 0x37];
    assert(all_digits(c));
}

proof fn lemma_chunk_1()
    ensures
        all_digits(seq![0x33u8, 0x33, 0x36, 0x36, 0x31, 0x36, 0x33, 0x37, 0x35, 0x33, 0x39, 0x33, 0x39]),
        dec_value(seq![0x33u8, 0x33, 0x36, 0x36, 0x31, 0x36, 0x33, 0x37, 0x35, 0x33, 0x39, 0x33, 0x39]) == 3366163753939nat,
{
    reveal_with_fuel(dec_value, 14);
    let c = seq![0x33u8, 0x33, 0x36, 0x36, 0x31, 0x36, 0x33, 0x37, 0x35, 0x33, 0x39, 0x33, 0x39];
    assert(all_digits(c));
}

proof fn lemma_chunk_2()
    ensures
        all_digits(seq![0x35u8, 0x34, 0x35, 0x38, 0x31, 0x34, 0x32, 0x35, 0x36, 0x38, 0x34, 0x34, 0x38]),
        dec_value(seq![0x35u8, 0x34, 0x35, 0x38, 0x31, 0x34, 0x32, 0x35, 0x36, 0x38, 0x34, 0x34, 0x38]) == 5458142568448nat,
{
    reveal_with_fuel(dec_value, 14);
    let c = seq![0x35u8, 0x34, 0x35, 0x38, 0x31, 0x34, 0x32, 0x35, 0x36, 0x38, 0x34, 0x34, 0x38];
    assert(all_digits(c));
}

proof fn lemma_chunk_3()
    ensures
        all_digits(seq![0x37u8, 0x30, 0x30, 0x36, 0x34, 0x39, 0x32, 0x33, 0x32, 0x31, 0x36, 0x32, 0x34, 0x30, 0x38]),
        dec_value(seq![0x37u8, 0x30, 0x30, 0x36, 0x34, 0x39, 0x32, 0x33, 0x32, 0x31, 0x36, 0x32, 0x34, 0x30, 0x38]) == 700649232162408nat,
{
    reveal_with_fuel(dec_value, 16);
    let c = seq![0x37u8, 0x30, 0x30, 0x36, 0x34, 0x39, 0x32, 0x33, 0x32, 0x31, 0x36, 0x32, 0x34, 0x30, 0x38];
    assert(all_digits(c));
}

proof fn lemma_chunk_4()
    ensures
        all_digits(seq![0x35u8, 0x33, 0x35, 0x34, 0x36, 0x31, 0x38, 0x36, 0x34, 0x37, 0x39, 0x31, 0x36, 0x34, 0x34]),
        dec_value(seq![0x35u8, 0x33, 0x35, 0x34, 0x36, 0x31, 0x38, 0x36, 0x34, 0x37, 0x39, 0x31, 0x36, 0x34, 0x34]) == 535461864791644nat,
{
    reveal_with_fuel(dec_value, 16);
    let c = seq![0x35u8, 0x33, 0x35, 0x34, 0x36, 0x31, 0x38, 0x36, 0x34, 0x37, 0x39, 0x31, 0x36, 0x34, 0x34];
    assert(all_digits(c));
}

proof fn lemma_chunk_5()
    ensures
        all_digits(seq![0x39u8, 0x35, 0x38, 0x30, 0x36, 0x35, 0x36, 0x34, 0x30, 0x31, 0x33, 0x30, 0x39, 0x37, 0x30]),
        dec_value(seq![0x39u8, 0x35, 0x38, 0x30, 0x36, 0x35, 0x36, 0x34, 0x30, 0x31, 0x33, 0x30, 0x39, 0x37, 0x30]) == 958065640130970nat,
{
    reveal_with_fuel(dec_value, 16);
    let c = seq![0x39u8, 0x35, 0x38, 0x30, 0x36, 0x35, 0x36, 0x34, 0x30, 0x31, 0x33, 0x30, 0x39, 0x37, 0x30];
    assert(all_digits(c));
}

proof fn lemma_chunk_6()
    ensures
        all_digits(seq![0x39u8, 0x33, 0x38, 0x32, 0x35, 0x37, 0x38, 0x38, 0x35, 0x38, 0x37, 0x38, 0x35, 0x33, 0x34]),
        dec_value(seq![0x39u8, 0x33, 0x38, 0x32, 0x35, 0x37, 0x38, 0x38, 0x35, 0x38, 0x37, 0x38, 0x35, 0x33, 0x34]) == 938257885878534nat,
{
    reveal_with_fuel(dec_value, 16);
    let c = seq![0x39u8, 0x33, 0x38, 0x32, 0x35, 0x37, 0x38, 0x38, 0x35, 0x38, 0x37, 0x38, 0x35, 0x33, 0x34];
    assert(all_digits(c));
}

proof fn lemma_chunk_7()
    ensures
        all_digits(seq![0x31u8, 0x34, 0x31, 0x39, 0x34, 0x34, 0x38, 0x39, 0x35, 0x35, 0x34, 0x31, 0x33, 0x34, 0x32]),
        dec_value(seq![0x31u8, 0x34, 0x31, 0x39, 0x34, 0x34, 0x38, 0x39, 0x35, 0x35, 0x34, 0x31, 0x33, 0x34, 0x32]) == 141944895541342nat,
{
    reveal_with_fuel(dec_value, 16);
    let c = seq![0x31u8, 0x34, 0x31, 0x39, 0x34, 0x34, 0x38, 0x39, 0x35, 0x35, 0x34, 0x31, 0x33, 0x34, 0x32];
    assert(all_digits(c));
}

proof fn lemma_chunk_8()
    ensures
        all_digits(seq![0x39u8, 0x33, 0x30, 0x33, 0x30, 0x30, 0x37, 0x34, 0x33, 0x33, 0x31, 0x39, 0x30, 0x39, 0x34]),
        dec_value(seq![0x39u8, 0x33, 0x30, 0x33, 0x30, 0x30, 0x37, 0x34, 0x33, 0x33, 0x31, 0x39, 0x30, 0x39, 0x34]) == 930300743319094nat,
{
    reveal_with_fuel(dec_value, 16);
    let c = seq![0x39u8, 0x33, 0x30, 0x33, 0x30, 0x30, 0x37, 0x34, 0x33, 0x33, 0x31, 0x39, 0x30, 0x39, 0x34];
    assert(all_digits(c));
}

proof fn lemma_chunk_9()
    ensures
        all_digits(seq![0x31u8, 0x38, 0x31, 0x30, 0x36, 0x30, 0x37, 0x39, 0x31, 0x30, 0x31, 0x35, 0x36, 0x32, 0x35]),
        dec_value(seq![0x31u8, 0x38, 0x31, 0x30, 0x36, 0x30, 0x37, 0x39, 0x31, 0x30, 0x31, 0x35, 0x36, 0x32, 0x35]) == 181060791015625nat,
{
    reveal_with_fuel(dec_value, 16);
    let c = seq![0x31u8, 0x38, 0x31, 0x30, 0x36, 0x30, 0x37, 0x39, 0x31, 0x30, 0x31, 0x35, 0x36, 0x32, 0x35];
    assert(all_digits(c));
}

pub proof fn lemma_threshold_digits()
    ensures
        all_digits(overflow_bound_digits()),
        overflow_bound_digits().len() == 39,
        dec_value(overflow_bound_digits()) == binary32_overflow_bound(),
        all_digits(five_pow_150_digits()),
        five_pow_150_digits().len() == 105,
        dec_value(five_pow_150_digits()) == five_pow_150(),
{
    reveal_with_fuel(p10, 16);
    assert(p10(13) == 10000000000000nat);
    assert(p10(15) == 1000000000000000nat);
    lemma_chunk_0();
    lemma_chunk_1();
    lemma_chunk_2();
    lemma_chunk_3();
    lemma_chunk_4();
    lemma_chunk_5();
    lemma_chunk_6();
    lemma_chunk_7();
    lemma_chunk_8();
    lemma_chunk_9();
    assert(seq![0x33u8, 0x33, 0x36, 0x36, 0x31, 0x36, 0x33, 0x37, 0x35, 0x33, 0x39, 0x33, 0x39].len() == 13);
    lemma_dec_value_concat(seq![0x33u8, 0x34, 0x30, 0x32, 0x38, 0x32, 0x33, 0x35, 0x36, 0x37, 0x37, 0x39, 0x37], seq![0x33u8, 0x33, 0x36, 0x36, 0x31, 0x36, 0x33, 0x37, 0x35, 0x33, 0x39, 0x33, 0x39]);
    lemma_all_digits_concat(seq![0x33u8, 0x34, 0x30, 0x32, 0x38, 0x32, 0x33, 0x35, 0x36, 0x37, 0x37, 0x39, 0x37], seq![0x33u8, 0x33, 0x36, 0x36, 0x31, 0x36, 0x33, 0x37, 0x35, 0x33, 0x39, 0x33, 0x39]);
    assert(dec_value(seq![0x33u8, 0x34, 0x30, 0x32, 0x38, 0x32, 0x33, 0x35, 0x36, 0x37, 0x37, 0x39, 0x37] + seq![0x33u8, 0x33, 0x36, 0x36, 0x31, 0x36, 0x33, 0x37, 0x35, 0x33, 0x39, 0x33, 0x39]) == 34028235677973366163753939nat);
    assert(seq![0x35u8, 0x34, 0x35, 0x38, 0x31, 0x34, 0x32, 0x35, 0x36, 0x38, 0x34, 0x34, 0x38].len() == 13);
    lemma_dec_value_concat(seq![0x33u8, 0x34, 0x30, 0x32, 0x38, 0x32, 0x33, 0x35, 0x36, 0x37, 0x37, 0x39, 0x37] + seq![0x33u8, 0x33, 0x36, 0x36, 0x31, 0x36, 0x33, 0x37, 0x35, 0x33, 0x39, 0x33, 0x39], seq![0x35u8, 0x34, 0x35, 0x38, 0x31, 0x34, 0x32, 0x35, 0x36, 0x38, 0x34, 0x34, 0x38]);
    lemma_all_digits_concat(seq![0x33u8, 0x34, 0x30, 0x32, 0x38, 0x32, 0x33, 0x35, 0x36, 0x37, 0x37, 0x39, 0x37] + seq![0x33u8, 0x33, 0x36, 0x36, 0x31, 0x36, 0x33, 0x37, 0x35, 0x33, 0x39, 0x33, 0x39], seq![0x35u8, 0x34, 0x35, 0x38, 0x31, 0x34, 0x32, 0x35, 0x36, 0x38, 0x34, 0x34, 0x38]);
    assert(dec_value(seq![0x33u8, 0x34, 0x30, 0x32, 0x38, 0x32, 0x33, 0x35, 0x36, 0x37, 0x37, 0x39, 0x37] + seq![0x33u8, 0x33, 0x36, 0x36, 0x31, 0x36, 0x33, 0x37, 0x35, 0x33, 0x39, 0x33, 0x39] + seq![0x35u8, 0x34, 0x35, 0x38, 0x31, 0x34, 0x32, 0x35, 0x36, 0x38, 0x34, 0x34, 0x38]) == 340282356779733661637539395458142568448nat);
    assert(seq![0x35u8, 0x33, 0x35, 0x34, 0x36, 0x31, 0x38, 0x36, 0x34, 0x37, 0x39, 0x31, 0x36, 0x34, 0x34].len() == 15);
    lemma_dec_value_concat(seq![0x37u8, 0x30, 0x30, 0x36, 0x34, 0x39, 0x32, 0x33, 0x32, 0x31, 0x36, 0x32, 0x34, 0x30, 0x38], seq![0x35u8, 0x33, 0x35, 0x34, 0x36, 0x31, 0x38, 0x36, 0x34, 0x37, 0x39, 0x31, 0x36, 0x34, 0x34]);
    lemma_all_digits_concat(seq![0x37u8, 0x30, 0x30, 0x36, 0x34, 0x39, 0x32, 0x33, 0x32, 0x31, 0x36, 0x32, 0x34, 0x30, 0x38], seq![0x35u8, 0x33, 0x35, 0x34, 0x36, 0x31, 0x38, 0x36, 0x34, 0x37, 0x39, 0x31, 0x36, 0x34, 0x34]);
    assert(dec_value(seq![0x37u8, 0x30, 0x30, 0x36, 0x34, 0x39, 0x32, 0x33, 0x32, 0x31, 0x36, 0x32, 0x34, 0x30, 0x38] + seq![0x35u8, 0x33, 0x35, 0x34, 0x36, 0x31, 0x38, 0x36, 0x34, 0x37, 0x39, 0x31, 0x36, 0x34, 0x34]) == 700649232162408535461864791644nat);
    assert(seq![0x39u8, 0x35, 0x38, 0x30, 0x36, 0x35, 0x36, 0x34, 0x30, 0x31, 0x33, 0x30, 0x39, 0x37, 0x30].len() == 15);
    lemma_dec_value_concat(seq![0x37u8, 0x30, 0x30, 0x36, 0x34, 0x39, 0x32, 0x33, 0x32, 0x31, 0x36, 0x32, 0x34, 0x30, 0x38] + seq![0x35u8, 0x33, 0x35, 0x34, 0x36, 0x31, 0x38, 0x36, 0x34, 0x37, 0x39, 0x31, 0x36, 0x34, 0x34], seq![0x39u8, 0x35, 0x38, 0x30, 0x36, 0x35, 0x36, 0x34, 0x30, 0x31, 0x33, 0x30, 0x39, 0x37, 0x30]);
    lemma_all_digits_concat(seq![0x37u8, 0x30, 0x30, 0x36, 0x34, 0x39, 0x32, 0x33, 0x32, 0x31, 0x36, 0x32, 0x34, 0x30, 0x38] + seq![0x35u8, 0x33, 0x35, 0x34, 0x36, 0x31, 0x38, 0x36, 0x34, 0x37, 0x39, 0x31, 0x36, 0x34, 0x34], seq![0x39u8, 0x35, 0x38, 0x30, 0x36, 0x35, 0x36, 0x34, 0x30, 0x31, 0x33, 0x30, 0x39, 0x37, 0x30]);
    assert(dec_value(seq![0x37u8, 0x30, 0x30, 0x36, 0x34, 0x39, 0x32, 0x33, 0x32, 0x31, 0x36, 0x32, 0x34, 0x30, 0x38] + seq![0x35u8, 0x33, 0x35, 0x34, 0x36, 0x31, 0x38, 0x36, 0x34, 0x37, 0x39, 0x31, 0x36, 0x34, 0x34] + seq![0x39u8, 0x35, 0x38, 0x30, 0x36, 0x35, 0x36, 0x34, 0x30, 0x31, 0x33, 0x30, 0x39, 0x37, 0x30]) == 700649232162408535461864791644958065640130970nat);
    assert(seq![0x39u8, 0x33, 0x38, 0x32, 0x35, 0x37, 0x38, 0x38, 0x35, 0x38, 0x37, 0x38, 0x35, 0x33, 0x34].len() == 15);
    lemma_dec_value_concat(seq![0x37u8, 0x30, 0x30, 0x36, 0x34, 0x39, 0x32, 0x33, 0x32, 0x31, 0x36, 0x32, 0x34, 0x30, 0x38] + seq![0x35u8, 0x33, 0x35, 0x34, 0x36, 0x31, 0x38, 0x36, 0x34, 0x37, 0x39, 0x31, 0x36, 0x34, 0x34] + seq![0x39u8, 0x35, 0x38, 0x30, 0x36, 0x35, 0x36, 0x34, 0x30, 0x31, 0x33, 0x30, 0x39, 0x37, 0x30], seq![0x39u8, 0x33, 0x38, 0x32, 0x35, 0x37, 0x38, 0x38, 0x35, 0x38, 0x37, 0x38, 0x35, 0x33, 0x34]);
    lemma_all_digits_concat(seq![0x37u8, 0x30, 0x30, 0x36, 0x34, 0x39, 0x32, 0x33, 0x32, 0x31, 0x36, 0x32, 0x34, 0x30, 0x38] + seq![0x35u8, 0x33, 0x35, 0x34, 0x36, 0x31, 0x38, 0x36, 0x34, 0x37, 0x39, 0x31, 0x36, 0x34, 0x34] + seq![0x39u8, 0x35, 0x38, 0x30, 0x36, 0x35, 0x36, 0x34, 0x30, 0x31, 0x33, 0x30, 0x39, 0x37, 0x30], seq![0x39u8, 0x33, 0x38, 0x32, 0x35, 0x37, 0x38, 0x38, 0x35, 0x38, 0x37, 0x38, 0x35, 0x33, 0x34]);
    assert(dec_value(seq![0x37u8, 0x30, 0x30, 0x36, 0x34, 0x39, 0x32, 0x33, 0x32, 0x31, 0x36, 0x32, 0x34, 0x30, 0x38] + seq![0x35u8, 0x33, 0x35, 0x34, 0x36, 0x31, 0x38, 0x36, 0x34, 0x37, 0x39, 0x31, 0x36, 0x34, 0x34] + seq![0x39u8, 0x35, 0x38, 0x30, 0x36, 0x35, 0x36, 0x34, 0x30, 0x31, 0x33, 0x30, 0x39, 0x37, 0x30] + seq![0x39u8, 0x33, 0x38, 0x32, 0x35, 0x37, 0x38, 0x38, 0x35, 0x38, 0x37, 0x38, 0x35, 0x33, 0x34]) == 700649232162408535461864791644958065640130970938257885878534nat);
    assert(seq![0x31u8, 0x34, 0x31, 0x39, 0x34, 0x34, 0x38, 0x39, 0x35, 0x35, 0x34, 0x31, 0x33, 0x34, 0x32].len() == 15);
    lemma_dec_value_concat(seq![0x37u8, 0x30, 0x30, 0x36, 0x34, 0x39, 0x32, 0x33, 0x32, 0x31, 0x36, 0x32, 0x34, 0x30, 0x38] + seq![0x35u8, 0x33, 0x35, 0x34, 0x36, 0x31, 0x38, 0x36, 0x34, 0x37, 0x39, 0x31, 0x36, 0x34, 0x34] + seq![0x39u8, 0x35, 0x38, 0x30, 0x36, 0x35, 0x36, 0x34, 0x30, 0x31, 0x33, 0x30, 0x39, 0x37, 0x30] + seq![0x39u8, 0x33, 0x38, 0x32, 0x35, 0x37, 0x38, 0x38, 0x35, 0x38, 0x37, 0x38, 0x35, 0x33, 0x34], seq![0x31u8, 0x34, 0x31, 0x39, 0x34, 0x34, 0x38, 0x39, 0x35, 0x35, 0x34, 0x31, 0x33, 0x34, 0x32]);
    lemma_all_digits_concat(seq![0x37u8, 0x30, 0x30, 0x36, 0x34, 0x39, 0x32, 0x33, 0x32, 0x31, 0x36, 0x32, 0x34, 0x30, 0x38] + seq![0x35u8, 0x33, 0x35, 0x34, 0x36, 0x31, 0x38, 0x36, 0x34, 0x37, 0x39, 0x31, 0x36, 0x34, 0x34] + seq![0x39u8, 0x35, 0x38, 0x30, 0x36, 0x35, 0x36, 0x34, 0x30, 0x31, 0x33, 0x30, 0x39, 0x37, 0x30] + seq![0x39u8, 0x33, 0x38, 0x32, 0x35, 0x37, 0x38, 0x38, 0x35, 0x38, 0x37, 0x38, 0x35, 0x33, 0x34], seq![0x31u8, 0x34, 0x31, 0x39, 0x34, 0x34, 0x38, 0x39, 0x35, 0x35, 0x34, 0x31, 0x33, 0x34, 0x32]);
    assert(dec_value(seq![0x37u8, 0x30, 0x30, 0x36, 0x34, 0x39, 0x32, 0x33, 0x32, 0x31, 0x36, 0x32, 0x34, 0x30, 0x38] + seq![0x35u8, 0x33, 0x35, 0x34, 0x36, 0x31, 0x38, 0x36, 0x34, 0x37, 0x39, 0x31, 0x36, 0x34, 0x34] + seq![0x39u8, 0x35, 0x38, 0x30, 0x36, 0x35, 0x36, 0x34, 0x30, 0x31, 0x33, 0x30, 0x39, 0x37, 0x30] + seq![0x39u8, 0x33, 0x38, 0x32, 0x35, 0x37, 0x38, 0x38, 0x35, 0x38, 0x37, 0x38, 0x35, 0x33, 0x34] + seq![0x31u8, 0x34, 0x31, 0x39, 0x34, 0x34, 0x38, 0x39, 0x35, 0x35, 0x34, 0x31, 0x33, 0x34, 0x32]) == 700649232162408535461864791644958065640130970938257885878534141944895541342nat);
    assert(seq![0x39u8, 0x33, 0x30, 0x33, 0x30, 0x30, 0x37, 0x34, 0x33, 0x33, 0x31, 0x39, 0x30, 0x39, 0x34].len() == 15);
    lemma_dec_value_concat(seq![0x37u8, 0x30, 0x30, 0x36, 0x34, 0x39, 0x32, 0x33, 0x32, 0x31, 0x36, 0x32, 0x34, 0x30, 0x38] + seq![0x35u8, 0x33, 0x35, 0x34, 0x36, 0x31, 0x38, 0x36, 0x34, 0x37, 0x39, 0x31, 0x36, 0x34, 0x34] + seq![0x39u8, 0x35, 0x38, 0x30, 0x36, 0x35, 0x36, 0x34, 0x30, 0x31, 0x33, 0x30, 0x39, 0x37, 0x30] + seq![0x39u8, 0x33, 0x38, 0x32, 0x35, 0x37, 0x38, 0x38, 0x35, 0x38, 0x37, 0x38, 0x35, 0x33, 0x34] + seq![0x31u8, 0x34, 0x31, 0x39, 0x34, 0x34, 0x38, 0x39, 0x35, 0x35, 0x34, 0x31, 0x33, 0x34, 0x32], seq![0x39u8, 0x33, 0x30, 0x33, 0x30, 0x30, 0x37, 0x34, 0x33, 0x33, 0x31, 0x39, 0x30, 0x39, 0x34]);
    lemma_all_digits_concat(seq![0x37u8, 0x30, 0x30, 0x36, 0x34, 0x39, 0x32, 0x33, 0x32, 0x31, 0x36, 0x32, 0x34, 0x30, 0x38] + seq![0x35u8, 0x33, 0x35, 0x34, 0x36, 0x31, 0x38, 0x36, 0x34, 0x37, 0x39, 0x31, 0x36, 0x34, 0x34] + seq![0x39u8, 0x35, 0x38, 0x30, 0x36, 0x35, 0x36, 0x34, 0x30, 0x31, 0x33, 0x30, 0x39, 0x37, 0x30] + seq![0x39u8, 0x33, 0x38, 0x32, 0x35, 0x37, 0x38, 0x38, 0x35, 0x38, 0x37, 0x38, 0x35, 0x33, 0x34] + seq![0x31u8, 0x34, 0x31, 0x39, 0x34, 0x34, 0x38, 0x39, 0x35, 0x35, 0x34, 0x31, 0x33, 0x34, 0x32], seq![0x39u8, 0x33, 0x30, 0x33, 0x30, 0x30, 0x37, 0x34, 0x33, 0x33, 0x31, 0x39, 0x30, 0x39, 0x34]);
    assert(dec_value(seq![0x37u8, 0x30, 0x30, 0x36, 0x34, 0x39, 0x32, 0x33, 0x32, 0x31, 0x36, 0x32, 0x34, 0x30, 0x38] + seq![0x35u8, 0x33, 0x35, 0x34, 0x36, 0x31, 0x38, 0x36, 0x34, 0x37, 0x39, 0x31, 0x36, 0x34, 0x34] + seq![0x39u8, 0x35, 0x38, 0x30, 0x36, 0x35, 0x36, 0x34, 0x30, 0x31, 0x33, 0x30, 0x39, 0x37, 0x30] + seq![0x39u8, 0x33, 0x38, 0x32, 0x35, 0x37, 0x38, 0x38, 0x35, 0x38, 0x37, 0x38, 0x35, 0x33, 0x34] + seq![0x31u8, 0x34, 0x31, 0x39, 0x34, 0x34, 0x38, 0x39, 0x35, 0x35, 0x34, 0x31, 0x33, 0x34, 0x32] + seq![0x39u8, 0x33, 0x30, 0x33, 0x30, 0x30, 0x37, 0x34, 0x33, 0x33, 0x31, 0x39, 0x30, 0x39, 0x34]) == 700649232162408535461864791644958065640130970938257885878534141944895541342930300743319094nat);
    assert(seq![0x31u8, 0x38, 0x31, 0x30, 0x36, 0x30, 0x37, 0x39, 0x31, 0x30, 0x31, 0x35, 0x36, 0x32, 0x35].len() == 15);
    lemma_dec_value_concat(seq![0x37u8, 0x30, 0x30, 0x36, 0x34, 0x39, 0x32, 0x33, 0x32, 0x31, 0x36, 0x32, 0x34, 0x30, 0x38] + seq![0x35u8, 0x33, 0x35, 0x34, 0x36, 0x31, 0x38, 0x36, 0x34, 0x37, 0x39, 0x31, 0x36, 0x34, 0x34] + seq![0x39u8, 0x35, 0x38, 0x30, 0x36, 0x35, 0x36, 0x34, 0x30, 0x31, 0x33, 0x30, 0x39, 0x37, 0x30] + seq![0x39u8, 0x33, 0x38, 0x32, 0x35, 0x37, 0x38, 0x38, 0x35, 0x38, 0x37, 0x38, 0x35, 0x33, 0x34] + seq![0x31u8, 0x34, 0x31, 0x39, 0x34, 0x34, 0x38, 0x39, 0x35, 0x35, 0x34, 0x31, 0x33, 0x34, 0x32] + seq![0x39u8, 0x33, 0x30, 0x33, 0x30, 0x30, 0x37, 0x34, 0x33, 0x33, 0x31, 0x39, 0x30, 0x39, 0x34], seq![0x31u8, 0x38, 0x31, 0x30, 0x36, 0x30, 0x37, 0x39, 0x31, 0x30, 0x31, 0x35, 0x36, 0x32, 0x35]);
    lemma_all_digits_concat(seq![0x37u8, 0x30, 0x30, 0x36, 0x34, 0x39, 0x32, 0x33, 0x32, 0x31, 0x36, 0x32, 0x34, 0x30, 0x38] + seq![0x35u8, 0x33, 0x35, 0x34, 0x36, 0x31, 0x38, 0x36, 0x34, 0x37, 0x39, 0x31, 0x36, 0x34, 0x34] + seq![0x39u8, 0x35, 0x38, 0x30, 0x36, 0x35, 0x36, 0x34, 0x30, 0x31, 0x33, 0x30, 0x39, 0x37, 0x30] + seq![0x39u8, 0x33, 0x38, 0x32, 0x35, 0x37, 0x38, 0x38, 0x35, 0x38, 0x37, 0x38, 0x35, 0x33, 0x34] + seq![0x31u8, 0x34, 0x31, 0x39, 0x34, 0x34, 0x38, 0x39, 0x35, 0x35, 0x34, 0x31, 0x33, 0x34, 0x32] + seq![0x39u8, 0x33, 0x30, 0x33, 0x30, 0x30, 0x37, 0x34, 0x33, 0x33, 0x31, 0x39, 0x30, 0x39, 0x34], seq![0x31u8, 0x38, 0x31, 0x30, 0x36, 0x30, 0x37, 0x39, 0x31, 0x30, 0x31, 0x35, 0x36, 0x32, 0x35]);
    assert(dec_value(seq![0x37u8, 0x30, 0x30, 0x36, 0x34, 0x39, 0x32, 0x33, 0x32, 0x31, 0x36, 0x32, 0x34, 0x30, 0x38] + seq![0x35u8, 0x33, 0x35, 0x34, 0x36, 0x31, 0x38, 0x36, 0x34, 0x37, 0x39, 0x31, 0x36, 0x34, 0x34] + seq![0x39u8, 0x35, 0x38, 0x30, 0x36, 0x35, 0x36, 0x34, 0x30, 0x31, 0x33, 0x30, 0x39, 0x37, 0x30] + seq![0x39u8, 0x33, 0x38, 0x32, 0x35, 0x37, 0x38, 0x38, 0x35, 0x38, 0x37, 0x38, 0x35, 0x33, 0x34] + seq![0x31u8, 0x34, 0x31, 0x39, 0x34, 0x34, 0x38, 0x39, 0x35, 0x35, 0x34, 0x31, 0x33, 0x34, 0x32] + seq![0x39u8, 0x33, 0x30, 0x33, 0x30, 0x30, 0x37, 0x34, 0x33, 0x33, 0x31, 0x39, 0x30, 0x39, 0x34] + seq![0x31u8, 0x38, 0x31, 0x30, 0x36, 0x30, 0x37, 0x39, 0x31, 0x30, 0x31, 0x35, 0x36, 0x32, 0x35]) == 700649232162408535461864791644958065640130970938257885878534141944895541342930300743319094181060791015625nat);
}

// ---------------------------------------------------------------------------
// Number literals
// ---------------------------------------------------------------------------

/// A literal's text after its sign, lowercased.
pub open spec fn lit_text(t: Seq<u8>) -> Seq<u8> {
    lowered(unsigned_part(t))
}

/// Where its exponent part (`e…`) starts, or its length.
pub open spec fn lit_exp_at(t: Seq<u8>) -> int {
    find_byte(lit_text(t), 0x65, 0)
}

/// Its mantissa: the text before the exponent.
pub open spec fn lit_mantissa(t: Seq<u8>) -> Seq<u8> {
    lit_text(t).subrange(0, lit_exp_at(t))
}

/// Its exponent part, `e` included (empty when there is none).
pub open spec fn lit_exponent_text(t: Seq<u8>) -> Seq<u8> {
    lit_text(t).subrange(lit_exp_at(t), lit_text(t).len() as int)
}

/// A literal in number form (not `inf`, `infinity` or `nan`).
pub open spec fn number_literal(t: Seq<u8>) -> bool {
    mantissa_ok(lit_mantissa(t)) && exponent_ok(lit_exponent_text(t))
}

/// Where the mantissa's point is, or the mantissa's length.
pub open spec fn lit_point(t: Seq<u8>) -> int {
    find_byte(lit_mantissa(t), 0x2e, 0)
}

/// The mantissa's digits, its point removed.
pub open spec fn lit_digits(t: Seq<u8>) -> Seq<u8> {
    let m = lit_mantissa(t);
    let p = lit_point(t);
    if p == m.len() {
        m
    } else {
        m.subrange(0, p) + m.subrange(p + 1, m.len() as int)
    }
}

/// How many of those digits follow the point.
pub open spec fn lit_frac_len(t: Seq<u8>) -> nat {
    let m = lit_mantissa(t);
    let p = lit_point(t);
    if p == m.len() {
        0
    } else {
        (m.len() - p - 1) as nat
    }
}

/// The exponent's value (0 without one).
pub open spec fn lit_exponent(t: Seq<u8>) -> int {
    let x = lit_exponent_text(t);
    if x.len() < 2 {
        0
    } else {
        let r = x.drop_first();
        if r[0] == 0x2d {
            -(dec_value(r.drop_first()) as int)
        } else if r[0] == 0x2b {
            dec_value(r.drop_first()) as int
        } else {
            dec_value(r) as int
        }
    }
}

/// Read as binary32 (`f32::from_str`, round to nearest, ties to even), the
/// number literal's magnitude `digits * 10^(exponent - fraction digits)`
/// becomes infinite.
pub open spec fn literal_overflows(t: Seq<u8>) -> bool {
    magnitude_overflows(dec_value(lit_digits(t)), lit_exponent(t) - lit_frac_len(t))
}

/// Read as binary32, the number literal's magnitude becomes zero.
pub open spec fn literal_underflows(t: Seq<u8>) -> bool {
    magnitude_underflows(dec_value(lit_digits(t)), lit_exponent(t) - lit_frac_len(t))
}

/// A byte whose lowercase is a digit, `.`, `+` or `-` is that byte.
proof fn lemma_lower_keeps(c: u8)
    requires
        is_digit_byte(lower(c)) || lower(c) == 0x2e || lower(c) == 0x2b || lower(c) == 0x2d,
    ensures
        lower(c) == c,
{
}

/// Exponents past this are saturated: their literals' orders are far
/// outside the binary32 range either way.
pub open spec fn exponent_cap() -> nat {
    1180591620717411303424nat
}

/// Read the digits `t[i..j]` as a number, saturated at [`exponent_cap`].
fn saturating_digits(t: &[u8], i: usize, j: usize) -> (r: u128)
    requires
        i <= j <= t@.len(),
        all_digits(t@.subrange(i as int, j as int)),
    ensures
        r == if dec_value(t@.subrange(i as int, j as int)) < exponent_cap() {
            dec_value(t@.subrange(i as int, j as int))
        } else {
            exponent_cap()
        },
{
    let cap: u128 = 1180591620717411303424;
    let mut v: u128 = 0;
    let mut q = i;
    assert(t@.subrange(i as int, i as int) =~= Seq::<u8>::empty());
    assert(dec_value(Seq::<u8>::empty()) == 0);
    while q < j
        invariant
            i <= q <= j <= t@.len(),
            all_digits(t@.subrange(i as int, j as int)),
            cap == exponent_cap(),
            v == if dec_value(t@.subrange(i as int, q as int)) < cap {
                dec_value(t@.subrange(i as int, q as int))
            } else {
                cap as nat
            },
        decreases j - q,
    {
        let c = t[q];
        assert(t@.subrange(i as int, j as int)[q - i] == c);
        assert(is_digit_byte(c));
        let d = (c - 0x30) as u128;
        let ghost prev = t@.subrange(i as int, q as int);
        let ghost next = t@.subrange(i as int, q + 1);
        assert(next.drop_last() =~= prev);
        assert(dec_value(next) == dec_value(prev) * 10 + d);
        if v < cap {
            let w = v * 10 + d;
            v = if w < cap {
                w
            } else {
                cap
            };
        } else {
            assert(dec_value(next) >= cap) by (nonlinear_arith)
                requires
                    dec_value(next) == dec_value(prev) * 10 + d,
                    dec_value(prev) >= cap,
            ;
        }
        q += 1;
    }
    v
}

/// An exponent clamped to `[-exponent_cap, exponent_cap]`.
pub open spec fn clamp_exponent(x: int) -> int {
    if x >= exponent_cap() {
        exponent_cap() as int
    } else if x <= -(exponent_cap() as int) {
        -(exponent_cap() as int)
    } else {
        x
    }
}

/// Where a literal's text starts: after its sign, if any.
fn sign_len(t: &[u8]) -> (i0: usize)
    ensures
        i0 <= t@.len(),
        unsigned_part(t@) == t@.subrange(i0 as int, t@.len() as int),
{
    let i0: usize = if t.len() > 0 && (t[0] == 0x2b || t[0] == 0x2d) {
        1
    } else {
        0
    };
    assert(unsigned_part(t@) =~= t@.subrange(i0 as int, t@.len() as int));
    i0
}

/// A number literal's mantissa digits (its point removed), and how many of
/// them follow the point.
fn literal_digits(t: &[u8]) -> (r: (Vec<u8>, usize))
    requires
        number_literal(t@),
    ensures
        r.0@ == lit_digits(t@),
        all_digits(r.0@),
        r.1 == lit_frac_len(t@),
        r.0@.len() <= t@.len(),
{
    let n = t.len();
    let i0 = sign_len(t);
    let ghost text = lit_text(t@);
    let e = find_lowered(t, i0, n, 0x65);
    let ghost m = lit_mantissa(t@);
    proof {
        lemma_find_byte(text, 0x65, 0);
        lemma_lowered_subrange(t@, i0 as int, n as int, 0, e as int);
        assert(m == lowered(t@.subrange(i0 as int, i0 + e)));
    }
    let p = find_lowered(t, i0, i0 + e, 0x2e);
    proof {
        lemma_find_byte(m, 0x2e, 0);
        assert(p == lit_point(t@));
        // The mantissa is digits around at most one point, so it is its own
        // lowercase.
        assert forall|j: int| 0 <= j < e implies #[trigger] t@[i0 + j] == m[j] && (j == p
            || is_digit_byte(m[j])) by {
            assert(m[j] == lower(t@[i0 + j]));
            if j < p {
                if p == m.len() {
                    assert(is_digit_byte(m[j]));
                } else {
                    assert(m.subrange(0, p as int)[j] == m[j]);
                    assert(is_digit_byte(m[j]));
                }
            } else if j > p {
                assert(m.subrange(p + 1, m.len() as int)[j - p - 1] == m[j]);
                assert(is_digit_byte(m[j]));
            }
            lemma_lower_keeps(t@[i0 + j]);
        }
    }
    let mut digs: Vec<u8> = Vec::new();
    let mut j: usize = 0;
    while j < e
        invariant
            i0 + e <= n,
            n == t@.len(),
            p <= e,
            e == m.len(),
            p == find_byte(m, 0x2e, 0),
            j <= e,
            forall|q: int| 0 <= q < e ==> #[trigger] t@[i0 + q] == m[q] && (q == p || is_digit_byte(
                m[q],
            )),
            p < e ==> m[p as int] == 0x2e,
            digs@ == if j <= p {
                m.subrange(0, j as int)
            } else {
                m.subrange(0, p as int) + m.subrange(p + 1, j as int)
            },
        decreases e - j,
    {
        let c = t[i0 + j];
        assert(c == m[j as int]);
        if j != p {
            assert(is_digit_byte(c));
            digs.push(c);
            proof {
                if j < p {
                    assert(digs@ =~= m.subrange(0, j + 1));
                } else {
                    assert(digs@ =~= m.subrange(0, p as int) + m.subrange(p + 1, j + 1));
                }
            }
        } else {
            proof {
                assert(m.subrange(0, j as int) + m.subrange(p + 1, j + 1) =~= m.subrange(
                    0,
                    j as int,
                ));
            }
        }
        j += 1;
    }
    proof {
        if p == e {
            assert(m.subrange(0, e as int) =~= m);
        }
        assert(digs@ == lit_digits(t@));
        assert forall|q: int| 0 <= q < digs@.len() implies is_digit_byte(#[trigger] digs@[q]) by {
            if p == e {
                assert(digs@[q] == m[q]);
            } else if q < p {
                assert(digs@[q] == m[q]);
            } else {
                assert(digs@[q] == m[q + 1]);
            }
        }
    }
    let frac: usize = if p == e {
        0
    } else {
        e - p - 1
    };
    (digs, frac)
}

/// A number literal's exponent, clamped to [`exponent_cap`]: its sign and
/// magnitude.
fn literal_exponent_clamped(t: &[u8]) -> (r: (bool, u128))
    requires
        number_literal(t@),
    ensures
        r.1 <= exponent_cap(),
        (if r.0 {
            -(r.1 as int)
        } else {
            r.1 as int
        }) == clamp_exponent(lit_exponent(t@)),
{
    let n = t.len();
    let i0 = sign_len(t);
    let ghost text = lit_text(t@);
    let e = find_lowered(t, i0, n, 0x65);
    let xs = i0 + e;
    let ghost x = lit_exponent_text(t@);
    proof {
        lemma_find_byte(text, 0x65, 0);
        lemma_lowered_subrange(t@, i0 as int, n as int, e as int, n - i0);
        assert(x == lowered(t@.subrange(xs as int, n as int)));
    }
    if n - xs < 2 {
        return (false, 0);
    }
    let r0 = xs + 1;
    let ghost r = x.drop_first();
    proof {
        assert(r[0] == lower(t@[r0 as int]));
    }
    let c = t[r0];
    let (ng, st): (bool, usize) = if c == 0x2d {
        (true, r0 + 1)
    } else if c == 0x2b {
        (false, r0 + 1)
    } else {
        (false, r0)
    };
    let ghost r2 = if r.len() > 0 && (r[0] == 0x2b || r[0] == 0x2d) {
        r.drop_first()
    } else {
        r
    };
    proof {
        assert(r.len() > 0 && all_digits(r2));
        if c == 0x2d || c == 0x2b {
            assert(r[0] == c);
        } else {
            if r[0] == 0x2b || r[0] == 0x2d {
                lemma_lower_keeps(c);
            }
        }
        assert(r2 =~= lowered(t@.subrange(st as int, n as int)));
        assert forall|q: int| st <= q < n implies t@[q] == #[trigger] lowered(
            t@.subrange(st as int, n as int),
        )[q - st] by {
            assert(is_digit_byte(r2[q - st]));
            lemma_lower_keeps(t@[q]);
        }
        assert(t@.subrange(st as int, n as int) =~= r2);
    }
    let mag = saturating_digits(t, st, n);
    (ng, mag)
}

/// Clamping the exponent keeps every comparison of a literal's decimal
/// order with the orders near the binary32 range.
proof fn lemma_clamped_order(k: int, x: int, f: int, c: int)
    requires
        0 <= k < 0x1_0000_0000_0000_0000,
        0 <= f < 0x1_0000_0000_0000_0000,
        c == clamp_exponent(x),
    ensures
        (k + c - f >= 40) == (k + x - f >= 40),
        (k + c - f <= 38) == (k + x - f <= 38),
        (k + c - f <= -46) == (k + x - f <= -46),
        (k + c - f >= -44) == (k + x - f >= -44),
{
}

/// Whether a number literal becomes infinite, and whether it becomes zero,
/// when read as binary32 (see [`literal_overflows`], [`literal_underflows`]).
pub fn literal_rounding(t: &[u8]) -> (r: (bool, bool))
    requires
        number_literal(t@),
    ensures
        r.0 == literal_overflows(t@),
        r.1 == literal_underflows(t@),
{
    let (digs, frac) = literal_digits(t);
    let (neg, mag) = literal_exponent_clamped(t);
    let ghost d = dec_value(lit_digits(t@));
    let ghost ee = lit_exponent(t@) - lit_frac_len(t@);
    // Leading zeros.
    let len = digs.len();
    let mut z: usize = 0;
    while z < len && digs[z] == 0x30
        invariant
            z <= len,
            len == digs@.len(),
            forall|q: int| 0 <= q < z ==> #[trigger] digs@[q] == 0x30,
        decreases len - z,
    {
        z += 1;
    }
    let ghost sig = digs@.subrange(z as int, len as int);
    proof {
        lemma_dec_value_leading_zeros(digs@, z as int);
    }
    if z == len {
        proof {
            assert(sig =~= Seq::<u8>::empty());
            assert(dec_value(Seq::<u8>::empty()) == 0);
            assert(d == 0);
            if ee >= 0 {
                assert(0 * p10(ee as nat) == 0) by (nonlinear_arith);
            } else {
                lemma_p10_pos((-ee) as nat);
                assert(binary32_overflow_bound() * p10((-ee) as nat) > 0) by (nonlinear_arith)
                    requires
                        p10((-ee) as nat) >= 1,
                ;
                assert(0 * two_pow_150() == 0) by (nonlinear_arith);
            }
        }
        return (false, true);
    }
    // The literal's decimal order: significant digits plus the power of ten.
    let k = len - z;
    let v: i128 = if neg {
        -(mag as i128)
    } else {
        mag as i128
    };
    let order: i128 = (k as i128) + v - (frac as i128);
    proof {
        assert(is_digit_byte(digs@[z as int]));
        assert(sig[0] == digs@[z as int]);
        assert(all_digits(sig)) by {
            assert forall|q: int| 0 <= q < sig.len() implies is_digit_byte(#[trigger] sig[q]) by {
                assert(sig[q] == digs@[z + q]);
            }
        }
        lemma_dec_value_bounds(sig);
        lemma_overflow_by_order(d, k as nat, ee);
        lemma_underflow_by_order(d, k as nat, ee);
        lemma_clamped_order(k as int, lit_exponent(t@), frac as int, v as int);
        lemma_threshold_digits();
    }
    let td: [u8; 39] = [0x33, 0x34, 0x30, 0x32, 0x38, 0x32, 0x33, 0x35, 0x36, 0x37, 0x37, 0x39, 0x37, 0x33, 0x33, 0x36, 0x36, 0x31, 0x36, 0x33, 0x37, 0x35, 0x33, 0x39, 0x33, 0x39, 0x35, 0x34, 0x35, 0x38, 0x31, 0x34, 0x32, 0x35, 0x36, 0x38, 0x34, 0x34, 0x38];
    let ud: [u8; 105] = [0x37, 0x30, 0x30, 0x36, 0x34, 0x39, 0x32, 0x33, 0x32, 0x31, 0x36, 0x32, 0x34, 0x30, 0x38, 0x35, 0x33, 0x35, 0x34, 0x36, 0x31, 0x38, 0x36, 0x34, 0x37, 0x39, 0x31, 0x36, 0x34, 0x34, 0x39, 0x35, 0x38, 0x30, 0x36, 0x35, 0x36, 0x34, 0x30, 0x31, 0x33, 0x30, 0x39, 0x37, 0x30, 0x39, 0x33, 0x38, 0x32, 0x35, 0x37, 0x38, 0x38, 0x35, 0x38, 0x37, 0x38, 0x35, 0x33, 0x34, 0x31, 0x34, 0x31, 0x39, 0x34, 0x34, 0x38, 0x39, 0x35, 0x35, 0x34, 0x31, 0x33, 0x34, 0x32, 0x39, 0x33, 0x30, 0x33, 0x30, 0x30, 0x37, 0x34, 0x33, 0x33, 0x31, 0x39, 0x30, 0x39, 0x34, 0x31, 0x38, 0x31, 0x30, 0x36, 0x30, 0x37, 0x39, 0x31, 0x30, 0x31, 0x35, 0x36, 0x32, 0x35];
    proof {
        assert(td@ =~= overflow_bound_digits());
        assert(ud@ =~= five_pow_150_digits());
    }
    let over = if order >= 40 {
        true
    } else if order <= 38 {
        false
    } else {
        compare_fraction_digits(digs.as_slice(), z, len, td.as_slice()) >= 0
    };
    let under = if order <= -46 {
        true
    } else if order >= -44 {
        false
    } else {
        compare_fraction_digits(digs.as_slice(), z, len, ud.as_slice()) <= 0
    };
    (over, under)
}

} // verus!
