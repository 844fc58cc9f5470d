//! The integer side of reading a float literal: recognising the `nan` /
//! `inf` keywords and splitting decimal or scientific notation into a sign,
//! a significand and a power of ten.
//!
//! A literal is an optional `+`/`-`, then digits with at most one `.`, then
//! optionally `e`/`E`, an optional sign and exponent digits; at least one
//! digit must come before the exponent. At most the first 17 significant
//! digits are kept in the significand; the power of ten counts the digits
//! left out, so the parts stand for the literal's value up to those digits.
use vstd::prelude::*;
use crate::numstr::digits_value;

verus! {

/// An ASCII decimal digit.
pub open spec fn is_dec_digit(b: u8) -> bool {
    0x30 <= b <= 0x39
}

/// Length of the run of decimal digits in `s` that starts at `from`.
pub open spec fn digit_run(s: Seq<u8>, from: int) -> nat
    decreases s.len() - from,
{
    if 0 <= from < s.len() && is_dec_digit(s[from]) {
        1 + digit_run(s, from + 1)
    } else {
        0
    }
}

/// Number of digits before the dot (or before the end of the digits).
pub open spec fn int_digits(b: Seq<u8>) -> int {
    digit_run(b, 0) as int
}

/// Whether the integer digits are followed by a `.`.
pub open spec fn has_dot(b: Seq<u8>) -> bool {
    int_digits(b) < b.len() && b[int_digits(b) as int] == 0x2E
}

/// Number of digits after the dot.
pub open spec fn frac_digits(b: Seq<u8>) -> nat {
    if has_dot(b) {
        digit_run(b, int_digits(b) + 1)
    } else {
        0
    }
}

/// Where the digits-and-dot part ends.
pub open spec fn mantissa_end(b: Seq<u8>) -> int {
    if has_dot(b) {
        int_digits(b) + 1 + frac_digits(b)
    } else {
        int_digits(b)
    }
}

/// Whether an exponent marker `e`/`E` follows the digits.
pub open spec fn has_exponent(b: Seq<u8>) -> bool {
    mantissa_end(b) < b.len()
}

/// Where the exponent digits start (after the marker and its optional sign).
pub open spec fn exp_digits_start(b: Seq<u8>) -> int {
    let e = mantissa_end(b) + 1;
    if e < b.len() && (b[e] == 0x2B || b[e] == 0x2D) {
        e + 1
    } else {
        e
    }
}

/// Whether the exponent is negative.
pub open spec fn exp_negative(b: Seq<u8>) -> bool {
    let e = mantissa_end(b) + 1;
    has_exponent(b) && e < b.len() && b[e] == 0x2D
}

/// Whether `b` (a literal without its leading sign) is well-formed.
pub open spec fn decimal_body_ok(b: Seq<u8>) -> bool {
    &&& int_digits(b) + frac_digits(b) >= 1
    &&& has_exponent(b) ==> {
        &&& (b[mantissa_end(b)] == 0x65 || b[mantissa_end(b)] == 0x45)
        &&& exp_digits_start(b) + digit_run(b, exp_digits_start(b)) == b.len()
    }
}

/// The digits before the exponent, with the dot left out.
pub open spec fn mantissa_digits(b: Seq<u8>) -> Seq<u8> {
    if has_dot(b) {
        b.take(int_digits(b) as int) + b.subrange(int_digits(b) + 1, mantissa_end(b))
    } else {
        b.take(int_digits(b) as int)
    }
}

/// `d` without its leading zeros.
pub open spec fn strip_zeros(d: Seq<u8>) -> Seq<u8>
    decreases d.len(),
{
    if d.len() > 0 && d[0] == 0x30 {
        strip_zeros(d.drop_first())
    } else {
        d
    }
}

/// The first (at most) 17 digits of `d`.
pub open spec fn first_17(d: Seq<u8>) -> Seq<u8> {
    if d.len() <= 17 {
        d
    } else {
        d.take(17)
    }
}

/// The significand: the value of the first 17 significant mantissa digits.
pub open spec fn significand(b: Seq<u8>) -> nat {
    digits_value(first_17(strip_zeros(mantissa_digits(b))), 10)
}

/// The exponent's magnitude, saturated at `i32::MAX`.
pub open spec fn exp_magnitude(b: Seq<u8>) -> int {
    if has_exponent(b) {
        let v = digits_value(b.subrange(exp_digits_start(b), b.len() as int), 10);
        if v > i32::MAX {
            i32::MAX as int
        } else {
            v as int
        }
    } else {
        0
    }
}

/// The number of significant mantissa digits left out of the significand.
pub open spec fn dropped_digits(b: Seq<u8>) -> nat {
    let sig = strip_zeros(mantissa_digits(b));
    if sig.len() > 17 {
        (sig.len() - 17) as nat
    } else {
        0
    }
}

/// The power of ten that scales the significand: the exponent, less the
/// number of digits after the dot, plus the number of digits left out.
pub open spec fn decimal_exponent(b: Seq<u8>) -> int {
    (if exp_negative(b) {
        -exp_magnitude(b)
    } else {
        exp_magnitude(b)
    }) - frac_digits(b) + dropped_digits(b)
}

/// The literal without its leading sign.
pub open spec fn decimal_body(s: Seq<u8>) -> Seq<u8> {
    if s[0] == 0x2B || s[0] == 0x2D {
        s.skip(1)
    } else {
        s
    }
}

/// Whether `s` is a well-formed decimal literal.
pub open spec fn decimal_ok(s: Seq<u8>) -> bool {
    decimal_body(s).len() > 0 && decimal_body_ok(decimal_body(s))
}

/// A decimal literal split into integers: its value is
/// `(-1)^negative * mantissa * 10^exponent`.
#[derive(Clone, Copy, Debug, PartialEq, Eq, Structural)]
pub struct DecimalParts {
    /// Whether the literal starts with `-`.
    pub negative: bool,
    /// The first 17 significant digits as an integer.
    pub mantissa: u64,
    /// The power of ten to scale `mantissa` by.
    pub exponent: i128,
}

/// `10^n`.
pub open spec fn pow10(n: nat) -> nat
    decreases n,
{
    if n == 0 {
        1
    } else {
        10 * pow10((n - 1) as nat)
    }
}

proof fn lemma_pow10_monotone(a: nat, b: nat)
    requires
        a <= b,
    ensures
        pow10(a) <= pow10(b),
    decreases b,
{
    if a < b {
        lemma_pow10_monotone(a, (b - 1) as nat);
    }
}

/// A run of `n` digits at `j` that ends at the end of `s` or at a non-digit
/// is exactly `digit_run(s, j)`; any run of `n` digits is at most it.
proof fn lemma_digit_run(s: Seq<u8>, j: int, n: int)
    requires
        0 <= j,
        0 <= n,
        j + n <= s.len(),
        forall|k: int| j <= k < j + n ==> is_dec_digit(#[trigger] s[k]),
    ensures
        digit_run(s, j) >= n,
        (j + n == s.len() || !is_dec_digit(s[j + n])) ==> digit_run(s, j) == n,
    decreases n,
{
    if n > 0 {
        lemma_digit_run(s, j + 1, n - 1);
    }
}

/// Appending a digit to `d` appends it to `strip_zeros(d)`, unless both are
/// zeros only.
proof fn lemma_strip_push(d: Seq<u8>, x: u8)
    ensures
        strip_zeros(d.push(x)) == (if strip_zeros(d).len() == 0 && x == 0x30 {
            Seq::<u8>::empty()
        } else {
            strip_zeros(d).push(x)
        }),
    decreases d.len(),
{
    if d.len() == 0 {
        assert(d.push(x) =~= seq![x]);
        assert(strip_zeros(d) == d);
        if x == 0x30 {
            assert(seq![x].drop_first() =~= Seq::<u8>::empty());
            assert(strip_zeros(seq![x]) == strip_zeros(Seq::<u8>::empty()));
        } else {
            assert(strip_zeros(seq![x]) == seq![x]);
        }
    } else if d[0] == 0x30 {
        assert(d.push(x)[0] == 0x30);
        assert(d.push(x).drop_first() =~= d.drop_first().push(x));
        lemma_strip_push(d.drop_first(), x);
    } else {
        assert(d.push(x)[0] == d[0]);
        assert(strip_zeros(d) == d);
        assert(strip_zeros(d.push(x)) == d.push(x));
    }
}

/// Whether `s` starts with a sign byte.
fn has_sign(b: u8) -> (r: bool)
    ensures
        r == (b == 0x2B || b == 0x2D),
{
    b == 0x2Bu8 || b == 0x2Du8
}

/// Split a decimal literal into sign, significand and power of ten, or
/// `None` when `bytes` is not a well-formed literal.
#[verifier::rlimit(50)]
#[verifier::spinoff_prover]
pub fn scan_decimal(bytes: &[u8]) -> (r: Option<DecimalParts>)
    requires
        0 < bytes@.len(),
    ensures
        r is Some <==> decimal_ok(bytes@),
        r matches Some(p) ==> {
            &&& p.negative == (bytes@[0] == 0x2D)
            &&& p.mantissa == significand(decimal_body(bytes@))
            &&& p.exponent == decimal_exponent(decimal_body(bytes@))
        },
{
    let negative = bytes[0] == 0x2Du8;
    let body: &[u8] = if has_sign(bytes[0]) {
        vstd::slice::slice_subrange(bytes, 1, bytes.len())
    } else {
        bytes
    };
    let ghost bs = body@;
    assert(bs == decimal_body(bytes@));
    if body.len() == 0 {
        return None;
    }
    let n = body.len();
    let mut mantissa: u64 = 0;
    let mut frac_pos: usize = 0;
    let mut dropped: usize = 0;
    let mut saw_dot = false;
    let mut saw_exp = false;
    let mut started = false;
    let mut any_digit = false;
    let mut sig_digits: u32 = 0;
    let mut i: usize = 0;
    let ghost i1: int = int_digits(bs) as int;
    let ghost mut ds: Seq<u8> = Seq::empty();
    proof {
        reveal_with_fuel(pow10, 1);
    }
    // The digits and the dot, up to an exponent marker.
    while i < n
        invariant_except_break
            !saw_exp,
        invariant
            bs == decimal_body(bytes@),
            n == bs.len(),
            n == body@.len(),
            bs == body@,
            i <= n,
            dropped <= i,
            i1 == int_digits(bs),
            !saw_dot ==> forall|k: int| 0 <= k < i ==> is_dec_digit(#[trigger] bs[k]),
            !saw_dot ==> ds == bs.take(i as int),
            saw_dot ==> i1 < i && bs[i1] == 0x2E && has_dot(bs),
            saw_dot ==> forall|k: int| i1 < k < i ==> is_dec_digit(#[trigger] bs[k]),
            saw_dot ==> ds == bs.take(i1) + bs.subrange(i1 + 1, i as int),
            frac_pos == (if saw_dot { i - i1 - 1 } else { 0 }),
            any_digit == (ds.len() > 0),
            forall|k: int| 0 <= k < ds.len() ==> is_dec_digit(#[trigger] ds[k]),
            started == (strip_zeros(ds).len() > 0),
            sig_digits == first_17(strip_zeros(ds)).len(),
            dropped == (if strip_zeros(ds).len() > 17 { strip_zeros(ds).len() - 17 } else { 0 }),
            mantissa == digits_value(first_17(strip_zeros(ds)), 10),
            mantissa < pow10(sig_digits as nat),
        ensures
            saw_exp ==> i < n && (bs[i as int] == 0x65 || bs[i as int] == 0x45) && any_digit,
            i <= n,
            !saw_exp ==> i == n,
            !saw_dot ==> forall|k: int| 0 <= k < i ==> is_dec_digit(#[trigger] bs[k]),
            !saw_dot ==> ds == bs.take(i as int),
            saw_dot ==> i1 < i && bs[i1] == 0x2E && has_dot(bs),
            saw_dot ==> forall|k: int| i1 < k < i ==> is_dec_digit(#[trigger] bs[k]),
            saw_dot ==> ds == bs.take(i1) + bs.subrange(i1 + 1, i as int),
            frac_pos == (if saw_dot { i - i1 - 1 } else { 0 }),
            any_digit == (ds.len() > 0),
            mantissa == digits_value(first_17(strip_zeros(ds)), 10),
            dropped == (if strip_zeros(ds).len() > 17 { strip_zeros(ds).len() - 17 } else { 0 }),
        decreases n - i,
    {
        let b = body[i];
        if b >= 0x30u8 && b <= 0x39u8 {
            let d = (b - 0x30u8) as u64;
            any_digit = true;
            if saw_dot {
                frac_pos += 1;
            }
            let ghost old_ds = ds;
            proof {
                lemma_strip_push(ds, b);
                ds = ds.push(b);
                if !saw_dot {
                    assert(ds =~= bs.take(i + 1));
                } else {
                    assert(ds =~= bs.take(i1) + bs.subrange(i1 + 1, i + 1));
                }
            }
            if d != 0 || started {
                proof {
                    assert(strip_zeros(ds) == strip_zeros(old_ds).push(b));
                }
                started = true;
                if sig_digits < 17 {
                    let ghost sz = strip_zeros(old_ds);
                    proof {
                        lemma_pow10_monotone(sig_digits as nat, 16);
                        reveal_with_fuel(pow10, 17);
                        assert(strip_zeros(ds) == sz.push(b));
                        assert(first_17(strip_zeros(ds)) == sz.push(b));
                        assert(sz.push(b).drop_last() =~= sz);
                    }
                    mantissa = mantissa * 10 + d;
                    sig_digits += 1;
                } else {
                    proof {
                        let sz = strip_zeros(old_ds);
                        assert(sz.len() >= 17);
                        assert(sz.push(b).take(17) =~= sz.take(17));
                        assert(first_17(sz) =~= sz.take(17));
                        assert(first_17(strip_zeros(ds)) == first_17(sz));
                    }
                    dropped += 1;
                }
            } else {
                proof {
                    assert(strip_zeros(ds) =~= Seq::<u8>::empty());
                    assert(first_17(strip_zeros(ds)) =~= first_17(strip_zeros(old_ds)));
                }
            }
            i += 1;
        } else if b == 0x2Eu8 && !saw_dot {
            proof {
                lemma_digit_run(bs, 0, i as int);
                assert(bs.take(i1) + bs.subrange(i1 + 1, i1 + 1) =~= bs.take(i as int));
            }
            saw_dot = true;
            i += 1;
        } else if (b == 0x65u8 || b == 0x45u8) && any_digit {
            saw_exp = true;
            break;
        } else {
            proof {
                lemma_decimal_rejects(bs, i as int, saw_dot, ds);
            }
            return None;
        }
    }
    let mut exp_sign: i32 = 1;
    let mut exp_val: i32 = 0;
    proof {
        lemma_mantissa_shape(bs, i as int, saw_dot, ds);
    }
    if saw_exp {
        let m = i;
        i += 1;
        if i < n && (body[i] == 0x2Bu8 || body[i] == 0x2Du8) {
            if body[i] == 0x2Du8 {
                exp_sign = -1;
            }
            i += 1;
        }
        let s = i;
        assert(s == exp_digits_start(bs));
        assert(m == mantissa_end(bs) && has_exponent(bs));
        assert(exp_sign == (if exp_negative(bs) { -1i32 } else { 1i32 }));
        while i < n && body[i] >= 0x30u8 && body[i] <= 0x39u8
            invariant
                n == bs.len(),
                bs == body@,
                s == exp_digits_start(bs),
                exp_sign == (if exp_negative(bs) { -1i32 } else { 1i32 }),
                s <= i <= n,
                forall|k: int| s <= k < i ==> is_dec_digit(#[trigger] bs[k]),
                exp_val as int == (if digits_value(bs.subrange(s as int, i as int), 10) > i32::MAX {
                    i32::MAX as int
                } else {
                    digits_value(bs.subrange(s as int, i as int), 10) as int
                }),
            decreases n - i,
        {
            let d = (body[i] - 0x30u8) as i32;
            proof {
                assert(bs.subrange(s as int, i + 1).drop_last() =~= bs.subrange(s as int, i as int));
            }
            if exp_val <= (i32::MAX - d) / 10 {
                exp_val = exp_val * 10 + d;
            } else {
                exp_val = i32::MAX;
            }
            i += 1;
        }
        proof {
            lemma_digit_run(bs, s as int, i - s);
        }
        if i < n {
            return None;
        }
        assert(bs.subrange(s as int, i as int) == bs.subrange(exp_digits_start(bs), bs.len() as int));
        assert(exp_val == exp_magnitude(bs));
    }
    if !any_digit {
        return None;
    }
    proof {
        assert(exp_val == exp_magnitude(bs));
        assert(exp_sign == (if exp_negative(bs) { -1i32 } else { 1i32 }));
        assert(exp_val as i128 * exp_sign as i128 == (if exp_sign == -1 { -exp_val } else { exp_val as int }))
            by (nonlinear_arith)
            requires
                exp_sign == 1 || exp_sign == -1,
        ;
        assert(mantissa_digits(bs) == ds);
    }
    let total_exp = exp_val as i128 * exp_sign as i128 - frac_pos as i128 + dropped as i128;
    Some(DecimalParts { negative, mantissa, exponent: total_exp })
}

/// When the scan stops at byte `i` on a byte it cannot take, the body is not
/// a well-formed literal.
proof fn lemma_decimal_rejects(bs: Seq<u8>, i: int, saw_dot: bool, ds: Seq<u8>)
    requires
        0 <= i < bs.len(),
        !is_dec_digit(bs[i]),
        !(bs[i] == 0x2E && !saw_dot),
        !((bs[i] == 0x65 || bs[i] == 0x45) && ds.len() > 0),
        !saw_dot ==> forall|k: int| 0 <= k < i ==> is_dec_digit(#[trigger] bs[k]),
        !saw_dot ==> ds == bs.take(i),
        saw_dot ==> int_digits(bs) < i && bs[int_digits(bs) as int] == 0x2E,
        saw_dot ==> forall|k: int| int_digits(bs) < k < i ==> is_dec_digit(#[trigger] bs[k]),
        saw_dot ==> ds == bs.take(int_digits(bs) as int) + bs.subrange(int_digits(bs) + 1, i),
    ensures
        !decimal_body_ok(bs),
{
    lemma_mantissa_shape(bs, i, saw_dot, ds);
}

/// Where the digits-and-dot scan stops at `i` (at the end or on a byte that
/// is neither a digit nor a first dot), `i` is the end of the mantissa and
/// the digits taken are the mantissa digits.
proof fn lemma_mantissa_shape(bs: Seq<u8>, i: int, saw_dot: bool, ds: Seq<u8>)
    requires
        0 <= i <= bs.len(),
        i < bs.len() ==> !is_dec_digit(bs[i]) && !(bs[i] == 0x2E && !saw_dot),
        !saw_dot ==> forall|k: int| 0 <= k < i ==> is_dec_digit(#[trigger] bs[k]),
        !saw_dot ==> ds == bs.take(i),
        saw_dot ==> int_digits(bs) < i && bs[int_digits(bs) as int] == 0x2E,
        saw_dot ==> forall|k: int| int_digits(bs) < k < i ==> is_dec_digit(#[trigger] bs[k]),
        saw_dot ==> ds == bs.take(int_digits(bs) as int) + bs.subrange(int_digits(bs) + 1, i),
    ensures
        mantissa_end(bs) == i,
        has_dot(bs) == saw_dot,
        mantissa_digits(bs) == ds,
        int_digits(bs) + frac_digits(bs) == ds.len(),
        frac_digits(bs) == (if saw_dot { i - int_digits(bs) - 1 } else { 0 }),
{
    if !saw_dot {
        lemma_digit_run(bs, 0, i);
    } else {
        let i1 = int_digits(bs) as int;
        lemma_digit_run(bs, i1 + 1, i - i1 - 1);
    }
}

/// The keywords a float literal may be instead of digits.
#[derive(Clone, Copy, Debug, PartialEq, Eq, Hash, Structural)]
pub enum FloatKeyword {
    /// `nan` or `nan()`.
    Nan,
    /// `inf`, `infinity`, `+inf` or `+infinity`.
    Infinity,
    /// `-inf` or `-infinity`.
    NegInfinity,
}

/// ASCII lower-casing of one byte.
pub open spec fn lower_byte(b: u8) -> u8 {
    if 0x41 <= b <= 0x5A {
        (b + 32) as u8
    } else {
        b
    }
}

/// The first (at most) eight bytes of `s`, lower-cased: the part of a
/// literal that keyword matching looks at.
pub open spec fn lower8(s: Seq<u8>) -> Seq<u8> {
    let n = if s.len() < 8 {
        s.len() as int
    } else {
        8
    };
    Seq::new(n as nat, |i: int| lower_byte(s[i]))
}

/// The keyword that `s` spells, judged by its first eight bytes.
pub open spec fn keyword_of(s: Seq<u8>) -> Option<FloatKeyword> {
    let l = lower8(s);
    if l == seq![0x6Eu8, 0x61, 0x6E] || l == seq![0x6Eu8, 0x61, 0x6E, 0x28, 0x29] {
        Some(FloatKeyword::Nan)
    } else if l == seq![0x69u8, 0x6E, 0x66] || l == seq![0x69u8, 0x6E, 0x66, 0x69, 0x6E, 0x69, 0x74, 0x79]
        || l == seq![0x2Bu8, 0x69, 0x6E, 0x66] || l == seq![0x2Bu8, 0x69, 0x6E, 0x66, 0x69, 0x6E, 0x69, 0x74, 0x79] {
        Some(FloatKeyword::Infinity)
    } else if l == seq![0x2Du8, 0x69, 0x6E, 0x66] || l == seq![0x2Du8, 0x69, 0x6E, 0x66, 0x69, 0x6E, 0x69, 0x74, 0x79] {
        Some(FloatKeyword::NegInfinity)
    } else {
        None
    }
}

fn to_lower8(s: &[u8]) -> (r: Vec<u8>)
    ensures
        r@ == lower8(s@),
{
    let n = if s.len() < 8 {
        s.len()
    } else {
        8
    };
    let mut out: Vec<u8> = Vec::new();
    let mut i: usize = 0;
    while i < n
        invariant
            n <= s@.len(),
            n == lower8(s@).len(),
            i <= n,
            out@ == lower8(s@).take(i as int),
        decreases n - i,
    {
        let b = s[i];
        let l = if b >= 0x41u8 && b <= 0x5Au8 {
            b + 32
        } else {
            b
        };
        out.push(l);
        assert(out@ =~= lower8(s@).take(i + 1));
        i += 1;
    }
    assert(out@ =~= lower8(s@));
    out
}

fn bytes_eq(a: &[u8], b: &[u8]) -> (r: bool)
    ensures
        r == (a@ == b@),
{
    if a.len() != b.len() {
        return false;
    }
    let mut i: usize = 0;
    while i < a.len()
        invariant
            a@.len() == b@.len(),
            i <= a@.len(),
            forall|k: int| 0 <= k < i ==> a@[k] == b@[k],
        decreases a@.len() - i,
    {
        if a[i] != b[i] {
            return false;
        }
        i += 1;
    }
    assert(a@ =~= b@);
    true
}

/// The keyword (`nan`, `inf`, `infinity`, with the signs the format allows,
/// in any letter case) that the first eight bytes of `s` spell, if any.
pub fn float_keyword(s: &[u8]) -> (r: Option<FloatKeyword>)
    ensures
        r == keyword_of(s@),
{
    let lower = to_lower8(s);
    let l = lower.as_slice();
    let nan: [u8; 3] = [0x6Eu8, 0x61u8, 0x6Eu8];
    let nan_parens: [u8; 5] = [0x6Eu8, 0x61u8, 0x6Eu8, 0x28u8, 0x29u8];
    let inf: [u8; 3] = [0x69u8, 0x6Eu8, 0x66u8];
    let infinity: [u8; 8] = [0x69u8, 0x6Eu8, 0x66u8, 0x69u8, 0x6Eu8, 0x69u8, 0x74u8, 0x79u8];
    let pinf: [u8; 4] = [0x2Bu8, 0x69u8, 0x6Eu8, 0x66u8];
    let pinfinity: [u8; 9] = [0x2Bu8, 0x69u8, 0x6Eu8, 0x66u8, 0x69u8, 0x6Eu8, 0x69u8, 0x74u8, 0x79u8];
    let ninf: [u8; 4] = [0x2Du8, 0x69u8, 0x6Eu8, 0x66u8];
    let ninfinity: [u8; 9] = [0x2Du8, 0x69u8, 0x6Eu8, 0x66u8, 0x69u8, 0x6Eu8, 0x69u8, 0x74u8, 0x79u8];
    proof {
        assert(nan@ =~= seq![0x6Eu8, 0x61, 0x6E]);
        assert(nan_parens@ =~= seq![0x6Eu8, 0x61, 0x6E, 0x28, 0x29]);
        assert(inf@ =~= seq![0x69u8, 0x6E, 0x66]);
        assert(infinity@ =~= seq![0x69u8, 0x6E, 0x66, 0x69, 0x6E, 0x69, 0x74, 0x79]);
        assert(pinf@ =~= seq![0x2Bu8, 0x69, 0x6E, 0x66]);
        assert(pinfinity@ =~= seq![0x2Bu8, 0x69, 0x6E, 0x66, 0x69, 0x6E, 0x69, 0x74, 0x79]);
        assert(ninf@ =~= seq![0x2Du8, 0x69, 0x6E, 0x66]);
        assert(ninfinity@ =~= seq![0x2Du8, 0x69, 0x6E, 0x66, 0x69, 0x6E, 0x69, 0x74, 0x79]);
    }
    if bytes_eq(l, nan.as_slice()) || bytes_eq(l, nan_parens.as_slice()) {
        return Some(FloatKeyword::Nan);
    }
    if bytes_eq(l, inf.as_slice()) || bytes_eq(l, infinity.as_slice()) || bytes_eq(l, pinf.as_slice())
        || bytes_eq(l, pinfinity.as_slice()) {
        return Some(FloatKeyword::Infinity);
    }
    if bytes_eq(l, ninf.as_slice()) || bytes_eq(l, ninfinity.as_slice()) {
        return Some(FloatKeyword::NegInfinity);
    }
    None
}

} // verus!
