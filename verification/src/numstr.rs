//! Integer formatting and parsing in any radix from 2 to 36, writing into
//! caller-provided buffers.
//!
//! [`format_int`] writes the digits right-aligned at the end of the buffer
//! and returns the written tail; [`parse_int`] accepts an optional `+`/`-`
//! sign followed by at least one digit (either letter case) whose value fits
//! in an `i128`. Formatting and then parsing gives back every such value.
use vstd::prelude::*;
use vstd::arithmetic::div_mod::*;
use vstd::arithmetic::mul::*;
use vstd::arithmetic::power::lemma_pow0;
use vstd::arithmetic::power2::*;
use crate::text::{string_from_bytes_or_empty, text_of};

verus! {

/// The ASCII digit for `d < 36` (lower-case letters above 9).
pub open spec fn digit_char(d: nat) -> u8 {
    if d < 10 {
        (0x30 + d) as u8
    } else {
        (0x61 + d - 10) as u8
    }
}

/// The digits of `m` in `radix`, most significant first, with no leading
/// zeros (`0` is the single digit `0`).
pub open spec fn digits_of(m: nat, radix: nat) -> Seq<u8>
    decreases m,
{
    if radix < 2 {
        Seq::empty()
    } else if m < radix {
        seq![digit_char(m)]
    } else {
        proof {
            lemma_div_decreases(m as int, radix as int);
        }
        digits_of(m / radix, radix) + seq![digit_char(m % radix)]
    }
}

/// The magnitude of `v`.
pub open spec fn magnitude(v: int) -> nat {
    if v < 0 {
        (-v) as nat
    } else {
        v as nat
    }
}

/// The text of `v` in `radix`: a `-` for negative values, then the digits of
/// its magnitude.
pub open spec fn formatted(v: int, radix: nat) -> Seq<u8> {
    if v < 0 {
        seq![0x2Du8] + digits_of(magnitude(v), radix)
    } else {
        digits_of(magnitude(v), radix)
    }
}

/// Whether `radix` is one the formatter and parser accept.
pub open spec fn radix_ok(radix: u32) -> bool {
    2 <= radix <= 36
}

/// The integer with the given sign and magnitude.
pub open spec fn signed_value(negative: bool, mag: nat) -> int {
    if negative {
        -(mag as int)
    } else {
        mag as int
    }
}

/// The largest magnitude the parser accepts: that of `i128::MIN` after a
/// `-`, that of `i128::MAX` otherwise.
pub open spec fn magnitude_limit(negative: bool) -> int {
    if negative {
        i128::MAX + 1
    } else {
        i128::MAX as int
    }
}

/// What formatting `v` in `radix` into a buffer holding `old` leaves behind:
/// `None` and the buffer unchanged when the radix is invalid or the text does
/// not fit, else the text written at the end of the buffer and returned.
pub open spec fn format_outcome(
    v: int,
    radix: u32,
    old: Seq<u8>,
    new: Seq<u8>,
    r: Option<Seq<u8>>,
) -> bool {
    let f = formatted(v, radix as nat);
    if !radix_ok(radix) || f.len() > old.len() {
        r is None && new == old
    } else {
        r == Some(f) && new == old.subrange(0, old.len() - f.len()) + f
    }
}

/// The value of an ASCII digit (`0-9`, then `a-z` / `A-Z` as 10 to 35).
pub open spec fn digit_value(b: u8) -> Option<nat> {
    if 0x30 <= b <= 0x39 {
        Some((b - 0x30) as nat)
    } else if 0x61 <= b <= 0x7A {
        Some((b - 0x61 + 10) as nat)
    } else if 0x41 <= b <= 0x5A {
        Some((b - 0x41 + 10) as nat)
    } else {
        None
    }
}

/// Whether every byte of `s` is a digit below `radix`.
pub open spec fn all_digits(s: Seq<u8>, radix: nat) -> bool {
    forall|i: int|
        0 <= i < s.len() ==> (#[trigger] digit_value(s[i]) matches Some(d) && d < radix)
}

/// The value of the digit string `s` in `radix`.
pub open spec fn digits_value(s: Seq<u8>, radix: nat) -> nat
    decreases s.len(),
{
    if s.len() == 0 {
        0
    } else {
        digits_value(s.drop_last(), radix) * radix + match digit_value(s.last()) {
            Some(d) => d,
            None => 0,
        }
    }
}

/// The integer that `s` spells in `radix`, if it is an optional sign followed
/// by at least one digit and the value fits in an `i128`.
pub open spec fn parsed(s: Seq<u8>, radix: u32) -> Option<int> {
    if !radix_ok(radix) || s.len() == 0 {
        None
    } else {
        let neg = s[0] == 0x2D;
        let body = if s[0] == 0x2B || s[0] == 0x2D {
            s.skip(1)
        } else {
            s
        };
        if body.len() == 0 || !all_digits(body, radix as nat) {
            None
        } else if digits_value(body, radix as nat) > magnitude_limit(neg) {
            None
        } else if neg {
            Some(-(digits_value(body, radix as nat) as int))
        } else {
            Some(digits_value(body, radix as nat) as int)
        }
    }
}

fn digit_byte(d: u32) -> (r: u8)
    requires
        d < 36,
    ensures
        r == digit_char(d as nat),
{
    if d < 10 {
        0x30 + d as u8
    } else {
        0x61 + (d - 10) as u8
    }
}

proof fn lemma_digits_step(m: nat, radix: nat)
    requires
        2 <= radix,
        m > 0,
    ensures
        m >= radix ==> digits_of(m, radix) == digits_of(m / radix, radix) + seq![
            digit_char(m % radix),
        ] && m / radix > 0,
        m < radix ==> digits_of(m, radix) == seq![digit_char(m % radix)] && m / radix == 0,
{
    if m >= radix {
        lemma_div_pos_is_pos(m as int, radix as int);
        lemma_div_non_zero(m as int, radix as int);
    } else {
        lemma_small_mod(m, radix);
        lemma_basic_div(m as int, radix as int);
    }
}

/// Split `value` into its sign and magnitude.
fn sign_and_magnitude(value: i128) -> (r: (bool, u128))
    ensures
        r.0 == (value < 0),
        r.1 as nat == magnitude(value as int),
{
    if value < 0 {
        if value == i128::MIN {
            proof {
                assert(1u128 << 127 == 0x8000_0000_0000_0000_0000_0000_0000_0000u128)
                    by (bit_vector);
            }
            (true, 1u128 << 127)
        } else {
            (true, (-value) as u128)
        }
    } else {
        (false, value as u128)
    }
}

/// Format the integer with sign `negative` and magnitude `mag` in `radix`
/// into the end of `buf`.
fn format_integer<'a>(negative: bool, mag: u128, radix: u32, buf: &'a mut [u8]) -> (r: Option<
    &'a [u8],
>)
    requires
        negative ==> mag > 0,
    ensures
        format_outcome(
            signed_value(negative, mag as nat),
            radix,
            old(buf)@,
            final(buf)@,
            match r {
                Some(s) => Some(s@),
                None => None,
            },
        ),
{
    if !(radix >= 2 && radix <= 36) {
        return None;
    }
    let ghost value: int = signed_value(negative, mag as nat);
    let mut mag = mag;
    let ghost total_mag: nat = mag as nat;
    assert(total_mag == magnitude(value));
    let ghost r: nat = radix as nat;
    let mut digits: Vec<u8> = Vec::new();
    if mag == 0 {
        digits.push(0x30);
        proof {
            assert(digits@.reverse() =~= digits_of(0, r));
        }
    } else {
        while mag > 0
            invariant
                2 <= r <= 36,
                r == radix,
                total_mag > 0,
                mag > 0 ==> digits_of(total_mag, r) == digits_of(mag as nat, r)
                    + digits@.reverse(),
                mag == 0 ==> digits_of(total_mag, r) == digits@.reverse(),
            decreases mag,
        {
            let d = (mag % radix as u128) as u32;
            proof {
                lemma_digits_step(mag as nat, r);
                lemma_div_decreases(mag as int, r as int);
            }
            let ghost old_digits = digits@;
            digits.push(digit_byte(d));
            proof {
                assert(digits@.reverse() =~= seq![digit_char(mag as nat % r)]
                    + old_digits.reverse());
            }
            mag = mag / radix as u128;
        }
    }
    let len = digits.len();
    assert(digits@.reverse().len() == len);
    proof {
        lemma_u128_digits(total_mag, r);
    }
    let total = len + if negative {
        1usize
    } else {
        0usize
    };
    if buf.len() < total {
        return None;
    }
    let start = buf.len() - total;
    let mut idx = start;
    if negative {
        buf[idx] = 0x2D;
        idx += 1;
    }
    let ghost sign: Seq<u8> = if negative {
        seq![0x2Du8]
    } else {
        Seq::empty()
    };
    let ghost rd = digits@.reverse();
    let mut i = len;
    while i > 0
        invariant
            i <= len,
            len == digits@.len(),
            rd == digits@.reverse(),
            idx == start + sign.len() + (len - i),
            start + sign.len() + len == buf@.len(),
            buf@.len() == old(buf)@.len(),
            buf@.subrange(0, start as int) == old(buf)@.subrange(0, start as int),
            buf@.subrange(start as int, idx as int) == sign + rd.subrange(0, len - i),
        decreases i,
    {
        let ghost prev = buf@;
        buf[idx] = digits[i - 1];
        proof {
            let k = len - i;
            assert(buf@.subrange(0, start as int) =~= prev.subrange(0, start as int));
            assert(rd[k] == digits@[i - 1]);
            assert(buf@.subrange(start as int, idx as int) =~= prev.subrange(start as int, idx as int));
            assert(buf@.subrange(start as int, idx + 1) =~= prev.subrange(start as int, idx as int).push(rd[k]));
            assert(rd.subrange(0, k + 1) =~= rd.subrange(0, k).push(rd[k]));
            assert(sign + rd.subrange(0, k + 1) =~= (sign + rd.subrange(0, k)).push(rd[k]));
        }
        idx += 1;
        i -= 1;
    }
    proof {
        assert(rd.subrange(0, len as int) =~= rd);
        assert(buf@ =~= buf@.subrange(0, start as int) + buf@.subrange(start as int, buf@.len() as int));
        assert(formatted(value, r) =~= sign + rd);
    }
    let out: &[u8] = buf;
    Some(vstd::slice::slice_subrange(out, start, out.len()))
}

fn digit_of(b: u8) -> (r: Option<u32>)
    ensures
        r matches Some(d) ==> digit_value(b) == Some(d as nat),
        r is None ==> digit_value(b) is None,
{
    if b >= 0x30 && b <= 0x39 {
        Some((b - 0x30) as u32)
    } else if b >= 0x61 && b <= 0x7A {
        Some((b - 0x61 + 10) as u32)
    } else if b >= 0x41 && b <= 0x5A {
        Some((b - 0x41 + 10) as u32)
    } else {
        None
    }
}

proof fn lemma_digits_value_monotone(s: Seq<u8>, radix: nat, k: int)
    requires
        radix >= 1,
        0 <= k <= s.len(),
    ensures
        digits_value(s.take(k), radix) <= digits_value(s, radix),
    decreases s.len() - k,
{
    if k < s.len() {
        lemma_digits_value_monotone(s, radix, k + 1);
        let p = s.take(k + 1);
        assert(p.drop_last() =~= s.take(k));
        let v = digits_value(s.take(k), radix);
        lemma_mul_inequality(1, radix as int, v as int);
        assert(v * radix >= v) by (nonlinear_arith)
            requires
                radix >= 1,
        ;
    } else {
        assert(s.take(k) =~= s);
    }
}

/// Parse an optional sign and digits in `radix`; the value must fit in an
/// `i128`.
fn parse_integer(s: &[u8], radix: u32) -> (r: Option<i128>)
    ensures
        r matches Some(v) ==> parsed(s@, radix) == Some(v as int),
        r is None ==> parsed(s@, radix) is None,
{
    if !(radix >= 2 && radix <= 36) {
        return None;
    }
    if s.len() == 0 {
        return None;
    }
    let (negative, start): (bool, usize) = if s[0] == 0x2B {
        (false, 1)
    } else if s[0] == 0x2D {
        (true, 1)
    } else {
        (false, 0)
    };
    let ghost body = s@.skip(start as int);
    proof {
        if start == 0 {
            assert(body =~= s@);
        }
    }
    if s.len() - start == 0 {
        return None;
    }
    let limit: u128 = if negative {
        0x8000_0000_0000_0000_0000_0000_0000_0000u128
    } else {
        0x7FFF_FFFF_FFFF_FFFF_FFFF_FFFF_FFFF_FFFFu128
    };
    assert(limit == magnitude_limit(negative));
    let mut acc: u128 = 0;
    let mut i = start;
    let len = s.len();
    while i < len
        invariant
            start <= i <= len,
            len == s@.len(),
            body == s@.skip(start as int),
            s@.len() > 0,
            body.len() > 0,
            body == (if s@[0] == 0x2B || s@[0] == 0x2D {
                s@.skip(1)
            } else {
                s@
            }),
            negative == (s@[0] == 0x2D),
            limit == magnitude_limit(negative),
            2 <= radix <= 36,
            acc <= limit,
            acc == digits_value(body.take(i - start), radix as nat),
            all_digits(body.take(i - start), radix as nat),
        decreases len - i,
    {
        let ghost k = i - start;
        assert(body[k] == s@[i as int]);
        let b = s[i];
        let d = match digit_of(b) {
            Some(d) => d,
            None => {
                assert(digit_value(body[k]) is None);
                assert(!all_digits(body, radix as nat));
                return None;
            },
        };
        if d >= radix {
            assert(!all_digits(body, radix as nat));
            return None;
        }
        proof {
            let p = body.take(k + 1);
            assert(p.drop_last() =~= body.take(k));
            assert(p.last() == b);
            assert(all_digits(p, radix as nat));
            lemma_digits_value_monotone(body, radix as nat, k + 1);
        }
        let next = match acc.checked_mul(radix as u128) {
            Some(v) => match v.checked_add(d as u128) {
                Some(w) => w,
                None => {
                    return None;
                },
            },
            None => {
                proof {
                    assert(acc * radix > u128::MAX);
                }
                return None;
            },
        };
        if next > limit {
            return None;
        }
        acc = next;
        i += 1;
    }
    proof {
        assert(body.take(len - start) =~= body);
    }
    if negative {
        if acc == limit {
            Some(i128::MIN)
        } else {
            Some(-(acc as i128))
        }
    } else {
        Some(acc as i128)
    }
}

/// The bytes a formatting call handed back, as a sequence.
pub open spec fn written(r: Option<&[u8]>) -> Option<Seq<u8>> {
    match r {
        Some(s) => Some(s@),
        None => None,
    }
}

/// Integer types that can be formatted into a buffer.
pub trait Itoa: Copy {
    /// The value that gets formatted: the integer itself.
    spec fn spec_format_value(self) -> int;

    /// The magnitude of every value formatted is at most `2^128`.
    proof fn lemma_format_value_bound(self)
        ensures
            magnitude(self.spec_format_value()) <= u128::MAX + 1,
    ;

    /// Format `self` in `radix` (2..=36) into the end of `buf`; return the
    /// written tail.
    fn format<'a>(self, radix: u32, buf: &'a mut [u8]) -> (r: Option<&'a [u8]>)
        ensures
            format_outcome(self.spec_format_value(), radix, old(buf)@, final(buf)@, written(r)),
    ;
}

/// Integer types that can be parsed from ASCII bytes.
pub trait FromAscii: Sized {
    /// Whether `v` is a value of this type.
    spec fn spec_in_range(v: int) -> bool;

    /// The value of `self` as an integer.
    spec fn spec_parse_value(self) -> int;

    /// Parse `s` (optional sign, digits in `radix`) into the value; `None`
    /// when the text is malformed or the value does not fit this type.
    fn parse(s: &[u8], radix: u32) -> (r: Option<Self>)
        ensures
            r is Some <==> (parsed(s@, radix) is Some && Self::spec_in_range(
                parsed(s@, radix).unwrap(),
            )),
            r matches Some(x) ==> x.spec_parse_value() == parsed(s@, radix).unwrap(),
    ;
}

impl Itoa for i8 {
    open spec fn spec_format_value(self) -> int {
        self as int
    }

    proof fn lemma_format_value_bound(self) {
    }

    fn format<'a>(self, radix: u32, buf: &'a mut [u8]) -> (r: Option<&'a [u8]>) {
        let (negative, mag) = sign_and_magnitude(self as i128);
        format_integer(negative, mag, radix, buf)
    }
}

impl FromAscii for i8 {
    open spec fn spec_in_range(v: int) -> bool {
        i8::MIN <= v <= i8::MAX
    }

    open spec fn spec_parse_value(self) -> int {
        self as int
    }

    fn parse(s: &[u8], radix: u32) -> (r: Option<Self>) {
        let v = parse_integer(s, radix)?;
        if v >= i8::MIN as i128 && v <= i8::MAX as i128 {
            Some(v as i8)
        } else {
            None
        }
    }
}

impl Itoa for i16 {
    open spec fn spec_format_value(self) -> int {
        self as int
    }

    proof fn lemma_format_value_bound(self) {
    }

    fn format<'a>(self, radix: u32, buf: &'a mut [u8]) -> (r: Option<&'a [u8]>) {
        let (negative, mag) = sign_and_magnitude(self as i128);
        format_integer(negative, mag, radix, buf)
    }
}

impl FromAscii for i16 {
    open spec fn spec_in_range(v: int) -> bool {
        i16::MIN <= v <= i16::MAX
    }

    open spec fn spec_parse_value(self) -> int {
        self as int
    }

    fn parse(s: &[u8], radix: u32) -> (r: Option<Self>) {
        let v = parse_integer(s, radix)?;
        if v >= i16::MIN as i128 && v <= i16::MAX as i128 {
            Some(v as i16)
        } else {
            None
        }
    }
}

impl Itoa for i32 {
    open spec fn spec_format_value(self) -> int {
        self as int
    }

    proof fn lemma_format_value_bound(self) {
    }

    fn format<'a>(self, radix: u32, buf: &'a mut [u8]) -> (r: Option<&'a [u8]>) {
        let (negative, mag) = sign_and_magnitude(self as i128);
        format_integer(negative, mag, radix, buf)
    }
}

impl FromAscii for i32 {
    open spec fn spec_in_range(v: int) -> bool {
        i32::MIN <= v <= i32::MAX
    }

    open spec fn spec_parse_value(self) -> int {
        self as int
    }

    fn parse(s: &[u8], radix: u32) -> (r: Option<Self>) {
        let v = parse_integer(s, radix)?;
        if v >= i32::MIN as i128 && v <= i32::MAX as i128 {
            Some(v as i32)
        } else {
            None
        }
    }
}

impl Itoa for i64 {
    open spec fn spec_format_value(self) -> int {
        self as int
    }

    proof fn lemma_format_value_bound(self) {
    }

    fn format<'a>(self, radix: u32, buf: &'a mut [u8]) -> (r: Option<&'a [u8]>) {
        let (negative, mag) = sign_and_magnitude(self as i128);
        format_integer(negative, mag, radix, buf)
    }
}

impl FromAscii for i64 {
    open spec fn spec_in_range(v: int) -> bool {
        i64::MIN <= v <= i64::MAX
    }

    open spec fn spec_parse_value(self) -> int {
        self as int
    }

    fn parse(s: &[u8], radix: u32) -> (r: Option<Self>) {
        let v = parse_integer(s, radix)?;
        if v >= i64::MIN as i128 && v <= i64::MAX as i128 {
            Some(v as i64)
        } else {
            None
        }
    }
}

impl Itoa for i128 {
    open spec fn spec_format_value(self) -> int {
        self as int
    }

    proof fn lemma_format_value_bound(self) {
    }

    fn format<'a>(self, radix: u32, buf: &'a mut [u8]) -> (r: Option<&'a [u8]>) {
        let (negative, mag) = sign_and_magnitude(self as i128);
        format_integer(negative, mag, radix, buf)
    }
}

impl FromAscii for i128 {
    open spec fn spec_in_range(v: int) -> bool {
        i128::MIN <= v <= i128::MAX
    }

    open spec fn spec_parse_value(self) -> int {
        self as int
    }

    fn parse(s: &[u8], radix: u32) -> (r: Option<Self>) {
        let v = parse_integer(s, radix)?;
        if v >= i128::MIN as i128 && v <= i128::MAX as i128 {
            Some(v as i128)
        } else {
            None
        }
    }
}

impl Itoa for isize {
    open spec fn spec_format_value(self) -> int {
        self as int
    }

    proof fn lemma_format_value_bound(self) {
    }

    fn format<'a>(self, radix: u32, buf: &'a mut [u8]) -> (r: Option<&'a [u8]>) {
        let (negative, mag) = sign_and_magnitude(self as i128);
        format_integer(negative, mag, radix, buf)
    }
}

impl FromAscii for isize {
    open spec fn spec_in_range(v: int) -> bool {
        isize::MIN <= v <= isize::MAX
    }

    open spec fn spec_parse_value(self) -> int {
        self as int
    }

    fn parse(s: &[u8], radix: u32) -> (r: Option<Self>) {
        let v = parse_integer(s, radix)?;
        if v >= isize::MIN as i128 && v <= isize::MAX as i128 {
            Some(v as isize)
        } else {
            None
        }
    }
}

impl Itoa for u8 {
    open spec fn spec_format_value(self) -> int {
        self as int
    }

    proof fn lemma_format_value_bound(self) {
    }

    fn format<'a>(self, radix: u32, buf: &'a mut [u8]) -> (r: Option<&'a [u8]>) {
        format_integer(false, self as u128, radix, buf)
    }
}

impl FromAscii for u8 {
    open spec fn spec_in_range(v: int) -> bool {
        0 <= v <= u8::MAX
    }

    open spec fn spec_parse_value(self) -> int {
        self as int
    }

    fn parse(s: &[u8], radix: u32) -> (r: Option<Self>) {
        let v = parse_integer(s, radix)?;
        if v >= 0 as i128 && v <= u8::MAX as i128 {
            Some(v as u8)
        } else {
            None
        }
    }
}

impl Itoa for u16 {
    open spec fn spec_format_value(self) -> int {
        self as int
    }

    proof fn lemma_format_value_bound(self) {
    }

    fn format<'a>(self, radix: u32, buf: &'a mut [u8]) -> (r: Option<&'a [u8]>) {
        format_integer(false, self as u128, radix, buf)
    }
}

impl FromAscii for u16 {
    open spec fn spec_in_range(v: int) -> bool {
        0 <= v <= u16::MAX
    }

    open spec fn spec_parse_value(self) -> int {
        self as int
    }

    fn parse(s: &[u8], radix: u32) -> (r: Option<Self>) {
        let v = parse_integer(s, radix)?;
        if v >= 0 as i128 && v <= u16::MAX as i128 {
            Some(v as u16)
        } else {
            None
        }
    }
}

impl Itoa for u32 {
    open spec fn spec_format_value(self) -> int {
        self as int
    }

    proof fn lemma_format_value_bound(self) {
    }

    fn format<'a>(self, radix: u32, buf: &'a mut [u8]) -> (r: Option<&'a [u8]>) {
        format_integer(false, self as u128, radix, buf)
    }
}

impl FromAscii for u32 {
    open spec fn spec_in_range(v: int) -> bool {
        0 <= v <= u32::MAX
    }

    open spec fn spec_parse_value(self) -> int {
        self as int
    }

    fn parse(s: &[u8], radix: u32) -> (r: Option<Self>) {
        let v = parse_integer(s, radix)?;
        if v >= 0 as i128 && v <= u32::MAX as i128 {
            Some(v as u32)
        } else {
            None
        }
    }
}

impl Itoa for u64 {
    open spec fn spec_format_value(self) -> int {
        self as int
    }

    proof fn lemma_format_value_bound(self) {
    }

    fn format<'a>(self, radix: u32, buf: &'a mut [u8]) -> (r: Option<&'a [u8]>) {
        format_integer(false, self as u128, radix, buf)
    }
}

impl FromAscii for u64 {
    open spec fn spec_in_range(v: int) -> bool {
        0 <= v <= u64::MAX
    }

    open spec fn spec_parse_value(self) -> int {
        self as int
    }

    fn parse(s: &[u8], radix: u32) -> (r: Option<Self>) {
        let v = parse_integer(s, radix)?;
        if v >= 0 as i128 && v <= u64::MAX as i128 {
            Some(v as u64)
        } else {
            None
        }
    }
}

impl Itoa for u128 {
    open spec fn spec_format_value(self) -> int {
        self as int
    }

    proof fn lemma_format_value_bound(self) {
    }

    fn format<'a>(self, radix: u32, buf: &'a mut [u8]) -> (r: Option<&'a [u8]>) {
        format_integer(false, self, radix, buf)
    }
}

impl FromAscii for u128 {
    open spec fn spec_in_range(v: int) -> bool {
        0 <= v <= u128::MAX
    }

    open spec fn spec_parse_value(self) -> int {
        self as int
    }

    fn parse(s: &[u8], radix: u32) -> (r: Option<Self>) {
        let v = parse_integer(s, radix)?;
        if v >= 0 {
            Some(v as u128)
        } else {
            None
        }
    }
}

impl Itoa for usize {
    open spec fn spec_format_value(self) -> int {
        self as int
    }

    proof fn lemma_format_value_bound(self) {
    }

    fn format<'a>(self, radix: u32, buf: &'a mut [u8]) -> (r: Option<&'a [u8]>) {
        format_integer(false, self as u128, radix, buf)
    }
}

impl FromAscii for usize {
    open spec fn spec_in_range(v: int) -> bool {
        0 <= v <= usize::MAX
    }

    open spec fn spec_parse_value(self) -> int {
        self as int
    }

    fn parse(s: &[u8], radix: u32) -> (r: Option<Self>) {
        let v = parse_integer(s, radix)?;
        if v >= 0 as i128 && v <= usize::MAX as i128 {
            Some(v as usize)
        } else {
            None
        }
    }
}

/// Format `value` in `radix` (2..=36) into `buf`, returning the slice of `buf`
/// that was written (its tail). Returns `None` if `buf` is too small or
/// `radix` is invalid.
pub fn format_int<'a, T: Itoa>(value: T, radix: u32, buf: &'a mut [u8]) -> (r: Option<&'a [u8]>)
    ensures
        format_outcome(value.spec_format_value(), radix, old(buf)@, final(buf)@, written(r)),
{
    value.format(radix, buf)
}

/// Parse an integer from `s` in `radix` (2..=36).
///
/// Accepts an optional leading `+`/`-`. Leading/trailing whitespace is *not*
/// trimmed.
pub fn parse_int<T: FromAscii>(s: &[u8], radix: u32) -> (r: Option<T>)
    ensures
        r is Some <==> (parsed(s@, radix) is Some && T::spec_in_range(parsed(s@, radix).unwrap())),
        r matches Some(x) ==> x.spec_parse_value() == parsed(s@, radix).unwrap(),
{
    T::parse(s, radix)
}

proof fn lemma_digit_char_value(d: nat)
    requires
        d < 36,
    ensures
        digit_value(digit_char(d)) == Some(d),
        digit_char(d) >= 0x30,
{
}

proof fn lemma_digits_of_value(m: nat, radix: nat)
    requires
        2 <= radix <= 36,
    ensures
        digits_of(m, radix).len() > 0,
        all_digits(digits_of(m, radix), radix),
        digits_value(digits_of(m, radix), radix) == m,
        digits_of(m, radix)[0] >= 0x30,
    decreases m,
{
    let d = digits_of(m, radix);
    if m < radix {
        lemma_digit_char_value(m);
        assert(d.drop_last() =~= Seq::<u8>::empty());
        assert(d.last() == digit_char(m));
        assert(digits_value(Seq::<u8>::empty(), radix) == 0);
        assert(0 * radix == 0);
    } else {
        lemma_div_decreases(m as int, radix as int);
        lemma_digits_of_value(m / radix, radix);
        lemma_mod_bound(m as int, radix as int);
        lemma_digit_char_value(m % radix);
        let p = digits_of(m / radix, radix);
        assert(d.drop_last() =~= p);
        lemma_fundamental_div_mod(m as int, radix as int);
        assert forall|i: int| 0 <= i < d.len() implies (#[trigger] digit_value(d[i]) matches Some(
            dd,
        ) && dd < radix) by {
            if i < p.len() {
                assert(d[i] == p[i]);
            }
        }
        assert(d.last() == digit_char(m % radix));
        assert(digits_value(d, radix) == digits_value(p, radix) * radix + m % radix);
        let q = m / radix;
        let r = m % radix;
        assert(q * radix + r == m) by (nonlinear_arith)
            requires
                m == radix * q + r,
        ;
    }
}

/// Parsing undoes formatting: for every valid radix and every value of an
/// `i128`, parsing the formatted text gives back the value.
pub proof fn lemma_parse_format_roundtrip(v: int, radix: u32)
    requires
        radix_ok(radix),
        i128::MIN <= v <= i128::MAX,
    ensures
        parsed(formatted(v, radix as nat), radix) == Some(v),
{
    let r = radix as nat;
    let m = magnitude(v);
    lemma_digits_of_value(m, r);
    let d = digits_of(m, r);
    let f = formatted(v, r);
    if v < 0 {
        assert(f.skip(1) =~= d);
    }
}

/// Whether `c` is a lowercase digit below `radix`: `0`-`9`, then `a`-`z`.
pub open spec fn lower_digit(c: u8, radix: nat) -> bool {
    ((0x30 <= c <= 0x39) && c - 0x30 < radix) || ((0x61 <= c <= 0x7A) && c - 0x61 + 10 < radix)
}

proof fn lemma_digits_of_shape(m: nat, radix: nat)
    requires
        2 <= radix <= 36,
    ensures
        digits_of(m, radix).len() > 0,
        forall|i: int|
            0 <= i < digits_of(m, radix).len() ==> lower_digit(#[trigger] digits_of(m, radix)[i], radix),
        digits_of(m, radix)[0] == 0x30 ==> m == 0,
    decreases m,
{
    if m >= radix {
        lemma_div_decreases(m as int, radix as int);
        lemma_digits_of_shape(m / radix, radix);
        lemma_mod_bound(m as int, radix as int);
        let p = digits_of(m / radix, radix);
        let d = digits_of(m, radix);
        assert forall|i: int| 0 <= i < d.len() implies lower_digit(#[trigger] d[i], radix) by {
            if i < p.len() {
                assert(d[i] == p[i]);
            }
        }
        assert(d[0] == p[0]);
        lemma_digits_step(m, radix);
    }
}

/// What the formatter writes: a `-` exactly for negative values, then the
/// digits of the magnitude in lowercase (`0`-`9`, `a`-`z`), each below the
/// radix, with no leading zero unless the value is zero.
pub proof fn lemma_formatted_shape(v: int, radix: u32)
    requires
        radix_ok(radix),
    ensures
        ({
            let f = formatted(v, radix as nat);
            let d = if v < 0 { f.skip(1) } else { f };
            &&& f.len() > 0
            &&& (f[0] == 0x2D) == (v < 0)
            &&& d.len() > 0
            &&& forall|i: int| 0 <= i < d.len() ==> lower_digit(#[trigger] d[i], radix as nat)
            &&& d[0] == 0x30 ==> v == 0
        }),
{
    let m = magnitude(v);
    lemma_digits_of_shape(m, radix as nat);
    let f = formatted(v, radix as nat);
    if v < 0 {
        assert(f.skip(1) =~= digits_of(m, radix as nat));
    } else {
        let d = digits_of(m, radix as nat);
        assert(lower_digit(d[0], radix as nat));
    }
}

/// `s` with its lowercase ASCII letters made uppercase.
pub open spec fn ascii_upper(s: Seq<u8>) -> Seq<u8> {
    Seq::new(s.len(), |i: int| if 0x61 <= s[i] <= 0x7A { (s[i] - 32) as u8 } else { s[i] })
}

proof fn lemma_digits_value_same(a: Seq<u8>, b: Seq<u8>, radix: nat)
    requires
        a.len() == b.len(),
        forall|i: int| 0 <= i < a.len() ==> digit_value(#[trigger] a[i]) == digit_value(b[i]),
    ensures
        digits_value(a, radix) == digits_value(b, radix),
    decreases a.len(),
{
    if a.len() > 0 {
        assert(digit_value(a.last()) == digit_value(b.last()));
        lemma_digits_value_same(a.drop_last(), b.drop_last(), radix);
    }
}

/// Parsing is blind to letter case: a text and its uppercase form spell the
/// same integer, or are both refused.
pub proof fn lemma_parse_case_blind(s: Seq<u8>, radix: u32)
    ensures
        parsed(ascii_upper(s), radix) == parsed(s, radix),
{
    let u = ascii_upper(s);
    if radix_ok(radix) && s.len() > 0 {
        let body = if s[0] == 0x2B || s[0] == 0x2D { s.skip(1) } else { s };
        let ubody = if u[0] == 0x2B || u[0] == 0x2D { u.skip(1) } else { u };
        assert(u[0] == 0x2B <==> s[0] == 0x2B);
        assert(u[0] == 0x2D <==> s[0] == 0x2D);
        assert(ubody.len() == body.len());
        assert forall|i: int| 0 <= i < body.len() implies digit_value(#[trigger] ubody[i])
            == digit_value(body[i]) by {
            if s[0] == 0x2B || s[0] == 0x2D {
                assert(ubody[i] == u[i + 1] && body[i] == s[i + 1]);
            } else {
                assert(ubody[i] == u[i] && body[i] == s[i]);
            }
        }
        lemma_digits_value_same(ubody, body, radix as nat);
        assert(all_digits(ubody, radix as nat) == all_digits(body, radix as nat)) by {
            if all_digits(body, radix as nat) {
                assert forall|i: int| 0 <= i < ubody.len() implies (#[trigger] digit_value(ubody[i])
                    matches Some(d) && d < radix) by {
                    assert(digit_value(ubody[i]) == digit_value(body[i]));
                }
            }
            if all_digits(ubody, radix as nat) {
                assert forall|i: int| 0 <= i < body.len() implies (#[trigger] digit_value(body[i])
                    matches Some(d) && d < radix) by {
                    assert(digit_value(ubody[i]) == digit_value(body[i]));
                }
            }
        }
    }
}

/// A number below `2^k` (with `k >= 1`) has at most `k` digits in any radix
/// of at least 2.
proof fn lemma_digits_len_bound(m: nat, radix: nat, k: nat)
    requires
        2 <= radix,
        1 <= k,
        m < pow2(k),
    ensures
        digits_of(m, radix).len() <= k,
    decreases m,
{
    if m >= radix {
        lemma_pow2_unfold(k);
        if k == 1 {
            assert(pow2(0) == 1) by {
                lemma_pow0(2);
            }
            assert(false);
        }
        let h = (k - 1) as nat;
        assert(pow2(k) == 2 * pow2(h));
        lemma_div_is_ordered_by_denominator(m as int, 2, radix as int);
        lemma_multiply_divide_lt(m as int, 2, pow2(h) as int);
        lemma_div_decreases(m as int, radix as int);
        lemma_div_pos_is_pos(m as int, radix as int);
        lemma_digits_len_bound(m / radix, radix, h);
    }
}

/// Every `u128`, and the magnitude of every `i128`, has at most 128 digits.
proof fn lemma_u128_digits(m: nat, radix: nat)
    requires
        2 <= radix,
        m <= u128::MAX + 1,
    ensures
        digits_of(m, radix).len() <= 129,
{
    lemma2_to64_rest();
    lemma_pow2_adds(64, 64);
    lemma_pow2_unfold(129);
    assert(pow2(129) == 2 * pow2(128));
    assert(m < pow2(129));
    lemma_digits_len_bound(m, radix, 129);
}

/// Format an integer, returning a `String`; `None` when `radix` is invalid.
pub fn format_int_to_string<T: Itoa>(value: T, radix: u32) -> (r: Option<String>)
    ensures
        r is Some <==> radix_ok(radix),
        r matches Some(s) ==> s@ == text_of(formatted(value.spec_format_value(), radix as nat)),
{
    proof {
        if radix_ok(radix) {
            value.lemma_format_value_bound();
            lemma_u128_digits(magnitude(value.spec_format_value()), radix as nat);
        }
    }
    let mut buf: Vec<u8> = vec![0u8; 130];
    let written = value.format(radix, buf.as_mut_slice())?;
    Some(string_from_bytes_or_empty(written))
}

} // verus!
