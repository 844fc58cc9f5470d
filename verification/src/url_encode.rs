//! Percent-encoding and decoding (RFC 3986) into caller-provided buffers.
//!
//! Bytes in the RFC 3986 unreserved set (`A-Z a-z 0-9 - _ . ~`) are never
//! encoded; the [`EncodeSet`] chooses which further bytes are kept. Decoding
//! turns each `%XX` (two hex digits, either case) back into its byte and copies
//! any other byte, a malformed `%` included, through unchanged.
use vstd::prelude::*;
use crate::text::{string_from_bytes_or_empty, text_of};

verus! {

/// Encode-set selector controlling aggressiveness.
#[derive(Clone, Copy, Debug, PartialEq, Eq, Structural)]
pub enum EncodeSet {
    /// Encode everything except the RFC 3986 unreserved set.
    Full,
    /// Encode everything except the unreserved set plus `/ : @` (path-like).
    Component,
    /// Encode everything except the unreserved set plus common query chars.
    Query,
}

/// ASCII letters and digits.
pub open spec fn is_alnum(b: u8) -> bool {
    (0x30 <= b <= 0x39) || (0x41 <= b <= 0x5A) || (0x61 <= b <= 0x7A)
}

/// The RFC 3986 unreserved set.
pub open spec fn unreserved(b: u8) -> bool {
    is_alnum(b) || b == 0x2D || b == 0x5F || b == 0x2E || b == 0x7E
}

/// Bytes that `set` leaves as they are.
pub open spec fn kept_by(set: EncodeSet, b: u8) -> bool {
    match set {
        EncodeSet::Full => unreserved(b),
        EncodeSet::Component => unreserved(b) || b == 0x2F || b == 0x3A || b == 0x40,
        EncodeSet::Query => unreserved(b) || b == 0x2F || b == 0x3A || b == 0x40 || b == 0x26
            || b == 0x3D || b == 0x2B || b == 0x2C || b == 0x3B || b == 0x2A || b == 0x27,
    }
}

/// Upper-case hex digit for a nibble `v < 16`.
pub open spec fn spec_hex_digit(v: u8) -> u8 {
    if v < 10 { (0x30 + v) as u8 } else { (0x41 + (v - 10)) as u8 }
}

/// Value of a hex digit of either case.
pub open spec fn spec_hex_val(b: u8) -> Option<u8> {
    if 0x30 <= b <= 0x39 {
        Some((b - 0x30) as u8)
    } else if 0x61 <= b <= 0x66 {
        Some((b - 0x61 + 10) as u8)
    } else if 0x41 <= b <= 0x46 {
        Some((b - 0x41 + 10) as u8)
    } else {
        None
    }
}

/// What one input byte becomes under `set`: itself, or `%` and two hex digits.
pub open spec fn encode_byte(set: EncodeSet, b: u8) -> Seq<u8> {
    if kept_by(set, b) {
        seq![b]
    } else {
        seq![0x25u8, spec_hex_digit(b >> 4), spec_hex_digit(b & 0x0F)]
    }
}

/// The percent-encoding of `s` under `set`.
pub open spec fn encoded(set: EncodeSet, s: Seq<u8>) -> Seq<u8>
    decreases s.len(),
{
    if s.len() == 0 {
        Seq::empty()
    } else {
        encode_byte(set, s[0]) + encoded(set, s.skip(1))
    }
}

/// Whether `s` starts with a well-formed `%XX` escape.
pub open spec fn starts_with_escape(s: Seq<u8>) -> bool {
    s.len() >= 3 && s[0] == 0x25 && spec_hex_val(s[1]) is Some && spec_hex_val(s[2]) is Some
}

/// The percent-decoding of `s`: each well-formed `%XX` becomes one byte, any
/// other byte is copied.
pub open spec fn decoded(s: Seq<u8>) -> Seq<u8>
    decreases s.len(),
{
    if s.len() == 0 {
        Seq::empty()
    } else if starts_with_escape(s) {
        seq![((spec_hex_val(s[1]).unwrap() << 4) | spec_hex_val(s[2]).unwrap()) as u8]
            + decoded(s.skip(3))
    } else {
        seq![s[0]] + decoded(s.skip(1))
    }
}

fn is_unreserved(b: u8) -> (r: bool)
    ensures
        r == unreserved(b),
{
    (b >= 0x30 && b <= 0x39) || (b >= 0x41 && b <= 0x5A) || (b >= 0x61 && b <= 0x7A) || b == 0x2D
        || b == 0x5F || b == 0x2E || b == 0x7E
}

fn is_component_ok(b: u8) -> (r: bool)
    ensures
        r == kept_by(EncodeSet::Component, b),
{
    is_unreserved(b) || b == 0x2F || b == 0x3A || b == 0x40
}

fn is_query_ok(b: u8) -> (r: bool)
    ensures
        r == kept_by(EncodeSet::Query, b),
{
    is_unreserved(b) || b == 0x2F || b == 0x3A || b == 0x40 || b == 0x26 || b == 0x3D || b == 0x2B
        || b == 0x2C || b == 0x3B || b == 0x2A || b == 0x27
}

impl EncodeSet {
    fn keep(&self, b: u8) -> (r: bool)
        ensures
            r == kept_by(*self, b),
    {
        match self {
            EncodeSet::Full => is_unreserved(b),
            EncodeSet::Component => is_component_ok(b),
            EncodeSet::Query => is_query_ok(b),
        }
    }
}

fn hex_digit(v: u8) -> (r: u8)
    requires
        v < 16,
    ensures
        r == spec_hex_digit(v),
{
    if v < 10 {
        0x30 + v
    } else {
        0x41 + (v - 10)
    }
}

fn hex_val(b: u8) -> (r: Option<u8>)
    ensures
        r == spec_hex_val(b),
{
    if b >= 0x30 && b <= 0x39 {
        Some(b - 0x30)
    } else if b >= 0x61 && b <= 0x66 {
        Some(b - 0x61 + 10)
    } else if b >= 0x41 && b <= 0x46 {
        Some(b - 0x41 + 10)
    } else {
        None
    }
}

proof fn lemma_encoded_skip(set: EncodeSet, s: Seq<u8>, i: int)
    requires
        0 <= i < s.len(),
    ensures
        encoded(set, s.skip(i)) == encode_byte(set, s[i]) + encoded(set, s.skip(i + 1)),
{
    assert(s.skip(i).skip(1) =~= s.skip(i + 1));
}

/// Encode `input` bytes into `out`, returning the number of bytes written.
/// Returns `None` if `out` is too small.
pub fn percent_encode_into(input: &[u8], set: EncodeSet, out: &mut [u8]) -> (r: Option<usize>)
    ensures
        final(out)@.len() == old(out)@.len(),
        r is None <==> encoded(set, input@).len() > old(out)@.len(),
        r matches Some(n) ==> n == encoded(set, input@).len() && final(out)@.subrange(0, n as int)
            == encoded(set, input@) && final(out)@.subrange(n as int, old(out)@.len() as int)
            == old(out)@.subrange(n as int, old(out)@.len() as int),
{
    let mut n = 0usize;
    let mut i = 0usize;
    let len = input.len();
    proof {
        assert(input@.skip(0) =~= input@);
    }
    while i < len
        invariant
            len == input@.len(),
            0 <= i <= len,
            n <= out@.len(),
            out@.len() == old(out)@.len(),
            out@.subrange(0, n as int) + encoded(set, input@.skip(i as int)) == encoded(
                set,
                input@,
            ),
            forall|j: int| n <= j < out@.len() ==> out@[j] == old(out)@[j],
        decreases len - i,
    {
        let b = input[i];
        proof {
            lemma_encoded_skip(set, input@, i as int);
            lemma_encoded_len_ge(set, input@.skip(i as int + 1));
        }
        if set.keep(b) {
            if n >= out.len() {
                return None;
            }
            let ghost prev = out@;
            out[n] = b;
            proof {
                assert(out@.subrange(0, n + 1) =~= prev.subrange(0, n as int) + seq![b]);
            }
            n += 1;
        } else {
            if out.len() - n < 3 {
                return None;
            }
            let ghost prev = out@;
            proof {
                assert(b >> 4 < 16) by (bit_vector);
                assert(b & 0x0F < 16) by (bit_vector);
            }
            out[n] = 0x25;
            out[n + 1] = hex_digit(b >> 4);
            out[n + 2] = hex_digit(b & 0x0F);
            proof {
                assert(b >> 4 < 16) by (bit_vector);
                assert(b & 0x0F < 16) by (bit_vector);
                assert(out@.subrange(0, n + 3) =~= prev.subrange(0, n as int) + encode_byte(set, b));
            }
            n += 3;
        }
        i += 1;
        proof {
            assert(out@.subrange(0, n as int) + encoded(set, input@.skip(i as int)) =~= encoded(
                set,
                input@,
            ));
        }
    }
    proof {
        assert(input@.skip(len as int) =~= Seq::<u8>::empty());
        assert(out@.subrange(0, n as int) + Seq::<u8>::empty() =~= out@.subrange(0, n as int));
        assert(out@.subrange(n as int, out@.len() as int) =~= old(out)@.subrange(
            n as int,
            old(out)@.len() as int,
        ));
    }
    Some(n)
}

proof fn lemma_encoded_len_ge(set: EncodeSet, s: Seq<u8>)
    ensures
        encoded(set, s).len() >= s.len(),
    decreases s.len(),
{
    if s.len() > 0 {
        lemma_encoded_len_ge(set, s.skip(1));
    }
}

proof fn lemma_decoded_len_le(s: Seq<u8>)
    ensures
        decoded(s).len() <= s.len(),
    decreases s.len(),
{
    if s.len() > 0 {
        if starts_with_escape(s) {
            lemma_decoded_len_le(s.skip(3));
        } else {
            lemma_decoded_len_le(s.skip(1));
        }
    }
}

/// Decode percent-encoded `input` into `out`, returning the number of bytes
/// written. Returns `None` if `out` is too small. A malformed `%` escape is
/// copied through verbatim (lenient).
pub fn percent_decode_into(input: &[u8], out: &mut [u8]) -> (r: Option<usize>)
    ensures
        final(out)@.len() == old(out)@.len(),
        r is None <==> decoded(input@).len() > old(out)@.len(),
        r matches Some(n) ==> n == decoded(input@).len() && final(out)@.subrange(0, n as int)
            == decoded(input@) && final(out)@.subrange(n as int, old(out)@.len() as int)
            == old(out)@.subrange(n as int, old(out)@.len() as int),
{
    let mut n = 0usize;
    let mut i = 0usize;
    let len = input.len();
    proof {
        assert(input@.skip(0) =~= input@);
    }
    while i < len
        invariant
            len == input@.len(),
            0 <= i <= len,
            n <= out@.len(),
            out@.len() == old(out)@.len(),
            out@.subrange(0, n as int) + decoded(input@.skip(i as int)) == decoded(input@),
            forall|j: int| n <= j < out@.len() ==> out@[j] == old(out)@[j],
        decreases len - i,
    {
        let ghost rest = input@.skip(i as int);
        let b = input[i];
        if b == 0x25 && len - i > 2 {
            let hi = hex_val(input[i + 1]);
            let lo = hex_val(input[i + 2]);
            if let (Some(h), Some(l)) = (hi, lo) {
                proof {
                    assert(starts_with_escape(rest));
                    assert(rest.skip(3) =~= input@.skip(i + 3));
                    lemma_decoded_len_le(input@.skip(i + 3));
                }
                if n >= out.len() {
                    return None;
                }
                let ghost prev = out@;
                out[n] = (h << 4) | l;
                proof {
                    assert(out@.subrange(0, n + 1) =~= prev.subrange(0, n as int) + seq![
                        ((h << 4) | l) as u8,
                    ]);
                }
                n += 1;
                i += 3;
                proof {
                    assert(out@.subrange(0, n as int) + decoded(input@.skip(i as int)) =~= decoded(
                        input@,
                    ));
                }
                continue;
            }
        }
        proof {
            assert(!starts_with_escape(rest));
            assert(rest.skip(1) =~= input@.skip(i + 1));
            lemma_decoded_len_le(input@.skip(i + 1));
        }
        if n >= out.len() {
            return None;
        }
        let ghost prev = out@;
        out[n] = b;
        proof {
            assert(out@.subrange(0, n + 1) =~= prev.subrange(0, n as int) + seq![b]);
        }
        n += 1;
        i += 1;
        proof {
            assert(out@.subrange(0, n as int) + decoded(input@.skip(i as int)) =~= decoded(input@));
        }
    }
    proof {
        assert(input@.skip(len as int) =~= Seq::<u8>::empty());
        assert(out@.subrange(0, n as int) + Seq::<u8>::empty() =~= out@.subrange(0, n as int));
        assert(out@.subrange(n as int, out@.len() as int) =~= old(out)@.subrange(
            n as int,
            old(out)@.len() as int,
        ));
    }
    Some(n)
}

/// Each byte encodes to at most three bytes.
proof fn lemma_encoded_len(set: EncodeSet, s: Seq<u8>)
    ensures
        encoded(set, s).len() <= 3 * s.len(),
    decreases s.len(),
{
    if s.len() > 0 {
        lemma_encoded_len(set, s.skip(1));
    }
}

/// Decoding never lengthens the text.
proof fn lemma_decoded_len(s: Seq<u8>)
    ensures
        decoded(s).len() <= s.len(),
    decreases s.len(),
{
    if s.len() > 0 {
        if starts_with_escape(s) {
            lemma_decoded_len(s.skip(3));
        } else {
            lemma_decoded_len(s.skip(1));
        }
    }
}

/// Percent-encode `input`, returning a `String`.
pub fn encode(input: &[u8], set: EncodeSet) -> (r: String)
    requires
        3 * input@.len() + 1 <= usize::MAX,
    ensures
        r@ == text_of(encoded(set, input@)),
{
    proof {
        lemma_encoded_len(set, input@);
    }
    let cap = input.len() * 3 + 1;
    let mut buf: Vec<u8> = vec![0u8; cap];
    let n = match percent_encode_into(input, set, buf.as_mut_slice()) {
        Some(n) => n,
        None => 0,
    };
    let written = vstd::slice::slice_subrange(buf.as_slice(), 0, n);
    string_from_bytes_or_empty(written)
}

/// Percent-decode `input`, returning a `String`. A decoding that is not
/// well-formed UTF-8 gives the empty string.
pub fn decode(input: &[u8]) -> (r: String)
    ensures
        r@ == text_of(decoded(input@)),
{
    proof {
        lemma_decoded_len(input@);
    }
    let mut buf: Vec<u8> = vec![0u8; input.len()];
    let n = match percent_decode_into(input, buf.as_mut_slice()) {
        Some(n) => n,
        None => 0,
    };
    let written = vstd::slice::slice_subrange(buf.as_slice(), 0, n);
    string_from_bytes_or_empty(written)
}

/// Whether `s` is made only of unreserved bytes and well-formed `%XX` escapes.
pub open spec fn well_formed_encoding(s: Seq<u8>) -> bool
    decreases s.len(),
{
    if s.len() == 0 {
        true
    } else if s[0] == 0x25 {
        starts_with_escape(s) && well_formed_encoding(s.skip(3))
    } else {
        unreserved(s[0]) && well_formed_encoding(s.skip(1))
    }
}

proof fn lemma_hex_digit_val(v: u8)
    requires
        v < 16,
    ensures
        spec_hex_val(spec_hex_digit(v)) == Some(v),
{
}

proof fn lemma_escape_decodes(b: u8)
    ensures
        spec_hex_val(spec_hex_digit(b >> 4)) == Some(b >> 4),
        spec_hex_val(spec_hex_digit(b & 0x0F)) == Some(b & 0x0F),
        (((b >> 4) << 4) | (b & 0x0F)) as u8 == b,
{
    assert(b >> 4 < 16) by (bit_vector);
    assert(b & 0x0F < 16) by (bit_vector);
    lemma_hex_digit_val(b >> 4);
    lemma_hex_digit_val(b & 0x0F);
    assert((((b >> 4) << 4) | (b & 0x0F)) as u8 == b) by (bit_vector);
}

/// Decoding undoes encoding: for every encode set and every input,
/// percent-decoding the percent-encoding of `s` gives back `s`.
pub proof fn lemma_decode_encode_roundtrip(set: EncodeSet, s: Seq<u8>)
    ensures
        decoded(encoded(set, s)) == s,
    decreases s.len(),
{
    if s.len() > 0 {
        let b = s[0];
        let rest = encoded(set, s.skip(1));
        let e = encode_byte(set, b) + rest;
        lemma_decode_encode_roundtrip(set, s.skip(1));
        if kept_by(set, b) {
            assert(!starts_with_escape(e));
            assert(e.skip(1) =~= rest);
        } else {
            lemma_escape_decodes(b);
            assert(starts_with_escape(e));
            assert(e.skip(3) =~= rest);
        }
        assert(seq![b] + s.skip(1) =~= s);
    } else {
        assert(encoded(set, s) =~= Seq::<u8>::empty());
        assert(s =~= Seq::<u8>::empty());
    }
}

/// Encoding with the full set yields only unreserved bytes and well-formed
/// `%XX` escapes.
pub proof fn lemma_full_encoding_well_formed(s: Seq<u8>)
    ensures
        well_formed_encoding(encoded(EncodeSet::Full, s)),
    decreases s.len(),
{
    if s.len() > 0 {
        let b = s[0];
        let rest = encoded(EncodeSet::Full, s.skip(1));
        let e = encode_byte(EncodeSet::Full, b) + rest;
        lemma_full_encoding_well_formed(s.skip(1));
        if kept_by(EncodeSet::Full, b) {
            assert(e.skip(1) =~= rest);
        } else {
            lemma_escape_decodes(b);
            assert(e.skip(3) =~= rest);
        }
    }
}

/// Encoding a concatenation encodes each part: every byte is written on its
/// own.
pub proof fn lemma_encoded_concat(set: EncodeSet, a: Seq<u8>, b: Seq<u8>)
    ensures
        encoded(set, a + b) == encoded(set, a) + encoded(set, b),
    decreases a.len(),
{
    if a.len() == 0 {
        assert(a + b =~= b);
        assert(encoded(set, a) + encoded(set, b) =~= encoded(set, b));
    } else {
        assert((a + b).skip(1) =~= a.skip(1) + b);
        assert((a + b)[0] == a[0]);
        lemma_encoded_concat(set, a.skip(1), b);
        assert(encoded(set, a + b) =~= encode_byte(set, a[0]) + (encoded(set, a.skip(1))
            + encoded(set, b)));
    }
}

/// How each byte is written under each set. The letters, the digits and
/// `- _ . ~` are always kept; `Component` also keeps `/ : @`; `Query` also
/// keeps `/ : @ & = + , ; * '`. Every other byte becomes `%` and its two
/// hex digits, upper case, high nibble first.
pub proof fn lemma_encode_one_byte(set: EncodeSet, b: u8)
    ensures
        ({
            let plain = (0x30 <= b <= 0x39) || (0x41 <= b <= 0x5A) || (0x61 <= b <= 0x7A) || b
                == 0x2D || b == 0x5F || b == 0x2E || b == 0x7E;
            let kept = match set {
                EncodeSet::Full => plain,
                EncodeSet::Component => plain || b == 0x2F || b == 0x3A || b == 0x40,
                EncodeSet::Query => plain || b == 0x2F || b == 0x3A || b == 0x40 || b == 0x26 || b
                    == 0x3D || b == 0x2B || b == 0x2C || b == 0x3B || b == 0x2A || b == 0x27,
            };
            let hi = b / 16;
            let lo = b % 16;
            &&& kept ==> encoded(set, seq![b]) == seq![b]
            &&& !kept ==> encoded(set, seq![b]) == seq![
                0x25u8,
                (if hi < 10 { 0x30 + hi } else { 0x37 + hi }) as u8,
                (if lo < 10 { 0x30 + lo } else { 0x37 + lo }) as u8,
            ]
        }),
{
    assert(seq![b].skip(1) =~= Seq::<u8>::empty());
    assert(encoded(set, Seq::<u8>::empty()) =~= Seq::<u8>::empty());
    assert(b >> 4 == b / 16 && b & 0x0F == b % 16) by (bit_vector);
    assert(encoded(set, seq![b]) =~= encode_byte(set, b));
}

/// How decoding reads an escape: `%` and two hex digits (either case)
/// become the byte they spell, high nibble first; a `%` without two hex
/// digits after it, like any other byte, is copied.
pub proof fn lemma_decode_escape(s: Seq<u8>)
    requires
        s.len() > 0,
    ensures
        ({
            let hex = |c: u8| (0x30 <= c <= 0x39) || (0x41 <= c <= 0x46) || (0x61 <= c <= 0x66);
            let val = |c: u8| if c <= 0x39 {
                c - 0x30
            } else if c <= 0x46 {
                c - 0x41 + 10
            } else {
                c - 0x61 + 10
            };
            &&& (s.len() >= 3 && s[0] == 0x25 && hex(s[1]) && hex(s[2])) ==> decoded(s) == seq![
                (val(s[1]) * 16 + val(s[2])) as u8,
            ] + decoded(s.skip(3))
            &&& !(s.len() >= 3 && s[0] == 0x25 && hex(s[1]) && hex(s[2])) ==> decoded(s)
                == seq![s[0]] + decoded(s.skip(1))
        }),
{
    if s.len() >= 3 && s[0] == 0x25 && spec_hex_val(s[1]) is Some && spec_hex_val(s[2]) is Some {
        let h = spec_hex_val(s[1]).unwrap();
        let l = spec_hex_val(s[2]).unwrap();
        assert(h < 16 && l < 16);
        assert((h << 4) | l == h * 16 + l) by (bit_vector)
            requires
                h < 16,
                l < 16,
        ;
    }
}

} // verus!
