//! UTF-8 utilities: validation, char-boundary finding, a lenient scalar
//! iterator, and single-`char` encoding.
//!
//! [`from_bytes`] accepts exactly the well-formed UTF-8 byte strings and, on
//! failure, reports the same `valid_up_to` / `error_len` pair as the standard
//! library's validator.
use vstd::prelude::*;
use vstd::utf8::*;
use crate::text::str_from_utf8;
use vstd::string::StringSliceAdditionalSpecFns;

verus! {

// ---------------------------------------------------------------------------
// Validation
// ---------------------------------------------------------------------------

/// Width of the sequence that lead byte `b` starts, or `0` when `b` cannot
/// lead a well-formed sequence.
pub open spec fn lead_width(b: u8) -> nat {
    if b <= 0x7F {
        1
    } else if 0xC2 <= b <= 0xDF {
        2
    } else if 0xE0 <= b <= 0xEF {
        3
    } else if 0xF0 <= b <= 0xF4 {
        4
    } else {
        0
    }
}

/// A continuation byte `10xxxxxx`.
pub open spec fn is_cont(b: u8) -> bool {
    0x80 <= b <= 0xBF
}

/// Whether `b2` may follow the multi-byte lead `b1` (excludes overlong,
/// surrogate and out-of-range encodings).
pub open spec fn second_ok(b1: u8, b2: u8) -> bool {
    if b1 == 0xE0 {
        0xA0 <= b2 <= 0xBF
    } else if b1 == 0xED {
        0x80 <= b2 <= 0x9F
    } else if b1 == 0xF0 {
        0x90 <= b2 <= 0xBF
    } else if b1 == 0xF4 {
        0x80 <= b2 <= 0x8F
    } else {
        is_cont(b2)
    }
}

/// Length of the well-formed scalar encoding at the start of `s`, if there is
/// one.
pub open spec fn first_len(s: Seq<u8>) -> Option<nat> {
    if s.len() == 0 {
        None
    } else {
        let w = lead_width(s[0]);
        if w == 1 {
            Some(1)
        } else if w == 2 {
            if s.len() >= 2 && is_cont(s[1]) {
                Some(2)
            } else {
                None
            }
        } else if w == 3 {
            if s.len() >= 3 && second_ok(s[0], s[1]) && is_cont(s[2]) {
                Some(3)
            } else {
                None
            }
        } else if w == 4 {
            if s.len() >= 4 && second_ok(s[0], s[1]) && is_cont(s[2]) && is_cont(s[3]) {
                Some(4)
            } else {
                None
            }
        } else {
            None
        }
    }
}

/// Length of the longest prefix of `s` made of well-formed scalar encodings.
pub open spec fn valid_up_to(s: Seq<u8>) -> nat
    decreases s.len(),
{
    match first_len(s) {
        Some(w) => if w <= s.len() {
            w + valid_up_to(s.skip(w as int))
        } else {
            0
        },
        None => 0,
    }
}

/// For `s` starting with an ill-formed sequence: the length of that sequence
/// (the longest prefix that could still begin a well-formed encoding, at least
/// one byte), or `None` when `s` ends before the sequence could be completed.
pub open spec fn error_len(s: Seq<u8>) -> Option<u8> {
    let w = lead_width(s[0]);
    if w == 2 {
        if s.len() < 2 {
            None
        } else {
            Some(1u8)
        }
    } else if w == 3 || w == 4 {
        if s.len() < 2 {
            None
        } else if !second_ok(s[0], s[1]) {
            Some(1u8)
        } else if s.len() < 3 {
            None
        } else if !is_cont(s[2]) {
            Some(2u8)
        } else if s.len() < 4 {
            None
        } else {
            Some(3u8)
        }
    } else {
        Some(1u8)
    }
}

proof fn lemma_width2(b1: u8, b2: u8)
    requires
        0xC0 <= b1 <= 0xDF,
        0x80 <= b2 <= 0xBF,
    ensures
        (not_overlong_encoding(codepoint_width_2(b1, b2), 2) && not_surrogate(
            codepoint_width_2(b1, b2),
        )) <==> 0xC2 <= b1,
{
    let cp = codepoint_width_2(b1, b2);
    assert(cp == (((b1 & 0x1F) as u32) << 6) | ((b2 & 0x3F) as u32));
    assert(0xC0 <= b1 <= 0xDF && 0x80 <= b2 <= 0xBF ==> ((((((b1 & 0x1F) as u32) << 6) | ((b2
        & 0x3F) as u32)) >= 0x80) <==> 0xC2 <= b1)) by (bit_vector);
    assert(0xC0 <= b1 <= 0xDF && 0x80 <= b2 <= 0xBF ==> (((((b1 & 0x1F) as u32) << 6) | ((b2
        & 0x3F) as u32)) <= 0x7FF)) by (bit_vector);
}

proof fn lemma_width3(b1: u8, b2: u8, b3: u8)
    requires
        0xE0 <= b1 <= 0xEF,
        0x80 <= b2 <= 0xBF,
        0x80 <= b3 <= 0xBF,
    ensures
        (not_overlong_encoding(codepoint_width_3(b1, b2, b3), 3) && not_surrogate(
            codepoint_width_3(b1, b2, b3),
        )) <==> second_ok(b1, b2),
{
    let cp = codepoint_width_3(b1, b2, b3);
    assert(cp == (((b1 & 0x0F) as u32) << 12) | (((b2 & 0x3F) as u32) << 6) | ((b3
        & 0x3F) as u32));
    assert(0xE0 <= b1 <= 0xEF && 0x80 <= b2 <= 0xBF && 0x80 <= b3 <= 0xBF ==> {
        let c = (((b1 & 0x0F) as u32) << 12) | (((b2 & 0x3F) as u32) << 6) | ((b3
            & 0x3F) as u32);
        &&& (c >= 0x800 <==> (b1 != 0xE0 || b2 >= 0xA0))
        &&& ((0xD800 <= c <= 0xDFFF) <==> (b1 == 0xED && b2 >= 0xA0))
        &&& c <= 0xFFFF
    }) by (bit_vector);
}

proof fn lemma_width4(b1: u8, b2: u8, b3: u8, b4: u8)
    requires
        0xF0 <= b1 <= 0xF7,
        0x80 <= b2 <= 0xBF,
        0x80 <= b3 <= 0xBF,
        0x80 <= b4 <= 0xBF,
    ensures
        (not_overlong_encoding(codepoint_width_4(b1, b2, b3, b4), 4) && not_surrogate(
            codepoint_width_4(b1, b2, b3, b4),
        )) <==> (b1 <= 0xF4 && second_ok(b1, b2)),
{
    let cp = codepoint_width_4(b1, b2, b3, b4);
    assert(cp == (((b1 & 0x07) as u32) << 18) | (((b2 & 0x3F) as u32) << 12) | (((b3
        & 0x3F) as u32) << 6) | ((b4 & 0x3F) as u32));
    assert(0xF0 <= b1 <= 0xF7 && 0x80 <= b2 <= 0xBF && 0x80 <= b3 <= 0xBF && 0x80 <= b4 <= 0xBF
        ==> {
        let c = (((b1 & 0x07) as u32) << 18) | (((b2 & 0x3F) as u32) << 12) | (((b3
            & 0x3F) as u32) << 6) | ((b4 & 0x3F) as u32);
        &&& ((0x10000 <= c <= 0x10FFFF) <==> ((b1 != 0xF0 || b2 >= 0x90) && (b1 < 0xF4 || (b1
            == 0xF4 && b2 <= 0x8F))))
    }) by (bit_vector);
}

/// The byte-range rule of [`first_len`] agrees with the scalar-level rule of
/// `vstd::utf8`.
proof fn lemma_first_len_is_first_scalar(s: Seq<u8>)
    ensures
        first_len(s) is Some <==> (s.len() > 0 && valid_first_scalar(s)),
        first_len(s) is Some ==> first_len(s).unwrap() == length_of_first_scalar(s),
{
    if s.len() > 0 {
        let b1 = s[0];
        if 0xC0 <= b1 <= 0xDF && s.len() >= 2 && is_continuation_byte(s[1]) {
            lemma_width2(b1, s[1]);
        }
        if 0xE0 <= b1 <= 0xEF && s.len() >= 3 && is_continuation_byte(s[1])
            && is_continuation_byte(s[2]) {
            lemma_width3(b1, s[1], s[2]);
        }
        if 0xF0 <= b1 <= 0xF7 && s.len() >= 4 && is_continuation_byte(s[1])
            && is_continuation_byte(s[2]) && is_continuation_byte(s[3]) {
            lemma_width4(b1, s[1], s[2], s[3]);
        }
    }
}

/// `valid_up_to(s)` covers all of `s` exactly when `s` is well-formed UTF-8.
proof fn lemma_valid_up_to_full(s: Seq<u8>)
    ensures
        valid_up_to(s) <= s.len(),
        valid_up_to(s) == s.len() <==> valid_utf8(s),
    decreases s.len(),
{
    lemma_first_len_is_first_scalar(s);
    if s.len() > 0 && first_len(s) is Some {
        let w = first_len(s).unwrap();
        assert(pop_first_scalar(s) =~= s.skip(w as int));
        lemma_valid_up_to_full(s.skip(w as int));
    }
}

/// Description of the first invalid UTF-8 sequence found by [`from_bytes`].
#[derive(Clone, Copy, Debug, PartialEq, Eq, Hash, Structural)]
pub struct ValidationError {
    /// Index of the first byte of the invalid sequence.
    pub valid_up_to: usize,
    /// Length of the invalid sequence in bytes, or `None` if it is truncated at
    /// the end of the slice.
    pub error_len: Option<u8>,
}

/// A UTF-8 string slice: a borrowed byte slice, well-formed whenever it was
/// made by [`from_bytes`].
#[derive(Clone, Copy)]
pub struct Utf8Str<'a> {
    bytes: &'a [u8],
}

impl<'a> View for Utf8Str<'a> {
    type V = Seq<u8>;

    closed spec fn view(&self) -> Seq<u8> {
        self.bytes@
    }
}

/// Validate `bytes` as UTF-8.
///
/// Returns `Ok(Utf8Str)` if the slice is well-formed UTF-8, or
/// `Err(ValidationError { valid_up_to, error_len })` describing the first
/// invalid sequence.
pub fn from_bytes<'a>(bytes: &'a [u8]) -> (r: Result<Utf8Str<'a>, ValidationError>)
    ensures
        r is Ok <==> valid_utf8(bytes@),
        r matches Ok(u) ==> u@ == bytes@,
        r matches Err(e) ==> e.valid_up_to == valid_up_to(bytes@) && e.error_len == error_len(
            bytes@.skip(e.valid_up_to as int),
        ),
{
    let len = bytes.len();
    let mut i = 0usize;
    proof {
        lemma_valid_up_to_full(bytes@);
        assert(bytes@.skip(0) =~= bytes@);
    }
    while i < len
        invariant
            len == bytes@.len(),
            i <= len,
            i + valid_up_to(bytes@.skip(i as int)) == valid_up_to(bytes@),
            valid_up_to(bytes@) == bytes@.len() <==> valid_utf8(bytes@),
        decreases len - i,
    {
        let ghost rest = bytes@.skip(i as int);
        let b = bytes[i];
        let w = utf8_width(b);
        proof {
            assert(rest.len() == len - i);
            assert(forall|k: int| 0 <= k < rest.len() ==> rest[k] == bytes@[i + k]);
        }
        if w == 1 {
            proof {
                assert(rest.skip(1) =~= bytes@.skip(i + 1));
            }
            i += 1;
        } else if w == 2 {
            if len - i < 2 {
                return Err(ValidationError { valid_up_to: i, error_len: None });
            }
            if !(bytes[i + 1] >= 0x80 && bytes[i + 1] <= 0xBF) {
                return Err(ValidationError { valid_up_to: i, error_len: Some(1) });
            }
            proof {
                assert(rest.skip(2) =~= bytes@.skip(i + 2));
            }
            i += 2;
        } else if w == 3 || w == 4 {
            if len - i < 2 {
                return Err(ValidationError { valid_up_to: i, error_len: None });
            }
            if !second_byte_ok(b, bytes[i + 1]) {
                return Err(ValidationError { valid_up_to: i, error_len: Some(1) });
            }
            if len - i < 3 {
                return Err(ValidationError { valid_up_to: i, error_len: None });
            }
            if !(bytes[i + 2] >= 0x80 && bytes[i + 2] <= 0xBF) {
                return Err(ValidationError { valid_up_to: i, error_len: Some(2) });
            }
            if w == 3 {
                proof {
                    assert(rest.skip(3) =~= bytes@.skip(i + 3));
                }
                i += 3;
            } else {
                if len - i < 4 {
                    return Err(ValidationError { valid_up_to: i, error_len: None });
                }
                if !(bytes[i + 3] >= 0x80 && bytes[i + 3] <= 0xBF) {
                    return Err(ValidationError { valid_up_to: i, error_len: Some(3) });
                }
                proof {
                    assert(rest.skip(4) =~= bytes@.skip(i + 4));
                }
                i += 4;
            }
        } else {
            return Err(ValidationError { valid_up_to: i, error_len: Some(1) });
        }
    }
    proof {
        assert(bytes@.skip(len as int).len() == 0);
    }
    Ok(Utf8Str { bytes })
}

fn utf8_width(b: u8) -> (r: usize)
    ensures
        r == lead_width(b),
{
    if b <= 0x7F {
        1
    } else if b >= 0xC2 && b <= 0xDF {
        2
    } else if b >= 0xE0 && b <= 0xEF {
        3
    } else if b >= 0xF0 && b <= 0xF4 {
        4
    } else {
        0
    }
}

fn second_byte_ok(b1: u8, b2: u8) -> (r: bool)
    ensures
        r == second_ok(b1, b2),
{
    if b1 == 0xE0 {
        b2 >= 0xA0 && b2 <= 0xBF
    } else if b1 == 0xED {
        b2 >= 0x80 && b2 <= 0x9F
    } else if b1 == 0xF0 {
        b2 >= 0x90 && b2 <= 0xBF
    } else if b1 == 0xF4 {
        b2 >= 0x80 && b2 <= 0x8F
    } else {
        b2 >= 0x80 && b2 <= 0xBF
    }
}

impl<'a> Utf8Str<'a> {
    /// Wrap a byte slice as a `Utf8Str` without validation. Only
    /// [`Utf8Str::as_str`] depends on the bytes being well-formed.
    pub fn from_bytes_unchecked(bytes: &'a [u8]) -> (r: Utf8Str<'a>)
        ensures
            r@ == bytes@,
    {
        Utf8Str { bytes }
    }

    /// The underlying bytes.
    pub fn as_bytes(&self) -> (r: &'a [u8])
        ensures
            r@ == self@,
    {
        self.bytes
    }

    /// View this UTF-8 string as a `str`.
    pub fn as_str(&self) -> (r: &'a str)
        requires
            valid_utf8(self@),
        ensures
            r.spec_bytes() == self@,
            r@ == decode_utf8(self@),
    {
        let s = str_from_utf8(self.bytes).unwrap();
        proof {
            encode_utf8_decode_utf8(s@);
        }
        s
    }

    /// Iterate over the Unicode scalars (code points) in this string, returning
    /// their `(byte_offset, char)` pairs.
    pub fn char_indices(&self) -> (r: CharIndices<'a>)
        ensures
            r.bytes() == self@,
            r.pos() == 0,
    {
        CharIndices { bytes: self.bytes, pos: 0 }
    }

    /// Length in bytes.
    pub fn len(&self) -> (r: usize)
        ensures
            r == self@.len(),
    {
        self.bytes.len()
    }

    /// Returns `true` if the string contains no bytes.
    pub fn is_empty(&self) -> (r: bool)
        ensures
            r == (self@.len() == 0),
    {
        self.bytes.len() == 0
    }
}

/// Find the index of the first byte that starts a new code point at or after
/// `index` (clamped to the slice length).
pub fn next_char_boundary(bytes: &[u8], index: usize) -> (r: usize)
    ensures
        index >= bytes@.len() ==> r == bytes@.len(),
        index < bytes@.len() ==> {
            &&& index <= r <= bytes@.len()
            &&& forall|k: int| index <= k < r ==> is_cont(#[trigger] bytes@[k])
            &&& r < bytes@.len() ==> !is_cont(bytes@[r as int])
        },
{
    let len = bytes.len();
    if index >= len {
        return len;
    }
    let mut index = index;
    let ghost start = index;
    while index < len && (bytes[index] & 0xC0) == 0x80
        invariant
            len == bytes@.len(),
            start <= index <= len,
            forall|k: int| start <= k < index ==> is_cont(#[trigger] bytes@[k]),
        decreases len - index,
    {
        proof {
            let b = bytes@[index as int];
            assert((b & 0xC0) == 0x80 ==> 0x80 <= b <= 0xBF) by (bit_vector);
        }
        index += 1;
    }
    proof {
        if index < len {
            let b = bytes@[index as int];
            assert((b & 0xC0) != 0x80 ==> !(0x80 <= b <= 0xBF)) by (bit_vector);
        }
    }
    index
}

/// Find the index of the first byte of the code point that contains `index`, or
/// the nearest code-point start at or before `index`.
///
/// Returns `0` if `index == 0` or if the bytes before `index` are all
/// continuation bytes.
pub fn prev_char_boundary(bytes: &[u8], index: usize) -> (r: usize)
    ensures
        bytes@.len() == 0 ==> r == 0,
        bytes@.len() > 0 ==> {
            let from = if index >= bytes@.len() { bytes@.len() - 1 } else { index as int };
            &&& r <= from
            &&& forall|k: int| r < k <= from ==> is_cont(#[trigger] bytes@[k])
            &&& (r == 0 || !is_cont(bytes@[r as int]))
        },
{
    let len = bytes.len();
    let mut index = index;
    if index >= len {
        if len == 0 {
            return 0;
        }
        index = len - 1;
    }
    let ghost from = index as int;
    while index > 0 && (bytes[index] & 0xC0) == 0x80
        invariant
            len == bytes@.len(),
            index <= from < len,
            forall|k: int| index < k <= from ==> is_cont(#[trigger] bytes@[k]),
        decreases index,
    {
        proof {
            let b = bytes@[index as int];
            assert((b & 0xC0) == 0x80 ==> 0x80 <= b <= 0xBF) by (bit_vector);
        }
        index -= 1;
    }
    proof {
        if index > 0 {
            let b = bytes@[index as int];
            assert((b & 0xC0) != 0x80 ==> !(0x80 <= b <= 0xBF)) by (bit_vector);
        }
    }
    index
}

/// The char that stands for an undecodable byte `b`: the scalar `0xE000 | b`.
pub open spec fn sentinel(b: u8) -> char {
    (0xE000u32 | (b as u32)) as char
}

/// The code point that the `w`-byte sequence at the start of `s` spells.
pub open spec fn raw_code(s: Seq<u8>, w: nat) -> u32 {
    if w == 2 {
        (((s[0] & 0x1F) as u32) << 6) | ((s[1] & 0x3F) as u32)
    } else if w == 3 {
        (((s[0] & 0x0F) as u32) << 12) | (((s[1] & 0x3F) as u32) << 6) | ((s[2] & 0x3F) as u32)
    } else {
        (((s[0] & 0x07) as u32) << 18) | (((s[1] & 0x3F) as u32) << 12) | (((s[2]
            & 0x3F) as u32) << 6) | ((s[3] & 0x3F) as u32)
    }
}

/// One step of lenient decoding at the start of non-empty `s`: the char and
/// the number of bytes it takes. A lead byte whose sequence is missing,
/// interrupted, or does not spell a scalar yields [`sentinel`] and one byte.
pub open spec fn decode_step(s: Seq<u8>) -> (char, nat) {
    let b = s[0];
    let w = lead_width(b);
    if b < 0x80 {
        (b as char, 1)
    } else if w == 0 || s.len() < w {
        (sentinel(b), 1)
    } else if !(forall|k: int| 1 <= k < w ==> is_cont(#[trigger] s[k])) {
        (sentinel(b), 1)
    } else if is_scalar(raw_code(s, w)) {
        (raw_code(s, w) as char, w)
    } else {
        (sentinel(b), 1)
    }
}

/// The chars that lenient decoding produces from `s`, front to back.
pub open spec fn scalars(s: Seq<u8>) -> Seq<char>
    decreases s.len(),
{
    if s.len() == 0 {
        Seq::empty()
    } else {
        let (c, n) = decode_step(s);
        if 1 <= n <= s.len() {
            seq![c] + scalars(s.skip(n as int))
        } else {
            Seq::empty()
        }
    }
}

/// Wraps `char::from_u32`: `Some` exactly for Unicode scalar values.
#[verifier::external_body]
fn char_from_u32(v: u32) -> (r: Option<char>)
    ensures
        r is Some <==> is_scalar(v),
        r matches Some(c) ==> c == v as char && c as u32 == v,
{
    char::from_u32(v)
}

pub(crate) proof fn lemma_step_width(s: Seq<u8>)
    requires
        s.len() > 0,
    ensures
        1 <= decode_step(s).1 <= s.len(),
{
}

fn sentinel_char(b: u8) -> (r: char)
    ensures
        r == sentinel(b),
{
    assert((0xE000u32 | (b as u32)) <= 0xE0FF && (0xE000u32 | (b as u32)) >= 0xE000) by (bit_vector);
    char_from_u32(0xE000u32 | (b as u32)).unwrap()
}

/// Decode the code point starting at `start`. Returns the `char` (or a
/// sentinel for invalid bytes) and the number of bytes consumed (always >= 1).
fn decode_utf8_byte(bytes: &[u8], start: usize) -> (r: (char, usize))
    requires
        start < bytes@.len(),
    ensures
        (r.0, r.1 as nat) == decode_step(bytes@.skip(start as int)),
{
    let ghost s = bytes@.skip(start as int);
    proof {
        assert(forall|k: int| 0 <= k < s.len() ==> s[k] == bytes@[start + k]);
    }
    let b = bytes[start];
    if b < 0x80 {
        proof {
            assert(b as char == (b as u32) as char);
        }
        return (b as char, 1);
    }
    let width = utf8_width(b);
    if width == 0 {
        return (sentinel_char(b), 1);
    }
    let len = bytes.len();
    if len - start < width {
        return (sentinel_char(b), 1);
    }
    let c1 = bytes[start + 1];
    if (c1 & 0xC0) != 0x80 {
        proof {
            assert((c1 & 0xC0) != 0x80 ==> !(0x80 <= c1 <= 0xBF)) by (bit_vector);
            assert(!is_cont(s[1]));
        }
        return (sentinel_char(b), 1);
    }
    proof {
        assert((c1 & 0xC0) == 0x80 ==> 0x80 <= c1 <= 0xBF) by (bit_vector);
    }
    let code: u32 = if width == 2 {
        proof {
            assert(is_cont(s[1]));
            assert(forall|k: int| 1 <= k < 2 ==> is_cont(#[trigger] s[k]));
        }
        (((b & 0x1F) as u32) << 6) | ((c1 & 0x3F) as u32)
    } else {
        let c2 = bytes[start + 2];
        if (c2 & 0xC0) != 0x80 {
            proof {
                assert((c2 & 0xC0) != 0x80 ==> !(0x80 <= c2 <= 0xBF)) by (bit_vector);
                assert(!is_cont(s[2]));
            }
            return (sentinel_char(b), 1);
        }
        proof {
            assert((c2 & 0xC0) == 0x80 ==> 0x80 <= c2 <= 0xBF) by (bit_vector);
        }
        if width == 3 {
            proof {
                assert(is_cont(s[1]) && is_cont(s[2]));
                assert(forall|k: int| 1 <= k < 3 ==> is_cont(#[trigger] s[k]));
            }
            (((b & 0x0F) as u32) << 12) | (((c1 & 0x3F) as u32) << 6) | ((c2 & 0x3F) as u32)
        } else {
            let c3 = bytes[start + 3];
            if (c3 & 0xC0) != 0x80 {
                proof {
                    assert((c3 & 0xC0) != 0x80 ==> !(0x80 <= c3 <= 0xBF)) by (bit_vector);
                    assert(!is_cont(s[3]));
                }
                return (sentinel_char(b), 1);
            }
            proof {
                assert((c3 & 0xC0) == 0x80 ==> 0x80 <= c3 <= 0xBF) by (bit_vector);
                assert(is_cont(s[1]) && is_cont(s[2]) && is_cont(s[3]));
                assert(forall|k: int| 1 <= k < 4 ==> is_cont(#[trigger] s[k]));
            }
            (((b & 0x07) as u32) << 18) | (((c1 & 0x3F) as u32) << 12) | (((c2 & 0x3F) as u32)
                << 6) | ((c3 & 0x3F) as u32)
        }
    };
    match char_from_u32(code) {
        Some(ch) => (ch, width),
        None => (sentinel_char(b), 1),
    }
}

/// An iterator over the Unicode scalars of a byte string, decoding leniently:
/// each byte that does not start a decodable sequence is yielded as
/// [`sentinel`] of that byte.
#[derive(Clone, Debug)]
pub struct CharIndices<'a> {
    bytes: &'a [u8],
    pos: usize,
}

impl<'a> CharIndices<'a> {
    /// The bytes being decoded.
    pub closed spec fn bytes(&self) -> Seq<u8> {
        self.bytes@
    }

    /// Offset of the next undecoded byte.
    pub closed spec fn pos(&self) -> nat {
        self.pos as nat
    }

    /// Decode the next scalar, returning its byte offset and the char, or
    /// `None` once all bytes are consumed.
    pub fn next(&mut self) -> (r: Option<(usize, char)>)
        ensures
            final(self).bytes() == old(self).bytes(),
            old(self).pos() >= old(self).bytes().len() ==> r is None && final(self).pos() == old(
                self,
            ).pos(),
            old(self).pos() < old(self).bytes().len() ==> {
                let (c, n) = decode_step(old(self).bytes().skip(old(self).pos() as int));
                &&& r == Some((old(self).pos() as usize, c))
                &&& final(self).pos() == old(self).pos() + n
            },
    {
        let bytes = self.bytes;
        if self.pos >= bytes.len() {
            return None;
        }
        let start = self.pos;
        proof {
            lemma_step_width(bytes@.skip(start as int));
        }
        let (ch, size) = decode_utf8_byte(bytes, start);
        self.pos = start + size;
        Some((start, ch))
    }
}

/// Encode a single `char` into `buf`, returning the number of bytes written.
///
/// Writes at most 4 bytes. Returns `None` if `buf` is too small.
pub fn encode_char(ch: char, buf: &mut [u8]) -> (r: Option<usize>)
    ensures
        final(buf)@.len() == old(buf)@.len(),
        r is None <==> old(buf)@.len() < encode_scalar(ch as u32).len(),
        r is None ==> final(buf)@ == old(buf)@,
        r matches Some(n) ==> n == encode_scalar(ch as u32).len() && final(buf)@.subrange(
            0,
            n as int,
        ) == encode_scalar(ch as u32) && final(buf)@.subrange(n as int, old(buf)@.len() as int)
            == old(buf)@.subrange(n as int, old(buf)@.len() as int),
{
    let code = ch as u32;
    proof {
        char_is_scalar(ch);
    }
    if code <= 0x7F {
        if buf.len() == 0 {
            return None;
        }
        buf[0] = code as u8;
        proof {
            assert(code <= 0x7F ==> (code & 0x7F) as u8 == code as u8) by (bit_vector);
            assert(buf@.subrange(0, 1) =~= encode_scalar(code));
            assert(buf@.subrange(1, buf@.len() as int) =~= old(buf)@.subrange(1, old(buf)@.len() as int));
        }
        return Some(1);
    }
    let (first, rest): (u8, u32) = if code <= 0x7FF {
        (0xC0 | ((code >> 6) & 0x1F) as u8, code)
    } else if code <= 0xFFFF {
        (0xE0 | ((code >> 12) & 0x0F) as u8, code)
    } else {
        (0xF0 | ((code >> 18) & 0x07) as u8, code)
    };
    let width = utf8_width(first);
    proof {
        assert(0x80 <= code <= 0x7FF ==> lead_width((0xC0 | ((code >> 6) & 0x1F) as u8)) == 2) by (bit_vector);
        assert(0x800 <= code <= 0xFFFF ==> lead_width((0xE0 | ((code >> 12) & 0x0F) as u8)) == 3) by (bit_vector);
        assert(0x10000 <= code <= 0x10FFFF ==> lead_width((0xF0 | ((code >> 18) & 0x07) as u8)) == 4) by (bit_vector);
    }
    if buf.len() < width {
        return None;
    }
    if width == 2 {
        buf[0] = first | (rest >> 6) as u8;
        buf[1] = 0x80 | (rest & 0x3F) as u8;
        proof {
            assert(0x80 <= code <= 0x7FF ==> ((0xC0 | ((code >> 6) & 0x1F) as u8) | (code >> 6) as u8)
                == (0xC0 | ((code >> 6) & 0x1F) as u8)) by (bit_vector);
            assert(buf@.subrange(0, 2) =~= encode_scalar(code));
        }
    } else if width == 3 {
        buf[0] = first | (rest >> 12) as u8;
        buf[1] = 0x80 | ((rest >> 6) & 0x3F) as u8;
        buf[2] = 0x80 | (rest & 0x3F) as u8;
        proof {
            assert(0x800 <= code <= 0xFFFF ==> ((0xE0 | ((code >> 12) & 0x0F) as u8) | (code >> 12) as u8)
                == (0xE0 | ((code >> 12) & 0x0F) as u8)) by (bit_vector);
            assert(buf@.subrange(0, 3) =~= encode_scalar(code));
        }
    } else {
        buf[0] = first | (rest >> 18) as u8;
        buf[1] = 0x80 | ((rest >> 12) & 0x3F) as u8;
        buf[2] = 0x80 | ((rest >> 6) & 0x3F) as u8;
        buf[3] = 0x80 | (rest & 0x3F) as u8;
        proof {
            assert(0x10000 <= code <= 0x10FFFF ==> ((0xF0 | ((code >> 18) & 0x07) as u8) | (code >> 18) as u8)
                == (0xF0 | ((code >> 18) & 0x07) as u8)) by (bit_vector);
            assert(buf@.subrange(0, 4) =~= encode_scalar(code));
        }
    }
    proof {
        assert(buf@.subrange(width as int, buf@.len() as int) =~= old(buf)@.subrange(
            width as int,
            old(buf)@.len() as int,
        ));
    }
    Some(width)
}

} // verus!
