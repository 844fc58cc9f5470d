//! A streaming, allocation-free JSON tokenizer.
//!
//! [`Tokenizer`] yields one [`Token`] per call and borrows its input. A string
//! without escape sequences comes back as [`Token::StringRaw`], a slice of the
//! input; a string with escapes comes back decoded, as one or more
//! [`Token::StringChunk`]s of at most [`CHUNK_BUF`] bytes each, the last one
//! marked `last`. The chunk bytes live in the tokenizer's scratch buffer until
//! the next call.
use vstd::prelude::*;
use vstd::utf8::valid_utf8;
use crate::utf8::from_bytes;
use crate::text::string_push;

verus! {

/// Capacity of the scratch buffer that holds decoded string chunks.
pub const CHUNK_BUF: usize = 64;

/// A lexical token emitted by the [`Tokenizer`].
#[derive(Clone, Copy, Debug, PartialEq, Eq)]
pub enum Token<'a> {
    /// `{`
    ObjectStart,
    /// `}`
    ObjectEnd,
    /// `[`
    ArrayStart,
    /// `]`
    ArrayEnd,
    /// `,`
    Comma,
    /// `:`
    Colon,
    /// A literal `true`.
    True,
    /// A literal `false`.
    False,
    /// A literal `null`.
    Null,
    /// A number (its raw bytes). `negative` reflects a leading `-`.
    Number { bytes: &'a [u8], negative: bool },
    /// A string with no escape sequences: the raw (valid UTF-8) body.
    StringRaw(&'a [u8]),
    /// A decoded chunk of an escaped string; `last` marks the final chunk.
    StringChunk { bytes: &'a [u8], last: bool },
    /// End of input. Always the final token.
    Eof,
}

/// An error encountered while tokenizing.
#[derive(Clone, Copy, Debug, PartialEq, Eq, Structural)]
pub enum JsonError {
    /// Invalid UTF-8 in a string body (at the string's opening quote).
    InvalidUtf8(usize),
    /// A control character (0x00..=0x1F) appeared unescaped in a string.
    ControlCharInString(usize),
    /// A malformed escape sequence.
    BadEscape(usize),
    /// A malformed number (at the number's first byte).
    BadNumber(usize),
    /// A byte that starts no JSON token.
    UnexpectedByte(usize),
    /// Input ended in the middle of a token.
    UnexpectedEof,
}

/// A token with its byte contents as sequences.
pub enum TokenView {
    ObjectStart,
    ObjectEnd,
    ArrayStart,
    ArrayEnd,
    Comma,
    Colon,
    True,
    False,
    Null,
    Number(Seq<u8>, bool),
    StringRaw(Seq<u8>),
    StringChunk(Seq<u8>, bool),
    Eof,
}

impl<'a> View for Token<'a> {
    type V = TokenView;

    open spec fn view(&self) -> TokenView {
        match *self {
            Token::ObjectStart => TokenView::ObjectStart,
            Token::ObjectEnd => TokenView::ObjectEnd,
            Token::ArrayStart => TokenView::ArrayStart,
            Token::ArrayEnd => TokenView::ArrayEnd,
            Token::Comma => TokenView::Comma,
            Token::Colon => TokenView::Colon,
            Token::True => TokenView::True,
            Token::False => TokenView::False,
            Token::Null => TokenView::Null,
            Token::Number { bytes, negative } => TokenView::Number(bytes@, negative),
            Token::StringRaw(b) => TokenView::StringRaw(b@),
            Token::StringChunk { bytes, last } => TokenView::StringChunk(bytes@, last),
            Token::Eof => TokenView::Eof,
        }
    }
}

/// JSON insignificant whitespace.
pub open spec fn is_ws(b: u8) -> bool {
    b == 0x20 || b == 0x09 || b == 0x0A || b == 0x0D
}

/// An ASCII decimal digit.
pub open spec fn is_digit(b: u8) -> bool {
    0x30 <= b <= 0x39
}

/// The first index at or after `i` that is not whitespace.
pub open spec fn skip_ws_from(src: Seq<u8>, i: int) -> int
    decreases src.len() - i,
{
    if 0 <= i < src.len() && is_ws(src[i]) {
        skip_ws_from(src, i + 1)
    } else {
        i
    }
}

/// The first index at or after `i` that is not a digit.
pub open spec fn digits_from(src: Seq<u8>, i: int) -> int
    decreases src.len() - i,
{
    if 0 <= i < src.len() && is_digit(src[i]) {
        digits_from(src, i + 1)
    } else {
        i
    }
}

/// The number token starting at `start` (`-`? digits (`.` digits)?
/// ([`eE`] [`+-`]? digits)?) and the position after it; on a missing digit
/// run, `BadNumber(start)` and the position where the run was expected.
pub open spec fn lex_number(src: Seq<u8>, start: int) -> (Result<TokenView, JsonError>, int) {
    let len = src.len();
    let negative = src[start] == 0x2D;
    let int_start = if negative { start + 1 } else { start };
    let int_end = digits_from(src, int_start);
    if int_end == int_start {
        (Err(JsonError::BadNumber(start as usize)), int_end)
    } else {
        let has_frac = int_end < len && src[int_end] == 0x2E;
        let frac_end = if has_frac { digits_from(src, int_end + 1) } else { int_end };
        if has_frac && frac_end == int_end + 1 {
            (Err(JsonError::BadNumber(start as usize)), frac_end)
        } else if frac_end < len && (src[frac_end] == 0x65 || src[frac_end] == 0x45) {
            let sign_at = frac_end + 1;
            let exp_start = if sign_at < len && (src[sign_at] == 0x2B || src[sign_at] == 0x2D) {
                sign_at + 1
            } else {
                sign_at
            };
            let exp_end = digits_from(src, exp_start);
            if exp_end == exp_start {
                (Err(JsonError::BadNumber(start as usize)), exp_end)
            } else {
                (Ok(TokenView::Number(src.subrange(start, exp_end), negative)), exp_end)
            }
        } else {
            (Ok(TokenView::Number(src.subrange(start, frac_end), negative)), frac_end)
        }
    }
}

/// The length of the UTF-8 sequence that lead byte `b` announces (1 for a
/// byte that leads none).
pub open spec fn char_width(b: u8) -> int {
    if b < 0x80 {
        1
    } else if 0xC0 <= b < 0xE0 {
        2
    } else if 0xE0 <= b < 0xF0 {
        3
    } else if 0xF0 <= b < 0xF8 {
        4
    } else {
        1
    }
}

/// The index past the code point that starts at `i`, capped at the end.
pub open spec fn next_boundary(src: Seq<u8>, i: int) -> int {
    if i >= src.len() {
        src.len() as int
    } else if i + char_width(src[i]) > src.len() {
        src.len() as int
    } else {
        i + char_width(src[i])
    }
}

/// How a scan of a string body for its end stops.
pub enum RawEnd {
    /// At the closing quote, at this index.
    Quote(int),
    /// At a backslash: the string has escapes.
    Escape,
    /// At an unescaped control character, at this index.
    Control(int),
    /// At the end of input.
    Eof,
}

/// Scan a string body from `i` code point by code point.
pub open spec fn raw_scan(src: Seq<u8>, i: int) -> RawEnd
    decreases src.len() - i,
{
    if !(0 <= i < src.len()) {
        RawEnd::Eof
    } else if src[i] == 0x22 {
        RawEnd::Quote(i)
    } else if src[i] == 0x5C {
        RawEnd::Escape
    } else if src[i] < 0x20 {
        RawEnd::Control(i)
    } else {
        raw_scan(src, next_boundary(src, i))
    }
}

/// The value of a hexadecimal digit.
pub open spec fn hex_digit(b: u8) -> Option<u32> {
    if 0x30 <= b <= 0x39 {
        Some((b - 0x30) as u32)
    } else if 0x61 <= b <= 0x66 {
        Some((b - 0x61 + 10) as u32)
    } else if 0x41 <= b <= 0x46 {
        Some((b - 0x41 + 10) as u32)
    } else {
        None
    }
}

/// The value of the `k` hexadecimal digits at `start` (each taken as 0 if it
/// is not a digit).
pub open spec fn hex_value(src: Seq<u8>, start: int, k: int) -> u32
    decreases k,
{
    if k <= 0 {
        0
    } else {
        let d = match hex_digit(src[start + k - 1]) {
            Some(v) => v,
            None => 0,
        };
        (hex_value(src, start, k - 1) * 16 + d) as u32
    }
}

/// The code unit of a `\uXXXX` escape whose `u` is at `u_pos`, if its four
/// hexadecimal digits are there.
pub open spec fn unicode_escape(src: Seq<u8>, u_pos: int) -> Option<u32> {
    if u_pos + 5 > src.len() {
        None
    } else if forall|j: int| 0 <= j < 4 ==> (#[trigger] hex_digit(src[u_pos + 1 + j])) is Some {
        Some(hex_value(src, u_pos + 1, 4))
    } else {
        None
    }
}

/// The UTF-8 bytes of code point `cp`.
pub open spec fn cp_bytes(cp: u32) -> Seq<u8> {
    if cp < 0x80 {
        seq![cp as u8]
    } else if cp < 0x800 {
        seq![(0xC0 + cp / 64) as u8, (0x80 + cp % 64) as u8]
    } else if cp < 0x1_0000 {
        seq![(0xE0 + cp / 4096) as u8, (0x80 + (cp / 64) % 64) as u8, (0x80 + cp % 64) as u8]
    } else {
        seq![
            (0xF0 + cp / 262144) as u8,
            (0x80 + (cp / 4096) % 64) as u8,
            (0x80 + (cp / 64) % 64) as u8,
            (0x80 + cp % 64) as u8,
        ]
    }
}

/// The byte a one-character escape `\e` stands for.
pub open spec fn simple_escape(e: u8) -> Option<u8> {
    if e == 0x22 {
        Some(0x22u8)
    } else if e == 0x5C {
        Some(0x5Cu8)
    } else if e == 0x2F {
        Some(0x2Fu8)
    } else if e == 0x62 {
        Some(0x08u8)
    } else if e == 0x66 {
        Some(0x0Cu8)
    } else if e == 0x6E {
        Some(0x0Au8)
    } else if e == 0x72 {
        Some(0x0Du8)
    } else if e == 0x74 {
        Some(0x09u8)
    } else {
        None
    }
}

/// One element of an escaped string body.
pub enum Item {
    /// The closing quote.
    Close,
    /// Decoded bytes, and the index after the element.
    Bytes(Seq<u8>, int),
    /// A malformed element.
    Fail(JsonError),
}

/// The element of a string body at `s` (for `s` inside the input).
pub open spec fn string_item(src: Seq<u8>, s: int) -> Item {
    let b = src[s];
    if b == 0x22 {
        Item::Close
    } else if b == 0x5C {
        let e_pos = s + 1;
        if e_pos >= src.len() {
            Item::Fail(JsonError::BadEscape(e_pos as usize))
        } else if src[e_pos] == 0x75 {
            match unicode_escape(src, e_pos) {
                Some(cp) => Item::Bytes(cp_bytes(cp), e_pos + 5),
                None => Item::Fail(JsonError::BadEscape(e_pos as usize)),
            }
        } else {
            match simple_escape(src[e_pos]) {
                Some(v) => Item::Bytes(seq![v], e_pos + 1),
                None => Item::Fail(JsonError::BadEscape(e_pos as usize)),
            }
        }
    } else if b < 0x20 {
        Item::Fail(JsonError::ControlCharInString(s as usize))
    } else {
        Item::Bytes(src.subrange(s, next_boundary(src, s)), next_boundary(src, s))
    }
}

/// How decoding one chunk of an escaped string ends.
pub enum ChunkEnd {
    /// The string closed; the index after the quote and the chunk bytes.
    Final(int, Seq<u8>),
    /// The chunk is full; where to resume and the chunk bytes.
    Partial(int, Seq<u8>),
    /// Malformed input.
    Fail(JsonError),
}

/// Decode string elements from `s` onto `acc` until the string closes, the
/// next element no longer fits in [`CHUNK_BUF`] bytes, or the input is bad.
pub open spec fn chunk_scan(src: Seq<u8>, s: int, acc: Seq<u8>) -> ChunkEnd
    decreases src.len() - s,
{
    if !(0 <= s < src.len()) {
        ChunkEnd::Fail(JsonError::UnexpectedEof)
    } else if acc.len() >= CHUNK_BUF {
        ChunkEnd::Partial(s, acc)
    } else {
        match string_item(src, s) {
            Item::Close => ChunkEnd::Final(s + 1, acc),
            Item::Fail(e) => ChunkEnd::Fail(e),
            Item::Bytes(bs, next) => if acc.len() + bs.len() > CHUNK_BUF {
                ChunkEnd::Partial(s, acc)
            } else if next > s {
                chunk_scan(src, next, acc + bs)
            } else {
                ChunkEnd::Fail(JsonError::UnexpectedEof)
            },
        }
    }
}

/// What a tokenizer call yields, with the position and string-decoding
/// state it leaves.
pub type Lexed = (Result<TokenView, JsonError>, int, Option<(usize, usize)>);

/// The next chunk of the escaped string whose body starts at `body`,
/// decoding from `s`.
pub open spec fn lex_chunk(
    src: Seq<u8>,
    body: usize,
    s: int,
    pos: int,
    decode: Option<(usize, usize)>,
) -> Lexed {
    match chunk_scan(src, s, Seq::empty()) {
        ChunkEnd::Final(next, acc) => (Ok(TokenView::StringChunk(acc, true)), next, None),
        ChunkEnd::Partial(resume, acc) => (
            Ok(TokenView::StringChunk(acc, false)),
            pos,
            Some((body, resume as usize)),
        ),
        ChunkEnd::Fail(e) => (Err(e), pos, decode),
    }
}

/// The literal `word` at `p`, read as `t`.
pub open spec fn lex_literal(src: Seq<u8>, p: int, word: Seq<u8>, t: TokenView) -> Lexed {
    if p + word.len() <= src.len() && src.subrange(p, p + word.len()) == word {
        (Ok(t), p + word.len(), None)
    } else {
        (Err(JsonError::UnexpectedByte(p as usize)), p, None)
    }
}

/// The string whose opening quote is at `p`.
pub open spec fn lex_string(src: Seq<u8>, p: int) -> Lexed {
    let body = p + 1;
    match raw_scan(src, body) {
        RawEnd::Quote(i) => if valid_utf8(src.subrange(body, i)) {
            (Ok(TokenView::StringRaw(src.subrange(body, i))), i + 1, None)
        } else {
            (Err(JsonError::InvalidUtf8(p as usize)), body, None)
        },
        RawEnd::Escape => lex_chunk(
            src,
            body as usize,
            body,
            body,
            Some((body as usize, body as usize)),
        ),
        RawEnd::Control(i) => (Err(JsonError::ControlCharInString(i as usize)), body, None),
        RawEnd::Eof => (Err(JsonError::UnexpectedEof), body, None),
    }
}

/// The token at `pos` (or the next chunk of the string being decoded).
pub open spec fn lex(src: Seq<u8>, pos: int, decode: Option<(usize, usize)>) -> Lexed {
    match decode {
        Some((body, s)) => lex_chunk(src, body, s as int, pos, decode),
        None => {
            let p = skip_ws_from(src, pos);
            if p >= src.len() {
                (Ok(TokenView::Eof), p, None)
            } else {
                let b = src[p];
                if b == 0x7B {
                    (Ok(TokenView::ObjectStart), p + 1, None)
                } else if b == 0x7D {
                    (Ok(TokenView::ObjectEnd), p + 1, None)
                } else if b == 0x5B {
                    (Ok(TokenView::ArrayStart), p + 1, None)
                } else if b == 0x5D {
                    (Ok(TokenView::ArrayEnd), p + 1, None)
                } else if b == 0x2C {
                    (Ok(TokenView::Comma), p + 1, None)
                } else if b == 0x3A {
                    (Ok(TokenView::Colon), p + 1, None)
                } else if b == 0x74 {
                    lex_literal(src, p, seq![0x74u8, 0x72, 0x75, 0x65], TokenView::True)
                } else if b == 0x66 {
                    lex_literal(src, p, seq![0x66u8, 0x61, 0x6C, 0x73, 0x65], TokenView::False)
                } else if b == 0x6E {
                    lex_literal(src, p, seq![0x6Eu8, 0x75, 0x6C, 0x6C], TokenView::Null)
                } else if b == 0x22 {
                    lex_string(src, p)
                } else if b == 0x2D || is_digit(b) {
                    let (r, end) = lex_number(src, p);
                    (r, end, None)
                } else {
                    (Err(JsonError::UnexpectedByte(p as usize)), p, None)
                }
            }
        },
    }
}

/// Advance `i` past the UTF-8 code point starting at `i` (the index of the
/// next code-point boundary, capped at the end of `src`).
fn utf8_next(src: &[u8], i: usize) -> (r: usize)
    ensures
        r == next_boundary(src@, i as int),
{
    let len = src.len();
    if i >= len {
        return len;
    }
    let b = src[i];
    let step: usize = if b < 0x80 {
        1
    } else if 0xC0 <= b && b < 0xE0 {
        2
    } else if 0xE0 <= b && b < 0xF0 {
        3
    } else if 0xF0 <= b && b < 0xF8 {
        4
    } else {
        1
    };
    if len - i < step {
        len
    } else {
        i + step
    }
}

/// The value of hexadecimal digit `b`.
fn hex_val(b: u8) -> (r: Option<u32>)
    ensures
        r == hex_digit(b),
{
    if 0x30 <= b && b <= 0x39 {
        Some((b - 0x30) as u32)
    } else if 0x61 <= b && b <= 0x66 {
        Some((b - 0x61 + 10) as u32)
    } else if 0x41 <= b && b <= 0x46 {
        Some((b - 0x41 + 10) as u32)
    } else {
        None
    }
}

/// Encode code point `cp` as UTF-8 into `out` at `at`, returning the byte
/// count, or 0 (writing nothing) when the encoding does not fit.
fn encode_utf8(cp: u32, out: &mut [u8; 64], at: usize) -> (r: usize)
    requires
        cp <= 0x10FFFF,
        at <= CHUNK_BUF,
    ensures
        at + cp_bytes(cp).len() <= CHUNK_BUF ==> r == cp_bytes(cp).len() && final(out)@ == old(
            out,
        )@.take(at as int) + cp_bytes(cp) + old(out)@.skip(at + cp_bytes(cp).len()),
        at + cp_bytes(cp).len() > CHUNK_BUF ==> r == 0 && final(out)@ == old(out)@,
{
    let room = CHUNK_BUF - at;
    if cp < 0x80 {
        if room < 1 {
            return 0;
        }
        out[at] = cp as u8;
        proof {
            assert(out@ =~= old(out)@.take(at as int) + cp_bytes(cp) + old(out)@.skip(at + 1));
        }
        1
    } else if cp < 0x800 {
        if room < 2 {
            return 0;
        }
        out[at] = (0xC0 + cp / 64) as u8;
        out[at + 1] = (0x80 + cp % 64) as u8;
        proof {
            assert(out@ =~= old(out)@.take(at as int) + cp_bytes(cp) + old(out)@.skip(at + 2));
        }
        2
    } else if cp < 0x1_0000 {
        if room < 3 {
            return 0;
        }
        out[at] = (0xE0 + cp / 4096) as u8;
        out[at + 1] = (0x80 + (cp / 64) % 64) as u8;
        out[at + 2] = (0x80 + cp % 64) as u8;
        proof {
            assert(out@ =~= old(out)@.take(at as int) + cp_bytes(cp) + old(out)@.skip(at + 3));
        }
        3
    } else {
        if room < 4 {
            return 0;
        }
        out[at] = (0xF0 + cp / 262144) as u8;
        out[at + 1] = (0x80 + (cp / 4096) % 64) as u8;
        out[at + 2] = (0x80 + (cp / 64) % 64) as u8;
        out[at + 3] = (0x80 + cp % 64) as u8;
        proof {
            assert(out@ =~= old(out)@.take(at as int) + cp_bytes(cp) + old(out)@.skip(at + 4));
        }
        4
    }
}

/// The code unit of the `\\uXXXX` escape whose `u` is at `u_pos`, or
/// `BadEscape(u_pos)` when its four hexadecimal digits are not there.
fn decode_unicode_escape(src: &[u8], u_pos: usize) -> (r: Result<u32, JsonError>)
    requires
        u_pos < src@.len(),
    ensures
        match unicode_escape(src@, u_pos as int) {
            Some(cp) => r == Ok::<u32, JsonError>(cp) && cp < 0x1_0000,
            None => r == Err::<u32, JsonError>(JsonError::BadEscape(u_pos)),
        },
{
    let len = src.len();
    let hex_start = u_pos + 1;
    if len - hex_start < 4 {
        return Err(JsonError::BadEscape(u_pos));
    }
    let mut cp: u32 = 0;
    let mut k: usize = 0;
    while k < 4
        invariant
            k <= 4,
            len == src@.len(),
            hex_start == u_pos + 1,
            hex_start + 4 <= len,
            cp == hex_value(src@, hex_start as int, k as int),
            k == 0 ==> cp == 0,
            k == 1 ==> cp < 16,
            k == 2 ==> cp < 256,
            k == 3 ==> cp < 4096,
            k == 4 ==> cp < 65536,
            forall|j: int| 0 <= j < k ==> (#[trigger] hex_digit(src@[hex_start + j])) is Some,
        decreases 4 - k,
    {
        match hex_val(src[hex_start + k]) {
            Some(d) => {
                cp = cp * 16 + d;
                k += 1;
            },
            None => {
                proof {
                    assert(hex_digit(src@[u_pos + 1 + k]) is None);
                }
                return Err(JsonError::BadEscape(u_pos));
            },
        }
    }
    Ok(cp)
}

/// How decoding one chunk of an escaped string ended.
enum Chunk {
    /// The string closed: the index after the quote and the chunk length.
    Final(usize, usize),
    /// The chunk is full: where to resume and the chunk length.
    Partial(usize, usize),
    /// Malformed input.
    Fail(JsonError),
}

/// Decode string elements from `scan` into `buf` until the string closes,
/// the next element no longer fits in the buffer, or the input is bad.
fn decode_chunk(src: &[u8], scan: usize, buf: &mut [u8; 64]) -> (r: Chunk)
    ensures
        r matches Chunk::Final(_, n) ==> n <= CHUNK_BUF,
        r matches Chunk::Partial(_, n) ==> n <= CHUNK_BUF,
        match chunk_scan(src@, scan as int, Seq::empty()) {
            ChunkEnd::Final(next, acc) => r matches Chunk::Final(nx, n) && nx == next && n
                == acc.len() && final(buf)@.take(n as int) == acc,
            ChunkEnd::Partial(resume, acc) => r matches Chunk::Partial(rs, n) && rs == resume && n
                == acc.len() && final(buf)@.take(n as int) == acc,
            ChunkEnd::Fail(e) => r == Chunk::Fail(e),
        },
{
    let len = src.len();
    let ghost target = chunk_scan(src@, scan as int, Seq::empty());
    let mut s = scan;
    let mut n: usize = 0;
    proof {
        assert(buf@.take(0) =~= Seq::<u8>::empty());
    }
    while s < len && n < CHUNK_BUF
        invariant
            len == src@.len(),
            n <= CHUNK_BUF,
            buf@.len() == CHUNK_BUF,
            target == chunk_scan(src@, scan as int, Seq::empty()),
            chunk_scan(src@, s as int, buf@.take(n as int)) == target,
        decreases len - s,
    {
        let b = src[s];
        let ghost acc = buf@.take(n as int);
        if b == 0x22 {
            return Chunk::Final(s + 1, n);
        }
        if b == 0x5C {
            let e_pos = s + 1;
            if e_pos >= len {
                return Chunk::Fail(JsonError::BadEscape(e_pos));
            }
            let e = src[e_pos];
            if e == 0x75 {
                let cp = match decode_unicode_escape(src, e_pos) {
                    Ok(cp) => cp,
                    Err(err) => {
                        return Chunk::Fail(err);
                    },
                };
                let ghost before = buf@;
                let w = encode_utf8(cp, buf, n);
                if w == 0 {
                    return Chunk::Partial(s, n);
                }
                proof {
                    assert(buf@.take(n + w) =~= acc + cp_bytes(cp));
                }
                n += w;
                s = e_pos + 5;
            } else {
                let v: u8 = if e == 0x22 {
                    0x22
                } else if e == 0x5C {
                    0x5C
                } else if e == 0x2F {
                    0x2F
                } else if e == 0x62 {
                    0x08
                } else if e == 0x66 {
                    0x0C
                } else if e == 0x6E {
                    0x0A
                } else if e == 0x72 {
                    0x0D
                } else if e == 0x74 {
                    0x09
                } else {
                    return Chunk::Fail(JsonError::BadEscape(e_pos));
                };
                buf[n] = v;
                proof {
                    assert(buf@.take(n + 1) =~= acc + seq![v]);
                }
                n += 1;
                s = e_pos + 1;
            }
        } else if b < 0x20 {
            return Chunk::Fail(JsonError::ControlCharInString(s));
        } else {
            let next = utf8_next(src, s);
            let w = next - s;
            if w > CHUNK_BUF - n {
                return Chunk::Partial(s, n);
            }
            let ghost before = buf@;
            let mut j: usize = 0;
            while j < w
                invariant
                    j <= w,
                    w == next - s,
                    s < next <= len,
                    len == src@.len(),
                    n + w <= CHUNK_BUF,
                    buf@.len() == CHUNK_BUF,
                    buf@.take(n as int) == before.take(n as int),
                    forall|q: int| 0 <= q < j ==> #[trigger] buf@[n + q] == src@[s + q],
                decreases w - j,
            {
                buf[n + j] = src[s + j];
                j += 1;
            }
            proof {
                assert forall|q: int| n <= q < n + w implies buf@[q] == src@[s + (q - n)] by {
                    assert(buf@[n + (q - n)] == src@[s + (q - n)]);
                }
                assert forall|q: int| 0 <= q < n implies buf@[q] == acc[q] by {
                    assert(buf@.take(n as int)[q] == before.take(n as int)[q]);
                }
                assert(buf@.take(n + w) =~= acc + src@.subrange(s as int, next as int));
            }
            n += w;
            s = next;
        }
    }
    if s >= len {
        Chunk::Fail(JsonError::UnexpectedEof)
    } else {
        Chunk::Partial(s, n)
    }
}

/// Where a scan of a string body for its end stopped.
enum RawStop {
    Quote(usize),
    Escape,
    Control(usize),
    Eof,
}

/// Scan a string body from `i` code point by code point for its end.
fn scan_raw(src: &[u8], from: usize) -> (r: RawStop)
    ensures
        r matches RawStop::Quote(k) ==> from <= k < src@.len(),
        match raw_scan(src@, from as int) {
            RawEnd::Quote(q) => r matches RawStop::Quote(k) && k == q,
            RawEnd::Escape => r is Escape,
            RawEnd::Control(c) => r matches RawStop::Control(k) && k == c,
            RawEnd::Eof => r is Eof,
        },
{
    let len = src.len();
    let mut i = from;
    while i < len
        invariant
            len == src@.len(),
            raw_scan(src@, i as int) == raw_scan(src@, from as int),
            from <= i,
        decreases len - i,
    {
        let b = src[i];
        if b == 0x22 {
            return RawStop::Quote(i);
        }
        if b == 0x5C {
            return RawStop::Escape;
        }
        if b < 0x20 {
            return RawStop::Control(i);
        }
        i = utf8_next(src, i);
    }
    RawStop::Eof
}

/// Whether `r`, with the position and decoding state it leaves, is what
/// `l` describes.
pub open spec fn yields<'b>(
    l: Lexed,
    r: Result<Token<'b>, JsonError>,
    pos: usize,
    decode: Option<(usize, usize)>,
) -> bool {
    &&& pos == l.1
    &&& decode == l.2
    &&& match l.0 {
        Ok(tv) => r matches Ok(t) && t@ == tv,
        Err(e) => r matches Err(e2) && e2 == e,
    }
}

/// The first index at or after `i` that is not a digit.
fn digits_end(src: &[u8], i: usize) -> (r: usize)
    ensures
        r == digits_from(src@, i as int),
        i <= r,
        i <= src@.len() ==> r <= src@.len(),
{
    let len = src.len();
    let mut j = i;
    while j < len && 0x30 <= src[j] && src[j] <= 0x39
        invariant
            len == src@.len(),
            i <= j,
            i <= len ==> j <= len,
            j > i ==> j <= len,
            digits_from(src@, j as int) == digits_from(src@, i as int),
        decreases len - j,
    {
        j += 1;
    }
    j
}

/// Whether `word` occurs in `src` at `at`.
fn bytes_at(src: &[u8], at: usize, word: &[u8]) -> (r: bool)
    requires
        at + word@.len() <= src@.len(),
    ensures
        r == (src@.subrange(at as int, at + word@.len()) == word@),
{
    let n = word.len();
    let len = src.len();
    let mut k: usize = 0;
    while k < n
        invariant
            k <= n,
            n == word@.len(),
            len == src@.len(),
            at + n <= len,
            forall|j: int| 0 <= j < k ==> src@[at + j] == word@[j],
        decreases n - k,
    {
        if src[at + k] != word[k] {
            proof {
                assert(src@.subrange(at as int, at + n)[k as int] != word@[k as int]);
            }
            return false;
        }
        k += 1;
    }
    proof {
        assert(src@.subrange(at as int, at + n) =~= word@);
    }
    true
}

/// A streaming JSON tokenizer. Borrows its input; never allocates memory.
#[derive(Clone, Copy)]
pub struct Tokenizer<'a> {
    src: &'a [u8],
    pos: usize,
    /// Active string-decode state: `(body_start, scan)` where `scan` is the
    /// next unread byte of the string body.
    decode: Option<(usize, usize)>,
    /// Scratch buffer for decoded escape chunks.
    scratch: [u8; 64],
}

impl<'a> Tokenizer<'a> {
    /// The input.
    pub closed spec fn src(&self) -> Seq<u8> {
        self.src@
    }

    /// The current byte offset.
    pub closed spec fn pos(&self) -> usize {
        self.pos
    }

    /// The state of the escaped string being decoded, if any.
    pub closed spec fn decode(&self) -> Option<(usize, usize)> {
        self.decode
    }

    /// Create a tokenizer over `src`.
    pub fn new(src: &'a [u8]) -> (t: Self)
        ensures
            t.src() == src@,
            t.pos() == 0,
            t.decode() is None,
    {
        Tokenizer { src, pos: 0, decode: None, scratch: [0u8; 64] }
    }

    /// Current byte offset into the source.
    pub fn position(&self) -> (r: usize)
        ensures
            r == self.pos(),
    {
        self.pos
    }

    fn skip_ws(&mut self)
        ensures
            final(self).src() == old(self).src(),
            final(self).decode() == old(self).decode(),
            final(self).pos() == skip_ws_from(old(self).src(), old(self).pos() as int),
    {
        let len = self.src.len();
        while self.pos < len
            invariant
                len == self.src@.len(),
                self.src@ == old(self).src@,
                self.decode == old(self).decode,
                skip_ws_from(self.src@, self.pos as int) == skip_ws_from(
                    old(self).src@,
                    old(self).pos as int,
                ),
            decreases len - self.pos,
        {
            let b = self.src[self.pos];
            if b == 0x20 || b == 0x09 || b == 0x0A || b == 0x0D {
                self.pos += 1;
            } else {
                return;
            }
        }
    }

    fn tok(&mut self, t: Token<'a>, adv: usize) -> (r: Result<Token<'a>, JsonError>)
        requires
            old(self).pos + adv <= usize::MAX,
        ensures
            final(self).src() == old(self).src(),
            final(self).decode() == old(self).decode(),
            final(self).pos() == old(self).pos() + adv,
            r == Ok::<Token<'a>, JsonError>(t),
    {
        self.pos += adv;
        Ok(t)
    }

    fn lit(&mut self, word: &[u8], t: Token<'a>) -> (r: Result<Token<'a>, JsonError>)
        requires
            old(self).pos <= old(self).src().len(),
            old(self).decode() is None,
        ensures
            final(self).src() == old(self).src(),
            ({
                let (res, np, nd) = lex_literal(old(self).src(), old(self).pos() as int, word@, t@);
                &&& final(self).pos() == np
                &&& final(self).decode() == nd
                &&& match res {
                    Ok(tv) => r == Ok::<Token<'a>, JsonError>(t) && tv == t@,
                    Err(e) => r == Err::<Token<'a>, JsonError>(e),
                }
            }),
    {
        let len = self.src.len();
        let n = word.len();
        if len - self.pos < n || !bytes_at(self.src, self.pos, word) {
            return Err(JsonError::UnexpectedByte(self.pos));
        }
        self.tok(t, n)
    }

    fn number(&mut self) -> (r: Result<Token<'a>, JsonError>)
        requires
            old(self).pos < old(self).src().len(),
            old(self).src()[old(self).pos() as int] == 0x2D || is_digit(
                old(self).src()[old(self).pos() as int],
            ),
        ensures
            final(self).src() == old(self).src(),
            final(self).decode() == old(self).decode(),
            ({
                let (res, end) = lex_number(old(self).src(), old(self).pos() as int);
                &&& final(self).pos() == end
                &&& match res {
                    Ok(tv) => r matches Ok(t) && t@ == tv,
                    Err(e) => r matches Err(e2) && e2 == e,
                }
            }),
    {
        let src = self.src;
        let len = src.len();
        let start = self.pos;
        let negative = src[start] == 0x2D;
        let int_start = if negative { start + 1 } else { start };
        let int_end = digits_end(src, int_start);
        if int_end == int_start {
            self.pos = int_end;
            return Err(JsonError::BadNumber(start));
        }
        let mut end = int_end;
        if end < len && src[end] == 0x2E {
            let frac_end = digits_end(src, end + 1);
            if frac_end == end + 1 {
                self.pos = frac_end;
                return Err(JsonError::BadNumber(start));
            }
            end = frac_end;
        }
        if end < len && (src[end] == 0x65 || src[end] == 0x45) {
            let sign_at = end + 1;
            let exp_start = if sign_at < len && (src[sign_at] == 0x2B || src[sign_at] == 0x2D) {
                sign_at + 1
            } else {
                sign_at
            };
            let exp_end = digits_end(src, exp_start);
            if exp_end == exp_start {
                self.pos = exp_end;
                return Err(JsonError::BadNumber(start));
            }
            end = exp_end;
        }
        self.pos = end;
        Ok(Token::Number { bytes: vstd::slice::slice_subrange(src, start, end), negative })
    }

    fn string_start(&mut self) -> (r: Result<Token<'_>, JsonError>)
        requires
            old(self).pos < old(self).src().len(),
            old(self).src()[old(self).pos() as int] == 0x22,
        ensures
            final(self).src() == old(self).src(),
            yields(lex_string(old(self).src(), old(self).pos() as int), r, final(self).pos(), final(self).decode()),
    {
        let len = self.src.len();
        let start = self.pos;
        self.pos = start + 1;
        let body_start = self.pos;
        self.decode = None;
        match scan_raw(self.src, body_start) {
            RawStop::Quote(i) => {
                let raw = vstd::slice::slice_subrange(self.src, body_start, i);
                match from_bytes(raw) {
                    Ok(_) => {
                        self.pos = i + 1;
                        Ok(Token::StringRaw(raw))
                    },
                    Err(_) => Err(JsonError::InvalidUtf8(start)),
                }
            },
            RawStop::Escape => {
                self.decode = Some((body_start, body_start));
                self.next_string_chunk(body_start, body_start)
            },
            RawStop::Control(i) => Err(JsonError::ControlCharInString(i)),
            RawStop::Eof => Err(JsonError::UnexpectedEof),
        }
    }

    /// Return the next token. Call repeatedly until [`Token::Eof`].
    ///
    /// When a string contains escape sequences, the tokenizer emits one
    /// [`Token::StringChunk`] per call until the string ends (`last == true`).
    /// Each chunk borrows the tokenizer's scratch buffer, which the next call
    /// overwrites.
    pub fn next_token(&mut self) -> (r: Result<Token<'_>, JsonError>)
        ensures
            final(self).src() == old(self).src(),
            yields(
                lex(old(self).src(), old(self).pos() as int, old(self).decode()),
                r,
                final(self).pos(),
                final(self).decode(),
            ),
    {
        if let Some((body_start, scan)) = self.decode {
            return self.next_string_chunk(body_start, scan);
        }
        self.skip_ws();
        if self.pos >= self.src.len() {
            return Ok(Token::Eof);
        }
        let b = self.src[self.pos];
        if b == 0x7B {
            self.tok(Token::ObjectStart, 1)
        } else if b == 0x7D {
            self.tok(Token::ObjectEnd, 1)
        } else if b == 0x5B {
            self.tok(Token::ArrayStart, 1)
        } else if b == 0x5D {
            self.tok(Token::ArrayEnd, 1)
        } else if b == 0x2C {
            self.tok(Token::Comma, 1)
        } else if b == 0x3A {
            self.tok(Token::Colon, 1)
        } else if b == 0x74 {
            let word: [u8; 4] = [0x74, 0x72, 0x75, 0x65];
            proof {
                assert(word@ =~= seq![0x74u8, 0x72, 0x75, 0x65]);
            }
            self.lit(word.as_slice(), Token::True)
        } else if b == 0x66 {
            let word: [u8; 5] = [0x66, 0x61, 0x6C, 0x73, 0x65];
            proof {
                assert(word@ =~= seq![0x66u8, 0x61, 0x6C, 0x73, 0x65]);
            }
            self.lit(word.as_slice(), Token::False)
        } else if b == 0x6E {
            let word: [u8; 4] = [0x6E, 0x75, 0x6C, 0x6C];
            proof {
                assert(word@ =~= seq![0x6Eu8, 0x75, 0x6C, 0x6C]);
            }
            self.lit(word.as_slice(), Token::Null)
        } else if b == 0x22 {
            self.string_start()
        } else if b == 0x2D || (0x30 <= b && b <= 0x39) {
            self.number()
        } else {
            Err(JsonError::UnexpectedByte(self.pos))
        }
    }

    fn next_string_chunk(&mut self, body_start: usize, scan: usize) -> (r: Result<
        Token<'_>,
        JsonError,
    >)
        ensures
            final(self).src() == old(self).src(),
            yields(
                lex_chunk(
                    old(self).src(),
                    body_start,
                    scan as int,
                    old(self).pos() as int,
                    old(self).decode(),
                ),
                r,
                final(self).pos(),
                final(self).decode(),
            ),
    {
        match decode_chunk(self.src, scan, &mut self.scratch) {
            Chunk::Final(next, n) => {
                self.pos = next;
                self.decode = None;
                Ok(
                    Token::StringChunk {
                        bytes: vstd::slice::slice_subrange(self.scratch.as_slice(), 0, n),
                        last: true,
                    },
                )
            },
            Chunk::Partial(resume, n) => {
                self.decode = Some((body_start, resume));
                Ok(
                    Token::StringChunk {
                        bytes: vstd::slice::slice_subrange(self.scratch.as_slice(), 0, n),
                        last: false,
                    },
                )
            },
            Chunk::Fail(e) => Err(e),
        }
    }
}

/// Bytes below 0x80 are well-formed UTF-8.
pub(crate) proof fn lemma_ascii_valid_utf8(s: Seq<u8>)
    requires
        forall|i: int| 0 <= i < s.len() ==> s[i] < 0x80,
    ensures
        valid_utf8(s),
    decreases s.len(),
{
    if s.len() > 0 {
        let rest = s.subrange(1, s.len() as int);
        assert forall|i: int| 0 <= i < rest.len() implies rest[i] < 0x80 by {
            assert(rest[i] == s[i + 1]);
        }
        lemma_ascii_valid_utf8(rest);
        assert(vstd::utf8::pop_first_scalar(s) =~= rest);
    }
}

/// A byte that may stand unescaped in a JSON string without ending it: a
/// printable ASCII character other than `"` and `\\`.
pub open spec fn plain_string_byte(b: u8) -> bool {
    b == 0x21 || (0x23 <= b <= 0x5B) || (0x5D <= b <= 0x7E)
}

/// A quoted string of plain printable ASCII bytes reads back as one
/// `StringRaw` token holding exactly those bytes, and the tokenizer stops
/// right after the closing quote.
pub proof fn lemma_raw_string_roundtrip(s: Seq<u8>)
    requires
        forall|i: int| 0 <= i < s.len() ==> plain_string_byte(#[trigger] s[i]),
    ensures
        lex(seq![0x22u8] + s + seq![0x22u8], 0, None) == (
            Ok::<TokenView, JsonError>(TokenView::StringRaw(s)),
            s.len() + 2int,
            None::<(usize, usize)>,
        ),
{
    let src = seq![0x22u8] + s + seq![0x22u8];
    let n = s.len() as int;
    assert(src[0] == 0x22);
    assert(skip_ws_from(src, 0) == 0);
    assert forall|i: int| 1 <= i <= n + 1 implies raw_scan(src, i) == RawEnd::Quote(n + 1) by {
        lemma_raw_scan_plain(s, i);
    }
    assert(src.subrange(1, n + 1) =~= s);
    assert forall|i: int| 0 <= i < s.len() implies s[i] < 0x80 by {
        assert(plain_string_byte(s[i]));
    }
    lemma_ascii_valid_utf8(s);
}

proof fn lemma_raw_scan_plain(s: Seq<u8>, i: int)
    requires
        forall|k: int| 0 <= k < s.len() ==> plain_string_byte(#[trigger] s[k]),
        1 <= i <= s.len() + 1,
    ensures
        raw_scan(seq![0x22u8] + s + seq![0x22u8], i) == RawEnd::Quote(s.len() + 1int),
    decreases s.len() + 1 - i,
{
    let src = seq![0x22u8] + s + seq![0x22u8];
    if i == s.len() + 1 {
        assert(src[i] == 0x22);
    } else {
        assert(src[i] == s[i - 1]);
        assert(plain_string_byte(s[i - 1]));
        assert(next_boundary(src, i) == i + 1);
        lemma_raw_scan_plain(s, i + 1);
    }
}

/// The lowercase hexadecimal digit for `d < 16`.
pub open spec fn hex_digit_char(d: u32) -> char {
    if d < 10 {
        (0x30 + d) as char
    } else {
        (0x61 + d - 10) as char
    }
}

/// How a string character is written inside a JSON string literal:
/// `"` `\\` and the common control characters with a short escape, the other
/// control characters as `\\u00XX`, everything else as itself.
pub open spec fn json_escape(c: char) -> Seq<char> {
    let v = c as u32;
    if c == '"' {
        seq!['\\', '"']
    } else if c == '\\' {
        seq!['\\', '\\']
    } else if c == '\n' {
        seq!['\\', 'n']
    } else if c == '\r' {
        seq!['\\', 'r']
    } else if c == '\t' {
        seq!['\\', 't']
    } else if v == 0x08 {
        seq!['\\', 'b']
    } else if v == 0x0C {
        seq!['\\', 'f']
    } else if v < 0x20 {
        seq!['\\', 'u', '0', '0', hex_digit_char(v / 16), hex_digit_char(v % 16)]
    } else {
        seq![c]
    }
}

/// The characters of `s`, each as [`json_escape`] writes it.
pub open spec fn json_escaped(s: Seq<char>) -> Seq<char>
    decreases s.len(),
{
    if s.len() == 0 {
        Seq::empty()
    } else {
        json_escaped(s.drop_last()) + json_escape(s.last())
    }
}

/// Writing a concatenation writes each part: every character is written on
/// its own.
pub proof fn lemma_json_escaped_concat(a: Seq<char>, b: Seq<char>)
    ensures
        json_escaped(a + b) == json_escaped(a) + json_escaped(b),
    decreases b.len(),
{
    if b.len() == 0 {
        assert(a + b =~= a);
        assert(json_escaped(a) + json_escaped(b) =~= json_escaped(a));
    } else {
        assert((a + b).drop_last() =~= a + b.drop_last());
        assert((a + b).last() == b.last());
        lemma_json_escaped_concat(a, b.drop_last());
        assert(json_escaped(a + b) =~= json_escaped(a) + (json_escaped(b.drop_last())
            + json_escape(b.last())));
    }
}

/// How each character of a string is written: `"` as `\"`, `\` as `\\`,
/// line feed, carriage return, tab, backspace and form feed as `\n`, `\r`,
/// `\t`, `\b`, `\f`; any other character below `0x20` as `\u00` and two
/// lowercase hexadecimal digits; every other character as itself.
pub proof fn lemma_json_escape_one(c: char)
    ensures
        ({
            let v = c as u32;
            let lo = v % 16;
            &&& c == '"' ==> json_escaped(seq![c]) == seq!['\\', '"']
            &&& c == '\\' ==> json_escaped(seq![c]) == seq!['\\', '\\']
            &&& v == 0x0A ==> json_escaped(seq![c]) == seq!['\\', 'n']
            &&& v == 0x0D ==> json_escaped(seq![c]) == seq!['\\', 'r']
            &&& v == 0x09 ==> json_escaped(seq![c]) == seq!['\\', 't']
            &&& v == 0x08 ==> json_escaped(seq![c]) == seq!['\\', 'b']
            &&& v == 0x0C ==> json_escaped(seq![c]) == seq!['\\', 'f']
            &&& v < 0x20 && !(v == 0x0A || v == 0x0D || v == 0x09 || v == 0x08 || v == 0x0C)
                ==> json_escaped(seq![c]) == seq![
                '\\',
                'u',
                '0',
                '0',
                (0x30 + v / 16) as char,
                (if lo < 10 { 0x30 + lo } else { 0x57 + lo }) as char,
            ]
            &&& v >= 0x20 && c != '"' && c != '\\' ==> json_escaped(seq![c]) == seq![c]
        }),
{
    assert(seq![c].drop_last() =~= Seq::<char>::empty());
    assert(seq![c].last() == c);
    assert(json_escaped(Seq::<char>::empty()) =~= Seq::<char>::empty());
    assert(json_escaped(seq![c]) =~= json_escape(c));
}

/// `s` as a JSON string literal: quoted, with quotes, backslashes and control
/// characters escaped.
pub fn quote_string(s: &str) -> (r: String)
    ensures
        r@ == seq!['"'] + json_escaped(s@) + seq!['"'],
{
    let mut out = String::new();
    string_push(&mut out, '"');
    for c in it: s.chars()
        invariant
            it.seq() == s@,
            out@ == seq!['"'] + json_escaped(it.seq().take(it.index())),
    {
        let ghost before = out@;
        proof {
            assert(it.seq().take(it.index() + 1).drop_last() =~= it.seq().take(it.index()));
            assert(it.seq().take(it.index() + 1).last() == c);
        }
        let v = c as u32;
        if c == '"' {
            string_push(&mut out, '\\');
            string_push(&mut out, '"');
        } else if c == '\\' {
            string_push(&mut out, '\\');
            string_push(&mut out, '\\');
        } else if c == '\n' {
            string_push(&mut out, '\\');
            string_push(&mut out, 'n');
        } else if c == '\r' {
            string_push(&mut out, '\\');
            string_push(&mut out, 'r');
        } else if c == '\t' {
            string_push(&mut out, '\\');
            string_push(&mut out, 't');
        } else if v == 0x08 {
            string_push(&mut out, '\\');
            string_push(&mut out, 'b');
        } else if v == 0x0C {
            string_push(&mut out, '\\');
            string_push(&mut out, 'f');
        } else if v < 0x20 {
            string_push(&mut out, '\\');
            string_push(&mut out, 'u');
            string_push(&mut out, '0');
            string_push(&mut out, '0');
            string_push(&mut out, hex_char(v / 16));
            string_push(&mut out, hex_char(v % 16));
        } else {
            string_push(&mut out, c);
        }
        proof {
            assert(out@ =~= before + json_escape(c));
            assert(out@ =~= seq!['"'] + json_escaped(it.seq().take(it.index() + 1)));
        }
    }
    proof {
        assert(s@.take(s@.len() as int) =~= s@);
    }
    string_push(&mut out, '"');
    out
}

/// The lowercase hexadecimal digit for `d < 16`.
fn hex_char(d: u32) -> (r: char)
    requires
        d < 16,
    ensures
        r == hex_digit_char(d),
{
    if d < 10 {
        let b = (0x30 + d) as u8;
        b as char
    } else {
        let b = (0x61 + d - 10) as u8;
        b as char
    }
}

} // verus!
