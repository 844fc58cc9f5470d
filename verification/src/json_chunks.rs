//! What the tokenizer's string chunks add up to: decoding an escaped JSON
//! string chunk by chunk, as successive [`Tokenizer::next_token`] calls do,
//! gives the string's decoded bytes, with every chunk but the last marked as
//! not last.
//!
//! [`Tokenizer::next_token`]: crate::json::Tokenizer::next_token
use vstd::prelude::*;
use vstd::utf8::{encode_scalar, has_width_1_encoding, has_width_2_encoding, has_width_3_encoding};
use crate::json::{
    char_width, chunk_scan, cp_bytes, hex_digit, hex_value, lex, next_boundary, raw_scan,
    skip_ws_from, string_item, unicode_escape, ChunkEnd, Item, JsonError, TokenView, CHUNK_BUF,
};

verus! {

/// The decoded bytes of a string body from `s` to its closing quote, element
/// by element, and the index after that quote; `None` when the body is
/// malformed or never closes.
pub open spec fn body_decoded(src: Seq<u8>, s: int) -> Option<(Seq<u8>, int)>
    decreases src.len() - s,
{
    if !(0 <= s < src.len()) {
        None
    } else {
        match string_item(src, s) {
            Item::Close => Some((Seq::empty(), s + 1)),
            Item::Fail(_) => None,
            Item::Bytes(bs, next) => if next > s {
                match body_decoded(src, next) {
                    Some((d, e)) => Some((bs + d, e)),
                    None => None,
                }
            } else {
                None
            },
        }
    }
}

/// `d` put in front of the decoded bytes of `o`.
pub open spec fn prepend(d: Seq<u8>, o: Option<(Seq<u8>, int)>) -> Option<(Seq<u8>, int)> {
    match o {
        Some((x, e)) => Some((d + x, e)),
        None => None,
    }
}

/// The chunks that successive tokenizer calls emit while decoding the string
/// whose body starts at `body`, from body index `s` on (the tokenizer at
/// `pos`): their bytes in order, and the position after the last one.
/// `None` when a call fails, or yields anything but a chunk.
pub open spec fn emitted_chunks(src: Seq<u8>, pos: int, body: usize, s: usize) -> Option<
    (Seq<Seq<u8>>, int),
>
    decreases src.len() - s,
{
    match lex(src, pos, Some((body, s))) {
        (Ok(TokenView::StringChunk(bytes, true)), next, _) => Some((seq![bytes], next)),
        (Ok(TokenView::StringChunk(bytes, false)), p2, Some((_, s2))) => if s < s2 <= src.len() {
            match emitted_chunks(src, p2, body, s2) {
                Some((cs, e)) => Some((seq![bytes] + cs, e)),
                None => None,
            }
        } else {
            None
        },
        _ => None,
    }
}

/// No element of a string body decodes to more than four bytes.
proof fn lemma_item_len(src: Seq<u8>, s: int)
    requires
        0 <= s < src.len(),
    ensures
        string_item(src, s) matches Item::Bytes(bs, next) ==> bs.len() <= 4,
{
    let nb = next_boundary(src, s);
    assert(char_width(src[s]) <= 4);
    assert(nb - s <= 4);
}

/// Decoding one chunk onto `acc`: the chunk is `acc` followed by the decoded
/// bytes up to where it stops, and the rest of the body decodes from there.
proof fn lemma_chunk_scan(src: Seq<u8>, s: int, acc: Seq<u8>)
    ensures
        match chunk_scan(src, s, acc) {
            ChunkEnd::Final(next, out) => out.len() >= acc.len() && out.take(acc.len() as int)
                == acc && body_decoded(src, s) == Some((out.skip(acc.len() as int), next)),
            ChunkEnd::Partial(resume, out) => {
                &&& s <= resume < src.len()
                &&& out.len() >= acc.len()
                &&& out.take(acc.len() as int) == acc
                &&& resume == s ==> out == acc && (acc.len() >= CHUNK_BUF || (string_item(
                    src,
                    s,
                ) matches Item::Bytes(bs, _) && acc.len() + bs.len() > CHUNK_BUF))
                &&& body_decoded(src, s) == prepend(
                    out.skip(acc.len() as int),
                    body_decoded(src, resume),
                )
            },
            ChunkEnd::Fail(_) => body_decoded(src, s) is None,
        },
    decreases src.len() - s,
{
    if !(0 <= s < src.len()) {
    } else if acc.len() >= CHUNK_BUF {
        lemma_prepend_empty(src, s);
        assert(acc.take(acc.len() as int) =~= acc);
        assert(acc.skip(acc.len() as int) =~= Seq::<u8>::empty());
    } else {
        match string_item(src, s) {
            Item::Close => {
                assert(acc.take(acc.len() as int) =~= acc);
                assert(acc.skip(acc.len() as int) =~= Seq::<u8>::empty());
            },
            Item::Fail(_) => {},
            Item::Bytes(bs, next) => {
                if acc.len() + bs.len() > CHUNK_BUF {
                    lemma_prepend_empty(src, s);
                    assert(acc.take(acc.len() as int) =~= acc);
                    assert(acc.skip(acc.len() as int) =~= Seq::<u8>::empty());
                } else if next > s {
                    let acc2 = acc + bs;
                    lemma_chunk_scan(src, next, acc2);
                    match chunk_scan(src, next, acc2) {
                        ChunkEnd::Final(n2, out) => {
                            assert(out.take(acc.len() as int) =~= out.take(acc2.len() as int).take(
                                acc.len() as int,
                            ));
                            assert(out.take(acc2.len() as int).take(acc.len() as int) =~= acc);
                            assert(out.skip(acc.len() as int) =~= bs + out.skip(acc2.len() as int))
                                by {
                                assert(out.take(acc2.len() as int).skip(acc.len() as int) =~= bs);
                            }
                        },
                        ChunkEnd::Partial(resume, out) => {
                            assert(out.take(acc.len() as int) =~= out.take(acc2.len() as int).take(
                                acc.len() as int,
                            ));
                            assert(out.take(acc2.len() as int).take(acc.len() as int) =~= acc);
                            assert(out.skip(acc.len() as int) =~= bs + out.skip(acc2.len() as int))
                                by {
                                assert(out.take(acc2.len() as int).skip(acc.len() as int) =~= bs);
                            }
                            match body_decoded(src, resume) {
                                Some((x, e)) => {
                                    assert(bs + (out.skip(acc2.len() as int) + x) =~= out.skip(
                                        acc.len() as int,
                                    ) + x);
                                },
                                None => {},
                            }
                        },
                        ChunkEnd::Fail(_) => {},
                    }
                } else {
                }
            },
        }
    }
}

/// Putting nothing in front changes nothing.
proof fn lemma_prepend_empty(src: Seq<u8>, s: int)
    ensures
        prepend(Seq::empty(), body_decoded(src, s)) == body_decoded(src, s),
{
    match body_decoded(src, s) {
        Some((x, e)) => {
            assert(Seq::<u8>::empty() + x =~= x);
        },
        None => {},
    }
}

/// Decoding a string chunk by chunk, as successive tokenizer calls do, gives
/// its decoded bytes and ends after its closing quote; it fails exactly when
/// the string body is malformed or never closes.
pub proof fn lemma_chunks_concat(src: Seq<u8>, pos: int, body: usize, s: usize)
    requires
        src.len() <= usize::MAX,
    ensures
        match body_decoded(src, s as int) {
            Some((d, e)) => emitted_chunks(src, pos, body, s) matches Some((cs, e2)) && e2 == e
                && cs.flatten() == d,
            None => emitted_chunks(src, pos, body, s) is None,
        },
    decreases src.len() - s,
{
    lemma_chunk_scan(src, s as int, Seq::empty());
    let e0 = Seq::<u8>::empty();
    match chunk_scan(src, s as int, e0) {
        ChunkEnd::Final(next, acc) => {
            assert(acc.skip(0) =~= acc);
            let cs = seq![acc];
            assert(cs.drop_first() =~= Seq::<Seq<u8>>::empty());
            assert(cs.drop_first().flatten() =~= Seq::<u8>::empty());
            assert(cs.first() == acc);
            assert(cs.flatten() =~= acc + Seq::<u8>::empty());
        },
        ChunkEnd::Partial(resume, acc) => {
            assert(acc.skip(0) =~= acc);
            if resume == s {
                lemma_item_len(src, s as int);
                assert(false);
            }
            lemma_chunks_concat(src, pos, body, resume as usize);
            match body_decoded(src, resume) {
                Some((d, e)) => {
                    let cs = emitted_chunks(src, pos, body, resume as usize)->Some_0.0;
                    let all = seq![acc] + cs;
                    assert(all.drop_first() =~= cs);
                    assert(all.first() == acc);
                },
                None => {},
            }
        },
        ChunkEnd::Fail(_) => {},
    }
}

/// The call that meets a string with escapes is the first of its chunk
/// calls: it decodes from the start of the body.
pub proof fn lemma_first_chunk_call(src: Seq<u8>, pos: int)
    requires
        src.len() <= usize::MAX,
        0 <= skip_ws_from(src, pos) < src.len(),
        src[skip_ws_from(src, pos)] == 0x22,
        raw_scan(src, skip_ws_from(src, pos) + 1) is Escape,
    ensures
        ({
            let body = skip_ws_from(src, pos) + 1;
            lex(src, pos, None) == lex(src, body, Some((body as usize, body as usize)))
        }),
{
}

/// The escapes of RFC 8259 decode to their bytes: in a string body, `\"`,
/// `\\` and `\/` stand for `"`, `\` and `/`, and `\b`, `\f`, `\n`, `\r`,
/// `\t` for backspace, form feed, line feed, carriage return and tab. Any
/// other byte after a backslash (but `u`), or none, is a malformed escape,
/// reported at the byte after the backslash.
pub proof fn lemma_simple_escapes(src: Seq<u8>, s: int)
    requires
        0 <= s < src.len(),
        src[s] == 0x5C,
    ensures
        s + 1 == src.len() ==> string_item(src, s) == Item::Fail(JsonError::BadEscape(
            (s + 1) as usize,
        )) && body_decoded(src, s) is None,
        s + 1 < src.len() ==> {
            let e = src[s + 1];
            &&& e == 0x22 ==> body_decoded(src, s) == prepend(seq![0x22u8], body_decoded(src, s + 2))
            &&& e == 0x5C ==> body_decoded(src, s) == prepend(seq![0x5Cu8], body_decoded(src, s + 2))
            &&& e == 0x2F ==> body_decoded(src, s) == prepend(seq![0x2Fu8], body_decoded(src, s + 2))
            &&& e == 0x62 ==> body_decoded(src, s) == prepend(seq![0x08u8], body_decoded(src, s + 2))
            &&& e == 0x66 ==> body_decoded(src, s) == prepend(seq![0x0Cu8], body_decoded(src, s + 2))
            &&& e == 0x6E ==> body_decoded(src, s) == prepend(seq![0x0Au8], body_decoded(src, s + 2))
            &&& e == 0x72 ==> body_decoded(src, s) == prepend(seq![0x0Du8], body_decoded(src, s + 2))
            &&& e == 0x74 ==> body_decoded(src, s) == prepend(seq![0x09u8], body_decoded(src, s + 2))
            &&& !(e == 0x22 || e == 0x5C || e == 0x2F || e == 0x62 || e == 0x66 || e == 0x6E || e
                == 0x72 || e == 0x74 || e == 0x75) ==> string_item(src, s) == Item::Fail(
                JsonError::BadEscape((s + 1) as usize),
            ) && body_decoded(src, s) is None
        },
{
}

/// The value of a hexadecimal digit of either case.
pub open spec fn hex_of(c: u8) -> int {
    if c <= 0x39 {
        c - 0x30
    } else if c <= 0x46 {
        c - 0x41 + 10
    } else {
        c - 0x61 + 10
    }
}

/// Whether `c` is a hexadecimal digit of either case.
pub open spec fn is_hex(c: u8) -> bool {
    (0x30 <= c <= 0x39) || (0x41 <= c <= 0x46) || (0x61 <= c <= 0x66)
}

proof fn lemma_hex_digit(c: u8)
    ensures
        is_hex(c) ==> hex_digit(c) == Some(hex_of(c) as u32),
        !is_hex(c) ==> hex_digit(c) is None,
{
}

/// A code point below `0x10000` that is no surrogate is written as its
/// UTF-8 encoding.
proof fn lemma_cp_bytes_utf8(v: u32)
    requires
        v < 0x1_0000,
        !(0xD800 <= v <= 0xDFFF),
    ensures
        cp_bytes(v) == encode_scalar(v),
{
    if v < 0x80 {
        assert((v & 0x7F) as u8 == v as u8) by (bit_vector)
            requires
                v < 0x80,
        ;
        assert(has_width_1_encoding(v));
    } else if v < 0x800 {
        assert((0xC0 + v / 64) as u8 == 0xC0 | ((v >> 6) & 0x1F) as u8 && (0x80 + v % 64) as u8
            == 0x80 | (v & 0x3F) as u8) by (bit_vector)
            requires
                0x80 <= v < 0x800,
        ;
        assert(has_width_2_encoding(v));
    } else {
        assert((0xE0 + v / 4096) as u8 == 0xE0 | ((v >> 12) & 0x0F) as u8 && (0x80 + (v / 64) % 64)
            as u8 == 0x80 | ((v >> 6) & 0x3F) as u8 && (0x80 + v % 64) as u8 == 0x80 | (v & 0x3F)
            as u8) by (bit_vector)
            requires
                0x800 <= v < 0x1_0000,
        ;
        assert(has_width_3_encoding(v));
    }
}

/// A `\uXXXX` escape with four hexadecimal digits (either case) decodes to
/// the code point they spell: its UTF-8 encoding, or for a lone surrogate the
/// same three-byte pattern. With fewer than four digits after the `u`, the
/// escape is malformed, reported at the `u`.
pub proof fn lemma_unicode_escapes(src: Seq<u8>, s: int)
    requires
        0 <= s,
        s + 1 < src.len(),
        src[s] == 0x5C,
        src[s + 1] == 0x75,
    ensures
        ({
            let good = s + 6 <= src.len() && is_hex(src[s + 2]) && is_hex(src[s + 3]) && is_hex(
                src[s + 4],
            ) && is_hex(src[s + 5]);
            let v = hex_of(src[s + 2]) * 4096 + hex_of(src[s + 3]) * 256 + hex_of(src[s + 4]) * 16
                + hex_of(src[s + 5]);
            &&& good && !(0xD800 <= v <= 0xDFFF) ==> body_decoded(src, s) == prepend(
                encode_scalar(v as u32),
                body_decoded(src, s + 6),
            )
            &&& good && 0xD800 <= v <= 0xDFFF ==> body_decoded(src, s) == prepend(
                seq![(0xE0 + v / 4096) as u8, (0x80 + (v / 64) % 64) as u8, (0x80 + v % 64) as u8],
                body_decoded(src, s + 6),
            )
            &&& !good ==> string_item(src, s) == Item::Fail(JsonError::BadEscape((s + 1) as usize))
                && body_decoded(src, s) is None
        }),
{
    let u = s + 1;
    if s + 6 <= src.len() {
        lemma_hex_digit(src[s + 2]);
        lemma_hex_digit(src[s + 3]);
        lemma_hex_digit(src[s + 4]);
        lemma_hex_digit(src[s + 5]);
        let good = is_hex(src[s + 2]) && is_hex(src[s + 3]) && is_hex(src[s + 4]) && is_hex(
            src[s + 5],
        );
        if good {
            assert(forall|j: int| 0 <= j < 4 ==> (#[trigger] hex_digit(src[u + 1 + j])) is Some) by {
                assert forall|j: int| 0 <= j < 4 implies (#[trigger] hex_digit(src[u + 1 + j])) is Some by {
                    if j == 0 {} else if j == 1 {} else if j == 2 {} else {}
                }
            }
            reveal_with_fuel(hex_value, 5);
            let v = hex_of(src[s + 2]) * 4096 + hex_of(src[s + 3]) * 256 + hex_of(src[s + 4]) * 16
                + hex_of(src[s + 5]);
            assert(hex_value(src, u + 1, 4) == v);
            assert(unicode_escape(src, u) == Some(v as u32));
            if !(0xD800 <= v <= 0xDFFF) {
                lemma_cp_bytes_utf8(v as u32);
            }
        } else {
            let k: int = if !is_hex(src[s + 2]) { 0 } else if !is_hex(src[s + 3]) { 1 } else if !is_hex(src[s + 4]) { 2 } else { 3 };
            assert(hex_digit(src[u + 1 + k]) is None);
            assert(unicode_escape(src, u) is None);
        }
    }
}

} // verus!
