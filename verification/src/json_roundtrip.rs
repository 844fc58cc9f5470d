//! Reading back what the writer wrote: [`to_json_string`]'s text parses, by
//! [`parse_tree`], to the tree it was written from.
//!
//! [`to_json_string`]: crate::json_tree::to_json_string
//! [`parse_tree`]: crate::json_tree::parse_tree
use vstd::prelude::*;
use vstd::utf8::*;
use crate::arraystring::lemma_encode_utf8_concat;
use crate::json_tree::{
    after, key_from, lemma_step_progress, potential, progress, state_ok, step, string_rest,
    value_from, NodeView, LexState, number_ok, tree_text, items_text, entries_text, quoted,
    parse_value, array_start, array_after, object_start, object_entry, parse_document,
};
use crate::text::text_of;
use crate::json_chunks::{body_decoded, emitted_chunks, lemma_chunks_concat};
use crate::json::{
    chunk_scan, hex_digit, hex_digit_char, hex_value, json_escape, json_escaped, lex, next_boundary,
    raw_scan, simple_escape, string_item, unicode_escape, cp_bytes, lex_chunk, lex_string, skip_ws_from,
    digits_from, is_digit, lex_number, lemma_ascii_valid_utf8, JsonError, lex_literal, Lexed,
    ChunkEnd, Item, RawEnd, TokenView,
};

verus! {

/// A char that the writer escapes: `"`, `\` or a control character.
pub open spec fn needs_escape(c: char) -> bool {
    c == '"' || c == '\\' || (c as u32) < 0x20
}

/// The bytes the writer emits for `c` inside a string literal.
pub open spec fn esc_bytes(c: char) -> Seq<u8> {
    encode_utf8(json_escape(c))
}

/// An ASCII char is encoded as its own byte.
proof fn lemma_ascii_scalar(v: u32)
    requires
        v <= 0x7F,
    ensures
        encode_scalar(v) == seq![v as u8],
{
    assert((v & 0x7F) as u8 == v as u8) by (bit_vector)
        requires
            v <= 0x7F,
    ;
}

/// ASCII text is encoded byte for byte.
proof fn lemma_ascii_encode(cs: Seq<char>)
    requires
        forall|i: int| 0 <= i < cs.len() ==> (#[trigger] cs[i] as u32) <= 0x7F,
    ensures
        encode_utf8(cs).len() == cs.len(),
        forall|i: int| 0 <= i < cs.len() ==> #[trigger] encode_utf8(cs)[i] == cs[i] as u32 as u8,
    decreases cs.len(),
{
    if cs.len() > 0 {
        lemma_ascii_scalar(cs[0] as u32);
        let rest = cs.drop_first();
        assert forall|i: int| 0 <= i < rest.len() implies (#[trigger] rest[i] as u32) <= 0x7F by {
            assert(rest[i] == cs[i + 1]);
        }
        lemma_ascii_encode(rest);
        assert forall|i: int| 0 <= i < cs.len() implies #[trigger] encode_utf8(cs)[i]
            == cs[i] as u32 as u8 by {
            if i > 0 {
                assert(encode_utf8(cs)[i] == encode_utf8(rest)[i - 1]);
                assert(rest[i - 1] == cs[i]);
            }
        }
    }
}

/// The lead byte of a char's encoding announces the encoding's length, and
/// a char above ASCII leads with a byte of at least `0xC0`.
proof fn lemma_lead_byte(c: char)
    ensures
        encode_scalar(c as u32).len() >= 1,
        (c as u32) <= 0x7F ==> encode_scalar(c as u32) == seq![c as u32 as u8],
        (c as u32) > 0x7F ==> encode_scalar(c as u32)[0] >= 0xC0,
        crate::json::char_width(encode_scalar(c as u32)[0]) == encode_scalar(c as u32).len(),
{
    let cs = seq![c];
    encode_utf8_first_scalar(cs);
    reveal_with_fuel(encode_utf8, 2);
    assert(cs.drop_first() =~= Seq::<char>::empty());
    assert(encode_utf8(cs) =~= encode_scalar(c as u32));
    char_is_scalar(c);
    if (c as u32) <= 0x7F {
        lemma_ascii_scalar(c as u32);
    }
}

/// A char the writer leaves as it is.
proof fn lemma_plain_escape(c: char)
    requires
        !needs_escape(c),
    ensures
        json_escape(c) == seq![c],
        esc_bytes(c) == encode_scalar(c as u32),
{
    reveal_with_fuel(encode_utf8, 2);
    assert(seq![c].drop_first() =~= Seq::<char>::empty());
    assert(encode_utf8(seq![c]) =~= encode_scalar(c as u32));
}

/// The string element at `s`, where the writer's bytes for `c` stand and are
/// followed by more input, decodes to `c`'s encoding and ends where they do.
#[verifier::spinoff_prover]
#[verifier::rlimit(40)]
proof fn lemma_item(src: Seq<u8>, s: int, c: char)
    requires
        0 <= s,
        s + esc_bytes(c).len() < src.len(),
        src.subrange(s, s + esc_bytes(c).len()) == esc_bytes(c),
    ensures
        string_item(src, s) == Item::Bytes(encode_scalar(c as u32), s + esc_bytes(c).len()),
        esc_bytes(c).len() >= 1,
        src[s] != 0x22,
        needs_escape(c) <==> src[s] == 0x5C,
        !needs_escape(c) ==> src[s] >= 0x20 && next_boundary(src, s) == s + esc_bytes(c).len(),
{
    let e = esc_bytes(c);
    let v = c as u32;
    assert(forall|k: int| 0 <= k < e.len() ==> src[s + k] == #[trigger] e[k]) by {
        assert forall|k: int| 0 <= k < e.len() implies src[s + k] == #[trigger] e[k] by {
            assert(src.subrange(s, s + e.len())[k] == src[s + k]);
        }
    }
    if !needs_escape(c) {
        lemma_plain_escape(c);
        lemma_lead_byte(c);
        assert(src.subrange(s, next_boundary(src, s)) =~= encode_scalar(v));
    } else {
        let j = json_escape(c);
        assert(forall|i: int| 0 <= i < j.len() ==> (#[trigger] j[i] as u32) <= 0x7F);
        lemma_ascii_encode(j);
        lemma_ascii_scalar(v);
        assert(j[0] == '\\');
        assert(e[0] == j[0] as u32 as u8);
        assert(src[s] == 0x5C);
        if v >= 0x20 || v == 0x0A || v == 0x0D || v == 0x09 || v == 0x08 || v == 0x0C {
            assert(e.len() == 2);
            assert(e[1] == j[1] as u32 as u8);
            if c == '"' {
                assert(j[1] == '"');
            } else if c == '\\' {
                assert(j[1] == '\\');
            } else if c == '\n' {
                assert(j[1] == 'n');
            } else if c == '\r' {
                assert(j[1] == 'r');
            } else if c == '\t' {
                assert(j[1] == 't');
            } else if v == 0x08 {
                assert(j[1] == 'b');
            } else {
                assert(j[1] == 'f');
            }
            assert(src[s + 1] != 0x75);
            assert(simple_escape(src[s + 1]) == Some(v as u8));
        } else {
            assert(e.len() == 6);
            let h1 = v / 16;
            let h2 = v % 16;
            assert(j[1] == 'u' && j[2] == '0' && j[3] == '0');
            assert(e[1] == j[1] as u32 as u8 && e[2] == j[2] as u32 as u8 && e[3] == j[3] as u32 as u8);
            assert(e[4] == j[4] as u32 as u8 && e[5] == j[5] as u32 as u8);
            assert(src[s + 1] == 0x75);
            assert(src[s + 2] == 0x30 && src[s + 3] == 0x30);
            assert(src[s + 4] == hex_digit_char(h1) as u32 as u8);
            assert(src[s + 5] == hex_digit_char(h2) as u32 as u8);
            assert(hex_digit(src[s + 4]) == Some(h1));
            assert(hex_digit(src[s + 5]) == Some(h2));
            assert forall|k: int| 0 <= k < 4 implies (#[trigger] hex_digit(src[s + 2 + k])) is Some by {
                if k < 2 {
                    assert(src[s + 2 + k] == 0x30);
                }
            }
            reveal_with_fuel(hex_value, 5);
            assert(hex_value(src, s + 2, 4) == v);
            assert(unicode_escape(src, s + 1) == Some(v));
            assert(cp_bytes(v) == seq![v as u8]);
        }
    }
}

/// Escaping distributes over concatenation.
proof fn lemma_escaped_concat(a: Seq<char>, b: Seq<char>)
    ensures
        json_escaped(a + b) == json_escaped(a) + json_escaped(b),
    decreases b.len(),
{
    if b.len() == 0 {
        assert(a + b =~= a);
        assert(json_escaped(a) + json_escaped(b) =~= json_escaped(a));
    } else {
        lemma_escaped_concat(a, b.drop_last());
        assert((a + b).drop_last() =~= a + b.drop_last());
        assert((a + b).last() == b.last());
        assert(json_escaped(a + b) =~= json_escaped(a) + json_escaped(b));
    }
}

/// The writer's bytes for the chars `cs` of a string.
pub open spec fn escaped_bytes(cs: Seq<char>) -> Seq<u8> {
    encode_utf8(json_escaped(cs))
}

/// The bytes for `a + b` are the bytes for `a`, then those for `b`.
proof fn lemma_escaped_bytes_concat(a: Seq<char>, b: Seq<char>)
    ensures
        escaped_bytes(a + b) == escaped_bytes(a) + escaped_bytes(b),
{
    lemma_escaped_concat(a, b);
    lemma_encode_utf8_concat(json_escaped(a), json_escaped(b));
}

/// The bytes for non-empty `cs` start with those for its first char.
proof fn lemma_escaped_bytes_first(cs: Seq<char>)
    requires
        cs.len() > 0,
    ensures
        escaped_bytes(cs) == esc_bytes(cs[0]) + escaped_bytes(cs.drop_first()),
{
    assert(cs =~= seq![cs[0]] + cs.drop_first());
    lemma_escaped_bytes_concat(seq![cs[0]], cs.drop_first());
    assert(seq![cs[0]].drop_last() =~= Seq::<char>::empty());
    assert(json_escaped(Seq::<char>::empty()) == Seq::<char>::empty());
    assert(seq![cs[0]].last() == cs[0]);
    assert(json_escaped(seq![cs[0]]) =~= json_escape(cs[0]));
}

/// Text with nothing to escape is written as its own encoding.
proof fn lemma_escaped_plain(cs: Seq<char>)
    requires
        forall|i: int| 0 <= i < cs.len() ==> !needs_escape(#[trigger] cs[i]),
    ensures
        escaped_bytes(cs) == encode_utf8(cs),
    decreases cs.len(),
{
    if cs.len() > 0 {
        lemma_escaped_bytes_first(cs);
        lemma_plain_escape(cs[0]);
        let rest = cs.drop_first();
        assert forall|i: int| 0 <= i < rest.len() implies !needs_escape(#[trigger] rest[i]) by {
            assert(rest[i] == cs[i + 1]);
        }
        lemma_escaped_plain(rest);
    } else {
        assert(escaped_bytes(cs) =~= encode_utf8(cs));
    }
}

/// The writer's bytes for `cs`, then a closing quote, stand at `s` in `src`.
pub open spec fn string_body_at(src: Seq<u8>, s: int, cs: Seq<char>) -> bool {
    &&& 0 <= s
    &&& s + escaped_bytes(cs).len() < src.len()
    &&& src.subrange(s, s + escaped_bytes(cs).len()) == escaped_bytes(cs)
    &&& src[s + escaped_bytes(cs).len()] == 0x22
}

/// A string body split after its first char.
proof fn lemma_body_rest(src: Seq<u8>, s: int, cs: Seq<char>)
    requires
        string_body_at(src, s, cs),
        cs.len() > 0,
    ensures
        esc_bytes(cs[0]).len() >= 1,
        s + esc_bytes(cs[0]).len() < src.len(),
        src.subrange(s, s + esc_bytes(cs[0]).len()) == esc_bytes(cs[0]),
        string_body_at(src, s + esc_bytes(cs[0]).len(), cs.drop_first()),
{
    lemma_escaped_bytes_first(cs);
    let e0 = esc_bytes(cs[0]);
    let er = escaped_bytes(cs.drop_first());
    let whole = src.subrange(s, s + escaped_bytes(cs).len());
    assert(src.subrange(s, s + e0.len()) =~= whole.subrange(0, e0.len() as int));
    assert(src.subrange(s + e0.len(), s + e0.len() + er.len()) =~= whole.subrange(
        e0.len() as int,
        whole.len() as int,
    ));
    assert(e0.len() + er.len() == escaped_bytes(cs).len());
    assert(whole == e0 + er);
    assert(whole.subrange(e0.len() as int, whole.len() as int) =~= er);
    assert(whole.subrange(0, e0.len() as int) =~= e0);
    let j = json_escape(cs[0]);
    assert(j.len() > 0);
    lemma_lead_byte(j[0]);
    assert(e0.len() >= 1);
}

/// A scan for the end of a written string body finds the closing quote when
/// nothing in it was escaped, and the first escape otherwise.
proof fn lemma_raw_scan_body(src: Seq<u8>, s: int, cs: Seq<char>)
    requires
        string_body_at(src, s, cs),
    ensures
        (forall|i: int| 0 <= i < cs.len() ==> !needs_escape(#[trigger] cs[i])) ==> raw_scan(src, s)
            == RawEnd::Quote(s + escaped_bytes(cs).len()),
        (exists|i: int| 0 <= i < cs.len() && needs_escape(#[trigger] cs[i])) ==> raw_scan(src, s)
            == RawEnd::Escape,
    decreases cs.len(),
{
    if cs.len() == 0 {
        assert(escaped_bytes(cs) =~= Seq::<u8>::empty());
    } else {
        let c = cs[0];
        lemma_body_rest(src, s, cs);
        lemma_item(src, s, c);
        let rest = cs.drop_first();
        let s2 = s + esc_bytes(c).len();
        lemma_raw_scan_body(src, s2, rest);
        lemma_escaped_bytes_first(cs);
        if !needs_escape(c) {
            assert forall|i: int| 0 <= i < rest.len() && needs_escape(#[trigger] rest[i]) implies
                needs_escape(cs[i + 1]) by {
                assert(rest[i] == cs[i + 1]);
            }
            if exists|i: int| 0 <= i < cs.len() && needs_escape(#[trigger] cs[i]) {
                let i = choose|i: int| 0 <= i < cs.len() && needs_escape(#[trigger] cs[i]);
                assert(i > 0);
                assert(rest[i - 1] == cs[i]);
            }
            assert forall|i: int| 0 <= i < rest.len() && (forall|k: int| 0 <= k < cs.len()
                ==> !needs_escape(#[trigger] cs[k])) implies !needs_escape(#[trigger] rest[i]) by {
                assert(rest[i] == cs[i + 1]);
            }
        }
    }
}

/// One char more on text already encoded.
proof fn lemma_encode_push(done: Seq<char>, c: char)
    ensures
        encode_utf8(done.push(c)) == encode_utf8(done) + encode_scalar(c as u32),
{
    lemma_encode_utf8_concat(done, seq![c]);
    assert(done + seq![c] =~= done.push(c));
    reveal_with_fuel(encode_utf8, 2);
    assert(seq![c].drop_first() =~= Seq::<char>::empty());
    assert(encode_utf8(seq![c]) =~= encode_scalar(c as u32));
}

/// A chunk cut short after the first `m` chars of `cs`, for some `m`.
spec fn cut_at(src: Seq<u8>, s: int, cs: Seq<char>, done: Seq<char>, r: int, acc: Seq<u8>) -> bool {
    exists|m: int|
        0 <= m <= cs.len() && #[trigger] string_body_at(src, r, cs.skip(m)) && acc == encode_utf8(
            done + cs.take(m),
        ) && r == s + escaped_bytes(cs.take(m)).len()
}

proof fn lemma_cut_at(
    src: Seq<u8>,
    s: int,
    cs: Seq<char>,
    done: Seq<char>,
    r: int,
    acc: Seq<u8>,
    m: int,
)
    requires
        0 <= m <= cs.len(),
        string_body_at(src, r, cs.skip(m)),
        acc == encode_utf8(done + cs.take(m)),
        r == s + escaped_bytes(cs.take(m)).len(),
    ensures
        cut_at(src, s, cs, done, r, acc),
{
}

/// Decoding a written string body chunk by chunk: a chunk that reaches the
/// closing quote holds the encoding of all the remaining chars; one cut
/// short holds the encoding of the first `m` of them and stops where the
/// body of the rest begins.
proof fn lemma_chunk_body(src: Seq<u8>, s: int, cs: Seq<char>, done: Seq<char>)
    requires
        string_body_at(src, s, cs),
        encode_utf8(done).len() <= 64,
    ensures
        match chunk_scan(src, s, encode_utf8(done)) {
            ChunkEnd::Final(n, acc) => n == s + escaped_bytes(cs).len() + 1 && acc == encode_utf8(
                done + cs,
            ),
            ChunkEnd::Partial(r, acc) => cut_at(src, s, cs, done, r, acc),
            ChunkEnd::Fail(_) => false,
        },
    decreases cs.len(),
{
    let acc = encode_utf8(done);
    assert(cs.skip(0) =~= cs);
    assert(cs.take(0) =~= Seq::<char>::empty());
    assert(done + cs.take(0) =~= done);
    assert(escaped_bytes(Seq::<char>::empty()) =~= Seq::<u8>::empty());
    if cs.len() == 0 {
        assert(escaped_bytes(cs) =~= Seq::<u8>::empty());
        assert(done + cs =~= done);
        if acc.len() >= 64 {
            assert(chunk_scan(src, s, acc) == ChunkEnd::Partial(s, acc));
            assert(string_body_at(src, s, cs.skip(0)));
            assert(escaped_bytes(cs.take(0)).len() == 0);
            lemma_cut_at(src, s, cs, done, s, acc, 0);
        } else {
            assert(src[s] == 0x22);
            assert(string_item(src, s) == Item::Close);
            assert(chunk_scan(src, s, acc) == ChunkEnd::Final(s + 1, acc));
        }
    } else {
        let c = cs[0];
        lemma_body_rest(src, s, cs);
        lemma_item(src, s, c);
        let rest = cs.drop_first();
        let s2 = s + esc_bytes(c).len();
        lemma_lead_byte(c);
        if acc.len() >= 64 || acc.len() + encode_scalar(c as u32).len() > 64 {
            assert(chunk_scan(src, s, acc) == ChunkEnd::Partial(s, acc));
            assert(string_body_at(src, s, cs.skip(0)));
            assert(escaped_bytes(cs.take(0)).len() == 0);
            lemma_cut_at(src, s, cs, done, s, acc, 0);
        } else {
            lemma_encode_push(done, c);
            lemma_chunk_body(src, s2, rest, done.push(c));
            lemma_escaped_bytes_first(cs);
            assert(done.push(c) + rest =~= done + cs);
            assert(string_item(src, s) == Item::Bytes(encode_scalar(c as u32), s2));
            assert(acc + encode_scalar(c as u32) == encode_utf8(done.push(c)));
            assert(chunk_scan(src, s, acc) == chunk_scan(src, s2, encode_utf8(done.push(c))));
            match chunk_scan(src, s2, encode_utf8(done.push(c))) {
                ChunkEnd::Final(n, acc2) => {
                    assert(n == s + escaped_bytes(cs).len() + 1);
                    assert(acc2 == encode_utf8(done + cs));
                },
                ChunkEnd::Partial(r, acc2) => {
                    let m2 = choose|m: int|
                        0 <= m <= rest.len() && #[trigger] string_body_at(src, r, rest.skip(m))
                            && acc2 == encode_utf8(done.push(c) + rest.take(m)) && r == s2
                            + escaped_bytes(rest.take(m)).len();
                    assert(cut_at(src, s2, rest, done.push(c), r, acc2));
                    let m = m2 + 1;
                    assert(cs.skip(m) =~= rest.skip(m2));
                    let tk = cs.take(m);
                    assert(tk[0] == c);
                    assert(tk.drop_first() =~= rest.take(m2));
                    lemma_escaped_bytes_first(tk);
                    assert(done + tk =~= done.push(c) + rest.take(m2));
                    assert(string_body_at(src, r, cs.skip(m)));
                    assert(acc2 == encode_utf8(done + cs.take(m)));
                    assert(r == s + escaped_bytes(cs.take(m)).len());
                    lemma_cut_at(src, s, cs, done, r, acc2, m);
                },
                _ => {},
            }
        }
    }
}

/// The text of the encoding of `cs` is `cs`.
proof fn lemma_text_of_encoding(cs: Seq<char>)
    ensures
        text_of(encode_utf8(cs)) == cs,
{
    encode_utf8_valid_utf8(cs);
    encode_utf8_decode_utf8(cs);
}

/// The rest of a written string body, decoded from an escaped-string state,
/// is its chars, and the tokenizer ends past the closing quote.
proof fn lemma_string_rest_body(
    src: Seq<u8>,
    pos: int,
    body: usize,
    s: int,
    cs: Seq<char>,
    acc: Seq<char>,
)
    requires
        state_ok(src, (pos, Some((body, s as usize)))),
        string_body_at(src, s, cs),
    ensures
        string_rest(src, acc, (pos, Some((body, s as usize)))) == Ok::<
            (Seq<char>, LexState),
            crate::json::JsonError,
        >((acc + cs, (s + escaped_bytes(cs).len() + 1, None))),
    decreases potential(src, (pos, Some((body, s as usize)))),
{
    let st: LexState = (pos, Some((body, s as usize)));
    reveal(step);
    lemma_step_progress(src, st);
    assert(encode_utf8(Seq::<char>::empty()) =~= Seq::<u8>::empty());
    lemma_chunk_body(src, s, cs, Seq::empty());
    assert(Seq::<char>::empty() + cs =~= cs);
    assert((s as usize) as int == s);
    match chunk_scan(src, s, Seq::empty()) {
        ChunkEnd::Final(n, acc2) => {
            lemma_text_of_encoding(cs);
        },
        ChunkEnd::Partial(r, acc2) => {
            let m = choose|m: int|
                0 <= m <= cs.len() && #[trigger] string_body_at(src, r, cs.skip(m)) && acc2
                    == encode_utf8(Seq::<char>::empty() + cs.take(m)) && r == s + escaped_bytes(
                    cs.take(m),
                ).len();
            assert(Seq::<char>::empty() + cs.take(m) =~= cs.take(m));
            lemma_text_of_encoding(cs.take(m));
            let st2: LexState = (pos, Some((body, r as usize)));
            assert(after(step(src, st)) == st2);
            lemma_string_rest_body(src, pos, body, r, cs.skip(m), acc + cs.take(m));
            assert(cs.take(m) + cs.skip(m) =~= cs);
            lemma_escaped_bytes_concat(cs.take(m), cs.skip(m));
            assert(acc + cs.take(m) + cs.skip(m) =~= acc + cs);
        },
        ChunkEnd::Fail(_) => {},
    }
}

/// The written string literal for `cs` at `p`: a quote, the body, a quote.
pub open spec fn string_at(src: Seq<u8>, p: int, cs: Seq<char>) -> bool {
    &&& 0 <= p < src.len()
    &&& src[p] == 0x22
    &&& string_body_at(src, p + 1, cs)
}

/// Where the written string literal for `cs` at `p` ends.
pub open spec fn string_end(p: int, cs: Seq<char>) -> int {
    p + escaped_bytes(cs).len() + 2
}

/// Reading a written string literal: the first token is a string token that
/// moves the tokenizer forward, and as a value or as a key it reads back
/// `cs`, leaving the tokenizer just past the closing quote.
proof fn lemma_string_token(src: Seq<u8>, p: int, cs: Seq<char>)
    requires
        state_ok(src, (p, None)),
        string_at(src, p, cs),
    ensures
        ({
            let l = step(src, (p, None));
            &&& l.0 matches Ok(t) && t !is Eof
            &&& progress(src, (p, None), after(l))
            &&& state_ok(src, after(l))
            &&& potential(src, (string_end(p, cs), None)) <= potential(src, after(l))
            &&& value_from(src, l.0->Ok_0, after(l)) == Ok::<
                (NodeView, LexState),
                crate::json::JsonError,
            >((NodeView::Str(cs), (string_end(p, cs), None)))
            &&& crate::json_tree::key_from(src, l.0->Ok_0, after(l)) == Ok::<
                (Seq<char>, LexState),
                crate::json::JsonError,
            >((cs, (string_end(p, cs), None)))
        }),
{
    reveal(step);
    let st: LexState = (p, None);
    assert(skip_ws_from(src, p) == p);
    let body = p + 1;
    lemma_raw_scan_body(src, body, cs);
    assert(((body as usize) as int) == body);
    if forall|i: int| 0 <= i < cs.len() ==> !needs_escape(#[trigger] cs[i]) {
        lemma_escaped_plain(cs);
        encode_utf8_valid_utf8(cs);
        lemma_text_of_encoding(cs);
        assert(src.subrange(body, body + escaped_bytes(cs).len()) == encode_utf8(cs));
    } else {
        assert(exists|i: int| 0 <= i < cs.len() && needs_escape(#[trigger] cs[i]));
        assert(encode_utf8(Seq::<char>::empty()) =~= Seq::<u8>::empty());
        lemma_chunk_body(src, body, cs, Seq::empty());
        assert(Seq::<char>::empty() + cs =~= cs);
        match chunk_scan(src, body, Seq::empty()) {
            ChunkEnd::Final(n, acc2) => {
                lemma_text_of_encoding(cs);
            },
            ChunkEnd::Partial(r, acc2) => {
                let m = choose|m: int|
                    0 <= m <= cs.len() && #[trigger] string_body_at(src, r, cs.skip(m)) && acc2
                        == encode_utf8(Seq::<char>::empty() + cs.take(m)) && r == body
                        + escaped_bytes(cs.take(m)).len();
                assert(Seq::<char>::empty() + cs.take(m) =~= cs.take(m));
                lemma_text_of_encoding(cs.take(m));
                lemma_step_progress(src, st);
                lemma_string_rest_body(src, body, body as usize, r, cs.skip(m), cs.take(m));
                assert(cs.take(m) + cs.skip(m) =~= cs);
                lemma_escaped_bytes_concat(cs.take(m), cs.skip(m));
                assert(r <= body + escaped_bytes(cs).len());
                assert(((r as usize) as int) == r);
            },
            ChunkEnd::Fail(_) => {},
        }
    }
    lemma_step_progress(src, st);
}

/// `b` stands at `p` in `src`.
pub open spec fn bytes_at(src: Seq<u8>, p: int, b: Seq<u8>) -> bool {
    &&& 0 <= p
    &&& p + b.len() <= src.len()
    &&& src.subrange(p, p + b.len()) == b
}

/// Bytes standing at `p` are the first ones there, then the rest.
proof fn lemma_bytes_split(src: Seq<u8>, p: int, a: Seq<u8>, b: Seq<u8>)
    requires
        bytes_at(src, p, a + b),
    ensures
        bytes_at(src, p, a),
        bytes_at(src, p + a.len(), b),
        forall|k: int| 0 <= k < a.len() ==> src[p + k] == #[trigger] a[k],
{
    let w = src.subrange(p, p + a.len() + b.len());
    assert(w == a + b);
    assert(src.subrange(p, p + a.len()) =~= w.subrange(0, a.len() as int));
    assert(w.subrange(0, a.len() as int) =~= a);
    assert(src.subrange(p + a.len(), p + a.len() + b.len()) =~= w.subrange(
        a.len() as int,
        w.len() as int,
    ));
    assert(w.subrange(a.len() as int, w.len() as int) =~= b);
    assert forall|k: int| 0 <= k < a.len() implies src[p + k] == #[trigger] a[k] by {
        assert(w[k] == src[p + k]);
    }
}

/// A byte standing at `p`, then more bytes.
proof fn lemma_first_byte(src: Seq<u8>, p: int, x: u8, b: Seq<u8>)
    requires
        bytes_at(src, p, seq![x] + b),
    ensures
        src[p] == x,
        bytes_at(src, p + 1, b),
{
    lemma_bytes_split(src, p, seq![x], b);
    assert(seq![x][0] == x);
}

/// Where a written value may end: at the end of the input or before `,`,
/// `]` or `}`.
pub open spec fn ends_value(src: Seq<u8>, q: int) -> bool {
    q == src.len() || (q < src.len() && (src[q] == 0x2C || src[q] == 0x5D || src[q] == 0x7D))
}

/// A number text the writer can write and the parser reads back: ASCII,
/// one whole number token as the tokenizer reads it, and accepted.
pub open spec fn number_text_ok(b: Seq<u8>) -> bool {
    &&& b.len() > 0
    &&& (b[0] == 0x2D || is_digit(b[0]))
    &&& forall|k: int| 0 <= k < b.len() ==> #[trigger] b[k] < 0x80
    &&& lex_number(b, 0) == (
        Ok::<TokenView, JsonError>(TokenView::Number(b, b[0] == 0x2D)),
        b.len() as int,
    )
    &&& number_ok(b)
}

/// Digit runs inside `b` standing at `p` are the same in `src`, when `b` is
/// followed there by a byte that is not a digit.
proof fn lemma_digits_local(src: Seq<u8>, p: int, b: Seq<u8>, i: int)
    requires
        bytes_at(src, p, b),
        ends_value(src, p + b.len()),
        0 <= i <= b.len(),
    ensures
        forall|j: int| i <= j <= b.len() ==> digits_from(src, p + j) == p + #[trigger] digits_from(
            b,
            j,
        ),
    decreases b.len() - i,
{
    lemma_bytes_split(src, p, b, Seq::empty());
    assert(b + Seq::<u8>::empty() =~= b);
    if i < b.len() {
        lemma_digits_local(src, p, b, i + 1);
        assert(src[p + i] == b[i]);
        if is_digit(b[i]) {
            assert(digits_from(b, i) == digits_from(b, i + 1));
            assert(digits_from(src, p + i) == digits_from(src, p + i + 1));
        } else {
            assert(digits_from(b, i) == i);
            assert(digits_from(src, p + i) == p + i);
        }
    } else {
        assert(digits_from(b, i) == i);
        assert(digits_from(src, p + i) == p + i);
    }
}

/// A number text standing at `p`, before a place where a value may end, is
/// read there as the same number token.
proof fn lemma_number_local(src: Seq<u8>, p: int, b: Seq<u8>)
    requires
        number_text_ok(b),
        bytes_at(src, p, b),
        ends_value(src, p + b.len()),
    ensures
        lex_number(src, p) == (
            Ok::<TokenView, JsonError>(TokenView::Number(b, b[0] == 0x2D)),
            p + b.len(),
        ),
{
    lemma_digits_local(src, p, b, 0);
    lemma_bytes_split(src, p, b, Seq::empty());
    assert(b + Seq::<u8>::empty() =~= b);
    let n = b.len() as int;
    let len = src.len() as int;
    assert(src[p] == b[0]);
    let negative = b[0] == 0x2D;
    let is0 = if negative { 1int } else { 0int };
    let ie = digits_from(b, is0);
    assert(digits_from(src, p + is0) == p + ie);
    assert(ie != is0);
    assert(ie <= n);
    let has_frac = ie < n && b[ie] == 0x2E;
    assert(has_frac == (p + ie < len && src[p + ie] == 0x2E));
    let fe = if has_frac { digits_from(b, ie + 1) } else { ie };
    if has_frac {
        assert(digits_from(src, p + ie + 1) == p + fe);
    }
    assert(!(has_frac && fe == ie + 1));
    assert(fe <= n);
    let has_exp = fe < n && (b[fe] == 0x65 || b[fe] == 0x45);
    assert(has_exp == (p + fe < len && (src[p + fe] == 0x65 || src[p + fe] == 0x45)));
    if has_exp {
        let sa = fe + 1;
        let es = if sa < n && (b[sa] == 0x2B || b[sa] == 0x2D) { sa + 1 } else { sa };
        assert(es == (if p + sa < len && (src[p + sa] == 0x2B || src[p + sa] == 0x2D) {
            p + sa + 1
        } else {
            p + sa
        }) - p);
        assert(digits_from(src, p + es) == p + digits_from(b, es));
        assert(digits_from(b, es) == n);
    } else {
        assert(fe == n);
    }
    assert(src.subrange(p, p + n) == b);
}

/// A tree the writer's text reads back as: every number is a number text
/// the tokenizer reads whole and the parser accepts.
pub open spec fn writable(v: NodeView) -> bool
    decreases v,
{
    match v {
        NodeView::Number(b) => number_text_ok(b),
        NodeView::Array(items) => forall|i: int|
            0 <= i < items.len() ==> writable(#[trigger] items[i]),
        NodeView::Object(es) => forall|i: int| 0 <= i < es.len() ==> writable(#[trigger] es[i].1),
        _ => true,
    }
}

/// The bytes the writer emits for `v`.
pub open spec fn text_bytes(v: NodeView) -> Seq<u8> {
    encode_utf8(tree_text(v))
}

/// `,` and the text of each of `xs`.
spec fn items_tail(xs: Seq<NodeView>) -> Seq<char>
    decreases xs.len(),
{
    if xs.len() == 0 {
        Seq::empty()
    } else {
        seq![','] + tree_text(xs[0]) + items_tail(xs.skip(1))
    }
}

/// The text of one object entry.
spec fn entry_text(e: (Seq<char>, NodeView)) -> Seq<char> {
    quoted(e.0) + seq![':'] + tree_text(e.1)
}

/// `,` and the text of each of the entries `es`.
spec fn entries_tail(es: Seq<(Seq<char>, NodeView)>) -> Seq<char>
    decreases es.len(),
{
    if es.len() == 0 {
        Seq::empty()
    } else {
        seq![','] + entry_text(es[0]) + entries_tail(es.skip(1))
    }
}

proof fn lemma_items_tail_push(xs: Seq<NodeView>, x: NodeView)
    ensures
        items_tail(xs.push(x)) == items_tail(xs) + seq![','] + tree_text(x),
    decreases xs.len(),
{
    if xs.len() == 0 {
        assert(xs.push(x).skip(1) =~= Seq::<NodeView>::empty());
        assert(items_tail(Seq::<NodeView>::empty()) == Seq::<char>::empty());
        assert(items_tail(xs) == Seq::<char>::empty());
        assert(xs.push(x)[0] == x);
        assert(items_tail(xs.push(x)) =~= items_tail(xs) + seq![','] + tree_text(x));
    } else {
        assert(xs.push(x).skip(1) =~= xs.skip(1).push(x));
        lemma_items_tail_push(xs.skip(1), x);
        assert(items_tail(xs.push(x)) =~= items_tail(xs) + seq![','] + tree_text(x));
    }
}

/// The items' text from the front: the first item, then `,` and each other.
proof fn lemma_items_front(items: Seq<NodeView>)
    requires
        items.len() > 0,
    ensures
        items_text(items) == tree_text(items[0]) + items_tail(items.skip(1)),
    decreases items.len(),
{
    if items.len() == 1 {
        assert(items.skip(1) =~= Seq::<NodeView>::empty());
        assert(items_text(items) =~= tree_text(items[0]) + items_tail(items.skip(1)));
    } else {
        let d = items.drop_last();
        lemma_items_front(d);
        assert(d.skip(1).push(items[items.len() - 1]) =~= items.skip(1));
        lemma_items_tail_push(d.skip(1), items[items.len() - 1]);
        assert(d[0] == items[0]);
        assert(items_text(items) =~= tree_text(items[0]) + items_tail(items.skip(1)));
    }
}

proof fn lemma_entries_tail_push(es: Seq<(Seq<char>, NodeView)>, e: (Seq<char>, NodeView))
    ensures
        entries_tail(es.push(e)) == entries_tail(es) + seq![','] + entry_text(e),
    decreases es.len(),
{
    if es.len() == 0 {
        assert(es.push(e).skip(1) =~= Seq::<(Seq<char>, NodeView)>::empty());
        assert(entries_tail(Seq::<(Seq<char>, NodeView)>::empty()) == Seq::<char>::empty());
        assert(entries_tail(es) == Seq::<char>::empty());
        assert(es.push(e)[0] == e);
        assert(entries_tail(es.push(e)) =~= entries_tail(es) + seq![','] + entry_text(e));
    } else {
        assert(es.push(e).skip(1) =~= es.skip(1).push(e));
        lemma_entries_tail_push(es.skip(1), e);
        assert(entries_tail(es.push(e)) =~= entries_tail(es) + seq![','] + entry_text(e));
    }
}

/// The entries' text from the front.
proof fn lemma_entries_front(es: Seq<(Seq<char>, NodeView)>)
    requires
        es.len() > 0,
    ensures
        entries_text(es) == entry_text(es[0]) + entries_tail(es.skip(1)),
    decreases es.len(),
{
    if es.len() == 1 {
        assert(es.skip(1) =~= Seq::<(Seq<char>, NodeView)>::empty());
        assert(entries_text(es) =~= entry_text(es[0]) + entries_tail(es.skip(1)));
    } else {
        let d = es.drop_last();
        lemma_entries_front(d);
        assert(d.skip(1).push(es[es.len() - 1]) =~= es.skip(1));
        lemma_entries_tail_push(d.skip(1), es[es.len() - 1]);
        assert(d[0] == es[0]);
        assert(entries_text(es) =~= entry_text(es[0]) + entries_tail(es.skip(1)));
    }
}

/// One ASCII char is one byte.
proof fn lemma_one_ascii(c: char)
    requires
        (c as u32) <= 0x7F,
    ensures
        encode_utf8(seq![c]) == seq![c as u32 as u8],
{
    lemma_ascii_encode(seq![c]);
    assert(encode_utf8(seq![c]) =~= seq![c as u32 as u8]);
}

/// A char then more text, as bytes.
proof fn lemma_bytes_cons(c: char, t: Seq<char>)
    requires
        (c as u32) <= 0x7F,
    ensures
        encode_utf8(seq![c] + t) == seq![c as u32 as u8] + encode_utf8(t),
{
    lemma_encode_utf8_concat(seq![c], t);
    lemma_one_ascii(c);
}

/// Text then a char, as bytes.
proof fn lemma_bytes_snoc(t: Seq<char>, c: char)
    requires
        (c as u32) <= 0x7F,
    ensures
        encode_utf8(t + seq![c]) == encode_utf8(t) + seq![c as u32 as u8],
{
    lemma_encode_utf8_concat(t, seq![c]);
    lemma_one_ascii(c);
}

/// The token a punctuation byte is read as.
spec fn punct_token(b: u8) -> TokenView {
    if b == 0x5B {
        TokenView::ArrayStart
    } else if b == 0x5D {
        TokenView::ArrayEnd
    } else if b == 0x7B {
        TokenView::ObjectStart
    } else if b == 0x7D {
        TokenView::ObjectEnd
    } else if b == 0x2C {
        TokenView::Comma
    } else {
        TokenView::Colon
    }
}

/// A punctuation byte at `q` is read as its token, one byte long.
proof fn lemma_punct(src: Seq<u8>, q: int)
    requires
        state_ok(src, (q, None)),
        q < src.len(),
        src[q] == 0x5B || src[q] == 0x5D || src[q] == 0x7B || src[q] == 0x7D || src[q] == 0x2C
            || src[q] == 0x3A,
    ensures
        step(src, (q, None)) == (
            Ok::<TokenView, JsonError>(punct_token(src[q])),
            q + 1,
            None::<(usize, usize)>,
        ),
{
    reveal(step);
    assert(skip_ws_from(src, q) == q);
}

/// The token a written `null`, `true` or `false` is read as.
spec fn word_token(v: NodeView) -> TokenView {
    match v {
        NodeView::Bool(b) => if b {
            TokenView::True
        } else {
            TokenView::False
        },
        _ => TokenView::Null,
    }
}

/// A written `null`, `true` or `false` is read as its token.
proof fn lemma_word(src: Seq<u8>, p: int, v: NodeView)
    requires
        v is Null || v is Bool,
        state_ok(src, (p, None)),
        bytes_at(src, p, text_bytes(v)),
    ensures
        step(src, (p, None)) == (
            Ok::<TokenView, JsonError>(word_token(v)),
            p + text_bytes(v).len(),
            None::<(usize, usize)>,
        ),
{
    reveal(step);
    let t = tree_text(v);
    assert(forall|i: int| 0 <= i < t.len() ==> (#[trigger] t[i] as u32) <= 0x7F);
    lemma_ascii_encode(t);
    let w = text_bytes(v);
    assert(src.subrange(p, p + w.len()) == w);
    assert(src[p] == w[0]) by {
        assert(src.subrange(p, p + w.len())[0] == src[p]);
    }
    assert(skip_ws_from(src, p) == p);
    if v is Null {
        assert(w =~= seq![0x6Eu8, 0x75, 0x6C, 0x6C]);
    } else if v == NodeView::Bool(true) {
        assert(w =~= seq![0x74u8, 0x72, 0x75, 0x65]);
    } else {
        assert(w =~= seq![0x66u8, 0x61, 0x6C, 0x73, 0x65]);
    }
}

/// The first step at `p` reads a token that begins the value `v`, which
/// then reads back as `v`, leaving the tokenizer at `end`.
spec fn reads_value(src: Seq<u8>, p: int, v: NodeView, end: int) -> bool {
    let l = step(src, (p, None));
    &&& l.0 matches Ok(t) && t !is Eof
    &&& progress(src, (p, None), after(l))
    &&& state_ok(src, after(l))
    &&& potential(src, (end, None)) <= potential(src, after(l))
    &&& value_from(src, l.0->Ok_0, after(l)) == Ok::<(NodeView, LexState), JsonError>(
        (v, (end, None)),
    )
}

/// A value read from `p` whose first step reads it.
proof fn lemma_parse_value_reads(src: Seq<u8>, p: int, v: NodeView, end: int)
    requires
        reads_value(src, p, v, end),
    ensures
        parse_value(src, (p, None)) == Ok::<(NodeView, LexState), JsonError>((v, (end, None))),
        progress(src, (p, None), (end, None)),
{
}

/// The bytes of an array: `[`, the items, `]`.
proof fn lemma_array_bytes(items: Seq<NodeView>)
    ensures
        text_bytes(NodeView::Array(items)) == seq![0x5Bu8] + encode_utf8(items_text(items)) + seq![
            0x5Du8,
        ],
{
    lemma_bytes_cons('[', items_text(items) + seq![']']);
    lemma_bytes_snoc(items_text(items), ']');
    assert(seq!['['] + items_text(items) + seq![']'] =~= seq!['['] + (items_text(items) + seq![
        ']',
    ]));
}

/// The bytes of an object: `{`, the entries, `}`.
proof fn lemma_object_bytes(es: Seq<(Seq<char>, NodeView)>)
    ensures
        text_bytes(NodeView::Object(es)) == seq![0x7Bu8] + encode_utf8(entries_text(es)) + seq![
            0x7Du8,
        ],
{
    lemma_bytes_cons('{', entries_text(es) + seq!['}']);
    lemma_bytes_snoc(entries_text(es), '}');
    assert(seq!['{'] + entries_text(es) + seq!['}'] =~= seq!['{'] + (entries_text(es) + seq![
        '}',
    ]));
}

/// The bytes of a string literal: a quote, the body, a quote.
proof fn lemma_quoted_bytes(cs: Seq<char>)
    ensures
        encode_utf8(quoted(cs)) == seq![0x22u8] + escaped_bytes(cs) + seq![0x22u8],
{
    lemma_bytes_cons('"', json_escaped(cs) + seq!['"']);
    lemma_bytes_snoc(json_escaped(cs), '"');
    assert(seq!['"'] + json_escaped(cs) + seq!['"'] =~= seq!['"'] + (json_escaped(cs) + seq![
        '"',
    ]));
}

/// The bytes of the items' text from the front.
proof fn lemma_items_bytes(items: Seq<NodeView>)
    requires
        items.len() > 0,
    ensures
        encode_utf8(items_text(items)) == text_bytes(items[0]) + encode_utf8(
            items_tail(items.skip(1)),
        ),
{
    lemma_items_front(items);
    lemma_encode_utf8_concat(tree_text(items[0]), items_tail(items.skip(1)));
}

/// The bytes of `,` and the items' text, from the front.
proof fn lemma_tail_bytes(xs: Seq<NodeView>)
    requires
        xs.len() > 0,
    ensures
        encode_utf8(items_tail(xs)) == seq![0x2Cu8] + text_bytes(xs[0]) + encode_utf8(
            items_tail(xs.skip(1)),
        ),
{
    lemma_bytes_cons(',', tree_text(xs[0]) + items_tail(xs.skip(1)));
    lemma_encode_utf8_concat(tree_text(xs[0]), items_tail(xs.skip(1)));
    assert(seq![','] + tree_text(xs[0]) + items_tail(xs.skip(1)) =~= seq![','] + (tree_text(xs[0])
        + items_tail(xs.skip(1))));
}

/// `,` and items start with a comma.
proof fn lemma_tail_first(xs: Seq<NodeView>)
    requires
        xs.len() > 0,
    ensures
        encode_utf8(items_tail(xs)).len() >= 1,
        encode_utf8(items_tail(xs))[0] == 0x2C,
{
    lemma_tail_bytes(xs);
    let r = seq![0x2Cu8] + text_bytes(xs[0]) + encode_utf8(items_tail(xs.skip(1)));
    assert(r =~= seq![0x2Cu8] + (text_bytes(xs[0]) + encode_utf8(items_tail(xs.skip(1)))));
    assert(r[0] == 0x2C);
}

/// The bytes of one entry: the key literal, `:`, the value.
proof fn lemma_entry_bytes(e: (Seq<char>, NodeView))
    ensures
        encode_utf8(entry_text(e)) == seq![0x22u8] + escaped_bytes(e.0) + seq![0x22u8, 0x3Au8]
            + text_bytes(e.1),
{
    lemma_encode_utf8_concat(quoted(e.0) + seq![':'], tree_text(e.1));
    lemma_bytes_snoc(quoted(e.0), ':');
    lemma_quoted_bytes(e.0);
    assert(seq![0x22u8] + escaped_bytes(e.0) + seq![0x22u8] + seq![0x3Au8] =~= seq![0x22u8]
        + escaped_bytes(e.0) + seq![0x22u8, 0x3Au8]);
}

/// The bytes of the entries' text from the front.
proof fn lemma_entries_bytes(es: Seq<(Seq<char>, NodeView)>)
    requires
        es.len() > 0,
    ensures
        encode_utf8(entries_text(es)) == encode_utf8(entry_text(es[0])) + encode_utf8(
            entries_tail(es.skip(1)),
        ),
{
    lemma_entries_front(es);
    lemma_encode_utf8_concat(entry_text(es[0]), entries_tail(es.skip(1)));
}

/// The bytes of `,` and the entries' text, from the front.
proof fn lemma_entries_tail_bytes(es: Seq<(Seq<char>, NodeView)>)
    requires
        es.len() > 0,
    ensures
        encode_utf8(entries_tail(es)) == seq![0x2Cu8] + encode_utf8(entry_text(es[0]))
            + encode_utf8(entries_tail(es.skip(1))),
{
    lemma_bytes_cons(',', entry_text(es[0]) + entries_tail(es.skip(1)));
    lemma_encode_utf8_concat(entry_text(es[0]), entries_tail(es.skip(1)));
    assert(seq![','] + entry_text(es[0]) + entries_tail(es.skip(1)) =~= seq![','] + (entry_text(
        es[0],
    ) + entries_tail(es.skip(1))));
}

/// Written `v` at `p`, followed by a place where a value may end, reads
/// back as `v`.
proof fn lemma_value(src: Seq<u8>, p: int, v: NodeView)
    requires
        state_ok(src, (p, None)),
        writable(v),
        bytes_at(src, p, text_bytes(v)),
        ends_value(src, p + text_bytes(v).len()),
    ensures
        reads_value(src, p, v, p + text_bytes(v).len()),
    decreases v, 3nat,
{
    let t = text_bytes(v);
    let end = p + t.len();
    match v {
        NodeView::Null => {
            lemma_word(src, p, v);
        },
        NodeView::Bool(_) => {
            lemma_word(src, p, v);
        },
        NodeView::Number(b) => {
            assert(forall|k: int| 0 <= k < b.len() ==> #[trigger] b[k] < 0x80);
            lemma_ascii_valid_utf8(b);
            decode_utf8_encode_utf8(b);
            assert(t == b);
            lemma_number_local(src, p, b);
            reveal(step);
            assert(src.subrange(p, p + t.len())[0] == src[p]);
            assert(skip_ws_from(src, p) == p);
        },
        NodeView::Str(cs) => {
            lemma_quoted_bytes(cs);
            lemma_bytes_split(src, p, seq![0x22u8] + escaped_bytes(cs), seq![0x22u8]);
            lemma_first_byte(src, p, 0x22u8, escaped_bytes(cs));
            assert(seq![0x22u8] =~= seq![0x22u8] + Seq::<u8>::empty());
            lemma_first_byte(src, p + 1 + escaped_bytes(cs).len(), 0x22u8, Seq::empty());
            assert(string_body_at(src, p + 1, cs));
            lemma_string_token(src, p, cs);
        },
        NodeView::Array(items) => {
            lemma_value_array(src, p, items);
        },
        NodeView::Object(es) => {
            lemma_value_object(src, p, es);
        },
    }
}

/// A written array at `p` reads back as that array.
proof fn lemma_value_array(src: Seq<u8>, p: int, items: Seq<NodeView>)
    requires
        state_ok(src, (p, None)),
        forall|i: int| 0 <= i < items.len() ==> writable(#[trigger] items[i]),
        bytes_at(src, p, text_bytes(NodeView::Array(items))),
        ends_value(src, p + text_bytes(NodeView::Array(items)).len()),
    ensures
        reads_value(
            src,
            p,
            NodeView::Array(items),
            p + text_bytes(NodeView::Array(items)).len(),
        ),
    decreases items, 2nat,
{
    lemma_array_bytes(items);
    let ib = encode_utf8(items_text(items));
    lemma_bytes_split(src, p, seq![0x5Bu8] + ib, seq![0x5Du8]);
    lemma_first_byte(src, p, 0x5Bu8, ib);
    lemma_punct(src, p);
    let st1: LexState = (p + 1, None);
    if items.len() == 0 {
        assert(items_text(items) =~= Seq::<char>::empty());
        assert(ib =~= Seq::<u8>::empty());
        assert(seq![0x5Bu8] + ib + seq![0x5Du8] =~= seq![0x5Bu8] + seq![0x5Du8]);
        lemma_first_byte(src, p, 0x5Bu8, seq![0x5Du8]);
        lemma_first_byte(src, p + 1, 0x5Du8, Seq::empty());
        lemma_punct(src, p + 1);
        assert(items =~= Seq::<NodeView>::empty());
        assert(text_bytes(NodeView::Array(items)).len() == 2);
    } else {
        lemma_items_bytes(items);
        let t0 = text_bytes(items[0]);
        let tb = encode_utf8(items_tail(items.skip(1)));
        assert(seq![0x5Bu8] + (t0 + tb) + seq![0x5Du8] =~= seq![0x5Bu8] + (t0 + (tb
            + seq![0x5Du8])));
        lemma_bytes_split(src, p, seq![0x5Bu8], t0 + (tb + seq![0x5Du8]));
        lemma_bytes_split(src, p + 1, t0, tb + seq![0x5Du8]);
        let q1 = p + 1 + t0.len();
        if items.len() > 1 {
            lemma_tail_bytes(items.skip(1));
        }
        lemma_bytes_split(src, q1, tb, seq![0x5Du8]);
        assert(ends_value(src, q1)) by {
            if items.len() > 1 {
                lemma_tail_first(items.skip(1));
                assert(src[q1] == tb[0]);
            } else {
                assert(items.skip(1) =~= Seq::<NodeView>::empty());
                assert(tb =~= Seq::<u8>::empty());
                assert(seq![0x5Du8] =~= seq![0x5Du8] + Seq::<u8>::empty());
                lemma_first_byte(src, q1, 0x5Du8, Seq::empty());
            }
        }
        assert(writable(items[0]));
        lemma_value(src, p + 1, items[0]);
        lemma_step_progress(src, st1);
        assert forall|i: int| 0 <= i < items.skip(1).len() implies writable(
            #[trigger] items.skip(1)[i],
        ) by {
            assert(items.skip(1)[i] == items[i + 1]);
        }
        lemma_array_rest(src, q1, seq![items[0]], items.skip(1));
        assert(seq![items[0]] + items.skip(1) =~= items);
        let l1 = step(src, st1);
        let tk = l1.0->Ok_0;
        assert(tk !is ArrayEnd && tk !is Eof) by {
            if tk is ArrayEnd {
                assert(value_from(src, tk, after(l1)) is Err);
            }
        }
        let end = p + text_bytes(NodeView::Array(items)).len();
        assert(end == q1 + tb.len() + 1);
        assert(progress(src, st1, (q1, None)));
        assert(array_start(src, st1) == array_after(src, seq![items[0]], (q1, None)));
        assert(value_from(src, TokenView::ArrayStart, st1) == Ok::<
            (NodeView, LexState),
            JsonError,
        >((NodeView::Array(items), (end, None))));
    }
}

/// A written object at `p` reads back as that object.
proof fn lemma_value_object(src: Seq<u8>, p: int, es: Seq<(Seq<char>, NodeView)>)
    requires
        state_ok(src, (p, None)),
        forall|i: int| 0 <= i < es.len() ==> writable(#[trigger] es[i].1),
        bytes_at(src, p, text_bytes(NodeView::Object(es))),
        ends_value(src, p + text_bytes(NodeView::Object(es)).len()),
    ensures
        reads_value(
            src,
            p,
            NodeView::Object(es),
            p + text_bytes(NodeView::Object(es)).len(),
        ),
    decreases es, 2nat,
{
    lemma_object_bytes(es);
    let eb = encode_utf8(entries_text(es));
    lemma_bytes_split(src, p, seq![0x7Bu8] + eb, seq![0x7Du8]);
    lemma_first_byte(src, p, 0x7Bu8, eb);
    lemma_punct(src, p);
    let st1: LexState = (p + 1, None);
    if es.len() == 0 {
        assert(entries_text(es) =~= Seq::<char>::empty());
        assert(eb =~= Seq::<u8>::empty());
        assert(seq![0x7Bu8] + eb + seq![0x7Du8] =~= seq![0x7Bu8] + seq![0x7Du8]);
        lemma_first_byte(src, p, 0x7Bu8, seq![0x7Du8]);
        lemma_first_byte(src, p + 1, 0x7Du8, Seq::empty());
        lemma_punct(src, p + 1);
        assert(es =~= Seq::<(Seq<char>, NodeView)>::empty());
        assert(text_bytes(NodeView::Object(es)).len() == 2);
    } else {
        lemma_entries_bytes(es);
        assert(seq![0x7Bu8] + eb + seq![0x7Du8] =~= seq![0x7Bu8] + (eb + seq![0x7Du8]));
        lemma_first_byte(src, p, 0x7Bu8, eb + seq![0x7Du8]);
        lemma_object_rest(src, p + 1, Seq::empty(), es);
        assert(Seq::<(Seq<char>, NodeView)>::empty() + es =~= es);
        lemma_step_progress(src, st1);
        let l1 = step(src, st1);
        let tk = l1.0->Ok_0;
        let end = p + text_bytes(NodeView::Object(es)).len();
        assert(end == p + 1 + eb.len() + 1);
        assert(object_start(src, st1) == object_entry(src, Seq::empty(), tk, after(l1)));
        assert(value_from(src, TokenView::ObjectStart, st1) == Ok::<
            (NodeView, LexState),
            JsonError,
        >((NodeView::Object(es), (end, None))));
    }
}

/// The rest of a written array after an item: `,` and each of `xs`, then
/// `]`, read back as the items so far followed by `xs`.
proof fn lemma_array_rest(src: Seq<u8>, q: int, acc: Seq<NodeView>, xs: Seq<NodeView>)
    requires
        state_ok(src, (q, None)),
        forall|i: int| 0 <= i < xs.len() ==> writable(#[trigger] xs[i]),
        bytes_at(src, q, encode_utf8(items_tail(xs)) + seq![0x5Du8]),
        ends_value(src, q + encode_utf8(items_tail(xs)).len() + 1),
    ensures
        array_after(src, acc, (q, None)) == Ok::<(NodeView, LexState), JsonError>(
            (NodeView::Array(acc + xs), (q + encode_utf8(items_tail(xs)).len() + 1, None)),
        ),
    decreases xs, 1nat,
{
    let tb = encode_utf8(items_tail(xs));
    lemma_bytes_split(src, q, tb, seq![0x5Du8]);
    if xs.len() == 0 {
        assert(items_tail(xs) =~= Seq::<char>::empty());
        assert(tb =~= Seq::<u8>::empty());
        assert(tb + seq![0x5Du8] =~= seq![0x5Du8] + Seq::<u8>::empty());
        lemma_first_byte(src, q, 0x5Du8, Seq::empty());
        lemma_punct(src, q);
        assert(acc + xs =~= acc);
    } else {
        lemma_tail_bytes(xs);
        let t0 = text_bytes(xs[0]);
        let rb = encode_utf8(items_tail(xs.skip(1)));
        assert(seq![0x2Cu8] + t0 + rb + seq![0x5Du8] =~= seq![0x2Cu8] + (t0 + (rb + seq![0x5Du8])));
        lemma_first_byte(src, q, 0x2Cu8, t0 + (rb + seq![0x5Du8]));
        lemma_bytes_split(src, q + 1, t0, rb + seq![0x5Du8]);
        let q2 = q + 1 + t0.len();
        lemma_bytes_split(src, q2, rb, seq![0x5Du8]);
        lemma_punct(src, q);
        assert(ends_value(src, q2)) by {
            if xs.len() > 1 {
                lemma_tail_first(xs.skip(1));
                assert(src[q2] == rb[0]);
            } else {
                assert(xs.skip(1) =~= Seq::<NodeView>::empty());
                assert(rb =~= Seq::<u8>::empty());
                assert(seq![0x5Du8] =~= seq![0x5Du8] + Seq::<u8>::empty());
                lemma_first_byte(src, q2, 0x5Du8, Seq::empty());
            }
        }
        assert(writable(xs[0]));
        lemma_value(src, q + 1, xs[0]);
        lemma_parse_value_reads(src, q + 1, xs[0], q2);
        assert forall|i: int| 0 <= i < xs.skip(1).len() implies writable(#[trigger] xs.skip(1)[i]) by {
            assert(xs.skip(1)[i] == xs[i + 1]);
        }
        lemma_array_rest(src, q2, acc.push(xs[0]), xs.skip(1));
        assert(acc.push(xs[0]) + xs.skip(1) =~= acc + xs);
    }
}

/// Where the parts of the first of the written entries `es` stand.
proof fn lemma_entry_layout(src: Seq<u8>, q: int, es: Seq<(Seq<char>, NodeView)>)
    requires
        es.len() > 0,
        bytes_at(src, q, encode_utf8(entries_text(es)) + seq![0x7Du8]),
    ensures
        ({
            let k = es[0].0;
            let qk = q + 1 + escaped_bytes(k).len();
            let qv = qk + 2 + text_bytes(es[0].1).len();
            &&& string_at(src, q, k)
            &&& string_end(q, k) == qk + 1
            &&& src[qk + 1] == 0x3A
            &&& bytes_at(src, qk + 2, text_bytes(es[0].1))
            &&& ends_value(src, qv)
            &&& q + encode_utf8(entries_text(es)).len() + 1 == qv + encode_utf8(
                entries_tail(es.skip(1)),
            ).len() + 1
            &&& es.len() == 1 ==> src[qv] == 0x7D
            &&& es.len() > 1 ==> src[qv] == 0x2C && bytes_at(
                src,
                qv + 1,
                encode_utf8(entries_text(es.skip(1))) + seq![0x7Du8],
            ) && qv + encode_utf8(entries_tail(es.skip(1))).len() == qv + 1 + encode_utf8(
                entries_text(es.skip(1)),
            ).len()
        }),
{
    let e = es[0];
    let k = e.0;
    lemma_entries_bytes(es);
    lemma_entry_bytes(e);
    let kb = escaped_bytes(k);
    let vb = text_bytes(e.1);
    let rb = encode_utf8(entries_tail(es.skip(1)));
    assert(encode_utf8(entries_text(es)) + seq![0x7Du8] =~= seq![0x22u8] + (kb + (seq![
        0x22u8,
        0x3Au8,
    ] + (vb + (rb + seq![0x7Du8])))));
    lemma_first_byte(src, q, 0x22u8, kb + (seq![0x22u8, 0x3Au8] + (vb + (rb + seq![0x7Du8]))));
    lemma_bytes_split(src, q + 1, kb, seq![0x22u8, 0x3Au8] + (vb + (rb + seq![0x7Du8])));
    let qk = q + 1 + kb.len();
    assert(seq![0x22u8, 0x3Au8] + (vb + (rb + seq![0x7Du8])) =~= seq![0x22u8] + (seq![0x3Au8] + (
    vb + (rb + seq![0x7Du8]))));
    lemma_first_byte(src, qk, 0x22u8, seq![0x3Au8] + (vb + (rb + seq![0x7Du8])));
    lemma_first_byte(src, qk + 1, 0x3Au8, vb + (rb + seq![0x7Du8]));
    lemma_bytes_split(src, qk + 2, vb, rb + seq![0x7Du8]);
    let qv = qk + 2 + vb.len();
    lemma_bytes_split(src, qv, rb, seq![0x7Du8]);
    if es.len() == 1 {
        assert(es.skip(1) =~= Seq::<(Seq<char>, NodeView)>::empty());
        assert(rb =~= Seq::<u8>::empty());
        assert(rb + seq![0x7Du8] =~= seq![0x7Du8] + Seq::<u8>::empty());
        lemma_first_byte(src, qv, 0x7Du8, Seq::empty());
    } else {
        let rest = es.skip(1);
        lemma_entries_tail_bytes(rest);
        lemma_entries_bytes(rest);
        let r0 = encode_utf8(entry_text(rest[0]));
        let rr = encode_utf8(entries_tail(rest.skip(1)));
        assert(rb + seq![0x7Du8] =~= seq![0x2Cu8] + (r0 + rr + seq![0x7Du8]));
        lemma_first_byte(src, qv, 0x2Cu8, r0 + rr + seq![0x7Du8]);
        assert(r0 + rr == encode_utf8(entries_text(rest)));
    }
}

/// The rest of a written object from an entry's key: the entries `es`, then
/// `}`, read back (from the key token) as the entries so far followed by
/// `es`.
proof fn lemma_object_rest(
    src: Seq<u8>,
    q: int,
    acc: Seq<(Seq<char>, NodeView)>,
    es: Seq<(Seq<char>, NodeView)>,
)
    requires
        state_ok(src, (q, None)),
        es.len() > 0,
        forall|i: int| 0 <= i < es.len() ==> writable(#[trigger] es[i].1),
        bytes_at(src, q, encode_utf8(entries_text(es)) + seq![0x7Du8]),
        ends_value(src, q + encode_utf8(entries_text(es)).len() + 1),
    ensures
        ({
            let l = step(src, (q, None));
            &&& l.0 matches Ok(t) && t !is Eof && t !is ObjectEnd
            &&& progress(src, (q, None), after(l))
            &&& object_entry(src, acc, l.0->Ok_0, after(l)) == Ok::<
                (NodeView, LexState),
                JsonError,
            >(
                (
                    NodeView::Object(acc + es),
                    (q + encode_utf8(entries_text(es)).len() + 1, None),
                ),
            )
        }),
    decreases es, 1nat,
{
    let k = es[0].0;
    let v = es[0].1;
    lemma_entry_layout(src, q, es);
    let qk = q + 1 + escaped_bytes(k).len();
    let qv = qk + 2 + text_bytes(v).len();
    lemma_string_token(src, q, k);
    lemma_punct(src, qk + 1);
    lemma_step_progress(src, (qk + 1, None));
    assert(writable(v));
    lemma_value(src, qk + 2, v);
    lemma_parse_value_reads(src, qk + 2, v, qv);
    lemma_punct(src, qv);
    if es.len() == 1 {
        assert(acc.push((k, v)) =~= acc + es);
        assert(es.skip(1) =~= Seq::<(Seq<char>, NodeView)>::empty());
    } else {
        let rest = es.skip(1);
        assert forall|i: int| 0 <= i < rest.len() implies writable(#[trigger] rest[i].1) by {
            assert(rest[i] == es[i + 1]);
        }
        lemma_step_progress(src, (qv + 1, None));
        lemma_object_rest(src, qv + 1, acc.push((k, v)), rest);
        assert(acc.push((k, v)) + rest =~= acc + es);
    }
}

/// Reading back what the writer writes: for every tree whose numbers are
/// number texts that the tokenizer reads whole and the parser accepts,
/// parsing the bytes of the text that `to_json_string` writes for it gives
/// back that tree (strings and keys of any text included).
pub proof fn lemma_write_parse_roundtrip(v: NodeView)
    requires
        writable(v),
        text_bytes(v).len() <= usize::MAX,
    ensures
        parse_document(text_bytes(v)) == Ok::<NodeView, JsonError>(v),
{
    let src = text_bytes(v);
    let n = src.len() as int;
    assert(src.subrange(0, n) =~= src);
    lemma_value(src, 0, v);
    lemma_parse_value_reads(src, 0, v, n);
    reveal(step);
    assert(skip_ws_from(src, n) == n);
}

/// A written string body decodes, element by element, to the encoding of
/// the text it was written from, and ends after its closing quote.
proof fn lemma_body_decoded(src: Seq<u8>, s: int, cs: Seq<char>)
    requires
        string_body_at(src, s, cs),
    ensures
        body_decoded(src, s) == Some((encode_utf8(cs), s + escaped_bytes(cs).len() + 1)),
    decreases cs.len(),
{
    if cs.len() == 0 {
        assert(json_escaped(cs) =~= Seq::<char>::empty());
        assert(escaped_bytes(cs) =~= Seq::<u8>::empty());
        assert(src[s] == 0x22);
    } else {
        lemma_body_rest(src, s, cs);
        lemma_item(src, s, cs[0]);
        lemma_escaped_bytes_first(cs);
        let n = s + esc_bytes(cs[0]).len();
        lemma_body_decoded(src, n, cs.drop_first());
    }
}

/// The chunks that successive tokenizer calls emit for a string the writer
/// wrote add up to the UTF-8 encoding of the text it was written from, and
/// the last one ends right after the closing quote.
pub proof fn lemma_written_string_chunks(src: Seq<u8>, pos: int, body: usize, cs: Seq<char>)
    requires
        src.len() <= usize::MAX,
        string_body_at(src, body as int, cs),
    ensures
        emitted_chunks(src, pos, body, body) matches Some((chunks, e)) && chunks.flatten()
            == encode_utf8(cs) && e == body + escaped_bytes(cs).len() + 1,
{
    lemma_body_decoded(src, body as int, cs);
    lemma_chunks_concat(src, pos, body, body);
}

} // verus!
