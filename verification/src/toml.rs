//! A small TOML-subset parser.
//!
//! Top-level `key = value` assignments and single-level `[section]` tables;
//! values are basic strings (`"..."`; `\"` and `\\` do not end them,
//! escapes are left as written), integers,
//! floats (raw text), booleans and bare words. Lines end at LF (a CR before
//! it is dropped); a line whose first non-blank byte is `#` is a comment.
//! Each assignment becomes one `(section, key, value)` entry borrowed from the
//! input.
use vstd::prelude::*;
use crate::lines::{
    crlf, crlf_offset, no_cr, lemma_crlf_line, lemma_crlf_offsets, lemma_trimmed_len,
    blank_run_end, blank_tail_start, first_of, content_end, line_break, next_line, trimmed,
    split_line, trim, leading_blanks, position_of, lemma_first_of_at, lemma_first_of_none,
    lemma_line_break_at,
};
use crate::ini::{assignment_lines, lower_letter, one_line, simple_key};
use crate::numstr::{parse_int, parsed};
use crate::text::{string_from_bytes_or_empty, text_of};

verus! {

/// A parsed TOML value in borrowed text form.
#[derive(Clone, Copy, Debug, PartialEq, Eq)]
pub enum Value<'a> {
    /// A string: the bytes between the quotes (escapes as written), or a
    /// bare word.
    String(&'a [u8]),
    /// An integer token.
    Integer(&'a [u8]),
    /// A float token (holds `.`, `e` or `E`).
    Float(&'a [u8]),
    /// `true` or `false`.
    Boolean(bool),
}

/// A value with its text as a byte sequence.
pub enum ValueView {
    String(Seq<u8>),
    Integer(Seq<u8>),
    Float(Seq<u8>),
    Boolean(bool),
}

impl<'a> View for Value<'a> {
    type V = ValueView;

    open spec fn view(&self) -> ValueView {
        match *self {
            Value::String(b) => ValueView::String(b@),
            Value::Integer(b) => ValueView::Integer(b@),
            Value::Float(b) => ValueView::Float(b@),
            Value::Boolean(b) => ValueView::Boolean(b),
        }
    }
}

/// A parsed key/value assignment within a (possibly empty) section.
#[derive(Clone, Copy, Debug, PartialEq, Eq)]
pub struct Entry<'a> {
    /// Section name, or `None` for the top-level table.
    pub section: Option<&'a [u8]>,
    /// The key (raw bytes).
    pub key: &'a [u8],
    /// The value.
    pub value: Value<'a>,
}

/// An entry as `(section, key, value)`.
pub type EntryView = (Option<Seq<u8>>, Seq<u8>, ValueView);

/// The bytes of an optional slice.
pub open spec fn opt_bytes(s: Option<&[u8]>) -> Option<Seq<u8>> {
    match s {
        Some(b) => Some(b@),
        None => None,
    }
}

/// An entry as sequences.
pub open spec fn entry_view(e: Entry) -> EntryView {
    (opt_bytes(e.section), e.key@, e.value@)
}

impl<'a> Entry<'a> {
    /// A placeholder entry (used to fill caller-provided buffers).
    pub fn placeholder() -> (e: Self)
        ensures
            entry_view(e) == (None::<Seq<u8>>, Seq::<u8>::empty(), ValueView::Boolean(false)),
    {
        let empty: &[u8] = &[];
        proof {
            assert(empty@ =~= Seq::<u8>::empty());
        }
        Entry { section: None, key: empty, value: Value::Boolean(false) }
    }
}

/// An error encountered while parsing TOML.
#[derive(Clone, Copy, Debug, PartialEq, Eq, Structural)]
pub enum TomlError {
    /// A line that is neither blank, a comment, a `[section]` header nor a
    /// `key = ...` assignment with a non-empty key. Offset is the line start.
    InvalidLine(usize),
    /// A `key =` line without a usable value. Offset is the line start plus
    /// the index of the `=` in the trimmed line.
    MissingValue(usize),
    /// A basic string with no closing quote. Offset is the opening quote.
    UnterminatedString(usize),
    /// The output buffer was too small for the parsed entries.
    TooManyEntries,
}

/// The word `true`.
pub open spec fn word_true() -> Seq<u8> {
    seq![0x74u8, 0x72, 0x75, 0x65]
}

/// The word `false`.
pub open spec fn word_false() -> Seq<u8> {
    seq![0x66u8, 0x61, 0x6C, 0x73, 0x65]
}

/// Whether `raw` holds `.`, `e` or `E`.
pub open spec fn looks_float(raw: Seq<u8>) -> bool {
    exists|i: int| 0 <= i < raw.len() && (raw[i] == 0x2E || raw[i] == 0x65 || raw[i] == 0x45)
}

/// The index of the quote that closes a basic string, scanning from `i`:
/// a backslash escapes the byte after it.
pub open spec fn string_close(raw: Seq<u8>, i: int) -> Option<int>
    decreases raw.len() - i,
{
    if !(0 <= i < raw.len()) {
        None
    } else if raw[i] == 0x22 {
        Some(i)
    } else if raw[i] == 0x5C {
        if i + 2 <= raw.len() {
            string_close(raw, i + 2)
        } else {
            None
        }
    } else {
        string_close(raw, i + 1)
    }
}

/// Whether `raw` opens a basic string that never closes.
pub open spec fn unclosed_string(raw: Seq<u8>) -> bool {
    raw.len() > 0 && raw[0] == 0x22 && string_close(raw, 1) is None
}

/// Classify a non-empty raw value token: a quoted string up to its closing
/// `"`, `true`/`false`, a number (float if it holds `.`, `e` or `E`), or a
/// bare word; `None` for an unclosed string or a word that starts like a
/// boolean but is not one.
pub open spec fn value_of(raw: Seq<u8>) -> Option<ValueView> {
    let b = raw[0];
    if b == 0x22 {
        match string_close(raw, 1) {
            Some(c) => Some(ValueView::String(raw.subrange(1, c))),
            None => None,
        }
    } else if b == 0x74 {
        if raw == word_true() {
            Some(ValueView::Boolean(true))
        } else {
            None
        }
    } else if b == 0x66 {
        if raw == word_false() {
            Some(ValueView::Boolean(false))
        } else {
            None
        }
    } else if b == 0x2D || (0x30 <= b <= 0x39) {
        if looks_float(raw) {
            Some(ValueView::Float(raw))
        } else {
            Some(ValueView::Integer(raw))
        }
    } else {
        Some(ValueView::String(raw))
    }
}

/// What a trimmed line holds.
pub enum Line {
    Skip,
    Section(Seq<u8>),
    Assign(Seq<u8>, ValueView),
    Invalid,
    Missing(int),
    Unterminated(int),
}

/// Classify a trimmed line.
pub open spec fn classify(t: Seq<u8>) -> Line {
    if t.len() == 0 || t[0] == 0x23 {
        Line::Skip
    } else if t[0] == 0x5B {
        match first_of(t, 0, 0x5D, 0x5D) {
            Some(c) => if c > 1 {
                Line::Section(t.subrange(1, c))
            } else {
                Line::Invalid
            },
            None => Line::Invalid,
        }
    } else {
        match first_of(t, 0, 0x3D, 0x3D) {
            Some(e) => {
                let k = trimmed(t.take(e));
                let raw = trimmed(t.skip(e + 1));
                if k.len() == 0 {
                    Line::Invalid
                } else if raw.len() == 0 {
                    Line::Missing(e)
                } else if unclosed_string(raw) {
                    Line::Unterminated(e + 1 + blank_run_end(t.skip(e + 1), 0))
                } else {
                    match value_of(raw) {
                        Some(v) => Line::Assign(k, v),
                        None => Line::Missing(e),
                    }
                }
            },
            None => Line::Invalid,
        }
    }
}

/// The entries parsed from `pos` on in `section`, with room for `room` more,
/// and the error that stopped the parse, if any.
pub open spec fn parse_from(input: Seq<u8>, pos: int, section: Option<Seq<u8>>, room: int) -> (
    Seq<EntryView>,
    Option<TomlError>,
)
    decreases input.len() - pos,
{
    if !(0 <= pos < input.len()) {
        (Seq::empty(), None)
    } else {
        let brk = line_break(input, pos);
        let next = next_line(input, brk);
        let t = trimmed(input.subrange(pos, content_end(input, pos, brk)));
        if next <= pos || next > input.len() {
            (Seq::empty(), None)
        } else {
            match classify(t) {
                Line::Skip => parse_from(input, next, section, room),
                Line::Section(name) => parse_from(input, next, Some(name), room),
                Line::Invalid => (Seq::empty(), Some(TomlError::InvalidLine(pos as usize))),
                Line::Missing(e) => (Seq::empty(), Some(TomlError::MissingValue((pos + e) as usize))),
                Line::Unterminated(q) => {
                    let lead = blank_run_end(input.subrange(pos, content_end(input, pos, brk)), 0);
                    (Seq::empty(), Some(TomlError::UnterminatedString((pos + lead + q) as usize)))
                },
                Line::Assign(k, v) => if room <= 0 {
                    (Seq::empty(), Some(TomlError::TooManyEntries))
                } else {
                    let rest = parse_from(input, next, section, room - 1);
                    (seq![(section, k, v)] + rest.0, rest.1)
                },
            }
        }
    }
}

/// Whether `raw` equals `word`.
fn same_bytes(raw: &[u8], word: &[u8]) -> (r: bool)
    ensures
        r == (raw@ == word@),
{
    let n = raw.len();
    if n != word.len() {
        return false;
    }
    let mut i: usize = 0;
    while i < n
        invariant
            i <= n,
            n == raw@.len(),
            n == word@.len(),
            forall|j: int| 0 <= j < i ==> raw@[j] == word@[j],
        decreases n - i,
    {
        if raw[i] != word[i] {
            return false;
        }
        i += 1;
    }
    proof {
        assert(raw@ =~= word@);
    }
    true
}

/// Classify and decode a non-empty raw value token.
fn parse_value(raw: &[u8]) -> (r: Option<Value<'_>>)
    requires
        raw@.len() > 0,
    ensures
        match value_of(raw@) {
            Some(v) => r matches Some(x) && x@ == v,
            None => r is None,
        },
{
    let len = raw.len();
    let b = raw[0];
    if b == 0x22 {
        let mut i: usize = 1;
        while i < len
            invariant
                1 <= i,
                len == raw@.len(),
                raw@[0] == 0x22,
                string_close(raw@, i as int) == string_close(raw@, 1),
            decreases len - i,
        {
            let c = raw[i];
            if c == 0x22 {
                return Some(Value::String(vstd::slice::slice_subrange(raw, 1, i)));
            }
            if c == 0x5C {
                if len - i <= 2 {
                    assert(string_close(raw@, i + 2) is None);
                    return None;
                }
                i += 2;
            } else {
                i += 1;
            }
        }
        None
    } else if b == 0x74 {
        let word: [u8; 4] = [0x74, 0x72, 0x75, 0x65];
        proof {
            assert(word@ =~= word_true());
        }
        if same_bytes(raw, word.as_slice()) {
            Some(Value::Boolean(true))
        } else {
            None
        }
    } else if b == 0x66 {
        let word: [u8; 5] = [0x66, 0x61, 0x6C, 0x73, 0x65];
        proof {
            assert(word@ =~= word_false());
        }
        if same_bytes(raw, word.as_slice()) {
            Some(Value::Boolean(false))
        } else {
            None
        }
    } else if b == 0x2D || (0x30 <= b && b <= 0x39) {
        let mut i: usize = 0;
        let mut float = false;
        while i < len
            invariant
                i <= len,
                len == raw@.len(),
                float == exists|j: int|
                    0 <= j < i && (raw@[j] == 0x2E || raw@[j] == 0x65 || raw@[j] == 0x45),
            decreases len - i,
        {
            let c = raw[i];
            if c == 0x2E || c == 0x65 || c == 0x45 {
                float = true;
            }
            i += 1;
        }
        if float {
            Some(Value::Float(raw))
        } else {
            Some(Value::Integer(raw))
        }
    } else {
        Some(Value::String(raw))
    }
}

/// The entries `key = 1` lines give in `section`: integers `1`.
pub open spec fn one_entries(keys: Seq<Seq<u8>>, section: Option<Seq<u8>>) -> Seq<EntryView> {
    keys.map_values(|k: Seq<u8>| (section, k, ValueView::Integer(seq![0x31u8])))
}

/// After any text that ends a line, `key = 1` lines for simple keys parse
/// back, with room for them, to one integer entry per key, in order.
proof fn lemma_assignment_lines_from(
    pre: Seq<u8>,
    keys: Seq<Seq<u8>>,
    section: Option<Seq<u8>>,
    room: int,
)
    requires
        keys.len() <= room,
        forall|i: int| 0 <= i < keys.len() ==> simple_key(#[trigger] keys[i]),
    ensures
        parse_from(pre + assignment_lines(keys), pre.len() as int, section, room) == (
            one_entries(keys, section),
            None::<TomlError>,
        ),
    decreases keys.len(),
{
    let s = pre + assignment_lines(keys);
    let p = pre.len() as int;
    if keys.len() == 0 {
        assert(s =~= pre);
        assert(one_entries(keys, section) =~= Seq::<EntryView>::empty());
    } else {
        let k = keys[0];
        let n = k.len() as int;
        let rest = keys.skip(1);
        let l = one_line(k);
        assert(simple_key(k));
        assert(s =~= (pre + l) + assignment_lines(rest));
        assert forall|j: int| 0 <= j < n implies s[p + j] == k[j] && lower_letter(s[p + j]) by {
            assert(s[p + j] == l[j]);
        }
        assert(s[p + n] == 0x20);
        assert(s[p + n + 1] == 0x3D);
        assert(s[p + n + 2] == 0x20);
        assert(s[p + n + 3] == 0x31);
        assert(s[p + n + 4] == 0x0A);
        lemma_line_break_at(s, p, p + n + 4);
        let brk = p + n + 4;
        assert(content_end(s, p, brk) == brk);
        assert(next_line(s, brk) == p + n + 5);
        let t = s.subrange(p, brk);
        assert(t =~= k + seq![0x20u8, 0x3D, 0x20, 0x31]);
        assert(trimmed(t) =~= t);
        lemma_first_of_at(t, 0, n + 1, 0x3D, 0x3D);
        let kt = t.take(n + 1);
        assert(kt[n] == 0x20);
        assert(lower_letter(kt[n - 1]) && lower_letter(kt[0]));
        assert(blank_run_end(kt, 0) == 0);
        assert(blank_tail_start(kt, 0, n) == n);
        assert(blank_tail_start(kt, 0, n + 1) == n);
        assert(trimmed(kt) =~= k);
        let vt = t.skip(n + 2);
        assert(vt =~= seq![0x20u8, 0x31]);
        assert(blank_run_end(vt, 1) == 1);
        assert(blank_run_end(vt, 0) == 1);
        assert(blank_tail_start(vt, 1, 2) == 2);
        let raw = trimmed(vt);
        assert(raw =~= seq![0x31u8]);
        assert(!looks_float(raw));
        assert(value_of(raw) == Some(ValueView::Integer(seq![0x31u8])));
        assert(classify(t) == Line::Assign(k, ValueView::Integer(seq![0x31u8])));
        assert forall|i: int| 0 <= i < rest.len() implies simple_key(#[trigger] rest[i]) by {
            assert(rest[i] == keys[i + 1]);
        }
        lemma_assignment_lines_from(pre + l, rest, section, room - 1);
        assert((pre + l).len() == p + n + 5);
        assert(one_entries(keys, section) =~= seq![
            (section, k, ValueView::Integer(seq![0x31u8])),
        ] + one_entries(rest, section));
    }
}

/// Parsing `key = 1` lines (one per simple key), with room for every entry,
/// gives back one top-level entry per key, in order, each the integer `1`.
pub proof fn lemma_assignment_lines_roundtrip(keys: Seq<Seq<u8>>, room: int)
    requires
        keys.len() <= room,
        forall|i: int| 0 <= i < keys.len() ==> simple_key(#[trigger] keys[i]),
    ensures
        parse_from(assignment_lines(keys), 0, None, room) == (
            one_entries(keys, None),
            None::<TomlError>,
        ),
{
    lemma_assignment_lines_from(Seq::empty(), keys, None, room);
    assert(Seq::<u8>::empty() + assignment_lines(keys) =~= assignment_lines(keys));
}

/// Parse `input` into `out`, returning the number of [`Entry`]s written.
///
/// If there are more entries than `out.len()`, the parse stops with
/// [`TomlError::TooManyEntries`]. All byte slices in the entries borrow
/// `input`. On an error, `out` holds the entries parsed before it.
pub fn parse_into<'a>(input: &'a [u8], out: &mut [Entry<'a>]) -> (r: Result<usize, TomlError>)
    ensures
        ({
            let (es, err) = parse_from(input@, 0, None, old(out)@.len() as int);
            &&& final(out)@.len() == old(out)@.len()
            &&& es.len() <= old(out)@.len()
            &&& forall|i: int| 0 <= i < es.len() ==> entry_view(#[trigger] final(out)@[i]) == es[i]
            &&& forall|i: int| es.len() <= i < old(out)@.len() ==> #[trigger] final(out)@[i] == old(
                out,
            )@[i]
            &&& match err {
                None => r == Ok::<usize, TomlError>(es.len() as usize),
                Some(e) => r == Err::<usize, TomlError>(e),
            }
        }),
{
    let ghost target = parse_from(input@, 0, None, out@.len() as int);
    let mut n: usize = 0;
    let mut section: Option<&'a [u8]> = None;
    let mut pos: usize = 0;
    let len = input.len();
    let cap = out.len();
    while pos < len
        invariant
            len == input@.len(),
            cap == out@.len(),
            cap == old(out)@.len(),
            pos <= len,
            n <= cap,
            target == parse_from(input@, 0, None, cap as int),
            ({
                let rest = parse_from(input@, pos as int, opt_bytes(section), (cap - n) as int);
                &&& target.1 == rest.1
                &&& target.0.len() == n + rest.0.len()
                &&& target.0.skip(n as int) == rest.0
            }),
            forall|i: int| 0 <= i < n ==> entry_view(#[trigger] out@[i]) == target.0[i],
            forall|i: int| n <= i < cap ==> #[trigger] out@[i] == old(out)@[i],
        decreases len - pos,
    {
        let line_start = pos;
        let (line_end, next) = split_line(input, pos);
        pos = next;
        let line = vstd::slice::slice_subrange(input, line_start, line_end);
        let lead = leading_blanks(line);
        let trimmed = trim(line);
        let tl = trimmed.len();
        if tl == 0 || trimmed[0] == 0x23 {
            continue;
        }
        if trimmed[0] == 0x5B {
            match position_of(trimmed, 0x5D, 0x5D) {
                Some(c) => {
                    if c > 1 {
                        section = Some(vstd::slice::slice_subrange(trimmed, 1, c));
                        continue;
                    }
                },
                None => {},
            }
            return Err(TomlError::InvalidLine(line_start));
        }
        let eq = match position_of(trimmed, 0x3D, 0x3D) {
            Some(e) => e,
            None => {
                return Err(TomlError::InvalidLine(line_start));
            },
        };
        let key = trim(vstd::slice::slice_subrange(trimmed, 0, eq));
        proof {
            assert(trimmed@.subrange(0, eq as int) =~= trimmed@.take(eq as int));
            assert(trimmed@.subrange(eq + 1, tl as int) =~= trimmed@.skip(eq + 1));
        }
        if key.len() == 0 {
            return Err(TomlError::InvalidLine(line_start));
        }
        let vpart = vstd::slice::slice_subrange(trimmed, eq + 1, tl);
        let vlead = leading_blanks(vpart);
        let raw_val = trim(vpart);
        if raw_val.len() == 0 {
            return Err(TomlError::MissingValue(line_start + eq));
        }
        let value = match parse_value(raw_val) {
            Some(v) => v,
            None => {
                if raw_val[0] == 0x22 {
                    return Err(TomlError::UnterminatedString(line_start + lead + eq + 1 + vlead));
                }
                return Err(TomlError::MissingValue(line_start + eq));
            },
        };
        if n >= cap {
            return Err(TomlError::TooManyEntries);
        }
        proof {
            assert(classify(trimmed@) == Line::Assign(key@, value@));
            let rest = parse_from(input@, line_start as int, opt_bytes(section), (cap - n) as int);
            let tail = parse_from(input@, next as int, opt_bytes(section), (cap - n - 1) as int);
            assert(rest.0 == seq![(opt_bytes(section), key@, value@)] + tail.0);
            assert(target.0[n as int] == rest.0[0]);
            assert(target.0.skip(n + 1) =~= rest.0.skip(1));
            assert(rest.0.skip(1) =~= tail.0);
        }
        out[n] = Entry { section, key, value };
        n += 1;
    }
    proof {
        assert(target.0.skip(n as int).len() == 0);
    }
    Ok(n)
}

/// Interpret an integer value token as `i64`: `None` for another kind of
/// value, a malformed integer, or one outside the `i64` range.
pub fn as_int(v: Value<'_>) -> (r: Option<i64>)
    ensures
        match v@ {
            ValueView::Integer(b) => (r is Some <==> (parsed(b, 10) is Some && i64::MIN
                <= parsed(b, 10).unwrap() <= i64::MAX)) && (r matches Some(x) ==> x == parsed(
                b,
                10,
            ).unwrap()),
            _ => r is None,
        },
{
    match v {
        Value::Integer(b) => parse_int::<i64>(b, 10),
        _ => None,
    }
}

/// How a value token is typed. One made of an optional `-` and then digits
/// only is an integer; one that starts with `-` or a digit and holds a `.`,
/// an `e` or an `E` is a float; exactly `true` and `false` are booleans; one
/// that starts with a quote is the string up to the first quote that no
/// backslash escapes; any other token that starts with neither `t` nor `f`
/// is a bare-word string.
pub proof fn lemma_value_kinds(raw: Seq<u8>)
    requires
        raw.len() > 0,
    ensures
        (raw[0] == 0x2D || 0x30 <= raw[0] <= 0x39) && (forall|i: int|
            1 <= i < raw.len() ==> 0x30 <= #[trigger] raw[i] <= 0x39) ==> value_of(raw) == Some(
            ValueView::Integer(raw),
        ),
        (raw[0] == 0x2D || 0x30 <= raw[0] <= 0x39) && (exists|i: int|
            0 <= i < raw.len() && (#[trigger] raw[i] == 0x2E || raw[i] == 0x65 || raw[i] == 0x45))
            ==> value_of(raw) == Some(ValueView::Float(raw)),
        raw == seq![0x74u8, 0x72, 0x75, 0x65] ==> value_of(raw) == Some(ValueView::Boolean(true)),
        raw == seq![0x66u8, 0x61, 0x6C, 0x73, 0x65] ==> value_of(raw) == Some(
            ValueView::Boolean(false),
        ),
        !(raw[0] == 0x2D || 0x30 <= raw[0] <= 0x39 || raw[0] == 0x22 || raw[0] == 0x74 || raw[0]
            == 0x66) ==> value_of(raw) == Some(ValueView::String(raw)),
        forall|c: int|
            1 <= c < raw.len() && raw[0] == 0x22 && raw[c] == 0x22 && (forall|j: int|
                1 <= j < c ==> raw[j] != 0x22 && raw[j] != 0x5C) ==> value_of(raw) == Some(
                ValueView::String(raw.subrange(1, c)),
            ),
{
    if (raw[0] == 0x2D || 0x30 <= raw[0] <= 0x39) && (forall|i: int|
        1 <= i < raw.len() ==> 0x30 <= #[trigger] raw[i] <= 0x39) {
        if looks_float(raw) {
            let i = choose|i: int|
                0 <= i < raw.len() && (raw[i] == 0x2E || raw[i] == 0x65 || raw[i] == 0x45);
            if i >= 1 {
                assert(0x30 <= raw[i] <= 0x39);
            }
        }
    }
    assert forall|c: int|
        1 <= c < raw.len() && raw[0] == 0x22 && raw[c] == 0x22 && (forall|j: int|
            1 <= j < c ==> raw[j] != 0x22 && raw[j] != 0x5C) implies value_of(raw) == Some(
        ValueView::String(raw.subrange(1, c)),
    ) by {
        lemma_string_close_plain(raw, 1, c);
    }
}

proof fn lemma_string_close_plain(raw: Seq<u8>, i: int, c: int)
    requires
        1 <= i <= c < raw.len(),
        raw[c] == 0x22,
        forall|j: int| i <= j < c ==> raw[j] != 0x22 && raw[j] != 0x5C,
    ensures
        string_close(raw, i) == Some(c),
    decreases c - i,
{
    if i < c {
        lemma_string_close_plain(raw, i + 1, c);
    }
}

/// How a trimmed line is read. An empty line or one starting with `#` is
/// skipped. A line `[name]...` names a section (the bytes up to the first
/// `]`, which must not be empty). Any other line splits at its first `=`:
/// with no `=` or an empty key it is invalid, with an empty value it misses
/// its value (at the `=`), and otherwise it assigns the typed value to the
/// key, both without their surrounding blanks.
pub proof fn lemma_toml_line(t: Seq<u8>, i: int)
    requires
        0 <= i <= t.len(),
        t.len() > 0 && t[0] == 0x5B ==> forall|k: int| 0 <= k < i ==> t[k] != 0x5D,
        t.len() > 0 && t[0] == 0x5B && i < t.len() ==> t[i] == 0x5D,
        t.len() > 0 && t[0] != 0x5B ==> forall|k: int| 0 <= k < i ==> t[k] != 0x3D,
        t.len() > 0 && t[0] != 0x5B && i < t.len() ==> t[i] == 0x3D,
    ensures
        t.len() == 0 || t[0] == 0x23 ==> classify(t) == Line::Skip,
        t.len() > 0 && t[0] == 0x5B ==> classify(t) == if i < t.len() && i > 1 {
            Line::Section(t.subrange(1, i))
        } else {
            Line::Invalid
        },
        t.len() > 0 && t[0] != 0x5B && t[0] != 0x23 && (i == t.len() || trimmed(t.take(i)).len()
            == 0) ==> classify(t) == Line::Invalid,
        t.len() > 0 && t[0] != 0x5B && t[0] != 0x23 && i < t.len() && trimmed(t.take(i)).len() > 0
            && trimmed(t.skip(i + 1)).len() == 0 ==> classify(t) == Line::Missing(i),
        t.len() > 0 && t[0] != 0x5B && t[0] != 0x23 && i < t.len() && trimmed(t.take(i)).len() > 0
            && trimmed(t.skip(i + 1)).len() > 0 && value_of(trimmed(t.skip(i + 1))) is Some
            ==> classify(t) == Line::Assign(
            trimmed(t.take(i)),
            value_of(trimmed(t.skip(i + 1))).unwrap(),
        ),
{
    if t.len() > 0 && t[0] != 0x23 {
        if t[0] == 0x5B {
            if i < t.len() {
                lemma_first_of_at(t, 0, i, 0x5D, 0x5D);
            } else {
                lemma_first_of_none(t, 0, 0x5D, 0x5D);
            }
        } else {
            if i < t.len() {
                lemma_first_of_at(t, 0, i, 0x3D, 0x3D);
                let raw = trimmed(t.skip(i + 1));
                if raw.len() > 0 && value_of(raw) is Some && unclosed_string(raw) {
                    assert(raw[0] == 0x22);
                }
            } else {
                lemma_first_of_none(t, 0, 0x3D, 0x3D);
            }
        }
    }
}

/// An error of a text as it reads in the text's CRLF form: its offset moves
/// to where it lands.
pub open spec fn crlf_error(x: Seq<u8>, e: Option<TomlError>) -> Option<TomlError> {
    match e {
        Some(TomlError::InvalidLine(p)) => Some(TomlError::InvalidLine(crlf_offset(x, p as int) as usize)),
        Some(TomlError::MissingValue(p)) => Some(TomlError::MissingValue(crlf_offset(x, p as int) as usize)),
        Some(TomlError::UnterminatedString(p)) => Some(
            TomlError::UnterminatedString(crlf_offset(x, p as int) as usize),
        ),
        other => other,
    }
}

proof fn lemma_crlf_parse_from(x: Seq<u8>, pos: int, section: Option<Seq<u8>>, room: int)
    requires
        no_cr(x),
        0 <= pos <= x.len(),
        crlf(x).len() <= usize::MAX,
    ensures
        ({
            let r = parse_from(x, pos, section, room);
            parse_from(crlf(x), crlf_offset(x, pos), section, room) == (r.0, crlf_error(x, r.1))
        }),
    decreases x.len() - pos,
{
    if pos == x.len() {
        assert(x.take(pos) =~= x);
    } else {
        lemma_crlf_line(x, pos);
        let brk = line_break(x, pos);
        let next = next_line(x, brk);
        lemma_crlf_offsets(x, pos, next);
        lemma_crlf_offsets(x, 0, x.len() as int);
        let line = x.subrange(pos, brk);
        let t = trimmed(line);
        lemma_trimmed_len(line);
        let lead = blank_run_end(line, 0);
        match classify(t) {
            Line::Skip => {
                lemma_crlf_parse_from(x, next, section, room);
            },
            Line::Section(name) => {
                lemma_crlf_parse_from(x, next, Some(name), room);
            },
            Line::Assign(k, v) => {
                lemma_crlf_parse_from(x, next, section, room - 1);
            },
            Line::Missing(e) => {
                lemma_first_of_in(t, 0, 0x3D);
                assert(pos <= pos + e <= brk);
            },
            Line::Unterminated(q) => {
                let e = first_of(t, 0, 0x3D, 0x3D)->0;
                lemma_first_of_in(t, 0, 0x3D);
                lemma_trimmed_len(t.skip(e + 1));
                assert(pos <= pos + lead + q <= brk);
            },
            Line::Invalid => {},
        }
    }
}

/// Where `first_of` finds something, it is inside `s`.
proof fn lemma_first_of_in(s: Seq<u8>, i: int, a: u8)
    requires
        0 <= i,
    ensures
        first_of(s, i, a, a) matches Some(k) ==> i <= k < s.len(),
    decreases s.len() - i,
{
    if 0 <= i < s.len() && s[i] != a {
        lemma_first_of_in(s, i + 1, a);
    }
}

/// Line endings do not matter: a text without carriage returns, with every
/// line feed made CRLF, parses to the same entries (so no key or value ends
/// in a carriage return) and stops with the same error, its offset counted
/// in the CRLF text.
pub proof fn lemma_crlf_same_entries(x: Seq<u8>, room: int)
    requires
        no_cr(x),
        crlf(x).len() <= usize::MAX,
    ensures
        parse_from(crlf(x), 0, None, room).0 == parse_from(x, 0, None, room).0,
        parse_from(crlf(x), 0, None, room).1 == crlf_error(x, parse_from(x, 0, None, room).1),
{
    lemma_crlf_parse_from(x, 0, None, room);
    assert(x.take(0) =~= Seq::<u8>::empty());
    assert(crlf(Seq::<u8>::empty()) =~= Seq::<u8>::empty());
}

/// An owned value: strings and keys as text, integers read as `i64` (`0`
/// when they do not read), floats left as their text.
#[derive(Debug, PartialEq)]
pub enum OwnedValue {
    String(String),
    Integer(i64),
    Float(Vec<u8>),
    Boolean(bool),
}

/// An owned entry: section, key and value.
pub type OwnedEntry = (Option<String>, String, OwnedValue);

/// The integer an integer token reads as in an owned document: its `i64`
/// value, or `0` when it is malformed or out of range.
pub open spec fn owned_integer(b: Seq<u8>) -> int {
    if parsed(b, 10) is Some && i64::MIN <= parsed(b, 10).unwrap() <= i64::MAX {
        parsed(b, 10).unwrap()
    } else {
        0
    }
}

/// Whether the owned entry `o` is the parsed entry `e`, with bytes that are
/// not UTF-8 read as empty text.
pub open spec fn owned_is(o: OwnedEntry, e: EntryView) -> bool {
    &&& match (o.0, e.0) {
        (Some(s), Some(b)) => s@ == text_of(b),
        (None, None) => true,
        _ => false,
    }
    &&& o.1@ == text_of(e.1)
    &&& match (o.2, e.2) {
        (OwnedValue::String(s), ValueView::String(b)) => s@ == text_of(b),
        (OwnedValue::Integer(i), ValueView::Integer(b)) => i == owned_integer(b),
        (OwnedValue::Float(v), ValueView::Float(b)) => v@ == b,
        (OwnedValue::Boolean(x), ValueView::Boolean(y)) => x == y,
        _ => false,
    }
}

/// An owned copy of `b`.
fn bytes_to_vec(b: &[u8]) -> (r: Vec<u8>)
    ensures
        r@ == b@,
{
    let mut v: Vec<u8> = Vec::new();
    let mut i: usize = 0;
    while i < b.len()
        invariant
            i <= b@.len(),
            v@ == b@.take(i as int),
        decreases b@.len() - i,
    {
        v.push(b[i]);
        i += 1;
        assert(v@ =~= b@.take(i as int));
    }
    assert(b@.take(b@.len() as int) =~= b@);
    v
}

/// Parse `input` (at most 1024 entries) into owned entries, in order.
pub fn parse_owned(input: &[u8]) -> (r: Result<Vec<OwnedEntry>, TomlError>)
    ensures
        ({
            let (es, err) = parse_from(input@, 0, None, 1024);
            match err {
                None => r matches Ok(v) && v@.len() == es.len() && forall|j: int|
                    0 <= j < es.len() ==> owned_is(#[trigger] v@[j], es[j]),
                Some(e) => r == Err::<Vec<OwnedEntry>, TomlError>(e),
            }
        }),
{
    let mut buf = vec![Entry::placeholder(); 1024];
    let n = match parse_into(input, buf.as_mut_slice()) {
        Ok(n) => n,
        Err(e) => {
            return Err(e);
        },
    };
    let ghost es = parse_from(input@, 0, None, 1024).0;
    let mut entries: Vec<OwnedEntry> = Vec::new();
    let mut i: usize = 0;
    while i < n
        invariant
            i <= n,
            n == es.len(),
            buf@.len() == 1024,
            n <= 1024,
            forall|j: int| 0 <= j < n ==> entry_view(#[trigger] buf@[j]) == es[j],
            entries@.len() == i,
            forall|j: int| 0 <= j < i ==> owned_is(#[trigger] entries@[j], es[j]),
        decreases n - i,
    {
        let e = buf[i];
        let section = match e.section {
            Some(s) => Some(string_from_bytes_or_empty(s)),
            None => None,
        };
        let key = string_from_bytes_or_empty(e.key);
        let value = match e.value {
            Value::String(b) => OwnedValue::String(string_from_bytes_or_empty(b)),
            Value::Integer(_) => OwnedValue::Integer(
                match as_int(e.value) {
                    Some(x) => x,
                    None => 0,
                },
            ),
            Value::Float(b) => OwnedValue::Float(bytes_to_vec(b)),
            Value::Boolean(x) => OwnedValue::Boolean(x),
        };
        let ghost before = entries@;
        entries.push((section, key, value));
        proof {
            assert(entry_view(buf@[i as int]) == es[i as int]);
            assert forall|j: int| 0 <= j < i + 1 implies owned_is(#[trigger] entries@[j], es[j]) by {
                if j < i {
                    assert(entries@[j] == before[j]);
                }
            }
        }
        i += 1;
    }
    Ok(entries)
}

} // verus!
