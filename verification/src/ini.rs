//! A small INI parser.
//!
//! `[section]` headers switch the current section; `key = value` and
//! `key : value` lines are assignments; `;` and `#` start a comment that runs
//! to the end of the line. Lines end at LF (a CR before it is dropped). Each
//! assignment becomes one `(section, key, value)` entry, borrowed from the
//! input, with key and value trimmed of spaces and tabs.
use vstd::prelude::*;
use crate::lines::{
    crlf, crlf_offset, no_cr, lemma_crlf_line, lemma_crlf_offsets,
    blank_run_end, blank_tail_start, first_of, content_end, line_break, next_line, trimmed, split_line, trim, position_of,
    lemma_first_of_at, lemma_first_of_none, lemma_line_break_at,
};
use crate::text::{string_from_bytes_or_empty, text_of};

verus! {

/// A parsed INI assignment: raw `key` and `value` bytes (trimmed,
/// comment-stripped) borrowed from the input, plus the `section` they belong
/// to.
#[derive(Clone, Copy, Debug, PartialEq, Eq)]
pub struct Entry<'a> {
    /// Current section name, or `None` for entries before the first header.
    pub section: Option<&'a [u8]>,
    /// The key (trimmed bytes, no separator).
    pub key: &'a [u8],
    /// The value (trimmed bytes).
    pub value: &'a [u8],
}

/// An entry as byte sequences: `(section, key, value)`.
pub type EntryView = (Option<Seq<u8>>, Seq<u8>, Seq<u8>);

/// The bytes of an optional slice.
pub open spec fn opt_bytes(s: Option<&[u8]>) -> Option<Seq<u8>> {
    match s {
        Some(b) => Some(b@),
        None => None,
    }
}

/// The bytes of an entry.
pub open spec fn entry_view(e: Entry) -> EntryView {
    (opt_bytes(e.section), e.key@, e.value@)
}

impl<'a> Entry<'a> {
    /// An empty placeholder entry (used to fill caller-provided buffers).
    pub fn placeholder() -> (e: Self)
        ensures
            entry_view(e) == (None::<Seq<u8>>, Seq::<u8>::empty(), Seq::<u8>::empty()),
    {
        let empty: &[u8] = &[];
        proof {
            assert(empty@ =~= Seq::<u8>::empty());
        }
        Entry { section: None, key: empty, value: empty }
    }
}

/// An error encountered while parsing INI.
#[derive(Clone, Copy, Debug, PartialEq, Eq, Structural)]
pub enum IniError {
    /// The output buffer was too small for the parsed entries.
    TooManyEntries,
    /// A line that is neither blank, a comment, a `[section]` header nor a
    /// `key<sep>value` assignment with a non-empty key. Offset is the line
    /// start.
    InvalidLine(usize),
}

/// A line with its comment (from the first `;` or `#` on) removed.
pub open spec fn comment_free(line: Seq<u8>) -> Seq<u8> {
    match first_of(line, 0, 0x3B, 0x23) {
        Some(c) => line.take(c),
        None => line,
    }
}

/// What a trimmed, comment-free line holds.
pub enum Line {
    Blank,
    Section(Seq<u8>),
    Assign(Seq<u8>, Seq<u8>),
    Invalid,
}

/// Classify a trimmed, comment-free line: a header `[name...]` needs a `]`
/// after a non-empty name; an assignment splits at the first `=` or `:` and
/// needs a non-empty trimmed key.
pub open spec fn classify(t: Seq<u8>) -> Line {
    if t.len() == 0 {
        Line::Blank
    } else if t[0] == 0x5B {
        match first_of(t, 0, 0x5D, 0x5D) {
            Some(c) => if c > 1 {
                Line::Section(t.subrange(1, c))
            } else {
                Line::Invalid
            },
            None => Line::Invalid,
        }
    } else {
        match first_of(t, 0, 0x3D, 0x3A) {
            Some(s) => {
                let k = trimmed(t.take(s));
                if k.len() == 0 {
                    Line::Invalid
                } else {
                    Line::Assign(k, trimmed(t.skip(s + 1)))
                }
            },
            None => Line::Invalid,
        }
    }
}

/// The entries parsed from `pos` on in `section`, with room for `room` more,
/// and the error that stopped the parse, if any.
pub open spec fn parse_from(input: Seq<u8>, pos: int, section: Option<Seq<u8>>, room: int) -> (
    Seq<EntryView>,
    Option<IniError>,
)
    decreases input.len() - pos,
{
    if !(0 <= pos < input.len()) {
        (Seq::empty(), None)
    } else {
        let brk = line_break(input, pos);
        let next = next_line(input, brk);
        let t = trimmed(comment_free(input.subrange(pos, content_end(input, pos, brk))));
        if next <= pos || next > input.len() {
            (Seq::empty(), None)
        } else {
            match classify(t) {
                Line::Blank => parse_from(input, next, section, room),
                Line::Section(name) => parse_from(input, next, Some(name), room),
                Line::Invalid => (Seq::empty(), Some(IniError::InvalidLine(pos as usize))),
                Line::Assign(k, v) => if room <= 0 {
                    (Seq::empty(), Some(IniError::TooManyEntries))
                } else {
                    let rest = parse_from(input, next, section, room - 1);
                    (seq![(section, k, v)] + rest.0, rest.1)
                },
            }
        }
    }
}

/// Strip a `;`/`#` comment (and everything after it) from a line.
fn strip_comment(line: &[u8]) -> (r: &[u8])
    ensures
        r@ == comment_free(line@),
{
    match position_of(line, 0x3B, 0x23) {
        Some(c) => {
            proof {
                assert(line@.subrange(0, c as int) =~= line@.take(c as int));
            }
            vstd::slice::slice_subrange(line, 0, c)
        },
        None => line,
    }
}

/// Parse `input` into `out`, returning the number of [`Entry`]s written.
///
/// If there are more entries than `out.len()`, the parse stops with
/// [`IniError::TooManyEntries`]. All byte slices in the entries borrow
/// `input`. On an error, `out` holds the entries parsed before it.
pub fn parse_into<'a>(input: &'a [u8], out: &mut [Entry<'a>]) -> (r: Result<usize, IniError>)
    ensures
        ({
            let (es, err) = parse_from(input@, 0, None, old(out)@.len() as int);
            &&& final(out)@.len() == old(out)@.len()
            &&& es.len() <= old(out)@.len()
            &&& forall|i: int| 0 <= i < es.len() ==> entry_view(#[trigger] final(out)@[i]) == es[i]
            &&& forall|i: int| es.len() <= i < old(out)@.len() ==> #[trigger] final(out)@[i] == old(
                out,
            )@[i]
            &&& match err {
                None => r == Ok::<usize, IniError>(es.len() as usize),
                Some(e) => r == Err::<usize, IniError>(e),
            }
        }),
{
    let ghost target = parse_from(input@, 0, None, out@.len() as int);
    let mut n: usize = 0;
    let mut section: Option<&'a [u8]> = None;
    let mut pos: usize = 0;
    let len = input.len();
    let cap = out.len();
    while pos < len
        invariant
            len == input@.len(),
            cap == out@.len(),
            cap == old(out)@.len(),
            pos <= len,
            n <= cap,
            target == parse_from(input@, 0, None, cap as int),
            ({
                let rest = parse_from(input@, pos as int, opt_bytes(section), (cap - n) as int);
                &&& target.1 == rest.1
                &&& target.0.len() == n + rest.0.len()
                &&& target.0.skip(n as int) == rest.0
            }),
            forall|i: int| 0 <= i < n ==> entry_view(#[trigger] out@[i]) == target.0[i],
            forall|i: int| n <= i < cap ==> #[trigger] out@[i] == old(out)@[i],
        decreases len - pos,
    {
        let line_start = pos;
        let (line_end, next) = split_line(input, pos);
        pos = next;
        let line = vstd::slice::slice_subrange(input, line_start, line_end);
        let line = strip_comment(line);
        let trimmed = trim(line);
        let tl = trimmed.len();
        if tl == 0 {
            continue;
        }
        if trimmed[0] == 0x5B {
            match position_of(trimmed, 0x5D, 0x5D) {
                Some(c) => {
                    if c > 1 {
                        section = Some(vstd::slice::slice_subrange(trimmed, 1, c));
                        continue;
                    }
                },
                None => {},
            }
            return Err(IniError::InvalidLine(line_start));
        }
        let (key, value) = match position_of(trimmed, 0x3D, 0x3A) {
            Some(s) => {
                let k = trim(vstd::slice::slice_subrange(trimmed, 0, s));
                let v = trim(vstd::slice::slice_subrange(trimmed, s + 1, tl));
                proof {
                    assert(trimmed@.subrange(0, s as int) =~= trimmed@.take(s as int));
                    assert(trimmed@.subrange(s + 1, tl as int) =~= trimmed@.skip(s + 1));
                }
                (k, v)
            },
            None => {
                return Err(IniError::InvalidLine(line_start));
            },
        };
        if key.len() == 0 {
            return Err(IniError::InvalidLine(line_start));
        }
        if n >= cap {
            return Err(IniError::TooManyEntries);
        }
        proof {
            assert(classify(trimmed@) == Line::Assign(key@, value@));
            let rest = parse_from(input@, line_start as int, opt_bytes(section), (cap - n) as int);
            let tail = parse_from(input@, next as int, opt_bytes(section), (cap - n - 1) as int);
            assert(rest.0 == seq![(opt_bytes(section), key@, value@)] + tail.0);
            assert(target.0[n as int] == rest.0[0]);
            assert(target.0.skip(n + 1) =~= rest.0.skip(1));
            assert(rest.0.skip(1) =~= tail.0);
        }
        out[n] = Entry { section, key, value };
        n += 1;
    }
    proof {
        assert(target.0.skip(n as int).len() == 0);
    }
    Ok(n)
}

/// A lowercase ASCII letter.
pub open spec fn lower_letter(b: u8) -> bool {
    0x61 <= b <= 0x7A
}

/// A non-empty key of lowercase letters.
pub open spec fn simple_key(k: Seq<u8>) -> bool {
    k.len() >= 1 && forall|j: int| 0 <= j < k.len() ==> lower_letter(#[trigger] k[j])
}

/// The line `key = 1` with its line feed.
pub open spec fn one_line(k: Seq<u8>) -> Seq<u8> {
    k + seq![0x20u8, 0x3D, 0x20, 0x31, 0x0A]
}

/// One `key = 1` line per key, in order.
pub open spec fn assignment_lines(keys: Seq<Seq<u8>>) -> Seq<u8>
    decreases keys.len(),
{
    if keys.len() == 0 {
        Seq::empty()
    } else {
        one_line(keys[0]) + assignment_lines(keys.skip(1))
    }
}

/// The entries `key = 1` lines give in `section`.
pub open spec fn one_entries(keys: Seq<Seq<u8>>, section: Option<Seq<u8>>) -> Seq<EntryView> {
    keys.map_values(|k: Seq<u8>| (section, k, seq![0x31u8]))
}

/// After any text that ends a line, `key = 1` lines for simple keys parse
/// back, with room for them, to one entry per key, in order, with value `1`.
proof fn lemma_assignment_lines_from(
    pre: Seq<u8>,
    keys: Seq<Seq<u8>>,
    section: Option<Seq<u8>>,
    room: int,
)
    requires
        keys.len() <= room,
        forall|i: int| 0 <= i < keys.len() ==> simple_key(#[trigger] keys[i]),
    ensures
        parse_from(pre + assignment_lines(keys), pre.len() as int, section, room) == (
            one_entries(keys, section),
            None::<IniError>,
        ),
    decreases keys.len(),
{
    let s = pre + assignment_lines(keys);
    let p = pre.len() as int;
    if keys.len() == 0 {
        assert(s =~= pre);
        assert(one_entries(keys, section) =~= Seq::<EntryView>::empty());
    } else {
        let k = keys[0];
        let n = k.len() as int;
        let rest = keys.skip(1);
        let l = one_line(k);
        assert(simple_key(k));
        assert(s =~= (pre + l) + assignment_lines(rest));
        assert forall|j: int| 0 <= j < n implies s[p + j] == k[j] && lower_letter(s[p + j]) by {
            assert(s[p + j] == l[j]);
        }
        assert(s[p + n] == 0x20);
        assert(s[p + n + 1] == 0x3D);
        assert(s[p + n + 2] == 0x20);
        assert(s[p + n + 3] == 0x31);
        assert(s[p + n + 4] == 0x0A);
        lemma_line_break_at(s, p, p + n + 4);
        let brk = p + n + 4;
        assert(content_end(s, p, brk) == brk);
        assert(next_line(s, brk) == p + n + 5);
        let t = s.subrange(p, brk);
        assert(t =~= k + seq![0x20u8, 0x3D, 0x20, 0x31]);
        lemma_first_of_none(t, 0, 0x3B, 0x23);
        assert(comment_free(t) == t);
        assert(trimmed(t) =~= t);
        lemma_first_of_at(t, 0, n + 1, 0x3D, 0x3A);
        let kt = t.take(n + 1);
        assert(kt[n] == 0x20);
        assert(lower_letter(kt[n - 1]) && lower_letter(kt[0]));
        assert(blank_run_end(kt, 0) == 0);
        assert(blank_tail_start(kt, 0, n) == n);
        assert(blank_tail_start(kt, 0, n + 1) == n);
        assert(trimmed(kt) =~= k);
        let vt = t.skip(n + 2);
        assert(vt =~= seq![0x20u8, 0x31]);
        assert(blank_run_end(vt, 1) == 1);
        assert(blank_run_end(vt, 0) == 1);
        assert(blank_tail_start(vt, 1, 2) == 2);
        assert(trimmed(vt) =~= seq![0x31u8]);
        assert(classify(t) == Line::Assign(k, seq![0x31u8]));
        assert forall|i: int| 0 <= i < rest.len() implies simple_key(#[trigger] rest[i]) by {
            assert(rest[i] == keys[i + 1]);
        }
        lemma_assignment_lines_from(pre + l, rest, section, room - 1);
        assert((pre + l).len() == p + n + 5);
        assert(one_entries(keys, section) =~= seq![(section, k, seq![0x31u8])] + one_entries(
            rest,
            section,
        ));
    }
}

/// Parsing `key = 1` lines (one per simple key), with room for every entry,
/// gives back one top-level entry per key, in order, each with value `1`.
pub proof fn lemma_assignment_lines_roundtrip(keys: Seq<Seq<u8>>, room: int)
    requires
        keys.len() <= room,
        forall|i: int| 0 <= i < keys.len() ==> simple_key(#[trigger] keys[i]),
    ensures
        parse_from(assignment_lines(keys), 0, None, room) == (
            one_entries(keys, None),
            None::<IniError>,
        ),
{
    lemma_assignment_lines_from(Seq::empty(), keys, None, room);
    assert(Seq::<u8>::empty() + assignment_lines(keys) =~= assignment_lines(keys));
}

/// A comment starts at the first `;` or `#` of a line and runs to its end.
pub proof fn lemma_ini_comment(line: Seq<u8>, i: int)
    requires
        0 <= i <= line.len(),
        forall|k: int| 0 <= k < i ==> line[k] != 0x3B && line[k] != 0x23,
        i < line.len() ==> line[i] == 0x3B || line[i] == 0x23,
    ensures
        comment_free(line) == line.take(i),
{
    if i < line.len() {
        lemma_first_of_at(line, 0, i, 0x3B, 0x23);
    } else {
        lemma_first_of_none(line, 0, 0x3B, 0x23);
        assert(line.take(i) =~= line);
    }
}

/// A line that is not a header splits into key and value at its first `=`
/// or `:`; the key and value lose their surrounding blanks, and a line with
/// neither, or with an empty key, is invalid.
pub proof fn lemma_ini_assignment(t: Seq<u8>, i: int)
    requires
        t.len() > 0,
        t[0] != 0x5B,
        0 <= i <= t.len(),
        forall|k: int| 0 <= k < i ==> t[k] != 0x3D && t[k] != 0x3A,
        i < t.len() ==> t[i] == 0x3D || t[i] == 0x3A,
    ensures
        i < t.len() && trimmed(t.take(i)).len() > 0 ==> classify(t) == Line::Assign(
            trimmed(t.take(i)),
            trimmed(t.skip(i + 1)),
        ),
        (i == t.len() || trimmed(t.take(i)).len() == 0) ==> classify(t) == Line::Invalid,
{
    if i < t.len() {
        lemma_first_of_at(t, 0, i, 0x3D, 0x3A);
    } else {
        lemma_first_of_none(t, 0, 0x3D, 0x3A);
    }
}

/// A line `[name]...` names a section: the bytes between the `[` and the
/// first `]`, which must not be empty.
pub proof fn lemma_ini_section(t: Seq<u8>, c: int)
    requires
        t.len() > 0,
        t[0] == 0x5B,
        0 < c <= t.len(),
        forall|k: int| 0 <= k < c ==> t[k] != 0x5D,
        c < t.len() ==> t[c] == 0x5D,
    ensures
        c < t.len() && c > 1 ==> classify(t) == Line::Section(t.subrange(1, c)),
        (c == t.len() || c == 1) ==> classify(t) == Line::Invalid,
{
    if c < t.len() {
        lemma_first_of_at(t, 0, c, 0x5D, 0x5D);
    } else {
        lemma_first_of_none(t, 0, 0x5D, 0x5D);
    }
}

/// An error of a text as it reads in the text's CRLF form: a line's offset
/// moves to where the line lands.
pub open spec fn crlf_error(x: Seq<u8>, e: Option<IniError>) -> Option<IniError> {
    match e {
        Some(IniError::InvalidLine(p)) => Some(IniError::InvalidLine(crlf_offset(x, p as int) as usize)),
        other => other,
    }
}

proof fn lemma_crlf_parse_from(x: Seq<u8>, pos: int, section: Option<Seq<u8>>, room: int)
    requires
        no_cr(x),
        0 <= pos <= x.len(),
        crlf(x).len() <= usize::MAX,
    ensures
        ({
            let r = parse_from(x, pos, section, room);
            parse_from(crlf(x), crlf_offset(x, pos), section, room) == (r.0, crlf_error(x, r.1))
        }),
    decreases x.len() - pos,
{
    let y = crlf(x);
    if pos == x.len() {
        assert(x.take(pos) =~= x);
    } else {
        lemma_crlf_line(x, pos);
        let brk = line_break(x, pos);
        let next = next_line(x, brk);
        lemma_crlf_offsets(x, pos, next);
        lemma_crlf_offsets(x, 0, x.len() as int);
        lemma_crlf_parse_from(x, next, section, room);
        match classify(trimmed(comment_free(x.subrange(pos, brk)))) {
            Line::Section(name) => {
                lemma_crlf_parse_from(x, next, Some(name), room);
            },
            Line::Assign(k, v) => {
                lemma_crlf_parse_from(x, next, section, room - 1);
            },
            _ => {},
        }
    }
}

/// Line endings do not matter: a text without carriage returns, with every
/// line feed made CRLF, parses to the same entries (so no key or value ends
/// in a carriage return) and stops with the same error at the same line,
/// its offset counted in the CRLF text.
pub proof fn lemma_crlf_same_entries(x: Seq<u8>, room: int)
    requires
        no_cr(x),
        crlf(x).len() <= usize::MAX,
    ensures
        parse_from(crlf(x), 0, None, room).0 == parse_from(x, 0, None, room).0,
        parse_from(crlf(x), 0, None, room).1 == crlf_error(x, parse_from(x, 0, None, room).1),
{
    lemma_crlf_parse_from(x, 0, None, room);
    assert(x.take(0) =~= Seq::<u8>::empty());
    assert(crlf(Seq::<u8>::empty()) =~= Seq::<u8>::empty());
}

/// An entry as text: `(section, key, value)`.
pub type TextEntry = (Option<Seq<char>>, Seq<char>, Seq<char>);

/// The text of an entry's bytes (bytes that are not UTF-8 read as empty).
pub open spec fn entry_text(e: EntryView) -> TextEntry {
    (
        match e.0 {
            Some(s) => Some(text_of(s)),
            None => None,
        },
        text_of(e.1),
        text_of(e.2),
    )
}

/// The `(key, value)` pairs of the entries in `section`, in order.
pub open spec fn in_section(es: Seq<TextEntry>, section: Option<Seq<char>>) -> Seq<
    (Seq<char>, Seq<char>),
>
    decreases es.len(),
{
    if es.len() == 0 {
        Seq::empty()
    } else {
        let rest = in_section(es.drop_last(), section);
        if es.last().0 == section {
            rest.push((es.last().1, es.last().2))
        } else {
            rest
        }
    }
}

/// A parsed INI document: its `(section, key, value)` entries in order.
#[derive(Clone, Debug, PartialEq, Eq)]
pub struct Document {
    pub entries: Vec<(Option<String>, String, String)>,
}

/// The text of an owned entry.
pub open spec fn owned_entry_text(e: (Option<String>, String, String)) -> TextEntry {
    (
        match e.0 {
            Some(s) => Some(s@),
            None => None,
        },
        e.1@,
        e.2@,
    )
}

/// A document's entries as text.
pub open spec fn document_text(d: Document) -> Seq<TextEntry> {
    d.entries@.map_values(|e: (Option<String>, String, String)| owned_entry_text(e))
}

/// Whether two strings have equal text.
fn same_text(a: &str, b: &str) -> (r: bool)
    ensures
        r == (a@ == b@),
{
    let x = a.as_bytes();
    let y = b.as_bytes();
    let n = x.len();
    let mut eq = n == y.len();
    let mut i: usize = 0;
    while eq && i < n
        invariant
            i <= n,
            n == x@.len(),
            eq ==> n == y@.len(),
            eq ==> forall|j: int| 0 <= j < i ==> x@[j] == y@[j],
            !eq ==> x@ != y@,
        decreases n - i,
    {
        if x[i] != y[i] {
            eq = false;
        }
        i += 1;
    }
    proof {
        vstd::utf8::encode_utf8_decode_utf8(a@);
        vstd::utf8::encode_utf8_decode_utf8(b@);
        if eq {
            assert(x@ =~= y@);
        }
    }
    eq
}

impl Document {
    /// The `(key, value)` pairs of the entries before the first section.
    pub fn top_level(&self) -> (r: Vec<(&String, &String)>)
        ensures
            r@.map_values(|p: (&String, &String)| (p.0@, p.1@)) == in_section(
                document_text(*self),
                None,
            ),
    {
        let ghost es = document_text(*self);
        let mut out: Vec<(&String, &String)> = Vec::new();
        let mut i: usize = 0;
        while i < self.entries.len()
            invariant
                i <= self.entries@.len(),
                es == document_text(*self),
                out@.map_values(|p: (&String, &String)| (p.0@, p.1@)) == in_section(
                    es.take(i as int),
                    None,
                ),
            decreases self.entries@.len() - i,
        {
            let e = &self.entries[i];
            let ghost before = out@;
            proof {
                assert(es.take(i + 1).drop_last() =~= es.take(i as int));
                assert(es.take(i + 1).last() == owned_entry_text(*e));
            }
            if e.0.is_none() {
                out.push((&e.1, &e.2));
                proof {
                    assert(out@.map_values(|p: (&String, &String)| (p.0@, p.1@)) =~= before.map_values(
                        |p: (&String, &String)| (p.0@, p.1@),
                    ).push((e.1@, e.2@)));
                }
            }
            i += 1;
        }
        proof {
            assert(es.take(self.entries@.len() as int) =~= es);
        }
        out
    }

    /// The `(key, value)` pairs of the entries in `section`.
    pub fn section(&self, section: &str) -> (r: Vec<(&String, &String)>)
        ensures
            r@.map_values(|p: (&String, &String)| (p.0@, p.1@)) == in_section(
                document_text(*self),
                Some(section@),
            ),
    {
        let ghost es = document_text(*self);
        let mut out: Vec<(&String, &String)> = Vec::new();
        let mut i: usize = 0;
        while i < self.entries.len()
            invariant
                i <= self.entries@.len(),
                es == document_text(*self),
                out@.map_values(|p: (&String, &String)| (p.0@, p.1@)) == in_section(
                    es.take(i as int),
                    Some(section@),
                ),
            decreases self.entries@.len() - i,
        {
            let e = &self.entries[i];
            let ghost before = out@;
            proof {
                assert(es.take(i + 1).drop_last() =~= es.take(i as int));
                assert(es.take(i + 1).last() == owned_entry_text(*e));
            }
            let here = match &e.0 {
                Some(s) => same_text(s.as_str(), section),
                None => false,
            };
            if here {
                out.push((&e.1, &e.2));
                proof {
                    assert(out@.map_values(|p: (&String, &String)| (p.0@, p.1@)) =~= before.map_values(
                        |p: (&String, &String)| (p.0@, p.1@),
                    ).push((e.1@, e.2@)));
                }
            }
            i += 1;
        }
        proof {
            assert(es.take(self.entries@.len() as int) =~= es);
        }
        out
    }
}

/// Parse `input` into an owned [`Document`] (at most 1024 entries; bytes
/// that are not UTF-8 become empty strings).
pub fn parse(input: &[u8]) -> (r: Result<Document, IniError>)
    ensures
        ({
            let (es, err) = parse_from(input@, 0, None, 1024);
            match err {
                None => r matches Ok(d) && document_text(d) == es.map_values(
                    |e: EntryView| entry_text(e),
                ),
                Some(e) => r == Err::<Document, IniError>(e),
            }
        }),
{
    let mut buf = vec![Entry::placeholder(); 1024];
    let n = match parse_into(input, buf.as_mut_slice()) {
        Ok(n) => n,
        Err(e) => {
            return Err(e);
        },
    };
    let ghost es = parse_from(input@, 0, None, 1024).0;
    let mut entries: Vec<(Option<String>, String, String)> = Vec::new();
    let mut i: usize = 0;
    while i < n
        invariant
            i <= n,
            n == es.len(),
            buf@.len() == 1024,
            n <= 1024,
            forall|j: int| 0 <= j < n ==> entry_view(#[trigger] buf@[j]) == es[j],
            entries@.len() == i,
            forall|j: int| 0 <= j < i ==> owned_entry_text(#[trigger] entries@[j]) == entry_text(
                es[j],
            ),
        decreases n - i,
    {
        let e = buf[i];
        let section = match e.section {
            Some(s) => Some(string_from_bytes_or_empty(s)),
            None => None,
        };
        let key = string_from_bytes_or_empty(e.key);
        let value = string_from_bytes_or_empty(e.value);
        entries.push((section, key, value));
        i += 1;
    }
    let d = Document { entries };
    proof {
        assert(document_text(d) =~= es.map_values(|e: EntryView| entry_text(e)));
    }
    Ok(d)
}

} // verus!
