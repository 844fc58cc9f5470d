//! XML/HTML entity escaping and unescaping into caller-provided buffers.
//!
//! Handles the five predefined XML entities (`&amp;`, `&lt;`, `&gt;`,
//! `&quot;`, `&apos;`) plus numeric character references (`&#NN;` decimal and
//! `&#xHH;` hex) whose value fits in one byte. Any other `&` is copied as is.
use vstd::prelude::*;
use crate::numstr::{parse_int, parsed, FromAscii};
use crate::text::{string_from_bytes_or_empty, text_of};

verus! {

/// The entity text that stands for a special byte, or the byte itself.
pub open spec fn escape_byte(b: u8) -> Seq<u8> {
    if b == 0x26 {
        seq![0x26u8, 0x61, 0x6D, 0x70, 0x3B]
    } else if b == 0x3C {
        seq![0x26u8, 0x6C, 0x74, 0x3B]
    } else if b == 0x3E {
        seq![0x26u8, 0x67, 0x74, 0x3B]
    } else if b == 0x22 {
        seq![0x26u8, 0x71, 0x75, 0x6F, 0x74, 0x3B]
    } else if b == 0x27 {
        seq![0x26u8, 0x61, 0x70, 0x6F, 0x73, 0x3B]
    } else {
        seq![b]
    }
}

/// The escaped form of `s`.
pub open spec fn escaped(s: Seq<u8>) -> Seq<u8>
    decreases s.len(),
{
    if s.len() == 0 {
        Seq::empty()
    } else {
        escape_byte(s[0]) + escaped(s.skip(1))
    }
}

/// The byte a predefined entity name (without `&` and `;`) stands for.
pub open spec fn entity_value(name: Seq<u8>) -> Option<u8> {
    if name == seq![0x61u8, 0x6D, 0x70] {
        Some(0x26u8)
    } else if name == seq![0x6Cu8, 0x74] {
        Some(0x3Cu8)
    } else if name == seq![0x67u8, 0x74] {
        Some(0x3Eu8)
    } else if name == seq![0x71u8, 0x75, 0x6F, 0x74] {
        Some(0x22u8)
    } else if name == seq![0x61u8, 0x70, 0x6F, 0x73] {
        Some(0x27u8)
    } else {
        None
    }
}

/// The byte a numeric reference body (after `&#`) stands for: decimal, or hex
/// after `x`/`X`, when its value fits in one byte.
pub open spec fn numeric_value(body: Seq<u8>) -> Option<u8> {
    if body.len() == 0 {
        None
    } else {
        let hex = body[0] == 0x78 || body[0] == 0x58;
        let digits = if hex {
            body.skip(1)
        } else {
            body
        };
        let radix: u32 = if hex {
            16
        } else {
            10
        };
        if digits.len() == 0 {
            None
        } else {
            match parsed(digits, radix) {
                Some(v) => if 0 <= v <= 0xFF {
                    Some(v as u8)
                } else {
                    None
                },
                None => None,
            }
        }
    }
}

/// Index of the first `b` in `s`.
pub open spec fn position_of(s: Seq<u8>, b: u8) -> Option<int>
    decreases s.len(),
{
    if s.len() == 0 {
        None
    } else if s[0] == b {
        Some(0)
    } else {
        match position_of(s.skip(1), b) {
            Some(p) => Some(p + 1),
            None => None,
        }
    }
}

/// What the reference that starts `s` (with `s[0] == '&'`) decodes to, and
/// how many bytes it spans, when it is a recognised entity.
pub open spec fn reference_at(s: Seq<u8>) -> Option<(u8, int)> {
    match position_of(s.skip(1), 0x3B) {
        Some(p) => {
            let inner = s.subrange(1, 1 + p);
            match entity_value(inner) {
                Some(ch) => Some((ch, p + 2)),
                None => if inner.len() > 0 && inner[0] == 0x23 {
                    match numeric_value(inner.skip(1)) {
                        Some(ch) => Some((ch, p + 2)),
                        None => None,
                    }
                } else {
                    None
                },
            }
        },
        None => None,
    }
}

/// The unescaped form of `s`: recognised references become their byte, every
/// other byte is copied.
pub open spec fn unescaped(s: Seq<u8>) -> Seq<u8>
    decreases s.len(),
{
    if s.len() == 0 {
        Seq::empty()
    } else if s[0] == 0x26 && reference_at(s) is Some && 1 <= reference_at(s).unwrap().1 <= s.len() {
        seq![reference_at(s).unwrap().0] + unescaped(s.skip(reference_at(s).unwrap().1))
    } else {
        seq![s[0]] + unescaped(s.skip(1))
    }
}

proof fn lemma_position_bound(s: Seq<u8>, b: u8)
    ensures
        position_of(s, b) matches Some(p) ==> 0 <= p < s.len() && s[p] == b && forall|k: int|
            0 <= k < p ==> s[k] != b,
        position_of(s, b) is None ==> forall|k: int| 0 <= k < s.len() ==> s[k] != b,
    decreases s.len(),
{
    if s.len() > 0 {
        lemma_position_bound(s.skip(1), b);
        if s[0] != b {
            assert forall|k: int| 1 <= k < s.len() implies s[k] == s.skip(1)[k - 1] by {}
        }
    }
}

fn entity_name(b: u8) -> (r: Option<&'static [u8]>)
    ensures
        r is None <==> escape_byte(b) == seq![b],
        r matches Some(e) ==> e@ == escape_byte(b),
{
    if b == 0x26 {
        let e: &'static [u8] = &[0x26, 0x61, 0x6D, 0x70, 0x3B];
        assert(e@ =~= escape_byte(b));
        Some(e)
    } else if b == 0x3C {
        let e: &'static [u8] = &[0x26, 0x6C, 0x74, 0x3B];
        assert(e@ =~= escape_byte(b));
        Some(e)
    } else if b == 0x3E {
        let e: &'static [u8] = &[0x26, 0x67, 0x74, 0x3B];
        assert(e@ =~= escape_byte(b));
        Some(e)
    } else if b == 0x22 {
        let e: &'static [u8] = &[0x26, 0x71, 0x75, 0x6F, 0x74, 0x3B];
        assert(e@ =~= escape_byte(b));
        Some(e)
    } else if b == 0x27 {
        let e: &'static [u8] = &[0x26, 0x61, 0x70, 0x6F, 0x73, 0x3B];
        assert(e@ =~= escape_byte(b));
        Some(e)
    } else {
        None
    }
}

proof fn lemma_position_unique(s: Seq<u8>, b: u8, p: int)
    requires
        0 <= p < s.len(),
        s[p] == b,
        forall|k: int| 0 <= k < p ==> s[k] != b,
    ensures
        position_of(s, b) == Some(p),
{
    lemma_position_bound(s, b);
}

proof fn lemma_escaped_skip(s: Seq<u8>, i: int)
    requires
        0 <= i < s.len(),
    ensures
        escaped(s.skip(i)) == escape_byte(s[i]) + escaped(s.skip(i + 1)),
{
    assert(s.skip(i).skip(1) =~= s.skip(i + 1));
}

proof fn lemma_escaped_len_ge(s: Seq<u8>)
    ensures
        escaped(s).len() >= s.len(),
    decreases s.len(),
{
    if s.len() > 0 {
        lemma_escaped_len_ge(s.skip(1));
    }
}

/// Escape `input` into `out`, returning the number of bytes written.
/// Returns `None` if `out` is too small.
pub fn escape_into(input: &[u8], out: &mut [u8]) -> (r: Option<usize>)
    ensures
        final(out)@.len() == old(out)@.len(),
        r is None <==> escaped(input@).len() > old(out)@.len(),
        r matches Some(n) ==> n == escaped(input@).len() && final(out)@.subrange(0, n as int)
            == escaped(input@) && final(out)@.subrange(n as int, old(out)@.len() as int)
            == old(out)@.subrange(n as int, old(out)@.len() as int),
{
    let mut n = 0usize;
    let mut i = 0usize;
    let len = input.len();
    proof {
        assert(input@.skip(0) =~= input@);
    }
    while i < len
        invariant
            len == input@.len(),
            0 <= i <= len,
            n <= out@.len(),
            out@.len() == old(out)@.len(),
            out@.subrange(0, n as int) + escaped(input@.skip(i as int)) == escaped(input@),
            forall|j: int| n <= j < out@.len() ==> out@[j] == old(out)@[j],
        decreases len - i,
    {
        let b = input[i];
        proof {
            lemma_escaped_skip(input@, i as int);
            lemma_escaped_len_ge(input@.skip(i as int + 1));
        }
        match entity_name(b) {
            None => {
                if n >= out.len() {
                    return None;
                }
                let ghost prev = out@;
                out[n] = b;
                proof {
                    assert(out@.subrange(0, n + 1) =~= prev.subrange(0, n as int) + seq![b]);
                }
                n += 1;
            },
            Some(entity) => {
                if out.len() - n < entity.len() {
                    return None;
                }
                let ghost prev = out@;
                let mut k = 0usize;
                while k < entity.len()
                    invariant
                        k <= entity@.len(),
                        n + entity@.len() <= out@.len(),
                        out@.len() == out.len(),
                        out@.len() == prev.len(),
                        forall|j: int| 0 <= j < n ==> out@[j] == prev[j],
                        forall|j: int| n + entity@.len() <= j < out@.len() ==> out@[j] == prev[j],
                        forall|j: int| 0 <= j < k ==> out@[n + j] == entity@[j],
                    decreases entity@.len() - k,
                {
                    out[n + k] = entity[k];
                    k += 1;
                }
                proof {
                    assert(out@.subrange(0, n + entity@.len()) =~= prev.subrange(0, n as int)
                        + entity@);
                }
                n += entity.len();
            },
        }
        i += 1;
        proof {
            assert(out@.subrange(0, n as int) + escaped(input@.skip(i as int)) =~= escaped(input@));
        }
    }
    proof {
        assert(input@.skip(len as int) =~= Seq::<u8>::empty());
        assert(out@.subrange(0, n as int) + Seq::<u8>::empty() =~= out@.subrange(0, n as int));
        assert(out@.subrange(n as int, out@.len() as int) =~= old(out)@.subrange(
            n as int,
            old(out)@.len() as int,
        ));
    }
    Some(n)
}

fn bytes_eq(a: &[u8], b: &[u8]) -> (r: bool)
    ensures
        r == (a@ == b@),
{
    if a.len() != b.len() {
        return false;
    }
    let mut i = 0usize;
    while i < a.len()
        invariant
            a@.len() == b@.len(),
            i <= a@.len(),
            forall|k: int| 0 <= k < i ==> a@[k] == b@[k],
        decreases a@.len() - i,
    {
        if a[i] != b[i] {
            return false;
        }
        i += 1;
    }
    assert(a@ =~= b@);
    true
}

/// Look up a predefined entity name (without `&`/`;`), returning the char byte.
fn predefined_entity(name: &[u8]) -> (r: Option<u8>)
    ensures
        r == entity_value(name@),
{
    let amp: &[u8] = &[0x61, 0x6D, 0x70];
    let lt: &[u8] = &[0x6C, 0x74];
    let gt: &[u8] = &[0x67, 0x74];
    let quot: &[u8] = &[0x71, 0x75, 0x6F, 0x74];
    let apos: &[u8] = &[0x61, 0x70, 0x6F, 0x73];
    proof {
        assert(amp@ =~= seq![0x61u8, 0x6D, 0x70]);
        assert(lt@ =~= seq![0x6Cu8, 0x74]);
        assert(gt@ =~= seq![0x67u8, 0x74]);
        assert(quot@ =~= seq![0x71u8, 0x75, 0x6F, 0x74]);
        assert(apos@ =~= seq![0x61u8, 0x70, 0x6F, 0x73]);
    }
    if bytes_eq(amp, name) {
        Some(0x26)
    } else if bytes_eq(lt, name) {
        Some(0x3C)
    } else if bytes_eq(gt, name) {
        Some(0x3E)
    } else if bytes_eq(quot, name) {
        Some(0x22)
    } else if bytes_eq(apos, name) {
        Some(0x27)
    } else {
        None
    }
}

/// Parse a numeric char ref body: decimal `NN` or hex `xHH`/`XHH`, returning
/// the decoded byte if it fits in a single byte.
fn parse_numeric_ref(body: &[u8]) -> (r: Option<u8>)
    ensures
        r == numeric_value(body@),
{
    if body.len() == 0 {
        return None;
    }
    let hex = body[0] == 0x78 || body[0] == 0x58;
    let radix: u32 = if hex {
        16
    } else {
        10
    };
    let digits = if hex {
        vstd::slice::slice_subrange(body, 1, body.len())
    } else {
        body
    };
    proof {
        if hex {
            assert(digits@ =~= body@.skip(1));
        }
    }
    if digits.len() == 0 {
        return None;
    }
    let v: u32 = match parse_int::<u32>(digits, radix) {
        Some(v) => v,
        None => {
            return None;
        },
    };
    if v <= 0xFF {
        Some(v as u8)
    } else {
        None
    }
}

/// Index of the first `;` at or after `from`, as an offset from `from`.
fn find_semicolon(input: &[u8], from: usize) -> (r: Option<usize>)
    requires
        from <= input@.len(),
    ensures
        r matches Some(p) ==> position_of(input@.skip(from as int), 0x3B) == Some(p as int),
        r is None ==> position_of(input@.skip(from as int), 0x3B) is None,
{
    let mut j = from;
    let ghost t = input@.skip(from as int);
    while j < input.len() && input[j] != 0x3B
        invariant
            from <= j <= input@.len(),
            t == input@.skip(from as int),
            forall|k: int| 0 <= k < j - from ==> t[k] != 0x3B,
        decreases input@.len() - j,
    {
        j += 1;
    }
    proof {
        lemma_position_bound(t, 0x3B);
    }
    if j < input.len() {
        proof {
            lemma_position_unique(t, 0x3B, j - from);
        }
        Some(j - from)
    } else {
        None
    }
}

/// Unescape `input` into `out`, returning the number of bytes written.
/// Returns `None` if `out` is too small. Unknown named entities are left
/// verbatim (`&foo;` stays `&foo;`).
pub fn unescape_into(input: &[u8], out: &mut [u8]) -> (r: Option<usize>)
    ensures
        final(out)@.len() == old(out)@.len(),
        r is None <==> unescaped(input@).len() > old(out)@.len(),
        r matches Some(n) ==> n == unescaped(input@).len() && final(out)@.subrange(0, n as int)
            == unescaped(input@) && final(out)@.subrange(n as int, old(out)@.len() as int)
            == old(out)@.subrange(n as int, old(out)@.len() as int),
{
    let mut n = 0usize;
    let len = input.len();
    let mut i = 0usize;
    proof {
        assert(input@.skip(0) =~= input@);
    }
    while i < len
        invariant
            len == input@.len(),
            0 <= i <= len,
            n <= out@.len(),
            out@.len() == old(out)@.len(),
            out@.subrange(0, n as int) + unescaped(input@.skip(i as int)) == unescaped(input@),
            forall|j: int| n <= j < out@.len() ==> out@[j] == old(out)@[j],
        decreases len - i,
    {
        let ghost rest = input@.skip(i as int);
        let b = input[i];
        if b == 0x26 {
            let found = find_semicolon(input, i + 1);
            proof {
                assert(rest.skip(1) =~= input@.skip(i + 1));
            }
            if let Some(semi) = found {
                proof {
                    lemma_position_bound(rest.skip(1), 0x3B);
                }
                let inner = vstd::slice::slice_subrange(input, i + 1, i + 1 + semi);
                proof {
                    assert(inner@ =~= rest.subrange(1, 1 + semi));
                    assert(rest.skip(semi + 2) =~= input@.skip(i + semi + 2));
                    lemma_unescaped_len_le(input@.skip(i + semi + 2));
                }
                let mut value = predefined_entity(inner);
                if value.is_none() && inner.len() > 0 && inner[0] == 0x23 {
                    let body = vstd::slice::slice_subrange(inner, 1, inner.len());
                    proof {
                        assert(body@ =~= inner@.skip(1));
                    }
                    value = parse_numeric_ref(body);
                }
                if let Some(ch) = value {
                    proof {
                        assert(reference_at(rest) == Some((ch, semi + 2)));
                    }
                    if n >= out.len() {
                        return None;
                    }
                    let ghost prev = out@;
                    out[n] = ch;
                    proof {
                        assert(out@.subrange(0, n + 1) =~= prev.subrange(0, n as int) + seq![ch]);
                    }
                    n += 1;
                    i += 1 + semi + 1;
                    proof {
                        assert(out@.subrange(0, n as int) + unescaped(input@.skip(i as int))
                            =~= unescaped(input@));
                    }
                    continue;
                }
                proof {
                    assert(reference_at(rest) is None);
                }
            }
        }
        proof {
            assert(rest.skip(1) =~= input@.skip(i + 1));
            lemma_unescaped_len_le(input@.skip(i + 1));
        }
        if n >= out.len() {
            return None;
        }
        let ghost prev = out@;
        out[n] = b;
        proof {
            assert(out@.subrange(0, n + 1) =~= prev.subrange(0, n as int) + seq![b]);
        }
        n += 1;
        i += 1;
        proof {
            assert(out@.subrange(0, n as int) + unescaped(input@.skip(i as int)) =~= unescaped(
                input@,
            ));
        }
    }
    proof {
        assert(input@.skip(len as int) =~= Seq::<u8>::empty());
        assert(out@.subrange(0, n as int) + Seq::<u8>::empty() =~= out@.subrange(0, n as int));
        assert(out@.subrange(n as int, out@.len() as int) =~= old(out)@.subrange(
            n as int,
            old(out)@.len() as int,
        ));
    }
    Some(n)
}

proof fn lemma_unescaped_len_le(s: Seq<u8>)
    ensures
        unescaped(s).len() <= s.len(),
    decreases s.len(),
{
    if s.len() > 0 {
        if s[0] == 0x26 && reference_at(s) is Some && 1 <= reference_at(s).unwrap().1 <= s.len() {
            lemma_unescaped_len_le(s.skip(reference_at(s).unwrap().1));
        } else {
            lemma_unescaped_len_le(s.skip(1));
        }
    }
}

/// Unescaping undoes escaping: for every byte string `s`, unescaping the
/// escaped form of `s` gives back `s`.
pub proof fn lemma_unescape_escape_roundtrip(s: Seq<u8>)
    ensures
        unescaped(escaped(s)) == s,
    decreases s.len(),
{
    if s.len() == 0 {
        assert(escaped(s) =~= Seq::<u8>::empty());
        assert(s =~= Seq::<u8>::empty());
    } else {
        let b = s[0];
        let rest = escaped(s.skip(1));
        let e0 = escape_byte(b);
        let e = e0 + rest;
        lemma_unescape_escape_roundtrip(s.skip(1));
        if e0 =~= seq![b] {
            assert(e.skip(1) =~= rest);
        } else {
            let p = e0.len() - 2;
            let t = e.skip(1);
            assert(t[p] == 0x3B);
            assert forall|k: int| 0 <= k < p implies t[k] != 0x3B by {}
            lemma_position_unique(t, 0x3B, p);
            assert(e.subrange(1, 1 + p) =~= e0.subrange(1, 1 + p));
            let name = e.subrange(1, 1 + p);
            if b == 0x26 {
                assert(name =~= seq![0x61u8, 0x6D, 0x70]);
            } else if b == 0x3C {
                assert(name =~= seq![0x6Cu8, 0x74]);
            } else if b == 0x3E {
                assert(name =~= seq![0x67u8, 0x74]);
            } else if b == 0x22 {
                assert(name =~= seq![0x71u8, 0x75, 0x6F, 0x74]);
            } else {
                assert(name =~= seq![0x61u8, 0x70, 0x6F, 0x73]);
            }
            assert(entity_value(name) == Some(b));
            assert(e.skip(p + 2) =~= rest);
        }
        assert(seq![b] + s.skip(1) =~= s);
    }
}

/// A markup byte: `<`, `>`, `&`, `'` or `"`.
pub open spec fn markup_byte(b: u8) -> bool {
    b == 0x3C || b == 0x3E || b == 0x26 || b == 0x27 || b == 0x22
}

/// Text made only of markup bytes holds no reference (none has a `;`), so
/// unescaping leaves it unchanged: no predefined entity such as `&amp;`,
/// `&lt;` or `&gt;` is left in the result.
#[verifier::spinoff_prover]
#[verifier::rlimit(40)]
pub proof fn lemma_unescape_markup_only(s: Seq<u8>)
    requires
        forall|i: int| 0 <= i < s.len() ==> markup_byte(#[trigger] s[i]),
    ensures
        unescaped(s) == s,
        forall|i: int|
            0 <= i && i + 5 <= s.len() ==> #[trigger] unescaped(s).subrange(i, i + 5) != seq![
                0x26u8,
                0x61,
                0x6D,
                0x70,
                0x3B,
            ],
        forall|i: int|
            0 <= i && i + 4 <= s.len() ==> #[trigger] unescaped(s).subrange(i, i + 4) != seq![
                0x26u8,
                0x6C,
                0x74,
                0x3B,
            ],
        forall|i: int|
            0 <= i && i + 4 <= s.len() ==> #[trigger] unescaped(s).subrange(i, i + 4) != seq![
                0x26u8,
                0x67,
                0x74,
                0x3B,
            ],
    decreases s.len(),
{
    if s.len() > 0 {
        let t = s.skip(1);
        assert forall|i: int| 0 <= i < t.len() implies markup_byte(#[trigger] t[i]) by {
            assert(t[i] == s[i + 1]);
        }
        lemma_unescape_markup_only(t);
        lemma_position_bound(t, 0x3B);
        if s[0] == 0x26 {
            assert(position_of(t, 0x3B) is None) by {
                if position_of(t, 0x3B) is Some {
                    let p = position_of(t, 0x3B).unwrap();
                    assert(markup_byte(t[p]));
                }
            }
        }
        assert(seq![s[0]] + t =~= s);
    }
    assert(unescaped(s) == s);
    assert forall|i: int| 0 <= i && i + 4 <= s.len() implies #[trigger] unescaped(s).subrange(i, i + 4)
        != seq![0x26u8, 0x6C, 0x74, 0x3B] && unescaped(s).subrange(i, i + 4) != seq![
        0x26u8,
        0x67,
        0x74,
        0x3B,
    ] by {
        assert(markup_byte(s[i + 1]));
        assert(unescaped(s).subrange(i, i + 4)[1] == s[i + 1]);
    }
    assert forall|i: int| 0 <= i && i + 5 <= s.len() implies #[trigger] unescaped(s).subrange(i, i + 5)
        != seq![0x26u8, 0x61, 0x6D, 0x70, 0x3B] by {
        assert(markup_byte(s[i + 1]));
        assert(unescaped(s).subrange(i, i + 5)[1] == s[i + 1]);
    }
}

/// Each byte escapes to at most six bytes.
proof fn lemma_escaped_len(s: Seq<u8>)
    ensures
        escaped(s).len() <= 6 * s.len(),
    decreases s.len(),
{
    if s.len() > 0 {
        lemma_escaped_len(s.skip(1));
    }
}

/// Escape `input`, returning a `String`.
pub fn escape(input: &[u8]) -> (r: String)
    requires
        6 * input@.len() + 1 <= usize::MAX,
    ensures
        r@ == text_of(escaped(input@)),
{
    proof {
        lemma_escaped_len(input@);
    }
    let cap = input.len() * 6 + 1;
    let mut buf: Vec<u8> = vec![0u8; cap];
    let n = match escape_into(input, buf.as_mut_slice()) {
        Some(n) => n,
        None => 0,
    };
    let written = vstd::slice::slice_subrange(buf.as_slice(), 0, n);
    string_from_bytes_or_empty(written)
}

/// Unescape `input`, returning a `String`. An unescaped form that is not
/// well-formed UTF-8 gives the empty string.
pub fn unescape(input: &[u8]) -> (r: String)
    ensures
        r@ == text_of(unescaped(input@)),
{
    proof {
        lemma_unescaped_len_le(input@);
    }
    let mut buf: Vec<u8> = vec![0u8; input.len()];
    let n = match unescape_into(input, buf.as_mut_slice()) {
        Some(n) => n,
        None => 0,
    };
    let written = vstd::slice::slice_subrange(buf.as_slice(), 0, n);
    string_from_bytes_or_empty(written)
}

/// Escaping a concatenation escapes each part: every byte is written on
/// its own.
pub proof fn lemma_escaped_concat(a: Seq<u8>, b: Seq<u8>)
    ensures
        escaped(a + b) == escaped(a) + escaped(b),
    decreases a.len(),
{
    if a.len() == 0 {
        assert(a + b =~= b);
        assert(escaped(a) + escaped(b) =~= escaped(b));
    } else {
        assert((a + b).skip(1) =~= a.skip(1) + b);
        assert((a + b)[0] == a[0]);
        lemma_escaped_concat(a.skip(1), b);
        assert(escaped(a + b) =~= escape_byte(a[0]) + (escaped(a.skip(1)) + escaped(b)));
    }
}

/// How each byte is escaped: `&` as `&amp;`, `<` as `&lt;`, `>` as `&gt;`,
/// `"` as `&quot;`, `'` as `&apos;`, and every other byte as itself.
pub proof fn lemma_escape_one(x: u8)
    ensures
        x == 0x26 ==> escaped(seq![x]) == seq![0x26u8, 0x61, 0x6D, 0x70, 0x3B],
        x == 0x3C ==> escaped(seq![x]) == seq![0x26u8, 0x6C, 0x74, 0x3B],
        x == 0x3E ==> escaped(seq![x]) == seq![0x26u8, 0x67, 0x74, 0x3B],
        x == 0x22 ==> escaped(seq![x]) == seq![0x26u8, 0x71, 0x75, 0x6F, 0x74, 0x3B],
        x == 0x27 ==> escaped(seq![x]) == seq![0x26u8, 0x61, 0x70, 0x6F, 0x73, 0x3B],
        !(x == 0x26 || x == 0x3C || x == 0x3E || x == 0x22 || x == 0x27) ==> escaped(seq![x])
            == seq![x],
{
    assert(seq![x].skip(1) =~= Seq::<u8>::empty());
    assert(escaped(Seq::<u8>::empty()) =~= Seq::<u8>::empty());
    assert(escaped(seq![x]) =~= escape_byte(x));
}

proof fn lemma_position_at(t: Seq<u8>, p: int, b: u8)
    requires
        0 <= p < t.len(),
        t[p] == b,
        forall|k: int| 0 <= k < p ==> t[k] != b,
    ensures
        position_of(t, b) == Some(p),
    decreases p,
{
    if p > 0 {
        assert forall|k: int| 0 <= k < p - 1 implies t.skip(1)[k] != b by {
            assert(t.skip(1)[k] == t[k + 1]);
        }
        lemma_position_at(t.skip(1), p - 1, b);
    }
}

/// The five predefined entities unescape to their bytes: text that starts
/// with `&lt;`, `&gt;`, `&amp;`, `&quot;` or `&apos;` unescapes to `<`, `>`,
/// `&`, `"` or `'` followed by the unescaping of the rest.
pub proof fn lemma_unescape_entities(s: Seq<u8>)
    ensures
        s.len() >= 4 && s.take(4) == seq![0x26u8, 0x6C, 0x74, 0x3B] ==> unescaped(s) == seq![0x3Cu8]
            + unescaped(s.skip(4)),
        s.len() >= 4 && s.take(4) == seq![0x26u8, 0x67, 0x74, 0x3B] ==> unescaped(s) == seq![0x3Eu8]
            + unescaped(s.skip(4)),
        s.len() >= 5 && s.take(5) == seq![0x26u8, 0x61, 0x6D, 0x70, 0x3B] ==> unescaped(s) == seq![
            0x26u8,
        ] + unescaped(s.skip(5)),
        s.len() >= 6 && s.take(6) == seq![0x26u8, 0x71, 0x75, 0x6F, 0x74, 0x3B] ==> unescaped(s)
            == seq![0x22u8] + unescaped(s.skip(6)),
        s.len() >= 6 && s.take(6) == seq![0x26u8, 0x61, 0x70, 0x6F, 0x73, 0x3B] ==> unescaped(s)
            == seq![0x27u8] + unescaped(s.skip(6)),
{
    let t = s.skip(1);
    if s.len() >= 4 && (s.take(4) == seq![0x26u8, 0x6C, 0x74, 0x3B] || s.take(4) == seq![
        0x26u8,
        0x67,
        0x74,
        0x3B,
    ]) {
        assert(s[0] == s.take(4)[0] && s[3] == s.take(4)[3]);
        assert(s[1] == s.take(4)[1] && s[2] == s.take(4)[2]);
        lemma_position_at(t, 2, 0x3B);
        assert(s.subrange(1, 3) =~= seq![s[1], s[2]]);
    }
    if s.len() >= 5 && s.take(5) == seq![0x26u8, 0x61, 0x6D, 0x70, 0x3B] {
        assert(s[0] == s.take(5)[0] && s[4] == s.take(5)[4]);
        assert(s[1] == s.take(5)[1] && s[2] == s.take(5)[2] && s[3] == s.take(5)[3]);
        lemma_position_at(t, 3, 0x3B);
        assert(s.subrange(1, 4) =~= seq![0x61u8, 0x6D, 0x70]);
    }
    if s.len() >= 6 && (s.take(6) == seq![0x26u8, 0x71, 0x75, 0x6F, 0x74, 0x3B] || s.take(6)
        == seq![0x26u8, 0x61, 0x70, 0x6F, 0x73, 0x3B]) {
        assert(s[0] == s.take(6)[0] && s[5] == s.take(6)[5]);
        assert(s[1] == s.take(6)[1] && s[2] == s.take(6)[2] && s[3] == s.take(6)[3] && s[4]
            == s.take(6)[4]);
        lemma_position_at(t, 4, 0x3B);
        assert(s.subrange(1, 5) =~= seq![s[1], s[2], s[3], s[4]]);
    }
}

} // verus!
