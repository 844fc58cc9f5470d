//! What the CSV reader gives back of what the CSV writer wrote: every row,
//! field for field, whatever characters the fields hold, as long as each row
//! fits the reader (at most [`META_LEN`] fields, and quoted contents that fit
//! its scratch buffer).
use vstd::prelude::*;
use vstd::utf8::*;
use crate::csv::{
    commit, escape_quotes, field_bytes, field_text, flush, fresh_meta, fresh_scratch,
    joined_fields, needs_quote, record_text, records, records_from, records_text, row_start,
    row_texts, scan, step, plain_byte, lemma_joined_step, lemma_joined_prefix, lemma_skip_plain,
    CsvError, Scan, Step, META_LEN, SCRATCH_LEN,
};
use crate::text::text_of;

verus! {

/// Encoding a concatenation is concatenating the encodings.
proof fn lemma_encode_concat(a: Seq<char>, b: Seq<char>)
    ensures
        encode_utf8(a + b) == encode_utf8(a) + encode_utf8(b),
    decreases a.len(),
{
    if a.len() == 0 {
        assert(a + b =~= b);
        assert(encode_utf8(a) + encode_utf8(b) =~= encode_utf8(b));
    } else {
        assert((a + b).drop_first() =~= a.drop_first() + b);
        assert((a + b)[0] == a[0]);
        lemma_encode_concat(a.drop_first(), b);
        assert(encode_utf8(a + b) =~= encode_scalar(a[0] as u32) + (encode_utf8(a.drop_first())
            + encode_utf8(b)));
    }
}

/// The encoding of one character.
proof fn lemma_encode_one(c: char)
    ensures
        encode_utf8(seq![c]) == encode_scalar(c as u32),
{
    assert(seq![c].drop_first() =~= Seq::<char>::empty());
    assert(seq![c][0] == c);
    assert(encode_utf8(Seq::<char>::empty()) =~= Seq::<u8>::empty());
    assert(encode_scalar(c as u32) + Seq::<u8>::empty() =~= encode_scalar(c as u32));
}

/// Encoding `s` with `c` pushed appends the encoding of `c`.
proof fn lemma_encode_push(s: Seq<char>, c: char)
    ensures
        encode_utf8(s.push(c)) == encode_utf8(s) + encode_scalar(c as u32),
{
    assert(s.push(c) =~= s + seq![c]);
    lemma_encode_concat(s, seq![c]);
    lemma_encode_one(c);
}

/// An ASCII character encodes as itself; every byte of any other character's
/// encoding is at least `0x80`.
proof fn lemma_scalar_bytes(c: char)
    ensures
        (c as u32) < 0x80 ==> encode_scalar(c as u32) == seq![(c as u32) as u8],
        (c as u32) >= 0x80 ==> forall|i: int|
            0 <= i < encode_scalar(c as u32).len() ==> #[trigger] encode_scalar(c as u32)[i]
                >= 0x80,
{
    let v = c as u32;
    if v < 0x80 {
        assert((v & 0x7F) as u8 == v as u8) by (bit_vector)
            requires
                v < 0x80,
        ;
    } else {
        assert(0xC0 | ((v >> 6) & 0x1F) as u8 >= 0x80 && 0xE0 | ((v >> 12) & 0x0F) as u8 >= 0x80
            && 0xF0 | ((v >> 18) & 0x7) as u8 >= 0x80 && 0x80 | (v & 0x3F) as u8 >= 0x80 && 0x80 | ((v
            >> 6) & 0x3F) as u8 >= 0x80 && 0x80 | ((v >> 12) & 0x3F) as u8 >= 0x80) by (bit_vector);
    }
}

/// An ASCII character's byte occurs in the encoding of `f` only where `f`
/// holds that character.
proof fn lemma_encode_no_byte(f: Seq<char>, a: char)
    requires
        (a as u32) < 0x80,
        !f.contains(a),
    ensures
        forall|i: int|
            0 <= i < encode_utf8(f).len() ==> #[trigger] encode_utf8(f)[i] != (a as u32) as u8,
    decreases f.len(),
{
    if f.len() > 0 {
        let c = f[0];
        assert(!f.drop_first().contains(a)) by {
            if f.drop_first().contains(a) {
                let j = choose|j: int| 0 <= j < f.drop_first().len() && f.drop_first()[j] == a;
                assert(f[j + 1] == a);
            }
        }
        lemma_encode_no_byte(f.drop_first(), a);
        lemma_scalar_bytes(c);
        assert(c != a);
        let v = c as u32;
        let w = a as u32;
        let e = encode_scalar(v);
        if v < 0x80 {
            char_u32_cast(c, v);
            char_u32_cast(a, w);
            assert(v != w);
            assert(v as u8 != w as u8) by (bit_vector)
                requires
                    v < 0x80,
                    w < 0x80,
                    v != w,
            ;
        }
        let all = encode_utf8(f);
        assert forall|i: int| 0 <= i < all.len() implies #[trigger] all[i] != w as u8 by {
            if i < e.len() {
                assert(all[i] == e[i]);
            } else {
                assert(all[i] == encode_utf8(f.drop_first())[i - e.len()]);
            }
        }
    }
}

/// `b` with every `"` byte doubled.
pub open spec fn quote_doubled(b: Seq<u8>) -> Seq<u8>
    decreases b.len(),
{
    if b.len() == 0 {
        Seq::empty()
    } else if b[0] == 0x22 {
        seq![0x22u8, 0x22] + quote_doubled(b.drop_first())
    } else {
        seq![b[0]] + quote_doubled(b.drop_first())
    }
}

proof fn lemma_quote_doubled_concat(a: Seq<u8>, b: Seq<u8>)
    ensures
        quote_doubled(a + b) == quote_doubled(a) + quote_doubled(b),
    decreases a.len(),
{
    if a.len() == 0 {
        assert(a + b =~= b);
        assert(quote_doubled(a) + quote_doubled(b) =~= quote_doubled(b));
    } else {
        assert((a + b).drop_first() =~= a.drop_first() + b);
        assert((a + b)[0] == a[0]);
        lemma_quote_doubled_concat(a.drop_first(), b);
        if a[0] == 0x22 {
            assert(quote_doubled(a + b) =~= seq![0x22u8, 0x22] + (quote_doubled(a.drop_first())
                + quote_doubled(b)));
        } else {
            assert(quote_doubled(a + b) =~= seq![a[0]] + (quote_doubled(a.drop_first())
                + quote_doubled(b)));
        }
    }
}

proof fn lemma_quote_doubled_one(c: u8)
    ensures
        quote_doubled(seq![c]) == if c == 0x22 {
            seq![0x22u8, 0x22]
        } else {
            seq![c]
        },
{
    assert(seq![c].drop_first() =~= Seq::<u8>::empty());
    assert(quote_doubled(Seq::<u8>::empty()) =~= Seq::<u8>::empty());
    assert(seq![0x22u8, 0x22] + Seq::<u8>::empty() =~= seq![0x22u8, 0x22]);
    assert(seq![c] + Seq::<u8>::empty() =~= seq![c]);
}

/// Bytes without a `"` are left as they are.
proof fn lemma_quote_doubled_plain(b: Seq<u8>)
    requires
        forall|i: int| 0 <= i < b.len() ==> #[trigger] b[i] != 0x22,
    ensures
        quote_doubled(b) == b,
    decreases b.len(),
{
    if b.len() > 0 {
        lemma_quote_doubled_plain(b.drop_first());
        assert(b[0] != 0x22);
        assert(seq![b[0]] + b.drop_first() =~= b);
    }
}

/// No byte of the encoding of `c` is the byte of the ASCII character `a`,
/// unless `c` is `a`.
proof fn lemma_scalar_not_byte(c: char, a: char)
    requires
        (a as u32) < 0x80,
        c != a,
    ensures
        forall|i: int|
            0 <= i < encode_scalar(c as u32).len() ==> #[trigger] encode_scalar(c as u32)[i]
                != (a as u32) as u8,
{
    lemma_scalar_bytes(c);
    let v = c as u32;
    let w = a as u32;
    if v < 0x80 {
        char_u32_cast(c, v);
        char_u32_cast(a, w);
        assert(v != w);
        assert(v as u8 != w as u8) by (bit_vector)
            requires
                v < 0x80,
                w < 0x80,
                v != w,
        ;
    }
}

/// Quoting commutes with encoding: the encoding of `f` with its quotes
/// doubled is the encoding of `f` with its `"` bytes doubled.
proof fn lemma_encode_escape(f: Seq<char>)
    ensures
        encode_utf8(escape_quotes(f)) == quote_doubled(encode_utf8(f)),
    decreases f.len(),
{
    if f.len() == 0 {
        assert(encode_utf8(Seq::<char>::empty()) =~= Seq::<u8>::empty());
        assert(quote_doubled(Seq::<u8>::empty()) =~= Seq::<u8>::empty());
    } else {
        let init = f.drop_last();
        let c = f.last();
        assert(init.push(c) =~= f);
        lemma_encode_escape(init);
        lemma_encode_push(init, c);
        lemma_quote_doubled_concat(encode_utf8(init), encode_scalar(c as u32));
        lemma_scalar_bytes(c);
        if c == '"' {
            assert(encode_scalar(c as u32) =~= seq![0x22u8]);
            lemma_quote_doubled_one(0x22);
            assert(seq!['"', '"'] =~= seq!['"'].push('"'));
            lemma_encode_push(seq!['"'], '"');
            lemma_encode_one('"');
            lemma_encode_concat(escape_quotes(init), seq!['"', '"']);
            assert(encode_utf8(seq!['"', '"']) =~= seq![0x22u8, 0x22]);
        } else {
            lemma_scalar_not_byte(c, '"');
            lemma_quote_doubled_plain(encode_scalar(c as u32));
            lemma_encode_push(escape_quotes(init), c);
        }
    }
}

/// Where field `k` of a written row starts, in bytes, relative to the row.
pub open spec fn written_offset(r: Seq<Seq<char>>, k: int) -> int {
    if k == 0 {
        0
    } else {
        encode_utf8(joined_fields(r.take(k), ',')).len() + 1int
    }
}

/// The bytes a field is written as.
pub open spec fn written_field(f: Seq<char>) -> Seq<u8> {
    encode_utf8(field_text(f, ','))
}

proof fn lemma_ascii_char_bytes(c: char)
    requires
        (c as u32) < 0x80,
    ensures
        encode_utf8(seq![c]) == seq![(c as u32) as u8],
{
    lemma_encode_one(c);
    lemma_scalar_bytes(c);
}

/// The bytes of a written row: each field at its offset, a comma after each
/// field but the last, a line feed after the last.
proof fn lemma_row_bytes(r: Seq<Seq<char>>, k: int)
    requires
        0 <= k < r.len(),
    ensures
        ({
            let t = encode_utf8(record_text(r, ','));
            let o = written_offset(r, k);
            let w = written_field(r[k]);
            &&& 0 <= o
            &&& o + w.len() < t.len()
            &&& forall|j: int| 0 <= j < w.len() ==> t[o + j] == #[trigger] w[j]
            &&& k + 1 < r.len() ==> t[o + w.len()] == 0x2C && written_offset(r, k + 1) == o
                + w.len() + 1
            &&& k + 1 == r.len() ==> t[o + w.len()] == 0x0A && t.len() == o + w.len() + 1
        }),
{
    let n = r.len() as int;
    let jk = joined_fields(r.take(k), ',');
    let jk1 = joined_fields(r.take(k + 1), ',');
    let full = joined_fields(r, ',');
    let w = written_field(r[k]);
    let o = written_offset(r, k);
    lemma_ascii_char_bytes(',');
    lemma_ascii_char_bytes('\n');
    lemma_joined_step(r, k);
    if k > 0 {
        lemma_encode_push(jk, ',');
        lemma_encode_one(',');
        lemma_encode_concat(jk.push(','), field_text(r[k], ','));
    }
    let e1 = encode_utf8(jk1);
    assert(e1.len() == o + w.len());
    assert forall|j: int| 0 <= j < w.len() implies e1[o + j] == w[j] by {}
    lemma_joined_prefix(r, k + 1, n);
    assert(r.take(n) =~= r);
    let rest = full.skip(jk1.len() as int);
    assert(full =~= jk1 + rest);
    lemma_encode_concat(jk1, rest);
    lemma_encode_push(full, '\n');
    lemma_encode_one('\n');
    let t = encode_utf8(record_text(r, ','));
    assert(t == e1 + encode_utf8(rest) + seq![0x0Au8]);
    assert forall|j: int| 0 <= j < w.len() implies t[o + j] == #[trigger] w[j] by {
        assert(t[o + j] == e1[o + j]);
    }
    if k + 1 < n {
        lemma_joined_step(r, k + 1);
        lemma_joined_prefix(r, k + 2, n);
        let jk2 = joined_fields(r.take(k + 2), ',');
        let rest2 = full.skip(jk2.len() as int);
        assert(full =~= jk2 + rest2);
        lemma_encode_push(jk1, ',');
        lemma_encode_concat(jk1.push(','), field_text(r[k + 1], ','));
        lemma_encode_concat(jk2, rest2);
        lemma_scalar_bytes(',');
        assert(encode_scalar(',' as u32) =~= seq![0x2Cu8]);
        assert(encode_utf8(jk1.push(',')) =~= e1.push(0x2C));
        assert(encode_utf8(jk1.push(','))[e1.len() as int] == 0x2C);
        assert(encode_utf8(jk2)[e1.len() as int] == 0x2C);
        assert(t[e1.len() as int] == encode_utf8(full)[e1.len() as int]);
        assert(encode_utf8(full)[e1.len() as int] == encode_utf8(jk2)[e1.len() as int]);
    } else {
        assert(rest =~= Seq::<char>::empty());
        assert(encode_utf8(rest) =~= Seq::<u8>::empty());
    }
}

/// Scanning the body of a quoted field with contents `fb`, written with its
/// quotes doubled from `base` on and closed by a `"` that no second `"`
/// follows, from the state after its first `j` content bytes: the scanner
/// copies the contents into the scratch at `q_start` and stops right after
/// the closing quote.
proof fn lemma_quoted_body(src: Seq<u8>, st: Scan, fb: Seq<u8>, base: int, j: int) -> (out: Scan)
    requires
        src.len() <= usize::MAX,
        st.in_quotes,
        0 <= j <= fb.len(),
        0 <= base,
        base + quote_doubled(fb).len() + 1 < src.len(),
        forall|i: int|
            0 <= i < quote_doubled(fb).len() ==> src[base + i] == #[trigger] quote_doubled(fb)[i],
        src[base + quote_doubled(fb).len()] == 0x22,
        src[base + quote_doubled(fb).len() + 1] != 0x22,
        st.pos == base + quote_doubled(fb.take(j)).len(),
        st.copy_from <= st.pos,
        st.q_start <= st.buf_len,
        st.q_start + fb.len() <= SCRATCH_LEN,
        st.buf_len + (st.pos - st.copy_from) == st.q_start + j,
        st.scratch.len() == SCRATCH_LEN,
        st.scratch.subrange(st.q_start as int, st.buf_len as int) + src.subrange(
            st.copy_from as int,
            st.pos as int,
        ) == fb.take(j),
    ensures
        scan(src, 0x2C, st) == scan(src, 0x2C, out),
        out.pos == base + quote_doubled(fb).len() + 1,
        out.buf_len == st.q_start + fb.len(),
        out.scratch.len() == SCRATCH_LEN,
        out.scratch.subrange(0, st.q_start as int) == st.scratch.subrange(0, st.q_start as int),
        out.scratch.subrange(st.q_start as int, out.buf_len as int) == fb,
        out == (Scan {
            pos: out.pos,
            copy_from: out.pos,
            in_quotes: false,
            buf_len: out.buf_len,
            scratch: out.scratch,
            ..st
        }),
    decreases fb.len() - j,
{
    let q = quote_doubled(fb);
    let pre = fb.take(j);
    let pos = st.pos as int;
    let qs = st.q_start as int;
    assert(pre + fb.skip(j) =~= fb);
    lemma_quote_doubled_concat(pre, fb.skip(j));
    let pl = quote_doubled(pre).len() as int;
    let chunk = pos - st.copy_from;
    let f = flush(src, st);
    if j < fb.len() {
        let c = fb[j];
        assert(fb.take(j + 1) =~= pre + seq![c]);
        lemma_quote_doubled_concat(pre, seq![c]);
        lemma_quote_doubled_one(c);
        assert(fb.skip(j) =~= seq![c] + fb.skip(j + 1));
        lemma_quote_doubled_concat(seq![c], fb.skip(j + 1));
        assert(q[pl] == quote_doubled(fb.skip(j))[0]);
        assert(src[pos] == q[pl]);
        if c != 0x22 {
            assert(src[pos] == c);
            let next = Scan { pos: (st.pos + 1) as usize, ..st };
            assert(step(src, 0x2C, st) == Step::More(next));
            assert(src.subrange(st.copy_from as int, pos + 1) =~= src.subrange(
                st.copy_from as int,
                pos,
            ).push(c));
            assert(next.scratch.subrange(qs, next.buf_len as int) + src.subrange(
                next.copy_from as int,
                next.pos as int,
            ) =~= fb.take(j + 1));
            lemma_quoted_body(src, next, fb, base, j + 1)
        } else {
            assert(q[pl + 1] == quote_doubled(fb.skip(j))[1]);
            assert(src[pos + 1] == 0x22);
            assert(f.buf_len == qs + j);
            let next = Scan {
                scratch: f.scratch.update(f.buf_len as int, 0x22),
                buf_len: (f.buf_len + 1) as usize,
                copy_from: (st.pos + 2) as usize,
                pos: (st.pos + 2) as usize,
                ..f
            };
            assert(step(src, 0x2C, st) == Step::More(next));
            assert(f.scratch.subrange(qs, qs + j) =~= st.scratch.subrange(qs, st.buf_len as int)
                + src.subrange(st.copy_from as int, pos));
            assert(next.scratch.subrange(qs, qs + j + 1) =~= f.scratch.subrange(qs, qs + j).push(
                0x22,
            ));
            assert(next.scratch.subrange(qs, next.buf_len as int) + src.subrange(
                next.copy_from as int,
                next.pos as int,
            ) =~= fb.take(j + 1));
            let out = lemma_quoted_body(src, next, fb, base, j + 1);
            assert(next.scratch.subrange(0, qs) =~= st.scratch.subrange(0, qs));
            out
        }
    } else {
        assert(pre =~= fb);
        assert(src[pos] == 0x22);
        let out = Scan {
            copy_from: (st.pos + 1) as usize,
            pos: (st.pos + 1) as usize,
            in_quotes: false,
            ..f
        };
        assert(step(src, 0x2C, st) == Step::More(out));
        assert(f.scratch.subrange(qs, qs + j) =~= st.scratch.subrange(qs, st.buf_len as int)
            + src.subrange(st.copy_from as int, pos));
        assert(out.scratch.subrange(0, qs) =~= st.scratch.subrange(0, qs));
        out
    }
}

/// The number of content bytes of the quoted fields of a row: what the
/// reader's scratch must hold for it.
pub open spec fn quoted_bytes(r: Seq<Seq<char>>) -> nat
    decreases r.len(),
{
    if r.len() == 0 {
        0
    } else {
        quoted_bytes(r.drop_last()) + if needs_quote(r.last(), ',') {
            encode_utf8(r.last()).len()
        } else {
            0
        }
    }
}

proof fn lemma_quoted_bytes_step(r: Seq<Seq<char>>, k: int)
    requires
        0 <= k < r.len(),
    ensures
        quoted_bytes(r.take(k + 1)) == quoted_bytes(r.take(k)) + if needs_quote(r[k], ',') {
            encode_utf8(r[k]).len()
        } else {
            0
        },
{
    assert(r.take(k + 1).drop_last() =~= r.take(k));
    assert(r.take(k + 1).last() == r[k]);
}

proof fn lemma_quoted_bytes_mono(r: Seq<Seq<char>>, k: int)
    requires
        0 <= k <= r.len(),
    ensures
        quoted_bytes(r.take(k)) <= quoted_bytes(r),
    decreases r.len() - k,
{
    if k < r.len() {
        lemma_quoted_bytes_step(r, k);
        lemma_quoted_bytes_mono(r, k + 1);
    } else {
        assert(r.take(k) =~= r);
    }
}

/// Field bounds `m` that give back the bytes `fb`, reaching at most `bl`
/// into the scratch.
pub open spec fn field_ok(
    m: (bool, usize, usize),
    src: Seq<u8>,
    scratch: Seq<u8>,
    bl: int,
    fb: Seq<u8>,
) -> bool {
    &&& m.1 <= m.2
    &&& m.0 ==> m.2 <= bl
    &&& field_bytes(m, src, scratch) == fb
}

/// How a field that must be quoted is written, in bytes.
proof fn lemma_quoted_field_bytes(f: Seq<char>)
    requires
        needs_quote(f, ','),
    ensures
        written_field(f) == seq![0x22u8] + quote_doubled(encode_utf8(f)) + seq![0x22u8],
{
    lemma_encode_escape(f);
    lemma_ascii_char_bytes('"');
    lemma_encode_concat(seq!['"'], escape_quotes(f));
    lemma_encode_concat(seq!['"'] + escape_quotes(f), seq!['"']);
}

/// The bytes of a field written unquoted hold no comma, quote or line break.
proof fn lemma_plain_field_bytes(f: Seq<char>)
    requires
        !needs_quote(f, ','),
    ensures
        written_field(f) == encode_utf8(f),
        forall|i: int| 0 <= i < encode_utf8(f).len() ==> plain_byte(#[trigger] encode_utf8(f)[i]),
{
    lemma_encode_no_byte(f, ',');
    lemma_encode_no_byte(f, '"');
    lemma_encode_no_byte(f, '\n');
    lemma_encode_no_byte(f, '\r');
}

/// Scanning a written row at `p`, from the start of field `k` on, reaches the
/// row's end with every field recorded.
proof fn lemma_row_fields_from(src: Seq<u8>, p: int, r: Seq<Seq<char>>, k: int, st: Scan) -> (fin:
    Scan)
    requires
        src.len() <= usize::MAX,
        0 <= p,
        p + encode_utf8(record_text(r, ',')).len() <= src.len(),
        forall|j: int|
            0 <= j < encode_utf8(record_text(r, ',')).len() ==> src[p + j] == #[trigger] encode_utf8(
                record_text(r, ','),
            )[j],
        r.len() <= META_LEN,
        quoted_bytes(r) <= SCRATCH_LEN,
        0 <= k < r.len(),
        st.pos == p + written_offset(r, k),
        st.field_start == st.pos,
        st.copy_from == st.pos,
        !st.in_quotes,
        !st.quoted,
        st.buf_len == quoted_bytes(r.take(k)),
        st.scratch.len() == SCRATCH_LEN,
        st.meta.len() == META_LEN,
        st.row_len == k,
        forall|i: int|
            0 <= i < k ==> field_ok(
                #[trigger] st.meta[i],
                src,
                st.scratch,
                st.buf_len as int,
                encode_utf8(r[i]),
            ),
    ensures
        scan(src, 0x2C, st) == Step::Row(fin),
        fin.pos == p + encode_utf8(record_text(r, ',')).len(),
        fin.row_len == r.len(),
        fin.meta.len() == META_LEN,
        fin.scratch.len() == SCRATCH_LEN,
        forall|i: int|
            0 <= i < r.len() ==> field_bytes(#[trigger] fin.meta[i], src, fin.scratch)
                == encode_utf8(r[i]),
    decreases r.len() - k,
{
    let t = encode_utf8(record_text(r, ','));
    let n = r.len() as int;
    let o = written_offset(r, k);
    let w = written_field(r[k]);
    let fb = encode_utf8(r[k]);
    lemma_row_bytes(r, k);
    lemma_quoted_bytes_step(r, k);
    lemma_quoted_bytes_mono(r, k + 1);
    let e = p + o + w.len();
    assert(src[e] == t[o + w.len()]);
    let bl = st.buf_len as int;
    let se = if !needs_quote(r[k], ',') {
        lemma_plain_field_bytes(r[k]);
        assert forall|q: int| st.pos <= q < e implies plain_byte(#[trigger] src[q]) by {
            assert(src[p + (o + (q - p - o))] == t[o + (q - p - o)]);
            assert(t[o + (q - p - o)] == w[q - p - o]);
        }
        lemma_skip_plain(src, st, e);
        Scan { pos: e as usize, ..st }
    } else {
        lemma_quoted_field_bytes(r[k]);
        let q = quote_doubled(fb);
        assert(src[st.pos as int] == 0x22) by {
            assert(src[p + o] == t[o]);
            assert(t[o + 0] == w[0]);
        }
        let st1 = Scan {
            in_quotes: true,
            quoted: true,
            q_start: st.buf_len,
            copy_from: (st.pos + 1) as usize,
            pos: (st.pos + 1) as usize,
            ..st
        };
        assert(step(src, 0x2C, st) == Step::More(st1));
        let base = st.pos + 1;
        assert forall|i: int| 0 <= i < q.len() implies src[base + i] == #[trigger] q[i] by {
            assert(src[p + (o + 1 + i)] == t[o + (1 + i)]);
            assert(t[o + (1 + i)] == w[1 + i]);
        }
        assert(src[base + q.len()] == 0x22) by {
            assert(src[p + (o + 1 + q.len())] == t[o + (1 + q.len())]);
            assert(t[o + (1 + q.len())] == w[1 + q.len() as int]);
        }
        assert(fb.take(0) =~= Seq::<u8>::empty());
        assert(quote_doubled(Seq::<u8>::empty()) =~= Seq::<u8>::empty());
        assert(st1.scratch.subrange(bl, bl) + src.subrange(base, base) =~= fb.take(0));
        let out = lemma_quoted_body(src, st1, fb, base, 0);
        assert(out.pos == e);
        out
    };
    let start = if se.quoted {
        se.q_start
    } else {
        se.field_start
    };
    let end = if se.quoted {
        se.buf_len
    } else {
        se.pos
    };
    let c = commit(se, se.quoted, start, end);
    let nbl = quoted_bytes(r.take(k + 1)) as int;
    assert(se.buf_len == nbl);
    assert(se.scratch.subrange(0, bl) == st.scratch.subrange(0, bl));
    assert(c.meta == st.meta.update(k, (se.quoted, start, end)));
    assert(field_ok(c.meta[k], src, c.scratch, nbl, fb)) by {
        if !se.quoted {
            if start == end {
                assert(fb =~= Seq::<u8>::empty());
            } else {
                assert(src.subrange(start as int, end as int) =~= fb) by {
                    assert forall|j: int| 0 <= j < fb.len() implies src.subrange(
                        start as int,
                        end as int,
                    )[j] == fb[j] by {
                        assert(src[p + (o + j)] == t[o + j]);
                    }
                }
            }
        } else if start == end {
            assert(fb =~= Seq::<u8>::empty());
        }
    }
    assert forall|i: int| 0 <= i < k implies field_ok(
        #[trigger] c.meta[i],
        src,
        c.scratch,
        nbl,
        encode_utf8(r[i]),
    ) by {
        let m = st.meta[i];
        assert(c.meta[i] == m);
        assert(field_ok(m, src, st.scratch, bl, encode_utf8(r[i])));
        if m.0 && m.1 < m.2 {
            assert(c.scratch.subrange(m.1 as int, m.2 as int) =~= st.scratch.subrange(
                m.1 as int,
                m.2 as int,
            )) by {
                assert forall|j: int| m.1 <= j < m.2 implies c.scratch[j] == st.scratch[j] by {
                    assert(se.scratch.subrange(0, bl)[j] == st.scratch.subrange(0, bl)[j]);
                }
            }
        }
    }
    if k + 1 < n {
        assert(src[e] == 0x2C);
        let next = Scan {
            field_start: (e + 1) as usize,
            pos: (e + 1) as usize,
            in_quotes: false,
            quoted: false,
            copy_from: (e + 1) as usize,
            ..c
        };
        assert(step(src, 0x2C, se) == Step::More(next));
        let fin = lemma_row_fields_from(src, p, r, k + 1, next);
        fin
    } else {
        assert(src[e] == 0x0A);
        let fin = Scan { pos: (e + 1) as usize, ..c };
        assert(step(src, 0x2C, se) == Step::Row(fin));
        assert forall|i: int| 0 <= i < r.len() implies field_bytes(
            #[trigger] fin.meta[i],
            src,
            fin.scratch,
        ) == encode_utf8(r[i]) by {
            assert(field_ok(c.meta[i], src, c.scratch, nbl, encode_utf8(r[i])));
        }
        fin
    }
}

/// The bytes of `rows` at `p` split into the first row's and the rest's.
proof fn lemma_rows_split(src: Seq<u8>, p: int, rows: Seq<Seq<Seq<char>>>)
    requires
        rows.len() > 0,
        0 <= p <= src.len(),
        src.subrange(p, src.len() as int) == encode_utf8(records_text(rows)),
    ensures
        ({
            let rt = encode_utf8(record_text(rows[0], ','));
            &&& rt.len() > 0
            &&& p + rt.len() <= src.len()
            &&& forall|j: int| 0 <= j < rt.len() ==> src[p + j] == #[trigger] rt[j]
            &&& src.subrange(p + rt.len(), src.len() as int) == encode_utf8(
                records_text(rows.drop_first()),
            )
        }),
{
    let rt = encode_utf8(record_text(rows[0], ','));
    let rest = encode_utf8(records_text(rows.drop_first()));
    lemma_encode_concat(record_text(rows[0], ','), records_text(rows.drop_first()));
    lemma_encode_push(joined_fields(rows[0], ','), '\n');
    lemma_scalar_bytes('\n');
    let all = src.subrange(p, src.len() as int);
    assert(all == rt + rest);
    assert forall|j: int| 0 <= j < rt.len() implies src[p + j] == #[trigger] rt[j] by {
        assert(all[j] == (rt + rest)[j]);
    }
    assert(src.subrange(p + rt.len(), src.len() as int) =~= rest) by {
        assert forall|j: int| 0 <= j < rest.len() implies src.subrange(
            p + rt.len(),
            src.len() as int,
        )[j] == rest[j] by {
            assert(all[rt.len() + j] == (rt + rest)[rt.len() + j]);
        }
    }
}

/// A row the reader gives back whole: one to [`META_LEN`] fields, whose
/// quoted fields' contents fit the reader's scratch buffer together.
pub open spec fn fits_reader(r: Seq<Seq<char>>) -> bool {
    1 <= r.len() <= META_LEN && quoted_bytes(r) <= SCRATCH_LEN
}

/// Scanning the first written row at `p` ends right after it, with its
/// fields read back.
proof fn lemma_first_row(
    src: Seq<u8>,
    p: int,
    r: Seq<Seq<char>>,
    scratch: Seq<u8>,
    meta: Seq<(bool, usize, usize)>,
) -> (st: Scan)
    requires
        src.len() <= usize::MAX,
        0 <= p,
        p + encode_utf8(record_text(r, ',')).len() <= src.len(),
        forall|j: int|
            0 <= j < encode_utf8(record_text(r, ',')).len() ==> src[p + j] == #[trigger] encode_utf8(
                record_text(r, ','),
            )[j],
        fits_reader(r),
        scratch.len() == SCRATCH_LEN,
        meta.len() == META_LEN,
    ensures
        scan(src, 0x2C, row_start(p as usize, scratch, meta)) == Step::Row(st),
        st.pos == p + encode_utf8(record_text(r, ',')).len(),
        st.scratch.len() == SCRATCH_LEN,
        st.meta.len() == META_LEN,
        row_texts(src, st) == r,
{
    let st0 = row_start(p as usize, scratch, meta);
    assert(r.take(0) =~= Seq::<Seq<char>>::empty());
    let fin = lemma_row_fields_from(src, p, r, 0, st0);
    assert(row_texts(src, fin) =~= r) by {
        assert forall|i: int| 0 <= i < r.len() implies #[trigger] row_texts(src, fin)[i] == r[i] by {
            encode_utf8_valid_utf8(r[i]);
            encode_utf8_decode_utf8(r[i]);
        }
    }
    fin
}

proof fn lemma_rows_from(
    src: Seq<u8>,
    rows: Seq<Seq<Seq<char>>>,
    p: int,
    scratch: Seq<u8>,
    meta: Seq<(bool, usize, usize)>,
)
    requires
        src.len() <= usize::MAX,
        forall|i: int| 0 <= i < rows.len() ==> fits_reader(#[trigger] rows[i]),
        0 <= p <= src.len(),
        src.subrange(p, src.len() as int) == encode_utf8(records_text(rows)),
        scratch.len() == SCRATCH_LEN,
        meta.len() == META_LEN,
    ensures
        records_from(src, p as usize, scratch, meta) == Some(
            Ok::<Seq<Seq<Seq<char>>>, CsvError>(rows),
        ),
    decreases rows.len(),
{
    if rows.len() == 0 {
        assert(encode_utf8(records_text(rows)) =~= Seq::<u8>::empty());
        assert(src.subrange(p, src.len() as int).len() == 0);
        assert(rows =~= Seq::<Seq<Seq<char>>>::empty());
    } else {
        let r = rows[0];
        assert(fits_reader(r));
        lemma_rows_split(src, p, rows);
        let len = encode_utf8(record_text(r, ',')).len() as int;
        let st = lemma_first_row(src, p, r, scratch, meta);
        assert forall|i: int| 0 <= i < rows.drop_first().len() implies fits_reader(
            #[trigger] rows.drop_first()[i],
        ) by {
            assert(rows.drop_first()[i] == rows[i + 1]);
        }
        lemma_rows_from(src, rows.drop_first(), p + len, st.scratch, st.meta);
        assert(seq![r] + rows.drop_first() =~= rows);
    }
}

/// Reading back what a comma-separated [`Writer`](crate::csv::Writer) wrote
/// gives back exactly the rows written, field for field, whatever characters
/// the fields hold (commas, quotes and line breaks included), for rows the
/// reader takes whole.
pub proof fn lemma_write_read_roundtrip(rows: Seq<Seq<Seq<char>>>)
    requires
        forall|i: int| 0 <= i < rows.len() ==> fits_reader(#[trigger] rows[i]),
        encode_utf8(records_text(rows)).len() <= usize::MAX,
    ensures
        records(encode_utf8(records_text(rows))) == Some(Ok::<Seq<Seq<Seq<char>>>, CsvError>(rows)),
{
    let src = encode_utf8(records_text(rows));
    assert(src.subrange(0, src.len() as int) =~= src);
    lemma_rows_from(src, rows, 0, fresh_scratch(), fresh_meta());
}

} // verus!
