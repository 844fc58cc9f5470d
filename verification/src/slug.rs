//! ASCII/Latin-1-safe slug generation.
//!
//! Text becomes a URL/identifier-safe slug: lowercase ASCII letters and
//! digits, words separated by single hyphens, with common Latin-1 letters
//! transliterated (`é`→`e`, `ß`→`ss`, `ü`→`ue`, ...). Whitespace and a few
//! punctuation marks separate words; every other character is dropped.
use vstd::prelude::*;
use crate::utf8::{Utf8Str, decode_step, scalars};
use crate::text::{string_from_bytes_or_empty, text_of};

verus! {

/// An ASCII letter or digit.
pub open spec fn is_alnum(b: u8) -> bool {
    (0x30 <= b <= 0x39) || (0x41 <= b <= 0x5A) || (0x61 <= b <= 0x7A)
}

/// A lowercase ASCII letter or a digit.
pub open spec fn is_slug_byte(b: u8) -> bool {
    (0x30 <= b <= 0x39) || (0x61 <= b <= 0x7A)
}

/// The ASCII spelling of a Latin-1 letter, by its offset `k` (0..32) in the
/// upper (`À`..`ß`) or lower (`à`..`ÿ`) block; `None` for `×` and `÷`.
pub open spec fn latin_word(k: u32, lower: bool) -> Option<Seq<u8>> {
    if k <= 3 || k == 5 {
        Some(seq![0x61u8])
    } else if k == 4 || k == 6 {
        Some(seq![0x61u8, 0x65])
    } else if k == 7 {
        Some(seq![0x63u8])
    } else if 8 <= k <= 11 {
        Some(seq![0x65u8])
    } else if 12 <= k <= 15 {
        Some(seq![0x69u8])
    } else if k == 16 {
        Some(seq![0x64u8])
    } else if k == 17 {
        Some(seq![0x6Eu8])
    } else if (18 <= k <= 21) || k == 24 {
        Some(seq![0x6Fu8])
    } else if k == 22 {
        Some(seq![0x6Fu8, 0x65])
    } else if 25 <= k <= 27 {
        Some(seq![0x75u8])
    } else if k == 28 {
        Some(seq![0x75u8, 0x65])
    } else if k == 29 {
        Some(seq![0x79u8])
    } else if k == 30 {
        Some(seq![0x74u8, 0x68])
    } else if k == 31 {
        if lower {
            Some(seq![0x79u8])
        } else {
            Some(seq![0x73u8, 0x73])
        }
    } else {
        None
    }
}

/// The slug bytes a character stands for, if it is a word character: an
/// ASCII letter (lowercased) or digit, or a transliterated Latin-1 letter.
pub open spec fn word_bytes(c: char) -> Option<Seq<u8>> {
    let v = c as u32;
    if v < 0x80 {
        let b = v as u8;
        if is_alnum(b) {
            if 0x41 <= b <= 0x5A {
                Some(seq![(b + 32) as u8])
            } else {
                Some(seq![b])
            }
        } else {
            None
        }
    } else if 0xC0 <= v < 0xE0 {
        latin_word((v - 0xC0) as u32, false)
    } else if 0xE0 <= v <= 0xFF {
        latin_word((v - 0xE0) as u32, true)
    } else {
        None
    }
}

/// Whether a character separates words: ASCII whitespace or one of
/// `. _ / \ - + ,`.
pub open spec fn is_separator(c: char) -> bool {
    let v = c as u32;
    v == 0x20 || v == 0x09 || v == 0x0A || v == 0x0D || v == 0x2E || v == 0x5F || v == 0x2F || v
        == 0x5C || v == 0x2D || v == 0x2B || v == 0x2C
}

/// What a slug writer has produced so far.
pub struct SlugState {
    /// The bytes written.
    pub out: Seq<u8>,
    /// Whether the last word character has not been followed by a separator.
    pub in_run: bool,
    /// Whether some word has been written.
    pub after_word: bool,
    /// Where the current word (with its hyphen) starts in `out`.
    pub word_start: nat,
    /// Whether a word did not fit: it was taken back and nothing more is
    /// written.
    pub full: bool,
}

/// Append word bytes `w`, preceded by a hyphen when they start a new word
/// after an earlier one. Words are kept whole: when the current word does not
/// fit in `cap`, it is taken back (with its hyphen) and the writer stops.
pub open spec fn emit(st: SlugState, w: Seq<u8>, cap: nat) -> SlugState {
    if st.full {
        st
    } else {
        let hyphen = !st.in_run && st.after_word;
        let start = if st.in_run { st.word_start } else { st.out.len() };
        let out = if hyphen { st.out.push(0x2D) + w } else { st.out + w };
        if out.len() > cap {
            SlugState {
                out: st.out.take(start as int),
                in_run: false,
                after_word: start > 0,
                word_start: start,
                full: true,
            }
        } else {
            SlugState { out, in_run: true, after_word: true, word_start: start, full: false }
        }
    }
}

/// Feed one character.
pub open spec fn push_step(st: SlugState, c: char, cap: nat) -> SlugState {
    match word_bytes(c) {
        Some(w) => emit(st, w, cap),
        None => if is_separator(c) {
            SlugState { in_run: false, ..st }
        } else {
            st
        },
    }
}

/// Feed characters front to back.
pub open spec fn push_all(st: SlugState, cs: Seq<char>, cap: nat) -> SlugState
    decreases cs.len(),
{
    if cs.len() == 0 {
        st
    } else {
        push_all(push_step(st, cs[0], cap), cs.drop_first(), cap)
    }
}

/// The state of a fresh writer.
pub open spec fn fresh() -> SlugState {
    SlugState { out: Seq::empty(), in_run: false, after_word: false, word_start: 0, full: false }
}

/// The slug of the characters `cs` in a buffer of `cap` bytes: the words
/// that fit whole, up to the first one that does not.
pub open spec fn slug_of(cs: Seq<char>, cap: nat) -> Seq<u8> {
    push_all(fresh(), cs, cap).out
}

/// The slug of the whole text `cs`: at this capacity no word is ever cut
/// (each character adds at most three bytes).
pub open spec fn whole_slug(cs: Seq<char>) -> Seq<u8> {
    slug_of(cs, 3 * cs.len())
}

/// A valid slug: lowercase letters, digits and hyphens, with no hyphen at
/// either end and no two hyphens in a row.
pub open spec fn is_slug(s: Seq<u8>) -> bool {
    &&& forall|i: int| 0 <= i < s.len() ==> is_slug_byte(#[trigger] s[i]) || s[i] == 0x2D
    &&& s.len() > 0 ==> s[0] != 0x2D && s[s.len() - 1] != 0x2D
    &&& forall|i: int| 0 <= i < s.len() - 1 ==> !(#[trigger] s[i] == 0x2D && s[i + 1] == 0x2D)
}

/// What every reachable writer state satisfies.
pub open spec fn state_ok(st: SlugState) -> bool {
    &&& is_slug(st.out)
    &&& st.after_word <==> st.out.len() > 0
    &&& st.in_run ==> st.after_word
    &&& st.word_start <= st.out.len()
    &&& is_slug(st.out.take(st.word_start as int))
}

proof fn lemma_word_bytes(c: char)
    ensures
        word_bytes(c) matches Some(w) ==> 1 <= w.len() <= 2 && forall|i: int|
            0 <= i < w.len() ==> is_slug_byte(#[trigger] w[i]),
{
}

/// Feeding a character keeps a writer state valid.
pub proof fn lemma_push_step_ok(st: SlugState, c: char, cap: nat)
    requires
        state_ok(st),
    ensures
        state_ok(push_step(st, c, cap)),
{
    lemma_word_bytes(c);
    match word_bytes(c) {
        Some(w) => {
            if !st.full {
                let hyphen = !st.in_run && st.after_word;
                let start = if st.in_run { st.word_start } else { st.out.len() };
                let out = if hyphen { st.out.push(0x2D) + w } else { st.out + w };
                if !st.in_run {
                    assert(st.out.take(start as int) =~= st.out);
                }
                if out.len() <= cap {
                    assert forall|i: int| 0 <= i < out.len() implies is_slug_byte(#[trigger] out[i])
                        || out[i] == 0x2D by {
                        if i >= out.len() - w.len() {
                            assert(out[i] == w[i - (out.len() - w.len())]);
                        } else if i < st.out.len() {
                            assert(out[i] == st.out[i]);
                        }
                    }
                    assert forall|i: int| 0 <= i < out.len() - 1 implies !(#[trigger] out[i]
                        == 0x2D && out[i + 1] == 0x2D) by {
                        if i + 1 >= out.len() - w.len() {
                            assert(out[i + 1] == w[i + 1 - (out.len() - w.len())]);
                        } else {
                            assert(out[i] == st.out[i]);
                            if i + 1 < st.out.len() {
                                assert(out[i + 1] == st.out[i + 1]);
                            }
                        }
                    }
                    assert(out[out.len() - 1] == w[w.len() - 1]);
                    if st.out.len() > 0 {
                        assert(out[0] == st.out[0]);
                    } else {
                        assert(out[0] == w[0]);
                    }
                    assert(out.take(start as int) =~= st.out.take(start as int));
                } else {
                    let o = st.out.take(start as int);
                    assert(o.take(start as int) =~= o);
                }
            }
        },
        None => {},
    }
}

/// Every state a fresh writer reaches is valid: the output is always a slug.
pub proof fn lemma_push_all_ok(st: SlugState, cs: Seq<char>, cap: nat)
    requires
        state_ok(st),
    ensures
        state_ok(push_all(st, cs, cap)),
    decreases cs.len(),
{
    if cs.len() > 0 {
        lemma_push_step_ok(st, cs[0], cap);
        lemma_push_all_ok(push_step(st, cs[0], cap), cs.drop_first(), cap);
    }
}

/// How a single character takes part in a slug.
enum Class {
    /// A word character, emitted as one lowercased ASCII byte.
    Word1(u8),
    /// A word character, emitted as two ASCII bytes.
    Word2(u8, u8),
    /// A separator: ends the current word.
    Sep,
    /// Dropped entirely.
    Drop,
}

/// Classify a single Unicode scalar for slugification.
fn classify(ch: char) -> (r: Class)
    ensures
        match r {
            Class::Word1(b) => word_bytes(ch) == Some(seq![b]),
            Class::Word2(a, b) => word_bytes(ch) == Some(seq![a, b]),
            Class::Sep => word_bytes(ch) is None && is_separator(ch),
            Class::Drop => word_bytes(ch) is None && !is_separator(ch),
        },
{
    let v = ch as u32;
    if v < 0x80 {
        let b = v as u8;
        if (0x30 <= b && b <= 0x39) || (0x61 <= b && b <= 0x7A) {
            return Class::Word1(b);
        }
        if 0x41 <= b && b <= 0x5A {
            return Class::Word1(b + 32);
        }
        if b == 0x20 || b == 0x09 || b == 0x0A || b == 0x0D || b == 0x2E || b == 0x5F || b == 0x2F
            || b == 0x5C || b == 0x2D || b == 0x2B || b == 0x2C {
            return Class::Sep;
        }
        return Class::Drop;
    }
    if v < 0xC0 || v > 0xFF {
        return Class::Drop;
    }
    let lower = v >= 0xE0;
    let k = if lower { v - 0xE0 } else { v - 0xC0 };
    if k <= 3 || k == 5 {
        Class::Word1(0x61)
    } else if k == 4 || k == 6 {
        Class::Word2(0x61, 0x65)
    } else if k == 7 {
        Class::Word1(0x63)
    } else if 8 <= k && k <= 11 {
        Class::Word1(0x65)
    } else if 12 <= k && k <= 15 {
        Class::Word1(0x69)
    } else if k == 16 {
        Class::Word1(0x64)
    } else if k == 17 {
        Class::Word1(0x6E)
    } else if (18 <= k && k <= 21) || k == 24 {
        Class::Word1(0x6F)
    } else if k == 22 {
        Class::Word2(0x6F, 0x65)
    } else if 25 <= k && k <= 27 {
        Class::Word1(0x75)
    } else if k == 28 {
        Class::Word2(0x75, 0x65)
    } else if k == 29 {
        Class::Word1(0x79)
    } else if k == 30 {
        Class::Word2(0x74, 0x68)
    } else if k == 31 {
        if lower {
            Class::Word1(0x79)
        } else {
            Class::Word2(0x73, 0x73)
        }
    } else {
        Class::Drop
    }
}

/// A buffer-writer that builds a slug incrementally. Words (runs of
/// alphanumeric/transliterable characters) are separated by a single hyphen,
/// with no leading or trailing hyphen. Words are kept whole: one that does
/// not fit is taken back, and nothing more is written.
pub struct SlugWriter<'a> {
    buf: &'a mut [u8],
    len: usize,
    in_run: bool,
    after_word: bool,
    word_start: usize,
    full: bool,
}

impl<'a> SlugWriter<'a> {
    #[verifier::type_invariant]
    spec fn wf(self) -> bool {
        self.word_start <= self.len <= self.buf@.len()
    }

    /// What the writer has produced so far.
    pub closed spec fn state(&self) -> SlugState {
        SlugState {
            out: self.buf@.take(self.len as int),
            in_run: self.in_run,
            after_word: self.after_word,
            word_start: self.word_start as nat,
            full: self.full,
        }
    }

    /// The buffer's capacity.
    pub closed spec fn cap(&self) -> nat {
        self.buf@.len()
    }

    /// Create a writer that appends to `buf`.
    pub fn new(buf: &'a mut [u8]) -> (w: Self)
        ensures
            w.state() == fresh(),
            w.cap() == old(buf)@.len(),
    {
        let w = SlugWriter { buf, len: 0, in_run: false, after_word: false, word_start: 0, full: false };
        proof {
            assert(w.buf@.take(0) =~= Seq::<u8>::empty());
        }
        w
    }

    /// Number of bytes written so far.
    pub fn len(&self) -> (r: usize)
        ensures
            r == self.state().out.len(),
    {
        proof {
            use_type_invariant(self);
        }
        self.len
    }

    /// Whether nothing has been written.
    pub fn is_empty(&self) -> (r: bool)
        ensures
            r == (self.state().out.len() == 0),
    {
        proof {
            use_type_invariant(self);
        }
        self.len == 0
    }

    /// Borrow the written slug bytes.
    pub fn as_bytes(&self) -> (r: &[u8])
        ensures
            r@ == self.state().out,
    {
        proof {
            use_type_invariant(self);
        }
        let b: &[u8] = &*self.buf;
        vstd::slice::slice_subrange(b, 0, self.len)
    }

    /// Feed one `char` of input into the slugifier.
    pub fn push_char(&mut self, ch: char)
        ensures
            final(self).cap() == old(self).cap(),
            final(self).state() == push_step(old(self).state(), ch, old(self).cap()),
    {
        proof {
            use_type_invariant(&*self);
        }
        match classify(ch) {
            Class::Word1(b) => {
                let w: [u8; 1] = [b];
                proof {
                    assert(w@ =~= seq![b]);
                }
                self.emit_seq(w.as_slice());
            },
            Class::Word2(a, b) => {
                let w: [u8; 2] = [a, b];
                proof {
                    assert(w@ =~= seq![a, b]);
                }
                self.emit_seq(w.as_slice());
            },
            Class::Sep => {
                self.in_run = false;
            },
            Class::Drop => {},
        }
    }

    /// Emit a word sequence. If this begins a new run after a completed word
    /// run, a separating hyphen is inserted first.
    fn emit_seq(&mut self, seq: &[u8])
        ensures
            final(self).cap() == old(self).cap(),
            final(self).state() == emit(old(self).state(), seq@, old(self).cap()),
    {
        proof {
            use_type_invariant(&*self);
        }
        if self.full {
            return;
        }
        let n = seq.len();
        let cap = self.buf.len();
        let hyphen = !self.in_run && self.after_word;
        let word_from = if self.in_run {
            self.word_start
        } else {
            self.len
        };
        let fits = if hyphen {
            cap - self.len >= n && cap - self.len - n >= 1
        } else {
            cap - self.len >= n
        };
        if !fits {
            proof {
                assert(self.buf@.take(word_from as int) =~= self.buf@.take(self.len as int).take(
                    word_from as int,
                ));
            }
            self.len = word_from;
            self.word_start = word_from;
            self.in_run = false;
            self.after_word = word_from > 0;
            self.full = true;
            return;
        }
        let ghost start = self.buf@.take(self.len as int);
        if hyphen {
            self.buf[self.len] = 0x2D;
            self.len += 1;
            proof {
                assert(self.buf@.take(self.len as int) =~= start.push(0x2D));
            }
        }
        let ghost base = self.buf@.take(self.len as int);
        let ghost before = self.buf@;
        let mut k: usize = 0;
        while k < n
            invariant
                k <= n,
                n == seq@.len(),
                cap == self.buf@.len(),
                self.len + n <= cap,
                self.word_start <= self.len,
                word_from <= self.len,
                !self.full,
                self.buf@.take(self.len as int) == base,
                forall|q: int| 0 <= q < k ==> #[trigger] self.buf@[self.len + q] == seq@[q],
            decreases n - k,
        {
            self.buf[self.len + k] = seq[k];
            k += 1;
        }
        proof {
            assert forall|q: int| self.len <= q < self.len + n implies self.buf@[q] == seq@[q - self.len] by {
                assert(self.buf@[self.len + (q - self.len)] == seq@[q - self.len]);
            }
            assert(self.buf@.take(self.len + n) =~= base + seq@);
        }
        self.len += n;
        self.word_start = word_from;
        self.in_run = true;
        self.after_word = true;
    }

    /// Feed a whole string slice.
    pub fn push_str(&mut self, s: &Utf8Str)
        ensures
            final(self).cap() == old(self).cap(),
            final(self).state() == push_all(old(self).state(), scalars(s@), old(self).cap()),
    {
        let mut it = s.char_indices();
        let ghost all = s@;
        proof {
            assert(all.skip(0) =~= all);
        }
        loop
            invariant
                it.bytes() == all,
                it.pos() <= all.len(),
                self.cap() == old(self).cap(),
                push_all(self.state(), scalars(all.skip(it.pos() as int)), self.cap()) == push_all(
                    old(self).state(),
                    scalars(all),
                    old(self).cap(),
                ),
            ensures
                it.pos() >= all.len(),
            decreases all.len() - it.pos(),
        {
            let ghost p = it.pos();
            match it.next() {
                Some((_, ch)) => {
                    proof {
                        lemma_scalars_step(all.skip(p as int));
                        let (c, w) = decode_step(all.skip(p as int));
                        assert(all.skip(p as int).skip(w as int) =~= all.skip((p + w) as int));
                        assert((seq![c] + scalars(all.skip((p + w) as int))).drop_first()
                            =~= scalars(all.skip((p + w) as int)));
                    }
                    self.push_char(ch);
                },
                None => {
                    break;
                },
            }
        }
        proof {
            assert(all.skip(it.pos() as int) =~= Seq::<u8>::empty());
            assert(scalars(Seq::<u8>::empty()) =~= Seq::<char>::empty());
        }
    }

    /// Consume the writer and return the written slug slice with the buffer's
    /// original lifetime.
    pub fn finish(self) -> (r: &'a [u8])
        ensures
            r@ == self.state().out,
    {
        proof {
            use_type_invariant(&self);
        }
        let SlugWriter { buf, len, .. } = self;
        let b: &'a [u8] = buf;
        vstd::slice::slice_subrange(b, 0, len)
    }
}

/// One decoding step of a non-empty byte sequence yields its first scalar.
proof fn lemma_scalars_step(s: Seq<u8>)
    requires
        s.len() > 0,
    ensures
        ({
            let (c, n) = decode_step(s);
            &&& 1 <= n <= s.len()
            &&& scalars(s) == seq![c] + scalars(s.skip(n as int))
        }),
{
    crate::utf8::lemma_step_width(s);
}

/// Slugify `input` into `buf`, returning a slice of the written bytes.
///
/// Returns the empty slice if `buf` is too small to hold even the first
/// word. The result is always a valid slug (`[a-z0-9-]`, no leading,
/// trailing or doubled hyphen).
pub fn slugify_into<'a>(input: &Utf8Str, buf: &'a mut [u8]) -> (r: &'a [u8])
    ensures
        r@ == slug_of(scalars(input@), old(buf)@.len()),
        is_slug(r@),
{
    let mut w = SlugWriter::new(buf);
    w.push_str(input);
    proof {
        lemma_push_all_ok(fresh(), scalars(input@), old(buf)@.len());
    }
    w.finish()
}

/// Decoding yields at most one char per byte.
proof fn lemma_scalars_len(s: Seq<u8>)
    ensures
        scalars(s).len() <= s.len(),
    decreases s.len(),
{
    if s.len() > 0 {
        lemma_scalars_step(s);
        let (c, n) = decode_step(s);
        lemma_scalars_len(s.skip(n as int));
    }
}

/// With room for three bytes per remaining character, no word is ever cut,
/// so the capacity makes no difference.
proof fn lemma_push_all_roomy(st: SlugState, cs: Seq<char>, c1: nat, c2: nat)
    requires
        !st.full,
        st.out.len() + 3 * cs.len() <= c1,
        st.out.len() + 3 * cs.len() <= c2,
    ensures
        push_all(st, cs, c1) == push_all(st, cs, c2),
    decreases cs.len(),
{
    if cs.len() > 0 {
        lemma_word_bytes(cs[0]);
        let next = push_step(st, cs[0], c1);
        assert(next == push_step(st, cs[0], c2));
        assert(!next.full && next.out.len() <= st.out.len() + 3);
        lemma_push_all_roomy(next, cs.drop_first(), c1, c2);
    }
}

/// In a buffer with room for three bytes per character, the slug is that of
/// the whole text.
pub proof fn lemma_slug_of_roomy(cs: Seq<char>, cap: nat)
    requires
        3 * cs.len() <= cap,
    ensures
        slug_of(cs, cap) == whole_slug(cs),
{
    lemma_push_all_roomy(fresh(), cs, cap, 3 * cs.len());
}

/// An ASCII letter or digit, by code point.
pub open spec fn ascii_alnum_char(c: char) -> bool {
    let v = c as u32;
    (0x30 <= v <= 0x39) || (0x41 <= v <= 0x5A) || (0x61 <= v <= 0x7A)
}

/// ASCII text lower-cased, one byte per character.
pub open spec fn ascii_lowered(cs: Seq<char>) -> Seq<u8> {
    Seq::new(
        cs.len(),
        |i: int|
            {
                let v = cs[i] as u32;
                if 0x41 <= v <= 0x5A {
                    (v + 32) as u8
                } else {
                    v as u8
                }
            },
    )
}

/// Every character of `cs` is an ASCII letter or digit.
pub open spec fn all_alnum(cs: Seq<char>) -> bool {
    forall|i: int| 0 <= i < cs.len() ==> ascii_alnum_char(#[trigger] cs[i])
}

proof fn lemma_small_cast(v: u32)
    ensures
        v < 0x80 ==> (v as u8) as u32 == v,
{
    assert(v < 0x80 ==> (v as u8) as u32 == v) by (bit_vector);
}

proof fn lemma_alnum_word_bytes(c: char)
    requires
        ascii_alnum_char(c),
    ensures
        word_bytes(c) == Some(ascii_lowered(seq![c])),
{
    let v = c as u32;
    lemma_small_cast(v);
    assert(ascii_lowered(seq![c]) =~= seq![(if 0x41 <= v <= 0x5A { (v + 32) as u8 } else { v as u8 })]);
}

/// Feeding letters and digits to a writer inside a word extends the word.
proof fn lemma_feed_in_word(st: SlugState, cs: Seq<char>, cap: nat)
    requires
        !st.full,
        st.in_run,
        st.after_word,
        all_alnum(cs),
        st.out.len() + cs.len() <= cap,
    ensures
        push_all(st, cs, cap).out == st.out + ascii_lowered(cs),
        push_all(st, cs, cap).in_run,
        push_all(st, cs, cap).after_word,
        !push_all(st, cs, cap).full,
    decreases cs.len(),
{
    if cs.len() == 0 {
        assert(st.out + ascii_lowered(cs) =~= st.out);
    } else {
        let c = cs[0];
        lemma_alnum_word_bytes(c);
        let next = push_step(st, c, cap);
        assert(next.out == st.out + ascii_lowered(seq![c]));
        let rest = cs.drop_first();
        assert forall|i: int| 0 <= i < rest.len() implies ascii_alnum_char(#[trigger] rest[i]) by {
            assert(rest[i] == cs[i + 1]);
        }
        lemma_feed_in_word(next, rest, cap);
        assert(ascii_lowered(seq![c]) + ascii_lowered(rest) =~= ascii_lowered(cs));
    }
}

/// Feeding letters and digits to a writer between words starts a word: a
/// hyphen first when a word came before.
proof fn lemma_feed_word(st: SlugState, cs: Seq<char>, cap: nat)
    requires
        !st.full,
        !st.in_run,
        cs.len() > 0,
        all_alnum(cs),
        st.out.len() + cs.len() + (if st.after_word { 1int } else { 0int }) <= cap,
    ensures
        push_all(st, cs, cap).out == st.out + (if st.after_word {
            seq![0x2Du8]
        } else {
            Seq::<u8>::empty()
        }) + ascii_lowered(cs),
        push_all(st, cs, cap).in_run,
        push_all(st, cs, cap).after_word,
        !push_all(st, cs, cap).full,
{
    let c = cs[0];
    lemma_alnum_word_bytes(c);
    let next = push_step(st, c, cap);
    let h = if st.after_word {
        seq![0x2Du8]
    } else {
        Seq::<u8>::empty()
    };
    if st.after_word {
        assert(next.out == st.out.push(0x2D) + ascii_lowered(seq![c]));
    } else {
        assert(next.out == st.out + ascii_lowered(seq![c]));
    }
    assert(next.out =~= st.out + h + ascii_lowered(seq![c]));
    let rest = cs.drop_first();
    assert forall|i: int| 0 <= i < rest.len() implies ascii_alnum_char(#[trigger] rest[i]) by {
        assert(rest[i] == cs[i + 1]);
    }
    lemma_feed_in_word(next, rest, cap);
    assert(ascii_lowered(seq![c]) + ascii_lowered(rest) =~= ascii_lowered(cs));
    assert(st.out + h + ascii_lowered(seq![c]) + ascii_lowered(rest) =~= st.out + h
        + ascii_lowered(cs));
}

/// Feeding `a + b` is feeding `a`, then `b`.
proof fn lemma_push_all_concat(st: SlugState, a: Seq<char>, b: Seq<char>, cap: nat)
    ensures
        push_all(st, a + b, cap) == push_all(push_all(st, a, cap), b, cap),
    decreases a.len(),
{
    if a.len() == 0 {
        assert(a + b =~= b);
    } else {
        assert((a + b)[0] == a[0]);
        assert((a + b).drop_first() =~= a.drop_first() + b);
        lemma_push_all_concat(push_step(st, a[0], cap), a.drop_first(), b, cap);
    }
}

/// Text made only of ASCII letters and digits is a single word: its slug,
/// in any buffer that holds it, is the text lower-cased byte for byte (so
/// every digit and letter is kept).
pub proof fn lemma_slug_alnum_text(cs: Seq<char>, cap: nat)
    requires
        all_alnum(cs),
        cs.len() <= cap,
    ensures
        slug_of(cs, cap) == ascii_lowered(cs),
        whole_slug(cs) == ascii_lowered(cs),
{
    if cs.len() == 0 {
        assert(ascii_lowered(cs) =~= Seq::<u8>::empty());
    } else {
        lemma_feed_word(fresh(), cs, cap);
        lemma_feed_word(fresh(), cs, 3 * cs.len());
        assert(Seq::<u8>::empty() + Seq::<u8>::empty() + ascii_lowered(cs) =~= ascii_lowered(cs));
    }
}

/// Two words of letters and digits with a separator between them (ASCII
/// whitespace or one of `. _ / \ - + ,`) are joined by one hyphen.
pub proof fn lemma_slug_separator(a: Seq<char>, sep: char, b: Seq<char>)
    requires
        a.len() > 0,
        b.len() > 0,
        all_alnum(a),
        all_alnum(b),
        sep == ' ' || sep == '\t' || sep == '\n' || sep == '\r' || sep == '.' || sep == '_' || sep
            == '/' || sep == '\\' || sep == '-' || sep == '+' || sep == ',',
    ensures
        whole_slug(a + seq![sep] + b) == ascii_lowered(a) + seq![0x2Du8] + ascii_lowered(b),
{
    let cs = a + seq![sep] + b;
    let cap = 3 * cs.len();
    lemma_push_all_concat(fresh(), a + seq![sep], b, cap);
    lemma_push_all_concat(fresh(), a, seq![sep], cap);
    lemma_feed_word(fresh(), a, cap);
    let sa = push_all(fresh(), a, cap);
    assert(sa.out =~= ascii_lowered(a));
    assert(seq![sep].drop_first() =~= Seq::<char>::empty());
    let v = sep as u32;
    lemma_small_cast(v);
    reveal_with_fuel(push_all, 2);
    let ss = push_all(sa, seq![sep], cap);
    assert(ss == push_step(sa, sep, cap));
    assert(!ss.in_run && ss.after_word && !ss.full && ss.out == sa.out);
    lemma_feed_word(ss, b, cap);
}

/// An ASCII character that is neither a letter, a digit nor a separator is
/// dropped: the words around it run together.
pub proof fn lemma_slug_dropped(a: Seq<char>, p: char, b: Seq<char>)
    requires
        a.len() > 0,
        b.len() > 0,
        all_alnum(a),
        all_alnum(b),
        (p as u32) < 0x80,
        !ascii_alnum_char(p),
        !(p == ' ' || p == '\t' || p == '\n' || p == '\r' || p == '.' || p == '_' || p == '/'
            || p == '\\' || p == '-' || p == '+' || p == ','),
    ensures
        whole_slug(a + seq![p] + b) == ascii_lowered(a) + ascii_lowered(b),
{
    let cs = a + seq![p] + b;
    let cap = 3 * cs.len();
    lemma_push_all_concat(fresh(), a + seq![p], b, cap);
    lemma_push_all_concat(fresh(), a, seq![p], cap);
    lemma_feed_word(fresh(), a, cap);
    let sa = push_all(fresh(), a, cap);
    assert(sa.out =~= ascii_lowered(a));
    assert(seq![p].drop_first() =~= Seq::<char>::empty());
    let v = p as u32;
    lemma_small_cast(v);
    reveal_with_fuel(push_all, 2);
    let sp = push_all(sa, seq![p], cap);
    assert(sp == push_step(sa, p, cap));
    assert(sp == sa);
    lemma_feed_in_word(sp, b, cap);
}

/// How each Latin-1 letter (`U+00C0` to `U+00FF`, upper and lower case
/// alike) is spelt in a slug: accented vowels as the plain vowel, `Ä Æ Ö Ü`
/// as `ae ae oe ue`, `Ç Ð Ñ Ý` as `c d n y`, `Ø` as `o`, `Þ` as `th`, `ß` as
/// `ss`, `ÿ` as `y`; `×` and `÷` are dropped.
pub proof fn lemma_slug_latin1(c: char)
    requires
        0xC0 <= c as u32 <= 0xFF,
    ensures
        ({
            let v = c as u32;
            let k = if v >= 0xE0 { v - 0xE0 } else { v - 0xC0 };
            let w = whole_slug(seq![c]);
            &&& (k <= 3 || k == 5) ==> w == seq![0x61u8]
            &&& (k == 4 || k == 6) ==> w == seq![0x61u8, 0x65]
            &&& k == 7 ==> w == seq![0x63u8]
            &&& 8 <= k <= 11 ==> w == seq![0x65u8]
            &&& 12 <= k <= 15 ==> w == seq![0x69u8]
            &&& k == 16 ==> w == seq![0x64u8]
            &&& k == 17 ==> w == seq![0x6Eu8]
            &&& (18 <= k <= 21 || k == 24) ==> w == seq![0x6Fu8]
            &&& k == 22 ==> w == seq![0x6Fu8, 0x65]
            &&& k == 23 ==> w == Seq::<u8>::empty()
            &&& 25 <= k <= 27 ==> w == seq![0x75u8]
            &&& k == 28 ==> w == seq![0x75u8, 0x65]
            &&& k == 29 ==> w == seq![0x79u8]
            &&& k == 30 ==> w == seq![0x74u8, 0x68]
            &&& v == 0xDF ==> w == seq![0x73u8, 0x73]
            &&& v == 0xFF ==> w == seq![0x79u8]
        }),
{
    reveal_with_fuel(push_all, 2);
    assert(seq![c].drop_first() =~= Seq::<char>::empty());
    assert(seq![c][0] == c);
    lemma_word_bytes(c);
    let st = push_step(fresh(), c, 3);
    assert(whole_slug(seq![c]) == st.out);
    match word_bytes(c) {
        Some(wb) => {
            assert(st.out =~= Seq::<u8>::empty() + wb);
        },
        None => {},
    }
}

/// A word after the first starts with its hyphen.
spec fn word_start_ok(st: SlugState) -> bool {
    st.word_start > 0 ==> st.word_start < st.out.len() && st.out[st.word_start as int] == 0x2D
}

/// How a writer with a small buffer (`a`) stands to one with room for
/// everything (`b`) fed the same characters: the same until `a` stops, then a
/// prefix of `b` that ends where a word ends.
spec fn tracks(a: SlugState, b: SlugState) -> bool {
    &&& !b.full
    &&& !a.full ==> a == b
    &&& a.full ==> a.out.len() < b.out.len() && b.out.take(a.out.len() as int) == a.out && (
    a.out.len() == 0 || b.out[a.out.len() as int] == 0x2D)
}

proof fn lemma_tracks_step(a: SlugState, b: SlugState, c: char, ca: nat, cb: nat)
    requires
        tracks(a, b),
        state_ok(b),
        word_start_ok(b),
        b.out.len() + 3 <= cb,
    ensures
        tracks(push_step(a, c, ca), push_step(b, c, cb)),
        word_start_ok(push_step(b, c, cb)),
        push_step(b, c, cb).out.len() <= b.out.len() + 3,
{
    lemma_word_bytes(c);
    lemma_push_step_ok(b, c, cb);
    match word_bytes(c) {
        Some(w) => {
            let b2 = push_step(b, c, cb);
            let hyphen = !b.in_run && b.after_word;
            let start = if b.in_run { b.word_start } else { b.out.len() };
            assert(b2.out == if hyphen { b.out.push(0x2D) + w } else { b.out + w });
            assert forall|i: int| 0 <= i < b.out.len() implies b2.out[i] == b.out[i] by {}
            if hyphen {
                assert(b2.out[b.out.len() as int] == 0x2D);
            }
            if a.full {
                assert(b2.out.take(a.out.len() as int) =~= b.out.take(a.out.len() as int));
            } else {
                let a2 = push_step(a, c, ca);
                if a2.full {
                    assert(a2.out == b.out.take(start as int));
                    assert(b2.out.take(start as int) =~= b.out.take(start as int));
                }
            }
        },
        None => {},
    }
}

proof fn lemma_push_all_tracks(a: SlugState, b: SlugState, cs: Seq<char>, ca: nat, cb: nat)
    requires
        tracks(a, b),
        state_ok(b),
        word_start_ok(b),
        b.out.len() + 3 * cs.len() <= cb,
    ensures
        tracks(push_all(a, cs, ca), push_all(b, cs, cb)),
    decreases cs.len(),
{
    if cs.len() > 0 {
        lemma_tracks_step(a, b, cs[0], ca, cb);
        lemma_push_step_ok(b, cs[0], cb);
        lemma_push_all_tracks(
            push_step(a, cs[0], ca),
            push_step(b, cs[0], cb),
            cs.drop_first(),
            ca,
            cb,
        );
    }
}

/// A slug written into a buffer too small for all of it is the whole slug
/// cut back to the words that fit: a prefix of it that ends where a word
/// ends (so it is empty when even the first word does not fit).
pub proof fn lemma_slug_prefix(cs: Seq<char>, cap: nat)
    ensures
        ({
            let a = slug_of(cs, cap);
            let w = whole_slug(cs);
            &&& a.len() <= w.len()
            &&& w.take(a.len() as int) == a
            &&& a.len() == 0 || a.len() == w.len() || w[a.len() as int] == 0x2D
        }),
{
    assert(fresh().out.take(0) =~= Seq::<u8>::empty());
    lemma_push_all_tracks(fresh(), fresh(), cs, cap, 3 * cs.len());
    let a = slug_of(cs, cap);
    let w = whole_slug(cs);
    if !push_all(fresh(), cs, cap).full {
        assert(w.take(a.len() as int) =~= a);
    }
}

/// Slugify `input` into a heap-allocated `String`: the slug of the whole
/// text.
pub fn slugify(input: &Utf8Str) -> (r: String)
    requires
        input@.len() * 3 + 1 <= usize::MAX,
    ensures
        r@ == text_of(whole_slug(scalars(input@))),
        is_slug(whole_slug(scalars(input@))),
{
    let n = input.len();
    let mut tmp: Vec<u8> = vec![0u8; n * 3 + 1];
    let slice = slugify_into(input, tmp.as_mut_slice());
    proof {
        lemma_scalars_len(input@);
        lemma_slug_of_roomy(scalars(input@), (n * 3 + 1) as nat);
    }
    string_from_bytes_or_empty(slice)
}

} // verus!
