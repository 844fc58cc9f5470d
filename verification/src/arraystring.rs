//! A `String`-like buffer of at most `N` UTF-8 bytes.
//!
//! [`ArrayString`] keeps its bytes in an [`ArrayVec<u8, N>`] and is always
//! well-formed UTF-8: a push that would not fit, or would start in the middle
//! of a code point, is refused with a [`Utf8Error`] and changes nothing.
use vstd::prelude::*;
use vstd::utf8::*;
use vstd::string::StringSliceAdditionalSpecFns;
use crate::arrayvec::ArrayVec;
use crate::text::str_from_utf8;
use crate::utf8::{encode_char, from_bytes};

verus! {

/// Why a push was refused.
#[derive(Clone, Copy, Debug, PartialEq, Eq, Hash, Structural)]
pub enum Utf8Error {
    /// The push would exceed the buffer's `N`-byte capacity.
    Overflow,
    /// The pushed bytes would produce invalid UTF-8 (e.g. a split code point).
    InvalidUtf8,
}

/// A `String`-like type holding at most `N` bytes of UTF-8 text.
pub struct ArrayString<const N: usize> {
    buf: ArrayVec<u8, N>,
}

/// UTF-8 encoding distributes over concatenation.
pub proof fn lemma_encode_utf8_concat(a: Seq<char>, b: Seq<char>)
    ensures
        encode_utf8(a + b) == encode_utf8(a) + encode_utf8(b),
    decreases a.len(),
{
    if a.len() == 0 {
        assert(a + b =~= b);
        assert(encode_utf8(a) + encode_utf8(b) =~= encode_utf8(b));
    } else {
        lemma_encode_utf8_concat(a.drop_first(), b);
        assert((a + b).drop_first() =~= a.drop_first() + b);
        assert(encode_utf8(a + b) =~= encode_utf8(a) + encode_utf8(b));
    }
}

impl<const N: usize> View for ArrayString<N> {
    type V = Seq<char>;

    /// The text held.
    closed spec fn view(&self) -> Seq<char> {
        decode_utf8(self.buf@)
    }
}

impl<const N: usize> ArrayString<N> {
    #[verifier::type_invariant]
    closed spec fn inv(&self) -> bool {
        &&& valid_utf8(self.buf@)
        &&& self.buf@.len() <= N
    }

    /// Create an empty `ArrayString`.
    pub fn new() -> (r: Self)
        ensures
            r@ == Seq::<char>::empty(),
    {
        let r = ArrayString { buf: ArrayVec::new() };
        assert(r@ =~= Seq::<char>::empty());
        r
    }

    /// Current length in bytes.
    pub fn len(&self) -> (r: usize)
        ensures
            r == encode_utf8(self@).len(),
            r <= N,
    {
        proof {
            use_type_invariant(self);
            decode_utf8_encode_utf8(self.buf@);
        }
        self.buf.len()
    }

    /// Whether the string is empty.
    pub fn is_empty(&self) -> (r: bool)
        ensures
            r == (self@.len() == 0),
    {
        proof {
            use_type_invariant(self);
        }
        self.buf.is_empty()
    }

    /// Whether the string has reached its byte capacity.
    pub fn is_full(&self) -> (r: bool)
        ensures
            r == (encode_utf8(self@).len() == N),
    {
        proof {
            use_type_invariant(self);
            decode_utf8_encode_utf8(self.buf@);
        }
        self.buf.is_full()
    }

    /// Total byte capacity.
    pub fn capacity(&self) -> (r: usize)
        ensures
            r == N,
    {
        N
    }

    /// Push a single character, or fail with [`Utf8Error::Overflow`] when its
    /// encoding does not fit.
    pub fn push(&mut self, ch: char) -> (r: Result<(), Utf8Error>)
        ensures
            encode_utf8(old(self)@).len() + encode_scalar(ch as u32).len() <= N ==> r is Ok
                && final(self)@ == old(self)@.push(ch),
            encode_utf8(old(self)@).len() + encode_scalar(ch as u32).len() > N ==> r == Err::<
                (),
                Utf8Error,
            >(Utf8Error::Overflow) && final(self)@ == old(self)@,
    {
        proof {
            use_type_invariant(&*self);
            decode_utf8_encode_utf8(self.buf@);
            char_is_scalar(ch);
        }
        let mut bytes: Vec<u8> = vec![0u8; 4];
        let n = match encode_char(ch, bytes.as_mut_slice()) {
            Some(n) => n,
            None => {
                return Err(Utf8Error::InvalidUtf8);
            },
        };
        let ghost enc = encode_scalar(ch as u32);
        assert(bytes@.subrange(0, n as int) == enc);
        if n > N - self.buf.len() {
            return Err(Utf8Error::Overflow);
        }
        let ghost old_bytes = self.buf@;
        let mut buf: ArrayVec<u8, N> = ArrayVec::new();
        core::mem::swap(&mut buf, &mut self.buf);
        let mut i: usize = 0;
        while i < n
            invariant
                i <= n,
                n <= bytes@.len(),
                old_bytes.len() + n <= N,
                buf@ == old_bytes + bytes@.subrange(0, i as int),
            decreases n - i,
        {
            let b = bytes[i];
            let _ = buf.push(b);
            assert(bytes@.subrange(0, i + 1) =~= bytes@.subrange(0, i as int).push(b));
            i += 1;
        }
        proof {
            let old_text = decode_utf8(old_bytes);
            assert(seq![ch].drop_first() =~= Seq::<char>::empty());
            reveal_with_fuel(encode_utf8, 2);
            assert(encode_utf8(seq![ch]) =~= enc);
            lemma_encode_utf8_concat(old_text, seq![ch]);
            assert(old_text.push(ch) =~= old_text + seq![ch]);
            assert(buf@ == encode_utf8(old_text.push(ch)));
            encode_utf8_valid_utf8(old_text.push(ch));
            encode_utf8_decode_utf8(old_text.push(ch));
        }
        self.buf = buf;
        Ok(())
    }

    /// Push a string slice, or fail with [`Utf8Error::Overflow`] when it does
    /// not fit. A `str` never begins inside a code point, so
    /// [`Utf8Error::InvalidUtf8`] does not occur.
    pub fn push_str(&mut self, s: &str) -> (r: Result<(), Utf8Error>)
        ensures
            encode_utf8(old(self)@).len() + encode_utf8(s@).len() <= N ==> r is Ok && final(self)@
                == old(self)@ + s@,
            encode_utf8(old(self)@).len() + encode_utf8(s@).len() > N ==> r == Err::<
                (),
                Utf8Error,
            >(Utf8Error::Overflow) && final(self)@ == old(self)@,
    {
        proof {
            use_type_invariant(&*self);
            decode_utf8_encode_utf8(self.buf@);
        }
        let bytes = s.as_bytes();
        if bytes.len() > N - self.buf.len() {
            return Err(Utf8Error::Overflow);
        }
        if bytes.len() != 0 && (bytes[0] & 0xC0) == 0x80 {
            proof {
                let b = bytes@[0];
                encode_utf8_first_scalar(s@);
                assert((b & 0xC0) == 0x80 ==> 0x80 <= b <= 0xBF) by (bit_vector);
            }
            return Err(Utf8Error::InvalidUtf8);
        }
        let ghost old_bytes = self.buf@;
        let mut buf: ArrayVec<u8, N> = ArrayVec::new();
        core::mem::swap(&mut buf, &mut self.buf);
        let n = bytes.len();
        let mut i: usize = 0;
        while i < n
            invariant
                i <= n,
                n == bytes@.len(),
                old_bytes.len() + n <= N,
                buf@ == old_bytes + bytes@.subrange(0, i as int),
            decreases n - i,
        {
            let b = bytes[i];
            let _ = buf.push(b);
            assert(bytes@.subrange(0, i + 1) =~= bytes@.subrange(0, i as int).push(b));
            i += 1;
        }
        proof {
            let old_text = decode_utf8(old_bytes);
            assert(bytes@.subrange(0, n as int) =~= bytes@);
            lemma_encode_utf8_concat(old_text, s@);
            encode_utf8_valid_utf8(old_text + s@);
            encode_utf8_decode_utf8(old_text + s@);
        }
        self.buf = buf;
        Ok(())
    }

    /// Remove and return the last character, if any.
    pub fn pop(&mut self) -> (r: Option<char>)
        ensures
            old(self)@.len() == 0 ==> r is None && final(self)@ == old(self)@,
            old(self)@.len() > 0 ==> r == Some(old(self)@.last()) && final(self)@ == old(
                self,
            )@.drop_last(),
    {
        broadcast use vstd::string::group_string_axioms;

        proof {
            use_type_invariant(&*self);
        }
        if self.buf.is_empty() {
            return None;
        }
        let ghost bytes = self.buf@;
        let len = self.buf.len();
        let mut end = len;
        loop
            invariant
                0 < end <= len,
                len == bytes.len(),
                self.buf@ == bytes,
                old(self)@ == decode_utf8(bytes),
                valid_utf8(bytes),
                bytes.len() <= N,
                forall|k: int| end <= k < len ==> is_continuation_byte(#[trigger] bytes[k]),
            decreases end,
        {
            end -= 1;
            let b = self.buf.as_slice()[end];
            proof {
                assert((b & 0xC0) == 0x80 <==> 0x80 <= b <= 0xBF) by (bit_vector);
            }
            if (b & 0xC0) != 0x80 {
                let tail = vstd::slice::slice_subrange(self.buf.as_slice(), end, len);
                let ghost head_bytes = bytes.subrange(0, end as int);
                proof {
                    lemma_last_scalar(bytes, end as int);
                    assert(decode_utf8(bytes).len() > 0);
                }
                let ch = match from_bytes(tail) {

                    Ok(u) => u.as_str().chars().next(),
                    Err(_) => None,
                };
                let mut buf: ArrayVec<u8, N> = ArrayVec::new();
                core::mem::swap(&mut buf, &mut self.buf);
                while buf.len() > end
                    invariant
                        len == bytes.len(),
                        end <= buf@.len() <= len,
                        buf@ == bytes.subrange(0, buf@.len() as int),
                    decreases buf@.len(),
                {
                    let _ = buf.pop();
                    assert(buf@ =~= bytes.subrange(0, buf@.len() as int));
                }
                assert(buf@ == head_bytes);
                self.buf = buf;
                return ch;
            }
            if end == 0 {
                proof {
                    assert(valid_first_scalar(bytes));
                }
                let mut buf: ArrayVec<u8, N> = ArrayVec::new();
                core::mem::swap(&mut buf, &mut self.buf);
                buf.clear();
                self.buf = buf;
                return None;
            }
        }
    }

    /// Clear the string.
    pub fn clear(&mut self)
        ensures
            final(self)@ == Seq::<char>::empty(),
    {
        let mut buf: ArrayVec<u8, N> = ArrayVec::new();
        core::mem::swap(&mut buf, &mut self.buf);
        buf.clear();
        self.buf = buf;
        assert(self@ =~= Seq::<char>::empty());
    }

    /// Borrow the contents as a byte slice: the UTF-8 encoding of the text,
    /// which is always well-formed UTF-8.
    pub fn as_bytes(&self) -> (r: &[u8])
        ensures
            r@ == encode_utf8(self@),
            valid_utf8(r@),
    {
        proof {
            use_type_invariant(self);
            decode_utf8_encode_utf8(self.buf@);
        }
        self.buf.as_slice()
    }

    /// View the contents as a `&str`.
    pub fn as_str(&self) -> (r: &str)
        ensures
            r@ == self@,
    {
        proof {
            use_type_invariant(self);
        }
        let s = str_from_utf8(self.buf.as_slice()).unwrap();
        proof {
            encode_utf8_decode_utf8(s@);
        }
        s
    }
}

/// In valid UTF-8 `bytes` whose byte at `end` starts a sequence and whose
/// later bytes all continue it, the text is the text of `bytes[..end]`
/// followed by the one char that `bytes[end..]` spells.
proof fn lemma_last_scalar(bytes: Seq<u8>, end: int)
    requires
        valid_utf8(bytes),
        0 <= end < bytes.len(),
        !is_continuation_byte(bytes[end]),
        forall|k: int| end < k < bytes.len() ==> is_continuation_byte(#[trigger] bytes[k]),
    ensures
        valid_utf8(bytes.subrange(0, end)),
        valid_utf8(bytes.subrange(end, bytes.len() as int)),
        decode_utf8(bytes.subrange(end, bytes.len() as int)).len() == 1,
        decode_utf8(bytes) == decode_utf8(bytes.subrange(0, end)) + decode_utf8(
            bytes.subrange(end, bytes.len() as int),
        ),
{
    is_char_boundary_iff_not_is_continuation_byte(bytes, end);
    valid_utf8_split(bytes, end);
    decode_utf8_split(bytes, end);
    let tail = bytes.subrange(end, bytes.len() as int);
    let rest = pop_first_scalar(tail);
    assert(valid_utf8(rest));
    if rest.len() > 0 {
        let k = length_of_first_scalar(tail);
        assert(rest[0] == tail[k]);
        assert(rest[0] == bytes[end + k]);
        assert(is_continuation_byte(rest[0]));
        assert(valid_first_scalar(rest));
        assert(false);
    }
    assert(decode_utf8(rest) =~= Seq::<char>::empty());
    assert(decode_utf8(tail) =~= seq![decode_first_scalar(tail) as char]);
}

impl<const N: usize> Default for ArrayString<N> {
    fn default() -> (r: Self)
        ensures
            r@ == Seq::<char>::empty(),
    {
        Self::new()
    }
}

} // verus!
