//! A small RFC 4180 CSV reader and writer.
//!
//! Fields are separated by a one-byte delimiter (`,` by default); a field
//! that starts with `"` is quoted, with `""` standing for one `"` and with
//! delimiters and line breaks allowed inside; rows end at LF, CR or CRLF.
//! Unquoted fields are borrowed from the input; the decoded contents of quoted
//! fields live in the reader's scratch buffer.
use vstd::prelude::*;
use crate::text::{string_from_bytes_or_empty, string_push, string_push_str, text_of};

verus! {

/// Bytes of decoded quoted-field contents the reader holds per row.
pub const SCRATCH_LEN: usize = 512;

/// Fields the reader records per row; later fields of a longer row are
/// skipped.
pub const META_LEN: usize = 256;

/// A parsed CSV field.
#[derive(Clone, Copy, Debug, PartialEq, Eq)]
pub enum Field<'a> {
    /// An unquoted field, borrowed directly from the input.
    Borrowed(&'a [u8]),
    /// A quoted/escaped field whose decoded contents live in the reader's
    /// scratch buffer.
    Buffered(&'a [u8]),
    /// A completely empty unquoted field (no bytes).
    Empty,
}

/// An error encountered while reading CSV.
#[derive(Clone, Copy, Debug, PartialEq, Eq, Structural)]
pub enum CsvError {
    /// The scratch buffer was too small for the row's quoted/escaped fields.
    BufferTooSmall,
    /// A quote was opened but never closed before end-of-input (at the
    /// opening quote's offset).
    UnterminatedQuote(usize),
}

/// The state of the row scanner between two input bytes.
#[verifier::ext_equal]
pub struct Scan {
    pub pos: usize,
    pub field_start: usize,
    pub in_quotes: bool,
    pub quoted: bool,
    pub buf_len: usize,
    pub q_start: usize,
    pub copy_from: usize,
    pub scratch: Seq<u8>,
    pub meta: Seq<(bool, usize, usize)>,
    pub row_len: usize,
}

/// What one scanner step leads to.
pub enum Step {
    /// Keep scanning from this state.
    More(Scan),
    /// The row ended; this is the final state.
    Row(Scan),
    /// The row is malformed; the state when the scan stopped.
    Fail(CsvError, Scan),
    /// A step that does not move forward within the source; scanning a
    /// source that fits in memory never leads here.
    Stuck,
}

/// Record field bounds `(quoted, start, end)` unless the row already holds
/// [`META_LEN`] fields.
pub open spec fn commit(st: Scan, quoted: bool, start: usize, end: usize) -> Scan {
    if st.row_len < META_LEN {
        Scan {
            meta: st.meta.update(st.row_len as int, (quoted, start, end)),
            row_len: (st.row_len + 1) as usize,
            ..st
        }
    } else {
        st
    }
}

/// Append the pending quoted bytes `src[copy_from..pos]` to the scratch.
pub open spec fn flush(src: Seq<u8>, st: Scan) -> Scan {
    let chunk = st.pos - st.copy_from;
    Scan {
        scratch: st.scratch.subrange(0, st.buf_len as int) + src.subrange(
            st.copy_from as int,
            st.pos as int,
        ) + st.scratch.subrange(st.buf_len + chunk, SCRATCH_LEN as int),
        buf_len: (st.buf_len + chunk) as usize,
        ..st
    }
}

/// Whether the pending quoted bytes fit in the scratch.
pub open spec fn flush_fits(st: Scan) -> bool {
    st.buf_len + (st.pos - st.copy_from) <= SCRATCH_LEN
}

/// One step of the row scanner at `st.pos` over `src` with `delim`.
pub open spec fn step(src: Seq<u8>, delim: u8, st: Scan) -> Step {
    let len = src.len();
    if st.pos >= len {
        if st.in_quotes {
            Step::Fail(CsvError::UnterminatedQuote(st.field_start), st)
        } else {
            let start = if st.quoted {
                st.q_start
            } else {
                st.field_start
            };
            let end = if st.quoted {
                st.buf_len
            } else {
                st.pos
            };
            Step::Row(commit(st, st.quoted, start, end))
        }
    } else {
        let b = src[st.pos as int];
        if st.in_quotes {
            if b == 0x22 {
                if !flush_fits(st) {
                    Step::Fail(CsvError::BufferTooSmall, st)
                } else {
                    let f = flush(src, st);
                    if st.pos + 1 < len && src[st.pos + 1] == 0x22 {
                        if f.buf_len >= SCRATCH_LEN {
                            Step::Fail(CsvError::BufferTooSmall, f)
                        } else {
                            Step::More(
                                Scan {
                                    scratch: f.scratch.update(f.buf_len as int, 0x22),
                                    buf_len: (f.buf_len + 1) as usize,
                                    copy_from: (st.pos + 2) as usize,
                                    pos: (st.pos + 2) as usize,
                                    ..f
                                },
                            )
                        }
                    } else {
                        Step::More(
                            Scan {
                                copy_from: (st.pos + 1) as usize,
                                pos: (st.pos + 1) as usize,
                                in_quotes: false,
                                ..f
                            },
                        )
                    }
                }
            } else {
                Step::More(Scan { pos: (st.pos + 1) as usize, ..st })
            }
        } else if b == 0x22 && st.pos == st.field_start {
            Step::More(
                Scan {
                    in_quotes: true,
                    quoted: true,
                    q_start: st.buf_len,
                    copy_from: (st.pos + 1) as usize,
                    pos: (st.pos + 1) as usize,
                    ..st
                },
            )
        } else if b == delim {
            let start = if st.quoted {
                st.q_start
            } else {
                st.field_start
            };
            let end = if st.quoted {
                st.buf_len
            } else {
                st.pos
            };
            let c = commit(st, st.quoted, start, end);
            Step::More(
                Scan {
                    field_start: (st.pos + 1) as usize,
                    pos: (st.pos + 1) as usize,
                    in_quotes: false,
                    quoted: false,
                    copy_from: (st.pos + 1) as usize,
                    ..c
                },
            )
        } else if b == 0x0A || b == 0x0D {
            let start = if st.quoted {
                st.q_start
            } else {
                st.field_start
            };
            let end = if st.quoted {
                st.buf_len
            } else {
                st.pos
            };
            let c = commit(st, st.quoted, start, end);
            let p1 = st.pos + 1;
            let p2 = if b == 0x0D && p1 < len && src[p1] == 0x0A {
                p1 + 1
            } else {
                p1
            };
            Step::Row(Scan { pos: p2 as usize, ..c })
        } else {
            Step::More(Scan { pos: (st.pos + 1) as usize, ..st })
        }
    }
}

/// Run the row scanner from `st` to the end of the row.
pub open spec fn scan(src: Seq<u8>, delim: u8, st: Scan) -> Step
    decreases src.len() - st.pos,
{
    match step(src, delim, st) {
        Step::More(next) => if st.pos < next.pos <= src.len() {
            scan(src, delim, next)
        } else {
            Step::Stuck
        },
        other => other,
    }
}

/// The scanner state at the start of a row at `pos`.
pub open spec fn row_start(pos: usize, scratch: Seq<u8>, meta: Seq<(bool, usize, usize)>) -> Scan {
    Scan {
        pos,
        field_start: pos,
        in_quotes: false,
        quoted: false,
        buf_len: 0,
        q_start: 0,
        copy_from: pos,
        scratch,
        meta,
        row_len: 0,
    }
}

/// The bytes of the field with bounds `m`.
pub open spec fn field_bytes(m: (bool, usize, usize), src: Seq<u8>, scratch: Seq<u8>) -> Seq<u8> {
    if m.1 == m.2 {
        Seq::empty()
    } else if m.0 {
        scratch.subrange(m.1 as int, m.2 as int)
    } else {
        src.subrange(m.1 as int, m.2 as int)
    }
}

/// Whether `f` is the field with bounds `m`: quoted fields are `Buffered`,
/// non-empty unquoted ones `Borrowed`, empty unquoted ones `Empty`.
pub open spec fn field_is(f: Field, m: (bool, usize, usize), src: Seq<u8>, scratch: Seq<u8>) -> bool {
    match f {
        Field::Buffered(b) => m.0 && b@ == field_bytes(m, src, scratch),
        Field::Borrowed(b) => !m.0 && m.1 < m.2 && b@ == field_bytes(m, src, scratch),
        Field::Empty => !m.0 && m.1 == m.2,
    }
}

/// The scratch buffer of a new reader.
pub open spec fn fresh_scratch() -> Seq<u8> {
    Seq::new(SCRATCH_LEN as nat, |i: int| 0u8)
}

/// The field bounds of a new reader.
pub open spec fn fresh_meta() -> Seq<(bool, usize, usize)> {
    Seq::new(META_LEN as nat, |i: int| (false, 0usize, 0usize))
}

/// A streaming RFC 4180 CSV reader. Borrows its input; never allocates.
pub struct Reader<'a> {
    src: &'a [u8],
    pos: usize,
    delimiter: u8,
    scratch: [u8; 512],
    meta: [(bool, usize, usize); 256],
    row_len: usize,
}

/// Field bounds that a scratch of [`SCRATCH_LEN`] bytes and a source of
/// `src_len` bytes can hold.
pub open spec fn meta_ok(m: (bool, usize, usize), src_len: nat) -> bool {
    &&& m.1 <= m.2
    &&& !m.0 ==> m.2 <= src_len
    &&& m.0 ==> m.2 <= SCRATCH_LEN
}

/// The invariant of a scanner state over a source of `src_len` bytes.
pub open spec fn scan_ok(st: Scan, src_len: nat) -> bool {
    &&& st.pos <= src_len
    &&& st.field_start <= st.pos
    &&& st.copy_from <= st.pos
    &&& st.q_start <= st.buf_len <= SCRATCH_LEN
    &&& st.scratch.len() == SCRATCH_LEN
    &&& st.meta.len() == META_LEN
    &&& st.row_len <= META_LEN
    &&& forall|i: int| 0 <= i < META_LEN ==> #[trigger] meta_ok(st.meta[i], src_len)
}

impl<'a> Reader<'a> {
    #[verifier::type_invariant]
    spec fn wf(self) -> bool {
        &&& self.pos <= self.src@.len()
        &&& self.row_len <= META_LEN
        &&& forall|i: int| 0 <= i < META_LEN ==> #[trigger] meta_ok(self.meta@[i], self.src@.len())
    }

    /// The input.
    pub closed spec fn src(&self) -> Seq<u8> {
        self.src@
    }

    /// The current byte offset.
    pub closed spec fn pos(&self) -> usize {
        self.pos
    }

    /// The delimiter byte.
    pub closed spec fn delimiter(&self) -> u8 {
        self.delimiter
    }

    /// The decoded bytes of quoted fields.
    pub closed spec fn scratch(&self) -> Seq<u8> {
        self.scratch@
    }

    /// Per-field `(quoted, start, end)` bounds of the current row.
    pub closed spec fn meta(&self) -> Seq<(bool, usize, usize)> {
        self.meta@
    }

    /// Number of fields recorded for the current row.
    pub closed spec fn spec_row_len(&self) -> usize {
        self.row_len
    }

    /// The state a row scan from the current position starts in.
    pub open spec fn start_state(&self) -> Scan {
        row_start(self.pos(), self.scratch(), self.meta())
    }

    /// Whether the reader's position, scratch and fields are those of `st`.
    pub open spec fn holds(&self, st: Scan) -> bool {
        &&& self.pos() == st.pos
        &&& self.scratch() == st.scratch
        &&& self.meta() == st.meta
        &&& self.spec_row_len() == st.row_len
    }

    /// Create a reader over `src` using `,` as the delimiter.
    pub fn new(src: &'a [u8]) -> (r: Reader<'a>)
        ensures
            r.src() == src@,
            r.pos() == 0,
            r.delimiter() == 0x2C,
            r.spec_row_len() == 0,
            forall|i: int| 0 <= i < META_LEN ==> r.meta()[i] == (false, 0usize, 0usize),
            r.scratch() == fresh_scratch(),
            r.meta() == fresh_meta(),
    {
        Reader::with_delimiter(src, 0x2C)
    }

    /// Create a reader with a custom single-byte delimiter.
    pub fn with_delimiter(src: &'a [u8], delimiter: u8) -> (r: Reader<'a>)
        ensures
            r.src() == src@,
            r.pos() == 0,
            r.delimiter() == delimiter,
            r.spec_row_len() == 0,
            forall|i: int| 0 <= i < META_LEN ==> r.meta()[i] == (false, 0usize, 0usize),
            r.scratch() == fresh_scratch(),
            r.meta() == fresh_meta(),
    {
        let r = Reader {
            src,
            pos: 0,
            delimiter,
            scratch: [0u8; 512],
            meta: [(false, 0usize, 0usize); 256],
            row_len: 0,
        };
        assert(r.scratch@ =~= fresh_scratch());
        assert(r.meta@ =~= fresh_meta());
        r
    }

    /// The scanner state made of the reader's fields and the row locals.
    pub closed spec fn state(
        &self,
        field_start: usize,
        in_quotes: bool,
        quoted: bool,
        buf_len: usize,
        q_start: usize,
        copy_from: usize,
    ) -> Scan {
        Scan {
            pos: self.pos,
            field_start,
            in_quotes,
            quoted,
            buf_len,
            q_start,
            copy_from,
            scratch: self.scratch@,
            meta: self.meta@,
            row_len: self.row_len,
        }
    }

    fn commit_field(&mut self, quoted: bool, start: usize, end: usize)
        requires
            meta_ok((quoted, start, end), old(self).src@.len()),
        ensures
            final(self).src@ == old(self).src@,
            final(self).delimiter == old(self).delimiter,
            final(self).pos == old(self).pos,
            final(self).scratch@ == old(self).scratch@,
            ({
                let c = commit(old(self).state(0, false, false, 0, 0, 0), quoted, start, end);
                &&& final(self).meta@ == c.meta
                &&& final(self).row_len == c.row_len
            }),
    {
        proof {
            use_type_invariant(&*self);
        }
        if self.row_len < 256 {
            let k = self.row_len;
            self.meta[k] = (quoted, start, end);
            self.row_len = k + 1;
        }
    }

    /// Copy `src[copy_from..pos]` into the scratch at `buf_len`.
    fn flush_chunk(&mut self, buf_len: usize, copy_from: usize)
        requires
            copy_from <= old(self).pos,
            buf_len + (old(self).pos - copy_from) <= SCRATCH_LEN,
        ensures
            final(self).src@ == old(self).src@,
            final(self).delimiter == old(self).delimiter,
            final(self).pos == old(self).pos,
            final(self).meta@ == old(self).meta@,
            final(self).row_len == old(self).row_len,
            final(self).scratch@ == flush(
                old(self).src@,
                old(self).state(0, true, true, buf_len, 0, copy_from),
            ).scratch,
    {
        proof {
            use_type_invariant(&*self);
        }
        let chunk = self.pos - copy_from;
        let ghost prev = self.scratch@;
        let mut k = 0usize;
        while k < chunk
            invariant
                chunk == self.pos - copy_from,
                buf_len + chunk <= SCRATCH_LEN,
                copy_from + chunk <= self.src@.len(),
                self.src@ == old(self).src@,
                self.delimiter == old(self).delimiter,
                self.pos == old(self).pos,
                self.meta@ == old(self).meta@,
                self.row_len == old(self).row_len,
                prev == old(self).scratch@,
                self.scratch@.len() == SCRATCH_LEN,
                self.pos <= self.src@.len(),
                self.row_len <= META_LEN,
                forall|i: int| 0 <= i < META_LEN ==> #[trigger] meta_ok(self.meta@[i], self.src@.len()),
                k <= chunk,
                forall|j: int| 0 <= j < buf_len ==> self.scratch@[j] == prev[j],
                forall|j: int| buf_len + chunk <= j < SCRATCH_LEN ==> self.scratch@[j] == prev[j],
                forall|j: int| buf_len <= j < buf_len + k ==> self.scratch@[j] == self.src@[copy_from + (j - buf_len)],
            decreases chunk - k,
        {
            let b = self.src[copy_from + k];
            self.scratch[buf_len + k] = b;
            k += 1;
        }
        proof {
            let f = flush(
                old(self).src@,
                old(self).state(0, true, true, buf_len, 0, copy_from),
            );
            assert(self.scratch@ =~= f.scratch);
        }
    }

    /// Read the next row. Returns `Ok(Some(n))` with `n` fields (query each
    /// via [`Reader::field`]), `Ok(None)` at end-of-input, or `Err(_)` on a
    /// malformed row (a scratch buffer too small for the quoted fields).
    pub fn next_row(&mut self) -> (r: Result<Option<usize>, CsvError>)
        ensures
            final(self).src() == old(self).src(),
            final(self).delimiter() == old(self).delimiter(),
            old(self).pos() >= old(self).src().len() ==> r == Ok::<Option<usize>, CsvError>(None)
                && final(self).pos() == old(self).pos() && final(self).scratch() == old(self).scratch()
                && final(self).meta() == old(self).meta() && final(self).spec_row_len() == old(
                self,
            ).spec_row_len(),
            old(self).pos() < old(self).src().len() ==> match scan(
                old(self).src(),
                old(self).delimiter(),
                old(self).start_state(),
            ) {
                Step::Row(st) => r == Ok::<Option<usize>, CsvError>(Some(st.row_len))
                    && final(self).holds(st),
                Step::Fail(e, st) => r == Err::<Option<usize>, CsvError>(e) && final(self).holds(st),
                _ => false,
            },
    {
        proof {
            use_type_invariant(&*self);
        }
        let len = self.src.len();
        if self.pos >= len {
            return Ok(None);
        }
        let ghost src = self.src@;
        let ghost delim = self.delimiter;
        let ghost target = scan(src, delim, old(self).start_state());
        proof {
            lemma_scan_not_stuck(src, delim, old(self).start_state());
        }
        self.row_len = 0;
        let mut field_start = self.pos;
        let mut in_quotes = false;
        let mut quoted = false;
        let mut buf_len = 0usize;
        let mut q_start = 0usize;
        let mut copy_from = field_start;
        proof {
            assert(self.state(field_start, in_quotes, quoted, buf_len, q_start, copy_from)
                =~= old(self).start_state());
        }
        loop
            invariant
                len == src.len(),
                src == self.src@,
                delim == self.delimiter,
                src == old(self).src(),
                delim == old(self).delimiter(),
                target == scan(src, delim, old(self).start_state()),
                old(self).pos() < len,
                !(target is Stuck),
                scan_ok(self.state(field_start, in_quotes, quoted, buf_len, q_start, copy_from), len as nat),
                scan(src, delim, self.state(field_start, in_quotes, quoted, buf_len, q_start, copy_from))
                    == target,
            decreases len - self.pos,
        {
            let ghost cur = self.state(field_start, in_quotes, quoted, buf_len, q_start, copy_from);
            proof {
                use_type_invariant(&*self);
            }
            if self.pos >= len {
                if in_quotes {
                    return Err(CsvError::UnterminatedQuote(field_start));
                }
                let start = if quoted {
                    q_start
                } else {
                    field_start
                };
                let end = if quoted {
                    buf_len
                } else {
                    self.pos
                };
                self.commit_field(quoted, start, end);
                proof {
                    assert(self.holds(commit(cur, cur.quoted, start, end)));
                }
                return Ok(Some(self.row_len));
            }
            let pos = self.pos;
            let b = self.src[pos];
            if in_quotes {
                if b == 0x22 {
                    if pos - copy_from > 512 - buf_len {
                        return Err(CsvError::BufferTooSmall);
                    }
                    self.flush_chunk(buf_len, copy_from);
                    buf_len += pos - copy_from;
                    let ghost f = flush(src, cur);
                    if pos + 1 < len && self.src[pos + 1] == 0x22 {
                        if buf_len >= 512 {
                            proof {
                                assert(step(src, delim, cur) == Step::Fail(CsvError::BufferTooSmall, f));
                                assert(self.holds(f));
                            }
                            return Err(CsvError::BufferTooSmall);
                        }
                        self.scratch[buf_len] = 0x22;
                        buf_len += 1;
                        copy_from = pos + 2;
                        self.pos = pos + 2;
                    } else {
                        copy_from = pos + 1;
                        self.pos = pos + 1;
                        in_quotes = false;
                    }
                } else {
                    self.pos = pos + 1;
                }
            } else if b == 0x22 && pos == field_start {
                in_quotes = true;
                quoted = true;
                q_start = buf_len;
                copy_from = pos + 1;
                self.pos = pos + 1;
            } else if b == self.delimiter {
                let start = if quoted {
                    q_start
                } else {
                    field_start
                };
                let end = if quoted {
                    buf_len
                } else {
                    pos
                };
                self.commit_field(quoted, start, end);
                field_start = pos + 1;
                self.pos = field_start;
                in_quotes = false;
                quoted = false;
                copy_from = field_start;
            } else if b == 0x0A || b == 0x0D {
                let start = if quoted {
                    q_start
                } else {
                    field_start
                };
                let end = if quoted {
                    buf_len
                } else {
                    pos
                };
                self.commit_field(quoted, start, end);
                let mut p = pos + 1;
                if b == 0x0D && p < len && self.src[p] == 0x0A {
                    p += 1;
                }
                self.pos = p;
                return Ok(Some(self.row_len));
            } else {
                self.pos = pos + 1;
            }
            proof {
                let next = self.state(field_start, in_quotes, quoted, buf_len, q_start, copy_from);
                assert(step(src, delim, cur) == Step::More(next));
            }
        }
    }

    /// The field at `index` in the current row. Borrows the reader; copy the
    /// bytes out if you need to retain them past the next `next_row`.
    pub fn field(&self, index: usize) -> (r: Field<'_>)
        requires
            index < META_LEN,
        ensures
            field_is(r, self.meta()[index as int], self.src(), self.scratch()),
    {
        proof {
            use_type_invariant(self);
            assert(meta_ok(self.meta@[index as int], self.src@.len()));
        }
        let (quoted, start, end) = self.meta[index];
        let scratch = self.scratch.as_slice();
        assert(scratch@ == self.scratch@);
        assert(scratch@.len() == SCRATCH_LEN);
        if quoted {
            if start == end {
                let empty: &[u8] = &[];
                proof {
                    assert(empty@ =~= Seq::<u8>::empty());
                }
                Field::Buffered(empty)
            } else {
                Field::Buffered(vstd::slice::slice_subrange(scratch, start, end))
            }
        } else if start == end {
            Field::Empty
        } else {
            Field::Borrowed(vstd::slice::slice_subrange(self.src, start, end))
        }
    }

    /// Current byte offset.
    pub fn position(&self) -> (r: usize)
        ensures
            r == self.pos(),
    {
        self.pos
    }

    /// Number of fields in the most recently read row.
    pub fn row_len(&self) -> (r: usize)
        ensures
            r == self.spec_row_len(),
    {
        self.row_len
    }
}

/// Every step that keeps scanning moves forward within the source.
proof fn lemma_scan_not_stuck(src: Seq<u8>, delim: u8, st: Scan)
    requires
        src.len() <= usize::MAX,
        st.pos <= src.len(),
    ensures
        !(scan(src, delim, st) is Stuck),
    decreases src.len() - st.pos,
{
    match step(src, delim, st) {
        Step::More(next) => {
            assert(st.pos < next.pos <= src.len());
            lemma_scan_not_stuck(src, delim, next);
        },
        _ => {},
    }
}

proof fn lemma_scan_progress(src: Seq<u8>, delim: u8, st: Scan)
    requires
        src.len() <= usize::MAX,
        st.pos <= src.len(),
    ensures
        scan(src, delim, st) matches Step::Row(r) ==> r.pos >= st.pos && r.pos <= src.len() && (
        st.pos < src.len() ==> r.pos > st.pos),
    decreases src.len() - st.pos,
{
    match step(src, delim, st) {
        Step::More(next) => {
            if st.pos < next.pos <= src.len() {
                lemma_scan_progress(src, delim, next);
            }
        },
        _ => {},
    }
}

/// The texts of the recorded fields of the row in `st` (a field that is not
/// well-formed UTF-8 reads as empty).
pub open spec fn row_texts(src: Seq<u8>, st: Scan) -> Seq<Seq<char>> {
    Seq::new(st.row_len as nat, |i: int| text_of(field_bytes(st.meta[i], src, st.scratch)))
}

/// The rows of a comma-separated `src` read from byte `pos` on, with the
/// reader's scratch and field bounds as given; `Err` at the first malformed
/// row. (`None` only where a scan would not move forward, which no source
/// that fits in memory leads to.)
pub open spec fn records_from(
    src: Seq<u8>,
    pos: usize,
    scratch: Seq<u8>,
    meta: Seq<(bool, usize, usize)>,
) -> Option<Result<Seq<Seq<Seq<char>>>, CsvError>>
    decreases src.len() - pos,
{
    if pos >= src.len() {
        Some(Ok(Seq::empty()))
    } else {
        match scan(src, 0x2C, row_start(pos, scratch, meta)) {
            Step::Row(st) => if pos < st.pos <= src.len() {
                match records_from(src, st.pos, st.scratch, st.meta) {
                    Some(Ok(rest)) => Some(Ok(seq![row_texts(src, st)] + rest)),
                    other => other,
                }
            } else {
                None
            },
            Step::Fail(e, _) => Some(Err(e)),
            _ => None,
        }
    }
}

/// The rows of a comma-separated `src` as texts, or the first error.
pub open spec fn records(src: Seq<u8>) -> Option<Result<Seq<Seq<Seq<char>>>, CsvError>> {
    records_from(src, 0, fresh_scratch(), fresh_meta())
}

/// An owned CSV row (heap-allocated `String` fields).
#[derive(Clone, Debug, PartialEq, Eq)]
pub struct OwnedRecord {
    pub fields: Vec<String>,
}

/// The texts of a record's fields.
pub open spec fn record_view(r: OwnedRecord) -> Seq<Seq<char>> {
    r.fields@.map_values(|s: String| s@)
}

/// The texts of a sequence of records.
pub open spec fn records_view(rs: Seq<OwnedRecord>) -> Seq<Seq<Seq<char>>> {
    rs.map_values(|r: OwnedRecord| record_view(r))
}

impl OwnedRecord {
    /// Number of fields.
    pub fn len(&self) -> (r: usize)
        ensures
            r == self.fields@.len(),
    {
        self.fields.len()
    }

    /// Whether the record has no fields.
    pub fn is_empty(&self) -> (r: bool)
        ensures
            r == (self.fields@.len() == 0),
    {
        self.fields.len() == 0
    }

    /// Field `i` as a string slice.
    pub fn get(&self, i: usize) -> (r: Option<&str>)
        ensures
            i < self.fields@.len() ==> (r matches Some(s) && s@ == self.fields@[i as int]@),
            i >= self.fields@.len() ==> r is None,
    {
        if i < self.fields.len() {
            Some(self.fields[i].as_str())
        } else {
            None
        }
    }
}

/// Read all records from `src`, returning owned rows.
pub fn read_records(src: &[u8]) -> (r: Result<Vec<OwnedRecord>, CsvError>)
    ensures
        records(src@) == Some(
            match r {
                Ok(v) => Ok(records_view(v@)),
                Err(e) => Err(e),
            },
        ),
{
    let total = src.len();
    let mut reader = Reader::new(src);
    let mut out: Vec<OwnedRecord> = Vec::new();
    let ghost target = records(src@);
    loop
        invariant
            src@.len() == total,
            reader.src() == src@,
            reader.delimiter() == 0x2C,
            target == records(src@),
            target == match records_from(src@, reader.pos(), reader.scratch(), reader.meta()) {
                Some(Ok(rest)) => Some(Ok(records_view(out@) + rest)),
                other => other,
            },
        decreases src@.len() - reader.pos(),
    {
        let ghost before = reader.start_state();
        let ghost old_pos = reader.pos();
        proof {
            use_type_invariant(&reader);
            if reader.pos() < src@.len() {
                lemma_scan_progress(src@, 0x2C, before);
            }
        }
        match reader.next_row() {
            Ok(Some(n)) => {
                let ghost st = scan(src@, 0x2C, before)->Row_0;
                proof {
                    use_type_invariant(&reader);
                }
                let mut fields: Vec<String> = Vec::new();
                let mut i = 0usize;
                while i < n
                    invariant
                        i <= n,
                        n == st.row_len,
                        reader.holds(st),
                        reader.src() == src@,
                        st.row_len <= META_LEN,
                        fields@.len() == i,
                        forall|k: int| 0 <= k < i ==> #[trigger] fields@[k]@ == row_texts(src@, st)[k],
                    decreases n - i,
                {
                    let s = match reader.field(i) {
                        Field::Borrowed(b) => string_from_bytes_or_empty(b),
                        Field::Buffered(b) => string_from_bytes_or_empty(b),
                        Field::Empty => String::new(),
                    };
                    proof {
                        assert(text_of(Seq::<u8>::empty()) =~= Seq::<char>::empty());
                    }
                    fields.push(s);
                    i += 1;
                }
                let ghost prev = out@;
                out.push(OwnedRecord { fields });
                proof {
                    assert(record_view(out@.last()) =~= row_texts(src@, st));
                    assert(records_view(out@) =~= records_view(prev) + seq![row_texts(src@, st)]);
                    match records_from(src@, reader.pos(), reader.scratch(), reader.meta()) {
                        Some(Ok(rest)) => {
                            assert(records_view(out@) + rest =~= records_view(prev) + (seq![
                                row_texts(src@, st),
                            ] + rest));
                        },
                        _ => {},
                    }
                }
            },
            Ok(None) => {
                proof {
                    assert(records_view(out@) + Seq::<Seq<Seq<char>>>::empty() =~= records_view(
                        out@,
                    ));
                }
                return Ok(out);
            },
            Err(e) => {
                return Err(e);
            },
        }
    }
}

proof fn lemma_contains_push(s: Seq<char>, c: char, x: char)
    ensures
        s.push(c).contains(x) == (s.contains(x) || c == x),
{
    if s.contains(x) {
        let j = choose|j: int| 0 <= j < s.len() && s[j] == x;
        assert(s.push(c)[j] == x);
    }
    if c == x {
        assert(s.push(c)[s.len() as int] == x);
    }
    if s.push(c).contains(x) {
        let j = choose|j: int| 0 <= j < s.push(c).len() && s.push(c)[j] == x;
        if j < s.len() {
            assert(s[j] == x);
        }
    }
}

/// Whether a field must be written quoted: it holds the delimiter, a quote,
/// or a line break.
pub open spec fn needs_quote(f: Seq<char>, delim: char) -> bool {
    f.contains(delim) || f.contains('"') || f.contains('\n') || f.contains('\r')
}

/// `f` with every `"` doubled.
pub open spec fn escape_quotes(f: Seq<char>) -> Seq<char>
    decreases f.len(),
{
    if f.len() == 0 {
        Seq::empty()
    } else if f.last() == '"' {
        escape_quotes(f.drop_last()) + seq!['"', '"']
    } else {
        escape_quotes(f.drop_last()).push(f.last())
    }
}

/// How one field is written.
pub open spec fn field_text(f: Seq<char>, delim: char) -> Seq<char> {
    if needs_quote(f, delim) {
        seq!['"'] + escape_quotes(f) + seq!['"']
    } else {
        f
    }
}

/// The fields as written, separated by the delimiter.
pub open spec fn joined_fields(fields: Seq<Seq<char>>, delim: char) -> Seq<char>
    decreases fields.len(),
{
    if fields.len() == 0 {
        Seq::empty()
    } else if fields.len() == 1 {
        field_text(fields[0], delim)
    } else {
        joined_fields(fields.drop_last(), delim).push(delim) + field_text(fields.last(), delim)
    }
}

/// How one record is written: its fields, then a line feed.
pub open spec fn record_text(fields: Seq<Seq<char>>, delim: char) -> Seq<char> {
    joined_fields(fields, delim).push('\n')
}

/// How the writer writes one field: as it is, unless it holds the
/// delimiter, a `"`, a line feed or a carriage return; then between `"`s,
/// with every `"` inside doubled (and nothing else changed).
pub proof fn lemma_field_text(f: Seq<char>, d: char, a: Seq<char>, b: Seq<char>, c: char)
    ensures
        !(f.contains(d) || f.contains('"') || f.contains('\n') || f.contains('\r')) ==> field_text(
            f,
            d,
        ) == f,
        (f.contains(d) || f.contains('"') || f.contains('\n') || f.contains('\r')) ==> field_text(
            f,
            d,
        ) == seq!['"'] + escape_quotes(f) + seq!['"'],
        escape_quotes(a + b) == escape_quotes(a) + escape_quotes(b),
        escape_quotes(seq![c]) == if c == '"' {
            seq!['"', '"']
        } else {
            seq![c]
        },
{
    lemma_escape_quotes_concat(a, b);
    assert(seq![c].drop_last() =~= Seq::<char>::empty());
    assert(seq![c].last() == c);
    assert(escape_quotes(Seq::<char>::empty()) =~= Seq::<char>::empty());
    assert(Seq::<char>::empty() + seq!['"', '"'] =~= seq!['"', '"']);
    assert(Seq::<char>::empty().push(c) =~= seq![c]);
}

proof fn lemma_escape_quotes_concat(a: Seq<char>, b: Seq<char>)
    ensures
        escape_quotes(a + b) == escape_quotes(a) + escape_quotes(b),
    decreases b.len(),
{
    if b.len() == 0 {
        assert(a + b =~= a);
        assert(escape_quotes(a) + escape_quotes(b) =~= escape_quotes(a));
    } else {
        assert((a + b).drop_last() =~= a + b.drop_last());
        assert((a + b).last() == b.last());
        lemma_escape_quotes_concat(a, b.drop_last());
        if b.last() == '"' {
            assert(escape_quotes(a + b) =~= escape_quotes(a) + (escape_quotes(b.drop_last())
                + seq!['"', '"']));
        } else {
            assert(escape_quotes(a + b) =~= escape_quotes(a) + escape_quotes(b.drop_last()).push(
                b.last(),
            ));
        }
    }
}

/// A CSV writer that builds its output into a `String`.
pub struct Writer {
    out: String,
    delimiter: u8,
}

impl Writer {
    /// The text written so far.
    pub closed spec fn text(&self) -> Seq<char> {
        self.out@
    }

    /// The delimiter byte.
    pub closed spec fn delim(&self) -> u8 {
        self.delimiter
    }

    /// Create a writer with `,` delimiter.
    pub fn new() -> (w: Self)
        ensures
            w.text() == Seq::<char>::empty(),
            w.delim() == 0x2C,
    {
        Writer { out: String::new(), delimiter: 0x2C }
    }

    /// Create a writer with a custom delimiter.
    pub fn with_delimiter(delimiter: u8) -> (w: Self)
        ensures
            w.text() == Seq::<char>::empty(),
            w.delim() == delimiter,
    {
        Writer { out: String::new(), delimiter }
    }

    /// Append one record (a list of field strings): the fields, each quoted
    /// (with `"` doubled) when it holds the delimiter, a quote or a line
    /// break, separated by the delimiter and followed by a line feed.
    pub fn write_record(&mut self, fields: &[&str])
        ensures
            final(self).delim() == old(self).delim(),
            final(self).text() == old(self).text() + record_text(
                fields@.map_values(|f: &str| f@),
                old(self).delim() as char,
            ),
    {
        let ghost views = fields@.map_values(|f: &str| f@);
        let ghost start = self.out@;
        let d = self.delimiter as char;
        let mut i: usize = 0;
        while i < fields.len()
            invariant
                i <= fields@.len(),
                views == fields@.map_values(|f: &str| f@),
                d == self.delimiter as char,
                self.delimiter == old(self).delimiter,
                start == old(self).out@,
                self.out@ == start + joined_fields(views.take(i as int), d),
            decreases fields@.len() - i,
        {
            let f = fields[i];
            if i > 0 {
                string_push(&mut self.out, d);
            }
            let ghost before = self.out@;
            let mut has_delim = false;
            let mut has_quote = false;
            let mut has_lf = false;
            let mut has_cr = false;
            for c in it: f.chars()
                invariant
                    it.seq() == f@,
                    has_delim == it.seq().take(it.index()).contains(d),
                    has_quote == it.seq().take(it.index()).contains('"'),
                    has_lf == it.seq().take(it.index()).contains('\n'),
                    has_cr == it.seq().take(it.index()).contains('\r'),
            {
                proof {
                    let pre = it.seq().take(it.index());
                    assert(it.seq().take(it.index() + 1) =~= pre.push(c));
                    lemma_contains_push(pre, c, d);
                    lemma_contains_push(pre, c, '"');
                    lemma_contains_push(pre, c, '\n');
                    lemma_contains_push(pre, c, '\r');
                }
                if c == d {
                    has_delim = true;
                }
                if c == '"' {
                    has_quote = true;
                }
                if c == '\n' {
                    has_lf = true;
                }
                if c == '\r' {
                    has_cr = true;
                }
            }
            proof {
                assert(f@.take(f@.len() as int) =~= f@);
            }
            if has_delim || has_quote || has_lf || has_cr {
                string_push(&mut self.out, '"');
                let ghost open_at = self.out@;
                for c in it: f.chars()
                    invariant
                        it.seq() == f@,
                        self.delimiter == old(self).delimiter,
                        self.out@ == open_at + escape_quotes(it.seq().take(it.index())),
                {
                    proof {
                        assert(it.seq().take(it.index() + 1).drop_last() =~= it.seq().take(it.index()));
                    }
                    if c == '"' {
                        string_push(&mut self.out, '"');
                    }
                    string_push(&mut self.out, c);
                    proof {
                        assert(self.out@ =~= open_at + escape_quotes(it.seq().take(it.index() + 1)));
                    }
                }
                string_push(&mut self.out, '"');
                proof {
                    assert(self.out@ =~= before + field_text(f@, d));
                }
            } else {
                string_push_str(&mut self.out, f);
            }
            proof {
                assert(views[i as int] == f@);
                assert(views.take(i + 1).drop_last() =~= views.take(i as int));
                if i == 0 {
                    assert(self.out@ =~= start + joined_fields(views.take(1), d));
                } else {
                    assert(self.out@ =~= start + joined_fields(views.take(i + 1), d));
                }
            }
            i += 1;
        }
        proof {
            assert(views.take(fields@.len() as int) =~= views);
        }
        string_push(&mut self.out, '\n');
        proof {
            assert(self.out@ =~= start + record_text(views, d));
        }
    }

    /// Finish and return the serialized CSV.
    pub fn into_string(self) -> (s: String)
        ensures
            s@ == self.text(),
    {
        self.out
    }
}

impl Default for Writer {
    fn default() -> (w: Self)
        ensures
            w.text() == Seq::<char>::empty(),
            w.delim() == 0x2C,
    {
        Self::new()
    }
}

/// The text a comma-separated [`Writer`] produces for `rows`, written in
/// order.
pub open spec fn records_text(rows: Seq<Seq<Seq<char>>>) -> Seq<char>
    decreases rows.len(),
{
    if rows.len() == 0 {
        Seq::empty()
    } else {
        record_text(rows[0], ',') + records_text(rows.drop_first())
    }
}

/// The joined first `k + 1` fields are the joined first `k`, a comma and
/// field `k`.
pub(crate) proof fn lemma_joined_step(r: Seq<Seq<char>>, k: int)
    requires
        0 <= k < r.len(),
    ensures
        k == 0 ==> joined_fields(r.take(k + 1), ',') == field_text(r[0], ','),
        k > 0 ==> joined_fields(r.take(k + 1), ',') == joined_fields(r.take(k), ',').push(',')
            + field_text(r[k], ','),
{
    assert(r.take(k + 1).drop_last() =~= r.take(k));
    assert(r.take(k + 1).last() == r[k]);
    if k == 0 {
        assert(r.take(1)[0] == r[0]);
    }
}

/// The joined first `k` fields begin the joined first `m >= k`.
pub(crate) proof fn lemma_joined_prefix(r: Seq<Seq<char>>, k: int, m: int)
    requires
        0 <= k <= m <= r.len(),
    ensures
        joined_fields(r.take(k), ',').len() <= joined_fields(r.take(m), ',').len(),
        joined_fields(r.take(m), ',').take(joined_fields(r.take(k), ',').len() as int)
            == joined_fields(r.take(k), ','),
    decreases m - k,
{
    if k == m {
        assert(joined_fields(r.take(m), ',').take(joined_fields(r.take(k), ',').len() as int)
            =~= joined_fields(r.take(k), ','));
    } else {
        lemma_joined_prefix(r, k, m - 1);
        lemma_joined_step(r, m - 1);
        let a = joined_fields(r.take(k), ',');
        let b = joined_fields(r.take(m - 1), ',');
        let c = joined_fields(r.take(m), ',');
        if m - 1 == 0 {
            assert(k == 0);
            assert(r.take(0) =~= Seq::<Seq<char>>::empty());
            assert(a =~= Seq::<char>::empty());
            assert(c.take(0) =~= a);
        } else {
            assert(c.take(a.len() as int) =~= b.take(a.len() as int));
        }
    }
}

/// A byte that an unquoted field can hold without ending it.
pub open spec fn plain_byte(b: u8) -> bool {
    b != 0x22 && b != 0x2C && b != 0x0A && b != 0x0D
}

/// The scanner moves over plain bytes of an unquoted field one by one.
pub(crate) proof fn lemma_skip_plain(src: Seq<u8>, st: Scan, e: int)
    requires
        !st.in_quotes,
        st.pos <= e <= src.len() <= usize::MAX,
        forall|k: int| st.pos <= k < e ==> plain_byte(#[trigger] src[k]),
    ensures
        scan(src, 0x2C, st) == scan(src, 0x2C, Scan { pos: e as usize, ..st }),
    decreases e - st.pos,
{
    if st.pos < e {
        let next = Scan { pos: (st.pos + 1) as usize, ..st };
        assert(plain_byte(src[st.pos as int]));
        assert(step(src, 0x2C, st) == Step::More(next));
        lemma_skip_plain(src, next, e);
        assert(Scan { pos: e as usize, ..next } == Scan { pos: e as usize, ..st });
    } else {
        assert(Scan { pos: e as usize, ..st } == st);
    }
}

} // verus!
