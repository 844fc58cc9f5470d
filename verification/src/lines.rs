//! Line splitting, blank trimming and byte search for the line-based
//! configuration formats.
use vstd::prelude::*;

verus! {

/// The index of the first line feed at or after `pos`, or the end.
pub open spec fn line_break(input: Seq<u8>, pos: int) -> int
    decreases input.len() - pos,
{
    if 0 <= pos < input.len() && input[pos] != 0x0A {
        line_break(input, pos + 1)
    } else {
        pos
    }
}

/// Where the line that starts at `pos` and runs to the line feed at `brk`
/// ends once a trailing carriage return is dropped.
pub open spec fn content_end(input: Seq<u8>, pos: int, brk: int) -> int {
    if brk > pos && input[brk - 1] == 0x0D {
        brk - 1
    } else {
        brk
    }
}

/// Where the line after the one that ends at `brk` starts.
pub open spec fn next_line(input: Seq<u8>, brk: int) -> int {
    if brk < input.len() {
        brk + 1
    } else {
        brk
    }
}

/// A space or a tab.
pub open spec fn is_blank(b: u8) -> bool {
    b == 0x20 || b == 0x09
}

/// The first index at or after `i` that holds no blank.
pub open spec fn blank_run_end(s: Seq<u8>, i: int) -> int
    decreases s.len() - i,
{
    if 0 <= i < s.len() && is_blank(s[i]) {
        blank_run_end(s, i + 1)
    } else {
        i
    }
}

/// The least index above `start`, at or below `j`, after which `s[..j]`
/// holds only blanks.
pub open spec fn blank_tail_start(s: Seq<u8>, start: int, j: int) -> int
    decreases j - start,
{
    if j > start && is_blank(s[j - 1]) {
        blank_tail_start(s, start, j - 1)
    } else {
        j
    }
}

/// `s` without its leading and trailing spaces and tabs.
pub open spec fn trimmed(s: Seq<u8>) -> Seq<u8> {
    let a = blank_run_end(s, 0);
    s.subrange(a, blank_tail_start(s, a, s.len() as int))
}

/// The first index at or after `i` that holds `a` or `b`.
pub open spec fn first_of(s: Seq<u8>, i: int, a: u8, b: u8) -> Option<int>
    decreases s.len() - i,
{
    if !(0 <= i < s.len()) {
        None
    } else if s[i] == a || s[i] == b {
        Some(i)
    } else {
        first_of(s, i + 1, a, b)
    }
}

proof fn lemma_blank_run_end(s: Seq<u8>, i: int)
    requires
        0 <= i <= s.len(),
    ensures
        i <= blank_run_end(s, i) <= s.len(),
    decreases s.len() - i,
{
    if i < s.len() && is_blank(s[i]) {
        lemma_blank_run_end(s, i + 1);
    }
}

proof fn lemma_blank_tail_start(s: Seq<u8>, start: int, j: int)
    requires
        0 <= start <= j <= s.len(),
    ensures
        start <= blank_tail_start(s, start, j) <= j,
    decreases j - start,
{
    if j > start && is_blank(s[j - 1]) {
        lemma_blank_tail_start(s, start, j - 1);
    }
}

/// `first_of` finds the first `a` or `b` at `j` when `s[i..j]` holds neither.
pub proof fn lemma_first_of_at(s: Seq<u8>, i: int, j: int, a: u8, b: u8)
    requires
        0 <= i <= j < s.len(),
        forall|k: int| i <= k < j ==> s[k] != a && s[k] != b,
        s[j] == a || s[j] == b,
    ensures
        first_of(s, i, a, b) == Some(j),
    decreases j - i,
{
    if i < j {
        lemma_first_of_at(s, i + 1, j, a, b);
    }
}

/// `first_of` finds nothing when `s[i..]` holds neither byte.
pub proof fn lemma_first_of_none(s: Seq<u8>, i: int, a: u8, b: u8)
    requires
        0 <= i,
        forall|k: int| i <= k < s.len() ==> s[k] != a && s[k] != b,
    ensures
        first_of(s, i, a, b) is None,
    decreases s.len() - i,
{
    if i < s.len() {
        lemma_first_of_none(s, i + 1, a, b);
    }
}

/// The line that starts at `i` breaks at `j` when `s[i..j]` holds no line
/// feed and `s[j]` is one.
pub proof fn lemma_line_break_at(s: Seq<u8>, i: int, j: int)
    requires
        0 <= i <= j < s.len(),
        forall|k: int| i <= k < j ==> s[k] != 0x0A,
        s[j] == 0x0A,
    ensures
        line_break(s, i) == j,
    decreases j - i,
{
    if i < j {
        lemma_line_break_at(s, i + 1, j);
    }
}

/// The blanks before the trimmed text and the trimmed text fit in `s`.
pub(crate) proof fn lemma_trimmed_len(s: Seq<u8>)
    ensures
        blank_run_end(s, 0) + trimmed(s).len() <= s.len(),
        0 <= blank_run_end(s, 0),
{
    lemma_blank_run_end(s, 0);
    lemma_blank_tail_start(s, blank_run_end(s, 0), s.len() as int);
}

/// Trimming drops exactly the spaces and tabs at both ends: what is left is
/// a stretch of `s` that is empty or starts and ends with another byte, and
/// everything before and after it is a space or a tab.
pub proof fn lemma_trimmed_shape(s: Seq<u8>)
    ensures
        ({
            let a = blank_run_end(s, 0);
            let t = trimmed(s);
            &&& 0 <= a && a + t.len() <= s.len()
            &&& t == s.subrange(a, a + t.len())
            &&& forall|k: int| 0 <= k < a ==> s[k] == 0x20 || s[k] == 0x09
            &&& forall|k: int| a + t.len() <= k < s.len() ==> s[k] == 0x20 || s[k] == 0x09
            &&& t.len() > 0 ==> !(t[0] == 0x20 || t[0] == 0x09) && !(t[t.len() - 1] == 0x20
                || t[t.len() - 1] == 0x09)
        }),
{
    lemma_blank_run_end(s, 0);
    let a = blank_run_end(s, 0);
    lemma_blank_tail_start(s, a, s.len() as int);
    lemma_blank_run_prefix(s, 0);
    lemma_blank_tail_suffix(s, a, s.len() as int);
}

proof fn lemma_blank_run_prefix(s: Seq<u8>, i: int)
    requires
        0 <= i <= s.len(),
    ensures
        forall|k: int| i <= k < blank_run_end(s, i) ==> s[k] == 0x20 || s[k] == 0x09,
        blank_run_end(s, i) < s.len() ==> !(s[blank_run_end(s, i)] == 0x20 || s[blank_run_end(s, i)]
            == 0x09),
    decreases s.len() - i,
{
    if i < s.len() && is_blank(s[i]) {
        lemma_blank_run_prefix(s, i + 1);
    }
}

proof fn lemma_blank_tail_suffix(s: Seq<u8>, start: int, j: int)
    requires
        0 <= start <= j <= s.len(),
    ensures
        forall|k: int| blank_tail_start(s, start, j) <= k < j ==> s[k] == 0x20 || s[k] == 0x09,
        blank_tail_start(s, start, j) > start ==> !(s[blank_tail_start(s, start, j) - 1] == 0x20
            || s[blank_tail_start(s, start, j) - 1] == 0x09),
    decreases j - start,
{
    if j > start && is_blank(s[j - 1]) {
        lemma_blank_tail_suffix(s, start, j - 1);
    }
}

/// `s` with a carriage return put before every line feed.
pub open spec fn crlf(s: Seq<u8>) -> Seq<u8>
    decreases s.len(),
{
    if s.len() == 0 {
        Seq::empty()
    } else {
        (if s[0] == 0x0A {
            seq![0x0Du8, 0x0A]
        } else {
            seq![s[0]]
        }) + crlf(s.skip(1))
    }
}

/// `s` holds no carriage return.
pub open spec fn no_cr(s: Seq<u8>) -> bool {
    forall|i: int| 0 <= i < s.len() ==> #[trigger] s[i] != 0x0D
}

/// Where offset `p` of `s` lands in `crlf(s)`.
pub open spec fn crlf_offset(s: Seq<u8>, p: int) -> int {
    crlf(s.take(p)).len() as int
}

pub(crate) proof fn lemma_crlf_concat(a: Seq<u8>, b: Seq<u8>)
    ensures
        crlf(a + b) == crlf(a) + crlf(b),
    decreases a.len(),
{
    if a.len() == 0 {
        assert(a + b =~= b);
        assert(crlf(a) + crlf(b) =~= crlf(b));
    } else {
        assert((a + b).skip(1) =~= a.skip(1) + b);
        assert((a + b)[0] == a[0]);
        lemma_crlf_concat(a.skip(1), b);
        let h = if a[0] == 0x0A {
            seq![0x0Du8, 0x0A]
        } else {
            seq![a[0]]
        };
        assert(crlf(a + b) =~= h + (crlf(a.skip(1)) + crlf(b)));
    }
}

/// Text without line feeds is left as it is; any text only grows.
pub(crate) proof fn lemma_crlf_plain(a: Seq<u8>)
    ensures
        crlf(a).len() >= a.len(),
        (forall|i: int| 0 <= i < a.len() ==> #[trigger] a[i] != 0x0A) ==> crlf(a) == a,
    decreases a.len(),
{
    if a.len() > 0 {
        lemma_crlf_plain(a.skip(1));
        if forall|i: int| 0 <= i < a.len() ==> #[trigger] a[i] != 0x0A {
            assert(forall|i: int| 0 <= i < a.skip(1).len() ==> #[trigger] a.skip(1)[i] != 0x0A) by {
                assert forall|i: int| 0 <= i < a.skip(1).len() implies #[trigger] a.skip(1)[i]
                    != 0x0A by {
                    assert(a.skip(1)[i] == a[i + 1]);
                }
            }
            assert(a[0] != 0x0A);
            assert(seq![a[0]] + a.skip(1) =~= a);
        }
    }
}

/// Offsets move forward at least as far in the CRLF form, and a stretch
/// without line feeds keeps its length.
pub(crate) proof fn lemma_crlf_offsets(s: Seq<u8>, a: int, b: int)
    requires
        0 <= a <= b <= s.len(),
    ensures
        crlf_offset(s, b) >= crlf_offset(s, a) + (b - a),
        crlf_offset(s, b) <= crlf(s).len(),
        (forall|k: int| a <= k < b ==> s[k] != 0x0A) ==> crlf_offset(s, b) == crlf_offset(s, a)
            + (b - a),
        crlf(s) == crlf(s.take(a)) + crlf(s.subrange(a, b)) + crlf(s.skip(b)),
{
    assert(s.take(b) =~= s.take(a) + s.subrange(a, b));
    assert(s =~= s.take(b) + s.skip(b));
    lemma_crlf_concat(s.take(a), s.subrange(a, b));
    lemma_crlf_concat(s.take(b), s.skip(b));
    lemma_crlf_plain(s.subrange(a, b));
    lemma_crlf_plain(s.skip(b));
    if forall|k: int| a <= k < b ==> s[k] != 0x0A {
        assert forall|i: int| 0 <= i < s.subrange(a, b).len() implies #[trigger] s.subrange(
            a,
            b,
        )[i] != 0x0A by {
            assert(s.subrange(a, b)[i] == s[a + i]);
        }
    }
}

/// Where the line that starts at `i` breaks: no line feed before, and one
/// there unless the text ends.
pub(crate) proof fn lemma_line_break_props(s: Seq<u8>, i: int)
    requires
        0 <= i <= s.len(),
    ensures
        i <= line_break(s, i) <= s.len(),
        forall|k: int| i <= k < line_break(s, i) ==> s[k] != 0x0A,
        line_break(s, i) < s.len() ==> s[line_break(s, i)] == 0x0A,
    decreases s.len() - i,
{
    if i < s.len() && s[i] != 0x0A {
        lemma_line_break_props(s, i + 1);
    }
}

/// The line that starts at `pos` in a text without carriage returns reads
/// the same in the text's CRLF form, and the next line starts where the
/// next line of the text lands.
pub(crate) proof fn lemma_crlf_line(s: Seq<u8>, pos: int)
    requires
        no_cr(s),
        0 <= pos < s.len(),
    ensures
        ({
            let y = crlf(s);
            let brk = line_break(s, pos);
            let p = crlf_offset(s, pos);
            let b = line_break(y, p);
            &&& pos < next_line(s, brk) <= s.len()
            &&& 0 <= p < y.len()
            &&& content_end(s, pos, brk) == brk
            &&& y.subrange(p, content_end(y, p, b)) == s.subrange(pos, brk)
            &&& next_line(y, b) == crlf_offset(s, next_line(s, brk))
            &&& forall|q: int| pos <= q <= brk ==> #[trigger] crlf_offset(s, q) == p + (q - pos)
        }),
{
    let y = crlf(s);
    let brk = line_break(s, pos);
    lemma_line_break_props(s, pos);
    let p = crlf_offset(s, pos);
    let line = s.subrange(pos, brk);
    lemma_crlf_offsets(s, pos, brk);
    assert forall|q: int| pos <= q <= brk implies #[trigger] crlf_offset(s, q) == p + (q - pos) by {
        lemma_crlf_offsets(s, pos, q);
    }
    lemma_crlf_plain(line);
    assert(crlf(line) == line) by {
        assert forall|i: int| 0 <= i < line.len() implies #[trigger] line[i] != 0x0A by {
            assert(line[i] == s[pos + i]);
        }
    }
    let rest = s.skip(brk);
    assert(y == crlf(s.take(pos)) + line + crlf(rest));
    assert forall|k: int| p <= k < p + line.len() implies y[k] != 0x0A && y[k] == s[pos + (k - p)]
        by {
        assert(y[k] == line[k - p]);
    }
    if brk < s.len() {
        assert(rest[0] == 0x0A);
        assert(crlf(rest) == seq![0x0Du8, 0x0A] + crlf(rest.skip(1)));
        let e = p + line.len();
        assert(y[e] == 0x0D);
        assert(y[e + 1] == 0x0A);
        lemma_line_break_at(y, p, e + 1);
        assert(content_end(y, p, e + 1) == e);
        lemma_crlf_offsets(s, brk, brk + 1);
        assert(s.subrange(brk, brk + 1) =~= seq![0x0Au8]);
        assert(crlf(seq![0x0Au8]) =~= seq![0x0Du8, 0x0A]) by {
            assert(seq![0x0Au8].skip(1) =~= Seq::<u8>::empty());
            assert(seq![0x0Au8][0] == 0x0A);
            assert(crlf(Seq::<u8>::empty()) =~= Seq::<u8>::empty());
            assert(seq![0x0Du8, 0x0A] + Seq::<u8>::empty() =~= seq![0x0Du8, 0x0A]);
        }
        assert(crlf(s.take(brk + 1)) =~= crlf(s.take(brk)) + crlf(s.subrange(brk, brk + 1))) by {
            assert(s.take(brk + 1) =~= s.take(brk) + s.subrange(brk, brk + 1));
            lemma_crlf_concat(s.take(brk), s.subrange(brk, brk + 1));
        }
    } else {
        assert(rest =~= Seq::<u8>::empty());
        assert(crlf(rest) =~= Seq::<u8>::empty());
        let e = p + line.len();
        assert(y.len() == e);
        assert(line_break(y, e) == e);
        assert(forall|k: int| p <= k < e ==> y[k] != 0x0A);
        lemma_line_break_from(y, p, e);
        if e > p {
            assert(y[e - 1] == s[brk - 1]);
        }
        assert(s.take(s.len() as int) =~= s);
    }
}

/// Skipping a stretch without line feeds that runs to the end.
proof fn lemma_line_break_from(s: Seq<u8>, i: int, e: int)
    requires
        0 <= i <= e == s.len(),
        forall|k: int| i <= k < e ==> s[k] != 0x0A,
    ensures
        line_break(s, i) == e,
    decreases e - i,
{
    if i < e {
        lemma_line_break_from(s, i + 1, e);
    }
}

/// Locate the line that starts at `pos`: its content end (without a
/// trailing carriage return) and where the next line starts.
pub fn split_line(input: &[u8], pos: usize) -> (r: (usize, usize))
    requires
        pos <= input@.len(),
    ensures
        r.0 == content_end(input@, pos as int, line_break(input@, pos as int)),
        r.1 == next_line(input@, line_break(input@, pos as int)),
        pos <= r.0 <= r.1 <= input@.len(),
        pos < input@.len() ==> pos < r.1,
{
    let len = input.len();
    let mut i = pos;
    while i < len && input[i] != 0x0A
        invariant
            len == input@.len(),
            pos <= i <= len,
            line_break(input@, i as int) == line_break(input@, pos as int),
        decreases len - i,
    {
        i += 1;
    }
    let end = if i > pos && input[i - 1] == 0x0D {
        i - 1
    } else {
        i
    };
    let next = if i < len {
        i + 1
    } else {
        i
    };
    (end, next)
}

/// The number of spaces and tabs at the start of `s`: where `trim` starts.
pub fn leading_blanks(s: &[u8]) -> (r: usize)
    ensures
        r == blank_run_end(s@, 0),
        r + trimmed(s@).len() <= s@.len(),
{
    let mut start: usize = 0;
    let end = s.len();
    while start < end && (s[start] == 0x20 || s[start] == 0x09)
        invariant
            end == s@.len(),
            start <= end,
            blank_run_end(s@, start as int) == blank_run_end(s@, 0),
        decreases end - start,
    {
        start += 1;
    }
    proof {
        lemma_blank_run_end(s@, 0);
        lemma_blank_tail_start(s@, start as int, end as int);
    }
    start
}

/// `s` without its leading and trailing spaces and tabs.
pub fn trim(s: &[u8]) -> (r: &[u8])
    ensures
        r@ == trimmed(s@),
        r@.len() <= s@.len(),
{
    let mut start: usize = 0;
    let mut end = s.len();
    while start < end && (s[start] == 0x20 || s[start] == 0x09)
        invariant
            end == s@.len(),
            start <= end,
            blank_run_end(s@, start as int) == blank_run_end(s@, 0),
        decreases end - start,
    {
        start += 1;
    }
    proof {
        lemma_blank_run_end(s@, 0);
    }
    let ghost a = start as int;
    while end > start && (s[end - 1] == 0x20 || s[end - 1] == 0x09)
        invariant
            start <= end <= s@.len(),
            start == a,
            blank_tail_start(s@, a, end as int) == blank_tail_start(s@, a, s@.len() as int),
        decreases end - start,
    {
        end -= 1;
    }
    vstd::slice::slice_subrange(s, start, end)
}

/// The first index of `s` that holds `a` or `b`.
pub fn position_of(s: &[u8], a: u8, b: u8) -> (r: Option<usize>)
    ensures
        match first_of(s@, 0, a, b) {
            Some(k) => r matches Some(i) && i == k && 0 <= k < s@.len(),
            None => r is None,
        },
{
    let len = s.len();
    let mut i: usize = 0;
    while i < len
        invariant
            len == s@.len(),
            i <= len,
            first_of(s@, i as int, a, b) == first_of(s@, 0, a, b),
            forall|j: int| 0 <= j < i ==> s@[j] != a && s@[j] != b,
        decreases len - i,
    {
        if s[i] == a || s[i] == b {
            return Some(i);
        }
        i += 1;
    }
    None
}

} // verus!
