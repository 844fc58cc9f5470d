//! Shell-style glob matching over bytes.
//!
//! `*` matches any run of bytes within one path segment, `?` one byte other
//! than `/`, `**` (alone between separators) zero or more whole segments, and
//! `[...]` a class of bytes with ranges (`a-z`) and negation (`[!...]` or
//! `[^...]`). Every other pattern byte matches itself.
use vstd::prelude::*;
use vstd::string::StringSliceAdditionalSpecFns;

verus! {

/// Scan the members of a class from offset `i` up to the closing `]`,
/// recording whether `byte` is among them; returns the hit flag and the
/// offset where the scan stopped.
pub open spec fn class_scan(pat: Seq<u8>, byte: Option<u8>, i: int, hit: bool) -> (bool, int)
    decreases pat.len() - i,
{
    if i < 0 || i >= pat.len() || pat[i] == 0x5D {
        (hit, i)
    } else if i + 2 < pat.len() && pat[i + 1] == 0x2D && pat[i + 2] != 0x5D {
        let in_range = match byte {
            Some(b) => pat[i] <= b <= pat[i + 2],
            None => false,
        };
        class_scan(pat, byte, i + 3, hit || in_range)
    } else {
        let same = match byte {
            Some(b) => pat[i] == b,
            None => false,
        };
        class_scan(pat, byte, i + 1, hit || same)
    }
}

/// Whether the class at the start of `pat` (which starts with `[`) is negated.
pub open spec fn class_negated(pat: Seq<u8>) -> bool {
    1 < pat.len() && (pat[1] == 0x21 || pat[1] == 0x5E)
}

/// Whether `byte` is in the class at the start of `pat`, and how many pattern
/// bytes the class takes (through the closing `]`, or to the end).
pub open spec fn class_result(pat: Seq<u8>, byte: Option<u8>) -> (bool, int) {
    let start: int = if class_negated(pat) {
        2
    } else {
        1
    };
    let (hit, i) = class_scan(pat, byte, start, false);
    let consumed = if i < pat.len() {
        i + 1
    } else {
        i
    };
    let matched = match byte {
        Some(_) => hit != class_negated(pat),
        None => false,
    };
    (matched, consumed)
}

/// Whether `pat` starts with a `**` that stands alone in its segment.
pub open spec fn starts_with_globstar(pat: Seq<u8>) -> bool {
    pat.len() >= 2 && pat[0] == 0x2A && pat[1] == 0x2A && (pat.len() == 2 || pat[2] == 0x2F)
}

/// The pattern that follows a leading `**` (and its `/`).
pub open spec fn after_globstar(pat: Seq<u8>) -> Seq<u8> {
    let after = pat.skip(2);
    if after.len() > 0 && after[0] == 0x2F {
        after.skip(1)
    } else {
        after
    }
}

proof fn lemma_class_scan_progress(pat: Seq<u8>, byte: Option<u8>, i: int, hit: bool)
    ensures
        class_scan(pat, byte, i, hit).1 >= i,
        0 <= i <= pat.len() ==> class_scan(pat, byte, i, hit).1 <= pat.len(),
    decreases pat.len() - i,
{
    if !(i < 0 || i >= pat.len() || pat[i] == 0x5D) {
        if i + 2 < pat.len() && pat[i + 1] == 0x2D && pat[i + 2] != 0x5D {
            let in_range = match byte {
                Some(b) => pat[i] <= b <= pat[i + 2],
                None => false,
            };
            lemma_class_scan_progress(pat, byte, i + 3, hit || in_range);
        } else {
            let same = match byte {
                Some(b) => pat[i] == b,
                None => false,
            };
            lemma_class_scan_progress(pat, byte, i + 1, hit || same);
        }
    }
}

/// Whether glob pattern `pat` matches all of `txt`.
pub open spec fn glob_matches(pat: Seq<u8>, txt: Seq<u8>) -> bool
    decreases pat.len(), txt.len() + 1, 1int,
{
    if pat.len() == 0 {
        txt.len() == 0
    } else if starts_with_globstar(pat) {
        let rest = after_globstar(pat);
        rest.len() == 0 || glob_matches(rest, txt) || globstar_from(pat, txt, 0)
    } else if pat[0] == 0x2A {
        star_from(pat, txt, 0)
    } else if pat[0] == 0x3F {
        txt.len() > 0 && txt[0] != 0x2F && glob_matches(pat.skip(1), txt.skip(1))
    } else if pat[0] == 0x5B {
        let (matched, consumed) = class_result(
            pat,
            if txt.len() > 0 {
                Some(txt[0])
            } else {
                None
            },
        );
        matched && 1 <= consumed <= pat.len() && glob_matches(pat.skip(consumed), txt.skip(1))
    } else {
        txt.len() > 0 && txt[0] == pat[0] && glob_matches(pat.skip(1), txt.skip(1))
    }
}

/// For a leading `**`: whether some `/` at or after offset `i` of `txt` is
/// followed by text that the whole pattern matches.
pub open spec fn globstar_from(pat: Seq<u8>, txt: Seq<u8>, i: int) -> bool
    decreases pat.len(), txt.len() - i + 1, 0int,
{
    if i < 0 || i >= txt.len() {
        false
    } else {
        (txt[i] == 0x2F && glob_matches(pat, txt.skip(i + 1))) || globstar_from(pat, txt, i + 1)
    }
}

/// For a leading `*`: whether the rest of the pattern matches `txt` from some
/// offset `j >= i` reached without crossing a `/`.
pub open spec fn star_from(pat: Seq<u8>, txt: Seq<u8>, i: int) -> bool
    decreases pat.len(), txt.len() - i + 1, 0int,
{
    if pat.len() == 0 || i < 0 || i > txt.len() {
        false
    } else if glob_matches(pat.skip(1), txt.skip(i)) {
        true
    } else if i >= txt.len() || txt[i] == 0x2F {
        false
    } else {
        star_from(pat, txt, i + 1)
    }
}

/// A compiled glob pattern: the pattern bytes, borrowed.
#[derive(Clone, Copy, Debug, PartialEq, Eq)]
pub struct Pattern<'a> {
    bytes: &'a [u8],
}

impl<'a> View for Pattern<'a> {
    type V = Seq<u8>;

    closed spec fn view(&self) -> Seq<u8> {
        self.bytes@
    }
}

impl<'a> Pattern<'a> {
    /// Compile a glob pattern from bytes.
    pub fn compile(pattern: &'a [u8]) -> (r: Pattern<'a>)
        ensures
            r@ == pattern@,
    {
        Pattern { bytes: pattern }
    }

    /// Compile a glob pattern from a `&str`.
    pub fn compile_str(pattern: &'a str) -> (r: Pattern<'a>)
        ensures
            r@ == pattern.spec_bytes(),
    {
        Pattern { bytes: pattern.as_bytes() }
    }

    /// Match `text` (a byte slice) against the compiled pattern.
    pub fn matches(&self, text: &[u8]) -> (r: bool)
        ensures
            r == glob_matches(self@, text@),
    {
        do_match(self.bytes, text)
    }

    /// Match `text` (a `&str`) against the compiled pattern.
    pub fn matches_str(&self, text: &str) -> (r: bool)
        ensures
            r == glob_matches(self@, text.spec_bytes()),
    {
        do_match(self.bytes, text.as_bytes())
    }
}

/// Convenience: compile `pattern` and match `text` in one call.
pub fn matches(pattern: &[u8], text: &[u8]) -> (r: bool)
    ensures
        r == glob_matches(pattern@, text@),
{
    do_match(pattern, text)
}

/// Convenience: compile a `&str` pattern and match a `&str` text in one call.
pub fn matches_str(pattern: &str, text: &str) -> (r: bool)
    ensures
        r == glob_matches(pattern.spec_bytes(), text.spec_bytes()),
{
    do_match(pattern.as_bytes(), text.as_bytes())
}

/// Parse the `[...]` class at `pat[0]` (`pat[0]` must be `[`) and, if `byte`
/// is `Some`, test it for membership.
fn class_match(pat: &[u8], byte: Option<u8>) -> (r: (bool, usize))
    requires
        pat@.len() > 0,
    ensures
        (r.0, r.1 as int) == class_result(pat@, byte),
{
    let mut i = 1usize;
    let negated = if i < pat.len() && (pat[i] == 0x21 || pat[i] == 0x5E) {
        i += 1;
        true
    } else {
        false
    };
    let mut hit = false;
    proof {
        lemma_class_scan_progress(pat@, byte, i as int, false);
    }
    while i < pat.len() && pat[i] != 0x5D
        invariant
            1 <= i <= pat@.len(),
            class_scan(pat@, byte, i as int, hit) == class_scan(
                pat@,
                byte,
                if class_negated(pat@) {
                    2
                } else {
                    1
                },
                false,
            ),
        decreases pat@.len() - i,
    {
        let a = pat[i];
        if pat.len() - i > 2 && pat[i + 1] == 0x2D && pat[i + 2] != 0x5D {
            let z = pat[i + 2];
            if let Some(b) = byte {
                if a <= b && b <= z {
                    hit = true;
                }
            }
            i += 3;
        } else {
            if let Some(b) = byte {
                if a == b {
                    hit = true;
                }
            }
            i += 1;
        }
    }
    if i < pat.len() {
        i += 1;
    }
    let matched = match byte {
        Some(_) => hit != negated,
        None => false,
    };
    (matched, i)
}

fn tail(s: &[u8], from: usize) -> (r: &[u8])
    requires
        from <= s@.len(),
    ensures
        r@ == s@.skip(from as int),
{
    let r = vstd::slice::slice_subrange(s, from, s.len());
    assert(r@ =~= s@.skip(from as int));
    r
}

/// Recursive backtracking matcher: `pat` against `txt`, operating directly on
/// the byte slices.
fn do_match(pat: &[u8], txt: &[u8]) -> (r: bool)
    ensures
        r == glob_matches(pat@, txt@),
    decreases pat@.len(), txt@.len(),
{
    if pat.len() == 0 {
        return txt.len() == 0;
    }
    if pat.len() >= 2 && pat[0] == 0x2A && pat[1] == 0x2A && (pat.len() == 2 || pat[2] == 0x2F) {
        let after = tail(pat, 2);
        let rest: &[u8] = if after.len() > 0 && after[0] == 0x2F {
            tail(after, 1)
        } else {
            after
        };
        if rest.len() == 0 {
            return true;
        }
        if do_match(rest, txt) {
            return true;
        }
        let mut i = 0usize;
        while i < txt.len()
            invariant
                i <= txt@.len(),
                starts_with_globstar(pat@),
                globstar_from(pat@, txt@, 0) == globstar_from(pat@, txt@, i as int),
            decreases txt@.len() - i,
        {
            if txt[i] == 0x2F && do_match(pat, tail(txt, i + 1)) {
                return true;
            }
            i += 1;
        }
        return false;
    }
    let c = pat[0];
    if c == 0x2A {
        let mut i = 0usize;
        loop
            invariant
                i <= txt@.len(),
                pat@.len() > 0,
                pat@[0] == 0x2A,
                !starts_with_globstar(pat@),
                star_from(pat@, txt@, 0) == star_from(pat@, txt@, i as int),
            decreases txt@.len() - i,
        {
            if do_match(tail(pat, 1), tail(txt, i)) {
                return true;
            }
            if i >= txt.len() || txt[i] == 0x2F {
                return false;
            }
            i += 1;
        }
    } else if c == 0x3F {
        txt.len() > 0 && txt[0] != 0x2F && do_match(tail(pat, 1), tail(txt, 1))
    } else if c == 0x5B {
        let first = if txt.len() > 0 {
            Some(txt[0])
        } else {
            None
        };
        let (matched, consumed) = class_match(pat, first);
        proof {
            lemma_class_scan_progress(pat@, first, if class_negated(pat@) {
                2
            } else {
                1
            }, false);
        }
        matched && do_match(tail(pat, consumed), tail(txt, 1))
    } else {
        txt.len() > 0 && txt[0] == c && do_match(tail(pat, 1), tail(txt, 1))
    }
}

/// Whether `pat` has no wildcard byte (`*`, `?` or `[`).
pub open spec fn is_literal(pat: Seq<u8>) -> bool {
    forall|i: int| 0 <= i < pat.len() ==> pat[i] != 0x2A && pat[i] != 0x3F && pat[i] != 0x5B
}

/// A pattern without wildcards matches exactly the text equal to it (so
/// never a longer one).
pub proof fn lemma_literal_matches_itself_only(pat: Seq<u8>, txt: Seq<u8>)
    requires
        is_literal(pat),
    ensures
        glob_matches(pat, txt) <==> txt == pat,
    decreases pat.len(),
{
    if pat.len() == 0 {
        if txt.len() != 0 {
            assert(txt != pat);
        } else {
            assert(txt =~= pat);
        }
    } else {
        assert(pat[0] != 0x2A && pat[0] != 0x3F && pat[0] != 0x5B);
        assert(!starts_with_globstar(pat));
        assert(glob_matches(pat, txt) == (txt.len() > 0 && txt[0] == pat[0] && glob_matches(
            pat.skip(1),
            txt.skip(1),
        )));
        assert(is_literal(pat.skip(1))) by {
            assert forall|i: int| 0 <= i < pat.skip(1).len() implies pat.skip(1)[i] != 0x2A
                && pat.skip(1)[i] != 0x3F && pat.skip(1)[i] != 0x5B by {
                assert(pat.skip(1)[i] == pat[i + 1]);
            }
        }
        lemma_literal_matches_itself_only(pat.skip(1), txt.skip(1));
        if txt.len() > 0 && txt[0] == pat[0] && txt.skip(1) == pat.skip(1) {
            assert(txt =~= pat) by {
                assert forall|i: int| 0 <= i < txt.len() implies txt[i] == pat[i] by {
                    if i > 0 {
                        assert(txt.skip(1)[i - 1] == pat.skip(1)[i - 1]);
                    }
                }
            }
        }
        if txt == pat {
            assert(txt.skip(1) =~= pat.skip(1));
        }
    }
}

/// `**` matches every text.
pub proof fn lemma_globstar_matches_all(txt: Seq<u8>)
    ensures
        glob_matches(seq![0x2Au8, 0x2A], txt),
{
    let pat = seq![0x2Au8, 0x2A];
    assert(starts_with_globstar(pat));
    assert(after_globstar(pat) =~= Seq::<u8>::empty());
}

/// Whether `t` holds no `/`.
pub open spec fn no_slash(t: Seq<u8>) -> bool {
    forall|i: int| 0 <= i < t.len() ==> t[i] != 0x2F
}

/// On text without `/`, a leading `*` tries every suffix from `i` on.
proof fn lemma_star_from_no_slash(pat: Seq<u8>, txt: Seq<u8>, i: int)
    requires
        pat.len() > 0,
        no_slash(txt),
        0 <= i <= txt.len(),
    ensures
        star_from(pat, txt, i) <==> exists|j: int|
            i <= j <= txt.len() && #[trigger] glob_matches(pat.skip(1), txt.skip(j)),
    decreases txt.len() - i,
{
    if glob_matches(pat.skip(1), txt.skip(i)) {
    } else if i >= txt.len() {
        if exists|j: int| i <= j <= txt.len() && #[trigger] glob_matches(pat.skip(1), txt.skip(j)) {
            let j = choose|j: int| i <= j <= txt.len() && #[trigger] glob_matches(pat.skip(1), txt.skip(j));
            assert(j == i);
        }
    } else {
        lemma_star_from_no_slash(pat, txt, i + 1);
        if exists|j: int| i <= j <= txt.len() && #[trigger] glob_matches(pat.skip(1), txt.skip(j)) {
            let j = choose|j: int| i <= j <= txt.len() && #[trigger] glob_matches(pat.skip(1), txt.skip(j));
            assert(j != i);
            assert(i + 1 <= j);
        }
    }
}

/// `*` alone matches any text without `/`.
proof fn lemma_lone_star(txt: Seq<u8>)
    requires
        no_slash(txt),
    ensures
        glob_matches(seq![0x2Au8], txt),
{
    let pat = seq![0x2Au8];
    lemma_star_from_no_slash(pat, txt, 0);
    assert(pat.skip(1) =~= Seq::<u8>::empty());
    assert(txt.skip(txt.len() as int) =~= Seq::<u8>::empty());
    assert(glob_matches(pat.skip(1), txt.skip(txt.len() as int)));
}

/// On text without `/`, `*.*` matches exactly when the text holds a `.`.
pub proof fn lemma_star_dot_star(txt: Seq<u8>)
    requires
        no_slash(txt),
    ensures
        glob_matches(seq![0x2Au8, 0x2E, 0x2A], txt) <==> txt.contains(0x2E),
{
    let pat = seq![0x2Au8, 0x2E, 0x2A];
    let rest = pat.skip(1);
    assert(rest =~= seq![0x2Eu8, 0x2A]);
    assert(rest.skip(1) =~= seq![0x2Au8]);
    assert(!starts_with_globstar(pat));
    lemma_star_from_no_slash(pat, txt, 0);
    if txt.contains(0x2E) {
        let k = choose|k: int| 0 <= k < txt.len() && txt[k] == 0x2E;
        let t = txt.skip(k);
        assert(no_slash(t.skip(1))) by {
            assert forall|i: int| 0 <= i < t.skip(1).len() implies t.skip(1)[i] != 0x2F by {
                assert(t.skip(1)[i] == txt[k + 1 + i]);
            }
        }
        lemma_lone_star(t.skip(1));
        assert(glob_matches(rest, t));
    }
    if glob_matches(pat, txt) {
        let j = choose|j: int| 0 <= j <= txt.len() && #[trigger] glob_matches(pat.skip(1), txt.skip(j));
        assert(txt.skip(j)[0] == 0x2E);
        assert(txt[j] == 0x2E);
    }
}

/// `[a-z]` matches a one-byte text exactly when the byte is a lowercase
/// ASCII letter.
pub proof fn lemma_lower_class(b: u8)
    ensures
        glob_matches(seq![0x5Bu8, 0x61, 0x2D, 0x7A, 0x5D], seq![b]) <==> (0x61 <= b <= 0x7A),
{
    let pat = seq![0x5Bu8, 0x61, 0x2D, 0x7A, 0x5D];
    assert(!class_negated(pat));
    assert(class_scan(pat, Some(b), 4, 0x61 <= b <= 0x7A) == (0x61 <= b <= 0x7A, 4int));
    assert(class_scan(pat, Some(b), 1, false) == (0x61 <= b <= 0x7A, 4int));
    assert(class_result(pat, Some(b)) == (0x61 <= b <= 0x7A, 5int));
    assert(pat.skip(5) =~= Seq::<u8>::empty());
    assert(seq![b].skip(1) =~= Seq::<u8>::empty());
    assert(glob_matches(Seq::<u8>::empty(), Seq::<u8>::empty()));
    assert(!starts_with_globstar(pat));
    assert(seq![b][0] == b);
    assert(glob_matches(pat, seq![b]) == (0x61 <= b <= 0x7A && glob_matches(
        pat.skip(5),
        seq![b].skip(1),
    )));
}

} // verus!
