//! Byte and substring search: memchr-style single-byte search and
//! Boyer-Moore-Horspool substring search over byte slices.
use vstd::prelude::*;

verus! {

/// Whether `needle` occurs in `hay` starting at offset `i`.
pub open spec fn occurs_at(needle: Seq<u8>, hay: Seq<u8>, i: int) -> bool {
    0 <= i && i + needle.len() <= hay.len() && hay.subrange(i, i + needle.len()) == needle
}

/// Find the first index of `needle` in `haystack`, or `None`.
pub fn find_byte(needle: u8, haystack: &[u8]) -> (r: Option<usize>)
    ensures
        r matches Some(i) ==> i < haystack@.len() && haystack@[i as int] == needle && forall|k: int|
            0 <= k < i ==> haystack@[k] != needle,
        r is None ==> forall|k: int| 0 <= k < haystack@.len() ==> haystack@[k] != needle,
{
    let mut i = 0usize;
    while i < haystack.len()
        invariant
            i <= haystack@.len(),
            forall|k: int| 0 <= k < i ==> haystack@[k] != needle,
        decreases haystack@.len() - i,
    {
        if haystack[i] == needle {
            return Some(i);
        }
        i += 1;
    }
    None
}

/// Find the last index of `needle` in `haystack`, or `None`.
pub fn rfind_byte(needle: u8, haystack: &[u8]) -> (r: Option<usize>)
    ensures
        r matches Some(i) ==> i < haystack@.len() && haystack@[i as int] == needle && forall|k: int|
            i < k < haystack@.len() ==> haystack@[k] != needle,
        r is None ==> forall|k: int| 0 <= k < haystack@.len() ==> haystack@[k] != needle,
{
    let mut i = haystack.len();
    while i > 0
        invariant
            i <= haystack@.len(),
            forall|k: int| i <= k < haystack@.len() ==> haystack@[k] != needle,
        decreases i,
    {
        i -= 1;
        if haystack[i] == needle {
            return Some(i);
        }
    }
    None
}

/// Index of the last occurrence of `c` in `s`.
pub open spec fn last_index_of(s: Seq<u8>, c: u8) -> Option<int>
    decreases s.len(),
{
    if s.len() == 0 {
        None
    } else if s.last() == c {
        Some(s.len() - 1)
    } else {
        last_index_of(s.drop_last(), c)
    }
}

/// The Horspool shift for byte `c`: how far the search window may move when
/// its last byte is `c`.
pub open spec fn shift_for(needle: Seq<u8>, c: u8) -> int {
    let m = needle.len() as int;
    if m <= 1 {
        m
    } else {
        match last_index_of(needle.take(m - 1), c) {
            Some(i) => m - 1 - i,
            None => m,
        }
    }
}

proof fn lemma_last_index(s: Seq<u8>, c: u8)
    ensures
        last_index_of(s, c) matches Some(i) ==> 0 <= i < s.len() && s[i] == c && forall|k: int|
            i < k < s.len() ==> s[k] != c,
        last_index_of(s, c) is None ==> forall|k: int| 0 <= k < s.len() ==> s[k] != c,
    decreases s.len(),
{
    if s.len() > 0 {
        let p = s.drop_last();
        lemma_last_index(p, c);
        assert(forall|k: int| 0 <= k < p.len() ==> p[k] == s[k]);
        assert(s.last() == s[s.len() - 1]);
    }
}

/// A Boyer-Moore-Horspool searcher with a precomputed bad-character table.
pub struct Finder {
    needle: [u8; 64],
    needle_len: usize,
    shifts: [usize; 256],
}

impl Finder {
    #[verifier::type_invariant]
    spec fn wf(self) -> bool {
        &&& self.needle_len <= 64
        &&& forall|c: u8| #[trigger] self.shifts@[c as int] == shift_for(self.needle(), c)
    }

    /// The needle this searcher looks for.
    pub closed spec fn needle(self) -> Seq<u8> {
        self.needle@.take(self.needle_len as int)
    }

    /// Build a searcher for `needle` (at most 64 bytes).
    pub fn new(needle: &[u8]) -> (r: Finder)
        requires
            needle@.len() <= 64,
        ensures
            r.needle() == needle@,
    {
        let mut n = [0u8; 64];
        let m = needle.len();
        let mut k = 0usize;
        while k < m
            invariant
                m == needle@.len(),
                m <= 64,
                k <= m,
                n@.len() == 64,
                forall|j: int| 0 <= j < k ==> n@[j] == needle@[j],
            decreases m - k,
        {
            n[k] = needle[k];
            k += 1;
        }
        let ghost nd = n@.take(m as int);
        assert(nd =~= needle@);
        let mut shifts = [m; 256];
        if m > 1 {
            let mut i = 0usize;
            while i < m - 1
                invariant
                    m == needle@.len(),
                    1 < m <= 64,
                    i <= m - 1,
                    shifts@.len() == 256,
                    forall|c: u8| #[trigger] shifts@[c as int] == match last_index_of(
                        needle@.take(i as int),
                        c,
                    ) {
                        Some(j) => m - 1 - j,
                        None => m as int,
                    },
                decreases m - 1 - i,
            {
                let b = needle[i];
                let ghost prev = shifts@;
                shifts[b as usize] = m - 1 - i;
                proof {
                    assert(needle@.take(i + 1).drop_last() =~= needle@.take(i as int));
                    assert forall|c: u8| #[trigger] shifts@[c as int] == match last_index_of(
                        needle@.take(i + 1),
                        c,
                    ) {
                        Some(j) => m - 1 - j,
                        None => m as int,
                    } by {
                        if c != b {
                            assert(shifts@[c as int] == prev[c as int]) by {
                                assert((c as int) != (b as int));
                            }
                        }
                    }
                }
                i += 1;
            }
        }
        proof {
            assert forall|c: u8| #[trigger] shifts@[c as int] == shift_for(needle@, c) by {
                if m > 1 {
                    assert(needle@.take(m - 1) =~= needle@.take((m - 1) as int));
                }
            }
        }
        Finder { needle: n, needle_len: m, shifts }
    }

    /// Find the first occurrence of the needle in `haystack`.
    pub fn find_in(&self, haystack: &[u8]) -> (r: Option<usize>)
        ensures
            r matches Some(i) ==> occurs_at(self.needle(), haystack@, i as int) && forall|s: int|
                0 <= s < i ==> !occurs_at(self.needle(), haystack@, s),
            r is None ==> forall|s: int| !occurs_at(self.needle(), haystack@, s),
    {
        proof {
            use_type_invariant(self);
        }
        let ghost nd = self.needle();
        let ghost h = haystack@;
        let m = self.needle_len;
        let n = haystack.len();
        if m == 0 {
            proof {
                assert(h.subrange(0, 0) =~= nd);
            }
            return Some(0);
        }
        if n < m {
            return None;
        }
        let last = m - 1;
        let mut i = last;
        while i < n
            invariant
                nd == self.needle(),
                nd.len() == m,
                h == haystack@,
                n == h.len(),
                1 <= m <= 64,
                m <= n,
                last == m - 1,
                last <= i,
                forall|c: u8| #[trigger] self.shifts@[c as int] == shift_for(nd, c),
                forall|k: int| 0 <= k < m ==> nd[k] == self.needle@[k],
                forall|s: int| 0 <= s && s + last < i ==> !occurs_at(nd, h, s),
            decreases n - i,
        {
            let ghost s0 = i - last;
            let mut j = last;
            let mut k = i;
            while self.needle[j] == haystack[k]
                invariant
                    nd == self.needle(),
                    nd.len() == m,
                    h == haystack@,
                    n == h.len(),
                    1 <= m <= 64,
                    last == m - 1,
                    last <= i < n,
                    s0 == i - last,
                    j <= last,
                    k == s0 + j,
                    forall|k2: int| 0 <= k2 < m ==> nd[k2] == self.needle@[k2],
                    forall|t: int| j < t <= last ==> nd[t] == h[s0 + t],
                    forall|s: int| 0 <= s && s + last < i ==> !occurs_at(nd, h, s),
                decreases j,
            {
                if j == 0 {
                    proof {
                        assert(h.subrange(s0, s0 + m) =~= nd);
                    }
                    return Some(k);
                }
                j -= 1;
                k -= 1;
            }
            let c = haystack[i];
            let sh = self.shifts[c as usize];
            proof {
                assert(!occurs_at(nd, h, s0)) by {
                    if occurs_at(nd, h, s0) {
                        assert(h.subrange(s0, s0 + m)[j as int] == h[s0 + j]);
                    }
                }
                lemma_last_index(nd.take(m - 1), c);
                assert forall|s: int| 0 <= s && s + last < i + sh implies !occurs_at(nd, h, s) by {
                    if s > s0 && occurs_at(nd, h, s) {
                        let d = i - s;
                        assert(0 <= d < m - 1);
                        assert(h.subrange(s, s + m)[d] == h[i as int]);
                        assert(nd[d] == c);
                        assert(nd.take(m - 1)[d] == c);
                    }
                }
            }
            if sh >= n - i {
                proof {
                    assert forall|s: int| !occurs_at(nd, h, s) by {
                        if 0 <= s && s + m <= n {
                            assert(s + last < i + sh);
                        }
                    }
                }
                return None;
            }
            i += sh;
        }
        proof {
            assert forall|s: int| !occurs_at(nd, h, s) by {
                if 0 <= s && s + m <= n {
                    assert(s + last < i);
                }
            }
        }
        None
    }

    /// Whether the needle occurs in `haystack` at offset `i`.
    fn matches_at(&self, haystack: &[u8], i: usize) -> (r: bool)
        requires
            i + self.needle().len() <= haystack@.len(),
        ensures
            r == occurs_at(self.needle(), haystack@, i as int),
    {
        proof {
            use_type_invariant(self);
        }
        let m = self.needle_len;
        let hl = haystack.len();
        let mut j = 0usize;
        while j < m
            invariant
                m == self.needle().len(),
                m == self.needle_len,
                self.needle_len <= 64,
                hl == haystack@.len(),
                m <= 64,
                i + m <= haystack@.len(),
                j <= m,
                forall|t: int| 0 <= t < j ==> self.needle@[t] == haystack@[i + t],
            decreases m - j,
        {
            if self.needle[j] != haystack[i + j] {
                proof {
                    assert(haystack@.subrange(i as int, i + m)[j as int] == haystack@[i + j]);
                    assert(self.needle()[j as int] == self.needle@[j as int]);
                }
                return false;
            }
            j += 1;
        }
        proof {
            assert(haystack@.subrange(i as int, i + m) =~= self.needle());
        }
        true
    }

    /// Find the last occurrence of the needle in `haystack`.
    pub fn rfind_in(&self, haystack: &[u8]) -> (r: Option<usize>)
        ensures
            r matches Some(i) ==> occurs_at(self.needle(), haystack@, i as int) && forall|s: int|
                i < s ==> !occurs_at(self.needle(), haystack@, s),
            r is None ==> forall|s: int| !occurs_at(self.needle(), haystack@, s),
    {
        proof {
            use_type_invariant(self);
        }
        let m = self.needle_len;
        let n = haystack.len();
        if m == 0 {
            proof {
                assert(haystack@.subrange(n as int, n as int) =~= self.needle());
            }
            return Some(n);
        }
        if n < m {
            return None;
        }
        let mut i = n - m + 1;
        while i > 0
            invariant
                m == self.needle().len(),
                m <= n == haystack@.len(),
                i <= n - m + 1,
                forall|s: int| i <= s ==> !occurs_at(self.needle(), haystack@, s),
            decreases i,
        {
            i -= 1;
            if self.matches_at(haystack, i) {
                return Some(i);
            }
        }
        None
    }
} // impl Finder

/// Find the first index at which `needle` occurs in `haystack`, or `None`.
/// An empty needle is found at 0.
pub fn find(needle: &[u8], haystack: &[u8]) -> (r: Option<usize>)
    requires
        needle@.len() <= 64,
    ensures
        r matches Some(i) ==> occurs_at(needle@, haystack@, i as int) && forall|s: int|
            0 <= s < i ==> !occurs_at(needle@, haystack@, s),
        r is None ==> forall|s: int| !occurs_at(needle@, haystack@, s),
{
    if needle.len() == 0 {
        proof {
            assert(haystack@.subrange(0, 0) =~= needle@);
        }
        return Some(0);
    }
    Finder::new(needle).find_in(haystack)
}

/// Find the last index at which `needle` occurs in `haystack`, or `None`.
/// An empty needle is found at the end of `haystack`.
pub fn rfind(needle: &[u8], haystack: &[u8]) -> (r: Option<usize>)
    requires
        needle@.len() <= 64,
    ensures
        r matches Some(i) ==> occurs_at(needle@, haystack@, i as int) && forall|s: int|
            i < s ==> !occurs_at(needle@, haystack@, s),
        r is None ==> forall|s: int| !occurs_at(needle@, haystack@, s),
{
    if needle.len() == 0 {
        proof {
            let n = haystack@.len() as int;
            assert(haystack@.subrange(n, n) =~= needle@);
        }
        return Some(haystack.len());
    }
    Finder::new(needle).rfind_in(haystack)
}

impl Clone for Finder {
    fn clone(&self) -> (r: Self)
        ensures
            r.needle() == self.needle(),
    {
        proof {
            use_type_invariant(self);
        }
        Finder { needle: self.needle, needle_len: self.needle_len, shifts: self.shifts }
    }
}

} // verus!
