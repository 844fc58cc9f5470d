//! Sorted-array maps.
//!
//! [`ArrayLinearMap`] holds at most `N` entries and [`VecLinearMap`] any
//! number; both keep their entries sorted by key, find keys by binary search
//! and behave as maps: a key maps to the value last inserted for it.
use vstd::prelude::*;

verus! {

/// A key that the maps can order: its `rank` is an order-preserving,
/// one-to-one image in the integers.
pub trait SortKey: Copy {
    /// The key's place in the order.
    spec fn rank(self) -> int;

    /// Whether `self` comes before `other`.
    fn less(&self, other: &Self) -> (r: bool)
        ensures
            r == (self.rank() < other.rank()),
    ;

    /// Keys of equal rank are equal.
    proof fn rank_injective(a: Self, b: Self)
        ensures
            a.rank() == b.rank() ==> a == b,
    ;
}

impl SortKey for u8 {
    open spec fn rank(self) -> int {
        self as int
    }

    fn less(&self, other: &Self) -> (r: bool) {
        *self < *other
    }

    proof fn rank_injective(a: Self, b: Self) {
    }
}

impl SortKey for u16 {
    open spec fn rank(self) -> int {
        self as int
    }

    fn less(&self, other: &Self) -> (r: bool) {
        *self < *other
    }

    proof fn rank_injective(a: Self, b: Self) {
    }
}

impl SortKey for u32 {
    open spec fn rank(self) -> int {
        self as int
    }

    fn less(&self, other: &Self) -> (r: bool) {
        *self < *other
    }

    proof fn rank_injective(a: Self, b: Self) {
    }
}

impl SortKey for u64 {
    open spec fn rank(self) -> int {
        self as int
    }

    fn less(&self, other: &Self) -> (r: bool) {
        *self < *other
    }

    proof fn rank_injective(a: Self, b: Self) {
    }
}

impl SortKey for usize {
    open spec fn rank(self) -> int {
        self as int
    }

    fn less(&self, other: &Self) -> (r: bool) {
        *self < *other
    }

    proof fn rank_injective(a: Self, b: Self) {
    }
}

impl SortKey for i8 {
    open spec fn rank(self) -> int {
        self as int
    }

    fn less(&self, other: &Self) -> (r: bool) {
        *self < *other
    }

    proof fn rank_injective(a: Self, b: Self) {
    }
}

impl SortKey for i16 {
    open spec fn rank(self) -> int {
        self as int
    }

    fn less(&self, other: &Self) -> (r: bool) {
        *self < *other
    }

    proof fn rank_injective(a: Self, b: Self) {
    }
}

impl SortKey for i32 {
    open spec fn rank(self) -> int {
        self as int
    }

    fn less(&self, other: &Self) -> (r: bool) {
        *self < *other
    }

    proof fn rank_injective(a: Self, b: Self) {
    }
}

impl SortKey for i64 {
    open spec fn rank(self) -> int {
        self as int
    }

    fn less(&self, other: &Self) -> (r: bool) {
        *self < *other
    }

    proof fn rank_injective(a: Self, b: Self) {
    }
}

/// A key/value pair.
#[derive(Clone, Copy, Debug, PartialEq, Eq, Hash)]
pub struct Entry<K, V> {
    pub key: K,
    pub value: V,
}

impl<K, V> Entry<K, V> {
    /// Pair `key` with `value`.
    pub fn new(key: K, value: V) -> (e: Self)
        ensures
            e.key == key,
            e.value == value,
    {
        Entry { key, value }
    }
}

/// Whether the entries' keys strictly increase.
pub open spec fn sorted<K: SortKey, V>(s: Seq<Entry<K, V>>) -> bool {
    forall|i: int, j: int| 0 <= i < j < s.len() ==> s[i].key.rank() < s[j].key.rank()
}

/// Whether some entry has key `k`.
pub open spec fn has_key<K, V>(s: Seq<Entry<K, V>>, k: K) -> bool {
    exists|i: int| 0 <= i < s.len() && s[i].key == k
}

/// The entries as a map from key to value.
pub open spec fn entries_map<K, V>(s: Seq<Entry<K, V>>) -> Map<K, V> {
    Map::new(
        |k: K| has_key(s, k),
        |k: K| s[choose|i: int| 0 <= i < s.len() && s[i].key == k].value,
    )
}

proof fn lemma_unique<K: SortKey, V>(s: Seq<Entry<K, V>>, i: int, j: int)
    requires
        sorted(s),
        0 <= i < s.len(),
        0 <= j < s.len(),
        s[i].key == s[j].key,
    ensures
        i == j,
{
    if i < j {
        assert(s[i].key.rank() < s[j].key.rank());
    } else if j < i {
        assert(s[j].key.rank() < s[i].key.rank());
    }
}

proof fn lemma_map_at<K: SortKey, V>(s: Seq<Entry<K, V>>, i: int)
    requires
        sorted(s),
        0 <= i < s.len(),
    ensures
        entries_map(s).dom().contains(s[i].key),
        entries_map(s)[s[i].key] == s[i].value,
{
    let k = s[i].key;
    assert(has_key(s, k));
    let c = choose|c: int| 0 <= c < s.len() && s[c].key == k;
    lemma_unique(s, i, c);
}

/// Where `key` goes in the sorted `s`: every entry before has a smaller
/// key, every entry from there on a key that is not smaller.
fn lower_bound<K: SortKey, V>(s: &[Entry<K, V>], key: &K) -> (r: usize)
    requires
        sorted(s@),
    ensures
        r <= s@.len(),
        forall|i: int| 0 <= i < r ==> s@[i].key.rank() < key.rank(),
        forall|i: int| r <= i < s@.len() ==> s@[i].key.rank() >= key.rank(),
{
    let mut lo: usize = 0;
    let mut hi: usize = s.len();
    while lo < hi
        invariant
            lo <= hi <= s@.len(),
            sorted(s@),
            forall|i: int| 0 <= i < lo ==> s@[i].key.rank() < key.rank(),
            forall|i: int| hi <= i < s@.len() ==> s@[i].key.rank() >= key.rank(),
        decreases hi - lo,
    {
        let mid = lo + (hi - lo) / 2;
        if s[mid].key.less(key) {
            lo = mid + 1;
        } else {
            hi = mid;
        }
    }
    lo
}

/// The index of the entry with `key`, if any.
fn search_sorted<K: SortKey, V>(s: &[Entry<K, V>], key: &K) -> (r: Option<usize>)
    requires
        sorted(s@),
    ensures
        r matches Some(i) ==> i < s@.len() && s@[i as int].key == *key,
        r is None ==> !has_key(s@, *key),
{
    let i = lower_bound(s, key);
    if i < s.len() && !key.less(&s[i].key) {
        proof {
            K::rank_injective(s@[i as int].key, *key);
        }
        Some(i)
    } else {
        proof {
            if has_key(s@, *key) {
                let j = choose|j: int| 0 <= j < s@.len() && s@[j].key == *key;
                if j < i {
                    assert(s@[j].key.rank() < key.rank());
                } else {
                    assert(s@[j].key.rank() >= key.rank());
                    assert(i < s@.len());
                    assert(s@[i as int].key.rank() <= s@[j].key.rank()) by {
                        if i < j {
                            assert(s@[i as int].key.rank() < s@[j].key.rank());
                        }
                    }
                }
            }
        }
        None
    }
}

/// Inserting at the lower bound of an absent key keeps the entries sorted
/// and adds the key to the map.
proof fn lemma_insert_at<K: SortKey, V>(s: Seq<Entry<K, V>>, idx: int, e: Entry<K, V>)
    requires
        sorted(s),
        0 <= idx <= s.len(),
        !has_key(s, e.key),
        forall|i: int| 0 <= i < idx ==> s[i].key.rank() < e.key.rank(),
        forall|i: int| idx <= i < s.len() ==> s[i].key.rank() >= e.key.rank(),
    ensures
        sorted(s.insert(idx, e)),
        entries_map(s.insert(idx, e)) == entries_map(s).insert(e.key, e.value),
{
    let t = s.insert(idx, e);
    assert forall|i: int| idx <= i < s.len() implies s[i].key.rank() > e.key.rank() by {
        if s[i].key.rank() == e.key.rank() {
            K::rank_injective(s[i].key, e.key);
            assert(has_key(s, e.key));
        }
    }
    assert(sorted(t)) by {
        assert forall|i: int, j: int| 0 <= i < j < t.len() implies t[i].key.rank() < t[j].key.rank() by {
            if j < idx {
            } else if j == idx {
            } else if i < idx {
                assert(t[j] == s[j - 1]);
            } else if i == idx {
                assert(t[j] == s[j - 1]);
            } else {
                assert(t[i] == s[i - 1]);
                assert(t[j] == s[j - 1]);
            }
        }
    }
    let m = entries_map(s).insert(e.key, e.value);
    assert forall|k: K| #[trigger] entries_map(t).dom().contains(k) == m.dom().contains(k) by {
        if has_key(t, k) {
            let i = choose|i: int| 0 <= i < t.len() && t[i].key == k;
            if i < idx {
                assert(s[i].key == k);
            } else if i > idx {
                assert(s[i - 1].key == k);
            }
        }
        if has_key(s, k) {
            let i = choose|i: int| 0 <= i < s.len() && s[i].key == k;
            if i < idx {
                assert(t[i].key == k);
            } else {
                assert(t[i + 1].key == k);
            }
        }
        if k == e.key {
            assert(t[idx].key == k);
        }
    }
    assert forall|k: K| #[trigger] m.dom().contains(k) implies entries_map(t)[k] == m[k] by {
        if k == e.key {
            lemma_map_at(t, idx);
        } else {
            let i = choose|i: int| 0 <= i < s.len() && s[i].key == k;
            lemma_map_at(s, i);
            if i < idx {
                lemma_map_at(t, i);
            } else {
                assert(t[i + 1] == s[i]);
                lemma_map_at(t, i + 1);
            }
        }
    }
    assert(entries_map(t) =~= m);
}

/// Removing the entry at `idx` keeps the entries sorted and removes its key
/// from the map.
proof fn lemma_remove_at<K: SortKey, V>(s: Seq<Entry<K, V>>, idx: int)
    requires
        sorted(s),
        0 <= idx < s.len(),
    ensures
        sorted(s.remove(idx)),
        entries_map(s.remove(idx)) == entries_map(s).remove(s[idx].key),
{
    let t = s.remove(idx);
    let key = s[idx].key;
    assert(sorted(t)) by {
        assert forall|i: int, j: int| 0 <= i < j < t.len() implies t[i].key.rank() < t[j].key.rank() by {
            if j < idx {
            } else if i < idx {
                assert(t[j] == s[j + 1]);
            } else {
                assert(t[i] == s[i + 1]);
                assert(t[j] == s[j + 1]);
            }
        }
    }
    let m = entries_map(s).remove(key);
    assert forall|k: K| #[trigger] entries_map(t).dom().contains(k) == m.dom().contains(k) by {
        if has_key(t, k) {
            let i = choose|i: int| 0 <= i < t.len() && t[i].key == k;
            if i < idx {
                assert(s[i].key == k);
                if k == key {
                    lemma_unique(s, i, idx);
                }
            } else {
                assert(s[i + 1].key == k);
                if k == key {
                    lemma_unique(s, i + 1, idx);
                }
            }
        }
        if has_key(s, k) && k != key {
            let i = choose|i: int| 0 <= i < s.len() && s[i].key == k;
            if i < idx {
                assert(t[i].key == k);
            } else if i > idx {
                assert(t[i - 1].key == k);
            }
        }
    }
    assert forall|k: K| #[trigger] m.dom().contains(k) implies entries_map(t)[k] == m[k] by {
        let i = choose|i: int| 0 <= i < s.len() && s[i].key == k;
        lemma_map_at(s, i);
        if i < idx {
            lemma_map_at(t, i);
        } else {
            assert(i != idx);
            assert(t[i - 1] == s[i]);
            lemma_map_at(t, i - 1);
        }
    }
    assert(entries_map(t) =~= m);
}

/// Replacing the value of the entry at `idx` updates its key in the map.
proof fn lemma_update_at<K: SortKey, V>(s: Seq<Entry<K, V>>, idx: int, v: V)
    requires
        sorted(s),
        0 <= idx < s.len(),
    ensures
        sorted(s.update(idx, Entry { key: s[idx].key, value: v })),
        entries_map(s.update(idx, Entry { key: s[idx].key, value: v })) == entries_map(s).insert(
            s[idx].key,
            v,
        ),
{
    let e = Entry { key: s[idx].key, value: v };
    let t = s.update(idx, e);
    let m = entries_map(s).insert(s[idx].key, v);
    assert(sorted(t)) by {
        assert forall|i: int, j: int| 0 <= i < j < t.len() implies t[i].key.rank() < t[j].key.rank() by {
            assert(t[i].key == s[i].key);
            assert(t[j].key == s[j].key);
        }
    }
    assert forall|k: K| #[trigger] entries_map(t).dom().contains(k) == m.dom().contains(k) by {
        if has_key(t, k) {
            let i = choose|i: int| 0 <= i < t.len() && t[i].key == k;
            assert(s[i].key == k);
        }
        if has_key(s, k) {
            let i = choose|i: int| 0 <= i < s.len() && s[i].key == k;
            assert(t[i].key == k);
        }
    }
    assert forall|k: K| #[trigger] m.dom().contains(k) implies entries_map(t)[k] == m[k] by {
        if k == s[idx].key {
            lemma_map_at(t, idx);
        } else {
            let i = choose|i: int| 0 <= i < s.len() && s[i].key == k;
            lemma_map_at(s, i);
            assert(t[i] == s[i]);
            lemma_map_at(t, i);
        }
    }
    assert(entries_map(t) =~= m);
}

/// A map from keys to values holding at most `N` entries, sorted by key.
pub struct ArrayLinearMap<K, V, const N: usize> {
    items: Vec<Entry<K, V>>,
}

impl<K, V, const N: usize> ArrayLinearMap<K, V, N> {
    /// The entries, sorted by key.
    pub closed spec fn entries(&self) -> Seq<Entry<K, V>> {
        self.items@
    }

    /// The map: each key to its value.
    pub open spec fn map(&self) -> Map<K, V> {
        entries_map(self.entries())
    }

    /// The entries are sorted by key.
    pub open spec fn wf(&self) -> bool
        where K: SortKey
    {
        sorted(self.entries())
    }

    /// An empty map.
    pub fn new() -> (m: Self)
        ensures
            m.entries() == Seq::<Entry<K, V>>::empty(),
    {
        ArrayLinearMap { items: Vec::new() }
    }

    /// Number of entries.
    pub fn len(&self) -> (r: usize)
        ensures
            r == self.entries().len(),
    {
        self.items.len()
    }

    /// Whether the map is empty.
    pub fn is_empty(&self) -> (r: bool)
        ensures
            r == (self.entries().len() == 0),
    {
        self.items.len() == 0
    }

    /// The capacity `N`.
    pub fn capacity(&self) -> (r: usize)
        ensures
            r == N,
    {
        N
    }

    /// The value for `key`, if any.
    pub fn get(&self, key: &K) -> (r: Option<&V>)
        where K: SortKey
        requires
            self.wf(),
        ensures
            self.map().dom().contains(*key) ==> r == Some(&self.map()[*key]),
            !self.map().dom().contains(*key) ==> r is None,
    {
        match search_sorted(self.items.as_slice(), key) {
            Some(i) => {
                proof {
                    lemma_map_at(self.items@, i as int);
                }
                Some(&self.items[i].value)
            },
            None => None,
        }
    }

    /// A mutable reference to the value for `key`, if any.
    pub fn get_mut(&mut self, key: &K) -> (r: Option<&mut V>)
        where K: SortKey
        requires
            old(self).wf(),
        ensures
            old(self).map().dom().contains(*key) ==> (r matches Some(v) && *v == old(self).map()[*key]
                && final(self).map() == old(self).map().insert(*key, *final(v)) && final(self).wf()
                && final(self).entries().len() == old(self).entries().len()),
            !old(self).map().dom().contains(*key) ==> r is None && final(self).entries() == old(
                self,
            ).entries(),
    {
        match search_sorted(self.items.as_slice(), key) {
            Some(i) => {
                proof {
                    lemma_map_at(self.items@, i as int);
                    lemma_update_at_any(self.items@, i as int);
                }
                let e = &mut self.items[i];
                Some(&mut e.value)
            },
            None => None,
        }
    }

    /// Insert or replace the value for `key`: `Ok(Some(old))` when `key` was
    /// present, `Ok(None)` when it was added, and `Err(value)` (map
    /// unchanged) when it was absent and the map already holds `N` entries.
    pub fn insert(&mut self, key: K, value: V) -> (r: Result<Option<V>, V>)
        where K: SortKey
        requires
            old(self).wf(),
        ensures
            final(self).wf(),
            old(self).map().dom().contains(key) ==> r == Ok::<Option<V>, V>(Some(old(self).map()[key]))
                && final(self).map() == old(self).map().insert(key, value)
                && final(self).entries().len() == old(self).entries().len(),
            !old(self).map().dom().contains(key) && old(self).entries().len() < N ==> r == Ok::<
                Option<V>,
                V,
            >(None) && final(self).map() == old(self).map().insert(key, value)
                && final(self).entries().len() == old(self).entries().len() + 1,
            !old(self).map().dom().contains(key) && old(self).entries().len() >= N ==> r == Err::<
                Option<V>,
                V,
            >(value) && final(self).entries() == old(self).entries(),
    {
        if let Some(i) = search_sorted(self.items.as_slice(), &key) {
            proof {
                lemma_map_at(self.items@, i as int);
                lemma_update_at(self.items@, i as int, value);
            }
            let mut v = value;
            std::mem::swap(&mut self.items[i].value, &mut v);
            proof {
                assert(self.items@ =~= old(self).items@.update(i as int, Entry { key: old(self).items@[i as int].key, value }));
            }
            return Ok(Some(v));
        }
        if self.items.len() >= N {
            return Err(value);
        }
        let idx = lower_bound(self.items.as_slice(), &key);
        proof {
            lemma_insert_at(self.items@, idx as int, Entry { key, value });
        }
        self.items.insert(idx, Entry::new(key, value));
        Ok(None)
    }

    /// Remove `key`, returning its value if it was present.
    pub fn remove(&mut self, key: &K) -> (r: Option<V>)
        where K: SortKey
        requires
            old(self).wf(),
        ensures
            final(self).wf(),
            final(self).map() == old(self).map().remove(*key),
            old(self).map().dom().contains(*key) ==> r == Some(old(self).map()[*key])
                && final(self).entries().len() == old(self).entries().len() - 1,
            !old(self).map().dom().contains(*key) ==> r is None && final(self).entries() == old(
                self,
            ).entries(),
    {
        match search_sorted(self.items.as_slice(), key) {
            Some(i) => {
                proof {
                    lemma_map_at(self.items@, i as int);
                    lemma_remove_at(self.items@, i as int);
                }
                let e = self.items.remove(i);
                Some(e.value)
            },
            None => {
                proof {
                    assert(old(self).map().remove(*key) =~= old(self).map());
                }
                None
            },
        }
    }

    /// The entries in key order.
    pub fn iter(&self) -> (r: &[Entry<K, V>])
        ensures
            r@ == self.entries(),
    {
        self.items.as_slice()
    }

    /// The keys in order.
    pub fn keys(&self) -> (r: Vec<&K>)
        ensures
            r@.len() == self.entries().len(),
            forall|i: int| 0 <= i < r@.len() ==> *r@[i] == self.entries()[i].key,
    {
        let mut out: Vec<&K> = Vec::new();
        let mut i: usize = 0;
        while i < self.items.len()
            invariant
                i <= self.items@.len(),
                out@.len() == i,
                forall|j: int| 0 <= j < i ==> *out@[j] == self.items@[j].key,
            decreases self.items@.len() - i,
        {
            out.push(&self.items[i].key);
            i += 1;
        }
        out
    }

    /// The values in key order.
    pub fn values(&self) -> (r: Vec<&V>)
        ensures
            r@.len() == self.entries().len(),
            forall|i: int| 0 <= i < r@.len() ==> *r@[i] == self.entries()[i].value,
    {
        let mut out: Vec<&V> = Vec::new();
        let mut i: usize = 0;
        while i < self.items.len()
            invariant
                i <= self.items@.len(),
                out@.len() == i,
                forall|j: int| 0 <= j < i ==> *out@[j] == self.items@[j].value,
            decreases self.items@.len() - i,
        {
            out.push(&self.items[i].value);
            i += 1;
        }
        out
    }
}

impl<K, V, const N: usize> Default for ArrayLinearMap<K, V, N> {
    fn default() -> (m: Self)
        ensures
            m.entries() == Seq::<Entry<K, V>>::empty(),
    {
        Self::new()
    }
}

/// A map from keys to values holding any number of entries, sorted by key.
pub struct VecLinearMap<K, V> {
    items: Vec<Entry<K, V>>,
}

impl<K, V> VecLinearMap<K, V> {
    /// The entries, sorted by key.
    pub closed spec fn entries(&self) -> Seq<Entry<K, V>> {
        self.items@
    }

    /// The map: each key to its value.
    pub open spec fn map(&self) -> Map<K, V> {
        entries_map(self.entries())
    }

    /// The entries are sorted by key.
    pub open spec fn wf(&self) -> bool
        where K: SortKey
    {
        sorted(self.entries())
    }

    /// An empty map.
    pub fn new() -> (m: Self)
        ensures
            m.entries() == Seq::<Entry<K, V>>::empty(),
    {
        VecLinearMap { items: Vec::new() }
    }

    /// Number of entries.
    pub fn len(&self) -> (r: usize)
        ensures
            r == self.entries().len(),
    {
        self.items.len()
    }

    /// Whether the map is empty.
    pub fn is_empty(&self) -> (r: bool)
        ensures
            r == (self.entries().len() == 0),
    {
        self.items.len() == 0
    }

    /// The value for `key`, if any.
    pub fn get(&self, key: &K) -> (r: Option<&V>)
        where K: SortKey
        requires
            self.wf(),
        ensures
            self.map().dom().contains(*key) ==> r == Some(&self.map()[*key]),
            !self.map().dom().contains(*key) ==> r is None,
    {
        match search_sorted(self.items.as_slice(), key) {
            Some(i) => {
                proof {
                    lemma_map_at(self.items@, i as int);
                }
                Some(&self.items[i].value)
            },
            None => None,
        }
    }

    /// A mutable reference to the value for `key`, if any.
    pub fn get_mut(&mut self, key: &K) -> (r: Option<&mut V>)
        where K: SortKey
        requires
            old(self).wf(),
        ensures
            old(self).map().dom().contains(*key) ==> (r matches Some(v) && *v == old(self).map()[*key]
                && final(self).map() == old(self).map().insert(*key, *final(v)) && final(self).wf()
                && final(self).entries().len() == old(self).entries().len()),
            !old(self).map().dom().contains(*key) ==> r is None && final(self).entries() == old(
                self,
            ).entries(),
    {
        match search_sorted(self.items.as_slice(), key) {
            Some(i) => {
                proof {
                    lemma_map_at(self.items@, i as int);
                    lemma_update_at_any(self.items@, i as int);
                }
                let e = &mut self.items[i];
                Some(&mut e.value)
            },
            None => None,
        }
    }

    /// Insert or replace the value for `key`, returning the old value when
    /// `key` was present.
    pub fn insert(&mut self, key: K, value: V) -> (r: Option<V>)
        where K: SortKey
        requires
            old(self).wf(),
        ensures
            final(self).wf(),
            final(self).map() == old(self).map().insert(key, value),
            old(self).map().dom().contains(key) ==> r == Some(old(self).map()[key])
                && final(self).entries().len() == old(self).entries().len(),
            !old(self).map().dom().contains(key) ==> r is None && final(self).entries().len()
                == old(self).entries().len() + 1,
    {
        if let Some(i) = search_sorted(self.items.as_slice(), &key) {
            proof {
                lemma_map_at(self.items@, i as int);
                lemma_update_at(self.items@, i as int, value);
            }
            let mut v = value;
            std::mem::swap(&mut self.items[i].value, &mut v);
            proof {
                assert(self.items@ =~= old(self).items@.update(i as int, Entry { key: old(self).items@[i as int].key, value }));
            }
            return Some(v);
        }
        let idx = lower_bound(self.items.as_slice(), &key);
        proof {
            lemma_insert_at(self.items@, idx as int, Entry { key, value });
        }
        self.items.insert(idx, Entry::new(key, value));
        None
    }

    /// Remove `key`, returning its value if it was present.
    pub fn remove(&mut self, key: &K) -> (r: Option<V>)
        where K: SortKey
        requires
            old(self).wf(),
        ensures
            final(self).wf(),
            final(self).map() == old(self).map().remove(*key),
            old(self).map().dom().contains(*key) ==> r == Some(old(self).map()[*key])
                && final(self).entries().len() == old(self).entries().len() - 1,
            !old(self).map().dom().contains(*key) ==> r is None && final(self).entries() == old(
                self,
            ).entries(),
    {
        match search_sorted(self.items.as_slice(), key) {
            Some(i) => {
                proof {
                    lemma_map_at(self.items@, i as int);
                    lemma_remove_at(self.items@, i as int);
                }
                let e = self.items.remove(i);
                Some(e.value)
            },
            None => {
                proof {
                    assert(old(self).map().remove(*key) =~= old(self).map());
                }
                None
            },
        }
    }

    /// The entries in key order.
    pub fn iter(&self) -> (r: &[Entry<K, V>])
        ensures
            r@ == self.entries(),
    {
        self.items.as_slice()
    }

    /// The keys in order.
    pub fn keys(&self) -> (r: Vec<&K>)
        ensures
            r@.len() == self.entries().len(),
            forall|i: int| 0 <= i < r@.len() ==> *r@[i] == self.entries()[i].key,
    {
        let mut out: Vec<&K> = Vec::new();
        let mut i: usize = 0;
        while i < self.items.len()
            invariant
                i <= self.items@.len(),
                out@.len() == i,
                forall|j: int| 0 <= j < i ==> *out@[j] == self.items@[j].key,
            decreases self.items@.len() - i,
        {
            out.push(&self.items[i].key);
            i += 1;
        }
        out
    }

    /// The values in key order.
    pub fn values(&self) -> (r: Vec<&V>)
        ensures
            r@.len() == self.entries().len(),
            forall|i: int| 0 <= i < r@.len() ==> *r@[i] == self.entries()[i].value,
    {
        let mut out: Vec<&V> = Vec::new();
        let mut i: usize = 0;
        while i < self.items.len()
            invariant
                i <= self.items@.len(),
                out@.len() == i,
                forall|j: int| 0 <= j < i ==> *out@[j] == self.items@[j].value,
            decreases self.items@.len() - i,
        {
            out.push(&self.items[i].value);
            i += 1;
        }
        out
    }
}

impl<K, V> Default for VecLinearMap<K, V> {
    fn default() -> (m: Self)
        ensures
            m.entries() == Seq::<Entry<K, V>>::empty(),
    {
        Self::new()
    }
}

/// Changing the value of the entry at `idx` keeps the entries sorted and
/// updates its key in the map.
proof fn lemma_update_at_any<K: SortKey, V>(s: Seq<Entry<K, V>>, idx: int)
    requires
        sorted(s),
        0 <= idx < s.len(),
    ensures
        forall|e: Entry<K, V>|
            e.key == s[idx].key ==> sorted(#[trigger] s.update(idx, e)) && entries_map(
                s.update(idx, e),
            ) == entries_map(s).insert(s[idx].key, e.value),
{
    assert forall|e: Entry<K, V>|
        e.key == s[idx].key implies sorted(#[trigger] s.update(idx, e)) && entries_map(
            s.update(idx, e),
        ) == entries_map(s).insert(s[idx].key, e.value) by {
        lemma_update_at(s, idx, e.value);
        assert(e == Entry { key: s[idx].key, value: e.value });
    }
}

} // verus!
