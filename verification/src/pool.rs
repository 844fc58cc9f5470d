//! Object pools with slot reuse.
//!
//! [`ArrayPool`] has `N` slots; [`Pool`] grows as needed. Acquiring stores a
//! value in a free slot and hands back a guard naming the slot; releasing the
//! guard frees the slot, and the most recently freed slot is the next one
//! handed out. The pool owns the values: read and change them through the
//! pool with the guard.
use vstd::prelude::*;

verus! {

/// Whether `free` lists distinct slots below `n`, each of them empty in
/// `values`, and every other slot of `values` holds a value.
pub open spec fn slots_ok<T>(values: Seq<Option<T>>, free: Seq<usize>, n: nat) -> bool {
    &&& values.len() == n
    &&& forall|i: int, j: int| 0 <= i < j < free.len() ==> free[i] != free[j]
    &&& forall|i: int| 0 <= i < free.len() ==> #[trigger] free[i] < n && values[free[i] as int] is None
    &&& forall|s: int| 0 <= s < n && values[s] is None ==> free.contains(s as usize)
}

proof fn lemma_free_len<T>(values: Seq<Option<T>>, free: Seq<usize>, n: nat)
    requires
        slots_ok(values, free, n),
    ensures
        free.len() <= n,
{
    let ints = free.map_values(|x: usize| x as int);
    assert(ints.no_duplicates()) by {
        assert forall|i: int, j: int| 0 <= i < ints.len() && 0 <= j < ints.len() && i != j implies ints[i]
            != ints[j] by {
            if i < j {
                assert(free[i] != free[j]);
            } else {
                assert(free[j] != free[i]);
            }
        }
    }
    ints.unique_seq_to_set();
    let range = vstd::set_lib::set_int_range(0, n as int);
    assert(ints.to_set().subset_of(range)) by {
        assert forall|x: int| ints.to_set().contains(x) implies range.contains(x) by {
            let k = choose|k: int| 0 <= k < ints.len() && ints[k] == x;
            assert(free[k] < n);
        }
    }
    vstd::set_lib::lemma_int_range(0, n as int);
    vstd::set_lib::lemma_len_subset(ints.to_set(), range);
}

/// The free list holds exactly the empty slots: once every slot is empty
/// (every acquired value released) all `n` slots are free again, and while
/// every slot is occupied none is.
pub proof fn lemma_free_slots_exact<T>(values: Seq<Option<T>>, free: Seq<usize>, n: nat)
    requires
        slots_ok(values, free, n),
        n <= usize::MAX,
    ensures
        (forall|s: int| 0 <= s < n ==> #[trigger] values[s] is None) ==> free.len() == n,
        (forall|s: int| 0 <= s < n ==> #[trigger] values[s] is Some) ==> free.len() == 0,
{
    if forall|s: int| 0 <= s < n ==> #[trigger] values[s] is None {
        let ints = free.map_values(|x: usize| x as int);
        assert(ints.no_duplicates()) by {
            assert forall|i: int, j: int|
                0 <= i < ints.len() && 0 <= j < ints.len() && i != j implies ints[i] != ints[j] by {
                if i < j {
                    assert(free[i] != free[j]);
                } else {
                    assert(free[j] != free[i]);
                }
            }
        }
        ints.unique_seq_to_set();
        let range = vstd::set_lib::set_int_range(0, n as int);
        assert(ints.to_set() =~= range) by {
            assert forall|x: int| ints.to_set().contains(x) implies range.contains(x) by {
                let k = choose|k: int| 0 <= k < ints.len() && ints[k] == x;
                assert(free[k] < n);
            }
            assert forall|x: int| range.contains(x) implies ints.to_set().contains(x) by {
                assert(values[x] is None);
                assert(free.contains(x as usize));
                let k = choose|k: int| 0 <= k < free.len() && free[k] == x as usize;
                assert(ints[k] == x);
            }
        }
        vstd::set_lib::lemma_int_range(0, n as int);
    }
    if forall|s: int| 0 <= s < n ==> #[trigger] values[s] is Some {
        if free.len() > 0 {
            assert(free[0] < n && values[free[0] as int] is None);
        }
    }
}

/// A handle on an occupied pool slot.
pub struct PoolGuard {
    index: usize,
}

impl PoolGuard {
    /// The slot this guard names.
    pub closed spec fn slot(&self) -> usize {
        self.index
    }

    /// The slot index this guard occupies.
    pub fn index(&self) -> (r: usize)
        ensures
            r == self.slot(),
    {
        self.index
    }

    /// Free the slot (dropping its value) and hand it back to `pool`.
    pub fn release<T, const N: usize>(self, pool: &mut ArrayPool<T, N>)
        requires
            old(pool).wf(),
            old(pool).slot_of(self.slot()) is Some,
        ensures
            final(pool).wf(),
            final(pool).slots() == old(pool).slots().update(self.slot() as int, None),
            final(pool).free() == old(pool).free().push(self.slot()),
    {
        pool.free_slot(self.index);
    }
}

/// A pool of `N` slots.
pub struct ArrayPool<T, const N: usize> {
    values: Vec<Option<T>>,
    /// Free slots; the last one is handed out next.
    free_stack: Vec<usize>,
}

impl<T, const N: usize> ArrayPool<T, N> {
    /// The slots: `Some(value)` where occupied.
    pub closed spec fn slots(&self) -> Seq<Option<T>> {
        self.values@
    }

    /// The contents of slot `i`.
    pub open spec fn slot_of(&self, i: usize) -> Option<T> {
        if i < self.slots().len() {
            self.slots()[i as int]
        } else {
            None
        }
    }

    /// The free slots, the next to be handed out last.
    pub closed spec fn free(&self) -> Seq<usize> {
        self.free_stack@
    }

    /// The bookkeeping is consistent.
    pub open spec fn wf(&self) -> bool {
        slots_ok(self.slots(), self.free(), N as nat)
    }

    /// A pool with every slot free; slot 0 is handed out first.
    pub fn new() -> (p: Self)
        ensures
            p.wf(),
            p.slots() == Seq::new(N as nat, |i: int| None::<T>),
            p.free() == Seq::new(N as nat, |i: int| (N - 1 - i) as usize),
    {
        let mut values: Vec<Option<T>> = Vec::new();
        let mut free_stack: Vec<usize> = Vec::new();
        let mut i: usize = 0;
        while i < N
            invariant
                i <= N,
                values@.len() == i,
                free_stack@.len() == i,
                forall|k: int| 0 <= k < i ==> values@[k] is None,
                forall|k: int| 0 <= k < i ==> #[trigger] free_stack@[k] == (N - 1 - k) as usize,
            decreases N - i,
        {
            values.push(None);
            free_stack.push(N - 1 - i);
            i += 1;
        }
        let p = ArrayPool { values, free_stack };
        proof {
            assert(p.slots() =~= Seq::new(N as nat, |i: int| None::<T>));
            assert(p.free() =~= Seq::new(N as nat, |i: int| (N - 1 - i) as usize));
            assert forall|s: int| 0 <= s < N && p.slots()[s] is None implies p.free().contains(
                s as usize,
            ) by {
                assert(p.free()[N - 1 - s] == s as usize);
            }
        }
        p
    }

    /// Number of occupied slots.
    pub fn len(&self) -> (r: usize)
        requires
            self.wf(),
        ensures
            r == N - self.free().len(),
    {
        proof {
            lemma_free_len(self.slots(), self.free(), N as nat);
        }
        N - self.free_stack.len()
    }

    /// Whether no slot is occupied.
    pub fn is_empty(&self) -> (r: bool)
        requires
            self.wf(),
        ensures
            r == (self.free().len() == N),
    {
        self.free_stack.len() == N
    }

    /// The number of slots, `N`.
    pub fn capacity(&self) -> (r: usize)
        ensures
            r == N,
    {
        N
    }

    /// Store `value` in the most recently freed slot; `None` (dropping
    /// `value`) when every slot is occupied.
    pub fn acquire(&mut self, value: T) -> (r: Option<PoolGuard>)
        requires
            old(self).wf(),
        ensures
            final(self).wf(),
            old(self).free().len() == 0 ==> r is None && final(self).slots() == old(self).slots()
                && final(self).free() == old(self).free(),
            old(self).free().len() > 0 ==> ({
                let i = old(self).free().last();
                &&& r matches Some(g) && g.slot() == i
                &&& final(self).free() == old(self).free().drop_last()
                &&& final(self).slots() == old(self).slots().update(i as int, Some(value))
            }),
    {
        let idx = match self.free_stack.pop() {
            Some(i) => i,
            None => {
                return None;
            },
        };
        let ghost old_free = old(self).free();
        self.values.set(idx, Some(value));
        proof {
            assert forall|s: int|
                0 <= s < N && self.slots()[s] is None implies self.free().contains(s as usize) by {
                assert(old(self).slots()[s] is None);
                assert(old_free.contains(s as usize));
                let k = choose|k: int| 0 <= k < old_free.len() && old_free[k] == s as usize;
                if k == old_free.len() - 1 {
                    assert(false);
                }
                assert(self.free()[k] == s as usize);
            }
        }
        Some(PoolGuard { index: idx })
    }

    /// The value in `g`'s slot.
    pub fn get(&self, g: &PoolGuard) -> (r: &T)
        requires
            self.slot_of(g.slot()) is Some,
        ensures
            *r == self.slot_of(g.slot())->0,
    {
        self.values[g.index].as_ref().unwrap()
    }

    /// A mutable reference to the value in `g`'s slot.
    pub fn get_mut(&mut self, g: &PoolGuard) -> (r: &mut T)
        requires
            old(self).wf(),
            old(self).slot_of(g.slot()) is Some,
        ensures
            *r == old(self).slot_of(g.slot())->0,
            final(self).free() == old(self).free(),
            final(self).slots() == old(self).slots().update(g.slot() as int, Some(*final(r))),
            final(self).wf(),
    {
        let ghost before = self.slots();
        let r = self.values[g.index].as_mut().unwrap();
        r
    }

    fn free_slot(&mut self, index: usize)
        requires
            old(self).wf(),
            old(self).slot_of(index) is Some,
        ensures
            final(self).wf(),
            final(self).slots() == old(self).slots().update(index as int, None),
            final(self).free() == old(self).free().push(index),
    {
        self.values.set(index, None);
        self.free_stack.push(index);
        proof {
            let old_free = old(self).free();
            assert forall|i: int, j: int| 0 <= i < j < self.free().len() implies self.free()[i]
                != self.free()[j] by {
                if j == old_free.len() {
                    assert(old(self).slots()[old_free[i] as int] is None);
                }
            }
            assert forall|s: int|
                0 <= s < N && self.slots()[s] is None implies self.free().contains(s as usize) by {
                if s == index {
                    assert(self.free()[old_free.len() as int] == index);
                } else {
                    assert(old_free.contains(s as usize));
                    let k = choose|k: int| 0 <= k < old_free.len() && old_free[k] == s as usize;
                    assert(self.free()[k] == s as usize);
                }
            }
        }
    }
}

impl<T, const N: usize> Default for ArrayPool<T, N> {
    fn default() -> (p: Self)
        ensures
            p.wf(),
            p.slots() == Seq::new(N as nat, |i: int| None::<T>),
            p.free() == Seq::new(N as nat, |i: int| (N - 1 - i) as usize),
    {
        Self::new()
    }
}

/// A handle on an occupied slot of a [`Pool`].
pub struct PoolGuardAlloc {
    index: usize,
}

impl PoolGuardAlloc {
    /// The slot this guard names.
    pub closed spec fn slot(&self) -> usize {
        self.index
    }

    /// The slot index this guard occupies.
    pub fn index(&self) -> (r: usize)
        ensures
            r == self.slot(),
    {
        self.index
    }

    /// Free the slot (dropping its value) and hand it back to `pool`.
    pub fn release<T>(self, pool: &mut Pool<T>)
        requires
            old(pool).wf(),
            old(pool).slot_of(self.slot()) is Some,
        ensures
            final(pool).wf(),
            final(pool).slots() == old(pool).slots().update(self.slot() as int, None),
            final(pool).free() == old(pool).free().push(self.slot()),
    {
        pool.free_slot(self.index);
    }
}

/// A pool that grows by one slot whenever every slot is occupied.
pub struct Pool<T> {
    values: Vec<Option<T>>,
    free: Vec<usize>,
}

impl<T> Pool<T> {
    /// The slots: `Some(value)` where occupied.
    pub closed spec fn slots(&self) -> Seq<Option<T>> {
        self.values@
    }

    /// The contents of slot `i`.
    pub open spec fn slot_of(&self, i: usize) -> Option<T> {
        if i < self.slots().len() {
            self.slots()[i as int]
        } else {
            None
        }
    }

    /// The free slots, the next to be handed out last.
    pub closed spec fn free(&self) -> Seq<usize> {
        self.free@
    }

    /// The bookkeeping is consistent.
    pub open spec fn wf(&self) -> bool {
        slots_ok(self.slots(), self.free(), self.slots().len())
    }

    /// An empty pool with no slots.
    pub fn new() -> (p: Self)
        ensures
            p.wf(),
            p.slots() == Seq::<Option<T>>::empty(),
            p.free() == Seq::<usize>::empty(),
    {
        Pool { values: Vec::new(), free: Vec::new() }
    }

    /// Number of occupied slots.
    pub fn len(&self) -> (r: usize)
        requires
            self.wf(),
        ensures
            r == self.slots().len() - self.free().len(),
    {
        proof {
            lemma_free_len(self.slots(), self.free(), self.slots().len());
        }
        self.values.len() - self.free.len()
    }

    /// Whether no slot is occupied.
    pub fn is_empty(&self) -> (r: bool)
        requires
            self.wf(),
        ensures
            r == (self.free().len() == self.slots().len()),
    {
        self.free.len() == self.values.len()
    }

    /// Store `value` in the most recently freed slot, or in a new slot when
    /// none is free.
    pub fn acquire(&mut self, value: T) -> (g: PoolGuardAlloc)
        requires
            old(self).wf(),
            old(self).slots().len() < usize::MAX,
        ensures
            final(self).wf(),
            old(self).free().len() == 0 ==> g.slot() == old(self).slots().len()
                && final(self).free() == old(self).free()
                && final(self).slots() == old(self).slots().push(Some(value)),
            old(self).free().len() > 0 ==> ({
                let i = old(self).free().last();
                &&& g.slot() == i
                &&& final(self).free() == old(self).free().drop_last()
                &&& final(self).slots() == old(self).slots().update(i as int, Some(value))
            }),
    {
        match self.free.pop() {
            Some(idx) => {
                let ghost old_free = old(self).free();
                self.values.set(idx, Some(value));
                proof {
                    assert forall|s: int|
                        0 <= s < self.slots().len() && self.slots()[s] is None implies self.free().contains(
                        s as usize,
                    ) by {
                        assert(old(self).slots()[s] is None);
                        assert(old_free.contains(s as usize));
                        let k = choose|k: int| 0 <= k < old_free.len() && old_free[k] == s as usize;
                        if k == old_free.len() - 1 {
                            assert(false);
                        }
                        assert(self.free()[k] == s as usize);
                    }
                }
                PoolGuardAlloc { index: idx }
            },
            None => {
                let i = self.values.len();
                self.values.push(Some(value));
                proof {
                    assert forall|s: int|
                        0 <= s < self.slots().len() && self.slots()[s] is None implies self.free().contains(
                        s as usize,
                    ) by {
                        assert(old(self).slots()[s] is None);
                    }
                }
                PoolGuardAlloc { index: i }
            },
        }
    }

    /// The value in `g`'s slot.
    pub fn get(&self, g: &PoolGuardAlloc) -> (r: &T)
        requires
            self.slot_of(g.slot()) is Some,
        ensures
            *r == self.slot_of(g.slot())->0,
    {
        self.values[g.index].as_ref().unwrap()
    }

    fn free_slot(&mut self, index: usize)
        requires
            old(self).wf(),
            old(self).slot_of(index) is Some,
        ensures
            final(self).wf(),
            final(self).slots() == old(self).slots().update(index as int, None),
            final(self).free() == old(self).free().push(index),
    {
        self.values.set(index, None);
        self.free.push(index);
        proof {
            let old_free = old(self).free();
            assert forall|i: int, j: int| 0 <= i < j < self.free().len() implies self.free()[i]
                != self.free()[j] by {
                if j == old_free.len() {
                    assert(old(self).slots()[old_free[i] as int] is None);
                }
            }
            assert forall|s: int|
                0 <= s < self.slots().len() && self.slots()[s] is None implies self.free().contains(
                s as usize,
            ) by {
                if s == index {
                    assert(self.free()[old_free.len() as int] == index);
                } else {
                    assert(old_free.contains(s as usize));
                    let k = choose|k: int| 0 <= k < old_free.len() && old_free[k] == s as usize;
                    assert(self.free()[k] == s as usize);
                }
            }
        }
    }
}

impl<T> Default for Pool<T> {
    fn default() -> (p: Self)
        ensures
            p.wf(),
            p.slots() == Seq::<Option<T>>::empty(),
            p.free() == Seq::<usize>::empty(),
    {
        Self::new()
    }
}

} // verus!
