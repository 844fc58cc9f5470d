//! A fixed-capacity FIFO ring buffer.
//!
//! [`Ring`] holds at most `N` elements in a circular buffer. When it is full,
//! [`Ring::push_back`] fails with [`RingFull`], unless the ring was made with
//! [`Ring::new_overwrite`], in which case the oldest element is dropped to
//! make room.
use vstd::prelude::*;

verus! {

/// The ring is full (and not in overwrite mode).
#[derive(Clone, Copy, Debug, PartialEq, Eq, Hash, Structural)]
pub struct RingFull;

/// A FIFO queue of at most `N` elements in a circular buffer.
#[derive(Clone)]
pub struct Ring<T, const N: usize> {
    /// `N` slots; the occupied ones are `len` slots from `head` on,
    /// wrapping around.
    buf: Vec<Option<T>>,
    head: usize,
    tail: usize,
    len: usize,
    overwrite: bool,
}

/// The slot `i` places after `head` in a buffer of `n` slots.
pub open spec fn slot(head: int, i: int, n: int) -> int {
    if head + i < n {
        head + i
    } else {
        head + i - n
    }
}

/// An operation on a ring: push a value at the back, or pop the front.
pub enum RingOp<T> {
    Push(T),
    Pop,
}

/// What one operation does to the contents `q` of a ring of capacity `n`:
/// a push onto a full ring is refused, or in overwrite mode first drops the
/// front; a pop drops the front, if any.
pub open spec fn queue_step<T>(q: Seq<T>, op: RingOp<T>, n: nat, overwrite: bool) -> Seq<T> {
    match op {
        RingOp::Push(v) => if q.len() < n {
            q.push(v)
        } else if overwrite && n > 0 {
            q.drop_first().push(v)
        } else {
            q
        },
        RingOp::Pop => if q.len() == 0 {
            q
        } else {
            q.drop_first()
        },
    }
}

/// The contents of a fresh ring after the operations `ops`, in order.
pub open spec fn queue_run<T>(ops: Seq<RingOp<T>>, n: nat, overwrite: bool) -> Seq<T>
    decreases ops.len(),
{
    if ops.len() == 0 {
        Seq::empty()
    } else {
        queue_step(queue_run(ops.drop_last(), n, overwrite), ops.last(), n, overwrite)
    }
}

/// The values the ring took in, in order of their pushes.
pub open spec fn taken_in<T>(ops: Seq<RingOp<T>>, n: nat, overwrite: bool) -> Seq<T>
    decreases ops.len(),
{
    if ops.len() == 0 {
        Seq::empty()
    } else {
        let before = taken_in(ops.drop_last(), n, overwrite);
        let q = queue_run(ops.drop_last(), n, overwrite);
        match ops.last() {
            RingOp::Push(v) => if q.len() < n || (overwrite && n > 0) {
                before.push(v)
            } else {
                before
            },
            RingOp::Pop => before,
        }
    }
}

/// How many values left the front of the ring: popped, or dropped to make
/// room in overwrite mode.
pub open spec fn taken_out<T>(ops: Seq<RingOp<T>>, n: nat, overwrite: bool) -> nat
    decreases ops.len(),
{
    if ops.len() == 0 {
        0
    } else {
        let before = taken_out(ops.drop_last(), n, overwrite);
        let q = queue_run(ops.drop_last(), n, overwrite);
        match ops.last() {
            RingOp::Push(_) => if q.len() >= n && overwrite && n > 0 {
                before + 1
            } else {
                before
            },
            RingOp::Pop => if q.len() > 0 {
                before + 1
            } else {
                before
            },
        }
    }
}

/// After any sequence of pushes and pops, a ring holds at most `n` values:
/// the values it took in, oldest first, less those that left its front.
/// ([`Ring::push_back`] and [`Ring::pop_front`] each take one
/// [`queue_step`], so a ring made empty and fed `ops` holds
/// `queue_run(ops, N, mode)`.)
pub proof fn lemma_ring_is_fifo<T>(ops: Seq<RingOp<T>>, n: nat, overwrite: bool)
    ensures
        queue_run(ops, n, overwrite).len() <= n,
        taken_out(ops, n, overwrite) <= taken_in(ops, n, overwrite).len(),
        queue_run(ops, n, overwrite) == taken_in(ops, n, overwrite).skip(
            taken_out(ops, n, overwrite) as int,
        ),
    decreases ops.len(),
{
    if ops.len() == 0 {
        assert(Seq::<T>::empty().skip(0) =~= Seq::<T>::empty());
    } else {
        let init = ops.drop_last();
        lemma_ring_is_fifo(init, n, overwrite);
        let a = taken_in(init, n, overwrite);
        let k = taken_out(init, n, overwrite) as int;
        let q = queue_run(init, n, overwrite);
        match ops.last() {
            RingOp::Push(v) => {
                if q.len() < n {
                    assert(a.push(v).skip(k) =~= a.skip(k).push(v));
                } else if overwrite && n > 0 {
                    assert(a.push(v).skip(k + 1) =~= a.skip(k).drop_first().push(v));
                }
            },
            RingOp::Pop => {
                if q.len() > 0 {
                    assert(a.skip(k + 1) =~= a.skip(k).drop_first());
                }
            },
        }
    }
}

impl<T, const N: usize> View for Ring<T, N> {
    type V = Seq<T>;

    /// The queued elements, front first.
    closed spec fn view(&self) -> Seq<T> {
        Seq::new(self.len as nat, |i: int| self.buf@[slot(self.head as int, i, N as int)]->0)
    }
}

impl<T, const N: usize> Ring<T, N> {
    /// The buffer layout is consistent: `N` slots, the occupied ones `len`
    /// slots from `head` on, `tail` just past them.
    pub closed spec fn wf(&self) -> bool {
        &&& self.buf@.len() == N
        &&& self.len <= N
        &&& N == 0 ==> self.head == 0 && self.tail == 0
        &&& N > 0 ==> self.head < N && self.tail == slot(self.head as int, self.len as int, N as int)
        &&& forall|i: int| 0 <= i < self.len ==> (#[trigger] self.buf@[slot(self.head as int, i, N as int)]) is Some
    }

    /// Whether the ring drops its oldest element when pushed while full.
    pub closed spec fn overwrites(&self) -> bool {
        self.overwrite
    }

    /// An empty ring of capacity `N` in the given mode.
    fn with_mode(overwrite: bool) -> (r: Self)
        ensures
            r.wf(),
            r@ == Seq::<T>::empty(),
            r.overwrites() == overwrite,
    {
        let mut buf: Vec<Option<T>> = Vec::new();
        let mut k: usize = 0;
        while k < N
            invariant
                k <= N,
                buf@.len() == k,
            decreases N - k,
        {
            buf.push(None);
            k += 1;
        }
        let r = Ring { buf, head: 0, tail: 0, len: 0, overwrite };
        proof {
            assert(r@ =~= Seq::<T>::empty());
        }
        r
    }

    /// An empty ring that rejects pushes when full.
    pub fn new() -> (r: Self)
        ensures
            r.wf(),
            r@ == Seq::<T>::empty(),
            !r.overwrites(),
    {
        Self::with_mode(false)
    }

    /// An empty ring that, when full, drops the oldest element to make room.
    pub fn new_overwrite() -> (r: Self)
        ensures
            r.wf(),
            r@ == Seq::<T>::empty(),
            r.overwrites(),
    {
        Self::with_mode(true)
    }

    /// Number of queued elements.
    pub fn len(&self) -> (r: usize)
        ensures
            r == self@.len(),
    {
        self.len
    }

    /// Whether the ring is empty.
    pub fn is_empty(&self) -> (r: bool)
        ensures
            r == (self@.len() == 0),
    {
        self.len == 0
    }

    /// Whether the ring holds `N` elements.
    pub fn is_full(&self) -> (r: bool)
        ensures
            r == (self@.len() == N),
    {
        self.len == N
    }

    /// The capacity `N`.
    pub fn capacity(&self) -> (r: usize)
        ensures
            r == N,
    {
        N
    }

    /// The slot after `i` (wrapping).
    fn advance(i: usize) -> (r: usize)
        requires
            i < N,
        ensures
            r == slot(i as int, 1, N as int),
    {
        if i + 1 == N {
            0
        } else {
            i + 1
        }
    }

    /// Append `value` at the back. A full ring fails with [`RingFull`], or in
    /// overwrite mode drops its front element first.
    pub fn push_back(&mut self, value: T) -> (r: Result<(), RingFull>)
        requires
            old(self).wf(),
            N > 0 || !old(self).overwrites(),
        ensures
            final(self).wf(),
            final(self).overwrites() == old(self).overwrites(),
            old(self)@.len() < N ==> r is Ok && final(self)@ == old(self)@.push(value),
            old(self)@.len() == N && !old(self).overwrites() ==> r is Err && final(self)@ == old(
                self,
            )@,
            old(self)@.len() == N && old(self).overwrites() ==> r is Ok && final(self)@ == old(
                self,
            )@.drop_first().push(value),
            final(self)@ == queue_step(old(self)@, RingOp::Push(value), N as nat, old(self).overwrites()),
    {
        let ghost start = self@;
        if self.len == N {
            if !self.overwrite {
                return Err(RingFull);
            }
            let mut gone: Option<T> = None;
            self.buf.set_and_swap(self.head, &mut gone);
            let ghost h = self.head as int;
            self.head = Self::advance(self.head);
            self.len -= 1;
            proof {
                assert forall|i: int| 0 <= i < self.len implies #[trigger] slot(self.head as int, i, N as int)
                    == slot(h, i + 1, N as int) by {}
                assert(self@ =~= start.drop_first());
            }
        }
        let ghost mid = self@;
        let mut v = Some(value);
        self.buf.set_and_swap(self.tail, &mut v);
        let ghost t = self.tail as int;
        self.tail = Self::advance(self.tail);
        self.len += 1;
        proof {
            assert forall|i: int| 0 <= i < self.len - 1 implies #[trigger] slot(self.head as int, i, N as int)
                != t by {}
            assert(self@ =~= mid.push(value));
        }
        Ok(())
    }

    /// Remove and return the front element.
    pub fn pop_front(&mut self) -> (r: Option<T>)
        requires
            old(self).wf(),
        ensures
            final(self).wf(),
            final(self).overwrites() == old(self).overwrites(),
            old(self)@.len() == 0 ==> r is None && final(self)@ == old(self)@,
            old(self)@.len() > 0 ==> r == Some(old(self)@[0]) && final(self)@ == old(
                self,
            )@.drop_first(),
            final(self)@ == queue_step(old(self)@, RingOp::<T>::Pop, N as nat, old(self).overwrites()),
    {
        if self.len == 0 {
            return None;
        }
        let ghost start = self@;
        let mut out: Option<T> = None;
        self.buf.set_and_swap(self.head, &mut out);
        let ghost h = self.head as int;
        self.head = Self::advance(self.head);
        self.len -= 1;
        if self.len == 0 {
            self.head = 0;
            self.tail = 0;
        }
        proof {
            assert forall|i: int| 0 <= i < self.len implies #[trigger] slot(self.head as int, i, N as int)
                == slot(h, i + 1, N as int) by {}
            assert(self@ =~= start.drop_first());
        }
        out
    }

    /// The front element, if any.
    pub fn front(&self) -> (r: Option<&T>)
        requires
            self.wf(),
        ensures
            self@.len() == 0 ==> r is None,
            self@.len() > 0 ==> r == Some(&self@[0]),
    {
        if self.len == 0 {
            return None;
        }
        proof {
            assert(slot(self.head as int, 0, N as int) == self.head);
        }
        self.buf[self.head].as_ref()
    }

    /// A mutable reference to the front element, if any.
    pub fn front_mut(&mut self) -> (r: Option<&mut T>)
        requires
            old(self).wf(),
        ensures
            old(self)@.len() == 0 ==> r is None && final(self)@ == old(self)@ && final(self).wf(),
            old(self)@.len() > 0 ==> (r matches Some(e) && *e == old(self)@[0] && final(self)@
                == old(self)@.update(0, *final(e)) && final(self).wf()),
            final(self).overwrites() == old(self).overwrites(),
    {
        if self.len == 0 {
            return None;
        }
        proof {
            assert(slot(self.head as int, 0, N as int) == self.head);
        }
        let ghost start = self@;
        let head = self.head;
        let r = match &mut self.buf[head] {
            Some(x) => Some(x),
            None => None,
        };
        proof {
            assert forall|i: int| 1 <= i < self.len implies #[trigger] slot(self.head as int, i, N as int) != head by {}
        }
        r
    }

    /// The back element, if any.
    pub fn back(&self) -> (r: Option<&T>)
        requires
            self.wf(),
        ensures
            self@.len() == 0 ==> r is None,
            self@.len() > 0 ==> r == Some(&self@[self@.len() - 1]),
    {
        if self.len == 0 {
            return None;
        }
        let idx = if self.tail == 0 {
            N - 1
        } else {
            self.tail - 1
        };
        proof {
            assert(slot(self.head as int, self.len - 1, N as int) == idx);
        }
        self.buf[idx].as_ref()
    }

    /// Remove every element.
    pub fn clear(&mut self)
        requires
            old(self).wf(),
        ensures
            final(self).wf(),
            final(self)@ == Seq::<T>::empty(),
            final(self).overwrites() == old(self).overwrites(),
    {
        loop
            invariant
                self.wf(),
                self.overwrites() == old(self).overwrites(),
            ensures
                self@.len() == 0,
            decreases self@.len(),
        {
            match self.pop_front() {
                Some(_) => {},
                None => {
                    break;
                },
            }
        }
    }

    /// An iterator over the elements, front to back.
    pub fn iter(&self) -> (r: Iter<'_, T, N>)
        requires
            self.wf(),
        ensures
            r.rest() == self@,
    {
        let it = Iter { ring: self, idx: 0 };
        proof {
            assert(it.rest() =~= self@);
        }
        it
    }
}

impl<T, const N: usize> Default for Ring<T, N> {
    fn default() -> (r: Self)
        ensures
            r.wf(),
            r@ == Seq::<T>::empty(),
            !r.overwrites(),
    {
        Self::new()
    }
}

/// A front-to-back iterator over a [`Ring`].
pub struct Iter<'a, T, const N: usize> {
    ring: &'a Ring<T, N>,
    idx: usize,
}

impl<'a, T, const N: usize> Iter<'a, T, N> {
    #[verifier::type_invariant]
    spec fn wf(self) -> bool {
        self.idx <= self.ring@.len() && self.ring.wf()
    }

    /// The elements not yet yielded.
    pub closed spec fn rest(&self) -> Seq<T> {
        self.ring@.skip(self.idx as int)
    }

    /// The next element, if any.
    pub fn next(&mut self) -> (r: Option<&'a T>)
        ensures
            old(self).rest().len() == 0 ==> r is None && final(self).rest() == old(self).rest(),
            old(self).rest().len() > 0 ==> r == Some(&old(self).rest()[0]) && final(self).rest()
                == old(self).rest().drop_first(),
    {
        proof {
            use_type_invariant(&*self);
        }
        let ring = self.ring;
        if self.idx < ring.len {
            let s = if self.idx < N - ring.head {
                ring.head + self.idx
            } else {
                self.idx - (N - ring.head)
            };
            let item = ring.buf[s].as_ref();
            proof {
                assert(ring@.skip(self.idx + 1) =~= ring@.skip(self.idx as int).drop_first());
            }
            self.idx += 1;
            match item {
                Some(x) => Some(x),
                None => None,
            }
        } else {
            None
        }
    }
}

} // verus!
