//! A `Vec`-like list with a fixed capacity `N`.
//!
//! [`ArrayVec`] holds at most `N` elements; pushing or inserting into a full
//! list fails with [`CapacityError`] and leaves it unchanged.
use vstd::prelude::*;

verus! {

/// The list is full (or an insertion index is past its end).
#[derive(Clone, Copy, Debug, PartialEq, Eq, Hash, Structural)]
pub struct CapacityError;

/// A list of at most `N` elements.
pub struct ArrayVec<T, const N: usize> {
    items: Vec<T>,
}

impl<T, const N: usize> View for ArrayVec<T, N> {
    type V = Seq<T>;

    closed spec fn view(&self) -> Seq<T> {
        self.items@
    }
}

impl<T, const N: usize> ArrayVec<T, N> {
    /// Create an empty list.
    pub fn new() -> (r: Self)
        ensures
            r@ == Seq::<T>::empty(),
    {
        ArrayVec { items: Vec::new() }
    }

    /// Number of elements.
    pub fn len(&self) -> (r: usize)
        ensures
            r == self@.len(),
    {
        self.items.len()
    }

    /// Whether the list is empty.
    pub fn is_empty(&self) -> (r: bool)
        ensures
            r == (self@.len() == 0),
    {
        self.items.len() == 0
    }

    /// Whether the list holds `N` elements.
    pub fn is_full(&self) -> (r: bool)
        ensures
            r == (self@.len() == N),
    {
        self.items.len() == N
    }

    /// The capacity `N`.
    pub fn capacity(&self) -> (r: usize)
        ensures
            r == N,
    {
        N
    }

    /// Append `value`, or fail with [`CapacityError`] when the list is full.
    pub fn push(&mut self, value: T) -> (r: Result<(), CapacityError>)
        ensures
            old(self)@.len() < N ==> r is Ok && final(self)@ == old(self)@.push(value),
            old(self)@.len() >= N ==> r is Err && final(self)@ == old(self)@,
    {
        if self.items.len() >= N {
            return Err(CapacityError);
        }
        self.items.push(value);
        Ok(())
    }

    /// Remove and return the last element.
    pub fn pop(&mut self) -> (r: Option<T>)
        ensures
            old(self)@.len() == 0 ==> r is None && final(self)@ == old(self)@,
            old(self)@.len() > 0 ==> r == Some(old(self)@.last()) && final(self)@
                == old(self)@.drop_last(),
    {
        self.items.pop()
    }

    /// Insert `value` at `index`, shifting later elements right; fails when
    /// `index` is past the end or the list is full.
    pub fn insert(&mut self, index: usize, value: T) -> (r: Result<(), CapacityError>)
        ensures
            (index <= old(self)@.len() && old(self)@.len() < N) ==> r is Ok && final(self)@ == old(
                self,
            )@.insert(index as int, value),
            !(index <= old(self)@.len() && old(self)@.len() < N) ==> r is Err && final(self)@ == old(
                self,
            )@,
    {
        if index > self.items.len() {
            return Err(CapacityError);
        }
        if self.items.len() >= N {
            return Err(CapacityError);
        }
        self.items.insert(index, value);
        Ok(())
    }

    /// Remove and return the element at `index`, shifting later elements
    /// left; `None` when `index` is out of bounds.
    pub fn remove(&mut self, index: usize) -> (r: Option<T>)
        ensures
            index < old(self)@.len() ==> r == Some(old(self)@[index as int]) && final(self)@ == old(
                self,
            )@.remove(index as int),
            index >= old(self)@.len() ==> r is None && final(self)@ == old(self)@,
    {
        if index >= self.items.len() {
            return None;
        }
        Some(self.items.remove(index))
    }

    /// Shorten the list to `new_len` elements (no effect if it is not
    /// longer).
    pub fn truncate(&mut self, new_len: usize)
        ensures
            new_len < old(self)@.len() ==> final(self)@ == old(self)@.take(new_len as int),
            new_len >= old(self)@.len() ==> final(self)@ == old(self)@,
    {
        self.items.truncate(new_len);
    }

    /// Remove all elements.
    pub fn clear(&mut self)
        ensures
            final(self)@ == Seq::<T>::empty(),
    {
        self.items.clear();
    }

    /// The element at `index`, if any.
    pub fn get(&self, index: usize) -> (r: Option<&T>)
        ensures
            index < self@.len() ==> r == Some(&self@[index as int]),
            index >= self@.len() ==> r is None,
    {
        if index < self.items.len() {
            Some(&self.items[index])
        } else {
            None
        }
    }

    /// A mutable reference to the element at `index`, if any.
    pub fn get_mut(&mut self, index: usize) -> (r: Option<&mut T>)
        ensures
            index < old(self)@.len() ==> (r matches Some(e) && *e == old(self)@[index as int]
                && final(self)@ == old(self)@.update(index as int, *final(e))),
            index >= old(self)@.len() ==> r is None && final(self)@ == old(self)@,
    {
        if index < self.items.len() {
            Some(&mut self.items[index])
        } else {
            None
        }
    }

    /// The elements as a slice.
    pub fn as_slice(&self) -> (r: &[T])
        ensures
            r@ == self@,
    {
        self.items.as_slice()
    }

    /// The elements as a mutable slice.
    pub fn as_slice_mut(&mut self) -> (r: &mut [T])
        ensures
            r@ == old(self)@,
            final(r)@ == final(self)@,
    {
        self.items.as_mut_slice()
    }

    /// An iterator over the elements, front to back.
    pub fn iter(&self) -> (r: Iter<'_, T, N>)
        ensures
            r.rest() == self@,
    {
        Iter { items: self.items.as_slice(), idx: 0 }
    }
}

impl<T, const N: usize> Default for ArrayVec<T, N> {
    fn default() -> (r: Self)
        ensures
            r@ == Seq::<T>::empty(),
    {
        Self::new()
    }
}

impl<T: Clone, const N: usize> Clone for ArrayVec<T, N> {
    fn clone(&self) -> (r: Self)
        ensures
            r@.len() == self@.len(),
            forall|i: int| 0 <= i < self@.len() ==> cloned::<T>(self@[i], #[trigger] r@[i]),
    {
        ArrayVec { items: self.items.clone() }
    }
}

/// A front-to-back iterator over an [`ArrayVec`].
pub struct Iter<'a, T, const N: usize> {
    items: &'a [T],
    idx: usize,
}

impl<'a, T, const N: usize> Iter<'a, T, N> {
    #[verifier::type_invariant]
    spec fn wf(self) -> bool {
        self.idx <= self.items@.len()
    }

    /// The elements not yet yielded.
    pub closed spec fn rest(&self) -> Seq<T> {
        self.items@.skip(self.idx as int)
    }

    /// The next element, if any.
    pub fn next(&mut self) -> (r: Option<&'a T>)
        ensures
            old(self).rest().len() == 0 ==> r is None && final(self).rest() == old(self).rest(),
            old(self).rest().len() > 0 ==> r == Some(&old(self).rest()[0]) && final(self).rest()
                == old(self).rest().drop_first(),
    {
        proof {
            use_type_invariant(&*self);
        }
        if self.idx < self.items.len() {
            let item = &self.items[self.idx];
            proof {
                assert(self.items@.skip(self.idx + 1) =~= self.items@.skip(self.idx as int).drop_first());
            }
            self.idx += 1;
            Some(item)
        } else {
            None
        }
    }
}

} // verus!
