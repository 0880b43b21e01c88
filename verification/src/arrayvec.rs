//! A fixed-capacity, externally-lengthed vector.
//!
//! `DetachedArrayVec<T, CAP>` stores up to `CAP` elements, but does not
//! publish its own length: every operation takes the current logical length
//! as an argument, and its precondition demands that the caller's length is
//! the true one. The owning structure (here, a B-tree node) is the single
//! source of truth for the length.
use vstd::prelude::*;

verus! {

/// A vector with a fixed capacity `CAP` whose logical length is tracked by
/// the caller. Each operation takes the current length `len` and requires
/// that it equals the number of stored elements.
pub struct DetachedArrayVec<T, const CAP: usize> {
    xs: Vec<T>,
}

impl<T, const CAP: usize> View for DetachedArrayVec<T, CAP> {
    type V = Seq<T>;

    closed spec fn view(&self) -> Seq<T> {
        self.xs@
    }
}

impl<T, const CAP: usize> DetachedArrayVec<T, CAP> {
    /// Create a new empty `DetachedArrayVec` of capacity `CAP`.
    pub fn new() -> (r: DetachedArrayVec<T, CAP>)
        ensures
            r@ == Seq::<T>::empty(),
    {
        DetachedArrayVec { xs: Vec::new() }
    }

    /// Append `element` at index `len`.
    pub fn push(&mut self, len: usize, element: T)
        requires
            len == old(self)@.len(),
            len < CAP,
        ensures
            final(self)@ == old(self)@.push(element),
    {
        self.xs.push(element);
    }

    /// Remove and return the element at index `len - 1`.
    pub fn pop(&mut self, len: usize) -> (r: T)
        requires
            len == old(self)@.len(),
            0 < len,
        ensures
            r == old(self)@.last(),
            final(self)@ == old(self)@.drop_last(),
    {
        let r = self.xs.pop().unwrap();
        proof {
            assert(final(self)@ =~= old(self)@.drop_last());
        }
        r
    }

    /// Insert `element` at position `index`, shifting `[index, len)` up by one.
    pub fn insert(&mut self, len: usize, index: usize, element: T)
        requires
            len == old(self)@.len(),
            index <= len,
            len < CAP,
        ensures
            final(self)@ == old(self)@.insert(index as int, element),
    {
        self.xs.insert(index, element);
    }

    /// Remove and return the element at `index`, shifting `(index, len)` down
    /// by one.
    pub fn remove(&mut self, len: usize, index: usize) -> (r: T)
        requires
            len == old(self)@.len(),
            index < len,
        ensures
            r == old(self)@[index as int],
            final(self)@ == old(self)@.remove(index as int),
    {
        self.xs.remove(index)
    }

    /// Move the elements `[at, len)` into a new `DetachedArrayVec`, leaving
    /// `[0, at)` behind.
    pub fn split_off(&mut self, len: usize, at: usize) -> (r: DetachedArrayVec<T, CAP>)
        requires
            len == old(self)@.len(),
            at <= len,
        ensures
            final(self)@ == old(self)@.subrange(0, at as int),
            r@ == old(self)@.subrange(at as int, len as int),
    {
        DetachedArrayVec { xs: self.xs.split_off(at) }
    }

    /// Return the whole vector, leaving an empty one in its place.
    pub fn take(&mut self) -> (r: DetachedArrayVec<T, CAP>)
        ensures
            r@ == old(self)@,
            final(self)@ == Seq::<T>::empty(),
    {
        let mut r = DetachedArrayVec { xs: Vec::new() };
        core::mem::swap(self, &mut r);
        r
    }

    /// Destroy the elements `[new_len, old_len)`; no-op if `new_len >= old_len`.
    pub fn truncate(&mut self, old_len: usize, new_len: usize)
        requires
            old_len == old(self)@.len(),
        ensures
            new_len <= old_len ==> final(self)@ == old(self)@.subrange(0, new_len as int),
            new_len > old_len ==> final(self)@ == old(self)@,
    {
        self.xs.truncate(new_len);
    }

    /// Destroy all `len` elements.
    pub fn clear(&mut self, len: usize)
        requires
            len == old(self)@.len(),
        ensures
            final(self)@ == Seq::<T>::empty(),
    {
        self.xs.clear();
    }

    /// View the initialized prefix as a slice.
    pub fn as_slice(&self, len: usize) -> (r: &[T])
        requires
            len == self@.len(),
        ensures
            r@ == self@,
    {
        self.xs.as_slice()
    }

    /// Borrow the element at `index`.
    pub fn get(&self, len: usize, index: usize) -> (r: &T)
        requires
            len == self@.len(),
            index < len,
        ensures
            *r == self@[index as int],
    {
        &self.xs[index]
    }

    /// Borrow the element at `index` mutably.
    pub fn get_mut(&mut self, len: usize, index: usize) -> (r: &mut T)
        requires
            len == old(self)@.len(),
            index < len,
        ensures
            *r == old(self)@[index as int],
            final(self)@ == old(self)@.update(index as int, *final(r)),
    {
        &mut self.xs[index]
    }

    /// Replace the element at `index`, returning the old one.
    pub fn replace(&mut self, len: usize, index: usize, element: T) -> (r: T)
        requires
            len == old(self)@.len(),
            index < len,
        ensures
            r == old(self)@[index as int],
            final(self)@ == old(self)@.update(index as int, element),
    {
        let mut element = element;
        let slot = &mut self.xs[index];
        core::mem::swap(slot, &mut element);
        element
    }

    /// Turn the vector into a by-value iterator over its `len` elements.
    pub fn into_iter(self, len: usize) -> (r: IntoIter<T, CAP>)
        requires
            len == self@.len(),
        ensures
            r@ == self@,
    {
        IntoIter { xs: self.xs }
    }
}

/// By-value iterator for `DetachedArrayVec`, yielding the remaining elements
/// in order from either end.
pub struct IntoIter<T, const CAP: usize> {
    xs: Vec<T>,
}

impl<T, const CAP: usize> View for IntoIter<T, CAP> {
    type V = Seq<T>;

    closed spec fn view(&self) -> Seq<T> {
        self.xs@
    }
}

impl<T, const CAP: usize> IntoIter<T, CAP> {
    /// Take the next element from the front, if any remains.
    pub fn next(&mut self) -> (r: Option<T>)
        ensures
            old(self)@.len() == 0 ==> r is None && final(self)@ == old(self)@,
            old(self)@.len() > 0 ==> r == Some(old(self)@.first()) && final(self)@ == old(
                self,
            )@.drop_first(),
    {
        if self.xs.is_empty() {
            None
        } else {
            let r = self.xs.remove(0);
            proof {
                assert(final(self)@ =~= old(self)@.drop_first());
            }
            Some(r)
        }
    }

    /// Take the next element from the back, if any remains.
    pub fn next_back(&mut self) -> (r: Option<T>)
        ensures
            old(self)@.len() == 0 ==> r is None && final(self)@ == old(self)@,
            old(self)@.len() > 0 ==> r == Some(old(self)@.last()) && final(self)@ == old(
                self,
            )@.drop_last(),
    {
        let r = self.xs.pop();
        proof {
            if old(self)@.len() > 0 {
                assert(final(self)@ =~= old(self)@.drop_last());
            }
        }
        r
    }

    /// How many elements remain.
    pub fn remaining(&self) -> (r: usize)
        ensures
            r == self@.len(),
    {
        self.xs.len()
    }
}

} // verus!
