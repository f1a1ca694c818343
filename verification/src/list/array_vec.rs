//! A vector with a fixed capacity chosen at compile time.
//!
//! Pushing beyond the capacity is a programmer error, ruled out by the
//! precondition rather than reported at run time.

use vstd::prelude::*;

verus! {

/// A growable list holding at most `N` elements.
pub struct ArrayVec<T, const N: usize> {
    data: Vec<T>,
}

impl<T, const N: usize> ArrayVec<T, N> {
    /// The elements currently stored, in order.
    pub closed spec fn view(self) -> Seq<T> {
        self.data@
    }

    /// The length never exceeds the capacity.
    pub open spec fn wf(self) -> bool {
        self.view().len() <= N
    }

    /// An empty list.
    pub fn new() -> (r: ArrayVec<T, N>)
        ensures
            r.wf(),
            r.view() == Seq::<T>::empty(),
    {
        let r = ArrayVec { data: Vec::new() };
        proof {
            assert(r.data@ =~= Seq::<T>::empty());
        }
        r
    }

    /// How many elements are stored.
    pub fn len(&self) -> (n: usize)
        ensures
            n == self.view().len(),
    {
        self.data.len()
    }

    /// How many elements fit.
    pub fn capacity(&self) -> (n: usize)
        ensures
            n == N,
    {
        N
    }

    /// Whether no element is stored.
    pub fn is_empty(&self) -> (r: bool)
        ensures
            r == (self.view().len() == 0),
    {
        self.data.len() == 0
    }

    /// Append an element; the list must have room.
    pub fn push(&mut self, item: T)
        requires
            old(self).wf(),
            old(self).view().len() < N,
        ensures
            final(self).wf(),
            final(self).view() == old(self).view().push(item),
    {
        self.data.push(item);
    }

    /// Remove and return the last element, if there is one.
    pub fn pop(&mut self) -> (r: Option<T>)
        requires
            old(self).wf(),
        ensures
            final(self).wf(),
            old(self).view().len() == 0 ==> r is None && final(self).view()
                == old(self).view(),
            old(self).view().len() > 0 ==> {
                &&& r == Some(old(self).view().last())
                &&& final(self).view() == old(self).view().drop_last()
            },
    {
        if self.data.len() == 0 {
            None
        } else {
            Some(self.data.pop().unwrap())
        }
    }

    /// The element at `idx`, if the index is in range.
    pub fn get(&self, idx: usize) -> (r: Option<&T>)
        ensures
            idx < self.view().len() ==> r == Some(&self.view()[idx as int]),
            idx >= self.view().len() ==> r is None,
    {
        if idx < self.data.len() {
            Some(&self.data[idx])
        } else {
            None
        }
    }

    /// Replace the element at `idx`; reports whether the index was in
    /// range and anything happened.
    pub fn set(&mut self, idx: usize, item: T) -> (ok: bool)
        requires
            old(self).wf(),
        ensures
            final(self).wf(),
            ok == (idx < old(self).view().len()),
            ok ==> final(self).view() == old(self).view().update(idx as int, item),
            !ok ==> final(self).view() == old(self).view(),
    {
        if idx < self.data.len() {
            self.data.set(idx, item);
            true
        } else {
            false
        }
    }
}

} // verus!
