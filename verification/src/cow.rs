//! A slice that is either baked into the program or created during a construction at runtime.

use vstd::prelude::*;

verus! {

/// A slice that is either borrowed for the whole program or owned.
pub enum CowSlice<T: 'static> {
    Borrowed(&'static [T]),
    Owned(Vec<T>),
}

impl<T: 'static> View for CowSlice<T> {
    type V = Seq<T>;

    open spec fn view(&self) -> Seq<T> {
        match self {
            CowSlice::Borrowed(b) => b@,
            CowSlice::Owned(v) => v@,
        }
    }
}

impl<T: 'static> CowSlice<T> {
    /// Returns the number of elements.
    pub fn len(&self) -> (r: usize)
        ensures
            r == self@.len(),
    {
        match self {
            CowSlice::Borrowed(b) => b.len(),
            CowSlice::Owned(v) => v.len(),
        }
    }

    /// Returns the elements as a slice.
    pub fn as_slice(&self) -> (r: &[T])
        ensures
            r@ == self@,
    {
        match self {
            CowSlice::Borrowed(b) => b,
            CowSlice::Owned(v) => v.as_slice(),
        }
    }
}

impl<T: Clone + 'static> Clone for CowSlice<T> {
    fn clone(&self) -> (r: Self)
        ensures
            r@.len() == self@.len(),
            self matches CowSlice::Borrowed(_) ==> r@ == self@,
    {
        match self {
            CowSlice::Borrowed(b) => CowSlice::Borrowed(b),
            CowSlice::Owned(v) => CowSlice::Owned(v.clone()),
        }
    }
}

impl<T: 'static> Default for CowSlice<T> {
    /// An empty owned slice.
    fn default() -> (r: Self)
        ensures
            r@ == Seq::<T>::empty(),
    {
        CowSlice::Owned(Vec::new())
    }
}

} // verus!
