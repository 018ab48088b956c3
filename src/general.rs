//! General-purpose containers.

use vstd::prelude::*;

verus! {

/// An ordered collection of values.
#[derive(Debug)]
pub struct Tuple<T> {
    inner: Vec<T>,
}

impl<T> View for Tuple<T> {
    type V = Seq<T>;

    closed spec fn view(&self) -> Seq<T> {
        self.inner@
    }
}

impl<T> Tuple<T> {
    /// A tuple of the given values.
    pub fn from_vec(inner: Vec<T>) -> (r: Tuple<T>)
        ensures
            r@ == inner@,
    {
        Tuple { inner }
    }

    pub fn into_inner(self) -> (r: Vec<T>)
        ensures
            r@ == self@,
    {
        self.inner
    }

    pub fn len(&self) -> (r: usize)
        ensures
            r == self@.len(),
    {
        self.inner.len()
    }
}

} // verus!
