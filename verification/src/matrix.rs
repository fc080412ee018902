//! Matrices.

use vstd::prelude::*;

verus! {

/// A matrix of `n` rows and `m` columns, stored row by row.
pub struct Mat<T> {
    n: usize,
    m: usize,
    data: Vec<T>,
}

impl<T: Default> Mat<T> {
    /// The number of rows.
    pub closed spec fn rows(&self) -> usize {
        self.n
    }

    /// The number of columns.
    pub closed spec fn columns(&self) -> usize {
        self.m
    }

    /// The elements that have been stored so far.
    pub closed spec fn elements(&self) -> Seq<T> {
        self.data@
    }

    /// A matrix of `n` rows and `m` columns with room for its elements, none
    /// of which is stored yet.
    pub fn new(n: usize, m: usize) -> (mat: Mat<T>)
        requires
            n * m <= usize::MAX,
        ensures
            mat.rows() == n,
            mat.columns() == m,
            mat.elements() == Seq::<T>::empty(),
    {
        Mat { n: n, m: m, data: Vec::with_capacity(n * m) }
    }
}

} // verus!
