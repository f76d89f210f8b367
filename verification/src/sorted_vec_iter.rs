//! A cursor over the elements of a container, by rank.
use vstd::prelude::*;
use crate::sorted_vec::SortedVec;

verus! {

/// A cursor that walks a container from rank zero upwards.
pub struct SortedVecIter<'a, T: Ord> {
    pub sorted_vec: &'a SortedVec<T>,
    pub index: usize,
}

impl<'a, T: Ord> SortedVecIter<'a, T> {
    /// A cursor at rank zero.
    pub fn new(sorted_vec: &'a SortedVec<T>) -> (r: Self)
        ensures
            r.sorted_vec == sorted_vec,
            r.index == 0,
    {
        SortedVecIter { sorted_vec, index: 0 }
    }

    /// The number of elements of the container.
    pub fn len(&self) -> (r: usize)
        ensures
            r == self.sorted_vec.size,
    {
        self.sorted_vec.size
    }

    /// The element at the cursor, which then moves on; `None` once the
    /// cursor has reached the container's size.
    pub fn next(&mut self) -> (r: Option<&'a T>)
        ensures
            final(self).sorted_vec == old(self).sorted_vec,
            old(self).index < old(self).sorted_vec.size ==> {
                &&& final(self).index == old(self).index + 1
                &&& old(self).index < old(self).sorted_vec@.len() ==> r == Some(
                    &old(self).sorted_vec@[old(self).index as int],
                )
                &&& old(self).index >= old(self).sorted_vec@.len() ==> r.is_none()
            },
            old(self).index >= old(self).sorted_vec.size ==> {
                &&& final(self).index == old(self).index
                &&& r.is_none()
            },
    {
        if self.index < self.sorted_vec.size {
            let item = self.sorted_vec.at(self.index);
            self.index += 1;
            item
        } else {
            None
        }
    }
}

} // verus!
