//! Indexing by logical position with `[]`.

use vstd::prelude::*;
use std::ops::{Index, IndexMut};
use crate::model::physical_index;
use crate::vec_rotate::VecRotate;

verus! {

impl<T: Clone> vstd::std_specs::core::IndexSpecImpl<usize> for VecRotate<T> {
    /// A position can be indexed when it is below the number of elements.
    open spec fn index_req(&self, index: &usize) -> bool {
        *index < self@.len()
    }
}

impl<T: Clone> Index<usize> for VecRotate<T> {
    type Output = T;

    /// The element at logical position `index`.
    fn index(&self, index: usize) -> (element: &T)
        ensures
            *element == self@[index as int],
            *element == self.storage()[physical_index(
                self.start(),
                self.storage().len() as int,
                index as int,
            )],
    {
        self.get(index)
    }
}

impl<T: Clone> IndexMut<usize> for VecRotate<T> {
    /// The element at logical position `index`, to be written in place.
    fn index_mut(&mut self, index: usize) -> (element: &mut T)
        requires
            index < old(self)@.len(),
        ensures
            *element == old(self)@[index as int],
            final(self)@ == old(self)@.update(index as int, *final(element)),
            final(self).start() == old(self).start(),
            final(self).storage() == old(self).storage().update(
                physical_index(old(self).start(), old(self).storage().len() as int, index as int),
                *final(element),
            ),
    {
        self.get_mut(index)
    }
}

} // verus!
