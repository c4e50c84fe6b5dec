//! Conversions between rotating vectors and plain sequences.

use vstd::prelude::*;
use vstd::std_specs::convert::FromSpecImpl;
use vstd::std_specs::iter::IteratorSpec;
use crate::model::clones_of;
use crate::vec_rotate::VecRotate;

verus! {

impl<T: Clone> FromSpecImpl<&[T]> for VecRotate<T> {
    /// A clone need not equal what it was made from, so the elements of the
    /// new vector are no function of the slice: `from` states what holds of
    /// them.
    open spec fn obeys_from_spec() -> bool {
        false
    }

    open spec fn from_spec(value: &[T]) -> Self {
        arbitrary()
    }
}

impl<T: Clone> From<&[T]> for VecRotate<T> {
    /// A vector whose store holds a clone of each element of `value`, read
    /// from its first slot.
    fn from(value: &[T]) -> (rotate: Self)
        ensures
            rotate.start() == 0,
            clones_of(value@, rotate.storage()),
            clones_of(value@, rotate@),
    {
        let mut array: Vec<T> = Vec::new();
        array.extend_from_slice(value);
        VecRotate::new(array)
    }
}

impl<T: Clone, const N: usize> FromSpecImpl<&[T; N]> for VecRotate<T> {
    /// As for a slice: `from` states what holds of the elements.
    open spec fn obeys_from_spec() -> bool {
        false
    }

    open spec fn from_spec(value: &[T; N]) -> Self {
        arbitrary()
    }
}

impl<T: Clone, const N: usize> From<&[T; N]> for VecRotate<T> {
    /// A vector whose store holds a clone of each element of `value`, read
    /// from its first slot.
    fn from(value: &[T; N]) -> (rotate: Self)
        ensures
            rotate.start() == 0,
            clones_of(value@, rotate.storage()),
            clones_of(value@, rotate@),
    {
        VecRotate::from(value.as_slice())
    }
}

impl<T: Clone> FromSpecImpl<VecRotate<T>> for Vec<T> {
    /// Two vectors of the standard library with the same elements need not
    /// be the same value, so `from` states what the result holds.
    open spec fn obeys_from_spec() -> bool {
        false
    }

    open spec fn from_spec(value: VecRotate<T>) -> Self {
        arbitrary()
    }
}

impl<T: Clone> From<VecRotate<T>> for Vec<T> {
    /// The elements of `value` in logical order.
    fn from(value: VecRotate<T>) -> (elements: Self)
        ensures
            elements@ == value@,
    {
        value.into_vec()
    }
}

impl<T: Clone> IntoIterator for VecRotate<T> {
    type Item = T;

    type IntoIter = std::vec::IntoIter<T>;

    /// An iterator over the elements in logical order.
    fn into_iter(self) -> (iter: std::vec::IntoIter<T>)
        ensures
            iter.remaining() == self@,
    {
        self.into_vec().into_iter()
    }
}

} // verus!
