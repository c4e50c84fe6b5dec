//! The rotating vector itself.

use vstd::prelude::*;
use vstd::arithmetic::div_mod::{
    lemma_add_mod_noop_right, lemma_fundamental_div_mod_converse_mod, lemma_sub_mod_noop_right,
};
use crate::model::{
    appended, bulk_written, clones_of, lemma_backward_rotates, lemma_forward_rotates,
    lemma_insert_before_start, lemma_logical_order_index, lemma_physical_index,
    lemma_splice_before_start, lemma_update_through, logical_order, physical_index, read_all,
    rotated_backward, rotated_forward, start_after_backward, start_after_forward, valid_start,
    write_all,
};

verus! {

/// A vector that can rotate without its elements changing place in memory,
/// which makes every shift a constant-time operation.
pub struct VecRotate<T: Clone> {
    array: Vec<T>,
    start_index: usize,
    length: usize,
}

impl<T: Clone> View for VecRotate<T> {
    type V = Seq<T>;

    /// The elements in logical order: the store read from the offset on,
    /// wrapping at its end.
    open spec fn view(&self) -> Seq<T> {
        logical_order(self.storage(), self.start())
    }
}

impl<T: Clone> VecRotate<T> {
    /// What holds of every rotating vector: the cached length is that of the
    /// store, and the offset is a slot of the store, or zero when there is
    /// none.
    #[verifier::type_invariant]
    pub closed spec fn well_formed(&self) -> bool {
        &&& self.length == self.array@.len()
        &&& valid_start(self.start_index as int, self.length as int)
    }

    /// The elements in the order in which memory holds them.
    pub closed spec fn storage(&self) -> Seq<T> {
        self.array@
    }

    /// The slot of the store at which the logical sequence begins.
    pub closed spec fn start(&self) -> int {
        self.start_index as int
    }

    /// The offset of a well-formed vector is admissible for its store, and
    /// the logical sequence is as long as the store.
    pub proof fn lemma_valid_start(&self)
        requires
            self.well_formed(),
        ensures
            valid_start(self.start(), self.storage().len() as int),
            self@.len() == self.storage().len(),
    {
    }

    /// Takes over `array` as the store, read from its first slot.
    pub fn new(array: Vec<T>) -> (rotate: Self)
        ensures
            rotate.storage() == array@,
            rotate.start() == 0,
            rotate@ == array@,
    {
        let length: usize = array.len();
        assert(logical_order(array@, 0) =~= array@);
        VecRotate { array: array, start_index: 0, length: length }
    }

    /// Whether there are no elements.
    pub fn is_empty(&self) -> (empty: bool)
        ensures
            empty == (self@.len() == 0),
    {
        proof {
            use_type_invariant(self);
        }
        if self.length == 0 {
            true
        } else {
            false
        }
    }

    /// The number of elements.
    pub fn len(&self) -> (length: usize)
        ensures
            length == self@.len(),
            length == self.storage().len(),
    {
        proof {
            use_type_invariant(self);
        }
        self.length
    }

    /// The slot of the store at which the logical sequence begins.
    pub fn start_index(&self) -> (start: usize)
        ensures
            start == self.start(),
            valid_start(start as int, self@.len() as int),
    {
        proof {
            use_type_invariant(self);
        }
        self.start_index
    }

    /// Moves every element `steps` places towards the front of the logical
    /// sequence, wrapping at its ends. Nothing happens to an empty vector.
    pub fn shift_backward(&mut self, steps: usize)
        ensures
            final(self).storage() == old(self).storage(),
            final(self).start() == start_after_backward(
                old(self).start(),
                old(self).storage().len() as int,
                steps as int,
            ),
            final(self)@ == rotated_backward(old(self)@, steps as int),
    {
        proof {
            use_type_invariant(&*self);
            lemma_backward_rotates(self.array@, self.start_index as int, steps as int);
        }
        if !self.is_empty() {
            let shift_step: usize = steps % self.length;
            let tail: usize = self.length - self.start_index;
            proof {
                let len = self.length as int;
                let idx = self.start_index + shift_step;
                lemma_add_mod_noop_right(self.start_index as int, steps as int, len);
                if shift_step < tail {
                    lemma_fundamental_div_mod_converse_mod(idx, len, 0, idx);
                } else {
                    lemma_fundamental_div_mod_converse_mod(idx, len, 1, idx - len);
                }
            }
            if shift_step < tail {
                self.start_index = self.start_index + shift_step;
            } else {
                self.start_index = shift_step - tail;
            }
        }
    }

    /// Moves every element `steps` places towards the end of the logical
    /// sequence, wrapping at its ends. Nothing happens to an empty vector.
    pub fn shift_forward(&mut self, steps: usize)
        ensures
            final(self).storage() == old(self).storage(),
            final(self).start() == start_after_forward(
                old(self).start(),
                old(self).storage().len() as int,
                steps as int,
            ),
            final(self)@ == rotated_forward(old(self)@, steps as int),
    {
        proof {
            use_type_invariant(&*self);
            lemma_forward_rotates(self.array@, self.start_index as int, steps as int);
        }
        if !self.is_empty() {
            let shift_step: usize = steps % self.length;
            proof {
                let len = self.length as int;
                let start = self.start_index as int;
                lemma_sub_mod_noop_right(start, steps as int, len);
                if shift_step > start {
                    lemma_fundamental_div_mod_converse_mod(
                        start - shift_step,
                        len,
                        -1,
                        len - (shift_step - start),
                    );
                } else {
                    lemma_fundamental_div_mod_converse_mod(
                        start - shift_step,
                        len,
                        0,
                        start - shift_step,
                    );
                }
            }
            if shift_step > self.start_index {
                self.start_index = self.length - (shift_step - self.start_index)
            } else {
                self.start_index -= shift_step;
            }
        }
    }

    /// Takes the store and the offset out of the vector, which is left empty.
    fn take_parts(&mut self) -> (parts: (Vec<T>, usize))
        ensures
            parts.0@ == old(self).storage(),
            parts.1 == old(self).start(),
            valid_start(parts.1 as int, parts.0@.len() as int),
            final(self).storage() == Seq::<T>::empty(),
            final(self).start() == 0,
    {
        let mut taken = VecRotate { array: Vec::new(), start_index: 0, length: 0 };
        core::mem::swap(self, &mut taken);
        proof {
            use_type_invariant(&taken);
        }
        (taken.array, taken.start_index)
    }

    /// Appends `element` as the last element of the logical sequence. In the
    /// store it goes in just before the slot at which the sequence begins,
    /// and the beginning moves on by one slot.
    pub fn push(&mut self, element: T)
        ensures
            final(self)@ == old(self)@.push(element),
            final(self).storage() == old(self).storage().insert(old(self).start(), element),
            final(self).start() == (if old(self)@.len() == 0 {
                0
            } else {
                old(self).start() + 1
            }),
    {
        let (mut array, start) = self.take_parts();
        proof {
            lemma_insert_before_start(array@, start as int, element);
        }
        array.insert(start, element);
        let length: usize = array.len();
        let mut start_index: usize = start + 1;
        if start_index == length {
            start_index = 0;
        }
        *self = VecRotate { array: array, start_index: start_index, length: length };
    }

    /// Appends a clone of each of `extension`, in their order, after the last
    /// element of the logical sequence. In the store they go in just before
    /// the slot at which the sequence begins, and the beginning moves on by
    /// their number.
    pub fn extend(&mut self, extension: &[T])
        ensures
            appended(old(self)@, extension@, final(self)@),
            final(self).storage() == old(self).storage().take(old(self).start())
                + final(self)@.skip(old(self)@.len() as int)
                + old(self).storage().skip(old(self).start()),
            final(self).start() == (if old(self)@.len() == 0 {
                0
            } else {
                old(self).start() + extension@.len()
            }),
    {
        let (mut array, start) = self.take_parts();
        let ghost storage = array@;
        let mut tail = array.split_off(start);
        array.extend_from_slice(extension);
        let ghost written = array@.skip(start as int);
        array.append(&mut tail);
        proof {
            assert(array@ =~= storage.take(start as int) + written + storage.skip(start as int));
            lemma_splice_before_start(storage, start as int, written);
        }
        let length: usize = array.len();
        let mut start_index: usize = start + extension.len();
        if start_index == length {
            start_index = 0;
        }
        *self = VecRotate { array: array, start_index: start_index, length: length };
        proof {
            let before = logical_order(storage, start as int);
            assert(final(self)@ == before + written);
            assert(final(self)@.take(before.len() as int) =~= before);
            assert(final(self)@.skip(before.len() as int) =~= written);
        }
    }

    /// The slot of the store that logical position `index` stands for: with
    /// `tail` the number of slots from the offset to the end of the store, a
    /// position below `tail` lies `start` slots further on, and one at or
    /// above it lies `tail` slots further back.
    fn wrap_index(&self, index: usize) -> (slot: usize)
        ensures
            slot == (if index < self.storage().len() - self.start() {
                self.start() + index
            } else {
                index - (self.storage().len() - self.start())
            }),
            index < self@.len() ==> slot == physical_index(
                self.start(),
                self.storage().len() as int,
                index as int,
            ) && slot < self.storage().len(),
    {
        proof {
            use_type_invariant(self);
            if index < self.length {
                lemma_physical_index(self.start_index as int, self.length as int, index as int);
            }
        }
        let tail: usize = self.length - self.start_index;
        if index < tail {
            self.start_index + index
        } else {
            index - tail
        }
    }

    /// The element at logical position `index`.
    pub fn get(&self, index: usize) -> (element: &T)
        requires
            index < self@.len(),
        ensures
            *element == self@[index as int],
            *element == self.storage()[physical_index(
                self.start(),
                self.storage().len() as int,
                index as int,
            )],
    {
        proof {
            use_type_invariant(self);
            lemma_logical_order_index(self.array@, self.start_index as int, index as int);
        }
        let slot: usize = self.wrap_index(index);
        &self.array[slot]
    }

    /// Writes `value` at logical position `index`, in place: the store
    /// changes in the one slot that the position stands for.
    pub fn set(&mut self, index: usize, value: T)
        requires
            index < old(self)@.len(),
        ensures
            final(self)@ == old(self)@.update(index as int, value),
            final(self).start() == old(self).start(),
            final(self).storage() == old(self).storage().update(
                physical_index(old(self).start(), old(self).storage().len() as int, index as int),
                value,
            ),
    {
        proof {
            use_type_invariant(&*self);
            lemma_update_through(self.array@, self.start_index as int, index as int, value);
        }
        let slot: usize = self.wrap_index(index);
        self.array[slot] = value;
    }

    /// The element at logical position `index`, to be read or written in
    /// place: what the caller leaves there is what the vector then holds at
    /// that position, and nothing else changes.
    pub fn get_mut(&mut self, index: usize) -> (element: &mut T)
        requires
            index < old(self)@.len(),
        ensures
            *element == old(self)@[index as int],
            final(self)@ == old(self)@.update(index as int, *final(element)),
            final(self).start() == old(self).start(),
            final(self).storage() == old(self).storage().update(
                physical_index(old(self).start(), old(self).storage().len() as int, index as int),
                *final(element),
            ),
    {
        proof {
            use_type_invariant(&*self);
            lemma_logical_order_index(self.array@, self.start_index as int, index as int);
            assert forall|value: T|
                logical_order(
                    self.array@.update(
                        physical_index(
                            self.start_index as int,
                            self.array@.len() as int,
                            index as int,
                        ),
                        value,
                    ),
                    self.start_index as int,
                ) == #[trigger] logical_order(self.array@, self.start_index as int).update(
                    index as int,
                    value,
                ) by {
                lemma_update_through(self.array@, self.start_index as int, index as int, value);
            }
        }
        let slot: usize = self.wrap_index(index);
        &mut self.array[slot]
    }

    /// A clone of the element at each of the logical positions `index`, in
    /// the order of `index`. A position may occur more than once.
    pub fn index_via_array(&self, index: &[usize]) -> (elements: Vec<T>)
        requires
            forall|i: int| 0 <= i < index@.len() ==> index@[i] < self@.len(),
        ensures
            clones_of(read_all(self@, index@), elements@),
    {
        let mut elements: Vec<T> = Vec::new();
        let mut i: usize = 0;
        while i < index.len()
            invariant
                i <= index@.len(),
                forall|j: int| 0 <= j < index@.len() ==> index@[j] < self@.len(),
                elements@.len() == i,
                forall|j: int|
                    0 <= j < i ==> cloned::<T>(
                        #[trigger] read_all(self@, index@)[j],
                        elements@[j],
                    ),
            decreases index@.len() - i,
        {
            elements.push(self.get(index[i]).clone());
            i += 1;
        }
        elements
    }

    /// Writes a clone of `new_entries[i]` at logical position `index[i]`, for
    /// each `i` below the length of `new_entries` in turn. Where a position
    /// occurs twice, the later entry stays.
    pub fn update_via_array(&mut self, index: &[usize], new_entries: &[T])
        requires
            new_entries@.len() <= index@.len(),
            forall|i: int| 0 <= i < new_entries@.len() ==> index@[i] < old(self)@.len(),
        ensures
            bulk_written(old(self)@, index@, new_entries@, final(self)@),
            final(self)@.len() == old(self)@.len(),
            final(self).start() == old(self).start(),
    {
        let ghost mut written: Seq<T> = Seq::empty();
        let mut i: usize = 0;
        while i < new_entries.len()
            invariant
                i <= new_entries@.len() <= index@.len(),
                forall|j: int| 0 <= j < new_entries@.len() ==> index@[j] < old(self)@.len(),
                self@.len() == old(self)@.len(),
                self.start() == old(self).start(),
                written.len() == i,
                forall|j: int| 0 <= j < i ==> cloned::<T>(#[trigger] new_entries@[j], written[j]),
                self@ == write_all(old(self)@, index@.take(i as int), written),
            decreases new_entries@.len() - i,
        {
            let entry: T = new_entries[i].clone();
            proof {
                let next = written.push(entry);
                assert(index@.take(i + 1).drop_last() =~= index@.take(i as int));
                assert(next.drop_last() =~= written);
                written = next;
            }
            self.set(index[i], entry);
            i += 1;
        }
        proof {
            assert(new_entries@.take(i as int) =~= new_entries@);
            assert(clones_of(new_entries@, written));
        }
    }

    /// A clone of each element, in logical order.
    pub fn to_vec(&self) -> (elements: Vec<T>)
        ensures
            clones_of(self@, elements@),
    {
        let mut elements: Vec<T> = Vec::new();
        let mut i: usize = 0;
        while i < self.len()
            invariant
                i <= self@.len(),
                elements@.len() == i,
                forall|j: int| 0 <= j < i ==> cloned::<T>(#[trigger] self@[j], elements@[j]),
            decreases self@.len() - i,
        {
            elements.push(self.get(i).clone());
            i += 1;
        }
        elements
    }

    /// The elements themselves, in logical order.
    pub fn into_vec(self) -> (elements: Vec<T>)
        ensures
            elements@ == self@,
    {
        proof {
            use_type_invariant(&self);
        }
        let mut head = self.array;
        let mut elements = head.split_off(self.start_index);
        elements.append(&mut head);
        elements
    }
}

impl<T: Clone> Clone for VecRotate<T> {
    /// A vector with a clone of each element in the same slot, and the same
    /// offset.
    fn clone(&self) -> (copy: Self)
        ensures
            copy.start() == self.start(),
            clones_of(self.storage(), copy.storage()),
            clones_of(self@, copy@),
    {
        proof {
            use_type_invariant(self);
        }
        let array = self.array.clone();
        let copy = VecRotate { array: array, start_index: self.start_index, length: self.length };
        proof {
            assert forall|i: int| 0 <= i < self@.len() implies cloned::<T>(
                #[trigger] self@[i],
                copy@[i],
            ) by {
                lemma_logical_order_index(self.array@, self.start_index as int, i);
                lemma_logical_order_index(copy.array@, self.start_index as int, i);
            }
        }
        copy
    }
}

} // verus!
