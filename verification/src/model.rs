//! The mathematical model of a rotating vector: a backing store, an offset
//! into it, and the sequence that a caller sees through the two.

use vstd::prelude::*;
use vstd::arithmetic::div_mod::{
    lemma_add_mod_noop, lemma_fundamental_div_mod_converse_mod, lemma_mod_bound, lemma_small_mod,
};

verus! {

/// Whether `start` is an admissible offset into a store of `len` slots: below
/// `len` when there are slots, and zero when there are none.
pub open spec fn valid_start(start: int, len: int) -> bool {
    if len == 0 {
        start == 0
    } else {
        0 <= start < len
    }
}

/// The slot of the store that holds logical position `i`.
pub open spec fn physical_index(start: int, len: int, i: int) -> int {
    (start + i) % len
}

/// The sequence seen through offset `start`: the store from `start` to its
/// end, followed by the store from its beginning up to `start`.
pub open spec fn logical_order<T>(storage: Seq<T>, start: int) -> Seq<T> {
    storage.subrange(start, storage.len() as int) + storage.subrange(0, start)
}

/// The offset after a forward shift by `steps`.
pub open spec fn start_after_forward(start: int, len: int, steps: int) -> int {
    if len == 0 {
        start
    } else {
        (start - steps) % len
    }
}

/// The offset after a backward shift by `steps`.
pub open spec fn start_after_backward(start: int, len: int, steps: int) -> int {
    if len == 0 {
        start
    } else {
        (start + steps) % len
    }
}

/// `s` with every element moved `steps` places towards the end, those that
/// fall off the end coming back in at the front.
pub open spec fn rotated_forward<T>(s: Seq<T>, steps: int) -> Seq<T> {
    Seq::new(s.len(), |i: int| s[(i - steps) % (s.len() as int)])
}

/// `s` with every element moved `steps` places towards the front, those that
/// fall off the front coming back in at the end.
pub open spec fn rotated_backward<T>(s: Seq<T>, steps: int) -> Seq<T> {
    Seq::new(s.len(), |i: int| s[(i + steps) % (s.len() as int)])
}

/// Whether `after` holds, slot by slot, a clone of what `before` holds.
pub open spec fn clones_of<T: Clone>(before: Seq<T>, after: Seq<T>) -> bool {
    &&& after.len() == before.len()
    &&& forall|i: int|
        #![trigger before[i]]
        #![trigger after[i]]
        0 <= i < before.len() ==> cloned::<T>(before[i], after[i])
}

/// The elements of `s` at the positions `idxs`, in the order of `idxs`.
pub open spec fn read_all<T>(s: Seq<T>, idxs: Seq<usize>) -> Seq<T> {
    Seq::new(idxs.len(), |i: int| s[idxs[i] as int])
}

/// `s` after `vals[0]` was written at position `idxs[0]`, then `vals[1]` at
/// `idxs[1]`, and so on to the end of `idxs`: of two writes to one position
/// the later one stays.
pub open spec fn write_all<T>(s: Seq<T>, idxs: Seq<usize>, vals: Seq<T>) -> Seq<T>
    decreases idxs.len(),
{
    if idxs.len() == 0 {
        s
    } else {
        write_all(s, idxs.drop_last(), vals.drop_last()).update(idxs.last() as int, vals.last())
    }
}

/// Whether `after` is `before` with a clone of each of `vals` written at the
/// position that `idxs` pairs with it. Positions of `idxs` beyond the length
/// of `vals` are not written.
pub open spec fn bulk_written<T: Clone>(
    before: Seq<T>,
    idxs: Seq<usize>,
    vals: Seq<T>,
    after: Seq<T>,
) -> bool {
    exists|written: Seq<T>| #[trigger]
        clones_of(vals, written) && after == write_all(
            before,
            idxs.take(vals.len() as int),
            written,
        )
}

/// `s` after each of `items` was pushed onto its end, one by one.
pub open spec fn pushed_all<T>(s: Seq<T>, items: Seq<T>) -> Seq<T>
    decreases items.len(),
{
    if items.len() == 0 {
        s
    } else {
        pushed_all(s, items.drop_last()).push(items.last())
    }
}

/// Whether `after` is `before` followed by a clone of each of `items`, in
/// their order.
pub open spec fn appended<T: Clone>(before: Seq<T>, items: Seq<T>, after: Seq<T>) -> bool {
    &&& after.len() == before.len() + items.len()
    &&& forall|i: int|
        #![trigger after[i]]
        0 <= i < after.len() ==> if i < before.len() {
            after[i] == before[i]
        } else {
            cloned::<T>(items[i - before.len()], after[i])
        }
}

/// A logical position below the length of the tail lies `start` slots further
/// on in the store; one at or above it lies that length further back.
pub proof fn lemma_physical_index(start: int, len: int, i: int)
    requires
        0 <= start < len,
        0 <= i < len,
    ensures
        0 <= physical_index(start, len, i) < len,
        i < len - start ==> physical_index(start, len, i) == start + i,
        i >= len - start ==> physical_index(start, len, i) == i - (len - start),
{
    lemma_mod_bound(start + i, len);
    if i < len - start {
        lemma_fundamental_div_mod_converse_mod(start + i, len, 0, start + i);
    } else {
        lemma_fundamental_div_mod_converse_mod(start + i, len, 1, start + i - len);
    }
}

/// Each position of the logical sequence holds what the store holds at the
/// slot that the position stands for.
pub proof fn lemma_logical_order_index<T>(storage: Seq<T>, start: int, i: int)
    requires
        valid_start(start, storage.len() as int),
        0 <= i < storage.len(),
    ensures
        logical_order(storage, start).len() == storage.len(),
        logical_order(storage, start)[i] == storage[physical_index(start, storage.len() as int, i)],
{
    lemma_physical_index(start, storage.len() as int, i);
}

/// Moving the offset back by `steps` rotates the logical sequence forward by
/// `steps`.
pub proof fn lemma_forward_rotates<T>(storage: Seq<T>, start: int, steps: int)
    requires
        valid_start(start, storage.len() as int),
    ensures
        valid_start(start_after_forward(start, storage.len() as int, steps), storage.len() as int),
        logical_order(storage, start_after_forward(start, storage.len() as int, steps))
            == rotated_forward(logical_order(storage, start), steps),
{
    let len = storage.len() as int;
    if len > 0 {
        let moved = start_after_forward(start, len, steps);
        lemma_mod_bound(start - steps, len);
        assert forall|i: int| 0 <= i < len implies #[trigger] logical_order(storage, moved)[i]
            == rotated_forward(logical_order(storage, start), steps)[i] by {
            let j = (i - steps) % len;
            lemma_mod_bound(i - steps, len);
            lemma_logical_order_index(storage, moved, i);
            lemma_logical_order_index(storage, start, j);
            lemma_add_mod_noop(start - steps, i, len);
            lemma_add_mod_noop(start, i - steps, len);
            lemma_small_mod(i as nat, len as nat);
            lemma_small_mod(start as nat, len as nat);
            assert((start - steps) + i == start + (i - steps));
        }
        assert(logical_order(storage, moved) =~= rotated_forward(
            logical_order(storage, start),
            steps,
        ));
    } else {
        assert(logical_order(storage, start) =~= rotated_forward(
            logical_order(storage, start),
            steps,
        ));
    }
}

/// Moving the offset on by `steps` rotates the logical sequence backward by
/// `steps`.
pub proof fn lemma_backward_rotates<T>(storage: Seq<T>, start: int, steps: int)
    requires
        valid_start(start, storage.len() as int),
    ensures
        valid_start(start_after_backward(start, storage.len() as int, steps), storage.len() as int),
        logical_order(storage, start_after_backward(start, storage.len() as int, steps))
            == rotated_backward(logical_order(storage, start), steps),
{
    let len = storage.len() as int;
    if len > 0 {
        let moved = start_after_backward(start, len, steps);
        lemma_mod_bound(start + steps, len);
        assert forall|i: int| 0 <= i < len implies #[trigger] logical_order(storage, moved)[i]
            == rotated_backward(logical_order(storage, start), steps)[i] by {
            let j = (i + steps) % len;
            lemma_mod_bound(i + steps, len);
            lemma_logical_order_index(storage, moved, i);
            lemma_logical_order_index(storage, start, j);
            lemma_add_mod_noop(start + steps, i, len);
            lemma_add_mod_noop(start, i + steps, len);
            lemma_small_mod(i as nat, len as nat);
            lemma_small_mod(start as nat, len as nat);
            assert((start + steps) + i == start + (i + steps));
        }
        assert(logical_order(storage, moved) =~= rotated_backward(
            logical_order(storage, start),
            steps,
        ));
    } else {
        assert(logical_order(storage, start) =~= rotated_backward(
            logical_order(storage, start),
            steps,
        ));
    }
}

/// Writing to the slot that a logical position stands for changes that
/// position of the logical sequence, and no other.
pub proof fn lemma_update_through<T>(storage: Seq<T>, start: int, i: int, value: T)
    requires
        valid_start(start, storage.len() as int),
        0 <= i < storage.len(),
    ensures
        logical_order(storage.update(physical_index(start, storage.len() as int, i), value), start)
            == logical_order(storage, start).update(i, value),
{
    lemma_physical_index(start, storage.len() as int, i);
    assert(logical_order(
        storage.update(physical_index(start, storage.len() as int, i), value),
        start,
    ) =~= logical_order(storage, start).update(i, value));
}

/// Putting `item` into the store just before the offset, and moving the
/// offset on by one, puts `item` at the end of the logical sequence.
pub proof fn lemma_insert_before_start<T>(storage: Seq<T>, start: int, item: T)
    requires
        valid_start(start, storage.len() as int),
    ensures
        storage.len() > 0 ==> logical_order(storage.insert(start, item), start + 1)
            == logical_order(storage, start).push(item),
        storage.len() == 0 ==> logical_order(storage.insert(start, item), 0) == logical_order(
            storage,
            start,
        ).push(item),
{
    if storage.len() > 0 {
        assert(logical_order(storage.insert(start, item), start + 1) =~= logical_order(
            storage,
            start,
        ).push(item));
    } else {
        assert(logical_order(storage.insert(start, item), 0) =~= logical_order(
            storage,
            start,
        ).push(item));
    }
}

/// Putting `items` into the store just before the offset, and moving the
/// offset on by their number, puts `items` at the end of the logical
/// sequence.
pub proof fn lemma_splice_before_start<T>(storage: Seq<T>, start: int, items: Seq<T>)
    requires
        valid_start(start, storage.len() as int),
    ensures
        storage.len() > 0 ==> logical_order(
            storage.take(start) + items + storage.skip(start),
            start + items.len(),
        ) == logical_order(storage, start) + items,
        storage.len() == 0 ==> logical_order(storage.take(start) + items + storage.skip(start), 0)
            == logical_order(storage, start) + items,
{
    let spliced = storage.take(start) + items + storage.skip(start);
    if storage.len() > 0 {
        assert(logical_order(spliced, start + items.len()) =~= logical_order(storage, start)
            + items);
    } else {
        assert(logical_order(spliced, 0) =~= logical_order(storage, start) + items);
    }
}

} // verus!
