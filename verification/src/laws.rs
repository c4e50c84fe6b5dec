//! What holds of rotating vectors whatever their elements, their offset and
//! the step counts: stated over the model that the operations' contracts
//! use, and proved.

use vstd::prelude::*;
use vstd::arithmetic::div_mod::{
    lemma_add_mod_noop, lemma_add_mod_noop_right, lemma_mod_bound, lemma_small_mod,
    lemma_sub_mod_noop, lemma_sub_mod_noop_right,
};
use crate::model::{
    appended, bulk_written, clones_of, lemma_logical_order_index, logical_order, pushed_all,
    read_all, rotated_backward, rotated_forward, start_after_backward, start_after_forward,
    valid_start, write_all,
};

verus! {

/// The logical sequence and the offset determine the store: slot `p` holds
/// what the sequence holds `start` positions before `p`, wrapping at the
/// front.
pub proof fn lemma_store_from_logical<T>(storage: Seq<T>, start: int, p: int)
    requires
        valid_start(start, storage.len() as int),
        0 <= p < storage.len(),
    ensures
        0 <= (p - start) % (storage.len() as int) < storage.len(),
        storage[p] == logical_order(storage, start)[(p - start) % (storage.len() as int)],
{
    let len = storage.len() as int;
    lemma_mod_bound(p - start, len);
    lemma_logical_order_index(storage, start, (p - start) % len);
    lemma_add_mod_noop_right(start, p - start, len);
    lemma_small_mod(p as nat, len as nat);
}

/// A forward shift followed by a backward shift by the same number of steps
/// restores the logical sequence.
pub proof fn lemma_forward_then_backward<T>(s: Seq<T>, steps: int)
    ensures
        rotated_backward(rotated_forward(s, steps), steps) == s,
{
    let len = s.len() as int;
    assert forall|i: int| 0 <= i < len implies rotated_backward(rotated_forward(s, steps), steps)[i]
        == s[i] by {
        lemma_mod_bound(i + steps, len);
        lemma_sub_mod_noop(i + steps, steps, len);
        lemma_sub_mod_noop_right((i + steps) % len, steps, len);
        lemma_small_mod(i as nat, len as nat);
        assert(((i + steps) % len - steps) % len == i);
    }
    assert(rotated_backward(rotated_forward(s, steps), steps) =~= s);
}

/// A backward shift followed by a forward shift by the same number of steps
/// restores the logical sequence.
pub proof fn lemma_backward_then_forward<T>(s: Seq<T>, steps: int)
    ensures
        rotated_forward(rotated_backward(s, steps), steps) == s,
{
    let len = s.len() as int;
    assert forall|i: int| 0 <= i < len implies rotated_forward(rotated_backward(s, steps), steps)[i]
        == s[i] by {
        lemma_mod_bound(i - steps, len);
        lemma_add_mod_noop(i - steps, steps, len);
        lemma_add_mod_noop_right((i - steps) % len, steps, len);
        lemma_small_mod(i as nat, len as nat);
        assert(((i - steps) % len + steps) % len == i);
    }
    assert(rotated_forward(rotated_backward(s, steps), steps) =~= s);
}

/// A shift followed by the opposite shift by the same number of steps
/// restores the offset itself, not only the sequence seen through it.
pub proof fn lemma_start_restored(start: int, len: nat, steps: int)
    requires
        valid_start(start, len as int),
    ensures
        start_after_backward(start_after_forward(start, len as int, steps), len as int, steps)
            == start,
        start_after_forward(start_after_backward(start, len as int, steps), len as int, steps)
            == start,
{
    let len = len as int;
    if len > 0 {
        lemma_small_mod(start as nat, len as nat);
        lemma_add_mod_noop(start - steps, steps, len);
        lemma_add_mod_noop_right((start - steps) % len, steps, len);
        assert(((start - steps) % len + steps) % len == start);
        lemma_sub_mod_noop(start + steps, steps, len);
        lemma_sub_mod_noop_right((start + steps) % len, steps, len);
        assert(((start + steps) % len - steps) % len == start);
    }
}

/// A shift by `steps` and a shift by `steps` reduced modulo the length give
/// the same logical sequence and the same offset.
pub proof fn lemma_steps_modulo_length<T>(s: Seq<T>, start: int, steps: int)
    ensures
        rotated_forward(s, steps % (s.len() as int)) == rotated_forward(s, steps),
        rotated_backward(s, steps % (s.len() as int)) == rotated_backward(s, steps),
        start_after_forward(start, s.len() as int, steps % (s.len() as int)) == start_after_forward(
            start,
            s.len() as int,
            steps,
        ),
        start_after_backward(start, s.len() as int, steps % (s.len() as int))
            == start_after_backward(start, s.len() as int, steps),
{
    let len = s.len() as int;
    if len > 0 {
        assert forall|i: int| 0 <= i < len implies #[trigger] rotated_forward(s, steps % len)[i]
            == rotated_forward(s, steps)[i] by {
            lemma_sub_mod_noop_right(i, steps, len);
        }
        assert forall|i: int| 0 <= i < len implies #[trigger] rotated_backward(s, steps % len)[i]
            == rotated_backward(s, steps)[i] by {
            lemma_add_mod_noop_right(i, steps, len);
        }
        lemma_sub_mod_noop_right(start, steps, len);
        lemma_add_mod_noop_right(start, steps, len);
    }
    assert(rotated_forward(s, steps % len) =~= rotated_forward(s, steps));
    assert(rotated_backward(s, steps % len) =~= rotated_backward(s, steps));
}

/// The logical sequence after a run of shifts. Each is a direction with a
/// step count: `true` for forward, `false` for backward.
pub open spec fn after_shifts<T>(s: Seq<T>, shifts: Seq<(bool, int)>) -> Seq<T>
    decreases shifts.len(),
{
    if shifts.len() == 0 {
        s
    } else {
        let earlier = after_shifts(s, shifts.drop_last());
        if shifts.last().0 {
            rotated_forward(earlier, shifts.last().1)
        } else {
            rotated_backward(earlier, shifts.last().1)
        }
    }
}

/// No run of shifts changes the number of elements, and an empty vector
/// stays as it is under every one.
pub proof fn lemma_shifts_keep_length<T>(s: Seq<T>, shifts: Seq<(bool, int)>)
    ensures
        after_shifts(s, shifts).len() == s.len(),
        s.len() == 0 ==> after_shifts(s, shifts) == s,
    decreases shifts.len(),
{
    if shifts.len() > 0 {
        lemma_shifts_keep_length(s, shifts.drop_last());
        if s.len() == 0 {
            assert(after_shifts(s, shifts) =~= s);
        }
    }
}

/// Pushing items one by one gives the sequence followed by the items.
pub proof fn lemma_pushed_all<T>(s: Seq<T>, items: Seq<T>)
    ensures
        pushed_all(s, items) == s + items,
    decreases items.len(),
{
    if items.len() > 0 {
        lemma_pushed_all(s, items.drop_last());
        assert(pushed_all(s, items) =~= s + items);
    } else {
        assert(pushed_all(s, items) =~= s + items);
    }
}

/// Extending by `items` gives what pushing a clone of each of them in turn
/// gives: with `tail` the elements that the extension added, `tail` holds a
/// clone of each of `items` and the outcome is `before` with each of `tail`
/// pushed onto it.
pub proof fn lemma_extend_is_repeated_push<T: Clone>(before: Seq<T>, items: Seq<T>, after: Seq<T>)
    requires
        appended(before, items, after),
    ensures
        clones_of(items, after.skip(before.len() as int)),
        after == pushed_all(before, after.skip(before.len() as int)),
{
    let tail = after.skip(before.len() as int);
    lemma_pushed_all(before, tail);
    assert(after =~= after.take(before.len() as int) + tail);
}

/// What a run of writes leaves at position `p`: the value of the last write
/// to `p`, or what was there where no write went to `p`. The length stays.
pub proof fn lemma_write_all_index<T>(s: Seq<T>, idxs: Seq<usize>, vals: Seq<T>, p: int)
    requires
        idxs.len() == vals.len(),
        forall|i: int| 0 <= i < idxs.len() ==> idxs[i] < s.len(),
        0 <= p < s.len(),
    ensures
        write_all(s, idxs, vals).len() == s.len(),
        (forall|i: int| 0 <= i < idxs.len() ==> idxs[i] != p) ==> write_all(s, idxs, vals)[p]
            == s[p],
        forall|i: int|
            0 <= i < idxs.len() && idxs[i] == p && (forall|j: int|
                i < j < idxs.len() ==> idxs[j] != p) ==> write_all(s, idxs, vals)[p]
                == #[trigger] vals[i],
    decreases idxs.len(),
{
    if idxs.len() > 0 {
        let last = idxs.len() - 1;
        lemma_write_all_index(s, idxs.drop_last(), vals.drop_last(), p);
        assert forall|i: int|
            0 <= i < idxs.len() && idxs[i] == p && (forall|j: int|
                i < j < idxs.len() ==> idxs[j] != p) implies write_all(s, idxs, vals)[p]
            == #[trigger] vals[i] by {
            if i < last {
                assert(idxs[last] != p);
                assert(vals.drop_last()[i] == vals[i]);
                assert(forall|j: int|
                    i < j < idxs.drop_last().len() ==> idxs.drop_last()[j] == idxs[j]);
            }
        }
        if forall|i: int| 0 <= i < idxs.len() ==> idxs[i] != p {
            assert(forall|i: int|
                0 <= i < idxs.drop_last().len() ==> idxs.drop_last()[i] == idxs[i]);
        }
    }
}

/// Writing `vals` at pairwise different positions `idxs` and then reading at
/// `idxs` gives `vals` back.
pub proof fn lemma_write_then_read<T>(s: Seq<T>, idxs: Seq<usize>, vals: Seq<T>)
    requires
        idxs.len() == vals.len(),
        forall|i: int| 0 <= i < idxs.len() ==> idxs[i] < s.len(),
        forall|i: int, j: int| 0 <= i < j < idxs.len() ==> idxs[i] != idxs[j],
    ensures
        read_all(write_all(s, idxs, vals), idxs) == vals,
{
    assert forall|i: int| 0 <= i < idxs.len() implies read_all(write_all(s, idxs, vals), idxs)[i]
        == vals[i] by {
        lemma_write_all_index(s, idxs, vals, idxs[i] as int);
    }
    assert(read_all(write_all(s, idxs, vals), idxs) =~= vals);
}

/// A bulk write at pairwise different positions followed by a bulk read at
/// the same positions gives back a clone of a clone of each value written,
/// and so the values themselves where a clone always equals what it was made
/// from.
pub proof fn lemma_update_then_index<T: Clone>(
    before: Seq<T>,
    idxs: Seq<usize>,
    vals: Seq<T>,
    after: Seq<T>,
    out: Seq<T>,
)
    requires
        idxs.len() == vals.len(),
        forall|i: int| 0 <= i < idxs.len() ==> idxs[i] < before.len(),
        forall|i: int, j: int| 0 <= i < j < idxs.len() ==> idxs[i] != idxs[j],
        bulk_written(before, idxs, vals, after),
        clones_of(read_all(after, idxs), out),
    ensures
        exists|written: Seq<T>| #[trigger] clones_of(vals, written) && clones_of(written, out),
        (forall|a: T, b: T| #[trigger] cloned::<T>(a, b) ==> a == b) ==> out == vals,
{
    let written = choose|written: Seq<T>| #[trigger]
        clones_of(vals, written) && after == write_all(
            before,
            idxs.take(vals.len() as int),
            written,
        );
    assert(idxs.take(vals.len() as int) =~= idxs);
    lemma_write_then_read(before, idxs, written);
    assert(clones_of(written, out));
    if forall|a: T, b: T| #[trigger] cloned::<T>(a, b) ==> a == b {
        assert(out =~= vals);
    }
}

} // verus!
