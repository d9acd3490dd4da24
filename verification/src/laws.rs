//! What holds of every use of the vector, stated over its view.

use vstd::prelude::*;
use crate::iter::{item_at, position_behind};

verus! {

/// The view of the vector that `push` gives when `values` are pushed, first
/// to last, onto a vector with the view `start`.
pub open spec fn after_pushes<T>(start: Seq<T>, values: Seq<T>) -> Seq<T>
    decreases values.len(),
{
    if values.len() == 0 {
        start
    } else {
        after_pushes(start, values.drop_last()).push(values.last())
    }
}

/// Pushing appends: what was there stays where it was, and the pushed
/// values follow in the order of the pushes.
pub proof fn lemma_pushes_append<T>(start: Seq<T>, values: Seq<T>)
    ensures
        after_pushes(start, values) == start + values,
    decreases values.len(),
{
    if values.len() == 0 {
        assert(start + values =~= start);
    } else {
        lemma_pushes_append(start, values.drop_last());
        assert((start + values.drop_last()).push(values.last()) =~= start + values);
    }
}

/// Pushing `values` onto the empty vector gives a vector of their number
/// that reads back each value at the index of its push.
pub proof fn lemma_append_then_read<T>(values: Seq<T>)
    ensures
        after_pushes(Seq::<T>::empty(), values).len() == values.len(),
        forall|i: int|
            0 <= i < values.len() ==> after_pushes(Seq::<T>::empty(), values)[i] == values[i],
{
    lemma_pushes_append(Seq::<T>::empty(), values);
    assert(Seq::<T>::empty() + values =~= values);
}

/// The position of a new walk over `len` elements after `calls` calls of
/// `next`.
pub open spec fn position_after(len: nat, calls: nat) -> nat
    decreases calls,
{
    if calls == 0 {
        0
    } else {
        position_behind(len, position_after(len, (calls - 1) as nat))
    }
}

/// A walk gives the elements in index order, each once, and nothing after
/// the last one: call number `call` of `next` on a new walk, counted from
/// 0, finds the walk at index `call` and gives the element there, or finds
/// it at the end and gives nothing.
pub proof fn lemma_iteration_order<T>(source: Seq<T>, call: nat)
    ensures
        position_after(source.len(), call) == if call < source.len() {
            call
        } else {
            source.len()
        },
        item_at(source, position_after(source.len(), call)) == if call < source.len() {
            Some(source[call as int])
        } else {
            None
        },
    decreases call,
{
    if call > 0 {
        lemma_iteration_order(source, (call - 1) as nat);
    }
}

/// A walk over a vector that was built by pushing `values` onto the empty
/// vector gives exactly `values`, in the order of the pushes.
pub proof fn lemma_pushed_values_come_back_in_order<T>(values: Seq<T>, call: nat)
    ensures
        item_at(
            after_pushes(Seq::<T>::empty(), values),
            position_after(values.len(), call),
        ) == if call < values.len() {
            Some(values[call as int])
        } else {
            None
        },
{
    lemma_append_then_read(values);
    assert(after_pushes(Seq::<T>::empty(), values) =~= values);
    lemma_iteration_order(values, call);
}

/// A walk over the empty vector gives nothing.
pub proof fn lemma_empty_iteration<T>(call: nat)
    ensures
        item_at(Seq::<T>::empty(), position_after(0, call)) is None,
{
    lemma_iteration_order(Seq::<T>::empty(), call);
}

} // verus!
