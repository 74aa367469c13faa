//! What holds of every selection, whatever the slice, the rank and the
//! comparison function.
//!
//! Each law speaks of a sequence `before`, of a sequence `after` that a
//! selection of rank `k` may leave in its place, and of an order `le` that
//! the comparison function answers by among the elements.

use crate::comparator::{orders, partitioned};
use crate::order::{
    equivalent, lemma_element_counted, lemma_permutation_constant, lemma_permutation_len,
    lemma_permutation_member, lemma_split_value_unique, partitioned_at, permutation,
};
use std::cmp::Ordering;
use vstd::prelude::*;
use vstd::relations::{antisymmetric, sorted_by};

verus! {

/// What a selection leaves is split at `k` in each order that the
/// comparison function answers by: nothing before `k` is greater than the
/// element there, and nothing after it is smaller.
pub proof fn lemma_selected_in_order<T, F>(
    cmp: F,
    le: spec_fn(T, T) -> bool,
    after: Seq<T>,
    k: int,
) where F: FnMut(&T, &T) -> Ordering
    requires
        orders(cmp, after.to_multiset(), le),
        partitioned(cmp, after, k),
    ensures
        partitioned_at(after, k, le),
{
}

/// What a selection leaves is split at `k` in the answers of the comparison
/// function itself: asked about an element before `k` and the one at `k`,
/// or about the one at `k` and an element after it, it does not answer
/// that the first is the greater.
pub proof fn lemma_selected_answers<T, F>(
    cmp: F,
    le: spec_fn(T, T) -> bool,
    after: Seq<T>,
    k: int,
    i: int,
    o: Ordering,
) where F: FnMut(&T, &T) -> Ordering
    requires
        orders(cmp, after.to_multiset(), le),
        partitioned(cmp, after, k),
        0 <= i < after.len(),
    ensures
        i < k && call_ensures(cmp, (&after[i], &after[k]), o) ==> o != Ordering::Greater,
        k < i && call_ensures(cmp, (&after[k], &after[i]), o) ==> o != Ordering::Greater,
{
    lemma_element_counted(after, i);
    lemma_element_counted(after, k);
}

/// A selection leaves at `k` the element that a sort of the same elements
/// puts there: an equivalent one, and the very same where the order tells
/// all values apart.
pub proof fn lemma_selected_as_sorted<T, F>(
    cmp: F,
    le: spec_fn(T, T) -> bool,
    before: Seq<T>,
    after: Seq<T>,
    sorted: Seq<T>,
    k: int,
) where F: FnMut(&T, &T) -> Ordering
    requires
        orders(cmp, before.to_multiset(), le),
        permutation(after, before),
        partitioned(cmp, after, k),
        permutation(sorted, before),
        sorted_by(sorted, le),
    ensures
        equivalent(le, after[k], sorted[k]),
        antisymmetric(le) ==> after[k] == sorted[k],
{
    lemma_permutation_len(after, sorted);
    lemma_split_value_unique(after, sorted, k, le);
}

/// Selecting the same rank again changes nothing that the first selection
/// promised: whatever the second leaves is split at `k` as before, and holds
/// there an element equivalent to the one that was there.
pub proof fn lemma_selected_again<T, F>(
    cmp: F,
    le: spec_fn(T, T) -> bool,
    first: Seq<T>,
    second: Seq<T>,
    k: int,
) where F: FnMut(&T, &T) -> Ordering
    requires
        orders(cmp, first.to_multiset(), le),
        partitioned(cmp, first, k),
        permutation(second, first),
        partitioned(cmp, second, k),
    ensures
        equivalent(le, second[k], first[k]),
        antisymmetric(le) ==> second[k] == first[k],
{
    lemma_split_value_unique(second, first, k, le);
}

/// Selecting rank 0 brings a least element to the front: the first element
/// of the result is one of the elements and is not greater than any.
pub proof fn lemma_selected_first_is_least<T, F>(
    cmp: F,
    le: spec_fn(T, T) -> bool,
    before: Seq<T>,
    after: Seq<T>,
) where F: FnMut(&T, &T) -> Ordering
    requires
        orders(cmp, before.to_multiset(), le),
        permutation(after, before),
        partitioned(cmp, after, 0),
    ensures
        before.contains(after[0]),
        forall|i: int| 0 <= i < before.len() ==> le(after[0], #[trigger] before[i]),
{
    lemma_permutation_member(before, after, 0);
    assert forall|i: int| 0 <= i < before.len() implies le(after[0], #[trigger] before[i]) by {
        lemma_permutation_member(after, before, i);
    }
}

/// Selecting the last rank brings a greatest element to the back: the last
/// element of the result is one of the elements and is not less than any.
pub proof fn lemma_selected_last_is_greatest<T, F>(
    cmp: F,
    le: spec_fn(T, T) -> bool,
    before: Seq<T>,
    after: Seq<T>,
) where F: FnMut(&T, &T) -> Ordering
    requires
        orders(cmp, before.to_multiset(), le),
        permutation(after, before),
        partitioned(cmp, after, after.len() - 1),
    ensures
        before.contains(after.last()),
        forall|i: int| 0 <= i < before.len() ==> le(#[trigger] before[i], after.last()),
{
    lemma_permutation_member(before, after, after.len() - 1);
    assert forall|i: int| 0 <= i < before.len() implies le(#[trigger] before[i], after.last()) by {
        lemma_permutation_member(after, before, i);
    }
}

/// A sequence that holds one value throughout is left as it is, and every
/// position splits it.
pub proof fn lemma_selected_of_identical<T, F>(cmp: F, before: Seq<T>, after: Seq<T>, k: int) where
    F: FnMut(&T, &T) -> Ordering,

    requires
        permutation(after, before),
        0 <= k < before.len(),
        forall|i: int, j: int|
            0 <= i < before.len() && 0 <= j < before.len() ==> before[i] == before[j],
    ensures
        after == before,
        partitioned(cmp, before, k),
{
    lemma_permutation_constant(before, after);
}

} // verus!
