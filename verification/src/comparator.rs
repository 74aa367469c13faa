//! What a comparison function says about the order of the values it is
//! given.
//!
//! A comparison function is a value like any other, and all that is known
//! of it is what it may answer. It is held to its answers only among the
//! values that it is asked about, the elements of a slice. The orders that
//! agree with every answer it can give among them are the orders it answers
//! by; a value is `below` another when it comes no later in each of these.

use crate::order::{
    count_where, in_run, lemma_concat_within, lemma_element_counted, lemma_permutation_concat,
    lemma_permutation_len, lemma_permutation_member, lemma_subrange_within, partitioned_at,
    permutation, strictly_after, strictly_before, total_preorder,
};
use std::cmp::Ordering;
use vstd::multiset::Multiset;
use vstd::prelude::*;

verus! {

/// `cmp` may be called on any two of the values `among` those given.
pub open spec fn callable<T, F>(cmp: F, among: Multiset<T>) -> bool where
    F: FnMut(&T, &T) -> Ordering,
 {
    forall|a: T, b: T| among.contains(a) && among.contains(b) ==> call_requires(cmp, (&a, &b))
}

/// `Less` is an answer of `cmp` for `a` and `b`.
pub open spec fn answers_less<T, F>(cmp: F, a: T, b: T) -> bool where F: FnMut(&T, &T) -> Ordering {
    call_ensures(cmp, (&a, &b), Ordering::Less)
}

/// `Equal` is an answer of `cmp` for `a` and `b`.
pub open spec fn answers_equal<T, F>(cmp: F, a: T, b: T) -> bool where
    F: FnMut(&T, &T) -> Ordering,
 {
    call_ensures(cmp, (&a, &b), Ordering::Equal)
}

/// `Greater` is an answer of `cmp` for `a` and `b`.
pub open spec fn answers_greater<T, F>(cmp: F, a: T, b: T) -> bool where
    F: FnMut(&T, &T) -> Ordering,
 {
    call_ensures(cmp, (&a, &b), Ordering::Greater)
}

/// `cmp` has an answer for `a` and `b` that is not `Less`.
pub open spec fn answers_not_less<T, F>(cmp: F, a: T, b: T) -> bool where
    F: FnMut(&T, &T) -> Ordering,
 {
    answers_equal(cmp, a, b) || answers_greater(cmp, a, b)
}

/// `cmp` has an answer for `a` and `b` that is not `Greater`.
pub open spec fn answers_not_greater<T, F>(cmp: F, a: T, b: T) -> bool where
    F: FnMut(&T, &T) -> Ordering,
 {
    answers_less(cmp, a, b) || answers_equal(cmp, a, b)
}

/// `cmp` has an answer for `a` and `b` that is not `Equal`.
pub open spec fn answers_not_equal<T, F>(cmp: F, a: T, b: T) -> bool where
    F: FnMut(&T, &T) -> Ordering,
 {
    answers_less(cmp, a, b) || answers_greater(cmp, a, b)
}

/// `cmp` answers by the order `le` `among` the given values: `le` is a
/// total preorder, and whatever `cmp` answers for two of the values is
/// their order in `le`.
pub open spec fn orders<T, F>(cmp: F, among: Multiset<T>, le: spec_fn(T, T) -> bool) -> bool where
    F: FnMut(&T, &T) -> Ordering,
 {
    &&& total_preorder(le)
    &&& forall|a: T, b: T, o: Ordering|
        among.contains(a) && among.contains(b) && #[trigger] call_ensures(cmp, (&a, &b), o)
            ==> match o {
            Ordering::Less => le(a, b) && !le(b, a),
            Ordering::Equal => le(a, b) && le(b, a),
            Ordering::Greater => le(b, a) && !le(a, b),
        }
}

/// `a` is not greater than `b` in any order that `cmp` answers by `among`
/// the given values.
pub open spec fn below<T, F>(cmp: F, among: Multiset<T>, a: T, b: T) -> bool where
    F: FnMut(&T, &T) -> Ordering,
 {
    forall|le: spec_fn(T, T) -> bool| #[trigger] orders(cmp, among, le) ==> le(a, b)
}

/// `le` is an order that `cmp` answers by among the elements of `s`, and
/// position `p` splits `s` in it.
pub open spec fn split_in<T, F>(cmp: F, s: Seq<T>, p: int, le: spec_fn(T, T) -> bool) -> bool where
    F: FnMut(&T, &T) -> Ordering,
 {
    orders(cmp, s.to_multiset(), le) && partitioned_at(s, p, le)
}

/// `le` is an order that `cmp` answers by among the elements of `s`, and
/// every element of `s` is level with `x` in it.
pub open spec fn level_in<T, F>(cmp: F, s: Seq<T>, x: T, le: spec_fn(T, T) -> bool) -> bool where
    F: FnMut(&T, &T) -> Ordering,
 {
    &&& orders(cmp, s.to_multiset(), le)
    &&& forall|i: int| 0 <= i < s.len() ==> le(#[trigger] s[i], x) && le(x, s[i])
}

/// In each order that `cmp` answers by among the elements of `s`, `n` of
/// the elements of `part` come strictly before `x`.
pub open spec fn counts_before<T, F>(cmp: F, s: Seq<T>, part: Seq<T>, x: T, n: int) -> bool where
    F: FnMut(&T, &T) -> Ordering,
 {
    forall|le: spec_fn(T, T) -> bool| #[trigger]
        orders(cmp, s.to_multiset(), le) ==> n == count_where(part, strictly_before(le, x))
}

/// In each order that `cmp` answers by among the elements of `s`, `n` of
/// the elements of `part` come strictly after `x`.
pub open spec fn counts_after<T, F>(cmp: F, s: Seq<T>, part: Seq<T>, x: T, n: int) -> bool where
    F: FnMut(&T, &T) -> Ordering,
 {
    forall|le: spec_fn(T, T) -> bool| #[trigger]
        orders(cmp, s.to_multiset(), le) ==> n == count_where(part, strictly_after(le, x))
}

/// In each order that `cmp` answers by among the elements of `s`, the
/// element at `m` comes strictly before every element that stands before
/// it: it is the first of the least, if it is one of them.
pub open spec fn first_least<T, F>(cmp: F, s: Seq<T>, m: int) -> bool where
    F: FnMut(&T, &T) -> Ordering,
 {
    forall|le: spec_fn(T, T) -> bool| #[trigger]
        orders(cmp, s.to_multiset(), le) ==> forall|j: int|
            0 <= j < m ==> !le(#[trigger] s[j], s[m])
}

/// In each order that `cmp` answers by among the elements of `s`, the
/// element at `m` comes strictly after every element that stands before
/// it: it is the first of the greatest, if it is one of them.
pub open spec fn first_greatest<T, F>(cmp: F, s: Seq<T>, m: int) -> bool where
    F: FnMut(&T, &T) -> Ordering,
 {
    forall|le: spec_fn(T, T) -> bool| #[trigger]
        orders(cmp, s.to_multiset(), le) ==> forall|j: int|
            0 <= j < m ==> !le(s[m], #[trigger] s[j])
}

/// `after` is what the extension of a split makes of `mid`, in which the
/// pivot rests at `pivot` within the window from `lo` up to `hi`: a
/// rearrangement with the pivot at `p`, moved to the right by the number
/// of elements after the window that come before it, less the number of
/// elements before the window that come after it; and `mid` itself, where
/// the pivot splits it already.
pub open spec fn expanded<T, F>(
    cmp: F,
    mid: Seq<T>,
    after: Seq<T>,
    lo: int,
    pivot: int,
    hi: int,
    p: int,
) -> bool where F: FnMut(&T, &T) -> Ordering {
    &&& permutation(after, mid)
    &&& after[p] == mid[pivot]
    &&& counts_shift(cmp, mid, lo, hi, mid[pivot], p - pivot)
    &&& forall|le: spec_fn(T, T) -> bool| #[trigger]
        split_in(cmp, mid, pivot, le) ==> p == pivot && after == mid
}

/// In each order that `cmp` answers by among the elements of `s`, `d` is
/// the number of elements from `hi` on that come strictly before `x`, less
/// the number of elements before `lo` that come strictly after it.
pub open spec fn counts_shift<T, F>(cmp: F, s: Seq<T>, lo: int, hi: int, x: T, d: int) -> bool where
    F: FnMut(&T, &T) -> Ordering,
 {
    forall|le: spec_fn(T, T) -> bool| #[trigger]
        orders(cmp, s.to_multiset(), le) ==> d == count_where(
            s.skip(hi),
            strictly_before(le, x),
        ) - count_where(s.take(lo), strictly_after(le, x))
}

/// Each of the `places` elements of `s` from position `first` on is below
/// every element of its run, the runs being of `span` positions each from
/// position `base` on.
pub open spec fn run_minima<T, F>(
    cmp: F,
    s: Seq<T>,
    first: int,
    places: int,
    base: int,
    span: int,
) -> bool where F: FnMut(&T, &T) -> Ordering {
    forall|i: int, j: int|
        0 <= i < places && #[trigger] in_run(base, span, i, j) ==> below(
            cmp,
            s.to_multiset(),
            s[first + i],
            s[j],
        )
}

/// Every element of the run of each of the `places` elements of `s` from
/// position `first` on is below that element, the runs being of `span`
/// positions each from position `base` on.
pub open spec fn run_maxima<T, F>(
    cmp: F,
    s: Seq<T>,
    first: int,
    places: int,
    base: int,
    span: int,
) -> bool where F: FnMut(&T, &T) -> Ordering {
    forall|i: int, j: int|
        0 <= i < places && #[trigger] in_run(base, span, i, j) ==> below(
            cmp,
            s.to_multiset(),
            s[j],
            s[first + i],
        )
}

/// Every element of `s` from position `from` up to `to` is below `x`.
pub open spec fn lower<T, F>(cmp: F, s: Seq<T>, from: int, to: int, x: T) -> bool where
    F: FnMut(&T, &T) -> Ordering,
 {
    forall|i: int| from <= i < to ==> below(cmp, s.to_multiset(), #[trigger] s[i], x)
}

/// `x` is below every element of `s` from position `from` up to `to`.
pub open spec fn upper<T, F>(cmp: F, s: Seq<T>, from: int, to: int, x: T) -> bool where
    F: FnMut(&T, &T) -> Ordering,
 {
    forall|i: int| from <= i < to ==> below(cmp, s.to_multiset(), x, #[trigger] s[i])
}

/// Position `p` splits `s`: what stands before it is below `s[p]`, and
/// `s[p]` is below what stands after it.
pub open spec fn partitioned<T, F>(cmp: F, s: Seq<T>, p: int) -> bool where
    F: FnMut(&T, &T) -> Ordering,
 {
    &&& 0 <= p < s.len()
    &&& forall|i: int| 0 <= i < p ==> below(cmp, s.to_multiset(), #[trigger] s[i], s[p])
    &&& forall|j: int| p < j < s.len() ==> below(cmp, s.to_multiset(), s[p], #[trigger] s[j])
}

/// What is below a value is below all that the value is below.
pub proof fn lemma_below_transitive<T, F>(cmp: F, among: Multiset<T>, a: T, b: T, c: T) where
    F: FnMut(&T, &T) -> Ordering,

    requires
        below(cmp, among, a, b),
        below(cmp, among, b, c),
    ensures
        below(cmp, among, a, c),
{
}

/// What holds among some values holds among more: `cmp` has more answers to
/// keep to, so it answers by fewer orders.
pub proof fn lemma_below_within<T, F>(cmp: F, part: Multiset<T>, whole: Multiset<T>, a: T, b: T) where
    F: FnMut(&T, &T) -> Ordering,

    requires
        part.subset_of(whole),
        below(cmp, part, a, b),
    ensures
        below(cmp, whole, a, b),
{
    assert forall|le: spec_fn(T, T) -> bool| #[trigger] orders(cmp, whole, le) implies le(a, b) by {
        assert(orders(cmp, part, le));
    }
}

/// An answer of `cmp` on two elements of `s` places them.
pub proof fn lemma_answer<T, F>(cmp: F, s: Seq<T>, i: int, j: int, o: Ordering) where
    F: FnMut(&T, &T) -> Ordering,

    requires
        0 <= i < s.len(),
        0 <= j < s.len(),
        call_ensures(cmp, (&s[i], &s[j]), o),
    ensures
        o != Ordering::Greater ==> below(cmp, s.to_multiset(), s[i], s[j]),
        o != Ordering::Less ==> below(cmp, s.to_multiset(), s[j], s[i]),
{
    lemma_element_counted(s, i);
    lemma_element_counted(s, j);
}

/// Where `p` splits `s` and the elements before `p` are rearranged so that
/// `k` splits them, `k` splits the whole.
pub proof fn lemma_partitioned_left<T, F>(cmp: F, s: Seq<T>, p: int, head: Seq<T>, k: int) where
    F: FnMut(&T, &T) -> Ordering,

    requires
        partitioned(cmp, s, p),
        permutation(head, s.take(p)),
        partitioned(cmp, head, k),
    ensures
        partitioned(cmp, head + s.skip(p), k),
        permutation(head + s.skip(p), s),
{
    let r = head + s.skip(p);
    let all = s.to_multiset();
    assert(s =~= s.take(p) + s.skip(p));
    lemma_permutation_len(head, s.take(p));
    lemma_permutation_concat(head, s.skip(p), s.take(p), s.skip(p));
    lemma_concat_within(head, s.skip(p));
    // the element at `k` was before `p`, so it is below the one at `p`
    let m = lemma_permutation_member(s.take(p), head, k);
    assert(below(cmp, all, s[m], s[p]));
    assert forall|i: int| 0 <= i < k implies below(cmp, all, #[trigger] r[i], r[k]) by {
        lemma_below_within(cmp, head.to_multiset(), all, head[i], head[k]);
    }
    assert forall|j: int| k < j < r.len() implies below(cmp, all, r[k], #[trigger] r[j]) by {
        if j < p {
            lemma_below_within(cmp, head.to_multiset(), all, head[k], head[j]);
        } else {
            lemma_below_transitive(cmp, all, head[k], s[p], s[j]);
        }
    }
}

/// Where `p` splits `s` and the elements after `p` are rearranged so that
/// `k` splits them, the position `k` places after `p` splits the whole.
pub proof fn lemma_partitioned_right<T, F>(cmp: F, s: Seq<T>, p: int, tail: Seq<T>, k: int) where
    F: FnMut(&T, &T) -> Ordering,

    requires
        partitioned(cmp, s, p),
        permutation(tail, s.skip(p + 1)),
        partitioned(cmp, tail, k),
    ensures
        partitioned(cmp, s.take(p + 1) + tail, p + 1 + k),
        permutation(s.take(p + 1) + tail, s),
{
    let r = s.take(p + 1) + tail;
    let q = p + 1 + k;
    let all = s.to_multiset();
    assert(s =~= s.take(p + 1) + s.skip(p + 1));
    lemma_permutation_len(tail, s.skip(p + 1));
    lemma_permutation_concat(s.take(p + 1), tail, s.take(p + 1), s.skip(p + 1));
    lemma_concat_within(s.take(p + 1), tail);
    // the element at `k` was after `p`, so the one at `p` is below it
    let m = lemma_permutation_member(s.skip(p + 1), tail, k);
    assert(below(cmp, all, s[p], s[p + 1 + m]));
    assert forall|i: int| 0 <= i < q implies below(cmp, all, #[trigger] r[i], r[q]) by {
        if i <= p {
            lemma_below_transitive(cmp, all, s[i], s[p], tail[k]);
        } else {
            lemma_below_within(cmp, tail.to_multiset(), all, tail[i - p - 1], tail[k]);
        }
    }
    assert forall|j: int| q < j < r.len() implies below(cmp, all, r[q], #[trigger] r[j]) by {
        lemma_below_within(cmp, tail.to_multiset(), all, tail[k], tail[j - p - 1]);
    }
}

/// A position that splits a stretch of a sequence splits that stretch
/// where it lies in the sequence.
pub proof fn lemma_partitioned_window<T, F>(
    cmp: F,
    a: Seq<T>,
    w: Seq<T>,
    b: Seq<T>,
    lo: int,
    k: int,
) where F: FnMut(&T, &T) -> Ordering
    requires
        lo == a.len(),
        partitioned(cmp, w, k),
    ensures
        (a + w + b)[lo + k] == w[k],
        lower(cmp, a + w + b, lo, lo + k, w[k]),
        upper(cmp, a + w + b, lo + k + 1, lo + w.len(), w[k]),
{
    let s = a + w + b;
    assert(w =~= s.subrange(lo, lo + w.len()));
    lemma_subrange_within(s, lo, lo + w.len());
    assert forall|i: int| lo <= i < lo + k implies below(
        cmp,
        s.to_multiset(),
        #[trigger] s[i],
        w[k],
    ) by {
        lemma_below_within(cmp, w.to_multiset(), s.to_multiset(), w[i - lo], w[k]);
    }
    assert forall|i: int| lo + k + 1 <= i < lo + w.len() implies below(
        cmp,
        s.to_multiset(),
        w[k],
        #[trigger] s[i],
    ) by {
        lemma_below_within(cmp, w.to_multiset(), s.to_multiset(), w[k], w[i - lo]);
    }
}

} // verus!
