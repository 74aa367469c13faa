//! Selection of the element of a given rank, in place.
//!
//! The slice is rearranged by exchanges only. Each step picks a pivot, by a
//! strategy that depends on the length of the slice and on the rank that is
//! wanted, splits the slice around it, and goes on in the side that holds
//! the rank.

use crate::comparator::{
    answers_equal, answers_greater, answers_less, answers_not_equal, answers_not_greater,
    answers_not_less, below, callable, counts_after, counts_before, counts_shift, expanded,
    first_greatest, first_least, lemma_answer,
    lemma_below_transitive, lemma_partitioned_left, lemma_partitioned_right,
    lemma_partitioned_window, level_in, lower, orders, partitioned, run_maxima, run_minima,
    split_in, upper,
};
use crate::order::{
    count_where, idx, in_run, lemma_count_grows_back, lemma_count_grows_front,
    lemma_count_none, lemma_count_zero, lemma_element_counted, lemma_run_at, lemma_run_earlier, lemma_permutation_single, lemma_permutation_window, lemma_runs_fit,
    lemma_subrange_within, lemma_swapped_permutation, permutation, strictly_after,
    strictly_before, swapped,
};
use std::cmp::Ordering;
use vstd::prelude::*;

verus! {

/// Exchanges the elements at `i` and `j`.
pub fn exchange<T>(v: &mut [T], i: usize, j: usize)
    requires
        i < old(v)@.len(),
        j < old(v)@.len(),
    ensures
        final(v)@ == swapped(old(v)@, idx(i), idx(j)),
        final(v)@.len() == old(v)@.len(),
        permutation(final(v)@, old(v)@),
{
    proof {
        lemma_swapped_permutation(v@, idx(i), idx(j));
    }
    if i < j {
        let (head, tail) = v.split_at_mut(j);
        std::mem::swap(&mut head[i], &mut tail[0]);
    } else if j < i {
        let (head, tail) = v.split_at_mut(i);
        std::mem::swap(&mut head[j], &mut tail[0]);
    }
    assert(v@ =~= swapped(old(v)@, idx(i), idx(j)));
}

/// Whether `cmp` puts the element at `i` before the one at `j`.
fn less<T, F>(v: &[T], i: usize, j: usize, cmp: &mut F) -> (r: bool) where
    F: FnMut(&T, &T) -> Ordering,

    requires
        i < v@.len(),
        j < v@.len(),
        callable(*old(cmp), v@.to_multiset()),
    ensures
        *final(cmp) == *old(cmp),
        r ==> answers_less(*old(cmp), v@[idx(i)], v@[idx(j)]),
        !r ==> answers_not_less(*old(cmp), v@[idx(i)], v@[idx(j)]),
        r ==> below(*old(cmp), v@.to_multiset(), v@[idx(i)], v@[idx(j)]),
        !r ==> below(*old(cmp), v@.to_multiset(), v@[idx(j)], v@[idx(i)]),
{
    proof {
        lemma_element_counted(v@, idx(i));
        lemma_element_counted(v@, idx(j));
    }
    let o = cmp(&v[i], &v[j]);
    proof {
        lemma_answer(*cmp, v@, idx(i), idx(j), o);
    }
    matches!(o, Ordering::Less)
}

/// Whether `cmp` puts the element at `i` after the one at `j`.
fn greater<T, F>(v: &[T], i: usize, j: usize, cmp: &mut F) -> (r: bool) where
    F: FnMut(&T, &T) -> Ordering,

    requires
        i < v@.len(),
        j < v@.len(),
        callable(*old(cmp), v@.to_multiset()),
    ensures
        *final(cmp) == *old(cmp),
        r ==> answers_greater(*old(cmp), v@[idx(i)], v@[idx(j)]),
        !r ==> answers_not_greater(*old(cmp), v@[idx(i)], v@[idx(j)]),
        r ==> below(*old(cmp), v@.to_multiset(), v@[idx(j)], v@[idx(i)]),
        !r ==> below(*old(cmp), v@.to_multiset(), v@[idx(i)], v@[idx(j)]),
{
    proof {
        lemma_element_counted(v@, idx(i));
        lemma_element_counted(v@, idx(j));
    }
    let o = cmp(&v[i], &v[j]);
    proof {
        lemma_answer(*cmp, v@, idx(i), idx(j), o);
    }
    matches!(o, Ordering::Greater)
}

/// Whether `cmp` puts the elements at `i` and `j` level.
fn equal<T, F>(v: &[T], i: usize, j: usize, cmp: &mut F) -> (r: bool) where
    F: FnMut(&T, &T) -> Ordering,

    requires
        i < v@.len(),
        j < v@.len(),
        callable(*old(cmp), v@.to_multiset()),
    ensures
        *final(cmp) == *old(cmp),
        r ==> answers_equal(*old(cmp), v@[idx(i)], v@[idx(j)]),
        !r ==> answers_not_equal(*old(cmp), v@[idx(i)], v@[idx(j)]),
        r ==> below(*old(cmp), v@.to_multiset(), v@[idx(i)], v@[idx(j)]) && below(
            *old(cmp),
            v@.to_multiset(),
            v@[idx(j)],
            v@[idx(i)],
        ),
{
    proof {
        lemma_element_counted(v@, idx(i));
        lemma_element_counted(v@, idx(j));
    }
    let o = cmp(&v[i], &v[j]);
    proof {
        lemma_answer(*cmp, v@, idx(i), idx(j), o);
    }
    matches!(o, Ordering::Equal)
}

/// The element at `m` lies between the elements at `x` and `y`.
pub open spec fn between<T, F>(cmp: F, s: Seq<T>, x: int, m: int, y: int) -> bool where
    F: FnMut(&T, &T) -> Ordering,
 {
    below(cmp, s.to_multiset(), s[x], s[m]) && below(cmp, s.to_multiset(), s[m], s[y])
}

/// `m` is one of the positions `a`, `b`, `c`, and the element at `m` lies
/// between the elements at the other two.
pub open spec fn median_of<T, F>(cmp: F, s: Seq<T>, m: int, a: int, b: int, c: int) -> bool where
    F: FnMut(&T, &T) -> Ordering,
 {
    ||| m == a && (between(cmp, s, b, a, c) || between(cmp, s, c, a, b))
    ||| m == b && (between(cmp, s, a, b, c) || between(cmp, s, c, b, a))
    ||| m == c && (between(cmp, s, a, c, b) || between(cmp, s, b, c, a))
}

/// `m` is the position that answers of `cmp` lead to, asked in a fixed
/// order. Where the element at `a` is greater than the one at `c`: `a` if
/// the one at `b` is greater than the one at `a`; else `c` if the one at `b`
/// is less than the one at `c`; else `b`. Where it is not: `c` if the
/// element at `b` is greater than the one at `c`; else `a` if the one at `b`
/// is less than the one at `a`; else `b`.
pub open spec fn median_choice<T, F>(cmp: F, s: Seq<T>, m: int, a: int, b: int, c: int) -> bool where
    F: FnMut(&T, &T) -> Ordering,
 {
    ||| answers_greater(cmp, s[a], s[c]) && answers_greater(cmp, s[b], s[a]) && m == a
    ||| answers_greater(cmp, s[a], s[c]) && answers_not_greater(cmp, s[b], s[a]) && answers_less(
        cmp,
        s[b],
        s[c],
    ) && m == c
    ||| answers_greater(cmp, s[a], s[c]) && answers_not_greater(cmp, s[b], s[a])
        && answers_not_less(cmp, s[b], s[c]) && m == b
    ||| answers_not_greater(cmp, s[a], s[c]) && answers_greater(cmp, s[b], s[c]) && m == c
    ||| answers_not_greater(cmp, s[a], s[c]) && answers_not_greater(cmp, s[b], s[c])
        && answers_less(cmp, s[b], s[a]) && m == a
    ||| answers_not_greater(cmp, s[a], s[c]) && answers_not_greater(cmp, s[b], s[c])
        && answers_not_less(cmp, s[b], s[a]) && m == b
}

/// The position, among `a`, `b` and `c`, of the median of the three elements
/// there, found with three comparisons at most.
pub fn median_index<T, F>(v: &[T], a: usize, b: usize, c: usize, cmp: &mut F) -> (m: usize) where
    F: FnMut(&T, &T) -> Ordering,

    requires
        a < v@.len(),
        b < v@.len(),
        c < v@.len(),
        callable(*old(cmp), v@.to_multiset()),
    ensures
        *final(cmp) == *old(cmp),
        median_choice(*old(cmp), v@, idx(m), idx(a), idx(b), idx(c)),
        median_of(*old(cmp), v@, idx(m), idx(a), idx(b), idx(c)),
{
    if greater(v, a, c, cmp) {
        if greater(v, b, a, cmp) {
            a
        } else {
            if less(v, b, c, cmp) {
                c
            } else {
                b
            }
        }
    } else {
        if greater(v, b, c, cmp) {
            c
        } else {
            if less(v, b, a, cmp) {
                a
            } else {
                b
            }
        }
    }
}

/// `m` is the position that `median_index` finds among three positions
/// that it finds itself: one among `a`, `b`, `c`, one among `d`, `e`, `f`,
/// and one among `g`, `h`, `i`.
pub open spec fn ninther_choice<T, F>(
    cmp: F,
    s: Seq<T>,
    m: int,
    a: int,
    b: int,
    c: int,
    d: int,
    e: int,
    f: int,
    g: int,
    h: int,
    i: int,
) -> bool where F: FnMut(&T, &T) -> Ordering {
    exists|x: int, y: int, z: int|
        {
            &&& #[trigger] median_choice(cmp, s, x, a, b, c)
            &&& #[trigger] median_choice(cmp, s, y, d, e, f)
            &&& #[trigger] median_choice(cmp, s, z, g, h, i)
            &&& median_choice(cmp, s, m, x, y, z)
        }
}

/// The position of the median of three medians: that of the elements at
/// `a`, `b`, `c`, that of those at `d`, `e`, `f`, and that of those at `g`,
/// `h`, `i`, each found as `median_index` finds it.
pub fn ninther<T, F>(
    v: &mut [T],
    a: usize,
    b: usize,
    c: usize,
    d: usize,
    e: usize,
    f: usize,
    g: usize,
    h: usize,
    i: usize,
    cmp: &mut F,
) -> (m: usize) where F: FnMut(&T, &T) -> Ordering
    requires
        a < old(v)@.len(),
        b < old(v)@.len(),
        c < old(v)@.len(),
        d < old(v)@.len(),
        e < old(v)@.len(),
        f < old(v)@.len(),
        g < old(v)@.len(),
        h < old(v)@.len(),
        i < old(v)@.len(),
        callable(*old(cmp), old(v)@.to_multiset()),
    ensures
        *final(cmp) == *old(cmp),
        final(v)@ == old(v)@,
        ninther_choice(
            *old(cmp),
            old(v)@,
            idx(m),
            idx(a),
            idx(b),
            idx(c),
            idx(d),
            idx(e),
            idx(f),
            idx(g),
            idx(h),
            idx(i),
        ),
        exists|x: int, y: int, z: int|
            {
                &&& median_of(*old(cmp), old(v)@, x, idx(a), idx(b), idx(c))
                &&& median_of(*old(cmp), old(v)@, y, idx(d), idx(e), idx(f))
                &&& median_of(*old(cmp), old(v)@, z, idx(g), idx(h), idx(i))
                &&& median_of(*old(cmp), old(v)@, idx(m), x, y, z)
            },
{
    let x = median_index(v, a, b, c, cmp);
    let y = median_index(v, d, e, f, cmp);
    let z = median_index(v, g, h, i, cmp);
    median_index(v, x, y, z, cmp)
}

/// Sorts the elements from `hi` up to `right` to the two sides of the
/// pivot. The elements from the pivot up to `hi` are above it already.
/// Those that `cmp` finds less than the pivot come to stand from the
/// pivot's place on, and the pivot follows them, at the position that is
/// returned; the others stay up to `right`. Nothing else moves. Where the
/// elements before the pivot are below it and those from `right` on are
/// above it, the position splits the slice.
pub fn expand_partition_right<T, F>(
    v: &mut [T],
    pivot: usize,
    hi: usize,
    right: usize,
    cmp: &mut F,
) -> (p: usize) where F: FnMut(&T, &T) -> Ordering
    requires
        pivot < hi <= right <= old(v)@.len(),
        callable(*old(cmp), old(v)@.to_multiset()),
        upper(*old(cmp), old(v)@, pivot + 1, idx(hi), old(v)@[idx(pivot)]),
    ensures
        *final(cmp) == *old(cmp),
        final(v)@.len() == old(v)@.len(),
        permutation(final(v)@, old(v)@),
        pivot <= p < right,
        p - pivot <= right - hi,
        counts_before(
            *old(cmp),
            old(v)@,
            old(v)@.subrange(idx(hi), idx(right)),
            old(v)@[idx(pivot)],
            p - pivot,
        ),
        final(v)@[idx(p)] == old(v)@[idx(pivot)],
        forall|j: int|
            pivot <= j < p ==> answers_less(*old(cmp), #[trigger] final(v)@[j], old(v)@[idx(pivot)]),
        lower(*old(cmp), final(v)@, idx(pivot), idx(p), old(v)@[idx(pivot)]),
        upper(*old(cmp), final(v)@, p + 1, idx(right), old(v)@[idx(pivot)]),
        forall|j: int|
            0 <= j < pivot || right <= j < old(v)@.len() ==> final(v)@[j] == old(v)@[j],
        p == pivot ==> final(v)@ == old(v)@,
        lower(*old(cmp), old(v)@, 0, idx(pivot), old(v)@[idx(pivot)]) && upper(
            *old(cmp),
            old(v)@,
            idx(right),
            idx(old(v).len()),
            old(v)@[idx(pivot)],
        ) ==> partitioned(*old(cmp), final(v)@, idx(p)),
{
    let ghost x = v@[idx(pivot)];
    let mut p = pivot;
    proof {
        assert forall|le: spec_fn(T, T) -> bool| #[trigger]
            orders(*cmp, v@.to_multiset(), le) implies 0 == count_where(
            v@.subrange(idx(hi), idx(hi)),
            strictly_before(le, x),
        ) by {
            lemma_count_none(v@.subrange(idx(hi), idx(hi)), strictly_before(le, x));
        }
    }
    for i in hi..right
        invariant
            pivot < hi <= right <= v@.len(),
            v@.len() == old(v)@.len(),
            pivot <= p,
            p - pivot <= i - hi,
            *cmp == *old(cmp),
            callable(*cmp, v@.to_multiset()),
            permutation(v@, old(v)@),
            v@[idx(pivot)] == x,
            x == old(v)@[idx(pivot)],
            forall|j: int| 0 <= j < pivot || i <= j < v@.len() ==> v@[j] == old(v)@[j],
            p == pivot ==> v@ == old(v)@,
            counts_before(*cmp, old(v)@, old(v)@.subrange(idx(hi), idx(i)), x, p - pivot),
            forall|j: int| pivot < j <= p ==> answers_less(*cmp, #[trigger] v@[j], x),
            lower(*cmp, v@, pivot + 1, p + 1, x),
            upper(*cmp, v@, p + 1, idx(i), x),
    {
        let found = less(v, i, pivot, cmp);
        proof {
            lemma_element_counted(v@, idx(i));
            lemma_element_counted(v@, idx(pivot));
            assert forall|le: spec_fn(T, T) -> bool| #[trigger]
                orders(*cmp, old(v)@.to_multiset(), le) implies p - pivot + (if found {
                1int
            } else {
                0int
            }) == count_where(old(v)@.subrange(idx(hi), i + 1), strictly_before(le, x)) by {
                lemma_count_grows_back(old(v)@, idx(hi), idx(i), strictly_before(le, x));
            }
        }
        if found {
            p += 1;
            exchange(v, p, i);
        }
    }
    exchange(v, p, pivot);
    p
}

/// Sorts the elements from `left` up to `lo` to the two sides of the
/// pivot. The elements from `lo` up to the pivot are below it already.
/// Those that `cmp` finds greater than the pivot come to stand up to the
/// pivot's place, and the pivot precedes them, at the position that is
/// returned; the others stay from `left` on. Nothing else moves. Where the
/// elements before `left` are below the pivot and those after it are above
/// it, the position splits the slice.
pub fn expand_partition_left<T, F>(
    v: &mut [T],
    pivot: usize,
    lo: usize,
    left: usize,
    cmp: &mut F,
) -> (p: usize) where F: FnMut(&T, &T) -> Ordering
    requires
        left <= lo <= pivot < old(v)@.len(),
        callable(*old(cmp), old(v)@.to_multiset()),
        lower(*old(cmp), old(v)@, idx(lo), idx(pivot), old(v)@[idx(pivot)]),
    ensures
        *final(cmp) == *old(cmp),
        final(v)@.len() == old(v)@.len(),
        permutation(final(v)@, old(v)@),
        left <= p <= pivot,
        pivot - p <= lo - left,
        counts_after(
            *old(cmp),
            old(v)@,
            old(v)@.subrange(idx(left), idx(lo)),
            old(v)@[idx(pivot)],
            pivot - p,
        ),
        final(v)@[idx(p)] == old(v)@[idx(pivot)],
        forall|j: int|
            p < j <= pivot ==> answers_greater(
                *old(cmp),
                #[trigger] final(v)@[j],
                old(v)@[idx(pivot)],
            ),
        lower(*old(cmp), final(v)@, idx(left), idx(p), old(v)@[idx(pivot)]),
        upper(*old(cmp), final(v)@, p + 1, pivot + 1, old(v)@[idx(pivot)]),
        forall|j: int|
            0 <= j < left || pivot < j < old(v)@.len() ==> final(v)@[j] == old(v)@[j],
        p == pivot ==> final(v)@ == old(v)@,
        lower(*old(cmp), old(v)@, 0, idx(left), old(v)@[idx(pivot)]) && upper(
            *old(cmp),
            old(v)@,
            pivot + 1,
            idx(old(v).len()),
            old(v)@[idx(pivot)],
        ) ==> partitioned(*old(cmp), final(v)@, idx(p)),
{
    let ghost x = v@[idx(pivot)];
    let mut p = pivot;
    let mut i = lo;
    proof {
        assert forall|le: spec_fn(T, T) -> bool| #[trigger]
            orders(*cmp, v@.to_multiset(), le) implies 0 == count_where(
            v@.subrange(idx(lo), idx(lo)),
            strictly_after(le, x),
        ) by {
            lemma_count_none(v@.subrange(idx(lo), idx(lo)), strictly_after(le, x));
        }
    }
    while i > left
        invariant
            left <= i <= lo <= pivot < v@.len(),
            v@.len() == old(v)@.len(),
            p <= pivot,
            pivot - p <= lo - i,
            *cmp == *old(cmp),
            callable(*cmp, v@.to_multiset()),
            permutation(v@, old(v)@),
            v@[idx(pivot)] == x,
            x == old(v)@[idx(pivot)],
            forall|j: int| 0 <= j < i || pivot < j < v@.len() ==> v@[j] == old(v)@[j],
            p == pivot ==> v@ == old(v)@,
            counts_after(*cmp, old(v)@, old(v)@.subrange(idx(i), idx(lo)), x, pivot - p),
            forall|j: int| p <= j < pivot ==> answers_greater(*cmp, #[trigger] v@[j], x),
            lower(*cmp, v@, idx(i), idx(p), x),
            upper(*cmp, v@, idx(p), idx(pivot), x),
        decreases i,
    {
        i -= 1;
        let found = greater(v, i, pivot, cmp);
        proof {
            lemma_element_counted(v@, idx(i));
            lemma_element_counted(v@, idx(pivot));
            assert forall|le: spec_fn(T, T) -> bool| #[trigger]
                orders(*cmp, old(v)@.to_multiset(), le) implies pivot - p + (if found {
                1int
            } else {
                0int
            }) == count_where(old(v)@.subrange(idx(i), idx(lo)), strictly_after(le, x)) by {
                lemma_count_grows_front(old(v)@, i + 1, idx(lo), strictly_after(le, x));
            }
        }
        if found {
            p -= 1;
            exchange(v, p, i);
        }
    }
    exchange(v, p, pivot);
    p
}

/// Extends a split of the window from `lo` up to `hi`, in which the pivot
/// rests, to the whole slice, and returns the position that the pivot ends
/// at. The pivot moves to the right by the number of elements after the
/// window that come before it, less the number of elements before the
/// window that come after it. A slice that the pivot splits already is left
/// as it is.
pub fn expand_partition<T, F>(v: &mut [T], lo: usize, pivot: usize, hi: usize, cmp: &mut F) -> (p:
    usize) where F: FnMut(&T, &T) -> Ordering
    requires
        lo <= pivot < hi <= old(v)@.len(),
        callable(*old(cmp), old(v)@.to_multiset()),
        lower(*old(cmp), old(v)@, idx(lo), idx(pivot), old(v)@[idx(pivot)]),
        upper(*old(cmp), old(v)@, pivot + 1, idx(hi), old(v)@[idx(pivot)]),
    ensures
        *final(cmp) == *old(cmp),
        final(v)@.len() == old(v)@.len(),
        permutation(final(v)@, old(v)@),
        final(v)@[idx(p)] == old(v)@[idx(pivot)],
        partitioned(*old(cmp), final(v)@, idx(p)),
        pivot - lo <= p,
        p - pivot <= old(v)@.len() - hi,
        counts_shift(*old(cmp), old(v)@, idx(lo), idx(hi), old(v)@[idx(pivot)], p - pivot),
        forall|le: spec_fn(T, T) -> bool| #[trigger]
            split_in(*old(cmp), old(v)@, idx(pivot), le) ==> p == pivot && final(v)@ == old(v)@,
{
    let ghost x = v@[idx(pivot)];
    let mut left: usize = 0;
    let mut right: usize = v.len() - 1;
    proof {
        assert(v@.skip(idx(hi)) =~= v@.subrange(idx(hi), right + 1));
        assert(v@.take(idx(lo)) =~= v@.subrange(0, idx(lo)));
    }

    loop
        invariant
            lo <= pivot < hi <= v.len(),
            v@.len() == old(v)@.len(),
            left <= lo,
            hi <= right + 1 <= v.len(),
            *cmp == *old(cmp),
            callable(*cmp, v@.to_multiset()),
            permutation(v@, old(v)@),
            x == old(v)@[idx(pivot)],
            v@[idx(pivot)] == x,
            lower(*cmp, v@, idx(lo), idx(pivot), x),
            upper(*cmp, v@, pivot + 1, idx(hi), x),
            lower(*cmp, v@, 0, idx(left), x),
            upper(*cmp, v@, right + 1, idx(v.len()), x),
            forall|le: spec_fn(T, T) -> bool| #[trigger]
                orders(*cmp, old(v)@.to_multiset(), le) ==> count_where(
                    old(v)@.skip(idx(hi)),
                    strictly_before(le, x),
                ) - count_where(old(v)@.take(idx(lo)), strictly_after(le, x)) == count_where(
                    v@.subrange(idx(hi), right + 1),
                    strictly_before(le, x),
                ) - count_where(v@.subrange(idx(left), idx(lo)), strictly_after(le, x)),
            forall|le: spec_fn(T, T) -> bool| #[trigger]
                split_in(*cmp, old(v)@, idx(pivot), le) ==> v@ == old(v)@ && right + 1
                    == v.len(),
        decreases lo - left,
    {
        let ghost left0 = left;
        let ghost right0 = right;
        while left < lo && (less(v, left, pivot, cmp) || equal(v, left, pivot, cmp))
            invariant
                lo <= pivot < hi <= v.len(),
                left0 <= left <= lo,
                *cmp == *old(cmp),
                callable(*cmp, v@.to_multiset()),
                v@[idx(pivot)] == x,
                lower(*cmp, v@, 0, idx(left), x),
                forall|le: spec_fn(T, T) -> bool| #[trigger]
                    orders(*cmp, v@.to_multiset(), le) ==> count_where(
                        v@.subrange(idx(left), idx(lo)),
                        strictly_after(le, x),
                    ) == count_where(v@.subrange(idx(left0), idx(lo)), strictly_after(le, x)),
            decreases lo - left,
        {
            proof {
                // an element that is not after the pivot is not counted
                lemma_element_counted(v@, idx(left));
                lemma_element_counted(v@, idx(pivot));
                assert forall|le: spec_fn(T, T) -> bool| #[trigger]
                    orders(*cmp, v@.to_multiset(), le) implies count_where(
                    v@.subrange(left + 1, idx(lo)),
                    strictly_after(le, x),
                ) == count_where(v@.subrange(idx(left), idx(lo)), strictly_after(le, x)) by {
                    lemma_count_grows_front(v@, left + 1, idx(lo), strictly_after(le, x));
                }
            }
            left += 1
        }
        proof {
            // where the scan stops, the element is after the pivot; in an
            // order in which the slice was split already it stops nowhere
            if left < lo {
                lemma_element_counted(v@, idx(left));
                lemma_element_counted(v@, idx(pivot));
            }
            assert forall|le: spec_fn(T, T) -> bool| #[trigger]
                split_in(*cmp, old(v)@, idx(pivot), le) implies left == lo by {
                if left < lo {
                    assert(le(old(v)@[idx(left)], x));
                }
            }
        }
        if left == lo {
            let ghost start = v@;
            let p = expand_partition_right(v, pivot, hi, right + 1, cmp);
            proof {
                assert forall|le: spec_fn(T, T) -> bool| #[trigger]
                    orders(*cmp, old(v)@.to_multiset(), le) implies p - pivot == count_where(
                    old(v)@.skip(idx(hi)),
                    strictly_before(le, x),
                ) - count_where(old(v)@.take(idx(lo)), strictly_after(le, x)) by {
                    lemma_count_none(start.subrange(idx(lo), idx(lo)), strictly_after(le, x));
                }
                assert forall|le: spec_fn(T, T) -> bool| #[trigger]
                    split_in(*cmp, old(v)@, idx(pivot), le) implies p == pivot && v@ == old(
                    v,
                )@ by {
                    let rest = start.subrange(idx(hi), right + 1);
                    assert forall|j: int| 0 <= j < rest.len() implies !strictly_before(le, x)(
                        #[trigger] rest[j],
                    ) by {
                        assert(rest[j] == old(v)@[hi + j]);
                    }
                    lemma_count_zero(rest, strictly_before(le, x));
                }
            }
            return p;
        }
        while right >= hi && (greater(v, right, pivot, cmp) || equal(v, right, pivot, cmp))
            invariant
                lo <= pivot < hi <= v.len(),
                hi <= right + 1 <= v.len(),
                right <= right0,
                *cmp == *old(cmp),
                callable(*cmp, v@.to_multiset()),
                v@[idx(pivot)] == x,
                upper(*cmp, v@, right + 1, idx(v.len()), x),
                forall|le: spec_fn(T, T) -> bool| #[trigger]
                    orders(*cmp, v@.to_multiset(), le) ==> count_where(
                        v@.subrange(idx(hi), right + 1),
                        strictly_before(le, x),
                    ) == count_where(v@.subrange(idx(hi), right0 + 1), strictly_before(le, x)),
            decreases right,
        {
            proof {
                // an element that is not before the pivot is not counted
                lemma_element_counted(v@, idx(right));
                lemma_element_counted(v@, idx(pivot));
                assert forall|le: spec_fn(T, T) -> bool| #[trigger]
                    orders(*cmp, v@.to_multiset(), le) implies count_where(
                    v@.subrange(idx(hi), idx(right)),
                    strictly_before(le, x),
                ) == count_where(v@.subrange(idx(hi), right + 1), strictly_before(le, x)) by {
                    lemma_count_grows_back(v@, idx(hi), idx(right), strictly_before(le, x));
                }
            }
            right -= 1
        }
        if right < hi {
            let ghost start = v@;
            let p = expand_partition_left(v, pivot, lo, left, cmp);
            proof {
                assert forall|le: spec_fn(T, T) -> bool| #[trigger]
                    orders(*cmp, old(v)@.to_multiset(), le) implies p - pivot == count_where(
                    old(v)@.skip(idx(hi)),
                    strictly_before(le, x),
                ) - count_where(old(v)@.take(idx(lo)), strictly_after(le, x)) by {
                    lemma_count_none(start.subrange(idx(hi), idx(hi)), strictly_before(le, x));
                }
            }
            return p;
        }
        proof {
            // the two elements that are exchanged are both counted
            let prev = v@;
            let next = swapped(prev, idx(left), idx(right));
            lemma_element_counted(prev, idx(left));
            lemma_element_counted(prev, idx(right));
            lemma_element_counted(prev, idx(pivot));
            assert(next.subrange(left + 1, idx(lo)) =~= prev.subrange(left + 1, idx(lo)));
            assert(next.subrange(idx(hi), idx(right)) =~= prev.subrange(idx(hi), idx(right)));
            assert forall|le: spec_fn(T, T) -> bool| #[trigger]
                orders(*cmp, prev.to_multiset(), le) implies count_where(
                prev.subrange(idx(hi), right + 1),
                strictly_before(le, x),
            ) - count_where(prev.subrange(idx(left), idx(lo)), strictly_after(le, x))
                == count_where(next.subrange(idx(hi), idx(right)), strictly_before(le, x))
                - count_where(next.subrange(left + 1, idx(lo)), strictly_after(le, x)) by {
                lemma_count_grows_front(prev, left + 1, idx(lo), strictly_after(le, x));
                lemma_count_grows_back(prev, idx(hi), idx(right), strictly_before(le, x));
            }
        }
        exchange(v, left, right);
        left += 1;
        right -= 1;
    }
}

/// Splits the slice around the element at `k`, with two cursors that move
/// towards each other, and returns the position that the element ends at.
/// Both cursors stop at an element that is level with the pivot, so a
/// slice of elements that are all level is split in the middle.
pub fn partition_hoare<T, F>(v: &mut [T], k: usize, cmp: &mut F) -> (p: usize) where
    F: FnMut(&T, &T) -> Ordering,

    requires
        k < old(v)@.len(),
        callable(*old(cmp), old(v)@.to_multiset()),
    ensures
        *final(cmp) == *old(cmp),
        final(v)@.len() == old(v)@.len(),
        permutation(final(v)@, old(v)@),
        final(v)@[idx(p)] == old(v)@[idx(k)],
        partitioned(*old(cmp), final(v)@, idx(p)),
        forall|le: spec_fn(T, T) -> bool| #[trigger]
            level_in(*old(cmp), old(v)@, old(v)@[idx(k)], le) ==> p == old(v)@.len() / 2,
{
    exchange(v, 0, k);
    let ghost x = v@[0];
    let mut lo: usize = 1;
    let mut hi: usize = v.len() - 1;

    while lo <= hi
        invariant
            v@.len() == old(v)@.len(),
            1 <= lo <= v.len(),
            hi < v.len(),
            lo <= hi + 2,
            *cmp == *old(cmp),
            callable(*cmp, v@.to_multiset()),
            permutation(v@, old(v)@),
            v@[0] == x,
            x == old(v)@[idx(k)],
            lower(*cmp, v@, 1, idx(lo), x),
            upper(*cmp, v@, hi + 1, idx(v.len()), x),
            forall|le: spec_fn(T, T) -> bool| #[trigger]
                level_in(*cmp, old(v)@, x, le) ==> level_in(*cmp, v@, x, le) && lo + hi
                    == v.len(),
        decreases hi + 2 - lo,
    {
        let ghost lo0 = lo;
        let ghost hi0 = hi;
        while lo <= hi && less(v, lo, 0, cmp)
            invariant
                1 <= lo0 <= lo <= hi + 1 <= v.len(),
                *cmp == *old(cmp),
                callable(*cmp, v@.to_multiset()),
                v@[0] == x,
                lower(*cmp, v@, 1, idx(lo), x),
                forall|le: spec_fn(T, T) -> bool| #[trigger] level_in(*cmp, v@, x, le) ==> lo == lo0,
            decreases hi + 1 - lo,
        {
            proof {
                // not among elements that are all level with the pivot
                lemma_element_counted(v@, idx(lo));
                lemma_element_counted(v@, 0);
            }
            lo += 1
        }
        while lo <= hi && greater(v, hi, 0, cmp)
            invariant
                1 <= lo <= hi + 1 <= v.len(),
                hi <= hi0,
                *cmp == *old(cmp),
                callable(*cmp, v@.to_multiset()),
                v@[0] == x,
                upper(*cmp, v@, hi + 1, idx(v.len()), x),
                forall|le: spec_fn(T, T) -> bool| #[trigger] level_in(*cmp, v@, x, le) ==> hi == hi0,
            decreases hi,
        {
            proof {
                lemma_element_counted(v@, idx(hi));
                lemma_element_counted(v@, 0);
            }
            hi -= 1
        }
        if lo <= hi {
            exchange(v, lo, hi);
            lo += 1;
            hi -= 1;
        }
    }

    lo -= 1;
    exchange(v, lo, 0);
    lo
}

/// The stretch of the slice from `lo` up to `hi`.
fn window<T>(v: &mut [T], lo: usize, hi: usize) -> (w: &mut [T])
    requires
        lo <= hi <= old(v)@.len(),
    ensures
        w@ == old(v)@.subrange(idx(lo), idx(hi)),
        final(v)@ == old(v)@.take(idx(lo)) + final(w)@ + old(v)@.skip(idx(hi)),
{
    let (_, rest) = v.split_at_mut(lo);
    let (w, _) = rest.split_at_mut(hi - lo);
    w
}

/// Rearranges the stretch from `lo` up to `hi` so that its position `k`
/// splits it. The rest of the slice stays as it is.
fn select_within<T, F>(v: &mut [T], lo: usize, hi: usize, k: usize, cmp: &mut F) where
    F: FnMut(&T, &T) -> Ordering,

    requires
        lo + k < hi <= old(v)@.len(),
        hi - lo < old(v)@.len(),
        callable(*old(cmp), old(v)@.to_multiset()),
    ensures
        *final(cmp) == *old(cmp),
        final(v)@.len() == old(v)@.len(),
        permutation(final(v)@, old(v)@),
        lower(*old(cmp), final(v)@, idx(lo), lo + k, final(v)@[lo + k]),
        upper(*old(cmp), final(v)@, lo + k + 1, idx(hi), final(v)@[lo + k]),
        forall|j: int| 0 <= j < lo || hi <= j < old(v)@.len() ==> final(v)@[j] == old(v)@[j],
        permutation(
            final(v)@.subrange(idx(lo), idx(hi)),
            old(v)@.subrange(idx(lo), idx(hi)),
        ),
        partitioned(*old(cmp), final(v)@.subrange(idx(lo), idx(hi)), idx(k)),
    decreases old(v)@.len(), 0nat,
{
    let ghost a = v@.take(idx(lo));
    let ghost b = v@.skip(idx(hi));
    let w = window(v, lo, hi);
    let ghost w0 = w@;
    proof {
        lemma_subrange_within(old(v)@, idx(lo), idx(hi));
    }
    adaptive_quickselect(w, k, cmp);
    let ghost w1 = w@;
    proof {
        assert(old(v)@ =~= a + w0 + b);
        lemma_permutation_window(a, w1, w0, b);
        lemma_partitioned_window(*cmp, a, w1, b, idx(lo), idx(k));
        assert(v@.subrange(idx(lo), idx(hi)) =~= w1);
    }
}

/// `after` is what comes of the sample `s` when the elements from `lo` up
/// to `hi` are rearranged so that the one of rank `k` among them splits
/// them, and that split is extended to the whole with the pivot ending at
/// `p`.
pub open spec fn pivot_of_sample<T, F>(
    cmp: F,
    s: Seq<T>,
    after: Seq<T>,
    lo: int,
    hi: int,
    k: int,
    p: int,
) -> bool where F: FnMut(&T, &T) -> Ordering {
    exists|w: Seq<T>|
        permutation(w, s.subrange(lo, hi)) && #[trigger] partitioned(cmp, w, k) && expanded(
            cmp,
            s.take(lo) + w + s.skip(hi),
            after,
            lo,
            lo + k,
            hi,
            p,
        )
}

/// Takes the element of rank `k` among those from `lo` up to `hi` as the
/// pivot and splits the slice around it. Returns the position that the
/// pivot ends at.
fn split_by_sample<T, F>(v: &mut [T], lo: usize, hi: usize, k: usize, cmp: &mut F) -> (p: usize) where
    F: FnMut(&T, &T) -> Ordering,

    requires
        lo + k < hi <= old(v)@.len(),
        hi - lo < old(v)@.len(),
        callable(*old(cmp), old(v)@.to_multiset()),
    ensures
        *final(cmp) == *old(cmp),
        final(v)@.len() == old(v)@.len(),
        permutation(final(v)@, old(v)@),
        partitioned(*old(cmp), final(v)@, idx(p)),
        k <= p,
        p - (lo + k) <= old(v)@.len() - hi,
        pivot_of_sample(*old(cmp), old(v)@, final(v)@, idx(lo), idx(hi), idx(k), idx(p)),
    decreases old(v)@.len(), 1nat,
{
    select_within(v, lo, hi, k, cmp);
    let ghost mid = v@;
    let p = expand_partition(v, lo, lo + k, hi, cmp);
    proof {
        let w = mid.subrange(idx(lo), idx(hi));
        assert(mid =~= old(v)@.take(idx(lo)) + w + old(v)@.skip(idx(hi)));
        assert(expanded(*cmp, mid, v@, idx(lo), lo + k, idx(hi), idx(p)));
        assert(partitioned(*cmp, w, idx(k)));
    }
    p
}

/// `s` is what a scan for least elements makes of `before`, for the rank
/// `k`: a rearrangement in which each of the first `2 * k` elements is below
/// every element of its run, and which leaves alone what lies beyond the
/// runs. The runs follow the `2 * k` elements and are as long as fit. Where
/// none fits, each of the `2 * k` elements is below the one that follows
/// them.
pub open spec fn minima_sample<T, F>(cmp: F, before: Seq<T>, s: Seq<T>, k: int) -> bool where
    F: FnMut(&T, &T) -> Ordering,
 {
    let places = 2 * k;
    let span = (before.len() - places) / places;
    &&& permutation(s, before)
    &&& s.len() == before.len()
    &&& run_minima(cmp, s, 0, places, places, span)
    &&& span == 0 ==> lower(cmp, s, 0, places, s[places])
    &&& forall|j: int|
        places + places * span <= j < s.len() && places < j ==> s[j] == before[j]
}

/// `s` is what a scan for greatest elements makes of `before`, for the rank
/// `k`: a rearrangement in which every element of the run of each of the
/// last `2 * (len - k)` elements is below that element, and which leaves
/// alone what lies before the runs. The runs precede those elements and are
/// as long as fit. Where none fits, the first of those elements is below
/// each of them.
pub open spec fn maxima_sample<T, F>(cmp: F, before: Seq<T>, s: Seq<T>, k: int) -> bool where
    F: FnMut(&T, &T) -> Ordering,
 {
    let places = 2 * (before.len() - k);
    let first = before.len() - places;
    let span = first / places;
    let base = first - places * span;
    &&& permutation(s, before)
    &&& s.len() == before.len()
    &&& run_maxima(cmp, s, first, places, base, span)
    &&& span == 0 ==> upper(cmp, s, first, first + places, s[first])
    &&& forall|j: int| 0 <= j < base ==> s[j] == before[j]
}

/// Splits the slice around a pivot that is chosen for a small rank `k`.
/// The slice is taken as `2 * k` places at its front, each followed further
/// on by a run of its own; the least element of each run is brought to its
/// place where it is less than what stands there. The element of rank `k`
/// among those places is the pivot. Returns the position that it ends at,
/// which has `k` elements before it at the least and `k - 1` after it.
pub fn partition_minima<T, F>(v: &mut [T], k: usize, cmp: &mut F) -> (p: usize) where
    F: FnMut(&T, &T) -> Ordering,

    requires
        1 <= k,
        2 * k < old(v)@.len(),
        callable(*old(cmp), old(v)@.to_multiset()),
    ensures
        *final(cmp) == *old(cmp),
        final(v)@.len() == old(v)@.len(),
        permutation(final(v)@, old(v)@),
        partitioned(*old(cmp), final(v)@, idx(p)),
        k <= p <= old(v)@.len() - k,
        exists|s: Seq<T>| #[trigger]
            minima_sample(*old(cmp), old(v)@, s, idx(k)) && pivot_of_sample(
                *old(cmp),
                s,
                final(v)@,
                0,
                2 * k,
                idx(k),
                idx(p),
            ),
    decreases old(v)@.len(), 2nat,
{
    assert(v@.len() == v.len());
    let subset = k * 2;
    let span = (v.len() - subset) / subset;
    let start: usize = 0;
    let end = start + subset;
    let ghost top = subset + subset * span;
    proof {
        lemma_runs_fit(v.len() - subset, idx(subset));
    }

    let mut chunk = subset;
    assert(subset + 0 * span == subset) by (nonlinear_arith);
    for i in start..end
        invariant
            v@.len() == old(v)@.len(),
            end == subset,
            subset < v.len(),
            top <= v.len(),
            top == subset + subset * span,
            chunk == subset + i * span,
            *cmp == *old(cmp),
            callable(*cmp, v@.to_multiset()),
            permutation(v@, old(v)@),
            forall|j: int| chunk <= j < v@.len() && subset < j ==> v@[j] == old(v)@[j],
            span == 0 ==> lower(*cmp, v@, 0, idx(i), v@[idx(subset)]),
            forall|i2: int, j: int|
                0 <= i2 < i && #[trigger] in_run(idx(subset), idx(span), i2, j) ==> below(
                    *cmp,
                    v@.to_multiset(),
                    v@[i2],
                    v@[j],
                ),
    {
        assert(chunk + span <= top && (span == 0 ==> chunk == subset)) by (nonlinear_arith)
            requires
                chunk == subset + i * span,
                top == subset + subset * span,
                i < subset,
        ;
        let mut index = chunk;
        let mut j = chunk + 1;
        while j < chunk + span
            invariant
                chunk <= index < j,
                index < v.len(),
                j <= chunk + span || j == chunk + 1,
                chunk + span <= v.len(),
                *cmp == *old(cmp),
                callable(*cmp, v@.to_multiset()),
                upper(*cmp, v@, idx(chunk), idx(j), v@[idx(index)]),
            decreases chunk + span - j,
        {
            if less(v, j, index, cmp) {
                proof {
                    assert forall|t: int| chunk <= t < j + 1 implies below(
                        *cmp,
                        v@.to_multiset(),
                        v@[idx(j)],
                        #[trigger] v@[t],
                    ) by {
                        if t < j {
                            lemma_below_transitive(
                                *cmp,
                                v@.to_multiset(),
                                v@[idx(j)],
                                v@[idx(index)],
                                v@[t],
                            );
                        }
                    }
                }
                index = j
            }
            j += 1;
        }
        let ghost prev = v@;
        let found = less(v, index, i, cmp);
        if found {
            exchange(v, index, i)
        }
        proof {
            // the place is below all of its run now, and the places before
            // it and their runs have not been touched
            assert forall|i2: int, t: int|
                0 <= i2 < i + 1 && #[trigger] in_run(idx(subset), idx(span), i2, t) implies below(
                *cmp,
                v@.to_multiset(),
                v@[i2],
                v@[t],
            ) by {
                if i2 < i {
                    lemma_run_earlier(idx(subset), idx(span), i2, idx(i), t);
                    assert(v@[i2] == prev[i2] && v@[t] == prev[t]);
                } else {
                    lemma_run_at(idx(subset), idx(span), idx(i), t);
                    if !found {
                        lemma_below_transitive(
                            *cmp,
                            prev.to_multiset(),
                            prev[idx(i)],
                            prev[idx(index)],
                            prev[t],
                        );
                    }
                }
            }
            if span == 0 {
                assert forall|i2: int| 0 <= i2 < i + 1 implies below(
                    *cmp,
                    v@.to_multiset(),
                    #[trigger] v@[i2],
                    v@[idx(subset)],
                ) by {
                    if found && i2 < i {
                        lemma_below_transitive(
                            *cmp,
                            prev.to_multiset(),
                            prev[i2],
                            prev[idx(subset)],
                            prev[idx(i)],
                        );
                    }
                }
            }
            assert(chunk + span == subset + (i + 1) * span) by (nonlinear_arith)
                requires
                    chunk == subset + i * span,
            ;
        }
        chunk += span;
    }

    let ghost s = v@;
    let p = split_by_sample(v, start, end, k, cmp);
    proof {
        assert(minima_sample(*cmp, old(v)@, s, idx(k)));
    }
    p
}

/// Splits the slice around a pivot that is chosen for a large rank `k`.
/// The slice is taken as twice as many places at its back as lie from `k`
/// to its end, each preceded further up by a run of its own; the greatest
/// element of each run is brought to its place where it is greater than
/// what stands there. The element of rank `k` among those places is the
/// pivot. Returns the position that it ends at, which is not after `k` and
/// has as many elements before it at the least as lie from `k` to the end.
pub fn partition_maxima<T, F>(v: &mut [T], k: usize, cmp: &mut F) -> (p: usize) where
    F: FnMut(&T, &T) -> Ordering,

    requires
        k < old(v)@.len(),
        2 * (old(v)@.len() - k) < old(v)@.len(),
        callable(*old(cmp), old(v)@.to_multiset()),
    ensures
        *final(cmp) == *old(cmp),
        final(v)@.len() == old(v)@.len(),
        permutation(final(v)@, old(v)@),
        partitioned(*old(cmp), final(v)@, idx(p)),
        old(v)@.len() - k <= p <= k,
        exists|s: Seq<T>| #[trigger]
            maxima_sample(*old(cmp), old(v)@, s, idx(k)) && pivot_of_sample(
                *old(cmp),
                s,
                final(v)@,
                2 * k - old(v)@.len(),
                idx(old(v).len()),
                old(v)@.len() - k,
                idx(p),
            ),
    decreases old(v)@.len(), 2nat,
{
    let subset = (v.len() - k) * 2;
    let span = (v.len() - subset) / subset;
    let start = v.len() - subset;
    let end = v.len();
    proof {
        lemma_runs_fit(v.len() - subset, idx(subset));
    }

    let mut chunk = start - subset * span;
    let ghost base = idx(chunk);
    assert(base + 0 * span == base) by (nonlinear_arith);
    for i in start..end
        invariant
            v@.len() == old(v)@.len(),
            end == v.len(),
            start + subset == end,
            0 < subset,
            0 <= base,
            base + subset * span == start,
            chunk == base + (i - start) * span,
            *cmp == *old(cmp),
            callable(*cmp, v@.to_multiset()),
            permutation(v@, old(v)@),
            forall|j: int| 0 <= j < base ==> v@[j] == old(v)@[j],
            span == 0 ==> upper(*cmp, v@, idx(start), idx(i), v@[idx(start)]),
            forall|i2: int, j: int|
                0 <= i2 < i - start && #[trigger] in_run(base, idx(span), i2, j) ==> below(
                    *cmp,
                    v@.to_multiset(),
                    v@[j],
                    v@[start + i2],
                ),
    {
        assert(chunk + span <= start && (span == 0 ==> chunk == start)) by (nonlinear_arith)
            requires
                chunk == base + (i - start) * span,
                base + subset * span == start,
                start <= i < start + subset,
        ;
        let mut index = chunk;
        let mut j = chunk + 1;
        while j < chunk + span
            invariant
                chunk <= index < j,
                index < v.len(),
                j <= chunk + span || j == chunk + 1,
                chunk + span <= v.len(),
                *cmp == *old(cmp),
                callable(*cmp, v@.to_multiset()),
                lower(*cmp, v@, idx(chunk), idx(j), v@[idx(index)]),
            decreases chunk + span - j,
        {
            if greater(v, j, index, cmp) {
                proof {
                    assert forall|t: int| chunk <= t < j + 1 implies below(
                        *cmp,
                        v@.to_multiset(),
                        #[trigger] v@[t],
                        v@[idx(j)],
                    ) by {
                        if t < j {
                            lemma_below_transitive(
                                *cmp,
                                v@.to_multiset(),
                                v@[t],
                                v@[idx(index)],
                                v@[idx(j)],
                            );
                        }
                    }
                }
                index = j
            }
            j += 1;
        }
        let ghost prev = v@;
        let found = greater(v, index, i, cmp);
        if found {
            exchange(v, index, i)
        }
        proof {
            // the place is above all of its run now, and the places before
            // it and their runs have not been touched
            assert forall|i2: int, t: int|
                0 <= i2 < i + 1 - start && #[trigger] in_run(base, idx(span), i2, t) implies below(
                *cmp,
                v@.to_multiset(),
                v@[t],
                v@[start + i2],
            ) by {
                if i2 < i - start {
                    lemma_run_earlier(base, idx(span), i2, i - start, t);
                    assert(v@[start + i2] == prev[start + i2] && v@[t] == prev[t]);
                } else {
                    lemma_run_at(base, idx(span), i - start, t);
                    if !found {
                        lemma_below_transitive(
                            *cmp,
                            prev.to_multiset(),
                            prev[t],
                            prev[idx(index)],
                            prev[idx(i)],
                        );
                    }
                }
            }
            if span == 0 {
                assert forall|i2: int| start <= i2 < i + 1 implies below(
                    *cmp,
                    v@.to_multiset(),
                    v@[idx(start)],
                    #[trigger] v@[i2],
                ) by {
                    if found && start < i2 < i {
                        lemma_below_transitive(
                            *cmp,
                            prev.to_multiset(),
                            prev[idx(i)],
                            prev[idx(start)],
                            prev[i2],
                        );
                    }
                }
            }
            assert(chunk + span == base + (i + 1 - start) * span) by (nonlinear_arith)
                requires
                    chunk == base + (i - start) * span,
            ;
        }
        chunk += span;
    }

    let pivot = v.len() - k;
    let ghost s = v@;
    let p = split_by_sample(v, start, end, pivot, cmp);
    proof {
        assert(maxima_sample(*cmp, old(v)@, s, idx(k)));
    }
    p
}

/// The width of the window of samples for a slice of `len` elements.
pub open spec fn sample_width(len: nat) -> int {
    if len <= 1024 {
        len as int / 12
    } else if len <= 128 * 1024 {
        len as int / 64
    } else {
        len as int / 1024
    }
}

/// The first position of the window of samples for a slice of `len`
/// elements: the window lies about the middle.
pub open spec fn sample_start(len: nat) -> int {
    len / 2 - sample_width(len) / 2
}

/// `m` is the position that `ninther` finds for the place `j` of the
/// window: among three positions before the window, three after it, and
/// `j` with the two positions a window's width to either side of it.
pub open spec fn ninther_at<T, F>(
    cmp: F,
    s: Seq<T>,
    m: int,
    j: int,
    lo: int,
    frac: int,
    gap: int,
) -> bool where F: FnMut(&T, &T) -> Ordering {
    let a = lo - 4 * frac - gap + 3 * (j - lo);
    let b = lo + frac + gap + 3 * (j - lo);
    ninther_choice(cmp, s, m, a, j - frac, b, a + 1, j, b + 1, a + 2, j + frac, b + 2)
}

/// `s` is what comes of `before` when each place of the window from `lo`
/// up to `i` has been given its sample in turn: the element that `ninther`
/// finds for it has been exchanged with the one at the place.
pub open spec fn sampled_upto<T, F>(
    cmp: F,
    before: Seq<T>,
    s: Seq<T>,
    i: int,
    lo: int,
    frac: int,
    gap: int,
) -> bool where F: FnMut(&T, &T) -> Ordering
    decreases i - lo,
{
    if i <= lo {
        s == before
    } else {
        let j = i - 1;
        exists|prev: Seq<T>, m: int|
            {
                &&& sampled_upto(cmp, before, prev, j, lo, frac, gap)
                &&& #[trigger] ninther_at(cmp, prev, m, j, lo, frac, gap)
                &&& s == swapped(prev, m, j)
            }
    }
}

/// `s` is what the sampling makes of `before`: each place of the window
/// holds the ninther that was found for it.
pub open spec fn ninthers_sample<T, F>(cmp: F, before: Seq<T>, s: Seq<T>) -> bool where
    F: FnMut(&T, &T) -> Ordering,
 {
    let frac = sample_width(before.len());
    let lo = sample_start(before.len());
    let gap = (before.len() - 9 * frac) / 4;
    sampled_upto(cmp, before, s, lo + frac, lo, frac, gap)
}

/// Splits the slice around a pivot that is chosen for a rank near the
/// middle. A window about the middle of the slice is filled with medians of
/// medians, each taken from nine places spread over the slice; the median
/// of the window is the pivot. Returns the position that it ends at, which
/// has as many elements on each side at the least as the pivot had in the
/// window.
pub fn partition_ninthers<T, F>(v: &mut [T], cmp: &mut F) -> (p: usize) where
    F: FnMut(&T, &T) -> Ordering,

    requires
        12 <= old(v)@.len(),
        callable(*old(cmp), old(v)@.to_multiset()),
    ensures
        *final(cmp) == *old(cmp),
        final(v)@.len() == old(v)@.len(),
        permutation(final(v)@, old(v)@),
        partitioned(*old(cmp), final(v)@, idx(p)),
        sample_width(old(v)@.len()) / 2 <= p,
        p + (sample_width(old(v)@.len()) + 1) / 2 <= old(v)@.len(),
        exists|s: Seq<T>| #[trigger]
            ninthers_sample(*old(cmp), old(v)@, s) && pivot_of_sample(
                *old(cmp),
                s,
                final(v)@,
                sample_start(old(v)@.len()),
                sample_start(old(v)@.len()) + sample_width(old(v)@.len()),
                sample_width(old(v)@.len()) / 2,
                idx(p),
            ),
    decreases old(v)@.len(), 2nat,
{
    let frac = if v.len() <= 1024 {
        v.len() / 12
    } else {
        if v.len() <= 128 * 1024 {
            v.len() / 64
        } else {
            v.len() / 1024
        }
    };

    let pivot = frac / 2;
    let lo = v.len() / 2 - pivot;
    let hi = lo + frac;

    let gap = (v.len() - 9 * frac) / 4;
    let mut a = lo - 4 * frac - gap;
    let mut b = hi + gap;
    for i in lo..hi
        invariant
            v@.len() == old(v)@.len(),
            frac == sample_width(v@.len()),
            lo == v.len() / 2 - pivot,
            hi == lo + frac,
            gap == (v.len() - 9 * frac) / 4,
            a == lo - 4 * frac - gap + 3 * (i - lo),
            b == hi + gap + 3 * (i - lo),
            *cmp == *old(cmp),
            callable(*cmp, v@.to_multiset()),
            permutation(v@, old(v)@),
            sampled_upto(*cmp, old(v)@, v@, idx(i), idx(lo), idx(frac), idx(gap)),
    {
        let ghost prev = v@;
        let k = ninther(v, a, i - frac, b, a + 1, i, b + 1, a + 2, i + frac, b + 2, cmp);
        exchange(v, k, i);
        proof {
            assert(ninther_at(*cmp, prev, idx(k), idx(i), idx(lo), idx(frac), idx(gap)));
            assert(sampled_upto(*cmp, old(v)@, prev, i + 1 - 1, idx(lo), idx(frac), idx(gap)));
            assert(v@ == swapped(prev, idx(k), i + 1 - 1));
        }
        a += 3;
        b += 3;
    }

    let ghost s = v@;
    let p = split_by_sample(v, lo, hi, pivot, cmp);
    proof {
        assert(ninthers_sample(*cmp, old(v)@, s));
    }
    p
}

/// Rearranges the slice so that the position `nth` splits it. An end of the
/// slice is served by one pass that finds the least or the greatest
/// element, and one exchange that brings it there. Otherwise the slice is split around a pivot, chosen by a
/// strategy that goes by the length and by where `nth` lies, and the work
/// goes on in the side of the pivot that holds `nth`.
pub fn adaptive_quickselect<T, F>(v: &mut [T], nth: usize, cmp: &mut F) where
    F: FnMut(&T, &T) -> Ordering,

    requires
        nth < old(v)@.len(),
        callable(*old(cmp), old(v)@.to_multiset()),
    ensures
        *final(cmp) == *old(cmp),
        final(v)@.len() == old(v)@.len(),
        permutation(final(v)@, old(v)@),
        partitioned(*old(cmp), final(v)@, idx(nth)),
        nth == 0 ==> exists|m: int|
            0 <= m < old(v)@.len() && #[trigger] first_least(*old(cmp), old(v)@, m) && final(v)@
                == swapped(old(v)@, 0, m),
        nth != 0 && nth + 1 == old(v)@.len() ==> exists|m: int|
            0 <= m < old(v)@.len() && #[trigger] first_greatest(*old(cmp), old(v)@, m)
                && final(v)@ == swapped(old(v)@, idx(nth), m),
    decreases old(v)@.len(), 3nat,
{
    let last = v.len() - 1;

    if nth == 0 {
        let mut pivot: usize = 0;
        for i in 1..v.len()
            invariant
                v@ == old(v)@,
                pivot < i,
                *cmp == *old(cmp),
                callable(*cmp, v@.to_multiset()),
                upper(*cmp, v@, 0, idx(i), v@[idx(pivot)]),
                first_least(*cmp, v@, idx(pivot)),
        {
            if less(v, i, pivot, cmp) {
                proof {
                    lemma_element_counted(v@, idx(i));
                    lemma_element_counted(v@, idx(pivot));
                    assert forall|j: int| 0 <= j < i implies below(
                        *cmp,
                        v@.to_multiset(),
                        v@[idx(i)],
                        #[trigger] v@[j],
                    ) by {
                        lemma_below_transitive(
                            *cmp,
                            v@.to_multiset(),
                            v@[idx(i)],
                            v@[idx(pivot)],
                            v@[j],
                        );
                    }
                }
                pivot = i
            }
        }
        exchange(v, 0, pivot);
        assert(first_least(*cmp, old(v)@, idx(pivot)) && v@ == swapped(old(v)@, 0, idx(pivot)));
        return ;
    }
    if nth == last {
        let mut pivot: usize = 0;
        for i in 1..v.len()
            invariant
                v@ == old(v)@,
                pivot < i,
                *cmp == *old(cmp),
                callable(*cmp, v@.to_multiset()),
                lower(*cmp, v@, 0, idx(i), v@[idx(pivot)]),
                first_greatest(*cmp, v@, idx(pivot)),
        {
            if greater(v, i, pivot, cmp) {
                proof {
                    lemma_element_counted(v@, idx(i));
                    lemma_element_counted(v@, idx(pivot));
                    assert forall|j: int| 0 <= j < i implies below(
                        *cmp,
                        v@.to_multiset(),
                        #[trigger] v@[j],
                        v@[idx(i)],
                    ) by {
                        lemma_below_transitive(
                            *cmp,
                            v@.to_multiset(),
                            v@[j],
                            v@[idx(pivot)],
                            v@[idx(i)],
                        );
                    }
                }
                pivot = i
            }
        }
        exchange(v, last, pivot);
        assert(first_greatest(*cmp, old(v)@, idx(pivot)) && v@ == swapped(
            old(v)@,
            idx(nth),
            idx(pivot),
        ));
        return ;
    }
    // The two bounds on the rank are those on its sixfold, `nth * 6 <= len`
    // and `nth * 6 >= len * 5`, taken without the products.
    assert(nth <= v.len() / 6 <==> nth * 6 <= v.len());
    assert(v.len() - nth <= v.len() / 6 <==> nth * 6 >= v.len() * 5);
    let pivot = if v.len() <= 16 {
        partition_hoare(v, nth, cmp)
    } else if nth <= v.len() / 6 {
        partition_minima(v, nth, cmp)
    } else if v.len() - nth <= v.len() / 6 {
        partition_maxima(v, nth, cmp)
    } else {
        partition_ninthers(v, cmp)
    };

    if pivot == nth {
        return ;
    }
    let ghost split = v@;
    if pivot > nth {
        let (head, _) = v.split_at_mut(pivot);
        let ghost h0 = head@;
        proof {
            lemma_subrange_within(split, 0, idx(pivot));
        }
        adaptive_quickselect(head, nth, cmp);
        let ghost h1 = head@;
        proof {
            lemma_partitioned_left(*cmp, split, idx(pivot), h1, idx(nth));
        }
    } else {
        let start = pivot + 1;
        let ghost end = v.len();
        let (_, tail) = v.split_at_mut(start);
        let ghost t0 = tail@;
        proof {
            lemma_subrange_within(split, idx(start), idx(end));
        }
        adaptive_quickselect(tail, nth - start, cmp);
        let ghost t1 = tail@;
        proof {
            lemma_partitioned_right(*cmp, split, idx(pivot), t1, nth - start);
        }
    }
}

/// Rearranges `v` so that the element at `nth_el` is the one that would
/// stand there if `v` were sorted by `cmp`: nothing before it is greater,
/// and nothing after it is smaller.
pub fn nth_element<T, F>(v: &mut [T], nth_el: usize, cmp: &mut F) where
    F: FnMut(&T, &T) -> Ordering,

    requires
        nth_el < old(v)@.len(),
        callable(*old(cmp), old(v)@.to_multiset()),
    ensures
        *final(cmp) == *old(cmp),
        final(v)@.len() == old(v)@.len(),
        permutation(final(v)@, old(v)@),
        partitioned(*old(cmp), final(v)@, idx(nth_el)),
        nth_el == 0 ==> exists|m: int|
            0 <= m < old(v)@.len() && #[trigger] first_least(*old(cmp), old(v)@, m) && final(v)@
                == swapped(old(v)@, 0, m),
        nth_el != 0 && nth_el + 1 == old(v)@.len() ==> exists|m: int|
            0 <= m < old(v)@.len() && #[trigger] first_greatest(*old(cmp), old(v)@, m)
                && final(v)@ == swapped(old(v)@, idx(nth_el), m),
        old(v)@.len() == 1 ==> final(v)@ == old(v)@,
{
    adaptive_quickselect(v, nth_el, cmp);
    proof {
        if old(v)@.len() == 1 {
            lemma_permutation_single(old(v)@, v@);
        }
    }
}

} // verus!
