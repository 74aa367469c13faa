//! Orders on the elements of a sequence: what it means for a position to
//! split a sequence, and what a rearrangement keeps.

use vstd::multiset::Multiset;
use vstd::prelude::*;
use vstd::relations::{antisymmetric, strongly_connected, transitive};
use vstd::seq_lib::lemma_multiset_commutative;

verus! {

/// The machine index `i` as a mathematical integer.
#[verifier::inline]
pub open spec fn idx(i: usize) -> int {
    i as int
}

/// `le` compares any two values and is transitive. Distinct values may be
/// equivalent.
pub open spec fn total_preorder<T>(le: spec_fn(T, T) -> bool) -> bool {
    &&& strongly_connected(le)
    &&& transitive(le)
}

/// Neither of `a` and `b` comes strictly before the other.
pub open spec fn equivalent<T>(le: spec_fn(T, T) -> bool, a: T, b: T) -> bool {
    le(a, b) && le(b, a)
}

/// `a` and `b` hold the same elements, each as often.
pub open spec fn permutation<T>(a: Seq<T>, b: Seq<T>) -> bool {
    a.to_multiset() == b.to_multiset()
}

/// `s` with the elements at `i` and `j` exchanged.
pub open spec fn swapped<T>(s: Seq<T>, i: int, j: int) -> Seq<T> {
    s.update(i, s[j]).update(j, s[i])
}

/// Nothing before position `k` is greater than `s[k]`, and nothing after it
/// is smaller.
pub open spec fn partitioned_at<T>(s: Seq<T>, k: int, le: spec_fn(T, T) -> bool) -> bool {
    &&& 0 <= k < s.len()
    &&& forall|i: int| 0 <= i < k ==> le(#[trigger] s[i], s[k])
    &&& forall|j: int| k < j < s.len() ==> le(s[k], #[trigger] s[j])
}

/// `d` runs of `n / d` elements each fit in `n` elements.
pub proof fn lemma_runs_fit(n: int, d: int)
    requires
        0 <= n,
        0 < d,
    ensures
        0 <= n / d,
        0 <= d * (n / d) <= n,
{
    vstd::arithmetic::div_mod::lemma_fundamental_div_mod(n, d);
    assert(0 <= d * (n / d)) by (nonlinear_arith)
        requires
            0 < d,
            0 <= n / d,
    ;
}

/// Position `j` lies in run `i`, where runs of `span` positions each follow
/// one another from position `base` on.
pub open spec fn in_run(base: int, span: int, i: int, j: int) -> bool {
    base + i * span <= j < base + (i + 1) * span
}

/// Run `i` is the `span` positions from `base + i * span` on.
pub proof fn lemma_run_at(base: int, span: int, i: int, j: int)
    ensures
        in_run(base, span, i, j) <==> base + i * span <= j < base + i * span + span,
{
    assert((i + 1) * span == i * span + span) by (nonlinear_arith);
}

/// An earlier run lies before a later one.
pub proof fn lemma_run_earlier(base: int, span: int, i: int, later: int, j: int)
    requires
        0 <= i < later,
        0 <= span,
        in_run(base, span, i, j),
    ensures
        base <= j < base + later * span,
{
    assert(0 <= i * span && (i + 1) * span <= later * span) by (nonlinear_arith)
        requires
            0 <= i < later,
            0 <= span,
    ;
}

/// Exchanging two elements rearranges a sequence.
pub proof fn lemma_swapped_permutation<T>(s: Seq<T>, i: int, j: int)
    requires
        0 <= i < s.len(),
        0 <= j < s.len(),
    ensures
        swapped(s, i, j).len() == s.len(),
        permutation(swapped(s, i, j), s),
{
    broadcast use vstd::multiset::group_multiset_axioms;

    let mid = s.update(i, s[j]);
    vstd::seq_lib::to_multiset_update(s, i, s[j]);
    vstd::seq_lib::to_multiset_update(mid, j, s[i]);
    s.to_multiset_ensures();
    assert(swapped(s, i, j).to_multiset() =~= s.to_multiset());
}

/// A rearrangement of a sequence has its length.
pub proof fn lemma_permutation_len<T>(a: Seq<T>, b: Seq<T>)
    requires
        permutation(a, b),
    ensures
        a.len() == b.len(),
{
    a.to_multiset_ensures();
    b.to_multiset_ensures();
}

/// Each element of a rearrangement of a sequence stands somewhere in the
/// sequence.
pub proof fn lemma_permutation_member<T>(a: Seq<T>, b: Seq<T>, i: int) -> (j: int)
    requires
        permutation(a, b),
        0 <= i < b.len(),
    ensures
        0 <= j < a.len(),
        a[j] == b[i],
{
    a.to_multiset_ensures();
    b.to_multiset_ensures();
    assert(a.to_multiset().count(b[i]) > 0);
    choose|j: int| 0 <= j < a.len() && a[j] == b[i]
}

/// Each element of a sequence is among its elements.
pub proof fn lemma_element_counted<T>(s: Seq<T>, i: int)
    requires
        0 <= i < s.len(),
    ensures
        s.to_multiset().contains(s[i]),
{
    s.to_multiset_ensures();
}

/// The elements of each part of a concatenation are among the elements of
/// the whole.
pub proof fn lemma_concat_within<T>(a: Seq<T>, b: Seq<T>)
    ensures
        a.to_multiset().subset_of((a + b).to_multiset()),
        b.to_multiset().subset_of((a + b).to_multiset()),
{
    broadcast use vstd::multiset::group_multiset_axioms;

    lemma_multiset_commutative(a, b);
}

/// The elements of a stretch of a sequence are among the elements of the
/// sequence.
pub proof fn lemma_subrange_within<T>(s: Seq<T>, lo: int, hi: int)
    requires
        0 <= lo <= hi <= s.len(),
    ensures
        s.subrange(lo, hi).to_multiset().subset_of(s.to_multiset()),
{
    broadcast use vstd::multiset::group_multiset_axioms;

    let a = s.take(lo);
    let w = s.subrange(lo, hi);
    let b = s.skip(hi);
    assert(s =~= a + w + b);
    lemma_multiset_commutative(a, w);
    lemma_multiset_commutative(a + w, b);
}

/// Rearranging the parts of a concatenation rearranges the whole.
pub proof fn lemma_permutation_concat<T>(a1: Seq<T>, a2: Seq<T>, b1: Seq<T>, b2: Seq<T>)
    requires
        permutation(a1, b1),
        permutation(a2, b2),
    ensures
        permutation(a1 + a2, b1 + b2),
{
    lemma_multiset_commutative(a1, a2);
    lemma_multiset_commutative(b1, b2);
}

/// Rearranging a stretch of a sequence rearranges the sequence.
pub proof fn lemma_permutation_window<T>(a: Seq<T>, w1: Seq<T>, w2: Seq<T>, b: Seq<T>)
    requires
        permutation(w1, w2),
    ensures
        permutation(a + w1 + b, a + w2 + b),
{
    lemma_permutation_concat(a, w1, a, w2);
    lemma_permutation_concat(a + w1, b, a + w2, b);
}

/// A sequence of one element has no other rearrangement.
pub proof fn lemma_permutation_single<T>(a: Seq<T>, b: Seq<T>)
    requires
        permutation(a, b),
        a.len() == 1,
    ensures
        a == b,
{
    lemma_permutation_len(a, b);
    lemma_permutation_member(a, b, 0);
}

/// A sequence that holds one value throughout has no other rearrangement.
pub proof fn lemma_permutation_constant<T>(a: Seq<T>, b: Seq<T>)
    requires
        permutation(a, b),
        forall|i: int, j: int| 0 <= i < a.len() && 0 <= j < a.len() ==> a[i] == a[j],
    ensures
        a == b,
{
    lemma_permutation_len(a, b);
    assert forall|i: int| 0 <= i < a.len() implies a[i] == b[i] by {
        lemma_permutation_member(a, b, i);
    }
}

/// The test that a value comes strictly before `x` in the order `le`.
pub open spec fn strictly_before<T>(le: spec_fn(T, T) -> bool, x: T) -> spec_fn(T) -> bool {
    |e: T| !le(x, e)
}

/// The test that a value comes strictly after `x` in the order `le`.
pub open spec fn strictly_after<T>(le: spec_fn(T, T) -> bool, x: T) -> spec_fn(T) -> bool {
    |e: T| !le(e, x)
}

/// The number of elements of `s` that pass `f`.
pub open spec fn count_where<T>(s: Seq<T>, f: spec_fn(T) -> bool) -> nat {
    s.to_multiset().filter(f).len()
}

/// A stretch that grows by one element at its end counts that element if
/// it passes.
pub proof fn lemma_count_grows_back<T>(s: Seq<T>, lo: int, hi: int, f: spec_fn(T) -> bool)
    requires
        0 <= lo <= hi < s.len(),
    ensures
        count_where(s.subrange(lo, hi + 1), f) == count_where(s.subrange(lo, hi), f) + (if f(
            s[hi],
        ) {
            1nat
        } else {
            0nat
        }),
{
    broadcast use vstd::multiset::group_multiset_axioms;

    let one = seq![s[hi]];
    assert(s.subrange(lo, hi + 1) =~= s.subrange(lo, hi) + one);
    lemma_filter_concat(s.subrange(lo, hi), one, f);
    lemma_count_one(s[hi], f);
}

/// A stretch that grows by one element at its start counts that element
/// if it passes.
pub proof fn lemma_count_grows_front<T>(s: Seq<T>, lo: int, hi: int, f: spec_fn(T) -> bool)
    requires
        0 < lo <= hi <= s.len(),
    ensures
        count_where(s.subrange(lo - 1, hi), f) == count_where(s.subrange(lo, hi), f) + (if f(
            s[lo - 1],
        ) {
            1nat
        } else {
            0nat
        }),
{
    broadcast use vstd::multiset::group_multiset_axioms;

    let one = seq![s[lo - 1]];
    assert(s.subrange(lo - 1, hi) =~= one + s.subrange(lo, hi));
    lemma_filter_concat(one, s.subrange(lo, hi), f);
    lemma_count_one(s[lo - 1], f);
}

/// An empty stretch counts nothing.
pub proof fn lemma_count_none<T>(s: Seq<T>, f: spec_fn(T) -> bool)
    requires
        s.len() == 0,
    ensures
        count_where(s, f) == 0,
{
    broadcast use vstd::multiset::group_multiset_axioms;

    s.to_multiset_ensures();
    lemma_filter_len_le(s.to_multiset(), f);
}

/// Where no element passes, none is counted.
pub proof fn lemma_count_zero<T>(s: Seq<T>, f: spec_fn(T) -> bool)
    requires
        forall|i: int| 0 <= i < s.len() ==> !f(#[trigger] s[i]),
    ensures
        count_where(s, f) == 0,
{
    lemma_filter_len_upper(s, f, 0);
}

/// A sequence of one element counts it if it passes.
proof fn lemma_count_one<T>(e: T, f: spec_fn(T) -> bool)
    ensures
        count_where(seq![e], f) == (if f(e) {
            1nat
        } else {
            0nat
        }),
{
    broadcast use vstd::multiset::group_multiset_axioms;

    let one = seq![e];
    one.to_multiset_ensures();
    assert(Seq::<T>::empty().push(e) =~= one);
    vstd::seq_lib::to_multiset_build(Seq::<T>::empty(), e);
    Seq::<T>::empty().to_multiset_ensures();
    let m = one.to_multiset();
    assert(m =~= Multiset::singleton(e));
    if f(e) {
        assert(m.filter(f) =~= m);
    } else {
        assert(m.filter(f) =~= Multiset::empty());
    }
}

/// Keeping only the values that pass `f` never makes a multiset larger.
proof fn lemma_filter_len_le<T>(m: Multiset<T>, f: spec_fn(T) -> bool)
    ensures
        m.filter(f).len() <= m.len(),
{
    broadcast use vstd::multiset::group_multiset_axioms;

    let g = |v: T| !f(v);
    assert(m =~= m.filter(f).add(m.filter(g)));
}

/// The values of `a + b` that pass `f` are those of `a` with those of `b`.
proof fn lemma_filter_concat<T>(a: Seq<T>, b: Seq<T>, f: spec_fn(T) -> bool)
    ensures
        (a + b).to_multiset().filter(f) == a.to_multiset().filter(f).add(
            b.to_multiset().filter(f),
        ),
{
    broadcast use vstd::multiset::group_multiset_axioms;

    lemma_multiset_commutative(a, b);
    assert((a + b).to_multiset().filter(f) =~= a.to_multiset().filter(f).add(
        b.to_multiset().filter(f),
    ));
}

/// Where no element from position `k` on passes `f`, at most `k` elements
/// pass it.
proof fn lemma_filter_len_upper<T>(s: Seq<T>, f: spec_fn(T) -> bool, k: int)
    requires
        0 <= k <= s.len(),
        forall|j: int| k <= j < s.len() ==> !f(#[trigger] s[j]),
    ensures
        s.to_multiset().filter(f).len() <= k,
{
    broadcast use vstd::multiset::group_multiset_axioms;

    let head = s.take(k);
    let tail = s.skip(k);
    assert(s =~= head + tail);
    lemma_filter_concat(head, tail, f);
    head.to_multiset_ensures();
    tail.to_multiset_ensures();
    assert forall|v: T| tail.to_multiset().filter(f).count(v) == 0 by {
        if f(v) && tail.contains(v) {
            let j = choose|j: int| 0 <= j < tail.len() && tail[j] == v;
            assert(v == s[k + j]);
        }
    }
    assert(tail.to_multiset().filter(f) =~= Multiset::empty());
    lemma_filter_len_le(head.to_multiset(), f);
}

/// Where every element up to position `k` passes `f`, more than `k`
/// elements pass it.
proof fn lemma_filter_len_lower<T>(s: Seq<T>, f: spec_fn(T) -> bool, k: int)
    requires
        0 <= k < s.len(),
        forall|i: int| 0 <= i <= k ==> f(#[trigger] s[i]),
    ensures
        s.to_multiset().filter(f).len() > k,
{
    broadcast use vstd::multiset::group_multiset_axioms;

    let head = s.take(k + 1);
    let tail = s.skip(k + 1);
    assert(s =~= head + tail);
    lemma_filter_concat(head, tail, f);
    head.to_multiset_ensures();
    assert forall|v: T| head.to_multiset().filter(f).count(v) == head.to_multiset().count(v) by {
        if head.contains(v) {
            let i = choose|i: int| 0 <= i < head.len() && head[i] == v;
            assert(v == s[i]);
        }
    }
    assert(head.to_multiset().filter(f) =~= head.to_multiset());
}

/// Two rearrangements of the same elements that are both split at `k` hold
/// at `k` elements of which the first is not greater than the second.
proof fn lemma_split_value_le<T>(s1: Seq<T>, s2: Seq<T>, k: int, le: spec_fn(T, T) -> bool)
    requires
        total_preorder(le),
        permutation(s1, s2),
        partitioned_at(s1, k, le),
        partitioned_at(s2, k, le),
    ensures
        le(s1[k], s2[k]),
{
    let x = s1[k];
    let y = s2[k];
    if !le(x, y) {
        // Count the elements that come strictly before `x`. In `s1` they
        // all stand before `k`, so there are `k` at most. In `s2` all up to
        // `k` are among them, since none is greater than `y`: more than
        // `k`. Yet the two hold the same elements.
        let f = |v: T| !le(x, v);
        assert(forall|j: int| k <= j < s1.len() ==> !f(#[trigger] s1[j]));
        lemma_filter_len_upper(s1, f, k);
        assert(forall|i: int| 0 <= i <= k ==> le(#[trigger] s2[i], y) && f(s2[i]));
        lemma_filter_len_lower(s2, f, k);
    }
}

/// The element at which a rearrangement is split is the same, up to
/// equivalence, in every rearrangement split at that position; under an
/// order that tells all values apart it is the same element.
pub proof fn lemma_split_value_unique<T>(
    s1: Seq<T>,
    s2: Seq<T>,
    k: int,
    le: spec_fn(T, T) -> bool,
)
    requires
        total_preorder(le),
        permutation(s1, s2),
        partitioned_at(s1, k, le),
        partitioned_at(s2, k, le),
    ensures
        equivalent(le, s1[k], s2[k]),
        antisymmetric(le) ==> s1[k] == s2[k],
{
    lemma_split_value_le(s1, s2, k, le);
    lemma_split_value_le(s2, s1, k, le);
}

} // verus!
