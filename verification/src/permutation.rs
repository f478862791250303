//! Rearrangements of a sequence, and what they leave unchanged.
//!
//! A bucket of colours is an unordered collection: sorting it must not change
//! any statistic. The lemmas here carry that fact from multisets to sums,
//! extrema, sorted values, and to sequences mapped or filtered item by item.

use vstd::prelude::*;
use vstd::multiset::Multiset;
use vstd::relations::{sorted_by, total_ordering};
use vstd::seq_lib::{
    lemma_fold_left_permutation, lemma_sorted_unique, to_multiset_build, to_multiset_contains,
    to_multiset_len,
};
use crate::stats::sum_of;

verus! {

/// Whether `b` holds the items of `a`, each as often as `a` does.
pub open spec fn is_permutation<A>(a: Seq<A>, b: Seq<A>) -> bool {
    a.to_multiset() == b.to_multiset()
}

/// Whether a sequence of integers never descends.
pub open spec fn ascending(values: Seq<int>) -> bool {
    forall|i: int, j: int| 0 <= i < j < values.len() ==> values[i] <= values[j]
}

/// A sequence without items has the empty multiset.
pub proof fn lemma_empty_to_multiset<A>(s: Seq<A>)
    requires
        s.len() == 0,
    ensures
        s.to_multiset() == Multiset::<A>::empty(),
{
    to_multiset_len(s);
    vstd::multiset::lemma_multiset_empty_len(s.to_multiset());
}

/// Rearranged sequences have the same length.
pub proof fn lemma_permutation_len<A>(a: Seq<A>, b: Seq<A>)
    requires
        is_permutation(a, b),
    ensures
        a.len() == b.len(),
{
    to_multiset_len(a);
    to_multiset_len(b);
}

/// Rearranged sequences hold the same items.
pub proof fn lemma_permutation_contains<A>(a: Seq<A>, b: Seq<A>, x: A)
    requires
        is_permutation(a, b),
    ensures
        a.contains(x) == b.contains(x),
{
    to_multiset_contains(a, x);
    to_multiset_contains(b, x);
}

/// The multiset of a mapped sequence, gathered item by item.
proof fn lemma_mapped_multiset_as_fold<A, B>(
    s: Seq<A>,
    f: spec_fn(A) -> B,
    step: spec_fn(Multiset<B>, A) -> Multiset<B>,
)
    requires
        forall|m: Multiset<B>, x: A| #[trigger] step(m, x) == m.insert(f(x)),
    ensures
        s.map_values(f).to_multiset() == s.fold_left(Multiset::<B>::empty(), step),
    decreases s.len(),
{
    if s.len() == 0 {
        lemma_empty_to_multiset(s.map_values(f));
    } else {
        lemma_mapped_multiset_as_fold(s.drop_last(), f, step);
        assert(s.map_values(f) =~= s.drop_last().map_values(f).push(f(s.last())));
        to_multiset_build(s.drop_last().map_values(f), f(s.last()));
    }
}

/// Mapping two rearrangements of one sequence item by item gives two
/// rearrangements of one sequence.
pub proof fn lemma_map_values_permutation<A, B>(a: Seq<A>, b: Seq<A>, f: spec_fn(A) -> B)
    requires
        is_permutation(a, b),
    ensures
        is_permutation(a.map_values(f), b.map_values(f)),
{
    let step = |m: Multiset<B>, x: A| m.insert(f(x));
    assert forall|x: A, y: A, m: Multiset<B>| #[trigger]
        step(step(m, x), y) == step(step(m, y), x) by {
        assert(m.insert(f(x)).insert(f(y)) =~= m.insert(f(y)).insert(f(x)));
    }
    lemma_mapped_multiset_as_fold(a, f, step);
    lemma_mapped_multiset_as_fold(b, f, step);
    lemma_fold_left_permutation(a, b, step, Multiset::<B>::empty());
}

/// The multiset of a filtered sequence, gathered item by item.
proof fn lemma_filtered_multiset_as_fold<A>(
    s: Seq<A>,
    keep: spec_fn(A) -> bool,
    step: spec_fn(Multiset<A>, A) -> Multiset<A>,
)
    requires
        forall|m: Multiset<A>, x: A| #[trigger]
            step(m, x) == if keep(x) {
                m.insert(x)
            } else {
                m
            },
    ensures
        s.filter(keep).to_multiset() == s.fold_left(Multiset::<A>::empty(), step),
    decreases s.len(),
{
    reveal(Seq::filter);
    if s.len() == 0 {
        lemma_empty_to_multiset(s.filter(keep));
    } else {
        lemma_filtered_multiset_as_fold(s.drop_last(), keep, step);
        if keep(s.last()) {
            to_multiset_build(s.drop_last().filter(keep), s.last());
        }
    }
}

/// Filtering two rearrangements of one sequence by the same test gives two
/// rearrangements of one sequence.
pub proof fn lemma_filter_permutation<A>(a: Seq<A>, b: Seq<A>, keep: spec_fn(A) -> bool)
    requires
        is_permutation(a, b),
    ensures
        is_permutation(a.filter(keep), b.filter(keep)),
{
    let step = |m: Multiset<A>, x: A|
        if keep(x) {
            m.insert(x)
        } else {
            m
        };
    assert forall|x: A, y: A, m: Multiset<A>| #[trigger]
        step(step(m, x), y) == step(step(m, y), x) by {
        assert(m.insert(x).insert(y) =~= m.insert(y).insert(x));
    }
    lemma_filtered_multiset_as_fold(a, keep, step);
    lemma_filtered_multiset_as_fold(b, keep, step);
    lemma_fold_left_permutation(a, b, step, Multiset::<A>::empty());
}

/// The sum of a sequence, gathered item by item.
proof fn lemma_sum_as_fold(s: Seq<int>, step: spec_fn(int, int) -> int)
    requires
        forall|acc: int, x: int| #[trigger] step(acc, x) == acc + x,
    ensures
        sum_of(s) == s.fold_left(0int, step),
    decreases s.len(),
{
    if s.len() > 0 {
        lemma_sum_as_fold(s.drop_last(), step);
    }
}

/// Rearranging a sequence leaves its sum unchanged.
pub proof fn lemma_sum_permutation(a: Seq<int>, b: Seq<int>)
    requires
        is_permutation(a, b),
    ensures
        sum_of(a) == sum_of(b),
{
    let step = |acc: int, x: int| acc + x;
    lemma_sum_as_fold(a, step);
    lemma_sum_as_fold(b, step);
    lemma_fold_left_permutation(a, b, step, 0int);
}

/// Rearranging a non-empty sequence leaves its greatest and least value
/// unchanged.
pub proof fn lemma_extrema_permutation(a: Seq<int>, b: Seq<int>)
    requires
        is_permutation(a, b),
    ensures
        a.max() == b.max(),
        a.min() == b.min(),
{
    lemma_permutation_len(a, b);
    a.max_ensures();
    b.max_ensures();
    a.min_ensures();
    b.min_ensures();
    if a.len() > 0 {
        lemma_permutation_contains(a, b, a.max());
        lemma_permutation_contains(a, b, b.max());
        lemma_permutation_contains(a, b, a.min());
        lemma_permutation_contains(a, b, b.min());
    }
}

/// An ascending rearrangement of a sequence is that sequence sorted.
pub proof fn lemma_ascending_permutation_is_sort(sorted: Seq<int>, values: Seq<int>)
    requires
        ascending(sorted),
        is_permutation(sorted, values),
    ensures
        sorted == values.sort(),
{
    let leq = |x: int, y: int| x <= y;
    values.lemma_sort_ensures();
    assert(sorted_by(sorted, leq));
    assert(total_ordering(leq));
    lemma_sorted_unique(sorted, values.sort(), leq);
}

/// Rearranging a sequence leaves its sorted form unchanged.
pub proof fn lemma_sort_permutation(a: Seq<int>, b: Seq<int>)
    requires
        is_permutation(a, b),
    ensures
        a.sort() == b.sort(),
{
    a.lemma_sort_ensures();
    assert(ascending(a.sort())) by {
        let leq = |x: int, y: int| x <= y;
        assert(sorted_by(a.sort(), leq));
        let sorted = a.sort();
        assert forall|i: int, j: int| 0 <= i < j < sorted.len() implies sorted[i] <= sorted[j] by {
            assert(leq(sorted[i], sorted[j]));
        }
    }
    lemma_ascending_permutation_is_sort(a.sort(), b);
}

} // verus!
