//! The mathematical model of the sort: what the sorted sequence *is*, as a
//! function of the input sequence and of a "comes before" test.
//!
//! The sort accepts any test at all, also one that is not an order, and
//! tells elements apart that the test does not. The only exact description
//! of its result is therefore the recursive one: the first element as
//! pivot, the rest split by the test, both parts sorted the same way and put
//! around the pivot.

use vstd::prelude::*;

verus! {

/// The elements `y` of `tail` with `less(y, pivot)`, in the order of `tail`.
pub open spec fn below<T>(tail: Seq<T>, pivot: T, less: spec_fn(T, T) -> bool) -> Seq<T> {
    tail.filter(|y: T| less(y, pivot))
}

/// The elements `y` of `tail` without `less(y, pivot)`, in the order of `tail`.
/// Elements equivalent to the pivot are among them.
pub open spec fn not_below<T>(tail: Seq<T>, pivot: T, less: spec_fn(T, T) -> bool) -> Seq<T> {
    tail.filter(|y: T| !less(y, pivot))
}

/// The sequence `s` sorted by partition around its first element.
///
/// `less(a, b)` says that `a` goes strictly before `b`.
pub open spec fn partition_sort<T>(s: Seq<T>, less: spec_fn(T, T) -> bool) -> Seq<T>
    decreases s.len(),
    via partition_sort_terminates::<T>
{
    if s.len() == 0 {
        Seq::empty()
    } else {
        partition_sort(below(s.drop_first(), s.first(), less), less).push(s.first())
            + partition_sort(not_below(s.drop_first(), s.first(), less), less)
    }
}

#[via_fn]
proof fn partition_sort_terminates<T>(s: Seq<T>, less: spec_fn(T, T) -> bool) {
    if s.len() != 0 {
        let pivot = s.first();
        s.drop_first().lemma_filter_len(|y: T| less(y, pivot));
        s.drop_first().lemma_filter_len(|y: T| !less(y, pivot));
    }
}

/// `copy` holds, place by place, a clone of what `source` holds.
pub open spec fn is_copy<T: Clone>(source: Seq<T>, copy: Seq<T>) -> bool {
    &&& copy.len() == source.len()
    &&& forall|i: int| 0 <= i < source.len() ==> cloned(#[trigger] source[i], copy[i])
}

/// `copy` holds clones of the elements of `source`, each as often as
/// `source` holds it, in some order.
pub open spec fn is_rearranged_copy<T: Clone>(source: Seq<T>, copy: Seq<T>) -> bool {
    exists|arranged: Seq<T>|
        arranged.to_multiset() == source.to_multiset() && #[trigger] is_copy(arranged, copy)
}

} // verus!
