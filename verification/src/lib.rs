//! Sorting by partition.
//!
//! The first element of the input is the pivot. One pass over the rest
//! splits it into the elements that come before the pivot and all the
//! others, those equal to the pivot among them. Both parts are sorted the
//! same way, and the result is the sorted first part, the pivot, the sorted
//! second part. The input is left as it is: the result is a new vector that
//! holds a clone of each element.
//!
//! [`qsort`] sorts by the order of the element type, [`qsort_by`] by a
//! comparison of the caller's. What they return is defined in [`model`] and
//! [`order`]; what follows from that definition is proved in [`laws`] and
//! [`order`].
//!
//! The pivot is always the first element, so the recursion is as deep as the
//! input is long when the input is already in order, and the number of
//! comparisons is then quadratic in its length.

use vstd::prelude::*;
use std::cmp::Ordering;
use vstd::std_specs::cmp::PartialOrdSpec;
use crate::engine::{borrow_all, clone_all, follows, sort_refs};
use crate::model::{is_copy, is_rearranged_copy, partition_sort};
use crate::order::{comparable, computes, decides, less_of, natural_less, qsorted, qsorted_by};

pub mod model;
pub mod order;
pub mod laws;
mod engine;

verus! {

/// Sorts the slice by the order of its elements and returns the result as a
/// new vector.
///
/// The result always holds a clone of each element of `list`, as often as
/// `list` holds it. Where `T` says what its comparison gives, the clones
/// stand in the order of [`qsorted`].
pub fn qsort<T: Ord + Clone>(list: &[T]) -> (sorted: Vec<T>)
    ensures
        is_rearranged_copy(list@, sorted@),
        T::obeys_partial_cmp_spec() ==> is_copy(qsorted(list@), sorted@),
{
    let refs = borrow_all(list);
    let less = |y: &T, x: &T| -> (b: bool)
        ensures
            T::obeys_partial_cmp_spec() ==> (b <==> y.partial_cmp_spec(x) == Some(Ordering::Less)),
        { y.lt(x) };
    let in_order = sort_refs(refs.as_slice(), &less);
    let sorted = clone_all(in_order.as_slice());
    proof {
        assert(is_copy(in_order@.unref(), sorted@));
        if T::obeys_partial_cmp_spec() {
            assert(follows(less, natural_less::<T>(), list@));
        }
    }
    sorted
}

/// Sorts the slice by the answers of `compare` and returns the result as a
/// new vector.
///
/// The result always holds a clone of each element of `list`, as often as
/// `list` holds it. Where `compare` computes a three-way comparison
/// `order`, the clones stand in the order of [`qsorted_by`]. Only the answer
/// `Less` is told from the others, so the same holds of any test `before`
/// that `compare` decides.
pub fn qsort_by<T: Clone, F>(list: &[T], compare: F) -> (sorted: Vec<T>) where
    F: Fn(&T, &T) -> Ordering,

    requires
        comparable(compare, list@),
    ensures
        is_rearranged_copy(list@, sorted@),
        forall|order: spec_fn(T, T) -> Ordering| #[trigger]
            computes(compare, order, list@) ==> is_copy(qsorted_by(list@, order), sorted@),
        forall|before: spec_fn(T, T) -> bool| #[trigger]
            decides(compare, before, list@) ==> is_copy(partition_sort(list@, before), sorted@),
{
    qsort_by_internal(list, &compare)
}

/// The work of [`qsort_by`], on a borrowed comparison.
fn qsort_by_internal<T: Clone, F>(list: &[T], compare: &F) -> (sorted: Vec<T>) where
    F: Fn(&T, &T) -> Ordering,

    requires
        comparable(*compare, list@),
    ensures
        is_rearranged_copy(list@, sorted@),
        forall|order: spec_fn(T, T) -> Ordering| #[trigger]
            computes(*compare, order, list@) ==> is_copy(qsorted_by(list@, order), sorted@),
        forall|before: spec_fn(T, T) -> bool| #[trigger]
            decides(*compare, before, list@) ==> is_copy(partition_sort(list@, before), sorted@),
{
    let refs = borrow_all(list);
    let less = |y: &T, x: &T| -> (b: bool)
        requires
            compare.requires((y, x)),
        ensures
            b ==> compare.ensures((y, x), Ordering::Less),
            !b ==> compare.ensures((y, x), Ordering::Equal) || compare.ensures(
                (y, x),
                Ordering::Greater,
            ),
        { matches!(compare(y, x), Ordering::Less) };
    let in_order = sort_refs(refs.as_slice(), &less);
    let sorted = clone_all(in_order.as_slice());
    proof {
        assert(is_copy(in_order@.unref(), sorted@));
        assert forall|before: spec_fn(T, T) -> bool| #[trigger]
            decides(*compare, before, list@) implies is_copy(
            partition_sort(list@, before),
            sorted@,
        ) by {
            assert(follows(less, before, list@));
        }
        assert forall|order: spec_fn(T, T) -> Ordering| #[trigger]
            computes(*compare, order, list@) implies is_copy(qsorted_by(list@, order), sorted@) by {
            assert(decides(*compare, less_of(order), list@));
        }
    }
    sorted
}

} // verus!
