//! The recursive engine. It sorts references to the caller's elements, so that
//! every comparison is made on the elements the caller handed in and each of
//! them is duplicated once, when the result is built.

use vstd::prelude::*;
use crate::laws::{lemma_assembled_is_rearranged, lemma_empty_holds_nothing};
use crate::model::{below, is_copy, not_below, partition_sort};

verus! {

/// `less` may be called on any two elements of `s`.
pub open spec fn accepts<T, L: Fn(&T, &T) -> bool>(less: L, s: Seq<T>) -> bool {
    forall|a: T, b: T| s.contains(a) && s.contains(b) ==> #[trigger] less.requires((&a, &b))
}

/// On the elements of `s`, whatever `less` answers is what `before` says.
pub open spec fn follows<T, L: Fn(&T, &T) -> bool>(
    less: L,
    before: spec_fn(T, T) -> bool,
    s: Seq<T>,
) -> bool {
    forall|a: T, b: T, r: bool|
        s.contains(a) && s.contains(b) && #[trigger] less.ensures((&a, &b), r) ==> r == before(a, b)
}

/// Every element of `part` is an element of `whole`.
pub open spec fn drawn_from<T>(part: Seq<T>, whole: Seq<T>) -> bool {
    forall|i: int| 0 <= i < part.len() ==> whole.contains(#[trigger] part[i])
}

/// A reference to each element of `list`, in order.
pub fn borrow_all<'a, T>(list: &'a [T]) -> (refs: Vec<&'a T>)
    ensures
        refs@.unref() == list@,
{
    let mut refs: Vec<&'a T> = Vec::new();
    let mut i: usize = 0;
    while i < list.len()
        invariant
            i <= list.len(),
            refs.len() == i,
            forall|k: int| 0 <= k < i ==> *#[trigger] refs@[k] == list@[k],
        decreases list.len() - i,
    {
        refs.push(&list[i]);
        i = i + 1;
    }
    assert(refs@.unref() =~= list@);
    refs
}

/// A clone of each referenced element, in order.
pub fn clone_all<T: Clone>(refs: &[&T]) -> (copies: Vec<T>)
    ensures
        is_copy(refs@.unref(), copies@),
{
    let mut copies: Vec<T> = Vec::new();
    let mut i: usize = 0;
    while i < refs.len()
        invariant
            i <= refs.len(),
            copies.len() == i,
            forall|k: int| 0 <= k < i ==> cloned(*#[trigger] refs@[k], copies@[k]),
        decreases refs.len() - i,
    {
        let copy = refs[i].clone();
        copies.push(copy);
        i = i + 1;
    }
    copies
}

/// Sorts the referenced elements by partition around the first one.
///
/// Whatever `less` answers, the result rearranges the input. For every
/// test `before` that the answers of `less` follow on the input, the result
/// is the model's.
pub fn sort_refs<'a, T, L>(refs: &[&'a T], less: &L) -> (sorted: Vec<&'a T>) where
    L: Fn(&T, &T) -> bool,

    requires
        accepts(*less, refs@.unref()),
    ensures
        sorted@.unref().to_multiset() == refs@.unref().to_multiset(),
        forall|before: spec_fn(T, T) -> bool| #[trigger]
            follows(*less, before, refs@.unref()) ==> sorted@.unref() == partition_sort(
                refs@.unref(),
                before,
            ),
    decreases refs.len(),
{
    let n = refs.len();
    let ghost whole = refs@.unref();
    if n == 0 {
        let sorted: Vec<&'a T> = Vec::new();
        assert(whole =~= Seq::empty());
        assert(sorted@.unref() =~= Seq::empty());
        return sorted;
    }
    let pivot: &'a T = refs[0];
    let mut lesser: Vec<&'a T> = Vec::new();
    let mut others: Vec<&'a T> = Vec::new();
    let mut k: usize = 1;
    proof {
        reveal(Seq::filter);
        lemma_empty_holds_nothing::<T>();
        assert(whole.subrange(1, 1) =~= Seq::empty());
        assert(lesser@.unref() =~= Seq::empty());
        assert(others@.unref() =~= Seq::empty());
    }
    while k < n
        invariant
            n == refs.len(),
            1 <= k <= n,
            whole == refs@.unref(),
            *pivot == whole[0],
            accepts(*less, whole),
            lesser.len() + others.len() == k - 1,
            drawn_from(lesser@.unref(), whole),
            drawn_from(others@.unref(), whole),
            lesser@.unref().to_multiset().add(others@.unref().to_multiset()) == whole.subrange(
                1,
                k as int,
            ).to_multiset(),
            forall|before: spec_fn(T, T) -> bool| #[trigger]
                follows(*less, before, whole) ==> lesser@.unref() == below(
                    whole.subrange(1, k as int),
                    *pivot,
                    before,
                ) && others@.unref() == not_below(whole.subrange(1, k as int), *pivot, before),
        decreases n - k,
    {
        let y: &'a T = refs[k];
        let ghost seen = whole.subrange(1, k as int);
        let ghost lesser_before = lesser@.unref();
        let ghost others_before = others@.unref();
        proof {
            assert(whole[k as int] == *y);
            assert(whole.contains(*y));
            assert(whole.contains(*pivot));
        }
        let goes_below = less(y, pivot);
        if goes_below {
            lesser.push(y);
        } else {
            others.push(y);
        }
        k = k + 1;
        proof {
            broadcast use vstd::seq_lib::to_multiset_build;

            assert(whole.subrange(1, k as int) =~= seen.push(*y));
            if goes_below {
                assert(lesser@.unref() =~= lesser_before.push(*y));
            } else {
                assert(others@.unref() =~= others_before.push(*y));
            }
            assert forall|before: spec_fn(T, T) -> bool| #[trigger]
                follows(*less, before, whole) implies lesser@.unref() == below(
                seen.push(*y),
                *pivot,
                before,
            ) && others@.unref() == not_below(seen.push(*y), *pivot, before) by {
                assert(goes_below == before(*y, *pivot));
                seen.lemma_filter_push(*y, |e: T| before(e, *pivot));
                seen.lemma_filter_push(*y, |e: T| !before(e, *pivot));
            }
        }
    }
    proof {
        assert(whole.subrange(1, n as int) =~= whole.drop_first());
    }
    let ghost lower = lesser@.unref();
    let ghost upper = others@.unref();
    let mut sorted = sort_refs(lesser.as_slice(), less);
    let ghost low = sorted@.unref();
    sorted.push(pivot);
    let mut rest = sort_refs(others.as_slice(), less);
    let ghost high = rest@.unref();
    sorted.append(&mut rest);
    proof {
        assert(sorted@.unref() =~= low.push(*pivot) + high);
        lemma_assembled_is_rearranged(whole, low, high);
        assert forall|before: spec_fn(T, T) -> bool| #[trigger]
            follows(*less, before, whole) implies sorted@.unref() == partition_sort(
            whole,
            before,
        ) by {
            assert(follows(*less, before, lower));
            assert(follows(*less, before, upper));
        }
    }
    sorted
}

} // verus!
