//! What holds of the model whatever the "comes before" test is, and what
//! holds of it once the test behaves like an order.

use vstd::prelude::*;
use vstd::multiset::Multiset;
use vstd::seq_lib::{lemma_multiset_commutative, to_multiset_build, to_multiset_contains, to_multiset_len};
use crate::model::{below, not_below, partition_sort};

verus! {

// The vocabulary of the laws.

/// `ok(a, b)` holds wherever `a` stands directly before `b` in `s`.
pub open spec fn neighbours_satisfy<T>(s: Seq<T>, ok: spec_fn(T, T) -> bool) -> bool {
    forall|i: int| 0 <= i && i + 1 < s.len() ==> ok(#[trigger] s[i], s[i + 1])
}

/// `ok(a, b)` holds wherever `a` stands anywhere before `b` in `s`.
pub open spec fn pairs_satisfy<T>(s: Seq<T>, ok: spec_fn(T, T) -> bool) -> bool {
    forall|i: int, j: int| 0 <= i < j < s.len() ==> ok(#[trigger] s[i], #[trigger] s[j])
}

/// On the elements of `s`, `ok` accepts every pair that `less` puts in
/// order, and the reverse of every pair that it does not.
pub open spec fn respects<T>(s: Seq<T>, less: spec_fn(T, T) -> bool, ok: spec_fn(T, T) -> bool) -> bool {
    forall|a: T, b: T|
        s.contains(a) && s.contains(b) ==> (#[trigger] less(a, b) ==> ok(a, b)) && (!less(a, b)
            ==> ok(b, a))
}

/// On the elements of `s`, `ok` is transitive.
pub open spec fn transitive_on<T>(s: Seq<T>, ok: spec_fn(T, T) -> bool) -> bool {
    forall|a: T, b: T, c: T|
        s.contains(a) && s.contains(b) && s.contains(c) && #[trigger] ok(a, b) && #[trigger] ok(
            b,
            c,
        ) ==> ok(a, c)
}

/// `b` does not come before `a`: the relation in which a sorted sequence
/// holds its elements.
pub open spec fn not_after<T>(less: spec_fn(T, T) -> bool) -> spec_fn(T, T) -> bool {
    |a: T, b: T| !less(b, a)
}

/// No element of `s` comes before one that stands earlier in `s`.
pub open spec fn ordered<T>(s: Seq<T>, less: spec_fn(T, T) -> bool) -> bool {
    pairs_satisfy(s, not_after(less))
}

/// On the elements of `s`, `less` is a strict weak order: no two elements
/// come before each other, and "does not come before" is transitive.
pub open spec fn orders<T>(s: Seq<T>, less: spec_fn(T, T) -> bool) -> bool {
    &&& respects(s, less, not_after(less))
    &&& transitive_on(s, not_after(less))
}

// Sequences, filters and multisets.

/// The empty sequence holds no element.
pub proof fn lemma_empty_holds_nothing<T>()
    ensures
        Seq::<T>::empty().to_multiset() == Multiset::<T>::empty(),
{
    to_multiset_len(Seq::<T>::empty());
    vstd::multiset::lemma_multiset_empty_len(Seq::<T>::empty().to_multiset());
}

/// Two filters that agree on every element of `s` keep the same of it.
proof fn lemma_filters_agree<T>(s: Seq<T>, p: spec_fn(T) -> bool, q: spec_fn(T) -> bool)
    requires
        forall|i: int| 0 <= i < s.len() ==> p(#[trigger] s[i]) == q(s[i]),
    ensures
        s.filter(p) == s.filter(q),
    decreases s.len(),
{
    if s.len() == 0 {
        reveal(Seq::filter);
    } else {
        let init = s.drop_last();
        assert(s =~= init.push(s.last()));
        assert forall|i: int| 0 <= i < init.len() implies p(#[trigger] init[i]) == q(init[i]) by {
            assert(init[i] == s[i]);
        }
        lemma_filters_agree(init, p, q);
        init.lemma_filter_push(s.last(), p);
        init.lemma_filter_push(s.last(), q);
    }
}

/// A filter that every element of `s` passes keeps all of `s`.
proof fn lemma_filter_keeps_all<T>(s: Seq<T>, p: spec_fn(T) -> bool)
    requires
        forall|i: int| 0 <= i < s.len() ==> p(#[trigger] s[i]),
    ensures
        s.filter(p) == s,
    decreases s.len(),
{
    if s.len() == 0 {
        reveal(Seq::filter);
    } else {
        let init = s.drop_last();
        assert(s =~= init.push(s.last()));
        assert forall|i: int| 0 <= i < init.len() implies p(#[trigger] init[i]) by {
            assert(init[i] == s[i]);
        }
        lemma_filter_keeps_all(init, p);
        init.lemma_filter_push(s.last(), p);
    }
}

// One partition.

/// The two parts of a partition hold, between them, exactly the elements
/// that were partitioned.
pub proof fn lemma_parts_hold_the_tail<T>(tail: Seq<T>, pivot: T, less: spec_fn(T, T) -> bool)
    ensures
        below(tail, pivot, less).to_multiset().add(not_below(tail, pivot, less).to_multiset())
            == tail.to_multiset(),
        below(tail, pivot, less).len() + not_below(tail, pivot, less).len() == tail.len(),
    decreases tail.len(),
{
    broadcast use to_multiset_build;

    if tail.len() == 0 {
        reveal(Seq::filter);
        lemma_empty_holds_nothing::<T>();
        assert(tail =~= Seq::empty());
        assert(below(tail, pivot, less) =~= Seq::empty());
        assert(not_below(tail, pivot, less) =~= Seq::empty());
        assert(Multiset::<T>::empty().add(Multiset::<T>::empty()) =~= Multiset::<T>::empty());
    } else {
        let init = tail.drop_last();
        let last = tail.last();
        assert(tail =~= init.push(last));
        lemma_parts_hold_the_tail(init, pivot, less);
        init.lemma_filter_push(last, |y: T| less(y, pivot));
        init.lemma_filter_push(last, |y: T| !less(y, pivot));
        let lo = below(init, pivot, less).to_multiset();
        let hi = not_below(init, pivot, less).to_multiset();
        assert(lo.insert(last).add(hi) =~= lo.add(hi).insert(last));
        assert(lo.add(hi.insert(last)) =~= lo.add(hi).insert(last));
    }
}

/// Every element of the lower part comes before the pivot and is an element
/// of the tail; every element of the upper part does not come before the
/// pivot and is an element of the tail.
pub proof fn lemma_parts_are_split_by_pivot<T>(tail: Seq<T>, pivot: T, less: spec_fn(T, T) -> bool)
    ensures
        forall|x: T| #[trigger]
            below(tail, pivot, less).contains(x) <==> tail.contains(x) && less(x, pivot),
        forall|x: T| #[trigger]
            not_below(tail, pivot, less).contains(x) <==> tail.contains(x) && !less(x, pivot),
{
    let lo = |y: T| less(y, pivot);
    let hi = |y: T| !less(y, pivot);
    assert forall|x: T| #[trigger]
        below(tail, pivot, less).contains(x) <==> tail.contains(x) && less(x, pivot) by {
        if tail.filter(lo).contains(x) {
            let i = choose|i: int| 0 <= i < tail.filter(lo).len() && tail.filter(lo)[i] == x;
            tail.lemma_filter_pred(lo, i);
            tail.lemma_filter_contains_rev(lo, x);
        }
        if tail.contains(x) && less(x, pivot) {
            let i = choose|i: int| 0 <= i < tail.len() && tail[i] == x;
            tail.lemma_filter_contains(lo, i);
        }
    }
    assert forall|x: T| #[trigger]
        not_below(tail, pivot, less).contains(x) <==> tail.contains(x) && !less(x, pivot) by {
        if tail.filter(hi).contains(x) {
            let i = choose|i: int| 0 <= i < tail.filter(hi).len() && tail.filter(hi)[i] == x;
            tail.lemma_filter_pred(hi, i);
            tail.lemma_filter_contains_rev(hi, x);
        }
        if tail.contains(x) && !less(x, pivot) {
            let i = choose|i: int| 0 <= i < tail.len() && tail[i] == x;
            tail.lemma_filter_contains(hi, i);
        }
    }
}

/// The pivot between rearrangements of the two parts of the tail is a
/// rearrangement of the whole.
pub proof fn lemma_assembled_is_rearranged<T>(s: Seq<T>, lo: Seq<T>, hi: Seq<T>)
    requires
        s.len() > 0,
        lo.to_multiset().add(hi.to_multiset()) == s.drop_first().to_multiset(),
    ensures
        (lo.push(s.first()) + hi).to_multiset() == s.to_multiset(),
{
    broadcast use to_multiset_build;

    let head = Seq::<T>::empty().push(s.first());
    assert(s =~= head + s.drop_first());
    lemma_multiset_commutative(head, s.drop_first());
    lemma_multiset_commutative(lo.push(s.first()), hi);
    lemma_empty_holds_nothing::<T>();
    assert((lo.push(s.first()) + hi).to_multiset() =~= s.to_multiset());
}

// The whole sort, under any test.

/// Sorting rearranges: the result holds each element as often as the
/// input does, and so is as long as the input.
pub proof fn lemma_partition_sort_rearranges<T>(s: Seq<T>, less: spec_fn(T, T) -> bool)
    ensures
        partition_sort(s, less).to_multiset() == s.to_multiset(),
        partition_sort(s, less).len() == s.len(),
    decreases s.len(),
{
    if s.len() == 0 {
        assert(s =~= Seq::empty());
    } else {
        let lo = below(s.drop_first(), s.first(), less);
        let hi = not_below(s.drop_first(), s.first(), less);
        lemma_parts_hold_the_tail(s.drop_first(), s.first(), less);
        lemma_partition_sort_rearranges(lo, less);
        lemma_partition_sort_rearranges(hi, less);
        lemma_assembled_is_rearranged(s, partition_sort(lo, less), partition_sort(hi, less));
    }
    to_multiset_len(s);
    to_multiset_len(partition_sort(s, less));
}

/// Sorting neither adds an element nor loses one.
pub proof fn lemma_partition_sort_keeps_elements<T>(s: Seq<T>, less: spec_fn(T, T) -> bool)
    ensures
        forall|x: T| partition_sort(s, less).contains(x) <==> s.contains(x),
{
    lemma_partition_sort_rearranges(s, less);
    assert forall|x: T| partition_sort(s, less).contains(x) <==> s.contains(x) by {
        to_multiset_contains(s, x);
        to_multiset_contains(partition_sort(s, less), x);
    }
}

/// Around the pivot: what the sorted lower part holds comes before the
/// pivot, what the sorted upper part holds does not, and both hold
/// elements of `s` only.
pub proof fn lemma_sorted_parts_are_split_by_pivot<T>(s: Seq<T>, less: spec_fn(T, T) -> bool)
    requires
        s.len() > 0,
    ensures
        s.contains(s.first()),
        forall|x: T| #[trigger]
            partition_sort(below(s.drop_first(), s.first(), less), less).contains(x) ==> s.contains(
                x,
            ) && less(x, s.first()),
        forall|x: T| #[trigger]
            partition_sort(not_below(s.drop_first(), s.first(), less), less).contains(x)
                ==> s.contains(x) && !less(x, s.first()),
        forall|x: T| #[trigger]
            below(s.drop_first(), s.first(), less).contains(x) ==> s.contains(x),
        forall|x: T| #[trigger]
            not_below(s.drop_first(), s.first(), less).contains(x) ==> s.contains(x),
{
    let tail = s.drop_first();
    let pivot = s.first();
    let lo = below(tail, pivot, less);
    let hi = not_below(tail, pivot, less);
    assert(s[0] == pivot);
    lemma_parts_are_split_by_pivot(tail, pivot, less);
    lemma_partition_sort_keeps_elements(lo, less);
    lemma_partition_sort_keeps_elements(hi, less);
    assert forall|x: T| tail.contains(x) implies s.contains(x) by {
        let i = choose|i: int| 0 <= i < tail.len() && tail[i] == x;
        assert(s[i + 1] == x);
    }
    assert forall|x: T| #[trigger] partition_sort(lo, less).contains(x) implies s.contains(x)
        && less(x, pivot) by {
        assert(lo.contains(x));
        assert(tail.contains(x));
    }
    assert forall|x: T| #[trigger] partition_sort(hi, less).contains(x) implies s.contains(x)
        && !less(x, pivot) by {
        assert(hi.contains(x));
        assert(tail.contains(x));
    }
    assert forall|x: T| #[trigger] lo.contains(x) implies s.contains(x) by {
        assert(tail.contains(x));
    }
    assert forall|x: T| #[trigger] hi.contains(x) implies s.contains(x) by {
        assert(tail.contains(x));
    }
}

/// The empty sequence and a sequence of one element are their own sorted
/// forms.
pub proof fn lemma_short_inputs_are_unchanged<T>(x: T, less: spec_fn(T, T) -> bool)
    ensures
        partition_sort(Seq::<T>::empty(), less) == Seq::<T>::empty(),
        partition_sort(seq![x], less) == seq![x],
{
    lemma_ordered_input_is_unchanged(Seq::<T>::empty(), less);
    lemma_ordered_input_is_unchanged(seq![x], less);
}

/// Sorting a sequence that is already in order returns it as it is, equal
/// elements included.
pub proof fn lemma_ordered_input_is_unchanged<T>(s: Seq<T>, less: spec_fn(T, T) -> bool)
    requires
        ordered(s, less),
    ensures
        partition_sort(s, less) == s,
    decreases s.len(),
{
    if s.len() == 0 {
        assert(s =~= Seq::empty());
    } else {
        let pivot = s.first();
        let tail = s.drop_first();
        assert forall|i: int| 0 <= i < tail.len() implies !less(#[trigger] tail[i], pivot) by {
            assert(tail[i] == s[i + 1]);
            assert(not_after(less)(s[0], s[i + 1]));
        }
        let lo = |y: T| less(y, pivot);
        let hi = |y: T| !less(y, pivot);
        lemma_filter_keeps_all(tail, hi);
        tail.lemma_all_neg_filter_empty(lo);
        assert(below(tail, pivot, less) =~= Seq::empty());
        assert(ordered(tail, less)) by {
            assert forall|i: int, j: int| 0 <= i < j < tail.len() implies not_after(less)(
                #[trigger] tail[i],
                #[trigger] tail[j],
            ) by {
                assert(not_after(less)(s[i + 1], s[j + 1]));
            }
        }
        lemma_ordered_input_is_unchanged(tail, less);
        assert(partition_sort(Seq::<T>::empty(), less) =~= Seq::empty());
        assert(Seq::<T>::empty().push(pivot) + tail =~= s);
    }
}

/// The result depends on the test only through what it says of the
/// elements of `s`.
pub proof fn lemma_agreeing_tests_sort_alike<T>(
    s: Seq<T>,
    less: spec_fn(T, T) -> bool,
    other: spec_fn(T, T) -> bool,
)
    requires
        forall|a: T, b: T| s.contains(a) && s.contains(b) ==> #[trigger] less(a, b) == other(a, b),
    ensures
        partition_sort(s, less) == partition_sort(s, other),
    decreases s.len(),
{
    if s.len() > 0 {
        let pivot = s.first();
        let tail = s.drop_first();
        assert(s.contains(pivot)) by {
            assert(s[0] == pivot);
        }
        assert forall|i: int| 0 <= i < tail.len() implies s.contains(#[trigger] tail[i]) by {
            assert(s[i + 1] == tail[i]);
        }
        lemma_filters_agree(tail, |y: T| less(y, pivot), |y: T| other(y, pivot));
        lemma_filters_agree(tail, |y: T| !less(y, pivot), |y: T| !other(y, pivot));
        lemma_parts_hold_the_tail(tail, pivot, less);
        lemma_sorted_parts_are_split_by_pivot(s, less);
        lemma_agreeing_tests_sort_alike(below(tail, pivot, less), less, other);
        lemma_agreeing_tests_sort_alike(not_below(tail, pivot, less), less, other);
    }
}

/// Neighbours in the result stand in any relation that agrees with the
/// test: one that holds of every pair the test puts in order, and of the
/// reverse of every pair it does not.
pub proof fn lemma_neighbours_in_order<T>(
    s: Seq<T>,
    less: spec_fn(T, T) -> bool,
    ok: spec_fn(T, T) -> bool,
)
    requires
        respects(s, less, ok),
    ensures
        neighbours_satisfy(partition_sort(s, less), ok),
    decreases s.len(),
{
    if s.len() > 0 {
        let pivot = s.first();
        let lo = below(s.drop_first(), pivot, less);
        let hi = not_below(s.drop_first(), pivot, less);
        let a = partition_sort(lo, less);
        let b = partition_sort(hi, less);
        let out = partition_sort(s, less);
        lemma_parts_hold_the_tail(s.drop_first(), pivot, less);
        lemma_sorted_parts_are_split_by_pivot(s, less);
        lemma_neighbours_in_order(lo, less, ok);
        lemma_neighbours_in_order(hi, less, ok);
        assert forall|i: int| 0 <= i && i + 1 < out.len() implies ok(#[trigger] out[i], out[i + 1]) by {
            if i + 1 < a.len() {
                assert(out[i] == a[i] && out[i + 1] == a[i + 1]);
            } else if i + 1 == a.len() {
                assert(out[i] == a[i] && out[i + 1] == pivot);
                assert(a.contains(a[i]));
            } else if i == a.len() {
                assert(out[i] == pivot && out[i + 1] == b[0]);
                assert(b.contains(b[0]));
            } else {
                let k = i - a.len() - 1;
                assert(out[i] == b[k] && out[i + 1] == b[k + 1]);
            }
        }
    }
}

/// Where the relation is transitive as well, it holds of any two elements
/// of the result, the earlier against the later.
pub proof fn lemma_pairs_in_order<T>(
    s: Seq<T>,
    less: spec_fn(T, T) -> bool,
    ok: spec_fn(T, T) -> bool,
)
    requires
        respects(s, less, ok),
        transitive_on(s, ok),
    ensures
        pairs_satisfy(partition_sort(s, less), ok),
    decreases s.len(),
{
    if s.len() > 0 {
        let pivot = s.first();
        let lo = below(s.drop_first(), pivot, less);
        let hi = not_below(s.drop_first(), pivot, less);
        let a = partition_sort(lo, less);
        let b = partition_sort(hi, less);
        let out = partition_sort(s, less);
        lemma_parts_hold_the_tail(s.drop_first(), pivot, less);
        lemma_sorted_parts_are_split_by_pivot(s, less);
        lemma_pairs_in_order(lo, less, ok);
        lemma_pairs_in_order(hi, less, ok);
        assert forall|i: int, j: int| 0 <= i < j < out.len() implies ok(
            #[trigger] out[i],
            #[trigger] out[j],
        ) by {
            if j < a.len() {
                assert(out[i] == a[i] && out[j] == a[j]);
            } else if i > a.len() {
                assert(out[i] == b[i - a.len() - 1] && out[j] == b[j - a.len() - 1]);
            } else if i < a.len() {
                assert(out[i] == a[i]);
                assert(a.contains(a[i]));
                assert(ok(a[i], pivot));
                if j > a.len() {
                    let k = j - a.len() - 1;
                    assert(out[j] == b[k]);
                    assert(b.contains(b[k]));
                    assert(ok(pivot, b[k]));
                } else {
                    assert(out[j] == pivot);
                }
            } else {
                let k = j - a.len() - 1;
                assert(out[i] == pivot && out[j] == b[k]);
                assert(b.contains(b[k]));
            }
        }
    }
}

// The whole sort, under a strict weak order.

/// Under a strict weak order the result is in order.
pub proof fn lemma_result_is_ordered<T>(s: Seq<T>, less: spec_fn(T, T) -> bool)
    requires
        orders(s, less),
    ensures
        ordered(partition_sort(s, less), less),
{
    lemma_pairs_in_order(s, less, not_after(less));
}

/// Under a strict weak order, sorting what is sorted changes nothing.
pub proof fn lemma_partition_sort_is_idempotent<T>(s: Seq<T>, less: spec_fn(T, T) -> bool)
    requires
        orders(s, less),
    ensures
        partition_sort(partition_sort(s, less), less) == partition_sort(s, less),
{
    lemma_result_is_ordered(s, less);
    lemma_ordered_input_is_unchanged(partition_sort(s, less), less);
}

} // verus!
