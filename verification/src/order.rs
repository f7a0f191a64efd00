//! The two orders a caller can sort by, as "comes before" tests for the model:
//! the element type's own order, and a three-way comparison of the caller's.

use vstd::prelude::*;
use std::cmp::Ordering;
use vstd::std_specs::cmp::{OrdSpec, PartialEqSpec, PartialOrdSpec};
use vstd::laws_cmp::{obeys_cmp, obeys_cmp_ord, obeys_cmp_partial_ord, obeys_partial_cmp_spec_properties};
use vstd::laws_eq::obeys_eq_spec_properties;
use crate::laws::{
    lemma_agreeing_tests_sort_alike, lemma_neighbours_in_order, lemma_pairs_in_order,
    lemma_partition_sort_is_idempotent, neighbours_satisfy, not_after, orders, pairs_satisfy,
    respects,
};
use crate::model::partition_sort;

verus! {

/// `a` is strictly less than `b` in the order of `T`.
pub open spec fn natural_less<T: PartialOrd>() -> spec_fn(T, T) -> bool {
    |a: T, b: T| a.partial_cmp_spec(&b) == Some(Ordering::Less)
}

/// `a` is less than or equal to `b` in the order of `T`.
pub open spec fn natural_le<T: PartialOrd>() -> spec_fn(T, T) -> bool {
    |a: T, b: T|
        a.partial_cmp_spec(&b) == Some(Ordering::Less) || a.partial_cmp_spec(&b) == Some(
            Ordering::Equal,
        )
}

/// `s` sorted by the order of its element type.
pub open spec fn qsorted<T: PartialOrd>(s: Seq<T>) -> Seq<T> {
    partition_sort(s, natural_less::<T>())
}

/// The test that a three-way comparison stands for: `a` comes before `b`
/// where `a` against `b` gives `Less`, and nowhere else.
pub open spec fn less_of<T>(order: spec_fn(T, T) -> Ordering) -> spec_fn(T, T) -> bool {
    |a: T, b: T| order(a, b) == Ordering::Less
}

/// `a` against `b` does not give `Greater`.
pub open spec fn not_greater<T>(order: spec_fn(T, T) -> Ordering) -> spec_fn(T, T) -> bool {
    |a: T, b: T| order(a, b) != Ordering::Greater
}

/// `s` sorted by a three-way comparison.
pub open spec fn qsorted_by<T>(s: Seq<T>, order: spec_fn(T, T) -> Ordering) -> Seq<T> {
    partition_sort(s, less_of(order))
}

/// `compare` may be called on any two elements of `s`.
pub open spec fn comparable<T, F: Fn(&T, &T) -> Ordering>(compare: F, s: Seq<T>) -> bool {
    forall|i: int, j: int|
        0 <= i < s.len() && 0 <= j < s.len() ==> #[trigger] compare.requires((&s[i], &s[j]))
}

/// On the elements of `s`, `compare` answers `Less` exactly where `before`
/// holds.
pub open spec fn decides<T, F: Fn(&T, &T) -> Ordering>(
    compare: F,
    before: spec_fn(T, T) -> bool,
    s: Seq<T>,
) -> bool {
    forall|i: int, j: int, o: Ordering|
        0 <= i < s.len() && 0 <= j < s.len() && #[trigger] compare.ensures((&s[i], &s[j]), o) ==> (o
            == Ordering::Less <==> before(s[i], s[j]))
}

/// On the elements of `s`, whatever `compare` answers is what `order` gives.
pub open spec fn computes<T, F: Fn(&T, &T) -> Ordering>(
    compare: F,
    order: spec_fn(T, T) -> Ordering,
    s: Seq<T>,
) -> bool {
    forall|i: int, j: int, o: Ordering|
        0 <= i < s.len() && 0 <= j < s.len() && #[trigger] compare.ensures((&s[i], &s[j]), o) ==> o
            == order(s[i], s[j])
}

/// The three-way comparison of `T`.
pub open spec fn natural_order<T: Ord>() -> spec_fn(T, T) -> Ordering {
    |a: T, b: T| a.cmp_spec(&b)
}

/// Of any two elements of `s`, one is less than or equal to the other in
/// the order of `T`.
pub open spec fn total_on<T: PartialOrd>(s: Seq<T>) -> bool {
    forall|a: T, b: T|
        s.contains(a) && s.contains(b) && (#[trigger] a.partial_cmp_spec(&b)) != Some(
            Ordering::Less,
        ) ==> natural_le::<T>()(b, a)
}

/// On the elements of `s`, `order` never gives `Greater` for a pair
/// without giving `Less` for the pair reversed.
pub open spec fn mirrored_on<T>(s: Seq<T>, order: spec_fn(T, T) -> Ordering) -> bool {
    forall|a: T, b: T|
        s.contains(a) && s.contains(b) && #[trigger] order(a, b) == Ordering::Greater ==> order(
            b,
            a,
        ) == Ordering::Less
}

/// On the elements of `s`, the two comparisons of `T` agree: the partial
/// one gives what the three-way one gives.
pub open spec fn coherent_on<T: Ord>(s: Seq<T>) -> bool {
    forall|a: T, b: T|
        s.contains(a) && s.contains(b) ==> #[trigger] a.partial_cmp_spec(&b) == Some(
            a.cmp_spec(&b),
        )
}

/// Sorted by the order of `T`, every element is less than or equal to the
/// one that follows it, provided that the order is total on the input.
pub proof fn lemma_qsorted_ascends<T: PartialOrd>(s: Seq<T>)
    requires
        total_on(s),
    ensures
        neighbours_satisfy(qsorted(s), natural_le::<T>()),
{
    assert(respects(s, natural_less::<T>(), natural_le::<T>()));
    lemma_neighbours_in_order(s, natural_less::<T>(), natural_le::<T>());
}

/// Sorted by a three-way comparison, no element compares `Greater` against
/// the one that follows it, provided that the comparison is mirrored on the
/// input.
pub proof fn lemma_qsorted_by_ascends<T>(s: Seq<T>, order: spec_fn(T, T) -> Ordering)
    requires
        mirrored_on(s, order),
    ensures
        neighbours_satisfy(qsorted_by(s, order), not_greater(order)),
{
    assert forall|a: T, b: T| s.contains(a) && s.contains(b) implies (#[trigger] less_of(order)(
        a,
        b,
    ) ==> not_greater(order)(a, b)) && (!less_of(order)(a, b) ==> not_greater(order)(b, a)) by {
        if order(b, a) == Ordering::Greater {
            assert(order(a, b) == Ordering::Less);
        }
    }
    lemma_neighbours_in_order(s, less_of(order), not_greater(order));
}

/// Sorting by the three-way comparison of `T` gives what sorting by the
/// order of `T` gives, provided that the two comparisons of `T` agree on
/// the input.
pub proof fn lemma_natural_order_sorts_alike<T: Ord>(s: Seq<T>)
    requires
        coherent_on(s),
    ensures
        qsorted_by(s, natural_order::<T>()) == qsorted(s),
{
    assert forall|a: T, b: T| s.contains(a) && s.contains(b) implies #[trigger] less_of(
        natural_order::<T>(),
    )(a, b) == natural_less::<T>()(a, b) by {
        assert(a.partial_cmp_spec(&b) == Some(a.cmp_spec(&b)));
    }
    lemma_agreeing_tests_sort_alike(s, less_of(natural_order::<T>()), natural_less::<T>());
}

/// What the laws of `Ord` say of two values: the two comparisons agree, and
/// turning the pair round turns `Less` into `Greater` and keeps `Equal`.
proof fn lemma_lawful_pair<T: Ord>(a: T, b: T)
    requires
        obeys_cmp::<T>(),
    ensures
        a.partial_cmp_spec(&b) == Some(a.cmp_spec(&b)),
        b.partial_cmp_spec(&a) == Some(b.cmp_spec(&a)),
        a.partial_cmp_spec(&b) == Some(Ordering::Less) <==> b.partial_cmp_spec(&a) == Some(
            Ordering::Greater,
        ),
        a.partial_cmp_spec(&b) == Some(Ordering::Greater) <==> b.partial_cmp_spec(&a) == Some(
            Ordering::Less,
        ),
        a.partial_cmp_spec(&b) == Some(Ordering::Equal) <==> b.partial_cmp_spec(&a) == Some(
            Ordering::Equal,
        ),
{
    reveal(obeys_eq_spec_properties);
    reveal(obeys_partial_cmp_spec_properties);
    reveal(obeys_cmp_partial_ord);
    reveal(obeys_cmp_ord);
    assert(a.partial_cmp_spec(&b) == Some(a.cmp_spec(&b)));
    assert(b.partial_cmp_spec(&a) == Some(b.cmp_spec(&a)));
    assert(a.eq_spec(&b) <==> b.eq_spec(&a));
}

/// In a lawful order, `a <= b` and `b <= c` give `a <= c`.
proof fn lemma_at_most_is_transitive<T: Ord>(a: T, b: T, c: T)
    requires
        obeys_cmp::<T>(),
        natural_le::<T>()(a, b),
        natural_le::<T>()(b, c),
    ensures
        natural_le::<T>()(a, c),
{
    lemma_lawful_pair(a, b);
    lemma_lawful_pair(b, c);
    lemma_lawful_pair(a, c);
    reveal(obeys_eq_spec_properties);
    reveal(obeys_partial_cmp_spec_properties);
    reveal(obeys_cmp_partial_ord);
    if a.partial_cmp_spec(&b) == Some(Ordering::Less) {
        if b.partial_cmp_spec(&c) == Some(Ordering::Equal) {
            // a < b ~ c: neither c < a (then c < b) nor a ~ c (then a ~ b)
            if c.partial_cmp_spec(&a) == Some(Ordering::Less) {
                assert(c.partial_cmp_spec(&b) == Some(Ordering::Less));
            }
            if a.partial_cmp_spec(&c) == Some(Ordering::Equal) {
                assert(c.eq_spec(&b));
                assert(a.eq_spec(&c));
                assert(a.eq_spec(&b));
            }
        }
    } else {
        if b.partial_cmp_spec(&c) == Some(Ordering::Less) {
            // a ~ b < c: neither c < a (then b < a) nor a ~ c (then b ~ c)
            if c.partial_cmp_spec(&a) == Some(Ordering::Less) {
                assert(b.partial_cmp_spec(&a) == Some(Ordering::Less));
            }
            if a.partial_cmp_spec(&c) == Some(Ordering::Equal) {
                assert(b.eq_spec(&a));
                assert(a.eq_spec(&c));
                assert(b.eq_spec(&c));
            }
        } else {
            assert(a.eq_spec(&b));
            assert(b.eq_spec(&c));
            assert(a.eq_spec(&c));
        }
    }
}

/// A type whose comparisons keep the laws of `Ord` has an order that is
/// total, agrees with its three-way comparison, and is a strict weak order,
/// on any sequence.
pub proof fn lemma_lawful_order<T: Ord>(s: Seq<T>)
    requires
        obeys_cmp::<T>(),
    ensures
        T::obeys_partial_cmp_spec(),
        total_on(s),
        coherent_on(s),
        orders(s, natural_less::<T>()),
{
    reveal(obeys_cmp_partial_ord);
    let less = natural_less::<T>();
    assert forall|a: T, b: T| (#[trigger] a.partial_cmp_spec(&b)) != Some(
        Ordering::Less,
    ) implies natural_le::<T>()(b, a) by {
        lemma_lawful_pair(a, b);
    }
    assert forall|a: T, b: T| #[trigger]
        a.partial_cmp_spec(&b) == Some(a.cmp_spec(&b)) by {
        lemma_lawful_pair(a, b);
    }
    assert forall|a: T, b: T| (#[trigger] less(a, b) ==> not_after(less)(a, b)) && (!less(a, b)
        ==> not_after(less)(b, a)) by {
        lemma_lawful_pair(a, b);
    }
    assert forall|a: T, b: T, c: T| #[trigger]
        not_after(less)(a, b) && #[trigger] not_after(less)(b, c) implies not_after(less)(a, c) by {
        lemma_lawful_pair(a, b);
        lemma_lawful_pair(b, c);
        lemma_lawful_pair(a, c);
        lemma_at_most_is_transitive(a, b, c);
    }
}

/// Sorted by the order of a type that keeps the laws of `Ord`, every
/// element is less than or equal to every later one.
pub proof fn lemma_qsorted_is_sorted<T: Ord>(s: Seq<T>)
    requires
        obeys_cmp::<T>(),
    ensures
        pairs_satisfy(qsorted(s), natural_le::<T>()),
{
    lemma_lawful_order(s);
    assert(respects(s, natural_less::<T>(), natural_le::<T>()));
    assert forall|a: T, b: T, c: T| #[trigger]
        natural_le::<T>()(a, b) && #[trigger] natural_le::<T>()(b, c) implies natural_le::<T>()(
        a,
        c,
    ) by {
        lemma_at_most_is_transitive(a, b, c);
    }
    lemma_pairs_in_order(s, natural_less::<T>(), natural_le::<T>());
}

/// For a type that keeps the laws of `Ord`, sorting what is sorted changes
/// nothing.
pub proof fn lemma_qsorted_is_idempotent<T: Ord>(s: Seq<T>)
    requires
        obeys_cmp::<T>(),
    ensures
        qsorted(qsorted(s)) == qsorted(s),
{
    lemma_lawful_order(s);
    lemma_partition_sort_is_idempotent(s, natural_less::<T>());
}

} // verus!
