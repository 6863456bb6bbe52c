//! What the contracts of the sorting functions imply.

use vstd::prelude::*;
use vstd::laws_cmp::{obeys_cmp, obeys_cmp_ord, obeys_cmp_partial_ord, obeys_partial_cmp_spec_properties};
use vstd::laws_eq::{obeys_concrete_eq, obeys_eq_spec_properties};
use vstd::relations::sorted_by;
use vstd::std_specs::cmp::OrdSpec;
use std::cmp::Ordering;
use crate::comparator::{
    lemma_precedes_total_preorder, precedes, separates, strict_weak_order_on,
};
use crate::parallel::natural_order;
use crate::relation::{antisymmetric_on, lemma_same_elements, lemma_sorted_arrangement_unique};
use crate::SortOrder;

verus! {

/// An order that calls only identical elements equal leaves, read in either
/// direction, no two distinct elements that may stand either way round.
pub proof fn lemma_separating_order_antisymmetric<T>(
    c: spec_fn(T, T) -> Ordering,
    s: Seq<T>,
    is_asc: bool,
)
    requires
        strict_weak_order_on(c, s),
        separates(c, s),
    ensures
        antisymmetric_on(precedes(c, is_asc), s),
{
    let r = precedes(c, is_asc);
    assert forall|x: T, y: T|
        s.contains(x) && s.contains(y) && #[trigger] r(x, y) && #[trigger] r(y, x) implies x
        == y by {
        assert(c(x, y) == Ordering::Greater <==> c(y, x) == Ordering::Less);
        assert(c(y, x) == Ordering::Greater <==> c(x, y) == Ordering::Less);
        assert(c(x, y) == Ordering::Equal);
    }
}

/// The outcome of a sort is determined by its input: it makes no difference
/// which steps ran on which thread. Let `c` be a strict weak ordering on the
/// elements of `before` that calls only identical elements equal. Any two
/// slices that hold the elements of `before` and are sorted ascending by `c`,
/// which is what `sort_by` ensures of its result for each such `c` that the
/// comparator follows, and `sort` for the order of the element type, are the
/// same slice.
pub proof fn lemma_sort_outcome_unique<T>(
    c: spec_fn(T, T) -> Ordering,
    before: Seq<T>,
    one: Seq<T>,
    other: Seq<T>,
)
    requires
        strict_weak_order_on(c, before),
        separates(c, before),
        one.to_multiset() == before.to_multiset(),
        sorted_by(one, precedes(c, true)),
        other.to_multiset() == before.to_multiset(),
        sorted_by(other, precedes(c, true)),
    ensures
        one == other,
{
    lemma_same_elements(one, before);
    assert(strict_weak_order_on(c, one));
    assert(separates(c, one));
    lemma_precedes_total_preorder(c, one, true);
    lemma_separating_order_antisymmetric(c, one, true);
    lemma_sorted_arrangement_unique(precedes(c, true), one, other);
}

/// Sorting is idempotent. Let `c` be a strict weak ordering on the elements
/// of `before` that calls only identical elements equal, and let `before`
/// stand in ascending order by `c` already. Then a slice that holds the
/// elements of `before` and is sorted ascending by `c`, as the result of
/// `sort_by` and of `sort` is, is `before` itself.
pub proof fn lemma_sort_idempotent<T>(c: spec_fn(T, T) -> Ordering, before: Seq<T>, after: Seq<T>)
    requires
        strict_weak_order_on(c, before),
        separates(c, before),
        sorted_by(before, precedes(c, true)),
        after.to_multiset() == before.to_multiset(),
        sorted_by(after, precedes(c, true)),
    ensures
        after == before,
{
    lemma_sort_outcome_unique(c, before, after, before);
}

/// A type whose comparison obeys the laws of a total order gives `sort` what
/// its contract asks for: in either direction its order is a strict weak
/// ordering, on any elements. Where equality on the type is identity, the
/// order calls only identical elements equal.
pub proof fn lemma_total_order_is_strict_weak<T: Ord>(order: SortOrder, s: Seq<T>)
    requires
        obeys_cmp::<T>(),
    ensures
        T::obeys_cmp_spec(),
        strict_weak_order_on(natural_order::<T>(order), s),
        obeys_concrete_eq::<T>() ==> separates(natural_order::<T>(order), s),
{
    reveal(obeys_concrete_eq);
    reveal(obeys_cmp_partial_ord);
    reveal(obeys_cmp_ord);
    reveal(obeys_partial_cmp_spec_properties);
    reveal(obeys_eq_spec_properties);
}

} // verus!
