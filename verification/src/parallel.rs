//! The sorting network and its two entry points.

use vstd::prelude::*;
use std::cmp::Ordering;
use vstd::relations::sorted_by;
use crate::comparator::{
    callable_on, decides, exchanged_if, lemma_precedes_total_preorder, merges, precedes, sorts,
    strict_weak_order_on,
};
use vstd::std_specs::cmp::OrdSpec;
use crate::length::{lemma_halves_valid, length_message, valid_length, validate_length};
use crate::SortOrder;
use crate::relation::{
    below, bitonic, lemma_exchange_keeps_elements, lemma_joined_sorted, lemma_merge_step,
    lemma_parts_within, lemma_rise_fall_bitonic, lemma_same_elements, pair_ordered,
};

verus! {

/// The half-size at which a step hands its two halves to the worker pool:
/// a sorting step does so above it, a merging step from it on.
pub const PARALLEL_THRESHOLD: usize = 4096;

/// What a pass has made of the pair at `i` and `i + before.len() / 2`.
pub open spec fn pass_at<T, F: Fn(&T, &T) -> Ordering>(
    f: F,
    is_asc: bool,
    before: Seq<T>,
    after: Seq<T>,
    i: int,
) -> bool {
    exchanged_if(
        f,
        is_asc,
        before[i],
        before[i + before.len() / 2],
        after[i],
        after[i + before.len() / 2],
    )
}

/// One pass of the network: each element of the lower half is compared with
/// the element half a length above it, and the two are exchanged when the
/// comparator's answer is the one that the direction reads as "out of order".
/// An answer of `Equal` never exchanges. With an odd length the last element
/// has no partner and stays.
pub fn compare_and_swap<T, F>(array: &mut [T], is_asc: bool, comparator: &F) where
    F: Fn(&T, &T) -> Ordering,

    requires
        callable_on(*comparator, old(array)@),
    ensures
        final(array)@.len() == old(array)@.len(),
        final(array)@.to_multiset() == old(array)@.to_multiset(),
        forall|i: int|
            0 <= i < old(array)@.len() / 2 ==> #[trigger] pass_at(
                *comparator,
                is_asc,
                old(array)@,
                final(array)@,
                i,
            ),
        old(array)@.len() % 2 == 1 ==> final(array)@.last() == old(array)@.last(),
{
    let mid_point: usize = array.len() / 2;
    let ghost before = array@;
    let (lo, hi) = array.split_at_mut(mid_point);
    assert(lo@ + hi@ =~= before);
    for i in 0..mid_point
        invariant
            lo@.len() == mid_point,
            hi@.len() == before.len() - mid_point,
            mid_point == before.len() / 2,
            callable_on(*comparator, before),
            (lo@ + hi@).to_multiset() == before.to_multiset(),
            forall|k: int| 0 <= k < i ==> #[trigger] pass_at(*comparator, is_asc, before, lo@ + hi@, k),
            forall|k: int| i <= k < mid_point ==> #[trigger] lo@[k] == before[k],
            forall|k: int| i <= k < hi@.len() ==> #[trigger] hi@[k] == before[k + mid_point],
    {
        let ghost joined = lo@ + hi@;
        proof {
            assert forall|k: int| 0 <= k < before.len() implies before.contains(#[trigger] before[k]) by {}
        }
        let swap = match comparator(&lo[i], &hi[i]) {
            Ordering::Greater => is_asc,
            Ordering::Less => !is_asc,
            Ordering::Equal => false,
        };
        if swap {
            core::mem::swap(&mut lo[i], &mut hi[i]);
        }
        proof {
            let now = lo@ + hi@;
            if swap {
                let upper = i + mid_point;
                let lower = upper - mid_point;
                assert(now =~= joined.update(lower, joined[upper]).update(upper, joined[lower]));
                lemma_exchange_keeps_elements(joined, lower, upper);
            } else {
                assert(now =~= joined);
            }
            assert forall|k: int| 0 <= k < i + 1 implies #[trigger] pass_at(*comparator, is_asc, before, now, k) by {
                if k < i {
                    assert(pass_at(*comparator, is_asc, before, joined, k));
                    assert(now[k] == joined[k]);
                    assert(now[k + mid_point] == joined[k + mid_point]);
                }
            }
        }
    }
}

/// What the merging network makes of a slice.
pub open spec fn merge_outcome<T, F: Fn(&T, &T) -> Ordering>(
    f: F,
    is_asc: bool,
    before: Seq<T>,
    after: Seq<T>,
) -> bool {
    &&& after.to_multiset() == before.to_multiset()
    &&& valid_length(before.len()) ==> merges(f, is_asc, before, after)
}

/// What the sorting network makes of a slice.
pub open spec fn sort_outcome<T, F: Fn(&T, &T) -> Ordering>(
    f: F,
    is_asc: bool,
    before: Seq<T>,
    after: Seq<T>,
) -> bool {
    &&& after.to_multiset() == before.to_multiset()
    &&& valid_length(before.len()) ==> sorts(f, is_asc, before, after)
}

/// Hands the two halves of a step to `rayon::join`, which runs `oper_a` on
/// `first` and `oper_b` on `second`, on two threads of its pool where one is
/// idle, and returns once both have run. The contract claims that, and no
/// more: each half is left as its own operation leaves it.
#[verifier::external_body]
fn join_on<T, A, B>(first: &mut [T], second: &mut [T], oper_a: A, oper_b: B) where
    T: Send,
    A: FnOnce(&mut [T]) + Send,
    B: FnOnce(&mut [T]) + Send,

    requires
        oper_a.requires((old(first),)),
        oper_b.requires((old(second),)),
    ensures
        oper_a.ensures((old(first),), ()),
        oper_b.ensures((old(second),), ()),
{
    rayon::join(move || oper_a(first), move || oper_b(second));
}

/// The merging network: a pass over the whole slice, then the same on each
/// half. It turns a bitonic slice into a sorted one; a slice that rises and
/// then falls is bitonic (`lemma_rise_fall_bitonic`), and so is one read from
/// another position on (`lemma_rotation_bitonic`). Any slice keeps its elements.
pub fn sub_sort<T, F>(array: &mut [T], is_asc: bool, comparator: &F) where
    T: Send,
    F: Sync + Fn(&T, &T) -> Ordering,

    requires
        callable_on(*comparator, old(array)@),
    ensures
        final(array)@.to_multiset() == old(array)@.to_multiset(),
        valid_length(old(array)@.len()) ==> merges(*comparator, is_asc, old(array)@, final(array)@),
    decreases old(array)@.len(),
{
    let n: usize = array.len();
    if n > 1 {
        let ghost before = array@;
        compare_and_swap(array, is_asc, comparator);
        let ghost passed = array@;
        let mid_point: usize = n / 2;
        let (first, second) = array.split_at_mut(mid_point);
        let ghost lo = first@;
        let ghost hi = second@;
        proof {
            lemma_same_elements(passed, before);
            lemma_parts_within(lo, hi);
            assert(lo + hi =~= passed);
        }
        if mid_point >= PARALLEL_THRESHOLD {
            let merge_half = |half: &mut [T]|
                requires
                    callable_on(*comparator, old(half)@),
                    old(half)@.len() < n,
                ensures
                    merge_outcome(*comparator, is_asc, old(half)@, final(half)@),
                { sub_sort(half, is_asc, comparator) };
            join_on(first, second, merge_half, merge_half);
        } else {
            sub_sort(first, is_asc, comparator);
            sub_sort(second, is_asc, comparator);
        }
        let ghost lo_sorted = first@;
        let ghost hi_sorted = second@;
        proof {
            vstd::seq_lib::lemma_multiset_commutative(lo, hi);
            vstd::seq_lib::lemma_multiset_commutative(lo_sorted, hi_sorted);
            lemma_same_elements(lo_sorted, lo);
            lemma_same_elements(hi_sorted, hi);
            if valid_length(before.len()) {
                lemma_halves_valid(before.len());
                assert forall|c: spec_fn(T, T) -> Ordering|
                    #[trigger] decides(*comparator, c, before) && strict_weak_order_on(c, before)
                        && bitonic(precedes(c, is_asc), before) implies sorted_by(
                    lo_sorted + hi_sorted,
                    precedes(c, is_asc),
                ) by {
                    let r = precedes(c, is_asc);
                    lemma_precedes_total_preorder(c, before, is_asc);
                    assert forall|i: int| 0 <= i < before.len() / 2 implies #[trigger] pair_ordered(
                        r,
                        before,
                        passed,
                        i,
                    ) by {
                        assert(pass_at(*comparator, is_asc, before, passed, i));
                        assert(before.contains(before[i]));
                        assert(before.contains(before[i + before.len() / 2]));
                    }
                    // the pass leaves two bitonic halves, the lower below the upper
                    lemma_merge_step(r, before, passed);
                    // each half has been merged by the same order
                    assert(decides(*comparator, c, lo) && strict_weak_order_on(c, lo));
                    assert(decides(*comparator, c, hi) && strict_weak_order_on(c, hi));
                    assert(below(r, lo_sorted, hi_sorted));
                    lemma_joined_sorted(r, lo_sorted, hi_sorted);
                }
            }
        }
    }
}

/// The sorting network: the first half is sorted ascending and the second
/// descending, which makes the slice bitonic, and the merging network then
/// sorts the whole in the direction asked for.
pub fn do_sort<T, F>(array: &mut [T], is_asc: bool, comparator: &F) where
    T: Send,
    F: Sync + Fn(&T, &T) -> Ordering,

    requires
        callable_on(*comparator, old(array)@),
    ensures
        final(array)@.to_multiset() == old(array)@.to_multiset(),
        valid_length(old(array)@.len()) ==> sorts(*comparator, is_asc, old(array)@, final(array)@),
    decreases old(array)@.len(),
{
    let n: usize = array.len();
    if n > 1 {
        let ghost before = array@;
        let mid_point: usize = n / 2;
        let (first, second) = array.split_at_mut(mid_point);
        let ghost lo = first@;
        let ghost hi = second@;
        proof {
            lemma_parts_within(lo, hi);
            assert(lo + hi =~= before);
        }
        if mid_point > PARALLEL_THRESHOLD {
            let rising = |a: &mut [T]|
                requires
                    callable_on(*comparator, old(a)@),
                    old(a)@.len() < n,
                ensures
                    sort_outcome(*comparator, true, old(a)@, final(a)@),
                { do_sort(a, true, comparator) };
            let falling = |a: &mut [T]|
                requires
                    callable_on(*comparator, old(a)@),
                    old(a)@.len() < n,
                ensures
                    sort_outcome(*comparator, false, old(a)@, final(a)@),
                { do_sort(a, false, comparator) };
            join_on(first, second, rising, falling);
        } else {
            do_sort(first, true, comparator);
            do_sort(second, false, comparator);
        }
        let ghost rise = first@;
        let ghost fall = second@;
        proof {
            vstd::seq_lib::lemma_multiset_commutative(lo, hi);
            vstd::seq_lib::lemma_multiset_commutative(rise, fall);
            lemma_same_elements(rise + fall, before);
        }
        sub_sort(array, is_asc, comparator);
        proof {
            let built = rise + fall;
            if valid_length(before.len()) {
                lemma_halves_valid(before.len());
                assert forall|c: spec_fn(T, T) -> Ordering|
                    #[trigger] decides(*comparator, c, before) && strict_weak_order_on(
                        c,
                        before,
                    ) implies sorted_by(array@, precedes(c, is_asc)) by {
                    // the halves have been sorted by the same order, one each way
                    assert(decides(*comparator, c, lo) && strict_weak_order_on(c, lo));
                    assert(decides(*comparator, c, hi) && strict_weak_order_on(c, hi));
                    // so the slice is bitonic, read either way
                    assert(strict_weak_order_on(c, built));
                    lemma_precedes_total_preorder(c, built, true);
                    lemma_rise_fall_bitonic(precedes(c, true), precedes(c, false), rise, fall);
                    assert(bitonic(precedes(c, is_asc), built));
                    assert(decides(*comparator, c, built));
                }
            }
        }
    }
}

/// Sorts the slice in place by the comparator, smallest first.
///
/// A slice whose length is neither zero nor a power of two is refused, with
/// a message that names the length, and left as it was. Any other slice comes
/// back holding the elements it held, and in ascending order by every strict
/// weak ordering that the comparator follows on them. Elements that the
/// comparator calls equal may change places.
pub fn sort_by<T, F>(array: &mut [T], comparator: &F) -> (r: Result<(), String>) where
    T: Send,
    F: Sync + Fn(&T, &T) -> Ordering,

    requires
        valid_length(old(array)@.len()) ==> callable_on(*comparator, old(array)@),
    ensures
        r is Ok <==> valid_length(old(array)@.len()),
        r is Err ==> final(array)@ == old(array)@ && r->Err_0@ == length_message(old(array)@.len()),
        r is Ok ==> final(array)@.to_multiset() == old(array)@.to_multiset(),
        r is Ok ==> sorts(*comparator, true, old(array)@, final(array)@),
{
    match validate_length(array.len()) {
        Ok(()) => {
            do_sort(array, true, comparator);
            Ok(())
        },
        Err(message) => Err(message),
    }
}

/// The order of the element type itself, read in the direction asked for:
/// descending is ascending with the two operands exchanged.
pub open spec fn natural_order<T: Ord>(order: SortOrder) -> spec_fn(T, T) -> Ordering {
    |a: T, b: T|
        match order {
            SortOrder::Ascending => a.cmp_spec(&b),
            SortOrder::Descending => b.cmp_spec(&a),
        }
}

/// Sorts the slice in place by the order of its element type, in the
/// direction asked for.
///
/// A slice whose length is neither zero nor a power of two is refused, with
/// a message that names the length, and left as it was. Any other slice comes
/// back holding the elements it held; where `cmp` on the type returns what
/// `cmp_spec` says, and that is a strict weak ordering on these elements,
/// they stand in that order.
pub fn sort<T: Ord + Send>(array: &mut [T], order: &SortOrder) -> (r: Result<(), String>)
    ensures
        r is Ok <==> valid_length(old(array)@.len()),
        r is Err ==> final(array)@ == old(array)@ && r->Err_0@ == length_message(old(array)@.len()),
        r is Ok ==> final(array)@.to_multiset() == old(array)@.to_multiset(),
        r is Ok && T::obeys_cmp_spec() && strict_weak_order_on(
            natural_order::<T>(*order),
            old(array)@,
        ) ==> sorted_by(final(array)@, precedes(natural_order::<T>(*order), true)),
{
    let ghost before = array@;
    match *order {
        SortOrder::Ascending => {
            let forward = |a: &T, b: &T| -> (o: Ordering)
                ensures
                    T::obeys_cmp_spec() ==> o == a.cmp_spec(b),
                { a.cmp(b) };
            proof {
                if T::obeys_cmp_spec() {
                    assert(decides(forward, natural_order::<T>(*order), before));
                }
            }
            sort_by(array, &forward)
        },
        SortOrder::Descending => {
            let backward = |a: &T, b: &T| -> (o: Ordering)
                ensures
                    T::obeys_cmp_spec() ==> o == b.cmp_spec(a),
                { b.cmp(a) };
            proof {
                if T::obeys_cmp_spec() {
                    assert(decides(backward, natural_order::<T>(*order), before));
                }
            }
            sort_by(array, &backward)
        },
    }
}

} // verus!
