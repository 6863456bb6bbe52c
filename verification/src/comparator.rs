//! What a comparator says, and the orders it can stand for.
//!
//! A comparator is any function from two elements to an `Ordering`. Its
//! contract may leave its answer open, so the sorting functions speak of an
//! order `c`, a plain function on values, that the comparator is bound to
//! follow on the elements at hand.

use vstd::prelude::*;
use std::cmp::Ordering;
use vstd::relations::sorted_by;
use crate::relation::{bitonic, reverse_on, total_preorder_on};

verus! {

/// The comparator may be called on any two elements of `s`.
pub open spec fn callable_on<T, F: Fn(&T, &T) -> Ordering>(f: F, s: Seq<T>) -> bool {
    forall|x: T, y: T| s.contains(x) && s.contains(y) ==> #[trigger] f.requires((&x, &y))
}

/// Whatever the comparator answers on two elements of `s` is what `c` says of them.
pub open spec fn decides<T, F: Fn(&T, &T) -> Ordering>(
    f: F,
    c: spec_fn(T, T) -> Ordering,
    s: Seq<T>,
) -> bool {
    forall|x: T, y: T, o: Ordering|
        s.contains(x) && s.contains(y) && #[trigger] f.ensures((&x, &y), o) ==> o == c(x, y)
}

/// On the elements of `s`, `c` is a strict weak ordering: `a` is greater than
/// `b` exactly when `b` is less than `a`, and "not greater" is transitive.
pub open spec fn strict_weak_order_on<T>(c: spec_fn(T, T) -> Ordering, s: Seq<T>) -> bool {
    &&& forall|x: T, y: T|
        s.contains(x) && s.contains(y) ==> (#[trigger] c(x, y) == Ordering::Greater <==> c(y, x)
            == Ordering::Less)
    &&& forall|x: T, y: T, z: T|
        #![trigger c(x, y), c(y, z)]
        s.contains(x) && s.contains(y) && s.contains(z) && c(x, y) != Ordering::Greater && c(y, z)
            != Ordering::Greater ==> c(x, z) != Ordering::Greater
}

/// On the elements of `s`, `c` says `Equal` only of an element and itself.
pub open spec fn separates<T>(c: spec_fn(T, T) -> Ordering, s: Seq<T>) -> bool {
    forall|x: T, y: T|
        s.contains(x) && s.contains(y) && #[trigger] c(x, y) == Ordering::Equal ==> x == y
}

/// The answer on which a pair is exchanged: in an ascending pass, that the
/// first is greater; in a descending pass, that it is less.
pub open spec fn swap_condition(is_asc: bool) -> Ordering {
    if is_asc {
        Ordering::Greater
    } else {
        Ordering::Less
    }
}

/// The relation "`a` may stand before `b`" of the order `c` in one direction:
/// `c` does not ask for the two to be exchanged.
pub open spec fn precedes<T>(c: spec_fn(T, T) -> Ordering, is_asc: bool) -> spec_fn(T, T) -> bool {
    |a: T, b: T| c(a, b) != swap_condition(is_asc)
}

/// What a pass in one direction may make of the pair `(a, b)`: it is kept on
/// an answer that does not ask for an exchange, and exchanged on one that does.
pub open spec fn exchanged_if<T, F: Fn(&T, &T) -> Ordering>(
    f: F,
    is_asc: bool,
    a: T,
    b: T,
    a_after: T,
    b_after: T,
) -> bool {
    ||| a_after == a && b_after == b && (f.ensures((&a, &b), Ordering::Equal) || f.ensures(
        (&a, &b),
        swap_condition(!is_asc),
    ))
    ||| a_after == b && b_after == a && f.ensures((&a, &b), swap_condition(is_asc))
}

/// `after` is sorted in the given direction by every strict weak ordering
/// that the comparator is bound to follow on the elements of `before`.
pub open spec fn sorts<T, F: Fn(&T, &T) -> Ordering>(
    f: F,
    is_asc: bool,
    before: Seq<T>,
    after: Seq<T>,
) -> bool {
    forall|c: spec_fn(T, T) -> Ordering|
        #[trigger] decides(f, c, before) && strict_weak_order_on(c, before) ==> sorted_by(
            after,
            precedes(c, is_asc),
        )
}

/// `after` is sorted in the given direction by every strict weak ordering
/// that the comparator is bound to follow on the elements of `before` and
/// under which `before` is bitonic.
pub open spec fn merges<T, F: Fn(&T, &T) -> Ordering>(
    f: F,
    is_asc: bool,
    before: Seq<T>,
    after: Seq<T>,
) -> bool {
    forall|c: spec_fn(T, T) -> Ordering|
        #[trigger] decides(f, c, before) && strict_weak_order_on(c, before) && bitonic(
            precedes(c, is_asc),
            before,
        ) ==> sorted_by(after, precedes(c, is_asc))
}

/// A strict weak ordering, read in either direction, is a total preorder,
/// and the two directions are each other's reverse.
pub proof fn lemma_precedes_total_preorder<T>(c: spec_fn(T, T) -> Ordering, s: Seq<T>, is_asc: bool)
    requires
        strict_weak_order_on(c, s),
    ensures
        total_preorder_on(precedes(c, is_asc), s),
        reverse_on(precedes(c, is_asc), precedes(c, !is_asc), s),
{
    let r = precedes(c, is_asc);
    let back = precedes(c, !is_asc);
    assert forall|x: T, y: T| s.contains(x) && s.contains(y) implies #[trigger] r(x, y) || r(y, x) by {
        assert(c(x, y) == Ordering::Greater <==> c(y, x) == Ordering::Less);
        assert(c(y, x) == Ordering::Greater <==> c(x, y) == Ordering::Less);
    }
    assert forall|x: T, y: T, z: T|
        s.contains(x) && s.contains(y) && s.contains(z) && #[trigger] r(x, y) && #[trigger] r(
            y,
            z,
        ) implies r(x, z) by {
        if !is_asc {
            // "not less" from x to z is "not greater" from z to x
            assert(c(y, x) != Ordering::Greater && c(z, y) != Ordering::Greater);
            assert(c(z, x) != Ordering::Greater);
        }
    }
    assert forall|x: T, y: T| s.contains(x) && s.contains(y) implies #[trigger] back(x, y) == r(
        y,
        x,
    ) by {
        assert(c(x, y) == Ordering::Greater <==> c(y, x) == Ordering::Less);
        assert(c(y, x) == Ordering::Greater <==> c(x, y) == Ordering::Less);
    }
}

} // verus!
