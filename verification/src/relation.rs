//! Orders on the elements of a sequence, and the shapes a sequence can have
//! under them.
//!
//! A relation `r(a, b)` is read "`a` may stand before `b`". Nothing here asks
//! the relation to behave on values that do not occur in the sequence at hand.

use vstd::prelude::*;
use vstd::relations::sorted_by;
use crate::marks::{
    bitonic_marks, both, either, lemma_fall_rise_marks, lemma_half_clean, lemma_rise_fall_marks,
    lemma_rotated_marks, rotated,
};

verus! {

/// On the elements of `s`, any two are comparable and `r` is transitive.
pub open spec fn total_preorder_on<T>(r: spec_fn(T, T) -> bool, s: Seq<T>) -> bool {
    &&& forall|x: T, y: T| s.contains(x) && s.contains(y) ==> #[trigger] r(x, y) || r(y, x)
    &&& forall|x: T, y: T, z: T|
        s.contains(x) && s.contains(y) && s.contains(z) && #[trigger] r(x, y) && #[trigger] r(y, z)
            ==> r(x, z)
}

/// On the elements of `s`, elements that may stand either way round are the same.
pub open spec fn antisymmetric_on<T>(r: spec_fn(T, T) -> bool, s: Seq<T>) -> bool {
    forall|x: T, y: T|
        s.contains(x) && s.contains(y) && #[trigger] r(x, y) && #[trigger] r(y, x) ==> x == y
}

/// On the elements of `s`, `back` is `r` read from right to left.
pub open spec fn reverse_on<T>(r: spec_fn(T, T) -> bool, back: spec_fn(T, T) -> bool, s: Seq<T>) -> bool {
    forall|x: T, y: T| s.contains(x) && s.contains(y) ==> #[trigger] back(x, y) == r(y, x)
}

/// Every element of `lo` may stand before every element of `hi`.
pub open spec fn below<T>(r: spec_fn(T, T) -> bool, lo: Seq<T>, hi: Seq<T>) -> bool {
    forall|x: T, y: T| lo.contains(x) && hi.contains(y) ==> #[trigger] r(x, y)
}

/// The cut of `s` at the threshold `v`: position `i` is marked when `s[i]`
/// must stand after `v`.
pub open spec fn marks<T>(r: spec_fn(T, T) -> bool, v: T, s: Seq<T>) -> Seq<bool> {
    Seq::new(s.len(), |i: int| !r(s[i], v))
}

/// A sequence is bitonic when, cut at any of its own elements, the marked
/// positions form a single run around the cycle. A sequence that rises and
/// then falls is of this kind, and so is each rotation of one.
pub open spec fn bitonic<T>(r: spec_fn(T, T) -> bool, s: Seq<T>) -> bool {
    forall|v: T| s.contains(v) ==> bitonic_marks(#[trigger] marks(r, v, s))
}

/// After a pass over the pairs half a length apart, the pair that starts at
/// `i` holds the two elements it held before, and the one in the lower half
/// may stand before the other.
pub open spec fn pair_ordered<T>(r: spec_fn(T, T) -> bool, before: Seq<T>, after: Seq<T>, i: int) -> bool {
    let m = before.len() / 2;
    &&& r(after[i], after[i + m])
    &&& {
        ||| after[i] == before[i] && after[i + m] == before[i + m]
        ||| after[i] == before[i + m] && after[i + m] == before[i]
    }
}

/// Every element of `part` is an element of `s`.
pub open spec fn within<T>(part: Seq<T>, s: Seq<T>) -> bool {
    forall|x: T| part.contains(x) ==> s.contains(x)
}

/// Each of two sequences holds only elements of the two joined.
pub proof fn lemma_parts_within<T>(lo: Seq<T>, hi: Seq<T>)
    ensures
        within(lo, lo + hi),
        within(hi, lo + hi),
{
    let s = lo + hi;
    assert forall|x: T| lo.contains(x) implies s.contains(x) by {
        let k = choose|k: int| 0 <= k < lo.len() && lo[k] == x;
        assert(s[k] == x);
    }
    assert forall|x: T| hi.contains(x) implies s.contains(x) by {
        let k = choose|k: int| 0 <= k < hi.len() && hi[k] == x;
        assert(s[k + lo.len()] == x);
    }
}

/// Two sequences with the same elements, counted, have the same elements.
pub proof fn lemma_same_elements<T>(a: Seq<T>, b: Seq<T>)
    requires
        a.to_multiset() == b.to_multiset(),
    ensures
        a.len() == b.len(),
        forall|x: T| a.contains(x) <==> b.contains(x),
{
    a.to_multiset_ensures();
    b.to_multiset_ensures();
    assert forall|x: T| a.contains(x) <==> b.contains(x) by {
        assert(a.contains(x) <==> a.to_multiset().count(x) > 0);
        assert(b.contains(x) <==> b.to_multiset().count(x) > 0);
    }
}

/// Exchanging two elements of a sequence keeps its elements, counted.
pub proof fn lemma_exchange_keeps_elements<T>(s: Seq<T>, i: int, j: int)
    requires
        0 <= i < s.len(),
        0 <= j < s.len(),
    ensures
        s.update(i, s[j]).update(j, s[i]).to_multiset() == s.to_multiset(),
{
    broadcast use vstd::seq_lib::to_multiset_update;
    s.to_multiset_ensures();
    let mid = s.update(i, s[j]);
    mid.to_multiset_ensures();
    assert(mid.update(j, s[i]).to_multiset() =~= s.to_multiset());
}

/// A sorted sequence followed by a sorted sequence of elements that all may
/// stand after it is sorted.
pub proof fn lemma_joined_sorted<T>(r: spec_fn(T, T) -> bool, lo: Seq<T>, hi: Seq<T>)
    requires
        sorted_by(lo, r),
        sorted_by(hi, r),
        below(r, lo, hi),
    ensures
        sorted_by(lo + hi, r),
{
    let s = lo + hi;
    assert forall|i: int, j: int| 0 <= i < j < s.len() implies #[trigger] r(s[i], s[j]) by {
        if j < lo.len() {
            assert(r(lo[i], lo[j]));
        } else if i >= lo.len() {
            assert(r(hi[i - lo.len()], hi[j - lo.len()]));
        } else {
            assert(lo.contains(lo[i]));
            assert(hi.contains(hi[j - lo.len()]));
        }
    }
}

/// Under an order that tells any two distinct elements apart, a collection of
/// elements has one sorted arrangement only.
pub proof fn lemma_sorted_arrangement_unique<T>(r: spec_fn(T, T) -> bool, a: Seq<T>, b: Seq<T>)
    requires
        total_preorder_on(r, a),
        antisymmetric_on(r, a),
        sorted_by(a, r),
        sorted_by(b, r),
        a.to_multiset() == b.to_multiset(),
    ensures
        a == b,
    decreases a.len(),
{
    lemma_same_elements(a, b);
    if a.len() == 0 {
        assert(a =~= b);
    } else {
        assert(a.contains(a[0]));
        assert(b.contains(b[0]));
        let i = choose|i: int| 0 <= i < a.len() && a[i] == b[0];
        let j = choose|j: int| 0 <= j < b.len() && b[j] == a[0];
        assert(r(a[0], a[0]));
        assert(r(a[0], a[i]));
        assert(r(b[0], b[0]));
        assert(r(b[0], b[j]));
        assert(a[0] == b[0]);
        let a_rest = a.drop_first();
        let b_rest = b.drop_first();
        a.to_multiset_ensures();
        b.to_multiset_ensures();
        assert(a_rest =~= a.remove(0));
        assert(b_rest =~= b.remove(0));
        assert(a_rest.to_multiset() == b_rest.to_multiset());
        lemma_parts_within(seq![a[0]], a_rest);
        assert(a =~= seq![a[0]] + a_rest);
        assert forall|p: int, q: int| 0 <= p < q < a_rest.len() implies #[trigger] r(
            a_rest[p],
            a_rest[q],
        ) by {
            assert(r(a[p + 1], a[q + 1]));
        }
        assert forall|p: int, q: int| 0 <= p < q < b_rest.len() implies #[trigger] r(
            b_rest[p],
            b_rest[q],
        ) by {
            assert(r(b[p + 1], b[q + 1]));
        }
        lemma_sorted_arrangement_unique(r, a_rest, b_rest);
        assert(a =~= seq![a[0]] + a_rest);
        assert(b =~= seq![b[0]] + b_rest);
    }
}

/// One pass of the merging network over a bitonic sequence of even length
/// leaves two bitonic halves, the lower of which lies below the upper.
pub proof fn lemma_merge_step<T>(r: spec_fn(T, T) -> bool, before: Seq<T>, after: Seq<T>)
    requires
        before.len() % 2 == 0,
        after.len() == before.len(),
        total_preorder_on(r, before),
        bitonic(r, before),
        forall|i: int| 0 <= i < before.len() / 2 ==> #[trigger] pair_ordered(r, before, after, i),
    ensures
        bitonic(r, after.subrange(0, before.len() as int / 2)),
        bitonic(r, after.subrange(before.len() as int / 2, before.len() as int)),
        below(
            r,
            after.subrange(0, before.len() as int / 2),
            after.subrange(before.len() as int / 2, before.len() as int),
        ),
{
    let m = before.len() as int / 2;
    let lo = after.subrange(0, m);
    let hi = after.subrange(m, 2 * m);
    assert forall|x: T| lo.contains(x) || hi.contains(x) implies before.contains(x) by {
        let k = if lo.contains(x) {
            choose|k: int| 0 <= k < m && lo[k] == x
        } else {
            choose|k: int| 0 <= k < m && hi[k] == x
        };
        assert(pair_ordered(r, before, after, k));
        assert(before.contains(before[k]));
        assert(before.contains(before[k + m]));
    }
    assert forall|v: T| before.contains(v) implies marks(r, v, lo) == both(marks(r, v, before), m)
        && marks(r, v, hi) == either(marks(r, v, before), m) by {
        let cut = marks(r, v, before);
        assert forall|i: int| 0 <= i < m implies marks(r, v, lo)[i] == (cut[i] && cut[i + m])
            && marks(r, v, hi)[i] == (cut[i] || cut[i + m]) by {
            assert(pair_ordered(r, before, after, i));
            assert(lo.contains(lo[i]) && hi.contains(hi[i]));
            assert(lo[i] == after[i] && hi[i] == after[i + m]);
            if r(hi[i], v) {
                assert(r(lo[i], hi[i]));
                assert(r(lo[i], v));
            }
        }
        assert(marks(r, v, lo) =~= both(marks(r, v, before), m));
        assert(marks(r, v, hi) =~= either(marks(r, v, before), m));
    }
    assert forall|v: T| lo.contains(v) implies bitonic_marks(#[trigger] marks(r, v, lo)) by {
        assert(before.contains(v));
        assert(bitonic_marks(marks(r, v, before)));
        lemma_half_clean(marks(r, v, before), m);
    }
    assert forall|v: T| hi.contains(v) implies bitonic_marks(#[trigger] marks(r, v, hi)) by {
        assert(before.contains(v));
        assert(bitonic_marks(marks(r, v, before)));
        lemma_half_clean(marks(r, v, before), m);
    }
    assert forall|x: T, y: T| lo.contains(x) && hi.contains(y) implies #[trigger] r(x, y) by {
        let i = choose|i: int| 0 <= i < m && lo[i] == x;
        let j = choose|j: int| 0 <= j < m && hi[j] == y;
        assert(before.contains(x) && before.contains(y));
        let cut = marks(r, y, before);
        assert(bitonic_marks(cut));
        lemma_half_clean(cut, m);
        assert(r(y, y));
        assert(!marks(r, y, hi)[j]);
        assert(!either(cut, m)[j]);
        assert(!both(cut, m)[i]);
        assert(!marks(r, y, lo)[i]);
    }
}

/// A sequence sorted one way followed by a sequence sorted the other way is
/// bitonic, whichever of the two ways it is read in.
pub proof fn lemma_rise_fall_bitonic<T>(
    r: spec_fn(T, T) -> bool,
    back: spec_fn(T, T) -> bool,
    rise: Seq<T>,
    fall: Seq<T>,
)
    requires
        total_preorder_on(r, rise + fall),
        reverse_on(r, back, rise + fall),
        sorted_by(rise, r),
        sorted_by(fall, back),
    ensures
        bitonic(r, rise + fall),
        bitonic(back, rise + fall),
{
    let s = rise + fall;
    let m = rise.len() as int;
    assert forall|i: int| 0 <= i < s.len() implies s.contains(#[trigger] s[i]) by {}
    assert forall|v: T| s.contains(v) implies bitonic_marks(#[trigger] marks(r, v, s)) by {
        let c = marks(r, v, s);
        assert forall|i: int, j: int| 0 <= i < j < m && c[i] implies c[j] by {
            assert(s.contains(s[i]) && s.contains(s[j]));
            assert(r(rise[i], rise[j]));
            if r(s[j], v) {
                assert(r(s[i], s[j]));
                assert(r(s[i], v));
            }
        }
        assert forall|i: int, j: int| m <= i < j < c.len() && c[j] implies c[i] by {
            assert(s.contains(s[i]) && s.contains(s[j]));
            assert(back(fall[i - m], fall[j - m]));
            assert(back(s[i], s[j]) == r(s[j], s[i]));
            if r(s[i], v) {
                assert(r(s[j], s[i]));
                assert(r(s[j], v));
            }
        }
        lemma_rise_fall_marks(c, m);
    }
    assert forall|v: T| s.contains(v) implies bitonic_marks(#[trigger] marks(back, v, s)) by {
        let c = marks(back, v, s);
        assert forall|i: int, j: int| 0 <= i < j < m && c[j] implies c[i] by {
            assert(s.contains(s[i]) && s.contains(s[j]));
            assert(r(rise[i], rise[j]));
            assert(back(s[i], v) == r(v, s[i]));
            assert(back(s[j], v) == r(v, s[j]));
            if r(v, s[i]) {
                assert(r(s[i], s[j]));
                assert(r(v, s[j]));
            }
        }
        assert forall|i: int, j: int| m <= i < j < c.len() && c[i] implies c[j] by {
            assert(s.contains(s[i]) && s.contains(s[j]));
            assert(back(fall[i - m], fall[j - m]));
            assert(back(s[i], s[j]) == r(s[j], s[i]));
            assert(back(s[i], v) == r(v, s[i]));
            assert(back(s[j], v) == r(v, s[j]));
            if r(v, s[j]) {
                assert(r(s[j], s[i]));
                assert(r(v, s[i]));
            }
        }
        lemma_fall_rise_marks(c, m);
    }
}

/// A bitonic sequence read from another position on, around the end, is bitonic.
pub proof fn lemma_rotation_bitonic<T>(r: spec_fn(T, T) -> bool, s: Seq<T>, k: int)
    requires
        0 <= k <= s.len(),
        bitonic(r, s),
    ensures
        bitonic(r, rotated(s, k)),
{
    let turned = rotated(s, k);
    lemma_parts_within(s.subrange(0, k), s.subrange(k, s.len() as int));
    assert(s =~= s.subrange(0, k) + s.subrange(k, s.len() as int));
    assert forall|v: T| turned.contains(v) implies bitonic_marks(#[trigger] marks(r, v, turned)) by {
        let i = choose|i: int| 0 <= i < turned.len() && turned[i] == v;
        if i < s.len() - k {
            assert(s.subrange(k, s.len() as int).contains(turned[i]));
        } else {
            assert(s.subrange(0, k).contains(turned[i]));
        }
        assert(s.contains(v));
        assert(bitonic_marks(marks(r, v, s)));
        lemma_rotated_marks(marks(r, v, s), k);
        assert(marks(r, v, turned) =~= rotated(marks(r, v, s), k));
    }
}

} // verus!
