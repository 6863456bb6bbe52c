//! Sequences of marks.
//!
//! Cutting a sequence of values at a threshold leaves one mark per position:
//! whether the value there lies beyond the threshold. The sorting network is
//! understood through these cuts, and this module holds what is true of the
//! marks alone.

use vstd::prelude::*;

verus! {

/// Four positions, in increasing order, at which the marks alternate.
pub open spec fn zigzag(c: Seq<bool>, p: int, q: int, r: int, t: int) -> bool {
    &&& 0 <= p < q < r < t < c.len()
    &&& c[p] != c[q]
    &&& c[q] != c[r]
    &&& c[r] != c[t]
}

/// The marks change at most twice on the way around the cycle: the set marks
/// form one run, possibly wrapping from the end to the start.
pub open spec fn bitonic_marks(c: Seq<bool>) -> bool {
    forall|p: int, q: int, r: int, t: int| !#[trigger] zigzag(c, p, q, r, t)
}

/// The sequence read from position `k` on, around the end, up to `k`.
pub open spec fn rotated<A>(s: Seq<A>, k: int) -> Seq<A> {
    s.subrange(k, s.len() as int) + s.subrange(0, k)
}

/// What one pass of the network leaves in the lower half when it moves the
/// unset mark of each pair `(i, i + m)` down: a mark is set only where both were.
pub open spec fn both(c: Seq<bool>, m: int) -> Seq<bool> {
    Seq::new(m as nat, |i: int| c[i] && c[i + m])
}

/// What the same pass leaves in the upper half: a mark is set where either was.
pub open spec fn either(c: Seq<bool>, m: int) -> Seq<bool> {
    Seq::new(m as nat, |i: int| c[i] || c[i + m])
}

/// One pass over bitonic marks leaves bitonic marks in each half, and the
/// lower half holds a set mark only if the upper half holds nothing else.
pub proof fn lemma_half_clean(c: Seq<bool>, m: int)
    requires
        0 <= m,
        c.len() == 2 * m,
        bitonic_marks(c),
    ensures
        bitonic_marks(both(c, m)),
        bitonic_marks(either(c, m)),
        forall|i: int, j: int|
            0 <= i < m && 0 <= j < m && #[trigger] both(c, m)[i] ==> #[trigger] either(c, m)[j],
{
    let lo = both(c, m);
    let hi = either(c, m);
    assert forall|p: int, q: int, r: int, t: int| !#[trigger] zigzag(lo, p, q, r, t) by {
        if zigzag(lo, p, q, r, t) {
            assert(!zigzag(c, p, q, r, t));
            assert(!zigzag(c, q, r, t, p + m));
            assert(!zigzag(c, p + m, q + m, r + m, t + m));
            assert(!zigzag(c, p, q + m, r + m, t + m));
            assert(!zigzag(c, p, q, r, t + m));
            assert(!zigzag(c, r, t, p + m, q + m));
        }
    }
    assert forall|p: int, q: int, r: int, t: int| !#[trigger] zigzag(hi, p, q, r, t) by {
        if zigzag(hi, p, q, r, t) {
            assert(!zigzag(c, p, q, r, t));
            assert(!zigzag(c, q, r, t, p + m));
            assert(!zigzag(c, p + m, q + m, r + m, t + m));
            assert(!zigzag(c, p, q + m, r + m, t + m));
            assert(!zigzag(c, p, q, r, t + m));
            assert(!zigzag(c, r, t, p + m, q + m));
        }
    }
    assert forall|i: int, j: int| 0 <= i < m && 0 <= j < m && #[trigger] lo[i] implies #[trigger] hi[j] by {
        if !hi[j] {
            if i < j {
                assert(!zigzag(c, i, j, i + m, j + m));
            } else {
                assert(!zigzag(c, j, i, j + m, i + m));
            }
        }
    }
}

/// Marks that only rise up to position `m` and only fall from there on are bitonic.
pub proof fn lemma_rise_fall_marks(c: Seq<bool>, m: int)
    requires
        0 <= m <= c.len(),
        forall|i: int, j: int| 0 <= i < j < m && c[i] ==> c[j],
        forall|i: int, j: int| m <= i < j < c.len() && c[j] ==> c[i],
    ensures
        bitonic_marks(c),
{
    assert forall|p: int, q: int, r: int, t: int| !#[trigger] zigzag(c, p, q, r, t) by {
        if zigzag(c, p, q, r, t) {
            if c[p] {
                assert(q >= m);
                assert(c[r] ==> c[q]);
            } else {
                assert(r >= m);
                assert(c[t] ==> c[r]);
            }
        }
    }
}

/// Marks that only fall up to position `m` and only rise from there on are bitonic.
pub proof fn lemma_fall_rise_marks(c: Seq<bool>, m: int)
    requires
        0 <= m <= c.len(),
        forall|i: int, j: int| 0 <= i < j < m && c[j] ==> c[i],
        forall|i: int, j: int| m <= i < j < c.len() && c[i] ==> c[j],
    ensures
        bitonic_marks(c),
{
    assert forall|p: int, q: int, r: int, t: int| !#[trigger] zigzag(c, p, q, r, t) by {
        if zigzag(c, p, q, r, t) {
            if c[p] {
                assert(r >= m);
                assert(c[r] ==> c[t]);
            } else {
                assert(q >= m);
                assert(c[q] ==> c[r]);
            }
        }
    }
}

/// Bitonic marks stay bitonic when read from another position on.
pub proof fn lemma_rotated_marks(c: Seq<bool>, k: int)
    requires
        0 <= k <= c.len(),
        bitonic_marks(c),
    ensures
        bitonic_marks(rotated(c, k)),
{
    let turned = rotated(c, k);
    let n = c.len() as int;
    assert forall|p: int, q: int, r: int, t: int| !#[trigger] zigzag(turned, p, q, r, t) by {
        if zigzag(turned, p, q, r, t) {
            // where each of the four stood before the turn
            let p0 = if p + k < n { p + k } else { p + k - n };
            let q0 = if q + k < n { q + k } else { q + k - n };
            let r0 = if r + k < n { r + k } else { r + k - n };
            let t0 = if t + k < n { t + k } else { t + k - n };
            assert(turned[p] == c[p0] && turned[q] == c[q0] && turned[r] == c[r0] && turned[t] == c[t0]);
            // those that wrapped around now come first, in the same cyclic order
            assert(!zigzag(c, p0, q0, r0, t0));
            assert(!zigzag(c, t0, p0, q0, r0));
            assert(!zigzag(c, r0, t0, p0, q0));
            assert(!zigzag(c, q0, r0, t0, p0));
        }
    }
}

} // verus!
