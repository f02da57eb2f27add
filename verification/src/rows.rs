//! Sums over row vectors, shared by the planners and their proofs.
use vstd::prelude::*;

verus! {

/// Sum of every entry of a row vector.
pub open spec fn total(r: Seq<usize>) -> int
    decreases r.len(),
{
    if r.len() == 0 {
        0
    } else {
        total(r.drop_last()) + r.last()
    }
}

/// Replacing one entry changes the sum by the difference.
pub proof fn lemma_total_update(r: Seq<usize>, i: int, v: usize)
    requires
        0 <= i < r.len(),
    ensures
        total(r.update(i, v)) == total(r) - r[i] + v,
    decreases r.len(),
{
    if i == r.len() - 1 {
        assert(r.update(i, v).drop_last() =~= r.drop_last());
    } else {
        lemma_total_update(r.drop_last(), i, v);
        assert(r.update(i, v).drop_last() =~= r.drop_last().update(i, v));
    }
}

/// A vector of zeros sums to zero.
pub proof fn lemma_total_zero(r: Seq<usize>)
    requires
        forall|i: int| 0 <= i < r.len() ==> r[i] == 0,
    ensures
        total(r) == 0,
    decreases r.len(),
{
    if r.len() > 0 {
        lemma_total_zero(r.drop_last());
    }
}

/// The sum is at least every single entry and never negative.
pub proof fn lemma_total_bounds(r: Seq<usize>, i: int)
    requires
        0 <= i < r.len(),
    ensures
        total(r) >= r[i],
    decreases r.len(),
{
    lemma_total_nonneg(r);
    if i < r.len() - 1 {
        lemma_total_bounds(r.drop_last(), i);
    } else {
        lemma_total_nonneg(r.drop_last());
    }
}

pub proof fn lemma_total_nonneg(r: Seq<usize>)
    ensures
        total(r) >= 0,
    decreases r.len(),
{
    if r.len() > 0 {
        lemma_total_nonneg(r.drop_last());
    }
}

/// Entry-wise comparison of two vectors carries over to their sums.
pub proof fn lemma_total_le(a: Seq<usize>, b: Seq<usize>)
    requires
        a.len() == b.len(),
        forall|i: int| 0 <= i < a.len() ==> a[i] <= b[i],
    ensures
        total(a) <= total(b),
        total(a) == total(b) ==> a =~= b,
    decreases a.len(),
{
    if a.len() > 0 {
        lemma_total_le(a.drop_last(), b.drop_last());
        if total(a) == total(b) {
            assert(a.drop_last() =~= b.drop_last());
            assert(a =~= a.drop_last().push(a.last()));
            assert(b =~= b.drop_last().push(b.last()));
        }
    }
}

} // verus!
