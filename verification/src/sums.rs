//! Sums of integer sequences, used to account for how many operations of each
//! job have been placed and how much processing time they contribute.
use vstd::prelude::*;

verus! {

/// Sum of a sequence of mathematical integers.
pub open spec fn seq_sum(s: Seq<int>) -> int
    decreases s.len(),
{
    if s.len() == 0 {
        0
    } else {
        seq_sum(s.drop_last()) + s.last()
    }
}

pub proof fn lemma_sum_nonneg(s: Seq<int>)
    requires
        forall|i: int| 0 <= i < s.len() ==> s[i] >= 0,
    ensures
        seq_sum(s) >= 0,
    decreases s.len(),
{
    if s.len() > 0 {
        lemma_sum_nonneg(s.drop_last());
    }
}

/// Replacing one element changes the sum by the difference.
pub proof fn lemma_sum_update(s: Seq<int>, i: int, v: int)
    requires
        0 <= i < s.len(),
    ensures
        seq_sum(s.update(i, v)) == seq_sum(s) - s[i] + v,
    decreases s.len(),
{
    if i == s.len() - 1 {
        assert(s.update(i, v).drop_last() =~= s.drop_last());
    } else {
        assert(s.update(i, v).drop_last() =~= s.drop_last().update(i, v));
        lemma_sum_update(s.drop_last(), i, v);
    }
}

pub proof fn lemma_sum_pointwise_le(s: Seq<int>, t: Seq<int>)
    requires
        s.len() == t.len(),
        forall|i: int| 0 <= i < s.len() ==> s[i] <= t[i],
    ensures
        seq_sum(s) <= seq_sum(t),
    decreases s.len(),
{
    if s.len() > 0 {
        lemma_sum_pointwise_le(s.drop_last(), t.drop_last());
    }
}

/// If one sequence is pointwise at most another and the sums agree, the
/// sequences agree everywhere.
pub proof fn lemma_sum_eq_forces_pointwise(s: Seq<int>, t: Seq<int>)
    requires
        s.len() == t.len(),
        forall|i: int| 0 <= i < s.len() ==> s[i] <= t[i],
        seq_sum(s) == seq_sum(t),
    ensures
        forall|i: int| 0 <= i < s.len() ==> s[i] == t[i],
    decreases s.len(),
{
    if s.len() > 0 {
        lemma_sum_pointwise_le(s.drop_last(), t.drop_last());
        assert(s.last() == t.last());
        lemma_sum_eq_forces_pointwise(s.drop_last(), t.drop_last());
        assert forall|i: int| 0 <= i < s.len() implies s[i] == t[i] by {
            if i < s.len() - 1 {
                assert(s.drop_last()[i] == t.drop_last()[i]);
            }
        }
    }
}

/// A pointwise bound that is strict somewhere gives a strictly smaller sum.
pub proof fn lemma_sum_strict(s: Seq<int>, t: Seq<int>, i: int)
    requires
        s.len() == t.len(),
        forall|k: int| 0 <= k < s.len() ==> s[k] <= t[k],
        0 <= i < s.len(),
        s[i] < t[i],
    ensures
        seq_sum(s) < seq_sum(t),
    decreases s.len(),
{
    if i == s.len() - 1 {
        lemma_sum_pointwise_le(s.drop_last(), t.drop_last());
    } else {
        lemma_sum_strict(s.drop_last(), t.drop_last(), i);
    }
}

/// Scaling every element scales the sum.
pub proof fn lemma_sum_scaled(s: Seq<int>, c: int)
    ensures
        seq_sum(s.map_values(|x: int| c * x)) == c * seq_sum(s),
    decreases s.len(),
{
    if s.len() == 0 {
        assert(s.map_values(|x: int| c * x).len() == 0);
    } else {
        lemma_sum_scaled(s.drop_last(), c);
        assert(s.map_values(|x: int| c * x).drop_last()
            =~= s.drop_last().map_values(|x: int| c * x));
        assert(s.map_values(|x: int| c * x).last() == c * s.last());
        assert(c * (seq_sum(s.drop_last()) + s.last())
            == c * seq_sum(s.drop_last()) + c * s.last()) by (nonlinear_arith);
    }
}

/// A prefix of a sequence of non-negative values sums to at most the whole.
pub proof fn lemma_sum_take_le(s: Seq<int>, k: int)
    requires
        0 <= k <= s.len(),
        forall|i: int| 0 <= i < s.len() ==> s[i] >= 0,
    ensures
        seq_sum(s.take(k)) <= seq_sum(s),
    decreases s.len(),
{
    if k == s.len() {
        assert(s.take(k) =~= s);
    } else {
        assert(s.drop_last().take(k) =~= s.take(k));
        lemma_sum_take_le(s.drop_last(), k);
    }
}

/// A sequence bounded pointwise by a constant has sum at most length times
/// that constant.
pub proof fn lemma_sum_const_bound(s: Seq<int>, c: int)
    requires
        forall|i: int| 0 <= i < s.len() ==> s[i] <= c,
        c >= 0,
    ensures
        seq_sum(s) <= s.len() * c,
    decreases s.len(),
{
    if s.len() > 0 {
        lemma_sum_const_bound(s.drop_last(), c);
        assert(s.len() * c == (s.len() - 1) * c + c) by (nonlinear_arith);
    }
}

} // verus!
