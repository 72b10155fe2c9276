//! Sums, maxima and minima of sequences, and the effect of the task-moving
//! operations on them. These spec functions are the vocabulary of the
//! crate's contracts; the lemmas are the facts the proofs lean on.

use vstd::prelude::*;
use vstd::seq_lib::group_to_multiset_ensures;
use vstd::multiset::group_multiset_axioms;

verus! {

/// Every duration in the sequence is positive.
pub open spec fn all_pos(s: Seq<i32>) -> bool {
    forall|i: int| 0 <= i < s.len() ==> s[i] >= 1
}

/// Sum of a machine's task durations: its load.
pub open spec fn sum_seq(s: Seq<i32>) -> int
    decreases s.len(),
{
    if s.len() == 0 {
        0
    } else {
        sum_seq(s.drop_last()) + s.last()
    }
}

/// Sum of a sequence of mathematical integers.
pub open spec fn sum_int(s: Seq<int>) -> int
    decreases s.len(),
{
    if s.len() == 0 {
        0
    } else {
        sum_int(s.drop_last()) + s.last()
    }
}

/// Sum of squares: the termination measure of local search.
pub open spec fn sum_sq(s: Seq<int>) -> int
    decreases s.len(),
{
    if s.len() == 0 {
        0
    } else {
        sum_sq(s.drop_last()) + s.last() * s.last()
    }
}

/// Maximum of a sequence of integers (0 for the empty sequence).
pub open spec fn seq_max(s: Seq<int>) -> int
    decreases s.len(),
{
    if s.len() == 0 {
        0
    } else if s.len() == 1 {
        s[0]
    } else if s.last() > seq_max(s.drop_last()) {
        s.last()
    } else {
        seq_max(s.drop_last())
    }
}

/// Minimum of a sequence of integers (0 for the empty sequence).
pub open spec fn seq_min(s: Seq<int>) -> int
    decreases s.len(),
{
    if s.len() == 0 {
        0
    } else if s.len() == 1 {
        s[0]
    } else if s.last() < seq_min(s.drop_last()) {
        s.last()
    } else {
        seq_min(s.drop_last())
    }
}

/// What `Vec::swap_remove` leaves behind: the removed slot is filled with the
/// last element and the last slot is dropped.
pub open spec fn swap_removed(s: Seq<i32>, i: int) -> Seq<i32> {
    s.update(i, s.last()).drop_last()
}

pub proof fn lemma_sum_seq_take_succ(s: Seq<i32>, i: int)
    requires
        0 <= i < s.len(),
    ensures
        sum_seq(s.take(i + 1)) == sum_seq(s.take(i)) + s[i],
{
    assert(s.take(i + 1).drop_last() =~= s.take(i));
    assert(s.take(i + 1).last() == s[i]);
}

pub proof fn lemma_sum_seq_ge_len(s: Seq<i32>)
    requires
        all_pos(s),
    ensures
        sum_seq(s) >= s.len(),
    decreases s.len(),
{
    if s.len() > 0 {
        assert(all_pos(s.drop_last()));
        lemma_sum_seq_ge_len(s.drop_last());
    }
}

/// A prefix sum of positive durations lies between the prefix length and the
/// total.
pub proof fn lemma_sum_seq_take_bounds(s: Seq<i32>, i: int)
    requires
        all_pos(s),
        0 <= i <= s.len(),
    ensures
        i <= sum_seq(s.take(i)),
        sum_seq(s.take(i)) <= sum_seq(s) - (s.len() - i),
    decreases s.len() - i,
{
    assert(all_pos(s.take(i)));
    lemma_sum_seq_ge_len(s.take(i));
    if i < s.len() {
        lemma_sum_seq_take_succ(s, i);
        lemma_sum_seq_take_bounds(s, i + 1);
    } else {
        assert(s.take(i) =~= s);
    }
}

pub proof fn lemma_sum_seq_update(s: Seq<i32>, i: int, v: i32)
    requires
        0 <= i < s.len(),
    ensures
        sum_seq(s.update(i, v)) == sum_seq(s) - s[i] + v,
    decreases s.len(),
{
    if i == s.len() - 1 {
        assert(s.update(i, v).drop_last() =~= s.drop_last());
    } else {
        assert(s.update(i, v).drop_last() =~= s.drop_last().update(i, v));
        lemma_sum_seq_update(s.drop_last(), i, v);
    }
}

pub proof fn lemma_sum_seq_push(s: Seq<i32>, v: i32)
    ensures
        sum_seq(s.push(v)) == sum_seq(s) + v,
        all_pos(s) && v >= 1 ==> all_pos(s.push(v)),
{
    assert(s.push(v).drop_last() =~= s);
    if all_pos(s) && v >= 1 {
        assert forall|j: int| 0 <= j < s.push(v).len() implies s.push(v)[j] >= 1 by {
            if j < s.len() {
                assert(s.push(v)[j] == s[j]);
            }
        }
    }
}

/// How swap-with-last-and-pop removal changes a machine: the load drops by
/// the removed duration, the multiset loses one copy of it, and positivity
/// is preserved.
pub proof fn lemma_swap_removed(s: Seq<i32>, i: int)
    requires
        0 <= i < s.len(),
    ensures
        swap_removed(s, i).len() == s.len() - 1,
        sum_seq(swap_removed(s, i)) == sum_seq(s) - s[i],
        swap_removed(s, i).to_multiset() == s.to_multiset().remove(s[i]),
        all_pos(s) ==> all_pos(swap_removed(s, i)),
{
    broadcast use group_to_multiset_ensures;
    broadcast use group_multiset_axioms;

    let u = s.update(i, s.last());
    lemma_sum_seq_update(s, i, s.last());
    assert(sum_seq(swap_removed(s, i)) == sum_seq(u) - u.last());

    assert(u.drop_last() =~= u.remove(u.len() - 1));
    assert(u.to_multiset() == s.to_multiset().insert(s.last()).remove(s[i]));
    assert(u.remove(u.len() - 1).to_multiset() == u.to_multiset().remove(u.last()));
    assert(s.to_multiset().count(s[i]) > 0);
    assert(swap_removed(s, i).to_multiset() =~= s.to_multiset().remove(s[i]));

    if all_pos(s) {
        assert forall|j: int| 0 <= j < swap_removed(s, i).len() implies swap_removed(s, i)[j] >= 1 by {
            if j == i {
                assert(swap_removed(s, i)[j] == s[s.len() - 1]);
            } else {
                assert(swap_removed(s, i)[j] == s[j]);
            }
        }
    }
}

pub proof fn lemma_sum_int_take_succ(s: Seq<int>, i: int)
    requires
        0 <= i < s.len(),
    ensures
        sum_int(s.take(i + 1)) == sum_int(s.take(i)) + s[i],
{
    assert(s.take(i + 1).drop_last() =~= s.take(i));
    assert(s.take(i + 1).last() == s[i]);
}

/// A prefix sum of non-negative integers lies between 0 and the total.
pub proof fn lemma_sum_int_take_bounds(s: Seq<int>, i: int)
    requires
        forall|j: int| 0 <= j < s.len() ==> s[j] >= 0,
        0 <= i <= s.len(),
    ensures
        0 <= sum_int(s.take(i)),
        sum_int(s.take(i)) <= sum_int(s),
    decreases s.len() - i,
{
    lemma_sum_int_nonneg(s.take(i));
    if i < s.len() {
        lemma_sum_int_take_succ(s, i);
        lemma_sum_int_take_bounds(s, i + 1);
    } else {
        assert(s.take(i) =~= s);
    }
}

pub proof fn lemma_sum_int_nonneg(s: Seq<int>)
    requires
        forall|j: int| 0 <= j < s.len() ==> s[j] >= 0,
    ensures
        sum_int(s) >= 0,
    decreases s.len(),
{
    if s.len() > 0 {
        lemma_sum_int_nonneg(s.drop_last());
    }
}

/// Every element of a non-negative sequence is at most the total.
pub proof fn lemma_sum_int_elem_le(s: Seq<int>, i: int)
    requires
        forall|j: int| 0 <= j < s.len() ==> s[j] >= 0,
        0 <= i < s.len(),
    ensures
        s[i] <= sum_int(s),
{
    lemma_sum_int_take_succ(s, i);
    lemma_sum_int_take_bounds(s, i);
    lemma_sum_int_take_bounds(s, i + 1);
}

pub proof fn lemma_sum_int_update(s: Seq<int>, i: int, v: int)
    requires
        0 <= i < s.len(),
    ensures
        sum_int(s.update(i, v)) == sum_int(s) - s[i] + v,
    decreases s.len(),
{
    if i == s.len() - 1 {
        assert(s.update(i, v).drop_last() =~= s.drop_last());
    } else {
        assert(s.update(i, v).drop_last() =~= s.drop_last().update(i, v));
        lemma_sum_int_update(s.drop_last(), i, v);
    }
}

/// Sums respect a pointwise bound.
pub proof fn lemma_sum_int_pointwise_le(a: Seq<int>, b: Seq<int>)
    requires
        a.len() == b.len(),
        forall|j: int| 0 <= j < a.len() ==> a[j] <= b[j],
    ensures
        sum_int(a) <= sum_int(b),
    decreases a.len(),
{
    if a.len() > 0 {
        lemma_sum_int_pointwise_le(a.drop_last(), b.drop_last());
    }
}

pub proof fn lemma_sum_sq_nonneg(s: Seq<int>)
    ensures
        sum_sq(s) >= 0,
    decreases s.len(),
{
    if s.len() > 0 {
        lemma_sum_sq_nonneg(s.drop_last());
        assert(s.last() * s.last() >= 0) by (nonlinear_arith);
    }
}

pub proof fn lemma_sum_sq_update(s: Seq<int>, i: int, v: int)
    requires
        0 <= i < s.len(),
    ensures
        sum_sq(s.update(i, v)) == sum_sq(s) - s[i] * s[i] + v * v,
    decreases s.len(),
{
    if i == s.len() - 1 {
        assert(s.update(i, v).drop_last() =~= s.drop_last());
    } else {
        assert(s.update(i, v).drop_last() =~= s.drop_last().update(i, v));
        lemma_sum_sq_update(s.drop_last(), i, v);
    }
}

/// For non-negative entries the sum of squares is at most the square of the
/// sum, which bounds the local-search termination measure.
pub proof fn lemma_sum_sq_le_square(s: Seq<int>)
    requires
        forall|j: int| 0 <= j < s.len() ==> s[j] >= 0,
    ensures
        sum_sq(s) <= sum_int(s) * sum_int(s),
    decreases s.len(),
{
    if s.len() > 0 {
        lemma_sum_sq_le_square(s.drop_last());
        lemma_sum_int_nonneg(s.drop_last());
        let a = sum_int(s.drop_last());
        let b = s.last();
        assert(a * a + b * b <= (a + b) * (a + b)) by (nonlinear_arith)
            requires
                a >= 0,
                b >= 0,
        ;
    }
}

pub proof fn lemma_seq_max_ge(s: Seq<int>, i: int)
    requires
        0 <= i < s.len(),
    ensures
        s[i] <= seq_max(s),
    decreases s.len(),
{
    if s.len() > 1 && i < s.len() - 1 {
        lemma_seq_max_ge(s.drop_last(), i);
    }
}

pub proof fn lemma_seq_max_attained(s: Seq<int>)
    requires
        s.len() >= 1,
    ensures
        exists|i: int| 0 <= i < s.len() && s[i] == seq_max(s),
    decreases s.len(),
{
    if s.len() == 1 {
        assert(s[0] == seq_max(s));
    } else if s.last() > seq_max(s.drop_last()) {
        assert(s[s.len() - 1] == seq_max(s));
    } else {
        lemma_seq_max_attained(s.drop_last());
        let j = choose|i: int| 0 <= i < s.drop_last().len() && s.drop_last()[i] == seq_max(
            s.drop_last(),
        );
        assert(s[j] == seq_max(s));
    }
}

/// A value attained by the sequence and at least every element is the
/// maximum.
pub proof fn lemma_seq_max_is(s: Seq<int>, v: int)
    requires
        s.len() >= 1,
        exists|i: int| 0 <= i < s.len() && s[i] == v,
        forall|i: int| 0 <= i < s.len() ==> s[i] <= v,
    ensures
        seq_max(s) == v,
{
    let i = choose|i: int| 0 <= i < s.len() && s[i] == v;
    lemma_seq_max_ge(s, i);
    lemma_seq_max_attained(s);
    let j = choose|j: int| 0 <= j < s.len() && s[j] == seq_max(s);
    assert(s[j] <= v);
}

pub proof fn lemma_seq_min_le(s: Seq<int>, i: int)
    requires
        0 <= i < s.len(),
    ensures
        seq_min(s) <= s[i],
    decreases s.len(),
{
    if s.len() > 1 && i < s.len() - 1 {
        lemma_seq_min_le(s.drop_last(), i);
    }
}

pub proof fn lemma_seq_min_attained(s: Seq<int>)
    requires
        s.len() >= 1,
    ensures
        exists|i: int| 0 <= i < s.len() && s[i] == seq_min(s),
    decreases s.len(),
{
    if s.len() == 1 {
        assert(s[0] == seq_min(s));
    } else if s.last() < seq_min(s.drop_last()) {
        assert(s[s.len() - 1] == seq_min(s));
    } else {
        lemma_seq_min_attained(s.drop_last());
        let j = choose|i: int| 0 <= i < s.drop_last().len() && s.drop_last()[i] == seq_min(
            s.drop_last(),
        );
        assert(s[j] == seq_min(s));
    }
}

/// A value attained by the sequence and at most every element is the
/// minimum.
pub proof fn lemma_seq_min_is(s: Seq<int>, v: int)
    requires
        s.len() >= 1,
        exists|i: int| 0 <= i < s.len() && s[i] == v,
        forall|i: int| 0 <= i < s.len() ==> v <= s[i],
    ensures
        seq_min(s) == v,
{
    let i = choose|i: int| 0 <= i < s.len() && s[i] == v;
    lemma_seq_min_le(s, i);
    lemma_seq_min_attained(s);
    let j = choose|j: int| 0 <= j < s.len() && s[j] == seq_min(s);
    assert(v <= s[j]);
}

} // verus!
