//! Weighted sums over sequences.
//!
//! Both accounting subsystems tie their optimistic ranges to their journal
//! of in-flight transactions through sums of per-row weights; this module
//! holds the sum and the small algebra the proofs need.

use vstd::prelude::*;

verus! {

/// The sum of `w` over the elements of `s`.
pub open spec fn seq_sum<T>(s: Seq<T>, w: spec_fn(T) -> int) -> int
    decreases s.len(),
{
    if s.len() == 0 {
        0
    } else {
        seq_sum(s.drop_last(), w) + w(s.last())
    }
}

/// Appending an element adds its weight to the sum.
pub proof fn lemma_seq_sum_push<T>(s: Seq<T>, w: spec_fn(T) -> int, t: T)
    ensures
        seq_sum(s.push(t), w) == seq_sum(s, w) + w(t),
{
    assert(s.push(t).drop_last() =~= s);
}

/// The sum splits over concatenation.
pub proof fn lemma_seq_sum_split<T>(a: Seq<T>, b: Seq<T>, w: spec_fn(T) -> int)
    ensures
        seq_sum(a + b, w) == seq_sum(a, w) + seq_sum(b, w),
    decreases b.len(),
{
    if b.len() == 0 {
        assert(a + b =~= a);
    } else {
        assert((a + b).drop_last() =~= a + b.drop_last());
        lemma_seq_sum_split(a, b.drop_last(), w);
        assert((a + b).last() == b.last());
    }
}

/// Removing the element at `k` subtracts its weight from the sum.
pub proof fn lemma_seq_sum_remove<T>(s: Seq<T>, k: int, w: spec_fn(T) -> int)
    requires
        0 <= k < s.len(),
    ensures
        seq_sum(s.remove(k), w) == seq_sum(s, w) - w(s[k]),
{
    let a = s.take(k);
    let m = seq![s[k]];
    let b = s.skip(k + 1);
    assert(s =~= a + m + b);
    assert(s.remove(k) =~= a + b);
    lemma_seq_sum_split(a + m, b, w);
    lemma_seq_sum_split(a, m, w);
    lemma_seq_sum_split(a, b, w);
    assert(m.last() == s[k]);
    assert(m.drop_last() =~= Seq::<T>::empty());
    assert(seq_sum(Seq::<T>::empty(), w) == 0);
    assert(seq_sum(m, w) == w(s[k]));
}

/// Inserting an element adds its weight to the sum.
pub proof fn lemma_seq_sum_insert<T>(s: Seq<T>, k: int, t: T, w: spec_fn(T) -> int)
    requires
        0 <= k <= s.len(),
    ensures
        seq_sum(s.insert(k, t), w) == seq_sum(s, w) + w(t),
{
    let a = s.take(k);
    let m = seq![t];
    let b = s.skip(k);
    assert(s =~= a + b);
    assert(s.insert(k, t) =~= a + m + b);
    lemma_seq_sum_split(a + m, b, w);
    lemma_seq_sum_split(a, m, w);
    lemma_seq_sum_split(a, b, w);
    assert(m.last() == t);
    assert(m.drop_last() =~= Seq::<T>::empty());
    assert(seq_sum(Seq::<T>::empty(), w) == 0);
    assert(seq_sum(m, w) == w(t));
}

/// A sum of pointwise-smaller weights is smaller.
pub proof fn lemma_seq_sum_le<T>(s: Seq<T>, w1: spec_fn(T) -> int, w2: spec_fn(T) -> int)
    requires
        forall|i: int| 0 <= i < s.len() ==> w1(#[trigger] s[i]) <= w2(s[i]),
    ensures
        seq_sum(s, w1) <= seq_sum(s, w2),
    decreases s.len(),
{
    if s.len() > 0 {
        assert forall|i: int| 0 <= i < s.drop_last().len() implies w1(
            #[trigger] s.drop_last()[i],
        ) <= w2(s.drop_last()[i]) by {
            assert(s.drop_last()[i] == s[i]);
        }
        lemma_seq_sum_le(s.drop_last(), w1, w2);
        assert(s.last() == s[s.len() - 1]);
    }
}

/// A sum of weights bounded by `[0, c]` lies in `[0, len * c]`.
pub proof fn lemma_seq_sum_bound<T>(s: Seq<T>, w: spec_fn(T) -> int, c: int)
    requires
        forall|i: int| 0 <= i < s.len() ==> 0 <= w(#[trigger] s[i]) <= c,
    ensures
        0 <= seq_sum(s, w) <= s.len() * c,
    decreases s.len(),
{
    if s.len() == 0 {
    } else {
        assert forall|i: int| 0 <= i < s.drop_last().len() implies 0 <= w(
            #[trigger] s.drop_last()[i],
        ) <= c by {
            assert(s.drop_last()[i] == s[i]);
        }
        lemma_seq_sum_bound(s.drop_last(), w, c);
        assert(s.last() == s[s.len() - 1]);
        assert((s.len() - 1) * c + c == s.len() * c) by (nonlinear_arith);
    }
}

/// With every weight zero, the sum vanishes.
pub proof fn lemma_seq_sum_zero<T>(s: Seq<T>, w: spec_fn(T) -> int)
    requires
        forall|i: int| 0 <= i < s.len() ==> w(#[trigger] s[i]) == 0,
    ensures
        seq_sum(s, w) == 0,
{
    lemma_seq_sum_bound(s, w, 0);
    assert(s.len() * 0 == 0) by (nonlinear_arith);
}

/// With nonnegative weights the sum is nonnegative.
pub proof fn lemma_seq_sum_nonneg<T>(s: Seq<T>, w: spec_fn(T) -> int)
    requires
        forall|i: int| 0 <= i < s.len() ==> 0 <= w(#[trigger] s[i]),
    ensures
        seq_sum(s, w) >= 0,
    decreases s.len(),
{
    if s.len() > 0 {
        assert forall|i: int| 0 <= i < s.drop_last().len() implies 0 <= w(
            #[trigger] s.drop_last()[i],
        ) by {
            assert(s.drop_last()[i] == s[i]);
        }
        lemma_seq_sum_nonneg(s.drop_last(), w);
        assert(s.last() == s[s.len() - 1]);
    }
}

/// With nonnegative weights the sum covers any single element.
pub proof fn lemma_seq_sum_ge_elem<T>(s: Seq<T>, k: int, w: spec_fn(T) -> int)
    requires
        0 <= k < s.len(),
        forall|i: int| 0 <= i < s.len() ==> 0 <= w(#[trigger] s[i]),
    ensures
        seq_sum(s, w) >= w(s[k]),
{
    lemma_seq_sum_remove(s, k, w);
    s.remove_ensures(k);
    assert forall|i: int| 0 <= i < s.remove(k).len() implies 0 <= w(#[trigger] s.remove(k)[i]) by {
        if i < k {
            assert(s.remove(k)[i] == s[i]);
        } else {
            assert(s.remove(k)[i] == s[i + 1]);
        }
    }
    lemma_seq_sum_nonneg(s.remove(k), w);
}

} // verus!
