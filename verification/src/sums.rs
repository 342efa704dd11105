//! Finite sums over index ranges and index sequences, with the facts the
//! incremental accumulator proofs rest on.
use vstd::prelude::*;

verus! {

/// `h(0) + h(1) + ... + h(n - 1)`.
pub open spec fn range_sum(h: spec_fn(int) -> int, n: int) -> int
    decreases n,
{
    if n <= 0 {
        0
    } else {
        range_sum(h, n - 1) + h(n - 1)
    }
}

/// The sum of `h` over the elements of `t`, in order.
pub open spec fn seq_sum(t: Seq<int>, h: spec_fn(int) -> int) -> int
    decreases t.len(),
{
    if t.len() == 0 {
        0
    } else {
        seq_sum(t.drop_last(), h) + h(t.last())
    }
}

/// Removing one element from a sequence removes its term from the sum.
pub proof fn lemma_seq_sum_remove(t: Seq<int>, i: int, h: spec_fn(int) -> int)
    requires
        0 <= i < t.len(),
    ensures
        seq_sum(t, h) == seq_sum(t.remove(i), h) + h(t[i]),
    decreases t.len(),
{
    if i == t.len() - 1 {
        assert(t.remove(i) =~= t.drop_last());
    } else {
        lemma_seq_sum_remove(t.drop_last(), i, h);
        assert(t.remove(i).drop_last() =~= t.drop_last().remove(i));
        assert(t.remove(i).last() == t.last());
    }
}

/// A range sum equals the sum over any duplicate-free sequence of indices
/// in the range outside of which the summand vanishes.
pub proof fn lemma_range_sum_as_seq_sum(h: spec_fn(int) -> int, n: int, t: Seq<int>)
    requires
        0 <= n,
        t.no_duplicates(),
        forall|j: int| 0 <= j < t.len() ==> 0 <= #[trigger] t[j] < n,
        forall|e: int| 0 <= e < n && !t.contains(e) ==> h(e) == 0,
    ensures
        range_sum(h, n) == seq_sum(t, h),
    decreases n,
{
    if n == 0 {
        if t.len() > 0 {
            assert(0 <= t[0] < n);
        }
        assert(t.len() == 0);
    } else {
        if t.contains(n - 1) {
            let i = choose|i: int| 0 <= i < t.len() && t[i] == n - 1;
            let t2 = t.remove(i);
            lemma_seq_sum_remove(t, i, h);
            assert forall|j: int| 0 <= j < t2.len() implies 0 <= #[trigger] t2[j] < n - 1 by {
                if j < i {
                    assert(t2[j] == t[j]);
                } else {
                    assert(t2[j] == t[j + 1]);
                }
            }
            assert forall|e: int| 0 <= e < n - 1 && !t2.contains(e) implies h(e) == 0 by {
                if t.contains(e) {
                    let k = choose|k: int| 0 <= k < t.len() && t[k] == e;
                    if k < i {
                        assert(t2[k] == e);
                    } else if k > i {
                        assert(t2[k - 1] == e);
                    }
                }
            }
            assert(t2.no_duplicates()) by {
                assert forall|a: int, b: int| 0 <= a < t2.len() && 0 <= b < t2.len() && a != b implies t2[a]
                    != t2[b] by {
                    let a1 = if a < i { a } else { a + 1 };
                    let b1 = if b < i { b } else { b + 1 };
                    assert(t2[a] == t[a1]);
                    assert(t2[b] == t[b1]);
                }
            }
            lemma_range_sum_as_seq_sum(h, n - 1, t2);
        } else {
            assert forall|j: int| 0 <= j < t.len() implies 0 <= #[trigger] t[j] < n - 1 by {
                assert(t[j] != n - 1);
            }
            lemma_range_sum_as_seq_sum(h, n - 1, t);
        }
    }
}

/// A sum of zeros is zero.
pub proof fn lemma_range_sum_zero(h: spec_fn(int) -> int, n: int)
    requires
        forall|k: int| 0 <= k < n ==> #[trigger] h(k) == 0,
    ensures
        range_sum(h, n) == 0,
    decreases n,
{
    if n > 0 {
        lemma_range_sum_zero(h, n - 1);
    }
}

/// A range sum of a difference is the difference of the range sums.
pub proof fn lemma_range_sum_sub(g: spec_fn(int) -> int, f: spec_fn(int) -> int, n: int)
    ensures
        range_sum(|e: int| g(e) - f(e), n) == range_sum(g, n) - range_sum(f, n),
    decreases n,
{
    if n > 0 {
        lemma_range_sum_sub(g, f, n - 1);
    }
}

/// A sequence sum of a difference is the difference of the sequence sums.
pub proof fn lemma_seq_sum_sub(t: Seq<int>, g: spec_fn(int) -> int, f: spec_fn(int) -> int)
    ensures
        seq_sum(t, |e: int| g(e) - f(e)) == seq_sum(t, g) - seq_sum(t, f),
    decreases t.len(),
{
    if t.len() > 0 {
        lemma_seq_sum_sub(t.drop_last(), g, f);
    }
}

/// Summands that agree on the elements of a sequence give equal sums.
pub proof fn lemma_seq_sum_congruent(t: Seq<int>, g: spec_fn(int) -> int, f: spec_fn(int) -> int)
    requires
        forall|j: int| 0 <= j < t.len() ==> g(#[trigger] t[j]) == f(t[j]),
    ensures
        seq_sum(t, g) == seq_sum(t, f),
    decreases t.len(),
{
    if t.len() > 0 {
        lemma_seq_sum_congruent(t.drop_last(), g, f);
        assert(g(t[t.len() - 1]) == f(t[t.len() - 1]));
    }
}

/// The sum over a concatenation is the sum of the sums.
pub proof fn lemma_seq_sum_append(s: Seq<int>, t: Seq<int>, h: spec_fn(int) -> int)
    ensures
        seq_sum(s + t, h) == seq_sum(s, h) + seq_sum(t, h),
    decreases t.len(),
{
    if t.len() == 0 {
        assert(s + t =~= s);
    } else {
        lemma_seq_sum_append(s, t.drop_last(), h);
        assert((s + t).drop_last() =~= s + t.drop_last());
    }
}

/// Appending one element adds its term.
pub proof fn lemma_seq_sum_push(t: Seq<int>, x: int, h: spec_fn(int) -> int)
    ensures
        seq_sum(t.push(x), h) == seq_sum(t, h) + h(x),
{
    assert(t.push(x).drop_last() =~= t);
}

/// The sum over a single element is its term.
pub proof fn lemma_seq_sum_single(x: int, h: spec_fn(int) -> int)
    ensures
        seq_sum(seq![x], h) == h(x),
{
    let t = seq![x];
    assert(t.drop_last() =~= Seq::<int>::empty());
    assert(t.last() == x);
    assert(seq_sum(t.drop_last(), h) == 0);
}

/// Two range sums whose summands differ only at the elements of a
/// duplicate-free sequence differ by the sum of the differences there.
pub proof fn lemma_range_sum_diff(g: spec_fn(int) -> int, f: spec_fn(int) -> int, n: int, t: Seq<int>)
    requires
        0 <= n,
        t.no_duplicates(),
        forall|j: int| 0 <= j < t.len() ==> 0 <= #[trigger] t[j] < n,
        forall|e: int| 0 <= e < n && !t.contains(e) ==> g(e) == f(e),
    ensures
        range_sum(g, n) - range_sum(f, n) == seq_sum(t, g) - seq_sum(t, f),
{
    let d = |e: int| g(e) - f(e);
    lemma_range_sum_sub(g, f, n);
    lemma_range_sum_as_seq_sum(d, n, t);
    lemma_seq_sum_sub(t, g, f);
}


/// A vanishing sum of non-negative terms has only vanishing terms.
pub proof fn lemma_range_sum_zero_terms(h: spec_fn(int) -> int, n: int, k: int)
    requires
        forall|j: int| 0 <= j < n ==> #[trigger] h(j) >= 0,
        range_sum(h, n) == 0,
        0 <= k < n,
    ensures
        h(k) == 0,
    decreases n,
{
    lemma_range_sum_nonneg(h, n - 1);
    if k < n - 1 {
        lemma_range_sum_zero_terms(h, n - 1, k);
    }
}

/// A sum of non-negative terms is non-negative.
pub proof fn lemma_range_sum_nonneg(h: spec_fn(int) -> int, n: int)
    requires
        forall|j: int| 0 <= j < n ==> #[trigger] h(j) >= 0,
    ensures
        range_sum(h, n) >= 0,
    decreases n,
{
    if n > 0 {
        lemma_range_sum_nonneg(h, n - 1);
    }
}

} // verus!
