//! Finite sums over sequences of integers, with the facts the engine needs.
use vstd::prelude::*;

verus! {

/// The sum of the entries of `s`.
pub open spec fn sum(s: Seq<int>) -> int
    decreases s.len(),
{
    if s.len() == 0 {
        0
    } else {
        sum(s.drop_last()) + s.last()
    }
}

/// Adding the next entry to the sum of a prefix.
pub proof fn lemma_sum_take_next(s: Seq<int>, i: int)
    requires
        0 <= i < s.len(),
    ensures
        sum(s.take(i + 1)) == sum(s.take(i)) + s[i],
{
    assert(s.take(i + 1).drop_last() =~= s.take(i));
}

/// Entries in `[0, b]` give a sum in `[0, len * b]`.
pub proof fn lemma_sum_bounds(s: Seq<int>, b: int)
    requires
        forall|i: int| 0 <= i < s.len() ==> 0 <= #[trigger] s[i] <= b,
    ensures
        0 <= sum(s) <= s.len() * b,
    decreases s.len(),
{
    if s.len() > 0 {
        lemma_sum_bounds(s.drop_last(), b);
        assert(s.len() * b == (s.len() - 1) * b + b) by (nonlinear_arith);
    }
}

/// Non-negative entries give a non-negative sum.
pub proof fn lemma_sum_nonneg(s: Seq<int>)
    requires
        forall|i: int| 0 <= i < s.len() ==> 0 <= #[trigger] s[i],
    ensures
        0 <= sum(s),
    decreases s.len(),
{
    if s.len() > 0 {
        lemma_sum_nonneg(s.drop_last());
    }
}

/// A prefix of non-negative entries sums to at most the whole.
pub proof fn lemma_sum_prefix_le(s: Seq<int>, i: int)
    requires
        0 <= i <= s.len(),
        forall|j: int| 0 <= j < s.len() ==> 0 <= #[trigger] s[j],
    ensures
        0 <= sum(s.take(i)) <= sum(s),
    decreases s.len() - i,
{
    if i == s.len() {
        assert(s.take(i) =~= s);
        lemma_sum_nonneg(s);
    } else {
        lemma_sum_prefix_le(s, i + 1);
        lemma_sum_take_next(s, i);
        lemma_sum_nonneg(s.take(i));
    }
}

/// Changing one entry changes the sum by the difference.
pub proof fn lemma_sum_update(s: Seq<int>, i: int, v: int)
    requires
        0 <= i < s.len(),
    ensures
        sum(s.update(i, v)) == sum(s) - s[i] + v,
    decreases s.len(),
{
    let t = s.update(i, v);
    if i == s.len() - 1 {
        assert(t.drop_last() =~= s.drop_last());
    } else {
        assert(t.drop_last() =~= s.drop_last().update(i, v));
        lemma_sum_update(s.drop_last(), i, v);
    }
}

/// With non-negative entries, each entry is at most the sum.
pub proof fn lemma_sum_entry_le(s: Seq<int>, i: int)
    requires
        0 <= i < s.len(),
        forall|j: int| 0 <= j < s.len() ==> 0 <= #[trigger] s[j],
    ensures
        s[i] <= sum(s),
{
    lemma_sum_update(s, i, 0);
    lemma_sum_nonneg(s.update(i, 0));
}

/// A sum scaled by a constant is the sum of the scaled entries.
pub proof fn lemma_sum_scale(s: Seq<int>, k: int)
    ensures
        sum(Seq::new(s.len(), |i: int| k * s[i])) == k * sum(s),
    decreases s.len(),
{
    let t = Seq::new(s.len(), |i: int| k * s[i]);
    if s.len() > 0 {
        lemma_sum_scale(s.drop_last(), k);
        assert(t.drop_last() =~= Seq::new(s.drop_last().len(), |i: int| k * s.drop_last()[i]));
        let a = sum(s.drop_last());
        let b = s.last();
        assert(k * (a + b) == k * a + k * b) by (nonlinear_arith);
    }
}

/// Entrywise `s[i] <= t[i]` gives `sum(s) <= sum(t)`.
pub proof fn lemma_sum_mono(s: Seq<int>, t: Seq<int>)
    requires
        s.len() == t.len(),
        forall|i: int| 0 <= i < s.len() ==> s[i] <= t[i],
    ensures
        sum(s) <= sum(t),
    decreases s.len(),
{
    if s.len() > 0 {
        lemma_sum_mono(s.drop_last(), t.drop_last());
    }
}

/// The sum of entrywise sums is the sum of the two sums.
pub proof fn lemma_sum_add(a: spec_fn(int) -> int, b: spec_fn(int) -> int, len: nat)
    ensures
        sum(Seq::new(len, |j: int| a(j) + b(j))) == sum(Seq::new(len, a)) + sum(Seq::new(len, b)),
    decreases len,
{
    if len > 0 {
        lemma_sum_add(a, b, (len - 1) as nat);
        assert(Seq::new(len, |j: int| a(j) + b(j)).drop_last() =~= Seq::new((len - 1) as nat, |j: int| a(j) + b(j)));
        assert(Seq::new(len, a).drop_last() =~= Seq::new((len - 1) as nat, a));
        assert(Seq::new(len, b).drop_last() =~= Seq::new((len - 1) as nat, b));
    }
}

/// A double sum may be taken in either order.
pub proof fn lemma_sum_swap(f: spec_fn(int, int) -> int, rows: nat, cols: nat)
    ensures
        sum(Seq::new(rows, |i: int| sum(Seq::new(cols, |j: int| f(i, j))))) == sum(
            Seq::new(cols, |j: int| sum(Seq::new(rows, |i: int| f(i, j)))),
        ),
    decreases rows,
{
    if rows == 0 {
        lemma_sum_bounds(Seq::new(cols, |j: int| sum(Seq::new(rows, |i: int| f(i, j)))), 0);
    } else {
        let r = (rows - 1) as nat;
        lemma_sum_swap(f, r, cols);
        assert(Seq::new(rows, |i: int| sum(Seq::new(cols, |j: int| f(i, j)))).drop_last() =~= Seq::new(
            r,
            |i: int| sum(Seq::new(cols, |j: int| f(i, j))),
        ));
        let a = |j: int| sum(Seq::new(r, |i: int| f(i, j)));
        let b = |j: int| f(r as int, j);
        let full = |j: int| sum(Seq::new(rows, |i: int| f(i, j)));
        assert forall|j: int| 0 <= j < cols implies #[trigger] full(j) == a(j) + b(j) by {
            assert(Seq::new(rows, |i: int| f(i, j)).drop_last() =~= Seq::new(r, |i: int| f(i, j)));
        }
        assert(Seq::new(cols, |j: int| sum(Seq::new(rows, |i: int| f(i, j)))) =~= Seq::new(cols, full));
        assert(Seq::new(cols, full) =~= Seq::new(cols, |j: int| a(j) + b(j)));
        lemma_sum_add(a, b, cols);
        assert(Seq::new(cols, |j: int| f(r as int, j)) =~= Seq::new(cols, b));
    }
}

} // verus!
