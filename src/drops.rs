use vstd::prelude::*;

verus! {

/// Sum of a sequence of drop counts.
pub open spec fn drops_total(s: Seq<u64>) -> int
    decreases s.len(),
{
    if s.len() == 0 {
        0
    } else {
        drops_total(s.drop_last()) + s.last() as int
    }
}

/// A sequence of `n` entries, each `amount`.
pub open spec fn uniform(n: nat, amount: u64) -> Seq<u64> {
    Seq::new(n, |_i: int| amount)
}

/// Replacing one entry changes the sum by the difference.
pub proof fn lemma_total_update(s: Seq<u64>, i: int, v: u64)
    requires
        0 <= i < s.len(),
    ensures
        drops_total(s.update(i, v)) == drops_total(s) - s[i] + v,
    decreases s.len(),
{
    let t = s.update(i, v);
    if i == s.len() - 1 {
        assert(t.drop_last() =~= s.drop_last());
    } else {
        lemma_total_update(s.drop_last(), i, v);
        assert(t.drop_last() =~= s.drop_last().update(i, v));
    }
}

/// Every entry is at most the sum.
pub proof fn lemma_entry_le_total(s: Seq<u64>, i: int)
    requires
        0 <= i < s.len(),
    ensures
        s[i] <= drops_total(s),
        drops_total(s) >= 0,
    decreases s.len(),
{
    lemma_total_nonneg(s.drop_last());
    if i < s.len() - 1 {
        lemma_entry_le_total(s.drop_last(), i);
    }
}

/// A sum of drop counts is never negative.
pub proof fn lemma_total_nonneg(s: Seq<u64>)
    ensures
        drops_total(s) >= 0,
    decreases s.len(),
{
    if s.len() > 0 {
        lemma_total_nonneg(s.drop_last());
    }
}

/// A sum of zero means that every entry is zero.
pub proof fn lemma_total_zero(s: Seq<u64>)
    requires
        drops_total(s) == 0,
    ensures
        forall|i: int| 0 <= i < s.len() ==> s[i] == 0,
{
    assert forall|i: int| 0 <= i < s.len() implies s[i] == 0 by {
        lemma_entry_le_total(s, i);
    }
}

/// `n` entries of `amount` sum to `n * amount`.
pub proof fn lemma_total_uniform(n: nat, amount: u64)
    ensures
        drops_total(uniform(n, amount)) == n * amount,
    decreases n,
{
    if n > 0 {
        lemma_total_uniform((n - 1) as nat, amount);
        assert(uniform(n, amount).drop_last() =~= uniform((n - 1) as nat, amount));
        assert(uniform(n, amount).last() == amount);
        assert(n * amount == (n - 1) * amount + amount) by (nonlinear_arith);
    } else {
        assert(n * amount == 0) by (nonlinear_arith)
            requires n == 0;
    }
}

} // verus!
