//! Counting in contracts: counters that wrap around, and sums over the
//! entries of an arena.

use vstd::prelude::*;

verus! {

/// One more than `n`, starting again at zero after the largest value.
pub open spec fn next_count(n: u32) -> u32 {
    if n == u32::MAX {
        0
    } else {
        (n + 1) as u32
    }
}

/// The counter `n` after `k` more counts.
pub open spec fn advance(n: u32, k: nat) -> u32
    decreases k,
{
    if k == 0 {
        n
    } else {
        next_count(advance(n, (k - 1) as nat))
    }
}

/// No count leaves a counter as it is, and one count is the next value.
pub proof fn lemma_advance_one(n: u32)
    ensures
        advance(n, 0) == n,
        advance(n, 1) == next_count(n),
{
    reveal_with_fuel(advance, 2);
}

/// Counting `a` times and then `b` times is counting `a + b` times.
pub proof fn lemma_advance_add(n: u32, a: nat, b: nat)
    ensures
        advance(n, a + b) == advance(advance(n, a), b),
    decreases b,
{
    if b > 0 {
        lemma_advance_add(n, a, (b - 1) as nat);
        assert(a + b - 1 == a + (b - 1));
    }
}

/// A counter that does not wrap around counts as the natural numbers do.
pub proof fn lemma_advance_small(n: u32, k: nat)
    requires
        n + k <= u32::MAX,
    ensures
        advance(n, k) == n + k,
    decreases k,
{
    if k > 0 {
        lemma_advance_small(n, (k - 1) as nat);
    }
}

/// The step of a sum: add what `each` gives for one more key.
pub open spec fn add_each(each: spec_fn(usize) -> nat) -> spec_fn(nat, usize) -> nat {
    |acc: nat, k: usize| acc + each(k)
}

/// The sum of `each(k)` over the keys `k` of `keys`.
pub open spec fn sum_over(keys: Set<usize>, each: spec_fn(usize) -> nat) -> nat {
    keys.fold(0nat, add_each(each))
}

/// The sum over no keys is zero.
pub proof fn lemma_sum_empty(each: spec_fn(usize) -> nat)
    ensures
        sum_over(Set::<usize>::empty(), each) == 0,
{
    vstd::set::fold::lemma_fold_empty(0nat, add_each(each));
}

/// A sum can be split at any of its keys.
pub proof fn lemma_sum_split(keys: Set<usize>, each: spec_fn(usize) -> nat, k: usize)
    requires
        keys.finite(),
        keys.contains(k),
    ensures
        sum_over(keys, each) == sum_over(keys.remove(k), each) + each(k),
{
    let f = add_each(each);
    assert(vstd::set::fold::is_fun_commutative(f)) by {
        assert forall|a1: usize, a2: usize, b: nat| #[trigger] f(f(b, a2), a1) == f(f(b, a1), a2) by {}
    }
    vstd::set::fold::lemma_fold_insert(keys.remove(k), 0nat, f, k);
    assert(keys.remove(k).insert(k) =~= keys);
}

/// A sum grows by what a new key adds.
pub proof fn lemma_sum_insert(keys: Set<usize>, each: spec_fn(usize) -> nat, k: usize)
    requires
        keys.finite(),
        !keys.contains(k),
    ensures
        sum_over(keys.insert(k), each) == sum_over(keys, each) + each(k),
{
    lemma_sum_split(keys.insert(k), each, k);
    assert(keys.insert(k).remove(k) =~= keys);
}

/// Two sums over the same keys are equal when every key adds the same.
pub proof fn lemma_sum_same(
    keys: Set<usize>,
    each: spec_fn(usize) -> nat,
    other: spec_fn(usize) -> nat,
)
    requires
        keys.finite(),
        forall|k: usize| keys.contains(k) ==> #[trigger] each(k) == other(k),
    ensures
        sum_over(keys, each) == sum_over(keys, other),
    decreases keys.len(),
{
    if keys.len() == 0 {
        assert(keys =~= Set::<usize>::empty());
        lemma_sum_empty(each);
        lemma_sum_empty(other);
    } else {
        let k = keys.choose();
        lemma_sum_split(keys, each, k);
        lemma_sum_split(keys, other, k);
        lemma_sum_same(keys.remove(k), each, other);
    }
}

/// A sum changes by what changes at the one key that adds something else.
pub proof fn lemma_sum_change(
    keys: Set<usize>,
    each: spec_fn(usize) -> nat,
    other: spec_fn(usize) -> nat,
    k: usize,
)
    requires
        keys.finite(),
        keys.contains(k),
        forall|k2: usize| keys.contains(k2) && k2 != k ==> #[trigger] each(k2) == other(k2),
    ensures
        sum_over(keys, other) + each(k) == sum_over(keys, each) + other(k),
{
    lemma_sum_split(keys, each, k);
    lemma_sum_split(keys, other, k);
    lemma_sum_same(keys.remove(k), each, other);
}

/// A sum of terms of at most `bound` is at most `bound` times the number
/// of keys.
pub proof fn lemma_sum_at_most(keys: Set<usize>, each: spec_fn(usize) -> nat, bound: nat)
    requires
        keys.finite(),
        forall|k: usize| keys.contains(k) ==> #[trigger] each(k) <= bound,
    ensures
        sum_over(keys, each) <= bound * keys.len(),
    decreases keys.len(),
{
    if keys.len() == 0 {
        assert(keys =~= Set::<usize>::empty());
        lemma_sum_empty(each);
    } else {
        let k = keys.choose();
        lemma_sum_split(keys, each, k);
        lemma_sum_at_most(keys.remove(k), each, bound);
        assert(bound * (keys.len() - 1) + bound == bound * keys.len()) by (nonlinear_arith);
    }
}

} // verus!
