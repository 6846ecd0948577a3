//! Majorities.

use vstd::prelude::*;

verus! {

/// How many nodes of a cluster make a majority of it, if a node has `peers`
/// peers.
pub open spec fn majority_of(peers: nat) -> nat {
    (1 + peers) / 2 + 1
}

/// How many of the numbers are at least `threshold`.
pub open spec fn count_at_least(numbers: Seq<u64>, threshold: int) -> nat
    decreases numbers.len(),
{
    if numbers.len() == 0 {
        0
    } else {
        count_at_least(numbers.drop_last(), threshold) + (if numbers.last() >= threshold {
            1nat
        } else {
            0nat
        })
    }
}

/// Whether `v` is the greatest number that at least `k` of the numbers reach.
pub open spec fn is_reached_by(numbers: Seq<u64>, k: nat, v: u64) -> bool {
    &&& count_at_least(numbers, v as int) >= k
    &&& count_at_least(numbers, v + 1) < k
}

/// The greatest number that at least `k` of the numbers reach: the `k`-th largest
/// of them.
pub open spec fn reached_by(numbers: Seq<u64>, k: nat) -> u64 {
    choose|v: u64| is_reached_by(numbers, k, v)
}

proof fn lemma_count_falls(numbers: Seq<u64>, low: int, high: int)
    requires
        low <= high,
    ensures
        count_at_least(numbers, high) <= count_at_least(numbers, low) <= numbers.len(),
    decreases numbers.len(),
{
    if numbers.len() > 0 {
        lemma_count_falls(numbers.drop_last(), low, high);
    }
}

proof fn lemma_count_all(numbers: Seq<u64>)
    ensures
        count_at_least(numbers, 0) == numbers.len(),
    decreases numbers.len(),
{
    if numbers.len() > 0 {
        lemma_count_all(numbers.drop_last());
    }
}

/// If some numbers reach `threshold`, the least of them is reached by as many.
proof fn lemma_least_reaching(numbers: Seq<u64>, threshold: int) -> (at: int)
    requires
        count_at_least(numbers, threshold) > 0,
    ensures
        0 <= at < numbers.len(),
        numbers[at] >= threshold,
        count_at_least(numbers, numbers[at] as int) == count_at_least(numbers, threshold),
    decreases numbers.len(),
{
    let rest = numbers.drop_last();
    let last = numbers.last();
    if count_at_least(rest, threshold) == 0 {
        lemma_count_falls(rest, threshold, last as int);
        numbers.len() - 1
    } else {
        let at = lemma_least_reaching(rest, threshold);
        assert(rest[at] == numbers[at]);
        if last >= threshold && last < rest[at] {
            lemma_count_falls(rest, threshold, last as int);
            lemma_count_falls(rest, last as int, rest[at] as int);
            numbers.len() - 1
        } else {
            at
        }
    }
}

/// There is such a number, if there are as many numbers.
pub proof fn lemma_reached_by_exists(numbers: Seq<u64>, k: nat)
    requires
        1 <= k <= numbers.len(),
    ensures
        is_reached_by(numbers, k, reached_by(numbers, k)),
{
    lemma_count_all(numbers);
    lemma_none_above(numbers);
    let v = lemma_search(numbers, k, u64::MAX as int + 1);
    assert(is_reached_by(numbers, k, v));
}

proof fn lemma_none_above(numbers: Seq<u64>)
    ensures
        count_at_least(numbers, u64::MAX + 1) == 0,
    decreases numbers.len(),
{
    if numbers.len() > 0 {
        lemma_none_above(numbers.drop_last());
    }
}

proof fn lemma_search(numbers: Seq<u64>, k: nat, above: int) -> (v: u64)
    requires
        0 < above <= u64::MAX + 1,
        count_at_least(numbers, 0) >= k,
        count_at_least(numbers, above) < k,
    ensures
        is_reached_by(numbers, k, v),
    decreases above,
{
    if count_at_least(numbers, above - 1) >= k {
        (above - 1) as u64
    } else {
        lemma_search(numbers, k, above - 1)
    }
}

/// There is only one such number.
pub proof fn lemma_reached_by_unique(numbers: Seq<u64>, k: nat, v: u64)
    requires
        is_reached_by(numbers, k, v),
    ensures
        reached_by(numbers, k) == v,
{
    let w = reached_by(numbers, k);
    if v < w {
        lemma_count_falls(numbers, v + 1, w as int);
    } else if w < v {
        lemma_count_falls(numbers, w + 1, v as int);
    }
}

fn count_reaching(numbers: &[u64], threshold: u64) -> (n: usize)
    ensures
        n == count_at_least(numbers@, threshold as int),
{
    let mut n: usize = 0;
    let mut i: usize = 0;
    assert(numbers@.take(0) =~= Seq::empty());
    while i < numbers.len()
        invariant
            n <= i <= numbers@.len(),
            n == count_at_least(numbers@.take(i as int), threshold as int),
        decreases numbers@.len() - i,
    {
        assert(numbers@.take(i + 1).drop_last() =~= numbers@.take(i as int));
        if numbers[i] >= threshold {
            n += 1;
        }
        i += 1;
    }
    assert(numbers@.take(i as int) =~= numbers@);
    n
}

/// The greatest number that at least `k` of the numbers reach.
pub fn kth_largest(numbers: &[u64], k: usize) -> (v: u64)
    requires
        1 <= k <= numbers@.len(),
    ensures
        v == reached_by(numbers@, k as nat),
        is_reached_by(numbers@, k as nat, v),
{
    let mut best: u64 = 0;
    let mut i: usize = 0;
    proof {
        lemma_count_all(numbers@);
    }
    while i < numbers.len()
        invariant
            1 <= k <= numbers@.len(),
            i <= numbers@.len(),
            count_at_least(numbers@, best as int) >= k,
            forall|j: int|
                0 <= j < i && count_at_least(numbers@, #[trigger] numbers@[j] as int) >= k
                    ==> numbers@[j] <= best,
        decreases numbers@.len() - i,
    {
        if numbers[i] > best && count_reaching(numbers, numbers[i]) >= k {
            best = numbers[i];
        }
        i += 1;
    }
    proof {
        if count_at_least(numbers@, best + 1) >= k {
            let at = lemma_least_reaching(numbers@, best + 1);
            assert(numbers@[at] <= best);
        }
        lemma_reached_by_unique(numbers@, k as nat, best);
    }
    best
}

/// The positions in `numbers` whose number is at least `threshold`.
pub open spec fn positions_at_least(numbers: Seq<u64>, threshold: int) -> Set<int> {
    Set::new(|i: int| 0 <= i < numbers.len() && numbers[i] >= threshold)
}

/// Counting the numbers that reach a threshold is counting the positions that hold
/// such a number: every position counts once, wherever it is.
pub proof fn law_count_is_of_positions(numbers: Seq<u64>, threshold: int)
    ensures
        positions_at_least(numbers, threshold).finite(),
        positions_at_least(numbers, threshold).len() == count_at_least(numbers, threshold),
    decreases numbers.len(),
{
    let all = positions_at_least(numbers, threshold);
    if numbers.len() == 0 {
        assert(all =~= Set::empty());
    } else {
        let rest = positions_at_least(numbers.drop_last(), threshold);
        let last = numbers.len() - 1;
        law_count_is_of_positions(numbers.drop_last(), threshold);
        if numbers.last() >= threshold {
            assert(all =~= rest.insert(last));
        } else {
            assert(all =~= rest);
        }
    }
}

/// The number that `k` of the numbers reach is the greatest such number: fewer reach
/// any greater one.
pub proof fn law_reached_number_is_the_greatest(numbers: Seq<u64>, k: nat, greater: int)
    requires
        1 <= k <= numbers.len(),
        greater > reached_by(numbers, k),
    ensures
        positions_at_least(numbers, reached_by(numbers, k) as int).len() >= k,
        positions_at_least(numbers, greater).len() < k,
{
    let v = reached_by(numbers, k);
    lemma_reached_by_exists(numbers, k);
    law_count_is_of_positions(numbers, v as int);
    law_count_is_of_positions(numbers, greater);
    lemma_count_falls(numbers, v + 1, greater);
}

/// A majority is the least number of nodes that is more than half of the cluster.
pub proof fn law_majority_is_just_over_half(peers: nat, n: nat)
    ensures
        n >= majority_of(peers) <==> 2 * n > peers + 1,
{
}

/// Any two majorities of a cluster have a node in common: together they are more
/// than the whole.
pub proof fn law_majorities_overlap(peers: nat)
    ensures
        2 * majority_of(peers) > peers + 1,
        1 <= majority_of(peers) <= peers + 1,
{
}

} // verus!
