//! Ordering scored guesses from the most words ruled out to the fewest.
use vstd::prelude::*;

verus! {

/// Whether the guess at index `a` ranks before the one at index `b`: it rules out more
/// words, or as many and comes first.
pub open spec fn ranks_before(totals: Seq<u32>, a: int, b: int) -> bool {
    totals[a] > totals[b] || (totals[a] == totals[b] && a < b)
}

/// The indices of `totals` ordered from the highest total to the lowest; equal totals
/// keep the order of their indices.
pub fn rank_by_total(totals: &Vec<u32>) -> (order: Vec<usize>)
    ensures
        order@.len() == totals@.len(),
        forall|i: int| 0 <= i < order@.len() ==> #[trigger] order@[i] < totals@.len(),
        forall|i: int, j: int|
            0 <= i < j < order@.len() ==> ranks_before(totals@, #[trigger] order@[i] as int, #[trigger] order@[j] as int),
        forall|i: int, j: int|
            0 <= i < j < order@.len() ==> totals@[#[trigger] order@[i] as int] as int >= totals@[#[trigger] order@[j] as int] as int,
        forall|i: int, j: int|
            0 <= i < j < order@.len() && totals@[#[trigger] order@[i] as int] == totals@[#[trigger] order@[j] as int]
                ==> order@[i] < order@[j],
{
    let mut order: Vec<usize> = Vec::new();
    let mut k: usize = 0;
    while k < totals.len()
        invariant
            k <= totals@.len(),
            order@.len() == k,
            forall|i: int| 0 <= i < order@.len() ==> #[trigger] order@[i] < k,
            forall|i: int, j: int|
                0 <= i < j < order@.len() ==> ranks_before(totals@, #[trigger] order@[i] as int, #[trigger] order@[j] as int),
        decreases totals@.len() - k,
    {
        let mut p: usize = 0;
        while p < order.len() && !(totals[k] > totals[order[p]])
            invariant
                k < totals@.len(),
                order@.len() == k,
                p <= order@.len(),
                forall|i: int| 0 <= i < order@.len() ==> #[trigger] order@[i] < k,
                forall|i: int| 0 <= i < p ==> ranks_before(totals@, #[trigger] order@[i] as int, k as int),
            decreases order@.len() - p,
        {
            p = p + 1;
        }
        let ghost before = order@;
        order.insert(p, k);
        assert forall|i: int, j: int|
            0 <= i < j < order@.len() implies ranks_before(totals@, #[trigger] order@[i] as int, #[trigger] order@[j] as int) by {
            if j < p {
                assert(order@[i] == before[i] && order@[j] == before[j]);
            } else if j == p {
                assert(order@[i] == before[i]);
            } else if i == p {
                assert(order@[j] == before[j - 1]);
                assert(ranks_before(totals@, k as int, before[p as int] as int));
                if j - 1 > p {
                    assert(ranks_before(totals@, before[p as int] as int, before[j - 1] as int));
                }
            } else if i < p {
                assert(order@[i] == before[i] && order@[j] == before[j - 1]);
                assert(ranks_before(totals@, before[i] as int, before[j - 1] as int));
            } else {
                assert(order@[i] == before[i - 1] && order@[j] == before[j - 1]);
                assert(ranks_before(totals@, before[i - 1] as int, before[j - 1] as int));
            }
        }
        k = k + 1;
    }
    proof {
        assert forall|i: int, j: int| 0 <= i < j < order@.len() implies totals@[#[trigger] order@[i] as int] as int
            >= totals@[#[trigger] order@[j] as int] as int by {
            lemma_ranks_before_orders_totals(totals@, order@[i] as int, order@[j] as int);
        }
    }
    order
}

/// A guess that ranks before another rules out at least as many words, compared as whole
/// numbers, and one with the same total ranks before exactly the guesses after it.
pub proof fn lemma_ranks_before_orders_totals(totals: Seq<u32>, a: int, b: int)
    ensures
        ranks_before(totals, a, b) ==> totals[a] as int >= totals[b] as int,
        ranks_before(totals, a, b) && totals[a] == totals[b] ==> a < b,
        totals[a] as int > totals[b] as int ==> ranks_before(totals, a, b),
        totals[a] == totals[b] && a < b ==> ranks_before(totals, a, b),
{
}

} // verus!
