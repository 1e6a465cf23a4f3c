//! Ranking measurements by duration, fastest first.
//!
//! A ranking is a sequence of positions into the list of durations. It is
//! built by insertion: each position in turn goes behind every position
//! already ranked whose duration is not longer. Equal durations therefore
//! keep the order in which they came.
use vstd::prelude::*;

verus! {

/// Where, in a ranking, a new duration `d` goes: behind the last entry whose
/// duration is at most `d`.
pub open spec fn slot(durations: Seq<u64>, ranking: Seq<usize>, d: u64) -> int
    decreases ranking.len(),
{
    if ranking.len() == 0 {
        0
    } else if durations[ranking.last() as int] <= d {
        ranking.len() as int
    } else {
        slot(durations, ranking.drop_last(), d)
    }
}

/// The ranking of the first `n` positions.
pub open spec fn ranking_of_first(durations: Seq<u64>, n: nat) -> Seq<usize>
    decreases n,
{
    if n == 0 {
        Seq::empty()
    } else {
        let rest = ranking_of_first(durations, (n - 1) as nat);
        rest.insert(slot(durations, rest, durations[n - 1]), (n - 1) as usize)
    }
}

/// The ranking of all positions: fastest first, ties in the order in which they came.
pub open spec fn ranking(durations: Seq<u64>) -> Seq<usize> {
    ranking_of_first(durations, durations.len())
}

/// Position `a` comes before position `b`: it is faster, or as fast and earlier.
pub open spec fn precedes(durations: Seq<u64>, a: int, b: int) -> bool {
    durations[a] < durations[b] || (durations[a] == durations[b] && a < b)
}

/// `ranking` lists each of the first `n` positions once, each before all
/// those that it precedes.
pub open spec fn is_ranking_of_first(durations: Seq<u64>, n: nat, ranking: Seq<usize>) -> bool {
    &&& ranking.len() == n
    &&& forall|i: int| 0 <= i < ranking.len() ==> 0 <= #[trigger] ranking[i] < n
    &&& forall|p: usize| p < n ==> #[trigger] ranking.contains(p)
    &&& forall|i: int, j: int|
        0 <= i < j < ranking.len() ==> precedes(
            durations,
            #[trigger] ranking[i] as int,
            #[trigger] ranking[j] as int,
        )
}

/// The slot splits a sorted ranking: before it no duration is longer than
/// `d`, from it on every duration is.
proof fn lemma_slot_splits(durations: Seq<u64>, n: nat, ranking: Seq<usize>, d: u64)
    requires
        n <= durations.len(),
        is_ranking_of_first(durations, n, ranking),
    ensures
        0 <= slot(durations, ranking, d) <= ranking.len(),
        forall|i: int|
            0 <= i < slot(durations, ranking, d) ==> durations[#[trigger] ranking[i] as int] <= d,
        forall|i: int|
            slot(durations, ranking, d) <= i < ranking.len() ==> durations[#[trigger] ranking[i] as int]
                > d,
{
    lemma_slot_of_prefix(durations, ranking, ranking.len() as int, d);
    assert(ranking.take(ranking.len() as int) =~= ranking);
}

/// The same, said of each prefix of the ranking, which is what the
/// induction needs.
proof fn lemma_slot_of_prefix(durations: Seq<u64>, ranking: Seq<usize>, len: int, d: u64)
    requires
        0 <= len <= ranking.len(),
        forall|i: int| 0 <= i < ranking.len() ==> 0 <= #[trigger] ranking[i] < durations.len(),
        forall|i: int, j: int|
            0 <= i < j < ranking.len() ==> precedes(
                durations,
                #[trigger] ranking[i] as int,
                #[trigger] ranking[j] as int,
            ),
    ensures
        0 <= slot(durations, ranking.take(len), d) <= len,
        forall|i: int|
            0 <= i < slot(durations, ranking.take(len), d) ==> durations[#[trigger] ranking[i] as int]
                <= d,
        forall|i: int|
            slot(durations, ranking.take(len), d) <= i < len ==> durations[#[trigger] ranking[i] as int]
                > d,
    decreases len,
{
    let prefix = ranking.take(len);
    if len > 0 {
        assert(prefix.last() == ranking[len - 1]);
        assert(prefix.drop_last() =~= ranking.take(len - 1));
        if durations[ranking[len - 1] as int] <= d {
            assert forall|i: int| 0 <= i < len implies durations[#[trigger] ranking[i] as int]
                <= d by {
                if i < len - 1 {
                    assert(precedes(durations, ranking[i] as int, ranking[len - 1] as int));
                }
            }
        } else {
            lemma_slot_of_prefix(durations, ranking, len - 1, d);
        }
    }
}

/// The ranking lists every position once, fastest first, and keeps equal
/// durations in the order in which they came.
pub proof fn lemma_ranking_of_first(durations: Seq<u64>, n: nat)
    requires
        n <= durations.len() <= usize::MAX,
    ensures
        is_ranking_of_first(durations, n, ranking_of_first(durations, n)),
    decreases n,
{
    if n > 0 {
        let m = (n - 1) as nat;
        let rest = ranking_of_first(durations, m);
        let d = durations[n - 1];
        let s = slot(durations, rest, d);
        let whole = ranking_of_first(durations, n);
        lemma_ranking_of_first(durations, m);
        lemma_slot_splits(durations, m, rest, d);
        assert(whole == rest.insert(s, m as usize));
        assert forall|p: usize| p < n implies #[trigger] whole.contains(p) by {
            if p < m {
                assert(rest.contains(p));
                let at = choose|at: int| 0 <= at < rest.len() && rest[at] == p;
                if at < s {
                    assert(whole[at] == p);
                } else {
                    assert(whole[at + 1] == p);
                }
            } else {
                assert(whole[s] == p);
            }
        }
        assert forall|i: int, j: int| 0 <= i < j < whole.len() implies precedes(
            durations,
            #[trigger] whole[i] as int,
            #[trigger] whole[j] as int,
        ) by {
            if j < s {
                assert(whole[i] == rest[i] && whole[j] == rest[j]);
            } else if j == s {
                assert(whole[i] == rest[i]);
            } else if i < s {
                assert(whole[i] == rest[i] && whole[j] == rest[j - 1]);
            } else if i == s {
                assert(whole[j] == rest[j - 1]);
            } else {
                assert(whole[i] == rest[i - 1] && whole[j] == rest[j - 1]);
            }
        }
    }
}

/// The ranking of a whole list: every position once, each before all those
/// that it precedes.
pub proof fn lemma_ranking(durations: Seq<u64>)
    requires
        durations.len() <= usize::MAX,
    ensures
        is_ranking_of_first(durations, durations.len(), ranking(durations)),
{
    lemma_ranking_of_first(durations, durations.len());
}

/// Ranks the positions of `durations`, fastest first. Equal durations keep
/// the order in which they came.
pub fn fastest_first(durations: &[u64]) -> (order: Vec<usize>)
    ensures
        order@ == ranking(durations@),
        is_ranking_of_first(durations@, durations@.len(), order@),
{
    let mut order: Vec<usize> = Vec::new();
    let mut n: usize = 0;
    while n < durations.len()
        invariant
            n <= durations.len(),
            order@ == ranking_of_first(durations@, n as nat),
            order.len() == n,
            forall|i: int| 0 <= i < order.len() ==> 0 <= #[trigger] order@[i] < n,
        decreases durations.len() - n,
    {
        let d = durations[n];
        let mut j: usize = order.len();
        assert(order@.take(j as int) =~= order@);
        while j > 0 && durations[order[j - 1]] > d
            invariant
                0 <= j <= order.len(),
                order.len() == n,
                n < durations.len(),
                forall|i: int| 0 <= i < order.len() ==> 0 <= #[trigger] order@[i] < n,
                slot(durations@, order@, d) == slot(durations@, order@.take(j as int), d),
            decreases j,
        {
            assert(order@.take(j as int).drop_last() =~= order@.take(j - 1));
            j -= 1;
        }
        proof {
            let prefix = order@.take(j as int);
            if j > 0 {
                assert(prefix.last() == order@[j - 1]);
            }
            assert(slot(durations@, prefix, d) == j);
        }
        order.insert(j, n);
        n += 1;
    }
    proof {
        lemma_ranking(durations@);
    }
    order
}

} // verus!
