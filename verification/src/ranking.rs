//! Ranking of nodes by score.

use vstd::prelude::*;
use crate::error::CentralityError;

verus! {

/// Whether node `a` comes before node `b` in a ranking by `scores`: the
/// higher score first, and of two nodes with the same score the one with
/// the lower number.
pub open spec fn ranks_before(scores: Seq<u64>, a: int, b: int) -> bool {
    scores[a] > scores[b] || (scores[a] == scores[b] && a < b)
}

/// Whether `ranking` lists every node once, each before the nodes that it
/// ranks before.
pub open spec fn is_ranking(scores: Seq<u64>, ranking: Seq<usize>) -> bool {
    &&& ranking.len() == scores.len()
    &&& forall|k: int| 0 <= k < ranking.len() ==> (#[trigger] ranking[k]) < scores.len()
    &&& forall|node: usize| node < scores.len() ==> #[trigger] ranking.contains(node)
    &&& forall|i: int, j: int|
        0 <= i < j < ranking.len() ==> ranks_before(
            scores,
            #[trigger] ranking[i] as int,
            #[trigger] ranking[j] as int,
        )
}

/// Whether `ranking` lists the first `count` nodes once, each before the
/// nodes that it ranks before.
spec fn ranks_first(scores: Seq<u64>, ranking: Seq<usize>, count: int) -> bool {
    &&& ranking.len() == count
    &&& forall|k: int| 0 <= k < ranking.len() ==> (#[trigger] ranking[k]) < count
    &&& forall|node: usize| node < count ==> #[trigger] ranking.contains(node)
    &&& forall|i: int, j: int|
        0 <= i < j < ranking.len() ==> ranks_before(
            scores,
            #[trigger] ranking[i] as int,
            #[trigger] ranking[j] as int,
        )
}

/// Putting the next node where the nodes with a lower score begin keeps a
/// ranking in order.
proof fn lemma_insert_ranks(scores: Seq<u64>, ranking: Seq<usize>, node: usize, position: int)
    requires
        ranks_first(scores, ranking, node as int),
        node < scores.len(),
        0 <= position <= ranking.len(),
        forall|k: int|
            0 <= k < position ==> scores[#[trigger] ranking[k] as int] >= scores[node as int],
        position < ranking.len() ==> scores[ranking[position] as int] < scores[node as int],
    ensures
        ranks_first(scores, ranking.insert(position, node), node + 1),
{
    let longer = ranking.insert(position, node);
    assert forall|k: int| 0 <= k < longer.len() implies (#[trigger] longer[k]) < node + 1 by {
        if k < position {
            assert(longer[k] == ranking[k]);
        } else if k > position {
            assert(longer[k] == ranking[k - 1]);
        }
    }
    assert forall|other: usize| other < node + 1 implies #[trigger] longer.contains(other) by {
        if other == node {
            assert(longer[position] == other);
        } else {
            assert(ranking.contains(other));
            let k = choose|k: int| 0 <= k < ranking.len() && ranking[k] == other;
            if k < position {
                assert(longer[k] == other);
            } else {
                assert(longer[k + 1] == other);
            }
        }
    }
    assert forall|i: int, j: int| 0 <= i < j < longer.len() implies ranks_before(
        scores,
        #[trigger] longer[i] as int,
        #[trigger] longer[j] as int,
    ) by {
        let a = if i < position {
            i
        } else {
            i - 1
        };
        let b = if j < position {
            j
        } else {
            j - 1
        };
        if i == position {
            assert(longer[j] == ranking[b]);
            if b > position {
                assert(ranks_before(scores, ranking[position] as int, ranking[b] as int));
            }
        } else if j == position {
            assert(longer[i] == ranking[a]);
            assert(ranking[a] < node);
        } else {
            assert(longer[i] == ranking[a] && longer[j] == ranking[b]);
            assert(ranks_before(scores, ranking[a] as int, ranking[b] as int));
        }
    }
}

/// Two rankings by the same scores are the same list.
pub proof fn lemma_ranking_unique(scores: Seq<u64>, first: Seq<usize>, second: Seq<usize>)
    requires
        is_ranking(scores, first),
        is_ranking(scores, second),
    ensures
        first == second,
{
    let leq = |a: usize, b: usize| a == b || ranks_before(scores, a as int, b as int);
    assert(vstd::relations::total_ordering(leq));
    assert(vstd::relations::sorted_by(first, leq));
    assert(vstd::relations::sorted_by(second, leq));
    lemma_ranking_members(scores, first);
    lemma_ranking_members(scores, second);
    assert(first.to_multiset() =~= second.to_multiset());
    vstd::seq_lib::lemma_sorted_unique(first, second, leq);
}

/// A ranking holds each node once and nothing else.
proof fn lemma_ranking_members(scores: Seq<u64>, ranking: Seq<usize>)
    requires
        is_ranking(scores, ranking),
    ensures
        forall|node: usize|
            ranking.to_multiset().count(node) == if node < scores.len() {
                1nat
            } else {
                0nat
            },
{
    broadcast use vstd::seq_lib::group_to_multiset_ensures;

    assert(ranking.no_duplicates()) by {
        assert forall|i: int, j: int|
            0 <= i < ranking.len() && 0 <= j < ranking.len() && i != j implies ranking[i]
            != ranking[j] by {
            if i < j {
                assert(ranks_before(scores, ranking[i] as int, ranking[j] as int));
            } else {
                assert(ranks_before(scores, ranking[j] as int, ranking[i] as int));
            }
        }
    }
    ranking.lemma_multiset_has_no_duplicates();
    assert forall|node: usize|
        ranking.to_multiset().count(node) == if node < scores.len() {
            1nat
        } else {
            0nat
        } by {
        if node < scores.len() {
            assert(ranking.contains(node));
            assert(ranking.to_multiset().contains(node));
        } else {
            if ranking.to_multiset().count(node) > 0 {
                assert(ranking.contains(node));
                let k = choose|k: int| 0 <= k < ranking.len() && ranking[k] == node;
                assert(ranking[k] < scores.len());
            }
        }
    }
}

/// Ranks the nodes by score, the highest first; nodes with the same score
/// stay in the order of their numbers.
pub fn rank_nodes(scores: &Vec<u64>) -> (ranking: Vec<usize>)
    ensures
        is_ranking(scores@, ranking@),
{
    let n = scores.len();
    let mut ranking: Vec<usize> = Vec::new();
    let mut node: usize = 0;
    while node < n
        invariant
            0 <= node <= n,
            n == scores@.len(),
            ranks_first(scores@, ranking@, node as int),
        decreases n - node,
    {
        let mut position: usize = 0;
        while position < ranking.len() && scores[ranking[position]] >= scores[node]
            invariant
                0 <= position <= ranking@.len(),
                node < n,
                n == scores@.len(),
                ranks_first(scores@, ranking@, node as int),
                forall|k: int|
                    0 <= k < position ==> scores@[#[trigger] ranking@[k] as int]
                        >= scores@[node as int],
            decreases ranking@.len() - position,
        {
            position += 1;
        }
        proof {
            lemma_insert_ranks(scores@, ranking@, node, position as int);
        }
        ranking.insert(position, node);
        node += 1;
    }
    ranking
}

/// The three nodes with the highest scores, best first, as `rank_nodes`
/// orders them.
///
/// Fails when, and only when, there are fewer than three nodes.
pub fn top_three(scores: &Vec<u64>) -> (result: Result<Vec<usize>, CentralityError>)
    ensures
        result is Ok <==> scores@.len() >= 3,
        match result {
            Ok(top) => exists|ranking: Seq<usize>|
                is_ranking(scores@, ranking) && top@ == #[trigger] ranking.take(3),
            Err(e) => e == CentralityError::InsufficientNodes,
        },
{
    if scores.len() < 3 {
        return Err(CentralityError::InsufficientNodes);
    }
    let ranking = rank_nodes(scores);
    let mut top: Vec<usize> = Vec::new();
    let mut i: usize = 0;
    while i < 3
        invariant
            0 <= i <= 3,
            ranking@.len() >= 3,
            top@ == ranking@.take(i as int),
        decreases 3 - i,
    {
        top.push(ranking[i]);
        proof {
            assert(top@ =~= ranking@.take(i + 1));
        }
        i += 1;
    }
    Ok(top)
}

} // verus!
