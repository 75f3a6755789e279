//! Centrality scores from traversals.

use vstd::prelude::*;
use crate::error::CentralityError;
use crate::graph::{closed, Graph};
use crate::paths::{
    distance, is_distance, lemma_distance_is, lemma_inflow_positive, lemma_inflow_raise,
    lemma_occurrences_positive, lemma_order_of_neighbours, lemma_source_distance,
    lemma_walks_unfold, occurrences, same_edges, shortest_path_count, walk_counts, walks,
};
use crate::traversal::Traversal;

verus! {

/// What node `t` adds to the centrality of `source`: the number of shortest
/// paths to it, if it is another node at distance one, and nothing
/// otherwise.
pub open spec fn contribution(adjacency: Seq<Seq<usize>>, source: int, t: int) -> nat {
    if t != source && distance(adjacency, source, t) == Some(1nat) {
        shortest_path_count(adjacency, source, t)
    } else {
        0
    }
}

/// The sum of the contributions of the nodes below `upto`.
pub open spec fn contributions(adjacency: Seq<Seq<usize>>, source: int, upto: nat) -> nat
    decreases upto,
{
    if upto == 0 {
        0
    } else {
        contributions(adjacency, source, (upto - 1) as nat) + contribution(
            adjacency,
            source,
            upto - 1,
        )
    }
}

/// The centrality score of `source`: the sum, over the other nodes at
/// distance one from it, of the numbers of shortest paths to them.
pub open spec fn centrality(adjacency: Seq<Seq<usize>>, source: int) -> nat {
    contributions(adjacency, source, adjacency.len())
}

/// Whether no node has more shortest paths from any source than a count
/// can hold.
pub open spec fn counts_fit(adjacency: Seq<Seq<usize>>) -> bool {
    forall|s: int, t: int|
        0 <= s < adjacency.len() && 0 <= t < adjacency.len() ==> #[trigger] shortest_path_count(
            adjacency,
            s,
            t,
        ) <= u32::MAX
}

/// How many entries of `row` are below `upto`, counted node by node.
spec fn entries_below(row: Seq<usize>, upto: nat) -> nat
    decreases upto,
{
    if upto == 0 {
        0
    } else {
        entries_below(row, (upto - 1) as nat) + occurrences(row, upto - 1)
    }
}

/// One more entry in a row is one more entry below `upto`, if the entry is
/// below `upto`.
proof fn lemma_entries_below_push(row: Seq<usize>, upto: nat)
    requires
        row.len() > 0,
    ensures
        entries_below(row, upto) == entries_below(row.drop_last(), upto) + if row.last() < upto {
            1nat
        } else {
            0nat
        },
    decreases upto,
{
    if upto > 0 {
        lemma_entries_below_push(row, (upto - 1) as nat);
    }
}

/// A row whose entries are all below `upto` has as many entries below
/// `upto` as it is long.
proof fn lemma_entries_below_all(row: Seq<usize>, upto: nat)
    requires
        forall|k: int| 0 <= k < row.len() ==> row[k] < upto,
    ensures
        entries_below(row, upto) == row.len(),
    decreases row.len(),
{
    if row.len() == 0 {
        lemma_entries_below_none(row, upto);
    } else {
        let front = row.drop_last();
        assert forall|k: int| 0 <= k < front.len() implies front[k] < upto by {
            assert(front[k] == row[k]);
        }
        lemma_entries_below_all(front, upto);
        lemma_entries_below_push(row, upto);
        assert(row.last() == row[row.len() - 1]);
    }
}

/// An empty row has no entries.
proof fn lemma_entries_below_none(row: Seq<usize>, upto: nat)
    requires
        row.len() == 0,
    ensures
        entries_below(row, upto) == 0,
    decreases upto,
{
    if upto > 0 {
        lemma_entries_below_none(row, (upto - 1) as nat);
    }
}

/// Counting fewer nodes counts fewer entries.
proof fn lemma_entries_below_grows(row: Seq<usize>, lower: nat, upper: nat)
    requires
        lower <= upper,
    ensures
        entries_below(row, lower) <= entries_below(row, upper),
    decreases upper,
{
    if lower < upper {
        lemma_entries_below_grows(row, lower, (upper - 1) as nat);
    }
}

/// The walks of one edge from `source` to `t` are the edges from `source`
/// to `t`.
pub proof fn lemma_walks_of_one_edge(adjacency: Seq<Seq<usize>>, source: int, t: int)
    requires
        0 <= source < adjacency.len(),
        0 <= t < adjacency.len(),
    ensures
        walks(adjacency, source, t, 1) == occurrences(adjacency[source], t),
{
    let n = adjacency.len();
    let start = walk_counts(adjacency, source, 0);
    let nothing = Seq::new(n, |v: int| 0nat);
    lemma_walks_unfold(adjacency, source, t, 0);
    lemma_inflow_positive(adjacency, nothing, t, n);
    lemma_inflow_raise(adjacency, nothing, start, t, n, source, 1);
    assert(1 * occurrences(adjacency[source], t) == occurrences(adjacency[source], t))
        by (nonlinear_arith);
}

/// Another node adds to the centrality of `source` one for each edge that
/// leads from `source` to it.
pub proof fn lemma_contribution_is_edges(adjacency: Seq<Seq<usize>>, source: int, t: int)
    requires
        0 <= source < adjacency.len(),
        0 <= t < adjacency.len(),
    ensures
        contribution(adjacency, source, t) == if t == source {
            0nat
        } else {
            occurrences(adjacency[source], t)
        },
{
    if t != source {
        lemma_walks_of_one_edge(adjacency, source, t);
        lemma_walks_unfold(adjacency, source, t, 0);
        lemma_distance_is(adjacency, source, t);
        if occurrences(adjacency[source], t) > 0 {
            assert(is_distance(adjacency, source, t, 1)) by {
                assert forall|shorter: nat| shorter < 1 implies walks(
                    adjacency,
                    source,
                    t,
                    shorter,
                ) == 0 by {
                    assert(shorter == 0);
                }
            }
        } else {
            assert(!is_distance(adjacency, source, t, 1));
        }
    }
}

/// The contributions of the nodes below `upto` are the edges from `source`
/// to those nodes, but for the edges to `source` itself.
proof fn lemma_contributions_are_edges(adjacency: Seq<Seq<usize>>, source: int, upto: nat)
    requires
        0 <= source < adjacency.len(),
        upto <= adjacency.len(),
    ensures
        contributions(adjacency, source, upto) == entries_below(adjacency[source], upto) - if source
            < upto {
            occurrences(adjacency[source], source)
        } else {
            0nat
        },
    decreases upto,
{
    if upto > 0 {
        lemma_contributions_are_edges(adjacency, source, (upto - 1) as nat);
        lemma_contribution_is_edges(adjacency, source, upto - 1);
    }
}

/// The centrality of a node is the number of edges that leave it for
/// another node, parallel edges counted each.
pub proof fn lemma_centrality_is_out_degree(adjacency: Seq<Seq<usize>>, source: int)
    requires
        closed(adjacency),
        0 <= source < adjacency.len(),
    ensures
        centrality(adjacency, source) == adjacency[source].len() - occurrences(
            adjacency[source],
            source,
        ),
        0 <= centrality(adjacency, source) <= adjacency[source].len(),
{
    lemma_contributions_are_edges(adjacency, source, adjacency.len());
    lemma_entries_below_all(adjacency[source], adjacency.len());
    lemma_occurrences_positive(adjacency[source], source);
}

/// A centrality score is never negative.
pub proof fn lemma_centrality_not_negative(adjacency: Seq<Seq<usize>>, source: int)
    ensures
        centrality(adjacency, source) >= 0,
{
}

/// The order of the neighbour lists does not change a centrality score.
pub proof fn lemma_centrality_ignores_order(a: Seq<Seq<usize>>, b: Seq<Seq<usize>>, source: int)
    requires
        same_edges(a, b),
    ensures
        centrality(a, source) == centrality(b, source),
{
    lemma_contributions_ignore_order(a, b, source, a.len());
}

/// The order of the neighbour lists does not change what the nodes below
/// `upto` add to a centrality score.
proof fn lemma_contributions_ignore_order(
    a: Seq<Seq<usize>>,
    b: Seq<Seq<usize>>,
    source: int,
    upto: nat,
)
    requires
        same_edges(a, b),
    ensures
        contributions(a, source, upto) == contributions(b, source, upto),
    decreases upto,
{
    if upto > 0 {
        lemma_contributions_ignore_order(a, b, source, (upto - 1) as nat);
        lemma_order_of_neighbours(a, b, source, upto - 1);
    }
}

impl Graph {
    /// Adds up what a finished traversal gives its source: for every other
    /// node one step further from the source than the source itself, the
    /// number of shortest paths to it, divided by the number of shortest
    /// paths to the source, which is one.
    pub fn source_score(graph: &Graph, found: &Traversal) -> (score: u64)
        requires
            graph.adjacency_wf(),
            found.describes(graph.adjacency()),
        ensures
            score == centrality(graph.adjacency(), found.source as int),
            score == graph.adjacency()[found.source as int].len() - occurrences(
                graph.adjacency()[found.source as int],
                found.source as int,
            ),
    {
        let n = graph.node_count;
        let s = found.source;
        let ghost adj = graph.adjacency();
        proof {
            lemma_source_distance(adj, s as int);
            lemma_centrality_is_out_degree(adj, s as int);
            assert(found.distance@[s as int] == Some(0usize));
            assert(found.num_paths@[s as int] == 1);
        }
        let next = found.distance[s].unwrap() + 1;
        let own = found.num_paths[s];
        let mut score: u64 = 0;
        let mut t: usize = 0;
        while t < n
            invariant
                0 <= t <= n,
                n == adj.len(),
                adj == graph.adjacency(),
                s == found.source,
                s < n,
                next == 1,
                own == 1,
                found.describes(adj),
                score == contributions(adj, s as int, t as nat),
                closed(adj),
            decreases n - t,
        {
            proof {
                lemma_contributions_are_edges(adj, s as int, (t + 1) as nat);
                lemma_entries_below_grows(adj[s as int], (t + 1) as nat, n as nat);
                lemma_entries_below_all(adj[s as int], n as nat);
                assert(found.num_paths@[t as int] == shortest_path_count(adj, s as int, t as int));
                assert(contributions(adj, s as int, (t + 1) as nat) <= adj[s as int].len());
                assert(adj[s as int].len() == graph.outeredges@[s as int].len());
                assert(adj[s as int].len() <= u64::MAX);
                assert(match found.distance@[t as int] {
                    Some(d) => distance(adj, s as int, t as int) == Some(d as nat),
                    None => distance(adj, s as int, t as int) is None,
                });
            }
            if s != t {
                match found.distance[t] {
                    Some(d) => {
                        if d == next {
                            proof {
                                assert(contributions(adj, s as int, (t + 1) as nat)
                                    == contributions(adj, s as int, t as nat) + contribution(
                                    adj,
                                    s as int,
                                    t as int,
                                ));
                                assert(contribution(adj, s as int, t as int)
                                    == found.num_paths@[t as int]);
                            }
                            score = score + (found.num_paths[t] / own) as u64;
                        }
                    },
                    None => {},
                }
            }
            t += 1;
        }
        score
    }

    /// The centrality score of one node: a traversal from it, and the sum
    /// over what the traversal found.
    ///
    /// Fails when, and only when, the traversal does: when some node has
    /// more shortest paths from `source` than `u32::MAX`.
    pub fn source_centrality(graph: &Graph, source: usize) -> (result: Result<u64, CentralityError>)
        requires
            graph.adjacency_wf(),
            source < graph.node_count,
        ensures
            result is Ok <==> forall|t: int|
                0 <= t < graph.node_count ==> #[trigger] shortest_path_count(
                    graph.adjacency(),
                    source as int,
                    t,
                ) <= u32::MAX,
            match result {
                Ok(score) => score == centrality(graph.adjacency(), source as int),
                Err(e) => e == CentralityError::PathCountOverflow,
            },
    {
        match Graph::traverse(graph, source) {
            Ok(found) => Ok(Graph::source_score(graph, &found)),
            Err(e) => Err(e),
        }
    }

    /// The centrality score of every node, by node number.
    ///
    /// Fails when, and only when, some node has more shortest paths from
    /// some source than `u32::MAX`.
    pub fn compute_centralities(graph: &Graph) -> (result: Result<Vec<u64>, CentralityError>)
        requires
            graph.adjacency_wf(),
        ensures
            result is Ok <==> counts_fit(graph.adjacency()),
            match result {
                Ok(scores) => scores@.len() == graph.node_count && forall|s: int|
                    0 <= s < graph.node_count ==> #[trigger] scores@[s] == centrality(
                        graph.adjacency(),
                        s,
                    ),
                Err(e) => e == CentralityError::PathCountOverflow,
            },
    {
        let n = graph.node_count;
        let ghost adj = graph.adjacency();
        let mut scores: Vec<u64> = Vec::new();
        let mut s: usize = 0;
        while s < n
            invariant
                0 <= s <= n,
                n == graph.node_count,
                adj == graph.adjacency(),
                graph.adjacency_wf(),
                scores@.len() == s,
                forall|k: int| 0 <= k < s ==> #[trigger] scores@[k] == centrality(adj, k),
                forall|k: int, t: int|
                    0 <= k < s && 0 <= t < n ==> #[trigger] shortest_path_count(adj, k, t)
                        <= u32::MAX,
            decreases n - s,
        {
            match Graph::source_centrality(graph, s) {
                Ok(score) => {
                    scores.push(score);
                },
                Err(e) => {
                    return Err(e);
                },
            }
            s += 1;
        }
        Ok(scores)
    }
}

} // verus!
