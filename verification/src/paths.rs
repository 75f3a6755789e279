//! Walks in a graph: how many there are of each length, the distance
//! between two nodes, and the number of shortest paths.

use vstd::prelude::*;

verus! {

/// How often `node` occurs in `row`.
pub open spec fn occurrences(row: Seq<usize>, node: int) -> nat
    decreases row.len(),
{
    if row.len() == 0 {
        0
    } else {
        occurrences(row.drop_last(), node) + if row.last() == node {
            1nat
        } else {
            0nat
        }
    }
}

/// The sum, over the nodes `v` below `upto`, of `weight[v]` times the number
/// of edges from `v` to `target`.
pub open spec fn inflow(adjacency: Seq<Seq<usize>>, weight: Seq<nat>, target: int, upto: nat) -> nat
    decreases upto,
{
    if upto == 0 {
        0
    } else {
        inflow(adjacency, weight, target, (upto - 1) as nat) + weight[upto - 1] * occurrences(
            adjacency[upto - 1],
            target,
        )
    }
}

/// For each node, the number of walks of `length` edges that lead from
/// `source` to it. Parallel edges make different walks.
pub open spec fn walk_counts(adjacency: Seq<Seq<usize>>, source: int, length: nat) -> Seq<nat>
    decreases length,
{
    if length == 0 {
        Seq::new(
            adjacency.len(),
            |v: int|
                if v == source {
                    1nat
                } else {
                    0nat
                },
        )
    } else {
        let shorter = walk_counts(adjacency, source, (length - 1) as nat);
        Seq::new(adjacency.len(), |t: int| inflow(adjacency, shorter, t, adjacency.len()))
    }
}

/// The number of walks of `length` edges from `source` to `target`.
pub open spec fn walks(adjacency: Seq<Seq<usize>>, source: int, target: int, length: nat) -> nat {
    walk_counts(adjacency, source, length)[target]
}

/// Whether `d` is the least number of edges of a walk from `source` to
/// `target`.
pub open spec fn is_distance(adjacency: Seq<Seq<usize>>, source: int, target: int, d: nat) -> bool {
    &&& walks(adjacency, source, target, d) > 0
    &&& forall|shorter: nat| shorter < d ==> walks(adjacency, source, target, shorter) == 0
}

/// Whether some walk leads from `source` to `target`.
pub open spec fn reachable(adjacency: Seq<Seq<usize>>, source: int, target: int) -> bool {
    exists|d: nat| walks(adjacency, source, target, d) > 0
}

/// The number of edges of a shortest walk from `source` to `target`, if
/// there is a walk at all.
pub open spec fn distance(adjacency: Seq<Seq<usize>>, source: int, target: int) -> Option<nat> {
    if reachable(adjacency, source, target) {
        Some(choose|d: nat| is_distance(adjacency, source, target, d))
    } else {
        None
    }
}

/// The number of shortest walks from `source` to `target`; none where
/// `target` cannot be reached.
pub open spec fn shortest_path_count(adjacency: Seq<Seq<usize>>, source: int, target: int) -> nat {
    match distance(adjacency, source, target) {
        Some(d) => walks(adjacency, source, target, d),
        None => 0,
    }
}

/// A row holds `node` as often as its multiset does.
pub proof fn lemma_occurrences_count(row: Seq<usize>, node: usize)
    ensures
        occurrences(row, node as int) == row.to_multiset().count(node),
    decreases row.len(),
{
    broadcast use vstd::seq_lib::group_to_multiset_ensures;
    broadcast use vstd::multiset::group_multiset_axioms;

    if row.len() == 0 {
        assert(row.to_multiset().len() == 0);
    } else {
        lemma_occurrences_count(row.drop_last(), node);
        assert(row =~= row.drop_last().push(row.last()));
        assert(row.to_multiset() =~= row.drop_last().to_multiset().insert(row.last()));
    }
}

/// A node occurs in a row exactly when some position holds it, and never
/// more often than the row is long.
pub proof fn lemma_occurrences_positive(row: Seq<usize>, node: int)
    ensures
        occurrences(row, node) <= row.len(),
        occurrences(row, node) > 0 <==> exists|k: int| 0 <= k < row.len() && row[k] == node,
    decreases row.len(),
{
    if row.len() > 0 {
        let front = row.drop_last();
        lemma_occurrences_positive(front, node);
        if occurrences(row, node) > 0 {
            if row.last() == node {
                assert(row[row.len() - 1] == node);
            } else {
                let k = choose|k: int| 0 <= k < front.len() && front[k] == node;
                assert(row[k] == node);
            }
        }
        if exists|k: int| 0 <= k < row.len() && row[k] == node {
            let k = choose|k: int| 0 <= k < row.len() && row[k] == node;
            if k < front.len() {
                assert(front[k] == node);
            }
        }
    }
}

/// One more position of a row adds one occurrence of what it holds.
pub(crate) proof fn lemma_occurrences_take(row: Seq<usize>, j: int, node: int)
    requires
        0 <= j < row.len(),
    ensures
        occurrences(row.take(j + 1), node) == occurrences(row.take(j), node) + if row[j] == node {
            1nat
        } else {
            0nat
        },
{
    assert(row.take(j + 1).drop_last() =~= row.take(j));
    assert(row.take(j + 1).last() == row[j]);
}

/// The inflow does not depend on weights at or above `upto`.
pub(crate) proof fn lemma_inflow_same(
    adjacency: Seq<Seq<usize>>,
    a: Seq<nat>,
    b: Seq<nat>,
    target: int,
    upto: nat,
)
    requires
        forall|v: int| 0 <= v < upto ==> a[v] == b[v],
    ensures
        inflow(adjacency, a, target, upto) == inflow(adjacency, b, target, upto),
    decreases upto,
{
    if upto > 0 {
        lemma_inflow_same(adjacency, a, b, target, (upto - 1) as nat);
    }
}

/// Larger weights give at least as much inflow.
pub(crate) proof fn lemma_inflow_monotone(
    adjacency: Seq<Seq<usize>>,
    a: Seq<nat>,
    b: Seq<nat>,
    target: int,
    upto: nat,
)
    requires
        forall|v: int| 0 <= v < upto ==> a[v] <= b[v],
    ensures
        inflow(adjacency, a, target, upto) <= inflow(adjacency, b, target, upto),
    decreases upto,
{
    if upto > 0 {
        lemma_inflow_monotone(adjacency, a, b, target, (upto - 1) as nat);
        let x = a[upto - 1];
        let y = b[upto - 1];
        let c = occurrences(adjacency[upto - 1], target);
        assert(x * c <= y * c) by (nonlinear_arith)
            requires
                x <= y,
                c >= 0,
        ;
    }
}

/// Raising the weight of one node `v` by `extra` raises the inflow by
/// `extra` for each edge from `v` to the target.
pub(crate) proof fn lemma_inflow_raise(
    adjacency: Seq<Seq<usize>>,
    a: Seq<nat>,
    b: Seq<nat>,
    target: int,
    upto: nat,
    v: int,
    extra: nat,
)
    requires
        0 <= v < upto,
        b[v] == a[v] + extra,
        forall|w: int| 0 <= w < upto && w != v ==> a[w] == b[w],
    ensures
        inflow(adjacency, b, target, upto) == inflow(adjacency, a, target, upto) + extra
            * occurrences(adjacency[v], target),
    decreases upto,
{
    let c = occurrences(adjacency[upto - 1], target);
    if v == upto - 1 {
        lemma_inflow_same(adjacency, a, b, target, (upto - 1) as nat);
        let x = a[v];
        assert((x + extra) * c == x * c + extra * c) by (nonlinear_arith);
    } else {
        lemma_inflow_raise(adjacency, a, b, target, (upto - 1) as nat, v, extra);
    }
}

/// The inflow is positive exactly when some node below `upto` has a
/// positive weight and an edge to the target; and it is at least the share
/// of each single node.
pub(crate) proof fn lemma_inflow_positive(
    adjacency: Seq<Seq<usize>>,
    weight: Seq<nat>,
    target: int,
    upto: nat,
)
    ensures
        inflow(adjacency, weight, target, upto) > 0 <==> exists|v: int|
            0 <= v < upto && weight[v] > 0 && occurrences(#[trigger] adjacency[v], target) > 0,
        forall|v: int|
            0 <= v < upto ==> inflow(adjacency, weight, target, upto) >= weight[v] * occurrences(
                #[trigger] adjacency[v],
                target,
            ),
    decreases upto,
{
    if upto > 0 {
        let below = (upto - 1) as nat;
        lemma_inflow_positive(adjacency, weight, target, below);
        let x = weight[upto - 1];
        let c = occurrences(adjacency[upto - 1], target);
        assert(x * c >= 0) by (nonlinear_arith)
            requires
                x >= 0,
                c >= 0,
        ;
        assert((x * c > 0) <==> (x > 0 && c > 0)) by (nonlinear_arith)
            requires
                x >= 0,
                c >= 0,
        ;
        if inflow(adjacency, weight, target, upto) > 0 {
            if x * c > 0 {
                assert(weight[upto - 1] > 0 && occurrences(adjacency[upto - 1], target) > 0);
            } else {
                let v = choose|v: int|
                    0 <= v < below && weight[v] > 0 && occurrences(
                        #[trigger] adjacency[v],
                        target,
                    ) > 0;
                assert(0 <= v < upto && weight[v] > 0 && occurrences(adjacency[v], target) > 0);
            }
        }
        if exists|v: int|
            0 <= v < upto && weight[v] > 0 && occurrences(#[trigger] adjacency[v], target) > 0 {
            let v = choose|v: int|
                0 <= v < upto && weight[v] > 0 && occurrences(#[trigger] adjacency[v], target) > 0;
            if v < below {
                assert(inflow(adjacency, weight, target, below) > 0);
            }
        }
        assert forall|v: int| 0 <= v < upto implies inflow(adjacency, weight, target, upto)
            >= weight[v] * occurrences(#[trigger] adjacency[v], target) by {
            if v < below {
                assert(inflow(adjacency, weight, target, below) >= weight[v] * occurrences(
                    adjacency[v],
                    target,
                ));
            }
        }
    }
}

/// Walks are counted node by node: there are as many counts as nodes, and
/// a longer walk is a shorter one followed by an edge.
pub(crate) proof fn lemma_walks_unfold(adjacency: Seq<Seq<usize>>, source: int, target: int, length: nat)
    requires
        0 <= target < adjacency.len(),
    ensures
        walk_counts(adjacency, source, length).len() == adjacency.len(),
        walks(adjacency, source, target, 0) == if target == source {
            1nat
        } else {
            0nat
        },
        walks(adjacency, source, target, length + 1) == inflow(
            adjacency,
            walk_counts(adjacency, source, length),
            target,
            adjacency.len(),
        ),
{
    assert(walk_counts(adjacency, source, (length + 1) as nat) == Seq::new(
        adjacency.len(),
        |t: int| inflow(adjacency, walk_counts(adjacency, source, length), t, adjacency.len()),
    ));
}

/// A walk to `via` extends along every edge from `via` to `target`.
pub(crate) proof fn lemma_walk_extends(
    adjacency: Seq<Seq<usize>>,
    source: int,
    via: int,
    target: int,
    length: nat,
)
    requires
        0 <= via < adjacency.len(),
        0 <= target < adjacency.len(),
    ensures
        walks(adjacency, source, target, length + 1) >= walks(adjacency, source, via, length)
            * occurrences(adjacency[via], target),
        walks(adjacency, source, via, length) > 0 && occurrences(adjacency[via], target) > 0
            ==> walks(adjacency, source, target, length + 1) > 0,
{
    lemma_walks_unfold(adjacency, source, target, length);
    lemma_inflow_positive(
        adjacency,
        walk_counts(adjacency, source, length),
        target,
        adjacency.len(),
    );
    let x = walks(adjacency, source, via, length);
    let c = occurrences(adjacency[via], target);
    assert(x > 0 && c > 0 ==> x * c > 0) by (nonlinear_arith);
}

/// A walk of at least one edge ends with an edge from some node that a
/// walk one edge shorter reaches.
pub(crate) proof fn lemma_walk_last_edge(adjacency: Seq<Seq<usize>>, source: int, target: int, length: nat)
    requires
        0 <= target < adjacency.len(),
        walks(adjacency, source, target, length + 1) > 0,
    ensures
        exists|via: int|
            0 <= via < adjacency.len() && walks(adjacency, source, via, length) > 0 && occurrences(
                #[trigger] adjacency[via],
                target,
            ) > 0,
{
    lemma_walks_unfold(adjacency, source, target, length);
    lemma_inflow_positive(
        adjacency,
        walk_counts(adjacency, source, length),
        target,
        adjacency.len(),
    );
}

/// Among the lengths of walks to a reachable node, at most `bound`, one
/// is least.
proof fn lemma_least_length(adjacency: Seq<Seq<usize>>, source: int, target: int, bound: nat)
    requires
        walks(adjacency, source, target, bound) > 0,
    ensures
        exists|d: nat| d <= bound && is_distance(adjacency, source, target, d),
    decreases bound,
{
    if exists|shorter: nat| shorter < bound && walks(adjacency, source, target, shorter) > 0 {
        let shorter = choose|shorter: nat|
            shorter < bound && walks(adjacency, source, target, shorter) > 0;
        lemma_least_length(adjacency, source, target, shorter);
        let d = choose|d: nat| d <= shorter && is_distance(adjacency, source, target, d);
        assert(d <= bound && is_distance(adjacency, source, target, d));
    } else {
        assert(is_distance(adjacency, source, target, bound));
    }
}

/// A node has at most one distance from the source.
pub proof fn lemma_distance_unique(
    adjacency: Seq<Seq<usize>>,
    source: int,
    target: int,
    d: nat,
    e: nat,
)
    requires
        is_distance(adjacency, source, target, d),
        is_distance(adjacency, source, target, e),
    ensures
        d == e,
{
}

/// `distance` is `Some(d)` exactly when `d` is the least length of a walk,
/// and `None` exactly when no walk of any length exists.
pub proof fn lemma_distance_is(adjacency: Seq<Seq<usize>>, source: int, target: int)
    ensures
        forall|d: nat|
            distance(adjacency, source, target) == Some(d) <==> #[trigger] is_distance(
                adjacency,
                source,
                target,
                d,
            ),
        distance(adjacency, source, target) is None <==> forall|d: nat| #[trigger]
            walks(adjacency, source, target, d) == 0,
{
    if reachable(adjacency, source, target) {
        let some = choose|d: nat| walks(adjacency, source, target, d) > 0;
        lemma_least_length(adjacency, source, target, some);
        let least = choose|d: nat| is_distance(adjacency, source, target, d);
        assert(is_distance(adjacency, source, target, least));
        assert forall|d: nat| #[trigger]
            is_distance(adjacency, source, target, d) implies distance(adjacency, source, target)
            == Some(d) by {
            lemma_distance_unique(adjacency, source, target, d, least);
        }
    } else {
        assert forall|d: nat| #[trigger] walks(adjacency, source, target, d) == 0 by {}
    }
}

/// A walk of `length` edges shows that the distance is at most `length`.
pub(crate) proof fn lemma_distance_at_most(
    adjacency: Seq<Seq<usize>>,
    source: int,
    target: int,
    length: nat,
)
    requires
        walks(adjacency, source, target, length) > 0,
    ensures
        distance(adjacency, source, target) is Some,
        distance(adjacency, source, target)->0 <= length,
        is_distance(adjacency, source, target, distance(adjacency, source, target)->0),
{
    lemma_least_length(adjacency, source, target, length);
    lemma_distance_is(adjacency, source, target);
}

/// The source is at distance 0 from itself, by exactly one walk, and no
/// other node is at distance 0.
pub proof fn lemma_source_distance(adjacency: Seq<Seq<usize>>, source: int)
    requires
        0 <= source < adjacency.len(),
    ensures
        distance(adjacency, source, source) == Some(0nat),
        shortest_path_count(adjacency, source, source) == 1,
        forall|t: int|
            0 <= t < adjacency.len() && #[trigger] is_distance(adjacency, source, t, 0) ==> t
                == source,
{
    lemma_walks_unfold(adjacency, source, source, 0);
    assert(is_distance(adjacency, source, source, 0));
    lemma_distance_is(adjacency, source, source);
    assert forall|t: int|
        0 <= t < adjacency.len() && #[trigger] is_distance(adjacency, source, t, 0) implies t
        == source by {
        lemma_walks_unfold(adjacency, source, t, 0);
    }
}

/// An edge raises the distance by at most one: a neighbour of a node at
/// distance `d` is at some distance not above `d + 1`.
pub proof fn lemma_distance_along_edge(
    adjacency: Seq<Seq<usize>>,
    source: int,
    via: int,
    target: int,
    d: nat,
)
    requires
        0 <= via < adjacency.len(),
        0 <= target < adjacency.len(),
        is_distance(adjacency, source, via, d),
        occurrences(adjacency[via], target) > 0,
    ensures
        exists|e: nat| e <= d + 1 && is_distance(adjacency, source, target, e),
{
    lemma_walk_extends(adjacency, source, via, target, d);
    lemma_least_length(adjacency, source, target, d + 1);
}

/// A node at distance `d + 1` has an edge from some node at distance `d`.
pub proof fn lemma_distance_predecessor(
    adjacency: Seq<Seq<usize>>,
    source: int,
    target: int,
    d: nat,
)
    requires
        0 <= target < adjacency.len(),
        is_distance(adjacency, source, target, d + 1),
    ensures
        exists|via: int|
            0 <= via < adjacency.len() && is_distance(adjacency, source, via, d) && occurrences(
                #[trigger] adjacency[via],
                target,
            ) > 0,
{
    lemma_walk_last_edge(adjacency, source, target, d);
    let via = choose|via: int|
        0 <= via < adjacency.len() && walks(adjacency, source, via, d) > 0 && occurrences(
            #[trigger] adjacency[via],
            target,
        ) > 0;
    lemma_walk_share(adjacency, source, via, target, d);
    let x = walks(adjacency, source, via, d);
    let c = occurrences(adjacency[via], target);
    assert(x * c > 0) by (nonlinear_arith)
        requires
            x > 0,
            c > 0,
    ;
}

/// Of the walks of `d` edges, only those to nodes at distance `d` extend
/// to a node at distance `d + 1`.
pub(crate) proof fn lemma_walk_share(
    adjacency: Seq<Seq<usize>>,
    source: int,
    via: int,
    target: int,
    d: nat,
)
    requires
        0 <= via < adjacency.len(),
        0 <= target < adjacency.len(),
        is_distance(adjacency, source, target, d + 1),
    ensures
        is_distance(adjacency, source, via, d) || walks(adjacency, source, via, d) * occurrences(
            adjacency[via],
            target,
        ) == 0,
{
    let x = walks(adjacency, source, via, d);
    let c = occurrences(adjacency[via], target);
    if x > 0 && c > 0 {
        if !is_distance(adjacency, source, via, d) {
            let shorter = choose|shorter: nat|
                shorter < d && walks(adjacency, source, via, shorter) != 0;
            lemma_walk_extends(adjacency, source, via, target, shorter);
            assert(walks(adjacency, source, target, shorter + 1) > 0);
            assert(false);
        }
    } else {
        assert(x * c == 0) by (nonlinear_arith)
            requires
                x == 0 || c == 0,
        ;
    }
}

/// Whether two graphs have the same nodes and, between each two nodes, the
/// same number of edges: the neighbour lists of one are those of the other
/// in some order.
pub open spec fn same_edges(a: Seq<Seq<usize>>, b: Seq<Seq<usize>>) -> bool {
    &&& a.len() == b.len()
    &&& forall|v: int, t: int|
        0 <= v < a.len() && 0 <= t < a.len() ==> #[trigger] occurrences(a[v], t) == occurrences(
            b[v],
            t,
        )
}

/// The inflow depends on the neighbour lists only through the numbers of
/// edges.
proof fn lemma_inflow_same_edges(
    a: Seq<Seq<usize>>,
    b: Seq<Seq<usize>>,
    weight: Seq<nat>,
    target: int,
    upto: nat,
)
    requires
        same_edges(a, b),
        0 <= target < a.len(),
        upto <= a.len(),
    ensures
        inflow(a, weight, target, upto) == inflow(b, weight, target, upto),
    decreases upto,
{
    if upto > 0 {
        lemma_inflow_same_edges(a, b, weight, target, (upto - 1) as nat);
        assert(occurrences(a[upto - 1], target) == occurrences(b[upto - 1], target));
    }
}

/// The numbers of walks depend on the neighbour lists only through the
/// numbers of edges.
proof fn lemma_walk_counts_same_edges(
    a: Seq<Seq<usize>>,
    b: Seq<Seq<usize>>,
    source: int,
    length: nat,
)
    requires
        same_edges(a, b),
    ensures
        walk_counts(a, source, length) == walk_counts(b, source, length),
    decreases length,
{
    if length == 0 {
        assert(walk_counts(a, source, 0) =~= walk_counts(b, source, 0));
    } else {
        let shorter = (length - 1) as nat;
        lemma_walk_counts_same_edges(a, b, source, shorter);
        let w = walk_counts(a, source, shorter);
        assert forall|t: int| 0 <= t < a.len() implies inflow(a, w, t, a.len()) == inflow(
            b,
            w,
            t,
            b.len(),
        ) by {
            lemma_inflow_same_edges(a, b, w, t, a.len());
        }
        assert(walk_counts(a, source, length) =~= walk_counts(b, source, length));
    }
}

/// The order of the neighbour lists changes neither a distance nor a
/// number of shortest paths: both depend only on how many edges lead from
/// each node to each other.
pub proof fn lemma_order_of_neighbours(
    a: Seq<Seq<usize>>,
    b: Seq<Seq<usize>>,
    source: int,
    target: int,
)
    requires
        same_edges(a, b),
    ensures
        distance(a, source, target) == distance(b, source, target),
        shortest_path_count(a, source, target) == shortest_path_count(b, source, target),
{
    assert forall|d: nat| walks(a, source, target, d) == walks(b, source, target, d) by {
        lemma_walk_counts_same_edges(a, b, source, d);
    }
    lemma_distance_is(a, source, target);
    lemma_distance_is(b, source, target);
    match distance(a, source, target) {
        Some(d) => {
            assert(is_distance(a, source, target, d));
            assert(is_distance(b, source, target, d));
        },
        None => {
            assert forall|d: nat| #[trigger] walks(b, source, target, d) == 0 by {
                assert(walks(a, source, target, d) == 0);
            }
        },
    }
}

} // verus!
