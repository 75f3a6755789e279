//! Breadth-first traversal that counts shortest paths, and the proof that
//! it finds the distances and counts of the model.

use vstd::prelude::*;
use std::collections::VecDeque;
use crate::error::CentralityError;
use crate::graph::{closed, Graph};
use crate::paths::{
    distance, inflow, is_distance, lemma_distance_along_edge, lemma_distance_is,
    lemma_distance_predecessor, lemma_distance_unique, lemma_inflow_monotone,
    lemma_inflow_positive, lemma_inflow_raise, lemma_inflow_same, lemma_occurrences_positive,
    lemma_occurrences_take, lemma_source_distance, lemma_walk_share, lemma_walks_unfold,
    occurrences, shortest_path_count, walk_counts, walks,
};

verus! {

/// Whether `x` is among the first `head` nodes of `order`.
spec fn is_done(order: Seq<usize>, head: int, x: int) -> bool {
    exists|i: int| 0 <= i < head && i < order.len() && #[trigger] order[i] == x
}

/// `weight`, with 0 in place of the weight of every node that is not done.
spec fn masked(weight: Seq<nat>, order: Seq<usize>, head: int) -> Seq<nat> {
    Seq::new(
        weight.len(),
        |x: int|
            if is_done(order, head, x) {
                weight[x]
            } else {
                0nat
            },
    )
}

/// The number of shortest walks to `u` whose last edge leaves a node that
/// is done.
spec fn settled(
    adjacency: Seq<Seq<usize>>,
    source: int,
    order: Seq<usize>,
    head: int,
    u: int,
) -> nat {
    match distance(adjacency, source, u) {
        None => 0,
        Some(d) => if d == 0 {
            1
        } else {
            inflow(
                adjacency,
                masked(walk_counts(adjacency, source, (d - 1) as nat), order, head),
                u,
                adjacency.len(),
            )
        },
    }
}

/// The number of shortest walks to `u` whose last edge is one of `prefix`,
/// a part of the neighbour list of a node at distance `d` with `c` shortest
/// walks.
spec fn pending(
    adjacency: Seq<Seq<usize>>,
    source: int,
    u: int,
    d: nat,
    c: nat,
    prefix: Seq<usize>,
) -> nat {
    if distance(adjacency, source, u) == Some((d + 1) as nat) {
        c * occurrences(prefix, u)
    } else {
        0
    }
}

/// What holds of the nodes found so far, listed in `order` as they were
/// found: each has its true distance, and distances never fall along
/// `order`.
spec fn frontier_ok(
    adjacency: Seq<Seq<usize>>,
    source: int,
    dist: Seq<Option<usize>>,
    order: Seq<usize>,
) -> bool {
    &&& 0 <= source < adjacency.len()
    &&& dist.len() == adjacency.len()
    &&& order.len() > 0
    &&& order[0] == source
    &&& forall|i: int| 0 <= i < order.len() ==> #[trigger] order[i] < adjacency.len()
    &&& order.no_duplicates()
    &&& forall|u: int|
        0 <= u < adjacency.len() ==> ((#[trigger] dist[u]) is Some <==> is_done(
            order,
            order.len() as int,
            u,
        ))
    &&& forall|u: int|
        0 <= u < adjacency.len() && (#[trigger] dist[u]) is Some ==> is_distance(
            adjacency,
            source,
            u,
            dist[u]->0 as nat,
        )
    &&& forall|i: int, j: int|
        0 <= i <= j < order.len() ==> dist[#[trigger] order[i] as int]->0
            <= dist[#[trigger] order[j] as int]->0
    &&& forall|i: int| 0 <= i < order.len() ==> dist[#[trigger] order[i] as int]->0 <= i
}

/// Every node up to distance `level` has been found, and no node beyond
/// distance `level + 1`.
spec fn level_ok(
    adjacency: Seq<Seq<usize>>,
    source: int,
    dist: Seq<Option<usize>>,
    level: nat,
) -> bool {
    &&& forall|u: int|
        0 <= u < adjacency.len() && (#[trigger] dist[u]) is Some ==> dist[u]->0 <= level + 1
    &&& forall|u: int, d: nat|
        0 <= u < adjacency.len() && d <= level && #[trigger] is_distance(adjacency, source, u, d)
            ==> dist[u] is Some
}

/// Every node in `row` has been found.
spec fn all_found(dist: Seq<Option<usize>>, row: Seq<usize>) -> bool {
    forall|k: int| 0 <= k < row.len() ==> dist[#[trigger] row[k] as int] is Some
}

/// Every neighbour of each of the first `head` nodes of `order` has been
/// found.
spec fn expanded(
    adjacency: Seq<Seq<usize>>,
    dist: Seq<Option<usize>>,
    order: Seq<usize>,
    head: int,
) -> bool {
    forall|i: int| 0 <= i < head ==> all_found(dist, adjacency[#[trigger] order[i] as int])
}

/// Each count is the number of shortest walks that end with an edge from a
/// node that is done, or with one of `prefix`.
spec fn counts_ok(
    adjacency: Seq<Seq<usize>>,
    source: int,
    cnt: Seq<u32>,
    order: Seq<usize>,
    head: int,
    d: nat,
    c: nat,
    prefix: Seq<usize>,
) -> bool {
    &&& cnt.len() == adjacency.len()
    &&& forall|u: int|
        0 <= u < adjacency.len() ==> (#[trigger] cnt[u]) == settled(
            adjacency,
            source,
            order,
            head,
            u,
        ) + pending(adjacency, source, u, d, c, prefix)
}

/// The distance of the node that was expanded last; 0 before the first.
spec fn level_before(dist: Seq<Option<usize>>, order: Seq<usize>, head: int) -> nat {
    if head == 0 {
        0
    } else {
        dist[order[head - 1] as int]->0 as nat
    }
}

/// A list of different numbers below `n` has at most `n` entries.
proof fn lemma_pigeonhole(list: Seq<usize>, n: nat)
    requires
        list.no_duplicates(),
        forall|i: int| 0 <= i < list.len() ==> list[i] < n,
    ensures
        list.len() <= n,
    decreases n,
{
    if n == 0 {
        if list.len() > 0 {
            assert(list[0] < n);
        }
    } else {
        if exists|k: int| 0 <= k < list.len() && list[k] == n - 1 {
            let k = choose|k: int| 0 <= k < list.len() && list[k] == n - 1;
            let rest = list.remove(k);
            assert forall|i: int| 0 <= i < rest.len() implies rest[i] < n - 1 by {
                if i < k {
                    assert(rest[i] == list[i]);
                } else {
                    assert(rest[i] == list[i + 1]);
                }
            }
            assert(rest.no_duplicates()) by {
                assert forall|i: int, j: int|
                    0 <= i < rest.len() && 0 <= j < rest.len() && i != j implies rest[i]
                    != rest[j] by {
                    let a = if i < k {
                        i
                    } else {
                        i + 1
                    };
                    let b = if j < k {
                        j
                    } else {
                        j + 1
                    };
                    assert(rest[i] == list[a] && rest[j] == list[b]);
                }
            }
            lemma_pigeonhole(rest, (n - 1) as nat);
        } else {
            lemma_pigeonhole(list, (n - 1) as nat);
        }
    }
}

/// With no node done, nothing is settled but the one walk of no edges.
proof fn lemma_settled_nothing(adjacency: Seq<Seq<usize>>, source: int, order: Seq<usize>, u: int)
    requires
        0 <= source < adjacency.len(),
        0 <= u < adjacency.len(),
    ensures
        settled(adjacency, source, order, 0, u) == if u == source {
            1nat
        } else {
            0nat
        },
{
    lemma_source_distance(adjacency, source);
    lemma_distance_is(adjacency, source, u);
    match distance(adjacency, source, u) {
        None => {},
        Some(d) => {
            assert(is_distance(adjacency, source, u, d));
            if d == 0 {
            } else {
                assert(u != source) by {
                    if u == source {
                        lemma_distance_unique(adjacency, source, u, d, 0);
                    }
                }
                let w = masked(walk_counts(adjacency, source, (d - 1) as nat), order, 0);
                lemma_inflow_positive(adjacency, w, u, adjacency.len());
                assert forall|v: int| 0 <= v < adjacency.len() implies w[v] == 0 by {
                    lemma_walks_unfold(adjacency, source, v, (d - 1) as nat);
                    assert(!is_done(order, 0, v));
                }
            }
        },
    }
}

/// The state before the first node is expanded.
proof fn lemma_start(
    adjacency: Seq<Seq<usize>>,
    source: usize,
    dist: Seq<Option<usize>>,
    cnt: Seq<u32>,
)
    requires
        source < adjacency.len(),
        dist.len() == adjacency.len(),
        cnt.len() == adjacency.len(),
        forall|u: int|
            0 <= u < adjacency.len() ==> dist[u] == if u == source {
                Some(0usize)
            } else {
                None
            },
        forall|u: int|
            0 <= u < adjacency.len() ==> cnt[u] == if u == source {
                1u32
            } else {
                0u32
            },
    ensures
        frontier_ok(adjacency, source as int, dist, seq![source]),
        level_ok(adjacency, source as int, dist, 0),
        expanded(adjacency, dist, seq![source], 0),
        counts_ok(adjacency, source as int, cnt, seq![source], 0, 0, 0, Seq::empty()),
        level_before(dist, seq![source], 0) == 0,
{
    let order = seq![source];
    let s = source as int;
    lemma_source_distance(adjacency, s);
    lemma_distance_is(adjacency, s, s);
    assert forall|u: int| 0 <= u < adjacency.len() implies ((#[trigger] dist[u]) is Some
        <==> is_done(order, order.len() as int, u)) by {
        if u == s {
            assert(order[0] == u);
        }
    }
    assert(frontier_ok(adjacency, s, dist, order));
    assert forall|u: int|
        0 <= u < adjacency.len() implies (#[trigger] cnt[u]) == settled(adjacency, s, order, 0, u)
        + pending(adjacency, s, u, 0, 0, Seq::empty()) by {
        lemma_settled_nothing(adjacency, s, order, u);
        assert(0 * occurrences(Seq::<usize>::empty(), u) == 0) by (nonlinear_arith);
    }
}

/// Nodes that are found later do not change which nodes are done.
proof fn lemma_settled_extend(
    adjacency: Seq<Seq<usize>>,
    source: int,
    order: Seq<usize>,
    longer: Seq<usize>,
    head: int,
    u: int,
)
    requires
        0 <= head <= order.len() <= longer.len(),
        forall|i: int| 0 <= i < order.len() ==> order[i] == longer[i],
    ensures
        settled(adjacency, source, order, head, u) == settled(adjacency, source, longer, head, u),
{
    assert forall|x: int| is_done(order, head, x) == is_done(longer, head, x) by {
        if is_done(order, head, x) {
            let i = choose|i: int| 0 <= i < head && i < order.len() && #[trigger] order[i] == x;
            assert(longer[i] == x);
        }
        if is_done(longer, head, x) {
            let i = choose|i: int| 0 <= i < head && i < longer.len() && #[trigger] longer[i] == x;
            assert(order[i] == x);
        }
    }
    match distance(adjacency, source, u) {
        None => {},
        Some(d) => {
            if d > 0 {
                let w = walk_counts(adjacency, source, (d - 1) as nat);
                assert(masked(w, order, head) =~= masked(w, longer, head));
            }
        },
    }
}

/// When the node at the head of the queue is taken out, every node up to
/// its distance has been found.
proof fn lemma_pop_level(
    adjacency: Seq<Seq<usize>>,
    source: int,
    dist: Seq<Option<usize>>,
    order: Seq<usize>,
    head: int,
)
    requires
        frontier_ok(adjacency, source, dist, order),
        0 <= head < order.len(),
        level_ok(adjacency, source, dist, level_before(dist, order, head)),
        expanded(adjacency, dist, order, head),
    ensures
        dist[order[head] as int] is Some,
        level_ok(adjacency, source, dist, dist[order[head] as int]->0 as nat),
        dist[order[head] as int]->0 <= head,
        order[head] < adjacency.len(),
{
    let v = order[head] as int;
    assert(is_done(order, order.len() as int, v));
    let before = level_before(dist, order, head);
    let d = dist[v]->0 as nat;
    assert(d <= before + 1);
    assert(before <= d) by {
        if head > 0 {
            assert(dist[order[head - 1] as int]->0 <= dist[order[head] as int]->0);
        }
    }
    if d == before + 1 {
        assert forall|u: int, e: nat|
            0 <= u < adjacency.len() && e <= d && #[trigger] is_distance(
                adjacency,
                source,
                u,
                e,
            ) implies dist[u] is Some by {
            if e == d {
                lemma_distance_predecessor(adjacency, source, u, before);
                let via = choose|via: int|
                    0 <= via < adjacency.len() && is_distance(adjacency, source, via, before)
                        && occurrences(#[trigger] adjacency[via], u) > 0;
                assert(dist[via] is Some);
                lemma_distance_unique(adjacency, source, via, before, dist[via]->0 as nat);
                assert(is_done(order, order.len() as int, via));
                let i = choose|i: int|
                    0 <= i < order.len() && i < order.len() && #[trigger] order[i] == via;
                if i >= head {
                    assert(dist[order[head] as int]->0 <= dist[order[i] as int]->0);
                    assert(false);
                }
                assert(all_found(dist, adjacency[order[i] as int]));
                lemma_occurrences_positive(adjacency[via], u);
                let k = choose|k: int| 0 <= k < adjacency[via].len() && adjacency[via][k] == u;
                assert(dist[adjacency[via][k] as int] is Some);
            }
        }
    }
}

/// Where every node up to distance `d - 1` is done, masking changes
/// nothing of the walks of `d - 1` edges.
proof fn lemma_masked_full(
    adjacency: Seq<Seq<usize>>,
    source: int,
    dist: Seq<Option<usize>>,
    order: Seq<usize>,
    head: int,
    d: nat,
)
    requires
        frontier_ok(adjacency, source, dist, order),
        0 <= head <= order.len(),
        d > 0,
        forall|x: int|
            0 <= x < adjacency.len() && (#[trigger] dist[x]) is Some && dist[x]->0 < d ==> is_done(
                order,
                head,
                x,
            ),
        forall|x: int, e: nat|
            0 <= x < adjacency.len() && e < d && #[trigger] is_distance(adjacency, source, x, e)
                ==> dist[x] is Some,
    ensures
        forall|u: int|
            0 <= u < adjacency.len() ==> inflow(
                adjacency,
                masked(walk_counts(adjacency, source, (d - 1) as nat), order, head),
                u,
                adjacency.len(),
            ) == #[trigger] walks(adjacency, source, u, d),
{
    let w = walk_counts(adjacency, source, (d - 1) as nat);
    let m = masked(w, order, head);
    assert forall|x: int| 0 <= x < adjacency.len() implies m[x] == w[x] by {
        lemma_walks_unfold(adjacency, source, x, (d - 1) as nat);
        if w[x] > 0 {
            assert(walks(adjacency, source, x, (d - 1) as nat) > 0);
            crate::paths::lemma_distance_at_most(adjacency, source, x, (d - 1) as nat);
            let e = distance(adjacency, source, x)->0;
            assert(is_distance(adjacency, source, x, e));
            assert(dist[x] is Some);
            lemma_distance_unique(adjacency, source, x, e, dist[x]->0 as nat);
            assert(is_done(order, head, x));
        }
    }
    assert forall|u: int| 0 <= u < adjacency.len() implies inflow(adjacency, m, u, adjacency.len())
        == #[trigger] walks(adjacency, source, u, d) by {
        lemma_inflow_same(adjacency, m, w, u, adjacency.len());
        lemma_walks_unfold(adjacency, source, u, (d - 1) as nat);
    }
}

/// The count of the node at the head of the queue is final: it is the
/// number of shortest walks to that node.
proof fn lemma_pop_count(
    adjacency: Seq<Seq<usize>>,
    source: int,
    dist: Seq<Option<usize>>,
    cnt: Seq<u32>,
    order: Seq<usize>,
    head: int,
    d0: nat,
    c0: nat,
)
    requires
        frontier_ok(adjacency, source, dist, order),
        0 <= head < order.len(),
        dist[order[head] as int] is Some,
        level_ok(adjacency, source, dist, dist[order[head] as int]->0 as nat),
        counts_ok(adjacency, source, cnt, order, head, d0, c0, Seq::empty()),
    ensures
        cnt[order[head] as int] == walks(
            adjacency,
            source,
            order[head] as int,
            dist[order[head] as int]->0 as nat,
        ),
        cnt[order[head] as int] == shortest_path_count(adjacency, source, order[head] as int),
        cnt[order[head] as int] > 0,
{
    let v = order[head] as int;
    let d = dist[v]->0 as nat;
    assert(is_distance(adjacency, source, v, d));
    lemma_distance_is(adjacency, source, v);
    assert(distance(adjacency, source, v) == Some(d));
    assert(pending(adjacency, source, v, d0, c0, Seq::empty()) == 0) by {
        assert(c0 * occurrences(Seq::<usize>::empty(), v) == 0) by (nonlinear_arith)
            requires
                occurrences(Seq::<usize>::empty(), v) == 0,
        ;
    }
    assert(cnt[v] == settled(adjacency, source, order, head, v));
    if d == 0 {
        lemma_walks_unfold(adjacency, source, v, 0);
        lemma_source_distance(adjacency, source);
    } else {
        assert forall|x: int|
            0 <= x < adjacency.len() && (#[trigger] dist[x]) is Some && dist[x]->0
                < d implies is_done(order, head, x) by {
            assert(is_done(order, order.len() as int, x));
            let i = choose|i: int|
                0 <= i < order.len() && i < order.len() && #[trigger] order[i] == x;
            if i >= head {
                assert(dist[order[head] as int]->0 <= dist[order[i] as int]->0);
            }
        }
        lemma_masked_full(adjacency, source, dist, order, head, d);
    }
}

/// An edge from a node at distance `d` to a node not yet found shows that
/// node to be at distance `d + 1`, once all nodes up to distance `d` have
/// been found; and the state with that node found is in order again.
proof fn lemma_discover(
    adjacency: Seq<Seq<usize>>,
    source: int,
    dist: Seq<Option<usize>>,
    order: Seq<usize>,
    head: int,
    u: usize,
)
    requires
        frontier_ok(adjacency, source, dist, order),
        0 <= head < order.len(),
        dist[order[head] as int] is Some,
        level_ok(adjacency, source, dist, dist[order[head] as int]->0 as nat),
        expanded(adjacency, dist, order, head),
        u < adjacency.len(),
        dist[u as int] is None,
        occurrences(adjacency[order[head] as int], u as int) > 0,
        order.len() <= adjacency.len() <= usize::MAX,
        closed(adjacency),
    ensures
        is_distance(adjacency, source, u as int, (dist[order[head] as int]->0 + 1) as nat),
        dist[order[head] as int]->0 + 1 <= usize::MAX,
        frontier_ok(
            adjacency,
            source,
            dist.update(u as int, Some((dist[order[head] as int]->0 + 1) as usize)),
            order.push(u),
        ),
        level_ok(
            adjacency,
            source,
            dist.update(u as int, Some((dist[order[head] as int]->0 + 1) as usize)),
            dist[order[head] as int]->0 as nat,
        ),
        expanded(
            adjacency,
            dist.update(u as int, Some((dist[order[head] as int]->0 + 1) as usize)),
            order.push(u),
            head,
        ),
{
    let v = order[head] as int;
    let d = dist[v]->0 as nat;
    assert(d <= head);
    assert(is_distance(adjacency, source, v, d));
    lemma_distance_along_edge(adjacency, source, v, u as int, d);
    let e = choose|e: nat| e <= d + 1 && is_distance(adjacency, source, u as int, e);
    assert(e == d + 1) by {
        if e <= d {
            assert(dist[u as int] is Some);
        }
    }
    let found = Some((d + 1) as usize);
    let dist2 = dist.update(u as int, found);
    let order2 = order.push(u);
    assert(!is_done(order, order.len() as int, u as int));
    assert forall|i: int| 0 <= i < order.len() implies order[i] != u by {
        if order[i] == u {
            assert(is_done(order, order.len() as int, u as int));
        }
    }
    assert(order2.no_duplicates());
    assert forall|x: int| 0 <= x < adjacency.len() implies ((#[trigger] dist2[x]) is Some
        <==> is_done(order2, order2.len() as int, x)) by {
        if x == u {
            assert(order2[order.len() as int] == x);
        } else {
            if dist[x] is Some {
                assert(is_done(order, order.len() as int, x));
                let i = choose|i: int|
                    0 <= i < order.len() && i < order.len() && #[trigger] order[i] == x;
                assert(order2[i] == x);
            }
            if is_done(order2, order2.len() as int, x) {
                let i = choose|i: int|
                    0 <= i < order2.len() && i < order2.len() && #[trigger] order2[i] == x;
                assert(order[i] == x);
                assert(is_done(order, order.len() as int, x));
            }
        }
    }
    assert forall|i: int, j: int|
        0 <= i <= j < order2.len() implies dist2[#[trigger] order2[i] as int]->0
        <= dist2[#[trigger] order2[j] as int]->0 by {
        if j < order.len() {
            assert(order2[i] == order[i] && order2[j] == order[j]);
            assert(dist[order[i] as int]->0 <= dist[order[j] as int]->0);
        } else if i < order.len() {
            assert(order2[i] == order[i]);
            assert(is_done(order, order.len() as int, order[i] as int));
            assert(dist[order[i] as int] is Some);
        }
    }
    assert forall|i: int| 0 <= i < order2.len() implies dist2[#[trigger] order2[i] as int]->0
        <= i by {
        if i < order.len() {
            assert(order2[i] == order[i]);
            assert(dist[order[i] as int]->0 <= i);
        }
    }
    assert forall|x: int|
        0 <= x < adjacency.len() && (#[trigger] dist2[x]) is Some implies is_distance(
        adjacency,
        source,
        x,
        dist2[x]->0 as nat,
    ) by {
        if x != u {
            assert(dist[x] is Some);
        }
    }
    assert(frontier_ok(adjacency, source, dist2, order2));
    assert forall|x: int|
        0 <= x < adjacency.len() && (#[trigger] dist2[x]) is Some implies dist2[x]->0 <= d
        + 1 by {
        if x != u {
            assert(dist[x] is Some);
        }
    }
    assert forall|x: int, f: nat|
        0 <= x < adjacency.len() && f <= d && #[trigger] is_distance(
            adjacency,
            source,
            x,
            f,
        ) implies dist2[x] is Some by {
        assert(dist[x] is Some);
    }
    assert forall|i: int| 0 <= i < head implies all_found(
        dist2,
        adjacency[#[trigger] order2[i] as int],
    ) by {
        assert(order2[i] == order[i]);
        assert(all_found(dist, adjacency[order[i] as int]));
        lemma_found_more(dist, dist2, adjacency[order[i] as int]);
    }
}

/// Finding one more node leaves the nodes that were found as they are.
proof fn lemma_found_more(dist: Seq<Option<usize>>, more: Seq<Option<usize>>, row: Seq<usize>)
    requires
        all_found(dist, row),
        dist.len() == more.len(),
        forall|x: int| 0 <= x < dist.len() && dist[x] is Some ==> more[x] is Some,
        forall|k: int| 0 <= k < row.len() ==> row[k] < dist.len(),
    ensures
        all_found(more, row),
{
    assert forall|k: int| 0 <= k < row.len() implies more[#[trigger] row[k] as int] is Some by {
        assert(dist[row[k] as int] is Some);
    }
}

/// One more position of a row whose node has been found.
proof fn lemma_found_next(dist: Seq<Option<usize>>, row: Seq<usize>, j: int)
    requires
        0 <= j < row.len(),
        all_found(dist, row.take(j)),
        dist[row[j] as int] is Some,
    ensures
        all_found(dist, row.take(j + 1)),
{
    assert forall|k: int| 0 <= k < row.take(j + 1).len() implies dist[#[trigger] row.take(
        j + 1,
    )[k] as int] is Some by {
        if k < j {
            assert(row.take(j)[k] == row[k]);
            assert(dist[row.take(j)[k] as int] is Some);
        }
    }
}

/// No position of an empty row is left to find.
proof fn lemma_found_none(dist: Seq<Option<usize>>, row: Seq<usize>)
    ensures
        all_found(dist, row.take(0)),
{
}

/// The walks that the edges of a part of the neighbour list of the node
/// at the head of the queue end are among the shortest walks to their
/// target.
proof fn lemma_partial_count(
    adjacency: Seq<Seq<usize>>,
    source: int,
    order: Seq<usize>,
    head: int,
    d: nat,
    j: int,
    u: int,
)
    requires
        0 <= source < adjacency.len(),
        0 <= head < order.len(),
        order.no_duplicates(),
        order[head] < adjacency.len(),
        is_distance(adjacency, source, order[head] as int, d),
        0 <= u < adjacency.len(),
        is_distance(adjacency, source, u, d + 1),
        0 <= j <= adjacency[order[head] as int].len(),
    ensures
        settled(adjacency, source, order, head, u) + walks(
            adjacency,
            source,
            order[head] as int,
            d,
        ) * occurrences(adjacency[order[head] as int].take(j), u) <= shortest_path_count(
            adjacency,
            source,
            u,
        ),
        settled(adjacency, source, order, head + 1, u) == settled(
            adjacency,
            source,
            order,
            head,
            u,
        ) + walks(adjacency, source, order[head] as int, d) * occurrences(
            adjacency[order[head] as int],
            u,
        ),
{
    let v = order[head] as int;
    let row = adjacency[v];
    let w = walk_counts(adjacency, source, d);
    let m0 = masked(w, order, head);
    let m1 = masked(w, order, head + 1);
    lemma_distance_is(adjacency, source, u);
    assert(distance(adjacency, source, u) == Some((d + 1) as nat));
    lemma_walks_unfold(adjacency, source, u, d);
    lemma_walks_unfold(adjacency, source, v, d);
    assert(!is_done(order, head, v)) by {
        if is_done(order, head, v) {
            let i = choose|i: int| 0 <= i < head && i < order.len() && #[trigger] order[i] == v;
            assert(order[i] == order[head]);
        }
    }
    assert(is_done(order, head + 1, v)) by {
        assert(order[head] == v);
    }
    assert forall|x: int| 0 <= x < adjacency.len() && x != v implies m0[x] == m1[x] by {
        if is_done(order, head + 1, x) {
            let i = choose|i: int|
                0 <= i < head + 1 && i < order.len() && #[trigger] order[i] == x;
            assert(i < head);
            assert(is_done(order, head, x));
        }
        if is_done(order, head, x) {
            let i = choose|i: int| 0 <= i < head && i < order.len() && #[trigger] order[i] == x;
            assert(is_done(order, head + 1, x));
        }
    }
    lemma_inflow_raise(adjacency, m0, m1, u, adjacency.len(), v, w[v]);
    assert forall|x: int| 0 <= x < adjacency.len() implies m1[x] <= w[x] by {}
    lemma_inflow_monotone(adjacency, m1, w, u, adjacency.len());
    lemma_occurrences_prefix(row, j, u);
    let x = w[v];
    let a = occurrences(row.take(j), u);
    let b = occurrences(row, u);
    assert(x * a <= x * b) by (nonlinear_arith)
        requires
            a <= b,
            x >= 0,
    ;
}

/// A part of a row holds a node at most as often as the whole row.
proof fn lemma_occurrences_prefix(row: Seq<usize>, j: int, node: int)
    requires
        0 <= j <= row.len(),
    ensures
        occurrences(row.take(j), node) <= occurrences(row, node),
    decreases row.len() - j,
{
    if j < row.len() {
        lemma_occurrences_take(row, j, node);
        lemma_occurrences_prefix(row, j + 1, node);
    } else {
        assert(row.take(j) =~= row);
    }
}

/// The step of the count for an edge to a node one further from the
/// source: the count of that node rises by the count of the node at the
/// head of the queue, unless the sum exceeds every shortest-walk count that
/// fits.
proof fn lemma_count_add(
    adjacency: Seq<Seq<usize>>,
    source: int,
    cnt: Seq<u32>,
    order: Seq<usize>,
    longer: Seq<usize>,
    head: int,
    d: nat,
    j: int,
)
    requires
        0 <= source < adjacency.len(),
        0 <= head < order.len() <= longer.len(),
        forall|i: int| 0 <= i < order.len() ==> order[i] == longer[i],
        order.no_duplicates(),
        order[head] < adjacency.len(),
        is_distance(adjacency, source, order[head] as int, d),
        cnt[order[head] as int] == walks(adjacency, source, order[head] as int, d),
        0 <= j < adjacency[order[head] as int].len(),
        adjacency[order[head] as int][j] < adjacency.len(),
        is_distance(
            adjacency,
            source,
            adjacency[order[head] as int][j] as int,
            d + 1,
        ),
        counts_ok(
            adjacency,
            source,
            cnt,
            order,
            head,
            d,
            cnt[order[head] as int] as nat,
            adjacency[order[head] as int].take(j),
        ),
    ensures
        cnt[adjacency[order[head] as int][j] as int] + cnt[order[head] as int]
            <= shortest_path_count(adjacency, source, adjacency[order[head] as int][j] as int),
        cnt[adjacency[order[head] as int][j] as int] + cnt[order[head] as int] <= u32::MAX
            ==> counts_ok(
            adjacency,
            source,
            cnt.update(
                adjacency[order[head] as int][j] as int,
                (cnt[adjacency[order[head] as int][j] as int] + cnt[order[head] as int]) as u32,
            ),
            longer,
            head,
            d,
            cnt[order[head] as int] as nat,
            adjacency[order[head] as int].take(j + 1),
        ),
{
    let v = order[head] as int;
    let row = adjacency[v];
    let u = row[j] as int;
    let c = cnt[v] as nat;
    lemma_distance_is(adjacency, source, u);
    lemma_occurrences_take(row, j, u);
    lemma_partial_count(adjacency, source, order, head, d, j + 1, u);
    let a = occurrences(row.take(j), u);
    assert(c * (a + 1) == c * a + c) by (nonlinear_arith);
    assert(pending(adjacency, source, u, d, c, row.take(j + 1)) == pending(
        adjacency,
        source,
        u,
        d,
        c,
        row.take(j),
    ) + c);
    assert(v != u) by {
        if v == u {
            lemma_distance_unique(adjacency, source, v, d, d + 1);
        }
    }
    if cnt[u] + cnt[v] <= u32::MAX {
        let cnt2 = cnt.update(u, (cnt[u] + cnt[v]) as u32);
        assert forall|x: int| 0 <= x < adjacency.len() implies (#[trigger] cnt2[x]) == settled(
            adjacency,
            source,
            longer,
            head,
            x,
        ) + pending(adjacency, source, x, d, c, row.take(j + 1)) by {
            lemma_settled_extend(adjacency, source, order, longer, head, x);
            assert(cnt[x] == settled(adjacency, source, order, head, x) + pending(
                adjacency,
                source,
                x,
                d,
                c,
                row.take(j),
            ));
            if x != u {
                lemma_occurrences_take(row, j, x);
            }
        }
    }
}

/// The step of the count for an edge to a node that is not one further
/// from the source: no count changes.
proof fn lemma_count_skip(
    adjacency: Seq<Seq<usize>>,
    source: int,
    cnt: Seq<u32>,
    order: Seq<usize>,
    head: int,
    d: nat,
    c: nat,
    row: Seq<usize>,
    j: int,
)
    requires
        0 <= j < row.len(),
        0 <= row[j] < adjacency.len(),
        !is_distance(adjacency, source, row[j] as int, d + 1),
        counts_ok(adjacency, source, cnt, order, head, d, c, row.take(j)),
    ensures
        counts_ok(adjacency, source, cnt, order, head, d, c, row.take(j + 1)),
{
    let u = row[j] as int;
    lemma_distance_is(adjacency, source, u);
    assert forall|x: int| 0 <= x < adjacency.len() implies (#[trigger] cnt[x]) == settled(
        adjacency,
        source,
        order,
        head,
        x,
    ) + pending(adjacency, source, x, d, c, row.take(j + 1)) by {
        assert(cnt[x] == settled(adjacency, source, order, head, x) + pending(
            adjacency,
            source,
            x,
            d,
            c,
            row.take(j),
        ));
        lemma_occurrences_take(row, j, x);
    }
}

/// Before the first edge of a node is looked at, nothing is pending.
proof fn lemma_row_begin(
    adjacency: Seq<Seq<usize>>,
    source: int,
    cnt: Seq<u32>,
    order: Seq<usize>,
    head: int,
    d0: nat,
    c0: nat,
    d: nat,
    c: nat,
    row: Seq<usize>,
)
    requires
        counts_ok(adjacency, source, cnt, order, head, d0, c0, Seq::empty()),
    ensures
        counts_ok(adjacency, source, cnt, order, head, d, c, row.take(0)),
{
    assert(row.take(0) =~= Seq::<usize>::empty());
    assert forall|x: int| 0 <= x < adjacency.len() implies (#[trigger] cnt[x]) == settled(
        adjacency,
        source,
        order,
        head,
        x,
    ) + pending(adjacency, source, x, d, c, Seq::empty()) by {
        assert(cnt[x] == settled(adjacency, source, order, head, x) + pending(
            adjacency,
            source,
            x,
            d0,
            c0,
            Seq::empty(),
        ));
        assert(c * occurrences(Seq::<usize>::empty(), x) == 0) by (nonlinear_arith)
            requires
                occurrences(Seq::<usize>::empty(), x) == 0,
        ;
        assert(c0 * occurrences(Seq::<usize>::empty(), x) == 0) by (nonlinear_arith)
            requires
                occurrences(Seq::<usize>::empty(), x) == 0,
        ;
    }
}

/// After the last edge of the node at the head of the queue, the node is
/// done and nothing is pending.
proof fn lemma_row_end(
    adjacency: Seq<Seq<usize>>,
    source: int,
    dist: Seq<Option<usize>>,
    cnt: Seq<u32>,
    order: Seq<usize>,
    head: int,
    c: nat,
)
    requires
        frontier_ok(adjacency, source, dist, order),
        0 <= head < order.len(),
        dist[order[head] as int] is Some,
        level_ok(adjacency, source, dist, dist[order[head] as int]->0 as nat),
        expanded(adjacency, dist, order, head),
        all_found(dist, adjacency[order[head] as int]),
        c == walks(adjacency, source, order[head] as int, dist[order[head] as int]->0 as nat),
        counts_ok(
            adjacency,
            source,
            cnt,
            order,
            head,
            dist[order[head] as int]->0 as nat,
            c,
            adjacency[order[head] as int],
        ),
    ensures
        expanded(adjacency, dist, order, head + 1),
        level_ok(adjacency, source, dist, level_before(dist, order, head + 1)),
        counts_ok(adjacency, source, cnt, order, head + 1, 0, 0, Seq::empty()),
{
    let v = order[head] as int;
    let d = dist[v]->0 as nat;
    let row = adjacency[v];
    assert(order[head] < adjacency.len());
    assert(is_distance(adjacency, source, v, d));
    assert forall|i: int| 0 <= i < head + 1 implies all_found(
        dist,
        adjacency[#[trigger] order[i] as int],
    ) by {}
    assert forall|u: int| 0 <= u < adjacency.len() implies (#[trigger] cnt[u]) == settled(
        adjacency,
        source,
        order,
        head + 1,
        u,
    ) + pending(adjacency, source, u, 0, 0, Seq::empty()) by {
        assert(cnt[u] == settled(adjacency, source, order, head, u) + pending(
            adjacency,
            source,
            u,
            d,
            c,
            row,
        ));
        assert(0 * occurrences(Seq::<usize>::empty(), u) == 0) by (nonlinear_arith);
        lemma_distance_is(adjacency, source, u);
        lemma_settled_step(adjacency, source, order, head, d, u);
    }
}

/// What the node at the head of the queue adds to what is settled, once
/// it is done.
proof fn lemma_settled_step(
    adjacency: Seq<Seq<usize>>,
    source: int,
    order: Seq<usize>,
    head: int,
    d: nat,
    u: int,
)
    requires
        0 <= source < adjacency.len(),
        0 <= head < order.len(),
        order.no_duplicates(),
        order[head] < adjacency.len(),
        is_distance(adjacency, source, order[head] as int, d),
        0 <= u < adjacency.len(),
    ensures
        settled(adjacency, source, order, head + 1, u) == settled(
            adjacency,
            source,
            order,
            head,
            u,
        ) + pending(
            adjacency,
            source,
            u,
            d,
            walks(adjacency, source, order[head] as int, d),
            adjacency[order[head] as int],
        ),
{
    let v = order[head] as int;
    lemma_distance_is(adjacency, source, u);
    match distance(adjacency, source, u) {
        None => {},
        Some(e) => {
            assert(is_distance(adjacency, source, u, e));
            if e == 0 {
            } else if e == d + 1 {
                lemma_partial_count(adjacency, source, order, head, d, 0, u);
            } else {
                let k = (e - 1) as nat;
                let w = walk_counts(adjacency, source, k);
                let m0 = masked(w, order, head);
                let m1 = masked(w, order, head + 1);
                lemma_walks_unfold(adjacency, source, v, k);
                assert(!is_done(order, head, v)) by {
                    if is_done(order, head, v) {
                        let i = choose|i: int|
                            0 <= i < head && i < order.len() && #[trigger] order[i] == v;
                        assert(order[i] == order[head]);
                    }
                }
                assert(is_done(order, head + 1, v)) by {
                    assert(order[head] == v);
                }
                assert forall|x: int| 0 <= x < adjacency.len() && x != v implies m0[x]
                    == m1[x] by {
                    if is_done(order, head + 1, x) {
                        let i = choose|i: int|
                            0 <= i < head + 1 && i < order.len() && #[trigger] order[i] == x;
                        assert(i < head);
                        assert(is_done(order, head, x));
                    }
                    if is_done(order, head, x) {
                        let i = choose|i: int|
                            0 <= i < head && i < order.len() && #[trigger] order[i] == x;
                        assert(is_done(order, head + 1, x));
                    }
                }
                lemma_inflow_raise(adjacency, m0, m1, u, adjacency.len(), v, w[v]);
                lemma_walk_share(adjacency, source, v, u, k);
                if is_distance(adjacency, source, v, k) {
                    lemma_distance_unique(adjacency, source, v, k, d);
                }
            }
        },
    }
}

/// When the queue is empty, every node that can be reached has been found
/// with its distance, and every count is the number of shortest walks.
proof fn lemma_complete(
    adjacency: Seq<Seq<usize>>,
    source: int,
    dist: Seq<Option<usize>>,
    cnt: Seq<u32>,
    order: Seq<usize>,
    d0: nat,
    c0: nat,
)
    requires
        frontier_ok(adjacency, source, dist, order),
        expanded(adjacency, dist, order, order.len() as int),
        counts_ok(adjacency, source, cnt, order, order.len() as int, d0, c0, Seq::empty()),
    ensures
        forall|u: int|
            0 <= u < adjacency.len() ==> match #[trigger] dist[u] {
                Some(d) => distance(adjacency, source, u) == Some(d as nat),
                None => distance(adjacency, source, u) is None,
            },
        forall|u: int|
            0 <= u < adjacency.len() ==> (#[trigger] cnt[u]) == shortest_path_count(
                adjacency,
                source,
                u,
            ),
{
    assert forall|u: int, d: nat|
        0 <= u < adjacency.len() && #[trigger] is_distance(
            adjacency,
            source,
            u,
            d,
        ) implies dist[u] is Some by {
        lemma_all_found(adjacency, source, dist, order, u, d);
    }
    assert forall|u: int| 0 <= u < adjacency.len() implies match #[trigger] dist[u] {
        Some(d) => distance(adjacency, source, u) == Some(d as nat),
        None => distance(adjacency, source, u) is None,
    } by {
        lemma_distance_is(adjacency, source, u);
        match dist[u] {
            Some(d) => {
                assert(is_distance(adjacency, source, u, d as nat));
            },
            None => {
                if distance(adjacency, source, u) is Some {
                    let e = distance(adjacency, source, u)->0;
                    assert(is_distance(adjacency, source, u, e));
                }
            },
        }
    }
    assert forall|u: int| 0 <= u < adjacency.len() implies (#[trigger] cnt[u])
        == shortest_path_count(adjacency, source, u) by {
        lemma_distance_is(adjacency, source, u);
        assert(cnt[u] == settled(adjacency, source, order, order.len() as int, u) + pending(
            adjacency,
            source,
            u,
            d0,
            c0,
            Seq::empty(),
        ));
        assert(c0 * occurrences(Seq::<usize>::empty(), u) == 0) by (nonlinear_arith)
            requires
                occurrences(Seq::<usize>::empty(), u) == 0,
        ;
        match distance(adjacency, source, u) {
            None => {},
            Some(d) => {
                if d == 0 {
                    assert(is_distance(adjacency, source, u, 0));
                    lemma_source_distance(adjacency, source);
                    lemma_walks_unfold(adjacency, source, u, 0);
                } else {
                    lemma_masked_full(adjacency, source, dist, order, order.len() as int, d);
                }
            },
        }
    }
}

/// Once every node that was found has been expanded, every node at any
/// distance has been found.
proof fn lemma_all_found(
    adjacency: Seq<Seq<usize>>,
    source: int,
    dist: Seq<Option<usize>>,
    order: Seq<usize>,
    u: int,
    d: nat,
)
    requires
        frontier_ok(adjacency, source, dist, order),
        expanded(adjacency, dist, order, order.len() as int),
        0 <= u < adjacency.len(),
        is_distance(adjacency, source, u, d),
    ensures
        dist[u] is Some,
    decreases d,
{
    if d == 0 {
        lemma_source_distance(adjacency, source);
        assert(u == source);
        assert(order[0] == source);
        assert(is_done(order, order.len() as int, u));
    } else {
        lemma_distance_predecessor(adjacency, source, u, (d - 1) as nat);
        let via = choose|via: int|
            0 <= via < adjacency.len() && is_distance(adjacency, source, via, (d - 1) as nat)
                && occurrences(#[trigger] adjacency[via], u) > 0;
        lemma_all_found(adjacency, source, dist, order, via, (d - 1) as nat);
        assert(is_done(order, order.len() as int, via));
        let i = choose|i: int|
            0 <= i < order.len() && i < order.len() && #[trigger] order[i] == via;
        assert(all_found(dist, adjacency[order[i] as int]));
        lemma_occurrences_positive(adjacency[via], u);
        let k = choose|k: int| 0 <= k < adjacency[via].len() && adjacency[via][k] == u;
        assert(dist[adjacency[via][k] as int] is Some);
    }
}

/// What a breadth-first traversal from one source has found: for each node
/// its distance from the source, if it can be reached, and the number of
/// shortest paths that lead to it.
#[derive(Debug, Clone, PartialEq, Eq)]
pub struct Traversal {
    pub source: usize,
    pub distance: Vec<Option<usize>>,
    pub num_paths: Vec<u32>,
}

impl Traversal {
    /// Whether the traversal holds, for every node of the graph with the
    /// neighbour lists `adjacency`, the distance from its source and the
    /// number of shortest paths.
    pub open spec fn describes(&self, adjacency: Seq<Seq<usize>>) -> bool {
        &&& self.source < adjacency.len()
        &&& self.distance@.len() == adjacency.len()
        &&& self.num_paths@.len() == adjacency.len()
        &&& forall|t: int|
            0 <= t < adjacency.len() ==> match #[trigger] self.distance@[t] {
                Some(d) => distance(adjacency, self.source as int, t) == Some(d as nat),
                None => distance(adjacency, self.source as int, t) is None,
            }
        &&& forall|t: int|
            0 <= t < adjacency.len() ==> (#[trigger] self.num_paths@[t]) == shortest_path_count(
                adjacency,
                self.source as int,
                t,
            )
    }
}

impl Graph {
    /// Walks the graph breadth-first from `source`, counting for each node
    /// the shortest paths that lead to it.
    ///
    /// The result is exact whatever the order of the neighbour lists. It
    /// fails when, and only when, some node has more shortest paths than
    /// `u32::MAX`.
    pub fn traverse(graph: &Graph, source: usize) -> (result: Result<Traversal, CentralityError>)
        requires
            graph.adjacency_wf(),
            source < graph.node_count,
        ensures
            result is Ok <==> forall|t: int|
                0 <= t < graph.node_count ==> #[trigger] shortest_path_count(
                    graph.adjacency(),
                    source as int,
                    t,
                ) <= u32::MAX,
            match result {
                Ok(found) => found.source == source && found.describes(graph.adjacency())
                    && found.num_paths@[source as int] == 1,
                Err(e) => e == CentralityError::PathCountOverflow,
            },
    {
        let n = graph.node_count;
        let ghost adj = graph.adjacency();
        let ghost s = source as int;
        let mut distance: Vec<Option<usize>> = Vec::new();
        let mut num_paths: Vec<u32> = Vec::new();
        let mut i: usize = 0;
        while i < n
            invariant
                0 <= i <= n,
                distance@.len() == i,
                num_paths@.len() == i,
                forall|u: int| 0 <= u < i ==> distance@[u] == None::<usize>,
                forall|u: int| 0 <= u < i ==> num_paths@[u] == 0u32,
            decreases n - i,
        {
            distance.push(None);
            num_paths.push(0);
            i += 1;
        }
        distance[source] = Some(0);
        num_paths[source] = 1;
        let mut queue: VecDeque<usize> = VecDeque::new();
        queue.push_back(source);
        let ghost mut order: Seq<usize> = seq![source];
        let ghost mut head: int = 0;
        proof {
            lemma_start(adj, source, distance@, num_paths@);
            assert(queue@ =~= order.subrange(0, 1));
        }
        while queue.len() > 0
            invariant
                graph.adjacency_wf(),
                adj == graph.adjacency(),
                n == graph.node_count,
                s == source as int,
                source < n,
                0 <= head <= order.len(),
                queue@ == order.subrange(head, order.len() as int),
                frontier_ok(adj, s, distance@, order),
                level_ok(adj, s, distance@, level_before(distance@, order, head)),
                expanded(adj, distance@, order, head),
                counts_ok(adj, s, num_paths@, order, head, 0, 0, Seq::empty()),
                num_paths@[s] == 1,
            decreases n - head,
        {
            let v = queue.pop_front().unwrap();
            proof {
                assert(v == order[head]);
                lemma_pigeonhole(order, n as nat);
                lemma_pop_level(adj, s, distance@, order, head);
                lemma_pop_count(adj, s, distance@, num_paths@, order, head, 0, 0);
            }
            let d = distance[v].unwrap();
            let c = num_paths[v];
            let row_len = graph.outeredges[v].len();
            let ghost row = adj[v as int];
            proof {
                lemma_row_begin(adj, s, num_paths@, order, head, 0, 0, d as nat, c as nat, row);
                lemma_found_none(distance@, row);
                assert(queue@ =~= order.subrange(head + 1, order.len() as int));
            }
            let mut j: usize = 0;
            while j < row_len
                invariant
                    graph.adjacency_wf(),
                    adj == graph.adjacency(),
                    n == graph.node_count,
                    s == source as int,
                    source < n,
                    v < n,
                    row == adj[v as int],
                    row_len == row.len(),
                    0 <= j <= row_len,
                    0 <= head < order.len(),
                    v == order[head],
                    distance@[v as int] == Some(d),
                    d <= head,
                    c == num_paths@[v as int],
                    c == walks(adj, s, v as int, d as nat),
                    queue@ == order.subrange(head + 1, order.len() as int),
                    frontier_ok(adj, s, distance@, order),
                    level_ok(adj, s, distance@, d as nat),
                    expanded(adj, distance@, order, head),
                    all_found(distance@, row.take(j as int)),
                    counts_ok(
                        adj,
                        s,
                        num_paths@,
                        order,
                        head,
                        d as nat,
                        c as nat,
                        row.take(j as int),
                    ),
                    num_paths@[s] == 1,
                decreases row_len - j,
            {
                let u = graph.outeredges[v][j];
                proof {
                    assert(u == row[j as int]);
                    assert(u < n);
                    lemma_pigeonhole(order, n as nat);
                }
                let ghost dist_before = distance@;
                let ghost cnt_before = num_paths@;
                match distance[u] {
                    None => {
                        proof {
                            lemma_occurrences_positive(row, u as int);
                            lemma_discover(adj, s, dist_before, order, head, u);
                            lemma_count_add(
                                adj,
                                s,
                                cnt_before,
                                order,
                                order.push(u),
                                head,
                                d as nat,
                                j as int,
                            );
                        }
                        match num_paths[u].checked_add(c) {
                            None => {
                                return Err(CentralityError::PathCountOverflow);
                            },
                            Some(sum) => {
                                distance[u] = Some(d + 1);
                                num_paths[u] = sum;
                                queue.push_back(u);
                                proof {
                                    lemma_found_more(dist_before, distance@, row.take(j as int));
                                    lemma_found_next(distance@, row, j as int);
                                    assert(queue@ =~= order.push(u).subrange(
                                        head + 1,
                                        order.len() as int + 1,
                                    ));
                                    order = order.push(u);
                                }
                            },
                        }
                    },
                    Some(e) => {
                        proof {
                            lemma_found_next(distance@, row, j as int);
                        }
                        if e == d + 1 {
                            proof {
                                lemma_count_add(
                                    adj,
                                    s,
                                    cnt_before,
                                    order,
                                    order,
                                    head,
                                    d as nat,
                                    j as int,
                                );
                            }
                            match num_paths[u].checked_add(c) {
                                None => {
                                    return Err(CentralityError::PathCountOverflow);
                                },
                                Some(sum) => {
                                    num_paths[u] = sum;
                                },
                            }
                        } else {
                            proof {
                                lemma_distance_unique_of(
                                    adj,
                                    s,
                                    u as int,
                                    e as nat,
                                    (d + 1) as nat,
                                );
                                lemma_count_skip(
                                    adj,
                                    s,
                                    cnt_before,
                                    order,
                                    head,
                                    d as nat,
                                    c as nat,
                                    row,
                                    j as int,
                                );
                            }
                        }
                    },
                }
                j += 1;
            }
            proof {
                assert(row.take(row_len as int) =~= row);
                lemma_row_end(adj, s, distance@, num_paths@, order, head, c as nat);
                head = head + 1;
            }
        }
        proof {
            assert(head == order.len());
            lemma_complete(adj, s, distance@, num_paths@, order, 0, 0);
            assert forall|t: int| 0 <= t < n implies #[trigger] shortest_path_count(adj, s, t)
                <= u32::MAX by {
                assert(num_paths@[t] == shortest_path_count(adj, s, t));
            }
        }
        Ok(Traversal { source, distance, num_paths })
    }
}

/// A node whose distance is `d` is at no other distance.
proof fn lemma_distance_unique_of(
    adjacency: Seq<Seq<usize>>,
    source: int,
    target: int,
    d: nat,
    other: nat,
)
    requires
        is_distance(adjacency, source, target, d),
        d != other,
    ensures
        !is_distance(adjacency, source, target, other),
{
    if is_distance(adjacency, source, target, other) {
        lemma_distance_unique(adjacency, source, target, d, other);
    }
}

} // verus!
