//! Graphs over labelled nodes, built from lists of edges.

use vstd::prelude::*;
use vstd::hash_map::StringHashMap;
use crate::paths::{
    lemma_occurrences_count, lemma_occurrences_positive, occurrences, same_edges,
};
use crate::text::{
    label_le, label_lt, lemma_label_lt_irreflexive, lemma_label_lt_transitive,
    lemma_strictly_ascending_unique, strictly_ascending, Label,
};

verus! {

/// A list of edges, each a pair of node labels.
pub type EdgeList = Vec<(String, String)>;

/// A graph over labelled nodes, held as one neighbour list per node.
///
/// Nodes are numbered by the position of their label in `node_labels`, which
/// is kept in strictly ascending order; `node_indices` maps each label back
/// to its number. A neighbour that occurs several times in a list stands for
/// as many parallel edges.
pub struct Graph {
    pub node_count: usize,
    pub outeredges: Vec<Vec<usize>>,
    pub node_labels: Vec<String>,
    pub node_indices: StringHashMap<usize>,
}

/// Whether `label` is an endpoint of one of `edges`.
pub open spec fn mentions(edges: Seq<(Label, Label)>, label: Label) -> bool {
    exists|k: int|
        0 <= k < edges.len() && ((#[trigger] edges[k]).0 == label || edges[k].1 == label)
}

/// The numbers of the targets of those of `edges` that leave `from`, in the
/// order in which `edges` lists them.
pub open spec fn targets_of(
    edges: Seq<(Label, Label)>,
    index: Map<Label, usize>,
    from: Label,
) -> Seq<usize>
    decreases edges.len(),
{
    if edges.len() == 0 {
        Seq::empty()
    } else {
        let earlier = targets_of(edges.drop_last(), index, from);
        if edges.last().0 == from {
            earlier.push(index[edges.last().1])
        } else {
            earlier
        }
    }
}

/// Whether `list` never descends.
pub open spec fn ascending(list: Seq<usize>) -> bool {
    forall|i: int, j: int| 0 <= i <= j < list.len() ==> list[i] <= list[j]
}

/// Whether every number in every list of `adjacency` names one of its lists.
pub open spec fn closed(adjacency: Seq<Seq<usize>>) -> bool {
    forall|i: int, k: int|
        0 <= i < adjacency.len() && 0 <= k < adjacency[i].len() ==> (#[trigger] adjacency[i][k])
            < adjacency.len()
}

/// Sorts a list of node numbers with `slice::sort` of the standard library:
/// afterwards the list holds the same numbers, each as often as before, in
/// ascending order.
#[verifier::external_body]
fn sort_indices(list: &mut Vec<usize>)
    ensures
        final(list)@.to_multiset() == old(list)@.to_multiset(),
        ascending(final(list)@),
{
    list.sort();
}

/// Sorts a list of labels with `slice::sort` of the standard library, which
/// orders strings as `label_lt` does: afterwards the list holds the same
/// labels, each as often as before, and none comes before an earlier one.
#[verifier::external_body]
fn sort_labels(labels: &mut Vec<String>)
    ensures
        final(labels).deep_view().to_multiset() == old(labels).deep_view().to_multiset(),
        forall|i: int, j: int|
            0 <= i <= j < final(labels)@.len() ==> label_le(
                #[trigger] final(labels).deep_view()[i],
                #[trigger] final(labels).deep_view()[j],
            ),
{
    labels.sort();
}

/// Both endpoints of every edge, in the order of `edges`.
fn collect_labels(edges: &EdgeList) -> (collected: Vec<String>)
    ensures
        forall|l: Label| #[trigger]
            collected.deep_view().contains(l) <==> mentions(edges.deep_view(), l),
{
    let ghost pairs = edges.deep_view();
    let mut collected: Vec<String> = Vec::new();
    let mut k: usize = 0;
    while k < edges.len()
        invariant
            0 <= k <= edges.len(),
            pairs == edges.deep_view(),
            forall|l: Label| #[trigger]
                collected.deep_view().contains(l) <==> mentions(pairs.take(k as int), l),
        decreases edges.len() - k,
    {
        let ghost before = collected.deep_view();
        collected.push(edges[k].0.clone());
        collected.push(edges[k].1.clone());
        proof {
            let after = collected.deep_view();
            let seen = pairs.take(k as int);
            let seen_now = pairs.take(k + 1);
            assert(after =~= before.push(pairs[k as int].0).push(pairs[k as int].1));
            assert forall|l: Label| #[trigger] after.contains(l) <==> mentions(seen_now, l) by {
                if after.contains(l) {
                    let i = choose|i: int| 0 <= i < after.len() && after[i] == l;
                    if i < before.len() {
                        assert(before[i] == l);
                        assert(before.contains(l));
                        let m = choose|m: int|
                            0 <= m < seen.len() && ((#[trigger] seen[m]).0 == l || seen[m].1 == l);
                        assert(seen_now[m] == seen[m]);
                    } else {
                        assert(seen_now[k as int] == pairs[k as int]);
                    }
                }
                if mentions(seen_now, l) {
                    let m = choose|m: int|
                        0 <= m < seen_now.len() && ((#[trigger] seen_now[m]).0 == l || seen_now[m].1
                            == l);
                    if m < k {
                        assert(seen[m] == seen_now[m]);
                        assert(mentions(seen, l));
                        assert(before.contains(l));
                        let i = choose|i: int| 0 <= i < before.len() && before[i] == l;
                        assert(after[i] == l);
                    } else {
                        assert(after[before.len() as int] == pairs[k as int].0);
                        assert(after[before.len() as int + 1] == pairs[k as int].1);
                    }
                }
            }
        }
        k += 1;
    }
    proof {
        assert(pairs.take(k as int) =~= pairs);
    }
    collected
}

/// Keeps the first of each run of equal labels.
fn distinct_labels(sorted: Vec<String>) -> (kept: Vec<String>)
    requires
        forall|i: int, j: int|
            0 <= i <= j < sorted@.len() ==> label_le(
                #[trigger] sorted.deep_view()[i],
                #[trigger] sorted.deep_view()[j],
            ),
    ensures
        strictly_ascending(kept.deep_view()),
        forall|l: Label| #[trigger]
            kept.deep_view().contains(l) <==> sorted.deep_view().contains(l),
{
    let ghost all = sorted.deep_view();
    let mut kept: Vec<String> = Vec::new();
    let mut i: usize = 0;
    while i < sorted.len()
        invariant
            0 <= i <= sorted@.len(),
            all == sorted.deep_view(),
            forall|a: int, b: int|
                0 <= a <= b < all.len() ==> label_le(#[trigger] all[a], #[trigger] all[b]),
            strictly_ascending(kept.deep_view()),
            i > 0 ==> kept@.len() > 0 && kept.deep_view().last() == all[i - 1],
            i == 0 ==> kept@.len() == 0,
            forall|l: Label| #[trigger]
                kept.deep_view().contains(l) <==> all.take(i as int).contains(l),
        decreases sorted@.len() - i,
    {
        let ghost before = kept.deep_view();
        let fresh = kept.len() == 0 || !(kept[kept.len() - 1] == sorted[i]);
        if fresh {
            kept.push(sorted[i].clone());
        }
        proof {
            let after = kept.deep_view();
            let x = all[i as int];
            let seen = all.take(i as int);
            let seen_now = all.take(i + 1);
            assert(seen_now =~= seen.push(x));
            if fresh {
                assert(after =~= before.push(x));
                assert forall|a: int, b: int| 0 <= a < b < after.len() implies label_lt(
                    #[trigger] after[a],
                    #[trigger] after[b],
                ) by {
                    if b == before.len() {
                        let last = before.last();
                        assert(label_le(all[i - 1], all[i as int]));
                        assert(label_lt(last, x));
                        if a < before.len() - 1 {
                            assert(label_lt(before[a], last));
                            lemma_label_lt_transitive(before[a], last, x);
                        }
                    } else {
                        assert(label_lt(before[a], before[b]));
                    }
                }
            } else {
                assert(after == before);
            }
            assert forall|l: Label| #[trigger] after.contains(l) <==> seen_now.contains(l) by {
                if after.contains(l) {
                    let a = choose|a: int| 0 <= a < after.len() && after[a] == l;
                    if a < before.len() {
                        assert(before.contains(l));
                        let b = choose|b: int| 0 <= b < seen.len() && seen[b] == l;
                        assert(seen_now[b] == l);
                    } else {
                        assert(seen_now[i as int] == l);
                    }
                }
                if seen_now.contains(l) {
                    let b = choose|b: int| 0 <= b < seen_now.len() && seen_now[b] == l;
                    if b < i {
                        assert(seen[b] == l);
                        assert(seen.contains(l));
                        assert(before.contains(l));
                        let a = choose|a: int| 0 <= a < before.len() && before[a] == l;
                        assert(after[a] == l);
                    } else {
                        assert(after[after.len() - 1] == l);
                    }
                }
            }
        }
        i += 1;
    }
    proof {
        assert(all.take(i as int) =~= all);
    }
    kept
}

impl Graph {
    /// The labels of the nodes, by node number.
    pub open spec fn labels(&self) -> Seq<Label> {
        self.node_labels.deep_view()
    }

    /// The neighbour lists, by node number.
    pub open spec fn adjacency(&self) -> Seq<Seq<usize>> {
        Seq::new(self.outeredges@.len(), |i: int| self.outeredges@[i]@)
    }

    /// How many edges lead from node `i` to node `j`.
    pub open spec fn edge_count(&self, i: int, j: int) -> nat {
        occurrences(self.adjacency()[i], j)
    }

    /// Whether there is one neighbour list per node and every neighbour is
    /// a node of the graph: the part of the invariant that a traversal
    /// rests on.
    pub open spec fn adjacency_wf(&self) -> bool {
        &&& self.outeredges@.len() == self.node_count
        &&& closed(self.adjacency())
    }

    /// The invariant of a graph: one label and one neighbour list per node,
    /// labels in strictly ascending order, the lookup map their inverse, and
    /// every neighbour a node of the graph.
    pub open spec fn wf(&self) -> bool {
        &&& self.node_labels@.len() == self.node_count
        &&& strictly_ascending(self.labels())
        &&& forall|l: Label| #[trigger]
            self.node_indices@.contains_key(l) <==> self.labels().contains(l)
        &&& forall|i: int|
            0 <= i < self.node_count ==> self.node_indices@[#[trigger] self.labels()[i]] == i
        &&& self.adjacency_wf()
    }

    /// Tells whether there is one neighbour list per node and every
    /// neighbour is a node of the graph.
    pub fn has_valid_adjacency(&self) -> (valid: bool)
        ensures
            valid == self.adjacency_wf(),
    {
        if self.outeredges.len() != self.node_count {
            return false;
        }
        let n = self.node_count;
        let mut i: usize = 0;
        while i < n
            invariant
                0 <= i <= n,
                n == self.node_count,
                self.outeredges@.len() == n,
                forall|a: int, k: int|
                    0 <= a < i && 0 <= k < self.adjacency()[a].len() ==> (
                    #[trigger] self.adjacency()[a][k]) < n,
            decreases n - i,
        {
            let mut k: usize = 0;
            while k < self.outeredges[i].len()
                invariant
                    0 <= i < n,
                    n == self.node_count,
                    self.outeredges@.len() == n,
                    0 <= k <= self.adjacency()[i as int].len(),
                    forall|a: int, b: int|
                        0 <= a < i && 0 <= b < self.adjacency()[a].len() ==> (
                        #[trigger] self.adjacency()[a][b]) < n,
                    forall|b: int| 0 <= b < k ==> (#[trigger] self.adjacency()[i as int][b]) < n,
                decreases self.adjacency()[i as int].len() - k,
            {
                if self.outeredges[i][k] >= n {
                    assert(self.adjacency()[i as int][k as int] >= self.adjacency().len());
                    return false;
                }
                k += 1;
            }
            i += 1;
        }
        true
    }

    /// Whether every neighbour list is in ascending order.
    pub open spec fn is_sorted(&self) -> bool {
        forall|i: int|
            0 <= i < self.adjacency().len() ==> ascending(#[trigger] self.adjacency()[i])
    }

    /// Whether node `j` is a neighbour of node `i` exactly when `i` is one
    /// of `j`.
    pub open spec fn is_symmetric(&self) -> bool {
        forall|i: int, j: int|
            0 <= i < self.node_count && 0 <= j < self.node_count ==> (self.adjacency()[i].contains(
                j as usize,
            ) <==> self.adjacency()[j].contains(i as usize))
    }

    /// Whether this is the directed graph of `edges`: its nodes are the
    /// labels that occur in `edges`, and as many edges lead from one node
    /// to another as `edges` holds that pair of labels; the neighbour lists
    /// are sorted.
    pub open spec fn is_directed_graph_of(&self, edges: Seq<(Label, Label)>) -> bool {
        &&& self.wf()
        &&& self.is_sorted()
        &&& forall|l: Label| #[trigger] self.labels().contains(l) <==> mentions(edges, l)
        &&& forall|i: int, j: int|
            0 <= i < self.node_count && 0 <= j < self.node_count ==> #[trigger] self.edge_count(
                i,
                j,
            ) == edges.to_multiset().count((self.labels()[i], self.labels()[j]))
    }

    /// Whether this is the undirected graph of `edges`: its nodes are the
    /// labels that occur in `edges`, and as many edges lead from one node
    /// to another as `edges` holds that pair of labels, in either order;
    /// the neighbour lists are sorted.
    pub open spec fn is_undirected_graph_of(&self, edges: Seq<(Label, Label)>) -> bool {
        &&& self.wf()
        &&& self.is_sorted()
        &&& forall|l: Label| #[trigger] self.labels().contains(l) <==> mentions(edges, l)
        &&& forall|i: int, j: int|
            0 <= i < self.node_count && 0 <= j < self.node_count ==> #[trigger] self.edge_count(
                i,
                j,
            ) == edges.to_multiset().count((self.labels()[i], self.labels()[j]))
                + edges.to_multiset().count((self.labels()[j], self.labels()[i]))
    }

    /// Builds the graph whose nodes are the labels that occur in `edges`,
    /// numbered in ascending order, with one edge from `u` to `v` for each
    /// occurrence of `(u, v)`; the neighbour lists are sorted.
    pub fn create_directed(edges: &EdgeList) -> (graph: Graph)
        ensures
            graph.is_directed_graph_of(edges.deep_view()),
    {
        let ghost pairs = edges.deep_view();
        let mut collected = collect_labels(edges);
        let ghost unsorted = collected.deep_view();
        sort_labels(&mut collected);
        let ghost sorted = collected.deep_view();
        let node_labels = distinct_labels(collected);
        let ghost labels = node_labels.deep_view();
        proof {
            assert forall|l: Label| #[trigger] labels.contains(l) <==> mentions(pairs, l) by {
                if sorted.contains(l) {
                    lemma_same_members(sorted, unsorted, l);
                }
                if unsorted.contains(l) {
                    lemma_same_members(unsorted, sorted, l);
                }
            }
        }
        let node_count = node_labels.len();

        let mut node_indices: StringHashMap<usize> = StringHashMap::new();
        let mut i: usize = 0;
        while i < node_count
            invariant
                0 <= i <= node_count,
                node_count == node_labels@.len(),
                labels == node_labels.deep_view(),
                strictly_ascending(labels),
                forall|l: Label| #[trigger]
                    node_indices@.contains_key(l) <==> labels.take(i as int).contains(l),
                forall|k: int| 0 <= k < i ==> node_indices@[#[trigger] labels[k]] == k,
            decreases node_count - i,
        {
            let ghost before = node_indices@;
            node_indices.insert(node_labels[i].clone(), i);
            proof {
                let x = labels[i as int];
                let seen = labels.take(i as int);
                let seen_now = labels.take(i + 1);
                assert(seen_now =~= seen.push(x));
                assert forall|l: Label| #[trigger]
                    node_indices@.contains_key(l) <==> seen_now.contains(l) by {
                    if seen_now.contains(l) {
                        let k = choose|k: int| 0 <= k < seen_now.len() && seen_now[k] == l;
                        if k < i {
                            assert(seen[k] == l);
                            assert(seen.contains(l));
                        }
                    }
                    if before.contains_key(l) {
                        assert(seen.contains(l));
                        let k = choose|k: int| 0 <= k < seen.len() && seen[k] == l;
                        assert(seen_now[k] == l);
                    }
                    if l == x {
                        assert(seen_now[i as int] == l);
                    }
                }
                assert forall|k: int| 0 <= k < i + 1 implies node_indices@[#[trigger] labels[k]]
                    == k by {
                    if k < i {
                        assert(label_lt(labels[k], labels[i as int]));
                        lemma_label_lt_irreflexive(labels[k]);
                    }
                }
            }
            i += 1;
        }
        proof {
            assert(labels.take(i as int) =~= labels);
        }

        let mut outeredges: Vec<Vec<usize>> = Vec::new();
        let mut i: usize = 0;
        while i < node_count
            invariant
                0 <= i <= node_count,
                outeredges@.len() == i,
                forall|k: int| 0 <= k < i ==> (#[trigger] outeredges@[k])@ == Seq::<usize>::empty(),
            decreases node_count - i,
        {
            outeredges.push(Vec::new());
            i += 1;
        }

        let mut graph = Graph { node_count, outeredges, node_labels, node_indices };
        let ghost index = graph.node_indices@;
        proof {
            assert forall|k: int| 0 <= k < pairs.len() implies index.contains_key(
                (#[trigger] pairs[k]).0,
            ) && index.contains_key(pairs[k].1) by {
                assert(mentions(pairs, pairs[k].0));
                assert(mentions(pairs, pairs[k].1));
                assert(labels.contains(pairs[k].0));
                assert(labels.contains(pairs[k].1));
            }
        }
        graph.add_directed_edges(edges);
        let ghost filled = graph.adjacency();
        graph.sort_graph_lists();
        proof {
            assert(graph.labels() == labels);
            assert forall|i: int, j: int|
                0 <= i < graph.node_count && 0 <= j
                    < graph.node_count implies #[trigger] graph.edge_count(i, j)
                == pairs.to_multiset().count((labels[i], labels[j])) by {
                assert(graph.adjacency()[i].to_multiset() == filled[i].to_multiset());
                lemma_occurrences_count(graph.adjacency()[i], j as usize);
                assert(filled[i] =~= targets_of(pairs, index, labels[i]));
                assert(labels.contains(labels[j]));
                lemma_targets_count(pairs, index, labels[i], labels[j]);
            }
        }
        graph
    }

    /// Builds the graph that has, for each pair `(u, v)` in `edges`, one
    /// edge from `u` to `v` and one from `v` to `u`.
    pub fn create_undirected(edges: &EdgeList) -> (graph: Graph)
        ensures
            graph.is_undirected_graph_of(edges.deep_view()),
            graph.is_symmetric(),
    {
        let ghost pairs = edges.deep_view();
        let mut directed_edges: EdgeList = Vec::new();
        let mut k: usize = 0;
        proof {
            broadcast use vstd::seq_lib::group_to_multiset_ensures;
            broadcast use vstd::multiset::group_multiset_axioms;

            assert(pairs.take(0).to_multiset().len() == 0);
            assert(directed_edges.deep_view().to_multiset().len() == 0);
            assert forall|l: Label|
                mentions(directed_edges.deep_view(), l) <==> mentions(pairs.take(0), l) by {
                assert(directed_edges.deep_view().len() == 0);
                assert(pairs.take(0).len() == 0);
            }
        }
        while k < edges.len()
            invariant
                0 <= k <= edges.len(),
                pairs == edges.deep_view(),
                forall|l: Label|
                    mentions(directed_edges.deep_view(), l) <==> mentions(pairs.take(k as int), l),
                forall|a: Label, b: Label| #[trigger]
                    directed_edges.deep_view().to_multiset().count((a, b)) == pairs.take(
                        k as int,
                    ).to_multiset().count((a, b)) + pairs.take(k as int).to_multiset().count(
                        (b, a),
                    ),
            decreases edges.len() - k,
        {
            let ghost before = directed_edges.deep_view();
            directed_edges.push((edges[k].0.clone(), edges[k].1.clone()));
            directed_edges.push((edges[k].1.clone(), edges[k].0.clone()));
            proof {
                let u = pairs[k as int].0;
                let v = pairs[k as int].1;
                let half = before.push((u, v));
                let after = directed_edges.deep_view();
                let seen = pairs.take(k as int);
                let seen_now = pairs.take(k + 1);
                assert(after =~= half.push((v, u)));
                assert(seen_now =~= seen.push((u, v)));
                lemma_mentions_push(before, (u, v));
                lemma_mentions_push(half, (v, u));
                lemma_mentions_push(seen, (u, v));
                assert forall|l: Label| mentions(after, l) <==> mentions(seen_now, l) by {
                    assert(mentions(before, l) <==> mentions(seen, l));
                    assert(mentions(half, l) <==> (mentions(before, l) || l == u || l == v));
                    assert(mentions(half.push((v, u)), l) <==> (mentions(half, l) || l == v || l
                        == u));
                    assert(mentions(seen.push((u, v)), l) <==> (mentions(seen, l) || l == u || l
                        == v));
                }
                assert forall|a: Label, b: Label| #[trigger]
                    after.to_multiset().count((a, b)) == seen_now.to_multiset().count((a, b))
                        + seen_now.to_multiset().count((b, a)) by {
                    broadcast use vstd::seq_lib::group_to_multiset_ensures;
                    broadcast use vstd::multiset::group_multiset_axioms;

                    assert(before.to_multiset().count((a, b)) == seen.to_multiset().count((a, b))
                        + seen.to_multiset().count((b, a)));
                    assert(half.to_multiset() =~= before.to_multiset().insert((u, v)));
                    assert(after.to_multiset() =~= half.to_multiset().insert((v, u)));
                    assert(seen_now.to_multiset() =~= seen.to_multiset().insert((u, v)));
                    assert(((u, v) == (b, a)) == ((v, u) == (a, b)));
                }
            }
            k += 1;
        }
        proof {
            assert(pairs.take(k as int) =~= pairs);
        }
        let ghost doubled = directed_edges.deep_view();
        let mut graph = Graph::create_directed(&directed_edges);
        let ghost built = graph;
        graph.sort_graph_lists();
        proof {
            assert(graph.labels() == built.labels());
            assert(graph.adjacency() == built.adjacency());
            assert forall|l: Label| #[trigger]
                graph.labels().contains(l) <==> mentions(pairs, l) by {
                assert(built.labels().contains(l) <==> mentions(doubled, l));
                assert(mentions(doubled, l) <==> mentions(pairs, l));
            }
            assert forall|i: int, j: int|
                0 <= i < graph.node_count && 0 <= j
                    < graph.node_count implies #[trigger] graph.edge_count(i, j)
                == pairs.to_multiset().count((graph.labels()[i], graph.labels()[j]))
                + pairs.to_multiset().count((graph.labels()[j], graph.labels()[i])) by {
                assert(built.edge_count(i, j) == doubled.to_multiset().count(
                    (built.labels()[i], built.labels()[j]),
                ));
            }
            lemma_undirected_graph_symmetric(pairs, &graph);
        }
        graph
    }

    /// Appends, for each edge `(u, v)` in turn, the number of `v` to the
    /// neighbour list of `u`. Every label in `edges` must be a node of the
    /// graph.
    pub fn add_directed_edges(&mut self, edges: &EdgeList)
        requires
            old(self).wf(),
            forall|k: int|
                0 <= k < edges.len() ==> old(self).node_indices@.contains_key(
                    (#[trigger] edges.deep_view()[k]).0,
                ) && old(self).node_indices@.contains_key(edges.deep_view()[k].1),
        ensures
            final(self).wf(),
            final(self).node_count == old(self).node_count,
            final(self).node_labels == old(self).node_labels,
            final(self).node_indices == old(self).node_indices,
            forall|i: int|
                0 <= i < old(self).node_count ==> #[trigger] final(self).adjacency()[i]
                    == old(self).adjacency()[i] + targets_of(
                    edges.deep_view(),
                    old(self).node_indices@,
                    old(self).labels()[i],
                ),
    {
        let ghost pairs = edges.deep_view();
        let ghost index = self.node_indices@;
        let mut k: usize = 0;
        while k < edges.len()
            invariant
                0 <= k <= edges.len(),
                pairs == edges.deep_view(),
                index == old(self).node_indices@,
                old(self).wf(),
                self.wf(),
                self.node_count == old(self).node_count,
                self.node_labels == old(self).node_labels,
                self.node_indices == old(self).node_indices,
                forall|k: int|
                    0 <= k < pairs.len() ==> index.contains_key((#[trigger] pairs[k]).0)
                        && index.contains_key(pairs[k].1),
                forall|i: int|
                    0 <= i < self.node_count ==> #[trigger] self.adjacency()[i]
                        == old(self).adjacency()[i] + targets_of(
                        pairs.take(k as int),
                        index,
                        self.labels()[i],
                    ),
            decreases edges.len() - k,
        {
            let ghost before = self.adjacency();
            let ghost u = pairs[k as int].0;
            let ghost v = pairs[k as int].1;
            assert(edges[k as int].0@ == u && edges[k as int].1@ == v);
            assert(self.labels().contains(u) && self.labels().contains(v));
            let u_index = *self.node_indices.get(edges[k].0.as_str()).unwrap();
            let v_index = *self.node_indices.get(edges[k].1.as_str()).unwrap();
            assert(self.labels()[u_index as int] == u);
            self.outeredges[u_index].push(v_index);
            proof {
                assert(self.outeredges@.len() == before.len());
                assert(self.outeredges@[u_index as int]@ == before[u_index as int].push(v_index));
                assert(forall|i: int|
                    0 <= i < self.outeredges@.len() && i != u_index ==> self.outeredges@[i]@
                        == before[i]);
                assert(pairs.take(k + 1).drop_last() == pairs.take(k as int));
                assert(pairs.take(k + 1).last() == pairs[k as int]);
                assert forall|i: int|
                    0 <= i < self.node_count implies #[trigger] self.adjacency()[i]
                    == old(self).adjacency()[i] + targets_of(
                    pairs.take(k + 1),
                    index,
                    self.labels()[i],
                ) by {
                    let earlier = targets_of(pairs.take(k as int), index, self.labels()[i]);
                    assert(before[i] == old(self).adjacency()[i] + earlier);
                    if i == u_index {
                        assert(self.adjacency()[i] =~= old(self).adjacency()[i] + earlier.push(
                            v_index,
                        ));
                    } else {
                        assert(self.labels()[i] != u);
                    }
                }
                assert(closed(self.adjacency())) by {
                    assert forall|i: int, j: int|
                        0 <= i < self.adjacency().len() && 0 <= j
                            < self.adjacency()[i].len() implies (#[trigger] self.adjacency()[i][j])
                        < self.adjacency().len() by {
                        if i == u_index && j == before[i].len() {
                        } else {
                            assert(self.adjacency()[i][j] == before[i][j]);
                        }
                    }
                }
            }
            k += 1;
        }
        proof {
            assert(pairs.take(k as int) =~= pairs);
        }
    }

    /// Puts every neighbour list in ascending order. Lists that are in
    /// order already stay as they are.
    pub fn sort_graph_lists(&mut self)
        ensures
            final(self).node_count == old(self).node_count,
            final(self).node_labels == old(self).node_labels,
            final(self).node_indices == old(self).node_indices,
            final(self).adjacency().len() == old(self).adjacency().len(),
            final(self).is_sorted(),
            forall|i: int|
                0 <= i < old(self).adjacency().len() ==> (#[trigger] final(
                    self).adjacency()[i]).to_multiset()
                    == old(self).adjacency()[i].to_multiset(),
            same_edges(old(self).adjacency(), final(self).adjacency()),
            old(self).adjacency_wf() ==> final(self).adjacency_wf(),
            old(self).wf() ==> final(self).wf(),
            old(self).is_sorted() ==> final(self).adjacency() == old(self).adjacency(),
    {
        let mut i: usize = 0;
        while i < self.outeredges.len()
            invariant
                0 <= i <= self.outeredges@.len(),
                self.node_count == old(self).node_count,
                self.node_labels == old(self).node_labels,
                self.node_indices == old(self).node_indices,
                self.adjacency().len() == old(self).adjacency().len(),
                forall|j: int| 0 <= j < i ==> ascending(#[trigger] self.adjacency()[j]),
                forall|j: int|
                    0 <= j < self.adjacency().len() ==> (
                    #[trigger] self.adjacency()[j]).to_multiset()
                        == old(self).adjacency()[j].to_multiset(),
                forall|j: int|
                    i <= j < self.adjacency().len() ==> #[trigger] self.adjacency()[j]
                        == old(self).adjacency()[j],
                old(self).is_sorted() ==> self.adjacency() == old(self).adjacency(),
            decreases self.outeredges@.len() - i,
        {
            let ghost before = self.adjacency();
            sort_indices(&mut self.outeredges[i]);
            proof {
                assert(self.outeredges@.len() == before.len());
                assert(forall|j: int|
                    0 <= j < self.outeredges@.len() && j != i ==> self.outeredges@[j]@
                        == before[j]);
                assert(self.adjacency()[i as int] == self.outeredges@[i as int]@);
                assert(ascending(self.outeredges@[i as int]@));
                assert(self.outeredges@[i as int]@.to_multiset() == before[i as int].to_multiset());
                assert forall|j: int| 0 <= j < self.adjacency().len() implies (
                #[trigger] self.adjacency()[j]).to_multiset()
                    == old(self).adjacency()[j].to_multiset() && (j != i ==> self.adjacency()[j]
                    == before[j]) by {
                    assert(before[j].to_multiset() == old(self).adjacency()[j].to_multiset());
                }
                if old(self).is_sorted() {
                    lemma_ascending_unique(self.adjacency()[i as int], before[i as int]);
                    assert(self.adjacency() =~= before);
                }
            }
            i += 1;
        }
        proof {
            assert forall|v: int, t: int|
                0 <= v < self.adjacency().len() && 0 <= t
                    < self.adjacency().len() implies #[trigger] occurrences(
                old(self).adjacency()[v],
                t,
            ) == occurrences(self.adjacency()[v], t) by {
                lemma_occurrences_count(old(self).adjacency()[v], t as usize);
                lemma_occurrences_count(self.adjacency()[v], t as usize);
            }
            if old(self).adjacency_wf() {
                assert(self.labels() == old(self).labels());
                assert(closed(self.adjacency())) by {
                    assert forall|i: int, k: int|
                        0 <= i < self.adjacency().len() && 0 <= k
                            < self.adjacency()[i].len() implies (#[trigger] self.adjacency()[i][k])
                        < self.adjacency().len() by {
                        lemma_same_members(
                            self.adjacency()[i],
                            old(self).adjacency()[i],
                            self.adjacency()[i][k],
                        );
                    }
                }
            }
        }
    }
}

/// Adding an edge to a list adds its two endpoints to the labels that the
/// list mentions.
proof fn lemma_mentions_push(edges: Seq<(Label, Label)>, edge: (Label, Label))
    ensures
        forall|l: Label|
            mentions(edges.push(edge), l) <==> (mentions(edges, l) || l == edge.0 || l == edge.1),
{
    let longer = edges.push(edge);
    assert forall|l: Label| mentions(longer, l) <==> (mentions(edges, l) || l == edge.0 || l
        == edge.1) by {
        if mentions(longer, l) {
            let k = choose|k: int|
                0 <= k < longer.len() && ((#[trigger] longer[k]).0 == l || longer[k].1 == l);
            if k < edges.len() {
                assert(edges[k] == longer[k]);
            }
        }
        if mentions(edges, l) {
            let k = choose|k: int|
                0 <= k < edges.len() && ((#[trigger] edges[k]).0 == l || edges[k].1 == l);
            assert(longer[k] == edges[k]);
        }
        if l == edge.0 || l == edge.1 {
            assert(longer[edges.len() as int] == edge);
        }
    }
}

/// Among the targets of the edges that leave `from`, the number of `to`
/// occurs once for each edge from `from` to `to`, provided `index` gives
/// different labels different numbers.
proof fn lemma_targets_count(
    edges: Seq<(Label, Label)>,
    index: Map<Label, usize>,
    from: Label,
    to: Label,
)
    requires
        forall|k: int| 0 <= k < edges.len() ==> index.contains_key((#[trigger] edges[k]).1),
        index.contains_key(to),
        forall|a: Label, b: Label|
            index.contains_key(a) && index.contains_key(b) && #[trigger] index[a]
                == #[trigger] index[b] ==> a == b,
    ensures
        targets_of(edges, index, from).to_multiset().count(index[to]) == edges.to_multiset().count(
            (from, to),
        ),
    decreases edges.len(),
{
    broadcast use vstd::seq_lib::group_to_multiset_ensures;
    broadcast use vstd::multiset::group_multiset_axioms;

    if edges.len() == 0 {
        assert(edges.to_multiset().len() == 0);
        assert(targets_of(edges, index, from).to_multiset().len() == 0);
    } else {
        let earlier = edges.drop_last();
        let e = edges.last();
        assert(edges =~= earlier.push(e));
        assert forall|k: int| 0 <= k < earlier.len() implies index.contains_key(
            (#[trigger] earlier[k]).1,
        ) by {
            assert(earlier[k] == edges[k]);
        }
        lemma_targets_count(earlier, index, from, to);
        assert(index.contains_key(e.1));
        assert(edges.to_multiset() =~= earlier.to_multiset().insert(e));
    }
}

/// Lists that hold the same items equally often hold the same items.
proof fn lemma_same_members<T>(a: Seq<T>, b: Seq<T>, x: T)
    requires
        a.to_multiset() == b.to_multiset(),
        a.contains(x),
    ensures
        b.contains(x),
{
    broadcast use vstd::seq_lib::group_to_multiset_ensures;

    assert(a.to_multiset().count(x) > 0);
    assert(b.to_multiset().count(x) > 0);
}

/// Two ascending lists that hold the same numbers equally often are equal.
proof fn lemma_ascending_unique(a: Seq<usize>, b: Seq<usize>)
    requires
        ascending(a),
        ascending(b),
        a.to_multiset() == b.to_multiset(),
    ensures
        a == b,
{
    let leq = |x: usize, y: usize| x <= y;
    assert(vstd::relations::sorted_by(a, leq));
    assert(vstd::relations::sorted_by(b, leq));
    assert(vstd::relations::total_ordering(leq));
    vstd::seq_lib::lemma_sorted_unique(a, b, leq);
}

/// The nodes of a graph are numbered from 0 up to its node count, without
/// gaps, in the strictly ascending order of their labels: the lookup map
/// gives each label a number below the node count, the label at that
/// number is the label itself, and every number below the node count is
/// that of its label.
pub proof fn lemma_node_numbers(graph: &Graph)
    requires
        graph.wf(),
    ensures
        strictly_ascending(graph.labels()),
        graph.labels().len() == graph.node_count,
        forall|l: Label| #[trigger]
            graph.node_indices@.contains_key(l) ==> graph.node_indices@[l] < graph.node_count
                && graph.labels()[graph.node_indices@[l] as int] == l,
        forall|i: int|
            0 <= i < graph.node_count ==> graph.node_indices@.contains_key(
                #[trigger] graph.labels()[i],
            ) && graph.node_indices@[graph.labels()[i]] == i,
{
    assert forall|l: Label| #[trigger]
        graph.node_indices@.contains_key(l) implies graph.node_indices@[l] < graph.node_count
        && graph.labels()[graph.node_indices@[l] as int] == l by {
        assert(graph.labels().contains(l));
        let i = choose|i: int| 0 <= i < graph.labels().len() && graph.labels()[i] == l;
        assert(graph.node_indices@[graph.labels()[i]] == i);
    }
    assert forall|i: int| 0 <= i < graph.node_count implies graph.node_indices@.contains_key(
        #[trigger] graph.labels()[i],
    ) && graph.node_indices@[graph.labels()[i]] == i by {
        assert(graph.labels().contains(graph.labels()[i]));
    }
}

/// A graph is determined by its labels and by the number of edges between
/// each two nodes, once its neighbour lists are sorted: two such graphs
/// with the same labels and the same numbers of edges have the same nodes,
/// the same lookup map and the same neighbour lists.
pub proof fn lemma_graph_determined(a: &Graph, b: &Graph)
    requires
        a.wf(),
        b.wf(),
        a.is_sorted(),
        b.is_sorted(),
        forall|l: Label| a.labels().contains(l) <==> b.labels().contains(l),
        forall|i: int, j: int|
            0 <= i < a.node_count && 0 <= j < a.node_count ==> #[trigger] a.edge_count(i, j)
                == b.edge_count(i, j),
    ensures
        a.node_count == b.node_count,
        a.labels() == b.labels(),
        a.node_indices@ == b.node_indices@,
        a.adjacency() == b.adjacency(),
{
    lemma_strictly_ascending_unique(a.labels(), b.labels());
    assert(a.labels().len() == a.node_count);
    assert(b.labels().len() == b.node_count);
    assert(a.node_indices@ =~= b.node_indices@) by {
        assert forall|l: Label| a.node_indices@.contains_key(l) implies a.node_indices@[l]
            == b.node_indices@[l] by {
            assert(a.labels().contains(l));
            let i = choose|i: int| 0 <= i < a.labels().len() && a.labels()[i] == l;
            assert(a.node_indices@[a.labels()[i]] == i);
            assert(b.node_indices@[b.labels()[i]] == i);
        }
    }
    assert forall|i: int| 0 <= i < a.node_count implies a.adjacency()[i] == b.adjacency()[i] by {
        let x = a.adjacency()[i];
        let y = b.adjacency()[i];
        assert forall|node: usize| x.to_multiset().count(node) == y.to_multiset().count(node) by {
            lemma_occurrences_count(x, node);
            lemma_occurrences_count(y, node);
            if node < a.node_count {
                assert(a.edge_count(i, node as int) == b.edge_count(i, node as int));
            } else {
                lemma_occurrences_positive(x, node as int);
                lemma_occurrences_positive(y, node as int);
                if occurrences(x, node as int) > 0 {
                    let k = choose|k: int| 0 <= k < x.len() && x[k] == node as int;
                    assert(a.adjacency()[i][k] < a.adjacency().len());
                }
                if occurrences(y, node as int) > 0 {
                    let k = choose|k: int| 0 <= k < y.len() && y[k] == node as int;
                    assert(b.adjacency()[i][k] < b.adjacency().len());
                }
            }
        }
        assert(x.to_multiset() =~= y.to_multiset());
        lemma_ascending_unique(x, y);
    }
    assert(a.adjacency() =~= b.adjacency());
}

/// Whatever is the directed graph of a list of edges is the same graph:
/// the list determines the nodes, their numbers and the neighbour lists.
pub proof fn lemma_directed_graph_unique(edges: Seq<(Label, Label)>, a: &Graph, b: &Graph)
    requires
        a.is_directed_graph_of(edges),
        b.is_directed_graph_of(edges),
    ensures
        a.node_count == b.node_count,
        a.labels() == b.labels(),
        a.node_indices@ == b.node_indices@,
        a.adjacency() == b.adjacency(),
{
    lemma_strictly_ascending_unique(a.labels(), b.labels());
    assert(a.labels().len() == a.node_count);
    assert(b.labels().len() == b.node_count);
    assert forall|i: int, j: int|
        0 <= i < a.node_count && 0 <= j < a.node_count implies #[trigger] a.edge_count(i, j)
        == b.edge_count(i, j) by {
        assert(b.edge_count(i, j) == b.edge_count(i, j));
    }
    lemma_graph_determined(a, b);
}

/// Whatever is the undirected graph of a list of edges is the same graph.
pub proof fn lemma_undirected_graph_unique(edges: Seq<(Label, Label)>, a: &Graph, b: &Graph)
    requires
        a.is_undirected_graph_of(edges),
        b.is_undirected_graph_of(edges),
    ensures
        a.node_count == b.node_count,
        a.labels() == b.labels(),
        a.node_indices@ == b.node_indices@,
        a.adjacency() == b.adjacency(),
{
    lemma_strictly_ascending_unique(a.labels(), b.labels());
    assert(a.labels().len() == a.node_count);
    assert(b.labels().len() == b.node_count);
    assert forall|i: int, j: int|
        0 <= i < a.node_count && 0 <= j < a.node_count implies #[trigger] a.edge_count(i, j)
        == b.edge_count(i, j) by {
        assert(b.edge_count(i, j) == b.edge_count(i, j));
    }
    lemma_graph_determined(a, b);
}

/// In a graph with as many edges from `i` to `j` as from `j` to `i`, each
/// node is a neighbour of its neighbours.
pub proof fn lemma_undirected_graph_symmetric(edges: Seq<(Label, Label)>, graph: &Graph)
    requires
        graph.is_undirected_graph_of(edges),
    ensures
        graph.is_symmetric(),
        forall|i: int, j: int|
            0 <= i < graph.node_count && 0 <= j < graph.node_count ==> graph.edge_count(i, j)
                == graph.edge_count(j, i),
{
    assert forall|i: int, j: int|
        0 <= i < graph.node_count && 0 <= j < graph.node_count implies graph.edge_count(i, j)
        == graph.edge_count(j, i) && (graph.adjacency()[i].contains(j as usize)
        <==> graph.adjacency()[j].contains(i as usize)) by {
        assert(graph.edge_count(i, j) == edges.to_multiset().count(
            (graph.labels()[i], graph.labels()[j]),
        ) + edges.to_multiset().count((graph.labels()[j], graph.labels()[i])));
        assert(graph.edge_count(j, i) == edges.to_multiset().count(
            (graph.labels()[j], graph.labels()[i]),
        ) + edges.to_multiset().count((graph.labels()[i], graph.labels()[j])));
        lemma_contains_is_occurs(graph.adjacency()[i], j as usize);
        lemma_contains_is_occurs(graph.adjacency()[j], i as usize);
    }
    assert forall|i: int, j: int|
        0 <= i < graph.node_count && 0 <= j < graph.node_count implies (
    graph.adjacency()[i].contains(j as usize) <==> graph.adjacency()[j].contains(i as usize)) by {
        assert(graph.edge_count(i, j) == graph.edge_count(j, i));
    }
}

/// A list contains a number exactly when the number occurs in it.
proof fn lemma_contains_is_occurs(list: Seq<usize>, node: usize)
    ensures
        list.contains(node) <==> occurrences(list, node as int) > 0,
{
    lemma_occurrences_positive(list, node as int);
    if list.contains(node) {
        let k = choose|k: int| 0 <= k < list.len() && list[k] == node;
        assert(list[k] == node as int);
    }
    if occurrences(list, node as int) > 0 {
        let k = choose|k: int| 0 <= k < list.len() && list[k] == node as int;
        assert(list[k] == node);
    }
}

} // verus!
