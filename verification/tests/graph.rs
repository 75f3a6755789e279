use centrality::{EdgeList, Graph};

fn edges(pairs: &[(&str, &str)]) -> EdgeList {
    pairs.iter().map(|(u, v)| (u.to_string(), v.to_string())).collect()
}

fn labels(graph: &Graph) -> Vec<&str> {
    graph.node_labels.iter().map(|l| l.as_str()).collect()
}

#[test]
fn single_edge_undirected() {
    let g = Graph::create_undirected(&edges(&[("A", "B")]));
    assert_eq!(g.node_count, 2);
    assert_eq!(labels(&g), vec!["A", "B"]);
    assert_eq!(g.outeredges, vec![vec![1], vec![0]]);
    assert_eq!(g.node_indices.get("A"), Some(&0));
    assert_eq!(g.node_indices.get("B"), Some(&1));
    assert_eq!(g.node_indices.get("C"), None);
}

#[test]
fn single_edge_directed() {
    let g = Graph::create_directed(&edges(&[("A", "B")]));
    assert_eq!(g.node_count, 2);
    assert_eq!(g.outeredges, vec![vec![1], vec![]]);
}

#[test]
fn path_of_three_nodes_has_degrees_one_two_one() {
    let g = Graph::create_undirected(&edges(&[("A", "B"), ("B", "C")]));
    assert_eq!(labels(&g), vec!["A", "B", "C"]);
    assert_eq!(g.outeredges, vec![vec![1], vec![0, 2], vec![1]]);
}

#[test]
fn triangle_has_degree_two_everywhere() {
    let g = Graph::create_undirected(&edges(&[("A", "B"), ("B", "C"), ("C", "A")]));
    assert_eq!(g.node_count, 3);
    assert_eq!(g.outeredges, vec![vec![1, 2], vec![0, 2], vec![0, 1]]);
}

#[test]
fn labels_are_numbered_in_ascending_order() {
    let g = Graph::create_directed(&edges(&[("b", "a"), ("B", "aa"), ("a", "b")]));
    assert_eq!(labels(&g), vec!["B", "a", "aa", "b"]);
    assert_eq!(g.node_count, 4);
    for (i, label) in g.node_labels.iter().enumerate() {
        assert_eq!(g.node_indices.get(label.as_str()), Some(&i));
    }
    assert_eq!(g.node_indices.len(), 4);
    assert_eq!(g.outeredges, vec![vec![2], vec![3], vec![], vec![1]]);
}

#[test]
fn labels_are_ordered_by_code_point() {
    let g = Graph::create_directed(&edges(&[("é", "z"), ("Z", "")]));
    assert_eq!(labels(&g), vec!["", "Z", "z", "é"]);
}

#[test]
fn repeated_edges_are_kept() {
    let g = Graph::create_undirected(&edges(&[("A", "B"), ("A", "B"), ("B", "A")]));
    assert_eq!(g.outeredges, vec![vec![1, 1, 1], vec![0, 0, 0]]);
}

#[test]
fn a_loop_is_listed_twice_in_an_undirected_graph() {
    let g = Graph::create_undirected(&edges(&[("A", "A"), ("A", "B")]));
    assert_eq!(g.outeredges, vec![vec![0, 0, 1], vec![0]]);
}

#[test]
fn neighbour_lists_are_sorted() {
    let g = Graph::create_directed(&edges(&[("A", "D"), ("A", "B"), ("A", "C"), ("A", "B")]));
    assert_eq!(g.outeredges[0], vec![1, 1, 2, 3]);
}

#[test]
fn undirected_adjacency_is_symmetric() {
    let g = Graph::create_undirected(&edges(&[
        ("d", "a"),
        ("a", "c"),
        ("c", "b"),
        ("e", "a"),
        ("b", "e"),
        ("a", "d"),
    ]));
    for i in 0..g.node_count {
        for j in 0..g.node_count {
            let forth = g.outeredges[i].iter().filter(|&&x| x == j).count();
            let back = g.outeredges[j].iter().filter(|&&x| x == i).count();
            assert_eq!(forth, back);
        }
    }
}

#[test]
fn no_edges_give_an_empty_graph() {
    let g = Graph::create_undirected(&Vec::new());
    assert_eq!(g.node_count, 0);
    assert!(g.node_labels.is_empty());
    assert!(g.outeredges.is_empty());
    assert!(g.node_indices.is_empty());
}

#[test]
fn add_directed_edges_appends_in_input_order() {
    let mut g = Graph::create_directed(&edges(&[("A", "B"), ("B", "C")]));
    g.add_directed_edges(&edges(&[("A", "C"), ("A", "A"), ("C", "B"), ("A", "B")]));
    assert_eq!(g.outeredges, vec![vec![1, 2, 0, 1], vec![2], vec![1]]);
    assert_eq!(g.node_count, 3);
    assert_eq!(labels(&g), vec!["A", "B", "C"]);
}

#[test]
fn sort_graph_lists_sorts_and_is_idempotent() {
    let mut g = Graph::create_directed(&edges(&[("A", "B"), ("B", "C")]));
    g.add_directed_edges(&edges(&[("A", "C"), ("A", "A"), ("C", "B"), ("A", "B")]));
    g.sort_graph_lists();
    assert_eq!(g.outeredges, vec![vec![0, 1, 1, 2], vec![2], vec![1]]);
    g.sort_graph_lists();
    assert_eq!(g.outeredges, vec![vec![0, 1, 1, 2], vec![2], vec![1]]);
}

#[test]
fn building_twice_gives_the_same_graph() {
    let input = edges(&[("x", "y"), ("y", "z"), ("z", "x"), ("x", "w")]);
    let g = Graph::create_undirected(&input);
    let h = Graph::create_undirected(&input);
    assert_eq!(g.node_count, h.node_count);
    assert_eq!(g.node_labels, h.node_labels);
    assert_eq!(g.outeredges, h.outeredges);
}

#[test]
fn built_graphs_have_a_valid_adjacency() {
    let g = Graph::create_undirected(&edges(&[("A", "B"), ("B", "C"), ("C", "C")]));
    assert!(g.has_valid_adjacency());
    assert!(Graph::create_directed(&Vec::new()).has_valid_adjacency());
}

#[test]
fn a_neighbour_that_is_no_node_is_found() {
    let mut g = Graph::create_undirected(&edges(&[("A", "B"), ("B", "C")]));
    g.outeredges[2].push(3);
    assert!(!g.has_valid_adjacency());
    g.outeredges[2].pop();
    assert!(g.has_valid_adjacency());
    g.node_count = 4;
    assert!(!g.has_valid_adjacency());
    g.node_count = 2;
    assert!(!g.has_valid_adjacency());
}
