use centrality::{rank_nodes, top_three, CentralityError, EdgeList, Graph};

fn edge_list(pairs: &[(&str, &str)]) -> EdgeList {
    pairs.iter().map(|(u, v)| (u.to_string(), v.to_string())).collect()
}

#[test]
fn single_edge_scores_one_each() {
    let g = Graph::create_undirected(&edge_list(&[("A", "B")]));
    assert_eq!(Graph::compute_centralities(&g), Ok(vec![1, 1]));
    let from_a = Graph::traverse(&g, 0).unwrap();
    assert_eq!(from_a.num_paths, vec![1, 1]);
    assert_eq!(from_a.distance, vec![Some(0), Some(1)]);
}

#[test]
fn path_of_three_nodes_scores_one_two_one() {
    let g = Graph::create_undirected(&edge_list(&[("A", "B"), ("B", "C")]));
    assert_eq!(Graph::compute_centralities(&g), Ok(vec![1, 2, 1]));
}

#[test]
fn triangle_scores_two_everywhere() {
    let g = Graph::create_undirected(&edge_list(&[("A", "B"), ("B", "C"), ("C", "A")]));
    assert_eq!(Graph::compute_centralities(&g), Ok(vec![2, 2, 2]));
}

#[test]
fn traversal_counts_shortest_paths_of_a_diamond() {
    let g = Graph::create_undirected(&edge_list(&[
        ("A", "B"),
        ("A", "C"),
        ("B", "D"),
        ("C", "D"),
        ("D", "E"),
    ]));
    let found = Graph::traverse(&g, 0).unwrap();
    assert_eq!(found.source, 0);
    assert_eq!(found.distance, vec![Some(0), Some(1), Some(1), Some(2), Some(3)]);
    assert_eq!(found.num_paths, vec![1, 1, 1, 2, 2]);
    assert_eq!(Graph::source_score(&g, &found), 2);
    let from_d = Graph::traverse(&g, 3).unwrap();
    assert_eq!(from_d.distance, vec![Some(2), Some(1), Some(1), Some(0), Some(1)]);
    assert_eq!(from_d.num_paths, vec![2, 1, 1, 1, 1]);
    assert_eq!(Graph::source_score(&g, &from_d), 3);
}

#[test]
fn the_source_has_one_path_to_itself() {
    let g = Graph::create_undirected(&edge_list(&[
        ("A", "A"),
        ("A", "B"),
        ("B", "A"),
        ("B", "C"),
        ("C", "A"),
    ]));
    for s in 0..g.node_count {
        let found = Graph::traverse(&g, s).unwrap();
        assert_eq!(found.num_paths[s], 1);
        assert_eq!(found.distance[s], Some(0));
    }
}

#[test]
fn unreachable_nodes_have_no_distance_and_no_paths() {
    let g = Graph::create_directed(&edge_list(&[("A", "B"), ("C", "B")]));
    let found = Graph::traverse(&g, 0).unwrap();
    assert_eq!(found.distance, vec![Some(0), Some(1), None]);
    assert_eq!(found.num_paths, vec![1, 1, 0]);
    let from_b = Graph::traverse(&g, 1).unwrap();
    assert_eq!(from_b.distance, vec![None, Some(0), None]);
    assert_eq!(from_b.num_paths, vec![0, 1, 0]);
    assert_eq!(Graph::compute_centralities(&g), Ok(vec![1, 0, 1]));
}

#[test]
fn repeated_edges_multiply_path_counts() {
    let g = Graph::create_undirected(&edge_list(&[
        ("A", "B"),
        ("A", "B"),
        ("B", "C"),
        ("B", "C"),
        ("B", "C"),
    ]));
    let found = Graph::traverse(&g, 0).unwrap();
    assert_eq!(found.distance, vec![Some(0), Some(1), Some(2)]);
    assert_eq!(found.num_paths, vec![1, 2, 6]);
    assert_eq!(Graph::compute_centralities(&g), Ok(vec![2, 5, 3]));
}

#[test]
fn loops_add_nothing_to_a_score() {
    let g = Graph::create_undirected(&edge_list(&[("A", "A"), ("A", "B")]));
    assert_eq!(g.outeredges, vec![vec![0, 0, 1], vec![0]]);
    assert_eq!(Graph::compute_centralities(&g), Ok(vec![1, 1]));
    assert_eq!(Graph::source_centrality(&g, 0), Ok(1));
}

#[test]
fn the_order_of_neighbours_does_not_change_the_traversal() {
    let mut g = Graph::create_directed(&edge_list(&[("A", "B"), ("B", "C"), ("C", "D")]));
    g.add_directed_edges(&edge_list(&[("A", "C"), ("C", "D"), ("B", "D"), ("A", "B")]));
    assert_eq!(g.outeredges, vec![vec![1, 2, 1], vec![2, 3], vec![3, 3], vec![]]);
    let unsorted = Graph::traverse(&g, 0).unwrap();
    g.sort_graph_lists();
    let sorted = Graph::traverse(&g, 0).unwrap();
    assert_eq!(unsorted.distance, sorted.distance);
    assert_eq!(unsorted.num_paths, sorted.num_paths);
    assert_eq!(sorted.distance, vec![Some(0), Some(1), Some(1), Some(2)]);
    assert_eq!(sorted.num_paths, vec![1, 2, 1, 4]);
}

#[test]
fn scores_are_the_same_on_every_run() {
    let g = Graph::create_undirected(&edge_list(&[
        ("a", "b"),
        ("b", "c"),
        ("c", "d"),
        ("d", "a"),
        ("a", "c"),
        ("e", "a"),
    ]));
    let first = Graph::compute_centralities(&g).unwrap();
    let second = Graph::compute_centralities(&g).unwrap();
    assert_eq!(first, second);
    assert_eq!(first, vec![4, 2, 3, 2, 1]);
    assert_eq!(top_three(&first), top_three(&second));
    assert_eq!(top_three(&first), Ok(vec![0, 2, 1]));
}

#[test]
fn too_many_shortest_paths_are_reported() {
    let mut pairs: Vec<(String, String)> = Vec::new();
    pairs.push(("S".to_string(), "L01a".to_string()));
    pairs.push(("S".to_string(), "L01b".to_string()));
    for layer in 1..33 {
        for from in ["a", "b"] {
            for to in ["a", "b"] {
                pairs.push((format!("L{:02}{}", layer, from), format!("L{:02}{}", layer + 1, to)));
            }
        }
    }
    let g = Graph::create_directed(&pairs);
    assert_eq!(g.node_count, 67);
    let source = *g.node_indices.get("S").unwrap();
    assert!(matches!(Graph::traverse(&g, source), Err(CentralityError::PathCountOverflow)));
    assert_eq!(Graph::source_centrality(&g, source), Err(CentralityError::PathCountOverflow));
    assert_eq!(Graph::compute_centralities(&g), Err(CentralityError::PathCountOverflow));
    let later = *g.node_indices.get("L02a").unwrap();
    let found = Graph::traverse(&g, later).unwrap();
    let last = *g.node_indices.get("L33b").unwrap();
    assert_eq!(found.distance[last], Some(31));
    assert_eq!(found.num_paths[last], 1u32 << 30);
    assert_eq!(Graph::source_centrality(&g, later), Ok(2));
}

#[test]
fn ranking_puts_high_scores_first_and_keeps_ties_in_order() {
    assert_eq!(rank_nodes(&vec![5, 7, 5, 7]), vec![1, 3, 0, 2]);
    assert_eq!(rank_nodes(&vec![1, 2, 3]), vec![2, 1, 0]);
    assert_eq!(rank_nodes(&vec![4, 4, 4, 4]), vec![0, 1, 2, 3]);
    assert_eq!(rank_nodes(&Vec::new()), Vec::<usize>::new());
    assert_eq!(rank_nodes(&vec![0, u64::MAX]), vec![1, 0]);
}

#[test]
fn top_three_of_a_path() {
    let g = Graph::create_undirected(&edge_list(&[("A", "B"), ("B", "C")]));
    let scores = Graph::compute_centralities(&g).unwrap();
    assert_eq!(top_three(&scores), Ok(vec![1, 0, 2]));
}

#[test]
fn top_three_of_a_triangle_keeps_label_order() {
    let g = Graph::create_undirected(&edge_list(&[("A", "B"), ("B", "C"), ("C", "A")]));
    let scores = Graph::compute_centralities(&g).unwrap();
    assert_eq!(top_three(&scores), Ok(vec![0, 1, 2]));
}

#[test]
fn top_three_takes_the_first_three_of_the_ranking() {
    let scores = vec![3, 9, 1, 9, 4, 3];
    assert_eq!(rank_nodes(&scores), vec![1, 3, 4, 0, 5, 2]);
    assert_eq!(top_three(&scores), Ok(vec![1, 3, 4]));
}

#[test]
fn top_three_of_two_nodes_is_refused() {
    let g = Graph::create_undirected(&edge_list(&[("A", "B")]));
    let scores = Graph::compute_centralities(&g).unwrap();
    assert_eq!(scores.len(), 2);
    assert_eq!(top_three(&scores), Err(CentralityError::InsufficientNodes));
    assert_eq!(top_three(&Vec::new()), Err(CentralityError::InsufficientNodes));
}

#[test]
fn scores_are_out_degrees_without_loops() {
    let g = Graph::create_directed(&edge_list(&[
        ("A", "B"),
        ("A", "B"),
        ("A", "A"),
        ("A", "C"),
        ("B", "C"),
        ("C", "C"),
    ]));
    assert_eq!(Graph::compute_centralities(&g), Ok(vec![3, 1, 0]));
}

#[test]
fn scores_are_never_negative() {
    let g = Graph::create_undirected(&edge_list(&[
        ("a", "b"),
        ("b", "b"),
        ("c", "d"),
        ("d", "a"),
        ("e", "e"),
    ]));
    let scores = Graph::compute_centralities(&g).unwrap();
    assert_eq!(scores, vec![2, 1, 1, 2, 0]);
    for score in scores {
        assert!(score as f64 >= 0.0);
    }
}

#[test]
fn sorting_the_neighbours_keeps_the_scores() {
    let mut g = Graph::create_directed(&edge_list(&[("A", "B"), ("B", "C"), ("C", "D")]));
    g.add_directed_edges(&edge_list(&[("D", "C"), ("D", "A"), ("D", "D"), ("D", "B"), ("D", "A")]));
    assert_eq!(g.outeredges[3], vec![2, 0, 3, 1, 0]);
    let before = Graph::compute_centralities(&g);
    g.sort_graph_lists();
    assert_eq!(g.outeredges[3], vec![0, 0, 1, 2, 3]);
    assert_eq!(Graph::compute_centralities(&g), before);
    assert_eq!(before, Ok(vec![1, 1, 1, 4]));
}
