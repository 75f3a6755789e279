use centrality::{edges_from_csv, edges_from_records, CentralityError, Graph};

fn record(fields: &[&str]) -> Vec<String> {
    fields.iter().map(|f| f.to_string()).collect()
}

fn pair(u: &str, v: &str) -> (String, String) {
    (u.to_string(), v.to_string())
}

#[test]
fn records_of_two_fields_become_edges() {
    let records = vec![record(&["A", "B"]), record(&["B", "C"])];
    assert_eq!(edges_from_records(&records), vec![pair("A", "B"), pair("B", "C")]);
}

#[test]
fn a_record_of_three_fields_is_dropped() {
    let records = vec![
        record(&["A", "B"]),
        record(&["X", "Y", "Z"]),
        record(&["B", "C"]),
        record(&["lonely"]),
        record(&[]),
    ];
    let edges = edges_from_records(&records);
    assert_eq!(edges, vec![pair("A", "B"), pair("B", "C")]);
    let g = Graph::create_undirected(&edges);
    assert_eq!(g.node_labels, vec!["A", "B", "C"]);
    assert_eq!(g.outeredges, vec![vec![1], vec![0, 2], vec![1]]);
}

#[test]
fn no_records_give_no_edges() {
    assert_eq!(edges_from_records(&Vec::new()), Vec::new());
}

#[test]
fn csv_text_is_read_without_its_header() {
    let edges = edges_from_csv(b"from,to\nA,B\nB,C\n").unwrap();
    assert_eq!(edges, vec![pair("A", "B"), pair("B", "C")]);
}

#[test]
fn csv_fields_are_trimmed() {
    let edges = edges_from_csv(b"from , to\n  A ,\tB  \n\"  B\",\" C \"\n").unwrap();
    assert_eq!(edges, vec![pair("A", "B"), pair("B", "C")]);
}

#[test]
fn csv_records_of_other_lengths_are_skipped() {
    let edges = edges_from_csv(b"from,to\nA,B\nX,Y,Z\nlonely\nB,C\n").unwrap();
    assert_eq!(edges, vec![pair("A", "B"), pair("B", "C")]);
    let g = Graph::create_undirected(&edges);
    assert_eq!(g.node_count, 3);
    assert_eq!(g.node_labels, vec!["A", "B", "C"]);
    assert_eq!(g.outeredges, vec![vec![1], vec![0, 2], vec![1]]);
}

#[test]
fn csv_quoted_fields_may_hold_commas() {
    let edges = edges_from_csv(b"a,b\n\"Smith, J\",\"Doe, A\"\n").unwrap();
    assert_eq!(edges, vec![pair("Smith, J", "Doe, A")]);
}

#[test]
fn empty_csv_text_gives_no_edges() {
    assert_eq!(edges_from_csv(b""), Ok(Vec::new()));
    assert_eq!(edges_from_csv(b"only,a header\n"), Ok(Vec::new()));
}

#[test]
fn csv_text_that_is_not_utf8_is_refused() {
    assert_eq!(edges_from_csv(b"a,b\nA,\xff\xfe\n"), Err(CentralityError::InputUnavailable));
}

#[test]
fn csv_text_to_scores() {
    let edges = edges_from_csv(b"a,b\nA,B\nB,C\nC,A\n").unwrap();
    let g = Graph::create_undirected(&edges);
    assert_eq!(Graph::compute_centralities(&g), Ok(vec![2, 2, 2]));
}
