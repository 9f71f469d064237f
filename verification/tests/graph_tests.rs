use matchgraph::matchtree::{build_graph, Graph, ListOfEdges, MatchRecord};
use matchgraph::AnalysisError;

fn record(team: &str, opponent: &str) -> MatchRecord {
    MatchRecord { team: Some(team.to_string()), opponent: Some(opponent.to_string()) }
}

#[test]
fn test_graph_creation() {
    let edges: ListOfEdges = vec![
        (0, 1, 3),
        (1, 2, 2),
        (2, 0, 1),
    ];
    let graph = Graph::create_undirected(3, &edges);

    assert_eq!(graph.n, 3);
    assert_eq!(graph.outedges[0].len(), 2);
    assert_eq!(graph.outedges[1].len(), 2);
    assert_eq!(graph.outedges[2].len(), 2);

    assert_eq!(graph.outedges[0][0], (1, 3)); // Team 0 → Team 1 (3 matches)
    assert_eq!(graph.outedges[0][1], (2, 1)); // Team 0 → Team 2 (1 match)
}

#[test]
fn adjacency_is_symmetric_and_sorted() {
    let edges: ListOfEdges = vec![(2, 0, 4), (0, 1, 1), (3, 1, 2)];
    let graph = Graph::create_undirected(4, &edges);
    for u in 0..graph.n {
        for &(v, w) in &graph.outedges[u] {
            assert!(graph.outedges[v].contains(&(u, w)));
        }
        for pair in graph.outedges[u].windows(2) {
            assert!(pair[0].0 <= pair[1].0);
        }
    }
    assert_eq!(graph.outedges[0], vec![(1, 1), (2, 4)]);
}

#[test]
fn rebuilding_is_identical() {
    let edges: ListOfEdges = vec![(0, 1, 3), (1, 2, 2), (2, 0, 1), (3, 0, 7)];
    let g1 = Graph::create_undirected(4, &edges);
    let g2 = Graph::create_undirected(4, &edges);
    assert_eq!(g1.n, g2.n);
    for i in 0..g1.n {
        assert_eq!(g1.outedges[i], g2.outedges[i]);
    }
}

#[test]
fn registry_counts_distinct_names_once() {
    let records = vec![
        record("Arsenal", "Bolton"),
        record("Bolton", "Chelsea"),
        record("Arsenal", "Bolton"),
    ];
    let (names, graph) = build_graph(&records).unwrap();
    assert_eq!(names, vec!["Arsenal".to_string(), "Bolton".to_string(), "Chelsea".to_string()]);
    assert_eq!(graph.n, 3);
    // two occurrences of the Arsenal-Bolton pairing fold into one edge of weight 2
    assert_eq!(graph.outedges[0], vec![(1, 2)]);
    assert_eq!(graph.outedges[1], vec![(0, 2), (2, 1)]);
    assert_eq!(graph.outedges[2], vec![(1, 1)]);
}

#[test]
fn reversed_order_counts_toward_the_same_edge() {
    let records = vec![
        record("A", "B"),
        record("B", "A"),
        record("B", "A"),
    ];
    let (names, graph) = build_graph(&records).unwrap();
    assert_eq!(names.len(), 2);
    assert_eq!(graph.outedges[0], vec![(1, 3)]);
    assert_eq!(graph.outedges[1], vec![(0, 3)]);
}

#[test]
fn self_pairing_registers_the_name_but_adds_no_edge() {
    let records = vec![record("A", "A"), record("A", "B")];
    let (names, graph) = build_graph(&records).unwrap();
    assert_eq!(names, vec!["A".to_string(), "B".to_string()]);
    assert_eq!(graph.outedges[0], vec![(1, 1)]);
    assert_eq!(graph.outedges[1], vec![(0, 1)]);
}

#[test]
fn missing_field_is_a_malformed_record() {
    let records = vec![
        record("A", "B"),
        MatchRecord { team: Some("C".to_string()), opponent: None },
    ];
    assert_eq!(build_graph(&records).unwrap_err(), AnalysisError::MalformedRecord);
}

#[test]
fn empty_name_is_a_malformed_record() {
    let records = vec![record("", "B")];
    assert_eq!(build_graph(&records).unwrap_err(), AnalysisError::MalformedRecord);
}

#[test]
fn empty_record_list_builds_an_empty_graph() {
    let records: Vec<MatchRecord> = Vec::new();
    let (names, graph) = build_graph(&records).unwrap();
    assert!(names.is_empty());
    assert_eq!(graph.n, 0);
    assert!(graph.outedges.is_empty());
}
