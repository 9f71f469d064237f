use matchgraph::isolatedteams::{dfs_weighted, final_dfs, match_num_comparison, WEIGHT_SCALE};
use matchgraph::matchtree::{Graph, ListOfEdges};
use matchgraph::AnalysisError;

#[test]
fn test_path() {
    let edges: ListOfEdges = vec![
        (0, 1, 10),
        (1, 2, 2),
        (2, 3, 1),
        (3, 4, 1),
    ];

    let max_vertex = edges.iter().flat_map(|&(u, v, _)| vec![u, v]).max().unwrap_or(0);
    let n = max_vertex + 1;
    let graph = Graph::create_undirected(n, &edges);

    let (isolated_teams, max_dist) = final_dfs(&graph).unwrap();

    assert!(
        isolated_teams.len() >= 1,
        "Expected at least 1 isolated team, but got {:?}",
        isolated_teams
    );

    assert!(
        max_dist > 0,
        "Expected max_dist to be positive, but got {}",
        max_dist
    );
}

#[test]
fn path_distances_are_exact() {
    // the low-weight far end of the chain dominates the high-weight near edge
    let edges: ListOfEdges = vec![(0, 1, 10), (1, 2, 2), (2, 3, 1), (3, 4, 1)];
    let graph = Graph::create_undirected(5, &edges);
    let (farthest, max_dist) = final_dfs(&graph).unwrap();
    // first pass from 0 reaches 4 at 1/10 + 1/2 + 1/1 + 1/1 = 2.6; the second
    // pass from that pivot puts node 0 alone at the far end
    assert_eq!(farthest, vec![0]);
    assert_eq!(max_dist, 2_600_000);
    assert_eq!(max_dist, 26 * WEIGHT_SCALE / 10);
}

#[test]
fn triangle_two_pass_is_deterministic() {
    let edges: ListOfEdges = vec![(0, 1, 3), (1, 2, 2), (2, 0, 1)];
    let graph = Graph::create_undirected(3, &edges);
    let (farthest, max_dist) = final_dfs(&graph).unwrap();
    // pass one from 0: 1 at 1/3, then 2 at 1/3 + 1/2, so the pivot is 2;
    // pass two from 2: 0 at 1/1, then 1 at 1/1 + 1/3
    assert_eq!(farthest, vec![1]);
    assert_eq!(max_dist, 1_333_333);
}

#[test]
fn dfs_visits_each_node_once_in_list_order() {
    let edges: ListOfEdges = vec![(0, 1, 10), (1, 2, 2), (2, 3, 1), (3, 4, 1)];
    let graph = Graph::create_undirected(5, &edges);
    let mut visited = vec![false; 5];
    let mut dist = vec![0u128; 5];
    visited[0] = true;
    dfs_weighted(0, &graph, 0, &mut visited, &mut dist);
    assert_eq!(visited, vec![true; 5]);
    assert_eq!(dist, vec![0, 100_000, 600_000, 1_600_000, 2_600_000]);
}

#[test]
fn dfs_leaves_other_components_untouched() {
    // node 2 is disconnected: it stays unvisited at distance 0
    let edges: ListOfEdges = vec![(0, 1, 4)];
    let graph = Graph::create_undirected(3, &edges);
    let mut visited = vec![false; 3];
    let mut dist = vec![0u128; 3];
    visited[0] = true;
    dfs_weighted(0, &graph, 0, &mut visited, &mut dist);
    assert_eq!(visited, vec![true, true, false]);
    assert_eq!(dist, vec![0, 250_000, 0]);
}

#[test]
fn empty_graph_is_refused_by_both_analyses() {
    let graph = Graph { n: 0, outedges: Vec::new() };
    assert_eq!(final_dfs(&graph).unwrap_err(), AnalysisError::EmptyGraph);
    assert_eq!(match_num_comparison(&graph).unwrap_err(), AnalysisError::EmptyGraph);
}

#[test]
fn isolated_node_is_the_minimum_with_count_zero() {
    // a node of degree 0 must be the minimum and still count in the average
    let edges: ListOfEdges = vec![(0, 1, 5)];
    let graph = Graph::create_undirected(3, &edges);
    let stats = match_num_comparison(&graph).unwrap();
    assert_eq!(stats.min_team, 2);
    assert_eq!(stats.min_matches, 0);
    assert_eq!(stats.max_team, 0);
    assert_eq!(stats.max_matches, 1);
    assert_eq!(stats.total_matches, 2);
    assert_eq!(stats.teams, 3);
    let average = stats.total_matches as f64 / stats.teams as f64;
    assert!((average - 2.0 / 3.0).abs() < 1e-12);
}

#[test]
fn degree_ties_go_to_the_lowest_id() {
    let edges: ListOfEdges = vec![(0, 1, 1), (2, 3, 1)];
    let graph = Graph::create_undirected(4, &edges);
    let stats = match_num_comparison(&graph).unwrap();
    assert_eq!(stats.min_team, 0);
    assert_eq!(stats.max_team, 0);
    assert_eq!(stats.min_matches, 1);
    assert_eq!(stats.max_matches, 1);
}

#[test]
fn single_node_graph_reports_itself_at_distance_zero() {
    let edges: ListOfEdges = Vec::new();
    let graph = Graph::create_undirected(1, &edges);
    let (farthest, max_dist) = final_dfs(&graph).unwrap();
    assert_eq!(farthest, vec![0]);
    assert_eq!(max_dist, 0);
}
