use centrality_analysis::compute_centralities;
use centrality_analysis::components::connected_component_count;
use centrality_analysis::graph::load_graph;
use centrality_analysis::parse::collect_edges;
use centrality_analysis::rank::top_k;

fn score_of(map: &Vec<(usize, u128)>, ext_id: usize) -> u128 {
    for &(id, score) in map.iter() {
        if id == ext_id {
            return score;
        }
    }
    panic!("no entry for node {}", ext_id);
}

#[test]
fn test_load_graph() {
    let data = b"1\t2\n2\t3\n3\t1\n4\t5\n".to_vec();
    let graph = load_graph(&data);
    assert_eq!(graph.node_count(), 5);
    assert_eq!(graph.edge_count(), 4);
}

#[test]
fn test_compute_centralities() {
    let data = b"1 2\n2 3\n".to_vec();
    let graph = load_graph(&data);
    compute_centralities(&graph);
    assert!(graph.node_count() > 0);
}

#[test]
fn test_connected_components() {
    let data = b"1 2\n2 3\n4 5\n".to_vec();
    let graph = load_graph(&data);
    let components = connected_component_count(&graph);
    assert_eq!(components, 2);
}

#[test]
fn load_graph_space_separated_counts() {
    let data = b"1 2\n2 3\n3 1\n4 5\n".to_vec();
    let graph = load_graph(&data);
    assert_eq!(graph.node_count(), 5);
    assert_eq!(graph.edge_count(), 4);
}

#[test]
fn dedup_drops_self_loops_reversals_and_repeats() {
    let data = b"1 2\n2 1\n3 3\n1 2\n".to_vec();
    let edges = collect_edges(&data);
    assert_eq!(edges, vec![(1, 2)]);
}

#[test]
fn malformed_lines_are_skipped() {
    let data = b"# 1 2\n\n1 2\na b\n1 2 3\n99999999999999999999999999 7\n2 3\n".to_vec();
    let graph = load_graph(&data);
    assert_eq!(graph.node_count(), 3);
    assert_eq!(graph.edge_count(), 2);
}

#[test]
fn unparsable_tokens_are_dropped_before_counting() {
    // A line holds an edge exactly when two of its tokens parse.
    let data = b"1 x 2\n+3 4\n".to_vec();
    let edges = collect_edges(&data);
    assert_eq!(edges, vec![(1, 2), (3, 4)]);
}

#[test]
fn carriage_returns_are_stripped() {
    let data = b"1 2\r\n2 3\r\n".to_vec();
    let graph = load_graph(&data);
    assert_eq!(graph.node_count(), 3);
    assert_eq!(graph.edge_count(), 2);
}

#[test]
fn path_graph_path_sums() {
    let data = b"1 2\n2 3\n".to_vec();
    let graph = load_graph(&data);
    let (_, path_sums) = compute_centralities(&graph);
    assert_eq!(score_of(&path_sums, 2), 2);
    assert_eq!(score_of(&path_sums, 1), 3);
    assert_eq!(score_of(&path_sums, 3), 3);
}

#[test]
fn path_sum_ignores_unreachable_nodes() {
    let data = b"1 2\n4 5\n".to_vec();
    let graph = load_graph(&data);
    let (_, path_sums) = compute_centralities(&graph);
    assert_eq!(score_of(&path_sums, 1), 1);
    assert_eq!(score_of(&path_sums, 4), 1);
}

#[test]
fn degree_values_and_handshake_total() {
    let data = b"1 2\n2 3\n3 1\n4 5\n".to_vec();
    let graph = load_graph(&data);
    let (degrees, _) = compute_centralities(&graph);
    assert_eq!(score_of(&degrees, 1), 2);
    assert_eq!(score_of(&degrees, 2), 2);
    assert_eq!(score_of(&degrees, 3), 2);
    assert_eq!(score_of(&degrees, 4), 1);
    assert_eq!(score_of(&degrees, 5), 1);
    let total: u128 = degrees.iter().map(|&(_, s)| s).sum();
    assert_eq!(total, 2 * graph.edge_count() as u128);
}

#[test]
fn single_component_triangle() {
    let data = b"1 2\n2 3\n3 1\n".to_vec();
    let graph = load_graph(&data);
    assert_eq!(connected_component_count(&graph), 1);
}

#[test]
fn rank_reporter_orders_by_descending_score() {
    let scores = vec![(1, 5u128), (2, 3u128), (3, 5u128), (4, 1u128)];
    let ranked = top_k(&scores, 10);
    assert_eq!(ranked.len(), 4);
    let top_ids = [ranked[0].0, ranked[1].0];
    assert!(top_ids.contains(&1) && top_ids.contains(&3));
    assert_eq!(ranked[0].1, 5);
    assert_eq!(ranked[1].1, 5);
    assert_eq!(ranked[2], (2, 3));
    assert_eq!(ranked[3], (4, 1));
}

#[test]
fn rank_reporter_truncates_to_k() {
    let scores = vec![(1, 5u128), (2, 3u128), (3, 4u128), (4, 1u128)];
    let ranked = top_k(&scores, 2);
    assert_eq!(ranked, vec![(1, 5), (3, 4)]);
}

#[test]
fn rank_reporter_on_empty_mapping() {
    let scores: Vec<(usize, u128)> = Vec::new();
    let ranked = top_k(&scores, 10);
    assert!(ranked.is_empty());
}

#[test]
fn empty_input_gives_empty_graph_and_mappings() {
    let data = Vec::new();
    let graph = load_graph(&data);
    assert_eq!(graph.node_count(), 0);
    assert_eq!(graph.edge_count(), 0);
    let (degrees, path_sums) = compute_centralities(&graph);
    assert!(degrees.is_empty());
    assert!(path_sums.is_empty());
    assert_eq!(connected_component_count(&graph), 0);
}

#[test]
fn pipeline_is_deterministic() {
    let data = b"1 2\n2 3\n3 1\n4 5\n# noise\n".to_vec();
    let g1 = load_graph(&data);
    let g2 = load_graph(&data);
    let (d1, p1) = compute_centralities(&g1);
    let (d2, p2) = compute_centralities(&g2);
    assert_eq!(d1, d2);
    assert_eq!(p1, p2);
}
