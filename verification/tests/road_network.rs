use road_network::analysis::RoadNetwork;
use road_network::graph_helpers::find_minimum_path;
use road_network::graph_helpers::NameIndex;
use road_network::graph_helpers::PathQueryOutcome;
use road_network::stats::histogram_total;
use road_network::stats::histogram_weighted_square_sum;
use road_network::stats::histogram_weighted_sum;

#[test]
fn test_evaluate_degrees() {
    let labels = vec!["City1".to_string(), "City2".to_string(), "City3".to_string()];
    let edges = vec![(0usize, 1usize), (1, 2)];
    let road_network = RoadNetwork::new(labels, edges);
    let degrees = road_network.evaluate_degrees();
    let _ = degrees;
}

#[test]
fn test_connection_existence() {
    let labels = vec!["City1".to_string(), "City2".to_string()];
    let edges = vec![(0usize, 1usize)];
    let road_network = RoadNetwork::new(labels, edges);
    let _ = road_network;
}

#[test]
fn self_pairs_have_distance_zero() {
    let labels = vec!["A".to_string(), "B".to_string(), "C".to_string()];
    let edges = vec![(0usize, 1usize)];
    let network = RoadNetwork::new(labels, edges);
    assert_eq!(network.shortest_hop_distance(0, 0), Some(0));
    assert_eq!(network.shortest_hop_distance(1, 1), Some(0));
    assert_eq!(network.shortest_hop_distance(2, 2), Some(0));
}

#[test]
fn distance_is_symmetric_on_a_path() {
    let labels = vec!["A".to_string(), "B".to_string(), "C".to_string()];
    let edges = vec![(0usize, 1usize), (1, 2)];
    let network = RoadNetwork::new(labels, edges);
    assert_eq!(network.shortest_hop_distance(0, 2), Some(2));
    assert_eq!(network.shortest_hop_distance(2, 0), Some(2));
    assert_eq!(network.shortest_hop_distance(0, 1), network.shortest_hop_distance(1, 0));
}

#[test]
fn triangle_inequality_on_a_path() {
    let labels = vec!["A".to_string(), "B".to_string(), "C".to_string()];
    let edges = vec![(0usize, 1usize), (1, 2)];
    let network = RoadNetwork::new(labels, edges);
    let dxy = network.shortest_hop_distance(0, 1).unwrap();
    let dyz = network.shortest_hop_distance(1, 2).unwrap();
    let dxz = network.shortest_hop_distance(0, 2).unwrap();
    assert!(dxz <= dxy + dyz);
}

#[test]
fn evaluate_degrees_is_idempotent() {
    let labels = vec!["A".to_string(), "B".to_string(), "C".to_string(), "D".to_string()];
    let edges = vec![(0usize, 1usize), (1, 2), (0, 3)];
    let network = RoadNetwork::new(labels, edges);
    let first = network.evaluate_degrees();
    let second = network.evaluate_degrees();
    assert_eq!(first, second);
}

#[test]
fn three_city_path_histogram() {
    let labels = vec!["A".to_string(), "B".to_string(), "C".to_string()];
    let edges = vec![(0usize, 1usize), (1, 2)];
    let network = RoadNetwork::new(labels, edges);
    let histogram = network.evaluate_degrees();
    assert_eq!(histogram, vec![3, 4, 2, 0]);
    assert_eq!(histogram_total(&histogram), Some(9));
}

#[test]
fn disconnected_pairs_are_dropped() {
    let labels = vec!["A".to_string(), "B".to_string(), "C".to_string()];
    let edges = vec![(0usize, 1usize)];
    let network = RoadNetwork::new(labels, edges);
    assert_eq!(network.shortest_hop_distance(0, 2), None);
    assert_eq!(network.shortest_hop_distance(2, 0), None);
    let histogram = network.evaluate_degrees();
    assert_eq!(histogram, vec![3, 2, 0, 0]);
    // three self-pairs and A<->B in both orders; the four ordered pairs that
    // cross the two components contribute nothing
    assert_eq!(histogram_total(&histogram), Some(5));
}

#[test]
fn single_isolated_node_statistics() {
    let labels = vec!["A".to_string()];
    let network = RoadNetwork::new(labels, Vec::new());
    let histogram = network.evaluate_degrees();
    assert_eq!(histogram, vec![1, 0]);
    let total = histogram_total(&histogram).unwrap();
    let weighted = histogram_weighted_sum(&histogram).unwrap();
    let squares = histogram_weighted_square_sum(&histogram).unwrap();
    assert_eq!(total, 1);
    assert_eq!(weighted, 0);
    assert_eq!(squares, 0);
    let mean = weighted as f64 / total as f64;
    let variance = squares as f64 / total as f64 - mean * mean;
    let standard_deviation = variance.sqrt();
    assert_eq!(mean, 0.0);
    assert_eq!(standard_deviation, 0.0);
}

#[test]
fn empty_graph_has_zero_total() {
    let network = RoadNetwork::new(Vec::new(), Vec::new());
    let histogram = network.evaluate_degrees();
    assert_eq!(histogram, vec![0]);
    assert_eq!(histogram_total(&histogram), Some(0));
}

#[test]
fn histogram_weighted_sums_exact_values() {
    let labels = vec!["A".to_string(), "B".to_string(), "C".to_string()];
    let edges = vec![(0usize, 1usize), (1, 2)];
    let network = RoadNetwork::new(labels, edges);
    let histogram = network.evaluate_degrees();
    assert_eq!(histogram_weighted_sum(&histogram), Some(0 * 3 + 1 * 4 + 2 * 2));
    assert_eq!(histogram_weighted_square_sum(&histogram), Some(0 * 3 + 1 * 4 + 4 * 2));
}

#[test]
fn histogram_total_overflow_is_reported() {
    let histogram = vec![usize::MAX, 1];
    assert_eq!(histogram_total(&histogram), None);
}

#[test]
fn weighted_sum_overflow_is_reported() {
    let histogram = vec![0usize, usize::MAX, 2];
    assert_eq!(histogram_weighted_sum(&histogram), None);
    assert_eq!(histogram_weighted_square_sum(&histogram), None);
}

#[test]
fn parallel_edges_and_self_loops_are_harmless() {
    let labels = vec!["A".to_string(), "B".to_string()];
    let edges = vec![(0usize, 1usize), (0, 1), (0, 0)];
    let network = RoadNetwork::new(labels, edges);
    assert_eq!(network.shortest_hop_distance(0, 0), Some(0));
    assert_eq!(network.shortest_hop_distance(0, 1), Some(1));
    assert_eq!(network.evaluate_degrees(), vec![2, 2, 0]);
}

#[test]
fn unknown_label_is_not_unreachable() {
    let labels = vec!["A".to_string(), "B".to_string(), "C".to_string()];
    let edges = vec![(0usize, 1usize)];
    let network = RoadNetwork::new(labels, edges);
    let mut index = NameIndex::new();
    index.push_label("A".to_string());
    index.push_label("B".to_string());
    index.push_label("C".to_string());
    let unknown = find_minimum_path(&network, &index, &"A".to_string(), &"Z".to_string());
    assert_eq!(unknown, PathQueryOutcome::UnknownLabel);
    let unreachable = find_minimum_path(&network, &index, &"A".to_string(), &"C".to_string());
    assert_eq!(unreachable, PathQueryOutcome::NoPath);
    assert_ne!(unknown, unreachable);
}

#[test]
fn path_query_returns_hop_distance() {
    let labels = vec!["A".to_string(), "B".to_string(), "C".to_string()];
    let edges = vec![(0usize, 1usize), (1, 2)];
    let network = RoadNetwork::new(labels, edges);
    let mut index = NameIndex::new();
    index.push_label("A".to_string());
    index.push_label("B".to_string());
    index.push_label("C".to_string());
    assert_eq!(
        find_minimum_path(&network, &index, &"A".to_string(), &"C".to_string()),
        PathQueryOutcome::Distance(2),
    );
    assert_eq!(
        find_minimum_path(&network, &index, &"B".to_string(), &"B".to_string()),
        PathQueryOutcome::Distance(0),
    );
}

#[test]
fn duplicate_labels_resolve_to_first_handle() {
    let labels = vec!["A".to_string(), "B".to_string(), "A".to_string()];
    let edges = vec![(0usize, 1usize)];
    let network = RoadNetwork::new(labels, edges);
    let mut index = NameIndex::new();
    index.push_label("A".to_string());
    index.push_label("B".to_string());
    index.push_label("A".to_string());
    assert_eq!(
        find_minimum_path(&network, &index, &"A".to_string(), &"B".to_string()),
        PathQueryOutcome::Distance(1),
    );
}

#[test]
fn node_count_reports_arena_size() {
    let labels = vec!["A".to_string(), "B".to_string()];
    let network = RoadNetwork::new(labels, Vec::new());
    assert_eq!(network.node_count(), 2);
}

#[test]
fn fully_connected_total_is_n_squared() {
    let labels = vec!["A".to_string(), "B".to_string(), "C".to_string(), "D".to_string()];
    let edges = vec![(0usize, 1usize), (1, 2), (2, 3), (3, 0)];
    let network = RoadNetwork::new(labels, edges);
    let histogram = network.evaluate_degrees();
    assert_eq!(histogram_total(&histogram), Some(16));
}
