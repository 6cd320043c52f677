use nn_tour::tour::nearest_neighbor;

fn distance(p1: (f64, f64), p2: (f64, f64)) -> f64 {
    let (dx, dy) = (p2.0 - p1.0, p2.1 - p1.1);
    f64::sqrt(dx * dx + dy * dy)
}

/// The order-preserving key of a non-negative distance: its IEEE-754 bit
/// pattern.
fn distance_key(p1: (f64, f64), p2: (f64, f64)) -> u64 {
    distance(p1, p2).to_bits()
}

fn key_table(points: &[(f64, f64)]) -> Vec<Vec<u64>> {
    points
        .iter()
        .map(|&a| points.iter().map(|&b| distance_key(a, b)).collect())
        .collect()
}

fn tour_points(points: &[(f64, f64)], tour: &[usize]) -> Vec<(f64, f64)> {
    tour.iter().map(|&i| points[i]).collect()
}

fn total_of(edge_keys: &[u64]) -> f64 {
    edge_keys.iter().map(|&k| f64::from_bits(k)).sum()
}

#[test]
fn single_point() {
    let points = [(0.0, 0.0)];
    let (tour, edge_keys) = nearest_neighbor(&key_table(&points));
    assert_eq!(tour, vec![0, 0]);
    assert_eq!(tour_points(&points, &tour), vec![(0.0, 0.0), (0.0, 0.0)]);
    assert_eq!(total_of(&edge_keys), 0.0);
}

#[test]
fn two_points() {
    let points = [(0.0, 0.0), (3.0, 4.0)];
    let (tour, edge_keys) = nearest_neighbor(&key_table(&points));
    assert_eq!(tour, vec![0, 1, 0]);
    assert_eq!(
        tour_points(&points, &tour),
        vec![(0.0, 0.0), (3.0, 4.0), (0.0, 0.0)]
    );
    assert_eq!(total_of(&edge_keys), 10.0);
}

#[test]
fn tie_break_prefers_lower_index() {
    let points = [(0.0, 0.0), (1.0, 0.0), (-1.0, 0.0)];
    let (tour, edge_keys) = nearest_neighbor(&key_table(&points));
    assert_eq!(tour, vec![0, 1, 2, 0]);
    assert_eq!(total_of(&edge_keys), 4.0);
}

#[test]
fn greedy_picks_nearest_each_step() {
    let points = [(0.0, 0.0), (10.0, 0.0), (1.0, 0.0), (3.0, 0.0)];
    let (tour, edge_keys) = nearest_neighbor(&key_table(&points));
    assert_eq!(tour, vec![0, 2, 3, 1, 0]);
    assert_eq!(total_of(&edge_keys), 1.0 + 2.0 + 7.0 + 10.0);
}

#[test]
fn tour_is_closed_permutation() {
    let points = [
        (2.5, -1.0),
        (0.0, 0.0),
        (4.0, 4.0),
        (-3.0, 2.0),
        (1.5, 1.5),
        (-1.0, -2.0),
        (3.0, 0.5),
    ];
    let n = points.len();
    let (tour, edge_keys) = nearest_neighbor(&key_table(&points));
    assert_eq!(tour.len(), n + 1);
    assert_eq!(edge_keys.len(), n);
    assert_eq!(tour[0], 0);
    assert_eq!(tour[n], 0);
    let mut first = tour[..n].to_vec();
    first.sort();
    assert_eq!(first, (0..n).collect::<Vec<usize>>());
}

#[test]
fn total_matches_recomputed_edge_sum() {
    let points = [
        (2.5, -1.0),
        (0.0, 0.0),
        (4.0, 4.0),
        (-3.0, 2.0),
        (1.5, 1.5),
        (-1.0, -2.0),
        (3.0, 0.5),
    ];
    let (tour, edge_keys) = nearest_neighbor(&key_table(&points));
    let total = total_of(&edge_keys);
    let recomputed: f64 = tour
        .windows(2)
        .map(|w| distance(points[w[0]], points[w[1]]))
        .sum();
    assert!((total - recomputed).abs() <= 1e-9 * recomputed.abs().max(1.0));
}

#[test]
fn same_input_gives_identical_result() {
    let points = [
        (0.3, 9.1),
        (7.7, -2.2),
        (5.0, 5.0),
        (5.0, 5.0),
        (-4.4, 0.6),
        (1.0, 1.0),
    ];
    let table = key_table(&points);
    let (tour_a, keys_a) = nearest_neighbor(&table);
    let (tour_b, keys_b) = nearest_neighbor(&table);
    assert_eq!(tour_a, tour_b);
    assert_eq!(keys_a, keys_b);
}

// A NaN distance has a key above every number's, so a point at a NaN
// distance is deterministically left for last instead of tripping the
// floating-point comparison.
#[test]
fn non_finite_distances_sort_last() {
    let points = [(0.0, 0.0), (f64::NAN, 0.0), (1.0, 0.0)];
    let (tour, edge_keys) = nearest_neighbor(&key_table(&points));
    assert_eq!(tour, vec![0, 2, 1, 0]);
    assert!(total_of(&edge_keys).is_nan());
}

#[test]
fn coincident_points_are_distinct_nodes() {
    let points = [(1.0, 1.0), (1.0, 1.0), (1.0, 1.0)];
    let (tour, edge_keys) = nearest_neighbor(&key_table(&points));
    assert_eq!(tour, vec![0, 1, 2, 0]);
    assert_eq!(total_of(&edge_keys), 0.0);
}
