use bhtsne::Affinities;

/// `from_edges` produces a symmetric normalized graph.
#[test]
fn from_edges_builds_symmetric_normalized_graph() {
    let edges = [(0usize, 1usize), (1, 2), (2, 3), (3, 4)];
    let graph = Affinities::<f32>::from_edges(5, edges.iter().copied().collect());
    assert_eq!(graph.n_samples(), 5);
    let sum: f32 = graph.values().iter().sum();
    assert!((sum - 1.0).abs() < 1e-6, "graph values sum {sum} != 1");
    let rows = graph.rows();
    assert_eq!(rows[1] - rows[0], 1);
    assert_eq!(rows[2] - rows[1], 2);
    assert_eq!(rows[3] - rows[2], 2);
    assert_eq!(rows[4] - rows[3], 2);
    assert_eq!(rows[5] - rows[4], 1);
    let owned = [(0usize, 1usize), (1, 2)];
    let graph2 = Affinities::<f32>::from_edges(3, owned.to_vec());
    assert_eq!(graph2.n_samples(), 3);
}

/// `from_weighted_edges` respects the supplied weights and matches `from_edges` when every
/// weight is one.
#[test]
fn from_weighted_edges_respects_weights_and_normalizes() {
    let edges = [(0usize, 1usize), (1, 2), (2, 3), (3, 4)];
    let unit_ref = Affinities::<f32>::from_edges(5, edges.iter().copied().collect());
    let unit_via_weighted =
        Affinities::<f32>::from_weighted_edges(5, edges.iter().map(|&(i, j)| (i, j, 1.0f32)).collect());
    assert_eq!(unit_ref.rows(), unit_via_weighted.rows());
    assert_eq!(unit_ref.columns(), unit_via_weighted.columns());
    for (a, b) in unit_ref.values().iter().zip(unit_via_weighted.values().iter()) {
        assert!((a - b).abs() < 1e-6);
    }

    let weighted = [(0usize, 1usize, 3.0f32), (1, 2, 1.0)];
    let graph = Affinities::<f32>::from_weighted_edges(3, weighted.to_vec());
    let sum: f32 = graph.values().iter().sum();
    assert!((sum - 1.0).abs() < 1e-6, "values sum {sum} != 1");
    let row0_val = graph.values()[graph.rows()[0]];
    let row2_val = graph.values()[graph.rows()[2]];
    assert!((row0_val / row2_val - 3.0).abs() < 1e-5, "weight ratio broke: {row0_val} vs {row2_val}");

    let dup = [(0usize, 1usize, 1.0f32), (0, 1, 1.0), (1, 2, 1.0)];
    let single = [(0usize, 1usize, 2.0f32), (1, 2, 1.0)];
    let g_dup = Affinities::<f32>::from_weighted_edges(3, dup.to_vec());
    let g_single = Affinities::<f32>::from_weighted_edges(3, single.to_vec());
    assert_eq!(g_dup.rows(), g_single.rows());
    assert_eq!(g_dup.columns(), g_single.columns());
    for (a, b) in g_dup.values().iter().zip(g_single.values().iter()) {
        assert!((a - b).abs() < 1e-6);
    }
}

/// Each row lists the samples joined to it, in increasing column order, whatever order the
/// edges came in; a self-loop counts twice on the diagonal.
#[test]
fn from_edges_rows_are_sorted_neighbor_sets() {
    let graph = Affinities::<f64>::from_edges(4, vec![(3, 0), (0, 2), (2, 0), (1, 1)]);
    assert_eq!(graph.rows(), &[0, 2, 3, 4, 5]);
    assert_eq!(graph.columns(), &[2, 3, 1, 0, 0]);
    // (0,2) twice: 2; (0,3): 1; (1,1): 2 (both endpoints); totals 2+1+2+2+1 = 8.
    let expected = [2.0 / 8.0, 1.0 / 8.0, 2.0 / 8.0, 2.0 / 8.0, 1.0 / 8.0];
    for (v, e) in graph.values().iter().zip(expected.iter()) {
        assert!((v - e).abs() < 1e-12, "{v} vs {e}");
    }
}
