use bhtsne::affinities::shortest_path::{bfs_hops, hop_adjacency};
use bhtsne::error::FromShortestPathError;
use bhtsne::Affinities;

fn indices(row: &[bhtsne::Neighbor<f32>]) -> Vec<usize> {
    row.iter().map(|n| n.index).collect()
}

/// Chain 0-1-2-3-4 with `k = 3`: each sample's three nearest by hops, in the order reached,
/// with their hop counts as distances.
#[test]
fn shortest_path_neighbors_chain_five() {
    let edges = vec![(0usize, 1usize), (1, 2), (2, 3), (3, 4)];
    let table = Affinities::<f32>::shortest_path_neighbors(5, edges, 3).unwrap();
    assert_eq!(table.len(), 5);
    assert_eq!(indices(&table[0]), vec![1, 2, 3]);
    assert_eq!(indices(&table[2]), vec![1, 3, 0]);
    assert_eq!(indices(&table[4]), vec![3, 2, 1]);
    let hops: Vec<f32> = table[0].iter().map(|n| n.distance).collect();
    assert_eq!(hops, vec![1.0, 2.0, 3.0]);
    let hops: Vec<f32> = table[2].iter().map(|n| n.distance).collect();
    assert_eq!(hops, vec![1.0, 1.0, 2.0]);
}

/// A sample with no incident edge gets no neighbors; a component smaller than `k + 1` gives
/// ragged rows.
#[test]
fn shortest_path_neighbors_isolated_node() {
    let edges = vec![(0usize, 1usize), (1, 2), (2, 3), (3, 4)];
    let table = Affinities::<f32>::shortest_path_neighbors(6, edges, 3).unwrap();
    assert_eq!(table.len(), 6);
    assert!(table[5].is_empty());
    let small = Affinities::<f32>::shortest_path_neighbors(4, vec![(0usize, 1usize)], 3).unwrap();
    assert_eq!(indices(&small[0]), vec![1]);
    assert!(small[2].is_empty());
}

/// Two disjoint triangles: each sample only reaches its own component.
#[test]
fn shortest_path_neighbors_disconnected_components() {
    let edges = vec![(0usize, 1usize), (1, 2), (2, 0), (3, 4), (4, 5), (5, 3)];
    let table = Affinities::<f32>::shortest_path_neighbors(6, edges, 3).unwrap();
    for node in 0..3usize {
        assert_eq!(table[node].len(), 2);
        assert!(table[node].iter().all(|n| n.index < 3), "node {node}");
    }
    for node in 3..6usize {
        assert_eq!(table[node].len(), 2);
        assert!(table[node].iter().all(|n| n.index >= 3), "node {node}");
    }
}

/// A star of 30 leaves around sample 0 with `k = 9`: the search stops at the ninth sample
/// reached.
#[test]
fn shortest_path_neighbors_star_truncation() {
    const N: usize = 31;
    let edges: Vec<(usize, usize)> = (1..N).map(|i| (0usize, i)).collect();
    let table = Affinities::<f32>::shortest_path_neighbors(N, edges, 9).unwrap();
    assert_eq!(indices(&table[0]), (1..10).collect::<Vec<usize>>());
    assert_eq!(indices(&table[1]), vec![0, 2, 3, 4, 5, 6, 7, 8, 9]);
    for leaf in 1..N {
        assert_eq!(table[leaf].len(), 9);
        assert_eq!(table[leaf][0].index, 0);
        assert_eq!(table[leaf][0].distance, 1.0);
        assert!(table[leaf][1..].iter().all(|n| n.distance == 2.0));
    }
}

/// An endpoint out of range is reported, the first one in edge order.
#[test]
fn shortest_path_neighbors_rejects_bad_input() {
    let e = Affinities::<f32>::shortest_path_neighbors(5, vec![(0usize, 9usize)], 3).err().unwrap();
    assert_eq!(e, FromShortestPathError::EdgeIdOutOfRange { id: 9, n_samples: 5 });
    let e = Affinities::<f32>::shortest_path_neighbors(5, vec![(0usize, 1usize), (7, 9), (8, 0)], 3)
        .err()
        .unwrap();
    assert_eq!(e, FromShortestPathError::EdgeIdOutOfRange { id: 7, n_samples: 5 });
}

/// With `k = 0` no sample gets a neighbor.
#[test]
fn shortest_path_neighbors_with_zero_k_are_empty() {
    let table = Affinities::<f32>::shortest_path_neighbors(3, vec![(0usize, 1usize), (1, 2)], 0).unwrap();
    assert!(table.iter().all(|row| row.is_empty()));
}

/// The neighbor lists are sorted, hold each neighbor once and leave out self-loops.
#[test]
fn hop_adjacency_sorts_and_dedups() {
    let adj = hop_adjacency(4, &[(2, 0), (0, 2), (1, 1), (3, 0), (0, 1)]).unwrap();
    assert_eq!(adj, vec![vec![1, 2, 3], vec![0], vec![0], vec![0]]);
    assert_eq!(
        hop_adjacency(2, &[(0, 1), (1, 2)]).err().unwrap(),
        FromShortestPathError::EdgeIdOutOfRange { id: 2, n_samples: 2 }
    );
}

/// The search reports each sample with its hop count, in the order reached.
#[test]
fn bfs_hops_reports_hop_counts() {
    let adj = hop_adjacency(6, &[(0, 1), (1, 2), (2, 3), (0, 4), (4, 3)]).unwrap();
    assert_eq!(bfs_hops(&adj, 0, 10), vec![(1, 1), (4, 1), (2, 2), (3, 2)]);
    assert_eq!(bfs_hops(&adj, 0, 3), vec![(1, 1), (4, 1), (2, 2)]);
    assert_eq!(bfs_hops(&adj, 5, 10), vec![]);
}
