use bhtsne::error::AffinitiesBuilderError;
use bhtsne::{Affinities, AffinitiesBuilder};

/// A small graph from an undirected edge list: unit weights, rows sorted by column, scaled to
/// sum to one.
fn tiny_graph(n: usize, edges: &[(usize, usize)]) -> Affinities<f32> {
    let mut adj: Vec<Vec<(u32, f32)>> = vec![Vec::new(); n];
    for &(a, b) in edges {
        adj[a].push((b as u32, 1.0));
        adj[b].push((a as u32, 1.0));
    }
    let mut rows = vec![0usize];
    let mut columns: Vec<u32> = Vec::new();
    let mut values: Vec<f32> = Vec::new();
    for mut row in adj {
        row.sort_by_key(|(c, _)| *c);
        for (c, v) in row {
            columns.push(c);
            values.push(v);
        }
        rows.push(columns.len());
    }
    let total: f32 = values.iter().sum();
    for v in &mut values {
        *v /= total;
    }
    Affinities::from_csr_unchecked(n, rows, columns, values)
}

#[test]
fn builder_single_view_reproduces_tiny_graph() {
    let a = tiny_graph(3, &[(0, 1), (1, 2)]);
    let pooled = AffinitiesBuilder::new(3).add(1.0f32, &a).unwrap().build().unwrap();

    assert_eq!(pooled.rows(), a.rows(), "row offsets differ");
    assert_eq!(pooled.columns(), a.columns(), "columns differ");
    for (i, (v_pool, v_a)) in pooled.values().iter().zip(a.values().iter()).enumerate() {
        assert!((v_pool - v_a).abs() < 1e-6, "value {i} differs: pooled {v_pool}, input {v_a}");
    }
    let sum: f32 = pooled.values().iter().sum();
    assert!((sum - 1.0).abs() < 1e-6, "pooled sum {sum}, expected 1.0");
}

#[test]
fn builder_pools_disjoint_subsets() {
    let a = tiny_graph(3, &[(0, 1), (1, 2)]);
    let b = tiny_graph(3, &[(0, 1), (1, 2)]);
    let pooled = AffinitiesBuilder::new(6)
        .add_over(0.5f32, &[0, 1, 2], &a)
        .unwrap()
        .add_over(0.5, &[3, 4, 5], &b)
        .unwrap()
        .build()
        .unwrap();

    assert_eq!(pooled.rows(), &vec![0, 1, 3, 4, 5, 7, 8]);
    assert_eq!(pooled.columns(), &vec![1, 0, 2, 1, 4, 3, 5, 4]);
    for v in pooled.values() {
        assert!((v - 0.125).abs() < 1e-6, "unexpected pooled value {v}, expected 0.125");
    }
    let sum: f32 = pooled.values().iter().sum();
    assert!((sum - 1.0).abs() < 1e-6, "pooled sum {sum}, expected 1.0");

    for (i, w) in pooled.rows().windows(2).enumerate() {
        let (start, end) = (w[0], w[1]);
        let row_half = if i < 3 { 0..3 } else { 3..6 };
        for c in &pooled.columns()[start..end] {
            assert!(row_half.contains(&(*c as usize)), "pair ({i}, {c}) crosses the disjoint boundary");
        }
    }
}

#[test]
fn builder_isolates_sample_no_view_opines_on() {
    let a = tiny_graph(3, &[(0, 1), (1, 2)]);
    let b = tiny_graph(2, &[(0, 1)]);
    let pooled = AffinitiesBuilder::new(5)
        .add_over(0.5f32, &[0, 1, 2], &a)
        .unwrap()
        .add_over(0.5, &[0, 1], &b)
        .unwrap()
        .build()
        .unwrap();

    assert_eq!(pooled.n_samples(), 5);
    assert_eq!(pooled.rows()[3], pooled.rows()[4], "row 3 must be empty");
    assert_eq!(pooled.rows()[4], pooled.rows()[5], "row 4 must be empty");
}

#[test]
fn builder_row_weights_by_presence_per_row() {
    let a = tiny_graph(3, &[(0, 1), (1, 2)]);
    let b = tiny_graph(3, &[(0, 1), (1, 2)]);
    let pooled = AffinitiesBuilder::new(5)
        .add_over(0.7f32, &[0, 1, 2], &a)
        .unwrap()
        .add_over(0.3, &[2, 3, 4], &b)
        .unwrap()
        .build()
        .unwrap();

    let row = |i: usize| {
        let (s, e) = (pooled.rows()[i], pooled.rows()[i + 1]);
        pooled.columns()[s..e].to_vec()
    };
    assert_eq!(row(0), vec![1], "row 0 should reach only sample 1");
    assert_eq!(row(4), vec![3], "row 4 should reach only sample 3");
    let row2 = row(2);
    assert!(row2.contains(&1) && row2.contains(&3), "row 2 should reach both 1 (via A) and 3 (via B), got {row2:?}");
}

#[test]
fn builder_rejects_zero_weight() {
    let a = tiny_graph(3, &[(0, 1)]);
    let e = AffinitiesBuilder::new(3).add(0.0f32, &a).err().unwrap();
    assert!(matches!(e, AffinitiesBuilderError::NonPositiveWeight));
}

#[test]
fn builder_rejects_full_coverage_size_mismatch() {
    let a = tiny_graph(3, &[(0, 1)]);
    let e = AffinitiesBuilder::new(5).add(1.0f32, &a).err().unwrap();
    assert!(matches!(e, AffinitiesBuilderError::SampleCountMismatch { view: 3, builder: 5 }));
}

#[test]
fn builder_rejects_duplicate_subset_id() {
    let a = tiny_graph(3, &[(0, 1), (1, 2)]);
    let e = AffinitiesBuilder::new(4).add_over(1.0f32, &[0, 1, 1], &a).err().unwrap();
    assert!(matches!(e, AffinitiesBuilderError::DuplicateSubsetId { id: 1 }));
}

#[test]
fn builder_rejects_out_of_range_subset_id() {
    let a = tiny_graph(3, &[(0, 1), (1, 2)]);
    let e = AffinitiesBuilder::new(4).add_over(1.0f32, &[0, 1, 5], &a).err().unwrap();
    assert!(matches!(e, AffinitiesBuilderError::SubsetIdOutOfRange { id: 5, n_samples: 4 }));
}

#[test]
fn builder_rejects_empty_build() {
    let e = AffinitiesBuilder::<f32>::new(3).build().err().unwrap();
    assert!(matches!(e, AffinitiesBuilderError::NoViews));
}

#[test]
fn agreement_downweights_dissenting_view() {
    let a = tiny_graph(6, &[(0, 1), (1, 2), (3, 4), (4, 5)]);
    let b = tiny_graph(6, &[(0, 1), (1, 2), (3, 4), (4, 5)]);
    let c = tiny_graph(6, &[(0, 3), (1, 4), (2, 5)]);
    let pooled = AffinitiesBuilder::new(6)
        .add(1.0f32, &a)
        .unwrap()
        .add(1.0, &b)
        .unwrap()
        .add(1.0, &c)
        .unwrap()
        .build()
        .unwrap();

    let leaked_pairs = [(0u32, 3u32), (3, 0), (1, 4), (4, 1), (2, 5), (5, 2)];
    let ab_pairs = [(0u32, 1u32), (3, 4), (2, 1), (4, 3), (5, 4), (4, 5)];
    for ((row, col), (ab_row, ab_col)) in leaked_pairs.iter().zip(ab_pairs.iter()) {
        let (rs, re) = (pooled.rows()[*row as usize], pooled.rows()[*row as usize + 1]);
        let cols = &pooled.columns()[rs..re];
        let vals = &pooled.values()[rs..re];
        let c_val = cols.iter().position(|c| c == col).map(|i| vals[i]).unwrap_or(0.0);

        let (abs, abe) = (pooled.rows()[*ab_row as usize], pooled.rows()[*ab_row as usize + 1]);
        let ab_cols = &pooled.columns()[abs..abe];
        let ab_vals = &pooled.values()[abs..abe];
        let ab_val = ab_cols.iter().position(|c| c == ab_col).map(|i| ab_vals[i]).unwrap_or(0.0);

        assert!(ab_val > 0.0, "expected A/B edge ({ab_row}, {ab_col}) to be present");
        assert!(
            c_val < 0.01 * ab_val,
            "C edge ({row}, {col}) carries {c_val} vs A/B edge {ab_val}; softmax did not suppress it"
        );
    }

    let sum: f32 = pooled.values().iter().sum();
    assert!((sum - 1.0).abs() < 1e-6, "agreement-weighted pool sum {sum} != 1");
}

#[test]
fn agreement_fallback_when_every_view_disagrees() {
    let a = tiny_graph(6, &[(0, 1), (2, 3), (4, 5)]);
    let b = tiny_graph(6, &[(0, 3), (1, 4), (2, 5)]);
    let c = tiny_graph(6, &[(0, 2), (1, 5), (3, 4)]);
    let pooled = AffinitiesBuilder::new(6)
        .add(1.0f32, &a).unwrap().add(1.0, &b).unwrap().add(1.0, &c).unwrap()
        .build()
        .unwrap();
    let plain = AffinitiesBuilder::new(6)
        .add(1.0f32, &a).unwrap().add(1.0, &b).unwrap().add(1.0, &c).unwrap()
        .build_uniform()
        .unwrap();

    assert_eq!(pooled.rows(), plain.rows(), "row structure diverged");
    assert_eq!(pooled.columns(), plain.columns(), "column structure diverged");
    for (p, u) in pooled.values().iter().zip(plain.values()) {
        assert!((p - u).abs() < 1e-6, "fallback pool differs from plain build: {p} vs {u}");
    }
}

#[test]
fn agreement_over_disjoint_subsets_falls_back_to_plain_build() {
    let a = tiny_graph(3, &[(0, 1), (1, 2)]);
    let b = tiny_graph(3, &[(0, 1), (1, 2)]);
    let c = tiny_graph(3, &[(0, 1), (1, 2)]);
    let pooled = AffinitiesBuilder::new(9)
        .add_over(1.0f32, &[0, 1, 2], &a).unwrap()
        .add_over(1.0, &[3, 4, 5], &b).unwrap()
        .add_over(1.0, &[6, 7, 8], &c).unwrap()
        .build()
        .unwrap();
    let plain = AffinitiesBuilder::new(9)
        .add_over(1.0f32, &[0, 1, 2], &a).unwrap()
        .add_over(1.0, &[3, 4, 5], &b).unwrap()
        .add_over(1.0, &[6, 7, 8], &c).unwrap()
        .build_uniform()
        .unwrap();

    assert_eq!(pooled.n_samples(), 9);
    assert_eq!(pooled.rows(), plain.rows());
    assert_eq!(pooled.columns(), plain.columns());
    for (p, u) in pooled.values().iter().zip(plain.values()) {
        assert!((p - u).abs() < 1e-6);
    }
}

/// The builder's getters and the tau setter.
#[test]
fn builder_getters_and_tau() {
    let a = tiny_graph(3, &[(0, 1), (1, 2)]);
    let b = AffinitiesBuilder::<f32>::new(3);
    assert_eq!(b.n_samples(), 3);
    assert_eq!(b.views_len(), 0);
    let pair = tiny_graph(2, &[(0, 1)]);
    let b = b.add_uniform(&a).unwrap().add_uniform_over(&[2, 0], &pair).unwrap();
    assert_eq!(b.views_len(), 2);
    let e = AffinitiesBuilder::<f32>::new(3).tau(0.0).err().unwrap();
    assert_eq!(e, AffinitiesBuilderError::NonPositiveTau);
    let b = b.tau(0.5).unwrap();
    assert_eq!(b.n_samples(), 3);
    assert_eq!(b.views_len(), 2);
}

/// Subset checks come in a fixed order and report the smallest repeated id.
#[test]
fn builder_subset_errors_in_order() {
    let a = tiny_graph(3, &[(0, 1), (1, 2)]);
    let e = AffinitiesBuilder::new(4).add_over(-1.0f32, &[0, 0], &a).err().unwrap();
    assert_eq!(e, AffinitiesBuilderError::NonPositiveWeight);
    let e = AffinitiesBuilder::new(4).add_over(1.0f32, &[0, 0], &a).err().unwrap();
    assert_eq!(e, AffinitiesBuilderError::SubsetSizeMismatch { view: 3, subset: 2 });
    let e = AffinitiesBuilder::new(4).add_over(1.0f32, &[3, 9, 7], &a).err().unwrap();
    assert_eq!(e, AffinitiesBuilderError::SubsetIdOutOfRange { id: 9, n_samples: 4 });
    let e = AffinitiesBuilder::new(9)
        .add_over(1.0f32, &[5, 2, 5, 2, 1, 1], &tiny_graph(6, &[(0, 1)]))
        .err()
        .unwrap();
    assert_eq!(e, AffinitiesBuilderError::DuplicateSubsetId { id: 1 });
}

/// The uniform pool of one full view and one subset view: row 0 has view A's neighbor 1
/// and, through the subset, view B's neighbor 2; the result is symmetric.
#[test]
fn build_uniform_pools_full_and_subset_views() {
    let a = tiny_graph(3, &[(0, 1)]);
    let b = tiny_graph(2, &[(0, 1)]);
    let pooled = AffinitiesBuilder::new(3)
        .add(1.0f32, &a).unwrap()
        .add_over(1.0, &[2, 0], &b).unwrap()
        .build_uniform()
        .unwrap();
    assert_eq!(pooled.rows(), &[0, 2, 3, 4]);
    assert_eq!(pooled.columns(), &[1, 2, 0, 0]);
    // Row 0 pools A (weight 1/2 on column 1) and B (weight 1/2 on column 2); rows 1 and 2
    // each put all their weight on 0. Symmetrized: (0,1) = 1/2 + 1, (0,2) = 1/2 + 1.
    for v in pooled.values() {
        assert!((v - 0.25).abs() < 1e-6, "{v}");
    }
}

fn joined(graph: &Affinities<f32>, i: usize, c: u32) -> bool {
    let rows = graph.rows();
    graph.columns()[rows[i]..rows[i + 1]].contains(&c)
}

/// Both pools give a symmetric structure: `i` lists `c` exactly when `c` lists `i`.
#[test]
fn pooled_graphs_are_structurally_symmetric() {
    let a = Affinities::<f32>::from_edges(6, vec![(0, 1), (1, 2), (2, 3), (4, 5)]);
    let b = Affinities::<f32>::from_edges(3, vec![(0, 2), (1, 2)]);
    for pooled in [
        AffinitiesBuilder::new(6).add(1.0f32, &a).unwrap().add_over(2.0, &[5, 0, 3], &b).unwrap().build().unwrap(),
        AffinitiesBuilder::new(6).add(1.0f32, &a).unwrap().add_over(2.0, &[5, 0, 3], &b).unwrap().build_uniform().unwrap(),
    ] {
        for i in 0..6usize {
            for c in 0..6u32 {
                assert_eq!(joined(&pooled, i, c), joined(&pooled, c as usize, i as u32), "({i}, {c})");
            }
        }
        assert!(joined(&pooled, 3, 0) && joined(&pooled, 5, 3) && joined(&pooled, 4, 5));
    }
}

/// A sample that no view covers keeps an empty row under both pools.
#[test]
fn uncovered_sample_keeps_empty_row_in_both_pools() {
    let b = Affinities::<f32>::from_edges(3, vec![(0, 1), (1, 2)]);
    let builder = || AffinitiesBuilder::new(5).add_over(1.0f32, &[0, 2, 4], &b).unwrap();
    for pooled in [builder().build().unwrap(), builder().build_uniform().unwrap()] {
        let rows = pooled.rows();
        assert_eq!(rows[2], rows[1]);
        assert_eq!(rows[4], rows[3]);
        assert!(rows[1] > rows[0]);
    }
}

/// With at most two views present at each sample, the agreement pool keeps every entry the
/// views offer: its structure matches the uniform pool's.
#[test]
fn agreement_pool_with_two_views_keeps_every_entry() {
    let a = Affinities::<f32>::from_edges(5, vec![(0, 1), (1, 2), (3, 4)]);
    let b = Affinities::<f32>::from_edges(3, vec![(0, 2)]);
    let make = || AffinitiesBuilder::new(5).add(1.0f32, &a).unwrap().add_over(3.0, &[4, 1, 0], &b).unwrap();
    let agreement = make().build().unwrap();
    let uniform = make().build_uniform().unwrap();
    assert_eq!(agreement.rows(), uniform.rows());
    assert_eq!(agreement.columns(), uniform.columns());
}

/// A unit-weight registration is refused only for a sample-count or subset mismatch.
#[test]
fn uniform_registrations_report_only_structural_errors() {
    let a = Affinities::<f32>::from_edges(3, vec![(0, 1)]);
    let e = AffinitiesBuilder::<f32>::new(4).add_uniform(&a).err().unwrap();
    assert_eq!(e, AffinitiesBuilderError::SampleCountMismatch { view: 3, builder: 4 });
    assert!(AffinitiesBuilder::<f32>::new(3).add_uniform(&a).is_ok());
    let e = AffinitiesBuilder::<f32>::new(4).add_uniform_over(&[0, 0, 1], &a).err().unwrap();
    assert_eq!(e, AffinitiesBuilderError::DuplicateSubsetId { id: 0 });
    assert!(AffinitiesBuilder::<f32>::new(4).add_uniform_over(&[3, 0, 1], &a).is_ok());
}
