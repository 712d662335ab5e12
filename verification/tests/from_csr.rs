use bhtsne::error::FromCsrError;
use bhtsne::Affinities;

/// Symmetric 3-node chain round-trips through validation and gets normalized to sum-one
/// with the same row and column layout the caller supplied.
#[test]
fn from_csr_validates_symmetric_input_and_normalizes() {
    let rows = vec![0usize, 1, 3, 4];
    let columns = vec![1u32, 0, 2, 1];
    let values = vec![1.0f32, 1.0, 1.0, 1.0];
    let graph = Affinities::<f32>::from_csr(3, rows.clone(), columns.clone(), values).unwrap();

    assert_eq!(graph.n_samples(), 3);
    assert_eq!(graph.rows(), rows.as_slice());
    assert_eq!(graph.columns(), columns.as_slice());
    let sum: f32 = graph.values().iter().sum();
    assert!((sum - 1.0).abs() < 1e-6);
    for &v in graph.values() {
        assert!((v - 0.25).abs() < 1e-6);
    }
}

/// Every `FromCsrError` variant fires on the matching malformed input.
#[test]
fn from_csr_rejects_each_error_variant() {
    let good_rows = vec![0usize, 1, 3, 4];
    let good_columns = vec![1u32, 0, 2, 1];
    let good_values = vec![1.0f32, 1.0, 1.0, 1.0];

    let e = Affinities::<f32>::from_csr(3, vec![0usize, 1, 3], good_columns.clone(), good_values.clone())
        .err()
        .unwrap();
    assert!(matches!(e, FromCsrError::WrongRowsLen { expected: 4, actual: 3 }));

    let e = Affinities::<f32>::from_csr(3, vec![0usize, 3, 1, 4], good_columns.clone(), good_values.clone())
        .err()
        .unwrap();
    assert!(matches!(e, FromCsrError::NonMonotoneRows { .. }));

    let e = Affinities::<f32>::from_csr(3, vec![0usize, 1, 3, 5], good_columns.clone(), good_values.clone())
        .err()
        .unwrap();
    assert!(matches!(e, FromCsrError::RowsEndMismatch { .. }));

    let e = Affinities::<f32>::from_csr(3, good_rows.clone(), vec![9u32, 0, 2, 1], good_values.clone())
        .err()
        .unwrap();
    assert!(matches!(e, FromCsrError::ColumnOutOfRange { column: 9, .. }));

    let mut bad_values = good_values.clone();
    bad_values[0] = f32::NAN;
    let e = Affinities::<f32>::from_csr(3, good_rows.clone(), good_columns.clone(), bad_values)
        .err()
        .unwrap();
    assert!(matches!(e, FromCsrError::ValueNotFinite { .. }));

    let mut bad_values = good_values.clone();
    bad_values[0] = -1.0;
    let e = Affinities::<f32>::from_csr(3, good_rows.clone(), good_columns.clone(), bad_values)
        .err()
        .unwrap();
    assert!(matches!(e, FromCsrError::ValueNegative { .. }));

    let asym_rows = vec![0usize, 1, 2, 3];
    let asym_columns = vec![1u32, 2, 1];
    let asym_values = vec![1.0f32, 1.0, 1.0];
    let e = Affinities::<f32>::from_csr(3, asym_rows, asym_columns, asym_values)
        .err()
        .unwrap();
    assert!(matches!(e, FromCsrError::Asymmetric { .. }));

    let zero_values = vec![0.0f32; good_columns.len()];
    let e = Affinities::<f32>::from_csr(3, good_rows, good_columns, zero_values)
        .err()
        .unwrap();
    assert!(matches!(e, FromCsrError::ZeroTotalMass));
}

/// The unchecked path is a pure move: no validation, no normalization.
#[test]
fn from_csr_unchecked_returns_input_verbatim() {
    let rows = vec![0usize, 1, 2];
    let columns = vec![1u32, 0];
    let values = vec![3.0f32, 4.0];
    let graph = Affinities::<f32>::from_csr_unchecked(2, rows.clone(), columns.clone(), values.clone());
    assert_eq!(graph.n_samples(), 2);
    assert_eq!(graph.rows(), rows.as_slice());
    assert_eq!(graph.columns(), columns.as_slice());
    assert_eq!(graph.values(), values.as_slice());
}

/// Errors carry the exact position of the first failing entry, in storage order.
#[test]
fn from_csr_reports_first_failing_entry_position() {
    // Row 1 entry 1 has column 7; row 2 entry 0 is NaN, later in storage order.
    let e = Affinities::<f64>::from_csr(3, vec![0, 1, 3, 4], vec![1, 0, 7, 1], vec![1.0, 1.0, 1.0, f64::NAN])
        .err()
        .unwrap();
    assert_eq!(e, FromCsrError::ColumnOutOfRange { row: 1, entry: 1, column: 7, n_samples: 3 });
    // A negative weight earlier in storage order wins over a later bad column.
    let e = Affinities::<f64>::from_csr(3, vec![0, 1, 3, 4], vec![1, 0, 7, 1], vec![1.0, -2.0, 1.0, 1.0])
        .err()
        .unwrap();
    assert_eq!(e, FromCsrError::ValueNegative { row: 1, entry: 0 });
    // The first decreasing offset is reported with its neighbours.
    let e = Affinities::<f64>::from_csr(3, vec![0, 3, 1, 0], vec![], vec![])
        .err()
        .unwrap();
    assert_eq!(e, FromCsrError::NonMonotoneRows { at: 2, prev: 3, next: 1 });
    assert_eq!(
        Affinities::<f64>::from_csr(2, vec![0, 1, 1], vec![1], vec![1.0]).err().unwrap(),
        FromCsrError::Asymmetric { row: 0, col: 1 }
    );
    // Weights that differ by more than the tolerance are not partners.
    assert_eq!(
        Affinities::<f64>::from_csr(2, vec![0, 1, 2], vec![1, 0], vec![1.0, 1.5]).err().unwrap(),
        FromCsrError::Asymmetric { row: 0, col: 1 }
    );
}

#[test]
fn n_samples_of_empty_offsets_is_zero() {
    let graph = Affinities::<f32>::from_csr_unchecked(0, vec![], vec![], vec![]);
    assert_eq!(graph.n_samples(), 0);
}
