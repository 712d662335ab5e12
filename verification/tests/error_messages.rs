use bhtsne::error::{AffinitiesBuilderError, FromShortestPathError, PcaError};
use bhtsne::FromCsrError;

/// Each `from_csr` error renders its message with its fields.
#[test]
fn from_csr_error_messages() {
    assert_eq!(
        FromCsrError::WrongRowsLen { expected: 4, actual: 3 }.message(),
        "from_csr: rows has length 3, expected n_samples + 1 = 4"
    );
    assert_eq!(
        FromCsrError::NonMonotoneRows { at: 2, prev: 5, next: 1 }.message(),
        "from_csr: rows[2] = 1 is less than rows[1] = 5"
    );
    assert_eq!(
        FromCsrError::ColumnOutOfRange { row: 0, entry: 10, column: 123, n_samples: 100 }.message(),
        "from_csr: row 0 entry 10 has column 123 out of range 0..100"
    );
    assert_eq!(
        FromCsrError::Asymmetric { row: 7, col: 0 }.message(),
        "from_csr: graph is not symmetric at (row 7, col 0)"
    );
    assert_eq!(
        FromCsrError::ZeroTotalMass.message(),
        "from_csr: all values sum to zero; graph cannot be normalised"
    );
}

/// The builder, PCA and shortest-path errors render their messages.
#[test]
fn builder_pca_and_path_error_messages() {
    assert_eq!(
        AffinitiesBuilderError::SampleCountMismatch { view: 9, builder: 10 }.message(),
        "view spans 9 samples, expected the builder's 10"
    );
    assert_eq!(AffinitiesBuilderError::NoViews.message(), "builder needs at least one view before building");
    assert_eq!(
        PcaError::PerplexityTooLarge { perplexity: 30, n: 18446744073709551615 }.message(),
        "perplexity ~30 is too large for 18446744073709551615 samples; need 3 * perplexity < n"
    );
    assert_eq!(
        FromShortestPathError::EdgeIdOutOfRange { id: 9, n_samples: 5 }.message(),
        "edge endpoint 9 is out of range 0..5"
    );
}
