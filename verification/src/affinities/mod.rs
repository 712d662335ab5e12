//! Precomputed sparse affinity graphs for t-SNE fitting.
//!
//! An [`Affinities`] value is a graph in CSR layout: `rows` holds `n_samples + 1` offsets,
//! `columns` the column index of each entry and `values` its weight.

use vstd::prelude::*;

pub mod builder;
pub mod pairs;
pub mod csr;
pub mod edges;
pub mod shortest_path;
pub mod symmetrize;

pub use builder::AffinitiesBuilder;



verus! {

/// A sample's nearest neighbor: its index and the distance (not a similarity) to it.
#[derive(Clone, Copy, Debug, PartialEq, Eq)]
pub struct Neighbor<T> {
    /// Neighbor sample index.
    pub index: usize,
    /// Distance to the neighbor.
    pub distance: T,
}

/// A precomputed sparse affinity graph in CSR layout.
#[derive(Clone)]
pub struct Affinities<T> {
    rows: Vec<usize>,
    columns: Vec<u32>,
    values: Vec<T>,
}

/// Offsets that never decrease.
pub open spec fn sorted_offsets(rows: Seq<usize>) -> bool {
    forall|i: int, j: int| 0 <= i <= j < rows.len() ==> rows[i] <= rows[j]
}

/// `rows` is a CSR offset array over `n` rows that ends at `n_entries`.
pub open spec fn csr_layout(n: nat, rows: Seq<usize>, n_entries: nat) -> bool {
    &&& rows.len() == n + 1
    &&& sorted_offsets(rows)
    &&& rows[n as int] == n_entries
}

/// The row that entry `e` lies in: the `i` with `rows[i] <= e < rows[i + 1]`.
pub open spec fn row_of(rows: Seq<usize>, e: int) -> int {
    choose|i: int| 0 <= i && i + 1 < rows.len() && #[trigger] rows[i] <= e < rows[i + 1]
}

/// The column indices stored in row `i`.
pub open spec fn row_columns(rows: Seq<usize>, columns: Seq<u32>, i: int) -> Seq<u32> {
    columns.subrange(rows[i] as int, rows[i + 1] as int)
}

/// Strictly increasing columns.
pub open spec fn strictly_increasing(s: Seq<u32>) -> bool {
    forall|a: int, b: int| 0 <= a < b < s.len() ==> s[a] < s[b]
}

/// A CSR graph over `n` rows whose offsets start at zero, whose rows hold strictly increasing
/// columns below `n`, and whose values run parallel to its columns.
pub open spec fn canonical_csr(n: nat, rows: Seq<usize>, columns: Seq<u32>, n_values: nat) -> bool {
    &&& csr_layout(n, rows, columns.len())
    &&& rows[0] == 0
    &&& n_values == columns.len()
    &&& forall|i: int| 0 <= i < n ==> #[trigger] strictly_increasing(row_columns(rows, columns, i))
    &&& forall|e: int| 0 <= e < columns.len() ==> columns[e] < n
}

/// The set of columns stored in row `i`.
pub open spec fn row_set(rows: Seq<usize>, columns: Seq<u32>, i: int) -> Set<u32> {
    row_columns(rows, columns, i).to_set()
}

/// In row `i` of a CSR graph, the entry `e` lies in that row.
pub proof fn lemma_row_of(rows: Seq<usize>, i: int, e: int)
    requires
        sorted_offsets(rows),
        0 <= i,
        i + 1 < rows.len(),
        rows[i] <= e < rows[i + 1],
    ensures
        row_of(rows, e) == i,
{
    let r = row_of(rows, e);
    assert(0 <= r && r + 1 < rows.len() && rows[r] <= e < rows[r + 1]);
    if r < i {
        assert(rows[r + 1] <= rows[i]);
    } else if r > i {
        assert(rows[i + 1] <= rows[r]);
    }
}

/// Appending a row to a CSR graph under construction leaves the earlier rows as they were.
pub proof fn lemma_rows_kept(rows0: Seq<usize>, cols0: Seq<u32>, rows: Seq<usize>, cols: Seq<u32>)
    requires
        rows0.len() >= 1,
        rows.len() == rows0.len() + 1,
        rows.subrange(0, rows0.len() as int) == rows0,
        cols.len() >= cols0.len(),
        cols.subrange(0, cols0.len() as int) == cols0,
        sorted_offsets(rows0),
        rows0[rows0.len() - 1] == cols0.len(),
    ensures
        forall|q: int| 0 <= q < rows0.len() - 1 ==> #[trigger] row_columns(rows, cols, q) == row_columns(rows0, cols0, q),
{
    assert forall|q: int| 0 <= q < rows0.len() - 1 implies #[trigger] row_columns(rows, cols, q) == row_columns(rows0, cols0, q) by {
        assert(rows[q] == rows0[q]);
        assert(rows[q + 1] == rows0[q + 1]);
        assert(rows0[q] <= rows0[q + 1]);
        assert(rows0[q + 1] <= rows0[rows0.len() - 1]);
        assert forall|x: int| 0 <= x < row_columns(rows0, cols0, q).len()
            implies row_columns(rows, cols, q)[x] == row_columns(rows0, cols0, q)[x] by {
            assert(cols[rows0[q] + x] == cols.subrange(0, cols0.len() as int)[rows0[q] + x]);
        }
        assert(row_columns(rows, cols, q) =~= row_columns(rows0, cols0, q));
    }
}

impl<T> Affinities<T> {
    /// The CSR offsets.
    pub closed spec fn spec_rows(&self) -> Seq<usize> {
        self.rows@
    }

    /// The column index of each entry.
    pub closed spec fn spec_columns(&self) -> Seq<u32> {
        self.columns@
    }

    /// The weight of each entry.
    pub closed spec fn spec_values(&self) -> Seq<T> {
        self.values@
    }

    /// Number of samples: one less than the number of offsets, or zero without offsets.
    pub open spec fn spec_n_samples(&self) -> nat {
        if self.spec_rows().len() == 0 {
            0
        } else {
            (self.spec_rows().len() - 1) as nat
        }
    }

    /// Every non-empty row can be read: its entries lie within `columns` and `values`, and
    /// its columns are below the sample count.
    pub open spec fn rows_in_bounds(&self) -> bool {
        forall|l: int| 0 <= l < self.spec_n_samples() && #[trigger] self.spec_rows()[l] < self.spec_rows()[l + 1] ==> {
            &&& self.spec_rows()[l + 1] <= self.spec_columns().len()
            &&& self.spec_rows()[l + 1] <= self.spec_values().len()
            &&& forall|k: int| self.spec_rows()[l] <= k < self.spec_rows()[l + 1]
                ==> (#[trigger] self.spec_columns()[k]) < self.spec_n_samples()
        }
    }

    /// Assembles a graph from its three arrays, as they are.
    pub(crate) fn from_parts(rows: Vec<usize>, columns: Vec<u32>, values: Vec<T>) -> (a: Self)
        ensures
            a.spec_rows() == rows@,
            a.spec_columns() == columns@,
            a.spec_values() == values@,
    {
        Affinities { rows, columns, values }
    }

    /// Number of samples the graph spans.
    pub fn n_samples(&self) -> (n: usize)
        ensures
            n == self.spec_n_samples(),
    {
        if self.rows.len() == 0 {
            0
        } else {
            self.rows.len() - 1
        }
    }

    /// CSR row offsets.
    pub fn rows(&self) -> (r: &[usize])
        ensures
            r@ == self.spec_rows(),
    {
        self.rows.as_slice()
    }

    /// CSR column indices.
    pub fn columns(&self) -> (c: &[u32])
        ensures
            c@ == self.spec_columns(),
    {
        self.columns.as_slice()
    }

    /// Affinity values.
    pub fn values(&self) -> (v: &[T])
        ensures
            v@ == self.spec_values(),
    {
        self.values.as_slice()
    }

    /// Builds a graph from a CSR triple with no validation or normalization: the triple is
    /// stored as given.
    pub fn from_csr_unchecked(
        n_samples: usize,
        rows: Vec<usize>,
        columns: Vec<u32>,
        values: Vec<T>,
    ) -> (a: Self)
        ensures
            a.spec_rows() == rows@,
            a.spec_columns() == columns@,
            a.spec_values() == values@,
    {
        Affinities { rows, columns, values }
    }
}

} // verus!
