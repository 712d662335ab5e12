//! [`Affinities::from_csr`]: a caller-supplied CSR triple, validated and normalized.

use num_traits::Float;
use vstd::prelude::*;

use crate::affinities::{csr_layout, lemma_row_of, row_of, sorted_offsets, Affinities};
use crate::error::FromCsrError;
use crate::weight::{w_abs, w_add, w_div, w_eq, w_count, w_is_finite, w_le, w_lt, w_mul, w_one, w_sub, w_zero};

verus! {

/// Outcome of the value tests on one stored weight, in the order `from_csr` applies them.
#[derive(Clone, Copy, Debug, PartialEq, Eq, Structural)]
pub enum ValueCheck {
    /// Finite and not negative.
    Valid,
    /// Infinite or NaN.
    NotFinite,
    /// Finite and below zero.
    Negative,
}

/// `at` is the first position where the offsets decrease.
pub open spec fn is_first_descent(rows: Seq<usize>, at: int) -> bool {
    &&& 1 <= at < rows.len()
    &&& rows[at] < rows[at - 1]
    &&& forall|k: int| 1 <= k < at ==> #[trigger] rows[k - 1] <= rows[k]
}

/// The verdict on the shape of the offsets: their count, their order, their end.
pub open spec fn layout_verdict(n: nat, rows: Seq<usize>, n_columns: nat) -> Result<(), FromCsrError> {
    if rows.len() != n + 1 {
        Err(FromCsrError::WrongRowsLen { expected: (n + 1) as usize, actual: rows.len() as usize })
    } else if !sorted_offsets(rows) {
        let at = choose|at: int| is_first_descent(rows, at);
        Err(FromCsrError::NonMonotoneRows { at: at as usize, prev: rows[at - 1], next: rows[at] })
    } else if rows[n as int] != n_columns {
        Err(FromCsrError::RowsEndMismatch { rows_end: rows[n as int], columns_len: n_columns as usize })
    } else {
        Ok(())
    }
}

/// Entry `e` has a column out of range or a weight that failed its value test.
pub open spec fn entry_fails(n: nat, columns: Seq<u32>, checks: Seq<ValueCheck>, e: int) -> bool {
    columns[e] >= n || checks[e] != ValueCheck::Valid
}

/// `e` is the first stored entry, in storage order, that fails.
pub open spec fn is_first_failing_entry(
    n: nat,
    rows: Seq<usize>,
    columns: Seq<u32>,
    checks: Seq<ValueCheck>,
    e: int,
) -> bool {
    &&& rows[0] <= e < rows[n as int]
    &&& entry_fails(n, columns, checks, e)
    &&& forall|e2: int| rows[0] <= e2 < e ==> !#[trigger] entry_fails(n, columns, checks, e2)
}

/// The error reported for failing entry `e`; a bad column is reported before a bad value.
pub open spec fn entry_error(
    n: nat,
    rows: Seq<usize>,
    columns: Seq<u32>,
    checks: Seq<ValueCheck>,
    e: int,
) -> FromCsrError {
    let i = row_of(rows, e);
    if columns[e] >= n {
        FromCsrError::ColumnOutOfRange {
            row: i as usize,
            entry: (e - rows[i]) as usize,
            column: columns[e],
            n_samples: n as usize,
        }
    } else if checks[e] == ValueCheck::NotFinite {
        FromCsrError::ValueNotFinite { row: i as usize, entry: (e - rows[i]) as usize }
    } else {
        FromCsrError::ValueNegative { row: i as usize, entry: (e - rows[i]) as usize }
    }
}

/// The verdict on the stored entries, given the value test of each weight.
pub open spec fn entries_verdict(
    n: nat,
    rows: Seq<usize>,
    columns: Seq<u32>,
    checks: Seq<ValueCheck>,
) -> Result<(), FromCsrError> {
    if exists|e: int| is_first_failing_entry(n, rows, columns, checks, e) {
        let e = choose|e: int| is_first_failing_entry(n, rows, columns, checks, e);
        Err(entry_error(n, rows, columns, checks, e))
    } else {
        Ok(())
    }
}

/// Entry `e` = `(i, j)` has a partner entry `(j, i)` in row `j` (the row index compared as
/// a `u32`, as the columns are stored).
pub open spec fn has_mirror(rows: Seq<usize>, columns: Seq<u32>, e: int) -> bool {
    let j = columns[e] as int;
    exists|f: int| rows[j] <= f < rows[j + 1] && #[trigger] columns[f] == (row_of(rows, e) as u32)
}

/// `e` is the first stored entry whose partner test failed.
pub open spec fn is_first_unmirrored(n: nat, rows: Seq<usize>, mirrored: Seq<bool>, e: int) -> bool {
    &&& rows[0] <= e < rows[n as int]
    &&& !mirrored[e]
    &&& forall|e2: int| rows[0] <= e2 < e ==> #[trigger] mirrored[e2]
}

/// The verdict on symmetry, given for each entry whether a partner entry with a weight
/// within tolerance was found.
pub open spec fn symmetry_verdict(
    n: nat,
    rows: Seq<usize>,
    columns: Seq<u32>,
    mirrored: Seq<bool>,
) -> Result<(), FromCsrError> {
    if exists|e: int| is_first_unmirrored(n, rows, mirrored, e) {
        let e = choose|e: int| is_first_unmirrored(n, rows, mirrored, e);
        Err(FromCsrError::Asymmetric { row: row_of(rows, e) as usize, col: columns[e] as usize })
    } else {
        Ok(())
    }
}

/// The whole verdict of `from_csr`, given the outcome of each test on the weights: the value
/// test of each weight, the partner test of each entry, and whether the total is zero.
pub open spec fn csr_verdict(
    n: nat,
    rows: Seq<usize>,
    columns: Seq<u32>,
    checks: Seq<ValueCheck>,
    mirrored: Seq<bool>,
    zero_total: bool,
) -> Result<(), FromCsrError> {
    if layout_verdict(n, rows, columns.len()) is Err {
        layout_verdict(n, rows, columns.len())
    } else if entries_verdict(n, rows, columns, checks) is Err {
        entries_verdict(n, rows, columns, checks)
    } else if symmetry_verdict(n, rows, columns, mirrored) is Err {
        symmetry_verdict(n, rows, columns, mirrored)
    } else if zero_total {
        Err(FromCsrError::ZeroTotalMass)
    } else {
        Ok(())
    }
}

/// The outcome of a fallible constructor, without the value it builds.
pub open spec fn verdict_of<A>(r: Result<A, FromCsrError>) -> Result<(), FromCsrError> {
    match r {
        Ok(_) => Ok(()),
        Err(err) => Err(err),
    }
}

/// Checks the offsets: `n_samples + 1` of them, never decreasing, ending at `n_columns`.
pub fn check_layout(n_samples: usize, rows: &Vec<usize>, n_columns: usize) -> (r: Result<(), FromCsrError>)
    requires
        n_samples < usize::MAX,
    ensures
        r == layout_verdict(n_samples as nat, rows@, n_columns as nat),
        r is Ok <==> csr_layout(n_samples as nat, rows@, n_columns as nat),
{
    let expected = n_samples + 1;
    if rows.len() != expected {
        return Err(FromCsrError::WrongRowsLen { expected, actual: rows.len() });
    }
    let mut i: usize = 1;
    while i < rows.len()
        invariant
            1 <= i <= rows.len(),
            rows.len() == expected,
            expected == n_samples + 1,
            forall|a: int, b: int| 0 <= a <= b < i ==> rows@[a] <= rows@[b],
        decreases rows.len() - i,
    {
        if rows[i] < rows[i - 1] {
            proof {
                let at = i as int;
                assert forall|k: int| 1 <= k < at implies #[trigger] rows@[k - 1] <= rows@[k] by {}
                assert(is_first_descent(rows@, at));
                assert(rows@[at - 1] > rows@[at]);
                assert(!sorted_offsets(rows@));
                let c = choose|c: int| is_first_descent(rows@, c);
                if c < at {
                    assert(rows@[c - 1] <= rows@[c]);
                } else if c > at {
                    assert(rows@[at - 1] <= rows@[at]);
                }
                assert(c == at);
                assert(layout_verdict(n_samples as nat, rows@, n_columns as nat) == Err::<(), FromCsrError>(FromCsrError::NonMonotoneRows { at: i, prev: rows@[at - 1], next: rows@[at] }));
            }
            return Err(FromCsrError::NonMonotoneRows { at: i, prev: rows[i - 1], next: rows[i] });
        }
        i = i + 1;
    }
    assert(sorted_offsets(rows@));
    if rows[n_samples] != n_columns {
        return Err(FromCsrError::RowsEndMismatch { rows_end: rows[n_samples], columns_len: n_columns });
    }
    Ok(())
}

/// Checks every stored entry in storage order: its column is below `n_samples` and its
/// weight passed its value test.
pub fn check_entries(
    n_samples: usize,
    rows: &Vec<usize>,
    columns: &Vec<u32>,
    checks: &Vec<ValueCheck>,
) -> (r: Result<(), FromCsrError>)
    requires
        csr_layout(n_samples as nat, rows@, columns@.len()),
        checks@.len() >= columns@.len(),
    ensures
        r == entries_verdict(n_samples as nat, rows@, columns@, checks@),
        r is Ok <==> forall|e: int|
            rows@[0] <= e < rows@[n_samples as int] ==> !#[trigger] entry_fails(n_samples as nat, columns@, checks@, e),
{
    let ghost n = n_samples as nat;
    let mut i: usize = 0;
    while i < n_samples
        invariant
            0 <= i <= n_samples,
            n == n_samples as nat,
            csr_layout(n, rows@, columns@.len()),
            checks@.len() >= columns@.len(),
            forall|e2: int| rows@[0] <= e2 < rows@[i as int] ==> !#[trigger] entry_fails(n, columns@, checks@, e2),
        decreases n_samples - i,
    {
        let mut e: usize = rows[i];
        let end = rows[i + 1];
        while e < end
            invariant
                0 <= i < n_samples,
                n == n_samples as nat,
                csr_layout(n, rows@, columns@.len()),
                checks@.len() >= columns@.len(),
                end == rows@[i + 1],
                rows@[i as int] <= e <= end,
                forall|e2: int| rows@[0] <= e2 < e ==> !#[trigger] entry_fails(n, columns@, checks@, e2),
            decreases end - e,
        {
            assert(rows@[n as int] == columns@.len());
            assert(rows@[i + 1] <= rows@[n as int]);
            assert(rows@[0] <= rows@[i as int]);
            let fails = (columns[e] as usize) >= n_samples || checks[e] != ValueCheck::Valid;
            if fails {
                proof {
                    lemma_row_of(rows@, i as int, e as int);
                    assert(entry_fails(n, columns@, checks@, e as int));
                    assert(is_first_failing_entry(n, rows@, columns@, checks@, e as int));
                    let c = choose|c: int| is_first_failing_entry(n, rows@, columns@, checks@, c);
                    if c < e {
                        assert(!entry_fails(n, columns@, checks@, c));
                    } else if c > e {
                        assert(!entry_fails(n, columns@, checks@, e as int));
                    }
                }
                let entry = e - rows[i];
                if (columns[e] as usize) >= n_samples {
                    return Err(FromCsrError::ColumnOutOfRange { row: i, entry, column: columns[e], n_samples });
                } else if checks[e] == ValueCheck::NotFinite {
                    return Err(FromCsrError::ValueNotFinite { row: i, entry });
                } else {
                    return Err(FromCsrError::ValueNegative { row: i, entry });
                }
            }
            e = e + 1;
        }
        i = i + 1;
    }
    proof {
        if exists|e: int| is_first_failing_entry(n, rows@, columns@, checks@, e) {
            let c = choose|c: int| is_first_failing_entry(n, rows@, columns@, checks@, c);
            assert(!entry_fails(n, columns@, checks@, c));
        }
    }
    Ok(())
}

/// Checks that every stored entry passed its partner test, in storage order.
pub fn check_symmetry(
    n_samples: usize,
    rows: &Vec<usize>,
    columns: &Vec<u32>,
    mirrored: &Vec<bool>,
) -> (r: Result<(), FromCsrError>)
    requires
        csr_layout(n_samples as nat, rows@, columns@.len()),
        mirrored@.len() >= columns@.len(),
    ensures
        r == symmetry_verdict(n_samples as nat, rows@, columns@, mirrored@),
        r is Ok <==> forall|e: int| rows@[0] <= e < rows@[n_samples as int] ==> #[trigger] mirrored@[e],
{
    let ghost n = n_samples as nat;
    let mut i: usize = 0;
    while i < n_samples
        invariant
            0 <= i <= n_samples,
            n == n_samples as nat,
            csr_layout(n, rows@, columns@.len()),
            mirrored@.len() >= columns@.len(),
            forall|e2: int| rows@[0] <= e2 < rows@[i as int] ==> #[trigger] mirrored@[e2],
        decreases n_samples - i,
    {
        let mut e: usize = rows[i];
        let end = rows[i + 1];
        while e < end
            invariant
                0 <= i < n_samples,
                n == n_samples as nat,
                csr_layout(n, rows@, columns@.len()),
                mirrored@.len() >= columns@.len(),
                end == rows@[i + 1],
                rows@[i as int] <= e <= end,
                forall|e2: int| rows@[0] <= e2 < e ==> #[trigger] mirrored@[e2],
            decreases end - e,
        {
            assert(rows@[i + 1] <= rows@[n as int]);
            assert(rows@[0] <= rows@[i as int]);
            if !mirrored[e] {
                proof {
                    lemma_row_of(rows@, i as int, e as int);
                    assert(is_first_unmirrored(n, rows@, mirrored@, e as int));
                    let c = choose|c: int| is_first_unmirrored(n, rows@, mirrored@, c);
                    if c < e {
                        assert(mirrored@[c]);
                    } else if c > e {
                        assert(mirrored@[e as int]);
                    }
                }
                return Err(FromCsrError::Asymmetric { row: i, col: columns[e] as usize });
            }
            e = e + 1;
        }
        i = i + 1;
    }
    proof {
        if exists|e: int| is_first_unmirrored(n, rows@, mirrored@, e) {
            let c = choose|c: int| is_first_unmirrored(n, rows@, mirrored@, c);
            assert(mirrored@[c]);
        }
    }
    Ok(())
}

/// The value test of each weight: finite, then not below zero.
fn value_checks<T: Float>(values: &Vec<T>) -> (checks: Vec<ValueCheck>)
    ensures
        checks@.len() == values@.len(),
{
    let mut checks: Vec<ValueCheck> = Vec::new();
    let zero: T = w_zero();
    let mut k: usize = 0;
    while k < values.len()
        invariant
            k <= values@.len(),
            checks@.len() == k,
        decreases values.len() - k,
    {
        let v = values[k];
        if !w_is_finite(v) {
            checks.push(ValueCheck::NotFinite);
        } else if w_lt(v, zero) {
            checks.push(ValueCheck::Negative);
        } else {
            checks.push(ValueCheck::Valid);
        }
        k = k + 1;
    }
    checks
}

/// For each stored entry `(i, j)` with weight `v`, whether row `j` holds an entry `(j, i)`
/// whose weight lies within `1e-6` of `v`. Entries outside the stored range get `false`.
fn mirror_flags<T: Float>(
    n_samples: usize,
    rows: &Vec<usize>,
    columns: &Vec<u32>,
    values: &Vec<T>,
) -> (mirrored: Vec<bool>)
    requires
        csr_layout(n_samples as nat, rows@, columns@.len()),
        values@.len() >= columns@.len(),
        forall|e: int| rows@[0] <= e < rows@[n_samples as int] ==> (#[trigger] columns@[e]) < n_samples,
    ensures
        mirrored@.len() == columns@.len(),
        forall|e: int| 0 <= e < columns@.len() && #[trigger] mirrored@[e] ==> {
            &&& rows@[0] <= e < rows@[n_samples as int]
            &&& has_mirror(rows@, columns@, e)
        },
{
    let ghost n = n_samples as nat;
    let mut mirrored: Vec<bool> = Vec::new();
    let mut k: usize = 0;
    while k < columns.len()
        invariant
            k <= columns@.len(),
            mirrored@.len() == k,
            forall|e: int| 0 <= e < k ==> !#[trigger] mirrored@[e],
        decreases columns.len() - k,
    {
        mirrored.push(false);
        k = k + 1;
    }
    let tolerance: T = w_div(w_one(), w_count(1_000_000));
    let mut i: usize = 0;
    while i < n_samples
        invariant
            0 <= i <= n_samples,
            n == n_samples as nat,
            csr_layout(n, rows@, columns@.len()),
            values@.len() >= columns@.len(),
            forall|e: int| rows@[0] <= e < rows@[n as int] ==> (#[trigger] columns@[e]) < n_samples,
            mirrored@.len() == columns@.len(),
            forall|e: int| 0 <= e < columns@.len() && #[trigger] mirrored@[e] ==> {
                &&& rows@[0] <= e < rows@[n as int]
                &&& has_mirror(rows@, columns@, e)
            },
        decreases n_samples - i,
    {
        let mut e: usize = rows[i];
        let end = rows[i + 1];
        while e < end
            invariant
                0 <= i < n_samples,
                n == n_samples as nat,
                csr_layout(n, rows@, columns@.len()),
                values@.len() >= columns@.len(),
                forall|e: int| rows@[0] <= e < rows@[n as int] ==> (#[trigger] columns@[e]) < n_samples,
                end == rows@[i + 1],
                rows@[i as int] <= e <= end,
                mirrored@.len() == columns@.len(),
                forall|e: int| 0 <= e < columns@.len() && #[trigger] mirrored@[e] ==> {
                    &&& rows@[0] <= e < rows@[n as int]
                    &&& has_mirror(rows@, columns@, e)
                },
            decreases end - e,
        {
            assert(rows@[i + 1] <= rows@[n as int]);
            assert(rows@[0] <= rows@[i as int]);
            let j = columns[e] as usize;
            let v = values[e];
            let row_start = rows[j];
            let row_end = rows[j + 1];
            assert(rows@[j + 1] <= rows@[n as int]);
            let mut f: usize = row_start;
            let mut found = false;
            while f < row_end
                invariant
                    csr_layout(n, rows@, columns@.len()),
                    values@.len() >= columns@.len(),
                    j < n_samples,
                    row_start == rows@[j as int],
                    row_end == rows@[j + 1],
                    row_end <= columns@.len(),
                    row_start <= f <= row_end,
                    found ==> exists|g: int| row_start <= g < row_end && #[trigger] columns@[g] == (i as u32),
                decreases row_end - f,
            {
                if columns[f] == i as u32 && w_le(w_abs(w_sub(values[f], v)), tolerance) {
                    found = true;
                    break;
                }
                f = f + 1;
            }
            if found {
                proof {
                    lemma_row_of(rows@, i as int, e as int);
                }
                mirrored.set(e, true);
            }
            e = e + 1;
        }
        i = i + 1;
    }
    mirrored
}

impl<T: Float> Affinities<T> {
    /// Builds an [`Affinities`] from a caller-supplied CSR triple with full validation.
    ///
    /// Validates, in this order: `rows` has length `n_samples + 1`, never decreases and ends at
    /// `columns.len()`; then, entry by entry in storage order, the column is below `n_samples`,
    /// the weight is finite and not negative; then every entry `(i, j, v)` has a partner
    /// `(j, i, w)` with `|w - v| <= 1e-6`; then the total is not zero. On success the weights
    /// are scaled by `1 / total` and the offsets and columns are kept as given.
    pub fn from_csr(
        n_samples: usize,
        rows: Vec<usize>,
        columns: Vec<u32>,
        values: Vec<T>,
    ) -> (r: Result<Self, FromCsrError>)
        requires
            n_samples < usize::MAX,
            csr_layout(n_samples as nat, rows@, columns@.len()) ==> columns@.len() <= values@.len(),
        ensures
            layout_verdict(n_samples as nat, rows@, columns@.len()) is Err ==> verdict_of(r)
                == layout_verdict(n_samples as nat, rows@, columns@.len()),
            exists|checks: Seq<ValueCheck>, mirrored: Seq<bool>, zero_total: bool| {
                &&& checks.len() == values@.len()
                &&& mirrored.len() == columns@.len()
                &&& forall|e: int| 0 <= e < columns@.len() && #[trigger] mirrored[e]
                    ==> has_mirror(rows@, columns@, e)
                &&& csr_verdict(n_samples as nat, rows@, columns@, checks, mirrored, zero_total)
                    == verdict_of(r)
            },
            r matches Ok(a) ==> {
                &&& a.spec_rows() == rows@
                &&& a.spec_columns() == columns@
                &&& a.spec_values().len() == values@.len()
                &&& csr_layout(n_samples as nat, rows@, columns@.len())
                &&& forall|e: int| rows@[0] <= e < rows@[n_samples as int] ==> {
                    &&& (#[trigger] columns@[e]) < n_samples
                    &&& has_mirror(rows@, columns@, e)
                }
            },
    {
        let layout = check_layout(n_samples, &rows, columns.len());
        if let Err(err) = layout {
            proof {
                let checks = Seq::new(values@.len(), |k: int| ValueCheck::Valid);
                let mirrored = Seq::new(columns@.len(), |k: int| false);
                assert(csr_verdict(n_samples as nat, rows@, columns@, checks, mirrored, false) == Err::<(), FromCsrError>(err));
            }
            return Err(err);
        }
        let checks = value_checks(&values);
        let entries = check_entries(n_samples, &rows, &columns, &checks);
        if let Err(err) = entries {
            proof {
                let mirrored = Seq::new(columns@.len(), |k: int| false);
                assert(csr_verdict(n_samples as nat, rows@, columns@, checks@, mirrored, false) == Err::<(), FromCsrError>(err));
            }
            return Err(err);
        }
        assert forall|e: int| rows@[0] <= e < rows@[n_samples as int] implies (#[trigger] columns@[e]) < n_samples by {
            assert(!entry_fails(n_samples as nat, columns@, checks@, e));
        }
        let mirrored = mirror_flags(n_samples, &rows, &columns, &values);
        let symmetry = check_symmetry(n_samples, &rows, &columns, &mirrored);
        if let Err(err) = symmetry {
            proof {
                assert(csr_verdict(n_samples as nat, rows@, columns@, checks@, mirrored@, false) == Err::<(), FromCsrError>(err));
            }
            return Err(err);
        }
        let mut values = values;
        let zero: T = w_zero();
        let mut total: T = zero;
        let mut k: usize = 0;
        while k < values.len()
            invariant
                k <= values@.len(),
            decreases values.len() - k,
        {
            total = w_add(total, values[k]);
            k = k + 1;
        }
        if w_eq(total, zero) {
            proof {
                assert(csr_verdict(n_samples as nat, rows@, columns@, checks@, mirrored@, true) == Err::<(), FromCsrError>(FromCsrError::ZeroTotalMass));
            }
            return Err(FromCsrError::ZeroTotalMass);
        }
        let scale: T = w_div(w_one(), total);
        let ghost len = values@.len();
        let mut k: usize = 0;
        while k < values.len()
            invariant
                k <= values@.len(),
                values@.len() == len,
            decreases values.len() - k,
        {
            let scaled = w_mul(values[k], scale);
            values.set(k, scaled);
            k = k + 1;
        }
        proof {
            assert(csr_verdict(n_samples as nat, rows@, columns@, checks@, mirrored@, false) == Ok::<(), FromCsrError>(()));
            assert forall|e: int| rows@[0] <= e < rows@[n_samples as int] implies {
                &&& (#[trigger] columns@[e]) < n_samples
                &&& has_mirror(rows@, columns@, e)
            } by {
                assert(!entry_fails(n_samples as nat, columns@, checks@, e));
                assert(mirrored@[e]);
            }
        }
        Ok(Affinities::from_parts(rows, columns, values))
    }
}

} // verus!
