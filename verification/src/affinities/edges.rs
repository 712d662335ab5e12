//! [`Affinities::from_edges`] and [`Affinities::from_weighted_edges`]: graphs from undirected
//! edge lists.

use num_traits::Float;
use vstd::prelude::*;

use crate::affinities::pairs::{distinct_keys, has_key, sort_pairs};
use crate::affinities::symmetrize::normalize_p_values;
use crate::affinities::{canonical_csr, row_columns, strictly_increasing, Affinities};
use crate::weight::{w_add, w_one};

verus! {

/// The edge with endpoints `a` and `b` joins `i` and `j`, in either direction.
pub open spec fn joins(a: usize, b: usize, i: int, j: int) -> bool {
    (a == i && b == j) || (b == i && a == j)
}

/// Some weighted edge in `edges` joins `i` and `j`.
pub open spec fn edge_touches<T>(edges: Seq<(usize, usize, T)>, i: int, j: int) -> bool {
    exists|k: int| 0 <= k < edges.len() && #[trigger] joins(edges[k].0, edges[k].1, i, j)
}

/// Some unit edge in `edges` joins `i` and `j`.
pub open spec fn unit_edge_touches(edges: Seq<(usize, usize)>, i: int, j: int) -> bool {
    exists|k: int| 0 <= k < edges.len() && #[trigger] joins(edges[k].0, edges[k].1, i, j)
}

/// Adds weight `w` to the pair of column `c` in `row`, or appends `(c, w)` when the row has
/// no such pair.
fn add_to_row<T: Float>(row: &mut Vec<(u32, T)>, c: u32, w: T)
    requires
        distinct_keys(old(row)@),
    ensures
        distinct_keys(final(row)@),
        forall|k: u32| has_key(final(row)@, k) <==> (has_key(old(row)@, k) || k == c),
{
    let mut p: usize = 0;
    while p < row.len()
        invariant
            p <= row@.len(),
            row@ == old(row)@,
            distinct_keys(row@),
            forall|a: int| 0 <= a < p ==> #[trigger] row@[a].0 != c,
        decreases row@.len() - p,
    {
        if row[p].0 == c {
            let ghost before = row@;
            let updated = (c, w_add(row[p].1, w));
            row.set(p, updated);
            proof {
                assert forall|a: int, b: int| 0 <= a < b < row@.len() implies row@[a].0 != row@[b].0 by {
                    assert(before[a].0 != before[b].0);
                }
                assert forall|k: u32| has_key(row@, k) <==> (has_key(before, k) || k == c) by {
                    if has_key(row@, k) {
                        let a = choose|a: int| 0 <= a < row@.len() && #[trigger] row@[a].0 == k;
                        assert(before[a].0 == k);
                    }
                    if has_key(before, k) {
                        let a = choose|a: int| 0 <= a < before.len() && #[trigger] before[a].0 == k;
                        assert(row@[a].0 == k);
                    }
                    if k == c {
                        assert(row@[p as int].0 == k);
                    }
                }
            }
            return;
        }
        p = p + 1;
    }
    let ghost before = row@;
    row.push((c, w));
    proof {
        assert forall|a: int, b: int| 0 <= a < b < row@.len() implies row@[a].0 != row@[b].0 by {
            if b < before.len() {
                assert(before[a].0 != before[b].0);
            }
        }
        assert forall|k: u32| has_key(row@, k) <==> (has_key(before, k) || k == c) by {
            if has_key(row@, k) {
                let a = choose|a: int| 0 <= a < row@.len() && #[trigger] row@[a].0 == k;
                if a < before.len() {
                    assert(before[a].0 == k);
                }
            }
            if has_key(before, k) {
                let a = choose|a: int| 0 <= a < before.len() && #[trigger] before[a].0 == k;
                assert(row@[a].0 == k);
            }
            if k == c {
                assert(row@[before.len() as int].0 == k);
            }
        }
    }
}

impl<T: Float> Affinities<T> {
    /// Builds a normalized affinity graph from undirected unit-weight edges: the same graph as
    /// [`from_weighted_edges`](Affinities::from_weighted_edges) with every weight one.
    pub fn from_edges(n_samples: usize, edges: Vec<(usize, usize)>) -> (a: Self)
        requires
            n_samples < usize::MAX,
            n_samples <= u32::MAX as nat + 1,
            forall|k: int| 0 <= k < edges@.len() ==> (#[trigger] edges@[k]).0 < n_samples && edges@[k].1 < n_samples,
        ensures
            canonical_csr(n_samples as nat, a.spec_rows(), a.spec_columns(), a.spec_values().len()),
            forall|i: int, c: u32| 0 <= i < n_samples ==>
                (#[trigger] row_columns(a.spec_rows(), a.spec_columns(), i).contains(c)
                    <==> unit_edge_touches(edges@, i, c as int)),
            forall|i: int, c: u32| 0 <= i < n_samples && (c as int) < n_samples ==>
                (#[trigger] row_columns(a.spec_rows(), a.spec_columns(), i).contains(c)
                    <==> row_columns(a.spec_rows(), a.spec_columns(), c as int).contains(i as u32)),
    {
        let one: T = w_one();
        let mut weighted: Vec<(usize, usize, T)> = Vec::new();
        let mut k: usize = 0;
        while k < edges.len()
            invariant
                k <= edges@.len(),
                weighted@.len() == k,
                forall|q: int| 0 <= q < k ==> (#[trigger] weighted@[q]).0 == edges@[q].0 && weighted@[q].1 == edges@[q].1,
            decreases edges@.len() - k,
        {
            weighted.push((edges[k].0, edges[k].1, one));
            k = k + 1;
        }
        let a = Self::from_weighted_edges(n_samples, weighted);
        proof {
            assert forall|i: int, c: u32| 0 <= i < n_samples implies
                (#[trigger] row_columns(a.spec_rows(), a.spec_columns(), i).contains(c)
                    <==> unit_edge_touches(edges@, i, c as int)) by {
                if edge_touches(weighted@, i, c as int) {
                    let q = choose|q: int| 0 <= q < weighted@.len() && #[trigger] joins(weighted@[q].0, weighted@[q].1, i, c as int);
                    assert(joins(edges@[q].0, edges@[q].1, i, c as int));
                }
                if unit_edge_touches(edges@, i, c as int) {
                    let q = choose|q: int| 0 <= q < edges@.len() && #[trigger] joins(edges@[q].0, edges@[q].1, i, c as int);
                    assert(joins(weighted@[q].0, weighted@[q].1, i, c as int));
                }
            }
        }
        a
    }

    /// Builds a normalized affinity graph from undirected weighted edges.
    ///
    /// Each edge `(i, j, w)` contributes `w` to both `(i, j)` and `(j, i)`; repeated edges add
    /// up. Row `i` holds one entry per sample joined to `i` by some edge, in increasing column
    /// order, and the weights are then scaled to sum to one.
    pub fn from_weighted_edges(n_samples: usize, edges: Vec<(usize, usize, T)>) -> (a: Self)
        requires
            n_samples < usize::MAX,
            n_samples <= u32::MAX as nat + 1,
            forall|k: int| 0 <= k < edges@.len() ==> (#[trigger] edges@[k]).0 < n_samples && edges@[k].1 < n_samples,
        ensures
            canonical_csr(n_samples as nat, a.spec_rows(), a.spec_columns(), a.spec_values().len()),
            forall|i: int, c: u32| 0 <= i < n_samples ==>
                (#[trigger] row_columns(a.spec_rows(), a.spec_columns(), i).contains(c)
                    <==> edge_touches(edges@, i, c as int)),
            forall|i: int, c: u32| 0 <= i < n_samples && (c as int) < n_samples ==>
                (#[trigger] row_columns(a.spec_rows(), a.spec_columns(), i).contains(c)
                    <==> row_columns(a.spec_rows(), a.spec_columns(), c as int).contains(i as u32)),
    {
        let mut accumulators: Vec<Vec<(u32, T)>> = Vec::new();
        let mut r: usize = 0;
        while r < n_samples
            invariant
                r <= n_samples,
                accumulators@.len() == r,
                forall|q: int| 0 <= q < r ==> (#[trigger] accumulators@[q])@.len() == 0,
            decreases n_samples - r,
        {
            accumulators.push(Vec::new());
            r = r + 1;
        }
        let mut k: usize = 0;
        while k < edges.len()
            invariant
                k <= edges@.len(),
                n_samples <= u32::MAX as nat + 1,
                forall|q: int| 0 <= q < edges@.len() ==> (#[trigger] edges@[q]).0 < n_samples && edges@[q].1 < n_samples,
                accumulators@.len() == n_samples,
                forall|q: int| 0 <= q < n_samples ==> distinct_keys(#[trigger] accumulators@[q]@),
                forall|q: int, c: u32| 0 <= q < n_samples ==>
                    (#[trigger] has_key(accumulators@[q]@, c) <==> edge_touches(edges@.take(k as int), q, c as int)),
            decreases edges@.len() - k,
        {
            let (i, j, w) = edges[k];
            let ghost acc0 = accumulators@;
            add_to_row(&mut accumulators[i], j as u32, w);
            add_to_row(&mut accumulators[j], i as u32, w);
            proof {
                let before = edges@.take(k as int);
                let after = edges@.take(k + 1);
                assert(after == before.push(edges@[k as int]));
                assert forall|q: int, c: u32| 0 <= q < n_samples implies
                    (#[trigger] has_key(accumulators@[q]@, c) <==> edge_touches(after, q, c as int)) by {
                    assert(edge_touches(after, q, c as int) <==> (edge_touches(before, q, c as int) || joins(i, j, q, c as int))) by {
                        if edge_touches(after, q, c as int) {
                            let m = choose|m: int| 0 <= m < after.len() && #[trigger] joins(after[m].0, after[m].1, q, c as int);
                            if m < before.len() {
                                assert(joins(before[m].0, before[m].1, q, c as int));
                            }
                        }
                        if edge_touches(before, q, c as int) {
                            let m = choose|m: int| 0 <= m < before.len() && #[trigger] joins(before[m].0, before[m].1, q, c as int);
                            assert(joins(after[m].0, after[m].1, q, c as int));
                        }
                        if joins(i, j, q, c as int) {
                            assert(joins(after[k as int].0, after[k as int].1, q, c as int));
                        }
                    }
                }
            }
            k = k + 1;
        }
        let ghost n = n_samples as nat;
        assert(edges@.take(edges@.len() as int) == edges@);
        let mut rows: Vec<usize> = Vec::new();
        let mut columns: Vec<u32> = Vec::new();
        let mut values: Vec<T> = Vec::new();
        rows.push(0);
        let mut r: usize = 0;
        while r < n_samples
            invariant
                r <= n_samples,
                n == n_samples as nat,
                accumulators@.len() == n_samples,
                forall|q: int| r <= q < n_samples ==> distinct_keys(#[trigger] accumulators@[q]@),
                forall|q: int, c: u32| r <= q < n_samples ==>
                    (#[trigger] has_key(accumulators@[q]@, c) <==> edge_touches(edges@, q, c as int)),
                forall|q: int| 0 <= q < edges@.len() ==> (#[trigger] edges@[q]).0 < n_samples && edges@[q].1 < n_samples,
                n_samples <= u32::MAX as nat + 1,
                rows@.len() == r + 1,
                rows@[0] == 0,
                rows@[r as int] == columns@.len(),
                values@.len() == columns@.len(),
                forall|a: int, b: int| 0 <= a <= b <= r ==> rows@[a] <= rows@[b],
                forall|q: int| 0 <= q < r ==> #[trigger] strictly_increasing(row_columns(rows@, columns@, q)),
                forall|q: int, c: u32| 0 <= q < r ==>
                    (#[trigger] row_columns(rows@, columns@, q).contains(c) <==> edge_touches(edges@, q, c as int)),
                forall|e: int| 0 <= e < columns@.len() ==> #[trigger] columns@[e] < n_samples,
            decreases n_samples - r,
        {
            let mut row: Vec<(u32, T)> = Vec::new();
            std::mem::swap(&mut row, &mut accumulators[r]);
            proof {
                assert(distinct_keys(row@));
            }
            sort_pairs(&mut row);
            let ghost start = columns@.len();
            let ghost rows0 = rows@;
            let ghost cols0 = columns@;
            let mut p: usize = 0;
            while p < row.len()
                invariant
                    p <= row@.len(),
                    columns@.len() == start + p,
                    values@.len() == columns@.len(),
                    columns@.subrange(0, start as int) == cols0,
                    cols0.len() == start,
                    forall|x: int| 0 <= x < p ==> columns@[start + x] == #[trigger] row@[x].0,
                decreases row@.len() - p,
            {
                columns.push(row[p].0);
                values.push(row[p].1);
                p = p + 1;
            }
            rows.push(columns.len());
            proof {
                let seg = row_columns(rows@, columns@, r as int);
                assert(rows@[r as int] == start);
                assert(rows@[r + 1] == columns@.len());
                assert forall|x: int| 0 <= x < seg.len() implies seg[x] == #[trigger] row@[x].0 by {}
                assert(strictly_increasing(seg)) by {
                    assert forall|a: int, b: int| 0 <= a < b < seg.len() implies seg[a] < seg[b] by {
                        assert(row@[a].0 <= row@[b].0);
                        assert(row@[a].0 != row@[b].0);
                    }
                }
                assert forall|c: u32| seg.contains(c) <==> edge_touches(edges@, r as int, c as int) by {
                    if seg.contains(c) {
                        let x = choose|x: int| 0 <= x < seg.len() && seg[x] == c;
                        assert(row@[x].0 == c);
                        assert(has_key(row@, c));
                    }
                    if edge_touches(edges@, r as int, c as int) {
                        assert(has_key(row@, c));
                        let x = choose|x: int| 0 <= x < row@.len() && #[trigger] row@[x].0 == c;
                        assert(seg[x] == c);
                    }
                }
                assert forall|q: int| 0 <= q < r implies row_columns(rows@, columns@, q) == row_columns(rows0, cols0, q) by {
                    assert(rows@[q] == rows0[q]);
                    assert(rows@[q + 1] == rows0[q + 1]);
                    assert(rows0[q] <= rows0[q + 1]);
                    assert(rows0[q + 1] <= rows0[r as int]);
                    assert(row_columns(rows@, columns@, q) =~= row_columns(rows0, cols0, q)) by {
                        assert forall|x: int| 0 <= x < row_columns(rows0, cols0, q).len()
                            implies row_columns(rows@, columns@, q)[x] == row_columns(rows0, cols0, q)[x] by {
                            assert(columns@[rows0[q] + x] == columns@.subrange(0, start as int)[rows0[q] + x]);
                        }
                    }
                }
                assert forall|q: int| 0 <= q < r + 1 implies #[trigger] strictly_increasing(row_columns(rows@, columns@, q)) by {
                    if q < r {
                        assert(row_columns(rows@, columns@, q) == row_columns(rows0, cols0, q));
                        assert(strictly_increasing(row_columns(rows0, cols0, q)));
                    }
                }
                assert forall|q: int, c: u32| 0 <= q < r + 1 implies
                    (#[trigger] row_columns(rows@, columns@, q).contains(c) <==> edge_touches(edges@, q, c as int)) by {
                    if q < r {
                        assert(row_columns(rows@, columns@, q) == row_columns(rows0, cols0, q));
                        assert(row_columns(rows0, cols0, q).contains(c) <==> edge_touches(edges@, q, c as int));
                    }
                }
                assert forall|a: int, b: int| 0 <= a <= b <= r + 1 implies rows@[a] <= rows@[b] by {
                    if b == r + 1 && a <= r {
                        assert(rows@[a] == rows0[a]);
                    }
                }
                assert forall|x: int| 0 <= x < row@.len() implies (#[trigger] row@[x].0) < n_samples by {
                    assert(has_key(row@, row@[x].0));
                    let m = choose|m: int| 0 <= m < edges@.len() && #[trigger] joins(edges@[m].0, edges@[m].1, r as int, row@[x].0 as int);
                }
                assert forall|e: int| 0 <= e < columns@.len() implies #[trigger] columns@[e] < n_samples by {
                    if e >= start {
                        assert(columns@[e] == row@[e - start].0);
                    } else {
                        assert(columns@[e] == cols0[e]);
                    }
                }
            }
            r = r + 1;
        }
        normalize_p_values(&mut values, w_one());
        let a = Self::from_parts(rows, columns, values);
        proof {
            assert forall|i: int, c: u32| 0 <= i < n_samples && (c as int) < n_samples implies
                (#[trigger] row_columns(a.spec_rows(), a.spec_columns(), i).contains(c)
                    <==> row_columns(a.spec_rows(), a.spec_columns(), c as int).contains(i as u32)) by {
                if edge_touches(edges@, i, c as int) {
                    let k = choose|k: int| 0 <= k < edges@.len() && #[trigger] joins(edges@[k].0, edges@[k].1, i, c as int);
                    assert(joins(edges@[k].0, edges@[k].1, c as int, (i as u32) as int));
                }
                if edge_touches(edges@, c as int, (i as u32) as int) {
                    let k = choose|k: int| 0 <= k < edges@.len()
                        && #[trigger] joins(edges@[k].0, edges@[k].1, c as int, (i as u32) as int);
                    assert(joins(edges@[k].0, edges@[k].1, i, c as int));
                }
            }
        }
        a
    }
}

} // verus!
