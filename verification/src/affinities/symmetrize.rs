//! The two steps every graph constructor ends with: making a conditional graph symmetric and
//! scaling the weights to a fixed total.

use num_traits::Float;
use vstd::prelude::*;

use crate::affinities::pairs::{fold_pairs, has_key, sort_pairs};
use crate::affinities::{canonical_csr, lemma_row_of, row_columns, row_of, sorted_offsets, strictly_increasing};
use crate::weight::{w_add, w_div, w_mul, w_zero};

verus! {

/// In the symmetric closure of the graph, `i` and `c` are joined: `c` is in row `i`, or `i`
/// is in row `c`.
pub open spec fn joined(rows: Seq<usize>, columns: Seq<u32>, i: int, c: u32) -> bool {
    ||| row_columns(rows, columns, i).contains(c)
    ||| (c as int + 1 < rows.len() && row_columns(rows, columns, c as int).contains(i as u32))
}

/// Entry `e` of a canonical graph lies in row `x` exactly when it lies within that row's
/// offsets.
proof fn lemma_entry_in_row(rows: Seq<usize>, columns: Seq<u32>, n: nat, x: int, q: u32)
    requires
        canonical_csr(n, rows, columns, columns.len()),
        0 <= x < n,
    ensures
        row_columns(rows, columns, x).contains(q) <==> exists|e: int|
            0 <= e < columns.len() && #[trigger] columns[e] == q && row_of(rows, e) == x,
{
    let seg = row_columns(rows, columns, x);
    if seg.contains(q) {
        let t = choose|t: int| 0 <= t < seg.len() && seg[t] == q;
        let e = rows[x] + t;
        assert(rows[x] <= rows[x + 1] <= rows[n as int]);
        lemma_row_of(rows, x, e);
        assert(columns[e] == q);
    }
    if exists|e: int| 0 <= e < columns.len() && #[trigger] columns[e] == q && row_of(rows, e) == x {
        let e = choose|e: int| 0 <= e < columns.len() && #[trigger] columns[e] == q && row_of(rows, e) == x;
        let r = row_of(rows, e);
        lemma_entry_has_row(rows, n, e);
        assert(seg[e - rows[x]] == q);
    }
}

/// Every stored entry of a canonical graph lies in some row.
proof fn lemma_entry_has_row(rows: Seq<usize>, n: nat, e: int)
    requires
        rows.len() == n + 1,
        sorted_offsets(rows),
        rows[0] == 0,
        0 <= e < rows[n as int],
    ensures
        0 <= row_of(rows, e) < n,
        rows[row_of(rows, e)] <= e < rows[row_of(rows, e) + 1],
    decreases n,
{
    if n > 0 && rows[n - 1] <= e {
        lemma_row_of(rows, n - 1, e);
    } else if n > 0 {
        let shorter = rows.subrange(0, n as int);
        lemma_entry_has_row(shorter, (n - 1) as nat, e);
        let r = row_of(shorter, e);
        lemma_row_of(rows, r, e);
    }
}

#[verifier::rlimit(40)]
/// Makes a conditional graph symmetric: row `i` of the result holds one entry per sample
/// joined to `i` in either direction, in increasing column order, with weight
/// `p(i, c) + p(c, i)` (a missing entry counting as nothing).
pub fn symmetrize_csr<T: Float>(rows: &Vec<usize>, columns: &Vec<u32>, values: &Vec<T>)
    -> (out: (Vec<usize>, Vec<u32>, Vec<T>))
    requires
        rows@.len() >= 1,
        rows@.len() <= u32::MAX as nat + 2,
        canonical_csr((rows@.len() - 1) as nat, rows@, columns@, values@.len()),
    ensures
        canonical_csr((rows@.len() - 1) as nat, out.0@, out.1@, out.2@.len()),
        forall|i: int, c: u32| 0 <= i < rows@.len() - 1 ==>
            (#[trigger] row_columns(out.0@, out.1@, i).contains(c) <==> joined(rows@, columns@, i, c)),
{
    let n = rows.len() - 1;
    let ghost nn = n as nat;
    let mut transposed: Vec<Vec<(u32, T)>> = Vec::new();
    let mut r: usize = 0;
    while r < n
        invariant
            r <= n,
            transposed@.len() == r,
            forall|q: int| 0 <= q < r ==> (#[trigger] transposed@[q])@.len() == 0,
        decreases n - r,
    {
        transposed.push(Vec::new());
        r = r + 1;
    }
    let mut r: usize = 0;
    while r < n
        invariant
            r <= n,
            n == rows@.len() - 1,
            nn == n,
            n <= u32::MAX as nat + 1,
            canonical_csr(nn, rows@, columns@, values@.len()),
            transposed@.len() == n,
            forall|q: int, x: u32| 0 <= q < n ==> (#[trigger] has_key(transposed@[q]@, x) <==>
                exists|e: int| 0 <= e < rows@[r as int] && #[trigger] columns@[e] == q && row_of(rows@, e) == x as int),
        decreases n - r,
    {
        let mut e: usize = rows[r];
        let end = rows[r + 1];
        assert(rows@[r + 1] <= rows@[nn as int]);
        while e < end
            invariant
                r < n,
                n == rows@.len() - 1,
                nn == n,
                n <= u32::MAX as nat + 1,
                canonical_csr(nn, rows@, columns@, values@.len()),
                end == rows@[r + 1],
                end <= columns@.len(),
                rows@[r as int] <= e <= end,
                transposed@.len() == n,
                forall|q: int, x: u32| 0 <= q < n ==> (#[trigger] has_key(transposed@[q]@, x) <==>
                    exists|e2: int| 0 <= e2 < e && #[trigger] columns@[e2] == q && row_of(rows@, e2) == x as int),
            decreases end - e,
        {
            let c = columns[e] as usize;
            let ghost before = transposed@;
            transposed[c].push((r as u32, values[e]));
            proof {
                lemma_row_of(rows@, r as int, e as int);
                assert forall|q: int, x: u32| 0 <= q < n implies (#[trigger] has_key(transposed@[q]@, x) <==>
                    exists|e2: int| 0 <= e2 < e + 1 && #[trigger] columns@[e2] == q && row_of(rows@, e2) == x as int) by {
                    if q == c {
                        let old_row = before[q]@;
                        let new_row = transposed@[q]@;
                        assert(new_row == old_row.push((r as u32, values@[e as int])));
                        if has_key(new_row, x) {
                            let a = choose|a: int| 0 <= a < new_row.len() && #[trigger] new_row[a].0 == x;
                            if a < old_row.len() {
                                assert(has_key(old_row, x));
                            } else {
                                assert(columns@[e as int] == q && row_of(rows@, e as int) == x as int);
                            }
                        }
                        if exists|e2: int| 0 <= e2 < e + 1 && #[trigger] columns@[e2] == q && row_of(rows@, e2) == x as int {
                            let e2 = choose|e2: int| 0 <= e2 < e + 1 && #[trigger] columns@[e2] == q && row_of(rows@, e2) == x as int;
                            if e2 < e {
                                assert(has_key(old_row, x));
                                let a = choose|a: int| 0 <= a < old_row.len() && #[trigger] old_row[a].0 == x;
                                assert(new_row[a].0 == x);
                            } else {
                                assert(new_row[old_row.len() as int].0 == x);
                            }
                        }
                    } else {
                        assert(transposed@[q] == before[q]);
                    }
                }
            }
            e = e + 1;
        }
        r = r + 1;
    }
    // Row by row: the row itself, then its transposed entries, sorted and folded.
    let mut out_rows: Vec<usize> = Vec::new();
    let mut out_columns: Vec<u32> = Vec::new();
    let mut out_values: Vec<T> = Vec::new();
    out_rows.push(0);
    let mut i: usize = 0;
    while i < n
        invariant
            i <= n,
            n == rows@.len() - 1,
            nn == n,
            n <= u32::MAX as nat + 1,
            canonical_csr(nn, rows@, columns@, values@.len()),
            transposed@.len() == n,
            forall|q: int, x: u32| i <= q < n ==> (#[trigger] has_key(transposed@[q]@, x) <==>
                exists|e2: int| 0 <= e2 < columns@.len() && #[trigger] columns@[e2] == q && row_of(rows@, e2) == x as int),
            out_rows@.len() == i + 1,
            out_rows@[0] == 0,
            out_rows@[i as int] == out_columns@.len(),
            out_values@.len() == out_columns@.len(),
            forall|a: int, b: int| 0 <= a <= b <= i ==> out_rows@[a] <= out_rows@[b],
            forall|q: int| 0 <= q < i ==> #[trigger] strictly_increasing(row_columns(out_rows@, out_columns@, q)),
            forall|q: int, c: u32| 0 <= q < i ==>
                (#[trigger] row_columns(out_rows@, out_columns@, q).contains(c) <==> joined(rows@, columns@, q, c)),
            forall|e: int| 0 <= e < out_columns@.len() ==> #[trigger] out_columns@[e] < n,
        decreases n - i,
    {
        let mut pairs: Vec<(u32, T)> = Vec::new();
        let start = rows[i];
        let end = rows[i + 1];
        assert(rows@[i + 1] <= rows@[nn as int]);
        let mut e: usize = start;
        while e < end
            invariant
                start == rows@[i as int],
                end == rows@[i + 1],
                end <= columns@.len(),
                values@.len() == columns@.len(),
                start <= e <= end,
                pairs@.len() == e - start,
                forall|a: int| 0 <= a < pairs@.len() ==> (#[trigger] pairs@[a]).0 == columns@[start + a],
            decreases end - e,
        {
            pairs.push((columns[e], values[e]));
            e = e + 1;
        }
        let ghost own = pairs@;
        let mut extra: Vec<(u32, T)> = Vec::new();
        std::mem::swap(&mut extra, &mut transposed[i]);
        let mut t: usize = 0;
        while t < extra.len()
            invariant
                t <= extra@.len(),
                pairs@.len() == own.len() + t,
                pairs@.subrange(0, own.len() as int) == own,
                forall|a: int| 0 <= a < t ==> #[trigger] pairs@[own.len() + a] == extra@[a],
            decreases extra@.len() - t,
        {
            pairs.push(extra[t]);
            t = t + 1;
        }
        proof {
            assert forall|c: u32| has_key(pairs@, c) <==> joined(rows@, columns@, i as int, c) by {
                let seg = row_columns(rows@, columns@, i as int);
                if has_key(pairs@, c) {
                    let a = choose|a: int| 0 <= a < pairs@.len() && #[trigger] pairs@[a].0 == c;
                    if a < own.len() {
                        assert(pairs@[a] == pairs@.subrange(0, own.len() as int)[a]);
                        assert(own[a].0 == c);
                        assert(seg[a] == c);
                    } else {
                        assert(pairs@[own.len() + (a - own.len())] == extra@[a - own.len()]);
                        assert(extra@[a - own.len()].0 == c);
                        assert(has_key(extra@, c));
                        let e2 = choose|e2: int| 0 <= e2 < columns@.len() && #[trigger] columns@[e2] == i as int && row_of(rows@, e2) == c as int;
                        lemma_entry_has_row(rows@, nn, e2);
                        lemma_entry_in_row(rows@, columns@, nn, c as int, i as u32);
                    }
                }
                if seg.contains(c) {
                    let a = choose|a: int| 0 <= a < seg.len() && seg[a] == c;
                    assert(pairs@[a] == pairs@.subrange(0, own.len() as int)[a]);
                    assert(own[a].0 == columns@[start + a]);
                    assert(pairs@[a].0 == c);
                }
                if c as int + 1 < rows@.len() && row_columns(rows@, columns@, c as int).contains(i as u32) {
                    lemma_entry_in_row(rows@, columns@, nn, c as int, i as u32);
                    assert(has_key(extra@, c));
                    let a = choose|a: int| 0 <= a < extra@.len() && #[trigger] extra@[a].0 == c;
                    assert(pairs@[own.len() + a].0 == c);
                }
            }
            assert forall|a: int| 0 <= a < pairs@.len() implies (#[trigger] pairs@[a]).0 < n by {
                if a < own.len() {
                    assert(pairs@[a] == pairs@.subrange(0, own.len() as int)[a]);
                    assert(own[a].0 == columns@[start + a]);
                } else {
                    assert(pairs@[own.len() + (a - own.len())] == extra@[a - own.len()]);
                    assert(pairs@[a] == extra@[a - own.len()]);
                    assert(has_key(extra@, pairs@[a].0));
                    let e2 = choose|e2: int| 0 <= e2 < columns@.len() && #[trigger] columns@[e2] == i as int && row_of(rows@, e2) == pairs@[a].0 as int;
                    lemma_entry_has_row(rows@, nn, e2);
                }
            }
        }
        let ghost presort = pairs@;
        sort_pairs(&mut pairs);
        let ghost rows0 = out_rows@;
        let ghost cols0 = out_columns@;
        let ghost seg_start = out_columns@.len();
        fold_pairs(&pairs, &mut out_columns, &mut out_values);
        out_rows.push(out_columns.len());
        proof {
            let seg = row_columns(out_rows@, out_columns@, i as int);
            assert(seg == out_columns@.subrange(seg_start as int, out_columns@.len() as int));
            assert forall|c: u32| seg.contains(c) <==> joined(rows@, columns@, i as int, c) by {
                assert(seg.contains(c) <==> has_key(pairs@, c));
                assert(has_key(pairs@, c) <==> has_key(presort, c));
                assert(has_key(presort, c) <==> joined(rows@, columns@, i as int, c));
            }
            assert forall|q: int| 0 <= q < i implies row_columns(out_rows@, out_columns@, q) == row_columns(rows0, cols0, q) by {
                assert(out_rows@[q] == rows0[q]);
                assert(out_rows@[q + 1] == rows0[q + 1]);
                assert(rows0[q] <= rows0[q + 1]);
                assert(rows0[q + 1] <= rows0[i as int]);
                assert(row_columns(out_rows@, out_columns@, q) =~= row_columns(rows0, cols0, q)) by {
                    assert forall|x: int| 0 <= x < row_columns(rows0, cols0, q).len()
                        implies row_columns(out_rows@, out_columns@, q)[x] == row_columns(rows0, cols0, q)[x] by {
                        assert(out_columns@[rows0[q] + x] == out_columns@.subrange(0, seg_start as int)[rows0[q] + x]);
                    }
                }
            }
            assert forall|q: int| 0 <= q < i + 1 implies #[trigger] strictly_increasing(row_columns(out_rows@, out_columns@, q)) by {
                if q < i {
                    assert(row_columns(out_rows@, out_columns@, q) == row_columns(rows0, cols0, q));
                    assert(strictly_increasing(row_columns(rows0, cols0, q)));
                }
            }
            assert forall|q: int, c: u32| 0 <= q < i + 1 implies
                (#[trigger] row_columns(out_rows@, out_columns@, q).contains(c) <==> joined(rows@, columns@, q, c)) by {
                if q < i {
                    assert(row_columns(out_rows@, out_columns@, q) == row_columns(rows0, cols0, q));
                    assert(row_columns(rows0, cols0, q).contains(c) <==> joined(rows@, columns@, q, c));
                }
            }
            assert forall|a: int, b: int| 0 <= a <= b <= i + 1 implies out_rows@[a] <= out_rows@[b] by {
                if b == i + 1 && a <= i {
                    assert(out_rows@[a] == rows0[a]);
                }
            }
            assert forall|e: int| 0 <= e < out_columns@.len() implies #[trigger] out_columns@[e] < n by {
                if e >= seg_start {
                    assert(seg[e - seg_start] == out_columns@[e]);
                    assert(seg.contains(out_columns@[e]));
                    assert(has_key(pairs@, out_columns@[e]));
                    let a = choose|a: int| 0 <= a < pairs@.len() && #[trigger] pairs@[a].0 == out_columns@[e];
                } else {
                    assert(out_columns@[e] == cols0[e]);
                }
            }
        }
        i = i + 1;
    }
    (out_rows, out_columns, out_values)
}

/// Scales the weights to sum to `factor`: each weight is divided by the sum of all weights,
/// then multiplied by `factor`. Only the weights change; their number stays the same.
pub fn normalize_p_values<T: Float>(values: &mut Vec<T>, factor: T)
    ensures
        final(values)@.len() == old(values)@.len(),
{
    let mut total: T = w_zero();
    let mut k: usize = 0;
    while k < values.len()
        invariant
            k <= values@.len(),
        decreases values.len() - k,
    {
        total = w_add(total, values[k]);
        k = k + 1;
    }
    let ghost len = values@.len();
    let mut k: usize = 0;
    while k < values.len()
        invariant
            k <= values@.len(),
            values@.len() == len,
        decreases values.len() - k,
    {
        let scaled = w_mul(w_div(values[k], total), factor);
        values.set(k, scaled);
        k = k + 1;
    }
}

} // verus!
