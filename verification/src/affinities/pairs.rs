//! Rows under construction: `(column, weight)` pairs, sorted by column and folded so that
//! each column appears once.

use num_traits::Float;
use vstd::prelude::*;

use crate::affinities::strictly_increasing;
use crate::weight::{w_add, w_zero};

verus! {

broadcast use vstd::seq_lib::group_to_multiset_ensures, vstd::multiset::group_multiset_axioms;

/// Pairs ordered by column, equal columns allowed.
pub open spec fn keys_sorted<T>(s: Seq<(u32, T)>) -> bool {
    forall|a: int, b: int| 0 <= a <= b < s.len() ==> s[a].0 <= s[b].0
}

/// No two pairs share a column.
pub open spec fn distinct_keys<T>(s: Seq<(u32, T)>) -> bool {
    forall|a: int, b: int| 0 <= a < b < s.len() ==> s[a].0 != s[b].0
}

/// Some pair in `s` has column `c`.
pub open spec fn has_key<T>(s: Seq<(u32, T)>, c: u32) -> bool {
    exists|a: int| 0 <= a < s.len() && #[trigger] s[a].0 == c
}

/// Sorts the pairs by column, keeping every pair (insertion sort).
pub fn sort_pairs<T: Copy>(v: &mut Vec<(u32, T)>)
    ensures
        final(v)@.len() == old(v)@.len(),
        final(v)@.to_multiset() == old(v)@.to_multiset(),
        keys_sorted(final(v)@),
        forall|c: u32| has_key(final(v)@, c) <==> has_key(old(v)@, c),
        distinct_keys(old(v)@) ==> distinct_keys(final(v)@),
{
    let ghost orig = v@;
    let mut i: usize = 1;
    while i < v.len()
        invariant
            v@.len() == orig.len(),
            v@.to_multiset() == orig.to_multiset(),
            1 <= i,
            forall|a: int, b: int| 0 <= a <= b < i && b < v@.len() ==> v@[a].0 <= v@[b].0,
            distinct_keys(orig) ==> distinct_keys(v@),
        decreases v@.len() - i,
    {
        let mut j: usize = i;
        while j > 0 && v[j - 1].0 > v[j].0
            invariant
                v@.len() == orig.len(),
                v@.to_multiset() == orig.to_multiset(),
                0 <= j <= i < v@.len(),
                forall|a: int, b: int| 0 <= a <= b <= i && a != j && b != j ==> v@[a].0 <= v@[b].0,
                forall|b: int| j < b <= i ==> v@[j as int].0 <= v@[b].0,
                distinct_keys(orig) ==> distinct_keys(v@),
            decreases j,
        {
            let ghost before = v@;
            let x = v[j - 1];
            let y = v[j];
            v.set(j - 1, y);
            v.set(j, x);
            proof {
                assert(v@ == before.update(j - 1, y).update(j as int, x));
                assert(before.update(j - 1, y).to_multiset() == before.to_multiset().insert(y).remove(x));
                assert(v@.to_multiset() == before.to_multiset().insert(y).remove(x).insert(x).remove(y));
                assert(v@.to_multiset() =~= before.to_multiset());
                if distinct_keys(orig) {
                    assert forall|a: int, b: int| 0 <= a < b < v@.len() implies v@[a].0 != v@[b].0 by {
                        let sa = if a == j - 1 { j as int } else if a == j { j - 1 } else { a };
                        let sb = if b == j - 1 { j as int } else if b == j { j - 1 } else { b };
                        assert(v@[a] == before[sa]);
                        assert(v@[b] == before[sb]);
                        if sa < sb {
                            assert(before[sa].0 != before[sb].0);
                        } else {
                            assert(before[sb].0 != before[sa].0);
                        }
                    }
                }
            }
            j = j - 1;
        }
        proof {
            assert forall|a: int, b: int| 0 <= a <= b <= i implies v@[a].0 <= v@[b].0 by {
                if a == j && b != j {
                } else if b == j && a != j {
                    assert(v@[a].0 <= v@[j - 1].0);
                }
            }
        }
        i = i + 1;
    }
    proof {
        assert forall|c: u32| has_key(v@, c) <==> has_key(orig, c) by {
            if has_key(v@, c) {
                let a = choose|a: int| 0 <= a < v@.len() && #[trigger] v@[a].0 == c;
                assert(v@.to_multiset().count(v@[a]) > 0);
                assert(orig.to_multiset().count(v@[a]) > 0);
                assert(orig.contains(v@[a]));
                let b = choose|b: int| 0 <= b < orig.len() && orig[b] == v@[a];
                assert(orig[b].0 == c);
            }
            if has_key(orig, c) {
                let a = choose|a: int| 0 <= a < orig.len() && #[trigger] orig[a].0 == c;
                assert(orig.to_multiset().count(orig[a]) > 0);
                assert(v@.contains(orig[a]));
                let b = choose|b: int| 0 <= b < v@.len() && v@[b] == orig[a];
                assert(v@[b].0 == c);
            }
        }
    }
}

/// Appends one entry per distinct column of the sorted `pairs`, in increasing column order;
/// the weight of an entry is the sum, in storage order, of the weights of its column.
pub fn fold_pairs<T: Float>(pairs: &Vec<(u32, T)>, columns: &mut Vec<u32>, values: &mut Vec<T>)
    requires
        keys_sorted(pairs@),
        old(columns)@.len() == old(values)@.len(),
    ensures
        final(columns)@.len() == final(values)@.len(),
        final(columns)@.len() >= old(columns)@.len(),
        final(columns)@.subrange(0, old(columns)@.len() as int) == old(columns)@,
        final(values)@.subrange(0, old(values)@.len() as int) == old(values)@,
        strictly_increasing(final(columns)@.subrange(old(columns)@.len() as int, final(columns)@.len() as int)),
        forall|c: u32| final(columns)@.subrange(old(columns)@.len() as int, final(columns)@.len() as int).contains(c)
            <==> has_key(pairs@, c),
        final(columns)@.len() - old(columns)@.len() <= pairs@.len(),
{
    let ghost start = columns@.len();
    let ghost cols0 = columns@;
    let ghost vals0 = values@;
    let mut i: usize = 0;
    while i < pairs.len()
        invariant
            keys_sorted(pairs@),
            0 <= i <= pairs@.len(),
            columns@.len() == values@.len(),
            columns@.len() >= start,
            columns@.len() - start <= i,
            columns@.subrange(0, start as int) == cols0,
            values@.subrange(0, start as int) == vals0,
            cols0.len() == start,
            vals0.len() == start,
            strictly_increasing(columns@.subrange(start as int, columns@.len() as int)),
            forall|c: u32| columns@.subrange(start as int, columns@.len() as int).contains(c)
                <==> exists|a: int| 0 <= a < i && #[trigger] pairs@[a].0 == c,
            columns@.len() > start ==> i > 0 && columns@[columns@.len() - 1] == pairs@[i - 1].0,
            0 < i < pairs@.len() ==> pairs@[i - 1].0 != pairs@[i as int].0,
            i > 0 ==> columns@.len() > start,
        decreases pairs@.len() - i,
    {
        let c = pairs[i].0;
        let i0 = i;
        let mut acc: T = w_zero();
        while i < pairs.len() && pairs[i].0 == c
            invariant
                i0 <= i <= pairs@.len(),
                i0 < pairs@.len(),
                pairs@[i0 as int].0 == c,
                forall|a: int| i0 <= a < i ==> #[trigger] pairs@[a].0 == c,
            decreases pairs@.len() - i,
        {
            acc = w_add(acc, pairs[i].1);
            i = i + 1;
        }
        let ghost seg_before = columns@.subrange(start as int, columns@.len() as int);
        columns.push(c);
        values.push(acc);
        proof {
            let seg = columns@.subrange(start as int, columns@.len() as int);
            assert(seg == seg_before.push(c));
            if seg_before.len() > 0 {
                assert(pairs@[i0 - 1].0 <= pairs@[i0 as int].0);
                assert(pairs@[i0 - 1].0 != c);
            }
            assert forall|a: int, b: int| 0 <= a < b < seg.len() implies seg[a] < seg[b] by {
                if b == seg.len() - 1 && a < b {
                    assert(seg[a] == seg_before[a]);
                    if seg_before.len() > 0 {
                        assert(seg_before[a] <= seg_before[seg_before.len() - 1]);
                        assert(seg_before[seg_before.len() - 1] == pairs@[i0 - 1].0);
                        assert(pairs@[i0 - 1].0 <= c);
                    }
                }
            }
            assert forall|k: u32| seg.contains(k) <==> exists|a: int| 0 <= a < i && #[trigger] pairs@[a].0 == k by {
                if seg.contains(k) {
                    let p = choose|p: int| 0 <= p < seg.len() && seg[p] == k;
                    if p < seg_before.len() {
                        assert(seg_before[p] == k);
                        assert(seg_before.contains(k));
                    } else {
                        assert(pairs@[i0 as int].0 == k);
                    }
                }
                if exists|a: int| 0 <= a < i && #[trigger] pairs@[a].0 == k {
                    let a = choose|a: int| 0 <= a < i && #[trigger] pairs@[a].0 == k;
                    if a < i0 {
                        assert(seg_before.contains(k));
                        let p = choose|p: int| 0 <= p < seg_before.len() && seg_before[p] == k;
                        assert(seg[p] == k);
                    } else {
                        assert(seg[seg.len() - 1] == k);
                    }
                }
            }
            assert(columns@.subrange(0, start as int) =~= cols0);
            assert(values@.subrange(0, start as int) =~= vals0);
        }
    }
    proof {
        let seg = columns@.subrange(start as int, columns@.len() as int);
        assert forall|k: u32| seg.contains(k) <==> has_key(pairs@, k) by {
            if has_key(pairs@, k) {
                let a = choose|a: int| 0 <= a < pairs@.len() && #[trigger] pairs@[a].0 == k;
                assert(exists|a2: int| 0 <= a2 < i && #[trigger] pairs@[a2].0 == k);
            }
        }
    }
}

} // verus!
