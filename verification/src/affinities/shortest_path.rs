//! Hop-distance neighbor tables from undirected edge lists: the breadth-first part of the
//! shortest-path affinity graph.
//!
//! [`hop_adjacency`] turns an edge list into sorted neighbor lists; [`bfs_top_k_neighbors`]
//! takes, from one source, the first `k` samples a breadth-first search reaches, which are `k`
//! samples nearest to the source by hop count.

use std::collections::VecDeque;

use num_traits::Float;
use vstd::prelude::*;
use vstd::set_lib::{lemma_int_range, lemma_len_subset, set_int_range};

use crate::affinities::edges::{joins, unit_edge_touches};
use crate::affinities::{strictly_increasing, Affinities, Neighbor};
use crate::error::FromShortestPathError;
use crate::weight::w_count64;

verus! {

/// The neighbor lists as sequences.
pub open spec fn rows_view(adjacency: Seq<Vec<u32>>) -> Seq<Seq<u32>> {
    adjacency.map_values(|row: Vec<u32>| row@)
}

/// Every listed neighbor is one of the `adj.len()` samples.
pub open spec fn adjacency_in_range(adj: Seq<Seq<u32>>) -> bool {
    forall|i: int, j: int| 0 <= i < adj.len() && 0 <= j < adj[i].len() ==> (#[trigger] adj[i][j] as int) < adj.len()
}

/// `path` lists samples, each (after the first) a listed neighbor of the one before it.
pub open spec fn is_path(adj: Seq<Seq<u32>>, path: Seq<int>) -> bool {
    &&& path.len() >= 1
    &&& forall|i: int| 0 <= i < path.len() ==> 0 <= #[trigger] path[i] < adj.len()
    &&& forall|i: int| 0 <= i < path.len() - 1 ==> adj[#[trigger] path[i]].contains(path[i + 1] as u32)
}

/// There is a walk of exactly `d` steps from `s` to `t`, each step from a sample to one of
/// its listed neighbors.
pub open spec fn walk(adj: Seq<Seq<u32>>, s: int, t: int, d: nat) -> bool {
    exists|path: Seq<int>| #[trigger] is_path(adj, path) && path.len() == d + 1 && path[0] == s && path[d as int] == t
}

/// `d` is the hop distance from `s` to `t`: the length of a shortest walk.
pub open spec fn hop_distance(adj: Seq<Seq<u32>>, s: int, t: int, d: nat) -> bool {
    &&& walk(adj, s, t, d)
    &&& forall|e: nat| e < d ==> !#[trigger] walk(adj, s, t, e)
}

/// `x` is one of the samples listed in `found`.
pub open spec fn found_sample(found: Seq<(u32, u32)>, x: int) -> bool {
    exists|q: int| 0 <= q < found.len() && #[trigger] found[q].0 == x
}

/// `row` lists, in order, the samples of a hop-distance search from `s` limited to `k`.
pub open spec fn neighbors_nearest<T>(adj: Seq<Seq<u32>>, s: int, k: nat, row: Seq<Neighbor<T>>) -> bool {
    exists|found: Seq<(u32, u32)>| {
        &&& #[trigger] nearest_by_hops(adj, s, k, found)
        &&& found.len() == row.len()
        &&& forall|p: int| 0 <= p < found.len() ==> (#[trigger] row[p]).index == found[p].0
    }
}

/// The hop-distance search from `s` in `found`, limited to `k` samples: at most `k` distinct
/// samples other than `s`, each with its hop distance, in non-decreasing distance; any sample
/// nearer than a found one is found; and when fewer than `k` are found, every sample reachable
/// from `s` is.
pub open spec fn nearest_by_hops(adj: Seq<Seq<u32>>, s: int, k: nat, found: Seq<(u32, u32)>) -> bool {
    &&& found.len() <= k
    &&& forall|p: int| 0 <= p < found.len() ==> {
        &&& (#[trigger] found[p].0 as int) < adj.len()
        &&& found[p].0 != s
        &&& hop_distance(adj, s, found[p].0 as int, found[p].1 as nat)
    }
    &&& forall|p: int, q: int| 0 <= p < q < found.len() ==> #[trigger] found[p].0 != #[trigger] found[q].0
    &&& forall|p: int, q: int| 0 <= p <= q < found.len() ==> #[trigger] found[p].1 <= #[trigger] found[q].1
    &&& forall|x: int, e: nat, p: int|
        0 <= p < found.len() && x != s && #[trigger] walk(adj, s, x, e) && e < #[trigger] found[p].1
            ==> found_sample(found, x)
    &&& found.len() < k ==> forall|x: int, e: nat| x != s && #[trigger] walk(adj, s, x, e) ==> found_sample(found, x)
}

/// A walk of one or more steps ends with a step from a sample it reaches one step earlier.
proof fn lemma_walk_pred(adj: Seq<Seq<u32>>, s: int, t: int, d: nat) -> (z: int)
    requires
        d > 0,
        walk(adj, s, t, d),
    ensures
        0 <= z < adj.len(),
        0 <= t < adj.len(),
        walk(adj, s, z, (d - 1) as nat),
        adj[z].contains(t as u32),
{
    let path = choose|path: Seq<int>| #[trigger] is_path(adj, path) && path.len() == d + 1 && path[0] == s && path[d as int] == t;
    let prefix = path.subrange(0, d as int);
    assert(is_path(adj, prefix)) by {
        assert forall|i: int| 0 <= i < prefix.len() - 1 implies adj[#[trigger] prefix[i]].contains(prefix[i + 1] as u32) by {
            assert(prefix[i] == path[i]);
            assert(prefix[i + 1] == path[i + 1]);
        }
    }
    assert(path[d - 1] == prefix[d - 1]);
    assert(adj[path[d - 1]].contains(path[(d - 1) + 1] as u32));
    path[d - 1]
}

/// A walk of no steps stays at its start.
proof fn lemma_walk_zero(adj: Seq<Seq<u32>>, s: int, t: int)
    requires
        walk(adj, s, t, 0),
    ensures
        s == t,
{
}

/// The empty walk from a sample.
proof fn lemma_walk_start(adj: Seq<Seq<u32>>, s: int)
    requires
        0 <= s < adj.len(),
    ensures
        walk(adj, s, s, 0),
{
    assert(is_path(adj, seq![s]));
}

/// A step from the end of a walk extends it by one.
proof fn lemma_walk_extend(adj: Seq<Seq<u32>>, s: int, z: int, t: int, d: nat)
    requires
        walk(adj, s, z, d),
        0 <= t < adj.len(),
        adj[z].contains(t as u32),
    ensures
        walk(adj, s, t, d + 1),
{
    let path = choose|path: Seq<int>| #[trigger] is_path(adj, path) && path.len() == d + 1 && path[0] == s && path[d as int] == z;
    let longer = path.push(t);
    assert(is_path(adj, longer)) by {
        assert forall|i: int| 0 <= i < longer.len() implies 0 <= #[trigger] longer[i] < adj.len() by {
            if i < path.len() {
                assert(longer[i] == path[i]);
            }
        }
        assert forall|i: int| 0 <= i < longer.len() - 1 implies adj[#[trigger] longer[i]].contains(longer[i + 1] as u32) by {
            assert(longer[i] == path[i]);
            if i + 1 < path.len() {
                assert(longer[i + 1] == path[i + 1]);
            }
        }
    }
    assert(longer[(d + 1) as int] == t);
}

/// A walk ends at a sample.
proof fn lemma_walk_in_range(adj: Seq<Seq<u32>>, s: int, t: int, d: nat)
    requires
        walk(adj, s, t, d),
    ensures
        0 <= t < adj.len(),
{
    let path = choose|path: Seq<int>| #[trigger] is_path(adj, path) && path.len() == d + 1 && path[0] == s && path[d as int] == t;
    assert(0 <= path[d as int] < adj.len());
}

/// A sequence of distinct samples below `n` has at most `n` entries.
proof fn lemma_distinct_below(full: Seq<u32>, n: nat)
    requires
        full.no_duplicates(),
        forall|p: int| 0 <= p < full.len() ==> (#[trigger] full[p] as int) < n,
    ensures
        full.len() <= n,
{
    let ints = full.map_values(|v: u32| v as int);
    assert(ints.no_duplicates()) by {
        assert forall|a: int, b: int| 0 <= a < ints.len() && 0 <= b < ints.len() && a != b implies ints[a] != ints[b] by {
            assert(full[a] != full[b]);
        }
    }
    ints.unique_seq_to_set();
    lemma_int_range(0, n as int);
    assert forall|v: int| ints.to_set().contains(v) implies set_int_range(0, n as int).contains(v) by {
        let p = choose|p: int| 0 <= p < ints.len() && ints[p] == v;
        assert(full[p] < n);
    }
    lemma_len_subset(ints.to_set(), set_int_range(0, n as int));
}

/// The search state: `full` is the source followed by the samples found so far, `dist` holds
/// each found sample's distance (and `u32::MAX` for the others).
pub open spec fn search_state(adj: Seq<Seq<u32>>, s: int, full: Seq<u32>, dist: Seq<u32>) -> bool {
    &&& adj.len() < u32::MAX
    &&& adjacency_in_range(adj)
    &&& 0 <= s < adj.len()
    &&& dist.len() == adj.len()
    &&& full.len() >= 1
    &&& full[0] == s
    &&& full.no_duplicates()
    &&& forall|p: int| 0 <= p < full.len() ==> (#[trigger] full[p] as int) < adj.len()
    &&& forall|x: int| 0 <= x < adj.len() ==> (dist[x] != u32::MAX <==> #[trigger] full.contains(x as u32))
    &&& forall|p: int| 0 <= p < full.len() ==> (dist[#[trigger] full[p] as int] as int) <= p
    &&& forall|p: int| 0 <= p < full.len() ==> walk(adj, s, full[p] as int, #[trigger] dist[full[p] as int] as nat)
    &&& forall|p: int, q: int| 0 <= p <= q < full.len() ==> dist[#[trigger] full[p] as int] <= dist[#[trigger] full[q] as int]
    &&& forall|p: int, e: nat| 0 <= p < full.len() && #[trigger] walk(adj, s, full[p] as int, e)
        ==> dist[full[p] as int] <= e
}

/// The samples at positions before `h` have had all their neighbors found.
pub open spec fn expanded(adj: Seq<Seq<u32>>, full: Seq<u32>, h: int) -> bool {
    forall|p: int, j: int| 0 <= p < h && 0 <= j < adj[full[p] as int].len()
        ==> full.contains(#[trigger] adj[full[p] as int][j])
}

/// Every sample closer to the source than `level` is at a position before `h`.
pub open spec fn closer_found(adj: Seq<Seq<u32>>, s: int, full: Seq<u32>, h: int, level: int) -> bool {
    forall|x: int, e: nat| #[trigger] walk(adj, s, x, e) && e < level
        ==> exists|p: int| 0 <= p < h && #[trigger] full[p] as int == x
}

/// The two closing properties of the search: samples nearer than a found one are found, and
/// with fewer than `k` found, every reachable sample is.
pub open spec fn search_closed(adj: Seq<Seq<u32>>, s: int, full: Seq<u32>, dist: Seq<u32>, k: nat) -> bool {
    &&& forall|x: int, e: nat, q: int| 0 <= q < full.len() && #[trigger] walk(adj, s, x, e)
        && e < #[trigger] dist[full[q] as int] ==> full.contains(x as u32)
    &&& full.len() - 1 < k ==> forall|x: int, e: nat| #[trigger] walk(adj, s, x, e) ==> full.contains(x as u32)
}

/// When every found sample has been expanded, every reachable sample is found.
proof fn lemma_closed_reaches_all(adj: Seq<Seq<u32>>, s: int, full: Seq<u32>, dist: Seq<u32>, x: int, e: nat)
    requires
        search_state(adj, s, full, dist),
        expanded(adj, full, full.len() as int),
        walk(adj, s, x, e),
    ensures
        full.contains(x as u32),
    decreases e,
{
    if e == 0 {
        lemma_walk_zero(adj, s, x);
        assert(full[0] == x as u32);
    } else {
        let z = lemma_walk_pred(adj, s, x, e);
        lemma_closed_reaches_all(adj, s, full, dist, z, (e - 1) as nat);
        let p = choose|p: int| 0 <= p < full.len() && full[p] == z as u32;
        let j = choose|j: int| 0 <= j < adj[z].len() && adj[z][j] == x as u32;
        assert(full[p] as int == z);
        assert(full.contains(adj[full[p] as int][j]));
    }
}

/// While sample `full[h]` is expanded, every sample at most as far as it is found.
proof fn lemma_level_found(adj: Seq<Seq<u32>>, s: int, full: Seq<u32>, dist: Seq<u32>, h: int, x: int, e: nat)
    requires
        search_state(adj, s, full, dist),
        0 <= h < full.len(),
        expanded(adj, full, h),
        closer_found(adj, s, full, h, dist[full[h] as int] as int),
        walk(adj, s, x, e),
        e <= dist[full[h] as int],
    ensures
        full.contains(x as u32),
{
    if e < dist[full[h] as int] {
        let p = choose|p: int| 0 <= p < h && #[trigger] full[p] as int == x;
        assert(full[p] == x as u32);
    } else if e == 0 {
        lemma_walk_zero(adj, s, x);
        assert(full[0] == x as u32);
    } else {
        let z = lemma_walk_pred(adj, s, x, e);
        let p = choose|p: int| 0 <= p < h && #[trigger] full[p] as int == z;
        let j = choose|j: int| 0 <= j < adj[z].len() && adj[z][j] == x as u32;
        assert(full.contains(adj[full[p] as int][j]));
    }
}

/// After `full[h]` is expanded, the next sample to expand sees every closer sample before it.
proof fn lemma_advance(adj: Seq<Seq<u32>>, s: int, full: Seq<u32>, dist: Seq<u32>, h: int)
    requires
        search_state(adj, s, full, dist),
        0 <= h,
        h + 1 < full.len(),
        expanded(adj, full, h + 1),
        closer_found(adj, s, full, h, dist[full[h] as int] as int),
        dist[full[h + 1] as int] <= dist[full[h] as int] + 1,
    ensures
        closer_found(adj, s, full, h + 1, dist[full[h + 1] as int] as int),
{
    let level = dist[full[h] as int] as int;
    let next = dist[full[h + 1] as int] as int;
    assert(dist[full[h] as int] <= dist[full[h + 1] as int]);
    assert forall|x: int, e: nat| #[trigger] walk(adj, s, x, e) && e < next
        implies exists|p: int| 0 <= p < h + 1 && #[trigger] full[p] as int == x by {
        if e < level {
            let p = choose|p: int| 0 <= p < h && #[trigger] full[p] as int == x;
            assert(0 <= p < h + 1 && full[p] as int == x);
        } else {
            lemma_level_found(adj, s, full, dist, h, x, e);
            let q = choose|q: int| 0 <= q < full.len() && full[q] == x as u32;
            lemma_walk_in_range(adj, s, x, e);
            assert(dist[full[q] as int] <= e);
            if q >= h + 1 {
                assert(dist[full[h + 1] as int] <= dist[full[q] as int]);
            }
            assert(full[q] as int == x);
        }
    }
}

/// Breadth-first search from `source`, stopped as soon as `k` samples other than the source
/// are found: each found sample with its hop distance, in the order found.
pub fn bfs_hops(adjacency: &Vec<Vec<u32>>, source: usize, k: usize) -> (found: Vec<(u32, u32)>)
    requires
        adjacency@.len() < u32::MAX,
        adjacency_in_range(rows_view(adjacency@)),
        source < adjacency@.len(),
    ensures
        nearest_by_hops(rows_view(adjacency@), source as int, k as nat, found@),
{
    let ghost adj = rows_view(adjacency@);
    let ghost s = source as int;
    if k == 0 {
        return Vec::new();
    }
    let n = adjacency.len();
    let mut dist: Vec<u32> = vec![u32::MAX; n];
    let mut queue: VecDeque<u32> = VecDeque::new();
    let mut order: Vec<u32> = Vec::new();

    dist.set(source, 0);
    queue.push_back(source as u32);
    let ghost mut full: Seq<u32> = seq![source as u32];
    let ghost mut head: int = 0;
    let mut done = false;
    proof {
        assert forall|x: int| 0 <= x < adj.len() implies (dist@[x] != u32::MAX <==> #[trigger] full.contains(x as u32)) by {
            if x == s {
                assert(full[0] == x as u32);
            }
        }
        assert forall|p: int, e: nat| 0 <= p < full.len() && #[trigger] walk(adj, s, full[p] as int, e)
            implies dist@[full[p] as int] <= e by {}
        assert(full.no_duplicates());
        lemma_walk_start(adj, s);
        assert(full[0] as int == s);
    }
    while !done
        invariant
            n == adjacency@.len(),
            adj == rows_view(adjacency@),
            s == source,
            k > 0,
            search_state(adj, s, full, dist@),
            full == seq![source as u32] + order@,
            0 <= head <= full.len(),
            queue@ == full.subrange(head, full.len() as int),
            !done ==> order@.len() < k,
            !done ==> expanded(adj, full, head),
            !done && head < full.len() ==> closer_found(adj, s, full, head, dist@[full[head] as int] as int),
            !done && head < full.len() ==> forall|q: int| 0 <= q < full.len()
                ==> dist@[#[trigger] full[q] as int] <= dist@[full[head] as int] + 1,
            done ==> search_closed(adj, s, full, dist@, k as nat),
            order@.len() <= k,
        decreases n - head + (if done { 0int } else { 1int }),
    {
        proof {
            lemma_distinct_below(full, n as nat);
        }
        match queue.pop_front() {
            None => {
                proof {
                    assert(head == full.len());
                    assert forall|x: int, e: nat, q: int| 0 <= q < full.len() && #[trigger] walk(adj, s, x, e)
                        && e < #[trigger] dist@[full[q] as int] implies full.contains(x as u32) by {
                        lemma_closed_reaches_all(adj, s, full, dist@, x, e);
                    }
                    assert forall|x: int, e: nat| #[trigger] walk(adj, s, x, e) implies full.contains(x as u32) by {
                        lemma_closed_reaches_all(adj, s, full, dist@, x, e);
                    }
                }
                done = true;
            },
            Some(node) => {
                let ghost h = head;
                proof {
                    assert(full.subrange(head, full.len() as int)[0] == full[head]);
                    head = head + 1;
                }
                let u = node as usize;
                let du = dist[u];
                let row = &adjacency[u];
                assert(row@ == adj[u as int]);
                let mut j: usize = 0;
                while j < row.len() && !done
                    invariant
                        n == adjacency@.len(),
                        adj == rows_view(adjacency@),
                        s == source,
                        k > 0,
                        row@ == adj[u as int],
                        0 <= h < full.len(),
                        head == h + 1,
                        full[h] as int == u,
                        du == dist@[u as int],
                        search_state(adj, s, full, dist@),
                        full == seq![source as u32] + order@,
                        queue@ == full.subrange(head, full.len() as int),
                        j <= row@.len(),
                        !done ==> order@.len() < k,
                        !done ==> expanded(adj, full, h),
                        !done ==> forall|j2: int| 0 <= j2 < j ==> full.contains(#[trigger] row@[j2]),
                        !done ==> closer_found(adj, s, full, h, du as int),
                        !done ==> forall|q: int| 0 <= q < full.len() ==> dist@[#[trigger] full[q] as int] <= du + 1,
                        done ==> search_closed(adj, s, full, dist@, k as nat),
                        order@.len() <= k,
                    decreases row@.len() - j,
                {
                    let next = row[j];
                    assert(adj[u as int][j as int] == next);
                    if dist[next as usize] == u32::MAX {
                        proof {
                            lemma_distinct_below(full, n as nat);
                        }
                        let ghost old_full = full;
                        let ghost old_dist = dist@;
                        dist.set(next as usize, du + 1);
                        queue.push_back(next);
                        order.push(next);
                        proof {
                            full = full.push(next);
                            assert(full == seq![source as u32] + order@);
                            assert(queue@ =~= full.subrange(head, full.len() as int));
                            assert(!old_full.contains(next));
                            assert forall|a: int, b: int| 0 <= a < full.len() && 0 <= b < full.len() && a != b
                                implies full[a] != full[b] by {
                                if a < old_full.len() && b < old_full.len() {
                                    assert(old_full[a] != old_full[b]);
                                } else if a < old_full.len() {
                                    assert(old_full.contains(old_full[a]));
                                } else if b < old_full.len() {
                                    assert(old_full.contains(old_full[b]));
                                }
                            }
                            assert forall|x: int| 0 <= x < adj.len() implies (dist@[x] != u32::MAX <==> #[trigger] full.contains(x as u32)) by {
                                if x == next as int {
                                    assert(full[full.len() - 1] == x as u32);
                                } else {
                                    assert(dist@[x] == old_dist[x]);
                                    if old_full.contains(x as u32) {
                                        let p = choose|p: int| 0 <= p < old_full.len() && old_full[p] == x as u32;
                                        assert(full[p] == x as u32);
                                    }
                                    if full.contains(x as u32) {
                                        let p = choose|p: int| 0 <= p < full.len() && full[p] == x as u32;
                                        assert(p < old_full.len());
                                        assert(old_full[p] == x as u32);
                                    }
                                }
                            }
                            assert(walk(adj, s, u as int, du as nat));
                            assert(walk(adj, s, next as int, (du + 1) as nat)) by {
                                assert(adj[u as int].contains(next));
                                lemma_walk_extend(adj, s, u as int, next as int, du as nat);
                            }
                            assert forall|p: int| 0 <= p < old_full.len() implies #[trigger] dist@[old_full[p] as int] == old_dist[old_full[p] as int] by {
                                assert(old_full.contains(old_full[p]));
                            }
                            assert forall|e: nat| #[trigger] walk(adj, s, next as int, e) implies du + 1 <= e by {
                                if e <= du {
                                    if e == 0 {
                                        lemma_walk_zero(adj, s, next as int);
                                        assert(old_full[0] == next);
                                        assert(old_full.contains(next));
                                    } else {
                                        let z = lemma_walk_pred(adj, s, next as int, e);
                                        let p = choose|p: int| 0 <= p < h && #[trigger] old_full[p] as int == z;
                                        let jj = choose|jj: int| 0 <= jj < adj[z].len() && adj[z][jj] == next;
                                        assert(old_full.contains(adj[old_full[p] as int][jj]));
                                    }
                                }
                            }
                            assert(search_state(adj, s, full, dist@));
                            assert forall|p: int, jj: int| 0 <= p < h && 0 <= jj < adj[full[p] as int].len()
                                implies full.contains(#[trigger] adj[full[p] as int][jj]) by {
                                assert(full[p] == old_full[p]);
                                assert(old_full.contains(adj[old_full[p] as int][jj]));
                                let q = choose|q: int| 0 <= q < old_full.len() && old_full[q] == adj[old_full[p] as int][jj];
                                assert(full[q] == old_full[q]);
                            }
                            assert forall|j2: int| 0 <= j2 < j + 1 implies full.contains(#[trigger] row@[j2]) by {
                                if j2 < j {
                                    let q = choose|q: int| 0 <= q < old_full.len() && old_full[q] == row@[j2];
                                    assert(full[q] == old_full[q]);
                                } else {
                                    assert(full[full.len() - 1] == row@[j2]);
                                }
                            }
                            assert forall|x: int, e: nat| #[trigger] walk(adj, s, x, e) && e < du
                                implies exists|p: int| 0 <= p < h && #[trigger] full[p] as int == x by {
                                let p = choose|p: int| 0 <= p < h && #[trigger] old_full[p] as int == x;
                                assert(full[p] == old_full[p]);
                            }
                        }
                        proof {
                            assert forall|q: int| 0 <= q < full.len() implies dist@[#[trigger] full[q] as int] <= du + 1 by {
                                if q < old_full.len() {
                                    assert(full[q] == old_full[q]);
                                    assert(dist@[old_full[q] as int] == old_dist[old_full[q] as int]);
                                }
                            }
                            assert(dist@[full[h] as int] == du);
                        }
                        if order.len() >= k {
                            proof {
                                assert forall|x: int, e: nat, q: int| 0 <= q < full.len() && #[trigger] walk(adj, s, x, e)
                                    && e < #[trigger] dist@[full[q] as int] implies full.contains(x as u32) by {
                                    lemma_level_found(adj, s, full, dist@, h, x, e);
                                }
                            }
                            done = true;
                        }
                    } else {
                        proof {
                            let x = next as int;
                            assert(full.contains(x as u32));
                        }
                    }
                    j = j + 1;
                }
                proof {
                    if !done {
                        assert forall|p: int, jj: int| 0 <= p < head && 0 <= jj < adj[full[p] as int].len()
                            implies full.contains(#[trigger] adj[full[p] as int][jj]) by {
                            if p == h {
                                assert(row@[jj] == adj[full[p] as int][jj]);
                            }
                        }
                        if head < full.len() {
                            lemma_advance(adj, s, full, dist@, h);
                            assert(dist@[full[h] as int] <= dist@[full[head] as int]);
                        }
                    }
                }
            },
        }
    }
    let ghost closed_full = full;
    let mut found: Vec<(u32, u32)> = Vec::new();
    let mut p: usize = 0;
    while p < order.len()
        invariant
            p <= order@.len(),
            found@.len() == p,
            full == seq![source as u32] + order@,
            forall|q: int| 0 <= q < p ==> (#[trigger] found@[q]).0 == order@[q] && found@[q].1 == dist@[order@[q] as int],
            dist@.len() == n,
            forall|q: int| 0 <= q < full.len() ==> (#[trigger] full[q] as int) < n,
        decreases order@.len() - p,
    {
        assert(full[p + 1] == order@[p as int]);
        found.push((order[p], dist[order[p] as usize]));
        p = p + 1;
    }
    proof {
        assert forall|q: int| 0 <= q < found@.len() implies full[q + 1] == #[trigger] found@[q].0 by {}
        assert forall|p: int| 0 <= p < found@.len() implies {
            &&& (#[trigger] found@[p].0 as int) < adj.len()
            &&& found@[p].0 != s
            &&& hop_distance(adj, s, found@[p].0 as int, found@[p].1 as nat)
        } by {
            assert(full[p + 1] == found@[p].0);
            assert(full[0] != full[p + 1]);
            assert forall|e: nat| e < found@[p].1 implies !#[trigger] walk(adj, s, found@[p].0 as int, e) by {
                if walk(adj, s, full[p + 1] as int, e) {
                    assert(dist@[full[p + 1] as int] <= e);
                }
            }
            assert(walk(adj, s, full[p + 1] as int, dist@[full[p + 1] as int] as nat));
        }
        assert forall|p: int, q: int| 0 <= p < q < found@.len() implies #[trigger] found@[p].0 != #[trigger] found@[q].0 by {
            assert(full[p + 1] != full[q + 1]);
        }
        assert forall|p: int, q: int| 0 <= p <= q < found@.len() implies #[trigger] found@[p].1 <= #[trigger] found@[q].1 by {
            assert(dist@[full[p + 1] as int] <= dist@[full[q + 1] as int]);
        }
        assert forall|x: int, e: nat, p: int|
            0 <= p < found@.len() && x != s && #[trigger] walk(adj, s, x, e) && e < #[trigger] found@[p].1
            implies found_sample(found@, x) by {
            assert(found@[p].1 == dist@[full[p + 1] as int]);
            assert(full.contains(x as u32));
            lemma_walk_in_range(adj, s, x, e);
            let q = choose|q: int| 0 <= q < full.len() && full[q] == x as u32;
            assert(q != 0);
            assert(found@[q - 1].0 == x);
        }
        if found@.len() < k {
            assert forall|x: int, e: nat| x != s && #[trigger] walk(adj, s, x, e) implies found_sample(found@, x) by {
                assert(full.contains(x as u32));
                lemma_walk_in_range(adj, s, x, e);
                let q = choose|q: int| 0 <= q < full.len() && full[q] == x as u32;
                assert(q != 0);
                assert(found@[q - 1].0 == x);
            }
        }
    }
    found
}

/// Breadth-first search from `source` truncated to the first `k` samples other than the
/// source that it reaches, each with its hop distance as a weight, in the order reached.
/// Isolated sources get no neighbors.
pub fn bfs_top_k_neighbors<T: Float>(adjacency: &Vec<Vec<u32>>, source: usize, k: usize) -> (r: Vec<Neighbor<T>>)
    requires
        adjacency@.len() < u32::MAX,
        adjacency_in_range(rows_view(adjacency@)),
        source < adjacency@.len(),
    ensures
        neighbors_nearest(rows_view(adjacency@), source as int, k as nat, r@),
{
    let found = bfs_hops(adjacency, source, k);
    let mut r: Vec<Neighbor<T>> = Vec::new();
    let mut p: usize = 0;
    while p < found.len()
        invariant
            p <= found@.len(),
            r@.len() == p,
            forall|q: int| 0 <= q < p ==> (#[trigger] r@[q]).index == found@[q].0,
        decreases found@.len() - p,
    {
        let (index, hops) = found[p];
        r.push(Neighbor { index: index as usize, distance: w_count64(hops as u64) });
        p = p + 1;
    }
    proof {
        assert(nearest_by_hops(rows_view(adjacency@), source as int, k as nat, found@));
    }
    r
}

/// `t` is one hop from `z`: some edge joins them, and they differ.
pub open spec fn hop_adjacent(edges: Seq<(usize, usize)>, z: int, t: int) -> bool {
    z != t && unit_edge_touches(edges, z, t)
}

/// `adj` lists, for each of the `n` samples, exactly the samples one hop from it.
pub open spec fn hop_rows(edges: Seq<(usize, usize)>, n: nat, adj: Seq<Seq<u32>>) -> bool {
    &&& adj.len() == n
    &&& forall|i: int, c: u32| 0 <= i < n ==> (#[trigger] adj[i].contains(c) <==> hop_adjacent(edges, i, c as int))
}

/// Edge `k` is the first edge with an endpoint out of `0..n`.
pub open spec fn is_first_bad_edge(edges: Seq<(usize, usize)>, n: nat, k: int) -> bool {
    &&& 0 <= k < edges.len()
    &&& (edges[k].0 >= n || edges[k].1 >= n)
    &&& forall|q: int| 0 <= q < k ==> (#[trigger] edges[q]).0 < n && edges[q].1 < n
}

/// The verdict on an edge list over `n` samples: the first endpoint out of range, if any.
pub open spec fn edges_verdict(n: nat, edges: Seq<(usize, usize)>) -> Result<(), FromShortestPathError> {
    if exists|k: int| is_first_bad_edge(edges, n, k) {
        let k = choose|k: int| is_first_bad_edge(edges, n, k);
        let id = if edges[k].0 >= n { edges[k].0 } else { edges[k].1 };
        Err(FromShortestPathError::EdgeIdOutOfRange { id, n_samples: n as usize })
    } else {
        Ok(())
    }
}

/// The outcome of a fallible step, without its value.
pub open spec fn path_verdict<A>(r: Result<A, FromShortestPathError>) -> Result<(), FromShortestPathError> {
    match r {
        Ok(_) => Ok(()),
        Err(err) => Err(err),
    }
}

/// Inserts `c` into the strictly increasing `row`, unless it is already there.
fn insert_sorted(row: &mut Vec<u32>, c: u32)
    requires
        strictly_increasing(old(row)@),
    ensures
        strictly_increasing(final(row)@),
        forall|x: u32| #[trigger] final(row)@.contains(x) <==> (old(row)@.contains(x) || x == c),
{
    let ghost before = row@;
    let mut p: usize = 0;
    while p < row.len() && row[p] < c
        invariant
            p <= row@.len(),
            row@ == before,
            forall|q: int| 0 <= q < p ==> row@[q] < c,
        decreases row@.len() - p,
    {
        p = p + 1;
    }
    if p < row.len() && row[p] == c {
        return;
    }
    row.insert(p, c);
    proof {
        before.insert_ensures(p as int, c);
        let after = row@;
        assert forall|a: int, b: int| 0 <= a < b < after.len() implies after[a] < after[b] by {
            if b < p {
                assert(before[a] < before[b]);
            } else if b == p {
                assert(after[a] == before[a]);
            } else if a < p {
                assert(after[b] == before[b - 1]);
                assert(before[p as int] > c);
                if b - 1 > p {
                    assert(before[p as int] < before[b - 1]);
                }
            } else if a == p {
                assert(after[b] == before[b - 1]);
                assert(before[p as int] > c);
                if b - 1 > p {
                    assert(before[p as int] < before[b - 1]);
                }
            } else {
                assert(after[a] == before[a - 1]);
                assert(after[b] == before[b - 1]);
            }
        }
        assert forall|x: u32| #[trigger] after.contains(x) <==> (before.contains(x) || x == c) by {
            if after.contains(x) {
                let q = choose|q: int| 0 <= q < after.len() && after[q] == x;
                if q < p {
                    assert(before[q] == x);
                } else if q > p {
                    assert(before[q - 1] == x);
                }
            }
            if before.contains(x) {
                let q = choose|q: int| 0 <= q < before.len() && before[q] == x;
                if q < p {
                    assert(after[q] == x);
                } else {
                    assert(after[q + 1] == x);
                }
            }
            if x == c {
                assert(after[p as int] == x);
            }
        }
    }
}

/// The neighbor lists of an undirected edge list over `n_samples` samples: row `i` lists, in
/// increasing order and once each, the samples joined to `i` by an edge, self-loops left out.
/// Errors with `EdgeIdOutOfRange` for the first endpoint (in edge order, first endpoint
/// first) not below `n_samples`.
pub fn hop_adjacency(n_samples: usize, edges: &[(usize, usize)]) -> (r: Result<Vec<Vec<u32>>, FromShortestPathError>)
    requires
        n_samples <= u32::MAX as nat + 1,
    ensures
        path_verdict(r) == edges_verdict(n_samples as nat, edges@),
        r matches Ok(adj) ==> {
            &&& hop_rows(edges@, n_samples as nat, rows_view(adj@))
            &&& forall|i: int| 0 <= i < n_samples ==> #[trigger] strictly_increasing(adj@[i]@)
        },
{
    let mut adjacency: Vec<Vec<u32>> = Vec::new();
    let mut r: usize = 0;
    while r < n_samples
        invariant
            r <= n_samples,
            adjacency@.len() == r,
            forall|q: int| 0 <= q < r ==> (#[trigger] adjacency@[q])@.len() == 0,
        decreases n_samples - r,
    {
        adjacency.push(Vec::new());
        r = r + 1;
    }
    let ghost n = n_samples as nat;
    let mut k: usize = 0;
    while k < edges.len()
        invariant
            k <= edges@.len(),
            n == n_samples,
            n_samples <= u32::MAX as nat + 1,
            adjacency@.len() == n_samples,
            forall|q: int| 0 <= q < k ==> (#[trigger] edges@[q]).0 < n && edges@[q].1 < n,
            forall|q: int| 0 <= q < n ==> #[trigger] strictly_increasing(adjacency@[q]@),
            forall|q: int, c: u32| 0 <= q < n ==>
                (#[trigger] adjacency@[q]@.contains(c) <==> hop_adjacent(edges@.take(k as int), q, c as int)),
        decreases edges@.len() - k,
    {
        let (i, j) = edges[k];
        if i >= n_samples {
            proof {
                assert(is_first_bad_edge(edges@, n, k as int));
            }
            return Err(FromShortestPathError::EdgeIdOutOfRange { id: i, n_samples });
        }
        if j >= n_samples {
            proof {
                assert(is_first_bad_edge(edges@, n, k as int));
            }
            return Err(FromShortestPathError::EdgeIdOutOfRange { id: j, n_samples });
        }
        let ghost adj0 = adjacency@;
        if i != j {
            insert_sorted(&mut adjacency[i], j as u32);
            insert_sorted(&mut adjacency[j], i as u32);
        }
        proof {
            let before = edges@.take(k as int);
            let after = edges@.take(k + 1);
            assert(after == before.push(edges@[k as int]));
            assert forall|q: int, c: u32| 0 <= q < n implies
                (#[trigger] adjacency@[q]@.contains(c) <==> hop_adjacent(after, q, c as int)) by {
                assert(unit_edge_touches(after, q, c as int) <==> (unit_edge_touches(before, q, c as int) || joins(i, j, q, c as int))) by {
                    if unit_edge_touches(after, q, c as int) {
                        let m = choose|m: int| 0 <= m < after.len() && #[trigger] joins(after[m].0, after[m].1, q, c as int);
                        if m < before.len() {
                            assert(joins(before[m].0, before[m].1, q, c as int));
                        }
                    }
                    if unit_edge_touches(before, q, c as int) {
                        let m = choose|m: int| 0 <= m < before.len() && #[trigger] joins(before[m].0, before[m].1, q, c as int);
                        assert(joins(after[m].0, after[m].1, q, c as int));
                    }
                    if joins(i, j, q, c as int) {
                        assert(joins(after[k as int].0, after[k as int].1, q, c as int));
                    }
                }
                assert(adj0[q]@.contains(c) <==> hop_adjacent(before, q, c as int));
                if i == j {
                    assert(adjacency@[q]@ == adj0[q]@);
                } else if q != i && q != j {
                    assert(adjacency@[q]@ == adj0[q]@);
                }
            }
        }
        k = k + 1;
    }
    proof {
        assert(edges@.take(edges@.len() as int) == edges@);
        assert(!exists|q: int| is_first_bad_edge(edges@, n, q));
        let adj = rows_view(adjacency@);
        assert forall|i: int, c: u32| 0 <= i < n implies (#[trigger] adj[i].contains(c) <==> hop_adjacent(edges@, i, c as int)) by {
            assert(adj[i] == adjacency@[i]@);
        }
    }
    Ok(adjacency)
}

impl<T: Float> Affinities<T> {
    /// The hop-distance neighbor table from which the shortest-path affinity graph is built:
    /// the samples joined by the undirected `edges`, and for each sample the first `k` others
    /// a breadth-first search from it reaches, which are `k` samples nearest to it by hop
    /// count (fewer when fewer are reachable; none for an isolated sample). Each neighbor's
    /// distance is its hop count. Errors with `EdgeIdOutOfRange` for the first endpoint (in
    /// edge order, first endpoint first) not below `n_samples`.
    pub fn shortest_path_neighbors(n_samples: usize, edges: Vec<(usize, usize)>, k: usize)
        -> (r: Result<Vec<Vec<Neighbor<T>>>, FromShortestPathError>)
        requires
            n_samples < u32::MAX,
        ensures
            path_verdict(r) == edges_verdict(n_samples as nat, edges@),
            r matches Ok(table) ==> {
                &&& table@.len() == n_samples
                &&& exists|adj: Seq<Seq<u32>>| {
                    &&& #[trigger] hop_rows(edges@, n_samples as nat, adj)
                    &&& forall|i: int| 0 <= i < n_samples ==> #[trigger] neighbors_nearest(adj, i, k as nat, table@[i]@)
                }
            },
    {
        let adjacency = match hop_adjacency(n_samples, edges.as_slice()) {
            Ok(adjacency) => adjacency,
            Err(err) => {
                return Err(err);
            },
        };
        let ghost adj = rows_view(adjacency@);
        proof {
            assert forall|i: int, j: int| 0 <= i < adj.len() && 0 <= j < adj[i].len()
                implies (#[trigger] adj[i][j] as int) < adj.len() by {
                assert(adj[i].contains(adj[i][j]));
                let m = choose|m: int| 0 <= m < edges@.len() && #[trigger] joins(edges@[m].0, edges@[m].1, i, adj[i][j] as int);
                assert(!exists|q: int| is_first_bad_edge(edges@, n_samples as nat, q));
                if !(edges@[m].0 < n_samples && edges@[m].1 < n_samples) {
                    assert(exists|q: int| is_first_bad_edge(edges@, n_samples as nat, q)) by {
                        lemma_first_bad_edge(edges@, n_samples as nat, m);
                    }
                }
            }
        }
        let mut table: Vec<Vec<Neighbor<T>>> = Vec::new();
        let mut source: usize = 0;
        while source < n_samples
            invariant
                source <= n_samples,
                n_samples < u32::MAX,
                adjacency@.len() == n_samples,
                adj == rows_view(adjacency@),
                adjacency_in_range(adj),
                table@.len() == source,
                forall|i: int| 0 <= i < source ==> #[trigger] neighbors_nearest(adj, i, k as nat, table@[i]@),
            decreases n_samples - source,
        {
            let row = bfs_top_k_neighbors(&adjacency, source, k);
            let ghost before = table@;
            let ghost row_view = row@;
            table.push(row);
            proof {
                assert forall|i: int| 0 <= i < source + 1 implies #[trigger] neighbors_nearest(adj, i, k as nat, table@[i]@) by {
                    if i < source {
                        assert(table@[i] == before[i]);
                    } else {
                        assert(table@[i]@ == row_view);
                    }
                }
            }
            source = source + 1;
        }
        proof {
            assert(hop_rows(edges@, n_samples as nat, adj));
        }
        Ok(table)
    }
}

/// An edge with an endpoint out of range means some edge is the first such.
proof fn lemma_first_bad_edge(edges: Seq<(usize, usize)>, n: nat, m: int)
    requires
        0 <= m < edges.len(),
        edges[m].0 >= n || edges[m].1 >= n,
    ensures
        exists|k: int| is_first_bad_edge(edges, n, k),
    decreases m,
{
    if forall|q: int| 0 <= q < m ==> (#[trigger] edges[q]).0 < n && edges[q].1 < n {
        assert(is_first_bad_edge(edges, n, m));
    } else {
        let q = choose|q: int| 0 <= q < m && !((#[trigger] edges[q]).0 < n && edges[q].1 < n);
        lemma_first_bad_edge(edges, n, q);
    }
}

} // verus!
