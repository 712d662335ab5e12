//! The steps of t-SNE gradient descent, on a row-major embedding of `n` points in `d`
//! dimensions and on dense `n * n` matrices of pairwise values.
//!
//! Weights are opaque to the proofs (see [`crate::weight`]); what is proved here is that every
//! index stays in bounds and that every buffer keeps its shape.

use num_traits::Float;
use vstd::prelude::*;

use crate::weight::{
    random_seed, w_acos, w_add, w_cos, w_div, w_eq, w_epsilon, w_count64, w_count, w_ln, w_lt,
    w_mul, w_neg, w_one, w_recip, w_signum, w_sqrt, w_sub, w_zero,
};

verus! {

/// `i * d + k` indexes a cell of an `n` by `d` row-major matrix.
pub(crate) proof fn lemma_cell(i: int, k: int, n: int, d: int)
    by (nonlinear_arith)
    requires
        0 <= i < n,
        0 <= k < d,
    ensures
        0 <= i * d + k < n * d,
        i * d + d <= n * d,
{
}

/// Divides every affinity by the early exaggeration factor, undoing the exaggeration.
pub(crate) fn stop_lying<T: Float>(p: &mut Vec<T>, exaggeration: T)
    ensures
        final(p)@.len() == old(p)@.len(),
{
    let ghost len = p@.len();
    let mut k: usize = 0;
    while k < p.len()
        invariant
            k <= p@.len(),
            p@.len() == len,
        decreases p@.len() - k,
    {
        let scaled = w_div(p[k], exaggeration);
        p.set(k, scaled);
        k = k + 1;
    }
}

/// One step of gradient descent with momentum and per-coordinate gains: a gain grows by
/// `2 / 10` where the gradient and the last update differ in sign, shrinks by a factor
/// `8 / 10` where they agree, and never falls below `1 / 100`; the update is
/// `momentum * update - learning_rate * gain * gradient`, and it is added to the embedding.
pub(crate) fn update_solution<T: Float>(
    y: &mut Vec<T>,
    dy: &Vec<T>,
    uy: &mut Vec<T>,
    gains: &mut Vec<T>,
    learning_rate: T,
    momentum: T,
)
    requires
        old(y)@.len() == dy@.len(),
        old(uy)@.len() == dy@.len(),
        old(gains)@.len() == dy@.len(),
    ensures
        final(y)@.len() == dy@.len(),
        final(uy)@.len() == dy@.len(),
        final(gains)@.len() == dy@.len(),
{
    let ten: T = w_count(10);
    let raise = w_div(w_count(2), ten);
    let shrink = w_div(w_count(8), ten);
    let floor = w_div(w_one(), w_count(100));
    let mut k: usize = 0;
    while k < dy.len()
        invariant
            k <= dy@.len(),
            y@.len() == dy@.len(),
            uy@.len() == dy@.len(),
            gains@.len() == dy@.len(),
        decreases dy@.len() - k,
    {
        let gradient = dy[k];
        let previous = uy[k];
        let gain = if w_eq(w_signum(gradient), w_signum(previous)) {
            w_mul(gains[k], shrink)
        } else {
            w_add(gains[k], raise)
        };
        let gain = if w_lt(gain, floor) {
            floor
        } else {
            gain
        };
        gains.set(k, gain);
        let update = w_sub(w_mul(momentum, previous), w_mul(w_mul(learning_rate, gain), gradient));
        uy.set(k, update);
        let moved = w_add(y[k], update);
        y.set(k, moved);
        k = k + 1;
    }
}

/// Centers the embedding: subtracts from each coordinate its mean over the `n` points.
pub(crate) fn zero_mean<T: Float>(y: &mut Vec<T>, n: usize, d: usize)
    requires
        old(y)@.len() == n * d,
        n * d <= usize::MAX,
    ensures
        final(y)@.len() == old(y)@.len(),
{
    if n == 0 {
        return;
    }
    let count: T = w_count(n);
    let mut k: usize = 0;
    while k < d
        invariant
            k <= d,
            0 < n,
            y@.len() == n * d,
            n * d <= usize::MAX,
        decreases d - k,
    {
        let mut total: T = w_zero();
        let mut i: usize = 0;
        while i < n
            invariant
                i <= n,
                k < d,
                y@.len() == n * d,
                n * d <= usize::MAX,
            decreases n - i,
        {
            proof {
                lemma_cell(i as int, k as int, n as int, d as int);
            }
            total = w_add(total, y[i * d + k]);
            i = i + 1;
        }
        let mean = w_div(total, count);
        let mut i: usize = 0;
        while i < n
            invariant
                i <= n,
                k < d,
                y@.len() == n * d,
                n * d <= usize::MAX,
            decreases n - i,
        {
            proof {
                lemma_cell(i as int, k as int, n as int, d as int);
            }
            let centered = w_sub(y[i * d + k], mean);
            y.set(i * d + k, centered);
            i = i + 1;
        }
        k = k + 1;
    }
}

/// Squared Euclidean distance between points `i` and `j` of the embedding.
fn squared_distance<T: Float>(y: &Vec<T>, n: usize, d: usize, i: usize, j: usize) -> T
    requires
        y@.len() == n * d,
        n * d <= usize::MAX,
        i < n,
        j < n,
{
    let mut total: T = w_zero();
    let mut k: usize = 0;
    while k < d
        invariant
            k <= d,
            i < n,
            j < n,
            y@.len() == n * d,
            n * d <= usize::MAX,
        decreases d - k,
    {
        proof {
            lemma_cell(i as int, k as int, n as int, d as int);
            lemma_cell(j as int, k as int, n as int, d as int);
        }
        let diff = w_sub(y[i * d + k], y[j * d + k]);
        total = w_add(total, w_mul(diff, diff));
        k = k + 1;
    }
    total
}

/// Cell `(a, b)` of a row-major matrix with `n` columns.
pub open spec fn cell<T>(m: Seq<T>, n: int, a: int, b: int) -> T {
    m[a * n + b]
}

/// Two cells of an `n * n` row-major matrix share an index only if they are the same cell.
proof fn lemma_cell_unique(a: int, b: int, c: int, e: int, n: int)
    requires
        0 <= a < n,
        0 <= b < n,
        0 <= c < n,
        0 <= e < n,
        a * n + b == c * n + e,
    ensures
        a == c,
        b == e,
{
    if a < c {
        assert(a * n + b < c * n + e) by (nonlinear_arith)
            requires
                a < c,
                0 <= b < n,
                0 <= e,
        ;
    } else if c < a {
        assert(c * n + e < a * n + b) by (nonlinear_arith)
            requires
                c < a,
                0 <= e < n,
                0 <= b,
        ;
    }
}

/// Fills the `n * n` matrix of squared distances between the points of the embedding: zero on
/// the diagonal, and each pair computed once and written to both of its cells, so the matrix
/// is symmetric and its diagonal holds one value throughout.
pub(crate) fn squared_distances<T: Float>(y: &Vec<T>, n: usize, d: usize, distances: &mut Vec<T>)
    requires
        y@.len() == n * d,
        old(distances)@.len() == n * n,
        n * d <= usize::MAX,
        n * n <= usize::MAX,
    ensures
        final(distances)@.len() == n * n,
        forall|a: int, b: int| 0 <= a < n && 0 <= b < n ==>
            #[trigger] cell(final(distances)@, n as int, a, b) == cell(final(distances)@, n as int, b, a),
        forall|a: int, b: int| 0 <= a < n && 0 <= b < n ==>
            #[trigger] cell(final(distances)@, n as int, a, a) == #[trigger] cell(final(distances)@, n as int, b, b),
{
    let zero: T = w_zero();
    let ghost nn = n as int;
    let mut i: usize = 0;
    while i < n
        invariant
            i <= n,
            nn == n,
            y@.len() == n * d,
            distances@.len() == n * n,
            n * d <= usize::MAX,
            n * n <= usize::MAX,
            forall|a: int, b: int| 0 <= a < n && 0 <= b < n && (a < i || b < i) ==>
                #[trigger] cell(distances@, nn, a, b) == cell(distances@, nn, b, a),
            forall|a: int| 0 <= a < i ==> #[trigger] cell(distances@, nn, a, a) == zero,
        decreases n - i,
    {
        proof {
            lemma_cell(i as int, i as int, n as int, n as int);
        }
        let ghost before = distances@;
        distances.set(i * n + i, zero);
        proof {
            assert forall|a: int, b: int| 0 <= a < n && 0 <= b < n && (a < i || b < i) implies
                #[trigger] cell(distances@, nn, a, b) == cell(distances@, nn, b, a) by {
                lemma_cell(a, b, nn, nn);
                lemma_cell(b, a, nn, nn);
                if a * nn + b == i * nn + i {
                    lemma_cell_unique(a, b, i as int, i as int, nn);
                }
                if b * nn + a == i * nn + i {
                    lemma_cell_unique(b, a, i as int, i as int, nn);
                }
                assert(cell(before, nn, a, b) == cell(before, nn, b, a));
            }
            assert forall|a: int| 0 <= a < i + 1 implies #[trigger] cell(distances@, nn, a, a) == zero by {
                lemma_cell(a, a, nn, nn);
                if a < i {
                    if a * nn + a == i * nn + i {
                        lemma_cell_unique(a, a, i as int, i as int, nn);
                    }
                    assert(cell(before, nn, a, a) == zero);
                }
            }
        }
        let mut j: usize = i + 1;
        while j < n
            invariant
                i < n,
                i < j <= n,
                nn == n,
                y@.len() == n * d,
                distances@.len() == n * n,
                n * d <= usize::MAX,
                n * n <= usize::MAX,
                forall|a: int, b: int| 0 <= a < n && 0 <= b < n && (a < i || b < i) ==>
                    #[trigger] cell(distances@, nn, a, b) == cell(distances@, nn, b, a),
                forall|a: int| 0 <= a < i + 1 ==> #[trigger] cell(distances@, nn, a, a) == zero,
                forall|b: int| i < b < j ==> #[trigger] cell(distances@, nn, i as int, b) == cell(distances@, nn, b, i as int),
            decreases n - j,
        {
            proof {
                lemma_cell(i as int, j as int, n as int, n as int);
                lemma_cell(j as int, i as int, n as int, n as int);
            }
            let dist = squared_distance(y, n, d, i, j);
            let ghost before = distances@;
            distances.set(i * n + j, dist);
            distances.set(j * n + i, dist);
            proof {
                let ij = i * nn + j;
                let ji = j * nn + i;
                assert(ij != ji) by {
                    if ij == ji {
                        lemma_cell_unique(i as int, j as int, j as int, i as int, nn);
                    }
                }
                assert(distances@[ij] == dist);
                assert(distances@[ji] == dist);
                assert forall|a: int, b: int| 0 <= a < n && 0 <= b < n implies
                    (a * nn + b != ij && a * nn + b != ji ==> #[trigger] cell(distances@, nn, a, b) == cell(before, nn, a, b)) by {
                    lemma_cell(a, b, nn, nn);
                }
                assert forall|a: int, b: int| 0 <= a < n && 0 <= b < n && (a < i || b < i) implies
                    #[trigger] cell(distances@, nn, a, b) == cell(distances@, nn, b, a) by {
                    lemma_cell(a, b, nn, nn);
                    lemma_cell(b, a, nn, nn);
                    if a * nn + b == ij {
                        lemma_cell_unique(a, b, i as int, j as int, nn);
                    }
                    if a * nn + b == ji {
                        lemma_cell_unique(a, b, j as int, i as int, nn);
                    }
                    if b * nn + a == ij {
                        lemma_cell_unique(b, a, i as int, j as int, nn);
                    }
                    if b * nn + a == ji {
                        lemma_cell_unique(b, a, j as int, i as int, nn);
                    }
                    assert(cell(before, nn, a, b) == cell(before, nn, b, a));
                }
                assert forall|a: int| 0 <= a < i + 1 implies #[trigger] cell(distances@, nn, a, a) == zero by {
                    lemma_cell(a, a, nn, nn);
                    if a * nn + a == ij {
                        lemma_cell_unique(a, a, i as int, j as int, nn);
                    }
                    if a * nn + a == ji {
                        lemma_cell_unique(a, a, j as int, i as int, nn);
                    }
                    assert(cell(before, nn, a, a) == zero);
                }
                assert forall|b: int| i < b < j + 1 implies #[trigger] cell(distances@, nn, i as int, b) == cell(distances@, nn, b, i as int) by {
                    lemma_cell(i as int, b, nn, nn);
                    lemma_cell(b, i as int, nn, nn);
                    if b < j {
                        if i * nn + b == ij {
                            lemma_cell_unique(i as int, b, i as int, j as int, nn);
                        }
                        if i * nn + b == ji {
                            lemma_cell_unique(i as int, b, j as int, i as int, nn);
                        }
                        if b * nn + i == ij {
                            lemma_cell_unique(b, i as int, i as int, j as int, nn);
                        }
                        if b * nn + i == ji {
                            lemma_cell_unique(b, i as int, j as int, i as int, nn);
                        }
                        assert(cell(before, nn, i as int, b) == cell(before, nn, b, i as int));
                    }
                }
            }
            j = j + 1;
        }
        proof {
            assert forall|a: int, b: int| 0 <= a < n && 0 <= b < n && (a < i + 1 || b < i + 1) implies
                #[trigger] cell(distances@, nn, a, b) == cell(distances@, nn, b, a) by {
                if !(a < i || b < i) {
                    if a == i && b > i {
                        assert(cell(distances@, nn, i as int, b) == cell(distances@, nn, b, i as int));
                    } else if b == i && a > i {
                        assert(cell(distances@, nn, i as int, a) == cell(distances@, nn, a, i as int));
                    }
                }
            }
        }
        i = i + 1;
    }
    proof {
        assert forall|a: int, b: int| 0 <= a < n && 0 <= b < n implies
            #[trigger] cell(distances@, nn, a, a) == #[trigger] cell(distances@, nn, b, b) by {
            assert(cell(distances@, nn, a, a) == zero);
            assert(cell(distances@, nn, b, b) == zero);
        }
    }
}

/// The Student-t kernel of every cell, `1 / (1 + distance)`, and the sum of all of them.
pub(crate) fn student_t<T: Float>(distances: &Vec<T>) -> (r: (Vec<T>, T))
    ensures
        r.0@.len() == distances@.len(),
{
    let one: T = w_one();
    let mut q: Vec<T> = Vec::new();
    let mut total: T = w_zero();
    let mut k: usize = 0;
    while k < distances.len()
        invariant
            k <= distances@.len(),
            q@.len() == k,
        decreases distances@.len() - k,
    {
        let kernel = w_recip(w_add(one, distances[k]));
        q.push(kernel);
        total = w_add(total, kernel);
        k = k + 1;
    }
    (q, total)
}

/// Adds the exact t-SNE gradient to `dy`: for every pair `(i, j)`, the difference of the two
/// points scaled by `(p_ij - q_ij / sum(q)) * q_ij`.
pub(crate) fn exact_gradient<T: Float>(
    p: &Vec<T>,
    q: &Vec<T>,
    inverse_q_sum: T,
    y: &Vec<T>,
    dy: &mut Vec<T>,
    n: usize,
    d: usize,
)
    requires
        p@.len() == n * n,
        q@.len() == n * n,
        y@.len() == n * d,
        old(dy)@.len() == n * d,
        n * d <= usize::MAX,
        n * n <= usize::MAX,
    ensures
        final(dy)@.len() == n * d,
{
    let mut i: usize = 0;
    while i < n
        invariant
            i <= n,
            p@.len() == n * n,
            q@.len() == n * n,
            y@.len() == n * d,
            dy@.len() == n * d,
            n * d <= usize::MAX,
            n * n <= usize::MAX,
        decreases n - i,
    {
        let mut j: usize = 0;
        while j < n
            invariant
                i < n,
                j <= n,
                p@.len() == n * n,
                q@.len() == n * n,
                y@.len() == n * d,
                dy@.len() == n * d,
                n * d <= usize::MAX,
                n * n <= usize::MAX,
            decreases n - j,
        {
            proof {
                lemma_cell(i as int, j as int, n as int, n as int);
            }
            let pij = p[i * n + j];
            let qij = q[i * n + j];
            let m = w_mul(w_sub(pij, w_mul(qij, inverse_q_sum)), qij);
            let mut k: usize = 0;
            while k < d
                invariant
                    i < n,
                    j < n,
                    k <= d,
                    y@.len() == n * d,
                    dy@.len() == n * d,
                    n * d <= usize::MAX,
                decreases d - k,
            {
                proof {
                    lemma_cell(i as int, k as int, n as int, d as int);
                    lemma_cell(j as int, k as int, n as int, d as int);
                }
                let step = w_mul(w_sub(y[i * d + k], y[j * d + k]), m);
                let sum = w_add(dy[i * d + k], step);
                dy.set(i * d + k, sum);
                k = k + 1;
            }
            j = j + 1;
        }
        i = i + 1;
    }
}

/// Kullback-Leibler divergence of the embedding's Student-t similarities from the affinities:
/// `sum p * ln((p + eps) / (q + eps))` over all cells, where `q` is the kernel of each
/// off-diagonal pair normalized to sum to one (zero on the diagonal) and `eps` the machine
/// epsilon of `T`.
///
/// Beside the divergence it returns, as a ghost record, the affinity matrix and the embedding
/// it was evaluated on.
pub(crate) fn evaluate_error<T: Float>(p: &Vec<T>, y: &Vec<T>, n: usize, d: usize)
    -> (r: (T, Ghost<(Seq<T>, Seq<T>)>))
    requires
        p@.len() == n * n,
        y@.len() == n * d,
        n * d <= usize::MAX,
    ensures
        r.1@ == (p@, y@),
{
    let zero: T = w_zero();
    let one: T = w_one();
    let mut q: Vec<T> = Vec::new();
    let mut q_sum: T = zero;
    let mut i: usize = 0;
    while i < n
        invariant
            i <= n,
            p@.len() == n * n,
            y@.len() == n * d,
            n * d <= usize::MAX,
            q@.len() == i * n,
        decreases n - i,
    {
        let mut j: usize = 0;
        while j < n
            invariant
                i < n,
                j <= n,
                y@.len() == n * d,
                n * d <= usize::MAX,
                q@.len() == i * n + j,
            decreases n - j,
        {
            if i == j {
                q.push(zero);
            } else {
                let kernel = w_recip(w_add(one, squared_distance(y, n, d, i, j)));
                q.push(kernel);
                q_sum = w_add(q_sum, kernel);
            }
            j = j + 1;
        }
        assert(q@.len() == (i + 1) * n) by (nonlinear_arith)
            requires
                q@.len() == i * n + n,
        ;
        i = i + 1;
    }
    let eps: T = w_epsilon();
    let mut kl: T = zero;
    let mut k: usize = 0;
    while k < p.len()
        invariant
            k <= p@.len(),
            q@.len() == p@.len(),
        decreases p@.len() - k,
    {
        let pk = p[k];
        let qk = w_div(q[k], q_sum);
        let ratio = w_div(w_add(pk, eps), w_add(qk, eps));
        kl = w_add(kl, w_mul(pk, w_ln(ratio)));
        k = k + 1;
    }
    (kl, Ghost((p@, y@)))
}

/// The seed of the random start when the operating system cannot supply one.
const FALLBACK_SEED: u64 = 0x2545_F491_4F6C_DD1D;

/// Increment of the splitmix64 generator.
const GOLDEN_GAMMA: u64 = 0x9E37_79B9_7F4A_7C15;

/// Product modulo `2^64`.
pub open spec fn mul_mod64(a: u64, b: u64) -> u64 {
    ((a as nat * b as nat) % 0x1_0000_0000_0000_0000nat) as u64
}

/// The output function of splitmix64.
pub open spec fn mix64(s: u64) -> u64 {
    let a = mul_mod64(s ^ (s >> 30u64), 0xBF58_476D_1CE4_E5B9u64);
    let b = mul_mod64(a ^ (a >> 27u64), 0x94D0_49BB_1331_11EBu64);
    b ^ (b >> 31u64)
}

/// One step of splitmix64: the state advances by the golden gamma (modulo `2^64`) and the
/// output is the mix of the new state.
fn splitmix64(state: u64) -> (r: (u64, u64))
    ensures
        r.0 == (state as nat + GOLDEN_GAMMA as nat) % 0x1_0000_0000_0000_0000nat,
        r.1 == mix64(r.0),
{
    let s = state.wrapping_add(GOLDEN_GAMMA);
    let a = (s ^ (s >> 30)).wrapping_mul(0xBF58_476D_1CE4_E5B9);
    let b = (a ^ (a >> 27)).wrapping_mul(0x94D0_49BB_1331_11EB);
    (s, b ^ (b >> 31))
}

/// A 64-bit draw mapped into `(0, 1]`: its top 53 bits plus one, over `2^53`.
fn unit_interval<T: Float>(x: u64, scale: T) -> T {
    let top = x >> 11;
    assert(top < 0x20_0000_0000_0000u64) by (bit_vector)
        requires
            top == x >> 11u64,
    ;
    w_div(w_count64(top + 1), scale)
}

/// Fills the embedding with independent draws from a normal distribution of mean zero and
/// standard deviation `1 / 10000` (Box-Muller over a splitmix64 stream seeded by the operating
/// system, or by a fixed seed where it cannot supply one).
pub(crate) fn random_init<T: Float>(y: &mut Vec<T>)
    ensures
        final(y)@.len() == old(y)@.len(),
{
    let ghost len = y@.len();
    let mut state: u64 = match random_seed() {
        Some(seed) => seed,
        None => FALLBACK_SEED,
    };
    let one: T = w_one();
    let two: T = w_count(2);
    let turn = w_mul(two, w_acos(w_neg(one)));
    let sigma = w_div(one, w_count(10000));
    let scale: T = w_count64(0x20_0000_0000_0000u64);
    let mut k: usize = 0;
    while k < y.len()
        invariant
            k <= y@.len(),
            y@.len() == len,
        decreases y@.len() - k,
    {
        let (s1, a) = splitmix64(state);
        let (s2, b) = splitmix64(s1);
        state = s2;
        let u1 = unit_interval(a, scale);
        let u2 = unit_interval(b, scale);
        let radius = w_sqrt(w_mul(w_neg(two), w_ln(u1)));
        let normal = w_mul(radius, w_cos(w_mul(turn, u2)));
        y.set(k, w_mul(normal, sigma));
        k = k + 1;
    }
}

} // verus!
