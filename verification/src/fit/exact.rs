//! Exact t-SNE: the gradient over all `n * n` pairs, on a dense copy of the affinities.

use num_traits::Float;
use vstd::prelude::*;

use crate::affinities::Affinities;
use crate::fit::descent::{
    evaluate_error, exact_gradient, lemma_cell, random_init, squared_distances, stop_lying, student_t,
    update_solution, zero_mean,
};
use crate::fit::{EpochCallback, FitConfig, Settings};
use crate::affinities::symmetrize::normalize_p_values;
use crate::weight::{w_div, w_count, w_max, w_one, w_recip, w_zero};

verus! {

/// The affinity graph can be laid out as a dense `n * n` matrix: it has a column for every
/// weight, every weighted entry has a column below `n`, and, where there is a weight at all,
/// between one and `n + 1` offsets, with every weighted entry before the last offset when
/// there are `n + 1`.
pub open spec fn dense_ready<T>(n: nat, a: Affinities<T>) -> bool {
    let rows = a.spec_rows();
    let columns = a.spec_columns();
    let values = a.spec_values();
    &&& values.len() > 0 ==> 1 <= rows.len() <= n + 1
    &&& values.len() <= columns.len()
    &&& (rows.len() == n + 1 ==> values.len() <= rows[n as int])
    &&& forall|e: int| 0 <= e < values.len() ==> (#[trigger] columns[e] as int) < n
}

/// Exact t-SNE builder: the fit settings and the affinity graph.
pub struct ExactBuilder<'d, T, U, const D: usize, C> {
    config: FitConfig<'d, T, U, C>,
    affinities: Affinities<T>,
}

/// Result of an exact t-SNE fit.
pub struct FittedExact<T> {
    embedding: Vec<T>,
    kl_divergence: T,
    affinities: Affinities<T>,
    epoch_log: Ghost<Seq<(usize, Seq<T>)>>,
    callback_received: Ghost<Seq<(usize, Seq<T>)>>,
    final_affinities: Ghost<Seq<T>>,
    kl_inputs: Ghost<(Seq<T>, Seq<T>)>,
}

impl<'d, T, U, const D: usize, C> ExactBuilder<'d, T, U, D, C> {
    /// The fit settings.
    pub closed spec fn settings(&self) -> Settings<T> {
        self.config.settings()
    }

    /// Number of data points.
    pub closed spec fn spec_n_data(&self) -> nat {
        self.config.data@.len()
    }

    /// The affinity graph.
    pub closed spec fn spec_affinities(&self) -> Affinities<T> {
        self.affinities
    }

    /// The epoch callback.
    pub closed spec fn spec_callback(&self) -> C {
        self.config.epoch_callback
    }

    /// What the fit needs: the graph can be laid out densely over the data points, the dense
    /// matrix and the embedding fit in memory, and a seed, if given, has `n * D` values.
    pub open spec fn fit_ready(&self) -> bool {
        let n = self.spec_n_data();
        &&& dense_ready(n, self.spec_affinities())
        &&& n * n <= usize::MAX
        &&& n * D <= usize::MAX
        &&& (self.settings().7 is Some ==> self.settings().7->0.len() == n * D)
    }

    pub(crate) fn from_parts(config: FitConfig<'d, T, U, C>, affinities: Affinities<T>) -> (b: Self)
        ensures
            b.settings() == config.settings(),
            b.spec_n_data() == config.data@.len(),
            b.spec_affinities() == affinities,
            b.spec_callback() == config.epoch_callback,
    {
        ExactBuilder { config, affinities }
    }
}

/// The row that CSR entry `index` lies in, by binary search over the offsets: the returned
/// row starts at or before `index` (or is row zero), and the next offset, if any, lies after
/// `index`.
fn find_row_for_entry(rows: &[usize], index: usize) -> (r: usize)
    requires
        rows@.len() >= 1,
    ensures
        r < rows@.len(),
        r == 0 || rows@[r as int] <= index,
        r + 1 == rows@.len() || index < rows@[r + 1],
{
    let mut lo: usize = 0;
    let mut hi: usize = rows.len() - 1;
    while lo < hi
        invariant
            lo <= hi < rows@.len(),
            lo == 0 || rows@[lo as int] <= index,
            hi + 1 == rows@.len() || index < rows@[hi + 1],
        decreases hi - lo,
    {
        let mid = lo + (hi - lo - 1) / 2 + 1;
        if rows[mid] <= index {
            lo = mid;
        } else {
            hi = mid - 1;
        }
    }
    lo
}

/// Lays the weighted entries of the graph out as a dense row-major `n * n` matrix, every other
/// cell `zero`; of two entries in one cell, the later one stays.
fn densify<T: Copy>(a: &Affinities<T>, n: usize, zero: T) -> (p: Vec<T>)
    requires
        dense_ready(n as nat, *a),
        n * n <= usize::MAX,
    ensures
        p@.len() == n * n,
{
    let rows = a.rows();
    let columns = a.columns();
    let values = a.values();
    let mut p: Vec<T> = vec![zero; n * n];
    let mut e: usize = 0;
    while e < values.len()
        invariant
            e <= values@.len(),
            p@.len() == n * n,
            rows@ == a.spec_rows(),
            columns@ == a.spec_columns(),
            values@ == a.spec_values(),
            dense_ready(n as nat, *a),
            n * n <= usize::MAX,
        decreases values@.len() - e,
    {
        let row = find_row_for_entry(rows, e);
        assert(columns@[e as int] < n);
        let col = columns[e] as usize;
        proof {
            if rows@.len() == n + 1 && row == n {
                assert(rows@[n as int] <= e);
            }
            lemma_cell(row as int, col as int, n as int, n as int);
        }
        p.set(row * n + col, values[e]);
        e = e + 1;
    }
    p
}

impl<'d, T: Float, U, const D: usize, C: EpochCallback<T>> ExactBuilder<'d, T, U, D, C> {
    /// Runs the exact t-SNE optimization and returns the fitted result.
    ///
    /// The affinities are laid out as a dense matrix, normalized and exaggerated; the embedding
    /// starts from the seed or from a random draw; each epoch computes all pairwise distances,
    /// the exact gradient and one descent step, recenters the embedding, stops the
    /// exaggeration at the stop-lying epoch, switches momentum at the switch epoch and calls
    /// the epoch callback. The size-scaled learning rate is `max(n / exaggeration / 4, 50)`.
    pub fn fit(self) -> (f: FittedExact<T>)
        requires
            self.fit_ready(),
        ensures
            f.spec_embedding().len() == self.spec_n_data() * D,
            f.spec_affinities() == self.spec_affinities(),
            (self.settings().1 == 0 && self.settings().7 is Some) ==> f.spec_embedding()
                == self.settings().7->0,
            f.spec_epoch_log().len() == self.settings().1,
            forall|k: int| 0 <= k < f.spec_epoch_log().len() ==> {
                &&& (#[trigger] f.spec_epoch_log()[k]).0 == k
                &&& f.spec_epoch_log()[k].1.len() == self.spec_n_data() * D
            },
            self.settings().1 > 0 ==> f.spec_epoch_log().last().1 == f.spec_embedding(),
            f.spec_callback_received() == self.spec_callback().received() + f.spec_epoch_log(),
            f.spec_final_affinities().len() == self.spec_n_data() * self.spec_n_data(),
            f.spec_kl_affinities() == f.spec_final_affinities(),
            f.spec_kl_embedding() == f.spec_embedding(),
    {
        let ExactBuilder { config, affinities } = self;
        let FitConfig {
            data,
            learning_rate,
            epochs,
            momentum: initial_momentum,
            final_momentum,
            momentum_switch_epoch,
            stop_lying_epoch,
            early_exaggeration,
            initial_embedding,
            epoch_callback,
        } = config;
        let mut epoch_callback = epoch_callback;
        let n = data.len();
        let grad_entries = n * D;
        let zero: T = w_zero();

        let mut p_values = densify(&affinities, n, zero);
        normalize_p_values(&mut p_values, early_exaggeration);
        if stop_lying_epoch == 0 {
            stop_lying(&mut p_values, early_exaggeration);
        }

        let mut y: Vec<T> = match initial_embedding {
            Some(seed) => seed,
            None => {
                let mut fresh: Vec<T> = vec![zero; grad_entries];
                random_init(&mut fresh);
                fresh
            },
        };
        let ghost seeded = y@;
        let ghost initial_received = epoch_callback.received();
        let ghost mut log: Seq<(usize, Seq<T>)> = Seq::empty();

        let rate = match learning_rate {
            Some(rate) => rate,
            None => {
                let scaled = w_div(w_div(w_count(n), early_exaggeration), w_count(4));
                w_max(scaled, w_count(50))
            },
        };

        let mut dy: Vec<T> = vec![zero; grad_entries];
        let mut uy: Vec<T> = vec![zero; grad_entries];
        let mut gains: Vec<T> = vec![w_one(); grad_entries];
        let mut distances: Vec<T> = vec![zero; n * n];
        let mut momentum = initial_momentum;
        let mut stop_lying_fired = false;

        let mut epoch: usize = 0;
        while epoch < epochs
            invariant
                epoch <= epochs,
                y@.len() == grad_entries,
                dy@.len() == grad_entries,
                uy@.len() == grad_entries,
                gains@.len() == grad_entries,
                distances@.len() == n * n,
                p_values@.len() == n * n,
                grad_entries == n * D,
                n * D <= usize::MAX,
                n * n <= usize::MAX,
                epoch == 0 ==> y@ == seeded,
                log.len() == epoch,
                forall|k: int| 0 <= k < log.len() ==> {
                    &&& (#[trigger] log[k]).0 == k
                    &&& log[k].1.len() == grad_entries
                },
                epoch > 0 ==> log.last().1 == y@,
                epoch_callback.received() == initial_received + log,
            decreases epochs - epoch,
        {
            squared_distances(&y, n, D, &mut distances);
            let (q_values, q_sum) = student_t(&distances);
            let inverse_q_sum = w_recip(q_sum);
            exact_gradient(&p_values, &q_values, inverse_q_sum, &y, &mut dy, n, D);
            update_solution(&mut y, &dy, &mut uy, &mut gains, rate, momentum);
            dy = vec![zero; grad_entries];
            zero_mean(&mut y, n, D);

            if epoch == stop_lying_epoch && epoch != 0 && !stop_lying_fired {
                stop_lying(&mut p_values, early_exaggeration);
                stop_lying_fired = true;
            }
            if epoch == momentum_switch_epoch {
                momentum = final_momentum;
            }
            epoch_callback.on_epoch(epoch, y.as_slice());
            proof {
                log = log.push((epoch, y@));
                assert(epoch_callback.received() == initial_received + log);
            }
            epoch = epoch + 1;
        }

        let (kl_divergence, kl_inputs) = evaluate_error(&p_values, &y, n, D);
        FittedExact {
            embedding: y,
            kl_divergence,
            affinities,
            epoch_log: Ghost(log),
            callback_received: Ghost(epoch_callback.received()),
            final_affinities: Ghost(p_values@),
            kl_inputs,
        }
    }
}

impl<T> FittedExact<T> {
    /// The epochs of the fit, each with the embedding the callback was given at its end.
    pub closed spec fn spec_epoch_log(&self) -> Seq<(usize, Seq<T>)> {
        self.epoch_log@
    }

    /// The dense `n * n` affinity matrix as it stood when the last epoch ended.
    pub closed spec fn spec_final_affinities(&self) -> Seq<T> {
        self.final_affinities@
    }

    /// The affinity matrix the reported divergence was evaluated on.
    pub closed spec fn spec_kl_affinities(&self) -> Seq<T> {
        self.kl_inputs@.0
    }

    /// The embedding the reported divergence was evaluated on.
    pub closed spec fn spec_kl_embedding(&self) -> Seq<T> {
        self.kl_inputs@.1
    }

    /// Every call the epoch callback had received when the fit ended.
    pub closed spec fn spec_callback_received(&self) -> Seq<(usize, Seq<T>)> {
        self.callback_received@
    }

    /// The embedding.
    pub closed spec fn spec_embedding(&self) -> Seq<T> {
        self.embedding@
    }

    /// The Kullback-Leibler divergence.
    pub closed spec fn spec_kl_divergence(&self) -> T {
        self.kl_divergence
    }

    /// The affinity graph of the fit.
    pub closed spec fn spec_affinities(&self) -> Affinities<T> {
        self.affinities
    }

    /// The final embedding, row-major, `n_samples * D` values.
    pub fn embedding(&self) -> (e: &[T])
        ensures
            e@ == self.spec_embedding(),
    {
        self.embedding.as_slice()
    }

    /// The final Kullback-Leibler divergence.
    pub fn kl_divergence(&self) -> (kl: T)
        where
            T: Copy,
        ensures
            kl == self.spec_kl_divergence(),
    {
        self.kl_divergence
    }

    /// The affinity graph used for the fit.
    pub fn affinities(&self) -> (a: &Affinities<T>)
        ensures
            *a == self.spec_affinities(),
    {
        &self.affinities
    }
}

} // verus!
