use std::cell::RefCell;
use std::rc::Rc;

use bhtsne::{Affinities, AffinitiesBuilder, TsneBuilder};

const NO_DIMS: usize = 2;

/// Deterministic pseudo random samples. LCG seeded on `state` so tests are reproducible.
fn lcg_samples(n: usize, dim: usize, mut state: u64) -> Vec<f32> {
    let mut data = Vec::with_capacity(n * dim);
    for _ in 0..n * dim {
        state = state
            .wrapping_mul(6364136223846793005)
            .wrapping_add(1442695040888963407);
        data.push(((state >> 33) as f32 / u32::MAX as f32) - 0.5);
    }
    data
}

/// Mean euclidean distance between corresponding points of two embeddings.
fn mean_point_distance(a: &[f32], b: &[f32], dim: usize) -> f32 {
    assert_eq!(a.len(), b.len());
    let n = a.len() / dim;
    a.chunks_exact(dim)
        .zip(b.chunks_exact(dim))
        .map(|(p, q)| {
            p.iter()
                .zip(q.iter())
                .map(|(x, y)| (x - y).powi(2))
                .sum::<f32>()
                .sqrt()
        })
        .sum::<f32>()
        / n as f32
}

/// Diagonal of the bounding box of an embedding.
fn bounding_box_diagonal(points: &[f32], dim: usize) -> f32 {
    (0..dim)
        .map(|d| {
            let component = points.iter().skip(d).step_by(dim);
            let min = component.clone().fold(f32::MAX, |a, &b| a.min(b));
            let max = component.fold(f32::MIN, |a, &b| a.max(b));
            (max - min).powi(2)
        })
        .sum::<f32>()
        .sqrt()
}

/// A graph over `n` samples in two rings of `n / 2`, each sample joined to its next two
/// neighbours on its ring, and one bridge between the rings.
fn two_ring_graph(n: usize) -> Affinities<f32> {
    let half = n / 2;
    let mut edges = Vec::new();
    for ring in 0..2 {
        let base = ring * half;
        for i in 0..half {
            edges.push((base + i, base + (i + 1) % half));
            edges.push((base + i, base + (i + 2) % half));
        }
    }
    edges.push((0, half));
    Affinities::from_edges(n, edges)
}

/// Runs a short exact fit from a fixed seed and returns the embedding snapshot at the end of
/// epoch `capture`. `configure` sets the knob under test on the builder.
fn exact_snapshot_at<F>(capture: usize, configure: F) -> Vec<f32>
where
    F: for<'a> FnOnce(TsneBuilder<'a, f32, &'a [f32], 2>) -> TsneBuilder<'a, f32, &'a [f32], 2>,
{
    const N: usize = 60;
    const DIM: usize = 4;

    let data = lcg_samples(N, DIM, 7);
    let samples: Vec<&[f32]> = data.chunks(DIM).collect();
    let seed = lcg_samples(N, NO_DIMS, 99);

    let mut snapshot: Vec<f32> = Vec::new();
    {
        let affinities = two_ring_graph(N);
        let builder = TsneBuilder::<f32, &[f32], 2>::new(&samples)
            .epochs(capture + 1)
            .initial_embedding(seed.clone());
        let builder = configure(builder);
        builder
            .epoch_callback(|epoch, current: &[f32]| {
                if epoch == capture {
                    snapshot.extend_from_slice(current);
                }
            })
            .with_affinities(affinities)
            .exact()
            .fit();
    }
    snapshot
}

#[test]
fn kl_divergence_after_exact_is_finite_and_nonnegative() {
    const N: usize = 60;
    const DIM: usize = 4;
    let data = lcg_samples(N, DIM, 7);
    let samples: Vec<&[f32]> = data.chunks(DIM).collect();

    let affinities = two_ring_graph(N);
    let fitted = TsneBuilder::<f32, &[f32], 2>::new(&samples)
        .epochs(100)
        .with_affinities(affinities)
        .exact()
        .fit();

    let kl = fitted.kl_divergence();
    assert!(kl.is_finite() && kl >= 0.0, "{kl}");
}

/// The epoch callback is invoked once per epoch, in order, and the final snapshot matches the
/// embedding the fit returns.
#[test]
fn epoch_callback_reports_each_exact_epoch() {
    const N: usize = 60;
    const DIM: usize = 4;
    const RUN_EPOCHS: usize = 50;

    let data = lcg_samples(N, DIM, 7);
    let samples: Vec<&[f32]> = data.chunks(DIM).collect();

    let mut epochs_seen: Vec<usize> = Vec::new();
    let mut last_snapshot: Vec<f32> = Vec::new();

    let embedding = {
        let affinities = two_ring_graph(N);
        let fitted = TsneBuilder::<f32, &[f32], 2>::new(&samples)
            .epochs(RUN_EPOCHS)
            .epoch_callback(|epoch, snapshot: &[f32]| {
                assert_eq!(snapshot.len(), N * NO_DIMS);
                epochs_seen.push(epoch);
                last_snapshot.clear();
                last_snapshot.extend_from_slice(snapshot);
            })
            .with_affinities(affinities)
            .exact()
            .fit();
        fitted.embedding().to_vec()
    };

    assert_eq!(epochs_seen, (0..RUN_EPOCHS).collect::<Vec<usize>>());
    assert_eq!(last_snapshot, embedding);
}

/// The epoch callback is invoked only on the fitting thread, so it need not be `Send` or `Sync`.
#[test]
fn epoch_callback_accepts_non_send_closure() {
    const N: usize = 40;
    const DIM: usize = 4;
    const RUN_EPOCHS: usize = 10;

    let data = lcg_samples(N, DIM, 7);
    let samples: Vec<&[f32]> = data.chunks(DIM).collect();

    let epochs_seen = Rc::new(RefCell::new(Vec::<usize>::new()));
    let sink = Rc::clone(&epochs_seen);

    let affinities = two_ring_graph(N);
    TsneBuilder::<f32, &[f32], 2>::new(&samples)
        .epochs(RUN_EPOCHS)
        .epoch_callback(move |epoch, _snapshot: &[f32]| {
            sink.borrow_mut().push(epoch);
        })
        .with_affinities(affinities)
        .exact()
        .fit();

    assert_eq!(*epochs_seen.borrow(), (0..RUN_EPOCHS).collect::<Vec<usize>>());
}

/// The warm start begins from the supplied embedding: the first epoch stays close to the seed,
/// far closer than a random init near the origin would.
#[test]
fn warm_start_begins_from_initial_embedding_exact() {
    const N: usize = 60;
    const DIM: usize = 4;

    let data = lcg_samples(N, DIM, 7);
    let samples: Vec<&[f32]> = data.chunks(DIM).collect();

    let seed = {
        let fitted = TsneBuilder::<f32, &[f32], 2>::new(&samples)
            .epochs(300)
            .with_affinities(two_ring_graph(N))
            .exact()
            .fit();
        fitted.embedding().to_vec()
    };

    let mut first_snapshot: Vec<f32> = Vec::new();
    TsneBuilder::<f32, &[f32], 2>::new(&samples)
        .epochs(5)
        .stop_lying_epoch(0)
        .momentum_switch_epoch(0)
        .initial_embedding(seed.clone())
        .epoch_callback(|epoch, snapshot: &[f32]| {
            if epoch == 0 {
                first_snapshot.extend_from_slice(snapshot);
            }
        })
        .with_affinities(two_ring_graph(N))
        .exact()
        .fit();

    let displacement = mean_point_distance(&first_snapshot, &seed, NO_DIMS);
    let diagonal = bounding_box_diagonal(&seed, NO_DIMS);
    assert!(
        displacement < 0.05 * diagonal,
        "first epoch strayed {displacement} from the seed, its bounding box diagonal is {diagonal}"
    );

    let origin = vec![0.0_f32; seed.len()];
    let random_displacement = mean_point_distance(&origin, &seed, NO_DIMS);
    assert!(
        random_displacement > 10.0 * displacement,
        "warm start indistinguishable from a random initialization: {displacement} against {random_displacement}"
    );
}

/// A `stop_lying_epoch` of zero disables the early exaggeration factor.
#[test]
fn stop_lying_epoch_zero_skips_exaggeration_exact() {
    const N: usize = 60;
    const DIM: usize = 4;

    let data = lcg_samples(N, DIM, 7);
    let samples: Vec<&[f32]> = data.chunks(DIM).collect();

    let seed = {
        let fitted = TsneBuilder::<f32, &[f32], 2>::new(&samples)
            .epochs(300)
            .with_affinities(two_ring_graph(N))
            .exact()
            .fit();
        fitted.embedding().to_vec()
    };

    let first_step = |stop_lying_epoch: usize| -> f32 {
        let mut first_snapshot: Vec<f32> = Vec::new();
        TsneBuilder::<f32, &[f32], 2>::new(&samples)
            .epochs(1)
            .stop_lying_epoch(stop_lying_epoch)
            .initial_embedding(seed.clone())
            .epoch_callback(|_epoch, snapshot: &[f32]| {
                first_snapshot.extend_from_slice(snapshot);
            })
            .with_affinities(two_ring_graph(N))
            .exact()
            .fit();
        mean_point_distance(&first_snapshot, &seed, NO_DIMS)
    };

    let exaggerated = first_step(1000);
    let truthful = first_step(0);
    assert!(
        truthful < exaggerated / 3.0,
        "first epoch still exaggerated: moved {truthful} against {exaggerated} with 12x P values"
    );
}

/// Setting the factor to its default `12.0` explicitly matches leaving it unset.
#[test]
fn early_exaggeration_explicit_twelve_matches_default() {
    let default_run = exact_snapshot_at(0, |builder| builder);
    let explicit_run = exact_snapshot_at(0, |builder| builder.early_exaggeration(12.0));

    let drift = mean_point_distance(&default_run, &explicit_run, NO_DIMS);
    let diagonal = bounding_box_diagonal(&default_run, NO_DIMS);
    assert!(
        drift <= 1e-3 * diagonal + 1e-6,
        "explicit 12.0 strayed {drift} from the default, diagonal {diagonal}"
    );
}

/// Two fits differing only in `early_exaggeration` differ measurably after the first epoch.
#[test]
fn early_exaggeration_changes_early_embedding() {
    let strong = exact_snapshot_at(0, |builder| builder.early_exaggeration(12.0));
    let weak = exact_snapshot_at(0, |builder| builder.early_exaggeration(4.0));

    let difference = mean_point_distance(&strong, &weak, NO_DIMS);
    let diagonal = bounding_box_diagonal(&strong, NO_DIMS);
    assert!(
        difference > 0.05 * diagonal,
        "exaggeration 12.0 against 4.0 barely moved the first epoch: {difference} against diagonal {diagonal}"
    );
}

/// `early_exaggeration(1.0)` matches `stop_lying_epoch(0)`: both leave the affinities
/// unexaggerated.
#[test]
fn early_exaggeration_one_matches_stop_lying_zero() {
    let no_exaggeration = exact_snapshot_at(0, |builder| builder.early_exaggeration(1.0));
    let lying_disabled = exact_snapshot_at(0, |builder| builder.stop_lying_epoch(0));

    let drift = mean_point_distance(&no_exaggeration, &lying_disabled, NO_DIMS);
    let diagonal = bounding_box_diagonal(&no_exaggeration, NO_DIMS);
    assert!(
        drift <= 1e-3 * diagonal + 1e-6,
        "the two no-exaggeration paths diverged: {drift} against diagonal {diagonal}"
    );
}

/// With no epochs, the fit returns the seed unchanged and the affinity graph it was given.
#[test]
fn exact_fit_without_epochs_returns_the_seed() {
    const N: usize = 10;
    let data = lcg_samples(N, 3, 5);
    let samples: Vec<&[f32]> = data.chunks(3).collect();
    let seed = lcg_samples(N, NO_DIMS, 11);
    let affinities = two_ring_graph(N);
    let fitted = TsneBuilder::<f32, &[f32], 2>::new(&samples)
        .epochs(0)
        .initial_embedding(seed.clone())
        .with_affinities(affinities.clone())
        .exact()
        .fit();
    assert_eq!(fitted.embedding(), &seed[..]);
    assert_eq!(fitted.affinities().rows(), affinities.rows());
    assert_eq!(fitted.affinities().columns(), affinities.columns());
    assert_eq!(fitted.affinities().values(), affinities.values());
}

/// A fit from a random start, in three dimensions, returns `n * 3` finite coordinates.
#[test]
fn exact_fit_from_random_start_has_embedding_shape() {
    const N: usize = 12;
    let data = lcg_samples(N, 3, 5);
    let samples: Vec<&[f32]> = data.chunks(3).collect();
    let fitted = TsneBuilder::<f32, &[f32], 3>::new(&samples)
        .epochs(20)
        .learning_rate(100.0)
        .momentum(0.4)
        .final_momentum(0.7)
        .with_affinities(two_ring_graph(N))
        .exact()
        .fit();
    assert_eq!(fitted.embedding().len(), N * 3);
    assert!(fitted.embedding().iter().all(|v| v.is_finite()));
    assert!(fitted.embedding().iter().any(|v| *v != 0.0));
}

/// The fit centers the embedding: after an epoch each coordinate averages to zero.
#[test]
fn exact_fit_recenters_the_embedding() {
    const N: usize = 10;
    let data = lcg_samples(N, 3, 5);
    let samples: Vec<&[f32]> = data.chunks(3).collect();
    let seed: Vec<f32> = lcg_samples(N, NO_DIMS, 3).iter().map(|v| v + 5.0).collect();
    let fitted = TsneBuilder::<f32, &[f32], 2>::new(&samples)
        .epochs(1)
        .initial_embedding(seed)
        .with_affinities(two_ring_graph(N))
        .exact()
        .fit();
    for d in 0..NO_DIMS {
        let mean: f32 = fitted.embedding().iter().skip(d).step_by(NO_DIMS).sum::<f32>() / N as f32;
        assert!(mean.abs() < 1e-4, "coordinate {d} averages {mean}");
    }
}

/// A graph pooled by the builder feeds through `with_affinities` into an exact fit that
/// produces a finite embedding of the right shape.
#[test]
fn builder_end_to_end_fit_exact() {
    const N: usize = 20;
    let data = lcg_samples(N, 4, 17);
    let samples: Vec<&[f32]> = data.chunks(4).collect();
    let view_a = two_ring_graph(N);
    let view_b = Affinities::<f32>::from_edges(N, (0..N).map(|i| (i, (i + 5) % N)).collect());
    let pooled = AffinitiesBuilder::new(N)
        .add(0.5f32, &view_a)
        .unwrap()
        .add(0.5, &view_b)
        .unwrap()
        .build()
        .unwrap();
    let fitted = TsneBuilder::<f32, &[f32], 2>::new(&samples)
        .epochs(50)
        .with_affinities(pooled)
        .exact()
        .fit();
    assert_eq!(fitted.embedding().len(), N * 2);
    assert!(fitted.embedding().iter().all(|v| v.is_finite()));
}
