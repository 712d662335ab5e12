//! Type-state builders for t-SNE fitting.
//!
//! [`TsneBuilder::new`] configures the fit, [`TsneBuilder::with_affinities`] injects the
//! affinity graph and moves to [`TsneReady`], which picks the repulsion strategy.

use num_traits::Float;
use vstd::prelude::*;

use crate::affinities::Affinities;
use crate::weight::{w_div, w_count, w_one};

mod descent;
pub mod exact;

pub use exact::{ExactBuilder, FittedExact};

verus! {

/// Receives the epoch index and the current embedding at the end of each fitting epoch.
pub trait EpochCallback<T> {
    /// The calls received so far, each as the epoch index and the embedding it was given.
    spec fn received(&self) -> Seq<(usize, Seq<T>)>;

    /// Called once per epoch, in order, from the fitting thread.
    fn on_epoch(&mut self, epoch: usize, embedding: &[T])
        ensures
            final(self).received() == old(self).received().push((epoch, embedding@)),
    ;
}

/// The callback of a builder that was given none: it does nothing but keep count.
pub struct NoCallback<T> {
    received: Ghost<Seq<(usize, Seq<T>)>>,
}

impl<T> NoCallback<T> {
    /// A callback that has received nothing yet.
    pub fn new() -> (c: Self)
        ensures
            c.received() == Seq::<(usize, Seq<T>)>::empty(),
    {
        NoCallback { received: Ghost(Seq::empty()) }
    }
}

impl<T> EpochCallback<T> for NoCallback<T> {
    closed spec fn received(&self) -> Seq<(usize, Seq<T>)> {
        self.received@
    }

    fn on_epoch(&mut self, epoch: usize, embedding: &[T]) {
        self.received = Ghost(self.received@.push((epoch, embedding@)));
    }
}

/// A closure used as the epoch callback.
pub struct CallbackFn<T, F> {
    closure: F,
    received: Ghost<Seq<(usize, Seq<T>)>>,
}

impl<T, F> CallbackFn<T, F> {
    /// The closure.
    pub closed spec fn spec_closure(&self) -> F {
        self.closure
    }

    /// Wraps `closure`; it has received nothing yet.
    pub fn new(closure: F) -> (c: Self)
        ensures
            c.spec_closure() == closure,
            c.spec_received() == Seq::<(usize, Seq<T>)>::empty(),
    {
        CallbackFn { closure, received: Ghost(Seq::empty()) }
    }

    /// The calls received so far.
    pub closed spec fn spec_received(&self) -> Seq<(usize, Seq<T>)> {
        self.received@
    }
}

impl<T, F: FnMut(usize, &[T])> EpochCallback<T> for CallbackFn<T, F> {
    open spec fn received(&self) -> Seq<(usize, Seq<T>)> {
        self.spec_received()
    }

    fn on_epoch(&mut self, epoch: usize, embedding: &[T]) {
        call_closure(&mut self.closure, epoch, embedding);
        self.received = Ghost(self.received@.push((epoch, embedding@)));
    }
}

/// `FnMut::call_mut` of the caller's closure, with the epoch and the embedding. Nothing is
/// stated of what the closure does.
#[verifier::external_body]
fn call_closure<T, F: FnMut(usize, &[T])>(f: &mut F, epoch: usize, embedding: &[T]) {
    f(epoch, embedding)
}

/// The fit settings, kept across the builder states.
pub(crate) struct FitConfig<'d, T, U, C> {
    pub(crate) data: &'d [U],
    pub(crate) learning_rate: Option<T>,
    pub(crate) epochs: usize,
    pub(crate) momentum: T,
    pub(crate) final_momentum: T,
    pub(crate) momentum_switch_epoch: usize,
    pub(crate) stop_lying_epoch: usize,
    pub(crate) early_exaggeration: T,
    pub(crate) initial_embedding: Option<Vec<T>>,
    pub(crate) epoch_callback: C,
}

/// The settings as values: learning rate (`None` for the size-scaled default), epochs,
/// momentum, final momentum, momentum switch epoch, stop-lying epoch, early exaggeration and
/// initial embedding.
pub type Settings<T> = (Option<T>, nat, T, T, nat, nat, T, Option<Seq<T>>);

impl<'d, T, U, C> FitConfig<'d, T, U, C> {
    pub(crate) open spec fn settings(&self) -> Settings<T> {
        (
            self.learning_rate,
            self.epochs as nat,
            self.momentum,
            self.final_momentum,
            self.momentum_switch_epoch as nat,
            self.stop_lying_epoch as nat,
            self.early_exaggeration,
            match self.initial_embedding {
                Some(v) => Some(v@),
                None => None,
            },
        )
    }
}

/// Type-state builder for the t-SNE fit configuration, over data points of type `U` and an
/// embedding of dimension `D`.
pub struct TsneBuilder<'d, T, U, const D: usize, C = NoCallback<T>> {
    config: FitConfig<'d, T, U, C>,
}

/// Affinity-loaded state: no more settings, only the strategy to choose.
pub struct TsneReady<'d, T, U, const D: usize, C = NoCallback<T>> {
    config: FitConfig<'d, T, U, C>,
    affinities: Affinities<T>,
}

impl<'d, T, U, const D: usize, C> TsneBuilder<'d, T, U, D, C> {
    /// The settings so far.
    pub closed spec fn settings(&self) -> Settings<T> {
        self.config.settings()
    }

    /// Number of data points.
    pub closed spec fn spec_n_data(&self) -> nat {
        self.config.data@.len()
    }

    /// The epoch callback.
    pub closed spec fn spec_callback(&self) -> C {
        self.config.epoch_callback
    }
}

impl<'d, T, U, const D: usize, C> TsneReady<'d, T, U, D, C> {
    /// The fit settings.
    pub closed spec fn settings(&self) -> Settings<T> {
        self.config.settings()
    }

    /// Number of data points.
    pub closed spec fn spec_n_data(&self) -> nat {
        self.config.data@.len()
    }

    /// The injected affinity graph.
    pub closed spec fn spec_affinities(&self) -> Affinities<T> {
        self.affinities
    }

    /// The epoch callback.
    pub closed spec fn spec_callback(&self) -> C {
        self.config.epoch_callback
    }
}

impl<'d, T: Float, U, const D: usize> TsneBuilder<'d, T, U, D, NoCallback<T>> {
    /// Creates a t-SNE fit builder for `data`. Defaults: learning rate size-scaled
    /// (`max(n / early_exaggeration / 4, 50)`), 1000 epochs, momentum `1 / 2`, final momentum
    /// `8 / 10`, momentum switch and stop-lying at epoch 250, early exaggeration 12, no initial
    /// embedding, no callback.
    pub fn new(data: &'d [U]) -> (b: Self)
        ensures
            b.spec_n_data() == data@.len(),
            b.settings().0 is None,
            b.settings().1 == 1000,
            b.settings().4 == 250,
            b.settings().5 == 250,
            b.settings().7 is None,
            b.spec_callback().received() == Seq::<(usize, Seq<T>)>::empty(),
    {
        TsneBuilder {
            config: FitConfig {
                data,
                learning_rate: None,
                epochs: 1000,
                momentum: w_div(w_one(), w_count(2)),
                final_momentum: w_div(w_count(8), w_count(10)),
                momentum_switch_epoch: 250,
                stop_lying_epoch: 250,
                early_exaggeration: w_count(12),
                initial_embedding: None,
                epoch_callback: NoCallback::new(),
            },
        }
    }
}

impl<'d, T, U, const D: usize, C> TsneBuilder<'d, T, U, D, C> {
    /// Sets an explicit learning rate, overriding the size-scaled default.
    pub fn learning_rate(self, learning_rate: T) -> (b: Self)
        ensures
            b.settings() == (Some(learning_rate), self.settings().1, self.settings().2, self.settings().3,
                self.settings().4, self.settings().5, self.settings().6, self.settings().7),
            b.spec_n_data() == self.spec_n_data(),
            b.spec_callback() == self.spec_callback(),
    {
        let mut config = self.config;
        config.learning_rate = Some(learning_rate);
        TsneBuilder { config }
    }

    /// Sets the number of fitting epochs.
    pub fn epochs(self, epochs: usize) -> (b: Self)
        ensures
            b.settings() == (self.settings().0, epochs as nat, self.settings().2, self.settings().3,
                self.settings().4, self.settings().5, self.settings().6, self.settings().7),
            b.spec_n_data() == self.spec_n_data(),
            b.spec_callback() == self.spec_callback(),
    {
        let mut config = self.config;
        config.epochs = epochs;
        TsneBuilder { config }
    }

    /// Sets the initial momentum coefficient.
    pub fn momentum(self, momentum: T) -> (b: Self)
        ensures
            b.settings() == (self.settings().0, self.settings().1, momentum, self.settings().3,
                self.settings().4, self.settings().5, self.settings().6, self.settings().7),
            b.spec_n_data() == self.spec_n_data(),
            b.spec_callback() == self.spec_callback(),
    {
        let mut config = self.config;
        config.momentum = momentum;
        TsneBuilder { config }
    }

    /// Sets the momentum used after the momentum switch epoch.
    pub fn final_momentum(self, final_momentum: T) -> (b: Self)
        ensures
            b.settings() == (self.settings().0, self.settings().1, self.settings().2, final_momentum,
                self.settings().4, self.settings().5, self.settings().6, self.settings().7),
            b.spec_n_data() == self.spec_n_data(),
            b.spec_callback() == self.spec_callback(),
    {
        let mut config = self.config;
        config.final_momentum = final_momentum;
        TsneBuilder { config }
    }

    /// Sets the epoch at the end of which momentum switches to the final momentum.
    pub fn momentum_switch_epoch(self, momentum_switch_epoch: usize) -> (b: Self)
        ensures
            b.settings() == (self.settings().0, self.settings().1, self.settings().2, self.settings().3,
                momentum_switch_epoch as nat, self.settings().5, self.settings().6, self.settings().7),
            b.spec_n_data() == self.spec_n_data(),
            b.spec_callback() == self.spec_callback(),
    {
        let mut config = self.config;
        config.momentum_switch_epoch = momentum_switch_epoch;
        TsneBuilder { config }
    }

    /// Sets the epoch at the end of which the affinities stop being exaggerated. Before it,
    /// the affinities are multiplied by the early exaggeration; `0` disables exaggeration.
    pub fn stop_lying_epoch(self, stop_lying_epoch: usize) -> (b: Self)
        ensures
            b.settings() == (self.settings().0, self.settings().1, self.settings().2, self.settings().3,
                self.settings().4, stop_lying_epoch as nat, self.settings().6, self.settings().7),
            b.spec_n_data() == self.spec_n_data(),
            b.spec_callback() == self.spec_callback(),
    {
        let mut config = self.config;
        config.stop_lying_epoch = stop_lying_epoch;
        TsneBuilder { config }
    }

    /// Sets the early exaggeration factor applied to the affinities during the first epochs.
    pub fn early_exaggeration(self, early_exaggeration: T) -> (b: Self)
        ensures
            b.settings() == (self.settings().0, self.settings().1, self.settings().2, self.settings().3,
                self.settings().4, self.settings().5, early_exaggeration, self.settings().7),
            b.spec_n_data() == self.spec_n_data(),
            b.spec_callback() == self.spec_callback(),
    {
        let mut config = self.config;
        config.early_exaggeration = early_exaggeration;
        TsneBuilder { config }
    }

    /// Seeds the embedding with the given coordinates instead of a random initialization. The
    /// seed must have length `n_samples * D` when the fit runs.
    pub fn initial_embedding(self, embedding: Vec<T>) -> (b: Self)
        ensures
            b.settings() == (self.settings().0, self.settings().1, self.settings().2, self.settings().3,
                self.settings().4, self.settings().5, self.settings().6, Some(embedding@)),
            b.spec_n_data() == self.spec_n_data(),
            b.spec_callback() == self.spec_callback(),
    {
        let mut config = self.config;
        config.initial_embedding = Some(embedding);
        TsneBuilder { config }
    }

    /// Sets the callback invoked at the end of each fitting epoch with the epoch index and the
    /// current embedding.
    pub fn epoch_callback<F: FnMut(usize, &[T])>(self, callback: F) -> (b: TsneBuilder<'d, T, U, D, CallbackFn<T, F>>)
        ensures
            b.settings() == self.settings(),
            b.spec_n_data() == self.spec_n_data(),
            b.spec_callback().spec_closure() == callback,
            b.spec_callback().spec_received() == Seq::<(usize, Seq<T>)>::empty(),
    {
        let FitConfig {
            data,
            learning_rate,
            epochs,
            momentum,
            final_momentum,
            momentum_switch_epoch,
            stop_lying_epoch,
            early_exaggeration,
            initial_embedding,
            epoch_callback: _,
        } = self.config;
        TsneBuilder {
            config: FitConfig {
                data,
                learning_rate,
                epochs,
                momentum,
                final_momentum,
                momentum_switch_epoch,
                stop_lying_epoch,
                early_exaggeration,
                initial_embedding,
                epoch_callback: CallbackFn::new(callback),
            },
        }
    }

    /// Injects the affinity graph and moves to [`TsneReady`].
    pub fn with_affinities(self, affinities: Affinities<T>) -> (r: TsneReady<'d, T, U, D, C>)
        ensures
            r.settings() == self.settings(),
            r.spec_n_data() == self.spec_n_data(),
            r.spec_affinities() == affinities,
            r.spec_callback() == self.spec_callback(),
    {
        TsneReady { config: self.config, affinities }
    }
}

impl<'d, T, U, const D: usize, C> TsneReady<'d, T, U, D, C> {
    /// Moves to the exact t-SNE builder.
    pub fn exact(self) -> (b: ExactBuilder<'d, T, U, D, C>)
        ensures
            b.settings() == self.settings(),
            b.spec_n_data() == self.spec_n_data(),
            b.spec_affinities() == self.spec_affinities(),
            b.spec_callback() == self.spec_callback(),
    {
        ExactBuilder::from_parts(self.config, self.affinities)
    }
}

} // verus!
