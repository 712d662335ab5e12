//! Pooling several affinity views into one symmetric [`Affinities`].
//!
//! [`add`](AffinitiesBuilder::add) registers a view over all the builder's samples;
//! [`add_over`](AffinitiesBuilder::add_over) registers a view over a subset, whose k-th
//! local sample is the global sample `subset[k]`. Both pools then take, for each global
//! sample, the rows of the views that cover it, weigh them, fold them into one row and make
//! the result symmetric.

use num_traits::Float;
use vstd::prelude::*;

use crate::affinities::pairs::{fold_pairs, has_key, keys_sorted, sort_pairs};
use crate::affinities::symmetrize::{joined, normalize_p_values, symmetrize_csr};
use crate::affinities::{canonical_csr, lemma_rows_kept, row_columns, sorted_offsets, strictly_increasing, Affinities};
use crate::error::AffinitiesBuilderError;
use crate::weight::{w_add, w_div, w_exp, w_count, w_le, w_lt, w_mul, w_neg_infinity, w_one, w_recip, w_sub, w_zero};

verus! {

/// One registered view: its weight, its subset (`None` for all samples in identity order) and
/// the graph itself.
struct BuilderView<'a, T> {
    weight: T,
    subset: Option<Vec<usize>>,
    view: &'a Affinities<T>,
}

/// Builder for pooling several affinity views into a single symmetric [`Affinities`].
pub struct AffinitiesBuilder<'a, T> {
    n_samples: usize,
    views: Vec<BuilderView<'a, T>>,
    tau: T,
}

/// No id occurs twice.
pub open spec fn distinct_ids(subset: Seq<usize>) -> bool {
    forall|a: int, b: int| 0 <= a < b < subset.len() ==> subset[a] != subset[b]
}

/// `id` occurs at least twice.
pub open spec fn repeated_id(subset: Seq<usize>, id: usize) -> bool {
    exists|a: int, b: int| 0 <= a < b < subset.len() && #[trigger] subset[a] == id && #[trigger] subset[b] == id
}

/// `a` is the first position holding an id out of range.
pub open spec fn is_first_out_of_range(subset: Seq<usize>, n: nat, a: int) -> bool {
    &&& 0 <= a < subset.len()
    &&& subset[a] >= n
    &&& forall|b: int| 0 <= b < a ==> #[trigger] subset[b] < n
}

/// `id` is the smallest repeated id.
pub open spec fn is_least_repeated(subset: Seq<usize>, id: usize) -> bool {
    &&& repeated_id(subset, id)
    &&& forall|other: usize| #[trigger] repeated_id(subset, other) ==> id <= other
}

/// The verdict on a subset-scoped view of `view_n` samples, once its weight has passed: its
/// size, then the first id out of range, then the smallest repeated id.
pub open spec fn subset_verdict(n: nat, view_n: nat, subset: Seq<usize>) -> Result<(), AffinitiesBuilderError> {
    if view_n != subset.len() {
        Err(AffinitiesBuilderError::SubsetSizeMismatch { view: view_n as usize, subset: subset.len() as usize })
    } else if exists|a: int| is_first_out_of_range(subset, n, a) {
        let a = choose|a: int| is_first_out_of_range(subset, n, a);
        Err(AffinitiesBuilderError::SubsetIdOutOfRange { id: subset[a], n_samples: n as usize })
    } else if exists|id: usize| repeated_id(subset, id) {
        let id = choose|id: usize| is_least_repeated(subset, id);
        Err(AffinitiesBuilderError::DuplicateSubsetId { id })
    } else {
        Ok(())
    }
}

/// Row `i` of a CSR graph holds strictly increasing columns.
pub open spec fn strictly_increasing_row(rows: Seq<usize>, columns: Seq<u32>, i: int) -> bool {
    strictly_increasing(row_columns(rows, columns, i))
}

/// The outcome of a fallible builder step, without the builder it returns.
pub open spec fn step_verdict<A>(r: Result<A, AffinitiesBuilderError>) -> Result<(), AffinitiesBuilderError> {
    match r {
        Ok(_) => Ok(()),
        Err(err) => Err(err),
    }
}

impl<'a, T> AffinitiesBuilder<'a, T> {
    /// Global sample count.
    pub closed spec fn spec_n_samples(&self) -> nat {
        self.n_samples as nat
    }

    /// Number of registered views.
    pub closed spec fn spec_views_len(&self) -> nat {
        self.views@.len()
    }

    /// The subset of view `m`, `None` when it covers every sample in identity order.
    pub closed spec fn view_subset(&self, m: int) -> Option<Seq<usize>> {
        match self.views@[m].subset {
            None => None,
            Some(sub) => Some(sub@),
        }
    }

    /// The graph of view `m`.
    pub closed spec fn view_graph(&self, m: int) -> Affinities<T> {
        *self.views@[m].view
    }

    /// The weight of view `m`.
    pub closed spec fn view_weight(&self, m: int) -> T {
        self.views@[m].weight
    }

    /// The softmax temperature of the agreement pool.
    pub closed spec fn spec_tau(&self) -> T {
        self.tau
    }

    /// Every view is consistent with the builder: a full view spans the builder's samples, a
    /// subset view spans its subset, whose ids are distinct and below the sample count.
    #[verifier::type_invariant]
    closed spec fn views_consistent(&self) -> bool {
        forall|m: int| 0 <= m < self.views@.len() ==> match #[trigger] self.views@[m].subset {
            None => self.views@[m].view.spec_n_samples() == self.n_samples,
            Some(sub) => {
                &&& self.views@[m].view.spec_n_samples() == sub@.len()
                &&& distinct_ids(sub@)
                &&& forall|a: int| 0 <= a < sub@.len() ==> #[trigger] sub@[a] < self.n_samples
            },
        }
    }

    /// View `m` places its local sample `l` at global sample `g`.
    pub open spec fn covers(&self, m: int, g: int, l: int) -> bool {
        match self.view_subset(m) {
            None => l == g && 0 <= g < self.spec_n_samples(),
            Some(sub) => 0 <= l < sub.len() && sub[l] == g,
        }
    }

    /// The global id of local column `c` of view `m`.
    pub open spec fn global_column(&self, m: int, c: u32) -> int {
        match self.view_subset(m) {
            None => c as int,
            Some(sub) => sub[c as int] as int,
        }
    }

    /// At global sample `g`, view `m` has an entry whose column is the global sample `c`.
    pub open spec fn offers(&self, m: int, g: int, c: u32) -> bool {
        exists|l: int, k: int| {
            &&& #[trigger] self.covers(m, g, l)
            &&& self.view_graph(m).spec_rows()[l] <= k < self.view_graph(m).spec_rows()[l + 1]
            &&& #[trigger] self.global_column(m, self.view_graph(m).spec_columns()[k]) == c as int
        }
    }

    /// Some view, at global sample `g`, has an entry whose column is the global sample `c`.
    pub open spec fn pool_offers(&self, g: int, c: u32) -> bool {
        exists|m: int| 0 <= m < self.spec_views_len() && #[trigger] self.offers(m, g, c)
    }

    /// In the pooled graph, `i` and `c` are joined in one direction or the other.
    pub open spec fn pool_joins(&self, i: int, c: u32) -> bool {
        ||| self.pool_offers(i, c)
        ||| (c < self.spec_n_samples() && self.pool_offers(c as int, i as u32))
    }

    /// View `m` has a non-empty row at global sample `g`.
    pub open spec fn nonempty_at(&self, m: int, g: int) -> bool {
        exists|l: int| #[trigger] self.covers(m, g, l)
            && self.view_graph(m).spec_rows()[l] < self.view_graph(m).spec_rows()[l + 1]
    }

    /// Fewer than three views have a non-empty row at global sample `g`.
    pub open spec fn few_views_at(&self, g: int) -> bool {
        forall|m1: int, m2: int, m3: int|
            0 <= m1 < m2 < m3 < self.spec_views_len() && #[trigger] self.nonempty_at(m1, g)
                && #[trigger] self.nonempty_at(m2, g) ==> !#[trigger] self.nonempty_at(m3, g)
    }

    /// No view covers global sample `g`.
    pub open spec fn uncovered(&self, g: int) -> bool {
        forall|m: int, l: int| 0 <= m < self.spec_views_len() ==> !#[trigger] self.covers(m, g, l)
    }

    /// A builder holding a single view over all samples, whose graph is a symmetric CSR graph
    /// in canonical form, pools exactly the pairs that graph joins.
    pub proof fn lemma_single_symmetric_view(&self, i: int, c: u32)
        requires
            self.spec_views_len() == 1,
            self.view_subset(0) is None,
            canonical_csr(
                self.spec_n_samples(),
                self.view_graph(0).spec_rows(),
                self.view_graph(0).spec_columns(),
                self.view_graph(0).spec_values().len(),
            ),
            forall|x: int, y: u32| 0 <= x < self.spec_n_samples() && (y as int) < self.spec_n_samples() ==>
                (#[trigger] row_columns(self.view_graph(0).spec_rows(), self.view_graph(0).spec_columns(), x).contains(y)
                    <==> row_columns(self.view_graph(0).spec_rows(), self.view_graph(0).spec_columns(), y as int).contains(x as u32)),
            self.spec_n_samples() <= u32::MAX,
            0 <= i < self.spec_n_samples(),
        ensures
            self.pool_joins(i, c) <==> row_columns(self.view_graph(0).spec_rows(), self.view_graph(0).spec_columns(), i).contains(c),
    {
        let rows = self.view_graph(0).spec_rows();
        let columns = self.view_graph(0).spec_columns();
        assert forall|g: int, d: u32| 0 <= g < self.spec_n_samples() implies
            (#[trigger] self.pool_offers(g, d) <==> row_columns(rows, columns, g).contains(d)) by {
            let row = row_columns(rows, columns, g);
            if self.pool_offers(g, d) {
                let m = choose|m: int| 0 <= m < self.spec_views_len() && #[trigger] self.offers(m, g, d);
                assert(m == 0);
                let (l, k) = choose|l: int, k: int| {
                    &&& #[trigger] self.covers(0, g, l)
                    &&& rows[l] <= k < rows[l + 1]
                    &&& #[trigger] self.global_column(0, columns[k]) == d as int
                };
                assert(l == g);
                assert(row[k - rows[g]] == columns[k]);
            }
            if row.contains(d) {
                let x = choose|x: int| 0 <= x < row.len() && row[x] == d;
                let k = rows[g] + x;
                assert(columns[k] == d);
                assert(self.covers(0, g, g));
                assert(self.global_column(0, columns[k]) == d as int);
                assert(self.offers(0, g, d));
            }
        }
        let row = row_columns(rows, columns, i);
        if row.contains(c) {
            let x = choose|x: int| 0 <= x < row.len() && row[x] == c;
            assert(columns[rows[i] + x] == c);
            assert(self.pool_offers(i, c));
        }
        if (c as int) < self.spec_n_samples() && self.pool_offers(c as int, i as u32) {
            assert(row_columns(rows, columns, c as int).contains(i as u32));
            assert(row.contains(c));
        }
    }

    /// Every registered graph has readable rows.
    pub open spec fn graphs_readable(&self) -> bool {
        forall|m: int| 0 <= m < self.spec_views_len() ==> #[trigger] self.view_graph(m).rows_in_bounds()
    }

    /// Global sample count the builder pools views over.
    pub fn n_samples(&self) -> (n: usize)
        ensures
            n == self.spec_n_samples(),
    {
        self.n_samples
    }

    /// Number of views registered so far.
    pub fn views_len(&self) -> (n: usize)
        ensures
            n == self.spec_views_len(),
    {
        self.views.len()
    }
}

impl<'a, T: Float> AffinitiesBuilder<'a, T> {
    /// Empty builder over `n_samples` global samples. The default `tau` for
    /// [`build`](AffinitiesBuilder::build) is `1 / 10`.
    pub fn new(n_samples: usize) -> (b: Self)
        ensures
            b.spec_n_samples() == n_samples,
            b.spec_views_len() == 0,
    {
        let tau: T = w_div(w_one(), w_count(10));
        AffinitiesBuilder { n_samples, views: Vec::new(), tau }
    }

    /// Sets the softmax temperature [`build`](AffinitiesBuilder::build) uses. Errors with
    /// `NonPositiveTau` when `tau <= 0`.
    pub fn tau(self, tau: T) -> (r: Result<Self, AffinitiesBuilderError>)
        ensures
            r matches Err(err) ==> err == AffinitiesBuilderError::NonPositiveTau,
            r matches Ok(b) ==> {
                &&& b.spec_tau() == tau
                &&& b.spec_n_samples() == self.spec_n_samples()
                &&& b.spec_views_len() == self.spec_views_len()
                &&& forall|m: int| 0 <= m < self.spec_views_len() ==> {
                    &&& #[trigger] b.view_subset(m) == self.view_subset(m)
                    &&& b.view_graph(m) == self.view_graph(m)
                    &&& b.view_weight(m) == self.view_weight(m)
                }
            },
    {
        if w_le(tau, w_zero()) {
            return Err(AffinitiesBuilderError::NonPositiveTau);
        }
        proof {
            use_type_invariant(&self);
        }
        let AffinitiesBuilder { n_samples, views, tau: _ } = self;
        Ok(AffinitiesBuilder { n_samples, views, tau })
    }

    /// Registers a view over all samples with weight `weight > 0`: errors with
    /// `NonPositiveWeight` when `weight <= 0`, then with `SampleCountMismatch` when the view
    /// does not span the builder's samples.
    pub fn add(self, weight: T, view: &'a Affinities<T>) -> (r: Result<Self, AffinitiesBuilderError>)
        ensures
            r matches Err(err) ==> {
                ||| err == AffinitiesBuilderError::NonPositiveWeight
                ||| (err == AffinitiesBuilderError::SampleCountMismatch {
                        view: view.spec_n_samples() as usize,
                        builder: self.spec_n_samples() as usize,
                    } && view.spec_n_samples() != self.spec_n_samples())
            },
            view.spec_n_samples() != self.spec_n_samples() ==> r is Err,
            r matches Ok(b) ==> {
                &&& b.spec_n_samples() == self.spec_n_samples()
                &&& b.spec_tau() == self.spec_tau()
                &&& b.spec_views_len() == self.spec_views_len() + 1
                &&& forall|m: int| 0 <= m < self.spec_views_len() ==> {
                    &&& #[trigger] b.view_subset(m) == self.view_subset(m)
                    &&& b.view_graph(m) == self.view_graph(m)
                    &&& b.view_weight(m) == self.view_weight(m)
                }
                &&& b.view_subset(self.spec_views_len() as int) is None
                &&& b.view_graph(self.spec_views_len() as int) == *view
                &&& b.view_weight(self.spec_views_len() as int) == weight
            },
    {
        if w_le(weight, w_zero()) {
            return Err(AffinitiesBuilderError::NonPositiveWeight);
        }
        if view.n_samples() != self.n_samples {
            return Err(AffinitiesBuilderError::SampleCountMismatch { view: view.n_samples(), builder: self.n_samples });
        }
        proof {
            use_type_invariant(&self);
        }
        let AffinitiesBuilder { n_samples, mut views, tau } = self;
        views.push(BuilderView { weight, subset: None, view });
        Ok(AffinitiesBuilder { n_samples, views, tau })
    }

    /// Registers a view over a subset; `subset[k]` is the global id of the view's k-th local
    /// sample. Errors, in this order: `NonPositiveWeight` when `weight <= 0`;
    /// `SubsetSizeMismatch` when the view does not span the subset; `SubsetIdOutOfRange` for
    /// the first id not below the sample count; `DuplicateSubsetId` for the smallest id that
    /// occurs twice.
    pub fn add_over(self, weight: T, subset: &[usize], view: &'a Affinities<T>)
        -> (r: Result<Self, AffinitiesBuilderError>)
        ensures
            r == Err::<Self, AffinitiesBuilderError>(AffinitiesBuilderError::NonPositiveWeight)
                || step_verdict(r) == subset_verdict(self.spec_n_samples(), view.spec_n_samples(), subset@),
            r matches Ok(b) ==> {
                &&& b.spec_n_samples() == self.spec_n_samples()
                &&& b.spec_tau() == self.spec_tau()
                &&& b.spec_views_len() == self.spec_views_len() + 1
                &&& forall|m: int| 0 <= m < self.spec_views_len() ==> {
                    &&& #[trigger] b.view_subset(m) == self.view_subset(m)
                    &&& b.view_graph(m) == self.view_graph(m)
                    &&& b.view_weight(m) == self.view_weight(m)
                }
                &&& b.view_subset(self.spec_views_len() as int) == Some(subset@)
                &&& b.view_graph(self.spec_views_len() as int) == *view
                &&& b.view_weight(self.spec_views_len() as int) == weight
            },
    {
        if w_le(weight, w_zero()) {
            return Err(AffinitiesBuilderError::NonPositiveWeight);
        }
        self.register_over(weight, subset, view)
    }

    /// [`add`](AffinitiesBuilder::add) with unit weight.
    pub fn add_uniform(self, view: &'a Affinities<T>) -> (r: Result<Self, AffinitiesBuilderError>)
        ensures
            r is Err <==> view.spec_n_samples() != self.spec_n_samples(),
            r matches Err(err) ==> err == (AffinitiesBuilderError::SampleCountMismatch {
                view: view.spec_n_samples() as usize,
                builder: self.spec_n_samples() as usize,
            }),
            r matches Ok(b) ==> {
                &&& b.spec_n_samples() == self.spec_n_samples()
                &&& b.spec_views_len() == self.spec_views_len() + 1
                &&& b.spec_tau() == self.spec_tau()
                &&& forall|m: int| 0 <= m < self.spec_views_len() ==> {
                    &&& #[trigger] b.view_subset(m) == self.view_subset(m)
                    &&& b.view_graph(m) == self.view_graph(m)
                    &&& b.view_weight(m) == self.view_weight(m)
                }
                &&& b.view_subset(self.spec_views_len() as int) is None
                &&& b.view_graph(self.spec_views_len() as int) == *view
            },
    {
        if view.n_samples() != self.n_samples {
            return Err(AffinitiesBuilderError::SampleCountMismatch { view: view.n_samples(), builder: self.n_samples });
        }
        proof {
            use_type_invariant(&self);
        }
        let AffinitiesBuilder { n_samples, mut views, tau } = self;
        views.push(BuilderView { weight: w_one(), subset: None, view });
        Ok(AffinitiesBuilder { n_samples, views, tau })
    }

    /// [`add_over`](AffinitiesBuilder::add_over) with unit weight.
    pub fn add_uniform_over(self, subset: &[usize], view: &'a Affinities<T>)
        -> (r: Result<Self, AffinitiesBuilderError>)
        ensures
            step_verdict(r) == subset_verdict(self.spec_n_samples(), view.spec_n_samples(), subset@),
            r matches Ok(b) ==> {
                &&& b.spec_n_samples() == self.spec_n_samples()
                &&& b.spec_views_len() == self.spec_views_len() + 1
                &&& b.spec_tau() == self.spec_tau()
                &&& forall|m: int| 0 <= m < self.spec_views_len() ==> {
                    &&& #[trigger] b.view_subset(m) == self.view_subset(m)
                    &&& b.view_graph(m) == self.view_graph(m)
                    &&& b.view_weight(m) == self.view_weight(m)
                }
                &&& b.view_subset(self.spec_views_len() as int) == Some(subset@)
                &&& b.view_graph(self.spec_views_len() as int) == *view
            },
    {
        self.register_over(w_one(), subset, view)
    }

    /// Registers a view over a subset with weight `weight`, once the subset has passed its
    /// checks: errors as [`check_subset`] does.
    fn register_over(self, weight: T, subset: &[usize], view: &'a Affinities<T>)
        -> (r: Result<Self, AffinitiesBuilderError>)
        ensures
            step_verdict(r) == subset_verdict(self.spec_n_samples(), view.spec_n_samples(), subset@),
            r matches Ok(b) ==> {
                &&& b.spec_n_samples() == self.spec_n_samples()
                &&& b.spec_tau() == self.spec_tau()
                &&& b.spec_views_len() == self.spec_views_len() + 1
                &&& forall|m: int| 0 <= m < self.spec_views_len() ==> {
                    &&& #[trigger] b.view_subset(m) == self.view_subset(m)
                    &&& b.view_graph(m) == self.view_graph(m)
                    &&& b.view_weight(m) == self.view_weight(m)
                }
                &&& b.view_subset(self.spec_views_len() as int) == Some(subset@)
                &&& b.view_graph(self.spec_views_len() as int) == *view
                &&& b.view_weight(self.spec_views_len() as int) == weight
            },
    {
        let verdict = check_subset(self.n_samples, view.n_samples(), subset);
        if let Err(err) = verdict {
            return Err(err);
        }
        proof {
            use_type_invariant(&self);
        }
        let mut owned: Vec<usize> = Vec::new();
        let mut k: usize = 0;
        while k < subset.len()
            invariant
                k <= subset@.len(),
                owned@ == subset@.subrange(0, k as int),
            decreases subset@.len() - k,
        {
            owned.push(subset[k]);
            k = k + 1;
        }
        assert(owned@ =~= subset@);
        let AffinitiesBuilder { n_samples, mut views, tau } = self;
        views.push(BuilderView { weight, subset: Some(owned), view });
        Ok(AffinitiesBuilder { n_samples, views, tau })
    }
}

/// At local sample `l`, view `m` has an entry whose column is the global sample `c`.
pub open spec fn offers_local<'a, T>(b: &AffinitiesBuilder<'a, T>, m: int, l: int, c: u32) -> bool {
    exists|k: int| {
        &&& b.view_graph(m).spec_rows()[l] <= k < b.view_graph(m).spec_rows()[l + 1]
        &&& #[trigger] b.global_column(m, b.view_graph(m).spec_columns()[k]) == c as int
    }
}

/// Each listed entry names a view and the local sample it places at global sample `g`.
pub open spec fn listed_valid<'a, T>(b: &AffinitiesBuilder<'a, T>, g: int, listed: Seq<(usize, usize, T)>) -> bool {
    forall|p: int| 0 <= p < listed.len() ==> {
        &&& (#[trigger] listed[p].0 as int) < b.spec_views_len()
        &&& b.covers(listed[p].0 as int, g, listed[p].1 as int)
    }
}

/// `present` lists, in increasing view order, each view whose row at global sample `g` is not
/// empty, with that row's local index.
pub open spec fn presence_list<'a, T>(b: &AffinitiesBuilder<'a, T>, g: int, present: Seq<(usize, usize)>) -> bool {
    &&& forall|p: int| 0 <= p < present.len() ==> {
        &&& (#[trigger] present[p].0 as int) < b.spec_views_len()
        &&& b.covers(present[p].0 as int, g, present[p].1 as int)
        &&& b.view_graph(present[p].0 as int).spec_rows()[present[p].1 as int]
            < b.view_graph(present[p].0 as int).spec_rows()[present[p].1 + 1]
    }
    &&& forall|p: int, q: int| 0 <= p < q < present.len() ==> present[p].0 < present[q].0
    &&& forall|m: int, l: int| 0 <= m < b.spec_views_len() && #[trigger] b.covers(m, g, l)
        && b.view_graph(m).spec_rows()[l] < b.view_graph(m).spec_rows()[l + 1]
        ==> exists|p: int| 0 <= p < present.len() && #[trigger] present[p].0 == m
}

impl<'a, T: Float> AffinitiesBuilder<'a, T> {
    /// A covering view places one local sample at a global sample.
    proof fn lemma_cover_unique(&self, m: int, g: int, l1: int, l2: int)
        requires
            self.views_consistent(),
            0 <= m < self.spec_views_len(),
            self.covers(m, g, l1),
            self.covers(m, g, l2),
        ensures
            l1 == l2,
    {
        if let Some(sub) = self.view_subset(m) {
            if l1 < l2 {
                assert(sub[l1] != sub[l2]);
            } else if l2 < l1 {
                assert(sub[l2] != sub[l1]);
            }
        }
    }

    /// A covered local sample is one of the view's samples.
    proof fn lemma_cover_local(&self, m: int, g: int, l: int)
        requires
            self.views_consistent(),
            0 <= m < self.spec_views_len(),
            self.covers(m, g, l),
        ensures
            0 <= l < self.view_graph(m).spec_n_samples(),
            0 <= g < self.spec_n_samples(),
    {
        let x = self.views@[m].subset;
        if let Some(sub) = self.view_subset(m) {
            assert(sub[l] < self.spec_n_samples());
        }
    }

    /// A sample that no view covers is joined to no sample: no view has a row there, and no
    /// view's column names it.
    proof fn lemma_uncovered_isolated(&self, g: int, c: u32)
        requires
            self.views_consistent(),
            self.graphs_readable(),
            0 <= g < self.spec_n_samples(),
            self.spec_n_samples() <= u32::MAX,
            self.uncovered(g),
        ensures
            !self.pool_joins(g, c),
    {
        if self.pool_offers(g, c) {
            let m = choose|m: int| 0 <= m < self.spec_views_len() && #[trigger] self.offers(m, g, c);
            let (l, k) = choose|l: int, k: int| {
                &&& #[trigger] self.covers(m, g, l)
                &&& self.view_graph(m).spec_rows()[l] <= k < self.view_graph(m).spec_rows()[l + 1]
                &&& #[trigger] self.global_column(m, self.view_graph(m).spec_columns()[k]) == c as int
            };
            assert(self.covers(m, g, l));
        }
        if c < self.spec_n_samples() && self.pool_offers(c as int, g as u32) {
            let m = choose|m: int| 0 <= m < self.spec_views_len() && #[trigger] self.offers(m, c as int, g as u32);
            let (l, k) = choose|l: int, k: int| {
                &&& #[trigger] self.covers(m, c as int, l)
                &&& self.view_graph(m).spec_rows()[l] <= k < self.view_graph(m).spec_rows()[l + 1]
                &&& #[trigger] self.global_column(m, self.view_graph(m).spec_columns()[k]) == g as u32 as int
            };
            self.lemma_cover_local(m, c as int, l);
            let rows = self.view_graph(m).spec_rows();
            assert(self.view_graph(m).rows_in_bounds());
            assert(rows[l] < rows[l + 1]);
            let col = self.view_graph(m).spec_columns()[k];
            assert((col as int) < self.view_graph(m).spec_n_samples());
            let x = self.views@[m].subset;
            assert(self.covers(m, g, col as int));
        }
    }

    /// In a pooled graph whose rows only join what the pool joins, every sample that no view
    /// covers has an empty row.
    proof fn lemma_uncovered_rows_empty(&self, a: Affinities<T>)
        requires
            self.views_consistent(),
            self.graphs_readable(),
            self.spec_n_samples() <= u32::MAX,
            canonical_csr(self.spec_n_samples(), a.spec_rows(), a.spec_columns(), a.spec_values().len()),
            forall|i: int, c: u32| 0 <= i < self.spec_n_samples() ==>
                (#[trigger] row_columns(a.spec_rows(), a.spec_columns(), i).contains(c) ==> self.pool_joins(i, c)),
        ensures
            forall|g: int| 0 <= g < self.spec_n_samples() && self.uncovered(g) ==>
                #[trigger] a.spec_rows()[g] == a.spec_rows()[g + 1],
    {
        assert forall|g: int| 0 <= g < self.spec_n_samples() && self.uncovered(g) implies
            #[trigger] a.spec_rows()[g] == a.spec_rows()[g + 1] by {
            let rows = a.spec_rows();
            if rows[g] < rows[g + 1] {
                let row = row_columns(rows, a.spec_columns(), g);
                assert(row[0] == a.spec_columns()[rows[g] as int]);
                assert(row.contains(row[0]));
                self.lemma_uncovered_isolated(g, row[0]);
            }
        }
    }

    /// The global id of a local column of a readable view lies below the sample count.
    proof fn lemma_global_column_in_range(&self, m: int, c: u32)
        requires
            self.views_consistent(),
            0 <= m < self.spec_views_len(),
            (c as int) < self.view_graph(m).spec_n_samples(),
        ensures
            0 <= self.global_column(m, c) < self.spec_n_samples(),
    {
        let x = self.views@[m].subset;
        if let Some(sub) = self.view_subset(m) {
            assert(sub[c as int] < self.spec_n_samples());
        }
    }

    /// The global id of local column `c` of view `m`.
    fn global_col(&self, m: usize, c: u32) -> (g: usize)
        requires
            m < self.spec_views_len(),
            (c as int) < self.view_graph(m as int).spec_n_samples(),
        ensures
            g == self.global_column(m as int, c),
    {
        proof {
            use_type_invariant(self);
        }
        match &self.views[m].subset {
            None => c as usize,
            Some(sub) => sub[c as usize],
        }
    }

    /// `entry` is the local index of global sample `g` in view `m`, or `None` when the view
    /// does not cover `g`.
    pub open spec fn map_entry_ok(&self, m: int, g: int, entry: Option<usize>) -> bool {
        match entry {
            Some(l) => self.covers(m, g, l as int),
            None => forall|l: int| !#[trigger] self.covers(m, g, l),
        }
    }

    /// For each view, the local index of each global sample it covers.
    fn local_indices(&self) -> (maps: Vec<Vec<Option<usize>>>)
        ensures
            maps@.len() == self.spec_views_len(),
            forall|m: int| 0 <= m < maps@.len() ==> (#[trigger] maps@[m])@.len() == self.spec_n_samples(),
            forall|m: int, g: int| 0 <= m < maps@.len() && 0 <= g < self.spec_n_samples() ==>
                self.map_entry_ok(m, g, #[trigger] maps@[m]@[g]),
    {
        proof {
            use_type_invariant(self);
        }
        let n = self.n_samples;
        let mut maps: Vec<Vec<Option<usize>>> = Vec::new();
        let mut m: usize = 0;
        while m < self.views.len()
            invariant
                m <= self.spec_views_len(),
                n == self.spec_n_samples(),
                maps@.len() == m,
                forall|q: int| 0 <= q < m ==> (#[trigger] maps@[q])@.len() == n,
                forall|q: int, g: int| 0 <= q < m && 0 <= g < n ==>
                    self.map_entry_ok(q, g, #[trigger] maps@[q]@[g]),
            decreases self.spec_views_len() - m,
        {
            proof {
                use_type_invariant(self);
            }
            let mut map: Vec<Option<usize>> = Vec::new();
            match &self.views[m].subset {
                None => {
                    let mut g: usize = 0;
                    while g < n
                        invariant
                            g <= n,
                            map@.len() == g,
                            forall|x: int| 0 <= x < g ==> #[trigger] map@[x] == Some(x as usize),
                        decreases n - g,
                    {
                        map.push(Some(g));
                        g = g + 1;
                    }
                    proof {
                        assert forall|g: int| 0 <= g < n implies
                            self.map_entry_ok(m as int, g, #[trigger] map@[g]) by {
                            assert(self.view_subset(m as int) is None);
                        }
                    }
                },
                Some(sub) => {
                    let mut g: usize = 0;
                    while g < n
                        invariant
                            g <= n,
                            map@.len() == g,
                            forall|x: int| 0 <= x < g ==> #[trigger] map@[x] is None,
                        decreases n - g,
                    {
                        map.push(None);
                        g = g + 1;
                    }
                    assert(self.view_subset(m as int) == Some(sub@));
                    let mut local: usize = 0;
                    while local < sub.len()
                        invariant
                            local <= sub@.len(),
                            map@.len() == n,
                            self.view_subset(m as int) == Some(sub@),
                            distinct_ids(sub@),
                            forall|a: int| 0 <= a < sub@.len() ==> #[trigger] sub@[a] < n,
                            forall|g: int| 0 <= g < n ==> match #[trigger] map@[g] {
                                Some(l) => (l as int) < local && sub@[l as int] == g,
                                None => forall|l: int| 0 <= l < local ==> sub@[l] != g,
                            },
                        decreases sub@.len() - local,
                    {
                        map.set(sub[local], Some(local));
                        local = local + 1;
                    }
                    proof {
                        assert forall|g: int| 0 <= g < n implies
                            self.map_entry_ok(m as int, g, #[trigger] map@[g]) by {
                        }
                    }
                },
            }
            maps.push(map);
            m = m + 1;
        }
        maps
    }

    /// Listing the present views with any weights gives exactly the columns the views offer.
    proof fn lemma_listed_offers(&self, g: int, present: Seq<(usize, usize)>, listed: Seq<(usize, usize, T)>)
        requires
            self.views_consistent(),
            presence_list(self, g, present),
            listed.len() == present.len(),
            forall|q: int| 0 <= q < listed.len() ==> (#[trigger] listed[q]).0 == present[q].0 && listed[q].1 == present[q].1,
        ensures
            forall|c: u32| (exists|q: int| 0 <= q < listed.len()
                && #[trigger] offers_local(self, listed[q].0 as int, listed[q].1 as int, c)) <==> self.pool_offers(g, c),
    {
        assert forall|c: u32| (exists|q: int| 0 <= q < listed.len()
            && #[trigger] offers_local(self, listed[q].0 as int, listed[q].1 as int, c)) <==> self.pool_offers(g, c) by {
            if exists|q: int| 0 <= q < listed.len() && #[trigger] offers_local(self, listed[q].0 as int, listed[q].1 as int, c) {
                let q = choose|q: int| 0 <= q < listed.len() && #[trigger] offers_local(self, listed[q].0 as int, listed[q].1 as int, c);
                let m = listed[q].0 as int;
                let l = listed[q].1 as int;
                assert(self.view_graph(present[q].0 as int).spec_rows()[present[q].1 as int]
                    < self.view_graph(present[q].0 as int).spec_rows()[present[q].1 + 1]);
                let k = choose|k: int| self.view_graph(m).spec_rows()[l] <= k < self.view_graph(m).spec_rows()[l + 1]
                    && #[trigger] self.global_column(m, self.view_graph(m).spec_columns()[k]) == c as int;
                assert(self.covers(m, g, l));
                assert(self.offers(m, g, c));
            }
            if self.pool_offers(g, c) {
                let m = choose|m: int| 0 <= m < self.spec_views_len() && #[trigger] self.offers(m, g, c);
                let (l, k) = choose|l: int, k: int| {
                    &&& #[trigger] self.covers(m, g, l)
                    &&& self.view_graph(m).spec_rows()[l] <= k < self.view_graph(m).spec_rows()[l + 1]
                    &&& #[trigger] self.global_column(m, self.view_graph(m).spec_columns()[k]) == c as int
                };
                let p = choose|p: int| 0 <= p < present.len() && #[trigger] present[p].0 == m;
                assert(self.view_graph(present[p].0 as int).spec_rows()[present[p].1 as int]
                    < self.view_graph(present[p].0 as int).spec_rows()[present[p].1 + 1]);
                self.lemma_cover_unique(m, g, l, present[p].1 as int);
                assert(offers_local(self, listed[p].0 as int, listed[p].1 as int, c));
            }
        }
    }

    /// With fewer than three views listed as non-empty at `g`, fewer than three are.
    proof fn lemma_few_present(&self, g: int, present: Seq<(usize, usize)>)
        requires
            presence_list(self, g, present),
            present.len() < 3,
        ensures
            self.few_views_at(g),
    {
        assert forall|m1: int, m2: int, m3: int|
            0 <= m1 < m2 < m3 < self.spec_views_len() && #[trigger] self.nonempty_at(m1, g)
                && #[trigger] self.nonempty_at(m2, g) implies !#[trigger] self.nonempty_at(m3, g) by {
            if self.nonempty_at(m3, g) {
                let l1 = choose|l: int| #[trigger] self.covers(m1, g, l)
                    && self.view_graph(m1).spec_rows()[l] < self.view_graph(m1).spec_rows()[l + 1];
                let l2 = choose|l: int| #[trigger] self.covers(m2, g, l)
                    && self.view_graph(m2).spec_rows()[l] < self.view_graph(m2).spec_rows()[l + 1];
                let l3 = choose|l: int| #[trigger] self.covers(m3, g, l)
                    && self.view_graph(m3).spec_rows()[l] < self.view_graph(m3).spec_rows()[l + 1];
                let p1 = choose|p: int| 0 <= p < present.len() && #[trigger] present[p].0 == m1;
                let p2 = choose|p: int| 0 <= p < present.len() && #[trigger] present[p].0 == m2;
                let p3 = choose|p: int| 0 <= p < present.len() && #[trigger] present[p].0 == m3;
                if p2 <= p1 {
                    if p2 < p1 {
                        assert(present[p2].0 < present[p1].0);
                    }
                }
                if p3 <= p2 {
                    if p3 < p2 {
                        assert(present[p3].0 < present[p2].0);
                    }
                }
                assert(p1 < p2 < p3);
            }
        }
    }

    /// With three or more views listed as non-empty at `g`, three views are.
    proof fn lemma_three_present(&self, g: int, present: Seq<(usize, usize)>)
        requires
            presence_list(self, g, present),
            present.len() >= 3,
        ensures
            !self.few_views_at(g),
    {
        let m1 = present[0].0 as int;
        let m2 = present[1].0 as int;
        let m3 = present[2].0 as int;
        assert(self.covers(m1, g, present[0].1 as int));
        assert(self.covers(m2, g, present[1].1 as int));
        assert(self.covers(m3, g, present[2].1 as int));
        assert(self.nonempty_at(m1, g));
        assert(self.nonempty_at(m2, g));
        assert(self.nonempty_at(m3, g));
        assert(m1 < m2 < m3);
    }

    /// The views whose row at global sample `g` is not empty, with their local index.
    fn present_views(&self, maps: &Vec<Vec<Option<usize>>>, g: usize) -> (present: Vec<(usize, usize)>)
        requires
            self.graphs_readable(),
            g < self.spec_n_samples(),
            maps@.len() == self.spec_views_len(),
            forall|m: int| 0 <= m < maps@.len() ==> (#[trigger] maps@[m])@.len() == self.spec_n_samples(),
            forall|m: int, x: int| 0 <= m < maps@.len() && 0 <= x < self.spec_n_samples() ==>
                self.map_entry_ok(m, x, #[trigger] maps@[m]@[x]),
        ensures
            presence_list(self, g as int, present@),
    {
        let mut present: Vec<(usize, usize)> = Vec::new();
        let mut m: usize = 0;
        while m < self.views.len()
            invariant
                m <= self.spec_views_len(),
                g < self.spec_n_samples(),
                self.graphs_readable(),
                maps@.len() == self.spec_views_len(),
                forall|q: int| 0 <= q < maps@.len() ==> (#[trigger] maps@[q])@.len() == self.spec_n_samples(),
                forall|q: int, x: int| 0 <= q < maps@.len() && 0 <= x < self.spec_n_samples() ==>
                    self.map_entry_ok(q, x, #[trigger] maps@[q]@[x]),
                forall|p: int| 0 <= p < present@.len() ==> {
                    &&& (#[trigger] present@[p].0 as int) < m
                    &&& self.covers(present@[p].0 as int, g as int, present@[p].1 as int)
                    &&& self.view_graph(present@[p].0 as int).spec_rows()[present@[p].1 as int]
                        < self.view_graph(present@[p].0 as int).spec_rows()[present@[p].1 + 1]
                },
                forall|p: int, q: int| 0 <= p < q < present@.len() ==> present@[p].0 < present@[q].0,
                forall|q: int, l: int| 0 <= q < m && #[trigger] self.covers(q, g as int, l)
                    && self.view_graph(q).spec_rows()[l] < self.view_graph(q).spec_rows()[l + 1]
                    ==> exists|p: int| 0 <= p < present@.len() && #[trigger] present@[p].0 == q,
            decreases self.spec_views_len() - m,
        {
            proof {
                use_type_invariant(self);
            }
            let ghost old_present = present@;
            assert(self.map_entry_ok(m as int, g as int, maps@[m as int]@[g as int]));
            if let Some(l) = maps[m][g] {
                let view = self.views[m].view;
                assert(view == self.view_graph(m as int));
                proof {
                    self.lemma_cover_local(m as int, g as int, l as int);
                }
                let vrows = view.rows();
                assert(vrows@.len() == view.spec_n_samples() + 1);
                if vrows[l] < vrows[l + 1] {
                    present.push((m, l));
                    proof {
                        assert(present@[present@.len() - 1].0 == m);
                    }
                } else {
                    proof {
                        assert forall|l2: int| #[trigger] self.covers(m as int, g as int, l2) implies
                            !(self.view_graph(m as int).spec_rows()[l2] < self.view_graph(m as int).spec_rows()[l2 + 1]) by {
                            self.lemma_cover_unique(m as int, g as int, l as int, l2);
                        }
                    }
                }
            }
            proof {
                assert forall|q: int, l: int| 0 <= q < m + 1 && #[trigger] self.covers(q, g as int, l)
                    && self.view_graph(q).spec_rows()[l] < self.view_graph(q).spec_rows()[l + 1]
                    implies exists|p: int| 0 <= p < present@.len() && #[trigger] present@[p].0 == q by {
                    if q < m {
                        let p = choose|p: int| 0 <= p < old_present.len() && #[trigger] old_present[p].0 == q;
                        assert(present@[p] == old_present[p]);
                    } else {
                        assert(present@.len() > old_present.len());
                        assert(present@[old_present.len() as int].0 == q);
                    }
                }
            }
            m = m + 1;
        }
        present
    }

    /// The contributions of the listed views to row `g`: for each entry `(m, l, a)` and each
    /// entry `k` of local row `l` of view `m`, the pair
    /// `(global column, a * value[k] * (1 / row sum))`.
    fn row_contributions(&self, g: usize, listed: &Vec<(usize, usize, T)>) -> (scratch: Vec<(u32, T)>)
        requires
            self.graphs_readable(),
            self.spec_n_samples() <= u32::MAX as nat + 1,
            listed_valid(self, g as int, listed@),
        ensures
            forall|c: u32| #[trigger] has_key(scratch@, c) <==> exists|p: int|
                0 <= p < listed@.len() && #[trigger] offers_local(self, listed@[p].0 as int, listed@[p].1 as int, c),
            forall|a: int| 0 <= a < scratch@.len() ==> (#[trigger] scratch@[a]).0 < self.spec_n_samples(),
    {
        let mut scratch: Vec<(u32, T)> = Vec::new();
        let mut p: usize = 0;
        while p < listed.len()
            invariant
                p <= listed@.len(),
                self.graphs_readable(),
                self.spec_n_samples() <= u32::MAX as nat + 1,
                listed_valid(self, g as int, listed@),
                forall|c: u32| #[trigger] has_key(scratch@, c) <==> exists|q: int|
                    0 <= q < p && #[trigger] offers_local(self, listed@[q].0 as int, listed@[q].1 as int, c),
                forall|a: int| 0 <= a < scratch@.len() ==> (#[trigger] scratch@[a]).0 < self.spec_n_samples(),
            decreases listed@.len() - p,
        {
            let (m, l, a_m) = listed[p];
            assert((listed@[p as int].0 as int) < self.spec_views_len());
            proof {
                use_type_invariant(self);
                self.lemma_cover_local(m as int, g as int, l as int);
            }
            let view = self.views[m].view;
            assert(view == self.view_graph(m as int));
            let vrows = view.rows();
            let vcols = view.columns();
            let vvals = view.values();
            let start = vrows[l];
            let end = vrows[l + 1];
            let ghost before = scratch@;
            if start < end {
                assert(view.rows_in_bounds());
                assert(vrows@[l as int] < vrows@[l + 1]);
                let mut row_sum: T = w_zero();
                let mut k: usize = start;
                while k < end
                    invariant
                        start <= k <= end,
                        end <= vvals@.len(),
                    decreases end - k,
                {
                    row_sum = w_add(row_sum, vvals[k]);
                    k = k + 1;
                }
                let inv_row_sum = w_recip(row_sum);
                let mut k: usize = start;
                while k < end
                    invariant
                        start <= k <= end,
                        m < self.spec_views_len(),
                        view == self.view_graph(m as int),
                        vrows@ == view.spec_rows(),
                        vcols@ == view.spec_columns(),
                        vvals@ == view.spec_values(),
                        start == vrows@[l as int],
                        end == vrows@[l + 1],
                        end <= vvals@.len(),
                        end <= vcols@.len(),
                        (l as int) < view.spec_n_samples(),
                        view.rows_in_bounds(),
                        self.spec_n_samples() <= u32::MAX as nat + 1,
                        scratch@.len() >= before.len(),
                        scratch@.subrange(0, before.len() as int) == before,
                        forall|c: u32| #[trigger] has_key(scratch@, c) <==> (has_key(before, c) || exists|k2: int|
                            start <= k2 < k && #[trigger] self.global_column(m as int, vcols@[k2]) == c as int),
                        forall|a: int| 0 <= a < scratch@.len() ==> (#[trigger] scratch@[a]).0 < self.spec_n_samples(),
                    decreases end - k,
                {
                    assert(vcols@[k as int] < view.spec_n_samples());
                    let col_global = self.global_col(m, vcols[k]);
                    proof {
                        use_type_invariant(self);
                        self.lemma_global_column_in_range(m as int, vcols@[k as int]);
                    }
                    let contribution = w_mul(w_mul(a_m, vvals[k]), inv_row_sum);
                    let ghost mid = scratch@;
                    scratch.push((col_global as u32, contribution));
                    proof {
                        assert forall|c: u32| #[trigger] has_key(scratch@, c) <==> (has_key(before, c) || exists|k2: int|
                            start <= k2 < k + 1 && #[trigger] self.global_column(m as int, vcols@[k2]) == c as int) by {
                            if has_key(scratch@, c) {
                                let a = choose|a: int| 0 <= a < scratch@.len() && #[trigger] scratch@[a].0 == c;
                                if a < mid.len() {
                                    assert(has_key(mid, c));
                                }
                            }
                            if has_key(before, c) {
                                let a = choose|a: int| 0 <= a < before.len() && #[trigger] before[a].0 == c;
                                assert(scratch@[a] == before[a]);
                            }
                            if exists|k2: int| start <= k2 < k + 1 && #[trigger] self.global_column(m as int, vcols@[k2]) == c as int {
                                let k2 = choose|k2: int| start <= k2 < k + 1 && #[trigger] self.global_column(m as int, vcols@[k2]) == c as int;
                                if k2 < k {
                                    assert(has_key(mid, c));
                                    let a = choose|a: int| 0 <= a < mid.len() && #[trigger] mid[a].0 == c;
                                    assert(scratch@[a] == mid[a]);
                                } else {
                                    assert(scratch@[mid.len() as int].0 == c);
                                }
                            }
                        }
                        assert(scratch@.subrange(0, before.len() as int) =~= before);
                    }
                    k = k + 1;
                }
                proof {
                    assert forall|c: u32| #[trigger] has_key(scratch@, c) <==> (has_key(before, c)
                        || offers_local(self, m as int, l as int, c)) by {
                        if offers_local(self, m as int, l as int, c) {
                            let k2 = choose|k2: int| self.view_graph(m as int).spec_rows()[l as int] <= k2 < self.view_graph(m as int).spec_rows()[l + 1]
                                && #[trigger] self.global_column(m as int, self.view_graph(m as int).spec_columns()[k2]) == c as int;
                            assert(self.global_column(m as int, vcols@[k2]) == c as int);
                        }
                        if exists|k2: int| start <= k2 < end && #[trigger] self.global_column(m as int, vcols@[k2]) == c as int {
                            let k2 = choose|k2: int| start <= k2 < end && #[trigger] self.global_column(m as int, vcols@[k2]) == c as int;
                            assert(self.global_column(m as int, self.view_graph(m as int).spec_columns()[k2]) == c as int);
                        }
                    }
                }
            } else {
                proof {
                    assert forall|c: u32| #[trigger] has_key(scratch@, c) <==> (has_key(before, c)
                        || offers_local(self, m as int, l as int, c)) by {
                        if offers_local(self, m as int, l as int, c) {
                            let k2 = choose|k2: int| self.view_graph(m as int).spec_rows()[l as int] <= k2 < self.view_graph(m as int).spec_rows()[l + 1]
                                && #[trigger] self.global_column(m as int, self.view_graph(m as int).spec_columns()[k2]) == c as int;
                        }
                    }
                }
            }
            proof {
                assert forall|c: u32| #[trigger] has_key(scratch@, c) <==> exists|q: int|
                    0 <= q < p + 1 && #[trigger] offers_local(self, listed@[q].0 as int, listed@[q].1 as int, c) by {
                    if exists|q: int| 0 <= q < p + 1 && #[trigger] offers_local(self, listed@[q].0 as int, listed@[q].1 as int, c) {
                        let q = choose|q: int| 0 <= q < p + 1 && #[trigger] offers_local(self, listed@[q].0 as int, listed@[q].1 as int, c);
                        if q < p {
                            assert(has_key(before, c));
                        }
                    }
                    if has_key(scratch@, c) {
                        if !has_key(before, c) {
                            assert(offers_local(self, listed@[p as int].0 as int, listed@[p as int].1 as int, c));
                        }
                    }
                }
            }
            p = p + 1;
        }
        scratch
    }

    /// Appends to the conditional graph the row folded from `scratch`.
    fn emit_row(
        scratch: Vec<(u32, T)>,
        cond_rows: &mut Vec<usize>,
        cond_cols: &mut Vec<u32>,
        cond_vals: &mut Vec<T>,
        n: usize,
    )
        requires
            forall|a: int| 0 <= a < scratch@.len() ==> (#[trigger] scratch@[a]).0 < n,
            old(cond_rows)@.len() >= 1,
            old(cond_rows)@[old(cond_rows)@.len() - 1] == old(cond_cols)@.len(),
            old(cond_cols)@.len() == old(cond_vals)@.len(),
            forall|a: int, b: int| 0 <= a <= b < old(cond_rows)@.len() ==> old(cond_rows)@[a] <= old(cond_rows)@[b],
            forall|e: int| 0 <= e < old(cond_cols)@.len() ==> #[trigger] old(cond_cols)@[e] < n,
        ensures
            final(cond_rows)@.len() == old(cond_rows)@.len() + 1,
            final(cond_rows)@.subrange(0, old(cond_rows)@.len() as int) == old(cond_rows)@,
            final(cond_rows)@[old(cond_rows)@.len() as int] == final(cond_cols)@.len(),
            final(cond_cols)@.len() == final(cond_vals)@.len(),
            final(cond_cols)@.subrange(0, old(cond_cols)@.len() as int) == old(cond_cols)@,
            forall|a: int, b: int| 0 <= a <= b < final(cond_rows)@.len() ==> final(cond_rows)@[a] <= final(cond_rows)@[b],
            forall|e: int| 0 <= e < final(cond_cols)@.len() ==> #[trigger] final(cond_cols)@[e] < n,
            strictly_increasing_row(final(cond_rows)@, final(cond_cols)@, old(cond_rows)@.len() - 1),
            forall|c: u32| #[trigger] row_columns(final(cond_rows)@, final(cond_cols)@, old(cond_rows)@.len() - 1).contains(c)
                <==> has_key(scratch@, c),
    {
        let mut scratch = scratch;
        let ghost unsorted = scratch@;
        sort_pairs(&mut scratch);
        let ghost rows0 = cond_rows@;
        let ghost cols0 = cond_cols@;
        let ghost start = cond_cols@.len();
        fold_pairs(&scratch, cond_cols, cond_vals);
        cond_rows.push(cond_cols.len());
        proof {
            assert(cond_rows@.subrange(0, rows0.len() as int) =~= rows0);
            let i = rows0.len() - 1;
            let seg = row_columns(cond_rows@, cond_cols@, i);
            assert(seg == cond_cols@.subrange(start as int, cond_cols@.len() as int));
            assert forall|c: u32| #[trigger] seg.contains(c) <==> has_key(unsorted, c) by {
                assert(seg.contains(c) <==> has_key(scratch@, c));
            }
            assert forall|a: int, b: int| 0 <= a <= b < cond_rows@.len() implies cond_rows@[a] <= cond_rows@[b] by {
                if b == cond_rows@.len() - 1 && a < b {
                    assert(cond_rows@[a] == rows0[a]);
                    assert(rows0[a] <= rows0[i]);
                }
            }
            assert forall|e: int| 0 <= e < cond_cols@.len() implies #[trigger] cond_cols@[e] < n by {
                if e >= start {
                    assert(seg[e - start] == cond_cols@[e]);
                    assert(has_key(scratch@, cond_cols@[e]));
                    let a = choose|a: int| 0 <= a < scratch@.len() && #[trigger] scratch@[a].0 == cond_cols@[e];
                    assert(has_key(unsorted, cond_cols@[e]));
                    let a2 = choose|a2: int| 0 <= a2 < unsorted.len() && #[trigger] unsorted[a2].0 == cond_cols@[e];
                } else {
                    assert(cond_cols@[e] == cols0[e]);
                }
            }
        }
    }

    /// Symmetrizes the pooled conditional graph and scales its weights to sum to one.
    fn finish(cond_rows: Vec<usize>, cond_cols: Vec<u32>, cond_vals: Vec<T>, n: usize) -> (a: Affinities<T>)
        requires
            n <= u32::MAX as nat + 1,
            cond_rows@.len() == n + 1,
            canonical_csr(n as nat, cond_rows@, cond_cols@, cond_vals@.len()),
        ensures
            canonical_csr(n as nat, a.spec_rows(), a.spec_columns(), a.spec_values().len()),
            forall|i: int, c: u32| 0 <= i < n ==>
                (#[trigger] row_columns(a.spec_rows(), a.spec_columns(), i).contains(c) <==> joined(cond_rows@, cond_cols@, i, c)),
    {
        let (rows, columns, mut values) = symmetrize_csr(&cond_rows, &cond_cols, &cond_vals);
        normalize_p_values(&mut values, w_one());
        Affinities::from_parts(rows, columns, values)
    }

    /// Pools the views with plain per-row weights, ignoring cross-view agreement.
    ///
    /// For each global sample `g`, each view whose row at `g` is not empty contributes its
    /// row, divided by the row's sum and weighted by its weight over the total weight of those
    /// views; contributions to the same column add up. The pooled rows are then made symmetric
    /// and scaled to sum to one. Errors with `NoViews` when no view was added.
    pub fn build_uniform(self) -> (r: Result<Affinities<T>, AffinitiesBuilderError>)
        requires
            self.spec_views_len() > 0 ==> self.spec_n_samples() <= i32::MAX,
            self.graphs_readable(),
        ensures
            r is Err <==> self.spec_views_len() == 0,
            r matches Err(err) ==> err == AffinitiesBuilderError::NoViews,
            r matches Ok(a) ==> {
                &&& canonical_csr(self.spec_n_samples(), a.spec_rows(), a.spec_columns(), a.spec_values().len())
                &&& forall|i: int, c: u32| 0 <= i < self.spec_n_samples() ==>
                    (#[trigger] row_columns(a.spec_rows(), a.spec_columns(), i).contains(c) <==> self.pool_joins(i, c))
                &&& forall|i: int, c: u32| 0 <= i < self.spec_n_samples() && (c as int) < self.spec_n_samples() ==>
                    (#[trigger] row_columns(a.spec_rows(), a.spec_columns(), i).contains(c)
                        <==> row_columns(a.spec_rows(), a.spec_columns(), c as int).contains(i as u32))
                &&& forall|g: int| 0 <= g < self.spec_n_samples() && self.uncovered(g) ==>
                    #[trigger] a.spec_rows()[g] == a.spec_rows()[g + 1]
            },
    {
        if self.views.len() == 0 {
            return Err(AffinitiesBuilderError::NoViews);
        }
        let n = self.n_samples;
        let maps = self.local_indices();
        let mut cond_rows: Vec<usize> = Vec::new();
        let mut cond_cols: Vec<u32> = Vec::new();
        let mut cond_vals: Vec<T> = Vec::new();
        cond_rows.push(0);
        let mut g: usize = 0;
        while g < n
            invariant
                g <= n,
                n == self.spec_n_samples(),
                n <= i32::MAX,
                self.graphs_readable(),
                maps@.len() == self.spec_views_len(),
                forall|m: int| 0 <= m < maps@.len() ==> (#[trigger] maps@[m])@.len() == self.spec_n_samples(),
                forall|m: int, x: int| 0 <= m < maps@.len() && 0 <= x < self.spec_n_samples() ==>
                    self.map_entry_ok(m, x, #[trigger] maps@[m]@[x]),
                cond_rows@.len() == g + 1,
                cond_rows@[0] == 0,
                cond_rows@[g as int] == cond_cols@.len(),
                cond_cols@.len() == cond_vals@.len(),
                forall|a: int, b: int| 0 <= a <= b < cond_rows@.len() ==> cond_rows@[a] <= cond_rows@[b],
                forall|e: int| 0 <= e < cond_cols@.len() ==> #[trigger] cond_cols@[e] < n,
                forall|q: int| 0 <= q < g ==> #[trigger] strictly_increasing_row(cond_rows@, cond_cols@, q),
                forall|q: int, c: u32| 0 <= q < g ==>
                    (#[trigger] row_columns(cond_rows@, cond_cols@, q).contains(c) <==> self.pool_offers(q, c)),
            decreases n - g,
        {
            let present = self.present_views(&maps, g);
            let mut total_weight: T = w_zero();
            let mut p: usize = 0;
            while p < present.len()
                invariant
                    p <= present@.len(),
                    presence_list(&self, g as int, present@),
                decreases present@.len() - p,
            {
                proof {
                    use_type_invariant(&self);
                }
                assert((present@[p as int].0 as int) < self.spec_views_len());
                total_weight = w_add(total_weight, self.views[present[p].0].weight);
                p = p + 1;
            }
            let mut listed: Vec<(usize, usize, T)> = Vec::new();
            let mut p: usize = 0;
            while p < present.len()
                invariant
                    p <= present@.len(),
                    presence_list(&self, g as int, present@),
                    listed@.len() == p,
                    forall|q: int| 0 <= q < p ==> (#[trigger] listed@[q]).0 == present@[q].0 && listed@[q].1 == present@[q].1,
                decreases present@.len() - p,
            {
                let (m, l) = present[p];
                assert((present@[p as int].0 as int) < self.spec_views_len());
                let a_m = w_div(self.views[m].weight, total_weight);
                listed.push((m, l, a_m));
                p = p + 1;
            }
            proof {
                assert forall|q: int| 0 <= q < listed@.len() implies {
                    &&& (#[trigger] listed@[q].0 as int) < self.spec_views_len()
                    &&& self.covers(listed@[q].0 as int, g as int, listed@[q].1 as int)
                } by {
                    assert((present@[q].0 as int) < self.spec_views_len());
                }
                assert(listed_valid(&self, g as int, listed@));
            }
            let scratch = self.row_contributions(g, &listed);
            let ghost rows0 = cond_rows@;
            let ghost cols0 = cond_cols@;
            Self::emit_row(scratch, &mut cond_rows, &mut cond_cols, &mut cond_vals, n);
            assert(cond_rows@[g + 1] == cond_cols@.len());
            proof {
                use_type_invariant(&self);
                self.lemma_listed_offers(g as int, present@, listed@);
                assert(cond_rows@.subrange(0, rows0.len() as int) =~= rows0);
                lemma_rows_kept(rows0, cols0, cond_rows@, cond_cols@);
                assert forall|q: int| 0 <= q < g + 1 implies #[trigger] strictly_increasing_row(cond_rows@, cond_cols@, q) by {
                    if q < g {
                        assert(row_columns(cond_rows@, cond_cols@, q) == row_columns(rows0, cols0, q));
                        assert(strictly_increasing_row(rows0, cols0, q));
                    }
                }
                assert forall|q: int, c: u32| 0 <= q < g + 1 implies
                    (#[trigger] row_columns(cond_rows@, cond_cols@, q).contains(c) <==> self.pool_offers(q, c)) by {
                    if q < g {
                        assert(row_columns(cond_rows@, cond_cols@, q) == row_columns(rows0, cols0, q));
                        assert(row_columns(rows0, cols0, q).contains(c) <==> self.pool_offers(q, c));
                    } else {
                        assert(row_columns(cond_rows@, cond_cols@, q).contains(c) <==> has_key(scratch@, c));
                    }
                }
            }
            g = g + 1;
        }
        proof {
            assert forall|q: int| 0 <= q < n implies #[trigger] strictly_increasing(row_columns(cond_rows@, cond_cols@, q)) by {
                assert(strictly_increasing_row(cond_rows@, cond_cols@, q));
            }
        }
        let a = Self::finish(cond_rows, cond_cols, cond_vals, n);
        proof {
            use_type_invariant(&self);
            self.lemma_uncovered_rows_empty(a);
            assert forall|i: int, c: u32| 0 <= i < n && (c as int) < n implies
                (#[trigger] row_columns(a.spec_rows(), a.spec_columns(), i).contains(c)
                    <==> row_columns(a.spec_rows(), a.spec_columns(), c as int).contains(i as u32)) by {
                assert(row_columns(a.spec_rows(), a.spec_columns(), i).contains(c) <==> self.pool_joins(i, c));
                assert(row_columns(a.spec_rows(), a.spec_columns(), c as int).contains(i as u32)
                    <==> self.pool_joins(c as int, i as u32));
                assert((c as u32) as int == c as int);
                assert((i as u32) as int == i);
            }
        }
        Ok(a)
    }
}

/// Some listed view other than the one at position `idx` offers global column `c`.
pub open spec fn shared_elsewhere<'a, T>(b: &AffinitiesBuilder<'a, T>, present: Seq<(usize, usize)>, idx: int, c: u32) -> bool {
    exists|p: int| 0 <= p < present.len() && p != idx && #[trigger] offers_local(b, present[p].0 as int, present[p].1 as int, c)
}

/// Among the first `t` entries of the row of the view at position `idx`, the number whose
/// global column some other listed view offers too.
pub open spec fn shared_count<'a, T>(b: &AffinitiesBuilder<'a, T>, present: Seq<(usize, usize)>, idx: int, t: int) -> nat
    decreases t,
{
    if t <= 0 {
        0
    } else {
        let m = present[idx].0 as int;
        let k = b.view_graph(m).spec_rows()[present[idx].1 as int] + t - 1;
        let c = b.global_column(m, b.view_graph(m).spec_columns()[k]) as u32;
        shared_count(b, present, idx, t - 1) + if shared_elsewhere(b, present, idx, c) { 1nat } else { 0nat }
    }
}

impl<'a, T: Float> AffinitiesBuilder<'a, T> {
    /// Whether some listed view other than the one at position `idx` offers global column `c`.
    fn offered_elsewhere(&self, g: usize, present: &Vec<(usize, usize)>, idx: usize, c: u32) -> (b: bool)
        requires
            self.graphs_readable(),
            self.spec_n_samples() <= u32::MAX as nat + 1,
            presence_list(self, g as int, present@),
        ensures
            b == shared_elsewhere(self, present@, idx as int, c),
    {
        let mut p: usize = 0;
        while p < present.len()
            invariant
                p <= present@.len(),
                self.graphs_readable(),
                self.spec_n_samples() <= u32::MAX as nat + 1,
                presence_list(self, g as int, present@),
                forall|q: int| 0 <= q < p && q != idx ==> !#[trigger] offers_local(self, present@[q].0 as int, present@[q].1 as int, c),
            decreases present@.len() - p,
        {
            if p != idx {
                let (m, l) = present[p];
                assert((present@[p as int].0 as int) < self.spec_views_len());
                proof {
                    use_type_invariant(self);
                    self.lemma_cover_local(m as int, g as int, l as int);
                }
                let view = self.views[m].view;
                assert(view == self.view_graph(m as int));
                assert(view.rows_in_bounds());
                let vrows = view.rows();
                let vcols = view.columns();
                let start = vrows[l];
                let end = vrows[l + 1];
                let mut k: usize = start;
                while k < end
                    invariant
                        m < self.spec_views_len(),
                        view == self.view_graph(m as int),
                        vrows@ == view.spec_rows(),
                        vcols@ == view.spec_columns(),
                        (l as int) < view.spec_n_samples(),
                        view.rows_in_bounds(),
                        start == vrows@[l as int],
                        end == vrows@[l + 1],
                        start <= k <= end,
                        p < present@.len(),
                        p != idx,
                        present@[p as int].0 == m,
                        present@[p as int].1 == l,
                        self.spec_n_samples() <= u32::MAX as nat + 1,
                        forall|k2: int| start <= k2 < k ==> #[trigger] self.global_column(m as int, vcols@[k2]) != c as int,
                    decreases end - k,
                {
                    assert(vcols@[k as int] < view.spec_n_samples());
                    let col = self.global_col(m, vcols[k]);
                    proof {
                        use_type_invariant(self);
                        self.lemma_global_column_in_range(m as int, vcols@[k as int]);
                    }
                    if col as u32 == c {
                        proof {
                            assert(self.global_column(m as int, self.view_graph(m as int).spec_columns()[k as int]) == c as int);
                            assert(offers_local(self, present@[p as int].0 as int, present@[p as int].1 as int, c));
                        }
                        return true;
                    }
                    k = k + 1;
                }
                proof {
                    if offers_local(self, m as int, l as int, c) {
                        let k2 = choose|k2: int| self.view_graph(m as int).spec_rows()[l as int] <= k2 < self.view_graph(m as int).spec_rows()[l + 1]
                            && #[trigger] self.global_column(m as int, self.view_graph(m as int).spec_columns()[k2]) == c as int;
                        assert(self.global_column(m as int, vcols@[k2]) != c as int);
                    }
                }
            }
            p = p + 1;
        }
        false
    }

    /// The number of entries in the row of the view at position `idx` whose global column
    /// some other listed view offers too.
    fn overlap_count(&self, g: usize, present: &Vec<(usize, usize)>, idx: usize) -> (count: usize)
        requires
            self.graphs_readable(),
            self.spec_n_samples() <= u32::MAX as nat + 1,
            presence_list(self, g as int, present@),
            idx < present@.len(),
        ensures
            count == shared_count(self, present@, idx as int,
                self.view_graph(present@[idx as int].0 as int).spec_rows()[present@[idx as int].1 + 1]
                - self.view_graph(present@[idx as int].0 as int).spec_rows()[present@[idx as int].1 as int]),
            count <= self.view_graph(present@[idx as int].0 as int).spec_rows()[present@[idx as int].1 + 1]
                - self.view_graph(present@[idx as int].0 as int).spec_rows()[present@[idx as int].1 as int],
    {
        let (m, l) = present[idx];
        assert((present@[idx as int].0 as int) < self.spec_views_len());
        proof {
            use_type_invariant(self);
            self.lemma_cover_local(m as int, g as int, l as int);
        }
        let view = self.views[m].view;
        assert(view == self.view_graph(m as int));
        assert(view.rows_in_bounds());
        let vrows = view.rows();
        let vcols = view.columns();
        let start = vrows[l];
        let end = vrows[l + 1];
        let mut count: usize = 0;
        let mut k: usize = start;
        while k < end
            invariant
                m < self.spec_views_len(),
                present@[idx as int].0 == m,
                present@[idx as int].1 == l,
                idx < present@.len(),
                self.graphs_readable(),
                self.spec_n_samples() <= u32::MAX as nat + 1,
                presence_list(self, g as int, present@),
                view == self.view_graph(m as int),
                vrows@ == view.spec_rows(),
                vcols@ == view.spec_columns(),
                (l as int) < view.spec_n_samples(),
                view.rows_in_bounds(),
                start == vrows@[l as int],
                end == vrows@[l + 1],
                start < end,
                start <= k <= end,
                count == shared_count(self, present@, idx as int, k - start),
                count <= k - start,
            decreases end - k,
        {
            assert(vcols@[k as int] < view.spec_n_samples());
            let col = self.global_col(m, vcols[k]);
            proof {
                use_type_invariant(self);
                self.lemma_global_column_in_range(m as int, vcols@[k as int]);
            }
            if self.offered_elsewhere(g, present, idx, col as u32) {
                count = count + 1;
            }
            k = k + 1;
        }
        count
    }

    /// Pools the views with per-row, per-view softmax agreement weights.
    ///
    /// At each global sample, a view whose row there is not empty has agreement `A`: the
    /// fraction of its row's entries whose global column another view also has in its row
    /// there. With three or more such views, each gets weight `w * exp((A - A_max) / tau)`;
    /// with fewer, or when those weights sum to zero or less, each gets its plain weight `w`.
    /// Views whose weight is zero or less are left out of the row; the others contribute as
    /// in [`build_uniform`](AffinitiesBuilder::build_uniform). With fewer than three such views
    /// every weight is the view's own, which [`add`](AffinitiesBuilder::add) or
    /// [`add_over`](AffinitiesBuilder::add_over) accepted, so every one of them contributes.
    /// Errors with `NoViews` when no view was added.
    pub fn build(self) -> (r: Result<Affinities<T>, AffinitiesBuilderError>)
        requires
            self.spec_views_len() > 0 ==> self.spec_n_samples() <= i32::MAX,
            self.graphs_readable(),
        ensures
            r is Err <==> self.spec_views_len() == 0,
            r matches Err(err) ==> err == AffinitiesBuilderError::NoViews,
            r matches Ok(a) ==> {
                &&& canonical_csr(self.spec_n_samples(), a.spec_rows(), a.spec_columns(), a.spec_values().len())
                &&& forall|i: int, c: u32| 0 <= i < self.spec_n_samples() ==>
                    (#[trigger] row_columns(a.spec_rows(), a.spec_columns(), i).contains(c) ==> self.pool_joins(i, c))
                &&& forall|i: int, c: u32| 0 <= i < self.spec_n_samples() && (c as int) < self.spec_n_samples() ==>
                    (#[trigger] row_columns(a.spec_rows(), a.spec_columns(), i).contains(c)
                        <==> row_columns(a.spec_rows(), a.spec_columns(), c as int).contains(i as u32))
                &&& forall|g: int| 0 <= g < self.spec_n_samples() && self.uncovered(g) ==>
                    #[trigger] a.spec_rows()[g] == a.spec_rows()[g + 1]
                &&& forall|g: int, c: u32| 0 <= g < self.spec_n_samples() && self.few_views_at(g)
                    && #[trigger] self.pool_offers(g, c) ==> row_columns(a.spec_rows(), a.spec_columns(), g).contains(c)
            },
    {
        if self.views.len() == 0 {
            return Err(AffinitiesBuilderError::NoViews);
        }
        let n = self.n_samples;
        let tau = self.tau;
        let zero: T = w_zero();
        let maps = self.local_indices();
        let mut cond_rows: Vec<usize> = Vec::new();
        let mut cond_cols: Vec<u32> = Vec::new();
        let mut cond_vals: Vec<T> = Vec::new();
        cond_rows.push(0);
        let mut g: usize = 0;
        while g < n
            invariant
                g <= n,
                n == self.spec_n_samples(),
                n <= i32::MAX,
                self.graphs_readable(),
                maps@.len() == self.spec_views_len(),
                forall|m: int| 0 <= m < maps@.len() ==> (#[trigger] maps@[m])@.len() == self.spec_n_samples(),
                forall|m: int, x: int| 0 <= m < maps@.len() && 0 <= x < self.spec_n_samples() ==>
                    self.map_entry_ok(m, x, #[trigger] maps@[m]@[x]),
                cond_rows@.len() == g + 1,
                cond_rows@[0] == 0,
                cond_rows@[g as int] == cond_cols@.len(),
                cond_cols@.len() == cond_vals@.len(),
                forall|a: int, b: int| 0 <= a <= b < cond_rows@.len() ==> cond_rows@[a] <= cond_rows@[b],
                forall|e: int| 0 <= e < cond_cols@.len() ==> #[trigger] cond_cols@[e] < n,
                forall|q: int| 0 <= q < g ==> #[trigger] strictly_increasing_row(cond_rows@, cond_cols@, q),
                forall|q: int, c: u32| 0 <= q < g ==>
                    (#[trigger] row_columns(cond_rows@, cond_cols@, q).contains(c) ==> self.pool_offers(q, c)),
                forall|q: int, c: u32| 0 <= q < g && self.few_views_at(q) && #[trigger] self.pool_offers(q, c)
                    ==> row_columns(cond_rows@, cond_cols@, q).contains(c),
            decreases n - g,
        {
            let present = self.present_views(&maps, g);
            let n_present = present.len();
            // Agreement of each present view.
            let mut agreement: Vec<T> = Vec::new();
            let mut p: usize = 0;
            while p < n_present
                invariant
                    p <= n_present,
                    n_present == present@.len(),
                    self.graphs_readable(),
                    self.spec_n_samples() <= u32::MAX as nat + 1,
                    presence_list(&self, g as int, present@),
                    agreement@.len() == p,
                decreases n_present - p,
            {
                let overlap = self.overlap_count(g, &present, p);
                let (m, l) = present[p];
                assert((present@[p as int].0 as int) < self.spec_views_len());
                proof {
                    use_type_invariant(&self);
                    self.lemma_cover_local(m as int, g as int, l as int);
                }
                let view = self.views[m].view;
                assert(view == self.view_graph(m as int));
                let vrows = view.rows();
                assert(vrows@[l as int] < vrows@[l + 1]);
                let own_len = vrows[l + 1] - vrows[l];
                agreement.push(w_div(w_count(overlap), w_count(own_len)));
                p = p + 1;
            }
            // Effective weight of each present view.
            let mut effective: Vec<T> = Vec::new();
            let mut total: T = zero;
            if n_present >= 3 {
                let mut max_logit: T = w_neg_infinity();
                let mut p: usize = 0;
                while p < n_present
                    invariant
                        p <= n_present,
                        agreement@.len() == n_present,
                    decreases n_present - p,
                {
                    let logit = w_div(agreement[p], tau);
                    if w_lt(max_logit, logit) {
                        max_logit = logit;
                    }
                    p = p + 1;
                }
                let mut p: usize = 0;
                while p < n_present
                    invariant
                        p <= n_present,
                        n_present == present@.len(),
                        agreement@.len() == n_present,
                        presence_list(&self, g as int, present@),
                        effective@.len() == p,
                    decreases n_present - p,
                {
                    let logit = w_div(agreement[p], tau);
                    let softmax = w_exp(w_sub(logit, max_logit));
                    assert((present@[p as int].0 as int) < self.spec_views_len());
                    let eff = w_mul(self.views[present[p].0].weight, softmax);
                    effective.push(eff);
                    total = w_add(total, eff);
                    p = p + 1;
                }
            } else {
                let mut p: usize = 0;
                while p < n_present
                    invariant
                        p <= n_present,
                        n_present == present@.len(),
                        presence_list(&self, g as int, present@),
                        effective@.len() == p,
                    decreases n_present - p,
                {
                    assert((present@[p as int].0 as int) < self.spec_views_len());
                    let base = self.views[present[p].0].weight;
                    effective.push(base);
                    total = w_add(total, base);
                    p = p + 1;
                }
            }
            // Every present view disagreeing: fall back to the plain weights.
            if w_le(total, zero) {
                total = zero;
                let mut p: usize = 0;
                while p < n_present
                    invariant
                        p <= n_present,
                        n_present == present@.len(),
                        presence_list(&self, g as int, present@),
                        effective@.len() == n_present,
                    decreases n_present - p,
                {
                    assert((present@[p as int].0 as int) < self.spec_views_len());
                    let base = self.views[present[p].0].weight;
                    effective.set(p, base);
                    total = w_add(total, base);
                    p = p + 1;
                }
            }
            let inv_total = w_recip(total);
            let mut listed: Vec<(usize, usize, T)> = Vec::new();
            let mut p: usize = 0;
            while p < n_present
                invariant
                    p <= n_present,
                    n_present == present@.len(),
                    effective@.len() == n_present,
                    presence_list(&self, g as int, present@),
                    listed_valid(&self, g as int, listed@),
                    n_present < 3 ==> listed@.len() == p,
                    n_present < 3 ==> forall|q: int| 0 <= q < listed@.len() ==>
                        (#[trigger] listed@[q]).0 == present@[q].0 && listed@[q].1 == present@[q].1,
                decreases n_present - p,
            {
                let eff = effective[p];
                // Below three views each weight is the view's own, which `add` or `add_over`
                // accepted as positive, so every view stays in the row.
                if n_present < 3 || !w_le(eff, zero) {
                    let (m, l) = present[p];
                    assert((present@[p as int].0 as int) < self.spec_views_len());
                    listed.push((m, l, w_mul(eff, inv_total)));
                    proof {
                        assert forall|q: int| 0 <= q < listed@.len() implies {
                            &&& (#[trigger] listed@[q].0 as int) < self.spec_views_len()
                            &&& self.covers(listed@[q].0 as int, g as int, listed@[q].1 as int)
                        } by {
                            if q < listed@.len() - 1 {
                                assert((listed@.drop_last()[q].0 as int) < self.spec_views_len());
                            }
                        }
                    }
                }
                p = p + 1;
            }
            let scratch = self.row_contributions(g, &listed);
            let ghost rows0 = cond_rows@;
            let ghost cols0 = cond_cols@;
            Self::emit_row(scratch, &mut cond_rows, &mut cond_cols, &mut cond_vals, n);
            assert(cond_rows@[g + 1] == cond_cols@.len());
            proof {
                use_type_invariant(&self);
                assert(cond_rows@.subrange(0, rows0.len() as int) =~= rows0);
                lemma_rows_kept(rows0, cols0, cond_rows@, cond_cols@);
                assert forall|q: int| 0 <= q < g + 1 implies #[trigger] strictly_increasing_row(cond_rows@, cond_cols@, q) by {
                    if q < g {
                        assert(row_columns(cond_rows@, cond_cols@, q) == row_columns(rows0, cols0, q));
                        assert(strictly_increasing_row(rows0, cols0, q));
                    }
                }
                assert forall|q: int, c: u32| 0 <= q < g + 1 implies
                    (#[trigger] row_columns(cond_rows@, cond_cols@, q).contains(c) ==> self.pool_offers(q, c)) by {
                    if q < g {
                        assert(row_columns(cond_rows@, cond_cols@, q) == row_columns(rows0, cols0, q));
                        assert(row_columns(rows0, cols0, q).contains(c) ==> self.pool_offers(q, c));
                    } else if row_columns(cond_rows@, cond_cols@, q).contains(c) {
                        assert(has_key(scratch@, c));
                        let p2 = choose|p2: int| 0 <= p2 < listed@.len() && #[trigger] offers_local(&self, listed@[p2].0 as int, listed@[p2].1 as int, c);
                        let m = listed@[p2].0 as int;
                        let l = listed@[p2].1 as int;
                        assert((listed@[p2].0 as int) < self.spec_views_len());
                        let k = choose|k: int| self.view_graph(m).spec_rows()[l] <= k < self.view_graph(m).spec_rows()[l + 1]
                            && #[trigger] self.global_column(m, self.view_graph(m).spec_columns()[k]) == c as int;
                        assert(self.covers(m, g as int, l));
                        assert(self.offers(m, g as int, c));
                    }
                }
                if n_present < 3 {
                    self.lemma_listed_offers(g as int, present@, listed@);
                }
                assert forall|q: int, c: u32| 0 <= q < g + 1 && self.few_views_at(q) && #[trigger] self.pool_offers(q, c)
                    implies row_columns(cond_rows@, cond_cols@, q).contains(c) by {
                    if q < g {
                        assert(row_columns(cond_rows@, cond_cols@, q) == row_columns(rows0, cols0, q));
                    } else {
                        if n_present >= 3 {
                            self.lemma_three_present(q, present@);
                        }
                        assert(has_key(scratch@, c));
                    }
                }
            }
            g = g + 1;
        }
        proof {
            assert forall|q: int| 0 <= q < n implies #[trigger] strictly_increasing(row_columns(cond_rows@, cond_cols@, q)) by {
                assert(strictly_increasing_row(cond_rows@, cond_cols@, q));
            }
        }
        let ghost crows = cond_rows@;
        let ghost ccols = cond_cols@;
        let a = Self::finish(cond_rows, cond_cols, cond_vals, n);
        proof {
            assert forall|i: int, c: u32| 0 <= i < n implies
                (#[trigger] row_columns(a.spec_rows(), a.spec_columns(), i).contains(c) ==> self.pool_joins(i, c)) by {
                if row_columns(a.spec_rows(), a.spec_columns(), i).contains(c) {
                    assert(joined(crows, ccols, i, c));
                    if row_columns(crows, ccols, i).contains(c) {
                        assert(self.pool_offers(i, c));
                    } else {
                        assert(row_columns(crows, ccols, c as int).contains(i as u32));
                        assert(self.pool_offers(c as int, i as u32));
                    }
                }
            }
            assert forall|i: int, c: u32| 0 <= i < n && (c as int) < n implies
                (#[trigger] row_columns(a.spec_rows(), a.spec_columns(), i).contains(c)
                    <==> row_columns(a.spec_rows(), a.spec_columns(), c as int).contains(i as u32)) by {
                assert(joined(crows, ccols, i, c) <==> joined(crows, ccols, c as int, i as u32));
            }
            use_type_invariant(&self);
            self.lemma_uncovered_rows_empty(a);
        }
        Ok(a)
    }
}

/// Checks a subset-scoped view of `view_n` samples against a builder of `n_samples`: its
/// size, then its first id out of range, then its smallest repeated id.
pub fn check_subset(n_samples: usize, view_n: usize, subset: &[usize]) -> (r: Result<(), AffinitiesBuilderError>)
    ensures
        r == subset_verdict(n_samples as nat, view_n as nat, subset@),
        r is Ok <==> {
            &&& view_n == subset@.len()
            &&& distinct_ids(subset@)
            &&& forall|a: int| 0 <= a < subset@.len() ==> #[trigger] subset@[a] < n_samples
        },
{
    if view_n != subset.len() {
        return Err(AffinitiesBuilderError::SubsetSizeMismatch { view: view_n, subset: subset.len() });
    }
    let mut a: usize = 0;
    while a < subset.len()
        invariant
            a <= subset@.len(),
            view_n == subset@.len(),
            forall|b: int| 0 <= b < a ==> #[trigger] subset@[b] < n_samples,
        decreases subset@.len() - a,
    {
        if subset[a] >= n_samples {
            proof {
                assert(is_first_out_of_range(subset@, n_samples as nat, a as int));
                let c = choose|c: int| is_first_out_of_range(subset@, n_samples as nat, c);
                if c < a {
                    assert(subset@[c] < n_samples);
                } else if c > a {
                    assert(subset@[a as int] < n_samples);
                }
            }
            return Err(AffinitiesBuilderError::SubsetIdOutOfRange { id: subset[a], n_samples });
        }
        a = a + 1;
    }
    proof {
        if exists|c: int| is_first_out_of_range(subset@, n_samples as nat, c) {
            let c = choose|c: int| is_first_out_of_range(subset@, n_samples as nat, c);
            assert(subset@[c] < n_samples);
        }
    }
    // `first[id]`: the position where `id` was first seen, if any.
    let mut first: Vec<bool> = Vec::new();
    let mut id: usize = 0;
    while id < n_samples
        invariant
            id <= n_samples,
            first@.len() == id,
            forall|x: int| 0 <= x < id ==> !#[trigger] first@[x],
        decreases n_samples - id,
    {
        first.push(false);
        id = id + 1;
    }
    let mut least: Option<usize> = None;
    let mut a: usize = 0;
    while a < subset.len()
        invariant
            a <= subset@.len(),
            view_n == subset@.len(),
            !exists|c: int| is_first_out_of_range(subset@, n_samples as nat, c),
            first@.len() == n_samples,
            forall|b: int| 0 <= b < subset@.len() ==> #[trigger] subset@[b] < n_samples,
            forall|x: int| 0 <= x < n_samples ==>
                (#[trigger] first@[x] <==> exists|b: int| 0 <= b < a && subset@[b] == x),
            match least {
                None => forall|x: usize| !#[trigger] repeated_id(subset@.subrange(0, a as int), x),
                Some(m) => is_least_repeated(subset@.subrange(0, a as int), m),
            },
        decreases subset@.len() - a,
    {
        let x = subset[a];
        let ghost pre = subset@.subrange(0, a as int);
        let ghost post = subset@.subrange(0, a + 1);
        proof {
            assert forall|y: usize| #[trigger] repeated_id(post, y) <==> (repeated_id(pre, y) || (y == x && exists|b: int| 0 <= b < a && subset@[b] == x)) by {
                if repeated_id(post, y) {
                    let (p, q) = choose|p: int, q: int| 0 <= p < q < post.len() && #[trigger] post[p] == y && #[trigger] post[q] == y;
                    if q < a {
                        assert(pre[p] == y && pre[q] == y);
                    } else {
                        assert(subset@[p] == x);
                    }
                }
                if repeated_id(pre, y) {
                    let (p, q) = choose|p: int, q: int| 0 <= p < q < pre.len() && #[trigger] pre[p] == y && #[trigger] pre[q] == y;
                    assert(post[p] == y && post[q] == y);
                }
                if y == x && exists|b: int| 0 <= b < a && subset@[b] == x {
                    let b = choose|b: int| 0 <= b < a && subset@[b] == x;
                    assert(post[b] == y && post[a as int] == y);
                }
            }
        }
        if first[x] {
            least = match least {
                None => Some(x),
                Some(m) => if x < m { Some(x) } else { Some(m) },
            };
        } else {
            first.set(x, true);
        }
        proof {
            assert forall|y: int| 0 <= y < n_samples implies
                (#[trigger] first@[y] <==> exists|b: int| 0 <= b < a + 1 && subset@[b] == y) by {
                if y == x {
                    assert(subset@[a as int] == y);
                } else if exists|b: int| 0 <= b < a + 1 && subset@[b] == y {
                    let b = choose|b: int| 0 <= b < a + 1 && subset@[b] == y;
                    assert(b < a);
                }
            }
        }
        a = a + 1;
    }
    assert(subset@.subrange(0, subset@.len() as int) =~= subset@);
    match least {
        None => {
            proof {
                assert forall|p: int, q: int| 0 <= p < q < subset@.len() implies subset@[p] != subset@[q] by {
                    if subset@[p] == subset@[q] {
                        assert(repeated_id(subset@, subset@[p]));
                    }
                }
            }
            Ok(())
        },
        Some(m) => {
            proof {
                let c = choose|c: usize| is_least_repeated(subset@, c);
                assert(m <= c && c <= m);
                let (p, q) = choose|p: int, q: int| 0 <= p < q < subset@.len() && #[trigger] subset@[p] == m && #[trigger] subset@[q] == m;
                assert(!distinct_ids(subset@));
            }
            Err(AffinitiesBuilderError::DuplicateSubsetId { id: m })
        },
    }
}

} // verus!
