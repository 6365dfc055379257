//! The lasso: linear regression with an L1 penalty, by coordinate descent on the normal
//! equations.

use vstd::prelude::*;
use crate::float::{Float32, INFINITE_MAGNITUDE};
use crate::least_squares::{check_fit, check_predict, launch_rows, pipelines, plan_gram, plan_rows, split_solution, GramPass, PredictPass, RegressionError, EPSILON};
use crate::metal::{Buffer, Launch, MetalContext};
use crate::pipeline::PipelineCache;
use crate::select::sup_norm;
#[allow(unused_imports)]
use crate::least_squares::{fit_refusal, gram_buffers, gram_sizes, predict_refusal, reduce_launch, rows_launch, unknowns, xtx_launch, xty_launch};
#[allow(unused_imports)]
use crate::metal::{buffer_at, Kernel};
#[allow(unused_imports)]
use crate::select::{greatest_magnitude, lemma_greatest_magnitude, lemma_greatest_magnitude_unique};

verus! {

/// Configuration for the lasso, which minimizes `0.5·‖Xw − y‖² + alpha·‖w‖₁`. The intercept
/// is not penalized.
#[derive(Clone, Copy, Debug, PartialEq, Eq, Structural)]
pub struct LassoConfig {
    /// L1 regularization strength; 0 is ordinary least squares.
    pub alpha: Float32,
    /// Whether to fit an intercept.
    pub fit_intercept: bool,
    /// Coordinate descent stops when a full sweep moves every coefficient by at most this.
    pub tol: Float32,
    /// Maximum coordinate-descent sweeps.
    pub max_iterations: usize,
    /// Not used: coordinate descent is deterministic.
    pub seed: u64,
}

impl Default for LassoConfig {
    /// `alpha` 1, with an intercept, tolerance 1e-4, 1000 sweeps, seed 42.
    fn default() -> (r: LassoConfig)
        ensures
            r == (LassoConfig {
                alpha: Float32 { bits: 0x3f80_0000 },
                fit_intercept: true,
                tol: Float32 { bits: 0x38d1_b717 },
                max_iterations: 1000,
                seed: 42,
            }),
    {
        LassoConfig {
            alpha: Float32 { bits: 0x3f80_0000 },
            fit_intercept: true,
            tol: Float32 { bits: 0x38d1_b717 },
            max_iterations: 1000,
            seed: 42,
        }
    }
}

pub struct Lasso {
    pub config: LassoConfig,
    /// The pipelines compiled so far.
    pub pipelines: PipelineCache,
    /// Learned feature weights, shape (d,).
    pub weights: Vec<Float32>,
    /// Learned intercept.
    pub bias: Float32,
    /// Number of features.
    pub d: usize,
    /// Number of coordinate-descent sweeps performed at fit time.
    pub n_iter: usize,
    /// Whether the solver converged within its sweeps.
    pub converged: bool,
    /// Mean squared error on the training data after fit.
    pub final_loss: Float32,
}

/// The buffers and the launch that predict the training rows.
pub struct TrainingPass {
    pub w: Buffer,
    pub out: Buffer,
    pub launch: Launch,
}

/// What the L1 penalty does to a coordinate.
#[derive(Clone, Copy, Debug, PartialEq, Eq, Structural)]
pub enum Shrinkage {
    /// The penalty is taken from it.
    Subtract,
    /// The penalty is added to it.
    Add,
    /// It becomes zero.
    Zero,
}

/// What soft thresholding by `alpha` does to `x`.
pub open spec fn shrinkage(x: Float32, alpha: Float32) -> Shrinkage {
    if alpha.lt(x) {
        Shrinkage::Subtract
    } else if x.lt(alpha.negation()) {
        Shrinkage::Add
    } else {
        Shrinkage::Zero
    }
}

/// What soft thresholding by `alpha` does to `x`.
pub fn soft_threshold(x: Float32, alpha: Float32) -> (r: Shrinkage)
    ensures
        r == shrinkage(x, alpha),
{
    if alpha.less(x) {
        Shrinkage::Subtract
    } else if x.less(alpha.neg()) {
        Shrinkage::Add
    } else {
        Shrinkage::Zero
    }
}

/// Soft thresholding by a penalty that is not negative treats a number and its negation
/// alike, and leaves exactly the numbers of greater magnitude than the penalty.
pub proof fn lemma_shrinkage_symmetric(x: Float32, alpha: Float32)
    requires
        !x.nan(),
        (Float32 { bits: 0 }).le(alpha),
    ensures
        shrinkage(x, alpha) is Subtract <==> shrinkage(x.negation(), alpha) is Add,
        shrinkage(x, alpha) is Zero <==> shrinkage(x.negation(), alpha) is Zero,
        shrinkage(x, alpha) is Zero <==> x.abs_value().le(alpha),
{
}

/// The number that a coordinate is divided by: its diagonal entry, or the smallest step from
/// 1.0 where that entry is nearly zero.
pub fn divisor(diagonal: Float32) -> (r: Float32)
    ensures
        r == (if diagonal.abs_value().lt(Float32 { bits: EPSILON }) {
            Float32 { bits: EPSILON }
        } else {
            diagonal
        }),
{
    let epsilon: Float32 = Float32 { bits: EPSILON };
    if diagonal.abs().less(epsilon) {
        epsilon
    } else {
        diagonal
    }
}

/// The progress of coordinate descent.
#[derive(Clone, Copy, Debug, PartialEq, Eq, Structural)]
pub struct Descent {
    pub config: LassoConfig,
    /// How many unknowns there are.
    pub dim: usize,
    /// Sweeps done.
    pub sweeps: usize,
    /// Whether the last sweep moved nothing by more than the tolerance.
    pub converged: bool,
}

/// Whether none of the changes, NaNs left out, is larger than the tolerance.
pub open spec fn settled(changes: Seq<Float32>, tol: Float32) -> bool {
    exists|largest: Float32| #[trigger]
        greatest_magnitude(changes, largest) && largest.le(tol)
}

impl Descent {
    pub open spec fn wf(&self) -> bool {
        &&& self.sweeps <= self.config.max_iterations
        &&& self.converged ==> self.sweeps >= 1
    }

    /// Whether no other sweep is to be made.
    pub open spec fn over(&self) -> bool {
        self.converged || self.sweeps >= self.config.max_iterations
    }

    /// What a sweep that changes the coordinates by `changes` leads to.
    pub open spec fn after(self, changes: Seq<Float32>) -> Descent {
        Descent {
            sweeps: (self.sweeps + 1) as usize,
            converged: self.converged || settled(changes, self.config.tol),
            ..self
        }
    }

    /// Where descent ends, if sweep `i` changes the coordinates by `changes(i)`.
    pub open spec fn ended(self, changes: spec_fn(int) -> Seq<Float32>) -> Descent
        decreases self.config.max_iterations - self.sweeps,
    {
        if self.over() {
            self
        } else {
            self.after(changes(self.sweeps as int)).ended(changes)
        }
    }

    /// The same with another seed.
    pub open spec fn reseeded(self, seed: u64) -> Descent {
        Descent { config: LassoConfig { seed, ..self.config }, ..self }
    }

    /// The same with another limit.
    pub open spec fn limited(self, max_iterations: usize) -> Descent {
        Descent { config: LassoConfig { max_iterations, ..self.config }, ..self }
    }

    /// Descent over `d` weights, and an intercept where there is one.
    pub fn new(config: LassoConfig, d: usize) -> (r: Descent)
        requires
            d < usize::MAX,
        ensures
            r.wf(),
            r.config == config,
            r.dim == unknowns(d as int, config.fit_intercept),
            r.sweeps == 0,
            !r.converged,
    {
        let dim: usize = if config.fit_intercept {
            d + 1
        } else {
            d
        };
        Descent { config, dim, sweeps: 0, converged: false }
    }

    /// Whether another sweep is to be made.
    pub fn next(&self) -> (r: bool)
        ensures
            r == !self.over(),
    {
        !self.converged && self.sweeps < self.config.max_iterations
    }

    /// Whether coordinate `j` is penalized: all are but the intercept, which comes last.
    pub fn penalized(&self, j: usize) -> (r: bool)
        requires
            self.dim > 0,
        ensures
            r == !(self.config.fit_intercept && j == self.dim - 1),
    {
        !(self.config.fit_intercept && j == self.dim - 1)
    }

    /// Records a sweep that changed the coordinates by `changes`. Descent has converged when
    /// none of them, NaNs left out, is larger than the tolerance.
    pub fn sweep(&mut self, changes: &[Float32])
        requires
            old(self).wf(),
            old(self).sweeps < old(self).config.max_iterations,
        ensures
            final(self).wf(),
            *final(self) == old(self).after(changes@),
    {
        let largest: Float32 = sup_norm(changes);
        self.sweeps = self.sweeps + 1;
        if largest.at_most(self.config.tol) {
            self.converged = true;
        }
        proof {
            assert forall|other: Float32| #[trigger]
                greatest_magnitude(changes@, other) implies other == largest by {
                lemma_greatest_magnitude_unique(changes@, largest, other);
            }
        }
    }
}

/// However the coordinates change, descent comes to an end. It makes one sweep at least, where
/// it may make one, and never more than the limit. It has converged exactly when its last sweep
/// changed nothing by more than the tolerance, which no sweep before did; else it has used all
/// its sweeps.
pub proof fn lemma_descent_stops(descent: Descent, changes: spec_fn(int) -> Seq<Float32>)
    requires
        descent.wf(),
        !descent.converged,
    ensures
        ({
            let end = descent.ended(changes);
            &&& end.wf()
            &&& end.over()
            &&& end.config == descent.config
            &&& end.dim == descent.dim
            &&& descent.sweeps <= end.sweeps <= descent.config.max_iterations
            &&& descent.config.max_iterations >= 1 ==> 1 <= end.sweeps
            &&& end.converged <==> end.sweeps > descent.sweeps && settled(
                changes(end.sweeps - 1),
                descent.config.tol,
            )
            &&& forall|i: int|
                descent.sweeps <= i < end.sweeps - 1 ==> !settled(
                    #[trigger] changes(i),
                    descent.config.tol,
                )
            &&& !end.converged ==> end.sweeps == descent.config.max_iterations
        }),
    decreases descent.config.max_iterations - descent.sweeps,
{
    if !descent.over() {
        let next = descent.after(changes(descent.sweeps as int));
        assert(descent.ended(changes) == next.ended(changes));
        if next.converged {
            assert(next.ended(changes) == next);
        } else {
            lemma_descent_stops(next, changes);
        }
    }
}

/// Descent that converges within its sweeps makes as many, and converges as well, where it may
/// make more. The coordinates are then those that the same sweeps lead to.
pub proof fn lemma_larger_limit(
    descent: Descent,
    changes: spec_fn(int) -> Seq<Float32>,
    limit: usize,
)
    requires
        descent.wf(),
        descent.config.max_iterations <= limit,
        descent.ended(changes).converged,
    ensures
        descent.limited(limit).ended(changes) == descent.ended(changes).limited(limit),
    decreases descent.config.max_iterations - descent.sweeps,
{
    if !descent.over() {
        lemma_larger_limit(descent.after(changes(descent.sweeps as int)), changes, limit);
        assert(descent.after(changes(descent.sweeps as int)).limited(limit) == descent.limited(
            limit,
        ).after(changes(descent.sweeps as int)));
    }
}

/// The seed changes nothing: descent ends after the same sweeps and with the same verdict.
pub proof fn lemma_seed_unused(descent: Descent, changes: spec_fn(int) -> Seq<Float32>, seed: u64)
    requires
        descent.wf(),
    ensures
        descent.reseeded(seed).ended(changes) == descent.ended(changes).reseeded(seed),
    decreases descent.config.max_iterations - descent.sweeps,
{
    if !descent.over() {
        lemma_seed_unused(descent.after(changes(descent.sweeps as int)), changes, seed);
        assert(descent.after(changes(descent.sweeps as int)).reseeded(seed) == descent.reseeded(
            seed,
        ).after(changes(descent.sweeps as int)));
    }
}

impl Lasso {
    pub fn new(config: LassoConfig) -> (r: Lasso)
        ensures
            r.config == config,
            r.pipelines.wf(),
            r.pipelines.entry(Kernel::LinregGramXtxTiled) == Some(None::<usize>),
            r.pipelines.entry(Kernel::LinregGramXtxNaive) == Some(None::<usize>),
            r.pipelines.entry(Kernel::LinregGramXty) == Some(None::<usize>),
            r.pipelines.entry(Kernel::LinregReduceGram) == Some(None::<usize>),
            r.pipelines.entry(Kernel::LinregPredict) == Some(None::<usize>),
            r.weights@ == Seq::<Float32>::empty(),
            r.bias.bits == 0,
            r.d == 0,
            r.n_iter == 0,
            !r.converged,
            r.final_loss.bits == INFINITE_MAGNITUDE,
    {
        Lasso {
            config,
            pipelines: pipelines(),
            weights: Vec::new(),
            bias: Float32::zero(),
            d: 0,
            n_iter: 0,
            converged: false,
            final_loss: Float32 { bits: INFINITE_MAGNITUDE },
        }
    }

    /// The fitted coefficients, of shape `(d,)`.
    pub fn weights(&self) -> (r: &[Float32])
        ensures
            r@ == self.weights@,
    {
        self.weights.as_slice()
    }

    /// The fitted coefficients, of shape `(d,)`.
    pub fn coef(&self) -> (r: &[Float32])
        ensures
            r@ == self.weights@,
    {
        self.weights.as_slice()
    }

    /// The fitted intercept.
    pub fn bias(&self) -> (r: Float32)
        ensures
            r == self.bias,
    {
        self.bias
    }

    /// The fitted intercept.
    pub fn intercept(&self) -> (r: Float32)
        ensures
            r == self.bias,
    {
        self.bias
    }

    /// Number of features the model was fitted with.
    pub fn n_features(&self) -> (r: usize)
        ensures
            r == self.d,
    {
        self.d
    }

    /// Starts a fit on `n` rows of `d` features: the passes that build the normal equations.
    pub fn fit(
        &mut self,
        ctx: &mut MetalContext,
        data: &[Float32],
        y: &[Float32],
        n: usize,
        d: usize,
    ) -> (r: Result<GramPass, RegressionError>)
        requires
            4 * data@.len() <= usize::MAX,
        ensures
            match fit_refusal(old(self).config.alpha, data@.len() as usize, y@.len(), n, d) {
                Some(e) => r == Err::<GramPass, RegressionError>(e) && *final(self) == *old(self)
                    && *final(ctx) == *old(ctx),
                None => r matches Ok(pass) && {
                    &&& final(ctx)@ == old(ctx)@ + gram_sizes(n, d)
                    &&& pass.buffers == gram_buffers(old(ctx)@.len(), n, d)
                    &&& pass.xtx@ == xtx_launch(pass.buffers, n, d)
                    &&& pass.xty@ == xty_launch(pass.buffers, n, d)
                    &&& pass.reduce@ == reduce_launch(pass.buffers, n, d)
                    &&& *final(self) == (Lasso { d, ..*old(self) })
                },
            },
    {
        match check_fit(self.config.alpha, data.len(), y.len(), n, d) {
            Some(e) => Err(e),
            None => {
                self.d = d;
                Ok(plan_gram(ctx, n, d))
            },
        }
    }

    /// Goes on with a fit once descent has stopped: keeps the weights, the intercept and how
    /// it ended, and lays out the pass that predicts the training rows.
    pub fn solved(
        &mut self,
        ctx: &mut MetalContext,
        x: Buffer,
        solution: &[Float32],
        descent: &Descent,
        n: usize,
    ) -> (r: TrainingPass)
        requires
            solution@.len() == unknowns(old(self).d as int, old(self).config.fit_intercept),
            4 * old(self).d <= usize::MAX,
            4 * n + 255 <= usize::MAX,
        ensures
            final(self).config == old(self).config,
            final(self).weights@ == solution@.take(old(self).d as int),
            final(self).bias == (if old(self).config.fit_intercept {
                solution@[old(self).d as int]
            } else {
                Float32 { bits: 0 }
            }),
            final(self).d == old(self).d,
            final(self).pipelines == old(self).pipelines,
            final(self).n_iter == descent.sweeps,
            final(self).converged == descent.converged,
            final(self).final_loss == old(self).final_loss,
            final(ctx)@ == old(ctx)@ + seq![(4 * old(self).d) as u64, (4 * n) as u64],
            r.w == buffer_at(old(ctx)@.len(), 0, 4 * old(self).d),
            r.out == buffer_at(old(ctx)@.len(), 1, 4 * n),
            r.launch@ == rows_launch(x, r.w, r.out, n, old(self).d, final(self).bias),
    {
        let (weights, bias) = split_solution(solution, self.d, self.config.fit_intercept);
        self.weights = weights;
        self.bias = bias;
        self.n_iter = descent.sweeps;
        self.converged = descent.converged;
        let ghost start = ctx@;
        let w: Buffer = ctx.new_buffer(self.weights.len());
        let out: Buffer = ctx.new_buffer_uninitialized((n * 4) as u64);
        assert(ctx@ =~= start + seq![(4 * old(self).d) as u64, (4 * n) as u64]);
        let launch: Launch = launch_rows(x, w, out, n, self.d, self.bias);
        TrainingPass { w, out, launch }
    }

    /// Ends a fit with the mean squared error on the training rows.
    pub fn finish(&mut self, loss: Float32)
        ensures
            *final(self) == (Lasso { final_loss: loss, ..*old(self) }),
    {
        self.final_loss = loss;
    }

    /// The buffers and the launch that predict a target for each of `n` rows.
    pub fn predict(&self, ctx: &mut MetalContext, data: &[Float32], n: usize, d: usize) -> (r: Result<
        PredictPass,
        RegressionError,
    >)
        requires
            4 * data@.len() <= usize::MAX,
            4 * self.weights@.len() <= usize::MAX,
            predict_refusal(self.d, self.weights@.len(), data@.len() as usize, n, d) is None ==> 4
                * n + 255 <= usize::MAX,
        ensures
            match predict_refusal(self.d, self.weights@.len(), data@.len() as usize, n, d) {
                Some(e) => r == Err::<PredictPass, RegressionError>(e) && *final(ctx) == *old(ctx),
                None => r matches Ok(pass) && {
                    &&& final(ctx)@ == old(ctx)@ + seq![
                        (4 * (n * d)) as u64,
                        (4 * self.weights@.len()) as u64,
                        (4 * n) as u64,
                    ]
                    &&& pass.x == buffer_at(old(ctx)@.len(), 0, 4 * (n * d))
                    &&& pass.w == buffer_at(old(ctx)@.len(), 1, 4 * self.weights@.len() as int)
                    &&& pass.out == buffer_at(old(ctx)@.len(), 2, 4 * n)
                    &&& pass.launch@ == rows_launch(pass.x, pass.w, pass.out, n, d, self.bias)
                    &&& pass.launch@.bound_in(final(ctx)@)
                },
            },
    {
        match check_predict(self.d, self.weights.len(), data.len(), n, d) {
            Some(e) => Err(e),
            None => Ok(plan_rows(ctx, data.len(), self.weights.len(), n, d, self.bias)),
        }
    }

    /// The same for a score, which also needs a target for each row.
    pub fn score(
        &self,
        ctx: &mut MetalContext,
        data: &[Float32],
        y: &[Float32],
        n: usize,
        d: usize,
    ) -> (r: Result<PredictPass, RegressionError>)
        requires
            4 * data@.len() <= usize::MAX,
            4 * self.weights@.len() <= usize::MAX,
            y@.len() == n && predict_refusal(
                self.d,
                self.weights@.len(),
                data@.len() as usize,
                n,
                d,
            ) is None ==> 4 * n + 255 <= usize::MAX,
        ensures
            y@.len() != n ==> r == Err::<PredictPass, RegressionError>(
                RegressionError::TargetLength { expected: n, got: y@.len() as usize },
            ) && *final(ctx) == *old(ctx),
            y@.len() == n ==> match predict_refusal(
                self.d,
                self.weights@.len(),
                data@.len() as usize,
                n,
                d,
            ) {
                Some(e) => r == Err::<PredictPass, RegressionError>(e) && *final(ctx) == *old(ctx),
                None => r matches Ok(pass) && {
                    &&& final(ctx)@ == old(ctx)@ + seq![
                        (4 * (n * d)) as u64,
                        (4 * self.weights@.len()) as u64,
                        (4 * n) as u64,
                    ]
                    &&& pass.x == buffer_at(old(ctx)@.len(), 0, 4 * (n * d))
                    &&& pass.w == buffer_at(old(ctx)@.len(), 1, 4 * self.weights@.len() as int)
                    &&& pass.out == buffer_at(old(ctx)@.len(), 2, 4 * n)
                    &&& pass.launch@ == rows_launch(pass.x, pass.w, pass.out, n, d, self.bias)
                    &&& pass.launch@.bound_in(final(ctx)@)
                },
            },
    {
        if y.len() != n {
            return Err(RegressionError::TargetLength { expected: n, got: y.len() });
        }
        self.predict(ctx, data, n, d)
    }
}

/// The penalty is taken off a value above it, added to one below its negation, and a value in
/// between becomes zero.
pub proof fn lemma_shrinkage_cases(x: Float32, alpha: Float32)
    requires
        (Float32 { bits: 0 }).le(alpha),
    ensures
        shrinkage(x, alpha) is Subtract <==> alpha.lt(x),
        shrinkage(x, alpha) is Add <==> x.lt(alpha.negation()),
        shrinkage(x, alpha) is Subtract ==> (Float32 { bits: 0 }).lt(x),
        shrinkage(x, alpha) is Add ==> x.lt(Float32 { bits: 0 }),
        x.nan() ==> shrinkage(x, alpha) is Zero,
{
}

/// A sweep settles the descent exactly when no number changed by more than the tolerance.
pub proof fn lemma_settled_means_small_changes(
    changes: Seq<Float32>,
    tol: Float32,
    largest: Float32,
    j: int,
)
    requires
        greatest_magnitude(changes, largest),
    ensures
        settled(changes, tol) <==> largest.le(tol),
        settled(changes, tol) && 0 <= j < changes.len() && !changes[j].nan()
            ==> changes[j].abs_value().le(tol),
        (Float32 { bits: 0 }).le(tol) && (forall|i: int|
            0 <= i < changes.len() ==> (#[trigger] changes[i]).abs_value().le(tol)) ==> settled(
            changes,
            tol,
        ),
{
    if settled(changes, tol) {
        let other = choose|other: Float32| #[trigger]
            greatest_magnitude(changes, other) && other.le(tol);
        lemma_greatest_magnitude_unique(changes, largest, other);
        if 0 <= j < changes.len() && !changes[j].nan() {
            lemma_greatest_magnitude(changes, largest, j);
        }
    }
}

/// A sweep counts one, and the descent goes on until it settles or no sweep is left.
pub proof fn lemma_sweep_counts(descent: Descent, changes: Seq<Float32>)
    requires
        descent.wf(),
        !descent.over(),
    ensures
        !descent.converged,
        descent.sweeps < descent.config.max_iterations,
        descent.after(changes).sweeps == descent.sweeps + 1,
        descent.after(changes).converged <==> settled(changes, descent.config.tol),
        descent.after(changes).config == descent.config,
        descent.after(changes).dim == descent.dim,
{
}

} // verus!
