//! Linear regression in closed form, by the normal equations.

use vstd::prelude::*;
use crate::float::Float32;
use crate::least_squares::{check_fit, check_predict, launch_rows, pipelines, plan_gram, plan_rows, split_solution, GramPass, PredictPass, RegressionError};
use crate::matrix::exchange_rows;
use crate::metal::{Buffer, Launch, MetalContext};
use crate::pipeline::PipelineCache;
use crate::shape::is_matrix;
#[allow(unused_imports)]
use crate::least_squares::{fit_refusal, gram_buffers, gram_sizes, predict_refusal, reduce_launch, rows_launch, unknowns, xtx_launch, xty_launch};
#[allow(unused_imports)]
use crate::matrix::{entry, with_rows_exchanged};
#[allow(unused_imports)]
use crate::metal::{buffer_at, Kernel};
#[allow(unused_imports)]
use crate::shape::lemma_matrix_index;
#[allow(unused_imports)]
use crate::float::lemma_approximates;
#[allow(unused_imports)]
use vstd::arithmetic::power2::{lemma2_to64, lemma2_to64_rest, lemma_pow2_adds, pow2};

verus! {

/// The magnitude below which a pivot counts as zero, 1e-30.
pub const PIVOT_FLOOR: u32 = 0x0da2_4260;

/// Configuration for linear regression: ordinary least squares for `alpha` 0, ridge
/// regression above. `tol`, `max_iterations` and `seed` are not used by the closed form.
#[derive(Clone, Copy, Debug, PartialEq, Eq, Structural)]
pub struct LinearRegressionConfig {
    /// L2 regularization strength, applied to the coefficients only.
    pub alpha: Float32,
    /// Whether to fit an intercept.
    pub fit_intercept: bool,
    pub tol: Float32,
    pub max_iterations: usize,
    pub seed: u64,
}

impl Default for LinearRegressionConfig {
    /// `alpha` 0, with an intercept, tolerance 1e-4, 100 iterations, seed 42.
    fn default() -> (r: LinearRegressionConfig)
        ensures
            r == (LinearRegressionConfig {
                alpha: Float32 { bits: 0 },
                fit_intercept: true,
                tol: Float32 { bits: 0x38d1_b717 },
                max_iterations: 100,
                seed: 42,
            }),
    {
        LinearRegressionConfig {
            alpha: Float32 { bits: 0 },
            fit_intercept: true,
            tol: Float32 { bits: 0x38d1_b717 },
            max_iterations: 100,
            seed: 42,
        }
    }
}

pub struct LinearRegression {
    pub config: LinearRegressionConfig,
    /// Coefficients (d,).
    pub weights: Vec<Float32>,
    /// Intercept (zero when none is fitted).
    pub bias: Float32,
    /// Number of features.
    pub d: usize,
    /// The pipelines compiled so far.
    pub pipelines: PipelineCache,
    /// Solver iterations.
    pub n_iter: usize,
    /// Mean squared error on the training data after fit.
    pub final_loss: Float32,
}

/// What a fit leaves in a model.
#[verifier::ext_equal]
pub struct Outcome {
    pub weights: Seq<Float32>,
    pub bias: Float32,
    pub n_iter: int,
    pub final_loss: Float32,
}

/// The weights that a solution of the normal equations holds for `d` features, and the
/// intercept behind them where there is one.
pub open spec fn kept(config: LinearRegressionConfig, d: int, solution: Seq<Float32>) -> (
    Seq<Float32>,
    Float32,
) {
    (
        solution.take(d),
        if config.fit_intercept {
            solution[d]
        } else {
            Float32 { bits: 0 }
        },
    )
}

/// What a fit leaves in a model of `d` features, if `solution(alpha, k)` solves the normal
/// equations with `k` unknowns at the strength `alpha`, and `loss(w, b)` is the error of the
/// weights `w` and the intercept `b` on the training rows.
pub open spec fn fitted(
    config: LinearRegressionConfig,
    d: int,
    solution: spec_fn(Float32, int) -> Seq<Float32>,
    loss: spec_fn(Seq<Float32>, Float32) -> Float32,
) -> Outcome {
    let (weights, bias) = kept(
        config,
        d,
        solution(config.alpha, unknowns(d, config.fit_intercept)),
    );
    Outcome { weights, bias, n_iter: 1, final_loss: loss(weights, bias) }
}

/// A fit is settled by the strength and by whether there is an intercept: the tolerance, the
/// limit on iterations and the seed change neither whether it is refused nor what it leaves,
/// which always counts one iteration.
pub proof fn lemma_unused_settings(
    a: LinearRegressionConfig,
    b: LinearRegressionConfig,
    len: usize,
    targets: nat,
    n: usize,
    d: usize,
    solution: spec_fn(Float32, int) -> Seq<Float32>,
    loss: spec_fn(Seq<Float32>, Float32) -> Float32,
)
    requires
        a.alpha == b.alpha,
        a.fit_intercept == b.fit_intercept,
    ensures
        fit_refusal(a.alpha, len, targets, n, d) == fit_refusal(b.alpha, len, targets, n, d),
        fitted(a, d as int, solution, loss) == fitted(b, d as int, solution, loss),
        fitted(a, d as int, solution, loss).n_iter == 1,
{
}

/// The buffers and the launch that predict the training rows.
pub struct TrainingPass {
    pub w: Buffer,
    pub out: Buffer,
    pub launch: Launch,
}

/// Entry `j` of the diagonal of a `d` by `d` matrix.
pub open spec fn diagonal(matrix: Seq<Float32>, d: int, j: int) -> Float32 {
    matrix[j * d + j]
}

/// Whether `r` is the greatest number above zero on the diagonal of a `d` by `d` matrix, and
/// zero where there is none.
pub open spec fn is_largest_diagonal(matrix: Seq<Float32>, d: int, r: Float32) -> bool {
    &&& forall|j: int| 0 <= j < d ==> !r.lt(#[trigger] diagonal(matrix, d, j))
    &&& r.bits == 0 || ((Float32 { bits: 0 }).lt(r) && exists|j: int|
        0 <= j < d && #[trigger] diagonal(matrix, d, j) == r)
}

/// The greatest number above zero on the diagonal of a `d` by `d` matrix, and zero where
/// there is none.
pub fn largest_diagonal(matrix: &[Float32], d: usize) -> (r: Float32)
    requires
        matrix@.len() == d * d,
    ensures
        is_largest_diagonal(matrix@, d as int, r),
{
    let len: usize = matrix.len();
    let mut best: Float32 = Float32::zero();
    let mut j: usize = 0;
    while j < d
        invariant
            j <= d,
            matrix@.len() == len,
            len == d * d,
            best.bits == 0 || (Float32 { bits: 0 }).lt(best),
            forall|k: int| 0 <= k < j ==> !best.lt(#[trigger] diagonal(matrix@, d as int, k)),
            best.bits == 0 || exists|k: int|
                0 <= k < j && #[trigger] diagonal(matrix@, d as int, k) == best,
        decreases d - j,
    {
        proof {
            lemma_matrix_index(d as int, d as int, j as int, j as int);
        }
        let value: Float32 = matrix[j * d + j];
        if best.less(value) {
            best = value;
            assert(diagonal(matrix@, d as int, j as int) == best);
        }
        j += 1;
    }
    best
}

/// Whether `r` is the place of the pivot in `column`: the first of the greatest magnitude.
/// NaNs are passed over, but for one at the first place, which stays the pivot.
pub open spec fn is_pivot(column: Seq<Float32>, r: int) -> bool {
    &&& 0 <= r < column.len()
    &&& if column[0].nan() {
        r == 0
    } else {
        &&& !column[r].nan()
        &&& forall|j: int|
            0 <= j < column.len() ==> !column[r].abs_value().lt(
                (#[trigger] column[j]).abs_value(),
            )
        &&& forall|j: int|
            0 <= j < r && !column[j].nan() ==> (#[trigger] column[j]).abs_value().lt(
                column[r].abs_value(),
            )
    }
}

/// The place of the pivot in `column`, the entries of a column from the diagonal down.
pub fn pick_pivot(column: &[Float32]) -> (r: usize)
    requires
        column@.len() > 0,
    ensures
        is_pivot(column@, r as int),
{
    let mut pivot: usize = 0;
    let mut best: Float32 = column[0].abs();
    let mut i: usize = 1;
    while i < column.len()
        invariant
            1 <= i <= column@.len(),
            pivot < i,
            best == column@[pivot as int].abs_value(),
            column@[0].nan() ==> pivot == 0,
            !column@[0].nan() ==> !column@[pivot as int].nan(),
            !column@[0].nan() ==> forall|j: int|
                0 <= j < i ==> !best.lt((#[trigger] column@[j]).abs_value()),
            !column@[0].nan() ==> forall|j: int|
                0 <= j < pivot && !column@[j].nan() ==> (#[trigger] column@[j]).abs_value().lt(
                    best,
                ),
        decreases column@.len() - i,
    {
        let value: Float32 = column[i].abs();
        if best.less(value) {
            let ghost previous = best;
            best = value;
            pivot = i;
            proof {
                assert forall|j: int| 0 <= j < i && !column@[j].nan() implies (
                #[trigger] column@[j]).abs_value().lt(best) by {
                    assert(!previous.lt(column@[j].abs_value()));
                }
            }
        }
        i += 1;
    }
    pivot
}

/// Whether a pivot is too small to divide by: `Singular` with it if so.
pub fn check_pivot(pivot: Float32) -> (r: Result<(), RegressionError>)
    ensures
        r == (if pivot.abs_value().lt(Float32 { bits: PIVOT_FLOOR }) {
            Err::<(), RegressionError>(RegressionError::Singular(pivot))
        } else {
            Ok(())
        }),
{
    let floor: Float32 = Float32 { bits: PIVOT_FLOOR };
    if pivot.abs().less(floor) {
        Err(RegressionError::Singular(pivot))
    } else {
        Ok(())
    }
}

/// The entries of a column of a matrix of order `dim` from the diagonal down.
pub open spec fn lower_column(matrix: Seq<Float32>, dim: int, column: int) -> Seq<Float32> {
    Seq::new((dim - column) as nat, |i: int| entry(matrix, dim, column + i, column))
}

/// A system of `dim` linear equations that is brought into triangular form.
pub struct System {
    pub dim: usize,
    pub matrix: Vec<Float32>,
    /// The right-hand side.
    pub side: Vec<Float32>,
}

impl System {
    /// Whether the sizes of the parts belong together.
    pub open spec fn wf(&self) -> bool {
        &&& self.matrix@.len() == self.dim * self.dim
        &&& self.side@.len() == self.dim
    }

    pub fn new(matrix: Vec<Float32>, side: Vec<Float32>, dim: usize) -> (r: Result<
        System,
        RegressionError,
    >)
        ensures
            if matrix@.len() == dim * dim && side@.len() == dim {
                r == Ok::<System, RegressionError>(System { dim, matrix, side })
            } else {
                r == Err::<System, RegressionError>(RegressionError::SystemShape)
            },
    {
        if is_matrix(matrix.len(), dim, dim) && side.len() == dim {
            Ok(System { dim, matrix, side })
        } else {
            Err(RegressionError::SystemShape)
        }
    }

    /// Brings the pivot of `column` to the diagonal: the equation that holds it and the one at
    /// the diagonal change places. Gives the pivot, unless it is too small to divide by.
    pub fn pivot(&mut self, column: usize) -> (r: Result<Float32, RegressionError>)
        requires
            old(self).wf(),
            column < old(self).dim,
        ensures
            final(self).wf(),
            final(self).dim == old(self).dim,
            ({
                let dim = old(self).dim as int;
                exists|place: int|
                    {
                        &&& #[trigger] is_pivot(
                            lower_column(old(self).matrix@, dim, column as int),
                            place,
                        )
                        &&& final(self).matrix@ == with_rows_exchanged(
                            old(self).matrix@,
                            dim,
                            column as int,
                            column + place,
                        )
                        &&& final(self).side@ == with_rows_exchanged(
                            old(self).side@,
                            1,
                            column as int,
                            column + place,
                        )
                    }
            }),
            ({
                let pivot = entry(
                    final(self).matrix@,
                    old(self).dim as int,
                    column as int,
                    column as int,
                );
                r == (if pivot.abs_value().lt(Float32 { bits: PIVOT_FLOOR }) {
                    Err::<Float32, RegressionError>(RegressionError::Singular(pivot))
                } else {
                    Ok(pivot)
                })
            }),
    {
        let dim: usize = self.dim;
        let len: usize = self.matrix.len();
        let mut below: Vec<Float32> = Vec::new();
        let mut row: usize = column;
        while row < dim
            invariant
                column <= row <= dim,
                dim == self.dim,
                self.wf(),
                len == self.matrix@.len(),
                *self == *old(self),
                below@ == lower_column(self.matrix@, dim as int, column as int).take(row - column),
            decreases dim - row,
        {
            proof {
                lemma_matrix_index(dim as int, dim as int, row as int, column as int);
            }
            below.push(self.matrix[row * dim + column]);
            row += 1;
            assert(below@ =~= lower_column(self.matrix@, dim as int, column as int).take(
                row - column,
            ));
        }
        assert(below@ =~= lower_column(self.matrix@, dim as int, column as int));
        let place: usize = pick_pivot(&below);
        exchange_rows(&mut self.matrix, dim, dim, column, column + place);
        exchange_rows(&mut self.side, dim, 1, column, column + place);
        proof {
            lemma_matrix_index(dim as int, dim as int, column as int, column as int);
            assert(is_pivot(
                lower_column(old(self).matrix@, dim as int, column as int),
                place as int,
            ));
        }
        let pivot: Float32 = self.matrix[column * dim + column];
        match check_pivot(pivot) {
            Ok(_) => Ok(pivot),
            Err(e) => Err(e),
        }
    }
}

/// There is one place for the pivot of a column, so a system is pivoted in one way.
pub proof fn lemma_pivot_unique(column: Seq<Float32>, a: int, b: int)
    requires
        is_pivot(column, a),
        is_pivot(column, b),
    ensures
        a == b,
{
    assert(!column[a].abs_value().lt(column[b].abs_value()));
    assert(!column[b].abs_value().lt(column[a].abs_value()));
}

impl LinearRegression {
    pub fn new(config: LinearRegressionConfig) -> (r: LinearRegression)
        ensures
            r.config == config,
            r.weights@ == Seq::<Float32>::empty(),
            r.bias.bits == 0,
            r.d == 0,
            r.pipelines.wf(),
            r.pipelines.entry(Kernel::LinregGramXtxTiled) == Some(None::<usize>),
            r.pipelines.entry(Kernel::LinregGramXtxNaive) == Some(None::<usize>),
            r.pipelines.entry(Kernel::LinregGramXty) == Some(None::<usize>),
            r.pipelines.entry(Kernel::LinregReduceGram) == Some(None::<usize>),
            r.pipelines.entry(Kernel::LinregPredict) == Some(None::<usize>),
            r.n_iter == 0,
            r.final_loss.bits == 0,
    {
        LinearRegression {
            config,
            weights: Vec::new(),
            bias: Float32::zero(),
            d: 0,
            pipelines: pipelines(),
            n_iter: 0,
            final_loss: Float32::zero(),
        }
    }

    /// The fitted coefficients.
    pub fn weights(&self) -> (r: &[Float32])
        ensures
            r@ == self.weights@,
    {
        self.weights.as_slice()
    }

    /// The fitted coefficients.
    pub fn coef(&self) -> (r: &[Float32])
        ensures
            r@ == self.weights@,
    {
        self.weights.as_slice()
    }

    /// The intercept.
    pub fn bias(&self) -> (r: Float32)
        ensures
            r == self.bias,
    {
        self.bias
    }

    /// The intercept.
    pub fn intercept(&self) -> (r: Float32)
        ensures
            r == self.bias,
    {
        self.bias
    }

    /// Number of features the model was fitted with.
    pub fn n_features(&self) -> (r: usize)
        ensures
            r == self.d,
    {
        self.d
    }

    /// Starts a fit on `n` rows of `d` features: the passes that build the normal equations.
    pub fn fit(
        &mut self,
        ctx: &mut MetalContext,
        data: &[Float32],
        y: &[Float32],
        n: usize,
        d: usize,
    ) -> (r: Result<GramPass, RegressionError>)
        requires
            4 * data@.len() <= usize::MAX,
        ensures
            match fit_refusal(old(self).config.alpha, data@.len() as usize, y@.len(), n, d) {
                Some(e) => r == Err::<GramPass, RegressionError>(e) && *final(self) == *old(self)
                    && *final(ctx) == *old(ctx),
                None => r matches Ok(pass) && {
                    &&& final(ctx)@ == old(ctx)@ + gram_sizes(n, d)
                    &&& pass.buffers == gram_buffers(old(ctx)@.len(), n, d)
                    &&& pass.xtx@ == xtx_launch(pass.buffers, n, d)
                    &&& pass.xty@ == xty_launch(pass.buffers, n, d)
                    &&& pass.reduce@ == reduce_launch(pass.buffers, n, d)
                    &&& *final(self) == (LinearRegression { d, ..*old(self) })
                },
            },
    {
        match check_fit(self.config.alpha, data.len(), y.len(), n, d) {
            Some(e) => Err(e),
            None => {
                self.d = d;
                Ok(plan_gram(ctx, n, d))
            },
        }
    }

    /// Goes on with a fit once the system is solved: keeps the weights and the intercept, and
    /// lays out the pass that predicts the training rows.
    pub fn solved(&mut self, ctx: &mut MetalContext, x: Buffer, solution: &[Float32], n: usize) -> (r:
        TrainingPass)
        requires
            solution@.len() == unknowns(old(self).d as int, old(self).config.fit_intercept),
            4 * old(self).d <= usize::MAX,
            4 * n + 255 <= usize::MAX,
        ensures
            final(self).config == old(self).config,
            (final(self).weights@, final(self).bias) == kept(
                old(self).config,
                old(self).d as int,
                solution@,
            ),
            final(self).d == old(self).d,
            final(self).pipelines == old(self).pipelines,
            final(self).n_iter == 1,
            final(self).final_loss == old(self).final_loss,
            final(ctx)@ == old(ctx)@ + seq![(4 * old(self).d) as u64, (4 * n) as u64],
            r.w == buffer_at(old(ctx)@.len(), 0, 4 * old(self).d),
            r.out == buffer_at(old(ctx)@.len(), 1, 4 * n),
            r.launch@ == rows_launch(x, r.w, r.out, n, old(self).d, final(self).bias),
    {
        let (weights, bias) = split_solution(solution, self.d, self.config.fit_intercept);
        self.weights = weights;
        self.bias = bias;
        self.n_iter = 1;
        let ghost start = ctx@;
        let w: Buffer = ctx.new_buffer(self.weights.len());
        let out: Buffer = ctx.new_buffer_uninitialized((n * 4) as u64);
        assert(ctx@ =~= start + seq![(4 * old(self).d) as u64, (4 * n) as u64]);
        let launch: Launch = launch_rows(x, w, out, n, self.d, self.bias);
        TrainingPass { w, out, launch }
    }

    /// Ends a fit with the mean squared error on the training rows.
    pub fn finish(&mut self, loss: Float32)
        ensures
            *final(self) == (LinearRegression { final_loss: loss, ..*old(self) }),
    {
        self.final_loss = loss;
    }

    /// The buffers and the launch that predict a target for each of `n` rows.
    pub fn predict(&self, ctx: &mut MetalContext, data: &[Float32], n: usize, d: usize) -> (r: Result<
        PredictPass,
        RegressionError,
    >)
        requires
            4 * data@.len() <= usize::MAX,
            4 * self.weights@.len() <= usize::MAX,
            predict_refusal(self.d, self.weights@.len(), data@.len() as usize, n, d) is None ==> 4
                * n + 255 <= usize::MAX,
        ensures
            match predict_refusal(self.d, self.weights@.len(), data@.len() as usize, n, d) {
                Some(e) => r == Err::<PredictPass, RegressionError>(e) && *final(ctx) == *old(ctx),
                None => r matches Ok(pass) && {
                    &&& final(ctx)@ == old(ctx)@ + seq![
                        (4 * (n * d)) as u64,
                        (4 * self.weights@.len()) as u64,
                        (4 * n) as u64,
                    ]
                    &&& pass.x == buffer_at(old(ctx)@.len(), 0, 4 * (n * d))
                    &&& pass.w == buffer_at(old(ctx)@.len(), 1, 4 * self.weights@.len() as int)
                    &&& pass.out == buffer_at(old(ctx)@.len(), 2, 4 * n)
                    &&& pass.launch@ == rows_launch(pass.x, pass.w, pass.out, n, d, self.bias)
                    &&& pass.launch@.bound_in(final(ctx)@)
                },
            },
    {
        match check_predict(self.d, self.weights.len(), data.len(), n, d) {
            Some(e) => Err(e),
            None => Ok(plan_rows(ctx, data.len(), self.weights.len(), n, d, self.bias)),
        }
    }

    /// The same for a score, which also needs a target for each row.
    pub fn score(
        &self,
        ctx: &mut MetalContext,
        data: &[Float32],
        y: &[Float32],
        n: usize,
        d: usize,
    ) -> (r: Result<PredictPass, RegressionError>)
        requires
            4 * data@.len() <= usize::MAX,
            4 * self.weights@.len() <= usize::MAX,
            y@.len() == n && predict_refusal(
                self.d,
                self.weights@.len(),
                data@.len() as usize,
                n,
                d,
            ) is None ==> 4 * n + 255 <= usize::MAX,
        ensures
            y@.len() != n ==> r == Err::<PredictPass, RegressionError>(
                RegressionError::TargetLength { expected: n, got: y@.len() as usize },
            ) && *final(ctx) == *old(ctx),
            y@.len() == n ==> match predict_refusal(
                self.d,
                self.weights@.len(),
                data@.len() as usize,
                n,
                d,
            ) {
                Some(e) => r == Err::<PredictPass, RegressionError>(e) && *final(ctx) == *old(ctx),
                None => r matches Ok(pass) && {
                    &&& final(ctx)@ == old(ctx)@ + seq![
                        (4 * (n * d)) as u64,
                        (4 * self.weights@.len()) as u64,
                        (4 * n) as u64,
                    ]
                    &&& pass.x == buffer_at(old(ctx)@.len(), 0, 4 * (n * d))
                    &&& pass.w == buffer_at(old(ctx)@.len(), 1, 4 * self.weights@.len() as int)
                    &&& pass.out == buffer_at(old(ctx)@.len(), 2, 4 * n)
                    &&& pass.launch@ == rows_launch(pass.x, pass.w, pass.out, n, d, self.bias)
                    &&& pass.launch@.bound_in(final(ctx)@)
                },
            },
    {
        if y.len() != n {
            return Err(RegressionError::TargetLength { expected: n, got: y.len() });
        }
        self.predict(ctx, data, n, d)
    }
}

/// The least pivot is 1e-30.
pub proof fn lemma_pivot_floor()
    ensures
        (Float32 { bits: PIVOT_FLOOR }).approximates(1, 1000000000000000000000000000000),
{
    lemma2_to64();
    lemma2_to64_rest();
    lemma_pow2_adds(64, 59);
    assert(pow2(123) == 10633823966279326983230456482242756608);
    lemma_approximates(
        Float32 { bits: PIVOT_FLOOR },
        27,
        10633824,
        1,
        1000000000000000000000000000000,
        10633823966279326983230456482242756608,
    );
}

/// The weights that are kept are the first unknowns, and the bias is the last, where there is
/// one.
pub proof fn lemma_kept(config: LinearRegressionConfig, d: int, solution: Seq<Float32>, j: int)
    requires
        0 <= j < d,
        solution.len() == unknowns(d, config.fit_intercept),
    ensures
        kept(config, d, solution).0.len() == d,
        kept(config, d, solution).0[j] == solution[j],
        config.fit_intercept ==> solution.len() == d + 1 && kept(config, d, solution).1
            == solution[d],
        !config.fit_intercept ==> solution.len() == d && kept(config, d, solution).1.bits == 0,
{
}

/// A fit solves the system for its penalty once and keeps that solution.
pub proof fn lemma_fit_keeps_the_solution(
    config: LinearRegressionConfig,
    d: int,
    solution: spec_fn(Float32, int) -> Seq<Float32>,
    loss: spec_fn(Seq<Float32>, Float32) -> Float32,
    j: int,
)
    requires
        0 <= j < d,
        config.fit_intercept ==> solution(config.alpha, d + 1).len() == d + 1,
        !config.fit_intercept ==> solution(config.alpha, d).len() == d,
    ensures
        ({
            let r = fitted(config, d, solution, loss);
            &&& r.weights.len() == d
            &&& config.fit_intercept ==> r.weights[j] == solution(config.alpha, d + 1)[j] && r.bias
                == solution(config.alpha, d + 1)[d]
            &&& !config.fit_intercept ==> r.weights[j] == solution(config.alpha, d)[j]
                && r.bias.bits == 0
            &&& r.n_iter == 1
            &&& r.final_loss == loss(r.weights, r.bias)
        }),
{
}

/// The largest entry of the diagonal is at least zero and at least each of them, and is one of
/// them unless it is zero.
pub proof fn lemma_largest_diagonal(matrix: Seq<Float32>, d: int, r: Float32, j: int)
    requires
        is_largest_diagonal(matrix, d, r),
        0 <= j < d,
        !matrix[j * d + j].nan(),
    ensures
        (Float32 { bits: 0 }).le(r),
        matrix[j * d + j].le(r),
        r.bits != 0 ==> exists|i: int| 0 <= i < d && #[trigger] diagonal(matrix, d, i) == r,
        diagonal(matrix, d, j) == matrix[j * d + j],
{
    assert(diagonal(matrix, d, j) == matrix[j * d + j]);
}

/// The pivot of a column is the entry on or below the diagonal whose magnitude no other there
/// exceeds, the first of them.
pub proof fn lemma_pivot_is_greatest(
    matrix: Seq<Float32>,
    dim: int,
    column: int,
    place: int,
    row: int,
)
    requires
        is_pivot(lower_column(matrix, dim, column), place),
        0 <= column <= row < dim,
        !matrix[column * dim + column].nan(),
        !matrix[row * dim + column].nan(),
    ensures
        0 <= place < dim - column,
        matrix[row * dim + column].abs_value().le(
            matrix[(column + place) * dim + column].abs_value(),
        ),
        row < column + place ==> matrix[row * dim + column].abs_value().lt(
            matrix[(column + place) * dim + column].abs_value(),
        ),
{
    let lower = lower_column(matrix, dim, column);
    assert(lower[0] == matrix[column * dim + column]);
    assert(lower[row - column] == matrix[row * dim + column]);
    assert(lower[place] == matrix[(column + place) * dim + column]);
}

/// A column that begins with NaN has its pivot there.
pub proof fn lemma_nan_pivot(matrix: Seq<Float32>, dim: int, column: int, place: int)
    requires
        is_pivot(lower_column(matrix, dim, column), place),
        0 <= column < dim,
        matrix[column * dim + column].nan(),
    ensures
        place == 0,
{
    assert(lower_column(matrix, dim, column)[0] == matrix[column * dim + column]);
}

} // verus!
