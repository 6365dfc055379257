//! Binary logistic regression by full-batch L-BFGS.
//!
//! The device evaluates the loss and its gradient; the host computes search directions
//! and trial points. Which inputs are taken, what is launched, and when a direction is
//! replaced, a step is halved, a pair enters the history or the search ends is decided
//! here.

use vstd::prelude::*;
use crate::float::{Float32, HALF, ONE};
use crate::matrix::zeros;
use crate::metal::{group_count, Argument, Buffer, Kernel, Launch, MTLSize, MetalContext};
use crate::pipeline::PipelineCache;
use crate::select::sup_norm;
use crate::shape::is_matrix;
use crate::tally::count_near;
#[allow(unused_imports)]
use crate::metal::{buffer_at, groups_of, lemma_buffers_held, lemma_line_covers, line, LaunchView};
#[allow(unused_imports)]
use crate::select::{greatest_magnitude, lemma_greatest_magnitude, lemma_greatest_magnitude_unique};
#[allow(unused_imports)]
use crate::shape::lemma_matrix_bounds;
#[allow(unused_imports)]
use crate::tally::near_count;
#[allow(unused_imports)]
use crate::float::lemma_approximates;
#[allow(unused_imports)]
use vstd::arithmetic::power2::{lemma2_to64, lemma2_to64_rest, lemma_pow2_adds, pow2};

verus! {

/// How many pairs the L-BFGS history holds.
pub const HISTORY_LIMIT: usize = 10;

/// Two labels that differ by less than this are the same: 0.01.
pub const LABEL_GAP: u32 = 0x3c23_d70a;

/// How many points a line search tries.
pub const TRIAL_LIMIT: u32 = 32;

/// The curvature that a pair must exceed to enter the history, 1e-12.
pub const CURVATURE_FLOOR: u32 = 0x2b8c_bccc;

/// The kernel that evaluates loss and gradient for `d` features.
pub open spec fn kernel_for(d: usize) -> Kernel {
    if d >= 8 && d % 8 == 0 {
        Kernel::LogregFusedSimdgroup
    } else if d > 128 {
        Kernel::LogregFusedSplitd
    } else {
        Kernel::LogregFusedNaive
    }
}

/// The kernel that evaluates loss and gradient for `d` features.
pub fn pick_kernel_name(d: usize) -> (r: Kernel)
    ensures
        r == kernel_for(d),
{
    if d >= 8 && d % 8 == 0 {
        return Kernel::LogregFusedSimdgroup;
    }
    if d > 128 {
        return Kernel::LogregFusedSplitd;
    }
    Kernel::LogregFusedNaive
}

/// Configuration for logistic regression training.
///
/// Training uses full-batch L-BFGS. `learning_rate`, `momentum`, `batch_size` and `seed`
/// are not used by the optimizer.
#[derive(Clone, Copy, Debug, PartialEq, Eq, Structural)]
pub struct LogisticRegressionConfig {
    /// Inverse regularization strength (larger C = weaker regularization).
    pub c: Float32,
    pub learning_rate: Float32,
    pub momentum: Float32,
    /// Maximum number of L-BFGS iterations.
    pub max_epochs: usize,
    pub batch_size: usize,
    /// Convergence tolerance on gradient sup-norm.
    pub tol: Float32,
    pub seed: u64,
}

impl Default for LogisticRegressionConfig {
    /// C 1.0, learning rate 0.01, momentum 0.9, 100 epochs, batches of 256, tolerance 1e-4,
    /// seed 42.
    fn default() -> (r: LogisticRegressionConfig)
        ensures
            r == (LogisticRegressionConfig {
                c: Float32 { bits: 0x3f80_0000 },
                learning_rate: Float32 { bits: 0x3c23_d70a },
                momentum: Float32 { bits: 0x3f66_6666 },
                max_epochs: 100,
                batch_size: 256,
                tol: Float32 { bits: 0x38d1_b717 },
                seed: 42,
            }),
    {
        LogisticRegressionConfig {
            c: Float32 { bits: 0x3f80_0000 },
            learning_rate: Float32 { bits: 0x3c23_d70a },
            momentum: Float32 { bits: 0x3f66_6666 },
            max_epochs: 100,
            batch_size: 256,
            tol: Float32 { bits: 0x38d1_b717 },
            seed: 42,
        }
    }
}

/// Why a fit or a prediction was refused.
#[derive(Clone, Copy, Debug, PartialEq, Eq, Structural)]
pub enum LogisticRegressionError {
    Empty,
    DataLength { n: usize, d: usize, got: usize },
    LabelLength { expected: usize, got: usize },
    /// A label that is neither 0 nor 1; the first one.
    Label { index: usize },
    Dimension { expected: usize, got: usize },
    NotFitted,
}

pub struct LogisticRegression {
    pub config: LogisticRegressionConfig,
    /// Weights (D,).
    pub weights: Vec<Float32>,
    /// Bias (scalar).
    pub bias: Float32,
    /// Number of features.
    pub d: usize,
    /// The pipelines compiled so far.
    pub pipelines: PipelineCache,
    /// Number of epochs trained.
    pub n_epochs: usize,
    /// Final loss value.
    pub final_loss: Float32,
}

/// The kernel and the buffers of a fit.
#[derive(Clone, Copy, Debug, PartialEq, Eq, Structural)]
pub struct FitBuffers {
    pub kernel: Kernel,
    pub x: Buffer,
    pub y: Buffer,
    pub w: Buffer,
    pub gradient: Buffer,
    pub bias_gradient: Buffer,
    pub loss: Buffer,
    pub partials: Buffer,
    pub logits: Buffer,
}

/// The sizes in bytes of the buffers of a fit, in the order in which they are made.
pub open spec fn fit_sizes(n: int, d: int) -> Seq<u64> {
    seq![
        (4 * (n * d)) as u64,
        (4 * n) as u64,
        (4 * d) as u64,
        (4 * d) as u64,
        4,
        4,
        (groups_of(n, 256) * (d + 2) * 4) as u64,
        (4 * n) as u64,
    ]
}

/// The kernel and the buffers of a fit whose first buffer comes after `start` others.
pub open spec fn fit_buffers(start: nat, n: usize, d: usize) -> FitBuffers {
    let sizes = fit_sizes(n as int, d as int);
    FitBuffers {
        kernel: kernel_for(d),
        x: buffer_at(start, 0, sizes[0] as int),
        y: buffer_at(start, 1, sizes[1] as int),
        w: buffer_at(start, 2, sizes[2] as int),
        gradient: buffer_at(start, 3, sizes[3] as int),
        bias_gradient: buffer_at(start, 4, sizes[4] as int),
        loss: buffer_at(start, 5, sizes[5] as int),
        partials: buffer_at(start, 6, sizes[6] as int),
        logits: buffer_at(start, 7, sizes[7] as int),
    }
}

/// Whether `value` is the number 0 or the number 1.
pub open spec fn is_binary(value: Float32) -> bool {
    value.numerically_equal(Float32 { bits: 0 }) || value.numerically_equal(Float32 { bits: ONE })
}

/// The place of the first label from `i` on that is neither 0 nor 1.
pub open spec fn first_bad_label(y: Seq<Float32>, i: int) -> Option<int>
    decreases y.len() - i,
{
    if i >= y.len() {
        None
    } else if !is_binary(y[i]) {
        Some(i)
    } else {
        first_bad_label(y, i + 1)
    }
}

/// Why a fit is refused, if it is.
pub open spec fn fit_refusal(len: usize, y: Seq<Float32>, n: usize, d: usize) -> Option<
    LogisticRegressionError,
> {
    if n == 0 || d == 0 {
        Some(LogisticRegressionError::Empty)
    } else if len != n * d {
        Some(LogisticRegressionError::DataLength { n, d, got: len })
    } else if y.len() != n {
        Some(LogisticRegressionError::LabelLength { expected: n, got: y.len() as usize })
    } else {
        match first_bad_label(y, 0) {
            Some(index) => Some(LogisticRegressionError::Label { index: index as usize }),
            None => None,
        }
    }
}

/// Why a prediction is refused, if it is.
pub open spec fn predict_refusal(
    fitted_d: usize,
    weights: nat,
    len: usize,
    n: usize,
    d: usize,
) -> Option<LogisticRegressionError> {
    if d != fitted_d {
        Some(LogisticRegressionError::Dimension { expected: fitted_d, got: d })
    } else if weights == 0 {
        Some(LogisticRegressionError::NotFitted)
    } else if len != n * d {
        Some(LogisticRegressionError::DataLength { n, d, got: len })
    } else {
        None
    }
}

/// The launch that evaluates loss and gradient, group by group, at the weights in `w`.
pub open spec fn evaluate_launch(
    buffers: FitBuffers,
    n: usize,
    d: usize,
    inverse_n: Float32,
    bias: Float32,
) -> LaunchView {
    LaunchView {
        kernel: buffers.kernel,
        arguments: seq![
            Argument::Memory(buffers.x),
            Argument::Memory(buffers.w),
            Argument::Memory(buffers.y),
            Argument::Memory(buffers.partials),
            Argument::Word(n as u32),
            Argument::Word(d as u32),
            Argument::Real(inverse_n),
            Argument::Real(bias),
            Argument::Word(groups_of(n as int, 256) as u32),
        ],
        threadgroup_bytes: (8 * (d + 2) * 4) as u64,
        groups: line(groups_of(n as int, 256)),
        threads: line(256),
    }
}

/// The launch that adds up what the groups of an evaluation found.
pub open spec fn reduce_launch(buffers: FitBuffers, n: usize, d: usize) -> LaunchView {
    LaunchView {
        kernel: Kernel::LogregReducePartials,
        arguments: seq![
            Argument::Memory(buffers.partials),
            Argument::Memory(buffers.gradient),
            Argument::Memory(buffers.bias_gradient),
            Argument::Memory(buffers.loss),
            Argument::Word(groups_of(n as int, 256) as u32),
            Argument::Word(d as u32),
        ],
        threadgroup_bytes: 0,
        groups: line(1),
        threads: line(256),
    }
}

/// The launch that applies weights and bias to `n` rows.
pub open spec fn rows_launch(
    x: Buffer,
    w: Buffer,
    out: Buffer,
    n: usize,
    d: usize,
    bias: Float32,
) -> LaunchView {
    LaunchView {
        kernel: Kernel::LogregPredict,
        arguments: seq![
            Argument::Memory(x),
            Argument::Memory(w),
            Argument::Memory(out),
            Argument::Word(n as u32),
            Argument::Word(d as u32),
            Argument::Real(bias),
        ],
        threadgroup_bytes: 0,
        groups: line(groups_of(n as int, 256)),
        threads: line(256),
    }
}

/// The buffers and the launch of a prediction.
pub struct PredictPass {
    pub x: Buffer,
    pub w: Buffer,
    pub out: Buffer,
    pub launch: Launch,
}

proof fn lemma_partials_fit(n: int, d: int)
    requires
        n > 0,
        d > 0,
        4 * (n * d) <= usize::MAX,
        32 * (d + 2) <= usize::MAX,
    ensures
        0 <= groups_of(n, 256) * (d + 2),
        groups_of(n, 256) * (d + 2) * 4 <= usize::MAX,
{
    let g = groups_of(n, 256);
    if n < 256 {
        assert(g == 1);
    } else {
        assert(128 * g <= n);
        assert(128 * (g * (d + 2)) <= n * (d + 2)) by (nonlinear_arith)
            requires
                128 * g <= n,
                d > 0,
        ;
        assert(n * (d + 2) <= 3 * (n * d)) by (nonlinear_arith)
            requires
                n > 0,
                d >= 1,
        ;
    }
    assert(0 <= g * (d + 2)) by (nonlinear_arith)
        requires
            g >= 0,
            d > 0,
    ;
}

/// The kernels that logistic regression uses.
pub fn pipelines() -> (r: PipelineCache)
    ensures
        r.wf(),
        r.entry(Kernel::LogregFusedNaive) == Some(None::<usize>),
        r.entry(Kernel::LogregFusedSimdgroup) == Some(None::<usize>),
        r.entry(Kernel::LogregFusedSplitd) == Some(None::<usize>),
        r.entry(Kernel::LogregReducePartials) == Some(None::<usize>),
        r.entry(Kernel::LogregPredict) == Some(None::<usize>),
{
    let kernels: Vec<Kernel> = vec![
        Kernel::LogregFusedNaive,
        Kernel::LogregFusedSimdgroup,
        Kernel::LogregFusedSplitd,
        Kernel::LogregReducePartials,
        Kernel::LogregPredict,
    ];
    assert(kernels@[0] == Kernel::LogregFusedNaive);
    assert(kernels@[1] == Kernel::LogregFusedSimdgroup);
    assert(kernels@[2] == Kernel::LogregFusedSplitd);
    assert(kernels@[3] == Kernel::LogregReducePartials);
    assert(kernels@[4] == Kernel::LogregPredict);
    PipelineCache::new(kernels)
}

fn find_bad_label(y: &[Float32]) -> (r: Option<usize>)
    ensures
        match first_bad_label(y@, 0) {
            Some(i) => r matches Some(k) && k == i,
            None => r is None,
        },
{
    let zero: Float32 = Float32::zero();
    let one: Float32 = Float32 { bits: ONE };
    let mut i: usize = 0;
    while i < y.len()
        invariant
            i <= y@.len(),
            zero == (Float32 { bits: 0 }),
            one == (Float32 { bits: ONE }),
            first_bad_label(y@, 0) == first_bad_label(y@, i as int),
        decreases y@.len() - i,
    {
        if !y[i].equals(zero) && !y[i].equals(one) {
            return Some(i);
        }
        i += 1;
    }
    None
}

impl LogisticRegression {
    pub fn new(config: LogisticRegressionConfig) -> (r: LogisticRegression)
        ensures
            r.config == config,
            r.weights@ == Seq::<Float32>::empty(),
            r.bias.bits == 0,
            r.d == 0,
            r.pipelines.wf(),
            r.pipelines.entry(Kernel::LogregFusedNaive) == Some(None::<usize>),
            r.pipelines.entry(Kernel::LogregFusedSimdgroup) == Some(None::<usize>),
            r.pipelines.entry(Kernel::LogregFusedSplitd) == Some(None::<usize>),
            r.pipelines.entry(Kernel::LogregReducePartials) == Some(None::<usize>),
            r.pipelines.entry(Kernel::LogregPredict) == Some(None::<usize>),
            r.n_epochs == 0,
            r.final_loss.bits == 0,
    {
        LogisticRegression {
            config,
            weights: Vec::new(),
            bias: Float32::zero(),
            d: 0,
            pipelines: pipelines(),
            n_epochs: 0,
            final_loss: Float32::zero(),
        }
    }

    /// The trained weights.
    pub fn weights(&self) -> (r: &[Float32])
        ensures
            r@ == self.weights@,
    {
        self.weights.as_slice()
    }

    /// The bias term.
    pub fn bias(&self) -> (r: Float32)
        ensures
            r == self.bias,
    {
        self.bias
    }

    /// Starts a fit on `n` rows of `d` features with labels 0 and 1: forgets the weights of an
    /// earlier one, and lays out the buffers.
    pub fn fit(
        &mut self,
        ctx: &mut MetalContext,
        data: &[Float32],
        y: &[Float32],
        n: usize,
        d: usize,
    ) -> (r: Result<FitBuffers, LogisticRegressionError>)
        requires
            4 * data@.len() <= usize::MAX,
            fit_refusal(data@.len() as usize, y@, n, d) is None ==> 32 * (d + 2) <= usize::MAX,
        ensures
            match fit_refusal(data@.len() as usize, y@, n, d) {
                Some(e) => r == Err::<FitBuffers, LogisticRegressionError>(e) && *final(self)
                    == *old(self) && *final(ctx) == *old(ctx),
                None => {
                    &&& r == Ok::<FitBuffers, LogisticRegressionError>(
                        fit_buffers(old(ctx)@.len(), n, d),
                    )
                    &&& final(ctx)@ == old(ctx)@ + fit_sizes(n as int, d as int)
                    &&& final(self).config == old(self).config
                    &&& final(self).weights@ == Seq::new(d as nat, |i: int| Float32 { bits: 0 })
                    &&& final(self).bias.bits == 0
                    &&& final(self).d == d
                    &&& final(self).pipelines == old(self).pipelines
                    &&& final(self).n_epochs == old(self).n_epochs
                    &&& final(self).final_loss == old(self).final_loss
                },
            },
    {
        if n == 0 || d == 0 {
            return Err(LogisticRegressionError::Empty);
        }
        if !is_matrix(data.len(), n, d) {
            return Err(LogisticRegressionError::DataLength { n, d, got: data.len() });
        }
        if y.len() != n {
            return Err(LogisticRegressionError::LabelLength { expected: n, got: y.len() });
        }
        match find_bad_label(y) {
            Some(index) => {
                return Err(LogisticRegressionError::Label { index });
            },
            None => {},
        }
        proof {
            lemma_matrix_bounds(data@.len() as int, n as int, d as int);
            lemma_partials_fit(n as int, d as int);
        }
        self.d = d;
        self.weights = zeros(d);
        self.bias = Float32::zero();
        let groups: u64 = group_count(n as u64, 256);
        let ghost start = ctx@;
        let x: Buffer = ctx.new_buffer(data.len());
        let labels: Buffer = ctx.new_buffer(y.len());
        let w: Buffer = ctx.new_buffer_uninitialized((d * 4) as u64);
        let gradient: Buffer = ctx.new_buffer_uninitialized((d * 4) as u64);
        let bias_gradient: Buffer = ctx.new_buffer_uninitialized(4);
        let loss: Buffer = ctx.new_buffer_uninitialized(4);
        let partials: Buffer = ctx.new_buffer_uninitialized(groups * (d as u64 + 2) * 4);
        let logits: Buffer = ctx.new_buffer_uninitialized((n * 4) as u64);
        assert(ctx@ =~= start + fit_sizes(n as int, d as int));
        Ok(
            FitBuffers {
                kernel: pick_kernel_name(d),
                x,
                y: labels,
                w,
                gradient,
                bias_gradient,
                loss,
                partials,
                logits,
            },
        )
    }

    /// Ends a fit with what the search found: the weights and, behind them, the bias.
    pub fn finish(&mut self, search: &Search)
        requires
            search.wf(),
            search.weights@.len() == old(self).d + 1,
        ensures
            (Outcome {
                weights: final(self).weights@,
                bias: final(self).bias,
                n_epochs: final(self).n_epochs as int,
                final_loss: final(self).final_loss,
            }) == search@.outcome(old(self).d as int),
            final(self).d == old(self).d,
            final(self).pipelines == old(self).pipelines,
            final(self).config == old(self).config,
    {
        let d: usize = self.d;
        let mut weights: Vec<Float32> = Vec::new();
        let mut i: usize = 0;
        while i < d
            invariant
                i <= d,
                search.weights@.len() == d + 1,
                weights@ == search.weights@.take(i as int),
            decreases d - i,
        {
            weights.push(search.weights[i]);
            i += 1;
            assert(weights@ =~= search.weights@.take(i as int));
        }
        self.weights = weights;
        self.bias = search.weights[d];
        self.n_epochs = search.epochs;
        self.final_loss = search.loss;
    }

    /// The buffers and the launch that compute a probability for each of `n` rows.
    pub fn predict_proba(&self, ctx: &mut MetalContext, data: &[Float32], n: usize, d: usize) -> (r:
        Result<PredictPass, LogisticRegressionError>)
        requires
            4 * data@.len() <= usize::MAX,
            4 * self.weights@.len() <= usize::MAX,
            predict_refusal(self.d, self.weights@.len(), data@.len() as usize, n, d) is None ==> 4
                * n + 255 <= usize::MAX,
        ensures
            match predict_refusal(self.d, self.weights@.len(), data@.len() as usize, n, d) {
                Some(e) => r == Err::<PredictPass, LogisticRegressionError>(e) && *final(ctx)
                    == *old(ctx),
                None => r matches Ok(pass) && {
                    &&& final(ctx)@ == old(ctx)@ + seq![
                        (4 * (n * d)) as u64,
                        (4 * self.weights@.len()) as u64,
                        (4 * n) as u64,
                    ]
                    &&& pass.x == buffer_at(old(ctx)@.len(), 0, 4 * (n * d))
                    &&& pass.w == buffer_at(old(ctx)@.len(), 1, 4 * self.weights@.len() as int)
                    &&& pass.out == buffer_at(old(ctx)@.len(), 2, 4 * n)
                    &&& pass.launch@ == rows_launch(pass.x, pass.w, pass.out, n, d, self.bias)
                    &&& pass.launch@.bound_in(final(ctx)@)
                },
            },
    {
        if d != self.d {
            return Err(LogisticRegressionError::Dimension { expected: self.d, got: d });
        }
        if self.weights.len() == 0 {
            return Err(LogisticRegressionError::NotFitted);
        }
        if !is_matrix(data.len(), n, d) {
            return Err(LogisticRegressionError::DataLength { n, d, got: data.len() });
        }
        let ghost start = ctx@;
        let x: Buffer = ctx.new_buffer(data.len());
        let w: Buffer = ctx.new_buffer(self.weights.len());
        let out: Buffer = ctx.new_buffer_uninitialized((n * 4) as u64);
        assert(ctx@ =~= start + seq![
            (4 * (n * d)) as u64,
            (4 * self.weights@.len()) as u64,
            (4 * n) as u64,
        ]);
        let launch: Launch = launch_rows(x, w, out, n, d, self.bias);
        Ok(PredictPass { x, w, out, launch })
    }

    /// The hard labels that probabilities stand for: 1 from 0.5 on, else 0.
    pub fn predict(probabilities: &[Float32]) -> (r: Vec<Float32>)
        ensures
            r@ == Seq::new(
                probabilities@.len(),
                |i: int|
                    if (Float32 { bits: HALF }).le(probabilities@[i]) {
                        Float32 { bits: ONE }
                    } else {
                        Float32 { bits: 0 }
                    },
            ),
    {
        let half: Float32 = Float32 { bits: HALF };
        let mut r: Vec<Float32> = Vec::new();
        let mut i: usize = 0;
        while i < probabilities.len()
            invariant
                i <= probabilities@.len(),
                half == (Float32 { bits: HALF }),
                r@.len() == i,
                forall|j: int|
                    0 <= j < i ==> #[trigger] r@[j] == if (Float32 { bits: HALF }).le(
                        probabilities@[j],
                    ) {
                        Float32 { bits: ONE }
                    } else {
                        Float32 { bits: 0 }
                    },
            decreases probabilities@.len() - i,
        {
            if half.at_most(probabilities[i]) {
                r.push(Float32 { bits: ONE });
            } else {
                r.push(Float32::zero());
            }
            i += 1;
        }
        assert(r@ =~= Seq::new(
            probabilities@.len(),
            |i: int|
                if (Float32 { bits: HALF }).le(probabilities@[i]) {
                    Float32 { bits: ONE }
                } else {
                    Float32 { bits: 0 }
                },
        ));
        r
    }

    /// How many predictions are right, given the gap of each to its label.
    pub fn score(gaps: &[Float32]) -> (r: usize)
        ensures
            r == near_count(gaps@, Float32 { bits: LABEL_GAP }, gaps@.len() as int),
            r <= gaps@.len(),
    {
        count_near(gaps, Float32 { bits: LABEL_GAP })
    }
}

/// Whether weights are penalized: only a strength above zero has an inverse to do it with.
pub fn is_penalized(c: Float32) -> (r: bool)
    ensures
        r == (Float32 { bits: 0 }).lt(c),
{
    c.is_positive()
}

/// The launch that evaluates loss and gradient at the weights in the buffer `w`.
pub fn launch_evaluation(
    buffers: &FitBuffers,
    n: usize,
    d: usize,
    inverse_n: Float32,
    bias: Float32,
) -> (r: Launch)
    requires
        n + 255 <= usize::MAX,
        32 * (d + 2) <= usize::MAX,
    ensures
        r@ == evaluate_launch(*buffers, n, d, inverse_n, bias),
{
    let groups: u64 = group_count(n as u64, 256);
    let r = Launch {
        kernel: buffers.kernel,
        arguments: vec![
            Argument::Memory(buffers.x),
            Argument::Memory(buffers.w),
            Argument::Memory(buffers.y),
            Argument::Memory(buffers.partials),
            Argument::Word(#[verifier::truncate] (n as u32)),
            Argument::Word(#[verifier::truncate] (d as u32)),
            Argument::Real(inverse_n),
            Argument::Real(bias),
            Argument::Word(#[verifier::truncate] (groups as u32)),
        ],
        threadgroup_bytes: (8 * (d + 2) * 4) as u64,
        groups: MTLSize::line(groups),
        threads: MTLSize::line(256),
    };
    assert(r@ =~= evaluate_launch(*buffers, n, d, inverse_n, bias));
    r
}

/// The launch that adds up what the groups of an evaluation found.
pub fn launch_reduction(buffers: &FitBuffers, n: usize, d: usize) -> (r: Launch)
    requires
        n + 255 <= usize::MAX,
    ensures
        r@ == reduce_launch(*buffers, n, d),
{
    let groups: u64 = group_count(n as u64, 256);
    let r = Launch {
        kernel: Kernel::LogregReducePartials,
        arguments: vec![
            Argument::Memory(buffers.partials),
            Argument::Memory(buffers.gradient),
            Argument::Memory(buffers.bias_gradient),
            Argument::Memory(buffers.loss),
            Argument::Word(#[verifier::truncate] (groups as u32)),
            Argument::Word(#[verifier::truncate] (d as u32)),
        ],
        threadgroup_bytes: 0,
        groups: MTLSize::line(1),
        threads: MTLSize::line(256),
    };
    assert(r@ =~= reduce_launch(*buffers, n, d));
    r
}

/// The launch that applies weights and bias to `n` rows.
pub fn launch_rows(x: Buffer, w: Buffer, out: Buffer, n: usize, d: usize, bias: Float32) -> (r:
    Launch)
    requires
        n + 255 <= usize::MAX,
    ensures
        r@ == rows_launch(x, w, out, n, d, bias),
{
    let r = Launch {
        kernel: Kernel::LogregPredict,
        arguments: vec![
            Argument::Memory(x),
            Argument::Memory(w),
            Argument::Memory(out),
            Argument::Word(#[verifier::truncate] (n as u32)),
            Argument::Word(#[verifier::truncate] (d as u32)),
            Argument::Real(bias),
        ],
        threadgroup_bytes: 0,
        groups: MTLSize::line(group_count(n as u64, 256)),
        threads: MTLSize::line(256),
    };
    assert(r@ =~= rows_launch(x, w, out, n, d, bias));
    r
}

/// One pair of the history: a step, the change of the gradient over it, and the inverse of
/// their product.
#[verifier::ext_equal]
pub struct PairView {
    pub step: Seq<Float32>,
    pub change: Seq<Float32>,
    pub rho: Float32,
}

/// The L-BFGS history, oldest pair first.
pub struct History {
    steps: Vec<Vec<Float32>>,
    changes: Vec<Vec<Float32>>,
    rhos: Vec<Float32>,
}

impl View for History {
    type V = Seq<PairView>;

    closed spec fn view(&self) -> Seq<PairView> {
        Seq::new(
            self.rhos@.len(),
            |i: int|
                PairView { step: self.steps@[i]@, change: self.changes@[i]@, rho: self.rhos@[i] },
        )
    }
}

/// A history with one more pair, without its oldest where it is full.
pub open spec fn extended(history: Seq<PairView>, pair: PairView) -> Seq<PairView> {
    if history.len() >= HISTORY_LIMIT {
        history.skip(1).push(pair)
    } else {
        history.push(pair)
    }
}

impl History {
    pub closed spec fn wf(&self) -> bool {
        &&& self.steps@.len() == self.rhos@.len()
        &&& self.changes@.len() == self.rhos@.len()
        &&& 1 <= self.rhos@.len() <= HISTORY_LIMIT
    }

    /// A history holds at least one pair, and no more than its limit.
    pub proof fn lemma_length(&self)
        requires
            self.wf(),
        ensures
            1 <= self@.len() <= HISTORY_LIMIT,
    {
    }

    /// A history of one pair.
    pub fn new(step: Vec<Float32>, change: Vec<Float32>, rho: Float32) -> (r: History)
        ensures
            r.wf(),
            r@ == seq![PairView { step: step@, change: change@, rho }],
    {
        let r = History { steps: vec![step], changes: vec![change], rhos: vec![rho] };
        assert(r@ =~= seq![PairView { step: step@, change: change@, rho }]);
        r
    }

    /// How many pairs there are.
    pub fn len(&self) -> (r: usize)
        requires
            self.wf(),
        ensures
            r == self@.len(),
            1 <= r <= HISTORY_LIMIT,
    {
        self.rhos.len()
    }

    /// The step of pair `i`.
    pub fn step(&self, i: usize) -> (r: &[Float32])
        requires
            self.wf(),
            i < self@.len(),
        ensures
            r@ == self@[i as int].step,
    {
        self.steps[i].as_slice()
    }

    /// The change of the gradient over pair `i`.
    pub fn change(&self, i: usize) -> (r: &[Float32])
        requires
            self.wf(),
            i < self@.len(),
        ensures
            r@ == self@[i as int].change,
    {
        self.changes[i].as_slice()
    }

    /// The inverse product of pair `i`.
    pub fn rho(&self, i: usize) -> (r: Float32)
        requires
            self.wf(),
            i < self@.len(),
        ensures
            r == self@[i as int].rho,
    {
        self.rhos[i]
    }

    fn push(&mut self, step: Vec<Float32>, change: Vec<Float32>, rho: Float32)
        requires
            old(self).wf(),
        ensures
            final(self).wf(),
            final(self)@ == extended(
                old(self)@,
                PairView { step: step@, change: change@, rho },
            ),
    {
        let ghost before = self@;
        let ghost pair = PairView { step: step@, change: change@, rho };
        if self.rhos.len() >= HISTORY_LIMIT {
            let _ = self.steps.remove(0);
            let _ = self.changes.remove(0);
            let _ = self.rhos.remove(0);
        }
        self.steps.push(step);
        self.changes.push(change);
        self.rhos.push(rho);
        assert(self@ =~= extended(before, pair));
    }
}

/// What the search does next.
#[derive(Clone, Copy, Debug, PartialEq, Eq, Structural)]
pub enum Begin {
    /// Another iteration.
    Search,
    /// The gradient is below the tolerance.
    Converged,
    /// All iterations are done.
    Exhausted,
}

/// Which direction an iteration takes.
#[derive(Clone, Copy, Debug, PartialEq, Eq, Structural)]
pub enum Direction {
    /// That of the two-loop recursion.
    TwoLoop,
    /// Against the gradient.
    Steepest,
}

/// What becomes of a trial point.
#[derive(Clone, Copy, Debug, PartialEq, Eq, Structural)]
pub enum Verdict {
    /// It is the next point.
    Accepted,
    /// Half the step is tried next.
    Halve,
    /// No trial is left: the search ends.
    Failed,
}

/// Whether the search goes on after an accepted step.
#[derive(Clone, Copy, Debug, PartialEq, Eq, Structural)]
pub enum Progress {
    Continue,
    /// The gradient is no longer finite: the search ends.
    Diverged,
}

/// The state of an L-BFGS search over weights and bias.
pub struct Search {
    pub max_epochs: usize,
    pub tol: Float32,
    /// The current point: the weights and, behind them, the bias.
    pub weights: Vec<Float32>,
    /// The gradient at the current point.
    pub gradient: Vec<Float32>,
    /// The loss at the current point.
    pub loss: Float32,
    pub history: History,
    /// The iteration that runs or comes next.
    pub iteration: usize,
    /// How many points the running line search has tried.
    pub trials: u32,
    /// How many epochs have moved the point.
    pub epochs: usize,
}

/// What a search holds.
#[verifier::ext_equal]
pub struct SearchView {
    pub max_epochs: int,
    pub tol: Float32,
    pub weights: Seq<Float32>,
    pub gradient: Seq<Float32>,
    pub loss: Float32,
    pub history: Seq<PairView>,
    pub iteration: int,
    pub trials: int,
    pub epochs: int,
}

/// Where a first step leads to: the point, its gradient and its loss, and the history of that
/// one step.
pub struct StartView {
    pub weights: Seq<Float32>,
    pub gradient: Seq<Float32>,
    pub loss: Float32,
    pub history: Seq<PairView>,
}

/// A point: its gradient, its loss, the step to it, the change of the gradient over the step,
/// the product of both and its inverse.
pub struct PointView {
    pub weights: Seq<Float32>,
    pub gradient: Seq<Float32>,
    pub loss: Float32,
    pub step: Seq<Float32>,
    pub change: Seq<Float32>,
    pub curvature: Float32,
    pub rho: Float32,
}

/// A point that a line search tries, and what its loss may be at most.
pub struct TrialView {
    pub point: PointView,
    pub bound: Float32,
}

/// What a fit leaves in a model.
#[verifier::ext_equal]
pub struct Outcome {
    pub weights: Seq<Float32>,
    pub bias: Float32,
    pub n_epochs: int,
    pub final_loss: Float32,
}

impl View for Search {
    type V = SearchView;

    open spec fn view(&self) -> SearchView {
        SearchView {
            max_epochs: self.max_epochs as int,
            tol: self.tol,
            weights: self.weights@,
            gradient: self.gradient@,
            loss: self.loss,
            history: self.history@,
            iteration: self.iteration as int,
            trials: self.trials as int,
            epochs: self.epochs as int,
        }
    }
}

/// Whether no part of the gradient, NaNs left out, reaches the tolerance.
pub open spec fn settled(gradient: Seq<Float32>, tol: Float32) -> bool {
    exists|norm: Float32| #[trigger] greatest_magnitude(gradient, norm) && norm.lt(tol)
}

/// Whether the search goes on after a step to a point with this gradient.
pub open spec fn progress(gradient: Seq<Float32>) -> Progress {
    if exists|norm: Float32| #[trigger] greatest_magnitude(gradient, norm) && !norm.finite() {
        Progress::Diverged
    } else {
        Progress::Continue
    }
}

/// What becomes of a trial point with the loss `loss`, after `trials` others: it is accepted when
/// the loss is finite and at most `bound`, and the last one fails else.
pub open spec fn verdict(trials: int, loss: Float32, bound: Float32) -> Verdict {
    if loss.finite() && loss.le(bound) {
        Verdict::Accepted
    } else if trials + 1 < TRIAL_LIMIT {
        Verdict::Halve
    } else {
        Verdict::Failed
    }
}

/// The first trial from the `j`-th on that is accepted, if one is before they are used up.
pub open spec fn first_accepted(trial: spec_fn(int) -> TrialView, j: int) -> Option<int>
    decreases TRIAL_LIMIT - j,
{
    match verdict(j, trial(j).point.loss, trial(j).bound) {
        Verdict::Accepted => Some(j),
        Verdict::Halve => first_accepted(trial, j + 1),
        Verdict::Failed => None,
    }
}

impl SearchView {
    /// What the search does next: the iterations may be used up, or no part of the gradient
    /// may reach the tolerance.
    pub open spec fn beginning(self) -> Begin {
        if self.iteration >= self.max_epochs {
            Begin::Exhausted
        } else if settled(self.gradient, self.tol) {
            Begin::Converged
        } else {
            Begin::Search
        }
    }

    /// The same after `trials` points of the line search.
    pub open spec fn tried(self, trials: int) -> SearchView {
        SearchView { trials, ..self }
    }

    /// The search at an accepted point. The step enters the history when it has curvature.
    pub open spec fn moved(self, point: PointView) -> SearchView {
        SearchView {
            weights: point.weights,
            gradient: point.gradient,
            loss: point.loss,
            history: if (Float32 { bits: CURVATURE_FLOOR }).lt(point.curvature) {
                extended(
                    self.history,
                    PairView { step: point.step, change: point.change, rho: point.rho },
                )
            } else {
                self.history
            },
            iteration: self.iteration + 1,
            epochs: self.iteration + 1,
            ..self
        }
    }

    /// What the search leaves in a model of `d` features: the weights and, behind them, the
    /// bias.
    pub open spec fn outcome(self, d: int) -> Outcome {
        Outcome {
            weights: self.weights.take(d),
            bias: self.weights[d],
            n_epochs: self.epochs,
            final_loss: self.loss,
        }
    }

    /// Where the search ends, if `trial(c, s, j)` is the `j`-th point that the line search from
    /// `s` tries at the strength `c`.
    pub open spec fn ended(
        self,
        c: Float32,
        trial: spec_fn(Float32, SearchView, int) -> TrialView,
    ) -> SearchView
        decreases self.max_epochs - self.iteration,
    {
        if self.beginning() != Begin::Search {
            self
        } else {
            let begun = self.tried(0);
            match first_accepted(|j: int| trial(c, begun, j), 0) {
                None => self.tried(TRIAL_LIMIT as int),
                Some(j) => {
                    let next = begun.tried(j + 1).moved(trial(c, begun, j).point);
                    if progress(next.gradient) == Progress::Diverged {
                        next
                    } else {
                        next.ended(c, trial)
                    }
                },
            }
        }
    }
}

/// A search that has made its first step.
pub open spec fn started(config: LogisticRegressionConfig, start: StartView) -> SearchView {
    SearchView {
        max_epochs: config.max_epochs as int,
        tol: config.tol,
        weights: start.weights,
        gradient: start.gradient,
        loss: start.loss,
        history: start.history,
        iteration: 1,
        trials: 0,
        epochs: 1,
    }
}

/// What a fit leaves in a model of `d` features, if at the strength `c` the first step leads to
/// `start(c)`, and `trial(c, s, j)` is the `j`-th point that the line search from `s` tries.
pub open spec fn trained(
    config: LogisticRegressionConfig,
    d: int,
    start: spec_fn(Float32) -> StartView,
    trial: spec_fn(Float32, SearchView, int) -> TrialView,
) -> Outcome {
    started(config, start(config.c)).ended(config.c, trial).outcome(d)
}

impl Search {
    pub open spec fn wf(&self) -> bool {
        &&& self.history.wf()
        &&& self.weights@.len() == self.gradient@.len()
        &&& self.trials <= TRIAL_LIMIT
        &&& self.epochs == self.iteration
        &&& 1 <= self.iteration
        &&& self.iteration <= self.max_epochs || self.iteration == 1
    }

    /// A search that has made its first step, to `weights`.
    pub fn new(
        config: &LogisticRegressionConfig,
        weights: Vec<Float32>,
        gradient: Vec<Float32>,
        loss: Float32,
        history: History,
    ) -> (r: Search)
        requires
            history.wf(),
            weights@.len() == gradient@.len(),
        ensures
            r.wf(),
            r@ == started(
                *config,
                StartView {
                    weights: weights@,
                    gradient: gradient@,
                    loss,
                    history: history@,
                },
            ),
    {
        Search {
            max_epochs: config.max_epochs,
            tol: config.tol,
            weights,
            gradient,
            loss,
            history,
            iteration: 1,
            trials: 0,
            epochs: 1,
        }
    }

    /// Begins an iteration, if there is to be one: not when the iterations are used up, nor
    /// when no part of the gradient reaches the tolerance.
    pub fn begin(&mut self) -> (r: Begin)
        requires
            old(self).wf(),
        ensures
            final(self).wf(),
            r == old(self)@.beginning(),
            final(self)@ == (if r is Search {
                old(self)@.tried(0)
            } else {
                old(self)@
            }),
    {
        if self.iteration >= self.max_epochs {
            return Begin::Exhausted;
        }
        let norm: Float32 = sup_norm(self.gradient.as_slice());
        if norm.less(self.tol) {
            return Begin::Converged;
        }
        proof {
            assert forall|other: Float32| #[trigger]
                greatest_magnitude(self.gradient@, other) implies !other.lt(self.tol) by {
                lemma_greatest_magnitude_unique(self.gradient@, norm, other);
            }
        }
        self.trials = 0;
        Begin::Search
    }

    /// The direction to take, where the two-loop direction has the slope `slope`: only one
    /// that descends is taken.
    pub fn direction(slope: Float32) -> (r: Direction)
        ensures
            r == (if slope.lt(Float32 { bits: 0 }) {
                Direction::TwoLoop
            } else {
                Direction::Steepest
            }),
    {
        if slope.less(Float32::zero()) {
            Direction::TwoLoop
        } else {
            Direction::Steepest
        }
    }

    /// Judges a trial point by its loss: it is accepted when the loss is finite and at most
    /// `bound`. After the last trial the search fails.
    pub fn judge(&mut self, loss: Float32, bound: Float32) -> (r: Verdict)
        requires
            old(self).wf(),
            old(self).trials < TRIAL_LIMIT,
        ensures
            final(self).wf(),
            r == verdict(old(self).trials as int, loss, bound),
            r is Halve ==> final(self).trials < TRIAL_LIMIT,
            final(self)@ == old(self)@.tried(old(self).trials + 1),
    {
        self.trials = self.trials + 1;
        if loss.is_finite() && loss.at_most(bound) {
            Verdict::Accepted
        } else if self.trials < TRIAL_LIMIT {
            Verdict::Halve
        } else {
            Verdict::Failed
        }
    }

    /// Moves to an accepted point. The pair of `step` and `change` enters the history when
    /// their product `curvature` is above 1e-12; `rho` is the inverse of that product.
    pub fn accept(
        &mut self,
        weights: Vec<Float32>,
        gradient: Vec<Float32>,
        loss: Float32,
        step: Vec<Float32>,
        change: Vec<Float32>,
        curvature: Float32,
        rho: Float32,
    ) -> (r: Progress)
        requires
            old(self).wf(),
            old(self).iteration < old(self).max_epochs,
            weights@.len() == gradient@.len(),
        ensures
            final(self).wf(),
            final(self)@ == old(self)@.moved(
                PointView {
                    weights: weights@,
                    gradient: gradient@,
                    loss,
                    step: step@,
                    change: change@,
                    curvature,
                    rho,
                },
            ),
            r == progress(gradient@),
    {
        let floor: Float32 = Float32 { bits: CURVATURE_FLOOR };
        if floor.less(curvature) {
            self.history.push(step, change, rho);
        }
        let norm: Float32 = sup_norm(gradient.as_slice());
        let finite: bool = norm.is_finite();
        proof {
            assert forall|other: Float32| #[trigger]
                greatest_magnitude(gradient@, other) implies other == norm by {
                lemma_greatest_magnitude_unique(gradient@, norm, other);
            }
        }
        self.weights = weights;
        self.gradient = gradient;
        self.loss = loss;
        self.epochs = self.iteration + 1;
        self.iteration = self.iteration + 1;
        if finite {
            Progress::Continue
        } else {
            Progress::Diverged
        }
    }
}

/// However a search goes, it never runs more epochs than it may, and at least one.
pub proof fn lemma_epochs_bounded(search: Search)
    requires
        search.wf(),
    ensures
        1 <= search.epochs,
        search.epochs <= search.max_epochs || search.epochs == 1,
{
}

/// Whatever the line searches try, the search comes to an end, within its epochs.
pub proof fn lemma_search_ends(
    search: SearchView,
    c: Float32,
    trial: spec_fn(Float32, SearchView, int) -> TrialView,
)
    requires
        search.epochs == search.iteration,
        1 <= search.epochs,
        search.epochs <= search.max_epochs || search.epochs == 1,
    ensures
        search.epochs <= search.ended(c, trial).epochs,
        search.ended(c, trial).epochs <= search.max_epochs || search.ended(c, trial).epochs == 1,
    decreases search.max_epochs - search.iteration,
{
    if search.beginning() == Begin::Search {
        let begun = search.tried(0);
        match first_accepted(|j: int| trial(c, begun, j), 0) {
            None => {},
            Some(j) => {
                let next = begun.tried(j + 1).moved(trial(c, begun, j).point);
                lemma_search_ends(next, c, trial);
            },
        }
    }
}

/// Training is settled by the strength, the epochs and the tolerance: the learning rate, the
/// momentum, the batch size and the seed change nothing, neither whether a fit is refused, which
/// does not depend on any setting, nor what it leaves.
pub proof fn lemma_unused_settings(
    a: LogisticRegressionConfig,
    b: LogisticRegressionConfig,
    d: int,
    start: spec_fn(Float32) -> StartView,
    trial: spec_fn(Float32, SearchView, int) -> TrialView,
)
    requires
        a.c == b.c,
        a.max_epochs == b.max_epochs,
        a.tol == b.tol,
    ensures
        trained(a, d, start, trial) == trained(b, d, start, trial),
{
}

/// The buffers of a fit are all in the ledger, so each of its launches binds only buffers
/// that exist.
pub proof fn lemma_fit_launches_bound(
    start: Seq<u64>,
    n: usize,
    d: usize,
    inverse_n: Float32,
    bias: Float32,
)
    requires
        start.len() + 8 <= usize::MAX,
    ensures
        ({
            let ledger = start + fit_sizes(n as int, d as int);
            let buffers = fit_buffers(start.len(), n, d);
            &&& evaluate_launch(buffers, n, d, inverse_n, bias).bound_in(ledger)
            &&& reduce_launch(buffers, n, d).bound_in(ledger)
            &&& rows_launch(buffers.x, buffers.w, buffers.logits, n, d, bias).bound_in(ledger)
        }),
{
    let ledger = start + fit_sizes(n as int, d as int);
    let buffers = fit_buffers(start.len(), n, d);
    let sizes = fit_sizes(n as int, d as int);
    lemma_buffers_held(start, sizes);
}

/// Labels are told apart from 0.01 on, and the least curvature is 1e-12.
pub proof fn lemma_thresholds()
    ensures
        (Float32 { bits: LABEL_GAP }).approximates(1, 100),
        (Float32 { bits: CURVATURE_FLOOR }).approximates(1, 1000000000000),
{
    lemma2_to64();
    lemma2_to64_rest();
    assert(pow2(30) == 1073741824);
    lemma_approximates(
        Float32 { bits: LABEL_GAP },
        120,
        10737418,
        1,
        100,
        1073741824,
    );
    assert(pow2(63) == 9223372036854775808);
    lemma_approximates(
        Float32 { bits: CURVATURE_FLOOR },
        87,
        9223372,
        1,
        1000000000000,
        9223372036854775808,
    );
}

/// Which kernel evaluates the loss goes by the number of features alone.
pub proof fn lemma_kernel_by_features(d: usize)
    ensures
        d == 0 ==> kernel_for(d) == Kernel::LogregFusedNaive,
        d > 0 && d % 8 == 0 ==> kernel_for(d) == Kernel::LogregFusedSimdgroup,
        d % 8 != 0 && d <= 128 ==> kernel_for(d) == Kernel::LogregFusedNaive,
        d % 8 != 0 && d > 128 ==> kernel_for(d) == Kernel::LogregFusedSplitd,
{
}

/// An evaluation has a thread for every row and threadgroup memory for eight partial gradients;
/// the reduction takes up as many partial sums as there were groups.
pub proof fn lemma_evaluation_reaches_every_row(
    b: FitBuffers,
    n: usize,
    d: usize,
    inverse_n: Float32,
    bias: Float32,
)
    requires
        32 * (d + 2) <= usize::MAX,
    ensures
        ({
            let l = evaluate_launch(b, n, d, inverse_n, bias);
            &&& l.kernel == b.kernel
            &&& l.arguments.len() == 9
            &&& l.arguments[0] == Argument::Memory(b.x)
            &&& l.arguments[1] == Argument::Memory(b.w)
            &&& l.arguments[2] == Argument::Memory(b.y)
            &&& l.arguments[3] == Argument::Memory(b.partials)
            &&& l.arguments[4] == Argument::Word(n as u32)
            &&& l.arguments[5] == Argument::Word(d as u32)
            &&& l.arguments[6] == Argument::Real(inverse_n)
            &&& l.arguments[7] == Argument::Real(bias)
            &&& l.arguments[8] == Argument::Word(l.groups.width as u32)
            &&& l.threadgroup_bytes == 32 * (d + 2)
            &&& l.groups.width * l.threads.width >= n
            &&& l.groups.width * l.threads.width < n + 256
            &&& l.threads.width == 256
            &&& l.groups.height == 1 && l.threads.height == 1
        }),
        ({
            let l = reduce_launch(b, n, d);
            &&& l.kernel == Kernel::LogregReducePartials
            &&& l.arguments.len() == 6
            &&& l.arguments[0] == Argument::Memory(b.partials)
            &&& l.arguments[1] == Argument::Memory(b.gradient)
            &&& l.arguments[2] == Argument::Memory(b.bias_gradient)
            &&& l.arguments[3] == Argument::Memory(b.loss)
            &&& l.arguments[4] == Argument::Word(evaluate_launch(b, n, d, inverse_n, bias).groups.width as u32)
            &&& l.arguments[5] == Argument::Word(d as u32)
            &&& l.threadgroup_bytes == 0
            &&& l.groups == (MTLSize { width: 1, height: 1, depth: 1 })
            &&& l.threads.width == 256
            &&& l.threads.height == 1 && l.threads.depth == 1
        }),
{
    lemma_line_covers(n as int, 256);
}

/// A prediction binds rows, weights and where the result goes, hands on the bias, and has a
/// thread for every row.
pub proof fn lemma_prediction_reaches_every_row(
    x: Buffer,
    w: Buffer,
    out: Buffer,
    n: usize,
    d: usize,
    bias: Float32,
)
    ensures
        ({
            let l = rows_launch(x, w, out, n, d, bias);
            &&& l.kernel == Kernel::LogregPredict
            &&& l.arguments.len() == 6
            &&& l.arguments[0] == Argument::Memory(x)
            &&& l.arguments[1] == Argument::Memory(w)
            &&& l.arguments[2] == Argument::Memory(out)
            &&& l.arguments[3] == Argument::Word(n as u32)
            &&& l.arguments[4] == Argument::Word(d as u32)
            &&& l.arguments[5] == Argument::Real(bias)
            &&& l.threadgroup_bytes == 0
            &&& l.groups.width * l.threads.width >= n
            &&& l.groups.width * l.threads.width < n + 256
            &&& l.threads.width == 256
            &&& l.groups.height == 1 && l.threads.height == 1
        }),
{
    lemma_line_covers(n as int, 256);
}

/// The buffers of a fit, one after the other, each of the size of what it holds.
pub proof fn lemma_fit_buffers(start: nat, n: usize, d: usize, inverse_n: Float32, bias: Float32)
    requires
        start + 8 <= usize::MAX,
        0 < n,
        0 < d,
        4 * (n * d) <= usize::MAX,
        32 * (d + 2) <= usize::MAX,
    ensures
        ({
            let b = fit_buffers(start, n, d);
            &&& b.kernel == kernel_for(d)
            &&& b.x.id == start && b.x.byte_len == 4 * (n * d)
            &&& b.y.id == start + 1 && b.y.byte_len == 4 * n
            &&& b.w.id == start + 2 && b.w.byte_len == 4 * d
            &&& b.gradient.id == start + 3 && b.gradient.byte_len == 4 * d
            &&& b.bias_gradient.id == start + 4 && b.bias_gradient.byte_len == 4
            &&& b.loss.id == start + 5 && b.loss.byte_len == 4
            &&& b.partials.id == start + 6 && b.partials.byte_len == 4 * (evaluate_launch(b, n, d, inverse_n, bias).groups.width * (d + 2))
            &&& b.logits.id == start + 7 && b.logits.byte_len == 4 * n
        }),
        fit_sizes(n as int, d as int).len() == 8,
{
    lemma_matrix_bounds(n * d, n as int, d as int);
    lemma_partials_fit(n as int, d as int);
    lemma_line_covers(n as int, 256);
    let g = groups_of(n as int, 256);
    assert(g * (d + 2) * 4 == 4 * (g * (d + 2))) by (nonlinear_arith);
}

/// The labels that are taken up are zero, of either sign, and one.
pub proof fn lemma_binary_labels(value: Float32)
    ensures
        is_binary(value) <==> value.bits == 0 || value.bits == 0x8000_0000 || value.bits
            == 0x3f80_0000,
{
}

/// The label that is refused is the first that is neither zero nor one; none is where each is
/// one of the two.
pub proof fn lemma_first_bad_label(y: Seq<Float32>, i: int)
    requires
        0 <= i <= y.len(),
        forall|j: int| 0 <= j < i ==> is_binary(#[trigger] y[j]),
    ensures
        i == y.len() ==> first_bad_label(y, 0) is None,
        i < y.len() && !is_binary(y[i]) ==> first_bad_label(y, 0) == Some(i),
{
    lemma_good_labels_passed(y, 0, i);
}

proof fn lemma_good_labels_passed(y: Seq<Float32>, from: int, i: int)
    requires
        0 <= from <= i <= y.len(),
        forall|j: int| from <= j < i ==> is_binary(#[trigger] y[j]),
    ensures
        first_bad_label(y, from) == first_bad_label(y, i),
    decreases i - from,
{
    if from < i {
        lemma_good_labels_passed(y, from + 1, i);
    }
}

/// The search has converged exactly when each number of the gradient is below the tolerance in
/// magnitude.
pub proof fn lemma_settled_means_small_gradient(
    gradient: Seq<Float32>,
    tol: Float32,
    norm: Float32,
    j: int,
)
    requires
        greatest_magnitude(gradient, norm),
    ensures
        settled(gradient, tol) <==> norm.lt(tol),
        settled(gradient, tol) && 0 <= j < gradient.len() && !gradient[j].nan()
            ==> gradient[j].abs_value().lt(tol),
        (Float32 { bits: 0 }).lt(tol) && (forall|i: int|
            0 <= i < gradient.len() ==> (#[trigger] gradient[i]).abs_value().lt(tol)) ==> settled(
            gradient,
            tol,
        ),
{
    if settled(gradient, tol) {
        let other = choose|other: Float32| #[trigger]
            greatest_magnitude(gradient, other) && other.lt(tol);
        lemma_greatest_magnitude_unique(gradient, norm, other);
        if 0 <= j < gradient.len() && !gradient[j].nan() {
            lemma_greatest_magnitude(gradient, norm, j);
        }
    }
}

/// The search has diverged exactly when a number of the gradient is infinite.
pub proof fn lemma_diverged_means_infinite(gradient: Seq<Float32>, norm: Float32, j: int)
    requires
        greatest_magnitude(gradient, norm),
    ensures
        progress(gradient) is Diverged <==> norm.bits == 0x7f80_0000,
        0 <= j < gradient.len() && gradient[j].abs_value().bits == 0x7f80_0000 ==> progress(
            gradient,
        ) is Diverged,
        progress(gradient) is Diverged ==> exists|i: int|
            0 <= i < gradient.len() && (#[trigger] gradient[i]).abs_value().bits == 0x7f80_0000,
{
    if progress(gradient) is Diverged {
        let other = choose|other: Float32| #[trigger]
            greatest_magnitude(gradient, other) && !other.finite();
        lemma_greatest_magnitude_unique(gradient, norm, other);
        let i = choose|i: int|
            0 <= i < gradient.len() && (#[trigger] gradient[i]).abs_value() == norm;
        assert(gradient[i].abs_value().bits == 0x7f80_0000);
    }
    if 0 <= j < gradient.len() && gradient[j].abs_value().bits == 0x7f80_0000 {
        lemma_greatest_magnitude(gradient, norm, j);
    }
}

/// A step is accepted exactly when its loss is finite and within the bound. One that is not is
/// halved, and after 32 of them the search fails.
pub proof fn lemma_verdicts(trials: int, loss: Float32, bound: Float32)
    requires
        0 <= trials < 32,
    ensures
        verdict(trials, loss, bound) is Accepted <==> loss.finite() && loss.le(bound),
        !(loss.finite() && loss.le(bound)) && trials < 31 ==> verdict(trials, loss, bound) is Halve,
        !(loss.finite() && loss.le(bound)) && trials == 31 ==> verdict(
            trials,
            loss,
            bound,
        ) is Failed,
{
}

/// The step that is taken is the first of 32 whose loss is finite and within its bound; none is
/// where there is none.
pub proof fn lemma_first_accepted(trial: spec_fn(int) -> TrialView, j: int)
    requires
        0 <= j <= 32,
        forall|i: int|
            0 <= i < j ==> !((#[trigger] trial(i)).point.loss.finite() && trial(i).point.loss.le(
                trial(i).bound,
            )),
    ensures
        j == 32 ==> first_accepted(trial, 0) is None,
        j < 32 && trial(j).point.loss.finite() && trial(j).point.loss.le(trial(j).bound)
            ==> first_accepted(trial, 0) == Some(j),
{
    lemma_rejected_passed(trial, 0, j);
}

proof fn lemma_rejected_passed(trial: spec_fn(int) -> TrialView, from: int, j: int)
    requires
        0 <= from <= j <= 32,
        forall|i: int|
            from <= i < j ==> !((#[trigger] trial(i)).point.loss.finite() && trial(i).point.loss.le(
                trial(i).bound,
            )),
    ensures
        j == 32 && from < j ==> first_accepted(trial, from) is None,
        j < 32 ==> first_accepted(trial, from) == first_accepted(trial, j),
    decreases j - from,
{
    if from < j {
        assert(trial(from) == trial(from));
        if from < 31 {
            lemma_rejected_passed(trial, from + 1, j);
        }
    }
}

/// A history holds ten pairs at most. The new one comes last; of ten, the oldest leaves.
pub proof fn lemma_history_keeps_the_latest(history: Seq<PairView>, pair: PairView, i: int)
    requires
        history.len() <= 10,
    ensures
        extended(history, pair).len() <= 10,
        extended(history, pair).len() == (if history.len() < 10 {
            history.len() + 1
        } else {
            10
        }),
        extended(history, pair).last() == pair,
        history.len() < 10 && 0 <= i < history.len() ==> extended(history, pair)[i] == history[i],
        history.len() == 10 && 0 <= i < 9 ==> extended(history, pair)[i] == history[i + 1],
{
}

/// A step that is taken becomes the point of the search and counts one. Its pair is kept exactly
/// when the curvature along it is above 1e-12.
pub proof fn lemma_step_taken(search: SearchView, point: PointView)
    ensures
        ({
            let next = search.moved(point);
            &&& next.weights == point.weights
            &&& next.gradient == point.gradient
            &&& next.loss == point.loss
            &&& next.iteration == search.iteration + 1
            &&& next.epochs == search.iteration + 1
            &&& next.max_epochs == search.max_epochs
            &&& next.tol == search.tol
            &&& (Float32 { bits: 0x2b8c_bccc }).lt(point.curvature) ==> {
                &&& next.history.len() > 0
                &&& next.history.last().step == point.step
                &&& next.history.last().change == point.change
                &&& next.history.last().rho == point.rho
            }
            &&& !(Float32 { bits: 0x2b8c_bccc }).lt(point.curvature) ==> next.history
                == search.history
        }),
{
}

/// The search ends for want of epochs or because the gradient has settled, in this order.
pub proof fn lemma_beginnings(search: SearchView)
    ensures
        search.beginning() is Exhausted <==> search.iteration >= search.max_epochs,
        search.beginning() is Converged <==> search.iteration < search.max_epochs && settled(
            search.gradient,
            search.tol,
        ),
        search.beginning() is Search <==> search.iteration < search.max_epochs && !settled(
            search.gradient,
            search.tol,
        ),
{
}

/// What a search leaves: the weights of the features, the last one as bias, its epochs and loss.
pub proof fn lemma_outcome(search: SearchView, d: int, j: int)
    requires
        search.weights.len() == d + 1,
        0 <= j < d,
    ensures
        search.outcome(d).weights.len() == d,
        search.outcome(d).weights[j] == search.weights[j],
        search.outcome(d).bias == search.weights[d],
        search.outcome(d).n_epochs == search.epochs,
        search.outcome(d).final_loss == search.loss,
{
}

/// A search goes on from the first step, which is its first epoch.
pub proof fn lemma_search_starts(config: LogisticRegressionConfig, start: StartView)
    ensures
        started(config, start).weights == start.weights,
        started(config, start).gradient == start.gradient,
        started(config, start).loss == start.loss,
        started(config, start).history == start.history,
        started(config, start).iteration == 1,
        started(config, start).epochs == 1,
        started(config, start).trials == 0,
        started(config, start).max_epochs == config.max_epochs,
        started(config, start).tol == config.tol,
{
}

/// When a fit and a prediction are taken, and why not.
pub proof fn lemma_refusals(
    len: usize,
    y: Seq<Float32>,
    n: usize,
    d: usize,
    fitted_d: usize,
    weights: nat,
)
    ensures
        ({
            let r = fit_refusal(len, y, n, d);
            &&& r is None <==> (n > 0 && d > 0) && (len == n * d) && (y.len() == n) && (first_bad_label(y, 0) is None)
            &&& !(n > 0 && d > 0) ==> r == Some(LogisticRegressionError::Empty)
            &&& (n > 0 && d > 0) && !(len == n * d) ==> r == Some(LogisticRegressionError::DataLength { n, d, got: len })
            &&& (n > 0 && d > 0) && (len == n * d) && !(y.len() == n) ==> r == Some(LogisticRegressionError::LabelLength { expected: n, got: y.len() as usize })
            &&& (n > 0 && d > 0) && (len == n * d) && (y.len() == n) && !(first_bad_label(y, 0) is None) ==> r == Some(LogisticRegressionError::Label { index: first_bad_label(y, 0)->0 as usize })
        }),
        ({
            let r = predict_refusal(fitted_d, weights, len, n, d);
            &&& r is None <==> (d == fitted_d) && (weights > 0) && (len == n * d)
            &&& !(d == fitted_d) ==> r == Some(LogisticRegressionError::Dimension { expected: fitted_d, got: d })
            &&& (d == fitted_d) && !(weights > 0) ==> r == Some(LogisticRegressionError::NotFitted)
            &&& (d == fitted_d) && (weights > 0) && !(len == n * d) ==> r == Some(LogisticRegressionError::DataLength { n, d, got: len })
        }),
{
}

} // verus!
