//! t-distributed stochastic neighbour embedding, by exact gradient descent.
//!
//! The device computes distances, affinities and the two sums of each gradient; the host
//! moves the embedding. Which inputs are taken, what is launched, how strongly the affinities
//! are exaggerated and when descent stops is decided here.

use vstd::prelude::*;
use crate::float::{Float32, ONE};
#[allow(unused_imports)]
use crate::float::{lemma_constants, WHOLE_LIMIT};
use crate::metal::{group_count, Argument, Buffer, Kernel, Launch, MTLSize, MetalContext};
use crate::shape::is_matrix;
#[allow(unused_imports)]
use crate::metal::{buffer_at, groups_of, lemma_buffers_held, lemma_groups_cover, lemma_line_covers, line, LaunchView};
#[allow(unused_imports)]
use crate::shape::lemma_matrix_bounds;

verus! {

/// Configuration for t-SNE.
#[derive(Clone, Copy, Debug, PartialEq, Eq, Structural)]
pub struct TSNEConfig {
    /// Number of embedding dimensions, 1 to 8.
    pub n_components: usize,
    /// Target perplexity, at least 1 and below the number of samples.
    pub perplexity: Float32,
    /// Gradient descent step size.
    pub learning_rate: Float32,
    /// Number of gradient descent iterations.
    pub n_iter: usize,
    /// Multiplier of the affinities in the first iterations; at least 1.
    pub early_exaggeration: Float32,
    /// Number of iterations for which `early_exaggeration` is active.
    pub exaggeration_iter: usize,
    /// Momentum coefficient of the update.
    pub momentum: Float32,
    /// Seed of the initial embedding.
    pub seed: u64,
    /// Threshold on the gradient norm below which descent stops; 0 for none.
    pub min_grad_norm: Float32,
}

impl Default for TSNEConfig {
    /// Two dimensions, perplexity 30, learning rate 200, 1000 iterations of which 250 with
    /// exaggeration 12, momentum 0.8, seed 42, gradient threshold 1e-7.
    fn default() -> (r: TSNEConfig)
        ensures
            r == (TSNEConfig {
                n_components: 2,
                perplexity: Float32 { bits: 0x41f0_0000 },
                learning_rate: Float32 { bits: 0x4348_0000 },
                n_iter: 1000,
                early_exaggeration: Float32 { bits: 0x4140_0000 },
                exaggeration_iter: 250,
                momentum: Float32 { bits: 0x3f4c_cccd },
                seed: 42,
                min_grad_norm: Float32 { bits: 0x33d6_bf95 },
            }),
    {
        TSNEConfig {
            n_components: 2,
            perplexity: Float32 { bits: 0x41f0_0000 },
            learning_rate: Float32 { bits: 0x4348_0000 },
            n_iter: 1000,
            early_exaggeration: Float32 { bits: 0x4140_0000 },
            exaggeration_iter: 250,
            momentum: Float32 { bits: 0x3f4c_cccd },
            seed: 42,
            min_grad_norm: Float32 { bits: 0x33d6_bf95 },
        }
    }
}

/// Why a fit was refused.
#[derive(Clone, Copy, Debug, PartialEq, Eq, Structural)]
pub enum TSNEError {
    /// Fewer than two samples.
    Samples(usize),
    /// No features.
    Features(usize),
    DataLength { n: usize, d: usize, got: usize },
    Components(usize),
    Perplexity(Float32),
    LearningRate(Float32),
    Iterations,
    Exaggeration(Float32),
}

pub struct TSNE {
    pub config: TSNEConfig,
    /// Low-dimensional embedding, row-major `(n, n_components)`.
    pub embedding: Vec<Float32>,
    pub n: usize,
    pub d: usize,
    /// Number of gradient iterations performed.
    pub n_iter_: usize,
    /// Final Kullback-Leibler divergence.
    pub kl_divergence: Float32,
}

/// Why a fit is refused, if it is. `rounded_n` is the number of samples as a `Float32`.
pub open spec fn fit_refusal(
    config: TSNEConfig,
    len: usize,
    n: usize,
    d: usize,
    rounded_n: Float32,
) -> Option<TSNEError> {
    let one = Float32 { bits: ONE };
    if n <= 1 {
        Some(TSNEError::Samples(n))
    } else if d == 0 {
        Some(TSNEError::Features(d))
    } else if len != n * d {
        Some(TSNEError::DataLength { n, d, got: len })
    } else if !(1 <= config.n_components <= 8) {
        Some(TSNEError::Components(config.n_components))
    } else if !(one.le(config.perplexity) && config.perplexity.lt(rounded_n)) {
        Some(TSNEError::Perplexity(config.perplexity))
    } else if !((Float32 { bits: 0 }).lt(config.learning_rate) && config.learning_rate.finite()) {
        Some(TSNEError::LearningRate(config.learning_rate))
    } else if config.n_iter == 0 {
        Some(TSNEError::Iterations)
    } else if !(one.le(config.early_exaggeration) && config.early_exaggeration.finite()) {
        Some(TSNEError::Exaggeration(config.early_exaggeration))
    } else {
        None
    }
}

/// The buffers of a fit.
#[derive(Clone, Copy, Debug, PartialEq, Eq, Structural)]
pub struct FitBuffers {
    pub data: Buffer,
    pub distances: Buffer,
    pub affinities: Buffer,
    pub embedding: Buffer,
    pub attraction: Buffer,
    pub repulsion: Buffer,
    pub normalizer: Buffer,
}

/// The sizes in bytes of the buffers of a fit, in the order in which they are made.
pub open spec fn fit_sizes(n: int, d: int, components: int) -> Seq<u64> {
    seq![
        (4 * (n * d)) as u64,
        (4 * (n * n)) as u64,
        (4 * (n * n)) as u64,
        (4 * (n * components)) as u64,
        (4 * (n * components)) as u64,
        (4 * (n * components)) as u64,
        (4 * n) as u64,
    ]
}

/// The buffers of a fit, where the first one comes after `start` others.
pub open spec fn fit_buffers(start: nat, n: int, d: int, components: int) -> FitBuffers {
    let sizes = fit_sizes(n, d, components);
    FitBuffers {
        data: buffer_at(start, 0, sizes[0] as int),
        distances: buffer_at(start, 1, sizes[1] as int),
        affinities: buffer_at(start, 2, sizes[2] as int),
        embedding: buffer_at(start, 3, sizes[3] as int),
        attraction: buffer_at(start, 4, sizes[4] as int),
        repulsion: buffer_at(start, 5, sizes[5] as int),
        normalizer: buffer_at(start, 6, sizes[6] as int),
    }
}

/// The launch that computes all squared distances.
pub open spec fn distances_launch(b: FitBuffers, n: usize, d: usize) -> LaunchView {
    LaunchView {
        kernel: Kernel::TsneDistances,
        arguments: seq![
            Argument::Memory(b.data),
            Argument::Memory(b.distances),
            Argument::Word(n as u32),
            Argument::Word(d as u32),
        ],
        threadgroup_bytes: 0,
        groups: line(groups_of(n * n, 256)),
        threads: line(256),
    }
}

/// The launch that finds each row's affinities.
pub open spec fn perplexity_launch(b: FitBuffers, n: usize, perplexity: Float32) -> LaunchView {
    LaunchView {
        kernel: Kernel::TsnePerplexity,
        arguments: seq![
            Argument::Memory(b.distances),
            Argument::Memory(b.affinities),
            Argument::Word(n as u32),
            Argument::Real(perplexity),
        ],
        threadgroup_bytes: 0,
        groups: line(groups_of(n as int, 256)),
        threads: line(256),
    }
}

/// The launch that computes the sums of a gradient.
pub open spec fn gradient_launch(
    b: FitBuffers,
    n: usize,
    components: usize,
    exaggeration: Float32,
) -> LaunchView {
    LaunchView {
        kernel: Kernel::TsneGrad,
        arguments: seq![
            Argument::Memory(b.embedding),
            Argument::Memory(b.affinities),
            Argument::Memory(b.attraction),
            Argument::Memory(b.repulsion),
            Argument::Memory(b.normalizer),
            Argument::Word(n as u32),
            Argument::Word(components as u32),
            Argument::Real(exaggeration),
        ],
        threadgroup_bytes: 0,
        groups: line(groups_of(n as int, 256)),
        threads: line(256),
    }
}

/// The passes that build the affinities.
pub struct FitPass {
    pub buffers: FitBuffers,
    pub distances: Launch,
    pub perplexity: Launch,
}

/// A grid of 256 threads a group, along one axis, for `total` elements.
pub fn dispatch_1d(total: usize) -> (r: (MTLSize, MTLSize))
    requires
        total + 255 <= usize::MAX,
    ensures
        r.0 == line(groups_of(total as int, 256)),
        r.1 == line(256),
{
    (MTLSize::line(group_count(total as u64, 256)), MTLSize::line(256))
}

/// A grid along one axis has a thread for each element, and less than one idle group.
pub proof fn lemma_dispatch_1d_covers(total: int)
    requires
        0 <= total <= u64::MAX - 255,
    ensures
        line(groups_of(total, 256)).width * line(256).width >= total,
        (line(groups_of(total, 256)).width - 1) * line(256).width < total,
{
    lemma_groups_cover(total, 256);
    assert(line(groups_of(total, 256)).width == groups_of(total, 256));
    assert(line(256).width == 256);
}

/// Descent, as far as it has gone.
#[derive(Clone, Copy, Debug, PartialEq, Eq, Structural)]
pub struct Descent {
    pub config: TSNEConfig,
    /// Iterations done.
    pub done: usize,
    /// Whether the gradient fell below the threshold.
    pub stopped: bool,
}

impl Descent {
    pub open spec fn wf(&self) -> bool {
        &&& self.done <= self.config.n_iter
        &&& self.stopped ==> self.done >= 1
    }

    /// Whether there is no other iteration.
    pub open spec fn over(&self) -> bool {
        self.stopped || self.done >= self.config.n_iter
    }

    /// What an iteration whose gradient has the norm `norm` leads to.
    pub open spec fn after(self, norm: Float32) -> Descent {
        Descent {
            done: (self.done + 1) as usize,
            stopped: self.stopped || (Float32 { bits: 0 }).lt(self.config.min_grad_norm)
                && norm.lt(self.config.min_grad_norm),
            ..self
        }
    }

    /// Where descent ends, if the gradient of iteration `i` has the norm `norms(i)`.
    pub open spec fn ended(self, norms: spec_fn(int) -> Float32) -> Descent
        decreases self.config.n_iter - self.done,
    {
        if self.over() {
            self
        } else {
            self.after(norms(self.done as int)).ended(norms)
        }
    }

    /// What the affinities are multiplied by in the next iteration.
    pub open spec fn factor(&self) -> Float32 {
        if self.done < self.config.exaggeration_iter {
            self.config.early_exaggeration
        } else {
            Float32 { bits: ONE }
        }
    }

    pub fn new(config: TSNEConfig) -> (r: Descent)
        ensures
            r.wf(),
            r.config == config,
            r.done == 0,
            !r.stopped,
    {
        Descent { config, done: 0, stopped: false }
    }

    /// Whether there is another iteration.
    pub fn next(&self) -> (r: bool)
        ensures
            r == !self.over(),
    {
        !self.stopped && self.done < self.config.n_iter
    }

    /// What the affinities are multiplied by in the next iteration.
    pub fn exaggeration(&self) -> (r: Float32)
        ensures
            r == self.factor(),
    {
        if self.done < self.config.exaggeration_iter {
            self.config.early_exaggeration
        } else {
            Float32 { bits: ONE }
        }
    }

    /// Records an iteration whose gradient had the norm `norm`. Descent stops on a norm below
    /// the threshold, where there is one.
    pub fn step(&mut self, norm: Float32)
        requires
            old(self).wf(),
            old(self).done < old(self).config.n_iter,
        ensures
            final(self).wf(),
            *final(self) == old(self).after(norm),
    {
        self.done = self.done + 1;
        if self.config.min_grad_norm.is_positive() && norm.less(self.config.min_grad_norm) {
            self.stopped = true;
        }
    }
}

/// Whatever norms the gradients have, descent comes to an end. It makes one iteration at least,
/// where it may make one, and never more than the limit; it makes all of them unless a gradient
/// fell below the threshold, which none does that is not above zero.
pub proof fn lemma_descent_ends(descent: Descent, norms: spec_fn(int) -> Float32)
    requires
        descent.wf(),
    ensures
        ({
            let end = descent.ended(norms);
            &&& end.wf()
            &&& end.over()
            &&& end.config == descent.config
            &&& end.done <= descent.config.n_iter
            &&& descent.config.n_iter >= 1 ==> 1 <= end.done
            &&& !end.stopped ==> end.done == descent.config.n_iter
            &&& !descent.stopped && !(Float32 { bits: 0 }).lt(descent.config.min_grad_norm)
                ==> end.done == descent.config.n_iter
        }),
    decreases descent.config.n_iter - descent.done,
{
    if !descent.over() {
        lemma_descent_ends(descent.after(norms(descent.done as int)), norms);
    }
}

/// Descent is settled by its configuration and by the norms of the gradients that it meets: two
/// runs that meet the same norms as long as the first one goes on end alike.
pub proof fn lemma_descent_determined(
    descent: Descent,
    norms: spec_fn(int) -> Float32,
    others: spec_fn(int) -> Float32,
)
    requires
        descent.wf(),
        forall|i: int|
            descent.done <= i < descent.ended(norms).done ==> #[trigger] norms(i) == others(i),
    ensures
        descent.ended(norms) == descent.ended(others),
    decreases descent.config.n_iter - descent.done,
{
    if !descent.over() {
        let next = descent.after(norms(descent.done as int));
        lemma_progress(next, norms);
        assert(norms(descent.done as int) == others(descent.done as int));
        lemma_descent_determined(next, norms, others);
    }
}

proof fn lemma_progress(descent: Descent, norms: spec_fn(int) -> Float32)
    requires
        descent.wf(),
    ensures
        descent.done <= descent.ended(norms).done,
    decreases descent.config.n_iter - descent.done,
{
    if !descent.over() {
        lemma_progress(descent.after(norms(descent.done as int)), norms);
    }
}

/// An embedding on its way, and how fast each of its numbers moves.
#[verifier::ext_equal]
pub struct Motion {
    pub embedding: Seq<Float32>,
    pub velocity: Seq<Float32>,
}

/// What a fit leaves in a model.
#[verifier::ext_equal]
pub struct Outcome {
    pub embedding: Seq<Float32>,
    pub n_iter: int,
    pub kl_divergence: Float32,
}

/// What device and host compute in a fit on given data.
pub struct Arithmetic {
    /// The affinities of the samples at a perplexity.
    pub affinities: spec_fn(Float32) -> Seq<Float32>,
    /// As many numbers as are asked for, drawn from a seed.
    pub start: spec_fn(u64, int) -> Seq<Float32>,
    /// Where an iteration leads to, and the norm of its gradient, by the affinities, what they
    /// are multiplied by, the momentum, the learning rate and the motion so far.
    pub advance: spec_fn(Seq<Float32>, Float32, Float32, Float32, Motion) -> (Motion, Float32),
    /// The divergence of an embedding from the affinities.
    pub divergence: spec_fn(Seq<Float32>, Seq<Float32>) -> Float32,
}

impl Arithmetic {
    /// Whether both compute the same.
    pub open spec fn agrees(self, other: Arithmetic) -> bool {
        &&& forall|perplexity: Float32| #[trigger]
            (self.affinities)(perplexity) == (other.affinities)(perplexity)
        &&& forall|seed: u64, count: int| #[trigger]
            (self.start)(seed, count) == (other.start)(seed, count)
        &&& forall|p: Seq<Float32>, factor: Float32, momentum: Float32, rate: Float32, m: Motion|
         #[trigger]
            (self.advance)(p, factor, momentum, rate, m) == (other.advance)(
                p,
                factor,
                momentum,
                rate,
                m,
            )
        &&& forall|p: Seq<Float32>, embedding: Seq<Float32>| #[trigger]
            (self.divergence)(p, embedding) == (other.divergence)(p, embedding)
    }

    /// Whether as many numbers are drawn as are asked for, and none is lost on the way.
    pub open spec fn keeps_length(self) -> bool {
        &&& forall|seed: u64, count: int|
            count >= 0 ==> #[trigger] (self.start)(seed, count).len() == count
        &&& forall|p: Seq<Float32>, factor: Float32, momentum: Float32, rate: Float32, m: Motion|
            (#[trigger] (self.advance)(p, factor, momentum, rate, m)).0.embedding.len()
                == m.embedding.len()
    }

    /// Where descent and the embedding end.
    pub open spec fn descended(self, descent: Descent, p: Seq<Float32>, motion: Motion) -> (
        Descent,
        Motion,
    )
        decreases descent.config.n_iter - descent.done,
    {
        if descent.over() {
            (descent, motion)
        } else {
            let (next, norm) = (self.advance)(
                p,
                descent.factor(),
                descent.config.momentum,
                descent.config.learning_rate,
                motion,
            );
            self.descended(descent.after(norm), p, next)
        }
    }

    /// What a fit on `n` samples leaves in a model.
    pub open spec fn fitted(self, config: TSNEConfig, n: int) -> Outcome {
        let p = (self.affinities)(config.perplexity);
        let count = n * config.n_components;
        let (descent, motion) = self.descended(
            Descent { config, done: 0, stopped: false },
            p,
            Motion {
                embedding: (self.start)(config.seed, count),
                velocity: Seq::new(count as nat, |i: int| Float32 { bits: 0 }),
            },
        );
        Outcome {
            embedding: motion.embedding,
            n_iter: descent.done as int,
            kl_divergence: (self.divergence)(p, motion.embedding),
        }
    }
}

proof fn lemma_descended(
    one: Arithmetic,
    other: Arithmetic,
    descent: Descent,
    p: Seq<Float32>,
    motion: Motion,
)
    requires
        descent.wf(),
        one.agrees(other),
    ensures
        one.descended(descent, p, motion) == other.descended(descent, p, motion),
        ({
            let (end, reached) = one.descended(descent, p, motion);
            &&& end.done <= descent.config.n_iter
            &&& descent.config.n_iter >= 1 ==> 1 <= end.done
            &&& !descent.stopped && !(Float32 { bits: 0 }).lt(descent.config.min_grad_norm)
                ==> end.done == descent.config.n_iter
            &&& one.keeps_length() ==> reached.embedding.len() == motion.embedding.len()
        }),
    decreases descent.config.n_iter - descent.done,
{
    if !descent.over() {
        let (next, norm) = (one.advance)(
            p,
            descent.factor(),
            descent.config.momentum,
            descent.config.learning_rate,
            motion,
        );
        lemma_descended(one, other, descent.after(norm), p, next);
    }
}

/// The configuration, with its seed, and the data fix the result: two fits that compute alike
/// leave the same embedding, entry by entry, after the same iterations and with the same
/// divergence.
pub proof fn lemma_seed_fixes_embedding(
    a: TSNEConfig,
    b: TSNEConfig,
    one: Arithmetic,
    other: Arithmetic,
    n: int,
)
    requires
        a == b,
        one.agrees(other),
    ensures
        one.fitted(a, n) == other.fitted(b, n),
{
    let count = n * a.n_components;
    lemma_descended(
        one,
        other,
        Descent { config: a, done: 0, stopped: false },
        (one.affinities)(a.perplexity),
        Motion {
            embedding: (one.start)(a.seed, count),
            velocity: Seq::new(count as nat, |i: int| Float32 { bits: 0 }),
        },
    );
}

/// A fit leaves as many numbers as samples and components make. It counts one iteration at
/// least and never more than the limit, and all of them where the threshold on the gradient
/// norm is not above zero.
pub proof fn lemma_fitted_shape(config: TSNEConfig, arithmetic: Arithmetic, n: int)
    requires
        0 <= n,
        1 <= config.n_iter,
        arithmetic.keeps_length(),
    ensures
        arithmetic.fitted(config, n).embedding.len() == n * config.n_components,
        1 <= arithmetic.fitted(config, n).n_iter <= config.n_iter,
        !(Float32 { bits: 0 }).lt(config.min_grad_norm) ==> arithmetic.fitted(config, n).n_iter
            == config.n_iter,
{
    let count = n * config.n_components;
    assert(0 <= count) by (nonlinear_arith)
        requires
            0 <= n,
            0 <= config.n_components,
            count == n * config.n_components,
    ;
    lemma_descended(
        arithmetic,
        arithmetic,
        Descent { config, done: 0, stopped: false },
        (arithmetic.affinities)(config.perplexity),
        Motion {
            embedding: (arithmetic.start)(config.seed, count),
            velocity: Seq::new(count as nat, |i: int| Float32 { bits: 0 }),
        },
    );
}

impl TSNE {
    /// What the last fit left.
    pub open spec fn outcome(&self) -> Outcome {
        Outcome {
            embedding: self.embedding@,
            n_iter: self.n_iter_ as int,
            kl_divergence: self.kl_divergence,
        }
    }

    pub fn new(config: TSNEConfig) -> (r: TSNE)
        ensures
            r.config == config,
            r.embedding@ == Seq::<Float32>::empty(),
            r.n == 0,
            r.d == 0,
            r.n_iter_ == 0,
            r.kl_divergence.bits == 0,
    {
        TSNE {
            config,
            embedding: Vec::new(),
            n: 0,
            d: 0,
            n_iter_: 0,
            kl_divergence: Float32::zero(),
        }
    }

    /// Low-dimensional embedding, row-major `(n, n_components)`.
    pub fn embedding(&self) -> (r: &[Float32])
        ensures
            r@ == self.embedding@,
    {
        self.embedding.as_slice()
    }

    /// Number of iterations performed during the last fit.
    pub fn n_iter(&self) -> (r: usize)
        ensures
            r == self.n_iter_,
    {
        self.n_iter_
    }

    /// Final Kullback-Leibler divergence of the embedding.
    pub fn kl_divergence(&self) -> (r: Float32)
        ensures
            r == self.kl_divergence,
    {
        self.kl_divergence
    }

    /// Starts a fit on `n` samples of `d` features: the passes that build the affinities, and
    /// the buffers of descent. `rounded_n` is `n` as a `Float32`: `n` itself, where it is small
    /// enough to be one.
    pub fn fit(
        &mut self,
        ctx: &mut MetalContext,
        data: &[Float32],
        n: usize,
        d: usize,
        rounded_n: Float32,
    ) -> (r: Result<FitPass, TSNEError>)
        requires
            4 * data@.len() <= usize::MAX,
            n < WHOLE_LIMIT ==> rounded_n.denotes(n as int),
            fit_refusal(old(self).config, data@.len() as usize, n, d, rounded_n) is None ==> {
                &&& 4 * (n * n) <= usize::MAX
                &&& n * n + 255 <= usize::MAX
                &&& 4 * (n * old(self).config.n_components) <= usize::MAX
            },
        ensures
            match fit_refusal(old(self).config, data@.len() as usize, n, d, rounded_n) {
                Some(e) => r == Err::<FitPass, TSNEError>(e) && *final(self) == *old(self)
                    && *final(ctx) == *old(ctx),
                None => r matches Ok(pass) && {
                    let components = old(self).config.n_components;
                    &&& final(ctx)@ == old(ctx)@ + fit_sizes(n as int, d as int, components as int)
                    &&& pass.buffers == fit_buffers(
                        old(ctx)@.len(),
                        n as int,
                        d as int,
                        components as int,
                    )
                    &&& pass.distances@ == distances_launch(pass.buffers, n, d)
                    &&& pass.perplexity@ == perplexity_launch(
                        pass.buffers,
                        n,
                        old(self).config.perplexity,
                    )
                    &&& pass.distances.groups.width * pass.distances.threads.width >= n * n
                    &&& pass.perplexity.groups.width * pass.perplexity.threads.width >= n
                    &&& *final(self) == (TSNE { n, d, ..*old(self) })
                },
            },
    {
        let config: TSNEConfig = self.config;
        let one: Float32 = Float32 { bits: ONE };
        if n <= 1 {
            return Err(TSNEError::Samples(n));
        }
        if d == 0 {
            return Err(TSNEError::Features(d));
        }
        if !is_matrix(data.len(), n, d) {
            return Err(TSNEError::DataLength { n, d, got: data.len() });
        }
        let components: usize = config.n_components;
        if components < 1 || components > 8 {
            return Err(TSNEError::Components(components));
        }
        if !(one.at_most(config.perplexity) && config.perplexity.less(rounded_n)) {
            return Err(TSNEError::Perplexity(config.perplexity));
        }
        if !(config.learning_rate.is_positive() && config.learning_rate.is_finite()) {
            return Err(TSNEError::LearningRate(config.learning_rate));
        }
        if config.n_iter == 0 {
            return Err(TSNEError::Iterations);
        }
        if !(one.at_most(config.early_exaggeration) && config.early_exaggeration.is_finite()) {
            return Err(TSNEError::Exaggeration(config.early_exaggeration));
        }
        proof {
            lemma_matrix_bounds(data@.len() as int, n as int, d as int);
            assert(n <= n * n && 0 <= n * components) by (nonlinear_arith)
                requires
                    n >= 1,
                    1 <= components <= 8,
            ;
        }
        self.n = n;
        self.d = d;
        let ghost start = ctx@;
        let data_buffer: Buffer = ctx.new_buffer(data.len());
        let distances: Buffer = ctx.new_buffer_uninitialized((n * n * 4) as u64);
        let affinities: Buffer = ctx.new_buffer_uninitialized((n * n * 4) as u64);
        let embedding: Buffer = ctx.new_buffer(n * components);
        let attraction: Buffer = ctx.new_buffer_uninitialized((n * components * 4) as u64);
        let repulsion: Buffer = ctx.new_buffer_uninitialized((n * components * 4) as u64);
        let normalizer: Buffer = ctx.new_buffer_uninitialized((n * 4) as u64);
        assert(ctx@ =~= start + fit_sizes(n as int, d as int, components as int));
        let buffers = FitBuffers {
            data: data_buffer,
            distances,
            affinities,
            embedding,
            attraction,
            repulsion,
            normalizer,
        };
        let (all_pairs, threads) = dispatch_1d(n * n);
        let distance_pass = Launch {
            kernel: Kernel::TsneDistances,
            arguments: vec![
                Argument::Memory(data_buffer),
                Argument::Memory(distances),
                Argument::Word(#[verifier::truncate] (n as u32)),
                Argument::Word(#[verifier::truncate] (d as u32)),
            ],
            threadgroup_bytes: 0,
            groups: all_pairs,
            threads,
        };
        assert(distance_pass@ =~= distances_launch(buffers, n, d));
        let (rows, threads) = dispatch_1d(n);
        let perplexity_pass = Launch {
            kernel: Kernel::TsnePerplexity,
            arguments: vec![
                Argument::Memory(distances),
                Argument::Memory(affinities),
                Argument::Word(#[verifier::truncate] (n as u32)),
                Argument::Real(config.perplexity),
            ],
            threadgroup_bytes: 0,
            groups: rows,
            threads,
        };
        assert(perplexity_pass@ =~= perplexity_launch(buffers, n, config.perplexity));
        proof {
            lemma_every_pair_has_a_thread(buffers, n, d, components, config.perplexity);
        }
        Ok(FitPass { buffers, distances: distance_pass, perplexity: perplexity_pass })
    }

    /// The launch that computes the sums of the next gradient.
    pub fn gradient(&self, buffers: &FitBuffers, descent: &Descent) -> (r: Launch)
        requires
            self.n + 255 <= usize::MAX,
        ensures
            r@ == gradient_launch(
                *buffers,
                self.n,
                self.config.n_components,
                descent.factor(),
            ),
            r.groups.width * r.threads.width >= self.n,
    {
        let exaggeration: Float32 = descent.exaggeration();
        let (rows, threads) = dispatch_1d(self.n);
        let n: usize = self.n;
        let components: usize = self.config.n_components;
        let r = Launch {
            kernel: Kernel::TsneGrad,
            arguments: vec![
                Argument::Memory(buffers.embedding),
                Argument::Memory(buffers.affinities),
                Argument::Memory(buffers.attraction),
                Argument::Memory(buffers.repulsion),
                Argument::Memory(buffers.normalizer),
                Argument::Word(#[verifier::truncate] (n as u32)),
                Argument::Word(#[verifier::truncate] (components as u32)),
                Argument::Real(exaggeration),
            ],
            threadgroup_bytes: 0,
            groups: rows,
            threads,
        };
        assert(r@ =~= gradient_launch(*buffers, n, components, exaggeration));
        proof {
            lemma_line_covers(n as int, 256);
        }
        r
    }

    /// Ends a fit with the embedding that descent reached.
    pub fn finish(&mut self, embedding: Vec<Float32>, descent: &Descent, kl_divergence: Float32)
        requires
            embedding@.len() == old(self).n * old(self).config.n_components,
        ensures
            final(self).embedding@.len() == final(self).n * final(self).config.n_components,
            final(self).outcome() == (Outcome {
                embedding: embedding@,
                n_iter: descent.done as int,
                kl_divergence,
            }),
            *final(self) == (TSNE {
                embedding,
                n_iter_: descent.done,
                kl_divergence,
                ..*old(self)
            }),
    {
        self.embedding = embedding;
        self.n_iter_ = descent.done;
        self.kl_divergence = kl_divergence;
    }
}

/// The launches of a fit bind only buffers that exist.
pub proof fn lemma_fit_launches_bound(
    start: Seq<u64>,
    n: usize,
    d: usize,
    components: usize,
    value: Float32,
)
    requires
        start.len() + 7 <= usize::MAX,
    ensures
        ({
            let ledger = start + fit_sizes(n as int, d as int, components as int);
            let b = fit_buffers(start.len(), n as int, d as int, components as int);
            &&& distances_launch(b, n, d).bound_in(ledger)
            &&& perplexity_launch(b, n, value).bound_in(ledger)
            &&& gradient_launch(b, n, components, value).bound_in(ledger)
        }),
{
    lemma_buffers_held(start, fit_sizes(n as int, d as int, components as int));
}

/// The passes of a fit have a thread for every pair of samples, and for every sample. They bind
/// the samples, the distances, the affinities and the embedding as they are read, and what is
/// computed where it goes.
pub proof fn lemma_every_pair_has_a_thread(
    b: FitBuffers,
    n: usize,
    d: usize,
    components: usize,
    value: Float32,
)
    requires
        n * n <= u64::MAX,
    ensures
        ({
            let l = distances_launch(b, n, d);
            &&& l.kernel == Kernel::TsneDistances
            &&& l.arguments.len() == 4
            &&& l.arguments[0] == Argument::Memory(b.data)
            &&& l.arguments[1] == Argument::Memory(b.distances)
            &&& l.arguments[2] == Argument::Word(n as u32)
            &&& l.arguments[3] == Argument::Word(d as u32)
            &&& l.threadgroup_bytes == 0
            &&& l.groups.width * l.threads.width >= n * n
            &&& l.groups.width * l.threads.width < n * n + 256
            &&& l.threads.width == 256
            &&& l.groups.height == 1 && l.threads.height == 1
        }),
        ({
            let l = perplexity_launch(b, n, value);
            &&& l.kernel == Kernel::TsnePerplexity
            &&& l.arguments.len() == 4
            &&& l.arguments[0] == Argument::Memory(b.distances)
            &&& l.arguments[1] == Argument::Memory(b.affinities)
            &&& l.arguments[2] == Argument::Word(n as u32)
            &&& l.arguments[3] == Argument::Real(value)
            &&& l.threadgroup_bytes == 0
            &&& l.groups.width * l.threads.width >= n
            &&& l.groups.width * l.threads.width < n + 256
            &&& l.threads.width == 256
            &&& l.groups.height == 1 && l.threads.height == 1
        }),
        ({
            let l = gradient_launch(b, n, components, value);
            &&& l.kernel == Kernel::TsneGrad
            &&& l.arguments.len() == 8
            &&& l.arguments[0] == Argument::Memory(b.embedding)
            &&& l.arguments[1] == Argument::Memory(b.affinities)
            &&& l.arguments[2] == Argument::Memory(b.attraction)
            &&& l.arguments[3] == Argument::Memory(b.repulsion)
            &&& l.arguments[4] == Argument::Memory(b.normalizer)
            &&& l.arguments[5] == Argument::Word(n as u32)
            &&& l.arguments[6] == Argument::Word(components as u32)
            &&& l.arguments[7] == Argument::Real(value)
            &&& l.threadgroup_bytes == 0
            &&& l.groups.width * l.threads.width >= n
            &&& l.groups.width * l.threads.width < n + 256
            &&& l.threads.width == 256
            &&& l.groups.height == 1 && l.threads.height == 1
        }),
{
    assert(0 <= n * n) by (nonlinear_arith)
        requires
            0 <= n,
    ;
    lemma_line_covers(n * n, 256);
    lemma_line_covers(n as int, 256);
}

/// The buffers of a fit: the samples, a distance and an affinity for every pair, three times the
/// size of the embedding, and a number for every sample.
pub proof fn lemma_fit_buffers(start: nat, n: usize, d: usize, components: usize)
    requires
        start + 7 <= usize::MAX,
        4 * (n * d) <= usize::MAX,
        4 * (n * n) <= usize::MAX,
        4 * (n * components) <= usize::MAX,
        4 * n <= usize::MAX,
    ensures
        ({
            let b = fit_buffers(start, n as int, d as int, components as int);
            &&& b.data.id == start && b.data.byte_len == 4 * (n * d)
            &&& b.distances.id == start + 1 && b.distances.byte_len == 4 * (n * n)
            &&& b.affinities.id == start + 2 && b.affinities.byte_len == 4 * (n * n)
            &&& b.embedding.id == start + 3 && b.embedding.byte_len == 4 * (n * components)
            &&& b.attraction.id == start + 4 && b.attraction.byte_len == 4 * (n * components)
            &&& b.repulsion.id == start + 5 && b.repulsion.byte_len == 4 * (n * components)
            &&& b.normalizer.id == start + 6 && b.normalizer.byte_len == 4 * n
        }),
        fit_sizes(n as int, d as int, components as int).len() == 7,
{
    assert(0 <= n * n && 0 <= n * d && 0 <= n * components) by (nonlinear_arith)
        requires
            0 <= n,
            0 <= d,
            0 <= components,
    ;
}

/// The affinities are exaggerated in the first iterations, and only there.
pub proof fn lemma_exaggeration(descent: Descent)
    ensures
        descent.done < descent.config.exaggeration_iter ==> descent.factor()
            == descent.config.early_exaggeration,
        descent.done >= descent.config.exaggeration_iter ==> descent.factor().denotes(1),
{
    lemma_constants(descent.factor());
}

/// An iteration counts one. It stops descent exactly when its gradient is below a threshold that
/// is above zero.
pub proof fn lemma_iteration_counts(descent: Descent, norm: Float32)
    requires
        !descent.stopped,
        descent.done < descent.config.n_iter,
    ensures
        descent.after(norm).done == descent.done + 1,
        descent.after(norm).config == descent.config,
        descent.after(norm).stopped <==> (Float32 { bits: 0 }).lt(descent.config.min_grad_norm)
            && norm.lt(descent.config.min_grad_norm),
        descent.over() <==> descent.done >= descent.config.n_iter,
        descent.after(norm).stopped ==> descent.after(norm).over(),
{
}

/// When a fit is taken, and why not.
pub proof fn lemma_refusals(
    config: TSNEConfig,
    len: usize,
    n: usize,
    d: usize,
    rounded_n: Float32,
    one: Float32,
)
    requires
        one.bits == 0x3f80_0000,
    ensures
        ({
            let r = fit_refusal(config, len, n, d, rounded_n);
            &&& r is None <==> (n >= 2) && (d >= 1) && (len == n * d) && (1 <= config.n_components <= 8) && (one.le(config.perplexity) && config.perplexity.lt(rounded_n)) && ((Float32 { bits: 0 }).lt(config.learning_rate) && config.learning_rate.finite()) && (config.n_iter >= 1) && (one.le(config.early_exaggeration) && config.early_exaggeration.finite())
            &&& !(n >= 2) ==> r == Some(TSNEError::Samples(n))
            &&& (n >= 2) && !(d >= 1) ==> r == Some(TSNEError::Features(d))
            &&& (n >= 2) && (d >= 1) && !(len == n * d) ==> r == Some(TSNEError::DataLength { n, d, got: len })
            &&& (n >= 2) && (d >= 1) && (len == n * d) && !(1 <= config.n_components <= 8) ==> r == Some(TSNEError::Components(config.n_components))
            &&& (n >= 2) && (d >= 1) && (len == n * d) && (1 <= config.n_components <= 8) && !(one.le(config.perplexity) && config.perplexity.lt(rounded_n)) ==> r == Some(TSNEError::Perplexity(config.perplexity))
            &&& (n >= 2) && (d >= 1) && (len == n * d) && (1 <= config.n_components <= 8) && (one.le(config.perplexity) && config.perplexity.lt(rounded_n)) && !((Float32 { bits: 0 }).lt(config.learning_rate) && config.learning_rate.finite()) ==> r == Some(TSNEError::LearningRate(config.learning_rate))
            &&& (n >= 2) && (d >= 1) && (len == n * d) && (1 <= config.n_components <= 8) && (one.le(config.perplexity) && config.perplexity.lt(rounded_n)) && ((Float32 { bits: 0 }).lt(config.learning_rate) && config.learning_rate.finite()) && !(config.n_iter >= 1) ==> r == Some(TSNEError::Iterations)
            &&& (n >= 2) && (d >= 1) && (len == n * d) && (1 <= config.n_components <= 8) && (one.le(config.perplexity) && config.perplexity.lt(rounded_n)) && ((Float32 { bits: 0 }).lt(config.learning_rate) && config.learning_rate.finite()) && (config.n_iter >= 1) && !(one.le(config.early_exaggeration) && config.early_exaggeration.finite()) ==> r == Some(TSNEError::Exaggeration(config.early_exaggeration))
        }),
{
}

} // verus!
