//! Gaussian naive Bayes.
//!
//! The device sums the features and their squares by class; the host makes means, variances
//! and priors of the sums. Which labels are class ids, what is launched, and which class a
//! row of log posteriors stands for is decided here.

use vstd::prelude::*;
use crate::float::{Float32, HALF};
use crate::metal::{group_count, Argument, Buffer, Kernel, Launch, MTLSize, MetalContext};
use crate::pipeline::PipelineCache;
use crate::select::leading_argmax;
use crate::shape::is_matrix;
use crate::tally::count_near;
#[allow(unused_imports)]
use crate::metal::{buffer_at, groups_of, lemma_buffers_held, lemma_groups_cover, lemma_line_covers, line, LaunchView, THREADGROUP_MEMORY};
#[allow(unused_imports)]
use crate::select::{leading_greatest, lemma_leading_greatest};
#[allow(unused_imports)]
use crate::shape::{lemma_matrix_bounds, lemma_matrix_index};
#[allow(unused_imports)]
use crate::tally::near_count;

verus! {

/// Configuration for Gaussian naive Bayes.
#[derive(Clone, Copy, Debug, PartialEq, Eq, Structural)]
pub struct GaussianNBConfig {
    /// Fraction of the largest per-class feature variance that is added to every class
    /// variance for numerical stability.
    pub var_smoothing: Float32,
}

impl Default for GaussianNBConfig {
    /// A fraction of 1e-9.
    fn default() -> (r: GaussianNBConfig)
        ensures
            r.var_smoothing == (Float32 { bits: 0x3089_705f }),
    {
        GaussianNBConfig { var_smoothing: Float32 { bits: 0x3089_705f } }
    }
}

/// Why a fit or a prediction was refused.
#[derive(Clone, Copy, Debug, PartialEq, Eq, Structural)]
pub enum GaussianNBError {
    Empty,
    /// Fewer than two classes.
    Classes(usize),
    DataLength { n: usize, d: usize, got: usize },
    LabelLength { expected: usize, got: usize },
    VarSmoothing(Float32),
    /// The sums of one group would not fit its memory.
    SharedMemory { n_classes: usize, d: usize },
    /// A label that is no class id; the first one.
    Label { index: usize },
    /// A class without samples; the first one.
    NoSamples { class: usize },
    NotFitted,
    Dimension { expected: usize, got: usize },
}

pub struct GaussianNB {
    pub config: GaussianNBConfig,
    /// Per-class feature means, row-major (k × d).
    pub means: Vec<Float32>,
    /// Per-class feature variances, row-major (k × d).
    pub variances: Vec<Float32>,
    /// Per-class priors (k,).
    pub priors: Vec<Float32>,
    /// Per-class log priors (k,).
    pub log_priors: Vec<Float32>,
    pub k: usize,
    pub d: usize,
    pub n: usize,
    /// The pipelines compiled so far.
    pub pipelines: PipelineCache,
}

/// The bytes that the sums of one group take: two per class and feature, one per class.
pub open spec fn shared_bytes(n_classes: int, d: int) -> int {
    4 * ((2 * d + 1) * n_classes)
}

/// Whether `label` is a class id, a whole number below `n_classes`.
pub open spec fn is_class(label: Float32, n_classes: int) -> bool {
    exists|c: int| 0 <= c < n_classes && #[trigger] label.denotes(c)
}

/// The place of the first label from `i` on that is no class id.
pub open spec fn first_bad_label(y: Seq<Float32>, n_classes: int, i: int) -> Option<int>
    decreases y.len() - i,
{
    if i >= y.len() {
        None
    } else if !is_class(y[i], n_classes) {
        Some(i)
    } else {
        first_bad_label(y, n_classes, i + 1)
    }
}

/// Why a fit is refused, if it is.
pub open spec fn fit_refusal(
    config: GaussianNBConfig,
    len: usize,
    y: Seq<Float32>,
    n: usize,
    d: usize,
    n_classes: usize,
) -> Option<GaussianNBError> {
    if n == 0 || d == 0 {
        Some(GaussianNBError::Empty)
    } else if n_classes < 2 {
        Some(GaussianNBError::Classes(n_classes))
    } else if len != n * d {
        Some(GaussianNBError::DataLength { n, d, got: len })
    } else if y.len() != n {
        Some(GaussianNBError::LabelLength { expected: n, got: y.len() as usize })
    } else if !((Float32 { bits: 0 }).le(config.var_smoothing) && config.var_smoothing.finite()) {
        Some(GaussianNBError::VarSmoothing(config.var_smoothing))
    } else if shared_bytes(n_classes as int, d as int) > 32 * 1024 {
        Some(GaussianNBError::SharedMemory { n_classes, d })
    } else {
        match first_bad_label(y, n_classes as int, 0) {
            Some(index) => Some(GaussianNBError::Label { index: index as usize }),
            None => None,
        }
    }
}

/// Why a prediction is refused, if it is.
pub open spec fn predict_refusal(k: usize, fitted_d: usize, len: usize, n: usize, d: usize) -> Option<
    GaussianNBError,
> {
    if len != n * d {
        Some(GaussianNBError::DataLength { n, d, got: len })
    } else if k == 0 {
        Some(GaussianNBError::NotFitted)
    } else if d != fitted_d {
        Some(GaussianNBError::Dimension { expected: fitted_d, got: d })
    } else {
        None
    }
}

/// The buffers of a fit.
#[derive(Clone, Copy, Debug, PartialEq, Eq, Structural)]
pub struct FitBuffers {
    pub x: Buffer,
    pub y: Buffer,
    pub sum_partials: Buffer,
    pub square_partials: Buffer,
    pub count_partials: Buffer,
    pub sums: Buffer,
    pub squares: Buffer,
    pub counts: Buffer,
}

/// The sizes in bytes of the buffers of a fit, in the order in which they are made.
pub open spec fn fit_sizes(n: int, d: int, k: int) -> Seq<u64> {
    seq![
        (4 * (n * d)) as u64,
        (4 * n) as u64,
        (4 * (groups_of(n, 128) * (k * d))) as u64,
        (4 * (groups_of(n, 128) * (k * d))) as u64,
        (4 * (groups_of(n, 128) * k)) as u64,
        (4 * (k * d)) as u64,
        (4 * (k * d)) as u64,
        (4 * k) as u64,
    ]
}

/// The buffers of a fit, where the first one comes after `start` others.
pub open spec fn fit_buffers(start: nat, n: int, d: int, k: int) -> FitBuffers {
    let sizes = fit_sizes(n, d, k);
    FitBuffers {
        x: buffer_at(start, 0, sizes[0] as int),
        y: buffer_at(start, 1, sizes[1] as int),
        sum_partials: buffer_at(start, 2, sizes[2] as int),
        square_partials: buffer_at(start, 3, sizes[3] as int),
        count_partials: buffer_at(start, 4, sizes[4] as int),
        sums: buffer_at(start, 5, sizes[5] as int),
        squares: buffer_at(start, 6, sizes[6] as int),
        counts: buffer_at(start, 7, sizes[7] as int),
    }
}

/// The launch that sums by class, tile by tile of 128 rows.
pub open spec fn partials_launch(b: FitBuffers, n: usize, d: usize, k: usize) -> LaunchView {
    LaunchView {
        kernel: Kernel::GnbReducePartials,
        arguments: seq![
            Argument::Memory(b.x),
            Argument::Memory(b.y),
            Argument::Memory(b.sum_partials),
            Argument::Memory(b.square_partials),
            Argument::Memory(b.count_partials),
            Argument::Word(n as u32),
            Argument::Word(k as u32),
            Argument::Word(d as u32),
        ],
        threadgroup_bytes: shared_bytes(k as int, d as int) as u64,
        groups: line(groups_of(n as int, 128)),
        threads: line(256),
    }
}

/// The launch that adds up, in a fixed order, what the groups found.
pub open spec fn sum_launch(b: FitBuffers, n: usize, d: usize, k: usize) -> LaunchView {
    LaunchView {
        kernel: Kernel::GnbReduceSum,
        arguments: seq![
            Argument::Memory(b.sum_partials),
            Argument::Memory(b.square_partials),
            Argument::Memory(b.count_partials),
            Argument::Memory(b.sums),
            Argument::Memory(b.squares),
            Argument::Memory(b.counts),
            Argument::Word(groups_of(n as int, 128) as u32),
            Argument::Word(k as u32),
            Argument::Word(d as u32),
        ],
        threadgroup_bytes: 0,
        groups: line(1),
        threads: line(256),
    }
}

/// The passes of a fit, and the class id of each row.
pub struct FitPass {
    pub ids: Vec<u32>,
    pub buffers: FitBuffers,
    pub partials: Launch,
    pub sum: Launch,
}

/// The buffers of a prediction.
#[derive(Clone, Copy, Debug, PartialEq, Eq, Structural)]
pub struct PredictBuffers {
    pub x: Buffer,
    pub means: Buffer,
    pub variances: Buffer,
    pub log_priors: Buffer,
    pub out: Buffer,
}

/// The buffers and the launch of a prediction.
pub struct PredictPass {
    pub buffers: PredictBuffers,
    pub launch: Launch,
}

/// The launch that computes the log posteriors of `n` rows.
pub open spec fn logp_launch(b: PredictBuffers, n: usize, d: usize, k: usize) -> LaunchView {
    LaunchView {
        kernel: Kernel::GnbPredictLogp,
        arguments: seq![
            Argument::Memory(b.x),
            Argument::Memory(b.means),
            Argument::Memory(b.variances),
            Argument::Memory(b.log_priors),
            Argument::Memory(b.out),
            Argument::Word(n as u32),
            Argument::Word(k as u32),
            Argument::Word(d as u32),
        ],
        threadgroup_bytes: 0,
        groups: line(groups_of(n as int, 256)),
        threads: line(256),
    }
}

proof fn lemma_shared(n_classes: int, d: int)
    requires
        n_classes >= 2,
        d >= 1,
    ensures
        shared_bytes(n_classes, d) <= 32 * 1024 <==> d <= 8192 && n_classes <= 8192 && (2 * d + 1)
            * n_classes <= 8192,
        shared_bytes(n_classes, d) <= 32 * 1024 ==> n_classes <= 2730 && d <= 4095 && 0 < n_classes
            * d <= 8192,
{
    let product = (2 * d + 1) * n_classes;
    assert(product >= 2 * d + 1 && product >= 3 * n_classes && product >= 2 * (2 * d + 1)) by (
    nonlinear_arith)
        requires
            product == (2 * d + 1) * n_classes,
            n_classes >= 2,
            d >= 1,
    ;
    assert(0 < n_classes * d <= product) by (nonlinear_arith)
        requires
            product == (2 * d + 1) * n_classes,
            n_classes >= 2,
            d >= 1,
    ;
}

/// The sums of one group fit the memory of a threadgroup whenever a fit is taken.
pub proof fn lemma_accepted_fit_fits(
    config: GaussianNBConfig,
    len: usize,
    y: Seq<Float32>,
    n: usize,
    d: usize,
    n_classes: usize,
)
    requires
        fit_refusal(config, len, y, n, d, n_classes) is None,
    ensures
        0 < shared_bytes(n_classes as int, d as int) <= THREADGROUP_MEMORY,
        forall|i: int| 0 <= i < n ==> is_class(#[trigger] y[i], n_classes as int),
{
    lemma_shared(n_classes as int, d as int);
    let product = (2 * d + 1) * n_classes;
    assert(product > 0) by (nonlinear_arith)
        requires
            product == (2 * d + 1) * n_classes,
            n_classes >= 2,
            d >= 1,
    ;
    lemma_no_bad_label(y, n_classes as int, 0);
}

proof fn lemma_no_bad_label(y: Seq<Float32>, n_classes: int, i: int)
    requires
        0 <= i,
        first_bad_label(y, n_classes, i) is None,
    ensures
        forall|j: int| i <= j < y.len() ==> is_class(#[trigger] y[j], n_classes),
    decreases y.len() - i,
{
    if i < y.len() {
        lemma_no_bad_label(y, n_classes, i + 1);
    }
}

/// The class ids of `y`, or the place of the first label that is none.
fn class_ids(y: &[Float32], n_classes: u32) -> (r: Result<Vec<u32>, usize>)
    requires
        n_classes <= 0x100_0000,
    ensures
        match first_bad_label(y@, n_classes as int, 0) {
            Some(index) => r matches Err(i) && i == index,
            None => r matches Ok(ids) && ids@.len() == y@.len() && forall|i: int|
                0 <= i < y@.len() ==> #[trigger] ids@[i] < n_classes && y@[i].denotes(
                    ids@[i] as int,
                ),
        },
{
    let mut ids: Vec<u32> = Vec::new();
    let mut i: usize = 0;
    while i < y.len()
        invariant
            i <= y@.len(),
            n_classes <= 0x100_0000,
            first_bad_label(y@, n_classes as int, 0) == first_bad_label(
                y@,
                n_classes as int,
                i as int,
            ),
            ids@.len() == i,
            forall|j: int|
                0 <= j < i ==> #[trigger] ids@[j] < n_classes && y@[j].denotes(ids@[j] as int),
        decreases y@.len() - i,
    {
        match y[i].whole_below(n_classes) {
            None => {
                return Err(i);
            },
            Some(c) => {
                assert(y@[i as int].denotes(c as int));
                ids.push(c);
            },
        }
        i += 1;
    }
    Ok(ids)
}

/// The pipelines that Gaussian naive Bayes uses.
pub fn pipelines() -> (r: PipelineCache)
    ensures
        r.wf(),
        r.entry(Kernel::GnbReducePartials) == Some(None::<usize>),
        r.entry(Kernel::GnbReduceSum) == Some(None::<usize>),
        r.entry(Kernel::GnbPredictLogp) == Some(None::<usize>),
{
    let kernels: Vec<Kernel> = vec![
        Kernel::GnbReducePartials,
        Kernel::GnbReduceSum,
        Kernel::GnbPredictLogp,
    ];
    assert(kernels@[0] == Kernel::GnbReducePartials);
    assert(kernels@[1] == Kernel::GnbReduceSum);
    assert(kernels@[2] == Kernel::GnbPredictLogp);
    PipelineCache::new(kernels)
}

/// The place of the first count from `i` on that is not above zero.
pub open spec fn first_empty_class(counts: Seq<Float32>, i: int) -> Option<int>
    decreases counts.len() - i,
{
    if i >= counts.len() {
        None
    } else if !(Float32 { bits: 0 }).lt(counts[i]) {
        Some(i)
    } else {
        first_empty_class(counts, i + 1)
    }
}

/// Whether `label` is the number of the class with the greatest of the `k` log posteriors of
/// row `i`.
pub open spec fn labels_row(logp: Seq<Float32>, k: int, i: int, label: Float32) -> bool {
    exists|c: int|
        #[trigger] label.denotes(c) && leading_greatest(logp.subrange(i * k, (i + 1) * k), c)
}

impl GaussianNB {
    pub fn new(config: GaussianNBConfig) -> (r: GaussianNB)
        ensures
            r.config == config,
            r.means@ == Seq::<Float32>::empty(),
            r.variances@ == Seq::<Float32>::empty(),
            r.priors@ == Seq::<Float32>::empty(),
            r.log_priors@ == Seq::<Float32>::empty(),
            r.k == 0,
            r.d == 0,
            r.n == 0,
            r.pipelines.wf(),
            r.pipelines.entry(Kernel::GnbReducePartials) == Some(None::<usize>),
            r.pipelines.entry(Kernel::GnbReduceSum) == Some(None::<usize>),
            r.pipelines.entry(Kernel::GnbPredictLogp) == Some(None::<usize>),
    {
        GaussianNB {
            config,
            means: Vec::new(),
            variances: Vec::new(),
            priors: Vec::new(),
            log_priors: Vec::new(),
            k: 0,
            d: 0,
            n: 0,
            pipelines: pipelines(),
        }
    }

    pub fn n_classes(&self) -> (r: usize)
        ensures
            r == self.k,
    {
        self.k
    }

    pub fn n_features(&self) -> (r: usize)
        ensures
            r == self.d,
    {
        self.d
    }

    pub fn n_samples(&self) -> (r: usize)
        ensures
            r == self.n,
    {
        self.n
    }

    pub fn means(&self) -> (r: &[Float32])
        ensures
            r@ == self.means@,
    {
        self.means.as_slice()
    }

    pub fn variances(&self) -> (r: &[Float32])
        ensures
            r@ == self.variances@,
    {
        self.variances.as_slice()
    }

    pub fn priors(&self) -> (r: &[Float32])
        ensures
            r@ == self.priors@,
    {
        self.priors.as_slice()
    }

    pub fn class_prior(&self) -> (r: &[Float32])
        ensures
            r@ == self.priors@,
    {
        self.priors.as_slice()
    }

    /// Starts a fit on `n` rows of `d` features with labels in `[0, n_classes)`: the class id
    /// of each row, and the passes that sum by class.
    pub fn fit(
        &mut self,
        ctx: &mut MetalContext,
        data: &[Float32],
        y: &[Float32],
        n: usize,
        d: usize,
        n_classes: usize,
    ) -> (r: Result<FitPass, GaussianNBError>)
        requires
            4 * data@.len() <= usize::MAX,
            fit_refusal(old(self).config, data@.len() as usize, y@, n, d, n_classes) is None ==> 4
                * (groups_of(n as int, 128) * (n_classes * d)) <= usize::MAX,
        ensures
            match fit_refusal(old(self).config, data@.len() as usize, y@, n, d, n_classes) {
                Some(e) => r == Err::<FitPass, GaussianNBError>(e) && *final(self) == *old(self)
                    && *final(ctx) == *old(ctx),
                None => r matches Ok(pass) && {
                    &&& pass.ids@.len() == n
                    &&& forall|i: int|
                        0 <= i < n ==> #[trigger] pass.ids@[i] < n_classes && y@[i].denotes(
                            pass.ids@[i] as int,
                        )
                    &&& final(ctx)@ == old(ctx)@ + fit_sizes(n as int, d as int, n_classes as int)
                    &&& pass.buffers == fit_buffers(
                        old(ctx)@.len(),
                        n as int,
                        d as int,
                        n_classes as int,
                    )
                    &&& pass.partials@ == partials_launch(pass.buffers, n, d, n_classes)
                    &&& pass.sum@ == sum_launch(pass.buffers, n, d, n_classes)
                    &&& *final(self) == (GaussianNB { k: n_classes, d, n, ..*old(self) })
                },
            },
    {
        if n == 0 || d == 0 {
            return Err(GaussianNBError::Empty);
        }
        if n_classes < 2 {
            return Err(GaussianNBError::Classes(n_classes));
        }
        if !is_matrix(data.len(), n, d) {
            return Err(GaussianNBError::DataLength { n, d, got: data.len() });
        }
        if y.len() != n {
            return Err(GaussianNBError::LabelLength { expected: n, got: y.len() });
        }
        if !(Float32::zero().at_most(self.config.var_smoothing)
            && self.config.var_smoothing.is_finite()) {
            return Err(GaussianNBError::VarSmoothing(self.config.var_smoothing));
        }
        proof {
            lemma_shared(n_classes as int, d as int);
            if d <= 8192 && n_classes <= 8192 {
                assert((2 * d + 1) * n_classes <= 16385 * 8192) by (nonlinear_arith)
                    requires
                        d <= 8192,
                        n_classes <= 8192,
                ;
            }
        }
        if d > 8192 || n_classes > 8192 || (2 * d + 1) * n_classes > 8192 {
            return Err(GaussianNBError::SharedMemory { n_classes, d });
        }
        let ids: Vec<u32> = match class_ids(y, n_classes as u32) {
            Err(index) => {
                return Err(GaussianNBError::Label { index });
            },
            Ok(ids) => ids,
        };
        proof {
            lemma_matrix_bounds(data@.len() as int, n as int, d as int);
            lemma_groups_cover(n as int, 128);
            let groups = groups_of(n as int, 128);
            let kd = n_classes * d;
            assert(0 <= groups * kd) by (nonlinear_arith)
                requires
                    groups >= 0,
                    kd >= 0,
            ;
            assert(0 <= groups * n_classes <= groups * kd) by (nonlinear_arith)
                requires
                    groups >= 0,
                    kd == n_classes * d,
                    d >= 1,
                    n_classes >= 0,
            ;
        }
        self.k = n_classes;
        self.d = d;
        self.n = n;
        let groups: u64 = group_count(n as u64, 128);
        let kd: u64 = (n_classes * d) as u64;
        let shared: u64 = ((2 * d + 1) * n_classes * 4) as u64;
        let ghost start = ctx@;
        let x: Buffer = ctx.new_buffer(data.len());
        let labels: Buffer = ctx.new_buffer(ids.len());
        let sum_partials: Buffer = ctx.new_buffer_uninitialized(groups * kd * 4);
        let square_partials: Buffer = ctx.new_buffer_uninitialized(groups * kd * 4);
        let count_partials: Buffer = ctx.new_buffer_uninitialized(groups * (n_classes as u64) * 4);
        let sums: Buffer = ctx.new_buffer_uninitialized(kd * 4);
        let squares: Buffer = ctx.new_buffer_uninitialized(kd * 4);
        let counts: Buffer = ctx.new_buffer_uninitialized((n_classes as u64) * 4);
        assert(ctx@ =~= start + fit_sizes(n as int, d as int, n_classes as int));
        let buffers = FitBuffers {
            x,
            y: labels,
            sum_partials,
            square_partials,
            count_partials,
            sums,
            squares,
            counts,
        };
        let partials = Launch {
            kernel: Kernel::GnbReducePartials,
            arguments: vec![
                Argument::Memory(x),
                Argument::Memory(labels),
                Argument::Memory(sum_partials),
                Argument::Memory(square_partials),
                Argument::Memory(count_partials),
                Argument::Word(#[verifier::truncate] (n as u32)),
                Argument::Word(#[verifier::truncate] (n_classes as u32)),
                Argument::Word(#[verifier::truncate] (d as u32)),
            ],
            threadgroup_bytes: shared,
            groups: MTLSize::line(groups),
            threads: MTLSize::line(256),
        };
        assert(partials@ =~= partials_launch(buffers, n, d, n_classes));
        let sum = Launch {
            kernel: Kernel::GnbReduceSum,
            arguments: vec![
                Argument::Memory(sum_partials),
                Argument::Memory(square_partials),
                Argument::Memory(count_partials),
                Argument::Memory(sums),
                Argument::Memory(squares),
                Argument::Memory(counts),
                Argument::Word(#[verifier::truncate] (groups as u32)),
                Argument::Word(#[verifier::truncate] (n_classes as u32)),
                Argument::Word(#[verifier::truncate] (d as u32)),
            ],
            threadgroup_bytes: 0,
            groups: MTLSize::line(1),
            threads: MTLSize::line(256),
        };
        assert(sum@ =~= sum_launch(buffers, n, d, n_classes));
        Ok(FitPass { ids, buffers, partials, sum })
    }

    /// Whether every class has samples, by the counts that the device found.
    pub fn check_counts(counts: &[Float32]) -> (r: Result<(), GaussianNBError>)
        ensures
            match first_empty_class(counts@, 0) {
                Some(class) => r == Err::<(), GaussianNBError>(
                    GaussianNBError::NoSamples { class: class as usize },
                ),
                None => r == Ok::<(), GaussianNBError>(()),
            },
    {
        let mut i: usize = 0;
        while i < counts.len()
            invariant
                i <= counts@.len(),
                first_empty_class(counts@, 0) == first_empty_class(counts@, i as int),
            decreases counts@.len() - i,
        {
            if !counts[i].is_positive() {
                return Err(GaussianNBError::NoSamples { class: i });
            }
            i += 1;
        }
        Ok(())
    }

    /// Ends a fit with what the host made of the sums.
    pub fn finish(
        &mut self,
        means: Vec<Float32>,
        variances: Vec<Float32>,
        priors: Vec<Float32>,
        log_priors: Vec<Float32>,
    )
        ensures
            *final(self) == (GaussianNB { means, variances, priors, log_priors, ..*old(self) }),
    {
        self.means = means;
        self.variances = variances;
        self.priors = priors;
        self.log_priors = log_priors;
    }

    /// The buffers and the launch that compute the log posteriors of `n` rows.
    pub fn predict_logp(&self, ctx: &mut MetalContext, data: &[Float32], n: usize, d: usize) -> (r:
        Result<PredictPass, GaussianNBError>)
        requires
            4 * data@.len() <= usize::MAX,
            4 * self.means@.len() <= usize::MAX,
            4 * self.variances@.len() <= usize::MAX,
            4 * self.log_priors@.len() <= usize::MAX,
            predict_refusal(self.k, self.d, data@.len() as usize, n, d) is None ==> {
                &&& 4 * (n * self.k) <= usize::MAX
                &&& n + 255 <= usize::MAX
            },
        ensures
            match predict_refusal(self.k, self.d, data@.len() as usize, n, d) {
                Some(e) => r == Err::<PredictPass, GaussianNBError>(e) && *final(ctx) == *old(ctx),
                None => r matches Ok(pass) && {
                    let sizes = seq![
                        (4 * (n * d)) as u64,
                        (4 * self.means@.len()) as u64,
                        (4 * self.variances@.len()) as u64,
                        (4 * self.log_priors@.len()) as u64,
                        (4 * (n * self.k)) as u64,
                    ];
                    &&& final(ctx)@ == old(ctx)@ + sizes
                    &&& pass.buffers == (PredictBuffers {
                        x: buffer_at(old(ctx)@.len(), 0, sizes[0] as int),
                        means: buffer_at(old(ctx)@.len(), 1, sizes[1] as int),
                        variances: buffer_at(old(ctx)@.len(), 2, sizes[2] as int),
                        log_priors: buffer_at(old(ctx)@.len(), 3, sizes[3] as int),
                        out: buffer_at(old(ctx)@.len(), 4, sizes[4] as int),
                    })
                    &&& pass.launch@ == logp_launch(pass.buffers, n, d, self.k)
                    &&& pass.launch@.bound_in(final(ctx)@)
                },
            },
    {
        if !is_matrix(data.len(), n, d) {
            return Err(GaussianNBError::DataLength { n, d, got: data.len() });
        }
        if self.k == 0 {
            return Err(GaussianNBError::NotFitted);
        }
        if d != self.d {
            return Err(GaussianNBError::Dimension { expected: self.d, got: d });
        }
        let k: usize = self.k;
        let ghost start = ctx@;
        let x: Buffer = ctx.new_buffer(data.len());
        let means: Buffer = ctx.new_buffer(self.means.len());
        let variances: Buffer = ctx.new_buffer(self.variances.len());
        let log_priors: Buffer = ctx.new_buffer(self.log_priors.len());
        let out: Buffer = ctx.new_buffer_uninitialized((n * k * 4) as u64);
        assert(ctx@ =~= start + seq![
            (4 * (n * d)) as u64,
            (4 * self.means@.len()) as u64,
            (4 * self.variances@.len()) as u64,
            (4 * self.log_priors@.len()) as u64,
            (4 * (n * self.k)) as u64,
        ]);
        let buffers = PredictBuffers { x, means, variances, log_priors, out };
        let launch = Launch {
            kernel: Kernel::GnbPredictLogp,
            arguments: vec![
                Argument::Memory(x),
                Argument::Memory(means),
                Argument::Memory(variances),
                Argument::Memory(log_priors),
                Argument::Memory(out),
                Argument::Word(#[verifier::truncate] (n as u32)),
                Argument::Word(#[verifier::truncate] (k as u32)),
                Argument::Word(#[verifier::truncate] (d as u32)),
            ],
            threadgroup_bytes: 0,
            groups: MTLSize::line(group_count(n as u64, 256)),
            threads: MTLSize::line(256),
        };
        assert(launch@ =~= logp_launch(buffers, n, d, k));
        Ok(PredictPass { buffers, launch })
    }

    /// The labels of `n` rows of log posteriors: the number of the class with the greatest one.
    pub fn predict(&self, logp: &[Float32], n: usize) -> (r: Vec<Float32>)
        requires
            logp@.len() == n * self.k,
            0 < self.k <= 0x100_0000,
        ensures
            r@.len() == n,
            forall|i: int|
                0 <= i < n ==> labels_row(logp@, self.k as int, i, #[trigger] r@[i]),
    {
        let len: usize = logp.len();
        let k: usize = self.k;
        let mut r: Vec<Float32> = Vec::new();
        let mut i: usize = 0;
        while i < n
            invariant
                i <= n,
                len == logp@.len(),
                len == n * k,
                k == self.k,
                0 < k <= 0x100_0000,
                r@.len() == i,
                forall|j: int|
                    0 <= j < i ==> labels_row(logp@, k as int, j, #[trigger] r@[j]),
            decreases n - i,
        {
            proof {
                lemma_matrix_index(n as int, k as int, i as int, 0);
            }
            let best: usize = leading_argmax(logp, i * k, i * k + k);
            let label: Float32 = Float32::from_whole(best as u32);
            r.push(label);
            proof {
                assert(label.denotes(best as int));
                assert(labels_row(logp@, k as int, i as int, label));
            }
            i += 1;
        }
        r
    }

    /// Whether there is a label for each row that is scored.
    pub fn check_score(y: &[Float32], n: usize) -> (r: Result<(), GaussianNBError>)
        ensures
            r == (if y@.len() == n {
                Ok::<(), GaussianNBError>(())
            } else {
                Err(GaussianNBError::LabelLength { expected: n, got: y@.len() as usize })
            }),
    {
        if y.len() == n {
            Ok(())
        } else {
            Err(GaussianNBError::LabelLength { expected: n, got: y.len() })
        }
    }

    /// How many predictions are right, given the gap of each to its label.
    pub fn score(gaps: &[Float32]) -> (r: usize)
        ensures
            r == near_count(gaps@, Float32 { bits: HALF }, gaps@.len() as int),
            r <= gaps@.len(),
    {
        count_near(gaps, Float32 { bits: HALF })
    }
}

/// The launches of a fit bind only buffers that exist.
pub proof fn lemma_fit_launches_bound(start: Seq<u64>, n: usize, d: usize, k: usize)
    requires
        start.len() + 8 <= usize::MAX,
    ensures
        ({
            let ledger = start + fit_sizes(n as int, d as int, k as int);
            let b = fit_buffers(start.len(), n as int, d as int, k as int);
            &&& partials_launch(b, n, d, k).bound_in(ledger)
            &&& sum_launch(b, n, d, k).bound_in(ledger)
        }),
{
    lemma_buffers_held(start, fit_sizes(n as int, d as int, k as int));
}

/// The partial sums are taken over blocks of 128 rows that hold every row, in threadgroup memory
/// for a sum and a square of each feature and a count of each class.
pub proof fn lemma_sums_reach_every_row(b: FitBuffers, n: usize, d: usize, k: usize)
    requires
        4 * ((2 * d + 1) * k) <= u64::MAX,
    ensures
        ({
            let l = partials_launch(b, n, d, k);
            &&& l.kernel == Kernel::GnbReducePartials
            &&& l.arguments.len() == 8
            &&& l.arguments[0] == Argument::Memory(b.x)
            &&& l.arguments[1] == Argument::Memory(b.y)
            &&& l.arguments[2] == Argument::Memory(b.sum_partials)
            &&& l.arguments[3] == Argument::Memory(b.square_partials)
            &&& l.arguments[4] == Argument::Memory(b.count_partials)
            &&& l.arguments[5] == Argument::Word(n as u32)
            &&& l.arguments[6] == Argument::Word(k as u32)
            &&& l.arguments[7] == Argument::Word(d as u32)
            &&& l.threadgroup_bytes == 4 * ((2 * d + 1) * k)
            &&& l.groups.width * 128 >= n
            &&& l.groups.width * 128 < n + 128
            &&& l.groups.height == 1 && l.threads.height == 1
            &&& l.threads.width == 256
        }),
        ({
            let l = sum_launch(b, n, d, k);
            &&& l.kernel == Kernel::GnbReduceSum
            &&& l.arguments.len() == 9
            &&& l.arguments[0] == Argument::Memory(b.sum_partials)
            &&& l.arguments[1] == Argument::Memory(b.square_partials)
            &&& l.arguments[2] == Argument::Memory(b.count_partials)
            &&& l.arguments[3] == Argument::Memory(b.sums)
            &&& l.arguments[4] == Argument::Memory(b.squares)
            &&& l.arguments[5] == Argument::Memory(b.counts)
            &&& l.arguments[6] == Argument::Word(partials_launch(b, n, d, k).groups.width as u32)
            &&& l.arguments[7] == Argument::Word(k as u32)
            &&& l.arguments[8] == Argument::Word(d as u32)
            &&& l.threadgroup_bytes == 0
            &&& l.groups == (MTLSize { width: 1, height: 1, depth: 1 })
            &&& l.threads.width == 256
            &&& l.threads.height == 1 && l.threads.depth == 1
        }),
{
    lemma_line_covers(n as int, 128);
    assert(0 <= (2 * d + 1) * k) by (nonlinear_arith)
        requires
            0 <= d,
            0 <= k,
    ;
}

/// A prediction binds rows, means, variances and priors and has a thread for every row.
pub proof fn lemma_prediction_reaches_every_row(b: PredictBuffers, n: usize, d: usize, k: usize)
    ensures
        ({
            let l = logp_launch(b, n, d, k);
            &&& l.kernel == Kernel::GnbPredictLogp
            &&& l.arguments.len() == 8
            &&& l.arguments[0] == Argument::Memory(b.x)
            &&& l.arguments[1] == Argument::Memory(b.means)
            &&& l.arguments[2] == Argument::Memory(b.variances)
            &&& l.arguments[3] == Argument::Memory(b.log_priors)
            &&& l.arguments[4] == Argument::Memory(b.out)
            &&& l.arguments[5] == Argument::Word(n as u32)
            &&& l.arguments[6] == Argument::Word(k as u32)
            &&& l.arguments[7] == Argument::Word(d as u32)
            &&& l.threadgroup_bytes == 0
            &&& l.groups.width * l.threads.width >= n
            &&& l.groups.width * l.threads.width < n + 256
            &&& l.threads.width == 256
            &&& l.groups.height == 1 && l.threads.height == 1
        }),
{
    lemma_line_covers(n as int, 256);
}

/// The buffers of a fit, one after the other, each of the size of what it holds.
pub proof fn lemma_fit_buffers(start: nat, n: usize, d: usize, k: usize)
    requires
        start + 8 <= usize::MAX,
        4 * (n * d) <= usize::MAX,
        4 * n <= usize::MAX,
        4 * (k * d) <= usize::MAX,
        4 * k <= usize::MAX,
        4 * (groups_of(n as int, 128) * (k * d)) <= usize::MAX,
        4 * (groups_of(n as int, 128) * k) <= usize::MAX,
    ensures
        ({
            let b = fit_buffers(start, n as int, d as int, k as int);
            &&& b.x.id == start && b.x.byte_len == 4 * (n * d)
            &&& b.y.id == start + 1 && b.y.byte_len == 4 * n
            &&& b.sum_partials.id == start + 2 && b.sum_partials.byte_len == 4 * (partials_launch(b, n, d, k).groups.width * (k * d))
            &&& b.square_partials.id == start + 3 && b.square_partials.byte_len == 4 * (partials_launch(b, n, d, k).groups.width * (k * d))
            &&& b.count_partials.id == start + 4 && b.count_partials.byte_len == 4 * (partials_launch(b, n, d, k).groups.width * k)
            &&& b.sums.id == start + 5 && b.sums.byte_len == 4 * (k * d)
            &&& b.squares.id == start + 6 && b.squares.byte_len == 4 * (k * d)
            &&& b.counts.id == start + 7 && b.counts.byte_len == 4 * k
        }),
        fit_sizes(n as int, d as int, k as int).len() == 8,
{
    lemma_line_covers(n as int, 128);
    let g = groups_of(n as int, 128);
    assert(0 <= g && 0 <= n * d && 0 <= k * d && 0 <= g * k) by (nonlinear_arith)
        requires
            g == (n + 128 - 1) / 128,
            0 <= n,
            0 <= d,
            0 <= k,
    ;
    assert(0 <= g * (k * d)) by (nonlinear_arith)
        requires
            0 <= g,
            0 <= k * d,
    ;
}

/// The label that is refused is the first that is no whole number below the number of classes;
/// none is where each is one.
pub proof fn lemma_first_bad_label(y: Seq<Float32>, n_classes: int, i: int)
    requires
        0 <= i <= y.len(),
        forall|j: int|
            #![trigger y[j]]
            0 <= j < i ==> exists|c: int| 0 <= c < n_classes && #[trigger] y[j].denotes(c),
    ensures
        i == y.len() ==> first_bad_label(y, n_classes, 0) is None,
        i < y.len() && (forall|c: int| 0 <= c < n_classes ==> !#[trigger] y[i].denotes(c))
            ==> first_bad_label(y, n_classes, 0) == Some(i),
{
    lemma_good_labels_passed(y, n_classes, 0, i);
}

proof fn lemma_good_labels_passed(y: Seq<Float32>, n_classes: int, from: int, i: int)
    requires
        0 <= from <= i <= y.len(),
        forall|j: int| #![trigger y[j]] from <= j < i ==> is_class(y[j], n_classes),
    ensures
        first_bad_label(y, n_classes, from) == first_bad_label(y, n_classes, i),
    decreases i - from,
{
    if from < i {
        assert(is_class(y[from], n_classes));
        lemma_good_labels_passed(y, n_classes, from + 1, i);
    }
}

/// The class that is refused is the first whose count is not above zero; none is where each is.
pub proof fn lemma_first_empty_class(counts: Seq<Float32>, i: int)
    requires
        0 <= i <= counts.len(),
        forall|j: int| 0 <= j < i ==> (Float32 { bits: 0 }).lt(#[trigger] counts[j]),
    ensures
        i == counts.len() ==> first_empty_class(counts, 0) is None,
        i < counts.len() && !(Float32 { bits: 0 }).lt(counts[i]) ==> first_empty_class(counts, 0)
            == Some(i),
{
    lemma_filled_classes_passed(counts, 0, i);
}

proof fn lemma_filled_classes_passed(counts: Seq<Float32>, from: int, i: int)
    requires
        0 <= from <= i <= counts.len(),
        forall|j: int| from <= j < i ==> (Float32 { bits: 0 }).lt(#[trigger] counts[j]),
    ensures
        first_empty_class(counts, from) == first_empty_class(counts, i),
    decreases i - from,
{
    if from < i {
        lemma_filled_classes_passed(counts, from + 1, i);
    }
}

/// A row's label is a class of which no other is likelier, and every one before is less likely.
pub proof fn lemma_row_gets_the_likeliest(
    logp: Seq<Float32>,
    k: int,
    i: int,
    label: Float32,
    j: int,
)
    requires
        labels_row(logp, k, i, label),
        0 <= i,
        0 <= j < k,
        0 <= i * k,
        i * k + k <= logp.len(),
        !logp[i * k].nan(),
        !logp[i * k + j].nan(),
    ensures
        exists|c: int|
            0 <= c < k && #[trigger] label.denotes(c) && logp[i * k + j].le(logp[i * k + c]) && (j
                < c ==> logp[i * k + j].lt(logp[i * k + c])),
{
    assert((i + 1) * k == i * k + k) by (nonlinear_arith);
    let row = logp.subrange(i * k, (i + 1) * k);
    let c = choose|c: int| #[trigger] label.denotes(c) && leading_greatest(row, c);
    assert(row[j] == logp[i * k + j] && row[0] == logp[i * k]);
    lemma_leading_greatest(row, c, j);
    assert(row[c] == logp[i * k + c]);
}

/// When a fit and a prediction are taken, and why not.
pub proof fn lemma_refusals(
    config: GaussianNBConfig,
    len: usize,
    y: Seq<Float32>,
    n: usize,
    d: usize,
    n_classes: usize,
    k: usize,
    fitted_d: usize,
)
    ensures
        ({
            let r = fit_refusal(config, len, y, n, d, n_classes);
            &&& r is None <==> (n > 0 && d > 0) && (n_classes >= 2) && (len == n * d) && (y.len() == n) && ((Float32 { bits: 0 }).le(config.var_smoothing) && config.var_smoothing.finite()) && (4 * ((2 * d + 1) * n_classes) <= 32768) && (first_bad_label(y, n_classes as int, 0) is None)
            &&& !(n > 0 && d > 0) ==> r == Some(GaussianNBError::Empty)
            &&& (n > 0 && d > 0) && !(n_classes >= 2) ==> r == Some(GaussianNBError::Classes(n_classes))
            &&& (n > 0 && d > 0) && (n_classes >= 2) && !(len == n * d) ==> r == Some(GaussianNBError::DataLength { n, d, got: len })
            &&& (n > 0 && d > 0) && (n_classes >= 2) && (len == n * d) && !(y.len() == n) ==> r == Some(GaussianNBError::LabelLength { expected: n, got: y.len() as usize })
            &&& (n > 0 && d > 0) && (n_classes >= 2) && (len == n * d) && (y.len() == n) && !((Float32 { bits: 0 }).le(config.var_smoothing) && config.var_smoothing.finite()) ==> r == Some(GaussianNBError::VarSmoothing(config.var_smoothing))
            &&& (n > 0 && d > 0) && (n_classes >= 2) && (len == n * d) && (y.len() == n) && ((Float32 { bits: 0 }).le(config.var_smoothing) && config.var_smoothing.finite()) && !(4 * ((2 * d + 1) * n_classes) <= 32768) ==> r == Some(GaussianNBError::SharedMemory { n_classes, d })
            &&& (n > 0 && d > 0) && (n_classes >= 2) && (len == n * d) && (y.len() == n) && ((Float32 { bits: 0 }).le(config.var_smoothing) && config.var_smoothing.finite()) && (4 * ((2 * d + 1) * n_classes) <= 32768) && !(first_bad_label(y, n_classes as int, 0) is None) ==> r == Some(GaussianNBError::Label { index: first_bad_label(y, n_classes as int, 0)->0 as usize })
        }),
        ({
            let r = predict_refusal(k, fitted_d, len, n, d);
            &&& r is None <==> (len == n * d) && (k > 0) && (d == fitted_d)
            &&& !(len == n * d) ==> r == Some(GaussianNBError::DataLength { n, d, got: len })
            &&& (len == n * d) && !(k > 0) ==> r == Some(GaussianNBError::NotFitted)
            &&& (len == n * d) && (k > 0) && !(d == fitted_d) ==> r == Some(GaussianNBError::Dimension { expected: fitted_d, got: d })
        }),
{
}

} // verus!
