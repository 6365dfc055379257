//! Non-negative matrix factorization by multiplicative updates.
//!
//! Data `v` of `n` rows and `d` columns is approximated by `w h`, where `w` has `k` columns
//! and `h` has `k` rows. All products are made on the device. How large the factors are,
//! which products an iteration makes, in which order, and when it ends is decided here.

use vstd::prelude::*;
use crate::float::Float32;
use crate::metal::{group_count, Argument, Buffer, Kernel, Launch, MTLSize, MetalContext};
use crate::pipeline::PipelineCache;
use crate::shape::is_matrix;
#[allow(unused_imports)]
use crate::metal::{buffer_at, groups_of, holds, lemma_groups_cover, lemma_tiles_cover, plane, views, LaunchView};
#[allow(unused_imports)]
use crate::shape::lemma_matrix_bounds;

verus! {

/// What the seed of a transform differs by from the seed of the fit.
pub const TRANSFORM_SEED: u64 = 0x9e37_79b9;

#[derive(Clone, Copy, Debug, PartialEq, Eq, Structural)]
pub struct NMFConfig {
    pub n_components: usize,
    pub max_iterations: usize,
    /// The relative change of `w` below which the fit ends; none does where it is not
    /// positive.
    pub tolerance: Float32,
    pub seed: u64,
    /// What is added to each denominator.
    pub eps: Float32,
}

impl Default for NMFConfig {
    /// Two components, 200 iterations, tolerance 1e-4, seed 42, 1e-10 in denominators.
    fn default() -> (r: NMFConfig)
        ensures
            r == (NMFConfig {
                n_components: 2,
                max_iterations: 200,
                tolerance: Float32 { bits: 0x38d1_b717 },
                seed: 42,
                eps: Float32 { bits: 0x2edb_e6ff },
            }),
    {
        NMFConfig {
            n_components: 2,
            max_iterations: 200,
            tolerance: Float32 { bits: 0x38d1_b717 },
            seed: 42,
            eps: Float32 { bits: 0x2edb_e6ff },
        }
    }
}

/// Why a fit or a transform was refused.
#[derive(Clone, Copy, Debug, PartialEq, Eq, Structural)]
pub enum NMFError {
    Empty,
    DataLength { n: usize, d: usize, got: usize },
    /// A value is negative or no number.
    Negative,
    NotFitted,
    Dimension { expected: usize, got: usize },
}

pub struct NMF {
    pub config: NMFConfig,
    /// `h`, of `k` rows and `d` columns.
    pub components: Vec<Float32>,
    /// `w`, of `n` rows and `k` columns.
    pub coeff: Vec<Float32>,
    pub reconstruction_error: Float32,
    pub n_iter: usize,
    pub n: usize,
    pub d: usize,
    pub k: usize,
    /// The pipelines compiled so far.
    pub pipelines: PipelineCache,
}

/// Whether every value is a number that is not below zero.
pub open spec fn non_negative(values: Seq<Float32>) -> bool {
    forall|i: int| 0 <= i < values.len() ==> (Float32 { bits: 0 }).le(#[trigger] values[i])
}

/// How many components there are: as many as wanted, but one at least, and no more than the
/// data has rows or columns.
pub open spec fn rank(wanted: usize, n: usize, d: usize) -> int {
    let most = if n < d {
        n
    } else {
        d
    };
    if wanted < 1 {
        1
    } else if wanted > most {
        most as int
    } else {
        wanted as int
    }
}

/// Why a fit is refused, if it is.
pub open spec fn fit_refusal(data: Seq<Float32>, n: usize, d: usize) -> Option<NMFError> {
    if n == 0 || d == 0 {
        Some(NMFError::Empty)
    } else if data.len() != n * d {
        Some(NMFError::DataLength { n, d, got: data.len() as usize })
    } else if !non_negative(data) {
        Some(NMFError::Negative)
    } else {
        None
    }
}

/// Why a transform is refused, if it is.
pub open spec fn transform_refusal(
    components: nat,
    fitted_d: usize,
    data: Seq<Float32>,
    n: usize,
    d: usize,
) -> Option<NMFError> {
    if components == 0 {
        Some(NMFError::NotFitted)
    } else if d != fitted_d {
        Some(NMFError::Dimension { expected: fitted_d, got: d })
    } else if data.len() != n * d {
        Some(NMFError::DataLength { n, d, got: data.len() as usize })
    } else if !non_negative(data) {
        Some(NMFError::Negative)
    } else {
        None
    }
}

/// The launch that makes `c`, of `m` rows and `n` columns, the product of `a` and `b` over
/// `k`, each transposed before where its flag says so.
pub open spec fn product_launch(
    a: Buffer,
    b: Buffer,
    c: Buffer,
    m: usize,
    n: usize,
    k: usize,
    a_trans: bool,
    b_trans: bool,
) -> LaunchView {
    LaunchView {
        kernel: Kernel::NmfMm,
        arguments: seq![
            Argument::Memory(a),
            Argument::Memory(b),
            Argument::Memory(c),
            Argument::Word(m as u32),
            Argument::Word(n as u32),
            Argument::Word(k as u32),
            Argument::Word(flag(a_trans)),
            Argument::Word(flag(b_trans)),
        ],
        threadgroup_bytes: 0,
        groups: plane(groups_of(n as int, 16), groups_of(m as int, 16)),
        threads: plane(16, 16),
    }
}

/// A flag as the kernels take it.
pub open spec fn flag(set: bool) -> u32 {
    if set {
        1
    } else {
        0
    }
}

/// The launch that multiplies each element of `x`, of `m` rows and `n` columns, by that of
/// `num` over the sum of that of `den` and `eps`.
pub open spec fn update_launch(
    x: Buffer,
    num: Buffer,
    den: Buffer,
    eps: Float32,
    m: usize,
    n: usize,
) -> LaunchView {
    LaunchView {
        kernel: Kernel::NmfUpdate,
        arguments: seq![
            Argument::Memory(x),
            Argument::Memory(num),
            Argument::Memory(den),
            Argument::Real(eps),
            Argument::Word(m as u32),
            Argument::Word(n as u32),
        ],
        threadgroup_bytes: 0,
        groups: plane(groups_of(n as int, 16), groups_of(m as int, 16)),
        threads: plane(16, 16),
    }
}

/// The launch that makes `err` the difference of `v` and `w h`.
pub open spec fn difference_launch(
    v: Buffer,
    w: Buffer,
    h: Buffer,
    err: Buffer,
    n: usize,
    d: usize,
    k: usize,
) -> LaunchView {
    LaunchView {
        kernel: Kernel::NmfDiff,
        arguments: seq![
            Argument::Memory(v),
            Argument::Memory(w),
            Argument::Memory(h),
            Argument::Memory(err),
            Argument::Word(n as u32),
            Argument::Word(d as u32),
            Argument::Word(k as u32),
        ],
        threadgroup_bytes: 0,
        groups: plane(groups_of(d as int, 16), groups_of(n as int, 16)),
        threads: plane(16, 16),
    }
}

/// The buffers of a fit.
#[derive(Clone, Copy, Debug, PartialEq, Eq, Structural)]
pub struct FitBuffers {
    pub v: Buffer,
    pub w: Buffer,
    pub h: Buffer,
    pub wtv: Buffer,
    pub wtw: Buffer,
    pub wtwh: Buffer,
    pub vht: Buffer,
    pub hht: Buffer,
    pub whht: Buffer,
}

/// The sizes in bytes of the buffers of a fit, in the order in which they are made.
pub open spec fn fit_sizes(n: usize, d: usize, k: usize) -> Seq<u64> {
    seq![
        (4 * (n * d)) as u64,
        (4 * (n * k)) as u64,
        (4 * (k * d)) as u64,
        (4 * (k * d)) as u64,
        (4 * (k * k)) as u64,
        (4 * (k * d)) as u64,
        (4 * (n * k)) as u64,
        (4 * (k * k)) as u64,
        (4 * (n * k)) as u64,
    ]
}

/// The buffers of a fit, where the first one comes after `start` others.
pub open spec fn fit_buffers(start: nat, n: usize, d: usize, k: usize) -> FitBuffers {
    let sizes = fit_sizes(n, d, k);
    FitBuffers {
        v: buffer_at(start, 0, sizes[0] as int),
        w: buffer_at(start, 1, sizes[1] as int),
        h: buffer_at(start, 2, sizes[2] as int),
        wtv: buffer_at(start, 3, sizes[3] as int),
        wtw: buffer_at(start, 4, sizes[4] as int),
        wtwh: buffer_at(start, 5, sizes[5] as int),
        vht: buffer_at(start, 6, sizes[6] as int),
        hht: buffer_at(start, 7, sizes[7] as int),
        whht: buffer_at(start, 8, sizes[8] as int),
    }
}

/// The launches of one iteration of a fit, in the order in which they run: first `h` is
/// updated, then `w`.
pub open spec fn fit_launches(b: FitBuffers, eps: Float32, n: usize, d: usize, k: usize) -> Seq<
    LaunchView,
> {
    seq![
        product_launch(b.w, b.v, b.wtv, k, d, n, true, false),
        product_launch(b.w, b.w, b.wtw, k, k, n, true, false),
        product_launch(b.wtw, b.h, b.wtwh, k, d, k, false, false),
        update_launch(b.h, b.wtv, b.wtwh, eps, k, d),
        product_launch(b.v, b.h, b.vht, n, k, d, false, true),
        product_launch(b.h, b.h, b.hht, k, k, d, false, true),
        product_launch(b.w, b.hht, b.whht, n, k, k, false, false),
        update_launch(b.w, b.vht, b.whht, eps, n, k),
    ]
}

/// The buffers of a transform.
#[derive(Clone, Copy, Debug, PartialEq, Eq, Structural)]
pub struct TransformBuffers {
    pub x: Buffer,
    pub w: Buffer,
    pub h: Buffer,
    pub xht: Buffer,
    pub hht: Buffer,
    pub whht: Buffer,
}

/// The sizes in bytes of the buffers of a transform, in the order in which they are made.
pub open spec fn transform_sizes(n: usize, d: usize, k: usize) -> Seq<u64> {
    seq![
        (4 * (n * d)) as u64,
        (4 * (n * k)) as u64,
        (4 * (k * d)) as u64,
        (4 * (n * k)) as u64,
        (4 * (k * k)) as u64,
        (4 * (n * k)) as u64,
    ]
}

/// The buffers of a transform, where the first one comes after `start` others.
pub open spec fn transform_buffers(start: nat, n: usize, d: usize, k: usize) -> TransformBuffers {
    let sizes = transform_sizes(n, d, k);
    TransformBuffers {
        x: buffer_at(start, 0, sizes[0] as int),
        w: buffer_at(start, 1, sizes[1] as int),
        h: buffer_at(start, 2, sizes[2] as int),
        xht: buffer_at(start, 3, sizes[3] as int),
        hht: buffer_at(start, 4, sizes[4] as int),
        whht: buffer_at(start, 5, sizes[5] as int),
    }
}

/// The launches that a transform begins with, in the order in which they run.
pub open spec fn transform_preparation(b: TransformBuffers, n: usize, d: usize, k: usize) -> Seq<
    LaunchView,
> {
    seq![
        product_launch(b.x, b.h, b.xht, n, k, d, false, true),
        product_launch(b.h, b.h, b.hht, k, k, d, false, true),
    ]
}

/// The launches of one iteration of a transform, in the order in which they run: `w` is
/// updated, `h` stays.
pub open spec fn transform_launches(b: TransformBuffers, eps: Float32, n: usize, k: usize) -> Seq<
    LaunchView,
> {
    seq![
        product_launch(b.w, b.hht, b.whht, n, k, k, false, false),
        update_launch(b.w, b.xht, b.whht, eps, n, k),
    ]
}

/// The buffers of a fit, the seed of its random factors and the launches of an iteration.
pub struct FitPass {
    pub buffers: FitBuffers,
    pub seed: u64,
    pub launches: Vec<Launch>,
}

/// The buffer and the launch that compare the data with the product of the factors.
pub struct DifferencePass {
    pub err: Buffer,
    pub launch: Launch,
}

/// The buffers of a transform, the seed of its random factor and its launches: those that it
/// begins with and those of each of its iterations.
pub struct TransformPass {
    pub buffers: TransformBuffers,
    pub seed: u64,
    pub preparation: Vec<Launch>,
    pub iterations: usize,
    pub launches: Vec<Launch>,
}

/// An extent of `rows` by `columns` threads, in groups of 16 by 16.
pub fn dispatch_2d(rows: usize, columns: usize) -> (r: (MTLSize, MTLSize))
    requires
        rows + 15 <= usize::MAX,
        columns + 15 <= usize::MAX,
    ensures
        r.0 == plane(groups_of(columns as int, 16), groups_of(rows as int, 16)),
        r.1 == plane(16, 16),
{
    (
        MTLSize::plane(group_count(columns as u64, 16), group_count(rows as u64, 16)),
        MTLSize::plane(16, 16),
    )
}

/// The launch that makes `c`, of `m` rows and `n` columns, the product of `a` and `b` over
/// `k`, each transposed before where its flag says so.
pub fn dispatch_mm(
    a: Buffer,
    b: Buffer,
    c: Buffer,
    m: usize,
    n: usize,
    k: usize,
    a_trans: bool,
    b_trans: bool,
) -> (r: Launch)
    requires
        m + 15 <= usize::MAX,
        n + 15 <= usize::MAX,
    ensures
        r@ == product_launch(a, b, c, m, n, k, a_trans, b_trans),
{
    let (groups, threads) = dispatch_2d(m, n);
    let a_flag: u32 = if a_trans {
        1
    } else {
        0
    };
    let b_flag: u32 = if b_trans {
        1
    } else {
        0
    };
    let r = Launch {
        kernel: Kernel::NmfMm,
        arguments: vec![
            Argument::Memory(a),
            Argument::Memory(b),
            Argument::Memory(c),
            Argument::Word(#[verifier::truncate] (m as u32)),
            Argument::Word(#[verifier::truncate] (n as u32)),
            Argument::Word(#[verifier::truncate] (k as u32)),
            Argument::Word(a_flag),
            Argument::Word(b_flag),
        ],
        threadgroup_bytes: 0,
        groups,
        threads,
    };
    assert(r@ =~= product_launch(a, b, c, m, n, k, a_trans, b_trans));
    r
}

/// The launch that multiplies each element of `x`, of `m` rows and `n` columns, by that of
/// `num` over the sum of that of `den` and `eps`.
pub fn dispatch_update(x: Buffer, num: Buffer, den: Buffer, eps: Float32, m: usize, n: usize) -> (r:
    Launch)
    requires
        m + 15 <= usize::MAX,
        n + 15 <= usize::MAX,
    ensures
        r@ == update_launch(x, num, den, eps, m, n),
{
    let (groups, threads) = dispatch_2d(m, n);
    let r = Launch {
        kernel: Kernel::NmfUpdate,
        arguments: vec![
            Argument::Memory(x),
            Argument::Memory(num),
            Argument::Memory(den),
            Argument::Real(eps),
            Argument::Word(#[verifier::truncate] (m as u32)),
            Argument::Word(#[verifier::truncate] (n as u32)),
        ],
        threadgroup_bytes: 0,
        groups,
        threads,
    };
    assert(r@ =~= update_launch(x, num, den, eps, m, n));
    r
}

fn all_non_negative(values: &[Float32]) -> (r: bool)
    ensures
        r == non_negative(values@),
{
    let mut i: usize = 0;
    while i < values.len()
        invariant
            i <= values@.len(),
            forall|j: int| 0 <= j < i ==> (Float32 { bits: 0 }).le(#[trigger] values@[j]),
        decreases values@.len() - i,
    {
        if !Float32::zero().at_most(values[i]) {
            return false;
        }
        i += 1;
    }
    true
}

proof fn lemma_factors_fit(n: int, d: int, k: int)
    requires
        1 <= k,
        k <= d,
        0 <= n,
    ensures
        0 <= n * k <= n * d,
        0 <= k * d,
        0 <= k * k <= k * d,
        k <= n ==> k * d <= n * d,
{
    assert(0 <= n * k <= n * d) by (nonlinear_arith)
        requires
            1 <= k <= d,
            0 <= n,
    ;
    assert(0 <= k * d && 0 <= k * k <= k * d) by (nonlinear_arith)
        requires
            1 <= k <= d,
    ;
    if k <= n {
        assert(k * d <= n * d) by (nonlinear_arith)
            requires
                k <= n,
                1 <= d,
        ;
    }
}

/// The iterations of a fit, as far as they have gone.
#[derive(Clone, Copy, Debug, PartialEq, Eq, Structural)]
pub struct Progress {
    pub max_iterations: usize,
    pub tolerance: Float32,
    /// Iterations done.
    pub done: usize,
    /// Whether the last one changed `w` by less than the tolerance.
    pub settled: bool,
}

impl Progress {
    pub open spec fn wf(&self) -> bool {
        &&& 1 <= self.max_iterations
        &&& self.done <= self.max_iterations
        &&& self.settled ==> self.done >= 1
    }

    /// Whether there is no other iteration.
    pub open spec fn over(&self) -> bool {
        self.settled || self.done >= self.max_iterations
    }

    /// What an iteration that changes `w` by `change` leads to.
    pub open spec fn after(self, change: Option<Float32>) -> Progress {
        Progress {
            done: (self.done + 1) as usize,
            settled: settles(self.tolerance, change),
            ..self
        }
    }

    /// Where the iterations end, if iteration `i` changes `w` by `changes(i)`.
    pub open spec fn ended(self, changes: spec_fn(int) -> Option<Float32>) -> Progress
        decreases self.max_iterations - self.done,
    {
        if self.over() {
            self
        } else {
            self.after(changes(self.done as int)).ended(changes)
        }
    }

    /// A fit that has made no iteration yet. It makes one at least.
    pub fn new(config: &NMFConfig) -> (r: Progress)
        ensures
            r.wf(),
            r.max_iterations == iteration_limit(*config),
            r.tolerance == config.tolerance,
            r.done == 0,
            !r.settled,
    {
        let max_iterations: usize = if config.max_iterations < 1 {
            1
        } else {
            config.max_iterations
        };
        Progress { max_iterations, tolerance: config.tolerance, done: 0, settled: false }
    }

    /// Whether there is another iteration.
    pub fn next(&self) -> (r: bool)
        ensures
            r == !self.over(),
    {
        !self.settled && self.done < self.max_iterations
    }

    /// Takes in an iteration that changed `w` by `change`, relative to its norm before; there
    /// is no such change where that norm was not positive.
    pub fn advance(&mut self, change: Option<Float32>)
        requires
            old(self).wf(),
            !old(self).settled,
            old(self).done < old(self).max_iterations,
        ensures
            final(self).wf(),
            *final(self) == old(self).after(change),
    {
        self.done = self.done + 1;
        if self.tolerance.is_positive() {
            if let Some(value) = change {
                if value.less(self.tolerance) {
                    self.settled = true;
                }
            }
        }
    }
}

/// However `w` changes, the iterations come to an end. They are one at least and never more than
/// the limit; they are as many as the limit unless the last one settled, which none does with a
/// tolerance that is not above zero.
pub proof fn lemma_iterations_end(progress: Progress, changes: spec_fn(int) -> Option<Float32>)
    requires
        progress.wf(),
    ensures
        ({
            let end = progress.ended(changes);
            &&& end.wf()
            &&& end.over()
            &&& end.max_iterations == progress.max_iterations
            &&& 1 <= end.done <= progress.max_iterations
            &&& !end.settled ==> end.done == progress.max_iterations
            &&& !progress.settled && !(Float32 { bits: 0 }).lt(progress.tolerance) ==> end.done
                == progress.max_iterations
            &&& end.tolerance == progress.tolerance
        }),
    decreases progress.max_iterations - progress.done,
{
    if !progress.over() {
        lemma_iterations_end(progress.after(changes(progress.done as int)), changes);
    }
}

/// How many iterations there are at most, one at least.
pub open spec fn iteration_limit(config: NMFConfig) -> int {
    if config.max_iterations < 1 {
        1
    } else {
        config.max_iterations as int
    }
}

/// Whether a change of `w` ends a fit.
pub open spec fn settles(tolerance: Float32, change: Option<Float32>) -> bool {
    &&& (Float32 { bits: 0 }).lt(tolerance)
    &&& change matches Some(value) && value.lt(tolerance)
}

impl NMF {
    pub fn new(config: NMFConfig) -> (r: NMF)
        ensures
            r.config == config,
            r.components@.len() == 0,
            r.coeff@.len() == 0,
            r.reconstruction_error == (Float32 { bits: 0 }),
            r.n_iter == 0,
            r.n == 0,
            r.d == 0,
            r.k == 0,
            r.pipelines.wf(),
            r.pipelines.entry(Kernel::NmfMm) == Some(None::<usize>),
            r.pipelines.entry(Kernel::NmfUpdate) == Some(None::<usize>),
            r.pipelines.entry(Kernel::NmfDiff) == Some(None::<usize>),
    {
        let kernels: Vec<Kernel> = vec![Kernel::NmfMm, Kernel::NmfUpdate, Kernel::NmfDiff];
        assert(kernels@[0] == Kernel::NmfMm);
        assert(kernels@[1] == Kernel::NmfUpdate);
        assert(kernels@[2] == Kernel::NmfDiff);
        NMF {
            config,
            components: Vec::new(),
            coeff: Vec::new(),
            reconstruction_error: Float32::zero(),
            n_iter: 0,
            n: 0,
            d: 0,
            k: 0,
            pipelines: PipelineCache::new(kernels),
        }
    }

    pub fn components(&self) -> (r: &[Float32])
        ensures
            r@ == self.components@,
    {
        self.components.as_slice()
    }

    pub fn coeff(&self) -> (r: &[Float32])
        ensures
            r@ == self.coeff@,
    {
        self.coeff.as_slice()
    }

    pub fn reconstruction_error(&self) -> (r: Float32)
        ensures
            r == self.reconstruction_error,
    {
        self.reconstruction_error
    }

    pub fn n_iter(&self) -> (r: usize)
        ensures
            r == self.n_iter,
    {
        self.n_iter
    }

    pub fn n_samples(&self) -> (r: usize)
        ensures
            r == self.n,
    {
        self.n
    }

    pub fn n_features(&self) -> (r: usize)
        ensures
            r == self.d,
    {
        self.d
    }

    /// Starts a fit on `n` rows of `d` columns. `w` and `h` hold random numbers at first.
    pub fn fit(&mut self, ctx: &mut MetalContext, data: &[Float32], n: usize, d: usize) -> (r: Result<
        FitPass,
        NMFError,
    >)
        requires
            4 * data@.len() <= usize::MAX,
        ensures
            match fit_refusal(data@, n, d) {
                Some(e) => r == Err::<FitPass, NMFError>(e) && *final(self) == *old(self)
                    && *final(ctx) == *old(ctx),
                None => r matches Ok(pass) && {
                    let k = rank(old(self).config.n_components, n, d) as usize;
                    &&& final(ctx)@ == old(ctx)@ + fit_sizes(n, d, k)
                    &&& pass.buffers == fit_buffers(old(ctx)@.len(), n, d, k)
                    &&& pass.seed == old(self).config.seed
                    &&& views(pass.launches@) == fit_launches(
                        pass.buffers,
                        old(self).config.eps,
                        n,
                        d,
                        k,
                    )
                    &&& *final(self) == (NMF { n, d, k, ..*old(self) })
                },
            },
    {
        let len: usize = data.len();
        if n == 0 || d == 0 {
            return Err(NMFError::Empty);
        }
        if !is_matrix(len, n, d) {
            return Err(NMFError::DataLength { n, d, got: len });
        }
        if !all_non_negative(data) {
            return Err(NMFError::Negative);
        }
        let most: usize = if n < d {
            n
        } else {
            d
        };
        let k: usize = if self.config.n_components < 1 {
            1
        } else if self.config.n_components > most {
            most
        } else {
            self.config.n_components
        };
        proof {
            lemma_matrix_bounds(len as int, n as int, d as int);
            lemma_factors_fit(n as int, d as int, k as int);
        }
        let eps: Float32 = self.config.eps;
        self.n = n;
        self.d = d;
        self.k = k;
        let ghost start = ctx@;
        let v: Buffer = ctx.new_buffer(len);
        let w: Buffer = ctx.new_buffer(n * k);
        let h: Buffer = ctx.new_buffer(k * d);
        let wtv: Buffer = ctx.new_buffer_uninitialized((k * d * 4) as u64);
        let wtw: Buffer = ctx.new_buffer_uninitialized((k * k * 4) as u64);
        let wtwh: Buffer = ctx.new_buffer_uninitialized((k * d * 4) as u64);
        let vht: Buffer = ctx.new_buffer_uninitialized((n * k * 4) as u64);
        let hht: Buffer = ctx.new_buffer_uninitialized((k * k * 4) as u64);
        let whht: Buffer = ctx.new_buffer_uninitialized((n * k * 4) as u64);
        assert(ctx@ =~= start + fit_sizes(n, d, k));
        let buffers = FitBuffers { v, w, h, wtv, wtw, wtwh, vht, hht, whht };
        let launches: Vec<Launch> = vec![
            dispatch_mm(w, v, wtv, k, d, n, true, false),
            dispatch_mm(w, w, wtw, k, k, n, true, false),
            dispatch_mm(wtw, h, wtwh, k, d, k, false, false),
            dispatch_update(h, wtv, wtwh, eps, k, d),
            dispatch_mm(v, h, vht, n, k, d, false, true),
            dispatch_mm(h, h, hht, k, k, d, false, true),
            dispatch_mm(w, hht, whht, n, k, k, false, false),
            dispatch_update(w, vht, whht, eps, n, k),
        ];
        assert(views(launches@) =~= fit_launches(buffers, eps, n, d, k));
        Ok(FitPass { buffers, seed: self.config.seed, launches })
    }

    /// The pass that compares the data of the fit that is running with the product of its
    /// factors.
    pub fn difference(&self, ctx: &mut MetalContext, buffers: &FitBuffers) -> (r: DifferencePass)
        requires
            4 * (self.n * self.d) <= usize::MAX,
            self.n + 15 <= usize::MAX,
            self.d + 15 <= usize::MAX,
        ensures
            final(ctx)@ == old(ctx)@.push((4 * (self.n * self.d)) as u64),
            r.err == buffer_at(old(ctx)@.len(), 0, 4 * (self.n * self.d)),
            r.launch@ == difference_launch(
                buffers.v,
                buffers.w,
                buffers.h,
                r.err,
                self.n,
                self.d,
                self.k,
            ),
            holds(old(ctx)@, buffers.v) && holds(old(ctx)@, buffers.w) && holds(
                old(ctx)@,
                buffers.h,
            ) ==> r.launch@.bound_in(final(ctx)@),
    {
        let n: usize = self.n;
        let d: usize = self.d;
        let k: usize = self.k;
        let err: Buffer = ctx.new_buffer_uninitialized((n * d * 4) as u64);
        let (groups, threads) = dispatch_2d(n, d);
        let launch = Launch {
            kernel: Kernel::NmfDiff,
            arguments: vec![
                Argument::Memory(buffers.v),
                Argument::Memory(buffers.w),
                Argument::Memory(buffers.h),
                Argument::Memory(err),
                Argument::Word(#[verifier::truncate] (n as u32)),
                Argument::Word(#[verifier::truncate] (d as u32)),
                Argument::Word(#[verifier::truncate] (k as u32)),
            ],
            threadgroup_bytes: 0,
            groups,
            threads,
        };
        assert(launch@ =~= difference_launch(buffers.v, buffers.w, buffers.h, err, n, d, k));
        DifferencePass { err, launch }
    }

    /// Ends a fit with the factors, the norm of the difference and the iterations that were
    /// made.
    pub fn finish(
        &mut self,
        coeff: Vec<Float32>,
        components: Vec<Float32>,
        reconstruction_error: Float32,
        progress: &Progress,
    )
        ensures
            *final(self) == (NMF {
                coeff,
                components,
                reconstruction_error,
                n_iter: progress.done,
                ..*old(self)
            }),
    {
        self.coeff = coeff;
        self.components = components;
        self.reconstruction_error = reconstruction_error;
        self.n_iter = progress.done;
    }

    /// The passes that find `w` for `n` other rows, with `h` as fitted. `w` holds random
    /// numbers at first.
    pub fn transform(&self, ctx: &mut MetalContext, data: &[Float32], n: usize, d: usize) -> (r:
        Result<TransformPass, NMFError>)
        requires
            4 * data@.len() <= usize::MAX,
            4 * self.components@.len() <= usize::MAX,
            transform_refusal(self.components@.len(), self.d, data@, n, d) is None ==> {
                &&& 1 <= self.k <= self.d
                &&& self.components@.len() == self.k * self.d
            },
        ensures
            match transform_refusal(self.components@.len(), self.d, data@, n, d) {
                Some(e) => r == Err::<TransformPass, NMFError>(e) && *final(ctx) == *old(ctx),
                None => r matches Ok(pass) && {
                    let k = self.k;
                    &&& final(ctx)@ == old(ctx)@ + transform_sizes(n, d, k)
                    &&& pass.buffers == transform_buffers(old(ctx)@.len(), n, d, k)
                    &&& pass.seed == self.config.seed ^ TRANSFORM_SEED
                    &&& pass.iterations == iteration_limit(self.config)
                    &&& views(pass.preparation@) == transform_preparation(pass.buffers, n, d, k)
                    &&& views(pass.launches@) == transform_launches(
                        pass.buffers,
                        self.config.eps,
                        n,
                        k,
                    )
                },
            },
    {
        let len: usize = data.len();
        if self.components.len() == 0 {
            return Err(NMFError::NotFitted);
        }
        if d != self.d {
            return Err(NMFError::Dimension { expected: self.d, got: d });
        }
        if !is_matrix(len, n, d) {
            return Err(NMFError::DataLength { n, d, got: len });
        }
        if !all_non_negative(data) {
            return Err(NMFError::Negative);
        }
        let k: usize = self.k;
        proof {
            lemma_factors_fit(n as int, d as int, k as int);
            assert(n <= n * d) by (nonlinear_arith)
                requires
                    1 <= d,
                    0 <= n,
            ;
            assert(d <= k * d) by (nonlinear_arith)
                requires
                    1 <= k,
                    0 <= d,
            ;
        }
        let eps: Float32 = self.config.eps;
        let ghost start = ctx@;
        let x: Buffer = ctx.new_buffer(len);
        let w: Buffer = ctx.new_buffer(n * k);
        let h: Buffer = ctx.new_buffer(self.components.len());
        let xht: Buffer = ctx.new_buffer_uninitialized((n * k * 4) as u64);
        let hht: Buffer = ctx.new_buffer_uninitialized((k * k * 4) as u64);
        let whht: Buffer = ctx.new_buffer_uninitialized((n * k * 4) as u64);
        assert(ctx@ =~= start + transform_sizes(n, d, k));
        let buffers = TransformBuffers { x, w, h, xht, hht, whht };
        let preparation: Vec<Launch> = vec![
            dispatch_mm(x, h, xht, n, k, d, false, true),
            dispatch_mm(h, h, hht, k, k, d, false, true),
        ];
        let launches: Vec<Launch> = vec![
            dispatch_mm(w, hht, whht, n, k, k, false, false),
            dispatch_update(w, xht, whht, eps, n, k),
        ];
        assert(views(preparation@) =~= transform_preparation(buffers, n, d, k));
        assert(views(launches@) =~= transform_launches(buffers, eps, n, k));
        let iterations: usize = if self.config.max_iterations < 1 {
            1
        } else {
            self.config.max_iterations
        };
        Ok(
            TransformPass {
                buffers,
                seed: self.config.seed ^ TRANSFORM_SEED,
                preparation,
                iterations,
                launches,
            },
        )
    }
}

/// Whether a launch's buffers are as large as its shapes say: a product over `k` of factors
/// that give `m` rows and `n` columns, or an update of `m` rows and `n` columns.
pub open spec fn shapes_fit(launch: LaunchView) -> bool {
    match launch.kernel {
        Kernel::NmfMm => exists|a: Buffer, b: Buffer, c: Buffer, m: usize, n: usize, k: usize, at: bool, bt: bool|
            #[trigger] product_launch(a, b, c, m, n, k, at, bt) == launch && a.byte_len == 4 * (m
                * k) && b.byte_len == 4 * (k * n) && c.byte_len == 4 * (m * n),
        Kernel::NmfUpdate => exists|x: Buffer, num: Buffer, den: Buffer, eps: Float32, m: usize, n: usize|
            #[trigger] update_launch(x, num, den, eps, m, n) == launch && x.byte_len == 4 * (m * n)
                && num.byte_len == 4 * (m * n) && den.byte_len == 4 * (m * n),
        _ => false,
    }
}

/// Every product and every update of an iteration finds operands of the sizes that it reads
/// and writes, whatever the number of components.
pub proof fn lemma_fit_shapes(start: nat, eps: Float32, n: usize, d: usize, k: usize)
    requires
        1 <= k <= n,
        k <= d,
        4 * (n * d) <= usize::MAX,
    ensures
        forall|i: int|
            0 <= i < 8 ==> shapes_fit(
                #[trigger] fit_launches(fit_buffers(start, n, d, k), eps, n, d, k)[i],
            ),
{
    lemma_factors_fit(n as int, d as int, k as int);
    lemma_products_commute(n as int, d as int, k as int);
    let b = fit_buffers(start, n, d, k);
    let l = fit_launches(b, eps, n, d, k);
    assert(product_launch(b.w, b.v, b.wtv, k, d, n, true, false) == l[0]);
    assert(product_launch(b.w, b.w, b.wtw, k, k, n, true, false) == l[1]);
    assert(product_launch(b.wtw, b.h, b.wtwh, k, d, k, false, false) == l[2]);
    assert(update_launch(b.h, b.wtv, b.wtwh, eps, k, d) == l[3]);
    assert(product_launch(b.v, b.h, b.vht, n, k, d, false, true) == l[4]);
    assert(product_launch(b.h, b.h, b.hht, k, k, d, false, true) == l[5]);
    assert(product_launch(b.w, b.hht, b.whht, n, k, k, false, false) == l[6]);
    assert(update_launch(b.w, b.vht, b.whht, eps, n, k) == l[7]);
}

/// The same holds of every launch of a transform.
pub proof fn lemma_transform_shapes(start: nat, eps: Float32, n: usize, d: usize, k: usize)
    requires
        1 <= k <= d,
        4 * (n * d) <= usize::MAX,
        4 * (k * d) <= usize::MAX,
    ensures
        forall|i: int|
            0 <= i < 2 ==> shapes_fit(
                #[trigger] transform_preparation(transform_buffers(start, n, d, k), n, d, k)[i],
            ),
        forall|i: int|
            0 <= i < 2 ==> shapes_fit(
                #[trigger] transform_launches(transform_buffers(start, n, d, k), eps, n, k)[i],
            ),
{
    lemma_factors_fit(n as int, d as int, k as int);
    lemma_products_commute(n as int, d as int, k as int);
    let b = transform_buffers(start, n, d, k);
    let p = transform_preparation(b, n, d, k);
    let l = transform_launches(b, eps, n, k);
    assert(product_launch(b.x, b.h, b.xht, n, k, d, false, true) == p[0]);
    assert(product_launch(b.h, b.h, b.hht, k, k, d, false, true) == p[1]);
    assert(product_launch(b.w, b.hht, b.whht, n, k, k, false, false) == l[0]);
    assert(update_launch(b.w, b.xht, b.whht, eps, n, k) == l[1]);
}

proof fn lemma_products_commute(n: int, d: int, k: int)
    ensures
        k * n == n * k,
        d * k == k * d,
        d * n == n * d,
{
    assert(k * n == n * k) by (nonlinear_arith);
    assert(d * k == k * d) by (nonlinear_arith);
    assert(d * n == n * d) by (nonlinear_arith);
}

/// Every element of a product or of an update has a thread of its own.
pub proof fn lemma_threads_cover(m: usize, n: usize)
    ensures
        forall|a: Buffer, b: Buffer, c: Buffer, k: usize, at: bool, bt: bool|
            (#[trigger] product_launch(a, b, c, m, n, k, at, bt)).threads_down() >= m
                && product_launch(a, b, c, m, n, k, at, bt).threads_across() >= n,
        forall|x: Buffer, num: Buffer, den: Buffer, eps: Float32|
            (#[trigger] update_launch(x, num, den, eps, m, n)).threads_down() >= m
                && update_launch(x, num, den, eps, m, n).threads_across() >= n,
{
    lemma_groups_cover(m as int, 16);
    lemma_groups_cover(n as int, 16);
}

/// There is one component at least, and never more than the data has rows or columns; as many
/// as wanted where the data has that many of both.
pub proof fn lemma_rank_bounds(wanted: usize, n: usize, d: usize)
    requires
        n >= 1,
        d >= 1,
    ensures
        1 <= rank(wanted, n, d) <= n,
        rank(wanted, n, d) <= d,
        1 <= wanted <= n && wanted <= d ==> rank(wanted, n, d) == wanted,
{
}

/// A transform never draws from the seed of its fit.
pub proof fn lemma_transform_seed_differs(seed: u64)
    ensures
        seed ^ TRANSFORM_SEED != seed,
{
    assert(seed ^ 0x9e37_79b9u64 != seed) by (bit_vector);
}

/// An iteration multiplies the components by `transpose(W) V` over `transpose(W) W H`, and then
/// the coefficients by `V transpose(H)` over `W H transpose(H)`. Every entry has a thread.
pub proof fn lemma_iteration_updates_both_factors(
    b: FitBuffers,
    eps: Float32,
    n: usize,
    d: usize,
    k: usize,
)
    ensures
        fit_launches(b, eps, n, d, k).len() == 8,
        ({
            let l = fit_launches(b, eps, n, d, k)[0];
            &&& l.kernel == Kernel::NmfMm
            &&& l.arguments.len() == 8
            &&& l.arguments[0] == Argument::Memory(b.w)
            &&& l.arguments[1] == Argument::Memory(b.v)
            &&& l.arguments[2] == Argument::Memory(b.wtv)
            &&& l.arguments[3] == Argument::Word(k as u32)
            &&& l.arguments[4] == Argument::Word(d as u32)
            &&& l.arguments[5] == Argument::Word(n as u32)
            &&& l.arguments[6] == Argument::Word(1)
            &&& l.arguments[7] == Argument::Word(0)
            &&& l.threadgroup_bytes == 0
            &&& l.groups.width * l.threads.width >= d
            &&& l.groups.height * l.threads.height >= k
            &&& l.threads.width == 16 && l.threads.height == 16
        }),
        ({
            let l = fit_launches(b, eps, n, d, k)[1];
            &&& l.kernel == Kernel::NmfMm
            &&& l.arguments.len() == 8
            &&& l.arguments[0] == Argument::Memory(b.w)
            &&& l.arguments[1] == Argument::Memory(b.w)
            &&& l.arguments[2] == Argument::Memory(b.wtw)
            &&& l.arguments[3] == Argument::Word(k as u32)
            &&& l.arguments[4] == Argument::Word(k as u32)
            &&& l.arguments[5] == Argument::Word(n as u32)
            &&& l.arguments[6] == Argument::Word(1)
            &&& l.arguments[7] == Argument::Word(0)
            &&& l.threadgroup_bytes == 0
            &&& l.groups.width * l.threads.width >= k
            &&& l.groups.height * l.threads.height >= k
            &&& l.threads.width == 16 && l.threads.height == 16
        }),
        ({
            let l = fit_launches(b, eps, n, d, k)[2];
            &&& l.kernel == Kernel::NmfMm
            &&& l.arguments.len() == 8
            &&& l.arguments[0] == Argument::Memory(b.wtw)
            &&& l.arguments[1] == Argument::Memory(b.h)
            &&& l.arguments[2] == Argument::Memory(b.wtwh)
            &&& l.arguments[3] == Argument::Word(k as u32)
            &&& l.arguments[4] == Argument::Word(d as u32)
            &&& l.arguments[5] == Argument::Word(k as u32)
            &&& l.arguments[6] == Argument::Word(0)
            &&& l.arguments[7] == Argument::Word(0)
            &&& l.threadgroup_bytes == 0
            &&& l.groups.width * l.threads.width >= d
            &&& l.groups.height * l.threads.height >= k
            &&& l.threads.width == 16 && l.threads.height == 16
        }),
        ({
            let l = fit_launches(b, eps, n, d, k)[3];
            &&& l.kernel == Kernel::NmfUpdate
            &&& l.arguments.len() == 6
            &&& l.arguments[0] == Argument::Memory(b.h)
            &&& l.arguments[1] == Argument::Memory(b.wtv)
            &&& l.arguments[2] == Argument::Memory(b.wtwh)
            &&& l.arguments[3] == Argument::Real(eps)
            &&& l.arguments[4] == Argument::Word(k as u32)
            &&& l.arguments[5] == Argument::Word(d as u32)
            &&& l.threadgroup_bytes == 0
            &&& l.groups.width * l.threads.width >= d
            &&& l.groups.height * l.threads.height >= k
            &&& l.threads.width == 16 && l.threads.height == 16
        }),
        ({
            let l = fit_launches(b, eps, n, d, k)[4];
            &&& l.kernel == Kernel::NmfMm
            &&& l.arguments.len() == 8
            &&& l.arguments[0] == Argument::Memory(b.v)
            &&& l.arguments[1] == Argument::Memory(b.h)
            &&& l.arguments[2] == Argument::Memory(b.vht)
            &&& l.arguments[3] == Argument::Word(n as u32)
            &&& l.arguments[4] == Argument::Word(k as u32)
            &&& l.arguments[5] == Argument::Word(d as u32)
            &&& l.arguments[6] == Argument::Word(0)
            &&& l.arguments[7] == Argument::Word(1)
            &&& l.threadgroup_bytes == 0
            &&& l.groups.width * l.threads.width >= k
            &&& l.groups.height * l.threads.height >= n
            &&& l.threads.width == 16 && l.threads.height == 16
        }),
        ({
            let l = fit_launches(b, eps, n, d, k)[5];
            &&& l.kernel == Kernel::NmfMm
            &&& l.arguments.len() == 8
            &&& l.arguments[0] == Argument::Memory(b.h)
            &&& l.arguments[1] == Argument::Memory(b.h)
            &&& l.arguments[2] == Argument::Memory(b.hht)
            &&& l.arguments[3] == Argument::Word(k as u32)
            &&& l.arguments[4] == Argument::Word(k as u32)
            &&& l.arguments[5] == Argument::Word(d as u32)
            &&& l.arguments[6] == Argument::Word(0)
            &&& l.arguments[7] == Argument::Word(1)
            &&& l.threadgroup_bytes == 0
            &&& l.groups.width * l.threads.width >= k
            &&& l.groups.height * l.threads.height >= k
            &&& l.threads.width == 16 && l.threads.height == 16
        }),
        ({
            let l = fit_launches(b, eps, n, d, k)[6];
            &&& l.kernel == Kernel::NmfMm
            &&& l.arguments.len() == 8
            &&& l.arguments[0] == Argument::Memory(b.w)
            &&& l.arguments[1] == Argument::Memory(b.hht)
            &&& l.arguments[2] == Argument::Memory(b.whht)
            &&& l.arguments[3] == Argument::Word(n as u32)
            &&& l.arguments[4] == Argument::Word(k as u32)
            &&& l.arguments[5] == Argument::Word(k as u32)
            &&& l.arguments[6] == Argument::Word(0)
            &&& l.arguments[7] == Argument::Word(0)
            &&& l.threadgroup_bytes == 0
            &&& l.groups.width * l.threads.width >= k
            &&& l.groups.height * l.threads.height >= n
            &&& l.threads.width == 16 && l.threads.height == 16
        }),
        ({
            let l = fit_launches(b, eps, n, d, k)[7];
            &&& l.kernel == Kernel::NmfUpdate
            &&& l.arguments.len() == 6
            &&& l.arguments[0] == Argument::Memory(b.w)
            &&& l.arguments[1] == Argument::Memory(b.vht)
            &&& l.arguments[2] == Argument::Memory(b.whht)
            &&& l.arguments[3] == Argument::Real(eps)
            &&& l.arguments[4] == Argument::Word(n as u32)
            &&& l.arguments[5] == Argument::Word(k as u32)
            &&& l.threadgroup_bytes == 0
            &&& l.groups.width * l.threads.width >= k
            &&& l.groups.height * l.threads.height >= n
            &&& l.threads.width == 16 && l.threads.height == 16
        }),
{
    lemma_tiles_cover(d as int, k as int);
    lemma_tiles_cover(k as int, k as int);
    lemma_tiles_cover(k as int, n as int);
}

/// A projection multiplies the coefficients alone, by `X transpose(H)` over `W H transpose(H)`;
/// what does not change with them is taken once, before.
pub proof fn lemma_transform_updates_coefficients(
    b: TransformBuffers,
    eps: Float32,
    n: usize,
    d: usize,
    k: usize,
)
    ensures
        transform_preparation(b, n, d, k).len() == 2,
        transform_launches(b, eps, n, k).len() == 2,
        ({
            let l = transform_preparation(b, n, d, k)[0];
            &&& l.kernel == Kernel::NmfMm
            &&& l.arguments.len() == 8
            &&& l.arguments[0] == Argument::Memory(b.x)
            &&& l.arguments[1] == Argument::Memory(b.h)
            &&& l.arguments[2] == Argument::Memory(b.xht)
            &&& l.arguments[3] == Argument::Word(n as u32)
            &&& l.arguments[4] == Argument::Word(k as u32)
            &&& l.arguments[5] == Argument::Word(d as u32)
            &&& l.arguments[6] == Argument::Word(0)
            &&& l.arguments[7] == Argument::Word(1)
            &&& l.threadgroup_bytes == 0
            &&& l.groups.width * l.threads.width >= k
            &&& l.groups.height * l.threads.height >= n
            &&& l.threads.width == 16 && l.threads.height == 16
        }),
        ({
            let l = transform_preparation(b, n, d, k)[1];
            &&& l.kernel == Kernel::NmfMm
            &&& l.arguments.len() == 8
            &&& l.arguments[0] == Argument::Memory(b.h)
            &&& l.arguments[1] == Argument::Memory(b.h)
            &&& l.arguments[2] == Argument::Memory(b.hht)
            &&& l.arguments[3] == Argument::Word(k as u32)
            &&& l.arguments[4] == Argument::Word(k as u32)
            &&& l.arguments[5] == Argument::Word(d as u32)
            &&& l.arguments[6] == Argument::Word(0)
            &&& l.arguments[7] == Argument::Word(1)
            &&& l.threadgroup_bytes == 0
            &&& l.groups.width * l.threads.width >= k
            &&& l.groups.height * l.threads.height >= k
            &&& l.threads.width == 16 && l.threads.height == 16
        }),
        ({
            let l = transform_launches(b, eps, n, k)[0];
            &&& l.kernel == Kernel::NmfMm
            &&& l.arguments.len() == 8
            &&& l.arguments[0] == Argument::Memory(b.w)
            &&& l.arguments[1] == Argument::Memory(b.hht)
            &&& l.arguments[2] == Argument::Memory(b.whht)
            &&& l.arguments[3] == Argument::Word(n as u32)
            &&& l.arguments[4] == Argument::Word(k as u32)
            &&& l.arguments[5] == Argument::Word(k as u32)
            &&& l.arguments[6] == Argument::Word(0)
            &&& l.arguments[7] == Argument::Word(0)
            &&& l.threadgroup_bytes == 0
            &&& l.groups.width * l.threads.width >= k
            &&& l.groups.height * l.threads.height >= n
            &&& l.threads.width == 16 && l.threads.height == 16
        }),
        ({
            let l = transform_launches(b, eps, n, k)[1];
            &&& l.kernel == Kernel::NmfUpdate
            &&& l.arguments.len() == 6
            &&& l.arguments[0] == Argument::Memory(b.w)
            &&& l.arguments[1] == Argument::Memory(b.xht)
            &&& l.arguments[2] == Argument::Memory(b.whht)
            &&& l.arguments[3] == Argument::Real(eps)
            &&& l.arguments[4] == Argument::Word(n as u32)
            &&& l.arguments[5] == Argument::Word(k as u32)
            &&& l.threadgroup_bytes == 0
            &&& l.groups.width * l.threads.width >= k
            &&& l.groups.height * l.threads.height >= n
            &&& l.threads.width == 16 && l.threads.height == 16
        }),
{
    lemma_tiles_cover(k as int, k as int);
    lemma_tiles_cover(k as int, n as int);
}

/// The difference binds the data and both factors and has a thread for every entry.
pub proof fn lemma_difference_reaches_every_entry(
    v: Buffer,
    w: Buffer,
    h: Buffer,
    err: Buffer,
    n: usize,
    d: usize,
    k: usize,
)
    ensures
        ({
            let l = difference_launch(v, w, h, err, n, d, k);
            &&& l.kernel == Kernel::NmfDiff
            &&& l.arguments.len() == 7
            &&& l.arguments[0] == Argument::Memory(v)
            &&& l.arguments[1] == Argument::Memory(w)
            &&& l.arguments[2] == Argument::Memory(h)
            &&& l.arguments[3] == Argument::Memory(err)
            &&& l.arguments[4] == Argument::Word(n as u32)
            &&& l.arguments[5] == Argument::Word(d as u32)
            &&& l.arguments[6] == Argument::Word(k as u32)
            &&& l.threadgroup_bytes == 0
            &&& l.groups.width * l.threads.width >= d
            &&& l.groups.height * l.threads.height >= n
            &&& l.threads.width == 16 && l.threads.height == 16
        }),
{
    lemma_tiles_cover(d as int, n as int);
}

/// The buffers of a fit and of a projection, one after the other, each of the size of what it
/// holds.
pub proof fn lemma_buffers(start: nat, n: usize, d: usize, k: usize)
    requires
        start + 9 <= usize::MAX,
        4 * (n * d) <= usize::MAX,
        4 * (n * k) <= usize::MAX,
        4 * (k * d) <= usize::MAX,
        4 * (k * k) <= usize::MAX,
    ensures
        ({
            let b = fit_buffers(start, n, d, k);
            &&& b.v.id == start && b.v.byte_len == 4 * (n * d)
            &&& b.w.id == start + 1 && b.w.byte_len == 4 * (n * k)
            &&& b.h.id == start + 2 && b.h.byte_len == 4 * (k * d)
            &&& b.wtv.id == start + 3 && b.wtv.byte_len == 4 * (k * d)
            &&& b.wtw.id == start + 4 && b.wtw.byte_len == 4 * (k * k)
            &&& b.wtwh.id == start + 5 && b.wtwh.byte_len == 4 * (k * d)
            &&& b.vht.id == start + 6 && b.vht.byte_len == 4 * (n * k)
            &&& b.hht.id == start + 7 && b.hht.byte_len == 4 * (k * k)
            &&& b.whht.id == start + 8 && b.whht.byte_len == 4 * (n * k)
        }),
        ({
            let b = transform_buffers(start, n, d, k);
            &&& b.x.id == start && b.x.byte_len == 4 * (n * d)
            &&& b.w.id == start + 1 && b.w.byte_len == 4 * (n * k)
            &&& b.h.id == start + 2 && b.h.byte_len == 4 * (k * d)
            &&& b.xht.id == start + 3 && b.xht.byte_len == 4 * (n * k)
            &&& b.hht.id == start + 4 && b.hht.byte_len == 4 * (k * k)
            &&& b.whht.id == start + 5 && b.whht.byte_len == 4 * (n * k)
        }),
        fit_sizes(n, d, k).len() == 9,
        transform_sizes(n, d, k).len() == 6,
{
    assert(0 <= n * d && 0 <= n * k && 0 <= k * d && 0 <= k * k) by (nonlinear_arith)
        requires
            0 <= n,
            0 <= d,
            0 <= k,
    ;
}

/// The rank is the wanted one where the data has it, the largest it has where more are wanted,
/// and one where none is.
pub proof fn lemma_rank(wanted: usize, n: usize, d: usize)
    requires
        n >= 1,
        d >= 1,
    ensures
        wanted == 0 ==> rank(wanted, n, d) == 1,
        1 <= wanted <= n && wanted <= d ==> rank(wanted, n, d) == wanted,
        wanted > n && n <= d ==> rank(wanted, n, d) == n,
        wanted > d && d <= n ==> rank(wanted, n, d) == d,
{
}

/// An iteration counts one. It settles the factors exactly when the change was measured and is
/// below a tolerance that is above zero.
pub proof fn lemma_iteration_counts(
    progress: Progress,
    config: NMFConfig,
    change: Option<Float32>,
    value: Float32,
)
    requires
        progress.wf(),
        !progress.over(),
    ensures
        progress.after(change).done == progress.done + 1,
        progress.after(change).max_iterations == progress.max_iterations,
        progress.after(change).tolerance == progress.tolerance,
        !progress.after(None).settled,
        progress.after(Some(value)).settled <==> (Float32 { bits: 0 }).lt(progress.tolerance)
            && value.lt(progress.tolerance),
        progress.done < progress.max_iterations,
        iteration_limit(config) >= 1,
        iteration_limit(config) >= config.max_iterations,
        iteration_limit(config) == 1 || iteration_limit(config) == config.max_iterations,
{
}

/// Data is taken up exactly when no value is below zero and none is NaN.
pub proof fn lemma_non_negative(values: Seq<Float32>, i: int)
    ensures
        non_negative(values) && 0 <= i < values.len() ==> !values[i].nan() && !values[i].lt(
            Float32 { bits: 0 },
        ),
        (forall|j: int|
            0 <= j < values.len() ==> !(#[trigger] values[j]).nan() && !values[j].lt(
                Float32 { bits: 0 },
            )) ==> non_negative(values),
{
}

/// The seed of a projection differs from that of the fit by a fixed word.
pub proof fn lemma_transform_seed(seed: u64)
    ensures
        seed ^ TRANSFORM_SEED == seed ^ 2654435769u64,
{
    assert(TRANSFORM_SEED == 2654435769u64);
}

/// When a fit and a projection are taken, and why not.
pub proof fn lemma_refusals(
    data: Seq<Float32>,
    n: usize,
    d: usize,
    fitted_d: usize,
    components: nat,
)
    ensures
        ({
            let r = fit_refusal(data, n, d);
            &&& r is None <==> (n > 0 && d > 0) && (data.len() == n * d) && (non_negative(data))
            &&& !(n > 0 && d > 0) ==> r == Some(NMFError::Empty)
            &&& (n > 0 && d > 0) && !(data.len() == n * d) ==> r == Some(NMFError::DataLength { n, d, got: data.len() as usize })
            &&& (n > 0 && d > 0) && (data.len() == n * d) && !(non_negative(data)) ==> r == Some(NMFError::Negative)
        }),
        ({
            let r = transform_refusal(components, fitted_d, data, n, d);
            &&& r is None <==> (components > 0) && (d == fitted_d) && (data.len() == n * d) && (non_negative(data))
            &&& !(components > 0) ==> r == Some(NMFError::NotFitted)
            &&& (components > 0) && !(d == fitted_d) ==> r == Some(NMFError::Dimension { expected: fitted_d, got: d })
            &&& (components > 0) && (d == fitted_d) && !(data.len() == n * d) ==> r == Some(NMFError::DataLength { n, d, got: data.len() as usize })
            &&& (components > 0) && (d == fitted_d) && (data.len() == n * d) && !(non_negative(data)) ==> r == Some(NMFError::Negative)
        }),
{
}

} // verus!
