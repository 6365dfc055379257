//! The normal equations that linear regression and the lasso share.
//!
//! The device streams the data once and gives `XᵀX`, `Xᵀy`, the column sums, the number of
//! rows and the sum of the targets. From these the host builds the augmented system.

use vstd::prelude::*;
use crate::float::{Float32, ONE};
use crate::metal::{group_count, Argument, Buffer, Kernel, Launch, MTLSize, MetalContext};
use crate::pipeline::PipelineCache;
use crate::shape::is_matrix;
#[allow(unused_imports)]
use crate::metal::{buffer_at, groups_of, lemma_buffers_held, lemma_groups_cover, lemma_line_covers, line, LaunchView, THREADGROUP_MEMORY};
#[allow(unused_imports)]
use crate::shape::{lemma_matrix_bounds, lemma_matrix_index, lemma_matrix_position};
#[allow(unused_imports)]
use crate::float::lemma_approximates;
#[allow(unused_imports)]
use vstd::arithmetic::div_mod::lemma_fundamental_div_mod;
#[allow(unused_imports)]
use vstd::arithmetic::power2::{lemma2_to64, lemma2_to64_rest, lemma_pow2_adds, pow2};

verus! {

/// Cap on the memory for what the groups of a pass hand to the reduction, in bytes.
pub const PARTIALS_CAP_BYTES: usize = 33554432;

/// The most features for which the `Xᵀy` elements fit 32 register slots of 256 threads.
pub const FEATURE_LIMIT: usize = 4095;

/// The bits of the difference between 1.0 and the next larger number.
pub const EPSILON: u32 = 0x3400_0000;

/// Why a fit, a prediction or a score was refused.
#[derive(Clone, Copy, Debug, PartialEq, Eq, Structural)]
pub enum RegressionError {
    Empty,
    DataLength { n: usize, d: usize, got: usize },
    TargetLength { expected: usize, got: usize },
    Alpha(Float32),
    TooManyFeatures(usize),
    Dimension { expected: usize, got: usize },
    NotFitted,
    /// A pivot of the system is too small to divide by.
    Singular(Float32),
    /// A system of equations whose parts do not have the sizes that belong together.
    SystemShape,
}

/// Why a fit is refused, if it is.
pub open spec fn fit_refusal(alpha: Float32, len: usize, targets: nat, n: usize, d: usize) -> Option<
    RegressionError,
> {
    if n == 0 || d == 0 {
        Some(RegressionError::Empty)
    } else if len != n * d {
        Some(RegressionError::DataLength { n, d, got: len })
    } else if targets != n {
        Some(RegressionError::TargetLength { expected: n, got: targets as usize })
    } else if !((Float32 { bits: 0 }).le(alpha) && alpha.finite()) {
        Some(RegressionError::Alpha(alpha))
    } else if 2 * d + 2 > 32 * 256 {
        Some(RegressionError::TooManyFeatures(d))
    } else {
        None
    }
}

/// Why a prediction is refused, if it is.
pub open spec fn predict_refusal(
    fitted_d: usize,
    weights: nat,
    len: usize,
    n: usize,
    d: usize,
) -> Option<RegressionError> {
    if d != fitted_d {
        Some(RegressionError::Dimension { expected: fitted_d, got: d })
    } else if weights == 0 {
        Some(RegressionError::NotFitted)
    } else if len != n * d {
        Some(RegressionError::DataLength { n, d, got: len })
    } else {
        None
    }
}

/// Whether `XᵀX` is built from tiles of rows in threadgroup memory.
pub open spec fn tiled(d: usize) -> bool {
    d <= 128
}

/// The kernel that builds `XᵀX` for `d` features.
pub open spec fn gram_kernel(d: usize) -> Kernel {
    if tiled(d) {
        Kernel::LinregGramXtxTiled
    } else {
        Kernel::LinregGramXtxNaive
    }
}

/// The kernel that builds `XᵀX` for `d` features.
pub fn pick_gram_kernel_name(d: usize) -> (r: Kernel)
    ensures
        r == gram_kernel(d),
{
    if d <= 128 {
        Kernel::LinregGramXtxTiled
    } else {
        Kernel::LinregGramXtxNaive
    }
}

pub open spec fn at_least(a: int, b: int) -> int {
    if a > b {
        a
    } else {
        b
    }
}

pub open spec fn at_most(a: int, b: int) -> int {
    if a < b {
        a
    } else {
        b
    }
}

/// How many rows a tile holds.
pub open spec fn tile_rows(d: usize) -> int {
    if tiled(d) {
        at_most(at_least(7680int / (d as int), 16), 256)
    } else {
        256
    }
}

/// How many groups build `XᵀX` in parts; none where it is written directly.
pub open spec fn xtx_groups(n: usize, d: usize) -> int {
    if tiled(d) {
        at_most(groups_of(n as int, tile_rows(d)), at_least(PARTIALS_CAP_BYTES as int / (d * d * 4), 1))
    } else {
        0
    }
}

/// How many groups build `Xᵀy` and the sums in parts.
pub open spec fn xty_groups(n: usize, d: usize) -> int {
    at_most(
        groups_of(n as int, 256),
        at_least(PARTIALS_CAP_BYTES as int / ((2 * d + 2) * 4), 1),
    )
}

/// How the passes over the data are cut up.
#[derive(Clone, Copy, Debug, PartialEq, Eq, Structural)]
pub struct Geometry {
    pub tile_rows: usize,
    pub xtx_groups: usize,
    pub xty_groups: usize,
}

/// The tiles fit 30 KB of threadgroup memory, and what the groups hand to the reduction
/// stays within the cap, however many rows there are.
pub proof fn lemma_geometry_bounded(n: usize, d: usize)
    requires
        0 < n,
        0 < d <= FEATURE_LIMIT,
    ensures
        16 <= tile_rows(d) <= 256,
        tiled(d) ==> 4 * (tile_rows(d) * d) <= 30720 <= THREADGROUP_MEMORY,
        0 <= 4 * (xtx_groups(n, d) * (d * d)) <= PARTIALS_CAP_BYTES,
        tiled(d) ==> 1 <= xtx_groups(n, d) <= n,
        !tiled(d) ==> xtx_groups(n, d) == 0,
        0 <= 4 * (xty_groups(n, d) * (2 * d + 2)) <= PARTIALS_CAP_BYTES,
        1 <= xty_groups(n, d) <= n,
        d * d <= 16769025,
{
    assert(d * d <= 4095 * 4095) by (nonlinear_arith)
        requires
            0 < d <= 4095,
    ;
    assert(d * d >= d) by (nonlinear_arith)
        requires
            d > 0,
    ;
    lemma_groups_cover(n as int, 256);
    let width = (2 * d + 2) * 4;
    let cap = at_least(PARTIALS_CAP_BYTES as int / width, 1);
    assert(width <= PARTIALS_CAP_BYTES);
    lemma_quotient_fits(PARTIALS_CAP_BYTES as int, width, xty_groups(n, d));
    assert(4 * (xty_groups(n, d) * (2 * d + 2)) == xty_groups(n, d) * width) by (nonlinear_arith)
        requires
            width == (2 * d + 2) * 4,
    ;
    if tiled(d) {
        let rows = tile_rows(d);
        let whole = 7680int / (d as int);
        assert(whole * d <= 7680 && whole >= 60) by (nonlinear_arith)
            requires
                whole == 7680int / (d as int),
                0 < d <= 128,
        ;
        assert(rows * d <= whole * d) by (nonlinear_arith)
            requires
                rows <= whole,
                d > 0,
        ;
        lemma_groups_cover(n as int, rows);
        let square = d * d * 4;
        assert(d * d * 4 == 4 * (d * d));
        assert(d * d <= 128 * 128) by (nonlinear_arith)
            requires
                0 < d <= 128,
        ;
        lemma_quotient_fits(PARTIALS_CAP_BYTES as int, square, xtx_groups(n, d));
        assert(4 * (xtx_groups(n, d) * (d * d)) == xtx_groups(n, d) * square) by (nonlinear_arith)
            requires
                square == d * d * 4,
        ;
    }
}

proof fn lemma_quotient_fits(cap: int, width: int, count: int)
    requires
        0 < width <= cap,
        0 <= count <= at_least(cap / width, 1),
    ensures
        0 <= count * width <= cap,
{
    assert(cap / width >= 1 && (cap / width) * width <= cap) by (nonlinear_arith)
        requires
            0 < width <= cap,
    ;
    assert(0 <= count * width <= (cap / width) * width) by (nonlinear_arith)
        requires
            0 <= count <= cap / width,
            0 < width,
    ;
}

/// How the passes over `n` rows of `d` features are cut up.
pub fn geometry(n: usize, d: usize) -> (r: Geometry)
    requires
        0 < n <= usize::MAX - 255,
        0 < d <= FEATURE_LIMIT,
    ensures
        r.tile_rows == tile_rows(d),
        r.xtx_groups == xtx_groups(n, d),
        r.xty_groups == xty_groups(n, d),
{
    proof {
        lemma_geometry_bounded(n, d);
        assert(d * d * 4 == 4 * (d * d));
        assert(d * d >= d) by (nonlinear_arith)
            requires
                d > 0,
        ;
        lemma_groups_cover(n as int, tile_rows(d));
        lemma_groups_cover(n as int, 256);
    }
    let rows: usize = if d <= 128 {
        let whole: usize = 7680 / d;
        let floor: usize = if whole > 16 {
            whole
        } else {
            16
        };
        if floor < 256 {
            floor
        } else {
            256
        }
    } else {
        256
    };
    let xtx: usize = if d <= 128 {
        let chunks: usize = (n + (rows - 1)) / rows;
        let whole: usize = PARTIALS_CAP_BYTES / (d * d * 4);
        let cap: usize = if whole > 1 {
            whole
        } else {
            1
        };
        if chunks < cap {
            chunks
        } else {
            cap
        }
    } else {
        0
    };
    let chunks: usize = (n + 255) / 256;
    let whole: usize = PARTIALS_CAP_BYTES / ((2 * d + 2) * 4);
    let cap: usize = if whole > 1 {
        whole
    } else {
        1
    };
    let xty: usize = if chunks < cap {
        chunks
    } else {
        cap
    };
    Geometry { tile_rows: rows, xtx_groups: xtx, xty_groups: xty }
}

/// The buffers of the passes that build the normal equations.
#[derive(Clone, Copy, Debug, PartialEq, Eq, Structural)]
pub struct GramBuffers {
    pub x: Buffer,
    pub y: Buffer,
    pub xtx: Buffer,
    pub xtx_partials: Buffer,
    pub xty_partials: Buffer,
    pub xty: Buffer,
    pub column_sums: Buffer,
    pub stats: Buffer,
}

/// The sizes in bytes of these buffers, in the order in which they are made.
pub open spec fn gram_sizes(n: usize, d: usize) -> Seq<u64> {
    seq![
        (4 * (n * d)) as u64,
        (4 * n) as u64,
        (4 * (d * d)) as u64,
        (4 * at_least(xtx_groups(n, d) * (d * d), 1)) as u64,
        (4 * at_least(xty_groups(n, d) * (2 * d + 2), 1)) as u64,
        (4 * d) as u64,
        (4 * d) as u64,
        8,
    ]
}

/// These buffers, where the first one comes after `start` others.
pub open spec fn gram_buffers(start: nat, n: usize, d: usize) -> GramBuffers {
    let sizes = gram_sizes(n, d);
    GramBuffers {
        x: buffer_at(start, 0, sizes[0] as int),
        y: buffer_at(start, 1, sizes[1] as int),
        xtx: buffer_at(start, 2, sizes[2] as int),
        xtx_partials: buffer_at(start, 3, sizes[3] as int),
        xty_partials: buffer_at(start, 4, sizes[4] as int),
        xty: buffer_at(start, 5, sizes[5] as int),
        column_sums: buffer_at(start, 6, sizes[6] as int),
        stats: buffer_at(start, 7, sizes[7] as int),
    }
}

/// The launch that builds `XᵀX`.
pub open spec fn xtx_launch(b: GramBuffers, n: usize, d: usize) -> LaunchView {
    if tiled(d) {
        LaunchView {
            kernel: gram_kernel(d),
            arguments: seq![
                Argument::Memory(b.x),
                Argument::Memory(b.xtx_partials),
                Argument::Word(n as u32),
                Argument::Word(d as u32),
                Argument::Word(tile_rows(d) as u32),
                Argument::Word(xtx_groups(n, d) as u32),
            ],
            threadgroup_bytes: (4 * (tile_rows(d) * d)) as u64,
            groups: line(xtx_groups(n, d)),
            threads: line(256),
        }
    } else {
        LaunchView {
            kernel: gram_kernel(d),
            arguments: seq![
                Argument::Memory(b.x),
                Argument::Memory(b.xtx),
                Argument::Word(n as u32),
                Argument::Word(d as u32),
            ],
            threadgroup_bytes: 0,
            groups: line((d * d) / 256 + 1),
            threads: line(256),
        }
    }
}

/// The launch that builds `Xᵀy` and the sums.
pub open spec fn xty_launch(b: GramBuffers, n: usize, d: usize) -> LaunchView {
    LaunchView {
        kernel: Kernel::LinregGramXty,
        arguments: seq![
            Argument::Memory(b.x),
            Argument::Memory(b.y),
            Argument::Memory(b.xty_partials),
            Argument::Word(n as u32),
            Argument::Word(d as u32),
            Argument::Word(xty_groups(n, d) as u32),
        ],
        threadgroup_bytes: 0,
        groups: line(xty_groups(n, d)),
        threads: line(256),
    }
}

/// The launch that adds up, in a fixed order, what the groups found.
pub open spec fn reduce_launch(b: GramBuffers, n: usize, d: usize) -> LaunchView {
    LaunchView {
        kernel: Kernel::LinregReduceGram,
        arguments: seq![
            Argument::Memory(b.xtx_partials),
            Argument::Memory(b.xty_partials),
            Argument::Memory(b.xtx),
            Argument::Memory(b.xty),
            Argument::Memory(b.column_sums),
            Argument::Memory(b.stats),
            Argument::Word(xtx_groups(n, d) as u32),
            Argument::Word(xty_groups(n, d) as u32),
            Argument::Word(d as u32),
        ],
        threadgroup_bytes: 0,
        groups: line(1),
        threads: line(256),
    }
}

/// The launch that computes `Xw + b` for `n` rows.
pub open spec fn rows_launch(
    x: Buffer,
    w: Buffer,
    out: Buffer,
    n: usize,
    d: usize,
    bias: Float32,
) -> LaunchView {
    LaunchView {
        kernel: Kernel::LinregPredict,
        arguments: seq![
            Argument::Memory(x),
            Argument::Memory(w),
            Argument::Memory(out),
            Argument::Word(n as u32),
            Argument::Word(d as u32),
            Argument::Real(bias),
        ],
        threadgroup_bytes: 0,
        groups: line(groups_of(n as int, 256)),
        threads: line(256),
    }
}

/// The passes that build the normal equations.
pub struct GramPass {
    pub buffers: GramBuffers,
    pub xtx: Launch,
    pub xty: Launch,
    pub reduce: Launch,
}

/// The buffers and the launch of a prediction.
pub struct PredictPass {
    pub x: Buffer,
    pub w: Buffer,
    pub out: Buffer,
    pub launch: Launch,
}

/// The pipelines that linear models use.
pub fn pipelines() -> (r: PipelineCache)
    ensures
        r.wf(),
        r.entry(Kernel::LinregGramXtxTiled) == Some(None::<usize>),
        r.entry(Kernel::LinregGramXtxNaive) == Some(None::<usize>),
        r.entry(Kernel::LinregGramXty) == Some(None::<usize>),
        r.entry(Kernel::LinregReduceGram) == Some(None::<usize>),
        r.entry(Kernel::LinregPredict) == Some(None::<usize>),
{
    let kernels: Vec<Kernel> = vec![
        Kernel::LinregGramXtxTiled,
        Kernel::LinregGramXtxNaive,
        Kernel::LinregGramXty,
        Kernel::LinregReduceGram,
        Kernel::LinregPredict,
    ];
    assert(kernels@[0] == Kernel::LinregGramXtxTiled);
    assert(kernels@[1] == Kernel::LinregGramXtxNaive);
    assert(kernels@[2] == Kernel::LinregGramXty);
    assert(kernels@[3] == Kernel::LinregReduceGram);
    assert(kernels@[4] == Kernel::LinregPredict);
    PipelineCache::new(kernels)
}

/// Why a fit is refused, if it is.
pub fn check_fit(alpha: Float32, len: usize, targets: usize, n: usize, d: usize) -> (r: Option<
    RegressionError,
>)
    ensures
        r == fit_refusal(alpha, len, targets as nat, n, d),
{
    if n == 0 || d == 0 {
        return Some(RegressionError::Empty);
    }
    if !is_matrix(len, n, d) {
        return Some(RegressionError::DataLength { n, d, got: len });
    }
    if targets != n {
        return Some(RegressionError::TargetLength { expected: n, got: targets });
    }
    if !(Float32::zero().at_most(alpha) && alpha.is_finite()) {
        return Some(RegressionError::Alpha(alpha));
    }
    if d > FEATURE_LIMIT {
        return Some(RegressionError::TooManyFeatures(d));
    }
    None
}

/// Why a prediction is refused, if it is.
pub fn check_predict(fitted_d: usize, weights: usize, len: usize, n: usize, d: usize) -> (r: Option<
    RegressionError,
>)
    ensures
        r == predict_refusal(fitted_d, weights as nat, len, n, d),
{
    if d != fitted_d {
        return Some(RegressionError::Dimension { expected: fitted_d, got: d });
    }
    if weights == 0 {
        return Some(RegressionError::NotFitted);
    }
    if !is_matrix(len, n, d) {
        return Some(RegressionError::DataLength { n, d, got: len });
    }
    None
}

/// The buffers and the launches that build the normal equations of `n` rows.
pub fn plan_gram(ctx: &mut MetalContext, n: usize, d: usize) -> (r: GramPass)
    requires
        0 < n,
        0 < d <= FEATURE_LIMIT,
        4 * (n * d) <= usize::MAX,
    ensures
        final(ctx)@ == old(ctx)@ + gram_sizes(n, d),
        r.buffers == gram_buffers(old(ctx)@.len(), n, d),
        r.xtx@ == xtx_launch(r.buffers, n, d),
        r.xty@ == xty_launch(r.buffers, n, d),
        r.reduce@ == reduce_launch(r.buffers, n, d),
{
    proof {
        lemma_matrix_bounds(n * d, n as int, d as int);
        lemma_geometry_bounded(n, d);
    }
    let g: Geometry = geometry(n, d);
    let ghost start = ctx@;
    let square: usize = d * d;
    let width: usize = 2 * d + 2;
    proof {
        assert(g.xtx_groups * square <= PARTIALS_CAP_BYTES);
        assert(g.xty_groups * width <= PARTIALS_CAP_BYTES);
        assert(g.xtx_groups * d * d == g.xtx_groups * (d * d)) by (nonlinear_arith);
    }
    let xtx_words: usize = g.xtx_groups * square;
    let xty_words: usize = g.xty_groups * width;
    let x: Buffer = ctx.new_buffer(n * d);
    let y: Buffer = ctx.new_buffer(n);
    let xtx: Buffer = ctx.new_buffer_uninitialized((square * 4) as u64);
    let xtx_partials: Buffer = ctx.new_buffer_uninitialized(
        ((if xtx_words > 1 {
            xtx_words
        } else {
            1
        }) * 4) as u64,
    );
    let xty_partials: Buffer = ctx.new_buffer_uninitialized(
        ((if xty_words > 1 {
            xty_words
        } else {
            1
        }) * 4) as u64,
    );
    let xty: Buffer = ctx.new_buffer_uninitialized((d * 4) as u64);
    let column_sums: Buffer = ctx.new_buffer_uninitialized((d * 4) as u64);
    let stats: Buffer = ctx.new_buffer_uninitialized(8);
    assert(ctx@ =~= start + gram_sizes(n, d));
    let buffers = GramBuffers {
        x,
        y,
        xtx,
        xtx_partials,
        xty_partials,
        xty,
        column_sums,
        stats,
    };
    let xtx_pass: Launch = launch_xtx(&buffers, n, d, &g);
    let xty_pass = Launch {
        kernel: Kernel::LinregGramXty,
        arguments: vec![
            Argument::Memory(x),
            Argument::Memory(y),
            Argument::Memory(xty_partials),
            Argument::Word(#[verifier::truncate] (n as u32)),
            Argument::Word(#[verifier::truncate] (d as u32)),
            Argument::Word(#[verifier::truncate] (g.xty_groups as u32)),
        ],
        threadgroup_bytes: 0,
        groups: MTLSize::line(g.xty_groups as u64),
        threads: MTLSize::line(256),
    };
    assert(xty_pass@ =~= xty_launch(buffers, n, d));
    let reduce = Launch {
        kernel: Kernel::LinregReduceGram,
        arguments: vec![
            Argument::Memory(xtx_partials),
            Argument::Memory(xty_partials),
            Argument::Memory(xtx),
            Argument::Memory(xty),
            Argument::Memory(column_sums),
            Argument::Memory(stats),
            Argument::Word(#[verifier::truncate] (g.xtx_groups as u32)),
            Argument::Word(#[verifier::truncate] (g.xty_groups as u32)),
            Argument::Word(#[verifier::truncate] (d as u32)),
        ],
        threadgroup_bytes: 0,
        groups: MTLSize::line(1),
        threads: MTLSize::line(256),
    };
    assert(reduce@ =~= reduce_launch(buffers, n, d));
    GramPass { buffers, xtx: xtx_pass, xty: xty_pass, reduce }
}

fn launch_xtx(b: &GramBuffers, n: usize, d: usize, g: &Geometry) -> (r: Launch)
    requires
        0 < n,
        0 < d <= FEATURE_LIMIT,
        g.tile_rows == tile_rows(d),
        g.xtx_groups == xtx_groups(n, d),
    ensures
        r@ == xtx_launch(*b, n, d),
{
    proof {
        lemma_geometry_bounded(n, d);
    }
    if d <= 128 {
        let r = Launch {
            kernel: pick_gram_kernel_name(d),
            arguments: vec![
                Argument::Memory(b.x),
                Argument::Memory(b.xtx_partials),
                Argument::Word(#[verifier::truncate] (n as u32)),
                Argument::Word(#[verifier::truncate] (d as u32)),
                Argument::Word(#[verifier::truncate] (g.tile_rows as u32)),
                Argument::Word(#[verifier::truncate] (g.xtx_groups as u32)),
            ],
            threadgroup_bytes: (g.tile_rows * d * 4) as u64,
            groups: MTLSize::line(g.xtx_groups as u64),
            threads: MTLSize::line(256),
        };
        assert(r@ =~= xtx_launch(*b, n, d));
        r
    } else {
        let r = Launch {
            kernel: pick_gram_kernel_name(d),
            arguments: vec![
                Argument::Memory(b.x),
                Argument::Memory(b.xtx),
                Argument::Word(#[verifier::truncate] (n as u32)),
                Argument::Word(#[verifier::truncate] (d as u32)),
            ],
            threadgroup_bytes: 0,
            groups: MTLSize::line((d * d) as u64 / 256 + 1),
            threads: MTLSize::line(256),
        };
        assert(r@ =~= xtx_launch(*b, n, d));
        r
    }
}

/// The launches of the passes bind only buffers that exist, and a direct `XᵀX` has a thread
/// for each of its elements.
pub proof fn lemma_gram_launches(start: Seq<u64>, n: usize, d: usize)
    requires
        start.len() + 8 <= usize::MAX,
        0 < n,
        0 < d <= FEATURE_LIMIT,
    ensures
        ({
            let ledger = start + gram_sizes(n, d);
            let b = gram_buffers(start.len(), n, d);
            &&& xtx_launch(b, n, d).bound_in(ledger)
            &&& xty_launch(b, n, d).bound_in(ledger)
            &&& reduce_launch(b, n, d).bound_in(ledger)
            &&& !tiled(d) ==> xtx_launch(b, n, d).threads_across() >= d * d
        }),
{
    lemma_buffers_held(start, gram_sizes(n, d));
    lemma_geometry_bounded(n, d);
    let b = gram_buffers(start.len(), n, d);
    if !tiled(d) {
        let launch = xtx_launch(b, n, d);
        assert(launch.threads_across() == launch.groups.width * 256) by {
            assert(launch.threads.width == 256);
        }
    }
}

/// The launch that computes `Xw + b` for `n` rows.
pub fn launch_rows(x: Buffer, w: Buffer, out: Buffer, n: usize, d: usize, bias: Float32) -> (r:
    Launch)
    requires
        n + 255 <= usize::MAX,
    ensures
        r@ == rows_launch(x, w, out, n, d, bias),
{
    let r = Launch {
        kernel: Kernel::LinregPredict,
        arguments: vec![
            Argument::Memory(x),
            Argument::Memory(w),
            Argument::Memory(out),
            Argument::Word(#[verifier::truncate] (n as u32)),
            Argument::Word(#[verifier::truncate] (d as u32)),
            Argument::Real(bias),
        ],
        threadgroup_bytes: 0,
        groups: MTLSize::line(group_count(n as u64, 256)),
        threads: MTLSize::line(256),
    };
    assert(r@ =~= rows_launch(x, w, out, n, d, bias));
    r
}

/// The buffers and the launch that apply fitted weights to `n` rows.
pub fn plan_rows(
    ctx: &mut MetalContext,
    len: usize,
    weights: usize,
    n: usize,
    d: usize,
    bias: Float32,
) -> (r: PredictPass)
    requires
        4 * len <= usize::MAX,
        4 * weights <= usize::MAX,
        4 * n + 255 <= usize::MAX,
    ensures
        final(ctx)@ == old(ctx)@ + seq![(4 * len) as u64, (4 * weights) as u64, (4 * n) as u64],
        r.x == buffer_at(old(ctx)@.len(), 0, 4 * len),
        r.w == buffer_at(old(ctx)@.len(), 1, 4 * weights),
        r.out == buffer_at(old(ctx)@.len(), 2, 4 * n),
        r.launch@ == rows_launch(r.x, r.w, r.out, n, d, bias),
        r.launch@.bound_in(final(ctx)@),
{
    let ghost start = ctx@;
    let x: Buffer = ctx.new_buffer(len);
    let w: Buffer = ctx.new_buffer(weights);
    let out: Buffer = ctx.new_buffer_uninitialized((n * 4) as u64);
    assert(ctx@ =~= start + seq![(4 * len) as u64, (4 * weights) as u64, (4 * n) as u64]);
    let launch: Launch = launch_rows(x, w, out, n, d, bias);
    PredictPass { x, w, out, launch }
}

/// The number of unknowns: the weights, and the intercept where there is one.
pub open spec fn unknowns(d: int, fit_intercept: bool) -> int {
    if fit_intercept {
        d + 1
    } else {
        d
    }
}

/// The augmented matrix `[XᵀX | Xᵀ1; 1ᵀX | n]`, or `XᵀX` alone.
pub open spec fn augmented(
    xtx: Seq<Float32>,
    column_sums: Seq<Float32>,
    count: Float32,
    d: int,
    fit_intercept: bool,
) -> Seq<Float32> {
    let dim = unknowns(d, fit_intercept);
    Seq::new(
        (dim * dim) as nat,
        |i: int|
            {
                let row = i / dim;
                let column = i % dim;
                if row < d && column < d {
                    xtx[row * d + column]
                } else if row < d {
                    column_sums[row]
                } else if column < d {
                    column_sums[column]
                } else {
                    count
                }
            },
    )
}

/// The right-hand side `[Xᵀy; Σy]`, or `Xᵀy` alone.
pub open spec fn augmented_side(xty: Seq<Float32>, sum: Float32, fit_intercept: bool) -> Seq<
    Float32,
> {
    if fit_intercept {
        xty.push(sum)
    } else {
        xty
    }
}

/// Puts the augmented matrix together.
pub fn augment(
    xtx: &[Float32],
    column_sums: &[Float32],
    count: Float32,
    d: usize,
    fit_intercept: bool,
) -> (r: Vec<Float32>)
    requires
        0 < d <= FEATURE_LIMIT,
        xtx@.len() == d * d,
        column_sums@.len() == d,
    ensures
        r@ == augmented(xtx@, column_sums@, count, d as int, fit_intercept),
{
    let dim: usize = if fit_intercept {
        d + 1
    } else {
        d
    };
    let ghost whole = augmented(xtx@, column_sums@, count, d as int, fit_intercept);
    proof {
        assert(dim * dim <= 4096 * 4096) by (nonlinear_arith)
            requires
                0 < dim <= 4096,
        ;
        assert(d * d <= 4096 * 4096) by (nonlinear_arith)
            requires
                0 < d <= 4096,
        ;
    }
    let mut r: Vec<Float32> = Vec::new();
    let mut row: usize = 0;
    while row < dim
        invariant
            row <= dim,
            dim == unknowns(d as int, fit_intercept),
            0 < d <= FEATURE_LIMIT,
            xtx@.len() == d * d,
            column_sums@.len() == d,
            d * d <= 4096 * 4096,
            dim * dim <= 4096 * 4096,
            whole == augmented(xtx@, column_sums@, count, d as int, fit_intercept),
            r@ == whole.take(row * dim),
            row * dim <= dim * dim,
        decreases dim - row,
    {
        let mut column: usize = 0;
        proof {
            lemma_matrix_index(dim as int, dim as int, row as int, 0);
        }
        while column < dim
            invariant
                row < dim,
                column <= dim,
                dim == unknowns(d as int, fit_intercept),
                0 < d <= FEATURE_LIMIT,
                xtx@.len() == d * d,
                column_sums@.len() == d,
                d * d <= 4096 * 4096,
                dim * dim <= 4096 * 4096,
                whole == augmented(xtx@, column_sums@, count, d as int, fit_intercept),
                r@ == whole.take(row * dim + column),
                row * dim + dim <= dim * dim,
            decreases dim - column,
        {
            proof {
                lemma_matrix_index(dim as int, dim as int, row as int, column as int);
                lemma_matrix_position(dim as int, row as int, column as int);
                if row < d && column < d {
                    lemma_matrix_index(d as int, d as int, row as int, column as int);
                }
            }
            let value: Float32 = if row < d && column < d {
                xtx[row * d + column]
            } else if row < d {
                column_sums[row]
            } else if column < d {
                column_sums[column]
            } else {
                count
            };
            r.push(value);
            assert(whole[row * dim + column] == value);
            column += 1;
            assert(r@ =~= whole.take(row * dim + column));
        }
        row += 1;
        assert((row - 1) * dim + dim == row * dim) by (nonlinear_arith);
    }
    assert(r@ =~= whole);
    r
}

/// Puts the right-hand side together.
pub fn augment_side(xty: &[Float32], sum: Float32, fit_intercept: bool) -> (r: Vec<Float32>)
    ensures
        r@ == augmented_side(xty@, sum, fit_intercept),
{
    let mut r: Vec<Float32> = Vec::new();
    let mut i: usize = 0;
    while i < xty.len()
        invariant
            i <= xty@.len(),
            r@ == xty@.take(i as int),
        decreases xty@.len() - i,
    {
        r.push(xty[i]);
        i += 1;
        assert(r@ =~= xty@.take(i as int));
    }
    assert(r@ =~= xty@);
    if fit_intercept {
        r.push(sum);
    }
    r
}

/// The augmented matrix of a symmetric `XᵀX` is symmetric.
pub proof fn lemma_augmented_symmetric(
    xtx: Seq<Float32>,
    column_sums: Seq<Float32>,
    count: Float32,
    d: int,
    fit_intercept: bool,
    row: int,
    column: int,
)
    requires
        0 < d,
        xtx.len() == d * d,
        column_sums.len() == d,
        forall|j: int, k: int|
            0 <= j < d && 0 <= k < d ==> #[trigger] xtx[j * d + k] == xtx[k * d + j],
        0 <= row < unknowns(d, fit_intercept),
        0 <= column < unknowns(d, fit_intercept),
    ensures
        ({
            let a = augmented(xtx, column_sums, count, d, fit_intercept);
            let dim = unknowns(d, fit_intercept);
            a[row * dim + column] == a[column * dim + row]
        }),
{
    let dim = unknowns(d, fit_intercept);
    lemma_matrix_index(dim, dim, row, column);
    lemma_matrix_index(dim, dim, column, row);
    lemma_matrix_position(dim, row, column);
    lemma_matrix_position(dim, column, row);
    if row < d && column < d {
        assert(xtx[row * d + column] == xtx[column * d + row]);
    }
}

/// The weights and the intercept that a solution holds; the intercept is zero where none is
/// fitted.
pub fn split_solution(solution: &[Float32], d: usize, fit_intercept: bool) -> (r: (
    Vec<Float32>,
    Float32,
))
    requires
        solution@.len() == unknowns(d as int, fit_intercept),
    ensures
        r.0@ == solution@.take(d as int),
        r.1 == (if fit_intercept {
            solution@[d as int]
        } else {
            Float32 { bits: 0 }
        }),
{
    let mut weights: Vec<Float32> = Vec::new();
    let mut i: usize = 0;
    while i < d
        invariant
            i <= d <= solution@.len(),
            weights@ == solution@.take(i as int),
        decreases d - i,
    {
        weights.push(solution[i]);
        i += 1;
        assert(weights@ =~= solution@.take(i as int));
    }
    if fit_intercept {
        (weights, solution[d])
    } else {
        (weights, Float32::zero())
    }
}

/// The coefficient of determination where the targets do not vary: 1 when the predictions
/// are exact, 0 when they are not. Targets that vary have none of these.
pub open spec fn constant_score(residual: Float32, variation: Float32) -> Option<Float32> {
    let epsilon = Float32 { bits: EPSILON };
    if variation.le(epsilon) {
        Some(
            if residual.le(epsilon) {
                Float32 { bits: ONE }
            } else {
                Float32 { bits: 0 }
            },
        )
    } else {
        None
    }
}

/// The coefficient of determination where it is not `1 - residual / variation`.
pub fn score_of_constant(residual: Float32, variation: Float32) -> (r: Option<Float32>)
    ensures
        r == constant_score(residual, variation),
{
    let epsilon: Float32 = Float32 { bits: EPSILON };
    if variation.at_most(epsilon) {
        if residual.at_most(epsilon) {
            Some(Float32 { bits: ONE })
        } else {
            Some(Float32::zero())
        }
    } else {
        None
    }
}

/// The least variation is the step from one to the next number, `2^-23`.
pub proof fn lemma_epsilon()
    ensures
        (Float32 { bits: EPSILON }).approximates(1, 8388608),
{
    lemma2_to64();
    lemma2_to64_rest();
    assert(pow2(46) == 70368744177664);
    lemma_approximates(
        Float32 { bits: EPSILON },
        104,
        8388608,
        1,
        8388608,
        70368744177664,
    );
}

/// A tile holds as many rows as fit in 30720 bytes, but no more than 256, and is used for up to
/// 128 features.
pub proof fn lemma_tile_rows(d: usize)
    requires
        0 < d,
    ensures
        tiled(d) <==> d <= 128,
        d <= 128 ==> gram_kernel(d) == Kernel::LinregGramXtxTiled,
        d > 128 ==> gram_kernel(d) == Kernel::LinregGramXtxNaive,
        d <= 128 ==> tile_rows(d) <= 256 && 4 * (tile_rows(d) * d) <= 30720,
        d <= 128 && tile_rows(d) < 256 ==> 4 * ((tile_rows(d) + 1) * d) > 30720,
        d > 128 ==> tile_rows(d) == 256,
{
    if d <= 128 {
        let q = 7680int / (d as int);
        lemma_fundamental_div_mod(7680, d as int);
        assert(q >= 60 && q * d <= 7680 && (q + 1) * d > 7680 && 256 * d <= 256 * 128) by (nonlinear_arith)
            requires
                7680 == d * q + 7680int % (d as int),
                0 <= 7680int % (d as int) < d,
                0 < d <= 128,
        ;
        if q > 256 {
            assert(256 * d <= q * d) by (nonlinear_arith)
                requires
                    q > 256,
                    d > 0,
            ;
        }
    }
}

/// The groups hold every row, and one less would not, unless the partial sums of one more would
/// not fit in 32 MiB.
pub proof fn lemma_groups_hold_every_row(n: usize, d: usize)
    requires
        0 < n,
        0 < d <= 4095,
    ensures
        d <= 128 ==> xtx_groups(n, d) * tile_rows(d) >= n || 4 * ((xtx_groups(n, d) + 1) * (d * d))
            > 33554432,
        d <= 128 ==> (xtx_groups(n, d) - 1) * tile_rows(d) < n,
        d > 128 ==> xtx_groups(n, d) == 0,
        xty_groups(n, d) * 256 >= n || 4 * ((xty_groups(n, d) + 1) * (2 * d + 2)) > 33554432,
        (xty_groups(n, d) - 1) * 256 < n,
{
    lemma_geometry_bounded(n, d);
    lemma_capped_groups(n as int, 256, (2 * d + 2) * 4);
    let c = xty_groups(n, d) + 1;
    assert(c * ((2 * d + 2) * 4) == 4 * (c * (2 * d + 2))) by (nonlinear_arith);
    if d <= 128 {
        assert(0 < d * d) by (nonlinear_arith)
            requires
                0 < d,
        ;
        lemma_capped_groups(n as int, tile_rows(d), d * d * 4);
        let c = xtx_groups(n, d) + 1;
        assert(c * (d * d * 4) == 4 * (c * (d * d))) by (nonlinear_arith);
    }
}

proof fn lemma_capped_groups(count: int, size: int, width: int)
    requires
        0 < count,
        0 < size,
        0 < width,
    ensures
        ({
            let g = at_most(groups_of(count, size), at_least(33554432int / width, 1));
            &&& g * size >= count || (g + 1) * width > 33554432
            &&& (g - 1) * size < count
        }),
{
    let needed = groups_of(count, size);
    let most = at_least(33554432int / width, 1);
    let g = at_most(needed, most);
    lemma_groups_cover(count, size);
    lemma_fundamental_div_mod(33554432, width);
    let q = 33554432int / width;
    assert((q + 1) * width > 33554432) by (nonlinear_arith)
        requires
            33554432 == width * q + 33554432int % width,
            0 <= 33554432int % width < width,
    ;
    if needed > most {
        assert((g + 1) * width >= (q + 1) * width) by (nonlinear_arith)
            requires
                g >= q,
                width > 0,
        ;
    } else {
        assert((needed - 1) * size == needed * size - size) by (nonlinear_arith);
    }
    assert((g - 1) * size <= (needed - 1) * size) by (nonlinear_arith)
        requires
            g <= needed,
            size > 0,
    ;
    assert((needed - 1) * size == needed * size - size) by (nonlinear_arith);
}

/// What the passes of a fit bind and how they are cut.
pub proof fn lemma_gram_passes(b: GramBuffers, n: usize, d: usize)
    requires
        0 < n,
        0 < d <= 4095,
    ensures
        d <= 128 ==> ({
            let l = xtx_launch(b, n, d);
            &&& l.kernel == Kernel::LinregGramXtxTiled
            &&& l.arguments.len() == 6
            &&& l.arguments[0] == Argument::Memory(b.x)
            &&& l.arguments[1] == Argument::Memory(b.xtx_partials)
            &&& l.arguments[2] == Argument::Word(n as u32)
            &&& l.arguments[3] == Argument::Word(d as u32)
            &&& l.arguments[4] == Argument::Word(tile_rows(d) as u32)
            &&& l.arguments[5] == Argument::Word(l.groups.width as u32)
            &&& l.threadgroup_bytes == 4 * (tile_rows(d) * d)
            &&& l.groups.height == 1 && l.threads.height == 1
            &&& l.threads.width == 256
            &&& l.groups.width == xtx_groups(n, d)
        }),
        d > 128 ==> ({
            let l = xtx_launch(b, n, d);
            &&& l.kernel == Kernel::LinregGramXtxNaive
            &&& l.arguments.len() == 4
            &&& l.arguments[0] == Argument::Memory(b.x)
            &&& l.arguments[1] == Argument::Memory(b.xtx)
            &&& l.arguments[2] == Argument::Word(n as u32)
            &&& l.arguments[3] == Argument::Word(d as u32)
            &&& l.threadgroup_bytes == 0
            &&& l.groups.height == 1 && l.threads.height == 1
            &&& l.threads.width == 256
            &&& l.groups.width * l.threads.width >= d * d
        }),
        ({
            let l = xty_launch(b, n, d);
            &&& l.kernel == Kernel::LinregGramXty
            &&& l.arguments.len() == 6
            &&& l.arguments[0] == Argument::Memory(b.x)
            &&& l.arguments[1] == Argument::Memory(b.y)
            &&& l.arguments[2] == Argument::Memory(b.xty_partials)
            &&& l.arguments[3] == Argument::Word(n as u32)
            &&& l.arguments[4] == Argument::Word(d as u32)
            &&& l.arguments[5] == Argument::Word(l.groups.width as u32)
            &&& l.threadgroup_bytes == 0
            &&& l.groups.height == 1 && l.threads.height == 1
            &&& l.threads.width == 256
            &&& l.groups.width == xty_groups(n, d)
        }),
        ({
            let l = reduce_launch(b, n, d);
            &&& l.kernel == Kernel::LinregReduceGram
            &&& l.arguments.len() == 9
            &&& l.arguments[0] == Argument::Memory(b.xtx_partials)
            &&& l.arguments[1] == Argument::Memory(b.xty_partials)
            &&& l.arguments[2] == Argument::Memory(b.xtx)
            &&& l.arguments[3] == Argument::Memory(b.xty)
            &&& l.arguments[4] == Argument::Memory(b.column_sums)
            &&& l.arguments[5] == Argument::Memory(b.stats)
            &&& l.arguments[6] == Argument::Word(xtx_groups(n, d) as u32)
            &&& l.arguments[7] == Argument::Word(xty_groups(n, d) as u32)
            &&& l.arguments[8] == Argument::Word(d as u32)
            &&& l.threadgroup_bytes == 0
            &&& l.groups == (MTLSize { width: 1, height: 1, depth: 1 })
            &&& l.threads.width == 256
            &&& l.threads.height == 1 && l.threads.depth == 1
        }),
{
    lemma_geometry_bounded(n, d);
    lemma_tile_rows(d);
    assert(0 <= tile_rows(d) * d && 0 <= d * d) by (nonlinear_arith)
        requires
            0 <= tile_rows(d),
            0 <= d,
    ;
    let g = (d * d) / 256 + 1;
    assert(line(g).width == g && g * 256 >= d * d);
}

/// The buffers of a fit, one after the other, each of the size of what it holds.
pub proof fn lemma_gram_buffers(start: nat, n: usize, d: usize)
    requires
        start + 8 <= usize::MAX,
        0 < n,
        0 < d <= 4095,
        4 * (n * d) <= usize::MAX,
    ensures
        ({
            let b = gram_buffers(start, n, d);
            &&& b.x.id == start && b.x.byte_len == 4 * (n * d)
            &&& b.y.id == start + 1 && b.y.byte_len == 4 * n
            &&& b.xtx.id == start + 2 && b.xtx.byte_len == 4 * (d * d)
            &&& b.xtx_partials.id == start + 3 && b.xtx_partials.byte_len == (if d <= 128 {
                4 * (xtx_groups(n, d) * (d * d))
            } else {
                4int
            })
            &&& b.xty_partials.id == start + 4 && b.xty_partials.byte_len == 4 * (xty_groups(n, d) * (2 * d + 2))
            &&& b.xty.id == start + 5 && b.xty.byte_len == 4 * d
            &&& b.column_sums.id == start + 6 && b.column_sums.byte_len == 4 * d
            &&& b.stats.id == start + 7 && b.stats.byte_len == 8
        }),
        gram_sizes(n, d).len() == 8,
{
    lemma_geometry_bounded(n, d);
    lemma_matrix_bounds(n * d, n as int, d as int);
    assert(0 < d * d) by (nonlinear_arith)
        requires
            0 < d,
    ;
    let g = xtx_groups(n, d);
    if d <= 128 {
        assert(g * (d * d) >= 1) by (nonlinear_arith)
            requires
                g >= 1,
                d * d >= 1,
        ;
    } else {
        assert(g * (d * d) == 0) by (nonlinear_arith)
            requires
                g == 0,
        ;
    }
    let t = xty_groups(n, d);
    assert(t * (2 * d + 2) >= 1) by (nonlinear_arith)
        requires
            t >= 1,
            d > 0,
    ;
}

/// A prediction binds rows, weights and where the result goes, hands on the bias, and has a
/// thread for every row.
pub proof fn lemma_prediction_reaches_every_row(
    x: Buffer,
    w: Buffer,
    out: Buffer,
    n: usize,
    d: usize,
    bias: Float32,
)
    ensures
        ({
            let l = rows_launch(x, w, out, n, d, bias);
            &&& l.kernel == Kernel::LinregPredict
            &&& l.arguments.len() == 6
            &&& l.arguments[0] == Argument::Memory(x)
            &&& l.arguments[1] == Argument::Memory(w)
            &&& l.arguments[2] == Argument::Memory(out)
            &&& l.arguments[3] == Argument::Word(n as u32)
            &&& l.arguments[4] == Argument::Word(d as u32)
            &&& l.arguments[5] == Argument::Real(bias)
            &&& l.threadgroup_bytes == 0
            &&& l.groups.width * l.threads.width >= n
            &&& l.groups.width * l.threads.width < n + 256
            &&& l.threads.width == 256
            &&& l.groups.height == 1 && l.threads.height == 1
        }),
{
    lemma_line_covers(n as int, 256);
}

/// The system with an intercept has the products within, the column sums on its last row and
/// column, and the count in its corner. Without one it is the products.
pub proof fn lemma_augmented_entries(
    xtx: Seq<Float32>,
    column_sums: Seq<Float32>,
    count: Float32,
    d: int,
    row: int,
    column: int,
)
    requires
        0 < d,
        xtx.len() == d * d,
        column_sums.len() == d,
        0 <= row < d,
        0 <= column < d,
    ensures
        augmented(xtx, column_sums, count, d, false).len() == d * d,
        augmented(xtx, column_sums, count, d, false)[row * d + column] == xtx[row * d + column],
        augmented(xtx, column_sums, count, d, true).len() == (d + 1) * (d + 1),
        augmented(xtx, column_sums, count, d, true)[row * (d + 1) + column] == xtx[row * d
            + column],
        augmented(xtx, column_sums, count, d, true)[row * (d + 1) + d] == column_sums[row],
        augmented(xtx, column_sums, count, d, true)[d * (d + 1) + column] == column_sums[column],
        augmented(xtx, column_sums, count, d, true)[d * (d + 1) + d] == count,
        unknowns(d, true) == d + 1,
        unknowns(d, false) == d,
{
    assert(0 <= d * d && 0 <= (d + 1) * (d + 1)) by (nonlinear_arith)
        requires
            0 < d,
    ;
    lemma_matrix_index(d, d, row, column);
    lemma_matrix_position(d, row, column);
    lemma_matrix_index(d + 1, d + 1, row, column);
    lemma_matrix_position(d + 1, row, column);
    lemma_matrix_index(d + 1, d + 1, row, d);
    lemma_matrix_position(d + 1, row, d);
    lemma_matrix_index(d + 1, d + 1, d, column);
    lemma_matrix_position(d + 1, d, column);
    lemma_matrix_index(d + 1, d + 1, d, d);
    lemma_matrix_position(d + 1, d, d);
}

/// The right side has the sum of the targets after the products, where there is an intercept.
pub proof fn lemma_augmented_side(xty: Seq<Float32>, sum: Float32, j: int)
    requires
        0 <= j < xty.len(),
    ensures
        augmented_side(xty, sum, true).len() == xty.len() + 1,
        augmented_side(xty, sum, true)[j] == xty[j],
        augmented_side(xty, sum, true)[xty.len() as int] == sum,
        augmented_side(xty, sum, false) == xty,
{
}

/// The score of targets that do not vary is one where they are met and zero else; else it is
/// left to be computed.
pub proof fn lemma_constant_score(residual: Float32, variation: Float32)
    ensures
        constant_score(residual, variation) is Some <==> variation.le(
            Float32 { bits: 0x3400_0000 },
        ),
        variation.le(Float32 { bits: 0x3400_0000 }) && residual.le(Float32 { bits: 0x3400_0000 })
            ==> constant_score(residual, variation) == Some(Float32 { bits: 0x3f80_0000 }),
        variation.le(Float32 { bits: 0x3400_0000 }) && !residual.le(Float32 { bits: 0x3400_0000 })
            ==> constant_score(residual, variation) == Some(Float32 { bits: 0 }),
{
}

/// When a fit and a prediction are taken, and why not.
pub proof fn lemma_refusals(
    alpha: Float32,
    len: usize,
    targets: nat,
    n: usize,
    d: usize,
    fitted_d: usize,
    weights: nat,
)
    ensures
        PARTIALS_CAP_BYTES == 32 * 1024 * 1024,
        d <= FEATURE_LIMIT <==> 2 * d + 2 <= 8192,
        ({
            let r = fit_refusal(alpha, len, targets, n, d);
            &&& r is None <==> (n > 0 && d > 0) && (len == n * d) && (targets == n) && ((Float32 { bits: 0 }).le(alpha) && alpha.finite()) && (2 * d + 2 <= 8192)
            &&& !(n > 0 && d > 0) ==> r == Some(RegressionError::Empty)
            &&& (n > 0 && d > 0) && !(len == n * d) ==> r == Some(RegressionError::DataLength { n, d, got: len })
            &&& (n > 0 && d > 0) && (len == n * d) && !(targets == n) ==> r == Some(RegressionError::TargetLength { expected: n, got: targets as usize })
            &&& (n > 0 && d > 0) && (len == n * d) && (targets == n) && !((Float32 { bits: 0 }).le(alpha) && alpha.finite()) ==> r == Some(RegressionError::Alpha(alpha))
            &&& (n > 0 && d > 0) && (len == n * d) && (targets == n) && ((Float32 { bits: 0 }).le(alpha) && alpha.finite()) && !(2 * d + 2 <= 8192) ==> r == Some(RegressionError::TooManyFeatures(d))
        }),
        ({
            let r = predict_refusal(fitted_d, weights, len, n, d);
            &&& r is None <==> (d == fitted_d) && (weights > 0) && (len == n * d)
            &&& !(d == fitted_d) ==> r == Some(RegressionError::Dimension { expected: fitted_d, got: d })
            &&& (d == fitted_d) && !(weights > 0) ==> r == Some(RegressionError::NotFitted)
            &&& (d == fitted_d) && (weights > 0) && !(len == n * d) ==> r == Some(RegressionError::DataLength { n, d, got: len })
        }),
{
}

} // verus!
