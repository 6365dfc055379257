//! Principal component analysis.
//!
//! The device centers the data and multiplies it with its transpose, on the side that gives
//! the smaller matrix. The host decomposes that matrix; the order in which it rotates, the
//! order of the eigenpairs and the layout of the components are decided here.

use vstd::prelude::*;
use crate::float::Float32;
use crate::matrix::{pick_columns, reverse_columns, take_leading};
use crate::metal::{group_count, Argument, Buffer, Kernel, Launch, MTLSize, MetalContext};
use crate::pipeline::PipelineCache;
use crate::shape::is_matrix;
#[allow(unused_imports)]
use crate::matrix::{columns_of, entry, leading, reversed_columns};
#[allow(unused_imports)]
use crate::metal::{buffer_at, groups_of, lemma_buffers_held, lemma_groups_cover, lemma_line_covers, lemma_tiles_cover, line, plane, LaunchView};
#[allow(unused_imports)]
use crate::shape::{lemma_matrix_bounds, lemma_matrix_index, lemma_matrix_position};

verus! {

/// The largest matrix that is decomposed by Jacobi rotations.
pub const JACOBI_LIMIT: usize = 128;

/// How often the rotations go over all pairs.
pub const SWEEP_LIMIT: u32 = 15;

#[derive(Clone, Copy, Debug, PartialEq, Eq, Structural)]
pub struct PCAConfig {
    pub n_components: usize,
}

impl Default for PCAConfig {
    /// Two components.
    fn default() -> (r: PCAConfig)
        ensures
            r.n_components == 2,
    {
        PCAConfig { n_components: 2 }
    }
}

/// Why a fit or a transform was refused.
#[derive(Clone, Copy, Debug, PartialEq, Eq, Structural)]
pub enum PCAError {
    Empty,
    DataLength,
    /// The number of components is not between 1 and the number of dimensions.
    Components { d: usize },
    Dimension { expected: usize, got: usize },
    NotFitted,
    /// A fit on few rows found fewer components than are wanted.
    Found { components: usize, wanted: usize },
}

pub struct PCA {
    pub config: PCAConfig,
    pub components: Vec<Float32>,
    pub explained_variance: Vec<Float32>,
    pub explained_variance_ratio: Vec<Float32>,
    pub mean: Vec<Float32>,
    pub singular_values: Vec<Float32>,
    pub noise_variance: Float32,
    pub n: usize,
    pub d: usize,
    /// The pipelines compiled so far.
    pub pipelines: PipelineCache,
}

/// Whether the product of rows is decomposed, which is the smaller one: there are fewer rows
/// than columns.
pub open spec fn gram_path(n: usize, d: usize) -> bool {
    n < d
}

/// The order of the matrix that is decomposed.
pub open spec fn gram_dim(n: usize, d: usize) -> usize {
    if gram_path(n, d) {
        n
    } else {
        d
    }
}

/// How many components come out.
pub open spec fn component_count(wanted: usize, n: usize, d: usize) -> usize {
    if wanted < gram_dim(n, d) {
        wanted
    } else {
        gram_dim(n, d)
    }
}

/// Why a fit is refused, if it is.
pub open spec fn fit_refusal(config: PCAConfig, len: usize, n: usize, d: usize) -> Option<PCAError> {
    if n == 0 || d == 0 {
        Some(PCAError::Empty)
    } else if len != n * d {
        Some(PCAError::DataLength)
    } else if config.n_components == 0 || config.n_components > d {
        Some(PCAError::Components { d })
    } else {
        None
    }
}

/// Why a transform is refused, if it is.
pub open spec fn transform_refusal(
    fitted_d: usize,
    components: nat,
    wanted: usize,
    len: usize,
    n: usize,
    d: usize,
) -> Option<PCAError> {
    if d != fitted_d {
        Some(PCAError::Dimension { expected: fitted_d, got: d })
    } else if len != n * d {
        Some(PCAError::DataLength)
    } else if components == 0 {
        Some(PCAError::NotFitted)
    } else if components < wanted * d {
        Some(PCAError::Found { components: (components as int / d as int) as usize, wanted })
    } else {
        None
    }
}

/// A list holds `k` rows of length `d` exactly when as many fit into its length.
proof fn lemma_rows_held(len: int, k: int, d: int)
    requires
        0 <= len,
        0 <= k,
        0 <= d,
    ensures
        d > 0 ==> (len < k * d <==> len / d < k),
        d == 0 ==> !(len < k * d),
{
    if d > 0 {
        assert(len < k * d <==> len / d < k) by (nonlinear_arith)
            requires
                0 <= len,
                0 <= k,
                0 < d,
        ;
    }
}

/// The buffers of a fit.
#[derive(Clone, Copy, Debug, PartialEq, Eq, Structural)]
pub struct FitBuffers {
    pub data: Buffer,
    pub means: Buffer,
    pub block_sums: Buffer,
    pub centered: Buffer,
    pub gram: Buffer,
    pub centered_t: Buffer,
}

/// The sizes in bytes of the buffers of a fit, in the order in which they are made.
pub open spec fn fit_sizes(n: usize, d: usize) -> Seq<u64> {
    seq![
        (4 * (n * d)) as u64,
        (4 * d) as u64,
        (4 * (groups_of(n as int, 256) * d)) as u64,
        (4 * (n * d)) as u64,
        (4 * (gram_dim(n, d) * gram_dim(n, d))) as u64,
        (4 * (n * d)) as u64,
    ]
}

/// The buffers of a fit, where the first one comes after `start` others.
pub open spec fn fit_buffers(start: nat, n: usize, d: usize) -> FitBuffers {
    let sizes = fit_sizes(n, d);
    FitBuffers {
        data: buffer_at(start, 0, sizes[0] as int),
        means: buffer_at(start, 1, sizes[1] as int),
        block_sums: buffer_at(start, 2, sizes[2] as int),
        centered: buffer_at(start, 3, sizes[3] as int),
        gram: buffer_at(start, 4, sizes[4] as int),
        centered_t: buffer_at(start, 5, sizes[5] as int),
    }
}

/// The launch that sums the columns, block by block of rows.
pub open spec fn mean_launch(b: FitBuffers, n: usize, d: usize) -> LaunchView {
    LaunchView {
        kernel: Kernel::PcaMean,
        arguments: seq![
            Argument::Memory(b.data),
            Argument::Memory(b.means),
            Argument::Memory(b.block_sums),
            Argument::Word(n as u32),
            Argument::Word(d as u32),
            Argument::Word(groups_of(n as int, 256) as u32),
        ],
        threadgroup_bytes: (4 * d) as u64,
        groups: line(groups_of(n as int, 256)),
        threads: line(d as int),
    }
}

/// The launch that makes means of the sums.
pub open spec fn mean_final_launch(b: FitBuffers, n: usize, d: usize) -> LaunchView {
    LaunchView {
        kernel: Kernel::PcaMeanFinal,
        arguments: seq![
            Argument::Memory(b.block_sums),
            Argument::Memory(b.means),
            Argument::Word(groups_of(n as int, 256) as u32),
            Argument::Word(d as u32),
            Argument::Word(n as u32),
        ],
        threadgroup_bytes: 0,
        groups: line(1),
        threads: line(d as int),
    }
}

/// The launch that takes the means from the data.
pub open spec fn center_launch(b: FitBuffers, n: usize, d: usize) -> LaunchView {
    LaunchView {
        kernel: Kernel::PcaCenter,
        arguments: seq![
            Argument::Memory(b.data),
            Argument::Memory(b.means),
            Argument::Memory(b.centered),
            Argument::Word(n as u32),
            Argument::Word(d as u32),
        ],
        threadgroup_bytes: 0,
        groups: line(groups_of(n * d, 256)),
        threads: line(256),
    }
}

/// The launch that transposes the centered data.
pub open spec fn transpose_launch(b: FitBuffers, n: usize, d: usize) -> LaunchView {
    LaunchView {
        kernel: Kernel::PcaTranspose,
        arguments: seq![
            Argument::Memory(b.centered),
            Argument::Memory(b.centered_t),
            Argument::Word(n as u32),
            Argument::Word(d as u32),
        ],
        threadgroup_bytes: 0,
        groups: plane(groups_of(d as int, 16), groups_of(n as int, 16)),
        threads: plane(16, 16),
    }
}

/// The launch that multiplies the centered data with its transpose: the rows among
/// themselves where there are fewer rows, else the columns.
pub open spec fn matmul_launch(b: FitBuffers, n: usize, d: usize) -> LaunchView {
    let outer = if gram_path(n, d) {
        n
    } else {
        d
    };
    let inner = if gram_path(n, d) {
        d
    } else {
        n
    };
    LaunchView {
        kernel: Kernel::PcaMatmul,
        arguments: seq![
            Argument::Memory(
                if gram_path(n, d) {
                    b.centered
                } else {
                    b.centered_t
                },
            ),
            Argument::Memory(
                if gram_path(n, d) {
                    b.centered_t
                } else {
                    b.centered
                },
            ),
            Argument::Memory(b.gram),
            Argument::Word(outer as u32),
            Argument::Word(inner as u32),
            Argument::Word(outer as u32),
            Argument::Word(inner as u32),
            Argument::Word(outer as u32),
        ],
        threadgroup_bytes: 0,
        groups: plane(groups_of(gram_dim(n, d) as int, 16), groups_of(gram_dim(n, d) as int, 16)),
        threads: plane(16, 16),
    }
}

/// The launch that projects `n` rows onto `k` components.
pub open spec fn transform_launch(
    x: Buffer,
    means: Buffer,
    components: Buffer,
    out: Buffer,
    n: usize,
    d: usize,
    k: usize,
) -> LaunchView {
    LaunchView {
        kernel: Kernel::PcaTransform,
        arguments: seq![
            Argument::Memory(x),
            Argument::Memory(means),
            Argument::Memory(components),
            Argument::Memory(out),
            Argument::Word(n as u32),
            Argument::Word(d as u32),
            Argument::Word(k as u32),
        ],
        threadgroup_bytes: 0,
        groups: plane(groups_of(k as int, 16), groups_of(n as int, 16)),
        threads: plane(16, 16),
    }
}

/// The passes of a fit, in the order in which they run.
pub struct FitPass {
    pub buffers: FitBuffers,
    pub mean: Launch,
    pub mean_final: Launch,
    pub center: Launch,
    pub transpose: Launch,
    pub matmul: Launch,
}

/// The buffers and the launch of a transform.
pub struct TransformPass {
    pub x: Buffer,
    pub means: Buffer,
    pub components: Buffer,
    pub out: Buffer,
    pub launch: Launch,
}

fn launch_mean(b: &FitBuffers, n: usize, d: usize) -> (r: Launch)
    requires
        n + 255 <= usize::MAX,
        4 * d <= usize::MAX,
    ensures
        r@ == mean_launch(*b, n, d),
{
    let blocks: u64 = group_count(n as u64, 256);
    let r = Launch {
        kernel: Kernel::PcaMean,
        arguments: vec![
            Argument::Memory(b.data),
            Argument::Memory(b.means),
            Argument::Memory(b.block_sums),
            Argument::Word(#[verifier::truncate] (n as u32)),
            Argument::Word(#[verifier::truncate] (d as u32)),
            Argument::Word(#[verifier::truncate] (blocks as u32)),
        ],
        threadgroup_bytes: (d * 4) as u64,
        groups: MTLSize::line(blocks),
        threads: MTLSize::line(d as u64),
    };
    assert(r@ =~= mean_launch(*b, n, d));
    r
}

fn launch_mean_final(b: &FitBuffers, n: usize, d: usize) -> (r: Launch)
    requires
        n + 255 <= usize::MAX,
    ensures
        r@ == mean_final_launch(*b, n, d),
{
    let blocks: u64 = group_count(n as u64, 256);
    let r = Launch {
        kernel: Kernel::PcaMeanFinal,
        arguments: vec![
            Argument::Memory(b.block_sums),
            Argument::Memory(b.means),
            Argument::Word(#[verifier::truncate] (blocks as u32)),
            Argument::Word(#[verifier::truncate] (d as u32)),
            Argument::Word(#[verifier::truncate] (n as u32)),
        ],
        threadgroup_bytes: 0,
        groups: MTLSize::line(1),
        threads: MTLSize::line(d as u64),
    };
    assert(r@ =~= mean_final_launch(*b, n, d));
    r
}

fn launch_center(b: &FitBuffers, n: usize, d: usize) -> (r: Launch)
    requires
        n * d + 255 <= usize::MAX,
    ensures
        r@ == center_launch(*b, n, d),
{
    let r = Launch {
        kernel: Kernel::PcaCenter,
        arguments: vec![
            Argument::Memory(b.data),
            Argument::Memory(b.means),
            Argument::Memory(b.centered),
            Argument::Word(#[verifier::truncate] (n as u32)),
            Argument::Word(#[verifier::truncate] (d as u32)),
        ],
        threadgroup_bytes: 0,
        groups: MTLSize::line(group_count((n * d) as u64, 256)),
        threads: MTLSize::line(256),
    };
    assert(r@ =~= center_launch(*b, n, d));
    r
}

fn launch_transpose(b: &FitBuffers, n: usize, d: usize) -> (r: Launch)
    requires
        n + 255 <= usize::MAX,
        d + 255 <= usize::MAX,
    ensures
        r@ == transpose_launch(*b, n, d),
{
    let r = Launch {
        kernel: Kernel::PcaTranspose,
        arguments: vec![
            Argument::Memory(b.centered),
            Argument::Memory(b.centered_t),
            Argument::Word(#[verifier::truncate] (n as u32)),
            Argument::Word(#[verifier::truncate] (d as u32)),
        ],
        threadgroup_bytes: 0,
        groups: MTLSize::plane(group_count(d as u64, 16), group_count(n as u64, 16)),
        threads: MTLSize::plane(16, 16),
    };
    assert(r@ =~= transpose_launch(*b, n, d));
    r
}

fn launch_matmul(b: &FitBuffers, n: usize, d: usize) -> (r: Launch)
    requires
        n + 255 <= usize::MAX,
        d + 255 <= usize::MAX,
    ensures
        r@ == matmul_launch(*b, n, d),
{
    let rows_first: bool = n < d;
    let outer: usize = if rows_first {
        n
    } else {
        d
    };
    let inner: usize = if rows_first {
        d
    } else {
        n
    };
    let left: Buffer = if rows_first {
        b.centered
    } else {
        b.centered_t
    };
    let right: Buffer = if rows_first {
        b.centered_t
    } else {
        b.centered
    };
    let tiles: u64 = group_count(outer as u64, 16);
    let r = Launch {
        kernel: Kernel::PcaMatmul,
        arguments: vec![
            Argument::Memory(left),
            Argument::Memory(right),
            Argument::Memory(b.gram),
            Argument::Word(#[verifier::truncate] (outer as u32)),
            Argument::Word(#[verifier::truncate] (inner as u32)),
            Argument::Word(#[verifier::truncate] (outer as u32)),
            Argument::Word(#[verifier::truncate] (inner as u32)),
            Argument::Word(#[verifier::truncate] (outer as u32)),
        ],
        threadgroup_bytes: 0,
        groups: MTLSize::plane(tiles, tiles),
        threads: MTLSize::plane(16, 16),
    };
    assert(r@ =~= matmul_launch(*b, n, d));
    r
}

/// The launches of a fit bind only buffers that exist.
pub proof fn lemma_fit_launches_bound(start: Seq<u64>, n: usize, d: usize)
    requires
        start.len() + 6 <= usize::MAX,
    ensures
        ({
            let ledger = start + fit_sizes(n, d);
            let b = fit_buffers(start.len(), n, d);
            &&& mean_launch(b, n, d).bound_in(ledger)
            &&& mean_final_launch(b, n, d).bound_in(ledger)
            &&& center_launch(b, n, d).bound_in(ledger)
            &&& transpose_launch(b, n, d).bound_in(ledger)
            &&& matmul_launch(b, n, d).bound_in(ledger)
        }),
{
    lemma_buffers_held(start, fit_sizes(n, d));
}

/// The matrix that is decomposed is never larger than the data.
pub proof fn lemma_gram_fits(n: usize, d: usize)
    ensures
        gram_dim(n, d) <= n,
        gram_dim(n, d) <= d,
        0 <= gram_dim(n, d) * gram_dim(n, d) <= n * d,
{
    let m = gram_dim(n, d) as int;
    assert(0 <= m * m <= n * d) by (nonlinear_arith)
        requires
            0 <= m <= n,
            m <= d,
    ;
}

/// Whether the matrix of order `m` is decomposed by Jacobi rotations.
pub fn uses_jacobi(m: usize) -> (r: bool)
    ensures
        r == (m <= JACOBI_LIMIT),
{
    m <= JACOBI_LIMIT
}

/// Twice the number of pairs that come before `(p, q)` in a sweep over the pairs of `0..m`.
pub open spec fn pair_rank(m: int, p: int, q: int) -> int {
    p * (2 * m - p - 1) + 2 * (q - p - 1)
}

/// The pair after `(p, q)` in a sweep over the pairs of `0..m`.
pub open spec fn next_pair(m: usize, p: usize, q: usize) -> Option<(usize, usize)> {
    if q + 1 < m {
        Some((p, (q + 1) as usize))
    } else if p + 2 < m {
        Some(((p + 1) as usize, (p + 2) as usize))
    } else {
        None
    }
}

/// A sweep goes over every pair once: each pair has the next rank after the one before it,
/// and the last one the highest.
pub proof fn lemma_sweep_order(m: usize, p: usize, q: usize)
    requires
        p < q < m,
    ensures
        0 <= pair_rank(m as int, p as int, q as int) <= m * (m - 1) - 2,
        pair_rank(m as int, 0, 1) == 0,
        match next_pair(m, p, q) {
            Some(next) => next.0 < next.1 < m && pair_rank(
                m as int,
                next.0 as int,
                next.1 as int,
            ) == pair_rank(m as int, p as int, q as int) + 2,
            None => pair_rank(m as int, p as int, q as int) == m * (m - 1) - 2,
        },
{
    let a = m as int;
    let b = p as int;
    let c = q as int;
    assert(b * (2 * a - b - 1) >= 0) by (nonlinear_arith)
        requires
            0 <= b < a,
    ;
    assert(0int * (2 * a - 0 - 1) == 0);
    let rest = a - b - 1;
    assert(b * (2 * a - b - 1) + rest * (rest + 1) == a * (a - 1)) by (nonlinear_arith)
        requires
            rest == a - b - 1,
    ;
    assert(rest * (rest + 1) >= 2 * (c - b)) by (nonlinear_arith)
        requires
            1 <= c - b <= rest,
    ;
    if c + 1 >= a {
        if b + 2 < a {
            assert((b + 1) * (2 * a - (b + 1) - 1) == b * (2 * a - b - 1) + 2 * (a - b - 1)) by (
            nonlinear_arith);
        } else {
            assert(rest * (rest + 1) == 2) by (nonlinear_arith)
                requires
                    rest == 1,
            ;
        }
    }
}

/// Two different pairs have different ranks.
pub proof fn lemma_pair_rank_injective(m: int, p1: int, q1: int, p2: int, q2: int)
    requires
        0 <= p1 < q1 < m,
        0 <= p2 < q2 < m,
        pair_rank(m, p1, q1) == pair_rank(m, p2, q2),
    ensures
        p1 == p2,
        q1 == q2,
{
    if p1 < p2 {
        lemma_rank_below(m, p1, q1, p2, q2);
    }
    if p2 < p1 {
        lemma_rank_below(m, p2, q2, p1, q1);
    }
}

proof fn lemma_rank_below(m: int, p1: int, q1: int, p2: int, q2: int)
    requires
        0 <= p1 < q1 < m,
        0 <= p2 < q2 < m,
        p1 < p2,
    ensures
        pair_rank(m, p1, q1) < pair_rank(m, p2, q2),
{
    let step = p2 - p1;
    assert(p2 * (2 * m - p2 - 1) - p1 * (2 * m - p1 - 1) == step * (2 * m - p1 - p2 - 1)) by (
    nonlinear_arith)
        requires
            step == p2 - p1,
    ;
    assert(step * (2 * m - p1 - p2 - 1) >= 2 * (m - p1) - step - 1) by (nonlinear_arith)
        requires
            step == p2 - p1,
            step >= 1,
            p2 < m,
            2 * m - p1 - p2 - 1 >= 1,
    {
        let width = 2 * m - p1 - p2 - 1;
        assert(width == 2 * (m - p1) - step - 1);
        assert(step * width >= width) by (nonlinear_arith)
            requires
                step >= 1,
                width >= 1,
        ;
    }
    lemma_rank_gap(m, p1, p2);
}

proof fn lemma_rank_gap(m: int, p1: int, p2: int)
    requires
        0 <= p1 < p2 < m,
    ensures
        p2 * (2 * m - p2 - 1) >= p1 * (2 * m - p1 - 1) + 2 * (m - p1 - 1),
    decreases p2 - p1,
{
    assert(p2 * (2 * m - p2 - 1) == (p2 - 1) * (2 * m - (p2 - 1) - 1) + 2 * (m - p2)) by (
    nonlinear_arith);
    if p1 < p2 - 1 {
        lemma_rank_gap(m, p1, p2 - 1);
    }
}

/// The order of Jacobi rotations on a matrix of order `m`: sweeps over all pairs, until a
/// sweep rotates none or the sweeps are used up.
#[derive(Clone, Copy, Debug)]
pub struct Jacobi {
    pub m: usize,
    /// Sweeps done.
    pub sweeps: u32,
    /// The pair that comes next, unless all is done.
    pub pair: Option<(usize, usize)>,
    /// Whether the running sweep has rotated a pair.
    pub rotated: bool,
}

impl Jacobi {
    pub open spec fn wf(&self) -> bool {
        &&& self.sweeps <= SWEEP_LIMIT
        &&& self.pair matches Some(pair) ==> pair.0 < pair.1 < self.m && self.sweeps < SWEEP_LIMIT
    }

    /// The start of the first sweep.
    pub fn new(m: usize) -> (r: Jacobi)
        ensures
            r.wf(),
            r == (Jacobi {
                m,
                sweeps: 0,
                pair: if m >= 2 {
                    Some((0usize, 1usize))
                } else {
                    None
                },
                rotated: false,
            }),
    {
        let pair: Option<(usize, usize)> = if m >= 2 {
            Some((0, 1))
        } else {
            None
        };
        Jacobi { m, sweeps: 0, pair, rotated: false }
    }

    /// Whether a pair is rotated: the magnitude of its entry is not at most `threshold`.
    pub fn rotates(entry: Float32, threshold: Float32) -> (r: bool)
        ensures
            r == !entry.abs_value().le(threshold),
    {
        !entry.abs().at_most(threshold)
    }

    /// Goes on after the pair that came next, which was rotated or not.
    pub fn advance(&mut self, rotated: bool)
        requires
            old(self).wf(),
            old(self).pair is Some,
        ensures
            final(self).wf(),
            final(self).m == old(self).m,
            old(self).pair matches Some(pair) && match next_pair(old(self).m, pair.0, pair.1) {
                Some(next) => {
                    &&& final(self).pair == Some(next)
                    &&& final(self).sweeps == old(self).sweeps
                    &&& final(self).rotated == (old(self).rotated || rotated)
                },
                None => {
                    &&& final(self).sweeps == old(self).sweeps + 1
                    &&& !final(self).rotated
                    &&& final(self).pair == (if (old(self).rotated || rotated) && old(self).sweeps
                        + 1 < SWEEP_LIMIT {
                        Some((0usize, 1usize))
                    } else {
                        None
                    })
                },
            },
    {
        match self.pair {
            None => {},
            Some((p, q)) => {
                let any: bool = self.rotated || rotated;
                if q + 1 < self.m {
                    self.pair = Some((p, q + 1));
                    self.rotated = any;
                } else if p + 2 < self.m {
                    self.pair = Some((p + 1, p + 2));
                    self.rotated = any;
                } else {
                    self.sweeps = self.sweeps + 1;
                    self.rotated = false;
                    if any && self.sweeps < SWEEP_LIMIT {
                        self.pair = Some((0, 1));
                    } else {
                        self.pair = None;
                    }
                }
            },
        }
    }
}

/// The pipelines that principal component analysis uses.
pub fn pipelines() -> (r: PipelineCache)
    ensures
        r.wf(),
        r.entry(Kernel::PcaMean) == Some(None::<usize>),
        r.entry(Kernel::PcaMeanFinal) == Some(None::<usize>),
        r.entry(Kernel::PcaCenter) == Some(None::<usize>),
        r.entry(Kernel::PcaTranspose) == Some(None::<usize>),
        r.entry(Kernel::PcaMatmul) == Some(None::<usize>),
        r.entry(Kernel::PcaTransform) == Some(None::<usize>),
{
    let kernels: Vec<Kernel> = vec![
        Kernel::PcaMean,
        Kernel::PcaMeanFinal,
        Kernel::PcaCenter,
        Kernel::PcaTranspose,
        Kernel::PcaMatmul,
        Kernel::PcaTransform,
    ];
    assert(kernels@[0] == Kernel::PcaMean);
    assert(kernels@[1] == Kernel::PcaMeanFinal);
    assert(kernels@[2] == Kernel::PcaCenter);
    assert(kernels@[3] == Kernel::PcaTranspose);
    assert(kernels@[4] == Kernel::PcaMatmul);
    assert(kernels@[5] == Kernel::PcaTransform);
    PipelineCache::new(kernels)
}

/// Variances taken from eigenvalues that ascend never increase.
pub proof fn lemma_variance_descends(values: Seq<Float32>, k: int, a: int, b: int)
    requires
        0 <= k <= values.len(),
        forall|i: int, j: int|
            0 <= i <= j < values.len() ==> (#[trigger] values[i]).le(#[trigger] values[j]),
        0 <= a <= b < k,
    ensures
        leading(values, k)[b].le(leading(values, k)[a]),
{
}

/// The last `k` places of `0..m`.
pub open spec fn last_places(m: int, k: int) -> Seq<usize> {
    Seq::new(k as nat, |j: int| (m - k + j) as usize)
}

impl PCA {
    pub fn new(config: PCAConfig) -> (r: PCA)
        ensures
            r.config == config,
            r.components@ == Seq::<Float32>::empty(),
            r.explained_variance@ == Seq::<Float32>::empty(),
            r.explained_variance_ratio@ == Seq::<Float32>::empty(),
            r.mean@ == Seq::<Float32>::empty(),
            r.singular_values@ == Seq::<Float32>::empty(),
            r.noise_variance.bits == 0,
            r.n == 0,
            r.d == 0,
            r.pipelines.wf(),
            r.pipelines.entry(Kernel::PcaMean) == Some(None::<usize>),
            r.pipelines.entry(Kernel::PcaMeanFinal) == Some(None::<usize>),
            r.pipelines.entry(Kernel::PcaCenter) == Some(None::<usize>),
            r.pipelines.entry(Kernel::PcaTranspose) == Some(None::<usize>),
            r.pipelines.entry(Kernel::PcaMatmul) == Some(None::<usize>),
            r.pipelines.entry(Kernel::PcaTransform) == Some(None::<usize>),
    {
        PCA {
            config,
            components: Vec::new(),
            explained_variance: Vec::new(),
            explained_variance_ratio: Vec::new(),
            mean: Vec::new(),
            singular_values: Vec::new(),
            noise_variance: Float32::zero(),
            n: 0,
            d: 0,
            pipelines: pipelines(),
        }
    }

    pub fn components(&self) -> (r: &[Float32])
        ensures
            r@ == self.components@,
    {
        self.components.as_slice()
    }

    pub fn explained_variance(&self) -> (r: &[Float32])
        ensures
            r@ == self.explained_variance@,
    {
        self.explained_variance.as_slice()
    }

    pub fn explained_variance_ratio(&self) -> (r: &[Float32])
        ensures
            r@ == self.explained_variance_ratio@,
    {
        self.explained_variance_ratio.as_slice()
    }

    pub fn mean(&self) -> (r: &[Float32])
        ensures
            r@ == self.mean@,
    {
        self.mean.as_slice()
    }

    pub fn singular_values(&self) -> (r: &[Float32])
        ensures
            r@ == self.singular_values@,
    {
        self.singular_values.as_slice()
    }

    pub fn noise_variance(&self) -> (r: Float32)
        ensures
            r == self.noise_variance,
    {
        self.noise_variance
    }

    pub fn n_features(&self) -> (r: usize)
        ensures
            r == self.d,
    {
        self.d
    }

    pub fn n_samples(&self) -> (r: usize)
        ensures
            r == self.n,
    {
        self.n
    }

    /// Starts a fit on `n` rows of `d` columns: the passes that build the matrix to decompose.
    pub fn fit(&mut self, ctx: &mut MetalContext, data: &[Float32], n: usize, d: usize) -> (r: Result<
        FitPass,
        PCAError,
    >)
        requires
            4 * data@.len() <= usize::MAX,
        ensures
            match fit_refusal(old(self).config, data@.len() as usize, n, d) {
                Some(e) => r == Err::<FitPass, PCAError>(e) && *final(self) == *old(self)
                    && *final(ctx) == *old(ctx),
                None => r matches Ok(pass) && {
                    &&& final(ctx)@ == old(ctx)@ + fit_sizes(n, d)
                    &&& pass.buffers == fit_buffers(old(ctx)@.len(), n, d)
                    &&& pass.mean@ == mean_launch(pass.buffers, n, d)
                    &&& pass.mean_final@ == mean_final_launch(pass.buffers, n, d)
                    &&& pass.center@ == center_launch(pass.buffers, n, d)
                    &&& pass.transpose@ == transpose_launch(pass.buffers, n, d)
                    &&& pass.matmul@ == matmul_launch(pass.buffers, n, d)
                    &&& *final(self) == (PCA { n, d, ..*old(self) })
                },
            },
    {
        if n == 0 || d == 0 {
            return Err(PCAError::Empty);
        }
        if !is_matrix(data.len(), n, d) {
            return Err(PCAError::DataLength);
        }
        if self.config.n_components == 0 || self.config.n_components > d {
            return Err(PCAError::Components { d });
        }
        let len: usize = data.len();
        proof {
            lemma_matrix_bounds(data@.len() as int, n as int, d as int);
            lemma_gram_fits(n, d);
            lemma_groups_cover(n as int, 256);
            let blocks = groups_of(n as int, 256);
            assert(0 <= blocks * d <= n * d) by (nonlinear_arith)
                requires
                    0 <= blocks <= n,
                    0 < d,
            ;
        }
        self.n = n;
        self.d = d;
        let m: usize = if n < d {
            n
        } else {
            d
        };
        let blocks: u64 = group_count(n as u64, 256);
        let ghost start = ctx@;
        let data_buffer: Buffer = ctx.new_buffer(len);
        let means: Buffer = ctx.new_buffer_uninitialized((d * 4) as u64);
        let block_sums: Buffer = ctx.new_buffer_uninitialized(blocks * (d as u64) * 4);
        let centered: Buffer = ctx.new_buffer_uninitialized((n * d * 4) as u64);
        let gram: Buffer = ctx.new_buffer_uninitialized((m * m * 4) as u64);
        let centered_t: Buffer = ctx.new_buffer_uninitialized((n * d * 4) as u64);
        assert(ctx@ =~= start + fit_sizes(n, d));
        let buffers = FitBuffers {
            data: data_buffer,
            means,
            block_sums,
            centered,
            gram,
            centered_t,
        };
        Ok(
            FitPass {
                buffers,
                mean: launch_mean(&buffers, n, d),
                mean_final: launch_mean_final(&buffers, n, d),
                center: launch_center(&buffers, n, d),
                transpose: launch_transpose(&buffers, n, d),
                matmul: launch_matmul(&buffers, n, d),
            },
        )
    }

    /// Whether the eigenvectors are those of the smaller matrix of products between rows, so
    /// that the components are still to be made from them.
    pub fn from_rows(&self) -> (r: bool)
        ensures
            r == gram_path(self.n, self.d),
    {
        self.n < self.d
    }

    /// How many eigenvalues belong to no component: the variance of the noise is their mean,
    /// and zero where there is none.
    pub fn noise_count(&self) -> (r: usize)
        ensures
            r == gram_dim(self.n, self.d) - component_count(
                self.config.n_components,
                self.n,
                self.d,
            ),
    {
        let m: usize = if self.n < self.d {
            self.n
        } else {
            self.d
        };
        m - self.component_count()
    }

    /// How many components the fit that is running gives.
    pub fn component_count(&self) -> (r: usize)
        ensures
            r == component_count(self.config.n_components, self.n, self.d),
    {
        let m: usize = if self.n < self.d {
            self.n
        } else {
            self.d
        };
        if self.config.n_components < m {
            self.config.n_components
        } else {
            m
        }
    }

    /// The eigenvectors of the `k` largest eigenvalues, in the last columns of a matrix of
    /// order `m`, still in ascending order.
    pub fn leading_columns(eigenvectors: &[Float32], m: usize, k: usize) -> (r: Vec<Float32>)
        requires
            eigenvectors@.len() == m * m,
            k <= m,
        ensures
            r@ == columns_of(eigenvectors@, m as int, m as int, last_places(m as int, k as int)),
    {
        let mut places: Vec<usize> = Vec::new();
        let mut j: usize = 0;
        while j < k
            invariant
                j <= k <= m,
                places@.len() == j,
                forall|i: int| 0 <= i < j ==> #[trigger] places@[i] == m - k + i,
            decreases k - j,
        {
            places.push(m - k + j);
            j += 1;
        }
        assert(places@ =~= last_places(m as int, k as int));
        pick_columns(eigenvectors, m, m, places.as_slice())
    }

    /// Ends a fit. `eigenvalues` ascend; `vectors` has the leading vectors as its columns, in
    /// the same order. The components are its columns as rows, by descending eigenvalue.
    pub fn finish(
        &mut self,
        mean: Vec<Float32>,
        eigenvalues: &[Float32],
        vectors: &[Float32],
        ratios: Vec<Float32>,
        singular_values: Vec<Float32>,
        noise_variance: Float32,
    )
        requires
            eigenvalues@.len() == gram_dim(old(self).n, old(self).d),
            vectors@.len() == old(self).d * component_count(
                old(self).config.n_components,
                old(self).n,
                old(self).d,
            ),
        ensures
            ({
                let k = component_count(old(self).config.n_components, old(self).n, old(self).d);
                &&& final(self).components@ == reversed_columns(
                    vectors@,
                    old(self).d as int,
                    k as int,
                )
                &&& final(self).explained_variance@ == leading(eigenvalues@, k as int)
            }),
            final(self).explained_variance_ratio == ratios,
            final(self).mean == mean,
            final(self).singular_values == singular_values,
            final(self).noise_variance == noise_variance,
            final(self).config == old(self).config,
            final(self).n == old(self).n,
            final(self).d == old(self).d,
            final(self).pipelines == old(self).pipelines,
    {
        let k: usize = self.component_count();
        self.components = reverse_columns(vectors, self.d, k);
        self.explained_variance = take_leading(eigenvalues, k);
        self.explained_variance_ratio = ratios;
        self.mean = mean;
        self.singular_values = singular_values;
        self.noise_variance = noise_variance;
    }

    /// The buffers and the launch that project `n` rows onto the components.
    pub fn transform(&self, ctx: &mut MetalContext, data: &[Float32], n: usize, d: usize) -> (r:
        Result<TransformPass, PCAError>)
        requires
            4 * data@.len() <= usize::MAX,
            4 * self.mean@.len() <= usize::MAX,
            4 * self.components@.len() <= usize::MAX,
            transform_refusal(
                self.d,
                self.components@.len(),
                self.config.n_components,
                data@.len() as usize,
                n,
                d,
            ) is None ==> {
                &&& 4 * (n * self.config.n_components) <= usize::MAX
                &&& n + 15 <= usize::MAX
                &&& self.config.n_components + 15 <= usize::MAX
            },
        ensures
            match transform_refusal(
                self.d,
                self.components@.len(),
                self.config.n_components,
                data@.len() as usize,
                n,
                d,
            ) {
                Some(e) => r == Err::<TransformPass, PCAError>(e) && *final(ctx) == *old(ctx),
                None => r matches Ok(pass) && {
                    let k = self.config.n_components;
                    let sizes = seq![
                        (4 * (n * d)) as u64,
                        (4 * self.mean@.len()) as u64,
                        (4 * self.components@.len()) as u64,
                        (4 * (n * k)) as u64,
                    ];
                    &&& final(ctx)@ == old(ctx)@ + sizes
                    &&& pass.x == buffer_at(old(ctx)@.len(), 0, sizes[0] as int)
                    &&& pass.means == buffer_at(old(ctx)@.len(), 1, sizes[1] as int)
                    &&& pass.components == buffer_at(old(ctx)@.len(), 2, sizes[2] as int)
                    &&& pass.out == buffer_at(old(ctx)@.len(), 3, sizes[3] as int)
                    &&& pass.launch@ == transform_launch(
                        pass.x,
                        pass.means,
                        pass.components,
                        pass.out,
                        n,
                        d,
                        k,
                    )
                    &&& pass.launch@.bound_in(final(ctx)@)
                },
            },
    {
        if d != self.d {
            return Err(PCAError::Dimension { expected: self.d, got: d });
        }
        if !is_matrix(data.len(), n, d) {
            return Err(PCAError::DataLength);
        }
        if self.components.len() == 0 {
            return Err(PCAError::NotFitted);
        }
        let k: usize = self.config.n_components;
        proof {
            lemma_rows_held(self.components@.len() as int, k as int, d as int);
        }
        if d > 0 && self.components.len() / d < k {
            return Err(PCAError::Found { components: self.components.len() / d, wanted: k });
        }
        let ghost start = ctx@;
        let x: Buffer = ctx.new_buffer(data.len());
        let means: Buffer = ctx.new_buffer(self.mean.len());
        let components: Buffer = ctx.new_buffer(self.components.len());
        let out: Buffer = ctx.new_buffer_uninitialized((n * k * 4) as u64);
        assert(ctx@ =~= start + seq![
            (4 * (n * d)) as u64,
            (4 * self.mean@.len()) as u64,
            (4 * self.components@.len()) as u64,
            (4 * (n * k)) as u64,
        ]);
        let launch = Launch {
            kernel: Kernel::PcaTransform,
            arguments: vec![
                Argument::Memory(x),
                Argument::Memory(means),
                Argument::Memory(components),
                Argument::Memory(out),
                Argument::Word(#[verifier::truncate] (n as u32)),
                Argument::Word(#[verifier::truncate] (d as u32)),
                Argument::Word(#[verifier::truncate] (k as u32)),
            ],
            threadgroup_bytes: 0,
            groups: MTLSize::plane(group_count(k as u64, 16), group_count(n as u64, 16)),
            threads: MTLSize::plane(16, 16),
        };
        assert(launch@ =~= transform_launch(x, means, components, out, n, d, k));
        Ok(TransformPass { x, means, components, out, launch })
    }
}

/// Where the columns are decomposed, component `j` is the eigenvector of the `j`-th largest
/// eigenvalue.
pub proof fn lemma_components_are_eigenvectors(
    eigenvectors: Seq<Float32>,
    m: int,
    k: int,
    j: int,
    i: int,
)
    requires
        0 < k <= m,
        m <= usize::MAX,
        eigenvectors.len() == m * m,
        0 <= j < k,
        0 <= i < m,
    ensures
        entry(
            reversed_columns(columns_of(eigenvectors, m, m, last_places(m, k)), m, k),
            m,
            j,
            i,
        ) == entry(eigenvectors, m, i, m - 1 - j),
{
    let places = last_places(m, k);
    lemma_matrix_index(k, m, j, i);
    lemma_matrix_position(m, j, i);
    let column = k - 1 - j;
    lemma_matrix_index(m, k, i, column);
    lemma_matrix_position(k, i, column);
}

/// What the passes of a fit bind and how far they reach: the means are taken over blocks of 256
/// rows with a thread for each feature, every entry is centred, and every entry is transposed.
pub proof fn lemma_fit_passes_reach_everything(b: FitBuffers, n: usize, d: usize)
    requires
        4 * d <= usize::MAX,
        n * d <= usize::MAX,
    ensures
        ({
            let l = mean_launch(b, n, d);
            &&& l.kernel == Kernel::PcaMean
            &&& l.arguments.len() == 6
            &&& l.arguments[0] == Argument::Memory(b.data)
            &&& l.arguments[1] == Argument::Memory(b.means)
            &&& l.arguments[2] == Argument::Memory(b.block_sums)
            &&& l.arguments[3] == Argument::Word(n as u32)
            &&& l.arguments[4] == Argument::Word(d as u32)
            &&& l.arguments[5] == Argument::Word(l.groups.width as u32)
            &&& l.threadgroup_bytes == 4 * d
            &&& l.groups.width * 256 >= n
            &&& l.groups.width * 256 < n + 256
            &&& l.groups.height == 1 && l.threads.height == 1
            &&& l.threads.width == d
        }),
        ({
            let l = mean_final_launch(b, n, d);
            &&& l.kernel == Kernel::PcaMeanFinal
            &&& l.arguments.len() == 5
            &&& l.arguments[0] == Argument::Memory(b.block_sums)
            &&& l.arguments[1] == Argument::Memory(b.means)
            &&& l.arguments[2] == mean_launch(b, n, d).arguments[5]
            &&& l.arguments[3] == Argument::Word(d as u32)
            &&& l.arguments[4] == Argument::Word(n as u32)
            &&& l.threadgroup_bytes == 0
            &&& l.groups == (MTLSize { width: 1, height: 1, depth: 1 })
            &&& l.threads.width == d
            &&& l.threads.height == 1 && l.threads.depth == 1
        }),
        ({
            let l = center_launch(b, n, d);
            &&& l.kernel == Kernel::PcaCenter
            &&& l.arguments.len() == 5
            &&& l.arguments[0] == Argument::Memory(b.data)
            &&& l.arguments[1] == Argument::Memory(b.means)
            &&& l.arguments[2] == Argument::Memory(b.centered)
            &&& l.arguments[3] == Argument::Word(n as u32)
            &&& l.arguments[4] == Argument::Word(d as u32)
            &&& l.threadgroup_bytes == 0
            &&& l.groups.width * l.threads.width >= n * d
            &&& l.groups.width * l.threads.width < n * d + 256
            &&& l.threads.width == 256
            &&& l.groups.height == 1 && l.threads.height == 1
        }),
        ({
            let l = transpose_launch(b, n, d);
            &&& l.kernel == Kernel::PcaTranspose
            &&& l.arguments.len() == 4
            &&& l.arguments[0] == Argument::Memory(b.centered)
            &&& l.arguments[1] == Argument::Memory(b.centered_t)
            &&& l.arguments[2] == Argument::Word(n as u32)
            &&& l.arguments[3] == Argument::Word(d as u32)
            &&& l.threadgroup_bytes == 0
            &&& l.groups.width * l.threads.width >= d
            &&& l.groups.height * l.threads.height >= n
            &&& l.threads.width == 16 && l.threads.height == 16
        }),
{
    assert(0 <= n * d) by (nonlinear_arith)
        requires
            0 <= n,
            0 <= d,
    ;
    lemma_line_covers(n as int, 256);
    lemma_line_covers(n * d, 256);
    lemma_tiles_cover(d as int, n as int);
}

/// The product is that of the centred rows with their transpose where rows are fewer than
/// features, and that of the transpose with the rows else. It has a thread for every entry.
pub proof fn lemma_product_of_the_smaller_side(b: FitBuffers, n: usize, d: usize)
    ensures
        n < d ==> ({
            let l = matmul_launch(b, n, d);
            &&& l.kernel == Kernel::PcaMatmul
            &&& l.arguments.len() == 8
            &&& l.arguments[0] == Argument::Memory(b.centered)
            &&& l.arguments[1] == Argument::Memory(b.centered_t)
            &&& l.arguments[2] == Argument::Memory(b.gram)
            &&& l.arguments[3] == Argument::Word(n as u32)
            &&& l.arguments[4] == Argument::Word(d as u32)
            &&& l.arguments[5] == Argument::Word(n as u32)
            &&& l.arguments[6] == Argument::Word(d as u32)
            &&& l.arguments[7] == Argument::Word(n as u32)
            &&& l.threadgroup_bytes == 0
            &&& l.groups.width * l.threads.width >= n
            &&& l.groups.height * l.threads.height >= n
            &&& l.threads.width == 16 && l.threads.height == 16
        }),
        n >= d ==> ({
            let l = matmul_launch(b, n, d);
            &&& l.kernel == Kernel::PcaMatmul
            &&& l.arguments.len() == 8
            &&& l.arguments[0] == Argument::Memory(b.centered_t)
            &&& l.arguments[1] == Argument::Memory(b.centered)
            &&& l.arguments[2] == Argument::Memory(b.gram)
            &&& l.arguments[3] == Argument::Word(d as u32)
            &&& l.arguments[4] == Argument::Word(n as u32)
            &&& l.arguments[5] == Argument::Word(d as u32)
            &&& l.arguments[6] == Argument::Word(n as u32)
            &&& l.arguments[7] == Argument::Word(d as u32)
            &&& l.threadgroup_bytes == 0
            &&& l.groups.width * l.threads.width >= d
            &&& l.groups.height * l.threads.height >= d
            &&& l.threads.width == 16 && l.threads.height == 16
        }),
        gram_path(n, d) <==> n < d,
        gram_dim(n, d) <= n && gram_dim(n, d) <= d,
        gram_dim(n, d) == n || gram_dim(n, d) == d,
{
    lemma_tiles_cover(n as int, n as int);
    lemma_tiles_cover(d as int, d as int);
}

/// The buffers of a fit, one after the other, each of the size of what it holds.
pub proof fn lemma_fit_buffers(start: nat, n: usize, d: usize)
    requires
        start + 6 <= usize::MAX,
        4 * (n * d) <= usize::MAX,
        4 * d <= usize::MAX,
        4 * (groups_of(n as int, 256) * d) <= usize::MAX,
    ensures
        ({
            let b = fit_buffers(start, n, d);
            &&& b.data.id == start && b.data.byte_len == 4 * (n * d)
            &&& b.means.id == start + 1 && b.means.byte_len == 4 * d
            &&& b.block_sums.id == start + 2 && b.block_sums.byte_len == 4 * (mean_launch(b, n, d).groups.width * d)
            &&& b.centered.id == start + 3 && b.centered.byte_len == 4 * (n * d)
            &&& b.gram.id == start + 4 && b.gram.byte_len == (if n < d {
                4 * (n * n)
            } else {
                4 * (d * d)
            })
            &&& b.centered_t.id == start + 5 && b.centered_t.byte_len == 4 * (n * d)
        }),
        fit_sizes(n, d).len() == 6,
{
    lemma_line_covers(n as int, 256);
    lemma_gram_fits(n, d);
    let g = groups_of(n as int, 256);
    assert(0 <= g && 0 <= n * d && 0 <= g * d) by (nonlinear_arith)
        requires
            g == groups_of(n as int, 256),
            g == (n + 256 - 1) / 256,
            0 <= n,
            0 <= d,
    ;
}

/// A projection binds rows, means, components and where the result goes, and has a thread for
/// every row and component.
pub proof fn lemma_transform_reaches_every_row(
    x: Buffer,
    means: Buffer,
    components: Buffer,
    out: Buffer,
    n: usize,
    d: usize,
    k: usize,
)
    ensures
        ({
            let l = transform_launch(x, means, components, out, n, d, k);
            &&& l.kernel == Kernel::PcaTransform
            &&& l.arguments.len() == 7
            &&& l.arguments[0] == Argument::Memory(x)
            &&& l.arguments[1] == Argument::Memory(means)
            &&& l.arguments[2] == Argument::Memory(components)
            &&& l.arguments[3] == Argument::Memory(out)
            &&& l.arguments[4] == Argument::Word(n as u32)
            &&& l.arguments[5] == Argument::Word(d as u32)
            &&& l.arguments[6] == Argument::Word(k as u32)
            &&& l.threadgroup_bytes == 0
            &&& l.groups.width * l.threads.width >= k
            &&& l.groups.height * l.threads.height >= n
            &&& l.threads.width == 16 && l.threads.height == 16
        }),
{
    lemma_tiles_cover(k as int, n as int);
}

/// As many components are kept as are wanted, but no more than rows and than features.
pub proof fn lemma_component_count(wanted: usize, n: usize, d: usize)
    ensures
        component_count(wanted, n, d) <= wanted,
        component_count(wanted, n, d) <= n,
        component_count(wanted, n, d) <= d,
        component_count(wanted, n, d) == wanted || component_count(wanted, n, d) == n
            || component_count(wanted, n, d) == d,
{
}

/// The next pair of a sweep comes after this one, row by row, with no pair in between. There is
/// none only after the last.
pub proof fn lemma_no_pair_skipped(m: usize, p: usize, q: usize, a: usize, b: usize)
    requires
        p < q < m,
        a < b < m,
    ensures
        match next_pair(m, p, q) {
            Some(next) => {
                &&& next.0 < next.1 < m
                &&& p < next.0 || p == next.0 && q < next.1
                &&& p < a || p == a && q < b ==> next.0 < a || next.0 == a && next.1 <= b
            },
            None => !(p < a || p == a && q < b),
        },
{
}

/// Rotations are taken for matrices of at most 128 rows, in at most 15 sweeps.
pub proof fn lemma_limits()
    ensures
        JACOBI_LIMIT == 128,
        SWEEP_LIMIT == 15,
{
}

/// When a fit and a projection are taken, and why not.
pub proof fn lemma_refusals(
    config: PCAConfig,
    len: usize,
    n: usize,
    d: usize,
    fitted_d: usize,
    components: nat,
    wanted: usize,
)
    ensures
        ({
            let r = fit_refusal(config, len, n, d);
            &&& r is None <==> (n > 0 && d > 0) && (len == n * d) && (1 <= config.n_components <= d)
            &&& !(n > 0 && d > 0) ==> r == Some(PCAError::Empty)
            &&& (n > 0 && d > 0) && !(len == n * d) ==> r == Some(PCAError::DataLength)
            &&& (n > 0 && d > 0) && (len == n * d) && !(1 <= config.n_components <= d) ==> r == Some(PCAError::Components { d })
        }),
        ({
            let r = transform_refusal(fitted_d, components, wanted, len, n, d);
            &&& r is None <==> (d == fitted_d) && (len == n * d) && (components > 0) && (components >= wanted * d)
            &&& !(d == fitted_d) ==> r == Some(PCAError::Dimension { expected: fitted_d, got: d })
            &&& (d == fitted_d) && !(len == n * d) ==> r == Some(PCAError::DataLength)
            &&& (d == fitted_d) && (len == n * d) && !(components > 0) ==> r == Some(PCAError::NotFitted)
            &&& (d == fitted_d) && (len == n * d) && (components > 0) && !(components >= wanted * d) ==> r == Some(PCAError::Found { components: (components as int / d as int) as usize, wanted })
        }),
{
}

} // verus!
