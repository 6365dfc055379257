//! k-means clustering by Lloyd's algorithm, seeded by k-means++.
//!
//! The device assigns points to centroids and sums them up; the host divides. Which kernel
//! runs and how it is launched, which points become the first centroids, what becomes of an
//! empty cluster and when the iteration ends is decided here.

use vstd::prelude::*;
use crate::float::Float32;
use crate::metal::{group_count, Argument, Buffer, Kernel, Launch, MTLSize, MetalContext};
use crate::rng::Rng;
use crate::seeding::Seeding;
use crate::select::sup_norm;
use crate::shape::is_matrix;
#[allow(unused_imports)]
use crate::metal::{buffer_at, groups_of, lemma_groups_cover, lemma_line_covers, line, LaunchView, THREADGROUP_MEMORY};
#[allow(unused_imports)]
use crate::select::{greatest_magnitude, lemma_greatest_magnitude_unique};
#[allow(unused_imports)]
use crate::shape::{lemma_matrix_bounds, lemma_matrix_index, lemma_matrix_position};

verus! {

#[derive(Clone, Debug)]
pub struct KMeansConfig {
    pub k: usize,
    pub max_iterations: usize,
    pub tolerance: Float32,
    pub seed: u64,
    pub init_centroids: Option<Vec<Float32>>,
}

impl Default for KMeansConfig {
    /// Eight clusters, 100 iterations, tolerance 1e-4, seed 42, k-means++.
    fn default() -> (r: KMeansConfig)
        ensures
            r.k == 8,
            r.max_iterations == 100,
            r.tolerance == (Float32 { bits: 0x38d1_b717 }),
            r.seed == 42,
            r.init_centroids is None,
    {
        KMeansConfig {
            k: 8,
            max_iterations: 100,
            tolerance: Float32 { bits: 0x38d1_b717 },
            seed: 42,
            init_centroids: None,
        }
    }
}

/// Why a fit was refused.
#[derive(Clone, Copy, Debug, PartialEq, Eq, Structural)]
pub enum KMeansError {
    InvalidParameters { n: usize, d: usize, k: usize },
    DataLength { n: usize, d: usize, got: usize },
    InitLength { k: usize, d: usize, got: usize },
}

pub struct KMeans {
    pub config: KMeansConfig,
    pub centroids: Vec<Float32>,
    pub inertia: Float32,
    pub n_iter: usize,
    pub labels: Vec<usize>,
}

/// How points are assigned to centroids.
#[derive(Clone, Copy, Debug, PartialEq, Eq, Structural)]
pub enum AssignKernel {
    Naive,
    Simdgroup,
    SimdgroupC16,
    SplitD,
}

/// The bytes of threadgroup memory that a kernel takes for `d` dimensions.
pub open spec fn assign_bytes(kernel: AssignKernel, d: int) -> int {
    match kernel {
        AssignKernel::Naive => 0,
        AssignKernel::Simdgroup => 4 * (16 * d + ((d + 7) / 8) * 64 + 16),
        AssignKernel::SimdgroupC16 => 4 * (24 * d + ((d + 7) / 8) * 128 + 16),
        AssignKernel::SplitD => 1024,
    }
}

/// How points of `d` dimensions are assigned to `k` centroids: by tiles of eight dimensions
/// where the dimensions fill them and the tiles fit threadgroup memory, in parts where they
/// do not fit, and point by point where they do not fill them.
pub open spec fn assign_kernel(k: usize, d: usize) -> AssignKernel {
    if k == 0 || d < 8 || d % 8 != 0 {
        AssignKernel::Naive
    } else if k <= 16 && assign_bytes(AssignKernel::SimdgroupC16, d as int) <= 32768 {
        AssignKernel::SimdgroupC16
    } else if assign_bytes(AssignKernel::Simdgroup, d as int) <= 32768 {
        AssignKernel::Simdgroup
    } else {
        AssignKernel::SplitD
    }
}

/// How points of `d` dimensions are assigned to `k` centroids.
pub fn pick_assign_kernel(k: usize, d: usize) -> (r: AssignKernel)
    requires
        160 * d + 64 <= usize::MAX,
    ensures
        r == assign_kernel(k, d),
{
    if k == 0 || d < 8 || d % 8 != 0 {
        return AssignKernel::Naive;
    }
    let tiles: usize = (d + 7) / 8;
    if k <= 16 {
        let shared: usize = (24 * d + tiles * 128 + 16) * 4;
        if shared <= 32768 {
            return AssignKernel::SimdgroupC16;
        }
    }
    let shared: usize = (16 * d + tiles * 64 + 16) * 4;
    if shared <= 32768 {
        return AssignKernel::Simdgroup;
    }
    AssignKernel::SplitD
}

/// The kernel that is picked fits the memory of a threadgroup.
pub proof fn lemma_picked_kernel_fits(k: usize, d: usize)
    ensures
        0 <= assign_bytes(assign_kernel(k, d), d as int) <= THREADGROUP_MEMORY,
{
}

impl AssignKernel {
    /// The device function of this kernel.
    pub open spec fn spec_kernel(self) -> Kernel {
        match self {
            AssignKernel::Naive => Kernel::KmeansAssign,
            AssignKernel::Simdgroup => Kernel::KmeansAssignSimdgroup,
            AssignKernel::SimdgroupC16 => Kernel::KmeansAssignSimdgroupC16,
            AssignKernel::SplitD => Kernel::KmeansAssignSplitd,
        }
    }

    /// The device function of this kernel.
    pub fn kernel(self) -> (r: Kernel)
        ensures
            r == self.spec_kernel(),
    {
        match self {
            AssignKernel::Naive => Kernel::KmeansAssign,
            AssignKernel::Simdgroup => Kernel::KmeansAssignSimdgroup,
            AssignKernel::SimdgroupC16 => Kernel::KmeansAssignSimdgroupC16,
            AssignKernel::SplitD => Kernel::KmeansAssignSplitd,
        }
    }

    /// How many points one threadgroup of this kernel assigns.
    pub open spec fn points_per_group(self) -> int {
        match self {
            AssignKernel::Naive => 256,
            AssignKernel::Simdgroup => 8,
            AssignKernel::SimdgroupC16 => 8,
            AssignKernel::SplitD => 128,
        }
    }

    /// How many threads one threadgroup of this kernel has.
    pub open spec fn threads_per_group(self) -> int {
        match self {
            AssignKernel::Naive => 256,
            _ => 128,
        }
    }
}

/// Whether a kernel reads the squared norms of points and centroids.
pub open spec fn uses_norms(kernel: AssignKernel) -> bool {
    !(kernel is Naive)
}

/// Whether a kernel reads the squared norms of points and centroids.
pub fn kernel_uses_norms(kernel: &AssignKernel) -> (r: bool)
    ensures
        r == uses_norms(*kernel),
{
    match kernel {
        AssignKernel::Naive => false,
        _ => true,
    }
}

/// Groups of 128 points, with a thread each.
pub fn dispatch_splitd(n: usize) -> (r: (MTLSize, MTLSize))
    requires
        n + 127 <= u64::MAX,
    ensures
        r.0 == line(groups_of(n as int, 128)),
        r.1 == line(128),
{
    (MTLSize::line(group_count(n as u64, 128)), MTLSize::line(128))
}

/// Groups of 8 points, with 128 threads.
pub fn dispatch_simdgroup(n: usize) -> (r: (MTLSize, MTLSize))
    requires
        n + 7 <= u64::MAX,
    ensures
        r.0 == line(groups_of(n as int, 8)),
        r.1 == line(128),
{
    (MTLSize::line(group_count(n as u64, 8)), MTLSize::line(128))
}

/// Groups of 256 points, with a thread each.
pub fn dispatch_naive(n: usize) -> (r: (MTLSize, MTLSize))
    requires
        n + 255 <= u64::MAX,
    ensures
        r.0 == line(groups_of(n as int, 256)),
        r.1 == line(256),
{
    (MTLSize::line(group_count(n as u64, 256)), MTLSize::line(256))
}

/// The grid of a kernel for `n` points.
pub fn dispatch_for(kernel: &AssignKernel, n: usize) -> (r: (MTLSize, MTLSize))
    requires
        n + kernel.points_per_group() - 1 <= u64::MAX,
    ensures
        r.0 == line(groups_of(n as int, kernel.points_per_group())),
        r.1 == line(kernel.threads_per_group()),
{
    match kernel {
        AssignKernel::Naive => dispatch_naive(n),
        AssignKernel::Simdgroup => dispatch_simdgroup(n),
        AssignKernel::SimdgroupC16 => dispatch_simdgroup(n),
        AssignKernel::SplitD => dispatch_splitd(n),
    }
}

/// Whatever kernel runs, its groups reach every point, and none is idle.
pub proof fn lemma_assignment_covers(kernel: AssignKernel, n: int)
    requires
        n >= 0,
    ensures
        groups_of(n, kernel.points_per_group()) * kernel.points_per_group() >= n,
        (groups_of(n, kernel.points_per_group()) - 1) * kernel.points_per_group() < n,
{
    lemma_groups_cover(n, kernel.points_per_group());
}

/// The buffers that an assignment reads and writes.
#[derive(Clone, Copy, Debug, PartialEq, Eq, Structural)]
pub struct AssignBuffers {
    pub points: Buffer,
    pub centroids: Buffer,
    pub assignments: Buffer,
    pub distances: Buffer,
    pub norms_x: Option<Buffer>,
    pub norms_c: Option<Buffer>,
}

/// The launch that assigns `n` points to `k` centroids.
pub open spec fn assign_launch(
    kernel: AssignKernel,
    b: AssignBuffers,
    n: usize,
    k: usize,
    d: usize,
) -> LaunchView {
    let shared = seq![
        Argument::Memory(b.points),
        Argument::Memory(b.centroids),
        Argument::Memory(b.assignments),
        Argument::Memory(b.distances),
    ];
    let sizes = seq![Argument::Word(n as u32), Argument::Word(k as u32), Argument::Word(d as u32)];
    LaunchView {
        kernel: kernel.spec_kernel(),
        arguments: if uses_norms(kernel) {
            shared + seq![Argument::Memory(b.norms_x->0), Argument::Memory(b.norms_c->0)] + sizes
                + seq![Argument::Word(kernel.threads_per_group() as u32)]
        } else {
            shared + sizes
        },
        threadgroup_bytes: assign_bytes(kernel, d as int) as u64,
        groups: line(groups_of(n as int, kernel.points_per_group())),
        threads: line(kernel.threads_per_group()),
    }
}

/// The launch that assigns `n` points to `k` centroids.
pub fn encode_assign(kernel: &AssignKernel, b: &AssignBuffers, n: usize, k: usize, d: usize) -> (r:
    Launch)
    requires
        n + 255 <= usize::MAX,
        160 * d + 512 <= usize::MAX,
        uses_norms(*kernel) ==> b.norms_x is Some && b.norms_c is Some,
    ensures
        r@ == assign_launch(*kernel, *b, n, k, d),
{
    let (groups, threads) = dispatch_for(kernel, n);
    let mut arguments: Vec<Argument> = vec![
        Argument::Memory(b.points),
        Argument::Memory(b.centroids),
        Argument::Memory(b.assignments),
        Argument::Memory(b.distances),
    ];
    if let Some(norms_x) = b.norms_x {
        if let Some(norms_c) = b.norms_c {
            if kernel_uses_norms(kernel) {
                arguments.push(Argument::Memory(norms_x));
                arguments.push(Argument::Memory(norms_c));
            }
        }
    }
    arguments.push(Argument::Word(#[verifier::truncate] (n as u32)));
    arguments.push(Argument::Word(#[verifier::truncate] (k as u32)));
    arguments.push(Argument::Word(#[verifier::truncate] (d as u32)));
    let tiles: usize = (d + 7) / 8;
    let mut bytes: u64 = 0;
    match kernel {
        AssignKernel::Naive => {},
        AssignKernel::Simdgroup => {
            arguments.push(Argument::Word(#[verifier::truncate] (threads.width as u32)));
            bytes = (16 * d + tiles * 64 + 16) as u64 * 4;
        },
        AssignKernel::SimdgroupC16 => {
            arguments.push(Argument::Word(#[verifier::truncate] (threads.width as u32)));
            bytes = (24 * d + tiles * 128 + 16) as u64 * 4;
        },
        AssignKernel::SplitD => {
            arguments.push(Argument::Word(#[verifier::truncate] (threads.width as u32)));
            bytes = 256u64 * 4;
        },
    }
    let r = Launch {
        kernel: kernel.kernel(),
        arguments,
        threadgroup_bytes: bytes,
        groups,
        threads,
    };
    assert(r@ =~= assign_launch(*kernel, *b, n, k, d));
    r
}

/// The bytes of threadgroup memory in which the device sums up clusters.
pub open spec fn update_bytes(k: int, d: int) -> int {
    4 * (k * d + k)
}

/// The launch that sums up the points of each cluster.
pub open spec fn update_launch(
    points: Buffer,
    assignments: Buffer,
    sums: Buffer,
    counts: Buffer,
    n: usize,
    k: usize,
    d: usize,
) -> LaunchView {
    LaunchView {
        kernel: Kernel::KmeansCentroidTiled,
        arguments: seq![
            Argument::Memory(points),
            Argument::Memory(assignments),
            Argument::Memory(sums),
            Argument::Memory(counts),
            Argument::Word(n as u32),
            Argument::Word(k as u32),
            Argument::Word(d as u32),
        ],
        threadgroup_bytes: update_bytes(k as int, d as int) as u64,
        groups: line(groups_of(n as int, 128)),
        threads: line(128),
    }
}

/// The launch that finds each point's distance to the nearest of the first `c` centroids.
pub open spec fn min_distance_launch(
    points: Buffer,
    centroids: Buffer,
    distances: Buffer,
    n: usize,
    c: usize,
    d: usize,
) -> LaunchView {
    LaunchView {
        kernel: Kernel::KmeansComputeMinDistances,
        arguments: seq![
            Argument::Memory(points),
            Argument::Memory(centroids),
            Argument::Memory(distances),
            Argument::Word(n as u32),
            Argument::Word(c as u32),
            Argument::Word(d as u32),
        ],
        threadgroup_bytes: 0,
        groups: line(groups_of(n as int, 256)),
        threads: line(256),
    }
}

/// The kernel and the lasting buffers of a fit.
#[derive(Clone, Copy, Debug, PartialEq, Eq, Structural)]
pub struct FitPlan {
    pub kernel: AssignKernel,
    pub points: Buffer,
    pub assignments: Buffer,
    pub distances: Buffer,
    pub norms_x: Option<Buffer>,
    /// Whether the device sums up the clusters; else the host does.
    pub device_update: bool,
}

/// The sizes in bytes of the lasting buffers, in the order in which they are made.
pub open spec fn fit_sizes(n: int, d: int, kernel: AssignKernel) -> Seq<u64> {
    let always = seq![(4 * (n * d)) as u64, (4 * n) as u64, (4 * n) as u64];
    if uses_norms(kernel) {
        always.push((4 * n) as u64)
    } else {
        always
    }
}

/// The plan of a fit, where its first buffer comes after `start` others.
pub open spec fn fit_plan(start: nat, n: usize, d: usize, k: usize) -> FitPlan {
    let kernel = assign_kernel(k, d);
    FitPlan {
        kernel,
        points: buffer_at(start, 0, 4 * (n * d)),
        assignments: buffer_at(start, 1, 4 * n),
        distances: buffer_at(start, 2, 4 * n),
        norms_x: if uses_norms(kernel) {
            Some(buffer_at(start, 3, 4 * n))
        } else {
            None
        },
        device_update: update_bytes(k as int, d as int) <= 32768,
    }
}

/// Why a fit is refused, if it is.
pub open spec fn fit_refusal(config: KMeansConfig, len: usize, n: usize, d: usize) -> Option<
    KMeansError,
> {
    if d == 0 || n == 0 || config.k == 0 || config.k > n {
        Some(KMeansError::InvalidParameters { n, d, k: config.k })
    } else if len != n * d {
        Some(KMeansError::DataLength { n, d, got: len })
    } else {
        match config.init_centroids {
            Some(init) => if init@.len() != config.k * d {
                Some(
                    KMeansError::InitLength { k: config.k, d, got: init@.len() as usize },
                )
            } else {
                None
            },
            None => None,
        }
    }
}

/// The buffers and the launch of one assignment.
pub struct AssignPass {
    pub buffers: AssignBuffers,
    pub launch: Launch,
}

/// The buffers and the launch of one update on the device.
pub struct UpdatePass {
    pub sums: Buffer,
    pub counts: Buffer,
    pub launch: Launch,
}

/// The centroids after an update, given the mean of each cluster: an empty cluster has its
/// centroid at the origin.
pub open spec fn updated(means: Seq<Float32>, counts: Seq<i32>, d: int) -> Seq<Float32> {
    Seq::new(
        means.len(),
        |i: int|
            if counts[i / d] > 0 {
                means[i]
            } else {
                Float32 { bits: 0 }
            },
    )
}

/// The centroids after an update, given the mean of each cluster.
pub fn update_centroids(means: &[Float32], counts: &[i32], d: usize) -> (r: Vec<Float32>)
    requires
        d > 0,
        means@.len() == counts@.len() * d,
    ensures
        r@ == updated(means@, counts@, d as int),
        r@.len() == means@.len(),
        forall|c: int, dim: int|
            #![trigger means@[c * d + dim]]
            0 <= c < counts@.len() && 0 <= dim < d && counts@[c] >= 1 ==> r@[c * d + dim]
                == means@[c * d + dim],
        forall|c: int, dim: int|
            #![trigger r@[c * d + dim]]
            0 <= c < counts@.len() && 0 <= dim < d && counts@[c] <= 0 ==> r@[c * d + dim].bits
                == 0,
{
    let len: usize = means.len();
    let mut r: Vec<Float32> = Vec::new();
    let mut c: usize = 0;
    let ghost whole = updated(means@, counts@, d as int);
    assert(r@ =~= whole.take(0));
    while c < counts.len()
        invariant
            c <= counts@.len(),
            d > 0,
            len == means@.len(),
            len == counts@.len() * d,
            whole == updated(means@, counts@, d as int),
            r@ == whole.take(c * d),
        decreases counts@.len() - c,
    {
        let filled: bool = counts[c] > 0;
        let mut dim: usize = 0;
        while dim < d
            invariant
                c < counts@.len(),
                dim <= d,
                filled == (counts@[c as int] > 0),
                len == means@.len(),
                len == counts@.len() * d,
                whole == updated(means@, counts@, d as int),
                r@ == whole.take(c * d + dim),
            decreases d - dim,
        {
            proof {
                lemma_matrix_index(counts@.len() as int, d as int, c as int, dim as int);
                lemma_matrix_position(d as int, c as int, dim as int);
            }
            let value: Float32 = if filled {
                means[c * d + dim]
            } else {
                Float32::zero()
            };
            r.push(value);
            assert(whole[c * d + dim] == value);
            dim += 1;
            assert(r@ =~= whole.take(c * d + dim));
        }
        c += 1;
        assert((c - 1) * d + d == c * d) by (nonlinear_arith);
    }
    assert(r@ =~= whole);
    proof {
        assert forall|c: int, dim: int|
            #![trigger means@[c * d + dim]]
            0 <= c < counts@.len() && 0 <= dim < d && counts@[c] >= 1 implies r@[c * d + dim]
            == means@[c * d + dim] by {
            lemma_filled_clusters_get_their_means(means@, counts@, d as int, c, dim);
        }
        assert forall|c: int, dim: int|
            #![trigger r@[c * d + dim]]
            0 <= c < counts@.len() && 0 <= dim < d && counts@[c] <= 0 implies r@[c * d
            + dim].bits == 0 by {
            lemma_filled_clusters_get_their_means(means@, counts@, d as int, c, dim);
        }
    }
    r
}

/// How many of the first `i` assignments are to cluster `c`.
pub open spec fn count_of(assignments: Seq<u32>, c: int, i: int) -> int
    decreases i,
{
    if i <= 0 {
        0
    } else {
        count_of(assignments, c, i - 1) + if assignments[i - 1] == c {
            1int
        } else {
            0
        }
    }
}

proof fn lemma_count_bounds(assignments: Seq<u32>, c: int, i: int)
    ensures
        0 <= count_of(assignments, c, i),
        i >= 0 ==> count_of(assignments, c, i) <= i,
    decreases i,
{
    if i > 0 {
        lemma_count_bounds(assignments, c, i - 1);
    }
}

/// The size of each of `k` clusters.
pub fn cluster_counts(assignments: &[u32], k: usize) -> (r: Vec<u64>)
    requires
        forall|i: int| 0 <= i < assignments@.len() ==> #[trigger] assignments@[i] < k,
    ensures
        r@.len() == k,
        forall|c: int|
            0 <= c < k ==> #[trigger] r@[c] == count_of(
                assignments@,
                c,
                assignments@.len() as int,
            ),
{
    let mut counts: Vec<u64> = Vec::new();
    let mut c: usize = 0;
    while c < k
        invariant
            c <= k,
            counts@.len() == c,
            forall|j: int| 0 <= j < c ==> #[trigger] counts@[j] == 0,
        decreases k - c,
    {
        counts.push(0);
        c += 1;
    }
    let mut i: usize = 0;
    while i < assignments.len()
        invariant
            i <= assignments@.len(),
            counts@.len() == k,
            forall|j: int| 0 <= j < assignments@.len() ==> #[trigger] assignments@[j] < k,
            forall|j: int|
                0 <= j < k ==> #[trigger] counts@[j] == count_of(assignments@, j, i as int),
        decreases assignments@.len() - i,
    {
        let label: usize = assignments[i] as usize;
        proof {
            lemma_count_bounds(assignments@, label as int, i as int);
            assert(counts@[label as int] == count_of(assignments@, label as int, i as int));
        }
        let next: u64 = counts[label] + 1;
        counts.set(label, next);
        i += 1;
    }
    counts
}

/// Every point is in exactly one cluster: the sizes of all clusters add up to the number of
/// points.
pub proof fn lemma_counts_add_up(assignments: Seq<u32>, k: int, i: int)
    requires
        0 <= i <= assignments.len(),
        forall|j: int| 0 <= j < assignments.len() ==> 0 <= #[trigger] assignments[j] < k,
    ensures
        counts_total(assignments, k, i) == i,
    decreases i,
{
    if i > 0 {
        lemma_counts_add_up(assignments, k, i - 1);
        lemma_counts_step(assignments, k, i);
    } else {
        lemma_counts_zero(assignments, k);
    }
}

/// The sizes of the first `k` clusters together, over the first `i` points.
pub open spec fn counts_total(assignments: Seq<u32>, k: int, i: int) -> int
    decreases k,
{
    if k <= 0 {
        0
    } else {
        counts_total(assignments, k - 1, i) + count_of(assignments, k - 1, i)
    }
}

proof fn lemma_counts_zero(assignments: Seq<u32>, k: int)
    ensures
        counts_total(assignments, k, 0) == 0,
    decreases k,
{
    if k > 0 {
        lemma_counts_zero(assignments, k - 1);
    }
}

proof fn lemma_counts_step(assignments: Seq<u32>, k: int, i: int)
    requires
        0 < i <= assignments.len(),
    ensures
        counts_total(assignments, k, i) == counts_total(assignments, k, i - 1) + if 0
            <= assignments[i - 1] < k {
            1int
        } else {
            0
        },
    decreases k,
{
    if k > 0 {
        lemma_counts_step(assignments, k - 1, i);
    }
}

/// The iterations of a fit, as far as they have gone.
#[derive(Clone, Copy, Debug, PartialEq, Eq, Structural)]
pub struct Iterations {
    pub max_iterations: usize,
    pub tolerance: Float32,
    /// Iterations done.
    pub done: usize,
    /// Whether the last one moved no centroid by the tolerance.
    pub converged: bool,
}

/// Whether the largest of the moves, NaNs left out, is below the tolerance.
pub open spec fn settled(moves: Seq<Float32>, tolerance: Float32) -> bool {
    exists|largest: Float32| #[trigger]
        greatest_magnitude(moves, largest) && largest.lt(tolerance)
}

impl Iterations {
    pub open spec fn wf(&self) -> bool {
        &&& self.done <= self.max_iterations
        &&& self.converged ==> self.done >= 1
    }

    /// Whether there is no other iteration.
    pub open spec fn over(&self) -> bool {
        self.converged || self.done >= self.max_iterations
    }

    /// What an iteration that moves the coordinates of the centroids by `moves` leads to.
    pub open spec fn after(self, moves: Seq<Float32>) -> Iterations {
        Iterations {
            done: (self.done + 1) as usize,
            converged: self.converged || settled(moves, self.tolerance),
            ..self
        }
    }

    /// Where the iterations end, if iteration `i` moves the coordinates by `moves(i)`.
    pub open spec fn ended(self, moves: spec_fn(int) -> Seq<Float32>) -> Iterations
        decreases self.max_iterations - self.done,
    {
        if self.over() {
            self
        } else {
            self.after(moves(self.done as int)).ended(moves)
        }
    }

    pub fn new(config: &KMeansConfig) -> (r: Iterations)
        ensures
            r.wf(),
            r.max_iterations == config.max_iterations,
            r.tolerance == config.tolerance,
            r.done == 0,
            !r.converged,
    {
        Iterations {
            max_iterations: config.max_iterations,
            tolerance: config.tolerance,
            done: 0,
            converged: false,
        }
    }

    /// Whether there is another iteration.
    pub fn next(&self) -> (r: bool)
        ensures
            r == !self.over(),
    {
        !self.converged && self.done < self.max_iterations
    }

    /// Records an iteration that moved the coordinates of the centroids by `moves`. It was the
    /// last one when the largest of them, NaNs left out, is below the tolerance.
    pub fn step(&mut self, moves: &[Float32])
        requires
            old(self).wf(),
            old(self).done < old(self).max_iterations,
        ensures
            final(self).wf(),
            *final(self) == old(self).after(moves@),
    {
        let largest: Float32 = sup_norm(moves);
        self.done = self.done + 1;
        if largest.less(self.tolerance) {
            self.converged = true;
        }
        proof {
            assert forall|other: Float32| #[trigger]
                greatest_magnitude(moves@, other) implies other == largest by {
                lemma_greatest_magnitude_unique(moves@, largest, other);
            }
        }
    }
}

/// However the centroids move, the iterations come to an end. They are one at least, where
/// there may be one, and never more than the limit; they are as many as the limit unless the
/// last one settled. With a tolerance that is not above zero none settles.
pub proof fn lemma_iterations_end(it: Iterations, moves: spec_fn(int) -> Seq<Float32>)
    requires
        it.wf(),
    ensures
        it.ended(moves).wf(),
        it.ended(moves).over(),
        it.ended(moves).max_iterations == it.max_iterations,
        it.ended(moves).tolerance == it.tolerance,
        it.ended(moves).done <= it.max_iterations,
        it.max_iterations >= 1 ==> 1 <= it.ended(moves).done,
        !it.ended(moves).converged ==> it.ended(moves).done == it.max_iterations,
        !it.converged && !(Float32 { bits: 0 }).lt(it.tolerance) ==> {
            &&& !it.ended(moves).converged
            &&& it.ended(moves).done == it.max_iterations
        },
    decreases it.max_iterations - it.done,
{
    if !it.over() {
        let next = it.after(moves(it.done as int));
        lemma_iterations_end(next, moves);
        if settled(moves(it.done as int), it.tolerance) {
            let largest = choose|largest: Float32| #[trigger]
                greatest_magnitude(moves(it.done as int), largest) && largest.lt(it.tolerance);
            assert((Float32 { bits: 0 }).lt(it.tolerance));
        }
    }
}

/// The seed to draw from: the configured one, or that of the clock where it is 0.
pub fn effective_seed(seed: u64, clock: u64) -> (r: u64)
    ensures
        r == (if seed == 0 {
            clock
        } else {
            seed
        }),
{
    if seed == 0 {
        clock
    } else {
        seed
    }
}

/// The first place at which the running totals reach the threshold.
pub open spec fn first_reached(totals: Seq<Float32>, threshold: Float32, i: int) -> Option<int>
    decreases totals.len() - i,
{
    if i >= totals.len() {
        None
    } else if threshold.le(totals[i]) {
        Some(i)
    } else {
        first_reached(totals, threshold, i + 1)
    }
}

/// The point that a threshold picks among running totals of weights: the first one at which
/// they reach it, the last one where none does.
pub open spec fn weighted_pick(totals: Seq<Float32>, threshold: Float32) -> int {
    match first_reached(totals, threshold, 0) {
        Some(i) => i,
        None => totals.len() - 1,
    }
}

/// The point that a threshold picks among running totals of weights.
pub fn pick_weighted(totals: &[Float32], threshold: Float32) -> (r: usize)
    requires
        totals@.len() > 0,
    ensures
        r == weighted_pick(totals@, threshold),
        r < totals@.len(),
{
    let mut i: usize = 0;
    while i < totals.len()
        invariant
            i <= totals@.len(),
            first_reached(totals@, threshold, 0) == first_reached(totals@, threshold, i as int),
        decreases totals@.len() - i,
    {
        if threshold.at_most(totals[i]) {
            return i;
        }
        i += 1;
    }
    totals.len() - 1
}

impl Seeding {
    /// The launch that finds each point's distance to the nearest point drawn so far.
    pub fn launch(&self, points: Buffer, centroids: Buffer, distances: Buffer) -> (r: Launch)
        requires
            self.n + 255 <= usize::MAX,
        ensures
            r@ == min_distance_launch(
                points,
                centroids,
                distances,
                self.n,
                self.picks@.len() as usize,
                self.d,
            ),
    {
        let (groups, threads) = dispatch_naive(self.n);
        let n: usize = self.n;
        let c: usize = self.picks.len();
        let d: usize = self.d;
        let r = Launch {
            kernel: Kernel::KmeansComputeMinDistances,
            arguments: vec![
                Argument::Memory(points),
                Argument::Memory(centroids),
                Argument::Memory(distances),
                Argument::Word(#[verifier::truncate] (n as u32)),
                Argument::Word(#[verifier::truncate] (c as u32)),
                Argument::Word(#[verifier::truncate] (d as u32)),
            ],
            threadgroup_bytes: 0,
            groups,
            threads,
        };
        assert(r@ =~= min_distance_launch(points, centroids, distances, n, c, d));
        r
    }

    /// Whether the next point is drawn without regard to distance: all distances are zero, so
    /// their sum `total` is.
    pub fn is_uniform(total: Float32) -> (r: bool)
        ensures
            r == total.numerically_equal(Float32 { bits: 0 }),
    {
        total.equals(Float32::zero())
    }

    /// Draws the next point by its distance: the one whose running total of distances is the
    /// first to reach `threshold`. `state` is the state of the generator after the threshold
    /// was drawn.
    pub fn draw_weighted(
        &mut self,
        data: &[Float32],
        totals: &[Float32],
        threshold: Float32,
        state: u64,
    )
        requires
            old(self).wf(data@),
            old(self).picks@.len() < old(self).k,
            totals@.len() == old(self).n,
        ensures
            final(self).wf(data@),
            final(self).n == old(self).n,
            final(self).d == old(self).d,
            final(self).k == old(self).k,
            final(self).picks@ == old(self).picks@.push(
                weighted_pick(totals@, threshold) as usize,
            ),
            final(self).rng.state == state,
    {
        let pick: usize = pick_weighted(totals, threshold);
        self.rng = Rng { state };
        self.append(data, pick);
    }
}

impl KMeans {
    pub fn new(config: KMeansConfig) -> (r: KMeans)
        ensures
            r.config == config,
            r.centroids@ == Seq::<Float32>::empty(),
            r.inertia.bits == 0,
            r.n_iter == 0,
            r.labels@ == Seq::<usize>::empty(),
    {
        KMeans {
            config,
            centroids: Vec::new(),
            inertia: Float32::zero(),
            n_iter: 0,
            labels: Vec::new(),
        }
    }

    pub fn centroids(&self) -> (r: &[Float32])
        ensures
            r@ == self.centroids@,
    {
        self.centroids.as_slice()
    }

    pub fn labels(&self) -> (r: &[usize])
        ensures
            r@ == self.labels@,
    {
        self.labels.as_slice()
    }

    pub fn inertia(&self) -> (r: Float32)
        ensures
            r == self.inertia,
    {
        self.inertia
    }

    pub fn n_iter(&self) -> (r: usize)
        ensures
            r == self.n_iter,
    {
        self.n_iter
    }

    /// Starts a fit on `n` points of `d` dimensions: the kernel and the lasting buffers.
    pub fn fit(&self, ctx: &mut MetalContext, data: &[Float32], n: usize, d: usize) -> (r: Result<
        FitPlan,
        KMeansError,
    >)
        requires
            4 * data@.len() <= usize::MAX,
            fit_refusal(self.config, data@.len() as usize, n, d) is None ==> 160 * d + 512
                <= usize::MAX && update_bytes(self.config.k as int, d as int) <= usize::MAX,
        ensures
            match fit_refusal(self.config, data@.len() as usize, n, d) {
                Some(e) => r == Err::<FitPlan, KMeansError>(e) && *final(ctx) == *old(ctx),
                None => {
                    &&& r == Ok::<FitPlan, KMeansError>(
                        fit_plan(old(ctx)@.len(), n, d, self.config.k),
                    )
                    &&& final(ctx)@ == old(ctx)@ + fit_sizes(
                        n as int,
                        d as int,
                        assign_kernel(self.config.k, d),
                    )
                },
            },
    {
        let k: usize = self.config.k;
        if d == 0 || n == 0 || k == 0 || k > n {
            return Err(KMeansError::InvalidParameters { n, d, k });
        }
        if !is_matrix(data.len(), n, d) {
            return Err(KMeansError::DataLength { n, d, got: data.len() });
        }
        if let Some(init) = &self.config.init_centroids {
            if !is_matrix(init.len(), k, d) {
                return Err(KMeansError::InitLength { k, d, got: init.len() });
            }
        }
        proof {
            lemma_matrix_bounds(data@.len() as int, n as int, d as int);
            assert(0 <= k * d) by (nonlinear_arith)
                requires
                    k >= 0,
                    d >= 0,
            ;
        }
        let kernel: AssignKernel = pick_assign_kernel(k, d);
        let ghost start = ctx@;
        let points: Buffer = ctx.new_buffer(data.len());
        let assignments: Buffer = ctx.new_buffer_uninitialized((n * 4) as u64);
        let distances: Buffer = ctx.new_buffer_uninitialized((n * 4) as u64);
        let norms_x: Option<Buffer> = if kernel_uses_norms(&kernel) {
            Some(ctx.new_buffer(n))
        } else {
            None
        };
        assert(ctx@ =~= start + fit_sizes(n as int, d as int, kernel));
        let device_update: bool = (k * d + k) * 4 <= 32768;
        Ok(FitPlan { kernel, points, assignments, distances, norms_x, device_update })
    }

    /// The buffers and the launch of one assignment of `n` points to the centroids.
    pub fn assign(&self, ctx: &mut MetalContext, plan: &FitPlan, n: usize, d: usize) -> (r:
        AssignPass)
        requires
            n + 255 <= usize::MAX,
            160 * d + 512 <= usize::MAX,
            4 * self.centroids@.len() <= usize::MAX,
            4 * self.config.k <= usize::MAX,
            uses_norms(plan.kernel) ==> plan.norms_x is Some,
        ensures
            ({
                let centroids = buffer_at(old(ctx)@.len(), 0, 4 * self.centroids@.len() as int);
                let norms = buffer_at(old(ctx)@.len(), 1, 4 * self.config.k);
                &&& final(ctx)@ == (if uses_norms(plan.kernel) {
                    old(ctx)@.push(centroids.byte_len).push(norms.byte_len)
                } else {
                    old(ctx)@.push(centroids.byte_len)
                })
                &&& r.buffers == (AssignBuffers {
                    points: plan.points,
                    centroids,
                    assignments: plan.assignments,
                    distances: plan.distances,
                    norms_x: plan.norms_x,
                    norms_c: if uses_norms(plan.kernel) {
                        Some(norms)
                    } else {
                        None
                    },
                })
                &&& r.launch@ == assign_launch(plan.kernel, r.buffers, n, self.config.k, d)
            }),
    {
        let centroids: Buffer = ctx.new_buffer(self.centroids.len());
        let norms_c: Option<Buffer> = if kernel_uses_norms(&plan.kernel) {
            Some(ctx.new_buffer(self.config.k))
        } else {
            None
        };
        let buffers = AssignBuffers {
            points: plan.points,
            centroids,
            assignments: plan.assignments,
            distances: plan.distances,
            norms_x: plan.norms_x,
            norms_c,
        };
        let launch: Launch = encode_assign(&plan.kernel, &buffers, n, self.config.k, d);
        AssignPass { buffers, launch }
    }

    /// The buffers, which start at zero, and the launch of one update on the device.
    pub fn update(&self, ctx: &mut MetalContext, plan: &FitPlan, n: usize, d: usize) -> (r:
        UpdatePass)
        requires
            n + 255 <= usize::MAX,
            update_bytes(self.config.k as int, d as int) <= usize::MAX,
        ensures
            ({
                let k = self.config.k;
                &&& final(ctx)@ == old(ctx)@.push((4 * (k * d)) as u64).push((4 * k) as u64)
                &&& r.sums == buffer_at(old(ctx)@.len(), 0, 4 * (k * d))
                &&& r.counts == buffer_at(old(ctx)@.len(), 1, 4 * k)
                &&& r.launch@ == update_launch(
                    plan.points,
                    plan.assignments,
                    r.sums,
                    r.counts,
                    n,
                    k,
                    d,
                )
            }),
    {
        let k: usize = self.config.k;
        proof {
            assert(0 <= k * d) by (nonlinear_arith)
                requires
                    k >= 0,
                    d >= 0,
            ;
        }
        let sums: Buffer = ctx.new_buffer(k * d);
        let counts: Buffer = ctx.new_buffer(k);
        let launch = Launch {
            kernel: Kernel::KmeansCentroidTiled,
            arguments: vec![
                Argument::Memory(plan.points),
                Argument::Memory(plan.assignments),
                Argument::Memory(sums),
                Argument::Memory(counts),
                Argument::Word(#[verifier::truncate] (n as u32)),
                Argument::Word(#[verifier::truncate] (k as u32)),
                Argument::Word(#[verifier::truncate] (d as u32)),
            ],
            threadgroup_bytes: ((k * d + k) * 4) as u64,
            groups: MTLSize::line(group_count(n as u64, 128)),
            threads: MTLSize::line(128),
        };
        assert(launch@ =~= update_launch(
            plan.points,
            plan.assignments,
            sums,
            counts,
            n,
            k,
            d,
        ));
        UpdatePass { sums, counts, launch }
    }

    /// Takes new centroids.
    pub fn set_centroids(&mut self, centroids: Vec<Float32>)
        ensures
            *final(self) == (KMeans { centroids, ..*old(self) }),
    {
        self.centroids = centroids;
    }

    /// Ends a fit with the last assignment. Without iterations the number of the last fit's
    /// stays.
    pub fn finish(&mut self, assignments: &[u32], iterations: &Iterations)
        ensures
            final(self).labels@ == assignments@.map_values(|x: u32| x as usize),
            final(self).n_iter == (if iterations.done > 0 {
                iterations.done
            } else {
                old(self).n_iter
            }),
            final(self).config == old(self).config,
            final(self).centroids == old(self).centroids,
            final(self).inertia == old(self).inertia,
    {
        let labels: Vec<usize> = widen(assignments);
        self.labels = labels;
        if iterations.done > 0 {
            self.n_iter = iterations.done;
        }
    }

    /// Takes the sum of the squared distances of all points to their centroids.
    pub fn set_inertia(&mut self, inertia: Float32)
        ensures
            *final(self) == (KMeans { inertia, ..*old(self) }),
    {
        self.inertia = inertia;
    }

    /// The buffers and the launch that assign `n` points to the fitted centroids. Of
    /// longer data only the first `n` rows are read.
    pub fn predict(&self, ctx: &mut MetalContext, data: &[Float32], n: usize, d: usize) -> (r: (
        AssignPass,
        AssignKernel,
    ))
        requires
            n * d <= data@.len(),
            self.centroids@.len() == self.config.k * d,
            4 * data@.len() <= usize::MAX,
            4 * self.centroids@.len() <= usize::MAX,
            4 * self.config.k <= usize::MAX,
            4 * n + 255 <= usize::MAX,
            160 * d + 512 <= usize::MAX,
        ensures
            r.1 == assign_kernel(self.config.k, d),
            ({
                let k = self.config.k;
                let start = old(ctx)@.len();
                let always = seq![
                    (4 * data@.len()) as u64,
                    (4 * (k * d)) as u64,
                    (4 * n) as u64,
                    (4 * n) as u64,
                ];
                let sizes = if uses_norms(r.1) {
                    always + seq![(4 * n) as u64, (4 * k) as u64]
                } else {
                    always
                };
                let pass = r.0;
                &&& final(ctx)@ == old(ctx)@ + sizes
                &&& pass.buffers == (AssignBuffers {
                    points: buffer_at(start, 0, 4 * data@.len() as int),
                    centroids: buffer_at(start, 1, 4 * (k * d)),
                    assignments: buffer_at(start, 2, 4 * n),
                    distances: buffer_at(start, 3, 4 * n),
                    norms_x: if uses_norms(r.1) {
                        Some(buffer_at(start, 4, 4 * n))
                    } else {
                        None
                    },
                    norms_c: if uses_norms(r.1) {
                        Some(buffer_at(start, 5, 4 * k))
                    } else {
                        None
                    },
                })
                &&& pass.launch@ == assign_launch(r.1, pass.buffers, n, k, d)
            }),
    {
        let k: usize = self.config.k;
        let kernel: AssignKernel = pick_assign_kernel(k, d);
        let ghost start = ctx@;
        let points: Buffer = ctx.new_buffer(data.len());
        let centroids: Buffer = ctx.new_buffer(self.centroids.len());
        let assignments: Buffer = ctx.new_buffer_uninitialized((n * 4) as u64);
        let distances: Buffer = ctx.new_buffer_uninitialized((n * 4) as u64);
        let ghost always = seq![
            (4 * data@.len()) as u64,
            (4 * (k * d)) as u64,
            (4 * n) as u64,
            (4 * n) as u64,
        ];
        assert(ctx@ =~= start + always);
        let mut norms_x: Option<Buffer> = None;
        let mut norms_c: Option<Buffer> = None;
        if kernel_uses_norms(&kernel) {
            norms_x = Some(ctx.new_buffer(n));
            norms_c = Some(ctx.new_buffer(k));
            assert(ctx@ =~= start + (always + seq![(4 * n) as u64, (4 * k) as u64]));
        }
        let buffers = AssignBuffers {
            points,
            centroids,
            assignments,
            distances,
            norms_x,
            norms_c,
        };
        let launch: Launch = encode_assign(&kernel, &buffers, n, k, d);
        (AssignPass { buffers, launch }, kernel)
    }

    /// The labels that an assignment stands for.
    pub fn predicted(assignments: &[u32]) -> (r: Vec<usize>)
        ensures
            r@ == assignments@.map_values(|x: u32| x as usize),
    {
        widen(assignments)
    }
}

fn widen(values: &[u32]) -> (r: Vec<usize>)
    ensures
        r@ == values@.map_values(|x: u32| x as usize),
{
    let mut r: Vec<usize> = Vec::new();
    let mut i: usize = 0;
    while i < values.len()
        invariant
            i <= values@.len(),
            r@.len() == i,
            forall|j: int| 0 <= j < i ==> #[trigger] r@[j] == values@[j] as usize,
        decreases values@.len() - i,
    {
        r.push(values[i] as usize);
        i += 1;
    }
    assert(r@ =~= values@.map_values(|x: u32| x as usize));
    r
}

/// Every cluster that has a point gets its mean, coordinate by coordinate; only a cluster that
/// has none is set to the origin.
pub proof fn lemma_filled_clusters_get_their_means(
    means: Seq<Float32>,
    counts: Seq<i32>,
    d: int,
    c: int,
    dim: int,
)
    requires
        means.len() == counts.len() * d,
        0 <= c < counts.len(),
        0 <= dim < d,
    ensures
        updated(means, counts, d).len() == means.len(),
        counts[c] >= 1 ==> updated(means, counts, d)[c * d + dim] == means[c * d + dim],
        counts[c] <= 0 ==> updated(means, counts, d)[c * d + dim].bits == 0,
{
    lemma_matrix_index(counts.len() as int, d, c, dim);
    lemma_matrix_position(d, c, dim);
}

/// The kernel by shape. Dimensions that are fewer than eight or do not fill tiles of eight are
/// gone through point by point; else up to 16 centroids are taken at a time while 160 bytes a
/// dimension fit, eight while 96 do, and wider points are split.
pub proof fn lemma_kernel_by_shape(k: usize, d: usize)
    ensures
        assign_kernel(k, d) is Naive <==> k == 0 || d < 8 || d % 8 != 0,
        k > 0 && d >= 8 && d % 8 == 0 ==> {
            &&& assign_kernel(k, d) is SimdgroupC16 <==> k <= 16 && d <= 204
            &&& assign_kernel(k, d) is Simdgroup <==> !(k <= 16 && d <= 204) && d <= 340
            &&& assign_kernel(k, d) is SplitD <==> d > 340
        },
        d % 8 == 0 ==> {
            &&& assign_bytes(AssignKernel::SimdgroupC16, d as int) == 160 * d + 64
            &&& assign_bytes(AssignKernel::Simdgroup, d as int) == 96 * d + 64
        },
        assign_bytes(AssignKernel::SplitD, d as int) == 1024,
        assign_bytes(AssignKernel::Naive, d as int) == 0,
        uses_norms(assign_kernel(k, d)) <==> k > 0 && d >= 8 && d % 8 == 0,
{
}

/// What an assignment binds and how much threadgroup memory it takes, whatever kernel runs, and
/// that its groups reach every point.
pub proof fn lemma_assignment_binds(
    kernel: AssignKernel,
    b: AssignBuffers,
    n: usize,
    k: usize,
    d: usize,
)
    requires
        160 * d + 512 <= usize::MAX,
    ensures
        ({
            let l = assign_launch(kernel, b, n, k, d);
            &&& l.arguments[0] == Argument::Memory(b.points)
            &&& l.arguments[1] == Argument::Memory(b.centroids)
            &&& l.arguments[2] == Argument::Memory(b.assignments)
            &&& l.arguments[3] == Argument::Memory(b.distances)
            &&& kernel is Naive ==> {
                &&& l.kernel == Kernel::KmeansAssign
                &&& l.arguments.len() == 7
                &&& l.arguments[4] == Argument::Word(n as u32)
                &&& l.arguments[5] == Argument::Word(k as u32)
                &&& l.arguments[6] == Argument::Word(d as u32)
                &&& l.threadgroup_bytes == 0
                &&& l.threads.width == 256
                &&& l.groups.width * 256 >= n
            }
            &&& !(kernel is Naive) ==> {
                &&& l.arguments.len() == 10
                &&& b.norms_x matches Some(norms) ==> l.arguments[4] == Argument::Memory(norms)
                &&& b.norms_c matches Some(norms) ==> l.arguments[5] == Argument::Memory(norms)
                &&& l.arguments[6] == Argument::Word(n as u32)
                &&& l.arguments[7] == Argument::Word(k as u32)
                &&& l.arguments[8] == Argument::Word(d as u32)
                &&& l.arguments[9] == Argument::Word(128)
                &&& l.threads.width == 128
            }
            &&& kernel is Simdgroup ==> {
                &&& l.kernel == Kernel::KmeansAssignSimdgroup
                &&& l.groups.width * 8 >= n
                &&& d % 8 == 0 ==> l.threadgroup_bytes == 96 * d + 64
            }
            &&& kernel is SimdgroupC16 ==> {
                &&& l.kernel == Kernel::KmeansAssignSimdgroupC16
                &&& l.groups.width * 8 >= n
                &&& d % 8 == 0 ==> l.threadgroup_bytes == 160 * d + 64
            }
            &&& kernel is SplitD ==> {
                &&& l.kernel == Kernel::KmeansAssignSplitd
                &&& l.groups.width * 128 >= n
                &&& l.threadgroup_bytes == 1024
            }
            &&& l.groups.height == 1 && l.groups.depth == 1 && l.threads.height == 1
                && l.threads.depth == 1
        }),
{
    lemma_line_covers(n as int, 256);
    lemma_line_covers(n as int, 128);
    lemma_line_covers(n as int, 8);
}

/// What an update binds, that its memory holds a sum for each coordinate of each centroid and a
/// count for each centroid, and that it has a thread for every point.
pub proof fn lemma_update_binds(
    points: Buffer,
    assignments: Buffer,
    sums: Buffer,
    counts: Buffer,
    n: usize,
    k: usize,
    d: usize,
)
    requires
        4 * (k * d + k) <= u64::MAX,
    ensures
        ({
            let l = update_launch(points, assignments, sums, counts, n, k, d);
            &&& l.kernel == Kernel::KmeansCentroidTiled
            &&& l.arguments.len() == 7
            &&& l.arguments[0] == Argument::Memory(points)
            &&& l.arguments[1] == Argument::Memory(assignments)
            &&& l.arguments[2] == Argument::Memory(sums)
            &&& l.arguments[3] == Argument::Memory(counts)
            &&& l.arguments[4] == Argument::Word(n as u32)
            &&& l.arguments[5] == Argument::Word(k as u32)
            &&& l.arguments[6] == Argument::Word(d as u32)
            &&& l.threadgroup_bytes == 4 * (k * d + k)
            &&& l.groups.width * l.threads.width >= n
            &&& l.threads.width == 128
        }),
{
    lemma_line_covers(n as int, 128);
    assert(0 <= k * d) by (nonlinear_arith)
        requires
            0 <= k,
            0 <= d,
    ;
}

/// What a search for the nearest of `c` centroids binds, and that it has a thread for every
/// point.
pub proof fn lemma_min_distance_binds(
    points: Buffer,
    centroids: Buffer,
    distances: Buffer,
    n: usize,
    c: usize,
    d: usize,
)
    ensures
        ({
            let l = min_distance_launch(points, centroids, distances, n, c, d);
            &&& l.kernel == Kernel::KmeansComputeMinDistances
            &&& l.arguments.len() == 6
            &&& l.arguments[0] == Argument::Memory(points)
            &&& l.arguments[1] == Argument::Memory(centroids)
            &&& l.arguments[2] == Argument::Memory(distances)
            &&& l.arguments[3] == Argument::Word(n as u32)
            &&& l.arguments[4] == Argument::Word(c as u32)
            &&& l.arguments[5] == Argument::Word(d as u32)
            &&& l.threadgroup_bytes == 0
            &&& l.groups.width * l.threads.width >= n
            &&& l.threads.width == 256
        }),
{
    lemma_line_covers(n as int, 256);
}

/// The size of a cluster is the number of points that are assigned to it.
pub proof fn lemma_cluster_size_counts_points(assignments: Seq<u32>, c: int, i: int)
    requires
        0 <= i <= assignments.len(),
    ensures
        Set::new(|j: int| 0 <= j < i && assignments[j] == c).finite(),
        count_of(assignments, c, i) == Set::new(|j: int| 0 <= j < i && assignments[j] == c).len(),
    decreases i,
{
    let s = Set::new(|j: int| 0 <= j < i && assignments[j] == c);
    if i > 0 {
        lemma_cluster_size_counts_points(assignments, c, i - 1);
        let t = Set::new(|j: int| 0 <= j < i - 1 && assignments[j] == c);
        if assignments[i - 1] == c {
            assert(s =~= t.insert(i - 1));
        } else {
            assert(s =~= t);
        }
    } else {
        assert(s =~= Set::<int>::empty());
    }
}

/// An iteration settles exactly when every coordinate that moved by a number moved by less than
/// the tolerance, and the tolerance is above zero.
pub proof fn lemma_settled_means_small_moves(moves: Seq<Float32>, tolerance: Float32)
    ensures
        settled(moves, tolerance) ==> (Float32 { bits: 0 }).lt(tolerance),
        settled(moves, tolerance) ==> forall|j: int|
            0 <= j < moves.len() && !(#[trigger] moves[j]).nan() ==> moves[j].abs_value().lt(
                tolerance,
            ),
{
}

/// Where every coordinate that moved by a number moved by less than a tolerance above zero, the
/// iteration settles. `largest` is the largest of the moves.
pub proof fn lemma_small_moves_settle(moves: Seq<Float32>, tolerance: Float32, largest: Float32)
    requires
        greatest_magnitude(moves, largest),
        (Float32 { bits: 0 }).lt(tolerance),
        forall|j: int|
            0 <= j < moves.len() && !(#[trigger] moves[j]).nan() ==> moves[j].abs_value().lt(
                tolerance,
            ),
    ensures
        settled(moves, tolerance),
{
}

/// An iteration counts one, and ends the fit when it settles.
pub proof fn lemma_iteration_counts(it: Iterations, moves: Seq<Float32>)
    requires
        it.done < it.max_iterations,
    ensures
        it.after(moves).done == it.done + 1,
        it.after(moves).converged <==> it.converged || settled(moves, it.tolerance),
        it.after(moves).tolerance == it.tolerance,
        it.after(moves).max_iterations == it.max_iterations,
        it.over() <==> it.converged || it.done >= it.max_iterations,
{
}

/// A threshold picks the first point at which the running total reaches it: none before does.
/// The last point is picked where none does.
pub proof fn lemma_weighted_pick(totals: Seq<Float32>, threshold: Float32, i: int)
    requires
        0 <= i < totals.len(),
        forall|j: int| 0 <= j < i ==> !threshold.le(#[trigger] totals[j]),
    ensures
        threshold.le(totals[i]) ==> weighted_pick(totals, threshold) == i,
        i == totals.len() - 1 ==> weighted_pick(totals, threshold) == i,
{
    lemma_first_reached_from(totals, threshold, 0, i);
}

proof fn lemma_first_reached_from(totals: Seq<Float32>, threshold: Float32, from: int, i: int)
    requires
        0 <= from <= i < totals.len(),
        forall|j: int| from <= j < i ==> !threshold.le(#[trigger] totals[j]),
    ensures
        first_reached(totals, threshold, from) == first_reached(totals, threshold, i),
        i == totals.len() - 1 ==> first_reached(totals, threshold, i) == (if threshold.le(
            totals[i],
        ) {
            Some(i)
        } else {
            None::<int>
        }),
    decreases i - from,
{
    reveal_with_fuel(first_reached, 2);
    if from < i {
        lemma_first_reached_from(totals, threshold, from + 1, i);
    }
}

/// The lasting buffers of a fit: the points, a place and a distance for each, and their norms
/// where the kernel reads them. The device sums up clusters where their sums fit its memory.
pub proof fn lemma_fit_plan(start: nat, n: usize, d: usize, k: usize)
    requires
        start + 4 <= usize::MAX,
        4 * (n * d) <= usize::MAX,
        4 * n <= usize::MAX,
        k > 0,
    ensures
        ({
            let plan = fit_plan(start, n, d, k);
            let sizes = fit_sizes(n as int, d as int, plan.kernel);
            &&& plan.kernel == assign_kernel(k, d)
            &&& plan.points.id == start && plan.points.byte_len == 4 * (n * d)
            &&& plan.assignments.id == start + 1 && plan.assignments.byte_len == 4 * n
            &&& plan.distances.id == start + 2 && plan.distances.byte_len == 4 * n
            &&& d < 8 || d % 8 != 0 ==> plan.norms_x is None && sizes.len() == 3
            &&& d >= 8 && d % 8 == 0 ==> {
                &&& plan.norms_x matches Some(norms) && norms.id == start + 3 && norms.byte_len
                    == 4 * n
                &&& sizes.len() == 4 && sizes[3] == 4 * n
            }
            &&& plan.device_update <==> 4 * (k * d + k) <= 32768
            &&& sizes[0] == 4 * (n * d) && sizes[1] == 4 * n && sizes[2] == 4 * n
        }),
{
    assert(0 <= n * d) by (nonlinear_arith)
        requires
            0 <= n,
            0 <= d,
    ;
}

/// A fit is taken exactly when there are points and clusters, no more clusters than points, and
/// data and given centroids have their lengths; the first of these that fails says why.
pub proof fn lemma_refusals(config: KMeansConfig, len: usize, n: usize, d: usize)
    ensures
        ({
            let shaped = d > 0 && n > 0 && 0 < config.k <= n;
            let fitting = config.init_centroids matches Some(init) ==> init@.len() == config.k * d;
            let r = fit_refusal(config, len, n, d);
            &&& r is None <==> shaped && len == n * d && fitting
            &&& !shaped ==> r == Some(KMeansError::InvalidParameters { n, d, k: config.k })
            &&& shaped && len != n * d ==> r == Some(KMeansError::DataLength { n, d, got: len })
            &&& shaped && len == n * d && !fitting ==> r == Some(
                KMeansError::InitLength {
                    k: config.k,
                    d,
                    got: (config.init_centroids->0)@.len() as usize,
                },
            )
        }),
{
}

} // verus!
