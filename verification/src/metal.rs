//! What the operators ask of a Metal device, as plain values.
//!
//! A `MetalContext` is the ledger of one piece of work on the device: the byte length of
//! each buffer that the work has asked for. A `Launch` is one kernel dispatch: the
//! kernel, its arguments by index, its threadgroup memory and its grid. Whoever owns the
//! device carries them out in order.

use vstd::prelude::*;
use crate::float::Float32;

verus! {

/// The threadgroup memory of one threadgroup, in bytes.
pub const THREADGROUP_MEMORY: usize = 32768;

/// The kernels of the shader sources.
#[derive(Clone, Copy, Debug, PartialEq, Eq, Structural)]
pub enum Kernel {
    DbscanCount,
    DbscanGather,
    GmmEStep,
    GnbPredictLogp,
    GnbReducePartials,
    GnbReduceSum,
    KmeansAssign,
    KmeansAssignSimdgroup,
    KmeansAssignSimdgroupC16,
    KmeansAssignSplitd,
    KmeansCentroidTiled,
    KmeansComputeMinDistances,
    KnnAssignDense,
    KnnAssignNaive,
    KnnAssignSplitm,
    KnnGatherL2,
    LdaScatter,
    LdaTransform,
    LinregGramXtxNaive,
    LinregGramXtxTiled,
    LinregGramXty,
    LinregPredict,
    LinregReduceGram,
    LogregFusedNaive,
    LogregFusedSimdgroup,
    LogregFusedSplitd,
    LogregPredict,
    LogregReducePartials,
    NmfDiff,
    NmfMm,
    NmfUpdate,
    PcaCenter,
    PcaMatmul,
    PcaMean,
    PcaMeanFinal,
    PcaTransform,
    PcaTranspose,
    SvmKernel,
    SvmPredict,
    TsneDistances,
    TsneGrad,
    TsnePerplexity,
}

impl Kernel {
    /// The name of the kernel function in its shader source.
    pub open spec fn function_name(self) -> Seq<char> {
        match self {
            Kernel::DbscanCount => "dbscan_count"@,
            Kernel::DbscanGather => "dbscan_gather"@,
            Kernel::GmmEStep => "gmm_e_step"@,
            Kernel::GnbPredictLogp => "gnb_predict_logp"@,
            Kernel::GnbReducePartials => "gnb_reduce_partials"@,
            Kernel::GnbReduceSum => "gnb_reduce_sum"@,
            Kernel::KmeansAssign => "kmeans_assign"@,
            Kernel::KmeansAssignSimdgroup => "kmeans_assign_simdgroup"@,
            Kernel::KmeansAssignSimdgroupC16 => "kmeans_assign_simdgroup_c16"@,
            Kernel::KmeansAssignSplitd => "kmeans_assign_splitd"@,
            Kernel::KmeansCentroidTiled => "kmeans_centroid_tiled"@,
            Kernel::KmeansComputeMinDistances => "kmeans_compute_min_distances"@,
            Kernel::KnnAssignDense => "knn_assign_dense"@,
            Kernel::KnnAssignNaive => "knn_assign_naive"@,
            Kernel::KnnAssignSplitm => "knn_assign_splitm"@,
            Kernel::KnnGatherL2 => "knn_gather_l2"@,
            Kernel::LdaScatter => "lda_scatter"@,
            Kernel::LdaTransform => "lda_transform"@,
            Kernel::LinregGramXtxNaive => "linreg_gram_xtx_naive"@,
            Kernel::LinregGramXtxTiled => "linreg_gram_xtx_tiled"@,
            Kernel::LinregGramXty => "linreg_gram_xty"@,
            Kernel::LinregPredict => "linreg_predict"@,
            Kernel::LinregReduceGram => "linreg_reduce_gram"@,
            Kernel::LogregFusedNaive => "logreg_fused_fwd_bwd_naive"@,
            Kernel::LogregFusedSimdgroup => "logreg_fused_fwd_bwd_simdgroup"@,
            Kernel::LogregFusedSplitd => "logreg_fused_fwd_bwd_splitd"@,
            Kernel::LogregPredict => "logreg_predict"@,
            Kernel::LogregReducePartials => "logreg_reduce_partials"@,
            Kernel::NmfDiff => "nmf_diff"@,
            Kernel::NmfMm => "nmf_mm"@,
            Kernel::NmfUpdate => "nmf_update"@,
            Kernel::PcaCenter => "pca_center"@,
            Kernel::PcaMatmul => "pca_matmul"@,
            Kernel::PcaMean => "pca_mean"@,
            Kernel::PcaMeanFinal => "pca_mean_final"@,
            Kernel::PcaTransform => "pca_transform"@,
            Kernel::PcaTranspose => "pca_transpose"@,
            Kernel::SvmKernel => "svm_kernel"@,
            Kernel::SvmPredict => "svm_predict"@,
            Kernel::TsneDistances => "tsne_distances"@,
            Kernel::TsneGrad => "tsne_grad"@,
            Kernel::TsnePerplexity => "tsne_perplexity"@,
        }
    }

    /// The name of the kernel function in its shader source.
    pub fn name(self) -> (r: &'static str)
        ensures
            r@ == self.function_name(),
    {
        match self {
            Kernel::DbscanCount => "dbscan_count",
            Kernel::DbscanGather => "dbscan_gather",
            Kernel::GmmEStep => "gmm_e_step",
            Kernel::GnbPredictLogp => "gnb_predict_logp",
            Kernel::GnbReducePartials => "gnb_reduce_partials",
            Kernel::GnbReduceSum => "gnb_reduce_sum",
            Kernel::KmeansAssign => "kmeans_assign",
            Kernel::KmeansAssignSimdgroup => "kmeans_assign_simdgroup",
            Kernel::KmeansAssignSimdgroupC16 => "kmeans_assign_simdgroup_c16",
            Kernel::KmeansAssignSplitd => "kmeans_assign_splitd",
            Kernel::KmeansCentroidTiled => "kmeans_centroid_tiled",
            Kernel::KmeansComputeMinDistances => "kmeans_compute_min_distances",
            Kernel::KnnAssignDense => "knn_assign_dense",
            Kernel::KnnAssignNaive => "knn_assign_naive",
            Kernel::KnnAssignSplitm => "knn_assign_splitm",
            Kernel::KnnGatherL2 => "knn_gather_l2",
            Kernel::LdaScatter => "lda_scatter",
            Kernel::LdaTransform => "lda_transform",
            Kernel::LinregGramXtxNaive => "linreg_gram_xtx_naive",
            Kernel::LinregGramXtxTiled => "linreg_gram_xtx_tiled",
            Kernel::LinregGramXty => "linreg_gram_xty",
            Kernel::LinregPredict => "linreg_predict",
            Kernel::LinregReduceGram => "linreg_reduce_gram",
            Kernel::LogregFusedNaive => "logreg_fused_fwd_bwd_naive",
            Kernel::LogregFusedSimdgroup => "logreg_fused_fwd_bwd_simdgroup",
            Kernel::LogregFusedSplitd => "logreg_fused_fwd_bwd_splitd",
            Kernel::LogregPredict => "logreg_predict",
            Kernel::LogregReducePartials => "logreg_reduce_partials",
            Kernel::NmfDiff => "nmf_diff",
            Kernel::NmfMm => "nmf_mm",
            Kernel::NmfUpdate => "nmf_update",
            Kernel::PcaCenter => "pca_center",
            Kernel::PcaMatmul => "pca_matmul",
            Kernel::PcaMean => "pca_mean",
            Kernel::PcaMeanFinal => "pca_mean_final",
            Kernel::PcaTransform => "pca_transform",
            Kernel::PcaTranspose => "pca_transpose",
            Kernel::SvmKernel => "svm_kernel",
            Kernel::SvmPredict => "svm_predict",
            Kernel::TsneDistances => "tsne_distances",
            Kernel::TsneGrad => "tsne_grad",
            Kernel::TsnePerplexity => "tsne_perplexity",
        }
    }
}

/// A device buffer: its place in the ledger and its length in bytes.
#[derive(Clone, Copy, Debug, PartialEq, Eq, Structural)]
pub struct Buffer {
    pub id: usize,
    pub byte_len: u64,
}

impl Buffer {
    /// The length of the buffer in bytes.
    pub fn length(&self) -> (r: u64)
        ensures
            r == self.byte_len,
    {
        self.byte_len
    }
}

/// Why the device could not be used.
#[derive(Clone, Copy, Debug, PartialEq, Eq, Structural)]
pub enum MetalError {
    /// No Metal device was found.
    NoDevice,
    /// The shader source did not compile.
    ShaderCompilation,
    /// The compiled library has no function of the kernel's name.
    FunctionNotFound(Kernel),
    /// No pipeline state could be made of the function.
    PipelineCreation,
}

/// What the device answered to a request for a compute pipeline. A pipeline that was made
/// is known by its place in the caller's table of pipelines.
#[derive(Clone, Copy, Debug, PartialEq, Eq, Structural)]
pub enum CompileOutcome {
    SourceRejected,
    FunctionMissing,
    PipelineRejected,
    Compiled(usize),
}

/// The ledger of the buffers that a piece of work has asked for.
#[derive(Debug)]
pub struct MetalContext {
    lengths: Vec<u64>,
}

impl View for MetalContext {
    type V = Seq<u64>;

    closed spec fn view(&self) -> Seq<u64> {
        self.lengths@
    }
}

/// Whether `buffer` stands in the ledger `lengths`.
pub open spec fn holds(lengths: Seq<u64>, buffer: Buffer) -> bool {
    buffer.id < lengths.len() && lengths[buffer.id as int] == buffer.byte_len
}

/// The buffer of `bytes` bytes that comes `offset` places after the first `start` ones.
pub open spec fn buffer_at(start: nat, offset: int, bytes: int) -> Buffer {
    Buffer { id: (start + offset) as usize, byte_len: bytes as u64 }
}

/// Buffers of the sizes `sizes` that were made one after the other stand in the ledger.
pub proof fn lemma_buffers_held(start: Seq<u64>, sizes: Seq<u64>)
    requires
        start.len() + sizes.len() <= usize::MAX,
    ensures
        forall|k: int|
            0 <= k < sizes.len() ==> holds(
                start + sizes,
                #[trigger] buffer_at(start.len(), k, sizes[k] as int),
            ),
{
}

impl MetalContext {
    /// A context with no buffers yet, provided that there is a device.
    pub fn new(device_found: bool) -> (r: Result<MetalContext, MetalError>)
        ensures
            device_found <==> r is Ok,
            r matches Ok(ctx) ==> ctx@ == Seq::<u64>::empty(),
            r matches Err(e) ==> e == MetalError::NoDevice,
    {
        if device_found {
            Ok(MetalContext { lengths: Vec::new() })
        } else {
            Err(MetalError::NoDevice)
        }
    }

    /// The pipeline that the device made of `kernel`, or which of the three steps failed.
    pub fn compile_kernel(&self, kernel: Kernel, outcome: CompileOutcome) -> (r: Result<
        usize,
        MetalError,
    >)
        ensures
            r == (match outcome {
                CompileOutcome::SourceRejected => Err::<usize, MetalError>(
                    MetalError::ShaderCompilation,
                ),
                CompileOutcome::FunctionMissing => Err(MetalError::FunctionNotFound(kernel)),
                CompileOutcome::PipelineRejected => Err(MetalError::PipelineCreation),
                CompileOutcome::Compiled(pipeline) => Ok(pipeline),
            }),
    {
        match outcome {
            CompileOutcome::SourceRejected => Err(MetalError::ShaderCompilation),
            CompileOutcome::FunctionMissing => Err(MetalError::FunctionNotFound(kernel)),
            CompileOutcome::PipelineRejected => Err(MetalError::PipelineCreation),
            CompileOutcome::Compiled(pipeline) => Ok(pipeline),
        }
    }

    /// A buffer for `words` uploaded four-byte elements.
    pub fn new_buffer(&mut self, words: usize) -> (r: Buffer)
        requires
            4 * words <= usize::MAX,
        ensures
            final(self)@ == old(self)@.push((4 * words) as u64),
            r.id == old(self)@.len(),
            r.byte_len == 4 * words,
            holds(final(self)@, r),
    {
        let bytes: u64 = (words * 4) as u64;
        self.new_buffer_uninitialized(bytes)
    }

    /// A buffer of `byte_size` bytes whose contents nothing has set.
    pub fn new_buffer_uninitialized(&mut self, byte_size: u64) -> (r: Buffer)
        ensures
            final(self)@ == old(self)@.push(byte_size),
            r.id == old(self)@.len(),
            r.byte_len == byte_size,
            holds(final(self)@, r),
    {
        let id: usize = self.lengths.len();
        self.lengths.push(byte_size);
        Buffer { id, byte_len: byte_size }
    }

    /// Whether `words` four-byte elements can be read from the start of `buffer`.
    pub fn read_buffer(&self, buffer: &Buffer, words: usize) -> (r: bool)
        ensures
            r == (holds(self@, *buffer) && 4 * words <= buffer.byte_len),
    {
        buffer.id < self.lengths.len() && self.lengths[buffer.id] == buffer.byte_len && words
            as u64 <= buffer.byte_len / 4
    }

    /// Whether `words` four-byte elements can be written to the start of `buffer`.
    pub fn write_buffer(&self, buffer: &Buffer, words: usize) -> (r: bool)
        ensures
            r == (holds(self@, *buffer) && 4 * words <= buffer.byte_len),
    {
        self.read_buffer(buffer, words)
    }
}

/// The extent of a grid or of a threadgroup.
#[derive(Clone, Copy, Debug, PartialEq, Eq, Structural)]
pub struct MTLSize {
    pub width: u64,
    pub height: u64,
    pub depth: u64,
}

/// An extent along the first axis alone.
pub open spec fn line(width: int) -> MTLSize {
    MTLSize { width: width as u64, height: 1, depth: 1 }
}

/// An extent along the first two axes.
pub open spec fn plane(width: int, height: int) -> MTLSize {
    MTLSize { width: width as u64, height: height as u64, depth: 1 }
}

impl MTLSize {
    /// An extent along the first axis alone.
    pub fn line(width: u64) -> (r: MTLSize)
        ensures
            r == line(width as int),
    {
        MTLSize { width, height: 1, depth: 1 }
    }

    /// An extent along the first two axes.
    pub fn plane(width: u64, height: u64) -> (r: MTLSize)
        ensures
            r == plane(width as int, height as int),
    {
        MTLSize { width, height, depth: 1 }
    }
}

/// What stands at one argument index of a kernel.
#[derive(Clone, Copy, Debug, PartialEq, Eq, Structural)]
pub enum Argument {
    /// A device buffer, from its start.
    Memory(Buffer),
    /// The four bytes of an unsigned integer.
    Word(u32),
    /// The four bytes of a number.
    Real(Float32),
}

/// One kernel dispatch. Argument `i` stands at index `i`.
#[derive(Debug)]
pub struct Launch {
    pub kernel: Kernel,
    pub arguments: Vec<Argument>,
    /// The bytes of threadgroup memory at index 0; zero where the kernel has none.
    pub threadgroup_bytes: u64,
    /// How many threadgroups there are.
    pub groups: MTLSize,
    /// How many threads each of them has.
    pub threads: MTLSize,
}

/// A `Launch`, with its arguments as a sequence.
#[verifier::ext_equal]
pub struct LaunchView {
    pub kernel: Kernel,
    pub arguments: Seq<Argument>,
    pub threadgroup_bytes: u64,
    pub groups: MTLSize,
    pub threads: MTLSize,
}

impl View for Launch {
    type V = LaunchView;

    open spec fn view(&self) -> LaunchView {
        LaunchView {
            kernel: self.kernel,
            arguments: self.arguments@,
            threadgroup_bytes: self.threadgroup_bytes,
            groups: self.groups,
            threads: self.threads,
        }
    }
}

impl LaunchView {
    /// Whether every buffer among the arguments stands in the ledger `lengths`.
    pub open spec fn bound_in(self, lengths: Seq<u64>) -> bool {
        forall|i: int|
            0 <= i < self.arguments.len() ==> ((#[trigger] self.arguments[i]) matches
                Argument::Memory(buffer) ==> holds(lengths, buffer))
    }

    /// How many threads the launch has along the first axis.
    pub open spec fn threads_across(self) -> int {
        self.groups.width * self.threads.width
    }

    /// How many threads the launch has along the second axis.
    pub open spec fn threads_down(self) -> int {
        self.groups.height * self.threads.height
    }
}

/// A view of a sequence of launches.
pub open spec fn views(launches: Seq<Launch>) -> Seq<LaunchView> {
    launches.map_values(|launch: Launch| launch@)
}

/// The number of groups of `size` that hold `count` elements.
pub open spec fn groups_of(count: int, size: int) -> int {
    (count + size - 1) / size
}

/// The number of groups of `size` that hold `count` elements.
pub fn group_count(count: u64, size: u64) -> (r: u64)
    requires
        size > 0,
        count + size - 1 <= u64::MAX,
    ensures
        r == groups_of(count as int, size as int),
{
    (count + (size - 1)) / size
}

/// Groups of `size` reach every one of `count` elements, and no group is idle.
pub proof fn lemma_groups_cover(count: int, size: int)
    requires
        count >= 0,
        size > 0,
    ensures
        groups_of(count, size) * size >= count,
        (groups_of(count, size) - 1) * size < count,
        0 <= groups_of(count, size) <= count,
        count > 0 ==> groups_of(count, size) >= 1,
{
    let q = (count + size - 1) / size;
    let r = (count + size - 1) % size;
    vstd::arithmetic::div_mod::lemma_fundamental_div_mod(count + size - 1, size);
    assert(q * size == size * q) by (nonlinear_arith);
    assert((q - 1) * size == q * size - size) by (nonlinear_arith);
    if q > count {
        assert(q * size >= (count + 1) * size) by (nonlinear_arith)
            requires
                q >= count + 1,
                size > 0,
        ;
        assert((count + 1) * size >= count + size) by (nonlinear_arith)
            requires
                count >= 0,
                size > 0,
        ;
    }
    assert(q >= 0) by (nonlinear_arith)
        requires
            q * size > count - size,
            count >= 0,
            size > 0,
            q * size > -size,
    ;
    if count > 0 {
        assert(q >= 1) by (nonlinear_arith)
            requires
                q * size >= 1,
                size > 0,
        ;
    }
}

/// An extent along the first axis has its width there, and is one wide along the others.
pub proof fn lemma_line_extent(width: int)
    requires
        0 <= width <= u64::MAX,
    ensures
        line(width).width == width,
        line(width).height == 1,
        line(width).depth == 1,
{
}

/// An extent along two axes has its width along the first and its height along the second.
pub proof fn lemma_plane_extent(width: int, height: int)
    requires
        0 <= width <= u64::MAX,
        0 <= height <= u64::MAX,
    ensures
        plane(width, height).width == width,
        plane(width, height).height == height,
        plane(width, height).depth == 1,
{
}

/// A line of groups of `size` threads has a thread for each of `count` elements, and less than
/// a group of them idle.
pub proof fn lemma_line_covers(count: int, size: int)
    requires
        0 <= count <= u64::MAX,
        0 < size <= u64::MAX,
    ensures
        line(groups_of(count, size)).width * line(size).width >= count,
        line(groups_of(count, size)).width * line(size).width < count + size,
        line(groups_of(count, size)).width * size >= count,
        line(groups_of(count, size)).height == 1,
        line(groups_of(count, size)).depth == 1,
        line(size).width == size,
        line(size).height == 1,
        line(size).depth == 1,
{
    lemma_groups_cover(count, size);
    let g = groups_of(count, size);
    assert((g - 1) * size == g * size - size) by (nonlinear_arith);
}

/// Tiles of 16 by 16 threads have a thread for each element of a matrix of `rows` rows and
/// `columns` columns.
pub proof fn lemma_tiles_cover(columns: int, rows: int)
    requires
        0 <= columns <= u64::MAX,
        0 <= rows <= u64::MAX,
    ensures
        ({
            let groups = plane(groups_of(columns, 16), groups_of(rows, 16));
            &&& groups.width * 16 >= columns
            &&& groups.width * 16 < columns + 16
            &&& groups.height * 16 >= rows
            &&& groups.height * 16 < rows + 16
            &&& groups.depth == 1
        }),
        plane(16, 16) == (MTLSize { width: 16, height: 16, depth: 1 }),
{
    lemma_groups_cover(columns, 16);
    lemma_groups_cover(rows, 16);
}

/// The buffer that comes `offset` places after `start` others has that place and that length.
pub proof fn lemma_buffer_place(start: nat, offset: int, bytes: int)
    requires
        0 <= offset,
        start + offset <= usize::MAX,
        0 <= bytes <= u64::MAX,
    ensures
        buffer_at(start, offset, bytes).id == start + offset,
        buffer_at(start, offset, bytes).byte_len == bytes,
{
}

/// The shader knows each kernel by a name of its own.
pub proof fn lemma_kernel_names()
    ensures
        Kernel::DbscanCount.function_name() == "dbscan_count"@,
        Kernel::DbscanGather.function_name() == "dbscan_gather"@,
        Kernel::GmmEStep.function_name() == "gmm_e_step"@,
        Kernel::GnbPredictLogp.function_name() == "gnb_predict_logp"@,
        Kernel::GnbReducePartials.function_name() == "gnb_reduce_partials"@,
        Kernel::GnbReduceSum.function_name() == "gnb_reduce_sum"@,
        Kernel::KmeansAssign.function_name() == "kmeans_assign"@,
        Kernel::KmeansAssignSimdgroup.function_name() == "kmeans_assign_simdgroup"@,
        Kernel::KmeansAssignSimdgroupC16.function_name() == "kmeans_assign_simdgroup_c16"@,
        Kernel::KmeansAssignSplitd.function_name() == "kmeans_assign_splitd"@,
        Kernel::KmeansCentroidTiled.function_name() == "kmeans_centroid_tiled"@,
        Kernel::KmeansComputeMinDistances.function_name() == "kmeans_compute_min_distances"@,
        Kernel::KnnAssignDense.function_name() == "knn_assign_dense"@,
        Kernel::KnnAssignNaive.function_name() == "knn_assign_naive"@,
        Kernel::KnnAssignSplitm.function_name() == "knn_assign_splitm"@,
        Kernel::KnnGatherL2.function_name() == "knn_gather_l2"@,
        Kernel::LdaScatter.function_name() == "lda_scatter"@,
        Kernel::LdaTransform.function_name() == "lda_transform"@,
        Kernel::LinregGramXtxNaive.function_name() == "linreg_gram_xtx_naive"@,
        Kernel::LinregGramXtxTiled.function_name() == "linreg_gram_xtx_tiled"@,
        Kernel::LinregGramXty.function_name() == "linreg_gram_xty"@,
        Kernel::LinregPredict.function_name() == "linreg_predict"@,
        Kernel::LinregReduceGram.function_name() == "linreg_reduce_gram"@,
        Kernel::LogregFusedNaive.function_name() == "logreg_fused_fwd_bwd_naive"@,
        Kernel::LogregFusedSimdgroup.function_name() == "logreg_fused_fwd_bwd_simdgroup"@,
        Kernel::LogregFusedSplitd.function_name() == "logreg_fused_fwd_bwd_splitd"@,
        Kernel::LogregPredict.function_name() == "logreg_predict"@,
        Kernel::LogregReducePartials.function_name() == "logreg_reduce_partials"@,
        Kernel::NmfDiff.function_name() == "nmf_diff"@,
        Kernel::NmfMm.function_name() == "nmf_mm"@,
        Kernel::NmfUpdate.function_name() == "nmf_update"@,
        Kernel::PcaCenter.function_name() == "pca_center"@,
        Kernel::PcaMatmul.function_name() == "pca_matmul"@,
        Kernel::PcaMean.function_name() == "pca_mean"@,
        Kernel::PcaMeanFinal.function_name() == "pca_mean_final"@,
        Kernel::PcaTransform.function_name() == "pca_transform"@,
        Kernel::PcaTranspose.function_name() == "pca_transpose"@,
        Kernel::SvmKernel.function_name() == "svm_kernel"@,
        Kernel::SvmPredict.function_name() == "svm_predict"@,
        Kernel::TsneDistances.function_name() == "tsne_distances"@,
        Kernel::TsneGrad.function_name() == "tsne_grad"@,
        Kernel::TsnePerplexity.function_name() == "tsne_perplexity"@,
{
}

} // verus!
