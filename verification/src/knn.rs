//! Exact nearest neighbours by brute force.
//!
//! The device scores the corpus against each query; adding the query's own norm makes a
//! squared distance of a score. Which kernel runs, which buffers are used again and what
//! becomes of a place that no neighbour filled is decided here.

use vstd::prelude::*;
use crate::float::{Float32, INFINITE_MAGNITUDE};
use crate::matrix::copied;
use crate::metal::{group_count, Argument, Buffer, Kernel, Launch, MTLSize, MetalContext};
use crate::shape::is_matrix;
#[allow(unused_imports)]
use crate::metal::{buffer_at, groups_of, holds, lemma_line_covers, lemma_tiles_cover, line, plane, LaunchView};
#[allow(unused_imports)]
use crate::shape::lemma_matrix_bounds;

verus! {

#[derive(Clone, Copy, Debug, PartialEq, Eq, Structural)]
pub struct KNNConfig {
    pub k: usize,
}

impl Default for KNNConfig {
    /// Five neighbours.
    fn default() -> (r: KNNConfig)
        ensures
            r.k == 5,
    {
        KNNConfig { k: 5 }
    }
}

/// Why a fit or a search was refused.
#[derive(Clone, Copy, Debug, PartialEq, Eq, Structural)]
pub enum KNNError {
    InvalidParameters { n: usize, d: usize },
    DataLength { n: usize, d: usize, got: usize },
    NotFitted,
    QueryLength,
}

/// How the corpus is searched.
#[derive(Clone, Copy, Debug, PartialEq, Eq, Structural)]
pub enum KernelVariant {
    Dense,
    Splitm,
    Naive,
}

/// How a corpus of `d` dimensions is searched for `k` neighbours.
pub open spec fn variant_for(k: usize, d: usize) -> KernelVariant {
    if d < 32 && k <= 64 {
        KernelVariant::Dense
    } else if d >= 8 && d % 8 == 0 && k <= 64 {
        KernelVariant::Splitm
    } else {
        KernelVariant::Naive
    }
}

impl KernelVariant {
    /// The kernel that searches in this way.
    pub open spec fn spec_kernel(self) -> Kernel {
        match self {
            KernelVariant::Dense => Kernel::KnnAssignDense,
            KernelVariant::Splitm => Kernel::KnnAssignSplitm,
            KernelVariant::Naive => Kernel::KnnAssignNaive,
        }
    }

    /// The kernel that searches in this way.
    pub fn kernel(self) -> (r: Kernel)
        ensures
            r == self.spec_kernel(),
    {
        match self {
            KernelVariant::Dense => Kernel::KnnAssignDense,
            KernelVariant::Splitm => Kernel::KnnAssignSplitm,
            KernelVariant::Naive => Kernel::KnnAssignNaive,
        }
    }
}

/// How a corpus of `d` dimensions is searched for `k` neighbours.
pub fn pick_variant(k: usize, d: usize) -> (r: KernelVariant)
    ensures
        r == variant_for(k, d),
{
    if d < 32 && k <= 64 {
        KernelVariant::Dense
    } else if d >= 8 && d % 8 == 0 && k <= 64 {
        KernelVariant::Splitm
    } else {
        KernelVariant::Naive
    }
}

/// The buffers that searches share; each is made when it is first needed, and again when it
/// is too small.
#[derive(Clone, Copy, Debug, PartialEq, Eq, Structural)]
pub struct Scratch {
    pub query: Option<Buffer>,
    pub norms_q: Option<Buffer>,
    pub out_score: Option<Buffer>,
    pub out_idx: Option<Buffer>,
}

pub struct KNN {
    pub config: KNNConfig,
    pub corpus: Vec<Float32>,
    pub n_corpus: usize,
    pub d: usize,
    /// The squared norm of each point of the corpus.
    pub norms_c: Vec<Float32>,
    pub variant: KernelVariant,
    pub corpus_buf: Option<Buffer>,
    pub norms_c_buf: Option<Buffer>,
    pub scratch: Scratch,
}

/// Why a fit is refused, if it is.
pub open spec fn fit_refusal(len: usize, n: usize, d: usize) -> Option<KNNError> {
    if n == 0 || d == 0 {
        Some(KNNError::InvalidParameters { n, d })
    } else if len != n * d {
        Some(KNNError::DataLength { n, d, got: len })
    } else {
        None
    }
}

/// Why a search is refused, if it is.
pub open spec fn search_refusal(n_corpus: usize, d: usize, len: usize, nq: usize) -> Option<
    KNNError,
> {
    if n_corpus == 0 {
        Some(KNNError::NotFitted)
    } else if len != nq * d {
        Some(KNNError::QueryLength)
    } else {
        None
    }
}

/// The bytes of threadgroup memory of the split search.
pub open spec fn splitm_bytes(d: int, k: int) -> int {
    4 * (16 * d + 8 * d + ((d + 7) / 8) * 128 + 32 * k)
}

/// The buffers of a search.
#[derive(Clone, Copy, Debug, PartialEq, Eq, Structural)]
pub struct SearchBuffers {
    pub query: Buffer,
    pub corpus: Buffer,
    pub out_score: Buffer,
    pub out_idx: Buffer,
    pub norms_q: Buffer,
    pub norms_c: Buffer,
}

/// The buffers and the launch of a search.
pub struct SearchPass {
    pub buffers: SearchBuffers,
    pub launch: Launch,
}

/// The launch of a search for the `k` neighbours of `nq` queries.
pub open spec fn search_launch(
    b: SearchBuffers,
    variant: KernelVariant,
    nq: usize,
    n_corpus: usize,
    d: usize,
    k: usize,
) -> LaunchView {
    let shared = seq![
        Argument::Memory(b.query),
        Argument::Memory(b.corpus),
        Argument::Memory(b.out_score),
        Argument::Memory(b.out_idx),
        Argument::Memory(b.norms_q),
        Argument::Memory(b.norms_c),
        Argument::Word(nq as u32),
        Argument::Word(n_corpus as u32),
        Argument::Word(d as u32),
        Argument::Word(k as u32),
    ];
    let split = seq![Argument::Word(1), Argument::Word(n_corpus as u32)];
    match variant {
        KernelVariant::Dense => LaunchView {
            kernel: Kernel::KnnAssignDense,
            arguments: shared,
            threadgroup_bytes: 0,
            groups: line(groups_of(nq as int, 128)),
            threads: line(128),
        },
        KernelVariant::Splitm => LaunchView {
            kernel: Kernel::KnnAssignSplitm,
            arguments: shared + split,
            threadgroup_bytes: splitm_bytes(d as int, k as int) as u64,
            groups: plane(1, groups_of(nq as int, 16)),
            threads: line(128),
        },
        KernelVariant::Naive => LaunchView {
            kernel: Kernel::KnnAssignNaive,
            arguments: shared + split,
            threadgroup_bytes: 0,
            groups: line(groups_of(nq as int, 256)),
            threads: line(256),
        },
    }
}

/// The buffer to use for `bytes` bytes, given the one at hand: it, if it is large enough.
pub open spec fn reused(at_hand: Option<Buffer>, bytes: int, ledger: Seq<u64>) -> (Buffer, Seq<u64>) {
    match at_hand {
        Some(buffer) => if buffer.byte_len >= bytes {
            (buffer, ledger)
        } else {
            (buffer_at(ledger.len(), 0, bytes), ledger.push(bytes as u64))
        },
        None => (buffer_at(ledger.len(), 0, bytes), ledger.push(bytes as u64)),
    }
}

fn reuse(ctx: &mut MetalContext, at_hand: Option<Buffer>, bytes: u64) -> (r: Buffer)
    ensures
        (r, final(ctx)@) == reused(at_hand, bytes as int, old(ctx)@),
{
    match at_hand {
        Some(buffer) => {
            if buffer.length() >= bytes {
                buffer
            } else {
                ctx.new_buffer_uninitialized(bytes)
            }
        },
        None => ctx.new_buffer_uninitialized(bytes),
    }
}

/// The buffers of a search, with the ledger that it leaves.
pub open spec fn searched(
    scratch: Scratch,
    corpus: Buffer,
    norms_c: Buffer,
    query_bytes: int,
    norm_bytes: int,
    out_bytes: int,
    ledger: Seq<u64>,
) -> (SearchBuffers, Seq<u64>) {
    let (query, ledger) = reused(scratch.query, query_bytes, ledger);
    let (norms_q, ledger) = reused(scratch.norms_q, norm_bytes, ledger);
    let (out_score, ledger) = reused(scratch.out_score, out_bytes, ledger);
    let (out_idx, ledger) = reused(scratch.out_idx, out_bytes, ledger);
    (SearchBuffers { query, corpus, out_score, out_idx, norms_q, norms_c }, ledger)
}

/// The distances and indices that a search gives: a place that holds no point of the corpus
/// gets an infinite distance and index 0.
pub open spec fn cleaned(indices: Seq<u32>, distances: Seq<Float32>, n_corpus: usize) -> (Seq<
    Float32,
>, Seq<u32>) {
    (
        Seq::new(
            indices.len(),
            |i: int|
                if indices[i] < n_corpus as u32 {
                    distances[i]
                } else {
                    Float32 { bits: INFINITE_MAGNITUDE }
                },
        ),
        Seq::new(
            indices.len(),
            |i: int|
                if indices[i] < n_corpus as u32 {
                    indices[i]
                } else {
                    0
                },
        ),
    )
}

impl KNN {
    pub fn new(config: KNNConfig) -> (r: KNN)
        ensures
            r.config == config,
            r.corpus@ == Seq::<Float32>::empty(),
            r.n_corpus == 0,
            r.d == 0,
            r.norms_c@ == Seq::<Float32>::empty(),
            r.variant == KernelVariant::Dense,
            r.corpus_buf is None,
            r.norms_c_buf is None,
            r.scratch == (Scratch { query: None, norms_q: None, out_score: None, out_idx: None }),
    {
        KNN {
            config,
            corpus: Vec::new(),
            n_corpus: 0,
            d: 0,
            norms_c: Vec::new(),
            variant: KernelVariant::Dense,
            corpus_buf: None,
            norms_c_buf: None,
            scratch: Scratch { query: None, norms_q: None, out_score: None, out_idx: None },
        }
    }

    /// Whether a fit on `n` points of `d` dimensions is taken.
    pub fn check_fit(data: &[Float32], n: usize, d: usize) -> (r: Result<(), KNNError>)
        ensures
            r == (match fit_refusal(data@.len() as usize, n, d) {
                Some(e) => Err::<(), KNNError>(e),
                None => Ok(()),
            }),
    {
        if n == 0 || d == 0 {
            return Err(KNNError::InvalidParameters { n, d });
        }
        if !is_matrix(data.len(), n, d) {
            return Err(KNNError::DataLength { n, d, got: data.len() });
        }
        Ok(())
    }

    /// Takes `n` points of `d` dimensions, with the squared norm of each, as the corpus, and
    /// picks the kernel that searches them.
    pub fn fit(
        &mut self,
        ctx: &mut MetalContext,
        data: &[Float32],
        norms: Vec<Float32>,
        n: usize,
        d: usize,
    ) -> (r: Result<Kernel, KNNError>)
        requires
            4 * data@.len() <= usize::MAX,
            fit_refusal(data@.len() as usize, n, d) is None ==> norms@.len() == n,
        ensures
            match fit_refusal(data@.len() as usize, n, d) {
                Some(e) => r == Err::<Kernel, KNNError>(e) && *final(self) == *old(self)
                    && *final(ctx) == *old(ctx),
                None => {
                    &&& r == Ok::<Kernel, KNNError>(
                        variant_for(old(self).config.k, d).spec_kernel(),
                    )
                    &&& final(ctx)@ == old(ctx)@ + seq![(4 * (n * d)) as u64, (4 * n) as u64]
                    &&& final(self).config == old(self).config
                    &&& final(self).corpus@ == data@
                    &&& final(self).n_corpus == n
                    &&& final(self).d == d
                    &&& final(self).norms_c == norms
                    &&& final(self).variant == variant_for(old(self).config.k, d)
                    &&& final(self).corpus_buf == Some(
                        buffer_at(old(ctx)@.len(), 0, 4 * (n * d)),
                    )
                    &&& final(self).norms_c_buf == Some(buffer_at(old(ctx)@.len(), 1, 4 * n))
                    &&& final(self).scratch == old(self).scratch
                },
            },
    {
        if n == 0 || d == 0 {
            return Err(KNNError::InvalidParameters { n, d });
        }
        if !is_matrix(data.len(), n, d) {
            return Err(KNNError::DataLength { n, d, got: data.len() });
        }
        proof {
            lemma_matrix_bounds(data@.len() as int, n as int, d as int);
        }
        self.corpus = copied(data);
        self.n_corpus = n;
        self.d = d;
        let ghost start = ctx@;
        let corpus: Buffer = ctx.new_buffer(data.len());
        let norms_buffer: Buffer = ctx.new_buffer(norms.len());
        assert(ctx@ =~= start + seq![(4 * (n * d)) as u64, (4 * n) as u64]);
        self.norms_c = norms;
        self.corpus_buf = Some(corpus);
        self.norms_c_buf = Some(norms_buffer);
        self.variant = pick_variant(self.config.k, d);
        Ok(self.variant.kernel())
    }

    /// Whether a search for `nq` queries is taken.
    pub fn check_search(&self, queries: &[Float32], nq: usize) -> (r: Result<(), KNNError>)
        ensures
            r == (match search_refusal(self.n_corpus, self.d, queries@.len() as usize, nq) {
                Some(e) => Err::<(), KNNError>(e),
                None => Ok(()),
            }),
    {
        if self.n_corpus == 0 {
            return Err(KNNError::NotFitted);
        }
        if !is_matrix(queries.len(), nq, self.d) {
            return Err(KNNError::QueryLength);
        }
        Ok(())
    }

    /// The buffers and the launch that find the neighbours of `nq` queries. Buffers of an
    /// earlier search serve again where they are large enough.
    pub fn kneighbors(&mut self, ctx: &mut MetalContext, queries: &[Float32], nq: usize) -> (r:
        Result<SearchPass, KNNError>)
        requires
            4 * queries@.len() <= usize::MAX,
            search_refusal(old(self).n_corpus, old(self).d, queries@.len() as usize, nq) is None
                ==> {
                &&& old(self).corpus_buf is Some
                &&& old(self).norms_c_buf is Some
                &&& 4 * nq + 255 <= usize::MAX
                &&& 4 * (nq * old(self).config.k) <= usize::MAX
                &&& splitm_bytes(old(self).d as int, old(self).config.k as int) <= usize::MAX
            },
        ensures
            final(self).config == old(self).config,
            final(self).corpus == old(self).corpus,
            final(self).n_corpus == old(self).n_corpus,
            final(self).d == old(self).d,
            final(self).norms_c == old(self).norms_c,
            final(self).variant == old(self).variant,
            final(self).corpus_buf == old(self).corpus_buf,
            final(self).norms_c_buf == old(self).norms_c_buf,
            match search_refusal(old(self).n_corpus, old(self).d, queries@.len() as usize, nq) {
                Some(e) => r == Err::<SearchPass, KNNError>(e) && final(self).scratch == old(
                    self).scratch && *final(ctx) == *old(ctx),
                None => r matches Ok(pass) && {
                    &&& (pass.buffers, final(ctx)@) == searched(
                        old(self).scratch,
                        old(self).corpus_buf->0,
                        old(self).norms_c_buf->0,
                        4 * queries@.len() as int,
                        4 * nq,
                        4 * (nq * old(self).config.k),
                        old(ctx)@,
                    )
                    &&& final(self).scratch == (Scratch {
                        query: Some(pass.buffers.query),
                        norms_q: Some(pass.buffers.norms_q),
                        out_score: Some(pass.buffers.out_score),
                        out_idx: Some(pass.buffers.out_idx),
                    })
                    &&& pass.launch@ == search_launch(
                        pass.buffers,
                        old(self).variant,
                        nq,
                        old(self).n_corpus,
                        old(self).d,
                        old(self).config.k,
                    )
                    &&& old(self).variant is Dense || old(self).variant is Naive
                        ==> pass.launch.groups.width * pass.launch.threads.width >= nq
                    &&& old(self).variant is Splitm ==> 16 * pass.launch.groups.height >= nq
                },
            },
    {
        if self.n_corpus == 0 {
            return Err(KNNError::NotFitted);
        }
        if !is_matrix(queries.len(), nq, self.d) {
            return Err(KNNError::QueryLength);
        }
        let k: usize = self.config.k;
        let corpus: Buffer = match self.corpus_buf {
            Some(buffer) => buffer,
            None => {
                return Err(KNNError::NotFitted);
            },
        };
        let norms_c: Buffer = match self.norms_c_buf {
            Some(buffer) => buffer,
            None => {
                return Err(KNNError::NotFitted);
            },
        };
        let query: Buffer = reuse(ctx, self.scratch.query, (queries.len() * 4) as u64);
        let norms_q: Buffer = reuse(ctx, self.scratch.norms_q, (nq * 4) as u64);
        let out_bytes: u64 = (nq * k * 4) as u64;
        let out_score: Buffer = reuse(ctx, self.scratch.out_score, out_bytes);
        let out_idx: Buffer = reuse(ctx, self.scratch.out_idx, out_bytes);
        self.scratch = Scratch {
            query: Some(query),
            norms_q: Some(norms_q),
            out_score: Some(out_score),
            out_idx: Some(out_idx),
        };
        let buffers = SearchBuffers { query, corpus, out_score, out_idx, norms_q, norms_c };
        let launch: Launch = launch_search(&buffers, self.variant, nq, self.n_corpus, self.d, k);
        proof {
            lemma_search_reaches_every_query(buffers, nq, self.n_corpus, self.d, k);
        }
        Ok(SearchPass { buffers, launch })
    }

    /// Makes the result of what the device found: `indices` as it wrote them, and for each of
    /// them a distance, the sum of score and query norm.
    pub fn clean(&self, indices: &[u32], distances: &[Float32]) -> (r: (Vec<Float32>, Vec<u32>))
        requires
            indices@.len() == distances@.len(),
        ensures
            (r.0@, r.1@) == cleaned(indices@, distances@, self.n_corpus),
    {
        let limit: u32 = #[verifier::truncate] (self.n_corpus as u32);
        let mut out_d: Vec<Float32> = Vec::new();
        let mut out_i: Vec<u32> = Vec::new();
        let mut i: usize = 0;
        while i < indices.len()
            invariant
                i <= indices@.len(),
                indices@.len() == distances@.len(),
                limit == self.n_corpus as u32,
                out_d@.len() == i,
                out_i@.len() == i,
                forall|j: int|
                    0 <= j < i ==> #[trigger] out_d@[j] == cleaned(
                        indices@,
                        distances@,
                        self.n_corpus,
                    ).0[j],
                forall|j: int|
                    0 <= j < i ==> #[trigger] out_i@[j] == cleaned(
                        indices@,
                        distances@,
                        self.n_corpus,
                    ).1[j],
            decreases indices@.len() - i,
        {
            if indices[i] < limit {
                out_d.push(distances[i]);
                out_i.push(indices[i]);
            } else {
                out_d.push(Float32 { bits: INFINITE_MAGNITUDE });
                out_i.push(0);
            }
            i += 1;
        }
        assert(out_d@ =~= cleaned(indices@, distances@, self.n_corpus).0);
        assert(out_i@ =~= cleaned(indices@, distances@, self.n_corpus).1);
        (out_d, out_i)
    }
}

fn launch_search(
    b: &SearchBuffers,
    variant: KernelVariant,
    nq: usize,
    n_corpus: usize,
    d: usize,
    k: usize,
) -> (r: Launch)
    requires
        nq + 255 <= usize::MAX,
        splitm_bytes(d as int, k as int) <= usize::MAX,
    ensures
        r@ == search_launch(*b, variant, nq, n_corpus, d, k),
{
    let mut arguments: Vec<Argument> = vec![
        Argument::Memory(b.query),
        Argument::Memory(b.corpus),
        Argument::Memory(b.out_score),
        Argument::Memory(b.out_idx),
        Argument::Memory(b.norms_q),
        Argument::Memory(b.norms_c),
        Argument::Word(#[verifier::truncate] (nq as u32)),
        Argument::Word(#[verifier::truncate] (n_corpus as u32)),
        Argument::Word(#[verifier::truncate] (d as u32)),
        Argument::Word(#[verifier::truncate] (k as u32)),
    ];
    match variant {
        KernelVariant::Dense => {
            let r = Launch {
                kernel: Kernel::KnnAssignDense,
                arguments,
                threadgroup_bytes: 0,
                groups: MTLSize::line(group_count(nq as u64, 128)),
                threads: MTLSize::line(128),
            };
            assert(r@ =~= search_launch(*b, variant, nq, n_corpus, d, k));
            r
        },
        KernelVariant::Splitm => {
            arguments.push(Argument::Word(1));
            arguments.push(Argument::Word(#[verifier::truncate] (n_corpus as u32)));
            let tiles: usize = (d + 7) / 8;
            let floats: usize = 16 * d + d * 8 + tiles * 16 * 8 + 16 * k + 16 * k;
            let r = Launch {
                kernel: Kernel::KnnAssignSplitm,
                arguments,
                threadgroup_bytes: (floats as u64) * 4,
                groups: MTLSize::plane(1, group_count(nq as u64, 16)),
                threads: MTLSize::line(128),
            };
            assert(r@ =~= search_launch(*b, variant, nq, n_corpus, d, k));
            r
        },
        KernelVariant::Naive => {
            arguments.push(Argument::Word(1));
            arguments.push(Argument::Word(#[verifier::truncate] (n_corpus as u32)));
            let r = Launch {
                kernel: Kernel::KnnAssignNaive,
                arguments,
                threadgroup_bytes: 0,
                groups: MTLSize::line(group_count(nq as u64, 256)),
                threads: MTLSize::line(256),
            };
            assert(r@ =~= search_launch(*b, variant, nq, n_corpus, d, k));
            r
        },
    }
}

/// A search no larger than the one before makes no buffer: it has the buffers of that one.
pub proof fn lemma_buffers_reused(
    b: SearchBuffers,
    query_bytes: int,
    norm_bytes: int,
    out_bytes: int,
    ledger: Seq<u64>,
)
    requires
        query_bytes <= b.query.byte_len,
        norm_bytes <= b.norms_q.byte_len,
        out_bytes <= b.out_score.byte_len,
        out_bytes <= b.out_idx.byte_len,
    ensures
        searched(
            Scratch {
                query: Some(b.query),
                norms_q: Some(b.norms_q),
                out_score: Some(b.out_score),
                out_idx: Some(b.out_idx),
            },
            b.corpus,
            b.norms_c,
            query_bytes,
            norm_bytes,
            out_bytes,
            ledger,
        ) == (b, ledger),
{
}

/// Whatever buffers are at hand, those of a search hold all that it reads and writes.
pub proof fn lemma_search_buffers_suffice(
    scratch: Scratch,
    corpus: Buffer,
    norms_c: Buffer,
    query_bytes: int,
    norm_bytes: int,
    out_bytes: int,
    ledger: Seq<u64>,
)
    requires
        0 <= query_bytes <= u64::MAX,
        0 <= norm_bytes <= u64::MAX,
        0 <= out_bytes <= u64::MAX,
    ensures
        ({
            let (b, after) = searched(
                scratch,
                corpus,
                norms_c,
                query_bytes,
                norm_bytes,
                out_bytes,
                ledger,
            );
            &&& b.query.byte_len >= query_bytes
            &&& b.norms_q.byte_len >= norm_bytes
            &&& b.out_score.byte_len >= out_bytes
            &&& b.out_idx.byte_len >= out_bytes
            &&& b.corpus == corpus
            &&& b.norms_c == norms_c
        }),
{
}

/// Every index that a search gives is that of a point of the corpus.
pub proof fn lemma_indices_in_corpus(
    indices: Seq<u32>,
    distances: Seq<Float32>,
    n_corpus: usize,
    i: int,
)
    requires
        n_corpus > 0,
        0 <= i < indices.len(),
    ensures
        cleaned(indices, distances, n_corpus).1[i] < n_corpus,
{
    assert((n_corpus as u32) <= n_corpus) by (bit_vector);
}

/// The kernel by shape: more than 64 neighbours are searched for plainly; up to 64 densely below
/// 32 dimensions, by tiles where the dimensions fill tiles of eight, and plainly else.
pub proof fn lemma_variant_by_shape(k: usize, d: usize)
    ensures
        k > 64 ==> variant_for(k, d) is Naive,
        k <= 64 && d < 32 ==> variant_for(k, d) is Dense,
        k <= 64 && d >= 32 && d % 8 == 0 ==> variant_for(k, d) is Splitm,
        k <= 64 && d >= 32 && d % 8 != 0 ==> variant_for(k, d) is Naive,
        KernelVariant::Dense.spec_kernel() == Kernel::KnnAssignDense,
        KernelVariant::Splitm.spec_kernel() == Kernel::KnnAssignSplitm,
        KernelVariant::Naive.spec_kernel() == Kernel::KnnAssignNaive,
{
}

/// Whatever kernel is picked, a search reaches every query: there is a thread for each, or a
/// group of threads for each 16. It binds the queries, the corpus, where scores and places go and
/// both norms, and says how many queries, points, dimensions and neighbours there are.
pub proof fn lemma_search_reaches_every_query(
    b: SearchBuffers,
    nq: usize,
    n_corpus: usize,
    d: usize,
    k: usize,
)
    requires
        splitm_bytes(d as int, k as int) <= u64::MAX,
    ensures
        ({
            let l = search_launch(b, KernelVariant::Dense, nq, n_corpus, d, k);
            &&& l.kernel == Kernel::KnnAssignDense
            &&& l.arguments.len() == 10
            &&& l.arguments[0] == Argument::Memory(b.query)
            &&& l.arguments[1] == Argument::Memory(b.corpus)
            &&& l.arguments[2] == Argument::Memory(b.out_score)
            &&& l.arguments[3] == Argument::Memory(b.out_idx)
            &&& l.arguments[4] == Argument::Memory(b.norms_q)
            &&& l.arguments[5] == Argument::Memory(b.norms_c)
            &&& l.arguments[6] == Argument::Word(nq as u32)
            &&& l.arguments[7] == Argument::Word(n_corpus as u32)
            &&& l.arguments[8] == Argument::Word(d as u32)
            &&& l.arguments[9] == Argument::Word(k as u32)
            &&& l.threadgroup_bytes == 0
            &&& l.groups.width * l.threads.width >= nq
            &&& l.groups.width * l.threads.width < nq + 128
            &&& l.threads.width == 128
            &&& l.groups.height == 1 && l.threads.height == 1
        }),
        ({
            let l = search_launch(b, KernelVariant::Naive, nq, n_corpus, d, k);
            &&& l.kernel == Kernel::KnnAssignNaive
            &&& l.arguments.len() == 12
            &&& l.arguments[0] == Argument::Memory(b.query)
            &&& l.arguments[1] == Argument::Memory(b.corpus)
            &&& l.arguments[2] == Argument::Memory(b.out_score)
            &&& l.arguments[3] == Argument::Memory(b.out_idx)
            &&& l.arguments[4] == Argument::Memory(b.norms_q)
            &&& l.arguments[5] == Argument::Memory(b.norms_c)
            &&& l.arguments[6] == Argument::Word(nq as u32)
            &&& l.arguments[7] == Argument::Word(n_corpus as u32)
            &&& l.arguments[8] == Argument::Word(d as u32)
            &&& l.arguments[9] == Argument::Word(k as u32)
            &&& l.arguments[10] == Argument::Word(1)
            &&& l.arguments[11] == Argument::Word(n_corpus as u32)
            &&& l.threadgroup_bytes == 0
            &&& l.groups.width * l.threads.width >= nq
            &&& l.groups.width * l.threads.width < nq + 256
            &&& l.threads.width == 256
            &&& l.groups.height == 1 && l.threads.height == 1
        }),
        ({
            let l = search_launch(b, KernelVariant::Splitm, nq, n_corpus, d, k);
            &&& l.kernel == Kernel::KnnAssignSplitm
            &&& l.arguments.len() == 12
            &&& l.arguments[0] == Argument::Memory(b.query)
            &&& l.arguments[1] == Argument::Memory(b.corpus)
            &&& l.arguments[2] == Argument::Memory(b.out_score)
            &&& l.arguments[3] == Argument::Memory(b.out_idx)
            &&& l.arguments[4] == Argument::Memory(b.norms_q)
            &&& l.arguments[5] == Argument::Memory(b.norms_c)
            &&& l.arguments[6] == Argument::Word(nq as u32)
            &&& l.arguments[7] == Argument::Word(n_corpus as u32)
            &&& l.arguments[8] == Argument::Word(d as u32)
            &&& l.arguments[9] == Argument::Word(k as u32)
            &&& l.arguments[10] == Argument::Word(1)
            &&& l.arguments[11] == Argument::Word(n_corpus as u32)
            &&& d % 8 == 0 ==> l.threadgroup_bytes == 160 * d + 128 * k
            &&& 16 * l.groups.height >= nq
            &&& 16 * l.groups.height < nq + 16
            &&& l.groups.width == 1 && l.groups.depth == 1
            &&& l.threads.width == 128 && l.threads.height == 1
        }),
{
    lemma_line_covers(nq as int, 128);
    lemma_line_covers(nq as int, 256);
    lemma_tiles_cover(nq as int, nq as int);
}

/// A buffer at hand is used again exactly when it is long enough; else a new one is made, of just
/// the length that is needed.
pub proof fn lemma_buffer_reuse(at_hand: Option<Buffer>, bytes: int, ledger: Seq<u64>)
    requires
        0 <= bytes <= u64::MAX,
        ledger.len() < usize::MAX,
    ensures
        ({
            let (buffer, after) = reused(at_hand, bytes, ledger);
            let kept = at_hand matches Some(b) && b.byte_len >= bytes;
            &&& buffer.byte_len >= bytes
            &&& kept ==> at_hand == Some(buffer) && after == ledger
            &&& !kept ==> buffer.id == ledger.len() && buffer.byte_len == bytes && after
                == ledger.push(bytes as u64)
        }),
{
}

/// A first search makes its four buffers one after the other: for the queries, their norms, the
/// scores and the places.
pub proof fn lemma_first_search_buffers(
    corpus: Buffer,
    norms_c: Buffer,
    query_bytes: int,
    norm_bytes: int,
    out_bytes: int,
    ledger: Seq<u64>,
)
    requires
        0 <= query_bytes <= u64::MAX,
        0 <= norm_bytes <= u64::MAX,
        0 <= out_bytes <= u64::MAX,
        ledger.len() + 4 <= usize::MAX,
    ensures
        ({
            let (b, after) = searched(
                Scratch { query: None, norms_q: None, out_score: None, out_idx: None },
                corpus,
                norms_c,
                query_bytes,
                norm_bytes,
                out_bytes,
                ledger,
            );
            &&& b.query.id == ledger.len() && b.query.byte_len == query_bytes
            &&& b.norms_q.id == ledger.len() + 1 && b.norms_q.byte_len == norm_bytes
            &&& b.out_score.id == ledger.len() + 2 && b.out_score.byte_len == out_bytes
            &&& b.out_idx.id == ledger.len() + 3 && b.out_idx.byte_len == out_bytes
            &&& b.corpus == corpus && b.norms_c == norms_c
            &&& after == ledger + seq![
                query_bytes as u64,
                norm_bytes as u64,
                out_bytes as u64,
                out_bytes as u64,
            ]
        }),
{
    assert(ledger.push(query_bytes as u64).push(norm_bytes as u64).push(out_bytes as u64).push(
        out_bytes as u64,
    ) =~= ledger + seq![
        query_bytes as u64,
        norm_bytes as u64,
        out_bytes as u64,
        out_bytes as u64,
    ]);
}

/// A neighbour in the corpus keeps its place and its distance; any other place becomes the first,
/// at an infinite distance.
pub proof fn lemma_cleaned(
    indices: Seq<u32>,
    distances: Seq<Float32>,
    n_corpus: usize,
    i: int,
)
    requires
        0 <= i < indices.len(),
        n_corpus <= u32::MAX,
    ensures
        ({
            let (kept, places) = cleaned(indices, distances, n_corpus);
            &&& kept.len() == indices.len() && places.len() == indices.len()
            &&& indices[i] < n_corpus ==> kept[i] == distances[i] && places[i] == indices[i]
            &&& indices[i] >= n_corpus ==> kept[i].bits == 0x7f80_0000 && places[i] == 0
        }),
{
}

/// When a fit and a search are taken, and why not.
pub proof fn lemma_refusals(len: usize, n: usize, d: usize, n_corpus: usize, nq: usize)
    ensures
        ({
            let r = fit_refusal(len, n, d);
            &&& r is None <==> (n > 0 && d > 0) && (len == n * d)
            &&& !(n > 0 && d > 0) ==> r == Some(KNNError::InvalidParameters { n, d })
            &&& (n > 0 && d > 0) && !(len == n * d) ==> r == Some(KNNError::DataLength { n, d, got: len })
        }),
        ({
            let r = search_refusal(n_corpus, d, len, nq);
            &&& r is None <==> (n_corpus > 0) && (len == nq * d)
            &&& !(n_corpus > 0) ==> r == Some(KNNError::NotFitted)
            &&& (n_corpus > 0) && !(len == nq * d) ==> r == Some(KNNError::QueryLength)
        }),
{
}

} // verus!
