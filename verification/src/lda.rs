//! Linear discriminant analysis.
//!
//! The device multiplies the data with itself; the host makes scatter matrices of it and
//! decomposes them. Which labels are one class, how many axes there are, in which order they
//! come and which class a projected point belongs to is decided here.

use vstd::prelude::*;
use crate::float::Float32;
use crate::matrix::{ascending_order, gather, pick_rows, take_leading};
use crate::metal::{group_count, Argument, Buffer, Kernel, Launch, MTLSize, MetalContext};
use crate::pipeline::PipelineCache;
use crate::select::argmin;
use crate::shape::is_matrix;
use crate::tally::{count_agreements, tally};
#[allow(unused_imports)]
use crate::matrix::{ascending, entry, gathered, leading, rows_of};
#[allow(unused_imports)]
use crate::metal::{buffer_at, groups_of, lemma_tiles_cover, plane, LaunchView};
#[allow(unused_imports)]
use crate::select::first_least;
#[allow(unused_imports)]
use crate::shape::{lemma_matrix_index, lemma_matrix_position};
#[allow(unused_imports)]
use crate::tally::{agreements, occurrences};
#[allow(unused_imports)]
use crate::float::lemma_approximates;
#[allow(unused_imports)]
use vstd::arithmetic::power2::{lemma2_to64, lemma2_to64_rest, lemma_pow2_adds, pow2};

verus! {

/// Labels that differ by no more than this are one class: 1e-9.
pub const LABEL_TOLERANCE: u32 = 0x3089_705f;

#[derive(Clone, Copy, Debug, PartialEq, Eq, Structural)]
pub struct LDAConfig {
    /// How many axes to keep, at most as many as are informative.
    pub n_components: usize,
}

impl Default for LDAConfig {
    /// Two axes.
    fn default() -> (r: LDAConfig)
        ensures
            r.n_components == 2,
    {
        LDAConfig { n_components: 2 }
    }
}

/// Why a fit, a transform or a prediction was refused.
#[derive(Clone, Copy, Debug, PartialEq, Eq, Structural)]
pub enum LDAError {
    Empty,
    DataLength,
    LabelLength,
    /// There are fewer than two classes.
    Classes,
    /// A label of the fitted data belongs to no class.
    LabelNotFound,
    Dimension { expected: usize, got: usize },
    NotFitted,
    /// The label of this sample belongs to no fitted class.
    UnseenLabel { sample: usize },
}

pub struct LDA {
    pub config: LDAConfig,
    pub gram: Vec<Float32>,
    pub scalings: Vec<Float32>,
    pub mean: Vec<Float32>,
    pub n_components: usize,
    pub n: usize,
    pub d: usize,
    pub eigenvalues: Vec<Float32>,
    pub classes: Vec<Float32>,
    pub class_counts: Vec<Float32>,
    pub means: Vec<Float32>,
    pub proj_means: Vec<Float32>,
    /// The pipelines compiled so far.
    pub pipelines: PipelineCache,
}

/// Why a fit is refused, if it is.
pub open spec fn fit_refusal(len: usize, labels: usize, n: usize, d: usize) -> Option<LDAError> {
    if n == 0 || d == 0 {
        Some(LDAError::Empty)
    } else if len != n * d {
        Some(LDAError::DataLength)
    } else if labels != n {
        Some(LDAError::LabelLength)
    } else {
        None
    }
}

/// Why a transform is refused, if it is.
pub open spec fn transform_refusal(
    fitted_d: usize,
    scalings: nat,
    len: usize,
    n: usize,
    d: usize,
) -> Option<LDAError> {
    if d != fitted_d {
        Some(LDAError::Dimension { expected: fitted_d, got: d })
    } else if len != n * d {
        Some(LDAError::DataLength)
    } else if scalings == 0 {
        Some(LDAError::NotFitted)
    } else {
        None
    }
}

/// Why a prediction is refused, if it is.
pub open spec fn predict_refusal(
    fitted_d: usize,
    scalings: nat,
    len: usize,
    n: usize,
    d: usize,
) -> Option<LDAError> {
    if scalings == 0 {
        Some(LDAError::NotFitted)
    } else {
        transform_refusal(fitted_d, scalings, len, n, d)
    }
}

/// How many axes come out: as many as wanted, no more than one less than there are classes
/// and no more than there are features, but one at least.
pub open spec fn axis_count(wanted: usize, classes: nat, d: usize) -> int {
    let rank = if classes - 1 < d {
        classes - 1
    } else {
        d as int
    };
    let kept = if wanted < rank {
        wanted as int
    } else {
        rank
    };
    if kept < 1 {
        1
    } else {
        kept
    }
}

/// Whether two labels that differ by `gap` are one class.
pub open spec fn one_class(gap: Float32) -> bool {
    gap.abs_value().le(Float32 { bits: LABEL_TOLERANCE })
}

/// The first place at which the gap between a label and a class is small enough.
pub open spec fn class_place(gaps: Seq<Float32>, r: Option<usize>) -> bool {
    match r {
        Some(place) => {
            &&& place < gaps.len()
            &&& one_class(gaps[place as int])
            &&& forall|j: int| 0 <= j < place ==> !one_class(#[trigger] gaps[j])
        },
        None => forall|j: int| 0 <= j < gaps.len() ==> !one_class(#[trigger] gaps[j]),
    }
}

/// The place of the first of `gaps[start..end]` that is small enough, counted from `start`.
pub fn class_of(gaps: &[Float32], start: usize, end: usize) -> (r: Option<usize>)
    requires
        start <= end <= gaps@.len(),
    ensures
        class_place(gaps@.subrange(start as int, end as int), r),
{
    let ghost part = gaps@.subrange(start as int, end as int);
    let mut i: usize = start;
    while i < end
        invariant
            start <= i <= end <= gaps@.len(),
            part == gaps@.subrange(start as int, end as int),
            forall|j: int| 0 <= j < i - start ==> !one_class(#[trigger] part[j]),
        decreases end - i,
    {
        assert(gaps@[i as int] == part[i - start]);
        if gaps[i].abs().at_most(Float32 { bits: LABEL_TOLERANCE }) {
            return Some(i - start);
        }
        i += 1;
    }
    None
}

/// The distinct labels that were observed so far, in the order of their first observation.
pub struct ClassTable {
    pub classes: Vec<Float32>,
}

impl ClassTable {
    /// Whether the classes never descend.
    pub open spec fn ascends(&self) -> bool {
        forall|i: int, j: int|
            0 <= i < j < self.classes@.len() ==> (#[trigger] self.classes@[i]).le(
                #[trigger] self.classes@[j],
            )
    }

    /// A table of no classes.
    pub fn new() -> (r: ClassTable)
        ensures
            r.classes@ == Seq::<Float32>::empty(),
            r.ascends(),
    {
        ClassTable { classes: Vec::new() }
    }

    /// Takes in a label that differs by `gap` from the last class. It is a class of its own
    /// where there is no class yet or the gap is too large; a gap that is no number is.
    /// Labels that are observed in ascending order give classes in ascending order.
    pub fn observe(&mut self, label: Float32, gap: Float32)
        ensures
            old(self).classes@.len() > 0 && one_class(gap) ==> final(self).classes@ == old(
                self,
            ).classes@,
            !(old(self).classes@.len() > 0 && one_class(gap)) ==> final(self).classes@ == old(
                self,
            ).classes@.push(label),
            old(self).ascends() && (old(self).classes@.len() > 0 ==> old(
                self,
            ).classes@.last().le(label)) ==> final(self).ascends(),
    {
        if self.classes.len() > 0 && gap.abs().at_most(Float32 { bits: LABEL_TOLERANCE }) {
            return;
        }
        let ghost before = self.classes@;
        self.classes.push(label);
        proof {
            if old(self).ascends() && (before.len() > 0 ==> before.last().le(label)) {
                assert forall|i: int, j: int| 0 <= i < j < self.classes@.len() implies (
                #[trigger] self.classes@[i]).le(#[trigger] self.classes@[j]) by {
                    assert(self.classes@[i] == before[i]);
                    if j < before.len() {
                        assert(self.classes@[j] == before[j]);
                    } else if i < before.len() - 1 {
                        assert(before[i].le(before[before.len() - 1]));
                    }
                }
            }
        }
    }
}

/// The sizes in bytes of the buffers of a fit, in the order in which they are made.
pub open spec fn fit_sizes(n: usize, d: usize) -> Seq<u64> {
    seq![(4 * (n * d)) as u64, (4 * (d * d)) as u64]
}

/// The launch that multiplies the transposed data with the data.
pub open spec fn scatter_launch(x: Buffer, gram: Buffer, n: usize, d: usize) -> LaunchView {
    LaunchView {
        kernel: Kernel::LdaScatter,
        arguments: seq![
            Argument::Memory(x),
            Argument::Memory(gram),
            Argument::Word(n as u32),
            Argument::Word(d as u32),
        ],
        threadgroup_bytes: 0,
        groups: plane(groups_of(d as int, 16), groups_of(d as int, 16)),
        threads: plane(16, 16),
    }
}

/// The sizes in bytes of the buffers of a transform, in the order in which they are made.
pub open spec fn transform_sizes(
    n: usize,
    d: usize,
    k: usize,
    means: nat,
    scalings: nat,
) -> Seq<u64> {
    seq![
        (4 * (n * d)) as u64,
        (4 * means) as u64,
        (4 * scalings) as u64,
        (4 * (n * k)) as u64,
    ]
}

/// The launch that projects `n` rows onto `k` axes.
pub open spec fn transform_launch(
    x: Buffer,
    mean: Buffer,
    scalings: Buffer,
    out: Buffer,
    n: usize,
    d: usize,
    k: usize,
) -> LaunchView {
    LaunchView {
        kernel: Kernel::LdaTransform,
        arguments: seq![
            Argument::Memory(x),
            Argument::Memory(mean),
            Argument::Memory(scalings),
            Argument::Memory(out),
            Argument::Word(n as u32),
            Argument::Word(d as u32),
            Argument::Word(k as u32),
        ],
        threadgroup_bytes: 0,
        groups: plane(groups_of(k as int, 16), groups_of(n as int, 16)),
        threads: plane(16, 16),
    }
}

/// The labels of a fit by ascending value, and where each of them stood.
pub struct SortedLabels {
    pub order: Vec<usize>,
    pub labels: Vec<Float32>,
}

/// The classes of the samples, and the buffers and the launch of a fit.
pub struct ScatterPass {
    /// The class of each sample.
    pub places: Vec<usize>,
    /// How many samples each class has.
    pub counts: Vec<usize>,
    pub x: Buffer,
    pub gram: Buffer,
    pub launch: Launch,
}

/// The buffers and the launch of a transform.
pub struct TransformPass {
    pub x: Buffer,
    pub mean: Buffer,
    pub scalings: Buffer,
    pub out: Buffer,
    pub launch: Launch,
}

/// The last `k` places of `0..m`, the last one first.
pub open spec fn leading_places(m: int, k: int) -> Seq<usize> {
    Seq::new(k as nat, |j: int| (m - 1 - j) as usize)
}

/// The class indices that belong to rows of squared distances to `c` projected class means:
/// the first nearest, or `usize::MAX` where no distance is below infinity.
pub open spec fn nearest_class(distances: Seq<Float32>, c: int, i: int, r: usize) -> bool {
    let row = distances.subrange(i * c, i * c + c);
    (r < c && first_least(row, Some(r))) || (r == usize::MAX && first_least(row, None))
}

/// Whether `places` are the classes of `n` labels, given each label's gaps to `c` classes.
pub open spec fn label_places(gaps: Seq<Float32>, c: int, n: int, places: Seq<usize>) -> bool {
    &&& places.len() == n
    &&& forall|i: int|
        0 <= i < n ==> class_place(
            gaps.subrange(i * c, i * c + c),
            Some(#[trigger] places[i]),
        )
}

/// Whether the label of the sample `i` belongs to no class.
pub open spec fn unseen(gaps: Seq<Float32>, c: int, i: int) -> bool {
    class_place(gaps.subrange(i * c, i * c + c), None)
}

/// Whether the label of the sample `i` is the first that belongs to no class.
pub open spec fn first_unseen(gaps: Seq<Float32>, c: int, n: int, i: int) -> bool {
    &&& 0 <= i < n
    &&& unseen(gaps, c, i)
    &&& forall|j: int| 0 <= j < i ==> !#[trigger] unseen(gaps, c, j)
}

/// Why a fit ends once `c` classes are known, if it does.
pub open spec fn scatter_refusal(c: nat, gaps: Seq<Float32>, n: usize) -> Option<LDAError> {
    if c < 2 {
        Some(LDAError::Classes)
    } else if exists|i: int| 0 <= i < n && #[trigger] unseen(gaps, c as int, i) {
        Some(LDAError::LabelNotFound)
    } else {
        None
    }
}

/// The class of every label, given each label's gaps to `c` classes, or the first label that
/// belongs to none.
pub fn classes_of(gaps: &[Float32], n: usize, c: usize) -> (r: Result<Vec<usize>, usize>)
    requires
        gaps@.len() == n * c,
    ensures
        match r {
            Ok(places) => label_places(gaps@, c as int, n as int, places@),
            Err(i) => first_unseen(gaps@, c as int, n as int, i as int),
        },
{
    let len: usize = gaps.len();
    let mut places: Vec<usize> = Vec::new();
    let mut i: usize = 0;
    while i < n
        invariant
            i <= n,
            len == gaps@.len(),
            len == n * c,
            label_places(gaps@, c as int, i as int, places@),
        decreases n - i,
    {
        proof {
            assert(i * c + c <= n * c) by (nonlinear_arith)
                requires
                    i + 1 <= n,
            ;
            assert(i * c >= 0) by (nonlinear_arith)
                requires
                    i >= 0,
                    c >= 0,
            ;
        }
        let ghost row = gaps@.subrange(i * c, i * c + c);
        match class_of(gaps, i * c, i * c + c) {
            Some(place) => {
                places.push(place);
                assert(places@[i as int] == place);
            },
            None => {
                proof {
                    assert forall|j: int| 0 <= j < i implies !(#[trigger] unseen(
                        gaps@,
                        c as int,
                        j,
                    )) by {
                        assert(class_place(
                            gaps@.subrange(j * c, j * c + c),
                            Some(places@[j]),
                        ));
                    }
                }
                return Err(i);
            },
        }
        i += 1;
    }
    Ok(places)
}

impl LDA {
    pub fn new(config: LDAConfig) -> (r: LDA)
        ensures
            r.config == config,
            r.gram@.len() == 0,
            r.scalings@.len() == 0,
            r.mean@.len() == 0,
            r.n_components == 0,
            r.n == 0,
            r.d == 0,
            r.eigenvalues@.len() == 0,
            r.classes@.len() == 0,
            r.class_counts@.len() == 0,
            r.means@.len() == 0,
            r.proj_means@.len() == 0,
            r.pipelines.wf(),
            r.pipelines.entry(Kernel::LdaScatter) == Some(None::<usize>),
            r.pipelines.entry(Kernel::LdaTransform) == Some(None::<usize>),
    {
        let kernels: Vec<Kernel> = vec![Kernel::LdaScatter, Kernel::LdaTransform];
        assert(kernels@[0] == Kernel::LdaScatter);
        assert(kernels@[1] == Kernel::LdaTransform);
        LDA {
            config,
            gram: Vec::new(),
            scalings: Vec::new(),
            mean: Vec::new(),
            n_components: 0,
            n: 0,
            d: 0,
            eigenvalues: Vec::new(),
            classes: Vec::new(),
            class_counts: Vec::new(),
            means: Vec::new(),
            proj_means: Vec::new(),
            pipelines: PipelineCache::new(kernels),
        }
    }

    pub fn scalings(&self) -> (r: &[Float32])
        ensures
            r@ == self.scalings@,
    {
        self.scalings.as_slice()
    }

    pub fn coeffs(&self) -> (r: &[Float32])
        ensures
            r@ == self.scalings@,
    {
        self.scalings.as_slice()
    }

    pub fn mean(&self) -> (r: &[Float32])
        ensures
            r@ == self.mean@,
    {
        self.mean.as_slice()
    }

    pub fn eigenvalues(&self) -> (r: &[Float32])
        ensures
            r@ == self.eigenvalues@,
    {
        self.eigenvalues.as_slice()
    }

    pub fn classes(&self) -> (r: &[Float32])
        ensures
            r@ == self.classes@,
    {
        self.classes.as_slice()
    }

    pub fn class_counts(&self) -> (r: &[Float32])
        ensures
            r@ == self.class_counts@,
    {
        self.class_counts.as_slice()
    }

    pub fn class_means(&self) -> (r: &[Float32])
        ensures
            r@ == self.means@,
    {
        self.means.as_slice()
    }

    pub fn n_components(&self) -> (r: usize)
        ensures
            r == self.n_components,
    {
        self.n_components
    }

    pub fn n_features(&self) -> (r: usize)
        ensures
            r == self.d,
    {
        self.d
    }

    pub fn n_samples(&self) -> (r: usize)
        ensures
            r == self.n,
    {
        self.n
    }

    /// Starts a fit on `n` rows of `d` columns with a label each: the labels by ascending
    /// value. They are numbers, unless there is but one.
    pub fn fit(&mut self, data: &[Float32], labels: &[Float32], n: usize, d: usize) -> (r: Result<
        SortedLabels,
        LDAError,
    >)
        requires
            fit_refusal(data@.len() as usize, labels@.len() as usize, n, d) is None ==> (n == 1
                || forall|i: int| 0 <= i < n ==> !(#[trigger] labels@[i]).nan()),
        ensures
            match fit_refusal(data@.len() as usize, labels@.len() as usize, n, d) {
                Some(e) => r == Err::<SortedLabels, LDAError>(e) && *final(self) == *old(self),
                None => r matches Ok(sorted) && {
                    &&& ascending(labels@, sorted.order@)
                    &&& sorted.labels@ == gathered(labels@, sorted.order@)
                    &&& *final(self) == (LDA { n, d, ..*old(self) })
                },
            },
    {
        if n == 0 || d == 0 {
            return Err(LDAError::Empty);
        }
        if !is_matrix(data.len(), n, d) {
            return Err(LDAError::DataLength);
        }
        if labels.len() != n {
            return Err(LDAError::LabelLength);
        }
        self.n = n;
        self.d = d;
        let order: Vec<usize> = ascending_order(labels);
        let sorted: Vec<Float32> = gather(labels, order.as_slice());
        Ok(SortedLabels { order, labels: sorted })
    }

    /// Goes on with a fit once the classes are known: the class of each sample, how many
    /// samples each class has, and the pass that multiplies the data with itself. `gaps` has
    /// a row for each sample, the gap of its label to each class.
    pub fn scatter(&mut self, ctx: &mut MetalContext, table: &ClassTable, gaps: &[Float32]) -> (r:
        Result<ScatterPass, LDAError>)
        requires
            gaps@.len() == old(self).n * table.classes@.len(),
            4 * (old(self).n * old(self).d) <= usize::MAX,
            4 * (old(self).d * old(self).d) <= usize::MAX,
            old(self).d + 15 <= usize::MAX,
        ensures
            match scatter_refusal(table.classes@.len(), gaps@, old(self).n) {
                Some(e) => r == Err::<ScatterPass, LDAError>(e) && *final(self) == *old(self)
                    && *final(ctx) == *old(ctx),
                None => r matches Ok(pass) && {
                    let (n, d) = (old(self).n, old(self).d);
                    let c = table.classes@.len();
                    let sizes = fit_sizes(n, d);
                    &&& label_places(gaps@, c as int, n as int, pass.places@)
                    &&& pass.counts@.len() == c
                    &&& forall|j: int|
                        0 <= j < c ==> #[trigger] pass.counts@[j] == occurrences(
                            pass.places@,
                            j,
                            n as int,
                        )
                    &&& final(ctx)@ == old(ctx)@ + sizes
                    &&& pass.x == buffer_at(old(ctx)@.len(), 0, sizes[0] as int)
                    &&& pass.gram == buffer_at(old(ctx)@.len(), 1, sizes[1] as int)
                    &&& pass.launch@ == scatter_launch(pass.x, pass.gram, n, d)
                    &&& pass.launch@.bound_in(final(ctx)@)
                    &&& final(self).n_components == axis_count(
                        old(self).config.n_components,
                        c,
                        d,
                    )
                    &&& *final(self) == (LDA {
                        n_components: final(self).n_components,
                        ..*old(self)
                    })
                },
            },
    {
        let n: usize = self.n;
        let d: usize = self.d;
        let c: usize = table.classes.len();
        if c < 2 {
            return Err(LDAError::Classes);
        }
        let places: Vec<usize> = match classes_of(gaps, n, c) {
            Ok(places) => {
                proof {
                    assert forall|i: int| 0 <= i < n implies !(#[trigger] unseen(
                        gaps@,
                        c as int,
                        i,
                    )) by {
                        assert(class_place(
                            gaps@.subrange(i * c, i * c + c),
                            Some(places@[i]),
                        ));
                    }
                }
                places
            },
            Err(i) => {
                assert(unseen(gaps@, c as int, i as int));
                return Err(LDAError::LabelNotFound);
            },
        };
        proof {
            assert forall|i: int| 0 <= i < places@.len() implies #[trigger] places@[i] < c by {
                assert(i * c + c <= n * c) by (nonlinear_arith)
                    requires
                        i + 1 <= n,
                ;
                assert(0 <= i * c) by (nonlinear_arith)
                    requires
                        0 <= i,
                        0 <= c,
                ;
                assert(class_place(gaps@.subrange(i * c, i * c + c), Some(places@[i])));
            }
        }
        let counts: Vec<usize> = tally(places.as_slice(), c);
        let rank: usize = if c - 1 < d {
            c - 1
        } else {
            d
        };
        let kept: usize = if self.config.n_components < rank {
            self.config.n_components
        } else {
            rank
        };
        self.n_components = if kept < 1 {
            1
        } else {
            kept
        };
        let ghost start = ctx@;
        let x: Buffer = ctx.new_buffer(n * d);
        let gram: Buffer = ctx.new_buffer_uninitialized((d * d * 4) as u64);
        assert(ctx@ =~= start + fit_sizes(n, d));
        let launch = Launch {
            kernel: Kernel::LdaScatter,
            arguments: vec![
                Argument::Memory(x),
                Argument::Memory(gram),
                Argument::Word(#[verifier::truncate] (n as u32)),
                Argument::Word(#[verifier::truncate] (d as u32)),
            ],
            threadgroup_bytes: 0,
            groups: MTLSize::plane(group_count(d as u64, 16), group_count(d as u64, 16)),
            threads: MTLSize::plane(16, 16),
        };
        assert(launch@ =~= scatter_launch(x, gram, n, d));
        Ok(ScatterPass { places, counts, x, gram, launch })
    }

    /// The eigenvectors of the `k` largest of `d` ascending eigenvalues, which are the last
    /// rows, by descending eigenvalue.
    pub fn leading_rows(eigenvectors: &[Float32], d: usize, k: usize) -> (r: Vec<Float32>)
        requires
            eigenvectors@.len() == d * d,
            k <= d,
        ensures
            r@ == rows_of(eigenvectors@, d as int, leading_places(d as int, k as int)),
    {
        let mut places: Vec<usize> = Vec::new();
        let mut j: usize = 0;
        while j < k
            invariant
                j <= k <= d,
                places@.len() == j,
                forall|i: int| 0 <= i < j ==> #[trigger] places@[i] == d - 1 - i,
            decreases k - j,
        {
            places.push(d - 1 - j);
            j += 1;
        }
        assert(places@ =~= leading_places(d as int, k as int));
        pick_rows(eigenvectors, d, d, places.as_slice())
    }

    /// Ends a fit. `eigenvalues` ascend; the largest are kept, largest first.
    pub fn finish(
        &mut self,
        gram: Vec<Float32>,
        table: ClassTable,
        class_counts: Vec<Float32>,
        class_means: Vec<Float32>,
        mean: Vec<Float32>,
        eigenvalues: &[Float32],
        scalings: Vec<Float32>,
        proj_means: Vec<Float32>,
    )
        requires
            old(self).n_components <= eigenvalues@.len(),
        ensures
            final(self).gram == gram,
            final(self).classes == table.classes,
            final(self).class_counts == class_counts,
            final(self).means == class_means,
            final(self).mean == mean,
            final(self).eigenvalues@ == leading(eigenvalues@, old(self).n_components as int),
            final(self).scalings == scalings,
            final(self).proj_means == proj_means,
            final(self).config == old(self).config,
            final(self).n_components == old(self).n_components,
            final(self).n == old(self).n,
            final(self).d == old(self).d,
            final(self).pipelines == old(self).pipelines,
    {
        self.gram = gram;
        self.classes = table.classes;
        self.class_counts = class_counts;
        self.means = class_means;
        self.mean = mean;
        self.eigenvalues = take_leading(eigenvalues, self.n_components);
        self.scalings = scalings;
        self.proj_means = proj_means;
    }

    /// The buffers and the launch that project `n` rows onto the axes.
    pub fn transform(&self, ctx: &mut MetalContext, data: &[Float32], n: usize, d: usize) -> (r:
        Result<TransformPass, LDAError>)
        requires
            4 * data@.len() <= usize::MAX,
            4 * self.mean@.len() <= usize::MAX,
            4 * self.scalings@.len() <= usize::MAX,
            transform_refusal(self.d, self.scalings@.len(), data@.len() as usize, n, d) is None ==> {
                &&& 4 * (n * self.n_components) <= usize::MAX
                &&& n + 15 <= usize::MAX
                &&& self.n_components + 15 <= usize::MAX
            },
        ensures
            match transform_refusal(self.d, self.scalings@.len(), data@.len() as usize, n, d) {
                Some(e) => r == Err::<TransformPass, LDAError>(e) && *final(ctx) == *old(ctx),
                None => r matches Ok(pass) && self.projects(
                    old(ctx)@,
                    final(ctx)@,
                    pass,
                    n,
                    d,
                ),
            },
    {
        if d != self.d {
            return Err(LDAError::Dimension { expected: self.d, got: d });
        }
        if !is_matrix(data.len(), n, d) {
            return Err(LDAError::DataLength);
        }
        if self.scalings.len() == 0 {
            return Err(LDAError::NotFitted);
        }
        let k: usize = self.n_components;
        let ghost start = ctx@;
        let x: Buffer = ctx.new_buffer(data.len());
        let mean: Buffer = ctx.new_buffer(self.mean.len());
        let scalings: Buffer = ctx.new_buffer(self.scalings.len());
        let out: Buffer = ctx.new_buffer_uninitialized((n * k * 4) as u64);
        assert(ctx@ =~= start + transform_sizes(n, d, k, self.mean@.len(), self.scalings@.len()));
        let launch = Launch {
            kernel: Kernel::LdaTransform,
            arguments: vec![
                Argument::Memory(x),
                Argument::Memory(mean),
                Argument::Memory(scalings),
                Argument::Memory(out),
                Argument::Word(#[verifier::truncate] (n as u32)),
                Argument::Word(#[verifier::truncate] (d as u32)),
                Argument::Word(#[verifier::truncate] (k as u32)),
            ],
            threadgroup_bytes: 0,
            groups: MTLSize::plane(group_count(k as u64, 16), group_count(n as u64, 16)),
            threads: MTLSize::plane(16, 16),
        };
        assert(launch@ =~= transform_launch(x, mean, scalings, out, n, d, k));
        Ok(TransformPass { x, mean, scalings, out, launch })
    }

    /// The pass of a transform whose result `predicted` makes class indices of.
    pub fn predict(&self, ctx: &mut MetalContext, data: &[Float32], n: usize, d: usize) -> (r:
        Result<TransformPass, LDAError>)
        requires
            4 * data@.len() <= usize::MAX,
            4 * self.mean@.len() <= usize::MAX,
            4 * self.scalings@.len() <= usize::MAX,
            predict_refusal(self.d, self.scalings@.len(), data@.len() as usize, n, d) is None ==> {
                &&& 4 * (n * self.n_components) <= usize::MAX
                &&& n + 15 <= usize::MAX
                &&& self.n_components + 15 <= usize::MAX
            },
        ensures
            match predict_refusal(self.d, self.scalings@.len(), data@.len() as usize, n, d) {
                Some(e) => r == Err::<TransformPass, LDAError>(e) && *final(ctx) == *old(ctx),
                None => r matches Ok(pass) && self.projects(
                    old(ctx)@,
                    final(ctx)@,
                    pass,
                    n,
                    d,
                ),
            },
    {
        if self.scalings.len() == 0 {
            return Err(LDAError::NotFitted);
        }
        self.transform(ctx, data, n, d)
    }

    /// The class index of each of `n` points, given its squared distance to each projected
    /// class mean.
    pub fn predicted(&self, distances: &[Float32], n: usize) -> (r: Vec<usize>)
        requires
            distances@.len() == n * self.classes@.len(),
        ensures
            r@.len() == n,
            forall|i: int|
                0 <= i < n ==> nearest_class(
                    distances@,
                    self.classes@.len() as int,
                    i,
                    #[trigger] r@[i],
                ),
    {
        let c: usize = self.classes.len();
        let len: usize = distances.len();
        let mut r: Vec<usize> = Vec::new();
        let mut i: usize = 0;
        while i < n
            invariant
                i <= n,
                c == self.classes@.len(),
                len == distances@.len(),
                len == n * c,
                r@.len() == i,
                forall|j: int|
                    0 <= j < i ==> nearest_class(distances@, c as int, j, #[trigger] r@[j]),
            decreases n - i,
        {
            proof {
                assert(i * c + c <= n * c) by (nonlinear_arith)
                    requires
                        i + 1 <= n,
                ;
                assert(i * c >= 0) by (nonlinear_arith)
                    requires
                        i >= 0,
                        c >= 0,
                ;
            }
            let place: usize = match argmin(distances, i * c, i * c + c) {
                Some(place) => place,
                None => usize::MAX,
            };
            r.push(place);
            assert(nearest_class(distances@, c as int, i as int, r@[i as int]));
            i += 1;
        }
        r
    }

    /// How many of the predictions are right, given each label's gaps to the fitted classes,
    /// or the first label that belongs to none of them.
    pub fn score(&self, predictions: &[usize], gaps: &[Float32]) -> (r: Result<usize, LDAError>)
        requires
            gaps@.len() == predictions@.len() * self.classes@.len(),
        ensures
            ({
                let c = self.classes@.len() as int;
                let n = predictions@.len() as int;
                match r {
                    Ok(correct) => exists|places: Seq<usize>|
                        label_places(gaps@, c, n, places) && correct == #[trigger] agreements(
                            predictions@,
                            places,
                            n,
                        ),
                    Err(e) => e matches LDAError::UnseenLabel { sample } && first_unseen(
                        gaps@,
                        c,
                        n,
                        sample as int,
                    ),
                }
            }),
    {
        let n: usize = predictions.len();
        match classes_of(gaps, n, self.classes.len()) {
            Ok(places) => Ok(count_agreements(predictions, places.as_slice())),
            Err(sample) => Err(LDAError::UnseenLabel { sample }),
        }
    }

    /// Whether `n` samples can be scored with that many labels.
    pub fn check_score(labels: usize, n: usize) -> (r: Result<(), LDAError>)
        ensures
            r == (if labels == n {
                Ok::<(), LDAError>(())
            } else {
                Err(LDAError::LabelLength)
            }),
    {
        if labels == n {
            Ok(())
        } else {
            Err(LDAError::LabelLength)
        }
    }

    /// Whether `pass` projects `n` rows: its buffers follow those of the ledger `before`, and
    /// `after` is the ledger with them.
    pub open spec fn projects(
        &self,
        before: Seq<u64>,
        after: Seq<u64>,
        pass: TransformPass,
        n: usize,
        d: usize,
    ) -> bool {
        let sizes = transform_sizes(
            n,
            d,
            self.n_components,
            self.mean@.len(),
            self.scalings@.len(),
        );
        &&& after == before + sizes
        &&& pass.x == buffer_at(before.len(), 0, sizes[0] as int)
        &&& pass.mean == buffer_at(before.len(), 1, sizes[1] as int)
        &&& pass.scalings == buffer_at(before.len(), 2, sizes[2] as int)
        &&& pass.out == buffer_at(before.len(), 3, sizes[3] as int)
        &&& pass.launch@ == transform_launch(
            pass.x,
            pass.mean,
            pass.scalings,
            pass.out,
            n,
            d,
            self.n_components,
        )
        &&& pass.launch@.bound_in(after)
    }
}

/// There are never more axes than features, nor, where there are two classes or more, than
/// one less than there are classes; and never more than wanted, but for the one that there
/// always is.
pub proof fn lemma_axes_are_informative(wanted: usize, classes: nat, d: usize)
    requires
        classes >= 2,
        d >= 1,
    ensures
        1 <= axis_count(wanted, classes, d) <= d,
        axis_count(wanted, classes, d) <= classes - 1,
        wanted >= 1 ==> axis_count(wanted, classes, d) <= wanted,
        1 <= wanted <= d && wanted < classes ==> axis_count(wanted, classes, d) == wanted,
{
}

/// The eigenvalues that are kept never increase, where those that were found ascend.
pub proof fn lemma_eigenvalues_descend(values: Seq<Float32>, k: int, a: int, b: int)
    requires
        0 <= k <= values.len(),
        forall|i: int, j: int|
            0 <= i <= j < values.len() ==> (#[trigger] values[i]).le(#[trigger] values[j]),
        0 <= a <= b < k,
    ensures
        leading(values, k)[b].le(leading(values, k)[a]),
{
}

/// Axis and eigenvalue belong together: row `j` of the kept eigenvectors is the one of the
/// `j`th kept eigenvalue.
pub proof fn lemma_axes_match_eigenvalues(
    values: Seq<Float32>,
    vectors: Seq<Float32>,
    d: int,
    k: int,
    j: int,
    i: int,
)
    requires
        values.len() == d,
        vectors.len() == d * d,
        0 <= j < k <= d <= usize::MAX,
        0 <= i < d,
    ensures
        leading(values, k)[j] == values[d - 1 - j],
        entry(rows_of(vectors, d, leading_places(d, k)), d, j, i) == entry(vectors, d, d - 1 - j, i),
{
    lemma_matrix_index(k, d, j, i);
    lemma_matrix_position(d, j, i);
}

/// A label belongs to one class only: there is one list of classes for given gaps.
pub proof fn lemma_label_places_unique(
    gaps: Seq<Float32>,
    c: int,
    n: int,
    a: Seq<usize>,
    b: Seq<usize>,
)
    requires
        label_places(gaps, c, n, a),
        label_places(gaps, c, n, b),
    ensures
        a == b,
{
    assert forall|i: int| 0 <= i < n implies a[i] == b[i] by {
        let row = gaps.subrange(i * c, i * c + c);
        assert(class_place(row, Some(a[i])));
        assert(class_place(row, Some(b[i])));
    }
    assert(a =~= b);
}

/// Labels are one class up to a gap of 1e-9.
pub proof fn lemma_label_tolerance()
    ensures
        (Float32 { bits: LABEL_TOLERANCE }).approximates(1, 1000000000),
{
    lemma2_to64();
    lemma2_to64_rest();
    assert(pow2(53) == 9007199254740992);
    lemma_approximates(
        Float32 { bits: LABEL_TOLERANCE },
        97,
        9007199,
        1,
        1000000000,
        9007199254740992,
    );
}

/// The scatter pass has a thread for every pair of features, and the projection one for every
/// row and axis; what they bind.
pub proof fn lemma_passes_reach_everything(
    a: Buffer,
    b: Buffer,
    c: Buffer,
    e: Buffer,
    n: usize,
    d: usize,
    k: usize,
)
    ensures
        ({
            let l = scatter_launch(a, b, n, d);
            &&& l.kernel == Kernel::LdaScatter
            &&& l.arguments.len() == 4
            &&& l.arguments[0] == Argument::Memory(a)
            &&& l.arguments[1] == Argument::Memory(b)
            &&& l.arguments[2] == Argument::Word(n as u32)
            &&& l.arguments[3] == Argument::Word(d as u32)
            &&& l.threadgroup_bytes == 0
            &&& l.groups.width * l.threads.width >= d
            &&& l.groups.height * l.threads.height >= d
            &&& l.threads.width == 16 && l.threads.height == 16
        }),
        ({
            let l = transform_launch(a, b, c, e, n, d, k);
            &&& l.kernel == Kernel::LdaTransform
            &&& l.arguments.len() == 7
            &&& l.arguments[0] == Argument::Memory(a)
            &&& l.arguments[1] == Argument::Memory(b)
            &&& l.arguments[2] == Argument::Memory(c)
            &&& l.arguments[3] == Argument::Memory(e)
            &&& l.arguments[4] == Argument::Word(n as u32)
            &&& l.arguments[5] == Argument::Word(d as u32)
            &&& l.arguments[6] == Argument::Word(k as u32)
            &&& l.threadgroup_bytes == 0
            &&& l.groups.width * l.threads.width >= k
            &&& l.groups.height * l.threads.height >= n
            &&& l.threads.width == 16 && l.threads.height == 16
        }),
{
    lemma_tiles_cover(d as int, d as int);
    lemma_tiles_cover(k as int, n as int);
}

/// A projection binds the rows, the mean, the axes and where the result goes, each of its size.
pub proof fn lemma_projection_buffers(
    model: LDA,
    before: Seq<u64>,
    after: Seq<u64>,
    pass: TransformPass,
    n: usize,
    d: usize,
)
    requires
        model.projects(before, after, pass, n, d),
        before.len() + 4 <= usize::MAX,
        4 * (n * d) <= usize::MAX,
        4 * (n * model.n_components) <= usize::MAX,
        4 * model.mean@.len() <= usize::MAX,
        4 * model.scalings@.len() <= usize::MAX,
    ensures
        pass.x.id == before.len() && pass.x.byte_len == 4 * (n * d),
        pass.mean.id == before.len() + 1 && pass.mean.byte_len == 4 * model.mean@.len(),
        pass.scalings.id == before.len() + 2 && pass.scalings.byte_len == 4
            * model.scalings@.len(),
        pass.out.id == before.len() + 3 && pass.out.byte_len == 4 * (n * model.n_components),
        pass.launch.arguments@[0] == Argument::Memory(pass.x),
        pass.launch.arguments@[1] == Argument::Memory(pass.mean),
        pass.launch.arguments@[2] == Argument::Memory(pass.scalings),
        pass.launch.arguments@[3] == Argument::Memory(pass.out),
        pass.launch.arguments@[4] == Argument::Word(n as u32),
        pass.launch.arguments@[5] == Argument::Word(d as u32),
        pass.launch.arguments@[6] == Argument::Word(model.n_components as u32),
{
    assert(0 <= n * d && 0 <= n * model.n_components) by (nonlinear_arith)
        requires
            0 <= n,
            0 <= d,
            0 <= model.n_components,
    ;
}

/// There are as many axes as are wanted, but no more than features and than one less than
/// classes, and one at least.
pub proof fn lemma_axis_count(wanted: usize, classes: nat, d: usize)
    requires
        classes >= 2,
        d >= 1,
    ensures
        wanted == 0 ==> axis_count(wanted, classes, d) == 1,
        1 <= wanted && wanted <= classes - 1 && wanted <= d ==> axis_count(wanted, classes, d)
            == wanted,
        classes - 1 <= wanted && classes - 1 <= d ==> axis_count(wanted, classes, d) == classes
            - 1,
        d <= wanted && d <= classes - 1 ==> axis_count(wanted, classes, d) == d,
{
}

/// The class of a label is the first that it is as good as equal to; it has none where it is so
/// to none.
pub proof fn lemma_class_place(gaps: Seq<Float32>, r: Option<usize>, j: int)
    requires
        class_place(gaps, r),
        0 <= j < gaps.len(),
        gaps[j].abs_value().le(Float32 { bits: LABEL_TOLERANCE }),
    ensures
        r matches Some(place) && place <= j && gaps[place as int].abs_value().le(
            Float32 { bits: LABEL_TOLERANCE },
        ),
{
    assert(one_class(gaps[j]));
}

/// A row's class is the one whose mean is nearest: no other is nearer, and every one before is
/// farther.
pub proof fn lemma_nearest_class(distances: Seq<Float32>, c: int, i: int, r: usize, j: int)
    requires
        nearest_class(distances, c, i, r),
        0 <= i,
        0 <= j < c,
        0 <= i * c,
        i * c + c <= distances.len(),
        r < c < usize::MAX,
        !distances[i * c + j].nan(),
    ensures
        distances[i * c + r].le(distances[i * c + j]),
        j < r ==> distances[i * c + r].lt(distances[i * c + j]),
{
    let row = distances.subrange(i * c, i * c + c);
    assert(row[j] == distances[i * c + j]);
    assert(row[r as int] == distances[i * c + r]);
}

/// When the parts of a fit and a prediction are taken, and why not.
pub proof fn lemma_refusals(
    len: usize,
    labels: usize,
    n: usize,
    d: usize,
    fitted_d: usize,
    scalings: nat,
)
    ensures
        ({
            let r = fit_refusal(len, labels, n, d);
            &&& r is None <==> (n > 0 && d > 0) && (len == n * d) && (labels == n)
            &&& !(n > 0 && d > 0) ==> r == Some(LDAError::Empty)
            &&& (n > 0 && d > 0) && !(len == n * d) ==> r == Some(LDAError::DataLength)
            &&& (n > 0 && d > 0) && (len == n * d) && !(labels == n) ==> r == Some(LDAError::LabelLength)
        }),
        ({
            let r = transform_refusal(fitted_d, scalings, len, n, d);
            &&& r is None <==> (d == fitted_d) && (len == n * d) && (scalings > 0)
            &&& !(d == fitted_d) ==> r == Some(LDAError::Dimension { expected: fitted_d, got: d })
            &&& (d == fitted_d) && !(len == n * d) ==> r == Some(LDAError::DataLength)
            &&& (d == fitted_d) && (len == n * d) && !(scalings > 0) ==> r == Some(LDAError::NotFitted)
        }),
        ({
            let r = predict_refusal(fitted_d, scalings, len, n, d);
            &&& r is None <==> (scalings > 0) && (d == fitted_d) && (len == n * d)
            &&& !(scalings > 0) ==> r == Some(LDAError::NotFitted)
            &&& (scalings > 0) && !(d == fitted_d) ==> r == Some(LDAError::Dimension { expected: fitted_d, got: d })
            &&& (scalings > 0) && (d == fitted_d) && !(len == n * d) ==> r == Some(LDAError::DataLength)
        }),
{
}

/// A fit goes on exactly when there are two classes at least and each label is in one.
pub proof fn lemma_scatter_refusals(c: nat, gaps: Seq<Float32>, n: usize, i: int)
    ensures
        c < 2 ==> scatter_refusal(c, gaps, n) == Some(LDAError::Classes),
        c >= 2 && scatter_refusal(c, gaps, n) is Some ==> scatter_refusal(c, gaps, n) == Some(
            LDAError::LabelNotFound,
        ),
        c >= 2 && 0 <= i < n && (forall|j: int|
            0 <= j < c ==> !one_class(#[trigger] gaps.subrange(i * c, i * c + c)[j])) && gaps.subrange(
            i * c,
            i * c + c,
        ).len() == c ==> scatter_refusal(c, gaps, n) is Some,
{
    if c >= 2 && 0 <= i < n && (forall|j: int|
        0 <= j < c ==> !one_class(#[trigger] gaps.subrange(i * c, i * c + c)[j])) && gaps.subrange(
        i * c,
        i * c + c,
    ).len() == c {
        assert(unseen(gaps, c as int, i));
    }
}

/// The buffers of a fit hold every row and a square matrix over the features.
pub proof fn lemma_fit_sizes(n: usize, d: usize)
    requires
        4 * (n * d) <= u64::MAX,
        4 * (d * d) <= u64::MAX,
    ensures
        fit_sizes(n, d).len() == 2,
        fit_sizes(n, d)[0] == 4 * (n * d),
        fit_sizes(n, d)[1] == 4 * (d * d),
{
    assert(0 <= n * d && 0 <= d * d) by (nonlinear_arith)
        requires
            0 <= n,
            0 <= d,
    ;
}

/// A fit is not refused for its labels where there are two classes or more and each label is as
/// good as equal to one of them, `classes` saying which.
pub proof fn lemma_known_labels_taken(c: nat, gaps: Seq<Float32>, n: usize, classes: Seq<int>)
    requires
        c >= 2,
        gaps.len() == n * c,
        forall|i: int|
            0 <= i < n ==> 0 <= #[trigger] classes[i] < c && gaps[i * c
                + classes[i]].abs_value().le(Float32 { bits: LABEL_TOLERANCE }),
    ensures
        scatter_refusal(c, gaps, n) is None,
{
    assert forall|i: int| 0 <= i < n implies !#[trigger] unseen(gaps, c as int, i) by {
        let j = classes[i];
        lemma_matrix_index(n as int, c as int, i, j);
        assert(one_class(gaps.subrange(i * c, i * c + c)[j]));
    }
}

/// Each label is given the first class that it is as good as equal to.
pub proof fn lemma_label_places(
    gaps: Seq<Float32>,
    c: int,
    n: int,
    places: Seq<usize>,
    i: int,
    j: int,
)
    requires
        label_places(gaps, c, n, places),
        gaps.len() == n * c,
        0 <= i < n,
        0 <= j < c,
    ensures
        places.len() == n,
        places[i] < c,
        gaps[i * c + places[i]].abs_value().le(Float32 { bits: LABEL_TOLERANCE }),
        j < places[i] ==> !gaps[i * c + j].abs_value().le(Float32 { bits: LABEL_TOLERANCE }),
{
    lemma_matrix_index(n, c, i, j);
    let row = gaps.subrange(i * c, i * c + c);
    assert(class_place(row, Some(places[i])));
    assert(row[places[i] as int] == gaps[i * c + places[i]]);
    assert(row[j] == gaps[i * c + j]);
    assert(one_class(row[j]) == row[j].abs_value().le(Float32 { bits: LABEL_TOLERANCE }));
}

/// The label that is reported is equal to no class, and each label before it is to one.
pub proof fn lemma_first_unseen(gaps: Seq<Float32>, c: int, n: int, i: int, j: int, before: int)
    requires
        first_unseen(gaps, c, n, i),
        gaps.len() == n * c,
        0 <= j < c,
        0 <= before < i,
    ensures
        0 <= i < n,
        !gaps[i * c + j].abs_value().le(Float32 { bits: LABEL_TOLERANCE }),
        exists|k: int|
            0 <= k < c && (#[trigger] gaps.subrange(before * c, before * c + c)[k]).abs_value().le(
                Float32 { bits: LABEL_TOLERANCE },
            ),
{
    lemma_matrix_index(n, c, i, j);
    let row = gaps.subrange(i * c, i * c + c);
    assert(row[j] == gaps[i * c + j]);
    assert(!one_class(row[j]));
    assert(!unseen(gaps, c, before));
    lemma_matrix_index(n, c, before, j);
    let earlier = gaps.subrange(before * c, before * c + c);
    assert(earlier.len() == c);
    let k = choose|k: int| 0 <= k < earlier.len() && one_class(#[trigger] earlier[k]);
    assert(gaps.subrange(before * c, before * c + c)[k].abs_value().le(
        Float32 { bits: LABEL_TOLERANCE },
    ));
}

} // verus!
