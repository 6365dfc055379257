//! Support vector classification, one class against the rest.
//!
//! The device evaluates the kernel between all rows and, for new rows, the decision values.
//! Each class is set apart from the others by sequential minimal optimization of the dual
//! coefficients, pair by pair. Which labels are one class, which pairs are taken up, when a
//! step counts, which rows support a class and which class a row gets is decided here.

use vstd::prelude::*;
use crate::float::{Float32, HALF};
use crate::matrix::{pick_rows, zeros};
use crate::metal::{group_count, Argument, Buffer, Kernel, Launch, MTLSize, MetalContext};
use crate::pipeline::PipelineCache;
use crate::rng::Rng;
use crate::select::leading_argmax;
use crate::shape::is_matrix;
use crate::tally::count_near;
#[allow(unused_imports)]
use crate::matrix::{lemma_rows_concat, rows_of};
#[allow(unused_imports)]
use crate::metal::{buffer_at, groups_of, lemma_line_covers, lemma_tiles_cover, line, plane, LaunchView};
#[allow(unused_imports)]
use crate::rng::{nth_draw, state_after};
#[allow(unused_imports)]
use crate::select::{leading_greatest, lemma_leading_unique};
#[allow(unused_imports)]
use crate::tally::near_count;
#[allow(unused_imports)]
use crate::float::lemma_approximates;
#[allow(unused_imports)]
use vstd::arithmetic::power2::{lemma2_to64, lemma2_to64_rest, lemma_pow2_adds, pow2};

verus! {

/// A coefficient that is not larger than this supports nothing, and a smaller step is no
/// step: 1e-5.
pub const TINY: u32 = 0x3727_c5ac;

/// An interval that is narrower than this has no room: 1e-12.
pub const NARROW: u32 = 0x2b8c_bccc;

/// How far the seeds of two classes in a row lie apart.
pub const SEED_STRIDE: u64 = 2654435761;

/// The kernels between rows.
#[derive(Clone, Copy, Debug, PartialEq, Eq, Structural)]
pub enum SVCKernel {
    Linear,
    Poly,
    Rbf,
    Sigmoid,
}

impl SVCKernel {
    /// The number by which the shader knows the kernel.
    pub open spec fn id(self) -> u32 {
        match self {
            SVCKernel::Linear => 0,
            SVCKernel::Poly => 1,
            SVCKernel::Rbf => 2,
            SVCKernel::Sigmoid => 3,
        }
    }

    /// The number by which the shader knows the kernel.
    pub fn as_u32(self) -> (r: u32)
        ensures
            r == self.id(),
    {
        match self {
            SVCKernel::Linear => 0,
            SVCKernel::Poly => 1,
            SVCKernel::Rbf => 2,
            SVCKernel::Sigmoid => 3,
        }
    }
}

#[derive(Clone, Copy, Debug, PartialEq, Eq, Structural)]
pub struct SVCConfig {
    pub kernel: SVCKernel,
    /// The width of the kernel; one over the number of features where it is not positive.
    pub gamma: Float32,
    pub degree: Float32,
    pub coef0: Float32,
    /// The largest coefficient.
    pub c: Float32,
    pub tolerance: Float32,
    /// How many passes over the rows there are at most.
    pub max_iter: usize,
    pub seed: u64,
}

impl Default for SVCConfig {
    /// A radial kernel of automatic width, degree 3, no offset, coefficients up to 1,
    /// tolerance 1e-3, 200 passes, seed 42.
    fn default() -> (r: SVCConfig)
        ensures
            r == (SVCConfig {
                kernel: SVCKernel::Rbf,
                gamma: Float32 { bits: 0 },
                degree: Float32 { bits: 0x4040_0000 },
                coef0: Float32 { bits: 0 },
                c: Float32 { bits: 0x3f80_0000 },
                tolerance: Float32 { bits: 0x3a83_126f },
                max_iter: 200,
                seed: 42,
            }),
    {
        SVCConfig {
            kernel: SVCKernel::Rbf,
            gamma: Float32 { bits: 0 },
            degree: Float32 { bits: 0x4040_0000 },
            coef0: Float32 { bits: 0 },
            c: Float32 { bits: 0x3f80_0000 },
            tolerance: Float32 { bits: 0x3a83_126f },
            max_iter: 200,
            seed: 42,
        }
    }
}

/// Why a fit or a prediction was refused.
#[derive(Clone, Copy, Debug, PartialEq, Eq, Structural)]
pub enum SVCError {
    Empty,
    DataLength { n: usize, d: usize, got: usize },
    LabelLength,
    /// The largest coefficient is not positive and finite.
    C,
    /// The tolerance is not positive and finite.
    Tolerance,
    MaxIter,
    /// There are fewer than two classes.
    Classes,
    NotFitted,
    Dimension,
    PredictionLength,
}

/// Whether a number is positive and finite.
pub open spec fn usable(value: Float32) -> bool {
    (Float32 { bits: 0 }).lt(value) && value.finite()
}

/// Whether a number is positive and finite.
pub fn is_usable(value: Float32) -> (r: bool)
    ensures
        r == usable(value),
{
    value.is_positive() && value.is_finite()
}

/// Why a fit is refused before its classes are known, if it is.
pub open spec fn fit_refusal(
    config: SVCConfig,
    len: usize,
    labels: usize,
    n: usize,
    d: usize,
) -> Option<SVCError> {
    if n == 0 || d == 0 {
        Some(SVCError::Empty)
    } else if len != n * d {
        Some(SVCError::DataLength { n, d, got: len })
    } else if labels != n {
        Some(SVCError::LabelLength)
    } else if !usable(config.c) {
        Some(SVCError::C)
    } else if !usable(config.tolerance) {
        Some(SVCError::Tolerance)
    } else if config.max_iter == 0 {
        Some(SVCError::MaxIter)
    } else {
        None
    }
}

/// Why a decision is refused, if it is.
pub open spec fn decision_refusal(
    k: usize,
    fitted_d: usize,
    len: usize,
    n: usize,
    d: usize,
) -> Option<SVCError> {
    if k == 0 {
        Some(SVCError::NotFitted)
    } else if d != fitted_d {
        Some(SVCError::Dimension)
    } else if len != n * d {
        Some(SVCError::PredictionLength)
    } else {
        None
    }
}

/// A kernel between rows and its parameters.
#[derive(Clone, Copy, Debug, PartialEq, Eq, Structural)]
pub struct KernelShape {
    pub kernel: SVCKernel,
    pub gamma: Float32,
    pub degree: Float32,
    pub coef0: Float32,
}

/// The launch that evaluates the kernel between all of `n` rows.
pub open spec fn gram_launch(
    data: Buffer,
    out: Buffer,
    n: usize,
    d: usize,
    shape: KernelShape,
) -> LaunchView {
    LaunchView {
        kernel: Kernel::SvmKernel,
        arguments: seq![
            Argument::Memory(data),
            Argument::Memory(out),
            Argument::Word(n as u32),
            Argument::Word(d as u32),
            Argument::Word(shape.kernel.id()),
            Argument::Real(shape.gamma),
            Argument::Real(shape.degree),
            Argument::Real(shape.coef0),
        ],
        threadgroup_bytes: 0,
        groups: plane(groups_of(n as int, 16), groups_of(n as int, 16)),
        threads: plane(16, 16),
    }
}

/// The buffers and the launch of a kernel matrix.
pub struct GramPass {
    pub data: Buffer,
    pub out: Buffer,
    pub launch: Launch,
}

/// Whether `pass` evaluates the kernel between `n` rows: its buffers follow those of the
/// ledger `before`, and `after` is the ledger with them.
pub open spec fn evaluates_gram(
    pass: GramPass,
    before: Seq<u64>,
    after: Seq<u64>,
    n: usize,
    d: usize,
    shape: KernelShape,
) -> bool {
    &&& after == before + seq![(4 * (n * d)) as u64, (4 * (n * n)) as u64]
    &&& pass.data == buffer_at(before.len(), 0, 4 * (n * d))
    &&& pass.out == buffer_at(before.len(), 1, 4 * (n * n))
    &&& pass.launch@ == gram_launch(pass.data, pass.out, n, d, shape)
    &&& pass.launch@.bound_in(after)
}

/// The pass that evaluates the kernel between all of `n` rows.
pub fn plan_gram(ctx: &mut MetalContext, n: usize, d: usize, shape: KernelShape) -> (r: GramPass)
    requires
        4 * (n * d) <= usize::MAX,
        4 * (n * n) <= usize::MAX,
        n + 15 <= usize::MAX,
    ensures
        evaluates_gram(r, old(ctx)@, final(ctx)@, n, d, shape),
{
    let ghost start = ctx@;
    assert(0 <= n * d && 0 <= n * n) by (nonlinear_arith)
        requires
            0 <= n,
            0 <= d,
    ;
    let data: Buffer = ctx.new_buffer(n * d);
    let out: Buffer = ctx.new_buffer_uninitialized((n * n * 4) as u64);
    assert(ctx@ =~= start + seq![(4 * (n * d)) as u64, (4 * (n * n)) as u64]);
    let groups: u64 = group_count(n as u64, 16);
    let launch = Launch {
        kernel: Kernel::SvmKernel,
        arguments: vec![
            Argument::Memory(data),
            Argument::Memory(out),
            Argument::Word(#[verifier::truncate] (n as u32)),
            Argument::Word(#[verifier::truncate] (d as u32)),
            Argument::Word(shape.kernel.as_u32()),
            Argument::Real(shape.gamma),
            Argument::Real(shape.degree),
            Argument::Real(shape.coef0),
        ],
        threadgroup_bytes: 0,
        groups: MTLSize::plane(groups, groups),
        threads: MTLSize::plane(16, 16),
    };
    assert(launch@ =~= gram_launch(data, out, n, d, shape));
    GramPass { data, out, launch }
}

/// The sizes of what a decision is made of.
#[derive(Clone, Copy, Debug, PartialEq, Eq, Structural)]
pub struct DecisionSizes {
    /// Rows to decide on.
    pub rows: usize,
    /// Decision values for each row.
    pub outputs: usize,
    /// Features of each row.
    pub features: usize,
    /// Elements of the pooled support vectors.
    pub support: usize,
    /// Pooled dual coefficients.
    pub duals: usize,
    /// Offsets into the pool.
    pub offsets: usize,
}

impl DecisionSizes {
    /// The sizes in bytes of the buffers, in the order in which they are made.
    pub open spec fn bytes(self) -> Seq<u64> {
        seq![
            (4 * (self.rows * self.features)) as u64,
            (4 * self.support) as u64,
            (4 * self.duals) as u64,
            (4 * self.outputs) as u64,
            (4 * self.offsets) as u64,
            (4 * (self.rows * self.outputs)) as u64,
        ]
    }

    /// Whether the machine can hold all of it.
    pub open spec fn fits(self) -> bool {
        &&& 4 * (self.rows * self.features) <= usize::MAX
        &&& 4 * self.support <= usize::MAX
        &&& 4 * self.duals <= usize::MAX
        &&& 4 * self.outputs <= usize::MAX
        &&& 4 * self.offsets <= usize::MAX
        &&& 4 * (self.rows * self.outputs) + 255 <= usize::MAX
    }
}

/// The buffers and the launch of a decision.
pub struct DecisionPass {
    pub x: Buffer,
    pub support: Buffer,
    pub dual: Buffer,
    pub bias: Buffer,
    pub offsets: Buffer,
    pub out: Buffer,
    pub launch: Launch,
}

/// The launch that makes the decision values of all rows.
pub open spec fn decision_launch(
    buffers: Seq<Buffer>,
    sizes: DecisionSizes,
    shape: KernelShape,
) -> LaunchView {
    LaunchView {
        kernel: Kernel::SvmPredict,
        arguments: seq![
            Argument::Memory(buffers[0]),
            Argument::Memory(buffers[1]),
            Argument::Memory(buffers[2]),
            Argument::Memory(buffers[3]),
            Argument::Memory(buffers[4]),
            Argument::Memory(buffers[5]),
            Argument::Word(sizes.rows as u32),
            Argument::Word(sizes.outputs as u32),
            Argument::Word(sizes.duals as u32),
            Argument::Word(sizes.features as u32),
            Argument::Word(shape.kernel.id()),
            Argument::Real(shape.gamma),
            Argument::Real(shape.degree),
            Argument::Real(shape.coef0),
        ],
        threadgroup_bytes: 0,
        groups: line(groups_of(sizes.rows * sizes.outputs, 256)),
        threads: line(256),
    }
}

/// Whether `pass` makes decision values of these sizes: its buffers follow those of the
/// ledger `before`, and `after` is the ledger with them.
pub open spec fn decides(
    pass: DecisionPass,
    before: Seq<u64>,
    after: Seq<u64>,
    sizes: DecisionSizes,
    shape: KernelShape,
) -> bool {
    let bytes = sizes.bytes();
    let buffers = seq![pass.x, pass.support, pass.dual, pass.bias, pass.offsets, pass.out];
    &&& after == before + bytes
    &&& forall|i: int|
        0 <= i < 6 ==> #[trigger] buffers[i] == buffer_at(before.len(), i, bytes[i] as int)
    &&& pass.launch@ == decision_launch(buffers, sizes, shape)
    &&& pass.launch@.bound_in(after)
}

/// The pass that makes the decision values of new rows.
pub fn plan_decision(ctx: &mut MetalContext, sizes: DecisionSizes, shape: KernelShape) -> (r:
    DecisionPass)
    requires
        sizes.fits(),
    ensures
        decides(r, old(ctx)@, final(ctx)@, sizes, shape),
{
    let ghost start = ctx@;
    assert(0 <= sizes.rows * sizes.features && 0 <= sizes.rows * sizes.outputs)
        by (nonlinear_arith)
        requires
            0 <= sizes.rows,
            0 <= sizes.features,
            0 <= sizes.outputs,
    ;
    let rows: usize = sizes.rows;
    let outputs: usize = sizes.outputs;
    let duals: usize = sizes.duals;
    let features: usize = sizes.features;
    let x: Buffer = ctx.new_buffer(rows * features);
    let support: Buffer = ctx.new_buffer(sizes.support);
    let dual: Buffer = ctx.new_buffer(duals);
    let bias: Buffer = ctx.new_buffer(outputs);
    let offsets: Buffer = ctx.new_buffer(sizes.offsets);
    let out: Buffer = ctx.new_buffer_uninitialized((rows * outputs * 4) as u64);
    assert(ctx@ =~= start + sizes.bytes());
    let launch = Launch {
        kernel: Kernel::SvmPredict,
        arguments: vec![
            Argument::Memory(x),
            Argument::Memory(support),
            Argument::Memory(dual),
            Argument::Memory(bias),
            Argument::Memory(offsets),
            Argument::Memory(out),
            Argument::Word(#[verifier::truncate] (rows as u32)),
            Argument::Word(#[verifier::truncate] (outputs as u32)),
            Argument::Word(#[verifier::truncate] (duals as u32)),
            Argument::Word(#[verifier::truncate] (features as u32)),
            Argument::Word(shape.kernel.as_u32()),
            Argument::Real(shape.gamma),
            Argument::Real(shape.degree),
            Argument::Real(shape.coef0),
        ],
        threadgroup_bytes: 0,
        groups: MTLSize::line(group_count((rows * outputs) as u64, 256)),
        threads: MTLSize::line(256),
    };
    let ghost buffers = seq![x, support, dual, bias, offsets, out];
    assert(launch@ =~= decision_launch(buffers, sizes, shape));
    DecisionPass { x, support, dual, bias, offsets, out, launch }
}

/// The distinct labels that were observed so far, in the order of their first observation.
pub struct ClassTable {
    pub classes: Vec<Float32>,
}

/// Whether two labels that differ by `gap` are one class.
pub open spec fn one_class(gap: Float32) -> bool {
    gap.abs_value().lt(Float32 { bits: HALF })
}

impl ClassTable {
    /// A table of no classes.
    pub fn new() -> (r: ClassTable)
        ensures
            r.classes@ == Seq::<Float32>::empty(),
    {
        ClassTable { classes: Vec::new() }
    }

    /// Takes in a label that differs by `gaps` from the classes. It is a class of its own
    /// where none of the gaps is small enough.
    pub fn observe(&mut self, label: Float32, gaps: &[Float32])
        requires
            gaps@.len() == old(self).classes@.len(),
        ensures
            final(self).classes@ == (if exists|i: int|
                0 <= i < gaps@.len() && one_class(#[trigger] gaps@[i]) {
                old(self).classes@
            } else {
                old(self).classes@.push(label)
            }),
    {
        let mut i: usize = 0;
        while i < gaps.len()
            invariant
                i <= gaps@.len(),
                *self == *old(self),
                forall|j: int| 0 <= j < i ==> !one_class(#[trigger] gaps@[j]),
            decreases gaps@.len() - i,
        {
            if gaps[i].abs().less(Float32 { bits: HALF }) {
                assert(one_class(gaps@[i as int]));
                return;
            }
            i += 1;
        }
        self.classes.push(label);
    }
}

/// Which rows belong to a class, given the gaps of their labels to it.
pub fn members(gaps: &[Float32]) -> (r: Vec<bool>)
    ensures
        r@.len() == gaps@.len(),
        forall|i: int| 0 <= i < gaps@.len() ==> #[trigger] r@[i] == one_class(gaps@[i]),
{
    let mut r: Vec<bool> = Vec::new();
    let mut i: usize = 0;
    while i < gaps.len()
        invariant
            i <= gaps@.len(),
            r@.len() == i,
            forall|j: int| 0 <= j < i ==> #[trigger] r@[j] == one_class(gaps@[j]),
        decreases gaps@.len() - i,
    {
        r.push(gaps[i].abs().less(Float32 { bits: HALF }));
        i += 1;
    }
    r
}

/// The seed from which the class at place `ci` draws its pairs.
pub fn class_seed(seed: u64, ci: usize) -> (r: u64)
    requires
        seed + ci * SEED_STRIDE <= u64::MAX,
    ensures
        r == seed + ci * SEED_STRIDE,
{
    seed + (ci as u64) * SEED_STRIDE
}

/// The passes over the rows, as far as they have gone.
#[derive(Clone, Copy, Debug, PartialEq, Eq, Structural)]
pub struct Passes {
    pub max_iter: usize,
    /// Passes done.
    pub done: usize,
    /// How many of the last of them changed nothing.
    pub quiet: usize,
}

impl Passes {
    pub open spec fn wf(&self) -> bool {
        self.quiet <= self.done <= self.max_iter
    }

    /// No pass done yet.
    pub fn new(max_iter: usize) -> (r: Passes)
        ensures
            r.wf(),
            r == (Passes { max_iter, done: 0, quiet: 0 }),
    {
        Passes { max_iter, done: 0, quiet: 0 }
    }

    /// Whether there is another pass.
    pub fn next(&self) -> (r: bool)
        ensures
            r == self.goes_on(),
    {
        self.quiet < self.max_iter && self.done < self.max_iter
    }

    /// One pass more, which changed `changed` pairs.
    pub open spec fn advanced(self, changed: usize) -> Passes {
        Passes {
            max_iter: self.max_iter,
            done: (self.done + 1) as usize,
            quiet: if changed == 0 {
                (self.quiet + 1) as usize
            } else {
                0
            },
        }
    }

    /// Whether there is another pass.
    pub open spec fn goes_on(self) -> bool {
        self.quiet < self.max_iter && self.done < self.max_iter
    }

    /// Takes in a pass that changed `changed` pairs.
    pub fn advance(&mut self, changed: usize)
        requires
            old(self).wf(),
            old(self).done < old(self).max_iter,
        ensures
            final(self).wf(),
            *final(self) == old(self).advanced(changed),
    {
        self.done = self.done + 1;
        if changed == 0 {
            self.quiet = self.quiet + 1;
        } else {
            self.quiet = 0;
        }
    }
}

/// A walk over the rows, pass after pass.
#[derive(Clone, Copy, Debug, PartialEq, Eq, Structural)]
pub struct Cursor {
    pub n: usize,
    /// The row to look at.
    pub row: usize,
    /// How many pairs the pass has changed so far.
    pub changed: usize,
    pub passes: Passes,
}

impl Cursor {
    pub open spec fn wf(&self) -> bool {
        &&& self.passes.wf()
        &&& self.changed <= self.row < self.n
    }

    /// The first row of the first pass.
    pub fn new(n: usize, max_iter: usize) -> (r: Cursor)
        requires
            n > 0,
        ensures
            r.wf(),
            r == (Cursor { n, row: 0, changed: 0, passes: Passes { max_iter, done: 0, quiet: 0 } }),
    {
        Cursor { n, row: 0, changed: 0, passes: Passes::new(max_iter) }
    }

    /// The next row, or the first one of the next pass.
    pub open spec fn skipped(self) -> Cursor {
        if self.row + 1 < self.n {
            Cursor { row: (self.row + 1) as usize, ..self }
        } else {
            Cursor { row: 0, changed: 0, passes: self.passes.advanced(self.changed), ..self }
        }
    }

    /// The same, after a pair that was changed.
    pub open spec fn counted(self) -> Cursor {
        if self.row + 1 < self.n {
            Cursor {
                row: (self.row + 1) as usize,
                changed: (self.changed + 1) as usize,
                ..self
            }
        } else {
            Cursor {
                row: 0,
                changed: 0,
                passes: self.passes.advanced((self.changed + 1) as usize),
                ..self
            }
        }
    }

    /// How many rows were looked at, over all passes.
    pub open spec fn rank(self) -> int {
        self.passes.done * self.n + self.row
    }

    /// Goes on to the next row.
    pub fn skip(&mut self)
        requires
            old(self).wf(),
            old(self).passes.goes_on(),
        ensures
            final(self).wf(),
            *final(self) == old(self).skipped(),
    {
        if self.row + 1 < self.n {
            self.row = self.row + 1;
        } else {
            let changed: usize = self.changed;
            self.passes.advance(changed);
            self.row = 0;
            self.changed = 0;
        }
    }

    /// Goes on to the next row after a pair that was changed.
    pub fn count(&mut self)
        requires
            old(self).wf(),
            old(self).passes.goes_on(),
        ensures
            final(self).wf(),
            *final(self) == old(self).counted(),
    {
        if self.row + 1 < self.n {
            self.row = self.row + 1;
            self.changed = self.changed + 1;
        } else {
            let changed: usize = self.changed + 1;
            self.passes.advance(changed);
            self.row = 0;
            self.changed = 0;
        }
    }
}

/// A walk over the rows ends: each row that is looked at brings it one nearer to as many rows
/// as all passes have.
pub proof fn lemma_walk_ends(cursor: Cursor)
    requires
        cursor.wf(),
        cursor.passes.goes_on(),
    ensures
        cursor.skipped().rank() == cursor.rank() + 1,
        cursor.counted().rank() == cursor.rank() + 1,
        cursor.rank() < cursor.passes.max_iter * cursor.n,
{
    let done = cursor.passes.done as int;
    let n = cursor.n as int;
    assert((done + 1) * n == done * n + n) by (nonlinear_arith);
    assert((done + 1) * n <= cursor.passes.max_iter * n) by (nonlinear_arith)
        requires
            done + 1 <= cursor.passes.max_iter,
            0 < n,
    ;
}

/// However a walk ends, it has made no more passes than were allowed.
pub proof fn lemma_passes_bounded(cursor: Cursor)
    requires
        cursor.wf(),
    ensures
        cursor.passes.done <= cursor.passes.max_iter,
        !cursor.passes.goes_on() ==> cursor.passes.done == cursor.passes.max_iter,
{
}

/// Whether the row that `j` was drawn for may be paired with it: `j` is another row, the first
/// that the generator drew, or the row itself where there is no other.
pub open spec fn partner_drawn(before: u64, after: u64, n: usize, i: usize, j: usize) -> bool {
    if n == 1 {
        j == i && after == before
    } else {
        &&& j < n
        &&& j != i
        &&& exists|k: nat|
            k < u64::MAX && #[trigger] nth_draw(before, n, k) == j && (forall|e: nat|
                e < k ==> #[trigger] nth_draw(before, n, e) == i) && after == state_after(
                before,
                n,
                k + 1,
            )
    }
}

/// Whether the generator drew `i` and nothing else, as often as it may in a row.
pub open spec fn partner_missed(before: u64, after: u64, n: usize, i: usize) -> bool {
    &&& n > 1
    &&& forall|e: nat| e < u64::MAX ==> #[trigger] nth_draw(before, n, e) == i
    &&& after == state_after(before, n, u64::MAX as nat)
}

/// Draws the row to pair `i` with. `None` where the generator kept drawing `i`; then the draw
/// can go on from where it is.
pub fn draw_partner(rng: &mut Rng, n: usize, i: usize) -> (r: Option<usize>)
    requires
        i < n,
    ensures
        match r {
            Some(j) => partner_drawn(old(rng).state, final(rng).state, n, i, j),
            None => partner_missed(old(rng).state, final(rng).state, n, i),
        },
{
    if n == 1 {
        return Some(i);
    }
    rng.index_other_than(n, i, u64::MAX)
}

/// Draws are reproducible: from one state a row is always given the same partner, or always
/// none, and the generator goes on from the same state.
pub proof fn lemma_partner_reproducible(
    before: u64,
    after: u64,
    other_after: u64,
    n: usize,
    i: usize,
    j: usize,
    other_j: usize,
)
    ensures
        partner_drawn(before, after, n, i, j) && partner_drawn(before, other_after, n, i, other_j)
            ==> j == other_j && after == other_after,
        partner_missed(before, after, n, i) && partner_missed(before, other_after, n, i) ==> after
            == other_after,
        !(partner_drawn(before, after, n, i, j) && partner_missed(before, other_after, n, i)),
{
    if n > 1 && partner_drawn(before, after, n, i, j) {
        let k = choose|k: nat|
            k < u64::MAX && #[trigger] nth_draw(before, n, k) == j && (forall|e: nat|
                e < k ==> #[trigger] nth_draw(before, n, e) == i) && after == state_after(
                before,
                n,
                k + 1,
            );
        assert(nth_draw(before, n, k) == j);
        if partner_drawn(before, other_after, n, i, other_j) {
            let other_k = choose|k: nat|
                k < u64::MAX && #[trigger] nth_draw(before, n, k) == other_j && (forall|e: nat|
                    e < k ==> #[trigger] nth_draw(before, n, e) == i) && other_after
                    == state_after(before, n, k + 1);
            assert(nth_draw(before, n, other_k) == other_j);
            assert(k == other_k);
        }
    }
}

/// Whether a row is to be taken up: its coefficient could be larger, and the row is too far on
/// the wrong side, or it could be smaller, and the row is too far on the right side.
/// `slack` is the row's error times its side.
pub open spec fn violates(slack: Float32, alpha: Float32, c: Float32, tolerance: Float32) -> bool {
    ||| slack.lt(tolerance.negation()) && alpha.lt(c)
    ||| tolerance.lt(slack) && (Float32 { bits: 0 }).lt(alpha)
}

/// Whether a row is to be taken up.
pub fn is_violation(slack: Float32, alpha: Float32, c: Float32, tolerance: Float32) -> (r: bool)
    ensures
        r == violates(slack, alpha, c, tolerance),
{
    (slack.less(tolerance.neg()) && alpha.less(c)) || (tolerance.less(slack)
        && alpha.is_positive())
}

/// What a coefficient may become: at least `low` and zero, at most `high` and `c`.
pub open spec fn interval(low: Float32, high: Float32, c: Float32) -> (Float32, Float32) {
    ((Float32 { bits: 0 }).max_value(low), c.min_value(high))
}

/// What a coefficient may become: at least `low` and zero, at most `high` and `c`.
pub fn clip_interval(low: Float32, high: Float32, c: Float32) -> (r: (Float32, Float32))
    ensures
        r == interval(low, high, c),
{
    (Float32::zero().larger(low), c.smaller(high))
}

/// Whether an interval of the width `width` has no room for a step.
pub fn is_narrow(width: Float32) -> (r: bool)
    ensures
        r == width.abs_value().lt(Float32 { bits: NARROW }),
{
    width.abs().less(Float32 { bits: NARROW })
}

/// Whether a pair is passed over: its interval has no room, or the objective has no maximum
/// along it.
pub fn is_flat(width: Float32, eta: Float32) -> (r: bool)
    ensures
        r == (width.abs_value().lt(Float32 { bits: NARROW }) || (Float32 { bits: 0 }).le(eta)),
{
    is_narrow(width) || Float32::zero().at_most(eta)
}

/// The point of the interval that is nearest to `value`.
pub open spec fn clipped(value: Float32, low: Float32, high: Float32) -> Float32 {
    value.max_value(low).min_value(high)
}

/// The point of the interval that is nearest to `value`.
pub fn clip(value: Float32, low: Float32, high: Float32) -> (r: Float32)
    ensures
        r == clipped(value, low, high),
{
    value.larger(low).smaller(high)
}

/// Whether a coefficient that changes by `change` counts as changed.
pub fn is_step(change: Float32) -> (r: bool)
    ensures
        r == !change.abs_value().lt(Float32 { bits: TINY }),
{
    !change.abs().less(Float32 { bits: TINY })
}

/// Where the intercept comes from after a step.
#[derive(Clone, Copy, Debug, PartialEq, Eq, Structural)]
pub enum InterceptRule {
    /// From the first row of the pair.
    First,
    /// From the second row of the pair.
    Second,
    /// From the middle of both.
    Middle,
}

/// Whether a coefficient lies within its bounds, not on them.
pub open spec fn interior(alpha: Float32, c: Float32) -> bool {
    (Float32 { bits: 0 }).lt(alpha) && alpha.lt(c)
}

/// Where the intercept comes from after a step to `first` and `second`.
pub fn intercept_rule(first: Float32, second: Float32, c: Float32) -> (r: InterceptRule)
    ensures
        r == (if interior(first, c) {
            InterceptRule::First
        } else if interior(second, c) {
            InterceptRule::Second
        } else {
            InterceptRule::Middle
        }),
{
    if first.is_positive() && first.less(c) {
        InterceptRule::First
    } else if second.is_positive() && second.less(c) {
        InterceptRule::Second
    } else {
        InterceptRule::Middle
    }
}

/// What an optimization waits for.
#[derive(Clone, Copy, Debug, PartialEq, Eq, Structural)]
pub enum Stage {
    /// The error of the row under the cursor.
    Examine,
    /// Between what the coefficient of row `j` may lie. Where the rows are `opposed`, on two
    /// sides, their difference is to stay, else their sum.
    Bounds { j: usize, opposed: bool },
    /// Where the coefficient of row `j` would be best, between `low` and `high`.
    Optimum { j: usize, low: Float32, high: Float32 },
    /// What follows from the coefficient `next` of row `j`.
    Outcome { j: usize, next: Float32 },
}

/// The optimization of the coefficients that set one class apart from the others.
pub struct Smo {
    pub c: Float32,
    pub tolerance: Float32,
    pub cursor: Cursor,
    pub rng: Rng,
    /// Which rows are of the class.
    pub sides: Vec<bool>,
    pub alpha: Vec<Float32>,
    pub intercept: Float32,
    pub stage: Stage,
}

impl Smo {
    pub open spec fn wf(&self) -> bool {
        &&& self.cursor.wf()
        &&& self.sides@.len() == self.cursor.n
        &&& self.alpha@.len() == self.cursor.n
        &&& match self.stage {
            Stage::Examine => true,
            Stage::Bounds { j, opposed } => j < self.cursor.n && opposed == (
            self.sides@[self.cursor.row as int] != self.sides@[j as int]),
            Stage::Optimum { j, low, high } => j < self.cursor.n,
            Stage::Outcome { j, next } => j < self.cursor.n,
        }
    }

    /// All coefficients zero, for the class `ci`, to which the rows belong that `sides` says.
    pub fn new(config: &SVCConfig, sides: Vec<bool>, ci: usize) -> (r: Smo)
        requires
            sides@.len() > 0,
            config.seed + ci * SEED_STRIDE <= u64::MAX,
        ensures
            r.wf(),
            r.c == config.c,
            r.tolerance == config.tolerance,
            r.cursor == (Cursor {
                n: sides@.len() as usize,
                row: 0,
                changed: 0,
                passes: Passes { max_iter: config.max_iter, done: 0, quiet: 0 },
            }),
            r.rng.state == config.seed + ci * SEED_STRIDE,
            r.sides == sides,
            r.alpha@ == Seq::new(sides@.len(), |i: int| Float32 { bits: 0 }),
            r.intercept == (Float32 { bits: 0 }),
            r.stage == Stage::Examine,
    {
        let n: usize = sides.len();
        let alpha: Vec<Float32> = zeros(n);
        assert(alpha@ =~= Seq::new(n as nat, |i: int| Float32 { bits: 0 }));
        Smo {
            c: config.c,
            tolerance: config.tolerance,
            cursor: Cursor::new(n, config.max_iter),
            rng: Rng::with_seed(class_seed(config.seed, ci)),
            sides,
            alpha,
            intercept: Float32::zero(),
            stage: Stage::Examine,
        }
    }

    /// Whether the optimization goes on.
    pub fn next(&self) -> (r: bool)
        ensures
            r == self.cursor.passes.goes_on(),
    {
        self.cursor.passes.next()
    }

    /// Takes in the error of the row under the cursor times its side. A row that is not to be
    /// taken up is passed over; for another one a partner is drawn. Where the generator kept
    /// drawing the row itself, the stage is the same as before, and the draw can go on.
    pub fn examine(&mut self, slack: Float32)
        requires
            old(self).wf(),
            old(self).cursor.passes.goes_on(),
            old(self).stage == Stage::Examine,
        ensures
            final(self).wf(),
            !violates(
                slack,
                old(self).alpha@[old(self).cursor.row as int],
                old(self).c,
                old(self).tolerance,
            ) ==> *final(self) == (Smo { cursor: old(self).cursor.skipped(), ..*old(self) }),
            violates(
                slack,
                old(self).alpha@[old(self).cursor.row as int],
                old(self).c,
                old(self).tolerance,
            ) ==> {
                &&& *final(self) == (Smo {
                    rng: final(self).rng,
                    stage: final(self).stage,
                    ..*old(self)
                })
                &&& match final(self).stage {
                    Stage::Bounds { j, opposed } => partner_drawn(
                        old(self).rng.state,
                        final(self).rng.state,
                        old(self).cursor.n,
                        old(self).cursor.row,
                        j,
                    ) && opposed == (old(self).sides@[old(self).cursor.row as int] != old(
                        self,
                    ).sides@[j as int]),
                    Stage::Examine => partner_missed(
                        old(self).rng.state,
                        final(self).rng.state,
                        old(self).cursor.n,
                        old(self).cursor.row,
                    ),
                    _ => false,
                }
            },
    {
        let i: usize = self.cursor.row;
        if !is_violation(slack, self.alpha[i], self.c, self.tolerance) {
            self.cursor.skip();
            return;
        }
        if let Some(j) = draw_partner(&mut self.rng, self.cursor.n, i) {
            let opposed: bool = self.sides[i] != self.sides[j];
            self.stage = Stage::Bounds { j, opposed };
        }
    }

    /// Takes in between what the partner's coefficient keeps the pair's balance: `low` and
    /// `high`.
    pub fn bound(&mut self, low: Float32, high: Float32)
        requires
            old(self).wf(),
            old(self).stage is Bounds,
        ensures
            final(self).wf(),
            *final(self) == (Smo {
                stage: Stage::Optimum {
                    j: old(self).stage->Bounds_j,
                    low: interval(low, high, old(self).c).0,
                    high: interval(low, high, old(self).c).1,
                },
                ..*old(self)
            }),
    {
        if let Stage::Bounds { j, .. } = self.stage {
            let (l, h) = clip_interval(low, high, self.c);
            self.stage = Stage::Optimum { j, low: l, high: h };
        }
    }

    /// Takes in how wide the interval is, how the objective bends along it and where it would be
    /// largest without bounds. A pair without room or without a maximum is passed over.
    pub fn optimize(&mut self, width: Float32, eta: Float32, optimum: Float32)
        requires
            old(self).wf(),
            old(self).cursor.passes.goes_on(),
            old(self).stage is Optimum,
        ensures
            final(self).wf(),
            *final(self) == (if width.abs_value().lt(Float32 { bits: NARROW }) || (Float32 {
                bits: 0,
            }).le(eta) {
                Smo { cursor: old(self).cursor.skipped(), stage: Stage::Examine, ..*old(self) }
            } else {
                Smo {
                    stage: Stage::Outcome {
                        j: old(self).stage->Optimum_j,
                        next: clipped(
                            optimum,
                            old(self).stage->Optimum_low,
                            old(self).stage->Optimum_high,
                        ),
                    },
                    ..*old(self)
                }
            }),
    {
        if let Stage::Optimum { j, low, high } = self.stage {
            if is_flat(width, eta) {
                self.stage = Stage::Examine;
                self.cursor.skip();
            } else {
                self.stage = Stage::Outcome { j, next: clip(optimum, low, high) };
            }
        }
    }

    /// Takes in by how much the partner's coefficient changes, what the row's own becomes, and
    /// the three values that the intercept may take. A change that is too small is passed over.
    pub fn settle(
        &mut self,
        change: Float32,
        own: Float32,
        first: Float32,
        second: Float32,
        middle: Float32,
    )
        requires
            old(self).wf(),
            old(self).cursor.passes.goes_on(),
            old(self).stage is Outcome,
        ensures
            final(self).wf(),
            final(self).stage == Stage::Examine,
            final(self).c == old(self).c,
            final(self).tolerance == old(self).tolerance,
            final(self).rng == old(self).rng,
            final(self).sides == old(self).sides,
            change.abs_value().lt(Float32 { bits: TINY }) ==> {
                &&& final(self).cursor == old(self).cursor.skipped()
                &&& final(self).alpha@ == old(self).alpha@
                &&& final(self).intercept == old(self).intercept
            },
            !change.abs_value().lt(Float32 { bits: TINY }) ==> {
                let i = old(self).cursor.row as int;
                let j = old(self).stage->Outcome_j as int;
                let next = old(self).stage->Outcome_next;
                &&& final(self).cursor == old(self).cursor.counted()
                &&& final(self).alpha@ == old(self).alpha@.update(i, own).update(j, next)
                &&& final(self).intercept == (if interior(own, old(self).c) {
                    first
                } else if interior(next, old(self).c) {
                    second
                } else {
                    middle
                })
            },
    {
        if let Stage::Outcome { j, next } = self.stage {
            self.stage = Stage::Examine;
            if !is_step(change) {
                self.cursor.skip();
                return;
            }
            let i: usize = self.cursor.row;
            self.intercept = match intercept_rule(own, next, self.c) {
                InterceptRule::First => first,
                InterceptRule::Second => second,
                InterceptRule::Middle => middle,
            };
            self.alpha.set(i, own);
            self.alpha.set(j, next);
            self.cursor.count();
        }
    }
}

/// A coefficient that a step sets stays between zero and the largest one, where its interval
/// is not empty.
pub proof fn lemma_coefficient_in_box(
    value: Float32,
    low: Float32,
    high: Float32,
    c: Float32,
)
    requires
        usable(c),
        interval(low, high, c).0.le(interval(low, high, c).1),
    ensures
        ({
            let (l, h) = interval(low, high, c);
            let r = clipped(value, l, h);
            &&& l.le(r)
            &&& r.le(h)
            &&& (Float32 { bits: 0 }).le(r)
            &&& r.le(c)
        }),
{
}

/// The places of the coefficients that support, among the first `i`.
pub open spec fn supports(alpha: Seq<Float32>, i: int) -> Seq<usize>
    decreases i,
{
    if i <= 0 {
        Seq::empty()
    } else if (Float32 { bits: TINY }).lt(alpha[i - 1]) {
        supports(alpha, i - 1).push((i - 1) as usize)
    } else {
        supports(alpha, i - 1)
    }
}

/// The coefficient of a row with the sign of its side.
pub open spec fn signed(alpha: Seq<Float32>, side: Seq<bool>, i: int) -> Float32 {
    if side[i] {
        alpha[i]
    } else {
        alpha[i].negation()
    }
}

/// The signed coefficients of the rows `rows`.
pub open spec fn duals_of(alpha: Seq<Float32>, side: Seq<bool>, rows: Seq<usize>) -> Seq<Float32> {
    rows.map_values(|row: usize| signed(alpha, side, row as int))
}

/// The sum of the first `c` sizes.
pub open spec fn total(sizes: Seq<usize>, c: int) -> int
    decreases c,
{
    if c <= 0 {
        0
    } else {
        total(sizes, c - 1) + sizes[c - 1]
    }
}

/// The support vectors of the classes done so far, one class after the other.
pub struct Pool {
    pub d: usize,
    /// The rows that the support vectors are.
    pub rows: Vec<usize>,
    pub vectors: Vec<Float32>,
    pub duals: Vec<Float32>,
    /// How many support vectors each class has.
    pub sizes: Vec<usize>,
    /// Where each class begins, and where the last one ends.
    pub offsets: Vec<u32>,
}

impl Pool {
    /// Whether the pool holds rows of `data`, class by class.
    pub open spec fn wf(&self, data: Seq<Float32>, n: int) -> bool {
        &&& 0 < self.d
        &&& data.len() == n * self.d
        &&& forall|i: int| 0 <= i < self.rows@.len() ==> #[trigger] self.rows@[i] < n
        &&& self.vectors@ == rows_of(data, self.d as int, self.rows@)
        &&& self.duals@.len() == self.rows@.len()
        &&& self.rows@.len() == total(self.sizes@, self.sizes@.len() as int)
        &&& self.offsets@.len() == self.sizes@.len() + 1
        &&& forall|c: int|
            0 <= c <= self.sizes@.len() ==> #[trigger] self.offsets@[c] == total(
                self.sizes@,
                c,
            ) as u32
    }

    /// A pool of no class, for rows of `data`.
    pub fn new(data: &[Float32], n: usize, d: usize) -> (r: Pool)
        requires
            0 < d,
            data@.len() == n * d,
        ensures
            r.wf(data@, n as int),
            r.d == d,
            r.rows@.len() == 0,
            r.sizes@.len() == 0,
    {
        let r = Pool {
            d,
            rows: Vec::new(),
            vectors: Vec::new(),
            duals: Vec::new(),
            sizes: Vec::new(),
            offsets: vec![0],
        };
        proof {
            assert(r.rows@.len() * d == 0) by (nonlinear_arith)
                requires
                    r.rows@.len() == 0,
            ;
            assert(r.vectors@ =~= rows_of(data@, d as int, r.rows@));
        }
        r
    }

    /// Takes in a class: the rows whose coefficients support it, each with the sign of its
    /// side.
    pub fn add_class(&mut self, data: &[Float32], n: usize, alpha: &[Float32], side: &[bool])
        requires
            old(self).wf(data@, n as int),
            alpha@.len() == n,
            side@.len() == n,
        ensures
            final(self).wf(data@, n as int),
            final(self).d == old(self).d,
            ({
                let rows = supports(alpha@, n as int);
                &&& final(self).rows@ == old(self).rows@ + rows
                &&& final(self).duals@ == old(self).duals@ + duals_of(alpha@, side@, rows)
                &&& final(self).sizes@ == old(self).sizes@.push(rows.len() as usize)
            }),
    {
        let ghost before = *self;
        let mut picked: Vec<usize> = Vec::new();
        let mut i: usize = 0;
        while i < n
            invariant
                i <= n,
                alpha@.len() == n,
                picked@ == supports(alpha@, i as int),
                picked@.len() <= i,
                forall|j: int| 0 <= j < picked@.len() ==> #[trigger] picked@[j] < i,
            decreases n - i,
        {
            if (Float32 { bits: TINY }).less(alpha[i]) {
                picked.push(i);
            }
            i += 1;
        }
        let d: usize = self.d;
        let mut vectors: Vec<Float32> = pick_rows(data, n, d, picked.as_slice());
        self.vectors.append(&mut vectors);
        let size: usize = picked.len();
        let mut duals: Vec<Float32> = Vec::new();
        let mut j: usize = 0;
        while j < size
            invariant
                j <= size,
                size == picked@.len(),
                alpha@.len() == n,
                side@.len() == n,
                forall|e: int| 0 <= e < picked@.len() ==> #[trigger] picked@[e] < n,
                duals@ == duals_of(alpha@, side@, picked@.take(j as int)),
            decreases size - j,
        {
            let row: usize = picked[j];
            let dual: Float32 = if side[row] {
                alpha[row]
            } else {
                alpha[row].neg()
            };
            duals.push(dual);
            proof {
                assert(picked@.take(j + 1) =~= picked@.take(j as int).push(row));
            }
            j += 1;
            assert(duals@ =~= duals_of(alpha@, side@, picked@.take(j as int)));
        }
        assert(picked@.take(size as int) =~= picked@);
        self.duals.append(&mut duals);
        self.rows.append(&mut picked);
        let end: usize = self.duals.len();
        self.sizes.push(size);
        self.offsets.push(#[verifier::truncate] (end as u32));
        proof {
            let rows = supports(alpha@, n as int);
            lemma_rows_concat(data@, d as int, before.rows@, rows);
            lemma_total_push(before.sizes@, size, before.sizes@.len() as int);
            let count = before.sizes@.len() as int;
            assert(self.sizes@ =~= before.sizes@.push(size));
            assert(total(self.sizes@, count + 1) == total(self.sizes@, count) + size);
            assert forall|c: int| 0 <= c <= self.sizes@.len() implies #[trigger] self.offsets@[c]
                == total(self.sizes@, c) as u32 by {
                if c <= count {
                    assert(self.offsets@[c] == before.offsets@[c]);
                    lemma_total_push(before.sizes@, size, c);
                }
            }
            assert forall|e: int| 0 <= e < self.rows@.len() implies #[trigger] self.rows@[e] < n by {
                if e < before.rows@.len() {
                    assert(self.rows@[e] == before.rows@[e]);
                } else {
                    assert(self.rows@[e] == rows[e - before.rows@.len()]);
                }
            }
        }
    }
}

proof fn lemma_total_push(sizes: Seq<usize>, size: usize, c: int)
    requires
        c <= sizes.len(),
    ensures
        total(sizes.push(size), c) == total(sizes, c),
    decreases c,
{
    if c > 0 {
        lemma_total_push(sizes, size, c - 1);
    }
}

pub struct SVC {
    pub config: SVCConfig,
    /// The width of the kernel, once it is known.
    pub gamma: Float32,
    /// The labels, in the order in which they were first seen.
    pub classes: Vec<Float32>,
    pub k: usize,
    pub d: usize,
    pub n: usize,
    pub intercept: Vec<Float32>,
    /// The support vectors of all classes.
    pub pooled_sv: Vec<Float32>,
    /// Their signed coefficients.
    pub pooled_dual: Vec<Float32>,
    /// Where each class begins in them.
    pub offsets: Vec<u32>,
    /// How many support vectors each class has.
    pub support_sizes: Vec<usize>,
    /// How many passes each class took.
    pub passes: Vec<usize>,
    /// The pipelines compiled so far.
    pub pipelines: PipelineCache,
}

/// The pipelines of a support vector machine, none of them compiled yet.
pub fn pipelines() -> (r: PipelineCache)
    ensures
        r.wf(),
        r.entry(Kernel::SvmKernel) == Some(None::<usize>),
        r.entry(Kernel::SvmPredict) == Some(None::<usize>),
{
    let kernels: Vec<Kernel> = vec![Kernel::SvmKernel, Kernel::SvmPredict];
    assert(kernels@[0] == Kernel::SvmKernel);
    assert(kernels@[1] == Kernel::SvmPredict);
    PipelineCache::new(kernels)
}

/// The width of the kernel that a configuration asks for; `None` where it leaves the width
/// to the number of features.
pub open spec fn explicit_gamma(gamma: Float32) -> Option<Float32> {
    if usable(gamma) {
        Some(gamma)
    } else {
        None
    }
}

/// Whether `label` is the class of a row of decision values: of two classes the first where
/// the first value is positive, else the second; of more, the first with the largest value.
pub open spec fn decided(classes: Seq<Float32>, row: Seq<Float32>, label: Float32) -> bool {
    if classes.len() == 2 {
        label == (if (Float32 { bits: 0 }).lt(row[0]) {
            classes[0]
        } else {
            classes[1]
        })
    } else {
        exists|c: int| #[trigger] leading_greatest(row, c) && label == classes[c]
    }
}

impl SVC {
    /// Whether the parts of a fitted classifier belong together.
    pub open spec fn wf(&self) -> bool {
        &&& self.k == self.classes@.len()
        &&& self.k > 0 ==> {
            &&& self.pooled_sv@.len() == self.pooled_dual@.len() * self.d
            &&& self.intercept@.len() == self.k
            &&& self.passes@.len() == self.k
            &&& self.support_sizes@.len() == self.k
            &&& self.offsets@.len() == self.k + 1
            &&& self.pooled_dual@.len() == total(self.support_sizes@, self.k as int)
            &&& forall|c: int|
                0 <= c <= self.k ==> #[trigger] self.offsets@[c] == total(
                    self.support_sizes@,
                    c,
                ) as u32
        }
    }

    pub fn new(config: SVCConfig) -> (r: SVC)
        ensures
            r.wf(),
            r.config == config,
            r.gamma == (Float32 { bits: 0 }),
            r.classes@.len() == 0,
            r.k == 0,
            r.d == 0,
            r.n == 0,
            r.intercept@.len() == 0,
            r.pooled_sv@.len() == 0,
            r.pooled_dual@.len() == 0,
            r.offsets@.len() == 0,
            r.support_sizes@.len() == 0,
            r.passes@.len() == 0,
            r.pipelines.wf(),
            r.pipelines.entry(Kernel::SvmKernel) == Some(None::<usize>),
            r.pipelines.entry(Kernel::SvmPredict) == Some(None::<usize>),
    {
        SVC {
            config,
            gamma: Float32::zero(),
            classes: Vec::new(),
            k: 0,
            d: 0,
            n: 0,
            intercept: Vec::new(),
            pooled_sv: Vec::new(),
            pooled_dual: Vec::new(),
            offsets: Vec::new(),
            support_sizes: Vec::new(),
            passes: Vec::new(),
            pipelines: pipelines(),
        }
    }

    pub fn n_classes(&self) -> (r: usize)
        ensures
            r == self.k,
    {
        self.k
    }

    pub fn n_features(&self) -> (r: usize)
        ensures
            r == self.d,
    {
        self.d
    }

    pub fn n_samples(&self) -> (r: usize)
        ensures
            r == self.n,
    {
        self.n
    }

    pub fn gamma(&self) -> (r: Float32)
        ensures
            r == self.gamma,
    {
        self.gamma
    }

    pub fn classes(&self) -> (r: &[Float32])
        ensures
            r@ == self.classes@,
    {
        self.classes.as_slice()
    }

    pub fn intercept(&self) -> (r: &[Float32])
        ensures
            r@ == self.intercept@,
    {
        self.intercept.as_slice()
    }

    pub fn support_vectors(&self) -> (r: &[Float32])
        ensures
            r@ == self.pooled_sv@,
    {
        self.pooled_sv.as_slice()
    }

    pub fn dual_coef(&self) -> (r: &[Float32])
        ensures
            r@ == self.pooled_dual@,
    {
        self.pooled_dual.as_slice()
    }

    pub fn n_iter(&self) -> (r: &[usize])
        ensures
            r@ == self.passes@,
    {
        self.passes.as_slice()
    }

    /// How many support vectors each class has.
    pub fn n_support(&self) -> (r: Vec<usize>)
        ensures
            r@ == self.support_sizes@,
    {
        let mut r: Vec<usize> = Vec::new();
        let mut i: usize = 0;
        while i < self.support_sizes.len()
            invariant
                i <= self.support_sizes@.len(),
                r@ == self.support_sizes@.take(i as int),
            decreases self.support_sizes@.len() - i,
        {
            r.push(self.support_sizes[i]);
            i += 1;
            assert(r@ =~= self.support_sizes@.take(i as int));
        }
        assert(r@ =~= self.support_sizes@);
        r
    }

    /// How many support vectors all classes have together; a row that supports several counts
    /// for each of them.
    pub fn support_count(&self) -> (r: usize)
        ensures
            r == self.pooled_dual@.len(),
    {
        self.pooled_dual.len()
    }

    /// Starts a fit on `n` rows of `d` columns with a label each: the width of the kernel where
    /// the configuration sets it, `None` where it is one over the number of features.
    pub fn fit(&self, data: &[Float32], labels: &[Float32], n: usize, d: usize) -> (r: Result<
        Option<Float32>,
        SVCError,
    >)
        ensures
            r == (match fit_refusal(
                self.config,
                data@.len() as usize,
                labels@.len() as usize,
                n,
                d,
            ) {
                Some(e) => Err::<Option<Float32>, SVCError>(e),
                None => Ok(explicit_gamma(self.config.gamma)),
            }),
    {
        let len: usize = data.len();
        let given: usize = labels.len();
        if n == 0 || d == 0 {
            return Err(SVCError::Empty);
        }
        if !is_matrix(len, n, d) {
            return Err(SVCError::DataLength { n, d, got: len });
        }
        if given != n {
            return Err(SVCError::LabelLength);
        }
        if !is_usable(self.config.c) {
            return Err(SVCError::C);
        }
        if !is_usable(self.config.tolerance) {
            return Err(SVCError::Tolerance);
        }
        if self.config.max_iter == 0 {
            return Err(SVCError::MaxIter);
        }
        if is_usable(self.config.gamma) {
            Ok(Some(self.config.gamma))
        } else {
            Ok(None)
        }
    }

    /// The kernel between rows, at the width `gamma`.
    pub open spec fn shape(&self, gamma: Float32) -> KernelShape {
        KernelShape {
            kernel: self.config.kernel,
            gamma,
            degree: self.config.degree,
            coef0: self.config.coef0,
        }
    }

    /// Goes on with a fit once the classes are known: the pass that evaluates the kernel
    /// between all rows.
    pub fn gram(
        &self,
        ctx: &mut MetalContext,
        table: &ClassTable,
        gamma: Float32,
        n: usize,
        d: usize,
    ) -> (r: Result<GramPass, SVCError>)
        requires
            table.classes@.len() >= 2 ==> {
                &&& 4 * (n * d) <= usize::MAX
                &&& 4 * (n * n) <= usize::MAX
                &&& n + 15 <= usize::MAX
            },
        ensures
            if table.classes@.len() < 2 {
                r == Err::<GramPass, SVCError>(SVCError::Classes) && *final(ctx) == *old(ctx)
            } else {
                r matches Ok(pass) && evaluates_gram(
                    pass,
                    old(ctx)@,
                    final(ctx)@,
                    n,
                    d,
                    self.shape(gamma),
                ) && {
                    &&& pass.launch.arguments@.len() == 8
                    &&& pass.launch.arguments@[5] == Argument::Real(gamma)
                    &&& pass.launch.arguments@[6] == Argument::Real(self.config.degree)
                    &&& pass.launch.arguments@[7] == Argument::Real(self.config.coef0)
                }
            },
    {
        if table.classes.len() < 2 {
            return Err(SVCError::Classes);
        }
        let shape = KernelShape {
            kernel: self.config.kernel,
            gamma,
            degree: self.config.degree,
            coef0: self.config.coef0,
        };
        Ok(plan_gram(ctx, n, d, shape))
    }

    /// Ends a fit.
    pub fn finish(
        &mut self,
        data: &[Float32],
        n: usize,
        d: usize,
        table: ClassTable,
        gamma: Float32,
        pool: Pool,
        intercept: Vec<Float32>,
        passes: Vec<usize>,
    )
        requires
            pool.wf(data@, n as int),
            pool.d == d,
            pool.sizes@.len() == table.classes@.len(),
            intercept@.len() == table.classes@.len(),
            passes@.len() == table.classes@.len(),
        ensures
            final(self).wf(),
            final(self).config == old(self).config,
            final(self).pipelines == old(self).pipelines,
            final(self).gamma == gamma,
            final(self).classes == table.classes,
            final(self).k == table.classes@.len(),
            final(self).d == d,
            final(self).n == n,
            final(self).intercept == intercept,
            final(self).pooled_sv == pool.vectors,
            final(self).pooled_dual == pool.duals,
            final(self).offsets == pool.offsets,
            final(self).support_sizes == pool.sizes,
            final(self).passes == passes,
    {
        self.gamma = gamma;
        self.k = table.classes.len();
        self.classes = table.classes;
        self.d = d;
        self.n = n;
        self.intercept = intercept;
        self.pooled_sv = pool.vectors;
        self.pooled_dual = pool.duals;
        self.offsets = pool.offsets;
        self.support_sizes = pool.sizes;
        self.passes = passes;
    }

    /// The sizes of a decision on `n` rows.
    pub open spec fn decision_sizes(&self, n: usize) -> DecisionSizes {
        DecisionSizes {
            rows: n,
            outputs: self.k,
            features: self.d,
            support: self.pooled_sv@.len() as usize,
            duals: self.pooled_dual@.len() as usize,
            offsets: self.offsets@.len() as usize,
        }
    }

    /// The pass that makes a decision value for each of `n` rows and each class.
    pub fn decision_function(&self, ctx: &mut MetalContext, data: &[Float32], n: usize, d: usize) -> (r:
        Result<DecisionPass, SVCError>)
        requires
            self.wf(),
            decision_refusal(self.k, self.d, data@.len() as usize, n, d) is None
                ==> self.decision_sizes(n).fits(),
        ensures
            match decision_refusal(self.k, self.d, data@.len() as usize, n, d) {
                Some(e) => r == Err::<DecisionPass, SVCError>(e) && *final(ctx) == *old(ctx),
                None => r matches Ok(pass) && decides(
                    pass,
                    old(ctx)@,
                    final(ctx)@,
                    self.decision_sizes(n),
                    self.shape(self.gamma),
                ) && {
                    &&& pass.launch.arguments@.len() == 14
                    &&& pass.launch.arguments@[11] == Argument::Real(self.gamma)
                    &&& pass.launch.arguments@[12] == Argument::Real(self.config.degree)
                    &&& pass.launch.arguments@[13] == Argument::Real(self.config.coef0)
                },
            },
    {
        if self.k == 0 {
            return Err(SVCError::NotFitted);
        }
        if d != self.d {
            return Err(SVCError::Dimension);
        }
        if !is_matrix(data.len(), n, d) {
            return Err(SVCError::PredictionLength);
        }
        let sizes = DecisionSizes {
            rows: n,
            outputs: self.k,
            features: self.d,
            support: self.pooled_sv.len(),
            duals: self.pooled_dual.len(),
            offsets: self.offsets.len(),
        };
        let shape = KernelShape {
            kernel: self.config.kernel,
            gamma: self.gamma,
            degree: self.config.degree,
            coef0: self.config.coef0,
        };
        Ok(plan_decision(ctx, sizes, shape))
    }

    /// The label of each of `n` rows, given a decision value for each row and each class.
    pub fn predict(&self, decisions: &[Float32], n: usize) -> (r: Vec<Float32>)
        requires
            self.wf(),
            self.k > 0,
            decisions@.len() == n * self.k,
        ensures
            r@.len() == n,
            forall|i: int|
                0 <= i < n ==> decided(
                    self.classes@,
                    decisions@.subrange(i * self.k, i * self.k + self.k),
                    #[trigger] r@[i],
                ),
    {
        let k: usize = self.k;
        let len: usize = decisions.len();
        let mut r: Vec<Float32> = Vec::new();
        let mut i: usize = 0;
        while i < n
            invariant
                i <= n,
                k == self.k,
                k == self.classes@.len(),
                k > 0,
                len == decisions@.len(),
                len == n * k,
                r@.len() == i,
                forall|j: int|
                    0 <= j < i ==> decided(
                        self.classes@,
                        decisions@.subrange(j * k, j * k + k),
                        #[trigger] r@[j],
                    ),
            decreases n - i,
        {
            proof {
                assert(i * k + k <= n * k) by (nonlinear_arith)
                    requires
                        i + 1 <= n,
                ;
                assert(i * k >= 0) by (nonlinear_arith)
                    requires
                        i >= 0,
                        k >= 0,
                ;
            }
            let ghost row = decisions@.subrange(i * k, i * k + k);
            let label: Float32 = if k == 2 {
                assert(row[0] == decisions@[i * k]);
                if decisions[i * k].is_positive() {
                    self.classes[0]
                } else {
                    self.classes[1]
                }
            } else {
                let best: usize = leading_argmax(decisions, i * k, i * k + k);
                assert(leading_greatest(row, best as int));
                self.classes[best]
            };
            r.push(label);
            assert(decided(self.classes@, row, r@[i as int]));
            i += 1;
        }
        r
    }

    /// Whether `n` rows can be scored with that many labels.
    pub fn check_score(labels: usize, n: usize) -> (r: Result<(), SVCError>)
        ensures
            r == (if labels == n {
                Ok::<(), SVCError>(())
            } else {
                Err(SVCError::LabelLength)
            }),
    {
        if labels == n {
            Ok(())
        } else {
            Err(SVCError::LabelLength)
        }
    }

    /// How many predictions are right, given the gap of each to its label.
    pub fn score(gaps: &[Float32]) -> (r: usize)
        ensures
            r == near_count(gaps@, Float32 { bits: HALF }, gaps@.len() as int),
            r <= gaps@.len(),
    {
        count_near(gaps, Float32 { bits: HALF })
    }
}

/// The rows that support a class are those whose coefficient is large enough, each once and in
/// order.
pub proof fn lemma_supports(alpha: Seq<Float32>, i: int)
    requires
        0 <= i <= alpha.len() <= usize::MAX,
    ensures
        supports(alpha, i).len() <= i,
        forall|j: int|
            0 <= j < i ==> ((Float32 { bits: TINY }).lt(#[trigger] alpha[j]) <==> supports(
                alpha,
                i,
            ).contains(j as usize)),
        forall|a: int|
            0 <= a < supports(alpha, i).len() ==> (#[trigger] supports(alpha, i)[a]) < i
                && (Float32 { bits: TINY }).lt(alpha[supports(alpha, i)[a] as int]),
        forall|a: int, b: int|
            0 <= a < b < supports(alpha, i).len() ==> (#[trigger] supports(alpha, i)[a]) < (
            #[trigger] supports(alpha, i)[b]),
    decreases i,
{
    if i > 0 {
        lemma_supports(alpha, i - 1);
        let before = supports(alpha, i - 1);
        let after = supports(alpha, i);
        let kept = (Float32 { bits: TINY }).lt(alpha[i - 1]);
        assert forall|j: int| 0 <= j < i implies ((Float32 { bits: TINY }).lt(#[trigger] alpha[j])
            <==> after.contains(j as usize)) by {
            if kept {
                assert(after == before.push((i - 1) as usize));
                if j == i - 1 {
                    assert(after[before.len() as int] == j as usize);
                } else if before.contains(j as usize) {
                    let a = choose|a: int| 0 <= a < before.len() && before[a] == j as usize;
                    assert(after[a] == j as usize);
                } else if after.contains(j as usize) {
                    let a = choose|a: int| 0 <= a < after.len() && after[a] == j as usize;
                    assert(before[a] == j as usize);
                }
            } else if j == i - 1 && after.contains(j as usize) {
                let a = choose|a: int| 0 <= a < before.len() && before[a] == j as usize;
                assert(before[a] < i - 1);
            }
        }
    }
}

/// No signed coefficient of a support vector is zero.
pub proof fn lemma_duals_not_zero(alpha: Seq<Float32>, side: Seq<bool>, e: int)
    requires
        alpha.len() <= usize::MAX,
        side.len() == alpha.len(),
        0 <= e < supports(alpha, alpha.len() as int).len(),
    ensures
        (Float32 { bits: 0 }).lt(
            duals_of(alpha, side, supports(alpha, alpha.len() as int))[e].abs_value(),
        ),
{
    lemma_supports(alpha, alpha.len() as int);
}

/// The pool of a class begins where that of the class before ends, and holds as many vectors
/// as the class has.
pub proof fn lemma_offsets_part_the_pool(pool: Pool, data: Seq<Float32>, n: int, c: int)
    requires
        pool.wf(data, n),
        0 <= c < pool.sizes@.len(),
        pool.rows@.len() <= u32::MAX,
    ensures
        pool.offsets@[0] == 0,
        pool.offsets@[c + 1] == pool.offsets@[c] + pool.sizes@[c],
        pool.offsets@[pool.sizes@.len() as int] == pool.duals@.len(),
        pool.vectors@.len() == pool.duals@.len() * pool.d,
{
    let sizes = pool.sizes@;
    lemma_total_monotonic(sizes, 0, sizes.len() as int);
    lemma_total_monotonic(sizes, c, sizes.len() as int);
    lemma_total_monotonic(sizes, c + 1, sizes.len() as int);
    lemma_total_monotonic(sizes, 0, c);
    assert(pool.offsets@[0] == total(sizes, 0) as u32);
    assert(pool.offsets@[c] == total(sizes, c) as u32);
    assert(pool.offsets@[c + 1] == total(sizes, c + 1) as u32);
    assert(pool.offsets@[sizes.len() as int] == total(sizes, sizes.len() as int) as u32);
}

proof fn lemma_total_monotonic(sizes: Seq<usize>, a: int, b: int)
    requires
        0 <= a <= b <= sizes.len(),
    ensures
        total(sizes, a) <= total(sizes, b),
        0 <= total(sizes, a),
    decreases b,
{
    if a < b {
        lemma_total_monotonic(sizes, a, b - 1);
    } else if a > 0 {
        lemma_total_monotonic(sizes, a - 1, a - 1);
    }
}

/// A row of decision values gives one label.
pub proof fn lemma_decided_unique(
    classes: Seq<Float32>,
    row: Seq<Float32>,
    a: Float32,
    b: Float32,
)
    requires
        decided(classes, row, a),
        decided(classes, row, b),
    ensures
        a == b,
{
    if classes.len() != 2 {
        let x = choose|c: int| #[trigger] leading_greatest(row, c) && a == classes[c];
        let y = choose|c: int| #[trigger] leading_greatest(row, c) && b == classes[c];
        lemma_leading_unique(row, x, y);
    }
}

/// The least coefficient that supports, and the least step, is 1e-5; the narrowest interval is
/// 1e-12.
pub proof fn lemma_thresholds()
    ensures
        (Float32 { bits: TINY }).approximates(1, 100000),
        (Float32 { bits: NARROW }).approximates(1, 1000000000000),
{
    lemma2_to64();
    lemma2_to64_rest();
    assert(pow2(40) == 1099511627776);
    lemma_approximates(
        Float32 { bits: TINY },
        110,
        10995116,
        1,
        100000,
        1099511627776,
    );
    assert(pow2(63) == 9223372036854775808);
    lemma_approximates(
        Float32 { bits: NARROW },
        87,
        9223372,
        1,
        1000000000000,
        9223372036854775808,
    );
}

/// A fitted shape of the kernel is that of the configuration: whatever machine it is, the launch
/// of the kernel matrix binds the degree of the configuration at place 6 and its offset at
/// place 7, and has a thread for every pair of rows.
pub proof fn lemma_gram_binds_the_configuration(
    svc: SVC,
    pass: GramPass,
    before: Seq<u64>,
    after: Seq<u64>,
    n: usize,
    d: usize,
    gamma: Float32,
)
    requires
        evaluates_gram(pass, before, after, n, d, svc.shape(gamma)),
        before.len() + 2 <= usize::MAX,
        4 * (n * d) <= usize::MAX,
        4 * (n * n) <= usize::MAX,
    ensures
        pass.launch.kernel == Kernel::SvmKernel,
        pass.launch.arguments@.len() == 8,
        pass.launch.arguments@[0] == Argument::Memory(pass.data),
        pass.launch.arguments@[1] == Argument::Memory(pass.out),
        pass.launch.arguments@[2] == Argument::Word(n as u32),
        pass.launch.arguments@[3] == Argument::Word(d as u32),
        pass.launch.arguments@[4] == Argument::Word(
            match svc.config.kernel {
                SVCKernel::Linear => 0,
                SVCKernel::Poly => 1,
                SVCKernel::Rbf => 2,
                SVCKernel::Sigmoid => 3,
            },
        ),
        pass.launch.arguments@[5] == Argument::Real(gamma),
        pass.launch.arguments@[6] == Argument::Real(svc.config.degree),
        pass.launch.arguments@[7] == Argument::Real(svc.config.coef0),
        pass.launch.threadgroup_bytes == 0,
        pass.launch.groups.width * pass.launch.threads.width >= n,
        pass.launch.groups.height * pass.launch.threads.height >= n,
        pass.launch.threads.width == 16 && pass.launch.threads.height == 16,
        pass.data.id == before.len() && pass.data.byte_len == 4 * (n * d),
        pass.out.id == before.len() + 1 && pass.out.byte_len == 4 * (n * n),
{
    lemma_tiles_cover(n as int, n as int);
    assert(0 <= n * d && 0 <= n * n) by (nonlinear_arith)
        requires
            0 <= n,
            0 <= d,
    ;
}

/// The launch of a decision binds the degree of the configuration at place 12 and its offset at
/// place 13, next to the width that was fitted, and has a thread for every value.
pub proof fn lemma_decision_binds_the_configuration(
    svc: SVC,
    pass: DecisionPass,
    before: Seq<u64>,
    after: Seq<u64>,
    n: usize,
)
    requires
        decides(pass, before, after, svc.decision_sizes(n), svc.shape(svc.gamma)),
        svc.decision_sizes(n).fits(),
        before.len() + 6 <= usize::MAX,
    ensures
        pass.launch.kernel == Kernel::SvmPredict,
        pass.launch.arguments@.len() == 14,
        pass.launch.arguments@[0] == Argument::Memory(pass.x),
        pass.launch.arguments@[1] == Argument::Memory(pass.support),
        pass.launch.arguments@[2] == Argument::Memory(pass.dual),
        pass.launch.arguments@[3] == Argument::Memory(pass.bias),
        pass.launch.arguments@[4] == Argument::Memory(pass.offsets),
        pass.launch.arguments@[5] == Argument::Memory(pass.out),
        pass.launch.arguments@[6] == Argument::Word(n as u32),
        pass.launch.arguments@[7] == Argument::Word(svc.k as u32),
        pass.launch.arguments@[8] == Argument::Word(svc.pooled_dual.len() as u32),
        pass.launch.arguments@[9] == Argument::Word(svc.d as u32),
        pass.launch.arguments@[10] == Argument::Word(
            match svc.config.kernel {
                SVCKernel::Linear => 0,
                SVCKernel::Poly => 1,
                SVCKernel::Rbf => 2,
                SVCKernel::Sigmoid => 3,
            },
        ),
        pass.launch.arguments@[11] == Argument::Real(svc.gamma),
        pass.launch.arguments@[12] == Argument::Real(svc.config.degree),
        pass.launch.arguments@[13] == Argument::Real(svc.config.coef0),
        pass.launch.threadgroup_bytes == 0,
        pass.launch.groups.width * pass.launch.threads.width >= n * svc.k,
        pass.launch.threads.width == 256,
        pass.x.id == before.len() && pass.x.byte_len == 4 * (n * svc.d),
        pass.support.id == before.len() + 1 && pass.support.byte_len == 4 * svc.pooled_sv.len(),
        pass.dual.id == before.len() + 2 && pass.dual.byte_len == 4 * svc.pooled_dual.len(),
        pass.bias.id == before.len() + 3 && pass.bias.byte_len == 4 * svc.k,
        pass.offsets.id == before.len() + 4 && pass.offsets.byte_len == 4 * svc.offsets.len(),
        pass.out.id == before.len() + 5 && pass.out.byte_len == 4 * (n * svc.k),
{
    assert(0 <= n * svc.d && 0 <= n * svc.k) by (nonlinear_arith)
        requires
            0 <= n,
            0 <= svc.d,
            0 <= svc.k,
    ;
    lemma_line_covers(n * svc.k, 256);
    let buffers = seq![pass.x, pass.support, pass.dual, pass.bias, pass.offsets, pass.out];
    assert(buffers[0] == pass.x && buffers[1] == pass.support && buffers[2] == pass.dual);
    assert(buffers[3] == pass.bias && buffers[4] == pass.offsets && buffers[5] == pass.out);
}

/// A row is taken up exactly when it is off by more than the tolerance on a side on which its
/// coefficient can still give way.
pub proof fn lemma_violations(slack: Float32, alpha: Float32, c: Float32, tolerance: Float32)
    requires
        !slack.nan(),
        usable(tolerance),
    ensures
        violates(slack, alpha, c, tolerance) ==> tolerance.lt(slack.abs_value()),
        slack.negation().le(tolerance) && slack.le(tolerance) ==> !violates(
            slack,
            alpha,
            c,
            tolerance,
        ),
        tolerance.lt(slack) ==> (violates(slack, alpha, c, tolerance) <==> (Float32 {
            bits: 0,
        }).lt(alpha)),
        tolerance.lt(slack.negation()) ==> (violates(slack, alpha, c, tolerance) <==> alpha.lt(c)),
{
}

/// A number is positive and finite when it lies above zero and below infinity.
pub proof fn lemma_usable(value: Float32)
    ensures
        usable(value) <==> 0 < value.bits < 0x7f80_0000,
        explicit_gamma(value) == (if 0 < value.bits < 0x7f80_0000 {
            Some(value)
        } else {
            None::<Float32>
        }),
{
}

/// An interval is cut to lie between zero and the largest coefficient, and to no less.
pub proof fn lemma_interval(low: Float32, high: Float32, c: Float32, x: Float32)
    requires
        !low.nan(),
        !high.nan(),
        usable(c),
        !x.nan(),
    ensures
        interval(low, high, c).0.le(x) && x.le(interval(low, high, c).1) <==> (Float32 {
            bits: 0,
        }).le(x) && x.le(c) && low.le(x) && x.le(high),
{
}

/// The clipped value is the value where that lies in the interval, and else the end next to it.
pub proof fn lemma_clipped(value: Float32, low: Float32, high: Float32)
    requires
        !value.nan(),
        low.le(high),
    ensures
        low.lt(value) && value.lt(high) ==> clipped(value, low, high) == value,
        value.lt(low) ==> clipped(value, low, high) == low,
        high.lt(value) ==> clipped(value, low, high) == high,
        low.le(clipped(value, low, high)),
        clipped(value, low, high).le(high),
{
}

/// A coefficient counts as inside its bounds when it is above zero and below the largest.
pub proof fn lemma_interior(alpha: Float32, c: Float32)
    ensures
        interior(alpha, c) <==> (Float32 { bits: 0 }).lt(alpha) && alpha.lt(c),
{
}

/// Labels are one class when they differ by less than a half.
pub proof fn lemma_one_class(gap: Float32, half: Float32)
    requires
        half.bits == 0x3f00_0000,
    ensures
        one_class(gap) <==> gap.abs_value().lt(half),
        one_class(gap) <==> one_class(gap.negation()),
{
}

/// A partner is another row, unless there is none.
pub proof fn lemma_partner_is_another_row(before: u64, after: u64, n: usize, i: usize, j: usize)
    requires
        partner_drawn(before, after, n, i, j),
        i < n,
    ensures
        j < n,
        n > 1 ==> j != i,
        n == 1 ==> j == i && after == before,
{
}

/// A walk goes over the rows in order, and a pass ends after the last one. The next pass starts
/// with the first row and with nothing changed.
pub proof fn lemma_walk_goes_over_all_rows(cursor: Cursor)
    requires
        cursor.wf(),
        cursor.passes.goes_on(),
    ensures
        cursor.row + 1 < cursor.n ==> {
            &&& cursor.skipped().row == cursor.row + 1 && cursor.counted().row == cursor.row + 1
            &&& cursor.skipped().changed == cursor.changed
            &&& cursor.counted().changed == cursor.changed + 1
            &&& cursor.skipped().passes == cursor.passes
            &&& cursor.counted().passes == cursor.passes
        },
        cursor.row + 1 == cursor.n ==> {
            &&& cursor.skipped().row == 0 && cursor.counted().row == 0
            &&& cursor.skipped().changed == 0 && cursor.counted().changed == 0
            &&& cursor.skipped().passes.done == cursor.passes.done + 1
            &&& cursor.counted().passes.done == cursor.passes.done + 1
            &&& cursor.counted().passes.quiet == 0
            &&& cursor.changed > 0 ==> cursor.skipped().passes.quiet == 0
            &&& cursor.changed == 0 ==> cursor.skipped().passes.quiet == cursor.passes.quiet + 1
        },
        cursor.skipped().n == cursor.n && cursor.counted().n == cursor.n,
        cursor.skipped().passes.max_iter == cursor.passes.max_iter,
        cursor.passes.goes_on() <==> cursor.passes.done < cursor.passes.max_iter,
{
}

/// The rows that support a class are those whose coefficient is above 1e-5, and each goes into
/// the pool with its coefficient, of which the sign is turned where the row is not of the class.
pub proof fn lemma_signed_coefficients(
    alpha: Seq<Float32>,
    side: Seq<bool>,
    rows: Seq<usize>,
    e: int,
)
    requires
        0 <= e < rows.len(),
        rows[e] < alpha.len(),
        side.len() == alpha.len(),
    ensures
        duals_of(alpha, side, rows).len() == rows.len(),
        side[rows[e] as int] ==> duals_of(alpha, side, rows)[e] == alpha[rows[e] as int],
        !side[rows[e] as int] ==> duals_of(alpha, side, rows)[e]
            == alpha[rows[e] as int].negation(),
{
}

/// The label of a row: of two classes the first exactly where the first value is above zero; of
/// more, that of a value which none exceeds.
pub proof fn lemma_decided_label(classes: Seq<Float32>, row: Seq<Float32>, label: Float32)
    requires
        decided(classes, row, label),
        row.len() == classes.len(),
        row.len() > 0,
    ensures
        classes.len() == 2 && (Float32 { bits: 0 }).lt(row[0]) ==> label == classes[0],
        classes.len() == 2 && !(Float32 { bits: 0 }).lt(row[0]) ==> label == classes[1],
        classes.len() != 2 ==> exists|c: int|
            0 <= c < classes.len() && label == #[trigger] classes[c] && forall|j: int|
                0 <= j < row.len() ==> !row[c].lt(#[trigger] row[j]),
{
    if classes.len() != 2 {
        let c = choose|c: int| #[trigger] leading_greatest(row, c) && label == classes[c];
        assert(label == classes[c]);
        assert forall|j: int| 0 <= j < row.len() implies !row[c].lt(#[trigger] row[j]) by {}
    }
}

/// When a fit and a decision are taken, and why not.
pub proof fn lemma_refusals(
    config: SVCConfig,
    len: usize,
    labels: usize,
    n: usize,
    d: usize,
    k: usize,
    fitted_d: usize,
)
    ensures
        ({
            let r = fit_refusal(config, len, labels, n, d);
            &&& r is None <==> (n > 0 && d > 0) && (len == n * d) && (labels == n) && (0 < config.c.bits < 0x7f80_0000) && (0 < config.tolerance.bits < 0x7f80_0000) && (config.max_iter > 0)
            &&& !(n > 0 && d > 0) ==> r == Some(SVCError::Empty)
            &&& (n > 0 && d > 0) && !(len == n * d) ==> r == Some(SVCError::DataLength { n, d, got: len })
            &&& (n > 0 && d > 0) && (len == n * d) && !(labels == n) ==> r == Some(SVCError::LabelLength)
            &&& (n > 0 && d > 0) && (len == n * d) && (labels == n) && !(0 < config.c.bits < 0x7f80_0000) ==> r == Some(SVCError::C)
            &&& (n > 0 && d > 0) && (len == n * d) && (labels == n) && (0 < config.c.bits < 0x7f80_0000) && !(0 < config.tolerance.bits < 0x7f80_0000) ==> r == Some(SVCError::Tolerance)
            &&& (n > 0 && d > 0) && (len == n * d) && (labels == n) && (0 < config.c.bits < 0x7f80_0000) && (0 < config.tolerance.bits < 0x7f80_0000) && !(config.max_iter > 0) ==> r == Some(SVCError::MaxIter)
        }),
        ({
            let r = decision_refusal(k, fitted_d, len, n, d);
            &&& r is None <==> (k > 0) && (d == fitted_d) && (len == n * d)
            &&& !(k > 0) ==> r == Some(SVCError::NotFitted)
            &&& (k > 0) && !(d == fitted_d) ==> r == Some(SVCError::Dimension)
            &&& (k > 0) && (d == fitted_d) && !(len == n * d) ==> r == Some(SVCError::PredictionLength)
        }),
{
    lemma_usable(config.c);
    lemma_usable(config.tolerance);
}

} // verus!
