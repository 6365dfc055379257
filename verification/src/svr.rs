//! Support vector regression.
//!
//! The device evaluates the kernel between all rows and, for new rows, the outputs. The dual
//! coefficients, one for each row and zero in sum, are optimized pair by pair. Between which
//! bounds a pair moves, which of its candidates is taken, which rows support the regression
//! and which of them give the intercept is decided here.

use vstd::prelude::*;
use crate::float::{Float32, ONE};
use crate::matrix::{gather, pick_rows, zeros};
use crate::metal::{Kernel, MetalContext};
use crate::pipeline::PipelineCache;
use crate::rng::Rng;
use crate::select::leading_argmax;
use crate::shape::is_matrix;
use crate::svm::{
    clip, draw_partner, is_narrow, is_step, is_usable, pipelines, plan_decision, plan_gram, Cursor,
    DecisionPass, DecisionSizes, GramPass, KernelShape, SVCKernel, TINY,
};
#[allow(unused_imports)]
use crate::matrix::{gathered, rows_of};
#[allow(unused_imports)]
use crate::select::leading_greatest;
#[allow(unused_imports)]
use crate::metal::{lemma_line_covers, lemma_tiles_cover, Argument};
#[allow(unused_imports)]
use crate::svm::lemma_usable;
#[allow(unused_imports)]
use crate::svm::{
    clipped, decides, evaluates_gram, explicit_gamma, lemma_supports, partner_drawn, partner_missed,
    supports, usable, Passes, NARROW,
};

verus! {

#[derive(Clone, Copy, Debug, PartialEq, Eq, Structural)]
pub struct SVRConfig {
    pub kernel: SVCKernel,
    /// The width of the kernel; one over the number of features where it is not positive.
    pub gamma: Float32,
    pub degree: Float32,
    pub coef0: Float32,
    /// The largest magnitude of a coefficient.
    pub c: Float32,
    /// Residuals up to this cost nothing.
    pub eps: Float32,
    pub tolerance: Float32,
    /// How many passes over the rows there are at most.
    pub max_iter: usize,
    pub seed: u64,
}

impl Default for SVRConfig {
    /// A radial kernel of automatic width, degree 3, no offset, coefficients up to 1, a tube of
    /// 0.1, tolerance 1e-3, 200 passes, seed 42.
    fn default() -> (r: SVRConfig)
        ensures
            r == (SVRConfig {
                kernel: SVCKernel::Rbf,
                gamma: Float32 { bits: 0 },
                degree: Float32 { bits: 0x4040_0000 },
                coef0: Float32 { bits: 0 },
                c: Float32 { bits: 0x3f80_0000 },
                eps: Float32 { bits: 0x3dcc_cccd },
                tolerance: Float32 { bits: 0x3a83_126f },
                max_iter: 200,
                seed: 42,
            }),
    {
        SVRConfig {
            kernel: SVCKernel::Rbf,
            gamma: Float32 { bits: 0 },
            degree: Float32 { bits: 0x4040_0000 },
            coef0: Float32 { bits: 0 },
            c: Float32 { bits: 0x3f80_0000 },
            eps: Float32 { bits: 0x3dcc_cccd },
            tolerance: Float32 { bits: 0x3a83_126f },
            max_iter: 200,
            seed: 42,
        }
    }
}

/// Why a fit or a prediction was refused.
#[derive(Clone, Copy, Debug, PartialEq, Eq, Structural)]
pub enum SVRError {
    Empty,
    DataLength { n: usize, d: usize, got: usize },
    TargetLength,
    /// The largest coefficient is not positive and finite.
    C,
    /// The width of the tube is negative or not finite.
    Eps,
    /// The tolerance is not positive and finite.
    Tolerance,
    MaxIter,
    NotFitted,
    Dimension,
    PredictionLength,
}

/// Why a fit is refused, if it is.
pub open spec fn fit_refusal(
    config: SVRConfig,
    len: usize,
    targets: usize,
    n: usize,
    d: usize,
) -> Option<SVRError> {
    if n == 0 || d == 0 {
        Some(SVRError::Empty)
    } else if len != n * d {
        Some(SVRError::DataLength { n, d, got: len })
    } else if targets != n {
        Some(SVRError::TargetLength)
    } else if !usable(config.c) {
        Some(SVRError::C)
    } else if !((Float32 { bits: 0 }).le(config.eps) && config.eps.finite()) {
        Some(SVRError::Eps)
    } else if !usable(config.tolerance) {
        Some(SVRError::Tolerance)
    } else if config.max_iter == 0 {
        Some(SVRError::MaxIter)
    } else {
        None
    }
}

/// Why a prediction is refused, if it is.
pub open spec fn decision_refusal(
    fitted_n: usize,
    fitted_d: usize,
    len: usize,
    n: usize,
    d: usize,
) -> Option<SVRError> {
    if fitted_n == 0 {
        Some(SVRError::NotFitted)
    } else if d != fitted_d {
        Some(SVRError::Dimension)
    } else if len != n * d {
        Some(SVRError::PredictionLength)
    } else {
        None
    }
}

/// What a coefficient may become so that it and its partner stay within `c` of zero: at least
/// `low`, their sum less `c`, and at most `high`, their sum and `c`.
pub open spec fn interval(low: Float32, high: Float32, c: Float32) -> (Float32, Float32) {
    (c.negation().max_value(low), c.min_value(high))
}

/// What a coefficient may become so that it and its partner stay within `c` of zero: at least
/// `low`, their sum less `c`, and at most `high`, their sum and `c`.
pub fn clip_interval(low: Float32, high: Float32, c: Float32) -> (r: (Float32, Float32))
    ensures
        r == interval(low, high, c),
{
    (c.neg().larger(low), c.smaller(high))
}

/// Whether a pair is passed over: its interval of the width `width` has no room, or the
/// objective is too flat along it.
pub fn is_flat(width: Float32, eta: Float32) -> (r: bool)
    ensures
        r == (width.abs_value().lt(Float32 { bits: NARROW }) || eta.lt(Float32 { bits: TINY })),
{
    is_narrow(width) || eta.less(Float32 { bits: TINY })
}

/// Whether a candidate is passed over: it lies below `low_edge` or above `high_edge`, which
/// are a little outside of the interval.
pub fn is_outside(candidate: Float32, low_edge: Float32, high_edge: Float32) -> (r: bool)
    ensures
        r == (candidate.lt(low_edge) || high_edge.lt(candidate)),
{
    candidate.less(low_edge) || high_edge.less(candidate)
}

/// Which of the candidates is taken, by what each adds to the objective: the first of the
/// best. The present coefficient is the first candidate.
pub fn best_candidate(benefits: &[Float32]) -> (r: usize)
    requires
        benefits@.len() > 0,
    ensures
        leading_greatest(benefits@, r as int),
{
    let r: usize = leading_argmax(benefits, 0, benefits.len());
    assert(benefits@.subrange(0, benefits@.len() as int) =~= benefits@);
    r
}

/// What an optimization waits for.
pub enum Stage {
    /// A partner for the row under the cursor.
    Draw,
    /// Between what the row's coefficient keeps the pair within its bounds.
    Bounds { j: usize },
    /// How wide the interval from `low` to `high` is, and how the objective bends along it.
    Width { j: usize, low: Float32, high: Float32 },
    /// What the row's coefficient could become.
    Candidates { j: usize, low: Float32, high: Float32 },
    /// What each of the candidates adds to the objective. The first one is the present
    /// coefficient.
    Benefits { j: usize, candidates: Vec<Float32> },
    /// What follows from the coefficient `next`.
    Outcome { j: usize, next: Float32 },
}

/// The candidates among `raw` that do not lie outside of the edges, moved into the interval.
pub open spec fn admitted(
    raw: Seq<Float32>,
    low: Float32,
    high: Float32,
    low_edge: Float32,
    high_edge: Float32,
    i: int,
) -> Seq<Float32>
    decreases i,
{
    if i <= 0 {
        Seq::empty()
    } else {
        let before = admitted(raw, low, high, low_edge, high_edge, i - 1);
        if raw[i - 1].lt(low_edge) || high_edge.lt(raw[i - 1]) {
            before
        } else {
            before.push(clipped(raw[i - 1], low, high))
        }
    }
}

/// The optimization of the coefficients of all rows.
pub struct Smo {
    pub c: Float32,
    pub cursor: Cursor,
    pub rng: Rng,
    pub beta: Vec<Float32>,
    pub stage: Stage,
}

impl Smo {
    pub open spec fn wf(&self) -> bool {
        &&& self.cursor.wf()
        &&& self.beta@.len() == self.cursor.n
        &&& match self.stage {
            Stage::Draw => true,
            Stage::Bounds { j } => j < self.cursor.n,
            Stage::Width { j, low, high } => j < self.cursor.n,
            Stage::Candidates { j, low, high } => j < self.cursor.n,
            Stage::Benefits { j, candidates } => j < self.cursor.n && candidates@.len() > 0,
            Stage::Outcome { j, next } => j < self.cursor.n,
        }
    }

    /// What stays the same while a pair is looked at.
    pub open spec fn same_pair(&self, other: Smo) -> bool {
        &&& self.c == other.c
        &&& self.cursor == other.cursor
        &&& self.rng == other.rng
        &&& self.beta == other.beta
    }

    /// Whether the pair of `other` was passed over.
    pub open spec fn passed_over(&self, other: Smo) -> bool {
        &&& self.c == other.c
        &&& self.cursor == other.cursor.skipped()
        &&& self.rng == other.rng
        &&& self.beta == other.beta
        &&& self.stage == Stage::Draw
    }

    /// All coefficients zero.
    pub fn new(config: &SVRConfig, n: usize) -> (r: Smo)
        requires
            n > 0,
        ensures
            r.wf(),
            r.c == config.c,
            r.cursor == (Cursor {
                n,
                row: 0,
                changed: 0,
                passes: Passes { max_iter: config.max_iter, done: 0, quiet: 0 },
            }),
            r.rng.state == config.seed,
            r.beta@ == Seq::new(n as nat, |i: int| Float32 { bits: 0 }),
            r.stage == Stage::Draw,
    {
        let beta: Vec<Float32> = zeros(n);
        assert(beta@ =~= Seq::new(n as nat, |i: int| Float32 { bits: 0 }));
        Smo {
            c: config.c,
            cursor: Cursor::new(n, config.max_iter),
            rng: Rng::with_seed(config.seed),
            beta,
            stage: Stage::Draw,
        }
    }

    /// Whether the optimization goes on.
    pub fn next(&self) -> (r: bool)
        ensures
            r == self.cursor.passes.goes_on(),
    {
        self.cursor.passes.next()
    }

    /// Draws a partner for the row under the cursor. Where the generator kept drawing the row
    /// itself, the stage is the same as before, and the draw can go on.
    pub fn draw(&mut self)
        requires
            old(self).wf(),
            old(self).stage is Draw,
        ensures
            final(self).wf(),
            final(self).c == old(self).c,
            final(self).cursor == old(self).cursor,
            final(self).beta == old(self).beta,
            match final(self).stage {
                Stage::Bounds { j } => partner_drawn(
                    old(self).rng.state,
                    final(self).rng.state,
                    old(self).cursor.n,
                    old(self).cursor.row,
                    j,
                ),
                Stage::Draw => partner_missed(
                    old(self).rng.state,
                    final(self).rng.state,
                    old(self).cursor.n,
                    old(self).cursor.row,
                ),
                _ => false,
            },
    {
        if let Some(j) = draw_partner(&mut self.rng, self.cursor.n, self.cursor.row) {
            self.stage = Stage::Bounds { j };
        }
    }

    /// Takes in the pair's sum less the largest coefficient, and with it.
    pub fn bound(&mut self, low: Float32, high: Float32)
        requires
            old(self).wf(),
            old(self).stage is Bounds,
        ensures
            final(self).wf(),
            final(self).same_pair(*old(self)),
            final(self).stage == (Stage::Width {
                j: old(self).stage->Bounds_j,
                low: interval(low, high, old(self).c).0,
                high: interval(low, high, old(self).c).1,
            }),
    {
        if let Stage::Bounds { j } = self.stage {
            let (l, h) = clip_interval(low, high, self.c);
            self.stage = Stage::Width { j, low: l, high: h };
        }
    }

    /// Takes in how wide the interval is and how the objective bends along it. A pair without
    /// room or without a bend is passed over.
    pub fn measure(&mut self, width: Float32, eta: Float32)
        requires
            old(self).wf(),
            old(self).cursor.passes.goes_on(),
            old(self).stage is Width,
        ensures
            final(self).wf(),
            if width.abs_value().lt(Float32 { bits: NARROW }) || eta.lt(Float32 { bits: TINY }) {
                final(self).passed_over(*old(self))
            } else {
                final(self).same_pair(*old(self)) && final(self).stage == (Stage::Candidates {
                    j: old(self).stage->Width_j,
                    low: old(self).stage->Width_low,
                    high: old(self).stage->Width_high,
                })
            },
    {
        if let Stage::Width { j, low, high } = self.stage {
            if is_flat(width, eta) {
                self.stage = Stage::Draw;
                self.cursor.skip();
            } else {
                self.stage = Stage::Candidates { j, low, high };
            }
        }
    }

    /// Takes in what the row's coefficient could become, and the edges a little outside of the
    /// interval.
    pub fn propose(&mut self, raw: &[Float32], low_edge: Float32, high_edge: Float32)
        requires
            old(self).wf(),
            old(self).stage is Candidates,
        ensures
            final(self).wf(),
            final(self).same_pair(*old(self)),
            final(self).stage matches Stage::Benefits { j, candidates } && {
                &&& j == old(self).stage->Candidates_j
                &&& candidates@ == seq![old(self).beta@[old(self).cursor.row as int]] + admitted(
                    raw@,
                    old(self).stage->Candidates_low,
                    old(self).stage->Candidates_high,
                    low_edge,
                    high_edge,
                    raw@.len() as int,
                )
            },
    {
        if let Stage::Candidates { j, low, high } = self.stage {
            let present: Float32 = self.beta[self.cursor.row];
            let mut candidates: Vec<Float32> = vec![present];
            let mut i: usize = 0;
            assert(candidates@ =~= seq![present] + admitted(raw@, low, high, low_edge, high_edge, 0));
            while i < raw.len()
                invariant
                    i <= raw@.len(),
                    candidates@ == seq![present] + admitted(
                        raw@,
                        low,
                        high,
                        low_edge,
                        high_edge,
                        i as int,
                    ),
                decreases raw@.len() - i,
            {
                let ghost before = candidates@;
                if !is_outside(raw[i], low_edge, high_edge) {
                    candidates.push(clip(raw[i], low, high));
                }
                i += 1;
                assert(candidates@ =~= seq![present] + admitted(
                    raw@,
                    low,
                    high,
                    low_edge,
                    high_edge,
                    i as int,
                ));
            }
            self.stage = Stage::Benefits { j, candidates };
        }
    }

    /// The candidates whose benefits are waited for.
    pub fn candidates(&self) -> (r: &[Float32])
        requires
            self.stage is Benefits,
        ensures
            r@ == self.stage->Benefits_candidates@,
    {
        match &self.stage {
            Stage::Benefits { j, candidates } => candidates.as_slice(),
            _ => self.beta.as_slice(),
        }
    }

    /// Takes in what each of the candidates adds to the objective: the first of the best is
    /// taken.
    pub fn choose_best(&mut self, benefits: &[Float32])
        requires
            old(self).wf(),
            old(self).stage is Benefits,
            benefits@.len() == old(self).stage->Benefits_candidates@.len(),
        ensures
            final(self).wf(),
            final(self).same_pair(*old(self)),
            final(self).stage matches Stage::Outcome { j, next } && {
                &&& j == old(self).stage->Benefits_j
                &&& exists|e: int| #[trigger]
                    leading_greatest(benefits@, e) && next == old(
                        self,
                    ).stage->Benefits_candidates@[e]
            },
    {
        let best: usize = best_candidate(benefits);
        let (j, next): (usize, Float32) = match &self.stage {
            Stage::Benefits { j, candidates } => (*j, candidates[best]),
            _ => (0, Float32::zero()),
        };
        self.stage = Stage::Outcome { j, next };
        assert(leading_greatest(benefits@, best as int));
    }

    /// Takes in by how much the row's coefficient changes and what the partner's becomes. A
    /// change that is too small is passed over.
    pub fn settle(&mut self, change: Float32, partner: Float32) -> (r: bool)
        requires
            old(self).wf(),
            old(self).cursor.passes.goes_on(),
            old(self).stage is Outcome,
        ensures
            final(self).wf(),
            r == !change.abs_value().lt(Float32 { bits: TINY }),
            !r ==> final(self).passed_over(*old(self)),
            r ==> {
                let i = old(self).cursor.row as int;
                let j = old(self).stage->Outcome_j as int;
                &&& final(self).c == old(self).c
                &&& final(self).cursor == old(self).cursor.counted()
                &&& final(self).rng == old(self).rng
                &&& final(self).beta@ == old(self).beta@.update(
                    i,
                    old(self).stage->Outcome_next,
                ).update(j, partner)
                &&& final(self).stage == Stage::Draw
            },
    {
        if let Stage::Outcome { j, next } = self.stage {
            self.stage = Stage::Draw;
            if is_step(change) {
                let i: usize = self.cursor.row;
                self.beta.set(i, next);
                self.beta.set(j, partner);
                self.cursor.count();
                return true;
            }
        }
        self.cursor.skip();
        false
    }
}

/// A candidate that is admitted lies in the interval, where that is not empty.
pub proof fn lemma_admitted_in_interval(
    raw: Seq<Float32>,
    low: Float32,
    high: Float32,
    low_edge: Float32,
    high_edge: Float32,
    i: int,
)
    requires
        low.le(high),
        0 <= i <= raw.len(),
    ensures
        forall|e: int|
            0 <= e < admitted(raw, low, high, low_edge, high_edge, i).len() ==> {
                &&& low.le(#[trigger] admitted(raw, low, high, low_edge, high_edge, i)[e])
                &&& admitted(raw, low, high, low_edge, high_edge, i)[e].le(high)
            },
    decreases i,
{
    if i > 0 {
        lemma_admitted_in_interval(raw, low, high, low_edge, high_edge, i - 1);
        let before = admitted(raw, low, high, low_edge, high_edge, i - 1);
        let after = admitted(raw, low, high, low_edge, high_edge, i);
        assert forall|e: int| 0 <= e < after.len() implies low.le(#[trigger] after[e])
            && after[e].le(high) by {
            if e < before.len() {
                assert(after[e] == before[e]);
            } else {
                assert(after[e] == clipped(raw[i - 1], low, high));
            }
        }
    }
}

/// A move never makes the objective worse than it is at the present coefficient.
pub proof fn lemma_move_does_not_hurt(benefits: Seq<Float32>, r: int)
    requires
        leading_greatest(benefits, r),
        !benefits[0].nan(),
    ensures
        benefits[0].le(benefits[r]),
{
    assert(!benefits[r].lt(benefits[0]));
}

/// A coefficient that a move sets stays within the largest magnitude, where its interval is not
/// empty.
pub proof fn lemma_coefficient_in_box(value: Float32, low: Float32, high: Float32, c: Float32)
    requires
        usable(c),
        interval(low, high, c).0.le(interval(low, high, c).1),
    ensures
        ({
            let (l, h) = interval(low, high, c);
            let r = clipped(value, l, h);
            &&& l.le(r)
            &&& r.le(h)
            &&& c.negation().le(r)
            &&& r.le(c)
        }),
{
}

/// The magnitudes of numbers.
pub open spec fn magnitudes(values: Seq<Float32>) -> Seq<Float32> {
    values.map_values(|value: Float32| value.abs_value())
}

/// The places of the coefficients that support but are smaller than `limit`, among the first
/// `i`.
pub open spec fn free_supports(beta: Seq<Float32>, limit: Float32, i: int) -> Seq<usize>
    decreases i,
{
    if i <= 0 {
        Seq::empty()
    } else if (Float32 { bits: TINY }).lt(beta[i - 1].abs_value()) && beta[i - 1].abs_value().lt(
        limit,
    ) {
        free_supports(beta, limit, i - 1).push((i - 1) as usize)
    } else {
        free_supports(beta, limit, i - 1)
    }
}

/// The rows that support the regression: those whose coefficient is large enough in magnitude.
pub fn support_rows(beta: &[Float32]) -> (r: Vec<usize>)
    ensures
        r@ == supports(magnitudes(beta@), beta@.len() as int),
        forall|j: int| 0 <= j < r@.len() ==> #[trigger] r@[j] < beta@.len(),
        r@.len() <= beta@.len(),
{
    let mut r: Vec<usize> = Vec::new();
    let mut i: usize = 0;
    while i < beta.len()
        invariant
            i <= beta@.len(),
            r@ == supports(magnitudes(beta@), i as int),
            forall|j: int| 0 <= j < r@.len() ==> #[trigger] r@[j] < i,
            r@.len() <= i,
        decreases beta@.len() - i,
    {
        if (Float32 { bits: TINY }).less(beta[i].abs()) {
            r.push(i);
        }
        i += 1;
    }
    r
}

/// The rows that give the intercept: the supporting ones whose coefficient is below `limit` in
/// magnitude, or all supporting ones where there is none such.
pub fn intercept_rows(beta: &[Float32], limit: Float32) -> (r: Vec<usize>)
    ensures
        ({
            let free = free_supports(beta@, limit, beta@.len() as int);
            r@ == (if free.len() > 0 {
                free
            } else {
                supports(magnitudes(beta@), beta@.len() as int)
            })
        }),
        forall|j: int| 0 <= j < r@.len() ==> #[trigger] r@[j] < beta@.len(),
{
    let mut free: Vec<usize> = Vec::new();
    let mut i: usize = 0;
    while i < beta.len()
        invariant
            i <= beta@.len(),
            free@ == free_supports(beta@, limit, i as int),
            forall|j: int| 0 <= j < free@.len() ==> #[trigger] free@[j] < i,
        decreases beta@.len() - i,
    {
        let magnitude: Float32 = beta[i].abs();
        if (Float32 { bits: TINY }).less(magnitude) && magnitude.less(limit) {
            free.push(i);
        }
        i += 1;
    }
    if free.len() > 0 {
        free
    } else {
        support_rows(beta)
    }
}

pub struct SVR {
    pub config: SVRConfig,
    /// The width of the kernel, once it is known.
    pub gamma: Float32,
    pub d: usize,
    pub n: usize,
    /// The coefficient of every row.
    pub beta: Vec<Float32>,
    /// The rows that support the regression.
    pub sv_idx: Vec<usize>,
    pub intercept: Float32,
    /// Those rows, one after the other.
    pub pooled_sv: Vec<Float32>,
    /// Their coefficients.
    pub pooled_beta: Vec<Float32>,
    /// Where they begin and end.
    pub offsets: Vec<u32>,
    pub passes: usize,
    /// The pipelines compiled so far.
    pub pipelines: PipelineCache,
}

/// The coefficient of determination, `value` where the targets vary: not below zero. Where they
/// do not, it is 1 if there is no residual, else 0.
pub open spec fn determination(ss_res: Float32, ss_tot: Float32, value: Float32) -> Float32 {
    if ss_tot.numerically_equal(Float32 { bits: 0 }) {
        if ss_res.numerically_equal(Float32 { bits: 0 }) {
            Float32 { bits: ONE }
        } else {
            Float32 { bits: 0 }
        }
    } else {
        value.max_value(Float32 { bits: 0 })
    }
}

impl SVR {
    /// Whether the parts of a fitted regression belong together.
    pub open spec fn wf(&self) -> bool {
        self.n > 0 ==> {
            &&& self.sv_idx@ == supports(magnitudes(self.beta@), self.beta@.len() as int)
            &&& self.pooled_beta@ == gathered(self.beta@, self.sv_idx@)
            &&& self.pooled_sv@.len() == self.pooled_beta@.len() * self.d
            &&& self.offsets@ == seq![0u32, self.pooled_beta@.len() as u32]
        }
    }

    pub fn new(config: SVRConfig) -> (r: SVR)
        ensures
            r.wf(),
            r.config == config,
            r.gamma == (Float32 { bits: 0 }),
            r.d == 0,
            r.n == 0,
            r.beta@.len() == 0,
            r.sv_idx@.len() == 0,
            r.intercept == (Float32 { bits: 0 }),
            r.pooled_sv@.len() == 0,
            r.pooled_beta@.len() == 0,
            r.offsets@.len() == 0,
            r.passes == 0,
            r.pipelines.wf(),
            r.pipelines.entry(Kernel::SvmKernel) == Some(None::<usize>),
            r.pipelines.entry(Kernel::SvmPredict) == Some(None::<usize>),
    {
        SVR {
            config,
            gamma: Float32::zero(),
            d: 0,
            n: 0,
            beta: Vec::new(),
            sv_idx: Vec::new(),
            intercept: Float32::zero(),
            pooled_sv: Vec::new(),
            pooled_beta: Vec::new(),
            offsets: Vec::new(),
            passes: 0,
            pipelines: pipelines(),
        }
    }

    pub fn n_features(&self) -> (r: usize)
        ensures
            r == self.d,
    {
        self.d
    }

    pub fn n_samples(&self) -> (r: usize)
        ensures
            r == self.n,
    {
        self.n
    }

    pub fn gamma(&self) -> (r: Float32)
        ensures
            r == self.gamma,
    {
        self.gamma
    }

    pub fn intercept(&self) -> (r: Float32)
        ensures
            r == self.intercept,
    {
        self.intercept
    }

    pub fn n_iter(&self) -> (r: usize)
        ensures
            r == self.passes,
    {
        self.passes
    }

    /// How many rows support the regression.
    pub fn support_count(&self) -> (r: usize)
        ensures
            r == self.pooled_beta@.len(),
    {
        self.pooled_beta.len()
    }

    pub fn support_vectors(&self) -> (r: &[Float32])
        ensures
            r@ == self.pooled_sv@,
    {
        self.pooled_sv.as_slice()
    }

    pub fn dual_coef(&self) -> (r: &[Float32])
        ensures
            r@ == self.pooled_beta@,
    {
        self.pooled_beta.as_slice()
    }

    /// The kernel between rows, at the width `gamma`.
    pub open spec fn shape(&self, gamma: Float32) -> KernelShape {
        KernelShape {
            kernel: self.config.kernel,
            gamma,
            degree: self.config.degree,
            coef0: self.config.coef0,
        }
    }

    /// Starts a fit on `n` rows of `d` columns with a target each: the width of the kernel where
    /// the configuration sets it, `None` where it is one over the number of features.
    pub fn fit(&self, data: &[Float32], targets: &[Float32], n: usize, d: usize) -> (r: Result<
        Option<Float32>,
        SVRError,
    >)
        ensures
            r == (match fit_refusal(
                self.config,
                data@.len() as usize,
                targets@.len() as usize,
                n,
                d,
            ) {
                Some(e) => Err::<Option<Float32>, SVRError>(e),
                None => Ok(explicit_gamma(self.config.gamma)),
            }),
    {
        let len: usize = data.len();
        let given: usize = targets.len();
        if n == 0 || d == 0 {
            return Err(SVRError::Empty);
        }
        if !is_matrix(len, n, d) {
            return Err(SVRError::DataLength { n, d, got: len });
        }
        if given != n {
            return Err(SVRError::TargetLength);
        }
        if !is_usable(self.config.c) {
            return Err(SVRError::C);
        }
        if !(Float32::zero().at_most(self.config.eps) && self.config.eps.is_finite()) {
            return Err(SVRError::Eps);
        }
        if !is_usable(self.config.tolerance) {
            return Err(SVRError::Tolerance);
        }
        if self.config.max_iter == 0 {
            return Err(SVRError::MaxIter);
        }
        if is_usable(self.config.gamma) {
            Ok(Some(self.config.gamma))
        } else {
            Ok(None)
        }
    }

    /// The pass that evaluates the kernel between all rows.
    pub fn gram(&self, ctx: &mut MetalContext, gamma: Float32, n: usize, d: usize) -> (r: GramPass)
        requires
            4 * (n * d) <= usize::MAX,
            4 * (n * n) <= usize::MAX,
            n + 15 <= usize::MAX,
        ensures
            evaluates_gram(r, old(ctx)@, final(ctx)@, n, d, self.shape(gamma)),
            r.launch.arguments@.len() == 8,
            r.launch.arguments@[5] == Argument::Real(gamma),
            r.launch.arguments@[6] == Argument::Real(self.config.degree),
            r.launch.arguments@[7] == Argument::Real(self.config.coef0),
    {
        let shape = KernelShape {
            kernel: self.config.kernel,
            gamma,
            degree: self.config.degree,
            coef0: self.config.coef0,
        };
        plan_gram(ctx, n, d, shape)
    }

    /// Ends a fit with the coefficients that were found.
    pub fn finish(
        &mut self,
        data: &[Float32],
        n: usize,
        d: usize,
        gamma: Float32,
        beta: Vec<Float32>,
        intercept: Float32,
        passes: usize,
    )
        requires
            data@.len() == n * d,
            beta@.len() == n,
        ensures
            final(self).wf(),
            final(self).config == old(self).config,
            final(self).pipelines == old(self).pipelines,
            final(self).gamma == gamma,
            final(self).d == d,
            final(self).n == n,
            final(self).beta == beta,
            final(self).sv_idx@ == supports(magnitudes(beta@), n as int),
            final(self).intercept == intercept,
            final(self).pooled_sv@ == rows_of(data@, d as int, final(self).sv_idx@),
            final(self).pooled_beta@ == gathered(beta@, final(self).sv_idx@),
            final(self).offsets@ == seq![0u32, final(self).pooled_beta@.len() as u32],
            final(self).passes == passes,
    {
        let rows: Vec<usize> = support_rows(beta.as_slice());
        self.pooled_sv = pick_rows(data, n, d, rows.as_slice());
        self.pooled_beta = gather(beta.as_slice(), rows.as_slice());
        let count: usize = self.pooled_beta.len();
        self.offsets = vec![0, #[verifier::truncate] (count as u32)];
        self.sv_idx = rows;
        self.gamma = gamma;
        self.d = d;
        self.n = n;
        self.beta = beta;
        self.intercept = intercept;
        self.passes = passes;
        assert(self.offsets@ =~= seq![0u32, self.pooled_beta@.len() as u32]);
    }

    /// The sizes of a prediction on `n` rows.
    pub open spec fn decision_sizes(&self, n: usize) -> DecisionSizes {
        DecisionSizes {
            rows: n,
            outputs: 1,
            features: self.d,
            support: self.pooled_sv@.len() as usize,
            duals: self.pooled_beta@.len() as usize,
            offsets: self.offsets@.len() as usize,
        }
    }

    /// The pass that makes an output for each of `n` rows.
    pub fn decision_function(&self, ctx: &mut MetalContext, data: &[Float32], n: usize, d: usize) -> (r:
        Result<DecisionPass, SVRError>)
        requires
            self.wf(),
            decision_refusal(self.n, self.d, data@.len() as usize, n, d) is None
                ==> self.decision_sizes(n).fits(),
        ensures
            match decision_refusal(self.n, self.d, data@.len() as usize, n, d) {
                Some(e) => r == Err::<DecisionPass, SVRError>(e) && *final(ctx) == *old(ctx),
                None => r matches Ok(pass) && decides(
                    pass,
                    old(ctx)@,
                    final(ctx)@,
                    self.decision_sizes(n),
                    self.shape(self.gamma),
                ),
            },
    {
        if self.n == 0 {
            return Err(SVRError::NotFitted);
        }
        if d != self.d {
            return Err(SVRError::Dimension);
        }
        if !is_matrix(data.len(), n, d) {
            return Err(SVRError::PredictionLength);
        }
        let sizes = DecisionSizes {
            rows: n,
            outputs: 1,
            features: self.d,
            support: self.pooled_sv.len(),
            duals: self.pooled_beta.len(),
            offsets: self.offsets.len(),
        };
        let shape = KernelShape {
            kernel: self.config.kernel,
            gamma: self.gamma,
            degree: self.config.degree,
            coef0: self.config.coef0,
        };
        Ok(plan_decision(ctx, sizes, shape))
    }

    /// The pass that makes a prediction for each of `n` rows, which is its output.
    pub fn predict(&self, ctx: &mut MetalContext, data: &[Float32], n: usize, d: usize) -> (r:
        Result<DecisionPass, SVRError>)
        requires
            self.wf(),
            decision_refusal(self.n, self.d, data@.len() as usize, n, d) is None
                ==> self.decision_sizes(n).fits(),
        ensures
            match decision_refusal(self.n, self.d, data@.len() as usize, n, d) {
                Some(e) => r == Err::<DecisionPass, SVRError>(e) && *final(ctx) == *old(ctx),
                None => r matches Ok(pass) && decides(
                    pass,
                    old(ctx)@,
                    final(ctx)@,
                    self.decision_sizes(n),
                    self.shape(self.gamma),
                ),
            },
    {
        self.decision_function(ctx, data, n, d)
    }

    /// Whether `n` rows can be scored with that many targets.
    pub fn check_score(targets: usize, n: usize) -> (r: Result<(), SVRError>)
        ensures
            r == (if targets == n {
                Ok::<(), SVRError>(())
            } else {
                Err(SVRError::TargetLength)
            }),
    {
        if targets == n {
            Ok(())
        } else {
            Err(SVRError::TargetLength)
        }
    }

    /// The coefficient of determination of predictions with the residual sum of squares `ss_res`
    /// for targets with the total sum of squares `ss_tot`; `value` is one less their quotient.
    pub fn score(ss_res: Float32, ss_tot: Float32, value: Float32) -> (r: Float32)
        ensures
            r == determination(ss_res, ss_tot, value),
    {
        if ss_tot.equals(Float32::zero()) {
            if ss_res.equals(Float32::zero()) {
                Float32 { bits: ONE }
            } else {
                Float32::zero()
            }
        } else {
            value.larger(Float32::zero())
        }
    }
}

/// A score is never negative and always a number.
pub proof fn lemma_score_not_negative(ss_res: Float32, ss_tot: Float32, value: Float32)
    ensures
        (Float32 { bits: 0 }).le(determination(ss_res, ss_tot, value)),
{
}

/// The supporting rows are those whose coefficient is large enough in magnitude.
pub proof fn lemma_support_rows(beta: Seq<Float32>, i: int)
    requires
        0 <= i < beta.len() <= usize::MAX,
    ensures
        supports(magnitudes(beta), beta.len() as int).contains(i as usize) <==> (Float32 {
            bits: TINY,
        }).lt(beta[i].abs_value()),
        supports(magnitudes(beta), beta.len() as int).len() <= beta.len(),
{
    lemma_supports(magnitudes(beta), beta.len() as int);
    assert(magnitudes(beta)[i] == beta[i].abs_value());
}

/// A fitted shape of the kernel is that of the configuration: whatever machine it is, the launch
/// of the kernel matrix binds the degree of the configuration at place 6 and its offset at
/// place 7, and has a thread for every pair of rows.
pub proof fn lemma_gram_binds_the_configuration(
    svr: SVR,
    pass: GramPass,
    before: Seq<u64>,
    after: Seq<u64>,
    n: usize,
    d: usize,
    gamma: Float32,
)
    requires
        evaluates_gram(pass, before, after, n, d, svr.shape(gamma)),
        before.len() + 2 <= usize::MAX,
        4 * (n * d) <= usize::MAX,
        4 * (n * n) <= usize::MAX,
    ensures
        pass.launch.kernel == Kernel::SvmKernel,
        pass.launch.arguments@.len() == 8,
        pass.launch.arguments@[0] == Argument::Memory(pass.data),
        pass.launch.arguments@[1] == Argument::Memory(pass.out),
        pass.launch.arguments@[2] == Argument::Word(n as u32),
        pass.launch.arguments@[3] == Argument::Word(d as u32),
        pass.launch.arguments@[4] == Argument::Word(
            match svr.config.kernel {
                SVCKernel::Linear => 0,
                SVCKernel::Poly => 1,
                SVCKernel::Rbf => 2,
                SVCKernel::Sigmoid => 3,
            },
        ),
        pass.launch.arguments@[5] == Argument::Real(gamma),
        pass.launch.arguments@[6] == Argument::Real(svr.config.degree),
        pass.launch.arguments@[7] == Argument::Real(svr.config.coef0),
        pass.launch.threadgroup_bytes == 0,
        pass.launch.groups.width * pass.launch.threads.width >= n,
        pass.launch.groups.height * pass.launch.threads.height >= n,
        pass.launch.threads.width == 16 && pass.launch.threads.height == 16,
        pass.data.id == before.len() && pass.data.byte_len == 4 * (n * d),
        pass.out.id == before.len() + 1 && pass.out.byte_len == 4 * (n * n),
{
    lemma_tiles_cover(n as int, n as int);
    assert(0 <= n * d && 0 <= n * n) by (nonlinear_arith)
        requires
            0 <= n,
            0 <= d,
    ;
}

/// The launch of a decision binds the degree of the configuration at place 12 and its offset at
/// place 13, next to the width that was fitted, and has a thread for every value.
pub proof fn lemma_decision_binds_the_configuration(
    svr: SVR,
    pass: DecisionPass,
    before: Seq<u64>,
    after: Seq<u64>,
    n: usize,
)
    requires
        decides(pass, before, after, svr.decision_sizes(n), svr.shape(svr.gamma)),
        svr.decision_sizes(n).fits(),
        before.len() + 6 <= usize::MAX,
    ensures
        pass.launch.kernel == Kernel::SvmPredict,
        pass.launch.arguments@.len() == 14,
        pass.launch.arguments@[0] == Argument::Memory(pass.x),
        pass.launch.arguments@[1] == Argument::Memory(pass.support),
        pass.launch.arguments@[2] == Argument::Memory(pass.dual),
        pass.launch.arguments@[3] == Argument::Memory(pass.bias),
        pass.launch.arguments@[4] == Argument::Memory(pass.offsets),
        pass.launch.arguments@[5] == Argument::Memory(pass.out),
        pass.launch.arguments@[6] == Argument::Word(n as u32),
        pass.launch.arguments@[7] == Argument::Word(1),
        pass.launch.arguments@[8] == Argument::Word(svr.pooled_beta.len() as u32),
        pass.launch.arguments@[9] == Argument::Word(svr.d as u32),
        pass.launch.arguments@[10] == Argument::Word(
            match svr.config.kernel {
                SVCKernel::Linear => 0,
                SVCKernel::Poly => 1,
                SVCKernel::Rbf => 2,
                SVCKernel::Sigmoid => 3,
            },
        ),
        pass.launch.arguments@[11] == Argument::Real(svr.gamma),
        pass.launch.arguments@[12] == Argument::Real(svr.config.degree),
        pass.launch.arguments@[13] == Argument::Real(svr.config.coef0),
        pass.launch.threadgroup_bytes == 0,
        pass.launch.groups.width * pass.launch.threads.width >= n,
        pass.launch.threads.width == 256,
        pass.x.id == before.len() && pass.x.byte_len == 4 * (n * svr.d),
        pass.support.id == before.len() + 1 && pass.support.byte_len == 4 * svr.pooled_sv.len(),
        pass.dual.id == before.len() + 2 && pass.dual.byte_len == 4 * svr.pooled_beta.len(),
        pass.bias.id == before.len() + 3 && pass.bias.byte_len == 4,
        pass.offsets.id == before.len() + 4 && pass.offsets.byte_len == 4 * svr.offsets.len(),
        pass.out.id == before.len() + 5 && pass.out.byte_len == 4 * n,
{
    assert(0 <= n * svr.d) by (nonlinear_arith)
        requires
            0 <= n,
            0 <= svr.d,
    ;
    assert(n * 1usize == n);
    lemma_line_covers(n as int, 256);
    let buffers = seq![pass.x, pass.support, pass.dual, pass.bias, pass.offsets, pass.out];
    assert(buffers[0] == pass.x && buffers[1] == pass.support && buffers[2] == pass.dual);
    assert(buffers[3] == pass.bias && buffers[4] == pass.offsets && buffers[5] == pass.out);
}


/// An interval is cut to lie within `c` of zero, and to no less.
pub proof fn lemma_interval(low: Float32, high: Float32, c: Float32, x: Float32)
    requires
        !low.nan(),
        !high.nan(),
        usable(c),
        !x.nan(),
    ensures
        interval(low, high, c).0.le(x) && x.le(interval(low, high, c).1) <==> c.negation().le(x)
            && x.le(c) && low.le(x) && x.le(high),
{
}

/// A candidate between the edges is admitted, moved into the interval, and no other is.
pub proof fn lemma_admitted_candidates(
    raw: Seq<Float32>,
    low: Float32,
    high: Float32,
    low_edge: Float32,
    high_edge: Float32,
    i: int,
)
    requires
        0 < i <= raw.len(),
    ensures
        ({
            let before = admitted(raw, low, high, low_edge, high_edge, i - 1);
            let after = admitted(raw, low, high, low_edge, high_edge, i);
            &&& raw[i - 1].lt(low_edge) ==> after == before
            &&& high_edge.lt(raw[i - 1]) ==> after == before
            &&& !raw[i - 1].lt(low_edge) && !high_edge.lt(raw[i - 1]) ==> after == before.push(
                clipped(raw[i - 1], low, high),
            )
        }),
        admitted(raw, low, high, low_edge, high_edge, 0).len() == 0,
{
}

/// The rows that the intercept is taken from, where there are any, are those whose coefficient is
/// above 1e-5 and below the limit in magnitude.
pub proof fn lemma_free_supports(beta: Seq<Float32>, limit: Float32, i: int, row: int)
    requires
        0 <= row < i <= beta.len() <= usize::MAX,
    ensures
        free_supports(beta, limit, i).contains(row as usize) <==> (Float32 { bits: TINY }).lt(
            beta[row].abs_value(),
        ) && beta[row].abs_value().lt(limit),
        forall|a: int|
            0 <= a < free_supports(beta, limit, i).len() ==> (#[trigger] free_supports(
                beta,
                limit,
                i,
            )[a]) < i,
    decreases i,
{
    let after = free_supports(beta, limit, i);
    let before = free_supports(beta, limit, i - 1);
    let free = (Float32 { bits: TINY }).lt(beta[i - 1].abs_value()) && beta[i
        - 1].abs_value().lt(limit);
    if i > 1 {
        lemma_free_supports(
            beta,
            limit,
            i - 1,
            if row < i - 1 {
                row
            } else {
                0
            },
        );
    } else {
        assert(before.len() == 0);
    }
    if free {
        assert(after == before.push((i - 1) as usize));
        assert(after[before.len() as int] == (i - 1) as usize);
        if row < i - 1 && before.contains(row as usize) {
            let a = choose|a: int| 0 <= a < before.len() && before[a] == row as usize;
            assert(after[a] == row as usize);
        }
        if row < i - 1 && after.contains(row as usize) {
            let a = choose|a: int| 0 <= a < after.len() && after[a] == row as usize;
            assert(before[a] == row as usize);
        }
    } else if row == i - 1 && after.contains(row as usize) {
        let a = choose|a: int| 0 <= a < before.len() && before[a] == row as usize;
        assert(before[a] < i - 1);
    }
}

/// The score of a constant target is one where it is met and zero else; any other score is the
/// value, but never below zero.
pub proof fn lemma_determination(ss_res: Float32, ss_tot: Float32, value: Float32)
    requires
        !value.nan(),
    ensures
        ss_tot.numerically_equal(Float32 { bits: 0 }) && ss_res.numerically_equal(
            Float32 { bits: 0 },
        ) ==> determination(ss_res, ss_tot, value).bits == 0x3f80_0000,
        ss_tot.numerically_equal(Float32 { bits: 0 }) && !ss_res.numerically_equal(
            Float32 { bits: 0 },
        ) ==> determination(ss_res, ss_tot, value).bits == 0,
        !ss_tot.numerically_equal(Float32 { bits: 0 }) && (Float32 { bits: 0 }).le(value)
            ==> determination(ss_res, ss_tot, value) == value || value.numerically_equal(
            Float32 { bits: 0 },
        ),
        !ss_tot.numerically_equal(Float32 { bits: 0 }) && value.lt(Float32 { bits: 0 })
            ==> determination(ss_res, ss_tot, value).bits == 0,
{
}

/// When a fit and a prediction are taken, and why not.
pub proof fn lemma_refusals(
    config: SVRConfig,
    len: usize,
    targets: usize,
    n: usize,
    d: usize,
    fitted_n: usize,
    fitted_d: usize,
)
    ensures
        ({
            let r = fit_refusal(config, len, targets, n, d);
            &&& r is None <==> (n > 0 && d > 0) && (len == n * d) && (targets == n) && (0 < config.c.bits < 0x7f80_0000) && ((Float32 { bits: 0 }).le(config.eps) && config.eps.finite()) && (0 < config.tolerance.bits < 0x7f80_0000) && (config.max_iter > 0)
            &&& !(n > 0 && d > 0) ==> r == Some(SVRError::Empty)
            &&& (n > 0 && d > 0) && !(len == n * d) ==> r == Some(SVRError::DataLength { n, d, got: len })
            &&& (n > 0 && d > 0) && (len == n * d) && !(targets == n) ==> r == Some(SVRError::TargetLength)
            &&& (n > 0 && d > 0) && (len == n * d) && (targets == n) && !(0 < config.c.bits < 0x7f80_0000) ==> r == Some(SVRError::C)
            &&& (n > 0 && d > 0) && (len == n * d) && (targets == n) && (0 < config.c.bits < 0x7f80_0000) && !((Float32 { bits: 0 }).le(config.eps) && config.eps.finite()) ==> r == Some(SVRError::Eps)
            &&& (n > 0 && d > 0) && (len == n * d) && (targets == n) && (0 < config.c.bits < 0x7f80_0000) && ((Float32 { bits: 0 }).le(config.eps) && config.eps.finite()) && !(0 < config.tolerance.bits < 0x7f80_0000) ==> r == Some(SVRError::Tolerance)
            &&& (n > 0 && d > 0) && (len == n * d) && (targets == n) && (0 < config.c.bits < 0x7f80_0000) && ((Float32 { bits: 0 }).le(config.eps) && config.eps.finite()) && (0 < config.tolerance.bits < 0x7f80_0000) && !(config.max_iter > 0) ==> r == Some(SVRError::MaxIter)
        }),
        ({
            let r = decision_refusal(fitted_n, fitted_d, len, n, d);
            &&& r is None <==> (fitted_n > 0) && (d == fitted_d) && (len == n * d)
            &&& !(fitted_n > 0) ==> r == Some(SVRError::NotFitted)
            &&& (fitted_n > 0) && !(d == fitted_d) ==> r == Some(SVRError::Dimension)
            &&& (fitted_n > 0) && (d == fitted_d) && !(len == n * d) ==> r == Some(SVRError::PredictionLength)
        }),
{
    lemma_usable(config.c);
    lemma_usable(config.tolerance);
}

/// A pair that is passed over leaves every coefficient and the generator as they were, and the
/// walk goes on from the next row.
pub proof fn lemma_passed_over_changes_nothing(before: Smo, after: Smo)
    requires
        after.passed_over(before),
        before.cursor.row + 1 < before.cursor.n,
    ensures
        after.beta == before.beta,
        after.rng == before.rng,
        after.c == before.c,
        after.stage == Stage::Draw,
        after.cursor.row == before.cursor.row + 1,
        after.cursor.n == before.cursor.n,
        after.cursor.changed == before.cursor.changed,
        after.cursor.passes == before.cursor.passes,
{
}

/// While a pair is looked at nothing changes but what is known of it.
pub proof fn lemma_look_changes_nothing(before: Smo, after: Smo)
    requires
        after.same_pair(before),
    ensures
        after.beta == before.beta,
        after.rng == before.rng,
        after.c == before.c,
        after.cursor == before.cursor,
{
}

} // verus!
