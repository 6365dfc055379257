//! Gaussian mixtures, fitted by expectation maximization.
//!
//! The device finds how likely each row is under each component; the host estimates the
//! components anew. Which rows become the first means, which component a row starts with, whose
//! covariance a component starts from, how far a covariance is regularized, when the iteration
//! ends and which component a row gets is decided here.

use vstd::prelude::*;
use crate::float::Float32;
use crate::metal::{group_count, Argument, Buffer, Kernel, Launch, MTLSize, MetalContext};
use crate::pipeline::PipelineCache;
use crate::rng::Rng;
use crate::seeding::Seeding;
use crate::select::{leading_argmax, leading_argmin, maximum};
use crate::shape::is_matrix;
use crate::tally::tally;
#[allow(unused_imports)]
use crate::metal::{buffer_at, groups_of, lemma_line_covers, line, LaunchView};
#[allow(unused_imports)]
use crate::rng::index_draw;
#[allow(unused_imports)]
use crate::select::{is_maximum, leading_greatest, leading_least};
#[allow(unused_imports)]
use crate::tally::occurrences;
#[allow(unused_imports)]
use crate::float::lemma_approximates;
#[allow(unused_imports)]
use vstd::arithmetic::power2::{lemma2_to64, lemma2_to64_rest, lemma_pow2_adds, pow2};

verus! {

/// Beyond this no more is added to the diagonal of a covariance: 1e3.
pub const REGULARIZATION_LIMIT: u32 = 0x447a_0000;

#[derive(Clone, Copy, Debug, PartialEq, Eq, Structural)]
pub struct GMMConfig {
    pub n_components: usize,
    pub max_iterations: usize,
    /// The change of the lower bound below which the fit ends.
    pub tolerance: Float32,
    pub seed: u64,
    /// What is added to the diagonal of each covariance.
    pub reg_covar: Float32,
}

impl Default for GMMConfig {
    /// Three components, 100 iterations, tolerance 1e-3, seed 42, 1e-6 on the diagonals.
    fn default() -> (r: GMMConfig)
        ensures
            r == (GMMConfig {
                n_components: 3,
                max_iterations: 100,
                tolerance: Float32 { bits: 0x3a83_126f },
                seed: 42,
                reg_covar: Float32 { bits: 0x3586_37bd },
            }),
    {
        GMMConfig {
            n_components: 3,
            max_iterations: 100,
            tolerance: Float32 { bits: 0x3a83_126f },
            seed: 42,
            reg_covar: Float32 { bits: 0x3586_37bd },
        }
    }
}

/// Why a fit or a prediction was refused.
#[derive(Clone, Copy, Debug, PartialEq, Eq, Structural)]
pub enum GMMError {
    Empty,
    /// The number of components is not between 1 and the number of rows.
    Components { k: usize, n: usize },
    DataLength { n: usize, d: usize, got: usize },
    /// The tolerance is negative or not finite.
    Tolerance,
    /// The regularization is negative or not finite.
    RegCovar,
    MaxIterations,
    NotFitted,
    Dimension { expected: usize, got: usize },
    /// The covariance of this component is not positive definite.
    NotPositiveDefinite { component: usize },
}

/// Whether a number is finite and not negative.
pub open spec fn bounded(value: Float32) -> bool {
    (Float32 { bits: 0 }).le(value) && value.finite()
}

fn is_bounded(value: Float32) -> (r: bool)
    ensures
        r == bounded(value),
{
    Float32::zero().at_most(value) && value.is_finite()
}

/// Why a fit is refused, if it is.
pub open spec fn fit_refusal(config: GMMConfig, len: usize, n: usize, d: usize) -> Option<GMMError> {
    let k = config.n_components;
    if n == 0 || d == 0 {
        Some(GMMError::Empty)
    } else if k < 1 || k > n {
        Some(GMMError::Components { k, n })
    } else if len != n * d {
        Some(GMMError::DataLength { n, d, got: len })
    } else if !bounded(config.tolerance) {
        Some(GMMError::Tolerance)
    } else if !bounded(config.reg_covar) {
        Some(GMMError::RegCovar)
    } else if config.max_iterations == 0 {
        Some(GMMError::MaxIterations)
    } else {
        None
    }
}

/// Why a prediction or a score is refused, if it is.
pub open spec fn predict_refusal(
    k: usize,
    fitted_d: usize,
    len: usize,
    n: usize,
    d: usize,
) -> Option<GMMError> {
    if k == 0 {
        Some(GMMError::NotFitted)
    } else if d != fitted_d {
        Some(GMMError::Dimension { expected: fitted_d, got: d })
    } else if len != n * d {
        Some(GMMError::DataLength { n, d, got: len })
    } else {
        None
    }
}

pub struct GMM {
    pub config: GMMConfig,
    /// The weight of each component.
    pub weights: Vec<Float32>,
    /// The mean of each component, a row of `d`.
    pub means: Vec<Float32>,
    /// The covariance of each component, `d` by `d`.
    pub covariances: Vec<Float32>,
    /// Their inverses.
    pub precisions: Vec<Float32>,
    /// The logarithms of their determinants.
    pub log_dets: Vec<Float32>,
    /// For each fitted row, how likely each component is.
    pub responsibilities: Vec<Float32>,
    pub lower_bound: Float32,
    pub iterations: usize,
    pub k: usize,
    pub d: usize,
    pub n: usize,
    /// The pipelines compiled so far.
    pub pipelines: PipelineCache,
}

/// The point that is drawn where `remaining` is left of a random share of all distances once
/// those up to each point are taken off: the first with which nothing is left, or the first of
/// all where something is always left.
pub open spec fn remaining_pick(remaining: Seq<Float32>, i: int) -> int
    decreases remaining.len() - i,
{
    if i >= remaining.len() {
        0
    } else if remaining[i].le(Float32 { bits: 0 }) {
        i
    } else {
        remaining_pick(remaining, i + 1)
    }
}

/// The point that is drawn, given what is left of a random share at each point.
pub fn pick_remaining(remaining: &[Float32]) -> (r: usize)
    ensures
        r == remaining_pick(remaining@, 0),
        remaining@.len() > 0 ==> r < remaining@.len(),
{
    let mut i: usize = 0;
    while i < remaining.len()
        invariant
            i <= remaining@.len(),
            remaining_pick(remaining@, 0) == remaining_pick(remaining@, i as int),
        decreases remaining@.len() - i,
    {
        if remaining[i].at_most(Float32::zero()) {
            return i;
        }
        i += 1;
    }
    0
}

impl Seeding {
    /// Draws the next point by its distance, given what is left of a random share of all
    /// distances at each point. `state` is the state of the generator after the share was drawn.
    pub fn draw_remaining(&mut self, data: &[Float32], remaining: &[Float32], state: u64)
        requires
            old(self).wf(data@),
            old(self).picks@.len() < old(self).k,
            remaining@.len() == old(self).n,
        ensures
            final(self).wf(data@),
            final(self).n == old(self).n,
            final(self).d == old(self).d,
            final(self).k == old(self).k,
            final(self).picks@ == old(self).picks@.push(remaining_pick(remaining@, 0) as usize),
            final(self).rng.state == state,
    {
        let pick: usize = pick_remaining(remaining);
        self.rng = Rng { state };
        self.append(data, pick);
    }
}

/// The smaller of two distances, the old one where neither is smaller.
pub open spec fn nearer(distance: Float32, other: Float32) -> Float32 {
    if other.lt(distance) {
        other
    } else {
        distance
    }
}

/// Takes in the distances to one more mean: the distance to the nearest mean is kept.
pub fn keep_nearest(distances: &mut Vec<Float32>, others: &[Float32])
    requires
        old(distances)@.len() == others@.len(),
    ensures
        final(distances)@.len() == old(distances)@.len(),
        forall|i: int|
            0 <= i < others@.len() ==> #[trigger] final(distances)@[i] == nearer(
                old(distances)@[i],
                others@[i],
            ),
{
    let ghost before = distances@;
    let mut i: usize = 0;
    while i < others.len()
        invariant
            i <= others@.len(),
            distances@.len() == others@.len(),
            before.len() == others@.len(),
            forall|j: int|
                0 <= j < i ==> #[trigger] distances@[j] == nearer(before[j], others@[j]),
            forall|j: int| i <= j < others@.len() ==> #[trigger] distances@[j] == before[j],
        decreases others@.len() - i,
    {
        if others[i].less(distances[i]) {
            distances.set(i, others[i]);
        }
        i += 1;
    }
}

/// The component that each row starts with, and how many rows each component has.
pub struct Assignment {
    pub places: Vec<usize>,
    pub counts: Vec<usize>,
}

/// The component whose mean is nearest to each of `n` rows, given the distances of each row to
/// `k` means.
pub fn nearest(distances: &[Float32], n: usize, k: usize) -> (r: Assignment)
    requires
        k > 0,
        distances@.len() == n * k,
    ensures
        r.places@.len() == n,
        forall|i: int|
            0 <= i < n ==> leading_least(
                distances@.subrange(i * k, i * k + k),
                #[trigger] r.places@[i] as int,
            ),
        r.counts@.len() == k,
        forall|c: int|
            0 <= c < k ==> #[trigger] r.counts@[c] == occurrences(r.places@, c, n as int),
{
    let len: usize = distances.len();
    let mut places: Vec<usize> = Vec::new();
    let mut i: usize = 0;
    while i < n
        invariant
            i <= n,
            k > 0,
            len == distances@.len(),
            len == n * k,
            places@.len() == i,
            forall|j: int| 0 <= j < i ==> #[trigger] places@[j] < k,
            forall|j: int|
                0 <= j < i ==> leading_least(
                    distances@.subrange(j * k, j * k + k),
                    #[trigger] places@[j] as int,
                ),
        decreases n - i,
    {
        proof {
            lemma_row_bounds(i as int, n as int, k as int);
        }
        let place: usize = leading_argmin(distances, i * k, i * k + k);
        places.push(place);
        assert(leading_least(
            distances@.subrange(i * k, i * k + k),
            places@[i as int] as int,
        ));
        i += 1;
    }
    let counts: Vec<usize> = tally(places.as_slice(), k);
    Assignment { places, counts }
}

proof fn lemma_row_bounds(i: int, n: int, k: int)
    requires
        0 <= i < n,
        0 <= k,
    ensures
        0 <= i * k,
        i * k + k <= n * k,
{
    assert(0 <= i * k && i * k + k <= n * k) by (nonlinear_arith)
        requires
            0 <= i,
            i + 1 <= n,
            0 <= k,
    ;
}

/// Whether a component starts from the covariance of its own rows, of which there are `count`;
/// else it starts from that of all rows.
pub fn has_own_covariance(count: usize, d: usize) -> (r: bool)
    ensures
        r == (count >= d + 1),
{
    count > d
}

/// Whether a component starts from the mean of its own rows; else it starts from the row that
/// was drawn for it.
pub fn has_own_mean(count: usize) -> (r: bool)
    ensures
        r == (count > 0),
{
    count > 0
}

/// Whether a component that all rows together give the weight `mass` is estimated anew; else
/// its mean and its covariance are zero.
pub fn has_mass(mass: Float32) -> (r: bool)
    ensures
        r == !mass.le(Float32 { bits: 0 }),
{
    !mass.at_most(Float32::zero())
}

/// Whether a covariance can be factored so far, by the number whose root comes next on the
/// diagonal.
pub fn is_pivot(value: Float32) -> (r: bool)
    ensures
        r == !value.le(Float32 { bits: 0 }),
{
    !value.at_most(Float32::zero())
}

/// Whether more comes of another attempt to regularize: `grown` is more than the `extra` of the
/// last one, where that was not enough yet.
pub open spec fn progresses(extra: Float32, grown: Float32) -> bool {
    extra.lt(Float32 { bits: REGULARIZATION_LIMIT }) ==> extra.lt(grown)
}

/// Whether more comes of another attempt to regularize.
pub fn is_progress(extra: Float32, grown: Float32) -> (r: bool)
    ensures
        r == progresses(extra, grown),
{
    !extra.less(Float32 { bits: REGULARIZATION_LIMIT }) || extra.less(grown)
}

/// What is to be added next to the diagonal of a covariance that could not be factored, after
/// `extra` was: `grown`, unless enough was added. `None` gives the covariance up.
pub open spec fn regularization(extra: Float32, grown: Float32) -> Option<Float32> {
    if extra.lt(Float32 { bits: REGULARIZATION_LIMIT }) {
        Some(grown)
    } else {
        None
    }
}

/// What is to be added next to the diagonal of a covariance that could not be factored, or
/// the error for its component. It is more with every attempt.
pub fn regularize(component: usize, extra: Float32, grown: Float32) -> (r: Result<Float32, GMMError>)
    requires
        progresses(extra, grown),
    ensures
        r == (match regularization(extra, grown) {
            Some(next) => Ok::<Float32, GMMError>(next),
            None => Err(GMMError::NotPositiveDefinite { component }),
        }),
        r matches Ok(next) ==> extra.lt(next),
{
    if extra.less(Float32 { bits: REGULARIZATION_LIMIT }) {
        Ok(grown)
    } else {
        Err(GMMError::NotPositiveDefinite { component })
    }
}

/// The number that all of a row's likelihoods are taken relative to: the largest.
pub fn row_maximum(likelihoods: &[Float32], i: usize, k: usize) -> (r: Float32)
    requires
        i * k + k <= likelihoods@.len(),
    ensures
        is_maximum(likelihoods@.subrange(i * k, i * k + k), r),
{
    let len: usize = likelihoods.len();
    assert(0 <= i * k) by (nonlinear_arith)
        requires
            0 <= i,
            0 <= k,
    ;
    maximum(likelihoods, i * k, i * k + k)
}

/// The iterations of a fit, as far as they have gone.
#[derive(Clone, Copy, Debug, PartialEq, Eq, Structural)]
pub struct Expectation {
    pub max_iterations: usize,
    pub tolerance: Float32,
    /// How often the components were estimated anew.
    pub done: usize,
    /// Whether the lower bound has settled.
    pub converged: bool,
}

/// What follows an expectation step.
#[derive(Clone, Copy, Debug, PartialEq, Eq, Structural)]
pub enum Verdict {
    /// The lower bound has settled: the fit is over.
    Converged,
    /// The components are to be estimated anew.
    Maximize,
}

impl Expectation {
    pub open spec fn wf(&self) -> bool {
        &&& 1 <= self.max_iterations
        &&& self.done <= self.max_iterations
        &&& self.converged ==> 1 <= self.done < self.max_iterations
    }

    /// Whether there is no other iteration.
    pub open spec fn over(&self) -> bool {
        self.converged || self.done >= self.max_iterations
    }

    /// Whether a change of the lower bound ends the fit. The first step has nothing to compare
    /// with.
    pub open spec fn settles(&self, change: Float32) -> bool {
        self.done > 0 && change.abs_value().lt(self.tolerance)
    }

    /// What an expectation step that changes the lower bound by `change` leads to.
    pub open spec fn after(self, change: Float32) -> Expectation {
        if self.settles(change) {
            Expectation { converged: true, ..self }
        } else {
            Expectation { done: (self.done + 1) as usize, ..self }
        }
    }

    /// Where the iterations end, if the step for the components that were estimated `i` times
    /// changes the lower bound by `changes(i)`.
    pub open spec fn ended(self, changes: spec_fn(int) -> Float32) -> Expectation
        decreases
            self.max_iterations - self.done,
            if self.converged {
                0int
            } else {
                1
            },
    {
        if self.over() {
            self
        } else {
            self.after(changes(self.done as int)).ended(changes)
        }
    }

    /// How often the components were estimated for which the likelihoods were found last, when
    /// the fit is over; `latest` is that number so far.
    pub open spec fn kept_step(self, changes: spec_fn(int) -> Float32, latest: int) -> int
        decreases
            self.max_iterations - self.done,
            if self.converged {
                0int
            } else {
                1
            },
    {
        if self.converged {
            latest
        } else if self.done >= self.max_iterations {
            self.done as int
        } else {
            self.after(changes(self.done as int)).kept_step(changes, self.done as int)
        }
    }

    /// No iteration done yet.
    pub fn new(config: &GMMConfig) -> (r: Expectation)
        requires
            config.max_iterations > 0,
        ensures
            r.wf(),
            r == (Expectation {
                max_iterations: config.max_iterations,
                tolerance: config.tolerance,
                done: 0,
                converged: false,
            }),
    {
        Expectation {
            max_iterations: config.max_iterations,
            tolerance: config.tolerance,
            done: 0,
            converged: false,
        }
    }

    /// Whether there is another iteration.
    pub fn next(&self) -> (r: bool)
        ensures
            r == !self.over(),
    {
        !self.converged && self.done < self.max_iterations
    }

    /// Takes in an expectation step that changed the lower bound by `change`. The first step has
    /// nothing to compare with.
    pub fn judge(&mut self, change: Float32) -> (r: Verdict)
        requires
            old(self).wf(),
            !old(self).converged,
            old(self).done < old(self).max_iterations,
        ensures
            final(self).wf(),
            r == (if old(self).settles(change) {
                Verdict::Converged
            } else {
                Verdict::Maximize
            }),
            *final(self) == old(self).after(change),
    {
        if self.done > 0 && change.abs().less(self.tolerance) {
            self.converged = true;
            Verdict::Converged
        } else {
            self.done = self.done + 1;
            Verdict::Maximize
        }
    }

    /// How many iterations the fit counts: the last one too where it found the lower bound
    /// settled.
    pub open spec fn count(&self) -> int {
        if self.converged {
            self.done + 1
        } else {
            self.done as int
        }
    }

    /// How many iterations the fit counts.
    pub fn n_iter(&self) -> (r: usize)
        requires
            self.wf(),
        ensures
            r == self.count(),
    {
        if self.converged {
            self.done + 1
        } else {
            self.done
        }
    }

    /// Whether the likelihoods are to be found once more, for the components as they are.
    pub fn needs_last_step(&self) -> (r: bool)
        ensures
            r == !self.converged,
    {
        !self.converged
    }
}

/// A fit that is over counts one iteration at least, and never more than the limit.
pub proof fn lemma_iterations_bounded(e: Expectation)
    requires
        e.wf(),
        e.over(),
    ensures
        1 <= e.count() <= e.max_iterations,
{
}

/// However the lower bound changes, a fit comes to an end, and the likelihoods that it found
/// last are those of the components that it keeps, whether it stopped early or at the limit.
pub proof fn lemma_kept_step_is_last(
    e: Expectation,
    changes: spec_fn(int) -> Float32,
    latest: int,
)
    requires
        e.wf(),
        e.converged ==> latest == e.done,
    ensures
        e.ended(changes).wf(),
        e.ended(changes).over(),
        e.ended(changes).max_iterations == e.max_iterations,
        1 <= e.ended(changes).count() <= e.max_iterations,
        e.kept_step(changes, latest) == e.ended(changes).done,
    decreases
            e.max_iterations - e.done,
            if e.converged {
                0int
            } else {
                1
            },
{
    if !e.over() {
        lemma_kept_step_is_last(e.after(changes(e.done as int)), changes, e.done as int);
    }
}

/// The sizes in bytes of the buffers of an expectation step, in the order in which they are
/// made.
pub open spec fn step_sizes(
    len: nat,
    means: nat,
    precisions: nat,
    log_dets: nat,
    weights: nat,
    out: int,
) -> Seq<u64> {
    seq![
        (4 * len) as u64,
        (4 * means) as u64,
        (4 * precisions) as u64,
        (4 * log_dets) as u64,
        (4 * weights) as u64,
        (4 * out) as u64,
    ]
}

/// The buffers and the launch of an expectation step.
pub struct StepPass {
    pub data: Buffer,
    pub means: Buffer,
    pub precisions: Buffer,
    pub log_dets: Buffer,
    pub log_weights: Buffer,
    pub out: Buffer,
    pub launch: Launch,
}

/// The launch that finds how likely each of `n` rows is under each component.
pub open spec fn step_launch(buffers: Seq<Buffer>, n: usize, k: usize, d: usize) -> LaunchView {
    LaunchView {
        kernel: Kernel::GmmEStep,
        arguments: seq![
            Argument::Memory(buffers[0]),
            Argument::Memory(buffers[1]),
            Argument::Memory(buffers[2]),
            Argument::Memory(buffers[3]),
            Argument::Memory(buffers[4]),
            Argument::Memory(buffers[5]),
            Argument::Word(n as u32),
            Argument::Word(k as u32),
            Argument::Word(d as u32),
        ],
        threadgroup_bytes: 0,
        groups: line(groups_of(n as int, 256)),
        threads: line(256),
    }
}

impl GMM {
    pub fn new(config: GMMConfig) -> (r: GMM)
        ensures
            r.config == config,
            r.weights@.len() == 0,
            r.means@.len() == 0,
            r.covariances@.len() == 0,
            r.precisions@.len() == 0,
            r.log_dets@.len() == 0,
            r.responsibilities@.len() == 0,
            r.lower_bound == (Float32 { bits: 0 }),
            r.iterations == 0,
            r.k == 0,
            r.d == 0,
            r.n == 0,
            r.pipelines.wf(),
            r.pipelines.entry(Kernel::GmmEStep) == Some(None::<usize>),
    {
        let kernels: Vec<Kernel> = vec![Kernel::GmmEStep];
        assert(kernels@[0] == Kernel::GmmEStep);
        GMM {
            config,
            weights: Vec::new(),
            means: Vec::new(),
            covariances: Vec::new(),
            precisions: Vec::new(),
            log_dets: Vec::new(),
            responsibilities: Vec::new(),
            lower_bound: Float32::zero(),
            iterations: 0,
            k: 0,
            d: 0,
            n: 0,
            pipelines: PipelineCache::new(kernels),
        }
    }

    pub fn n_components(&self) -> (r: usize)
        ensures
            r == self.k,
    {
        self.k
    }

    pub fn n_features(&self) -> (r: usize)
        ensures
            r == self.d,
    {
        self.d
    }

    pub fn n_samples(&self) -> (r: usize)
        ensures
            r == self.n,
    {
        self.n
    }

    pub fn lower_bound(&self) -> (r: Float32)
        ensures
            r == self.lower_bound,
    {
        self.lower_bound
    }

    pub fn n_iter(&self) -> (r: usize)
        ensures
            r == self.iterations,
    {
        self.iterations
    }

    pub fn weights(&self) -> (r: &[Float32])
        ensures
            r@ == self.weights@,
    {
        self.weights.as_slice()
    }

    pub fn means(&self) -> (r: &[Float32])
        ensures
            r@ == self.means@,
    {
        self.means.as_slice()
    }

    pub fn covariances(&self) -> (r: &[Float32])
        ensures
            r@ == self.covariances@,
    {
        self.covariances.as_slice()
    }

    pub fn precisions(&self) -> (r: &[Float32])
        ensures
            r@ == self.precisions@,
    {
        self.precisions.as_slice()
    }

    pub fn responsibilities(&self) -> (r: &[Float32])
        ensures
            r@ == self.responsibilities@,
    {
        self.responsibilities.as_slice()
    }

    /// Starts a fit on `n` rows of `d` columns: draws the first of the rows that become the first
    /// means.
    pub fn fit(&mut self, data: &[Float32], n: usize, d: usize) -> (r: Result<Seeding, GMMError>)
        ensures
            match fit_refusal(old(self).config, data@.len() as usize, n, d) {
                Some(e) => r == Err::<Seeding, GMMError>(e) && *final(self) == *old(self),
                None => r matches Ok(seeding) && {
                    let k = old(self).config.n_components;
                    &&& seeding.wf(data@)
                    &&& seeding.n == n
                    &&& seeding.d == d
                    &&& seeding.k == k
                    &&& seeding.picks@.len() == 1
                    &&& (seeding.picks@[0], seeding.rng.state) == index_draw(
                        old(self).config.seed,
                        n,
                        usize::BITS,
                    )
                    &&& *final(self) == (GMM { k, d, n, ..*old(self) })
                },
            },
    {
        let len: usize = data.len();
        let k: usize = self.config.n_components;
        if n == 0 || d == 0 {
            return Err(GMMError::Empty);
        }
        if k < 1 || k > n {
            return Err(GMMError::Components { k, n });
        }
        if !is_matrix(len, n, d) {
            return Err(GMMError::DataLength { n, d, got: len });
        }
        if !is_bounded(self.config.tolerance) {
            return Err(GMMError::Tolerance);
        }
        if !is_bounded(self.config.reg_covar) {
            return Err(GMMError::RegCovar);
        }
        if self.config.max_iterations == 0 {
            return Err(GMMError::MaxIterations);
        }
        self.k = k;
        self.d = d;
        self.n = n;
        Ok(Seeding::new(data, n, d, k, self.config.seed))
    }

    /// Sets the components, as they were estimated.
    pub fn set_components(
        &mut self,
        weights: Vec<Float32>,
        means: Vec<Float32>,
        covariances: Vec<Float32>,
    )
        ensures
            *final(self) == (GMM { weights, means, covariances, ..*old(self) }),
    {
        self.weights = weights;
        self.means = means;
        self.covariances = covariances;
    }

    /// Sets the inverses of the covariances and the logarithms of their determinants.
    pub fn set_precisions(&mut self, precisions: Vec<Float32>, log_dets: Vec<Float32>)
        ensures
            *final(self) == (GMM { precisions, log_dets, ..*old(self) }),
    {
        self.precisions = precisions;
        self.log_dets = log_dets;
    }

    /// Ends a fit.
    pub fn finish(
        &mut self,
        responsibilities: Vec<Float32>,
        lower_bound: Float32,
        expectation: &Expectation,
    )
        requires
            expectation.wf(),
        ensures
            *final(self) == (GMM {
                responsibilities,
                lower_bound,
                iterations: expectation.count() as usize,
                ..*old(self)
            }),
    {
        self.responsibilities = responsibilities;
        self.lower_bound = lower_bound;
        self.iterations = expectation.n_iter();
    }

    /// Whether an expectation step on `n` rows of `len` elements together can be held.
    pub open spec fn step_fits(&self, len: nat, n: usize) -> bool {
        &&& 4 * len <= usize::MAX
        &&& 4 * self.means@.len() <= usize::MAX
        &&& 4 * self.precisions@.len() <= usize::MAX
        &&& 4 * self.log_dets@.len() <= usize::MAX
        &&& 4 * self.weights@.len() <= usize::MAX
        &&& 4 * (n * self.k) <= usize::MAX
        &&& n + 255 <= usize::MAX
    }

    /// Whether `pass` finds how likely `n` rows are: its buffers follow those of the ledger
    /// `before`, and `after` is the ledger with them.
    pub open spec fn expects(
        &self,
        pass: StepPass,
        before: Seq<u64>,
        after: Seq<u64>,
        len: nat,
        n: usize,
        d: usize,
    ) -> bool {
        let sizes = step_sizes(
            len,
            self.means@.len(),
            self.precisions@.len(),
            self.log_dets@.len(),
            self.weights@.len(),
            n * self.k,
        );
        let buffers = seq![
            pass.data,
            pass.means,
            pass.precisions,
            pass.log_dets,
            pass.log_weights,
            pass.out,
        ];
        &&& after == before + sizes
        &&& forall|i: int|
            0 <= i < 6 ==> #[trigger] buffers[i] == buffer_at(before.len(), i, sizes[i] as int)
        &&& pass.launch@ == step_launch(buffers, n, self.k, d)
        &&& pass.launch@.bound_in(after)
    }

    /// The pass that finds how likely each of `n` rows is under each component.
    pub fn e_step(&self, ctx: &mut MetalContext, data: &[Float32], n: usize, d: usize) -> (r: StepPass)
        requires
            self.step_fits(data@.len(), n),
        ensures
            self.expects(r, old(ctx)@, final(ctx)@, data@.len(), n, d),
    {
        let k: usize = self.k;
        let ghost start = ctx@;
        assert(0 <= n * k) by (nonlinear_arith)
            requires
                0 <= n,
                0 <= k,
        ;
        let points: Buffer = ctx.new_buffer(data.len());
        let means: Buffer = ctx.new_buffer(self.means.len());
        let precisions: Buffer = ctx.new_buffer(self.precisions.len());
        let log_dets: Buffer = ctx.new_buffer(self.log_dets.len());
        let log_weights: Buffer = ctx.new_buffer(self.weights.len());
        let out: Buffer = ctx.new_buffer_uninitialized((n * k * 4) as u64);
        assert(ctx@ =~= start + step_sizes(
            data@.len(),
            self.means@.len(),
            self.precisions@.len(),
            self.log_dets@.len(),
            self.weights@.len(),
            n * k,
        ));
        let launch = Launch {
            kernel: Kernel::GmmEStep,
            arguments: vec![
                Argument::Memory(points),
                Argument::Memory(means),
                Argument::Memory(precisions),
                Argument::Memory(log_dets),
                Argument::Memory(log_weights),
                Argument::Memory(out),
                Argument::Word(#[verifier::truncate] (n as u32)),
                Argument::Word(#[verifier::truncate] (k as u32)),
                Argument::Word(#[verifier::truncate] (d as u32)),
            ],
            threadgroup_bytes: 0,
            groups: MTLSize::line(group_count(n as u64, 256)),
            threads: MTLSize::line(256),
        };
        let ghost buffers = seq![points, means, precisions, log_dets, log_weights, out];
        assert(launch@ =~= step_launch(buffers, n, k, d));
        StepPass { data: points, means, precisions, log_dets, log_weights, out, launch }
    }

    /// The pass whose result `predicted` makes components of.
    pub fn predict(&self, ctx: &mut MetalContext, data: &[Float32], n: usize, d: usize) -> (r: Result<
        StepPass,
        GMMError,
    >)
        requires
            predict_refusal(self.k, self.d, data@.len() as usize, n, d) is None ==> self.step_fits(
                data@.len(),
                n,
            ),
        ensures
            match predict_refusal(self.k, self.d, data@.len() as usize, n, d) {
                Some(e) => r == Err::<StepPass, GMMError>(e) && *final(ctx) == *old(ctx),
                None => r matches Ok(pass) && self.expects(
                    pass,
                    old(ctx)@,
                    final(ctx)@,
                    data@.len(),
                    n,
                    d,
                ),
            },
    {
        let len: usize = data.len();
        if self.k == 0 {
            return Err(GMMError::NotFitted);
        }
        if d != self.d {
            return Err(GMMError::Dimension { expected: self.d, got: d });
        }
        if !is_matrix(len, n, d) {
            return Err(GMMError::DataLength { n, d, got: len });
        }
        Ok(self.e_step(ctx, data, n, d))
    }

    /// The pass that a score is made of.
    pub fn score(&self, ctx: &mut MetalContext, data: &[Float32], n: usize, d: usize) -> (r: Result<
        StepPass,
        GMMError,
    >)
        requires
            predict_refusal(self.k, self.d, data@.len() as usize, n, d) is None ==> self.step_fits(
                data@.len(),
                n,
            ),
        ensures
            match predict_refusal(self.k, self.d, data@.len() as usize, n, d) {
                Some(e) => r == Err::<StepPass, GMMError>(e) && *final(ctx) == *old(ctx),
                None => r matches Ok(pass) && self.expects(
                    pass,
                    old(ctx)@,
                    final(ctx)@,
                    data@.len(),
                    n,
                    d,
                ),
            },
    {
        self.predict(ctx, data, n, d)
    }

    /// The pass that the probability of each component is made of. Nothing is refused.
    pub fn predict_proba(&self, ctx: &mut MetalContext, data: &[Float32], n: usize, d: usize) -> (r:
        StepPass)
        requires
            self.step_fits(data@.len(), n),
        ensures
            self.expects(r, old(ctx)@, final(ctx)@, data@.len(), n, d),
    {
        self.e_step(ctx, data, n, d)
    }

    /// The most likely component of each of `n` rows, given how likely each is.
    pub fn predicted(&self, responsibilities: &[Float32], n: usize) -> (r: Vec<usize>)
        requires
            self.k > 0,
            responsibilities@.len() == n * self.k,
        ensures
            r@.len() == n,
            forall|i: int|
                0 <= i < n ==> leading_greatest(
                    responsibilities@.subrange(i * self.k, i * self.k + self.k),
                    #[trigger] r@[i] as int,
                ),
    {
        let k: usize = self.k;
        let len: usize = responsibilities.len();
        let mut r: Vec<usize> = Vec::new();
        let mut i: usize = 0;
        while i < n
            invariant
                i <= n,
                k == self.k,
                k > 0,
                len == responsibilities@.len(),
                len == n * k,
                r@.len() == i,
                forall|j: int|
                    0 <= j < i ==> leading_greatest(
                        responsibilities@.subrange(j * k, j * k + k),
                        #[trigger] r@[j] as int,
                    ),
            decreases n - i,
        {
            proof {
                lemma_row_bounds(i as int, n as int, k as int);
            }
            let place: usize = leading_argmax(responsibilities, i * k, i * k + k);
            r.push(place);
            assert(leading_greatest(
                responsibilities@.subrange(i * k, i * k + k),
                r@[i as int] as int,
            ));
            i += 1;
        }
        r
    }
}

/// The row that is drawn is a row, and it is the first with which nothing is left of the share,
/// where there is one.
pub proof fn lemma_remaining_pick(remaining: Seq<Float32>, i: int)
    requires
        0 <= i <= remaining.len(),
    ensures
        remaining.len() > 0 ==> 0 <= remaining_pick(remaining, i) < remaining.len(),
        forall|j: int|
            i <= j < remaining.len() && (#[trigger] remaining[j]).le(Float32 { bits: 0 }) ==> {
                &&& i <= remaining_pick(remaining, i) <= j
                &&& remaining[remaining_pick(remaining, i)].le(Float32 { bits: 0 })
            },
    decreases remaining.len() - i,
{
    if i < remaining.len() && !remaining[i].le(Float32 { bits: 0 }) {
        lemma_remaining_pick(remaining, i + 1);
    }
}

/// What is added to a diagonal grows with every attempt, and an attempt is made exactly while it
/// is below the limit.
pub proof fn lemma_regularization_grows(extra: Float32, grown: Float32)
    requires
        progresses(extra, grown),
    ensures
        match regularization(extra, grown) {
            Some(next) => extra.lt(next) && extra.lt(Float32 { bits: REGULARIZATION_LIMIT }),
            None => (Float32 { bits: REGULARIZATION_LIMIT }).le(extra) || extra.nan(),
        },
{
}

/// Two steps of a model over the same rows, wherever their buffers lie, bind as many bytes, and
/// hand the device the same numbers; where the ledgers are equally long they are the same step.
pub proof fn lemma_steps_agree(
    model: GMM,
    one: StepPass,
    other: StepPass,
    befores: (Seq<u64>, Seq<u64>),
    afters: (Seq<u64>, Seq<u64>),
    len: nat,
    n: usize,
    d: usize,
)
    requires
        model.expects(one, befores.0, afters.0, len, n, d),
        model.expects(other, befores.1, afters.1, len, n, d),
    ensures
        one.launch@.kernel == other.launch@.kernel,
        one.launch@.groups == other.launch@.groups,
        one.launch@.threads == other.launch@.threads,
        afters.0.skip(befores.0.len() as int) == afters.1.skip(befores.1.len() as int),
        forall|i: int|
            6 <= i < 9 ==> #[trigger] one.launch@.arguments[i] == other.launch@.arguments[i],
        befores.0.len() == befores.1.len() ==> one.launch@ == other.launch@,
{
    assert(afters.0.skip(befores.0.len() as int) =~= afters.1.skip(befores.1.len() as int));
    if befores.0.len() == befores.1.len() {
        let a = seq![one.data, one.means, one.precisions, one.log_dets, one.log_weights, one.out];
        let b = seq![
            other.data,
            other.means,
            other.precisions,
            other.log_dets,
            other.log_weights,
            other.out,
        ];
        assert forall|i: int| 0 <= i < 6 implies a[i] == b[i] by {}
        assert(a =~= b);
    }
}

/// What a fit keeps at its end, the probabilities, the lower bound and the count of iterations,
/// is not read by a later pass: that is laid out for the fitted model as the fit's last step was
/// for the model before.
pub proof fn lemma_finished_model_expects(
    before: GMM,
    fitted: GMM,
    pass: StepPass,
    ledgers: (Seq<u64>, Seq<u64>),
    len: nat,
    n: usize,
    d: usize,
)
    requires
        fitted == (GMM {
            responsibilities: fitted.responsibilities,
            lower_bound: fitted.lower_bound,
            iterations: fitted.iterations,
            ..before
        }),
    ensures
        before.expects(pass, ledgers.0, ledgers.1, len, n, d) <==> fitted.expects(
            pass,
            ledgers.0,
            ledgers.1,
            len,
            n,
            d,
        ),
{
}

/// Regularization stops at 1000.
pub proof fn lemma_regularization_limit()
    ensures
        (Float32 { bits: REGULARIZATION_LIMIT }).approximates(1000, 1),
{
    lemma2_to64();
    lemma2_to64_rest();
    assert(pow2(14) == 16384);
    lemma_approximates(
        Float32 { bits: REGULARIZATION_LIMIT },
        136,
        16384000,
        1000,
        1,
        16384,
    );
}

/// A step binds rows, means, inverses, determinants, weights and where the likelihoods go, says
/// how many rows, components and columns there are, and has a thread for every row.
pub proof fn lemma_step_reaches_every_row(buffers: Seq<Buffer>, n: usize, k: usize, d: usize)
    ensures
        ({
            let l = step_launch(buffers, n, k, d);
            &&& l.kernel == Kernel::GmmEStep
            &&& l.arguments.len() == 9
            &&& l.arguments[0] == Argument::Memory(buffers[0])
            &&& l.arguments[1] == Argument::Memory(buffers[1])
            &&& l.arguments[2] == Argument::Memory(buffers[2])
            &&& l.arguments[3] == Argument::Memory(buffers[3])
            &&& l.arguments[4] == Argument::Memory(buffers[4])
            &&& l.arguments[5] == Argument::Memory(buffers[5])
            &&& l.arguments[6] == Argument::Word(n as u32)
            &&& l.arguments[7] == Argument::Word(k as u32)
            &&& l.arguments[8] == Argument::Word(d as u32)
            &&& l.threadgroup_bytes == 0
            &&& l.groups.width * l.threads.width >= n
            &&& l.groups.width * l.threads.width < n + 256
            &&& l.threads.width == 256
            &&& l.groups.height == 1 && l.threads.height == 1
        }),
{
    lemma_line_covers(n as int, 256);
}

/// What a pass over `n` rows binds for a model.
pub proof fn lemma_pass_binds_the_model(
    model: GMM,
    pass: StepPass,
    before: Seq<u64>,
    after: Seq<u64>,
    len: nat,
    n: usize,
    d: usize,
)
    requires
        model.expects(pass, before, after, len, n, d),
        model.step_fits(len, n),
        before.len() + 6 <= usize::MAX,
    ensures
        pass.launch.arguments@[0] == Argument::Memory(pass.data),
        pass.launch.arguments@[1] == Argument::Memory(pass.means),
        pass.launch.arguments@[2] == Argument::Memory(pass.precisions),
        pass.launch.arguments@[3] == Argument::Memory(pass.log_dets),
        pass.launch.arguments@[4] == Argument::Memory(pass.log_weights),
        pass.launch.arguments@[5] == Argument::Memory(pass.out),
        pass.launch.arguments@[6] == Argument::Word(n as u32),
        pass.launch.arguments@[7] == Argument::Word(model.k as u32),
        pass.launch.arguments@[8] == Argument::Word(d as u32),
        pass.data.id == before.len() && pass.data.byte_len == 4 * len,
        pass.means.id == before.len() + 1 && pass.means.byte_len == 4 * model.means.len(),
        pass.precisions.id == before.len() + 2 && pass.precisions.byte_len == 4
            * model.precisions.len(),
        pass.log_dets.id == before.len() + 3 && pass.log_dets.byte_len == 4
            * model.log_dets.len(),
        pass.log_weights.id == before.len() + 4 && pass.log_weights.byte_len == 4
            * model.weights.len(),
        pass.out.id == before.len() + 5 && pass.out.byte_len == 4 * (n * model.k),
        pass.launch.groups.width * pass.launch.threads.width >= n,
{
    lemma_line_covers(n as int, 256);
    assert(0 <= n * model.k) by (nonlinear_arith)
        requires
            0 <= n,
            0 <= model.k,
    ;
    let buffers = seq![
        pass.data,
        pass.means,
        pass.precisions,
        pass.log_dets,
        pass.log_weights,
        pass.out,
    ];
    assert(buffers[0] == pass.data && buffers[1] == pass.means && buffers[2]
        == pass.precisions);
    assert(buffers[3] == pass.log_dets && buffers[4] == pass.log_weights && buffers[5]
        == pass.out);
}

/// The distance that is kept is one of the two, and the other is not below it.
pub proof fn lemma_nearer(distance: Float32, other: Float32)
    ensures
        !other.lt(nearer(distance, other)),
        !distance.lt(nearer(distance, other)),
        nearer(distance, other) == distance || nearer(distance, other) == other,
        other.lt(distance) ==> nearer(distance, other) == other,
        distance.le(other) ==> nearer(distance, other) == distance,
{
}

/// The row that is drawn is the first with which nothing is left, and the first of all where
/// something is always left.
pub proof fn lemma_first_exhausted(remaining: Seq<Float32>, i: int)
    requires
        0 <= i <= remaining.len(),
        forall|j: int| 0 <= j < i ==> !(#[trigger] remaining[j]).le(Float32 { bits: 0 }),
    ensures
        i < remaining.len() && remaining[i].le(Float32 { bits: 0 }) ==> remaining_pick(
            remaining,
            0,
        ) == i,
        i == remaining.len() ==> remaining_pick(remaining, 0) == 0,
{
    lemma_remaining_skips(remaining, 0, i);
}

proof fn lemma_remaining_skips(remaining: Seq<Float32>, from: int, i: int)
    requires
        0 <= from <= i <= remaining.len(),
        forall|j: int| from <= j < i ==> !(#[trigger] remaining[j]).le(Float32 { bits: 0 }),
    ensures
        remaining_pick(remaining, from) == remaining_pick(remaining, i),
    decreases i - from,
{
    if from < i {
        lemma_remaining_skips(remaining, from + 1, i);
    }
}

/// A step settles the fit exactly when it is not the first and changed the lower bound by less
/// than the tolerance; else the components are estimated once more.
pub proof fn lemma_verdicts(e: Expectation, change: Float32)
    requires
        e.wf(),
        !e.over(),
    ensures
        e.settles(change) <==> e.done > 0 && change.abs_value().lt(e.tolerance),
        e.after(change).converged <==> e.done > 0 && change.abs_value().lt(e.tolerance),
        e.after(change).done == (if e.after(change).converged {
            e.done as int
        } else {
            e.done + 1
        }),
        e.after(change).tolerance == e.tolerance,
        e.after(change).max_iterations == e.max_iterations,
        e.over() <==> e.converged || e.done >= e.max_iterations,
{
}

/// When a fit and a prediction are taken, and why not.
pub proof fn lemma_refusals(
    config: GMMConfig,
    len: usize,
    n: usize,
    d: usize,
    k: usize,
    fitted_d: usize,
)
    ensures
        ({
            let r = fit_refusal(config, len, n, d);
            &&& r is None <==> (n > 0 && d > 0) && (1 <= config.n_components <= n) && (len == n * d) && ((Float32 { bits: 0 }).le(config.tolerance) && config.tolerance.finite()) && ((Float32 { bits: 0 }).le(config.reg_covar) && config.reg_covar.finite()) && (config.max_iterations > 0)
            &&& !(n > 0 && d > 0) ==> r == Some(GMMError::Empty)
            &&& (n > 0 && d > 0) && !(1 <= config.n_components <= n) ==> r == Some(GMMError::Components { k: config.n_components, n })
            &&& (n > 0 && d > 0) && (1 <= config.n_components <= n) && !(len == n * d) ==> r == Some(GMMError::DataLength { n, d, got: len })
            &&& (n > 0 && d > 0) && (1 <= config.n_components <= n) && (len == n * d) && !((Float32 { bits: 0 }).le(config.tolerance) && config.tolerance.finite()) ==> r == Some(GMMError::Tolerance)
            &&& (n > 0 && d > 0) && (1 <= config.n_components <= n) && (len == n * d) && ((Float32 { bits: 0 }).le(config.tolerance) && config.tolerance.finite()) && !((Float32 { bits: 0 }).le(config.reg_covar) && config.reg_covar.finite()) ==> r == Some(GMMError::RegCovar)
            &&& (n > 0 && d > 0) && (1 <= config.n_components <= n) && (len == n * d) && ((Float32 { bits: 0 }).le(config.tolerance) && config.tolerance.finite()) && ((Float32 { bits: 0 }).le(config.reg_covar) && config.reg_covar.finite()) && !(config.max_iterations > 0) ==> r == Some(GMMError::MaxIterations)
        }),
        ({
            let r = predict_refusal(k, fitted_d, len, n, d);
            &&& r is None <==> (k > 0) && (d == fitted_d) && (len == n * d)
            &&& !(k > 0) ==> r == Some(GMMError::NotFitted)
            &&& (k > 0) && !(d == fitted_d) ==> r == Some(GMMError::Dimension { expected: fitted_d, got: d })
            &&& (k > 0) && (d == fitted_d) && !(len == n * d) ==> r == Some(GMMError::DataLength { n, d, got: len })
        }),
{
}

} // verus!
