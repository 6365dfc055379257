//! DBSCAN clustering.
//!
//! The device counts and lists, for each point, the other points within `eps`. From the
//! lists the library finds the core points, joins the ones that are within `eps` of each
//! other, and labels every point.
//!
//! A point is a core point when it has at least `min_samples` points, itself included,
//! within `eps`. Core points that are within `eps` of each other are in one cluster, and a
//! point within `eps` of a core point joins that one's cluster. The rest is noise, `-1`.

use vstd::prelude::*;
use crate::float::Float32;
use crate::metal::{group_count, Argument, Buffer, Kernel, Launch, MTLSize, MetalContext};
use crate::shape::is_matrix;
use crate::union_find::UnionFind;
#[allow(unused_imports)]
use crate::metal::{groups_of, holds, lemma_line_covers, line, LaunchView};
#[allow(unused_imports)]
use crate::shape::lemma_matrix_bounds;

verus! {

#[derive(Clone, Copy, Debug, PartialEq, Eq, Structural)]
pub struct DBSCANConfig {
    pub eps: Float32,
    pub min_samples: usize,
}

impl Default for DBSCANConfig {
    /// `eps` 0.5 and `min_samples` 5.
    fn default() -> (r: DBSCANConfig)
        ensures
            r.eps == (Float32 { bits: 0x3f00_0000 }),
            r.min_samples == 5,
    {
        DBSCANConfig { eps: Float32 { bits: 0x3f00_0000 }, min_samples: 5 }
    }
}

/// Why a fit was refused.
#[derive(Clone, Copy, Debug, PartialEq, Eq, Structural)]
pub enum DBSCANError {
    InvalidParameters { n: usize, d: usize },
    DataLength { n: usize, d: usize, got: usize },
    Eps(Float32),
    MinSamples(usize),
}

pub struct DBSCAN {
    config: DBSCANConfig,
    n: usize,
    d: usize,
    labels: Vec<isize>,
    n_clusters: usize,
}

/// The pass that counts each point's neighbours.
pub struct CountPass {
    pub data: Buffer,
    pub counts: Buffer,
    pub launch: Launch,
}

/// The pass that lists each point's neighbours, point `p`'s from `offsets[p]` on.
pub struct GatherPass {
    pub offsets: Vec<u32>,
    pub offsets_buffer: Buffer,
    pub neighbors: Buffer,
    pub launch: Launch,
}

/// The sum of the first `k` counts.
pub open spec fn total(counts: Seq<u32>, k: int) -> int
    decreases k,
{
    if k <= 0 {
        0
    } else {
        total(counts, k - 1) + counts[k - 1]
    }
}

/// Where each point's list starts, and the last one ends.
pub open spec fn offsets_of(counts: Seq<u32>) -> Seq<u32> {
    Seq::new(counts.len() + 1, |i: int| total(counts, i) as u32)
}

/// The points, as far as clustering sees them: which ones are core points, and the list of
/// each one's neighbours.
#[verifier::ext_equal]
pub struct Neighborhoods {
    pub core: Seq<bool>,
    pub offsets: Seq<u32>,
    pub neighbors: Seq<u32>,
}

/// Which points have at least `min_samples` points within reach, counting themselves.
pub open spec fn core_points(counts: Seq<u32>, min_samples: usize) -> Seq<bool> {
    Seq::new(counts.len(), |p: int| counts[p] + 1 >= min_samples)
}

/// The first place from `i` on, before `end`, where `neighbors` names a core point.
pub open spec fn first_core(core: Seq<bool>, neighbors: Seq<u32>, i: int, end: int) -> Option<int>
    decreases end - i,
{
    if i >= end {
        None
    } else if core[neighbors[i] as int] {
        Some(i)
    } else {
        first_core(core, neighbors, i + 1, end)
    }
}

impl Neighborhoods {
    /// Whether each point has its list, and the lists name points only.
    pub open spec fn valid(self) -> bool {
        &&& self.offsets.len() == self.core.len() + 1
        &&& forall|a: int, b: int|
            0 <= a <= b < self.offsets.len() ==> #[trigger] self.offsets[a]
                <= #[trigger] self.offsets[b]
        &&& self.offsets[self.core.len() as int] <= self.neighbors.len()
        &&& forall|i: int|
            0 <= i < self.neighbors.len() ==> #[trigger] self.neighbors[i] < self.core.len()
    }

    /// Whether place `i` lies in the list of `p`.
    pub open spec fn in_list(self, p: int, i: int) -> bool {
        self.offsets[p] <= i < self.offsets[p + 1]
    }

    /// Whether the list of `p` names `q`.
    pub open spec fn lists(self, p: int, q: int) -> bool {
        exists|i: int| #[trigger] self.in_list(p, i) && self.neighbors[i] == q
    }

    /// Whether `p` and `q` are core points, one within reach of the other.
    pub open spec fn linked(self, p: int, q: int) -> bool {
        &&& 0 <= p < self.core.len()
        &&& 0 <= q < self.core.len()
        &&& self.core[p]
        &&& self.core[q]
        &&& self.lists(p, q) || self.lists(q, p)
    }

    /// Whether each point of `path` is linked to the next.
    pub open spec fn is_path(self, path: Seq<int>) -> bool {
        &&& path.len() > 0
        &&& forall|i: int, j: int|
            0 <= i && j == i + 1 && j < path.len() ==> self.linked(
                #[trigger] path[i],
                #[trigger] path[j],
            )
    }

    /// Whether a path of links leads from `p` to `q`.
    pub open spec fn connected(self, p: int, q: int) -> bool {
        exists|path: Seq<int>| #[trigger] self.is_path(path) && path[0] == p && path.last() == q
    }

    /// Whether `p` is the first core point of its cluster.
    pub open spec fn leader(self, p: int) -> bool {
        &&& self.core[p]
        &&& forall|q: int| 0 <= q < p && self.core[q] ==> !#[trigger] self.connected(q, p)
    }

    /// How many clusters have their first core point among the first `k` points.
    pub open spec fn leaders(self, k: int) -> int
        decreases k,
    {
        if k <= 0 {
            0
        } else {
            self.leaders(k - 1) + if self.leader(k - 1) {
                1int
            } else {
                0
            }
        }
    }

    /// The place in the list of `p` where it first names a core point.
    pub open spec fn first_core_neighbor(self, p: int) -> Option<int> {
        first_core(
            self.core,
            self.neighbors,
            self.offsets[p] as int,
            self.offsets[p + 1] as int,
        )
    }

    /// Whether `labels` is the clustering of these points, in `n_clusters` clusters that are
    /// numbered in the order of their first core points.
    pub open spec fn clustered(self, labels: Seq<isize>, n_clusters: int) -> bool {
        &&& labels.len() == self.core.len()
        &&& n_clusters == self.leaders(self.core.len() as int)
        &&& forall|p: int, q: int|
            0 <= p < labels.len() && 0 <= q < labels.len() && self.core[p] && self.core[q] ==> (
            #[trigger] labels[p] == #[trigger] labels[q] <==> self.connected(p, q))
        &&& forall|p: int|
            0 <= p < labels.len() && self.leader(p) ==> #[trigger] labels[p] == self.leaders(p)
        &&& forall|p: int|
            0 <= p < labels.len() && !self.core[p] ==> #[trigger] labels[p] == (
            match self.first_core_neighbor(p) {
                Some(i) => labels[self.neighbors[i] as int],
                None => (-1) as isize,
            })
    }
}

proof fn lemma_connected_self(g: Neighborhoods, p: int)
    ensures
        g.connected(p, p),
{
    let path = seq![p];
    assert(g.is_path(path));
}

proof fn lemma_linked_connected(g: Neighborhoods, p: int, q: int)
    requires
        g.linked(p, q),
    ensures
        g.connected(p, q),
{
    let path = seq![p, q];
    assert(g.is_path(path));
    assert(path.last() == q);
}

proof fn lemma_connected_symmetric(g: Neighborhoods, p: int, q: int)
    requires
        g.connected(p, q),
    ensures
        g.connected(q, p),
{
    let path = choose|path: Seq<int>|
        #[trigger] g.is_path(path) && path[0] == p && path.last() == q;
    let back = path.reverse();
    assert forall|i: int, j: int| 0 <= i && j == i + 1 && j < back.len() implies g.linked(
        #[trigger] back[i],
        #[trigger] back[j],
    ) by {
        assert(back[i] == path[path.len() - 1 - i]);
        assert(back[j] == path[path.len() - 1 - j]);
        assert(g.linked(path[path.len() - 1 - j], path[path.len() - 1 - i]));
    }
    assert(g.is_path(back));
    assert(back[0] == q && back.last() == p);
}

proof fn lemma_connected_transitive(g: Neighborhoods, p: int, q: int, r: int)
    requires
        g.connected(p, q),
        g.connected(q, r),
    ensures
        g.connected(p, r),
{
    let first = choose|path: Seq<int>|
        #[trigger] g.is_path(path) && path[0] == p && path.last() == q;
    let second = choose|path: Seq<int>|
        #[trigger] g.is_path(path) && path[0] == q && path.last() == r;
    let path = first + second.skip(1);
    assert forall|i: int, j: int| 0 <= i && j == i + 1 && j < path.len() implies g.linked(
        #[trigger] path[i],
        #[trigger] path[j],
    ) by {
        if j < first.len() {
            assert(path[i] == first[i] && path[j] == first[j]);
        } else {
            let k = j - first.len() + 1;
            assert(path[j] == second[k]);
            if i < first.len() {
                assert(path[i] == first.last());
                assert(path[i] == second[k - 1]);
            } else {
                assert(path[i] == second[k - 1]);
            }
            assert(g.linked(second[k - 1], second[k]));
        }
    }
    assert(g.is_path(path));
    assert(path[0] == p);
    assert(path.last() == r);
}

/// What respects every link respects every path.
proof fn lemma_path_respects(g: Neighborhoods, roots: Seq<int>, path: Seq<int>)
    requires
        g.is_path(path),
        forall|p: int, q: int| #[trigger] g.linked(p, q) ==> roots[p] == roots[q],
    ensures
        roots[path[0]] == roots[path.last()],
    decreases path.len(),
{
    if path.len() > 1 {
        let shorter = path.drop_last();
        assert(g.is_path(shorter)) by {
            assert forall|i: int, j: int| 0 <= i && j == i + 1 && j < shorter.len() implies g.linked(
                #[trigger] shorter[i],
                #[trigger] shorter[j],
            ) by {
                assert(g.linked(path[i], path[j]));
            }
        }
        lemma_path_respects(g, roots, shorter);
        assert(g.linked(path[path.len() - 2], path[path.len() - 1]));
        assert(shorter.last() == path[path.len() - 2]);
    }
}

proof fn lemma_leaders_bounds(g: Neighborhoods, k: int)
    ensures
        0 <= g.leaders(k),
        k >= 0 ==> g.leaders(k) <= k,
    decreases k,
{
    if k > 0 {
        lemma_leaders_bounds(g, k - 1);
    }
}

proof fn lemma_leaders_grow(g: Neighborhoods, low: int, high: int)
    requires
        low <= high,
    ensures
        g.leaders(low) <= g.leaders(high),
    decreases high - low,
{
    if low < high {
        lemma_leaders_grow(g, low, high - 1);
    }
}

proof fn lemma_first_core(g: Neighborhoods, i: int, end: int)
    ensures
        match first_core(g.core, g.neighbors, i, end) {
            Some(k) => i <= k < end && g.core[g.neighbors[k] as int],
            None => forall|k: int| i <= k < end ==> !g.core[#[trigger] g.neighbors[k] as int],
        },
    decreases end - i,
{
    if i < end && !g.core[g.neighbors[i] as int] {
        lemma_first_core(g, i + 1, end);
    }
}

/// The first core point of a cluster, and its number, for any core point of the cluster.
proof fn lemma_leader_exists(g: Neighborhoods, p: int) -> (q: int)
    requires
        0 <= p < g.core.len(),
        g.core[p],
    ensures
        0 <= q <= p,
        g.leader(q),
        g.connected(q, p),
    decreases p,
{
    if g.leader(p) {
        lemma_connected_self(g, p);
        p
    } else {
        let earlier = choose|q: int| 0 <= q < p && g.core[q] && #[trigger] g.connected(q, p);
        let q = lemma_leader_exists(g, earlier);
        lemma_connected_transitive(g, q, earlier, p);
        q
    }
}

/// The label of a core point is the number of a cluster.
pub proof fn lemma_core_label_in_range(
    g: Neighborhoods,
    labels: Seq<isize>,
    n_clusters: int,
    p: int,
)
    requires
        g.valid(),
        g.clustered(labels, n_clusters),
        0 <= p < labels.len(),
        g.core[p],
    ensures
        0 <= labels[p] < n_clusters,
{
    let q = lemma_leader_exists(g, p);
    assert(labels[q] == g.leaders(q));
    assert(labels[q] == labels[p]);
    lemma_leaders_bounds(g, q);
    lemma_leaders_grow(g, q + 1, g.core.len() as int);
}

/// A point is noise exactly when it is no core point and its list names none; every other
/// label is the number of a cluster.
pub proof fn lemma_noise(g: Neighborhoods, labels: Seq<isize>, n_clusters: int, p: int)
    requires
        g.valid(),
        g.clustered(labels, n_clusters),
        0 <= p < labels.len(),
    ensures
        labels[p] == -1 <==> !g.core[p] && forall|i: int| #[trigger]
            g.in_list(p, i) ==> !g.core[g.neighbors[i] as int],
        labels[p] == -1 || 0 <= labels[p] < n_clusters,
{
    if g.core[p] {
        lemma_core_label_in_range(g, labels, n_clusters, p);
    } else {
        let start = g.offsets[p] as int;
        let end = g.offsets[p + 1] as int;
        lemma_first_core(g, start, end);
        match g.first_core_neighbor(p) {
            Some(i) => {
                assert(g.in_list(p, i));
                assert(g.offsets[p + 1] <= g.offsets[g.core.len() as int]);
                lemma_core_label_in_range(g, labels, n_clusters, g.neighbors[i] as int);
            },
            None => {
                assert forall|i: int| #[trigger] g.in_list(p, i) implies !g.core[
                g.neighbors[i] as int] by {}
            },
        }
    }
}

/// Every cluster number is the label of some core point.
pub proof fn lemma_every_cluster_is_used(
    g: Neighborhoods,
    labels: Seq<isize>,
    n_clusters: int,
    cluster: int,
)
    requires
        g.valid(),
        g.clustered(labels, n_clusters),
        0 <= cluster < n_clusters,
    ensures
        exists|p: int| 0 <= p < labels.len() && g.core[p] && #[trigger] labels[p] == cluster,
{
    let p = lemma_nth_leader(g, g.core.len() as int, cluster);
    assert(labels[p] == cluster);
}

/// Clustering is deterministic: the same neighbourhoods have one clustering.
pub proof fn lemma_clustering_unique(
    g: Neighborhoods,
    labels: Seq<isize>,
    n_clusters: int,
    other_labels: Seq<isize>,
    other_n_clusters: int,
)
    requires
        g.valid(),
        g.clustered(labels, n_clusters),
        g.clustered(other_labels, other_n_clusters),
    ensures
        labels == other_labels,
        n_clusters == other_n_clusters,
{
    assert forall|p: int| 0 <= p < labels.len() && g.core[p] implies #[trigger] labels[p]
        == other_labels[p] by {
        let q = lemma_leader_exists(g, p);
        assert(labels[q] == labels[p]);
        assert(other_labels[q] == other_labels[p]);
    }
    assert forall|p: int| 0 <= p < labels.len() implies #[trigger] labels[p]
        == other_labels[p] by {
        if !g.core[p] {
            lemma_first_core(g, g.offsets[p] as int, g.offsets[p + 1] as int);
            assert(g.offsets[p + 1] <= g.offsets[g.core.len() as int]);
            assert(other_labels[p] == (match g.first_core_neighbor(p) {
                Some(i) => other_labels[g.neighbors[i] as int],
                None => (-1) as isize,
            }));
        }
    }
    assert(labels =~= other_labels);
}

/// Labels are ordered: a cluster whose first core point comes earlier has the smaller number.
pub proof fn lemma_labels_are_ordered(
    g: Neighborhoods,
    labels: Seq<isize>,
    n_clusters: int,
    p: int,
    q: int,
)
    requires
        g.valid(),
        g.clustered(labels, n_clusters),
        0 <= p < q < labels.len(),
        g.leader(p),
        g.leader(q),
    ensures
        labels[p] < labels[q],
{
    lemma_leaders_grow(g, p + 1, q);
    assert(labels[p] == g.leaders(p));
    assert(labels[q] == g.leaders(q));
}

proof fn lemma_nth_leader(g: Neighborhoods, k: int, cluster: int) -> (p: int)
    requires
        0 <= cluster < g.leaders(k),
    ensures
        0 <= p < k,
        g.leader(p),
        g.leaders(p) == cluster,
    decreases k,
{
    if cluster < g.leaders(k - 1) {
        lemma_nth_leader(g, k - 1, cluster)
    } else {
        k - 1
    }
}

proof fn lemma_total_grows(counts: Seq<u32>, low: int, high: int)
    requires
        low <= high <= counts.len(),
    ensures
        0 <= total(counts, low) <= total(counts, high),
    decreases high - low, low,
{
    if low < high {
        lemma_total_grows(counts, low, high - 1);
    } else if low > 0 {
        lemma_total_grows(counts, low - 1, high - 1);
    }
}

/// The lists that start where the counts before them end lie one after the other.
proof fn lemma_offsets_grow(counts: Seq<u32>)
    requires
        total(counts, counts.len() as int) <= u32::MAX,
    ensures
        forall|a: int, b: int|
            0 <= a <= b < offsets_of(counts).len() ==> #[trigger] offsets_of(counts)[a]
                <= #[trigger] offsets_of(counts)[b],
        forall|a: int|
            0 <= a < offsets_of(counts).len() ==> #[trigger] offsets_of(counts)[a] == total(
                counts,
                a,
            ),
{
    assert forall|a: int| 0 <= a < offsets_of(counts).len() implies #[trigger] offsets_of(
        counts,
    )[a] == total(counts, a) by {
        lemma_total_grows(counts, a, counts.len() as int);
    }
    assert forall|a: int, b: int| 0 <= a <= b < offsets_of(counts).len() implies
    #[trigger] offsets_of(counts)[a] <= #[trigger] offsets_of(counts)[b] by {
        lemma_total_grows(counts, a, b);
    }
}

/// The launch that counts neighbours.
pub open spec fn count_launch(
    data: Buffer,
    counts: Buffer,
    n: usize,
    d: usize,
    eps_squared: Float32,
) -> LaunchView {
    LaunchView {
        kernel: Kernel::DbscanCount,
        arguments: seq![
            Argument::Memory(data),
            Argument::Memory(counts),
            Argument::Word(n as u32),
            Argument::Word(d as u32),
            Argument::Real(eps_squared),
        ],
        threadgroup_bytes: 0,
        groups: line(groups_of(n as int, 256)),
        threads: line(256),
    }
}

/// The launch that lists neighbours.
pub open spec fn gather_launch(
    data: Buffer,
    offsets: Buffer,
    neighbors: Buffer,
    n: usize,
    d: usize,
    eps_squared: Float32,
) -> LaunchView {
    LaunchView {
        kernel: Kernel::DbscanGather,
        arguments: seq![
            Argument::Memory(data),
            Argument::Memory(offsets),
            Argument::Memory(neighbors),
            Argument::Word(n as u32),
            Argument::Word(d as u32),
            Argument::Real(eps_squared),
        ],
        threadgroup_bytes: 0,
        groups: line(groups_of(n as int, 256)),
        threads: line(256),
    }
}

/// Why a fit is refused, if it is.
pub open spec fn fit_refusal(config: DBSCANConfig, len: usize, n: usize, d: usize) -> Option<
    DBSCANError,
> {
    if n == 0 || d == 0 {
        Some(DBSCANError::InvalidParameters { n, d })
    } else if len != n * d {
        Some(DBSCANError::DataLength { n, d, got: len })
    } else if !(Float32 { bits: 0 }).lt(config.eps) {
        Some(DBSCANError::Eps(config.eps))
    } else if config.min_samples < 1 {
        Some(DBSCANError::MinSamples(config.min_samples))
    } else {
        None
    }
}

impl DBSCAN {
    pub closed spec fn spec_config(&self) -> DBSCANConfig {
        self.config
    }

    /// The number of points and of dimensions of the last fit.
    pub closed spec fn spec_shape(&self) -> (usize, usize) {
        (self.n, self.d)
    }

    pub closed spec fn spec_labels(&self) -> Seq<isize> {
        self.labels@
    }

    pub closed spec fn spec_n_clusters(&self) -> usize {
        self.n_clusters
    }

    pub fn new(config: DBSCANConfig) -> (r: DBSCAN)
        ensures
            r.spec_config() == config,
            r.spec_shape() == (0usize, 0usize),
            r.spec_labels() == Seq::<isize>::empty(),
            r.spec_n_clusters() == 0,
    {
        DBSCAN { config, n: 0, d: 0, labels: Vec::new(), n_clusters: 0 }
    }

    pub fn labels(&self) -> (r: &[isize])
        ensures
            r@ == self.spec_labels(),
    {
        self.labels.as_slice()
    }

    pub fn n_clusters(&self) -> (r: usize)
        ensures
            r == self.spec_n_clusters(),
    {
        self.n_clusters
    }

    /// Starts a fit on `n` points of `d` dimensions: the buffers and the launch of the pass
    /// that counts neighbours. `eps_squared` is the square of `eps`.
    pub fn fit(
        &mut self,
        ctx: &mut MetalContext,
        data: &[Float32],
        n: usize,
        d: usize,
        eps_squared: Float32,
    ) -> (r: Result<CountPass, DBSCANError>)
        requires
            4 * data@.len() <= usize::MAX,
        ensures
            match fit_refusal(old(self).spec_config(), data@.len() as usize, n, d) {
                Some(e) => r == Err::<CountPass, DBSCANError>(e) && *final(self) == *old(self)
                    && *final(ctx) == *old(ctx),
                None => r matches Ok(pass) && {
                    &&& final(ctx)@ == old(ctx)@.push((4 * n * d) as u64).push((4 * n) as u64)
                    &&& pass.data == (Buffer {
                        id: old(ctx)@.len() as usize,
                        byte_len: (4 * n * d) as u64,
                    })
                    &&& pass.counts == (Buffer {
                        id: (old(ctx)@.len() + 1) as usize,
                        byte_len: (4 * n) as u64,
                    })
                    &&& pass.launch@ == count_launch(pass.data, pass.counts, n, d, eps_squared)
                    &&& pass.launch@.bound_in(final(ctx)@)
                    &&& final(self).spec_shape() == (n, d)
                    &&& final(self).spec_config() == old(self).spec_config()
                    &&& final(self).spec_labels() == old(self).spec_labels()
                    &&& final(self).spec_n_clusters() == old(self).spec_n_clusters()
                },
            },
    {
        if n == 0 || d == 0 {
            return Err(DBSCANError::InvalidParameters { n, d });
        }
        if !is_matrix(data.len(), n, d) {
            return Err(DBSCANError::DataLength { n, d, got: data.len() });
        }
        if !self.config.eps.is_positive() {
            return Err(DBSCANError::Eps(self.config.eps));
        }
        if self.config.min_samples < 1 {
            return Err(DBSCANError::MinSamples(self.config.min_samples));
        }
        proof {
            lemma_matrix_bounds(data@.len() as int, n as int, d as int);
            assert(4 * n * d == 4 * (n * d)) by (nonlinear_arith);
        }
        self.n = n;
        self.d = d;
        let data_buffer: Buffer = ctx.new_buffer(data.len());
        let counts: Buffer = ctx.new_buffer_uninitialized((n * 4) as u64);
        let launch = Launch {
            kernel: Kernel::DbscanCount,
            arguments: vec![
                Argument::Memory(data_buffer),
                Argument::Memory(counts),
                Argument::Word(#[verifier::truncate] (n as u32)),
                Argument::Word(#[verifier::truncate] (d as u32)),
                Argument::Real(eps_squared),
            ],
            threadgroup_bytes: 0,
            groups: MTLSize::line(group_count(n as u64, 256)),
            threads: MTLSize::line(256),
        };
        assert(launch@.arguments =~= count_launch(
            data_buffer,
            counts,
            n,
            d,
            eps_squared,
        ).arguments);
        Ok(CountPass { data: data_buffer, counts, launch })
    }

    /// Whether the counts of all points together fit the 32 bits of an offset.
    pub fn counts_fit(counts: &[u32]) -> (r: bool)
        ensures
            r == (total(counts@, counts@.len() as int) <= u32::MAX),
    {
        let mut sum: u64 = 0;
        let mut i: usize = 0;
        while i < counts.len()
            invariant
                i <= counts@.len(),
                sum == total(counts@, i as int),
                sum <= u32::MAX,
            decreases counts@.len() - i,
        {
            sum += counts[i] as u64;
            i += 1;
            if sum > 0xffff_ffff {
                proof {
                    lemma_total_grows(counts@, i as int, counts@.len() as int);
                }
                return false;
            }
        }
        true
    }

    /// Goes on with a fit once the neighbours are counted: where each point's list will
    /// start, and the buffers and the launch of the pass that fills the lists.
    pub fn gather(
        &self,
        ctx: &mut MetalContext,
        pass: &CountPass,
        counts: &[u32],
        eps_squared: Float32,
    ) -> (r: GatherPass)
        requires
            counts@.len() == self.spec_shape().0,
            4 * (counts@.len() + 1) <= usize::MAX,
            total(counts@, counts@.len() as int) <= u32::MAX,
            4 * total(counts@, counts@.len() as int) <= usize::MAX,
            holds(old(ctx)@, pass.data),
        ensures
            r.offsets@ == offsets_of(counts@),
            ({
                let n = self.spec_shape().0;
                let sum = total(counts@, n as int);
                let slots = if sum > 1 {
                    sum
                } else {
                    1
                };
                &&& final(ctx)@ == old(ctx)@.push((4 * (n + 1)) as u64).push((4 * slots) as u64)
                &&& r.offsets_buffer == (Buffer {
                    id: old(ctx)@.len() as usize,
                    byte_len: (4 * (n + 1)) as u64,
                })
                &&& r.neighbors == (Buffer {
                    id: (old(ctx)@.len() + 1) as usize,
                    byte_len: (4 * slots) as u64,
                })
                &&& r.launch@ == gather_launch(
                    pass.data,
                    r.offsets_buffer,
                    r.neighbors,
                    n,
                    self.spec_shape().1,
                    eps_squared,
                )
                &&& r.launch@.bound_in(final(ctx)@)
            }),
    {
        let n: usize = self.n;
        let mut offsets: Vec<u32> = Vec::new();
        offsets.push(0);
        let mut i: usize = 0;
        while i < n
            invariant
                i <= n,
                n == counts@.len(),
                offsets@.len() == i + 1,
                total(counts@, n as int) <= u32::MAX,
                forall|j: int| 0 <= j <= i ==> #[trigger] offsets@[j] == total(counts@, j),
            decreases n - i,
        {
            proof {
                lemma_total_grows(counts@, i + 1, n as int);
            }
            let next: u32 = offsets[i] + counts[i];
            offsets.push(next);
            i += 1;
        }
        proof {
            lemma_offsets_grow(counts@);
            assert(offsets@ =~= offsets_of(counts@));
        }
        let listed: usize = offsets[n] as usize;
        let slots: usize = if listed > 1 {
            listed
        } else {
            1
        };
        let offsets_buffer: Buffer = ctx.new_buffer(offsets.len());
        let neighbors: Buffer = ctx.new_buffer_uninitialized((slots * 4) as u64);
        let launch = Launch {
            kernel: Kernel::DbscanGather,
            arguments: vec![
                Argument::Memory(pass.data),
                Argument::Memory(offsets_buffer),
                Argument::Memory(neighbors),
                Argument::Word(#[verifier::truncate] (n as u32)),
                Argument::Word(#[verifier::truncate] (self.d as u32)),
                Argument::Real(eps_squared),
            ],
            threadgroup_bytes: 0,
            groups: MTLSize::line(group_count(n as u64, 256)),
            threads: MTLSize::line(256),
        };
        assert(launch@.arguments =~= gather_launch(
            pass.data,
            offsets_buffer,
            neighbors,
            n,
            self.d,
            eps_squared,
        ).arguments);
        GatherPass { offsets, offsets_buffer, neighbors, launch }
    }

    /// Whether the lists that the device filled can be read: one list per point, and in the
    /// lists nothing but points.
    pub fn lists_valid(&self, counts: &[u32], offsets: &[u32], neighbors: &[u32]) -> (r: bool)
        ensures
            r == lists_readable(self.spec_shape().0, counts@, offsets@, neighbors@),
    {
        if counts.len() != self.n || offsets.len() == 0 || offsets.len() - 1 != self.n {
            return false;
        }
        let mut p: usize = 0;
        while p < self.n
            invariant
                p <= self.n,
                offsets@.len() == self.n + 1,
                forall|a: int, b: int|
                    0 <= a <= b <= p ==> #[trigger] offsets@[a] <= #[trigger] offsets@[b],
            decreases self.n - p,
        {
            if offsets[p] > offsets[p + 1] {
                return false;
            }
            p += 1;
        }
        if offsets[self.n] as usize > neighbors.len() {
            return false;
        }
        let mut i: usize = 0;
        while i < neighbors.len()
            invariant
                i <= neighbors@.len(),
                forall|k: int| 0 <= k < i ==> #[trigger] neighbors@[k] < self.n,
            decreases neighbors@.len() - i,
        {
            if neighbors[i] as usize >= self.n {
                return false;
            }
            i += 1;
        }
        true
    }

    /// Ends a fit: finds the core points, joins the ones within reach of each other, and
    /// labels every point.
    pub fn label(&mut self, counts: &[u32], offsets: &[u32], neighbors: &[u32])
        requires
            lists_readable(old(self).spec_shape().0, counts@, offsets@, neighbors@),
            old(self).spec_shape().0 <= isize::MAX,
        ensures
            (Neighborhoods {
                core: core_points(counts@, old(self).spec_config().min_samples),
                offsets: offsets@,
                neighbors: neighbors@,
            }).clustered(final(self).spec_labels(), final(self).spec_n_clusters() as int),
            final(self).spec_config() == old(self).spec_config(),
            final(self).spec_shape() == old(self).spec_shape(),
    {
        let n: usize = self.n;
        let min_samples: usize = self.config.min_samples;
        let mut core: Vec<bool> = Vec::new();
        let mut k: usize = 0;
        while k < n
            invariant
                k <= n,
                n == counts@.len(),
                core@.len() == k,
                forall|j: int| 0 <= j < k ==> core@[j] == (counts@[j] + 1 >= min_samples),
            decreases n - k,
        {
            core.push(counts[k] as u64 + 1 >= min_samples as u64);
            k += 1;
        }
        let ghost g = Neighborhoods { core: core@, offsets: offsets@, neighbors: neighbors@ };
        assert(core@ =~= core_points(counts@, min_samples));
        let uf: UnionFind = join_core_points(&core, offsets, neighbors);
        let (labels, clusters) = number_clusters(uf, &core, Ghost(g));
        let labels: Vec<isize> = attach_border_points(labels, clusters, &core, offsets, neighbors);
        self.labels = labels;
        self.n_clusters = clusters;
    }
}

/// Whether point `p`'s list runs from `offsets[p]` to `offsets[p + 1]`, for each of `n`
/// points, and the lists name points only.
pub open spec fn lists_readable(
    n: usize,
    counts: Seq<u32>,
    offsets: Seq<u32>,
    neighbors: Seq<u32>,
) -> bool {
    &&& counts.len() == n
    &&& offsets.len() == n + 1
    &&& forall|a: int, b: int|
        0 <= a <= b < offsets.len() ==> #[trigger] offsets[a] <= #[trigger] offsets[b]
    &&& offsets[n as int] <= neighbors.len()
    &&& forall|i: int| 0 <= i < neighbors.len() ==> #[trigger] neighbors[i] < n
}

/// The partition of the points in which two are together exactly when links connect them.
fn join_core_points(core: &Vec<bool>, offsets: &[u32], neighbors: &[u32]) -> (r: UnionFind)
    requires
        (Neighborhoods { core: core@, offsets: offsets@, neighbors: neighbors@ }).valid(),
    ensures
        r.wf(),
        r.size() == core@.len(),
        forall|x: int, y: int|
            0 <= x < core@.len() && 0 <= y < core@.len() ==> (#[trigger] r.same(x, y) <==> (
            Neighborhoods { core: core@, offsets: offsets@, neighbors: neighbors@ }).connected(
                x,
                y,
            )),
{
    let n: usize = core.len();
    let ghost g = Neighborhoods { core: core@, offsets: offsets@, neighbors: neighbors@ };
    let mut uf: UnionFind = UnionFind::new(n);
    proof {
        assert forall|x: int, y: int|
            0 <= x < n && 0 <= y < n && #[trigger] uf.same(x, y) implies g.connected(x, y) by {
            assert(uf.root(x) == x && uf.root(y) == y);
            lemma_connected_self(g, x);
        }
    }
    let mut p: usize = 0;
    while p < n
        invariant
            p <= n,
            n == core@.len(),
            g == (Neighborhoods { core: core@, offsets: offsets@, neighbors: neighbors@ }),
            g.valid(),
            uf.wf(),
            uf.size() == n,
            forall|x: int, y: int|
                0 <= x < n && 0 <= y < n && #[trigger] uf.same(x, y) ==> g.connected(x, y),
            forall|x: int, i: int|
                0 <= x < p && core@[x] && #[trigger] g.in_list(x, i)
                    && core@[neighbors@[i] as int] ==> uf.same(x, neighbors@[i] as int),
        decreases n - p,
    {
        if core[p] {
            let end: usize = offsets[p + 1] as usize;
            let mut i: usize = offsets[p] as usize;
            proof {
                assert(offsets@[p + 1] <= offsets@[n as int]);
                assert(offsets@[p as int] <= offsets@[p + 1]);
            }
            while i < end
                invariant
                    p < n,
                    n == core@.len(),
                    core@[p as int],
                    end == offsets@[p + 1],
                    offsets@[p as int] <= i <= end,
                    end <= neighbors@.len(),
                    g == (Neighborhoods { core: core@, offsets: offsets@, neighbors: neighbors@ }),
                    g.valid(),
                    uf.wf(),
                    uf.size() == n,
                    forall|x: int, y: int|
                        0 <= x < n && 0 <= y < n && #[trigger] uf.same(x, y) ==> g.connected(x, y),
                    forall|x: int, j: int|
                        0 <= x < p && core@[x] && #[trigger] g.in_list(x, j)
                            && core@[neighbors@[j] as int] ==> uf.same(x, neighbors@[j] as int),
                    forall|j: int|
                        offsets@[p as int] <= j < i && core@[#[trigger] neighbors@[j] as int]
                            ==> uf.same(p as int, neighbors@[j] as int),
                decreases end - i,
            {
                let q: usize = neighbors[i] as usize;
                assert(q < n);
                if core[q] {
                    let ghost before = uf;
                    uf.union(p, q);
                    proof {
                        assert(g.in_list(p as int, i as int));
                        assert(g.linked(p as int, q as int));
                        lemma_linked_connected(g, p as int, q as int);
                        lemma_connected_symmetric(g, p as int, q as int);
                        assert forall|x: int, y: int|
                            0 <= x < n && 0 <= y < n && #[trigger] uf.same(
                                x,
                                y,
                            ) implies g.connected(x, y) by {
                            assert(before.merged(p as int, q as int, x, y));
                            if before.same(x, p as int) && before.same(y, q as int) {
                                assert(before.same(q as int, y));
                                lemma_connected_transitive(g, x, p as int, q as int);
                                lemma_connected_transitive(g, x, q as int, y);
                            } else if before.same(x, q as int) && before.same(y, p as int) {
                                assert(before.same(p as int, y));
                                lemma_connected_transitive(g, x, q as int, p as int);
                                lemma_connected_transitive(g, x, p as int, y);
                            }
                        }
                        assert forall|x: int, j: int|
                            0 <= x < p && core@[x] && #[trigger] g.in_list(x, j)
                                && core@[neighbors@[j] as int] implies uf.same(
                            x,
                            neighbors@[j] as int,
                        ) by {
                            assert(offsets@[x + 1] <= offsets@[n as int]);
                            assert(neighbors@[j] < n);
                            assert(before.merged(p as int, q as int, x, neighbors@[j] as int));
                        }
                        assert forall|j: int|
                            offsets@[p as int] <= j < i + 1 && core@[#[trigger] neighbors@[
                            j] as int] implies uf.same(p as int, neighbors@[j] as int) by {
                            assert(neighbors@[j] < n);
                            assert(before.merged(
                                p as int,
                                q as int,
                                p as int,
                                neighbors@[j] as int,
                            ));
                        }
                    }
                }
                i += 1;
            }
            proof {
                assert forall|x: int, j: int|
                    0 <= x < p + 1 && core@[x] && #[trigger] g.in_list(x, j)
                        && core@[neighbors@[j] as int] implies uf.same(x, neighbors@[j] as int) by {
                    if x == p {
                        assert(offsets@[p as int] <= j < end);
                    }
                }
            }
        }
        p += 1;
    }
    proof {
        let roots = Seq::new(n as nat, |x: int| uf.root(x));
        assert forall|a: int, b: int| #[trigger] g.linked(a, b) implies roots[a] == roots[b] by {
            if g.lists(a, b) {
                let i = choose|i: int| #[trigger] g.in_list(a, i) && g.neighbors[i] == b;
                assert(uf.same(a, neighbors@[i] as int));
            } else {
                let i = choose|i: int| #[trigger] g.in_list(b, i) && g.neighbors[i] == a;
                assert(uf.same(b, neighbors@[i] as int));
            }
        }
        assert forall|x: int, y: int|
            0 <= x < n && 0 <= y < n implies (#[trigger] uf.same(x, y) <==> g.connected(x, y)) by {
            if g.connected(x, y) {
                let path = choose|path: Seq<int>|
                    #[trigger] g.is_path(path) && path[0] == x && path.last() == y;
                lemma_path_respects(g, roots, path);
            }
        }
    }
    uf
}

/// The labels of the core points, by the order in which their clusters come up, and the
/// number of clusters. Other points are left at `-1`.
fn number_clusters(uf: UnionFind, core: &Vec<bool>, Ghost(g): Ghost<Neighborhoods>) -> (r: (
    Vec<isize>,
    usize,
))
    requires
        uf.wf(),
        uf.size() == core@.len(),
        core@.len() <= isize::MAX,
        g.core == core@,
        forall|x: int, y: int|
            0 <= x < core@.len() && 0 <= y < core@.len() ==> (#[trigger] uf.same(x, y)
                <==> g.connected(x, y)),
    ensures
        r.0@.len() == core@.len(),
        r.1 == g.leaders(core@.len() as int),
        forall|p: int, q: int|
            0 <= p < core@.len() && 0 <= q < core@.len() && core@[p] && core@[q] ==> (
            #[trigger] r.0@[p] == #[trigger] r.0@[q] <==> g.connected(p, q)),
        forall|p: int|
            0 <= p < core@.len() && g.leader(p) ==> #[trigger] r.0@[p] == g.leaders(p),
        forall|p: int| 0 <= p < core@.len() && core@[p] ==> #[trigger] r.0@[p] >= 0,
        forall|p: int| 0 <= p < core@.len() && !core@[p] ==> #[trigger] r.0@[p] == -1,
{
    let n: usize = core.len();
    let mut uf: UnionFind = uf;
    let ghost roots = Seq::new(n as nat, |x: int| uf.root(x));
    proof {
        assert forall|x: int| 0 <= x < n implies 0 <= #[trigger] roots[x] < n by {
            uf.lemma_root(x);
        }
        assert forall|x: int, y: int| 0 <= x < n && 0 <= y < n implies (#[trigger] roots[x]
            == #[trigger] roots[y] <==> g.connected(x, y)) by {
            assert(uf.same(x, y) <==> g.connected(x, y));
        }
    }
    let mut cluster_of_root: Vec<isize> = Vec::new();
    let mut k: usize = 0;
    while k < n
        invariant
            k <= n,
            cluster_of_root@.len() == k,
            forall|j: int| 0 <= j < k ==> cluster_of_root@[j] == -1,
        decreases n - k,
    {
        cluster_of_root.push(-1);
        k += 1;
    }
    let mut next: usize = 0;
    let mut p: usize = 0;
    while p < n
        invariant
            p <= n,
            n == core@.len(),
            n <= isize::MAX,
            g.core == core@,
            uf.wf(),
            uf.size() == n,
            roots.len() == n,
            forall|x: int| 0 <= x < n ==> #[trigger] uf.root(x) == roots[x],
            forall|x: int| 0 <= x < n ==> 0 <= #[trigger] roots[x] < n,
            forall|x: int, y: int|
                0 <= x < n && 0 <= y < n ==> (#[trigger] roots[x] == #[trigger] roots[y]
                    <==> g.connected(x, y)),
            cluster_of_root@.len() == n,
            next == g.leaders(p as int),
            next <= p,
            forall|x: int|
                0 <= x < p && core@[x] ==> 0 <= cluster_of_root@[#[trigger] roots[x]] < next,
            forall|x: int|
                0 <= x < p && #[trigger] g.leader(x) ==> cluster_of_root@[roots[x]] == g.leaders(x),
            forall|r: int|
                0 <= r < n && #[trigger] cluster_of_root@[r] != -1 ==> exists|x: int|
                    0 <= x < p && core@[x] && #[trigger] roots[x] == r,
            forall|r: int, s: int|
                0 <= r < n && 0 <= s < n && r != s && #[trigger] cluster_of_root@[r] != -1
                    ==> cluster_of_root@[r] != #[trigger] cluster_of_root@[s],
        decreases n - p,
    {
        if core[p] {
            let root: usize = uf.find(p);
            assert(root == roots[p as int]);
            if cluster_of_root[root] == -1 {
                let ghost before = cluster_of_root@;
                proof {
                    assert forall|q: int| 0 <= q < p && core@[q] implies !#[trigger] g.connected(
                        q,
                        p as int,
                    ) by {
                        assert(before[roots[q]] != -1);
                        assert(roots[q] != roots[p as int]);
                    }
                    assert(g.leader(p as int));
                }
                cluster_of_root.set(root, next as isize);
                proof {
                    assert forall|x: int| 0 <= x < p + 1 && core@[x] implies 0
                        <= cluster_of_root@[#[trigger] roots[x]] < next + 1 by {}
                    assert forall|x: int| 0 <= x < p + 1 && #[trigger] g.leader(
                        x,
                    ) implies cluster_of_root@[roots[x]] == g.leaders(x) by {
                        if x < p {
                            assert(core@[x]);
                            assert(before[roots[x]] != -1);
                        }
                    }
                    assert forall|r: int| 0 <= r < n && #[trigger] cluster_of_root@[r] != -1 implies exists|
                        x: int,
                    | 0 <= x < p + 1 && core@[x] && #[trigger] roots[x] == r by {
                        if r == root {
                            assert(roots[p as int] == r);
                        } else {
                            assert(before[r] != -1);
                        }
                    }
                    assert forall|r: int, s: int|
                        0 <= r < n && 0 <= s < n && r != s && #[trigger] cluster_of_root@[r]
                            != -1 implies cluster_of_root@[r] != #[trigger] cluster_of_root@[s] by {
                        if r == root {
                            if before[s] != -1 {
                                let x = choose|x: int|
                                    0 <= x < p && core@[x] && #[trigger] roots[x] == s;
                                assert(before[roots[x]] < next);
                            }
                        } else if s == root {
                            let x = choose|x: int|
                                0 <= x < p && core@[x] && #[trigger] roots[x] == r;
                            assert(before[roots[x]] < next);
                        }
                    }
                }
                next += 1;
            } else {
                proof {
                    let x = choose|x: int|
                        0 <= x < p && core@[x] && #[trigger] roots[x] == roots[p as int];
                    assert(g.connected(x, p as int));
                    assert(!g.leader(p as int));
                }
            }
        }
        p += 1;
    }
    let mut labels: Vec<isize> = Vec::new();
    let mut p: usize = 0;
    while p < n
        invariant
            p <= n,
            n == core@.len(),
            uf.wf(),
            uf.size() == n,
            roots.len() == n,
            cluster_of_root@.len() == n,
            forall|x: int| 0 <= x < n ==> #[trigger] uf.root(x) == roots[x],
            forall|x: int| 0 <= x < n ==> 0 <= #[trigger] roots[x] < n,
            labels@.len() == p,
            forall|x: int|
                0 <= x < p ==> #[trigger] labels@[x] == if core@[x] {
                    cluster_of_root@[roots[x]]
                } else {
                    (-1) as isize
                },
        decreases n - p,
    {
        if core[p] {
            let root: usize = uf.find(p);
            assert(root == roots[p as int]);
            labels.push(cluster_of_root[root]);
        } else {
            labels.push(-1);
        }
        p += 1;
    }
    proof {
        assert forall|a: int, b: int|
            0 <= a < n && 0 <= b < n && core@[a] && core@[b] implies (#[trigger] labels@[a]
            == #[trigger] labels@[b] <==> g.connected(a, b)) by {
            assert(cluster_of_root@[roots[a]] >= 0);
            assert(cluster_of_root@[roots[b]] >= 0);
            assert(roots[a] == roots[b] <==> g.connected(a, b));
        }
    }
    (labels, next)
}

/// Gives each point that is no core point the label of the first core point in its list.
fn attach_border_points(
    core_labels: Vec<isize>,
    clusters: usize,
    core: &Vec<bool>,
    offsets: &[u32],
    neighbors: &[u32],
) -> (r: Vec<isize>)
    requires
        ({
            let g = Neighborhoods { core: core@, offsets: offsets@, neighbors: neighbors@ };
            &&& g.valid()
            &&& core_labels@.len() == core@.len()
            &&& clusters == g.leaders(core@.len() as int)
            &&& forall|p: int, q: int|
                0 <= p < core@.len() && 0 <= q < core@.len() && core@[p] && core@[q] ==> (
                #[trigger] core_labels@[p] == #[trigger] core_labels@[q] <==> g.connected(p, q))
            &&& forall|p: int|
                0 <= p < core@.len() && g.leader(p) ==> #[trigger] core_labels@[p] == g.leaders(p)
            &&& forall|p: int|
                0 <= p < core@.len() && core@[p] ==> #[trigger] core_labels@[p] >= 0
            &&& forall|p: int|
                0 <= p < core@.len() && !core@[p] ==> #[trigger] core_labels@[p] == -1
        }),
    ensures
        (Neighborhoods { core: core@, offsets: offsets@, neighbors: neighbors@ }).clustered(
            r@,
            clusters as int,
        ),
{
    let n: usize = core.len();
    let ghost g = Neighborhoods { core: core@, offsets: offsets@, neighbors: neighbors@ };
    let mut labels: Vec<isize> = core_labels;
    let mut p: usize = 0;
    while p < n
        invariant
            p <= n,
            n == core@.len(),
            labels@.len() == n,
            core_labels@.len() == n,
            g == (Neighborhoods { core: core@, offsets: offsets@, neighbors: neighbors@ }),
            g.valid(),
            forall|x: int| 0 <= x < n && core@[x] ==> #[trigger] core_labels@[x] >= 0,
            forall|x: int| 0 <= x < n && core@[x] ==> #[trigger] labels@[x] == core_labels@[x],
            forall|x: int| p <= x < n && !core@[x] ==> #[trigger] labels@[x] == -1,
            forall|x: int|
                0 <= x < p && !core@[x] ==> #[trigger] labels@[x] == (
                match g.first_core_neighbor(x) {
                    Some(i) => labels@[neighbors@[i] as int],
                    None => (-1) as isize,
                }),
        decreases n - p,
    {
        if !core[p] {
            proof {
                assert(offsets@[p + 1] <= offsets@[n as int]);
                assert(offsets@[p as int] <= offsets@[p + 1]);
                lemma_first_core(g, offsets@[p as int] as int, offsets@[p + 1] as int);
            }
            let found: Option<usize> = find_core(core, neighbors, offsets[p] as usize, offsets[p
                + 1] as usize);
            let ghost before = labels@;
            match found {
                Some(i) => {
                    let q: usize = neighbors[i] as usize;
                    if labels[q] >= 0 {
                        let label: isize = labels[q];
                        labels.set(p, label);
                    }
                },
                None => {},
            }
            proof {
                assert forall|x: int| 0 <= x < p + 1 && !core@[x] implies #[trigger] labels@[x]
                    == (match g.first_core_neighbor(x) {
                    Some(i) => labels@[neighbors@[i] as int],
                    None => (-1) as isize,
                }) by {
                    lemma_first_core(g, offsets@[x] as int, offsets@[x + 1] as int);
                    assert(offsets@[x + 1] <= offsets@[n as int]);
                    if x < p {
                        assert(labels@[x] == before[x]);
                    }
                }
            }
        }
        p += 1;
    }
    labels
}

fn find_core(core: &Vec<bool>, neighbors: &[u32], start: usize, end: usize) -> (r: Option<usize>)
    requires
        start <= end <= neighbors@.len(),
        forall|i: int| 0 <= i < neighbors@.len() ==> #[trigger] neighbors@[i] < core@.len(),
    ensures
        match first_core(core@, neighbors@, start as int, end as int) {
            Some(i) => r matches Some(k) && k == i,
            None => r is None,
        },
{
    let mut i: usize = start;
    while i < end
        invariant
            start <= i <= end <= neighbors@.len(),
            forall|k: int| 0 <= k < neighbors@.len() ==> #[trigger] neighbors@[k] < core@.len(),
            first_core(core@, neighbors@, start as int, end as int) == first_core(
                core@,
                neighbors@,
                i as int,
                end as int,
            ),
        decreases end - i,
    {
        if core[neighbors[i] as usize] {
            return Some(i);
        }
        i += 1;
    }
    None
}

/// A point is a core point exactly when it has `min_samples` points within reach, itself among
/// them.
pub proof fn lemma_core_points(counts: Seq<u32>, min_samples: usize, p: int)
    requires
        0 <= p < counts.len(),
    ensures
        core_points(counts, min_samples).len() == counts.len(),
        core_points(counts, min_samples)[p] <==> min_samples <= 1 + counts[p],
{
}

/// A point that is no core point connects nothing: links lead from it to itself alone.
pub proof fn lemma_only_core_points_connect(g: Neighborhoods, p: int, q: int)
    requires
        0 <= p < g.core.len(),
        !g.core[p],
        g.connected(p, q) || g.connected(q, p),
    ensures
        p == q,
{
    if !g.connected(p, q) {
        lemma_connected_symmetric(g, q, p);
    }
    let path = choose|path: Seq<int>|
        #[trigger] g.is_path(path) && path[0] == p && path.last() == q;
    if path.len() > 1 {
        assert(g.linked(path[0], path[1]));
    }
}

/// Two core points of which one lists the other have the same label.
pub proof fn lemma_core_neighbors_share_label(
    counts: Seq<u32>,
    min_samples: usize,
    offsets: Seq<u32>,
    neighbors: Seq<u32>,
    labels: Seq<isize>,
    n_clusters: int,
    p: int,
    i: int,
)
    requires
        lists_readable(counts.len() as usize, counts, offsets, neighbors),
        counts.len() <= usize::MAX,
        (Neighborhoods {
            core: core_points(counts, min_samples),
            offsets,
            neighbors,
        }).clustered(labels, n_clusters),
        0 <= p < counts.len(),
        offsets[p] <= i < offsets[p + 1],
        counts[p] + 1 >= min_samples,
        counts[neighbors[i] as int] + 1 >= min_samples,
    ensures
        labels[p] == labels[neighbors[i] as int],
{
    let g = Neighborhoods { core: core_points(counts, min_samples), offsets, neighbors };
    let q = neighbors[i] as int;
    assert(offsets[p + 1] <= offsets[counts.len() as int]);
    assert(g.in_list(p, i));
    assert(g.linked(p, q));
    lemma_linked_connected(g, p, q);
    assert(labels[p] == labels[q]);
}

/// Clusters are no larger than chains of core points make them. Whatever tells points apart, but
/// no two core points of which one lists the other, tells no two core points of one label apart:
/// neither a border point nor anything else bridges two clusters.
pub proof fn lemma_only_core_points_join_clusters(
    counts: Seq<u32>,
    min_samples: usize,
    offsets: Seq<u32>,
    neighbors: Seq<u32>,
    labels: Seq<isize>,
    n_clusters: int,
    part: spec_fn(int) -> int,
    p: int,
    q: int,
)
    requires
        lists_readable(counts.len() as usize, counts, offsets, neighbors),
        counts.len() <= usize::MAX,
        (Neighborhoods {
            core: core_points(counts, min_samples),
            offsets,
            neighbors,
        }).clustered(labels, n_clusters),
        forall|a: int, i: int|
            #![trigger offsets[a], neighbors[i]]
            0 <= a < counts.len() && offsets[a] <= i < offsets[a + 1] && counts[a] + 1
                >= min_samples && counts[neighbors[i] as int] + 1 >= min_samples ==> part(a)
                == part(neighbors[i] as int),
        0 <= p < counts.len(),
        0 <= q < counts.len(),
        counts[p] + 1 >= min_samples,
        counts[q] + 1 >= min_samples,
        labels[p] == labels[q],
    ensures
        part(p) == part(q),
{
    let g = Neighborhoods { core: core_points(counts, min_samples), offsets, neighbors };
    assert(g.core[p] && g.core[q]);
    assert(g.connected(p, q));
    let path = choose|path: Seq<int>|
        #[trigger] g.is_path(path) && path[0] == p && path.last() == q;
    let parts = Seq::new(counts.len(), |x: int| part(x));
    assert forall|a: int, b: int| #[trigger] g.linked(a, b) implies parts[a] == parts[b] by {
        if g.lists(a, b) {
            let i = choose|i: int| #[trigger] g.in_list(a, i) && g.neighbors[i] == b;
            assert(offsets[a] <= i < offsets[a + 1] && neighbors[i] == b);
        } else {
            let i = choose|i: int| #[trigger] g.in_list(b, i) && g.neighbors[i] == a;
            assert(offsets[b] <= i < offsets[b + 1] && neighbors[i] == a);
        }
    }
    lemma_path_respects(g, parts, path);
}

/// A point that is no core point has the label of the first core point in its list, and is noise
/// where its list names none.
pub proof fn lemma_border_points(
    counts: Seq<u32>,
    min_samples: usize,
    offsets: Seq<u32>,
    neighbors: Seq<u32>,
    labels: Seq<isize>,
    n_clusters: int,
    p: int,
    i: int,
)
    requires
        lists_readable(counts.len() as usize, counts, offsets, neighbors),
        counts.len() <= usize::MAX,
        (Neighborhoods {
            core: core_points(counts, min_samples),
            offsets,
            neighbors,
        }).clustered(labels, n_clusters),
        0 <= p < counts.len(),
        counts[p] + 1 < min_samples,
        offsets[p] <= i <= offsets[p + 1],
        forall|j: int|
            offsets[p] <= j < i ==> counts[#[trigger] neighbors[j] as int] + 1 < min_samples,
    ensures
        i < offsets[p + 1] && counts[neighbors[i] as int] + 1 >= min_samples ==> labels[p]
            == labels[neighbors[i] as int] && labels[p] >= 0,
        i == offsets[p + 1] ==> labels[p] == -1,
{
    let g = Neighborhoods { core: core_points(counts, min_samples), offsets, neighbors };
    let start = offsets[p] as int;
    let end = offsets[p + 1] as int;
    assert(offsets[p + 1] <= offsets[counts.len() as int]);
    assert forall|j: int| start <= j < i implies !g.core[#[trigger] g.neighbors[j] as int] by {
        assert(neighbors[j] < counts.len());
    }
    lemma_first_core(g, start, end);
    assert(!g.core[p]);
    assert(labels[p] == (match g.first_core_neighbor(p) {
        Some(k) => labels[neighbors[k] as int],
        None => (-1) as isize,
    }));
    if i < end && counts[neighbors[i] as int] + 1 >= min_samples {
        assert(g.core[g.neighbors[i] as int]);
        lemma_first_core_is_first(g, start, end);
        lemma_core_label_in_range(g, labels, n_clusters, neighbors[i] as int);
    }
}

proof fn lemma_first_core_is_first(g: Neighborhoods, i: int, end: int)
    ensures
        first_core(g.core, g.neighbors, i, end) matches Some(k) ==> forall|j: int|
            i <= j < k ==> !g.core[#[trigger] g.neighbors[j] as int],
    decreases end - i,
{
    if i < end && !g.core[g.neighbors[i] as int] {
        lemma_first_core_is_first(g, i + 1, end);
    }
}

/// Clusters are numbered from zero in the order in which their first core points come: where the
/// label of a core point is that of no core point before it, it is larger than all of theirs,
/// and one less is the label of one of them, unless it is zero.
pub proof fn lemma_clusters_numbered_in_order(
    counts: Seq<u32>,
    min_samples: usize,
    offsets: Seq<u32>,
    neighbors: Seq<u32>,
    labels: Seq<isize>,
    n_clusters: int,
    p: int,
    q: int,
)
    requires
        lists_readable(counts.len() as usize, counts, offsets, neighbors),
        counts.len() <= usize::MAX,
        (Neighborhoods {
            core: core_points(counts, min_samples),
            offsets,
            neighbors,
        }).clustered(labels, n_clusters),
        0 <= q < counts.len(),
        counts[q] + 1 >= min_samples,
        forall|r: int|
            0 <= r < q && counts[r] + 1 >= min_samples ==> #[trigger] labels[r] != labels[q],
    ensures
        0 <= labels[q] < n_clusters,
        0 <= p < q && counts[p] + 1 >= min_samples ==> labels[p] < labels[q],
        labels[q] > 0 ==> exists|r: int|
            0 <= r < q && counts[r] + 1 >= min_samples && #[trigger] labels[r] == labels[q] - 1,
{
    let g = Neighborhoods { core: core_points(counts, min_samples), offsets, neighbors };
    assert(g.core[q]);
    assert forall|r: int| 0 <= r < q && g.core[r] implies !#[trigger] g.connected(r, q) by {
        assert(labels[r] != labels[q]);
    }
    assert(g.leader(q));
    lemma_core_label_in_range(g, labels, n_clusters, q);
    if 0 <= p < q && counts[p] + 1 >= min_samples {
        assert(g.core[p]);
        let first = lemma_leader_exists(g, p);
        assert(labels[first] == labels[p]);
        lemma_labels_are_ordered(g, labels, n_clusters, first, q);
    }
    if labels[q] > 0 {
        assert(labels[q] == g.leaders(q));
        let r = lemma_nth_leader(g, q, labels[q] - 1);
        assert(labels[r] == labels[q] - 1);
        assert(g.core[r]);
    }
}

/// The list of a point begins where that of the point before ends, and has room for as many
/// points as were counted.
pub proof fn lemma_lists_follow_counts(counts: Seq<u32>, p: int)
    requires
        total(counts, counts.len() as int) <= u32::MAX,
        0 <= p < counts.len(),
    ensures
        offsets_of(counts).len() == counts.len() + 1,
        offsets_of(counts)[0] == 0,
        offsets_of(counts)[p + 1] == offsets_of(counts)[p] + counts[p],
        offsets_of(counts)[p + 1] <= total(counts, counts.len() as int),
{
    lemma_offsets_grow(counts);
    lemma_total_grows(counts, p + 1, counts.len() as int);
    assert(offsets_of(counts)[p + 1] == total(counts, p + 1));
    assert(offsets_of(counts)[p] == total(counts, p));
    assert(offsets_of(counts)[0] == total(counts, 0));
}

/// What the two passes bind, and that each has a thread for every point.
pub proof fn lemma_passes_reach_every_point(
    a: Buffer,
    b: Buffer,
    c: Buffer,
    n: usize,
    d: usize,
    eps_squared: Float32,
)
    ensures
        ({
            let l = count_launch(a, b, n, d, eps_squared);
            &&& l.kernel == Kernel::DbscanCount
            &&& l.arguments.len() == 5
            &&& l.arguments[0] == Argument::Memory(a)
            &&& l.arguments[1] == Argument::Memory(b)
            &&& l.arguments[2] == Argument::Word(n as u32)
            &&& l.arguments[3] == Argument::Word(d as u32)
            &&& l.arguments[4] == Argument::Real(eps_squared)
            &&& l.threadgroup_bytes == 0
            &&& l.groups.width * l.threads.width >= n
            &&& l.threads.width == 256
        }),
        ({
            let l = gather_launch(a, b, c, n, d, eps_squared);
            &&& l.kernel == Kernel::DbscanGather
            &&& l.arguments.len() == 6
            &&& l.arguments[0] == Argument::Memory(a)
            &&& l.arguments[1] == Argument::Memory(b)
            &&& l.arguments[2] == Argument::Memory(c)
            &&& l.arguments[3] == Argument::Word(n as u32)
            &&& l.arguments[4] == Argument::Word(d as u32)
            &&& l.arguments[5] == Argument::Real(eps_squared)
            &&& l.threadgroup_bytes == 0
            &&& l.groups.width * l.threads.width >= n
            &&& l.threads.width == 256
        }),
{
    lemma_line_covers(n as int, 256);
}

/// A fit is taken exactly when there are points, the data are theirs, the reach is above zero and
/// a cluster needs a point; the first of these that fails says why it is refused.
pub proof fn lemma_refusals(config: DBSCANConfig, len: usize, n: usize, d: usize)
    ensures
        fit_refusal(config, len, n, d) is None <==> n > 0 && d > 0 && len == n * d && (Float32 {
            bits: 0,
        }).lt(config.eps) && config.min_samples > 0,
        n == 0 || d == 0 ==> fit_refusal(config, len, n, d) == Some(
            DBSCANError::InvalidParameters { n, d },
        ),
        n > 0 && d > 0 && len != n * d ==> fit_refusal(config, len, n, d) == Some(
            DBSCANError::DataLength { n, d, got: len },
        ),
        n > 0 && d > 0 && len == n * d && !(Float32 { bits: 0 }).lt(config.eps) ==> fit_refusal(
            config,
            len,
            n,
            d,
        ) == Some(DBSCANError::Eps(config.eps)),
        n > 0 && d > 0 && len == n * d && (Float32 { bits: 0 }).lt(config.eps)
            && config.min_samples == 0 ==> fit_refusal(config, len, n, d) == Some(
            DBSCANError::MinSamples(0),
        ),
{
}

} // verus!
