//! The points that become the first centroids of a clustering, drawn one after the other.

use vstd::prelude::*;
use crate::float::Float32;
use crate::rng::Rng;
#[allow(unused_imports)]
use crate::matrix::{entry, rows_of};
#[allow(unused_imports)]
use crate::rng::index_draw;
#[allow(unused_imports)]
use crate::shape::{lemma_matrix_index, lemma_matrix_position};

verus! {

/// A seeding by k-means++: points are drawn one after the other, each by its distance to those
/// drawn before.
pub struct Seeding {
    pub rng: Rng,
    pub n: usize,
    pub d: usize,
    pub k: usize,
    /// The points drawn so far.
    pub picks: Vec<usize>,
    /// Their coordinates.
    pub centroids: Vec<Float32>,
}

impl Seeding {
    /// Whether the centroids are the points of `data` that were drawn.
    pub open spec fn wf(&self, data: Seq<Float32>) -> bool {
        &&& 0 < self.n
        &&& 0 < self.d
        &&& 1 <= self.picks@.len() <= self.k
        &&& data.len() == self.n * self.d
        &&& forall|i: int| 0 <= i < self.picks@.len() ==> #[trigger] self.picks@[i] < self.n
        &&& self.centroids@ == rows_of(data, self.d as int, self.picks@)
    }

    /// Draws the first point.
    pub fn new(data: &[Float32], n: usize, d: usize, k: usize, seed: u64) -> (r: Seeding)
        requires
            0 < n,
            0 < d,
            0 < k,
            data@.len() == n * d,
        ensures
            r.wf(data@),
            r.n == n,
            r.d == d,
            r.k == k,
            r.picks@.len() == 1,
            (r.picks@[0], r.rng.state) == index_draw(seed, n, usize::BITS),
    {
        let mut rng: Rng = Rng::with_seed(seed);
        let first: usize = rng.index(n);
        let mut seeding = Seeding { rng, n, d, k, picks: Vec::new(), centroids: Vec::new() };
        proof {
            assert(seeding.picks@.len() * d == 0) by (nonlinear_arith)
                requires
                    seeding.picks@.len() == 0,
            ;
            assert(seeding.centroids@ =~= rows_of(data@, d as int, seeding.picks@));
        }
        seeding.append(data, first);
        seeding
    }

    /// Takes the coordinates of the point `pick` in.
    pub(crate) fn append(&mut self, data: &[Float32], pick: usize)
        requires
            0 < old(self).n,
            0 < old(self).d,
            data@.len() == old(self).n * old(self).d,
            old(self).centroids@ == rows_of(data@, old(self).d as int, old(self).picks@),
            forall|i: int|
                0 <= i < old(self).picks@.len() ==> #[trigger] old(self).picks@[i] < old(self).n,
            pick < old(self).n,
        ensures
            final(self).n == old(self).n,
            final(self).d == old(self).d,
            final(self).k == old(self).k,
            final(self).rng == old(self).rng,
            final(self).picks@ == old(self).picks@.push(pick),
            final(self).centroids@ == rows_of(data@, old(self).d as int, final(self).picks@),
    {
        let len: usize = data.len();
        let d: usize = self.d;
        let ghost before = self.picks@;
        let ghost after = before.push(pick);
        let ghost whole = rows_of(data@, d as int, after);
        let ghost count = before.len() as int;
        self.picks.push(pick);
        let mut dim: usize = 0;
        proof {
            assert(count * d >= 0) by (nonlinear_arith)
                requires
                    count >= 0,
                    d > 0,
            ;
            assert((count + 1) * d == count * d + d) by (nonlinear_arith);
            assert forall|i: int| 0 <= i < count * d implies self.centroids@[i] == #[trigger] whole[
            i] by {
                assert(0 <= i / (d as int) < count) by (nonlinear_arith)
                    requires
                        0 <= i < count * d,
                        d > 0,
                ;
                assert(after[i / (d as int)] == before[i / (d as int)]);
            }
            assert(self.centroids@ =~= whole.take(count * d));
        }
        while dim < d
            invariant
                dim <= d,
                d == self.d,
                len == data@.len(),
                len == self.n * d,
                pick < self.n,
                after == before.push(pick),
                count == before.len(),
                whole == rows_of(data@, d as int, after),
                whole.len() == (count + 1) * d,
                (count + 1) * d == count * d + d,
                0 <= count * d,
                self.n == old(self).n,
                self.d == old(self).d,
                self.k == old(self).k,
                self.rng == old(self).rng,
                self.picks@ == after,
                self.centroids@ == whole.take(count * d + dim),
            decreases d - dim,
        {
            proof {
                lemma_matrix_index(self.n as int, d as int, pick as int, dim as int);
                lemma_matrix_position(d as int, count, dim as int);
            }
            let value: Float32 = data[pick * d + dim];
            self.centroids.push(value);
            assert(whole[count * d + dim] == value);
            dim += 1;
            assert(self.centroids@ =~= whole.take(count * d + dim));
        }
        assert(self.centroids@ =~= whole);
    }

    /// Whether all centroids are drawn.
    pub fn done(&self) -> (r: bool)
        ensures
            r == (self.picks@.len() >= self.k),
    {
        self.picks.len() >= self.k
    }

    /// Draws the next point, each with the same chance.
    pub fn draw_uniform(&mut self, data: &[Float32])
        requires
            old(self).wf(data@),
            old(self).picks@.len() < old(self).k,
        ensures
            final(self).wf(data@),
            final(self).n == old(self).n,
            final(self).d == old(self).d,
            final(self).k == old(self).k,
            ({
                let (pick, state) = index_draw(old(self).rng.state, old(self).n, usize::BITS);
                final(self).picks@ == old(self).picks@.push(pick) && final(self).rng.state == state
            }),
    {
        let pick: usize = self.rng.index(self.n);
        self.append(data, pick);
    }

}

/// Every centroid is a point of the data, coordinate by coordinate, and there is one for each
/// point that was drawn.
pub proof fn lemma_centroids_are_points(seeding: Seeding, data: Seq<Float32>, c: int, j: int)
    requires
        seeding.wf(data),
        0 <= c < seeding.picks@.len(),
        0 <= j < seeding.d,
    ensures
        seeding.centroids@.len() == seeding.picks@.len() * seeding.d,
        0 <= seeding.picks@[c] < seeding.n,
        entry(seeding.centroids@, seeding.d as int, c, j) == entry(
            data,
            seeding.d as int,
            seeding.picks@[c] as int,
            j,
        ),
{
    lemma_matrix_index(seeding.picks@.len() as int, seeding.d as int, c, j);
    lemma_matrix_position(seeding.d as int, c, j);
}

/// Seeding is reproducible: the points that were drawn say what the centroids are.
pub proof fn lemma_seeding_reproducible(seeding: Seeding, other: Seeding, data: Seq<Float32>)
    requires
        seeding.wf(data),
        other.wf(data),
        seeding.d == other.d,
        seeding.picks@ == other.picks@,
    ensures
        seeding.centroids@ == other.centroids@,
{
}

} // verus!
