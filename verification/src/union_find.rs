//! Disjoint sets over `0..n`, with union by rank and path halving.

use vstd::prelude::*;
#[allow(unused_imports)]
use vstd::arithmetic::logarithm::{lemma_log_is_ordered, lemma_log_pow, log};
#[allow(unused_imports)]
use vstd::arithmetic::power2::{lemma2_to64, lemma_pow2, lemma_pow2_pos, lemma_pow2_strictly_increases, lemma_pow2_unfold, pow2};

verus! {

/// A partition of `0..n` into sets, each known by its root.
pub struct UnionFind {
    parent: Vec<usize>,
    rank: Vec<usize>,
}

/// How many of the first `k` elements are their own parents.
spec fn root_count(parent: Seq<usize>, k: int) -> int
    decreases k,
{
    if k <= 0 {
        0
    } else {
        root_count(parent, k - 1) + if parent[k - 1] == k - 1 {
            1int
        } else {
            0
        }
    }
}

/// Whether parents lie in range and outrank their children, and the ranks leave room for
/// every union that is still possible.
spec fn forest(parent: Seq<usize>, rank: Seq<usize>) -> bool {
    &&& parent.len() == rank.len()
    &&& forall|i: int| 0 <= i < parent.len() ==> #[trigger] parent[i] < parent.len()
    &&& forall|i: int|
        0 <= i < parent.len() && #[trigger] parent[i] != i ==> rank[i] < rank[parent[i] as int]
    &&& forall|i: int|
        0 <= i < parent.len() ==> #[trigger] rank[i] + root_count(parent, parent.len() as int)
            <= parent.len()
}

/// The end of the chain of parents that starts at `x`.
spec fn chain_end(parent: Seq<usize>, rank: Seq<usize>, x: int) -> int
    decreases parent.len() - rank[x],
    when forest(parent, rank) && 0 <= x < parent.len()
{
    proof {
        lemma_root_count_bounds(parent, parent.len() as int);
    }
    if parent[x] == x {
        x
    } else {
        chain_end(parent, rank, parent[x] as int)
    }
}

proof fn lemma_root_count_bounds(parent: Seq<usize>, k: int)
    ensures
        root_count(parent, k) >= 0,
        k >= 0 ==> root_count(parent, k) <= k,
    decreases k,
{
    if k > 0 {
        lemma_root_count_bounds(parent, k - 1);
    }
}

proof fn lemma_root_count_positive(parent: Seq<usize>, k: int, r: int)
    requires
        0 <= r < k,
        parent[r] == r,
    ensures
        root_count(parent, k) >= 1,
    decreases k,
{
    lemma_root_count_bounds(parent, k - 1);
    if r < k - 1 {
        lemma_root_count_positive(parent, k - 1, r);
    }
}

/// Giving `x` the parent `p`, which is not `x`, takes one root away where `x` was one.
proof fn lemma_root_count_update(parent: Seq<usize>, k: int, x: int, p: usize)
    requires
        0 <= k <= parent.len(),
        0 <= x < parent.len(),
        p != x,
    ensures
        root_count(parent.update(x, p), k) == root_count(parent, k) - (if x < k && parent[x] == x {
            1int
        } else {
            0
        }),
    decreases k,
{
    if k > 0 {
        lemma_root_count_update(parent, k - 1, x, p);
    }
}

proof fn lemma_root_count_identity(parent: Seq<usize>, k: int)
    requires
        0 <= k <= parent.len(),
        forall|i: int| 0 <= i < parent.len() ==> parent[i] == i,
    ensures
        root_count(parent, k) == k,
    decreases k,
{
    if k > 0 {
        lemma_root_count_identity(parent, k - 1);
    }
}

proof fn lemma_chain_end_is_root(parent: Seq<usize>, rank: Seq<usize>, x: int)
    requires
        forest(parent, rank),
        0 <= x < parent.len(),
    ensures
        0 <= chain_end(parent, rank, x) < parent.len(),
        parent[chain_end(parent, rank, x)] == chain_end(parent, rank, x),
        parent[x] != x ==> rank[x] < rank[chain_end(parent, rank, x)],
    decreases parent.len() - rank[x],
{
    lemma_root_count_bounds(parent, parent.len() as int);
    if parent[x] != x {
        lemma_chain_end_is_root(parent, rank, parent[x] as int);
    }
}

/// How many links the chain of parents has that starts at `x`.
spec fn chain_length(parent: Seq<usize>, rank: Seq<usize>, x: int) -> nat
    decreases parent.len() - rank[x],
    when forest(parent, rank) && 0 <= x < parent.len()
{
    proof {
        lemma_root_count_bounds(parent, parent.len() as int);
    }
    if parent[x] == x {
        0
    } else {
        1 + chain_length(parent, rank, parent[x] as int)
    }
}

/// Ranks rise by one at least with every link, so a chain has no more links than the rank of
/// its end allows.
proof fn lemma_chain_length(parent: Seq<usize>, rank: Seq<usize>, x: int)
    requires
        forest(parent, rank),
        0 <= x < parent.len(),
    ensures
        rank[x] + chain_length(parent, rank, x) <= rank[chain_end(parent, rank, x)],
    decreases parent.len() - rank[x],
{
    lemma_root_count_bounds(parent, parent.len() as int);
    if parent[x] != x {
        lemma_chain_length(parent, rank, parent[x] as int);
    }
}

/// Letting `x` point to its parent's parent changes no chain's end.
proof fn lemma_halving(parent: Seq<usize>, rank: Seq<usize>, x: int)
    requires
        forest(parent, rank),
        0 <= x < parent.len(),
        parent[x] != x,
    ensures
        forest(parent.update(x, parent[parent[x] as int]), rank),
        forall|y: int|
            0 <= y < parent.len() ==> #[trigger] chain_end(
                parent.update(x, parent[parent[x] as int]),
                rank,
                y,
            ) == chain_end(parent, rank, y),
{
    let up = parent[parent[x] as int];
    let halved = parent.update(x, up);
    assert(rank[x] < rank[parent[x] as int]);
    assert(rank[parent[x] as int] <= rank[up as int]);
    lemma_root_count_update(parent, parent.len() as int, x, up);
    assert forall|i: int| 0 <= i < halved.len() && #[trigger] halved[i] != i implies rank[i]
        < rank[halved[i] as int] by {
        assert(parent[i] != i);
    }
    assert forall|i: int| 0 <= i < halved.len() implies #[trigger] rank[i] + root_count(
        halved,
        halved.len() as int,
    ) <= halved.len() by {}
    assert forall|i: int| 0 <= i < halved.len() implies #[trigger] halved[i] < halved.len() by {
        assert(parent[i] < parent.len());
    }
    assert forall|y: int| 0 <= y < parent.len() implies #[trigger] chain_end(halved, rank, y)
        == chain_end(parent, rank, y) by {
        lemma_halving_chain(parent, rank, x, y);
    }
}

proof fn lemma_halving_chain(parent: Seq<usize>, rank: Seq<usize>, x: int, y: int)
    requires
        forest(parent, rank),
        0 <= x < parent.len(),
        0 <= y < parent.len(),
        parent[x] != x,
        forest(parent.update(x, parent[parent[x] as int]), rank),
    ensures
        chain_end(parent.update(x, parent[parent[x] as int]), rank, y) == chain_end(
            parent,
            rank,
            y,
        ),
    decreases parent.len() - rank[y],
{
    let p = parent[x] as int;
    let up = parent[p] as int;
    let halved = parent.update(x, up as usize);
    lemma_root_count_bounds(parent, parent.len() as int);
    if y == x {
        assert(rank[x] < rank[p]);
        assert(rank[p] <= rank[up]);
        lemma_halving_chain(parent, rank, x, up);
        assert(chain_end(halved, rank, y) == chain_end(halved, rank, up));
        assert(chain_end(parent, rank, y) == chain_end(parent, rank, p));
        assert(chain_end(parent, rank, p) == chain_end(parent, rank, up));
    } else if parent[y] != y {
        lemma_halving_chain(parent, rank, x, parent[y] as int);
        assert(halved[y] == parent[y]);
    } else {
        assert(halved[y] == y);
    }
}

/// Hanging the root `low` below the root `high` gives every chain that ended at `low` the
/// end `high`, and changes no other.
proof fn lemma_hang_chain(
    parent: Seq<usize>,
    rank: Seq<usize>,
    hung: Seq<usize>,
    ranks: Seq<usize>,
    low: int,
    high: int,
    y: int,
)
    requires
        forest(parent, rank),
        0 <= low < parent.len(),
        0 <= high < parent.len(),
        low != high,
        parent[low] == low,
        parent[high] == high,
        hung == parent.update(low, high as usize),
        forest(hung, ranks),
        0 <= y < parent.len(),
    ensures
        chain_end(hung, ranks, y) == if chain_end(parent, rank, y) == low {
            high
        } else {
            chain_end(parent, rank, y)
        },
    decreases parent.len() - rank[y],
{
    lemma_root_count_bounds(parent, parent.len() as int);
    assert(chain_end(hung, ranks, high) == high);
    if y == low {
        assert(chain_end(hung, ranks, y) == chain_end(hung, ranks, high));
    } else if parent[y] != y {
        lemma_hang_chain(parent, rank, hung, ranks, low, high, parent[y] as int);
    }
}

/// Two chains that end at the same root are as long as they need to be: the roots of a
/// forest that hangs one tree below another still outrank their children.
proof fn lemma_hang_forest(
    parent: Seq<usize>,
    rank: Seq<usize>,
    ranks: Seq<usize>,
    low: int,
    high: int,
)
    requires
        forest(parent, rank),
        0 <= low < parent.len(),
        0 <= high < parent.len(),
        low != high,
        parent[low] == low,
        parent[high] == high,
        ranks == rank && rank[low] < rank[high] || rank[low] == rank[high] && ranks == rank.update(
            high,
            (rank[high] + 1) as usize,
        ) && rank[high] + 1 <= usize::MAX,
    ensures
        forest(parent.update(low, high as usize), ranks),
{
    let hung = parent.update(low, high as usize);
    lemma_root_count_update(parent, parent.len() as int, low, high as usize);
    assert forall|i: int| 0 <= i < hung.len() && #[trigger] hung[i] != i implies ranks[i]
        < ranks[hung[i] as int] by {
        if i != low {
            assert(parent[i] != i);
            assert(i != high);
        }
    }
    assert forall|i: int| 0 <= i < hung.len() implies #[trigger] ranks[i] + root_count(
        hung,
        hung.len() as int,
    ) <= hung.len() by {
        assert(rank[i] + root_count(parent, parent.len() as int) <= parent.len());
    }
    assert forall|i: int| 0 <= i < hung.len() implies #[trigger] hung[i] < hung.len() by {
        assert(parent[i] < parent.len());
    }
}

/// No set has more elements than there are.
proof fn lemma_members_bounded(sets: UnionFind, x: int, k: int)
    requires
        0 <= k,
    ensures
        sets.members(x, k) <= k,
    decreases k,
{
    if k > 0 {
        lemma_members_bounded(sets, x, k - 1);
    }
}

/// A set has at least the element that is known to be in it.
proof fn lemma_member_counted(sets: UnionFind, x: int, y: int, k: int)
    requires
        0 <= y < k,
        sets.root(y) == x,
    ensures
        sets.members(x, k) >= 1,
    decreases k,
{
    if y < k - 1 {
        lemma_member_counted(sets, x, y, k - 1);
    }
}

/// Where the roots are the same, the sets have the same sizes.
proof fn lemma_members_kept(before: UnionFind, after: UnionFind, x: int, k: int)
    requires
        forall|y: int| 0 <= y < k ==> #[trigger] after.root(y) == before.root(y),
    ensures
        after.members(x, k) == before.members(x, k),
    decreases k,
{
    if k > 0 {
        lemma_members_kept(before, after, x, k - 1);
        assert(after.root(k - 1) == before.root(k - 1));
    }
}

/// A set that takes another one in has the elements of both; the rest are as large as before.
proof fn lemma_members_joined(
    before: UnionFind,
    after: UnionFind,
    low: int,
    high: int,
    x: int,
    k: int,
)
    requires
        low != high,
        forall|y: int|
            0 <= y < k ==> #[trigger] after.root(y) == (if before.root(y) == low {
                high
            } else {
                before.root(y)
            }),
    ensures
        after.members(high, k) == before.members(high, k) + before.members(low, k),
        x != low && x != high ==> after.members(x, k) == before.members(x, k),
    decreases k,
{
    if k > 0 {
        lemma_members_joined(before, after, low, high, x, k - 1);
        assert(after.root(k - 1) == (if before.root(k - 1) == low {
            high
        } else {
            before.root(k - 1)
        }));
    }
}

/// Shorter chains with the same ends and ranks leave every set as large as it has to be.
proof fn lemma_still_outweighs(before: UnionFind, after: UnionFind)
    requires
        before.wf(),
        forest(after.parent@, after.rank@),
        after.size() == before.size(),
        after.rank@ == before.rank@,
        forall|y: int| 0 <= y < before.size() ==> after.root(y) == #[trigger] before.root(y),
    ensures
        after.wf(),
{
    assert forall|x: int| 0 <= x < after.size() && after.parent@[x] == x implies #[trigger] after.outweighs(
        x,
    ) by {
        assert(after.root(x) == x);
        assert(before.root(x) == x);
        lemma_chain_end_is_root(before.parent@, before.rank@, x);
        assert(before.outweighs(x));
        assert forall|y: int| 0 <= y < after.size() implies #[trigger] after.root(y)
            == before.root(y) by {
            assert(before.root(y) == after.root(y));
        }
        lemma_members_kept(before, after, x, after.size() as int);
    }
}

/// Hanging the root `low` below the root `high` leaves every set as large as it has to be:
/// `high` gets a higher rank only where both sets were as large as the same rank asks for.
proof fn lemma_hung_outweighs(before: UnionFind, after: UnionFind, low: int, high: int)
    requires
        before.wf(),
        forest(after.parent@, after.rank@),
        0 <= low < before.size(),
        0 <= high < before.size(),
        low != high,
        before.parent@[low] == low,
        before.parent@[high] == high,
        after.parent@ == before.parent@.update(low, high as usize),
        after.rank@ == before.rank@ && before.rank@[low] < before.rank@[high]
            || before.rank@[low] == before.rank@[high] && after.rank@ == before.rank@.update(
            high,
            (before.rank@[high] + 1) as usize,
        ) && before.rank@[high] + 1 <= usize::MAX,
    ensures
        after.wf(),
{
    let n = before.size() as int;
    assert forall|y: int| 0 <= y < n implies #[trigger] after.root(y) == (if before.root(y) == low {
        high
    } else {
        before.root(y)
    }) by {
        lemma_hang_chain(
            before.parent@,
            before.rank@,
            after.parent@,
            after.rank@,
            low,
            high,
            y,
        );
    }
    assert forall|x: int| 0 <= x < after.size() && after.parent@[x] == x implies #[trigger] after.outweighs(
        x,
    ) by {
        assert(before.parent@[x] == x);
        assert(before.outweighs(x));
        lemma_members_joined(before, after, low, high, x, n);
        if x == high {
            assert(before.outweighs(low));
            lemma_pow2_unfold(before.height(high) + 1);
        }
    }
}

impl UnionFind {
    /// How many elements there are.
    pub closed spec fn size(&self) -> nat {
        self.parent@.len()
    }

    /// The invariant: parents outrank their children, and the set of a root of rank `r` has
    /// `2^r` elements at least.
    pub closed spec fn wf(&self) -> bool {
        &&& forest(self.parent@, self.rank@)
        &&& forall|x: int|
            0 <= x < self.size() && self.parent@[x] == x ==> #[trigger] self.outweighs(x)
    }

    /// Whether the set of the root `x` is as large as the rank of `x` asks for.
    spec fn outweighs(&self, x: int) -> bool {
        pow2(self.height(x)) <= self.members(x, self.size() as int)
    }

    /// The parent of `x`; a root is its own.
    pub closed spec fn above(&self, x: int) -> int {
        self.parent@[x] as int
    }

    /// How many links lie between `x` and the root of its set.
    pub closed spec fn depth(&self, x: int) -> nat {
        chain_length(self.parent@, self.rank@, x)
    }

    /// How many of the first `k` elements have the root `x`.
    pub open spec fn members(&self, x: int, k: int) -> nat
        decreases k,
    {
        if k <= 0 {
            0
        } else {
            self.members(x, k - 1) + if self.root(k - 1) == x {
                1nat
            } else {
                0
            }
        }
    }

    /// The root of the set that holds `x`.
    pub closed spec fn root(&self, x: int) -> int {
        chain_end(self.parent@, self.rank@, x)
    }

    /// The rank of `x`: how high a tree with the root `x` may be.
    pub closed spec fn height(&self, x: int) -> nat {
        self.rank@[x] as nat
    }

    /// The root that stays one when the sets of `a` and `b` are put together: the higher one,
    /// or that of `a` where they are equally high.
    pub open spec fn upper(&self, a: int, b: int) -> int {
        if self.height(self.root(a)) < self.height(self.root(b)) {
            self.root(b)
        } else {
            self.root(a)
        }
    }

    /// Whether `x` and `y` are in one set.
    pub open spec fn same(&self, x: int, y: int) -> bool {
        self.root(x) == self.root(y)
    }

    /// Whether `x` and `y` are in one set once the sets of `a` and `b` are put together.
    pub open spec fn merged(&self, a: int, b: int, x: int, y: int) -> bool {
        ||| self.same(x, y)
        ||| self.same(x, a) && self.same(y, b)
        ||| self.same(x, b) && self.same(y, a)
    }

    /// A root lies in its own set.
    pub proof fn lemma_root(&self, x: int)
        requires
            self.wf(),
            0 <= x < self.size(),
        ensures
            0 <= self.root(x) < self.size(),
            self.root(self.root(x)) == self.root(x),
    {
        lemma_chain_end_is_root(self.parent@, self.rank@, x);
    }

    /// Parents are elements and outrank their children, so that following them never comes
    /// back; the root of a set is where they end.
    pub proof fn lemma_links(&self, x: int)
        requires
            self.wf(),
            0 <= x < self.size(),
        ensures
            0 <= self.above(x) < self.size(),
            self.above(x) != x ==> self.height(x) < self.height(self.above(x)),
            self.root(x) == (if self.above(x) == x {
                x
            } else {
                self.root(self.above(x))
            }),
            self.depth(x) == (if self.above(x) == x {
                0
            } else {
                1 + self.depth(self.above(x))
            }),
    {
    }

    /// A set whose root has the rank `r` has `2^r` elements at least. No element is further
    /// from its root than the rank of the root, so no path is longer than the logarithm of
    /// the number of all elements.
    pub proof fn lemma_paths_are_short(&self, x: int)
        requires
            self.wf(),
            0 <= x < self.size(),
        ensures
            pow2(self.height(self.root(x))) <= self.members(self.root(x), self.size() as int),
            self.members(self.root(x), self.size() as int) <= self.size(),
            self.depth(x) <= self.height(self.root(x)),
            self.depth(x) <= log(2, self.size() as int),
    {
        let end = self.root(x);
        lemma_chain_end_is_root(self.parent@, self.rank@, x);
        lemma_chain_length(self.parent@, self.rank@, x);
        assert(self.outweighs(end));
        lemma_members_bounded(*self, end, self.size() as int);
        let depth = self.depth(x);
        let height = self.height(end);
        lemma_pow2_pos(depth);
        if depth < height {
            lemma_pow2_strictly_increases(depth, height);
        }
        lemma_pow2(depth);
        lemma_log_pow(2, depth);
        lemma_log_is_ordered(2, pow2(depth) as int, self.size() as int);
    }

    /// `n` sets of one element each.
    pub fn new(n: usize) -> (r: UnionFind)
        ensures
            r.wf(),
            r.size() == n,
            forall|x: int| 0 <= x < n ==> #[trigger] r.root(x) == x,
            forall|x: int| 0 <= x < n ==> #[trigger] r.height(x) == 0,
    {
        let mut parent: Vec<usize> = Vec::new();
        let mut rank: Vec<usize> = Vec::new();
        let mut i: usize = 0;
        while i < n
            invariant
                i <= n,
                parent@.len() == i,
                rank@.len() == i,
                forall|j: int| 0 <= j < i ==> parent@[j] == j,
                forall|j: int| 0 <= j < i ==> rank@[j] == 0,
            decreases n - i,
        {
            parent.push(i);
            rank.push(0);
            i += 1;
        }
        proof {
            lemma_root_count_identity(parent@, n as int);
        }
        let r = UnionFind { parent, rank };
        proof {
            assert forall|x: int| 0 <= x < r.size() && r.parent@[x] == x implies #[trigger] r.outweighs(
                x,
            ) by {
                lemma2_to64();
                lemma_member_counted(r, x, x, n as int);
            }
        }
        r
    }

    /// The root of the set that holds `start`. Chains get shorter on the way; the sets stay
    /// as they are.
    pub fn find(&mut self, start: usize) -> (r: usize)
        requires
            old(self).wf(),
            start < old(self).size(),
        ensures
            final(self).wf(),
            final(self).size() == old(self).size(),
            forall|y: int|
                0 <= y < old(self).size() ==> #[trigger] final(self).root(y) == old(self).root(y),
            forall|y: int|
                0 <= y < old(self).size() ==> #[trigger] final(self).height(y) == old(self).height(
                    y,
                ),
            r == old(self).root(start as int),
    {
        self.find_ranked(start)
    }

    fn find_ranked(&mut self, start: usize) -> (r: usize)
        requires
            old(self).wf(),
            start < old(self).size(),
        ensures
            final(self).wf(),
            final(self).size() == old(self).size(),
            final(self).rank@ == old(self).rank@,
            final(self).parent@[r as int] == r,
            forall|y: int|
                0 <= y < old(self).size() ==> #[trigger] final(self).root(y) == old(self).root(y),
            r == old(self).root(start as int),
    {
        let mut x: usize = start;
        while self.parent[x] != x
            invariant
                forest(self.parent@, self.rank@),
                old(self).wf(),
                x < self.parent@.len(),
                start < old(self).size(),
                self.parent@.len() == old(self).parent@.len(),
                self.rank@ == old(self).rank@,
                forall|y: int|
                    0 <= y < old(self).size() ==> self.root(y) == #[trigger] old(self).root(y),
                self.root(x as int) == old(self).root(start as int),
            decreases self.parent@.len() - self.rank@[x as int],
        {
            proof {
                lemma_root_count_bounds(self.parent@, self.parent@.len() as int);
                lemma_halving(self.parent@, self.rank@, x as int);
            }
            let ghost before = *self;
            let above: usize = self.parent[self.parent[x]];
            self.parent.set(x, above);
            proof {
                assert(self.parent@ == before.parent@.update(x as int, above));
                assert forall|y: int| 0 <= y < old(self).size() implies self.root(y)
                    == #[trigger] old(self).root(y) by {
                    assert(self.root(y) == before.root(y));
                }
                assert(rank_grows(before.rank@, x as int, before.parent@[x as int] as int));
                assert(rank_grows(
                    before.rank@,
                    before.parent@[x as int] as int,
                    above as int,
                ) || above == before.parent@[x as int]);
                assert(self.root(x as int) == self.root(above as int));
                lemma_root_count_bounds(self.parent@, self.parent@.len() as int);
                assert(self.rank@[above as int] + root_count(
                    self.parent@,
                    self.parent@.len() as int,
                ) <= self.parent@.len());
            }
            x = self.parent[x];
        }
        proof {
            lemma_still_outweighs(*old(self), *self);
        }
        x
    }

    /// Puts the sets that hold `a` and `b` together, under the higher of their roots. Of two
    /// roots that are equally high that of `a` stays one, and gets higher.
    pub fn union(&mut self, a: usize, b: usize)
        requires
            old(self).wf(),
            a < old(self).size(),
            b < old(self).size(),
        ensures
            final(self).wf(),
            final(self).size() == old(self).size(),
            forall|x: int|
                0 <= x < old(self).size() ==> #[trigger] final(self).root(x) == (if old(self).same(
                    x,
                    a as int,
                ) || old(self).same(x, b as int) {
                    old(self).upper(a as int, b as int)
                } else {
                    old(self).root(x)
                }),
            forall|x: int|
                0 <= x < old(self).size() ==> #[trigger] final(self).height(x) == old(self).height(
                    x,
                ) + (if !old(self).same(a as int, b as int) && x == old(self).root(a as int)
                    && old(self).height(old(self).root(a as int)) == old(self).height(
                    old(self).root(b as int),
                ) {
                    1nat
                } else {
                    0
                }),
            forall|x: int, y: int|
                0 <= x < old(self).size() && 0 <= y < old(self).size() ==> (#[trigger] final(
                    self).same(x, y) <==> old(self).merged(a as int, b as int, x, y)),
    {
        let ra: usize = self.find_ranked(a);
        let ghost mid = *self;
        let rb: usize = self.find_ranked(b);
        proof {
            old(self).lemma_root(a as int);
            old(self).lemma_root(b as int);
            mid.lemma_root(ra as int);
            assert(self.root(ra as int) == ra) by {
                assert(mid.root(ra as int) == ra);
                assert(old(self).root(ra as int) == ra);
            }
            lemma_chain_end_is_root(self.parent@, self.rank@, ra as int);
        }
        if ra == rb {
            proof {
                assert forall|x: int| 0 <= x < old(self).size() implies #[trigger] self.root(x)
                    == old(self).root(x) by {
                    assert(self.root(x) == mid.root(x));
                }
                assert forall|x: int, y: int|
                    0 <= x < old(self).size() && 0 <= y < old(self).size() implies (
                #[trigger] self.same(x, y) <==> old(self).merged(a as int, b as int, x, y)) by {
                    assert(self.root(x) == mid.root(x));
                    assert(self.root(y) == mid.root(y));
                    assert(mid.root(x) == old(self).root(x));
                    assert(mid.root(y) == old(self).root(y));
                }
            }
            return ;
        }
        let ghost found = *self;
        let ghost high: int = if self.rank@[ra as int] < self.rank@[rb as int] {
            rb as int
        } else {
            ra as int
        };
        let ghost low: int = if self.rank@[ra as int] < self.rank@[rb as int] {
            ra as int
        } else {
            rb as int
        };
        if self.rank[ra] < self.rank[rb] {
            proof {
                lemma_hang_forest(self.parent@, self.rank@, self.rank@, low, high);
            }
            self.parent.set(ra, rb);
        } else if self.rank[ra] > self.rank[rb] {
            proof {
                lemma_hang_forest(self.parent@, self.rank@, self.rank@, low, high);
            }
            self.parent.set(rb, ra);
        } else {
            let count: usize = self.parent.len();
            proof {
                assert(count == self.parent@.len());
                lemma_root_count_positive(self.parent@, self.parent@.len() as int, ra as int);
                assert(self.rank@[ra as int] + root_count(self.parent@, self.parent@.len() as int)
                    <= self.parent@.len());
                lemma_hang_forest(
                    self.parent@,
                    self.rank@,
                    self.rank@.update(ra as int, (self.rank@[ra as int] + 1) as usize),
                    low,
                    high,
                );
            }
            self.parent.set(rb, ra);
            let next: usize = self.rank[ra] + 1;
            self.rank.set(ra, next);
        }
        proof {
            assert(self.parent@ == found.parent@.update(low, high as usize));
            lemma_hung_outweighs(found, *self, low, high);
            assert forall|x: int| 0 <= x < old(self).size() implies #[trigger] self.root(x) == (if old(
                self,
            ).same(x, a as int) || old(self).same(x, b as int) {
                old(self).upper(a as int, b as int)
            } else {
                old(self).root(x)
            }) by {
                assert(found.root(x) == mid.root(x) && mid.root(x) == old(self).root(x));
                lemma_hang_chain(
                    found.parent@,
                    found.rank@,
                    self.parent@,
                    self.rank@,
                    low,
                    high,
                    x,
                );
            }
            assert forall|x: int, y: int|
                0 <= x < old(self).size() && 0 <= y < old(self).size() implies (
            #[trigger] self.same(x, y) <==> old(self).merged(a as int, b as int, x, y)) by {
                assert(found.root(x) == mid.root(x) && mid.root(x) == old(self).root(x));
                assert(found.root(y) == mid.root(y) && mid.root(y) == old(self).root(y));
                lemma_hang_chain(
                    found.parent@,
                    found.rank@,
                    self.parent@,
                    self.rank@,
                    low,
                    high,
                    x,
                );
                lemma_hang_chain(
                    found.parent@,
                    found.rank@,
                    self.parent@,
                    self.rank@,
                    low,
                    high,
                    y,
                );
            }
        }
    }
}

spec fn rank_grows(rank: Seq<usize>, x: int, y: int) -> bool {
    rank[x] < rank[y]
}

/// Of two roots the higher one stays, and that of `a` where they are equally high.
pub proof fn lemma_higher_root_stays(sets: UnionFind, a: int, b: int)
    ensures
        sets.height(sets.root(a)) > sets.height(sets.root(b)) ==> sets.upper(a, b) == sets.root(a),
        sets.height(sets.root(a)) < sets.height(sets.root(b)) ==> sets.upper(a, b) == sets.root(b),
        sets.height(sets.root(a)) == sets.height(sets.root(b)) ==> sets.upper(a, b)
            == sets.root(a),
{
}

/// Putting two sets together joins `a` and `b`, parts nothing, and joins no more than it must:
/// whatever tells elements apart, but neither those of one set nor `a` and `b`, tells none apart
/// that are in one set then.
pub proof fn lemma_merging_joins_no_more(
    sets: UnionFind,
    part: spec_fn(int) -> int,
    a: int,
    b: int,
    x: int,
    y: int,
)
    requires
        forall|u: int, v: int| #[trigger] sets.same(u, v) ==> part(u) == part(v),
        part(a) == part(b),
    ensures
        sets.merged(a, b, a, b),
        sets.same(x, y) ==> sets.merged(a, b, x, y),
        sets.merged(a, b, x, y) ==> part(x) == part(y),
        sets.same(x, y) <==> sets.root(x) == sets.root(y),
{
    assert(sets.same(a, a) && sets.same(b, b));
}

} // verus!
