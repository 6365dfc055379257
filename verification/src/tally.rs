//! Counts over sequences of indices, and of gaps between predictions and labels.

use vstd::prelude::*;
use crate::float::Float32;

verus! {

/// How often `c` stands among the first `i` of `places`.
pub open spec fn occurrences(places: Seq<usize>, c: int, i: int) -> int
    decreases i,
{
    if i <= 0 {
        0
    } else {
        occurrences(places, c, i - 1) + if places[i - 1] == c {
            1int
        } else {
            0
        }
    }
}

/// How many of the first `i` of `a` and `b` are the same.
pub open spec fn agreements(a: Seq<usize>, b: Seq<usize>, i: int) -> int
    decreases i,
{
    if i <= 0 {
        0
    } else {
        agreements(a, b, i - 1) + if a[i - 1] == b[i - 1] {
            1int
        } else {
            0
        }
    }
}

/// How many of the first `i` of `gaps` are below `bound` in magnitude.
pub open spec fn near_count(gaps: Seq<Float32>, bound: Float32, i: int) -> int
    decreases i,
{
    if i <= 0 {
        0
    } else {
        near_count(gaps, bound, i - 1) + if gaps[i - 1].abs_value().lt(bound) {
            1int
        } else {
            0
        }
    }
}

proof fn lemma_occurrence_bounds(places: Seq<usize>, c: int, i: int)
    ensures
        0 <= occurrences(places, c, i),
        i >= 0 ==> occurrences(places, c, i) <= i,
    decreases i,
{
    if i > 0 {
        lemma_occurrence_bounds(places, c, i - 1);
    }
}

/// How often each of `0..k` stands among `places`.
pub fn tally(places: &[usize], k: usize) -> (r: Vec<usize>)
    requires
        forall|i: int| 0 <= i < places@.len() ==> #[trigger] places@[i] < k,
    ensures
        r@.len() == k,
        forall|c: int|
            0 <= c < k ==> #[trigger] r@[c] == occurrences(places@, c, places@.len() as int),
{
    let mut counts: Vec<usize> = Vec::new();
    let mut c: usize = 0;
    while c < k
        invariant
            c <= k,
            counts@.len() == c,
            forall|j: int| 0 <= j < c ==> #[trigger] counts@[j] == 0,
        decreases k - c,
    {
        counts.push(0);
        c += 1;
    }
    let len: usize = places.len();
    let mut i: usize = 0;
    while i < len
        invariant
            i <= len,
            len == places@.len(),
            counts@.len() == k,
            forall|j: int| 0 <= j < places@.len() ==> #[trigger] places@[j] < k,
            forall|j: int|
                0 <= j < k ==> #[trigger] counts@[j] == occurrences(places@, j, i as int),
        decreases len - i,
    {
        let place: usize = places[i];
        proof {
            lemma_occurrence_bounds(places@, place as int, i as int);
            assert(counts@[place as int] == occurrences(places@, place as int, i as int));
        }
        let next: usize = counts[place] + 1;
        counts.set(place, next);
        i += 1;
    }
    counts
}

/// How many of `a` and `b` are the same, place by place.
pub fn count_agreements(a: &[usize], b: &[usize]) -> (r: usize)
    requires
        a@.len() == b@.len(),
    ensures
        r == agreements(a@, b@, a@.len() as int),
        r <= a@.len(),
{
    let mut r: usize = 0;
    let mut i: usize = 0;
    while i < a.len()
        invariant
            i <= a@.len(),
            a@.len() == b@.len(),
            r == agreements(a@, b@, i as int),
            r <= i,
        decreases a@.len() - i,
    {
        if a[i] == b[i] {
            r += 1;
        }
        i += 1;
    }
    r
}

/// How many of `gaps` are below `bound` in magnitude.
pub fn count_near(gaps: &[Float32], bound: Float32) -> (r: usize)
    ensures
        r == near_count(gaps@, bound, gaps@.len() as int),
        r <= gaps@.len(),
{
    let mut r: usize = 0;
    let mut i: usize = 0;
    while i < gaps.len()
        invariant
            i <= gaps@.len(),
            r == near_count(gaps@, bound, i as int),
            r <= i,
        decreases gaps@.len() - i,
    {
        if gaps[i].abs().less(bound) {
            r += 1;
        }
        i += 1;
    }
    r
}

/// The sum over `0..k` of the occurrences among the first `i` of `places`.
pub open spec fn occurrence_total(places: Seq<usize>, k: int, i: int) -> int
    decreases k,
{
    if k <= 0 {
        0
    } else {
        occurrence_total(places, k - 1, i) + occurrences(places, k - 1, i)
    }
}

proof fn lemma_total_step(places: Seq<usize>, k: int, i: int)
    requires
        0 < i <= places.len(),
        k >= 0,
    ensures
        occurrence_total(places, k, i) == occurrence_total(places, k, i - 1) + if places[i - 1] < k
        {
            1int
        } else {
            0
        },
    decreases k,
{
    if k > 0 {
        lemma_total_step(places, k - 1, i);
    }
}

proof fn lemma_total_empty(places: Seq<usize>, k: int)
    ensures
        occurrence_total(places, k, 0) == 0,
    decreases k,
{
    if k > 0 {
        lemma_total_empty(places, k - 1);
    }
}

/// Each place is counted once: the counts of all of `0..k` together are as many as there are
/// places, where every place is below `k`.
pub proof fn lemma_tally_is_complete(places: Seq<usize>, k: int, i: int)
    requires
        0 <= i <= places.len(),
        k >= 0,
        forall|j: int| 0 <= j < places.len() ==> #[trigger] places[j] < k,
    ensures
        occurrence_total(places, k, i) == i,
    decreases i,
{
    if i == 0 {
        lemma_total_empty(places, k);
    } else {
        lemma_tally_is_complete(places, k, i - 1);
        lemma_total_step(places, k, i);
        assert(places[i - 1] < k);
    }
}

proof fn lemma_range_extended(a: Set<int>, b: Set<int>, i: int, counted: bool)
    requires
        a.finite(),
        !a.contains(i),
        b == (if counted {
            a.insert(i)
        } else {
            a
        }),
    ensures
        b.finite(),
        b.len() == a.len() + (if counted {
            1int
        } else {
            0
        }),
{
}

/// The occurrences of `c` are as many as the places that hold it.
pub proof fn lemma_occurrences_count_places(places: Seq<usize>, c: int, i: int)
    requires
        0 <= i <= places.len(),
    ensures
        Set::new(|j: int| 0 <= j < i && places[j] == c).finite(),
        occurrences(places, c, i) == Set::new(|j: int| 0 <= j < i && places[j] == c).len(),
    decreases i,
{
    let s = Set::new(|j: int| 0 <= j < i && places[j] == c);
    if i > 0 {
        lemma_occurrences_count_places(places, c, i - 1);
        let t = Set::new(|j: int| 0 <= j < i - 1 && places[j] == c);
        let counted = places[i - 1] == c;
        assert(s =~= if counted {
            t.insert(i - 1)
        } else {
            t
        });
        lemma_range_extended(t, s, i - 1, counted);
    } else {
        assert(s =~= Set::<int>::empty());
    }
}

/// The agreements are as many as the places at which both lists hold the same.
pub proof fn lemma_agreements_count_places(a: Seq<usize>, b: Seq<usize>, i: int)
    requires
        0 <= i <= a.len(),
        a.len() == b.len(),
    ensures
        Set::new(|j: int| 0 <= j < i && a[j] == b[j]).finite(),
        agreements(a, b, i) == Set::new(|j: int| 0 <= j < i && a[j] == b[j]).len(),
    decreases i,
{
    let s = Set::new(|j: int| 0 <= j < i && a[j] == b[j]);
    if i > 0 {
        lemma_agreements_count_places(a, b, i - 1);
        let t = Set::new(|j: int| 0 <= j < i - 1 && a[j] == b[j]);
        let counted = a[i - 1] == b[i - 1];
        assert(s =~= if counted {
            t.insert(i - 1)
        } else {
            t
        });
        lemma_range_extended(t, s, i - 1, counted);
    } else {
        assert(s =~= Set::<int>::empty());
    }
}

/// The near gaps are as many as the places at which the magnitude is below the bound.
pub proof fn lemma_near_count_counts_places(gaps: Seq<Float32>, bound: Float32, i: int)
    requires
        0 <= i <= gaps.len(),
    ensures
        Set::new(|j: int| 0 <= j < i && gaps[j].abs_value().lt(bound)).finite(),
        near_count(gaps, bound, i) == Set::new(
            |j: int| 0 <= j < i && gaps[j].abs_value().lt(bound),
        ).len(),
    decreases i,
{
    let s = Set::new(|j: int| 0 <= j < i && gaps[j].abs_value().lt(bound));
    if i > 0 {
        lemma_near_count_counts_places(gaps, bound, i - 1);
        let t = Set::new(|j: int| 0 <= j < i - 1 && gaps[j].abs_value().lt(bound));
        let counted = gaps[i - 1].abs_value().lt(bound);
        assert(s =~= if counted {
            t.insert(i - 1)
        } else {
            t
        });
        lemma_range_extended(t, s, i - 1, counted);
    } else {
        assert(s =~= Set::<int>::empty());
    }
}

} // verus!
