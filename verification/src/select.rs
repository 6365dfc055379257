//! Choosing among numbers by comparison.

use vstd::prelude::*;
use crate::float::{Float32, INFINITE_MAGNITUDE};

verus! {

/// The bit pattern of positive infinity.
pub open spec fn infinity() -> Float32 {
    Float32 { bits: INFINITE_MAGNITUDE }
}

/// The bit pattern of negative infinity.
pub open spec fn negative_infinity() -> Float32 {
    Float32 { bits: 0xff80_0000 }
}

/// Whether `r` is the first place in `values` at which the least number below infinity
/// stands; `None` where there is no number below infinity. NaNs do not count.
pub open spec fn first_least(values: Seq<Float32>, r: Option<usize>) -> bool {
    match r {
        Some(place) => {
            &&& 0 <= place < values.len()
            &&& values[place as int].lt(infinity())
            &&& forall|j: int|
                0 <= j < values.len() ==> !(#[trigger] values[j]).lt(values[place as int])
            &&& forall|j: int|
                0 <= j < place && !values[j].nan() ==> values[place as int].lt(
                    #[trigger] values[j],
                )
        },
        None => forall|j: int| 0 <= j < values.len() ==> !(#[trigger] values[j]).lt(infinity()),
    }
}

/// The first place of the least number in `values[start..end]`, counted from `start`.
pub fn argmin(values: &[Float32], start: usize, end: usize) -> (r: Option<usize>)
    requires
        start <= end <= values@.len(),
    ensures
        first_least(values@.subrange(start as int, end as int), r),
{
    let ghost part = values@.subrange(start as int, end as int);
    let mut best: Float32 = Float32 { bits: INFINITE_MAGNITUDE };
    let mut place: Option<usize> = None;
    let mut i: usize = start;
    while i < end
        invariant
            start <= i <= end <= values@.len(),
            part == values@.subrange(start as int, end as int),
            match place {
                None => best == infinity() && forall|j: int|
                    0 <= j < i - start ==> !(#[trigger] part[j]).lt(infinity()),
                Some(p) => best.lt(infinity()) && p < i - start && part[p as int] == best && (
                forall|j: int| 0 <= j < i - start ==> !(#[trigger] part[j]).lt(best)) && (forall|
                    j: int,
                | 0 <= j < p && !part[j].nan() ==> best.lt(#[trigger] part[j])),
            },
        decreases end - i,
    {
        let value: Float32 = values[i];
        assert(value == part[i - start]);
        if value.less(best) {
            let ghost previous = best;
            best = value;
            place = Some(i - start);
            proof {
                assert forall|j: int| 0 <= j < i - start && !part[j].nan() implies best.lt(
                    #[trigger] part[j],
                ) by {
                    assert(!part[j].lt(previous));
                }
            }
        }
        i += 1;
    }
    place
}

/// Whether `r` is the greatest magnitude among `values`, NaNs left out, and zero where
/// there is none.
pub open spec fn greatest_magnitude(values: Seq<Float32>, r: Float32) -> bool {
    &&& !r.nan()
    &&& !r.negative()
    &&& forall|j: int| 0 <= j < values.len() ==> !r.lt((#[trigger] values[j]).abs_value())
    &&& r.bits == 0 || exists|j: int|
        0 <= j < values.len() && (#[trigger] values[j]).abs_value() == r
}

/// The greatest magnitude among `values`. NaNs are left out.
pub fn sup_norm(values: &[Float32]) -> (r: Float32)
    ensures
        greatest_magnitude(values@, r),
{
    let mut best: Float32 = Float32::zero();
    let mut i: usize = 0;
    while i < values.len()
        invariant
            i <= values@.len(),
            !best.nan(),
            !best.negative(),
            forall|j: int| 0 <= j < i ==> !best.lt((#[trigger] values@[j]).abs_value()),
            best.bits == 0 || exists|j: int|
                0 <= j < i && (#[trigger] values@[j]).abs_value() == best,
        decreases values@.len() - i,
    {
        let magnitude: Float32 = values[i].abs();
        if best.less(magnitude) {
            best = magnitude;
            assert(values@[i as int].abs_value() == best);
        }
        i += 1;
    }
    best
}

/// Whether `r` is the first place in `values` at which the greatest number stands, where the
/// first value is a number; if it is a NaN, nothing replaces it.
pub open spec fn leading_greatest(values: Seq<Float32>, r: int) -> bool {
    &&& 0 <= r < values.len()
    &&& if values[0].nan() {
        r == 0
    } else {
        &&& !values[r].nan()
        &&& forall|j: int| 0 <= j < values.len() ==> !values[r].lt(#[trigger] values[j])
        &&& forall|j: int|
            0 <= j < r && !values[j].nan() ==> (#[trigger] values[j]).lt(values[r])
    }
}

/// The first place of the greatest number in `values[start..end]`, counted from `start`, when
/// the search begins with the first value itself.
pub fn leading_argmax(values: &[Float32], start: usize, end: usize) -> (r: usize)
    requires
        start < end <= values@.len(),
    ensures
        leading_greatest(values@.subrange(start as int, end as int), r as int),
{
    let ghost part = values@.subrange(start as int, end as int);
    let mut best: Float32 = values[start];
    let mut place: usize = 0;
    let mut i: usize = start + 1;
    while i < end
        invariant
            start < i <= end <= values@.len(),
            part == values@.subrange(start as int, end as int),
            place < i - start,
            best == part[place as int],
            part[0].nan() ==> place == 0,
            !part[0].nan() ==> !best.nan(),
            !part[0].nan() ==> forall|j: int|
                0 <= j < i - start ==> !best.lt(#[trigger] part[j]),
            !part[0].nan() ==> forall|j: int|
                0 <= j < place && !part[j].nan() ==> (#[trigger] part[j]).lt(best),
        decreases end - i,
    {
        let value: Float32 = values[i];
        assert(value == part[i - start]);
        if best.less(value) {
            let ghost previous = best;
            best = value;
            place = i - start;
            proof {
                assert forall|j: int| 0 <= j < i - start && !part[j].nan() implies (
                #[trigger] part[j]).lt(best) by {
                    assert(!previous.lt(part[j]));
                }
            }
        }
        i += 1;
    }
    place
}

/// Whether `r` is the first place in `values` at which the least number stands, where the
/// first value is a number; if it is a NaN, nothing replaces it.
pub open spec fn leading_least(values: Seq<Float32>, r: int) -> bool {
    &&& 0 <= r < values.len()
    &&& if values[0].nan() {
        r == 0
    } else {
        &&& !values[r].nan()
        &&& forall|j: int| 0 <= j < values.len() ==> !(#[trigger] values[j]).lt(values[r])
        &&& forall|j: int|
            0 <= j < r && !values[j].nan() ==> values[r].lt(#[trigger] values[j])
    }
}

/// The first place of the least number in `values[start..end]`, counted from `start`, when
/// the search begins with the first value itself.
pub fn leading_argmin(values: &[Float32], start: usize, end: usize) -> (r: usize)
    requires
        start < end <= values@.len(),
    ensures
        leading_least(values@.subrange(start as int, end as int), r as int),
{
    let ghost part = values@.subrange(start as int, end as int);
    let mut best: Float32 = values[start];
    let mut place: usize = 0;
    let mut i: usize = start + 1;
    while i < end
        invariant
            start < i <= end <= values@.len(),
            part == values@.subrange(start as int, end as int),
            place < i - start,
            best == part[place as int],
            part[0].nan() ==> place == 0,
            !part[0].nan() ==> !best.nan(),
            !part[0].nan() ==> forall|j: int|
                0 <= j < i - start ==> !(#[trigger] part[j]).lt(best),
            !part[0].nan() ==> forall|j: int|
                0 <= j < place && !part[j].nan() ==> best.lt(#[trigger] part[j]),
        decreases end - i,
    {
        let value: Float32 = values[i];
        assert(value == part[i - start]);
        if value.less(best) {
            let ghost previous = best;
            best = value;
            place = i - start;
            proof {
                assert forall|j: int| 0 <= j < i - start && !part[j].nan() implies best.lt(
                    #[trigger] part[j],
                ) by {
                    assert(!part[j].lt(previous));
                }
            }
        }
        i += 1;
    }
    place
}

/// Whether `r` is the greatest number among `values`, and negative infinity where there is
/// none above it. NaNs do not count.
pub open spec fn is_maximum(values: Seq<Float32>, r: Float32) -> bool {
    &&& !r.nan()
    &&& forall|j: int| 0 <= j < values.len() ==> !r.lt(#[trigger] values[j])
    &&& r == negative_infinity() || exists|j: int|
        0 <= j < values.len() && #[trigger] values[j] == r
}

/// The greatest number in `values[start..end]`, NaNs left out.
pub fn maximum(values: &[Float32], start: usize, end: usize) -> (r: Float32)
    requires
        start <= end <= values@.len(),
    ensures
        is_maximum(values@.subrange(start as int, end as int), r),
{
    let ghost part = values@.subrange(start as int, end as int);
    let mut best: Float32 = Float32 { bits: 0xff80_0000 };
    let mut i: usize = start;
    while i < end
        invariant
            start <= i <= end <= values@.len(),
            part == values@.subrange(start as int, end as int),
            !best.nan(),
            forall|j: int| 0 <= j < i - start ==> !best.lt(#[trigger] part[j]),
            best == negative_infinity() || exists|j: int|
                0 <= j < i - start && #[trigger] part[j] == best,
        decreases end - i,
    {
        let value: Float32 = values[i];
        assert(value == part[i - start]);
        if best.less(value) {
            best = value;
        }
        i += 1;
    }
    best
}

/// The greatest magnitude among given values is one value: two numbers that both are it
/// have the same bits.
pub proof fn lemma_greatest_magnitude_unique(values: Seq<Float32>, a: Float32, b: Float32)
    requires
        greatest_magnitude(values, a),
        greatest_magnitude(values, b),
    ensures
        a == b,
{
}

/// The first place of the least number among given values is one place.
pub proof fn lemma_first_least_unique(values: Seq<Float32>, a: Option<usize>, b: Option<usize>)
    requires
        first_least(values, a),
        first_least(values, b),
    ensures
        a == b,
{
}

/// The place that a search for the greatest number gives is one place, and so is the place
/// that a search for the least gives.
pub proof fn lemma_leading_unique(values: Seq<Float32>, a: int, b: int)
    ensures
        leading_greatest(values, a) && leading_greatest(values, b) ==> a == b,
        leading_least(values, a) && leading_least(values, b) ==> a == b,
{
}

/// The place of the least number holds a number below infinity that no other is below, and that
/// every number before it is above. There is such a place unless no number is below infinity.
pub proof fn lemma_first_least(values: Seq<Float32>, r: Option<usize>, j: int)
    requires
        first_least(values, r),
        0 <= j < values.len(),
        !values[j].nan(),
    ensures
        r is None ==> values[j].bits == 0x7f80_0000,
        r matches Some(place) ==> {
            &&& place < values.len()
            &&& values[place as int].le(values[j])
            &&& j < place ==> values[place as int].lt(values[j])
            &&& values[place as int].bits != 0x7f80_0000 && !values[place as int].nan()
        },
{
}

/// The greatest magnitude is at least that of every number, and one of them has it where it is
/// not zero.
pub proof fn lemma_greatest_magnitude(values: Seq<Float32>, r: Float32, j: int)
    requires
        greatest_magnitude(values, r),
        0 <= j < values.len(),
        !values[j].nan(),
    ensures
        values[j].abs_value().le(r),
        values[j].le(r),
        values[j].negation().le(r),
        r.bits != 0 ==> exists|i: int|
            0 <= i < values.len() && (#[trigger] values[i] == r || values[i].negation() == r),
{
    if r.bits != 0 {
        let i = choose|i: int| 0 <= i < values.len() && (#[trigger] values[i]).abs_value() == r;
        assert(values[i] == r || values[i].negation() == r);
    }
}

/// Where the first value is a number, the place of the greatest number holds one that none
/// exceeds, and that exceeds all before it.
pub proof fn lemma_leading_greatest(values: Seq<Float32>, r: int, j: int)
    requires
        leading_greatest(values, r),
        0 <= j < values.len(),
        !values[0].nan(),
        !values[j].nan(),
    ensures
        0 <= r < values.len(),
        values[j].le(values[r]),
        j < r ==> values[j].lt(values[r]),
{
}

/// Where the first value is a number, the place of the least number holds one that exceeds
/// none, and that all before it exceed.
pub proof fn lemma_leading_least(values: Seq<Float32>, r: int, j: int)
    requires
        leading_least(values, r),
        0 <= j < values.len(),
        !values[0].nan(),
        !values[j].nan(),
    ensures
        0 <= r < values.len(),
        values[r].le(values[j]),
        j < r ==> values[r].lt(values[j]),
{
}

/// A search that begins with a NaN ends with it.
pub proof fn lemma_leading_nan(values: Seq<Float32>, r: int)
    requires
        values.len() > 0,
        values[0].nan(),
    ensures
        leading_greatest(values, r) <==> r == 0,
        leading_least(values, r) <==> r == 0,
{
}

/// The maximum is at least every number, and is one of them unless none is above negative
/// infinity.
pub proof fn lemma_maximum(values: Seq<Float32>, r: Float32, j: int)
    requires
        is_maximum(values, r),
        0 <= j < values.len(),
        !values[j].nan(),
    ensures
        values[j].le(r),
        r.bits != 0xff80_0000 ==> exists|i: int|
            0 <= i < values.len() && #[trigger] values[i] == r,
{
}

} // verus!
