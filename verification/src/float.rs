//! Single-precision numbers as the library holds them: by their bit patterns.
//!
//! A `Float32` is one of the 2^32 patterns of the IEEE 754 binary32 format. The
//! library moves such values about, classifies them and compares them; it never adds
//! or multiplies them.

use vstd::prelude::*;
use vstd::arithmetic::power2::{lemma2_to64, lemma2_to64_rest, lemma_pow2_adds, lemma_pow2_pos, lemma_pow2_strictly_increases, lemma_pow2_unfold, pow2};

verus! {

/// The magnitude bits of infinity; a larger magnitude is a NaN.
pub const INFINITE_MAGNITUDE: u32 = 0x7f80_0000;

/// The bit that holds the sign.
pub const SIGN_BIT: u32 = 0x8000_0000;

/// The bits of 0.5.
pub const HALF: u32 = 0x3f00_0000;

/// The bits of 1.0.
pub const ONE: u32 = 0x3f80_0000;

/// A binary32 number, held by its bit pattern.
///
/// `==` compares bit patterns. Numeric comparison, in which the two zeros are equal and
/// a NaN is unordered, is `equals`, `less` and `at_most`.
#[derive(Clone, Copy, Debug, PartialEq, Eq, Structural)]
pub struct Float32 {
    pub bits: u32,
}

/// How many steps of 2^-149 make up the number whose magnitude bits are `magnitude`.
///
/// Every finite binary32 number is a whole multiple of 2^-149, the smallest positive
/// one. The magnitude of infinity comes out above every finite one.
pub open spec fn magnitude_units(magnitude: int) -> int {
    let exponent = magnitude / 0x80_0000;
    let fraction = magnitude % 0x80_0000;
    if exponent == 0 {
        fraction
    } else {
        (0x80_0000 + fraction) * pow2((exponent - 1) as nat)
    }
}

impl Float32 {
    /// Whether the sign bit is set.
    pub open spec fn negative(self) -> bool {
        self.bits >= SIGN_BIT
    }

    /// The bits below the sign bit, as a number.
    pub open spec fn magnitude(self) -> int {
        if self.negative() {
            self.bits - SIGN_BIT
        } else {
            self.bits as int
        }
    }

    /// Whether this is no number.
    pub open spec fn nan(self) -> bool {
        self.magnitude() > INFINITE_MAGNITUDE
    }

    /// Whether this is neither a NaN nor infinite.
    pub open spec fn finite(self) -> bool {
        self.magnitude() < INFINITE_MAGNITUDE
    }

    /// A number by which values that are no NaN are ordered.
    pub open spec fn key(self) -> int {
        if self.negative() {
            -self.magnitude()
        } else {
            self.magnitude()
        }
    }

    /// The value in steps of 2^-149, for a value that is no NaN.
    pub open spec fn units(self) -> int {
        if self.negative() {
            -magnitude_units(self.magnitude())
        } else {
            magnitude_units(self.magnitude())
        }
    }

    /// Whether the value is below that of `other`.
    pub open spec fn lt(self, other: Float32) -> bool {
        !self.nan() && !other.nan() && self.key() < other.key()
    }

    /// Whether the value is at most that of `other`.
    pub open spec fn le(self, other: Float32) -> bool {
        !self.nan() && !other.nan() && self.key() <= other.key()
    }

    /// Whether the two values are numerically equal.
    pub open spec fn numerically_equal(self, other: Float32) -> bool {
        !self.nan() && !other.nan() && self.key() == other.key()
    }

    /// The number without its sign.
    pub open spec fn abs_value(self) -> Float32 {
        Float32 { bits: self.magnitude() as u32 }
    }

    /// The number with the other sign.
    pub open spec fn negation(self) -> Float32 {
        if self.negative() {
            Float32 { bits: (self.bits - SIGN_BIT) as u32 }
        } else {
            Float32 { bits: (self.bits + SIGN_BIT) as u32 }
        }
    }

    /// Positive zero.
    pub fn zero() -> (r: Float32)
        ensures
            r == (Float32 { bits: 0 }),
    {
        Float32 { bits: 0 }
    }

    /// Whether this is a NaN.
    pub fn is_nan(self) -> (r: bool)
        ensures
            r == self.nan(),
    {
        let magnitude: u32 = if self.bits >= SIGN_BIT { self.bits - SIGN_BIT } else { self.bits };
        magnitude > INFINITE_MAGNITUDE
    }

    /// Whether this is neither a NaN nor infinite.
    pub fn is_finite(self) -> (r: bool)
        ensures
            r == self.finite(),
    {
        let magnitude: u32 = if self.bits >= SIGN_BIT { self.bits - SIGN_BIT } else { self.bits };
        magnitude < INFINITE_MAGNITUDE
    }

    fn order_key(self) -> (r: i64)
        ensures
            r == self.key(),
    {
        if self.bits >= SIGN_BIT {
            -((self.bits - SIGN_BIT) as i64)
        } else {
            self.bits as i64
        }
    }

    /// Whether the value is below that of `other`; false if either is a NaN.
    pub fn less(self, other: Float32) -> (r: bool)
        ensures
            r == self.lt(other),
    {
        !self.is_nan() && !other.is_nan() && self.order_key() < other.order_key()
    }

    /// Whether the value is at most that of `other`; false if either is a NaN.
    pub fn at_most(self, other: Float32) -> (r: bool)
        ensures
            r == self.le(other),
    {
        !self.is_nan() && !other.is_nan() && self.order_key() <= other.order_key()
    }

    /// Whether the two values are equal as numbers: zeros of either sign are, a NaN is
    /// equal to nothing.
    pub fn equals(self, other: Float32) -> (r: bool)
        ensures
            r == self.numerically_equal(other),
    {
        !self.is_nan() && !other.is_nan() && self.order_key() == other.order_key()
    }

    /// Whether the value is above zero.
    pub fn is_positive(self) -> (r: bool)
        ensures
            r == (Float32 { bits: 0 }).lt(self),
    {
        Float32::zero().less(self)
    }

    /// The number without its sign.
    pub fn abs(self) -> (r: Float32)
        ensures
            r == self.abs_value(),
    {
        if self.bits >= SIGN_BIT {
            Float32 { bits: self.bits - SIGN_BIT }
        } else {
            self
        }
    }
}

impl Float32 {
    /// The larger of two numbers; a NaN gives way to the other.
    pub open spec fn max_value(self, other: Float32) -> Float32 {
        if self.nan() || self.lt(other) {
            other
        } else {
            self
        }
    }

    /// The smaller of two numbers; a NaN gives way to the other.
    pub open spec fn min_value(self, other: Float32) -> Float32 {
        if self.nan() || other.lt(self) {
            other
        } else {
            self
        }
    }

    /// The larger of two numbers; a NaN gives way to the other.
    pub fn larger(self, other: Float32) -> (r: Float32)
        ensures
            r == self.max_value(other),
    {
        if self.is_nan() || self.less(other) {
            other
        } else {
            self
        }
    }

    /// The smaller of two numbers; a NaN gives way to the other.
    pub fn smaller(self, other: Float32) -> (r: Float32)
        ensures
            r == self.min_value(other),
    {
        if self.is_nan() || other.less(self) {
            other
        } else {
            self
        }
    }

    /// The number with the other sign.
    pub fn neg(self) -> (r: Float32)
        ensures
            r == self.negation(),
    {
        if self.bits >= SIGN_BIT {
            Float32 { bits: self.bits - SIGN_BIT }
        } else {
            Float32 { bits: self.bits + SIGN_BIT }
        }
    }
}

proof fn lemma_units_step(magnitude: int)
    requires
        magnitude >= 0,
    ensures
        0 <= magnitude_units(magnitude) < magnitude_units(magnitude + 1),
{
    let exponent = magnitude / 0x80_0000;
    let fraction = magnitude % 0x80_0000;
    if exponent > 0 {
        let scale = pow2((exponent - 1) as nat) as int;
        lemma_pow2_pos((exponent - 1) as nat);
        if fraction + 1 < 0x80_0000 {
            assert((magnitude + 1) / 0x80_0000 == exponent);
            assert((magnitude + 1) % 0x80_0000 == fraction + 1);
            assert(0 <= (0x80_0000 + fraction) * scale < (0x80_0000 + fraction + 1) * scale)
                by (nonlinear_arith)
                requires
                    scale > 0,
                    fraction >= 0,
            ;
        } else {
            assert((magnitude + 1) / 0x80_0000 == exponent + 1);
            assert((magnitude + 1) % 0x80_0000 == 0);
            lemma_pow2_unfold(exponent as nat);
            assert(0 <= (0x80_0000 + fraction) * scale < 0x80_0000 * (2 * scale))
                by (nonlinear_arith)
                requires
                    scale > 0,
                    0 <= fraction < 0x80_0000,
            ;
        }
    } else if fraction + 1 < 0x80_0000 {
        assert((magnitude + 1) / 0x80_0000 == 0);
    } else {
        assert((magnitude + 1) / 0x80_0000 == 1);
        assert((magnitude + 1) % 0x80_0000 == 0);
        lemma2_to64();
    }
}

proof fn lemma_units_increase(low: int, high: int)
    requires
        0 <= low < high,
    ensures
        0 <= magnitude_units(low) < magnitude_units(high),
    decreases high - low,
{
    lemma_units_step(low);
    if low + 1 < high {
        lemma_units_increase(low + 1, high);
    }
}

/// The order of `Float32` is the order of the numbers that it holds: of two values that
/// are no NaN, `less` and `equals` say how many steps of 2^-149 each of them is.
pub proof fn lemma_order_is_numeric(a: Float32, b: Float32)
    requires
        !a.nan(),
        !b.nan(),
    ensures
        a.lt(b) <==> a.units() < b.units(),
        a.le(b) <==> a.units() <= b.units(),
        a.numerically_equal(b) <==> a.units() == b.units(),
{
    let x = a.magnitude();
    let y = b.magnitude();
    assert(magnitude_units(0) == 0);
    if x > 0 {
        lemma_units_increase(0, x);
    }
    if y > 0 {
        lemma_units_increase(0, y);
    }
    if x < y {
        lemma_units_increase(x, y);
    }
    if y < x {
        lemma_units_increase(y, x);
    }
}

/// The whole numbers below this one can be told apart from their neighbours.
pub const WHOLE_LIMIT: u32 = 0x100_0000;

impl Float32 {
    /// Whether this is the whole number `c`.
    pub open spec fn denotes(self, c: int) -> bool {
        self.finite() && self.units() == c * pow2(149)
    }

    /// The whole number below `limit` that this is, if it is one.
    pub fn whole_below(self, limit: u32) -> (r: Option<u32>)
        requires
            limit <= WHOLE_LIMIT,
        ensures
            match r {
                Some(c) => c < limit && self.denotes(c as int),
                None => forall|c: int| 0 <= c < limit ==> !#[trigger] self.denotes(c),
            },
    {
        let magnitude: u32 = if self.bits >= SIGN_BIT { self.bits - SIGN_BIT } else { self.bits };
        proof {
            lemma_pow2_pos(149);
        }
        if magnitude == 0 {
            proof {
                assert(magnitude_units(0) == 0);
                assert(0 * pow2(149) == 0);
                assert forall|c: int| 0 < c && #[trigger] self.denotes(c) implies false by {
                    assert(c * pow2(149) > 0) by (nonlinear_arith)
                        requires
                            c > 0,
                            pow2(149) > 0,
                    ;
                }
            }
            return if limit > 0 {
                Some(0)
            } else {
                None
            };
        }
        if self.bits >= SIGN_BIT {
            proof {
                lemma_units_increase(0, magnitude as int);
                assert forall|c: int| 0 <= c implies !#[trigger] self.denotes(c) by {
                    assert(c * pow2(149) >= 0) by (nonlinear_arith)
                        requires
                            c >= 0,
                            pow2(149) > 0,
                    ;
                }
            }
            return None;
        }
        if magnitude >= INFINITE_MAGNITUDE {
            return None;
        }
        let exponent: u32 = magnitude / 0x80_0000;
        let fraction: u32 = magnitude % 0x80_0000;
        if exponent < 127 {
            proof {
                lemma_below_one(magnitude as int);
                assert forall|c: int| 0 <= c implies !#[trigger] self.denotes(c) by {
                    assert(c == 0 || c * pow2(149) >= pow2(149)) by (nonlinear_arith)
                        requires
                            c >= 0,
                            pow2(149) > 0,
                    ;
                }
            }
            return None;
        }
        let significand: u32 = 0x80_0000 + fraction;
        if exponent > 150 {
            proof {
                lemma_pow2_adds((exponent - 151) as nat, 150);
                lemma_pow2_pos((exponent - 151) as nat);
                lemma_pow2_unfold(150);
                let high = pow2((exponent - 151) as nat) as int;
                let one = pow2(149) as int;
                assert(self.units() >= WHOLE_LIMIT * one) by (nonlinear_arith)
                    requires
                        self.units() == significand * (high * (2 * one)),
                        significand >= 0x80_0000,
                        high >= 1,
                        one > 0,
                ;
                assert forall|c: int| 0 <= c < limit implies !#[trigger] self.denotes(c) by {
                    assert(c * one < WHOLE_LIMIT * one) by (nonlinear_arith)
                        requires
                            c < WHOLE_LIMIT,
                            one > 0,
                    ;
                }
            }
            return None;
        }
        let shift: u32 = 150 - exponent;
        proof {
            lemma_denotes_shifted(self, exponent as int, significand as int);
        }
        let mut rest: u32 = significand;
        let mut left: u32 = shift;
        proof {
            lemma2_to64();
            assert(rest * pow2(0) == significand);
        }
        while left > 0
            invariant
                left <= shift <= 23,
                0 < significand < WHOLE_LIMIT,
                rest * pow2((shift - left) as nat) == significand,
                forall|c: int|
                    #[trigger] self.denotes(c) <==> c * pow2(shift as nat) == significand,
            decreases left,
        {
            let ghost done = pow2((shift - left) as nat) as int;
            proof {
                lemma_pow2_pos((shift - left) as nat);
                lemma_pow2_unfold((shift - left + 1) as nat);
            }
            if rest % 2 == 1 {
                proof {
                    lemma_pow2_adds((shift - left) as nat, left as nat);
                    lemma_pow2_unfold(left as nat);
                    let half = pow2((left - 1) as nat) as int;
                    assert forall|c: int| 0 <= c < limit implies !#[trigger] self.denotes(c) by {
                        if self.denotes(c) {
                            assert(rest * done == c * (done * (2 * half)));
                            assert(rest == 2 * (c * half)) by (nonlinear_arith)
                                requires
                                    rest * done == c * (done * (2 * half)),
                                    done > 0,
                            ;
                        }
                    }
                }
                return None;
            }
            proof {
                let half = (rest / 2) as int;
                assert(half * (2 * done) == rest * done) by (nonlinear_arith)
                    requires
                        rest == 2 * half,
                ;
            }
            rest = rest / 2;
            left = left - 1;
        }
        proof {
            let scale = pow2(shift as nat) as int;
            lemma_pow2_pos(shift as nat);
            assert(self.denotes(rest as int));
            assert forall|c: int| #[trigger] self.denotes(c) implies c == rest by {
                assert(c == rest) by (nonlinear_arith)
                    requires
                        c * scale == rest * scale,
                        scale > 0,
                ;
            }
        }
        if rest < limit {
            Some(rest)
        } else {
            None
        }
    }

    /// The whole number `c` as a `Float32`.
    pub fn from_whole(c: u32) -> (r: Float32)
        requires
            c < WHOLE_LIMIT,
        ensures
            r.denotes(c as int),
            !r.negative(),
    {
        proof {
            lemma2_to64();
        }
        if c == 0 {
            proof {
                assert(magnitude_units(0) == 0);
            }
            return Float32::zero();
        }
        let mut w: u32 = c;
        let mut exponent: u32 = 150;
        proof {
            assert(c * pow2(0) == c);
        }
        while w < 0x80_0000
            invariant
                0 < c < WHOLE_LIMIT,
                0 < w < WHOLE_LIMIT,
                127 <= exponent <= 150,
                w == c * pow2((150 - exponent) as nat),
                pow2(23) == 0x80_0000,
            decreases exponent,
        {
            proof {
                lemma_pow2_pos((150 - exponent) as nat);
                if exponent == 127 {
                    assert(c * pow2(23) >= 0x80_0000) by (nonlinear_arith)
                        requires
                            c >= 1,
                            pow2(23) == 0x80_0000,
                    ;
                }
                lemma_pow2_unfold((150 - exponent + 1) as nat);
                let scale = pow2((150 - exponent) as nat) as int;
                assert(2 * w == c * (2 * scale)) by (nonlinear_arith)
                    requires
                        w == c * scale,
                ;
            }
            w = w * 2;
            exponent = exponent - 1;
        }
        let r = Float32 { bits: exponent * 0x80_0000 + (w - 0x80_0000) };
        proof {
            assert(r.magnitude() / 0x80_0000 == exponent);
            assert(r.magnitude() % 0x80_0000 == w - 0x80_0000);
            lemma_denotes_shifted(r, exponent as int, w as int);
        }
        r
    }
}

proof fn lemma_below_one(magnitude: int)
    requires
        0 < magnitude < 127 * 0x80_0000,
    ensures
        0 < magnitude_units(magnitude) < pow2(149),
{
    assert(magnitude_units(0) == 0);
    lemma_units_increase(0, magnitude);
    lemma_units_increase(magnitude, 127int * 0x80_0000);
    lemma2_to64();
    lemma_pow2_adds(23, 126);
}

/// A number from 1 to below 2^24 is `c` when its significand is `c` shifted.
proof fn lemma_denotes_shifted(x: Float32, exponent: int, significand: int)
    requires
        !x.negative(),
        x.finite(),
        127 <= exponent <= 150,
        exponent == x.magnitude() / 0x80_0000,
        significand == 0x80_0000 + x.magnitude() % 0x80_0000,
    ensures
        forall|c: int|
            #[trigger] x.denotes(c) <==> c * pow2((150 - exponent) as nat) == significand,
{
    let scale = pow2((exponent - 1) as nat) as int;
    let shift = pow2((150 - exponent) as nat) as int;
    lemma_pow2_pos((exponent - 1) as nat);
    lemma_pow2_adds((150 - exponent) as nat, (exponent - 1) as nat);
    assert forall|c: int| #[trigger] x.denotes(c) <==> c * shift == significand by {
        assert(c * (shift * scale) == (c * shift) * scale) by (nonlinear_arith);
        if x.denotes(c) {
            assert(c * shift == significand) by (nonlinear_arith)
                requires
                    significand * scale == (c * shift) * scale,
                    scale > 0,
            ;
        }
    }
}

/// No number is two whole numbers at once.
pub proof fn lemma_denotes_one(x: Float32, a: int, b: int)
    requires
        x.denotes(a),
        x.denotes(b),
    ensures
        a == b,
{
    lemma_pow2_pos(149);
    let one = pow2(149) as int;
    assert(a == b) by (nonlinear_arith)
        requires
            a * one == b * one,
            one > 0,
    ;
}

/// Two constants are the numbers that they are named after, and the magnitude of infinity is the
/// first that no finite number has.
pub proof fn lemma_constants(x: Float32)
    ensures
        (Float32 { bits: ONE }).denotes(1),
        (Float32 { bits: HALF }).finite() && 2 * (Float32 { bits: HALF }).units() == pow2(149),
        (Float32 { bits: 0 }).denotes(0),
        x.finite() <==> !x.nan() && -pow2(277) < x.units() < pow2(277),
        x.nan() <==> 0x7f80_0000 < x.bits < 0x8000_0000 || 0xff80_0000 < x.bits,
{
    lemma2_to64();
    lemma_pow2_adds(23, 126);
    lemma_pow2_adds(23, 125);
    lemma_pow2_adds(23, 254);
    lemma_pow2_unfold(149);
    lemma_pow2_pos(277);
    lemma_pow2_pos(149);
    assert(magnitude_units(0) == 0);
    assert(magnitude_units(INFINITE_MAGNITUDE as int) == pow2(277));
    assert(magnitude_units(ONE as int) == pow2(149));
    assert(magnitude_units(HALF as int) == pow2(148));
    let m = x.magnitude();
    if m > 0 {
        lemma_units_increase(0, m);
    }
    if m < INFINITE_MAGNITUDE {
        lemma_units_increase(m, INFINITE_MAGNITUDE as int);
    }
}

/// The number without its sign is as large and not below zero; the number with the other sign
/// is as far on the other side of zero. A NaN stays one.
pub proof fn lemma_signs(x: Float32)
    ensures
        x.abs_value().nan() == x.nan(),
        x.negation().nan() == x.nan(),
        x.abs_value().units() == (if x.units() < 0 {
            -x.units()
        } else {
            x.units()
        }),
        x.negation().units() == -x.units(),
        x.negation().negation() == x,
        !x.abs_value().negative(),
        x.negation().negative() != x.negative(),
{
    assert(magnitude_units(0) == 0);
    if x.magnitude() > 0 {
        lemma_units_increase(0, x.magnitude());
    }
}

/// The larger of two numbers is one of them and below neither, the smaller is one of them and
/// above neither; a NaN gives way to the other.
pub proof fn lemma_larger_and_smaller(a: Float32, b: Float32)
    ensures
        a.max_value(b) == a || a.max_value(b) == b,
        a.min_value(b) == a || a.min_value(b) == b,
        !a.nan() && !b.nan() ==> {
            &&& a.max_value(b).units() >= a.units()
            &&& a.max_value(b).units() >= b.units()
            &&& a.min_value(b).units() <= a.units()
            &&& a.min_value(b).units() <= b.units()
            &&& !a.max_value(b).nan()
            &&& !a.min_value(b).nan()
        },
        a.nan() ==> a.max_value(b) == b && a.min_value(b) == b,
        b.nan() && !a.nan() ==> a.max_value(b) == a && a.min_value(b) == a,
{
    if !a.nan() && !b.nan() {
        lemma_order_is_numeric(a, b);
        lemma_order_is_numeric(b, a);
    }
}

/// Nothing is below, at most or equal to a NaN, nor is a NaN so to anything.
pub proof fn lemma_nan_unordered(a: Float32, b: Float32)
    requires
        a.nan() || b.nan(),
    ensures
        !a.lt(b),
        !a.le(b),
        !a.numerically_equal(b),
{
}

impl Float32 {
    /// Whether this is a number nearest to the fraction of `numerator` and `denominator`: it
    /// misses it by no more than half the step to the next one.
    pub open spec fn approximates(self, numerator: int, denominator: int) -> bool {
        let miss = self.units() * denominator - numerator * pow2(149);
        let step = denominator * (magnitude_units(self.magnitude() + 1) - magnitude_units(
            self.magnitude(),
        ));
        &&& self.finite()
        &&& !self.negative()
        &&& -step <= 2 * miss <= step
    }
}

/// A number of a given exponent and significand is nearest to a fraction when the significand
/// is, once the fraction is scaled by the exponent.
pub(crate) proof fn lemma_approximates(
    x: Float32,
    exponent: int,
    significand: int,
    numerator: int,
    denominator: int,
    scale: int,
)
    requires
        1 <= exponent <= 150,
        0x80_0000 <= significand < 0xff_ffff,
        x.bits == exponent * 0x80_0000 + (significand - 0x80_0000),
        scale == pow2((150 - exponent) as nat),
        0 < denominator,
        -denominator <= 2 * (significand * denominator - numerator * scale) <= denominator,
    ensures
        x.approximates(numerator, denominator),
{
    let m = x.bits as int;
    let low = pow2((exponent - 1) as nat) as int;
    lemma_pow2_pos((exponent - 1) as nat);
    lemma_pow2_adds((exponent - 1) as nat, (150 - exponent) as nat);
    assert(m / 0x80_0000 == exponent);
    assert(m % 0x80_0000 == significand - 0x80_0000);
    assert((m + 1) / 0x80_0000 == exponent);
    assert((m + 1) % 0x80_0000 == significand - 0x80_0000 + 1);
    assert(x.units() == significand * low);
    assert(magnitude_units(m + 1) == (significand + 1) * low);
    assert(magnitude_units(m + 1) - magnitude_units(m) == low) by (nonlinear_arith)
        requires
            magnitude_units(m + 1) == (significand + 1) * low,
            magnitude_units(m) == significand * low,
    ;
    let miss = significand * denominator - numerator * scale;
    assert(x.units() * denominator - numerator * pow2(149) == low * miss) by (nonlinear_arith)
        requires
            x.units() == significand * low,
            pow2(149) == low * scale,
            miss == significand * denominator - numerator * scale,
    ;
    assert(-(denominator * low) <= 2 * (low * miss) <= denominator * low) by (nonlinear_arith)
        requires
            low > 0,
            -denominator <= 2 * miss <= denominator,
    ;
}

} // verus!
