//! Double-precision numbers, held as their bit patterns.
//!
//! A [`Num`] is the 64 bits of an IEEE 754 double. Everything that depends on
//! the bits alone is decided here: whether a number is a NaN, which of two is
//! the smaller, the absolute value, the larger of two, a clamp. Arithmetic is
//! not: it is asked of a [`Machine`](crate::machine::Machine).
//!
//! [`Num::rank`] maps the bits to an integer that orders as the number does;
//! [`law_rank_orders_values`] ties that rank to the exact value.

use vstd::prelude::*;

verus! {

/// Weight of the sign bit.
pub const SIGN: u64 = 0x8000_0000_0000_0000;

/// Magnitude of an infinity; what lies above is a NaN.
pub const INFINITE: u64 = 0x7FF0_0000_0000_0000;

/// Weight of one step of the exponent field.
pub const EXPONENT_STEP: u64 = 0x0010_0000_0000_0000;

/// 0.0
pub const ZERO: u64 = 0;

/// 1.0
pub const ONE: u64 = 0x3FF0_0000_0000_0000;

/// 2.0
pub const TWO: u64 = 0x4000_0000_0000_0000;

/// A double, as its bit pattern.
#[derive(Clone, Copy, Debug)]
pub struct Num {
    pub bits: u64,
}

/// The exact value, in units of 2^-1074, of the non-negative finite double
/// whose bit pattern is `magnitude`.
pub open spec fn magnitude_value(magnitude: int) -> int {
    let exponent = magnitude / (EXPONENT_STEP as int);
    let fraction = magnitude % (EXPONENT_STEP as int);
    if exponent == 0 {
        fraction
    } else {
        (EXPONENT_STEP + fraction) * vstd::arithmetic::power2::pow2((exponent - 1) as nat)
    }
}

/// One, in units of 2^-1074.
pub open spec fn unit() -> int {
    vstd::arithmetic::power2::pow2(1074) as int
}

impl Num {
    /// The sign bit is set.
    pub open spec fn negative(self) -> bool {
        self.bits >= SIGN
    }

    /// The bits without the sign bit.
    pub open spec fn magnitude(self) -> int {
        self.bits as int % SIGN as int
    }

    /// Not a number.
    pub open spec fn nan(self) -> bool {
        self.magnitude() > INFINITE
    }

    /// Neither infinite nor a NaN.
    pub open spec fn finite(self) -> bool {
        self.magnitude() < INFINITE
    }

    /// Finite, and not so small that bits of the fraction are lost.
    pub open spec fn normal(self) -> bool {
        EXPONENT_STEP <= self.magnitude() < INFINITE
    }

    /// An integer that orders as the number does; both zeros have rank 0.
    pub open spec fn rank(self) -> int {
        if self.negative() {
            -self.magnitude()
        } else {
            self.magnitude()
        }
    }

    /// The exact value of a finite number, in units of 2^-1074.
    pub open spec fn value(self) -> int {
        if self.negative() {
            -magnitude_value(self.magnitude())
        } else {
            magnitude_value(self.magnitude())
        }
    }

    /// `self < other`; false where either is a NaN.
    pub open spec fn below(self, other: Num) -> bool {
        !self.nan() && !other.nan() && self.rank() < other.rank()
    }

    /// `self <= other`; false where either is a NaN.
    pub open spec fn at_most(self, other: Num) -> bool {
        !self.nan() && !other.nan() && self.rank() <= other.rank()
    }

    /// `self == other`: both zeros are one number, and a NaN equals nothing.
    pub open spec fn equals(self, other: Num) -> bool {
        !self.nan() && !other.nan() && self.rank() == other.rank()
    }

    /// The two are one number, or both are a NaN.
    pub open spec fn alike(self, other: Num) -> bool {
        self.equals(other) || self.nan() && other.nan()
    }

    /// The number without its sign.
    pub open spec fn unsigned(self) -> Num {
        Num { bits: self.magnitude() as u64 }
    }

    /// The larger of two numbers; a NaN gives way to the other.
    pub open spec fn larger(self, other: Num) -> Num {
        if self.nan() || self.below(other) {
            other
        } else {
            self
        }
    }

    /// The smaller of two numbers; a NaN gives way to the other.
    pub open spec fn smaller(self, other: Num) -> Num {
        if self.nan() || other.below(self) {
            other
        } else {
            self
        }
    }

    /// The number moved into `low ..= high`; a NaN stays a NaN.
    pub open spec fn confined(self, low: Num, high: Num) -> Num {
        if self.below(low) {
            low
        } else if high.below(self) {
            high
        } else {
            self
        }
    }

    /// Whether this is a NaN.
    pub fn is_nan(self) -> (r: bool)
        ensures
            r == self.nan(),
    {
        self.bits % SIGN > INFINITE
    }

    /// Whether this is neither infinite nor a NaN.
    pub fn is_finite(self) -> (r: bool)
        ensures
            r == self.finite(),
    {
        self.bits % SIGN < INFINITE
    }

    /// `self < other`.
    pub fn lt(self, other: Num) -> (r: bool)
        ensures
            r == self.below(other),
    {
        if self.is_nan() || other.is_nan() {
            return false;
        }
        let (a, b): (u64, u64) = (self.bits % SIGN, other.bits % SIGN);
        if self.bits < SIGN {
            other.bits < SIGN && a < b
        } else if other.bits < SIGN {
            a > 0 || b > 0
        } else {
            b < a
        }
    }

    /// `self <= other`.
    pub fn le(self, other: Num) -> (r: bool)
        ensures
            r == self.at_most(other),
    {
        !self.is_nan() && !other.is_nan() && !other.lt(self)
    }

    /// The absolute value.
    pub fn abs(self) -> (r: Num)
        ensures
            r == self.unsigned(),
    {
        Num { bits: self.bits % SIGN }
    }

    /// The larger of the two; where one is a NaN, the other.
    pub fn max(self, other: Num) -> (r: Num)
        ensures
            r == self.larger(other),
    {
        if self.is_nan() || self.lt(other) {
            other
        } else {
            self
        }
    }

    /// The smaller of the two; where one is a NaN, the other.
    pub fn min(self, other: Num) -> (r: Num)
        ensures
            r == self.smaller(other),
    {
        if self.is_nan() || other.lt(self) {
            other
        } else {
            self
        }
    }

    /// The number moved into `low ..= high`.
    pub fn clamp(self, low: Num, high: Num) -> (r: Num)
        requires
            low.at_most(high),
        ensures
            r == self.confined(low, high),
    {
        if self.lt(low) {
            low
        } else if high.lt(self) {
            high
        } else {
            self
        }
    }
}

impl PartialEq for Num {
    fn eq(&self, other: &Num) -> (r: bool) {
        self.le(*other) && other.le(*self)
    }
}

impl vstd::std_specs::cmp::PartialEqSpecImpl for Num {
    open spec fn obeys_eq_spec() -> bool {
        true
    }

    open spec fn eq_spec(&self, other: &Num) -> bool {
        self.equals(*other)
    }
}

/// One step up in magnitude is one step up in value.
proof fn lemma_magnitude_step(magnitude: int)
    requires
        0 <= magnitude,
    ensures
        magnitude_value(magnitude) < magnitude_value(magnitude + 1),
{
    let step = EXPONENT_STEP as int;
    let e = magnitude / step;
    let f = magnitude % step;
    if f + 1 < step {
        assert((magnitude + 1) / step == e && (magnitude + 1) % step == f + 1);
        if e > 0 {
            let p = vstd::arithmetic::power2::pow2((e - 1) as nat);
            vstd::arithmetic::power2::lemma_pow2_pos((e - 1) as nat);
            assert((step + f) * p < (step + f + 1) * p) by (nonlinear_arith)
                requires
                    p > 0,
            ;
        }
    } else {
        assert((magnitude + 1) / step == e + 1 && (magnitude + 1) % step == 0);
        if e == 0 {
            vstd::arithmetic::power2::lemma2_to64();
        } else {
            let p = vstd::arithmetic::power2::pow2((e - 1) as nat);
            vstd::arithmetic::power2::lemma_pow2_pos((e - 1) as nat);
            vstd::arithmetic::power2::lemma_pow2_unfold(e as nat);
            assert((step + f) * p < step * (2 * p)) by (nonlinear_arith)
                requires
                    p > 0,
                    f < step,
            ;
        }
    }
}

/// Magnitudes order as the values do.
proof fn lemma_magnitude_orders(low: int, high: int)
    requires
        0 <= low < high,
    ensures
        magnitude_value(low) < magnitude_value(high),
    decreases high - low,
{
    lemma_magnitude_step(high - 1);
    if low < high - 1 {
        lemma_magnitude_orders(low, high - 1);
    }
}

/// Two finite numbers compare by [`Num::below`], [`Num::at_most`] and
/// [`Num::equals`] as their exact values do.
pub proof fn law_rank_orders_values(a: Num, b: Num)
    requires
        a.finite(),
        b.finite(),
    ensures
        a.below(b) <==> a.value() < b.value(),
        a.at_most(b) <==> a.value() <= b.value(),
        a.equals(b) <==> a.value() == b.value(),
{
    let (m, n) = (a.magnitude(), b.magnitude());
    assert(magnitude_value(0) == 0);
    if m < n {
        lemma_magnitude_orders(m, n);
    }
    if n < m {
        lemma_magnitude_orders(n, m);
    }
    if 0 < m {
        lemma_magnitude_orders(0, m);
    }
    if 0 < n {
        lemma_magnitude_orders(0, n);
    }
}

/// The exact values of 0.0 and 1.0.
pub(crate) proof fn lemma_zero_and_one()
    ensures
        (Num { bits: ZERO }).value() == 0,
        (Num { bits: ONE }).value() == unit(),
        unit() > 0,
{
    vstd::arithmetic::power2::lemma2_to64_rest();
    vstd::arithmetic::power2::lemma_pow2_adds(52, 1022);
    vstd::arithmetic::power2::lemma_pow2_pos(1074);
}

/// An infinity lies beyond every finite number on its side.
pub proof fn law_infinities_bound(a: Num, infinity: Num)
    requires
        a.finite(),
        infinity.magnitude() == INFINITE,
    ensures
        infinity.negative() ==> infinity.below(a),
        !infinity.negative() ==> a.below(infinity),
{
}

/// A clamped number lies within the bounds, unless it is a NaN.
pub proof fn law_confined_lies_within(a: Num, low: Num, high: Num)
    requires
        low.at_most(high),
        !a.nan(),
    ensures
        low.at_most(a.confined(low, high)),
        a.confined(low, high).at_most(high),
{
}

/// A NaN has every bit of its exponent set and some bit of its fraction; a
/// finite number has some bit of its exponent unset.
pub proof fn law_the_exponent_tells_what_is_finite(a: Num)
    ensures
        a.nan() <==> (a.bits / 0x10_0000_0000_0000) % 2048 == 2047 && a.bits % 0x10_0000_0000_0000
            != 0,
        a.finite() <==> (a.bits / 0x10_0000_0000_0000) % 2048 != 2047,
{
}

/// The larger of two numbers is one of them and lies below neither, the
/// smaller likewise; a NaN gives way to the other number.
pub proof fn law_extremes_of_two(a: Num, b: Num)
    ensures
        !a.nan() && !b.nan() ==> {
            &&& a.larger(b) == a || a.larger(b) == b
            &&& a.at_most(a.larger(b)) && b.at_most(a.larger(b))
            &&& a.smaller(b) == a || a.smaller(b) == b
            &&& a.smaller(b).at_most(a) && a.smaller(b).at_most(b)
        },
        a.nan() ==> a.larger(b) == b && a.smaller(b) == b,
        !a.nan() && b.nan() ==> a.larger(b) == a && a.smaller(b) == a,
{
}

/// The number without its sign has the size of the number.
pub proof fn law_unsigned_is_the_size(a: Num)
    ensures
        !a.unsigned().negative(),
        a.unsigned().nan() == a.nan(),
        a.unsigned().finite() == a.finite(),
        a.finite() ==> a.unsigned().value() == (if a.value() < 0 {
            -a.value()
        } else {
            a.value()
        }),
{
    if a.finite() {
        law_rank_orders_values(a, Num { bits: ZERO });
        lemma_zero_and_one();
    }
}

/// A clamp leaves alone what lies within its bounds, and gives the bound that
/// is passed otherwise.
pub proof fn law_a_clamp_moves_what_lies_outside(a: Num, low: Num, high: Num)
    requires
        low.at_most(high),
    ensures
        a.below(low) ==> a.confined(low, high) == low,
        high.below(a) ==> a.confined(low, high) == high,
        !a.below(low) && !high.below(a) ==> a.confined(low, high) == a,
{
}

/// A NaN compares with nothing, itself included.
pub proof fn law_a_nan_compares_with_nothing(a: Num, b: Num)
    requires
        a.nan() || b.nan(),
    ensures
        !a.below(b) && !a.at_most(b) && !a.equals(b),
        !b.below(a) && !b.at_most(a) && !b.equals(a),
{
}

/// All other numbers stand in one order: of any two, one lies below the other
/// or they are equal, and what is at most another is below it or equal to it.
pub proof fn law_numbers_stand_in_one_order(a: Num, b: Num, c: Num)
    requires
        !a.nan() && !b.nan() && !c.nan(),
    ensures
        a.below(b) || a.equals(b) || b.below(a),
        a.below(b) ==> !a.equals(b) && !b.below(a),
        a.equals(b) <==> b.equals(a),
        a.at_most(b) <==> a.below(b) || a.equals(b),
        a.at_most(b) && b.at_most(c) ==> a.at_most(c),
        a.bits == b.bits ==> a.equals(b),
{
}

} // verus!
