//! Single-precision numbers by their IEEE 754 bit patterns.
//!
//! The library orders, selects, stores and moves such numbers; it does no
//! arithmetic on them. Comparison is decided on the bits, and
//! `lemma_comparison_is_numeric` ties it to the numbers that the bits denote.
use vstd::arithmetic::power2::*;
use vstd::prelude::*;

verus! {

/// Bits of positive infinity; a larger magnitude is not a number.
pub const INFINITY_BITS: u32 = 0x7F80_0000;

/// Bits of negative infinity.
pub const NEG_INFINITY_BITS: u32 = 0xFF80_0000;

/// The sign bit.
pub const SIGN_BIT: u32 = 0x8000_0000;

/// A single-precision number, given by its bit pattern.
#[derive(Clone, Copy, Debug, PartialEq, Eq, Structural)]
pub struct Single {
    pub bits: u32,
}

/// The number with the given bit pattern.
pub fn single(bits: u32) -> (x: Single)
    ensures
        x.bits == bits,
{
    Single { bits }
}

impl Single {
    /// The bit pattern without the sign.
    pub open spec fn magnitude(self) -> int {
        if self.bits >= SIGN_BIT {
            self.bits - SIGN_BIT
        } else {
            self.bits as int
        }
    }

    /// Whether the pattern is not a number.
    pub open spec fn nan(self) -> bool {
        self.magnitude() > INFINITY_BITS
    }

    /// Whether the pattern denotes a finite number.
    pub open spec fn finite(self) -> bool {
        self.magnitude() < INFINITY_BITS
    }

    /// The signed magnitude, by which numbers are ordered. Both zeros have
    /// key zero.
    pub open spec fn key(self) -> int {
        if self.bits >= SIGN_BIT {
            -self.magnitude()
        } else {
            self.magnitude()
        }
    }

    /// `self < other`; false where either is not a number.
    pub open spec fn less(self, other: Single) -> bool {
        !self.nan() && !other.nan() && self.key() < other.key()
    }

    /// `self <= other`; false where either is not a number.
    pub open spec fn at_most(self, other: Single) -> bool {
        !self.nan() && !other.nan() && self.key() <= other.key()
    }

    /// The place in a total order in which what is not a number stands below
    /// every number.
    pub open spec fn rank(self) -> int {
        if self.nan() {
            -0x8000_0000
        } else {
            self.key()
        }
    }

    /// Whether the pattern is not a number.
    pub fn is_nan(&self) -> (b: bool)
        ensures
            b == self.nan(),
    {
        if self.bits >= SIGN_BIT {
            self.bits - SIGN_BIT > INFINITY_BITS
        } else {
            self.bits > INFINITY_BITS
        }
    }

    /// The signed magnitude.
    pub fn order_key(&self) -> (k: i64)
        ensures
            k == self.key(),
    {
        if self.bits >= SIGN_BIT {
            -((self.bits - SIGN_BIT) as i64)
        } else {
            self.bits as i64
        }
    }

    /// The place in the total order.
    pub fn order_rank(&self) -> (r: i64)
        ensures
            r == self.rank(),
            -0x8000_0000 <= r <= 0x7F80_0000,
    {
        if self.is_nan() {
            -0x8000_0000
        } else {
            self.order_key()
        }
    }

    /// Numeric `<`.
    pub fn is_less(&self, other: &Single) -> (b: bool)
        ensures
            b == self.less(*other),
    {
        !self.is_nan() && !other.is_nan() && self.order_key() < other.order_key()
    }

    /// Numeric `<=`.
    pub fn is_at_most(&self, other: &Single) -> (b: bool)
        ensures
            b == self.at_most(*other),
    {
        !self.is_nan() && !other.is_nan() && self.order_key() <= other.order_key()
    }

    /// The larger of two numbers. Where one is not a number it is the other;
    /// of two equal numbers it is the first.
    pub open spec fn larger(self, other: Single) -> Single {
        if self.nan() || self.less(other) {
            other
        } else {
            self
        }
    }

    /// The larger of two numbers.
    pub fn maximum(&self, other: &Single) -> (r: Single)
        ensures
            r == self.larger(*other),
    {
        if self.is_nan() || self.is_less(other) {
            *other
        } else {
            *self
        }
    }

    /// The bit pattern with the sign cleared.
    pub open spec fn absolute(self) -> Single {
        Single { bits: self.magnitude() as u32 }
    }

    /// Clears the sign.
    pub fn abs(&self) -> (r: Single)
        ensures
            r == self.absolute(),
    {
        if self.bits >= SIGN_BIT {
            Single { bits: self.bits - SIGN_BIT }
        } else {
            *self
        }
    }

    /// The magnitude of the doubled number: one more in the exponent, one more
    /// place for a subnormal number, and infinity where that overflows.
    pub open spec fn doubled_magnitude(self) -> int {
        let m = self.magnitude();
        if m >= 0x7F00_0000 {
            if m > INFINITY_BITS {
                m
            } else {
                INFINITY_BITS as int
            }
        } else if m < 0x80_0000 {
            2 * m
        } else {
            m + 0x80_0000
        }
    }

    /// Twice the number.
    pub open spec fn doubled(self) -> Single {
        if self.bits >= SIGN_BIT {
            Single { bits: (self.doubled_magnitude() + SIGN_BIT) as u32 }
        } else {
            Single { bits: self.doubled_magnitude() as u32 }
        }
    }

    /// Doubles the number.
    pub fn twice(&self) -> (r: Single)
        ensures
            r == self.doubled(),
    {
        let m: u32 = self.abs().bits;
        let d: u32 = if m >= 0x7F00_0000 {
            if m > INFINITY_BITS {
                m
            } else {
                INFINITY_BITS
            }
        } else if m < 0x80_0000 {
            2 * m
        } else {
            m + 0x80_0000
        };
        if self.bits >= SIGN_BIT {
            Single { bits: d + SIGN_BIT }
        } else {
            Single { bits: d }
        }
    }

    /// The number moved into an interval. What is not a number stays.
    pub open spec fn clamped(self, low: Single, high: Single) -> Single {
        if self.less(low) {
            low
        } else if high.less(self) {
            high
        } else {
            self
        }
    }

    /// Moves the number into an interval.
    pub fn clamp_to(&self, low: &Single, high: &Single) -> (r: Single)
        ensures
            r == self.clamped(*low, *high),
    {
        if self.is_less(low) {
            *low
        } else if high.is_less(self) {
            *high
        } else {
            *self
        }
    }
}

/// The absolute value that a finite magnitude denotes, in units of the least
/// positive single-precision number.
pub open spec fn units(magnitude: int) -> int {
    let exponent = magnitude / 0x80_0000;
    let fraction = magnitude % 0x80_0000;
    if exponent == 0 {
        fraction
    } else {
        (fraction + 0x80_0000) * pow2((exponent - 1) as nat)
    }
}

/// The number that a finite pattern denotes, in the same units.
pub open spec fn value(x: Single) -> int {
    if x.bits >= SIGN_BIT {
        -units(x.magnitude())
    } else {
        units(x.magnitude())
    }
}

proof fn lemma_units_increase(a: int, b: int)
    requires
        0 <= a < b,
    ensures
        0 <= units(a) < units(b),
{
    let ea = a / 0x80_0000;
    let fa = a % 0x80_0000;
    let eb = b / 0x80_0000;
    let fb = b % 0x80_0000;
    assert(ea <= eb);
    if ea >= 1 {
        lemma_pow2_pos((ea - 1) as nat);
        let pa = pow2((ea - 1) as nat) as int;
        assert((fa + 0x80_0000) * pa >= 0) by (nonlinear_arith)
            requires
                fa >= 0,
                pa > 0,
        ;
    }
    if eb >= 1 {
        lemma_pow2_pos((eb - 1) as nat);
    }
    if ea == eb {
        if ea >= 1 {
            let pa = pow2((ea - 1) as nat) as int;
            assert((fa + 0x80_0000) * pa < (fb + 0x80_0000) * pa) by (nonlinear_arith)
                requires
                    fa < fb,
                    pa > 0,
            ;
        }
    } else {
        let pb = pow2((eb - 1) as nat) as int;
        assert((fb + 0x80_0000) * pb >= 0x80_0000 * pb) by (nonlinear_arith)
            requires
                fb >= 0,
                pb > 0,
        ;
        if ea == 0 {
            assert(0x80_0000 * pb >= 0x80_0000) by (nonlinear_arith)
                requires
                    pb > 0,
            ;
        } else {
            let pa = pow2((ea - 1) as nat) as int;
            lemma_pow2_unfold(ea as nat);
            if ea < eb - 1 {
                lemma_pow2_strictly_increases(ea as nat, (eb - 1) as nat);
            }
            assert(2 * pa <= pb);
            assert((fa + 0x80_0000) * pa < 0x100_0000 * pa) by (nonlinear_arith)
                requires
                    fa < 0x80_0000,
                    pa > 0,
            ;
            assert(0x100_0000 * pa <= 0x80_0000 * pb) by (nonlinear_arith)
                requires
                    2 * pa <= pb,
            ;
        }
    }
}

/// On finite numbers, comparison of bit patterns is comparison of the numbers
/// that they denote.
pub proof fn lemma_comparison_is_numeric(a: Single, b: Single)
    requires
        a.finite(),
        b.finite(),
    ensures
        a.less(b) <==> value(a) < value(b),
        a.at_most(b) <==> value(a) <= value(b),
{
    assert(units(0) == 0);
    if a.magnitude() > 0 {
        lemma_units_increase(0, a.magnitude());
    }
    if b.magnitude() > 0 {
        lemma_units_increase(0, b.magnitude());
    }
    if a.magnitude() < b.magnitude() {
        lemma_units_increase(a.magnitude(), b.magnitude());
    } else if b.magnitude() < a.magnitude() {
        lemma_units_increase(b.magnitude(), a.magnitude());
    }
}

/// Doubling doubles the number that the bits denote, unless it overflows.
pub proof fn lemma_doubling_is_exact(x: Single)
    requires
        x.finite(),
        x.doubled().finite(),
    ensures
        value(x.doubled()) == 2 * value(x),
{
    let m = x.magnitude();
    let d = x.doubled_magnitude();
    assert(x.doubled().magnitude() == d);
    let e = m / 0x80_0000;
    let f = m % 0x80_0000;
    if m < 0x80_0000 {
        if d >= 0x80_0000 {
            lemma2_to64();
            assert(d / 0x80_0000 == 1);
            assert(d % 0x80_0000 == d - 0x80_0000);
            assert(pow2((d / 0x80_0000 - 1) as nat) == 1);
            assert(d * pow2(0) == d);
            assert(units(d) == d);
        }
    } else {
        assert(d / 0x80_0000 == e + 1);
        assert(d % 0x80_0000 == f);
        lemma_pow2_unfold(e as nat);
        let p = pow2((e - 1) as nat) as int;
        assert((f + 0x80_0000) * (2 * p) == 2 * ((f + 0x80_0000) * p)) by (nonlinear_arith);
    }
}

/// A number is below another exactly if both are numbers and it is; a zero is below
/// no zero, and infinity is above everything finite. What is not a number compares
/// with nothing.
pub proof fn lemma_comparison(a: Single, b: Single, nan: bool, less: bool, at_most: bool)
    requires
        call_ensures(Single::is_nan, (&a,), nan),
        call_ensures(Single::is_less, (&a, &b), less),
        call_ensures(Single::is_at_most, (&a, &b), at_most),
    ensures
        nan <==> a.bits % 0x8000_0000 > 0x7F80_0000,
        nan || b.bits % 0x8000_0000 > 0x7F80_0000 ==> !less && !at_most,
        less ==> at_most,
        a.bits < 0x8000_0000 && b.bits < 0x8000_0000 && b.bits <= 0x7F80_0000 ==> (less <==> a.bits
            < b.bits) && (at_most <==> a.bits <= b.bits),
        a.bits >= 0x8000_0000 && b.bits >= 0x8000_0000 && a.bits <= 0xFF80_0000 ==> (less
            <==> a.bits > b.bits) && (at_most <==> a.bits >= b.bits),
        a.bits >= 0x8000_0000 && b.bits < 0x8000_0000 && a.bits <= 0xFF80_0000 && b.bits
            <= 0x7F80_0000 ==> at_most && (less <==> a.bits != 0x8000_0000 || b.bits != 0),
        a.bits < 0x8000_0000 && b.bits >= 0x8000_0000 ==> !less,
{
}

/// The places of numbers are in their order, and what is not a number stands below
/// every number.
pub proof fn lemma_rank_is_in_order(a: Single, b: Single, p: i64, q: i64, less: bool)
    requires
        call_ensures(Single::order_rank, (&a,), p),
        call_ensures(Single::order_rank, (&b,), q),
        call_ensures(Single::is_less, (&a, &b), less),
    ensures
        p < q <==> less || (a.bits % 0x8000_0000 > 0x7F80_0000 && b.bits % 0x8000_0000
            <= 0x7F80_0000),
{
}

/// Of two numbers the maximum is one of them and below neither; where one is not a
/// number it is the other.
pub proof fn lemma_maximum_is_not_below(a: Single, b: Single, r: Single, below: bool)
    requires
        call_ensures(Single::maximum, (&a, &b), r),
        call_ensures(Single::is_less, (&a, &b), below),
    ensures
        a.bits % 0x8000_0000 > 0x7F80_0000 ==> r == b,
        b.bits % 0x8000_0000 > 0x7F80_0000 && a.bits % 0x8000_0000 <= 0x7F80_0000 ==> r == a,
        below ==> r == b,
        !below && a.bits % 0x8000_0000 <= 0x7F80_0000 ==> r == a,
{
}

/// A number that is moved into an interval lies in it, and stays if it does; what is
/// not a number stays.
pub proof fn lemma_clamped_lies_between(
    x: Single,
    low: Single,
    high: Single,
    r: Single,
    ends: (bool, bool),
    inside: (bool, bool),
)
    requires
        call_ensures(Single::clamp_to, (&x, &low, &high), r),
        call_ensures(Single::is_at_most, (&low, &x), inside.0),
        call_ensures(Single::is_at_most, (&x, &high), inside.1),
        call_ensures(Single::is_at_most, (&low, &r), ends.0),
        call_ensures(Single::is_at_most, (&r, &high), ends.1),
    ensures
        inside.0 && inside.1 ==> r == x,
        x.nan() ==> r == x,
        !x.nan() && low.at_most(high) ==> ends.0 && ends.1,
        !x.nan() && low.at_most(high) ==> r == x || r == low || r == high,
{
}

/// The absolute value has the number without its sign.
pub proof fn lemma_absolute_has_no_sign(x: Single, r: Single)
    requires
        call_ensures(Single::abs, (&x,), r),
    ensures
        r.bits < 0x8000_0000,
        r.bits == x.bits || r.bits + 0x8000_0000 == x.bits,
        x.finite() ==> value(r) == value(x) || value(r) == -value(x),
{
}

/// Doubling keeps the sign, is exact where the double is finite, and is infinite
/// exactly for what is infinite or half the largest power of two or more; what is
/// not a number stays.
pub proof fn lemma_doubled(x: Single, r: Single)
    requires
        call_ensures(Single::twice, (&x,), r),
    ensures
        r.bits >= 0x8000_0000 <==> x.bits >= 0x8000_0000,
        x.bits % 0x8000_0000 < 0x7F00_0000 ==> r.finite() && value(r) == 2 * value(x),
        0x7F00_0000 <= x.bits % 0x8000_0000 <= 0x7F80_0000 ==> r.bits % 0x8000_0000 == 0x7F80_0000,
        x.bits % 0x8000_0000 > 0x7F80_0000 ==> r == x,
{
    if x.bits % 0x8000_0000 < 0x7F00_0000 {
        lemma_doubling_is_exact(x);
    }
}

} // verus!
