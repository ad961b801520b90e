//! Double-precision numbers as bit patterns, and the arithmetic they are put through.
//!
//! A [`Real`] is the 64-bit pattern of an IEEE 754 double.  Everything that can be
//! decided exactly from the pattern is decided here with integers: the class of a
//! number, its order, its sign, the larger of two.  Rounded operations belong to an
//! [`Arithmetic`], which the caller supplies and of which nothing is assumed.

use vstd::arithmetic::div_mod::{
    lemma_fundamental_div_mod, lemma_fundamental_div_mod_converse, lemma_mod_bound,
};
use vstd::arithmetic::power2::{
    lemma2_to64, lemma2_to64_rest, lemma_pow2_adds, lemma_pow2_pos, lemma_pow2_strictly_increases,
    pow2,
};
use vstd::bits::{lemma_u64_shl_is_mul, lemma_u64_shr_is_div};
use vstd::prelude::*;

verus! {

/// The sign bit of a double.
pub const SIGN: u64 = 0x8000_0000_0000_0000;

/// The magnitude bits of an infinity; larger magnitudes are not numbers.
pub const INFINITE: u64 = 0x7FF0_0000_0000_0000;

/// One unit of the exponent field.
pub const EXPONENT_UNIT: u64 = 0x0010_0000_0000_0000;

/// A double-precision number, held as its bit pattern.
#[derive(Clone, Copy, PartialEq, Eq, Structural, Debug)]
pub struct Real {
    pub bits: u64,
}

/// The bit patterns of the constants that the library uses.
pub const ZERO: u64 = 0;
pub const ONE: u64 = 0x3FF0_0000_0000_0000;
pub const MINUS_ONE: u64 = 0xBFF0_0000_0000_0000;
pub const HALF: u64 = 0x3FE0_0000_0000_0000;
pub const TWO: u64 = 0x4000_0000_0000_0000;
pub const INFINITY: u64 = 0x7FF0_0000_0000_0000;
pub const NEG_INFINITY: u64 = 0xFFF0_0000_0000_0000;
pub const NAN: u64 = 0x7FF8_0000_0000_0000;
/// The largest finite double.
pub const MAX: u64 = 0x7FEF_FFFF_FFFF_FFFF;
/// The smallest positive normal double.
pub const MIN_POSITIVE: u64 = 0x0010_0000_0000_0000;
/// The distance from one to the next larger double.
pub const EPSILON: u64 = 0x3CB0_0000_0000_0000;

/// The absolute value of the finite double with magnitude bits `m`, in units of the
/// smallest positive double.
pub open spec fn units_of(m: int) -> int {
    let exponent = m / (EXPONENT_UNIT as int);
    let fraction = m % (EXPONENT_UNIT as int);
    if exponent == 0 {
        fraction
    } else {
        (EXPONENT_UNIT + fraction) * pow2((exponent - 1) as nat)
    }
}

impl Real {
    /// The pattern without its sign.
    pub open spec fn magnitude(self) -> int {
        if self.bits < SIGN {
            self.bits as int
        } else {
            self.bits - SIGN
        }
    }

    pub open spec fn nan(self) -> bool {
        self.magnitude() > INFINITE
    }

    pub open spec fn finite(self) -> bool {
        self.magnitude() < INFINITE
    }

    /// Position on the number line: doubles other than NaN are ordered as these
    /// integers are, and both zeros stand at 0.
    pub open spec fn place(self) -> int {
        if self.bits < SIGN {
            self.magnitude()
        } else {
            -self.magnitude()
        }
    }

    /// The exact value of a finite double, in units of the smallest positive double.
    pub open spec fn value(self) -> int {
        if self.bits < SIGN {
            units_of(self.magnitude())
        } else {
            -units_of(self.magnitude())
        }
    }

    pub open spec fn below(self, other: Real) -> bool {
        !self.nan() && !other.nan() && self.place() < other.place()
    }

    pub open spec fn at_most(self, other: Real) -> bool {
        !self.nan() && !other.nan() && self.place() <= other.place()
    }

    pub open spec fn level(self, other: Real) -> bool {
        !self.nan() && !other.nan() && self.place() == other.place()
    }

    pub open spec fn negated(self) -> Real {
        Real {
            bits: if self.bits < SIGN {
                (self.bits + SIGN) as u64
            } else {
                (self.bits - SIGN) as u64
            },
        }
    }

    pub open spec fn absolute(self) -> Real {
        Real { bits: self.magnitude() as u64 }
    }

    /// The larger operand, or the one that is a number.
    pub open spec fn larger(self, other: Real) -> Real {
        if self.nan() {
            other
        } else if other.nan() {
            self
        } else if self.place() < other.place() {
            other
        } else {
            self
        }
    }

    /// The smaller operand, or the one that is a number.
    pub open spec fn smaller(self, other: Real) -> Real {
        if self.nan() {
            other
        } else if other.nan() {
            self
        } else if other.place() < self.place() {
            other
        } else {
            self
        }
    }

    /// The point of `[lo, hi]` nearest to this number; NaN stays NaN.
    pub open spec fn clamped(self, lo: Real, hi: Real) -> Real {
        if self.below(lo) {
            lo
        } else if hi.below(self) {
            hi
        } else {
            self
        }
    }

    /// Whether this number lies in `[lo, hi]`.
    pub open spec fn within(self, lo: Real, hi: Real) -> bool {
        lo.at_most(self) && self.at_most(hi)
    }

    fn magnitude_bits(self) -> (r: u64)
        ensures
            r == self.magnitude(),
    {
        if self.bits < SIGN {
            self.bits
        } else {
            self.bits - SIGN
        }
    }

    pub fn is_nan(self) -> (r: bool)
        ensures
            r == self.nan(),
    {
        self.magnitude_bits() > INFINITE
    }

    pub fn is_finite(self) -> (r: bool)
        ensures
            r == self.finite(),
    {
        self.magnitude_bits() < INFINITE
    }

    /// `self < other`.
    pub fn lt(self, other: Real) -> (r: bool)
        ensures
            r == self.below(other),
    {
        if self.is_nan() || other.is_nan() {
            false
        } else if self.bits < SIGN {
            other.bits < SIGN && self.bits < other.bits
        } else if other.bits < SIGN {
            self.magnitude_bits() > 0 || other.magnitude_bits() > 0
        } else {
            self.bits > other.bits
        }
    }

    /// `self <= other`.
    pub fn le(self, other: Real) -> (r: bool)
        ensures
            r == self.at_most(other),
    {
        if self.is_nan() || other.is_nan() {
            false
        } else {
            !other.lt(self)
        }
    }

    /// `self > other`.
    pub fn gt(self, other: Real) -> (r: bool)
        ensures
            r == other.below(self),
    {
        other.lt(self)
    }

    /// `self >= other`.
    pub fn ge(self, other: Real) -> (r: bool)
        ensures
            r == other.at_most(self),
    {
        other.le(self)
    }

    /// `self == other`, which holds of the two zeros and never of NaN.
    pub fn equals(self, other: Real) -> (r: bool)
        ensures
            r == self.level(other),
    {
        self.le(other) && other.le(self)
    }

    pub fn neg(self) -> (r: Real)
        ensures
            r == self.negated(),
    {
        if self.bits < SIGN {
            Real { bits: self.bits + SIGN }
        } else {
            Real { bits: self.bits - SIGN }
        }
    }

    pub fn abs(self) -> (r: Real)
        ensures
            r == self.absolute(),
    {
        Real { bits: self.magnitude_bits() }
    }

    pub fn max(self, other: Real) -> (r: Real)
        ensures
            r == self.larger(other),
    {
        if self.is_nan() {
            other
        } else if other.is_nan() {
            self
        } else if self.lt(other) {
            other
        } else {
            self
        }
    }

    pub fn min(self, other: Real) -> (r: Real)
        ensures
            r == self.smaller(other),
    {
        if self.is_nan() {
            other
        } else if other.is_nan() {
            self
        } else if other.lt(self) {
            other
        } else {
            self
        }
    }

    pub fn clamp(self, lo: Real, hi: Real) -> (r: Real)
        requires
            lo.at_most(hi),
        ensures
            r == self.clamped(lo, hi),
            !self.nan() ==> r.within(lo, hi),
    {
        if self.lt(lo) {
            lo
        } else if self.gt(hi) {
            hi
        } else {
            self
        }
    }
}

/// Among finite magnitudes the larger pattern is the larger number.
proof fn units_increase(m: int, n: int)
    requires
        0 <= m < n,
    ensures
        0 <= units_of(m) < units_of(n),
{
    let unit = EXPONENT_UNIT as int;
    let (d, e) = (m / unit, n / unit);
    let (f, g) = (m % unit, n % unit);
    assert(m == d * unit + f && n == e * unit + g && 0 <= f < unit && 0 <= g < unit && 0 <= d <= e) by {
        vstd::arithmetic::div_mod::lemma_fundamental_div_mod(m, unit);
        vstd::arithmetic::div_mod::lemma_fundamental_div_mod(n, unit);
        vstd::arithmetic::div_mod::lemma_div_is_ordered(m, n, unit);
    }
    if d > 0 {
        lemma_pow2_pos((d - 1) as nat);
    }
    if e > 0 {
        lemma_pow2_pos((e - 1) as nat);
    }
    if d == e {
        assert(f < g);
        if d > 0 {
            let p = pow2((d - 1) as nat) as int;
            assert((unit + f) * p < (unit + g) * p && 0 <= (unit + f) * p) by (nonlinear_arith)
                requires
                    p > 0,
                    0 <= f < g,
                    unit > 0,
            ;
        }
    } else {
        let q = pow2((e - 1) as nat) as int;
        assert(unit * q <= (unit + g) * q) by (nonlinear_arith)
            requires
                q > 0,
                g >= 0,
        ;
        if d == 0 {
            assert(unit <= unit * q) by (nonlinear_arith)
                requires
                    q > 0,
                    unit > 0,
            ;
        } else {
            let p = pow2((d - 1) as nat) as int;
            assert(2 * p <= q) by {
                lemma_pow2_adds(1, (d - 1) as nat);
                lemma2_to64();
                if d < e - 1 {
                    lemma_pow2_strictly_increases(d as nat, (e - 1) as nat);
                }
            }
            assert((unit + f) * p < unit * q && 0 <= (unit + f) * p) by (nonlinear_arith)
                requires
                    p > 0,
                    2 * p <= q,
                    0 <= f < unit,
            ;
        }
    }
}

/// Finite doubles are ordered as their exact values are.
pub proof fn order_is_order_of_values(a: Real, b: Real)
    requires
        a.finite(),
        b.finite(),
    ensures
        a.below(b) <==> a.value() < b.value(),
        a.at_most(b) <==> a.value() <= b.value(),
        a.level(b) <==> a.value() == b.value(),
{
    let (m, n) = (a.magnitude(), b.magnitude());
    if m < n {
        units_increase(m, n);
    } else if n < m {
        units_increase(n, m);
    }
    if m > 0 {
        units_increase(0, m);
    }
    if n > 0 {
        units_increase(0, n);
    }
}

/// The exponent of the units: one is this many doublings of the smallest positive double.
pub open spec fn unit_doublings() -> nat {
    1074
}

/// The largest fraction that is overlooked where a whole number is wanted, `1e-9`.
pub const FRACTION_TOL: u64 = 0x3E11_2E0B_E826_D695;

/// `m 2^k` taken apart at `2^(j + k)`.
proof fn lemma_scaled_division(m: int, j: nat, k: nat)
    requires
        0 <= m,
    ensures
        (m * pow2(k)) / (pow2(j + k) as int) == m / (pow2(j) as int),
        (m * pow2(k)) % (pow2(j + k) as int) == (m % (pow2(j) as int)) * pow2(k),
{
    lemma_pow2_pos(j);
    lemma_pow2_pos(k);
    lemma_pow2_adds(j, k);
    let (p, q) = (pow2(j) as int, pow2(k) as int);
    let (a, b) = (m / p, m % p);
    lemma_fundamental_div_mod(m, p);
    lemma_mod_bound(m, p);
    assert(m * q == a * (p * q) + b * q && 0 <= b * q < p * q) by (nonlinear_arith)
        requires
            m == p * a + b,
            0 <= b < p,
            q > 0,
    ;
    lemma_fundamental_div_mod_converse(m * q, p * q, a, b * q);
}

/// `m 2^k` taken apart at a smaller power of two.
proof fn lemma_scaled_whole(m: int, j: nat, k: nat)
    requires
        0 <= m,
    ensures
        (m * pow2(j + k)) / (pow2(k) as int) == m * pow2(j),
        (m * pow2(j + k)) % (pow2(k) as int) == 0,
{
    lemma_pow2_pos(k);
    lemma_pow2_adds(j, k);
    let (p, q) = (pow2(j) as int, pow2(k) as int);
    assert(m * (p * q) == (m * p) * q) by (nonlinear_arith);
    lemma_fundamental_div_mod_converse(m * (p * q), q, m * p, 0);
}

/// A magnitude below that of one stands for less than one.
proof fn lemma_below_one(m: int)
    requires
        0 <= m < ONE,
    ensures
        0 <= units_of(m) < pow2(unit_doublings()),
{
    units_increase(m, ONE as int);
    assert(units_of(ONE as int) == pow2(unit_doublings())) by {
        lemma_pow2_adds(52, 1022);
        lemma2_to64_rest();
    }
}

impl Real {
    /// The integer part of a number that is not negative, as far as 64 bits can hold it;
    /// zero for a number that is negative or NaN.
    pub open spec fn whole_part(self) -> nat {
        if self.nan() || self.bits >= SIGN {
            0
        } else if self.bits == INFINITE || units_of(self.magnitude()) / (pow2(
            unit_doublings(),
        ) as int) > u64::MAX {
            u64::MAX as nat
        } else {
            (units_of(self.magnitude()) / (pow2(unit_doublings()) as int)) as nat
        }
    }

    /// Whether the fraction of a finite number that is not negative can be overlooked.
    pub open spec fn near_whole(self) -> bool {
        units_of(self.magnitude()) % (pow2(unit_doublings()) as int) <= units_of(
            FRACTION_TOL as int,
        )
    }

    /// The integer part.
    pub fn whole(self) -> (r: u64)
        ensures
            r == self.whole_part(),
    {
        if self.is_nan() || self.bits >= SIGN {
            return 0;
        }
        if self.bits == INFINITE {
            return u64::MAX;
        }
        let exponent: u64 = self.bits / EXPONENT_UNIT;
        let fraction: u64 = self.bits % EXPONENT_UNIT;
        let mantissa: u64 = EXPONENT_UNIT + fraction;
        let ghost m = mantissa as int;
        let ghost one = pow2(unit_doublings()) as int;
        if exponent < 1023 {
            proof {
                lemma_below_one(self.magnitude());
                lemma_fundamental_div_mod_converse(
                    units_of(self.magnitude()),
                    one,
                    0,
                    units_of(self.magnitude()),
                );
            }
            0
        } else if exponent >= 1087 {
            proof {
                let j = (exponent - 1 - 1074) as nat;
                lemma_scaled_whole(m, j, 1074);
                lemma2_to64();
                if j > 12 {
                    lemma_pow2_strictly_increases(12, j);
                }
                assert(m * pow2(j) >= 0x10_0000_0000_0000 * 0x1000) by (nonlinear_arith)
                    requires
                        m >= 0x10_0000_0000_0000,
                        pow2(j) >= 0x1000,
                ;
            }
            u64::MAX
        } else if exponent >= 1075 {
            proof {
                let j = (exponent - 1 - 1074) as nat;
                lemma_scaled_whole(m, j, 1074);
                lemma2_to64();
                lemma2_to64_rest();
                if j < 11 {
                    lemma_pow2_strictly_increases(j, 11);
                }
                assert(m * pow2(j) <= 0xFFFF_FFFF_FFFF_FFFF) by (nonlinear_arith)
                    requires
                        0 <= m <= 0x1F_FFFF_FFFF_FFFF,
                        0 <= pow2(j) <= 0x800,
                ;
                lemma_u64_shl_is_mul(mantissa, (exponent - 1075) as u64);
            }
            mantissa << (exponent - 1075)
        } else {
            proof {
                let j = (1075 - exponent) as nat;
                lemma_scaled_division(m, j, (exponent - 1) as nat);
                lemma_u64_shr_is_div(mantissa, (1075 - exponent) as u64);
                lemma_pow2_pos(j);
                assert(m / (pow2(j) as int) <= m) by (nonlinear_arith)
                    requires
                        m >= 0,
                        pow2(j) >= 1,
                ;
            }
            mantissa >> (1075 - exponent)
        }
    }

    /// Whether the fraction can be overlooked.
    pub fn is_near_whole(self) -> (r: bool)
        requires
            self.finite(),
            self.bits < SIGN,
        ensures
            r == self.near_whole(),
    {
        let exponent: u64 = self.bits / EXPONENT_UNIT;
        let fraction: u64 = self.bits % EXPONENT_UNIT;
        let mantissa: u64 = EXPONENT_UNIT + fraction;
        let ghost m = mantissa as int;
        let ghost one = pow2(unit_doublings()) as int;
        let ghost units = units_of(self.magnitude());
        // The tolerance is `allowed` times `2^992` units.
        let allowed: u64 = 0x11_2E0B_E826_D695;
        assert(units_of(FRACTION_TOL as int) == allowed * pow2(992));
        if exponent < 1023 {
            proof {
                lemma_below_one(self.magnitude());
                lemma_fundamental_div_mod_converse(units, one, 0, units);
                if self.bits < FRACTION_TOL {
                    units_increase(self.bits as int, FRACTION_TOL as int);
                } else if self.bits > FRACTION_TOL {
                    units_increase(FRACTION_TOL as int, self.bits as int);
                }
            }
            self.bits <= FRACTION_TOL
        } else if exponent >= 1075 {
            proof {
                lemma_scaled_whole(m, (exponent - 1075) as nat, 1074);
                lemma_pow2_pos(992);
                assert(0 <= allowed * pow2(992)) by (nonlinear_arith)
                    requires
                        pow2(992) > 0,
                ;
            }
            true
        } else {
            let split: u64 = 1075 - exponent;
            let above: u64 = mantissa >> split;
            proof {
                let j = split as nat;
                let k = (exponent - 1) as nat;
                lemma_scaled_division(m, j, k);
                lemma_u64_shr_is_div(mantissa, split);
                lemma_pow2_pos(j);
                lemma_fundamental_div_mod(m, pow2(j) as int);
                lemma_mod_bound(m, pow2(j) as int);
                lemma2_to64();
                lemma2_to64_rest();
                if j < 52 {
                    lemma_pow2_strictly_increases(j, 52);
                }
                assert(above * pow2(j) <= m) by (nonlinear_arith)
                    requires
                        m == pow2(j) * (above as int) + m % (pow2(j) as int),
                        0 <= m % (pow2(j) as int),
                ;
                lemma_u64_shl_is_mul(above, split);
            }
            let rest: u64 = mantissa - (above << split);
            let ghost b = rest as int;
            let depth: u64 = exponent - 993;
            proof {
                let j = split as nat;
                let k = (exponent - 1) as nat;
                let d = depth as nat;
                assert(b == m % (pow2(j) as int)) by {
                    assert((above as int) * pow2(j) == pow2(j) * (above as int)) by (nonlinear_arith);
                }
                lemma_pow2_adds(d, 992);
                lemma_pow2_pos(d);
                lemma_pow2_pos(992);
                lemma_fundamental_div_mod(allowed as int, pow2(d) as int);
                lemma_mod_bound(allowed as int, pow2(d) as int);
                let (p, q) = (pow2(d) as int, pow2(992) as int);
                let share = (allowed as int) / p;
                assert(b * (p * q) <= allowed * q <==> b <= share) by (nonlinear_arith)
                    requires
                        q > 0,
                        p > 0,
                        0 <= b,
                        allowed == p * share + (allowed as int) % p,
                        0 <= (allowed as int) % p < p,
                ;
                if depth < 64 {
                    lemma_u64_shr_is_div(allowed, depth);
                } else {
                    lemma2_to64_rest();
                    if d > 64 {
                        lemma_pow2_strictly_increases(64, d);
                    }
                    lemma_fundamental_div_mod_converse(allowed as int, p, 0, allowed as int);
                }
            }
            if depth < 64 {
                rest <= (allowed >> depth)
            } else {
                rest == 0
            }
        }
    }
}

/// Negation reverses the order.
pub proof fn negation_reverses_the_order(a: Real, b: Real)
    ensures
        a.below(b) <==> b.negated().below(a.negated()),
        a.at_most(b) <==> b.negated().at_most(a.negated()),
        a.negated().negated() == a,
{
}

} // verus!
