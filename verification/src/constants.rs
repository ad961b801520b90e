//! The numbers that tolerances and scales stand for.

use crate::basis::DEFAULT_TOL;
use crate::conic::{CONIC_TOL, MAX_SCALING, MIN_SCALING, WIDE_MAX_SCALING, WIDE_MIN_SCALING};
use crate::direct::SADDLE_TOL;
use crate::double::{EPSILON, FRACTION_TOL, HALF, ONE, TWO};
use crate::equilibrium::ZERO_LENGTH_TOL;
use crate::geometry::{GEOMETRIC_TOL, MAX_BACKTRACK};
use crate::inner::LSQR_TOL;
use crate::irls::{ABS_EPS, REL_EPS, SETTLED};
use crate::nullspace::{FIFTY, THOUSAND, TRACE_TOL};
use crate::options::{DEFAULT_MAX_OUTER, DEFAULT_TOLERANCE};
use crate::probe::{MINUS_TWO, ULP};
use crate::qr::HUNDRED;
use crate::retraction::{MIN_STEP, RETRACTION_TOL, STEPS};
use crate::types::MIN_SATURATION;
use crate::weight::INVERSE_TOL;
use vstd::arithmetic::power2::{lemma2_to64, lemma2_to64_rest, lemma_pow2_adds, pow2};
use vstd::prelude::*;

verus! {

/// The fraction of a positive normal double, as a whole number of 53 bits.
pub open spec fn significand(bits: u64) -> int {
    0x10_0000_0000_0000 + bits % 0x10_0000_0000_0000
}

/// The number of halvings that turn the significand into the double, where there are any.
pub open spec fn halvings(bits: u64) -> int {
    1075 - bits / 0x10_0000_0000_0000
}

/// Whether the double with these bits is the nearest one to `1 / n`.
pub open spec fn nearest_to_one_over(bits: u64, n: int) -> bool {
    let gap = significand(bits) * n - pow2(halvings(bits) as nat);
    &&& halvings(bits) > 0
    &&& -n <= 2 * gap <= n
}

/// Whether the double with these bits is the whole number `n`.
pub open spec fn is_whole(bits: u64, n: int) -> bool {
    halvings(bits) >= 0 && significand(bits) == n * pow2(halvings(bits) as nat)
}

proof fn lemma_pow(a: nat, b: nat)
    requires
        a <= 64,
        b <= 64,
    ensures
        pow2(a + b) == pow2(a) * pow2(b),
{
    lemma_pow2_adds(a, b);
}

/// Every tolerance is the double nearest to the power of ten that it is meant to be.
pub proof fn tolerances_are_powers_of_ten()
    ensures
        nearest_to_one_over(ZERO_LENGTH_TOL, 100_000_000_000_000),
        nearest_to_one_over(ABS_EPS, 1_000_000_000_000),
        nearest_to_one_over(GEOMETRIC_TOL, 1_000_000_000_000),
        nearest_to_one_over(MIN_SATURATION, 1_000_000_000_000),
        nearest_to_one_over(SADDLE_TOL, 100_000_000_000),
        nearest_to_one_over(LSQR_TOL, 100_000_000_000),
        nearest_to_one_over(DEFAULT_TOL, 10_000_000_000),
        nearest_to_one_over(CONIC_TOL, 10_000_000_000),
        nearest_to_one_over(RETRACTION_TOL, 10_000_000_000),
        nearest_to_one_over(FRACTION_TOL, 1_000_000_000),
        nearest_to_one_over(SETTLED, 100_000_000),
        nearest_to_one_over(INVERSE_TOL, 100_000_000),
        nearest_to_one_over(WIDE_MIN_SCALING, 100_000_000),
        nearest_to_one_over(DEFAULT_TOLERANCE, 1_000_000),
        nearest_to_one_over(TRACE_TOL, 100_000),
        nearest_to_one_over(REL_EPS, 10_000),
        nearest_to_one_over(MIN_SCALING, 10_000),
{
    lemma2_to64();
    lemma2_to64_rest();
    lemma_pow(64, 35);
    lemma_pow(64, 28);
    lemma_pow(64, 25);
    lemma_pow(64, 22);
    lemma_pow(64, 18);
    lemma_pow(64, 15);
    lemma_pow(64, 8);
    lemma_pow(64, 5);
    lemma_pow(64, 2);
    assert(halvings(ZERO_LENGTH_TOL) == 99);
    assert(halvings(ABS_EPS) == 92);
    assert(halvings(SADDLE_TOL) == 89);
    assert(halvings(DEFAULT_TOL) == 86);
    assert(halvings(FRACTION_TOL) == 82);
    assert(halvings(SETTLED) == 79);
    assert(halvings(DEFAULT_TOLERANCE) == 72);
    assert(halvings(TRACE_TOL) == 69);
    assert(halvings(REL_EPS) == 66);
}

/// Factors and counts are the whole numbers, or the powers of two, that they are meant to
/// be.
pub proof fn factors_are_whole()
    ensures
        is_whole(ONE, 1),
        is_whole(TWO, 2),
        is_whole(FIFTY, 50),
        is_whole(HUNDRED, 100),
        is_whole(THOUSAND, 1000),
        is_whole(MAX_SCALING, 10_000),
        is_whole(WIDE_MAX_SCALING, 100_000_000),
        is_whole((MINUS_TWO - 0x8000_0000_0000_0000) as u64, 2),
        significand(HALF) == pow2(52) && halvings(HALF) == 53,
        significand(MIN_STEP) == pow2(52) && halvings(MIN_STEP) == 64,
        significand(EPSILON) == pow2(52) && halvings(EPSILON) == 104,
        significand(ULP) == pow2(52) && halvings(ULP) == 105,
        MAX_BACKTRACK == 12,
        STEPS == 13,
        DEFAULT_MAX_OUTER == 8,
{
    lemma2_to64();
    lemma2_to64_rest();
}

} // verus!
