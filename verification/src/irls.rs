//! Reweighting for the sum of absolute residuals.

use crate::arithmetic::{
    difference_of, functional, minus, over, plus, product_of, quotient_of, root_of, sqrt, sum_of,
    times, Arithmetic,
};
use crate::double::{Real, MAX, ONE, ZERO};
use crate::vector::{largest, peak, scale, scaled};
use vstd::prelude::*;

verus! {

/// The smallest residual that a weight is taken from, `1e-12`.
pub const ABS_EPS: u64 = 0x3D71_9799_812D_EA11;

/// The same as a share of the largest residual, `1e-4`.
pub const REL_EPS: u64 = 0x3F1A_36E2_EB1C_432D;

/// The relative change of the objective at which the iteration has settled, `1e-8`.
pub const SETTLED: u64 = 0x3E45_798E_E230_8C3A;

/// The residual below which weights do not grow any further.
///
/// It is proportional to the largest residual, so that the ratio of weights stays bounded.
pub open spec fn weight_floor<A: Arithmetic>(ar: A, r: Seq<Real>) -> Real {
    product_of(ar, Real { bits: REL_EPS }, peak(r, Real { bits: ZERO }, r.len() as int)).larger(
        Real { bits: ABS_EPS },
    )
}

/// The weight of a residual: one over its magnitude, but not below the floor.
pub open spec fn weight_of<A: Arithmetic>(ar: A, residual: Real, floor: Real) -> Real {
    quotient_of(ar, Real { bits: ONE }, residual.absolute().larger(floor))
}

/// The roots of the weights, before they are normalized.
pub open spec fn raw_roots<A: Arithmetic>(ar: A, r: Seq<Real>) -> Seq<Real> {
    Seq::new(r.len(), |i: int| root_of(ar, weight_of(ar, r[i], weight_floor(ar, r))))
}

/// The sum of the magnitudes of the first `k` residuals.
pub open spec fn magnitudes<A: Arithmetic>(ar: A, r: Seq<Real>, k: int) -> Real
    decreases k,
{
    if k <= 0 {
        Real { bits: ZERO }
    } else {
        sum_of(ar, magnitudes(ar, r, k - 1), r[k - 1].absolute())
    }
}

/// The largest square among the first `k` entries.
pub open spec fn largest_square<A: Arithmetic>(ar: A, v: Seq<Real>, k: int) -> Real
    decreases k,
{
    if k <= 0 {
        Real { bits: ZERO }
    } else {
        largest_square(ar, v, k - 1).larger(product_of(ar, v[k - 1], v[k - 1]))
    }
}

/// The largest weight.
pub open spec fn largest_weight<A: Arithmetic>(ar: A, r: Seq<Real>) -> Real {
    largest_square(ar, raw_roots(ar, r), r.len() as int)
}

/// The roots of the weights, divided so that the largest weight is one.
pub open spec fn weight_roots<A: Arithmetic>(ar: A, r: Seq<Real>) -> Seq<Real> {
    let w_max = largest_weight(ar, r);
    if (Real { bits: ZERO }).below(w_max) {
        scaled(ar, raw_roots(ar, r), quotient_of(ar, Real { bits: ONE }, root_of(ar, w_max)))
    } else {
        raw_roots(ar, r)
    }
}

/// The regularization that goes with normalized weights.
pub open spec fn effective_regularization<A: Arithmetic>(ar: A, w: Real, w_max: Real) -> Real {
    if (Real { bits: ZERO }).below(w_max) {
        quotient_of(ar, w, w_max)
    } else {
        w
    }
}

/// Whether the objective has settled.
pub open spec fn settled<A: Arithmetic>(ar: A, previous: Real, objective: Real) -> bool {
    &&& previous.below(Real { bits: MAX })
    &&& quotient_of(
        ar,
        difference_of(ar, previous, objective).absolute(),
        sum_of(ar, previous, Real { bits: ABS_EPS }),
    ).below(Real { bits: SETTLED })
}

/// The largest square of an entry.
fn max_square<A: Arithmetic>(ar: &A, v: &Vec<Real>) -> (r: Real)
    ensures
        functional(*ar) ==> r == largest_square(*ar, v@, v@.len() as int),
{
    let mut r = Real { bits: ZERO };
    for i in 0..v.len()
        invariant
            functional(*ar) ==> r == largest_square(*ar, v@, i as int),
    {
        r = r.max(times(ar, v[i], v[i]));
    }
    r
}

/// The roots of the normalized weights, the sum of absolute residuals and the largest
/// weight.
pub fn irls_weights<A: Arithmetic>(ar: &A, residual: &Vec<Real>) -> (r: (Vec<Real>, Real, Real))
    ensures
        r.0@.len() == residual@.len(),
        functional(*ar) ==> r.0@ == weight_roots(*ar, residual@),
        functional(*ar) ==> r.1 == magnitudes(*ar, residual@, residual@.len() as int),
        functional(*ar) ==> r.2 == largest_weight(*ar, residual@),
{
    let max_abs = largest(residual, Real { bits: ZERO });
    let floor = times(ar, Real { bits: REL_EPS }, max_abs).max(Real { bits: ABS_EPS });
    let mut objective = Real { bits: ZERO };
    let mut roots: Vec<Real> = Vec::new();
    for i in 0..residual.len()
        invariant
            functional(*ar) ==> floor == weight_floor(*ar, residual@),
            functional(*ar) ==> objective == magnitudes(*ar, residual@, i as int),
            roots@.len() == i,
            functional(*ar) ==> forall|k: int|
                0 <= k < i ==> #[trigger] roots@[k] == raw_roots(*ar, residual@)[k],
    {
        let magnitude = residual[i].abs();
        objective = plus(ar, objective, magnitude);
        let weight = over(ar, Real { bits: ONE }, magnitude.max(floor));
        roots.push(sqrt(ar, weight));
    }
    proof {
        if functional(*ar) {
            assert(roots@ =~= raw_roots(*ar, residual@));
        }
    }
    let w_max = max_square(ar, &roots);
    if w_max.gt(Real { bits: ZERO }) {
        let root = sqrt(ar, w_max);
        let inverse = over(ar, Real { bits: ONE }, root);
        roots = scale(ar, &roots, inverse);
    }
    (roots, objective, w_max)
}

/// Whether the objective has settled.
pub fn has_settled<A: Arithmetic>(ar: &A, previous: Real, objective: Real) -> (r: bool)
    ensures
        functional(*ar) ==> r == settled(*ar, previous, objective),
        !previous.below(Real { bits: MAX }) ==> !r,
{
    if previous.lt(Real { bits: MAX }) {
        let change = minus(ar, previous, objective);
        let base = plus(ar, previous, Real { bits: ABS_EPS });
        over(ar, change.abs(), base).lt(Real { bits: SETTLED })
    } else {
        false
    }
}

/// The regularization that goes with normalized weights.
pub fn rescaled_regularization<A: Arithmetic>(ar: &A, w: Real, w_max: Real) -> (r: Real)
    ensures
        functional(*ar) ==> r == effective_regularization(*ar, w, w_max),
{
    if w_max.gt(Real { bits: ZERO }) {
        over(ar, w, w_max)
    } else {
        w
    }
}

} // verus!
