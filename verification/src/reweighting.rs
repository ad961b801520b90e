//! What weights do to residuals.

use crate::arithmetic::{difference_of, product_of, quotient_of, root_of, sum_of, Arithmetic};
use crate::double::{Real, ONE, SIGN, ZERO};
use crate::exact::{
    lemma_combine3, lemma_constants, lemma_nil_sum, lemma_nil_zero, lemma_product, lemma_quotient,
    lemma_same_sym, lemma_same_trans, lemma_sum, total_of, Exact,
};
use crate::irls::{
    effective_regularization, largest_weight, magnitudes, raw_roots, settled, weight_floor,
    weight_of, weight_roots,
};
use crate::pseudoinverse::weighted_loads;
use crate::turning::lemma_swap_factors;
use crate::vector::peak;
use vstd::prelude::*;

verus! {

/// Whether no residual is larger than residual `m`.
pub open spec fn is_largest(r: Seq<Real>, m: int) -> bool {
    &&& 0 <= m < r.len()
    &&& forall|k: int|
        0 <= k < r.len() ==> (#[trigger] r[k]).absolute().at_most(r[m].absolute())
}

proof fn lemma_peak(r: Seq<Real>, k: int)
    requires
        0 <= k <= r.len(),
        forall|i: int| 0 <= i < r.len() ==> !(#[trigger] r[i]).absolute().nan(),
    ensures
        ({
            let p = peak(r, Real { bits: ZERO }, k);
            &&& !p.nan()
            &&& p.bits < SIGN
            &&& forall|i: int| 0 <= i < k ==> (#[trigger] r[i]).absolute().at_most(p)
            &&& p.bits == ZERO || exists|i: int| 0 <= i < k && #[trigger] r[i].absolute() == p
        }),
    decreases k,
{
    if k > 0 {
        lemma_peak(r, k - 1);
        assert(!r[k - 1].absolute().nan());
        let before = peak(r, Real { bits: ZERO }, k - 1);
        if before.place() < r[k - 1].absolute().place() {
            assert(r[k - 1].absolute() == peak(r, Real { bits: ZERO }, k));
        } else if before.bits != ZERO {
            let i = choose|i: int| 0 <= i < k - 1 && #[trigger] r[i].absolute() == before;
            assert(r[i].absolute() == peak(r, Real { bits: ZERO }, k));
        }
    }
}

pub(crate) proof fn lemma_peak_is_largest(r: Seq<Real>, m: int)
    requires
        is_largest(r, m),
    ensures
        peak(r, Real { bits: ZERO }, r.len() as int) == r[m].absolute(),
{
    assert forall|i: int| 0 <= i < r.len() implies !(#[trigger] r[i]).absolute().nan() by {
        assert(r[i].absolute().at_most(r[m].absolute()));
    }
    lemma_peak(r, r.len() as int);
    let p = peak(r, Real { bits: ZERO }, r.len() as int);
    assert(r[m].absolute().at_most(p));
    if p.bits != ZERO {
        let i = choose|i: int| 0 <= i < r.len() && #[trigger] r[i].absolute() == p;
        assert(r[i].absolute().at_most(r[m].absolute()));
    }
}

/// The weight of a residual is one over its magnitude, for every residual that is at least
/// `1e-4` of the largest one and at least `1e-12`: the root that is taken of it is the root
/// of that.
pub proof fn weights_are_inverse_to_residuals<A: Arithmetic>(ar: A, r: Seq<Real>, m: int, i: int)
    requires
        is_largest(r, m),
        0 <= i < r.len(),
        product_of(ar, Real { bits: 0x3F1A_36E2_EB1C_432D }, r[m].absolute()).at_most(
            r[i].absolute(),
        ),
        (Real { bits: 0x3D71_9799_812D_EA11 }).at_most(r[i].absolute()),
    ensures
        weight_of(ar, r[i], weight_floor(ar, r)) == quotient_of(
            ar,
            Real { bits: 0x3FF0_0000_0000_0000 },
            r[i].absolute(),
        ),
        raw_roots(ar, r)[i] == root_of(
            ar,
            quotient_of(ar, Real { bits: 0x3FF0_0000_0000_0000 }, r[i].absolute()),
        ),
{
    lemma_peak_is_largest(r, m);
}

/// Residuals below `1e-4` of the largest one, or below `1e-12` where that is larger, all
/// have the weight of that bound.
pub proof fn small_residuals_have_the_same_weight<A: Arithmetic>(
    ar: A,
    r: Seq<Real>,
    m: int,
    i: int,
)
    requires
        is_largest(r, m),
        0 <= i < r.len(),
    ensures
        ({
            let share = product_of(ar, Real { bits: 0x3F1A_36E2_EB1C_432D }, r[m].absolute());
            let least = Real { bits: 0x3D71_9799_812D_EA11 };
            let one = Real { bits: 0x3FF0_0000_0000_0000 };
            let w = weight_of(ar, r[i], weight_floor(ar, r));
            &&& least.at_most(share) && r[i].absolute().below(share) ==> w == quotient_of(
                ar,
                one,
                share,
            )
            &&& share.below(least) && r[i].absolute().below(least) ==> w == quotient_of(
                ar,
                one,
                least,
            )
        }),
{
    lemma_peak_is_largest(r, m);
}

/// Whether the root of `a` is exact.
pub open spec fn exact_root<A: Arithmetic>(e: Exact, ar: A, a: Real) -> bool {
    e.same(e.of(root_of(ar, a)) * e.of(root_of(ar, a)), e.of(a))
}

/// The square of what row `i` is multiplied by.
pub open spec fn weight_used<A: Arithmetic>(e: Exact, ar: A, r: Seq<Real>, i: int) -> int {
    e.of(weight_roots(ar, r)[i]) * e.of(weight_roots(ar, r)[i])
}

/// The weight of residual `i`, before weights are divided by the largest one.
pub open spec fn weight_taken<A: Arithmetic>(e: Exact, ar: A, r: Seq<Real>, i: int) -> int {
    e.of(weight_of(ar, r[i], weight_floor(ar, r)))
}

/// Rows are multiplied by the roots of their weights, divided by the largest weight; the
/// regularization is divided by the same number.
pub proof fn weights_and_regularization_are_divided_alike<A: Arithmetic>(
    e: Exact,
    ar: A,
    r: Seq<Real>,
    w: Real,
    i: int,
)
    requires
        e.computes(ar),
        0 <= i < r.len(),
        (Real { bits: ZERO }).below(largest_weight(ar, r)),
        e.unit(e.of(largest_weight(ar, r))),
        e.unit(e.of(root_of(ar, largest_weight(ar, r)))),
        exact_root(e, ar, largest_weight(ar, r)),
        exact_root(e, ar, weight_of(ar, r[i], weight_floor(ar, r))),
    ensures
        e.same(
            weight_used(e, ar, r, i) * e.of(largest_weight(ar, r)),
            weight_taken(e, ar, r, i),
        ),
        e.same(
            e.of(effective_regularization(ar, w, largest_weight(ar, r))) * e.of(
                largest_weight(ar, r),
            ),
            e.of(w),
        ),
{
    let top = largest_weight(ar, r);
    let root = root_of(ar, top);
    let one = Real { bits: ONE };
    let f = quotient_of(ar, one, root);
    let raw = raw_roots(ar, r)[i];
    lemma_constants(e, ar);
    lemma_quotient(e, ar, one, root);
    lemma_quotient(e, ar, w, top);
    lemma_product(e, ar, raw, f);
    let (used, a, b, c, t) = (
        e.of(weight_roots(ar, r)[i]),
        e.of(raw),
        e.of(f),
        e.of(root),
        e.of(top),
    );
    let taken = weight_taken(e, ar, r, i);
    lemma_nil_zero(e);
    lemma_same_trans(e, b * c, e.of(one), 1);
    lemma_swap_factors(e, used, a * b, used, a * b);
    // used^2 ~ (a b)^2, (b c)^2 ~ 1, c^2 ~ t, a^2 ~ taken
    lemma_swap_factors(e, b * c, 1, b * c, 1);
    lemma_swap_factors(e, used * used, (a * b) * (a * b), t, t);
    lemma_same_sym(e, c * c, t);
    lemma_swap_factors(e, (a * b) * (a * b), (a * b) * (a * b), t, c * c);
    assert(((a * b) * (a * b)) * (c * c) == (a * a) * ((b * c) * (b * c))) by (nonlinear_arith);
    lemma_swap_factors(e, a * a, taken, (b * c) * (b * c), 1);
    lemma_same_trans(
        e,
        (used * used) * t,
        ((a * b) * (a * b)) * t,
        ((a * b) * (a * b)) * (c * c),
    );
    lemma_same_trans(e, (used * used) * t, (a * a) * ((b * c) * (b * c)), taken * 1);
}

/// Weights are inverse to residuals, however they are divided: for two residuals that are
/// at least `1e-4` of the largest one and at least `1e-12`, weight times magnitude is the
/// same.
pub proof fn weights_balance_residuals<A: Arithmetic>(
    e: Exact,
    ar: A,
    r: Seq<Real>,
    m: int,
    i: int,
    j: int,
)
    requires
        e.computes(ar),
        is_largest(r, m),
        0 <= i < r.len(),
        0 <= j < r.len(),
        forall|k: int|
            #![trigger r[k]]
            k == i || k == j ==> {
                &&& product_of(
                    ar,
                    Real { bits: 0x3F1A_36E2_EB1C_432D },
                    r[m].absolute(),
                ).at_most(r[k].absolute())
                &&& (Real { bits: 0x3D71_9799_812D_EA11 }).at_most(r[k].absolute())
                &&& e.unit(e.of(r[k].absolute()))
                &&& exact_root(e, ar, weight_of(ar, r[k], weight_floor(ar, r)))
            },
    ensures
        e.same(
            weight_used(e, ar, r, i) * e.of(r[i].absolute()),
            weight_used(e, ar, r, j) * e.of(r[j].absolute()),
        ),
{
    let f = if (Real { bits: ZERO }).below(largest_weight(ar, r)) {
        e.of(quotient_of(ar, Real { bits: ONE }, root_of(ar, largest_weight(ar, r))))
    } else {
        1
    };
    lemma_balanced(e, ar, r, m, i, f);
    lemma_balanced(e, ar, r, m, j, f);
    lemma_same_sym(e, weight_used(e, ar, r, j) * e.of(r[j].absolute()), f * f);
    lemma_same_trans(
        e,
        weight_used(e, ar, r, i) * e.of(r[i].absolute()),
        f * f,
        weight_used(e, ar, r, j) * e.of(r[j].absolute()),
    );
}

proof fn lemma_balanced<A: Arithmetic>(e: Exact, ar: A, r: Seq<Real>, m: int, i: int, f: int)
    requires
        e.computes(ar),
        is_largest(r, m),
        0 <= i < r.len(),
        product_of(ar, Real { bits: 0x3F1A_36E2_EB1C_432D }, r[m].absolute()).at_most(
            r[i].absolute(),
        ),
        (Real { bits: 0x3D71_9799_812D_EA11 }).at_most(r[i].absolute()),
        e.unit(e.of(r[i].absolute())),
        exact_root(e, ar, weight_of(ar, r[i], weight_floor(ar, r))),
        f == if (Real { bits: ZERO }).below(largest_weight(ar, r)) {
            e.of(quotient_of(ar, Real { bits: ONE }, root_of(ar, largest_weight(ar, r))))
        } else {
            1
        },
    ensures
        e.same(weight_used(e, ar, r, i) * e.of(r[i].absolute()), f * f),
{
    weights_are_inverse_to_residuals(ar, r, m, i);
    let one = Real { bits: ONE };
    let w = quotient_of(ar, one, r[i].absolute());
    lemma_constants(e, ar);
    lemma_quotient(e, ar, one, r[i].absolute());
    let raw = raw_roots(ar, r)[i];
    let (used, a, t, x) = (
        e.of(weight_roots(ar, r)[i]),
        e.of(raw),
        e.of(w),
        e.of(r[i].absolute()),
    );
    if (Real { bits: ZERO }).below(largest_weight(ar, r)) {
        lemma_product(
            e,
            ar,
            raw,
            quotient_of(ar, one, root_of(ar, largest_weight(ar, r))),
        );
    } else {
        assert(a * 1 == a);
    }
    lemma_nil_zero(e);
    assert(e.same(used, a * f));
    lemma_same_trans(e, t * x, e.of(one), 1);
    lemma_swap_factors(e, used, a * f, used, a * f);
    lemma_swap_factors(e, used * used, (a * f) * (a * f), x, x);
    lemma_swap_factors(e, a * a, t, x, x);
    lemma_same_trans(e, (a * a) * x, t * x, 1);
    lemma_swap_factors(e, (a * a) * x, 1, f * f, f * f);
    assert(((a * f) * (a * f)) * x == ((a * a) * x) * (f * f)) by (nonlinear_arith);
    lemma_same_trans(
        e,
        (used * used) * x,
        ((a * f) * (a * f)) * x,
        1 * (f * f),
    );
}

/// Loads are weighed as rows are: a weighted load is the load times the weight that is used
/// for its row.
pub proof fn loads_are_weighed_like_rows<A: Arithmetic>(
    e: Exact,
    ar: A,
    r: Seq<Real>,
    p: Seq<Real>,
    i: int,
)
    requires
        e.computes(ar),
        0 <= i < r.len(),
        (Real { bits: ZERO }).below(largest_weight(ar, r)),
        e.unit(e.of(largest_weight(ar, r))),
        e.unit(e.of(root_of(ar, largest_weight(ar, r)))),
        exact_root(e, ar, largest_weight(ar, r)),
        exact_root(e, ar, weight_of(ar, r[i], weight_floor(ar, r))),
    ensures
        e.same(
            e.of(weighted_loads(ar, r, p, largest_weight(ar, r))[i]),
            weight_used(e, ar, r, i) * e.of(p[i]),
        ),
{
    let top = largest_weight(ar, r);
    weights_and_regularization_are_divided_alike(e, ar, r, top, i);
    let w = weight_of(ar, r[i], weight_floor(ar, r));
    let v = product_of(ar, w, p[i]);
    lemma_product(e, ar, w, p[i]);
    lemma_quotient(e, ar, v, top);
    let (z, t, x, y, u) = (
        e.of(weighted_loads(ar, r, p, top)[i]),
        e.of(top),
        e.of(w),
        e.of(p[i]),
        weight_used(e, ar, r, i),
    );
    let vv = e.of(v);
    assert(t * (z - u * y) == 1 * (z * t - vv) + 1 * (vv - x * y) + (-y) * (u * t - x))
        by (nonlinear_arith);
    lemma_combine3(e, t * (z - u * y), 1, z * t - vv, 1, vv - x * y, -y, u * t - x);
    crate::exact::lemma_cancel(e, t, z - u * y);
}

/// The objective is the sum of the magnitudes of the residuals.
pub proof fn the_objective_adds_magnitudes<A: Arithmetic>(e: Exact, ar: A, r: Seq<Real>, k: int)
    requires
        e.computes(ar),
        0 <= k <= r.len(),
    ensures
        e.same(
            e.of(magnitudes(ar, r, k)),
            total_of(|i: int| e.of(r[i].absolute()), k),
        ),
    decreases k,
{
    if k == 0 {
        lemma_constants(e, ar);
    } else {
        the_objective_adds_magnitudes(e, ar, r, k - 1);
        let before = magnitudes(ar, r, k - 1);
        let f = |i: int| e.of(r[i].absolute());
        lemma_sum(e, ar, before, r[k - 1].absolute());
        lemma_nil_sum(
            e,
            e.of(magnitudes(ar, r, k)) - (e.of(before) + f(k - 1)),
            e.of(before) - total_of(f, k - 1),
        );
    }
}

/// Reweighting has settled once the objective changes by less than `1e-8` of itself, and
/// never in its first round.
pub proof fn settling_is_a_small_relative_change<A: Arithmetic>(
    ar: A,
    previous: Real,
    objective: Real,
)
    ensures
        !settled(ar, Real { bits: 0x7FEF_FFFF_FFFF_FFFF }, objective),
        previous.below(Real { bits: 0x7FEF_FFFF_FFFF_FFFF }) ==> (settled(
            ar,
            previous,
            objective,
        ) <==> quotient_of(
            ar,
            difference_of(ar, previous, objective).absolute(),
            sum_of(ar, previous, Real { bits: 0x3D71_9799_812D_EA11 }),
        ).below(Real { bits: 0x3E45_798E_E230_8C3A })),
{
}

} // verus!
