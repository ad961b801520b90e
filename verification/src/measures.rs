//! What norms, boxes, steps and thresholds measure.

use crate::arithmetic::{
    count_of, difference_of, hypotenuse_of, nearest_of, product_of, quotient_of, root_of,
    Arithmetic,
};
use crate::array::Grid;
use crate::balance::lemma_entry_outside;
use crate::basis::{image_squares, kernel_allowance};
use crate::bidiagonal::{image, lemma_image, lemma_operator, sides, values_of};
use crate::bounds::{composed, composed_lower, composed_upper, sound, start_in, BoxBounds};
use crate::double::{Real, HALF, ONE, ZERO};
use crate::error::TheseusError;
use crate::entries::{
    assembling_adds_up, entry, lemma_applied_length, lemma_placed_joined, lemma_triplets_placed,
    placed_term, row_times, rows_are_multiplied_and_added,
};
use crate::exact::{
    inner, lemma_combine, lemma_combine3, lemma_constants, lemma_difference, lemma_nil_sum,
    lemma_nil_times, lemma_product, lemma_quotient, lemma_same_trans, lemma_sum, lemma_sum_product,
    lemma_total_equal, lemma_total_same, lemma_total_single, lemma_total_zero, total_of, Exact,
};
use crate::geometry::{candidate_at, geometric_tolerance, reduction, step_converged};
use crate::lsqr::{lsqr_of, operator, rotated, Bidiagonal, LsqrTolerances};
use crate::nullspace::{nullity_of, tail_columns, trace_upto, unit};
use crate::options::InverseFdmOptions;
use crate::probe::{count_above, dimension_of, projection};
use crate::qr::{pivot_threshold, usable_pivots};
use crate::retraction::{allowed_error, length_error, length_residual, longest, objective_of};
use crate::reweighting::{exact_root, is_largest, lemma_peak_is_largest};
use crate::sparse::Csc;
use crate::spg::{spg_step, SpgState};
use crate::turning::lemma_swap_factors;
use crate::vector::{less, norm_of, peak, products, quotients, squares};
use crate::weight::{column, norm_prefix};
use crate::weighted_lsqr::{damping_of, damping_rows, stacked, stacked_terms};
use vstd::prelude::*;

verus! {

/// A sum of squares is the product of a vector with itself, as far as it goes.
pub proof fn squares_add_up<A: Arithmetic>(e: Exact, ar: A, v: Seq<Real>, k: int)
    requires
        e.computes(ar),
    ensures
        e.same(e.of(squares(ar, v, k)), total_of(|i: int| e.of(v[i]) * e.of(v[i]), k)),
    decreases k,
{
    let f = |i: int| e.of(v[i]) * e.of(v[i]);
    if k <= 0 {
        lemma_constants(e, ar);
    } else {
        squares_add_up(e, ar, v, k - 1);
        let before = squares(ar, v, k - 1);
        lemma_sum_product(e, ar, before, v[k - 1], v[k - 1]);
        lemma_nil_sum(
            e,
            e.of(squares(ar, v, k)) - (e.of(before) + f(k - 1)),
            e.of(before) - total_of(f, k - 1),
        );
    }
}

/// The square of a norm, where the root is exact, is the product of the vector with itself;
/// the norm of the first entries goes no further than these.
pub proof fn norms_are_lengths<A: Arithmetic>(e: Exact, ar: A, v: Seq<Real>, len: int)
    requires
        e.computes(ar),
        0 <= len <= v.len(),
        exact_root(e, ar, squares(ar, v, v.len() as int)),
        exact_root(e, ar, squares(ar, v, len)),
    ensures
        e.same(e.of(norm_of(ar, v)) * e.of(norm_of(ar, v)), inner(e, v, v)),
        e.same(
            e.of(norm_prefix(ar, v, len)) * e.of(norm_prefix(ar, v, len)),
            total_of(|i: int| e.of(v[i]) * e.of(v[i]), len),
        ),
{
    squares_add_up(e, ar, v, v.len() as int);
    squares_add_up(e, ar, v, len);
    let (a, b) = (squares(ar, v, v.len() as int), squares(ar, v, len));
    lemma_same_trans(e, e.of(root_of(ar, a)) * e.of(root_of(ar, a)), e.of(a), inner(e, v, v));
    lemma_same_trans(
        e,
        e.of(root_of(ar, b)) * e.of(root_of(ar, b)),
        e.of(b),
        total_of(|i: int| e.of(v[i]) * e.of(v[i]), len),
    );
}

/// What a list asks for on edge `i`: nothing where it is empty, its one entry for all edges,
/// or the entry of that edge.
pub open spec fn asked<T>(values: Seq<T>, i: int) -> Option<T> {
    if values.len() == 0 {
        None
    } else if values.len() == 1 {
        Some(values[0])
    } else {
        Some(values[i])
    }
}

/// Whether a number is what signs and bounds ask for on edge `i`.
pub open spec fn meets(
    x: Real,
    signs: Seq<i32>,
    lower: Seq<Real>,
    upper: Seq<Real>,
    i: int,
) -> bool {
    &&& !x.nan()
    &&& asked(signs, i) matches Some(s) ==> {
        &&& s > 0 ==> (Real { bits: ZERO }).at_most(x)
        &&& s < 0 ==> x.at_most(Real { bits: ZERO })
    }
    &&& asked(lower, i) matches Some(l) ==> l.nan() || l.at_most(x)
    &&& asked(upper, i) matches Some(u) ==> u.nan() || x.at_most(u)
}

/// A composed box holds what signs and bounds ask for, all of it and nothing else.
pub proof fn composed_boxes_hold_what_is_asked_for(
    n: usize,
    signs: Seq<i32>,
    lower: Seq<Real>,
    upper: Seq<Real>,
    bounds: BoxBounds,
    x: Real,
    i: int,
)
    requires
        composed(n, signs, lower, upper, Ok(bounds)),
        sound(n as nat, signs, lower, upper),
        0 <= i < n,
    ensures
        x.within(bounds.lower@[i], bounds.upper@[i]) <==> meets(x, signs, lower, upper, i),
{
    let lo = composed_lower(n as nat, signs, lower);
    let hi = composed_upper(n as nat, signs, upper);
    assert(bounds.lower@[i] == lo[i] && bounds.upper@[i] == hi[i]);
    assert(!lo[i].nan() && !hi[i].nan());
}

/// A solve starts where the box lets it, at one with the sign that the bounds ask for, or at
/// zero where they ask for none.
pub proof fn solves_start_at_one_or_zero(bounds: BoxBounds, n: nat, i: int)
    requires
        bounds.holds(n),
        0 <= i < n,
    ensures
        ({
            let (lo, hi) = (bounds.lower@[i], bounds.upper@[i]);
            let zero = Real { bits: ZERO };
            let one = Real { bits: 0x3FF0_0000_0000_0000 };
            let minus = Real { bits: 0xBFF0_0000_0000_0000 };
            let x = start_in(bounds)[i];
            &&& x.within(lo, hi)
            &&& lo.below(zero) && zero.below(hi) ==> x == zero
            &&& zero.at_most(lo) && zero.below(hi) && one.within(lo, hi) ==> x == one
            &&& hi.at_most(zero) && minus.within(lo, hi) ==> x == minus
        }),
{
    assert(bounds.lower@[i].at_most(bounds.upper@[i]));
}

/// Each reduction of a step halves it, from one on.
pub proof fn reductions_halve<A: Arithmetic>(e: Exact, ar: A, k: nat)
    requires
        e.computes(ar),
    ensures
        e.same(e.of(reduction(ar, 0)), 1),
        e.same(2 * e.of(reduction(ar, k + 1)), e.of(reduction(ar, k))),
{
    lemma_constants(e, ar);
    let half = Real { bits: HALF };
    let r = reduction(ar, k);
    lemma_product(e, ar, r, half);
    let (a, b, h) = (e.of(reduction(ar, k + 1)), e.of(r), e.of(half));
    assert(2 * a - b == 2 * (a - b * h) + b * (2 * h - 1)) by (nonlinear_arith);
    lemma_combine(e, 2 * a - b, 2, a - b * h, b, 2 * h - 1);
}

/// A candidate lies, wherever it is inside the box, a scaled step from where it started.
pub proof fn candidates_are_scaled_steps<A: Arithmetic>(
    e: Exact,
    ar: A,
    bounds: BoxBounds,
    x: Seq<Real>,
    step: Seq<Real>,
    scale: Real,
    i: int,
)
    requires
        e.computes(ar),
        0 <= i < x.len(),
        bounds.lower@[i].below(candidate_at(ar, bounds, x, step, scale)[i]),
        candidate_at(ar, bounds, x, step, scale)[i].below(bounds.upper@[i]),
    ensures
        e.same(
            e.of(candidate_at(ar, bounds, x, step, scale)[i]),
            e.of(x[i]) + e.of(scale) * e.of(step[i]),
        ),
{
    lemma_sum_product(e, ar, x[i], scale, step[i]);
}

/// A step has converged where the error is within the tolerance, or where neither the error
/// nor the point changes by more than that, each on its own scale; the tolerance is at
/// least `1e-12`.
pub proof fn steps_converge_by_error_or_by_change<A: Arithmetic>(
    ar: A,
    x: Seq<Real>,
    error: Real,
    next: Seq<Real>,
    next_error: Real,
    opts: InverseFdmOptions,
)
    ensures
        geometric_tolerance(opts) == opts.tol.larger(Real { bits: 0x3D71_9799_812D_EA11 }),
        next_error.at_most(geometric_tolerance(opts)) ==> step_converged(
            ar,
            x,
            error,
            next,
            next_error,
            geometric_tolerance(opts),
        ),
        step_converged(ar, x, error, next, next_error, geometric_tolerance(opts))
            && !next_error.at_most(geometric_tolerance(opts)) ==> {
            &&& quotient_of(
                ar,
                difference_of(ar, error, next_error),
                error.larger(Real { bits: 0x0010_0000_0000_0000 }),
            ).at_most(geometric_tolerance(opts))
            &&& quotient_of(
                ar,
                norm_of(ar, less(ar, next, x)),
                norm_of(ar, x).larger(Real { bits: 0x3FF0_0000_0000_0000 }),
            ).at_most(geometric_tolerance(opts))
        },
{
}

/// Projected gradient steps have converged once a step is shorter than the tolerance.
pub proof fn projected_steps_converge_by_their_length<A: Arithmetic>(
    ar: A,
    bounds: BoxBounds,
    tol: Real,
    s: SpgState,
    g: Seq<Real>,
)
    ensures
        ({
            let t = spg_step(ar, bounds, tol, s, g);
            t.converged <==> norm_of(ar, less(ar, s.x, t.x)).below(tol)
        }),
{
}

/// The residual of a retraction is the square of each length less that of its target, and
/// its objective half the sum of the squares of that.
pub proof fn length_residuals_are_differences_of_squares<A: Arithmetic>(
    e: Exact,
    ar: A,
    lengths: Seq<Real>,
    targets: Seq<Real>,
    i: int,
)
    requires
        e.computes(ar),
        lengths.len() == targets.len(),
        0 <= i < lengths.len(),
    ensures
        e.same(
            e.of(length_residual(ar, lengths, targets)[i]),
            e.of(lengths[i]) * e.of(lengths[i]) - e.of(targets[i]) * e.of(targets[i]),
        ),
        ({
            let r = length_residual(ar, lengths, targets);
            e.same(2 * e.of(objective_of(ar, r)), inner(e, r, r))
        }),
{
    let (a, b) = (
        product_of(ar, lengths[i], lengths[i]),
        product_of(ar, targets[i], targets[i]),
    );
    lemma_product(e, ar, lengths[i], lengths[i]);
    lemma_product(e, ar, targets[i], targets[i]);
    lemma_difference(e, ar, a, b);
    let (r, u, v) = (
        e.of(difference_of(ar, a, b)),
        e.of(lengths[i]) * e.of(lengths[i]),
        e.of(targets[i]) * e.of(targets[i]),
    );
    lemma_combine3(
        e,
        r - (u - v),
        1,
        r - (e.of(a) - e.of(b)),
        1,
        e.of(a) - u,
        -1,
        e.of(b) - v,
    );
    let res = length_residual(ar, lengths, targets);
    let half = Real { bits: HALF };
    let s = squares(ar, res, res.len() as int);
    squares_add_up(e, ar, res, res.len() as int);
    lemma_constants(e, ar);
    lemma_product(e, ar, half, s);
    let (o, h, t, w) = (e.of(objective_of(ar, res)), e.of(half), e.of(s), inner(e, res, res));
    assert(2 * o - w == 2 * (o - h * t) + t * (2 * h - 1) + 1 * (t - w)) by (nonlinear_arith);
    lemma_combine3(e, 2 * o - w, 2, o - h * t, t, 2 * h - 1, 1, t - w);
}

/// No length is farther from its target than the length error tells.
pub proof fn length_errors_bound_all_lengths<A: Arithmetic>(
    ar: A,
    lengths: Seq<Real>,
    targets: Seq<Real>,
    i: int,
)
    requires
        0 <= i < lengths.len(),
        !difference_of(ar, lengths[i], targets[i]).nan(),
    ensures
        difference_of(ar, lengths[i], targets[i]).absolute().at_most(
            length_error(ar, lengths, targets),
        ),
{
    lemma_peak_bounds(less(ar, lengths, targets), Real { bits: ZERO }, lengths.len() as int, i);
}

proof fn lemma_peak_bounds(v: Seq<Real>, base: Real, k: int, i: int)
    requires
        0 <= i < k <= v.len(),
        !v[i].nan(),
    ensures
        v[i].absolute().at_most(peak(v, base, k)),
    decreases k,
{
    if i < k - 1 {
        lemma_peak_bounds(v, base, k - 1, i);
    }
}

/// A retraction has converged where the length error is within the tolerance times the
/// longest target, or times one where that is longer.
pub proof fn length_errors_are_relative_to_the_longest<A: Arithmetic>(
    ar: A,
    targets: Seq<Real>,
    tolerance: Real,
    m: int,
)
    requires
        0 <= m < targets.len(),
        (Real { bits: 0x3CB0_0000_0000_0000 }).at_most(tolerance),
        (Real { bits: 0x3FF0_0000_0000_0000 }).below(targets[m]),
        forall|k: int| 0 <= k < targets.len() ==> (#[trigger] targets[k]).at_most(targets[m]),
        forall|k: int|
            0 <= k < targets.len() && (#[trigger] targets[k]).level(targets[m]) ==> targets[k]
                == targets[m],
    ensures
        allowed_error(ar, targets, tolerance) == product_of(ar, tolerance, targets[m]),
{
    lemma_longest(targets, m, targets.len() as int);
}

proof fn lemma_longest(targets: Seq<Real>, m: int, k: int)
    requires
        0 <= m < targets.len(),
        0 <= k <= targets.len(),
        (Real { bits: ONE }).below(targets[m]),
        forall|i: int| 0 <= i < targets.len() ==> (#[trigger] targets[i]).at_most(targets[m]),
        forall|i: int|
            0 <= i < targets.len() && (#[trigger] targets[i]).level(targets[m]) ==> targets[i]
                == targets[m],
    ensures
        longest(targets, k).at_most(targets[m]),
        longest(targets, k).level(targets[m]) ==> longest(targets, k) == targets[m],
        m < k ==> longest(targets, k) == targets[m],
    decreases k,
{
    if k > 0 {
        lemma_longest(targets, m, k - 1);
        assert(targets[k - 1].at_most(targets[m]));
    }
}

/// Forces over lengths, times the lengths, are the forces; and densities times lengths, over
/// the lengths, are the densities.
pub proof fn forces_are_densities_times_lengths<A: Arithmetic>(
    e: Exact,
    ar: A,
    t: Seq<Real>,
    q: Seq<Real>,
    lengths: Seq<Real>,
    i: int,
)
    requires
        e.computes(ar),
        0 <= i < t.len(),
        0 <= i < q.len(),
        e.unit(e.of(lengths[i])),
    ensures
        e.same(e.of(quotients(ar, t, lengths)[i]) * e.of(lengths[i]), e.of(t[i])),
        e.same(e.of(products(ar, q, lengths)[i]), e.of(q[i]) * e.of(lengths[i])),
{
    lemma_quotient(e, ar, t[i], lengths[i]);
    lemma_product(e, ar, q[i], lengths[i]);
}

/// Stacking puts the root of the regularization under the matrix, once for each unknown: the
/// rows above are those of the matrix, and row `k` below times `x` is the root times
/// `x[k]`.
pub proof fn stacked_rows_regularize<A: Arithmetic>(
    e: Exact,
    ar: A,
    m: Csc,
    w: Real,
    x: Seq<Real>,
    i: int,
)
    requires
        e.computes(ar),
        m.wf(),
        m.nrows + m.ncols <= u32::MAX,
        (Real { bits: ZERO }).below(w),
        stacked(ar, m, w).wf(),
        0 <= i < m.nrows + m.ncols,
    ensures
        e.same(
            row_times(e, stacked(ar, m, w), i, x),
            if i < m.nrows {
                row_times(e, m, i, x)
            } else {
                e.of(root_of(ar, w)) * e.of(x[i - m.nrows])
            },
        ),
{
    let s = stacked(ar, m, w);
    let (r, c) = (m.nrows as int, m.ncols as int);
    let root = root_of(ar, w);
    let low = Seq::new(m.ncols, |j: int| ((m.nrows + j) as u32, j as u32, root));
    let f = |j: int| entry(e, s, i, j) * e.of(x[j]);
    let own = |j: int|
        if i < r {
            entry(e, m, i, j)
        } else if j == i - r {
            e.of(root)
        } else {
            0
        };
    let g = |j: int| own(j) * e.of(x[j]);
    assert forall|j: int| 0 <= j < c implies e.same(#[trigger] f(j), g(j)) by {
        assembling_adds_up(e, ar, (r + c) as nat, m.ncols, stacked_terms(ar, m, w), i, j);
        lemma_placed_joined(e, m.triplets(), low, i, j);
        lemma_triplets_placed(e, m, i, j);
        let h = |l: int| placed_term(e, low, i, j, l);
        if i < r {
            assert forall|l: int| 0 <= l < c implies #[trigger] h(l) == 0 by {}
            lemma_total_zero(h, c);
        } else {
            lemma_entry_outside(e, m, i, j);
            assert forall|l: int| 0 <= l < c && l != i - r implies #[trigger] h(l) == 0 by {}
            lemma_total_single(h, c, i - r);
        }
        let (a, b, v) = (entry(e, s, i, j), own(j), e.of(x[j]));
        assert(e.same(a, b));
        lemma_nil_times(e, v, a - b);
        assert(v * (a - b) == a * v - b * v) by (nonlinear_arith);
    }
    lemma_total_same(e, f, g, c);
    if i < r {
        let plain = |j: int| entry(e, m, i, j) * e.of(x[j]);
        lemma_total_equal(g, plain, c);
    } else {
        assert forall|j: int| 0 <= j < c && j != i - r implies #[trigger] g(j) == 0 by {
            assert(0 * e.of(x[j]) == 0) by (nonlinear_arith);
        }
        lemma_total_single(g, c, i - r);
    }
}

/// The damping of a weighted solve is the root of the regularization, and its rows are the
/// damping times the unknowns.
pub proof fn damping_is_the_root_of_the_regularization<A: Arithmetic>(
    e: Exact,
    ar: A,
    w: Real,
    x: Seq<Real>,
    k: int,
)
    requires
        e.computes(ar),
        (Real { bits: ZERO }).below(w),
        (Real { bits: ZERO }).below(root_of(ar, w)),
        exact_root(e, ar, w),
        0 <= k < x.len(),
    ensures
        e.same(e.of(damping_of(ar, w)) * e.of(damping_of(ar, w)), e.of(w)),
        damping_rows(ar, damping_of(ar, w), x).len() == x.len(),
        e.same(
            e.of(damping_rows(ar, damping_of(ar, w), x)[k]),
            e.of(damping_of(ar, w)) * e.of(x[k]),
        ),
{
    lemma_product(e, ar, damping_of(ar, w), x[k]);
}

/// A projection takes off a vector what least squares find for its image: the image of what
/// is left is what the solution leaves of the image.
pub proof fn projections_leave_what_least_squares_leave<A: Arithmetic>(
    e: Exact,
    ar: A,
    a: Csc,
    left: bool,
    v: Seq<Real>,
    tolerance: Real,
    max_iterations: nat,
    i: int,
)
    requires
        e.computes(ar),
        a.wf(),
        a.ncols <= u32::MAX,
        v.len() == sides(a, left).1,
        0 <= i < sides(a, left).0,
    ensures
        ({
            let rhs = operator(ar, a, left, v);
            let x = lsqr_of(ar, a, rhs, left, tolerance, max_iterations).0;
            e.same(
                image(
                    e,
                    a,
                    left,
                    values_of(e, projection(ar, a, left, v, tolerance, max_iterations)),
                    i,
                ),
                e.of(rhs[i]) - image(e, a, left, values_of(e, x), i),
            )
        }),
{
    let rhs = operator(ar, a, left, v);
    let x = lsqr_of(ar, a, rhs, left, tolerance, max_iterations).0;
    let p = projection(ar, a, left, v, tolerance, max_iterations);
    lemma_operator(e, ar, a, left, v, i);
    assert forall|j: int| 0 <= j < sides(a, left).1 implies e.same(
        #[trigger] values_of(e, p)(j),
        1 * values_of(e, v)(j) + (-1) * values_of(e, x)(j),
    ) by {
        lemma_difference(e, ar, v[j], x[j]);
    }
    lemma_image(e, a, left, values_of(e, p), values_of(e, v), values_of(e, x), 1, -1, i);
    let (s, t, u, b) = (
        image(e, a, left, values_of(e, p), i),
        image(e, a, left, values_of(e, v), i),
        image(e, a, left, values_of(e, x), i),
        e.of(rhs[i]),
    );
    lemma_combine(e, s - (b - u), 1, s - (1 * t + (-1) * u), -1, b - t);
}

/// The trace of a projector adds up, for every unit vector, the entry that the projection
/// leaves of it.
pub proof fn traces_add_up_projections<A: Arithmetic>(
    e: Exact,
    ar: A,
    a: Csc,
    left: bool,
    tolerance: Real,
    max_iterations: nat,
    k: int,
)
    requires
        e.computes(ar),
        0 <= k,
    ensures
        e.same(
            e.of(trace_upto(ar, a, left, tolerance, max_iterations, k)),
            total_of(
                |j: int|
                    e.of(
                        projection(
                            ar,
                            a,
                            left,
                            unit(dimension_of(a, left), j),
                            tolerance,
                            max_iterations,
                        )[j],
                    ),
                k,
            ),
        ),
    decreases k,
{
    let f = |j: int|
        e.of(
            projection(
                ar,
                a,
                left,
                unit(dimension_of(a, left), j),
                tolerance,
                max_iterations,
            )[j],
        );
    if k == 0 {
        lemma_constants(e, ar);
    } else {
        traces_add_up_projections(e, ar, a, left, tolerance, max_iterations, k - 1);
        let before = trace_upto(ar, a, left, tolerance, max_iterations, k - 1);
        let own = projection(
            ar,
            a,
            left,
            unit(dimension_of(a, left), k - 1),
            tolerance,
            max_iterations,
        )[k - 1];
        lemma_sum(e, ar, before, own);
        let now = e.of(trace_upto(ar, a, left, tolerance, max_iterations, k));
        lemma_nil_sum(
            e,
            now - (e.of(before) + e.of(own)),
            e.of(before) - total_of(f, k - 1),
        );
    }
}

/// The null space has as many dimensions as the trace tells, if that is within `1e-5`, or
/// within fifty times the tolerance for each dimension, of a whole number.
pub proof fn nullities_are_rounded_traces<A: Arithmetic>(
    ar: A,
    trace: Real,
    dimension: nat,
    tolerance: Real,
    n: usize,
)
    requires
        0 < dimension <= usize::MAX,
        nullity_of(ar, trace, dimension, tolerance) == Ok::<usize, TheseusError>(n),
        (Real { bits: ZERO }).at_most(nearest_of(ar, trace)),
        nearest_of(ar, trace).at_most(count_of(ar, dimension as u64)),
        nearest_of(ar, trace).whole_part() <= dimension,
    ensures
        n == nearest_of(ar, trace).whole_part(),
        !product_of(
            ar,
            product_of(ar, Real { bits: 0x4049_0000_0000_0000 }, tolerance),
            count_of(ar, dimension as u64),
        ).larger(Real { bits: 0x3EE4_F8B5_88E3_68F1 }).below(
            difference_of(ar, trace, nearest_of(ar, trace)).absolute(),
        ),
{
}

/// The rank that singular values in descending order tell is where they fall to the
/// threshold.
pub proof fn ranks_are_where_singular_values_fall(v: Seq<Real>, threshold: Real, k: int, r: int)
    requires
        0 <= r <= k <= v.len(),
        forall|i: int| 0 <= i < r ==> threshold.below(#[trigger] v[i]),
        forall|i: int| r <= i < k ==> !threshold.below(#[trigger] v[i]),
    ensures
        count_above(v, threshold, k) == r,
    decreases k,
{
    if k > 0 {
        if r == k {
            ranks_are_where_singular_values_fall(v, threshold, k - 1, r - 1);
        } else {
            ranks_are_where_singular_values_fall(v, threshold, k - 1, r);
        }
    }
}

/// A QR factorization has full rank where all pivots are finite and larger than the
/// threshold.
pub proof fn full_rank_means_that_all_pivots_count(pivots: Seq<Real>, threshold: Real, k: int)
    requires
        0 <= k <= pivots.len(),
    ensures
        usable_pivots(pivots, threshold, k) <= k,
        usable_pivots(pivots, threshold, k) == k <==> forall|i: int|
            0 <= i < k ==> (#[trigger] pivots[i]).finite() && threshold.below(
                pivots[i].absolute(),
            ),
    decreases k,
{
    if k > 0 {
        full_rank_means_that_all_pivots_count(pivots, threshold, k - 1);
    }
}

/// Pivots count above a hundred times the machine precision, times the largest pivot, or one
/// where that is larger, times the larger side of the matrix.
pub proof fn pivots_are_weighed_by_the_largest<A: Arithmetic>(
    ar: A,
    pivots: Seq<Real>,
    nrows: nat,
    m: int,
)
    requires
        0 <= m < pivots.len() <= nrows,
        (Real { bits: 0x3FF0_0000_0000_0000 }).at_most(pivots[m].absolute()),
        is_largest(pivots, m),
    ensures
        pivot_threshold(ar, pivots, nrows) == product_of(
            ar,
            product_of(
                ar,
                product_of(
                    ar,
                    Real { bits: 0x4059_0000_0000_0000 },
                    Real { bits: 0x3CB0_0000_0000_0000 },
                ),
                pivots[m].absolute(),
            ),
            count_of(ar, nrows as u64),
        ),
{
    lemma_peak_is_largest(pivots, m);
}

/// The null space is read off the last columns of a decomposition, those past the rank.
pub proof fn null_spaces_are_the_last_columns(g: Grid, rank: nat, cap: nat, j: int)
    requires
        rank <= g.cols,
        0 <= j < g.cols - rank,
        j < cap,
    ensures
        tail_columns(g, rank, cap).len() == if g.cols - rank <= cap {
            (g.cols - rank) as nat
        } else {
            cap
        },
        tail_columns(g, rank, cap)[j] == column(g, rank + j),
{
}

/// How far a basis is from a null space: the sum, over its columns and over the rows of the
/// matrix, of the squares of row times column.
pub proof fn kernel_residuals_add_up_images<A: Arithmetic>(
    e: Exact,
    ar: A,
    a: Csc,
    cols: Seq<Seq<Real>>,
    k: int,
)
    requires
        e.computes(ar),
        a.wf(),
        0 <= k <= cols.len(),
    ensures
        e.same(
            e.of(image_squares(ar, a, cols, k)),
            total_of(
                |j: int|
                    total_of(
                        |i: int| row_times(e, a, i, cols[j]) * row_times(e, a, i, cols[j]),
                        a.nrows as int,
                    ),
                k,
            ),
        ),
    decreases k,
{
    let n = a.nrows as int;
    let f = |j: int|
        total_of(|i: int| row_times(e, a, i, cols[j]) * row_times(e, a, i, cols[j]), n);
    if k == 0 {
        lemma_constants(e, ar);
    } else {
        kernel_residuals_add_up_images(e, ar, a, cols, k - 1);
        let y = a.applied(ar, cols[k - 1]);
        lemma_applied_length(ar, a, cols[k - 1]);
        squares_add_up(e, ar, y, n);
        let g = |i: int| e.of(y[i]) * e.of(y[i]);
        let h = |i: int| row_times(e, a, i, cols[k - 1]) * row_times(e, a, i, cols[k - 1]);
        assert forall|i: int| 0 <= i < n implies e.same(#[trigger] g(i), h(i)) by {
            rows_are_multiplied_and_added(e, ar, a, cols[k - 1], i);
            let (s, t) = (e.of(y[i]), row_times(e, a, i, cols[k - 1]));
            lemma_swap_factors(e, s, t, s, t);
        }
        lemma_total_same(e, g, h, n);
        let before = image_squares(ar, a, cols, k - 1);
        let own = squares(ar, y, n);
        lemma_sum(e, ar, before, own);
        let now = e.of(image_squares(ar, a, cols, k));
        lemma_same_trans(e, e.of(own), total_of(g, n), total_of(h, n));
        lemma_combine3(
            e,
            now - (total_of(f, k - 1) + f(k - 1)),
            1,
            now - (e.of(before) + e.of(own)),
            1,
            e.of(before) - total_of(f, k - 1),
            1,
            e.of(own) - total_of(h, n),
        );
    }
}

/// A null space passes within a hundred times the tolerance, which is at least `1e-10`,
/// times the size of the matrix, or one where that is larger.
pub proof fn kernels_pass_on_the_scale_of_the_matrix<A: Arithmetic>(ar: A, a: Csc, tolerance: Real)
    requires
        (Real { bits: 0x3DDB_7CDF_D9D7_BDBB }).at_most(tolerance),
        (Real { bits: 0x3FF0_0000_0000_0000 }).at_most(norm_of(ar, a.values)),
    ensures
        kernel_allowance(ar, a, tolerance) == product_of(
            ar,
            product_of(ar, Real { bits: 0x4059_0000_0000_0000 }, tolerance),
            norm_of(ar, a.values),
        ),
{
}

/// LSQR stops where the residual is within the tolerance times the right-hand side, or where
/// the gradient, which is `alpha` times what the rotation leaves of it, is within the
/// tolerance on the scale of matrix and residual; else it goes on.
pub proof fn lsqr_stops_by_residual_or_gradient<A: Arithmetic>(
    ar: A,
    s: Bidiagonal,
    u: Seq<Real>,
    v: Seq<Real>,
    beta: Real,
    alpha: Real,
    tol: LsqrTolerances,
    performed: nat,
)
    requires
        !hypotenuse_of(ar, s.rhobar, beta).level(Real { bits: ZERO }),
    ensures
        ({
            let t = rotated(ar, s, u, v, beta, alpha, tol, performed);
            let rho = hypotenuse_of(ar, s.rhobar, beta);
            let tau = product_of(
                ar,
                quotient_of(ar, beta, rho),
                product_of(ar, quotient_of(ar, s.rhobar, rho), s.phibar),
            );
            &&& t.performed == performed + 1
            &&& t.stopped == t.converged
            &&& t.state.u == u && t.state.v == v && t.state.alpha == alpha
            &&& t.state.anorm == hypotenuse_of(ar, hypotenuse_of(ar, s.anorm, beta), alpha)
            &&& t.converged <==> t.state.phibar.absolute().at_most(
                product_of(ar, tol.tolerance, tol.rhs_norm),
            ) || product_of(ar, alpha, tau.absolute()).at_most(
                product_of(
                    ar,
                    product_of(ar, tol.tolerance, t.state.anorm.larger(tol.operator_norm)),
                    t.state.phibar.absolute().larger(tol.rhs_norm),
                ),
            )
        }),
{
}

} // verus!
