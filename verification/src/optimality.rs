//! What the solutions of least-squares problems satisfy.

use crate::arithmetic::Arithmetic;
use crate::backend::Backend;
use crate::bounds::BoxBounds;
use crate::direct::gram_matrix;
use crate::double::{Real, ONE, ZERO};
use crate::entries::{
    assembling_adds_up, column_times, columns_are_multiplied_and_added, entry, lemma_applied_length,
    lemma_diagonal_placed, lemma_placed_joined, loading_adds_to_the_diagonal, placed, placed_term,
    products_multiply_rows_and_columns, row_times, rows_are_multiplied_and_added,
    transposing_exchanges_rows_and_columns, entry_term,
};
use crate::exact::{
    lemma_cancel, lemma_combine, lemma_combine3, lemma_constants, lemma_difference,
    lemma_difference_product, lemma_negated, lemma_nil_sum, lemma_nil_times, lemma_quotient,
    lemma_same_trans, lemma_sum_product, lemma_total_equal, lemma_total_linear, lemma_total_same,
    lemma_total_single, lemma_total_split, lemma_total_swap, lemma_total_zero, total_of, Exact,
    dot_products_add_up,
};
use crate::saddle::{diagonal_from, extended, mirrored, saddle_matrix, saddle_terms};
use crate::sparse::{diagonal, lemma_has_column, lemma_transposed_wf, product, Csc};
use crate::spg::{
    gradient_from, projected, spg_step, spg_upto, weighed_twice, weighted_spg_step, SpgState,
};
use crate::vector::{dot_upto, less, moved};
use crate::weight::MetricWeight;
use vstd::prelude::*;

verus! {

/// Entry `k` of `M' (M x - p) + w x`, the gradient of `1/2 |M x - p|^2 + 1/2 w |x|^2`.
pub open spec fn normal_residual(
    e: Exact,
    m: Csc,
    p: Seq<Real>,
    w: int,
    x: Seq<Real>,
    k: int,
) -> int {
    total_of(
        |i: int| entry(e, m, i, k) * (row_times(e, m, i, x) - e.of(p[i])),
        m.nrows as int,
    ) + w * e.of(x[k])
}

/// What a regularization stands for: nothing where it is not positive.
pub open spec fn regularization_of(e: Exact, w: Real) -> int {
    if (Real { bits: ZERO }).below(w) {
        e.of(w)
    } else {
        0
    }
}

/// Columns times vectors whose entries count as the same.
pub(crate) proof fn lemma_column_times(
    e: Exact,
    m: Csc,
    j: int,
    y: Seq<Real>,
    f: spec_fn(int) -> int,
)
    requires
        forall|i: int| 0 <= i < m.nrows ==> e.same(#[trigger] e.of(y[i]), f(i)),
    ensures
        e.same(
            column_times(e, m, j, y),
            total_of(|i: int| entry(e, m, i, j) * f(i), m.nrows as int),
        ),
{
    let g = |i: int| entry(e, m, i, j) * e.of(y[i]);
    let h = |i: int| entry(e, m, i, j) * f(i);
    assert forall|i: int| 0 <= i < m.nrows implies e.same(#[trigger] g(i), h(i)) by {
        assert(e.same(e.of(y[i]), f(i)));
        let (a, b, c) = (entry(e, m, i, j), e.of(y[i]), f(i));
        lemma_nil_times(e, a, b - c);
        assert(a * (b - c) == a * b - a * c) by (nonlinear_arith);
    }
    lemma_total_same(e, g, h, m.nrows as int);
}

/// `M' r`, or that and `w x`, computed.
proof fn lemma_gradient_from<A: Arithmetic>(
    e: Exact,
    ar: A,
    m: Csc,
    w: Real,
    x: Seq<Real>,
    r: Seq<Real>,
    k: int,
)
    requires
        e.computes(ar),
        m.wf(),
        m.ncols <= u32::MAX,
        x.len() == m.ncols,
        0 <= k < m.ncols,
    ensures
        gradient_from(ar, m, w, x, r).len() == m.ncols,
        e.same(
            e.of(gradient_from(ar, m, w, x, r)[k]),
            column_times(e, m, k, r) + regularization_of(e, w) * e.of(x[k]),
        ),
{
    let g = m.transposed().applied(ar, r);
    lemma_transposed_wf(m);
    lemma_applied_length(ar, m.transposed(), r);
    columns_are_multiplied_and_added(e, ar, m, r, k);
    let t = column_times(e, m, k, r);
    if (Real { bits: ZERO }).below(w) {
        lemma_sum_product(e, ar, g[k], w, x[k]);
        let z = e.of(moved(ar, g, w, x)[k]);
        lemma_nil_sum(e, z - (e.of(g[k]) + e.of(w) * e.of(x[k])), e.of(g[k]) - t);
    } else {
        assert(0 * e.of(x[k]) == 0) by (nonlinear_arith);
    }
}

/// The direction in which a projected gradient step goes down is the gradient of the
/// regularized objective at the point where the step starts.
proof fn lemma_descent_direction<A: Arithmetic>(
    e: Exact,
    ar: A,
    m: Csc,
    p: Seq<Real>,
    w: Real,
    x: Seq<Real>,
    k: int,
)
    requires
        e.computes(ar),
        m.wf(),
        m.ncols <= u32::MAX,
        x.len() == m.ncols,
        p.len() == m.nrows,
        0 <= k < m.ncols,
    ensures
        ({
            let g = gradient_from(ar, m, w, x, less(ar, m.applied(ar, x), p));
            &&& g.len() == m.ncols
            &&& e.same(e.of(g[k]), normal_residual(e, m, p, regularization_of(e, w), x, k))
        }),
{
    let ax = m.applied(ar, x);
    let r = less(ar, ax, p);
    lemma_applied_length(ar, m, x);
    lemma_gradient_from(e, ar, m, w, x, r, k);
    let f = |i: int| row_times(e, m, i, x) - e.of(p[i]);
    assert forall|i: int| 0 <= i < m.nrows implies e.same(#[trigger] e.of(r[i]), f(i)) by {
        rows_are_multiplied_and_added(e, ar, m, x, i);
        lemma_difference(e, ar, ax[i], p[i]);
        lemma_nil_sum(
            e,
            e.of(r[i]) - (e.of(ax[i]) - e.of(p[i])),
            e.of(ax[i]) - row_times(e, m, i, x),
        );
    }
    lemma_column_times(e, m, k, r, f);
    let named = |i: int| entry(e, m, i, k) * f(i);
    let plain = |i: int| entry(e, m, i, k) * (row_times(e, m, i, x) - e.of(p[i]));
    lemma_total_equal(named, plain, m.nrows as int);
    let g = e.of(gradient_from(ar, m, w, x, r)[k]);
    let (c, t, q) = (
        column_times(e, m, k, r),
        total_of(plain, m.nrows as int),
        regularization_of(e, w) * e.of(x[k]),
    );
    lemma_nil_sum(e, g - (c + q), c - t);
}

/// A projected gradient step leads, wherever it ends inside the box, from a point down the
/// gradient of `1/2 |M x - p|^2 + 1/2 w |x|^2`, as far as its step length tells.
pub proof fn projected_steps_follow_the_gradient<A: Arithmetic>(
    e: Exact,
    ar: A,
    m: Csc,
    p: Seq<Real>,
    w: Real,
    bounds: BoxBounds,
    tol: Real,
    x0: Seq<Real>,
    n: nat,
    k: int,
)
    requires
        e.computes(ar),
        m.wf(),
        m.ncols <= u32::MAX,
        p.len() == m.nrows,
        x0.len() == m.ncols,
        0 <= k < m.ncols,
    ensures
        ({
            let s = spg_upto(ar, m, p, w, bounds, tol, x0, n);
            let t = spg_upto(ar, m, p, w, bounds, tol, x0, n + 1);
            !s.converged && bounds.lower@[k].below(t.x[k]) && t.x[k].below(bounds.upper@[k])
                ==> e.same(
                e.of(t.x[k]),
                e.of(s.x[k]) - e.of(t.alpha) * normal_residual(
                    e,
                    m,
                    p,
                    regularization_of(e, w),
                    s.x,
                    k,
                ),
            )
        }),
{
    let s = spg_upto(ar, m, p, w, bounds, tol, x0, n);
    let t = spg_upto(ar, m, p, w, bounds, tol, x0, n + 1);
    lemma_spg_lengths(ar, m, p, w, bounds, tol, x0, n);
    if !s.converged && bounds.lower@[k].below(t.x[k]) && t.x[k].below(bounds.upper@[k]) {
        let g = gradient_from(ar, m, w, s.x, less(ar, m.applied(ar, s.x), p));
        lemma_descent_direction(e, ar, m, p, w, s.x, k);
        lemma_inside(e, ar, bounds, s.x, t.alpha, g, k);
        let d = normal_residual(e, m, p, regularization_of(e, w), s.x, k);
        let (a, b, c, h) = (e.of(t.x[k]), e.of(s.x[k]), e.of(t.alpha), e.of(g[k]));
        assert(a - (b - c * d) == 1 * (a - (b - c * h)) + (-c) * (h - d)) by (nonlinear_arith);
        lemma_combine(e, a - (b - c * d), 1, a - (b - c * h), -c, h - d);
    }
}

/// A projected point that lies inside the box was not moved into it.
proof fn lemma_inside<A: Arithmetic>(
    e: Exact,
    ar: A,
    bounds: BoxBounds,
    x: Seq<Real>,
    alpha: Real,
    g: Seq<Real>,
    k: int,
)
    requires
        e.computes(ar),
        0 <= k < x.len(),
        bounds.lower@[k].below(projected(ar, bounds, x, alpha, g)[k]),
        projected(ar, bounds, x, alpha, g)[k].below(bounds.upper@[k]),
    ensures
        e.same(
            e.of(projected(ar, bounds, x, alpha, g)[k]),
            e.of(x[k]) - e.of(alpha) * e.of(g[k]),
        ),
{
    lemma_difference_product(e, ar, x[k], alpha, g[k]);
}

proof fn lemma_spg_lengths<A: Arithmetic>(
    ar: A,
    m: Csc,
    p: Seq<Real>,
    w: Real,
    bounds: BoxBounds,
    tol: Real,
    x0: Seq<Real>,
    n: nat,
)
    ensures
        spg_upto(ar, m, p, w, bounds, tol, x0, n).x.len() == x0.len(),
    decreases n,
{
    if n > 0 {
        lemma_spg_lengths(ar, m, p, w, bounds, tol, x0, (n - 1) as nat);
    }
}

/// Where projected gradient steps stand still inside the box, the gradient of the
/// regularized objective vanishes: `M' (M x - p) + w x` is zero there.
pub proof fn standing_still_is_optimal<A: Arithmetic>(
    e: Exact,
    ar: A,
    m: Csc,
    p: Seq<Real>,
    w: Real,
    bounds: BoxBounds,
    tol: Real,
    x0: Seq<Real>,
    n: nat,
    k: int,
)
    requires
        e.computes(ar),
        m.wf(),
        m.ncols <= u32::MAX,
        p.len() == m.nrows,
        x0.len() == m.ncols,
        0 <= k < m.ncols,
        ({
            let s = spg_upto(ar, m, p, w, bounds, tol, x0, n);
            let t = spg_upto(ar, m, p, w, bounds, tol, x0, n + 1);
            &&& !s.converged
            &&& bounds.lower@[k].below(t.x[k])
            &&& t.x[k].below(bounds.upper@[k])
            &&& t.x[k] == s.x[k]
            &&& e.unit(e.of(t.alpha))
        }),
    ensures
        e.nil(
            normal_residual(
                e,
                m,
                p,
                regularization_of(e, w),
                spg_upto(ar, m, p, w, bounds, tol, x0, n).x,
                k,
            ),
        ),
{
    let s = spg_upto(ar, m, p, w, bounds, tol, x0, n);
    let t = spg_upto(ar, m, p, w, bounds, tol, x0, n + 1);
    projected_steps_follow_the_gradient(e, ar, m, p, w, bounds, tol, x0, n, k);
    let d = normal_residual(e, m, p, regularization_of(e, w), s.x, k);
    let (a, c) = (e.of(s.x[k]), e.of(t.alpha));
    assert(a - (a - c * d) == c * d);
    lemma_cancel(e, c, d);
}

/// The length of a step is that of the step before, or the quotient of Barzilai and Borwein:
/// the product of the last changes of point and gradient over that of the change of the
/// gradient with itself.
pub proof fn step_lengths_are_spectral<A: Arithmetic>(
    e: Exact,
    ar: A,
    bounds: BoxBounds,
    tol: Real,
    s: SpgState,
    g: Seq<Real>,
)
    requires
        e.computes(ar),
        s.prev_x.len() == s.x.len(),
        s.prev_g.len() == s.x.len(),
        g.len() == s.x.len(),
    ensures
        ({
            let t = spg_step(ar, bounds, tol, s, g);
            let n = s.x.len() as int;
            let gg = total_of(
                |i: int|
                    (e.of(g[i]) - e.of(s.prev_g[i])) * (e.of(g[i]) - e.of(s.prev_g[i])),
                n,
            );
            let xg = total_of(
                |i: int|
                    (e.of(s.x[i]) - e.of(s.prev_x[i])) * (e.of(g[i]) - e.of(s.prev_g[i])),
                n,
            );
            &&& t.prev_x == s.x
            &&& t.prev_g == g
            &&& t.iterations == s.iterations + 1
            &&& s.iterations == 0 ==> t.alpha == s.alpha
            &&& t.alpha == s.alpha || (e.unit(gg) ==> e.same(e.of(t.alpha) * gg, xg))
        }),
{
    let t = spg_step(ar, bounds, tol, s, g);
    let n = s.x.len() as int;
    let dx = less(ar, s.x, s.prev_x);
    let dg = less(ar, g, s.prev_g);
    let fx = |i: int| e.of(s.x[i]) - e.of(s.prev_x[i]);
    let fg = |i: int| e.of(g[i]) - e.of(s.prev_g[i]);
    assert forall|i: int| 0 <= i < n implies e.same(#[trigger] e.of(dx[i]), fx(i)) by {
        lemma_difference(e, ar, s.x[i], s.prev_x[i]);
    }
    assert forall|i: int| 0 <= i < n implies e.same(#[trigger] e.of(dg[i]), fg(i)) by {
        lemma_difference(e, ar, g[i], s.prev_g[i]);
    }
    let gg_real = dot_upto(ar, dg, dg, n);
    let xg_real = dot_upto(ar, dx, dg, n);
    lemma_dot_of(e, ar, dg, dg, fg, fg, n);
    lemma_dot_of(e, ar, dx, dg, fx, fg, n);
    let pgg = |i: int| fg(i) * fg(i);
    let pxg = |i: int| fx(i) * fg(i);
    let qgg = |i: int| (e.of(g[i]) - e.of(s.prev_g[i])) * (e.of(g[i]) - e.of(s.prev_g[i]));
    let qxg = |i: int| (e.of(s.x[i]) - e.of(s.prev_x[i])) * (e.of(g[i]) - e.of(s.prev_g[i]));
    lemma_total_equal(pgg, qgg, n);
    lemma_total_equal(pxg, qxg, n);
    let gg = total_of(qgg, n);
    let xg = total_of(qxg, n);
    if t.alpha != s.alpha && e.unit(gg) {
        lemma_unit_same(e, gg, e.of(gg_real));
        lemma_quotient(e, ar, xg_real, gg_real);
        let (a, b, c) = (e.of(t.alpha), e.of(gg_real), e.of(xg_real));
        assert(a * gg - xg == 1 * (a * b - c) + (-a) * (b - gg) + 1 * (c - xg))
            by (nonlinear_arith);
        lemma_combine3(e, a * gg - xg, 1, a * b - c, -a, b - gg, 1, c - xg);
    }
}

pub(crate) proof fn lemma_unit_same(e: Exact, x: int, y: int)
    requires
        e.unit(x),
        e.same(y, x),
    ensures
        e.unit(y),
{
    let z = choose|z: int| e.nil(#[trigger] (x * z) - 1);
    assert(y * z - 1 == 1 * (x * z - 1) + z * (y - x)) by (nonlinear_arith);
    lemma_combine(e, y * z - 1, 1, x * z - 1, z, y - x);
}

/// A product of two lists whose entries count as these.
pub(crate) proof fn lemma_dot_of<A: Arithmetic>(
    e: Exact,
    ar: A,
    a: Seq<Real>,
    b: Seq<Real>,
    f: spec_fn(int) -> int,
    g: spec_fn(int) -> int,
    n: int,
)
    requires
        e.computes(ar),
        forall|i: int| 0 <= i < n ==> e.same(#[trigger] e.of(a[i]), f(i)),
        forall|i: int| 0 <= i < n ==> e.same(#[trigger] e.of(b[i]), g(i)),
    ensures
        e.same(e.of(dot_upto(ar, a, b, n)), total_of(|i: int| f(i) * g(i), n)),
{
    dot_products_add_up(e, ar, a, b, n);
    let p = |i: int| e.of(a[i]) * e.of(b[i]);
    let q = |i: int| f(i) * g(i);
    assert forall|i: int| 0 <= i < n implies e.same(#[trigger] p(i), q(i)) by {
        assert(e.same(e.of(a[i]), f(i)));
        assert(e.same(e.of(b[i]), g(i)));
        let (s, t, u, v) = (e.of(a[i]), e.of(b[i]), f(i), g(i));
        assert(s * t - u * v == t * (s - u) + u * (t - v)) by (nonlinear_arith);
        lemma_combine(e, s * t - u * v, t, s - u, u, t - v);
    }
    lemma_total_same(e, p, q, n);
    lemma_same_trans(e, e.of(dot_upto(ar, a, b, n)), total_of(p, n), total_of(q, n));
}

/// A projected gradient step in the geometric weight leads, wherever it ends inside the box,
/// down `M' v + w x`, where `v` is the residual `M x - p`, weighed twice.
pub proof fn weighted_steps_follow_the_gradient<A: Arithmetic, B: Backend>(
    e: Exact,
    ar: A,
    b: B,
    m: Csc,
    p: Seq<Real>,
    w: Real,
    bounds: BoxBounds,
    tol: Real,
    weight: MetricWeight<B>,
    s: SpgState,
    t: SpgState,
)
    requires
        e.computes(ar),
        m.wf(),
        m.ncols <= u32::MAX,
        s.x.len() == m.ncols,
        weighted_spg_step(ar, b, m, p, w, bounds, tol, weight, s, Ok(t)),
    ensures
        exists|v: Vec<Real>|
            {
                &&& #[trigger] weighed_twice(
                    ar,
                    b,
                    weight,
                    less(ar, m.applied(ar, s.x), p),
                    Ok(v),
                )
                &&& forall|k: int|
                    0 <= k < m.ncols && bounds.lower@[k].below(#[trigger] t.x[k])
                        && t.x[k].below(bounds.upper@[k]) ==> e.same(
                        e.of(t.x[k]),
                        e.of(s.x[k]) - e.of(t.alpha) * (column_times(e, m, k, v@)
                            + regularization_of(e, w) * e.of(s.x[k])),
                    )
            },
{
    let residual = less(ar, m.applied(ar, s.x), p);
    let v = choose|v: Vec<Real>|
        {
            &&& #[trigger] weighed_twice(ar, b, weight, residual, Ok(v))
            &&& t == spg_step(ar, bounds, tol, s, gradient_from(ar, m, w, s.x, v@))
        };
    let g = gradient_from(ar, m, w, s.x, v@);
    assert forall|k: int|
        0 <= k < m.ncols && bounds.lower@[k].below(#[trigger] t.x[k]) && t.x[k].below(
            bounds.upper@[k],
        ) implies e.same(
        e.of(t.x[k]),
        e.of(s.x[k]) - e.of(t.alpha) * (column_times(e, m, k, v@) + regularization_of(e, w) * e.of(
            s.x[k],
        )),
    ) by {
        lemma_gradient_from(e, ar, m, w, s.x, v@, k);
        lemma_inside(e, ar, bounds, s.x, t.alpha, g, k);
        let d = column_times(e, m, k, v@) + regularization_of(e, w) * e.of(s.x[k]);
        let (a, b1, c, h) = (e.of(t.x[k]), e.of(s.x[k]), e.of(t.alpha), e.of(g[k]));
        assert(a - (b1 - c * d) == 1 * (a - (b1 - c * h)) + (-c) * (h - d)) by (nonlinear_arith);
        lemma_combine(e, a - (b1 - c * d), 1, a - (b1 - c * h), -c, h - d);
    }
    assert(weighed_twice(ar, b, weight, residual, Ok(v)));
}

/// The steps start in the box, at the point of it that is nearest to the given one, with
/// step length one.
pub proof fn projected_steps_start_in_the_box<A: Arithmetic>(
    ar: A,
    m: Csc,
    p: Seq<Real>,
    w: Real,
    bounds: BoxBounds,
    tol: Real,
    x0: Seq<Real>,
    k: int,
)
    requires
        bounds.holds(x0.len()),
        0 <= k < x0.len(),
        !x0[k].nan(),
    ensures
        ({
            let s = spg_upto(ar, m, p, w, bounds, tol, x0, 0);
            &&& s.alpha == (Real { bits: ONE })
            &&& s.iterations == 0
            &&& s.x[k].within(bounds.lower@[k], bounds.upper@[k])
            &&& x0[k].within(bounds.lower@[k], bounds.upper@[k]) ==> s.x[k] == x0[k]
            &&& x0[k].below(bounds.lower@[k]) ==> s.x[k] == bounds.lower@[k]
            &&& bounds.upper@[k].below(x0[k]) ==> s.x[k] == bounds.upper@[k]
        }),
{
    assert(bounds.lower@[k].at_most(bounds.upper@[k]));
}

/// Normal equations are the condition for a least square: for every `x`, row `k` of
/// `G x - h`, where `G` and `h` are what is handed to the solver, is entry `k` of
/// `M' (M x - p) + w x`.
pub proof fn normal_equations_are_the_gradient<A: Arithmetic>(
    e: Exact,
    ar: A,
    m: Csc,
    p: Seq<Real>,
    w: Real,
    x: Seq<Real>,
    k: int,
)
    requires
        e.computes(ar),
        m.wf(),
        m.nrows <= u32::MAX,
        m.ncols <= u32::MAX,
        p.len() == m.nrows,
        product(ar, m.transposed(), m).wf(),
        gram_matrix(ar, m, w).wf(),
        0 <= k < m.ncols,
    ensures
        e.same(
            row_times(e, gram_matrix(ar, m, w), k, x) - e.of(
                m.transposed().applied(ar, p)[k],
            ),
            normal_residual(e, m, p, regularization_of(e, w), x, k),
        ),
{
    let g = gram_matrix(ar, m, w);
    let (r, c) = (m.nrows as int, m.ncols as int);
    let q = regularization_of(e, w);
    lemma_transposed_wf(m);
    let f = |i: int, j: int| entry(e, m, i, k) * (entry(e, m, i, j) * e.of(x[j]));
    let left = |j: int| entry(e, g, k, j) * e.of(x[j]);
    let cols = |j: int| total_of(|i: int| f(i, j), r);
    let extra = |j: int|
        if j == k {
            q * e.of(x[j])
        } else {
            0
        };
    let both = |j: int| 1 * cols(j) + 1 * extra(j);
    assert forall|j: int| 0 <= j < c implies e.same(#[trigger] left(j), both(j)) by {
        lemma_gram_entry(e, ar, m, w, k, j);
        let h = |i: int| entry(e, m, i, k) * entry(e, m, i, j);
        let fj = |i: int| f(i, j);
        let sc = |i: int| e.of(x[j]) * h(i) + 0 * h(i);
        assert forall|i: int| 0 <= i < r implies #[trigger] fj(i) == sc(i) by {
            let (a, b, t) = (entry(e, m, i, k), entry(e, m, i, j), e.of(x[j]));
            assert(a * (b * t) == t * (a * b) + 0 * (a * b)) by (nonlinear_arith);
        }
        lemma_total_equal(fj, sc, r);
        lemma_total_linear(h, h, e.of(x[j]), 0, r);
        let (a, t, y) = (entry(e, g, k, j), total_of(h, r), e.of(x[j]));
        assert(0 * t == 0) by (nonlinear_arith);
        let d = if j == k {
            q
        } else {
            0
        };
        lemma_nil_times(e, y, a - (t + d));
        assert(y * (a - (t + d)) == a * y - (1 * (y * t) + 1 * (d * y))) by (nonlinear_arith);
        assert(0 * y == 0) by (nonlinear_arith);
    }
    lemma_total_same(e, left, both, c);
    lemma_total_linear(cols, extra, 1, 1, c);
    lemma_total_single(extra, c, k);
    lemma_total_swap(f, r, c);
    let rows = |i: int| total_of(|j: int| f(i, j), c);
    let right = |i: int| entry(e, m, i, k) * row_times(e, m, i, x);
    assert forall|i: int| 0 <= i < r implies #[trigger] rows(i) == right(i) by {
        let h = |j: int| entry(e, m, i, j) * e.of(x[j]);
        let sc = |j: int| entry(e, m, i, k) * h(j) + 0 * h(j);
        let fi = |j: int| f(i, j);
        assert forall|j: int| 0 <= j < c implies #[trigger] fi(j) == sc(j) by {
            assert(0 * h(j) == 0) by (nonlinear_arith);
        }
        lemma_total_equal(fi, sc, c);
        lemma_total_linear(h, h, entry(e, m, i, k), 0, c);
        assert(0 * total_of(h, c) == 0) by (nonlinear_arith);
    }
    lemma_total_equal(rows, right, r);
    columns_are_multiplied_and_added(e, ar, m, p, k);
    let load = |i: int| entry(e, m, i, k) * e.of(p[i]);
    let plain = |i: int| entry(e, m, i, k) * (row_times(e, m, i, x) - e.of(p[i]));
    let apart = |i: int| 1 * right(i) + (-1) * load(i);
    assert forall|i: int| 0 <= i < r implies #[trigger] plain(i) == apart(i) by {
        let (a, b, t) = (entry(e, m, i, k), row_times(e, m, i, x), e.of(p[i]));
        assert(a * (b - t) == 1 * (a * b) + (-1) * (a * t)) by (nonlinear_arith);
    }
    lemma_total_equal(plain, apart, r);
    lemma_total_linear(right, load, 1, -1, r);
    let (s, t, u) = (total_of(left, c), total_of(right, r), q * e.of(x[k]));
    let (v, z) = (e.of(m.transposed().applied(ar, p)[k]), total_of(load, r));
    lemma_nil_sum(e, s - (t + u), v - z);
}

/// The matrix of normal equations is `M' M + w I`.
pub(crate) proof fn lemma_gram_entry<A: Arithmetic>(e: Exact, ar: A, m: Csc, w: Real, k: int, j: int)
    requires
        e.computes(ar),
        m.wf(),
        m.nrows <= u32::MAX,
        m.ncols <= u32::MAX,
        product(ar, m.transposed(), m).wf(),
        gram_matrix(ar, m, w).wf(),
        0 <= k < m.ncols,
        0 <= j < m.ncols,
    ensures
        e.same(
            entry(e, gram_matrix(ar, m, w), k, j),
            total_of(|i: int| entry(e, m, i, k) * entry(e, m, i, j), m.nrows as int) + if j == k {
                regularization_of(e, w)
            } else {
                0
            },
        ),
{
    lemma_transposed_wf(m);
    let g = product(ar, m.transposed(), m);
    products_multiply_rows_and_columns(e, ar, m.transposed(), m, k, j);
    let f = |i: int| entry(e, m.transposed(), k, i) * entry(e, m, i, j);
    let h = |i: int| entry(e, m, i, k) * entry(e, m, i, j);
    assert forall|i: int| 0 <= i < m.nrows implies #[trigger] f(i) == h(i) by {
        transposing_exchanges_rows_and_columns(e, m, i, k);
    }
    lemma_total_equal(f, h, m.nrows as int);
    if (Real { bits: ZERO }).below(w) {
        loading_adds_to_the_diagonal(e, ar, g, w, k, j);
        let d = if k == j {
            e.of(w)
        } else {
            0
        };
        lemma_nil_sum(
            e,
            entry(e, gram_matrix(ar, m, w), k, j) - (entry(e, g, k, j) + d),
            entry(e, g, k, j) - total_of(h, m.nrows as int),
        );
    }
}

/// A total of pairs.
pub(crate) proof fn lemma_total_pairs(f: spec_fn(int) -> int, n: int)
    requires
        0 <= n,
    ensures
        total_of(f, 2 * n) == total_of(|i: int| f(2 * i) + f(2 * i + 1), n),
    decreases n,
{
    if n > 0 {
        lemma_total_pairs(f, n - 1);
        assert(total_of(f, 2 * n) == total_of(f, 2 * n - 1) + f(2 * n - 1));
        assert(total_of(f, 2 * n - 1) == total_of(f, 2 * n - 2) + f(2 * n - 2));
        let g = |i: int| f(2 * i) + f(2 * i + 1);
        assert(g(n - 1) == f(2 * (n - 1)) + f(2 * (n - 1) + 1));
    }
}

/// What a matrix and its transposed put into a place beside and below a block of `shift`
/// rows and columns.
proof fn lemma_mirrored_placed(e: Exact, a: Csc, shift: int, i: int, j: int)
    requires
        a.wf(),
        shift == a.nrows,
        a.nrows + a.ncols <= u32::MAX,
        0 <= i < a.nrows + a.ncols,
        0 <= j < a.nrows + a.ncols,
    ensures
        placed(e, mirrored(a, shift), i, j) == if i < shift && j >= shift {
            entry(e, a, i, j - shift)
        } else if i >= shift && j < shift {
            entry(e, a, j, i - shift)
        } else {
            0
        },
{
    let t = mirrored(a, shift);
    let n = a.nnz() as int;
    let f = |l: int| placed_term(e, t, i, j, l);
    lemma_total_pairs(f, n);
    let pair = |l: int| f(2 * l) + f(2 * l + 1);
    let upper = |l: int| entry_term(e, a, i, j - shift, l);
    let lower = |l: int| entry_term(e, a, j, i - shift, l);
    assert forall|l: int| 0 <= l < n implies #[trigger] pair(l) == if i < shift && j >= shift {
        upper(l)
    } else if i >= shift && j < shift {
        lower(l)
    } else {
        0
    } by {
        lemma_has_column(a, l);
        assert(a.rows[l] < a.nrows);
        assert((2 * l) / 2 == l && (2 * l) % 2 == 0 && (2 * l + 1) / 2 == l && (2 * l + 1) % 2
            == 1);
        let row = a.rows[l];
        let col = (shift + a.column_of(l)) as u32;
        assert(t[2 * l] == (row, col, a.values[l]));
        assert(t[2 * l + 1] == (col, row, a.values[l]));
    }
    if i < shift && j >= shift {
        lemma_total_equal(pair, upper, n);
    } else if i >= shift && j < shift {
        lemma_total_equal(pair, lower, n);
    } else {
        lemma_total_zero(pair, n);
    }
}

/// The saddle matrix is `[I, M; M', -w I]`.
proof fn lemma_saddle_entry<A: Arithmetic>(e: Exact, ar: A, m: Csc, w: Real, i: int, j: int)
    requires
        e.computes(ar),
        m.wf(),
        m.nrows + m.ncols <= u32::MAX,
        saddle_matrix(ar, m, w).wf(),
        0 <= i < m.nrows + m.ncols,
        0 <= j < m.nrows + m.ncols,
    ensures
        e.same(
            entry(e, saddle_matrix(ar, m, w), i, j),
            if i < m.nrows && j < m.nrows {
                if i == j {
                    1
                } else {
                    0
                }
            } else if i < m.nrows {
                entry(e, m, i, j - m.nrows)
            } else if j < m.nrows {
                entry(e, m, j, i - m.nrows)
            } else if i == j {
                -e.of(w)
            } else {
                0
            },
        ),
{
    let shift = m.nrows as int;
    let total = m.nrows + m.ncols;
    let one = diagonal(m.nrows, Real { bits: ONE });
    let mid = mirrored(m, shift);
    let low = diagonal_from(shift, m.ncols, w.negated());
    assembling_adds_up(e, ar, total, total, saddle_terms(m, w), i, j);
    lemma_placed_joined(e, one + mid, low, i, j);
    lemma_placed_joined(e, one, mid, i, j);
    lemma_diagonal_placed(e, one, 0, Real { bits: ONE }, i, j);
    lemma_diagonal_placed(e, low, shift, w.negated(), i, j);
    lemma_mirrored_placed(e, m, shift, i, j);
    lemma_constants(e, ar);
    lemma_negated(e, ar, w);
    let k = entry(e, saddle_matrix(ar, m, w), i, j);
    if i == j && i < shift {
        lemma_same_trans(e, k, e.of(Real { bits: ONE }), 1);
    } else if i == j {
        lemma_same_trans(e, k, e.of(w.negated()), -e.of(w));
    }
}

/// The rows of the saddle matrix times a vector of two parts: `r + M x` above, and
/// `M' r - w x` below.
proof fn lemma_saddle_rows<A: Arithmetic>(
    e: Exact,
    ar: A,
    m: Csc,
    w: Real,
    z: Seq<Real>,
    i: int,
)
    requires
        e.computes(ar),
        m.wf(),
        m.nrows + m.ncols <= u32::MAX,
        saddle_matrix(ar, m, w).wf(),
        z.len() == m.nrows + m.ncols,
        0 <= i < m.nrows + m.ncols,
    ensures
        ({
            let r = z.subrange(0, m.nrows as int);
            let x = z.subrange(m.nrows as int, z.len() as int);
            e.same(
                row_times(e, saddle_matrix(ar, m, w), i, z),
                if i < m.nrows {
                    e.of(r[i]) + row_times(e, m, i, x)
                } else {
                    column_times(e, m, i - m.nrows, r) - e.of(w) * e.of(x[i - m.nrows])
                },
            )
        }),
{
    let k = saddle_matrix(ar, m, w);
    let (a, b) = (m.nrows as int, m.ncols as int);
    let r = z.subrange(0, a);
    let x = z.subrange(a, z.len() as int);
    let f = |j: int| entry(e, k, i, j) * e.of(z[j]);
    lemma_total_split(f, a, b);
    let after = |j: int| f(a + j);
    if i < a {
        let top = |j: int|
            if j == i {
                e.of(r[j])
            } else {
                0
            };
        assert forall|j: int| 0 <= j < a implies e.same(#[trigger] f(j), top(j)) by {
            lemma_saddle_entry(e, ar, m, w, i, j);
            let (c, y) = (entry(e, k, i, j), e.of(z[j]));
            if i == j {
                lemma_nil_times(e, y, c - 1);
                assert(y * (c - 1) == c * y - y) by (nonlinear_arith);
            } else {
                lemma_nil_times(e, y, c - 0);
                assert(y * (c - 0) == c * y) by (nonlinear_arith);
            }
        }
        lemma_total_same(e, f, top, a);
        lemma_total_single(top, a, i);
        let rest = |j: int| entry(e, m, i, j) * e.of(x[j]);
        assert forall|j: int| 0 <= j < b implies e.same(#[trigger] after(j), rest(j)) by {
            lemma_saddle_entry(e, ar, m, w, i, a + j);
            let (c, d, y) = (entry(e, k, i, a + j), entry(e, m, i, j), e.of(x[j]));
            lemma_nil_times(e, y, c - d);
            assert(y * (c - d) == c * y - d * y) by (nonlinear_arith);
        }
        lemma_total_same(e, after, rest, b);
        lemma_nil_sum(e, total_of(f, a) - e.of(r[i]), total_of(after, b) - total_of(rest, b));
    } else {
        let top = |j: int| entry(e, m, j, i - a) * e.of(r[j]);
        assert forall|j: int| 0 <= j < a implies e.same(#[trigger] f(j), top(j)) by {
            lemma_saddle_entry(e, ar, m, w, i, j);
            let (c, d, y) = (entry(e, k, i, j), entry(e, m, j, i - a), e.of(z[j]));
            lemma_nil_times(e, y, c - d);
            assert(y * (c - d) == c * y - d * y) by (nonlinear_arith);
        }
        lemma_total_same(e, f, top, a);
        let rest = |j: int|
            if j == i - a {
                -(e.of(w) * e.of(x[j]))
            } else {
                0
            };
        assert forall|j: int| 0 <= j < b implies e.same(#[trigger] after(j), rest(j)) by {
            lemma_saddle_entry(e, ar, m, w, i, a + j);
            let (c, d, y) = (entry(e, k, i, a + j), e.of(w), e.of(x[j]));
            if j == i - a {
                lemma_nil_times(e, y, c - (-d));
                assert(y * (c - (-d)) == c * y - (-(d * y))) by (nonlinear_arith);
            } else {
                lemma_nil_times(e, y, c - 0);
                assert(y * (c - 0) == c * y) by (nonlinear_arith);
            }
        }
        lemma_total_same(e, after, rest, b);
        lemma_total_single(rest, b, i - a);
        lemma_nil_sum(e, total_of(f, a) - total_of(top, a), total_of(after, b) - rest(i - a));
    }
}

/// Whatever solves the saddle system solves the least-squares problem: where the matrix and
/// the right-hand side that are handed to the solver are matched, the part that is handed
/// back has a vanishing gradient `M' (M x - p) + w x`.
pub proof fn saddle_solutions_are_optimal<A: Arithmetic>(
    e: Exact,
    ar: A,
    m: Csc,
    p: Seq<Real>,
    w: Real,
    z: Seq<Real>,
    k: int,
)
    requires
        e.computes(ar),
        m.wf(),
        m.nrows + m.ncols <= u32::MAX,
        saddle_matrix(ar, m, w).wf(),
        p.len() == m.nrows,
        z.len() == m.nrows + m.ncols,
        0 <= k < m.ncols,
        forall|i: int|
            0 <= i < z.len() ==> e.same(
                #[trigger] row_times(e, saddle_matrix(ar, m, w), i, z),
                e.of(extended(p, m.ncols)[i]),
            ),
    ensures
        e.nil(
            normal_residual(
                e,
                m,
                p,
                e.of(w),
                z.subrange(m.nrows as int, (m.nrows + m.ncols) as int),
                k,
            ),
        ),
{
    let (a, b) = (m.nrows as int, m.ncols as int);
    let r = z.subrange(0, a);
    let x = z.subrange(a, a + b);
    let mat = saddle_matrix(ar, m, w);
    lemma_constants(e, ar);
    let f = |i: int| -(row_times(e, m, i, x) - e.of(p[i]));
    assert forall|i: int| 0 <= i < a implies e.same(#[trigger] e.of(r[i]), f(i)) by {
        assert(e.same(row_times(e, mat, i, z), e.of(extended(p, m.ncols)[i])));
        lemma_saddle_rows(e, ar, m, w, z, i);
        let (s, t, u, v) = (
            row_times(e, mat, i, z),
            e.of(r[i]),
            row_times(e, m, i, x),
            e.of(p[i]),
        );
        lemma_combine(e, t - (-(u - v)), -1, s - (t + u), 1, s - v);
    }
    lemma_column_times(e, m, k, r, f);
    let plain = |i: int| entry(e, m, i, k) * (row_times(e, m, i, x) - e.of(p[i]));
    let named = |i: int| entry(e, m, i, k) * f(i);
    let opposite = |i: int| (-1) * plain(i) + 0 * plain(i);
    assert forall|i: int| 0 <= i < a implies #[trigger] named(i) == opposite(i) by {
        let (c, d) = (entry(e, m, i, k), row_times(e, m, i, x) - e.of(p[i]));
        assert(c * (-d) == (-1) * (c * d) + 0 * (c * d)) by (nonlinear_arith);
    }
    lemma_total_equal(named, opposite, a);
    lemma_total_linear(plain, plain, -1, 0, a);
    let t = total_of(plain, a);
    assert(0 * t == 0) by (nonlinear_arith);
    lemma_saddle_rows(e, ar, m, w, z, a + k);
    assert(e.same(row_times(e, mat, a + k, z), e.of(extended(p, m.ncols)[a + k])));
    let zero = e.of(Real { bits: ZERO });
    assert(extended(p, m.ncols)[a + k] == (Real { bits: ZERO }));
    let (s, c, q) = (row_times(e, mat, a + k, z), column_times(e, m, k, r), e.of(w) * e.of(x[k]));
    lemma_same_trans(e, s, zero, 0);
    lemma_combine3(e, t + q, 1, c - (-t), -1, s - 0, 1, s - (c - q));
}

} // verus!
