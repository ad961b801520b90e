//! What the iteration of LSQR keeps.

use crate::arithmetic::{hypotenuse_of, product_of, quotient_of, Arithmetic};
use crate::double::{Real, ONE, ZERO};
use crate::entries::{
    columns_are_multiplied_and_added, entry, lemma_applied_length, rows_are_multiplied_and_added,
};
use crate::exact::{
    lemma_cancel, lemma_combine, lemma_combine3, lemma_combine4, lemma_constants,
    lemma_difference_product, lemma_negated, lemma_nil_sum, lemma_nil_times, lemma_nil_zero,
    lemma_product, lemma_quotient, lemma_same_sym, lemma_same_trans, lemma_sum_product,
    lemma_total_equal, lemma_total_linear, lemma_total_same, total_of, Exact,
};
use crate::lsqr::{
    left_raw, lsqr_start, lsqr_step, lsqr_upto, normalized, operator, right_raw, Bidiagonal,
    LsqrTolerances,
};
use crate::sparse::{lemma_transposed_wf, Csc};
use crate::turning::{lemma_group, lemma_regroup, lemma_spread, lemma_swap_factors};
use crate::vector::{divided, norm_of, scaled};
use vstd::prelude::*;

verus! {

/// The numbers of rows and columns of a matrix, or of its transposed.
pub open spec fn sides(a: Csc, transposed: bool) -> (nat, nat) {
    if transposed {
        (a.ncols, a.nrows)
    } else {
        (a.nrows, a.ncols)
    }
}

/// The number in row `i` and column `j` of a matrix, or of its transposed.
pub open spec fn side_entry(e: Exact, a: Csc, transposed: bool, i: int, j: int) -> int {
    if transposed {
        entry(e, a, j, i)
    } else {
        entry(e, a, i, j)
    }
}

/// Row `i` of the matrix, or of its transposed, times a list of numbers.
pub open spec fn image(e: Exact, a: Csc, transposed: bool, x: spec_fn(int) -> int, i: int) -> int {
    total_of(
        |j: int| side_entry(e, a, transposed, i, j) * x(j),
        sides(a, transposed).1 as int,
    )
}

/// Column `j` of the matrix, or of its transposed, times a list of numbers.
pub open spec fn backward(e: Exact, a: Csc, transposed: bool, z: spec_fn(int) -> int, j: int) -> int {
    image(e, a, !transposed, z, j)
}

/// What the entries of a vector stand for.
pub open spec fn values_of(e: Exact, x: Seq<Real>) -> spec_fn(int) -> int {
    |i: int| e.of(x[i])
}

pub(crate) proof fn lemma_operator<A: Arithmetic>(
    e: Exact,
    ar: A,
    a: Csc,
    transposed: bool,
    x: Seq<Real>,
    i: int,
)
    requires
        e.computes(ar),
        a.wf(),
        a.ncols <= u32::MAX,
        0 <= i < sides(a, transposed).0,
    ensures
        operator(ar, a, transposed, x).len() == sides(a, transposed).0,
        e.same(
            e.of(operator(ar, a, transposed, x)[i]),
            image(e, a, transposed, values_of(e, x), i),
        ),
{
    let f = |j: int| side_entry(e, a, transposed, i, j) * values_of(e, x)(j);
    if transposed {
        lemma_transposed_wf(a);
        lemma_applied_length(ar, a.transposed(), x);
        columns_are_multiplied_and_added(e, ar, a, x, i);
        let g = |j: int| entry(e, a, j, i) * e.of(x[j]);
        lemma_total_equal(f, g, a.nrows as int);
    } else {
        lemma_applied_length(ar, a, x);
        rows_are_multiplied_and_added(e, ar, a, x, i);
        let g = |j: int| entry(e, a, i, j) * e.of(x[j]);
        lemma_total_equal(f, g, a.ncols as int);
    }
}

/// Images are linear.
pub(crate) proof fn lemma_image(
    e: Exact,
    a: Csc,
    transposed: bool,
    z: spec_fn(int) -> int,
    x: spec_fn(int) -> int,
    y: spec_fn(int) -> int,
    s: int,
    t: int,
    i: int,
)
    requires
        forall|j: int|
            0 <= j < sides(a, transposed).1 ==> e.same(#[trigger] z(j), s * x(j) + t * y(j)),
    ensures
        e.same(
            image(e, a, transposed, z, i),
            s * image(e, a, transposed, x, i) + t * image(e, a, transposed, y, i),
        ),
{
    let n = sides(a, transposed).1 as int;
    let f = |j: int| side_entry(e, a, transposed, i, j) * z(j);
    let g = |j: int| side_entry(e, a, transposed, i, j) * x(j);
    let h = |j: int| side_entry(e, a, transposed, i, j) * y(j);
    let both = |j: int| s * g(j) + t * h(j);
    assert forall|j: int| 0 <= j < n implies e.same(#[trigger] f(j), both(j)) by {
        assert(e.same(z(j), s * x(j) + t * y(j)));
        let (m, p, q, r) = (side_entry(e, a, transposed, i, j), z(j), x(j), y(j));
        lemma_nil_times(e, m, p - (s * q + t * r));
        assert(m * (p - (s * q + t * r)) == m * p - (s * (m * q) + t * (m * r)))
            by (nonlinear_arith);
    }
    lemma_total_same(e, f, both, n);
    lemma_total_linear(g, h, s, t, n);
}

/// What LSQR keeps from step to step.  Where `z` is a list of numbers, the residual
/// `b - M x` is `phibar z`, the image of the search direction is `rhobar z` and what is left
/// of the image of `v`, and the image of `z` under the transposed matrix is `rhobar v`.
pub open spec fn follows(
    e: Exact,
    a: Csc,
    transposed: bool,
    rhs: Seq<Real>,
    s: Bidiagonal,
    z: spec_fn(int) -> int,
) -> bool {
    let (rows, cols) = sides(a, transposed);
    &&& s.u.len() == rows
    &&& s.v.len() == cols
    &&& s.w.len() == cols
    &&& s.x.len() == cols
    &&& forall|i: int|
        0 <= i < rows ==> e.same(
            e.of(rhs[i]) - #[trigger] image(e, a, transposed, values_of(e, s.x), i),
            e.of(s.phibar) * z(i),
        )
    &&& forall|i: int|
        0 <= i < rows ==> e.same(
            #[trigger] image(e, a, transposed, values_of(e, s.w), i),
            e.of(s.rhobar) * z(i) + (image(e, a, transposed, values_of(e, s.v), i) - e.of(s.alpha)
                * e.of(s.u[i])),
        )
    &&& forall|j: int|
        0 <= j < cols ==> e.same(
            #[trigger] backward(e, a, transposed, z, j),
            e.of(s.rhobar) * e.of(s.v[j]),
        )
}

/// Whether the lengths and the hypotenuse of a step are exact and can be divided by.
pub open spec fn exact_step<A: Arithmetic>(
    e: Exact,
    ar: A,
    a: Csc,
    transposed: bool,
    s: Bidiagonal,
) -> bool {
    let left = left_raw(ar, s, operator(ar, a, transposed, s.v));
    let beta = norm_of(ar, left);
    let u = normalized(ar, left, beta);
    let right = right_raw(ar, s, operator(ar, a, !transposed, u), beta);
    let alpha = norm_of(ar, right);
    let rho = hypotenuse_of(ar, s.rhobar, beta);
    &&& (Real { bits: ZERO }).below(beta)
    &&& e.unit(e.of(beta))
    &&& (Real { bits: ZERO }).below(alpha)
    &&& e.unit(e.of(alpha))
    &&& !rho.level(Real { bits: ZERO })
    &&& e.unit(e.of(rho))
    &&& e.same(
        e.of(rho) * e.of(rho),
        e.of(s.rhobar) * e.of(s.rhobar) + e.of(beta) * e.of(beta),
    )
}

/// `f` times what a vector over `f` holds is what the vector holds.
proof fn lemma_over<A: Arithmetic>(e: Exact, ar: A, v: Seq<Real>, f: Real, i: int)
    requires
        e.computes(ar),
        e.unit(e.of(f)),
        0 <= i < v.len(),
    ensures
        e.same(
            e.of(f) * e.of(scaled(ar, v, quotient_of(ar, Real { bits: ONE }, f))[i]),
            e.of(v[i]),
        ),
{
    let one = Real { bits: ONE };
    let g = quotient_of(ar, one, f);
    lemma_constants(e, ar);
    lemma_quotient(e, ar, one, f);
    lemma_product(e, ar, v[i], g);
    let (n, x, y, q, o) = (e.of(scaled(ar, v, g)[i]), e.of(v[i]), e.of(f), e.of(g), e.of(one));
    assert(y * n - x == y * (n - x * q) + x * (q * y - o) + x * (o - 1)) by (nonlinear_arith);
    lemma_combine3(e, y * n - x, y, n - x * q, x, q * y - o, x, o - 1);
}

proof fn lemma_normalized<A: Arithmetic>(e: Exact, ar: A, v: Seq<Real>, f: Real, i: int)
    requires
        e.computes(ar),
        (Real { bits: ZERO }).below(f),
        e.unit(e.of(f)),
        0 <= i < v.len(),
    ensures
        normalized(ar, v, f).len() == v.len(),
        e.same(e.of(f) * e.of(normalized(ar, v, f)[i]), e.of(v[i])),
{
    lemma_over(e, ar, v, f, i);
}

proof fn lemma_left<A: Arithmetic>(e: Exact, ar: A, s: Bidiagonal, y: Seq<Real>, i: int)
    requires
        e.computes(ar),
        0 <= i < y.len(),
    ensures
        left_raw(ar, s, y).len() == y.len(),
        e.same(e.of(left_raw(ar, s, y)[i]), e.of(y[i]) - e.of(s.alpha) * e.of(s.u[i])),
{
    lemma_sum_product(e, ar, y[i], s.alpha.negated(), s.u[i]);
    lemma_negated(e, ar, s.alpha);
    let (l, a, b, m, u) = (
        e.of(left_raw(ar, s, y)[i]),
        e.of(y[i]),
        e.of(s.alpha),
        e.of(s.alpha.negated()),
        e.of(s.u[i]),
    );
    assert(l - (a - b * u) == 1 * (l - (a + m * u)) + u * (m - (-b))) by (nonlinear_arith);
    lemma_combine(e, l - (a - b * u), 1, l - (a + m * u), u, m - (-b));
}

proof fn lemma_right<A: Arithmetic>(
    e: Exact,
    ar: A,
    s: Bidiagonal,
    y: Seq<Real>,
    beta: Real,
    i: int,
)
    requires
        e.computes(ar),
        0 <= i < y.len(),
    ensures
        right_raw(ar, s, y, beta).len() == y.len(),
        e.same(e.of(right_raw(ar, s, y, beta)[i]), e.of(y[i]) - e.of(beta) * e.of(s.v[i])),
{
    lemma_sum_product(e, ar, y[i], beta.negated(), s.v[i]);
    lemma_negated(e, ar, beta);
    let (l, a, b, m, u) = (
        e.of(right_raw(ar, s, y, beta)[i]),
        e.of(y[i]),
        e.of(beta),
        e.of(beta.negated()),
        e.of(s.v[i]),
    );
    assert(l - (a - b * u) == 1 * (l - (a + m * u)) + u * (m - (-b))) by (nonlinear_arith);
    lemma_combine(e, l - (a - b * u), 1, l - (a + m * u), u, m - (-b));
}

/// `d z - c u`, the numbers that follow `z`.
spec fn turned_list(e: Exact, c: int, d: int, z: spec_fn(int) -> int, u: Seq<Real>) -> spec_fn(
    int,
) -> int {
    |i: int| d * z(i) - c * e.of(u[i])
}

proof fn lemma_step_follows<A: Arithmetic>(
    e: Exact,
    ar: A,
    a: Csc,
    transposed: bool,
    rhs: Seq<Real>,
    s: Bidiagonal,
    z: spec_fn(int) -> int,
    tol: LsqrTolerances,
    performed: nat,
) -> (next: spec_fn(int) -> int)
    requires
        e.computes(ar),
        a.wf(),
        a.nrows <= u32::MAX,
        a.ncols <= u32::MAX,
        follows(e, a, transposed, rhs, s, z),
        exact_step(e, ar, a, transposed, s),
    ensures
        follows(
            e,
            a,
            transposed,
            rhs,
            lsqr_step(ar, a, transposed, s, tol, performed).state,
            next,
        ),
{
    let (rows, cols) = sides(a, transposed);
    let av = operator(ar, a, transposed, s.v);
    let left = left_raw(ar, s, av);
    let beta = norm_of(ar, left);
    let u = normalized(ar, left, beta);
    let atu = operator(ar, a, !transposed, u);
    let right = right_raw(ar, s, atu, beta);
    let alpha = norm_of(ar, right);
    let v = normalized(ar, right, alpha);
    let t = lsqr_step(ar, a, transposed, s, tol, performed).state;
    let rho_r = hypotenuse_of(ar, s.rhobar, beta);
    let c_r = quotient_of(ar, s.rhobar, rho_r);
    let d_r = quotient_of(ar, beta, rho_r);
    let theta_r = product_of(ar, d_r, alpha);
    let phi_r = product_of(ar, c_r, s.phibar);
    let q_r = quotient_of(ar, phi_r, rho_r);
    let slope_r = quotient_of(ar, theta_r, rho_r);
    let (rho, c, d, al, be) = (e.of(rho_r), e.of(c_r), e.of(d_r), e.of(alpha), e.of(beta));
    let (q, sl, rb, pb) = (e.of(q_r), e.of(slope_r), e.of(s.rhobar), e.of(s.phibar));
    lemma_quotient(e, ar, s.rhobar, rho_r);
    lemma_quotient(e, ar, beta, rho_r);
    lemma_product(e, ar, d_r, alpha);
    lemma_product(e, ar, c_r, s.phibar);
    lemma_quotient(e, ar, phi_r, rho_r);
    lemma_quotient(e, ar, theta_r, rho_r);
    lemma_product(e, ar, s.phibar, d_r);
    lemma_product(e, ar, c_r.negated(), alpha);
    lemma_negated(e, ar, c_r);
    lemma_nil_zero(e);
    // q rho = c phibar, slope rho = d alpha, phibar' = phibar d, rhobar' = - c alpha
    lemma_same_trans(e, q * rho, e.of(phi_r), c * pb);
    lemma_same_trans(e, sl * rho, e.of(theta_r), d * al);
    lemma_swap_factors(e, e.of(c_r.negated()), -c, al, al);
    lemma_same_trans(e, e.of(t.rhobar), e.of(c_r.negated()) * al, (-c) * al);
    lemma_one(e, rho, rb, be, c, d);
    let next = turned_list(e, c, d, z, u);
    if rows > 0 {
        lemma_operator(e, ar, a, transposed, s.v, 0);
        lemma_left(e, ar, s, av, 0);
        lemma_normalized(e, ar, left, beta, 0);
    } else {
        lemma_operator_len(e, ar, a, transposed, s.v);
    }
    lemma_operator_len(e, ar, a, transposed, s.v);
    lemma_operator_len(e, ar, a, !transposed, u);
    assert(left.len() == rows && u.len() == rows);
    assert(right.len() == cols && v.len() == cols);
    assert forall|i: int| 0 <= i < rows implies e.same(
        #[trigger] image(e, a, transposed, values_of(e, s.v), i) - e.of(s.alpha) * e.of(s.u[i]),
        be * e.of(u[i]),
    ) by {
        lemma_operator(e, ar, a, transposed, s.v, i);
        lemma_left(e, ar, s, av, i);
        lemma_normalized(e, ar, left, beta, i);
        let (x, y, l, n) = (
            image(e, a, transposed, values_of(e, s.v), i),
            e.of(s.alpha) * e.of(s.u[i]),
            e.of(left[i]),
            be * e.of(u[i]),
        );
        lemma_combine3(
            e,
            (x - y) - n,
            -1,
            e.of(av[i]) - x,
            -1,
            l - (e.of(av[i]) - y),
            -1,
            n - l,
        );
    }
    // the image of the search direction is rho (c z + d u)
    assert forall|i: int| 0 <= i < rows implies e.same(
        #[trigger] image(e, a, transposed, values_of(e, s.w), i),
        rho * (c * z(i) + d * e.of(u[i])),
    ) by {
        let (x, y) = (
            image(e, a, transposed, values_of(e, s.w), i),
            image(e, a, transposed, values_of(e, s.v), i) - e.of(s.alpha) * e.of(s.u[i]),
        );
        assert(e.same(x, rb * z(i) + y));
        let (zi, ui) = (z(i), e.of(u[i]));
        lemma_spread(rho, c * zi, d * ui);
        lemma_group(rho, c, zi);
        lemma_group(rho, d, ui);
        lemma_spread(zi, c * rho, rb);
        lemma_spread(ui, d * rho, be);
        lemma_spread(zi, c * rho - rb, 0);
        lemma_spread(ui, d * rho - be, 0);
        lemma_group(zi, c * rho, 0);
        lemma_group(zi, rb, 0);
        lemma_group(ui, d * rho, 0);
        lemma_group(ui, be, 0);
        lemma_group(rho, c, 0);
        lemma_group(rho, d, 0);
        lemma_combine4(
            e,
            x - rho * (c * zi + d * ui),
            1,
            x - (rb * zi + y),
            1,
            y - be * ui,
            -zi,
            c * rho - rb,
            -ui,
            d * rho - be,
        );
    }
    assert forall|i: int| 0 <= i < rows implies e.same(
        e.of(rhs[i]) - #[trigger] image(e, a, transposed, values_of(e, t.x), i),
        e.of(t.phibar) * next(i),
    ) by {
        assert forall|j: int| 0 <= j < cols implies e.same(
            #[trigger] values_of(e, t.x)(j),
            1 * values_of(e, s.x)(j) + q * values_of(e, s.w)(j),
        ) by {
            lemma_sum_product(e, ar, s.x[j], q_r, s.w[j]);
        }
        lemma_image(
            e,
            a,
            transposed,
            values_of(e, t.x),
            values_of(e, s.x),
            values_of(e, s.w),
            1,
            q,
            i,
        );
        let (x0, x1, w0, zi, ui) = (
            image(e, a, transposed, values_of(e, s.x), i),
            image(e, a, transposed, values_of(e, t.x), i),
            image(e, a, transposed, values_of(e, s.w), i),
            z(i),
            e.of(u[i]),
        );
        assert(e.same(w0, rho * (c * zi + d * ui)));
        assert(e.same(e.of(rhs[i]) - x0, pb * zi));
        lemma_residual(
            e,
            e.of(rhs[i]),
            x0,
            x1,
            w0,
            q,
            rho,
            c,
            d,
            pb,
            zi,
            ui,
            e.of(t.phibar),
        );
    }
    assert forall|i: int| 0 <= i < rows implies e.same(
        #[trigger] image(e, a, transposed, values_of(e, t.w), i),
        e.of(t.rhobar) * next(i) + (image(e, a, transposed, values_of(e, t.v), i) - e.of(t.alpha)
            * e.of(t.u[i])),
    ) by {
        assert forall|j: int| 0 <= j < cols implies e.same(
            #[trigger] values_of(e, t.w)(j),
            1 * values_of(e, t.v)(j) + (-sl) * values_of(e, s.w)(j),
        ) by {
            lemma_difference_product(e, ar, v[j], slope_r, s.w[j]);
            let (m, n) = (sl, e.of(s.w[j]));
            assert((-m) * n == -(m * n)) by (nonlinear_arith);
        }
        lemma_image(
            e,
            a,
            transposed,
            values_of(e, t.w),
            values_of(e, t.v),
            values_of(e, s.w),
            1,
            -sl,
            i,
        );
        let (v1, w1, w0, zi, ui) = (
            image(e, a, transposed, values_of(e, t.v), i),
            image(e, a, transposed, values_of(e, t.w), i),
            image(e, a, transposed, values_of(e, s.w), i),
            z(i),
            e.of(u[i]),
        );
        assert(e.same(w0, rho * (c * zi + d * ui)));
        lemma_direction(e, v1, w1, w0, sl, rho, c, d, al, zi, ui, e.of(t.rhobar));
    }
    assert forall|j: int| 0 <= j < cols implies e.same(
        #[trigger] backward(e, a, transposed, next, j),
        e.of(t.rhobar) * e.of(t.v[j]),
    ) by {
        let us = values_of(e, u);
        assert forall|i: int| 0 <= i < sides(a, !transposed).1 implies e.same(
            #[trigger] next(i),
            d * z(i) + (-c) * us(i),
        ) by {
            let (m, n) = (c, e.of(u[i]));
            assert((-m) * n == -(m * n)) by (nonlinear_arith);
        }
        lemma_image(e, a, !transposed, next, z, us, d, -c, j);
        assert(e.same(backward(e, a, transposed, z, j), rb * e.of(s.v[j])));
        lemma_operator(e, ar, a, !transposed, u, j);
        lemma_right(e, ar, s, atu, beta, j);
        lemma_normalized(e, ar, right, alpha, j);
        let (n1, z1, u1, v0, v1) = (
            image(e, a, !transposed, next, j),
            image(e, a, !transposed, z, j),
            image(e, a, !transposed, us, j),
            e.of(s.v[j]),
            e.of(v[j]),
        );
        let r1 = e.of(right[j]);
        // u1 = al v1 + be v0
        lemma_combine3(
            e,
            u1 - (al * v1 + be * v0),
            -1,
            e.of(atu[j]) - u1,
            -1,
            r1 - (e.of(atu[j]) - be * v0),
            -1,
            al * v1 - r1,
        );
        lemma_transposed_image(e, n1, z1, u1, v0, v1, rho, c, d, al, be, rb, e.of(t.rhobar));
    }
    next
}

proof fn lemma_operator_len<A: Arithmetic>(
    e: Exact,
    ar: A,
    a: Csc,
    transposed: bool,
    x: Seq<Real>,
)
    requires
        a.wf(),
    ensures
        operator(ar, a, transposed, x).len() == sides(a, transposed).0,
{
    if transposed {
        lemma_transposed_wf(a);
        lemma_applied_length(ar, a.transposed(), x);
    } else {
        lemma_applied_length(ar, a, x);
    }
}

/// The cosine and the sine of a rotation.
proof fn lemma_one(e: Exact, rho: int, rb: int, be: int, c: int, d: int)
    requires
        e.unit(rho),
        e.same(rho * rho, rb * rb + be * be),
        e.same(c * rho, rb),
        e.same(d * rho, be),
    ensures
        e.same(c * c + d * d, 1),
{
    lemma_swap_factors(e, c * rho, rb, c * rho, rb);
    lemma_swap_factors(e, d * rho, be, d * rho, be);
    let goal = c * c + d * d - 1;
    assert((c * rho) * (c * rho) == rho * (rho * (c * c))) by (nonlinear_arith);
    assert((d * rho) * (d * rho) == rho * (rho * (d * d))) by (nonlinear_arith);
    assert(rho * (rho * goal) == rho * (rho * (c * c)) + rho * (rho * (d * d)) - rho * rho)
        by (nonlinear_arith)
        requires
            goal == c * c + d * d - 1,
    ;
    lemma_combine3(
        e,
        rho * (rho * goal),
        1,
        (c * rho) * (c * rho) - rb * rb,
        1,
        (d * rho) * (d * rho) - be * be,
        -1,
        rho * rho - (rb * rb + be * be),
    );
    lemma_cancel(e, rho, rho * goal);
    lemma_cancel(e, rho, goal);
}

proof fn lemma_residual(
    e: Exact,
    b: int,
    x0: int,
    x1: int,
    w0: int,
    q: int,
    rho: int,
    c: int,
    d: int,
    pb: int,
    z: int,
    u: int,
    next_pb: int,
)
    requires
        e.same(x1, 1 * x0 + q * w0),
        e.same(w0, rho * (c * z + d * u)),
        e.same(b - x0, pb * z),
        e.same(q * rho, c * pb),
        e.same(c * c + d * d, 1),
        e.same(next_pb, pb * d),
    ensures
        e.same(b - x1, next_pb * (d * z - c * u)),
{
    lemma_nil_zero(e);
    let k = c * z + d * u;
    let m = d * z - c * u;
    lemma_swap_factors(e, q, q, w0, rho * k);
    lemma_swap_factors(e, q * rho, c * pb, k, k);
    assert(q * (rho * k) == (q * rho) * k) by (nonlinear_arith);
    lemma_same_trans(e, q * w0, (q * rho) * k, (c * pb) * k);
    lemma_swap_factors(e, next_pb, pb * d, m, m);
    // pb z - c pb k = pb d m + pb z (1 - cc - dd)
    lemma_nil_times(e, pb * z, c * c + d * d - 1);
    assert((c * pb) * (c * z + d * u) == (pb * z) * (c * c) + (pb * c) * (d * u))
        by (nonlinear_arith);
    lemma_spread(pb * d, d * z, c * u);
    lemma_regroup(pb, d, z, d);
    lemma_regroup(pb, d, c, u);
    lemma_group(z, d, d);
    assert((pb * d) * (d * z - c * u) == (pb * z) * (d * d) - (pb * c) * (d * u));
    assert((pb * z) * (c * c + d * d - 1) == (pb * z) * (c * c) + (pb * z) * (d * d) - pb * z)
        by (nonlinear_arith);
    lemma_combine4(
        e,
        (b - x1) - (pb * d) * m,
        -1,
        x1 - (1 * x0 + q * w0),
        -1,
        q * w0 - (c * pb) * k,
        1,
        (b - x0) - pb * z,
        -1,
        (pb * z) * (c * c + d * d - 1),
    );
    lemma_nil_sum(e, (b - x1) - (pb * d) * m, next_pb * m - (pb * d) * m);
}

proof fn lemma_direction(
    e: Exact,
    v1: int,
    w1: int,
    w0: int,
    sl: int,
    rho: int,
    c: int,
    d: int,
    al: int,
    z: int,
    u: int,
    next_rb: int,
)
    requires
        e.same(w1, 1 * v1 + (-sl) * w0),
        e.same(w0, rho * (c * z + d * u)),
        e.same(sl * rho, d * al),
        e.same(c * c + d * d, 1),
        e.same(next_rb, (-c) * al),
    ensures
        e.same(w1, next_rb * (d * z - c * u) + (v1 - al * u)),
{
    lemma_nil_zero(e);
    let k = c * z + d * u;
    let m = d * z - c * u;
    lemma_swap_factors(e, sl, sl, w0, rho * k);
    lemma_swap_factors(e, sl * rho, d * al, k, k);
    assert(sl * (rho * k) == (sl * rho) * k) by (nonlinear_arith);
    lemma_same_trans(e, sl * w0, (sl * rho) * k, (d * al) * k);
    lemma_swap_factors(e, next_rb, (-c) * al, m, m);
    lemma_nil_times(e, al * u, c * c + d * d - 1);
    assert((-sl) * w0 == -(sl * w0)) by (nonlinear_arith);
    lemma_spread(d * al, c * z, d * u);
    lemma_group(al, d, d);
    lemma_regroup(al, d, c, z);
    lemma_regroup(al, d, u, d);
    lemma_group(u, d, d);
    assert((d * al) * (c * z + d * u) == (al * c) * (d * z) + (al * u) * (d * d));
    assert(((-c) * al) * (d * z - c * u) == -((al * c) * (d * z)) + (al * u) * (c * c))
        by (nonlinear_arith);
    assert((al * u) * (c * c + d * d - 1) == (al * u) * (c * c) + (al * u) * (d * d) - al * u)
        by (nonlinear_arith);
    lemma_combine4(
        e,
        w1 - (next_rb * m + (v1 - al * u)),
        1,
        w1 - (1 * v1 + (-sl) * w0),
        -1,
        sl * w0 - (d * al) * k,
        -1,
        next_rb * m - ((-c) * al) * m,
        -1,
        (al * u) * (c * c + d * d - 1),
    );
}

proof fn lemma_transposed_image(
    e: Exact,
    n1: int,
    z1: int,
    u1: int,
    v0: int,
    v1: int,
    rho: int,
    c: int,
    d: int,
    al: int,
    be: int,
    rb: int,
    next_rb: int,
)
    requires
        e.same(n1, d * z1 + (-c) * u1),
        e.same(z1, rb * v0),
        e.same(u1, al * v1 + be * v0),
        e.same(c * rho, rb),
        e.same(d * rho, be),
        e.same(next_rb, (-c) * al),
    ensures
        e.same(n1, next_rb * v1),
{
    lemma_nil_zero(e);
    lemma_swap_factors(e, d, d, z1, rb * v0);
    lemma_swap_factors(e, c, c, u1, al * v1 + be * v0);
    lemma_swap_factors(e, next_rb, (-c) * al, v1, v1);
    assert((-c) * u1 == -(c * u1)) by (nonlinear_arith);
    // d rb = d c rho = c be
    lemma_swap_factors(e, d, d, c * rho, rb);
    lemma_swap_factors(e, c, c, d * rho, be);
    assert(d * (c * rho) == c * (d * rho)) by (nonlinear_arith);
    lemma_same_sym(e, d * (c * rho), d * rb);
    lemma_same_trans(e, d * rb, d * (c * rho), c * be);
    lemma_swap_factors(e, d * rb, c * be, v0, v0);
    assert(d * (rb * v0) == (d * rb) * v0) by (nonlinear_arith);
    assert(c * (al * v1 + be * v0) == (c * al) * v1 + (c * be) * v0) by (nonlinear_arith);
    assert(((-c) * al) * v1 == -((c * al) * v1)) by (nonlinear_arith);
    lemma_combine4(
        e,
        n1 - ((-c) * al) * v1,
        1,
        n1 - (d * z1 + (-c) * u1),
        1,
        d * z1 - d * (rb * v0),
        -1,
        c * u1 - c * (al * v1 + be * v0),
        1,
        (d * rb) * v0 - (c * be) * v0,
    );
    lemma_nil_sum(e, n1 - ((-c) * al) * v1, next_rb * v1 - ((-c) * al) * v1);
}

/// Whether all steps on the way are exact.
pub open spec fn steps_exactly<A: Arithmetic>(
    e: Exact,
    ar: A,
    a: Csc,
    transposed: bool,
    first: Bidiagonal,
    tol: LsqrTolerances,
    k: nat,
) -> bool {
    forall|j: nat|
        j < k ==> {
            let p = #[trigger] lsqr_upto(ar, a, transposed, first, tol, j);
            !p.stopped ==> exact_step(e, ar, a, transposed, p.state)
        }
}

/// LSQR follows the gradient of the least-squares problem: after however many steps,
/// `M' (b - M x)` is `phibar rhobar v`.
pub proof fn lsqr_follows_the_gradient<A: Arithmetic>(
    e: Exact,
    ar: A,
    a: Csc,
    transposed: bool,
    rhs: Seq<Real>,
    rhs_norm: Real,
    alpha: Real,
    tol: LsqrTolerances,
    k: nat,
    j: int,
)
    requires
        e.computes(ar),
        a.wf(),
        a.nrows <= u32::MAX,
        a.ncols <= u32::MAX,
        rhs.len() == sides(a, transposed).0,
        e.unit(e.of(rhs_norm)),
        e.unit(e.of(alpha)),
        0 <= j < sides(a, transposed).1,
        ({
            let u = divided(ar, rhs, rhs_norm);
            steps_exactly(
                e,
                ar,
                a,
                transposed,
                lsqr_start(ar, u, operator(ar, a, !transposed, u), rhs_norm, alpha),
                tol,
                k,
            )
        }),
    ensures
        ({
            let u = divided(ar, rhs, rhs_norm);
            let s = lsqr_upto(
                ar,
                a,
                transposed,
                lsqr_start(ar, u, operator(ar, a, !transposed, u), rhs_norm, alpha),
                tol,
                k,
            ).state;
            e.same(
                total_of(
                    |i: int|
                        side_entry(e, a, transposed, i, j) * (e.of(rhs[i]) - image(
                            e,
                            a,
                            transposed,
                            values_of(e, s.x),
                            i,
                        )),
                    rhs.len() as int,
                ),
                (e.of(s.phibar) * e.of(s.rhobar)) * e.of(s.v[j]),
            )
        }),
{
    let u = divided(ar, rhs, rhs_norm);
    let first = lsqr_start(ar, u, operator(ar, a, !transposed, u), rhs_norm, alpha);
    let z = lemma_follows(e, ar, a, transposed, rhs, rhs_norm, alpha, tol, k);
    let s = lsqr_upto(ar, a, transposed, first, tol, k).state;
    let n = rhs.len() as int;
    let f = |i: int|
        side_entry(e, a, transposed, i, j) * (e.of(rhs[i]) - image(
            e,
            a,
            transposed,
            values_of(e, s.x),
            i,
        ));
    let g = |i: int| side_entry(e, a, !transposed, j, i) * z(i);
    let p = e.of(s.phibar);
    let h = |i: int| p * g(i) + 0 * g(i);
    assert forall|i: int| 0 <= i < n implies e.same(#[trigger] f(i), h(i)) by {
        let (m, r, y) = (
            side_entry(e, a, transposed, i, j),
            e.of(rhs[i]) - image(e, a, transposed, values_of(e, s.x), i),
            z(i),
        );
        assert(e.same(r, p * y));
        lemma_nil_times(e, m, r - p * y);
        assert(m * (r - p * y) == m * r - (p * (m * y) + 0 * (m * y))) by (nonlinear_arith);
    }
    lemma_total_same(e, f, h, n);
    lemma_total_linear(g, g, p, 0, n);
    let t = total_of(g, n);
    assert(0 * t == 0) by (nonlinear_arith);
    assert(e.same(backward(e, a, transposed, z, j), e.of(s.rhobar) * e.of(s.v[j])));
    let (rb, v) = (e.of(s.rhobar), e.of(s.v[j]));
    lemma_nil_times(e, p, t - rb * v);
    assert(p * (t - rb * v) == p * t - (p * rb) * v) by (nonlinear_arith);
    lemma_same_trans(e, total_of(f, n), p * t, (p * rb) * v);
}

proof fn lemma_follows<A: Arithmetic>(
    e: Exact,
    ar: A,
    a: Csc,
    transposed: bool,
    rhs: Seq<Real>,
    rhs_norm: Real,
    alpha: Real,
    tol: LsqrTolerances,
    k: nat,
) -> (z: spec_fn(int) -> int)
    requires
        e.computes(ar),
        a.wf(),
        a.nrows <= u32::MAX,
        a.ncols <= u32::MAX,
        rhs.len() == sides(a, transposed).0,
        e.unit(e.of(rhs_norm)),
        e.unit(e.of(alpha)),
        ({
            let u = divided(ar, rhs, rhs_norm);
            steps_exactly(
                e,
                ar,
                a,
                transposed,
                lsqr_start(ar, u, operator(ar, a, !transposed, u), rhs_norm, alpha),
                tol,
                k,
            )
        }),
    ensures
        ({
            let u = divided(ar, rhs, rhs_norm);
            follows(
                e,
                a,
                transposed,
                rhs,
                lsqr_upto(
                    ar,
                    a,
                    transposed,
                    lsqr_start(ar, u, operator(ar, a, !transposed, u), rhs_norm, alpha),
                    tol,
                    k,
                ).state,
                z,
            )
        }),
    decreases k,
{
    let u = divided(ar, rhs, rhs_norm);
    let atu = operator(ar, a, !transposed, u);
    let first = lsqr_start(ar, u, atu, rhs_norm, alpha);
    if k == 0 {
        let z = values_of(e, u);
        let (rows, cols) = sides(a, transposed);
        lemma_operator_len(e, ar, a, !transposed, u);
        lemma_constants(e, ar);
        assert forall|i: int| 0 <= i < rows implies e.same(
            e.of(rhs[i]) - #[trigger] image(e, a, transposed, values_of(e, first.x), i),
            e.of(first.phibar) * z(i),
        ) by {
            lemma_quotient(e, ar, rhs[i], rhs_norm);
            let xs = values_of(e, first.x);
            let none = |j: int| j - j;
            assert forall|j: int| 0 <= j < cols implies e.same(
                #[trigger] xs(j),
                0 * none(j) + 0 * none(j),
            ) by {}
            lemma_image(e, a, transposed, xs, none, none, 0, 0, i);
            let w = image(e, a, transposed, none, i);
            assert(0 * w + 0 * w == 0) by (nonlinear_arith);
            let (b, x, q, n) = (e.of(rhs[i]), image(e, a, transposed, xs, i), z(i), e.of(rhs_norm));
            assert(q * n == n * q) by (nonlinear_arith);
            lemma_combine(e, (b - x) - n * q, -1, x - 0, -1, q * n - b);
        }
        assert forall|i: int| 0 <= i < rows implies e.same(
            #[trigger] image(e, a, transposed, values_of(e, first.w), i),
            e.of(first.rhobar) * z(i) + (image(e, a, transposed, values_of(e, first.v), i) - e.of(
                first.alpha,
            ) * e.of(first.u[i])),
        ) by {
            lemma_nil_zero(e);
        }
        assert forall|j: int| 0 <= j < cols implies e.same(
            #[trigger] backward(e, a, transposed, z, j),
            e.of(first.rhobar) * e.of(first.v[j]),
        ) by {
            lemma_operator(e, ar, a, !transposed, u, j);
            lemma_over(e, ar, atu, alpha, j);
            let (m, y, v, n) = (
                image(e, a, !transposed, z, j),
                e.of(atu[j]),
                e.of(first.v[j]),
                e.of(alpha),
            );
            lemma_combine(e, m - n * v, -1, y - m, -1, n * v - y);
        }
        z
    } else {
        assert forall|j: nat| j < (k - 1) as nat implies ({
            let p = #[trigger] lsqr_upto(ar, a, transposed, first, tol, j);
            !p.stopped ==> exact_step(e, ar, a, transposed, p.state)
        }) by {}
        let z = lemma_follows(e, ar, a, transposed, rhs, rhs_norm, alpha, tol, (k - 1) as nat);
        let p = lsqr_upto(ar, a, transposed, first, tol, (k - 1) as nat);
        if p.stopped {
            z
        } else {
            lemma_step_follows(e, ar, a, transposed, rhs, p.state, z, tol, p.performed)
        }
    }
}

} // verus!
