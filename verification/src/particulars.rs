//! What particular solutions are: the least squares of the equations, as they stand or with
//! their rows weighted.

use crate::arithmetic::{functional, root_of, Arithmetic};
use crate::backend::{factored_and_solved, Backend};
use crate::direct::{gram_matrix, middle_answer};
use crate::double::{Real, ZERO};
use crate::entries::{
    column_times, columns_are_multiplied_and_added, entry, row_scaling_multiplies_rows, row_times,
};
use crate::equilibrium::EquilibriumSystem;
use crate::error::Source;
use crate::exact::{
    lemma_combine, lemma_combine3, lemma_combine4, lemma_nil_sum, lemma_nil_times, lemma_product,
    lemma_quotient, lemma_same_sym, lemma_same_trans, lemma_total_same, Exact,
};
use crate::irls::{effective_regularization, largest_weight, weight_floor, weight_of, weight_roots};
use crate::optimality::{
    normal_equations_are_the_gradient, normal_residual, regularization_of,
    saddle_solutions_are_optimal,
};
use crate::pseudoinverse::{
    damped_saddle_reply, gram_reply, gram_round, particular_answer, saddle_reply, saddle_round,
    weighted_loads,
};
use crate::reweighting::{exact_root, loads_are_weighed_like_rows};
use crate::saddle::{extended, saddle_matrix};
use crate::solving::{lemma_solved, saddle_solves_are_optimal, solves_exactly};
use crate::sparse::{lemma_transposed_wf, product, Csc};
use crate::stages::{lemma_weighted_rows, weighted_gradient};
use crate::turning::lemma_swap_factors;
use crate::types::FactorizationStrategy;
use crate::vector::products;
use vstd::prelude::*;

verus! {

/// The force densities of a particular solution are its unknowns, or these over the lengths:
/// times the lengths they are the forces found.
pub proof fn particular_solutions_are_force_densities<A: Arithmetic>(
    e: Exact,
    ar: A,
    x: Vec<Real>,
    lengths: Seq<Real>,
    solve_for_q: bool,
    source: Source,
    q: Vec<Real>,
    i: int,
)
    requires
        functional(ar),
        e.computes(ar),
        particular_answer(ar, Ok(x), lengths, solve_for_q, source, Ok(q)),
        0 <= i < lengths.len(),
        e.unit(e.of(lengths[i])),
    ensures
        q@.len() == lengths.len(),
        q@[i].finite(),
        solve_for_q ==> q@[i] == x@[i],
        !solve_for_q ==> e.same(e.of(q@[i]) * e.of(lengths[i]), e.of(x@[i])),
{
    lemma_quotient(e, ar, x@[i], lengths[i]);
}

/// What normal equations answer, with an exact direct solver, is where the gradient of the
/// squared residual and its regularization vanishes.
pub proof fn normal_equations_find_the_least_squares<A: Arithmetic, B: Backend>(
    e: Exact,
    ar: A,
    b: B,
    matrix: spec_fn(B::Factor) -> Csc,
    system: EquilibriumSystem,
    regularization: Real,
    x: Vec<Real>,
    k: int,
)
    requires
        functional(ar),
        e.computes(ar),
        solves_exactly(e, b, matrix),
        system.wf(),
        product(ar, system.a@.transposed(), system.a@).wf(),
        gram_matrix(ar, system.a@, regularization).wf(),
        gram_reply(ar, b, system, regularization, Ok(x)),
        0 <= k < system.n_edges,
    ensures
        e.nil(
            normal_residual(
                e,
                system.a@,
                system.p@,
                regularization_of(e, regularization),
                x@,
                k,
            ),
        ),
{
    let m = system.a@;
    let g = gram_matrix(ar, m, regularization);
    let h = m.transposed().applied(ar, system.p@);
    lemma_solved(e, b, matrix, g, h, x);
    lemma_transposed_wf(m);
    assert(g.nrows == m.ncols);
    assert(e.same(row_times(e, g, k, x@), e.of(h[k])));
    normal_equations_are_the_gradient(e, ar, m, system.p@, regularization, x@, k);
    let (r, n) = (
        row_times(e, g, k, x@) - e.of(h[k]),
        normal_residual(e, m, system.p@, regularization_of(e, regularization), x@, k),
    );
    lemma_combine(e, n, 1, r, -1, r - n);
}

proof fn lemma_damped<A: Arithmetic, B: Backend>(
    e: Exact,
    ar: A,
    b: B,
    matrix: spec_fn(B::Factor) -> Csc,
    m: Csc,
    p: Seq<Real>,
    w: Real,
    x: Vec<Real>,
    k: int,
)
    requires
        functional(ar),
        e.computes(ar),
        solves_exactly(e, b, matrix),
        m.wf(),
        m.nrows + m.ncols <= u32::MAX,
        p.len() == m.nrows,
        saddle_matrix(ar, m, w).wf(),
        damped_saddle_reply(ar, b, m, p, w, Ok(x)),
        0 <= k < m.ncols,
    ensures
        e.nil(normal_residual(e, m, p, e.of(w), x@, k)),
{
    let mat = saddle_matrix(ar, m, w);
    let rhs = extended(p, m.ncols);
    let z = choose|z: Vec<Real>|
        {
            &&& #[trigger] factored_and_solved(b, mat, FactorizationStrategy::LDL, rhs, Ok(z))
            &&& middle_answer(Ok(z), m.nrows, m.ncols, Ok(x))
        };
    lemma_solved(e, b, matrix, mat, rhs, z);
    saddle_solutions_are_optimal(e, ar, m, p, w, z@, k);
}

/// What the saddle system answers, with an exact direct solver, is where the gradient of the
/// squared residual and its regularization vanishes.
pub proof fn saddle_systems_find_the_least_squares<A: Arithmetic, B: Backend>(
    e: Exact,
    ar: A,
    b: B,
    matrix: spec_fn(B::Factor) -> Csc,
    system: EquilibriumSystem,
    regularization: Real,
    x: Vec<Real>,
    k: int,
)
    requires
        functional(ar),
        e.computes(ar),
        solves_exactly(e, b, matrix),
        system.wf(),
        system.n_eq + system.n_edges <= u32::MAX,
        saddle_matrix(ar, system.a@, regularization).wf(),
        saddle_matrix(ar, system.a@, Real { bits: ZERO }).wf(),
        saddle_reply(ar, b, system, regularization, Ok(x)),
        0 <= k < system.n_edges,
    ensures
        e.nil(
            normal_residual(
                e,
                system.a@,
                system.p@,
                e.of(
                    if regularization.level(Real { bits: ZERO }) {
                        Real { bits: ZERO }
                    } else {
                        regularization
                    },
                ),
                x@,
                k,
            ),
        ),
{
    if regularization.level(Real { bits: ZERO }) {
        saddle_solves_are_optimal(
            e,
            ar,
            b,
            matrix,
            system.a@,
            system.p@,
            Real { bits: ZERO },
            x,
            k,
        );
    } else {
        lemma_damped(e, ar, b, matrix, system.a@, system.p@, regularization, x, k);
    }
}

/// A round of reweighting by the saddle system, with an exact direct solver, ends where the
/// gradient with the rows weighted by the residuals vanishes.
pub proof fn saddle_rounds_solve_the_weighted_problem<A: Arithmetic, B: Backend>(
    e: Exact,
    ar: A,
    b: B,
    matrix: spec_fn(B::Factor) -> Csc,
    system: EquilibriumSystem,
    regularization: Real,
    r: Seq<Real>,
    x: Vec<Real>,
    k: int,
)
    requires
        functional(ar),
        e.computes(ar),
        solves_exactly(e, b, matrix),
        system.wf(),
        system.n_eq + system.n_edges <= u32::MAX,
        r.len() == system.n_eq,
        !effective_regularization(ar, regularization, largest_weight(ar, r)).level(
            Real { bits: ZERO },
        ),
        saddle_matrix(
            ar,
            system.a@.row_scaled(ar, weight_roots(ar, r)),
            effective_regularization(ar, regularization, largest_weight(ar, r)),
        ).wf(),
        saddle_round(ar, b, system, regularization, r, Ok(x)),
        0 <= k < system.n_edges,
    ensures
        e.nil(
            weighted_gradient(
                e,
                ar,
                system.a@,
                system.p@,
                r,
                e.of(effective_regularization(ar, regularization, largest_weight(ar, r))),
                x@,
                k,
            ),
        ),
{
    let a = system.a@;
    let w = effective_regularization(ar, regularization, largest_weight(ar, r));
    let m = a.row_scaled(ar, weight_roots(ar, r));
    let q = products(ar, weight_roots(ar, r), system.p@);
    lemma_damped(e, ar, b, matrix, m, q, w, x, k);
    lemma_weighted_rows(e, ar, a, system.p@, r, e.of(w), x@, k);
    let (u, v) = (
        weighted_gradient(e, ar, a, system.p@, r, e.of(w), x@, k),
        normal_residual(e, m, q, e.of(w), x@, k),
    );
    lemma_nil_sum(e, u - v, v);
}

/// A round of reweighting by normal equations, with an exact direct solver, ends where the
/// gradient with the rows weighted by the residuals vanishes.
pub proof fn gram_rounds_solve_the_weighted_problem<A: Arithmetic, B: Backend>(
    e: Exact,
    ar: A,
    b: B,
    matrix: spec_fn(B::Factor) -> Csc,
    system: EquilibriumSystem,
    regularization: Real,
    r: Seq<Real>,
    x: Vec<Real>,
    k: int,
)
    requires
        functional(ar),
        e.computes(ar),
        solves_exactly(e, b, matrix),
        system.wf(),
        r.len() == system.n_eq,
        (Real { bits: ZERO }).below(largest_weight(ar, r)),
        e.unit(e.of(largest_weight(ar, r))),
        e.unit(e.of(root_of(ar, largest_weight(ar, r)))),
        exact_root(e, ar, largest_weight(ar, r)),
        forall|i: int|
            #![trigger r[i]]
            0 <= i < r.len() ==> exact_root(e, ar, weight_of(ar, r[i], weight_floor(ar, r))),
        ({
            let m = system.a@.row_scaled(ar, weight_roots(ar, r));
            let w = effective_regularization(ar, regularization, largest_weight(ar, r));
            product(ar, m.transposed(), m).wf() && gram_matrix(ar, m, w).wf()
        }),
        gram_round(ar, b, system, regularization, r, Ok(x)),
        0 <= k < system.n_edges,
    ensures
        e.nil(
            weighted_gradient(
                e,
                ar,
                system.a@,
                system.p@,
                r,
                regularization_of(
                    e,
                    effective_regularization(ar, regularization, largest_weight(ar, r)),
                ),
                x@,
                k,
            ),
        ),
{
    let a = system.a@;
    let p = system.p@;
    let w = effective_regularization(ar, regularization, largest_weight(ar, r));
    let roots = weight_roots(ar, r);
    let m = a.row_scaled(ar, roots);
    let q = products(ar, roots, p);
    let wl = weighted_loads(ar, r, p, largest_weight(ar, r));
    let g = gram_matrix(ar, m, w);
    let h = a.transposed().applied(ar, wl);
    let t = m.transposed().applied(ar, q);
    lemma_solved(e, b, matrix, g, h, x);
    lemma_transposed_wf(a);
    lemma_transposed_wf(m);
    assert(g.nrows == m.ncols);
    assert(e.same(row_times(e, g, k, x@), e.of(h[k])));
    normal_equations_are_the_gradient(e, ar, m, q, w, x@, k);
    lemma_weighted_rows(e, ar, a, p, r, regularization_of(e, w), x@, k);
    columns_are_multiplied_and_added(e, ar, a, wl, k);
    columns_are_multiplied_and_added(e, ar, m, q, k);
    let f = |i: int| entry(e, a, i, k) * e.of(wl[i]);
    let s = |i: int| entry(e, m, i, k) * e.of(q[i]);
    assert forall|i: int| 0 <= i < a.nrows implies e.same(#[trigger] f(i), s(i)) by {
        assert(r[i] == r[i]);
        loads_are_weighed_like_rows(e, ar, r, p, i);
        row_scaling_multiplies_rows(e, ar, a, roots, i, k);
        lemma_product(e, ar, roots[i], p[i]);
        let (c, o, v, l) = (entry(e, a, i, k), e.of(roots[i]), e.of(p[i]), e.of(wl[i]));
        lemma_swap_factors(e, entry(e, m, i, k), o * c, e.of(q[i]), o * v);
        assert((o * c) * (o * v) == c * ((o * o) * v)) by (nonlinear_arith);
        lemma_times(e, c, l, (o * o) * v);
        lemma_same_sym(e, s(i), c * ((o * o) * v));
        lemma_same_trans(e, f(i), c * ((o * o) * v), s(i));
    }
    lemma_total_same(e, f, s, a.nrows as int);
    let (u, v) = (
        weighted_gradient(e, ar, a, p, r, regularization_of(e, w), x@, k),
        normal_residual(e, m, q, regularization_of(e, w), x@, k),
    );
    let row = row_times(e, g, k, x@);
    let (hk, tk) = (e.of(h[k]), e.of(t[k]));
    lemma_combine3(
        e,
        hk - tk,
        1,
        hk - column_times(e, a, k, wl),
        -1,
        tk - column_times(e, m, k, q),
        1,
        column_times(e, a, k, wl) - column_times(e, m, k, q),
    );
    lemma_combine4(e, u, 1, u - v, -1, (row - tk) - v, 1, row - hk, 1, hk - tk);
}

proof fn lemma_times(e: Exact, c: int, x: int, y: int)
    requires
        e.same(x, y),
    ensures
        e.same(c * x, c * y),
{
    lemma_nil_times(e, c, x - y);
    assert(c * (x - y) == c * x - c * y) by (nonlinear_arith);
}

} // verus!
