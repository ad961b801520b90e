//! What the stages of an inverse solve hand to their solvers, and what comes of it.

use crate::arithmetic::{functional, product_of, Arithmetic};
use crate::array::Grid;
use crate::backend::{Backend, ConicAttempt, QuadraticProgram};
use crate::bounds::{shifted, start_in, BoxBounds};
use crate::conic::{box_violation, conic_answer, equality_error};
use crate::direct::gram_matrix;
use crate::double::{Real, HALF, ZERO};
use crate::entries::{
    entry, lemma_applied_length, row_scaling_multiplies_rows, row_times,
    rows_are_multiplied_and_added,
};
use crate::equilibrium::{describes, lengths_of, EquilibriumSystem, EquilibriumUnknown};
use crate::error::TheseusError;
use crate::exact::{
    lemma_combine, lemma_combine3, lemma_constants, lemma_difference, lemma_negated, lemma_nil_sum,
    lemma_nil_times, lemma_product, lemma_same_sym, lemma_total_same, total_of, Exact,
};
use crate::force_stage::{axes_of, force_stage_outcome, round_outcome, Reweighted};
use crate::geometric_stage::{
    boxed_step, moved_along, standstill, step_found, step_outcome, system_at_found, Descent,
};
use crate::geometry::{backtracked, found_positions, measures, GeometryProbe, Measured};
use crate::inner::{inner_outcome, InnerSolution, InnerSolver};
use crate::irls::{effective_regularization, largest_weight, magnitudes, weight_roots};
use crate::optimality::normal_residual;
use crate::options::{InnerKind, InverseFdmOptions, InverseMetric};
use crate::retraction::{
    corrected, length_residual, objective_here, objective_of, retraction_step, searched,
    LengthRetractionOptions,
};
use crate::reweighting::weight_used;
use crate::saddle::saddle_matrix;
use crate::solving::{direct_solvers_find_the_least_squares, solves_exactly};
use crate::sparse::{product, Csc, SparseColMatOwned};
use crate::turning::lemma_swap_factors;
use crate::types::Problem;
use crate::vector::{less, negatives, norm_of, products};
use crate::verdicts::shifted_boxes_are_relative;
use crate::weight::MetricWeight;
use vstd::prelude::*;

verus! {

/// Whether every unknown is strictly between its bounds.
pub open spec fn strictly_inside(bounds: BoxBounds, x: Seq<Real>) -> bool {
    forall|i: int|
        0 <= i < x.len() ==> bounds.lower@[i].below(#[trigger] x[i]) && x[i].below(
            bounds.upper@[i],
        )
}

/// Whether a direct solver of this kind has matrices to factor.
pub open spec fn factorable<A: Arithmetic>(ar: A, kind: InnerKind, m: Csc, w: Real) -> bool {
    &&& kind == InnerKind::Gram || kind == InnerKind::Saddle
    &&& kind == InnerKind::Gram ==> product(ar, m.transposed(), m).wf() && gram_matrix(
        ar,
        m,
        w,
    ).wf()
    &&& kind == InnerKind::Saddle ==> saddle_matrix(ar, m, w).wf()
}

/// A force stage that minimizes squares and ends strictly inside its box, with an exact
/// direct solver, ends where the gradient of the squared residual of the system, with the
/// regularization asked for, vanishes.
pub proof fn force_stages_find_the_least_squares<A: Arithmetic, B: Backend>(
    e: Exact,
    ar: A,
    b: B,
    matrix: spec_fn(B::Factor) -> Csc,
    system: EquilibriumSystem,
    opts: InverseFdmOptions,
    bounds: BoxBounds,
    kind: InnerKind,
    before: InnerSolver<B>,
    after: InnerSolver<B>,
    found: InnerSolution,
    k: int,
)
    requires
        functional(ar),
        e.computes(ar),
        solves_exactly(e, b, matrix),
        system.wf(),
        system.n_eq + system.n_edges <= u32::MAX,
        opts.use_l2,
        (Real { bits: ZERO }).below(opts.regularization),
        factorable(ar, kind, system.a@, opts.regularization),
        force_stage_outcome(ar, b, system, opts, bounds, kind, before, after, Ok(found)),
        strictly_inside(bounds, found.x@),
        0 <= k < system.n_edges,
    ensures
        e.nil(
            normal_residual(e, system.a@, system.p@, e.of(opts.regularization), found.x@, k),
        ),
{
    let (middle, f) = choose|middle: InnerSolver<B>, f: InnerSolution| #[trigger]
        inner_outcome(
            ar,
            b,
            opts,
            kind,
            system.a,
            system.p@,
            opts.regularization,
            start_in(bounds),
            bounds,
            None,
            false,
            before,
            middle,
            Ok(f),
        ) && found.x@ == bounds.clipped(f.x@);
    assert(found.x@ =~= f.x@) by {
        assert forall|i: int| 0 <= i < found.x@.len() implies found.x@[i] == f.x@[i] by {
            assert(bounds.lower@[i].below(found.x@[i]));
        }
    }
    direct_solvers_find_the_least_squares(
        e,
        ar,
        b,
        matrix,
        opts,
        kind,
        system.a,
        system.p@,
        opts.regularization,
        start_in(bounds),
        bounds,
        before,
        middle,
        f,
        k,
    );
}

/// Entry `k` of `A' W (A x - p) + w x`, the gradient of the residual of a system with its
/// rows weighted by the residuals `r`.
pub open spec fn weighted_gradient<A: Arithmetic>(
    e: Exact,
    ar: A,
    a: Csc,
    p: Seq<Real>,
    r: Seq<Real>,
    w: int,
    x: Seq<Real>,
    k: int,
) -> int {
    total_of(
        |i: int|
            weight_used(e, ar, r, i) * (entry(e, a, i, k) * (row_times(e, a, i, x) - e.of(p[i]))),
        a.nrows as int,
    ) + w * e.of(x[k])
}

/// A round of reweighting that ends strictly inside its box, with an exact direct solver,
/// ends where the gradient of the residual, with its rows weighted by the residuals that the
/// round began with, vanishes.
pub proof fn rounds_solve_the_weighted_problem<A: Arithmetic, B: Backend>(
    e: Exact,
    ar: A,
    b: B,
    matrix: spec_fn(B::Factor) -> Csc,
    system: EquilibriumSystem,
    opts: InverseFdmOptions,
    bounds: BoxBounds,
    kind: InnerKind,
    s: Reweighted<B>,
    next: Reweighted<B>,
    r: Seq<Real>,
    k: int,
)
    requires
        functional(ar),
        e.computes(ar),
        solves_exactly(e, b, matrix),
        system.wf(),
        system.n_eq + system.n_edges <= u32::MAX,
        r == less(ar, system.a@.applied(ar, s.x), system.p@),
        (Real { bits: ZERO }).below(
            effective_regularization(ar, opts.regularization, largest_weight(ar, r)),
        ),
        factorable(
            ar,
            kind,
            system.a@.row_scaled(ar, weight_roots(ar, r)),
            effective_regularization(ar, opts.regularization, largest_weight(ar, r)),
        ),
        !next.finished,
        round_outcome(ar, b, system, opts, bounds, kind, s, Ok(next)),
        strictly_inside(bounds, next.x),
        0 <= k < system.n_edges,
    ensures
        e.nil(
            weighted_gradient(
                e,
                ar,
                system.a@,
                system.p@,
                r,
                e.of(effective_regularization(ar, opts.regularization, largest_weight(ar, r))),
                next.x,
                k,
            ),
        ),
        next.previous == magnitudes(ar, r, r.len() as int),
        next.rounds == s.rounds + 1,
{
    let a = system.a@;
    let p = system.p@;
    let roots = weight_roots(ar, r);
    let w = effective_regularization(ar, opts.regularization, largest_weight(ar, r));
    let (m, after, f) = choose|m: SparseColMatOwned, after: InnerSolver<B>, f: InnerSolution|
        m@ == a.row_scaled(ar, roots) && #[trigger] inner_outcome(
            ar,
            b,
            opts,
            kind,
            m,
            products(ar, roots, p),
            w,
            s.x,
            bounds,
            None,
            false,
            s.solvers,
            after,
            Ok(f),
        ) && next.x == bounds.clipped(f.x@);
    assert(next.x =~= f.x@) by {
        assert forall|i: int| 0 <= i < next.x.len() implies next.x[i] == f.x@[i] by {
            assert(bounds.lower@[i].below(next.x[i]));
        }
    }
    let x = next.x;
    lemma_applied_length(ar, a, s.x);
    let q = products(ar, roots, p);
    assert(m.wf());
    direct_solvers_find_the_least_squares(
        e,
        ar,
        b,
        matrix,
        opts,
        kind,
        m,
        q,
        w,
        s.x,
        bounds,
        s.solvers,
        after,
        f,
        k,
    );
    lemma_weighted_rows(e, ar, a, p, r, e.of(w), x, k);
    let (u, v) = (
        weighted_gradient(e, ar, a, p, r, e.of(w), x, k),
        normal_residual(e, m@, q, e.of(w), x, k),
    );
    lemma_nil_sum(e, u - v, v);
}

/// The gradient with weighted rows is that of the matrix with scaled rows and of the loads
/// scaled alike.
pub(crate) proof fn lemma_weighted_rows<A: Arithmetic>(
    e: Exact,
    ar: A,
    a: Csc,
    p: Seq<Real>,
    r: Seq<Real>,
    w: int,
    x: Seq<Real>,
    k: int,
)
    requires
        e.computes(ar),
        a.wf(),
        weight_roots(ar, r).len() == a.nrows,
        p.len() == a.nrows,
    ensures
        e.same(
            weighted_gradient(e, ar, a, p, r, w, x, k),
            normal_residual(
                e,
                a.row_scaled(ar, weight_roots(ar, r)),
                products(ar, weight_roots(ar, r), p),
                w,
                x,
                k,
            ),
        ),
{
    let roots = weight_roots(ar, r);
    let m = a.row_scaled(ar, roots);
    let q = products(ar, roots, p);
    let n = a.nrows as int;
    let g = |i: int| entry(e, m, i, k) * (row_times(e, m, i, x) - e.of(q[i]));
    let h = |i: int|
        weight_used(e, ar, r, i) * (entry(e, a, i, k) * (row_times(e, a, i, x) - e.of(p[i])));
    assert forall|i: int| 0 <= i < n implies e.same(#[trigger] h(i), g(i)) by {
        let root = e.of(roots[i]);
        lemma_scaled_row(e, ar, a, roots, x, i);
        row_scaling_multiplies_rows(e, ar, a, roots, i, k);
        lemma_product(e, ar, roots[i], p[i]);
        let (u, v) = (entry(e, m, i, k), row_times(e, m, i, x) - e.of(q[i]));
        let (c, d) = (entry(e, a, i, k), row_times(e, a, i, x) - e.of(p[i]));
        let row = row_times(e, a, i, x);
        assert(root * d == root * row - root * e.of(p[i])) by (nonlinear_arith)
            requires
                d == row - e.of(p[i]),
        ;
        lemma_combine(
            e,
            v - root * d,
            1,
            row_times(e, m, i, x) - root * row,
            -1,
            e.of(q[i]) - root * e.of(p[i]),
        );
        lemma_swap_factors(e, u, root * c, v, root * d);
        assert((root * c) * (root * d) == (root * root) * (c * d)) by (nonlinear_arith);
        lemma_same_sym(e, u * v, (root * c) * (root * d));
    }
    lemma_total_same(e, h, g, n);
}

/// A row of a matrix with scaled rows times a vector.
proof fn lemma_scaled_row<A: Arithmetic>(
    e: Exact,
    ar: A,
    m: Csc,
    scales: Seq<Real>,
    x: Seq<Real>,
    i: int,
)
    requires
        e.computes(ar),
        m.wf(),
    ensures
        e.same(
            row_times(e, m.row_scaled(ar, scales), i, x),
            e.of(scales[i]) * row_times(e, m, i, x),
        ),
{
    let s = m.row_scaled(ar, scales);
    let c = e.of(scales[i]);
    let f = |j: int| entry(e, s, i, j) * e.of(x[j]);
    let g = |j: int| entry(e, m, i, j) * e.of(x[j]);
    let h = |j: int| c * g(j) + 0 * g(j);
    assert forall|j: int| 0 <= j < m.ncols implies e.same(#[trigger] f(j), h(j)) by {
        row_scaling_multiplies_rows(e, ar, m, scales, i, j);
        let (a, b, v) = (entry(e, s, i, j), entry(e, m, i, j), e.of(x[j]));
        lemma_nil_times(e, v, a - c * b);
        assert(v * (a - c * b) == a * v - (c * (b * v) + 0 * (b * v))) by (nonlinear_arith);
    }
    lemma_total_same(e, f, h, m.ncols as int);
    lemma_scaled_total(g, h, c, m.ncols as int);
}

proof fn lemma_scaled_total(g: spec_fn(int) -> int, h: spec_fn(int) -> int, c: int, k: int)
    requires
        forall|j: int| 0 <= j < k ==> #[trigger] h(j) == c * g(j) + 0 * g(j),
    ensures
        total_of(h, k) == c * total_of(g, k),
    decreases k,
{
    if k > 0 {
        lemma_scaled_total(g, h, c, k - 1);
        let (t, v) = (total_of(g, k - 1), g(k - 1));
        assert(h(k - 1) == c * v + 0 * v);
        assert(c * (t + v) == c * t + (c * v + 0 * v)) by (nonlinear_arith);
    } else {
        assert(c * 0 == 0) by (nonlinear_arith);
    }
}

/// Whether a solver is asked for what is missing at `x`: its right-hand side is the loads
/// less the rows times `x`, it starts at zero, and its box is the one at `x`.
pub open spec fn asks_for_what_is_missing(
    e: Exact,
    system: EquilibriumSystem,
    x: Seq<Real>,
    bounds: BoxBounds,
    rhs: Seq<Real>,
    start: Seq<Real>,
    step_bounds: BoxBounds,
) -> bool {
    &&& rhs.len() == system.n_eq
    &&& forall|i: int|
        0 <= i < system.n_eq ==> e.same(
            e.of(#[trigger] rhs[i]),
            e.of(system.p@[i]) - row_times(e, system.a@, i, x),
        )
    &&& start.len() == system.n_edges
    &&& forall|j: int| 0 <= j < system.n_edges ==> e.nil(e.of(#[trigger] start[j]))
    &&& forall|j: int|
        0 <= j < x.len() ==> e.same(
            e.of(#[trigger] step_bounds.lower@[j]) + e.of(x[j]),
            e.of(bounds.lower@[j]),
        )
    &&& forall|j: int|
        0 <= j < x.len() ==> e.same(
            e.of(#[trigger] step_bounds.upper@[j]) + e.of(x[j]),
            e.of(bounds.upper@[j]),
        )
}

/// A geometric step is what a solver finds that is asked for what is missing at `x`, in the
/// weight at `x` and with the damping of the options: with the rows of the system, or, by
/// Newton's method, with the rows at the positions found.
pub proof fn geometric_steps_ask_for_what_is_missing<A: Arithmetic, B: Backend>(
    e: Exact,
    ar: A,
    b: B,
    problem: Problem,
    system: EquilibriumSystem,
    opts: InverseFdmOptions,
    metric: InverseMetric,
    bounds: BoxBounds,
    kind: InnerKind,
    x: Seq<Real>,
    probe: GeometryProbe<B>,
    before: InnerSolver<B>,
    after: InnerSolver<B>,
    step: Vec<Real>,
)
    requires
        functional(ar),
        e.computes(ar),
        system.wf(),
        step_outcome(
            ar,
            b,
            problem,
            system,
            opts,
            metric,
            bounds,
            kind,
            x,
            probe,
            before,
            after,
            Ok(step),
        ),
    ensures
        exists|
            m: SparseColMatOwned,
            rhs: Seq<Real>,
            start: Seq<Real>,
            step_bounds: BoxBounds,
            found: InnerSolution,
        |
            {
                &&& #[trigger] inner_outcome(
                    ar,
                    b,
                    opts,
                    kind,
                    m,
                    rhs,
                    opts.cwls_damping,
                    start,
                    step_bounds,
                    Some(&probe.weight),
                    true,
                    before,
                    after,
                    Ok(found),
                )
                &&& found.x == step
                &&& asks_for_what_is_missing(e, system, x, bounds, rhs, start, step_bounds)
                &&& metric != InverseMetric::GeometryNewton ==> m == system.a
                &&& metric == InverseMetric::GeometryNewton ==> exists|s: EquilibriumSystem|
                    m == s.a && #[trigger] describes(
                        s,
                        ar,
                        problem,
                        found_positions(
                            ar,
                            system.free_positions@,
                            probe.neg_error@,
                            system.n_free as nat,
                        ),
                        EquilibriumUnknown::ForceDensity,
                        axes_of(problem, opts),
                    )
            },
{
    let step_bounds = choose|step_bounds: BoxBounds|
        #[trigger] shifted(ar, bounds, x, step_bounds) && boxed_step(
            ar,
            b,
            problem,
            system,
            opts,
            metric,
            kind,
            x,
            probe,
            step_bounds,
            before,
            after,
            Ok(step),
        );
    let m = if metric == InverseMetric::GeometryNewton {
        let here = choose|here: Result<EquilibriumSystem, TheseusError>|
            #[trigger] system_at_found(ar, problem, system, opts, probe, here) && here is Ok
                && step_found(
                ar,
                b,
                system,
                opts,
                kind,
                here->Ok_0.a,
                x,
                probe.weight,
                step_bounds,
                before,
                after,
                Ok(step),
            );
        here->Ok_0.a
    } else {
        system.a
    };
    let ax = system.a@.applied(ar, x);
    let residual = less(ar, ax, system.p@);
    let rhs = negatives(residual);
    let start = standstill(system.n_edges as nat);
    assert(step_found(
        ar,
        b,
        system,
        opts,
        kind,
        m,
        x,
        probe.weight,
        step_bounds,
        before,
        after,
        Ok(step),
    ));
    lemma_applied_length(ar, system.a@, x);
    lemma_constants(e, ar);
    assert forall|i: int| 0 <= i < system.n_eq implies e.same(
        e.of(#[trigger] rhs[i]),
        e.of(system.p@[i]) - row_times(e, system.a@, i, x),
    ) by {
        rows_are_multiplied_and_added(e, ar, system.a@, x, i);
        lemma_difference(e, ar, ax[i], system.p@[i]);
        lemma_negated(e, ar, residual[i]);
        let row = row_times(e, system.a@, i, x);
        lemma_combine3(
            e,
            e.of(rhs[i]) - (e.of(system.p@[i]) - row),
            1,
            e.of(rhs[i]) - (-e.of(residual[i])),
            -1,
            e.of(residual[i]) - (e.of(ax[i]) - e.of(system.p@[i])),
            -1,
            e.of(ax[i]) - row,
        );
    }
    assert forall|j: int| 0 <= j < x.len() implies e.same(
        e.of(#[trigger] step_bounds.lower@[j]) + e.of(x[j]),
        e.of(bounds.lower@[j]),
    ) by {
        shifted_boxes_are_relative(e, ar, bounds, x, step_bounds, j);
    }
    assert forall|j: int| 0 <= j < x.len() implies e.same(
        e.of(#[trigger] step_bounds.upper@[j]) + e.of(x[j]),
        e.of(bounds.upper@[j]),
    ) by {
        shifted_boxes_are_relative(e, ar, bounds, x, step_bounds, j);
    }
    assert(asks_for_what_is_missing(e, system, x, bounds, rhs, start, step_bounds));
}

/// A geometric descent goes down at every iteration, or stays where it is and is stuck.
pub proof fn descents_go_down<A: Arithmetic, B: Backend>(
    ar: A,
    b: B,
    problem: Problem,
    system: EquilibriumSystem,
    opts: InverseFdmOptions,
    bounds: BoxBounds,
    s: Descent<B>,
    step: Seq<Real>,
    after: InnerSolver<B>,
    next: Descent<B>,
)
    requires
        moved_along(ar, b, problem, system, opts, bounds, s, step, after, Ok(next)),
    ensures
        next.iterations == s.iterations + 1,
        next.solvers == after,
        next.stuck ==> next.x == s.x && next.probe == s.probe && !next.converged,
        !next.stuck ==> next.probe.error.below(s.probe.error) && measures(
            next.probe,
            ar,
            b,
            problem,
            system,
            next.x,
        ),
{
    let found = choose|found: Result<Option<Measured<B>>, TheseusError>|
        #[trigger] backtracked(
            ar,
            b,
            problem,
            system,
            bounds,
            s.x,
            step,
            s.probe.error,
            found,
        ) && found is Ok && (found->Ok_0 is None ==> next.stuck && next == (Descent {
            iterations: (s.iterations + 1) as nat,
            converged: false,
            stuck: true,
            solvers: after,
            ..s
        })) && (found->Ok_0 matches Some(to) ==> next.x == to.x@ && next.probe == to.probe
            && !next.stuck && next.iterations == s.iterations + 1 && next.solvers == after);
    if let Ok(Some(to)) = found {
        assert(to.probe.error.below(s.probe.error));
    }
}

/// Twice the objective that a retraction has to lower is the square of the size of its
/// residual.
pub proof fn retractions_lower_half_the_squared_residual<A: Arithmetic>(
    e: Exact,
    ar: A,
    residual: Seq<Real>,
)
    requires
        e.computes(ar),
    ensures
        e.same(
            2 * e.of(objective_here(ar, residual)),
            e.of(norm_of(ar, residual)) * e.of(norm_of(ar, residual)),
        ),
{
    let half = Real { bits: HALF };
    let n = norm_of(ar, residual);
    let p = product_of(ar, half, n);
    lemma_constants(e, ar);
    lemma_product(e, ar, half, n);
    lemma_product(e, ar, p, n);
    let (o, x, h, v) = (e.of(product_of(ar, p, n)), e.of(p), e.of(half), e.of(n));
    assert(2 * o - v * v == 2 * (o - x * v) + (2 * v) * (x - h * v) + (v * v) * (2 * h - 1))
        by (nonlinear_arith);
    lemma_combine3(e, 2 * o - v * v, 2, o - x * v, 2 * v, x - h * v, v * v, 2 * h - 1);
}

/// A retraction goes down at every step.
pub proof fn retractions_go_down<A: Arithmetic, B: Backend>(
    ar: A,
    b: B,
    problem: Problem,
    targets: Seq<Real>,
    options: LengthRetractionOptions,
    system: EquilibriumSystem,
    x: Grid,
    next: Grid,
)
    requires
        retraction_step(ar, b, problem, targets, options, system, x, Ok(next)),
    ensures
        objective_of(
            ar,
            length_residual(ar, lengths_of(ar, problem, next), targets),
        ).below(objective_here(ar, length_residual(ar, system.lengths@, targets))),
{
    let residual = length_residual(ar, system.lengths@, targets);
    let c = choose|c: Result<Vec<Real>, TheseusError>|
        #[trigger] corrected(ar, b, system, residual, options, c) && c is Ok && searched(
            ar,
            problem,
            x,
            targets,
            c->Ok_0@,
            objective_here(ar, residual),
            Some(next),
        );
    assert(c is Ok);
}

/// Unknowns of a program are accepted only where the equalities and the box are met up to a
/// hundred times the tolerance, which is at least `1e-10`.
pub proof fn accepted_programs_are_accurate<A: Arithmetic, B: Backend>(
    ar: A,
    qp: QuadraticProgram,
    m: Csc,
    p: Seq<Real>,
    bounds: BoxBounds,
    weight: Option<&MetricWeight<B>>,
    tol: Real,
    geometric_step: bool,
    attempt: ConicAttempt,
    x: Vec<Real>,
)
    requires
        functional(ar),
        (Real { bits: 0x3DDB_7CDF_D9D7_BDBB }).at_most(tol),
        conic_answer(ar, qp, m, p, bounds, weight, tol, geometric_step, attempt, Ok(x)),
    ensures
        ({
            let allowed = product_of(ar, Real { bits: 0x4059_0000_0000_0000 }, tol);
            let slack = attempt.x@.subrange(0, m.nrows as int);
            let equality = equality_error(ar, m, p, weight, slack, x@);
            let violation = box_violation(ar, bounds, x@, m.ncols as int);
            &&& equality.finite() && !allowed.below(equality)
            &&& violation.finite() && !allowed.below(violation)
        }),
{
}

} // verus!
