//! Options that differ only where a solve does not look lead to the same results.

use crate::arithmetic::{functional, product_of, Arithmetic};
use crate::array::Grid;
use crate::backend::Backend;
use crate::bounds::{composed, composed_lower, composed_upper, start_in, BoxBounds};
use crate::double::{Real, ZERO};
use crate::equilibrium::{assembly_outcome, lengths_of, EquilibriumSystem, EquilibriumUnknown};
use crate::error::TheseusError;
use crate::force_stage::{
    axes_of, force_stage_outcome, reweighted_outcome, round_outcome, rounds_reach, stage_ends,
    unweighted_start, Reweighted,
};
use crate::geometric_stage::{
    boxed_step, budgets, descent_ends, descent_outcome, descent_reaches, descent_run, descent_start,
    descent_step, geometric_stage_outcome, moved_along, newton_phase, phases_joined, probed,
    seed_of, stays, step_outcome, step_solved, system_at_found, Descent,
};
use crate::geometry::{geometric_complaint, geometric_tolerance, GeometryProbe, InverseFdmResult};
use crate::inner::{inner_outcome, InnerSolution, InnerSolver};
use crate::inverse::{
    admissible, boxed_inverse, error_reported, error_told, first_stage, force_reported, inverse_run,
    second_stage, stage1_box, stage1_unknown, system_inverse,
};
use crate::options::{
    inner_of, stage2_inner_of, InnerKind, InverseFdmOptions, InverseMetric, LinearAlgebra,
    ParticularMethod,
};
use crate::sparse::SparseColMatOwned;
use crate::types::Problem;
use crate::vector::{products, quotients};
use crate::weight::MetricWeight;
use vstd::prelude::*;

verus! {

/// Whether two options ask the solvers for the same work.
pub open spec fn same_work(o: InverseFdmOptions, p: InverseFdmOptions) -> bool {
    &&& o.regularization == p.regularization
    &&& o.use_l2 == p.use_l2
    &&& o.max_l1_iter == p.max_l1_iter
    &&& o.enforce_zero_rx == p.enforce_zero_rx
    &&& o.enforce_zero_ry == p.enforce_zero_ry
    &&& o.enforce_zero_rz == p.enforce_zero_rz
    &&& o.max_iter == p.max_iter
    &&& o.tol == p.tol
    &&& o.cwls_damping == p.cwls_damping
}

proof fn lemma_same_inner<A: Arithmetic, B: Backend>(
    o: InverseFdmOptions,
    p: InverseFdmOptions,
    ar: A,
    b: B,
)
    requires
        same_work(o, p),
    ensures
        forall|
            kind: InnerKind,
            m: SparseColMatOwned,
            v: Seq<Real>,
            w: Real,
            x0: Seq<Real>,
            bounds: BoxBounds,
            weight: Option<&MetricWeight<B>>,
            step: bool,
            before: InnerSolver<B>,
            after: InnerSolver<B>,
            r: Result<InnerSolution, TheseusError>,
        |
            #![trigger inner_outcome(ar, b, o, kind, m, v, w, x0, bounds, weight, step, before, after, r)]
            #![trigger inner_outcome(ar, b, p, kind, m, v, w, x0, bounds, weight, step, before, after, r)]
            inner_outcome(ar, b, o, kind, m, v, w, x0, bounds, weight, step, before, after, r)
                == inner_outcome(
                ar,
                b,
                p,
                kind,
                m,
                v,
                w,
                x0,
                bounds,
                weight,
                step,
                before,
                after,
                r,
            ),
{
}

proof fn lemma_same_round<A: Arithmetic, B: Backend>(
    o: InverseFdmOptions,
    p: InverseFdmOptions,
    ar: A,
    b: B,
    system: EquilibriumSystem,
    bounds: BoxBounds,
    kind: InnerKind,
)
    requires
        same_work(o, p),
    ensures
        forall|s: Reweighted<B>, next: Result<Reweighted<B>, TheseusError>|
            #![trigger round_outcome(ar, b, system, o, bounds, kind, s, next)]
            #![trigger round_outcome(ar, b, system, p, bounds, kind, s, next)]
            round_outcome(ar, b, system, o, bounds, kind, s, next) == round_outcome(
                ar,
                b,
                system,
                p,
                bounds,
                kind,
                s,
                next,
            ),
{
    lemma_same_inner(o, p, ar, b);
}

proof fn lemma_same_rounds<A: Arithmetic, B: Backend>(
    o: InverseFdmOptions,
    p: InverseFdmOptions,
    ar: A,
    b: B,
    system: EquilibriumSystem,
    bounds: BoxBounds,
    kind: InnerKind,
    first: Reweighted<B>,
    k: nat,
    s: Reweighted<B>,
)
    requires
        same_work(o, p),
        rounds_reach(ar, b, system, o, bounds, kind, first, k, s),
    ensures
        rounds_reach(ar, b, system, p, bounds, kind, first, k, s),
    decreases k,
{
    lemma_same_round(o, p, ar, b, system, bounds, kind);
    if k > 0 {
        let before = choose|before: Reweighted<B>|
            {
                &&& rounds_reach(ar, b, system, o, bounds, kind, first, (k - 1) as nat, before)
                &&& !before.finished
                &&& #[trigger] round_outcome(ar, b, system, o, bounds, kind, before, Ok(s))
            };
        lemma_same_rounds(o, p, ar, b, system, bounds, kind, first, (k - 1) as nat, before);
        assert(round_outcome(ar, b, system, p, bounds, kind, before, Ok(s)));
    }
}

proof fn lemma_same_reweighted<A: Arithmetic, B: Backend>(
    o: InverseFdmOptions,
    p: InverseFdmOptions,
    ar: A,
    b: B,
    system: EquilibriumSystem,
    bounds: BoxBounds,
    kind: InnerKind,
    first: Reweighted<B>,
    after: InnerSolver<B>,
    r: Result<InnerSolution, TheseusError>,
)
    requires
        same_work(o, p),
        reweighted_outcome(ar, b, system, o, bounds, kind, first, after, r),
    ensures
        reweighted_outcome(ar, b, system, p, bounds, kind, first, after, r),
{
    lemma_same_round(o, p, ar, b, system, bounds, kind);
    let (k, s) = choose|k: nat, s: Reweighted<B>|
        {
            &&& #[trigger] rounds_reach(ar, b, system, o, bounds, kind, first, k, s)
            &&& k <= crate::force_stage::rounds_of(o)
            &&& if k == crate::force_stage::rounds_of(o) || s.finished {
                after == s.solvers && crate::force_stage::stage_ends(
                    s.x,
                    s.rounds,
                    s.converged,
                    system.n_edges as nat,
                    r,
                )
            } else {
                r is Err && round_outcome(ar, b, system, o, bounds, kind, s, Err(r->Err_0))
            }
        };
    lemma_same_rounds(o, p, ar, b, system, bounds, kind, first, k, s);
    assert(rounds_reach(ar, b, system, p, bounds, kind, first, k, s));
}

proof fn lemma_same_force_stage<A: Arithmetic, B: Backend>(
    o: InverseFdmOptions,
    p: InverseFdmOptions,
    ar: A,
    b: B,
    system: EquilibriumSystem,
    bounds: BoxBounds,
    kind: InnerKind,
    before: InnerSolver<B>,
    after: InnerSolver<B>,
    r: Result<InnerSolution, TheseusError>,
)
    requires
        same_work(o, p),
        force_stage_outcome(ar, b, system, o, bounds, kind, before, after, r),
    ensures
        force_stage_outcome(ar, b, system, p, bounds, kind, before, after, r),
{
    lemma_same_inner(o, p, ar, b);
    assert forall|first: Reweighted<B>|
        reweighted_outcome(ar, b, system, o, bounds, kind, first, after, r) implies
        #[trigger] reweighted_outcome(ar, b, system, p, bounds, kind, first, after, r) by {
        lemma_same_reweighted(o, p, ar, b, system, bounds, kind, first, after, r);
    }
}

proof fn lemma_same_step<A: Arithmetic, B: Backend>(
    o: InverseFdmOptions,
    p: InverseFdmOptions,
    ar: A,
    b: B,
    problem: Problem,
    system: EquilibriumSystem,
    metric: InverseMetric,
    bounds: BoxBounds,
    kind: InnerKind,
)
    requires
        same_work(o, p),
    ensures
        forall|
            x: Seq<Real>,
            probe: GeometryProbe<B>,
            before: InnerSolver<B>,
            after: InnerSolver<B>,
            r: Result<Vec<Real>, TheseusError>,
        |
            #![trigger step_outcome(
                ar, b, problem, system, o, metric, bounds, kind, x, probe, before, after, r
            )]
            #![trigger step_outcome(
                ar, b, problem, system, p, metric, bounds, kind, x, probe, before, after, r
            )]
            step_outcome(
                ar,
                b,
                problem,
                system,
                o,
                metric,
                bounds,
                kind,
                x,
                probe,
                before,
                after,
                r,
            ) == step_outcome(
                ar,
                b,
                problem,
                system,
                p,
                metric,
                bounds,
                kind,
                x,
                probe,
                before,
                after,
                r,
            ),
{
    lemma_same_inner(o, p, ar, b);
    assert forall|
        m: SparseColMatOwned,
        x: Seq<Real>,
        weight: MetricWeight<B>,
        step_bounds: BoxBounds,
        before: InnerSolver<B>,
        after: InnerSolver<B>,
        r: Result<Vec<Real>, TheseusError>,
    |
        #![trigger step_solved(ar, b, system, o, kind, m, x, weight, step_bounds, before, after, r)]
        #![trigger step_solved(ar, b, system, p, kind, m, x, weight, step_bounds, before, after, r)]
        step_solved(ar, b, system, o, kind, m, x, weight, step_bounds, before, after, r)
            == step_solved(ar, b, system, p, kind, m, x, weight, step_bounds, before, after, r) by {
    }
    assert forall|probe: GeometryProbe<B>, here: Result<EquilibriumSystem, TheseusError>|
        #![trigger system_at_found(ar, problem, system, o, probe, here)]
        #![trigger system_at_found(ar, problem, system, p, probe, here)]
        system_at_found(ar, problem, system, o, probe, here) == system_at_found(
            ar,
            problem,
            system,
            p,
            probe,
            here,
        ) by {
    }
    assert forall|
        x: Seq<Real>,
        probe: GeometryProbe<B>,
        step_bounds: BoxBounds,
        before: InnerSolver<B>,
        after: InnerSolver<B>,
        r: Result<Vec<Real>, TheseusError>,
    |
        #![trigger boxed_step(
            ar, b, problem, system, o, metric, kind, x, probe, step_bounds, before, after, r
        )]
        #![trigger boxed_step(
            ar, b, problem, system, p, metric, kind, x, probe, step_bounds, before, after, r
        )]
        boxed_step(
            ar,
            b,
            problem,
            system,
            o,
            metric,
            kind,
            x,
            probe,
            step_bounds,
            before,
            after,
            r,
        ) == boxed_step(
            ar,
            b,
            problem,
            system,
            p,
            metric,
            kind,
            x,
            probe,
            step_bounds,
            before,
            after,
            r,
        ) by {
    }
}

proof fn lemma_same_descent_step<A: Arithmetic, B: Backend>(
    o: InverseFdmOptions,
    p: InverseFdmOptions,
    ar: A,
    b: B,
    problem: Problem,
    system: EquilibriumSystem,
    metric: InverseMetric,
    bounds: BoxBounds,
    kind: InnerKind,
)
    requires
        same_work(o, p),
    ensures
        forall|s: Descent<B>, next: Result<Descent<B>, TheseusError>|
            #![trigger descent_step(ar, b, problem, system, o, metric, bounds, kind, s, next)]
            #![trigger descent_step(ar, b, problem, system, p, metric, bounds, kind, s, next)]
            descent_step(ar, b, problem, system, o, metric, bounds, kind, s, next)
                == descent_step(ar, b, problem, system, p, metric, bounds, kind, s, next),
{
    lemma_same_step(o, p, ar, b, problem, system, metric, bounds, kind);
    assert forall|
        s: Descent<B>,
        step: Seq<Real>,
        after: InnerSolver<B>,
        next: Result<Descent<B>, TheseusError>,
    |
        #![trigger moved_along(ar, b, problem, system, o, bounds, s, step, after, next)]
        #![trigger moved_along(ar, b, problem, system, p, bounds, s, step, after, next)]
        moved_along(ar, b, problem, system, o, bounds, s, step, after, next) == moved_along(
            ar,
            b,
            problem,
            system,
            p,
            bounds,
            s,
            step,
            after,
            next,
        ) by {
    }
}

proof fn lemma_same_descent<A: Arithmetic, B: Backend>(
    o: InverseFdmOptions,
    p: InverseFdmOptions,
    ar: A,
    b: B,
    problem: Problem,
    system: EquilibriumSystem,
    metric: InverseMetric,
    bounds: BoxBounds,
    kind: InnerKind,
    first: Descent<B>,
    k: nat,
    s: Descent<B>,
)
    requires
        same_work(o, p),
        descent_reaches(ar, b, problem, system, o, metric, bounds, kind, first, k, s),
    ensures
        descent_reaches(ar, b, problem, system, p, metric, bounds, kind, first, k, s),
    decreases k,
{
    lemma_same_descent_step(o, p, ar, b, problem, system, metric, bounds, kind);
    if k > 0 {
        let before = choose|before: Descent<B>|
            {
                &&& descent_reaches(
                    ar,
                    b,
                    problem,
                    system,
                    o,
                    metric,
                    bounds,
                    kind,
                    first,
                    (k - 1) as nat,
                    before,
                )
                &&& !before.converged && !before.stuck
                &&& #[trigger] descent_step(
                    ar,
                    b,
                    problem,
                    system,
                    o,
                    metric,
                    bounds,
                    kind,
                    before,
                    Ok(s),
                )
            };
        lemma_same_descent(
            o,
            p,
            ar,
            b,
            problem,
            system,
            metric,
            bounds,
            kind,
            first,
            (k - 1) as nat,
            before,
        );
        assert(descent_step(
            ar,
            b,
            problem,
            system,
            p,
            metric,
            bounds,
            kind,
            before,
            Ok(s),
        ));
    }
}

proof fn lemma_same_run<A: Arithmetic, B: Backend>(
    o: InverseFdmOptions,
    p: InverseFdmOptions,
    ar: A,
    b: B,
    problem: Problem,
    system: EquilibriumSystem,
    metric: InverseMetric,
    max_outer: nat,
    bounds: BoxBounds,
    kind: InnerKind,
    first: Descent<B>,
    after: InnerSolver<B>,
    r: Result<InverseFdmResult, TheseusError>,
)
    requires
        same_work(o, p),
        descent_run(
            ar,
            b,
            problem,
            system,
            o,
            metric,
            max_outer,
            bounds,
            kind,
            first,
            after,
            r,
        ),
    ensures
        descent_run(
            ar,
            b,
            problem,
            system,
            p,
            metric,
            max_outer,
            bounds,
            kind,
            first,
            after,
            r,
        ),
{
    lemma_same_descent_step(o, p, ar, b, problem, system, metric, bounds, kind);
    let (k, s) = choose|k: nat, s: Descent<B>|
        {
            &&& #[trigger] descent_reaches(
                ar,
                b,
                problem,
                system,
                o,
                metric,
                bounds,
                kind,
                first,
                k,
                s,
            )
            &&& k <= max_outer
            &&& if k == max_outer || s.converged || s.stuck {
                after == s.solvers && descent_ends(s, system.n_edges as nat, r)
            } else {
                r is Err && descent_step(
                    ar,
                    b,
                    problem,
                    system,
                    o,
                    metric,
                    bounds,
                    kind,
                    s,
                    Err(r->Err_0),
                )
            }
        };
    lemma_same_descent(o, p, ar, b, problem, system, metric, bounds, kind, first, k, s);
    assert(descent_reaches(ar, b, problem, system, p, metric, bounds, kind, first, k, s));
}

proof fn lemma_same_outcome<A: Arithmetic, B: Backend>(
    o: InverseFdmOptions,
    p: InverseFdmOptions,
    ar: A,
    b: B,
    problem: Problem,
    system: EquilibriumSystem,
    metric: InverseMetric,
    max_outer: nat,
    bounds: BoxBounds,
    seed: Seq<Real>,
    kind: InnerKind,
    before: InnerSolver<B>,
    after: InnerSolver<B>,
    r: Result<InverseFdmResult, TheseusError>,
)
    requires
        same_work(o, p),
        descent_outcome(
            ar,
            b,
            problem,
            system,
            o,
            metric,
            max_outer,
            bounds,
            seed,
            kind,
            before,
            after,
            r,
        ),
    ensures
        descent_outcome(
            ar,
            b,
            problem,
            system,
            p,
            metric,
            max_outer,
            bounds,
            seed,
            kind,
            before,
            after,
            r,
        ),
{
    assert forall|first: Descent<B>|
        descent_run(
            ar,
            b,
            problem,
            system,
            o,
            metric,
            max_outer,
            bounds,
            kind,
            first,
            after,
            r,
        ) implies #[trigger] descent_run(
        ar,
        b,
        problem,
        system,
        p,
        metric,
        max_outer,
        bounds,
        kind,
        first,
        after,
        r,
    ) by {
        lemma_same_run(
            o,
            p,
            ar,
            b,
            problem,
            system,
            metric,
            max_outer,
            bounds,
            kind,
            first,
            after,
            r,
        );
    }
}

/// Whether two options ask the second stage for the same.
pub open spec fn same_second_stage(o: InverseFdmOptions, p: InverseFdmOptions) -> bool {
    &&& same_work(o, p)
    &&& o.linear_algebra == p.linear_algebra
    &&& o.q_ref == p.q_ref
    &&& budgets(o) == budgets(p)
}

/// The second stage depends on nothing but the work that is asked for and the budgets.
pub proof fn equal_budgets_find_the_same<A: Arithmetic, B: Backend>(
    o: InverseFdmOptions,
    p: InverseFdmOptions,
    ar: A,
    b: B,
    problem: Problem,
    system: EquilibriumSystem,
    bounds: BoxBounds,
    stage1_q: Seq<Real>,
    before: InnerSolver<B>,
    r: Result<InverseFdmResult, TheseusError>,
)
    requires
        same_second_stage(o, p),
        geometric_stage_outcome(ar, b, problem, system, o, bounds, stage1_q, before, r),
    ensures
        geometric_stage_outcome(ar, b, problem, system, p, bounds, stage1_q, before, r),
{
    assert forall|
        metric: InverseMetric,
        max_outer: nat,
        seed: Seq<Real>,
        kind: InnerKind,
        held: InnerSolver<B>,
        after: InnerSolver<B>,
        found: Result<InverseFdmResult, TheseusError>,
    |
        #[trigger] descent_outcome(
            ar,
            b,
            problem,
            system,
            o,
            metric,
            max_outer,
            bounds,
            seed,
            kind,
            held,
            after,
            found,
        ) implies descent_outcome(
        ar,
        b,
        problem,
        system,
        p,
        metric,
        max_outer,
        bounds,
        seed,
        kind,
        held,
        after,
        found,
    ) by {
        lemma_same_outcome(
            o,
            p,
            ar,
            b,
            problem,
            system,
            metric,
            max_outer,
            bounds,
            seed,
            kind,
            held,
            after,
            found,
        );
    }
    assert forall|kind: InnerKind, middle: InverseFdmResult, solvers: InnerSolver<B>|
        newton_phase(ar, b, problem, system, o, bounds, kind, middle, solvers, r) implies
        #[trigger] newton_phase(ar, b, problem, system, p, bounds, kind, middle, solvers, r) by {
        if budgets(o).1 > 0 {
            let (after, last) = choose|
                after: InnerSolver<B>,
                last: Result<InverseFdmResult, TheseusError>,
            |
                {
                    &&& #[trigger] descent_outcome(
                        ar,
                        b,
                        problem,
                        system,
                        o,
                        InverseMetric::GeometryNewton,
                        budgets(o).1,
                        bounds,
                        middle.q@,
                        kind,
                        solvers,
                        after,
                        last,
                    )
                    &&& phases_joined(middle, last, r)
                };
            assert(descent_outcome(
                ar,
                b,
                problem,
                system,
                p,
                InverseMetric::GeometryNewton,
                budgets(p).1,
                bounds,
                middle.q@,
                kind,
                solvers,
                after,
                last,
            ));
        }
    }
    let kind = stage2_inner_of(o, bounds.finite_somewhere());
    let seed = seed_of(o, stage1_q);
    assert(kind == stage2_inner_of(p, bounds.finite_somewhere()));
    assert(seed == seed_of(p, stage1_q));
    if budgets(o).0 == 0 && budgets(o).1 > 0 {
        let after = choose|after: InnerSolver<B>| #[trigger]
            descent_outcome(
                ar,
                b,
                problem,
                system,
                o,
                InverseMetric::GeometryNewton,
                budgets(o).1,
                bounds,
                seed,
                kind,
                before,
                after,
                r,
            );
        assert(descent_outcome(
            ar,
            b,
            problem,
            system,
            p,
            InverseMetric::GeometryNewton,
            budgets(p).1,
            bounds,
            seed,
            kind,
            before,
            after,
            r,
        ));
    } else {
        let (solvers, middle) = choose|
            solvers: InnerSolver<B>,
            middle: Result<InverseFdmResult, TheseusError>,
        |
            {
                &&& #[trigger] descent_outcome(
                    ar,
                    b,
                    problem,
                    system,
                    o,
                    InverseMetric::Geometry,
                    budgets(o).0,
                    bounds,
                    seed,
                    kind,
                    before,
                    solvers,
                    middle,
                )
                &&& match middle {
                    Err(e) => r == Err::<InverseFdmResult, _>(e),
                    Ok(m) => newton_phase(
                        ar,
                        b,
                        problem,
                        system,
                        o,
                        bounds,
                        kind,
                        m,
                        solvers,
                        r,
                    ),
                }
            };
        assert(descent_outcome(
            ar,
            b,
            problem,
            system,
            p,
            InverseMetric::Geometry,
            budgets(p).0,
            bounds,
            seed,
            kind,
            before,
            solvers,
            middle,
        ));
        if middle is Ok {
            assert(newton_phase(
                ar,
                b,
                problem,
                system,
                p,
                bounds,
                kind,
                middle->Ok_0,
                solvers,
                r,
            ));
        }
    }
}

/// Whether two options ask for the same solve, but for the solver of the first stage.
pub open spec fn same_request(o: InverseFdmOptions, p: InverseFdmOptions) -> bool {
    &&& same_second_stage(o, p)
    &&& o.solve_for_q == p.solve_for_q
    &&& o.signs == p.signs
    &&& o.lower == p.lower
    &&& o.upper == p.upper
    &&& o.metric == InverseMetric::Force <==> p.metric == InverseMetric::Force
}

/// Whether two options take the same solver for the first stage in any box that comes of
/// these bounds.
pub open spec fn same_choice<A: Arithmetic>(
    o: InverseFdmOptions,
    p: InverseFdmOptions,
    ar: A,
    lengths: Seq<Real>,
    q_bounds: BoxBounds,
) -> bool {
    forall|bounds: BoxBounds| #[trigger]
        stage1_box(ar, o, lengths, q_bounds, Ok(bounds)) ==> inner_of(
            o,
            bounds.finite_somewhere(),
        ) == inner_of(p, bounds.finite_somewhere())
}

/// Whether two options take the same solver for the first stage of this solve.
pub open spec fn same_first_stage<A: Arithmetic>(
    o: InverseFdmOptions,
    p: InverseFdmOptions,
    ar: A,
    problem: Problem,
    target: Grid,
) -> bool {
    forall|system: EquilibriumSystem, q_bounds: BoxBounds|
        {
            &&& #[trigger] assembly_outcome(
                ar,
                problem,
                target,
                stage1_unknown(o.solve_for_q),
                axes_of(problem, o),
                Ok(system),
            )
            &&& #[trigger] composed(
                problem.topology.num_edges,
                o.signs@,
                o.lower@,
                o.upper@,
                Ok(q_bounds),
            )
        } ==> same_choice(o, p, ar, system.lengths@, q_bounds)
}

/// Whether two options ask for the same solve.
pub open spec fn same_solve(o: InverseFdmOptions, p: InverseFdmOptions) -> bool {
    &&& same_request(o, p)
    &&& forall|bounded: bool| #[trigger] inner_of(o, bounded) == inner_of(p, bounded)
}

/// Requests that take the same solver for the first stage find the same.
pub proof fn same_choices_find_the_same<A: Arithmetic, B: Backend>(
    o: InverseFdmOptions,
    p: InverseFdmOptions,
    ar: A,
    b: B,
    problem: Problem,
    target: Grid,
    r: Result<InverseFdmResult, TheseusError>,
)
    requires
        same_request(o, p),
        same_first_stage(o, p, ar, problem, target),
        inverse_run(ar, b, problem, target, o, r),
    ensures
        inverse_run(ar, b, problem, target, p, r),
{
    assert(axes_of(problem, o) == axes_of(problem, p));
    assert forall|lengths: Seq<Real>, q_bounds: BoxBounds, stage1: InnerSolution, solvers: InnerSolver<B>|
        second_stage(ar, b, problem, target, o, lengths, q_bounds, stage1, solvers, r) implies
        #[trigger] second_stage(
        ar,
        b,
        problem,
        target,
        p,
        lengths,
        q_bounds,
        stage1,
        solvers,
        r,
    ) by {
        assert forall|system: EquilibriumSystem, q: Seq<Real>|
            geometric_stage_outcome(ar, b, problem, system, o, q_bounds, q, solvers, r) implies
            #[trigger] geometric_stage_outcome(
            ar,
            b,
            problem,
            system,
            p,
            q_bounds,
            q,
            solvers,
            r,
        ) by {
            equal_budgets_find_the_same(o, p, ar, b, problem, system, q_bounds, q, solvers, r);
        }
        let q = if o.solve_for_q {
            stage1.x@
        } else {
            quotients(ar, stage1.x@, lengths)
        };
        if !(o.metric != InverseMetric::Force && geometric_complaint(problem, o.use_l2) is Some) {
            let system = choose|system: Result<EquilibriumSystem, TheseusError>|
                {
                    &&& #[trigger] assembly_outcome(
                        ar,
                        problem,
                        target,
                        EquilibriumUnknown::ForceDensity,
                        axes_of(problem, o),
                        system,
                    )
                    &&& if o.metric == InverseMetric::Force {
                        force_reported(ar, b, problem, system, q, stage1, r)
                    } else {
                        match system {
                            Err(e) => r == Err::<InverseFdmResult, _>(e),
                            Ok(s) => geometric_stage_outcome(
                                ar,
                                b,
                                problem,
                                s,
                                o,
                                q_bounds,
                                q,
                                solvers,
                                r,
                            ),
                        }
                    }
                };
            assert(assembly_outcome(
                ar,
                problem,
                target,
                EquilibriumUnknown::ForceDensity,
                axes_of(problem, p),
                system,
            ));
            if o.metric != InverseMetric::Force && system is Ok {
                assert(geometric_stage_outcome(
                    ar,
                    b,
                    problem,
                    system->Ok_0,
                    p,
                    q_bounds,
                    q,
                    solvers,
                    r,
                ));
            }
        }
    }
    assert forall|system: EquilibriumSystem, q_bounds: BoxBounds, bounds: BoxBounds|
        {
            &&& inner_of(o, bounds.finite_somewhere()) == inner_of(p, bounds.finite_somewhere())
            &&& first_stage(ar, b, problem, target, o, system, q_bounds, bounds, r)
        } implies #[trigger] first_stage(ar, b, problem, target, p, system, q_bounds, bounds, r) by {
        assert forall|
            kind: InnerKind,
            fresh: InnerSolver<B>,
            solvers: InnerSolver<B>,
            found: Result<InnerSolution, TheseusError>,
        |
            #[trigger] force_stage_outcome(
                ar,
                b,
                system,
                o,
                bounds,
                kind,
                fresh,
                solvers,
                found,
            ) implies force_stage_outcome(
            ar,
            b,
            system,
            p,
            bounds,
            kind,
            fresh,
            solvers,
            found,
        ) by {
            lemma_same_force_stage(
                o,
                p,
                ar,
                b,
                system,
                bounds,
                kind,
                fresh,
                solvers,
                found,
            );
        }
    }
    assert forall|system: EquilibriumSystem, q_bounds: BoxBounds|
        {
            &&& same_choice(o, p, ar, system.lengths@, q_bounds)
            &&& boxed_inverse(ar, b, problem, target, o, system, q_bounds, r)
        } implies #[trigger] boxed_inverse(ar, b, problem, target, p, system, q_bounds, r) by {
        assert forall|lengths: Seq<Real>, bounds: Result<BoxBounds, TheseusError>|
            #[trigger] stage1_box(ar, o, lengths, q_bounds, bounds) implies stage1_box(
            ar,
            p,
            lengths,
            q_bounds,
            bounds,
        ) by {
        }
    }
    assert forall|system: EquilibriumSystem|
        {
            &&& assembly_outcome(
                ar,
                problem,
                target,
                stage1_unknown(o.solve_for_q),
                axes_of(problem, o),
                Ok(system),
            )
            &&& system_inverse(ar, b, problem, target, o, system, r)
        } implies #[trigger] system_inverse(ar, b, problem, target, p, system, r) by {
        let q_bounds = choose|q_bounds: Result<BoxBounds, TheseusError>|
            {
                &&& #[trigger] composed(
                    problem.topology.num_edges,
                    o.signs@,
                    o.lower@,
                    o.upper@,
                    q_bounds,
                )
                &&& match q_bounds {
                    Err(e) => r == Err::<InverseFdmResult, _>(e),
                    Ok(x) => boxed_inverse(ar, b, problem, target, o, system, x, r),
                }
            };
        assert(composed(
            problem.topology.num_edges,
            p.signs@,
            p.lower@,
            p.upper@,
            q_bounds,
        ));
        if q_bounds is Ok {
            assert(boxed_inverse(ar, b, problem, target, p, system, q_bounds->Ok_0, r));
        }
    }
    if !o.regularization.below(Real { bits: ZERO }) && admissible(o) {
        let system = choose|system: Result<EquilibriumSystem, TheseusError>|
            {
                &&& #[trigger] assembly_outcome(
                    ar,
                    problem,
                    target,
                    stage1_unknown(o.solve_for_q),
                    axes_of(problem, o),
                    system,
                )
                &&& match system {
                    Err(e) => r == Err::<InverseFdmResult, _>(e),
                    Ok(s) => system_inverse(ar, b, problem, target, o, s, r),
                }
            };
        assert(assembly_outcome(
            ar,
            problem,
            target,
            stage1_unknown(p.solve_for_q),
            axes_of(problem, p),
            system,
        ));
        if system is Ok {
            assert(system_inverse(ar, b, problem, target, p, system->Ok_0, r));
        }
    }
}

/// Options that ask for the same solve find the same.
pub proof fn same_solves_find_the_same<A: Arithmetic, B: Backend>(
    o: InverseFdmOptions,
    p: InverseFdmOptions,
    ar: A,
    b: B,
    problem: Problem,
    target: Grid,
    r: Result<InverseFdmResult, TheseusError>,
)
    requires
        same_solve(o, p),
        inverse_run(ar, b, problem, target, o, r),
    ensures
        inverse_run(ar, b, problem, target, p, r),
{
    same_choices_find_the_same(o, p, ar, b, problem, target, r);
}

/// An Iterative solve finds the same whichever particular method is selected.
pub proof fn iterative_ignores_the_particular_method<A: Arithmetic, B: Backend>(
    o: InverseFdmOptions,
    method: ParticularMethod,
    ar: A,
    b: B,
    problem: Problem,
    target: Grid,
    r: Result<InverseFdmResult, TheseusError>,
)
    requires
        o.linear_algebra == LinearAlgebra::Iterative,
    ensures
        ({
            let p = InverseFdmOptions { particular_method: method, ..o };
            inverse_run(ar, b, problem, target, o, r) <==> inverse_run(
                ar,
                b,
                problem,
                target,
                p,
                r,
            )
        }),
{
    let p = InverseFdmOptions { particular_method: method, ..o };
    if inverse_run(ar, b, problem, target, o, r) {
        same_solves_find_the_same(o, p, ar, b, problem, target, r);
    }
    if inverse_run(ar, b, problem, target, p, r) {
        same_solves_find_the_same(p, o, ar, b, problem, target, r);
    }
}

/// Whether the unknowns of the first stage have a finite bound: some bound on the force
/// densities is finite, or some bound on the member forces that comes of one.
pub open spec fn bounded<A: Arithmetic>(
    ar: A,
    problem: Problem,
    target: Grid,
    o: InverseFdmOptions,
) -> bool {
    let n = problem.topology.num_edges as nat;
    let lo = composed_lower(n, o.signs@, o.lower@);
    let hi = composed_upper(n, o.signs@, o.upper@);
    let lengths = lengths_of(ar, problem, target);
    exists|e: int|
        #![trigger lo[e]]
        #![trigger hi[e]]
        0 <= e < n && if o.solve_for_q {
            lo[e].finite() || hi[e].finite()
        } else {
            product_of(ar, lo[e], lengths[e]).finite() || product_of(ar, hi[e], lengths[e]).finite()
        }
}

/// A solve with a finite bound, Direct or not, finds the same whichever particular method
/// is selected.
pub proof fn bounded_solves_ignore_the_particular_method<A: Arithmetic, B: Backend>(
    o: InverseFdmOptions,
    method: ParticularMethod,
    ar: A,
    b: B,
    problem: Problem,
    target: Grid,
    r: Result<InverseFdmResult, TheseusError>,
)
    requires
        functional(ar),
        bounded(ar, problem, target, o),
    ensures
        ({
            let p = InverseFdmOptions { particular_method: method, ..o };
            inverse_run(ar, b, problem, target, o, r) <==> inverse_run(
                ar,
                b,
                problem,
                target,
                p,
                r,
            )
        }),
{
    let p = InverseFdmOptions { particular_method: method, ..o };
    let n = problem.topology.num_edges as nat;
    let lo = composed_lower(n, o.signs@, o.lower@);
    let hi = composed_upper(n, o.signs@, o.upper@);
    let lengths = lengths_of(ar, problem, target);
    let e = choose|e: int|
        #![trigger lo[e]]
        #![trigger hi[e]]
        0 <= e < n && if o.solve_for_q {
            lo[e].finite() || hi[e].finite()
        } else {
            product_of(ar, lo[e], lengths[e]).finite() || product_of(ar, hi[e], lengths[e]).finite()
        };
    assert(composed_lower(n, p.signs@, p.lower@)[e] == lo[e]);
    lemma_bounded_choice(o, p, ar, problem, target);
    lemma_bounded_choice(p, o, ar, problem, target);
    if inverse_run(ar, b, problem, target, o, r) {
        same_choices_find_the_same(o, p, ar, b, problem, target, r);
    }
    if inverse_run(ar, b, problem, target, p, r) {
        same_choices_find_the_same(p, o, ar, b, problem, target, r);
    }
}

proof fn lemma_bounded_choice<A: Arithmetic>(
    o: InverseFdmOptions,
    p: InverseFdmOptions,
    ar: A,
    problem: Problem,
    target: Grid,
)
    requires
        functional(ar),
        bounded(ar, problem, target, o),
        same_request(o, p),
    ensures
        same_first_stage(o, p, ar, problem, target),
{
    let n = problem.topology.num_edges as nat;
    let lo = composed_lower(n, o.signs@, o.lower@);
    let hi = composed_upper(n, o.signs@, o.upper@);
    let lengths = lengths_of(ar, problem, target);
    let e = choose|e: int|
        #![trigger lo[e]]
        #![trigger hi[e]]
        0 <= e < n && if o.solve_for_q {
            lo[e].finite() || hi[e].finite()
        } else {
            product_of(ar, lo[e], lengths[e]).finite() || product_of(ar, hi[e], lengths[e]).finite()
        };
    assert forall|system: EquilibriumSystem, q_bounds: BoxBounds|
        {
            &&& #[trigger] assembly_outcome(
                ar,
                problem,
                target,
                stage1_unknown(o.solve_for_q),
                axes_of(problem, o),
                Ok(system),
            )
            &&& #[trigger] composed(
                problem.topology.num_edges,
                o.signs@,
                o.lower@,
                o.upper@,
                Ok(q_bounds),
            )
        } implies same_choice(o, p, ar, system.lengths@, q_bounds) by {
        assert forall|bounds: BoxBounds| #[trigger]
            stage1_box(ar, o, system.lengths@, q_bounds, Ok(bounds)) implies inner_of(
            o,
            bounds.finite_somewhere(),
        ) == inner_of(p, bounds.finite_somewhere()) by {
            if o.solve_for_q {
                assert(bounds.lower@[e] == lo[e] && bounds.upper@[e] == hi[e]);
            } else {
                assert(system.lengths@ == lengths);
                assert(bounds.lower@ == products(ar, q_bounds.lower@, lengths));
                assert(bounds.upper@ == products(ar, q_bounds.upper@, lengths));
                assert(bounds.lower@[e] == product_of(ar, lo[e], lengths[e]));
                assert(bounds.upper@[e] == product_of(ar, hi[e], lengths[e]));
            }
            assert(bounds.finite_somewhere());
        }
    }
}

/// A Newton solve whose budget is all in its first phase finds what the frozen metric
/// finds with that budget.
pub proof fn frozen_newton_is_the_frozen_metric<A: Arithmetic, B: Backend>(
    o: InverseFdmOptions,
    ar: A,
    b: B,
    problem: Problem,
    target: Grid,
    r: Result<InverseFdmResult, TheseusError>,
)
    requires
        o.metric == InverseMetric::GeometryNewton,
        o.max_outer == 0,
    ensures
        ({
            let p = InverseFdmOptions {
                metric: InverseMetric::Geometry,
                max_outer: o.max_frozen_outer,
                max_frozen_outer: 0,
                ..o
            };
            inverse_run(ar, b, problem, target, o, r) <==> inverse_run(
                ar,
                b,
                problem,
                target,
                p,
                r,
            )
        }),
{
    let p = InverseFdmOptions {
        metric: InverseMetric::Geometry,
        max_outer: o.max_frozen_outer,
        max_frozen_outer: 0,
        ..o
    };
    if inverse_run(ar, b, problem, target, o, r) {
        same_solves_find_the_same(o, p, ar, b, problem, target, r);
    }
    if inverse_run(ar, b, problem, target, p, r) {
        same_solves_find_the_same(p, o, ar, b, problem, target, r);
    }
}

/// Whether `q` can be the force densities that the first stage of a solve finds, in the
/// box `q_bounds`, with this solution.
pub open spec fn found_first<A: Arithmetic, B: Backend>(
    ar: A,
    b: B,
    problem: Problem,
    target: Grid,
    opts: InverseFdmOptions,
    q_bounds: BoxBounds,
    stage1: InnerSolution,
    q: Seq<Real>,
) -> bool {
    exists|
        system: EquilibriumSystem,
        bounds: BoxBounds,
        fresh: InnerSolver<B>,
        solvers: InnerSolver<B>,
    |
        {
            &&& assembly_outcome(
                ar,
                problem,
                target,
                stage1_unknown(opts.solve_for_q),
                axes_of(problem, opts),
                Ok(system),
            )
            &&& composed(
                problem.topology.num_edges,
                opts.signs@,
                opts.lower@,
                opts.upper@,
                Ok(q_bounds),
            )
            &&& stage1_box(ar, opts, system.lengths@, q_bounds, Ok(bounds))
            &&& fresh.is_fresh()
            &&& #[trigger] force_stage_outcome(
                ar,
                b,
                system,
                opts,
                bounds,
                inner_of(opts, bounds.finite_somewhere()),
                fresh,
                solvers,
                Ok(stage1),
            )
            &&& q == if opts.solve_for_q {
                stage1.x@
            } else {
                quotients(ar, stage1.x@, system.lengths@)
            }
        }
}

proof fn lemma_clipped_stays(bounds: BoxBounds, x: Seq<Real>)
    requires
        bounds.lower@.len() == bounds.upper@.len(),
        forall|i: int|
            0 <= i < bounds.lower@.len() ==> !bounds.upper@[i].below(#[trigger] bounds.lower@[i]),
        x.len() == bounds.lower@.len(),
    ensures
        bounds.clipped(bounds.clipped(x)) == bounds.clipped(x),
{
    let y = bounds.clipped(x);
    assert forall|i: int| 0 <= i < y.len() implies bounds.clipped(y)[i] == #[trigger] y[i] by {
        assert(!bounds.upper@[i].below(bounds.lower@[i]));
    }
    assert(bounds.clipped(y) =~= y);
}

proof fn lemma_rounds_stay_in_the_box<A: Arithmetic, B: Backend>(
    ar: A,
    b: B,
    system: EquilibriumSystem,
    opts: InverseFdmOptions,
    bounds: BoxBounds,
    kind: InnerKind,
    first: Reweighted<B>,
    k: nat,
    s: Reweighted<B>,
)
    requires
        rounds_reach(ar, b, system, opts, bounds, kind, first, k, s),
        exists|x: Seq<Real>| first.x == #[trigger] bounds.clipped(x),
    ensures
        exists|x: Seq<Real>| s.x == #[trigger] bounds.clipped(x),
    decreases k,
{
    if k > 0 {
        let before = choose|before: Reweighted<B>|
            {
                &&& rounds_reach(ar, b, system, opts, bounds, kind, first, (k - 1) as nat, before)
                &&& !before.finished
                &&& #[trigger] round_outcome(ar, b, system, opts, bounds, kind, before, Ok(s))
            };
        lemma_rounds_stay_in_the_box(
            ar,
            b,
            system,
            opts,
            bounds,
            kind,
            first,
            (k - 1) as nat,
            before,
        );
    }
}

proof fn lemma_first_stage_stays_in_the_box<A: Arithmetic, B: Backend>(
    ar: A,
    b: B,
    system: EquilibriumSystem,
    opts: InverseFdmOptions,
    bounds: BoxBounds,
    kind: InnerKind,
    before: InnerSolver<B>,
    after: InnerSolver<B>,
    stage1: InnerSolution,
)
    requires
        bounds.lower@.len() == system.n_edges,
        bounds.upper@.len() == system.n_edges,
        forall|i: int|
            0 <= i < bounds.lower@.len() ==> !bounds.upper@[i].below(#[trigger] bounds.lower@[i]),
        force_stage_outcome(ar, b, system, opts, bounds, kind, before, after, Ok(stage1)),
    ensures
        stage1.x@.len() == system.n_edges,
        bounds.clipped(stage1.x@) == stage1.x@,
{
    let (middle, found) = choose|
        middle: InnerSolver<B>,
        found: Result<InnerSolution, TheseusError>,
    |
        {
            &&& #[trigger] inner_outcome(
                ar,
                b,
                opts,
                kind,
                system.a,
                system.p@,
                opts.regularization,
                start_in(bounds),
                bounds,
                None,
                false,
                before,
                middle,
                found,
            )
            &&& found is Ok
            &&& if opts.use_l2 {
                after == middle && stage_ends(
                    bounds.clipped(found->Ok_0.x@),
                    found->Ok_0.iterations as nat,
                    found->Ok_0.converged,
                    system.n_edges as nat,
                    Ok(stage1),
                )
            } else {
                reweighted_outcome(
                    ar,
                    b,
                    system,
                    opts,
                    bounds,
                    kind,
                    unweighted_start(bounds, found->Ok_0, middle),
                    after,
                    Ok(stage1),
                )
            }
        };
    let f = found->Ok_0;
    if !opts.use_l2 {
        let first = unweighted_start(bounds, f, middle);
        assert(first.x == bounds.clipped(f.x@));
        let (k, s) = choose|k: nat, s: Reweighted<B>|
            {
                &&& #[trigger] rounds_reach(ar, b, system, opts, bounds, kind, first, k, s)
                &&& s.x == stage1.x@
                &&& s.x.len() == system.n_edges
            };
        lemma_rounds_stay_in_the_box(ar, b, system, opts, bounds, kind, first, k, s);
    }
    let x = choose|x: Seq<Real>| stage1.x@ == #[trigger] bounds.clipped(x);
    lemma_clipped_stays(bounds, x);
}

/// A solve by the force metric returns what its first stage finds.
pub proof fn force_solves_return_the_first_stage<A: Arithmetic, B: Backend>(
    o: InverseFdmOptions,
    ar: A,
    b: B,
    problem: Problem,
    target: Grid,
    force: InverseFdmResult,
)
    requires
        o.metric == InverseMetric::Force,
        inverse_run(ar, b, problem, target, o, Ok(force)),
    ensures
        exists|q_bounds: BoxBounds, stage1: InnerSolution|
            {
                &&& #[trigger] found_first(
                    ar,
                    b,
                    problem,
                    target,
                    o,
                    q_bounds,
                    stage1,
                    force.q@,
                )
                &&& force.iterations == stage1.iterations
                &&& force.converged == stage1.converged
            },
{
    let (system, q_bounds, bounds, fresh, solvers, stage1) = lemma_first_stage_of(
        o,
        ar,
        b,
        problem,
        target,
        force,
    );
    assert(found_first(ar, b, problem, target, o, q_bounds, stage1, force.q@));
}

pub(crate) proof fn lemma_first_stage_of<A: Arithmetic, B: Backend>(
    o: InverseFdmOptions,
    ar: A,
    b: B,
    problem: Problem,
    target: Grid,
    found: InverseFdmResult,
) -> (w: (
    EquilibriumSystem,
    BoxBounds,
    BoxBounds,
    InnerSolver<B>,
    InnerSolver<B>,
    InnerSolution,
))
    requires
        inverse_run(ar, b, problem, target, o, Ok(found)),
    ensures
        !o.regularization.below(Real { bits: ZERO }),
        admissible(o),
        assembly_outcome(
            ar,
            problem,
            target,
            stage1_unknown(o.solve_for_q),
            axes_of(problem, o),
            Ok(w.0),
        ),
        composed(problem.topology.num_edges, o.signs@, o.lower@, o.upper@, Ok(w.1)),
        stage1_box(ar, o, w.0.lengths@, w.1, Ok(w.2)),
        w.3.is_fresh(),
        force_stage_outcome(
            ar,
            b,
            w.0,
            o,
            w.2,
            inner_of(o, w.2.finite_somewhere()),
            w.3,
            w.4,
            Ok(w.5),
        ),
        second_stage(ar, b, problem, target, o, w.0.lengths@, w.1, w.5, w.4, Ok(found)),
{
    let system = choose|system: EquilibriumSystem|
        {
            &&& #[trigger] assembly_outcome(
                ar,
                problem,
                target,
                stage1_unknown(o.solve_for_q),
                axes_of(problem, o),
                Ok(system),
            )
            &&& system_inverse(ar, b, problem, target, o, system, Ok(found))
        };
    let q_bounds = choose|q_bounds: BoxBounds|
        {
            &&& #[trigger] composed(
                problem.topology.num_edges,
                o.signs@,
                o.lower@,
                o.upper@,
                Ok(q_bounds),
            )
            &&& boxed_inverse(ar, b, problem, target, o, system, q_bounds, Ok(found))
        };
    let bounds = choose|bounds: BoxBounds|
        {
            &&& #[trigger] stage1_box(ar, o, system.lengths@, q_bounds, Ok(bounds))
            &&& first_stage(ar, b, problem, target, o, system, q_bounds, bounds, Ok(found))
        };
    let (fresh, solvers, stage1) = choose|
        fresh: InnerSolver<B>,
        solvers: InnerSolver<B>,
        stage1: InnerSolution,
    |
        {
            &&& fresh.is_fresh()
            &&& #[trigger] force_stage_outcome(
                ar,
                b,
                system,
                o,
                bounds,
                inner_of(o, bounds.finite_somewhere()),
                fresh,
                solvers,
                Ok(stage1),
            )
            &&& second_stage(
                ar,
                b,
                problem,
                target,
                o,
                system.lengths@,
                q_bounds,
                stage1,
                solvers,
                Ok(found),
            )
        };
    (system, q_bounds, bounds, fresh, solvers, stage1)
}

/// A geometric solve without budgets or reference returns, after no iteration, what the
/// first stage of the same solve by the force metric finds, clipped to the box of force
/// densities.  Where force densities are the unknowns, clipping changes nothing.  Where it
/// changes nothing, the solve by the force metric can return these force densities, with
/// the same geometric error.
pub proof fn zero_budgets_return_the_first_stage<A: Arithmetic, B: Backend>(
    o: InverseFdmOptions,
    ar: A,
    b: B,
    problem: Problem,
    target: Grid,
    found: InverseFdmResult,
)
    requires
        o.metric != InverseMetric::Force,
        budgets(o) == (0nat, 0nat),
        o.q_ref@.len() == 0,
        inverse_run(ar, b, problem, target, o, Ok(found)),
    ensures
        found.iterations == 0,
        ({
            let f = InverseFdmOptions { metric: InverseMetric::Force, ..o };
            exists|q_bounds: BoxBounds, stage1: InnerSolution, q: Seq<Real>|
                {
                    &&& #[trigger] found_first(ar, b, problem, target, f, q_bounds, stage1, q)
                    &&& found.q@ == q_bounds.clipped(q)
                    &&& o.solve_for_q ==> found.q@ == q
                    &&& found.q@ == q ==> inverse_run(
                        ar,
                        b,
                        problem,
                        target,
                        f,
                        Ok(
                            (InverseFdmResult {
                                iterations: stage1.iterations,
                                converged: stage1.converged,
                                ..found
                            }),
                        ),
                    )
                }
        }),
{
    let f = InverseFdmOptions { metric: InverseMetric::Force, ..o };
    let (system, q_bounds, bounds, fresh, solvers, stage1) = lemma_first_stage_of(
        o,
        ar,
        b,
        problem,
        target,
        found,
    );
    let kind = inner_of(f, bounds.finite_somewhere());
    assert(kind == inner_of(o, bounds.finite_somewhere()));
    lemma_same_force_stage(o, f, ar, b, system, bounds, kind, fresh, solvers, Ok(stage1));
    assert(axes_of(problem, o) == axes_of(problem, f));
    let q = if o.solve_for_q {
        stage1.x@
    } else {
        quotients(ar, stage1.x@, system.lengths@)
    };
    assert(stage1_box(ar, f, system.lengths@, q_bounds, Ok(bounds)));
    assert(found_first(ar, b, problem, target, f, q_bounds, stage1, q));
    let s = choose|s: EquilibriumSystem|
        {
            &&& #[trigger] assembly_outcome(
                ar,
                problem,
                target,
                EquilibriumUnknown::ForceDensity,
                axes_of(problem, o),
                Ok(s),
            )
            &&& geometric_stage_outcome(ar, b, problem, s, o, q_bounds, q, solvers, Ok(found))
        };
    let probe = lemma_zero_budgets(o, ar, b, problem, s, q_bounds, q, solvers, found);
    if o.solve_for_q {
        lemma_first_stage_stays_in_the_box(
            ar,
            b,
            system,
            f,
            bounds,
            kind,
            fresh,
            solvers,
            stage1,
        );
        assert(q_bounds.clipped(q) =~= bounds.clipped(q));
    }
    if found.q@ == q {
        let force = InverseFdmResult {
            iterations: stage1.iterations,
            converged: stage1.converged,
            ..found
        };
        let told: Result<GeometryProbe<B>, TheseusError> = Ok(probe);
        assert(probed(ar, b, problem, s, q, told));
        assert(error_told(told) == force.geometric_error);
        assert(error_reported(ar, b, problem, Ok(s), q, force.geometric_error));
        assert(force_reported(ar, b, problem, Ok(s), q, stage1, Ok(force)));
        assert(assembly_outcome(
            ar,
            problem,
            target,
            EquilibriumUnknown::ForceDensity,
            axes_of(problem, f),
            Ok(s),
        ));
        assert(second_stage(
            ar,
            b,
            problem,
            target,
            f,
            system.lengths@,
            q_bounds,
            stage1,
            solvers,
            Ok(force),
        ));
        assert(first_stage(ar, b, problem, target, f, system, q_bounds, bounds, Ok(force)));
        assert(boxed_inverse(ar, b, problem, target, f, system, q_bounds, Ok(force)));
        assert(system_inverse(ar, b, problem, target, f, system, Ok(force)));
        assert(assembly_outcome(
            ar,
            problem,
            target,
            stage1_unknown(f.solve_for_q),
            axes_of(problem, f),
            Ok(system),
        ));
        assert(inverse_run(ar, b, problem, target, f, Ok(force)));
    }
}

proof fn lemma_zero_budgets<A: Arithmetic, B: Backend>(
    o: InverseFdmOptions,
    ar: A,
    b: B,
    problem: Problem,
    system: EquilibriumSystem,
    bounds: BoxBounds,
    q: Seq<Real>,
    before: InnerSolver<B>,
    found: InverseFdmResult,
) -> (probe: GeometryProbe<B>)
    requires
        budgets(o) == (0nat, 0nat),
        o.q_ref@.len() == 0,
        geometric_stage_outcome(ar, b, problem, system, o, bounds, q, before, Ok(found)),
    ensures
        found.q@ == bounds.clipped(q),
        found.iterations == 0,
        found.geometric_error == probe.error,
        probed(ar, b, problem, system, bounds.clipped(q), Ok(probe)),
{
    let kind = stage2_inner_of(o, bounds.finite_somewhere());
    let after = choose|after: InnerSolver<B>| #[trigger]
        descent_outcome(
            ar,
            b,
            problem,
            system,
            o,
            InverseMetric::Geometry,
            0,
            bounds,
            q,
            kind,
            before,
            after,
            Ok(found),
        );
    let x = bounds.clipped(q);
    choose|probe: GeometryProbe<B>|
        {
            &&& #[trigger] probed(ar, b, problem, system, x, Ok(probe))
            &&& if probe.error.at_most(geometric_tolerance(o)) {
                after == before && stays(x, probe.error, Ok(found))
            } else {
                descent_run(
                    ar,
                    b,
                    problem,
                    system,
                    o,
                    InverseMetric::Geometry,
                    0,
                    bounds,
                    kind,
                    descent_start(x, probe, before),
                    after,
                    Ok(found),
                )
            }
        }
}

} // verus!
