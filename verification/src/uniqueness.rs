//! With an arithmetic and a backend that answer the same question in the same way, an
//! inverse solve has one answer.

use crate::arithmetic::{functional, Arithmetic};
use crate::array::Grid;
use crate::backend::Backend;
use crate::bounds::{
    clipping_keeps_the_box, composed, force_box_outcome, ordered_outcome, shifted, start_in,
    BoxBounds,
};
use crate::direct::{gram_indexable, gram_matrix};
use crate::double::{Real, ZERO};
use crate::equilibrium::{
    assembly_outcome, describes, lengths_of, undescribed, vanishing, EquilibriumSystem,
    EquilibriumUnknown,
};
use crate::error::{Source, TheseusError};
use crate::force_stage::{
    axes_of, force_stage_outcome, reweighted_outcome, round_outcome, rounds_of, rounds_reach,
    stage_ends, unweighted_start, Reweighted,
};
use crate::geometric_stage::{
    boxed_step, budgets, descent_ends, descent_outcome, descent_reaches, descent_run, descent_start,
    descent_step, geometric_stage_outcome, measured, moved_along, newton_phase, phases_joined,
    probed, seed_of, standstill, stays, step_ends, step_outcome, step_solved, system_at_found,
    Descent,
};
use crate::geometry::{
    backtracked, candidate_at, found_positions, geometric_complaint, geometric_tolerance, measures,
    no_better, reduction, step_converged, turned_down, unmeasurable, unmeasured, GeometryProbe,
    InverseFdmResult, Measured, MAX_BACKTRACK,
};
use crate::inner::{inner_outcome, InnerSolution, InnerSolver};
use crate::inverse::{
    admissible, boxed_inverse, error_reported, error_told, first_stage, force_reported,
    inverse_outcome, inverse_run, second_stage, stage1_box, stage1_unknown, system_inverse,
};
use crate::irls::{effective_regularization, largest_weight, magnitudes, settled, weight_roots};
use crate::likeness::{
    bounded, bounded_solves_ignore_the_particular_method, force_solves_return_the_first_stage,
    found_first, iterative_ignores_the_particular_method, lemma_first_stage_of,
    zero_budgets_return_the_first_stage,
};
use crate::options::{
    inner_of, stage2_inner_of, InnerKind, InverseFdmOptions, InverseMetric, LinearAlgebra,
    ParticularMethod,
};
use crate::pseudoinverse::{
    by_gram, by_l1_gram, gram_reply, l1_gram_reply, particular, particular_answer,
};
use crate::sparse::SparseColMatOwned;
use crate::steady::{
    alike, alike_solutions, lemma_gram_solved, lemma_inverse_applied, lemma_weighable, lemma_weighs,
    same_box, same_reply, same_weight, solvers_have_one_answer, steady,
};
use crate::types::Problem;
use crate::vector::{less, negatives, products, quotients};
use crate::weight::{inverse_applied, MetricWeight};
use vstd::prelude::*;

verus! {

/// Whether two systems are the same.
pub open spec fn same_system(s: EquilibriumSystem, t: EquilibriumSystem) -> bool {
    &&& s.a@ == t.a@
    &&& s.p@ == t.p@
    &&& s.lengths@ == t.lengths@
    &&& s.n_eq == t.n_eq
    &&& s.n_edges == t.n_edges
    &&& s.free_positions@ == t.free_positions@
    &&& s.n_free == t.n_free
}

/// Whether two replies hold the same system, or both are errors.
pub open spec fn alike_systems(
    r: Result<EquilibriumSystem, TheseusError>,
    s: Result<EquilibriumSystem, TheseusError>,
) -> bool {
    match (r, s) {
        (Ok(x), Ok(y)) => same_system(x, y),
        (Err(_), Err(_)) => true,
        _ => false,
    }
}

/// Whether two replies hold the same box, or both are errors.
pub open spec fn alike_boxes(
    r: Result<BoxBounds, TheseusError>,
    s: Result<BoxBounds, TheseusError>,
) -> bool {
    match (r, s) {
        (Ok(x), Ok(y)) => same_box(x, y),
        (Err(_), Err(_)) => true,
        _ => false,
    }
}

/// In a steady arithmetic a problem has one equilibrium system at a target.
pub proof fn systems_are_unique<A: Arithmetic>(
    ar: A,
    problem: Problem,
    target: Grid,
    unknown: EquilibriumUnknown,
    axes: Seq<int>,
    r: Result<EquilibriumSystem, TheseusError>,
    s: Result<EquilibriumSystem, TheseusError>,
)
    requires
        functional(ar),
        assembly_outcome(ar, problem, target, unknown, axes, r),
        assembly_outcome(ar, problem, target, unknown, axes, s),
    ensures
        alike_systems(r, s),
{
    if r is Ok && s is Err {
        lemma_described(ar, problem, target, unknown, axes, r->Ok_0, s->Err_0);
    }
    if s is Ok && r is Err {
        lemma_described(ar, problem, target, unknown, axes, s->Ok_0, r->Err_0);
    }
}

pub(crate) proof fn lemma_described<A: Arithmetic>(
    ar: A,
    problem: Problem,
    target: Grid,
    unknown: EquilibriumUnknown,
    axes: Seq<int>,
    s: EquilibriumSystem,
    e: TheseusError,
)
    requires
        functional(ar),
        describes(s, ar, problem, target, unknown, axes),
    ensures
        !undescribed(e, ar, problem, target, axes),
{
    assert forall|k: int| 0 <= k < problem.topology.num_edges implies !vanishing(
        #[trigger] lengths_of(ar, problem, target)[k],
    ) by {
        assert(!vanishing(s.lengths@[k]));
    }
}

proof fn lemma_same_clipped(x: BoxBounds, y: BoxBounds)
    requires
        same_box(x, y),
    ensures
        forall|q: Seq<Real>| #[trigger] x.clipped(q) == y.clipped(q),
        start_in(x) == start_in(y),
        x.finite_somewhere() == y.finite_somewhere(),
{
    assert forall|q: Seq<Real>| #[trigger] x.clipped(q) == y.clipped(q) by {
        assert(x.clipped(q) =~= y.clipped(q));
    }
    assert(start_in(x) =~= start_in(y));
}

proof fn lemma_ordered(x: BoxBounds, y: BoxBounds, r: Result<BoxBounds, TheseusError>, s: Result<
    BoxBounds,
    TheseusError,
>)
    requires
        same_box(x, y),
        ordered_outcome(x, r),
        ordered_outcome(y, s),
    ensures
        alike_boxes(r, s),
{
}

proof fn lemma_composed(
    n: usize,
    signs: Seq<i32>,
    lower: Seq<Real>,
    upper: Seq<Real>,
    r: Result<BoxBounds, TheseusError>,
    s: Result<BoxBounds, TheseusError>,
)
    requires
        composed(n, signs, lower, upper, r),
        composed(n, signs, lower, upper, s),
    ensures
        alike_boxes(r, s),
{
}

proof fn lemma_force_box<A: Arithmetic>(
    ar: A,
    x: BoxBounds,
    y: BoxBounds,
    lengths: Seq<Real>,
    r: Result<BoxBounds, TheseusError>,
    s: Result<BoxBounds, TheseusError>,
)
    requires
        functional(ar),
        same_box(x, y),
        force_box_outcome(ar, x, lengths, r),
        force_box_outcome(ar, y, lengths, s),
    ensures
        alike_boxes(r, s),
{
}

proof fn lemma_stage1_box<A: Arithmetic>(
    ar: A,
    opts: InverseFdmOptions,
    lengths: Seq<Real>,
    x: BoxBounds,
    y: BoxBounds,
    r: Result<BoxBounds, TheseusError>,
    s: Result<BoxBounds, TheseusError>,
)
    requires
        functional(ar),
        same_box(x, y),
        stage1_box(ar, opts, lengths, x, r),
        stage1_box(ar, opts, lengths, y, s),
    ensures
        alike_boxes(r, s),
{
    if !opts.solve_for_q {
        let u = choose|u: Result<BoxBounds, TheseusError>|
            {
                &&& #[trigger] force_box_outcome(ar, x, lengths, u)
                &&& u is Err ==> r is Err
                &&& u is Ok ==> ordered_outcome(u->Ok_0, r)
            };
        let v = choose|v: Result<BoxBounds, TheseusError>|
            {
                &&& #[trigger] force_box_outcome(ar, y, lengths, v)
                &&& v is Err ==> s is Err
                &&& v is Ok ==> ordered_outcome(v->Ok_0, s)
            };
        lemma_force_box(ar, x, y, lengths, u, v);
        if u is Ok {
            lemma_ordered(u->Ok_0, v->Ok_0, r, s);
        }
    }
}

proof fn lemma_round<A: Arithmetic, B: Backend>(
    ar: A,
    b: B,
    system1: EquilibriumSystem,
    system2: EquilibriumSystem,
    opts: InverseFdmOptions,
    x: BoxBounds,
    y: BoxBounds,
    kind: InnerKind,
    at: Reweighted<B>,
    r: Result<Reweighted<B>, TheseusError>,
    s: Result<Reweighted<B>, TheseusError>,
)
    requires
        functional(ar),
        steady(b),
        same_system(system1, system2),
        same_box(x, y),
        round_outcome(ar, b, system1, opts, x, kind, at, r),
        round_outcome(ar, b, system2, opts, y, kind, at, s),
    ensures
        same_reply(r, s),
{
    lemma_same_clipped(x, y);
    let res = less(ar, system1.a@.applied(ar, at.x), system1.p@);
    let objective = magnitudes(ar, res, res.len() as int);
    if !settled(ar, at.previous, objective) {
        let rhs = products(ar, weight_roots(ar, res), system1.p@);
        let w = effective_regularization(ar, opts.regularization, largest_weight(ar, res));
        let scaled = system1.a@.row_scaled(ar, weight_roots(ar, res));
        let (m, after1, u) = choose|
            m: SparseColMatOwned,
            after: InnerSolver<B>,
            u: Result<InnerSolution, TheseusError>,
        |
            {
                &&& m@ == scaled
                &&& #[trigger] inner_outcome(
                    ar,
                    b,
                    opts,
                    kind,
                    m,
                    rhs,
                    w,
                    at.x,
                    x,
                    None,
                    false,
                    at.solvers,
                    after,
                    u,
                )
                &&& u is Err ==> r is Err
                &&& u is Ok ==> r == Ok::<_, TheseusError>(
                    round_ends(x, at, objective, u->Ok_0, after),
                )
            };
        let (n, after2, v) = choose|
            m: SparseColMatOwned,
            after: InnerSolver<B>,
            u: Result<InnerSolution, TheseusError>,
        |
            {
                &&& m@ == scaled
                &&& #[trigger] inner_outcome(
                    ar,
                    b,
                    opts,
                    kind,
                    m,
                    rhs,
                    w,
                    at.x,
                    y,
                    None,
                    false,
                    at.solvers,
                    after,
                    u,
                )
                &&& u is Err ==> s is Err
                &&& u is Ok ==> s == Ok::<_, TheseusError>(
                    round_ends(y, at, objective, u->Ok_0, after),
                )
            };
        solvers_have_one_answer(
            ar,
            b,
            opts,
            kind,
            m,
            n,
            rhs,
            w,
            at.x,
            x,
            y,
            None,
            None,
            false,
            at.solvers,
            after1,
            after2,
            u,
            v,
        );
    }
}

/// Where reweighting stands after a round that found this.
spec fn round_ends<B: Backend>(
    bounds: BoxBounds,
    at: Reweighted<B>,
    objective: Real,
    found: InnerSolution,
    after: InnerSolver<B>,
) -> Reweighted<B> {
    Reweighted {
        x: bounds.clipped(found.x@),
        rounds: at.rounds + 1,
        converged: found.converged,
        finished: false,
        previous: objective,
        solvers: after,
    }
}

proof fn lemma_rounds<A: Arithmetic, B: Backend>(
    ar: A,
    b: B,
    system1: EquilibriumSystem,
    system2: EquilibriumSystem,
    opts: InverseFdmOptions,
    x: BoxBounds,
    y: BoxBounds,
    kind: InnerKind,
    first: Reweighted<B>,
    j: nat,
    k: nat,
    s: Reweighted<B>,
    t: Reweighted<B>,
)
    requires
        functional(ar),
        steady(b),
        same_system(system1, system2),
        same_box(x, y),
        j <= k,
        rounds_reach(ar, b, system1, opts, x, kind, first, j, s),
        rounds_reach(ar, b, system2, opts, y, kind, first, k, t),
    ensures
        j == k ==> s == t,
        j < k ==> !s.finished && exists|next: Reweighted<B>| #[trigger]
            round_outcome(ar, b, system2, opts, y, kind, s, Ok(next)),
    decreases k,
{
    if k > 0 {
        let before = choose|before: Reweighted<B>|
            {
                &&& rounds_reach(ar, b, system2, opts, y, kind, first, (k - 1) as nat, before)
                &&& !before.finished
                &&& #[trigger] round_outcome(ar, b, system2, opts, y, kind, before, Ok(t))
            };
        if j < k {
            lemma_rounds(
                ar,
                b,
                system1,
                system2,
                opts,
                x,
                y,
                kind,
                first,
                j,
                (k - 1) as nat,
                s,
                before,
            );
        } else {
            let earlier = choose|earlier: Reweighted<B>|
                {
                    &&& rounds_reach(ar, b, system1, opts, x, kind, first, (j - 1) as nat, earlier)
                    &&& !earlier.finished
                    &&& #[trigger] round_outcome(ar, b, system1, opts, x, kind, earlier, Ok(s))
                };
            lemma_rounds(
                ar,
                b,
                system1,
                system2,
                opts,
                x,
                y,
                kind,
                first,
                (j - 1) as nat,
                (k - 1) as nat,
                earlier,
                before,
            );
            lemma_round(ar, b, system1, system2, opts, x, y, kind, before, Ok(s), Ok(t));
        }
    }
}

proof fn lemma_stage_ends(
    x: Seq<Real>,
    iterations: nat,
    converged: bool,
    n: nat,
    r: Result<InnerSolution, TheseusError>,
    s: Result<InnerSolution, TheseusError>,
)
    requires
        stage_ends(x, iterations, converged, n, r),
        stage_ends(x, iterations, converged, n, s),
    ensures
        alike_solutions(r, s),
{
}

proof fn lemma_reweighted<A: Arithmetic, B: Backend>(
    ar: A,
    b: B,
    system1: EquilibriumSystem,
    system2: EquilibriumSystem,
    opts: InverseFdmOptions,
    x: BoxBounds,
    y: BoxBounds,
    kind: InnerKind,
    first: Reweighted<B>,
    after1: InnerSolver<B>,
    after2: InnerSolver<B>,
    r: Result<InnerSolution, TheseusError>,
    s: Result<InnerSolution, TheseusError>,
)
    requires
        functional(ar),
        steady(b),
        same_system(system1, system2),
        same_box(x, y),
        reweighted_outcome(ar, b, system1, opts, x, kind, first, after1, r),
        reweighted_outcome(ar, b, system2, opts, y, kind, first, after2, s),
    ensures
        alike_solutions(r, s),
        r is Ok ==> after1 == after2,
{
    let n = system1.n_edges as nat;
    let (j, u) = choose|k: nat, t: Reweighted<B>|
        {
            &&& #[trigger] rounds_reach(ar, b, system1, opts, x, kind, first, k, t)
            &&& k <= rounds_of(opts)
            &&& if k == rounds_of(opts) || t.finished {
                after1 == t.solvers && stage_ends(t.x, t.rounds, t.converged, n, r)
            } else {
                r is Err && round_outcome(ar, b, system1, opts, x, kind, t, Err(r->Err_0))
            }
        };
    let (k, v) = choose|k: nat, t: Reweighted<B>|
        {
            &&& #[trigger] rounds_reach(ar, b, system2, opts, y, kind, first, k, t)
            &&& k <= rounds_of(opts)
            &&& if k == rounds_of(opts) || t.finished {
                after2 == t.solvers && stage_ends(t.x, t.rounds, t.converged, n, s)
            } else {
                s is Err && round_outcome(ar, b, system2, opts, y, kind, t, Err(s->Err_0))
            }
        };
    if j <= k {
        lemma_rounds(ar, b, system1, system2, opts, x, y, kind, first, j, k, u, v);
        if j < k {
            let next = choose|next: Reweighted<B>| #[trigger]
                round_outcome(ar, b, system2, opts, y, kind, u, Ok(next));
            lemma_round(
                ar,
                b,
                system1,
                system2,
                opts,
                x,
                y,
                kind,
                u,
                Err(r->Err_0),
                Ok(next),
            );
        } else if k == rounds_of(opts) || u.finished {
            lemma_stage_ends(u.x, u.rounds, u.converged, n, r, s);
        }
    } else {
        lemma_rounds(ar, b, system2, system1, opts, y, x, kind, first, k, j, v, u);
        let next = choose|next: Reweighted<B>| #[trigger]
            round_outcome(ar, b, system1, opts, x, kind, v, Ok(next));
        lemma_round(ar, b, system2, system1, opts, y, x, kind, v, Err(s->Err_0), Ok(next));
    }
}

proof fn lemma_force_stage<A: Arithmetic, B: Backend>(
    ar: A,
    b: B,
    system1: EquilibriumSystem,
    system2: EquilibriumSystem,
    opts: InverseFdmOptions,
    x: BoxBounds,
    y: BoxBounds,
    kind: InnerKind,
    before: InnerSolver<B>,
    after1: InnerSolver<B>,
    after2: InnerSolver<B>,
    r: Result<InnerSolution, TheseusError>,
    s: Result<InnerSolution, TheseusError>,
)
    requires
        functional(ar),
        steady(b),
        same_system(system1, system2),
        same_box(x, y),
        force_stage_outcome(ar, b, system1, opts, x, kind, before, after1, r),
        force_stage_outcome(ar, b, system2, opts, y, kind, before, after2, s),
    ensures
        alike_solutions(r, s),
        r is Ok ==> after1 == after2,
{
    lemma_same_clipped(x, y);
    let n = system1.n_edges as nat;
    let (middle1, u) = choose|middle: InnerSolver<B>, u: Result<InnerSolution, TheseusError>|
        {
            &&& #[trigger] inner_outcome(
                ar,
                b,
                opts,
                kind,
                system1.a,
                system1.p@,
                opts.regularization,
                start_in(x),
                x,
                None,
                false,
                before,
                middle,
                u,
            )
            &&& u is Err ==> r is Err
            &&& u is Ok && opts.use_l2 ==> after1 == middle && stage_ends(
                x.clipped(u->Ok_0.x@),
                u->Ok_0.iterations as nat,
                u->Ok_0.converged,
                n,
                r,
            )
            &&& u is Ok && !opts.use_l2 ==> reweighted_outcome(
                ar,
                b,
                system1,
                opts,
                x,
                kind,
                unweighted_start(x, u->Ok_0, middle),
                after1,
                r,
            )
        };
    let (middle2, v) = choose|middle: InnerSolver<B>, u: Result<InnerSolution, TheseusError>|
        {
            &&& #[trigger] inner_outcome(
                ar,
                b,
                opts,
                kind,
                system2.a,
                system2.p@,
                opts.regularization,
                start_in(y),
                y,
                None,
                false,
                before,
                middle,
                u,
            )
            &&& u is Err ==> s is Err
            &&& u is Ok && opts.use_l2 ==> after2 == middle && stage_ends(
                y.clipped(u->Ok_0.x@),
                u->Ok_0.iterations as nat,
                u->Ok_0.converged,
                n,
                s,
            )
            &&& u is Ok && !opts.use_l2 ==> reweighted_outcome(
                ar,
                b,
                system2,
                opts,
                y,
                kind,
                unweighted_start(y, u->Ok_0, middle),
                after2,
                s,
            )
        };
    solvers_have_one_answer(
        ar,
        b,
        opts,
        kind,
        system1.a,
        system2.a,
        system1.p@,
        opts.regularization,
        start_in(x),
        x,
        y,
        None,
        None,
        false,
        before,
        middle1,
        middle2,
        u,
        v,
    );
    if u is Ok {
        if opts.use_l2 {
            lemma_stage_ends(
                x.clipped(u->Ok_0.x@),
                u->Ok_0.iterations as nat,
                u->Ok_0.converged,
                n,
                r,
                s,
            );
        } else {
            let first = unweighted_start(x, u->Ok_0, middle1);
            assert(first == unweighted_start(y, v->Ok_0, middle2));
            lemma_reweighted(
                ar,
                b,
                system1,
                system2,
                opts,
                x,
                y,
                kind,
                first,
                after1,
                after2,
                r,
                s,
            );
        }
    }
}

/// Whether two probes found the same.
pub open spec fn same_probe<B: Backend>(p: GeometryProbe<B>, q: GeometryProbe<B>) -> bool {
    same_weight(p.weight, q.weight) && p.neg_error@ == q.neg_error@ && p.error == q.error
}

/// Whether two replies hold the same probe, or both are errors.
pub open spec fn alike_probes<B: Backend>(
    r: Result<GeometryProbe<B>, TheseusError>,
    s: Result<GeometryProbe<B>, TheseusError>,
) -> bool {
    match (r, s) {
        (Ok(x), Ok(y)) => same_probe(x, y),
        (Err(_), Err(_)) => true,
        _ => false,
    }
}

proof fn lemma_measures<A: Arithmetic, B: Backend>(
    ar: A,
    b: B,
    problem: Problem,
    system1: EquilibriumSystem,
    system2: EquilibriumSystem,
    q: Seq<Real>,
    p1: GeometryProbe<B>,
    p2: GeometryProbe<B>,
)
    requires
        functional(ar),
        steady(b),
        same_system(system1, system2),
        measures(p1, ar, b, problem, system1, q),
        measures(p2, ar, b, problem, system2, q),
    ensures
        same_probe(p1, p2),
{
    lemma_weighs(ar, b, problem, q, system1.n_eq as nat, p1.weight, p2.weight);
    lemma_inverse_applied(
        ar,
        b,
        p1.weight,
        p2.weight,
        less(ar, system1.a@.applied(ar, q), system1.p@),
        Ok(p1.neg_error),
        Ok(p2.neg_error),
    );
}

proof fn lemma_measured<A: Arithmetic, B: Backend>(
    ar: A,
    b: B,
    problem: Problem,
    system1: EquilibriumSystem,
    system2: EquilibriumSystem,
    q: Seq<Real>,
    p: GeometryProbe<B>,
    e: TheseusError,
)
    requires
        functional(ar),
        steady(b),
        same_system(system1, system2),
        measures(p, ar, b, problem, system1, q),
    ensures
        !unmeasured(e, ar, b, problem, system2, q),
{
    let n_eq = system1.n_eq as nat;
    let residual = less(ar, system1.a@.applied(ar, q), system1.p@);
    lemma_weighable(ar, b, problem, q, n_eq, p.weight, e);
    if unmeasured(e, ar, b, problem, system2, q) {
        let (w, r) = choose|w: MetricWeight<B>, r: Seq<Real>|
            {
                &&& w.weighs(ar, b, problem, q, n_eq)
                &&& r == residual
                &&& #[trigger] inverse_applied(ar, b, w, r, Err(e))
            };
        lemma_weighs(ar, b, problem, q, n_eq, p.weight, w);
        lemma_inverse_applied(ar, b, p.weight, w, residual, Ok(p.neg_error), Err(e));
    }
}

/// With a steady backend a measurement has one result.
pub proof fn probes_are_unique<A: Arithmetic, B: Backend>(
    ar: A,
    b: B,
    problem: Problem,
    system1: EquilibriumSystem,
    system2: EquilibriumSystem,
    q: Seq<Real>,
    r: Result<GeometryProbe<B>, TheseusError>,
    s: Result<GeometryProbe<B>, TheseusError>,
)
    requires
        functional(ar),
        steady(b),
        same_system(system1, system2),
        probed(ar, b, problem, system1, q, r),
        probed(ar, b, problem, system2, q, s),
    ensures
        alike_probes(r, s),
{
    match (r, s) {
        (Ok(x), Ok(y)) => {
            lemma_measures(ar, b, problem, system1, system2, q, x, y);
        },
        (Ok(x), Err(e)) => {
            lemma_measured(ar, b, problem, system1, system2, q, x, e);
        },
        (Err(e), Ok(y)) => {
            lemma_measured(ar, b, problem, system2, system1, q, y, e);
        },
        (Err(_), Err(_)) => {},
    }
}

/// Whether two searches along a step ended at the same place, or both failed.
pub open spec fn alike_moves<B: Backend>(
    r: Result<Option<Measured<B>>, TheseusError>,
    s: Result<Option<Measured<B>>, TheseusError>,
) -> bool {
    match (r, s) {
        (Ok(Some(x)), Ok(Some(y))) => x.x@ == y.x@ && same_probe(x.probe, y.probe),
        (Ok(None), Ok(None)) => true,
        (Err(_), Err(_)) => true,
        _ => false,
    }
}

proof fn lemma_turned_down<A: Arithmetic, B: Backend>(
    ar: A,
    b: B,
    problem: Problem,
    system1: EquilibriumSystem,
    system2: EquilibriumSystem,
    x: BoxBounds,
    y: BoxBounds,
    at: Seq<Real>,
    step: Seq<Real>,
    error: Real,
    j: nat,
    k: nat,
    probe: GeometryProbe<B>,
)
    requires
        functional(ar),
        steady(b),
        same_system(system1, system2),
        same_box(x, y),
        measures(
            probe,
            ar,
            b,
            problem,
            system1,
            candidate_at(ar, x, at, step, reduction(ar, j)),
        ),
        probe.error.below(error),
        j < k,
    ensures
        !turned_down(ar, b, problem, system2, y, at, step, error, k),
{
    lemma_same_clipped(x, y);
    let q = candidate_at(ar, y, at, step, reduction(ar, j));
    assert(q == candidate_at(ar, x, at, step, reduction(ar, j)));
    if unmeasurable(ar, b, problem, system2, q) {
        let e = choose|e: TheseusError| #[trigger] unmeasured(e, ar, b, problem, system2, q);
        lemma_measured(ar, b, problem, system1, system2, q, probe, e);
    }
    if no_better(ar, b, problem, system2, q, error) {
        let other = choose|other: GeometryProbe<B>|
            #[trigger] measures(other, ar, b, problem, system2, q) && !other.error.below(error);
        lemma_measures(ar, b, problem, system1, system2, q, probe, other);
    }
}

proof fn lemma_backtracked<A: Arithmetic, B: Backend>(
    ar: A,
    b: B,
    problem: Problem,
    system1: EquilibriumSystem,
    system2: EquilibriumSystem,
    x: BoxBounds,
    y: BoxBounds,
    at: Seq<Real>,
    step: Seq<Real>,
    error: Real,
    r: Result<Option<Measured<B>>, TheseusError>,
    s: Result<Option<Measured<B>>, TheseusError>,
)
    requires
        functional(ar),
        steady(b),
        same_system(system1, system2),
        same_box(x, y),
        backtracked(ar, b, problem, system1, x, at, step, error, r),
        backtracked(ar, b, problem, system2, y, at, step, error, s),
    ensures
        alike_moves(r, s),
{
    lemma_same_clipped(x, y);
    match (r, s) {
        (Ok(Some(u)), Ok(Some(v))) => {
            let j = choose|j: nat|
                {
                    &&& j < MAX_BACKTRACK
                    &&& u.x@ == #[trigger] candidate_at(ar, x, at, step, reduction(ar, j))
                    &&& turned_down(ar, b, problem, system1, x, at, step, error, j)
                };
            let k = choose|k: nat|
                {
                    &&& k < MAX_BACKTRACK
                    &&& v.x@ == #[trigger] candidate_at(ar, y, at, step, reduction(ar, k))
                    &&& turned_down(ar, b, problem, system2, y, at, step, error, k)
                };
            if j < k {
                lemma_turned_down(
                    ar,
                    b,
                    problem,
                    system1,
                    system2,
                    x,
                    y,
                    at,
                    step,
                    error,
                    j,
                    k,
                    u.probe,
                );
            } else if k < j {
                lemma_turned_down(
                    ar,
                    b,
                    problem,
                    system2,
                    system1,
                    y,
                    x,
                    at,
                    step,
                    error,
                    k,
                    j,
                    v.probe,
                );
            } else {
                assert(u.x@ == v.x@);
                lemma_measures(ar, b, problem, system1, system2, u.x@, u.probe, v.probe);
            }
        },
        (Ok(Some(u)), _) => {
            lemma_some_move(ar, b, problem, system1, system2, x, y, at, step, error, u, s);
        },
        (_, Ok(Some(v))) => {
            lemma_some_move(ar, b, problem, system2, system1, y, x, at, step, error, v, r);
        },
        (Ok(None), Err(e)) => {
            lemma_no_move(ar, b, problem, system1, system2, x, y, at, step, error, e);
        },
        (Err(e), Ok(None)) => {
            lemma_no_move(ar, b, problem, system2, system1, y, x, at, step, error, e);
        },
        (Ok(None), Ok(None)) => {},
        (Err(_), Err(_)) => {},
    }
}

proof fn lemma_some_move<A: Arithmetic, B: Backend>(
    ar: A,
    b: B,
    problem: Problem,
    system1: EquilibriumSystem,
    system2: EquilibriumSystem,
    x: BoxBounds,
    y: BoxBounds,
    at: Seq<Real>,
    step: Seq<Real>,
    error: Real,
    u: Measured<B>,
    s: Result<Option<Measured<B>>, TheseusError>,
)
    requires
        functional(ar),
        steady(b),
        same_system(system1, system2),
        same_box(x, y),
        backtracked(ar, b, problem, system1, x, at, step, error, Ok(Some(u))),
        !(s matches Ok(Some(_))),
    ensures
        !backtracked(ar, b, problem, system2, y, at, step, error, s),
{
    lemma_same_clipped(x, y);
    let j = choose|j: nat|
        {
            &&& j < MAX_BACKTRACK
            &&& u.x@ == #[trigger] candidate_at(ar, x, at, step, reduction(ar, j))
        };
    lemma_turned_down(
        ar,
        b,
        problem,
        system1,
        system2,
        x,
        y,
        at,
        step,
        error,
        j,
        MAX_BACKTRACK as nat,
        u.probe,
    );
    let q = candidate_at(ar, y, at, step, reduction(ar, j));
    assert(q == u.x@);
    if unmeasurable(ar, b, problem, system2, q) {
        let e = choose|e: TheseusError| #[trigger] unmeasured(e, ar, b, problem, system2, q);
        lemma_measured(ar, b, problem, system1, system2, q, u.probe, e);
    }
}

proof fn lemma_no_move<A: Arithmetic, B: Backend>(
    ar: A,
    b: B,
    problem: Problem,
    system1: EquilibriumSystem,
    system2: EquilibriumSystem,
    x: BoxBounds,
    y: BoxBounds,
    at: Seq<Real>,
    step: Seq<Real>,
    error: Real,
    e: TheseusError,
)
    requires
        functional(ar),
        steady(b),
        same_system(system1, system2),
        same_box(x, y),
        backtracked(ar, b, problem, system1, x, at, step, error, Ok(None)),
    ensures
        !backtracked(ar, b, problem, system2, y, at, step, error, Err(e)),
{
    lemma_same_clipped(x, y);
    let k = choose|k: nat|
        k < MAX_BACKTRACK && no_better(
            ar,
            b,
            problem,
            system1,
            #[trigger] candidate_at(ar, x, at, step, reduction(ar, k)),
            error,
        );
    let q = candidate_at(ar, y, at, step, reduction(ar, k));
    assert(q == candidate_at(ar, x, at, step, reduction(ar, k)));
    let probe = choose|probe: GeometryProbe<B>|
        #[trigger] measures(probe, ar, b, problem, system1, q) && !probe.error.below(error);
    if unmeasurable(ar, b, problem, system2, q) {
        let f = choose|f: TheseusError| #[trigger] unmeasured(f, ar, b, problem, system2, q);
        lemma_measured(ar, b, problem, system1, system2, q, probe, f);
    }
}

proof fn lemma_step_solved<A: Arithmetic, B: Backend>(
    ar: A,
    b: B,
    system1: EquilibriumSystem,
    system2: EquilibriumSystem,
    opts: InverseFdmOptions,
    kind: InnerKind,
    m: SparseColMatOwned,
    n: SparseColMatOwned,
    at: Seq<Real>,
    weight1: MetricWeight<B>,
    weight2: MetricWeight<B>,
    x: BoxBounds,
    y: BoxBounds,
    before: InnerSolver<B>,
    after1: InnerSolver<B>,
    after2: InnerSolver<B>,
    r: Result<Vec<Real>, TheseusError>,
    s: Result<Vec<Real>, TheseusError>,
)
    requires
        functional(ar),
        steady(b),
        same_system(system1, system2),
        m@ == n@,
        same_weight(weight1, weight2),
        same_box(x, y),
        step_solved(ar, b, system1, opts, kind, m, at, weight1, x, before, after1, r),
        step_solved(ar, b, system2, opts, kind, n, at, weight2, y, before, after2, s),
    ensures
        alike(r, s),
        after1 == after2,
{
    if !(kind == InnerKind::Spg && !x.holds(system1.n_edges as nat)) {
        let rhs = negatives(less(ar, system1.a@.applied(ar, at), system1.p@));
        let x0 = standstill(system1.n_edges as nat);
        let u = choose|u: Result<InnerSolution, TheseusError>|
            {
                &&& #[trigger] inner_outcome(
                    ar,
                    b,
                    opts,
                    kind,
                    m,
                    rhs,
                    opts.cwls_damping,
                    x0,
                    x,
                    Some(&weight1),
                    true,
                    before,
                    after1,
                    u,
                )
                &&& u is Err ==> r is Err
                &&& u is Ok ==> step_ends(u->Ok_0, system1.n_edges as nat, r)
            };
        let v = choose|v: Result<InnerSolution, TheseusError>|
            {
                &&& #[trigger] inner_outcome(
                    ar,
                    b,
                    opts,
                    kind,
                    n,
                    rhs,
                    opts.cwls_damping,
                    x0,
                    y,
                    Some(&weight2),
                    true,
                    before,
                    after2,
                    v,
                )
                &&& v is Err ==> s is Err
                &&& v is Ok ==> step_ends(v->Ok_0, system1.n_edges as nat, s)
            };
        solvers_have_one_answer(
            ar,
            b,
            opts,
            kind,
            m,
            n,
            rhs,
            opts.cwls_damping,
            x0,
            x,
            y,
            Some(&weight1),
            Some(&weight2),
            true,
            before,
            after1,
            after2,
            u,
            v,
        );
    }
}

proof fn lemma_boxed_step<A: Arithmetic, B: Backend>(
    ar: A,
    b: B,
    problem: Problem,
    system1: EquilibriumSystem,
    system2: EquilibriumSystem,
    opts: InverseFdmOptions,
    metric: InverseMetric,
    kind: InnerKind,
    at: Seq<Real>,
    p1: GeometryProbe<B>,
    p2: GeometryProbe<B>,
    x: BoxBounds,
    y: BoxBounds,
    before: InnerSolver<B>,
    after1: InnerSolver<B>,
    after2: InnerSolver<B>,
    r: Result<Vec<Real>, TheseusError>,
    s: Result<Vec<Real>, TheseusError>,
)
    requires
        functional(ar),
        steady(b),
        same_system(system1, system2),
        same_probe(p1, p2),
        same_box(x, y),
        boxed_step(ar, b, problem, system1, opts, metric, kind, at, p1, x, before, after1, r),
        boxed_step(ar, b, problem, system2, opts, metric, kind, at, p2, y, before, after2, s),
    ensures
        alike(r, s),
        r is Ok ==> after1 == after2,
{
    if metric == InverseMetric::GeometryNewton {
        let u = choose|u: Result<EquilibriumSystem, TheseusError>|
            {
                &&& #[trigger] system_at_found(ar, problem, system1, opts, p1, u)
                &&& u is Err ==> r is Err
                &&& u is Ok ==> step_solved(
                    ar,
                    b,
                    system1,
                    opts,
                    kind,
                    u->Ok_0.a,
                    at,
                    p1.weight,
                    x,
                    before,
                    after1,
                    r,
                )
            };
        let v = choose|v: Result<EquilibriumSystem, TheseusError>|
            {
                &&& #[trigger] system_at_found(ar, problem, system2, opts, p2, v)
                &&& v is Err ==> s is Err
                &&& v is Ok ==> step_solved(
                    ar,
                    b,
                    system2,
                    opts,
                    kind,
                    v->Ok_0.a,
                    at,
                    p2.weight,
                    y,
                    before,
                    after2,
                    s,
                )
            };
        systems_are_unique(
            ar,
            problem,
            found_positions(
                ar,
                system1.free_positions@,
                p1.neg_error@,
                system1.n_free as nat,
            ),
            EquilibriumUnknown::ForceDensity,
            axes_of(problem, opts),
            u,
            v,
        );
        if u is Ok {
            lemma_step_solved(
                ar,
                b,
                system1,
                system2,
                opts,
                kind,
                u->Ok_0.a,
                v->Ok_0.a,
                at,
                p1.weight,
                p2.weight,
                x,
                y,
                before,
                after1,
                after2,
                r,
                s,
            );
        }
    } else {
        lemma_step_solved(
            ar,
            b,
            system1,
            system2,
            opts,
            kind,
            system1.a,
            system2.a,
            at,
            p1.weight,
            p2.weight,
            x,
            y,
            before,
            after1,
            after2,
            r,
            s,
        );
    }
}

/// Whether two descents stand at the same place.
pub open spec fn same_descent<B: Backend>(s: Descent<B>, t: Descent<B>) -> bool {
    &&& s.x == t.x
    &&& same_probe(s.probe, t.probe)
    &&& s.iterations == t.iterations
    &&& s.converged == t.converged
    &&& s.stuck == t.stuck
    &&& s.solvers == t.solvers
}

/// Whether two replies hold the same place, or both are errors.
pub open spec fn alike_descents<B: Backend>(
    r: Result<Descent<B>, TheseusError>,
    s: Result<Descent<B>, TheseusError>,
) -> bool {
    match (r, s) {
        (Ok(x), Ok(y)) => same_descent(x, y),
        (Err(_), Err(_)) => true,
        _ => false,
    }
}

proof fn lemma_step<A: Arithmetic, B: Backend>(
    ar: A,
    b: B,
    problem: Problem,
    system1: EquilibriumSystem,
    system2: EquilibriumSystem,
    opts: InverseFdmOptions,
    metric: InverseMetric,
    x: BoxBounds,
    y: BoxBounds,
    kind: InnerKind,
    at: Descent<B>,
    to: Descent<B>,
    after1: InnerSolver<B>,
    after2: InnerSolver<B>,
    r: Result<Vec<Real>, TheseusError>,
    s: Result<Vec<Real>, TheseusError>,
)
    requires
        functional(ar),
        steady(b),
        same_system(system1, system2),
        same_box(x, y),
        same_descent(at, to),
        step_outcome(
            ar,
            b,
            problem,
            system1,
            opts,
            metric,
            x,
            kind,
            at.x,
            at.probe,
            at.solvers,
            after1,
            r,
        ),
        step_outcome(
            ar,
            b,
            problem,
            system2,
            opts,
            metric,
            y,
            kind,
            to.x,
            to.probe,
            to.solvers,
            after2,
            s,
        ),
    ensures
        alike(r, s),
        r is Ok ==> after1 == after2,
{
    let u = choose|u: BoxBounds|
        {
            &&& #[trigger] shifted(ar, x, at.x, u)
            &&& boxed_step(
                ar,
                b,
                problem,
                system1,
                opts,
                metric,
                kind,
                at.x,
                at.probe,
                u,
                at.solvers,
                after1,
                r,
            )
        };
    let v = choose|u: BoxBounds|
        {
            &&& #[trigger] shifted(ar, y, to.x, u)
            &&& boxed_step(
                ar,
                b,
                problem,
                system2,
                opts,
                metric,
                kind,
                to.x,
                to.probe,
                u,
                to.solvers,
                after2,
                s,
            )
        };
    lemma_boxed_step(
        ar,
        b,
        problem,
        system1,
        system2,
        opts,
        metric,
        kind,
        at.x,
        at.probe,
        to.probe,
        u,
        v,
        at.solvers,
        after1,
        after2,
        r,
        s,
    );
}

proof fn lemma_moved_along<A: Arithmetic, B: Backend>(
    ar: A,
    b: B,
    problem: Problem,
    system1: EquilibriumSystem,
    system2: EquilibriumSystem,
    opts: InverseFdmOptions,
    x: BoxBounds,
    y: BoxBounds,
    at: Descent<B>,
    to: Descent<B>,
    step: Seq<Real>,
    after: InnerSolver<B>,
    r: Result<Descent<B>, TheseusError>,
    s: Result<Descent<B>, TheseusError>,
)
    requires
        functional(ar),
        steady(b),
        same_system(system1, system2),
        same_box(x, y),
        same_descent(at, to),
        moved_along(ar, b, problem, system1, opts, x, at, step, after, r),
        moved_along(ar, b, problem, system2, opts, y, to, step, after, s),
    ensures
        alike_descents(r, s),
{
    let u = choose|u: Result<Option<Measured<B>>, TheseusError>|
        {
            &&& #[trigger] backtracked(
                ar,
                b,
                problem,
                system1,
                x,
                at.x,
                step,
                at.probe.error,
                u,
            )
            &&& u is Err ==> r is Err
            &&& u is Ok ==> r == Ok::<_, TheseusError>(moved_to(ar, opts, at, u->Ok_0, after))
        };
    let v = choose|v: Result<Option<Measured<B>>, TheseusError>|
        {
            &&& #[trigger] backtracked(
                ar,
                b,
                problem,
                system2,
                y,
                to.x,
                step,
                to.probe.error,
                v,
            )
            &&& v is Err ==> s is Err
            &&& v is Ok ==> s == Ok::<_, TheseusError>(moved_to(ar, opts, to, v->Ok_0, after))
        };
    lemma_backtracked(
        ar,
        b,
        problem,
        system1,
        system2,
        x,
        y,
        at.x,
        step,
        at.probe.error,
        u,
        v,
    );
}

/// Where a descent stands after a search that ended here.
spec fn moved_to<A: Arithmetic, B: Backend>(
    ar: A,
    opts: InverseFdmOptions,
    at: Descent<B>,
    found: Option<Measured<B>>,
    after: InnerSolver<B>,
) -> Descent<B> {
    match found {
        None => Descent {
            iterations: at.iterations + 1,
            converged: false,
            stuck: true,
            solvers: after,
            ..at
        },
        Some(to) => Descent {
            x: to.x@,
            probe: to.probe,
            iterations: at.iterations + 1,
            converged: step_converged(
                ar,
                at.x,
                at.probe.error,
                to.x@,
                to.probe.error,
                geometric_tolerance(opts),
            ),
            stuck: false,
            solvers: after,
        },
    }
}

proof fn lemma_descent_step<A: Arithmetic, B: Backend>(
    ar: A,
    b: B,
    problem: Problem,
    system1: EquilibriumSystem,
    system2: EquilibriumSystem,
    opts: InverseFdmOptions,
    metric: InverseMetric,
    x: BoxBounds,
    y: BoxBounds,
    kind: InnerKind,
    at: Descent<B>,
    to: Descent<B>,
    r: Result<Descent<B>, TheseusError>,
    s: Result<Descent<B>, TheseusError>,
)
    requires
        functional(ar),
        steady(b),
        same_system(system1, system2),
        same_box(x, y),
        same_descent(at, to),
        descent_step(ar, b, problem, system1, opts, metric, x, kind, at, r),
        descent_step(ar, b, problem, system2, opts, metric, y, kind, to, s),
    ensures
        alike_descents(r, s),
{
    let (after1, u) = choose|after: InnerSolver<B>, u: Result<Vec<Real>, TheseusError>|
        {
            &&& #[trigger] step_outcome(
                ar,
                b,
                problem,
                system1,
                opts,
                metric,
                x,
                kind,
                at.x,
                at.probe,
                at.solvers,
                after,
                u,
            )
            &&& u is Err ==> r is Err
            &&& u is Ok ==> moved_along(
                ar,
                b,
                problem,
                system1,
                opts,
                x,
                at,
                u->Ok_0@,
                after,
                r,
            )
        };
    let (after2, v) = choose|after: InnerSolver<B>, u: Result<Vec<Real>, TheseusError>|
        {
            &&& #[trigger] step_outcome(
                ar,
                b,
                problem,
                system2,
                opts,
                metric,
                y,
                kind,
                to.x,
                to.probe,
                to.solvers,
                after,
                u,
            )
            &&& u is Err ==> s is Err
            &&& u is Ok ==> moved_along(
                ar,
                b,
                problem,
                system2,
                opts,
                y,
                to,
                u->Ok_0@,
                after,
                s,
            )
        };
    lemma_step(
        ar,
        b,
        problem,
        system1,
        system2,
        opts,
        metric,
        x,
        y,
        kind,
        at,
        to,
        after1,
        after2,
        u,
        v,
    );
    if u is Ok {
        lemma_moved_along(
            ar,
            b,
            problem,
            system1,
            system2,
            opts,
            x,
            y,
            at,
            to,
            u->Ok_0@,
            after1,
            r,
            s,
        );
    }
}

proof fn lemma_descent_reaches<A: Arithmetic, B: Backend>(
    ar: A,
    b: B,
    problem: Problem,
    system1: EquilibriumSystem,
    system2: EquilibriumSystem,
    opts: InverseFdmOptions,
    metric: InverseMetric,
    x: BoxBounds,
    y: BoxBounds,
    kind: InnerKind,
    first: Descent<B>,
    start: Descent<B>,
    j: nat,
    k: nat,
    s: Descent<B>,
    t: Descent<B>,
) -> (w: (Descent<B>, Descent<B>))
    requires
        functional(ar),
        steady(b),
        same_system(system1, system2),
        same_box(x, y),
        same_descent(first, start),
        j <= k,
        descent_reaches(ar, b, problem, system1, opts, metric, x, kind, first, j, s),
        descent_reaches(ar, b, problem, system2, opts, metric, y, kind, start, k, t),
    ensures
        same_descent(s, w.0),
        j == k ==> w.0 == t,
        j < k ==> !s.converged && !s.stuck && descent_step(
            ar,
            b,
            problem,
            system2,
            opts,
            metric,
            y,
            kind,
            w.0,
            Ok(w.1),
        ),
    decreases k,
{
    if k == 0 {
        (t, t)
    } else {
        let before = choose|before: Descent<B>|
            {
                &&& descent_reaches(
                    ar,
                    b,
                    problem,
                    system2,
                    opts,
                    metric,
                    y,
                    kind,
                    start,
                    (k - 1) as nat,
                    before,
                )
                &&& !before.converged && !before.stuck
                &&& #[trigger] descent_step(
                    ar,
                    b,
                    problem,
                    system2,
                    opts,
                    metric,
                    y,
                    kind,
                    before,
                    Ok(t),
                )
            };
        if j < k {
            let w = lemma_descent_reaches(
                ar,
                b,
                problem,
                system1,
                system2,
                opts,
                metric,
                x,
                y,
                kind,
                first,
                start,
                j,
                (k - 1) as nat,
                s,
                before,
            );
            if j == k - 1 {
                (before, t)
            } else {
                w
            }
        } else {
            let earlier = choose|earlier: Descent<B>|
                {
                    &&& descent_reaches(
                        ar,
                        b,
                        problem,
                        system1,
                        opts,
                        metric,
                        x,
                        kind,
                        first,
                        (j - 1) as nat,
                        earlier,
                    )
                    &&& !earlier.converged && !earlier.stuck
                    &&& #[trigger] descent_step(
                        ar,
                        b,
                        problem,
                        system1,
                        opts,
                        metric,
                        x,
                        kind,
                        earlier,
                        Ok(s),
                    )
                };
            let w = lemma_descent_reaches(
                ar,
                b,
                problem,
                system1,
                system2,
                opts,
                metric,
                x,
                y,
                kind,
                first,
                start,
                (j - 1) as nat,
                (k - 1) as nat,
                earlier,
                before,
            );
            lemma_descent_step(
                ar,
                b,
                problem,
                system1,
                system2,
                opts,
                metric,
                x,
                y,
                kind,
                earlier,
                before,
                Ok(s),
                Ok(t),
            );
            (t, t)
        }
    }
}

/// Whether two results hold the same.
pub open spec fn same_result(x: InverseFdmResult, y: InverseFdmResult) -> bool {
    &&& x.q@ == y.q@
    &&& x.iterations == y.iterations
    &&& x.converged == y.converged
    &&& x.geometric_error == y.geometric_error
}

/// Whether two solves both failed, or succeeded with the same result.
pub open spec fn same_answer(
    r: Result<InverseFdmResult, TheseusError>,
    s: Result<InverseFdmResult, TheseusError>,
) -> bool {
    match (r, s) {
        (Ok(x), Ok(y)) => same_result(x, y),
        (Err(_), Err(_)) => true,
        _ => false,
    }
}

proof fn lemma_descent_ends<B: Backend>(
    s: Descent<B>,
    t: Descent<B>,
    n: nat,
    r: Result<InverseFdmResult, TheseusError>,
    q: Result<InverseFdmResult, TheseusError>,
)
    requires
        same_descent(s, t),
        descent_ends(s, n, r),
        descent_ends(t, n, q),
    ensures
        same_answer(r, q),
{
}

/// Whether a run that stands at `t` after `k` iterations ends with `r`.
spec fn run_ends<A: Arithmetic, B: Backend>(
    ar: A,
    b: B,
    problem: Problem,
    system: EquilibriumSystem,
    opts: InverseFdmOptions,
    metric: InverseMetric,
    max_outer: nat,
    bounds: BoxBounds,
    kind: InnerKind,
    k: nat,
    t: Descent<B>,
    after: InnerSolver<B>,
    r: Result<InverseFdmResult, TheseusError>,
) -> bool {
    &&& k <= max_outer
    &&& if k == max_outer || t.converged || t.stuck {
        after == t.solvers && descent_ends(t, system.n_edges as nat, r)
    } else {
        r is Err && descent_step(
            ar,
            b,
            problem,
            system,
            opts,
            metric,
            bounds,
            kind,
            t,
            Err(r->Err_0),
        )
    }
}

proof fn lemma_run_ends<A: Arithmetic, B: Backend>(
    ar: A,
    b: B,
    problem: Problem,
    system1: EquilibriumSystem,
    system2: EquilibriumSystem,
    opts: InverseFdmOptions,
    metric: InverseMetric,
    max_outer: nat,
    x: BoxBounds,
    y: BoxBounds,
    kind: InnerKind,
    first: Descent<B>,
    start: Descent<B>,
    j: nat,
    k: nat,
    u: Descent<B>,
    v: Descent<B>,
    after1: InnerSolver<B>,
    after2: InnerSolver<B>,
    r: Result<InverseFdmResult, TheseusError>,
    s: Result<InverseFdmResult, TheseusError>,
)
    requires
        functional(ar),
        steady(b),
        same_system(system1, system2),
        same_box(x, y),
        same_descent(first, start),
        j <= k,
        descent_reaches(ar, b, problem, system1, opts, metric, x, kind, first, j, u),
        descent_reaches(ar, b, problem, system2, opts, metric, y, kind, start, k, v),
        run_ends(ar, b, problem, system1, opts, metric, max_outer, x, kind, j, u, after1, r),
        run_ends(ar, b, problem, system2, opts, metric, max_outer, y, kind, k, v, after2, s),
    ensures
        same_answer(r, s),
        r is Ok ==> after1 == after2,
{
    let w = lemma_descent_reaches(
        ar,
        b,
        problem,
        system1,
        system2,
        opts,
        metric,
        x,
        y,
        kind,
        first,
        start,
        j,
        k,
        u,
        v,
    );
    if j < k {
        lemma_descent_step(
            ar,
            b,
            problem,
            system1,
            system2,
            opts,
            metric,
            x,
            y,
            kind,
            u,
            w.0,
            Err(r->Err_0),
            Ok(w.1),
        );
    } else if k == max_outer || u.converged || u.stuck {
        lemma_descent_ends(u, v, system1.n_edges as nat, r, s);
    }
}

proof fn lemma_descent_run<A: Arithmetic, B: Backend>(
    ar: A,
    b: B,
    problem: Problem,
    system1: EquilibriumSystem,
    system2: EquilibriumSystem,
    opts: InverseFdmOptions,
    metric: InverseMetric,
    max_outer: nat,
    x: BoxBounds,
    y: BoxBounds,
    kind: InnerKind,
    first: Descent<B>,
    start: Descent<B>,
    after1: InnerSolver<B>,
    after2: InnerSolver<B>,
    r: Result<InverseFdmResult, TheseusError>,
    s: Result<InverseFdmResult, TheseusError>,
)
    requires
        functional(ar),
        steady(b),
        same_system(system1, system2),
        same_box(x, y),
        same_descent(first, start),
        descent_run(
            ar,
            b,
            problem,
            system1,
            opts,
            metric,
            max_outer,
            x,
            kind,
            first,
            after1,
            r,
        ),
        descent_run(
            ar,
            b,
            problem,
            system2,
            opts,
            metric,
            max_outer,
            y,
            kind,
            start,
            after2,
            s,
        ),
    ensures
        same_answer(r, s),
        r is Ok ==> after1 == after2,
{
    let (j, u) = choose|k: nat, t: Descent<B>|
        {
            &&& #[trigger] descent_reaches(
                ar,
                b,
                problem,
                system1,
                opts,
                metric,
                x,
                kind,
                first,
                k,
                t,
            )
            &&& run_ends(ar, b, problem, system1, opts, metric, max_outer, x, kind, k, t, after1, r)
        };
    let (k, v) = choose|k: nat, t: Descent<B>|
        {
            &&& #[trigger] descent_reaches(
                ar,
                b,
                problem,
                system2,
                opts,
                metric,
                y,
                kind,
                start,
                k,
                t,
            )
            &&& run_ends(ar, b, problem, system2, opts, metric, max_outer, y, kind, k, t, after2, s)
        };
    if j <= k {
        lemma_run_ends(
            ar,
            b,
            problem,
            system1,
            system2,
            opts,
            metric,
            max_outer,
            x,
            y,
            kind,
            first,
            start,
            j,
            k,
            u,
            v,
            after1,
            after2,
            r,
            s,
        );
    } else {
        lemma_run_ends(
            ar,
            b,
            problem,
            system2,
            system1,
            opts,
            metric,
            max_outer,
            y,
            x,
            kind,
            start,
            first,
            k,
            j,
            v,
            u,
            after2,
            after1,
            s,
            r,
        );
    }
}

proof fn lemma_descent<A: Arithmetic, B: Backend>(
    ar: A,
    b: B,
    problem: Problem,
    system1: EquilibriumSystem,
    system2: EquilibriumSystem,
    opts: InverseFdmOptions,
    metric: InverseMetric,
    max_outer: nat,
    x: BoxBounds,
    y: BoxBounds,
    seed: Seq<Real>,
    kind: InnerKind,
    before: InnerSolver<B>,
    after1: InnerSolver<B>,
    after2: InnerSolver<B>,
    r: Result<InverseFdmResult, TheseusError>,
    s: Result<InverseFdmResult, TheseusError>,
)
    requires
        functional(ar),
        steady(b),
        same_system(system1, system2),
        same_box(x, y),
        descent_outcome(
            ar,
            b,
            problem,
            system1,
            opts,
            metric,
            max_outer,
            x,
            seed,
            kind,
            before,
            after1,
            r,
        ),
        descent_outcome(
            ar,
            b,
            problem,
            system2,
            opts,
            metric,
            max_outer,
            y,
            seed,
            kind,
            before,
            after2,
            s,
        ),
    ensures
        same_answer(r, s),
        r is Ok ==> after1 == after2,
{
    lemma_same_clipped(x, y);
    let at = x.clipped(seed);
    if seed.len() == system1.n_edges {
        let u = choose|u: Result<GeometryProbe<B>, TheseusError>|
            {
                &&& #[trigger] probed(ar, b, problem, system1, at, u)
                &&& u is Err ==> r is Err
                &&& u is Ok && u->Ok_0.error.at_most(geometric_tolerance(opts)) ==> after1
                    == before && stays(at, u->Ok_0.error, r)
                &&& u is Ok && !u->Ok_0.error.at_most(geometric_tolerance(opts)) ==> descent_run(
                    ar,
                    b,
                    problem,
                    system1,
                    opts,
                    metric,
                    max_outer,
                    x,
                    kind,
                    descent_start(at, u->Ok_0, before),
                    after1,
                    r,
                )
            };
        let v = choose|v: Result<GeometryProbe<B>, TheseusError>|
            {
                &&& #[trigger] probed(ar, b, problem, system2, at, v)
                &&& v is Err ==> s is Err
                &&& v is Ok && v->Ok_0.error.at_most(geometric_tolerance(opts)) ==> after2
                    == before && stays(at, v->Ok_0.error, s)
                &&& v is Ok && !v->Ok_0.error.at_most(geometric_tolerance(opts)) ==> descent_run(
                    ar,
                    b,
                    problem,
                    system2,
                    opts,
                    metric,
                    max_outer,
                    y,
                    kind,
                    descent_start(at, v->Ok_0, before),
                    after2,
                    s,
                )
            };
        probes_are_unique(ar, b, problem, system1, system2, at, u, v);
        if u is Ok && !u->Ok_0.error.at_most(geometric_tolerance(opts)) {
            lemma_descent_run(
                ar,
                b,
                problem,
                system1,
                system2,
                opts,
                metric,
                max_outer,
                x,
                y,
                kind,
                descent_start(at, u->Ok_0, before),
                descent_start(at, v->Ok_0, before),
                after1,
                after2,
                r,
                s,
            );
        }
    }
}

proof fn lemma_newton_phase<A: Arithmetic, B: Backend>(
    ar: A,
    b: B,
    problem: Problem,
    system1: EquilibriumSystem,
    system2: EquilibriumSystem,
    opts: InverseFdmOptions,
    x: BoxBounds,
    y: BoxBounds,
    kind: InnerKind,
    middle1: InverseFdmResult,
    middle2: InverseFdmResult,
    solvers: InnerSolver<B>,
    r: Result<InverseFdmResult, TheseusError>,
    s: Result<InverseFdmResult, TheseusError>,
)
    requires
        functional(ar),
        steady(b),
        same_system(system1, system2),
        same_box(x, y),
        same_result(middle1, middle2),
        newton_phase(ar, b, problem, system1, opts, x, kind, middle1, solvers, r),
        newton_phase(ar, b, problem, system2, opts, y, kind, middle2, solvers, s),
    ensures
        same_answer(r, s),
{
    if budgets(opts).1 > 0 {
        let metric = InverseMetric::GeometryNewton;
        let (after1, u) = choose|
            after: InnerSolver<B>,
            last: Result<InverseFdmResult, TheseusError>,
        |
            {
                &&& #[trigger] descent_outcome(
                    ar,
                    b,
                    problem,
                    system1,
                    opts,
                    metric,
                    budgets(opts).1,
                    x,
                    middle1.q@,
                    kind,
                    solvers,
                    after,
                    last,
                )
                &&& phases_joined(middle1, last, r)
            };
        let (after2, v) = choose|
            after: InnerSolver<B>,
            last: Result<InverseFdmResult, TheseusError>,
        |
            {
                &&& #[trigger] descent_outcome(
                    ar,
                    b,
                    problem,
                    system2,
                    opts,
                    metric,
                    budgets(opts).1,
                    y,
                    middle2.q@,
                    kind,
                    solvers,
                    after,
                    last,
                )
                &&& phases_joined(middle2, last, s)
            };
        lemma_descent(
            ar,
            b,
            problem,
            system1,
            system2,
            opts,
            metric,
            budgets(opts).1,
            x,
            y,
            middle1.q@,
            kind,
            solvers,
            after1,
            after2,
            u,
            v,
        );
    }
}

proof fn lemma_geometric_stage<A: Arithmetic, B: Backend>(
    ar: A,
    b: B,
    problem: Problem,
    system1: EquilibriumSystem,
    system2: EquilibriumSystem,
    opts: InverseFdmOptions,
    x: BoxBounds,
    y: BoxBounds,
    q: Seq<Real>,
    before: InnerSolver<B>,
    r: Result<InverseFdmResult, TheseusError>,
    s: Result<InverseFdmResult, TheseusError>,
)
    requires
        functional(ar),
        steady(b),
        same_system(system1, system2),
        same_box(x, y),
        geometric_stage_outcome(ar, b, problem, system1, opts, x, q, before, r),
        geometric_stage_outcome(ar, b, problem, system2, opts, y, q, before, s),
    ensures
        same_answer(r, s),
{
    lemma_same_clipped(x, y);
    let kind = stage2_inner_of(opts, x.finite_somewhere());
    let seed = seed_of(opts, q);
    if budgets(opts).0 == 0 && budgets(opts).1 > 0 {
        let metric = InverseMetric::GeometryNewton;
        let after1 = choose|after: InnerSolver<B>| #[trigger]
            descent_outcome(
                ar,
                b,
                problem,
                system1,
                opts,
                metric,
                budgets(opts).1,
                x,
                seed,
                kind,
                before,
                after,
                r,
            );
        let after2 = choose|after: InnerSolver<B>| #[trigger]
            descent_outcome(
                ar,
                b,
                problem,
                system2,
                opts,
                metric,
                budgets(opts).1,
                y,
                seed,
                kind,
                before,
                after,
                s,
            );
        lemma_descent(
            ar,
            b,
            problem,
            system1,
            system2,
            opts,
            metric,
            budgets(opts).1,
            x,
            y,
            seed,
            kind,
            before,
            after1,
            after2,
            r,
            s,
        );
    } else {
        let metric = InverseMetric::Geometry;
        let (after1, u) = choose|
            after: InnerSolver<B>,
            middle: Result<InverseFdmResult, TheseusError>,
        |
            {
                &&& #[trigger] descent_outcome(
                    ar,
                    b,
                    problem,
                    system1,
                    opts,
                    metric,
                    budgets(opts).0,
                    x,
                    seed,
                    kind,
                    before,
                    after,
                    middle,
                )
                &&& middle is Err ==> r is Err
                &&& middle is Ok ==> newton_phase(
                    ar,
                    b,
                    problem,
                    system1,
                    opts,
                    x,
                    kind,
                    middle->Ok_0,
                    after,
                    r,
                )
            };
        let (after2, v) = choose|
            after: InnerSolver<B>,
            middle: Result<InverseFdmResult, TheseusError>,
        |
            {
                &&& #[trigger] descent_outcome(
                    ar,
                    b,
                    problem,
                    system2,
                    opts,
                    metric,
                    budgets(opts).0,
                    y,
                    seed,
                    kind,
                    before,
                    after,
                    middle,
                )
                &&& middle is Err ==> s is Err
                &&& middle is Ok ==> newton_phase(
                    ar,
                    b,
                    problem,
                    system2,
                    opts,
                    y,
                    kind,
                    middle->Ok_0,
                    after,
                    s,
                )
            };
        lemma_descent(
            ar,
            b,
            problem,
            system1,
            system2,
            opts,
            metric,
            budgets(opts).0,
            x,
            y,
            seed,
            kind,
            before,
            after1,
            after2,
            u,
            v,
        );
        if u is Ok {
            lemma_newton_phase(
                ar,
                b,
                problem,
                system1,
                system2,
                opts,
                x,
                y,
                kind,
                u->Ok_0,
                v->Ok_0,
                after1,
                r,
                s,
            );
        }
    }
}

proof fn lemma_error_reported<A: Arithmetic, B: Backend>(
    ar: A,
    b: B,
    problem: Problem,
    u: Result<EquilibriumSystem, TheseusError>,
    v: Result<EquilibriumSystem, TheseusError>,
    q: Seq<Real>,
    e: Real,
    f: Real,
)
    requires
        functional(ar),
        steady(b),
        alike_systems(u, v),
        error_reported(ar, b, problem, u, q, e),
        error_reported(ar, b, problem, v, q, f),
    ensures
        e == f,
{
    if u is Ok {
        let system1 = u->Ok_0;
        let system2 = v->Ok_0;
        let p = choose|p: Result<GeometryProbe<B>, TheseusError>|
            #[trigger] probed(ar, b, problem, system1, q, p) && e == error_told(p);
        let t = choose|t: Result<GeometryProbe<B>, TheseusError>|
            #[trigger] probed(ar, b, problem, system2, q, t) && f == error_told(t);
        probes_are_unique(ar, b, problem, system1, system2, q, p, t);
    }
}

/// Whether `r` is what the second stage makes of force densities `q` on this system.
spec fn second_answer<A: Arithmetic, B: Backend>(
    ar: A,
    b: B,
    problem: Problem,
    opts: InverseFdmOptions,
    bounds: BoxBounds,
    system: Result<EquilibriumSystem, TheseusError>,
    q: Seq<Real>,
    stage1: InnerSolution,
    solvers: InnerSolver<B>,
    r: Result<InverseFdmResult, TheseusError>,
) -> bool {
    if opts.metric == InverseMetric::Force {
        force_reported(ar, b, problem, system, q, stage1, r)
    } else {
        match system {
            Err(e) => r == Err::<InverseFdmResult, _>(e),
            Ok(s) => geometric_stage_outcome(ar, b, problem, s, opts, bounds, q, solvers, r),
        }
    }
}

proof fn lemma_second_stage<A: Arithmetic, B: Backend>(
    ar: A,
    b: B,
    problem: Problem,
    target: Grid,
    opts: InverseFdmOptions,
    lengths: Seq<Real>,
    x: BoxBounds,
    y: BoxBounds,
    first1: InnerSolution,
    first2: InnerSolution,
    solvers: InnerSolver<B>,
    r: Result<InverseFdmResult, TheseusError>,
    s: Result<InverseFdmResult, TheseusError>,
)
    requires
        functional(ar),
        steady(b),
        same_box(x, y),
        alike_solutions(Ok(first1), Ok(first2)),
        second_stage(ar, b, problem, target, opts, lengths, x, first1, solvers, r),
        second_stage(ar, b, problem, target, opts, lengths, y, first2, solvers, s),
    ensures
        same_answer(r, s),
{
    let q = if opts.solve_for_q {
        first1.x@
    } else {
        quotients(ar, first1.x@, lengths)
    };
    if !(opts.metric != InverseMetric::Force && geometric_complaint(problem, opts.use_l2) is Some) {
        let unknown = EquilibriumUnknown::ForceDensity;
        let axes = axes_of(problem, opts);
        let u = choose|u: Result<EquilibriumSystem, TheseusError>|
            {
                &&& #[trigger] assembly_outcome(ar, problem, target, unknown, axes, u)
                &&& second_answer(ar, b, problem, opts, x, u, q, first1, solvers, r)
            };
        let v = choose|v: Result<EquilibriumSystem, TheseusError>|
            {
                &&& #[trigger] assembly_outcome(ar, problem, target, unknown, axes, v)
                &&& second_answer(ar, b, problem, opts, y, v, q, first2, solvers, s)
            };
        systems_are_unique(ar, problem, target, unknown, axes, u, v);
        if opts.metric == InverseMetric::Force {
            lemma_error_reported(
                ar,
                b,
                problem,
                u,
                v,
                q,
                r->Ok_0.geometric_error,
                s->Ok_0.geometric_error,
            );
        } else if u is Ok {
            lemma_geometric_stage(
                ar,
                b,
                problem,
                u->Ok_0,
                v->Ok_0,
                opts,
                x,
                y,
                q,
                solvers,
                r,
                s,
            );
        }
    }
}

/// Whether `r` is what comes of a first stage that found this.
spec fn first_answer<A: Arithmetic, B: Backend>(
    ar: A,
    b: B,
    problem: Problem,
    target: Grid,
    opts: InverseFdmOptions,
    lengths: Seq<Real>,
    q_bounds: BoxBounds,
    found: Result<InnerSolution, TheseusError>,
    solvers: InnerSolver<B>,
    r: Result<InverseFdmResult, TheseusError>,
) -> bool {
    match found {
        Err(e) => r == Err::<InverseFdmResult, _>(e),
        Ok(stage1) => second_stage(
            ar,
            b,
            problem,
            target,
            opts,
            lengths,
            q_bounds,
            stage1,
            solvers,
            r,
        ),
    }
}

proof fn lemma_first_stage<A: Arithmetic, B: Backend>(
    ar: A,
    b: B,
    problem: Problem,
    target: Grid,
    opts: InverseFdmOptions,
    system1: EquilibriumSystem,
    system2: EquilibriumSystem,
    qx: BoxBounds,
    qy: BoxBounds,
    x: BoxBounds,
    y: BoxBounds,
    r: Result<InverseFdmResult, TheseusError>,
    s: Result<InverseFdmResult, TheseusError>,
)
    requires
        functional(ar),
        steady(b),
        same_system(system1, system2),
        same_box(qx, qy),
        same_box(x, y),
        first_stage(ar, b, problem, target, opts, system1, qx, x, r),
        first_stage(ar, b, problem, target, opts, system2, qy, y, s),
    ensures
        same_answer(r, s),
{
    lemma_same_clipped(x, y);
    let kind = inner_of(opts, x.finite_somewhere());
    let (fresh1, solvers1, u) = choose|
        fresh: InnerSolver<B>,
        solvers: InnerSolver<B>,
        u: Result<InnerSolution, TheseusError>,
    |
        {
            &&& fresh.is_fresh()
            &&& #[trigger] force_stage_outcome(
                ar,
                b,
                system1,
                opts,
                x,
                kind,
                fresh,
                solvers,
                u,
            )
            &&& first_answer(ar, b, problem, target, opts, system1.lengths@, qx, u, solvers, r)
        };
    let (fresh2, solvers2, v) = choose|
        fresh: InnerSolver<B>,
        solvers: InnerSolver<B>,
        u: Result<InnerSolution, TheseusError>,
    |
        {
            &&& fresh.is_fresh()
            &&& #[trigger] force_stage_outcome(
                ar,
                b,
                system2,
                opts,
                y,
                kind,
                fresh,
                solvers,
                u,
            )
            &&& first_answer(ar, b, problem, target, opts, system2.lengths@, qy, u, solvers, s)
        };
    assert(fresh1 == fresh2);
    lemma_force_stage(
        ar,
        b,
        system1,
        system2,
        opts,
        x,
        y,
        kind,
        fresh1,
        solvers1,
        solvers2,
        u,
        v,
    );
    if u is Ok {
        lemma_second_stage(
            ar,
            b,
            problem,
            target,
            opts,
            system1.lengths@,
            qx,
            qy,
            u->Ok_0,
            v->Ok_0,
            solvers1,
            r,
            s,
        );
    }
}

proof fn lemma_boxed_inverse<A: Arithmetic, B: Backend>(
    ar: A,
    b: B,
    problem: Problem,
    target: Grid,
    opts: InverseFdmOptions,
    system1: EquilibriumSystem,
    system2: EquilibriumSystem,
    qx: BoxBounds,
    qy: BoxBounds,
    r: Result<InverseFdmResult, TheseusError>,
    s: Result<InverseFdmResult, TheseusError>,
)
    requires
        functional(ar),
        steady(b),
        same_system(system1, system2),
        same_box(qx, qy),
        boxed_inverse(ar, b, problem, target, opts, system1, qx, r),
        boxed_inverse(ar, b, problem, target, opts, system2, qy, s),
    ensures
        same_answer(r, s),
{
    let u = choose|u: Result<BoxBounds, TheseusError>|
        {
            &&& #[trigger] stage1_box(ar, opts, system1.lengths@, qx, u)
            &&& u is Err ==> r is Err
            &&& u is Ok ==> first_stage(
                ar,
                b,
                problem,
                target,
                opts,
                system1,
                qx,
                u->Ok_0,
                r,
            )
        };
    let v = choose|v: Result<BoxBounds, TheseusError>|
        {
            &&& #[trigger] stage1_box(ar, opts, system2.lengths@, qy, v)
            &&& v is Err ==> s is Err
            &&& v is Ok ==> first_stage(
                ar,
                b,
                problem,
                target,
                opts,
                system2,
                qy,
                v->Ok_0,
                s,
            )
        };
    lemma_stage1_box(ar, opts, system1.lengths@, qx, qy, u, v);
    if u is Ok {
        lemma_first_stage(
            ar,
            b,
            problem,
            target,
            opts,
            system1,
            system2,
            qx,
            qy,
            u->Ok_0,
            v->Ok_0,
            r,
            s,
        );
    }
}

proof fn lemma_system_inverse<A: Arithmetic, B: Backend>(
    ar: A,
    b: B,
    problem: Problem,
    target: Grid,
    opts: InverseFdmOptions,
    system1: EquilibriumSystem,
    system2: EquilibriumSystem,
    r: Result<InverseFdmResult, TheseusError>,
    s: Result<InverseFdmResult, TheseusError>,
)
    requires
        functional(ar),
        steady(b),
        same_system(system1, system2),
        system_inverse(ar, b, problem, target, opts, system1, r),
        system_inverse(ar, b, problem, target, opts, system2, s),
    ensures
        same_answer(r, s),
{
    let n = problem.topology.num_edges;
    let u = choose|u: Result<BoxBounds, TheseusError>|
        {
            &&& #[trigger] composed(n, opts.signs@, opts.lower@, opts.upper@, u)
            &&& u is Err ==> r is Err
            &&& u is Ok ==> boxed_inverse(ar, b, problem, target, opts, system1, u->Ok_0, r)
        };
    let v = choose|v: Result<BoxBounds, TheseusError>|
        {
            &&& #[trigger] composed(n, opts.signs@, opts.lower@, opts.upper@, v)
            &&& v is Err ==> s is Err
            &&& v is Ok ==> boxed_inverse(ar, b, problem, target, opts, system2, v->Ok_0, s)
        };
    lemma_composed(n, opts.signs@, opts.lower@, opts.upper@, u, v);
    if u is Ok {
        lemma_boxed_inverse(
            ar,
            b,
            problem,
            target,
            opts,
            system1,
            system2,
            u->Ok_0,
            v->Ok_0,
            r,
            s,
        );
    }
}

/// Two solves of the same problem with the same options both fail, or both succeed with
/// the same force densities, iterations, convergence and geometric error.
pub proof fn solves_have_one_answer<A: Arithmetic, B: Backend>(
    ar: A,
    b: B,
    problem: Problem,
    target: Grid,
    opts: InverseFdmOptions,
    r: Result<InverseFdmResult, TheseusError>,
    s: Result<InverseFdmResult, TheseusError>,
)
    requires
        functional(ar),
        steady(b),
        inverse_run(ar, b, problem, target, opts, r),
        inverse_run(ar, b, problem, target, opts, s),
    ensures
        same_answer(r, s),
{
    if !opts.regularization.below(Real { bits: ZERO }) && admissible(opts) {
        let unknown = stage1_unknown(opts.solve_for_q);
        let axes = axes_of(problem, opts);
        let u = choose|u: Result<EquilibriumSystem, TheseusError>|
            {
                &&& #[trigger] assembly_outcome(ar, problem, target, unknown, axes, u)
                &&& u is Err ==> r is Err
                &&& u is Ok ==> system_inverse(ar, b, problem, target, opts, u->Ok_0, r)
            };
        let v = choose|v: Result<EquilibriumSystem, TheseusError>|
            {
                &&& #[trigger] assembly_outcome(ar, problem, target, unknown, axes, v)
                &&& v is Err ==> s is Err
                &&& v is Ok ==> system_inverse(ar, b, problem, target, opts, v->Ok_0, s)
            };
        systems_are_unique(ar, problem, target, unknown, axes, u, v);
        if u is Ok {
            lemma_system_inverse(ar, b, problem, target, opts, u->Ok_0, v->Ok_0, r, s);
        }
    }
}

/// The geometric error that a solve reports is the one that a measurement at the force
/// densities it found tells, or, for a solve by the force metric, NaN where that measurement
/// fails.  For a geometric metric it does not fail.
pub proof fn reported_errors_are_measured<A: Arithmetic, B: Backend>(
    ar: A,
    b: B,
    problem: Problem,
    target: Grid,
    opts: InverseFdmOptions,
    found: InverseFdmResult,
    system: EquilibriumSystem,
    probe: Result<GeometryProbe<B>, TheseusError>,
)
    requires
        functional(ar),
        steady(b),
        inverse_outcome(ar, b, problem, target, opts, Ok(found)),
        describes(
            system,
            ar,
            problem,
            target,
            EquilibriumUnknown::ForceDensity,
            axes_of(problem, opts),
        ),
        probed(ar, b, problem, system, found.q@, probe),
    ensures
        found.geometric_error == error_told(probe),
        opts.metric != InverseMetric::Force ==> probe is Ok,
{
    let unknown = EquilibriumUnknown::ForceDensity;
    let axes = axes_of(problem, opts);
    let given: Result<EquilibriumSystem, TheseusError> = Ok(system);
    assert(assembly_outcome(ar, problem, target, unknown, axes, given));
    if opts.metric == InverseMetric::Force {
        let (system1, q_bounds, bounds, fresh, solvers, stage1) = lemma_first_stage_of(
            opts,
            ar,
            b,
            problem,
            target,
            found,
        );
        let u = choose|u: Result<EquilibriumSystem, TheseusError>|
            {
                &&& #[trigger] assembly_outcome(ar, problem, target, unknown, axes, u)
                &&& error_reported(ar, b, problem, u, found.q@, found.geometric_error)
            };
        systems_are_unique(ar, problem, target, unknown, axes, u, given);
        assert(error_reported(ar, b, problem, given, found.q@, error_told(probe)));
        lemma_error_reported(
            ar,
            b,
            problem,
            u,
            given,
            found.q@,
            found.geometric_error,
            error_told(probe),
        );
    } else {
        let other = choose|other: EquilibriumSystem|
            {
                &&& describes(other, ar, problem, target, unknown, axes)
                &&& #[trigger] measured(ar, b, problem, other, found)
            };
        let own = choose|own: GeometryProbe<B>|
            {
                &&& #[trigger] measures(own, ar, b, problem, other, found.q@)
                &&& own.error == found.geometric_error
            };
        systems_are_unique(ar, problem, target, unknown, axes, Ok(other), given);
        probes_are_unique(ar, b, problem, other, system, found.q@, Ok(own), probe);
    }
}

/// Two solves that differ in nothing but the particular method, Iterative or with a finite
/// bound, both fail, or both succeed with the same result.
pub proof fn the_particular_method_is_for_unbounded_direct_solves<A: Arithmetic, B: Backend>(
    o: InverseFdmOptions,
    method: ParticularMethod,
    ar: A,
    b: B,
    problem: Problem,
    target: Grid,
    r: Result<InverseFdmResult, TheseusError>,
    s: Result<InverseFdmResult, TheseusError>,
)
    requires
        functional(ar),
        steady(b),
        o.linear_algebra == LinearAlgebra::Iterative || bounded(ar, problem, target, o),
        inverse_run(ar, b, problem, target, o, r),
        inverse_run(
            ar,
            b,
            problem,
            target,
            (InverseFdmOptions { particular_method: method, ..o }),
            s,
        ),
    ensures
        same_answer(r, s),
{
    if o.linear_algebra == LinearAlgebra::Iterative {
        iterative_ignores_the_particular_method(o, method, ar, b, problem, target, s);
    } else {
        bounded_solves_ignore_the_particular_method(o, method, ar, b, problem, target, s);
    }
    solves_have_one_answer(ar, b, problem, target, o, r, s);
}

proof fn lemma_found_first<A: Arithmetic, B: Backend>(
    ar: A,
    b: B,
    problem: Problem,
    target: Grid,
    opts: InverseFdmOptions,
    x: BoxBounds,
    y: BoxBounds,
    first1: InnerSolution,
    first2: InnerSolution,
    q: Seq<Real>,
    p: Seq<Real>,
)
    requires
        functional(ar),
        steady(b),
        found_first(ar, b, problem, target, opts, x, first1, q),
        found_first(ar, b, problem, target, opts, y, first2, p),
    ensures
        q == p,
        same_box(x, y),
{
    let unknown = stage1_unknown(opts.solve_for_q);
    let axes = axes_of(problem, opts);
    let n = problem.topology.num_edges;
    let (system1, u, fresh1, solvers1) = choose|
        system: EquilibriumSystem,
        bounds: BoxBounds,
        fresh: InnerSolver<B>,
        solvers: InnerSolver<B>,
    |
        {
            &&& assembly_outcome(ar, problem, target, unknown, axes, Ok(system))
            &&& composed(n, opts.signs@, opts.lower@, opts.upper@, Ok(x))
            &&& stage1_box(ar, opts, system.lengths@, x, Ok(bounds))
            &&& fresh.is_fresh()
            &&& #[trigger] force_stage_outcome(
                ar,
                b,
                system,
                opts,
                bounds,
                inner_of(opts, bounds.finite_somewhere()),
                fresh,
                solvers,
                Ok(first1),
            )
            &&& q == if opts.solve_for_q {
                first1.x@
            } else {
                quotients(ar, first1.x@, system.lengths@)
            }
        };
    let (system2, v, fresh2, solvers2) = choose|
        system: EquilibriumSystem,
        bounds: BoxBounds,
        fresh: InnerSolver<B>,
        solvers: InnerSolver<B>,
    |
        {
            &&& assembly_outcome(ar, problem, target, unknown, axes, Ok(system))
            &&& composed(n, opts.signs@, opts.lower@, opts.upper@, Ok(y))
            &&& stage1_box(ar, opts, system.lengths@, y, Ok(bounds))
            &&& fresh.is_fresh()
            &&& #[trigger] force_stage_outcome(
                ar,
                b,
                system,
                opts,
                bounds,
                inner_of(opts, bounds.finite_somewhere()),
                fresh,
                solvers,
                Ok(first2),
            )
            &&& p == if opts.solve_for_q {
                first2.x@
            } else {
                quotients(ar, first2.x@, system.lengths@)
            }
        };
    systems_are_unique(ar, problem, target, unknown, axes, Ok(system1), Ok(system2));
    lemma_composed(n, opts.signs@, opts.lower@, opts.upper@, Ok(x), Ok(y));
    lemma_stage1_box(ar, opts, system1.lengths@, x, y, Ok(u), Ok(v));
    lemma_same_clipped(u, v);
    assert(fresh1 == fresh2);
    lemma_force_stage(
        ar,
        b,
        system1,
        system2,
        opts,
        u,
        v,
        inner_of(opts, u.finite_somewhere()),
        fresh1,
        solvers1,
        solvers2,
        Ok(first1),
        Ok(first2),
    );
}

/// A geometric solve without budgets or reference, after no iteration, returns the force
/// densities that the same solve by the force metric returns, clipped to the box that signs
/// and bounds make.  These are the same force densities where they lie in that box, and so
/// always where force densities are the unknowns.
pub proof fn zero_budgets_return_the_force_solution<A: Arithmetic, B: Backend>(
    o: InverseFdmOptions,
    ar: A,
    b: B,
    problem: Problem,
    target: Grid,
    geo: InverseFdmResult,
    force: InverseFdmResult,
)
    requires
        functional(ar),
        steady(b),
        o.metric != InverseMetric::Force,
        budgets(o) == (0nat, 0nat),
        o.q_ref@.len() == 0,
        inverse_run(ar, b, problem, target, o, Ok(geo)),
        inverse_run(
            ar,
            b,
            problem,
            target,
            (InverseFdmOptions { metric: InverseMetric::Force, ..o }),
            Ok(force),
        ),
    ensures
        geo.iterations == 0,
        exists|q_bounds: BoxBounds|
            {
                &&& #[trigger] composed(
                    problem.topology.num_edges,
                    o.signs@,
                    o.lower@,
                    o.upper@,
                    Ok(q_bounds),
                )
                &&& geo.q@ == q_bounds.clipped(force.q@)
                &&& q_bounds.admits(force.q@) ==> geo.q@ == force.q@
            },
        o.solve_for_q ==> geo.q@ == force.q@,
        geo.q@ == force.q@ ==> geo.geometric_error == force.geometric_error,
{
    let f = InverseFdmOptions { metric: InverseMetric::Force, ..o };
    zero_budgets_return_the_first_stage(o, ar, b, problem, target, geo);
    force_solves_return_the_first_stage(f, ar, b, problem, target, force);
    let (x, first1, q) = choose|q_bounds: BoxBounds, stage1: InnerSolution, q: Seq<Real>|
        {
            &&& #[trigger] found_first(ar, b, problem, target, f, q_bounds, stage1, q)
            &&& geo.q@ == q_bounds.clipped(q)
            &&& o.solve_for_q ==> geo.q@ == q
            &&& geo.q@ == q ==> inverse_run(
                ar,
                b,
                problem,
                target,
                f,
                Ok(
                    (InverseFdmResult {
                        iterations: stage1.iterations,
                        converged: stage1.converged,
                        ..geo
                    }),
                ),
            )
        };
    let (y, first2) = choose|q_bounds: BoxBounds, stage1: InnerSolution|
        {
            &&& #[trigger] found_first(ar, b, problem, target, f, q_bounds, stage1, force.q@)
            &&& force.iterations == stage1.iterations
        };
    lemma_found_first(ar, b, problem, target, f, x, y, first1, first2, q, force.q@);
    assert(composed(problem.topology.num_edges, o.signs@, o.lower@, o.upper@, Ok(x)));
    if x.admits(force.q@) {
        clipping_keeps_the_box(x, force.q@);
    }
    if geo.q@ == force.q@ {
        let same = InverseFdmResult {
            iterations: first1.iterations,
            converged: first1.converged,
            ..geo
        };
        solves_have_one_answer(ar, b, problem, target, f, Ok(same), Ok(force));
    }
}

proof fn lemma_told_alike<A: Arithmetic>(
    ar: A,
    u: Result<Vec<Real>, TheseusError>,
    v: Result<Vec<Real>, TheseusError>,
    lengths: Seq<Real>,
    solve_for_q: bool,
    source1: Source,
    source2: Source,
    r: Result<Vec<Real>, TheseusError>,
    s: Result<Vec<Real>, TheseusError>,
)
    requires
        functional(ar),
        alike(u, v),
        particular_answer(ar, u, lengths, solve_for_q, source1, r),
        particular_answer(ar, v, lengths, solve_for_q, source2, s),
    ensures
        alike(r, s),
{
}

/// Two least-squares solves by normal equations, one of them for the least sum of absolute
/// residuals without rounds, both fail, or both succeed with the same force densities.
pub proof fn no_rounds_return_the_least_squares<A: Arithmetic, B: Backend>(
    ar: A,
    b: B,
    problem: Problem,
    target: Grid,
    axes: Seq<int>,
    regularization: Real,
    solve_for_q: bool,
    r: Result<Vec<Real>, TheseusError>,
    s: Result<Vec<Real>, TheseusError>,
)
    requires
        functional(ar),
        steady(b),
        particular(
            ar,
            problem,
            target,
            axes,
            solve_for_q,
            Source::PseudoinverseL1,
            by_l1_gram(ar, b, regularization, 0),
            r,
        ),
        particular(
            ar,
            problem,
            target,
            axes,
            solve_for_q,
            Source::Pseudoinverse,
            by_gram(ar, b, regularization),
            s,
        ),
    ensures
        alike(r, s),
{
    let unknown = stage1_unknown(solve_for_q);
    let l1 = by_l1_gram(ar, b, regularization, 0);
    let l2 = by_gram(ar, b, regularization);
    let failed1 = r is Err && undescribed(r->Err_0, ar, problem, target, axes);
    let failed2 = s is Err && undescribed(s->Err_0, ar, problem, target, axes);
    if !failed1 {
        let (system1, u) = choose|
            system: EquilibriumSystem,
            x: Result<Vec<Real>, TheseusError>,
        |
            {
                &&& describes(system, ar, problem, target, unknown, axes)
                &&& #[trigger] l1(system, x)
                &&& particular_answer(
                    ar,
                    x,
                    system.lengths@,
                    solve_for_q,
                    Source::PseudoinverseL1,
                    r,
                )
            };
        assert(l1_gram_reply(ar, b, system1, regularization, 0, u));
        assert(gram_reply(ar, b, system1, regularization, u));
        if failed2 {
            lemma_described(ar, problem, target, unknown, axes, system1, s->Err_0);
        } else {
            let (system2, v) = choose|
                system: EquilibriumSystem,
                x: Result<Vec<Real>, TheseusError>,
            |
                {
                    &&& describes(system, ar, problem, target, unknown, axes)
                    &&& #[trigger] l2(system, x)
                    &&& particular_answer(
                        ar,
                        x,
                        system.lengths@,
                        solve_for_q,
                        Source::Pseudoinverse,
                        s,
                    )
                };
            assert(gram_reply(ar, b, system2, regularization, v));
            let m = system1.a@;
            if gram_indexable(ar, m, regularization) {
                lemma_gram_solved(
                    b,
                    gram_matrix(ar, m, regularization),
                    m.transposed().applied(ar, system1.p@),
                    regularization,
                    u,
                    v,
                );
            }
            lemma_told_alike(
                ar,
                u,
                v,
                system1.lengths@,
                solve_for_q,
                Source::PseudoinverseL1,
                Source::Pseudoinverse,
                r,
                s,
            );
        }
    } else if !failed2 {
        let (system2, v) = choose|
            system: EquilibriumSystem,
            x: Result<Vec<Real>, TheseusError>,
        |
            {
                &&& describes(system, ar, problem, target, unknown, axes)
                &&& #[trigger] l2(system, x)
                &&& particular_answer(
                    ar,
                    x,
                    system.lengths@,
                    solve_for_q,
                    Source::Pseudoinverse,
                    s,
                )
            };
        lemma_described(ar, problem, target, unknown, axes, system2, r->Err_0);
    }
}

} // verus!
