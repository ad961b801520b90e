//! The second stage of an inverse solve: the error of the geometry that the force
//! densities find.

use crate::arithmetic::{functional, Arithmetic};
use crate::array::fits;
use crate::backend::Backend;
use crate::bounds::{
    clip_to_box, is_ordered, ordered_outcome, shift_box, shifted, validate_unknown, validated,
    BoxBounds,
};
use crate::double::{Real, ZERO};
use crate::equilibrium::{
    describes, lemma_rows_fit, rows_of_system, undescribed, EquilibriumSystem, EquilibriumUnknown,
};
use crate::error::{Complaint, Source, TheseusError};
use crate::force_stage::axes_of;
use crate::geometry::{
    backtrack, backtracked, belongs, form_found, found_positions, geometric_tolerance,
    has_converged, measures, probe_geometry, step_converged, unmeasured, GeometryProbe,
    InverseFdmResult, Measured, GEOMETRIC_TOL,
};
use crate::inner::{inner_outcome, InnerSolution, InnerSolver};
use crate::options::{
    pick_stage2_inner, stage2_inner_of, InnerKind, InverseFdmOptions, InverseMetric,
};
use crate::sparse::SparseColMatOwned;
use crate::types::Problem;
use crate::vector::{all_finite, less, negate, negatives, subtract, zeros};
use crate::weight::MetricWeight;
use vstd::prelude::*;

verus! {

/// A step of zero.
pub open spec fn standstill(n: nat) -> Seq<Real> {
    Seq::new(n, |i: int| Real { bits: ZERO })
}

/// Whether `r` is the step that a solver found, if it is finite.
pub open spec fn step_ends(
    found: InnerSolution,
    n: nat,
    r: Result<Vec<Real>, TheseusError>,
) -> bool {
    match r {
        Ok(v) => v == found.x && validated(v@, n, Source::GeometricStep, Ok(())),
        Err(e) => validated(found.x@, n, Source::GeometricStep, Err(e)),
    }
}

/// Whether `r` can be the least-squares step with these rows, in the box as seen from `x`.
pub open spec fn step_solved<A: Arithmetic, B: Backend>(
    ar: A,
    b: B,
    system: EquilibriumSystem,
    opts: InverseFdmOptions,
    kind: InnerKind,
    m: SparseColMatOwned,
    x: Seq<Real>,
    weight: MetricWeight<B>,
    step_bounds: BoxBounds,
    before: InnerSolver<B>,
    after: InnerSolver<B>,
    r: Result<Vec<Real>, TheseusError>,
) -> bool {
    if kind == InnerKind::Spg && !step_bounds.holds(system.n_edges as nat) {
        after == before && r is Err && unseen(
            x,
            step_bounds,
            system.n_edges as nat,
            r->Err_0,
        )
    } else {
        step_found(ar, b, system, opts, kind, m, x, weight, step_bounds, before, after, r)
    }
}

/// Whether `e` tells why no projected step can be taken in the box as seen from `x`: what
/// is not finite in `x`, or else where the box is empty.
pub open spec fn unseen(x: Seq<Real>, step_bounds: BoxBounds, n: nat, e: TheseusError) -> bool {
    if x.len() == n && all_finite(x) {
        ordered_outcome(step_bounds, Err(e))
    } else {
        validated(x, n, Source::InverseFdmGeometric, Err(e))
    }
}

/// Whether `r` can be the least-squares step that a solver finds in this box.
pub open spec fn step_found<A: Arithmetic, B: Backend>(
    ar: A,
    b: B,
    system: EquilibriumSystem,
    opts: InverseFdmOptions,
    kind: InnerKind,
    m: SparseColMatOwned,
    x: Seq<Real>,
    weight: MetricWeight<B>,
    step_bounds: BoxBounds,
    before: InnerSolver<B>,
    after: InnerSolver<B>,
    r: Result<Vec<Real>, TheseusError>,
) -> bool {
    exists|found: Result<InnerSolution, TheseusError>|
        {
            &&& #[trigger] inner_outcome(
                ar,
                b,
                opts,
                kind,
                m,
                negatives(less(ar, system.a@.applied(ar, x), system.p@)),
                opts.cwls_damping,
                standstill(system.n_edges as nat),
                step_bounds,
                Some(&weight),
                true,
                before,
                after,
                found,
            )
            &&& match found {
                Err(e) => r == Err::<Vec<Real>, _>(e),
                Ok(f) => step_ends(f, system.n_edges as nat, r),
            }
        }
}

/// Whether `r` can be the system at the geometry that a probe found.
pub open spec fn system_at_found<A: Arithmetic, B: Backend>(
    ar: A,
    problem: Problem,
    system: EquilibriumSystem,
    opts: InverseFdmOptions,
    probe: GeometryProbe<B>,
    r: Result<EquilibriumSystem, TheseusError>,
) -> bool {
    let found = found_positions(
        ar,
        system.free_positions@,
        probe.neg_error@,
        system.n_free as nat,
    );
    match r {
        Ok(s) => describes(
            s,
            ar,
            problem,
            found,
            EquilibriumUnknown::ForceDensity,
            axes_of(problem, opts),
        ),
        Err(e) => undescribed(e, ar, problem, found, axes_of(problem, opts)),
    }
}

/// Whether `r` can be the step in the box as seen from `x`: with the rows at the target,
/// or by Newton's method with those at the geometry found.
pub open spec fn boxed_step<A: Arithmetic, B: Backend>(
    ar: A,
    b: B,
    problem: Problem,
    system: EquilibriumSystem,
    opts: InverseFdmOptions,
    metric: InverseMetric,
    kind: InnerKind,
    x: Seq<Real>,
    probe: GeometryProbe<B>,
    step_bounds: BoxBounds,
    before: InnerSolver<B>,
    after: InnerSolver<B>,
    r: Result<Vec<Real>, TheseusError>,
) -> bool {
    if metric == InverseMetric::GeometryNewton {
        exists|here: Result<EquilibriumSystem, TheseusError>|
            {
                &&& #[trigger] system_at_found(ar, problem, system, opts, probe, here)
                &&& match here {
                    Err(e) => r == Err::<Vec<Real>, _>(e),
                    Ok(s) => step_solved(
                        ar,
                        b,
                        system,
                        opts,
                        kind,
                        s.a,
                        x,
                        probe.weight,
                        step_bounds,
                        before,
                        after,
                        r,
                    ),
                }
            }
    } else {
        step_solved(
            ar,
            b,
            system,
            opts,
            kind,
            system.a,
            x,
            probe.weight,
            step_bounds,
            before,
            after,
            r,
        )
    }
}

/// Whether `r` can be the compliance-weighted least-squares step from `x`.
pub open spec fn step_outcome<A: Arithmetic, B: Backend>(
    ar: A,
    b: B,
    problem: Problem,
    system: EquilibriumSystem,
    opts: InverseFdmOptions,
    metric: InverseMetric,
    bounds: BoxBounds,
    kind: InnerKind,
    x: Seq<Real>,
    probe: GeometryProbe<B>,
    before: InnerSolver<B>,
    after: InnerSolver<B>,
    r: Result<Vec<Real>, TheseusError>,
) -> bool {
    exists|step_bounds: BoxBounds|
        {
            &&& #[trigger] shifted(ar, bounds, x, step_bounds)
            &&& boxed_step(
                ar,
                b,
                problem,
                system,
                opts,
                metric,
                kind,
                x,
                probe,
                step_bounds,
                before,
                after,
                r,
            )
        }
}

/// The least-squares step with these rows.
fn step_with<A: Arithmetic, B: Backend>(
    ar: &A,
    b: &B,
    system: &EquilibriumSystem,
    opts: &InverseFdmOptions,
    kind: InnerKind,
    m: &SparseColMatOwned,
    x: &Vec<Real>,
    pull: &Vec<Real>,
    start: &Vec<Real>,
    weight: &MetricWeight<B>,
    step_bounds: &BoxBounds,
    inner: &mut InnerSolver<B>,
) -> (r: Result<Vec<Real>, TheseusError>)
    requires
        m.wf(),
        m.nrows == system.n_eq,
        m.ncols == system.n_edges,
        system.n_eq + system.n_edges < usize::MAX,
        fits(system.n_eq as nat, 1),
        pull@.len() == system.n_eq,
        functional(*ar) ==> pull@ == negatives(
            less(*ar, system.a@.applied(*ar, x@), system.p@),
        ),
        start@ == standstill(system.n_edges as nat),
        x@.len() == system.n_edges,
        step_bounds.lower@.len() == system.n_edges,
        step_bounds.upper@.len() == system.n_edges,
        weight.wf(),
        weight.n_eq == system.n_eq,
    ensures
        r matches Ok(step) ==> step@.len() == system.n_edges && all_finite(step@),
        functional(*ar) ==> step_solved(
            *ar,
            *b,
            *system,
            *opts,
            kind,
            *m,
            x@,
            *weight,
            *step_bounds,
            *old(inner),
            *final(inner),
            r,
        ),
{
    if kind == InnerKind::Spg {
        if let Err(empty) = is_ordered(step_bounds) {
            return match validate_unknown(x, system.n_edges, Source::InverseFdmGeometric) {
                Ok(_) => Err(empty),
                Err(e) => Err(e),
            };
        }
    }
    let solved = inner.solve(
        ar,
        b,
        opts,
        kind,
        m,
        pull,
        opts.cwls_damping,
        start,
        step_bounds,
        Some(weight),
        true,
    );
    let ghost given = solved;
    proof {
        if functional(*ar) {
            assert(inner_outcome(
                *ar,
                *b,
                *opts,
                kind,
                *m,
                negatives(less(*ar, system.a@.applied(*ar, x@), system.p@)),
                opts.cwls_damping,
                standstill(system.n_edges as nat),
                *step_bounds,
                Some(weight),
                true,
                *old(inner),
                *inner,
                given,
            ));
        }
    }
    match solved {
        Ok(found) => match validate_unknown(&found.x, system.n_edges, Source::GeometricStep) {
            Ok(_) => Ok(found.x),
            Err(e) => Err(e),
        },
        Err(e) => Err(e),
    }
}

/// One compliance-weighted least-squares step from `x`.
fn geometric_step<A: Arithmetic, B: Backend>(
    ar: &A,
    b: &B,
    problem: &Problem,
    system: &EquilibriumSystem,
    opts: &InverseFdmOptions,
    metric: InverseMetric,
    bounds: &BoxBounds,
    x: &Vec<Real>,
    probe: &GeometryProbe<B>,
    kind: InnerKind,
    inner: &mut InnerSolver<B>,
) -> (r: Result<Vec<Real>, TheseusError>)
    requires
        problem.wf(),
        belongs(*system, *problem),
        system.n_eq == rows_of_system(*problem, axes_of(*problem, *opts)),
        bounds.holds(system.n_edges as nat),
        x@.len() == system.n_edges,
        probe.weight.wf(),
        probe.weight.n_eq == system.n_eq,
        probe.weight.n_free == system.n_free,
        probe.neg_error@.len() == system.n_eq,
    ensures
        r matches Ok(step) ==> step@.len() == system.n_edges && all_finite(step@),
        functional(*ar) ==> step_outcome(
            *ar,
            *b,
            *problem,
            *system,
            *opts,
            metric,
            *bounds,
            kind,
            x@,
            *probe,
            *old(inner),
            *final(inner),
            r,
        ),
{
    let ne: usize = system.n_edges;
    proof {
        lemma_rows_fit(*problem, axes_of(*problem, *opts));
    }
    let ax = system.a.matvec(ar, x);
    let r = subtract(ar, &ax, &system.p);
    let neg_r = negate(&r);
    let step_bounds = shift_box(ar, bounds, x);
    assert(shifted(*ar, *bounds, x@, step_bounds));
    let start = zeros(ne);
    if metric == InverseMetric::GeometryNewton {
        let current = form_found(ar, system, &probe.neg_error);
        let assembled = EquilibriumSystem::assemble(
            ar,
            problem,
            &current,
            EquilibriumUnknown::ForceDensity,
            opts.enforce_zero_rx,
            opts.enforce_zero_ry,
            opts.enforce_zero_rz,
        );
        let ghost here = assembled;
        assert(functional(*ar) ==> system_at_found(
            *ar,
            *problem,
            *system,
            *opts,
            *probe,
            here,
        ));
        match assembled {
            Ok(at_current) => step_with(
                ar,
                b,
                system,
                opts,
                kind,
                &at_current.a,
                x,
                &neg_r,
                &start,
                &probe.weight,
                &step_bounds,
                inner,
            ),
            Err(e) => Err(e),
        }
    } else {
        step_with(
            ar,
            b,
            system,
            opts,
            kind,
            &system.a,
            x,
            &neg_r,
            &start,
            &probe.weight,
            &step_bounds,
            inner,
        )
    }
}

/// Whether `found` can come of minimizing the geometric error from `seed`: it lies in the
/// box, its error was measured, and it is no worse than the seed.
pub open spec fn geometric_outcome<A: Arithmetic, B: Backend>(
    ar: A,
    b: B,
    problem: Problem,
    system: EquilibriumSystem,
    opts: InverseFdmOptions,
    max_outer: nat,
    bounds: BoxBounds,
    seed: Seq<Real>,
    found: InverseFdmResult,
) -> bool {
    &&& bounds.admits(found.q@)
    &&& found.iterations <= max_outer
    &&& exists|first: GeometryProbe<B>, last: GeometryProbe<B>|
        {
            &&& #[trigger] measures(first, ar, b, problem, system, bounds.clipped(seed))
            &&& #[trigger] measures(last, ar, b, problem, system, found.q@)
            &&& found.geometric_error == last.error
            &&& last.error.below(first.error) || (last.error == first.error && found.q@
                == bounds.clipped(seed))
            &&& first.error.at_most(geometric_tolerance(opts)) ==> {
                &&& found.q@ == bounds.clipped(seed)
                &&& found.iterations == 0
                &&& found.converged
            }
            &&& !first.error.at_most(geometric_tolerance(opts)) ==> {
                &&& all_finite(found.q@)
                &&& found.iterations == 0 <==> max_outer == 0
                &&& max_outer == 0 ==> !found.converged && found.q@ == bounds.clipped(seed)
                &&& found.converged ==> last.error.below(first.error)
            }
        }
}

/// Where the descent of the geometric error stands.
#[verifier::reject_recursive_types(B)]
pub ghost struct Descent<B: Backend> {
    pub x: Seq<Real>,
    pub probe: GeometryProbe<B>,
    pub iterations: nat,
    pub converged: bool,
    pub stuck: bool,
    pub solvers: InnerSolver<B>,
}

/// Whether `next` can follow `s` along this step, as far as it can be taken.
pub open spec fn moved_along<A: Arithmetic, B: Backend>(
    ar: A,
    b: B,
    problem: Problem,
    system: EquilibriumSystem,
    opts: InverseFdmOptions,
    bounds: BoxBounds,
    s: Descent<B>,
    step: Seq<Real>,
    after: InnerSolver<B>,
    next: Result<Descent<B>, TheseusError>,
) -> bool {
    exists|found: Result<Option<Measured<B>>, TheseusError>|
        {
            &&& #[trigger] backtracked(
                ar,
                b,
                problem,
                system,
                bounds,
                s.x,
                step,
                s.probe.error,
                found,
            )
            &&& match found {
                Err(e) => next == Err::<Descent<B>, _>(e),
                Ok(None) => next == Ok::<_, TheseusError>(
                    Descent {
                        iterations: s.iterations + 1,
                        converged: false,
                        stuck: true,
                        solvers: after,
                        ..s
                    },
                ),
                Ok(Some(to)) => next == Ok::<_, TheseusError>(
                    Descent {
                        x: to.x@,
                        probe: to.probe,
                        iterations: s.iterations + 1,
                        converged: step_converged(
                            ar,
                            s.x,
                            s.probe.error,
                            to.x@,
                            to.probe.error,
                            geometric_tolerance(opts),
                        ),
                        stuck: false,
                        solvers: after,
                    },
                ),
            }
        }
}

/// Whether `next` can follow `s` in one iteration.
pub open spec fn descent_step<A: Arithmetic, B: Backend>(
    ar: A,
    b: B,
    problem: Problem,
    system: EquilibriumSystem,
    opts: InverseFdmOptions,
    metric: InverseMetric,
    bounds: BoxBounds,
    kind: InnerKind,
    s: Descent<B>,
    next: Result<Descent<B>, TheseusError>,
) -> bool {
    exists|after: InnerSolver<B>, step: Result<Vec<Real>, TheseusError>|
        {
            &&& #[trigger] step_outcome(
                ar,
                b,
                problem,
                system,
                opts,
                metric,
                bounds,
                kind,
                s.x,
                s.probe,
                s.solvers,
                after,
                step,
            )
            &&& match step {
                Err(e) => next == Err::<Descent<B>, _>(e),
                Ok(d) => moved_along(
                    ar,
                    b,
                    problem,
                    system,
                    opts,
                    bounds,
                    s,
                    d@,
                    after,
                    next,
                ),
            }
        }
}

/// Whether `s` can be where the descent stands `k` iterations after `first`.
pub open spec fn descent_reaches<A: Arithmetic, B: Backend>(
    ar: A,
    b: B,
    problem: Problem,
    system: EquilibriumSystem,
    opts: InverseFdmOptions,
    metric: InverseMetric,
    bounds: BoxBounds,
    kind: InnerKind,
    first: Descent<B>,
    k: nat,
    s: Descent<B>,
) -> bool
    decreases k,
{
    if k == 0 {
        s == first
    } else {
        exists|before: Descent<B>|
            {
                &&& descent_reaches(
                    ar,
                    b,
                    problem,
                    system,
                    opts,
                    metric,
                    bounds,
                    kind,
                    first,
                    (k - 1) as nat,
                    before,
                )
                &&& !before.converged && !before.stuck
                &&& #[trigger] descent_step(
                    ar,
                    b,
                    problem,
                    system,
                    opts,
                    metric,
                    bounds,
                    kind,
                    before,
                    Ok(s),
                )
            }
    }
}

/// Whether `r` is where the descent stands, if that is finite.
pub open spec fn descent_ends<B: Backend>(
    s: Descent<B>,
    n: nat,
    r: Result<InverseFdmResult, TheseusError>,
) -> bool {
    match r {
        Ok(found) => {
            &&& validated(s.x, n, Source::InverseFdmGeometric, Ok(()))
            &&& found.q@ == s.x
            &&& found.iterations == s.iterations
            &&& found.converged == s.converged
            &&& found.geometric_error == s.probe.error
        },
        Err(e) => validated(s.x, n, Source::InverseFdmGeometric, Err(e)),
    }
}

/// Whether `r` can be what the descent comes to: it goes on until it converges, is stuck,
/// has used up its iterations, or one fails.
pub open spec fn descent_run<A: Arithmetic, B: Backend>(
    ar: A,
    b: B,
    problem: Problem,
    system: EquilibriumSystem,
    opts: InverseFdmOptions,
    metric: InverseMetric,
    max_outer: nat,
    bounds: BoxBounds,
    kind: InnerKind,
    first: Descent<B>,
    after: InnerSolver<B>,
    r: Result<InverseFdmResult, TheseusError>,
) -> bool {
    exists|k: nat, s: Descent<B>|
        {
            &&& #[trigger] descent_reaches(
                ar,
                b,
                problem,
                system,
                opts,
                metric,
                bounds,
                kind,
                first,
                k,
                s,
            )
            &&& k <= max_outer
            &&& if k == max_outer || s.converged || s.stuck {
                after == s.solvers && descent_ends(s, system.n_edges as nat, r)
            } else {
                r is Err && descent_step(
                    ar,
                    b,
                    problem,
                    system,
                    opts,
                    metric,
                    bounds,
                    kind,
                    s,
                    Err(r->Err_0),
                )
            }
        }
}

/// Whether `r` can be the measurement of the error at `q`.
pub open spec fn probed<A: Arithmetic, B: Backend>(
    ar: A,
    b: B,
    problem: Problem,
    system: EquilibriumSystem,
    q: Seq<Real>,
    r: Result<GeometryProbe<B>, TheseusError>,
) -> bool {
    match r {
        Ok(probe) => measures(probe, ar, b, problem, system, q),
        Err(e) => unmeasured(e, ar, b, problem, system, q),
    }
}

/// Where the descent starts.
pub open spec fn descent_start<B: Backend>(
    x: Seq<Real>,
    probe: GeometryProbe<B>,
    solvers: InnerSolver<B>,
) -> Descent<B> {
    Descent { x, probe, iterations: 0, converged: false, stuck: false, solvers }
}

/// Whether `r` is the start itself.
pub open spec fn stays(x: Seq<Real>, error: Real, r: Result<InverseFdmResult, TheseusError>) -> bool {
    r matches Ok(found) && found.q@ == x && found.iterations == 0 && found.converged
        && found.geometric_error == error
}

/// Whether `r` can be what a descent from a seed comes to.
pub open spec fn descent_outcome<A: Arithmetic, B: Backend>(
    ar: A,
    b: B,
    problem: Problem,
    system: EquilibriumSystem,
    opts: InverseFdmOptions,
    metric: InverseMetric,
    max_outer: nat,
    bounds: BoxBounds,
    seed: Seq<Real>,
    kind: InnerKind,
    before: InnerSolver<B>,
    after: InnerSolver<B>,
    r: Result<InverseFdmResult, TheseusError>,
) -> bool {
    let x = bounds.clipped(seed);
    if seed.len() != system.n_edges {
        r == Err::<InverseFdmResult, _>(
            TheseusError::Shape(
                Complaint::ReferenceCount {
                    found: seed.len() as usize,
                    expected: system.n_edges,
                },
            ),
        )
    } else {
        exists|first: Result<GeometryProbe<B>, TheseusError>|
            {
                &&& #[trigger] probed(ar, b, problem, system, x, first)
                &&& match first {
                    Err(e) => r == Err::<InverseFdmResult, _>(e),
                    Ok(probe) => if probe.error.at_most(geometric_tolerance(opts)) {
                        after == before && stays(x, probe.error, r)
                    } else {
                        descent_run(
                            ar,
                            b,
                            problem,
                            system,
                            opts,
                            metric,
                            max_outer,
                            bounds,
                            kind,
                            descent_start(x, probe, before),
                            after,
                            r,
                        )
                    },
                }
            }
    }
}

/// Stage-2 outer loop for the geometric metrics, always in q coordinates.
///
/// Each iteration rebuilds the compliance at the current q, measures the exact
/// geometric error, solves one weighted least-squares step, and backtracks on
/// the measured error. The step form makes the damping act as
/// Levenberg--Marquardt damping.  Every accepted step lowers the error, so the last
/// point is the best one.
pub fn solve_geometric_outer<A: Arithmetic, B: Backend>(
    ar: &A,
    b: &B,
    problem: &Problem,
    system: &EquilibriumSystem,
    opts: &InverseFdmOptions,
    metric: InverseMetric,
    max_outer: usize,
    bounds: &BoxBounds,
    seed: &Vec<Real>,
    kind: InnerKind,
    inner: &mut InnerSolver<B>,
) -> (r: Result<InverseFdmResult, TheseusError>)
    requires
        problem.wf(),
        belongs(*system, *problem),
        system.n_eq == rows_of_system(*problem, axes_of(*problem, *opts)),
        bounds.holds(system.n_edges as nat),
        metric != InverseMetric::Force,
    ensures
        r matches Ok(found) ==> seed@.len() == system.n_edges && geometric_outcome(
            *ar,
            *b,
            *problem,
            *system,
            *opts,
            max_outer as nat,
            *bounds,
            seed@,
            found,
        ),
        functional(*ar) ==> descent_outcome(
            *ar,
            *b,
            *problem,
            *system,
            *opts,
            metric,
            max_outer as nat,
            *bounds,
            seed@,
            kind,
            *old(inner),
            *final(inner),
            r,
        ),
{
    let ne: usize = system.n_edges;
    if seed.len() != ne {
        return Err(
            TheseusError::Shape(
                Complaint::ReferenceCount { found: seed.len(), expected: ne },
            ),
        );
    }
    let tolerance = opts.tol.max(Real { bits: GEOMETRIC_TOL });
    let mut x = clip_to_box(seed, bounds);
    let attempt = probe_geometry(ar, b, problem, system, &x);
    let ghost given = attempt;
    assert(probed(*ar, *b, *problem, *system, bounds.clipped(seed@), given));
    let mut probe = match attempt {
        Ok(p) => p,
        Err(e) => {
            return Err(e);
        },
    };
    let ghost first = probe;
    let ghost origin = descent_start(bounds.clipped(seed@), first, *inner);
    assert(measures(first, *ar, *b, *problem, *system, bounds.clipped(seed@)));
    if probe.error.le(tolerance) {
        let geometric_error = probe.error;
        let found = InverseFdmResult { q: x, iterations: 0, converged: true, geometric_error };
        assert(measures(first, *ar, *b, *problem, *system, found.q@));
        return Ok(found);
    }
    let mut iterations: usize = 0;
    let mut converged = false;
    let mut stuck = false;
    while iterations < max_outer && !converged && !stuck
        invariant
            problem.wf(),
            belongs(*system, *problem),
            system.n_eq == rows_of_system(*problem, axes_of(*problem, *opts)),
            bounds.holds(ne as nat),
            ne == system.n_edges,
            seed@.len() == ne,
            x@.len() == ne,
            bounds.admits(x@),
            measures(probe, *ar, *b, *problem, *system, x@),
            probe.error.below(first.error) || (probe.error == first.error && x@ == bounds.clipped(
                seed@,
            )),
            iterations <= max_outer,
            iterations == 0 ==> !converged && !stuck && x@ == bounds.clipped(seed@),
            converged ==> probe.error.below(first.error),
            !first.error.at_most(tolerance),
            tolerance == geometric_tolerance(*opts),
            probed(*ar, *b, *problem, *system, bounds.clipped(seed@), Ok(first)),
            origin == descent_start(bounds.clipped(seed@), first, *old(inner)),
            functional(*ar) ==> descent_reaches(
                *ar,
                *b,
                *problem,
                *system,
                *opts,
                metric,
                *bounds,
                kind,
                origin,
                iterations as nat,
                Descent {
                    x: x@,
                    probe,
                    iterations: iterations as nat,
                    converged,
                    stuck,
                    solvers: *inner,
                },
            ),
        decreases max_outer - iterations,
    {
        let ghost before = Descent {
            x: x@,
            probe,
            iterations: iterations as nat,
            converged,
            stuck,
            solvers: *inner,
        };
        iterations = iterations + 1;
        let stepped = geometric_step(
            ar,
            b,
            problem,
            system,
            opts,
            metric,
            bounds,
            &x,
            &probe,
            kind,
            inner,
        );
        let ghost reply = stepped;
        proof {
            if functional(*ar) {
                assert(step_outcome(
                    *ar,
                    *b,
                    *problem,
                    *system,
                    *opts,
                    metric,
                    *bounds,
                    kind,
                    before.x,
                    before.probe,
                    before.solvers,
                    *inner,
                    reply,
                ));
            }
        }
        let step = match stepped {
            Ok(s) => s,
            Err(e) => {
                let r: Result<InverseFdmResult, TheseusError> = Err(e);
                proof {
                    if functional(*ar) {
                        assert(descent_step(
                            *ar,
                            *b,
                            *problem,
                            *system,
                            *opts,
                            metric,
                            *bounds,
                            kind,
                            before,
                            Err(r->Err_0),
                        ));
                        assert(descent_run(
                            *ar,
                            *b,
                            *problem,
                            *system,
                            *opts,
                            metric,
                            max_outer as nat,
                            *bounds,
                            kind,
                            origin,
                            *inner,
                            r,
                        ));
                    }
                }
                return r;
            },
        };
        let moved = backtrack(ar, b, problem, system, bounds, &x, &step, probe.error);
        let ghost taken = moved;
        proof {
            if functional(*ar) {
                assert(backtracked(
                    *ar,
                    *b,
                    *problem,
                    *system,
                    *bounds,
                    before.x,
                    step@,
                    before.probe.error,
                    taken,
                ));
            }
        }
        match moved {
            Ok(Some(next)) => {
                converged = has_converged(
                    ar,
                    &x,
                    probe.error,
                    &next.x,
                    next.probe.error,
                    tolerance,
                );
                x = next.x;
                probe = next.probe;
            },
            Ok(None) => {
                converged = false;
                stuck = true;
            },
            Err(e) => {
                let r: Result<InverseFdmResult, TheseusError> = Err(e);
                proof {
                    if functional(*ar) {
                        assert(moved_along(
                            *ar,
                            *b,
                            *problem,
                            *system,
                            *opts,
                            *bounds,
                            before,
                            step@,
                            *inner,
                            Err(r->Err_0),
                        ));
                        assert(descent_step(
                            *ar,
                            *b,
                            *problem,
                            *system,
                            *opts,
                            metric,
                            *bounds,
                            kind,
                            before,
                            Err(r->Err_0),
                        ));
                        assert(descent_run(
                            *ar,
                            *b,
                            *problem,
                            *system,
                            *opts,
                            metric,
                            max_outer as nat,
                            *bounds,
                            kind,
                            origin,
                            *inner,
                            r,
                        ));
                    }
                }
                return r;
            },
        }
        proof {
            if functional(*ar) {
                let after = Descent {
                    x: x@,
                    probe,
                    iterations: iterations as nat,
                    converged,
                    stuck,
                    solvers: *inner,
                };
                assert(moved_along(
                    *ar,
                    *b,
                    *problem,
                    *system,
                    *opts,
                    *bounds,
                    before,
                    step@,
                    *inner,
                    Ok(after),
                ));
                assert(descent_step(
                    *ar,
                    *b,
                    *problem,
                    *system,
                    *opts,
                    metric,
                    *bounds,
                    kind,
                    before,
                    Ok(after),
                ));
            }
        }
    }
    let ghost end = Descent {
        x: x@,
        probe,
        iterations: iterations as nat,
        converged,
        stuck,
        solvers: *inner,
    };
    let r = match validate_unknown(&x, ne, Source::InverseFdmGeometric) {
        Ok(_) => {
            let geometric_error = probe.error;
            let found = InverseFdmResult { q: x, iterations, converged, geometric_error };
            assert(measures(probe, *ar, *b, *problem, *system, found.q@));
            Ok(found)
        },
        Err(e) => Err(e),
    };
    proof {
        if functional(*ar) {
            assert(descent_ends(end, ne as nat, r));
            assert(descent_run(
                *ar,
                *b,
                *problem,
                *system,
                *opts,
                metric,
                max_outer as nat,
                *bounds,
                kind,
                origin,
                *inner,
                r,
            ));
        }
    }
    r
}

/// The iteration budgets with the Jacobian frozen and with Newton steps.
///
/// Callers of the plain geometric metric use the outer budget as their frozen budget.
pub open spec fn budgets(opts: InverseFdmOptions) -> (nat, nat) {
    match opts.metric {
        InverseMetric::Force => (0, 0),
        InverseMetric::Geometry => (opts.max_outer as nat, 0),
        InverseMetric::GeometryNewton => (opts.max_frozen_outer as nat, opts.max_outer as nat),
    }
}

/// Where the geometric stage starts: at the reference force densities, if there are any,
/// else where the force stage ended.
pub open spec fn seed_of(opts: InverseFdmOptions, stage1_q: Seq<Real>) -> Seq<Real> {
    if opts.q_ref@.len() == 0 {
        stage1_q
    } else {
        opts.q_ref@
    }
}

/// Whether the reported error is the measured one.
pub open spec fn measured<A: Arithmetic, B: Backend>(
    ar: A,
    b: B,
    problem: Problem,
    system: EquilibriumSystem,
    found: InverseFdmResult,
) -> bool {
    exists|probe: GeometryProbe<B>|
        #[trigger] measures(probe, ar, b, problem, system, found.q@) && probe.error
            == found.geometric_error
}

/// Whether `found` can come of a Newton phase that starts where the frozen phase came to
/// `middle`.
pub open spec fn two_phases<A: Arithmetic, B: Backend>(
    ar: A,
    b: B,
    problem: Problem,
    system: EquilibriumSystem,
    opts: InverseFdmOptions,
    bounds: BoxBounds,
    seed: Seq<Real>,
    middle: InverseFdmResult,
    found: InverseFdmResult,
) -> bool {
    &&& geometric_outcome(ar, b, problem, system, opts, budgets(opts).0, bounds, seed, middle)
    &&& exists|last: InverseFdmResult|
        {
            &&& #[trigger] geometric_outcome(
                ar,
                b,
                problem,
                system,
                opts,
                budgets(opts).1,
                bounds,
                middle.q@,
                last,
            )
            &&& found.q == last.q
            &&& found.converged == last.converged
            &&& found.geometric_error == last.geometric_error
            &&& found.iterations == if middle.iterations + last.iterations > usize::MAX {
                usize::MAX as int
            } else {
                middle.iterations + last.iterations
            }
        }
}

/// Whether `r` is what the second phase makes of the first: its result, with the
/// iterations of both.
pub open spec fn phases_joined(
    middle: InverseFdmResult,
    last: Result<InverseFdmResult, TheseusError>,
    r: Result<InverseFdmResult, TheseusError>,
) -> bool {
    match last {
        Err(e) => r == Err::<InverseFdmResult, _>(e),
        Ok(l) => {
            &&& r is Ok
            &&& r->Ok_0.q == l.q
            &&& r->Ok_0.converged == l.converged
            &&& r->Ok_0.geometric_error == l.geometric_error
            &&& r->Ok_0.iterations == if middle.iterations + l.iterations > usize::MAX {
                usize::MAX as int
            } else {
                middle.iterations + l.iterations
            }
        },
    }
}

/// Whether `r` can be what a phase of Newton's method makes of a result.
pub open spec fn newton_phase<A: Arithmetic, B: Backend>(
    ar: A,
    b: B,
    problem: Problem,
    system: EquilibriumSystem,
    opts: InverseFdmOptions,
    bounds: BoxBounds,
    kind: InnerKind,
    middle: InverseFdmResult,
    solvers: InnerSolver<B>,
    r: Result<InverseFdmResult, TheseusError>,
) -> bool {
    if budgets(opts).1 == 0 {
        r == Ok::<_, TheseusError>(middle)
    } else {
        exists|after: InnerSolver<B>, last: Result<InverseFdmResult, TheseusError>|
            {
                &&& #[trigger] descent_outcome(
                    ar,
                    b,
                    problem,
                    system,
                    opts,
                    InverseMetric::GeometryNewton,
                    budgets(opts).1,
                    bounds,
                    middle.q@,
                    kind,
                    solvers,
                    after,
                    last,
                )
                &&& phases_joined(middle, last, r)
            }
    }
}

/// Whether `r` can be the result of the second stage: a phase with the rows at the target,
/// then one by Newton's method, each within its budget.
pub open spec fn geometric_stage_outcome<A: Arithmetic, B: Backend>(
    ar: A,
    b: B,
    problem: Problem,
    system: EquilibriumSystem,
    opts: InverseFdmOptions,
    bounds: BoxBounds,
    stage1_q: Seq<Real>,
    before: InnerSolver<B>,
    r: Result<InverseFdmResult, TheseusError>,
) -> bool {
    let kind = stage2_inner_of(opts, bounds.finite_somewhere());
    let seed = seed_of(opts, stage1_q);
    if budgets(opts).0 == 0 && budgets(opts).1 > 0 {
        exists|after: InnerSolver<B>| #[trigger]
            descent_outcome(
                ar,
                b,
                problem,
                system,
                opts,
                InverseMetric::GeometryNewton,
                budgets(opts).1,
                bounds,
                seed,
                kind,
                before,
                after,
                r,
            )
    } else {
        exists|solvers: InnerSolver<B>, middle: Result<InverseFdmResult, TheseusError>|
            {
                &&& #[trigger] descent_outcome(
                    ar,
                    b,
                    problem,
                    system,
                    opts,
                    InverseMetric::Geometry,
                    budgets(opts).0,
                    bounds,
                    seed,
                    kind,
                    before,
                    solvers,
                    middle,
                )
                &&& match middle {
                    Err(e) => r == Err::<InverseFdmResult, _>(e),
                    Ok(m) => newton_phase(
                        ar,
                        b,
                        problem,
                        system,
                        opts,
                        bounds,
                        kind,
                        m,
                        solvers,
                        r,
                    ),
                }
            }
    }
}

/// Solves the geometric stage: the frozen phase, then the Newton phase from where it ended.
///
/// With both budgets zero the seed is reported without a compliance-weighted update.
pub fn solve_geometric_stage<A: Arithmetic, B: Backend>(
    ar: &A,
    b: &B,
    problem: &Problem,
    system: &EquilibriumSystem,
    opts: &InverseFdmOptions,
    bounds: &BoxBounds,
    stage1_q: &Vec<Real>,
    inner: &mut InnerSolver<B>,
) -> (r: Result<InverseFdmResult, TheseusError>)
    requires
        problem.wf(),
        belongs(*system, *problem),
        system.n_eq == rows_of_system(*problem, axes_of(*problem, *opts)),
        bounds.holds(system.n_edges as nat),
        stage1_q@.len() == system.n_edges,
        opts.metric != InverseMetric::Force,
    ensures
        functional(*ar) ==> geometric_stage_outcome(
            *ar,
            *b,
            *problem,
            *system,
            *opts,
            *bounds,
            stage1_q@,
            *old(inner),
            r,
        ),
        r matches Ok(found) ==> bounds.admits(found.q@),
        r matches Ok(found) ==> found.iterations <= budgets(*opts).0 + budgets(*opts).1,
        r matches Ok(found) ==> measured(*ar, *b, *problem, *system, found),
        r is Ok && (budgets(*opts).0 == 0 || budgets(*opts).1 == 0) ==> geometric_outcome(
            *ar,
            *b,
            *problem,
            *system,
            *opts,
            budgets(*opts).0 + budgets(*opts).1,
            *bounds,
            seed_of(*opts, stage1_q@),
            r->Ok_0,
        ),
        r is Ok && budgets(*opts).0 > 0 && budgets(*opts).1 > 0 ==> exists|
            middle: InverseFdmResult,
        |
            #[trigger] two_phases(
                *ar,
                *b,
                *problem,
                *system,
                *opts,
                *bounds,
                seed_of(*opts, stage1_q@),
                middle,
                r->Ok_0,
            ),
{
    let kind = pick_stage2_inner(opts, bounds);
    let (frozen, newton): (usize, usize) = match opts.metric {
        InverseMetric::Force => (0, 0),
        InverseMetric::Geometry => (opts.max_outer, 0),
        InverseMetric::GeometryNewton => (opts.max_frozen_outer, opts.max_outer),
    };
    assert(budgets(*opts) == (frozen as nat, newton as nat));
    let seed = if opts.q_ref.len() == 0 {
        stage1_q.clone()
    } else {
        opts.q_ref.clone()
    };
    let ghost wanted = seed_of(*opts, stage1_q@);
    assert(seed@ == wanted);
    if frozen == 0 && newton > 0 {
        let r = solve_geometric_outer(
            ar,
            b,
            problem,
            system,
            opts,
            InverseMetric::GeometryNewton,
            newton,
            bounds,
            &seed,
            kind,
            inner,
        );
        assert(functional(*ar) ==> descent_outcome(
            *ar,
            *b,
            *problem,
            *system,
            *opts,
            InverseMetric::GeometryNewton,
            budgets(*opts).1,
            *bounds,
            wanted,
            kind,
            *old(inner),
            *inner,
            r,
        ));
        return r;
    }
    let first = solve_geometric_outer(
        ar,
        b,
        problem,
        system,
        opts,
        InverseMetric::Geometry,
        frozen,
        bounds,
        &seed,
        kind,
        inner,
    );
    let ghost given = first;
    let ghost solvers = *inner;
    assert(functional(*ar) ==> descent_outcome(
        *ar,
        *b,
        *problem,
        *system,
        *opts,
        InverseMetric::Geometry,
        budgets(*opts).0,
        *bounds,
        wanted,
        kind,
        *old(inner),
        solvers,
        given,
    ));
    let middle = match first {
        Ok(found) => found,
        Err(e) => {
            return Err(e);
        },
    };
    if newton == 0 {
        return Ok(middle);
    }
    let second = solve_geometric_outer(
        ar,
        b,
        problem,
        system,
        opts,
        InverseMetric::GeometryNewton,
        newton,
        bounds,
        &middle.q,
        kind,
        inner,
    );
    let ghost reply = second;
    assert(functional(*ar) ==> descent_outcome(
        *ar,
        *b,
        *problem,
        *system,
        *opts,
        InverseMetric::GeometryNewton,
        budgets(*opts).1,
        *bounds,
        middle.q@,
        kind,
        solvers,
        *inner,
        reply,
    ));
    let last = match second {
        Ok(found) => found,
        Err(e) => {
            let r: Result<InverseFdmResult, TheseusError> = Err(e);
            assert(phases_joined(middle, reply, r));
            return r;
        },
    };
    let ghost kept = last;
    let found = InverseFdmResult {
        q: last.q,
        iterations: middle.iterations.saturating_add(last.iterations),
        converged: last.converged,
        geometric_error: last.geometric_error,
    };
    proof {
        assert(geometric_outcome(
            *ar,
            *b,
            *problem,
            *system,
            *opts,
            budgets(*opts).1,
            *bounds,
            middle.q@,
            kept,
        ));
        assert(two_phases(
            *ar,
            *b,
            *problem,
            *system,
            *opts,
            *bounds,
            wanted,
            middle,
            found,
        ));
    }
    let r: Result<InverseFdmResult, TheseusError> = Ok(found);
    assert(r->Ok_0 == found);
    assert(phases_joined(middle, reply, r));
    r
}

/// A descent never loses ground: wherever it stands, the error is below the first, or it
/// has not left its start.
pub proof fn descent_never_loses_ground<A: Arithmetic, B: Backend>(
    ar: A,
    b: B,
    problem: Problem,
    system: EquilibriumSystem,
    opts: InverseFdmOptions,
    metric: InverseMetric,
    bounds: BoxBounds,
    kind: InnerKind,
    first: Descent<B>,
    k: nat,
    s: Descent<B>,
)
    requires
        descent_reaches(ar, b, problem, system, opts, metric, bounds, kind, first, k, s),
    ensures
        s.probe.error.below(first.probe.error) || (s.x == first.x && s.probe == first.probe),
    decreases k,
{
    if k > 0 {
        let before = choose|before: Descent<B>|
            {
                &&& descent_reaches(
                    ar,
                    b,
                    problem,
                    system,
                    opts,
                    metric,
                    bounds,
                    kind,
                    first,
                    (k - 1) as nat,
                    before,
                )
                &&& !before.converged && !before.stuck
                &&& #[trigger] descent_step(
                    ar,
                    b,
                    problem,
                    system,
                    opts,
                    metric,
                    bounds,
                    kind,
                    before,
                    Ok(s),
                )
            };
        descent_never_loses_ground(
            ar,
            b,
            problem,
            system,
            opts,
            metric,
            bounds,
            kind,
            first,
            (k - 1) as nat,
            before,
        );
    }
}

/// The second phase keeps the result of the first unless it betters it.
pub proof fn second_phase_is_never_worse<A: Arithmetic, B: Backend>(
    ar: A,
    b: B,
    problem: Problem,
    system: EquilibriumSystem,
    opts: InverseFdmOptions,
    bounds: BoxBounds,
    seed: Seq<Real>,
    middle: InverseFdmResult,
    found: InverseFdmResult,
)
    requires
        two_phases(ar, b, problem, system, opts, bounds, seed, middle, found),
    ensures
        exists|start: GeometryProbe<B>|
            {
                &&& #[trigger] measures(start, ar, b, problem, system, middle.q@)
                &&& found.geometric_error.below(start.error) || (found.geometric_error
                    == start.error && found.q@ == middle.q@)
            },
{
    crate::bounds::clipping_keeps_the_box(bounds, middle.q@);
}

/// Without a budget the second stage returns what the first stage found, where no other
/// start is given.
pub proof fn no_budget_keeps_the_first_stage<A: Arithmetic, B: Backend>(
    ar: A,
    b: B,
    problem: Problem,
    system: EquilibriumSystem,
    opts: InverseFdmOptions,
    bounds: BoxBounds,
    stage1_q: Seq<Real>,
    before: InnerSolver<B>,
    found: InverseFdmResult,
)
    requires
        budgets(opts) == (0nat, 0nat),
        opts.q_ref@.len() == 0,
        stage1_q.len() == system.n_edges,
        bounds.admits(stage1_q),
        geometric_stage_outcome(
            ar,
            b,
            problem,
            system,
            opts,
            bounds,
            stage1_q,
            before,
            Ok(found),
        ),
    ensures
        found.q@ == stage1_q,
        found.iterations == 0,
{
    crate::bounds::clipping_keeps_the_box(bounds, stage1_q);
}

} // verus!
