//! Inverse FDM solvers: find force densities q from a target geometry.
//!
//! Direct unconstrained particulars use Gram, the saddle (Moore--Penrose /
//! Tikhonov), or sparse QR. Iterative unconstrained uses LSQR. A finite box
//! (signs and/or bounds) uses a conic solver (Direct) or spectral projected
//! gradient (Iterative). Without `use_l2` any of them is wrapped in IRLS.

use crate::arithmetic::{functional, product_of, Arithmetic};
use crate::array::{Array2, Grid};
use crate::backend::Backend;
use crate::bounds::{
    are_numbers, broadcast, broadcasts, compose_box, composed,
    composed_boxes_respect_signs_and_bounds, composed_lower, composed_upper, force_box_outcome,
    ordered, ordered_outcome, q_box_to_force_box, respects, sound, usable_length, BoxBounds,
};
use crate::double::{Real, INFINITY, NAN, NEG_INFINITY, ZERO};
use crate::equilibrium::{
    assembly_outcome, collapsed, describes, indexable, lengths_of, reaction_axes, shaped,
    undescribed, vanishing, EquilibriumSystem, EquilibriumUnknown,
};
use crate::error::{Complaint, TheseusError};
use crate::force_stage::{axes_of, force_stage_outcome, rounds_of, solve_force_stage};
use crate::geometric_stage::{
    budgets, geometric_stage_outcome, measured, probed, solve_geometric_stage,
};
use crate::geometry::{
    forces_to_q, geometric_complaint, measures, probe_geometry, validate_geometric_options,
    GeometryProbe, InverseFdmResult,
};
use crate::inner::{InnerSolution, InnerSolver};
use crate::options::{
    inner_of, pick_inner, InverseFdmOptions, InverseMetric, LinearAlgebra, ParticularMethod,
    DEFAULT_MAX_OUTER, DEFAULT_TOLERANCE,
};
use crate::spg::SpgBoxResult;
use crate::types::Problem;
use crate::vector::{all_finite, quotients};
use vstd::prelude::*;

verus! {

/// Whether the numbers among the options can be used.
pub open spec fn admissible(opts: InverseFdmOptions) -> bool {
    &&& !opts.regularization.below(Real { bits: ZERO })
    &&& opts.cwls_damping.finite()
    &&& !opts.cwls_damping.below(Real { bits: ZERO })
}

/// The unknown of the force stage.
pub open spec fn stage1_unknown(solve_for_q: bool) -> EquilibriumUnknown {
    if solve_for_q {
        EquilibriumUnknown::ForceDensity
    } else {
        EquilibriumUnknown::Force
    }
}

/// Whether member forces lie within the bounds on force densities times the lengths.
pub open spec fn forces_within<A: Arithmetic>(
    ar: A,
    bounds: BoxBounds,
    lengths: Seq<Real>,
    t: Seq<Real>,
) -> bool {
    forall|e: int|
        0 <= e < t.len() ==> (#[trigger] t[e]).within(
            product_of(ar, bounds.lower@[e], lengths[e]),
            product_of(ar, bounds.upper@[e], lengths[e]),
        )
}

/// Whether `found` can be the result of a force solve over the box.
pub open spec fn force_outcome<A: Arithmetic, B: Backend>(
    ar: A,
    b: B,
    problem: Problem,
    target: Grid,
    opts: InverseFdmOptions,
    bounds: BoxBounds,
    found: InverseFdmResult,
) -> bool {
    &&& found.q@.len() == problem.topology.num_edges
    &&& opts.solve_for_q ==> all_finite(found.q@) && bounds.contains(found.q@)
    &&& !opts.solve_for_q && functional(ar) ==> exists|t: Seq<Real>|
        {
            &&& t.len() == found.q@.len()
            &&& all_finite(t)
            &&& found.q@ == #[trigger] quotients(ar, t, lengths_of(ar, problem, target))
            &&& forces_within(ar, bounds, lengths_of(ar, problem, target), t)
        }
    &&& !opts.use_l2 ==> 1 <= found.iterations <= rounds_of(opts)
    &&& found.geometric_error.bits == NAN || exists|system: EquilibriumSystem|
        {
            &&& describes(
                system,
                ar,
                problem,
                target,
                EquilibriumUnknown::ForceDensity,
                axes_of(problem, opts),
            )
            &&& #[trigger] measured(ar, b, problem, system, found)
        }
}

/// Whether `found` can be the result of a geometric solve over the box.
pub open spec fn stage2_outcome<A: Arithmetic, B: Backend>(
    ar: A,
    b: B,
    problem: Problem,
    target: Grid,
    opts: InverseFdmOptions,
    bounds: BoxBounds,
    found: InverseFdmResult,
) -> bool {
    &&& geometric_complaint(problem, opts.use_l2) is None
    &&& bounds.admits(found.q@)
    &&& found.iterations <= budgets(opts).0 + budgets(opts).1
    &&& exists|system: EquilibriumSystem|
        {
            &&& describes(
                system,
                ar,
                problem,
                target,
                EquilibriumUnknown::ForceDensity,
                axes_of(problem, opts),
            )
            &&& #[trigger] measured(ar, b, problem, system, found)
        }
}

/// Whether an inverse solve can answer `r`.
///
/// Options are judged first, then the target, then the bounds.  A result lies in the box
/// that signs and bounds make, as far as the unknowns are force densities.
pub open spec fn inverse_promise<A: Arithmetic, B: Backend>(
    ar: A,
    b: B,
    problem: Problem,
    target: Grid,
    opts: InverseFdmOptions,
    r: Result<InverseFdmResult, TheseusError>,
) -> bool {
    let axes = axes_of(problem, opts);
    if opts.regularization.below(Real { bits: ZERO }) {
        r == Err::<InverseFdmResult, _>(TheseusError::Solver(Complaint::NegativeRegularization))
    } else if !admissible(opts) {
        r == Err::<InverseFdmResult, _>(TheseusError::Solver(Complaint::CwlsDamping))
    } else if !shaped(problem, target) || !indexable(problem, axes) {
        r is Err && undescribed(r->Err_0, ar, problem, target, axes)
    } else {
        &&& functional(ar) && collapsed(ar, problem, target) ==> r is Err && undescribed(
            r->Err_0,
            ar,
            problem,
            target,
            axes,
        )
        &&& functional(ar) && !collapsed(ar, problem, target) ==> forall|e: TheseusError|
            #[trigger] composed(
                problem.topology.num_edges,
                opts.signs@,
                opts.lower@,
                opts.upper@,
                Err(e),
            ) ==> r == Err::<InverseFdmResult, _>(e)
        &&& opts.metric != InverseMetric::Force && geometric_complaint(
            problem,
            opts.use_l2,
        ) is Some ==> r is Err
        &&& r matches Ok(found) ==> exists|bounds: BoxBounds|
            {
                &&& #[trigger] composed(
                    problem.topology.num_edges,
                    opts.signs@,
                    opts.lower@,
                    opts.upper@,
                    Ok(bounds),
                )
                &&& bounds.holds(problem.topology.num_edges as nat)
                &&& if opts.metric == InverseMetric::Force {
                    force_outcome(ar, b, problem, target, opts, bounds, found)
                } else {
                    stage2_outcome(ar, b, problem, target, opts, bounds, found)
                }
            }
    }
}

/// The geometric error that a measurement tells, if there is one.
pub open spec fn error_told<B: Backend>(probe: Result<GeometryProbe<B>, TheseusError>) -> Real {
    match probe {
        Ok(p) => p.error,
        Err(_) => Real { bits: NAN },
    }
}

/// Whether `error` can be the geometric error at `q`, or unknown.
pub open spec fn error_reported<A: Arithmetic, B: Backend>(
    ar: A,
    b: B,
    problem: Problem,
    system: Result<EquilibriumSystem, TheseusError>,
    q: Seq<Real>,
    error: Real,
) -> bool {
    match system {
        Err(_) => error.bits == NAN,
        Ok(s) => exists|probe: Result<GeometryProbe<B>, TheseusError>|
            #[trigger] probed(ar, b, problem, s, q, probe) && error == error_told(probe),
    }
}

/// Whether `r` is the solution of the first stage, with the geometric error there.
pub open spec fn force_reported<A: Arithmetic, B: Backend>(
    ar: A,
    b: B,
    problem: Problem,
    system: Result<EquilibriumSystem, TheseusError>,
    q: Seq<Real>,
    stage1: InnerSolution,
    r: Result<InverseFdmResult, TheseusError>,
) -> bool {
    r matches Ok(found) && {
        &&& found.q@ == q
        &&& found.iterations == stage1.iterations
        &&& found.converged == stage1.converged
        &&& error_reported(ar, b, problem, system, q, found.geometric_error)
    }
}

/// Whether `r` can be what comes of the solution of the first stage: that itself, or what
/// the second stage makes of it.
pub open spec fn second_stage<A: Arithmetic, B: Backend>(
    ar: A,
    b: B,
    problem: Problem,
    target: Grid,
    opts: InverseFdmOptions,
    lengths: Seq<Real>,
    q_bounds: BoxBounds,
    stage1: InnerSolution,
    solvers: InnerSolver<B>,
    r: Result<InverseFdmResult, TheseusError>,
) -> bool {
    let q = if opts.solve_for_q {
        stage1.x@
    } else {
        quotients(ar, stage1.x@, lengths)
    };
    if opts.metric != InverseMetric::Force && geometric_complaint(problem, opts.use_l2) is Some {
        r == Err::<InverseFdmResult, _>(
            TheseusError::Solver(geometric_complaint(problem, opts.use_l2)->0),
        )
    } else {
        exists|system: Result<EquilibriumSystem, TheseusError>|
            {
                &&& #[trigger] assembly_outcome(
                    ar,
                    problem,
                    target,
                    EquilibriumUnknown::ForceDensity,
                    axes_of(problem, opts),
                    system,
                )
                &&& if opts.metric == InverseMetric::Force {
                    force_reported(ar, b, problem, system, q, stage1, r)
                } else {
                    match system {
                        Err(e) => r == Err::<InverseFdmResult, _>(e),
                        Ok(s) => geometric_stage_outcome(
                            ar,
                            b,
                            problem,
                            s,
                            opts,
                            q_bounds,
                            q,
                            solvers,
                            r,
                        ),
                    }
                }
            }
    }
}

/// Whether `r` can be what comes of a solve whose first stage works in this box.
pub open spec fn first_stage<A: Arithmetic, B: Backend>(
    ar: A,
    b: B,
    problem: Problem,
    target: Grid,
    opts: InverseFdmOptions,
    system: EquilibriumSystem,
    q_bounds: BoxBounds,
    bounds: BoxBounds,
    r: Result<InverseFdmResult, TheseusError>,
) -> bool {
    exists|
        fresh: InnerSolver<B>,
        solvers: InnerSolver<B>,
        found: Result<InnerSolution, TheseusError>,
    |
        {
            &&& fresh.is_fresh()
            &&& #[trigger] force_stage_outcome(
                ar,
                b,
                system,
                opts,
                bounds,
                inner_of(opts, bounds.finite_somewhere()),
                fresh,
                solvers,
                found,
            )
            &&& match found {
                Err(e) => r == Err::<InverseFdmResult, _>(e),
                Ok(stage1) => second_stage(
                    ar,
                    b,
                    problem,
                    target,
                    opts,
                    system.lengths@,
                    q_bounds,
                    stage1,
                    solvers,
                    r,
                ),
            }
        }
}

/// Whether `r` can be the box of the first stage, whose unknowns are force densities or
/// member forces.
pub open spec fn stage1_box<A: Arithmetic>(
    ar: A,
    opts: InverseFdmOptions,
    lengths: Seq<Real>,
    q_bounds: BoxBounds,
    r: Result<BoxBounds, TheseusError>,
) -> bool {
    if opts.solve_for_q {
        r matches Ok(x) && x.lower@ == q_bounds.lower@ && x.upper@ == q_bounds.upper@
    } else {
        exists|b: Result<BoxBounds, TheseusError>|
            {
                &&& #[trigger] force_box_outcome(ar, q_bounds, lengths, b)
                &&& match b {
                    Err(e) => r == Err::<BoxBounds, _>(e),
                    Ok(x) => ordered_outcome(x, r),
                }
            }
    }
}

/// Whether `r` can be what comes of a solve in this box of force densities.
pub open spec fn boxed_inverse<A: Arithmetic, B: Backend>(
    ar: A,
    b: B,
    problem: Problem,
    target: Grid,
    opts: InverseFdmOptions,
    system: EquilibriumSystem,
    q_bounds: BoxBounds,
    r: Result<InverseFdmResult, TheseusError>,
) -> bool {
    exists|bounds: Result<BoxBounds, TheseusError>|
        {
            &&& #[trigger] stage1_box(ar, opts, system.lengths@, q_bounds, bounds)
            &&& match bounds {
                Err(e) => r == Err::<InverseFdmResult, _>(e),
                Ok(x) => first_stage(ar, b, problem, target, opts, system, q_bounds, x, r),
            }
        }
}

/// Whether `r` can be what comes of a solve on this system.
pub open spec fn system_inverse<A: Arithmetic, B: Backend>(
    ar: A,
    b: B,
    problem: Problem,
    target: Grid,
    opts: InverseFdmOptions,
    system: EquilibriumSystem,
    r: Result<InverseFdmResult, TheseusError>,
) -> bool {
    exists|q_bounds: Result<BoxBounds, TheseusError>|
        {
            &&& #[trigger] composed(
                problem.topology.num_edges,
                opts.signs@,
                opts.lower@,
                opts.upper@,
                q_bounds,
            )
            &&& match q_bounds {
                Err(e) => r == Err::<InverseFdmResult, _>(e),
                Ok(x) => boxed_inverse(ar, b, problem, target, opts, system, x, r),
            }
        }
}

/// Whether `r` can be what comes of an inverse solve.
pub open spec fn inverse_run<A: Arithmetic, B: Backend>(
    ar: A,
    b: B,
    problem: Problem,
    target: Grid,
    opts: InverseFdmOptions,
    r: Result<InverseFdmResult, TheseusError>,
) -> bool {
    if opts.regularization.below(Real { bits: ZERO }) {
        r == Err::<InverseFdmResult, _>(TheseusError::Solver(Complaint::NegativeRegularization))
    } else if !admissible(opts) {
        r == Err::<InverseFdmResult, _>(TheseusError::Solver(Complaint::CwlsDamping))
    } else {
        exists|system: Result<EquilibriumSystem, TheseusError>|
            {
                &&& #[trigger] assembly_outcome(
                    ar,
                    problem,
                    target,
                    stage1_unknown(opts.solve_for_q),
                    axes_of(problem, opts),
                    system,
                )
                &&& match system {
                    Err(e) => r == Err::<InverseFdmResult, _>(e),
                    Ok(s) => system_inverse(ar, b, problem, target, opts, s, r),
                }
            }
    }
}

/// Whether `r` can be what comes of an inverse solve, and keeps what is promised of it.
pub open spec fn inverse_outcome<A: Arithmetic, B: Backend>(
    ar: A,
    b: B,
    problem: Problem,
    target: Grid,
    opts: InverseFdmOptions,
    r: Result<InverseFdmResult, TheseusError>,
) -> bool {
    &&& inverse_promise(ar, b, problem, target, opts, r)
    &&& functional(ar) ==> inverse_run(ar, b, problem, target, opts, r)
}

/// Whether a solve comes to work in its box: options, target, intervals and lengths give
/// it no reason to stop before.
pub open spec fn box_is_entered<A: Arithmetic>(
    ar: A,
    problem: Problem,
    target: Grid,
    regularization: Real,
    damping: Real,
    axes: Seq<int>,
    solve_for_q: bool,
    signs: Seq<i32>,
    lower: Seq<Real>,
    upper: Seq<Real>,
) -> bool {
    let n = problem.topology.num_edges as nat;
    &&& !regularization.below(Real { bits: ZERO })
    &&& damping.finite()
    &&& !damping.below(Real { bits: ZERO })
    &&& shaped(problem, target)
    &&& indexable(problem, axes)
    &&& functional(ar) ==> !collapsed(ar, problem, target)
    &&& broadcasts(signs.len(), n) && broadcasts(lower.len(), n) && broadcasts(upper.len(), n)
    &&& forall|i: int|
        0 <= i < n ==> !composed_upper(n, signs, upper)[i].below(
            #[trigger] composed_lower(n, signs, lower)[i],
        )
    &&& functional(ar) && !solve_for_q ==> forall|e: int|
        0 <= e < n ==> usable_length(#[trigger] lengths_of(ar, problem, target)[e])
}

/// Whether bounds that are not numbers stay out of a solve: there are none, or the solve
/// stops before it comes to its box.
pub fn bounds_are_usable<A: Arithmetic>(
    ar: &A,
    problem: &Problem,
    target_free_xyz: &Array2,
    opts: &InverseFdmOptions,
) -> (r: bool)
    requires
        problem.wf(),
    ensures
        functional(*ar) ==> r == (box_is_entered(
            *ar,
            *problem,
            target_free_xyz@,
            opts.regularization,
            opts.cwls_damping,
            axes_of(*problem, *opts),
            opts.solve_for_q,
            opts.signs@,
            opts.lower@,
            opts.upper@,
        ) ==> sound(
            problem.topology.num_edges as nat,
            opts.signs@,
            opts.lower@,
            opts.upper@,
        )),
{
    let zero = Real { bits: ZERO };
    if opts.regularization.lt(zero) || !opts.cwls_damping.is_finite() || opts.cwls_damping.lt(zero) {
        return true;
    }
    let bounds = match compose_box(
        problem.topology.num_edges,
        &opts.signs,
        &opts.lower,
        &opts.upper,
    ) {
        Ok(bounds) => bounds,
        Err(_) => {
            return true;
        },
    };
    if are_numbers(&bounds.lower) && are_numbers(&bounds.upper) {
        return true;
    }
    let unknown = if opts.solve_for_q {
        EquilibriumUnknown::ForceDensity
    } else {
        EquilibriumUnknown::Force
    };
    let system = match EquilibriumSystem::assemble(
        ar,
        problem,
        target_free_xyz,
        unknown,
        opts.enforce_zero_rx,
        opts.enforce_zero_ry,
        opts.enforce_zero_rz,
    ) {
        Ok(s) => s,
        Err(e) => {
            proof {
                if functional(*ar) && shaped(*problem, target_free_xyz@) && indexable(
                    *problem,
                    axes_of(*problem, *opts),
                ) {
                    assert(collapsed(*ar, *problem, target_free_xyz@));
                }
            }
            return true;
        },
    };
    proof {
        if functional(*ar) {
            assert forall|e: int| 0 <= e < problem.topology.num_edges implies !vanishing(
                #[trigger] lengths_of(*ar, *problem, target_free_xyz@)[e],
            ) by {
                assert(!vanishing(system.lengths@[e]));
            }
        }
    }
    if opts.solve_for_q {
        return false;
    }
    match q_box_to_force_box(ar, &bounds, &system.lengths) {
        Ok(_) => {
            proof {
                if functional(*ar) {
                    assert forall|e: int| 0 <= e < problem.topology.num_edges implies
                        usable_length(
                        #[trigger] lengths_of(*ar, *problem, target_free_xyz@)[e],
                    ) by {
                        assert(usable_length(system.lengths@[e]));
                    }
                }
            }
            false
        },
        Err(_) => true,
    }
}

/// Solve the inverse-FDM particular with Direct/Iterative linear algebra,
/// optional box bounds, and optional IRLS.
pub fn solve_inverse_fdm<A: Arithmetic, B: Backend>(
    ar: &A,
    b: &B,
    problem: &Problem,
    target_free_xyz: &Array2,
    opts: InverseFdmOptions,
) -> (r: Result<InverseFdmResult, TheseusError>)
    requires
        problem.wf(),
        box_is_entered(
            *ar,
            *problem,
            target_free_xyz@,
            opts.regularization,
            opts.cwls_damping,
            axes_of(*problem, opts),
            opts.solve_for_q,
            opts.signs@,
            opts.lower@,
            opts.upper@,
        ) ==> sound(
            problem.topology.num_edges as nat,
            opts.signs@,
            opts.lower@,
            opts.upper@,
        ),
    ensures
        inverse_outcome(*ar, *b, *problem, target_free_xyz@, opts, r),
{
    let opts = &opts;
    if opts.regularization.lt(Real { bits: ZERO }) {
        return Err(TheseusError::Solver(Complaint::NegativeRegularization));
    }
    if !opts.cwls_damping.is_finite() || opts.cwls_damping.lt(Real { bits: ZERO }) {
        return Err(TheseusError::Solver(Complaint::CwlsDamping));
    }
    let unknown = if opts.solve_for_q {
        EquilibriumUnknown::ForceDensity
    } else {
        EquilibriumUnknown::Force
    };
    let assembled = EquilibriumSystem::assemble(
        ar,
        problem,
        target_free_xyz,
        unknown,
        opts.enforce_zero_rx,
        opts.enforce_zero_ry,
        opts.enforce_zero_rz,
    );
    let ghost axes = axes_of(*problem, *opts);
    let ghost whole = assembled;
    assert(assembly_outcome(
        *ar,
        *problem,
        target_free_xyz@,
        stage1_unknown(opts.solve_for_q),
        axes,
        whole,
    ));
    let system = match assembled {
        Ok(s) => s,
        Err(e) => {
            proof {
                if functional(*ar) && shaped(*problem, target_free_xyz@) && indexable(
                    *problem,
                    axes_of(*problem, *opts),
                ) {
                    assert(collapsed(*ar, *problem, target_free_xyz@));
                }
            }
            return Err(e);
        },
    };
    proof {
        if functional(*ar) {
            assert forall|e: int| 0 <= e < problem.topology.num_edges implies !vanishing(
                #[trigger] lengths_of(*ar, *problem, target_free_xyz@)[e],
            ) by {
                assert(!vanishing(system.lengths@[e]));
            }
        }
    }
    let ghost start = system;
    let boxed = compose_box(problem.topology.num_edges, &opts.signs, &opts.lower, &opts.upper);
    let ghost given_box = boxed;
    assert(composed(
        problem.topology.num_edges,
        opts.signs@,
        opts.lower@,
        opts.upper@,
        given_box,
    ));
    let q_bounds = match boxed {
        Ok(bounds) => bounds,
        Err(e) => {
            return Err(e);
        },
    };
    let turned = if opts.solve_for_q {
        Ok(q_bounds.clone())
    } else {
        let forces = q_box_to_force_box(ar, &q_bounds, &system.lengths);
        let ghost given = forces;
        assert(force_box_outcome(*ar, q_bounds, system.lengths@, given));
        match forces {
            Ok(bounds) => {
                proof {
                    if functional(*ar) {
                        assert forall|e: int| 0 <= e < problem.topology.num_edges implies
                            usable_length(
                            #[trigger] lengths_of(*ar, *problem, target_free_xyz@)[e],
                        ) by {
                            assert(usable_length(system.lengths@[e]));
                        }
                    }
                }
                ordered(bounds)
            },
            Err(e) => Err(e),
        }
    };
    let ghost stage1_given = turned;
    assert(stage1_box(*ar, *opts, start.lengths@, q_bounds, stage1_given));
    let stage1_bounds = match turned {
        Ok(bounds) => bounds,
        Err(e) => {
            return Err(e);
        },
    };
    proof {
        let n = problem.topology.num_edges as nat;
        assert(box_is_entered(
            *ar,
            *problem,
            target_free_xyz@,
            opts.regularization,
            opts.cwls_damping,
            axes,
            opts.solve_for_q,
            opts.signs@,
            opts.lower@,
            opts.upper@,
        ));
        assert(q_bounds.holds(n));
    }
    let kind = pick_inner(opts, &stage1_bounds);
    let mut inner = InnerSolver::new();
    let ghost fresh = inner;
    let solved = solve_force_stage(
        ar,
        b,
        problem,
        &system,
        opts,
        &stage1_bounds,
        kind,
        &mut inner,
    );
    let ghost solvers = inner;
    let ghost given_stage1 = solved;
    assert(functional(*ar) ==> force_stage_outcome(
        *ar,
        *b,
        start,
        *opts,
        stage1_bounds,
        inner_of(*opts, stage1_bounds.finite_somewhere()),
        fresh,
        solvers,
        given_stage1,
    ));
    let stage1 = match solved {
        Ok(found) => found,
        Err(e) => {
            return Err(e);
        },
    };
    let ghost t = stage1.x@;
    let ghost kept = stage1;
    proof {
        if functional(*ar) {
            assert forall|r: Result<InverseFdmResult, TheseusError>|
                #[trigger] second_stage(
                    *ar,
                    *b,
                    *problem,
                    target_free_xyz@,
                    *opts,
                    start.lengths@,
                    q_bounds,
                    kept,
                    solvers,
                    r,
                ) implies inverse_run(*ar, *b, *problem, target_free_xyz@, *opts, r) by {
                assert(first_stage(
                    *ar,
                    *b,
                    *problem,
                    target_free_xyz@,
                    *opts,
                    start,
                    q_bounds,
                    stage1_bounds,
                    r,
                ));
                assert(boxed_inverse(
                    *ar,
                    *b,
                    *problem,
                    target_free_xyz@,
                    *opts,
                    start,
                    q_bounds,
                    r,
                ));
                assert(system_inverse(
                    *ar,
                    *b,
                    *problem,
                    target_free_xyz@,
                    *opts,
                    start,
                    r,
                ));
            }
        }
    }
    let iterations: usize = stage1.iterations;
    let converged = stage1.converged;
    let stage1_q = if opts.solve_for_q {
        stage1.x
    } else {
        forces_to_q(ar, &stage1.x, &system.lengths)
    };
    if opts.metric.is_geometric() {
        match validate_geometric_options(problem, opts) {
            Ok(_) => {},
            Err(e) => {
                let r: Result<InverseFdmResult, TheseusError> = Err(e);
                assert(second_stage(
                    *ar,
                    *b,
                    *problem,
                    target_free_xyz@,
                    *opts,
                    start.lengths@,
                    q_bounds,
                    kept,
                    solvers,
                    r,
                ));
                return r;
            },
        }
    }
    let ghost q = stage1_q@;
    let q_system = EquilibriumSystem::assemble(
        ar,
        problem,
        target_free_xyz,
        EquilibriumUnknown::ForceDensity,
        opts.enforce_zero_rx,
        opts.enforce_zero_ry,
        opts.enforce_zero_rz,
    );
    let ghost at_q = q_system;
    assert(assembly_outcome(
        *ar,
        *problem,
        target_free_xyz@,
        EquilibriumUnknown::ForceDensity,
        axes,
        at_q,
    ));
    if opts.metric.is_geometric() {
        let r = match q_system {
            Ok(s) => {
                let r = solve_geometric_stage(
                    ar,
                    b,
                    problem,
                    &s,
                    opts,
                    &q_bounds,
                    &stage1_q,
                    &mut inner,
                );
                assert(r matches Ok(found) ==> measured(*ar, *b, *problem, s, found));
                r
            },
            Err(e) => Err(e),
        };
        assert(functional(*ar) ==> second_stage(
            *ar,
            *b,
            *problem,
            target_free_xyz@,
            *opts,
            start.lengths@,
            q_bounds,
            kept,
            solvers,
            r,
        ));
        return r;
    }
    // Report the geometric error even for a force-metric solve so the two are
    // comparable on the same scale. A singular Laplacian just means "unknown".
    let mut geometric_error = Real { bits: NAN };
    match q_system {
        Ok(s) => {
            let attempt = probe_geometry(ar, b, problem, &s, &stage1_q);
            let ghost reply = attempt;
            assert(probed(*ar, *b, *problem, s, q, reply));
            match attempt {
                Ok(probe) => {
                    geometric_error = probe.error;
                },
                Err(_) => {},
            }
        },
        Err(_) => {},
    }
    assert(error_reported(*ar, *b, *problem, at_q, q, geometric_error));
    let found = InverseFdmResult { q: stage1_q, iterations, converged, geometric_error };
    proof {
        if at_q is Ok && geometric_error.bits != NAN {
            let s = at_q->Ok_0;
            let probe = choose|probe: Result<GeometryProbe<B>, TheseusError>|
                #[trigger] probed(*ar, *b, *problem, s, q, probe) && geometric_error
                    == error_told(probe);
            assert(measures(probe->Ok_0, *ar, *b, *problem, s, found.q@));
            assert(measured(*ar, *b, *problem, s, found));
        }
        if functional(*ar) && !opts.solve_for_q {
            let lengths = lengths_of(*ar, *problem, target_free_xyz@);
            assert(found.q@ == quotients(*ar, t, lengths));
            assert forall|e: int| 0 <= e < t.len() implies (#[trigger] t[e]).within(
                product_of(*ar, q_bounds.lower@[e], lengths[e]),
                product_of(*ar, q_bounds.upper@[e], lengths[e]),
            ) by {
                assert(t[e].within(stage1_bounds.lower@[e], stage1_bounds.upper@[e]));
            }
        }
        assert(force_outcome(
            *ar,
            *b,
            *problem,
            target_free_xyz@,
            *opts,
            q_bounds,
            found,
        ));
    }
    let r: Result<InverseFdmResult, TheseusError> = Ok(found);
    proof {
        assert(force_reported(*ar, *b, *problem, at_q, q, kept, r));
        if functional(*ar) {
            assert(second_stage(
                *ar,
                *b,
                *problem,
                target_free_xyz@,
                *opts,
                start.lengths@,
                q_bounds,
                kept,
                solvers,
                r,
            ));
        }
    }
    r
}

/// Whether `r` holds the force densities alone of what an inverse solve can answer.
pub open spec fn inverse_q<A: Arithmetic, B: Backend>(
    ar: A,
    b: B,
    problem: Problem,
    target: Grid,
    opts: InverseFdmOptions,
    r: Result<Vec<Real>, TheseusError>,
) -> bool {
    exists|whole: Result<InverseFdmResult, TheseusError>|
        {
            &&& #[trigger] inverse_outcome(ar, b, problem, target, opts, whole)
            &&& match whole {
                Ok(found) => r == Ok::<_, TheseusError>(found.q),
                Err(e) => r == Err::<Vec<Real>, _>(e),
            }
        }
}

/// Whether these are the options of an unconstrained Direct solve under the force metric.
pub open spec fn unconstrained_options(
    o: InverseFdmOptions,
    regularization: Real,
    use_l2: bool,
    max_l1_iter: usize,
    particular_method: ParticularMethod,
    enforce_zero_rx: bool,
    enforce_zero_ry: bool,
    enforce_zero_rz: bool,
    solve_for_q: bool,
) -> bool {
    &&& o.regularization == regularization
    &&& o.use_l2 == use_l2
    &&& o.max_l1_iter == max_l1_iter
    &&& o.particular_method == particular_method
    &&& o.linear_algebra == LinearAlgebra::Direct
    &&& o.enforce_zero_rx == enforce_zero_rx
    &&& o.enforce_zero_ry == enforce_zero_ry
    &&& o.enforce_zero_rz == enforce_zero_rz
    &&& o.solve_for_q == solve_for_q
    &&& o.signs@.len() == 0
    &&& o.lower@.len() == 0
    &&& o.upper@.len() == 0
    &&& o.max_iter == 500
    &&& o.tol.bits == DEFAULT_TOLERANCE
    &&& o.metric == InverseMetric::Force
    &&& o.q_ref@.len() == 0
    &&& o.max_frozen_outer == 0
    &&& o.max_outer == DEFAULT_MAX_OUTER
    &&& o.cwls_damping.bits == DEFAULT_TOLERANCE
}

/// Dispatch to an inverse-FDM particular. Unconstrained Direct keeps the
/// historical Gram / saddle / QR arguments.
pub fn solve_pseudoinverse_dispatch<A: Arithmetic, B: Backend>(
    ar: &A,
    b: &B,
    problem: &Problem,
    target_free_xyz: &Array2,
    regularization: Real,
    use_l2: bool,
    max_l1_iter: usize,
    particular_method: ParticularMethod,
    enforce_zero_rx: bool,
    enforce_zero_ry: bool,
    enforce_zero_rz: bool,
    solve_for_q: bool,
) -> (r: Result<Vec<Real>, TheseusError>)
    requires
        problem.wf(),
    ensures
        exists|o: InverseFdmOptions|
            {
                &&& unconstrained_options(
                    o,
                    regularization,
                    use_l2,
                    max_l1_iter,
                    particular_method,
                    enforce_zero_rx,
                    enforce_zero_ry,
                    enforce_zero_rz,
                    solve_for_q,
                )
                &&& #[trigger] inverse_q(*ar, *b, *problem, target_free_xyz@, o, r)
            },
{
    let opts = InverseFdmOptions::direct_unconstrained(
        regularization,
        use_l2,
        max_l1_iter,
        particular_method,
        enforce_zero_rx,
        enforce_zero_ry,
        enforce_zero_rz,
        solve_for_q,
    );
    let ghost kept = opts;
    let whole = solve_inverse_fdm(ar, b, problem, target_free_xyz, opts);
    let ghost given = whole;
    let r = match whole {
        Ok(found) => Ok(found.q),
        Err(e) => Err(e),
    };
    proof {
        assert(inverse_outcome(*ar, *b, *problem, target_free_xyz@, kept, given));
        assert(inverse_q(*ar, *b, *problem, target_free_xyz@, kept, r));
    }
    r
}

/// Default inverse-FDM particular: the conic solver in member-force coordinates.
pub fn solve_inverse_fdm_default<A: Arithmetic, B: Backend>(
    ar: &A,
    b: &B,
    problem: &Problem,
    target_free_xyz: &Array2,
    enforce_zero_rx: bool,
    enforce_zero_ry: bool,
    enforce_zero_rz: bool,
) -> (r: Result<Vec<Real>, TheseusError>)
    requires
        problem.wf(),
    ensures
        exists|o: InverseFdmOptions|
            {
                &&& unconstrained_options(
                    o,
                    Real { bits: ZERO },
                    true,
                    20,
                    ParticularMethod::Clarabel,
                    enforce_zero_rx,
                    enforce_zero_ry,
                    enforce_zero_rz,
                    false,
                )
                &&& #[trigger] inverse_q(*ar, *b, *problem, target_free_xyz@, o, r)
            },
{
    solve_pseudoinverse_dispatch(
        ar,
        b,
        problem,
        target_free_xyz,
        Real { bits: ZERO },
        true,
        20,
        ParticularMethod::Clarabel,
        enforce_zero_rx,
        enforce_zero_ry,
        enforce_zero_rz,
        false,
    )
}

/// Whether these are the options of an iterative solve in a box under the force metric.
pub open spec fn spg_options(
    o: InverseFdmOptions,
    max_iter: usize,
    tol: Real,
    signs: Seq<i32>,
    lower: Seq<Real>,
    upper: Seq<Real>,
    regularization: Real,
    enforce_zero_rx: bool,
    enforce_zero_ry: bool,
    enforce_zero_rz: bool,
    solve_for_q: bool,
) -> bool {
    &&& o.regularization == regularization
    &&& o.use_l2
    &&& o.max_l1_iter == 1
    &&& o.particular_method == ParticularMethod::Augmented
    &&& o.linear_algebra == LinearAlgebra::Iterative
    &&& o.enforce_zero_rx == enforce_zero_rx
    &&& o.enforce_zero_ry == enforce_zero_ry
    &&& o.enforce_zero_rz == enforce_zero_rz
    &&& o.solve_for_q == solve_for_q
    &&& o.signs@ == signs
    &&& o.lower@ == lower
    &&& o.upper@ == upper
    &&& o.max_iter == max_iter
    &&& o.tol == tol
    &&& o.metric == InverseMetric::Force
    &&& o.q_ref@.len() == 0
    &&& o.max_frozen_outer == 0
    &&& o.max_outer == DEFAULT_MAX_OUTER
    &&& o.cwls_damping.bits == DEFAULT_TOLERANCE
}

/// Box-constrained SPG particular.
pub fn solve_spg_box<A: Arithmetic, B: Backend>(
    ar: &A,
    b: &B,
    problem: &Problem,
    target_free_xyz: &Array2,
    max_iter: usize,
    tol: Real,
    signs: &Vec<i32>,
    lower: &Vec<Real>,
    upper: &Vec<Real>,
    regularization: Real,
    enforce_zero_rx: bool,
    enforce_zero_ry: bool,
    enforce_zero_rz: bool,
    solve_for_q: bool,
) -> (r: Result<SpgBoxResult, TheseusError>)
    requires
        problem.wf(),
        box_is_entered(
            *ar,
            *problem,
            target_free_xyz@,
            regularization,
            Real { bits: DEFAULT_TOLERANCE },
            reaction_axes(
                problem.n_fixed(),
                enforce_zero_rx,
                enforce_zero_ry,
                enforce_zero_rz,
            ),
            solve_for_q,
            signs@,
            lower@,
            upper@,
        ) ==> sound(problem.topology.num_edges as nat, signs@, lower@, upper@),
    ensures
        exists|o: InverseFdmOptions, whole: Result<InverseFdmResult, TheseusError>|
            {
                &&& spg_options(
                    o,
                    max_iter,
                    tol,
                    signs@,
                    lower@,
                    upper@,
                    regularization,
                    enforce_zero_rx,
                    enforce_zero_ry,
                    enforce_zero_rz,
                    solve_for_q,
                )
                &&& #[trigger] inverse_outcome(*ar, *b, *problem, target_free_xyz@, o, whole)
                &&& match whole {
                    Ok(found) => r matches Ok(s) && s.q == found.q && s.iterations
                        == found.iterations && s.converged == found.converged,
                    Err(e) => r == Err::<SpgBoxResult, _>(e),
                }
            },
{
    let opts = InverseFdmOptions {
        regularization,
        use_l2: true,
        max_l1_iter: 1,
        particular_method: ParticularMethod::Augmented,
        linear_algebra: LinearAlgebra::Iterative,
        enforce_zero_rx,
        enforce_zero_ry,
        enforce_zero_rz,
        solve_for_q,
        signs: signs.clone(),
        lower: lower.clone(),
        upper: upper.clone(),
        max_iter,
        tol,
        metric: InverseMetric::Force,
        q_ref: Vec::new(),
        max_frozen_outer: 0,
        max_outer: DEFAULT_MAX_OUTER,
        cwls_damping: Real { bits: DEFAULT_TOLERANCE },
    };
    let ghost kept = opts;
    let whole = solve_inverse_fdm(ar, b, problem, target_free_xyz, opts);
    let ghost given = whole;
    assert(inverse_outcome(*ar, *b, *problem, target_free_xyz@, kept, given));
    match whole {
        Ok(found) => Ok(
            SpgBoxResult {
                q: found.q,
                iterations: found.iterations,
                converged: found.converged,
            },
        ),
        Err(e) => Err(e),
    }
}

/// A result has one force density for each edge, and keeps to the box that signs and bounds
/// make.  Force densities that are solved for are finite and lie in it.  Those of a geometric
/// metric lie in it as far as they are numbers.  Where member forces are solved for, each
/// force density is a force over the length of its edge, and the forces are finite and lie
/// between the bounds times the lengths.
pub proof fn results_keep_to_the_box<A: Arithmetic, B: Backend>(
    ar: A,
    b: B,
    problem: Problem,
    target: Grid,
    opts: InverseFdmOptions,
    bounds: BoxBounds,
    found: InverseFdmResult,
)
    requires
        functional(ar),
        composed(problem.topology.num_edges, opts.signs@, opts.lower@, opts.upper@, Ok(bounds)),
        inverse_outcome(ar, b, problem, target, opts, Ok(found)),
    ensures
        found.q@.len() == problem.topology.num_edges,
        opts.metric != InverseMetric::Force ==> bounds.admits(found.q@),
        opts.metric == InverseMetric::Force && opts.solve_for_q ==> all_finite(found.q@)
            && bounds.contains(found.q@),
        opts.metric == InverseMetric::Force && !opts.solve_for_q ==> exists|t: Seq<Real>|
            {
                &&& t.len() == found.q@.len()
                &&& all_finite(t)
                &&& found.q@ == #[trigger] quotients(ar, t, lengths_of(ar, problem, target))
                &&& forces_within(ar, bounds, lengths_of(ar, problem, target), t)
            },
{
    let n = problem.topology.num_edges;
    let same = choose|same: BoxBounds|
        {
            &&& #[trigger] composed(n, opts.signs@, opts.lower@, opts.upper@, Ok(same))
            &&& same.holds(n as nat)
            &&& if opts.metric == InverseMetric::Force {
                force_outcome(ar, b, problem, target, opts, same, found)
            } else {
                stage2_outcome(ar, b, problem, target, opts, same, found)
            }
        };
    assert(same.lower@ == bounds.lower@ && same.upper@ == bounds.upper@);
    if opts.metric == InverseMetric::Force && !opts.solve_for_q {
        let t = choose|t: Seq<Real>|
            {
                &&& t.len() == found.q@.len()
                &&& all_finite(t)
                &&& found.q@ == #[trigger] quotients(ar, t, lengths_of(ar, problem, target))
                &&& forces_within(ar, same, lengths_of(ar, problem, target), t)
            };
        assert(forces_within(ar, bounds, lengths_of(ar, problem, target), t));
    }
}

/// Force densities that are solved for, or found by the geometry, lie within their bounds
/// and have their signs, as far as they are numbers.
pub proof fn found_densities_respect_signs_and_bounds<A: Arithmetic, B: Backend>(
    ar: A,
    b: B,
    problem: Problem,
    target: Grid,
    opts: InverseFdmOptions,
    found: InverseFdmResult,
)
    requires
        sound(
            problem.topology.num_edges as nat,
            opts.signs@,
            opts.lower@,
            opts.upper@,
        ),
        opts.solve_for_q || opts.metric != InverseMetric::Force,
        inverse_outcome(ar, b, problem, target, opts, Ok(found)),
    ensures
        found.q@.len() == problem.topology.num_edges,
        forall|i: int|
            0 <= i < found.q@.len() && !(#[trigger] found.q@[i]).nan() ==> respects(
                found.q@[i],
                broadcast(opts.signs@, found.q@.len(), 0i32)[i],
                broadcast(opts.lower@, found.q@.len(), Real { bits: NEG_INFINITY })[i],
                broadcast(opts.upper@, found.q@.len(), Real { bits: INFINITY })[i],
            ),
{
    let n = problem.topology.num_edges;
    let bounds = choose|bounds: BoxBounds|
        {
            &&& #[trigger] composed(n, opts.signs@, opts.lower@, opts.upper@, Ok(bounds))
            &&& bounds.holds(n as nat)
            &&& if opts.metric == InverseMetric::Force {
                force_outcome(ar, b, problem, target, opts, bounds, found)
            } else {
                stage2_outcome(ar, b, problem, target, opts, bounds, found)
            }
        };
    assert(bounds.admits(found.q@));
    assert forall|i: int| 0 <= i < found.q@.len() && !(#[trigger] found.q@[i]).nan() implies respects(
        found.q@[i],
        broadcast(opts.signs@, found.q@.len(), 0i32)[i],
        broadcast(opts.lower@, found.q@.len(), Real { bits: NEG_INFINITY })[i],
        broadcast(opts.upper@, found.q@.len(), Real { bits: INFINITY })[i],
    ) by {
        let x = Seq::new(
            n as nat,
            |k: int|
                if k == i {
                    found.q@[i]
                } else {
                    bounds.lower@[k]
                },
        );
        assert forall|k: int| 0 <= k < x.len() implies (#[trigger] x[k]).within(
            bounds.lower@[k],
            bounds.upper@[k],
        ) by {
            assert(bounds.lower@[k].at_most(bounds.upper@[k]));
        }
        composed_boxes_respect_signs_and_bounds(
            n,
            opts.signs@,
            opts.lower@,
            opts.upper@,
            bounds,
            x,
        );
        assert(x[i] == found.q@[i]);
    }
}

/// A negative regularization, or a damping that is negative or not finite, is refused,
/// whatever else is asked.
pub proof fn unusable_options_are_refused<A: Arithmetic, B: Backend>(
    ar: A,
    b: B,
    problem: Problem,
    target: Grid,
    opts: InverseFdmOptions,
    r: Result<InverseFdmResult, TheseusError>,
)
    requires
        inverse_outcome(ar, b, problem, target, opts, r),
        opts.regularization.below(Real { bits: ZERO }) || !opts.cwls_damping.finite()
            || opts.cwls_damping.below(Real { bits: ZERO }),
    ensures
        r matches Err(TheseusError::Solver(_)),
{
}

} // verus!
