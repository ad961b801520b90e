//! The geometric error of force densities, and its minimization.

use crate::arithmetic::{difference_of, functional, minus, over, quotient_of, times, Arithmetic};
use crate::array::{fits, Array2, Grid};
use crate::backend::Backend;
use crate::bounds::{clip_to_box, BoxBounds};
use crate::double::{Real, HALF, MIN_POSITIVE, ONE, ZERO};
use crate::equilibrium::{
    collapsed, describes, indexable, lengths_of, shaped, undescribed, vanishing, EquilibriumSystem,
    EquilibriumUnknown,
};
use crate::error::{Complaint, TheseusError};
use crate::options::InverseFdmOptions;
use crate::types::Problem;
use crate::vector::{axpy, less, quotients, subtract};
use crate::weight::{inverse_applied, l2_norm_prefix, norm_prefix, unweighable, MetricWeight};
use vstd::prelude::*;

verus! {

/// The smallest geometric tolerance, `1e-12`.
pub const GEOMETRIC_TOL: u64 = 0x3D71_9799_812D_EA11;

/// How often a geometric step is halved before it is given up.
pub const MAX_BACKTRACK: usize = 12;

/// Result of an inverse-FDM particular (force densities at the target).
#[derive(Debug)]
pub struct InverseFdmResult {
    pub q: Vec<Real>,
    pub iterations: usize,
    pub converged: bool,
    /// The distance the forward solve lands from the target.
    ///
    /// Exact for geometry-independent loads via `e = -D(q)^-1 r(q)`. Reported
    /// for every metric, so a `Force` solve can be compared against a
    /// geometric one on the same scale. NaN when the Laplacian at the returned
    /// q is singular and the error could not be evaluated.
    pub geometric_error: Real,
}

/// Convert axial forces back to force densities: `q[k] = f[k] / lengths[k]`.
pub fn forces_to_q<A: Arithmetic>(ar: &A, f: &Vec<Real>, lengths: &Vec<Real>) -> (r: Vec<Real>)
    requires
        f@.len() == lengths@.len(),
    ensures
        r@.len() == f@.len(),
        functional(*ar) ==> r@ == quotients(*ar, f@, lengths@),
{
    let mut r: Vec<Real> = Vec::new();
    for i in 0..f.len()
        invariant
            f@.len() == lengths@.len(),
            r@.len() == i,
            functional(*ar) ==> forall|k: int|
                0 <= k < i ==> #[trigger] r@[k] == quotient_of(*ar, f@[k], lengths@[k]),
    {
        r.push(over(ar, f[i], lengths[i]));
    }
    proof {
        if functional(*ar) {
            assert(r@ =~= quotients(*ar, f@, lengths@));
        }
    }
    r
}

/// Current geometry and error for an unknown vector under the geometric metric.
pub struct GeometryProbe<B: Backend> {
    pub weight: MetricWeight<B>,
    /// `S^-1 r = x* - x(q)`, the negated geometric error.
    pub neg_error: Vec<Real>,
    /// The norm of `x(q) - x*` over the free-node rows only.
    pub error: Real,
}

/// Whether a system belongs to a problem.
pub open spec fn belongs(system: EquilibriumSystem, problem: Problem) -> bool {
    &&& system.wf()
    &&& system.n_edges == problem.topology.num_edges
    &&& system.n_free == problem.n_free()
}

/// Whether `probe` measures the geometric error at the force densities `q`, where the
/// residual is `r`.
pub open spec fn measures<A: Arithmetic, B: Backend>(
    probe: GeometryProbe<B>,
    ar: A,
    b: B,
    problem: Problem,
    system: EquilibriumSystem,
    q: Seq<Real>,
) -> bool {
    &&& probe.weight.weighs(ar, b, problem, q, system.n_eq as nat)
    &&& probe.neg_error@.len() == system.n_eq
    &&& functional(ar) ==> inverse_applied(
        ar,
        b,
        probe.weight,
        less(ar, system.a@.applied(ar, q), system.p@),
        Ok(probe.neg_error),
    )
    &&& functional(ar) ==> probe.error == norm_prefix(
        ar,
        probe.neg_error@,
        3 * system.n_free as int,
    )
}

/// Whether `e` can be the reason why the geometric error at `q` is not known: the weight
/// cannot be built, or its inverse cannot be applied.
pub open spec fn unmeasured<A: Arithmetic, B: Backend>(
    e: TheseusError,
    ar: A,
    b: B,
    problem: Problem,
    system: EquilibriumSystem,
    q: Seq<Real>,
) -> bool {
    ||| unweighable(e, ar, b, problem, q, system.n_eq as nat)
    ||| exists|w: MetricWeight<B>, r: Seq<Real>|
        {
            &&& w.weighs(ar, b, problem, q, system.n_eq as nat)
            &&& functional(ar) ==> r == less(ar, system.a@.applied(ar, q), system.p@)
            &&& #[trigger] inverse_applied(ar, b, w, r, Err(e))
        }
}

/// Evaluate the exact geometric error at the force densities `q`.
///
/// Uses the identity `x(q) - x* = -D(q)^-1 (E(x*) q - p)`, so no forward solve is
/// needed. Exact for geometry-independent loads.
pub fn probe_geometry<A: Arithmetic, B: Backend>(
    ar: &A,
    b: &B,
    problem: &Problem,
    system: &EquilibriumSystem,
    q: &Vec<Real>,
) -> (r: Result<GeometryProbe<B>, TheseusError>)
    requires
        problem.wf(),
        belongs(*system, *problem),
        q@.len() == system.n_edges,
    ensures
        r matches Ok(probe) ==> measures(probe, *ar, *b, *problem, *system, q@),
        r matches Err(e) ==> unmeasured(e, *ar, *b, *problem, *system, q@),
{
    let weight = match MetricWeight::build(ar, b, problem, q, system.n_eq) {
        Ok(w) => w,
        Err(e) => {
            return Err(e);
        },
    };
    let aq = system.a.matvec(ar, q);
    let r = subtract(ar, &aq, &system.p);
    let neg_error = match weight.apply_inverse(ar, b, &r) {
        Ok(v) => v,
        Err(e) => {
            return Err(e);
        },
    };
    let error = l2_norm_prefix(ar, &neg_error, 3 * system.n_free);
    Ok(GeometryProbe { weight, neg_error, error })
}

/// The negated free-node rows of `v`, one column for each axis.
pub open spec fn offsets(v: Seq<Real>, n_free: nat) -> Grid {
    Grid::generated(n_free, 3, |i: int, d: int| v[d * n_free + i].negated())
}

/// Exact offset from the forward-solved geometry to the target, `x(q) - x*`,
/// as an array with a row for each free node.
///
/// Evaluated through the identity `x(q) - x* = -D(q)^-1 (E(x*) q - p)` rather than
/// by running a forward solve, so it costs one Laplacian factorisation. Exact
/// whenever the loads do not move with the geometry; with self-weight or
/// pressure active the forward solve is the authority.
pub fn geometric_error_vector<A: Arithmetic, B: Backend>(
    ar: &A,
    b: &B,
    problem: &Problem,
    target_free_xyz: &Array2,
    q: &Vec<Real>,
) -> (r: Result<Array2, TheseusError>)
    requires
        problem.wf(),
        shaped(*problem, target_free_xyz@) && indexable(*problem, Seq::empty()) && (functional(*ar)
            ==> !collapsed(*ar, *problem, target_free_xyz@)) ==> q@.len()
            == problem.topology.num_edges,
    ensures
        r matches Ok(g) ==> exists|system: EquilibriumSystem, probe: GeometryProbe<B>|
            {
                &&& describes(
                    system,
                    *ar,
                    *problem,
                    target_free_xyz@,
                    EquilibriumUnknown::ForceDensity,
                    Seq::empty(),
                )
                &&& #[trigger] measures(probe, *ar, *b, *problem, system, q@)
                &&& g@ == offsets(probe.neg_error@, problem.n_free())
            },
        r matches Err(e) ==> {
            ||| undescribed(e, *ar, *problem, target_free_xyz@, Seq::empty())
            ||| exists|system: EquilibriumSystem|
                {
                    &&& describes(
                        system,
                        *ar,
                        *problem,
                        target_free_xyz@,
                        EquilibriumUnknown::ForceDensity,
                        Seq::empty(),
                    )
                    &&& #[trigger] unmeasured(e, *ar, *b, *problem, system, q@)
                }
        },
{
    let system = match EquilibriumSystem::assemble(
        ar,
        problem,
        target_free_xyz,
        EquilibriumUnknown::ForceDensity,
        false,
        false,
        false,
    ) {
        Ok(s) => s,
        Err(e) => {
            return Err(e);
        },
    };
    proof {
        if functional(*ar) && collapsed(*ar, *problem, target_free_xyz@) {
            let e = choose|e: int|
                0 <= e < problem.topology.num_edges && vanishing(
                    #[trigger] lengths_of(*ar, *problem, target_free_xyz@)[e],
                );
            assert(!vanishing(system.lengths@[e]));
        }
    }
    let probe = match probe_geometry(ar, b, problem, &system, q) {
        Ok(p) => p,
        Err(e) => {
            return Err(e);
        },
    };
    let n_free: usize = system.n_free;
    let v = &probe.neg_error;
    let ghost goal = offsets(v@, n_free as nat);
    let mut g = Array2::from_elem(n_free, 3, Real { bits: ZERO });
    let ghost all = v.len();
    for i in 0..n_free
        invariant
            3 * n_free <= v@.len() == all <= usize::MAX,
            goal == offsets(v@, n_free as nat),
            g@.rows == n_free,
            g@.cols == 3,
            g@.cells.dom() == goal.cells.dom(),
            forall|k: int, d: int|
                0 <= k < i && 0 <= d < 3 ==> #[trigger] g@.cells[(k, d)] == v@[d * n_free
                    + k].negated(),
    {
        assert(0 * (n_free as int) == 0 && 1 * (n_free as int) == n_free) by (nonlinear_arith);
        g.put(i, 0, v[i].neg());
        g.put(i, 1, v[n_free + i].neg());
        g.put(i, 2, v[2 * n_free + i].neg());
        proof {
            assert(g@.cells.dom() =~= goal.cells.dom());
            assert forall|k: int, d: int| 0 <= k < i + 1 && 0 <= d < 3 implies
                #[trigger] g@.cells[(k, d)] == v@[d * n_free + k].negated() by {
                if k == i {
                    if d == 0 {
                    } else if d == 1 {
                    } else {
                        assert(d == 2);
                    }
                }
            }
        }
    }
    proof {
        assert(g@.cells =~= goal.cells);
        assert(measures(probe, *ar, *b, *problem, system, q@));
    }
    Ok(g)
}

/// Whether the geometric metric can be used, or why not.
pub open spec fn geometric_complaint(problem: Problem, use_l2: bool) -> Option<Complaint> {
    if !use_l2 {
        Some(Complaint::GeometricL1)
    } else if problem.self_weight is Some || problem.pressure is Some {
        Some(Complaint::GeometricLoads)
    } else {
        None
    }
}

/// Reject metric/backend combinations that cannot be left-weighted sparsely.
pub fn validate_geometric_options(problem: &Problem, opts: &InverseFdmOptions) -> (r: Result<
    (),
    TheseusError,
>)
    ensures
        match geometric_complaint(*problem, opts.use_l2) {
            None => r is Ok,
            Some(c) => r == Err::<(), _>(TheseusError::Solver(c)),
        },
{
    if !opts.use_l2 {
        return Err(TheseusError::Solver(Complaint::GeometricL1));
    }
    if problem.self_weight.is_some() || problem.pressure.is_some() {
        return Err(TheseusError::Solver(Complaint::GeometricLoads));
    }
    Ok(())
}

/// The factor of the step after `k` halvings.
pub open spec fn reduction<A: Arithmetic>(ar: A, k: nat) -> Real
    decreases k,
{
    if k == 0 {
        Real { bits: ONE }
    } else {
        crate::arithmetic::product_of(ar, reduction(ar, (k - 1) as nat), Real { bits: HALF })
    }
}

/// The point that a step reduced by `scale` leads to, moved into the box.
pub open spec fn candidate_at<A: Arithmetic>(
    ar: A,
    bounds: BoxBounds,
    x: Seq<Real>,
    step: Seq<Real>,
    scale: Real,
) -> Seq<Real> {
    bounds.clipped(crate::vector::moved(ar, x, scale, step))
}

/// A point with its measured error.
pub struct Measured<B: Backend> {
    pub x: Vec<Real>,
    pub probe: GeometryProbe<B>,
}

/// Whether the error at `q` can be found impossible to measure.
pub open spec fn unmeasurable<A: Arithmetic, B: Backend>(
    ar: A,
    b: B,
    problem: Problem,
    system: EquilibriumSystem,
    q: Seq<Real>,
) -> bool {
    exists|e: TheseusError| #[trigger] unmeasured(e, ar, b, problem, system, q)
}

/// Whether the error at `q` can be measured not to fall below `error`.
pub open spec fn no_better<A: Arithmetic, B: Backend>(
    ar: A,
    b: B,
    problem: Problem,
    system: EquilibriumSystem,
    q: Seq<Real>,
    error: Real,
) -> bool {
    exists|probe: GeometryProbe<B>|
        #[trigger] measures(probe, ar, b, problem, system, q) && !probe.error.below(error)
}

/// Whether `r` can be the first reduction of a step that lowers the error; nothing where
/// none does, or a complaint where none can be measured.
pub open spec fn backtracked<A: Arithmetic, B: Backend>(
    ar: A,
    b: B,
    problem: Problem,
    system: EquilibriumSystem,
    bounds: BoxBounds,
    x: Seq<Real>,
    step: Seq<Real>,
    error: Real,
    r: Result<Option<Measured<B>>, TheseusError>,
) -> bool {
    match r {
        Ok(Some(next)) => exists|k: nat|
            {
                &&& k < MAX_BACKTRACK
                &&& next.x@ == #[trigger] candidate_at(ar, bounds, x, step, reduction(ar, k))
                &&& measures(next.probe, ar, b, problem, system, next.x@)
                &&& next.probe.error.below(error)
                &&& turned_down(ar, b, problem, system, bounds, x, step, error, k)
            },
        Ok(None) => {
            &&& turned_down(
                ar,
                b,
                problem,
                system,
                bounds,
                x,
                step,
                error,
                MAX_BACKTRACK as nat,
            )
            &&& exists|k: nat|
                k < MAX_BACKTRACK && no_better(
                    ar,
                    b,
                    problem,
                    system,
                    #[trigger] candidate_at(ar, bounds, x, step, reduction(ar, k)),
                    error,
                )
        },
        Err(e) => {
            &&& forall|k: nat|
                k < MAX_BACKTRACK ==> unmeasurable(
                    ar,
                    b,
                    problem,
                    system,
                    #[trigger] candidate_at(ar, bounds, x, step, reduction(ar, k)),
                )
            &&& exists|last: TheseusError|
                {
                    &&& e == TheseusError::Solver(
                        Complaint::Backtracking { reductions: MAX_BACKTRACK, last: Box::new(last) },
                    )
                    &&& #[trigger] unmeasured(
                        last,
                        ar,
                        b,
                        problem,
                        system,
                        candidate_at(
                            ar,
                            bounds,
                            x,
                            step,
                            reduction(ar, (MAX_BACKTRACK - 1) as nat),
                        ),
                    )
                }
        },
    }
}

/// Whether none of the first `k` reductions of a step need have lowered the error.
pub open spec fn turned_down<A: Arithmetic, B: Backend>(
    ar: A,
    b: B,
    problem: Problem,
    system: EquilibriumSystem,
    bounds: BoxBounds,
    x: Seq<Real>,
    step: Seq<Real>,
    error: Real,
    k: nat,
) -> bool {
    forall|j: nat|
        #![trigger candidate_at(ar, bounds, x, step, reduction(ar, j))]
        j < k ==> {
            let q = candidate_at(ar, bounds, x, step, reduction(ar, j));
            unmeasurable(ar, b, problem, system, q) || no_better(ar, b, problem, system, q, error)
        }
}

/// Halves the step until the measured error falls below `error`.
///
/// Nothing comes back where no reduction lowers the error; that no reduction could even be
/// measured is a complaint.
pub fn backtrack<A: Arithmetic, B: Backend>(
    ar: &A,
    b: &B,
    problem: &Problem,
    system: &EquilibriumSystem,
    bounds: &BoxBounds,
    x: &Vec<Real>,
    step: &Vec<Real>,
    error: Real,
) -> (r: Result<Option<Measured<B>>, TheseusError>)
    requires
        problem.wf(),
        belongs(*system, *problem),
        x@.len() == system.n_edges,
        step@.len() == system.n_edges,
        bounds.holds(system.n_edges as nat),
    ensures
        r matches Ok(Some(next)) ==> {
            &&& next.x@.len() == x@.len()
            &&& bounds.admits(next.x@)
            &&& measures(next.probe, *ar, *b, *problem, *system, next.x@)
            &&& next.probe.error.below(error)
        },
        functional(*ar) ==> backtracked(
            *ar,
            *b,
            *problem,
            *system,
            *bounds,
            x@,
            step@,
            error,
            r,
        ),
{
    let mut failed: usize = 0;
    let mut last: Option<TheseusError> = None;
    let ghost mut last_q: Seq<Real> = x@;
    let mut scale = Real { bits: ONE };
    for k in 0..MAX_BACKTRACK
        invariant
            problem.wf(),
            belongs(*system, *problem),
            x@.len() == system.n_edges,
            step@.len() == system.n_edges,
            bounds.holds(system.n_edges as nat),
            functional(*ar) ==> scale == reduction(*ar, k as nat),
            failed <= k,
            failed > 0 ==> last is Some,
            last matches Some(e) ==> unmeasured(e, *ar, *b, *problem, *system, last_q),
            failed == k && k > 0 && functional(*ar) ==> last_q == candidate_at(
                *ar,
                *bounds,
                x@,
                step@,
                reduction(*ar, (k - 1) as nat),
            ),
            functional(*ar) ==> turned_down(
                *ar,
                *b,
                *problem,
                *system,
                *bounds,
                x@,
                step@,
                error,
                k as nat,
            ),
            functional(*ar) && failed == k ==> forall|j: nat|
                j < k ==> unmeasurable(
                    *ar,
                    *b,
                    *problem,
                    *system,
                    #[trigger] candidate_at(*ar, *bounds, x@, step@, reduction(*ar, j)),
                ),
            functional(*ar) && failed < k ==> exists|j: nat|
                j < k && no_better(
                    *ar,
                    *b,
                    *problem,
                    *system,
                    #[trigger] candidate_at(*ar, *bounds, x@, step@, reduction(*ar, j)),
                    error,
                ),
    {
        let target = axpy(ar, x, scale, step);
        let candidate = clip_to_box(&target, bounds);
        let ghost q = candidate@;
        proof {
            if functional(*ar) {
                assert(candidate@ == candidate_at(
                    *ar,
                    *bounds,
                    x@,
                    step@,
                    reduction(*ar, k as nat),
                ));
            }
        }
        match probe_geometry(ar, b, problem, system, &candidate) {
            Ok(next) => {
                assert(measures(next, *ar, *b, *problem, *system, q));
                if next.error.lt(error) {
                    return Ok(Some(Measured { x: candidate, probe: next }));
                }
                assert(no_better(*ar, *b, *problem, *system, q, error));
            },
            Err(e) => {
                failed = failed + 1;
                assert(unmeasured(e, *ar, *b, *problem, *system, q));
                assert(unmeasurable(*ar, *b, *problem, *system, q));
                proof {
                    last_q = candidate@;
                }
                last = Some(e);
            },
        }
        scale = times(ar, scale, Real { bits: HALF });
    }
    if failed == MAX_BACKTRACK {
        match last {
            Some(e) => {
                return Err(
                    TheseusError::Solver(
                        Complaint::Backtracking { reductions: MAX_BACKTRACK, last: Box::new(e) },
                    ),
                );
            },
            None => {},
        }
    }
    Ok(None)
}

/// The geometric tolerance of a solve.
pub open spec fn geometric_tolerance(opts: InverseFdmOptions) -> Real {
    opts.tol.larger(Real { bits: GEOMETRIC_TOL })
}

/// Whether a solve has converged with a step from `x`, where the error was `error`, to
/// `next`, where it is `next_error`.
pub open spec fn step_converged<A: Arithmetic>(
    ar: A,
    x: Seq<Real>,
    error: Real,
    next: Seq<Real>,
    next_error: Real,
    tolerance: Real,
) -> bool {
    let improvement = quotient_of(
        ar,
        difference_of(ar, error, next_error),
        error.larger(Real { bits: MIN_POSITIVE }),
    );
    let relative = quotient_of(
        ar,
        crate::vector::norm_of(ar, less(ar, next, x)),
        crate::vector::norm_of(ar, x).larger(Real { bits: ONE }),
    );
    next_error.at_most(tolerance) || (improvement.at_most(tolerance) && relative.at_most(tolerance))
}

/// Whether a solve has converged with a step.
pub fn has_converged<A: Arithmetic>(
    ar: &A,
    x: &Vec<Real>,
    error: Real,
    next: &Vec<Real>,
    next_error: Real,
    tolerance: Real,
) -> (r: bool)
    requires
        x@.len() == next@.len(),
    ensures
        functional(*ar) ==> r == step_converged(*ar, x@, error, next@, next_error, tolerance),
{
    let gain = minus(ar, error, next_error);
    let improvement = over(ar, gain, error.max(Real { bits: MIN_POSITIVE }));
    let change = subtract(ar, next, x);
    let step_norm = crate::vector::norm(ar, &change);
    let q_norm = crate::vector::norm(ar, x).max(Real { bits: ONE });
    let relative = over(ar, step_norm, q_norm);
    next_error.le(tolerance) || (improvement.le(tolerance) && relative.le(tolerance))
}

/// The positions `x* - S^-1 r`, at which the Jacobian of a Newton step is taken.
pub open spec fn found_positions<A: Arithmetic>(
    ar: A,
    target: Grid,
    neg_error: Seq<Real>,
    n_free: nat,
) -> Grid {
    Grid::generated(
        n_free,
        3,
        |i: int, d: int| difference_of(ar, target.at(i, d), neg_error[d * n_free + i]),
    )
}

/// The positions at which the Jacobian of a Newton step is taken.
pub(crate) fn form_found<A: Arithmetic>(
    ar: &A,
    system: &EquilibriumSystem,
    neg_error: &Vec<Real>,
) -> (g: Array2)
    requires
        system.wf(),
        neg_error@.len() == system.n_eq,
        fits(system.n_free as nat, 3),
    ensures
        g@.rows == system.n_free,
        g@.cols == 3,
        functional(*ar) ==> g@ == found_positions(
            *ar,
            system.free_positions@,
            neg_error@,
            system.n_free as nat,
        ),
{
    let n_free: usize = system.n_free;
    let ghost goal = found_positions(*ar, system.free_positions@, neg_error@, n_free as nat);
    let mut g = Array2::from_elem(n_free, 3, Real { bits: ZERO });
    for i in 0..n_free
        invariant
            system.wf(),
            n_free == system.n_free,
            neg_error@.len() == system.n_eq,
            goal == found_positions(*ar, system.free_positions@, neg_error@, n_free as nat),
            g@.rows == n_free,
            g@.cols == 3,
            g@.cells.dom() == goal.cells.dom(),
            functional(*ar) ==> forall|k: int, d: int|
                0 <= k < i && 0 <= d < 3 ==> #[trigger] g@.cells[(k, d)] == difference_of(
                    *ar,
                    system.free_positions@.at(k, d),
                    neg_error@[d * n_free + k],
                ),
    {
        assert(0 * (n_free as int) == 0 && 1 * (n_free as int) == n_free) by (nonlinear_arith);
        let x = minus(ar, system.free_positions.cell(i, 0), neg_error[i]);
        let y = minus(ar, system.free_positions.cell(i, 1), neg_error[n_free + i]);
        let z = minus(ar, system.free_positions.cell(i, 2), neg_error[2 * n_free + i]);
        g.put(i, 0, x);
        g.put(i, 1, y);
        g.put(i, 2, z);
        proof {
            assert(g@.cells.dom() =~= goal.cells.dom());
            if functional(*ar) {
                assert forall|k: int, d: int| 0 <= k < i + 1 && 0 <= d < 3 implies
                    #[trigger] g@.cells[(k, d)] == difference_of(
                    *ar,
                    system.free_positions@.at(k, d),
                    neg_error@[d * n_free + k],
                ) by {
                    if k == i {
                        if d == 0 {
                        } else if d == 1 {
                        } else {
                            assert(d == 2);
                        }
                    }
                }
            }
        }
    }
    proof {
        if functional(*ar) {
            assert(g@.cells =~= goal.cells);
        }
    }
    g
}

} // verus!
