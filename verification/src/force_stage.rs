//! The first stage of an inverse solve: the force residual at the target geometry.

use crate::arithmetic::{functional, Arithmetic};
use crate::array::fits;
use crate::backend::Backend;
use crate::bounds::{clip_to_box, feasible_start, start_in, validate_unknown, validated, BoxBounds};
use crate::double::{Real, MAX};
use crate::equilibrium::{lemma_rows_fit, reaction_axes, rows_of_system, EquilibriumSystem};
use crate::error::{Source, TheseusError};
use crate::geometry::belongs;
use crate::inner::{inner_outcome, InnerSolution, InnerSolver};
use crate::irls::{
    effective_regularization, has_settled, irls_weights, largest_weight, magnitudes,
    rescaled_regularization, settled, weight_roots,
};
use crate::options::{InnerKind, InverseFdmOptions};
use crate::sparse::{row_scaled_copy, SparseColMatOwned};
use crate::types::Problem;
use crate::vector::{all_finite, less, multiply, products, subtract};
use vstd::prelude::*;

verus! {

/// The axes along which a solve wants reactions to vanish.
pub open spec fn axes_of(problem: Problem, opts: InverseFdmOptions) -> Seq<int> {
    reaction_axes(
        problem.n_fixed(),
        opts.enforce_zero_rx,
        opts.enforce_zero_ry,
        opts.enforce_zero_rz,
    )
}

/// The number of rounds of reweighting: at least one.
pub open spec fn rounds_of(opts: InverseFdmOptions) -> nat {
    if opts.max_l1_iter == 0 {
        1
    } else {
        opts.max_l1_iter as nat
    }
}

/// Where reweighting stands.
#[verifier::reject_recursive_types(B)]
pub ghost struct Reweighted<B: Backend> {
    pub x: Seq<Real>,
    pub rounds: nat,
    pub converged: bool,
    pub finished: bool,
    pub previous: Real,
    pub solvers: InnerSolver<B>,
}

/// Whether `next` can follow `s` in one round: the end where the sum of absolute residuals
/// no longer changes, else the solution of the problem weighted by the residuals at hand.
pub open spec fn round_outcome<A: Arithmetic, B: Backend>(
    ar: A,
    b: B,
    system: EquilibriumSystem,
    opts: InverseFdmOptions,
    bounds: BoxBounds,
    kind: InnerKind,
    s: Reweighted<B>,
    next: Result<Reweighted<B>, TheseusError>,
) -> bool {
    let r = less(ar, system.a@.applied(ar, s.x), system.p@);
    let objective = magnitudes(ar, r, r.len() as int);
    if settled(ar, s.previous, objective) {
        next == Ok::<_, TheseusError>(
            Reweighted { rounds: s.rounds + 1, converged: true, finished: true, ..s },
        )
    } else {
        exists|m: SparseColMatOwned, after: InnerSolver<B>, found: Result<InnerSolution, TheseusError>|
            {
                &&& m@ == system.a@.row_scaled(ar, weight_roots(ar, r))
                &&& #[trigger] inner_outcome(
                    ar,
                    b,
                    opts,
                    kind,
                    m,
                    products(ar, weight_roots(ar, r), system.p@),
                    effective_regularization(ar, opts.regularization, largest_weight(ar, r)),
                    s.x,
                    bounds,
                    None,
                    false,
                    s.solvers,
                    after,
                    found,
                )
                &&& match found {
                    Err(e) => next == Err::<Reweighted<B>, _>(e),
                    Ok(f) => next == Ok::<_, TheseusError>(
                        Reweighted {
                            x: bounds.clipped(f.x@),
                            rounds: s.rounds + 1,
                            converged: f.converged,
                            finished: false,
                            previous: objective,
                            solvers: after,
                        },
                    ),
                }
            }
    }
}

/// Whether `s` can be where reweighting stands `k` rounds after `first`.
pub open spec fn rounds_reach<A: Arithmetic, B: Backend>(
    ar: A,
    b: B,
    system: EquilibriumSystem,
    opts: InverseFdmOptions,
    bounds: BoxBounds,
    kind: InnerKind,
    first: Reweighted<B>,
    k: nat,
    s: Reweighted<B>,
) -> bool
    decreases k,
{
    if k == 0 {
        s == first
    } else {
        exists|before: Reweighted<B>|
            {
                &&& rounds_reach(ar, b, system, opts, bounds, kind, first, (k - 1) as nat, before)
                &&& !before.finished
                &&& #[trigger] round_outcome(ar, b, system, opts, bounds, kind, before, Ok(s))
            }
    }
}

/// Whether `r` is this solution, if it is finite.
pub open spec fn stage_ends(
    x: Seq<Real>,
    iterations: nat,
    converged: bool,
    n: nat,
    r: Result<InnerSolution, TheseusError>,
) -> bool {
    match r {
        Ok(found) => {
            &&& validated(x, n, Source::InverseFdm, Ok(()))
            &&& found.x@ == x
            &&& found.iterations == iterations
            &&& found.converged == converged
        },
        Err(e) => validated(x, n, Source::InverseFdm, Err(e)),
    }
}

/// Whether `r` can be what reweighting comes to: it goes on until the objective no longer
/// changes, the rounds are used up, or a round fails.
pub open spec fn reweighted_outcome<A: Arithmetic, B: Backend>(
    ar: A,
    b: B,
    system: EquilibriumSystem,
    opts: InverseFdmOptions,
    bounds: BoxBounds,
    kind: InnerKind,
    first: Reweighted<B>,
    after: InnerSolver<B>,
    r: Result<InnerSolution, TheseusError>,
) -> bool {
    exists|k: nat, s: Reweighted<B>|
        {
            &&& #[trigger] rounds_reach(ar, b, system, opts, bounds, kind, first, k, s)
            &&& k <= rounds_of(opts)
            &&& if k == rounds_of(opts) || s.finished {
                after == s.solvers && stage_ends(
                    s.x,
                    s.rounds,
                    s.converged,
                    system.n_edges as nat,
                    r,
                )
            } else {
                r is Err && round_outcome(
                    ar,
                    b,
                    system,
                    opts,
                    bounds,
                    kind,
                    s,
                    Err(r->Err_0),
                )
            }
        }
}

/// Where reweighting starts, from the solution without weights.
pub open spec fn unweighted_start<B: Backend>(
    bounds: BoxBounds,
    found: InnerSolution,
    solvers: InnerSolver<B>,
) -> Reweighted<B> {
    Reweighted {
        x: bounds.clipped(found.x@),
        rounds: 0,
        converged: found.converged,
        finished: false,
        previous: Real { bits: MAX },
        solvers,
    }
}

/// Whether `r` can be the solution of the first stage: the least-squares solution in the
/// box, or the one that reweighting makes of it.
pub open spec fn force_stage_outcome<A: Arithmetic, B: Backend>(
    ar: A,
    b: B,
    system: EquilibriumSystem,
    opts: InverseFdmOptions,
    bounds: BoxBounds,
    kind: InnerKind,
    before: InnerSolver<B>,
    after: InnerSolver<B>,
    r: Result<InnerSolution, TheseusError>,
) -> bool {
    exists|middle: InnerSolver<B>, found: Result<InnerSolution, TheseusError>|
        {
            &&& #[trigger] inner_outcome(
                ar,
                b,
                opts,
                kind,
                system.a,
                system.p@,
                opts.regularization,
                start_in(bounds),
                bounds,
                None,
                false,
                before,
                middle,
                found,
            )
            &&& match found {
                Err(e) => r == Err::<InnerSolution, _>(e),
                Ok(f) => if opts.use_l2 {
                    after == middle && stage_ends(
                        bounds.clipped(f.x@),
                        f.iterations as nat,
                        f.converged,
                        system.n_edges as nat,
                        r,
                    )
                } else {
                    reweighted_outcome(
                        ar,
                        b,
                        system,
                        opts,
                        bounds,
                        kind,
                        unweighted_start(bounds, f, middle),
                        after,
                        r,
                    )
                },
            }
        }
}

/// Reweights the rows by their residuals until the sum of absolute residuals no longer
/// changes.
fn solve_reweighted<A: Arithmetic, B: Backend>(
    ar: &A,
    b: &B,
    system: &EquilibriumSystem,
    opts: &InverseFdmOptions,
    bounds: &BoxBounds,
    kind: InnerKind,
    found: InnerSolution,
    inner: &mut InnerSolver<B>,
) -> (r: Result<InnerSolution, TheseusError>)
    requires
        system.wf(),
        fits(system.n_eq as nat, 1),
        system.n_eq + system.n_edges < usize::MAX,
        bounds.holds(system.n_edges as nat),
        found.x@.len() == system.n_edges,
    ensures
        r matches Ok(s) ==> {
            &&& s.x@.len() == system.n_edges
            &&& all_finite(s.x@)
            &&& bounds.contains(s.x@)
            &&& 1 <= s.iterations <= rounds_of(*opts)
        },
        functional(*ar) ==> reweighted_outcome(
            *ar,
            *b,
            *system,
            *opts,
            *bounds,
            kind,
            unweighted_start(*bounds, found, *old(inner)),
            *final(inner),
            r,
        ),
{
    let ne: usize = system.n_edges;
    let ghost first = unweighted_start(*bounds, found, *inner);
    let rounds: usize = if opts.max_l1_iter == 0 {
        1
    } else {
        opts.max_l1_iter
    };
    let mut x = clip_to_box(&found.x, bounds);
    let mut converged = found.converged;
    let mut previous = Real { bits: MAX };
    let mut outer: usize = 0;
    let mut finished = false;
    while outer < rounds && !finished
        invariant
            system.wf(),
            fits(system.n_eq as nat, 1),
            system.n_eq + system.n_edges < usize::MAX,
            bounds.holds(ne as nat),
            ne == system.n_edges,
            x@.len() == ne,
            bounds.admits(x@),
            outer <= rounds,
            rounds == rounds_of(*opts),
            finished ==> outer > 0,
            first == unweighted_start(*bounds, found, *old(inner)),
            functional(*ar) ==> rounds_reach(
                *ar,
                *b,
                *system,
                *opts,
                *bounds,
                kind,
                first,
                outer as nat,
                Reweighted {
                    x: x@,
                    rounds: outer as nat,
                    converged,
                    finished,
                    previous,
                    solvers: *inner,
                },
            ),
        decreases rounds - outer,
    {
        let ghost before = Reweighted {
            x: x@,
            rounds: outer as nat,
            converged,
            finished,
            previous,
            solvers: *inner,
        };
        outer = outer + 1;
        let ax = system.a.matvec(ar, &x);
        let residual = subtract(ar, &ax, &system.p);
        let (roots, objective, w_max) = irls_weights(ar, &residual);
        if has_settled(ar, previous, objective) {
            converged = true;
            finished = true;
        } else {
            previous = objective;
            let m_w = row_scaled_copy(ar, &system.a, &roots);
            let p_w = multiply(ar, &roots, &system.p);
            let weight = rescaled_regularization(ar, opts.regularization, w_max);
            let solved = inner.solve(
                ar,
                b,
                opts,
                kind,
                &m_w,
                &p_w,
                weight,
                &x,
                bounds,
                None,
                false,
            );
            let ghost given = solved;
            proof {
                if functional(*ar) {
                    let r = less(*ar, system.a@.applied(*ar, before.x), system.p@);
                    assert(inner_outcome(
                        *ar,
                        *b,
                        *opts,
                        kind,
                        m_w,
                        products(*ar, weight_roots(*ar, r), system.p@),
                        effective_regularization(
                            *ar,
                            opts.regularization,
                            largest_weight(*ar, r),
                        ),
                        before.x,
                        *bounds,
                        None,
                        false,
                        before.solvers,
                        *inner,
                        given,
                    ));
                }
            }
            match solved {
                Ok(found) => {
                    x = clip_to_box(&found.x, bounds);
                    converged = found.converged;
                },
                Err(e) => {
                    let r: Result<InnerSolution, TheseusError> = Err(e);
                    proof {
                        if functional(*ar) {
                            assert(round_outcome(
                                *ar,
                                *b,
                                *system,
                                *opts,
                                *bounds,
                                kind,
                                before,
                                Err(r->Err_0),
                            ));
                            assert(reweighted_outcome(
                                *ar,
                                *b,
                                *system,
                                *opts,
                                *bounds,
                                kind,
                                first,
                                *inner,
                                r,
                            ));
                        }
                    }
                    return r;
                },
            }
        }
        proof {
            if functional(*ar) {
                let after = Reweighted {
                    x: x@,
                    rounds: outer as nat,
                    converged,
                    finished,
                    previous,
                    solvers: *inner,
                };
                assert(round_outcome(
                    *ar,
                    *b,
                    *system,
                    *opts,
                    *bounds,
                    kind,
                    before,
                    Ok(after),
                ));
            }
        }
    }
    let ghost end = Reweighted {
        x: x@,
        rounds: outer as nat,
        converged,
        finished,
        previous,
        solvers: *inner,
    };
    let r = match validate_unknown(&x, ne, Source::InverseFdm) {
        Ok(_) => Ok(InnerSolution { x, iterations: outer, converged }),
        Err(e) => Err(e),
    };
    assert(stage_ends(end.x, end.rounds, end.converged, ne as nat, r));
    r
}

/// The first stage: the least-squares solution in the box, or the least sum of absolute
/// residuals.
pub fn solve_force_stage<A: Arithmetic, B: Backend>(
    ar: &A,
    b: &B,
    problem: &Problem,
    system: &EquilibriumSystem,
    opts: &InverseFdmOptions,
    bounds: &BoxBounds,
    kind: InnerKind,
    inner: &mut InnerSolver<B>,
) -> (r: Result<InnerSolution, TheseusError>)
    requires
        problem.wf(),
        belongs(*system, *problem),
        system.n_eq == rows_of_system(*problem, axes_of(*problem, *opts)),
        bounds.holds(system.n_edges as nat),
    ensures
        r matches Ok(found) ==> {
            &&& found.x@.len() == system.n_edges
            &&& all_finite(found.x@)
            &&& bounds.contains(found.x@)
            &&& !opts.use_l2 ==> 1 <= found.iterations <= rounds_of(*opts)
        },
        functional(*ar) ==> force_stage_outcome(
            *ar,
            *b,
            *system,
            *opts,
            *bounds,
            kind,
            *old(inner),
            *final(inner),
            r,
        ),
{
    proof {
        lemma_rows_fit(*problem, axes_of(*problem, *opts));
    }
    let start = feasible_start(bounds);
    let solved = inner.solve(
        ar,
        b,
        opts,
        kind,
        &system.a,
        &system.p,
        opts.regularization,
        &start,
        bounds,
        None,
        false,
    );
    let ghost given = solved;
    let ghost middle = *inner;
    assert(functional(*ar) ==> inner_outcome(
        *ar,
        *b,
        *opts,
        kind,
        system.a,
        system.p@,
        opts.regularization,
        start_in(*bounds),
        *bounds,
        None,
        false,
        *old(inner),
        middle,
        given,
    ));
    let found = match solved {
        Ok(found) => found,
        Err(e) => {
            return Err(e);
        },
    };
    if !opts.use_l2 {
        return solve_reweighted(ar, b, system, opts, bounds, kind, found, inner);
    }
    let x = clip_to_box(&found.x, bounds);
    let ghost clipped = x@;
    let r = match validate_unknown(&x, system.n_edges, Source::InverseFdm) {
        Ok(_) => Ok(
            InnerSolution { x, iterations: found.iterations, converged: found.converged },
        ),
        Err(e) => Err(e),
    };
    assert(stage_ends(
        clipped,
        found.iterations as nat,
        found.converged,
        system.n_edges as nat,
        r,
    ));
    r
}

} // verus!
