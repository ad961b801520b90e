//! Particular solutions without bounds.

use crate::arithmetic::{functional, over, product_of, quotient_of, times, Arithmetic};
use crate::array::{Array2, Grid};
use crate::backend::{factored_and_solved, ldl_solve, Backend};
use crate::bounds::{validate_unknown, validated};
use crate::direct::{
    gram_indexable, gram_ldl_solve, gram_matrix, gram_of, gram_solved, gram_system, middle_answer,
    middle_part, SADDLE_TOL,
};
use crate::double::{Real, MAX, ONE, ZERO};
use crate::equilibrium::{
    describes, lemma_rows_fit, reaction_axes, undescribed, EquilibriumSystem, EquilibriumUnknown,
};
use crate::error::{Complaint, Source, TheseusError};
use crate::geometry::forces_to_q;
use crate::inverse::stage1_unknown;
use crate::irls::{
    effective_regularization, has_settled, irls_weights, largest_weight, magnitudes,
    rescaled_regularization, settled, weight_floor, weight_of, weight_roots, ABS_EPS, REL_EPS,
};
use crate::lsqr::{apply_pseudoinverse, lsqr_solution};
use crate::qr::{qr_solved, solve_qr_on};
use crate::saddle::{
    build_augmented_system, extended, saddle_indexable, saddle_matrix, saddle_solved,
    solve_saddle_pseudoinverse,
};
use crate::sparse::{row_scaled_copy, Csc, SparseColMatOwned};
use crate::types::{FactorizationStrategy, Problem};
use crate::vector::{all_finite, largest, less, multiply, products, quotients, subtract};
use vstd::prelude::*;

verus! {

/// Whether `r` holds the force densities that a solver's unknowns stand for, or why they
/// cannot be used.
pub open spec fn particular_answer<A: Arithmetic>(
    ar: A,
    reply: Result<Vec<Real>, TheseusError>,
    lengths: Seq<Real>,
    solve_for_q: bool,
    source: Source,
    r: Result<Vec<Real>, TheseusError>,
) -> bool {
    match reply {
        Err(e) => r == Err::<Vec<Real>, _>(e),
        Ok(x) => if x@.len() != lengths.len() {
            r == Err::<Vec<Real>, _>(
                TheseusError::Shape(
                    Complaint::WrongCount {
                        source,
                        found: x@.len() as usize,
                        expected: lengths.len() as usize,
                    },
                ),
            )
        } else if solve_for_q {
            match r {
                Ok(q) => q == x && all_finite(x@),
                Err(e) => validated(x@, lengths.len(), source, Err(e)),
            }
        } else {
            match r {
                Ok(q) => all_finite(q@) && (functional(ar) ==> q@ == quotients(ar, x@, lengths)),
                Err(e) => exists|q: Seq<Real>|
                    {
                        &&& q.len() == lengths.len()
                        &&& functional(ar) ==> q == quotients(ar, x@, lengths)
                        &&& #[trigger] validated(q, lengths.len(), source, Err(e))
                    },
            }
        },
    }
}

/// The force densities that a solver's unknowns stand for.
pub fn particular_q<A: Arithmetic>(
    ar: &A,
    reply: Result<Vec<Real>, TheseusError>,
    lengths: &Vec<Real>,
    solve_for_q: bool,
    source: Source,
) -> (r: Result<Vec<Real>, TheseusError>)
    ensures
        particular_answer(*ar, reply, lengths@, solve_for_q, source, r),
        r matches Ok(q) ==> q@.len() == lengths@.len() && all_finite(q@),
{
    match reply {
        Err(e) => Err(e),
        Ok(x) => {
            if x.len() != lengths.len() {
                return Err(
                    TheseusError::Shape(
                        Complaint::WrongCount {
                            source,
                            found: x.len(),
                            expected: lengths.len(),
                        },
                    ),
                );
            }
            let q = if solve_for_q {
                x
            } else {
                forces_to_q(ar, &x, lengths)
            };
            match validate_unknown(&q, lengths.len(), source) {
                Ok(_) => Ok(q),
                Err(e) => {
                    assert(validated(q@, lengths@.len(), source, Err(e)));
                    Err(e)
                },
            }
        },
    }
}

/// Whether normal equations can answer `reply` for the system.
pub open spec fn gram_reply<A: Arithmetic, B: Backend>(
    ar: A,
    b: B,
    system: EquilibriumSystem,
    regularization: Real,
    reply: Result<Vec<Real>, TheseusError>,
) -> bool {
    functional(ar) ==> if gram_indexable(ar, system.a@, regularization) {
        gram_solved(
            b,
            gram_matrix(ar, system.a@, regularization),
            system.a@.transposed().applied(ar, system.p@),
            regularization,
            reply,
        )
    } else {
        reply == Err::<Vec<Real>, _>(TheseusError::Solver(Complaint::Triplets))
    }
}

/// Solves the normal equations of the system.
fn solve_gram<A: Arithmetic, B: Backend>(
    ar: &A,
    b: &B,
    system: &EquilibriumSystem,
    regularization: Real,
) -> (reply: Result<Vec<Real>, TheseusError>)
    requires
        system.wf(),
    ensures
        gram_reply(*ar, *b, *system, regularization, reply),
{
    match gram_system(ar, &system.a, &system.p, regularization) {
        Ok((g, h)) => gram_ldl_solve(b, &g, &h, regularization),
        Err(e) => Err(e),
    }
}

/// Whether `r` can be the particular solution that a kind of solver, which may answer
/// `reply`, gives at the target.
pub open spec fn particular<A: Arithmetic>(
    ar: A,
    problem: Problem,
    target: Grid,
    axes: Seq<int>,
    solve_for_q: bool,
    source: Source,
    reply: spec_fn(EquilibriumSystem, Result<Vec<Real>, TheseusError>) -> bool,
    r: Result<Vec<Real>, TheseusError>,
) -> bool {
    ||| r is Err && undescribed(r->Err_0, ar, problem, target, axes)
    ||| exists|system: EquilibriumSystem, x: Result<Vec<Real>, TheseusError>|
        {
            &&& describes(system, ar, problem, target, stage1_unknown(solve_for_q), axes)
            &&& #[trigger] reply(system, x)
            &&& particular_answer(ar, x, system.lengths@, solve_for_q, source, r)
        }
}

/// The answers that normal equations can give for a system.
pub open spec fn by_gram<A: Arithmetic, B: Backend>(
    ar: A,
    b: B,
    regularization: Real,
) -> spec_fn(EquilibriumSystem, Result<Vec<Real>, TheseusError>) -> bool {
    |s: EquilibriumSystem, x: Result<Vec<Real>, TheseusError>| gram_reply(ar, b, s, regularization, x)
}

/// The answers that the saddle system can give for a system.
pub open spec fn by_saddle<A: Arithmetic, B: Backend>(
    ar: A,
    b: B,
    regularization: Real,
) -> spec_fn(EquilibriumSystem, Result<Vec<Real>, TheseusError>) -> bool {
    |s: EquilibriumSystem, x: Result<Vec<Real>, TheseusError>| saddle_reply(ar, b, s, regularization, x)
}

/// The answers that a QR factorization can give for a system.
pub open spec fn by_qr<A: Arithmetic, B: Backend>(ar: A, b: B) -> spec_fn(EquilibriumSystem, Result<Vec<Real>, TheseusError>) -> bool {
    |s: EquilibriumSystem, x: Result<Vec<Real>, TheseusError>| qr_reply(ar, b, s, x)
}

/// The answers that reweighted normal equations can give for a system.
pub open spec fn by_l1_gram<A: Arithmetic, B: Backend>(
    ar: A,
    b: B,
    regularization: Real,
    max_iter: nat,
) -> spec_fn(EquilibriumSystem, Result<Vec<Real>, TheseusError>) -> bool {
    |s: EquilibriumSystem, x: Result<Vec<Real>, TheseusError>| l1_gram_reply(ar, b, s, regularization, max_iter, x)
}

/// The answers that the reweighted saddle system can give for a system.
pub open spec fn by_l1_saddle<A: Arithmetic, B: Backend>(
    ar: A,
    b: B,
    regularization: Real,
    max_iter: nat,
) -> spec_fn(EquilibriumSystem, Result<Vec<Real>, TheseusError>) -> bool {
    |s: EquilibriumSystem, x: Result<Vec<Real>, TheseusError>| l1_saddle_reply(ar, b, s, regularization, max_iter, x)
}

/// Find force densities via pseudoinverse of the equilibrium system.
///
/// Solves  `(M'M + w I) q = M'p`  using sparse LDL factorisation.
/// When `solve_for_q` is false, solves for axial forces F instead and
/// recovers q = F / L from the target edge lengths.
pub fn solve_pseudoinverse<A: Arithmetic, B: Backend>(
    ar: &A,
    b: &B,
    problem: &Problem,
    target_free_xyz: &Array2,
    regularization: Real,
    enforce_zero_rx: bool,
    enforce_zero_ry: bool,
    enforce_zero_rz: bool,
    solve_for_q: bool,
) -> (r: Result<Vec<Real>, TheseusError>)
    requires
        problem.wf(),
    ensures
        r matches Ok(q) ==> q@.len() == problem.topology.num_edges && all_finite(q@),
        particular(
            *ar,
            *problem,
            target_free_xyz@,
            reaction_axes(
                problem.n_fixed(),
                enforce_zero_rx,
                enforce_zero_ry,
                enforce_zero_rz,
            ),
            solve_for_q,
            Source::Pseudoinverse,
            by_gram(*ar, *b, regularization),
            r,
        ),
{
    let unknown = if solve_for_q {
        EquilibriumUnknown::ForceDensity
    } else {
        EquilibriumUnknown::Force
    };
    let system = match EquilibriumSystem::assemble(
        ar,
        problem,
        target_free_xyz,
        unknown,
        enforce_zero_rx,
        enforce_zero_ry,
        enforce_zero_rz,
    ) {
        Ok(s) => s,
        Err(e) => {
            return Err(e);
        },
    };
    let reply = solve_gram(ar, b, &system, regularization);
    let ghost replied = by_gram(*ar, *b, regularization);
    assert(replied(system, reply));
    particular_q(ar, reply, &system.lengths, solve_for_q, Source::Pseudoinverse)
}

/// Whether the saddle system can answer `reply` for the system: without regularization by
/// a direct solve or not at all.
pub open spec fn saddle_reply<A: Arithmetic, B: Backend>(
    ar: A,
    b: B,
    system: EquilibriumSystem,
    regularization: Real,
    reply: Result<Vec<Real>, TheseusError>,
) -> bool {
    if !saddle_indexable(system.a@) {
        reply == Err::<Vec<Real>, _>(TheseusError::Shape(Complaint::Triplets))
    } else if regularization.level(Real { bits: ZERO }) {
        saddle_solved(ar, b, system.a@, system.p@, Real { bits: ZERO }, reply)
    } else {
        damped_saddle_reply(ar, b, system.a@, system.p@, regularization, reply)
    }
}

/// Whether the saddle system with regularization can answer `reply` for the system.
pub open spec fn damped_saddle_reply<A: Arithmetic, B: Backend>(
    ar: A,
    b: B,
    m: Csc,
    p: Seq<Real>,
    regularization: Real,
    reply: Result<Vec<Real>, TheseusError>,
) -> bool {
    exists|k: Csc, solution: Result<Vec<Real>, TheseusError>|
        {
            &&& functional(ar) ==> k == saddle_matrix(ar, m, regularization)
            &&& #[trigger] factored_and_solved(
                b,
                k,
                FactorizationStrategy::LDL,
                extended(p, m.ncols),
                solution,
            )
            &&& middle_answer(solution, m.nrows, m.ncols, reply)
        }
}

/// Solves the saddle system of `m_mat` with regularization.
fn solve_damped_saddle<A: Arithmetic, B: Backend>(
    ar: &A,
    b: &B,
    m_mat: &SparseColMatOwned,
    p: &Vec<Real>,
    regularization: Real,
) -> (reply: Result<Vec<Real>, TheseusError>)
    requires
        m_mat.wf(),
        p@.len() == m_mat.nrows,
        m_mat.nrows + m_mat.ncols <= usize::MAX,
    ensures
        reply matches Ok(x) ==> x@.len() == m_mat.ncols,
        !saddle_indexable(m_mat@) ==> reply == Err::<Vec<Real>, _>(
            TheseusError::Shape(Complaint::Triplets),
        ),
        saddle_indexable(m_mat@) ==> damped_saddle_reply(
            *ar,
            *b,
            m_mat@,
            p@,
            regularization,
            reply,
        ),
{
    match build_augmented_system(ar, m_mat, p, regularization) {
        Ok((k_mat, rhs)) => {
            let solution = ldl_solve(b, &k_mat, &rhs);
            let ghost given = solution;
            let reply = middle_part(solution, m_mat.nrows, m_mat.ncols);
            assert(factored_and_solved(
                *b,
                k_mat@,
                FactorizationStrategy::LDL,
                extended(p@, m_mat.ncols as nat),
                given,
            ));
            reply
        },
        Err(e) => Err(e),
    }
}

/// Find force densities via pseudoinverse using the augmented saddle-point system.
///
/// Mathematically equivalent to [`solve_pseudoinverse`] but avoids forming `M'M`.
/// Instead factorises the larger but much sparser augmented system:
///
/// ```text
/// [ I    M  ] [r]   [p]
/// [ M'  -w I] [q] = [0]
/// ```
///
/// At zero regularization this is an LDL-only solve and reports a singular saddle
/// instead of silently falling back.
/// When `solve_for_q` is false, solves for axial forces F instead and
/// recovers q = F / L from the target edge lengths.
pub fn solve_pseudoinverse_augmented<A: Arithmetic, B: Backend>(
    ar: &A,
    b: &B,
    problem: &Problem,
    target_free_xyz: &Array2,
    regularization: Real,
    enforce_zero_rx: bool,
    enforce_zero_ry: bool,
    enforce_zero_rz: bool,
    solve_for_q: bool,
) -> (r: Result<Vec<Real>, TheseusError>)
    requires
        problem.wf(),
    ensures
        r matches Ok(q) ==> q@.len() == problem.topology.num_edges && all_finite(q@),
        regularization.below(Real { bits: ZERO }) ==> r == Err::<Vec<Real>, _>(
            TheseusError::Solver(Complaint::NegativeRegularization),
        ),
        !regularization.below(Real { bits: ZERO }) ==> particular(
            *ar,
            *problem,
            target_free_xyz@,
            reaction_axes(
                problem.n_fixed(),
                enforce_zero_rx,
                enforce_zero_ry,
                enforce_zero_rz,
            ),
            solve_for_q,
            Source::PseudoinverseAugmented,
            by_saddle(*ar, *b, regularization),
            r,
        ),
{
    if regularization.lt(Real { bits: ZERO }) {
        return Err(TheseusError::Solver(Complaint::NegativeRegularization));
    }
    let unknown = if solve_for_q {
        EquilibriumUnknown::ForceDensity
    } else {
        EquilibriumUnknown::Force
    };
    let system = match EquilibriumSystem::assemble(
        ar,
        problem,
        target_free_xyz,
        unknown,
        enforce_zero_rx,
        enforce_zero_ry,
        enforce_zero_rz,
    ) {
        Ok(s) => s,
        Err(e) => {
            return Err(e);
        },
    };
    proof {
        lemma_rows_fit(
            *problem,
            reaction_axes(problem.n_fixed(), enforce_zero_rx, enforce_zero_ry, enforce_zero_rz),
        );
    }
    let reply = if regularization.equals(Real { bits: ZERO }) {
        solve_saddle_pseudoinverse(
            ar,
            b,
            &system.a,
            &system.p,
            Real { bits: ZERO },
            Real { bits: SADDLE_TOL },
            0,
        )
    } else {
        solve_damped_saddle(ar, b, &system.a, &system.p, regularization)
    };
    let ghost replied = by_saddle(*ar, *b, regularization);
    assert(replied(system, reply));
    particular_q(ar, reply, &system.lengths, solve_for_q, Source::PseudoinverseAugmented)
}

/// Whether sparse QR can answer `reply` for the system.
pub open spec fn qr_reply<A: Arithmetic, B: Backend>(
    ar: A,
    b: B,
    system: EquilibriumSystem,
    reply: Result<Vec<Real>, TheseusError>,
) -> bool {
    if system.n_eq < system.n_edges {
        reply == Err::<Vec<Real>, _>(
            TheseusError::Solver(
                Complaint::QrWide { rows: system.n_eq, cols: system.n_edges },
            ),
        )
    } else {
        exists|symbolic: Option<B::Symbolic>|
            #[trigger] qr_solved(
                ar,
                b,
                system.a,
                system.p@,
                true,
                None::<B::Symbolic>,
                symbolic,
                reply,
            )
    }
}

/// Sparse QR least-squares particular for tall full-column-rank systems.
///
/// Validates the rank from the pivots of the sparse `R`.
/// Rank-deficient or wide systems return a precise unsupported error.
pub fn solve_pseudoinverse_qr<A: Arithmetic, B: Backend>(
    ar: &A,
    b: &B,
    problem: &Problem,
    target_free_xyz: &Array2,
    enforce_zero_rx: bool,
    enforce_zero_ry: bool,
    enforce_zero_rz: bool,
    solve_for_q: bool,
) -> (r: Result<Vec<Real>, TheseusError>)
    requires
        problem.wf(),
    ensures
        r matches Ok(q) ==> q@.len() == problem.topology.num_edges && all_finite(q@),
        particular(
            *ar,
            *problem,
            target_free_xyz@,
            reaction_axes(
                problem.n_fixed(),
                enforce_zero_rx,
                enforce_zero_ry,
                enforce_zero_rz,
            ),
            solve_for_q,
            Source::PseudoinverseQr,
            by_qr(*ar, *b),
            r,
        ),
{
    let unknown = if solve_for_q {
        EquilibriumUnknown::ForceDensity
    } else {
        EquilibriumUnknown::Force
    };
    let system = match EquilibriumSystem::assemble(
        ar,
        problem,
        target_free_xyz,
        unknown,
        enforce_zero_rx,
        enforce_zero_ry,
        enforce_zero_rz,
    ) {
        Ok(s) => s,
        Err(e) => {
            return Err(e);
        },
    };
    proof {
        lemma_rows_fit(
            *problem,
            reaction_axes(problem.n_fixed(), enforce_zero_rx, enforce_zero_ry, enforce_zero_rz),
        );
    }
    let mut symbolic: Option<B::Symbolic> = None;
    let reply = solve_qr_on(ar, b, &system.a, &system.p, true, &mut symbolic);
    let ghost replied = by_qr(*ar, *b);
    assert(replied(system, reply));
    particular_q(ar, reply, &system.lengths, solve_for_q, Source::PseudoinverseQr)
}

/// The loads times the weights of the residuals, with the largest weight taken as one.
pub open spec fn weighted_loads<A: Arithmetic>(
    ar: A,
    r: Seq<Real>,
    p: Seq<Real>,
    w_max: Real,
) -> Seq<Real> {
    Seq::new(
        r.len(),
        |i: int|
            {
                let v = product_of(ar, weight_of(ar, r[i], weight_floor(ar, r)), p[i]);
                if (Real { bits: ZERO }).below(w_max) {
                    quotient_of(ar, v, w_max)
                } else {
                    v
                }
            },
    )
}

/// The loads times the weights of the residuals.
pub fn weigh_loads<A: Arithmetic>(ar: &A, r: &Vec<Real>, p: &Vec<Real>, w_max: Real) -> (wp: Vec<
    Real,
>)
    requires
        r@.len() == p@.len(),
    ensures
        wp@.len() == r@.len(),
        functional(*ar) ==> wp@ == weighted_loads(*ar, r@, p@, w_max),
{
    let max_abs = largest(r, Real { bits: ZERO });
    let floor = times(ar, Real { bits: REL_EPS }, max_abs).max(Real { bits: ABS_EPS });
    let mut wp: Vec<Real> = Vec::new();
    for i in 0..r.len()
        invariant
            r@.len() == p@.len(),
            functional(*ar) ==> floor == weight_floor(*ar, r@),
            wp@.len() == i,
            functional(*ar) ==> forall|k: int|
                0 <= k < i ==> #[trigger] wp@[k] == weighted_loads(*ar, r@, p@, w_max)[k],
    {
        let weight = over(ar, Real { bits: ONE }, r[i].abs().max(floor));
        let v = times(ar, weight, p[i]);
        if w_max.gt(Real { bits: ZERO }) {
            wp.push(over(ar, v, w_max));
        } else {
            wp.push(v);
        }
    }
    proof {
        if functional(*ar) {
            assert(wp@ =~= weighted_loads(*ar, r@, p@, w_max));
        }
    }
    wp
}

/// Where reweighting stands.
pub ghost struct Rounds {
    pub x: Seq<Real>,
    pub previous: Real,
    pub finished: bool,
}

/// Whether `next` can follow `s` in one round: the end where the sum of absolute residuals
/// no longer changes, else what `solve` makes of the residuals.
pub open spec fn round_from<A: Arithmetic>(
    ar: A,
    system: EquilibriumSystem,
    solve: spec_fn(Seq<Real>, Result<Vec<Real>, TheseusError>) -> bool,
    s: Rounds,
    next: Result<Rounds, TheseusError>,
) -> bool {
    let r = less(ar, system.a@.applied(ar, s.x), system.p@);
    let objective = magnitudes(ar, r, r.len() as int);
    if settled(ar, s.previous, objective) {
        next == Ok::<_, TheseusError>(Rounds { finished: true, ..s })
    } else {
        exists|reply: Result<Vec<Real>, TheseusError>|
            {
                &&& #[trigger] solve(r, reply)
                &&& match reply {
                    Err(e) => next == Err::<Rounds, _>(e),
                    Ok(x) => next == Ok::<_, TheseusError>(
                        Rounds { x: x@, previous: objective, finished: false },
                    ),
                }
            }
    }
}

/// Whether `s` can be where reweighting stands after `k` rounds from `x`.
pub open spec fn rounds_reach<A: Arithmetic>(
    ar: A,
    system: EquilibriumSystem,
    solve: spec_fn(Seq<Real>, Result<Vec<Real>, TheseusError>) -> bool,
    x: Seq<Real>,
    k: nat,
    s: Rounds,
) -> bool
    decreases k,
{
    if k == 0 {
        s == Rounds { x, previous: Real { bits: MAX }, finished: false }
    } else {
        exists|before: Rounds|
            {
                &&& rounds_reach(ar, system, solve, x, (k - 1) as nat, before)
                &&& !before.finished
                &&& #[trigger] round_from(ar, system, solve, before, Ok(s))
            }
    }
}

/// Whether `reply` can be what reweighting makes of `x`: it goes on until the objective no
/// longer changes, the rounds are used up, or one fails.
pub open spec fn reweighted<A: Arithmetic>(
    ar: A,
    system: EquilibriumSystem,
    solve: spec_fn(Seq<Real>, Result<Vec<Real>, TheseusError>) -> bool,
    x: Seq<Real>,
    max_iter: nat,
    reply: Result<Vec<Real>, TheseusError>,
) -> bool {
    exists|k: nat, s: Rounds|
        {
            &&& #[trigger] rounds_reach(ar, system, solve, x, k, s)
            &&& k <= max_iter
            &&& if k == max_iter || s.finished {
                reply matches Ok(found) && found@ == s.x
            } else {
                reply is Err && round_from(ar, system, solve, s, Err(reply->Err_0))
            }
        }
}

/// Whether `r` is a reply of `n` entries, or the complaint about its size.
pub open spec fn sized_reply(
    reply: Result<Vec<Real>, TheseusError>,
    n: usize,
    r: Result<Vec<Real>, TheseusError>,
) -> bool {
    match reply {
        Ok(x) => if x@.len() == n {
            r == reply
        } else {
            r == Err::<Vec<Real>, _>(
                TheseusError::Shape(
                    Complaint::BackendSize { found: x@.len() as usize, expected: n },
                ),
            )
        },
        Err(_) => r == reply,
    }
}

/// Whether `reply` can be the solution of the normal equations weighted by the residuals.
pub open spec fn gram_round<A: Arithmetic, B: Backend>(
    ar: A,
    b: B,
    system: EquilibriumSystem,
    regularization: Real,
    r: Seq<Real>,
    reply: Result<Vec<Real>, TheseusError>,
) -> bool {
    let m = system.a@.row_scaled(ar, weight_roots(ar, r));
    let w_max = largest_weight(ar, r);
    let w = effective_regularization(ar, regularization, w_max);
    if !gram_indexable(ar, m, w) {
        reply == Err::<Vec<Real>, _>(TheseusError::Solver(Complaint::Triplets))
    } else {
        exists|x: Result<Vec<Real>, TheseusError>|
            {
                &&& #[trigger] gram_solved(
                    b,
                    gram_matrix(ar, m, w),
                    system.a@.transposed().applied(
                        ar,
                        weighted_loads(ar, r, system.p@, w_max),
                    ),
                    w,
                    x,
                )
                &&& sized_reply(x, system.n_edges, reply)
            }
    }
}

/// Whether the normal equations, reweighted at most `max_iter` times, can be answered with
/// this.
pub open spec fn l1_gram_reply<A: Arithmetic, B: Backend>(
    ar: A,
    b: B,
    system: EquilibriumSystem,
    regularization: Real,
    max_iter: nat,
    reply: Result<Vec<Real>, TheseusError>,
) -> bool {
    exists|first: Result<Vec<Real>, TheseusError>|
        {
            &&& #[trigger] gram_reply(ar, b, system, regularization, first)
            &&& if max_iter == 0 || first is Err {
                reply == first
            } else if first->Ok_0@.len() != system.n_edges {
                sized_reply(first, system.n_edges, reply)
            } else {
                functional(ar) ==> reweighted(
                    ar,
                    system,
                    |r: Seq<Real>, x: Result<Vec<Real>, TheseusError>|
                        gram_round(ar, b, system, regularization, r, x),
                    first->Ok_0@,
                    max_iter,
                    reply,
                )
            }
        }
}

/// Find force densities via L1-minimisation of the equilibrium residual.
///
/// Minimises the sum of absolute residuals of `M q = p` using IRLS:
/// each iteration solves a weighted least-squares problem
/// `(M' W M + w I) q = M' W p` where `W = diag(1/max(|r_i|, eps))`.
///
/// Warm-starts from the L2 pseudoinverse solution for fast convergence.
/// When `solve_for_q` is false, solves for axial forces F instead and
/// recovers q = F / L from the target edge lengths.
pub fn solve_pseudoinverse_l1<A: Arithmetic, B: Backend>(
    ar: &A,
    b: &B,
    problem: &Problem,
    target_free_xyz: &Array2,
    regularization: Real,
    max_iter: usize,
    enforce_zero_rx: bool,
    enforce_zero_ry: bool,
    enforce_zero_rz: bool,
    solve_for_q: bool,
) -> (r: Result<Vec<Real>, TheseusError>)
    requires
        problem.wf(),
    ensures
        r matches Ok(q) ==> q@.len() == problem.topology.num_edges && all_finite(q@),
        particular(
            *ar,
            *problem,
            target_free_xyz@,
            reaction_axes(
                problem.n_fixed(),
                enforce_zero_rx,
                enforce_zero_ry,
                enforce_zero_rz,
            ),
            solve_for_q,
            Source::PseudoinverseL1,
            by_l1_gram(*ar, *b, regularization, max_iter as nat),
            r,
        ),
{
    let unknown = if solve_for_q {
        EquilibriumUnknown::ForceDensity
    } else {
        EquilibriumUnknown::Force
    };
    let system = match EquilibriumSystem::assemble(
        ar,
        problem,
        target_free_xyz,
        unknown,
        enforce_zero_rx,
        enforce_zero_ry,
        enforce_zero_rz,
    ) {
        Ok(s) => s,
        Err(e) => {
            return Err(e);
        },
    };
    let reply = reweight_gram(ar, b, &system, regularization, max_iter);
    let ghost replied = by_l1_gram(*ar, *b, regularization, max_iter as nat);
    assert(replied(system, reply));
    particular_q(ar, reply, &system.lengths, solve_for_q, Source::PseudoinverseL1)
}

/// A solution with as many entries as there are edges, or a complaint about the backend.
fn sized(reply: Result<Vec<Real>, TheseusError>, n: usize) -> (r: Result<Vec<Real>, TheseusError>)
    ensures
        r matches Ok(x) ==> x@.len() == n,
        sized_reply(reply, n, r),
{
    match reply {
        Ok(x) => {
            if x.len() == n {
                Ok(x)
            } else {
                Err(
                    TheseusError::Shape(
                        Complaint::BackendSize { found: x.len(), expected: n },
                    ),
                )
            }
        },
        Err(e) => Err(e),
    }
}

/// Solves normal equations, reweighted until the sum of absolute residuals settles.
fn reweight_gram<A: Arithmetic, B: Backend>(
    ar: &A,
    b: &B,
    system: &EquilibriumSystem,
    regularization: Real,
    max_iter: usize,
) -> (reply: Result<Vec<Real>, TheseusError>)
    requires
        system.wf(),
    ensures
        l1_gram_reply(*ar, *b, *system, regularization, max_iter as nat, reply),
{
    let m_t = system.a.transpose();
    let first = solve_gram(ar, b, system, regularization);
    let ghost given = first;
    assert(gram_reply(*ar, *b, *system, regularization, given));
    if max_iter == 0 {
        return first;
    }
    let mut x = match sized(first, system.n_edges) {
        Ok(x) => x,
        Err(e) => {
            return Err(e);
        },
    };
    let ghost x0 = x@;
    let ghost solve = |r: Seq<Real>, v: Result<Vec<Real>, TheseusError>|
        gram_round(*ar, *b, *system, regularization, r, v);
    let mut previous = Real { bits: MAX };
    let mut round: usize = 0;
    let mut finished = false;
    while round < max_iter && !finished
        invariant
            system.wf(),
            m_t.wf(),
            m_t@ == system.a@.transposed(),
            m_t.nrows == system.n_edges,
            m_t.ncols == system.n_eq,
            x@.len() == system.n_edges,
            round <= max_iter,
            max_iter > 0,
            given is Ok,
            given->Ok_0@ == x0,
            x0.len() == system.n_edges,
            gram_reply(*ar, *b, *system, regularization, given),
            solve == (|r: Seq<Real>, v: Result<Vec<Real>, TheseusError>|
                gram_round(*ar, *b, *system, regularization, r, v)),
            functional(*ar) ==> rounds_reach(
                *ar,
                *system,
                solve,
                x0,
                round as nat,
                Rounds { x: x@, previous, finished },
            ),
        decreases max_iter - round,
    {
        let ghost before = Rounds { x: x@, previous, finished };
        round = round + 1;
        let ax = system.a.matvec(ar, &x);
        let r = subtract(ar, &ax, &system.p);
        let (roots, objective, w_max) = irls_weights(ar, &r);
        if has_settled(ar, previous, objective) {
            finished = true;
        } else {
            previous = objective;
            let wp = weigh_loads(ar, &r, &system.p, w_max);
            let weight = rescaled_regularization(ar, regularization, w_max);
            let m_w = row_scaled_copy(ar, &system.a, &roots);
            let h = m_t.matvec(ar, &wp);
            let solved = solve_round(ar, b, &m_w, &h, weight, system.n_edges);
            let ghost answered = solved;
            proof {
                if functional(*ar) {
                    assert(solve(r@, answered));
                }
            }
            x = match solved {
                Ok(x) => x,
                Err(e) => {
                    let reply: Result<Vec<Real>, TheseusError> = Err(e);
                    proof {
                        if functional(*ar) {
                            assert(round_from(
                                *ar,
                                *system,
                                solve,
                                before,
                                Err(reply->Err_0),
                            ));
                            assert(reweighted(
                                *ar,
                                *system,
                                solve,
                                x0,
                                max_iter as nat,
                                reply,
                            ));
                        }
                    }
                    return reply;
                },
            };
        }
        proof {
            if functional(*ar) {
                let after = Rounds { x: x@, previous, finished };
                assert(round_from(*ar, *system, solve, before, Ok(after)));
            }
        }
    }
    let reply: Result<Vec<Real>, TheseusError> = Ok(x);
    assert(functional(*ar) ==> reweighted(*ar, *system, solve, x0, max_iter as nat, reply));
    reply
}

/// Solves the normal equations of these rows for `h`.
fn solve_round<A: Arithmetic, B: Backend>(
    ar: &A,
    b: &B,
    m_w: &SparseColMatOwned,
    h: &Vec<Real>,
    weight: Real,
    n: usize,
) -> (reply: Result<Vec<Real>, TheseusError>)
    requires
        m_w.wf(),
        m_w.nrows < usize::MAX,
        m_w.ncols == n,
    ensures
        reply matches Ok(x) ==> x@.len() == n,
        functional(*ar) ==> if !gram_indexable(*ar, m_w@, weight) {
            reply == Err::<Vec<Real>, _>(TheseusError::Solver(Complaint::Triplets))
        } else {
            exists|x: Result<Vec<Real>, TheseusError>|
                {
                    &&& #[trigger] gram_solved(
                        *b,
                        gram_matrix(*ar, m_w@, weight),
                        h@,
                        weight,
                        x,
                    )
                    &&& sized_reply(x, n, reply)
                }
        },
{
    let g = match gram_of(ar, m_w, weight) {
        Ok(g) => g,
        Err(e) => {
            return Err(e);
        },
    };
    let solved = gram_ldl_solve(b, &g, h, weight);
    let ghost given = solved;
    assert(gram_solved(*b, g@, h@, weight, given));
    sized(solved, n)
}

/// Whether a saddle solve with damping can be answered with this, or LSQR without.
pub open spec fn saddle_or_lsqr<A: Arithmetic, B: Backend>(
    ar: A,
    b: B,
    m: Csc,
    p: Seq<Real>,
    w: Real,
    reply: Result<Vec<Real>, TheseusError>,
) -> bool {
    if w.level(Real { bits: ZERO }) {
        lsqr_solution(ar, m, p, false, Real { bits: SADDLE_TOL }, 0, reply)
    } else if !saddle_indexable(m) {
        reply == Err::<Vec<Real>, _>(TheseusError::Shape(Complaint::Triplets))
    } else {
        damped_saddle_reply(ar, b, m, p, w, reply)
    }
}

/// Whether `reply` can be the solution of the problem weighted by the residuals.
pub open spec fn saddle_round<A: Arithmetic, B: Backend>(
    ar: A,
    b: B,
    system: EquilibriumSystem,
    regularization: Real,
    r: Seq<Real>,
    reply: Result<Vec<Real>, TheseusError>,
) -> bool {
    saddle_or_lsqr(
        ar,
        b,
        system.a@.row_scaled(ar, weight_roots(ar, r)),
        products(ar, weight_roots(ar, r), system.p@),
        effective_regularization(ar, regularization, largest_weight(ar, r)),
        reply,
    )
}

/// Whether the saddle system, reweighted at most `max_iter` times, can be answered with
/// this.
pub open spec fn l1_saddle_reply<A: Arithmetic, B: Backend>(
    ar: A,
    b: B,
    system: EquilibriumSystem,
    regularization: Real,
    max_iter: nat,
    reply: Result<Vec<Real>, TheseusError>,
) -> bool {
    exists|first: Result<Vec<Real>, TheseusError>|
        {
            &&& #[trigger] saddle_or_lsqr(ar, b, system.a@, system.p@, regularization, first)
            &&& match first {
                Err(_) => reply == first,
                Ok(x) => functional(ar) ==> reweighted(
                    ar,
                    system,
                    |r: Seq<Real>, v: Result<Vec<Real>, TheseusError>|
                        saddle_round(ar, b, system, regularization, r, v),
                    x@,
                    max_iter,
                    reply,
                ),
            }
        }
}

/// A saddle solve with damping, or LSQR without.
fn solve_saddle_or_lsqr<A: Arithmetic, B: Backend>(
    ar: &A,
    b: &B,
    m_mat: &SparseColMatOwned,
    p: &Vec<Real>,
    w: Real,
) -> (reply: Result<Vec<Real>, TheseusError>)
    requires
        m_mat.wf(),
        m_mat.nrows < usize::MAX,
        p@.len() == m_mat.nrows,
        m_mat.nrows + m_mat.ncols <= usize::MAX,
    ensures
        reply matches Ok(x) ==> x@.len() == m_mat.ncols,
        saddle_or_lsqr(*ar, *b, m_mat@, p@, w, reply),
{
    if w.equals(Real { bits: ZERO }) {
        apply_pseudoinverse(ar, m_mat, p, Real { bits: SADDLE_TOL }, 0)
    } else {
        solve_damped_saddle(ar, b, m_mat, p, w)
    }
}

/// Solves saddle systems, reweighted until the sum of absolute residuals settles.
fn reweight_saddle<A: Arithmetic, B: Backend>(
    ar: &A,
    b: &B,
    system: &EquilibriumSystem,
    regularization: Real,
    max_iter: usize,
) -> (reply: Result<Vec<Real>, TheseusError>)
    requires
        system.wf(),
        system.n_eq + system.n_edges <= usize::MAX,
    ensures
        l1_saddle_reply(*ar, *b, *system, regularization, max_iter as nat, reply),
{
    let first = solve_saddle_or_lsqr(ar, b, &system.a, &system.p, regularization);
    let ghost given = first;
    assert(saddle_or_lsqr(*ar, *b, system.a@, system.p@, regularization, given));
    let mut x = match first {
        Ok(x) => x,
        Err(e) => {
            return Err(e);
        },
    };
    let ghost x0 = x@;
    let ghost solve = |r: Seq<Real>, v: Result<Vec<Real>, TheseusError>|
        saddle_round(*ar, *b, *system, regularization, r, v);
    let mut previous = Real { bits: MAX };
    let mut round: usize = 0;
    let mut finished = false;
    while round < max_iter && !finished
        invariant
            system.wf(),
            system.n_eq + system.n_edges <= usize::MAX,
            x@.len() == system.n_edges,
            round <= max_iter,
            given is Ok,
            given->Ok_0@ == x0,
            saddle_or_lsqr(*ar, *b, system.a@, system.p@, regularization, given),
            solve == (|r: Seq<Real>, v: Result<Vec<Real>, TheseusError>|
                saddle_round(*ar, *b, *system, regularization, r, v)),
            functional(*ar) ==> rounds_reach(
                *ar,
                *system,
                solve,
                x0,
                round as nat,
                Rounds { x: x@, previous, finished },
            ),
        decreases max_iter - round,
    {
        let ghost before = Rounds { x: x@, previous, finished };
        round = round + 1;
        let ax = system.a.matvec(ar, &x);
        let r = subtract(ar, &ax, &system.p);
        let (roots, objective, w_max) = irls_weights(ar, &r);
        if has_settled(ar, previous, objective) {
            finished = true;
        } else {
            previous = objective;
            let weight = rescaled_regularization(ar, regularization, w_max);
            let m_w = row_scaled_copy(ar, &system.a, &roots);
            let p_w = multiply(ar, &roots, &system.p);
            let solved = solve_saddle_or_lsqr(ar, b, &m_w, &p_w, weight);
            let ghost answered = solved;
            proof {
                if functional(*ar) {
                    assert(solve(r@, answered));
                }
            }
            x = match solved {
                Ok(x) => x,
                Err(e) => {
                    let reply: Result<Vec<Real>, TheseusError> = Err(e);
                    proof {
                        if functional(*ar) {
                            assert(round_from(
                                *ar,
                                *system,
                                solve,
                                before,
                                Err(reply->Err_0),
                            ));
                            assert(reweighted(
                                *ar,
                                *system,
                                solve,
                                x0,
                                max_iter as nat,
                                reply,
                            ));
                        }
                    }
                    return reply;
                },
            };
        }
        proof {
            if functional(*ar) {
                let after = Rounds { x: x@, previous, finished };
                assert(round_from(*ar, *system, solve, before, Ok(after)));
            }
        }
    }
    let reply: Result<Vec<Real>, TheseusError> = Ok(x);
    assert(functional(*ar) ==> reweighted(*ar, *system, solve, x0, max_iter as nat, reply));
    reply
}

/// Find force densities via L1-minimisation using the augmented saddle-point system.
///
/// Equivalent to [`solve_pseudoinverse_l1`] but each IRLS iteration factorises
/// the augmented system instead of forming normal equations. Avoids fill-in explosion
/// at large scales; zero regularization uses the Moore--Penrose LSQR fallback.
/// When `solve_for_q` is false, solves for axial forces F instead and
/// recovers q = F / L from the target edge lengths.
pub fn solve_pseudoinverse_l1_augmented<A: Arithmetic, B: Backend>(
    ar: &A,
    b: &B,
    problem: &Problem,
    target_free_xyz: &Array2,
    regularization: Real,
    max_iter: usize,
    enforce_zero_rx: bool,
    enforce_zero_ry: bool,
    enforce_zero_rz: bool,
    solve_for_q: bool,
) -> (r: Result<Vec<Real>, TheseusError>)
    requires
        problem.wf(),
    ensures
        r matches Ok(q) ==> q@.len() == problem.topology.num_edges && all_finite(q@),
        regularization.below(Real { bits: ZERO }) ==> r == Err::<Vec<Real>, _>(
            TheseusError::Solver(Complaint::NegativeRegularization),
        ),
        !regularization.below(Real { bits: ZERO }) ==> particular(
            *ar,
            *problem,
            target_free_xyz@,
            reaction_axes(
                problem.n_fixed(),
                enforce_zero_rx,
                enforce_zero_ry,
                enforce_zero_rz,
            ),
            solve_for_q,
            Source::PseudoinverseL1Augmented,
            by_l1_saddle(*ar, *b, regularization, max_iter as nat),
            r,
        ),
{
    if regularization.lt(Real { bits: ZERO }) {
        return Err(TheseusError::Solver(Complaint::NegativeRegularization));
    }
    let unknown = if solve_for_q {
        EquilibriumUnknown::ForceDensity
    } else {
        EquilibriumUnknown::Force
    };
    let system = match EquilibriumSystem::assemble(
        ar,
        problem,
        target_free_xyz,
        unknown,
        enforce_zero_rx,
        enforce_zero_ry,
        enforce_zero_rz,
    ) {
        Ok(s) => s,
        Err(e) => {
            return Err(e);
        },
    };
    proof {
        lemma_rows_fit(
            *problem,
            reaction_axes(problem.n_fixed(), enforce_zero_rx, enforce_zero_ry, enforce_zero_rz),
        );
    }
    let reply = reweight_saddle(ar, b, &system, regularization, max_iter);
    let ghost replied = by_l1_saddle(*ar, *b, regularization, max_iter as nat);
    assert(replied(system, reply));
    particular_q(ar, reply, &system.lengths, solve_for_q, Source::PseudoinverseL1Augmented)
}

/// Without rounds, the solve for the least sum of absolute residuals can give the answers
/// of the least-squares solve, and no others; its errors differ in no more than the name of
/// the solve.
pub proof fn no_rounds_answer_like_least_squares<A: Arithmetic, B: Backend>(
    ar: A,
    b: B,
    problem: Problem,
    target: Grid,
    axes: Seq<int>,
    regularization: Real,
    solve_for_q: bool,
    source: Source,
    r: Result<Vec<Real>, TheseusError>,
)
    ensures
        particular(
            ar,
            problem,
            target,
            axes,
            solve_for_q,
            source,
            by_l1_gram(ar, b, regularization, 0),
            r,
        ) <==> particular(
            ar,
            problem,
            target,
            axes,
            solve_for_q,
            source,
            by_gram(ar, b, regularization),
            r,
        ),
        r is Ok ==> (particular(
            ar,
            problem,
            target,
            axes,
            solve_for_q,
            Source::PseudoinverseL1,
            by_l1_gram(ar, b, regularization, 0),
            r,
        ) <==> particular(
            ar,
            problem,
            target,
            axes,
            solve_for_q,
            Source::Pseudoinverse,
            by_gram(ar, b, regularization),
            r,
        )),
{
    let l1 = by_l1_gram(ar, b, regularization, 0);
    let l2 = by_gram(ar, b, regularization);
    assert forall|s: EquilibriumSystem, x: Result<Vec<Real>, TheseusError>|
        l1(s, x) == #[trigger] l2(s, x) by {
        if gram_reply(ar, b, s, regularization, x) {
            assert(l1_gram_reply(ar, b, s, regularization, 0, x));
        }
    }
    assert(l1 =~= l2);
}

/// Without rounds but with a regularization, the solve for the least sum of absolute
/// residuals by the saddle system can give the answers of the least-squares solve by the
/// saddle system, and no others.
pub proof fn no_rounds_answer_like_the_saddle_system<A: Arithmetic, B: Backend>(
    ar: A,
    b: B,
    problem: Problem,
    target: Grid,
    axes: Seq<int>,
    regularization: Real,
    solve_for_q: bool,
    q: Vec<Real>,
)
    requires
        functional(ar),
        !regularization.level(Real { bits: ZERO }),
    ensures
        particular(
            ar,
            problem,
            target,
            axes,
            solve_for_q,
            Source::PseudoinverseAugmented,
            by_saddle(ar, b, regularization),
            Ok(q),
        ) ==> particular(
            ar,
            problem,
            target,
            axes,
            solve_for_q,
            Source::PseudoinverseL1Augmented,
            by_l1_saddle(ar, b, regularization, 0),
            Ok(q),
        ),
        particular(
            ar,
            problem,
            target,
            axes,
            solve_for_q,
            Source::PseudoinverseL1Augmented,
            by_l1_saddle(ar, b, regularization, 0),
            Ok(q),
        ) ==> exists|same: Vec<Real>|
            same@ == q@ && #[trigger] particular(
            ar,
            problem,
            target,
            axes,
            solve_for_q,
            Source::PseudoinverseAugmented,
            by_saddle(ar, b, regularization),
            Ok(same),
        ),
{
    let l1 = by_l1_saddle(ar, b, regularization, 0);
    let l2 = by_saddle(ar, b, regularization);
    if particular(
        ar,
        problem,
        target,
        axes,
        solve_for_q,
        Source::PseudoinverseAugmented,
        l2,
        Ok(q),
    ) {
        let (system, x) = choose|
            system: EquilibriumSystem,
            x: Result<Vec<Real>, TheseusError>,
        |
            {
                &&& describes(system, ar, problem, target, stage1_unknown(solve_for_q), axes)
                &&& #[trigger] l2(system, x)
                &&& particular_answer(
                    ar,
                    x,
                    system.lengths@,
                    solve_for_q,
                    Source::PseudoinverseAugmented,
                    Ok(q),
                )
            };
        assert(saddle_or_lsqr(ar, b, system.a@, system.p@, regularization, x));
        let solve = |r: Seq<Real>, v: Result<Vec<Real>, TheseusError>|
            saddle_round(ar, b, system, regularization, r, v);
        let s = Rounds { x: x->Ok_0@, previous: Real { bits: MAX }, finished: false };
        assert(rounds_reach(ar, system, solve, x->Ok_0@, 0, s));
        assert(reweighted(ar, system, solve, x->Ok_0@, 0, x));
        assert(l1(system, x));
    }
    if particular(
        ar,
        problem,
        target,
        axes,
        solve_for_q,
        Source::PseudoinverseL1Augmented,
        l1,
        Ok(q),
    ) {
        let (system, x) = choose|
            system: EquilibriumSystem,
            x: Result<Vec<Real>, TheseusError>,
        |
            {
                &&& describes(system, ar, problem, target, stage1_unknown(solve_for_q), axes)
                &&& #[trigger] l1(system, x)
                &&& particular_answer(
                    ar,
                    x,
                    system.lengths@,
                    solve_for_q,
                    Source::PseudoinverseL1Augmented,
                    Ok(q),
                )
            };
        assert(l1_saddle_reply(ar, b, system, regularization, 0, x));
        let solve = |r: Seq<Real>, v: Result<Vec<Real>, TheseusError>|
            saddle_round(ar, b, system, regularization, r, v);
        let first = choose|first: Vec<Real>|
            {
                &&& #[trigger] saddle_or_lsqr(
                    ar,
                    b,
                    system.a@,
                    system.p@,
                    regularization,
                    Ok(first),
                )
                &&& reweighted(ar, system, solve, first@, 0, x)
            };
        assert(x->Ok_0@ == first@);
        assert(l2(system, Ok(first)));
        let same = if solve_for_q {
            first
        } else {
            q
        };
        assert(particular_answer(
            ar,
            Ok(first),
            system.lengths@,
            solve_for_q,
            Source::PseudoinverseAugmented,
            Ok(same),
        ));
        assert(particular(
            ar,
            problem,
            target,
            axes,
            solve_for_q,
            Source::PseudoinverseAugmented,
            l2,
            Ok(same),
        ));
    }
}

} // verus!
