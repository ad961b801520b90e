//! The solvers that an inverse solve hands its least-squares problems to.

use crate::arithmetic::{functional, Arithmetic};
use crate::array::fits;
use crate::backend::Backend;
use crate::bounds::BoxBounds;
use crate::conic::{conic_solved, solve_clarabel_once};
use crate::direct::{gram_outcome, saddle_outcome, solve_gram_on, solve_saddle_on};
use crate::double::Real;
use crate::error::{Complaint, TheseusError};
use crate::lsqr::LsqrResult;
use crate::options::{InnerKind, InverseFdmOptions};
use crate::qr::{qr_outcome, solve_qr_on};
use crate::sparse::SparseColMatOwned;
use crate::spg::{solve_spg_on, spg_outcome, SpgBoxResult};
use crate::vector::all_finite;
use crate::weight::MetricWeight;
use crate::weighted_lsqr::{least_squares_outcome, solve_lsqr_on};
use vstd::prelude::*;

verus! {

/// The smallest tolerance asked of LSQR, `1e-11`.
pub const LSQR_TOL: u64 = 0x3DA5_FD7F_E179_6495;

/// The solvers with the factorizations that they keep from call to call.
pub struct InnerSolver<B: Backend> {
    pub ldl_cache: Option<B::Factor>,
    pub stage2_ldl_cache: Option<B::Factor>,
    pub qr_symbolic: Option<B::Symbolic>,
}

/// A solution with the number of iterations and whether the solver says that it converged.
pub struct InnerSolution {
    pub x: Vec<Real>,
    pub iterations: usize,
    pub converged: bool,
}

/// Whether `r` is the solution of a direct solver, which takes one iteration.
pub open spec fn direct_solution(
    x: Result<Vec<Real>, TheseusError>,
    r: Result<InnerSolution, TheseusError>,
) -> bool {
    match x {
        Ok(v) => r matches Ok(found) && found.x == v && found.iterations == 1 && found.converged,
        Err(e) => r == Err::<InnerSolution, _>(e),
    }
}

/// Whether `r` is the solution of a direct solver, if it has `n` entries.
pub open spec fn sized_solution(
    x: Result<Vec<Real>, TheseusError>,
    n: usize,
    r: Result<InnerSolution, TheseusError>,
) -> bool {
    if x is Ok && x->Ok_0@.len() != n {
        r == Err::<InnerSolution, _>(
            TheseusError::Shape(
                Complaint::BackendSize { found: x->Ok_0@.len() as usize, expected: n },
            ),
        )
    } else {
        direct_solution(x, r)
    }
}

/// Whether only the factorizations that a solver of this kind keeps differ.
pub open spec fn keeps_others<B: Backend>(
    kind: InnerKind,
    geometric_step: bool,
    before: InnerSolver<B>,
    after: InnerSolver<B>,
) -> bool {
    &&& kind == InnerKind::Gram || (kind == InnerKind::Saddle && !geometric_step)
        || after.ldl_cache == before.ldl_cache
    &&& kind == InnerKind::Saddle && geometric_step || after.stage2_ldl_cache
        == before.stage2_ldl_cache
    &&& kind == InnerKind::Qr || after.qr_symbolic == before.qr_symbolic
}

/// Whether a solver of this kind can answer `r` to `min 1/2 |S^-1 (M x - p)|^2 + 1/2 w |x|^2`.
pub open spec fn inner_outcome<A: Arithmetic, B: Backend>(
    ar: A,
    b: B,
    opts: InverseFdmOptions,
    kind: InnerKind,
    m: SparseColMatOwned,
    p: Seq<Real>,
    w: Real,
    x0: Seq<Real>,
    bounds: BoxBounds,
    weight: Option<&MetricWeight<B>>,
    geometric_step: bool,
    before: InnerSolver<B>,
    after: InnerSolver<B>,
    r: Result<InnerSolution, TheseusError>,
) -> bool {
    &&& keeps_others(kind, geometric_step, before, after)
    &&& match kind {
        InnerKind::Gram => exists|x: Result<Vec<Real>, TheseusError>|
            {
                &&& #[trigger] gram_outcome(
                    ar,
                    b,
                    m@,
                    p,
                    w,
                    before.ldl_cache,
                    after.ldl_cache,
                    x,
                )
                &&& sized_solution(x, m.ncols, r)
            },
        InnerKind::Saddle => exists|x: Result<Vec<Real>, TheseusError>|
            {
                &&& #[trigger] saddle_outcome(
                    ar,
                    b,
                    m@,
                    p,
                    w,
                    weight,
                    before.saddle_cache(geometric_step),
                    after.saddle_cache(geometric_step),
                    x,
                )
                &&& direct_solution(x, r)
            },
        InnerKind::Qr => exists|x: Result<Vec<Real>, TheseusError>|
            {
                &&& #[trigger] qr_outcome(
                    ar,
                    b,
                    m,
                    p,
                    true,
                    before.qr_symbolic,
                    after.qr_symbolic,
                    x,
                )
                &&& direct_solution(x, r)
            },
        InnerKind::Lsqr => exists|whole: Result<LsqrResult, TheseusError>|
            {
                &&& #[trigger] least_squares_outcome(
                    ar,
                    b,
                    m@,
                    p,
                    w,
                    opts.tol.larger(Real { bits: LSQR_TOL }),
                    opts.max_iter as nat,
                    weight,
                    whole,
                )
                &&& match whole {
                    Ok(found) => r matches Ok(s) && s.x == found.solution && s.iterations
                        == found.iterations && s.converged == found.converged,
                    Err(e) => r == Err::<InnerSolution, _>(e),
                }
            },
        InnerKind::Clarabel => exists|x: Result<Vec<Real>, TheseusError>|
            {
                &&& #[trigger] conic_solved(
                    ar,
                    b,
                    m@,
                    p,
                    w,
                    bounds,
                    weight,
                    opts.max_iter as nat,
                    opts.tol,
                    geometric_step,
                    x,
                )
                &&& direct_solution(x, r)
            },
        InnerKind::Spg => exists|whole: Result<SpgBoxResult, TheseusError>|
            {
                &&& #[trigger] spg_outcome(
                    ar,
                    b,
                    m@,
                    p,
                    w,
                    bounds,
                    opts.max_iter,
                    opts.tol,
                    x0,
                    weight,
                    whole,
                )
                &&& match whole {
                    Ok(found) => r matches Ok(s) && s.x == found.q && s.iterations
                        == found.iterations && s.converged == found.converged,
                    Err(e) => r == Err::<InnerSolution, _>(e),
                }
            },
    }
}

impl<B: Backend> InnerSolver<B> {
    /// Whether no factorization is kept yet.
    pub open spec fn is_fresh(self) -> bool {
        self.ldl_cache is None && self.stage2_ldl_cache is None && self.qr_symbolic is None
    }

    /// The factor that a saddle solve keeps.
    pub open spec fn saddle_cache(self, geometric_step: bool) -> Option<B::Factor> {
        if geometric_step {
            self.stage2_ldl_cache
        } else {
            self.ldl_cache
        }
    }

    /// Solvers that keep nothing yet.
    pub fn new() -> (r: InnerSolver<B>)
        ensures
            r.is_fresh(),
    {
        InnerSolver { ldl_cache: None, stage2_ldl_cache: None, qr_symbolic: None }
    }

    /// Solves `min |S^-1 (M x - p)|^2 + w |x|^2` with the solver of the given kind, in the
    /// box if that solver honours one.
    pub fn solve<A: Arithmetic>(
        &mut self,
        ar: &A,
        b: &B,
        opts: &InverseFdmOptions,
        kind: InnerKind,
        m_mat: &SparseColMatOwned,
        p: &Vec<Real>,
        w: Real,
        x0: &Vec<Real>,
        bounds: &BoxBounds,
        weight: Option<&MetricWeight<B>>,
        geometric_step: bool,
    ) -> (r: Result<InnerSolution, TheseusError>)
        requires
            m_mat.wf(),
            m_mat.nrows + m_mat.ncols < usize::MAX,
            p@.len() == m_mat.nrows,
            fits(p@.len(), 1),
            x0@.len() == m_mat.ncols,
            bounds.lower@.len() == m_mat.ncols,
            bounds.upper@.len() == m_mat.ncols,
            kind == InnerKind::Spg ==> bounds.holds(m_mat.ncols as nat),
            weight matches Some(s) ==> s.wf() && s.n_eq == m_mat.nrows,
        ensures
            r matches Ok(found) ==> found.x@.len() == m_mat.ncols,
            keeps_others(kind, geometric_step, *old(self), *final(self)),
            kind == InnerKind::Lsqr ==> (r matches Ok(found) ==> all_finite(found.x@)),
            kind == InnerKind::Spg ==> (r matches Ok(found) ==> all_finite(found.x@)
                && bounds.contains(found.x@)),
            functional(*ar) ==> inner_outcome(
                *ar,
                *b,
                *opts,
                kind,
                *m_mat,
                p@,
                w,
                x0@,
                *bounds,
                weight,
                geometric_step,
                *old(self),
                *final(self),
                r,
            ),
    {
        match kind {
            InnerKind::Gram => {
                let solved = solve_gram_on(ar, b, m_mat, p, w, &mut self.ldl_cache);
                let ghost given = solved;
                assert(functional(*ar) ==> gram_outcome(
                    *ar,
                    *b,
                    m_mat@,
                    p@,
                    w,
                    old(self).ldl_cache,
                    self.ldl_cache,
                    given,
                ));
                match solved {
                    Ok(x) => {
                        if x.len() != m_mat.ncols {
                            return Err(
                                TheseusError::Shape(
                                    Complaint::BackendSize {
                                        found: x.len(),
                                        expected: m_mat.ncols,
                                    },
                                ),
                            );
                        }
                        Ok(InnerSolution { x, iterations: 1, converged: true })
                    },
                    Err(e) => Err(e),
                }
            },
            InnerKind::Saddle => {
                let solved = if geometric_step {
                    solve_saddle_on(ar, b, m_mat, p, w, &mut self.stage2_ldl_cache, weight)
                } else {
                    solve_saddle_on(ar, b, m_mat, p, w, &mut self.ldl_cache, weight)
                };
                let ghost given = solved;
                assert(saddle_outcome(
                    *ar,
                    *b,
                    m_mat@,
                    p@,
                    w,
                    weight,
                    old(self).saddle_cache(geometric_step),
                    self.saddle_cache(geometric_step),
                    given,
                ));
                match solved {
                    Ok(x) => Ok(InnerSolution { x, iterations: 1, converged: true }),
                    Err(e) => Err(e),
                }
            },
            InnerKind::Qr => {
                let solved = solve_qr_on(ar, b, m_mat, p, true, &mut self.qr_symbolic);
                let ghost given = solved;
                assert(qr_outcome(
                    *ar,
                    *b,
                    *m_mat,
                    p@,
                    true,
                    old(self).qr_symbolic,
                    self.qr_symbolic,
                    given,
                ));
                match solved {
                    Ok(x) => Ok(InnerSolution { x, iterations: 1, converged: true }),
                    Err(e) => Err(e),
                }
            },
            InnerKind::Lsqr => {
                let tol = opts.tol.max(Real { bits: LSQR_TOL });
                let solved = solve_lsqr_on(ar, b, m_mat, p, w, tol, opts.max_iter, weight);
                match solved {
                    Ok(found) => Ok(
                        InnerSolution {
                            x: found.solution,
                            iterations: found.iterations,
                            converged: found.converged,
                        },
                    ),
                    Err(e) => Err(e),
                }
            },
            InnerKind::Clarabel => {
                let solved = solve_clarabel_once(
                    ar,
                    b,
                    m_mat,
                    p,
                    w,
                    bounds,
                    weight,
                    opts.max_iter,
                    opts.tol,
                    geometric_step,
                );
                match solved {
                    Ok(x) => Ok(InnerSolution { x, iterations: 1, converged: true }),
                    Err(e) => Err(e),
                }
            },
            InnerKind::Spg => {
                let solved = solve_spg_on(
                    ar,
                    b,
                    m_mat,
                    p,
                    w,
                    bounds,
                    opts.max_iter,
                    opts.tol,
                    x0,
                    weight,
                );
                match solved {
                    Ok(found) => Ok(
                        InnerSolution {
                            x: found.q,
                            iterations: found.iterations,
                            converged: found.converged,
                        },
                    ),
                    Err(e) => Err(e),
                }
            },
        }
    }
}

} // verus!
