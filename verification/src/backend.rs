//! Numerical kernels that work on floating-point numbers and are supplied from outside.

use crate::array::Array2;
use crate::double::Real;
use crate::error::TheseusError;
use crate::sparse::{Csc, SparseColMatOwned};
use crate::types::FactorizationStrategy;
use vstd::prelude::*;

verus! {

/// How a conic solve ended.
#[derive(Debug, Clone, Copy, PartialEq, Eq, Structural)]
pub enum SolverStatus {
    Solved,
    AlmostSolved,
    PrimalInfeasible,
    MaxIterations,
    /// Any other end.
    Other,
}

/// The cones of a quadratic program: so many equalities, then so many inequalities.
#[derive(Debug, Clone, Copy, PartialEq, Eq, Structural)]
pub struct Cones {
    pub zero: usize,
    pub nonnegative: usize,
}

/// `min 1/2 x' P x` such that `b - A x` lies in the cones.
#[derive(Debug)]
pub struct QuadraticProgram {
    pub p: SparseColMatOwned,
    pub a: SparseColMatOwned,
    pub b: Vec<Real>,
    pub cones: Cones,
}

/// How a conic solver is to work.
#[derive(Debug, Clone, Copy, PartialEq, Eq, Structural)]
pub struct ConicSettings {
    pub max_iter: u32,
    /// The allowed gap and infeasibility, relative and absolute.
    pub tolerance: Real,
    pub presolve: bool,
    pub min_scaling: Real,
    pub max_scaling: Real,
}

/// What a conic solver came back with.
#[derive(Debug)]
pub struct ConicAttempt {
    pub status: SolverStatus,
    pub x: Vec<Real>,
    pub iterations: u32,
    pub primal_residual: Real,
    pub dual_residual: Real,
    pub solve_time: Real,
}

/// The numeric part of a sparse QR factorization, as its storage.
#[derive(Debug)]
pub struct QrFactor {
    /// The column starts of `R`, then its row indices, then what else is stored.
    pub indices: Vec<u32>,
    /// The values of `R`, then what else is stored.
    pub values: Vec<Real>,
}

/// A singular value decomposition: left vectors, singular values, right vectors.
#[derive(Debug)]
pub struct Svd {
    pub u: Array2,
    pub singular: Vec<Real>,
    pub v: Array2,
}

/// Factorizations, a singular value decomposition and a conic solver.
///
/// Nothing is assumed of what they return, not even its size.
pub trait Backend: Sized {
    /// A factored symmetric matrix.
    type Factor;

    /// The symbolic part of a sparse QR factorization.
    type Symbolic;

    /// Factors a symmetric matrix.
    fn factor(&self, g: &SparseColMatOwned, strategy: FactorizationStrategy) -> Result<
        Self::Factor,
        TheseusError,
    >
        requires
            g.wf(),
            g.nrows == g.ncols,
    ;

    /// Factors another matrix of the same pattern.
    fn refactor(&self, factor: Self::Factor, g: &SparseColMatOwned) -> Result<
        Self::Factor,
        TheseusError,
    >
        requires
            g.wf(),
            g.nrows == g.ncols,
    ;

    /// Solves for one right-hand side.
    fn solve(&self, factor: &Self::Factor, rhs: &Vec<Real>) -> Result<Vec<Real>, TheseusError>;

    /// Solves for one right-hand side in each column.
    fn solve_columns(&self, factor: &Self::Factor, rhs: &Array2) -> Result<Array2, TheseusError>;

    /// Orders a sparse matrix for QR, with simplicial storage of `R` if asked for.
    fn analyze_qr(&self, a: &SparseColMatOwned, simplicial: bool) -> Result<
        Self::Symbolic,
        TheseusError,
    >
        requires
            a.wf(),
            a.nrows >= a.ncols,
    ;

    /// Factors a sparse matrix by QR.
    fn factor_qr(&self, symbolic: &Self::Symbolic, a: &SparseColMatOwned) -> Result<
        QrFactor,
        TheseusError,
    >
        requires
            a.wf(),
            a.nrows >= a.ncols,
    ;

    /// Solves by QR for one right-hand side in each column.
    fn solve_qr(&self, symbolic: &Self::Symbolic, factor: &QrFactor, rhs: &Array2) -> Result<
        Array2,
        TheseusError,
    >;

    /// Decomposes a dense matrix, with all singular vectors if asked for, else with as
    /// many as there are singular values.
    fn svd(&self, matrix: &Array2, full: bool) -> Result<Svd, TheseusError>;

    /// Solves a quadratic program.
    fn quadratic_program(&self, program: &QuadraticProgram, settings: ConicSettings) -> Result<
        ConicAttempt,
        TheseusError,
    >
        requires
            program.p.wf(),
            program.a.wf(),
            program.p.nrows == program.p.ncols,
            program.a.ncols == program.p.ncols,
            program.a.nrows == program.b@.len(),
            program.a.nrows == program.cones.zero + program.cones.nonnegative,
    ;
}

/// Whether `r` can be what comes of factoring `g` and solving for `rhs`.
pub open spec fn factored_and_solved<B: Backend>(
    b: B,
    g: Csc,
    strategy: FactorizationStrategy,
    rhs: Seq<Real>,
    r: Result<Vec<Real>, TheseusError>,
) -> bool {
    exists|m: SparseColMatOwned, v: Vec<Real>, f: Result<B::Factor, TheseusError>|
        {
            &&& m@ == g
            &&& v@ == rhs
            &&& #[trigger] factor_and_solve_replied(b, m, strategy, v, f, r)
        }
}

/// Whether the backend can answer the factorization with `f` and the solve with `r`.
pub open spec fn factor_and_solve_replied<B: Backend>(
    b: B,
    g: SparseColMatOwned,
    strategy: FactorizationStrategy,
    rhs: Vec<Real>,
    f: Result<B::Factor, TheseusError>,
    r: Result<Vec<Real>, TheseusError>,
) -> bool {
    &&& call_ensures(B::factor, (&b, &g, strategy), f)
    &&& match f {
        Ok(factor) => call_ensures(B::solve, (&b, &factor, &rhs), r),
        Err(e) => r == Err::<Vec<Real>, _>(e),
    }
}

/// Factorise with LDL and solve a single right-hand side.
pub(crate) fn ldl_solve<B: Backend>(b: &B, g: &SparseColMatOwned, rhs: &Vec<Real>) -> (r: Result<
    Vec<Real>,
    TheseusError,
>)
    requires
        g.wf(),
        g.nrows == g.ncols,
    ensures
        factored_and_solved(*b, g@, FactorizationStrategy::LDL, rhs@, r),
{
    let f = b.factor(g, FactorizationStrategy::LDL);
    let ghost reply = f;
    match f {
        Ok(factor) => {
            let r = b.solve(&factor, rhs);
            proof {
                assert(factor_and_solve_replied(
                    *b,
                    *g,
                    FactorizationStrategy::LDL,
                    *rhs,
                    reply,
                    r,
                ));
            }
            r
        },
        Err(e) => {
            proof {
                assert(factor_and_solve_replied(
                    *b,
                    *g,
                    FactorizationStrategy::LDL,
                    *rhs,
                    reply,
                    Err(e),
                ));
            }
            Err(e)
        },
    }
}

} // verus!
