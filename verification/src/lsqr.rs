//! Zero-start LSQR, which finds the least-squares solution of least norm.

use crate::arithmetic::{
    difference_of, functional, hypot, hypotenuse_of, minus, over, product_of, quotient_of, times,
    Arithmetic,
};
use crate::double::{Real, EPSILON, ONE, ZERO};
use crate::error::{Complaint, TheseusError};
use crate::sparse::{Csc, SparseColMatOwned};
use crate::vector::{
    all_finite, axpy, divide, divided, first_not_finite, moved, norm, norm_of, scale, scaled, zeros,
};
use vstd::prelude::*;

verus! {

/// Result of a zero-start LSQR solve.
#[derive(Debug)]
pub struct LsqrResult {
    pub solution: Vec<Real>,
    pub iterations: usize,
    pub converged: bool,
}

/// What the iteration carries from step to step.
pub struct LsqrState {
    pub u: Vec<Real>,
    pub v: Vec<Real>,
    pub w: Vec<Real>,
    pub x: Vec<Real>,
    pub alpha: Real,
    pub phibar: Real,
    pub rhobar: Real,
    pub anorm: Real,
}

/// The mathematical content of an [`LsqrState`].
pub ghost struct Bidiagonal {
    pub u: Seq<Real>,
    pub v: Seq<Real>,
    pub w: Seq<Real>,
    pub x: Seq<Real>,
    pub alpha: Real,
    pub phibar: Real,
    pub rhobar: Real,
    pub anorm: Real,
}

impl View for LsqrState {
    type V = Bidiagonal;

    open spec fn view(&self) -> Bidiagonal {
        Bidiagonal {
            u: self.u@,
            v: self.v@,
            w: self.w@,
            x: self.x@,
            alpha: self.alpha,
            phibar: self.phibar,
            rhobar: self.rhobar,
            anorm: self.anorm,
        }
    }
}

/// When the iteration may stop.
pub struct LsqrTolerances {
    pub tolerance: Real,
    pub rhs_norm: Real,
    pub operator_norm: Real,
}

/// How far the iteration has come.
pub ghost struct LsqrProgress {
    pub state: Bidiagonal,
    pub performed: nat,
    pub stopped: bool,
    pub converged: bool,
}

/// `v` over its norm `n`, if that is positive.
pub open spec fn normalized<A: Arithmetic>(ar: A, v: Seq<Real>, n: Real) -> Seq<Real> {
    if (Real { bits: ZERO }).below(n) {
        scaled(ar, v, quotient_of(ar, Real { bits: ONE }, n))
    } else {
        v
    }
}

/// The next left vector before it is normalized, from the image of `v`.
pub open spec fn left_raw<A: Arithmetic>(ar: A, s: Bidiagonal, image: Seq<Real>) -> Seq<Real> {
    moved(ar, image, s.alpha.negated(), s.u)
}

/// The next right vector before it is normalized, from the transposed image of `u`.
pub open spec fn right_raw<A: Arithmetic>(
    ar: A,
    s: Bidiagonal,
    image: Seq<Real>,
    beta: Real,
) -> Seq<Real> {
    moved(ar, image, beta.negated(), s.v)
}

/// The step from `s` with the next vectors `u` and `v` of norms `beta` and `alpha`.
pub open spec fn rotated<A: Arithmetic>(
    ar: A,
    s: Bidiagonal,
    u: Seq<Real>,
    v: Seq<Real>,
    beta: Real,
    alpha: Real,
    tol: LsqrTolerances,
    performed: nat,
) -> LsqrProgress {
    let rho = hypotenuse_of(ar, s.rhobar, beta);
    if rho.level(Real { bits: ZERO }) {
        LsqrProgress { state: s, performed, stopped: true, converged: false }
    } else {
        let c = quotient_of(ar, s.rhobar, rho);
        let d = quotient_of(ar, beta, rho);
        let theta = product_of(ar, d, alpha);
        let rhobar = product_of(ar, c.negated(), alpha);
        let phi = product_of(ar, c, s.phibar);
        let phibar = product_of(ar, s.phibar, d);
        let tau = product_of(ar, d, phi);
        let x = moved(ar, s.x, quotient_of(ar, phi, rho), s.w);
        let slope = quotient_of(ar, theta, rho);
        let w = Seq::new(v.len(), |i: int| difference_of(ar, v[i], product_of(ar, slope, s.w[i])));
        let anorm = hypotenuse_of(ar, hypotenuse_of(ar, s.anorm, beta), alpha);
        let residual = phibar.absolute();
        let normal = product_of(ar, alpha, tau.absolute());
        let allowed = product_of(ar, tol.tolerance, tol.rhs_norm);
        let stationary = product_of(
            ar,
            product_of(ar, tol.tolerance, anorm.larger(tol.operator_norm)),
            residual.larger(tol.rhs_norm),
        );
        let converged = residual.at_most(allowed) || normal.at_most(stationary);
        LsqrProgress {
            state: Bidiagonal { u, v, w, x, alpha, phibar, rhobar, anorm },
            performed: performed + 1,
            stopped: converged,
            converged,
        }
    }
}

/// `x` times the matrix, or times its transpose.
pub open spec fn operator<A: Arithmetic>(ar: A, a: Csc, transposed: bool, x: Seq<Real>) -> Seq<
    Real,
> {
    if transposed {
        a.transposed().applied(ar, x)
    } else {
        a.applied(ar, x)
    }
}

/// One step of the iteration.
pub open spec fn lsqr_step<A: Arithmetic>(
    ar: A,
    a: Csc,
    transposed: bool,
    s: Bidiagonal,
    tol: LsqrTolerances,
    performed: nat,
) -> LsqrProgress {
    let left = left_raw(ar, s, operator(ar, a, transposed, s.v));
    let beta = norm_of(ar, left);
    let u = normalized(ar, left, beta);
    let right = right_raw(ar, s, operator(ar, a, !transposed, u), beta);
    let alpha = norm_of(ar, right);
    rotated(ar, s, u, normalized(ar, right, alpha), beta, alpha, tol, performed)
}

/// The progress after at most `k` steps from `s`.
pub open spec fn lsqr_upto<A: Arithmetic>(
    ar: A,
    a: Csc,
    transposed: bool,
    s: Bidiagonal,
    tol: LsqrTolerances,
    k: nat,
) -> LsqrProgress
    decreases k,
{
    if k == 0 {
        LsqrProgress { state: s, performed: 0, stopped: false, converged: false }
    } else {
        let p = lsqr_upto(ar, a, transposed, s, tol, (k - 1) as nat);
        if p.stopped {
            p
        } else {
            lsqr_step(ar, a, transposed, p.state, tol, p.performed)
        }
    }
}

/// The first state, from the right-hand side, its norm and the transposed image of its
/// direction.
pub open spec fn lsqr_start<A: Arithmetic>(
    ar: A,
    u: Seq<Real>,
    image: Seq<Real>,
    rhs_norm: Real,
    alpha: Real,
) -> Bidiagonal {
    let v = scaled(ar, image, quotient_of(ar, Real { bits: ONE }, alpha));
    Bidiagonal {
        u,
        v,
        w: v,
        x: Seq::new(image.len(), |i: int| Real { bits: ZERO }),
        alpha,
        phibar: rhs_norm,
        rhobar: alpha,
        anorm: alpha,
    }
}

/// The number of steps allowed: what was asked for, or four times the sizes together.
pub open spec fn lsqr_limit(rows: nat, cols: nat, max_iterations: nat) -> nat {
    if max_iterations != 0 {
        max_iterations
    } else {
        let all = if rows + cols == 0 {
            1
        } else {
            rows + cols
        };
        if 4 * all > usize::MAX {
            usize::MAX as nat
        } else {
            4 * all
        }
    }
}

/// The solution, the number of steps and whether the tolerance was met.
pub open spec fn lsqr_of<A: Arithmetic>(
    ar: A,
    a: Csc,
    rhs: Seq<Real>,
    transposed: bool,
    tolerance: Real,
    max_iterations: nat,
) -> (Seq<Real>, nat, bool) {
    let zero = Real { bits: ZERO };
    let (rows, cols) = if transposed {
        (a.ncols, a.nrows)
    } else {
        (a.nrows, a.ncols)
    };
    let nothing = Seq::new(cols, |i: int| zero);
    let rhs_norm = norm_of(ar, rhs);
    let u = divided(ar, rhs, rhs_norm);
    let image = operator(ar, a, !transposed, u);
    let alpha = norm_of(ar, image);
    if rhs_norm.level(zero) || alpha.level(zero) {
        (nothing, 0, true)
    } else {
        let tol = LsqrTolerances {
            tolerance: tolerance.larger(Real { bits: EPSILON }),
            rhs_norm,
            operator_norm: norm_of(ar, a.values).larger(Real { bits: EPSILON }),
        };
        let p = lsqr_upto(
            ar,
            a,
            transposed,
            lsqr_start(ar, u, image, rhs_norm, alpha),
            tol,
            lsqr_limit(rows, cols, max_iterations),
        );
        (p.state.x, p.performed, p.converged)
    }
}

/// Once stopped, the progress stays.
proof fn lemma_stopped<A: Arithmetic>(
    ar: A,
    a: Csc,
    transposed: bool,
    s: Bidiagonal,
    tol: LsqrTolerances,
    k: nat,
    n: nat,
)
    requires
        k <= n,
        lsqr_upto(ar, a, transposed, s, tol, k).stopped,
    ensures
        lsqr_upto(ar, a, transposed, s, tol, n) == lsqr_upto(ar, a, transposed, s, tol, k),
    decreases n,
{
    if k < n {
        lemma_stopped(ar, a, transposed, s, tol, k, (n - 1) as nat);
    }
}

/// `v` over its norm `n`, if that is positive.
fn normalize<A: Arithmetic>(ar: &A, v: Vec<Real>, n: Real) -> (r: Vec<Real>)
    ensures
        r@.len() == v@.len(),
        functional(*ar) ==> r@ == normalized(*ar, v@, n),
{
    if n.gt(Real { bits: ZERO }) {
        let inverse = over(ar, Real { bits: ONE }, n);
        scale(ar, &v, inverse)
    } else {
        v
    }
}

impl LsqrState {
    /// Whether the vectors have the sizes of an operator with this many rows and columns.
    pub open spec fn sized(self, rows: nat, cols: nat) -> bool {
        &&& self.u@.len() == rows
        &&& self.v@.len() == cols
        &&& self.w@.len() == cols
        &&& self.x@.len() == cols
    }

    /// The first state.
    pub fn start<A: Arithmetic>(
        ar: &A,
        u: Vec<Real>,
        image: Vec<Real>,
        rhs_norm: Real,
        alpha: Real,
    ) -> (r: LsqrState)
        ensures
            r.sized(u@.len(), image@.len()),
            functional(*ar) ==> r@ == lsqr_start(*ar, u@, image@, rhs_norm, alpha),
    {
        let inverse = over(ar, Real { bits: ONE }, alpha);
        let v = scale(ar, &image, inverse);
        let w = v.clone();
        let x = zeros(image.len());
        LsqrState { u, v, w, x, alpha, phibar: rhs_norm, rhobar: alpha, anorm: alpha }
    }

    /// The next left vector and its norm, from the image of the right one.
    pub fn left<A: Arithmetic>(&self, ar: &A, image: &Vec<Real>) -> (r: (Vec<Real>, Real))
        requires
            image@.len() == self.u@.len(),
        ensures
            r.0@.len() == self.u@.len(),
            functional(*ar) ==> r.1 == norm_of(*ar, left_raw(*ar, self@, image@)),
            functional(*ar) ==> r.0@ == normalized(*ar, left_raw(*ar, self@, image@), r.1),
    {
        let raw = axpy(ar, image, self.alpha.neg(), &self.u);
        let beta = norm(ar, &raw);
        (normalize(ar, raw, beta), beta)
    }

    /// The next right vector and its norm, from the transposed image of the left one.
    pub fn right<A: Arithmetic>(&self, ar: &A, image: &Vec<Real>, beta: Real) -> (r: (
        Vec<Real>,
        Real,
    ))
        requires
            image@.len() == self.v@.len(),
        ensures
            r.0@.len() == self.v@.len(),
            functional(*ar) ==> r.1 == norm_of(*ar, right_raw(*ar, self@, image@, beta)),
            functional(*ar) ==> r.0@ == normalized(*ar, right_raw(*ar, self@, image@, beta), r.1),
    {
        let raw = axpy(ar, image, beta.neg(), &self.v);
        let alpha = norm(ar, &raw);
        (normalize(ar, raw, alpha), alpha)
    }

    /// Takes the step to the next vectors.  Tells whether the iteration is over and
    /// whether it has converged; a step along which nothing can change is not counted.
    pub fn rotate<A: Arithmetic>(
        &mut self,
        ar: &A,
        u: Vec<Real>,
        v: Vec<Real>,
        beta: Real,
        alpha: Real,
        tol: &LsqrTolerances,
    ) -> (r: (bool, bool, bool))
        requires
            old(self).sized(u@.len(), v@.len()),
        ensures
            final(self).sized(u@.len(), v@.len()),
            r.2 ==> r.1,
            !r.0 ==> r.1 && !r.2,
            functional(*ar) ==> forall|n: nat|
                #[trigger] rotated(*ar, old(self)@, u@, v@, beta, alpha, *tol, n) == (
                LsqrProgress {
                    state: final(self)@,
                    performed: if r.0 {
                        n + 1
                    } else {
                        n
                    },
                    stopped: r.1,
                    converged: r.2,
                }),
    {
        let rho = hypot(ar, self.rhobar, beta);
        if rho.equals(Real { bits: ZERO }) {
            return (false, true, false);
        }
        let c = over(ar, self.rhobar, rho);
        let d = over(ar, beta, rho);
        let theta = times(ar, d, alpha);
        let rhobar = times(ar, c.neg(), alpha);
        let phi = times(ar, c, self.phibar);
        let phibar = times(ar, self.phibar, d);
        let tau = times(ar, d, phi);
        let gain = over(ar, phi, rho);
        let x = axpy(ar, &self.x, gain, &self.w);
        let slope = over(ar, theta, rho);
        let mut w: Vec<Real> = Vec::new();
        for i in 0..v.len()
            invariant
                w@.len() == i,
                v@.len() == self.w@.len(),
                functional(*ar) ==> forall|k: int|
                    0 <= k < i ==> #[trigger] w@[k] == difference_of(
                        *ar,
                        v@[k],
                        product_of(*ar, slope, self.w@[k]),
                    ),
        {
            let part = times(ar, slope, self.w[i]);
            w.push(minus(ar, v[i], part));
        }
        proof {
            if functional(*ar) {
                assert(w@ =~= Seq::new(
                    v@.len(),
                    |i: int| difference_of(*ar, v@[i], product_of(*ar, slope, old(self).w@[i])),
                ));
            }
        }
        let wider = hypot(ar, self.anorm, beta);
        let anorm = hypot(ar, wider, alpha);
        let residual = phibar.abs();
        let normal = times(ar, alpha, tau.abs());
        let allowed = times(ar, tol.tolerance, tol.rhs_norm);
        let part = times(ar, tol.tolerance, anorm.max(tol.operator_norm));
        let stationary = times(ar, part, residual.max(tol.rhs_norm));
        let converged = residual.le(allowed) || normal.le(stationary);
        self.u = u;
        self.v = v;
        self.w = w;
        self.x = x;
        self.alpha = alpha;
        self.phibar = phibar;
        self.rhobar = rhobar;
        self.anorm = anorm;
        (true, converged, converged)
    }
}

/// The number of steps allowed.
pub fn iteration_limit(rows: usize, cols: usize, max_iterations: usize) -> (r: usize)
    ensures
        r == lsqr_limit(rows as nat, cols as nat, max_iterations as nat),
{
    if max_iterations != 0 {
        max_iterations
    } else {
        let all: usize = rows.saturating_add(cols);
        if all > usize::MAX / 4 {
            usize::MAX
        } else if all == 0 {
            4
        } else {
            4 * all
        }
    }
}

/// Whether `r` is what LSQR returns: its solution if that is finite, else a complaint.
pub open spec fn lsqr_outcome<A: Arithmetic>(
    ar: A,
    a: Csc,
    rhs: Seq<Real>,
    transposed: bool,
    tolerance: Real,
    max_iterations: nat,
    r: Result<LsqrResult, TheseusError>,
) -> bool {
    let (rows, cols) = if transposed {
        (a.ncols, a.nrows)
    } else {
        (a.nrows, a.ncols)
    };
    let answer = lsqr_of(ar, a, rhs, transposed, tolerance, max_iterations);
    match r {
        Ok(found) => {
            &&& found.solution@.len() == cols
            &&& all_finite(found.solution@)
            &&& found.iterations <= lsqr_limit(rows, cols, max_iterations)
            &&& functional(ar) ==> answer == (
                found.solution@,
                found.iterations as nat,
                found.converged,
            )
        },
        Err(e) => {
            &&& e == TheseusError::Solver(Complaint::LsqrNotFinite)
            &&& functional(ar) ==> !all_finite(answer.0)
        },
    }
}

/// `x` times the matrix, or times its transpose.
fn apply<A: Arithmetic>(
    ar: &A,
    a: &SparseColMatOwned,
    at: &SparseColMatOwned,
    transposed: bool,
    x: &Vec<Real>,
) -> (r: Vec<Real>)
    requires
        a.wf(),
        at.wf(),
        at@ == a@.transposed(),
        at.nrows == a.ncols,
        at.ncols == a.nrows,
        x@.len() == if transposed {
            a.nrows
        } else {
            a.ncols
        },
    ensures
        r@.len() == if transposed {
            a.ncols
        } else {
            a.nrows
        },
        functional(*ar) ==> r@ == operator(*ar, a@, transposed, x@),
{
    if transposed {
        at.matvec(ar, x)
    } else {
        a.matvec(ar, x)
    }
}

/// Zero-start LSQR on a matrix or on its transpose.
pub(crate) fn lsqr<A: Arithmetic>(
    ar: &A,
    a: &SparseColMatOwned,
    rhs: &Vec<Real>,
    transposed: bool,
    tolerance: Real,
    max_iterations: usize,
) -> (r: Result<LsqrResult, TheseusError>)
    requires
        a.wf(),
        a.nrows < usize::MAX,
        rhs@.len() == if transposed {
            a.ncols
        } else {
            a.nrows
        },
    ensures
        lsqr_outcome(*ar, a@, rhs@, transposed, tolerance, max_iterations as nat, r),
{
    let zero = Real { bits: ZERO };
    let (rows, cols) = if transposed {
        (a.ncols, a.nrows)
    } else {
        (a.nrows, a.ncols)
    };
    let at = a.transpose();
    let rhs_norm = norm(ar, rhs);
    if rhs_norm.equals(zero) {
        return Ok(LsqrResult { solution: zeros(cols), iterations: 0, converged: true });
    }
    let u = divide(ar, rhs, rhs_norm);
    let image = apply(ar, a, &at, !transposed, &u);
    let alpha = norm(ar, &image);
    if alpha.equals(zero) {
        return Ok(LsqrResult { solution: zeros(cols), iterations: 0, converged: true });
    }
    let mut state = LsqrState::start(ar, u, image, rhs_norm, alpha);
    let ghost first = state@;
    let operator_norm = norm(ar, &a.values).max(Real { bits: EPSILON });
    let tol = LsqrTolerances {
        tolerance: tolerance.max(Real { bits: EPSILON }),
        rhs_norm,
        operator_norm,
    };
    let limit: usize = iteration_limit(rows, cols, max_iterations);
    let mut performed: usize = 0;
    let mut stopped = false;
    let mut converged = false;
    let mut step: usize = 0;
    while step < limit && !stopped
        invariant
            a.wf(),
            at.wf(),
            at@ == a@.transposed(),
            at.nrows == a.ncols,
            at.ncols == a.nrows,
            rows == if transposed {
                a.ncols
            } else {
                a.nrows
            },
            cols == if transposed {
                a.nrows
            } else {
                a.ncols
            },
            state.sized(rows as nat, cols as nat),
            step <= limit,
            performed <= step,
            !stopped ==> performed == step,
            functional(*ar) ==> lsqr_upto(*ar, a@, transposed, first, tol, step as nat) == (
            LsqrProgress { state: state@, performed: performed as nat, stopped, converged }),
        decreases limit - step,
    {
        let ghost before = state@;
        let image = apply(ar, a, &at, transposed, &state.v);
        let (u, beta) = state.left(ar, &image);
        let back = apply(ar, a, &at, !transposed, &u);
        let (v, alpha) = state.right(ar, &back, beta);
        let ghost (su, sv) = (u@, v@);
        let (counted, over, done) = state.rotate(ar, u, v, beta, alpha, &tol);
        proof {
            if functional(*ar) {
                assert(lsqr_step(*ar, a@, transposed, before, tol, performed as nat) == rotated(
                    *ar,
                    before,
                    su,
                    sv,
                    beta,
                    alpha,
                    tol,
                    performed as nat,
                ));
            }
        }
        if counted {
            performed = performed + 1;
        }
        stopped = over;
        converged = done;
        step = step + 1;
    }
    proof {
        if functional(*ar) && stopped {
            lemma_stopped(*ar, a@, transposed, first, tol, step as nat, limit as nat);
        }
        assert(functional(*ar) ==> lsqr_of(
            *ar,
            a@,
            rhs@,
            transposed,
            tolerance,
            max_iterations as nat,
        ) == (state.x@, performed as nat, converged));
    }
    match first_not_finite(&state.x) {
        Some(_) => Err(TheseusError::Solver(Complaint::LsqrNotFinite)),
        None => Ok(LsqrResult { solution: state.x, iterations: performed, converged }),
    }
}

/// Solve `min ||Ax - b||` with recurrence-based LSQR stopping.
pub fn solve_lsqr<A: Arithmetic>(
    ar: &A,
    a: &SparseColMatOwned,
    rhs: &Vec<Real>,
    tolerance: Real,
    max_iterations: usize,
) -> (r: Result<LsqrResult, TheseusError>)
    requires
        a.wf(),
        a.nrows < usize::MAX,
        rhs@.len() == a.nrows,
    ensures
        lsqr_outcome(*ar, a@, rhs@, false, tolerance, max_iterations as nat, r),
{
    lsqr(ar, a, rhs, false, tolerance, max_iterations)
}

/// Whether `r` is the solution alone of what LSQR returns.
pub open spec fn lsqr_solution<A: Arithmetic>(
    ar: A,
    a: Csc,
    rhs: Seq<Real>,
    transposed: bool,
    tolerance: Real,
    max_iterations: nat,
    r: Result<Vec<Real>, TheseusError>,
) -> bool {
    exists|whole: Result<LsqrResult, TheseusError>|
        {
            &&& #[trigger] lsqr_outcome(ar, a, rhs, transposed, tolerance, max_iterations, whole)
            &&& match whole {
                Ok(found) => r == Ok::<_, TheseusError>(found.solution),
                Err(e) => r == Err::<Vec<Real>, _>(e),
            }
        }
}

/// Apply the Moore--Penrose inverse with zero-start LSQR.
pub fn apply_pseudoinverse<A: Arithmetic>(
    ar: &A,
    a: &SparseColMatOwned,
    rhs: &Vec<Real>,
    tolerance: Real,
    max_iterations: usize,
) -> (r: Result<Vec<Real>, TheseusError>)
    requires
        a.wf(),
        a.nrows < usize::MAX,
    ensures
        rhs@.len() != a.nrows ==> r == Err::<Vec<Real>, _>(
            TheseusError::Shape(Complaint::PseudoinverseRhs),
        ),
        rhs@.len() == a.nrows ==> lsqr_solution(
            *ar,
            a@,
            rhs@,
            false,
            tolerance,
            max_iterations as nat,
            r,
        ),
{
    if rhs.len() != a.nrows {
        return Err(TheseusError::Shape(Complaint::PseudoinverseRhs));
    }
    let whole = lsqr(ar, a, rhs, false, tolerance, max_iterations);
    match whole {
        Ok(found) => Ok(found.solution),
        Err(e) => Err(e),
    }
}

/// Apply `(A^T)^+`.
pub fn apply_transpose_pseudoinverse<A: Arithmetic>(
    ar: &A,
    a: &SparseColMatOwned,
    rhs: &Vec<Real>,
    tolerance: Real,
    max_iterations: usize,
) -> (r: Result<Vec<Real>, TheseusError>)
    requires
        a.wf(),
        a.nrows < usize::MAX,
    ensures
        rhs@.len() != a.ncols ==> r == Err::<Vec<Real>, _>(
            TheseusError::Shape(Complaint::TransposePseudoinverseRhs),
        ),
        rhs@.len() == a.ncols ==> lsqr_solution(
            *ar,
            a@,
            rhs@,
            true,
            tolerance,
            max_iterations as nat,
            r,
        ),
{
    if rhs.len() != a.ncols {
        return Err(TheseusError::Shape(Complaint::TransposePseudoinverseRhs));
    }
    let whole = lsqr(ar, a, rhs, true, tolerance, max_iterations);
    match whole {
        Ok(found) => Ok(found.solution),
        Err(e) => Err(e),
    }
}

/// Nothing is needed to meet nothing: zero loads have the solution zero, without a step.
pub proof fn nothing_meets_nothing<A: Arithmetic>(
    ar: A,
    a: Csc,
    rhs: Seq<Real>,
    tolerance: Real,
    max_iterations: nat,
)
    requires
        norm_of(ar, rhs).level(Real { bits: ZERO }),
    ensures
        lsqr_of(ar, a, rhs, false, tolerance, max_iterations) == (
            Seq::new(a.ncols, |i: int| Real { bits: ZERO }),
            0nat,
            true,
        ),
{
}

} // verus!
