//! LSQR with regularization and with the geometric weight.

use crate::arithmetic::{functional, product_of, root_of, sqrt, times, Arithmetic};
use crate::backend::Backend;
use crate::double::{Real, EPSILON, ZERO};
use crate::error::{Complaint, TheseusError};
use crate::lsqr::{
    iteration_limit, left_raw, lsqr_limit, lsqr_outcome, lsqr_start, normalized, right_raw, rotated,
    solve_lsqr, Bidiagonal, LsqrProgress, LsqrResult, LsqrState, LsqrTolerances,
};
use crate::saddle::extended;
use crate::sparse::{assembled, Csc, SparseColMatOwned, Triplet};
use crate::vector::{
    all_finite, divide, divided, first_not_finite, moved, norm, norm_of, padded, slice, zeros,
};
use crate::weight::{inverse_applied, MetricWeight};
use vstd::prelude::*;

verus! {

/// The entries of `[M; sqrt(w) I]`.
pub open spec fn stacked_terms<A: Arithmetic>(ar: A, m: Csc, w: Real) -> Seq<Triplet> {
    m.triplets() + Seq::new(
        m.ncols,
        |j: int| ((m.nrows + j) as u32, j as u32, root_of(ar, w)),
    )
}

/// The matrix `[M; sqrt(w) I]`, or `M` alone where `w` is not positive.
pub open spec fn stacked<A: Arithmetic>(ar: A, m: Csc, w: Real) -> Csc {
    if w.at_most(Real { bits: ZERO }) {
        m
    } else {
        assembled(ar, m.nrows + m.ncols, m.ncols, stacked_terms(ar, m, w))
    }
}

/// Whether the stacked matrix can be indexed in 32 bits.
pub open spec fn stackable(m: Csc, w: Real) -> bool {
    w.at_most(Real { bits: ZERO }) || (m.nrows + m.ncols < u32::MAX && m.nnz() + m.ncols
        <= u32::MAX)
}

/// Stacks `sqrt(w) I` below the matrix, so that least squares become regularized.
pub fn stack_tikhonov<A: Arithmetic>(ar: &A, m_mat: &SparseColMatOwned, w: Real) -> (r: Result<
    SparseColMatOwned,
    TheseusError,
>)
    requires
        m_mat.wf(),
    ensures
        r is Ok <==> stackable(m_mat@, w),
        r matches Err(e) ==> e == TheseusError::Shape(Complaint::Triplets),
        r matches Ok(s) ==> s.wf() && s.ncols == m_mat.ncols && s.nrows == if w.at_most(
            Real { bits: ZERO },
        ) {
            m_mat.nrows as int
        } else {
            m_mat.nrows + m_mat.ncols
        },
        r matches Ok(s) ==> functional(*ar) ==> s@ == stacked(*ar, m_mat@, w),
{
    if w.le(Real { bits: ZERO }) {
        return Ok(m_mat.clone());
    }
    let m: usize = m_mat.nrows;
    let n: usize = m_mat.ncols;
    if m >= u32::MAX as usize || n >= u32::MAX as usize - m {
        return Err(TheseusError::Shape(Complaint::Triplets));
    }
    let root = sqrt(ar, w);
    let mut terms = m_mat.triplets();
    let ghost before = terms@;
    for j in 0..n
        invariant
            m + n < u32::MAX,
            m + n <= usize::MAX,
            terms@ == before + Seq::new(j as nat, |k: int| ((m + k) as u32, k as u32, root)),
    {
        terms.push(((m + j) as u32, j as u32, root));
        assert(terms@ =~= before + Seq::new(
            j as nat + 1,
            |k: int| ((m + k) as u32, k as u32, root),
        ));
    }
    proof {
        assert forall|k: int| 0 <= k < terms@.len() implies (#[trigger] terms@[k]).0 < m + n
            && terms@[k].1 < n by {
            if k < before.len() {
                assert(terms@[k] == before[k]);
            }
        }
        if functional(*ar) {
            assert(terms@ =~= stacked_terms(*ar, m_mat@, w));
        }
    }
    SparseColMatOwned::from_triplets(ar, m + n, n, &terms)
}

/// The operator `[S^-1 M; damping I]`.
///
/// The rows of the damping are there only if it is positive.  They are appended here rather
/// than stored, since `S^-1 M` has no sparse representation.
pub struct WeightedOperator<'a, B: Backend> {
    pub m: &'a SparseColMatOwned,
    pub m_t: SparseColMatOwned,
    pub weight: &'a MetricWeight<B>,
    pub damping: Real,
}

/// The numbers of a list, or why there is none.
pub open spec fn listed(r: Result<Vec<Real>, TheseusError>) -> Result<Seq<Real>, TheseusError> {
    match r {
        Ok(v) => Ok(v@),
        Err(e) => Err(e),
    }
}

/// The rows that damping adds under an image.
pub open spec fn damping_rows<A: Arithmetic>(ar: A, damping: Real, x: Seq<Real>) -> Seq<Real> {
    if (Real { bits: ZERO }).below(damping) {
        Seq::new(x.len(), |j: int| product_of(ar, damping, x[j]))
    } else {
        Seq::empty()
    }
}

/// Whether `r` can be `[S^-1 M; damping I] x`.
pub open spec fn image_under<A: Arithmetic, B: Backend>(
    ar: A,
    b: B,
    m: Csc,
    weight: MetricWeight<B>,
    damping: Real,
    x: Seq<Real>,
    r: Result<Seq<Real>, TheseusError>,
) -> bool {
    exists|top: Result<Vec<Real>, TheseusError>|
        {
            &&& #[trigger] inverse_applied(ar, b, weight, m.applied(ar, x), top)
            &&& match top {
                Ok(t) => r == Ok::<_, TheseusError>(t@ + damping_rows(ar, damping, x)),
                Err(e) => r == Err::<Seq<Real>, _>(e),
            }
        }
}

/// Whether `r` can be `[M^T S^-1, damping I] y`.
pub open spec fn image_back<A: Arithmetic, B: Backend>(
    ar: A,
    b: B,
    m: Csc,
    weight: MetricWeight<B>,
    damping: Real,
    y: Seq<Real>,
    r: Result<Seq<Real>, TheseusError>,
) -> bool {
    exists|top: Result<Vec<Real>, TheseusError>|
        {
            &&& #[trigger] inverse_applied(ar, b, weight, y.subrange(0, m.nrows as int), top)
            &&& match top {
                Ok(t) => r == Ok::<_, TheseusError>(
                    if (Real { bits: ZERO }).below(damping) {
                        moved(
                            ar,
                            m.transposed().applied(ar, t@),
                            damping,
                            y.subrange(m.nrows as int, y.len() as int),
                        )
                    } else {
                        m.transposed().applied(ar, t@)
                    },
                ),
                Err(e) => r == Err::<Seq<Real>, _>(e),
            }
        }
}

impl<'a, B: Backend> WeightedOperator<'a, B> {
    pub open spec fn wf(self) -> bool {
        &&& self.m.wf()
        &&& self.m_t.wf()
        &&& self.m_t@ == self.m@.transposed()
        &&& self.m_t.nrows == self.m.ncols
        &&& self.m_t.ncols == self.m.nrows
        &&& self.weight.wf()
        &&& self.weight.n_eq == self.m.nrows
        &&& self.m.nrows + self.m.ncols <= usize::MAX
    }

    pub open spec fn damped(self) -> bool {
        (Real { bits: ZERO }).below(self.damping)
    }

    /// The number of rows.
    pub open spec fn rows(self) -> nat {
        if self.damped() {
            (self.m.nrows + self.m.ncols) as nat
        } else {
            self.m.nrows as nat
        }
    }

    /// Applies the operator.
    pub fn apply<A: Arithmetic>(&self, ar: &A, b: &B, x: &Vec<Real>) -> (r: Result<
        Vec<Real>,
        TheseusError,
    >)
        requires
            self.wf(),
            x@.len() == self.m.ncols,
        ensures
            r matches Ok(y) ==> y@.len() == self.rows(),
            functional(*ar) ==> image_under(
                *ar,
                *b,
                self.m@,
                *self.weight,
                self.damping,
                x@,
                listed(r),
            ),
    {
        let image = self.m.matvec(ar, x);
        let solved = self.weight.apply_inverse(ar, b, &image);
        let ghost given = solved;
        assert(inverse_applied(*ar, *b, *self.weight, image@, given));
        let mut out = match solved {
            Ok(v) => v,
            Err(e) => {
                return Err(e);
            },
        };
        let ghost top = out;
        if self.damping.gt(Real { bits: ZERO }) {
            for j in 0..x.len()
                invariant
                    out@.len() == top@.len() + j,
                    functional(*ar) ==> out@ == top@ + Seq::new(
                        j as nat,
                        |k: int| product_of(*ar, self.damping, x@[k]),
                    ),
            {
                out.push(times(ar, self.damping, x[j]));
                proof {
                    if functional(*ar) {
                        assert(out@ =~= top@ + Seq::new(
                            j as nat + 1,
                            |k: int| product_of(*ar, self.damping, x@[k]),
                        ));
                    }
                }
            }
        }
        proof {
            if functional(*ar) {
                assert(out@ =~= top@ + damping_rows(*ar, self.damping, x@));
            }
        }
        Ok(out)
    }

    /// Applies the transposed operator.
    pub fn apply_t<A: Arithmetic>(&self, ar: &A, b: &B, y: &Vec<Real>) -> (r: Result<
        Vec<Real>,
        TheseusError,
    >)
        requires
            self.wf(),
            y@.len() == self.rows(),
        ensures
            r matches Ok(x) ==> x@.len() == self.m.ncols,
            functional(*ar) ==> image_back(
                *ar,
                *b,
                self.m@,
                *self.weight,
                self.damping,
                y@,
                listed(r),
            ),
    {
        let head = slice(y, 0, self.m.nrows);
        let solved = self.weight.apply_inverse(ar, b, &head);
        let ghost given = solved;
        assert(inverse_applied(
            *ar,
            *b,
            *self.weight,
            y@.subrange(0, self.m.nrows as int),
            given,
        ));
        let top = match solved {
            Ok(v) => v,
            Err(e) => {
                return Err(e);
            },
        };
        let out = self.m_t.matvec(ar, &top);
        if self.damping.gt(Real { bits: ZERO }) {
            let tail = slice(y, self.m.nrows, y.len());
            Ok(crate::vector::axpy(ar, &out, self.damping, &tail))
        } else {
            Ok(out)
        }
    }
}

/// Whether `next` can follow `s` in one step of the iteration.
pub open spec fn weighted_step<A: Arithmetic, B: Backend>(
    ar: A,
    b: B,
    m: Csc,
    weight: MetricWeight<B>,
    damping: Real,
    tol: LsqrTolerances,
    s: LsqrProgress,
    next: Result<LsqrProgress, TheseusError>,
) -> bool {
    exists|image: Result<Seq<Real>, TheseusError>|
        {
            &&& #[trigger] image_under(ar, b, m, weight, damping, s.state.v, image)
            &&& match image {
                Err(e) => next == Err::<LsqrProgress, _>(e),
                Ok(y) => weighted_half_step(ar, b, m, weight, damping, tol, s, y, next),
            }
        }
}

/// Whether `next` can follow `s` once the image of its right vector is known.
pub open spec fn weighted_half_step<A: Arithmetic, B: Backend>(
    ar: A,
    b: B,
    m: Csc,
    weight: MetricWeight<B>,
    damping: Real,
    tol: LsqrTolerances,
    s: LsqrProgress,
    y: Seq<Real>,
    next: Result<LsqrProgress, TheseusError>,
) -> bool {
    let left = left_raw(ar, s.state, y);
    let beta = norm_of(ar, left);
    let u = normalized(ar, left, beta);
    exists|image: Result<Seq<Real>, TheseusError>|
        {
            &&& #[trigger] image_back(ar, b, m, weight, damping, u, image)
            &&& match image {
                Err(e) => next == Err::<LsqrProgress, _>(e),
                Ok(z) => {
                    let right = right_raw(ar, s.state, z, beta);
                    let alpha = norm_of(ar, right);
                    let v = normalized(ar, right, alpha);
                    next == Ok::<_, TheseusError>(
                        rotated(ar, s.state, u, v, beta, alpha, tol, s.performed),
                    )
                },
            }
        }
}

/// Whether `s` can be the progress after `k` steps.
pub open spec fn weighted_reaches<A: Arithmetic, B: Backend>(
    ar: A,
    b: B,
    m: Csc,
    weight: MetricWeight<B>,
    damping: Real,
    tol: LsqrTolerances,
    first: Bidiagonal,
    k: nat,
    s: LsqrProgress,
) -> bool
    decreases k,
{
    if k == 0 {
        s == LsqrProgress { state: first, performed: 0, stopped: false, converged: false }
    } else {
        exists|before: LsqrProgress|
            {
                &&& weighted_reaches(
                    ar,
                    b,
                    m,
                    weight,
                    damping,
                    tol,
                    first,
                    (k - 1) as nat,
                    before,
                )
                &&& !before.stopped
                &&& #[trigger] weighted_step(ar, b, m, weight, damping, tol, before, Ok(s))
            }
    }
}

/// Whether `r` is what the iteration returns where it ends: its solution if that is
/// finite, else a complaint.
pub open spec fn ended(s: LsqrProgress, r: Result<LsqrResult, TheseusError>) -> bool {
    if all_finite(s.state.x) {
        r matches Ok(found) && found.solution@ == s.state.x && found.iterations == s.performed
            && found.converged == s.converged
    } else {
        r == Err::<LsqrResult, _>(TheseusError::Solver(Complaint::LsqrNotFinite))
    }
}

/// Whether `r` can be what comes of the iteration from `first`: it goes on until it stops,
/// the steps are used up, or a step fails.
pub open spec fn weighted_run<A: Arithmetic, B: Backend>(
    ar: A,
    b: B,
    m: Csc,
    weight: MetricWeight<B>,
    damping: Real,
    tol: LsqrTolerances,
    first: Bidiagonal,
    limit: nat,
    r: Result<LsqrResult, TheseusError>,
) -> bool {
    exists|k: nat, s: LsqrProgress|
        {
            &&& #[trigger] weighted_reaches(ar, b, m, weight, damping, tol, first, k, s)
            &&& k <= limit
            &&& if k == limit || s.stopped {
                ended(s, r)
            } else {
                r is Err && weighted_step(
                    ar,
                    b,
                    m,
                    weight,
                    damping,
                    tol,
                    s,
                    Err(r->Err_0),
                )
            }
        }
}

/// Whether `r` is zero, found without a step.
pub open spec fn nothing_to_do(cols: nat, r: Result<LsqrResult, TheseusError>) -> bool {
    r matches Ok(found) && found.solution@ == Seq::new(cols, |i: int| Real { bits: ZERO })
        && found.iterations == 0 && found.converged
}

/// Whether `r` can be what zero-start LSQR returns on `[S^-1 M; damping I]`.
pub open spec fn weighted_outcome<A: Arithmetic, B: Backend>(
    ar: A,
    b: B,
    m: Csc,
    weight: MetricWeight<B>,
    damping: Real,
    rhs: Seq<Real>,
    operator_norm: Real,
    tolerance: Real,
    max_iterations: nat,
    r: Result<LsqrResult, TheseusError>,
) -> bool {
    let zero = Real { bits: ZERO };
    let rhs_norm = norm_of(ar, rhs);
    let u = divided(ar, rhs, rhs_norm);
    let tol = LsqrTolerances {
        tolerance: tolerance.larger(Real { bits: EPSILON }),
        rhs_norm,
        operator_norm: operator_norm.larger(Real { bits: EPSILON }),
    };
    if rhs_norm.level(zero) {
        nothing_to_do(m.ncols, r)
    } else {
        exists|image: Result<Seq<Real>, TheseusError>|
            {
                &&& #[trigger] image_back(ar, b, m, weight, damping, u, image)
                &&& match image {
                    Err(e) => r == Err::<LsqrResult, _>(e),
                    Ok(z) => if norm_of(ar, z).level(zero) {
                        nothing_to_do(m.ncols, r)
                    } else {
                        weighted_run(
                            ar,
                            b,
                            m,
                            weight,
                            damping,
                            tol,
                            lsqr_start(ar, u, z, rhs_norm, norm_of(ar, z)),
                            lsqr_limit(rhs.len(), m.ncols, max_iterations),
                            r,
                        )
                    },
                }
            }
    }
}

/// Zero-start LSQR on the weighted operator.
pub fn lsqr_operator<'a, A: Arithmetic, B: Backend>(
    ar: &A,
    b: &B,
    operator: &WeightedOperator<'a, B>,
    rhs: &Vec<Real>,
    operator_norm: Real,
    tolerance: Real,
    max_iterations: usize,
) -> (r: Result<LsqrResult, TheseusError>)
    requires
        operator.wf(),
        rhs@.len() == operator.rows(),
    ensures
        r matches Ok(found) ==> {
            &&& found.solution@.len() == operator.m.ncols
            &&& all_finite(found.solution@)
            &&& found.iterations <= lsqr_limit(
                operator.rows(),
                operator.m.ncols as nat,
                max_iterations as nat,
            )
        },
        functional(*ar) ==> weighted_outcome(
            *ar,
            *b,
            operator.m@,
            *operator.weight,
            operator.damping,
            rhs@,
            operator_norm,
            tolerance,
            max_iterations as nat,
            r,
        ),
{
    let zero = Real { bits: ZERO };
    let rows: usize = rhs.len();
    let cols: usize = operator.m.ncols;
    let rhs_norm = norm(ar, rhs);
    if rhs_norm.equals(zero) {
        return Ok(LsqrResult { solution: zeros(cols), iterations: 0, converged: true });
    }
    let u = divide(ar, rhs, rhs_norm);
    let ghost su = u@;
    let turned = operator.apply_t(ar, b, &u);
    let ghost m = operator.m@;
    let ghost w = *operator.weight;
    let ghost d = operator.damping;
    let ghost given = listed(turned);
    assert(functional(*ar) ==> image_back(*ar, *b, m, w, d, su, given));
    let image = match turned {
        Ok(v) => v,
        Err(e) => {
            return Err(e);
        },
    };
    let alpha = norm(ar, &image);
    if alpha.equals(zero) {
        return Ok(LsqrResult { solution: zeros(cols), iterations: 0, converged: true });
    }
    let mut state = LsqrState::start(ar, u, image, rhs_norm, alpha);
    let ghost first = state@;
    let tol = LsqrTolerances {
        tolerance: tolerance.max(Real { bits: EPSILON }),
        rhs_norm,
        operator_norm: operator_norm.max(Real { bits: EPSILON }),
    };
    let limit: usize = iteration_limit(rows, cols, max_iterations);
    let mut performed: usize = 0;
    let mut stopped = false;
    let mut converged = false;
    let mut step: usize = 0;
    while step < limit && !stopped
        invariant
            operator.wf(),
            rows == operator.rows(),
            cols == operator.m.ncols,
            state.sized(rows as nat, cols as nat),
            step <= limit,
            performed <= step,
            m == operator.m@,
            w == *operator.weight,
            d == operator.damping,
            functional(*ar) ==> weighted_reaches(
                *ar,
                *b,
                m,
                w,
                d,
                tol,
                first,
                step as nat,
                LsqrProgress { state: state@, performed: performed as nat, stopped, converged },
            ),
            functional(*ar) ==> forall|r: Result<LsqrResult, TheseusError>|
                #[trigger] weighted_run(*ar, *b, m, w, d, tol, first, limit as nat, r)
                    ==> weighted_outcome(
                    *ar,
                    *b,
                    m,
                    w,
                    d,
                    rhs@,
                    operator_norm,
                    tolerance,
                    max_iterations as nat,
                    r,
                ),
        decreases limit - step,
    {
        let ghost before = LsqrProgress {
            state: state@,
            performed: performed as nat,
            stopped,
            converged,
        };
        let forth = operator.apply(ar, b, &state.v);
        let ghost given = listed(forth);
        assert(functional(*ar) ==> image_under(*ar, *b, m, w, d, before.state.v, given));
        let image = match forth {
            Ok(v) => v,
            Err(e) => {
                let r: Result<LsqrResult, TheseusError> = Err(e);
                proof {
                    if functional(*ar) {
                        assert(weighted_step(*ar, *b, m, w, d, tol, before, Err(r->Err_0)));
                        assert(weighted_run(*ar, *b, m, w, d, tol, first, limit as nat, r));
                    }
                }
                return r;
            },
        };
        let (u, beta) = state.left(ar, &image);
        let ghost su = u@;
        let back = operator.apply_t(ar, b, &u);
        let ghost returned = listed(back);
        assert(functional(*ar) ==> image_back(*ar, *b, m, w, d, su, returned));
        let back = match back {
            Ok(v) => v,
            Err(e) => {
                let r: Result<LsqrResult, TheseusError> = Err(e);
                proof {
                    if functional(*ar) {
                        assert(weighted_half_step(
                            *ar,
                            *b,
                            m,
                            w,
                            d,
                            tol,
                            before,
                            image@,
                            Err(r->Err_0),
                        ));
                        assert(weighted_step(*ar, *b, m, w, d, tol, before, Err(r->Err_0)));
                        assert(weighted_run(*ar, *b, m, w, d, tol, first, limit as nat, r));
                    }
                }
                return r;
            },
        };
        let (v, alpha) = state.right(ar, &back, beta);
        let ghost sv = v@;
        let (counted, over, done) = state.rotate(ar, u, v, beta, alpha, &tol);
        if counted {
            performed = performed + 1;
        }
        stopped = over;
        converged = done;
        step = step + 1;
        proof {
            if functional(*ar) {
                let after = LsqrProgress {
                    state: state@,
                    performed: performed as nat,
                    stopped,
                    converged,
                };
                assert(after == rotated(
                    *ar,
                    before.state,
                    su,
                    sv,
                    beta,
                    alpha,
                    tol,
                    before.performed,
                ));
                assert(weighted_half_step(*ar, *b, m, w, d, tol, before, image@, Ok(after)));
                assert(weighted_step(*ar, *b, m, w, d, tol, before, Ok(after)));
                let k = step as nat;
                assert(weighted_reaches(*ar, *b, m, w, d, tol, first, (k - 1) as nat, before));
                assert(weighted_reaches(*ar, *b, m, w, d, tol, first, k, after));
            }
        }
    }
    let ghost end = LsqrProgress { state: state@, performed: performed as nat, stopped, converged };
    let r = match first_not_finite(&state.x) {
        Some(_) => Err(TheseusError::Solver(Complaint::LsqrNotFinite)),
        None => Ok(LsqrResult { solution: state.x, iterations: performed, converged }),
    };
    proof {
        if functional(*ar) {
            assert(ended(end, r));
            assert(weighted_run(*ar, *b, m, w, d, tol, first, limit as nat, r));
        }
    }
    r
}

/// The damping that stands for a regularization.
pub open spec fn damping_of<A: Arithmetic>(ar: A, w: Real) -> Real {
    if (Real { bits: ZERO }).below(w) {
        root_of(ar, w)
    } else {
        Real { bits: ZERO }
    }
}

/// Whether `r` can be the least-squares solution in the geometric weight.
pub open spec fn weighted_solve<A: Arithmetic, B: Backend>(
    ar: A,
    b: B,
    m: Csc,
    p: Seq<Real>,
    w: Real,
    tol: Real,
    max_iter: nat,
    weight: MetricWeight<B>,
    r: Result<LsqrResult, TheseusError>,
) -> bool {
    let damping = damping_of(ar, w);
    exists|top: Result<Vec<Real>, TheseusError>|
        {
            &&& #[trigger] inverse_applied(ar, b, weight, p, top)
            &&& match top {
                Err(e) => r == Err::<LsqrResult, _>(e),
                Ok(v) => weighted_outcome(
                    ar,
                    b,
                    m,
                    weight,
                    damping,
                    if (Real { bits: ZERO }).below(damping) {
                        extended(v@, m.ncols)
                    } else {
                        v@
                    },
                    norm_of(ar, m.values),
                    tol,
                    max_iter,
                    r,
                ),
            }
        }
}

/// Whether `r` can be the regularized least-squares solution by LSQR.
pub open spec fn least_squares_outcome<A: Arithmetic, B: Backend>(
    ar: A,
    b: B,
    m: Csc,
    p: Seq<Real>,
    w: Real,
    tol: Real,
    max_iter: nat,
    weight: Option<&MetricWeight<B>>,
    r: Result<LsqrResult, TheseusError>,
) -> bool {
    match weight {
        Some(s) => weighted_solve(ar, b, m, p, w, tol, max_iter, *s, r),
        None => if !(Real { bits: ZERO }).below(w) {
            lsqr_outcome(ar, m, p, false, tol, max_iter, r)
        } else if !stackable(m, w) {
            r == Err::<LsqrResult, _>(TheseusError::Shape(Complaint::Triplets))
        } else {
            lsqr_outcome(
                ar,
                stacked(ar, m, w),
                extended(p, m.ncols),
                false,
                tol,
                max_iter,
                r,
            )
        },
    }
}

/// Solves `min |S^-1 (M x - p)|^2 + w |x|^2` by LSQR; no weight stands for `S = I`.
pub fn solve_lsqr_on<A: Arithmetic, B: Backend>(
    ar: &A,
    b: &B,
    m_mat: &SparseColMatOwned,
    p: &Vec<Real>,
    w: Real,
    tol: Real,
    max_iter: usize,
    weight: Option<&MetricWeight<B>>,
) -> (r: Result<LsqrResult, TheseusError>)
    requires
        m_mat.wf(),
        m_mat.nrows < usize::MAX,
        m_mat.nrows + m_mat.ncols < usize::MAX,
        p@.len() == m_mat.nrows,
        weight matches Some(s) ==> s.wf() && s.n_eq == m_mat.nrows,
    ensures
        r matches Ok(found) ==> {
            &&& found.solution@.len() == m_mat.ncols
            &&& all_finite(found.solution@)
            &&& found.iterations <= lsqr_limit(
                (m_mat.nrows + m_mat.ncols) as nat,
                m_mat.ncols as nat,
                max_iter as nat,
            )
        },
        functional(*ar) ==> least_squares_outcome(
            *ar,
            *b,
            m_mat@,
            p@,
            w,
            tol,
            max_iter as nat,
            weight,
            r,
        ),
{
    let m: usize = m_mat.nrows;
    let n: usize = m_mat.ncols;
    match weight {
        None => {
            if w.gt(Real { bits: ZERO }) {
                match stack_tikhonov(ar, m_mat, w) {
                    Ok(tall) => {
                        let rhs = padded(p, tall.nrows);
                        solve_lsqr(ar, &tall, &rhs, tol, max_iter)
                    },
                    Err(e) => Err(e),
                }
            } else {
                solve_lsqr(ar, m_mat, p, tol, max_iter)
            }
        },
        Some(s) => {
            let m_t = m_mat.transpose();
            let damping = if w.gt(Real { bits: ZERO }) {
                sqrt(ar, w)
            } else {
                Real { bits: ZERO }
            };
            let operator = WeightedOperator { m: m_mat, m_t, weight: s, damping };
            let solved = s.apply_inverse(ar, b, p);
            let ghost given = solved;
            assert(inverse_applied(*ar, *b, *s, p@, given));
            let top = match solved {
                Ok(v) => v,
                Err(e) => {
                    return Err(e);
                },
            };
            let rows: usize = if damping.gt(Real { bits: ZERO }) {
                m + n
            } else {
                m
            };
            let rhs = padded(&top, rows);
            assert(rows == m ==> rhs@ =~= top@);
            let operator_norm = norm(ar, &m_mat.values);
            lsqr_operator(ar, b, &operator, &rhs, operator_norm, tol, max_iter)
        },
    }
}

} // verus!
