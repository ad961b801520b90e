//! Least squares in a box as a quadratic program.

use crate::arithmetic::{
    difference_of, functional, minus, over, plus, product_of, quotient_of, sum_of, times,
    Arithmetic,
};
use crate::backend::{Backend, Cones, ConicAttempt, ConicSettings, QuadraticProgram, SolverStatus};
use crate::bounds::BoxBounds;
use crate::double::{Real, MINUS_ONE, ONE, ZERO};
use crate::error::{Complaint, ConicReport, TheseusError};
use crate::qr::HUNDRED;
use crate::saddle::{diagonal_from, push_diagonal};
use crate::sparse::{assembled, lemma_column, lemma_has_column, Csc, SparseColMatOwned, Triplet};
use crate::vector::{negate, negatives, norm, norm_of, slice};
use crate::weight::MetricWeight;
use vstd::prelude::*;

verus! {

/// The tightest tolerance asked of the solver, `1e-10`.
pub const CONIC_TOL: u64 = 0x3DDB_7CDF_D9D7_BDBB;

/// The scalings `1e-4` and `1e4`, and the wider `1e-8` and `1e8`.
pub const MIN_SCALING: u64 = 0x3F1A_36E2_EB1C_432D;

pub const MAX_SCALING: u64 = 0x40C3_8800_0000_0000;

pub const WIDE_MIN_SCALING: u64 = 0x3E45_798E_E230_8C3A;

pub const WIDE_MAX_SCALING: u64 = 0x4197_D784_0000_0000;

/// A finite bound: the unknown, whether it bounds from above, and the bound.
pub ghost struct Face {
    pub unknown: int,
    pub above: bool,
    pub bound: Real,
}

/// The finite bounds on the first `k` unknowns, from below before from above.
pub open spec fn faces(lower: Seq<Real>, upper: Seq<Real>, k: int) -> Seq<Face>
    decreases k,
{
    if k <= 0 {
        Seq::empty()
    } else {
        let before = faces(lower, upper, k - 1);
        let below = if lower[k - 1].finite() {
            before.push(Face { unknown: k - 1, above: false, bound: lower[k - 1] })
        } else {
            before
        };
        if upper[k - 1].finite() {
            below.push(Face { unknown: k - 1, above: true, bound: upper[k - 1] })
        } else {
            below
        }
    }
}

/// The entries of the inequality rows: `-x <= -lower` and `x <= upper`.
pub open spec fn face_terms(f: Seq<Face>, m: int) -> Seq<Triplet> {
    Seq::new(
        f.len(),
        |j: int|
            (
                (m + j) as u32,
                (m + f[j].unknown) as u32,
                Real {
                    bits: if f[j].above {
                        ONE
                    } else {
                        MINUS_ONE
                    },
                },
            ),
    )
}

/// The right-hand sides of the inequality rows.
pub open spec fn face_bounds(f: Seq<Face>) -> Seq<Real> {
    Seq::new(
        f.len(),
        |j: int|
            if f[j].above {
                f[j].bound
            } else {
                f[j].bound.negated()
            },
    )
}

/// The entries of `-M`, which starts at column `right`.
pub open spec fn opposed(m: Csc, right: int) -> Seq<Triplet> {
    Seq::new(
        m.nnz(),
        |k: int| (m.rows[k], (right + m.column_of(k)) as u32, m.values[k].negated()),
    )
}

/// The entries of the weight, or of the identity where there is none.
pub open spec fn left_terms<B: Backend>(weight: Option<&MetricWeight<B>>, m: nat) -> Seq<Triplet> {
    match weight {
        Some(w) => w.s@.triplets(),
        None => diagonal_from(0, m, Real { bits: ONE }),
    }
}

/// The entries of the constraints: `S e - M q = -p`, then the bounds on `q`.
pub open spec fn constraint_terms<B: Backend>(
    m: Csc,
    weight: Option<&MetricWeight<B>>,
    f: Seq<Face>,
) -> Seq<Triplet> {
    left_terms(weight, m.nrows) + opposed(m, m.nrows as int) + face_terms(f, m.nrows as int)
}

/// The entries of the objective `1/2 |e|^2 + 1/2 w |q|^2`.
pub open spec fn objective_terms(m: nat, n: nat, w: Real) -> Seq<Triplet> {
    diagonal_from(0, m, Real { bits: ONE }) + if (Real { bits: ZERO }).below(w) {
        diagonal_from(m as int, n, w)
    } else {
        Seq::empty()
    }
}

/// Whether the program can be indexed in 32 bits.
pub open spec fn program_indexable<B: Backend>(
    m: Csc,
    weight: Option<&MetricWeight<B>>,
    f: Seq<Face>,
) -> bool {
    &&& m.nrows + m.ncols < u32::MAX
    &&& m.nrows + f.len() < u32::MAX
    &&& constraint_terms(m, weight, f).len() <= u32::MAX
}

/// Whether `qp` is the program `min 1/2 |e|^2 + 1/2 w |q|^2` such that `S e - M q = -p`
/// with `q` in the box.
pub open spec fn states<A: Arithmetic, B: Backend>(
    qp: QuadraticProgram,
    ar: A,
    m: Csc,
    p: Seq<Real>,
    w: Real,
    bounds: BoxBounds,
    weight: Option<&MetricWeight<B>>,
) -> bool {
    let f = faces(bounds.lower@, bounds.upper@, m.ncols as int);
    let variables = m.nrows + m.ncols;
    &&& qp.p.wf()
    &&& qp.a.wf()
    &&& qp.p.nrows == variables
    &&& qp.p.ncols == variables
    &&& qp.a.nrows == m.nrows + f.len()
    &&& qp.a.ncols == variables
    &&& qp.b@ == negatives(p) + face_bounds(f)
    &&& qp.cones == (Cones { zero: m.nrows as usize, nonnegative: f.len() as usize })
    &&& functional(ar) ==> qp.p@ == assembled(
        ar,
        variables,
        variables,
        objective_terms(m.nrows, m.ncols, w),
    )
    &&& functional(ar) ==> qp.a@ == assembled(
        ar,
        m.nrows + f.len(),
        variables,
        constraint_terms(m, weight, f),
    )
}

proof fn lemma_faces_bounded(lower: Seq<Real>, upper: Seq<Real>, k: int)
    requires
        0 <= k <= lower.len(),
        lower.len() == upper.len(),
    ensures
        forall|j: int|
            0 <= j < faces(lower, upper, k).len() ==> 0 <= (#[trigger] faces(
                lower,
                upper,
                k,
            )[j]).unknown < k,
        faces(lower, upper, k).len() <= 2 * k,
    decreases k,
{
    if k > 0 {
        lemma_faces_bounded(lower, upper, k - 1);
        let before = faces(lower, upper, k - 1);
        let all = faces(lower, upper, k);
        assert forall|j: int| 0 <= j < all.len() implies 0 <= (#[trigger] all[j]).unknown < k by {
            if j < before.len() {
                assert(all[j] == before[j]);
            }
        }
    }
}

proof fn lemma_faces_grow(lower: Seq<Real>, upper: Seq<Real>, i: int, k: int)
    requires
        0 <= i <= k,
    ensures
        faces(lower, upper, i).len() <= faces(lower, upper, k).len(),
    decreases k,
{
    if i < k {
        lemma_faces_grow(lower, upper, i, k - 1);
    }
}

/// Appends the entries of `-M`.
fn push_opposed(terms: &mut Vec<Triplet>, a: &SparseColMatOwned, right: usize)
    requires
        a.wf(),
        right + a.ncols <= usize::MAX,
    ensures
        final(terms)@ == old(terms)@ + opposed(a@, right as int),
{
    let ghost before = terms@;
    let ghost m = a@;
    let ghost goal = opposed(m, right as int);
    for col in 0..a.ncols
        invariant
            a.wf(),
            m == a@,
            right + a.ncols <= usize::MAX,
            goal == opposed(m, right as int),
            m.starts[col as int] <= m.nnz(),
            terms@ == before + goal.subrange(0, m.starts[col as int] as int),
    {
        let start: usize = a.col_ptrs[col] as usize;
        let end: usize = a.col_ptrs[col + 1] as usize;
        assert(m.starts[col as int] <= m.starts[col + 1]);
        assert(m.starts[col + 1] <= m.starts[m.ncols as int]);
        for nz in start..end
            invariant
                a.wf(),
                m == a@,
                right + a.ncols <= usize::MAX,
                goal == opposed(m, right as int),
                col < a.ncols,
                start == m.starts[col as int],
                end == m.starts[col + 1],
                end <= m.nnz(),
                terms@ == before + goal.subrange(0, nz as int),
        {
            proof {
                lemma_column(m, nz as int, col as int);
            }
            terms.push((a.row_indices[nz], (right + col) as u32, a.values[nz].neg()));
            assert(terms@ =~= before + goal.subrange(0, nz + 1));
        }
    }
    assert(goal.subrange(0, m.nnz() as int) =~= goal);
}

/// The program `min 1/2 |e|^2 + 1/2 w |q|^2` such that `S e - M q = -p` with `q` in the box.
///
/// With no weight, `S = I` pins `e` to the plain force residual `M q - p`.
/// Under the geometric metric `S` is the sparse Laplacian block, so `e` becomes
/// `S^-1 (M q - p)`, the geometric error, and the inverse is never formed.
pub fn build_program<A: Arithmetic, B: Backend>(
    ar: &A,
    m_mat: &SparseColMatOwned,
    p: &Vec<Real>,
    w: Real,
    bounds: &BoxBounds,
    weight: Option<&MetricWeight<B>>,
) -> (r: Result<QuadraticProgram, TheseusError>)
    requires
        m_mat.wf(),
        p@.len() == m_mat.nrows,
        bounds.lower@.len() == m_mat.ncols,
        bounds.upper@.len() == m_mat.ncols,
        weight matches Some(s) ==> s.wf() && s.n_eq == m_mat.nrows,
    ensures
        r is Ok <==> program_indexable(
            m_mat@,
            weight,
            faces(bounds.lower@, bounds.upper@, m_mat.ncols as int),
        ),
        r matches Err(e) ==> e == TheseusError::Shape(Complaint::Triplets),
        r matches Ok(qp) ==> states(qp, *ar, m_mat@, p@, w, *bounds, weight),
{
    let m: usize = m_mat.nrows;
    let n: usize = m_mat.ncols;
    let limit: usize = u32::MAX as usize;
    if m >= limit || n >= limit - m {
        return Err(TheseusError::Shape(Complaint::Triplets));
    }
    let variables: usize = m + n;
    let ghost all = faces(bounds.lower@, bounds.upper@, n as int);
    let mut objective: Vec<Triplet> = Vec::new();
    push_diagonal(&mut objective, 0, m, Real { bits: ONE });
    if w.gt(Real { bits: ZERO }) {
        push_diagonal(&mut objective, m, n, w);
    }
    proof {
        let t = objective_terms(m as nat, n as nat, w);
        assert(objective@ =~= t);
        assert forall|k: int| 0 <= k < t.len() implies (#[trigger] t[k]).0 < variables && t[k].1
            < variables by {
            if k < m {
                assert(t[k] == diagonal_from(0, m as nat, Real { bits: ONE })[k]);
            } else {
                assert(t[k] == diagonal_from(m as int, n as nat, w)[k - m]);
            }
        }
    }
    let mut terms: Vec<Triplet> = match weight {
        Some(s) => s.s.triplets(),
        None => {
            let mut ones: Vec<Triplet> = Vec::new();
            push_diagonal(&mut ones, 0, m, Real { bits: ONE });
            ones
        },
    };
    assert(terms@ =~= left_terms(weight, m as nat));
    push_opposed(&mut terms, m_mat, m);
    let ghost equalities = terms@;
    let mut b = negate(p);
    let mut n_ineq: usize = 0;
    for i in 0..n
        invariant
            bounds.lower@.len() == n,
            bounds.upper@.len() == n,
            m == m_mat.nrows,
            n == m_mat.ncols,
            limit == u32::MAX,
            m + n < u32::MAX,
            m + n <= usize::MAX,
            all == faces(bounds.lower@, bounds.upper@, n as int),
            n_ineq == faces(bounds.lower@, bounds.upper@, i as int).len(),
            m + n_ineq < u32::MAX,
            terms@ == equalities + face_terms(
                faces(bounds.lower@, bounds.upper@, i as int),
                m as int,
            ),
            b@ == negatives(p@) + face_bounds(faces(bounds.lower@, bounds.upper@, i as int)),
    {
        proof {
            lemma_faces_grow(bounds.lower@, bounds.upper@, i as int + 1, n as int);
        }
        let ghost next = faces(bounds.lower@, bounds.upper@, i as int + 1);
        if bounds.lower[i].is_finite() {
            if m + n_ineq + 1 >= limit {
                return Err(TheseusError::Shape(Complaint::Triplets));
            }
            terms.push(((m + n_ineq) as u32, (m + i) as u32, Real { bits: MINUS_ONE }));
            b.push(bounds.lower[i].neg());
            n_ineq = n_ineq + 1;
        }
        if bounds.upper[i].is_finite() {
            if m + n_ineq + 1 >= limit {
                return Err(TheseusError::Shape(Complaint::Triplets));
            }
            terms.push(((m + n_ineq) as u32, (m + i) as u32, Real { bits: ONE }));
            b.push(bounds.upper[i]);
            n_ineq = n_ineq + 1;
        }
        proof {
            assert(terms@ =~= equalities + face_terms(next, m as int));
            assert(b@ =~= negatives(p@) + face_bounds(next));
        }
    }
    proof {
        let t = constraint_terms(m_mat@, weight, all);
        assert(terms@ =~= t);
        lemma_faces_bounded(bounds.lower@, bounds.upper@, n as int);
        let left = left_terms(weight, m as nat);
        let middle = opposed(m_mat@, m as int);
        assert forall|k: int| 0 <= k < t.len() implies (#[trigger] t[k]).0 < m + n_ineq && t[k].1
            < variables by {
            if k < left.len() {
                assert(t[k] == left[k]);
                match weight {
                    Some(s) => {
                        assert(s.s@.rows[k] < s.s@.nrows);
                        lemma_has_column(s.s@, k);
                    },
                    None => {},
                }
            } else if k < left.len() + middle.len() {
                assert(t[k] == middle[k - left.len()]);
                assert(m_mat@.rows[k - left.len()] < m_mat@.nrows);
                lemma_has_column(m_mat@, k - left.len());
            } else {
                assert(t[k] == face_terms(all, m as int)[k - left.len() - middle.len()]);
                assert(0 <= all[k - left.len() - middle.len()].unknown < n);
            }
        }
    }
    let p_mat = match SparseColMatOwned::from_triplets(ar, variables, variables, &objective) {
        Ok(mat) => mat,
        Err(e) => {
            return Err(e);
        },
    };
    match SparseColMatOwned::from_triplets(ar, m + n_ineq, variables, &terms) {
        Ok(a) => Ok(
            QuadraticProgram { p: p_mat, a, b, cones: Cones { zero: m, nonnegative: n_ineq } },
        ),
        Err(e) => Err(e),
    }
}

/// How the solver is to work at the first and at the second attempt.
pub open spec fn settings_of(max_iter: nat, tol: Real, retry: bool) -> ConicSettings {
    ConicSettings {
        max_iter: if max_iter == 0 {
            1
        } else if max_iter > u32::MAX {
            u32::MAX
        } else {
            max_iter as u32
        },
        tolerance: tol.larger(Real { bits: CONIC_TOL }),
        presolve: !retry,
        min_scaling: Real {
            bits: if retry {
                WIDE_MIN_SCALING
            } else {
                MIN_SCALING
            },
        },
        max_scaling: Real {
            bits: if retry {
                WIDE_MAX_SCALING
            } else {
                MAX_SCALING
            },
        },
    }
}

/// How the solver is to work.
pub fn conic_settings(max_iter: usize, tol: Real, retry: bool) -> (r: ConicSettings)
    ensures
        r == settings_of(max_iter as nat, tol, retry),
{
    let steps: u32 = if max_iter == 0 {
        1
    } else if max_iter > u32::MAX as usize {
        u32::MAX
    } else {
        max_iter as u32
    };
    ConicSettings {
        max_iter: steps,
        tolerance: tol.max(Real { bits: CONIC_TOL }),
        presolve: !retry,
        min_scaling: Real {
            bits: if retry {
                WIDE_MIN_SCALING
            } else {
                MIN_SCALING
            },
        },
        max_scaling: Real {
            bits: if retry {
                WIDE_MAX_SCALING
            } else {
                MAX_SCALING
            },
        },
    }
}

/// Whether a first attempt that ended so is repeated with other settings.
pub open spec fn retried(status: SolverStatus) -> bool {
    status == SolverStatus::PrimalInfeasible || status == SolverStatus::MaxIterations
}

/// Whether `last` can be the attempt that counts.
pub open spec fn attempted<B: Backend>(
    b: B,
    qp: QuadraticProgram,
    max_iter: nat,
    tol: Real,
    last: Result<ConicAttempt, TheseusError>,
) -> bool {
    exists|first: Result<ConicAttempt, TheseusError>|
        {
            &&& #[trigger] call_ensures(
                B::quadratic_program,
                (&b, &qp, settings_of(max_iter, tol, false)),
                first,
            )
            &&& if first is Ok && retried(first->Ok_0.status) {
                call_ensures(
                    B::quadratic_program,
                    (&b, &qp, settings_of(max_iter, tol, true)),
                    last,
                )
            } else {
                last == first
            }
        }
}

/// What is reported of an attempt.
pub open spec fn report_of(attempt: ConicAttempt, qp: QuadraticProgram) -> ConicReport {
    ConicReport {
        status: attempt.status,
        iterations: attempt.iterations,
        primal_residual: attempt.primal_residual,
        dual_residual: attempt.dual_residual,
        solve_time: attempt.solve_time,
        variables: qp.p.ncols,
        p_nnz: qp.p@.nnz() as usize,
        a_rows: qp.a.nrows,
        a_cols: qp.a.ncols,
        a_nnz: qp.a@.nnz() as usize,
    }
}

/// `S e + (p - M q)`.
pub open spec fn equality_residual<A: Arithmetic, B: Backend>(
    ar: A,
    m: Csc,
    p: Seq<Real>,
    weight: Option<&MetricWeight<B>>,
    e: Seq<Real>,
    q: Seq<Real>,
) -> Seq<Real> {
    let left = match weight {
        Some(w) => w.s@.applied(ar, e),
        None => e,
    };
    Seq::new(
        m.nrows,
        |i: int| sum_of(ar, left[i], difference_of(ar, p[i], m.applied(ar, q)[i])),
    )
}

/// The residual of the equalities on the scale of the loads.
pub open spec fn equality_error<A: Arithmetic, B: Backend>(
    ar: A,
    m: Csc,
    p: Seq<Real>,
    weight: Option<&MetricWeight<B>>,
    e: Seq<Real>,
    q: Seq<Real>,
) -> Real {
    quotient_of(
        ar,
        norm_of(ar, equality_residual(ar, m, p, weight, e, q)),
        sum_of(ar, Real { bits: ONE }, norm_of(ar, p)),
    )
}

/// How far the first `k` unknowns lie outside the box at most.
pub open spec fn box_violation<A: Arithmetic>(ar: A, bounds: BoxBounds, q: Seq<Real>, k: int) -> Real
    decreases k,
{
    let zero = Real { bits: ZERO };
    if k <= 0 {
        zero
    } else {
        let before = box_violation(ar, bounds, q, k - 1);
        let below = before.larger(difference_of(ar, bounds.lower@[k - 1], q[k - 1]).larger(zero));
        below.larger(difference_of(ar, q[k - 1], bounds.upper@[k - 1]).larger(zero))
    }
}

/// Whether the errors of a solution are beyond what is allowed.
pub open spec fn beyond(equality: Real, violation: Real, allowed: Real) -> bool {
    ||| !equality.finite()
    ||| !violation.finite()
    ||| allowed.below(equality)
    ||| allowed.below(violation)
}

/// Whether `r` is what an attempt at the program comes to: its unknowns, if it was solved
/// and they satisfy the program.
pub open spec fn conic_answer<A: Arithmetic, B: Backend>(
    ar: A,
    qp: QuadraticProgram,
    m: Csc,
    p: Seq<Real>,
    bounds: BoxBounds,
    weight: Option<&MetricWeight<B>>,
    tol: Real,
    geometric_step: bool,
    attempt: ConicAttempt,
    r: Result<Vec<Real>, TheseusError>,
) -> bool {
    if attempt.status != SolverStatus::Solved && attempt.status != SolverStatus::AlmostSolved {
        r == Err::<Vec<Real>, _>(
            TheseusError::Solver(
                Complaint::ConicFailed {
                    numerical: geometric_step && attempt.status == SolverStatus::PrimalInfeasible,
                    report: report_of(attempt, qp),
                },
            ),
        )
    } else if attempt.x@.len() != m.nrows + m.ncols {
        r == Err::<Vec<Real>, _>(
            TheseusError::Shape(
                Complaint::BackendSize {
                    found: attempt.x@.len() as usize,
                    expected: (m.nrows + m.ncols) as usize,
                },
            ),
        )
    } else {
        let e = attempt.x@.subrange(0, m.nrows as int);
        let q = attempt.x@.subrange(m.nrows as int, (m.nrows + m.ncols) as int);
        let allowed = product_of(ar, Real { bits: HUNDRED }, tol.larger(Real { bits: CONIC_TOL }));
        let equality = equality_error(ar, m, p, weight, e, q);
        let violation = box_violation(ar, bounds, q, m.ncols as int);
        match r {
            Ok(x) => {
                &&& x@ == q
                &&& functional(ar) ==> !beyond(equality, violation, allowed)
            },
            Err(
                TheseusError::Solver(
                    Complaint::ConicInaccurate {
                        equality: ee,
                        violation: vv,
                        allowed: aa,
                        report,
                    },
                ),
            ) => {
                &&& beyond(ee, vv, aa)
                &&& report == report_of(attempt, qp)
                &&& functional(ar) ==> ee == equality && vv == violation && aa == allowed
            },
            Err(_) => false,
        }
    }
}

/// The unknowns of an attempt at the program, if it was solved and they satisfy it.
pub fn accept_attempt<A: Arithmetic, B: Backend>(
    ar: &A,
    qp: &QuadraticProgram,
    m_mat: &SparseColMatOwned,
    p: &Vec<Real>,
    bounds: &BoxBounds,
    weight: Option<&MetricWeight<B>>,
    tol: Real,
    geometric_step: bool,
    attempt: &ConicAttempt,
) -> (r: Result<Vec<Real>, TheseusError>)
    requires
        m_mat.wf(),
        m_mat.nrows + m_mat.ncols <= usize::MAX,
        p@.len() == m_mat.nrows,
        bounds.lower@.len() == m_mat.ncols,
        bounds.upper@.len() == m_mat.ncols,
        weight matches Some(s) ==> s.wf() && s.n_eq == m_mat.nrows,
    ensures
        conic_answer(
            *ar,
            *qp,
            m_mat@,
            p@,
            *bounds,
            weight,
            tol,
            geometric_step,
            *attempt,
            r,
        ),
{
    let m: usize = m_mat.nrows;
    let n: usize = m_mat.ncols;
    let report = ConicReport {
        status: attempt.status,
        iterations: attempt.iterations,
        primal_residual: attempt.primal_residual,
        dual_residual: attempt.dual_residual,
        solve_time: attempt.solve_time,
        variables: qp.p.ncols,
        p_nnz: qp.p.nnz(),
        a_rows: qp.a.nrows,
        a_cols: qp.a.ncols,
        a_nnz: qp.a.nnz(),
    };
    if attempt.status != SolverStatus::Solved && attempt.status != SolverStatus::AlmostSolved {
        let numerical = geometric_step && attempt.status == SolverStatus::PrimalInfeasible;
        return Err(TheseusError::Solver(Complaint::ConicFailed { numerical, report }));
    }
    if attempt.x.len() != m + n {
        return Err(
            TheseusError::Shape(
                Complaint::BackendSize { found: attempt.x.len(), expected: m + n },
            ),
        );
    }
    let e = slice(&attempt.x, 0, m);
    let q = slice(&attempt.x, m, m + n);
    let left = match weight {
        Some(s) => s.s.matvec(ar, &e),
        None => e.clone(),
    };
    let mq = m_mat.matvec(ar, &q);
    let mut equality: Vec<Real> = Vec::new();
    for i in 0..m
        invariant
            m == p@.len(),
            m == left@.len(),
            m == mq@.len(),
            equality@.len() == i,
            functional(*ar) ==> forall|k: int|
                0 <= k < i ==> #[trigger] equality@[k] == sum_of(
                    *ar,
                    left@[k],
                    difference_of(*ar, p@[k], mq@[k]),
                ),
    {
        let missing = minus(ar, p[i], mq[i]);
        equality.push(plus(ar, left[i], missing));
    }
    proof {
        if functional(*ar) {
            assert(equality@ =~= equality_residual(*ar, m_mat@, p@, weight, e@, q@));
        }
    }
    let p_norm = norm(ar, p);
    let scale = plus(ar, Real { bits: ONE }, p_norm);
    let size = norm(ar, &equality);
    let error = over(ar, size, scale);
    let mut violation = Real { bits: ZERO };
    for i in 0..n
        invariant
            bounds.lower@.len() == n,
            bounds.upper@.len() == n,
            q@.len() == n,
            functional(*ar) ==> violation == box_violation(*ar, *bounds, q@, i as int),
    {
        let below = minus(ar, bounds.lower[i], q[i]).max(Real { bits: ZERO });
        violation = violation.max(below);
        let above = minus(ar, q[i], bounds.upper[i]).max(Real { bits: ZERO });
        violation = violation.max(above);
    }
    let allowed = times(ar, Real { bits: HUNDRED }, tol.max(Real { bits: CONIC_TOL }));
    if !error.is_finite() || !violation.is_finite() || error.gt(allowed) || violation.gt(allowed) {
        return Err(
            TheseusError::Solver(
                Complaint::ConicInaccurate { equality: error, violation, allowed, report },
            ),
        );
    }
    Ok(q)
}

/// Whether a conic solve can answer `r`.
pub open spec fn conic_solved<A: Arithmetic, B: Backend>(
    ar: A,
    b: B,
    m: Csc,
    p: Seq<Real>,
    w: Real,
    bounds: BoxBounds,
    weight: Option<&MetricWeight<B>>,
    max_iter: nat,
    tol: Real,
    geometric_step: bool,
    r: Result<Vec<Real>, TheseusError>,
) -> bool {
    if !program_indexable(m, weight, faces(bounds.lower@, bounds.upper@, m.ncols as int)) {
        r == Err::<Vec<Real>, _>(TheseusError::Shape(Complaint::Triplets))
    } else {
        exists|qp: QuadraticProgram, last: Result<ConicAttempt, TheseusError>|
            {
                &&& states(qp, ar, m, p, w, bounds, weight)
                &&& #[trigger] attempted(b, qp, max_iter, tol, last)
                &&& match last {
                    Err(e) => r == Err::<Vec<Real>, _>(e),
                    Ok(attempt) => conic_answer(
                        ar,
                        qp,
                        m,
                        p,
                        bounds,
                        weight,
                        tol,
                        geometric_step,
                        attempt,
                        r,
                    ),
                }
            }
    }
}

/// Solves `min 1/2 |S^-1 (M q - p)|^2 + 1/2 w |q|^2` with `q` in the box.
///
/// A solver that finds nothing feasible, or runs out of iterations, gets a second attempt
/// without presolve and with wider scaling.
pub fn solve_clarabel_once<A: Arithmetic, B: Backend>(
    ar: &A,
    b: &B,
    m_mat: &SparseColMatOwned,
    p: &Vec<Real>,
    w: Real,
    bounds: &BoxBounds,
    weight: Option<&MetricWeight<B>>,
    max_iter: usize,
    tol: Real,
    geometric_step: bool,
) -> (r: Result<Vec<Real>, TheseusError>)
    requires
        m_mat.wf(),
        p@.len() == m_mat.nrows,
        bounds.lower@.len() == m_mat.ncols,
        bounds.upper@.len() == m_mat.ncols,
        weight matches Some(s) ==> s.wf() && s.n_eq == m_mat.nrows,
    ensures
        conic_solved(
            *ar,
            *b,
            m_mat@,
            p@,
            w,
            *bounds,
            weight,
            max_iter as nat,
            tol,
            geometric_step,
            r,
        ),
        r matches Ok(x) ==> x@.len() == m_mat.ncols,
{
    let qp = match build_program(ar, m_mat, p, w, bounds, weight) {
        Ok(qp) => qp,
        Err(e) => {
            return Err(e);
        },
    };
    let mut reply = b.quadratic_program(&qp, conic_settings(max_iter, tol, false));
    let ghost first = reply;
    assert(call_ensures(
        B::quadratic_program,
        (b, &qp, settings_of(max_iter as nat, tol, false)),
        first,
    ));
    let again = match &reply {
        Ok(attempt) => attempt.status == SolverStatus::PrimalInfeasible || attempt.status
            == SolverStatus::MaxIterations,
        Err(_) => false,
    };
    if again {
        reply = b.quadratic_program(&qp, conic_settings(max_iter, tol, true));
    }
    let ghost last = reply;
    assert(attempted(*b, qp, max_iter as nat, tol, last));
    match reply {
        Err(e) => Err(e),
        Ok(attempt) => accept_attempt(
            ar,
            &qp,
            m_mat,
            p,
            bounds,
            weight,
            tol,
            geometric_step,
            &attempt,
        ),
    }
}

} // verus!
