//! Backends that answer the same question in the same way, and the solvers that rest on
//! them: what they answer is then unique.

use crate::arithmetic::{functional, Arithmetic};
use crate::array::{Array2, Grid};
use crate::backend::{
    factored_and_solved, Backend, ConicAttempt, ConicSettings, QrFactor, QuadraticProgram,
};
use crate::bounds::BoxBounds;
use crate::conic::{
    attempted, box_violation, conic_answer, conic_solved, constraint_terms, equality_residual,
    faces, program_indexable, states,
};
use crate::direct::{
    cached_solve, factors_attempted, gram_indexable, gram_matrix, gram_outcome, gram_solved,
    middle_answer, saddle_outcome, saddle_system, solved_with, weighted_indexable,
};
use crate::double::{Real, EPSILON, ZERO};
use crate::error::TheseusError;
use crate::inner::{
    direct_solution, inner_outcome, sized_solution, InnerSolution, InnerSolver, LSQR_TOL,
};
use crate::lsqr::{
    left_raw, lsqr_limit, lsqr_start, normalized, right_raw, rotated, Bidiagonal, LsqrProgress,
    LsqrResult, LsqrTolerances,
};
use crate::options::{InnerKind, InverseFdmOptions};
use crate::qr::{factor_answer, pivot_from, pivots_of, qr_outcome, rank_verdict};
use crate::saddle::{extended, saddle_answer, saddle_indexable, saddle_matrix, saddle_solved};
use crate::sparse::{Csc, SparseColMatOwned};
use crate::spg::{
    gradient_from, projected, spectral_step, spg_ends, spg_limit, spg_outcome, spg_start, spg_step,
    spg_upto, weighed_twice, weighted_spg, weighted_spg_reaches, weighted_spg_step, SpgBoxResult,
    SpgState,
};
use crate::types::{FactorizationStrategy, Problem};
use crate::vector::{divided, less, moved, norm_of};
use crate::weight::{
    axis_columns, inverse_answer, inverse_applied, passes, unweighable, MetricWeight,
};
use crate::weighted_lsqr::{
    damping_of, damping_rows, ended, image_back, image_under, least_squares_outcome, nothing_to_do,
    weighted_half_step, weighted_outcome, weighted_reaches, weighted_run, weighted_step,
};
use vstd::prelude::*;

verus! {

/// Whether two replies are the same, or both errors.
pub open spec fn same_reply<T>(r: Result<T, TheseusError>, s: Result<T, TheseusError>) -> bool {
    match (r, s) {
        (Ok(x), Ok(y)) => x == y,
        (Err(_), Err(_)) => true,
        _ => false,
    }
}

/// Whether two replies hold the same numbers, or both are errors.
pub open spec fn alike(
    r: Result<Vec<Real>, TheseusError>,
    s: Result<Vec<Real>, TheseusError>,
) -> bool {
    match (r, s) {
        (Ok(x), Ok(y)) => x@ == y@,
        (Err(_), Err(_)) => true,
        _ => false,
    }
}

/// Whether two replies hold the same grid, or both are errors.
pub open spec fn alike_grids(
    r: Result<Array2, TheseusError>,
    s: Result<Array2, TheseusError>,
) -> bool {
    match (r, s) {
        (Ok(x), Ok(y)) => x@ == y@,
        (Err(_), Err(_)) => true,
        _ => false,
    }
}

/// Whether two QR factors have the same storage.
pub open spec fn same_factor(f: QrFactor, g: QrFactor) -> bool {
    f.indices@ == g.indices@ && f.values@ == g.values@
}

/// Whether two replies hold the same QR factor, or both are errors.
pub open spec fn alike_factors(
    r: Result<QrFactor, TheseusError>,
    s: Result<QrFactor, TheseusError>,
) -> bool {
    match (r, s) {
        (Ok(x), Ok(y)) => same_factor(x, y),
        (Err(_), Err(_)) => true,
        _ => false,
    }
}

/// Whether two quadratic programs are the same.
pub open spec fn same_program(p: QuadraticProgram, q: QuadraticProgram) -> bool {
    p.p@ == q.p@ && p.a@ == q.a@ && p.b@ == q.b@ && p.cones == q.cones
}

/// Whether two attempts ended in the same way at the same numbers, or both are errors.
pub open spec fn alike_attempts(
    r: Result<ConicAttempt, TheseusError>,
    s: Result<ConicAttempt, TheseusError>,
) -> bool {
    match (r, s) {
        (Ok(x), Ok(y)) => x.status == y.status && x.x@ == y.x@,
        (Err(_), Err(_)) => true,
        _ => false,
    }
}

/// Whether a backend always factors the same matrix in the same way.
pub open spec fn steady_factors<B: Backend>(b: B) -> bool {
    &&& forall|
        m: SparseColMatOwned,
        n: SparseColMatOwned,
        strategy: FactorizationStrategy,
        f: Result<B::Factor, TheseusError>,
        g: Result<B::Factor, TheseusError>,
    |
        m@ == n@ && #[trigger] call_ensures(B::factor, (&b, &m, strategy), f)
            && #[trigger] call_ensures(B::factor, (&b, &n, strategy), g) ==> same_reply(f, g)
    &&& forall|
        held: B::Factor,
        m: SparseColMatOwned,
        n: SparseColMatOwned,
        f: Result<B::Factor, TheseusError>,
        g: Result<B::Factor, TheseusError>,
    |
        m@ == n@ && #[trigger] call_ensures(B::refactor, (&b, held, &m), f)
            && #[trigger] call_ensures(B::refactor, (&b, held, &n), g) ==> same_reply(f, g)
}

/// Whether a backend always solves for the same numbers with the same answer.
pub open spec fn steady_solves<B: Backend>(b: B) -> bool {
    &&& forall|
        factor: B::Factor,
        u: Vec<Real>,
        v: Vec<Real>,
        r: Result<Vec<Real>, TheseusError>,
        s: Result<Vec<Real>, TheseusError>,
    |
        u@ == v@ && #[trigger] call_ensures(B::solve, (&b, &factor, &u), r)
            && #[trigger] call_ensures(B::solve, (&b, &factor, &v), s) ==> alike(r, s)
    &&& forall|
        factor: B::Factor,
        u: Array2,
        v: Array2,
        r: Result<Array2, TheseusError>,
        s: Result<Array2, TheseusError>,
    |
        u@ == v@ && #[trigger] call_ensures(B::solve_columns, (&b, &factor, &u), r)
            && #[trigger] call_ensures(B::solve_columns, (&b, &factor, &v), s) ==> alike_grids(r, s)
}

/// Whether a backend always gives the same QR factorization of the same matrix, and solves
/// by it with the same answer.
pub open spec fn steady_qr<B: Backend>(b: B) -> bool {
    &&& forall|
        m: SparseColMatOwned,
        n: SparseColMatOwned,
        simplicial: bool,
        f: Result<B::Symbolic, TheseusError>,
        g: Result<B::Symbolic, TheseusError>,
    |
        m@ == n@ && #[trigger] call_ensures(B::analyze_qr, (&b, &m, simplicial), f)
            && #[trigger] call_ensures(B::analyze_qr, (&b, &n, simplicial), g) ==> same_reply(f, g)
    &&& forall|
        symbolic: B::Symbolic,
        m: SparseColMatOwned,
        n: SparseColMatOwned,
        f: Result<QrFactor, TheseusError>,
        g: Result<QrFactor, TheseusError>,
    |
        m@ == n@ && #[trigger] call_ensures(B::factor_qr, (&b, &symbolic, &m), f)
            && #[trigger] call_ensures(B::factor_qr, (&b, &symbolic, &n), g) ==> alike_factors(f, g)
    &&& forall|
        symbolic: B::Symbolic,
        f: QrFactor,
        g: QrFactor,
        u: Array2,
        v: Array2,
        r: Result<Array2, TheseusError>,
        s: Result<Array2, TheseusError>,
    |
        same_factor(f, g) && u@ == v@ && #[trigger] call_ensures(
            B::solve_qr,
            (&b, &symbolic, &f, &u),
            r,
        ) && #[trigger] call_ensures(B::solve_qr, (&b, &symbolic, &g, &v), s) ==> alike_grids(r, s)
}

/// Whether a backend always answers the same quadratic program in the same way.
pub open spec fn steady_programs<B: Backend>(b: B) -> bool {
    forall|
        p: QuadraticProgram,
        q: QuadraticProgram,
        settings: ConicSettings,
        r: Result<ConicAttempt, TheseusError>,
        s: Result<ConicAttempt, TheseusError>,
    |
        same_program(p, q) && #[trigger] call_ensures(B::quadratic_program, (&b, &p, settings), r)
            && #[trigger] call_ensures(B::quadratic_program, (&b, &q, settings), s)
            ==> alike_attempts(r, s)
}

/// Whether a backend answers the same question always in the same way, as far as a solve
/// can tell: errors may differ, and so may the time that a solver took.
pub open spec fn steady<B: Backend>(b: B) -> bool {
    steady_factors(b) && steady_solves(b) && steady_qr(b) && steady_programs(b)
}

/// Whether two geometric weights are the same.
pub open spec fn same_weight<B: Backend>(v: MetricWeight<B>, w: MetricWeight<B>) -> bool {
    &&& v.s@ == w.s@
    &&& v.d@ == w.d@
    &&& v.d_factor == w.d_factor
    &&& v.n_free == w.n_free
    &&& v.n_eq == w.n_eq
}

/// Whether two solves have the same geometric weight, or none.
pub open spec fn same_weights<B: Backend>(
    v: Option<&MetricWeight<B>>,
    w: Option<&MetricWeight<B>>,
) -> bool {
    match (v, w) {
        (Some(x), Some(y)) => same_weight(*x, *y),
        (None, None) => true,
        _ => false,
    }
}

/// Whether two boxes have the same bounds.
pub open spec fn same_box(a: BoxBounds, b: BoxBounds) -> bool {
    a.lower@ == b.lower@ && a.upper@ == b.upper@
}

proof fn lemma_factored_and_solved<B: Backend>(
    b: B,
    g: Csc,
    strategy: FactorizationStrategy,
    rhs: Seq<Real>,
    r: Result<Vec<Real>, TheseusError>,
    s: Result<Vec<Real>, TheseusError>,
)
    requires
        steady(b),
        factored_and_solved(b, g, strategy, rhs, r),
        factored_and_solved(b, g, strategy, rhs, s),
    ensures
        alike(r, s),
{
}

pub(crate) proof fn lemma_gram_solved<B: Backend>(
    b: B,
    g: Csc,
    rhs: Seq<Real>,
    w: Real,
    r: Result<Vec<Real>, TheseusError>,
    s: Result<Vec<Real>, TheseusError>,
)
    requires
        steady(b),
        gram_solved(b, g, rhs, w, r),
        gram_solved(b, g, rhs, w, s),
    ensures
        alike(r, s),
{
    let x = choose|x: Result<Vec<Real>, TheseusError>|
        {
            &&& #[trigger] factored_and_solved(b, g, FactorizationStrategy::LDL, rhs, x)
            &&& x is Ok <==> r is Ok
            &&& x is Ok ==> x == r
        };
    let y = choose|y: Result<Vec<Real>, TheseusError>|
        {
            &&& #[trigger] factored_and_solved(b, g, FactorizationStrategy::LDL, rhs, y)
            &&& y is Ok <==> s is Ok
            &&& y is Ok ==> y == s
        };
    lemma_factored_and_solved(b, g, FactorizationStrategy::LDL, rhs, x, y);
}

proof fn lemma_solved_with<B: Backend>(
    b: B,
    factor: B::Factor,
    rhs: Seq<Real>,
    w: Real,
    r: Result<Vec<Real>, TheseusError>,
    s: Result<Vec<Real>, TheseusError>,
)
    requires
        steady(b),
        solved_with(b, factor, rhs, w, r),
        solved_with(b, factor, rhs, w, s),
    ensures
        alike(r, s),
{
}

proof fn lemma_factors_attempted<B: Backend>(
    b: B,
    g: Csc,
    held: Option<B::Factor>,
    f1: Result<B::Factor, TheseusError>,
    l1: Result<B::Factor, TheseusError>,
    f2: Result<B::Factor, TheseusError>,
    l2: Result<B::Factor, TheseusError>,
)
    requires
        steady(b),
        factors_attempted(b, g, held, f1, l1),
        factors_attempted(b, g, held, f2, l2),
    ensures
        same_reply(f1, f2),
        same_reply(l1, l2),
{
}

proof fn lemma_cached_solve<B: Backend>(
    b: B,
    g: Csc,
    rhs: Seq<Real>,
    w: Real,
    before: Option<B::Factor>,
    after1: Option<B::Factor>,
    after2: Option<B::Factor>,
    r: Result<Vec<Real>, TheseusError>,
    s: Result<Vec<Real>, TheseusError>,
)
    requires
        steady(b),
        cached_solve(b, g, rhs, w, before, after1, r),
        cached_solve(b, g, rhs, w, before, after2, s),
    ensures
        alike(r, s),
        after1 == after2,
{
    let (f1, l1) = choose|f: Result<B::Factor, TheseusError>, l: Result<B::Factor, TheseusError>|
        {
            &&& #[trigger] factors_attempted(b, g, before, f, l)
            &&& f is Ok ==> l is Ok
            &&& l is Err ==> after1 is None && r is Err
            &&& l is Ok ==> solved_with(b, l->Ok_0, rhs, w, r) && after1 == if r is Ok {
                Some(l->Ok_0)
            } else {
                None
            }
        };
    let (f2, l2) = choose|f: Result<B::Factor, TheseusError>, l: Result<B::Factor, TheseusError>|
        {
            &&& #[trigger] factors_attempted(b, g, before, f, l)
            &&& f is Ok ==> l is Ok
            &&& l is Err ==> after2 is None && s is Err
            &&& l is Ok ==> solved_with(b, l->Ok_0, rhs, w, s) && after2 == if s is Ok {
                Some(l->Ok_0)
            } else {
                None
            }
        };
    lemma_factors_attempted(b, g, before, f1, l1, f2, l2);
    if l1 is Ok {
        lemma_solved_with(b, l1->Ok_0, rhs, w, r, s);
    }
}

proof fn lemma_gram_outcome<A: Arithmetic, B: Backend>(
    ar: A,
    b: B,
    m: Csc,
    p: Seq<Real>,
    w: Real,
    before: Option<B::Factor>,
    after1: Option<B::Factor>,
    after2: Option<B::Factor>,
    r: Result<Vec<Real>, TheseusError>,
    s: Result<Vec<Real>, TheseusError>,
)
    requires
        steady(b),
        gram_outcome(ar, b, m, p, w, before, after1, r),
        gram_outcome(ar, b, m, p, w, before, after2, s),
    ensures
        alike(r, s),
        after1 == after2,
{
    if gram_indexable(ar, m, w) {
        lemma_cached_solve(
            b,
            gram_matrix(ar, m, w),
            m.transposed().applied(ar, p),
            w,
            before,
            after1,
            after2,
            r,
            s,
        );
    }
}

proof fn lemma_saddle_solved<A: Arithmetic, B: Backend>(
    ar: A,
    b: B,
    m: Csc,
    p: Seq<Real>,
    w: Real,
    r: Result<Vec<Real>, TheseusError>,
    s: Result<Vec<Real>, TheseusError>,
)
    requires
        functional(ar),
        steady(b),
        saddle_solved(ar, b, m, p, w, r),
        saddle_solved(ar, b, m, p, w, s),
    ensures
        alike(r, s),
{
    let k = saddle_matrix(ar, m, w);
    let rhs = extended(p, m.ncols);
    let x = choose|x: Result<Vec<Real>, TheseusError>|
        {
            &&& #[trigger] factored_and_solved(b, k, FactorizationStrategy::LDL, rhs, x)
            &&& saddle_answer(x, m.nrows, m.ncols, w, r)
        };
    let y = choose|y: Result<Vec<Real>, TheseusError>|
        {
            &&& #[trigger] factored_and_solved(b, k, FactorizationStrategy::LDL, rhs, y)
            &&& saddle_answer(y, m.nrows, m.ncols, w, s)
        };
    lemma_factored_and_solved(b, k, FactorizationStrategy::LDL, rhs, x, y);
}

proof fn lemma_saddle_outcome<A: Arithmetic, B: Backend>(
    ar: A,
    b: B,
    m: Csc,
    p: Seq<Real>,
    w: Real,
    weight1: Option<&MetricWeight<B>>,
    weight2: Option<&MetricWeight<B>>,
    before: Option<B::Factor>,
    after1: Option<B::Factor>,
    after2: Option<B::Factor>,
    r: Result<Vec<Real>, TheseusError>,
    s: Result<Vec<Real>, TheseusError>,
)
    requires
        functional(ar),
        steady(b),
        same_weights(weight1, weight2),
        saddle_outcome(ar, b, m, p, w, weight1, before, after1, r),
        saddle_outcome(ar, b, m, p, w, weight2, before, after2, s),
    ensures
        alike(r, s),
        after1 == after2,
{
    let indexable = match weight1 {
        Some(x) => weighted_indexable(m, x.s@),
        None => saddle_indexable(m),
    };
    if indexable {
        if weight1 is None && w.level(Real { bits: ZERO }) {
            lemma_saddle_solved(ar, b, m, p, w, r, s);
        } else {
            let (k, rhs) = saddle_system(ar, m, p, w, weight1);
            assert(saddle_system(ar, m, p, w, weight2) == (k, rhs));
            let x = choose|x: Result<Vec<Real>, TheseusError>|
                {
                    &&& #[trigger] cached_solve(b, k, rhs, w, before, after1, x)
                    &&& middle_answer(x, m.nrows, m.ncols, r)
                };
            let y = choose|y: Result<Vec<Real>, TheseusError>|
                {
                    &&& #[trigger] cached_solve(b, k, rhs, w, before, after2, y)
                    &&& middle_answer(y, m.nrows, m.ncols, s)
                };
            lemma_cached_solve(b, k, rhs, w, before, after1, after2, x, y);
        }
    }
}

proof fn lemma_pivot(f: QrFactor, g: QrFactor, n: int, col: int, from: int, end: int)
    requires
        same_factor(f, g),
    ensures
        pivot_from(f, n, col, from, end) == pivot_from(g, n, col, from, end),
    decreases end - from,
{
    if from < end {
        lemma_pivot(f, g, n, col, from + 1, end);
    }
}

proof fn lemma_rank_verdict<A: Arithmetic>(
    ar: A,
    f: QrFactor,
    g: QrFactor,
    n: nat,
    nrows: nat,
    r: Result<(), TheseusError>,
    s: Result<(), TheseusError>,
)
    requires
        functional(ar),
        same_factor(f, g),
        rank_verdict(ar, f, n, nrows, r),
        rank_verdict(ar, g, n, nrows, s),
    ensures
        r is Ok <==> s is Ok,
{
    assert forall|col: int| 0 <= col < n implies #[trigger] pivots_of(f, n)[col] == pivots_of(
        g,
        n,
    )[col] by {
        lemma_pivot(f, g, n as int, col, f.indices@[col] as int, f.indices@[col + 1] as int);
    }
    assert(pivots_of(f, n) =~= pivots_of(g, n));
}

proof fn lemma_factor_answer<A: Arithmetic, B: Backend>(
    ar: A,
    b: B,
    m: SparseColMatOwned,
    n: SparseColMatOwned,
    p: Seq<Real>,
    rank_checked: bool,
    symbolic: B::Symbolic,
    f: QrFactor,
    g: QrFactor,
    r: Result<Vec<Real>, TheseusError>,
    s: Result<Vec<Real>, TheseusError>,
)
    requires
        functional(ar),
        steady(b),
        m@ == n@,
        same_factor(f, g),
        factor_answer(ar, b, m, p, rank_checked, symbolic, f, r),
        factor_answer(ar, b, n, p, rank_checked, symbolic, g, s),
    ensures
        alike(r, s),
{
    assert(m.nrows == n.nrows && m.ncols == n.ncols) by {
        assert(m@.nrows == n@.nrows && m@.ncols == n@.ncols);
    }
    assert forall|v: Result<(), TheseusError>, w: Result<(), TheseusError>|
        #[trigger] rank_verdict(ar, f, m.ncols as nat, m.nrows as nat, v) && #[trigger] rank_verdict(
            ar,
            g,
            m.ncols as nat,
            m.nrows as nat,
            w,
        ) implies (v is Ok <==> w is Ok) by {
        lemma_rank_verdict(ar, f, g, m.ncols as nat, m.nrows as nat, v, w);
    }
}

proof fn lemma_qr_outcome<A: Arithmetic, B: Backend>(
    ar: A,
    b: B,
    m: SparseColMatOwned,
    n: SparseColMatOwned,
    p: Seq<Real>,
    rank_checked: bool,
    before: Option<B::Symbolic>,
    after1: Option<B::Symbolic>,
    after2: Option<B::Symbolic>,
    r: Result<Vec<Real>, TheseusError>,
    s: Result<Vec<Real>, TheseusError>,
)
    requires
        functional(ar),
        steady(b),
        m@ == n@,
        qr_outcome(ar, b, m, p, rank_checked, before, after1, r),
        qr_outcome(ar, b, n, p, rank_checked, before, after2, s),
    ensures
        alike(r, s),
        after1 == after2,
{
    assert(m.nrows == n.nrows && m.ncols == n.ncols) by {
        assert(m@.nrows == n@.nrows && m@.ncols == n@.ncols);
    }
    if m.nrows >= m.ncols {
        assert(after1 is Some <==> after2 is Some);
        assert(after1 == after2);
        if after1 is Some {
            let symbolic = after1->0;
            let f = choose|f: Result<QrFactor, TheseusError>|
                {
                    &&& #[trigger] call_ensures(B::factor_qr, (&b, &symbolic, &m), f)
                    &&& f is Err ==> r is Err
                    &&& f is Ok ==> factor_answer(
                        ar,
                        b,
                        m,
                        p,
                        rank_checked,
                        symbolic,
                        f->Ok_0,
                        r,
                    )
                };
            let g = choose|g: Result<QrFactor, TheseusError>|
                {
                    &&& #[trigger] call_ensures(B::factor_qr, (&b, &symbolic, &n), g)
                    &&& g is Err ==> s is Err
                    &&& g is Ok ==> factor_answer(
                        ar,
                        b,
                        n,
                        p,
                        rank_checked,
                        symbolic,
                        g->Ok_0,
                        s,
                    )
                };
            assert(alike_factors(f, g));
            if f is Ok {
                lemma_factor_answer(
                    ar,
                    b,
                    m,
                    n,
                    p,
                    rank_checked,
                    symbolic,
                    f->Ok_0,
                    g->Ok_0,
                    r,
                    s,
                );
            }
        }
    }
}

proof fn lemma_box_violation<A: Arithmetic>(ar: A, x: BoxBounds, y: BoxBounds, q: Seq<Real>, k: int)
    requires
        same_box(x, y),
    ensures
        box_violation(ar, x, q, k) == box_violation(ar, y, q, k),
    decreases k,
{
    if k > 0 {
        lemma_box_violation(ar, x, y, q, k - 1);
    }
}

proof fn lemma_conic_answer<A: Arithmetic, B: Backend>(
    ar: A,
    qp1: QuadraticProgram,
    qp2: QuadraticProgram,
    m: Csc,
    p: Seq<Real>,
    x: BoxBounds,
    y: BoxBounds,
    weight1: Option<&MetricWeight<B>>,
    weight2: Option<&MetricWeight<B>>,
    tol: Real,
    geometric_step: bool,
    a1: ConicAttempt,
    a2: ConicAttempt,
    r: Result<Vec<Real>, TheseusError>,
    s: Result<Vec<Real>, TheseusError>,
)
    requires
        functional(ar),
        same_box(x, y),
        same_weights(weight1, weight2),
        a1.status == a2.status,
        a1.x@ == a2.x@,
        conic_answer(ar, qp1, m, p, x, weight1, tol, geometric_step, a1, r),
        conic_answer(ar, qp2, m, p, y, weight2, tol, geometric_step, a2, s),
    ensures
        alike(r, s),
{
    let e = a1.x@.subrange(0, m.nrows as int);
    let q = a1.x@.subrange(m.nrows as int, (m.nrows + m.ncols) as int);
    lemma_box_violation(ar, x, y, q, m.ncols as int);
    assert(equality_residual(ar, m, p, weight1, e, q) == equality_residual(
        ar,
        m,
        p,
        weight2,
        e,
        q,
    ));
}

proof fn lemma_conic_solved<A: Arithmetic, B: Backend>(
    ar: A,
    b: B,
    m: Csc,
    p: Seq<Real>,
    w: Real,
    x: BoxBounds,
    y: BoxBounds,
    weight1: Option<&MetricWeight<B>>,
    weight2: Option<&MetricWeight<B>>,
    max_iter: nat,
    tol: Real,
    geometric_step: bool,
    r: Result<Vec<Real>, TheseusError>,
    s: Result<Vec<Real>, TheseusError>,
)
    requires
        functional(ar),
        steady(b),
        same_box(x, y),
        same_weights(weight1, weight2),
        conic_solved(ar, b, m, p, w, x, weight1, max_iter, tol, geometric_step, r),
        conic_solved(ar, b, m, p, w, y, weight2, max_iter, tol, geometric_step, s),
    ensures
        alike(r, s),
{
    let f = faces(x.lower@, x.upper@, m.ncols as int);
    assert(constraint_terms(m, weight1, f) == constraint_terms(
        m,
        weight2,
        f,
    ));
    if program_indexable(m, weight1, f) {
        let (qp1, l1) = choose|qp: QuadraticProgram, last: Result<ConicAttempt, TheseusError>|
            {
                &&& states(qp, ar, m, p, w, x, weight1)
                &&& #[trigger] attempted(b, qp, max_iter, tol, last)
                &&& last is Err ==> r is Err
                &&& last is Ok ==> conic_answer(
                    ar,
                    qp,
                    m,
                    p,
                    x,
                    weight1,
                    tol,
                    geometric_step,
                    last->Ok_0,
                    r,
                )
            };
        let (qp2, l2) = choose|qp: QuadraticProgram, last: Result<ConicAttempt, TheseusError>|
            {
                &&& states(qp, ar, m, p, w, y, weight2)
                &&& #[trigger] attempted(b, qp, max_iter, tol, last)
                &&& last is Err ==> s is Err
                &&& last is Ok ==> conic_answer(
                    ar,
                    qp,
                    m,
                    p,
                    y,
                    weight2,
                    tol,
                    geometric_step,
                    last->Ok_0,
                    s,
                )
            };
        assert(same_program(qp1, qp2));
        lemma_attempted(b, qp1, qp2, max_iter, tol, l1, l2);
        if l1 is Ok {
            lemma_conic_answer(
                ar,
                qp1,
                qp2,
                m,
                p,
                x,
                y,
                weight1,
                weight2,
                tol,
                geometric_step,
                l1->Ok_0,
                l2->Ok_0,
                r,
                s,
            );
        }
    }
}

proof fn lemma_attempted<B: Backend>(
    b: B,
    p: QuadraticProgram,
    q: QuadraticProgram,
    max_iter: nat,
    tol: Real,
    r: Result<ConicAttempt, TheseusError>,
    s: Result<ConicAttempt, TheseusError>,
)
    requires
        steady(b),
        same_program(p, q),
        attempted(b, p, max_iter, tol, r),
        attempted(b, q, max_iter, tol, s),
    ensures
        alike_attempts(r, s),
{
}

proof fn lemma_inverse_answer<A: Arithmetic>(
    ar: A,
    d: Csc,
    n_free: int,
    rhs: Seq<Real>,
    x: Grid,
    r: Result<Vec<Real>, TheseusError>,
    s: Result<Vec<Real>, TheseusError>,
)
    requires
        functional(ar),
        n_free > 0,
        inverse_answer(ar, d, n_free, rhs, x, r),
        inverse_answer(ar, d, n_free, rhs, x, s),
    ensures
        alike(r, s),
{
    if r is Ok && s is Err {
        lemma_no_error_beside_an_answer(ar, d, n_free, rhs, x, r->Ok_0, s->Err_0);
    }
    if s is Ok && r is Err {
        lemma_no_error_beside_an_answer(ar, d, n_free, rhs, x, s->Ok_0, r->Err_0);
    }
}

proof fn lemma_no_error_beside_an_answer<A: Arithmetic>(
    ar: A,
    d: Csc,
    n_free: int,
    rhs: Seq<Real>,
    x: Grid,
    v: Vec<Real>,
    e: TheseusError,
)
    requires
        functional(ar),
        n_free > 0,
        inverse_answer(ar, d, n_free, rhs, x, Ok(v)),
    ensures
        !inverse_answer(ar, d, n_free, rhs, x, Err(e)),
{
    assert(passes(ar, d, x, rhs, n_free, 0));
    assert(passes(ar, d, x, rhs, n_free, 1));
    assert(passes(ar, d, x, rhs, n_free, 2));
}

pub(crate) proof fn lemma_inverse_applied<A: Arithmetic, B: Backend>(
    ar: A,
    b: B,
    v: MetricWeight<B>,
    w: MetricWeight<B>,
    rhs: Seq<Real>,
    r: Result<Vec<Real>, TheseusError>,
    s: Result<Vec<Real>, TheseusError>,
)
    requires
        functional(ar),
        steady(b),
        same_weight(v, w),
        inverse_applied(ar, b, v, rhs, r),
        inverse_applied(ar, b, w, rhs, s),
    ensures
        alike(r, s),
{
    if rhs.len() == v.n_eq && v.n_free != 0 {
        let factor = v.d_factor;
        let grid = axis_columns(rhs, v.n_free as nat);
        let (u1, x1) = choose|u: Array2, x: Result<Array2, TheseusError>|
            {
                &&& u@ == grid
                &&& #[trigger] call_ensures(B::solve_columns, (&b, &factor, &u), x)
                &&& x is Err ==> r is Err
                &&& x is Ok && (x->Ok_0@.rows != v.n_free || x->Ok_0@.cols != 3) ==> r is Err
                &&& x is Ok && x->Ok_0@.rows == v.n_free && x->Ok_0@.cols == 3 ==> inverse_answer(
                    ar,
                    v.d@,
                    v.n_free as int,
                    rhs,
                    x->Ok_0@,
                    r,
                )
            };
        let (u2, x2) = choose|u: Array2, x: Result<Array2, TheseusError>|
            {
                &&& u@ == grid
                &&& #[trigger] call_ensures(B::solve_columns, (&b, &factor, &u), x)
                &&& x is Err ==> s is Err
                &&& x is Ok && (x->Ok_0@.rows != v.n_free || x->Ok_0@.cols != 3) ==> s is Err
                &&& x is Ok && x->Ok_0@.rows == v.n_free && x->Ok_0@.cols == 3 ==> inverse_answer(
                    ar,
                    v.d@,
                    v.n_free as int,
                    rhs,
                    x->Ok_0@,
                    s,
                )
            };
        assert(alike_grids(x1, x2));
        if x1 is Ok && x1->Ok_0@.rows == v.n_free && x1->Ok_0@.cols == 3 {
            lemma_inverse_answer(ar, v.d@, v.n_free as int, rhs, x1->Ok_0@, r, s);
        }
    }
}

pub(crate) proof fn lemma_weighs<A: Arithmetic, B: Backend>(
    ar: A,
    b: B,
    problem: Problem,
    q: Seq<Real>,
    n_eq: nat,
    v: MetricWeight<B>,
    w: MetricWeight<B>,
)
    requires
        functional(ar),
        steady(b),
        v.weighs(ar, b, problem, q, n_eq),
        w.weighs(ar, b, problem, q, n_eq),
    ensures
        same_weight(v, w),
{
}

pub(crate) proof fn lemma_weighable<A: Arithmetic, B: Backend>(
    ar: A,
    b: B,
    problem: Problem,
    q: Seq<Real>,
    n_eq: nat,
    w: MetricWeight<B>,
    e: TheseusError,
)
    requires
        functional(ar),
        steady(b),
        w.weighs(ar, b, problem, q, n_eq),
    ensures
        !unweighable(e, ar, b, problem, q, n_eq),
{
}

proof fn lemma_image_under<A: Arithmetic, B: Backend>(
    ar: A,
    b: B,
    m: Csc,
    v: MetricWeight<B>,
    w: MetricWeight<B>,
    damping: Real,
    x: Seq<Real>,
    r: Result<Seq<Real>, TheseusError>,
    s: Result<Seq<Real>, TheseusError>,
)
    requires
        functional(ar),
        steady(b),
        same_weight(v, w),
        image_under(ar, b, m, v, damping, x, r),
        image_under(ar, b, m, w, damping, x, s),
    ensures
        same_reply(r, s),
{
    let image = m.applied(ar, x);
    let t1 = choose|t: Result<Vec<Real>, TheseusError>|
        {
            &&& #[trigger] inverse_applied(ar, b, v, image, t)
            &&& t is Err ==> r is Err
            &&& t is Ok ==> r == Ok::<_, TheseusError>(
                t->Ok_0@ + damping_rows(ar, damping, x),
            )
        };
    let t2 = choose|t: Result<Vec<Real>, TheseusError>|
        {
            &&& #[trigger] inverse_applied(ar, b, w, image, t)
            &&& t is Err ==> s is Err
            &&& t is Ok ==> s == Ok::<_, TheseusError>(
                t->Ok_0@ + damping_rows(ar, damping, x),
            )
        };
    lemma_inverse_applied(ar, b, v, w, image, t1, t2);
}

proof fn lemma_image_back<A: Arithmetic, B: Backend>(
    ar: A,
    b: B,
    m: Csc,
    v: MetricWeight<B>,
    w: MetricWeight<B>,
    damping: Real,
    y: Seq<Real>,
    r: Result<Seq<Real>, TheseusError>,
    s: Result<Seq<Real>, TheseusError>,
)
    requires
        functional(ar),
        steady(b),
        same_weight(v, w),
        image_back(ar, b, m, v, damping, y, r),
        image_back(ar, b, m, w, damping, y, s),
    ensures
        same_reply(r, s),
{
    let top = y.subrange(0, m.nrows as int);
    let rest = y.subrange(m.nrows as int, y.len() as int);
    let t1 = choose|t: Result<Vec<Real>, TheseusError>|
        {
            &&& #[trigger] inverse_applied(ar, b, v, top, t)
            &&& t is Err ==> r is Err
            &&& t is Ok ==> r == Ok::<_, TheseusError>(
                if (Real { bits: ZERO }).below(damping) {
                    moved(ar, m.transposed().applied(ar, t->Ok_0@), damping, rest)
                } else {
                    m.transposed().applied(ar, t->Ok_0@)
                },
            )
        };
    let t2 = choose|t: Result<Vec<Real>, TheseusError>|
        {
            &&& #[trigger] inverse_applied(ar, b, w, top, t)
            &&& t is Err ==> s is Err
            &&& t is Ok ==> s == Ok::<_, TheseusError>(
                if (Real { bits: ZERO }).below(damping) {
                    moved(ar, m.transposed().applied(ar, t->Ok_0@), damping, rest)
                } else {
                    m.transposed().applied(ar, t->Ok_0@)
                },
            )
        };
    lemma_inverse_applied(ar, b, v, w, top, t1, t2);
}

proof fn lemma_weighted_step<A: Arithmetic, B: Backend>(
    ar: A,
    b: B,
    m: Csc,
    v: MetricWeight<B>,
    w: MetricWeight<B>,
    damping: Real,
    tol: LsqrTolerances,
    at: LsqrProgress,
    r: Result<LsqrProgress, TheseusError>,
    s: Result<LsqrProgress, TheseusError>,
)
    requires
        functional(ar),
        steady(b),
        same_weight(v, w),
        weighted_step(ar, b, m, v, damping, tol, at, r),
        weighted_step(ar, b, m, w, damping, tol, at, s),
    ensures
        same_reply(r, s),
{
    let y1 = choose|y: Result<Seq<Real>, TheseusError>|
        {
            &&& #[trigger] image_under(ar, b, m, v, damping, at.state.v, y)
            &&& y is Err ==> r is Err
            &&& y is Ok ==> weighted_half_step(ar, b, m, v, damping, tol, at, y->Ok_0, r)
        };
    let y2 = choose|y: Result<Seq<Real>, TheseusError>|
        {
            &&& #[trigger] image_under(ar, b, m, w, damping, at.state.v, y)
            &&& y is Err ==> s is Err
            &&& y is Ok ==> weighted_half_step(ar, b, m, w, damping, tol, at, y->Ok_0, s)
        };
    lemma_image_under(ar, b, m, v, w, damping, at.state.v, y1, y2);
    if y1 is Ok {
        let y = y1->Ok_0;
        let left = left_raw(ar, at.state, y);
        let beta = norm_of(ar, left);
        let u = normalized(ar, left, beta);
        let z1 = choose|z: Result<Seq<Real>, TheseusError>|
            {
                &&& #[trigger] image_back(ar, b, m, v, damping, u, z)
                &&& z is Err ==> r is Err
                &&& z is Ok ==> half_stepped(ar, at, u, beta, tol, z->Ok_0, r)
            };
        let z2 = choose|z: Result<Seq<Real>, TheseusError>|
            {
                &&& #[trigger] image_back(ar, b, m, w, damping, u, z)
                &&& z is Err ==> s is Err
                &&& z is Ok ==> half_stepped(ar, at, u, beta, tol, z->Ok_0, s)
            };
        lemma_image_back(ar, b, m, v, w, damping, u, z1, z2);
    }
}

/// Whether `r` is where a step leads to whose second image is `z`.
spec fn half_stepped<A: Arithmetic>(
    ar: A,
    at: LsqrProgress,
    u: Seq<Real>,
    beta: Real,
    tol: LsqrTolerances,
    z: Seq<Real>,
    r: Result<LsqrProgress, TheseusError>,
) -> bool {
    let right = right_raw(ar, at.state, z, beta);
    let alpha = norm_of(ar, right);
    let v = normalized(ar, right, alpha);
    r == Ok::<_, TheseusError>(rotated(ar, at.state, u, v, beta, alpha, tol, at.performed))
}

proof fn lemma_weighted_reaches<A: Arithmetic, B: Backend>(
    ar: A,
    b: B,
    m: Csc,
    v: MetricWeight<B>,
    w: MetricWeight<B>,
    damping: Real,
    tol: LsqrTolerances,
    first: Bidiagonal,
    j: nat,
    k: nat,
    s: LsqrProgress,
    t: LsqrProgress,
)
    requires
        functional(ar),
        steady(b),
        same_weight(v, w),
        j <= k,
        weighted_reaches(ar, b, m, v, damping, tol, first, j, s),
        weighted_reaches(ar, b, m, w, damping, tol, first, k, t),
    ensures
        j == k ==> s == t,
        j < k ==> !s.stopped && exists|next: LsqrProgress| #[trigger]
            weighted_step(ar, b, m, w, damping, tol, s, Ok(next)),
    decreases k,
{
    if k > 0 {
        let before = choose|before: LsqrProgress|
            {
                &&& weighted_reaches(ar, b, m, w, damping, tol, first, (k - 1) as nat, before)
                &&& !before.stopped
                &&& #[trigger] weighted_step(ar, b, m, w, damping, tol, before, Ok(t))
            };
        if j < k {
            lemma_weighted_reaches(
                ar,
                b,
                m,
                v,
                w,
                damping,
                tol,
                first,
                j,
                (k - 1) as nat,
                s,
                before,
            );
        } else {
            let earlier = choose|earlier: LsqrProgress|
                {
                    &&& weighted_reaches(ar, b, m, v, damping, tol, first, (j - 1) as nat, earlier)
                    &&& !earlier.stopped
                    &&& #[trigger] weighted_step(ar, b, m, v, damping, tol, earlier, Ok(s))
                };
            lemma_weighted_reaches(
                ar,
                b,
                m,
                v,
                w,
                damping,
                tol,
                first,
                (j - 1) as nat,
                (k - 1) as nat,
                earlier,
                before,
            );
            lemma_weighted_step(ar, b, m, v, w, damping, tol, before, Ok(s), Ok(t));
        }
    }
}

/// Whether two replies hold the same result, or both are errors.
pub open spec fn alike_results(
    r: Result<LsqrResult, TheseusError>,
    s: Result<LsqrResult, TheseusError>,
) -> bool {
    match (r, s) {
        (Ok(x), Ok(y)) => x.solution@ == y.solution@ && x.iterations == y.iterations && x.converged
            == y.converged,
        (Err(_), Err(_)) => true,
        _ => false,
    }
}

proof fn lemma_weighted_run<A: Arithmetic, B: Backend>(
    ar: A,
    b: B,
    m: Csc,
    v: MetricWeight<B>,
    w: MetricWeight<B>,
    damping: Real,
    tol: LsqrTolerances,
    first: Bidiagonal,
    limit: nat,
    r: Result<LsqrResult, TheseusError>,
    s: Result<LsqrResult, TheseusError>,
)
    requires
        functional(ar),
        steady(b),
        same_weight(v, w),
        weighted_run(ar, b, m, v, damping, tol, first, limit, r),
        weighted_run(ar, b, m, w, damping, tol, first, limit, s),
    ensures
        alike_results(r, s),
{
    let (j, x) = choose|k: nat, t: LsqrProgress|
        {
            &&& #[trigger] weighted_reaches(ar, b, m, v, damping, tol, first, k, t)
            &&& k <= limit
            &&& if k == limit || t.stopped {
                ended(t, r)
            } else {
                r is Err && weighted_step(ar, b, m, v, damping, tol, t, Err(r->Err_0))
            }
        };
    let (k, y) = choose|k: nat, t: LsqrProgress|
        {
            &&& #[trigger] weighted_reaches(ar, b, m, w, damping, tol, first, k, t)
            &&& k <= limit
            &&& if k == limit || t.stopped {
                ended(t, s)
            } else {
                s is Err && weighted_step(ar, b, m, w, damping, tol, t, Err(s->Err_0))
            }
        };
    if j <= k {
        lemma_weighted_reaches(ar, b, m, v, w, damping, tol, first, j, k, x, y);
        if j < k {
            let next = choose|next: LsqrProgress| #[trigger]
                weighted_step(ar, b, m, w, damping, tol, x, Ok(next));
            lemma_weighted_step(ar, b, m, v, w, damping, tol, x, Err(r->Err_0), Ok(next));
        }
    } else {
        lemma_weighted_reaches(ar, b, m, w, v, damping, tol, first, k, j, y, x);
        let next = choose|next: LsqrProgress| #[trigger]
            weighted_step(ar, b, m, v, damping, tol, y, Ok(next));
        lemma_weighted_step(ar, b, m, w, v, damping, tol, y, Err(s->Err_0), Ok(next));
    }
}

proof fn lemma_weighted_outcome<A: Arithmetic, B: Backend>(
    ar: A,
    b: B,
    m: Csc,
    v: MetricWeight<B>,
    w: MetricWeight<B>,
    damping: Real,
    rhs: Seq<Real>,
    operator_norm: Real,
    tolerance: Real,
    max_iterations: nat,
    r: Result<LsqrResult, TheseusError>,
    s: Result<LsqrResult, TheseusError>,
)
    requires
        functional(ar),
        steady(b),
        same_weight(v, w),
        weighted_outcome(ar, b, m, v, damping, rhs, operator_norm, tolerance, max_iterations, r),
        weighted_outcome(ar, b, m, w, damping, rhs, operator_norm, tolerance, max_iterations, s),
    ensures
        alike_results(r, s),
{
    let zero = Real { bits: ZERO };
    let rhs_norm = norm_of(ar, rhs);
    let u = divided(ar, rhs, rhs_norm);
    let tol = LsqrTolerances {
        tolerance: tolerance.larger(Real { bits: EPSILON }),
        rhs_norm,
        operator_norm: operator_norm.larger(Real { bits: EPSILON }),
    };
    let limit = lsqr_limit(rhs.len(), m.ncols, max_iterations);
    if !rhs_norm.level(zero) {
        let z1 = choose|z: Result<Seq<Real>, TheseusError>|
            {
                &&& #[trigger] image_back(ar, b, m, v, damping, u, z)
                &&& z is Err ==> r is Err
                &&& z is Ok && norm_of(ar, z->Ok_0).level(zero) ==> nothing_to_do(m.ncols, r)
                &&& z is Ok && !norm_of(ar, z->Ok_0).level(zero) ==> weighted_run(
                    ar,
                    b,
                    m,
                    v,
                    damping,
                    tol,
                    lsqr_start(ar, u, z->Ok_0, rhs_norm, norm_of(ar, z->Ok_0)),
                    limit,
                    r,
                )
            };
        let z2 = choose|z: Result<Seq<Real>, TheseusError>|
            {
                &&& #[trigger] image_back(ar, b, m, w, damping, u, z)
                &&& z is Err ==> s is Err
                &&& z is Ok && norm_of(ar, z->Ok_0).level(zero) ==> nothing_to_do(m.ncols, s)
                &&& z is Ok && !norm_of(ar, z->Ok_0).level(zero) ==> weighted_run(
                    ar,
                    b,
                    m,
                    w,
                    damping,
                    tol,
                    lsqr_start(ar, u, z->Ok_0, rhs_norm, norm_of(ar, z->Ok_0)),
                    limit,
                    s,
                )
            };
        lemma_image_back(ar, b, m, v, w, damping, u, z1, z2);
        if z1 is Ok && !norm_of(ar, z1->Ok_0).level(zero) {
            lemma_weighted_run(
                ar,
                b,
                m,
                v,
                w,
                damping,
                tol,
                lsqr_start(ar, u, z1->Ok_0, rhs_norm, norm_of(ar, z1->Ok_0)),
                limit,
                r,
                s,
            );
        }
    }
}

proof fn lemma_least_squares<A: Arithmetic, B: Backend>(
    ar: A,
    b: B,
    m: Csc,
    p: Seq<Real>,
    w: Real,
    tol: Real,
    max_iter: nat,
    weight1: Option<&MetricWeight<B>>,
    weight2: Option<&MetricWeight<B>>,
    r: Result<LsqrResult, TheseusError>,
    s: Result<LsqrResult, TheseusError>,
)
    requires
        functional(ar),
        steady(b),
        same_weights(weight1, weight2),
        least_squares_outcome(ar, b, m, p, w, tol, max_iter, weight1, r),
        least_squares_outcome(ar, b, m, p, w, tol, max_iter, weight2, s),
    ensures
        alike_results(r, s),
{
    if weight1 is Some {
        let v1 = *weight1->0;
        let v2 = *weight2->0;
        let damping = damping_of(ar, w);
        let t1 = choose|t: Result<Vec<Real>, TheseusError>|
            {
                &&& #[trigger] inverse_applied(ar, b, v1, p, t)
                &&& t is Err ==> r is Err
                &&& t is Ok ==> weighted_outcome(
                    ar,
                    b,
                    m,
                    v1,
                    damping,
                    damped_rhs(damping, t->Ok_0@, m.ncols),
                    norm_of(ar, m.values),
                    tol,
                    max_iter,
                    r,
                )
            };
        let t2 = choose|t: Result<Vec<Real>, TheseusError>|
            {
                &&& #[trigger] inverse_applied(ar, b, v2, p, t)
                &&& t is Err ==> s is Err
                &&& t is Ok ==> weighted_outcome(
                    ar,
                    b,
                    m,
                    v2,
                    damping,
                    damped_rhs(damping, t->Ok_0@, m.ncols),
                    norm_of(ar, m.values),
                    tol,
                    max_iter,
                    s,
                )
            };
        lemma_inverse_applied(ar, b, v1, v2, p, t1, t2);
        if t1 is Ok {
            lemma_weighted_outcome(
                ar,
                b,
                m,
                v1,
                v2,
                damping,
                damped_rhs(damping, t1->Ok_0@, m.ncols),
                norm_of(ar, m.values),
                tol,
                max_iter,
                r,
                s,
            );
        }
    }
}

/// The right-hand side, with zeros for the rows of the damping if there is any.
spec fn damped_rhs(damping: Real, top: Seq<Real>, n: nat) -> Seq<Real> {
    if (Real { bits: ZERO }).below(damping) {
        extended(top, n)
    } else {
        top
    }
}

proof fn lemma_same_spg<A: Arithmetic>(ar: A, x: BoxBounds, y: BoxBounds)
    requires
        same_box(x, y),
    ensures
        forall|x0: Seq<Real>| #[trigger] spg_start(x, x0) == spg_start(y, x0),
        forall|tol: Real, s: SpgState, g: Seq<Real>| #[trigger]
            spg_step(ar, x, tol, s, g) == spg_step(ar, y, tol, s, g),
{
    assert forall|x0: Seq<Real>| #[trigger] spg_start(x, x0) == spg_start(y, x0) by {
        assert(x.clipped(x0) =~= y.clipped(x0));
    }
    assert forall|tol: Real, s: SpgState, g: Seq<Real>| #[trigger]
        spg_step(ar, x, tol, s, g) == spg_step(ar, y, tol, s, g) by {
        let alpha = spectral_step(ar, s, g);
        assert(projected(ar, x, s.x, alpha, g) =~= projected(ar, y, s.x, alpha, g));
    }
}

proof fn lemma_spg_upto<A: Arithmetic>(
    ar: A,
    m: Csc,
    p: Seq<Real>,
    w: Real,
    x: BoxBounds,
    y: BoxBounds,
    tol: Real,
    x0: Seq<Real>,
    k: nat,
)
    requires
        same_box(x, y),
    ensures
        spg_upto(ar, m, p, w, x, tol, x0, k) == spg_upto(ar, m, p, w, y, tol, x0, k),
    decreases k,
{
    lemma_same_spg(ar, x, y);
    if k > 0 {
        lemma_spg_upto(ar, m, p, w, x, y, tol, x0, (k - 1) as nat);
    } else {
        assert(spg_start(x, x0) == spg_start(y, x0));
    }
}

proof fn lemma_weighed_twice<A: Arithmetic, B: Backend>(
    ar: A,
    b: B,
    v: MetricWeight<B>,
    w: MetricWeight<B>,
    residual: Seq<Real>,
    r: Result<Vec<Real>, TheseusError>,
    s: Result<Vec<Real>, TheseusError>,
)
    requires
        functional(ar),
        steady(b),
        same_weight(v, w),
        weighed_twice(ar, b, v, residual, r),
        weighed_twice(ar, b, w, residual, s),
    ensures
        alike(r, s),
{
    let t1 = choose|t: Result<Vec<Real>, TheseusError>|
        {
            &&& #[trigger] inverse_applied(ar, b, v, residual, t)
            &&& t is Err ==> r is Err
            &&& t is Ok ==> inverse_applied(ar, b, v, t->Ok_0@, r)
        };
    let t2 = choose|t: Result<Vec<Real>, TheseusError>|
        {
            &&& #[trigger] inverse_applied(ar, b, w, residual, t)
            &&& t is Err ==> s is Err
            &&& t is Ok ==> inverse_applied(ar, b, w, t->Ok_0@, s)
        };
    lemma_inverse_applied(ar, b, v, w, residual, t1, t2);
    if t1 is Ok {
        lemma_inverse_applied(ar, b, v, w, t1->Ok_0@, r, s);
    }
}

proof fn lemma_weighted_spg_step<A: Arithmetic, B: Backend>(
    ar: A,
    b: B,
    m: Csc,
    p: Seq<Real>,
    w: Real,
    x: BoxBounds,
    y: BoxBounds,
    tol: Real,
    weight1: MetricWeight<B>,
    weight2: MetricWeight<B>,
    at: SpgState,
    r: Result<SpgState, TheseusError>,
    s: Result<SpgState, TheseusError>,
)
    requires
        functional(ar),
        steady(b),
        same_box(x, y),
        same_weight(weight1, weight2),
        weighted_spg_step(ar, b, m, p, w, x, tol, weight1, at, r),
        weighted_spg_step(ar, b, m, p, w, y, tol, weight2, at, s),
    ensures
        same_reply(r, s),
{
    lemma_same_spg(ar, x, y);
    let residual = less(ar, m.applied(ar, at.x), p);
    let t1 = choose|t: Result<Vec<Real>, TheseusError>|
        {
            &&& #[trigger] weighed_twice(ar, b, weight1, residual, t)
            &&& t is Err ==> r is Err
            &&& t is Ok ==> r == Ok::<_, TheseusError>(
                spg_step(ar, x, tol, at, gradient_from(ar, m, w, at.x, t->Ok_0@)),
            )
        };
    let t2 = choose|t: Result<Vec<Real>, TheseusError>|
        {
            &&& #[trigger] weighed_twice(ar, b, weight2, residual, t)
            &&& t is Err ==> s is Err
            &&& t is Ok ==> s == Ok::<_, TheseusError>(
                spg_step(ar, y, tol, at, gradient_from(ar, m, w, at.x, t->Ok_0@)),
            )
        };
    lemma_weighed_twice(ar, b, weight1, weight2, residual, t1, t2);
}

proof fn lemma_weighted_spg_reaches<A: Arithmetic, B: Backend>(
    ar: A,
    b: B,
    m: Csc,
    p: Seq<Real>,
    w: Real,
    x: BoxBounds,
    y: BoxBounds,
    tol: Real,
    weight1: MetricWeight<B>,
    weight2: MetricWeight<B>,
    x0: Seq<Real>,
    j: nat,
    k: nat,
    s: SpgState,
    t: SpgState,
)
    requires
        functional(ar),
        steady(b),
        same_box(x, y),
        same_weight(weight1, weight2),
        j <= k,
        weighted_spg_reaches(ar, b, m, p, w, x, tol, weight1, x0, j, s),
        weighted_spg_reaches(ar, b, m, p, w, y, tol, weight2, x0, k, t),
    ensures
        j == k ==> s == t,
        j < k ==> !s.converged && exists|next: SpgState| #[trigger]
            weighted_spg_step(ar, b, m, p, w, y, tol, weight2, s, Ok(next)),
    decreases k,
{
    lemma_same_spg(ar, x, y);
    assert(spg_start(x, x0) == spg_start(y, x0));
    if k > 0 {
        let before = choose|before: SpgState|
            {
                &&& weighted_spg_reaches(
                    ar,
                    b,
                    m,
                    p,
                    w,
                    y,
                    tol,
                    weight2,
                    x0,
                    (k - 1) as nat,
                    before,
                )
                &&& !before.converged
                &&& #[trigger] weighted_spg_step(
                    ar,
                    b,
                    m,
                    p,
                    w,
                    y,
                    tol,
                    weight2,
                    before,
                    Ok(t),
                )
            };
        if j < k {
            lemma_weighted_spg_reaches(
                ar,
                b,
                m,
                p,
                w,
                x,
                y,
                tol,
                weight1,
                weight2,
                x0,
                j,
                (k - 1) as nat,
                s,
                before,
            );
        } else {
            let earlier = choose|earlier: SpgState|
                {
                    &&& weighted_spg_reaches(
                        ar,
                        b,
                        m,
                        p,
                        w,
                        x,
                        tol,
                        weight1,
                        x0,
                        (j - 1) as nat,
                        earlier,
                    )
                    &&& !earlier.converged
                    &&& #[trigger] weighted_spg_step(
                        ar,
                        b,
                        m,
                        p,
                        w,
                        x,
                        tol,
                        weight1,
                        earlier,
                        Ok(s),
                    )
                };
            lemma_weighted_spg_reaches(
                ar,
                b,
                m,
                p,
                w,
                x,
                y,
                tol,
                weight1,
                weight2,
                x0,
                (j - 1) as nat,
                (k - 1) as nat,
                earlier,
                before,
            );
            lemma_weighted_spg_step(
                ar,
                b,
                m,
                p,
                w,
                x,
                y,
                tol,
                weight1,
                weight2,
                before,
                Ok(s),
                Ok(t),
            );
        }
    }
}

/// Whether two replies hold the same point, or both are errors.
pub open spec fn alike_points(
    r: Result<SpgBoxResult, TheseusError>,
    s: Result<SpgBoxResult, TheseusError>,
) -> bool {
    match (r, s) {
        (Ok(x), Ok(y)) => x.q@ == y.q@ && x.iterations == y.iterations && x.converged
            == y.converged,
        (Err(_), Err(_)) => true,
        _ => false,
    }
}

proof fn lemma_spg_outcome<A: Arithmetic, B: Backend>(
    ar: A,
    b: B,
    m: Csc,
    p: Seq<Real>,
    w: Real,
    x: BoxBounds,
    y: BoxBounds,
    max_iter: usize,
    tol: Real,
    x0: Seq<Real>,
    weight1: Option<&MetricWeight<B>>,
    weight2: Option<&MetricWeight<B>>,
    r: Result<SpgBoxResult, TheseusError>,
    s: Result<SpgBoxResult, TheseusError>,
)
    requires
        functional(ar),
        steady(b),
        same_box(x, y),
        same_weights(weight1, weight2),
        spg_outcome(ar, b, m, p, w, x, max_iter, tol, x0, weight1, r),
        spg_outcome(ar, b, m, p, w, y, max_iter, tol, x0, weight2, s),
    ensures
        alike_points(r, s),
{
    let limit = spg_limit(max_iter);
    if weight1 is None {
        lemma_spg_upto(ar, m, p, w, x, y, tol, x0, limit);
    } else {
        lemma_weighted_spg(
            ar,
            b,
            m,
            p,
            w,
            x,
            y,
            tol,
            *weight1->0,
            *weight2->0,
            x0,
            limit,
            r,
            s,
        );
    }
}

proof fn lemma_weighted_spg<A: Arithmetic, B: Backend>(
    ar: A,
    b: B,
    m: Csc,
    p: Seq<Real>,
    w: Real,
    x: BoxBounds,
    y: BoxBounds,
    tol: Real,
    weight1: MetricWeight<B>,
    weight2: MetricWeight<B>,
    x0: Seq<Real>,
    limit: nat,
    r: Result<SpgBoxResult, TheseusError>,
    s: Result<SpgBoxResult, TheseusError>,
)
    requires
        functional(ar),
        steady(b),
        same_box(x, y),
        same_weight(weight1, weight2),
        weighted_spg(ar, b, m, p, w, x, tol, weight1, x0, limit, r),
        weighted_spg(ar, b, m, p, w, y, tol, weight2, x0, limit, s),
    ensures
        alike_points(r, s),
{
    let (j, u) = choose|k: nat, t: SpgState|
        {
            &&& #[trigger] weighted_spg_reaches(ar, b, m, p, w, x, tol, weight1, x0, k, t)
            &&& k <= limit
            &&& if k == limit || t.converged {
                spg_ends(m.ncols, t, r)
            } else {
                r is Err && weighted_spg_step(
                    ar,
                    b,
                    m,
                    p,
                    w,
                    x,
                    tol,
                    weight1,
                    t,
                    Err(r->Err_0),
                )
            }
        };
    let (k, v) = choose|k: nat, t: SpgState|
        {
            &&& #[trigger] weighted_spg_reaches(ar, b, m, p, w, y, tol, weight2, x0, k, t)
            &&& k <= limit
            &&& if k == limit || t.converged {
                spg_ends(m.ncols, t, s)
            } else {
                s is Err && weighted_spg_step(
                    ar,
                    b,
                    m,
                    p,
                    w,
                    y,
                    tol,
                    weight2,
                    t,
                    Err(s->Err_0),
                )
            }
        };
    if j <= k {
        lemma_weighted_spg_reaches(
            ar,
            b,
            m,
            p,
            w,
            x,
            y,
            tol,
            weight1,
            weight2,
            x0,
            j,
            k,
            u,
            v,
        );
        if j < k {
            let next = choose|next: SpgState| #[trigger]
                weighted_spg_step(ar, b, m, p, w, y, tol, weight2, u, Ok(next));
            lemma_weighted_spg_step(
                ar,
                b,
                m,
                p,
                w,
                x,
                y,
                tol,
                weight1,
                weight2,
                u,
                Err(r->Err_0),
                Ok(next),
            );
        }
    } else {
        lemma_weighted_spg_reaches(
            ar,
            b,
            m,
            p,
            w,
            y,
            x,
            tol,
            weight2,
            weight1,
            x0,
            k,
            j,
            v,
            u,
        );
        let next = choose|next: SpgState| #[trigger]
            weighted_spg_step(ar, b, m, p, w, x, tol, weight1, v, Ok(next));
        lemma_weighted_spg_step(
            ar,
            b,
            m,
            p,
            w,
            y,
            x,
            tol,
            weight2,
            weight1,
            v,
            Err(s->Err_0),
            Ok(next),
        );
    }
}

/// Whether two replies hold the same solution, or both are errors.
pub open spec fn alike_solutions(
    r: Result<InnerSolution, TheseusError>,
    s: Result<InnerSolution, TheseusError>,
) -> bool {
    match (r, s) {
        (Ok(x), Ok(y)) => x.x@ == y.x@ && x.iterations == y.iterations && x.converged
            == y.converged,
        (Err(_), Err(_)) => true,
        _ => false,
    }
}

/// With a steady backend a solver has one answer to one problem, and keeps the same
/// factorizations.
pub proof fn solvers_have_one_answer<A: Arithmetic, B: Backend>(
    ar: A,
    b: B,
    opts: InverseFdmOptions,
    kind: InnerKind,
    m: SparseColMatOwned,
    n: SparseColMatOwned,
    p: Seq<Real>,
    w: Real,
    x0: Seq<Real>,
    x: BoxBounds,
    y: BoxBounds,
    weight1: Option<&MetricWeight<B>>,
    weight2: Option<&MetricWeight<B>>,
    geometric_step: bool,
    before: InnerSolver<B>,
    after1: InnerSolver<B>,
    after2: InnerSolver<B>,
    r: Result<InnerSolution, TheseusError>,
    s: Result<InnerSolution, TheseusError>,
)
    requires
        functional(ar),
        steady(b),
        m@ == n@,
        same_box(x, y),
        same_weights(weight1, weight2),
        inner_outcome(
            ar,
            b,
            opts,
            kind,
            m,
            p,
            w,
            x0,
            x,
            weight1,
            geometric_step,
            before,
            after1,
            r,
        ),
        inner_outcome(
            ar,
            b,
            opts,
            kind,
            n,
            p,
            w,
            x0,
            y,
            weight2,
            geometric_step,
            before,
            after2,
            s,
        ),
    ensures
        alike_solutions(r, s),
        after1 == after2,
{
    assert(m.nrows == n.nrows && m.ncols == n.ncols) by {
        assert(m@.nrows == n@.nrows && m@.ncols == n@.ncols);
    }
    let c = m@;
    match kind {
        InnerKind::Gram => {
            let u = choose|u: Result<Vec<Real>, TheseusError>|
                {
                    &&& #[trigger] gram_outcome(
                        ar,
                        b,
                        c,
                        p,
                        w,
                        before.ldl_cache,
                        after1.ldl_cache,
                        u,
                    )
                    &&& sized_solution(u, m.ncols, r)
                };
            let v = choose|v: Result<Vec<Real>, TheseusError>|
                {
                    &&& #[trigger] gram_outcome(
                        ar,
                        b,
                        c,
                        p,
                        w,
                        before.ldl_cache,
                        after2.ldl_cache,
                        v,
                    )
                    &&& sized_solution(v, m.ncols, s)
                };
            lemma_gram_outcome(
                ar,
                b,
                c,
                p,
                w,
                before.ldl_cache,
                after1.ldl_cache,
                after2.ldl_cache,
                u,
                v,
            );
        },
        InnerKind::Saddle => {
            let held = before.saddle_cache(geometric_step);
            let kept1 = after1.saddle_cache(geometric_step);
            let kept2 = after2.saddle_cache(geometric_step);
            let u = choose|u: Result<Vec<Real>, TheseusError>|
                {
                    &&& #[trigger] saddle_outcome(ar, b, c, p, w, weight1, held, kept1, u)
                    &&& direct_solution(u, r)
                };
            let v = choose|v: Result<Vec<Real>, TheseusError>|
                {
                    &&& #[trigger] saddle_outcome(ar, b, c, p, w, weight2, held, kept2, v)
                    &&& direct_solution(v, s)
                };
            lemma_saddle_outcome(ar, b, c, p, w, weight1, weight2, held, kept1, kept2, u, v);
        },
        InnerKind::Qr => {
            let u = choose|u: Result<Vec<Real>, TheseusError>|
                {
                    &&& #[trigger] qr_outcome(
                        ar,
                        b,
                        m,
                        p,
                        true,
                        before.qr_symbolic,
                        after1.qr_symbolic,
                        u,
                    )
                    &&& direct_solution(u, r)
                };
            let v = choose|v: Result<Vec<Real>, TheseusError>|
                {
                    &&& #[trigger] qr_outcome(
                        ar,
                        b,
                        n,
                        p,
                        true,
                        before.qr_symbolic,
                        after2.qr_symbolic,
                        v,
                    )
                    &&& direct_solution(v, s)
                };
            lemma_qr_outcome(
                ar,
                b,
                m,
                n,
                p,
                true,
                before.qr_symbolic,
                after1.qr_symbolic,
                after2.qr_symbolic,
                u,
                v,
            );
        },
        InnerKind::Lsqr => {
            let tol = opts.tol.larger(Real { bits: LSQR_TOL });
            let limit = opts.max_iter as nat;
            let u = choose|u: Result<LsqrResult, TheseusError>|
                {
                    &&& #[trigger] least_squares_outcome(ar, b, c, p, w, tol, limit, weight1, u)
                    &&& u is Err ==> r is Err
                    &&& u is Ok ==> r is Ok && r->Ok_0.x == u->Ok_0.solution && r->Ok_0.iterations
                        == u->Ok_0.iterations && r->Ok_0.converged == u->Ok_0.converged
                };
            let v = choose|v: Result<LsqrResult, TheseusError>|
                {
                    &&& #[trigger] least_squares_outcome(ar, b, c, p, w, tol, limit, weight2, v)
                    &&& v is Err ==> s is Err
                    &&& v is Ok ==> s is Ok && s->Ok_0.x == v->Ok_0.solution && s->Ok_0.iterations
                        == v->Ok_0.iterations && s->Ok_0.converged == v->Ok_0.converged
                };
            lemma_least_squares(ar, b, c, p, w, tol, limit, weight1, weight2, u, v);
        },
        InnerKind::Clarabel => {
            let limit = opts.max_iter as nat;
            let u = choose|u: Result<Vec<Real>, TheseusError>|
                {
                    &&& #[trigger] conic_solved(
                        ar,
                        b,
                        c,
                        p,
                        w,
                        x,
                        weight1,
                        limit,
                        opts.tol,
                        geometric_step,
                        u,
                    )
                    &&& direct_solution(u, r)
                };
            let v = choose|v: Result<Vec<Real>, TheseusError>|
                {
                    &&& #[trigger] conic_solved(
                        ar,
                        b,
                        c,
                        p,
                        w,
                        y,
                        weight2,
                        limit,
                        opts.tol,
                        geometric_step,
                        v,
                    )
                    &&& direct_solution(v, s)
                };
            lemma_conic_solved(
                ar,
                b,
                c,
                p,
                w,
                x,
                y,
                weight1,
                weight2,
                limit,
                opts.tol,
                geometric_step,
                u,
                v,
            );
        },
        InnerKind::Spg => {
            let u = choose|u: Result<SpgBoxResult, TheseusError>|
                {
                    &&& #[trigger] spg_outcome(
                        ar,
                        b,
                        c,
                        p,
                        w,
                        x,
                        opts.max_iter,
                        opts.tol,
                        x0,
                        weight1,
                        u,
                    )
                    &&& u is Err ==> r is Err
                    &&& u is Ok ==> r is Ok && r->Ok_0.x == u->Ok_0.q && r->Ok_0.iterations
                        == u->Ok_0.iterations && r->Ok_0.converged == u->Ok_0.converged
                };
            let v = choose|v: Result<SpgBoxResult, TheseusError>|
                {
                    &&& #[trigger] spg_outcome(
                        ar,
                        b,
                        c,
                        p,
                        w,
                        y,
                        opts.max_iter,
                        opts.tol,
                        x0,
                        weight2,
                        v,
                    )
                    &&& v is Err ==> s is Err
                    &&& v is Ok ==> s is Ok && s->Ok_0.x == v->Ok_0.q && s->Ok_0.iterations
                        == v->Ok_0.iterations && s->Ok_0.converged == v->Ok_0.converged
                };
            lemma_spg_outcome(
                ar,
                b,
                c,
                p,
                w,
                x,
                y,
                opts.max_iter,
                opts.tol,
                x0,
                weight1,
                weight2,
                u,
                v,
            );
        },
    }
}

} // verus!
