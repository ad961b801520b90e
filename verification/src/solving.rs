//! What direct solvers find with kernels that solve exactly.

use crate::arithmetic::{functional, Arithmetic};
use crate::balance::lemma_entry_outside;
use crate::backend::{factored_and_solved, Backend};
use crate::bounds::BoxBounds;
use crate::direct::{
    cached_solve, coupled, factors_attempted, gram_matrix, gram_outcome, middle_answer,
    saddle_outcome, solved_with, weighted_matrix, weighted_rhs, weighted_terms,
};
use crate::double::{Real, ONE, ZERO};
use crate::entries::{
    assembling_adds_up, column_times, entry, entry_term, lemma_diagonal_placed, lemma_placed_joined,
    placed, placed_term, row_times,
};
use crate::error::TheseusError;
use crate::exact::{
    lemma_combine, lemma_combine3, lemma_combine4, lemma_constants, lemma_negated, lemma_nil_times,
    lemma_nil_zero, lemma_total_equal, lemma_total_linear, lemma_total_same, lemma_total_single,
    lemma_total_split, lemma_total_zero, total_of, Exact,
};
use crate::inner::{inner_outcome, sized_solution, direct_solution, InnerSolution, InnerSolver};
use crate::optimality::{
    lemma_total_pairs, normal_equations_are_the_gradient, normal_residual, regularization_of,
    saddle_solutions_are_optimal,
};
use crate::options::{InnerKind, InverseFdmOptions};
use crate::saddle::{diagonal_from, extended, saddle_answer, saddle_matrix, saddle_solved};
use crate::sparse::{lemma_has_column, product, Csc, SparseColMatOwned};
use crate::types::FactorizationStrategy;
use vstd::prelude::*;

verus! {

/// Whether `x` solves the equations that a matrix and a right-hand side state.
pub open spec fn solves(e: Exact, g: Csc, rhs: Seq<Real>, x: Seq<Real>) -> bool {
    &&& x.len() == g.ncols
    &&& forall|i: int|
        0 <= i < g.nrows ==> e.same(#[trigger] row_times(e, g, i, x), e.of(rhs[i]))
}

/// Whether a backend solves exactly: each factor is that of the matrix that it was made of,
/// and what it gives for a right-hand side solves the equations.
pub open spec fn solves_exactly<B: Backend>(
    e: Exact,
    b: B,
    matrix: spec_fn(B::Factor) -> Csc,
) -> bool {
    &&& forall|m: SparseColMatOwned, strategy: FactorizationStrategy, f: B::Factor| #[trigger]
        call_ensures(B::factor, (&b, &m, strategy), Ok(f)) ==> matrix(f) == m@
    &&& forall|held: B::Factor, m: SparseColMatOwned, f: B::Factor| #[trigger]
        call_ensures(B::refactor, (&b, held, &m), Ok(f)) ==> matrix(f) == m@
    &&& forall|f: B::Factor, v: Vec<Real>, x: Vec<Real>| #[trigger]
        call_ensures(B::solve, (&b, &f, &v), Ok(x)) ==> solves(e, matrix(f), v@, x@)
}

pub(crate) proof fn lemma_solved<B: Backend>(
    e: Exact,
    b: B,
    matrix: spec_fn(B::Factor) -> Csc,
    g: Csc,
    rhs: Seq<Real>,
    x: Vec<Real>,
)
    requires
        solves_exactly(e, b, matrix),
        factored_and_solved(b, g, FactorizationStrategy::LDL, rhs, Ok(x)),
    ensures
        solves(e, g, rhs, x@),
{
}

proof fn lemma_cached<B: Backend>(
    e: Exact,
    b: B,
    matrix: spec_fn(B::Factor) -> Csc,
    g: Csc,
    rhs: Seq<Real>,
    w: Real,
    before: Option<B::Factor>,
    after: Option<B::Factor>,
    x: Vec<Real>,
)
    requires
        solves_exactly(e, b, matrix),
        cached_solve(b, g, rhs, w, before, after, Ok(x)),
    ensures
        solves(e, g, rhs, x@),
{
    let (first, last) = choose|
        first: Result<B::Factor, TheseusError>,
        last: Result<B::Factor, TheseusError>,
    |
        {
            &&& #[trigger] factors_attempted(b, g, before, first, last)
            &&& last is Ok
            &&& solved_with(b, last->Ok_0, rhs, w, Ok(x))
        };
    let f = last->Ok_0;
    assert(matrix(f) == g);
    let (v, reply) = choose|v: Vec<Real>, reply: Result<Vec<Real>, TheseusError>|
        {
            &&& v@ == rhs
            &&& #[trigger] call_ensures(B::solve, (&b, &f, &v), reply)
            &&& reply == Ok::<_, TheseusError>(x)
        };
    assert(call_ensures(B::solve, (&b, &f, &v), Ok(x)));
}

/// What normal equations give is optimal: `M' (M x - p) + w x` vanishes.
pub proof fn gram_answers_are_optimal<A: Arithmetic, B: Backend>(
    e: Exact,
    ar: A,
    b: B,
    matrix: spec_fn(B::Factor) -> Csc,
    m: Csc,
    p: Seq<Real>,
    w: Real,
    before: Option<B::Factor>,
    after: Option<B::Factor>,
    x: Vec<Real>,
    k: int,
)
    requires
        e.computes(ar),
        solves_exactly(e, b, matrix),
        m.wf(),
        m.nrows <= u32::MAX,
        m.ncols <= u32::MAX,
        p.len() == m.nrows,
        product(ar, m.transposed(), m).wf(),
        gram_matrix(ar, m, w).wf(),
        gram_outcome(ar, b, m, p, w, before, after, Ok(x)),
        0 <= k < m.ncols,
    ensures
        e.nil(normal_residual(e, m, p, regularization_of(e, w), x@, k)),
{
    let g = gram_matrix(ar, m, w);
    let h = m.transposed().applied(ar, p);
    lemma_cached(e, b, matrix, g, h, w, before, after, x);
    crate::sparse::lemma_transposed_wf(m);
    assert(g.nrows == m.ncols);
    assert(e.same(row_times(e, g, k, x@), e.of(h[k])));
    normal_equations_are_the_gradient(e, ar, m, p, w, x@, k);
    let (r, n) = (
        row_times(e, g, k, x@) - e.of(h[k]),
        normal_residual(e, m, p, regularization_of(e, w), x@, k),
    );
    lemma_combine(e, n, 1, r, -1, r - n);
}

/// What the saddle system gives, without a geometric weight, is optimal: `M' (M x - p) + w x`
/// vanishes.
pub proof fn saddle_answers_are_optimal<A: Arithmetic, B: Backend>(
    e: Exact,
    ar: A,
    b: B,
    matrix: spec_fn(B::Factor) -> Csc,
    m: Csc,
    p: Seq<Real>,
    w: Real,
    before: Option<B::Factor>,
    after: Option<B::Factor>,
    x: Vec<Real>,
    k: int,
)
    requires
        functional(ar),
        e.computes(ar),
        solves_exactly(e, b, matrix),
        m.wf(),
        m.nrows + m.ncols <= u32::MAX,
        p.len() == m.nrows,
        saddle_matrix(ar, m, w).wf(),
        saddle_outcome(ar, b, m, p, w, None, before, after, Ok(x)),
        0 <= k < m.ncols,
    ensures
        e.nil(normal_residual(e, m, p, e.of(w), x@, k)),
{
    let mat = saddle_matrix(ar, m, w);
    let rhs = extended(p, m.ncols);
    if w.level(Real { bits: ZERO }) {
        saddle_solves_are_optimal(e, ar, b, matrix, m, p, w, x, k);
    } else {
        let z = choose|z: Vec<Real>|
            {
                &&& #[trigger] cached_solve(b, mat, rhs, w, before, after, Ok(z))
                &&& middle_answer(Ok(z), m.nrows, m.ncols, Ok(x))
            };
        lemma_cached(e, b, matrix, mat, rhs, w, before, after, z);
        saddle_solutions_are_optimal(e, ar, m, p, w, z@, k);
    }
}

/// What a saddle solve gives is optimal: `M' (M x - p) + w x` vanishes.
pub proof fn saddle_solves_are_optimal<A: Arithmetic, B: Backend>(
    e: Exact,
    ar: A,
    b: B,
    matrix: spec_fn(B::Factor) -> Csc,
    m: Csc,
    p: Seq<Real>,
    w: Real,
    x: Vec<Real>,
    k: int,
)
    requires
        functional(ar),
        e.computes(ar),
        solves_exactly(e, b, matrix),
        m.wf(),
        m.nrows + m.ncols <= u32::MAX,
        p.len() == m.nrows,
        saddle_matrix(ar, m, w).wf(),
        saddle_solved(ar, b, m, p, w, Ok(x)),
        0 <= k < m.ncols,
    ensures
        e.nil(normal_residual(e, m, p, e.of(w), x@, k)),
{
    let mat = saddle_matrix(ar, m, w);
    let rhs = extended(p, m.ncols);
    let z = choose|z: Vec<Real>|
        {
            &&& #[trigger] factored_and_solved(b, mat, FactorizationStrategy::LDL, rhs, Ok(z))
            &&& saddle_answer(Ok(z), m.nrows, m.ncols, w, Ok(x))
        };
    lemma_solved(e, b, matrix, mat, rhs, z);
    saddle_solutions_are_optimal(e, ar, m, p, w, z@, k);
}

/// A direct solver finds the least-squares solution: where the kernels solve exactly, the
/// gradient `M' (M x - p) + w x` vanishes at what it finds.
pub proof fn direct_solvers_find_the_least_squares<A: Arithmetic, B: Backend>(
    e: Exact,
    ar: A,
    b: B,
    matrix: spec_fn(B::Factor) -> Csc,
    opts: InverseFdmOptions,
    kind: InnerKind,
    m: SparseColMatOwned,
    p: Seq<Real>,
    w: Real,
    x0: Seq<Real>,
    bounds: BoxBounds,
    before: InnerSolver<B>,
    after: InnerSolver<B>,
    found: InnerSolution,
    k: int,
)
    requires
        functional(ar),
        e.computes(ar),
        solves_exactly(e, b, matrix),
        m.wf(),
        m.nrows + m.ncols <= u32::MAX,
        p.len() == m.nrows,
        (Real { bits: ZERO }).below(w),
        kind == InnerKind::Gram ==> product(ar, m@.transposed(), m@).wf() && gram_matrix(
            ar,
            m@,
            w,
        ).wf(),
        kind == InnerKind::Saddle ==> saddle_matrix(ar, m@, w).wf(),
        kind == InnerKind::Gram || kind == InnerKind::Saddle,
        inner_outcome(
            ar,
            b,
            opts,
            kind,
            m,
            p,
            w,
            x0,
            bounds,
            None,
            false,
            before,
            after,
            Ok(found),
        ),
        0 <= k < m.ncols,
    ensures
        e.nil(normal_residual(e, m@, p, e.of(w), found.x@, k)),
{
    if kind == InnerKind::Gram {
        let x = choose|x: Result<Vec<Real>, TheseusError>|
            {
                &&& #[trigger] gram_outcome(
                    ar,
                    b,
                    m@,
                    p,
                    w,
                    before.ldl_cache,
                    after.ldl_cache,
                    x,
                )
                &&& sized_solution(x, m.ncols, Ok(found))
            };
        assert(x == Ok::<_, TheseusError>(found.x));
        gram_answers_are_optimal(
            e,
            ar,
            b,
            matrix,
            m@,
            p,
            w,
            before.ldl_cache,
            after.ldl_cache,
            found.x,
            k,
        );
    } else {
        let x = choose|x: Result<Vec<Real>, TheseusError>|
            {
                &&& #[trigger] saddle_outcome(
                    ar,
                    b,
                    m@,
                    p,
                    w,
                    None,
                    before.saddle_cache(false),
                    after.saddle_cache(false),
                    x,
                )
                &&& direct_solution(x, Ok(found))
            };
        saddle_answers_are_optimal(
            e,
            ar,
            b,
            matrix,
            m@,
            p,
            w,
            before.ldl_cache,
            after.ldl_cache,
            found.x,
            k,
        );
    }
}

/// What a matrix and its transposed put into a place when they are coupled.
proof fn lemma_coupled_placed<A: Arithmetic>(
    e: Exact,
    ar: A,
    a: Csc,
    down: int,
    right: int,
    negative: bool,
    i: int,
    j: int,
)
    requires
        e.computes(ar),
        a.wf(),
        0 <= right,
        right + a.ncols <= down,
        down + a.nrows <= u32::MAX,
        0 <= i < down + a.nrows,
        0 <= j < down + a.nrows,
    ensures
        e.same(
            placed(e, coupled(a, down, right, negative), i, j),
            (if negative {
                -1
            } else {
                1int
            }) * if i < down && j >= down {
                entry(e, a, j - down, i - right)
            } else if i >= down && j < down {
                entry(e, a, i - down, j - right)
            } else {
                0
            },
        ),
{
    let t = coupled(a, down, right, negative);
    let n = a.nnz() as int;
    let f = |l: int| placed_term(e, t, i, j, l);
    lemma_total_pairs(f, n);
    let pair = |l: int| f(2 * l) + f(2 * l + 1);
    let above = |l: int| entry_term(e, a, j - down, i - right, l);
    let below = |l: int| entry_term(e, a, i - down, j - right, l);
    let sign = if negative {
        -1
    } else {
        1int
    };
    let own = |l: int|
        if i < down && j >= down {
            above(l)
        } else if i >= down && j < down {
            below(l)
        } else {
            0
        };
    let signed = |l: int| sign * own(l) + 0 * own(l);
    assert forall|l: int| 0 <= l < n implies e.same(#[trigger] pair(l), signed(l)) by {
        lemma_has_column(a, l);
        lemma_negated(e, ar, a.values[l]);
        lemma_nil_zero(e);
        assert(a.rows[l] < a.nrows);
        assert((2 * l) / 2 == l && (2 * l) % 2 == 0 && (2 * l + 1) / 2 == l && (2 * l + 1) % 2
            == 1);
        let row = (down + a.rows[l]) as u32;
        let col = (right + a.column_of(l)) as u32;
        let value = if negative {
            a.values[l].negated()
        } else {
            a.values[l]
        };
        assert(t[2 * l] == (col, row, value));
        assert(t[2 * l + 1] == (row, col, value));
        let o = own(l);
        assert(sign * o + 0 * o == sign * o) by (nonlinear_arith);
    }
    lemma_total_same(e, pair, signed, n);
    lemma_total_linear(own, own, sign, 0, n);
    let s = total_of(own, n);
    assert(sign * s + 0 * s == sign * s) by (nonlinear_arith);
    if i < down && j >= down {
        lemma_total_equal(own, above, n);
    } else if i >= down && j < down {
        lemma_total_equal(own, below, n);
    } else {
        lemma_total_zero(own, n);
    }
}

/// The weighted saddle matrix: `[I, 0, S'; 0, w I, -M'; S, -M, 0]`.
spec fn weighted_entry(e: Exact, m: Csc, s: Csc, w: Real, i: int, j: int) -> int {
    let (r, c) = (m.nrows as int, m.ncols as int);
    let below = r + c;
    if i < r {
        if j < r {
            if i == j {
                1
            } else {
                0
            }
        } else if j < below {
            0
        } else {
            entry(e, s, j - below, i)
        }
    } else if i < below {
        if j < r {
            0
        } else if j < below {
            if i == j {
                e.of(w)
            } else {
                0
            }
        } else {
            -entry(e, m, j - below, i - r)
        }
    } else if j < r {
        entry(e, s, i - below, j)
    } else if j < below {
        -entry(e, m, i - below, j - r)
    } else {
        0
    }
}

proof fn lemma_weighted_entry<A: Arithmetic>(
    e: Exact,
    ar: A,
    m: Csc,
    s: Csc,
    w: Real,
    i: int,
    j: int,
)
    requires
        e.computes(ar),
        m.wf(),
        s.wf(),
        s.nrows == m.nrows,
        s.ncols == m.nrows,
        2 * m.nrows + m.ncols <= u32::MAX,
        weighted_matrix(ar, m, s, w).wf(),
        0 <= i < 2 * m.nrows + m.ncols,
        0 <= j < 2 * m.nrows + m.ncols,
    ensures
        e.same(
            entry(e, weighted_matrix(ar, m, s, w), i, j),
            weighted_entry(e, m, s, w, i, j),
        ),
{
    let (r, c) = (m.nrows as int, m.ncols as int);
    let below = r + c;
    let total = 2 * m.nrows + m.ncols;
    let one = diagonal_from(0, m.nrows, Real { bits: ONE });
    let mid = diagonal_from(r, m.ncols, w);
    let sc = coupled(s, below, 0, false);
    let mc = coupled(m, below, r, true);
    assembling_adds_up(e, ar, total, total, weighted_terms(m, s, w), i, j);
    lemma_placed_joined(e, one + mid + sc, mc, i, j);
    lemma_placed_joined(e, one + mid, sc, i, j);
    lemma_placed_joined(e, one, mid, i, j);
    lemma_diagonal_placed(e, one, 0, Real { bits: ONE }, i, j);
    lemma_diagonal_placed(e, mid, r, w, i, j);
    lemma_coupled_placed(e, ar, s, below, 0, false, i, j);
    lemma_coupled_placed(e, ar, m, below, r, true, i, j);
    lemma_constants(e, ar);
    let (vi, vj) = if i < below && j >= below {
        (j - below, i)
    } else {
        (i - below, j)
    };
    if i < below && j >= below || i >= below && j < below {
        if vj >= r {
            lemma_entry_outside(e, s, vi, vj);
        } else {
            lemma_entry_outside(e, m, vi, vj - r);
        }
    }
    let k = entry(e, weighted_matrix(ar, m, s, w), i, j);
    let (p1, p2, p3, p4) = (
        placed(e, one, i, j),
        placed(e, mid, i, j),
        placed(e, sc, i, j),
        placed(e, mc, i, j),
    );
    let cross = i < below && j >= below || i >= below && j < below;
    let d1 = if i == j && i < r {
        1
    } else {
        0int
    };
    let v3 = if cross {
        entry(e, s, vi, vj)
    } else {
        0
    };
    let v4 = if cross {
        -entry(e, m, vi, vj - r)
    } else {
        0
    };
    assert(e.same(p1, d1)) by {
        lemma_nil_zero(e);
    }
    assert(e.same(p3, v3));
    assert(e.same(p4, v4));
    lemma_combine4(
        e,
        k - (d1 + p2 + v3 + v4),
        1,
        k - (p1 + p2 + p3 + p4),
        1,
        p1 - d1,
        1,
        p3 - v3,
        1,
        p4 - v4,
    );
    assert(d1 + p2 + v3 + v4 == weighted_entry(e, m, s, w, i, j));
}

/// Whatever solves the weighted saddle system solves the weighted least-squares problem: of
/// its three parts `d`, `x` and `y`, the first is the weighted residual, `S d = M x - p`,
/// and the others are such that `d + S' y` and `w x - M' y` vanish, so that no change of `d`
/// and `x` that keeps `S d = M x - p` lowers `1/2 |d|^2 + 1/2 w |x|^2`.
pub proof fn weighted_saddle_solutions_are_optimal<A: Arithmetic>(
    e: Exact,
    ar: A,
    m: Csc,
    s: Csc,
    p: Seq<Real>,
    w: Real,
    z: Seq<Real>,
)
    requires
        e.computes(ar),
        m.wf(),
        s.wf(),
        s.nrows == m.nrows,
        s.ncols == m.nrows,
        2 * m.nrows + m.ncols <= u32::MAX,
        weighted_matrix(ar, m, s, w).wf(),
        p.len() == m.nrows,
        solves(e, weighted_matrix(ar, m, s, w), weighted_rhs(p, m.nrows + m.ncols), z),
    ensures
        ({
            let (r, c) = (m.nrows as int, m.ncols as int);
            let d = z.subrange(0, r);
            let x = z.subrange(r, r + c);
            let y = z.subrange(r + c, 2 * r + c);
            &&& forall|i: int|
                0 <= i < r ==> e.same(
                    #[trigger] row_times(e, s, i, d),
                    row_times(e, m, i, x) - e.of(p[i]),
                )
            &&& forall|i: int|
                0 <= i < r ==> e.nil(e.of(d[i]) + #[trigger] column_times(e, s, i, y))
            &&& forall|k: int|
                0 <= k < c ==> e.same(
                    e.of(w) * e.of(x[k]),
                    #[trigger] column_times(e, m, k, y),
                )
        }),
{
    let (r, c) = (m.nrows as int, m.ncols as int);
    let k = weighted_matrix(ar, m, s, w);
    let rhs = weighted_rhs(p, m.nrows + m.ncols);
    let d = z.subrange(0, r);
    let x = z.subrange(r, r + c);
    let y = z.subrange(r + c, 2 * r + c);
    lemma_constants(e, ar);
    assert forall|i: int| 0 <= i < r implies e.same(
        #[trigger] row_times(e, s, i, d),
        row_times(e, m, i, x) - e.of(p[i]),
    ) by {
        let row = r + c + i;
        assert(e.same(row_times(e, k, row, z), e.of(rhs[row])));
        lemma_negated(e, ar, p[i]);
        assert(rhs[row] == p[i].negated());
        lemma_weighted_row(e, ar, m, s, w, z, row);
        let f1 = |j: int| weighted_entry(e, m, s, w, row, j) * e.of(z[j]);
        let f2 = |j: int| weighted_entry(e, m, s, w, row, r + j) * e.of(z[r + j]);
        let f3 = |j: int| weighted_entry(e, m, s, w, row, r + c + j) * e.of(z[r + c + j]);
        let g1 = |j: int| entry(e, s, i, j) * e.of(d[j]);
        let g2 = |j: int| entry(e, m, i, j) * e.of(x[j]);
        let n2 = |j: int| (-1) * g2(j) + 0 * g2(j);
        lemma_total_equal(f1, g1, r);
        assert forall|j: int| 0 <= j < c implies #[trigger] f2(j) == n2(j) by {
            let (a, b) = (entry(e, m, i, j), e.of(x[j]));
            assert((-a) * b == (-1) * (a * b) + 0 * (a * b)) by (nonlinear_arith);
        }
        lemma_total_equal(f2, n2, c);
        lemma_total_linear(g2, g2, -1, 0, c);
        assert(0 * total_of(g2, c) == 0) by (nonlinear_arith);
        assert forall|j: int| 0 <= j < r implies #[trigger] f3(j) == 0 by {
            assert(0 * e.of(z[r + c + j]) == 0) by (nonlinear_arith);
        }
        lemma_total_zero(f3, r);
        let (t, a, b, q) = (
            row_times(e, k, row, z),
            row_times(e, s, i, d),
            row_times(e, m, i, x),
            e.of(p[i]),
        );
        lemma_combine3(
            e,
            a - (b - q),
            -1,
            t - (a + (-1) * b + 0),
            1,
            t - e.of(rhs[row]),
            1,
            e.of(rhs[row]) - (-q),
        );
    }
    assert forall|i: int| 0 <= i < r implies e.nil(
        e.of(d[i]) + #[trigger] column_times(e, s, i, y),
    ) by {
        assert(e.same(row_times(e, k, i, z), e.of(rhs[i])));
        assert(rhs[i] == (Real { bits: ZERO }));
        lemma_weighted_row(e, ar, m, s, w, z, i);
        let f1 = |j: int| weighted_entry(e, m, s, w, i, j) * e.of(z[j]);
        let f2 = |j: int| weighted_entry(e, m, s, w, i, r + j) * e.of(z[r + j]);
        let f3 = |j: int| weighted_entry(e, m, s, w, i, r + c + j) * e.of(z[r + c + j]);
        let g3 = |j: int| entry(e, s, j, i) * e.of(y[j]);
        assert forall|j: int| 0 <= j < r && j != i implies #[trigger] f1(j) == 0 by {
            assert(0 * e.of(z[j]) == 0) by (nonlinear_arith);
        }
        lemma_total_single(f1, r, i);
        assert forall|j: int| 0 <= j < c implies #[trigger] f2(j) == 0 by {
            assert(0 * e.of(z[r + j]) == 0) by (nonlinear_arith);
        }
        lemma_total_zero(f2, c);
        lemma_total_equal(f3, g3, r);
        let (t, a, b) = (row_times(e, k, i, z), e.of(d[i]), column_times(e, s, i, y));
        assert(1 * a == a);
        lemma_combine3(
            e,
            a + b,
            -1,
            t - (a + 0 + b),
            1,
            t - e.of(rhs[i]),
            1,
            e.of(Real { bits: ZERO }) - 0,
        );
    }
    assert forall|l: int| 0 <= l < c implies e.same(
        e.of(w) * e.of(x[l]),
        #[trigger] column_times(e, m, l, y),
    ) by {
        let row = r + l;
        assert(e.same(row_times(e, k, row, z), e.of(rhs[row])));
        assert(rhs[row] == (Real { bits: ZERO }));
        lemma_weighted_row(e, ar, m, s, w, z, row);
        let f1 = |j: int| weighted_entry(e, m, s, w, row, j) * e.of(z[j]);
        let f2 = |j: int| weighted_entry(e, m, s, w, row, r + j) * e.of(z[r + j]);
        let f3 = |j: int| weighted_entry(e, m, s, w, row, r + c + j) * e.of(z[r + c + j]);
        let g3 = |j: int| entry(e, m, j, l) * e.of(y[j]);
        let n3 = |j: int| (-1) * g3(j) + 0 * g3(j);
        assert forall|j: int| 0 <= j < r implies #[trigger] f1(j) == 0 by {
            assert(0 * e.of(z[j]) == 0) by (nonlinear_arith);
        }
        lemma_total_zero(f1, r);
        assert forall|j: int| 0 <= j < c && j != l implies #[trigger] f2(j) == 0 by {
            assert(0 * e.of(z[r + j]) == 0) by (nonlinear_arith);
        }
        lemma_total_single(f2, c, l);
        assert forall|j: int| 0 <= j < r implies #[trigger] f3(j) == n3(j) by {
            let (a, b) = (entry(e, m, j, l), e.of(y[j]));
            assert((-a) * b == (-1) * (a * b) + 0 * (a * b)) by (nonlinear_arith);
        }
        lemma_total_equal(f3, n3, r);
        lemma_total_linear(g3, g3, -1, 0, r);
        assert(0 * total_of(g3, r) == 0) by (nonlinear_arith);
        let (t, a, b) = (
            row_times(e, k, row, z),
            e.of(w) * e.of(x[l]),
            column_times(e, m, l, y),
        );
        lemma_combine3(
            e,
            a - b,
            -1,
            t - (0 + a + (-1) * b),
            1,
            t - e.of(rhs[row]),
            1,
            e.of(Real { bits: ZERO }) - 0,
        );
    }
}

/// A row of the weighted saddle matrix times a vector, in three parts.
proof fn lemma_weighted_row<A: Arithmetic>(
    e: Exact,
    ar: A,
    m: Csc,
    s: Csc,
    w: Real,
    z: Seq<Real>,
    row: int,
)
    requires
        e.computes(ar),
        m.wf(),
        s.wf(),
        s.nrows == m.nrows,
        s.ncols == m.nrows,
        2 * m.nrows + m.ncols <= u32::MAX,
        weighted_matrix(ar, m, s, w).wf(),
        0 <= row < 2 * m.nrows + m.ncols,
    ensures
        ({
            let (r, c) = (m.nrows as int, m.ncols as int);
            e.same(
                row_times(e, weighted_matrix(ar, m, s, w), row, z),
                total_of(|j: int| weighted_entry(e, m, s, w, row, j) * e.of(z[j]), r) + total_of(
                    |j: int| weighted_entry(e, m, s, w, row, r + j) * e.of(z[r + j]),
                    c,
                ) + total_of(
                    |j: int| weighted_entry(e, m, s, w, row, r + c + j) * e.of(z[r + c + j]),
                    r,
                ),
            )
        }),
{
    let (r, c) = (m.nrows as int, m.ncols as int);
    let k = weighted_matrix(ar, m, s, w);
    let f = |j: int| entry(e, k, row, j) * e.of(z[j]);
    let g = |j: int| weighted_entry(e, m, s, w, row, j) * e.of(z[j]);
    assert forall|j: int| 0 <= j < 2 * r + c implies e.same(#[trigger] f(j), g(j)) by {
        lemma_weighted_entry(e, ar, m, s, w, row, j);
        let (a, b, v) = (entry(e, k, row, j), weighted_entry(e, m, s, w, row, j), e.of(z[j]));
        lemma_nil_times(e, v, a - b);
        assert(v * (a - b) == a * v - b * v) by (nonlinear_arith);
    }
    lemma_total_same(e, f, g, 2 * r + c);
    lemma_total_split(g, r, c + r);
    let after = |j: int| g(r + j);
    lemma_total_split(after, c, r);
    let last = |j: int| after(c + j);
    let f2 = |j: int| weighted_entry(e, m, s, w, row, r + j) * e.of(z[r + j]);
    let f3 = |j: int| weighted_entry(e, m, s, w, row, r + c + j) * e.of(z[r + c + j]);
    assert forall|j: int| 0 <= j < c implies #[trigger] after(j) == f2(j) by {}
    lemma_total_equal(after, f2, c);
    assert forall|j: int| 0 <= j < r implies #[trigger] last(j) == f3(j) by {
        assert(r + (c + j) == r + c + j);
    }
    lemma_total_equal(last, f3, r);
}

} // verus!
