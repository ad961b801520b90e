//! What a quadratic program says of the problem that it states.

use crate::arithmetic::{functional, Arithmetic};
use crate::backend::{Backend, ConicAttempt, QuadraticProgram, SolverStatus};
use crate::balance::lemma_entry_outside;
use crate::bounds::BoxBounds;
use crate::conic::{
    conic_answer, constraint_terms, face_bounds, face_terms, faces, left_terms, objective_terms,
    opposed, retried, settings_of, states, Face,
};
use crate::double::{Real, MINUS_ONE, ONE, ZERO};
use crate::entries::{
    assembling_adds_up, entry, entry_term, lemma_diagonal_placed, lemma_placed_joined,
    lemma_triplets_placed, placed, placed_term, row_times,
};
use crate::exact::{
    lemma_combine, lemma_combine3, lemma_constants, lemma_negated, lemma_nil_sum, lemma_nil_times,
    lemma_nil_zero, lemma_same_trans, lemma_total_linear, lemma_total_same, lemma_total_single,
    lemma_total_split, lemma_total_zero, total_of, Exact,
};
use crate::optimality::regularization_of;
use crate::saddle::diagonal_from;
use crate::sparse::{lemma_has_column, Csc, Triplet};
use crate::weight::MetricWeight;
use vstd::prelude::*;

verus! {

/// Row `i` of the weight times a vector; without a weight, its entry `i`.
pub open spec fn left_times<B: Backend>(
    e: Exact,
    weight: Option<&MetricWeight<B>>,
    i: int,
    d: Seq<Real>,
) -> int {
    match weight {
        Some(w) => row_times(e, w.s@, i, d),
        None => e.of(d[i]),
    }
}

/// Whether the faces are those of the first `k` unknowns: each finite bound once, and
/// nothing else.
proof fn lemma_faces(lower: Seq<Real>, upper: Seq<Real>, k: int)
    requires
        0 <= k <= lower.len(),
        k <= upper.len(),
    ensures
        forall|j: int|
            0 <= j < faces(lower, upper, k).len() ==> {
                let f = #[trigger] faces(lower, upper, k)[j];
                &&& 0 <= f.unknown < k
                &&& f.bound.finite()
                &&& f.bound == if f.above {
                    upper[f.unknown]
                } else {
                    lower[f.unknown]
                }
            },
        forall|u: int|
            0 <= u < k && (#[trigger] lower[u]).finite() ==> faces(lower, upper, k).contains(
                Face { unknown: u, above: false, bound: lower[u] },
            ),
        forall|u: int|
            0 <= u < k && (#[trigger] upper[u]).finite() ==> faces(lower, upper, k).contains(
                Face { unknown: u, above: true, bound: upper[u] },
            ),
    decreases k,
{
    if k > 0 {
        lemma_faces(lower, upper, k - 1);
        let before = faces(lower, upper, k - 1);
        let now = faces(lower, upper, k);
        let first = Face { unknown: k - 1, above: false, bound: lower[k - 1] };
        let second = Face { unknown: k - 1, above: true, bound: upper[k - 1] };
        let below = if lower[k - 1].finite() {
            before.push(first)
        } else {
            before
        };
        assert forall|f: Face| before.contains(f) implies #[trigger] now.contains(f) by {
            let j = choose|j: int| 0 <= j < before.len() && before[j] == f;
            assert(below[j] == f);
            assert(now[j] == f);
        }
        if lower[k - 1].finite() {
            assert(below[before.len() as int] == first);
            assert(now[before.len() as int] == first);
        }
        if upper[k - 1].finite() {
            assert(now[below.len() as int] == second);
        }
        assert forall|j: int| 0 <= j < now.len() implies ({
            let f = #[trigger] now[j];
            &&& 0 <= f.unknown < k
            &&& f.bound.finite()
            &&& f.bound == if f.above {
                upper[f.unknown]
            } else {
                lower[f.unknown]
            }
        }) by {
            if j < before.len() {
                assert(now[j] == before[j]);
            } else if j < below.len() {
                assert(now[j] == first);
            } else {
                assert(now[j] == second);
            }
        }
    }
}

/// What the equality rows put into a place.
proof fn lemma_opposed_placed<A: Arithmetic>(e: Exact, ar: A, m: Csc, right: int, i: int, j: int)
    requires
        e.computes(ar),
        m.wf(),
        0 <= right,
        right + m.ncols <= u32::MAX,
        m.nrows <= u32::MAX,
    ensures
        e.same(placed(e, opposed(m, right), i, j), -entry(e, m, i, j - right)),
{
    let t = opposed(m, right);
    let n = m.nnz() as int;
    let f = |l: int| placed_term(e, t, i, j, l);
    let g = |l: int| entry_term(e, m, i, j - right, l);
    let h = |l: int| (-1) * g(l) + 0 * g(l);
    assert forall|l: int| 0 <= l < n implies e.same(#[trigger] f(l), h(l)) by {
        lemma_has_column(m, l);
        lemma_negated(e, ar, m.values[l]);
        lemma_nil_zero(e);
        let x = g(l);
        assert((-1) * x + 0 * x == -x) by (nonlinear_arith);
    }
    lemma_total_same(e, f, h, n);
    lemma_total_linear(g, g, -1, 0, n);
    let s = total_of(g, n);
    assert((-1) * s + 0 * s == -s) by (nonlinear_arith);
}

/// What the inequality rows put into a place.
proof fn lemma_face_placed(e: Exact, f: Seq<Face>, m: int, i: int, j: int)
    requires
        0 <= m,
        forall|k: int| 0 <= k < f.len() ==> 0 <= (#[trigger] f[k]).unknown && m + f[k].unknown
            <= u32::MAX,
        m + f.len() <= u32::MAX,
    ensures
        placed(e, face_terms(f, m), i, j) == if m <= i < m + f.len() && j == m + f[i - m].unknown {
            e.of(
                Real {
                    bits: if f[i - m].above {
                        ONE
                    } else {
                        MINUS_ONE
                    },
                },
            )
        } else {
            0
        },
{
    let t = face_terms(f, m);
    let n = f.len() as int;
    let g = |l: int| placed_term(e, t, i, j, l);
    if m <= i < m + n {
        assert forall|l: int| 0 <= l < n && l != i - m implies #[trigger] g(l) == 0 by {
            assert(0 <= f[l].unknown);
        }
        assert(0 <= f[i - m].unknown);
        lemma_total_single(g, n, i - m);
    } else {
        assert forall|l: int| 0 <= l < n implies #[trigger] g(l) == 0 by {
            assert(0 <= f[l].unknown);
        }
        lemma_total_zero(g, n);
    }
}

proof fn lemma_left_placed<B: Backend>(
    e: Exact,
    weight: Option<&MetricWeight<B>>,
    m: nat,
    i: int,
    j: int,
)
    requires
        m <= u32::MAX,
        weight matches Some(w) ==> w.s@.wf() && w.s@.nrows == m && w.s@.ncols == m,
    ensures
        placed(e, left_terms(weight, m), i, j) == match weight {
            Some(w) => entry(e, w.s@, i, j),
            None => if i == j && 0 <= i < m {
                e.of(Real { bits: ONE })
            } else {
                0
            },
        },
{
    match weight {
        Some(w) => {
            lemma_triplets_placed(e, w.s@, i, j);
        },
        None => {
            lemma_diagonal_placed(
                e,
                diagonal_from(0, m, Real { bits: ONE }),
                0,
                Real { bits: ONE },
                i,
                j,
            );
        },
    }
}

/// The equality rows of a program say that the weighted residual is what it should be: the
/// row times `(d, x)` meets its right-hand side where `S d = M x - p`.
pub proof fn equality_rows_state_the_residual<A: Arithmetic, B: Backend>(
    e: Exact,
    ar: A,
    qp: QuadraticProgram,
    m: Csc,
    p: Seq<Real>,
    w: Real,
    bounds: BoxBounds,
    weight: Option<&MetricWeight<B>>,
    z: Seq<Real>,
    i: int,
)
    requires
        functional(ar),
        e.computes(ar),
        m.wf(),
        p.len() == m.nrows,
        bounds.lower@.len() == m.ncols,
        bounds.upper@.len() == m.ncols,
        weight matches Some(s) ==> s.s@.wf() && s.s@.nrows == m.nrows && s.s@.ncols == m.nrows,
        m.nrows + faces(bounds.lower@, bounds.upper@, m.ncols as int).len() <= u32::MAX,
        m.nrows + m.ncols <= u32::MAX,
        states(qp, ar, m, p, w, bounds, weight),
        z.len() == m.nrows + m.ncols,
        0 <= i < m.nrows,
    ensures
        ({
            let d = z.subrange(0, m.nrows as int);
            let x = z.subrange(m.nrows as int, z.len() as int);
            e.same(
                row_times(e, qp.a@, i, z) - e.of(qp.b@[i]),
                left_times(e, weight, i, d) - (row_times(e, m, i, x) - e.of(p[i])),
            )
        }),
{
    let f = faces(bounds.lower@, bounds.upper@, m.ncols as int);
    let (r, c) = (m.nrows as int, m.ncols as int);
    lemma_faces(bounds.lower@, bounds.upper@, c);
    let d = z.subrange(0, r);
    let x = z.subrange(r, z.len() as int);
    let t = constraint_terms(m, weight, f);
    let left = left_terms(weight, m.nrows);
    let mid = opposed(m, r);
    let low = face_terms(f, r);
    let g = |j: int| entry(e, qp.a@, i, j) * e.of(z[j]);
    lemma_total_split(g, r, c);
    let after = |j: int| g(r + j);
    lemma_constants(e, ar);
    assert forall|j: int| 0 <= j < r + c implies e.same(
        #[trigger] entry(e, qp.a@, i, j),
        placed(e, left, i, j) - entry(e, m, i, j - r),
    ) by {
        assembling_adds_up(e, ar, (r + f.len()) as nat, (r + c) as nat, t, i, j);
        lemma_placed_joined(e, left + mid, low, i, j);
        lemma_placed_joined(e, left, mid, i, j);
        lemma_opposed_placed(e, ar, m, r, i, j);
        assert forall|k: int| 0 <= k < f.len() implies 0 <= (#[trigger] f[k]).unknown && r
            + f[k].unknown <= u32::MAX by {}
        lemma_face_placed(e, f, r, i, j);
        let (a, b, q) = (
            entry(e, qp.a@, i, j),
            placed(e, left, i, j),
            placed(e, mid, i, j),
        );
        lemma_nil_sum(e, a - (b + q + 0), q - (-entry(e, m, i, j - r)));
    }
    match weight {
        Some(s) => {
            let h = |j: int| entry(e, s.s@, i, j) * e.of(d[j]);
            assert forall|j: int| 0 <= j < r implies e.same(#[trigger] g(j), h(j)) by {
                assert(e.same(
                    entry(e, qp.a@, i, j),
                    placed(e, left, i, j) - entry(e, m, i, j - r),
                ));
                lemma_left_placed(e, weight, m.nrows, i, j);
                lemma_entry_outside(e, m, i, j - r);
                let (a, b, v) = (entry(e, qp.a@, i, j), entry(e, s.s@, i, j), e.of(z[j]));
                lemma_nil_times(e, v, a - b);
                assert(v * (a - b) == a * v - b * v) by (nonlinear_arith);
            }
            lemma_total_same(e, g, h, r);
        },
        None => {
            let h = |j: int|
                if j == i {
                    e.of(d[i])
                } else {
                    0
                };
            assert forall|j: int| 0 <= j < r implies e.same(#[trigger] g(j), h(j)) by {
                assert(e.same(
                    entry(e, qp.a@, i, j),
                    placed(e, left, i, j) - entry(e, m, i, j - r),
                ));
                lemma_left_placed(e, weight, m.nrows, i, j);
                lemma_entry_outside(e, m, i, j - r);
                let (a, v, o) = (entry(e, qp.a@, i, j), e.of(z[j]), e.of(Real { bits: ONE }));
                if j == i {
                    lemma_same_trans(e, a, o, 1);
                    lemma_nil_times(e, v, a - 1);
                    assert(v * (a - 1) == a * v - v) by (nonlinear_arith);
                } else {
                    lemma_nil_times(e, v, a - 0);
                    assert(v * (a - 0) == a * v) by (nonlinear_arith);
                }
            }
            lemma_total_same(e, g, h, r);
            lemma_total_single(h, r, i);
        },
    }
    let mx = |j: int| entry(e, m, i, j) * e.of(x[j]);
    let neg = |j: int| (-1) * mx(j) + 0 * mx(j);
    assert forall|j: int| 0 <= j < c implies e.same(#[trigger] after(j), neg(j)) by {
        assert(e.same(
            entry(e, qp.a@, i, r + j),
            placed(e, left, i, r + j) - entry(e, m, i, r + j - r),
        ));
        lemma_left_placed(e, weight, m.nrows, i, r + j);
        if weight is Some {
            lemma_entry_outside(e, weight->0.s@, i, r + j);
        }
        let (a, b, v) = (entry(e, qp.a@, i, r + j), entry(e, m, i, j), e.of(x[j]));
        lemma_nil_times(e, v, a - (-b));
        assert(v * (a - (-b)) == a * v - ((-1) * (b * v) + 0 * (b * v))) by (nonlinear_arith);
    }
    lemma_total_same(e, after, neg, c);
    lemma_total_linear(mx, mx, -1, 0, c);
    let s = total_of(mx, c);
    assert((-1) * s + 0 * s == -s) by (nonlinear_arith);
    lemma_negated(e, ar, p[i]);
    assert(qp.b@[i] == p[i].negated());
    let (t1, t2, l, b, q) = (
        total_of(g, r),
        total_of(after, c),
        left_times(e, weight, i, d),
        e.of(qp.b@[i]),
        e.of(p[i]),
    );
    lemma_combine3(
        e,
        (t1 + t2 - b) - (l - (s - q)),
        1,
        t1 - l,
        1,
        t2 - (-s),
        -1,
        b - (-q),
    );
}

/// Every finite bound has one inequality row, and what is left of its right-hand side is how
/// far the unknown is inside the bound.
pub proof fn inequality_rows_state_the_bounds<A: Arithmetic, B: Backend>(
    e: Exact,
    ar: A,
    qp: QuadraticProgram,
    m: Csc,
    p: Seq<Real>,
    w: Real,
    bounds: BoxBounds,
    weight: Option<&MetricWeight<B>>,
    z: Seq<Real>,
    u: int,
)
    requires
        functional(ar),
        e.computes(ar),
        m.wf(),
        p.len() == m.nrows,
        bounds.lower@.len() == m.ncols,
        bounds.upper@.len() == m.ncols,
        weight matches Some(s) ==> s.s@.wf() && s.s@.nrows == m.nrows && s.s@.ncols == m.nrows,
        m.nrows + faces(bounds.lower@, bounds.upper@, m.ncols as int).len() <= u32::MAX,
        m.nrows + m.ncols <= u32::MAX,
        states(qp, ar, m, p, w, bounds, weight),
        z.len() == m.nrows + m.ncols,
        0 <= u < m.ncols,
    ensures
        bounds.lower@[u].finite() ==> exists|row: int|
            m.nrows <= row < qp.a.nrows && e.same(
                e.of(qp.b@[row]) - #[trigger] row_times(e, qp.a@, row, z),
                e.of(z[m.nrows + u]) - e.of(bounds.lower@[u]),
            ),
        bounds.upper@[u].finite() ==> exists|row: int|
            m.nrows <= row < qp.a.nrows && e.same(
                e.of(qp.b@[row]) - #[trigger] row_times(e, qp.a@, row, z),
                e.of(bounds.upper@[u]) - e.of(z[m.nrows + u]),
            ),
{
    let f = faces(bounds.lower@, bounds.upper@, m.ncols as int);
    lemma_faces(bounds.lower@, bounds.upper@, m.ncols as int);
    if bounds.lower@[u].finite() {
        let face = Face { unknown: u, above: false, bound: bounds.lower@[u] };
        assert(f.contains(face));
        let j = choose|j: int| 0 <= j < f.len() && f[j] == face;
        lemma_face_row(e, ar, qp, m, p, w, bounds, weight, z, j);
        assert(e.same(
            e.of(qp.b@[m.nrows + j]) - row_times(e, qp.a@, m.nrows + j, z),
            e.of(z[m.nrows + u]) - e.of(bounds.lower@[u]),
        ));
    }
    if bounds.upper@[u].finite() {
        let face = Face { unknown: u, above: true, bound: bounds.upper@[u] };
        assert(f.contains(face));
        let j = choose|j: int| 0 <= j < f.len() && f[j] == face;
        lemma_face_row(e, ar, qp, m, p, w, bounds, weight, z, j);
        assert(e.same(
            e.of(qp.b@[m.nrows + j]) - row_times(e, qp.a@, m.nrows + j, z),
            e.of(bounds.upper@[u]) - e.of(z[m.nrows + u]),
        ));
    }
}

proof fn lemma_face_row<A: Arithmetic, B: Backend>(
    e: Exact,
    ar: A,
    qp: QuadraticProgram,
    m: Csc,
    p: Seq<Real>,
    w: Real,
    bounds: BoxBounds,
    weight: Option<&MetricWeight<B>>,
    z: Seq<Real>,
    j: int,
)
    requires
        functional(ar),
        e.computes(ar),
        m.wf(),
        p.len() == m.nrows,
        bounds.lower@.len() == m.ncols,
        bounds.upper@.len() == m.ncols,
        weight matches Some(s) ==> s.s@.wf() && s.s@.nrows == m.nrows && s.s@.ncols == m.nrows,
        m.nrows + faces(bounds.lower@, bounds.upper@, m.ncols as int).len() <= u32::MAX,
        m.nrows + m.ncols <= u32::MAX,
        states(qp, ar, m, p, w, bounds, weight),
        z.len() == m.nrows + m.ncols,
        0 <= j < faces(bounds.lower@, bounds.upper@, m.ncols as int).len(),
    ensures
        ({
            let f = faces(bounds.lower@, bounds.upper@, m.ncols as int)[j];
            let x = e.of(z[m.nrows + f.unknown]);
            e.same(
                e.of(qp.b@[m.nrows + j]) - row_times(e, qp.a@, m.nrows + j, z),
                if f.above {
                    e.of(f.bound) - x
                } else {
                    x - e.of(f.bound)
                },
            )
        }),
{
    let f = faces(bounds.lower@, bounds.upper@, m.ncols as int);
    let (r, c) = (m.nrows as int, m.ncols as int);
    lemma_faces(bounds.lower@, bounds.upper@, c);
    let face = f[j];
    let row = r + j;
    let t = constraint_terms(m, weight, f);
    let left = left_terms(weight, m.nrows);
    let mid = opposed(m, r);
    let low = face_terms(f, r);
    let g = |k: int| entry(e, qp.a@, row, k) * e.of(z[k]);
    let at = r + face.unknown;
    let sign = if face.above {
        1
    } else {
        -1int
    };
    let h = |k: int|
        if k == at {
            sign * e.of(z[at])
        } else {
            0
        };
    lemma_constants(e, ar);
    lemma_negated(e, ar, Real { bits: ONE });
    assert((Real { bits: ONE }).negated() == (Real { bits: MINUS_ONE }));
    assert forall|k: int| 0 <= k < r + c implies e.same(#[trigger] g(k), h(k)) by {
        assembling_adds_up(e, ar, (r + f.len()) as nat, (r + c) as nat, t, row, k);
        lemma_placed_joined(e, left + mid, low, row, k);
        lemma_placed_joined(e, left, mid, row, k);
        lemma_opposed_placed(e, ar, m, r, row, k);
        lemma_entry_outside(e, m, row, k - r);
        lemma_left_placed(e, weight, m.nrows, row, k);
        if weight is Some {
            lemma_entry_outside(e, weight->0.s@, row, k);
        }
        assert forall|l: int| 0 <= l < f.len() implies 0 <= (#[trigger] f[l]).unknown && r
            + f[l].unknown <= u32::MAX by {}
        lemma_face_placed(e, f, r, row, k);
        let (a, q, v) = (entry(e, qp.a@, row, k), placed(e, mid, row, k), e.of(z[k]));
        if k == at {
            let o = e.of(Real { bits: if face.above { ONE } else { MINUS_ONE } });
            let one = e.of(Real { bits: ONE });
            if face.above {
                lemma_combine3(e, a - 1, 1, a - (0 + q + o), 1, q - 0, 1, one - 1);
            } else {
                lemma_combine(e, o + 1, 1, o - (-one), -1, one - 1);
                lemma_combine3(e, a + 1, 1, a - (0 + q + o), 1, q - 0, 1, o + 1);
            }
            lemma_nil_times(e, v, a - sign);
            assert(v * (a - sign) == a * v - sign * v) by (nonlinear_arith);
        } else {
            lemma_nil_sum(e, a - (0 + q + 0), q - 0);
            lemma_nil_times(e, v, a);
            assert(v * a == a * v) by (nonlinear_arith);
        }
    }
    lemma_total_same(e, g, h, r + c);
    lemma_total_single(h, r + c, at);
    let x = e.of(z[at]);
    let b = e.of(qp.b@[row]);
    lemma_negated(e, ar, face.bound);
    assert(qp.b@[row] == face_bounds(f)[j]);
    let s = row_times(e, qp.a@, row, z);
    assert(1 * x == x && (-1) * x == -x) by (nonlinear_arith);
    if face.above {
        lemma_combine(e, (b - s) - (e.of(face.bound) - x), -1, s - x, 0, s - x);
    } else {
        lemma_combine(
            e,
            (b - s) - (x - e.of(face.bound)),
            1,
            b - (-e.of(face.bound)),
            -1,
            s - (-x),
        );
    }
}

/// The objective of a program is `1/2 |d|^2 + 1/2 w |x|^2`: its matrix times `(d, x)` is
/// `(d, w x)`.
pub proof fn objectives_are_residual_and_regularization<A: Arithmetic, B: Backend>(
    e: Exact,
    ar: A,
    qp: QuadraticProgram,
    m: Csc,
    p: Seq<Real>,
    w: Real,
    bounds: BoxBounds,
    weight: Option<&MetricWeight<B>>,
    z: Seq<Real>,
    i: int,
)
    requires
        functional(ar),
        e.computes(ar),
        m.wf(),
        m.nrows + m.ncols <= u32::MAX,
        states(qp, ar, m, p, w, bounds, weight),
        z.len() == m.nrows + m.ncols,
        0 <= i < m.nrows + m.ncols,
    ensures
        e.same(
            row_times(e, qp.p@, i, z),
            (if i < m.nrows {
                1
            } else {
                regularization_of(e, w)
            }) * e.of(z[i]),
        ),
{
    let (r, c) = (m.nrows as int, m.ncols as int);
    let n = (r + c) as nat;
    let one = Real { bits: ONE };
    let top = diagonal_from(0, m.nrows, one);
    let low = diagonal_from(r, m.ncols, w);
    let t = objective_terms(m.nrows, m.ncols, w);
    let factor = if i < r {
        1
    } else {
        regularization_of(e, w)
    };
    let g = |j: int| entry(e, qp.p@, i, j) * e.of(z[j]);
    let h = |j: int|
        if j == i {
            factor * e.of(z[i])
        } else {
            0
        };
    lemma_constants(e, ar);
    assert forall|j: int| 0 <= j < r + c implies e.same(#[trigger] g(j), h(j)) by {
        assembling_adds_up(e, ar, n, n, t, i, j);
        lemma_diagonal_placed(e, top, 0, one, i, j);
        let (a, v) = (entry(e, qp.p@, i, j), e.of(z[j]));
        if (Real { bits: ZERO }).below(w) {
            lemma_placed_joined(e, top, low, i, j);
            lemma_diagonal_placed(e, low, r, w, i, j);
        } else {
            lemma_placed_joined(e, top, Seq::<Triplet>::empty(), i, j);
            lemma_total_zero(|l: int| placed_term(e, Seq::<Triplet>::empty(), i, j, l), 0);
        }
        lemma_nil_zero(e);
        if j == i {
            if i < r {
                lemma_same_trans(e, a, e.of(one), 1);
            }
            assert(e.same(a, factor));
            lemma_nil_times(e, v, a - factor);
            assert(v * (a - factor) == a * v - factor * v) by (nonlinear_arith);
        } else {
            lemma_nil_times(e, v, a - 0);
            assert(v * (a - 0) == a * v) by (nonlinear_arith);
        }
    }
    lemma_total_same(e, g, h, r + c);
    lemma_total_single(h, r + c, i);
}

/// An attempt that the solver does not call solved, or almost solved, is refused; one that
/// it calls so is refused only where its solution misses the residual or a bound.
pub proof fn only_solved_attempts_are_accepted<A: Arithmetic, B: Backend>(
    ar: A,
    qp: QuadraticProgram,
    m: Csc,
    p: Seq<Real>,
    bounds: BoxBounds,
    weight: Option<&MetricWeight<B>>,
    tol: Real,
    geometric_step: bool,
    attempt: ConicAttempt,
    x: Vec<Real>,
)
    requires
        conic_answer(ar, qp, m, p, bounds, weight, tol, geometric_step, attempt, Ok(x)),
    ensures
        attempt.status == SolverStatus::Solved || attempt.status == SolverStatus::AlmostSolved,
        attempt.x@.len() == m.nrows + m.ncols,
        forall|k: int|
            0 <= k < m.ncols ==> #[trigger] x@[k] == attempt.x@[m.nrows + k],
        x@.len() == m.ncols,
{
}

/// The first attempt presolves and scales by `1e-4` to `1e4`; the second, which follows an
/// end as infeasible or for want of iterations, does not presolve and scales by `1e-8` to
/// `1e8`.  Both have at least one iteration and no smaller tolerance than `1e-10`.
pub proof fn attempts_differ_in_presolving_and_scaling(max_iter: nat, tol: Real, retry: bool)
    ensures
        ({
            let s = settings_of(max_iter, tol, retry);
            &&& s.presolve == !retry
            &&& s.max_iter >= 1
            &&& 1 <= max_iter <= u32::MAX ==> s.max_iter == max_iter
            &&& s.tolerance == tol.larger(Real { bits: 0x3DDB_7CDF_D9D7_BDBB })
            &&& s.min_scaling == (Real { bits: if retry { 0x3E45_798E_E230_8C3A } else { 0x3F1A_36E2_EB1C_432D } })
            &&& s.max_scaling == (Real { bits: if retry { 0x4197_D784_0000_0000 } else { 0x40C3_8800_0000_0000 } })
        }),
        retried(SolverStatus::PrimalInfeasible),
        retried(SolverStatus::MaxIterations),
        !retried(SolverStatus::Solved),
        !retried(SolverStatus::AlmostSolved),
        !retried(SolverStatus::Other),
{
}

} // verus!
