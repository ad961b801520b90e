//! Direct solvers: normal equations, saddle systems and sparse QR.

use crate::arithmetic::{functional, Arithmetic};
use crate::backend::{factored_and_solved, ldl_solve, Backend};
use crate::double::{Real, ONE, ZERO};
use crate::error::{Complaint, TheseusError};
use crate::saddle::{
    build_augmented_system, diagonal_from, extended, push_diagonal, saddle_indexable, saddle_matrix,
    saddle_solved, solve_saddle_pseudoinverse,
};
use crate::sparse::{
    assembled, diagonally_loaded, lemma_column, lemma_has_column, multipliable, placed, product,
    Csc, SparseColMatOwned, Triplet,
};
use crate::types::FactorizationStrategy;
use crate::vector::{negate, negatives, slice, zeros};
use crate::weight::MetricWeight;
use vstd::prelude::*;

verus! {

/// The tolerance `1e-11`.
pub const SADDLE_TOL: u64 = 0x3DA5_FD7F_E179_6495;

/// The matrix `M'M`, with `w` on its diagonal if that is positive.
pub open spec fn gram_matrix<A: Arithmetic>(ar: A, m: Csc, w: Real) -> Csc {
    let g = product(ar, m.transposed(), m);
    if (Real { bits: ZERO }).below(w) {
        diagonally_loaded(ar, g, w)
    } else {
        g
    }
}

/// Whether the normal equations can be indexed in 32 bits.
pub open spec fn gram_indexable<A: Arithmetic>(ar: A, m: Csc, w: Real) -> bool {
    &&& multipliable(m.transposed(), m)
    &&& (Real { bits: ZERO }).below(w) ==> product(ar, m.transposed(), m).nnz() + m.ncols
        <= u32::MAX
}

/// The matrix of the normal equations.
pub fn gram_of<A: Arithmetic>(ar: &A, m_mat: &SparseColMatOwned, w: Real) -> (r: Result<
    SparseColMatOwned,
    TheseusError,
>)
    requires
        m_mat.wf(),
        m_mat.nrows < usize::MAX,
    ensures
        match r {
            Ok(g) => {
                &&& g.wf()
                &&& g.nrows == m_mat.ncols
                &&& g.ncols == m_mat.ncols
                &&& functional(*ar) ==> gram_indexable(*ar, m_mat@, w)
                &&& functional(*ar) ==> g@ == gram_matrix(*ar, m_mat@, w)
            },
            Err(e) => {
                &&& e == TheseusError::Solver(Complaint::Triplets)
                &&& functional(*ar) ==> !gram_indexable(*ar, m_mat@, w)
            },
        },
{
    let m_t = m_mat.transpose();
    match SparseColMatOwned::sparse_times_sparse(ar, &m_t, m_mat) {
        Ok(g) => if w.gt(Real { bits: ZERO }) {
            match g.add_diagonal(ar, w) {
                Ok(loaded) => Ok(loaded),
                Err(_) => Err(TheseusError::Solver(Complaint::Triplets)),
            }
        } else {
            Ok(g)
        },
        Err(_) => Err(TheseusError::Solver(Complaint::Triplets)),
    }
}

/// The normal equations of `M x = p`: the matrix `M'M + w I` and the right-hand side `M'p`.
pub fn gram_system<A: Arithmetic>(ar: &A, m_mat: &SparseColMatOwned, p: &Vec<Real>, w: Real) -> (r:
    Result<(SparseColMatOwned, Vec<Real>), TheseusError>)
    requires
        m_mat.wf(),
        m_mat.nrows < usize::MAX,
        p@.len() == m_mat.nrows,
    ensures
        match r {
            Ok(s) => {
                &&& s.0.wf()
                &&& s.0.nrows == m_mat.ncols
                &&& s.0.ncols == m_mat.ncols
                &&& s.1@.len() == m_mat.ncols
                &&& functional(*ar) ==> gram_indexable(*ar, m_mat@, w)
                &&& functional(*ar) ==> s.0@ == gram_matrix(*ar, m_mat@, w)
                &&& functional(*ar) ==> s.1@ == m_mat@.transposed().applied(*ar, p@)
            },
            Err(e) => {
                &&& e == TheseusError::Solver(Complaint::Triplets)
                &&& functional(*ar) ==> !gram_indexable(*ar, m_mat@, w)
            },
        },
{
    match gram_of(ar, m_mat, w) {
        Ok(g) => Ok((g, m_mat.transpose().matvec(ar, p))),
        Err(e) => Err(e),
    }
}

/// What a solve of normal equations answers to a failure of the backend.
pub open spec fn gram_failure(e: TheseusError, w: Real) -> TheseusError {
    if w.level(Real { bits: ZERO }) {
        TheseusError::Solver(Complaint::SingularGram)
    } else {
        e
    }
}

/// Whether a solve of normal equations can answer `r`.
pub open spec fn gram_solved<B: Backend>(
    b: B,
    g: Csc,
    rhs: Seq<Real>,
    w: Real,
    r: Result<Vec<Real>, TheseusError>,
) -> bool {
    exists|reply: Result<Vec<Real>, TheseusError>|
        {
            &&& #[trigger] factored_and_solved(b, g, FactorizationStrategy::LDL, rhs, reply)
            &&& match reply {
                Ok(x) => r == Ok::<_, TheseusError>(x),
                Err(e) => r == Err::<Vec<Real>, _>(gram_failure(e, w)),
            }
        }
}

/// Solves normal equations; without regularization a failure means that they are singular.
pub fn gram_ldl_solve<B: Backend>(b: &B, g: &SparseColMatOwned, rhs: &Vec<Real>, w: Real) -> (r:
    Result<Vec<Real>, TheseusError>)
    requires
        g.wf(),
        g.nrows == g.ncols,
    ensures
        gram_solved(*b, g@, rhs@, w, r),
{
    let reply = ldl_solve(b, g, rhs);
    let ghost given = reply;
    assert(factored_and_solved(*b, g@, FactorizationStrategy::LDL, rhs@, given));
    match reply {
        Ok(x) => Ok(x),
        Err(e) => {
            if w.equals(Real { bits: ZERO }) {
                Err(TheseusError::Solver(Complaint::SingularGram))
            } else {
                Err(e)
            }
        },
    }
}

/// Whether `f` can be the first attempt at a factor: of the one that is held, or anew.
pub open spec fn factor_attempted<B: Backend>(
    b: B,
    g: Csc,
    held: Option<B::Factor>,
    f: Result<B::Factor, TheseusError>,
) -> bool {
    match held {
        None => factored_anew(b, g, f),
        Some(old_factor) => exists|m: SparseColMatOwned|
            m@ == g && #[trigger] call_ensures(B::refactor, (&b, old_factor, &m), f),
    }
}

/// Whether `f` can be a new factor.
pub open spec fn factored_anew<B: Backend>(
    b: B,
    g: Csc,
    f: Result<B::Factor, TheseusError>,
) -> bool {
    exists|m: SparseColMatOwned|
        m@ == g && #[trigger] call_ensures(B::factor, (&b, &m, FactorizationStrategy::LDL), f)
}

/// Whether these can be the first attempt at a factor and the last, which is another one
/// only where the first failed.
pub open spec fn factors_attempted<B: Backend>(
    b: B,
    g: Csc,
    held: Option<B::Factor>,
    first: Result<B::Factor, TheseusError>,
    last: Result<B::Factor, TheseusError>,
) -> bool {
    &&& factor_attempted(b, g, held, first)
    &&& if first is Ok {
        last == first
    } else {
        factored_anew(b, g, last)
    }
}

/// Whether `r` can be the solution with a factor.
pub open spec fn solved_with<B: Backend>(
    b: B,
    factor: B::Factor,
    rhs: Seq<Real>,
    w: Real,
    r: Result<Vec<Real>, TheseusError>,
) -> bool {
    exists|v: Vec<Real>, reply: Result<Vec<Real>, TheseusError>|
        {
            &&& v@ == rhs
            &&& #[trigger] call_ensures(B::solve, (&b, &factor, &v), reply)
            &&& match reply {
                Ok(x) => r == Ok::<_, TheseusError>(x),
                Err(e) => r == Err::<Vec<Real>, _>(gram_failure(e, w)),
            }
        }
}

/// Whether `r` can be the solution, with the factor that is held updated, or made anew
/// where there is none or it cannot be updated.  The factor is kept only where it solves.
pub open spec fn cached_solve<B: Backend>(
    b: B,
    g: Csc,
    rhs: Seq<Real>,
    w: Real,
    before: Option<B::Factor>,
    after: Option<B::Factor>,
    r: Result<Vec<Real>, TheseusError>,
) -> bool {
    exists|first: Result<B::Factor, TheseusError>, last: Result<B::Factor, TheseusError>|
        {
            &&& #[trigger] factors_attempted(b, g, before, first, last)
            &&& match (first, last) {
                (Err(e), Err(_)) => after is None && r == Err::<Vec<Real>, _>(gram_failure(e, w)),
                (_, Ok(f)) => solved_with(b, f, rhs, w, r) && after == if r is Ok {
                    Some(f)
                } else {
                    None
                },
                (Ok(_), Err(_)) => false,
            }
        }
}

/// Solves with the factor in the cache, brought up to date.
pub fn ldl_solve_cached<B: Backend>(
    b: &B,
    g: &SparseColMatOwned,
    rhs: &Vec<Real>,
    w: Real,
    cache: &mut Option<B::Factor>,
) -> (r: Result<Vec<Real>, TheseusError>)
    requires
        g.wf(),
        g.nrows == g.ncols,
    ensures
        cached_solve(*b, g@, rhs@, w, *old(cache), *final(cache), r),
{
    let held = cache.take();
    let attempt = match held {
        None => b.factor(g, FactorizationStrategy::LDL),
        Some(factor) => b.refactor(factor, g),
    };
    let ghost first = attempt;
    assert(factor_attempted(*b, g@, *old(cache), first));
    assert(first is Ok ==> factors_attempted(*b, g@, *old(cache), first, first));
    let factor = match attempt {
        Ok(factor) => factor,
        Err(error) => {
            let again = b.factor(g, FactorizationStrategy::LDL);
            let ghost second = again;
            assert(factors_attempted(*b, g@, *old(cache), first, second));
            match again {
                Ok(factor) => factor,
                Err(_) => {
                    if w.equals(Real { bits: ZERO }) {
                        return Err(TheseusError::Solver(Complaint::SingularGram));
                    }
                    return Err(error);
                },
            }
        },
    };
    let reply = b.solve(&factor, rhs);
    let ghost given = reply;
    assert(call_ensures(B::solve, (b, &factor, rhs), given));
    match reply {
        Ok(x) => {
            *cache = Some(factor);
            Ok(x)
        },
        Err(error) => {
            if w.equals(Real { bits: ZERO }) {
                Err(TheseusError::Solver(Complaint::SingularGram))
            } else {
                Err(error)
            }
        },
    }
}

/// Whether `r` can be the solution of the normal equations.
pub open spec fn gram_outcome<A: Arithmetic, B: Backend>(
    ar: A,
    b: B,
    m: Csc,
    p: Seq<Real>,
    w: Real,
    before: Option<B::Factor>,
    after: Option<B::Factor>,
    r: Result<Vec<Real>, TheseusError>,
) -> bool {
    if gram_indexable(ar, m, w) {
        cached_solve(
            b,
            gram_matrix(ar, m, w),
            m.transposed().applied(ar, p),
            w,
            before,
            after,
            r,
        )
    } else {
        after == before && r == Err::<Vec<Real>, _>(TheseusError::Solver(Complaint::Triplets))
    }
}

/// Solves `min |M x - p|^2 + w |x|^2` by normal equations.
pub fn solve_gram_on<A: Arithmetic, B: Backend>(
    ar: &A,
    b: &B,
    m_mat: &SparseColMatOwned,
    p: &Vec<Real>,
    w: Real,
    cache: &mut Option<B::Factor>,
) -> (r: Result<Vec<Real>, TheseusError>)
    requires
        m_mat.wf(),
        m_mat.nrows < usize::MAX,
        p@.len() == m_mat.nrows,
    ensures
        functional(*ar) ==> gram_outcome(
            *ar,
            *b,
            m_mat@,
            p@,
            w,
            *old(cache),
            *final(cache),
            r,
        ),
{
    match gram_system(ar, m_mat, p, w) {
        Ok((g, h)) => ldl_solve_cached(b, &g, &h, w, cache),
        Err(e) => Err(e),
    }
}

/// Every entry of `a`, above and below the diagonal of a matrix in which `a` starts at
/// row `down` and column `right`.
pub open spec fn coupled(a: Csc, down: int, right: int, negative: bool) -> Seq<Triplet> {
    Seq::new(
        2 * a.nnz(),
        |k: int|
            {
                let i = k / 2;
                let row = (down + a.rows[i]) as u32;
                let col = (right + a.column_of(i)) as u32;
                let value = if negative {
                    a.values[i].negated()
                } else {
                    a.values[i]
                };
                if k % 2 == 0 {
                    (col, row, value)
                } else {
                    (row, col, value)
                }
            },
    )
}

/// The entries of `[I, 0, S'; 0, w I, -M'; S, -M, 0]`.
pub open spec fn weighted_terms(m: Csc, s: Csc, w: Real) -> Seq<Triplet> {
    let below = m.nrows + m.ncols;
    diagonal_from(0, m.nrows, Real { bits: ONE }) + diagonal_from(m.nrows as int, m.ncols, w)
        + coupled(s, below as int, 0, false) + coupled(m, below as int, m.nrows as int, true)
}

/// The matrix `[I, 0, S'; 0, w I, -M'; S, -M, 0]`.
pub open spec fn weighted_matrix<A: Arithmetic>(ar: A, m: Csc, s: Csc, w: Real) -> Csc {
    let total = 2 * m.nrows + m.ncols;
    assembled(ar, total, total, weighted_terms(m, s, w))
}

/// Whether the weighted saddle can be indexed in 32 bits.
pub open spec fn weighted_indexable(m: Csc, s: Csc) -> bool {
    &&& 2 * m.nrows + m.ncols < u32::MAX
    &&& m.nrows + m.ncols + 2 * s.nnz() + 2 * m.nnz() <= u32::MAX
}

/// The vector `[0; 0; -p]`.
pub open spec fn weighted_rhs(p: Seq<Real>, below: nat) -> Seq<Real> {
    Seq::new(below, |i: int| Real { bits: ZERO }) + negatives(p)
}

/// Appends every entry of `a` above and below the diagonal.
fn push_coupled(
    terms: &mut Vec<Triplet>,
    a: &SparseColMatOwned,
    down: usize,
    right: usize,
    negative: bool,
)
    requires
        a.wf(),
        down + a.nrows <= usize::MAX,
        right + a.ncols <= usize::MAX,
    ensures
        final(terms)@ == old(terms)@ + coupled(a@, down as int, right as int, negative),
{
    let ghost before = terms@;
    let ghost m = a@;
    let ghost goal = coupled(m, down as int, right as int, negative);
    for col in 0..a.ncols
        invariant
            a.wf(),
            m == a@,
            down + a.nrows <= usize::MAX,
            right + a.ncols <= usize::MAX,
            goal == coupled(m, down as int, right as int, negative),
            m.starts[col as int] <= m.nnz(),
            terms@ == before + goal.subrange(0, 2 * m.starts[col as int]),
    {
        let start: usize = a.col_ptrs[col] as usize;
        let end: usize = a.col_ptrs[col + 1] as usize;
        assert(m.starts[col as int] <= m.starts[col + 1]);
        assert(m.starts[col + 1] <= m.starts[m.ncols as int]);
        for nz in start..end
            invariant
                a.wf(),
                m == a@,
                down + a.nrows <= usize::MAX,
                right + a.ncols <= usize::MAX,
                goal == coupled(m, down as int, right as int, negative),
                col < a.ncols,
                start == m.starts[col as int],
                end == m.starts[col + 1],
                end <= m.nnz(),
                terms@ == before + goal.subrange(0, 2 * nz),
        {
            proof {
                lemma_column(m, nz as int, col as int);
                assert(m.rows[nz as int] < m.nrows);
            }
            let row: u32 = (down + a.row_indices[nz] as usize) as u32;
            let place: u32 = (right + col) as u32;
            let value = if negative {
                a.values[nz].neg()
            } else {
                a.values[nz]
            };
            terms.push((place, row, value));
            terms.push((row, place, value));
            proof {
                assert(goal[2 * nz] == (place, row, value));
                assert(goal[2 * nz + 1] == (row, place, value));
                assert(terms@ =~= before + goal.subrange(0, 2 * (nz + 1)));
            }
        }
    }
    proof {
        assert(goal.subrange(0, (2 * m.nnz()) as int) =~= goal);
    }
}

proof fn lemma_coupled_placed(a: Csc, down: int, right: int, negative: bool, n: nat)
    requires
        a.wf(),
        0 <= down,
        0 <= right,
        down + a.nrows <= n,
        right + a.ncols <= n,
        n < u32::MAX,
    ensures
        placed(coupled(a, down, right, negative), n, n),
{
    let t = coupled(a, down, right, negative);
    assert forall|k: int| 0 <= k < t.len() implies (#[trigger] t[k]).0 < n && t[k].1 < n by {
        let i = k / 2;
        assert(a.rows[i] < a.nrows);
        lemma_has_column(a, i);
    }
}

/// Build the weighted 3-block KKT system for `min 1/2 |e|^2 + 1/2 w |q|^2`
/// subject to `S e - M q = -p`.
///
/// Stationarity of the Lagrangian in `(e, q, y)` gives the symmetric
/// indefinite system
///
/// ```text
/// [ I    0    S' ] [e]   [ 0 ]
/// [ 0   w I  -M' ] [q] = [ 0 ]
/// [ S   -M    0  ] [y]   [-p ]
/// ```
///
/// Every block is sparse, so this is the weighted analogue of
/// [`build_augmented_system`] without ever forming `S^-1 M`.
pub fn build_weighted_saddle<A: Arithmetic>(
    ar: &A,
    m_mat: &SparseColMatOwned,
    s_mat: &SparseColMatOwned,
    p: &Vec<Real>,
    w: Real,
) -> (r: Result<(SparseColMatOwned, Vec<Real>), TheseusError>)
    requires
        m_mat.wf(),
        s_mat.wf(),
        s_mat.nrows == m_mat.nrows,
        s_mat.ncols == m_mat.nrows,
        p@.len() == m_mat.nrows,
    ensures
        r is Ok <==> weighted_indexable(m_mat@, s_mat@),
        r matches Err(e) ==> e == TheseusError::Shape(Complaint::Triplets),
        r matches Ok(k) ==> {
            &&& k.0.wf()
            &&& k.0.nrows == 2 * m_mat.nrows + m_mat.ncols
            &&& k.0.ncols == 2 * m_mat.nrows + m_mat.ncols
            &&& k.1@ == weighted_rhs(p@, (m_mat.nrows + m_mat.ncols) as nat)
            &&& functional(*ar) ==> k.0@ == weighted_matrix(*ar, m_mat@, s_mat@, w)
        },
{
    let m: usize = m_mat.nrows;
    let n: usize = m_mat.ncols;
    let limit: usize = u32::MAX as usize;
    if m >= limit || m >= limit - m || n >= limit - 2 * m {
        return Err(TheseusError::Shape(Complaint::Triplets));
    }
    let total: usize = 2 * m + n;
    let below: usize = m + n;
    let mut triplets: Vec<Triplet> = Vec::new();
    push_diagonal(&mut triplets, 0, m, Real { bits: ONE });
    push_diagonal(&mut triplets, m, n, w);
    push_coupled(&mut triplets, s_mat, below, 0, false);
    push_coupled(&mut triplets, m_mat, below, m, true);
    proof {
        let ones = diagonal_from(0, m as nat, Real { bits: ONE });
        let damping = diagonal_from(m as int, n as nat, w);
        let upper = coupled(s_mat@, below as int, 0, false);
        let lower = coupled(m_mat@, below as int, m as int, true);
        let t = weighted_terms(m_mat@, s_mat@, w);
        assert(triplets@ =~= t);
        lemma_coupled_placed(s_mat@, below as int, 0, false, total as nat);
        lemma_coupled_placed(m_mat@, below as int, m as int, true, total as nat);
        assert forall|k: int| 0 <= k < t.len() implies (#[trigger] t[k]).0 < total && t[k].1
            < total by {
            if k < m {
                assert(t[k] == ones[k]);
            } else if k < m + n {
                assert(t[k] == damping[k - m]);
            } else if k < m + n + upper.len() {
                assert(t[k] == upper[k - m - n]);
            } else {
                assert(t[k] == lower[k - m - n - upper.len()]);
            }
        }
    }
    match SparseColMatOwned::from_triplets(ar, total, total, &triplets) {
        Ok(k_mat) => {
            let mut rhs = zeros(below);
            let mut loads = negate(p);
            rhs.append(&mut loads);
            proof {
                assert(rhs@ =~= weighted_rhs(p@, (m + n) as nat));
            }
            Ok((k_mat, rhs))
        },
        Err(e) => Err(e),
    }
}

/// Whether `r` holds the entries from `m` up to `m + n` of the backend's answer.
pub open spec fn middle_answer(
    reply: Result<Vec<Real>, TheseusError>,
    m: nat,
    n: nat,
    r: Result<Vec<Real>, TheseusError>,
) -> bool {
    match reply {
        Err(e) => r == Err::<Vec<Real>, _>(e),
        Ok(s) => if s@.len() < m + n {
            r == Err::<Vec<Real>, _>(
                TheseusError::Shape(
                    Complaint::BackendSize { found: s@.len() as usize, expected: (m + n) as usize },
                ),
            )
        } else {
            r matches Ok(x) && x@ == s@.subrange(m as int, (m + n) as int)
        },
    }
}

/// The entries from `m` up to `m + n` of the backend's answer.
pub fn middle_part(reply: Result<Vec<Real>, TheseusError>, m: usize, n: usize) -> (r: Result<
    Vec<Real>,
    TheseusError,
>)
    requires
        m + n <= usize::MAX,
    ensures
        middle_answer(reply, m as nat, n as nat, r),
{
    match reply {
        Err(e) => Err(e),
        Ok(s) => {
            if s.len() < m + n {
                Err(
                    TheseusError::Shape(
                        Complaint::BackendSize { found: s.len(), expected: m + n },
                    ),
                )
            } else {
                Ok(slice(&s, m, m + n))
            }
        },
    }
}

/// The saddle system of a solve: weighted, or plain.
pub open spec fn saddle_system<A: Arithmetic, B: Backend>(
    ar: A,
    m: Csc,
    p: Seq<Real>,
    w: Real,
    weight: Option<&MetricWeight<B>>,
) -> (Csc, Seq<Real>) {
    match weight {
        Some(s) => (weighted_matrix(ar, m, s.s@, w), weighted_rhs(p, m.nrows + m.ncols)),
        None => (saddle_matrix(ar, m, w), extended(p, m.ncols)),
    }
}

/// Whether `r` can be the solution of the saddle system.
pub open spec fn saddle_outcome<A: Arithmetic, B: Backend>(
    ar: A,
    b: B,
    m: Csc,
    p: Seq<Real>,
    w: Real,
    weight: Option<&MetricWeight<B>>,
    before: Option<B::Factor>,
    after: Option<B::Factor>,
    r: Result<Vec<Real>, TheseusError>,
) -> bool {
    let indexable = match weight {
        Some(s) => weighted_indexable(m, s.s@),
        None => saddle_indexable(m),
    };
    if !indexable {
        after == before && r == Err::<Vec<Real>, _>(TheseusError::Shape(Complaint::Triplets))
    } else if weight is None && w.level(Real { bits: ZERO }) {
        after == before && saddle_solved(ar, b, m, p, w, r)
    } else {
        exists|k: Csc, reply: Result<Vec<Real>, TheseusError>|
            {
                &&& functional(ar) ==> k == saddle_system(ar, m, p, w, weight).0
                &&& #[trigger] cached_solve(
                    b,
                    k,
                    saddle_system(ar, m, p, w, weight).1,
                    w,
                    before,
                    after,
                    reply,
                )
                &&& middle_answer(reply, m.nrows, m.ncols, r)
            }
    }
}

/// Solves `min |S^-1 (M x - p)|^2 + w |x|^2` by a saddle system; no weight stands for
/// `S = I`.
pub fn solve_saddle_on<A: Arithmetic, B: Backend>(
    ar: &A,
    b: &B,
    m_mat: &SparseColMatOwned,
    p: &Vec<Real>,
    w: Real,
    cache: &mut Option<B::Factor>,
    weight: Option<&MetricWeight<B>>,
) -> (r: Result<Vec<Real>, TheseusError>)
    requires
        m_mat.wf(),
        p@.len() == m_mat.nrows,
        weight matches Some(s) ==> s.wf() && s.n_eq == m_mat.nrows,
    ensures
        r matches Ok(x) ==> x@.len() == m_mat.ncols,
        saddle_outcome(
            *ar,
            *b,
            m_mat@,
            p@,
            w,
            weight,
            *old(cache),
            *final(cache),
            r,
        ),
{
    let m: usize = m_mat.nrows;
    let n: usize = m_mat.ncols;
    let system = match weight {
        Some(s) => build_weighted_saddle(ar, m_mat, &s.s, p, w),
        None => {
            if w.equals(Real { bits: ZERO }) {
                return solve_saddle_pseudoinverse(ar, b, m_mat, p, w, Real { bits: SADDLE_TOL }, 0);
            }
            build_augmented_system(ar, m_mat, p, w)
        },
    };
    match system {
        Err(e) => Err(e),
        Ok((k_mat, rhs)) => {
            let ghost held = *cache;
            let reply = ldl_solve_cached(b, &k_mat, &rhs, w, cache);
            let ghost given = reply;
            let r = middle_part(reply, m, n);
            proof {
                assert(cached_solve(
                    *b,
                    k_mat@,
                    saddle_system(*ar, m_mat@, p@, w, weight).1,
                    w,
                    held,
                    *cache,
                    given,
                ));
            }
            r
        },
    }
}

} // verus!
