//! Saddle systems, which solve least squares without forming normal equations.

use crate::arithmetic::{functional, Arithmetic};
use crate::backend::{factored_and_solved, ldl_solve, Backend};
use crate::double::{Real, ONE, ZERO};
use crate::error::{Complaint, TheseusError};
use crate::sparse::{assembled, diagonal, lemma_column, placed, Csc, SparseColMatOwned, Triplet};
use crate::types::FactorizationStrategy;
use crate::vector::{all_finite, first_not_finite, padded, slice};
use vstd::prelude::*;

verus! {

/// Every entry of `a`, above and below the diagonal of a matrix in which `a` starts at
/// column `shift` and its transpose at row `shift`.
pub open spec fn mirrored(a: Csc, shift: int) -> Seq<Triplet> {
    Seq::new(
        2 * a.nnz(),
        |k: int|
            {
                let i = k / 2;
                let row = a.rows[i];
                let col = (shift + a.column_of(i)) as u32;
                if k % 2 == 0 {
                    (row, col, a.values[i])
                } else {
                    (col, row, a.values[i])
                }
            },
    )
}

/// The diagonal from place `from` up to `from + n`, with `v` everywhere on it.
pub open spec fn diagonal_from(from: int, n: nat, v: Real) -> Seq<Triplet> {
    Seq::new(n, |j: int| ((from + j) as u32, (from + j) as u32, v))
}

/// The entries of `[I, A; A', -w I]`.
pub open spec fn saddle_terms(a: Csc, w: Real) -> Seq<Triplet> {
    diagonal(a.nrows, Real { bits: ONE }) + mirrored(a, a.nrows as int) + diagonal_from(
        a.nrows as int,
        a.ncols,
        w.negated(),
    )
}

/// The matrix `[I, A; A', -w I]`.
pub open spec fn saddle_matrix<A: Arithmetic>(ar: A, a: Csc, w: Real) -> Csc {
    assembled(ar, a.nrows + a.ncols, a.nrows + a.ncols, saddle_terms(a, w))
}

/// Whether the saddle matrix of `a` can be indexed in 32 bits.
pub open spec fn saddle_indexable(a: Csc) -> bool {
    a.nrows + a.ncols < u32::MAX && a.nrows + 2 * a.nnz() + a.ncols <= u32::MAX
}

/// The vector `[top; 0]`.
pub open spec fn extended(top: Seq<Real>, n: nat) -> Seq<Real> {
    top + Seq::new(n, |i: int| Real { bits: ZERO })
}

/// Appends the diagonal from place `from` up to `from + n`.
pub(crate) fn push_diagonal(terms: &mut Vec<Triplet>, from: usize, n: usize, v: Real)
    requires
        from + n <= usize::MAX,
    ensures
        final(terms)@ == old(terms)@ + diagonal_from(from as int, n as nat, v),
{
    let ghost before = terms@;
    for j in 0..n
        invariant
            from + n <= usize::MAX,
            terms@ == before + diagonal_from(from as int, j as nat, v),
    {
        terms.push(((from + j) as u32, (from + j) as u32, v));
        proof {
            assert(terms@ =~= before + diagonal_from(from as int, j as nat + 1, v));
        }
    }
    proof {
        assert(before + diagonal_from(from as int, 0, v) =~= before);
    }
}

/// Appends every entry of `a` above and below the diagonal.
fn push_mirrored(terms: &mut Vec<Triplet>, a: &SparseColMatOwned, shift: usize)
    requires
        a.wf(),
        shift + a.ncols <= usize::MAX,
    ensures
        final(terms)@ == old(terms)@ + mirrored(a@, shift as int),
{
    let ghost before = terms@;
    let ghost m = a@;
    let ghost goal = mirrored(m, shift as int);
    for col in 0..a.ncols
        invariant
            a.wf(),
            m == a@,
            shift + a.ncols <= usize::MAX,
            goal == mirrored(m, shift as int),
            m.starts[col as int] <= m.nnz(),
            terms@ == before + goal.subrange(0, 2 * m.starts[col as int]),
    {
        let start: usize = a.col_ptrs[col] as usize;
        let end: usize = a.col_ptrs[col + 1] as usize;
        assert(m.starts[col as int] <= m.starts[col + 1]);
        assert(m.starts[col + 1] <= m.starts[m.ncols as int]);
        for nz in start..end
            invariant
                a.wf(),
                m == a@,
                shift + a.ncols <= usize::MAX,
                goal == mirrored(m, shift as int),
                col < a.ncols,
                start == m.starts[col as int],
                end == m.starts[col + 1],
                end <= m.nnz(),
                terms@ == before + goal.subrange(0, 2 * nz),
        {
            proof {
                lemma_column(m, nz as int, col as int);
            }
            let row: u32 = a.row_indices[nz];
            let value = a.values[nz];
            let place: u32 = (shift + col) as u32;
            terms.push((row, place, value));
            terms.push((place, row, value));
            proof {
                assert(goal[2 * nz] == (row, place, value));
                assert(goal[2 * nz + 1] == (place, row, value));
                assert(terms@ =~= before + goal.subrange(0, 2 * (nz + 1)));
            }
        }
    }
    proof {
        assert(goal.subrange(0, (2 * m.nnz()) as int) =~= goal);
    }
}

/// Every saddle entry lies in the saddle matrix.
proof fn lemma_saddle_placed(a: Csc, w: Real)
    requires
        a.wf(),
        a.nrows + a.ncols < u32::MAX,
    ensures
        placed(saddle_terms(a, w), a.nrows + a.ncols, a.nrows + a.ncols),
{
    let t = saddle_terms(a, w);
    let m = a.nrows as int;
    assert forall|k: int| 0 <= k < t.len() implies (#[trigger] t[k]).0 < a.nrows + a.ncols && t[k].1
        < a.nrows + a.ncols by {
        if k < m {
        } else if k < m + 2 * a.nnz() {
            let i = (k - m) / 2;
            assert(t[k] == mirrored(a, m)[k - m]);
            assert(a.rows[i] < a.nrows);
            crate::sparse::lemma_has_column(a, i);
        } else {
            assert(t[k] == diagonal_from(m, a.ncols, w.negated())[k - m - 2 * a.nnz()]);
        }
    }
}

/// Build the augmented (saddle-point) system that avoids forming `M' M`: the matrix
/// `[I, M; M', -w I]` and the right-hand side `[top; 0]`.
pub fn build_augmented_system<A: Arithmetic>(
    ar: &A,
    m_mat: &SparseColMatOwned,
    rhs_top: &Vec<Real>,
    regularization: Real,
) -> (r: Result<(SparseColMatOwned, Vec<Real>), TheseusError>)
    requires
        m_mat.wf(),
        rhs_top@.len() == m_mat.nrows,
    ensures
        r is Ok <==> saddle_indexable(m_mat@),
        r matches Err(e) ==> e == TheseusError::Shape(Complaint::Triplets),
        r matches Ok(s) ==> {
            &&& s.0.wf()
            &&& s.0.nrows == m_mat.nrows + m_mat.ncols
            &&& s.0.ncols == m_mat.nrows + m_mat.ncols
            &&& s.1@ == extended(rhs_top@, m_mat.ncols as nat)
            &&& functional(*ar) ==> s.0@ == saddle_matrix(*ar, m_mat@, regularization)
        },
{
    let m: usize = m_mat.nrows;
    let n: usize = m_mat.ncols;
    if m >= u32::MAX as usize || n >= u32::MAX as usize - m {
        return Err(TheseusError::Shape(Complaint::Triplets));
    }
    let total: usize = m + n;
    let mut triplets: Vec<Triplet> = Vec::new();
    push_diagonal(&mut triplets, 0, m, Real { bits: ONE });
    push_mirrored(&mut triplets, m_mat, m);
    push_diagonal(&mut triplets, m, n, regularization.neg());
    proof {
        assert(diagonal_from(0, m as nat, Real { bits: ONE }) =~= diagonal(
            m as nat,
            Real { bits: ONE },
        ));
        assert(triplets@ =~= saddle_terms(m_mat@, regularization));
        lemma_saddle_placed(m_mat@, regularization);
    }
    match SparseColMatOwned::from_triplets(ar, total, total, &triplets) {
        Ok(k_mat) => {
            let rhs = padded(rhs_top, total);
            Ok((k_mat, rhs))
        },
        Err(e) => Err(e),
    }
}

/// What a saddle solve without regularization answers, given why it failed.
pub open spec fn saddle_failure(e: TheseusError, regularization: Real) -> TheseusError {
    if regularization.level(Real { bits: ZERO }) {
        TheseusError::Solver(Complaint::SingularSaddle(Box::new(e)))
    } else {
        e
    }
}

/// Whether `r` is what a saddle solve answers to the backend's `solution` of a system with
/// `m` equations and `n` unknowns: the unknowns if they are finite, else the failure.
pub open spec fn saddle_answer(
    solution: Result<Vec<Real>, TheseusError>,
    m: nat,
    n: nat,
    regularization: Real,
    r: Result<Vec<Real>, TheseusError>,
) -> bool {
    match solution {
        Err(e) => r == Err::<Vec<Real>, _>(saddle_failure(e, regularization)),
        Ok(s) => if s@.len() != m + n {
            r == Err::<Vec<Real>, _>(
                saddle_failure(
                    TheseusError::Shape(
                        Complaint::BackendSize {
                            found: s@.len() as usize,
                            expected: (m + n) as usize,
                        },
                    ),
                    regularization,
                ),
            )
        } else {
            let unknowns = s@.subrange(m as int, (m + n) as int);
            if all_finite(unknowns) {
                r matches Ok(x) && x@ == unknowns
            } else {
                r == Err::<Vec<Real>, _>(
                    saddle_failure(
                        TheseusError::Solver(Complaint::SaddleNotFinite),
                        regularization,
                    ),
                )
            }
        },
    }
}

/// The unknowns of a saddle solve from the backend's answer.
pub fn saddle_unknowns(
    solution: Result<Vec<Real>, TheseusError>,
    m: usize,
    n: usize,
    regularization: Real,
) -> (r: Result<Vec<Real>, TheseusError>)
    requires
        m + n <= usize::MAX,
    ensures
        saddle_answer(solution, m as nat, n as nat, regularization, r),
{
    let unknowns = match solution {
        Err(e) => Err(e),
        Ok(s) => {
            if s.len() != m + n {
                Err(
                    TheseusError::Shape(
                        Complaint::BackendSize { found: s.len(), expected: m + n },
                    ),
                )
            } else {
                let candidate = slice(&s, m, m + n);
                match first_not_finite(&candidate) {
                    None => Ok(candidate),
                    Some(_) => Err(TheseusError::Solver(Complaint::SaddleNotFinite)),
                }
            }
        },
    };
    match unknowns {
        Ok(x) => Ok(x),
        Err(e) => {
            if regularization.equals(Real { bits: ZERO }) {
                Err(TheseusError::Solver(Complaint::SingularSaddle(Box::new(e))))
            } else {
                Err(e)
            }
        },
    }
}

/// Whether `r` can be the answer of a direct saddle solve.
pub open spec fn saddle_solved<A: Arithmetic, B: Backend>(
    ar: A,
    b: B,
    a: Csc,
    rhs: Seq<Real>,
    regularization: Real,
    r: Result<Vec<Real>, TheseusError>,
) -> bool {
    exists|k: Csc, solution: Result<Vec<Real>, TheseusError>|
        {
            &&& functional(ar) ==> k == saddle_matrix(ar, a, regularization)
            &&& #[trigger] factored_and_solved(
                b,
                k,
                FactorizationStrategy::LDL,
                extended(rhs, a.ncols),
                solution,
            )
            &&& saddle_answer(solution, a.nrows, a.ncols, regularization, r)
        }
}

/// Solve the augmented saddle system using LDL only.
///
/// At zero regularization a rank-deficient saddle is singular. Direct MP does
/// not silently run or fall back to LSQR: callers that need a minimum-norm
/// rank-deficient solution must explicitly select Iterative LSQR with a zero weight.
pub fn solve_saddle_pseudoinverse<A: Arithmetic, B: Backend>(
    ar: &A,
    b: &B,
    a: &SparseColMatOwned,
    rhs: &Vec<Real>,
    regularization: Real,
    _tolerance: Real,
    _max_iterations: usize,
) -> (r: Result<Vec<Real>, TheseusError>)
    requires
        a.wf(),
    ensures
        r matches Ok(x) ==> x@.len() == a.ncols && all_finite(x@),
        if regularization.below(Real { bits: ZERO }) {
            r == Err::<Vec<Real>, _>(TheseusError::Solver(Complaint::NegativeRegularization))
        } else if rhs@.len() != a.nrows {
            r == Err::<Vec<Real>, _>(TheseusError::Shape(Complaint::SaddleRhs))
        } else if !saddle_indexable(a@) {
            r == Err::<Vec<Real>, _>(TheseusError::Shape(Complaint::Triplets))
        } else {
            saddle_solved(*ar, *b, a@, rhs@, regularization, r)
        },
{
    if regularization.lt(Real { bits: ZERO }) {
        return Err(TheseusError::Solver(Complaint::NegativeRegularization));
    }
    if rhs.len() != a.nrows {
        return Err(TheseusError::Shape(Complaint::SaddleRhs));
    }
    match build_augmented_system(ar, a, rhs, regularization) {
        Err(e) => Err(e),
        Ok((saddle, saddle_rhs)) => {
            let solution = ldl_solve(b, &saddle, &saddle_rhs);
            let ghost reply = solution;
            let r = saddle_unknowns(solution, a.nrows, a.ncols, regularization);
            proof {
                assert(factored_and_solved(
                    *b,
                    saddle@,
                    FactorizationStrategy::LDL,
                    extended(rhs@, a.ncols as nat),
                    reply,
                ));
            }
            r
        },
    }
}

} // verus!
