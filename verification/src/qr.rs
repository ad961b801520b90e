//! Least squares by sparse QR, for tall matrices of full column rank.

use crate::arithmetic::{count, count_of, functional, product_of, times, Arithmetic};
use crate::array::{fits, Array2, Grid};
use crate::backend::{Backend, QrFactor};
use crate::double::{Real, EPSILON, ONE, ZERO};
use crate::error::{Complaint, TheseusError};
use crate::sparse::SparseColMatOwned;
use crate::vector::{largest, peak};
use vstd::prelude::*;

verus! {

/// The number one hundred.
pub const HUNDRED: u64 = 0x4059_0000_0000_0000;

/// Whether the stored `R` of a factor with `n` columns can be read: the column starts and
/// the row indices come first among the indices, the values first among the values.
pub open spec fn readable(f: QrFactor, n: int) -> bool {
    &&& n < f.indices@.len()
    &&& n + 1 + f.indices@[n] <= f.indices@.len()
    &&& f.indices@[n] <= f.values@.len()
    &&& forall|j: int| 0 <= j <= n ==> #[trigger] f.indices@[j] <= f.indices@[n]
}

/// The first entry from `from` up to `end` that stands on the diagonal of column `col`, or
/// zero where none does.
pub open spec fn pivot_from(f: QrFactor, n: int, col: int, from: int, end: int) -> Real
    decreases end - from,
{
    if from >= end {
        Real { bits: ZERO }
    } else if f.indices@[n + 1 + from] == col {
        f.values@[from]
    } else {
        pivot_from(f, n, col, from + 1, end)
    }
}

/// The diagonal of `R`.
pub open spec fn pivots_of(f: QrFactor, n: nat) -> Seq<Real> {
    Seq::new(
        n,
        |col: int|
            pivot_from(f, n as int, col, f.indices@[col] as int, f.indices@[col + 1] as int),
    )
}

/// The magnitude above which a pivot counts.
pub open spec fn pivot_threshold<A: Arithmetic>(ar: A, pivots: Seq<Real>, nrows: nat) -> Real {
    let scale = peak(pivots, Real { bits: ZERO }, pivots.len() as int).larger(Real { bits: ONE });
    let size = if nrows >= pivots.len() {
        nrows
    } else {
        pivots.len()
    };
    let unit = product_of(ar, Real { bits: HUNDRED }, Real { bits: EPSILON });
    product_of(
        ar,
        product_of(ar, unit, scale),
        count_of(
            ar,
            if size == 0 {
                1u64
            } else {
                size as u64
            },
        ),
    )
}

/// The number of usable ones among the first `k` pivots.
pub open spec fn usable_pivots(pivots: Seq<Real>, threshold: Real, k: int) -> nat
    decreases k,
{
    if k <= 0 {
        0
    } else {
        usable_pivots(pivots, threshold, k - 1) + if pivots[k - 1].finite() && threshold.below(
            pivots[k - 1].absolute(),
        ) {
            1nat
        } else {
            0nat
        }
    }
}

/// Whether `r` is the verdict on the rank of a factor with `n` columns.
pub open spec fn rank_verdict<A: Arithmetic>(
    ar: A,
    f: QrFactor,
    n: nat,
    nrows: nat,
    r: Result<(), TheseusError>,
) -> bool {
    if !readable(f, n as int) {
        r == Err::<(), _>(TheseusError::Linalg(Complaint::QrStorage))
    } else {
        let pivots = pivots_of(f, n);
        match r {
            Ok(_) => functional(ar) ==> usable_pivots(
                pivots,
                pivot_threshold(ar, pivots, nrows),
                n as int,
            ) == n,
            Err(TheseusError::Solver(Complaint::QrRank { usable, columns, threshold })) => {
                &&& columns == n
                &&& usable == usable_pivots(pivots, threshold, n as int)
                &&& usable != n
                &&& functional(ar) ==> threshold == pivot_threshold(ar, pivots, nrows)
            },
            Err(_) => false,
        }
    }
}

/// Whether the stored `R` can be read.
fn is_readable(f: &QrFactor, n: usize) -> (r: bool)
    ensures
        r == readable(*f, n as int),
{
    if n >= f.indices.len() {
        return false;
    }
    let r_nnz: usize = f.indices[n] as usize;
    if r_nnz > f.indices.len() - n - 1 || r_nnz > f.values.len() {
        return false;
    }
    for j in 0..n + 1
        invariant
            n < f.indices@.len(),
            r_nnz == f.indices@[n as int],
            forall|k: int| 0 <= k < j ==> #[trigger] f.indices@[k] <= f.indices@[n as int],
    {
        if f.indices[j] as usize > r_nnz {
            return false;
        }
    }
    true
}

/// The diagonal entry of column `col` of `R`.
fn pivot(f: &QrFactor, n: usize, col: usize) -> (r: Real)
    requires
        readable(*f, n as int),
        col < n,
    ensures
        r == pivots_of(*f, n as nat)[col as int],
{
    let start: usize = f.indices[col] as usize;
    let end: usize = f.indices[col + 1] as usize;
    assert(f.indices@[col as int] <= f.indices@[n as int]);
    assert(f.indices@[col + 1] <= f.indices@[n as int]);
    let stored: usize = f.indices.len();
    let mut nz: usize = start;
    while nz < end
        invariant
            readable(*f, n as int),
            stored == f.indices@.len(),
            col < n,
            start <= nz,
            start == f.indices@[col as int],
            end == f.indices@[col + 1],
            end <= f.indices@[n as int],
            pivots_of(*f, n as nat)[col as int] == pivot_from(
                *f,
                n as int,
                col as int,
                nz as int,
                end as int,
            ),
        decreases end - nz,
    {
        if f.indices[n + 1 + nz] as usize == col {
            return f.values[nz];
        }
        nz = nz + 1;
    }
    Real { bits: ZERO }
}

/// Judges from the pivots of the stored `R` whether every column counts.
pub fn check_rank<A: Arithmetic>(ar: &A, f: &QrFactor, n: usize, nrows: usize) -> (r: Result<
    (),
    TheseusError,
>)
    ensures
        rank_verdict(*ar, *f, n as nat, nrows as nat, r),
{
    if !is_readable(f, n) {
        return Err(TheseusError::Linalg(Complaint::QrStorage));
    }
    let ghost goal = pivots_of(*f, n as nat);
    let mut pivots: Vec<Real> = Vec::new();
    for col in 0..n
        invariant
            readable(*f, n as int),
            goal == pivots_of(*f, n as nat),
            pivots@.len() == col,
            forall|k: int| 0 <= k < col ==> #[trigger] pivots@[k] == goal[k],
    {
        pivots.push(pivot(f, n, col));
    }
    assert(pivots@ =~= goal);
    let scale = largest(&pivots, Real { bits: ZERO }).max(Real { bits: ONE });
    let size: usize = if nrows >= n {
        nrows
    } else {
        n
    };
    let unit = times(ar, Real { bits: HUNDRED }, Real { bits: EPSILON });
    let part = times(ar, unit, scale);
    let counted = count(
        ar,
        if size == 0 {
            1
        } else {
            size as u64
        },
    );
    let threshold = times(ar, part, counted);
    let mut usable: usize = 0;
    for k in 0..n
        invariant
            pivots@ == goal,
            goal.len() == n,
            usable <= k,
            usable == usable_pivots(goal, threshold, k as int),
    {
        if pivots[k].is_finite() && pivots[k].abs().gt(threshold) {
            usable = usable + 1;
        }
    }
    if usable != n {
        return Err(
            TheseusError::Solver(Complaint::QrRank { usable, columns: n, threshold }),
        );
    }
    Ok(())
}

/// The vector `p` as the only column of an array.
pub open spec fn single_column(p: Seq<Real>) -> Grid {
    Grid::generated(p.len(), 1, |i: int, j: int| p[i])
}

/// The vector `p` as the only column of an array.
pub(crate) fn to_column(p: &Vec<Real>) -> (g: Array2)
    requires
        fits(p@.len(), 1),
    ensures
        g@ == single_column(p@),
{
    let mut g = Array2::from_elem(p.len(), 1, Real { bits: ZERO });
    for i in 0..p.len()
        invariant
            g@.rows == p@.len(),
            g@.cols == 1,
            g@.cells.dom() == single_column(p@).cells.dom(),
            forall|k: int| 0 <= k < i ==> #[trigger] g@.cells[(k, 0)] == p@[k],
    {
        g.put(i, 0, p[i]);
        assert(g@.cells.dom() =~= single_column(p@).cells.dom());
    }
    proof {
        assert forall|c: (int, int)| #[trigger] g@.cells.dom().contains(c) implies g@.cells[c]
            == single_column(p@).cells[c] by {
            assert(c == (c.0, 0int));
        }
        assert(g@.cells =~= single_column(p@).cells);
    }
    g
}

/// Whether `r` holds the first `n` entries of the first column of the backend's answer.
pub open spec fn head_answer(reply: Result<Array2, TheseusError>, n: nat, r: Result<
    Vec<Real>,
    TheseusError,
>) -> bool {
    match reply {
        Err(e) => r == Err::<Vec<Real>, _>(e),
        Ok(x) => if x@.rows < n || x@.cols < 1 {
            r == Err::<Vec<Real>, _>(
                TheseusError::Shape(
                    Complaint::BackendSize { found: x@.rows as usize, expected: n as usize },
                ),
            )
        } else {
            r matches Ok(v) && v@ == Seq::new(n, |i: int| x@.at(i, 0))
        },
    }
}

/// The first `n` entries of the first column of the backend's answer.
pub fn head_part(reply: Result<Array2, TheseusError>, n: usize) -> (r: Result<
    Vec<Real>,
    TheseusError,
>)
    ensures
        head_answer(reply, n as nat, r),
{
    match reply {
        Err(e) => Err(e),
        Ok(x) => {
            let (rows, cols) = x.dim();
            if rows < n || cols < 1 {
                return Err(
                    TheseusError::Shape(Complaint::BackendSize { found: rows, expected: n }),
                );
            }
            let mut v: Vec<Real> = Vec::new();
            for i in 0..n
                invariant
                    n <= rows,
                    rows == x@.rows,
                    1 <= x@.cols,
                    v@.len() == i,
                    forall|k: int| 0 <= k < i ==> #[trigger] v@[k] == x@.at(k, 0),
            {
                v.push(x.cell(i, 0));
            }
            assert(v@ =~= Seq::new(n as nat, |i: int| x@.at(i, 0)));
            Ok(v)
        },
    }
}

/// Whether a sparse QR solve with this numeric factor can answer `r`.
pub open spec fn factor_answer<A: Arithmetic, B: Backend>(
    ar: A,
    b: B,
    a: SparseColMatOwned,
    p: Seq<Real>,
    rank_checked: bool,
    symbolic: B::Symbolic,
    factor: QrFactor,
    r: Result<Vec<Real>, TheseusError>,
) -> bool {
    ||| rank_checked && exists|e: TheseusError|
        #[trigger] rank_verdict(ar, factor, a.ncols as nat, a.nrows as nat, Err(e)) && r == Err::<
            Vec<Real>,
            _,
        >(e)
    ||| {
        &&& rank_checked ==> rank_verdict(ar, factor, a.ncols as nat, a.nrows as nat, Ok(()))
        &&& exists|rhs: Array2, reply: Result<Array2, TheseusError>|
            {
                &&& rhs@ == single_column(p)
                &&& #[trigger] call_ensures(B::solve_qr, (&b, &symbolic, &factor, &rhs), reply)
                &&& head_answer(reply, a.ncols as nat, r)
            }
    }
}

/// Whether a sparse QR solve can answer `r` with the symbolic part given.
pub open spec fn symbolic_answer<A: Arithmetic, B: Backend>(
    ar: A,
    b: B,
    a: SparseColMatOwned,
    p: Seq<Real>,
    rank_checked: bool,
    symbolic: B::Symbolic,
    r: Result<Vec<Real>, TheseusError>,
) -> bool {
    exists|f: Result<QrFactor, TheseusError>|
        {
            &&& #[trigger] call_ensures(B::factor_qr, (&b, &symbolic, &a), f)
            &&& match f {
                Err(e) => r == Err::<Vec<Real>, _>(e),
                Ok(factor) => factor_answer(ar, b, a, p, rank_checked, symbolic, factor, r),
            }
        }
}

/// Whether a sparse QR solve can answer `r`, with the symbolic factorization before and
/// after it.
pub open spec fn qr_solved<A: Arithmetic, B: Backend>(
    ar: A,
    b: B,
    a: SparseColMatOwned,
    p: Seq<Real>,
    rank_checked: bool,
    before: Option<B::Symbolic>,
    after: Option<B::Symbolic>,
    r: Result<Vec<Real>, TheseusError>,
) -> bool {
    match after {
        None => before is None && exists|e: TheseusError|
            #[trigger] call_ensures(B::analyze_qr, (&b, &a, true), Err(e)) && r == Err::<
                Vec<Real>,
                _,
            >(e),
        Some(symbolic) => {
            &&& before matches Some(s) ==> s == symbolic
            &&& before is None ==> call_ensures(B::analyze_qr, (&b, &a, true), Ok(symbolic))
            &&& symbolic_answer(ar, b, a, p, rank_checked, symbolic, r)
        },
    }
}

/// Whether `r` can be the solution by sparse QR.
pub open spec fn qr_outcome<A: Arithmetic, B: Backend>(
    ar: A,
    b: B,
    a: SparseColMatOwned,
    p: Seq<Real>,
    rank_checked: bool,
    before: Option<B::Symbolic>,
    after: Option<B::Symbolic>,
    r: Result<Vec<Real>, TheseusError>,
) -> bool {
    if a.nrows < a.ncols {
        after == before && r == Err::<Vec<Real>, _>(
            TheseusError::Solver(Complaint::QrWide { rows: a.nrows, cols: a.ncols }),
        )
    } else {
        qr_solved(ar, b, a, p, rank_checked, before, after, r)
    }
}

/// Solves `min |A x - p|` by sparse QR, with the symbolic factorization kept.
pub fn solve_qr_on<A: Arithmetic, B: Backend>(
    ar: &A,
    b: &B,
    a: &SparseColMatOwned,
    p: &Vec<Real>,
    rank_checked: bool,
    symbolic: &mut Option<B::Symbolic>,
) -> (r: Result<Vec<Real>, TheseusError>)
    requires
        a.wf(),
        p@.len() == a.nrows,
        fits(p@.len(), 1),
    ensures
        r matches Ok(x) ==> x@.len() == a.ncols,
        qr_outcome(*ar, *b, *a, p@, rank_checked, *old(symbolic), *final(symbolic), r),
{
    if a.nrows < a.ncols {
        return Err(TheseusError::Solver(Complaint::QrWide { rows: a.nrows, cols: a.ncols }));
    }
    let held = symbolic.take();
    let ordering = match held {
        Some(s) => s,
        None => match b.analyze_qr(a, true) {
            Ok(s) => s,
            Err(e) => {
                return Err(e);
            },
        },
    };
    let f = b.factor_qr(&ordering, a);
    let ghost reply_f = f;
    assert(call_ensures(B::factor_qr, (b, &ordering, a), reply_f));
    let factor = match f {
        Ok(factor) => factor,
        Err(e) => {
            *symbolic = Some(ordering);
            return Err(e);
        },
    };
    if rank_checked {
        match check_rank(ar, &factor, a.ncols, a.nrows) {
            Ok(_) => {},
            Err(e) => {
                assert(rank_verdict(*ar, factor, a.ncols as nat, a.nrows as nat, Err(e)));
                *symbolic = Some(ordering);
                return Err(e);
            },
        }
    }
    let rhs = to_column(p);
    let reply = b.solve_qr(&ordering, &factor, &rhs);
    let ghost given = reply;
    assert(call_ensures(B::solve_qr, (b, &ordering, &factor, &rhs), given));
    let r = head_part(reply, a.ncols);
    *symbolic = Some(ordering);
    r
}

} // verus!
