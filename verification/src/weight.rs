//! The left weight of the geometric metric.

use crate::arithmetic::{
    functional, over, plus, product_of, quotient_of, root_of, sqrt, sum_of, times, Arithmetic,
};
use crate::array::{fits, Array2, Grid};
use crate::backend::Backend;
use crate::double::{Real, ONE, ZERO};
use crate::error::{Complaint, TheseusError};
use crate::saddle::{diagonal_from, push_diagonal};
use crate::sparse::{
    assembled, lemma_column, lemma_has_column, multipliable, placed, product, row_scaled_copy, Csc,
    SparseColMatOwned, Triplet,
};
use crate::types::{all_positive, is_all_positive, FactorizationStrategy, Problem};
use crate::vector::{
    all_finite, first_not_finite, less, norm, norm_of, squares, subtract, sum_of_squares,
};
use vstd::prelude::*;

verus! {

/// The largest backward error of an accepted solve, `1e-8`.
pub const INVERSE_TOL: u64 = 0x3E45_798E_E230_8C3A;

/// The Laplacian `Cn' diag(q) Cn` of the free nodes.
pub open spec fn laplacian<A: Arithmetic>(ar: A, problem: Problem, q: Seq<Real>) -> Csc {
    let cn = problem.topology.free_incidence@;
    product(ar, cn.transposed(), cn.row_scaled(ar, q))
}

/// The entries of `d`, once on the diagonal block of each axis.
pub open spec fn axis_blocks(d: Csc, n_free: int) -> Seq<Triplet> {
    Seq::new(
        3 * d.nnz(),
        |k: int|
            {
                let i = k / 3;
                let offset = (k % 3) * n_free;
                (
                    (offset + d.rows[i]) as u32,
                    (offset + d.column_of(i)) as u32,
                    d.values[i],
                )
            },
    )
}

/// The entries of `blkdiag(D, D, D, I)`.
pub open spec fn weight_terms(d: Csc, n_eq: nat, n_free: nat) -> Seq<Triplet> {
    axis_blocks(d, n_free as int) + diagonal_from(
        3 * n_free as int,
        (n_eq - 3 * n_free) as nat,
        Real { bits: ONE },
    )
}

/// Whether the product that makes the Laplacian exists.
pub open spec fn laplacian_multipliable<A: Arithmetic>(
    ar: A,
    problem: Problem,
    q: Seq<Real>,
) -> bool {
    let cn = problem.topology.free_incidence@;
    multipliable(cn.transposed(), cn.row_scaled(ar, q))
}

/// Whether the Laplacian and the weight can be indexed in 32 bits.
pub open spec fn weight_indexable<A: Arithmetic>(
    ar: A,
    problem: Problem,
    q: Seq<Real>,
    n_eq: nat,
) -> bool {
    &&& laplacian_multipliable(ar, problem, q)
    &&& weight_terms(laplacian(ar, problem, q), n_eq, problem.n_free()).len() <= u32::MAX
}

/// How the Laplacian at `q` is factored: mixed signs make it indefinite.
pub open spec fn strategy_at(q: Seq<Real>) -> FactorizationStrategy {
    if all_positive(q) {
        FactorizationStrategy::Cholesky
    } else {
        FactorizationStrategy::LDL
    }
}

/// The Euclidean norm of the first `len` entries, as far as there are so many.
pub open spec fn norm_prefix<A: Arithmetic>(ar: A, v: Seq<Real>, len: int) -> Real {
    root_of(
        ar,
        squares(
            ar,
            v,
            if len <= v.len() {
                len
            } else {
                v.len() as int
            },
        ),
    )
}

/// Euclidean norm of the first `len` entries.
pub fn l2_norm_prefix<A: Arithmetic>(ar: &A, v: &Vec<Real>, len: usize) -> (r: Real)
    ensures
        functional(*ar) ==> r == norm_prefix(*ar, v@, len as int),
{
    let count: usize = if len <= v.len() {
        len
    } else {
        v.len()
    };
    let total = sum_of_squares(ar, v, count);
    sqrt(ar, total)
}

/// Left weight `S` for the geometric metric.
///
/// `S = blkdiag(D, D, D, I)` over the axis-major equilibrium rows, where
/// `D = Cn' diag(q) Cn` is the FDM Laplacian. The trailing identity covers the
/// optional zero-reaction rows, which are support constraints rather than
/// free-node equilibrium and carry no compliance.
///
/// `S` is kept assembled for the backends that embed it; `D` is kept factored for the
/// solvers that apply `S^-1` per matvec and for evaluating the exact geometric error.
/// `D` is never inverted.
pub struct MetricWeight<B: Backend> {
    pub s: SparseColMatOwned,
    pub d: SparseColMatOwned,
    pub d_factor: B::Factor,
    pub n_free: usize,
    pub n_eq: usize,
}

/// Column `axis` of the block of free-node rows of `r`.
pub open spec fn axis_part(r: Seq<Real>, n_free: int, axis: int) -> Seq<Real> {
    Seq::new(n_free as nat, |i: int| r[axis * n_free + i])
}

/// Column `j` of a grid.
pub open spec fn column(g: Grid, j: int) -> Seq<Real> {
    Seq::new(g.rows, |i: int| g.at(i, j))
}

/// How badly `y` solves `d y = b`, on the scale of the data.
pub open spec fn backward_error<A: Arithmetic>(
    ar: A,
    d: Csc,
    y: Seq<Real>,
    b: Seq<Real>,
) -> Real {
    let residual = norm_of(ar, less(ar, d.applied(ar, y), b));
    let scale = sum_of(
        ar,
        product_of(ar, norm_of(ar, d.values), norm_of(ar, y)),
        norm_of(ar, b),
    );
    if (Real { bits: ZERO }).below(scale) {
        quotient_of(ar, residual, scale)
    } else {
        residual
    }
}

/// Whether a backward error is too large.
pub open spec fn inaccurate(e: Real) -> bool {
    !e.finite() || (Real { bits: INVERSE_TOL }).below(e)
}

/// Whether the solution `x` passes along an axis.
pub open spec fn passes<A: Arithmetic>(
    ar: A,
    d: Csc,
    x: Grid,
    r: Seq<Real>,
    n_free: int,
    axis: int,
) -> bool {
    &&& !inaccurate(backward_error(ar, d, column(x, axis), axis_part(r, n_free, axis)))
    &&& all_finite(column(x, axis))
}

/// `S^-1 r` where `x` solves the axis blocks: reaction rows pass unchanged.
pub open spec fn unweighted(x: Grid, r: Seq<Real>, n_free: int) -> Seq<Real> {
    Seq::new(
        r.len(),
        |i: int|
            if i < 3 * n_free {
                x.at(i % n_free, i / n_free)
            } else {
                r[i]
            },
    )
}

/// Whether `out` is the answer to the backend's solution `x`.
pub open spec fn inverse_answer<A: Arithmetic>(
    ar: A,
    d: Csc,
    n_free: int,
    r: Seq<Real>,
    x: Grid,
    out: Result<Vec<Real>, TheseusError>,
) -> bool {
    match out {
        Ok(v) => {
            &&& v@ == unweighted(x, r, n_free)
            &&& forall|i: int| 0 <= i < 3 * n_free ==> (#[trigger] v@[i]).finite()
            &&& functional(ar) ==> forall|axis: int|
                0 <= axis < 3 ==> #[trigger] passes(ar, d, x, r, n_free, axis)
        },
        Err(TheseusError::Solver(Complaint::InaccurateInverse { axis, backward_error: e })) => {
            &&& axis < 3
            &&& inaccurate(e)
            &&& functional(ar) ==> e == backward_error(
                ar,
                d,
                column(x, axis as int),
                axis_part(r, n_free, axis as int),
            )
            &&& functional(ar) ==> forall|k: int|
                0 <= k < axis ==> #[trigger] passes(ar, d, x, r, n_free, k)
        },
        Err(TheseusError::Solver(Complaint::SingularLaplacian)) => exists|axis: int|
            {
                &&& 0 <= axis < 3
                &&& !all_finite(#[trigger] column(x, axis))
                &&& functional(ar) ==> forall|k: int|
                    0 <= k < axis ==> #[trigger] passes(ar, d, x, r, n_free, k)
                &&& functional(ar) ==> !inaccurate(
                    backward_error(ar, d, column(x, axis), axis_part(r, n_free, axis)),
                )
            },
        Err(_) => false,
    }
}

/// The entries `axis * n_free + i` of `r`.
fn take_axis(r: &Vec<Real>, n_free: usize, axis: usize) -> (v: Vec<Real>)
    requires
        axis < 3,
        3 * n_free <= r@.len(),
    ensures
        v@ == axis_part(r@, n_free as int, axis as int),
{
    let mut v: Vec<Real> = Vec::new();
    let ghost all = r.len();
    for i in 0..n_free
        invariant
            axis < 3,
            3 * n_free <= r@.len() == all <= usize::MAX,
            v@.len() == i,
            forall|k: int| 0 <= k < i ==> #[trigger] v@[k] == r@[axis * n_free + k],
    {
        proof {
            assert(axis * n_free + i < 3 * n_free) by (nonlinear_arith)
                requires
                    0 <= axis < 3,
                    0 <= i < n_free,
            ;
            assert(0 <= axis * n_free) by (nonlinear_arith)
                requires
                    0 <= axis,
                    0 <= n_free,
            ;
        }
        v.push(r[axis * n_free + i]);
    }
    proof {
        assert(v@ =~= axis_part(r@, n_free as int, axis as int));
    }
    v
}

/// Column `j` of an array.
pub(crate) fn take_column(x: &Array2, j: usize) -> (v: Vec<Real>)
    requires
        j < x@.cols,
    ensures
        v@ == column(x@, j as int),
{
    let rows: usize = x.nrows();
    let mut v: Vec<Real> = Vec::new();
    for i in 0..rows
        invariant
            rows == x@.rows,
            j < x@.cols,
            v@.len() == i,
            forall|k: int| 0 <= k < i ==> #[trigger] v@[k] == x@.at(k, j as int),
    {
        v.push(x.cell(i, j));
    }
    proof {
        assert(v@ =~= column(x@, j as int));
    }
    v
}

/// How badly `y` solves `d y = b`.
fn residual_scale<A: Arithmetic>(
    ar: &A,
    d: &SparseColMatOwned,
    y: &Vec<Real>,
    b: &Vec<Real>,
) -> (r: Real)
    requires
        d.wf(),
        y@.len() == d.ncols,
        b@.len() == d.nrows,
    ensures
        functional(*ar) ==> r == backward_error(*ar, d@, y@, b@),
{
    let dy = d.matvec(ar, y);
    let difference = subtract(ar, &dy, b);
    let residual = norm(ar, &difference);
    let d_norm = norm(ar, &d.values);
    let y_norm = norm(ar, y);
    let b_norm = norm(ar, b);
    let part = times(ar, d_norm, y_norm);
    let denominator = plus(ar, part, b_norm);
    if denominator.gt(Real { bits: ZERO }) {
        over(ar, residual, denominator)
    } else {
        residual
    }
}

/// Appends the entries of `d` on the diagonal block of each axis.
fn push_axis_blocks(terms: &mut Vec<Triplet>, d: &SparseColMatOwned, n_free: usize)
    requires
        d.wf(),
        d.nrows == n_free,
        d.ncols == n_free,
        3 * n_free <= usize::MAX,
    ensures
        final(terms)@ == old(terms)@ + axis_blocks(d@, n_free as int),
{
    let ghost before = terms@;
    let ghost m = d@;
    let ghost goal = axis_blocks(m, n_free as int);
    for col in 0..d.ncols
        invariant
            d.wf(),
            m == d@,
            d.nrows == n_free,
            d.ncols == n_free,
            3 * n_free <= usize::MAX,
            goal == axis_blocks(m, n_free as int),
            m.starts[col as int] <= m.nnz(),
            terms@ == before + goal.subrange(0, 3 * m.starts[col as int]),
    {
        let start: usize = d.col_ptrs[col] as usize;
        let end: usize = d.col_ptrs[col + 1] as usize;
        assert(m.starts[col as int] <= m.starts[col + 1]);
        assert(m.starts[col + 1] <= m.starts[m.ncols as int]);
        for nz in start..end
            invariant
                d.wf(),
                m == d@,
                d.nrows == n_free,
                d.ncols == n_free,
                3 * n_free <= usize::MAX,
                goal == axis_blocks(m, n_free as int),
                col < d.ncols,
                start == m.starts[col as int],
                end == m.starts[col + 1],
                end <= m.nnz(),
                terms@ == before + goal.subrange(0, 3 * nz),
        {
            proof {
                lemma_column(m, nz as int, col as int);
                assert(m.rows[nz as int] < m.nrows);
                assert(0 * (n_free as int) == 0 && 1 * (n_free as int) == n_free) by (nonlinear_arith);
            }
            let row: usize = d.row_indices[nz] as usize;
            let value = d.values[nz];
            terms.push((row as u32, col as u32, value));
            terms.push(((n_free + row) as u32, (n_free + col) as u32, value));
            terms.push(((2 * n_free + row) as u32, (2 * n_free + col) as u32, value));
            proof {
                assert(goal[3 * nz] == (row as u32, col as u32, value));
                assert(goal[3 * nz + 1] == (
                    (n_free + row) as u32,
                    (n_free + col) as u32,
                    value,
                ));
                assert(goal[3 * nz + 2] == (
                    (2 * n_free + row) as u32,
                    (2 * n_free + col) as u32,
                    value,
                ));
                assert(terms@ =~= before + goal.subrange(0, 3 * (nz + 1)));
            }
        }
    }
    proof {
        assert(goal.subrange(0, (3 * m.nnz()) as int) =~= goal);
    }
}

/// Every entry of the weight lies in it.
proof fn lemma_weight_placed(d: Csc, n_eq: nat, n_free: nat)
    requires
        d.wf(),
        d.nrows == n_free,
        d.ncols == n_free,
        3 * n_free <= n_eq < u32::MAX,
    ensures
        placed(weight_terms(d, n_eq, n_free), n_eq, n_eq),
{
    let t = weight_terms(d, n_eq, n_free);
    assert forall|k: int| 0 <= k < t.len() implies (#[trigger] t[k]).0 < n_eq && t[k].1 < n_eq by {
        if k < 3 * d.nnz() {
            let i = k / 3;
            let offset = (k % 3) * n_free;
            assert(t[k] == axis_blocks(d, n_free as int)[k]);
            assert(d.rows[i] < d.nrows);
            lemma_has_column(d, i);
            assert(0 <= offset <= 2 * n_free) by (nonlinear_arith)
                requires
                    offset == (k % 3) * n_free,
                    0 <= k % 3 <= 2,
            ;
        } else {
            assert(t[k] == diagonal_from(
                3 * n_free as int,
                (n_eq - 3 * n_free) as nat,
                Real { bits: ONE },
            )[k - 3 * d.nnz()]);
        }
    }
}

/// Whether `e` can be the reason why there is no weight at the force densities `q`.
pub open spec fn unweighable<A: Arithmetic, B: Backend>(
    e: TheseusError,
    ar: A,
    b: B,
    problem: Problem,
    q: Seq<Real>,
    n_eq: nat,
) -> bool {
    ||| {
        &&& e == TheseusError::Solver(Complaint::Triplets)
        &&& functional(ar) ==> !laplacian_multipliable(ar, problem, q)
    }
    ||| {
        &&& e == TheseusError::Shape(Complaint::Triplets)
        &&& functional(ar) ==> laplacian_multipliable(ar, problem, q)
        &&& functional(ar) ==> !weight_indexable(ar, problem, q, n_eq)
    }
    ||| {
        &&& e == TheseusError::Solver(
            Complaint::LaplacianFactorization { strategy: strategy_at(q) },
        )
        &&& exists|d: SparseColMatOwned, why: TheseusError|
            {
                &&& #[trigger] call_ensures(B::factor, (&b, &d, strategy_at(q)), Err(why))
                &&& functional(ar) ==> d@ == laplacian(ar, problem, q)
            }
    }
}

/// The free-node rows of `r` as one column for each axis.
pub open spec fn axis_columns(r: Seq<Real>, n_free: nat) -> Grid {
    Grid::generated(n_free, 3, |i: int, axis: int| r[axis * n_free + i])
}

/// Whether `out` can be what applying `S^-1` to `r` answers.
pub open spec fn inverse_applied<A: Arithmetic, B: Backend>(
    ar: A,
    b: B,
    w: MetricWeight<B>,
    r: Seq<Real>,
    out: Result<Vec<Real>, TheseusError>,
) -> bool {
    if r.len() != w.n_eq {
        out == Err::<Vec<Real>, _>(
            TheseusError::Shape(
                Complaint::WeightRows { expected: w.n_eq, found: r.len() as usize },
            ),
        )
    } else if w.n_free == 0 {
        out matches Ok(v) && v@ == r
    } else {
        exists|rhs: Array2, reply: Result<Array2, TheseusError>|
            {
                &&& rhs@ == axis_columns(r, w.n_free as nat)
                &&& #[trigger] call_ensures(B::solve_columns, (&b, &w.d_factor, &rhs), reply)
                &&& match reply {
                    Err(e) => out == Err::<Vec<Real>, _>(e),
                    Ok(x) => if x@.rows != w.n_free || x@.cols != 3 {
                        out == Err::<Vec<Real>, _>(
                            TheseusError::Shape(
                                Complaint::BackendSize {
                                    found: x@.rows as usize,
                                    expected: w.n_free,
                                },
                            ),
                        )
                    } else {
                        inverse_answer(ar, w.d@, w.n_free as int, r, x@, out)
                    },
                }
            }
    }
}

/// The free-node rows of `r` as one column for each axis.
fn to_axis_columns(r: &Vec<Real>, n_free: usize) -> (g: Array2)
    requires
        3 * n_free <= r@.len(),
        fits(n_free as nat, 3),
    ensures
        g@ == axis_columns(r@, n_free as nat),
{
    let ghost all = r.len();
    let mut g = Array2::from_elem(n_free, 3, Real { bits: ZERO });
    for i in 0..n_free
        invariant
            3 * n_free <= r@.len() == all <= usize::MAX,
            g@.rows == n_free,
            g@.cols == 3,
            g@.cells.dom() == axis_columns(r@, n_free as nat).cells.dom(),
            forall|k: int, axis: int|
                0 <= k < i && 0 <= axis < 3 ==> #[trigger] g@.cells[(k, axis)] == r@[axis * n_free
                    + k],
    {
        assert(0 * (n_free as int) == 0 && 1 * (n_free as int) == n_free) by (nonlinear_arith);
        g.put(i, 0, r[i]);
        g.put(i, 1, r[n_free + i]);
        g.put(i, 2, r[2 * n_free + i]);
        proof {
            assert(g@.cells.dom() =~= axis_columns(r@, n_free as nat).cells.dom());
            assert forall|k: int, axis: int| 0 <= k < i + 1 && 0 <= axis < 3 implies
                #[trigger] g@.cells[(k, axis)] == r@[axis * n_free + k] by {
                if k == i {
                    if axis == 0 {
                    } else if axis == 1 {
                    } else {
                        assert(axis == 2);
                    }
                }
            }
        }
    }
    proof {
        assert(g@.cells =~= axis_columns(r@, n_free as nat).cells);
    }
    g
}

impl<B: Backend> MetricWeight<B> {
    pub open spec fn wf(self) -> bool {
        &&& self.d.wf()
        &&& self.s.wf()
        &&& self.d.nrows == self.n_free
        &&& self.d.ncols == self.n_free
        &&& self.s.nrows == self.n_eq
        &&& self.s.ncols == self.n_eq
        &&& 3 * self.n_free <= self.n_eq
        &&& fits(self.n_free as nat, 3)
    }

    /// Whether this is the weight at the force densities `q`.
    pub open spec fn weighs<A: Arithmetic>(
        self,
        ar: A,
        b: B,
        problem: Problem,
        q: Seq<Real>,
        n_eq: nat,
    ) -> bool {
        &&& self.wf()
        &&& self.n_free == problem.n_free()
        &&& self.n_eq == n_eq
        &&& call_ensures(B::factor, (&b, &self.d, strategy_at(q)), Ok(self.d_factor))
        &&& functional(ar) ==> weight_indexable(ar, problem, q, n_eq)
        &&& functional(ar) ==> self.d@ == laplacian(ar, problem, q)
        &&& functional(ar) ==> self.s@ == assembled(
            ar,
            n_eq,
            n_eq,
            weight_terms(laplacian(ar, problem, q), n_eq, problem.n_free()),
        )
    }

    /// Assemble and factor the weight at force densities `q`.
    pub fn build<A: Arithmetic>(ar: &A, b: &B, problem: &Problem, q: &Vec<Real>, n_eq: usize) -> (r:
        Result<MetricWeight<B>, TheseusError>)
        requires
            problem.wf(),
            q@.len() == problem.topology.num_edges,
            3 * problem.n_free() <= n_eq < u32::MAX,
        ensures
            match r {
                Ok(w) => w.weighs(*ar, *b, *problem, q@, n_eq as nat),
                Err(e) => unweighable(e, *ar, *b, *problem, q@, n_eq as nat),
            },
    {
        let cn = &problem.topology.free_incidence;
        let n_free: usize = problem.topology.free_node_indices.len();
        let cn_t = cn.transpose();
        let weighted = row_scaled_copy(ar, cn, q);
        let d = match SparseColMatOwned::sparse_times_sparse(ar, &cn_t, &weighted) {
            Ok(d) => d,
            Err(_) => {
                return Err(TheseusError::Solver(Complaint::Triplets));
            },
        };
        let mut triplets: Vec<Triplet> = Vec::new();
        push_axis_blocks(&mut triplets, &d, n_free);
        push_diagonal(&mut triplets, 3 * n_free, n_eq - 3 * n_free, Real { bits: ONE });
        proof {
            assert(triplets@ =~= weight_terms(d@, n_eq as nat, n_free as nat));
            lemma_weight_placed(d@, n_eq as nat, n_free as nat);
        }
        let s = match SparseColMatOwned::from_triplets(ar, n_eq, n_eq, &triplets) {
            Ok(s) => s,
            Err(e) => {
                return Err(e);
            },
        };
        let strategy = if is_all_positive(q) {
            FactorizationStrategy::Cholesky
        } else {
            FactorizationStrategy::LDL
        };
        match b.factor(&d, strategy) {
            Ok(d_factor) => Ok(MetricWeight { s, d, d_factor, n_free, n_eq }),
            Err(why) => {
                proof {
                    assert(call_ensures(B::factor, (b, &d, strategy_at(q@)), Err(why)));
                }
                Err(TheseusError::Solver(Complaint::LaplacianFactorization { strategy }))
            },
        }
    }

    /// `S^-1 r` from the backend's solution `x` of the axis blocks, if it passes.
    pub fn accept_inverse<A: Arithmetic>(&self, ar: &A, r: &Vec<Real>, x: &Array2) -> (out: Result<
        Vec<Real>,
        TheseusError,
    >)
        requires
            self.wf(),
            r@.len() == self.n_eq,
            x@.rows == self.n_free,
            x@.cols == 3,
        ensures
            inverse_answer(*ar, self.d@, self.n_free as int, r@, x@, out),
    {
        let n_free: usize = self.n_free;
        let mut out: Vec<Real> = Vec::new();
        proof {
            assert(0 * (n_free as int) == 0) by (nonlinear_arith);
        }
        for axis in 0..3usize
            invariant
                self.wf(),
                n_free == self.n_free,
                r@.len() == self.n_eq,
                x@.rows == n_free,
                x@.cols == 3,
                out@.len() == axis * n_free,
                forall|i: int|
                    0 <= i < out@.len() ==> #[trigger] out@[i] == unweighted(
                        x@,
                        r@,
                        n_free as int,
                    )[i],
                forall|i: int| 0 <= i < out@.len() ==> (#[trigger] out@[i]).finite(),
                functional(*ar) ==> forall|k: int|
                    0 <= k < axis ==> #[trigger] passes(*ar, self.d@, x@, r@, n_free as int, k),
        {
            let part = take_axis(r, n_free, axis);
            let y = take_column(x, axis);
            let error = residual_scale(ar, &self.d, &y, &part);
            if !error.is_finite() || error.gt(Real { bits: INVERSE_TOL }) {
                return Err(
                    TheseusError::Solver(
                        Complaint::InaccurateInverse { axis, backward_error: error },
                    ),
                );
            }
            match first_not_finite(&y) {
                Some(_) => {
                    proof {
                        assert(!all_finite(column(x@, axis as int)));
                    }
                    return Err(TheseusError::Solver(Complaint::SingularLaplacian));
                },
                None => {},
            }
            proof {
                if functional(*ar) {
                    assert(passes(*ar, self.d@, x@, r@, n_free as int, axis as int));
                }
            }
            for i in 0..n_free
                invariant
                    self.wf(),
                    n_free == self.n_free,
                    r@.len() == self.n_eq,
                    axis < 3,
                    x@.rows == n_free,
                    x@.cols == 3,
                    y@ == column(x@, axis as int),
                    all_finite(y@),
                    out@.len() == axis * n_free + i,
                    forall|k: int|
                        0 <= k < out@.len() ==> #[trigger] out@[k] == unweighted(
                            x@,
                            r@,
                            n_free as int,
                        )[k],
                    forall|k: int| 0 <= k < out@.len() ==> (#[trigger] out@[k]).finite(),
            {
                proof {
                    vstd::arithmetic::div_mod::lemma_fundamental_div_mod_converse(
                        axis * n_free + i,
                        n_free as int,
                        axis as int,
                        i as int,
                    );
                    assert(axis * n_free + i < 3 * n_free) by (nonlinear_arith)
                        requires
                            0 <= axis < 3,
                            0 <= i < n_free,
                    ;
                    assert(y@[i as int].finite());
                }
                out.push(y[i]);
            }
            proof {
                assert(axis * n_free + n_free == (axis + 1) * n_free) by (nonlinear_arith);
            }
        }
        for i in 3 * n_free..self.n_eq
            invariant
                self.wf(),
                n_free == self.n_free,
                r@.len() == self.n_eq,
                out@.len() == i,
                forall|k: int|
                    0 <= k < out@.len() ==> #[trigger] out@[k] == unweighted(
                        x@,
                        r@,
                        n_free as int,
                    )[k],
                forall|k: int| 0 <= k < 3 * n_free ==> (#[trigger] out@[k]).finite(),
        {
            out.push(r[i]);
        }
        proof {
            assert(out@ =~= unweighted(x@, r@, n_free as int));
        }
        Ok(out)
    }

    /// Apply `S^-1` to an equilibrium-row vector.
    ///
    /// Solves the three axis blocks in one triangular solve and passes the
    /// reaction rows through unchanged.
    pub fn apply_inverse<A: Arithmetic>(&self, ar: &A, b: &B, r: &Vec<Real>) -> (out: Result<
        Vec<Real>,
        TheseusError,
    >)
        requires
            self.wf(),
        ensures
            inverse_applied(*ar, *b, *self, r@, out),
            out matches Ok(v) ==> v@.len() == self.n_eq,
    {
        if r.len() != self.n_eq {
            return Err(
                TheseusError::Shape(
                    Complaint::WeightRows { expected: self.n_eq, found: r.len() },
                ),
            );
        }
        if self.n_free == 0 {
            return Ok(r.clone());
        }
        let rhs = to_axis_columns(r, self.n_free);
        let reply = b.solve_columns(&self.d_factor, &rhs);
        match reply {
            Err(e) => Err(e),
            Ok(x) => {
                let (rows, cols) = x.dim();
                if rows != self.n_free || cols != 3 {
                    return Err(
                        TheseusError::Shape(
                            Complaint::BackendSize { found: rows, expected: self.n_free },
                        ),
                    );
                }
                self.accept_inverse(ar, r, &x)
            },
        }
    }
}

} // verus!
