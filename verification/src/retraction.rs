//! Retraction of positions onto given member lengths.

use crate::arithmetic::{functional, plus, product_of, sum_of, times, Arithmetic};
use crate::array::{fits, Array2, Grid};
use crate::backend::Backend;
use crate::double::{Real, EPSILON, HALF, ONE, TWO, ZERO};
use crate::equilibrium::{
    assembly_outcome, describes, indexable, lemma_free_fits, lengths_of, shaped, undescribed,
    vanishing, EquilibriumSystem, EquilibriumUnknown, ZERO_LENGTH_TOL,
};
use crate::error::{Complaint, TheseusError};
use crate::geometry::reduction;
use crate::lsqr::{apply_transpose_pseudoinverse, lsqr_solution};
use crate::saddle::{saddle_indexable, saddle_solved, solve_saddle_pseudoinverse};
use crate::sparse::{lemma_column, Csc, SparseColMatOwned};
use crate::types::Problem;
use crate::vector::{
    largest, less, multiply, negate, negatives, norm, norm_of, peak, products, squares, subtract,
    sum_of_squares,
};
use vstd::prelude::*;

verus! {

/// The smallest step along a correction, `1 / 4096`.
pub const MIN_STEP: u64 = 0x3F30_0000_0000_0000;

/// The number of steps from one down to the smallest.
pub const STEPS: usize = 13;

/// The default tolerance, `1e-10`.
pub const RETRACTION_TOL: u64 = 0x3DDB_7CDF_D9D7_BDBB;

/// Minimum-norm linear solver used by nonlinear length retraction.
#[derive(Debug, Clone, Copy, PartialEq, Eq, Structural)]
pub enum RowSpaceSolver {
    /// Augmented saddle LDL solve.
    Saddle,
    /// Direct zero-start LSQR action.
    Lsqr,
}

/// Controls Gauss--Newton retraction onto the per-member target lengths.
#[derive(Debug, Clone, Copy, PartialEq, Eq, Structural)]
pub struct LengthRetractionOptions {
    pub max_iterations: usize,
    pub tolerance: Real,
    pub lsqr_max_iterations: usize,
    pub solver: RowSpaceSolver,
}

impl Default for LengthRetractionOptions {
    /// Retraction Jacobians are commonly wide, so their unregularized saddle matrix is
    /// singular: the explicit minimum-norm path is taken.
    fn default() -> (r: LengthRetractionOptions)
        ensures
            r == (LengthRetractionOptions {
                max_iterations: 30,
                tolerance: Real { bits: RETRACTION_TOL },
                lsqr_max_iterations: 0,
                solver: RowSpaceSolver::Lsqr,
            }),
    {
        LengthRetractionOptions {
            max_iterations: 30,
            tolerance: Real { bits: RETRACTION_TOL },
            lsqr_max_iterations: 0,
            solver: RowSpaceSolver::Lsqr,
        }
    }
}

/// Result of per-member length retraction.
#[derive(Debug)]
pub struct LengthRetractionResult {
    pub positions: Array2,
    pub iterations: usize,
    pub converged: bool,
    pub max_length_error: Real,
    pub residual_norm: Real,
}

/// Whether a length can be a target.
pub open spec fn targetable(length: Real) -> bool {
    length.finite() && (Real { bits: ZERO_LENGTH_TOL }).below(length)
}

/// `L^2 - L0^2` for every edge.
pub open spec fn length_residual<A: Arithmetic>(ar: A, lengths: Seq<Real>, targets: Seq<Real>) -> Seq<
    Real,
> {
    less(ar, products(ar, lengths, lengths), products(ar, targets, targets))
}

/// The largest magnitude of `L - L0`.
pub open spec fn length_error<A: Arithmetic>(ar: A, lengths: Seq<Real>, targets: Seq<Real>) -> Real {
    peak(less(ar, lengths, targets), Real { bits: ZERO }, lengths.len() as int)
}

/// The length error at which a retraction has converged.
pub open spec fn allowed_error<A: Arithmetic>(ar: A, targets: Seq<Real>, tolerance: Real) -> Real {
    product_of(
        ar,
        tolerance.larger(Real { bits: EPSILON }),
        longest(targets, targets.len() as int),
    )
}

/// The longest of the first `k` lengths, but at least one.
pub open spec fn longest(targets: Seq<Real>, k: int) -> Real
    decreases k,
{
    if k <= 0 {
        Real { bits: ONE }
    } else {
        longest(targets, k - 1).larger(targets[k - 1])
    }
}

/// The matrix with every column `j` multiplied by `scales[j]`.
pub open spec fn column_scaled<A: Arithmetic>(ar: A, m: Csc, scales: Seq<Real>) -> Csc {
    Csc {
        values: Seq::new(
            m.nnz(),
            |k: int| product_of(ar, m.values[k], scales[m.column_of(k)]),
        ),
        ..m
    }
}

/// Positions moved by `step` along a correction that lists one axis after the other.
pub open spec fn moved_positions<A: Arithmetic>(
    ar: A,
    x: Grid,
    correction: Seq<Real>,
    step: Real,
) -> Grid {
    Grid::generated(
        x.rows,
        3,
        |i: int, d: int|
            sum_of(ar, x.at(i, d), product_of(ar, step, correction[d * x.rows + i])),
    )
}

/// The matrix with every column `j` multiplied by `scales[j]`.
fn scale_columns<A: Arithmetic>(ar: &A, m: &SparseColMatOwned, scales: &Vec<Real>) -> (r:
    SparseColMatOwned)
    requires
        m.wf(),
        scales@.len() == m.ncols,
    ensures
        r.wf(),
        r.nrows == m.nrows,
        r.ncols == m.ncols,
        functional(*ar) ==> r@ == column_scaled(*ar, m@, scales@),
{
    let ghost g = m@;
    let ghost goal = column_scaled(*ar, g, scales@);
    let mut values: Vec<Real> = Vec::new();
    for col in 0..m.ncols
        invariant
            m.wf(),
            g == m@,
            scales@.len() == m.ncols,
            goal == column_scaled(*ar, g, scales@),
            g.starts[col as int] <= g.nnz(),
            values@.len() == g.starts[col as int],
            functional(*ar) ==> forall|k: int|
                0 <= k < values@.len() ==> #[trigger] values@[k] == goal.values[k],
    {
        let start: usize = m.col_ptrs[col] as usize;
        let end: usize = m.col_ptrs[col + 1] as usize;
        assert(g.starts[col as int] <= g.starts[col + 1]);
        assert(g.starts[col + 1] <= g.starts[g.ncols as int]);
        for nz in start..end
            invariant
                m.wf(),
                g == m@,
                scales@.len() == m.ncols,
                goal == column_scaled(*ar, g, scales@),
                col < m.ncols,
                start == g.starts[col as int],
                end == g.starts[col + 1],
                end <= g.nnz(),
                values@.len() == nz,
                functional(*ar) ==> forall|k: int|
                    0 <= k < values@.len() ==> #[trigger] values@[k] == goal.values[k],
        {
            proof {
                lemma_column(g, nz as int, col as int);
            }
            values.push(times(ar, m.values[nz], scales[col]));
        }
    }
    proof {
        if functional(*ar) {
            assert(values@ =~= goal.values);
        }
    }
    SparseColMatOwned {
        nrows: m.nrows,
        ncols: m.ncols,
        col_ptrs: m.col_ptrs.clone(),
        row_indices: m.row_indices.clone(),
        values,
    }
}

/// Positions moved by `step` along a correction.
fn move_positions<A: Arithmetic>(ar: &A, x: &Array2, correction: &Vec<Real>, step: Real) -> (r:
    Array2)
    requires
        x@.cols == 3,
        correction@.len() == 3 * x@.rows,
        fits(x@.rows, 3),
    ensures
        r@.rows == x@.rows,
        r@.cols == 3,
        functional(*ar) ==> r@ == moved_positions(*ar, x@, correction@, step),
{
    let n: usize = x.nrows();
    let ghost goal = moved_positions(*ar, x@, correction@, step);
    let ghost all = correction.len();
    let mut r = Array2::from_elem(n, 3, Real { bits: ZERO });
    for i in 0..n
        invariant
            n == x@.rows,
            x@.cols == 3,
            correction@.len() == 3 * n,
            all == correction@.len(),
            all <= usize::MAX,
            goal == moved_positions(*ar, x@, correction@, step),
            r@.rows == n,
            r@.cols == 3,
            r@.cells.dom() == goal.cells.dom(),
            functional(*ar) ==> forall|k: int, d: int|
                0 <= k < i && 0 <= d < 3 ==> #[trigger] r@.cells[(k, d)] == sum_of(
                    *ar,
                    x@.at(k, d),
                    product_of(*ar, step, correction@[d * n + k]),
                ),
    {
        assert(0 * (n as int) == 0 && 1 * (n as int) == n) by (nonlinear_arith);
        let dx = times(ar, step, correction[i]);
        let dy = times(ar, step, correction[n + i]);
        let dz = times(ar, step, correction[2 * n + i]);
        let px = plus(ar, x.cell(i, 0), dx);
        let py = plus(ar, x.cell(i, 1), dy);
        let pz = plus(ar, x.cell(i, 2), dz);
        r.put(i, 0, px);
        r.put(i, 1, py);
        r.put(i, 2, pz);
        proof {
            assert(r@.cells.dom() =~= goal.cells.dom());
            if functional(*ar) {
                assert forall|k: int, d: int| 0 <= k < i + 1 && 0 <= d < 3 implies
                    #[trigger] r@.cells[(k, d)] == sum_of(
                    *ar,
                    x@.at(k, d),
                    product_of(*ar, step, correction@[d * n + k]),
                ) by {
                    if k == i {
                        if d == 0 {
                        } else if d == 1 {
                        } else {
                            assert(d == 2);
                        }
                    }
                }
            }
        }
    }
    proof {
        if functional(*ar) {
            assert(r@.cells =~= goal.cells);
        }
    }
    r
}

/// `L^2 - L0^2` for every edge.
fn residual_of<A: Arithmetic>(ar: &A, lengths: &Vec<Real>, targets: &Vec<Real>) -> (r: Vec<Real>)
    requires
        lengths@.len() == targets@.len(),
    ensures
        r@.len() == lengths@.len(),
        functional(*ar) ==> r@ == length_residual(*ar, lengths@, targets@),
{
    let found = multiply(ar, lengths, lengths);
    let wanted = multiply(ar, targets, targets);
    subtract(ar, &found, &wanted)
}

/// The longest length, but at least one.
fn longest_of(targets: &Vec<Real>) -> (r: Real)
    ensures
        r == longest(targets@, targets@.len() as int),
{
    let mut r = Real { bits: ONE };
    for i in 0..targets.len()
        invariant
            r == longest(targets@, i as int),
    {
        r = r.max(targets[i]);
    }
    r
}

/// Whether every length can be a target.
fn all_targetable(targets: &Vec<Real>) -> (r: bool)
    ensures
        r == (forall|i: int| 0 <= i < targets@.len() ==> targetable(#[trigger] targets@[i])),
{
    for i in 0..targets.len()
        invariant
            forall|k: int| 0 <= k < i ==> targetable(#[trigger] targets@[k]),
    {
        if !targets[i].is_finite() || targets[i].le(Real { bits: ZERO_LENGTH_TOL }) {
            return false;
        }
    }
    true
}

/// The transposed Jacobian `A(x) diag(2L)` of the squared lengths.
pub open spec fn jacobian_transpose_of<A: Arithmetic>(ar: A, system: EquilibriumSystem) -> Csc {
    column_scaled(
        ar,
        system.a@,
        Seq::new(
            system.n_edges as nat,
            |e: int| product_of(ar, Real { bits: TWO }, system.lengths@[e]),
        ),
    )
}

/// Whether `r` can be the least correction of the positions that lets the lengths follow
/// their residual to first order.
pub open spec fn corrected<A: Arithmetic, B: Backend>(
    ar: A,
    b: B,
    system: EquilibriumSystem,
    residual: Seq<Real>,
    options: LengthRetractionOptions,
    r: Result<Vec<Real>, TheseusError>,
) -> bool {
    let jacobian_transpose = jacobian_transpose_of(ar, system);
    match options.solver {
        RowSpaceSolver::Lsqr => lsqr_solution(
            ar,
            jacobian_transpose,
            negatives(residual),
            true,
            options.tolerance.larger(Real { bits: EPSILON }),
            options.lsqr_max_iterations as nat,
            r,
        ),
        RowSpaceSolver::Saddle => if saddle_indexable(jacobian_transpose.transposed()) {
            saddle_solved(
                ar,
                b,
                jacobian_transpose.transposed(),
                negatives(residual),
                Real { bits: ZERO },
                r,
            )
        } else {
            r == Err::<Vec<Real>, _>(TheseusError::Shape(Complaint::Triplets))
        },
    }
}

/// The minimum-norm Gauss--Newton correction at a system with the given length residual.
///
/// The residual is `L^2 - L0^2`, whose Jacobian transpose is `A(x) diag(2L)`; no normal
/// equations or Gram matrix are formed.
fn correction_at<A: Arithmetic, B: Backend>(
    ar: &A,
    b: &B,
    system: &EquilibriumSystem,
    residual: &Vec<Real>,
    options: &LengthRetractionOptions,
    tolerance: Real,
) -> (r: Result<Vec<Real>, TheseusError>)
    requires
        system.wf(),
        residual@.len() == system.n_edges,
        tolerance == options.tolerance.larger(Real { bits: EPSILON }),
    ensures
        r matches Ok(c) ==> c@.len() == system.n_eq,
        functional(*ar) ==> corrected(*ar, *b, *system, residual@, *options, r),
{
    let mut scales: Vec<Real> = Vec::new();
    for e in 0..system.n_edges
        invariant
            system.wf(),
            scales@.len() == e,
            functional(*ar) ==> forall|k: int|
                0 <= k < e ==> #[trigger] scales@[k] == product_of(
                    *ar,
                    Real { bits: TWO },
                    system.lengths@[k],
                ),
    {
        scales.push(times(ar, Real { bits: TWO }, system.lengths[e]));
    }
    proof {
        if functional(*ar) {
            assert(scales@ =~= Seq::new(
                system.n_edges as nat,
                |e: int| product_of(*ar, Real { bits: TWO }, system.lengths@[e]),
            ));
        }
    }
    let jacobian_transpose = scale_columns(ar, &system.a, &scales);
    let rhs = negate(residual);
    match options.solver {
        RowSpaceSolver::Saddle => {
            let jacobian = jacobian_transpose.transpose();
            solve_saddle_pseudoinverse(
                ar,
                b,
                &jacobian,
                &rhs,
                Real { bits: ZERO },
                tolerance,
                options.lsqr_max_iterations,
            )
        },
        RowSpaceSolver::Lsqr => apply_transpose_pseudoinverse(
            ar,
            &jacobian_transpose,
            &rhs,
            tolerance,
            options.lsqr_max_iterations,
        ),
    }
}

/// The objective of a retraction: half the sum of the squared residuals.
pub open spec fn objective_of<A: Arithmetic>(ar: A, residual: Seq<Real>) -> Real {
    product_of(ar, Real { bits: HALF }, squares(ar, residual, residual.len() as int))
}

/// Whether positions have member directions and less of an objective than this.
pub open spec fn improves<A: Arithmetic>(
    ar: A,
    problem: Problem,
    positions: Grid,
    targets: Seq<Real>,
    objective: Real,
) -> bool {
    &&& indexable(problem, Seq::empty())
    &&& forall|e: int|
        0 <= e < problem.topology.num_edges ==> !vanishing(
            #[trigger] lengths_of(ar, problem, positions)[e],
        )
    &&& objective_of(
        ar,
        length_residual(ar, lengths_of(ar, problem, positions), targets),
    ).below(objective)
}

/// Whether the step may be halved `k` times.
pub open spec fn step_allowed<A: Arithmetic>(ar: A, k: nat) -> bool {
    k < STEPS && forall|j: nat|
        j <= k ==> (Real { bits: MIN_STEP }).at_most(#[trigger] reduction(ar, j))
}

/// Whether the first `k` halved steps along a correction do not improve.
pub open spec fn passed_over<A: Arithmetic>(
    ar: A,
    problem: Problem,
    x: Grid,
    targets: Seq<Real>,
    correction: Seq<Real>,
    objective: Real,
    k: nat,
) -> bool {
    forall|j: nat|
        j < k ==> !improves(
            ar,
            problem,
            #[trigger] moved_positions(ar, x, correction, reduction(ar, j)),
            targets,
            objective,
        )
}

/// Whether `r` is where the first halved step along a correction leads that improves, if
/// one does.
pub open spec fn searched<A: Arithmetic>(
    ar: A,
    problem: Problem,
    x: Grid,
    targets: Seq<Real>,
    correction: Seq<Real>,
    objective: Real,
    r: Option<Grid>,
) -> bool {
    match r {
        Some(g) => exists|k: nat|
            {
                &&& step_allowed(ar, k)
                &&& g == #[trigger] moved_positions(ar, x, correction, reduction(ar, k))
                &&& improves(ar, problem, g, targets, objective)
                &&& passed_over(ar, problem, x, targets, correction, objective, k)
            },
        None => exists|k: nat|
            {
                &&& !step_allowed(ar, k)
                &&& #[trigger] passed_over(ar, problem, x, targets, correction, objective, k)
            },
    }
}

/// The cells of an array that was found.
pub open spec fn grid_found(r: Option<Array2>) -> Option<Grid> {
    match r {
        Some(x) => Some(x@),
        None => None,
    }
}

/// Halves the step along the correction until the objective falls below `objective`.
fn line_search<A: Arithmetic>(
    ar: &A,
    problem: &Problem,
    positions: &Array2,
    targets: &Vec<Real>,
    correction: &Vec<Real>,
    objective: Real,
) -> (r: Option<Array2>)
    requires
        problem.wf(),
        shaped(*problem, positions@),
        targets@.len() == problem.topology.num_edges,
        correction@.len() == 3 * problem.n_free(),
    ensures
        r matches Some(x) ==> shaped(*problem, x@),
        functional(*ar) ==> searched(
            *ar,
            *problem,
            positions@,
            targets@,
            correction@,
            objective,
            grid_found(r),
        ),
{
    proof {
        lemma_free_fits(*problem);
    }
    let smallest = Real { bits: MIN_STEP };
    let mut step = Real { bits: ONE };
    let mut tries: usize = 0;
    while tries < STEPS && step.ge(smallest)
        invariant
            problem.wf(),
            smallest == (Real { bits: MIN_STEP }),
            shaped(*problem, positions@),
            targets@.len() == problem.topology.num_edges,
            correction@.len() == 3 * problem.n_free(),
            fits(problem.n_free(), 3),
            tries <= STEPS,
            functional(*ar) ==> step == reduction(*ar, tries as nat),
            functional(*ar) ==> forall|j: nat|
                j < tries ==> (Real { bits: MIN_STEP }).at_most(#[trigger] reduction(*ar, j)),
            functional(*ar) ==> passed_over(
                *ar,
                *problem,
                positions@,
                targets@,
                correction@,
                objective,
                tries as nat,
            ),
        decreases STEPS - tries,
    {
        let trial = move_positions(ar, positions, correction, step);
        let ghost at = trial@;
        match EquilibriumSystem::force(ar, problem, &trial, false, false, false) {
            Ok(system) => {
                let residual = residual_of(ar, &system.lengths, targets);
                let total = sum_of_squares(ar, &residual, residual.len());
                let value = times(ar, Real { bits: HALF }, total);
                proof {
                    if functional(*ar) {
                        assert forall|e: int| 0 <= e < problem.topology.num_edges implies !vanishing(
                            #[trigger] lengths_of(*ar, *problem, at)[e],
                        ) by {
                            assert(!vanishing(system.lengths@[e]));
                        }
                        assert(value == objective_of(
                            *ar,
                            length_residual(*ar, lengths_of(*ar, *problem, at), targets@),
                        ));
                    }
                }
                if value.lt(objective) {
                    proof {
                        if functional(*ar) {
                            assert(step_allowed(*ar, tries as nat));
                            assert(at == moved_positions(
                                *ar,
                                positions@,
                                correction@,
                                reduction(*ar, tries as nat),
                            ));
                            assert(improves(*ar, *problem, at, targets@, objective));
                        }
                    }
                    return Some(trial);
                }
            },
            Err(_) => {},
        }
        assert(functional(*ar) ==> !improves(*ar, *problem, at, targets@, objective));
        step = times(ar, step, Real { bits: HALF });
        tries = tries + 1;
    }
    proof {
        if functional(*ar) {
            if tries < STEPS {
                assert(!(Real { bits: MIN_STEP }).at_most(reduction(*ar, tries as nat)));
            }
            assert(!step_allowed(*ar, tries as nat));
        }
    }
    None
}

/// Whether `r` tells how well the lengths of `system` meet the targets.
pub open spec fn retraction_report<A: Arithmetic>(
    ar: A,
    problem: Problem,
    system: EquilibriumSystem,
    targets: Seq<Real>,
    options: LengthRetractionOptions,
    r: LengthRetractionResult,
) -> bool {
    &&& describes(
        system,
        ar,
        problem,
        r.positions@,
        EquilibriumUnknown::Force,
        Seq::empty(),
    )
    &&& functional(ar) ==> r.max_length_error == length_error(ar, system.lengths@, targets)
    &&& functional(ar) ==> r.residual_norm == norm_of(
        ar,
        length_residual(ar, system.lengths@, targets),
    )
    &&& functional(ar) ==> r.converged == r.max_length_error.at_most(
        allowed_error(ar, targets, options.tolerance),
    )
}

/// Whether member lengths are near enough to their targets.
pub open spec fn close_enough<A: Arithmetic>(
    ar: A,
    lengths: Seq<Real>,
    targets: Seq<Real>,
    options: LengthRetractionOptions,
) -> bool {
    length_error(ar, lengths, targets).at_most(allowed_error(ar, targets, options.tolerance))
}

/// The objective that a step has to lower.
pub open spec fn objective_here<A: Arithmetic>(ar: A, residual: Seq<Real>) -> Real {
    product_of(
        ar,
        product_of(ar, Real { bits: HALF }, norm_of(ar, residual)),
        norm_of(ar, residual),
    )
}

/// Whether `next` can follow positions `x`, where the system is this.
pub open spec fn retraction_step<A: Arithmetic, B: Backend>(
    ar: A,
    b: B,
    problem: Problem,
    targets: Seq<Real>,
    options: LengthRetractionOptions,
    system: EquilibriumSystem,
    x: Grid,
    next: Result<Grid, TheseusError>,
) -> bool {
    let residual = length_residual(ar, system.lengths@, targets);
    exists|c: Result<Vec<Real>, TheseusError>|
        {
            &&& #[trigger] corrected(ar, b, system, residual, options, c)
            &&& match c {
                Err(e) => next == Err::<Grid, _>(e),
                Ok(correction) => searched(
                    ar,
                    problem,
                    x,
                    targets,
                    correction@,
                    objective_here(ar, residual),
                    match next {
                        Ok(g) => Some(g),
                        Err(_) => None,
                    },
                ) && (next matches Err(e) ==> e == TheseusError::Solver(
                    Complaint::RetractionStuck,
                )),
            }
        }
}

/// Whether `next` can follow positions `x` in one iteration.
pub open spec fn retraction_moves<A: Arithmetic, B: Backend>(
    ar: A,
    b: B,
    problem: Problem,
    targets: Seq<Real>,
    options: LengthRetractionOptions,
    x: Grid,
    next: Grid,
) -> bool {
    exists|system: EquilibriumSystem|
        {
            &&& assembly_outcome(
                ar,
                problem,
                x,
                EquilibriumUnknown::Force,
                Seq::empty(),
                Ok(system),
            )
            &&& !close_enough(ar, system.lengths@, targets, options)
            &&& #[trigger] retraction_step(
                ar,
                b,
                problem,
                targets,
                options,
                system,
                x,
                Ok(next),
            )
        }
}

/// Whether `x` can be the positions after `k` iterations.
pub open spec fn retraction_reaches<A: Arithmetic, B: Backend>(
    ar: A,
    b: B,
    problem: Problem,
    targets: Seq<Real>,
    options: LengthRetractionOptions,
    initial: Grid,
    k: nat,
    x: Grid,
) -> bool
    decreases k,
{
    if k == 0 {
        x == initial
    } else {
        exists|before: Grid|
            {
                &&& retraction_reaches(
                    ar,
                    b,
                    problem,
                    targets,
                    options,
                    initial,
                    (k - 1) as nat,
                    before,
                )
                &&& #[trigger] retraction_moves(ar, b, problem, targets, options, before, x)
            }
    }
}

/// Whether `r` can be how the retraction ends at positions `x` after `k` iterations.
pub open spec fn retraction_ends<A: Arithmetic, B: Backend>(
    ar: A,
    b: B,
    problem: Problem,
    targets: Seq<Real>,
    options: LengthRetractionOptions,
    k: nat,
    x: Grid,
    system: EquilibriumSystem,
    r: Result<LengthRetractionResult, TheseusError>,
) -> bool {
    if close_enough(ar, system.lengths@, targets, options) || k >= options.max_iterations {
        r matches Ok(found) && found.positions@ == x && found.iterations == k
            && retraction_report(ar, problem, system, targets, options, found)
    } else {
        r is Err && retraction_step(
            ar,
            b,
            problem,
            targets,
            options,
            system,
            x,
            Err(r->Err_0),
        )
    }
}

/// Whether `r` can be what a retraction comes to: it goes on until the lengths are near
/// enough, the iterations are used up, or one fails.
pub open spec fn retraction_outcome<A: Arithmetic, B: Backend>(
    ar: A,
    b: B,
    problem: Problem,
    targets: Seq<Real>,
    options: LengthRetractionOptions,
    initial: Grid,
    r: Result<LengthRetractionResult, TheseusError>,
) -> bool {
    exists|k: nat, x: Grid, system: Result<EquilibriumSystem, TheseusError>|
        {
            &&& #[trigger] retraction_reaches(
                ar,
                b,
                problem,
                targets,
                options,
                initial,
                k,
                x,
            )
            &&& k <= options.max_iterations
            &&& #[trigger] assembly_outcome(
                ar,
                problem,
                x,
                EquilibriumUnknown::Force,
                Seq::empty(),
                system,
            )
            &&& match system {
                Err(e) => r == Err::<LengthRetractionResult, _>(e),
                Ok(s) => retraction_ends(ar, b, problem, targets, options, k, x, s, r),
            }
        }
}

/// Retract free-node positions onto each member's own target length.
///
/// The residual is `L^2 - L0^2`, whose Jacobian transpose is
/// `A(x) diag(2L)`. Every Gauss--Newton increment is the minimum-norm solution
/// and therefore lies in the Jacobian row space; no normal equations or Gram
/// matrix are formed.
pub fn retract_member_lengths<A: Arithmetic, B: Backend>(
    ar: &A,
    b: &B,
    problem: &Problem,
    initial_free_xyz: &Array2,
    target_lengths: &Vec<Real>,
    options: &LengthRetractionOptions,
) -> (r: Result<LengthRetractionResult, TheseusError>)
    requires
        problem.wf(),
    ensures
        if !shaped(*problem, initial_free_xyz@) {
            r == Err::<LengthRetractionResult, _>(
                TheseusError::Shape(
                    Complaint::RetractionShape {
                        rows: initial_free_xyz@.rows as usize,
                        cols: initial_free_xyz@.cols as usize,
                        expected: problem.n_free() as usize,
                    },
                ),
            )
        } else if target_lengths@.len() != problem.topology.num_edges {
            r == Err::<LengthRetractionResult, _>(TheseusError::Shape(Complaint::RetractionCount))
        } else if exists|i: int|
            0 <= i < target_lengths@.len() && !targetable(#[trigger] target_lengths@[i]) {
            r == Err::<LengthRetractionResult, _>(TheseusError::Solver(Complaint::RetractionLengths))
        } else {
            &&& !indexable(*problem, Seq::empty()) ==> r is Err && undescribed(
                r->Err_0,
                *ar,
                *problem,
                initial_free_xyz@,
                Seq::empty(),
            )
            &&& r matches Ok(found) ==> {
                &&& found.iterations <= options.max_iterations
                &&& !found.converged ==> found.iterations == options.max_iterations
                &&& found.iterations == 0 ==> found.positions@ == initial_free_xyz@
                &&& exists|system: EquilibriumSystem|
                    #[trigger] retraction_report(
                        *ar,
                        *problem,
                        system,
                        target_lengths@,
                        *options,
                        found,
                    )
            }
            &&& functional(*ar) ==> retraction_outcome(
                *ar,
                *b,
                *problem,
                target_lengths@,
                *options,
                initial_free_xyz@,
                r,
            )
        },
{
    let n_free: usize = problem.topology.free_node_indices.len();
    let (rows, cols) = initial_free_xyz.dim();
    if rows != n_free || cols != 3 {
        return Err(
            TheseusError::Shape(
                Complaint::RetractionShape { rows, cols, expected: n_free },
            ),
        );
    }
    if target_lengths.len() != problem.topology.num_edges {
        return Err(TheseusError::Shape(Complaint::RetractionCount));
    }
    if !all_targetable(target_lengths) {
        return Err(TheseusError::Solver(Complaint::RetractionLengths));
    }
    let tolerance = options.tolerance.max(Real { bits: EPSILON });
    let allowed = times(ar, tolerance, longest_of(target_lengths));
    let mut positions = initial_free_xyz.clone();
    let mut iterations: usize = 0;
    loop
        invariant
            problem.wf(),
            shaped(*problem, positions@),
            shaped(*problem, initial_free_xyz@),
            target_lengths@.len() == problem.topology.num_edges,
            forall|i: int|
                0 <= i < target_lengths@.len() ==> targetable(#[trigger] target_lengths@[i]),
            iterations <= options.max_iterations,
            iterations == 0 ==> positions@ == initial_free_xyz@,
            iterations > 0 ==> indexable(*problem, Seq::empty()),
            functional(*ar) ==> allowed == allowed_error(
                *ar,
                target_lengths@,
                options.tolerance,
            ),
            tolerance == options.tolerance.larger(Real { bits: EPSILON }),
            functional(*ar) ==> retraction_reaches(
                *ar,
                *b,
                *problem,
                target_lengths@,
                *options,
                initial_free_xyz@,
                iterations as nat,
                positions@,
            ),
        decreases options.max_iterations - iterations,
    {
        let ghost here = positions@;
        let assembled = EquilibriumSystem::force(ar, problem, &positions, false, false, false);
        let ghost given = assembled;
        assert(assembly_outcome(
            *ar,
            *problem,
            here,
            EquilibriumUnknown::Force,
            Seq::empty(),
            given,
        ));
        let system = match assembled {
            Ok(s) => s,
            Err(e) => {
                return Err(e);
            },
        };
        let differences = subtract(ar, &system.lengths, target_lengths);
        let residual = residual_of(ar, &system.lengths, target_lengths);
        let residual_norm = norm(ar, &residual);
        let max_length_error = largest(&differences, Real { bits: ZERO });
        let converged = max_length_error.le(allowed);
        if converged || iterations >= options.max_iterations {
            let found = LengthRetractionResult {
                positions,
                iterations,
                converged,
                max_length_error,
                residual_norm,
            };
            assert(retraction_report(
                *ar,
                *problem,
                system,
                target_lengths@,
                *options,
                found,
            ));
            let r: Result<LengthRetractionResult, TheseusError> = Ok(found);
            assert(r->Ok_0 == found);
            assert(functional(*ar) ==> retraction_ends(
                *ar,
                *b,
                *problem,
                target_lengths@,
                *options,
                iterations as nat,
                here,
                system,
                r,
            ));
            return r;
        }
        let solved = correction_at(ar, b, &system, &residual, options, tolerance);
        let ghost reply = solved;
        let ghost gap = length_residual(*ar, system.lengths@, target_lengths@);
        assert(functional(*ar) ==> corrected(*ar, *b, system, gap, *options, reply));
        let correction = match solved {
            Ok(c) => c,
            Err(e) => {
                let r: Result<LengthRetractionResult, TheseusError> = Err(e);
                proof {
                    if functional(*ar) {
                        assert(retraction_step(
                            *ar,
                            *b,
                            *problem,
                            target_lengths@,
                            *options,
                            system,
                            here,
                            Err(r->Err_0),
                        ));
                    }
                }
                return r;
            },
        };
        let half = times(ar, Real { bits: HALF }, residual_norm);
        let objective = times(ar, half, residual_norm);
        positions = match line_search(
            ar,
            problem,
            &positions,
            target_lengths,
            &correction,
            objective,
        ) {
            Some(x) => x,
            None => {
                let r: Result<LengthRetractionResult, TheseusError> = Err(
                    TheseusError::Solver(Complaint::RetractionStuck),
                );
                proof {
                    if functional(*ar) {
                        assert(retraction_step(
                            *ar,
                            *b,
                            *problem,
                            target_lengths@,
                            *options,
                            system,
                            here,
                            Err(r->Err_0),
                        ));
                    }
                }
                return r;
            },
        };
        proof {
            if functional(*ar) {
                assert(retraction_step(
                    *ar,
                    *b,
                    *problem,
                    target_lengths@,
                    *options,
                    system,
                    here,
                    Ok(positions@),
                ));
                assert(retraction_moves(
                    *ar,
                    *b,
                    *problem,
                    target_lengths@,
                    *options,
                    here,
                    positions@,
                ));
            }
        }
        iterations = iterations + 1;
    }
}

/// Every iteration of a retraction lowers its objective.
pub proof fn every_retraction_improves<A: Arithmetic, B: Backend>(
    ar: A,
    b: B,
    problem: Problem,
    targets: Seq<Real>,
    options: LengthRetractionOptions,
    x: Grid,
    next: Grid,
)
    requires
        functional(ar),
        retraction_moves(ar, b, problem, targets, options, x, next),
    ensures
        improves(
            ar,
            problem,
            next,
            targets,
            objective_here(ar, length_residual(ar, lengths_of(ar, problem, x), targets)),
        ),
{
}

} // verus!
