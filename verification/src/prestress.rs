//! Second-order classification of mechanisms under prestress.

use crate::arithmetic::{functional, over, plus, product_of, quotient_of, sum_of, times, Arithmetic};
use crate::array::{fits, Array2, Grid};
use crate::double::{Real, EPSILON, ONE, ZERO};
use crate::eigen::{eigen_outcome, symmetric_eigen_jacobi};
use crate::equilibrium::EquilibriumSystem;
use crate::error::{Complaint, TheseusError};
use crate::sparse::SparseColMatOwned;
use crate::types::Problem;
use crate::vector::{all_finite, first_not_finite, largest, peak};
use vstd::prelude::*;

verus! {

/// Second-order classification of a mechanism eigenmode.
#[derive(Debug, Clone, Copy, PartialEq, Eq, Structural)]
pub enum MechanismClass {
    PrestressStable,
    FiniteCandidate,
    PrestressUnstable,
}

/// Geometric stiffness restricted to a supplied mechanism basis.
#[derive(Debug)]
pub struct PrestressClassification {
    /// `Phi' K_g Phi`, before diagonalization.
    pub restricted_stiffness: Array2,
    /// Ascending eigenvalues of the restricted stiffness.
    pub eigenvalues: Vec<Real>,
    /// Eigenvectors by columns, in coordinates of the supplied basis.
    pub eigenvectors: Array2,
    pub classes: Vec<MechanismClass>,
}

/// The place of a node among the first `k` free nodes; the last one counts.
pub open spec fn free_place(free: Seq<usize>, node: int, k: int) -> Option<int>
    decreases k,
{
    if k <= 0 {
        None
    } else if free[k - 1] == node {
        Some(k - 1)
    } else {
        free_place(free, node, k - 1)
    }
}

/// What a mode moves the ends of an edge apart along an axis, as far as its first `k` ends
/// contribute.
pub open spec fn relative_motion<A: Arithmetic>(
    ar: A,
    ends: Seq<(u32, Real)>,
    free: Seq<usize>,
    modes: Grid,
    axis: int,
    mode: int,
    k: int,
) -> Real
    decreases k,
{
    if k <= 0 {
        Real { bits: ZERO }
    } else {
        let before = relative_motion(ar, ends, free, modes, axis, mode, k - 1);
        match free_place(free, ends[k - 1].0 as int, free.len() as int) {
            None => before,
            Some(i) => sum_of(
                ar,
                before,
                product_of(ar, ends[k - 1].1, modes.at(axis * free.len() + i, mode)),
            ),
        }
    }
}

/// What a mode moves the ends of edge `e` apart along an axis.
pub open spec fn edge_motion<A: Arithmetic>(
    ar: A,
    problem: Problem,
    modes: Grid,
    axis: int,
    mode: int,
    e: int,
) -> Real {
    let inc = problem.topology.incidence@;
    let ends = inc.row_list(e, inc.nnz() as int);
    relative_motion(
        ar,
        ends,
        problem.topology.free_node_indices@,
        modes,
        axis,
        mode,
        ends.len() as int,
    )
}

/// What edge `e` contributes to the stiffness between two modes, along the first `axes` axes.
pub open spec fn edge_stiffness<A: Arithmetic>(
    ar: A,
    problem: Problem,
    q: Real,
    modes: Grid,
    left: int,
    right: int,
    e: int,
    axes: int,
) -> Real
    decreases axes,
{
    if axes <= 0 {
        Real { bits: ZERO }
    } else {
        sum_of(
            ar,
            edge_stiffness(ar, problem, q, modes, left, right, e, axes - 1),
            product_of(
                ar,
                product_of(ar, q, edge_motion(ar, problem, modes, axes - 1, left, e)),
                edge_motion(ar, problem, modes, axes - 1, right, e),
            ),
        )
    }
}

/// The stiffness between two modes, as far as the first `k` edges contribute.
pub open spec fn mode_stiffness<A: Arithmetic>(
    ar: A,
    problem: Problem,
    lengths: Seq<Real>,
    t: Seq<Real>,
    modes: Grid,
    left: int,
    right: int,
    k: int,
) -> Real
    decreases k,
{
    if k <= 0 {
        Real { bits: ZERO }
    } else {
        sum_of(
            ar,
            mode_stiffness(ar, problem, lengths, t, modes, left, right, k - 1),
            edge_stiffness(
                ar,
                problem,
                quotient_of(ar, t[k - 1], lengths[k - 1]),
                modes,
                left,
                right,
                k - 1,
                3,
            ),
        )
    }
}

/// The restricted stiffness `Phi' K_g Phi`, where `K_g = Cn' diag(t/L) Cn` on every axis.
pub open spec fn restricted_stiffness<A: Arithmetic>(
    ar: A,
    problem: Problem,
    lengths: Seq<Real>,
    t: Seq<Real>,
    modes: Grid,
) -> Grid {
    Grid::generated(
        modes.cols,
        modes.cols,
        |i: int, j: int|
            mode_stiffness(
                ar,
                problem,
                lengths,
                t,
                modes,
                if i <= j {
                    i
                } else {
                    j
                },
                if i <= j {
                    j
                } else {
                    i
                },
                problem.topology.num_edges as int,
            ),
    )
}

/// The eigenvalue that separates stable and unstable modes from undecided ones.
pub open spec fn class_threshold<A: Arithmetic>(ar: A, eigenvalues: Seq<Real>, tolerance: Real) -> Real {
    product_of(
        ar,
        tolerance.larger(Real { bits: EPSILON }),
        peak(eigenvalues, Real { bits: ONE }, eigenvalues.len() as int),
    )
}

/// The class of an eigenvalue.
pub open spec fn class_of(value: Real, threshold: Real) -> MechanismClass {
    if threshold.below(value) {
        MechanismClass::PrestressStable
    } else if value.below(threshold.negated()) {
        MechanismClass::PrestressUnstable
    } else {
        MechanismClass::FiniteCandidate
    }
}

/// The class of an eigenvalue.
pub fn classify(value: Real, threshold: Real) -> (r: MechanismClass)
    ensures
        r == class_of(value, threshold),
{
    if value.gt(threshold) {
        MechanismClass::PrestressStable
    } else if value.lt(threshold.neg()) {
        MechanismClass::PrestressUnstable
    } else {
        MechanismClass::FiniteCandidate
    }
}

/// The place of every node among the free nodes.
fn free_places(num_nodes: usize, free: &Vec<usize>) -> (r: Vec<Option<usize>>)
    requires
        forall|i: int| 0 <= i < free@.len() ==> #[trigger] free@[i] < num_nodes,
    ensures
        r@.len() == num_nodes,
        forall|node: int|
            0 <= node < num_nodes ==> match #[trigger] r@[node] {
                None => free_place(free@, node, free@.len() as int) is None,
                Some(i) => free_place(free@, node, free@.len() as int) == Some(i as int) && i
                    < free@.len(),
            },
{
    let mut r: Vec<Option<usize>> = Vec::new();
    for node in 0..num_nodes
        invariant
            r@.len() == node,
            forall|i: int| 0 <= i < node ==> #[trigger] r@[i] is None,
    {
        r.push(None);
    }
    for k in 0..free.len()
        invariant
            r@.len() == num_nodes,
            forall|i: int| 0 <= i < free@.len() ==> #[trigger] free@[i] < num_nodes,
            forall|node: int|
                0 <= node < num_nodes ==> match #[trigger] r@[node] {
                    None => free_place(free@, node, k as int) is None,
                    Some(i) => free_place(free@, node, k as int) == Some(i as int) && i < k,
                },
    {
        let node: usize = free[k];
        r[node] = Some(k);
    }
    r
}

/// What a mode moves the ends of every edge apart along an axis.
fn edge_motions<A: Arithmetic>(
    ar: &A,
    problem: &Problem,
    inc_t: &SparseColMatOwned,
    places: &Vec<Option<usize>>,
    modes: &Array2,
    axis: usize,
    mode: usize,
) -> (r: Vec<Real>)
    requires
        problem.wf(),
        inc_t.wf(),
        inc_t@ == problem.topology.incidence@.transposed(),
        inc_t.nrows == problem.topology.num_nodes,
        inc_t.ncols == problem.topology.num_edges,
        places@.len() == problem.topology.num_nodes,
        forall|node: int|
            0 <= node < problem.topology.num_nodes ==> match #[trigger] places@[node] {
                None => free_place(
                    problem.topology.free_node_indices@,
                    node,
                    problem.n_free() as int,
                ) is None,
                Some(i) => free_place(
                    problem.topology.free_node_indices@,
                    node,
                    problem.n_free() as int,
                ) == Some(i as int) && i < problem.n_free(),
            },
        modes@.rows == 3 * problem.n_free(),
        axis < 3,
        mode < modes@.cols,
    ensures
        r@.len() == problem.topology.num_edges,
        functional(*ar) ==> forall|e: int|
            0 <= e < r@.len() ==> #[trigger] r@[e] == edge_motion(
                *ar,
                *problem,
                modes@,
                axis as int,
                mode as int,
                e,
            ),
{
    let ghost inc = problem.topology.incidence@;
    let ghost free = problem.topology.free_node_indices@;
    let n_free: usize = problem.topology.free_node_indices.len();
    let mut r: Vec<Real> = Vec::new();
    for e in 0..problem.topology.num_edges
        invariant
            problem.wf(),
            inc == problem.topology.incidence@,
            free == problem.topology.free_node_indices@,
            n_free == free.len(),
            inc_t.wf(),
            inc_t@ == inc.transposed(),
            inc_t.nrows == problem.topology.num_nodes,
            inc_t.ncols == problem.topology.num_edges,
            places@.len() == problem.topology.num_nodes,
            forall|node: int|
                0 <= node < problem.topology.num_nodes ==> match #[trigger] places@[node] {
                    None => free_place(free, node, n_free as int) is None,
                    Some(i) => free_place(free, node, n_free as int) == Some(i as int) && i < n_free,
                },
            modes@.rows == 3 * n_free,
            axis < 3,
            mode < modes@.cols,
            r@.len() == e,
            functional(*ar) ==> forall|k: int|
                0 <= k < e ==> #[trigger] r@[k] == edge_motion(
                    *ar,
                    *problem,
                    modes@,
                    axis as int,
                    mode as int,
                    k,
                ),
    {
        let ghost ends = inc.row_list(e as int, inc.nnz() as int);
        let start: usize = inc_t.col_ptrs[e] as usize;
        let end: usize = inc_t.col_ptrs[e + 1] as usize;
        assert(inc_t@.starts[e as int] <= inc_t@.starts[e + 1]);
        assert(inc_t@.starts[e + 1] <= inc_t@.starts[inc_t.ncols as int]);
        proof {
            crate::sparse::lemma_transposed_column(inc, e as int);
        }
        let mut total = Real { bits: ZERO };
        for nz in start..end
            invariant
                problem.wf(),
                free == problem.topology.free_node_indices@,
                n_free == free.len(),
                inc_t.wf(),
                inc_t@ == inc.transposed(),
                inc_t.nrows == problem.topology.num_nodes,
                places@.len() == problem.topology.num_nodes,
                forall|node: int|
                    0 <= node < problem.topology.num_nodes ==> match #[trigger] places@[node] {
                        None => free_place(free, node, n_free as int) is None,
                        Some(i) => free_place(free, node, n_free as int) == Some(i as int) && i
                            < n_free,
                    },
                modes@.rows == 3 * n_free,
                axis < 3,
                mode < modes@.cols,
                start == inc_t@.starts[e as int],
                end <= inc_t@.nnz(),
                end - start == ends.len(),
                forall|k: int|
                    0 <= k < ends.len() ==> #[trigger] ends[k] == (
                        inc_t@.rows[start + k],
                        inc_t@.values[start + k],
                    ),
                functional(*ar) ==> total == relative_motion(
                    *ar,
                    ends,
                    free,
                    modes@,
                    axis as int,
                    mode as int,
                    nz - start,
                ),
        {
            let node: usize = inc_t.row_indices[nz] as usize;
            proof {
                assert(inc_t@.rows[nz as int] < inc_t@.nrows);
                assert(ends[nz - start] == (
                    inc_t@.rows[start + (nz - start)],
                    inc_t@.values[start + (nz - start)],
                ));
            }
            match places[node] {
                Some(i) => {
                    proof {
                        assert(axis * n_free + i < 3 * n_free) by (nonlinear_arith)
                            requires
                                0 <= axis < 3,
                                0 <= i < n_free,
                        ;
                        assert(0 <= axis * n_free) by (nonlinear_arith)
                            requires
                                0 <= axis,
                                0 <= n_free,
                        ;
                    }
                    let moved = modes.cell(axis * n_free + i, mode);
                    let term = times(ar, inc_t.values[nz], moved);
                    total = plus(ar, total, term);
                },
                None => {},
            }
        }
        r.push(total);
    }
    r
}

/// The motions of all edges, first by mode and then by axis.
spec fn motions_table<A: Arithmetic>(
    table: Seq<Vec<Real>>,
    ar: A,
    problem: Problem,
    modes: Grid,
    count: int,
) -> bool {
    &&& table.len() == count
    &&& forall|k: int|
        0 <= k < count ==> (#[trigger] table[k])@.len() == problem.topology.num_edges
    &&& functional(ar) ==> forall|k: int, e: int|
        0 <= k < count && 0 <= e < problem.topology.num_edges ==> #[trigger] table[k]@[e]
            == edge_motion(ar, problem, modes, k % 3, k / 3, e)
}

/// The stiffness between two modes.
fn pair_stiffness<A: Arithmetic>(
    ar: &A,
    problem: &Problem,
    lengths: &Vec<Real>,
    t: &Vec<Real>,
    table: &Vec<Vec<Real>>,
    left: usize,
    right: usize,
    modes: &Array2,
) -> (r: Real)
    requires
        lengths@.len() == problem.topology.num_edges,
        t@.len() == problem.topology.num_edges,
        left < modes@.cols,
        right < modes@.cols,
        motions_table(table@, *ar, *problem, modes@, 3 * modes@.cols as int),
    ensures
        functional(*ar) ==> r == mode_stiffness(
            *ar,
            *problem,
            lengths@,
            t@,
            modes@,
            left as int,
            right as int,
            problem.topology.num_edges as int,
        ),
{
    let ghost size = table.len();
    let mut total = Real { bits: ZERO };
    for e in 0..problem.topology.num_edges
        invariant
            lengths@.len() == problem.topology.num_edges,
            t@.len() == problem.topology.num_edges,
            left < modes@.cols,
            right < modes@.cols,
            size == table@.len(),
            motions_table(table@, *ar, *problem, modes@, 3 * modes@.cols as int),
            functional(*ar) ==> total == mode_stiffness(
                *ar,
                *problem,
                lengths@,
                t@,
                modes@,
                left as int,
                right as int,
                e as int,
            ),
    {
        let q = over(ar, t[e], lengths[e]);
        let mut value = Real { bits: ZERO };
        for axis in 0..3usize
            invariant
                e < problem.topology.num_edges,
                left < modes@.cols,
                right < modes@.cols,
                size == table@.len(),
                size <= usize::MAX,
                motions_table(table@, *ar, *problem, modes@, 3 * modes@.cols as int),
                functional(*ar) ==> value == edge_stiffness(
                    *ar,
                    *problem,
                    q,
                    modes@,
                    left as int,
                    right as int,
                    e as int,
                    axis as int,
                ),
        {
            let l: usize = 3 * left + axis;
            let r: usize = 3 * right + axis;
            proof {
                assert(table@[l as int]@.len() == problem.topology.num_edges);
                assert(table@[r as int]@.len() == problem.topology.num_edges);
                assert(l % 3 == axis && l / 3 == left && r % 3 == axis && r / 3 == right);
            }
            let first = times(ar, q, table[l][e]);
            let term = times(ar, first, table[r][e]);
            value = plus(ar, value, term);
        }
        total = plus(ar, total, value);
    }
    total
}

/// The restricted stiffness.
fn restrict<A: Arithmetic>(
    ar: &A,
    problem: &Problem,
    lengths: &Vec<Real>,
    t: &Vec<Real>,
    modes: &Array2,
) -> (g: Array2)
    requires
        problem.wf(),
        lengths@.len() == problem.topology.num_edges,
        t@.len() == problem.topology.num_edges,
        modes@.rows == 3 * problem.n_free(),
        fits(modes@.cols, modes@.cols),
    ensures
        g@.rows == modes@.cols,
        g@.cols == modes@.cols,
        functional(*ar) ==> g@ == restricted_stiffness(*ar, *problem, lengths@, t@, modes@),
{
    let n: usize = modes.ncols();
    let inc_t = problem.topology.incidence.transpose();
    let places = free_places(problem.topology.num_nodes, &problem.topology.free_node_indices);
    let mut table: Vec<Vec<Real>> = Vec::new();
    for mode in 0..n
        invariant
            problem.wf(),
            n == modes@.cols,
            modes@.rows == 3 * problem.n_free(),
            inc_t.wf(),
            inc_t@ == problem.topology.incidence@.transposed(),
            inc_t.nrows == problem.topology.num_nodes,
            inc_t.ncols == problem.topology.num_edges,
            places@.len() == problem.topology.num_nodes,
            forall|node: int|
                0 <= node < problem.topology.num_nodes ==> match #[trigger] places@[node] {
                    None => free_place(
                        problem.topology.free_node_indices@,
                        node,
                        problem.n_free() as int,
                    ) is None,
                    Some(i) => free_place(
                        problem.topology.free_node_indices@,
                        node,
                        problem.n_free() as int,
                    ) == Some(i as int) && i < problem.n_free(),
                },
            motions_table(table@, *ar, *problem, modes@, 3 * mode as int),
    {
        for axis in 0..3usize
            invariant
                problem.wf(),
                mode < n,
                n == modes@.cols,
                modes@.rows == 3 * problem.n_free(),
                inc_t.wf(),
                inc_t@ == problem.topology.incidence@.transposed(),
                inc_t.nrows == problem.topology.num_nodes,
                inc_t.ncols == problem.topology.num_edges,
                places@.len() == problem.topology.num_nodes,
                forall|node: int|
                    0 <= node < problem.topology.num_nodes ==> match #[trigger] places@[node] {
                        None => free_place(
                            problem.topology.free_node_indices@,
                            node,
                            problem.n_free() as int,
                        ) is None,
                        Some(i) => free_place(
                            problem.topology.free_node_indices@,
                            node,
                            problem.n_free() as int,
                        ) == Some(i as int) && i < problem.n_free(),
                    },
                motions_table(table@, *ar, *problem, modes@, 3 * mode + axis),
        {
            let motions = edge_motions(ar, problem, &inc_t, &places, modes, axis, mode);
            let ghost before = table@;
            table.push(motions);
            proof {
                let count = 3 * mode + axis + 1;
                assert forall|k: int, e: int|
                    functional(*ar) && 0 <= k < count && 0 <= e
                        < problem.topology.num_edges implies #[trigger] table@[k]@[e]
                    == edge_motion(*ar, *problem, modes@, k % 3, k / 3, e) by {
                    if k < count - 1 {
                        assert(table@[k]@[e] == before[k]@[e]);
                    } else {
                        assert(k % 3 == axis && k / 3 == mode);
                    }
                }
            }
        }
    }
    let ghost goal = restricted_stiffness(*ar, *problem, lengths@, t@, modes@);
    let mut g = Array2::from_elem(n, n, Real { bits: ZERO });
    for left in 0..n
        invariant
            n == modes@.cols,
            lengths@.len() == problem.topology.num_edges,
            t@.len() == problem.topology.num_edges,
            motions_table(table@, *ar, *problem, modes@, 3 * n as int),
            goal == restricted_stiffness(*ar, *problem, lengths@, t@, modes@),
            g@.rows == n,
            g@.cols == n,
            g@.cells.dom() == goal.cells.dom(),
            functional(*ar) ==> forall|i: int, j: int|
                0 <= i < n && 0 <= j < n && (i < left || j < left) ==> #[trigger] g@.cells[(i, j)]
                    == goal.cells[(i, j)],
    {
        for right in left..n
            invariant
                left < n,
                n == modes@.cols,
                lengths@.len() == problem.topology.num_edges,
                t@.len() == problem.topology.num_edges,
                motions_table(table@, *ar, *problem, modes@, 3 * n as int),
                goal == restricted_stiffness(*ar, *problem, lengths@, t@, modes@),
                g@.rows == n,
                g@.cols == n,
                g@.cells.dom() == goal.cells.dom(),
                functional(*ar) ==> forall|i: int, j: int|
                    0 <= i < n && 0 <= j < n && (i < left || j < left || (i == left && j < right)
                        || (j == left && i < right)) ==> #[trigger] g@.cells[(i, j)]
                        == goal.cells[(i, j)],
        {
            let value = pair_stiffness(ar, problem, lengths, t, &table, left, right, modes);
            g.put(left, right, value);
            if left != right {
                g.put(right, left, value);
            }
            assert(g@.cells.dom() =~= goal.cells.dom());
        }
    }
    proof {
        if functional(*ar) {
            assert forall|x: (int, int)| #[trigger] g@.cells.dom().contains(x) implies g@.cells[x]
                == goal.cells[x] by {
                assert(x == (x.0, x.1));
            }
            assert(g@.cells =~= goal.cells);
        }
    }
    g
}

/// The complaint that is due about the arguments of a classification.
pub open spec fn prestress_complaint(
    problem: Problem,
    system: EquilibriumSystem,
    t: Seq<Real>,
    modes: Grid,
) -> Option<TheseusError> {
    if system.n_free != problem.n_free() || system.lengths@.len() != problem.topology.num_edges {
        Some(TheseusError::Shape(Complaint::PrestressSystem))
    } else if t.len() != problem.topology.num_edges {
        Some(TheseusError::Shape(Complaint::PrestressCount))
    } else if modes.rows != 3 * problem.n_free() {
        Some(
            TheseusError::Shape(
                Complaint::MechanismRows {
                    found: modes.rows as usize,
                    expected: (3 * problem.n_free()) as usize,
                },
            ),
        )
    } else if !all_finite(t) {
        Some(TheseusError::Solver(Complaint::PrestressNotFinite))
    } else {
        None
    }
}

/// Whether `r` classifies the eigenmodes of the stiffness restricted to the mechanisms.
pub open spec fn classified<A: Arithmetic>(
    ar: A,
    problem: Problem,
    system: EquilibriumSystem,
    t: Seq<Real>,
    modes: Grid,
    tolerance: Real,
    r: PrestressClassification,
) -> bool {
    let n = modes.cols;
    &&& r.restricted_stiffness@.rows == n
    &&& r.restricted_stiffness@.cols == n
    &&& eigen_outcome(
        ar,
        r.restricted_stiffness@,
        tolerance,
        Ok((r.eigenvalues, r.eigenvectors)),
    )
    &&& r.classes@.len() == n
    &&& functional(ar) ==> r.restricted_stiffness@ == restricted_stiffness(
        ar,
        problem,
        system.lengths@,
        t,
        modes,
    )
    &&& functional(ar) ==> r.classes@ == Seq::new(
        n,
        |i: int|
            class_of(
                r.eigenvalues@[i],
                class_threshold(ar, r.eigenvalues@, tolerance),
            ),
    )
}

/// Whether `r` is the classification of mechanisms, or why there is none.
pub open spec fn classification_outcome<A: Arithmetic>(
    ar: A,
    problem: Problem,
    system: EquilibriumSystem,
    t: Seq<Real>,
    modes: Grid,
    tolerance: Real,
    r: Result<PrestressClassification, TheseusError>,
) -> bool {
    match prestress_complaint(problem, system, t, modes) {
        Some(e) => r == Err::<PrestressClassification, _>(e),
        None => match r {
            Ok(c) => classified(
                ar,
                problem,
                system,
                t,
                modes,
                tolerance,
                c,
            ),
            Err(e) => exists|g: Grid|
                {
                    &&& g.rows == modes.cols
                    &&& g.cols == modes.cols
                    &&& functional(ar) ==> g == restricted_stiffness(
                        ar,
                        problem,
                        system.lengths@,
                        t,
                        modes,
                    )
                    &&& #[trigger] eigen_outcome(ar, g, tolerance, Err(e))
                },
        },
    }
}

/// Restrict FDM geometric stiffness to a mechanism basis and classify it.
///
/// The sparse operator is applied edge-by-edge as
/// `Cn' diag(t/L) Cn`; only the small restricted matrix is dense.
pub fn classify_prestress_stability<A: Arithmetic>(
    ar: &A,
    problem: &Problem,
    system: &EquilibriumSystem,
    prestress_t: &Vec<Real>,
    mechanisms: &Array2,
    tolerance: Real,
) -> (r: Result<PrestressClassification, TheseusError>)
    requires
        problem.wf(),
        fits(mechanisms@.cols, mechanisms@.cols),
    ensures
        classification_outcome(
            *ar,
            *problem,
            *system,
            prestress_t@,
            mechanisms@,
            tolerance,
            r,
        ),
{
    let n_free: usize = problem.topology.free_node_indices.len();
    if system.n_free != n_free || system.lengths.len() != problem.topology.num_edges {
        return Err(TheseusError::Shape(Complaint::PrestressSystem));
    }
    if prestress_t.len() != problem.topology.num_edges {
        return Err(TheseusError::Shape(Complaint::PrestressCount));
    }
    if mechanisms.nrows() != 3 * n_free {
        return Err(
            TheseusError::Shape(
                Complaint::MechanismRows { found: mechanisms.nrows(), expected: 3 * n_free },
            ),
        );
    }
    if first_not_finite(prestress_t).is_some() {
        return Err(TheseusError::Solver(Complaint::PrestressNotFinite));
    }
    let restricted = restrict(ar, problem, &system.lengths, prestress_t, mechanisms);
    match symmetric_eigen_jacobi(ar, &restricted, tolerance) {
        Ok((eigenvalues, eigenvectors)) => {
            let scale = largest(&eigenvalues, Real { bits: ONE });
            let threshold = times(ar, tolerance.max(Real { bits: EPSILON }), scale);
            let mut classes: Vec<MechanismClass> = Vec::new();
            for i in 0..eigenvalues.len()
                invariant
                    classes@.len() == i,
                    forall|k: int|
                        0 <= k < i ==> #[trigger] classes@[k] == class_of(
                            eigenvalues@[k],
                            threshold,
                        ),
            {
                classes.push(classify(eigenvalues[i], threshold));
            }
            let c = PrestressClassification {
                restricted_stiffness: restricted,
                eigenvalues,
                eigenvectors,
                classes,
            };
            proof {
                if functional(*ar) {
                    assert(c.classes@ =~= Seq::new(
                        mechanisms@.cols,
                        |i: int|
                            class_of(
                                c.eigenvalues@[i],
                                class_threshold(*ar, c.eigenvalues@, tolerance),
                            ),
                    ));
                }
            }
            Ok(c)
        },
        Err(e) => {
            assert(eigen_outcome(*ar, restricted@, tolerance, Err(e)));
            Err(e)
        },
    }
}

/// The class of the opposite.
pub open spec fn opposite(class: MechanismClass) -> MechanismClass {
    match class {
        MechanismClass::PrestressStable => MechanismClass::PrestressUnstable,
        MechanismClass::FiniteCandidate => MechanismClass::FiniteCandidate,
        MechanismClass::PrestressUnstable => MechanismClass::PrestressStable,
    }
}

/// The opposite stiffness has the opposite class.
pub proof fn opposite_stiffness_has_the_opposite_class(value: Real, threshold: Real)
    requires
        (Real { bits: ZERO }).at_most(threshold),
    ensures
        class_of(value.negated(), threshold) == opposite(class_of(value, threshold)),
{
    crate::double::negation_reverses_the_order(threshold, value);
    crate::double::negation_reverses_the_order(value, threshold.negated());
}

} // verus!
