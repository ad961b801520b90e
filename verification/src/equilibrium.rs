//! The sparse equilibrium system of a network at given positions.

use crate::arithmetic::{
    functional, over, plus, product_of, quotient_of, root_of, sqrt, sum_of, times, Arithmetic,
};
use crate::array::{at_least_one, fits, Array2, Grid};
use crate::double::{Real, ZERO};
use crate::error::{Complaint, TheseusError};
use crate::sparse::{assemblable, assembled, Csc, SparseColMatOwned, Triplet};
use crate::types::Problem;
use crate::vector::zeros;
use vstd::prelude::*;

verus! {

/// Edges shorter than `1e-14` have no direction.
pub const ZERO_LENGTH_TOL: u64 = 0x3D06_849B_86A1_2B9B;

/// Whether the equilibrium unknown is member force `t` or force density `q`.
#[derive(Debug, Clone, Copy, PartialEq, Eq, Structural)]
pub enum EquilibriumUnknown {
    /// Unit member directions: `A t = p`.
    Force,
    /// Member coordinate differences: `E q = p`.
    ForceDensity,
}

/// Sparse rectangular equilibrium system shared by inverse FDM and rigidity.
#[derive(Debug)]
pub struct EquilibriumSystem {
    pub a: SparseColMatOwned,
    pub p: Vec<Real>,
    pub lengths: Vec<Real>,
    pub n_eq: usize,
    pub n_edges: usize,
    /// Target positions of free nodes, in equilibrium-row order.
    pub free_positions: Array2,
    /// Number of ordinary free-node rows before optional reaction rows.
    pub n_free: usize,
}

impl EquilibriumSystem {
    /// Whether all parts have the sizes that the counts announce.
    pub open spec fn wf(self) -> bool {
        &&& self.a.wf()
        &&& self.a.nrows == self.n_eq
        &&& self.a.ncols == self.n_edges
        &&& self.p@.len() == self.n_eq
        &&& self.lengths@.len() == self.n_edges
        &&& self.free_positions@.rows == self.n_free
        &&& self.free_positions@.cols == 3
        &&& 3 * self.n_free <= self.n_eq < u32::MAX
        &&& self.n_edges < u32::MAX
        &&& self.n_eq < usize::MAX
        &&& self.n_edges < usize::MAX
    }
}

/// `base` after coordinate `d` of the first `k` rows of `g` has been put at the given
/// indices, one after the other.
pub open spec fn scattered(
    base: Seq<Real>,
    indices: Seq<usize>,
    g: Grid,
    d: int,
    k: int,
) -> Seq<Real>
    decreases k,
{
    if k <= 0 {
        base
    } else {
        scattered(base, indices, g, d, k - 1).update(indices[k - 1] as int, g.at(k - 1, d))
    }
}

/// Coordinate `d` of every node: free nodes stand at the target, fixed nodes at their
/// supports.
pub open spec fn coordinates(problem: Problem, target: Grid, d: int) -> Seq<Real> {
    let topo = problem.topology;
    let nowhere = Seq::new(topo.num_nodes as nat, |i: int| Real { bits: ZERO });
    let free = scattered(
        nowhere,
        topo.free_node_indices@,
        target,
        d,
        topo.free_node_indices@.len() as int,
    );
    scattered(
        free,
        topo.fixed_node_indices@,
        problem.fixed_node_positions@,
        d,
        topo.fixed_node_indices@.len() as int,
    )
}

/// Coordinate `d` of the vector along every edge, from one end to the other.
pub open spec fn spans<A: Arithmetic>(ar: A, problem: Problem, target: Grid, d: int) -> Seq<Real> {
    problem.topology.incidence@.applied(ar, coordinates(problem, target, d))
}

/// The length of an edge with coordinate differences `x`, `y` and `z`.
pub open spec fn length_of<A: Arithmetic>(ar: A, x: Real, y: Real, z: Real) -> Real {
    let zero = Real { bits: ZERO };
    let xx = sum_of(ar, zero, product_of(ar, x, x));
    let xy = sum_of(ar, xx, product_of(ar, y, y));
    root_of(ar, sum_of(ar, xy, product_of(ar, z, z)))
}

/// The length of every edge.
pub open spec fn lengths_of<A: Arithmetic>(ar: A, problem: Problem, target: Grid) -> Seq<Real> {
    Seq::new(
        problem.topology.num_edges as nat,
        |e: int|
            length_of(
                ar,
                spans(ar, problem, target, 0)[e],
                spans(ar, problem, target, 1)[e],
                spans(ar, problem, target, 2)[e],
            ),
    )
}

/// Whether an edge of this length has no direction.
pub open spec fn vanishing(length: Real) -> bool {
    length.below(Real { bits: ZERO_LENGTH_TOL })
}

/// Coordinate `d` of what multiplies the unknown of every edge: its span, or its unit
/// direction where the unknown is a force.
pub open spec fn directions<A: Arithmetic>(
    ar: A,
    problem: Problem,
    target: Grid,
    unknown: EquilibriumUnknown,
    d: int,
) -> Seq<Real> {
    match unknown {
        EquilibriumUnknown::Force => Seq::new(
            problem.topology.num_edges as nat,
            |e: int|
                quotient_of(ar, spans(ar, problem, target, d)[e], lengths_of(ar, problem, target)[e]),
        ),
        EquilibriumUnknown::ForceDensity => spans(ar, problem, target, d),
    }
}

/// Entries of the free-node rows of one axis, which start at row `offset`.
pub open spec fn free_terms<A: Arithmetic>(ar: A, cn_t: Csc, along: Seq<Real>, offset: int) -> Seq<
    Triplet,
> {
    Seq::new(
        cn_t.nnz(),
        |k: int|
            (
                (offset + cn_t.rows[k]) as u32,
                cn_t.column_of(k) as u32,
                product_of(ar, cn_t.values[k], along[cn_t.column_of(k)]),
            ),
    )
}

/// Entries of the reaction rows of one axis, which start at row `offset`.
pub open spec fn reaction_terms<A: Arithmetic>(
    ar: A,
    cf: Csc,
    along: Seq<Real>,
    offset: int,
) -> Seq<Triplet> {
    Seq::new(
        cf.nnz(),
        |k: int|
            (
                (offset + cf.column_of(k)) as u32,
                cf.rows[k],
                product_of(ar, cf.values[k], along[cf.rows[k] as int]),
            ),
    )
}

/// The axes along which reactions are to vanish, in order.
pub open spec fn reaction_axes(n_fixed: nat, rx: bool, ry: bool, rz: bool) -> Seq<int> {
    let none = Seq::<int>::empty();
    let x = if rx && n_fixed > 0 {
        none.push(0)
    } else {
        none
    };
    let y = if ry && n_fixed > 0 {
        x.push(1)
    } else {
        x
    };
    if rz && n_fixed > 0 {
        y.push(2)
    } else {
        y
    }
}

/// Entries of the reaction rows of the first `k` axes.
pub open spec fn reactions_upto<A: Arithmetic>(
    ar: A,
    problem: Problem,
    target: Grid,
    unknown: EquilibriumUnknown,
    axes: Seq<int>,
    k: int,
) -> Seq<Triplet>
    decreases k,
{
    if k <= 0 {
        Seq::empty()
    } else {
        reactions_upto(ar, problem, target, unknown, axes, k - 1) + reaction_terms(
            ar,
            problem.topology.fixed_incidence@,
            directions(ar, problem, target, unknown, axes[k - 1]),
            3 * problem.n_free() + (k - 1) * problem.n_fixed(),
        )
    }
}

/// Entries of the free-node rows of the first `d` axes.
pub open spec fn axes_upto<A: Arithmetic>(
    ar: A,
    problem: Problem,
    target: Grid,
    unknown: EquilibriumUnknown,
    d: int,
) -> Seq<Triplet>
    decreases d,
{
    if d <= 0 {
        Seq::empty()
    } else {
        axes_upto(ar, problem, target, unknown, d - 1) + free_terms(
            ar,
            problem.topology.free_incidence@.transposed(),
            directions(ar, problem, target, unknown, d - 1),
            (d - 1) * problem.n_free(),
        )
    }
}

/// All entries of the equilibrium matrix: the three axes of the free nodes, then the
/// reactions.
pub open spec fn equilibrium_terms<A: Arithmetic>(
    ar: A,
    problem: Problem,
    target: Grid,
    unknown: EquilibriumUnknown,
    axes: Seq<int>,
) -> Seq<Triplet> {
    axes_upto(ar, problem, target, unknown, 3) + reactions_upto(
        ar,
        problem,
        target,
        unknown,
        axes,
        axes.len() as int,
    )
}

/// The number of equilibrium rows.
pub open spec fn rows_of_system(problem: Problem, axes: Seq<int>) -> nat {
    (3 * problem.n_free() + axes.len() * problem.n_fixed()) as nat
}

/// The load of every equilibrium row; reaction rows carry none.
pub open spec fn loads_of(problem: Problem, n_eq: nat) -> Seq<Real> {
    Seq::new(
        n_eq,
        |i: int|
            if i < 3 * problem.n_free() {
                problem.free_node_loads@.at(i % (problem.n_free() as int), i / (problem.n_free() as int))
            } else {
                Real { bits: ZERO }
            },
    )
}

/// Coordinate `d` of every node.
fn node_coordinates(problem: &Problem, target: &Array2, d: usize) -> (r: Vec<Real>)
    requires
        problem.wf(),
        target@.rows == problem.n_free(),
        target@.cols == 3,
        d < 3,
    ensures
        r@ == coordinates(*problem, target@, d as int),
        r@.len() == problem.topology.num_nodes,
{
    let topo = &problem.topology;
    let mut r = zeros(topo.num_nodes);
    let ghost nowhere = r@;
    for i in 0..topo.free_node_indices.len()
        invariant
            *topo == problem.topology,
            problem.wf(),
            target@.rows == problem.n_free(),
            target@.cols == 3,
            d < 3,
            r@.len() == topo.num_nodes,
            r@ == scattered(nowhere, topo.free_node_indices@, target@, d as int, i as int),
    {
        let node: usize = topo.free_node_indices[i];
        r[node] = target.cell(i, d);
    }
    let ghost free = r@;
    for i in 0..topo.fixed_node_indices.len()
        invariant
            *topo == problem.topology,
            problem.wf(),
            d < 3,
            r@.len() == topo.num_nodes,
            r@ == scattered(
                free,
                topo.fixed_node_indices@,
                problem.fixed_node_positions@,
                d as int,
                i as int,
            ),
    {
        let node: usize = topo.fixed_node_indices[i];
        r[node] = problem.fixed_node_positions.cell(i, d);
    }
    r
}

/// The length of the edge with coordinate differences `x`, `y` and `z`.
fn edge_length<A: Arithmetic>(ar: &A, x: Real, y: Real, z: Real) -> (r: Real)
    ensures
        functional(*ar) ==> r == length_of(*ar, x, y, z),
{
    let xx = times(ar, x, x);
    let first = plus(ar, Real { bits: ZERO }, xx);
    let yy = times(ar, y, y);
    let second = plus(ar, first, yy);
    let zz = times(ar, z, z);
    let third = plus(ar, second, zz);
    sqrt(ar, third)
}

/// Whether the equilibrium matrix can be indexed in 32 bits.
pub open spec fn indexable(problem: Problem, axes: Seq<int>) -> bool {
    &&& rows_of_system(problem, axes) < u32::MAX
    &&& problem.topology.num_edges < u32::MAX
    &&& 3 * problem.topology.free_incidence@.nnz() + axes.len()
        * problem.topology.fixed_incidence@.nnz() <= u32::MAX
}

/// Whether `s` is the equilibrium system of the problem at the target positions.
pub open spec fn describes<A: Arithmetic>(
    s: EquilibriumSystem,
    ar: A,
    problem: Problem,
    target: Grid,
    unknown: EquilibriumUnknown,
    axes: Seq<int>,
) -> bool {
    &&& s.wf()
    &&& indexable(problem, axes)
    &&& s.n_eq == rows_of_system(problem, axes)
    &&& s.n_edges == problem.topology.num_edges
    &&& s.n_free == problem.n_free()
    &&& s.free_positions@ == target
    &&& s.p@ == loads_of(problem, s.n_eq as nat)
    &&& forall|e: int| 0 <= e < s.n_edges ==> !vanishing(#[trigger] s.lengths@[e])
    &&& functional(ar) ==> s.lengths@ == lengths_of(ar, problem, target) && s.a@ == assembled(
        ar,
        s.n_eq as nat,
        s.n_edges as nat,
        equilibrium_terms(ar, problem, target, unknown, axes),
    )
}

/// Whether the target has an edge without a direction.
pub open spec fn collapsed<A: Arithmetic>(ar: A, problem: Problem, target: Grid) -> bool {
    exists|e: int|
        0 <= e < problem.topology.num_edges && vanishing(
            #[trigger] lengths_of(ar, problem, target)[e],
        )
}

/// Whether the positions have one row of three coordinates for each free node.
pub open spec fn shaped(problem: Problem, target: Grid) -> bool {
    target.rows == problem.n_free() && target.cols == 3
}

/// Whether `e` is the complaint that is due instead of the equilibrium system.
pub open spec fn undescribed<A: Arithmetic>(
    e: TheseusError,
    ar: A,
    problem: Problem,
    target: Grid,
    axes: Seq<int>,
) -> bool {
    if !shaped(problem, target) {
        e == TheseusError::Shape(
            Complaint::TargetShape {
                rows: target.rows as usize,
                cols: target.cols as usize,
                expected: problem.n_free() as usize,
            },
        )
    } else {
        ||| {
            &&& e == TheseusError::Shape(Complaint::Triplets)
            &&& !indexable(problem, axes)
            &&& functional(ar) ==> forall|k: int|
                0 <= k < problem.topology.num_edges ==> !vanishing(
                    #[trigger] lengths_of(ar, problem, target)[k],
                )
        }
        ||| exists|edge: usize, length: Real|
            {
                &&& e == #[trigger] near_zero(edge, length)
                &&& edge < problem.topology.num_edges
                &&& vanishing(length)
                &&& functional(ar) ==> length == lengths_of(ar, problem, target)[edge as int]
                &&& functional(ar) ==> forall|k: int|
                    0 <= k < edge ==> !vanishing(#[trigger] lengths_of(ar, problem, target)[k])
            }
    }
}

/// The complaint about a target edge without a direction.
pub open spec fn near_zero(edge: usize, length: Real) -> TheseusError {
    TheseusError::Solver(Complaint::NearZeroLength { edge, length })
}

/// Appends the entries of the free-node rows of one axis.
fn push_free_terms<A: Arithmetic>(
    ar: &A,
    terms: &mut Vec<Triplet>,
    cn_t: &SparseColMatOwned,
    along: &Vec<Real>,
    offset: usize,
)
    requires
        cn_t.wf(),
        along@.len() == cn_t.ncols,
        offset + cn_t.nrows <= usize::MAX,
    ensures
        final(terms)@.len() == old(terms)@.len() + cn_t@.nnz(),
        forall|i: int| 0 <= i < old(terms)@.len() ==> final(terms)@[i] == #[trigger] old(terms)@[i],
        forall|k: int|
            0 <= k < cn_t@.nnz() ==> {
                let e = #[trigger] final(terms)@[old(terms)@.len() + k];
                e.0 == (offset + cn_t@.rows[k]) as u32 && e.1 == cn_t@.column_of(k) as u32
            },
        functional(*ar) ==> final(terms)@ == old(terms)@ + free_terms(
            *ar,
            cn_t@,
            along@,
            offset as int,
        ),
{
    let ghost m = cn_t@;
    let ghost before = terms@;
    let ghost goal = free_terms(*ar, m, along@, offset as int);
    for edge in 0..cn_t.ncols
        invariant
            cn_t.wf(),
            m == cn_t@,
            along@.len() == cn_t.ncols,
            offset + cn_t.nrows <= usize::MAX,
            goal == free_terms(*ar, m, along@, offset as int),
            m.starts[edge as int] <= m.nnz(),
            terms@.len() == before.len() + m.starts[edge as int],
            forall|i: int| 0 <= i < before.len() ==> terms@[i] == #[trigger] before[i],
            forall|k: int|
                0 <= k < m.starts[edge as int] ==> {
                    let e = #[trigger] terms@[before.len() + k];
                    e.0 == goal[k].0 && e.1 == goal[k].1 && (functional(*ar) ==> e == goal[k])
                },
    {
        let start: usize = cn_t.col_ptrs[edge] as usize;
        let end: usize = cn_t.col_ptrs[edge + 1] as usize;
        assert(m.starts[edge as int] <= m.starts[edge + 1]);
        assert(m.starts[edge + 1] <= m.starts[m.ncols as int]);
        for nz in start..end
            invariant
                cn_t.wf(),
                m == cn_t@,
                along@.len() == cn_t.ncols,
                offset + cn_t.nrows <= usize::MAX,
                goal == free_terms(*ar, m, along@, offset as int),
                edge < cn_t.ncols,
                start == m.starts[edge as int],
                end == m.starts[edge + 1],
                end <= m.nnz(),
                terms@.len() == before.len() + nz,
                forall|i: int| 0 <= i < before.len() ==> terms@[i] == #[trigger] before[i],
                forall|k: int|
                    0 <= k < nz ==> {
                        let e = #[trigger] terms@[before.len() + k];
                        e.0 == goal[k].0 && e.1 == goal[k].1 && (functional(*ar) ==> e == goal[k])
                    },
        {
            proof {
                assert(m.rows[nz as int] < m.nrows);
                crate::sparse::lemma_column(m, nz as int, edge as int);
            }
            let value = times(ar, cn_t.values[nz], along[edge]);
            terms.push(((offset + cn_t.row_indices[nz] as usize) as u32, edge as u32, value));
        }
    }
    proof {
        if functional(*ar) {
            assert forall|i: int| 0 <= i < terms@.len() implies terms@[i] == (before + goal)[i] by {
                if i >= before.len() {
                    assert(terms@[before.len() + (i - before.len())] == goal[i - before.len()]);
                }
            }
            assert(terms@ =~= before + goal);
        }
    }
}

/// Appends the entries of the reaction rows of one axis.
fn push_reaction_terms<A: Arithmetic>(
    ar: &A,
    terms: &mut Vec<Triplet>,
    cf: &SparseColMatOwned,
    along: &Vec<Real>,
    offset: usize,
)
    requires
        cf.wf(),
        along@.len() == cf.nrows,
        offset + cf.ncols <= usize::MAX,
    ensures
        final(terms)@.len() == old(terms)@.len() + cf@.nnz(),
        forall|i: int| 0 <= i < old(terms)@.len() ==> final(terms)@[i] == #[trigger] old(terms)@[i],
        forall|k: int|
            0 <= k < cf@.nnz() ==> {
                let e = #[trigger] final(terms)@[old(terms)@.len() + k];
                e.0 == (offset + cf@.column_of(k)) as u32 && e.1 == cf@.rows[k]
            },
        functional(*ar) ==> final(terms)@ == old(terms)@ + reaction_terms(
            *ar,
            cf@,
            along@,
            offset as int,
        ),
{
    let ghost m = cf@;
    let ghost before = terms@;
    let ghost goal = reaction_terms(*ar, m, along@, offset as int);
    for fixed in 0..cf.ncols
        invariant
            cf.wf(),
            m == cf@,
            along@.len() == cf.nrows,
            offset + cf.ncols <= usize::MAX,
            goal == reaction_terms(*ar, m, along@, offset as int),
            m.starts[fixed as int] <= m.nnz(),
            terms@.len() == before.len() + m.starts[fixed as int],
            forall|i: int| 0 <= i < before.len() ==> terms@[i] == #[trigger] before[i],
            forall|k: int|
                0 <= k < m.starts[fixed as int] ==> {
                    let e = #[trigger] terms@[before.len() + k];
                    e.0 == goal[k].0 && e.1 == goal[k].1 && (functional(*ar) ==> e == goal[k])
                },
    {
        let start: usize = cf.col_ptrs[fixed] as usize;
        let end: usize = cf.col_ptrs[fixed + 1] as usize;
        assert(m.starts[fixed as int] <= m.starts[fixed + 1]);
        assert(m.starts[fixed + 1] <= m.starts[m.ncols as int]);
        for nz in start..end
            invariant
                cf.wf(),
                m == cf@,
                along@.len() == cf.nrows,
                offset + cf.ncols <= usize::MAX,
                goal == reaction_terms(*ar, m, along@, offset as int),
                fixed < cf.ncols,
                start == m.starts[fixed as int],
                end == m.starts[fixed + 1],
                end <= m.nnz(),
                terms@.len() == before.len() + nz,
                forall|i: int| 0 <= i < before.len() ==> terms@[i] == #[trigger] before[i],
                forall|k: int|
                    0 <= k < nz ==> {
                        let e = #[trigger] terms@[before.len() + k];
                        e.0 == goal[k].0 && e.1 == goal[k].1 && (functional(*ar) ==> e == goal[k])
                    },
        {
            proof {
                assert(m.rows[nz as int] < m.nrows);
                crate::sparse::lemma_column(m, nz as int, fixed as int);
            }
            let edge: u32 = cf.row_indices[nz];
            let value = times(ar, cf.values[nz], along[edge as usize]);
            terms.push(((offset + fixed) as u32, edge, value));
        }
    }
    proof {
        if functional(*ar) {
            assert forall|i: int| 0 <= i < terms@.len() implies terms@[i] == (before + goal)[i] by {
                if i >= before.len() {
                    assert(terms@[before.len() + (i - before.len())] == goal[i - before.len()]);
                }
            }
            assert(terms@ =~= before + goal);
        }
    }
}

/// The axes along which reactions are to vanish.
fn enforced_axes(n_fixed: usize, rx: bool, ry: bool, rz: bool) -> (r: Vec<usize>)
    ensures
        r@.len() == reaction_axes(n_fixed as nat, rx, ry, rz).len(),
        r@.len() <= 3,
        n_fixed == 0 ==> r@.len() == 0,
        forall|k: int|
            0 <= k < r@.len() ==> #[trigger] r@[k] == reaction_axes(n_fixed as nat, rx, ry, rz)[k]
                && r@[k] < 3,
{
    let mut r: Vec<usize> = Vec::new();
    if rx && n_fixed != 0 {
        r.push(0);
    }
    if ry && n_fixed != 0 {
        r.push(1);
    }
    if rz && n_fixed != 0 {
        r.push(2);
    }
    r
}

/// The load of every equilibrium row.
fn load_vector(problem: &Problem, n_eq: usize) -> (r: Vec<Real>)
    requires
        problem.wf(),
        3 * problem.n_free() <= n_eq,
    ensures
        r@ == loads_of(*problem, n_eq as nat),
{
    let n_free: usize = problem.topology.free_node_indices.len();
    let mut r: Vec<Real> = Vec::new();
    for d in 0..3usize
        invariant
            problem.wf(),
            n_free == problem.n_free(),
            3 * problem.n_free() <= n_eq,
            r@.len() == d * n_free,
            forall|i: int| 0 <= i < r@.len() ==> #[trigger] r@[i] == loads_of(*problem, n_eq as nat)[i],
    {
        for i in 0..n_free
            invariant
                problem.wf(),
                d < 3,
                n_free == problem.n_free(),
                3 * problem.n_free() <= n_eq,
                r@.len() == d * n_free + i,
                forall|k: int|
                    0 <= k < r@.len() ==> #[trigger] r@[k] == loads_of(*problem, n_eq as nat)[k],
        {
            proof {
                vstd::arithmetic::div_mod::lemma_fundamental_div_mod_converse(
                    d * n_free + i,
                    n_free as int,
                    d as int,
                    i as int,
                );
                assert(d * n_free + i < 3 * n_free) by (nonlinear_arith)
                    requires
                        0 <= d < 3,
                        0 <= i < n_free,
                ;
            }
            r.push(problem.free_node_loads.cell(i, d));
        }
        proof {
            assert(d * n_free + n_free == (d + 1) * n_free) by (nonlinear_arith);
        }
    }
    let ghost free = r@;
    r.resize(n_eq, Real { bits: ZERO });
    proof {
        assert forall|i: int| 0 <= i < n_eq implies r@[i] == loads_of(*problem, n_eq as nat)[i] by {
            if i < free.len() {
                assert(r@[i] == free[i]);
            }
        }
        assert(r@ =~= loads_of(*problem, n_eq as nat));
    }
    r
}

/// Whether `r` can be the system at a target.
pub open spec fn assembly_outcome<A: Arithmetic>(
    ar: A,
    problem: Problem,
    target: Grid,
    unknown: EquilibriumUnknown,
    axes: Seq<int>,
    r: Result<EquilibriumSystem, TheseusError>,
) -> bool {
    match r {
        Ok(s) => describes(s, ar, problem, target, unknown, axes),
        Err(e) => undescribed(e, ar, problem, target, axes),
    }
}

impl EquilibriumSystem {
    /// Assemble force-form `A` (unit member directions).
    pub fn force<A: Arithmetic>(
        ar: &A,
        problem: &Problem,
        target_free_xyz: &Array2,
        enforce_zero_rx: bool,
        enforce_zero_ry: bool,
        enforce_zero_rz: bool,
    ) -> (r: Result<EquilibriumSystem, TheseusError>)
        requires
            problem.wf(),
        ensures
            ({
                let axes = reaction_axes(
                    problem.n_fixed(),
                    enforce_zero_rx,
                    enforce_zero_ry,
                    enforce_zero_rz,
                );
                match r {
                    Ok(s) => describes(
                        s,
                        *ar,
                        *problem,
                        target_free_xyz@,
                        EquilibriumUnknown::Force,
                        axes,
                    ) && shaped(*problem, target_free_xyz@) && indexable(*problem, axes),
                    Err(e) => undescribed(e, *ar, *problem, target_free_xyz@, axes),
                }
            }),
    {
        EquilibriumSystem::assemble(
            ar,
            problem,
            target_free_xyz,
            EquilibriumUnknown::Force,
            enforce_zero_rx,
            enforce_zero_ry,
            enforce_zero_rz,
        )
    }

    /// Assemble either force-form `A` or force-density-form `E`.
    pub fn assemble<A: Arithmetic>(
        ar: &A,
        problem: &Problem,
        target_free_xyz: &Array2,
        unknown: EquilibriumUnknown,
        enforce_zero_rx: bool,
        enforce_zero_ry: bool,
        enforce_zero_rz: bool,
    ) -> (r: Result<EquilibriumSystem, TheseusError>)
        requires
            problem.wf(),
        ensures
            ({
                let axes = reaction_axes(
                    problem.n_fixed(),
                    enforce_zero_rx,
                    enforce_zero_ry,
                    enforce_zero_rz,
                );
                match r {
                    Ok(s) => describes(s, *ar, *problem, target_free_xyz@, unknown, axes) && shaped(
                        *problem,
                        target_free_xyz@,
                    ),
                    Err(e) => undescribed(e, *ar, *problem, target_free_xyz@, axes),
                }
            }),
    {
        let topo = &problem.topology;
        let n_free: usize = topo.free_node_indices.len();
        let n_fixed: usize = topo.fixed_node_indices.len();
        let (rows, cols) = target_free_xyz.dim();
        if rows != n_free || cols != 3 {
            return Err(
                TheseusError::Shape(Complaint::TargetShape { rows, cols, expected: n_free }),
            );
        }
        let ghost target = target_free_xyz@;
        let ghost axes = reaction_axes(
            problem.n_fixed(),
            enforce_zero_rx,
            enforce_zero_ry,
            enforce_zero_rz,
        );
        let ghost ne = topo.num_edges;

        let x = node_coordinates(problem, target_free_xyz, 0);
        let y = node_coordinates(problem, target_free_xyz, 1);
        let z = node_coordinates(problem, target_free_xyz, 2);
        let span_x = topo.incidence.matvec(ar, &x);
        let span_y = topo.incidence.matvec(ar, &y);
        let span_z = topo.incidence.matvec(ar, &z);
        let mut along_x: Vec<Real> = Vec::new();
        let mut along_y: Vec<Real> = Vec::new();
        let mut along_z: Vec<Real> = Vec::new();
        let mut lengths: Vec<Real> = Vec::new();
        for edge in 0..topo.num_edges
            invariant
                *topo == problem.topology,
                ne == topo.num_edges,
                target == target_free_xyz@,
                shaped(*problem, target),
                span_x@.len() == ne,
                span_y@.len() == ne,
                span_z@.len() == ne,
                functional(*ar) ==> span_x@ == spans(*ar, *problem, target, 0),
                functional(*ar) ==> span_y@ == spans(*ar, *problem, target, 1),
                functional(*ar) ==> span_z@ == spans(*ar, *problem, target, 2),
                along_x@.len() == edge,
                along_y@.len() == edge,
                along_z@.len() == edge,
                functional(*ar) ==> forall|e: int|
                    0 <= e < edge ==> #[trigger] along_x@[e] == directions(
                        *ar,
                        *problem,
                        target,
                        unknown,
                        0,
                    )[e],
                functional(*ar) ==> forall|e: int|
                    0 <= e < edge ==> #[trigger] along_y@[e] == directions(
                        *ar,
                        *problem,
                        target,
                        unknown,
                        1,
                    )[e],
                functional(*ar) ==> forall|e: int|
                    0 <= e < edge ==> #[trigger] along_z@[e] == directions(
                        *ar,
                        *problem,
                        target,
                        unknown,
                        2,
                    )[e],
                lengths@.len() == edge,
                forall|e: int| 0 <= e < edge ==> !vanishing(#[trigger] lengths@[e]),
                functional(*ar) ==> forall|e: int|
                    0 <= e < edge ==> #[trigger] lengths@[e] == lengths_of(*ar, *problem, target)[e],
        {
            let length = edge_length(ar, span_x[edge], span_y[edge], span_z[edge]);
            proof {
                if functional(*ar) {
                    assert(length == lengths_of(*ar, *problem, target)[edge as int]);
                }
            }
            if length.lt(Real { bits: ZERO_LENGTH_TOL }) {
                proof {
                    assert(near_zero(edge, length) == TheseusError::Solver(
                        Complaint::NearZeroLength { edge, length },
                    ));
                    assert forall|k: int| functional(*ar) && 0 <= k < edge implies !vanishing(
                        #[trigger] lengths_of(*ar, *problem, target)[k],
                    ) by {
                        assert(!vanishing(lengths@[k]));
                    }
                }
                return Err(TheseusError::Solver(Complaint::NearZeroLength { edge, length }));
            }
            lengths.push(length);
            if unknown == EquilibriumUnknown::Force {
                along_x.push(over(ar, span_x[edge], length));
                along_y.push(over(ar, span_y[edge], length));
                along_z.push(over(ar, span_z[edge], length));
            } else {
                along_x.push(span_x[edge]);
                along_y.push(span_y[edge]);
                along_z.push(span_z[edge]);
            }
        }
        proof {
            if functional(*ar) {
                assert(lengths@ =~= lengths_of(*ar, *problem, target));
                assert(along_x@ =~= directions(*ar, *problem, target, unknown, 0));
                assert(along_y@ =~= directions(*ar, *problem, target, unknown, 1));
                assert(along_z@ =~= directions(*ar, *problem, target, unknown, 2));
            }
        }

        let reaction_dims = enforced_axes(
            n_fixed,
            enforce_zero_rx,
            enforce_zero_ry,
            enforce_zero_rz,
        );
        proof {
            assert(reaction_dims@.len() * n_fixed <= 3 * n_fixed) by (nonlinear_arith)
                requires
                    0 <= reaction_dims@.len() <= 3,
                    0 <= n_fixed,
            ;
        }
        let n_eq: usize = 3 * n_free + reaction_dims.len() * n_fixed;
        let cn_t = topo.free_incidence.transpose();
        let ghost m = cn_t@;
        let ghost cf = topo.fixed_incidence@;
        let mut triplets: Vec<Triplet> = Vec::new();
        let ghost fitting = n_eq < u32::MAX && ne < u32::MAX;
        proof {
            assert(0 * m.nnz() == 0 && 0 * cf.nnz() == 0 && 0 * n_fixed == 0) by (nonlinear_arith);
        }
        for d in 0..3usize
            invariant
                *topo == problem.topology,
                problem.wf(),
                ne == topo.num_edges,
                n_free == problem.n_free(),
                cn_t.wf(),
                m == cn_t@,
                m == topo.free_incidence@.transposed(),
                m.nrows == n_free,
                m.ncols == ne,
                along_x@.len() == ne,
                along_y@.len() == ne,
                along_z@.len() == ne,
                functional(*ar) ==> along_x@ == directions(*ar, *problem, target, unknown, 0),
                functional(*ar) ==> along_y@ == directions(*ar, *problem, target, unknown, 1),
                functional(*ar) ==> along_z@ == directions(*ar, *problem, target, unknown, 2),
                3 * n_free <= n_eq,
                fitting == (n_eq < u32::MAX && ne < u32::MAX),
                triplets@.len() == d * m.nnz(),
                fitting ==> crate::sparse::placed(triplets@, n_eq as nat, ne as nat),
                functional(*ar) ==> triplets@ == axes_upto(*ar, *problem, target, unknown, d as int),
        {
            let ghost before = triplets@;
            proof {
                assert(d * n_free + n_free <= 3 * n_free) by (nonlinear_arith)
                    requires
                        0 <= d < 3,
                        0 <= n_free,
                ;
            }
            let offset: usize = d * n_free;
            if d == 0 {
                push_free_terms(ar, &mut triplets, &cn_t, &along_x, offset);
            } else if d == 1 {
                push_free_terms(ar, &mut triplets, &cn_t, &along_y, offset);
            } else {
                push_free_terms(ar, &mut triplets, &cn_t, &along_z, offset);
            }
            proof {
                assert(d * m.nnz() + m.nnz() == (d + 1) * m.nnz()) by (nonlinear_arith);
                if fitting {
                    assert forall|i: int| 0 <= i < triplets@.len() implies (
                    #[trigger] triplets@[i]).0 < n_eq && triplets@[i].1 < ne by {
                        if i < before.len() {
                            assert(triplets@[i] == before[i]);
                        } else {
                            let k = i - before.len();
                            assert(triplets@[before.len() + k].0 == (offset + m.rows[k]) as u32);
                            assert(m.rows[k] < m.nrows);
                            crate::sparse::lemma_has_column(m, k);
                        }
                    }
                }
            }
        }
        let ghost free_part = triplets@;
        let mut offset: usize = 3 * n_free;
        for k in 0..reaction_dims.len()
            invariant
                *topo == problem.topology,
                problem.wf(),
                ne == topo.num_edges,
                n_free == problem.n_free(),
                n_fixed == problem.n_fixed(),
                cf == topo.fixed_incidence@,
                along_x@.len() == ne,
                along_y@.len() == ne,
                along_z@.len() == ne,
                functional(*ar) ==> along_x@ == directions(*ar, *problem, target, unknown, 0),
                functional(*ar) ==> along_y@ == directions(*ar, *problem, target, unknown, 1),
                functional(*ar) ==> along_z@ == directions(*ar, *problem, target, unknown, 2),
                fitting == (n_eq < u32::MAX && ne < u32::MAX),
                axes.len() == reaction_dims@.len() <= 3,
                forall|i: int|
                    0 <= i < reaction_dims@.len() ==> #[trigger] reaction_dims@[i] == axes[i]
                        && reaction_dims@[i] < 3,
                n_eq == 3 * n_free + reaction_dims@.len() * n_fixed,
                offset == 3 * n_free + k * n_fixed,
                triplets@.len() == free_part.len() + k * cf.nnz(),
                fitting ==> crate::sparse::placed(triplets@, n_eq as nat, ne as nat),
                functional(*ar) ==> triplets@ == free_part + reactions_upto(
                    *ar,
                    *problem,
                    target,
                    unknown,
                    axes,
                    k as int,
                ),
        {
            let ghost before = triplets@;
            let d: usize = reaction_dims[k];
            proof {
                assert(k * n_fixed + n_fixed <= reaction_dims@.len() * n_fixed) by (nonlinear_arith)
                    requires
                        0 <= k < reaction_dims@.len(),
                        0 <= n_fixed,
                ;
                assert(k * n_fixed + n_fixed == (k + 1) * n_fixed) by (nonlinear_arith);
                assert(k * cf.nnz() + cf.nnz() == (k + 1) * cf.nnz()) by (nonlinear_arith);
                assert(d == axes[k as int]);
            }
            if d == 0 {
                push_reaction_terms(ar, &mut triplets, &topo.fixed_incidence, &along_x, offset);
            } else if d == 1 {
                push_reaction_terms(ar, &mut triplets, &topo.fixed_incidence, &along_y, offset);
            } else {
                push_reaction_terms(ar, &mut triplets, &topo.fixed_incidence, &along_z, offset);
            }
            proof {
                if functional(*ar) {
                    assert(triplets@ =~= free_part + reactions_upto(
                        *ar,
                        *problem,
                        target,
                        unknown,
                        axes,
                        k as int + 1,
                    ));
                }
                if fitting {
                    assert forall|i: int| 0 <= i < triplets@.len() implies (
                    #[trigger] triplets@[i]).0 < n_eq && triplets@[i].1 < ne by {
                        if i < before.len() {
                            assert(triplets@[i] == before[i]);
                        } else {
                            let j = i - before.len();
                            assert(triplets@[before.len() + j].1 == cf.rows[j]);
                            assert(cf.rows[j] < cf.nrows);
                            crate::sparse::lemma_has_column(cf, j);
                        }
                    }
                }
            }
            offset = offset + n_fixed;
        }
        proof {
            assert(assemblable(n_eq as nat, ne as nat, triplets@) <==> indexable(*problem, axes));
            assert forall|k: int| functional(*ar) && 0 <= k < ne implies !vanishing(
                #[trigger] lengths_of(*ar, *problem, target)[k],
            ) by {
                assert(!vanishing(lengths@[k]));
            }
        }
        let a = match SparseColMatOwned::from_triplets(ar, n_eq, topo.num_edges, &triplets) {
            Ok(a) => a,
            Err(e) => {
                return Err(e);
            },
        };
        let p = load_vector(problem, n_eq);
        Ok(
            EquilibriumSystem {
                a,
                p,
                lengths,
                n_eq,
                n_edges: topo.num_edges,
                free_positions: target_free_xyz.clone(),
                n_free,
            },
        )
    }
}

/// A column with a number for each equilibrium row can be addressed.
pub(crate) proof fn lemma_rows_fit(problem: Problem, axes: Seq<int>)
    requires
        problem.wf(),
        axes.len() <= 3,
    ensures
        fits(rows_of_system(problem, axes), 1),
        rows_of_system(problem, axes) + problem.topology.num_edges < usize::MAX,
{
    let n = axes.len() as int;
    let f = problem.n_fixed() as int;
    assert(n * f <= 3 * f) by (nonlinear_arith)
        requires
            0 <= n <= 3,
            0 <= f,
    ;
    let rows = rows_of_system(problem, axes);
    let all = at_least_one(problem.n_free() + problem.n_fixed());
    assert(all * at_least_one(3) * 8 == 24 * all) by (nonlinear_arith)
        requires
            at_least_one(3) == 3,
    ;
    assert(at_least_one(rows) * at_least_one(1) * 8 == 8 * at_least_one(rows)) by (nonlinear_arith)
        requires
            at_least_one(1) == 1,
    ;
}

/// An array with a row of three numbers for each free node can be addressed.
pub(crate) proof fn lemma_free_fits(problem: Problem)
    requires
        problem.wf(),
    ensures
        fits(problem.n_free(), 3),
{
    let free = at_least_one(problem.n_free());
    let all = at_least_one(problem.n_free() + problem.n_fixed());
    assert(free * at_least_one(3) * 8 <= all * at_least_one(3) * 8) by (nonlinear_arith)
        requires
            free <= all,
            at_least_one(3) == 3,
    ;
}

} // verus!
