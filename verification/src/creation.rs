//! Problems from flat lists of numbers.

use crate::arithmetic::{functional, Arithmetic};
use crate::array::{fits, Array2, Grid};
use crate::double::Real;
use crate::error::{Complaint, Listed, TheseusError};
use crate::objectives::rows_of_three;
use crate::sparse::{
    assembled, coordinates_fit, extractable, extracted, extraction_refused, zipped, Csc,
    SparseColMatOwned,
};
use crate::supports::{
    all_fixed_nodes, build_supports, supports_outcome, SupportLists, VariableSupport,
};
use crate::types::{AnchorInfo, Bounds, NetworkTopology, Problem, SolverOptions};
use vstd::prelude::*;

verus! {

/// A problem as flat lists.
#[derive(Debug)]
pub struct ProblemLists {
    pub num_edges: usize,
    pub num_nodes: usize,
    /// Rows, columns and values of the incidence matrix.
    pub coo_rows: Vec<usize>,
    pub coo_cols: Vec<usize>,
    pub coo_vals: Vec<Real>,
    pub free_nodes: Vec<usize>,
    pub fixed_nodes: Vec<usize>,
    /// Three numbers for each free node.
    pub loads: Vec<Real>,
    /// Three numbers for each fixed node.
    pub fixed_positions: Vec<Real>,
    pub lower_bounds: Vec<Real>,
    pub upper_bounds: Vec<Real>,
}

/// Whether the network can be addressed.
pub open spec fn addressable(lists: ProblemLists) -> bool {
    &&& fits(lists.free_nodes@.len() + lists.fixed_nodes@.len(), 3)
    &&& 3 * (lists.free_nodes@.len() + lists.fixed_nodes@.len()) + lists.num_edges < usize::MAX
}

/// Whether `p` has the topology, the loads, the fixed positions and the bounds of the lists.
pub open spec fn describes_lists<A: Arithmetic>(ar: A, p: Problem, lists: ProblemLists) -> bool {
    let t = p.topology;
    &&& p.wf()
    &&& t.num_edges == lists.num_edges
    &&& t.num_nodes == lists.num_nodes
    &&& t.free_node_indices@ == lists.free_nodes@
    &&& t.fixed_node_indices@ == lists.fixed_nodes@
    &&& functional(ar) ==> t.incidence@ == assembled(
        ar,
        lists.num_edges as nat,
        lists.num_nodes as nat,
        zipped(lists.coo_rows@, lists.coo_cols@, lists.coo_vals@),
    )
    &&& t.free_incidence@ == extracted(t.incidence@, lists.free_nodes@)
    &&& t.fixed_incidence@ == extracted(t.incidence@, lists.fixed_nodes@)
    &&& p.free_node_loads@ == Grid::generated(
        lists.free_nodes@.len(),
        3,
        |i: int, j: int| lists.loads@[i * 3 + j],
    )
    &&& p.fixed_node_positions@ == Grid::generated(
        lists.fixed_nodes@.len(),
        3,
        |i: int, j: int| lists.fixed_positions@[i * 3 + j],
    )
    &&& p.bounds.lower@ == lists.lower_bounds@
    &&& p.bounds.upper@ == lists.upper_bounds@
    &&& p.objectives@.len() == 0
    &&& p.self_weight is None
    &&& p.pressure is None
    &&& p.anchors.reference_positions@ == p.fixed_node_positions@
}

/// Whether the anchors hold the supports that may move, each at its starting position.
pub open spec fn anchors_hold(
    p: Problem,
    lists: ProblemLists,
    supports: Option<SupportLists>,
) -> bool {
    match supports {
        None => {
            &&& p.anchors.variable_indices@.len() == 0
            &&& p.anchors.fixed_indices@.len() == 0
            &&& p.anchors.variable_supports@.len() == 0
            &&& p.anchors.initial_variable_positions@.rows == 0
            &&& p.anchors.initial_variable_positions@.cols == 3
        },
        Some(s) => {
            &&& p.anchors.variable_indices@ == s.nodes@
            &&& p.anchors.fixed_indices@ == lists.fixed_nodes@
            &&& supports_outcome(
                s,
                lists.fixed_nodes@,
                p.fixed_node_positions@,
                Ok(p.anchors.variable_supports),
            )
            &&& p.anchors.initial_variable_positions@ == starting_positions(
                p.anchors.variable_supports@,
            )
        },
    }
}

/// The starting position of every support.
pub open spec fn starting_positions(supports: Seq<VariableSupport>) -> Grid {
    Grid::generated(
        supports.len(),
        3,
        |i: int, j: int| supports[i].reference_position@[j],
    )
}

/// The starting position of every support.
fn start_positions(supports: &Vec<VariableSupport>) -> (r: Array2)
    requires
        fits(supports@.len(), 3),
    ensures
        r@ == starting_positions(supports@),
{
    let n: usize = supports.len();
    let ghost goal = starting_positions(supports@);
    let mut r = Array2::from_elem(n, 3, Real { bits: 0 });
    for i in 0..n
        invariant
            n == supports@.len(),
            goal == starting_positions(supports@),
            r@.rows == n,
            r@.cols == 3,
            r@.cells.dom() == goal.cells.dom(),
            forall|k: int, d: int|
                0 <= k < i && 0 <= d < 3 ==> #[trigger] r@.cells[(k, d)]
                    == supports@[k].reference_position@[d],
    {
        let x = supports[i].reference_position;
        r.put(i, 0, x[0]);
        r.put(i, 1, x[1]);
        r.put(i, 2, x[2]);
        proof {
            assert(r@.cells.dom() =~= goal.cells.dom());
            assert forall|k: int, d: int| 0 <= k < i + 1 && 0 <= d < 3 implies
                #[trigger] r@.cells[(k, d)] == supports@[k].reference_position@[d] by {
                if k == i {
                    if d == 0 {
                    } else if d == 1 {
                    } else {
                        assert(d == 2);
                    }
                }
            }
        }
    }
    assert(r@.cells =~= goal.cells);
    r
}

/// The fixed positions as rows of three.
pub open spec fn fixed_rows(lists: ProblemLists) -> Grid {
    Grid::generated(
        lists.fixed_nodes@.len(),
        3,
        |i: int, j: int| lists.fixed_positions@[i * 3 + j],
    )
}

/// Whether `r` is what comes of the lists around the incidence matrix `m`: the first
/// complaint that is due, or the problem.
pub open spec fn creation_outcome<A: Arithmetic>(
    ar: A,
    lists: ProblemLists,
    supports: Option<SupportLists>,
    solver: SolverOptions,
    m: Csc,
    r: Result<Problem, TheseusError>,
) -> bool {
    if !addressable(lists) {
        r == Err::<Problem, _>(TheseusError::Shape(Complaint::TooLarge))
    } else if !extractable(m, lists.free_nodes@) {
        r is Err && extraction_refused(m, lists.free_nodes@, r->Err_0)
    } else if !extractable(m, lists.fixed_nodes@) {
        r is Err && extraction_refused(m, lists.fixed_nodes@, r->Err_0)
    } else if lists.loads@.len() != lists.free_nodes@.len() * 3 {
        r == Err::<Problem, _>(TheseusError::Shape(Complaint::ListLength(Listed::Loads)))
    } else if lists.fixed_positions@.len() != lists.fixed_nodes@.len() * 3 {
        r == Err::<Problem, _>(TheseusError::Shape(Complaint::ListLength(Listed::FixedPositions)))
    } else {
        match r {
            Ok(p) => {
                &&& describes_lists(ar, p, lists)
                &&& p.topology.incidence@ == m
                &&& anchors_hold(p, lists, supports)
                &&& p.solver == solver
            },
            Err(e) => supports matches Some(s) && supports_outcome(
                s,
                lists.fixed_nodes@,
                fixed_rows(lists),
                Err(e),
            ),
        }
    }
}

/// Supports that are fixed nodes, each at most once, are no more than these.
proof fn lemma_supports_are_few(nodes: Seq<usize>, fixed: Seq<usize>)
    requires
        all_fixed_nodes(nodes, fixed),
        nodes.no_duplicates(),
    ensures
        nodes.len() <= fixed.len(),
{
    broadcast use vstd::seq_lib::seq_to_set_is_finite;

    nodes.unique_seq_to_set();
    fixed.lemma_cardinality_of_set();
    assert forall|n: usize| nodes.to_set().contains(n) implies fixed.to_set().contains(n) by {
        let k = choose|k: int| 0 <= k < nodes.len() && nodes[k] == n;
        assert(fixed.contains(nodes[k]));
    }
    vstd::set_lib::lemma_len_subset(nodes.to_set(), fixed.to_set());
}

/// Makes a problem of flat lists, with supports that may move if there are any.
pub fn create_problem<A: Arithmetic>(
    ar: &A,
    lists: ProblemLists,
    supports: Option<SupportLists>,
    solver: SolverOptions,
) -> (r: Result<Problem, TheseusError>)
    requires
        supports matches Some(s) ==> s.sized(),
    ensures
        !coordinates_fit(
            lists.num_edges as nat,
            lists.num_nodes as nat,
            lists.coo_rows@,
            lists.coo_cols@,
            lists.coo_vals@,
        ) ==> r == Err::<Problem, _>(TheseusError::Shape(Complaint::Triplets)),
        coordinates_fit(
            lists.num_edges as nat,
            lists.num_nodes as nat,
            lists.coo_rows@,
            lists.coo_cols@,
            lists.coo_vals@,
        ) ==> exists|m: Csc|
            {
                &&& #[trigger] creation_outcome(*ar, lists, supports, solver, m, r)
                &&& m.wf()
                &&& m.nrows == lists.num_edges
                &&& m.ncols == lists.num_nodes
                &&& functional(*ar) ==> m == assembled(
                    *ar,
                    lists.num_edges as nat,
                    lists.num_nodes as nat,
                    zipped(lists.coo_rows@, lists.coo_cols@, lists.coo_vals@),
                )
            },
{
    let num_free: usize = lists.free_nodes.len();
    let num_fixed: usize = lists.fixed_nodes.len();
    let incidence = match SparseColMatOwned::from_coo(
        ar,
        lists.num_edges,
        lists.num_nodes,
        &lists.coo_rows,
        &lists.coo_cols,
        &lists.coo_vals,
    ) {
        Ok(m) => m,
        Err(e) => {
            return Err(e);
        },
    };
    let ghost m = incidence@;
    let ghost whole = lists;
    let nodes: u128 = (num_free as u128) + (num_fixed as u128);
    let size: u128 = 3 * nodes + (lists.num_edges as u128);
    if size >= usize::MAX as u128 || !Array2::fits(num_free + num_fixed, 3) {
        let r: Result<Problem, TheseusError> = Err(TheseusError::Shape(Complaint::TooLarge));
        assert(creation_outcome(*ar, whole, supports, solver, m, r));
        return r;
    }
    let free_incidence = match incidence.extract_columns(&lists.free_nodes) {
        Ok(m) => m,
        Err(e) => {
            let r: Result<Problem, TheseusError> = Err(e);
            assert(creation_outcome(*ar, whole, supports, solver, m, r));
            return r;
        },
    };
    let fixed_incidence = match incidence.extract_columns(&lists.fixed_nodes) {
        Ok(m) => m,
        Err(e) => {
            let r: Result<Problem, TheseusError> = Err(e);
            assert(creation_outcome(*ar, whole, supports, solver, m, r));
            return r;
        },
    };
    proof {
        crate::array::lemma_shorter_fits(
            (num_free + num_fixed) as nat,
            3,
            num_free as nat,
        );
        crate::array::lemma_shorter_fits(
            (num_free + num_fixed) as nat,
            3,
            num_fixed as nat,
        );
    }
    let free_node_loads = match rows_of_three(num_free, lists.loads, Listed::Loads) {
        Ok(g) => g,
        Err(e) => {
            let r: Result<Problem, TheseusError> = Err(e);
            assert(creation_outcome(*ar, whole, supports, solver, m, r));
            return r;
        },
    };
    let fixed_node_positions = match rows_of_three(
        num_fixed,
        lists.fixed_positions,
        Listed::FixedPositions,
    ) {
        Ok(g) => g,
        Err(e) => {
            let r: Result<Problem, TheseusError> = Err(e);
            assert(creation_outcome(*ar, whole, supports, solver, m, r));
            return r;
        },
    };
    let anchors = match supports {
        None => AnchorInfo {
            variable_indices: Vec::new(),
            fixed_indices: Vec::new(),
            reference_positions: fixed_node_positions.clone(),
            initial_variable_positions: Array2::from_elem(0, 3, Real { bits: 0 }),
            variable_supports: Vec::new(),
        },
        Some(s) => {
            let variable_supports = match build_supports(
                &s,
                &lists.fixed_nodes,
                &fixed_node_positions,
            ) {
                Ok(v) => v,
                Err(e) => {
                    assert(supports_outcome(
                        s,
                        lists.fixed_nodes@,
                        fixed_node_positions@,
                        Err(e),
                    ));
                    let r: Result<Problem, TheseusError> = Err(e);
                    assert(creation_outcome(*ar, whole, supports, solver, m, r));
                    return r;
                },
            };
            proof {
                lemma_supports_are_few(s.nodes@, lists.fixed_nodes@);
                crate::array::lemma_shorter_fits(num_fixed as nat, 3, variable_supports@.len());
            }
            AnchorInfo {
                variable_indices: s.nodes,
                fixed_indices: lists.fixed_nodes.clone(),
                reference_positions: fixed_node_positions.clone(),
                initial_variable_positions: start_positions(&variable_supports),
                variable_supports,
            }
        },
    };
    let r = Ok(
        Problem {
            topology: NetworkTopology {
                incidence,
                free_incidence,
                fixed_incidence,
                num_edges: lists.num_edges,
                num_nodes: lists.num_nodes,
                free_node_indices: lists.free_nodes,
                fixed_node_indices: lists.fixed_nodes,
            },
            free_node_loads,
            fixed_node_positions,
            anchors,
            objectives: Vec::new(),
            bounds: Bounds { lower: lists.lower_bounds, upper: lists.upper_bounds },
            solver,
            self_weight: None,
            pressure: None,
        },
    );
    assert(creation_outcome(*ar, whole, supports, solver, m, r));
    r
}

} // verus!
