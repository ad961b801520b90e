//! The network, its loads and its supports.

use crate::array::{fits, Array2};
use crate::double::{Real, ZERO};
use crate::error::{Complaint, TheseusError};
use crate::loads::{PressureParams, SelfWeightParams};
use crate::objectives::Objective;
use crate::sparse::SparseColMatOwned;
use crate::supports::VariableSupport;
use vstd::prelude::*;

verus! {

/// Which members meet at which nodes.
///
/// The incidence matrices have a row for each edge, with opposite signs at its two ends.
#[derive(Debug)]
pub struct NetworkTopology {
    pub incidence: SparseColMatOwned,
    /// The columns of the free nodes, in the order of `free_node_indices`.
    pub free_incidence: SparseColMatOwned,
    /// The columns of the fixed nodes, in the order of `fixed_node_indices`.
    pub fixed_incidence: SparseColMatOwned,
    pub num_edges: usize,
    pub num_nodes: usize,
    pub free_node_indices: Vec<usize>,
    pub fixed_node_indices: Vec<usize>,
}

impl NetworkTopology {
    pub open spec fn wf(self) -> bool {
        &&& self.incidence.wf()
        &&& self.free_incidence.wf()
        &&& self.fixed_incidence.wf()
        &&& self.incidence.nrows == self.num_edges
        &&& self.incidence.ncols == self.num_nodes
        &&& self.free_incidence.nrows == self.num_edges
        &&& self.free_incidence.ncols == self.free_node_indices@.len()
        &&& self.fixed_incidence.nrows == self.num_edges
        &&& self.fixed_incidence.ncols == self.fixed_node_indices@.len()
        &&& fits(self.free_node_indices@.len() + self.fixed_node_indices@.len(), 3)
        &&& 3 * (self.free_node_indices@.len() + self.fixed_node_indices@.len())
            + self.num_edges < usize::MAX
        &&& forall|i: int|
            0 <= i < self.free_node_indices@.len() ==> #[trigger] self.free_node_indices@[i]
                < self.num_nodes
        &&& forall|i: int|
            0 <= i < self.fixed_node_indices@.len() ==> #[trigger] self.fixed_node_indices@[i]
                < self.num_nodes
    }
}

/// How a symmetric matrix is factored.
#[derive(Debug, Clone, Copy, PartialEq, Eq, Structural)]
pub enum FactorizationStrategy {
    /// For positive definite matrices.
    Cholesky,
    /// For indefinite matrices.
    LDL,
}

/// Bounds on the force density of every edge.
#[derive(Debug)]
pub struct Bounds {
    pub lower: Vec<Real>,
    pub upper: Vec<Real>,
}

/// Whether every entry is greater than zero.
pub open spec fn all_positive(v: Seq<Real>) -> bool {
    forall|i: int| 0 <= i < v.len() ==> (Real { bits: ZERO }).below(#[trigger] v[i])
}

/// Whether every entry is greater than zero.
pub fn is_all_positive(v: &Vec<Real>) -> (r: bool)
    ensures
        r == all_positive(v@),
{
    for i in 0..v.len()
        invariant
            forall|k: int| 0 <= k < i ==> (Real { bits: ZERO }).below(#[trigger] v@[k]),
    {
        if !v[i].gt(Real { bits: ZERO }) {
            return false;
        }
    }
    true
}

impl FactorizationStrategy {
    /// Cholesky where every force density that the bounds admit is positive.
    pub fn from_bounds(bounds: &Bounds) -> (r: FactorizationStrategy)
        ensures
            r == if all_positive(bounds.lower@) {
                FactorizationStrategy::Cholesky
            } else {
                FactorizationStrategy::LDL
            },
    {
        if is_all_positive(&bounds.lower) {
            FactorizationStrategy::Cholesky
        } else {
            FactorizationStrategy::LDL
        }
    }
}

/// How force densities are bounded in an optimization.
#[derive(Debug, Clone, Copy, PartialEq, Eq, Structural)]
pub enum QParameterizationMode {
    /// Force densities are free, with soft bounds; code 0.
    DirectSoftBounds,
    /// Force densities have hard, finite, two-sided bounds; code 2.
    DirectBoxBounds,
}

/// The parameterization with this code.
pub open spec fn parameterization_of(value: i32) -> Result<QParameterizationMode, TheseusError> {
    if value == 0 {
        Ok(QParameterizationMode::DirectSoftBounds)
    } else if value == 2 {
        Ok(QParameterizationMode::DirectBoxBounds)
    } else {
        Err(TheseusError::Shape(Complaint::UnknownParameterization(value)))
    }
}

impl TryFrom<i32> for QParameterizationMode {
    type Error = TheseusError;

    fn try_from(value: i32) -> (r: Result<QParameterizationMode, TheseusError>)
    {
        match value {
            0 => Ok(QParameterizationMode::DirectSoftBounds),
            2 => Ok(QParameterizationMode::DirectBoxBounds),
            other => Err(TheseusError::Shape(Complaint::UnknownParameterization(other))),
        }
    }
}

impl vstd::std_specs::convert::TryFromSpecImpl<i32> for QParameterizationMode {
    open spec fn obeys_try_from_spec() -> bool {
        true
    }

    open spec fn try_from_spec(value: i32) -> Result<QParameterizationMode, TheseusError> {
        parameterization_of(value)
    }
}

/// The smallest saturation of anchors, `1e-12`.
pub const MIN_SATURATION: u64 = 0x3D71_9799_812D_EA11;

/// How an optimization is to work.
#[derive(Debug, Clone, Copy, PartialEq, Eq, Structural)]
pub struct SolverOptions {
    pub max_iterations: usize,
    pub absolute_tolerance: Real,
    pub relative_tolerance: Real,
    pub report_frequency: usize,
    pub barrier_weight: Real,
    pub barrier_sharpness: Real,
    pub anchor_saturation_lambda: Real,
    pub q_parameterization_mode: QParameterizationMode,
}

impl SolverOptions {
    /// Sets everything but the parameterization; every iteration is reported.
    pub fn configure(
        &mut self,
        max_iterations: usize,
        abs_tol: Real,
        rel_tol: Real,
        barrier_weight: Real,
        barrier_sharpness: Real,
        anchor_saturation_lambda: Real,
    )
        ensures
            *final(self) == (SolverOptions {
                max_iterations,
                absolute_tolerance: abs_tol,
                relative_tolerance: rel_tol,
                report_frequency: 1,
                barrier_weight,
                barrier_sharpness,
                anchor_saturation_lambda: anchor_saturation_lambda.larger(
                    Real { bits: MIN_SATURATION },
                ),
                q_parameterization_mode: old(self).q_parameterization_mode,
            }),
    {
        self.max_iterations = max_iterations;
        self.absolute_tolerance = abs_tol;
        self.relative_tolerance = rel_tol;
        self.report_frequency = 1;
        self.barrier_weight = barrier_weight;
        self.barrier_sharpness = barrier_sharpness;
        self.anchor_saturation_lambda = anchor_saturation_lambda.max(
            Real { bits: MIN_SATURATION },
        );
    }
}

/// The supports and which of them may move.
#[derive(Debug)]
pub struct AnchorInfo {
    pub variable_indices: Vec<usize>,
    /// The fixed nodes, listed where some support may move.
    pub fixed_indices: Vec<usize>,
    pub reference_positions: Array2,
    pub initial_variable_positions: Array2,
    pub variable_supports: Vec<VariableSupport>,
}

/// A form-finding problem.
#[derive(Debug)]
pub struct Problem {
    pub topology: NetworkTopology,
    /// Loads at the free nodes, a row for each.
    pub free_node_loads: Array2,
    /// Positions of the fixed nodes, a row for each.
    pub fixed_node_positions: Array2,
    pub anchors: AnchorInfo,
    pub objectives: Vec<Objective>,
    pub bounds: Bounds,
    pub solver: SolverOptions,
    pub self_weight: Option<SelfWeightParams>,
    pub pressure: Option<PressureParams>,
}

impl Problem {
    pub open spec fn wf(self) -> bool {
        &&& self.topology.wf()
        &&& self.free_node_loads@.rows == self.topology.free_node_indices@.len()
        &&& self.free_node_loads@.cols == 3
        &&& self.fixed_node_positions@.rows == self.topology.fixed_node_indices@.len()
        &&& self.fixed_node_positions@.cols == 3
    }

    /// The number of free nodes.
    pub open spec fn n_free(self) -> nat {
        self.topology.free_node_indices@.len()
    }

    /// The number of fixed nodes.
    pub open spec fn n_fixed(self) -> nat {
        self.topology.fixed_node_indices@.len()
    }
}

} // verus!
