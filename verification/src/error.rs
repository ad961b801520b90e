//! What can go wrong, as values.

use crate::backend::SolverStatus;
use crate::double::Real;
use crate::types::FactorizationStrategy;
use vstd::prelude::*;

verus! {

/// Why a request was turned down or a computation given up.
#[derive(Debug)]
pub enum TheseusError {
    /// A factorization or another dense or sparse kernel failed.
    Linalg(Complaint),
    /// A solver could not produce an answer.
    Solver(Complaint),
    /// Sizes do not go together.
    Shape(Complaint),
    /// The caller asked to stop.
    Cancelled,
}

/// Where a vector of unknowns came from.
#[derive(Debug, Clone, Copy, PartialEq, Eq, Structural)]
pub enum Source {
    InverseFdm,
    GeometricStep,
    InverseFdmGeometric,
    Spg,
    Pseudoinverse,
    PseudoinverseAugmented,
    PseudoinverseL1,
    PseudoinverseL1Augmented,
    PseudoinverseQr,
}

/// What is reported of a conic solve that cannot be used.
#[derive(Debug, Clone, Copy, PartialEq, Eq, Structural)]
pub struct ConicReport {
    pub status: SolverStatus,
    pub iterations: u32,
    pub primal_residual: Real,
    pub dual_residual: Real,
    pub solve_time: Real,
    pub variables: usize,
    pub p_nnz: usize,
    pub a_rows: usize,
    pub a_cols: usize,
    pub a_nnz: usize,
}

/// A number that is read as a count.
#[derive(Debug, Clone, Copy, PartialEq, Eq, Structural)]
pub enum Counted {
    CurveDegree,
    CurveKnots,
    CurveControlPoints,
    SurfaceDegreeU,
    SurfaceDegreeV,
    SurfaceControlPointsU,
    SurfaceControlPointsV,
    SurfaceKnotsU,
    SurfaceKnotsV,
}

/// A list that goes with others.
#[derive(Debug, Clone, Copy, PartialEq, Eq, Structural)]
pub enum Listed {
    Loads,
    FixedPositions,
    Targets,
    Magnitudes,
}

/// A buffer that a caller provides for a part of a report.
#[derive(Debug, Clone, Copy, PartialEq, Eq, Structural)]
pub enum Buffer {
    ParticularForce,
    Residual,
    SelfStress,
    Mechanism,
    RigidBody,
}

/// The reason that an error carries.
#[derive(Debug)]
pub enum Complaint {
    /// A reason worded by a numerical backend.
    Worded(String),
    /// A sparse entry lies outside the matrix, or the matrix is too large to index.
    Triplets,
    /// Target positions do not have one row of three coordinates for each free node.
    TargetShape { rows: usize, cols: usize, expected: usize },
    /// An edge of the target is too short to have a direction.
    NearZeroLength { edge: usize, length: Real },
    /// The iterative least-squares solution is not finite.
    LsqrNotFinite,
    /// The right-hand side of a pseudoinverse does not match the matrix.
    PseudoinverseRhs,
    /// The right-hand side of a transposed pseudoinverse does not match the matrix.
    TransposePseudoinverseRhs,
    /// A regularization weight is negative.
    NegativeRegularization,
    /// The right-hand side of a saddle system does not match the matrix.
    SaddleRhs,
    /// The direct solution of a saddle system is not finite.
    SaddleNotFinite,
    /// The saddle system without regularization could not be solved directly, for the
    /// reason given.
    SingularSaddle(Box<TheseusError>),
    /// A numerical backend answered with a result of the wrong size.
    BackendSize { found: usize, expected: usize },
    /// No metric has this code.
    UnknownMetric(i32),
    /// No kind of linear algebra has this code.
    UnknownLinearAlgebra(i32),
    /// No particular method has this code.
    UnknownParticularMethod(i32),
    /// A list of signs has neither no entry, nor one, nor one for each edge.
    SignList { found: usize, edges: usize },
    /// A list of bounds has neither no entry, nor one, nor one for each edge.
    BoundList { found: usize, edges: usize },
    /// The bounds of an edge admit nothing.
    EmptyInterval { edge: usize, lower: Real, upper: Real },
    /// Bounds on force densities have no counterpart at an edge of this length.
    UnusableLength { edge: usize, length: Real },
    /// A number that should be a count is not a whole number.
    NotCount(Counted),
    /// A support has no place in the geometry data.
    GeometryMissing { support: usize },
    /// The place of a support in the geometry data overflows.
    GeometryOverflow,
    /// The place of a support in the geometry data lies outside.
    GeometryRange { support: usize },
    /// The data of a curve do not even hold its sizes.
    CurveShort,
    /// The data of a curve are longer or shorter than its sizes tell.
    CurveLength { found: usize, expected: usize },
    /// The data of a surface do not even hold its sizes.
    SurfaceShort,
    /// The number of control points of a surface overflows.
    SurfaceOverflow,
    /// The data of a surface are longer or shorter than its sizes tell.
    SurfaceLength { found: usize, expected: usize },
    /// A variable support is no fixed node.
    SupportNotFixed { node: usize },
    /// Two variable supports are the same node.
    SupportsNotUnique,
    /// The saturation of a variable support is not finite and positive.
    SupportSaturation { support: usize },
    /// The radius of a sphere support is not finite and positive.
    SphereRadius { support: usize },
    /// A roller support may move along no axis.
    RollerAxes { support: usize },
    /// No kind of support has this code.
    SupportKind { code: i32, support: usize },
    /// A list does not have the length that the other lists ask for.
    ListLength(Listed),
    /// A free or fixed node does not exist.
    NodeRange { node: usize },
    /// The problem is too large to be addressed.
    TooLarge,
    /// No reduction of a geometric target has this code.
    UnknownReduction(i32),
    /// No parameterization of force densities has this code.
    UnknownParameterization(i32),
    /// The sign of a reaction needs a direction.
    ReactionDirection { row: usize },
    /// No method of rigidity analysis has this code.
    UnknownRigidityMethod(i32),
    /// A rigidity report is filled in before its sizes were asked for.
    NoPendingReport,
    /// A buffer has the wrong length.
    BufferLength { buffer: Buffer, found: usize, expected: usize },
    /// The handle is running an operation, so its state cannot be reached.
    HandleBusy,
    /// The handle is running an operation, so no other can be started.
    AlreadyRunning,
    /// No cancellation scope is pending.
    NoPendingScope,
    /// Another cancellation scope is pending.
    ScopeMismatch,
    /// A scoped solve is pending, so no other can be started.
    ScopedSolvePending,
    /// A cancellation scope is pending already.
    ScopeAlreadyPending,
    /// The residual of a null-space basis is too large.
    KernelResidual(Real),
    /// The numbers of self-stresses and mechanisms do not go with the size of the system.
    Calladine,
    /// The trace of a projector is not an integer.
    TraceNotInteger { trace: Real, allowance: Real },
    /// Both projectors tell different ranks.
    RankDisagreement { right: usize, left: usize },
    /// Projected probes span too few modes.
    PanelRank { found: usize, wanted: usize },
    /// Too few modes are left of projected probes.
    PanelBasis { found: usize, wanted: usize },
    /// A sparse QR comparison needs at least as many rows as columns.
    ComparisonWide { rows: usize, cols: usize },
    /// A sparse QR comparison does not recover the unit vectors.
    ComparisonRank { residual: Real, allowance: Real },
    /// A sparse QR comparison gave coefficients that are not finite.
    ComparisonNotFinite,
    /// A sparse QR comparison does not solve the least-squares problem.
    ComparisonStationarity { residual: Real, allowance: Real },
    /// Positions to be retracted do not have one row of three coordinates for each free node.
    RetractionShape { rows: usize, cols: usize, expected: usize },
    /// There is not one target length for each edge.
    RetractionCount,
    /// A target length is not finite or too short.
    RetractionLengths,
    /// No step along the correction comes closer to the target lengths.
    RetractionStuck,
    /// A prestressed system does not belong to the problem.
    PrestressSystem,
    /// There is not one prestress force for each edge.
    PrestressCount,
    /// A mechanism basis does not have one row for each free coordinate.
    MechanismRows { found: usize, expected: usize },
    /// A prestress force is not finite.
    PrestressNotFinite,
    /// An eigenproblem is not square.
    EigenShape,
    /// The eigenvalues of the restricted stiffness were not found.
    EigenNotConverged,
    /// The damping of the geometric steps is negative or not finite.
    CwlsDamping,
    /// The geometric metric has no meaning for the sum of absolute residuals.
    GeometricL1,
    /// The geometric metric needs loads that do not move with the geometry.
    GeometricLoads,
    /// The reference force densities do not have one entry for each edge.
    ReferenceCount { found: usize, expected: usize },
    /// No reduction of a geometric step led to a nonsingular Laplacian; the last reason
    /// is given.
    Backtracking { reductions: usize, last: Box<TheseusError> },
    /// A conic solve ended without a solution.  In a geometric step standing still is
    /// feasible, so a claim that nothing is feasible is a numerical failure.
    ConicFailed { numerical: bool, report: ConicReport },
    /// The solution of a conic solve violates the program.
    ConicInaccurate { equality: Real, violation: Real, allowed: Real, report: ConicReport },
    /// The normal equations without regularization are singular.
    SingularGram,
    /// A sparse QR solve needs at least as many rows as columns.
    QrWide { rows: usize, cols: usize },
    /// The stored factor of a sparse QR factorization cannot be read.
    QrStorage,
    /// A sparse QR solve needs full column rank.
    QrRank { usable: usize, columns: usize, threshold: Real },
    /// The Laplacian of the geometric metric could not be factored.
    LaplacianFactorization { strategy: FactorizationStrategy },
    /// A vector does not have a row for each row of the geometric weight.
    WeightRows { expected: usize, found: usize },
    /// A solve with the Laplacian left too large a residual along an axis.
    InaccurateInverse { axis: usize, backward_error: Real },
    /// A solve with the Laplacian gave a value that is not finite.
    SingularLaplacian,
    /// A solver returned the wrong number of values.
    WrongCount { source: Source, found: usize, expected: usize },
    /// A solver returned a value that is not finite.
    NotFinite { source: Source, edge: usize },
}

impl Complaint {
    /// The sentence that states the reason, without its numbers.
    pub open spec fn sentence(self) -> Seq<char> {
        match self {
            Complaint::Worded(text) => text@,
            Complaint::Triplets => "a sparse entry lies outside the matrix, or the matrix is too large to index"@,
            Complaint::TargetShape { .. } => "target XYZ does not have one row of three coordinates for each free node"@,
            Complaint::NearZeroLength { .. } => "target edge has near-zero length"@,
            Complaint::LsqrNotFinite => "LSQR pseudoinverse produced non-finite values"@,
            Complaint::PseudoinverseRhs => "pseudoinverse RHS length mismatch"@,
            Complaint::TransposePseudoinverseRhs => "transpose pseudoinverse RHS length mismatch"@,
            Complaint::NegativeRegularization => "regularization must be non-negative"@,
            Complaint::SaddleRhs => "saddle RHS length mismatch"@,
            Complaint::SaddleNotFinite => "saddle LDL solve produced non-finite values"@,
            Complaint::SingularSaddle(_) => "Direct MP requires a nonsingular zero-regularization saddle; switch to Iterative LSQR with lambda=0 for the minimum-norm solution"@,
            Complaint::BackendSize { .. } => "a numerical backend answered with a result of the wrong size"@,
            Complaint::UnknownMetric(_) => "unknown InvFDM metric (expected 0=Force, 1=Geometry, 2=GeometryNewton)"@,
            Complaint::UnknownLinearAlgebra(_) => "unknown InvFDM linear algebra (expected 0=Direct, 1=Iterative)"@,
            Complaint::UnknownParticularMethod(_) => "unknown InvFDM particular method (expected 0=Gram, 1=Augmented, 2=SparseQr, 3=Clarabel)"@,
            Complaint::SignList { .. } => "sign list length must be 0, 1, or the number of edges"@,
            Complaint::BoundList { .. } => "bound list length must be 0, 1, or the number of edges"@,
            Complaint::EmptyInterval { .. } => "empty bound interval"@,
            Complaint::UnusableLength { .. } => "cannot transform q bounds to member-force bounds at this target length"@,
            Complaint::NotCount(_) => "a count must be encoded as a nonnegative integer"@,
            Complaint::GeometryMissing { .. } => "NURBS support is missing geometry offset/length"@,
            Complaint::GeometryOverflow => "NURBS geometry range overflow"@,
            Complaint::GeometryRange { .. } => "NURBS support geometry range is out of bounds"@,
            Complaint::CurveShort => "NURBS curve support data is too short"@,
            Complaint::CurveLength { .. } => "NURBS curve support data has the wrong length"@,
            Complaint::SurfaceShort => "NURBS surface support data is too short"@,
            Complaint::SurfaceOverflow => "NURBS surface control point count overflow"@,
            Complaint::SurfaceLength { .. } => "NURBS surface support data has the wrong length"@,
            Complaint::SupportNotFixed { .. } => "variable support node index is not in fixed_node_indices"@,
            Complaint::SupportsNotUnique => "variable support node indices must be unique"@,
            Complaint::SupportSaturation { .. } => "variable support must have positive finite saturation lambda"@,
            Complaint::SphereRadius { .. } => "sphere support must have positive finite radius"@,
            Complaint::RollerAxes { .. } => "roller support must enable at least one axis"@,
            Complaint::SupportKind { .. } => "unknown variable support kind code"@,
            Complaint::ListLength(_) => "a list does not have the length that the other lists ask for"@,
            Complaint::NodeRange { .. } => "a free or fixed node does not exist"@,
            Complaint::TooLarge => "the problem is too large to be addressed"@,
            Complaint::UnknownReduction(_) => "unknown target reduction (expected 0=SSE, 1=MSE, 2=RMSE)"@,
            Complaint::UnknownParameterization(_) => "unknown q parameterization (expected 0=DirectSoftBounds, 2=DirectBoxBounds)"@,
            Complaint::ReactionDirection { .. } => "signed projected reaction magnitude requires non-zero target direction"@,
            Complaint::UnknownRigidityMethod(_) => "unknown rigidity method code"@,
            Complaint::NoPendingReport => "rigidity fill requires a successful size query first"@,
            Complaint::BufferLength { .. } => "a buffer does not have the length of its part of the report"@,
            Complaint::HandleBusy => "TheseusHandle is busy running an operation"@,
            Complaint::AlreadyRunning => "TheseusHandle is already running an operation"@,
            Complaint::NoPendingScope => "cancellation scope is not pending"@,
            Complaint::ScopeMismatch => "cancellation scope does not match"@,
            Complaint::ScopedSolvePending => "a scoped solve is pending on this handle"@,
            Complaint::ScopeAlreadyPending => "a cancellation scope is already pending"@,
            Complaint::KernelResidual(_) => "null-space residual exceeds tolerance"@,
            Complaint::Calladine => "Calladine identity failed"@,
            Complaint::TraceNotInteger { .. } => "projector trace is not an integer within tolerance"@,
            Complaint::RankDisagreement { .. } => "projector Calladine/rank disagreement"@,
            Complaint::PanelRank { .. } => "projector probe panel found too few modes"@,
            Complaint::PanelBasis { .. } => "projector orthonormalization retained too few modes"@,
            Complaint::ComparisonWide { .. } => "sparse QR comparison requires rows >= columns"@,
            Complaint::ComparisonRank { .. } => "sparse QR comparison cannot establish full column rank"@,
            Complaint::ComparisonNotFinite => "sparse QR comparison produced non-finite coefficients"@,
            Complaint::ComparisonStationarity { .. } => "sparse QR comparison failed least-squares residual validation"@,
            Complaint::RetractionShape { .. } => "retraction XYZ does not have one row of three coordinates for each free node"@,
            Complaint::RetractionCount => "retraction target length count does not match edge count"@,
            Complaint::RetractionLengths => "retraction target lengths must be finite and positive"@,
            Complaint::RetractionStuck => "length retraction line search could not reduce the per-member residual"@,
            Complaint::PrestressSystem => "prestress system does not match problem topology"@,
            Complaint::PrestressCount => "prestress force count does not match edge count"@,
            Complaint::MechanismRows { .. } => "mechanism basis does not have one row for each free coordinate"@,
            Complaint::PrestressNotFinite => "prestress forces must be finite"@,
            Complaint::EigenShape => "symmetric eigenproblem must be square"@,
            Complaint::EigenNotConverged => "restricted geometric-stiffness eigensolve did not converge"@,
            Complaint::CwlsDamping => "cwls_damping must be finite and non-negative"@,
            Complaint::GeometricL1 => "geometric metric does not support L1/IRLS. The IRLS reweighting is a diagonal row scaling of the force residual, which has no agreed meaning once the rows are already weighted by the Laplacian compliance. Set L2 = true."@,
            Complaint::GeometricLoads => "geometric metric requires geometry-independent loads, but self-weight or pressure is active. The identity x(q) − x* = −D(q)⁻¹r(q) assumes the load vector does not move with the geometry."@,
            Complaint::ReferenceCount { .. } => "q_ref does not have one entry for each edge"@,
            Complaint::Backtracking { .. } => "CWLS backtracking could not find a nonsingular trial Laplacian"@,
            Complaint::ConicFailed { numerical, .. } => if numerical {
                "Clarabel numerical failure: geometric Δ=0 is feasible"@
            } else {
                "Clarabel failed"@
            },
            Complaint::ConicInaccurate { .. } => "Clarabel returned an inaccurate solution"@,
            Complaint::SingularGram => "Gram at λ=0: MᵀM is singular"@,
            Complaint::QrWide { .. } => "sparse QR particular requires rows >= columns"@,
            Complaint::QrStorage => "the stored sparse QR factor cannot be read"@,
            Complaint::QrRank { .. } => "sparse QR particular requires full column rank"@,
            Complaint::LaplacianFactorization { strategy } => match strategy {
                FactorizationStrategy::Cholesky => "geometric metric: Cholesky factorization of D=Cnᵀ diag(q) Cn failed; mixed signs and indefiniteness are permitted, but D must be nonsingular and numerically factorizable by the current sparse LDL ordering"@,
                FactorizationStrategy::LDL => "geometric metric: LDL factorization of D=Cnᵀ diag(q) Cn failed; mixed signs and indefiniteness are permitted, but D must be nonsingular and numerically factorizable by the current sparse LDL ordering"@,
            },
            Complaint::WeightRows { .. } => "geometric weight got the wrong number of rows"@,
            Complaint::InaccurateInverse { .. } => "geometric metric: inaccurate D inverse solve; D must be nonsingular and numerically solvable"@,
            Complaint::SingularLaplacian => "geometric metric: applying D⁻¹ produced a non-finite value; the Laplacian is effectively singular at the current q"@,
            Complaint::WrongCount { source, .. } => match source {
                Source::InverseFdm => "inverse FDM returned the wrong number of values"@,
                Source::GeometricStep => "geometric step returned the wrong number of values"@,
                Source::InverseFdmGeometric => "inverse FDM (geometric) returned the wrong number of values"@,
                Source::Spg => "SPG returned the wrong number of values"@,
                Source::Pseudoinverse => "pseudoinverse returned the wrong number of q values"@,
                Source::PseudoinverseAugmented => "pseudoinverse (augmented) returned the wrong number of q values"@,
                Source::PseudoinverseL1 => "pseudoinverse L1 returned the wrong number of q values"@,
                Source::PseudoinverseL1Augmented => "pseudoinverse L1 (augmented) returned the wrong number of q values"@,
                Source::PseudoinverseQr => "pseudoinverse (sparse QR) returned the wrong number of q values"@,
            },
            Complaint::NotFinite { source, .. } => match source {
                Source::InverseFdm => "inverse FDM produced non-finite value"@,
                Source::GeometricStep => "geometric step produced non-finite value"@,
                Source::InverseFdmGeometric => "inverse FDM (geometric) produced non-finite value"@,
                Source::Spg => "SPG produced non-finite value"@,
                Source::Pseudoinverse => "pseudoinverse produced non-finite q; increase regularisation or check target geometry"@,
                Source::PseudoinverseAugmented => "pseudoinverse (augmented) produced non-finite q; increase regularisation or check target geometry"@,
                Source::PseudoinverseL1 => "pseudoinverse L1 produced non-finite q; increase regularisation or check target geometry"@,
                Source::PseudoinverseL1Augmented => "pseudoinverse L1 (augmented) produced non-finite q; increase regularisation or check target geometry"@,
                Source::PseudoinverseQr => "pseudoinverse (sparse QR) produced non-finite q"@,
            },
        }
    }

    /// The sentence that states the reason, without its numbers.
    pub fn words(&self) -> (r: &str)
        ensures
            r@ == self.sentence(),
    {
        match self {
            Complaint::Worded(text) => text.as_str(),
            Complaint::Triplets => "a sparse entry lies outside the matrix, or the matrix is too large to index",
            Complaint::TargetShape { .. } => "target XYZ does not have one row of three coordinates for each free node",
            Complaint::NearZeroLength { .. } => "target edge has near-zero length",
            Complaint::LsqrNotFinite => "LSQR pseudoinverse produced non-finite values",
            Complaint::PseudoinverseRhs => "pseudoinverse RHS length mismatch",
            Complaint::TransposePseudoinverseRhs => "transpose pseudoinverse RHS length mismatch",
            Complaint::NegativeRegularization => "regularization must be non-negative",
            Complaint::SaddleRhs => "saddle RHS length mismatch",
            Complaint::SaddleNotFinite => "saddle LDL solve produced non-finite values",
            Complaint::SingularSaddle(_) => "Direct MP requires a nonsingular zero-regularization saddle; switch to Iterative LSQR with lambda=0 for the minimum-norm solution",
            Complaint::BackendSize { .. } => "a numerical backend answered with a result of the wrong size",
            Complaint::UnknownMetric(_) => "unknown InvFDM metric (expected 0=Force, 1=Geometry, 2=GeometryNewton)",
            Complaint::UnknownLinearAlgebra(_) => "unknown InvFDM linear algebra (expected 0=Direct, 1=Iterative)",
            Complaint::UnknownParticularMethod(_) => "unknown InvFDM particular method (expected 0=Gram, 1=Augmented, 2=SparseQr, 3=Clarabel)",
            Complaint::SignList { .. } => "sign list length must be 0, 1, or the number of edges",
            Complaint::BoundList { .. } => "bound list length must be 0, 1, or the number of edges",
            Complaint::EmptyInterval { .. } => "empty bound interval",
            Complaint::UnusableLength { .. } => "cannot transform q bounds to member-force bounds at this target length",
            Complaint::NotCount(_) => "a count must be encoded as a nonnegative integer",
            Complaint::GeometryMissing { .. } => "NURBS support is missing geometry offset/length",
            Complaint::GeometryOverflow => "NURBS geometry range overflow",
            Complaint::GeometryRange { .. } => "NURBS support geometry range is out of bounds",
            Complaint::CurveShort => "NURBS curve support data is too short",
            Complaint::CurveLength { .. } => "NURBS curve support data has the wrong length",
            Complaint::SurfaceShort => "NURBS surface support data is too short",
            Complaint::SurfaceOverflow => "NURBS surface control point count overflow",
            Complaint::SurfaceLength { .. } => "NURBS surface support data has the wrong length",
            Complaint::SupportNotFixed { .. } => "variable support node index is not in fixed_node_indices",
            Complaint::SupportsNotUnique => "variable support node indices must be unique",
            Complaint::SupportSaturation { .. } => "variable support must have positive finite saturation lambda",
            Complaint::SphereRadius { .. } => "sphere support must have positive finite radius",
            Complaint::RollerAxes { .. } => "roller support must enable at least one axis",
            Complaint::SupportKind { .. } => "unknown variable support kind code",
            Complaint::ListLength(_) => "a list does not have the length that the other lists ask for",
            Complaint::NodeRange { .. } => "a free or fixed node does not exist",
            Complaint::TooLarge => "the problem is too large to be addressed",
            Complaint::UnknownReduction(_) => "unknown target reduction (expected 0=SSE, 1=MSE, 2=RMSE)",
            Complaint::UnknownParameterization(_) => "unknown q parameterization (expected 0=DirectSoftBounds, 2=DirectBoxBounds)",
            Complaint::ReactionDirection { .. } => "signed projected reaction magnitude requires non-zero target direction",
            Complaint::UnknownRigidityMethod(_) => "unknown rigidity method code",
            Complaint::NoPendingReport => "rigidity fill requires a successful size query first",
            Complaint::BufferLength { .. } => "a buffer does not have the length of its part of the report",
            Complaint::HandleBusy => "TheseusHandle is busy running an operation",
            Complaint::AlreadyRunning => "TheseusHandle is already running an operation",
            Complaint::NoPendingScope => "cancellation scope is not pending",
            Complaint::ScopeMismatch => "cancellation scope does not match",
            Complaint::ScopedSolvePending => "a scoped solve is pending on this handle",
            Complaint::ScopeAlreadyPending => "a cancellation scope is already pending",
            Complaint::KernelResidual(_) => "null-space residual exceeds tolerance",
            Complaint::Calladine => "Calladine identity failed",
            Complaint::TraceNotInteger { .. } => "projector trace is not an integer within tolerance",
            Complaint::RankDisagreement { .. } => "projector Calladine/rank disagreement",
            Complaint::PanelRank { .. } => "projector probe panel found too few modes",
            Complaint::PanelBasis { .. } => "projector orthonormalization retained too few modes",
            Complaint::ComparisonWide { .. } => "sparse QR comparison requires rows >= columns",
            Complaint::ComparisonRank { .. } => "sparse QR comparison cannot establish full column rank",
            Complaint::ComparisonNotFinite => "sparse QR comparison produced non-finite coefficients",
            Complaint::ComparisonStationarity { .. } => "sparse QR comparison failed least-squares residual validation",
            Complaint::RetractionShape { .. } => "retraction XYZ does not have one row of three coordinates for each free node",
            Complaint::RetractionCount => "retraction target length count does not match edge count",
            Complaint::RetractionLengths => "retraction target lengths must be finite and positive",
            Complaint::RetractionStuck => "length retraction line search could not reduce the per-member residual",
            Complaint::PrestressSystem => "prestress system does not match problem topology",
            Complaint::PrestressCount => "prestress force count does not match edge count",
            Complaint::MechanismRows { .. } => "mechanism basis does not have one row for each free coordinate",
            Complaint::PrestressNotFinite => "prestress forces must be finite",
            Complaint::EigenShape => "symmetric eigenproblem must be square",
            Complaint::EigenNotConverged => "restricted geometric-stiffness eigensolve did not converge",
            Complaint::CwlsDamping => "cwls_damping must be finite and non-negative",
            Complaint::GeometricL1 => "geometric metric does not support L1/IRLS. The IRLS reweighting is a diagonal row scaling of the force residual, which has no agreed meaning once the rows are already weighted by the Laplacian compliance. Set L2 = true.",
            Complaint::GeometricLoads => "geometric metric requires geometry-independent loads, but self-weight or pressure is active. The identity x(q) − x* = −D(q)⁻¹r(q) assumes the load vector does not move with the geometry.",
            Complaint::ReferenceCount { .. } => "q_ref does not have one entry for each edge",
            Complaint::Backtracking { .. } => "CWLS backtracking could not find a nonsingular trial Laplacian",
            Complaint::ConicFailed { numerical, .. } => if *numerical {
                "Clarabel numerical failure: geometric Δ=0 is feasible"
            } else {
                "Clarabel failed"
            },
            Complaint::ConicInaccurate { .. } => "Clarabel returned an inaccurate solution",
            Complaint::SingularGram => "Gram at λ=0: MᵀM is singular",
            Complaint::QrWide { .. } => "sparse QR particular requires rows >= columns",
            Complaint::QrStorage => "the stored sparse QR factor cannot be read",
            Complaint::QrRank { .. } => "sparse QR particular requires full column rank",
            Complaint::LaplacianFactorization { strategy } => match strategy {
                FactorizationStrategy::Cholesky => "geometric metric: Cholesky factorization of D=Cnᵀ diag(q) Cn failed; mixed signs and indefiniteness are permitted, but D must be nonsingular and numerically factorizable by the current sparse LDL ordering",
                FactorizationStrategy::LDL => "geometric metric: LDL factorization of D=Cnᵀ diag(q) Cn failed; mixed signs and indefiniteness are permitted, but D must be nonsingular and numerically factorizable by the current sparse LDL ordering",
            },
            Complaint::WeightRows { .. } => "geometric weight got the wrong number of rows",
            Complaint::InaccurateInverse { .. } => "geometric metric: inaccurate D inverse solve; D must be nonsingular and numerically solvable",
            Complaint::SingularLaplacian => "geometric metric: applying D⁻¹ produced a non-finite value; the Laplacian is effectively singular at the current q",
            Complaint::WrongCount { source, .. } => match source {
                Source::InverseFdm => "inverse FDM returned the wrong number of values",
                Source::GeometricStep => "geometric step returned the wrong number of values",
                Source::InverseFdmGeometric => "inverse FDM (geometric) returned the wrong number of values",
                Source::Spg => "SPG returned the wrong number of values",
                Source::Pseudoinverse => "pseudoinverse returned the wrong number of q values",
                Source::PseudoinverseAugmented => "pseudoinverse (augmented) returned the wrong number of q values",
                Source::PseudoinverseL1 => "pseudoinverse L1 returned the wrong number of q values",
                Source::PseudoinverseL1Augmented => "pseudoinverse L1 (augmented) returned the wrong number of q values",
                Source::PseudoinverseQr => "pseudoinverse (sparse QR) returned the wrong number of q values",
            },
            Complaint::NotFinite { source, .. } => match source {
                Source::InverseFdm => "inverse FDM produced non-finite value",
                Source::GeometricStep => "geometric step produced non-finite value",
                Source::InverseFdmGeometric => "inverse FDM (geometric) produced non-finite value",
                Source::Spg => "SPG produced non-finite value",
                Source::Pseudoinverse => "pseudoinverse produced non-finite q; increase regularisation or check target geometry",
                Source::PseudoinverseAugmented => "pseudoinverse (augmented) produced non-finite q; increase regularisation or check target geometry",
                Source::PseudoinverseL1 => "pseudoinverse L1 produced non-finite q; increase regularisation or check target geometry",
                Source::PseudoinverseL1Augmented => "pseudoinverse L1 (augmented) produced non-finite q; increase regularisation or check target geometry",
                Source::PseudoinverseQr => "pseudoinverse (sparse QR) produced non-finite q",
            },
        }
    }
}

impl TheseusError {
    /// The sentence that states what is wrong.
    pub fn message(&self) -> (r: String)
        ensures
            r@ == match *self {
                TheseusError::Linalg(c) => c.sentence(),
                TheseusError::Solver(c) => c.sentence(),
                TheseusError::Shape(c) => c.sentence(),
                TheseusError::Cancelled => "cancelled"@,
            },
    {
        match self {
            TheseusError::Linalg(c) => c.words().to_owned(),
            TheseusError::Solver(c) => c.words().to_owned(),
            TheseusError::Shape(c) => c.words().to_owned(),
            TheseusError::Cancelled => "cancelled".to_owned(),
        }
    }
}

} // verus!
