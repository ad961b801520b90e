//! What can be asked of an inverse solve.

use crate::bounds::BoxBounds;
use crate::double::Real;
use crate::error::{Complaint, TheseusError};
use vstd::prelude::*;

verus! {

/// InvFDM particular-solution backend, by code.
#[derive(Debug, Clone, Copy, PartialEq, Eq, Structural)]
pub enum ParticularMethod {
    /// Gram normal equations `(M'M + w I) q = M'p`; code 0.
    Gram,
    /// Augmented saddle / Moore--Penrose / Tikhonov; code 1.
    Augmented,
    /// Tall full-column-rank sparse QR least squares (comparison path); code 2.
    SparseQr,
    /// Clarabel quadratic programming, including unconstrained Direct solves; code 3.
    Clarabel,
}

/// Direct factorization (code 0) versus iterative matvec linear algebra (code 1).
#[derive(Debug, Clone, Copy, PartialEq, Eq, Structural)]
pub enum LinearAlgebra {
    Direct,
    Iterative,
}

/// Which residual the inverse solve minimises.
///
/// The FDM residual at a frozen target is the geometric error pre-conditioned
/// by the Laplacian: `r(q) = E(x*)q - p = D(q)(x* - x(q))`, so
/// `x(q) - x* = -D(q)^-1 r(q)`.  `Force` minimises the norm of `r` and therefore treats
/// every nodal force error alike; the geometric variants minimise that of `D^-1 r`,
/// which is the distance the forward solve actually lands from the target.
#[derive(Debug, Clone, Copy, PartialEq, Eq, Structural)]
pub enum InverseMetric {
    /// Minimise the force residual; code 0.
    Force,
    /// Minimise the geometric error with the Jacobian frozen at the target; code 1.
    Geometry,
    /// Minimise the geometric error with the Jacobian re-assembled at the
    /// current form-found geometry; code 2.
    GeometryNewton,
}

impl InverseMetric {
    /// True when the solve is weighted by the Laplacian compliance.
    pub fn is_geometric(self) -> (r: bool)
        ensures
            r == (self != InverseMetric::Force),
    {
        !matches!(self, InverseMetric::Force)
    }
}

impl Default for InverseMetric {
    fn default() -> (r: InverseMetric)
        ensures
            r == InverseMetric::Force,
    {
        InverseMetric::Force
    }
}

/// The metric with this code.
pub open spec fn metric_of(value: i32) -> Result<InverseMetric, TheseusError> {
    if value == 0 {
        Ok(InverseMetric::Force)
    } else if value == 1 {
        Ok(InverseMetric::Geometry)
    } else if value == 2 {
        Ok(InverseMetric::GeometryNewton)
    } else {
        Err(TheseusError::Solver(Complaint::UnknownMetric(value)))
    }
}

/// The kind of linear algebra with this code.
pub open spec fn linear_algebra_of(value: i32) -> Result<LinearAlgebra, TheseusError> {
    if value == 0 {
        Ok(LinearAlgebra::Direct)
    } else if value == 1 {
        Ok(LinearAlgebra::Iterative)
    } else {
        Err(TheseusError::Solver(Complaint::UnknownLinearAlgebra(value)))
    }
}

/// The particular method with this code.
pub open spec fn particular_method_of(value: i32) -> Result<ParticularMethod, TheseusError> {
    if value == 0 {
        Ok(ParticularMethod::Gram)
    } else if value == 1 {
        Ok(ParticularMethod::Augmented)
    } else if value == 2 {
        Ok(ParticularMethod::SparseQr)
    } else if value == 3 {
        Ok(ParticularMethod::Clarabel)
    } else {
        Err(TheseusError::Solver(Complaint::UnknownParticularMethod(value)))
    }
}

impl TryFrom<i32> for InverseMetric {
    type Error = TheseusError;

    fn try_from(value: i32) -> (r: Result<InverseMetric, TheseusError>)
    {
        match value {
            0 => Ok(InverseMetric::Force),
            1 => Ok(InverseMetric::Geometry),
            2 => Ok(InverseMetric::GeometryNewton),
            other => Err(TheseusError::Solver(Complaint::UnknownMetric(other))),
        }
    }
}

impl vstd::std_specs::convert::TryFromSpecImpl<i32> for InverseMetric {
    open spec fn obeys_try_from_spec() -> bool {
        true
    }

    open spec fn try_from_spec(value: i32) -> Result<InverseMetric, TheseusError> {
        metric_of(value)
    }
}

impl TryFrom<i32> for LinearAlgebra {
    type Error = TheseusError;

    fn try_from(value: i32) -> (r: Result<LinearAlgebra, TheseusError>)
    {
        match value {
            0 => Ok(LinearAlgebra::Direct),
            1 => Ok(LinearAlgebra::Iterative),
            other => Err(TheseusError::Solver(Complaint::UnknownLinearAlgebra(other))),
        }
    }
}

impl vstd::std_specs::convert::TryFromSpecImpl<i32> for LinearAlgebra {
    open spec fn obeys_try_from_spec() -> bool {
        true
    }

    open spec fn try_from_spec(value: i32) -> Result<LinearAlgebra, TheseusError> {
        linear_algebra_of(value)
    }
}

impl TryFrom<i32> for ParticularMethod {
    type Error = TheseusError;

    fn try_from(value: i32) -> (r: Result<ParticularMethod, TheseusError>)
    {
        match value {
            0 => Ok(ParticularMethod::Gram),
            1 => Ok(ParticularMethod::Augmented),
            2 => Ok(ParticularMethod::SparseQr),
            3 => Ok(ParticularMethod::Clarabel),
            other => Err(TheseusError::Solver(Complaint::UnknownParticularMethod(other))),
        }
    }
}

impl vstd::std_specs::convert::TryFromSpecImpl<i32> for ParticularMethod {
    open spec fn obeys_try_from_spec() -> bool {
        true
    }

    open spec fn try_from_spec(value: i32) -> Result<ParticularMethod, TheseusError> {
        particular_method_of(value)
    }
}

/// Default outer iteration budget for the geometric metrics.
pub const DEFAULT_MAX_OUTER: usize = 8;

/// The default tolerance, `1e-6`, which is the default damping too.
pub const DEFAULT_TOLERANCE: u64 = 0x3EB0_C6F7_A0B5_ED8D;

/// Options for an inverse solve.
#[derive(Debug)]
pub struct InverseFdmOptions {
    pub regularization: Real,
    pub use_l2: bool,
    pub max_l1_iter: usize,
    pub particular_method: ParticularMethod,
    pub linear_algebra: LinearAlgebra,
    pub enforce_zero_rx: bool,
    pub enforce_zero_ry: bool,
    pub enforce_zero_rz: bool,
    pub solve_for_q: bool,
    pub signs: Vec<i32>,
    pub lower: Vec<Real>,
    pub upper: Vec<Real>,
    pub max_iter: usize,
    pub tol: Real,
    /// Residual metric.
    pub metric: InverseMetric,
    /// Reference force densities that seed the geometric outer loop. Empty
    /// seeds it with the force solve. Ignored by `InverseMetric::Force`.
    pub q_ref: Vec<Real>,
    /// Iteration budget with the Jacobian frozen, before the Newton steps.
    pub max_frozen_outer: usize,
    /// Outer iteration budget for the geometric metrics.
    pub max_outer: usize,
    /// Damping of the compliance-weighted steps.
    pub cwls_damping: Real,
}

impl InverseFdmOptions {
    /// Options of an unconstrained Direct solve under the force metric.
    pub fn direct_unconstrained(
        regularization: Real,
        use_l2: bool,
        max_l1_iter: usize,
        particular_method: ParticularMethod,
        enforce_zero_rx: bool,
        enforce_zero_ry: bool,
        enforce_zero_rz: bool,
        solve_for_q: bool,
    ) -> (r: InverseFdmOptions)
        ensures
            r.regularization == regularization,
            r.use_l2 == use_l2,
            r.max_l1_iter == max_l1_iter,
            r.particular_method == particular_method,
            r.linear_algebra == LinearAlgebra::Direct,
            r.enforce_zero_rx == enforce_zero_rx,
            r.enforce_zero_ry == enforce_zero_ry,
            r.enforce_zero_rz == enforce_zero_rz,
            r.solve_for_q == solve_for_q,
            r.signs@.len() == 0,
            r.lower@.len() == 0,
            r.upper@.len() == 0,
            r.max_iter == 500,
            r.tol.bits == DEFAULT_TOLERANCE,
            r.metric == InverseMetric::Force,
            r.q_ref@.len() == 0,
            r.max_frozen_outer == 0,
            r.max_outer == DEFAULT_MAX_OUTER,
            r.cwls_damping.bits == DEFAULT_TOLERANCE,
    {
        InverseFdmOptions {
            regularization,
            use_l2,
            max_l1_iter,
            particular_method,
            linear_algebra: LinearAlgebra::Direct,
            enforce_zero_rx,
            enforce_zero_ry,
            enforce_zero_rz,
            solve_for_q,
            signs: Vec::new(),
            lower: Vec::new(),
            upper: Vec::new(),
            max_iter: 500,
            tol: Real { bits: DEFAULT_TOLERANCE },
            metric: InverseMetric::Force,
            q_ref: Vec::new(),
            max_frozen_outer: 0,
            max_outer: DEFAULT_MAX_OUTER,
            cwls_damping: Real { bits: DEFAULT_TOLERANCE },
        }
    }
}

/// The solver that an inverse problem is handed to.
#[derive(Debug, Clone, Copy, PartialEq, Eq, Structural)]
pub enum InnerKind {
    Gram,
    Saddle,
    Qr,
    Lsqr,
    Clarabel,
    Spg,
}

/// The solver of the force stage: a finite box takes a solver that honours it, and only an
/// unconstrained Direct solve goes by the particular method.
pub open spec fn inner_of(opts: InverseFdmOptions, bounded: bool) -> InnerKind {
    match (opts.linear_algebra, bounded) {
        (LinearAlgebra::Direct, true) => InnerKind::Clarabel,
        (LinearAlgebra::Iterative, true) => InnerKind::Spg,
        (LinearAlgebra::Iterative, false) => InnerKind::Lsqr,
        (LinearAlgebra::Direct, false) => match opts.particular_method {
            ParticularMethod::Gram => InnerKind::Gram,
            ParticularMethod::Augmented => InnerKind::Saddle,
            ParticularMethod::SparseQr => InnerKind::Qr,
            ParticularMethod::Clarabel => InnerKind::Clarabel,
        },
    }
}

/// The solver of the geometric stage, which does not go by the particular method.
pub open spec fn stage2_inner_of(opts: InverseFdmOptions, bounded: bool) -> InnerKind {
    match (opts.linear_algebra, bounded) {
        (LinearAlgebra::Direct, true) => InnerKind::Clarabel,
        (LinearAlgebra::Direct, false) => InnerKind::Saddle,
        (LinearAlgebra::Iterative, true) => InnerKind::Spg,
        (LinearAlgebra::Iterative, false) => InnerKind::Lsqr,
    }
}

/// The solver of the force stage.
pub fn pick_inner(opts: &InverseFdmOptions, bounds: &BoxBounds) -> (r: InnerKind)
    ensures
        r == inner_of(*opts, bounds.finite_somewhere()),
{
    if bounds.has_finite() {
        return match opts.linear_algebra {
            LinearAlgebra::Direct => InnerKind::Clarabel,
            LinearAlgebra::Iterative => InnerKind::Spg,
        };
    }
    match opts.linear_algebra {
        LinearAlgebra::Iterative => InnerKind::Lsqr,
        LinearAlgebra::Direct => match opts.particular_method {
            ParticularMethod::Gram => InnerKind::Gram,
            ParticularMethod::Augmented => InnerKind::Saddle,
            ParticularMethod::SparseQr => InnerKind::Qr,
            ParticularMethod::Clarabel => InnerKind::Clarabel,
        },
    }
}

/// The solver of the geometric stage.
pub fn pick_stage2_inner(opts: &InverseFdmOptions, bounds: &BoxBounds) -> (r: InnerKind)
    ensures
        r == stage2_inner_of(*opts, bounds.finite_somewhere()),
{
    let bounded = bounds.has_finite();
    match opts.linear_algebra {
        LinearAlgebra::Direct => if bounded {
            InnerKind::Clarabel
        } else {
            InnerKind::Saddle
        },
        LinearAlgebra::Iterative => if bounded {
            InnerKind::Spg
        } else {
            InnerKind::Lsqr
        },
    }
}

} // verus!
