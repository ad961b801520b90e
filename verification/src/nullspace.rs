//! Null-space analysis: self-stresses and mechanisms.
//!
//! The production path keeps the equilibrium matrix sparse.  It applies the
//! right and left Moore--Penrose projectors with LSQR, then orthonormalises a
//! small projected probe panel.  Densifying the equilibrium
//! matrix is confined to [`analyze_dense_svd`], the small-fixture referee.

use crate::arithmetic::{
    count, count_of, difference_of, functional, minus, nearest_of, over, plus, product_of,
    quotient_of, root_of, round, sqrt, sum_of, times, Arithmetic,
};
use crate::array::{fits, lemma_narrower_fits, Array2, Grid};
use crate::backend::{Backend, QrFactor};
use crate::basis::{
    columns_of, columns_range, from_columns, grid_of, kernel_allowance, kernel_residual,
    range_count, remove_subspace, take_columns, tall, verify_kernel, DEFAULT_TOL,
};
use crate::double::{Real, EPSILON, ONE, ZERO};
use crate::equilibrium::EquilibriumSystem;
use crate::error::{Complaint, TheseusError};
use crate::lsqr::{apply_pseudoinverse, lsqr_of};
use crate::probe::{
    count_above, dimension_of, fewer, leading, number_above, panel_outcome, project, projectable,
    projected_panel, projection,
};
use crate::qr::{head_answer, head_part, single_column, to_column};
use crate::rigid::rigid_basis;
use crate::sparse::{lemma_column, Csc, SparseColMatOwned};
use crate::vector::{all_finite, first_not_finite, less, norm, norm_of, subtract, zeros};
use vstd::prelude::*;

verus! {

/// The numbers fifty and a thousand.
pub const FIFTY: u64 = 0x4049_0000_0000_0000;

pub const THOUSAND: u64 = 0x408F_4000_0000_0000;

/// The smallest allowance for the trace of a projector, `1e-5`.
pub const TRACE_TOL: u64 = 0x3EE4_F8B5_88E3_68F1;

/// Production and referee null-space implementations.
#[derive(Debug, Clone, Copy, PartialEq, Eq, Structural)]
pub enum NullspaceMethod {
    Projector,
    Svd,
    /// Reserved comparison mode.  It is deliberately not used to publish rank.
    SparseQr,
}

/// Options for null-space analysis.
#[derive(Debug, Clone, Copy, PartialEq, Eq, Structural)]
pub struct NullspaceOptions {
    pub method: NullspaceMethod,
    pub max_modes: usize,
    pub include_rigid_bodies: bool,
    pub tolerance: Real,
    pub lsqr_max_iterations: usize,
}

impl Default for NullspaceOptions {
    fn default() -> (r: NullspaceOptions)
        ensures
            r == (NullspaceOptions {
                method: NullspaceMethod::Projector,
                max_modes: 32,
                include_rigid_bodies: false,
                tolerance: Real { bits: DEFAULT_TOL },
                lsqr_max_iterations: 0,
            }),
    {
        NullspaceOptions {
            method: NullspaceMethod::Projector,
            max_modes: 32,
            include_rigid_bodies: false,
            tolerance: Real { bits: DEFAULT_TOL },
            lsqr_max_iterations: 0,
        }
    }
}

/// Pellegrino--Calladine result.  Basis matrices store modes by columns.
#[derive(Debug)]
pub struct NullspaceReport {
    pub rank: usize,
    pub s: usize,
    pub m_raw: usize,
    pub m: usize,
    pub n_rigid: usize,
    pub particular_t: Array2,
    pub residual_r: Vec<Real>,
    pub residual_ratio: Real,
    pub self_stress: Array2,
    pub mechanisms: Array2,
    pub rigid_bodies: Array2,
}

/// Whether the dense arrays of an analysis can be addressed.
pub open spec fn analyzable(system: EquilibriumSystem) -> bool {
    &&& system.wf()
    &&& fits(system.n_eq as nat, system.n_eq as nat)
    &&& fits(system.n_edges as nat, system.n_edges as nat)
    &&& fits(system.n_eq as nat, system.n_edges as nat)
    &&& fits(system.n_eq as nat, 6)
    &&& fits(system.n_edges as nat, 1)
    &&& fits(system.n_eq as nat, 1)
}

/// `a - b`, or zero where that is negative.
pub open spec fn reduced(a: nat, b: nat) -> nat {
    if b <= a {
        (a - b) as nat
    } else {
        0
    }
}

/// Calladine's identity: self-stresses less mechanisms are edges less equations.
pub open spec fn calladine(s: int, m_raw: int, n_edges: int, n_eq: int) -> bool {
    s - m_raw == n_edges - n_eq
}

/// Whether a null-space basis passes: the operator maps it to nearly nothing.
pub open spec fn kernel_passes<A: Arithmetic>(
    ar: A,
    a: Csc,
    cols: Seq<Seq<Real>>,
    transpose: bool,
    tolerance: Real,
) -> bool {
    !kernel_allowance(ar, a, tolerance).below(kernel_residual(ar, a, cols, transpose))
}

/// The load of the particular solution: what is left of the loads, and on their scale.
pub open spec fn residual_of<A: Arithmetic>(
    ar: A,
    system: EquilibriumSystem,
    particular: Seq<Real>,
) -> Seq<Real> {
    less(ar, system.a@.applied(ar, particular), system.p@)
}

/// Whether `rep` reports these counts and bases.
pub open spec fn reports<A: Arithmetic>(
    rep: NullspaceReport,
    ar: A,
    system: EquilibriumSystem,
    rank: nat,
    s: nat,
    m_raw: nat,
    m: nat,
    n_rigid: nat,
    self_stress: Seq<Seq<Real>>,
    mechanisms: Seq<Seq<Real>>,
    rigid_bodies: Seq<Seq<Real>>,
    tolerance: Real,
    max_iterations: nat,
) -> bool {
    &&& rep.rank == rank
    &&& rep.s == s
    &&& rep.m_raw == m_raw
    &&& rep.m == m
    &&& rep.n_rigid == n_rigid
    &&& rep.self_stress@ == grid_of(system.n_edges as nat, self_stress)
    &&& rep.mechanisms@ == grid_of(system.n_eq as nat, mechanisms)
    &&& rep.rigid_bodies@ == grid_of(system.n_eq as nat, rigid_bodies)
    &&& rep.particular_t@.rows == system.n_edges
    &&& rep.particular_t@.cols == 1
    &&& rep.residual_r@.len() == system.n_eq
    &&& calladine(s as int, m_raw as int, system.n_edges as int, system.n_eq as int)
    &&& functional(ar) ==> {
        let particular = lsqr_of(
            ar,
            system.a@,
            system.p@,
            false,
            tolerance.larger(Real { bits: DEFAULT_TOL }),
            max_iterations,
        ).0;
        &&& kernel_passes(ar, system.a@, self_stress, false, tolerance)
        &&& kernel_passes(ar, system.a@, mechanisms, true, tolerance)
        &&& all_finite(particular)
        &&& rep.particular_t@ == single_column(particular)
        &&& rep.residual_r@ == residual_of(ar, system, particular)
        &&& rep.residual_ratio == quotient_of(
            ar,
            norm_of(ar, residual_of(ar, system, particular)),
            norm_of(ar, system.p@).larger(Real { bits: EPSILON }),
        )
    }
}

/// Why modes are not reported: a basis is no null space, the numbers do not balance, or
/// the particular forces are not finite.
pub open spec fn report_refusal<A: Arithmetic>(
    ar: A,
    system: EquilibriumSystem,
    s: nat,
    m_raw: nat,
    self_stress: Seq<Seq<Real>>,
    mechanisms: Seq<Seq<Real>>,
    tolerance: Real,
    max_iterations: nat,
) -> Option<TheseusError> {
    let a = system.a@;
    let tol = tolerance.larger(Real { bits: DEFAULT_TOL });
    if !kernel_passes(ar, a, self_stress, false, tolerance) {
        let size = kernel_residual(ar, a, self_stress, false);
        Some(TheseusError::Solver(Complaint::KernelResidual(size)))
    } else if !kernel_passes(ar, a, mechanisms, true, tolerance) {
        let size = kernel_residual(ar, a, mechanisms, true);
        Some(TheseusError::Solver(Complaint::KernelResidual(size)))
    } else if !calladine(s as int, m_raw as int, system.n_edges as int, system.n_eq as int) {
        Some(TheseusError::Solver(Complaint::Calladine))
    } else if !all_finite(lsqr_of(ar, a, system.p@, false, tol, max_iterations).0) {
        Some(TheseusError::Solver(Complaint::LsqrNotFinite))
    } else {
        None
    }
}

/// Checks the bases, the counts and the particular solution, and reports them.
pub fn build_report<A: Arithmetic>(
    ar: &A,
    system: &EquilibriumSystem,
    rank: usize,
    s: usize,
    m_raw: usize,
    m: usize,
    n_rigid: usize,
    self_stress: &Vec<Vec<Real>>,
    mechanisms: &Vec<Vec<Real>>,
    rigid_bodies: &Vec<Vec<Real>>,
    tolerance: Real,
    max_iterations: usize,
) -> (r: Result<NullspaceReport, TheseusError>)
    requires
        analyzable(*system),
        tall(self_stress@, system.n_edges as nat),
        tall(mechanisms@, system.n_eq as nat),
        tall(rigid_bodies@, system.n_eq as nat),
        self_stress@.len() <= system.n_edges,
        mechanisms@.len() <= system.n_eq,
        rigid_bodies@.len() <= 6,
    ensures
        r matches Ok(rep) ==> reports(
            rep,
            *ar,
            *system,
            rank as nat,
            s as nat,
            m_raw as nat,
            m as nat,
            n_rigid as nat,
            columns_of(self_stress@),
            columns_of(mechanisms@),
            columns_of(rigid_bodies@),
            tolerance,
            max_iterations as nat,
        ),
        functional(*ar) ==> (r is Ok <==> report_refusal(
            *ar,
            *system,
            s as nat,
            m_raw as nat,
            columns_of(self_stress@),
            columns_of(mechanisms@),
            tolerance,
            max_iterations as nat,
        ) is None),
        functional(*ar) && r is Err ==> report_refusal(
            *ar,
            *system,
            s as nat,
            m_raw as nat,
            columns_of(self_stress@),
            columns_of(mechanisms@),
            tolerance,
            max_iterations as nat,
        ) == Some(r->Err_0),
        !calladine(s as int, m_raw as int, system.n_edges as int, system.n_eq as int) ==> r is Err,
{
    match verify_kernel(ar, &system.a, self_stress, false, tolerance) {
        Ok(_) => {},
        Err(e) => {
            return Err(e);
        },
    }
    match verify_kernel(ar, &system.a, mechanisms, true, tolerance) {
        Ok(_) => {},
        Err(e) => {
            return Err(e);
        },
    }
    let balanced = (s as u128) + (system.n_eq as u128) == (m_raw as u128) + (
    system.n_edges as u128);
    if !balanced {
        return Err(TheseusError::Solver(Complaint::Calladine));
    }
    let tol = tolerance.max(Real { bits: DEFAULT_TOL });
    let particular = match apply_pseudoinverse(ar, &system.a, &system.p, tol, max_iterations) {
        Ok(x) => x,
        Err(e) => {
            return Err(e);
        },
    };
    let image = system.a.matvec(ar, &particular);
    let residual_r = subtract(ar, &image, &system.p);
    let size = norm(ar, &residual_r);
    let loads = norm(ar, &system.p).max(Real { bits: EPSILON });
    let residual_ratio = over(ar, size, loads);
    let particular_t = to_column(&particular);
    proof {
        lemma_narrower_fits(
            system.n_edges as nat,
            system.n_edges as nat,
            self_stress@.len(),
        );
        lemma_narrower_fits(system.n_eq as nat, system.n_eq as nat, mechanisms@.len());
        lemma_narrower_fits(system.n_eq as nat, 6, rigid_bodies@.len());
    }
    Ok(
        NullspaceReport {
            rank,
            s,
            m_raw,
            m,
            n_rigid,
            particular_t,
            residual_r,
            residual_ratio,
            self_stress: from_columns(system.n_edges, self_stress),
            mechanisms: from_columns(system.n_eq, mechanisms),
            rigid_bodies: from_columns(system.n_eq, rigid_bodies),
        },
    )
}

/// Whether rank and nullities add up to the size of the system.
pub open spec fn balanced(rep: NullspaceReport, system: EquilibriumSystem) -> bool {
    &&& rep.rank + rep.s == system.n_edges
    &&& rep.rank + rep.m_raw == system.n_eq
}

/// What is common to all reports on a system.
pub open spec fn sound_report(
    rep: NullspaceReport,
    system: EquilibriumSystem,
    options: NullspaceOptions,
) -> bool {
    &&& calladine(
        rep.s as int,
        rep.m_raw as int,
        system.n_edges as int,
        system.n_eq as int,
    )
    &&& rep.n_rigid <= 6
    &&& rep.m == reduced(rep.m_raw as nat, rep.n_rigid as nat)
    &&& rep.self_stress@.rows == system.n_edges
    &&& rep.self_stress@.cols <= options.max_modes
    &&& rep.mechanisms@.rows == system.n_eq
    &&& rep.mechanisms@.cols <= fewer(
        options.max_modes as nat,
        if options.include_rigid_bodies {
            rep.m_raw as nat
        } else {
            rep.m as nat
        },
    )
    &&& rep.rigid_bodies@.rows == system.n_eq
    &&& rep.rigid_bodies@.cols == if options.include_rigid_bodies {
        rep.n_rigid as nat
    } else {
        0
    }
    &&& rep.particular_t@.rows == system.n_edges
    &&& rep.particular_t@.cols == 1
    &&& rep.residual_r@.len() == system.n_eq
}

/// The mechanisms to be reported from a basis of the left null space.
pub open spec fn reported_mechanisms<A: Arithmetic>(
    ar: A,
    raw_left: Seq<Seq<Real>>,
    rigid: Seq<Seq<Real>>,
    options: NullspaceOptions,
    m_raw: nat,
    tolerance: Real,
) -> Seq<Seq<Real>> {
    if options.include_rigid_bodies {
        crate::basis::first_columns(raw_left, fewer(options.max_modes as nat, m_raw))
    } else {
        crate::basis::first_columns(
            crate::basis::orthonormal(
                ar,
                crate::basis::stripped_columns(ar, raw_left, rigid),
                tolerance,
                raw_left.len() as int,
            ),
            fewer(options.max_modes as nat, reduced(m_raw, rigid.len())),
        )
    }
}

/// Whether `rep` reports a system with these null spaces.
pub open spec fn analysis<A: Arithmetic>(
    rep: NullspaceReport,
    ar: A,
    system: EquilibriumSystem,
    options: NullspaceOptions,
    rank: nat,
    s: nat,
    m_raw: nat,
    self_stress: Seq<Seq<Real>>,
    raw_left: Seq<Seq<Real>>,
    rigid_tolerance: Real,
    tolerance: Real,
) -> bool {
    &&& sound_report(rep, system, options)
    &&& rep.rank == rank
    &&& rep.s == s
    &&& rep.m_raw == m_raw
    &&& rep.self_stress@ == grid_of(system.n_edges as nat, self_stress)
    &&& functional(ar) ==> {
        let rigid = crate::rigid::rigid_columns(ar, system, rigid_tolerance);
        reports(
            rep,
            ar,
            system,
            rank,
            s,
            m_raw,
            reduced(m_raw, rigid.len()),
            rigid.len(),
            self_stress,
            reported_mechanisms(ar, raw_left, rigid, options, m_raw, rigid_tolerance),
            if options.include_rigid_bodies {
                rigid
            } else {
                Seq::empty()
            },
            tolerance,
            options.lsqr_max_iterations as nat,
        )
    }
}

/// Whether `r` is the report on a system of which rank, numbers and bases are found, or
/// why there is none.
pub open spec fn finished<A: Arithmetic>(
    ar: A,
    system: EquilibriumSystem,
    options: NullspaceOptions,
    rank: nat,
    s: nat,
    m_raw: nat,
    self_stress: Seq<Seq<Real>>,
    raw_left: Seq<Seq<Real>>,
    rigid_tolerance: Real,
    tolerance: Real,
    r: Result<NullspaceReport, TheseusError>,
) -> bool {
    let rigid = crate::rigid::rigid_columns(ar, system, rigid_tolerance);
    let refusal = report_refusal(
        ar,
        system,
        s,
        m_raw,
        self_stress,
        reported_mechanisms(ar, raw_left, rigid, options, m_raw, rigid_tolerance),
        tolerance,
        options.lsqr_max_iterations as nat,
    );
    match refusal {
        Some(e) => r == Err::<NullspaceReport, _>(e),
        None => r matches Ok(rep) && analysis(
            rep,
            ar,
            system,
            options,
            rank,
            s,
            m_raw,
            self_stress,
            raw_left,
            rigid_tolerance,
            tolerance,
        ),
    }
}

/// Tells rigid motions from mechanisms, and reports.
fn finish<A: Arithmetic>(
    ar: &A,
    system: &EquilibriumSystem,
    options: &NullspaceOptions,
    rank: usize,
    s: usize,
    m_raw: usize,
    self_stress: &Vec<Vec<Real>>,
    raw_left: &Vec<Vec<Real>>,
    rigid_tolerance: Real,
    tolerance: Real,
) -> (r: Result<NullspaceReport, TheseusError>)
    requires
        analyzable(*system),
        tall(self_stress@, system.n_edges as nat),
        tall(raw_left@, system.n_eq as nat),
        self_stress@.len() <= system.n_edges,
        self_stress@.len() <= options.max_modes,
        raw_left@.len() <= system.n_eq,
    ensures
        r matches Ok(rep) ==> analysis(
            rep,
            *ar,
            *system,
            *options,
            rank as nat,
            s as nat,
            m_raw as nat,
            columns_of(self_stress@),
            columns_of(raw_left@),
            rigid_tolerance,
            tolerance,
        ),
        functional(*ar) ==> finished(
            *ar,
            *system,
            *options,
            rank as nat,
            s as nat,
            m_raw as nat,
            columns_of(self_stress@),
            columns_of(raw_left@),
            rigid_tolerance,
            tolerance,
            r,
        ),
        !calladine(s as int, m_raw as int, system.n_edges as int, system.n_eq as int) ==> r is Err,
{
    let rigid = rigid_basis(ar, system, rigid_tolerance);
    let n_rigid: usize = rigid.len();
    assert(columns_of(rigid@).len() == n_rigid);
    let m: usize = m_raw.saturating_sub(n_rigid);
    let mechanisms = if options.include_rigid_bodies {
        let kept: usize = if options.max_modes <= m_raw {
            options.max_modes
        } else {
            m_raw
        };
        take_columns(raw_left, system.n_eq, kept)
    } else {
        let kept: usize = if options.max_modes <= m {
            options.max_modes
        } else {
            m
        };
        remove_subspace(ar, raw_left, &rigid, system.n_eq, kept, rigid_tolerance)
    };
    let rigid_bodies = if options.include_rigid_bodies {
        rigid
    } else {
        Vec::new()
    };
    proof {
        if !options.include_rigid_bodies {
            assert(columns_of(rigid_bodies@) =~= Seq::<Seq<Real>>::empty());
        }
    }
    build_report(
        ar,
        system,
        rank,
        s,
        m_raw,
        m,
        n_rigid,
        self_stress,
        &mechanisms,
        &rigid_bodies,
        tolerance,
        options.lsqr_max_iterations,
    )
}

/// A unit vector.
pub open spec fn unit(n: nat, j: int) -> Seq<Real> {
    Seq::new(
        n,
        |i: int|
            Real {
                bits: if i == j {
                    ONE
                } else {
                    ZERO
                },
            },
    )
}

/// The sum of the first `k` diagonal entries of a projector, which counts the dimensions
/// of its null space.
pub open spec fn trace_upto<A: Arithmetic>(
    ar: A,
    a: Csc,
    left: bool,
    tolerance: Real,
    max_iterations: nat,
    k: int,
) -> Real
    decreases k,
{
    if k <= 0 {
        Real { bits: ZERO }
    } else {
        sum_of(
            ar,
            trace_upto(ar, a, left, tolerance, max_iterations, k - 1),
            projection(
                ar,
                a,
                left,
                unit(dimension_of(a, left), k - 1),
                tolerance,
                max_iterations,
            )[k - 1],
        )
    }
}

/// Whether the first `k` unit vectors can be projected.
pub open spec fn traceable<A: Arithmetic>(
    ar: A,
    a: Csc,
    left: bool,
    tolerance: Real,
    max_iterations: nat,
    k: nat,
) -> bool {
    forall|j: int|
        0 <= j < k ==> projectable(
            ar,
            a,
            left,
            #[trigger] unit(dimension_of(a, left), j),
            tolerance,
            max_iterations,
        )
}

/// The trace of a projector, without storing it.
pub fn projector_trace<A: Arithmetic>(
    ar: &A,
    a: &SparseColMatOwned,
    left: bool,
    tolerance: Real,
    max_iterations: usize,
) -> (r: Result<Real, TheseusError>)
    requires
        a.wf(),
        a.nrows < usize::MAX,
    ensures
        match r {
            Ok(t) => functional(*ar) ==> t == trace_upto(
                *ar,
                a@,
                left,
                tolerance,
                max_iterations as nat,
                dimension_of(a@, left) as int,
            ) && traceable(
                *ar,
                a@,
                left,
                tolerance,
                max_iterations as nat,
                dimension_of(a@, left),
            ),
            Err(e) => e == TheseusError::Solver(Complaint::LsqrNotFinite) && (functional(*ar)
                ==> !traceable(
                *ar,
                a@,
                left,
                tolerance,
                max_iterations as nat,
                dimension_of(a@, left),
            )),
        },
{
    let n: usize = if left {
        a.nrows
    } else {
        a.ncols
    };
    let mut trace = Real { bits: ZERO };
    for j in 0..n
        invariant
            a.wf(),
            a.nrows < usize::MAX,
            n == dimension_of(a@, left),
            functional(*ar) ==> trace == trace_upto(
                *ar,
                a@,
                left,
                tolerance,
                max_iterations as nat,
                j as int,
            ),
            functional(*ar) ==> traceable(
                *ar,
                a@,
                left,
                tolerance,
                max_iterations as nat,
                j as nat,
            ),
    {
        let mut v = zeros(n);
        v[j] = Real { bits: ONE };
        assert(v@ =~= unit(n as nat, j as int));
        match project(ar, a, left, &v, tolerance, max_iterations) {
            Ok(w) => {
                trace = plus(ar, trace, w[j]);
            },
            Err(e) => {
                return Err(e);
            },
        }
    }
    Ok(trace)
}

/// The integer nearest to a trace, between zero and the dimension.
pub open spec fn rounded_trace<A: Arithmetic>(ar: A, trace: Real, dimension: nat) -> Real {
    let nearest = nearest_of(ar, trace);
    let most = count_of(ar, dimension as u64);
    if nearest.below(Real { bits: ZERO }) {
        Real { bits: ZERO }
    } else if most.below(nearest) {
        most
    } else {
        nearest
    }
}

/// How far a trace may be from an integer.
pub open spec fn trace_allowance<A: Arithmetic>(ar: A, dimension: nat, tolerance: Real) -> Real {
    product_of(
        ar,
        product_of(ar, Real { bits: FIFTY }, tolerance),
        count_of(
            ar,
            if dimension == 0 {
                1u64
            } else {
                dimension as u64
            },
        ),
    ).larger(Real { bits: TRACE_TOL })
}

/// The dimension that a trace tells, if it is near enough to an integer.
pub open spec fn nullity_of<A: Arithmetic>(
    ar: A,
    trace: Real,
    dimension: nat,
    tolerance: Real,
) -> Result<usize, TheseusError> {
    let rounded = rounded_trace(ar, trace, dimension);
    let allowance = trace_allowance(ar, dimension, tolerance);
    if allowance.below(difference_of(ar, trace, rounded).absolute()) {
        Err(TheseusError::Solver(Complaint::TraceNotInteger { trace, allowance }))
    } else {
        Ok(fewer(rounded.whole_part(), dimension) as usize)
    }
}

/// The nullity that the trace of a projector tells, if it is nearly an integer.
pub fn rounded_nullity<A: Arithmetic>(ar: &A, trace: Real, dimension: usize, tolerance: Real) -> (r:
    Result<usize, TheseusError>)
    ensures
        functional(*ar) ==> r == nullity_of(*ar, trace, dimension as nat, tolerance),
        r matches Ok(n) ==> n <= dimension,
        r matches Err(e) ==> e is Solver && e->Solver_0 is TraceNotInteger,
{
    let nearest = round(ar, trace);
    let most = count(ar, dimension as u64);
    let rounded = if nearest.lt(Real { bits: ZERO }) {
        Real { bits: ZERO }
    } else if nearest.gt(most) {
        most
    } else {
        nearest
    };
    let part = times(ar, Real { bits: FIFTY }, tolerance);
    let counted = count(
        ar,
        if dimension == 0 {
            1
        } else {
            dimension as u64
        },
    );
    let allowance = times(ar, part, counted).max(Real { bits: TRACE_TOL });
    let off = minus(ar, trace, rounded).abs();
    if off.gt(allowance) {
        return Err(TheseusError::Solver(Complaint::TraceNotInteger { trace, allowance }));
    }
    let whole: u64 = rounded.whole();
    if whole as u128 > dimension as u128 {
        Ok(dimension)
    } else {
        Ok(whole as usize)
    }
}

/// Whether `r` can be the report from bases of both null spaces, the second of which is
/// sought here.
pub open spec fn left_outcome<A: Arithmetic, B: Backend>(
    ar: A,
    b: B,
    system: EquilibriumSystem,
    options: NullspaceOptions,
    rank: nat,
    s: nat,
    m_raw: nat,
    self_stress: Seq<Seq<Real>>,
    tolerance: Real,
    r: Result<NullspaceReport, TheseusError>,
) -> bool {
    exists|found: Result<Vec<Vec<Real>>, TheseusError>|
        {
            &&& #[trigger] panel_outcome(
                ar,
                b,
                system.a@,
                true,
                m_raw,
                tolerance,
                options.lsqr_max_iterations as nat,
                found,
            )
            &&& match found {
                Err(e) => r == Err::<NullspaceReport, _>(e),
                Ok(raw_left) => finished(
                    ar,
                    system,
                    options,
                    rank,
                    s,
                    m_raw,
                    self_stress,
                    columns_of(raw_left@),
                    tolerance,
                    tolerance,
                    r,
                ),
            }
        }
}

/// Whether `r` can be the report from bases of both null spaces, of these dimensions.
pub open spec fn panels_outcome<A: Arithmetic, B: Backend>(
    ar: A,
    b: B,
    system: EquilibriumSystem,
    options: NullspaceOptions,
    s: nat,
    m_raw: nat,
    tolerance: Real,
    r: Result<NullspaceReport, TheseusError>,
) -> bool {
    let rank = reduced(system.n_edges as nat, s);
    exists|found: Result<Vec<Vec<Real>>, TheseusError>|
        {
            &&& #[trigger] panel_outcome(
                ar,
                b,
                system.a@,
                false,
                fewer(s, options.max_modes as nat),
                tolerance,
                options.lsqr_max_iterations as nat,
                found,
            )
            &&& match found {
                Err(e) => r == Err::<NullspaceReport, _>(e),
                Ok(cols) => left_outcome(
                    ar,
                    b,
                    system,
                    options,
                    rank,
                    s,
                    m_raw,
                    columns_of(cols@),
                    tolerance,
                    r,
                ),
            }
        }
}

/// Whether `r` can be the report from the projectors: the traces of both tell how many
/// self-stresses and mechanisms there are, if they agree on the rank.
pub open spec fn projector_outcome<A: Arithmetic, B: Backend>(
    ar: A,
    b: B,
    system: EquilibriumSystem,
    options: NullspaceOptions,
    r: Result<NullspaceReport, TheseusError>,
) -> bool {
    let a = system.a@;
    let tol = options.tolerance.larger(Real { bits: EPSILON });
    let max_iter = options.lsqr_max_iterations as nat;
    let right = trace_upto(ar, a, false, tol, max_iter, a.ncols as int);
    let left = trace_upto(ar, a, true, tol, max_iter, a.nrows as int);
    if !traceable(ar, a, false, tol, max_iter, a.ncols) || !traceable(
        ar,
        a,
        true,
        tol,
        max_iter,
        a.nrows,
    ) {
        r == Err::<NullspaceReport, _>(TheseusError::Solver(Complaint::LsqrNotFinite))
    } else {
        match (nullity_of(ar, right, a.ncols, tol), nullity_of(ar, left, a.nrows, tol)) {
            (Err(e), _) => r == Err::<NullspaceReport, _>(e),
            (_, Err(e)) => r == Err::<NullspaceReport, _>(e),
            (Ok(s), Ok(m_raw)) => {
                let rank = reduced(a.ncols, s as nat);
                let left_rank = reduced(a.nrows, m_raw as nat);
                if rank != left_rank {
                    r == Err::<NullspaceReport, _>(
                        TheseusError::Solver(
                            Complaint::RankDisagreement {
                                right: rank as usize,
                                left: left_rank as usize,
                            },
                        ),
                    )
                } else {
                    panels_outcome(ar, b, system, options, s as nat, m_raw as nat, tol, r)
                }
            },
        }
    }
}

/// Analyze with the sparse Moore--Penrose projectors.
///
/// The projector traces give nullities without storing dense `A` or full bases.
pub fn analyze_projector<A: Arithmetic, B: Backend>(
    ar: &A,
    b: &B,
    system: &EquilibriumSystem,
    options: &NullspaceOptions,
) -> (r: Result<NullspaceReport, TheseusError>)
    requires
        analyzable(*system),
    ensures
        r matches Ok(rep) ==> balanced(rep, *system),
        r matches Ok(rep) ==> {
            &&& sound_report(rep, *system, *options)
            &&& rep.self_stress@.cols == fewer(rep.s as nat, options.max_modes as nat)
        },
        functional(*ar) ==> projector_outcome(*ar, *b, *system, *options, r),
{
    let tol = options.tolerance.max(Real { bits: EPSILON });
    let max_iter: usize = options.lsqr_max_iterations;
    let a = &system.a;
    let right_trace = match projector_trace(ar, a, false, tol, max_iter) {
        Ok(t) => t,
        Err(e) => {
            return Err(e);
        },
    };
    let left_trace = match projector_trace(ar, a, true, tol, max_iter) {
        Ok(t) => t,
        Err(e) => {
            return Err(e);
        },
    };
    let s: usize = match rounded_nullity(ar, right_trace, a.ncols, tol) {
        Ok(n) => n,
        Err(e) => {
            return Err(e);
        },
    };
    let m_raw: usize = match rounded_nullity(ar, left_trace, a.nrows, tol) {
        Ok(n) => n,
        Err(e) => {
            return Err(e);
        },
    };
    let rank: usize = a.ncols.saturating_sub(s);
    let left_rank: usize = a.nrows.saturating_sub(m_raw);
    if left_rank != rank {
        return Err(
            TheseusError::Solver(
                Complaint::RankDisagreement { right: rank, left: left_rank },
            ),
        );
    }
    let right_panel = match projected_panel(
        ar,
        b,
        a,
        false,
        s,
        options.max_modes,
        tol,
        max_iter,
    ) {
        Ok(cols) => cols,
        Err(e) => {
            return Err(e);
        },
    };
    let raw_left = match projected_panel(ar, b, a, true, m_raw, m_raw, tol, max_iter) {
        Ok(cols) => cols,
        Err(e) => {
            return Err(e);
        },
    };
    finish(
        ar,
        system,
        options,
        rank,
        s,
        m_raw,
        &right_panel,
        &raw_left,
        tol,
        tol,
    )
}

/// The dense array after the first `k` stored entries have been put in their places.
pub open spec fn dense_upto(m: Csc, k: int) -> Grid
    decreases k,
{
    if k <= 0 {
        Grid::generated(m.nrows, m.ncols, |i: int, j: int| Real { bits: ZERO })
    } else {
        dense_upto(m, k - 1).with(m.rows[k - 1] as int, m.column_of(k - 1), m.values[k - 1])
    }
}

/// A sparse matrix as a dense array.
pub fn densify(a: &SparseColMatOwned) -> (r: Array2)
    requires
        a.wf(),
        fits(a.nrows as nat, a.ncols as nat),
    ensures
        r@ == dense_upto(a@, a@.nnz() as int),
        r@.rows == a.nrows,
        r@.cols == a.ncols,
{
    let ghost m = a@;
    let mut r = Array2::from_elem(a.nrows, a.ncols, Real { bits: ZERO });
    assert(r@.cells =~= dense_upto(m, 0).cells);
    for col in 0..a.ncols
        invariant
            a.wf(),
            m == a@,
            r@.rows == m.nrows,
            r@.cols == m.ncols,
            m.starts[col as int] <= m.nnz(),
            r@ == dense_upto(m, m.starts[col as int] as int),
    {
        let start: usize = a.col_ptrs[col] as usize;
        let end: usize = a.col_ptrs[col + 1] as usize;
        assert(m.starts[col as int] <= m.starts[col + 1]);
        assert(m.starts[col + 1] <= m.starts[m.ncols as int]);
        for nz in start..end
            invariant
                a.wf(),
                m == a@,
                col < a.ncols,
                start == m.starts[col as int],
                end == m.starts[col + 1],
                end <= m.nnz(),
                r@.rows == m.nrows,
                r@.cols == m.ncols,
                r@ == dense_upto(m, nz as int),
        {
            proof {
                lemma_column(m, nz as int, col as int);
                assert(m.rows[nz as int] < m.nrows);
            }
            r.put(a.row_indices[nz] as usize, col, a.values[nz]);
        }
    }
    r
}

/// The singular value above which a direction counts toward the rank.
pub open spec fn rank_threshold<A: Arithmetic>(
    ar: A,
    system: EquilibriumSystem,
    options: NullspaceOptions,
    singular: Seq<Real>,
) -> Real {
    let size = if system.n_eq >= system.n_edges {
        system.n_eq
    } else {
        system.n_edges
    };
    product_of(
        ar,
        options.tolerance.larger(
            product_of(ar, Real { bits: EPSILON }, count_of(ar, size as u64)),
        ),
        leading(singular).larger(Real { bits: ONE }),
    )
}

/// Whether a decomposition has the sizes of the full one of the system's matrix.
pub open spec fn full_svd(svd: crate::backend::Svd, system: EquilibriumSystem) -> bool {
    &&& svd.u@.rows == system.n_eq
    &&& svd.u@.cols == system.n_eq
    &&& svd.v@.rows == system.n_edges
    &&& svd.v@.cols == system.n_edges
    &&& svd.singular@.len() <= system.n_eq
    &&& svd.singular@.len() <= system.n_edges
}

/// The columns from `start` on, but at most `cap`.
pub open spec fn tail_columns(g: Grid, start: nat, cap: nat) -> Seq<Seq<Real>> {
    Seq::new(
        range_count(start, g.cols, cap),
        |j: int| crate::weight::column(g, start + j),
    )
}

/// Whether `r` is the report that a decomposition of the system's matrix leads to.
pub open spec fn svd_answer<A: Arithmetic>(
    ar: A,
    system: EquilibriumSystem,
    options: NullspaceOptions,
    svd: crate::backend::Svd,
    r: Result<NullspaceReport, TheseusError>,
) -> bool {
    if !full_svd(svd, system) {
        r == Err::<NullspaceReport, _>(
            TheseusError::Shape(
                Complaint::BackendSize {
                    found: svd.singular@.len() as usize,
                    expected: fewer(system.n_eq as nat, system.n_edges as nat) as usize,
                },
            ),
        )
    } else {
        &&& r matches Ok(rep) ==> {
            &&& sound_report(rep, system, options)
            &&& balanced(rep, system)
            &&& rep.self_stress@.cols == fewer(rep.s as nat, options.max_modes as nat)
        }
        &&& functional(ar) ==> {
            let threshold = rank_threshold(ar, system, options, svd.singular@);
            let rank = count_above(svd.singular@, threshold, svd.singular@.len() as int);
            finished(
                ar,
                system,
                options,
                rank,
                (system.n_edges - rank) as nat,
                (system.n_eq - rank) as nat,
                tail_columns(svd.v@, rank, options.max_modes as nat),
                tail_columns(svd.u@, rank, (system.n_eq - rank) as nat),
                threshold.larger(Real { bits: DEFAULT_TOL }),
                options.tolerance,
                r,
            )
        }
    }
}

/// The report that a decomposition of the system's matrix leads to.
pub fn accept_svd<A: Arithmetic>(
    ar: &A,
    system: &EquilibriumSystem,
    options: &NullspaceOptions,
    svd: &crate::backend::Svd,
) -> (r: Result<NullspaceReport, TheseusError>)
    requires
        analyzable(*system),
    ensures
        svd_answer(*ar, *system, *options, *svd, r),
{
    let n_eq: usize = system.n_eq;
    let n_edges: usize = system.n_edges;
    let (u_rows, u_cols) = svd.u.dim();
    let (v_rows, v_cols) = svd.v.dim();
    if u_rows != n_eq || u_cols != n_eq || v_rows != n_edges || v_cols != n_edges
        || svd.singular.len() > n_eq || svd.singular.len() > n_edges {
        let expected: usize = if n_eq <= n_edges {
            n_eq
        } else {
            n_edges
        };
        return Err(
            TheseusError::Shape(
                Complaint::BackendSize { found: svd.singular.len(), expected },
            ),
        );
    }
    let first = if svd.singular.len() == 0 {
        Real { bits: ZERO }
    } else {
        svd.singular[0]
    };
    let size: usize = if n_eq >= n_edges {
        n_eq
    } else {
        n_edges
    };
    let counted = count(ar, size as u64);
    let noise = times(ar, Real { bits: EPSILON }, counted);
    let threshold = times(
        ar,
        options.tolerance.max(noise),
        first.max(Real { bits: ONE }),
    );
    let rank: usize = number_above(&svd.singular, threshold);
    let s: usize = n_edges - rank;
    let m_raw: usize = n_eq - rank;
    let right = columns_range(&svd.v, rank, n_edges, options.max_modes);
    let raw_left = columns_range(&svd.u, rank, n_eq, m_raw);
    assert(columns_of(right@).len() == fewer(s as nat, options.max_modes as nat));
    finish(
        ar,
        system,
        options,
        rank,
        s,
        m_raw,
        &right,
        &raw_left,
        threshold.max(Real { bits: DEFAULT_TOL }),
        options.tolerance,
    )
}

/// Whether `r` can be the report by a dense singular value decomposition.
pub open spec fn dense_outcome<A: Arithmetic, B: Backend>(
    ar: A,
    b: B,
    system: EquilibriumSystem,
    options: NullspaceOptions,
    r: Result<NullspaceReport, TheseusError>,
) -> bool {
    exists|dense: Array2, reply: Result<crate::backend::Svd, TheseusError>|
        {
            &&& dense@ == dense_upto(system.a@, system.a@.nnz() as int)
            &&& #[trigger] call_ensures(B::svd, (&b, &dense, true), reply)
            &&& match reply {
                Ok(svd) => svd_answer(ar, system, options, svd, r),
                Err(e) => r == Err::<NullspaceReport, _>(e),
            }
        }
}

/// Dense referee for paper baselines and tiny fixtures only.
pub fn analyze_dense_svd<A: Arithmetic, B: Backend>(
    ar: &A,
    b: &B,
    system: &EquilibriumSystem,
    options: &NullspaceOptions,
) -> (r: Result<NullspaceReport, TheseusError>)
    requires
        analyzable(*system),
    ensures
        r matches Ok(rep) ==> balanced(rep, *system),
        dense_outcome(*ar, *b, *system, *options, r),
        r matches Ok(rep) ==> sound_report(rep, *system, *options),
{
    let dense = densify(&system.a);
    let reply = b.svd(&dense, true);
    let ghost given = reply;
    assert(call_ensures(B::svd, (b, &dense, true), given));
    match reply {
        Ok(svd) => accept_svd(ar, system, options, &svd),
        Err(e) => Err(e),
    }
}

/// The squared distance from the identity of the first `j` columns, and of the first `i`
/// entries of column `j`.
pub open spec fn identity_distance<A: Arithmetic>(ar: A, x: Grid, n: int, j: int, i: int) -> Real
    decreases j + 1, i,
{
    if j < 0 {
        Real { bits: ZERO }
    } else if i <= 0 {
        identity_distance(ar, x, n, j - 1, n)
    } else {
        let expected = Real {
            bits: if i - 1 == j {
                ONE
            } else {
                ZERO
            },
        };
        let off = difference_of(ar, x.at(i - 1, j), expected);
        sum_of(ar, identity_distance(ar, x, n, j, i - 1), product_of(ar, off, off))
    }
}

/// The distance from the identity of the recovered unit vectors.
pub open spec fn identity_error<A: Arithmetic>(ar: A, x: Grid, n: int) -> Real {
    root_of(ar, identity_distance(ar, x, n, n - 1, n))
}

/// The distance from the identity at which the rank is full.
pub open spec fn identity_allowance<A: Arithmetic>(ar: A, n: nat, tolerance: Real) -> Real {
    product_of(
        ar,
        product_of(ar, Real { bits: THOUSAND }, tolerance),
        root_of(
            ar,
            count_of(
                ar,
                if n == 0 {
                    1u64
                } else {
                    n as u64
                },
            ),
        ),
    )
}

/// Whether `r` tells that the first `n` rows and columns are nearly the identity, or how
/// far from it they are.
pub open spec fn identity_outcome<A: Arithmetic>(
    ar: A,
    x: Grid,
    n: usize,
    tolerance: Real,
    r: Result<(), TheseusError>,
) -> bool {
    if x.rows < n || x.cols < n {
        r == Err::<(), _>(
            TheseusError::Shape(
                Complaint::BackendSize { found: x.rows as usize, expected: n },
            ),
        )
    } else {
        match r {
            Ok(_) => functional(ar) ==> {
                let off = identity_error(ar, x, n as int);
                off.finite() && !identity_allowance(ar, n as nat, tolerance).below(off)
            },
            Err(TheseusError::Solver(Complaint::ComparisonRank { residual, allowance })) => {
                &&& !residual.finite() || allowance.below(residual)
                &&& functional(ar) ==> residual == identity_error(ar, x, n as int)
                &&& functional(ar) ==> allowance == identity_allowance(
                    ar,
                    n as nat,
                    tolerance,
                )
            },
            Err(_) => false,
        }
    }
}

/// Judges from the recovered unit vectors whether the rank is full.
///
/// For full column rank, QR must recover every canonical coefficient vector from its exact
/// image.
pub fn check_identity<A: Arithmetic>(ar: &A, x: &Array2, n: usize, tolerance: Real) -> (r: Result<
    (),
    TheseusError,
>)
    ensures
        identity_outcome(*ar, x@, n, tolerance, r),
{
    let (rows, cols) = x.dim();
    if rows < n || cols < n {
        return Err(TheseusError::Shape(Complaint::BackendSize { found: rows, expected: n }));
    }
    let mut total = Real { bits: ZERO };
    for j in 0..n
        invariant
            n <= x@.rows,
            n <= x@.cols,
            functional(*ar) ==> total == identity_distance(*ar, x@, n as int, j - 1, n as int),
    {
        for i in 0..n
            invariant
                j < n,
                n <= x@.rows,
                n <= x@.cols,
                functional(*ar) ==> total == identity_distance(
                    *ar,
                    x@,
                    n as int,
                    j as int,
                    i as int,
                ),
        {
            let expected = if i == j {
                Real { bits: ONE }
            } else {
                Real { bits: ZERO }
            };
            let off = minus(ar, x.cell(i, j), expected);
            let square = times(ar, off, off);
            total = plus(ar, total, square);
        }
    }
    let residual = sqrt(ar, total);
    let part = times(ar, Real { bits: THOUSAND }, tolerance);
    let counted = count(
        ar,
        if n == 0 {
            1
        } else {
            n as u64
        },
    );
    let root = sqrt(ar, counted);
    let allowance = times(ar, part, root);
    if !residual.is_finite() || residual.gt(allowance) {
        return Err(TheseusError::Solver(Complaint::ComparisonRank { residual, allowance }));
    }
    Ok(())
}

/// The size of the gradient that coefficients leave in the least-squares problem.
pub open spec fn normal_residual<A: Arithmetic>(ar: A, system: EquilibriumSystem, x: Seq<Real>) -> Real {
    norm_of(ar, system.a@.transposed().applied(ar, residual_of(ar, system, x)))
}

/// The size of the gradient at which coefficients solve the least-squares problem.
pub open spec fn stationarity_allowance<A: Arithmetic>(
    ar: A,
    system: EquilibriumSystem,
    x: Seq<Real>,
    tolerance: Real,
) -> Real {
    product_of(
        ar,
        product_of(
            ar,
            product_of(ar, Real { bits: THOUSAND }, tolerance),
            norm_of(ar, system.a@.values).larger(Real { bits: ONE }),
        ),
        norm_of(ar, residual_of(ar, system, x)).larger(norm_of(ar, system.p@)).larger(
            Real { bits: ONE },
        ),
    )
}

/// Whether `r` tells that coefficients are finite and solve the least-squares problem, or
/// what is wrong with them.
pub open spec fn stationarity_outcome<A: Arithmetic>(
    ar: A,
    system: EquilibriumSystem,
    x: Seq<Real>,
    tolerance: Real,
    r: Result<(), TheseusError>,
) -> bool {
    if !all_finite(x) {
        r == Err::<(), _>(TheseusError::Solver(Complaint::ComparisonNotFinite))
    } else {
        match r {
            Ok(_) => functional(ar) ==> !stationarity_allowance(
                ar,
                system,
                x,
                tolerance,
            ).below(normal_residual(ar, system, x)),
            Err(
                TheseusError::Solver(
                    Complaint::ComparisonStationarity { residual, allowance },
                ),
            ) => {
                &&& allowance.below(residual)
                &&& functional(ar) ==> residual == normal_residual(ar, system, x)
                &&& functional(ar) ==> allowance == stationarity_allowance(
                    ar,
                    system,
                    x,
                    tolerance,
                )
            },
            Err(_) => false,
        }
    }
}

/// Judges whether coefficients solve the least-squares problem of the loads.
pub fn check_stationarity<A: Arithmetic>(
    ar: &A,
    system: &EquilibriumSystem,
    x: &Vec<Real>,
    tolerance: Real,
) -> (r: Result<(), TheseusError>)
    requires
        system.wf(),
        x@.len() == system.n_edges,
    ensures
        stationarity_outcome(*ar, *system, x@, tolerance, r),
{
    if first_not_finite(x).is_some() {
        return Err(TheseusError::Solver(Complaint::ComparisonNotFinite));
    }
    let image = system.a.matvec(ar, x);
    let load_residual = subtract(ar, &image, &system.p);
    let a_t = system.a.transpose();
    let gradient = a_t.matvec(ar, &load_residual);
    let residual = norm(ar, &gradient);
    let operator_norm = norm(ar, &system.a.values).max(Real { bits: ONE });
    let left = norm(ar, &load_residual);
    let loads = norm(ar, &system.p);
    let part = times(ar, Real { bits: THOUSAND }, tolerance);
    let wider = times(ar, part, operator_norm);
    let allowance = times(ar, wider, left.max(loads).max(Real { bits: ONE }));
    if residual.gt(allowance) {
        return Err(
            TheseusError::Solver(Complaint::ComparisonStationarity { residual, allowance }),
        );
    }
    Ok(())
}

/// Whether `r` can be the report of a comparison whose least-squares coefficients are
/// these.
pub open spec fn coefficients_outcome<A: Arithmetic, B: Backend>(
    ar: A,
    b: B,
    system: EquilibriumSystem,
    options: NullspaceOptions,
    coefficients: Result<Vec<Real>, TheseusError>,
    r: Result<NullspaceReport, TheseusError>,
) -> bool {
    let tolerance = options.tolerance.larger(Real { bits: DEFAULT_TOL });
    match coefficients {
        Err(e) => r == Err::<NullspaceReport, _>(e),
        Ok(x) => exists|verdict: Result<(), TheseusError>|
            {
                &&& #[trigger] stationarity_outcome(ar, system, x@, tolerance, verdict)
                &&& match verdict {
                    Err(e) => r == Err::<NullspaceReport, _>(e),
                    Ok(_) => functional(ar) ==> left_outcome(
                        ar,
                        b,
                        system,
                        options,
                        system.n_edges as nat,
                        0,
                        (system.n_eq - system.n_edges) as nat,
                        Seq::empty(),
                        tolerance,
                        r,
                    ),
                }
            },
    }
}

/// Whether `r` can be the report of a comparison whose factorization recovers the unit
/// vectors as this: with it the loads are solved for.
pub open spec fn units_outcome<A: Arithmetic, B: Backend>(
    ar: A,
    b: B,
    system: EquilibriumSystem,
    options: NullspaceOptions,
    symbolic: B::Symbolic,
    factor: QrFactor,
    units: Result<Array2, TheseusError>,
    r: Result<NullspaceReport, TheseusError>,
) -> bool {
    let tolerance = options.tolerance.larger(Real { bits: DEFAULT_TOL });
    match units {
        Err(e) => r == Err::<NullspaceReport, _>(e),
        Ok(x) => exists|verdict: Result<(), TheseusError>|
            {
                &&& #[trigger] identity_outcome(ar, x@, system.n_edges, tolerance, verdict)
                &&& match verdict {
                    Err(e) => r == Err::<NullspaceReport, _>(e),
                    Ok(_) => loads_outcome(ar, b, system, options, symbolic, factor, r),
                }
            },
    }
}

/// Whether `r` can be the report of a comparison whose factorization solves for the loads.
pub open spec fn loads_outcome<A: Arithmetic, B: Backend>(
    ar: A,
    b: B,
    system: EquilibriumSystem,
    options: NullspaceOptions,
    symbolic: B::Symbolic,
    factor: QrFactor,
    r: Result<NullspaceReport, TheseusError>,
) -> bool {
    exists|
        rhs: Array2,
        reply: Result<Array2, TheseusError>,
        coefficients: Result<Vec<Real>, TheseusError>,
    |
        {
            &&& rhs@ == single_column(system.p@)
            &&& #[trigger] call_ensures(B::solve_qr, (&b, &symbolic, &factor, &rhs), reply)
            &&& #[trigger] head_answer(reply, system.n_edges as nat, coefficients)
            &&& coefficients_outcome(ar, b, system, options, coefficients, r)
        }
}

/// Whether `r` can be the report of a comparison with this factorization: first it has to
/// recover the unit vectors from the columns of the matrix.
pub open spec fn factored_outcome<A: Arithmetic, B: Backend>(
    ar: A,
    b: B,
    system: EquilibriumSystem,
    options: NullspaceOptions,
    symbolic: B::Symbolic,
    factor: QrFactor,
    r: Result<NullspaceReport, TheseusError>,
) -> bool {
    exists|images: Array2, units: Result<Array2, TheseusError>|
        {
            &&& images@ == dense_upto(system.a@, system.a@.nnz() as int)
            &&& #[trigger] call_ensures(B::solve_qr, (&b, &symbolic, &factor, &images), units)
            &&& units_outcome(ar, b, system, options, symbolic, factor, units, r)
        }
}

/// Whether `r` can be the report of a comparison with this symbolic factorization.
pub open spec fn analyzed_outcome<A: Arithmetic, B: Backend>(
    ar: A,
    b: B,
    system: EquilibriumSystem,
    options: NullspaceOptions,
    symbolic: B::Symbolic,
    r: Result<NullspaceReport, TheseusError>,
) -> bool {
    exists|reply: Result<QrFactor, TheseusError>|
        {
            &&& #[trigger] call_ensures(B::factor_qr, (&b, &symbolic, &system.a), reply)
            &&& match reply {
                Err(e) => r == Err::<NullspaceReport, _>(e),
                Ok(factor) => factored_outcome(ar, b, system, options, symbolic, factor, r),
            }
        }
}

/// Whether `r` can be the report of a comparison by sparse QR.
pub open spec fn comparison_outcome<A: Arithmetic, B: Backend>(
    ar: A,
    b: B,
    system: EquilibriumSystem,
    options: NullspaceOptions,
    r: Result<NullspaceReport, TheseusError>,
) -> bool {
    if system.n_eq < system.n_edges {
        r == Err::<NullspaceReport, _>(
            TheseusError::Solver(
                Complaint::ComparisonWide { rows: system.n_eq, cols: system.n_edges },
            ),
        )
    } else {
        exists|reply: Result<B::Symbolic, TheseusError>|
            {
                &&& #[trigger] call_ensures(B::analyze_qr, (&b, &system.a, false), reply)
                &&& match reply {
                    Err(e) => r == Err::<NullspaceReport, _>(e),
                    Ok(symbolic) => analyzed_outcome(ar, b, system, options, symbolic, r),
                }
            }
    }
}

/// Analyze a tall, numerically full-column-rank matrix with sparse QR.
///
/// This comparison path deliberately does not infer rank from raw `R`
/// diagonals. It validates the numeric factorization by solving `A X = A`
/// and requiring `X ~= I`, then validates the load least-squares stationarity.
/// Rank-deficient or wide systems return a precise unsupported error.
pub fn analyze_sparse_qr<A: Arithmetic, B: Backend>(
    ar: &A,
    b: &B,
    system: &EquilibriumSystem,
    options: &NullspaceOptions,
) -> (r: Result<NullspaceReport, TheseusError>)
    requires
        analyzable(*system),
    ensures
        r matches Ok(rep) ==> balanced(rep, *system),
        r matches Ok(rep) ==> {
            &&& sound_report(rep, *system, *options)
            &&& rep.rank == system.n_edges
            &&& rep.s == 0
            &&& rep.m_raw == system.n_eq - system.n_edges
            &&& rep.self_stress@.cols == 0
        },
        comparison_outcome(*ar, *b, *system, *options, r),
{
    let a = &system.a;
    if a.nrows < a.ncols {
        return Err(
            TheseusError::Solver(Complaint::ComparisonWide { rows: a.nrows, cols: a.ncols }),
        );
    }
    let analyzed = b.analyze_qr(a, false);
    assert(call_ensures(B::analyze_qr, (b, &system.a, false), analyzed));
    let symbolic = match analyzed {
        Ok(s) => s,
        Err(e) => {
            return Err(e);
        },
    };
    let factored = b.factor_qr(&symbolic, a);
    assert(call_ensures(B::factor_qr, (b, &symbolic, &system.a), factored));
    let factor = match factored {
        Ok(f) => f,
        Err(e) => {
            return Err(e);
        },
    };
    let tolerance = options.tolerance.max(Real { bits: DEFAULT_TOL });
    let images = densify(a);
    let units = match b.solve_qr(&symbolic, &factor, &images) {
        Ok(x) => x,
        Err(e) => {
            return Err(e);
        },
    };
    match check_identity(ar, &units, a.ncols, tolerance) {
        Ok(_) => {},
        Err(e) => {
            return Err(e);
        },
    }
    let load_rhs = to_column(&system.p);
    let reply = b.solve_qr(&symbolic, &factor, &load_rhs);
    let coefficients = match head_part(reply, a.ncols) {
        Ok(x) => x,
        Err(e) => {
            return Err(e);
        },
    };
    match check_stationarity(ar, system, &coefficients, tolerance) {
        Ok(_) => {},
        Err(e) => {
            return Err(e);
        },
    }
    let m_raw: usize = a.nrows - a.ncols;
    let raw_left = match projected_panel(
        ar,
        b,
        a,
        true,
        m_raw,
        m_raw,
        tolerance,
        options.lsqr_max_iterations,
    ) {
        Ok(cols) => cols,
        Err(e) => {
            return Err(e);
        },
    };
    let none: Vec<Vec<Real>> = Vec::new();
    assert(columns_of(none@) =~= Seq::<Seq<Real>>::empty());
    let r = finish(
        ar,
        system,
        options,
        a.ncols,
        0,
        m_raw,
        &none,
        &raw_left,
        tolerance,
        tolerance,
    );
    proof {
        if r is Ok {
            assert(analysis(
                r->Ok_0,
                *ar,
                *system,
                *options,
                system.n_edges as nat,
                0,
                (system.n_eq - system.n_edges) as nat,
                Seq::empty(),
                columns_of(raw_left@),
                tolerance,
                tolerance,
            ));
        }
    }
    r
}

/// Whether `r` can be the report by the method that is asked for.
pub open spec fn analysis_outcome<A: Arithmetic, B: Backend>(
    ar: A,
    b: B,
    system: EquilibriumSystem,
    options: NullspaceOptions,
    r: Result<NullspaceReport, TheseusError>,
) -> bool {
    match options.method {
        NullspaceMethod::Projector => functional(ar) ==> projector_outcome(
            ar,
            b,
            system,
            options,
            r,
        ),
        NullspaceMethod::Svd => dense_outcome(ar, b, system, options, r),
        NullspaceMethod::SparseQr => comparison_outcome(ar, b, system, options, r),
    }
}

/// Dispatch null-space analysis. Sparse QR remains comparison-only.
pub fn analyze<A: Arithmetic, B: Backend>(
    ar: &A,
    b: &B,
    system: &EquilibriumSystem,
    options: &NullspaceOptions,
) -> (r: Result<NullspaceReport, TheseusError>)
    requires
        analyzable(*system),
    ensures
        r matches Ok(rep) ==> balanced(rep, *system),
        r matches Ok(rep) ==> sound_report(rep, *system, *options),
        analysis_outcome(*ar, *b, *system, *options, r),
{
    match options.method {
        NullspaceMethod::Projector => analyze_projector(ar, b, system, options),
        NullspaceMethod::Svd => analyze_dense_svd(ar, b, system, options),
        NullspaceMethod::SparseQr => analyze_sparse_qr(ar, b, system, options),
    }
}

/// Capping the number of modes changes none of the counts.
pub proof fn capping_modes_keeps_the_counts<A: Arithmetic, B: Backend>(
    ar: A,
    b: B,
    system: EquilibriumSystem,
    options: NullspaceOptions,
    max_modes: usize,
    rep: NullspaceReport,
    capped: NullspaceReport,
)
    requires
        functional(ar),
        projector_outcome(ar, b, system, options, Ok(rep)),
        projector_outcome(
            ar,
            b,
            system,
            (NullspaceOptions { max_modes, ..options }),
            Ok(capped),
        ),
    ensures
        capped.rank == rep.rank,
        capped.s == rep.s,
        capped.m_raw == rep.m_raw,
        capped.m == rep.m,
        capped.n_rigid == rep.n_rigid,
        capped.particular_t@ == rep.particular_t@,
        capped.residual_r@ == rep.residual_r@,
        capped.residual_ratio == rep.residual_ratio,
{
}

/// Capping the number of modes changes none of the counts that one decomposition leads to.
pub proof fn capping_modes_keeps_the_counts_of_a_decomposition<A: Arithmetic>(
    ar: A,
    system: EquilibriumSystem,
    options: NullspaceOptions,
    max_modes: usize,
    svd: crate::backend::Svd,
    rep: NullspaceReport,
    capped: NullspaceReport,
)
    requires
        functional(ar),
        svd_answer(ar, system, options, svd, Ok(rep)),
        svd_answer(
            ar,
            system,
            (NullspaceOptions { max_modes, ..options }),
            svd,
            Ok(capped),
        ),
    ensures
        capped.rank == rep.rank,
        capped.s == rep.s,
        capped.m_raw == rep.m_raw,
        capped.m == rep.m,
        capped.n_rigid == rep.n_rigid,
{
}

} // verus!
