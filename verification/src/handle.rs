//! What callers from outside ask of a problem, in codes, counts and flat lists.

use crate::arithmetic::{functional, plus, product_of, sum_of, times, Arithmetic};
use crate::array::{fits, Array2, Grid};
use crate::backend::Backend;
use crate::bounds::sound;
use crate::double::{Real, ZERO};
use crate::equilibrium::{
    assembly_outcome, describes, reaction_axes, undescribed, EquilibriumSystem, EquilibriumUnknown,
};
use crate::error::{Buffer, Complaint, TheseusError};
use crate::geometry::InverseFdmResult;
use crate::inverse::{box_is_entered, inverse_outcome, solve_inverse_fdm};
use crate::nullspace::{
    analysis_outcome, analyzable, analyze, balanced, sound_report, NullspaceMethod,
    NullspaceOptions, NullspaceReport,
};
use crate::options::{
    linear_algebra_of, metric_of, particular_method_of, InverseFdmOptions, InverseMetric,
    LinearAlgebra, ParticularMethod, DEFAULT_MAX_OUTER, DEFAULT_TOLERANCE,
};
use crate::prestress::{
    classification_outcome, classify_prestress_stability, MechanismClass, PrestressClassification,
};
use crate::types::Problem;
use vstd::prelude::*;
use vstd::string::StringSliceAdditionalSpecFns;

verus! {

/// What a text comes to in a buffer of limited length.
#[derive(Debug)]
pub struct TextCopy {
    /// The number of bytes without the end mark, zero where there is no text, or minus one
    /// where the buffer is too short.
    pub code: i32,
    /// What goes into the buffer: the bytes and the end mark.
    pub bytes: Vec<u8>,
}

/// Keeps a message for later.
pub fn set_last_error(slot: &mut String, msg: &str)
    ensures
        final(slot)@ == msg@,
{
    *slot = msg.to_owned();
}

/// Whether `r` is what a text of these bytes comes to in a buffer of this length.
pub open spec fn copied(bytes: Seq<u8>, buf_len: nat, r: TextCopy) -> bool {
    if buf_len < bytes.len() + 1 {
        r.code == -1 && r.bytes@.len() == 0
    } else {
        r.code == bytes.len() as i32 && r.bytes@ == bytes.push(0u8)
    }
}

/// The bytes of a text with an end mark, if the buffer is long enough.
pub fn copy_text(text: &str, buf_len: usize) -> (r: TextCopy)
    ensures
        copied(text.spec_bytes(), buf_len as nat, r),
{
    let bytes = text.as_bytes();
    let n: usize = bytes.len();
    if n >= buf_len {
        return TextCopy { code: -1, bytes: Vec::new() };
    }
    let mut out: Vec<u8> = Vec::new();
    for i in 0..n
        invariant
            n == bytes@.len(),
            out@ == bytes@.subrange(0, i as int),
    {
        out.push(bytes[i]);
        assert(out@ =~= bytes@.subrange(0, i as int + 1));
    }
    out.push(0);
    assert(bytes@.subrange(0, n as int) =~= bytes@);
    TextCopy { code: n as i32, bytes: out }
}

/// The last message, or nothing where there is none.
pub fn last_error(message: &str, buf_len: usize) -> (r: TextCopy)
    ensures
        if message@.len() == 0 {
            r.code == 0 && r.bytes@.len() == 0
        } else {
            copied(message.spec_bytes(), buf_len as nat, r)
        },
{
    if message.is_empty() {
        return TextCopy { code: 0, bytes: Vec::new() };
    }
    copy_text(message, buf_len)
}

/// How often progress is reported: always, if no other frequency is given.
pub fn report_frequency(frequency: usize) -> (r: usize)
    ensures
        r == if frequency == 0 {
            1
        } else {
            frequency
        },
{
    if frequency == 0 {
        1
    } else {
        frequency
    }
}

/// The first values of a trace, as many as a buffer holds.
pub fn copy_trace(trace: &Vec<Real>, out_len: usize) -> (r: Vec<Real>)
    ensures
        r@ == trace@.subrange(
            0,
            if trace@.len() <= out_len {
                trace@.len() as int
            } else {
                out_len as int
            },
        ),
{
    let n: usize = if trace.len() <= out_len {
        trace.len()
    } else {
        out_len
    };
    crate::vector::slice(trace, 0, n)
}

/// The options of a rigidity analysis, from the code of its method.
pub open spec fn rigidity_options_of(method: i32, rigid: i32, max_modes: usize) -> Result<
    NullspaceOptions,
    TheseusError,
> {
    if 0 <= method <= 2 {
        Ok(
            NullspaceOptions {
                method: if method == 0 {
                    NullspaceMethod::Projector
                } else if method == 1 {
                    NullspaceMethod::Svd
                } else {
                    NullspaceMethod::SparseQr
                },
                max_modes,
                include_rigid_bodies: rigid != 0,
                tolerance: Real { bits: crate::basis::DEFAULT_TOL },
                lsqr_max_iterations: 0,
            },
        )
    } else {
        Err(TheseusError::Shape(Complaint::UnknownRigidityMethod(method)))
    }
}

/// The options of a rigidity analysis, from the code of its method.
pub fn rigidity_options(method: i32, include_rigid_bodies: i32, max_modes: usize) -> (r: Result<
    NullspaceOptions,
    TheseusError,
>)
    ensures
        r == rigidity_options_of(method, include_rigid_bodies, max_modes),
{
    let method = match method {
        0 => NullspaceMethod::Projector,
        1 => NullspaceMethod::Svd,
        2 => NullspaceMethod::SparseQr,
        other => {
            return Err(TheseusError::Shape(Complaint::UnknownRigidityMethod(other)));
        },
    };
    let defaults = NullspaceOptions::default();
    Ok(
        NullspaceOptions {
            method,
            max_modes,
            include_rigid_bodies: include_rigid_bodies != 0,
            tolerance: defaults.tolerance,
            lsqr_max_iterations: defaults.lsqr_max_iterations,
        },
    )
}

/// Whether the dense arrays of an analysis can be addressed.
pub fn is_analyzable(system: &EquilibriumSystem) -> (r: bool)
    requires
        system.wf(),
    ensures
        r == analyzable(*system),
{
    Array2::fits(system.n_eq, system.n_eq) && Array2::fits(system.n_edges, system.n_edges)
        && Array2::fits(system.n_eq, system.n_edges) && Array2::fits(system.n_eq, 6)
        && Array2::fits(system.n_edges, 1) && Array2::fits(system.n_eq, 1)
}

/// Whether `r` can be the report on a system, by the options that are asked for.
pub open spec fn request_outcome<A: Arithmetic, B: Backend>(
    ar: A,
    b: B,
    system: EquilibriumSystem,
    asked: Result<NullspaceOptions, TheseusError>,
    r: Result<NullspaceReport, TheseusError>,
) -> bool {
    match asked {
        Err(e) => r == Err::<NullspaceReport, _>(e),
        Ok(options) => if !analyzable(system) {
            r == Err::<NullspaceReport, _>(TheseusError::Shape(Complaint::TooLarge))
        } else {
            &&& analysis_outcome(ar, b, system, options, r)
            &&& r matches Ok(rep) ==> sound_report(rep, system, options) && balanced(rep, system)
        },
    }
}

/// Analyzes the rigidity of a problem at target positions.
pub fn rigidity_report<A: Arithmetic, B: Backend>(
    ar: &A,
    b: &B,
    problem: &Problem,
    target_free_xyz: &Array2,
    method: i32,
    include_rigid_bodies: i32,
    max_modes: usize,
) -> (r: Result<NullspaceReport, TheseusError>)
    requires
        problem.wf(),
    ensures
        r is Err && undescribed(r->Err_0, *ar, *problem, target_free_xyz@, Seq::empty())
            || exists|system: EquilibriumSystem|
            {
                &&& #[trigger] describes(
                    system,
                    *ar,
                    *problem,
                    target_free_xyz@,
                    EquilibriumUnknown::Force,
                    Seq::empty(),
                )
                &&& request_outcome(
                    *ar,
                    *b,
                    system,
                    rigidity_options_of(method, include_rigid_bodies, max_modes),
                    r,
                )
            },
{
    let system = match EquilibriumSystem::force(
        ar,
        problem,
        target_free_xyz,
        false,
        false,
        false,
    ) {
        Ok(s) => s,
        Err(e) => {
            return Err(e);
        },
    };
    let options = match rigidity_options(method, include_rigid_bodies, max_modes) {
        Ok(o) => o,
        Err(e) => {
            return Err(e);
        },
    };
    if !is_analyzable(&system) {
        return Err(TheseusError::Shape(Complaint::TooLarge));
    }
    analyze(ar, b, &system, &options)
}

/// The counts of a report and the lengths of its flat parts.
#[derive(Debug, Clone, Copy, PartialEq, Eq, Structural)]
pub struct ReportSizes {
    pub rank: usize,
    pub self_stress_count: usize,
    pub mechanism_raw_count: usize,
    pub mechanism_count: usize,
    pub rigid_count: usize,
    pub particular_len: usize,
    pub residual_len: usize,
    pub self_stress_len: usize,
    pub mechanism_len: usize,
    pub rigid_len: usize,
}

/// The counts of a report and the lengths of its flat parts.
pub open spec fn sizes_of(rep: NullspaceReport) -> ReportSizes {
    ReportSizes {
        rank: rep.rank,
        self_stress_count: rep.s,
        mechanism_raw_count: rep.m_raw,
        mechanism_count: rep.m,
        rigid_count: rep.n_rigid,
        particular_len: rep.particular_t@.flat().len() as usize,
        residual_len: rep.residual_r@.len() as usize,
        self_stress_len: rep.self_stress@.flat().len() as usize,
        mechanism_len: rep.mechanisms@.flat().len() as usize,
        rigid_len: rep.rigid_bodies@.flat().len() as usize,
    }
}

/// The counts of a report and the lengths of its flat parts.
pub fn report_sizes(rep: &NullspaceReport) -> (r: ReportSizes)
    ensures
        r == sizes_of(*rep),
{
    ReportSizes {
        rank: rep.rank,
        self_stress_count: rep.s,
        mechanism_raw_count: rep.m_raw,
        mechanism_count: rep.m,
        rigid_count: rep.n_rigid,
        particular_len: rep.particular_t.len(),
        residual_len: rep.residual_r.len(),
        self_stress_len: rep.self_stress.len(),
        mechanism_len: rep.mechanisms.len(),
        rigid_len: rep.rigid_bodies.len(),
    }
}

/// A part of a report, row by row.
pub open spec fn part_of(rep: NullspaceReport, buffer: Buffer) -> Seq<Real> {
    match buffer {
        Buffer::ParticularForce => rep.particular_t@.flat(),
        Buffer::Residual => rep.residual_r@,
        Buffer::SelfStress => rep.self_stress@.flat(),
        Buffer::Mechanism => rep.mechanisms@.flat(),
        Buffer::RigidBody => rep.rigid_bodies@.flat(),
    }
}

/// The length that is told of a part of a report.
pub open spec fn told_length(sizes: ReportSizes, buffer: Buffer) -> usize {
    match buffer {
        Buffer::ParticularForce => sizes.particular_len,
        Buffer::Residual => sizes.residual_len,
        Buffer::SelfStress => sizes.self_stress_len,
        Buffer::Mechanism => sizes.mechanism_len,
        Buffer::RigidBody => sizes.rigid_len,
    }
}

/// Whether `r` holds a part of a report, or tells that the buffer for it does not have its
/// length.
pub open spec fn part_outcome(
    rep: NullspaceReport,
    buffer: Buffer,
    length: usize,
    r: Result<Vec<Real>, TheseusError>,
) -> bool {
    let expected = told_length(sizes_of(rep), buffer);
    if length == expected {
        r matches Ok(values) && values@ == part_of(rep, buffer) && values@.len() == length
    } else {
        r == Err::<Vec<Real>, _>(
            TheseusError::Shape(Complaint::BufferLength { buffer, found: length, expected }),
        )
    }
}

/// Takes the report that sizes were asked for; it can be taken once.
pub fn take_report(pending: &mut Option<NullspaceReport>) -> (r: Result<
    NullspaceReport,
    TheseusError,
>)
    ensures
        *final(pending) is None,
        match *old(pending) {
            Some(rep) => r == Ok::<NullspaceReport, TheseusError>(rep),
            None => r == Err::<NullspaceReport, _>(
                TheseusError::Solver(Complaint::NoPendingReport),
            ),
        },
{
    match pending.take() {
        Some(rep) => Ok(rep),
        None => Err(TheseusError::Solver(Complaint::NoPendingReport)),
    }
}

/// A part of a report, row by row, if the buffer for it has its length.
pub fn fill_part(rep: &NullspaceReport, buffer: Buffer, length: usize) -> (r: Result<
    Vec<Real>,
    TheseusError,
>)
    ensures
        part_outcome(*rep, buffer, length, r),
{
    let values = match buffer {
        Buffer::ParticularForce => rep.particular_t.to_flat(),
        Buffer::Residual => rep.residual_r.clone(),
        Buffer::SelfStress => rep.self_stress.to_flat(),
        Buffer::Mechanism => rep.mechanisms.to_flat(),
        Buffer::RigidBody => rep.rigid_bodies.to_flat(),
    };
    let expected: usize = values.len();
    if length != expected {
        return Err(
            TheseusError::Shape(Complaint::BufferLength { buffer, found: length, expected }),
        );
    }
    Ok(values)
}

/// A buffer of the size that was told of a part is filled.
pub proof fn reported_sizes_are_accepted(
    rep: NullspaceReport,
    buffer: Buffer,
    r: Result<Vec<Real>, TheseusError>,
)
    requires
        part_outcome(rep, buffer, told_length(sizes_of(rep), buffer), r),
    ensures
        r matches Ok(values) && values@ == part_of(rep, buffer),
{
}

/// The code of a class.
pub open spec fn class_code_of(class: MechanismClass) -> int {
    match class {
        MechanismClass::PrestressStable => 1int,
        MechanismClass::FiniteCandidate => 0int,
        MechanismClass::PrestressUnstable => -1int,
    }
}

/// The code of a class.
pub fn class_code(class: MechanismClass) -> (r: i32)
    ensures
        r == class_code_of(class),
{
    match class {
        MechanismClass::PrestressStable => 1,
        MechanismClass::FiniteCandidate => 0,
        MechanismClass::PrestressUnstable => -1,
    }
}

/// Row `row` of a basis times column `mode` of the vectors, over the first `k` modes.
pub open spec fn rotated_upto<A: Arithmetic>(
    ar: A,
    basis: Grid,
    vectors: Grid,
    row: int,
    mode: int,
    k: int,
) -> Real
    decreases k,
{
    if k <= 0 {
        Real { bits: ZERO }
    } else {
        sum_of(
            ar,
            rotated_upto(ar, basis, vectors, row, mode, k - 1),
            product_of(ar, basis.at(row, k - 1), vectors.at(k - 1, mode)),
        )
    }
}

/// A basis in the coordinates of its eigenvectors, row by row.
pub fn rotate_modes<A: Arithmetic>(ar: &A, basis: &Array2, vectors: &Array2) -> (r: Vec<Real>)
    requires
        vectors@.rows == basis@.cols,
        vectors@.cols == basis@.cols,
    ensures
        r@.len() == basis@.rows * basis@.cols,
        functional(*ar) ==> r@ == Grid::generated(
            basis@.rows,
            basis@.cols,
            |i: int, j: int| rotated_upto(*ar, basis@, vectors@, i, j, basis@.cols as int),
        ).flat(),
{
    let (rows, modes) = basis.dim();
    let ghost goal = Grid::generated(
        basis@.rows,
        basis@.cols,
        |i: int, j: int| rotated_upto(*ar, basis@, vectors@, i, j, basis@.cols as int),
    );
    let mut r: Vec<Real> = Vec::new();
    assert(0 * (modes as int) == 0) by (nonlinear_arith);
    for row in 0..rows
        invariant
            rows == basis@.rows,
            modes == basis@.cols,
            vectors@.rows == modes,
            vectors@.cols == modes,
            goal == Grid::generated(
                basis@.rows,
                basis@.cols,
                |i: int, j: int| rotated_upto(*ar, basis@, vectors@, i, j, basis@.cols as int),
            ),
            r@.len() == row * modes,
            functional(*ar) ==> forall|k: int|
                0 <= k < r@.len() ==> #[trigger] r@[k] == goal.flat()[k],
    {
        for mode in 0..modes
            invariant
                row < rows,
                rows == basis@.rows,
                modes == basis@.cols,
                vectors@.rows == modes,
                vectors@.cols == modes,
                goal == Grid::generated(
                    basis@.rows,
                    basis@.cols,
                    |i: int, j: int| rotated_upto(*ar, basis@, vectors@, i, j, basis@.cols as int),
                ),
                r@.len() == row * modes + mode,
                functional(*ar) ==> forall|k: int|
                    0 <= k < r@.len() ==> #[trigger] r@[k] == goal.flat()[k],
        {
            let mut value = Real { bits: ZERO };
            for source in 0..modes
                invariant
                    row < rows,
                    mode < modes,
                    rows == basis@.rows,
                    modes == basis@.cols,
                    vectors@.rows == modes,
                    vectors@.cols == modes,
                    functional(*ar) ==> value == rotated_upto(
                        *ar,
                        basis@,
                        vectors@,
                        row as int,
                        mode as int,
                        source as int,
                    ),
            {
                let term = times(ar, basis.cell(row, source), vectors.cell(source, mode));
                value = plus(ar, value, term);
            }
            proof {
                vstd::arithmetic::div_mod::lemma_fundamental_div_mod_converse(
                    row * modes + mode,
                    modes as int,
                    row as int,
                    mode as int,
                );
                assert(0 <= row * modes + mode < rows * modes) by (nonlinear_arith)
                    requires
                        0 <= row < rows,
                        0 <= mode < modes,
                ;
            }
            r.push(value);
        }
        assert(row * modes + modes == (row + 1) * modes) by (nonlinear_arith);
    }
    proof {
        if functional(*ar) {
            assert(r@ =~= goal.flat());
        }
    }
    r
}

/// Modes with their stiffness and the codes of their classes.
#[derive(Debug)]
pub struct ModeReport {
    pub eigenvalues: Vec<Real>,
    pub classes: Vec<i32>,
    /// The modes in the coordinates of the eigenvectors, row by row.
    pub rotated: Vec<Real>,
}

/// Whether a report tells of a classification.
pub open spec fn modes_reported<A: Arithmetic>(
    ar: A,
    basis: Grid,
    c: PrestressClassification,
    m: ModeReport,
) -> bool {
    &&& m.eigenvalues == c.eigenvalues
    &&& m.classes@.len() == c.classes@.len()
    &&& forall|i: int|
        0 <= i < m.classes@.len() ==> #[trigger] m.classes@[i] == class_code_of(c.classes@[i])
    &&& m.rotated@.len() == basis.rows * basis.cols
    &&& functional(ar) ==> m.rotated@ == Grid::generated(
        basis.rows,
        basis.cols,
        |i: int, j: int| rotated_upto(ar, basis, c.eigenvectors@, i, j, basis.cols as int),
    ).flat()
}

/// Whether `r` can be the report on mechanisms of a system.
pub open spec fn modes_of_system<A: Arithmetic>(
    ar: A,
    problem: Problem,
    system: EquilibriumSystem,
    t: Seq<Real>,
    basis: Grid,
    tolerance: Real,
    r: Result<ModeReport, TheseusError>,
) -> bool {
    exists|c: Result<PrestressClassification, TheseusError>|
        {
            &&& #[trigger] classification_outcome(ar, problem, system, t, basis, tolerance, c)
            &&& match c {
                Err(e) => r == Err::<ModeReport, _>(e),
                Ok(found) => r matches Ok(m) && modes_reported(ar, basis, found, m),
            }
        }
}

/// Classifies mechanisms at a target geometry by their stiffness under prestress.
pub fn classify_modes<A: Arithmetic>(
    ar: &A,
    problem: &Problem,
    target_free_xyz: &Array2,
    prestress_t: &Vec<Real>,
    mechanisms: &Array2,
    tolerance: Real,
) -> (r: Result<ModeReport, TheseusError>)
    requires
        problem.wf(),
        fits(mechanisms@.cols, mechanisms@.cols),
    ensures
        exists|system: Result<EquilibriumSystem, TheseusError>|
            {
                &&& #[trigger] assembly_outcome(
                    *ar,
                    *problem,
                    target_free_xyz@,
                    EquilibriumUnknown::Force,
                    Seq::empty(),
                    system,
                )
                &&& match system {
                    Err(e) => r == Err::<ModeReport, _>(e),
                    Ok(s) => modes_of_system(
                        *ar,
                        *problem,
                        s,
                        prestress_t@,
                        mechanisms@,
                        tolerance,
                        r,
                    ),
                }
            },
{
    let assembled = EquilibriumSystem::force(ar, problem, target_free_xyz, false, false, false);
    let ghost given = assembled;
    assert(assembly_outcome(
        *ar,
        *problem,
        target_free_xyz@,
        EquilibriumUnknown::Force,
        Seq::empty(),
        given,
    ));
    let system = match assembled {
        Ok(s) => s,
        Err(e) => {
            return Err(e);
        },
    };
    let classified = classify_prestress_stability(
        ar,
        problem,
        &system,
        prestress_t,
        mechanisms,
        tolerance,
    );
    let ghost reply = classified;
    assert(classification_outcome(
        *ar,
        *problem,
        system,
        prestress_t@,
        mechanisms@,
        tolerance,
        reply,
    ));
    let found = match classified {
        Ok(c) => c,
        Err(e) => {
            return Err(e);
        },
    };
    let ghost kept = found;
    let mut classes: Vec<i32> = Vec::new();
    for i in 0..found.classes.len()
        invariant
            classes@.len() == i,
            forall|k: int|
                0 <= k < i ==> #[trigger] classes@[k] == class_code_of(found.classes@[k]),
    {
        classes.push(class_code(found.classes[i]));
    }
    let rotated = rotate_modes(ar, mechanisms, &found.eigenvectors);
    let m = ModeReport { eigenvalues: found.eigenvalues, classes, rotated };
    let r: Result<ModeReport, TheseusError> = Ok(m);
    assert(modes_reported(*ar, mechanisms@, kept, r->Ok_0));
    r
}

/// An inverse solve as codes and flat lists.
#[derive(Debug)]
pub struct InverseRequest {
    pub regularization: Real,
    pub use_l2: i32,
    pub max_l1_iter: usize,
    pub particular_method: i32,
    pub linear_algebra: i32,
    pub enforce_zero_rx: i32,
    pub enforce_zero_ry: i32,
    pub enforce_zero_rz: i32,
    pub solve_for_q: i32,
    pub signs: Vec<i32>,
    pub lower: Vec<Real>,
    pub upper: Vec<Real>,
    pub max_iter: usize,
    pub tol: Real,
    pub metric: i32,
    /// Reference force densities; none of them means the current ones.
    pub q_ref: Vec<Real>,
    /// Zero means the default.
    pub max_outer: usize,
}

/// Whether the options are those that a request asks for, at the given force densities.
pub open spec fn options_requested(
    q: InverseRequest,
    current: Seq<Real>,
    o: InverseFdmOptions,
) -> bool {
    &&& o.regularization == q.regularization
    &&& o.use_l2 == (q.use_l2 != 0)
    &&& o.max_l1_iter == q.max_l1_iter
    &&& particular_method_of(q.particular_method) == Ok::<_, TheseusError>(o.particular_method)
    &&& linear_algebra_of(q.linear_algebra) == Ok::<_, TheseusError>(o.linear_algebra)
    &&& o.enforce_zero_rx == (q.enforce_zero_rx != 0)
    &&& o.enforce_zero_ry == (q.enforce_zero_ry != 0)
    &&& o.enforce_zero_rz == (q.enforce_zero_rz != 0)
    &&& o.solve_for_q == (q.solve_for_q != 0)
    &&& o.signs@ == q.signs@
    &&& o.lower@ == q.lower@
    &&& o.upper@ == q.upper@
    &&& o.max_iter == q.max_iter
    &&& o.tol == q.tol
    &&& metric_of(q.metric) == Ok::<_, TheseusError>(o.metric)
    &&& o.q_ref@ == if o.metric == InverseMetric::Force {
        Seq::empty()
    } else if q.q_ref@.len() == 0 {
        current
    } else {
        q.q_ref@
    }
    &&& o.max_frozen_outer == 0
    &&& o.max_outer == if q.max_outer == 0 {
        DEFAULT_MAX_OUTER
    } else {
        q.max_outer
    }
    &&& o.cwls_damping.bits == DEFAULT_TOLERANCE
}

/// Whether a request is refused, and why.
pub open spec fn request_refusal(q: InverseRequest, num_edges: usize) -> Option<TheseusError> {
    match (
        particular_method_of(q.particular_method),
        linear_algebra_of(q.linear_algebra),
        metric_of(q.metric),
    ) {
        (Err(e), _, _) => Some(e),
        (_, Err(e), _) => Some(e),
        (_, _, Err(e)) => Some(e),
        (Ok(_), Ok(_), Ok(metric)) => if metric != InverseMetric::Force && q.q_ref@.len() != 0
            && q.q_ref@.len() != num_edges {
            Some(
                TheseusError::Shape(
                    Complaint::ReferenceCount {
                        found: q.q_ref@.len() as usize,
                        expected: num_edges,
                    },
                ),
            )
        } else {
            None
        },
    }
}

/// The options that a request asks for, at the given force densities.
pub fn inverse_options(request: InverseRequest, current: &Vec<Real>, num_edges: usize) -> (r: Result<
    InverseFdmOptions,
    TheseusError,
>)
    ensures
        match request_refusal(request, num_edges) {
            Some(e) => r == Err::<InverseFdmOptions, _>(e),
            None => r matches Ok(o) && options_requested(request, current@, o),
        },
{
    let particular_method = match ParticularMethod::try_from(request.particular_method) {
        Ok(m) => m,
        Err(e) => {
            return Err(e);
        },
    };
    let linear_algebra = match LinearAlgebra::try_from(request.linear_algebra) {
        Ok(a) => a,
        Err(e) => {
            return Err(e);
        },
    };
    let metric = match InverseMetric::try_from(request.metric) {
        Ok(m) => m,
        Err(e) => {
            return Err(e);
        },
    };
    let q_ref = if metric.is_geometric() {
        if request.q_ref.len() == 0 {
            current.clone()
        } else {
            if request.q_ref.len() != num_edges {
                return Err(
                    TheseusError::Shape(
                        Complaint::ReferenceCount {
                            found: request.q_ref.len(),
                            expected: num_edges,
                        },
                    ),
                );
            }
            request.q_ref
        }
    } else {
        Vec::new()
    };
    let o = InverseFdmOptions {
        regularization: request.regularization,
        use_l2: request.use_l2 != 0,
        max_l1_iter: request.max_l1_iter,
        particular_method,
        linear_algebra,
        enforce_zero_rx: request.enforce_zero_rx != 0,
        enforce_zero_ry: request.enforce_zero_ry != 0,
        enforce_zero_rz: request.enforce_zero_rz != 0,
        solve_for_q: request.solve_for_q != 0,
        signs: request.signs,
        lower: request.lower,
        upper: request.upper,
        max_iter: request.max_iter,
        tol: request.tol,
        metric,
        q_ref,
        max_frozen_outer: 0,
        max_outer: if request.max_outer == 0 {
            DEFAULT_MAX_OUTER
        } else {
            request.max_outer
        },
        cwls_damping: Real { bits: DEFAULT_TOLERANCE },
    };
    assert(o.metric == InverseMetric::Force ==> o.q_ref@ =~= Seq::<Real>::empty());
    Ok(o)
}

/// Whether `r` can be what comes of a request at the given force densities.
pub open spec fn request_solved<A: Arithmetic, B: Backend>(
    ar: A,
    b: B,
    problem: Problem,
    target: Grid,
    request: InverseRequest,
    current: Seq<Real>,
    r: Result<InverseFdmResult, TheseusError>,
) -> bool {
    match request_refusal(request, problem.topology.num_edges) {
        Some(e) => r == Err::<InverseFdmResult, _>(e),
        None => exists|o: InverseFdmOptions|
            options_requested(request, current, o) && #[trigger] inverse_outcome(
                ar,
                b,
                problem,
                target,
                o,
                r,
            ),
    }
}

/// Solves for the force densities that a request asks for, at the given ones.
pub fn solve_inverse_request<A: Arithmetic, B: Backend>(
    ar: &A,
    b: &B,
    problem: &Problem,
    target_free_xyz: &Array2,
    request: InverseRequest,
    current: &Vec<Real>,
) -> (r: Result<InverseFdmResult, TheseusError>)
    requires
        problem.wf(),
        request_refusal(request, problem.topology.num_edges) is None && box_is_entered(
            *ar,
            *problem,
            target_free_xyz@,
            request.regularization,
            Real { bits: DEFAULT_TOLERANCE },
            reaction_axes(
                problem.n_fixed(),
                request.enforce_zero_rx != 0,
                request.enforce_zero_ry != 0,
                request.enforce_zero_rz != 0,
            ),
            request.solve_for_q != 0,
            request.signs@,
            request.lower@,
            request.upper@,
        ) ==> sound(
            problem.topology.num_edges as nat,
            request.signs@,
            request.lower@,
            request.upper@,
        ),
    ensures
        request_solved(*ar, *b, *problem, target_free_xyz@, request, current@, r),
{
    let opts = match inverse_options(request, current, problem.topology.num_edges) {
        Ok(opts) => opts,
        Err(e) => {
            return Err(e);
        },
    };
    let ghost o = opts;
    let r = solve_inverse_fdm(ar, b, problem, target_free_xyz, opts);
    assert(inverse_outcome(*ar, *b, *problem, target_free_xyz@, o, r));
    r
}

} // verus!
