//! The parts that need no numerical kernel: doubles, bounds, handles, codes and lists.

use theseus::array::Array2;
use theseus::bounds::{
    broadcast_f64, broadcast_i32, clip_to_box, compose_box, feasible_start, validate_unknown,
    BoxBounds,
};
use theseus::double::{
    Real, EPSILON, HALF, INFINITY, MAX, MINUS_ONE, MIN_POSITIVE, NAN, NEG_INFINITY, ONE, TWO, ZERO,
};
use theseus::error::{Buffer, Complaint, Counted, Listed, Source, TheseusError};
use theseus::handle::{
    class_code, copy_text, copy_trace, fill_part, inverse_options, last_error, report_frequency,
    report_sizes, rigidity_options, set_last_error, take_report, InverseRequest,
};
use theseus::lifecycle::HandleLifecycle;
use theseus::loads::{face_offsets_divide, split_faces};
use theseus::nullspace::{NullspaceMethod, NullspaceReport};
use theseus::objectives::{
    rows_of_three, Objective, ReactionMagnitudeBehavior, TargetGeometryReduction,
};
use theseus::options::{
    pick_inner, pick_stage2_inner, InnerKind, InverseFdmOptions, InverseMetric, LinearAlgebra,
    ParticularMethod, DEFAULT_MAX_OUTER,
};
use theseus::prestress::{classify, MechanismClass};
use theseus::supports::{
    all_differ, build_supports, find_first, nurbs_support_data, parse_nurbs_curve_support,
    parse_nurbs_surface_support, read_usize, SupportLists, VariableSupportKind,
};
use theseus::types::{Bounds, FactorizationStrategy, QParameterizationMode, SolverOptions};

fn double(x: f64) -> Real {
    Real { bits: x.to_bits() }
}

fn float(x: Real) -> f64 {
    f64::from_bits(x.bits)
}

fn reals(x: &[f64]) -> Vec<Real> {
    x.iter().map(|v| double(*v)).collect()
}

fn floats(x: &[Real]) -> Vec<f64> {
    x.iter().map(|v| float(*v)).collect()
}

const SAMPLES: [f64; 15] = [
    0.0,
    -0.0,
    1.0,
    -1.0,
    0.5,
    -2.5,
    1e-308,
    5e-324,
    -5e-324,
    1e300,
    -1e300,
    f64::INFINITY,
    f64::NEG_INFINITY,
    f64::NAN,
    f64::MAX,
];

#[test]
fn named_doubles_have_their_values() {
    let named = [
        (ZERO, 0.0),
        (ONE, 1.0),
        (MINUS_ONE, -1.0),
        (HALF, 0.5),
        (TWO, 2.0),
        (INFINITY, f64::INFINITY),
        (NEG_INFINITY, f64::NEG_INFINITY),
        (MAX, f64::MAX),
        (MIN_POSITIVE, f64::MIN_POSITIVE),
        (EPSILON, f64::EPSILON),
        (theseus::double::FRACTION_TOL, 1e-9),
        (theseus::types::MIN_SATURATION, 1e-12),
    ];
    for (bits, value) in named {
        assert_eq!(f64::from_bits(bits), value);
    }
    assert!(f64::from_bits(NAN).is_nan());
}

#[test]
fn comparisons_agree_with_the_machine() {
    for a in SAMPLES {
        let x = double(a);
        assert_eq!(x.is_nan(), a.is_nan());
        assert_eq!(x.is_finite(), a.is_finite());
        assert_eq!(x.neg().bits, (-a).to_bits());
        assert_eq!(x.abs().bits, a.abs().to_bits());
        for b in SAMPLES {
            let y = double(b);
            assert_eq!(x.lt(y), a < b, "{a} < {b}");
            assert_eq!(x.le(y), a <= b, "{a} <= {b}");
            assert_eq!(x.gt(y), a > b, "{a} > {b}");
            assert_eq!(x.ge(y), a >= b, "{a} >= {b}");
            assert_eq!(x.equals(y), a == b, "{a} == {b}");
            if a.is_nan() && b.is_nan() {
                assert!(x.max(y).is_nan() && x.min(y).is_nan());
            } else {
                assert_eq!(float(x.max(y)), a.max(b), "max({a}, {b})");
                assert_eq!(float(x.min(y)), a.min(b), "min({a}, {b})");
            }
        }
    }
    assert_eq!(float(double(7.0).clamp(double(-1.0), double(2.0))), 2.0);
    assert_eq!(float(double(-7.0).clamp(double(-1.0), double(2.0))), -1.0);
    assert_eq!(float(double(0.25).clamp(double(-1.0), double(2.0))), 0.25);
}

#[test]
fn whole_numbers_are_read_exactly() {
    for value in [0.0, 1.0, 3.0, 1e6, 4503599627370497.0] {
        assert!(double(value).is_near_whole());
        assert_eq!(double(value).whole(), value as u64);
    }
    assert!(double(3.0 + 1e-12).is_near_whole());
    assert!(!double(3.5).is_near_whole());
    assert!(matches!(read_usize(double(4.0), Counted::CurveDegree), Ok(4)));
    assert!(matches!(read_usize(double(-0.0), Counted::CurveDegree), Ok(0)));
    for bad in [-1.0, 2.5, f64::NAN, f64::INFINITY] {
        assert!(matches!(
            read_usize(double(bad), Counted::SurfaceKnotsV),
            Err(TheseusError::Shape(Complaint::NotCount(Counted::SurfaceKnotsV)))
        ));
    }
}

#[test]
fn arrays_keep_their_cells() {
    let a = Array2::from_rows(2, 3, reals(&[1.0, 2.0, 3.0, 4.0, 5.0, 6.0])).unwrap();
    assert_eq!(a.dim(), (2, 3));
    assert_eq!((a.nrows(), a.ncols(), a.len()), (2, 3, 6));
    assert_eq!(float(a.get(1, 0).unwrap()), 4.0);
    assert!(a.get(2, 0).is_none());
    assert!(a.get(0, 3).is_none());
    assert_eq!(floats(&a.clone().to_flat()), [1.0, 2.0, 3.0, 4.0, 5.0, 6.0]);
    assert!(Array2::from_rows(2, 3, reals(&[1.0])).is_none());
    let filled = Array2::filled(2, 2, double(7.0)).unwrap();
    assert_eq!(floats(&filled.to_flat()), [7.0; 4]);
    assert!(Array2::filled(usize::MAX, 2, double(7.0)).is_none());
    assert!(!Array2::fits(usize::MAX, 2));
    assert!(Array2::fits(0, 3));
}

#[test]
fn strategy_all_positive() {
    let b = Bounds {
        lower: reals(&[0.1, 0.5]),
        upper: reals(&[10.0, 20.0]),
    };
    assert_eq!(
        FactorizationStrategy::from_bounds(&b),
        FactorizationStrategy::Cholesky
    );
}

#[test]
fn strategy_all_negative() {
    let b = Bounds {
        lower: reals(&[-10.0, -5.0]),
        upper: reals(&[-0.1, -0.5]),
    };
    assert_eq!(
        FactorizationStrategy::from_bounds(&b),
        FactorizationStrategy::LDL
    );
}

#[test]
fn strategy_mixed() {
    let b = Bounds {
        lower: reals(&[-1.0, 0.1]),
        upper: reals(&[1.0, 5.0]),
    };
    assert_eq!(
        FactorizationStrategy::from_bounds(&b),
        FactorizationStrategy::LDL
    );
}

#[test]
fn strategy_zero_lower() {
    let b = Bounds {
        lower: reals(&[0.0, 0.0]),
        upper: reals(&[10.0, 10.0]),
    };
    assert_eq!(
        FactorizationStrategy::from_bounds(&b),
        FactorizationStrategy::LDL
    );
}

#[test]
fn lists_are_spread_over_the_edges() {
    assert_eq!(floats(&broadcast_f64(&vec![], 2, double(3.0)).unwrap()), [3.0, 3.0]);
    assert_eq!(floats(&broadcast_f64(&reals(&[4.0]), 2, double(3.0)).unwrap()), [4.0, 4.0]);
    assert_eq!(floats(&broadcast_f64(&reals(&[4.0, 5.0]), 2, double(3.0)).unwrap()), [4.0, 5.0]);
    assert!(matches!(
        broadcast_f64(&reals(&[4.0, 5.0]), 3, double(3.0)),
        Err(TheseusError::Shape(Complaint::BoundList { found: 2, edges: 3 }))
    ));
    assert_eq!(broadcast_i32(&vec![], 2).unwrap(), [0, 0]);
    assert_eq!(broadcast_i32(&vec![-1], 2).unwrap(), [-1, -1]);
    assert!(matches!(
        broadcast_i32(&vec![1, 1], 3),
        Err(TheseusError::Shape(Complaint::SignList { found: 2, edges: 3 }))
    ));
}

#[test]
fn boxes_respect_signs_and_clip() {
    let b = compose_box(3, &vec![1, -1, 0], &reals(&[-2.0]), &reals(&[5.0])).unwrap();
    assert_eq!(floats(&b.lower), [0.0, -2.0, -2.0]);
    assert_eq!(floats(&b.upper), [5.0, 0.0, 5.0]);
    let clipped = clip_to_box(&reals(&[-1.0, 3.0, 4.0]), &b);
    assert_eq!(floats(&clipped), [0.0, 0.0, 4.0]);
    assert_eq!(floats(&clip_to_box(&clipped, &b)), [0.0, 0.0, 4.0]);
    assert_eq!(floats(&feasible_start(&b)), [1.0, -1.0, 0.0]);
    assert!(matches!(
        compose_box(1, &vec![], &reals(&[2.0]), &reals(&[1.0])),
        Err(TheseusError::Solver(Complaint::EmptyInterval { edge: 0, .. }))
    ));
    assert!(!BoxBounds::unconstrained(2).has_finite());
    assert!(b.has_finite());
}

#[test]
fn unknowns_are_counted_and_finite() {
    assert!(validate_unknown(&reals(&[1.0, 2.0]), 2, Source::Spg).is_ok());
    assert!(matches!(
        validate_unknown(&reals(&[1.0]), 2, Source::Spg),
        Err(TheseusError::Shape(Complaint::WrongCount { source: Source::Spg, found: 1, expected: 2 }))
    ));
    assert!(matches!(
        validate_unknown(&reals(&[1.0, f64::NAN]), 2, Source::InverseFdm),
        Err(TheseusError::Solver(Complaint::NotFinite { source: Source::InverseFdm, edge: 1 }))
    ));
}

#[test]
fn codes_name_their_options() {
    assert_eq!(InverseMetric::try_from(0).unwrap(), InverseMetric::Force);
    assert_eq!(InverseMetric::try_from(1).unwrap(), InverseMetric::Geometry);
    assert_eq!(InverseMetric::try_from(2).unwrap(), InverseMetric::GeometryNewton);
    assert!(matches!(
        InverseMetric::try_from(3),
        Err(TheseusError::Solver(Complaint::UnknownMetric(3)))
    ));
    assert_eq!(LinearAlgebra::try_from(0).unwrap(), LinearAlgebra::Direct);
    assert_eq!(LinearAlgebra::try_from(1).unwrap(), LinearAlgebra::Iterative);
    assert!(matches!(
        LinearAlgebra::try_from(-1),
        Err(TheseusError::Solver(Complaint::UnknownLinearAlgebra(-1)))
    ));
    assert!(matches!(
        ParticularMethod::try_from(4),
        Err(TheseusError::Solver(Complaint::UnknownParticularMethod(4)))
    ));
    assert_eq!(TargetGeometryReduction::try_from(2).unwrap(), TargetGeometryReduction::Rmse);
    assert!(matches!(
        TargetGeometryReduction::try_from(9),
        Err(TheseusError::Shape(Complaint::UnknownReduction(9)))
    ));
    assert_eq!(
        QParameterizationMode::try_from(2).unwrap(),
        QParameterizationMode::DirectBoxBounds
    );
    assert!(matches!(
        QParameterizationMode::try_from(1),
        Err(TheseusError::Shape(Complaint::UnknownParameterization(1)))
    ));
    assert_eq!(InverseMetric::default(), InverseMetric::Force);
    assert!(!InverseMetric::Force.is_geometric());
    assert!(InverseMetric::GeometryNewton.is_geometric());
    assert_eq!(class_code(MechanismClass::PrestressStable), 1);
    assert_eq!(class_code(MechanismClass::FiniteCandidate), 0);
    assert_eq!(class_code(MechanismClass::PrestressUnstable), -1);
}

fn plain_options(particular: ParticularMethod, algebra: LinearAlgebra) -> InverseFdmOptions {
    let mut opts = InverseFdmOptions::direct_unconstrained(
        double(0.0),
        true,
        5,
        particular,
        false,
        false,
        false,
        true,
    );
    opts.linear_algebra = algebra;
    opts
}

#[test]
fn the_inner_solver_follows_the_options() {
    let free = BoxBounds::unconstrained(1);
    let boxed = compose_box(1, &vec![1], &vec![], &vec![]).unwrap();
    let direct = [
        (ParticularMethod::Gram, InnerKind::Gram, InnerKind::Saddle),
        (ParticularMethod::Augmented, InnerKind::Saddle, InnerKind::Saddle),
        (ParticularMethod::SparseQr, InnerKind::Qr, InnerKind::Saddle),
        (ParticularMethod::Clarabel, InnerKind::Clarabel, InnerKind::Saddle),
    ];
    for (method, first, second) in direct {
        let opts = plain_options(method, LinearAlgebra::Direct);
        assert_eq!(pick_inner(&opts, &free), first);
        assert_eq!(pick_stage2_inner(&opts, &free), second);
        assert_eq!(pick_inner(&opts, &boxed), InnerKind::Clarabel);
        assert_eq!(pick_stage2_inner(&opts, &boxed), InnerKind::Clarabel);
        let opts = plain_options(method, LinearAlgebra::Iterative);
        assert_eq!(pick_inner(&opts, &free), InnerKind::Lsqr);
        assert_eq!(pick_inner(&opts, &boxed), InnerKind::Spg);
        assert_eq!(pick_stage2_inner(&opts, &boxed), InnerKind::Spg);
    }
}

#[test]
fn stiffness_is_classified_by_its_sign() {
    let t = double(1e-6);
    assert_eq!(classify(double(1.0), t), MechanismClass::PrestressStable);
    assert_eq!(classify(double(-1.0), t), MechanismClass::PrestressUnstable);
    assert_eq!(classify(double(1e-7), t), MechanismClass::FiniteCandidate);
    assert_eq!(classify(double(-1e-7), t), MechanismClass::FiniteCandidate);
}

#[test]
fn cancel_during_startup_publish_reaches_new_run_token() {
    let mut handle = HandleLifecycle::new("state");
    let run = handle.begin_run().unwrap();
    handle.request_cancel();
    assert!(
        handle.is_cancelled(run.run),
        "cancellation attempted during startup was lost"
    );
}

#[test]
fn scoped_cancel_before_publication_is_consumed_by_matching_run_only() {
    let mut handle = HandleLifecycle::new("state");
    let cancelled_scope = handle.reserve_cancel_scope().unwrap();
    handle.request_scoped_cancel(cancelled_scope);
    let cancelled_run = handle.begin_scoped_run(cancelled_scope).unwrap();
    assert!(handle.is_cancelled(cancelled_run.run));
    handle.end_run(cancelled_run);

    let clean_scope = handle.reserve_cancel_scope().unwrap();
    let clean_run = handle.begin_scoped_run(clean_scope).unwrap();
    assert!(!handle.is_cancelled(clean_run.run));
    handle.end_run(clean_run);
}

#[test]
fn scoped_cancel_reaches_active_matching_run() {
    let mut handle = HandleLifecycle::new("state");
    let scope_id = handle.reserve_cancel_scope().unwrap();
    let run = handle.begin_scoped_run(scope_id).unwrap();
    handle.request_scoped_cancel(scope_id);
    assert!(handle.is_cancelled(run.run));
    handle.end_run(run);
}

#[test]
fn scoped_cancel_racing_completion_cannot_poison_next_run() {
    let mut handle = HandleLifecycle::new("state");
    let scope_id = handle.reserve_cancel_scope().unwrap();
    let run = handle.begin_scoped_run(scope_id).unwrap();
    handle.finish_cancellation_window(run.run).unwrap();
    handle.request_scoped_cancel(scope_id);
    handle.end_run(run);

    let clean_run = handle.begin_run().unwrap();
    assert!(!handle.is_cancelled(clean_run.run));
    handle.end_run(clean_run);
}

#[test]
fn completing_unstarted_scope_clears_pending_latch() {
    let mut handle = HandleLifecycle::new("state");
    let scope_id = handle.reserve_cancel_scope().unwrap();
    handle.request_scoped_cancel(scope_id);
    handle.complete_cancel_scope(scope_id);

    let clean_run = handle.begin_run().unwrap();
    assert!(!handle.is_cancelled(clean_run.run));
    handle.end_run(clean_run);
}

#[test]
fn a_handle_refuses_what_does_not_go_with_its_state() {
    let mut handle = HandleLifecycle::new(17);
    assert_eq!(*handle.require_state().unwrap(), 17);
    assert!(matches!(
        handle.begin_scoped_run(1),
        Err(TheseusError::Solver(Complaint::NoPendingScope))
    ));
    let scope = handle.reserve_cancel_scope().unwrap();
    assert!(matches!(
        handle.reserve_cancel_scope(),
        Err(TheseusError::Solver(Complaint::ScopeAlreadyPending))
    ));
    assert!(matches!(
        handle.begin_scoped_run(scope + 1),
        Err(TheseusError::Solver(Complaint::ScopeMismatch))
    ));
    assert!(matches!(
        handle.begin_run(),
        Err(TheseusError::Solver(Complaint::ScopedSolvePending))
    ));
    let run = handle.begin_scoped_run(scope).unwrap();
    assert!(matches!(
        handle.begin_run(),
        Err(TheseusError::Solver(Complaint::AlreadyRunning))
    ));
    assert!(matches!(
        handle.require_state(),
        Err(TheseusError::Solver(Complaint::HandleBusy))
    ));
    handle.end_run(run);
    let next = handle.reserve_cancel_scope().unwrap();
    assert_ne!(scope, next);
}

#[test]
fn a_scoped_cancel_closes_with_its_window() {
    let mut handle = HandleLifecycle::new(0);
    let scope = handle.reserve_cancel_scope().unwrap();
    handle.request_scoped_cancel(scope);
    let run = handle.begin_scoped_run(scope).unwrap();
    assert!(matches!(
        handle.finish_cancellation_window(run.run),
        Err(TheseusError::Cancelled)
    ));
    handle.end_run(run);
    assert!(handle.begin_run().is_ok());
}

#[test]
fn texts_are_copied_with_their_end() {
    let copy = copy_text("abc", 4);
    assert_eq!(copy.code, 3);
    assert_eq!(copy.bytes, b"abc\0");
    let short = copy_text("abc", 3);
    assert_eq!(short.code, -1);
    assert!(short.bytes.is_empty());
    let empty = last_error("", 8);
    assert_eq!((empty.code, empty.bytes.len()), (0, 0));
    let mut slot = String::from("before");
    set_last_error(&mut slot, "after");
    assert_eq!(slot, "after");
    assert_eq!(last_error(&slot, 16).bytes, b"after\0");
}

#[test]
fn traces_and_frequencies_are_bounded() {
    assert_eq!(report_frequency(0), 1);
    assert_eq!(report_frequency(7), 7);
    let trace = reals(&[3.0, 2.0, 1.0]);
    assert_eq!(floats(&copy_trace(&trace, 2)), [3.0, 2.0]);
    assert_eq!(floats(&copy_trace(&trace, 9)), [3.0, 2.0, 1.0]);
}

fn small_report() -> NullspaceReport {
    NullspaceReport {
        rank: 1,
        s: 1,
        m_raw: 2,
        m: 1,
        n_rigid: 1,
        particular_t: Array2::from_rows(2, 1, reals(&[1.0, 2.0])).unwrap(),
        residual_r: reals(&[0.5, 0.25, 0.125]),
        residual_ratio: double(0.75),
        self_stress: Array2::from_rows(2, 1, reals(&[3.0, 4.0])).unwrap(),
        mechanisms: Array2::from_rows(3, 1, reals(&[5.0, 6.0, 7.0])).unwrap(),
        rigid_bodies: Array2::filled(3, 0, double(0.0)).unwrap(),
    }
}

#[test]
fn reports_fill_buffers_of_the_reported_sizes() {
    let report = small_report();
    let sizes = report_sizes(&report);
    assert_eq!(
        (sizes.particular_len, sizes.residual_len, sizes.self_stress_len),
        (2, 3, 2)
    );
    assert_eq!((sizes.mechanism_len, sizes.rigid_len), (3, 0));
    assert_eq!(
        (sizes.rank, sizes.self_stress_count, sizes.mechanism_raw_count),
        (1, 1, 2)
    );
    let part = |buffer: Buffer, length: usize| {
        floats(&fill_part(&report, buffer, length).unwrap())
    };
    assert_eq!(part(Buffer::ParticularForce, sizes.particular_len), [1.0, 2.0]);
    assert_eq!(part(Buffer::Residual, sizes.residual_len), [0.5, 0.25, 0.125]);
    assert_eq!(part(Buffer::SelfStress, sizes.self_stress_len), [3.0, 4.0]);
    assert_eq!(part(Buffer::Mechanism, sizes.mechanism_len), [5.0, 6.0, 7.0]);
    assert!(part(Buffer::RigidBody, sizes.rigid_len).is_empty());
    assert!(matches!(
        fill_part(&report, Buffer::Mechanism, 4),
        Err(TheseusError::Shape(Complaint::BufferLength {
            buffer: Buffer::Mechanism,
            found: 4,
            expected: 3,
        }))
    ));
    let mut pending = Some(report);
    assert!(take_report(&mut pending).is_ok());
    assert!(matches!(
        take_report(&mut pending),
        Err(TheseusError::Solver(Complaint::NoPendingReport))
    ));
}

#[test]
fn rigidity_codes_choose_the_method() {
    let options = rigidity_options(1, 1, 5).unwrap();
    assert_eq!(options.method, NullspaceMethod::Svd);
    assert_eq!(options.max_modes, 5);
    assert!(options.include_rigid_bodies);
    assert_eq!(rigidity_options(0, 0, 5).unwrap().method, NullspaceMethod::Projector);
    assert_eq!(rigidity_options(2, 0, 5).unwrap().method, NullspaceMethod::SparseQr);
    assert!(matches!(
        rigidity_options(3, 0, 5),
        Err(TheseusError::Shape(Complaint::UnknownRigidityMethod(3)))
    ));
}

fn inverse_request() -> InverseRequest {
    InverseRequest {
        regularization: double(0.25),
        use_l2: 1,
        max_l1_iter: 4,
        particular_method: 2,
        linear_algebra: 1,
        enforce_zero_rx: 0,
        enforce_zero_ry: 1,
        enforce_zero_rz: 0,
        solve_for_q: 1,
        signs: vec![1],
        lower: reals(&[0.5]),
        upper: vec![],
        max_iter: 9,
        tol: double(1e-3),
        metric: 1,
        q_ref: vec![],
        max_outer: 0,
    }
}

#[test]
fn requests_become_options() {
    let current = reals(&[2.0, 3.0]);
    let opts = inverse_options(inverse_request(), &current, 2).unwrap();
    assert_eq!(opts.particular_method, ParticularMethod::SparseQr);
    assert_eq!(opts.linear_algebra, LinearAlgebra::Iterative);
    assert!(opts.use_l2 && opts.solve_for_q && opts.enforce_zero_ry);
    assert!(!opts.enforce_zero_rx && !opts.enforce_zero_rz);
    assert_eq!(floats(&opts.q_ref), [2.0, 3.0]);
    assert_eq!(opts.max_outer, DEFAULT_MAX_OUTER);
    assert_eq!(opts.max_frozen_outer, 0);
    assert_eq!(float(opts.cwls_damping), 1e-6);
    let mut given = inverse_request();
    given.q_ref = reals(&[7.0, 8.0]);
    given.max_outer = 3;
    let opts = inverse_options(given, &current, 2).unwrap();
    assert_eq!(floats(&opts.q_ref), [7.0, 8.0]);
    assert_eq!(opts.max_outer, 3);
    let mut wrong = inverse_request();
    wrong.q_ref = reals(&[7.0]);
    assert!(matches!(
        inverse_options(wrong, &current, 2),
        Err(TheseusError::Shape(Complaint::ReferenceCount { found: 1, expected: 2 }))
    ));
    let mut unknown = inverse_request();
    unknown.metric = 8;
    assert!(matches!(
        inverse_options(unknown, &current, 2),
        Err(TheseusError::Solver(Complaint::UnknownMetric(8)))
    ));
}

#[test]
fn faces_are_cut_at_their_offsets() {
    let offsets = vec![0, 3, 3, 7];
    let vertices = vec![0, 1, 2, 2, 3, 4, 5];
    assert!(face_offsets_divide(&offsets, vertices.len()));
    let faces = split_faces(&offsets, &vertices).faces;
    assert_eq!(faces, vec![vec![0, 1, 2], vec![], vec![2, 3, 4, 5]]);
    assert_eq!(faces.concat(), vertices);
    assert!(!face_offsets_divide(&vec![], 3));
    assert!(!face_offsets_divide(&vec![0, 4], 3));
    assert!(!face_offsets_divide(&vec![2, 1], 3));
}

#[test]
fn objectives_hold_their_targets() {
    match Objective::target_xyz(double(2.0), vec![4, 5], reals(&[1.0, 2.0, 3.0, 4.0, 5.0, 6.0]), 1) {
        Ok(Objective::TargetXyz { weight, node_indices, target, reduction }) => {
            assert_eq!(float(weight), 2.0);
            assert_eq!(node_indices, [4, 5]);
            assert_eq!(target.dim(), (2, 3));
            assert_eq!(float(target.get(1, 2).unwrap()), 6.0);
            assert_eq!(reduction, TargetGeometryReduction::Mse);
        }
        other => panic!("{other:?}"),
    }
    assert!(matches!(
        Objective::target_xyz(double(2.0), vec![4, 5], reals(&[1.0]), 1),
        Err(TheseusError::Shape(Complaint::ListLength(Listed::Targets)))
    ));
    assert!(matches!(
        Objective::target_xyz(double(2.0), vec![], vec![], 5),
        Err(TheseusError::Shape(Complaint::UnknownReduction(5)))
    ));
    assert!(matches!(
        rows_of_three(2, reals(&[1.0]), Listed::Loads),
        Err(TheseusError::Shape(Complaint::ListLength(Listed::Loads)))
    ));
    assert_eq!(ReactionMagnitudeBehavior::Coded(3), ReactionMagnitudeBehavior::Coded(3));
}

#[test]
fn solver_options_are_configured() {
    let mut options = SolverOptions {
        max_iterations: 1,
        absolute_tolerance: double(1.0),
        relative_tolerance: double(1.0),
        report_frequency: 9,
        barrier_weight: double(1.0),
        barrier_sharpness: double(1.0),
        anchor_saturation_lambda: double(1.0),
        q_parameterization_mode: QParameterizationMode::DirectBoxBounds,
    };
    options.configure(5, double(1e-3), double(1e-4), double(2.0), double(3.0), double(0.0));
    assert_eq!(options.max_iterations, 5);
    assert_eq!(options.report_frequency, 1);
    assert_eq!(float(options.absolute_tolerance), 1e-3);
    assert_eq!(float(options.relative_tolerance), 1e-4);
    assert_eq!(float(options.barrier_weight), 2.0);
    assert_eq!(float(options.barrier_sharpness), 3.0);
    assert_eq!(float(options.anchor_saturation_lambda), 1e-12);
    assert_eq!(options.q_parameterization_mode, QParameterizationMode::DirectBoxBounds);
}

fn curve_data() -> Vec<f64> {
    vec![
        1.0, 4.0, 2.0, 0.0, 1.0, 0.25, 0.0, 0.0, 1.0, 1.0, 0.0, 0.0, 0.0, 1.0, 2.0, 0.0, 0.0, 1.0,
    ]
}

#[test]
fn curves_are_read_from_their_numbers() {
    match parse_nurbs_curve_support(&reals(&curve_data())) {
        Ok(VariableSupportKind::NurbsCurve { curve, domain, initial_t }) => {
            assert_eq!(curve.degree, 1);
            assert_eq!(floats(&curve.knots), [0.0, 0.0, 1.0, 1.0]);
            assert_eq!(curve.control_points.len(), 2);
            assert_eq!(floats(&curve.control_points[1]), [2.0, 0.0, 0.0, 1.0]);
            assert_eq!(floats(&domain), [0.0, 1.0]);
            assert_eq!(float(initial_t), 0.25);
        }
        other => panic!("{other:?}"),
    }
    assert!(matches!(
        parse_nurbs_curve_support(&reals(&[1.0; 5])),
        Err(TheseusError::Shape(Complaint::CurveShort))
    ));
    let mut long = curve_data();
    long.push(0.0);
    assert!(matches!(
        parse_nurbs_curve_support(&reals(&long)),
        Err(TheseusError::Shape(Complaint::CurveLength { found: 19, expected: 18 }))
    ));
    let mut odd = curve_data();
    odd[1] = 4.5;
    assert!(matches!(
        parse_nurbs_curve_support(&reals(&odd)),
        Err(TheseusError::Shape(Complaint::NotCount(Counted::CurveKnots)))
    ));
}

#[test]
fn surfaces_are_read_from_their_numbers() {
    let mut data = vec![1.0, 1.0, 2.0, 1.0, 2.0, 1.0, 0.0, 1.0, 0.0, 2.0, 0.5, 0.75];
    data.extend([0.0, 1.0]);
    data.extend([0.5]);
    data.extend([1.0, 2.0, 3.0, 1.0, 4.0, 5.0, 6.0, 1.0]);
    match parse_nurbs_surface_support(&reals(&data)) {
        Ok(VariableSupportKind::NurbsSurface { surface, domain_u, domain_v, initial_uv }) => {
            assert_eq!((surface.degree_u, surface.degree_v), (1, 1));
            assert_eq!((surface.count_u, surface.count_v), (2, 1));
            assert_eq!(floats(&surface.knots_u), [0.0, 1.0]);
            assert_eq!(floats(&surface.knots_v), [0.5]);
            assert_eq!(floats(&surface.control_points[1]), [4.0, 5.0, 6.0, 1.0]);
            assert_eq!(floats(&domain_u), [0.0, 1.0]);
            assert_eq!(floats(&domain_v), [0.0, 2.0]);
            assert_eq!(floats(&initial_uv), [0.5, 0.75]);
        }
        other => panic!("{other:?}"),
    }
    assert!(matches!(
        parse_nurbs_surface_support(&reals(&data[..11])),
        Err(TheseusError::Shape(Complaint::SurfaceShort))
    ));
    assert!(matches!(
        parse_nurbs_surface_support(&reals(&data[..20])),
        Err(TheseusError::Shape(Complaint::SurfaceLength { found: 20, expected: 23 }))
    ));
    data[2] = 1e18;
    data[3] = 1e18;
    assert!(matches!(
        parse_nurbs_surface_support(&reals(&data)),
        Err(TheseusError::Shape(Complaint::SurfaceOverflow))
    ));
}

#[test]
fn support_data_are_cut_out_of_the_whole() {
    let data = reals(&[1.0, 2.0, 3.0, 4.0]);
    let cut = nurbs_support_data(1, &vec![0, 1], &vec![1, 3], &data).unwrap();
    assert_eq!(floats(&cut), [2.0, 3.0, 4.0]);
    assert!(matches!(
        nurbs_support_data(2, &vec![0, 1], &vec![1, 3], &data),
        Err(TheseusError::Shape(Complaint::GeometryMissing { support: 2 }))
    ));
    assert!(matches!(
        nurbs_support_data(0, &vec![2], &vec![3], &data),
        Err(TheseusError::Shape(Complaint::GeometryRange { support: 0 }))
    ));
    assert!(matches!(
        nurbs_support_data(0, &vec![usize::MAX], &vec![3], &data),
        Err(TheseusError::Shape(Complaint::GeometryOverflow))
    ));
}

fn one_support(node: usize, kind: i32) -> SupportLists {
    SupportLists {
        nodes: vec![node],
        kinds: vec![kind],
        lambdas: None,
        radii: reals(&[2.0]),
        roller_enabled: vec![true, false, true],
        roller_lower: reals(&[-1.0, -2.0, -3.0]),
        roller_upper: reals(&[1.0, 2.0, 3.0]),
        rail_start: reals(&[0.0, 0.0, 0.0]),
        rail_end: reals(&[1.0, 0.0, 0.0]),
        nurbs_offsets: vec![0],
        nurbs_lengths: vec![18],
        nurbs_data: reals(&curve_data()),
        nurbs_refusals: vec![None],
    }
}

#[test]
fn supports_start_at_their_fixed_nodes() {
    let fixed = vec![3, 5];
    let positions = Array2::from_rows(2, 3, reals(&[1.0, 2.0, 3.0, 4.0, 5.0, 6.0])).unwrap();
    let built = build_supports(&one_support(5, 0), &fixed, &positions).unwrap();
    assert_eq!(built.len(), 1);
    assert_eq!(built[0].node_index, 5);
    assert_eq!(floats(&built[0].reference_position), [4.0, 5.0, 6.0]);
    assert_eq!(float(built[0].saturation_lambda), 1.0);
    assert!(matches!(&built[0].kind, VariableSupportKind::Sphere { radius } if float(*radius) == 2.0));
    assert!(one_support(5, 0).is_sized());
    let roller = build_supports(&one_support(3, 1), &fixed, &positions).unwrap();
    assert!(matches!(
        &roller[0].kind,
        VariableSupportKind::Roller { enabled, .. } if *enabled == [true, false, true]
    ));
    assert!(matches!(
        build_supports(&one_support(3, 2), &fixed, &positions).unwrap()[0].kind,
        VariableSupportKind::Rail { .. }
    ));
    assert!(matches!(
        build_supports(&one_support(3, 3), &fixed, &positions).unwrap()[0].kind,
        VariableSupportKind::NurbsCurve { .. }
    ));
    assert!(matches!(
        build_supports(&one_support(4, 0), &fixed, &positions),
        Err(TheseusError::Shape(Complaint::SupportNotFixed { node: 4 }))
    ));
    assert!(matches!(
        build_supports(&one_support(5, 9), &fixed, &positions),
        Err(TheseusError::Shape(Complaint::SupportKind { code: 9, support: 0 }))
    ));
    let mut lists = one_support(5, 0);
    lists.radii = reals(&[0.0]);
    assert!(matches!(
        build_supports(&lists, &fixed, &positions),
        Err(TheseusError::Shape(Complaint::SphereRadius { support: 0 }))
    ));
    let mut lists = one_support(5, 1);
    lists.roller_enabled = vec![false; 3];
    assert!(matches!(
        build_supports(&lists, &fixed, &positions),
        Err(TheseusError::Shape(Complaint::RollerAxes { support: 0 }))
    ));
    let refused = |kind: i32| {
        let mut lists = one_support(5, kind);
        lists.nurbs_refusals = vec![Some("no curve".to_string())];
        build_supports(&lists, &fixed, &positions)
    };
    assert!(matches!(
        refused(3),
        Err(TheseusError::Shape(Complaint::Worded(words))) if words == "no curve"
    ));
    assert!(refused(2).is_ok());
    let mut lists = one_support(5, 0);
    lists.lambdas = Some(reals(&[f64::NAN]));
    assert!(matches!(
        build_supports(&lists, &fixed, &positions),
        Err(TheseusError::Shape(Complaint::SupportSaturation { support: 0 }))
    ));
    let mut lists = one_support(5, 0);
    lists.nodes = vec![5, 5];
    lists.kinds = vec![0, 0];
    lists.radii = reals(&[1.0, 1.0]);
    lists.nurbs_refusals = vec![None, None];
    lists.roller_enabled = vec![true; 6];
    lists.roller_lower = reals(&[0.0; 6]);
    lists.roller_upper = reals(&[0.0; 6]);
    lists.rail_start = reals(&[0.0; 6]);
    lists.rail_end = reals(&[0.0; 6]);
    assert!(matches!(
        build_supports(&lists, &fixed, &positions),
        Err(TheseusError::Shape(Complaint::SupportsNotUnique))
    ));
    assert_eq!(find_first(&vec![4, 7, 7], 7), Some(1));
    assert_eq!(find_first(&vec![4, 7, 7], 8), None);
    assert!(all_differ(&vec![4, 7]));
    assert!(!all_differ(&vec![4, 7, 4]));
}
